use vstd::prelude::*;

verus! {

/// Title shown on an editor pane.
pub fn title() -> (r: &'static str)
    ensures
        r@ == "Editor"@,
{
    "Editor"
}

} // verus!
