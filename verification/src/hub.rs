use vstd::prelude::*;

verus! {

/// Title shown on a hub pane.
pub fn title() -> (r: &'static str)
    ensures
        r@ == "Hub"@,
{
    "Hub"
}

} // verus!
