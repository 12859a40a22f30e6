use vstd::prelude::*;

verus! {

/// Title shown on a project pane.
pub fn title() -> (r: &'static str)
    ensures
        r@ == "Project"@,
{
    "Project"
}

} // verus!
