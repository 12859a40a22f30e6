use vstd::prelude::*;

verus! {

/// The content payload a leaf carries: one of the pane kinds this
/// application offers. The layout engine never inspects it.
#[derive(Clone, Copy, Debug, PartialEq, Eq, Structural)]
pub enum Pane {
    Editor,
    Project,
    Hub,
}

impl Pane {
    /// Display title of this pane kind.
    pub fn title(&self) -> (r: &'static str)
        ensures
            *self == Pane::Editor ==> r@ == "Editor"@,
            *self == Pane::Project ==> r@ == "Project"@,
            *self == Pane::Hub ==> r@ == "Hub"@,
    {
        match self {
            Pane::Editor => crate::editor::title(),
            Pane::Project => crate::project::title(),
            Pane::Hub => crate::hub::title(),
        }
    }
}

} // verus!
