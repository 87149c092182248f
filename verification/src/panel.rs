use vstd::prelude::*;

verus! {

/// Which of the editor's two side panels are open.
#[derive(Debug, Clone, Copy, PartialEq, Eq, Structural)]
pub struct PanelTabState {
    pub edit_menu: bool,
    pub graph_io: bool,
}

impl Default for PanelTabState {
    /// Both panels start open.
    fn default() -> (r: Self)
        ensures
            r.edit_menu,
            r.graph_io,
    {
        PanelTabState { edit_menu: true, graph_io: true }
    }
}

} // verus!
