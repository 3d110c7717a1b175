//! The small shared pieces of the interactive session state that the
//! surrounding application builds on: which view is shown, how an edit is
//! targeted, and the state of the search view.

use vstd::prelude::*;

verus! {

/// Which side of a card an edit addresses, if any.
#[derive(Clone, Copy, Debug, PartialEq, Eq, Structural)]
pub enum EditMode {
    NoEdit,
    EditFront,
    EditBack,
}

/// Which view the session currently shows.
#[derive(Clone, Copy, Debug, PartialEq, Eq, Structural)]
pub enum TMemoStateView {
    Main,
    Review,
    Hotkeys,
    Find,
    Edit,
}

/// The state of the search view: the entered text, the matching card
/// indices, and the cursor among them.
#[derive(Debug)]
pub struct FindViewState {
    pub search_input: String,
    pub search_results: Vec<usize>,
    pub search_index: usize,
}

impl FindViewState {
    /// An empty search.
    pub fn new() -> (r: FindViewState)
        ensures
            r.search_input@ == Seq::<char>::empty(),
            r.search_results@.len() == 0,
            r.search_index == 0,
    {
        FindViewState { search_input: String::new(), search_results: Vec::new(), search_index: 0 }
    }
}

} // verus!
