//! User actions.

use vstd::prelude::*;

verus! {

/// What a key press asks the application to do.
#[derive(Debug, Clone, Copy, PartialEq, Eq, Structural)]
pub enum Action {
    // Navigation
    MoveUp,
    MoveDown,
    PageUp,
    PageDown,
    GoToTop,
    GoToBottom,
    JumpToHead,
    NextBranch,
    PrevBranch,
    BranchLeft,
    BranchRight,
    // Git operations
    Checkout,
    CreateBranch,
    DeleteBranch,
    Fetch,
    Merge,
    Rebase,
    // UI
    ToggleHelp,
    Search,
    Refresh,
    Quit,
    // Dialogs
    Confirm,
    Cancel,
    InputChar(char),
    InputBackspace,
    // Search dropdown
    SearchSelectUp,
    SearchSelectDown,
    /// Moves the selection without jumping in the graph.
    SearchSelectUpQuiet,
    /// Moves the selection without jumping in the graph.
    SearchSelectDownQuiet,
}

} // verus!
