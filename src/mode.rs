//! Modes of the application's user interface.

use vstd::prelude::*;

verus! {

/// What a text input is for.
#[derive(Debug, Clone, Copy, PartialEq, Eq, Structural)]
pub enum InputAction {
    CreateBranch,
    Search,
}

/// An operation waiting for confirmation, with the branch it applies to.
#[derive(Debug, Clone)]
pub enum ConfirmAction {
    DeleteBranch(String),
    Merge(String),
    Rebase(String),
}

/// The mode the user interface is in.
#[derive(Debug, Clone)]
pub enum AppMode {
    Normal,
    Help,
    Input { title: String, input: String, action: InputAction },
    Confirm { message: String, action: ConfirmAction },
    Error { message: String },
}

} // verus!
