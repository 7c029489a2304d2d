//! What the user interface does in answer to an action, in each mode.

use vstd::prelude::*;
use crate::action::Action;
use crate::mode::{AppMode, ConfirmAction, InputAction};

verus! {

/// The branch shown first at the selected row.
pub struct SelectedBranch {
    pub name: String,
    pub is_head: bool,
    pub is_remote: bool,
}

/// What the front end carries out next.
pub enum Effect {
    /// Nothing happens.
    Ignore,
    Quit,
    /// Moves the selection by this many rows.
    MoveBy(i64),
    GoToTop,
    GoToBottom,
    JumpToHead,
    NextBranch,
    PrevBranch,
    ShowHelp,
    /// Back to normal mode.
    Close,
    Refresh,
    /// Checks out the selected branch, or else the selected commit.
    Checkout,
    /// Opens the input for a new branch name, or for a search.
    StartInput(InputAction),
    /// Asks to confirm an operation.
    AskConfirm(ConfirmAction),
    /// Appends a character to the input.
    TypeChar(char),
    /// Removes the input's last character.
    Backspace,
    /// Uses the input (creates the branch, or jumps to the search pick), then
    /// returns to normal mode.
    SubmitInput,
    /// Runs the confirmed operation, refreshes, and returns to normal mode.
    RunConfirmed,
    /// Moves the search selection up (`true`) or down.
    SearchStep(bool),
}

fn confirm_for(make: u8, b: &SelectedBranch) -> (r: ConfirmAction)
    requires
        make < 3,
    ensures
        make == 0 ==> r == ConfirmAction::DeleteBranch(b.name),
        make == 1 ==> r == ConfirmAction::Merge(b.name),
        make == 2 ==> r == ConfirmAction::Rebase(b.name),
{
    let name = b.name.clone();
    if make == 0 {
        ConfirmAction::DeleteBranch(name)
    } else if make == 1 {
        ConfirmAction::Merge(name)
    } else {
        ConfirmAction::Rebase(name)
    }
}

/// The effect of `action` in `mode`; `selected` is the branch at the selected
/// row, if any.
pub fn decide(mode: &AppMode, action: Action, selected: Option<&SelectedBranch>) -> (r: Effect)
    ensures
        match *mode {
            AppMode::Normal => match action {
                Action::Quit => r == Effect::Quit,
                Action::MoveUp => r == Effect::MoveBy(-1i64),
                Action::MoveDown => r == Effect::MoveBy(1i64),
                Action::PageUp => r == Effect::MoveBy(-10i64),
                Action::PageDown => r == Effect::MoveBy(10i64),
                Action::GoToTop => r == Effect::GoToTop,
                Action::GoToBottom => r == Effect::GoToBottom,
                Action::JumpToHead => r == Effect::JumpToHead,
                Action::NextBranch => r == Effect::NextBranch,
                Action::PrevBranch => r == Effect::PrevBranch,
                Action::ToggleHelp => r == Effect::ShowHelp,
                Action::Refresh => r == Effect::Refresh,
                Action::Checkout => r == Effect::Checkout,
                Action::CreateBranch => r == Effect::StartInput(InputAction::CreateBranch),
                Action::Search => r == Effect::StartInput(InputAction::Search),
                // a local branch other than HEAD's can be deleted
                Action::DeleteBranch => r == match selected {
                    Some(b) => if !b.is_head && !b.is_remote {
                        Effect::AskConfirm(ConfirmAction::DeleteBranch(b.name))
                    } else {
                        Effect::Ignore
                    },
                    None => Effect::Ignore,
                },
                // any branch other than HEAD's can be merged in or rebased onto
                Action::Merge => r == match selected {
                    Some(b) => if !b.is_head {
                        Effect::AskConfirm(ConfirmAction::Merge(b.name))
                    } else {
                        Effect::Ignore
                    },
                    None => Effect::Ignore,
                },
                Action::Rebase => r == match selected {
                    Some(b) => if !b.is_head {
                        Effect::AskConfirm(ConfirmAction::Rebase(b.name))
                    } else {
                        Effect::Ignore
                    },
                    None => Effect::Ignore,
                },
                _ => r == Effect::Ignore,
            },
            AppMode::Help => r == match action {
                Action::ToggleHelp | Action::Quit | Action::Cancel => Effect::Close,
                _ => Effect::Ignore,
            },
            AppMode::Error { .. } => r == match action {
                Action::Quit | Action::Cancel | Action::Confirm => Effect::Close,
                _ => Effect::Ignore,
            },
            AppMode::Input { .. } => r == match action {
                Action::Confirm => Effect::SubmitInput,
                Action::Cancel => Effect::Close,
                Action::InputChar(c) => Effect::TypeChar(c),
                Action::InputBackspace => Effect::Backspace,
                Action::SearchSelectUp | Action::SearchSelectUpQuiet => Effect::SearchStep(true),
                Action::SearchSelectDown | Action::SearchSelectDownQuiet => Effect::SearchStep(false),
                _ => Effect::Ignore,
            },
            AppMode::Confirm { .. } => r == match action {
                Action::Confirm => Effect::RunConfirmed,
                Action::Cancel => Effect::Close,
                _ => Effect::Ignore,
            },
        },
{
    match mode {
        AppMode::Normal => match action {
            Action::Quit => Effect::Quit,
            Action::MoveUp => Effect::MoveBy(-1),
            Action::MoveDown => Effect::MoveBy(1),
            Action::PageUp => Effect::MoveBy(-10),
            Action::PageDown => Effect::MoveBy(10),
            Action::GoToTop => Effect::GoToTop,
            Action::GoToBottom => Effect::GoToBottom,
            Action::JumpToHead => Effect::JumpToHead,
            Action::NextBranch => Effect::NextBranch,
            Action::PrevBranch => Effect::PrevBranch,
            Action::ToggleHelp => Effect::ShowHelp,
            Action::Refresh => Effect::Refresh,
            Action::Checkout => Effect::Checkout,
            Action::CreateBranch => Effect::StartInput(InputAction::CreateBranch),
            Action::Search => Effect::StartInput(InputAction::Search),
            Action::DeleteBranch => match selected {
                Some(b) => if !b.is_head && !b.is_remote {
                    Effect::AskConfirm(confirm_for(0, b))
                } else {
                    Effect::Ignore
                },
                None => Effect::Ignore,
            },
            Action::Merge => match selected {
                Some(b) => if !b.is_head {
                    Effect::AskConfirm(confirm_for(1, b))
                } else {
                    Effect::Ignore
                },
                None => Effect::Ignore,
            },
            Action::Rebase => match selected {
                Some(b) => if !b.is_head {
                    Effect::AskConfirm(confirm_for(2, b))
                } else {
                    Effect::Ignore
                },
                None => Effect::Ignore,
            },
            _ => Effect::Ignore,
        },
        AppMode::Help => match action {
            Action::ToggleHelp | Action::Quit | Action::Cancel => Effect::Close,
            _ => Effect::Ignore,
        },
        AppMode::Error { .. } => match action {
            Action::Quit | Action::Cancel | Action::Confirm => Effect::Close,
            _ => Effect::Ignore,
        },
        AppMode::Input { .. } => match action {
            Action::Confirm => Effect::SubmitInput,
            Action::Cancel => Effect::Close,
            Action::InputChar(c) => Effect::TypeChar(c),
            Action::InputBackspace => Effect::Backspace,
            Action::SearchSelectUp | Action::SearchSelectUpQuiet => Effect::SearchStep(true),
            Action::SearchSelectDown | Action::SearchSelectDownQuiet => Effect::SearchStep(false),
            _ => Effect::Ignore,
        },
        AppMode::Confirm { .. } => match action {
            Action::Confirm => Effect::RunConfirmed,
            Action::Cancel => Effect::Close,
            _ => Effect::Ignore,
        },
    }
}

} // verus!
