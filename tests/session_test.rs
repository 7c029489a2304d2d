use git_graph_tui::action::Action;
use git_graph_tui::mode::{AppMode, ConfirmAction, InputAction};
use git_graph_tui::session::{decide, Effect, SelectedBranch};

fn branch(name: &str, is_head: bool, is_remote: bool) -> SelectedBranch {
    SelectedBranch { name: name.to_string(), is_head, is_remote }
}

#[test]
fn normal_mode_moves_and_pages() {
    assert!(matches!(decide(&AppMode::Normal, Action::MoveUp, None), Effect::MoveBy(-1)));
    assert!(matches!(decide(&AppMode::Normal, Action::PageDown, None), Effect::MoveBy(10)));
    assert!(matches!(decide(&AppMode::Normal, Action::Quit, None), Effect::Quit));
    assert!(matches!(decide(&AppMode::Normal, Action::Confirm, None), Effect::Ignore));
}

#[test]
fn delete_asks_only_for_other_local_branches() {
    let feature = branch("feature", false, false);
    match decide(&AppMode::Normal, Action::DeleteBranch, Some(&feature)) {
        Effect::AskConfirm(ConfirmAction::DeleteBranch(name)) => assert_eq!(name, "feature"),
        _ => panic!("expected a confirmation"),
    }
    let head = branch("main", true, false);
    assert!(matches!(decide(&AppMode::Normal, Action::DeleteBranch, Some(&head)), Effect::Ignore));
    let remote = branch("origin/x", false, true);
    assert!(matches!(decide(&AppMode::Normal, Action::DeleteBranch, Some(&remote)), Effect::Ignore));
    assert!(matches!(decide(&AppMode::Normal, Action::DeleteBranch, None), Effect::Ignore));
    match decide(&AppMode::Normal, Action::Merge, Some(&remote)) {
        Effect::AskConfirm(ConfirmAction::Merge(name)) => assert_eq!(name, "origin/x"),
        _ => panic!("expected a confirmation"),
    }
}

#[test]
fn dialogs_close_and_edit() {
    assert!(matches!(decide(&AppMode::Help, Action::Cancel, None), Effect::Close));
    assert!(matches!(decide(&AppMode::Help, Action::MoveUp, None), Effect::Ignore));
    let input = AppMode::Input {
        title: "t".to_string(),
        input: String::new(),
        action: InputAction::CreateBranch,
    };
    assert!(matches!(decide(&input, Action::InputChar('x'), None), Effect::TypeChar('x')));
    assert!(matches!(decide(&input, Action::Confirm, None), Effect::SubmitInput));
    let confirm = AppMode::Confirm {
        message: "m".to_string(),
        action: ConfirmAction::Rebase("b".to_string()),
    };
    assert!(matches!(decide(&confirm, Action::Confirm, None), Effect::RunConfirmed));
    assert!(matches!(decide(&confirm, Action::Cancel, None), Effect::Close));
    let error = AppMode::Error { message: "e".to_string() };
    assert!(matches!(decide(&error, Action::Confirm, None), Effect::Close));
}
