use git_graph_tui::labels::{branch_labels, BranchLabel};

fn names(ns: &[&str]) -> Vec<String> {
    ns.iter().map(|n| n.to_string()).collect()
}

fn text(labels: &[BranchLabel]) -> Vec<String> {
    labels
        .iter()
        .map(|l| match l {
            BranchLabel::Local(n) => format!("local:{}", n),
            BranchLabel::Paired(n) => format!("paired:{}", n),
            BranchLabel::Remote(n) => format!("remote:{}", n),
        })
        .collect()
}

#[test]
fn local_and_origin_twin_share_a_label() {
    let labels = branch_labels(&names(&["main", "origin/main"]));
    assert_eq!(text(&labels), vec!["paired:main"]);
}

#[test]
fn unpaired_names_keep_their_own_labels() {
    let labels = branch_labels(&names(&["origin/feature", "dev", "main", "origin/main"]));
    assert_eq!(text(&labels), vec!["local:dev", "paired:main", "remote:origin/feature"]);
}

#[test]
fn no_names_no_labels() {
    assert!(branch_labels(&[]).is_empty());
    let labels = branch_labels(&names(&["origin/x"]));
    assert_eq!(text(&labels), vec!["remote:origin/x"]);
}
