use git_graph_tui::graph::{BranchInfo, CommitId, CommitInfo};
use git_graph_tui::layout::build_graph;
use git_graph_tui::navigation::{head_row_index, move_selection, next_branch_row, prev_branch_row};

fn id(n: u32) -> CommitId {
    CommitId { hi: 0, mid: 0, lo: n }
}

fn commit(n: u32, parents: &[u32]) -> CommitInfo {
    CommitInfo {
        oid: id(n),
        short_id: format!("c{}", n),
        author_name: String::new(),
        author_email: String::new(),
        timestamp: 0,
        message: String::new(),
        full_message: String::new(),
        parent_oids: parents.iter().map(|p| id(*p)).collect(),
    }
}

fn branch(name: &str, tip: u32, is_head: bool) -> BranchInfo {
    BranchInfo { name: name.to_string(), is_head, is_remote: false, upstream: None, tip_oid: id(tip) }
}

#[test]
fn selection_moves_within_rows() {
    assert_eq!(move_selection(3, -1, 10), 2);
    assert_eq!(move_selection(3, -10, 10), 0);
    assert_eq!(move_selection(3, 10, 10), 9);
    assert_eq!(move_selection(3, 4, 10), 7);
    assert_eq!(move_selection(0, 5, 0), 0);
    assert_eq!(move_selection(usize::MAX, i64::MAX, 3), 2);
}

#[test]
fn branch_rows_are_found_in_both_directions() {
    let commits = vec![commit(4, &[3]), commit(3, &[2]), commit(2, &[1]), commit(1, &[])];
    let branches = vec![branch("main", 4, true), branch("old", 2, false)];
    let layout = build_graph(&commits, &branches);
    assert_eq!(next_branch_row(&layout.nodes, 0), Some(2));
    assert_eq!(next_branch_row(&layout.nodes, 2), None);
    assert_eq!(prev_branch_row(&layout.nodes, 3), Some(2));
    assert_eq!(prev_branch_row(&layout.nodes, 2), Some(0));
    assert_eq!(prev_branch_row(&layout.nodes, 0), None);
    assert_eq!(head_row_index(&layout.nodes), Some(0));
}
