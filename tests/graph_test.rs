use git_graph_tui::graph::{BranchInfo, CellType, CommitId, CommitInfo, GraphLayout, GraphNode};
use git_graph_tui::layout::{build_graph, build_graph_with_uncommitted, insert_uncommitted_node};

fn make_oid(id: &str) -> CommitId {
    let hash = id
        .bytes()
        .fold(0u128, |acc, b| acc.wrapping_mul(31).wrapping_add(b as u128));
    CommitId {
        hi: (hash >> 96) as u64,
        mid: (hash >> 32) as u64,
        lo: hash as u32,
    }
}

fn make_commit(id: &str, parents: Vec<&str>) -> CommitInfo {
    CommitInfo {
        oid: make_oid(id),
        short_id: id.to_string(),
        author_name: "test".to_string(),
        author_email: "test@example.com".to_string(),
        timestamp: 0,
        message: format!("Commit {}", id),
        full_message: format!("Commit {}", id),
        parent_oids: parents.into_iter().map(make_oid).collect(),
    }
}

fn make_branch(name: &str, tip: &str, is_head: bool) -> BranchInfo {
    BranchInfo {
        name: name.to_string(),
        tip_oid: make_oid(tip),
        is_head,
        is_remote: false,
        upstream: None,
    }
}

fn render_cells(cells: &[CellType]) -> String {
    cells
        .iter()
        .map(|c| match c {
            CellType::Empty => ' ',
            CellType::Pipe(_) => '│',
            CellType::Commit(_) => '○',
            CellType::BranchRight(_) => '╭',
            CellType::BranchLeft(_) => '╮',
            CellType::MergeRight(_) => '╰',
            CellType::MergeLeft(_) => '╯',
            CellType::Horizontal(_) => '─',
            CellType::HorizontalPipe(_, _) => '┼',
            CellType::TeeRight(_) => '├',
            CellType::TeeLeft(_) => '┤',
            CellType::TeeUp(_) => '┴',
        })
        .collect()
}

fn get_short_id(node: &GraphNode) -> String {
    node.commit
        .as_ref()
        .map(|c| c.short_id.clone())
        .unwrap_or_else(|| "(connector)".to_string())
}

fn print_layout(title: &str, layout: &GraphLayout) {
    println!("\n{}:", title);
    for node in &layout.nodes {
        println!(
            "  {} lane={} -> '{}'",
            get_short_id(node),
            node.lane,
            render_cells(&node.cells)
        );
    }
}

fn commit_lane(layout: &GraphLayout, id: &str) -> usize {
    layout
        .nodes
        .iter()
        .find(|n| n.commit.as_ref().map(|c| c.short_id == id).unwrap_or(false))
        .map(|n| n.lane)
        .unwrap()
}

fn commit_row(layout: &GraphLayout, id: &str) -> usize {
    layout
        .nodes
        .iter()
        .position(|n| n.commit.as_ref().map(|c| c.short_id == id).unwrap_or(false))
        .unwrap()
}

fn color_at(cell: CellType) -> Option<usize> {
    match cell {
        CellType::Empty => None,
        CellType::Pipe(c)
        | CellType::Commit(c)
        | CellType::BranchRight(c)
        | CellType::BranchLeft(c)
        | CellType::MergeRight(c)
        | CellType::MergeLeft(c)
        | CellType::Horizontal(c)
        | CellType::HorizontalPipe(c, _)
        | CellType::TeeRight(c)
        | CellType::TeeLeft(c)
        | CellType::TeeUp(c) => Some(c),
    }
}

#[test]
fn test_linear_history() {
    // C3 -> C2 -> C1
    let commits = vec![
        make_commit("c3", vec!["c2"]),
        make_commit("c2", vec!["c1"]),
        make_commit("c1", vec![]),
    ];
    let branches = vec![make_branch("main", "c3", true)];

    let layout = build_graph(&commits, &branches);
    print_layout("Linear history", &layout);

    assert_eq!(layout.max_lane, 0);
    for node in &layout.nodes {
        assert_eq!(node.lane, 0);
    }
}

#[test]
fn test_simple_branch_merge() {
    let commits = vec![
        make_commit("c4", vec!["c3", "c2"]),
        make_commit("c3", vec!["c1"]),
        make_commit("c2", vec!["c1"]),
        make_commit("c1", vec![]),
    ];
    let branches = vec![
        make_branch("main", "c4", true),
        make_branch("feature", "c2", false),
    ];

    let layout = build_graph(&commits, &branches);
    print_layout("Simple branch merge", &layout);

    let commit_nodes: Vec<_> = layout.nodes.iter().filter(|n| n.commit.is_some()).collect();
    assert_eq!(commit_nodes[0].lane, 0); // C4
    assert_eq!(commit_nodes[1].lane, 0); // C3
    assert_eq!(commit_nodes[2].lane, 1); // C2
    assert_eq!(commit_nodes[3].lane, 0); // C1
}

#[test]
fn test_multiple_merges() {
    let commits = vec![
        make_commit("c7", vec!["c6", "c5"]),
        make_commit("c6", vec!["c4"]),
        make_commit("c5", vec!["c4"]),
        make_commit("c4", vec!["c3", "c2"]),
        make_commit("c3", vec!["c1"]),
        make_commit("c2", vec!["c1"]),
        make_commit("c1", vec![]),
    ];
    let branches = vec![
        make_branch("main", "c7", true),
        make_branch("feature", "c5", false),
        make_branch("develop", "c2", false),
    ];

    let layout = build_graph(&commits, &branches);
    print_layout("Multiple merges", &layout);
}

#[test]
fn test_cell_structure() {
    let commits = vec![
        make_commit("m1", vec!["a1", "b1"]),
        make_commit("a1", vec!["r1"]),
        make_commit("b1", vec!["r1"]),
        make_commit("r1", vec![]),
    ];
    let branches = vec![make_branch("main", "m1", true)];

    let layout = build_graph(&commits, &branches);
    println!("\nCell structure analysis:");
    for node in &layout.nodes {
        println!("  {} cells: {:?}", get_short_id(node), node.cells);
    }

    let m1_cells = &layout.nodes[0].cells;
    println!("  m1 rendered: '{}'", render_cells(m1_cells));
    assert!(
        matches!(m1_cells.get(0), Some(CellType::Commit(_))),
        "m1 cell[0] should be Commit, got {:?}",
        m1_cells.get(0)
    );
}

#[test]
fn test_octopus_merge() {
    let commits = vec![
        make_commit("M", vec!["A", "B", "C"]),
        make_commit("A", vec!["R"]),
        make_commit("B", vec!["R"]),
        make_commit("C", vec!["R"]),
        make_commit("R", vec![]),
    ];
    let branches = vec![
        make_branch("main", "M", true),
        make_branch("branch-b", "B", false),
        make_branch("branch-c", "C", false),
    ];

    let layout = build_graph(&commits, &branches);
    print_layout("Octopus merge", &layout);
}

#[test]
fn test_parallel_branches() {
    let commits = vec![
        make_commit("M2", vec!["A2", "B2"]),
        make_commit("A2", vec!["A1"]),
        make_commit("B2", vec!["B1"]),
        make_commit("A1", vec!["M1"]),
        make_commit("B1", vec!["M1"]),
        make_commit("M1", vec!["R", "X"]),
        make_commit("X", vec!["R"]),
        make_commit("R", vec![]),
    ];
    let branches = vec![make_branch("main", "M2", true)];

    let layout = build_graph(&commits, &branches);
    print_layout("Parallel branches", &layout);
}

#[test]
fn test_many_active_lanes() {
    let commits = vec![
        make_commit("HEAD", vec!["M"]),
        make_commit("M", vec!["A", "B", "C", "D"]),
        make_commit("A", vec!["R"]),
        make_commit("B", vec!["R"]),
        make_commit("C", vec!["R"]),
        make_commit("D", vec!["R"]),
        make_commit("R", vec![]),
    ];
    let branches = vec![
        make_branch("main", "HEAD", true),
        make_branch("b", "B", false),
        make_branch("c", "C", false),
        make_branch("d", "D", false),
    ];

    let layout = build_graph(&commits, &branches);
    print_layout("Many active lanes", &layout);

    assert!(layout.max_lane >= 3, "Expected max_lane >= 3, got {}", layout.max_lane);
}

#[test]
fn linear_scenario_has_no_connector_rows() {
    let commits = vec![
        make_commit("C3", vec!["C2"]),
        make_commit("C2", vec!["C1"]),
        make_commit("C1", vec![]),
    ];
    let branches = vec![make_branch("main", "C3", true)];
    let layout = build_graph(&commits, &branches);
    assert_eq!(layout.nodes.len(), 3);
    assert_eq!(layout.max_lane, 0);
    assert!(layout.nodes.iter().all(|n| n.commit.is_some() && n.lane == 0));
    assert_eq!(layout.nodes[0].branch_names, vec!["main".to_string()]);
    assert!(layout.nodes[0].is_head);
    assert!(!layout.nodes[1].is_head);
    assert_eq!(render_cells(&layout.nodes[1].cells), "○ ");
}

#[test]
fn simple_merge_scenario_joins_lane_one() {
    let commits = vec![
        make_commit("C4", vec!["C3", "C2"]),
        make_commit("C3", vec!["C1"]),
        make_commit("C2", vec!["C1"]),
        make_commit("C1", vec![]),
    ];
    let branches = vec![
        make_branch("main", "C4", true),
        make_branch("feature", "C2", false),
    ];
    let layout = build_graph(&commits, &branches);
    print_layout("Simple merge scenario", &layout);
    assert_eq!(commit_lane(&layout, "C4"), 0);
    assert_eq!(commit_lane(&layout, "C3"), 0);
    assert_eq!(commit_lane(&layout, "C2"), 1);
    assert_eq!(commit_lane(&layout, "C1"), 0);
    assert_eq!(layout.max_lane, 1);
    assert_eq!(render_cells(&layout.nodes[0].cells), "○─╮ ");
    // the fan-in row right above C1 joins lane 1 into lane 0
    let c1 = commit_row(&layout, "C1");
    assert!(layout.nodes[c1 - 1].commit.is_none());
    assert_eq!(render_cells(&layout.nodes[c1 - 1].cells), "├─╯ ");
    assert_eq!(layout.nodes[0].color_index, 9);
    assert_eq!(layout.nodes[1].color_index, 9);
}

#[test]
fn octopus_scenario_uses_distinct_sibling_colors() {
    let commits = vec![
        make_commit("M", vec!["A", "B", "C"]),
        make_commit("A", vec!["R"]),
        make_commit("B", vec!["R"]),
        make_commit("C", vec!["R"]),
        make_commit("R", vec![]),
    ];
    let branches = vec![make_branch("main", "M", true)];
    let layout = build_graph(&commits, &branches);
    print_layout("Octopus scenario", &layout);
    let lanes = [
        commit_lane(&layout, "A"),
        commit_lane(&layout, "B"),
        commit_lane(&layout, "C"),
    ];
    assert_eq!(lanes, [0, 1, 2]);
    let m = &layout.nodes[0].cells;
    let b_color = color_at(m[2]).unwrap();
    let c_color = color_at(m[4]).unwrap();
    assert_ne!(b_color, c_color);
    assert_ne!(b_color, 9);
    assert_ne!(c_color, 9);
    // all three lanes converge into R's single lane
    let r = commit_row(&layout, "R");
    assert_eq!(layout.nodes[r].lane, 0);
    assert_eq!(render_cells(&layout.nodes[r - 1].cells), "├─┴─╯ ");
    assert_eq!(render_cells(&layout.nodes[r].cells), "○     ");
}

#[test]
fn hotfix_merged_twice_keeps_its_pipe() {
    let commits = vec![
        make_commit("release_merge", vec!["version_bump", "hotfix"]),
        make_commit("main_merge", vec!["base", "hotfix"]),
        make_commit("version_bump", vec!["base"]),
        make_commit("hotfix", vec!["base"]),
        make_commit("base", vec![]),
    ];
    let branches = vec![make_branch("main", "main_merge", true)];
    let layout = build_graph(&commits, &branches);
    print_layout("Hotfix merged twice", &layout);
    let hotfix_lane = commit_lane(&layout, "hotfix");
    let mm = commit_row(&layout, "main_merge");
    let hf = commit_row(&layout, "hotfix");
    assert!(matches!(layout.nodes[mm].cells[2 * hotfix_lane], CellType::TeeRight(_)));
    for row in mm + 1..hf {
        assert!(
            matches!(layout.nodes[row].cells[2 * hotfix_lane], CellType::Pipe(_)),
            "row {} breaks the hotfix pipe",
            row
        );
    }
}

#[test]
fn uncommitted_changes_row_on_head_lane() {
    let commits = vec![
        make_commit("H", vec!["P"]),
        make_commit("P", vec![]),
    ];
    let branches = vec![make_branch("main", "H", true)];
    let head = make_oid("H");
    let layout = build_graph_with_uncommitted(&commits, &branches, Some(3), Some(head));
    assert_eq!(layout.nodes.len(), 3);
    let top = &layout.nodes[0];
    assert!(top.is_uncommitted);
    assert!(top.commit.is_none());
    assert_eq!(top.uncommitted_count, 3);
    assert_eq!(top.lane, 0);
    assert_eq!(render_cells(&top.cells), "○ ");
    assert_eq!(get_short_id(&layout.nodes[1]), "H");
}

#[test]
fn uncommitted_changes_pipe_above_head() {
    let commits = vec![
        make_commit("T", vec!["H"]),
        make_commit("H", vec!["P"]),
        make_commit("P", vec![]),
    ];
    let branches = vec![make_branch("main", "H", true)];
    let mut layout = build_graph(&commits, &branches);
    assert!(insert_uncommitted_node(&mut layout, 3, make_oid("H")));
    print_layout("Uncommitted above T", &layout);
    // lane 0 is taken by T above HEAD, so the row goes to lane 1
    assert_eq!(layout.nodes[0].lane, 1);
    assert_eq!(layout.max_lane, 1);
    assert!(matches!(layout.nodes[1].cells[2], CellType::Pipe(_)));
    assert_eq!(render_cells(&layout.nodes[2].cells), "○─╯ ");
}

#[test]
fn uncommitted_without_count_or_head_row_is_skipped() {
    let commits = vec![make_commit("H", vec![])];
    let branches = vec![make_branch("main", "H", true)];
    let layout = build_graph_with_uncommitted(&commits, &branches, None, Some(make_oid("H")));
    assert_eq!(layout.nodes.len(), 1);
    let layout = build_graph_with_uncommitted(&commits, &branches, Some(2), Some(make_oid("X")));
    assert_eq!(layout.nodes.len(), 1);
    let mut layout = build_graph(&commits, &branches);
    assert!(!insert_uncommitted_node(&mut layout, 2, make_oid("X")));
    assert_eq!(layout.nodes.len(), 1);
}

#[test]
fn same_input_gives_same_layout() {
    let commits = vec![
        make_commit("M", vec!["A", "B", "C"]),
        make_commit("A", vec!["R"]),
        make_commit("B", vec!["R"]),
        make_commit("C", vec!["R"]),
        make_commit("R", vec![]),
    ];
    let branches = vec![make_branch("main", "M", true), make_branch("b", "B", false)];
    let a = build_graph(&commits, &branches);
    let b = build_graph(&commits, &branches);
    assert_eq!(a.max_lane, b.max_lane);
    assert_eq!(a.nodes.len(), b.nodes.len());
    for (x, y) in a.nodes.iter().zip(b.nodes.iter()) {
        assert_eq!(x.lane, y.lane);
        assert_eq!(x.color_index, y.color_index);
        assert_eq!(x.cells, y.cells);
        assert_eq!(x.branch_names, y.branch_names);
    }
}

#[test]
fn every_row_has_one_commit_cell_at_most() {
    let commits = vec![
        make_commit("M2", vec!["A2", "B2"]),
        make_commit("A2", vec!["A1"]),
        make_commit("B2", vec!["B1"]),
        make_commit("A1", vec!["M1"]),
        make_commit("B1", vec!["M1"]),
        make_commit("M1", vec!["R", "X"]),
        make_commit("X", vec!["R"]),
        make_commit("R", vec![]),
    ];
    let layout = build_graph(&commits, &[]);
    let mut highest = 0;
    for node in &layout.nodes {
        let n = node.cells.iter().filter(|c| matches!(c, CellType::Commit(_))).count();
        assert_eq!(n, if node.commit.is_some() { 1 } else { 0 });
        assert_eq!(node.cells.len(), (layout.max_lane + 1) * 2);
        for (j, c) in node.cells.iter().enumerate() {
            if *c != CellType::Empty && j % 2 == 0 {
                highest = highest.max(j / 2);
            }
        }
    }
    assert_eq!(highest, layout.max_lane);
}

#[test]
fn empty_history_gives_empty_layout() {
    let layout = build_graph(&[], &[]);
    assert!(layout.nodes.is_empty());
    assert_eq!(layout.max_lane, 0);
}

#[test]
fn unknown_parents_are_ignored() {
    let commits = vec![
        make_commit("B", vec!["A", "gone"]),
        make_commit("A", vec!["missing"]),
    ];
    let layout = build_graph(&commits, &[]);
    assert_eq!(layout.max_lane, 0);
    assert_eq!(layout.nodes.len(), 2);
}

#[test]
fn truncated_linear_history_stays_in_lane_zero() {
    // the last commit's parent was not fetched
    let commits = vec![
        make_commit("C3", vec!["C2"]),
        make_commit("C2", vec!["C1"]),
        make_commit("C1", vec!["C0"]),
    ];
    let layout = build_graph(&commits, &[make_branch("main", "C3", true)]);
    assert_eq!(layout.max_lane, 0);
    assert_eq!(layout.nodes.len(), 3);
    for node in &layout.nodes {
        assert_eq!(node.lane, 0);
        assert_eq!(node.color_index, 9);
        assert_eq!(node.cells, vec![CellType::Commit(9), CellType::Empty]);
    }
}

#[test]
fn dangling_parents_do_not_change_the_layout() {
    let with = vec![
        make_commit("M", vec!["A", "gone1", "B"]),
        make_commit("A", vec!["R", "gone2"]),
        make_commit("B", vec!["R"]),
        make_commit("R", vec!["gone3"]),
    ];
    let without = vec![
        make_commit("M", vec!["A", "B"]),
        make_commit("A", vec!["R"]),
        make_commit("B", vec!["R"]),
        make_commit("R", vec![]),
    ];
    let a = build_graph(&with, &[]);
    let b = build_graph(&without, &[]);
    assert_eq!(a.max_lane, b.max_lane);
    assert_eq!(a.nodes.len(), b.nodes.len());
    for (x, y) in a.nodes.iter().zip(b.nodes.iter()) {
        assert_eq!(x.lane, y.lane);
        assert_eq!(x.color_index, y.color_index);
        assert_eq!(x.cells, y.cells);
    }
}
