use git_graph_tui::diff::{
    CommitDiffInfo, DeltaInfo, DeltaStatus, DiffLine, FileChangeKind,
};

fn delta(status: DeltaStatus, path: &str) -> DeltaInfo {
    DeltaInfo {
        status,
        is_binary: false,
        old_path: Some(path.to_string()),
        new_path: Some(path.to_string()),
    }
}

fn line(path: &str, origin: char) -> DiffLine {
    DiffLine {
        is_binary: false,
        old_path: Some(path.to_string()),
        new_path: Some(path.to_string()),
        origin,
    }
}

#[test]
fn empty_diff_is_default() {
    let d = CommitDiffInfo::from_diff(&[], &[]);
    let e = CommitDiffInfo::default();
    assert_eq!(d.files.len(), e.files.len());
    assert_eq!(d.total_files, 0);
    assert!(!d.truncated);
}

#[test]
fn counts_lines_per_file() {
    let deltas = vec![
        delta(DeltaStatus::Modified, "a.rs"),
        delta(DeltaStatus::Added, "b.rs"),
        delta(DeltaStatus::Deleted, "c.rs"),
    ];
    let lines = vec![
        line("a.rs", '+'),
        line("a.rs", '+'),
        line("a.rs", '-'),
        line("b.rs", '+'),
        line("c.rs", '-'),
        line("c.rs", ' '),
        line("zzz.rs", '+'),
    ];
    let d = CommitDiffInfo::from_diff(&deltas, &lines);
    assert_eq!(d.total_files, 3);
    assert_eq!(d.files.len(), 3);
    assert_eq!(d.files[0].path, "a.rs");
    assert_eq!(d.files[0].kind, FileChangeKind::Modified);
    assert_eq!((d.files[0].insertions, d.files[0].deletions), (2, 1));
    assert_eq!(d.files[1].kind, FileChangeKind::Added);
    assert_eq!((d.files[1].insertions, d.files[1].deletions), (1, 0));
    assert_eq!(d.files[2].kind, FileChangeKind::Deleted);
    assert_eq!((d.files[2].insertions, d.files[2].deletions), (0, 1));
    assert_eq!(d.total_insertions, 3);
    assert_eq!(d.total_deletions, 2);
}

#[test]
fn binary_and_other_files_are_skipped() {
    let mut bin = delta(DeltaStatus::Modified, "img.png");
    bin.is_binary = true;
    let deltas = vec![bin, delta(DeltaStatus::Other, "x"), delta(DeltaStatus::Renamed, "y")];
    let d = CommitDiffInfo::from_diff(&deltas, &[]);
    assert_eq!(d.total_files, 3);
    assert_eq!(d.files.len(), 1);
    assert_eq!(d.files[0].kind, FileChangeKind::Renamed);
}

#[test]
fn deleted_file_uses_old_path() {
    let deltas = vec![DeltaInfo {
        status: DeltaStatus::Deleted,
        is_binary: false,
        old_path: Some("gone.txt".to_string()),
        new_path: None,
    }];
    let d = CommitDiffInfo::from_diff(&deltas, &[]);
    assert_eq!(d.files[0].path, "gone.txt");
}

#[test]
fn long_diffs_are_truncated() {
    let deltas: Vec<DeltaInfo> = (0..60)
        .map(|i| delta(DeltaStatus::Modified, &format!("f{}.rs", i)))
        .collect();
    let lines = vec![line("f55.rs", '+'), line("f1.rs", '+')];
    let d = CommitDiffInfo::from_diff(&deltas, &lines);
    assert_eq!(d.total_files, 60);
    assert!(d.truncated);
    assert_eq!(d.files.len(), 50);
    assert_eq!(d.total_insertions, 1);
    assert_eq!(d.files[1].insertions, 1);
}
