//! Summary of the changes a commit makes.

use vstd::prelude::*;

verus! {

/// Largest number of files listed in a [`CommitDiffInfo`].
pub const MAX_FILES_TO_DISPLAY: usize = 50;

/// How a file changed.
#[derive(Debug, Clone, Copy, PartialEq, Eq, Structural)]
pub enum FileChangeKind {
    Added,
    Modified,
    Deleted,
    Renamed,
    Copied,
}

/// Changes to one file.
#[derive(Debug, Clone)]
pub struct FileDiffInfo {
    /// Path of the file.
    pub path: String,
    pub kind: FileChangeKind,
    /// Lines added.
    pub insertions: usize,
    /// Lines removed.
    pub deletions: usize,
}

/// Changes of one commit.
#[derive(Debug, Clone)]
pub struct CommitDiffInfo {
    /// Changed files, at most `MAX_FILES_TO_DISPLAY` of them.
    pub files: Vec<FileDiffInfo>,
    pub total_insertions: usize,
    pub total_deletions: usize,
    /// Number of changed files, listed or not.
    pub total_files: usize,
    /// Whether some changed files are not listed.
    pub truncated: bool,
}

impl Default for CommitDiffInfo {
    fn default() -> (r: Self)
        ensures
            r.files@.len() == 0,
            r.total_insertions == 0,
            r.total_deletions == 0,
            r.total_files == 0,
            !r.truncated,
    {
        CommitDiffInfo {
            files: Vec::new(),
            total_insertions: 0,
            total_deletions: 0,
            total_files: 0,
            truncated: false,
        }
    }
}

/// Status of a changed file as the diff reports it.
#[derive(Debug, Clone, Copy, PartialEq, Eq, Structural)]
pub enum DeltaStatus {
    Added,
    Deleted,
    Modified,
    Renamed,
    Copied,
    /// Any other status (unmodified, ignored, untracked, type change, ...).
    Other,
}

/// One changed file as the diff reports it.
pub struct DeltaInfo {
    pub status: DeltaStatus,
    pub is_binary: bool,
    pub old_path: Option<String>,
    pub new_path: Option<String>,
}

/// One line of the diff's patch, with the file it belongs to.
pub struct DiffLine {
    pub is_binary: bool,
    pub old_path: Option<String>,
    pub new_path: Option<String>,
    /// `'+'` for an added line, `'-'` for a removed one.
    pub origin: char,
}

pub open spec fn change_kind(s: DeltaStatus) -> Option<FileChangeKind> {
    match s {
        DeltaStatus::Added => Some(FileChangeKind::Added),
        DeltaStatus::Deleted => Some(FileChangeKind::Deleted),
        DeltaStatus::Modified => Some(FileChangeKind::Modified),
        DeltaStatus::Renamed => Some(FileChangeKind::Renamed),
        DeltaStatus::Copied => Some(FileChangeKind::Copied),
        DeltaStatus::Other => None,
    }
}

/// The file a delta lists: not for binary files or other statuses; the old
/// path of a deleted file, the new path otherwise.
pub open spec fn listed_file(d: DeltaInfo) -> Option<(Seq<char>, FileChangeKind)> {
    match change_kind(d.status) {
        None => None,
        Some(kind) => {
            let path = if kind == FileChangeKind::Deleted { d.old_path } else { d.new_path };
            if d.is_binary || path is None {
                None
            } else {
                Some((path->Some_0@, kind))
            }
        },
    }
}

/// The files listed by `ds`, in order.
pub open spec fn listed_files(ds: Seq<DeltaInfo>) -> Seq<(Seq<char>, FileChangeKind)>
    decreases ds.len(),
{
    if ds.len() == 0 {
        Seq::empty()
    } else {
        let rest = listed_files(ds.drop_last());
        match listed_file(ds.last()) {
            Some(f) => rest.push(f),
            None => rest,
        }
    }
}

/// Path of the file a patch line belongs to: its new path, else its old one.
pub open spec fn line_path(l: DiffLine) -> Option<Seq<char>> {
    match l.new_path {
        Some(p) => Some(p@),
        None => match l.old_path {
            Some(p) => Some(p@),
            None => None,
        },
    }
}

/// Number of non-binary lines of `lines` with `origin` that belong to `path`.
pub open spec fn lines_of(lines: Seq<DiffLine>, path: Seq<char>, origin: char) -> nat
    decreases lines.len(),
{
    if lines.len() == 0 {
        0
    } else {
        let l = lines.last();
        lines_of(lines.drop_last(), path, origin) + if !l.is_binary && l.origin == origin && line_path(l)
            == Some(path) {
            1nat
        } else {
            0nat
        }
    }
}

pub open spec fn has_path(files: Seq<(Seq<char>, FileChangeKind)>, p: Seq<char>) -> bool {
    exists|k: int| 0 <= k < files.len() && (#[trigger] files[k]).0 == p
}

/// Number of non-binary lines with `origin` that belong to one of `files`.
pub open spec fn counted_lines(lines: Seq<DiffLine>, files: Seq<(Seq<char>, FileChangeKind)>, origin: char) -> nat
    decreases lines.len(),
{
    if lines.len() == 0 {
        0
    } else {
        let l = lines.last();
        counted_lines(lines.drop_last(), files, origin) + if !l.is_binary && l.origin == origin && line_path(l) is Some
            && has_path(files, line_path(l)->Some_0) {
            1nat
        } else {
            0nat
        }
    }
}

/// File `k` is the first of `files` with its path: lines are counted there.
pub open spec fn first_with_path(files: Seq<(Seq<char>, FileChangeKind)>, k: int) -> bool {
    forall|q: int| 0 <= q < k ==> (#[trigger] files[q]).0 != files[k].0
}

fn change_kind_exec(s: DeltaStatus) -> (r: Option<FileChangeKind>)
    ensures
        r == change_kind(s),
{
    match s {
        DeltaStatus::Added => Some(FileChangeKind::Added),
        DeltaStatus::Deleted => Some(FileChangeKind::Deleted),
        DeltaStatus::Modified => Some(FileChangeKind::Modified),
        DeltaStatus::Renamed => Some(FileChangeKind::Renamed),
        DeltaStatus::Copied => Some(FileChangeKind::Copied),
        DeltaStatus::Other => None,
    }
}

fn kind_is_deleted(k: FileChangeKind) -> (r: bool)
    ensures
        r == (k == FileChangeKind::Deleted),
{
    match k {
        FileChangeKind::Deleted => true,
        _ => false,
    }
}

fn find_path(paths: &Vec<String>, p: &String) -> (r: Option<usize>)
    ensures
        r matches Some(k) ==> k < paths@.len() && paths@[k as int]@ == p@ && forall|q: int| 0 <= q < k ==> (#[trigger] paths@[q])@ != p@,
        r is None ==> forall|q: int| 0 <= q < paths@.len() ==> (#[trigger] paths@[q])@ != p@,
{
    let mut k: usize = 0;
    while k < paths.len()
        invariant
            k <= paths@.len(),
            forall|q: int| 0 <= q < k ==> (#[trigger] paths@[q])@ != p@,
        decreases paths@.len() - k,
    {
        if paths[k].eq(p) {
            return Some(k);
        }
        k += 1;
    }
    None
}

fn listed_file_exec(d: &DeltaInfo) -> (r: Option<(String, FileChangeKind)>)
    ensures
        r is Some ==> listed_file(*d) == Some((r->Some_0.0@, r->Some_0.1)),
        r is None ==> listed_file(*d) is None,
{
    let kind = match change_kind_exec(d.status) {
        Some(kind) => kind,
        None => return None,
    };
    if d.is_binary {
        return None;
    }
    let path = if kind_is_deleted(kind) { &d.old_path } else { &d.new_path };
    match path {
        Some(p) => Some((p.clone(), kind)),
        None => None,
    }
}

impl CommitDiffInfo {
    /// Summary of a commit's changes: the files of the first
    /// `MAX_FILES_TO_DISPLAY` deltas (binary files and other statuses left out),
    /// each with its added and removed lines; the totals count the lines of the
    /// listed files.
    pub fn from_diff(deltas: &[DeltaInfo], lines: &[DiffLine]) -> (r: CommitDiffInfo)
        ensures
            r.total_files == deltas@.len(),
            r.truncated == (deltas@.len() > MAX_FILES_TO_DISPLAY),
            ({
                let shown = if deltas@.len() > MAX_FILES_TO_DISPLAY {
                    deltas@.subrange(0, MAX_FILES_TO_DISPLAY as int)
                } else {
                    deltas@
                };
                let files = listed_files(shown);
                &&& r.files@.len() == files.len()
                &&& forall|k: int|
                    0 <= k < files.len() ==> {
                        &&& (#[trigger] r.files@[k]).path@ == files[k].0
                        &&& r.files@[k].kind == files[k].1
                        &&& r.files@[k].insertions == if first_with_path(files, k) {
                            lines_of(lines@, files[k].0, '+')
                        } else {
                            0
                        }
                        &&& r.files@[k].deletions == if first_with_path(files, k) {
                            lines_of(lines@, files[k].0, '-')
                        } else {
                            0
                        }
                    }
                &&& r.total_insertions == counted_lines(lines@, files, '+')
                &&& r.total_deletions == counted_lines(lines@, files, '-')
            }),
    {
        let n = if deltas.len() > MAX_FILES_TO_DISPLAY { MAX_FILES_TO_DISPLAY } else { deltas.len() };
        let ghost shown = if deltas@.len() > MAX_FILES_TO_DISPLAY {
            deltas@.subrange(0, MAX_FILES_TO_DISPLAY as int)
        } else {
            deltas@
        };
        assert(shown =~= deltas@.subrange(0, n as int));
        let mut paths: Vec<String> = Vec::new();
        let mut kinds: Vec<FileChangeKind> = Vec::new();
        let mut i: usize = 0;
        while i < n
            invariant
                i <= n <= deltas@.len(),
                paths@.len() == kinds@.len(),
                paths@.len() == listed_files(deltas@.subrange(0, i as int)).len(),
                forall|k: int|
                    0 <= k < paths@.len() ==> (#[trigger] paths@[k])@ == listed_files(deltas@.subrange(0, i as int))[k].0
                        && kinds@[k] == listed_files(deltas@.subrange(0, i as int))[k].1,
            decreases n - i,
        {
            assert(deltas@.subrange(0, i + 1).drop_last() =~= deltas@.subrange(0, i as int));
            let ghost before = listed_files(deltas@.subrange(0, i as int));
            let ghost after = listed_files(deltas@.subrange(0, i + 1));
            let ghost old_len = paths@.len();
            assert(deltas@.subrange(0, i + 1).last() == deltas@[i as int]);
            assert(after == match listed_file(deltas@[i as int]) {
                Some(f) => before.push(f),
                None => before,
            });
            if let Some((p, kind)) = listed_file_exec(&deltas[i]) {
                paths.push(p);
                kinds.push(kind);
                assert forall|k: int| 0 <= k < paths@.len() implies (#[trigger] paths@[k])@ == after[k].0 && kinds@[k] == after[k].1 by {
                    if k < old_len {
                        assert(after[k] == before[k]);
                    }
                }
            }
            i += 1;
        }
        let ghost files = listed_files(shown);
        let mut ins: Vec<usize> = Vec::new();
        let mut dels: Vec<usize> = Vec::new();
        let mut k: usize = 0;
        while k < paths.len()
            invariant
                k <= paths@.len(),
                ins@.len() == k,
                dels@.len() == k,
                forall|q: int| 0 <= q < k ==> ins@[q] == 0 && dels@[q] == 0,
            decreases paths@.len() - k,
        {
            ins.push(0);
            dels.push(0);
            k += 1;
        }
        let mut total_insertions: usize = 0;
        let mut total_deletions: usize = 0;
        let ghost ps = paths@;
        let ghost ks = kinds@;
        let mut j: usize = 0;
        while j < lines.len()
            invariant
                paths@ == ps,
                kinds@ == ks,
                j <= lines@.len(),
                paths@.len() == files.len(),
                kinds@.len() == files.len(),
                forall|q: int| 0 <= q < files.len() ==> (#[trigger] paths@[q])@ == files[q].0 && kinds@[q] == files[q].1,
                ins@.len() == files.len(),
                dels@.len() == files.len(),
                forall|q: int|
                    0 <= q < files.len() ==> #[trigger] ins@[q] == (if first_with_path(files, q) {
                        lines_of(lines@.subrange(0, j as int), files[q].0, '+')
                    } else {
                        0
                    }) && dels@[q] == (if first_with_path(files, q) {
                        lines_of(lines@.subrange(0, j as int), files[q].0, '-')
                    } else {
                        0
                    }),
                total_insertions == counted_lines(lines@.subrange(0, j as int), files, '+'),
                total_deletions == counted_lines(lines@.subrange(0, j as int), files, '-'),
                forall|q: int| 0 <= q < files.len() ==> #[trigger] ins@[q] <= j,
                forall|q: int| 0 <= q < files.len() ==> #[trigger] dels@[q] <= j,
                total_insertions <= j,
                total_deletions <= j,
            decreases lines@.len() - j,
        {
            let ghost pre = lines@.subrange(0, j as int);
            let ghost lj = lines@[j as int];
            assert(lines@.subrange(0, j + 1).drop_last() =~= pre);
            assert(lines@.subrange(0, j + 1).last() == lj);
            assert forall|path: Seq<char>, o: char| #[trigger] lines_of(lines@.subrange(0, j + 1), path, o) == lines_of(pre, path, o)
                + if !lj.is_binary && lj.origin == o && line_path(lj) == Some(path) { 1nat } else { 0nat } by {}
            let l = &lines[j];
            let lp = match &l.new_path {
                Some(p) => Some(p),
                None => match &l.old_path {
                    Some(p) => Some(p),
                    None => None,
                },
            };
            if !l.is_binary && (l.origin == '+' || l.origin == '-') {
                if let Some(p) = lp {
                    match find_path(&paths, p) {
                        Some(f) => {
                            proof {
                                assert(has_path(files, p@)) by {
                                    assert(files[f as int].0 == p@);
                                }
                                assert forall|q: int| 0 <= q < f implies (#[trigger] files[q]).0 != files[f as int].0 by {
                                    assert(paths@[q]@ == files[q].0);
                                }
                                assert(first_with_path(files, f as int));
                                assert forall|q: int| 0 <= q < files.len() && q != f && first_with_path(files, q) implies files[q].0 != p@ by {
                                    if files[q].0 == p@ {
                                        if q < f {
                                            assert(files[q].0 == files[f as int].0);
                                        } else {
                                            assert(files[f as int].0 == files[q].0);
                                        }
                                    }
                                }
                            }
                            if l.origin == '+' {
                                let c = ins[f];
                                ins.set(f, c + 1);
                                total_insertions = total_insertions + 1;
                            } else {
                                let c = dels[f];
                                dels.set(f, c + 1);
                                total_deletions = total_deletions + 1;
                            }
                        },
                        None => {
                            proof {
                                assert(!has_path(files, p@)) by {
                                    if has_path(files, p@) {
                                        let q = choose|q: int| 0 <= q < files.len() && (#[trigger] files[q]).0 == p@;
                                        assert(paths@[q]@ == p@);
                                    }
                                }
                            }
                        },
                    }
                }
            }
            j += 1;
        }
        assert(lines@.subrange(0, lines@.len() as int) =~= lines@);
        let mut out: Vec<FileDiffInfo> = Vec::new();
        let mut k: usize = 0;
        while k < paths.len()
            invariant
                k <= paths@.len(),
                paths@.len() == kinds@.len(),
                ins@.len() == paths@.len(),
                dels@.len() == paths@.len(),
                out@.len() == k,
                forall|q: int|
                    0 <= q < k ==> (#[trigger] out@[q]).path@ == paths@[q]@ && out@[q].kind == kinds@[q]
                        && out@[q].insertions == ins@[q] && out@[q].deletions == dels@[q],
            decreases paths@.len() - k,
        {
            out.push(FileDiffInfo { path: paths[k].clone(), kind: kinds[k], insertions: ins[k], deletions: dels[k] });
            k += 1;
        }
        CommitDiffInfo {
            files: out,
            total_insertions,
            total_deletions,
            total_files: deltas.len(),
            truncated: deltas.len() > MAX_FILES_TO_DISPLAY,
        }
    }
}

} // verus!
