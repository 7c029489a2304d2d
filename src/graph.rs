//! Commit graph layout: lanes, connector rows and the cell grid of each row.

use vstd::prelude::*;

verus! {

/// A commit id: the 160-bit object hash, split into three words.
#[derive(Clone, Copy, Debug, PartialEq, Eq, Structural, Hash)]
pub struct CommitId {
    pub hi: u64,
    pub mid: u64,
    pub lo: u32,
}

/// A commit as the layout sees it.
#[derive(Clone, Debug)]
pub struct CommitInfo {
    pub oid: CommitId,
    pub short_id: String,
    pub author_name: String,
    pub author_email: String,
    /// Seconds since the Unix epoch.
    pub timestamp: i64,
    pub message: String,
    pub full_message: String,
    /// Parent ids; the first one is the first parent.
    pub parent_oids: Vec<CommitId>,
}

/// A branch reference.
#[derive(Clone, Debug)]
pub struct BranchInfo {
    pub name: String,
    pub is_head: bool,
    pub is_remote: bool,
    pub upstream: Option<String>,
    pub tip_oid: CommitId,
}

/// What is drawn in one cell of a row; each variant carries its color index.
#[derive(Clone, Copy, Debug, PartialEq, Eq, Structural)]
pub enum CellType {
    /// Nothing.
    Empty,
    /// Vertical line of an active lane.
    Pipe(usize),
    /// Commit node.
    Commit(usize),
    /// A new branch leaving up-right.
    BranchRight(usize),
    /// A new branch leaving up-left.
    BranchLeft(usize),
    /// A branch joining from down-right.
    MergeRight(usize),
    /// A branch joining from down-left.
    MergeLeft(usize),
    /// Horizontal line.
    Horizontal(usize),
    /// Horizontal line crossing a vertical pipe: (line color, pipe color).
    HorizontalPipe(usize, usize),
    /// Vertical pipe with a branch to the right.
    TeeRight(usize),
    /// Vertical pipe with a branch to the left.
    TeeLeft(usize),
    /// Fork siblings converging upward.
    TeeUp(usize),
}

/// How a commit row reaches one parent.
#[derive(Clone, Copy, Debug, PartialEq, Eq, Structural)]
pub struct ParentLink {
    /// Lane of the parent.
    pub lane: usize,
    /// The parent was already tracked on a lane before this row.
    pub was_existing: bool,
    /// The parent already has its own row above this one.
    pub already_shown: bool,
    /// Color of the connection.
    pub color: usize,
}

/// A horizontal line of `color` laid over `c`: a pipe is crossed, an empty
/// cell is filled, a horizontal line is recolored when `over_horizontal`.
pub open spec fn crossed(c: CellType, color: usize, over_horizontal: bool) -> CellType {
    match c {
        CellType::Pipe(p) => CellType::HorizontalPipe(color, p),
        CellType::Empty => CellType::Horizontal(color),
        CellType::Horizontal(h) => if over_horizontal {
            CellType::Horizontal(color)
        } else {
            c
        },
        _ => c,
    }
}

/// The glyph at a parent's lane: a merge when the parent was tracked and is
/// already shown, a tee when it was tracked but still continues down, a new
/// branch otherwise. `to_right` tells whether the parent is right of the commit.
pub open spec fn parent_end(p: ParentLink, to_right: bool) -> CellType {
    if p.was_existing && p.already_shown {
        if to_right { CellType::MergeLeft(p.color) } else { CellType::MergeRight(p.color) }
    } else if p.was_existing {
        if to_right { CellType::TeeLeft(p.color) } else { CellType::TeeRight(p.color) }
    } else {
        if to_right { CellType::BranchLeft(p.color) } else { CellType::BranchRight(p.color) }
    }
}

/// `cells` with the connection from the commit on `lane` to parent `p`.
pub open spec fn draw_parent(cells: Seq<CellType>, lane: int, p: ParentLink) -> Seq<CellType> {
    let pl = p.lane as int;
    if pl == lane {
        cells
    } else {
        let lo = if pl < lane { pl } else { lane };
        let hi = if pl < lane { lane } else { pl };
        Seq::new(
            cells.len(),
            |j: int|
                if j == 2 * pl {
                    parent_end(p, pl > lane)
                } else if 2 * lo < j < 2 * hi {
                    crossed(cells[j], p.color, false)
                } else {
                    cells[j]
                },
        )
    }
}

/// `cells` with the connections to `parents`, drawn in order.
pub open spec fn draw_parents(cells: Seq<CellType>, lane: int, parents: Seq<ParentLink>) -> Seq<CellType>
    decreases parents.len(),
{
    if parents.len() == 0 {
        cells
    } else {
        draw_parent(draw_parents(cells, lane, parents.drop_last()), lane, parents.last())
    }
}

/// The cell in column `j` when only the active lanes' pipes are drawn.
pub open spec fn pipe_cell(pipes: Seq<Option<usize>>, j: int) -> CellType {
    if j % 2 == 0 && 0 <= j / 2 < pipes.len() && pipes[j / 2] is Some {
        CellType::Pipe(pipes[j / 2]->Some_0)
    } else {
        CellType::Empty
    }
}

/// Cells of a commit row: pipes of the other active lanes, the commit node,
/// and the connections to its parents.
pub open spec fn commit_row_cells(
    width: nat,
    lane: int,
    color: usize,
    parents: Seq<ParentLink>,
    pipes: Seq<Option<usize>>,
) -> Seq<CellType> {
    draw_parents(
        Seq::new(width, |j: int| if j == 2 * lane { CellType::Commit(color) } else { pipe_cell(pipes, j) }),
        lane,
        parents,
    )
}

pub open spec fn merges_lane(merging: Seq<(usize, usize)>, l: int) -> bool {
    exists|k: int| 0 <= k < merging.len() && merging[k].0 == l
}

pub open spec fn rightmost_lane(merging: Seq<(usize, usize)>, main: int) -> int
    decreases merging.len(),
{
    if merging.len() == 0 {
        main
    } else {
        let r = rightmost_lane(merging.drop_last(), main);
        if merging.last().0 > r { merging.last().0 as int } else { r }
    }
}

/// `cells` with lane `m.0` joined into lane `main` in color `m.1`; the
/// rightmost joining lane ends in a merge, the others in an upward tee.
pub open spec fn draw_merge(cells: Seq<CellType>, main: int, m: (usize, usize), rightmost: int) -> Seq<CellType> {
    Seq::new(
        cells.len(),
        |j: int|
            if j == 2 * m.0 {
                if m.0 == rightmost { CellType::MergeLeft(m.1) } else { CellType::TeeUp(m.1) }
            } else if 2 * main < j < 2 * m.0 {
                crossed(cells[j], m.1, true)
            } else {
                cells[j]
            },
    )
}

pub open spec fn draw_merges(cells: Seq<CellType>, main: int, merging: Seq<(usize, usize)>, rightmost: int) -> Seq<CellType>
    decreases merging.len(),
{
    if merging.len() == 0 {
        cells
    } else {
        draw_merge(draw_merges(cells, main, merging.drop_last(), rightmost), main, merging.last(), rightmost)
    }
}

/// Cells of a connector row that joins the `merging` lanes into lane `main`:
/// a tee on the main lane, pipes of the uninvolved active lanes, and a
/// horizontal run to each joining lane.
pub open spec fn connector_cells(
    width: nat,
    main: int,
    main_color: usize,
    merging: Seq<(usize, usize)>,
    pipes: Seq<Option<usize>>,
) -> Seq<CellType> {
    draw_merges(
        Seq::new(
            width,
            |j: int|
                if j == 2 * main {
                    CellType::TeeRight(main_color)
                } else if j % 2 == 0 && merges_lane(merging, j / 2) {
                    CellType::Empty
                } else {
                    pipe_cell(pipes, j)
                },
        ),
        main,
        merging,
        rightmost_lane(merging, main),
    )
}

/// Largest lane index the layout supports, so that a row's width fits in `usize`.
pub const LANE_LIMIT: usize = usize::MAX / 4;

/// Number of cells in a row when lanes `0..=max_lane` are in use: one column per
/// lane and one between lanes.
pub open spec fn row_width(max_lane: int) -> nat {
    ((max_lane + 1) * 2) as nat
}

pub(crate) fn crossed_cell(c: CellType, color: usize, over_horizontal: bool) -> (r: CellType)
    ensures
        r == crossed(c, color, over_horizontal),
{
    match c {
        CellType::Pipe(p) => CellType::HorizontalPipe(color, p),
        CellType::Empty => CellType::Horizontal(color),
        CellType::Horizontal(h) => if over_horizontal {
            CellType::Horizontal(color)
        } else {
            c
        },
        _ => c,
    }
}

fn parent_end_cell(p: ParentLink, to_right: bool) -> (r: CellType)
    ensures
        r == parent_end(p, to_right),
{
    if p.was_existing && p.already_shown {
        if to_right { CellType::MergeLeft(p.color) } else { CellType::MergeRight(p.color) }
    } else if p.was_existing {
        if to_right { CellType::TeeLeft(p.color) } else { CellType::TeeRight(p.color) }
    } else {
        if to_right { CellType::BranchLeft(p.color) } else { CellType::BranchRight(p.color) }
    }
}

fn pipe_at(pipes: &Vec<Option<usize>>, j: usize) -> (r: CellType)
    ensures
        r == pipe_cell(pipes@, j as int),
{
    if j % 2 == 0 && j / 2 < pipes.len() {
        match pipes[j / 2] {
            Some(c) => CellType::Pipe(c),
            None => CellType::Empty,
        }
    } else {
        CellType::Empty
    }
}

/// Draws the connection from the commit on `lane` to parent `p` into `cells`.
fn draw_parent_into(cells: &mut Vec<CellType>, lane: usize, p: ParentLink)
    requires
        2 * lane < old(cells).len(),
        2 * p.lane < old(cells).len(),
    ensures
        final(cells)@ == draw_parent(old(cells)@, lane as int, p),
{
    if p.lane == lane {
        return;
    }
    let lo = if p.lane < lane { p.lane } else { lane };
    let hi = if p.lane < lane { lane } else { p.lane };
    let ghost before = cells@;
    let mut col = 2 * lo + 1;
    while col < 2 * hi
        invariant
            cells.len() == before.len(),
            2 * lo + 1 <= col <= 2 * hi,
            2 * hi < before.len(),
            forall|k: int|
                0 <= k < before.len() ==> #[trigger] cells@[k] == if 2 * lo < k < col {
                    crossed(before[k], p.color, false)
                } else {
                    before[k]
                },
        decreases 2 * hi - col,
    {
        let c = crossed_cell(cells[col], p.color, false);
        cells.set(col, c);
        col += 1;
    }
    cells.set(2 * p.lane, parent_end_cell(p, p.lane > lane));
    assert(cells@ =~= draw_parent(before, lane as int, p));
}

/// Cells of a commit row (see [`commit_row_cells`]).
pub fn build_row_cells_with_colors(
    commit_lane: usize,
    commit_color: usize,
    parent_lanes: &Vec<ParentLink>,
    pipes: &Vec<Option<usize>>,
    max_lane: usize,
) -> (cells: Vec<CellType>)
    requires
        max_lane < LANE_LIMIT,
        commit_lane <= max_lane,
        forall|i: int| 0 <= i < parent_lanes.len() ==> #[trigger] parent_lanes@[i].lane <= max_lane,
    ensures
        cells@ == commit_row_cells(row_width(max_lane as int), commit_lane as int, commit_color, parent_lanes@, pipes@),
        cells@.len() == row_width(max_lane as int),
{
    let width = (max_lane + 1) * 2;
    let ghost base = Seq::new(
        width as nat,
        |j: int| if j == 2 * commit_lane { CellType::Commit(commit_color) } else { pipe_cell(pipes@, j) },
    );
    let mut cells: Vec<CellType> = Vec::new();
    let mut j: usize = 0;
    while j < width
        invariant
            j <= width,
            width == row_width(max_lane as int),
            commit_lane <= max_lane,
            max_lane < LANE_LIMIT,
            cells.len() == j,
            forall|k: int|
                0 <= k < j ==> #[trigger] cells@[k] == if k == 2 * commit_lane {
                    CellType::Commit(commit_color)
                } else {
                    pipe_cell(pipes@, k)
                },
        decreases width - j,
    {
        let c = if j == 2 * commit_lane { CellType::Commit(commit_color) } else { pipe_at(pipes, j) };
        cells.push(c);
        j += 1;
    }
    assert(cells@ =~= base);
    let mut i: usize = 0;
    while i < parent_lanes.len()
        invariant
            i <= parent_lanes.len(),
            cells.len() == width,
            width == row_width(max_lane as int),
            commit_lane <= max_lane,
            forall|k: int| 0 <= k < parent_lanes.len() ==> #[trigger] parent_lanes@[k].lane <= max_lane,
            cells@ == draw_parents(base, commit_lane as int, parent_lanes@.subrange(0, i as int)),
        decreases parent_lanes.len() - i,
    {
        let p = parent_lanes[i];
        draw_parent_into(&mut cells, commit_lane, p);
        assert(parent_lanes@.subrange(0, i + 1).drop_last() =~= parent_lanes@.subrange(0, i as int));
        i += 1;
    }
    assert(parent_lanes@.subrange(0, parent_lanes.len() as int) =~= parent_lanes@);
    cells
}

/// Draws lane `m.0` joining lane `main` into `cells`.
fn draw_merge_into(cells: &mut Vec<CellType>, main: usize, m: (usize, usize), rightmost: usize)
    requires
        main < m.0,
        2 * m.0 < old(cells).len(),
    ensures
        final(cells)@ == draw_merge(old(cells)@, main as int, m, rightmost as int),
{
    let ghost before = cells@;
    let mut col = 2 * main + 1;
    while col < 2 * m.0
        invariant
            cells.len() == before.len(),
            2 * main + 1 <= col <= 2 * m.0,
            2 * m.0 < before.len(),
            forall|k: int|
                0 <= k < before.len() ==> #[trigger] cells@[k] == if 2 * main < k < col {
                    crossed(before[k], m.1, true)
                } else {
                    before[k]
                },
        decreases 2 * m.0 - col,
    {
        let c = crossed_cell(cells[col], m.1, true);
        cells.set(col, c);
        col += 1;
    }
    let end = if m.0 == rightmost { CellType::MergeLeft(m.1) } else { CellType::TeeUp(m.1) };
    cells.set(2 * m.0, end);
    assert(cells@ =~= draw_merge(before, main as int, m, rightmost as int));
}

fn merges_lane_exec(merging: &Vec<(usize, usize)>, l: usize) -> (r: bool)
    ensures
        r == merges_lane(merging@, l as int),
{
    let mut k: usize = 0;
    while k < merging.len()
        invariant
            k <= merging.len(),
            forall|q: int| 0 <= q < k ==> merging@[q].0 != l,
        decreases merging.len() - k,
    {
        if merging[k].0 == l {
            return true;
        }
        k += 1;
    }
    false
}

fn rightmost_lane_exec(merging: &Vec<(usize, usize)>, main: usize) -> (r: usize)
    ensures
        r == rightmost_lane(merging@, main as int),
        r == main || merges_lane(merging@, r as int),
        r >= main,
        forall|k: int| 0 <= k < merging.len() ==> merging@[k].0 <= r,
{
    let mut r = main;
    let mut k: usize = 0;
    while k < merging.len()
        invariant
            k <= merging.len(),
            r == rightmost_lane(merging@.subrange(0, k as int), main as int),
            r == main || merges_lane(merging@, r as int),
            r >= main,
            forall|q: int| 0 <= q < k ==> merging@[q].0 <= r,
        decreases merging.len() - k,
    {
        assert(merging@.subrange(0, k + 1).drop_last() =~= merging@.subrange(0, k as int));
        if merging[k].0 > r {
            r = merging[k].0;
        }
        k += 1;
    }
    assert(merging@.subrange(0, merging.len() as int) =~= merging@);
    r
}

/// Cells of a connector row (see [`connector_cells`]).
pub fn build_connector_cells(
    main_lane: usize,
    main_color: usize,
    merging_lanes: &Vec<(usize, usize)>,
    pipes: &Vec<Option<usize>>,
    max_lane: usize,
) -> (cells: Vec<CellType>)
    requires
        max_lane < LANE_LIMIT,
        main_lane <= max_lane,
        forall|i: int|
            0 <= i < merging_lanes.len() ==> main_lane < #[trigger] merging_lanes@[i].0 <= max_lane,
    ensures
        cells@ == connector_cells(row_width(max_lane as int), main_lane as int, main_color, merging_lanes@, pipes@),
        cells@.len() == row_width(max_lane as int),
{
    let width = (max_lane + 1) * 2;
    let ghost base = Seq::new(
        width as nat,
        |j: int|
            if j == 2 * main_lane {
                CellType::TeeRight(main_color)
            } else if j % 2 == 0 && merges_lane(merging_lanes@, j / 2) {
                CellType::Empty
            } else {
                pipe_cell(pipes@, j)
            },
    );
    let mut cells: Vec<CellType> = Vec::new();
    let mut j: usize = 0;
    while j < width
        invariant
            j <= width,
            width == row_width(max_lane as int),
            main_lane <= max_lane,
            max_lane < LANE_LIMIT,
            cells.len() == j,
            forall|k: int|
                0 <= k < j ==> #[trigger] cells@[k] == if k == 2 * main_lane {
                    CellType::TeeRight(main_color)
                } else if k % 2 == 0 && merges_lane(merging_lanes@, k / 2) {
                    CellType::Empty
                } else {
                    pipe_cell(pipes@, k)
                },
        decreases width - j,
    {
        let c = if j == 2 * main_lane {
            CellType::TeeRight(main_color)
        } else if j % 2 == 0 && merges_lane_exec(merging_lanes, j / 2) {
            CellType::Empty
        } else {
            pipe_at(pipes, j)
        };
        cells.push(c);
        j += 1;
    }
    assert(cells@ =~= base);
    let rightmost = rightmost_lane_exec(merging_lanes, main_lane);
    let mut i: usize = 0;
    while i < merging_lanes.len()
        invariant
            i <= merging_lanes.len(),
            cells.len() == width,
            width == row_width(max_lane as int),
            rightmost == rightmost_lane(merging_lanes@, main_lane as int),
            forall|k: int|
                0 <= k < merging_lanes.len() ==> main_lane < #[trigger] merging_lanes@[k].0 <= max_lane,
            cells@ == draw_merges(base, main_lane as int, merging_lanes@.subrange(0, i as int), rightmost as int),
        decreases merging_lanes.len() - i,
    {
        let m = merging_lanes[i];
        draw_merge_into(&mut cells, main_lane, m, rightmost);
        assert(merging_lanes@.subrange(0, i + 1).drop_last() =~= merging_lanes@.subrange(0, i as int));
        i += 1;
    }
    assert(merging_lanes@.subrange(0, merging_lanes.len() as int) =~= merging_lanes@);
    cells
}

/// One row of the graph.
pub struct GraphNode {
    /// The commit of this row; `None` for connector rows and the
    /// uncommitted-changes row.
    pub commit: Option<CommitInfo>,
    /// Lane of the row's node.
    pub lane: usize,
    /// Color of the row's node.
    pub color_index: usize,
    /// Names of the branches whose tip is this commit.
    pub branch_names: Vec<String>,
    /// Whether HEAD points to this commit.
    pub is_head: bool,
    /// Whether this row stands for uncommitted changes.
    pub is_uncommitted: bool,
    /// Number of changed files, on the uncommitted-changes row.
    pub uncommitted_count: usize,
    /// What to draw in each column.
    pub cells: Vec<CellType>,
}

/// The rows of the graph and the highest lane in use.
pub struct GraphLayout {
    pub nodes: Vec<GraphNode>,
    pub max_lane: usize,
}

/// Two commits with the same fields.
pub open spec fn same_commit(a: CommitInfo, b: CommitInfo) -> bool {
    &&& a.oid == b.oid
    &&& a.short_id == b.short_id
    &&& a.author_name == b.author_name
    &&& a.author_email == b.author_email
    &&& a.timestamp == b.timestamp
    &&& a.message == b.message
    &&& a.full_message == b.full_message
    &&& a.parent_oids@ == b.parent_oids@
}

/// A field-by-field copy of `c`.
pub fn copy_commit(c: &CommitInfo) -> (r: CommitInfo)
    ensures
        same_commit(r, *c),
{
    let mut parents: Vec<CommitId> = Vec::new();
    let mut k: usize = 0;
    while k < c.parent_oids.len()
        invariant
            k <= c.parent_oids.len(),
            parents@ =~= c.parent_oids@.subrange(0, k as int),
        decreases c.parent_oids.len() - k,
    {
        parents.push(c.parent_oids[k]);
        k += 1;
    }
    assert(parents@ =~= c.parent_oids@);
    CommitInfo {
        oid: c.oid,
        short_id: c.short_id.clone(),
        author_name: c.author_name.clone(),
        author_email: c.author_email.clone(),
        timestamp: c.timestamp,
        message: c.message.clone(),
        full_message: c.full_message.clone(),
        parent_oids: parents,
    }
}

/// Names of the branches whose tip is `id`, in branch order.
pub open spec fn names_at(branches: Seq<BranchInfo>, id: CommitId) -> Seq<String>
    decreases branches.len(),
{
    if branches.len() == 0 {
        Seq::empty()
    } else {
        let rest = names_at(branches.drop_last(), id);
        if branches.last().tip_oid == id {
            rest.push(branches.last().name)
        } else {
            rest
        }
    }
}

/// Whether a branch marked as HEAD has its tip at `id`.
pub open spec fn head_at(branches: Seq<BranchInfo>, id: CommitId) -> bool {
    exists|k: int| 0 <= k < branches.len() && #[trigger] branches[k].is_head && branches[k].tip_oid == id
}

pub fn branch_names_at(branches: &[BranchInfo], id: CommitId) -> (r: Vec<String>)
    ensures
        r@ == names_at(branches@, id),
{
    let mut names: Vec<String> = Vec::new();
    let mut k: usize = 0;
    while k < branches.len()
        invariant
            k <= branches@.len(),
            names@ == names_at(branches@.subrange(0, k as int), id),
        decreases branches@.len() - k,
    {
        assert(branches@.subrange(0, k + 1).drop_last() =~= branches@.subrange(0, k as int));
        if branches[k].tip_oid == id {
            names.push(branches[k].name.clone());
        }
        k += 1;
    }
    assert(branches@.subrange(0, branches@.len() as int) =~= branches@);
    names
}

pub fn is_head_at(branches: &[BranchInfo], id: CommitId) -> (r: bool)
    ensures
        r == head_at(branches@, id),
{
    let mut k: usize = 0;
    while k < branches.len()
        invariant
            k <= branches@.len(),
            forall|q: int| 0 <= q < k ==> !(#[trigger] branches@[q].is_head && branches@[q].tip_oid == id),
        decreases branches@.len() - k,
    {
        if branches[k].is_head && branches[k].tip_oid == id {
            return true;
        }
        k += 1;
    }
    false
}

/// A row holds a commit node only in its own lane's column, and only when it
/// is a commit row or the uncommitted-changes row.
pub open spec fn commit_cell_ok(n: GraphNode) -> bool {
    forall|j: int|
        0 <= j < n.cells@.len() ==> ((#[trigger] n.cells@[j] is Commit) <==> ((n.commit is Some
            || n.is_uncommitted) && j == 2 * n.lane))
}

/// No row shows two commit nodes.
pub proof fn lemma_commit_cell_unique(n: GraphNode, j1: int, j2: int)
    requires
        commit_cell_ok(n),
        0 <= j1 < n.cells@.len(),
        0 <= j2 < n.cells@.len(),
        n.cells@[j1] is Commit,
        n.cells@[j2] is Commit,
    ensures
        j1 == j2,
{
}

proof fn lemma_draw_parents_shape(cells: Seq<CellType>, lane: int, ps: Seq<ParentLink>)
    requires
        0 <= 2 * lane < cells.len(),
        cells[2 * lane] is Commit,
        forall|j: int| 0 <= j < cells.len() && (#[trigger] cells[j] is Commit) ==> j == 2 * lane,
        forall|k: int| 0 <= k < ps.len() ==> 2 * (#[trigger] ps[k]).lane < cells.len(),
    ensures
        draw_parents(cells, lane, ps).len() == cells.len(),
        draw_parents(cells, lane, ps)[2 * lane] == cells[2 * lane],
        forall|j: int|
            0 <= j < cells.len() && (#[trigger] draw_parents(cells, lane, ps)[j] is Commit) ==> j == 2 * lane,
        forall|k: int| 0 <= k < ps.len() ==> draw_parents(cells, lane, ps)[2 * (#[trigger] ps[k]).lane] != CellType::Empty,
    decreases ps.len(),
{
    if ps.len() > 0 {
        let init = ps.drop_last();
        assert forall|k: int| 0 <= k < init.len() implies 2 * (#[trigger] init[k]).lane < cells.len() by {
            assert(init[k] == ps[k]);
        }
        lemma_draw_parents_shape(cells, lane, init);
        let prev = draw_parents(cells, lane, init);
        let c = draw_parents(cells, lane, ps);
        assert(c == draw_parent(prev, lane, ps.last()));
        assert forall|k: int| 0 <= k < ps.len() implies c[2 * (#[trigger] ps[k]).lane] != CellType::Empty by {
            if k < ps.len() - 1 {
                assert(init[k] == ps[k]);
                assert(prev[2 * ps[k].lane] != CellType::Empty);
            } else if ps[k].lane == lane {
                assert(prev[2 * lane] == cells[2 * lane]);
            }
        }
    }
}

proof fn lemma_draw_merges_shape(cells: Seq<CellType>, main: int, ms: Seq<(usize, usize)>, rightmost: int)
    requires
        0 <= 2 * main < cells.len(),
        forall|j: int| 0 <= j < cells.len() ==> !(#[trigger] cells[j] is Commit),
        forall|k: int| 0 <= k < ms.len() ==> main < (#[trigger] ms[k]).0 && 2 * ms[k].0 < cells.len(),
    ensures
        draw_merges(cells, main, ms, rightmost).len() == cells.len(),
        draw_merges(cells, main, ms, rightmost)[2 * main] == cells[2 * main],
        forall|j: int| 0 <= j < cells.len() ==> !(#[trigger] draw_merges(cells, main, ms, rightmost)[j] is Commit),
        forall|k: int| 0 <= k < ms.len() ==> draw_merges(cells, main, ms, rightmost)[2 * (#[trigger] ms[k]).0] != CellType::Empty,
    decreases ms.len(),
{
    if ms.len() > 0 {
        let init = ms.drop_last();
        assert forall|k: int| 0 <= k < init.len() implies main < (#[trigger] init[k]).0 && 2 * init[k].0 < cells.len() by {
            assert(init[k] == ms[k]);
        }
        lemma_draw_merges_shape(cells, main, init, rightmost);
        let prev = draw_merges(cells, main, init, rightmost);
        let c = draw_merges(cells, main, ms, rightmost);
        assert(c == draw_merge(prev, main, ms.last(), rightmost));
        assert forall|k: int| 0 <= k < ms.len() implies c[2 * (#[trigger] ms[k]).0] != CellType::Empty by {
            if k < ms.len() - 1 {
                assert(init[k] == ms[k]);
                assert(prev[2 * ms[k].0] != CellType::Empty);
            }
        }
    }
}

/// Shape of a commit row: one commit node, in the commit's column, and a
/// glyph in every parent's column.
pub proof fn lemma_commit_row_shape(width: nat, lane: int, color: usize, parents: Seq<ParentLink>, pipes: Seq<Option<usize>>)
    requires
        0 <= 2 * lane < width,
        forall|k: int| 0 <= k < parents.len() ==> 2 * (#[trigger] parents[k]).lane < width,
    ensures
        commit_row_cells(width, lane, color, parents, pipes).len() == width,
        commit_row_cells(width, lane, color, parents, pipes)[2 * lane] == CellType::Commit(color),
        forall|j: int|
            0 <= j < width ==> ((#[trigger] commit_row_cells(width, lane, color, parents, pipes)[j] is Commit) <==> j == 2 * lane),
        forall|k: int|
            0 <= k < parents.len() ==> commit_row_cells(width, lane, color, parents, pipes)[2 * (#[trigger] parents[k]).lane] != CellType::Empty,
{
    let base = Seq::new(width, |j: int| if j == 2 * lane { CellType::Commit(color) } else { pipe_cell(pipes, j) });
    lemma_draw_parents_shape(base, lane, parents);
}

/// Shape of a connector row: no commit node, a tee on the main lane and a
/// glyph in every joining lane's column.
pub proof fn lemma_connector_shape(width: nat, main: int, main_color: usize, merging: Seq<(usize, usize)>, pipes: Seq<Option<usize>>)
    requires
        0 <= 2 * main < width,
        forall|k: int| 0 <= k < merging.len() ==> main < (#[trigger] merging[k]).0 && 2 * merging[k].0 < width,
    ensures
        connector_cells(width, main, main_color, merging, pipes).len() == width,
        connector_cells(width, main, main_color, merging, pipes)[2 * main] == CellType::TeeRight(main_color),
        forall|j: int| 0 <= j < width ==> !(#[trigger] connector_cells(width, main, main_color, merging, pipes)[j] is Commit),
        forall|k: int|
            0 <= k < merging.len() ==> connector_cells(width, main, main_color, merging, pipes)[2 * (#[trigger] merging[k]).0] != CellType::Empty,
{
    let base = Seq::new(
        width,
        |j: int|
            if j == 2 * main {
                CellType::TeeRight(main_color)
            } else if j % 2 == 0 && merges_lane(merging, j / 2) {
                CellType::Empty
            } else {
                pipe_cell(pipes, j)
            },
    );
    lemma_draw_merges_shape(base, main, merging, rightmost_lane(merging, main));
}

} // verus!
