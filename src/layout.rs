//! The layout engine: one pass over the commits assigns lanes and colors and
//! builds every row's cells.

use vstd::prelude::*;
use crate::colors::{
    ColorAssigner, ColorModel, MAIN_BRANCH_COLOR, dist, assigned, main_assigned, continued, released, advanced,
    initial_colors, lemma_best_color_is,
};
use crate::graph::{
    BranchInfo, CellType, CommitId, CommitInfo, GraphLayout, GraphNode, ParentLink, LANE_LIMIT,
    row_width, build_row_cells_with_colors, build_connector_cells, copy_commit, branch_names_at,
    is_head_at, commit_cell_ok, same_commit, names_at, head_at, lemma_commit_row_shape,
    lemma_connector_shape, crossed, commit_row_cells, connector_cells, merges_lane,
};

verus! {

/// Row of the first commit with id `id`.
pub open spec fn row_index(commits: Seq<CommitInfo>, id: CommitId) -> Option<int>
    decreases commits.len(),
{
    if commits.len() == 0 {
        None
    } else {
        match row_index(commits.drop_last(), id) {
            Some(k) => Some(k),
            None => if commits.last().oid == id {
                Some(commits.len() - 1)
            } else {
                None
            },
        }
    }
}

/// How often `id` occurs in `ids`.
pub open spec fn occurrences(ids: Seq<CommitId>, id: CommitId) -> nat
    decreases ids.len(),
{
    if ids.len() == 0 {
        0
    } else {
        occurrences(ids.drop_last(), id) + if ids.last() == id { 1nat } else { 0nat }
    }
}

/// How often `id` is named as a parent, in any position.
pub open spec fn child_links(commits: Seq<CommitInfo>, id: CommitId) -> nat
    decreases commits.len(),
{
    if commits.len() == 0 {
        0
    } else {
        child_links(commits.drop_last(), id) + occurrences(commits.last().parent_oids@, id)
    }
}

/// A fork point: a commit named as a parent two or more times.
pub open spec fn is_fork_point(commits: Seq<CommitInfo>, id: CommitId) -> bool {
    child_links(commits, id) >= 2
}

/// Number of commits plus number of parent links: a bound on the lanes used.
pub open spec fn link_total(commits: Seq<CommitInfo>) -> nat
    decreases commits.len(),
{
    if commits.len() == 0 {
        0
    } else {
        link_total(commits.drop_last()) + 1 + commits.last().parent_oids@.len()
    }
}

proof fn lemma_link_total_prefix(commits: Seq<CommitInfo>, i: int)
    requires
        0 <= i <= commits.len(),
    ensures
        link_total(commits.subrange(0, i)) <= link_total(commits),
    decreases commits.len() - i,
{
    if i < commits.len() {
        lemma_link_total_prefix(commits, i + 1);
        assert(commits.subrange(0, i + 1).drop_last() =~= commits.subrange(0, i));
    } else {
        assert(commits.subrange(0, i) =~= commits);
    }
}

proof fn lemma_row_index_range(commits: Seq<CommitInfo>, id: CommitId)
    ensures
        row_index(commits, id) matches Some(k) ==> 0 <= k < commits.len() && commits[k].oid == id,
    decreases commits.len(),
{
    if commits.len() > 0 {
        lemma_row_index_range(commits.drop_last(), id);
    }
}

fn row_of(commits: &[CommitInfo], id: CommitId) -> (r: Option<usize>)
    ensures
        row_index(commits@, id) matches Some(k) ==> 0 <= k < commits@.len() && commits@[k].oid == id,
        r matches Some(k) ==> k < commits@.len(),
        r matches Some(k) ==> row_index(commits@, id) == Some(k as int),
        r is None ==> row_index(commits@, id) is None,
{
    proof { lemma_row_index_range(commits@, id); }
    let mut k: usize = 0;
    while k < commits.len()
        invariant
            k <= commits@.len(),
            row_index(commits@.subrange(0, k as int), id) is None,
        decreases commits@.len() - k,
    {
        assert(commits@.subrange(0, k + 1).drop_last() =~= commits@.subrange(0, k as int));
        if commits[k].oid == id {
            proof { lemma_row_index_extend(commits@, k as int, id); }
            return Some(k);
        }
        k += 1;
    }
    assert(commits@.subrange(0, commits@.len() as int) =~= commits@);
    None
}

proof fn lemma_row_index_extend(commits: Seq<CommitInfo>, k: int, id: CommitId)
    requires
        0 <= k < commits.len(),
        row_index(commits.subrange(0, k), id) is None,
        commits[k].oid == id,
    ensures
        row_index(commits, id) == Some(k),
    decreases commits.len() - k,
{
    assert(commits.subrange(0, k + 1).drop_last() =~= commits.subrange(0, k));
    lemma_row_index_prefix(commits, k + 1, id);
}

/// A row found in a prefix is the row found in the whole list.
proof fn lemma_row_index_prefix(commits: Seq<CommitInfo>, i: int, id: CommitId)
    requires
        0 <= i <= commits.len(),
        row_index(commits.subrange(0, i), id) is Some,
    ensures
        row_index(commits, id) == row_index(commits.subrange(0, i), id),
    decreases commits.len() - i,
{
    if i < commits.len() {
        assert(commits.subrange(0, i + 1).drop_last() =~= commits.subrange(0, i));
        lemma_row_index_prefix(commits, i + 1, id);
    } else {
        assert(commits.subrange(0, i) =~= commits);
    }
}

fn is_fork_point_exec(commits: &[CommitInfo], id: CommitId) -> (r: bool)
    ensures
        r == is_fork_point(commits@, id),
{
    let mut count: usize = 0;
    let mut k: usize = 0;
    while k < commits.len()
        invariant
            k <= commits@.len(),
            count as int == if child_links(commits@.subrange(0, k as int), id) >= 2 {
                2
            } else {
                child_links(commits@.subrange(0, k as int), id) as int
            },
        decreases commits@.len() - k,
    {
        assert(commits@.subrange(0, k + 1).drop_last() =~= commits@.subrange(0, k as int));
        let parents = &commits[k].parent_oids;
        let mut q: usize = 0;
        let ghost base = child_links(commits@.subrange(0, k as int), id);
        while q < parents.len()
            invariant
                q <= parents@.len(),
                base == child_links(commits@.subrange(0, k as int), id),
                count as int == if base + occurrences(parents@.subrange(0, q as int), id) >= 2 {
                    2
                } else {
                    base + occurrences(parents@.subrange(0, q as int), id)
                },
            decreases parents@.len() - q,
        {
            assert(parents@.subrange(0, q + 1).drop_last() =~= parents@.subrange(0, q as int));
            if parents[q] == id && count < 2 {
                count += 1;
            }
            q += 1;
        }
        assert(parents@.subrange(0, parents@.len() as int) =~= parents@);
        k += 1;
    }
    assert(commits@.subrange(0, commits@.len() as int) =~= commits@);
    count >= 2
}

proof fn lemma_first_index_range<A>(s: Seq<A>, x: A)
    ensures
        first_index(s, x) matches Some(k) ==> 0 <= k < s.len() && s[k] == x && forall|j: int| 0 <= j < k ==> s[j] != x,
        first_index(s, x) is None ==> forall|j: int| 0 <= j < s.len() ==> s[j] != x,
    decreases s.len(),
{
    if s.len() > 0 {
        lemma_first_index_range(s.drop_last(), x);
        assert forall|j: int| 0 <= j < s.len() - 1 implies s[j] == s.drop_last()[j] by {}
    }
}

proof fn lemma_first_index_prefix<A>(s: Seq<A>, i: int, x: A)
    requires
        0 <= i <= s.len(),
        first_index(s.subrange(0, i), x) is Some,
    ensures
        first_index(s, x) == first_index(s.subrange(0, i), x),
    decreases s.len() - i,
{
    if i < s.len() {
        assert(s.subrange(0, i + 1).drop_last() =~= s.subrange(0, i));
        lemma_first_index_prefix(s, i + 1, x);
    } else {
        assert(s.subrange(0, i) =~= s);
    }
}

proof fn lemma_first_index_extend<A>(s: Seq<A>, k: int, x: A)
    requires
        0 <= k < s.len(),
        first_index(s.subrange(0, k), x) is None,
        s[k] == x,
    ensures
        first_index(s, x) == Some(k),
{
    assert(s.subrange(0, k + 1).drop_last() =~= s.subrange(0, k));
    lemma_first_index_prefix(s, k + 1, x);
}

/// First lane waiting for `id`.
fn find_lane(lanes: &Vec<Option<CommitId>>, id: CommitId) -> (r: Option<usize>)
    ensures
        r matches Some(l) ==> l < lanes@.len() && lanes@[l as int] == Some(id) && forall|k: int|
            0 <= k < l ==> lanes@[k] != Some(id),
        r is None ==> forall|k: int| 0 <= k < lanes@.len() ==> lanes@[k] != Some(id),
        r matches Some(l) ==> first_index(lanes@, Some(id)) == Some(l as int),
        r is None ==> first_index(lanes@, Some(id)) is None,
{
    let mut k: usize = 0;
    while k < lanes.len()
        invariant
            k <= lanes@.len(),
            forall|q: int| 0 <= q < k ==> lanes@[q] != Some(id),
            first_index(lanes@.subrange(0, k as int), Some(id)) is None,
        decreases lanes@.len() - k,
    {
        assert(lanes@.subrange(0, k + 1).drop_last() =~= lanes@.subrange(0, k as int));
        if lanes[k] == Some(id) {
            proof { lemma_first_index_extend(lanes@, k as int, Some(id)); }
            return Some(k);
        }
        k += 1;
    }
    assert(lanes@.subrange(0, lanes@.len() as int) =~= lanes@);
    None
}

/// All lanes waiting for `id`, in increasing order.
fn lanes_holding(lanes: &Vec<Option<CommitId>>, id: CommitId) -> (r: Vec<usize>)
    ensures
        forall|k: int| 0 <= k < r@.len() ==> #[trigger] r@[k] < lanes@.len() && lanes@[r@[k] as int] == Some(id),
        forall|a: int, b: int| 0 <= a < b < r@.len() ==> r@[a] < r@[b],
        forall|l: int| 0 <= l < lanes@.len() && lanes@[l] == Some(id) ==> r@.contains(l as usize),
        r@ == holding(lanes@, id),
{
    let mut r: Vec<usize> = Vec::new();
    let mut k: usize = 0;
    while k < lanes.len()
        invariant
            k <= lanes@.len(),
            r@ == holding(lanes@.subrange(0, k as int), id),
            forall|q: int| 0 <= q < r@.len() ==> #[trigger] r@[q] < k && lanes@[r@[q] as int] == Some(id),
            forall|a: int, b: int| 0 <= a < b < r@.len() ==> r@[a] < r@[b],
            forall|l: int| 0 <= l < k && lanes@[l] == Some(id) ==> r@.contains(l as usize),
        decreases lanes@.len() - k,
    {
        assert(lanes@.subrange(0, k + 1).drop_last() =~= lanes@.subrange(0, k as int));
        if lanes[k] == Some(id) {
            let ghost old_r = r@;
            r.push(k);
            proof {
                assert forall|l: int| 0 <= l < k + 1 && lanes@[l] == Some(id) implies r@.contains(l as usize) by {
                    if l < k {
                        let q = choose|q: int| 0 <= q < old_r.len() && old_r[q] == l as usize;
                        assert(r@[q] == l as usize);
                    } else {
                        assert(r@[old_r.len() as int] == l as usize);
                    }
                }
            }
        }
        k += 1;
    }
    assert(lanes@.subrange(0, lanes@.len() as int) =~= lanes@);
    r
}

/// A free lane for a new branch: the first free slot, else a new slot.
fn alloc_lane(lanes: &mut Vec<Option<CommitId>>, lane_color: &mut Vec<Option<usize>>) -> (r: usize)
    requires
        old(lanes)@.len() == old(lane_color)@.len(),
    ensures
        final(lanes)@.len() == final(lane_color)@.len(),
        r < final(lanes)@.len(),
        final(lanes)@[r as int] is None,
        old(lanes)@.len() <= final(lanes)@.len() <= old(lanes)@.len() + 1,
        final(lanes)@.len() == old(lanes)@.len() + 1 ==> r == old(lanes)@.len() && forall|k: int|
            0 <= k < old(lanes)@.len() ==> old(lanes)@[k] is Some,
        final(lanes)@.len() == old(lanes)@.len() ==> forall|k: int| 0 <= k < r ==> old(lanes)@[k] is Some,
        final(lanes)@.subrange(0, old(lanes)@.len() as int) == old(lanes)@,
        final(lane_color)@.subrange(0, old(lane_color)@.len() as int) == old(lane_color)@,
        (final(lanes)@, final(lane_color)@, r as int) == alloc_spec(old(lanes)@, old(lane_color)@),
{
    let mut k: usize = 0;
    while k < lanes.len()
        invariant
            k <= lanes@.len(),
            lanes@ == old(lanes)@,
            lane_color@ == old(lane_color)@,
            lanes@.len() == lane_color@.len(),
            forall|q: int| 0 <= q < k ==> lanes@[q] is Some,
            first_index(lanes@.subrange(0, k as int), None::<CommitId>) is None,
        decreases lanes@.len() - k,
    {
        assert(lanes@.subrange(0, k + 1).drop_last() =~= lanes@.subrange(0, k as int));
        if lanes[k].is_none() {
            proof { lemma_first_index_extend(lanes@, k as int, None::<CommitId>); }
            assert(lanes@.subrange(0, lanes@.len() as int) =~= lanes@);
            assert(lane_color@.subrange(0, lane_color@.len() as int) =~= lane_color@);
            return k;
        }
        k += 1;
    }
    assert(lanes@.subrange(0, lanes@.len() as int) =~= lanes@);
    lanes.push(None);
    lane_color.push(None);
    assert(lanes@.subrange(0, old(lanes)@.len() as int) =~= old(lanes)@);
    assert(lane_color@.subrange(0, old(lane_color)@.len() as int) =~= old(lane_color)@);
    lanes.len() - 1
}

/// Color recorded for commit `id`, if any.
pub open spec fn id_color(oid_color: Seq<Option<usize>>, commits: Seq<CommitInfo>, id: CommitId) -> Option<usize> {
    match row_index(commits, id) {
        Some(r) => if 0 <= r < oid_color.len() { oid_color[r] } else { None },
        None => None,
    }
}

fn id_color_exec(oid_color: &Vec<Option<usize>>, commits: &[CommitInfo], id: CommitId) -> (r: Option<usize>)
    ensures
        r == id_color(oid_color@, commits@, id),
{
    let r = row_of(commits, id);
    match r {
        Some(k) => {
            assert(row_index(commits@, id) == Some(k as int));
            if k < oid_color.len() { oid_color[k] } else { None }
        },
        None => None,
    }
}

fn set_id_color(oid_color: &mut Vec<Option<usize>>, commits: &[CommitInfo], id: CommitId, color: usize)
    ensures
        final(oid_color)@ == set_id(old(oid_color)@, commits@, id, color),
        final(oid_color)@ == match row_index(commits@, id) {
            Some(k) => if 0 <= k < old(oid_color)@.len() {
                old(oid_color)@.update(k, Some(color))
            } else {
                old(oid_color)@
            },
            None => old(oid_color)@,
        },
{
    match row_of(commits, id) {
        Some(k) => if k < oid_color.len() {
            oid_color.set(k, Some(color));
        },
        None => {},
    }
}

/// Color of the pipe drawn for lane `l`: the lane's color, else the color of
/// the commit it waits for, else the lane index.
pub open spec fn pipe_color(
    lanes: Seq<Option<CommitId>>,
    lane_color: Seq<Option<usize>>,
    oid_color: Seq<Option<usize>>,
    commits: Seq<CommitInfo>,
    l: int,
) -> Option<usize> {
    match lanes[l] {
        None => None,
        Some(id) => Some(
            match lane_color[l] {
                Some(c) => c,
                None => match id_color(oid_color, commits, id) {
                    Some(c) => c,
                    None => l as usize,
                },
            },
        ),
    }
}

fn pipe_colors(
    lanes: &Vec<Option<CommitId>>,
    lane_color: &Vec<Option<usize>>,
    oid_color: &Vec<Option<usize>>,
    commits: &[CommitInfo],
) -> (r: Vec<Option<usize>>)
    requires
        lanes@.len() == lane_color@.len(),
    ensures
        r@.len() == lanes@.len(),
        forall|l: int| 0 <= l < lanes@.len() ==> #[trigger] r@[l] == pipe_color(lanes@, lane_color@, oid_color@, commits@, l),
        r@ == pipes_of(lanes@, lane_color@, oid_color@, commits@),
{
    let mut r: Vec<Option<usize>> = Vec::new();
    let mut l: usize = 0;
    while l < lanes.len()
        invariant
            l <= lanes@.len(),
            lanes@.len() == lane_color@.len(),
            r@.len() == l,
            forall|q: int| 0 <= q < l ==> #[trigger] r@[q] == pipe_color(lanes@, lane_color@, oid_color@, commits@, q),
        decreases lanes@.len() - l,
    {
        let c = match lanes[l] {
            None => None,
            Some(id) => Some(
                match lane_color[l] {
                    Some(c) => c,
                    None => match id_color_exec(oid_color, commits, id) {
                        Some(c) => c,
                        None => l,
                    },
                },
            ),
        };
        r.push(c);
        l += 1;
    }
    assert(r@ =~= pipes_of(lanes@, lane_color@, oid_color@, commits@));
    r
}

/// Lane color, else color recorded for `id`, else the lane index.
fn lane_or_id_color(
    lane_color: &Vec<Option<usize>>,
    oid_color: &Vec<Option<usize>>,
    commits: &[CommitInfo],
    l: usize,
    id: CommitId,
) -> (r: usize)
    ensures
        r == lane_or_id(lane_color@, oid_color@, commits@, l as int, id),
        r == if l < lane_color@.len() && lane_color@[l as int] is Some {
            lane_color@[l as int]->Some_0
        } else {
            match id_color(oid_color@, commits@, id) {
                Some(c) => c,
                None => l,
            }
        },
{
    if l < lane_color.len() {
        if let Some(c) = lane_color[l] {
            return c;
        }
    }
    match id_color_exec(oid_color, commits, id) {
        Some(c) => c,
        None => l,
    }
}

/// Pads `cells` with empty cells up to `width`.
fn pad_cells(cells: &mut Vec<CellType>, width: usize)
    ensures
        final(cells)@.len() == if old(cells)@.len() < width { width as nat } else { old(cells)@.len() },
        forall|j: int| 0 <= j < old(cells)@.len() ==> final(cells)@[j] == old(cells)@[j],
        forall|j: int| old(cells)@.len() <= j < final(cells)@.len() ==> final(cells)@[j] == CellType::Empty,
{
    while cells.len() < width
        invariant
            old(cells)@.len() <= cells@.len(),
            cells@.len() <= width || cells@.len() == old(cells)@.len(),
            forall|j: int| 0 <= j < old(cells)@.len() ==> cells@[j] == old(cells)@[j],
            forall|j: int| old(cells)@.len() <= j < cells@.len() ==> cells@[j] == CellType::Empty,
        decreases width - cells@.len(),
    {
        cells.push(CellType::Empty);
    }
}

/// The commits of the commit rows, in row order.
pub open spec fn commit_rows(nodes: Seq<GraphNode>) -> Seq<CommitInfo>
    decreases nodes.len(),
{
    if nodes.len() == 0 {
        Seq::empty()
    } else {
        let rest = commit_rows(nodes.drop_last());
        match nodes.last().commit {
            Some(c) => rest.push(c),
            None => rest,
        }
    }
}

/// `a` and `b` list commits with the same fields.
pub open spec fn same_commits(a: Seq<CommitInfo>, b: Seq<CommitInfo>) -> bool {
    a.len() == b.len() && forall|k: int| 0 <= k < a.len() ==> same_commit(#[trigger] a[k], b[k])
}

/// A row built by the engine: its commit node (if a commit row) in its lane
/// in its color, the branch data of its commit, nothing for connector rows.
pub open spec fn row_ok(n: GraphNode, branches: Seq<BranchInfo>) -> bool {
    &&& commit_cell_ok(n)
    &&& !n.is_uncommitted
    &&& n.uncommitted_count == 0
    &&& match n.commit {
        Some(c) => {
            &&& 2 * n.lane < n.cells@.len()
            &&& n.cells@[2 * n.lane] == CellType::Commit(n.color_index)
            &&& n.branch_names@ == names_at(branches, c.oid)
            &&& n.is_head == head_at(branches, c.oid)
        },
        None => n.branch_names@.len() == 0 && !n.is_head,
    }
}

/// Row `n` draws something in lane `l`'s column.
pub open spec fn shows_lane(n: GraphNode, l: int) -> bool {
    0 <= 2 * l < n.cells@.len() && n.cells@[2 * l] != CellType::Empty
}

/// `max_lane` is a lane in which some row draws something (zero when there
/// are no rows).
pub open spec fn max_lane_shown(nodes: Seq<GraphNode>, max_lane: int) -> bool {
    if nodes.len() == 0 {
        max_lane == 0
    } else {
        exists|r: int| 0 <= r < nodes.len() && #[trigger] shows_lane(nodes[r], max_lane)
    }
}

/// A linear history: among the commits, each commit's only parent is the
/// next commit, and the last commit has none (its parents, if any, lie
/// outside the list).
pub open spec fn is_linear(commits: Seq<CommitInfo>) -> bool {
    &&& forall|i: int|
        0 <= i < commits.len() - 1 ==> valid_parents(commits, (#[trigger] commits[i]).parent_oids@) == seq![commits[i + 1].oid]
    &&& commits.len() > 0 ==> valid_parents(commits, commits.last().parent_oids@).len() == 0
}

/// What the layout keeps of a row: whether it is a commit row, its lane, its
/// color and its cells.
pub struct RowModel {
    pub is_commit: bool,
    pub lane: usize,
    pub color: usize,
    pub cells: Seq<CellType>,
}

pub open spec fn row_model(n: GraphNode) -> RowModel {
    RowModel { is_commit: n.commit is Some, lane: n.lane, color: n.color_index, cells: n.cells@ }
}

/// State of the layout pass: what each lane waits for, lane and commit
/// colors, the rows so far, the highest lane used and the color assigner.
pub struct LaneModel {
    pub lanes: Seq<Option<CommitId>>,
    pub lane_color: Seq<Option<usize>>,
    pub oid_color: Seq<Option<usize>>,
    pub rows: Seq<RowModel>,
    pub max_lane: usize,
    pub colors: ColorModel,
}

/// First index of `x` in `s`.
pub open spec fn first_index<A>(s: Seq<A>, x: A) -> Option<int>
    decreases s.len(),
{
    if s.len() == 0 {
        None
    } else {
        match first_index(s.drop_last(), x) {
            Some(k) => Some(k),
            None => if s.last() == x { Some(s.len() - 1) } else { None },
        }
    }
}

/// The lanes waiting for `id`, in increasing order.
pub open spec fn holding(lanes: Seq<Option<CommitId>>, id: CommitId) -> Seq<usize>
    decreases lanes.len(),
{
    if lanes.len() == 0 {
        Seq::empty()
    } else {
        let rest = holding(lanes.drop_last(), id);
        if lanes.last() == Some(id) { rest.push((lanes.len() - 1) as usize) } else { rest }
    }
}

/// Lanes, lane colors and lane index after taking a free lane: the first free
/// slot, else a new slot.
pub open spec fn alloc_spec(lanes: Seq<Option<CommitId>>, lane_color: Seq<Option<usize>>) -> (
    Seq<Option<CommitId>>,
    Seq<Option<usize>>,
    int,
) {
    match first_index(lanes, None) {
        Some(k) => (lanes, lane_color, k),
        None => (lanes.push(None), lane_color.push(None), lanes.len() as int),
    }
}

/// Records `color` for commit `id` (see `set_id_color`).
pub open spec fn set_id(oid_color: Seq<Option<usize>>, commits: Seq<CommitInfo>, id: CommitId, color: usize) -> Seq<Option<usize>> {
    match row_index(commits, id) {
        Some(k) => if 0 <= k < oid_color.len() { oid_color.update(k, Some(color)) } else { oid_color },
        None => oid_color,
    }
}

/// Lane color, else the color recorded for `id`, else the lane index.
pub open spec fn lane_or_id(
    lane_color: Seq<Option<usize>>,
    oid_color: Seq<Option<usize>>,
    commits: Seq<CommitInfo>,
    l: int,
    id: CommitId,
) -> usize {
    if 0 <= l < lane_color.len() && lane_color[l] is Some {
        lane_color[l]->Some_0
    } else {
        match id_color(oid_color, commits, id) {
            Some(c) => c,
            None => l as usize,
        }
    }
}

pub open spec fn pipes_of(
    lanes: Seq<Option<CommitId>>,
    lane_color: Seq<Option<usize>>,
    oid_color: Seq<Option<usize>>,
    commits: Seq<CommitInfo>,
) -> Seq<Option<usize>> {
    Seq::new(lanes.len(), |l: int| pipe_color(lanes, lane_color, oid_color, commits, l))
}

pub open spec fn raised(m: usize, l: usize) -> usize {
    if l > m { l } else { m }
}

pub open spec fn max_merges(m: usize, ms: Seq<(usize, usize)>) -> usize
    decreases ms.len(),
{
    if ms.len() == 0 { m } else { raised(max_merges(m, ms.drop_last()), ms.last().0) }
}

pub open spec fn max_links(m: usize, links: Seq<ParentLink>) -> usize
    decreases links.len(),
{
    if links.len() == 0 { m } else { raised(max_links(m, links.drop_last()), links.last().lane) }
}

/// `s` with the slots of the joining lanes emptied.
pub open spec fn cleared<A>(s: Seq<Option<A>>, ms: Seq<(usize, usize)>) -> Seq<Option<A>> {
    Seq::new(s.len(), |k: int| if merges_lane(ms, k) { None } else { s[k] })
}

pub open spec fn released_all(c: ColorModel, ms: Seq<(usize, usize)>) -> ColorModel
    decreases ms.len(),
{
    if ms.len() == 0 { c } else { released(released_all(c, ms.drop_last()), ms.last().0 as int) }
}

/// The lanes joining a fan-in row for `id`, with their colors: every lane
/// waiting for `id` but the first.
pub open spec fn fan_in_merging(st: LaneModel, commits: Seq<CommitInfo>, id: CommitId) -> Seq<(usize, usize)> {
    let fl = holding(st.lanes, id);
    Seq::new(
        (fl.len() - 1) as nat,
        |q: int| (fl[q + 1], lane_or_id(st.lane_color, st.oid_color, commits, fl[q + 1] as int, id)),
    )
}

/// The fan-in step for commit `i` (see `fan_in`).
pub open spec fn fan_in_spec(st: LaneModel, commits: Seq<CommitInfo>, i: int) -> LaneModel {
    let id = commits[i].oid;
    let fl = holding(st.lanes, id);
    if fl.len() < 2 {
        st
    } else {
        let main = fl[0];
        let merging = fan_in_merging(st, commits, id);
        let mx = max_merges(raised(st.max_lane, main), merging);
        let mc = lane_or_id(st.lane_color, st.oid_color, commits, main as int, id);
        let pipes = pipes_of(st.lanes, st.lane_color, st.oid_color, commits);
        let row = RowModel {
            is_commit: false,
            lane: main,
            color: mc,
            cells: connector_cells(row_width(mx as int), main as int, mc, merging, pipes),
        };
        LaneModel {
            lanes: cleared(st.lanes, merging),
            lane_color: cleared(st.lane_color, merging),
            oid_color: st.oid_color,
            rows: st.rows.push(row),
            max_lane: mx,
            colors: released_all(st.colors, merging),
        }
    }
}

/// The parents of a commit that are among `commits`, in order.
pub open spec fn valid_parents(commits: Seq<CommitInfo>, ps: Seq<CommitId>) -> Seq<CommitId>
    decreases ps.len(),
{
    if ps.len() == 0 {
        Seq::empty()
    } else {
        let rest = valid_parents(commits, ps.drop_last());
        if row_index(commits, ps.last()) is Some { rest.push(ps.last()) } else { rest }
    }
}

/// State while the parents of one commit are resolved.
pub struct ResolveState {
    pub lanes: Seq<Option<CommitId>>,
    pub lane_color: Seq<Option<usize>>,
    pub oid_color: Seq<Option<usize>>,
    pub colors: ColorModel,
    pub links: Seq<ParentLink>,
}

/// Resolves parent `p`, the `k`-th valid parent of commit `i`, which sits on
/// `lane` in `color` (see `resolve_parents`).
pub open spec fn resolve_step(
    s: ResolveState,
    commits: Seq<CommitInfo>,
    i: int,
    lane: int,
    color: usize,
    p: CommitId,
    k: int,
) -> ResolveState {
    let shown = match row_index(commits, p) {
        Some(r) => r < i,
        None => false,
    };
    match first_index(s.lanes, Some(p)) {
        Some(pl) => if k == 0 && is_fork_point(commits, p) {
            let c = if s.colors.main_lane == Some(lane as usize) { MAIN_BRANCH_COLOR } else { color };
            ResolveState {
                lanes: s.lanes.update(lane, Some(p)),
                lane_color: s.lane_color.update(lane, Some(c)),
                links: s.links.push(ParentLink { lane: lane as usize, was_existing: false, already_shown: shown, color: c }),
                ..s
            }
        } else {
            let c = lane_or_id(s.lane_color, s.oid_color, commits, pl, p);
            ResolveState {
                links: s.links.push(ParentLink { lane: pl as usize, was_existing: true, already_shown: shown, color: c }),
                ..s
            }
        },
        None => if k == 0 {
            ResolveState {
                lanes: s.lanes.update(lane, Some(p)),
                oid_color: set_id(s.oid_color, commits, p, color),
                links: s.links.push(ParentLink { lane: lane as usize, was_existing: false, already_shown: shown, color }),
                ..s
            }
        } else {
            let a = alloc_spec(s.lanes, s.lane_color);
            let nl = a.2;
            let pick = assigned(s.colors, nl, true);
            ResolveState {
                lanes: a.0.update(nl, Some(p)),
                lane_color: a.1.update(nl, Some(pick.0)),
                oid_color: set_id(s.oid_color, commits, p, pick.0),
                colors: pick.1,
                links: s.links.push(ParentLink { lane: nl as usize, was_existing: false, already_shown: shown, color: pick.0 }),
            }
        },
    }
}

pub open spec fn resolve_upto(
    s0: ResolveState,
    commits: Seq<CommitInfo>,
    i: int,
    lane: int,
    color: usize,
    valid: Seq<CommitId>,
    k: int,
) -> ResolveState
    decreases k,
{
    if k <= 0 {
        s0
    } else {
        resolve_step(resolve_upto(s0, commits, i, lane, color, valid, k - 1), commits, i, lane, color, valid[k - 1], k - 1)
    }
}

/// Lane of the first link to a parent that another lane already waited for.
pub open spec fn first_merging(links: Seq<ParentLink>, lane: int) -> Option<usize>
    decreases links.len(),
{
    if links.len() == 0 {
        None
    } else {
        match first_merging(links.drop_last(), lane) {
            Some(l) => Some(l),
            None => if links.last().was_existing && links.last().lane != lane { Some(links.last().lane) } else { None },
        }
    }
}

/// The reconvergence step after the row of commit `i` (see `reconverge`).
pub open spec fn reconverge_spec(
    s: LaneModel,
    commits: Seq<CommitInfo>,
    i: int,
    lane: int,
    links: Seq<ParentLink>,
    first_parent: Option<CommitId>,
) -> LaneModel {
    match first_merging(links, lane) {
        None => s,
        Some(pl) => {
            let main = if pl < lane { pl as int } else { lane };
            let ending = if pl < lane { lane } else { pl as int };
            if ending >= s.lanes.len() || main >= s.lanes.len() {
                s
            } else {
                let waiting = s.lanes[ending];
                let keep = match waiting {
                    Some(x) => first_parent == Some(x) || match row_index(commits, x) {
                        Some(r) => r <= i,
                        None => false,
                    },
                    None => false,
                };
                if keep {
                    s
                } else {
                    let mc = match s.lanes[main] {
                        Some(x) => match id_color(s.oid_color, commits, x) {
                            Some(c) => c,
                            None => main as usize,
                        },
                        None => main as usize,
                    };
                    let ec = match id_color(s.oid_color, commits, commits[i].oid) {
                        Some(c) => c,
                        None => ending as usize,
                    };
                    let pipes = pipes_of(s.lanes, s.lane_color, s.oid_color, commits);
                    let row = RowModel {
                        is_commit: false,
                        lane: main as usize,
                        color: mc,
                        cells: connector_cells(row_width(s.max_lane as int), main, mc, seq![(ending as usize, ec)], pipes),
                    };
                    let l1 = match waiting {
                        Some(x) => if s.lanes[main] is None { s.lanes.update(main, Some(x)) } else { s.lanes },
                        None => s.lanes,
                    };
                    LaneModel {
                        lanes: l1.update(ending, None),
                        lane_color: s.lane_color.update(ending, None),
                        rows: s.rows.push(row),
                        colors: released(s.colors, ending),
                        ..s
                    }
                }
            }
        },
    }
}

/// Everything commit `i` does to the layout: fan-in row, lane and color,
/// parents, its own row, reconvergence row.
pub open spec fn process_spec(st: LaneModel, commits: Seq<CommitInfo>, i: int) -> LaneModel {
    let s1 = fan_in_spec(LaneModel { colors: advanced(st.colors), ..st }, commits, i);
    let id = commits[i].oid;
    let found = first_index(s1.lanes, Some(id));
    let a = match found {
        Some(l) => (s1.lanes, s1.lane_color, l),
        None => alloc_spec(s1.lanes, s1.lane_color),
    };
    let lane = a.2;
    let cc = if found is Some {
        continued(s1.colors, lane)
    } else if i == 0 {
        (MAIN_BRANCH_COLOR, main_assigned(s1.colors, lane))
    } else {
        assigned(s1.colors, lane, false)
    };
    let color = cc.0;
    let valid = valid_parents(commits, commits[i].parent_oids@);
    let s0 = ResolveState {
        lanes: a.0.update(lane, None),
        lane_color: a.1.update(lane, Some(color)),
        oid_color: set_id(s1.oid_color, commits, id, color),
        colors: if valid.len() >= 2 { ColorModel { fork_colors: Seq::empty(), ..cc.1 } } else { cc.1 },
        links: Seq::empty(),
    };
    let r = resolve_upto(s0, commits, i, lane, color, valid, valid.len() as int);
    let mx = max_links(raised(s1.max_lane, lane as usize), r.links);
    let pipes = pipes_of(r.lanes, r.lane_color, r.oid_color, commits);
    let row = RowModel {
        is_commit: true,
        lane: lane as usize,
        color,
        cells: commit_row_cells(row_width(mx as int), lane, color, r.links, pipes),
    };
    let s4 = LaneModel {
        lanes: r.lanes,
        lane_color: r.lane_color,
        oid_color: r.oid_color,
        rows: s1.rows.push(row),
        max_lane: mx,
        colors: r.colors,
    };
    reconverge_spec(s4, commits, i, lane, r.links, if valid.len() > 0 { Some(valid[0]) } else { None })
}

/// The layout pass over the first `k` commits.
pub open spec fn run(commits: Seq<CommitInfo>, k: int) -> LaneModel
    decreases k,
{
    if k <= 0 {
        LaneModel {
            lanes: Seq::empty(),
            lane_color: Seq::empty(),
            oid_color: Seq::new(commits.len(), |j: int| None),
            rows: Seq::empty(),
            max_lane: 0,
            colors: initial_colors(),
        }
    } else {
        process_spec(run(commits, k - 1), commits, k - 1)
    }
}

/// `cells` padded with empty cells up to width `w`.
pub open spec fn padded(cells: Seq<CellType>, w: nat) -> Seq<CellType> {
    Seq::new(if cells.len() < w { w } else { cells.len() }, |j: int| if j < cells.len() { cells[j] } else { CellType::Empty })
}

/// Mutable state of one layout computation.
struct LaneState {
    /// For each lane, the commit it waits for.
    lanes: Vec<Option<CommitId>>,
    /// For each lane, the color it is drawn in.
    lane_color: Vec<Option<usize>>,
    /// For each commit row, the color recorded for that commit.
    oid_color: Vec<Option<usize>>,
    nodes: Vec<GraphNode>,
    max_lane: usize,
    colors: ColorAssigner,
}

impl LaneState {
    spec fn model(&self) -> LaneModel {
        LaneModel {
            lanes: self.lanes@,
            lane_color: self.lane_color@,
            oid_color: self.oid_color@,
            rows: self.nodes@.map_values(|n: GraphNode| row_model(n)),
            max_lane: self.max_lane,
            colors: self.colors@,
        }
    }

    spec fn inv(&self, commits: Seq<CommitInfo>, i: int) -> bool {
        &&& self.colors.wf()
        &&& self.lanes@.len() == self.lane_color@.len()
        &&& self.oid_color@.len() == commits.len()
        &&& 0 <= i <= commits.len()
        &&& link_total(commits) < LANE_LIMIT
        &&& self.lanes@.len() <= link_total(commits.subrange(0, i))
        &&& (self.max_lane < self.lanes@.len() || self.max_lane == 0)
        &&& forall|r: int| 0 <= r < self.nodes@.len() ==> #[trigger] self.nodes@[r].lane <= self.max_lane
            && self.nodes@[r].cells@.len() <= row_width(self.max_lane as int)
    }

    spec fn first_row_inv(&self, i: int) -> bool {
        i > 0 ==> {
            &&& self.nodes@.len() > 0
            &&& self.nodes@[0].commit is Some
            &&& self.nodes@[0].lane == 0
            &&& self.nodes@[0].color_index == MAIN_BRANCH_COLOR
        }
    }

    spec fn linear_inv(&self, commits: Seq<CommitInfo>, i: int) -> bool {
        is_linear(commits) ==> {
            &&& self.max_lane == 0
            &&& self.nodes@.len() == i
            &&& forall|r: int| 0 <= r < self.nodes@.len() ==> (#[trigger] self.nodes@[r]).lane == 0
            &&& if i == 0 {
                self.lanes@.len() == 0
            } else if i < commits.len() {
                self.lanes@ == seq![Some(commits[i].oid)]
            } else {
                self.lanes@ == seq![None::<CommitId>]
            }
        }
    }

    spec fn rows_inv(&self, commits: Seq<CommitInfo>, branches: Seq<BranchInfo>, i: int) -> bool {
        &&& forall|r: int| 0 <= r < self.nodes@.len() ==> row_ok(#[trigger] self.nodes@[r], branches)
        &&& max_lane_shown(self.nodes@, self.max_lane as int)
        &&& same_commits(commit_rows(self.nodes@), commits.subrange(0, i))
    }

    fn raise_max_lane(&mut self, l: usize)
        ensures
            final(self).max_lane == if l > old(self).max_lane { l } else { old(self).max_lane },
            row_width(old(self).max_lane as int) <= row_width(final(self).max_lane as int),
            final(self).lanes == old(self).lanes,
            final(self).lane_color == old(self).lane_color,
            final(self).oid_color == old(self).oid_color,
            final(self).nodes == old(self).nodes,
            final(self).colors == old(self).colors,
    {
        if l > self.max_lane {
            self.max_lane = l;
        }
    }

    /// Emits the fan-in row for a commit that several lanes wait for, and frees
    /// every such lane but the first.
    #[verifier::rlimit(100)]
    #[verifier::spinoff_prover]
    fn fan_in(&mut self, commits: &[CommitInfo], branches: &[BranchInfo], i: usize)
        requires
            old(self).inv(commits@, i as int),
            old(self).rows_inv(commits@, branches@, i as int),
            i < commits@.len(),
        ensures
            final(self).inv(commits@, i as int),
            final(self).rows_inv(commits@, branches@, i as int),
            final(self).lanes@.len() == old(self).lanes@.len(),
            old(self).lanes@.len() <= 1 ==> *final(self) == *old(self),
            old(self).nodes@.len() <= final(self).nodes@.len(),
            forall|r: int| 0 <= r < old(self).nodes@.len() ==> #[trigger] final(self).nodes@[r] == old(self).nodes@[r],
            final(self).model() == fan_in_spec(old(self).model(), commits@, i as int),
    {
        proof { lemma_link_total_prefix(commits@, i as int); }
        let ghost st = self.model();
        let id = commits[i].oid;
        let fork_lanes = lanes_holding(&self.lanes, id);
        if fork_lanes.len() < 2 {
            return;
        }
        assert(fork_lanes@[0] < fork_lanes@[1]);
        let ghost max0 = self.max_lane;
        let ghost nodes0 = self.nodes@;
        let main_lane = fork_lanes[0];
        let ghost fl = fork_lanes@;
        let ghost spec_merging = fan_in_merging(st, commits@, id);
        self.raise_max_lane(main_lane);
        let mut merging: Vec<(usize, usize)> = Vec::new();
        let mut k: usize = 1;
        while k < fork_lanes.len()
            invariant
                self.inv(commits@, i as int),
                self.nodes@ == nodes0,
                self.lanes@ == st.lanes,
                self.lane_color@ == st.lane_color,
                self.oid_color@ == st.oid_color,
                self.colors@ == st.colors,
                fl == fork_lanes@,
                fl == holding(st.lanes, id),
                spec_merging == fan_in_merging(st, commits@, id),
                spec_merging.len() == fl.len() - 1,
                merging@ =~= spec_merging.subrange(0, k - 1),
                self.max_lane == max_merges(raised(max0, main_lane), merging@),
                self.lanes@.len() == old(self).lanes@.len(),
                1 <= k <= fork_lanes@.len(),
                main_lane == fork_lanes@[0],
                forall|q: int| 0 <= q < fork_lanes@.len() ==> #[trigger] fork_lanes@[q] < self.lanes@.len(),
                forall|a: int, b: int| 0 <= a < b < fork_lanes@.len() ==> fork_lanes@[a] < fork_lanes@[b],
                merging@.len() == k - 1,
                forall|q: int| 0 <= q < merging@.len() ==> #[trigger] merging@[q].0 == fork_lanes@[q + 1],
                self.max_lane >= main_lane,
                forall|q: int| 0 <= q < merging@.len() ==> #[trigger] merging@[q].0 <= self.max_lane,
                self.max_lane == max0 || self.max_lane == main_lane || exists|q: int|
                    0 <= q < merging@.len() && #[trigger] merging@[q].0 == self.max_lane,
            decreases fork_lanes@.len() - k,
        {
            let l = fork_lanes[k];
            let color = lane_or_id_color(&self.lane_color, &self.oid_color, commits, l, id);
            let ghost pre = merging@;
            assert(spec_merging[k - 1] == (l, color));
            merging.push((l, color));
            assert(merging@.drop_last() =~= pre);
            assert(merging@ =~= spec_merging.subrange(0, k as int));
            proof {
                if self.max_lane != max0 && self.max_lane != main_lane && l <= self.max_lane {
                    let q = choose|q: int| 0 <= q < pre.len() && #[trigger] pre[q].0 == self.max_lane;
                    assert(merging@[q] == pre[q]);
                }
            }
            let ghost mprev = self.max_lane;
            self.raise_max_lane(l);
            proof {
                assert forall|r: int| 0 <= r < self.nodes@.len() implies #[trigger] self.nodes@[r].lane <= self.max_lane
                    && self.nodes@[r].cells@.len() <= row_width(self.max_lane as int) by {
                    assert(self.nodes@[r].lane <= mprev);
                }
                assert(self.max_lane < self.lanes@.len());
                if self.max_lane == l {
                    assert(merging@[pre.len() as int].0 == self.max_lane);
                }
            }
            k += 1;
        }
        assert(merging@ =~= spec_merging);
        let main_color = lane_or_id_color(&self.lane_color, &self.oid_color, commits, main_lane, id);
        let pipes = pipe_colors(&self.lanes, &self.lane_color, &self.oid_color, commits);
        let cells = build_connector_cells(main_lane, main_color, &merging, &pipes, self.max_lane);
        proof {
            assert forall|q: int| 0 <= q < merging@.len() implies main_lane < (#[trigger] merging@[q]).0 && 2
                * merging@[q].0 < row_width(self.max_lane as int) by {
                assert(fork_lanes@[0] < fork_lanes@[q + 1]);
            }
            lemma_connector_shape(row_width(self.max_lane as int), main_lane as int, main_color, merging@, pipes@);
        }
        self.nodes.push(GraphNode {
            commit: None,
            lane: main_lane,
            color_index: main_color,
            branch_names: Vec::new(),
            is_head: false,
            is_uncommitted: false,
            uncommitted_count: 0,
            cells,
        });
        proof {
            let last = self.nodes@.len() - 1;
            assert(self.nodes@.drop_last() =~= nodes0);
            assert(self.nodes@[last].branch_names@.len() == 0);
            assert(row_ok(self.nodes@[last], branches@));
            assert forall|r: int| 0 <= r < self.nodes@.len() implies row_ok(#[trigger] self.nodes@[r], branches@) by {
                if r < last {
                    assert(self.nodes@[r] == nodes0[r]);
                }
            }
            if self.max_lane == main_lane {
                assert(shows_lane(self.nodes@[last], self.max_lane as int));
            } else if self.max_lane != max0 {
                let q = choose|q: int| 0 <= q < merging@.len() && #[trigger] merging@[q].0 == self.max_lane;
                assert(shows_lane(self.nodes@[last], merging@[q].0 as int));
            } else {
                let r = choose|r: int| 0 <= r < nodes0.len() && #[trigger] shows_lane(nodes0[r], max0 as int);
                assert(self.nodes@[r] == nodes0[r]);
                assert(shows_lane(self.nodes@[r], self.max_lane as int));
            }
            assert(max_lane_shown(self.nodes@, self.max_lane as int));
        }
        let ghost pushed = self.nodes@;
        assert forall|r: int| 0 <= r < nodes0.len() implies #[trigger] pushed[r] == nodes0[r] by {}
        let ghost rows1 = self.model().rows;
        assert(rows1 =~= st.rows.push(row_model(self.nodes@.last())));
        let ghost max1 = self.max_lane;
        let mut k: usize = 0;
        while k < merging.len()
            invariant
                self.inv(commits@, i as int),
                self.rows_inv(commits@, branches@, i as int),
                self.nodes@ == pushed,
                self.max_lane == max1,
                self.oid_color@ == st.oid_color,
                k <= merging@.len(),
                self.lanes@ == cleared(st.lanes, merging@.subrange(0, k as int)),
                self.lane_color@ == cleared(st.lane_color, merging@.subrange(0, k as int)),
                self.colors@ == released_all(st.colors, merging@.subrange(0, k as int)),
                self.lanes@.len() == old(self).lanes@.len(),
                forall|q: int| 0 <= q < merging@.len() ==> #[trigger] merging@[q].0 < self.lanes@.len(),
            decreases merging@.len() - k,
        {
            let l = merging[k].0;
            let ghost pre = merging@.subrange(0, k as int);
            let ghost nxt = merging@.subrange(0, k + 1);
            assert(nxt.drop_last() =~= pre);
            assert forall|q: int| merges_lane(nxt, q) <==> (merges_lane(pre, q) || q == l) by {
                if merges_lane(nxt, q) {
                    let w = choose|w: int| 0 <= w < nxt.len() && nxt[w].0 == q;
                    if w < pre.len() {
                        assert(pre[w] == nxt[w]);
                    }
                }
                if merges_lane(pre, q) {
                    let w = choose|w: int| 0 <= w < pre.len() && pre[w].0 == q;
                    assert(nxt[w] == pre[w]);
                }
                if q == l {
                    assert(nxt[k as int].0 == l);
                }
            }
            self.lanes.set(l, None);
            self.colors.release_lane(l);
            self.lane_color.set(l, None);
            assert(self.lanes@ =~= cleared(st.lanes, nxt));
            assert(self.lane_color@ =~= cleared(st.lane_color, nxt));
            k += 1;
        }
        assert(merging@.subrange(0, merging@.len() as int) =~= merging@);
        assert(self.model().rows =~= rows1);
    }
}

impl LaneState {
    /// Resolves the parents of commit `i`, which sits on `lane` in `color`,
    /// and returns how its row connects to each of them.
    #[verifier::rlimit(100)]
    #[verifier::spinoff_prover]
    fn resolve_parents(&mut self, commits: &[CommitInfo], i: usize, lane: usize, color: usize) -> (res: (Vec<ParentLink>, Option<CommitId>))
        requires
            old(self).colors.wf(),
            old(self).lanes@.len() == old(self).lane_color@.len(),
            old(self).oid_color@.len() == commits@.len(),
            i < commits@.len(),
            lane < old(self).lanes@.len(),
            old(self).lanes@.len() <= link_total(commits@.subrange(0, i as int)) + 1,
        ensures
            final(self).colors.wf(),
            final(self).lanes@.len() == final(self).lane_color@.len(),
            final(self).oid_color@.len() == commits@.len(),
            final(self).nodes == old(self).nodes,
            final(self).max_lane == old(self).max_lane,
            old(self).lanes@.len() <= final(self).lanes@.len(),
            final(self).lanes@.len() <= link_total(commits@.subrange(0, i as int + 1)),
            forall|k: int| 0 <= k < res.0@.len() ==> #[trigger] res.0@[k].lane < final(self).lanes@.len(),
            ({
                let valid = valid_parents(commits@, commits@[i as int].parent_oids@);
                let s0 = ResolveState {
                    lanes: old(self).lanes@,
                    lane_color: old(self).lane_color@,
                    oid_color: old(self).oid_color@,
                    colors: if valid.len() >= 2 {
                        ColorModel { fork_colors: Seq::empty(), ..old(self).colors@ }
                    } else {
                        old(self).colors@
                    },
                    links: Seq::empty(),
                };
                &&& final(self).rstate(res.0@) == resolve_upto(s0, commits@, i as int, lane as int, color, valid, valid.len() as int)
                &&& res.1 == if valid.len() > 0 { Some(valid[0]) } else { None }
            }),
            old(self).lanes@ == seq![None::<CommitId>] && lane == 0 && valid_parents(commits@, commits@[i as int].parent_oids@).len() == 0
                ==> final(self).lanes@ == old(self).lanes@ && res.0@.len() == 0,
            old(self).lanes@ == seq![None::<CommitId>] && lane == 0 && valid_parents(commits@, commits@[i as int].parent_oids@).len() == 1 ==> {
                &&& final(self).lanes@ == seq![Some(valid_parents(commits@, commits@[i as int].parent_oids@)[0])]
                &&& res.0@.len() == 1
                &&& res.0@[0].lane == 0
                &&& !res.0@[0].was_existing
            },
    {
        proof {
            assert(commits@.subrange(0, i + 1).drop_last() =~= commits@.subrange(0, i as int));
        }
        let parents = &commits[i].parent_oids;
        let mut valid: Vec<CommitId> = Vec::new();
        let mut q: usize = 0;
        while q < parents.len()
            invariant
                q <= parents@.len(),
                valid@.len() <= q,
                valid@ == valid_parents(commits@, parents@.subrange(0, q as int)),
            decreases parents@.len() - q,
        {
            assert(parents@.subrange(0, q + 1).drop_last() =~= parents@.subrange(0, q as int));
            if row_of(commits, parents[q]).is_some() {
                valid.push(parents[q]);
            }
            q += 1;
        }
        assert(parents@.subrange(0, parents@.len() as int) =~= parents@);
        let ghost vs = valid@;
        if valid.len() >= 2 {
            self.colors.begin_fork();
        }
        let ghost s0 = self.rstate(Seq::empty());
        let ghost start_len = self.lanes@.len();
        let mut links: Vec<ParentLink> = Vec::new();
        let mut k: usize = 0;
        while k < valid.len()
            invariant
                self.colors.wf(),
                self.lanes@.len() == self.lane_color@.len(),
                self.oid_color@.len() == commits@.len(),
                self.nodes == old(self).nodes,
                self.max_lane == old(self).max_lane,
                old(self).lanes@.len() <= start_len <= self.lanes@.len() <= start_len + k,
                start_len <= link_total(commits@.subrange(0, i as int)) + 1,
                valid@.len() <= parents@.len(),
                valid@ == vs,
                parents == commits@[i as int].parent_oids,
                k <= valid@.len(),
                lane < self.lanes@.len(),
                self.rstate(links@) == resolve_upto(s0, commits@, i as int, lane as int, color, vs, k as int),
                old(self).lanes@ == seq![None::<CommitId>] && lane == 0 && valid@.len() <= 1 ==> {
                    &&& k == 0 ==> self.lanes@ == old(self).lanes@ && links@.len() == 0
                    &&& k == 1 ==> self.lanes@ == seq![Some(valid@[0])] && links@.len() == 1 && links@[0].lane == 0
                        && !links@[0].was_existing
                },
                forall|q: int| 0 <= q < links@.len() ==> #[trigger] links@[q].lane < self.lanes@.len(),
            decreases valid@.len() - k,
        {
            let p = valid[k];
            let ghost prev = self.rstate(links@);
            let shown = match row_of(commits, p) {
                Some(r) => r < i,
                None => false,
            };
            proof {
                if old(self).lanes@ == seq![None::<CommitId>] && lane == 0 && valid@.len() <= 1 {
                    assert(k == 0);
                    assert(self.lanes@[0] != Some(p));
                }
            }
            let link = match find_lane(&self.lanes, p) {
                Some(pl) => {
                    if k == 0 && is_fork_point_exec(commits, p) {
                        // Another child already waits for this fork point: this
                        // lane waits for it too, until the fan-in row joins them.
                        self.lanes.set(lane, Some(p));
                        let c = if self.colors.is_main_lane(lane) { MAIN_BRANCH_COLOR } else { color };
                        self.lane_color.set(lane, Some(c));
                        ParentLink { lane, was_existing: false, already_shown: shown, color: c }
                    } else {
                        let c = lane_or_id_color(&self.lane_color, &self.oid_color, commits, pl, p);
                        ParentLink { lane: pl, was_existing: true, already_shown: shown, color: c }
                    }
                },
                None => {
                    if k == 0 {
                        self.lanes.set(lane, Some(p));
                        assert(old(self).lanes@ == seq![None::<CommitId>] && lane == 0 && valid@.len() <= 1 ==> self.lanes@
                            =~= seq![Some(p)]);
                        set_id_color(&mut self.oid_color, commits, p, color);
                        ParentLink { lane, was_existing: false, already_shown: shown, color }
                    } else {
                        let new_lane = alloc_lane(&mut self.lanes, &mut self.lane_color);
                        self.lanes.set(new_lane, Some(p));
                        let ghost cm = self.colors@;
                        let c = self.colors.assign_fork_sibling_color(new_lane);
                        proof {
                            lemma_best_color_is(cm.with_lane(new_lane as int), new_lane as int, true, false, c as int);
                        }
                        set_id_color(&mut self.oid_color, commits, p, c);
                        self.lane_color.set(new_lane, Some(c));
                        ParentLink { lane: new_lane, was_existing: false, already_shown: shown, color: c }
                    }
                },
            };
            links.push(link);
            proof {
                assert(self.rstate(links@) == resolve_step(prev, commits@, i as int, lane as int, color, p, k as int));
            }
            k += 1;
        }
        let first = if valid.len() > 0 { Some(valid[0]) } else { None };
        (links, first)
    }
}

impl LaneState {
    spec fn rstate(&self, links: Seq<ParentLink>) -> ResolveState {
        ResolveState {
            lanes: self.lanes@,
            lane_color: self.lane_color@,
            oid_color: self.oid_color@,
            colors: self.colors@,
            links,
        }
    }
}

impl LaneState {
    /// When the row of commit `i` (on `lane`) reaches a parent that another
    /// lane already waits for, the higher of the two lanes ends: a connector
    /// row joins it into the lower one and the lane is freed. The lane is kept
    /// when it still waits for the commit's first parent, or for a commit that
    /// is already shown.
    fn reconverge(
        &mut self,
        commits: &[CommitInfo],
        branches: &[BranchInfo],
        i: usize,
        lane: usize,
        links: &Vec<ParentLink>,
        first_parent: Option<CommitId>,
    )
        requires
            old(self).inv(commits@, i as int + 1),
            old(self).rows_inv(commits@, branches@, i as int + 1),
            i < commits@.len(),
            lane <= old(self).max_lane,
            forall|k: int| 0 <= k < links@.len() ==> #[trigger] links@[k].lane <= old(self).max_lane,
        ensures
            final(self).inv(commits@, i as int + 1),
            final(self).rows_inv(commits@, branches@, i as int + 1),
            (forall|k: int| 0 <= k < links@.len() ==> !(#[trigger] links@[k]).was_existing) ==> *final(self) == *old(self),
            old(self).nodes@.len() <= final(self).nodes@.len(),
            forall|r: int| 0 <= r < old(self).nodes@.len() ==> #[trigger] final(self).nodes@[r] == old(self).nodes@[r],
            final(self).model() == reconverge_spec(old(self).model(), commits@, i as int, lane as int, links@, first_parent),
    {
        proof { lemma_link_total_prefix(commits@, i as int + 1); }
        let ghost st = self.model();
        let mut found: Option<usize> = None;
        let mut k: usize = 0;
        while k < links.len()
            invariant
                k <= links@.len(),
                found matches Some(pl) ==> pl <= self.max_lane && pl != lane && exists|q: int|
                    0 <= q < k && (#[trigger] links@[q]).was_existing,
                self == old(self),
                forall|q: int| 0 <= q < links@.len() ==> #[trigger] links@[q].lane <= old(self).max_lane,
                found == first_merging(links@.subrange(0, k as int), lane as int),
            decreases links@.len() - k,
        {
            assert(links@.subrange(0, k + 1).drop_last() =~= links@.subrange(0, k as int));
            if found.is_none() && links[k].was_existing && links[k].lane != lane {
                found = Some(links[k].lane);
            }
            k += 1;
        }
        assert(links@.subrange(0, links@.len() as int) =~= links@);
        let pl = match found {
            Some(pl) => pl,
            None => return,
        };
        let main_lane = if pl < lane { pl } else { lane };
        let ending = if pl < lane { lane } else { pl };
        if ending >= self.lanes.len() || main_lane >= self.lanes.len() {
            return;
        }
        let waiting = self.lanes[ending];
        let keep = match waiting {
            Some(x) => first_parent == Some(x) || match row_of(commits, x) {
                Some(r) => r <= i,
                None => false,
            },
            None => false,
        };
        if keep {
            return;
        }
        let main_color = match self.lanes[main_lane] {
            Some(x) => match id_color_exec(&self.oid_color, commits, x) {
                Some(c) => c,
                None => main_lane,
            },
            None => main_lane,
        };
        let ending_color = match id_color_exec(&self.oid_color, commits, commits[i].oid) {
            Some(c) => c,
            None => ending,
        };
        let pipes = pipe_colors(&self.lanes, &self.lane_color, &self.oid_color, commits);
        let mut merging: Vec<(usize, usize)> = Vec::new();
        merging.push((ending, ending_color));
        let cells = build_connector_cells(main_lane, main_color, &merging, &pipes, self.max_lane);
        proof {
            lemma_connector_shape(row_width(self.max_lane as int), main_lane as int, main_color, merging@, pipes@);
        }
        let ghost nodes0 = self.nodes@;
        self.nodes.push(GraphNode {
            commit: None,
            lane: main_lane,
            color_index: main_color,
            branch_names: Vec::new(),
            is_head: false,
            is_uncommitted: false,
            uncommitted_count: 0,
            cells,
        });
        proof {
            let last = self.nodes@.len() - 1;
            assert(self.nodes@.drop_last() =~= nodes0);
            assert(self.nodes@[last].branch_names@.len() == 0);
            assert(row_ok(self.nodes@[last], branches@));
            assert forall|r: int| 0 <= r < self.nodes@.len() implies row_ok(#[trigger] self.nodes@[r], branches@) by {
                if r < last {
                    assert(self.nodes@[r] == nodes0[r]);
                }
            }
            let r = choose|r: int| 0 <= r < nodes0.len() && #[trigger] shows_lane(nodes0[r], self.max_lane as int);
            assert(self.nodes@[r] == nodes0[r]);
            assert(shows_lane(self.nodes@[r], self.max_lane as int));
        }
        if let Some(x) = waiting {
            if self.lanes[main_lane].is_none() {
                self.lanes.set(main_lane, Some(x));
            }
        }
        self.lanes.set(ending, None);
        self.colors.release_lane(ending);
        self.lane_color.set(ending, None);
        proof {
            assert(merging@ =~= seq![(ending, ending_color)]);
            assert(self.model().rows =~= st.rows.push(row_model(self.nodes@.last())));
        }
    }

    /// Lays out commit `i`: its fan-in row if any, its own row, and its
    /// reconvergence row if any.
    #[verifier::rlimit(100)]
    #[verifier::spinoff_prover]
    fn process_commit(&mut self, commits: &[CommitInfo], branches: &[BranchInfo], i: usize)
        requires
            old(self).inv(commits@, i as int),
            old(self).rows_inv(commits@, branches@, i as int),
            old(self).linear_inv(commits@, i as int),
            old(self).first_row_inv(i as int),
            i == 0 ==> old(self).lanes@.len() == 0 && old(self).nodes@.len() == 0,
            i < commits@.len(),
        ensures
            final(self).inv(commits@, i as int + 1),
            final(self).rows_inv(commits@, branches@, i as int + 1),
            final(self).linear_inv(commits@, i as int + 1),
            final(self).first_row_inv(i as int + 1),
            final(self).model() == process_spec(old(self).model(), commits@, i as int),
    {
        proof { lemma_link_total_prefix(commits@, i as int + 1); }
        let ghost st = self.model();
        self.colors.advance_row();
        assert(self.model() == (LaneModel { colors: advanced(st.colors), ..st }));
        self.fan_in(commits, branches, i);
        let ghost s1 = self.model();
        let id = commits[i].oid;
        assert(is_linear(commits@) && i > 0 ==> self.lanes@ == seq![Some(id)]);
        assert(is_linear(commits@) && i == 0 ==> self.lanes@.len() == 0);
        assert(is_linear(commits@) && i > 0 ==> self.lanes@.len() == 1 && self.lanes@[0] == Some(id));
        let found = find_lane(&self.lanes, id);
        let lane = match found {
            Some(l) => l,
            None => alloc_lane(&mut self.lanes, &mut self.lane_color),
        };
        let ghost cm1 = self.colors@;
        let ghost a = (self.lanes@, self.lane_color@, lane as int);
        let color = if found.is_some() {
            self.colors.continue_lane(lane)
        } else if i == 0 {
            self.colors.assign_main_color(lane)
        } else {
            self.colors.assign_color(lane)
        };
        proof {
            if found.is_some() {
                if cm1.main_lane != Some(lane) && cm1.with_lane(lane as int).lane_colors[lane as int] is None {
                    lemma_best_color_is(cm1.with_lane(lane as int), lane as int, false, false, color as int);
                }
                assert((color, self.colors@) == continued(cm1, lane as int));
            } else if i == 0 {
                assert(self.colors@ == main_assigned(cm1, lane as int));
            } else {
                lemma_best_color_is(cm1.with_lane(lane as int), lane as int, false, false, color as int);
                assert((color, self.colors@) == assigned(cm1, lane as int, false));
            }
        }
        set_id_color(&mut self.oid_color, commits, id, color);
        self.lane_color.set(lane, Some(color));
        self.lanes.set(lane, None);
        proof {
            if is_linear(commits@) {
                assert(lane == 0);
                assert(self.lanes@ =~= seq![None::<CommitId>]);
                if i + 1 < commits@.len() {
                    assert(valid_parents(commits@, commits@[i as int].parent_oids@) == seq![commits@[i + 1].oid]);
                } else {
                    assert(commits@[i as int] == commits@.last());
                }
            }
        }
        let (links, first_parent) = self.resolve_parents(commits, i, lane, color);
        let ghost rs = self.rstate(links@);
        let ghost len2 = self.lanes@.len();
        let ghost lanes2 = self.lanes@;
        let ghost max1 = self.max_lane;
        let ghost nodes1 = self.nodes@;
        self.raise_max_lane(lane);
        let mut k: usize = 0;
        while k < links.len()
            invariant
                k <= links@.len(),
                self.colors.wf(),
                self.nodes@ == nodes1,
                self.lanes@ == lanes2,
                self.lane_color@ == rs.lane_color,
                self.oid_color@ == rs.oid_color,
                self.colors@ == rs.colors,
                self.max_lane == max_links(raised(max1, lane), links@.subrange(0, k as int)),
                self.lanes@.len() == len2,
                self.lanes@.len() == self.lane_color@.len(),
                self.oid_color@.len() == commits@.len(),
                self.max_lane >= lane,
                self.max_lane < self.lanes@.len(),
                forall|q: int| 0 <= q < k ==> #[trigger] links@[q].lane <= self.max_lane,
                forall|q: int| 0 <= q < links@.len() ==> #[trigger] links@[q].lane < self.lanes@.len(),
                forall|r: int| 0 <= r < self.nodes@.len() ==> #[trigger] self.nodes@[r].lane <= self.max_lane
                    && self.nodes@[r].cells@.len() <= row_width(self.max_lane as int),
                len2 <= link_total(commits@.subrange(0, i as int + 1)),
                self.max_lane == max1 || self.max_lane == lane || exists|q: int|
                    0 <= q < k && #[trigger] links@[q].lane == self.max_lane,
            decreases links@.len() - k,
        {
            assert(links@.subrange(0, k + 1).drop_last() =~= links@.subrange(0, k as int));
            self.raise_max_lane(links[k].lane);
            k += 1;
        }
        let pipes = pipe_colors(&self.lanes, &self.lane_color, &self.oid_color, commits);
        let cells = build_row_cells_with_colors(lane, color, &links, &pipes, self.max_lane);
        proof {
            lemma_commit_row_shape(row_width(self.max_lane as int), lane as int, color, links@, pipes@);
        }
        let commit = &commits[i];
        self.nodes.push(GraphNode {
            commit: Some(copy_commit(commit)),
            lane,
            color_index: color,
            branch_names: branch_names_at(branches, id),
            is_head: is_head_at(branches, id),
            is_uncommitted: false,
            uncommitted_count: 0,
            cells,
        });
        proof {
            let last = self.nodes@.len() - 1;
            assert(self.nodes@.drop_last() =~= nodes1);
            assert(row_ok(self.nodes@[last], branches@));
            assert forall|r: int| 0 <= r < self.nodes@.len() implies row_ok(#[trigger] self.nodes@[r], branches@) by {
                if r < last {
                    assert(self.nodes@[r] == nodes1[r]);
                }
            }
            if self.max_lane == lane {
                assert(shows_lane(self.nodes@[last], self.max_lane as int));
            } else if self.max_lane != max1 {
                let q = choose|q: int| 0 <= q < links@.len() && #[trigger] links@[q].lane == self.max_lane;
                assert(shows_lane(self.nodes@[last], links@[q].lane as int));
            } else if nodes1.len() > 0 {
                let r = choose|r: int| 0 <= r < nodes1.len() && #[trigger] shows_lane(nodes1[r], max1 as int);
                assert(self.nodes@[r] == nodes1[r]);
                assert(shows_lane(self.nodes@[r], self.max_lane as int));
            } else {
                assert(shows_lane(self.nodes@[last], lane as int));
            }
            assert(max_lane_shown(self.nodes@, self.max_lane as int));
            let prev = commit_rows(nodes1);
            assert(commit_rows(self.nodes@) == prev.push(self.nodes@[last].commit->Some_0));
            assert(commits@.subrange(0, i as int + 1) =~= commits@.subrange(0, i as int).push(commits@[i as int]));
            assert(same_commits(commit_rows(self.nodes@), commits@.subrange(0, i as int + 1))) by {
                let a = commit_rows(self.nodes@);
                let b = commits@.subrange(0, i as int + 1);
                assert forall|q: int| 0 <= q < a.len() implies same_commit(#[trigger] a[q], b[q]) by {
                    if q < prev.len() {
                        assert(a[q] == prev[q]);
                        assert(b[q] == commits@.subrange(0, i as int)[q]);
                    }
                }
            }
        }
        proof {
            if is_linear(commits@) {
                assert(self.max_lane == 0) by {
                    if links@.len() > 0 {
                        assert(links@[0].lane == 0);
                    }
                }
            }
        }
        proof {
            if i > 0 {
                assert(self.nodes@[0] == nodes1[0]);
            } else {
                assert(self.nodes@.len() == 1);
            }
        }
        assert(links@.subrange(0, links@.len() as int) =~= links@);
        assert(self.model().rows =~= s1.rows.push(row_model(self.nodes@.last())));
        let ghost before_reconverge = *self;
        self.reconverge(commits, branches, i, lane, &links, first_parent);
        proof {
            if is_linear(commits@) {
                assert forall|k: int| 0 <= k < links@.len() implies !(#[trigger] links@[k]).was_existing by {
                    assert(links@.len() == 1 && k == 0);
                }
                assert(*self == before_reconverge);
                assert forall|r: int| 0 <= r < self.nodes@.len() implies (#[trigger] self.nodes@[r]).lane == 0 by {
                    if r < nodes1.len() {
                        assert(self.nodes@[r] == nodes1[r]);
                    }
                }
                assert(self.max_lane == 0);
                assert(self.nodes@.len() == i + 1);
                if i + 1 < commits@.len() {
                    assert(self.lanes@ == seq![Some(commits@[i + 1].oid)]);
                } else {
                    assert(self.lanes@ == seq![None::<CommitId>]);
                }
            }
        }
    }
}

/// Every row is `row_width(max_lane)` cells wide and its lane is at most `max_lane`.
pub open spec fn rows_fit(nodes: Seq<GraphNode>, max_lane: int) -> bool {
    forall|r: int| 0 <= r < nodes.len() ==> #[trigger] nodes[r].lane <= max_lane
        && nodes[r].cells@.len() == row_width(max_lane)
}

/// `b` is `a` with each row's cells padded with empty cells up to `width`.
pub open spec fn padded_rows(a: Seq<GraphNode>, b: Seq<GraphNode>, width: nat) -> bool {
    &&& b.len() == a.len()
    &&& forall|r: int| 0 <= r < a.len() ==> {
        &&& (#[trigger] b[r]).commit == a[r].commit
        &&& b[r].lane == a[r].lane
        &&& b[r].color_index == a[r].color_index
        &&& b[r].branch_names@ == a[r].branch_names@
        &&& b[r].is_head == a[r].is_head
        &&& b[r].is_uncommitted == a[r].is_uncommitted
        &&& b[r].uncommitted_count == a[r].uncommitted_count
        &&& b[r].cells@.len() == if a[r].cells@.len() < width { width } else { a[r].cells@.len() }
        &&& forall|j: int| 0 <= j < a[r].cells@.len() ==> b[r].cells@[j] == a[r].cells@[j]
        &&& forall|j: int| a[r].cells@.len() <= j < b[r].cells@.len() ==> b[r].cells@[j] == CellType::Empty
    }
}

proof fn lemma_commit_rows_eq(a: Seq<GraphNode>, b: Seq<GraphNode>)
    requires
        a.len() == b.len(),
        forall|r: int| 0 <= r < a.len() ==> (#[trigger] a[r]).commit == b[r].commit,
    ensures
        commit_rows(a) == commit_rows(b),
    decreases a.len(),
{
    if a.len() > 0 {
        lemma_commit_rows_eq(a.drop_last(), b.drop_last());
    }
}

proof fn lemma_padding_keeps_rows(a: Seq<GraphNode>, b: Seq<GraphNode>, width: nat, branches: Seq<BranchInfo>, max_lane: int)
    requires
        padded_rows(a, b, width),
        forall|r: int| 0 <= r < a.len() ==> row_ok(#[trigger] a[r], branches),
        max_lane_shown(a, max_lane),
    ensures
        forall|r: int| 0 <= r < b.len() ==> row_ok(#[trigger] b[r], branches),
        max_lane_shown(b, max_lane),
        commit_rows(a) == commit_rows(b),
{
    lemma_commit_rows_eq(a, b);
    assert forall|r: int| 0 <= r < b.len() implies row_ok(#[trigger] b[r], branches) by {
        assert(row_ok(a[r], branches));
        assert forall|j: int| 0 <= j < b[r].cells@.len() implies ((#[trigger] b[r].cells@[j] is Commit) <==> ((b[r].commit is Some
            || b[r].is_uncommitted) && j == 2 * b[r].lane)) by {
            if j < a[r].cells@.len() {
                assert(b[r].cells@[j] == a[r].cells@[j]);
            }
        }
    }
    if a.len() > 0 {
        let r = choose|r: int| 0 <= r < a.len() && #[trigger] shows_lane(a[r], max_lane);
        assert(b[r].cells@[2 * max_lane] == a[r].cells@[2 * max_lane]);
        assert(shows_lane(b[r], max_lane));
    }
}

fn pad_rows(nodes: Vec<GraphNode>, width: usize) -> (r: Vec<GraphNode>)
    ensures
        padded_rows(nodes@, r@, width as nat),
{
    let ghost orig = nodes@;
    let mut rest = nodes;
    let mut out: Vec<GraphNode> = Vec::new();
    while rest.len() > 0
        invariant
            out@.len() + rest@.len() == orig.len(),
            rest@ == orig.subrange(out@.len() as int, orig.len() as int),
            padded_rows(orig.subrange(0, out@.len() as int), out@, width as nat),
        decreases rest@.len(),
    {
        let mut node = rest.remove(0);
        pad_cells(&mut node.cells, width);
        let ghost k = out@.len();
        out.push(node);
        assert(rest@ =~= orig.subrange(out@.len() as int, orig.len() as int));
        assert forall|r: int| 0 <= r < out@.len() implies #[trigger] out@[r].commit == orig.subrange(0, out@.len() as int)[r].commit by {}
    }
    assert(orig.subrange(0, orig.len() as int) =~= orig);
    out
}

/// `layout` is what the pass `m` built: the same highest lane and, row by row,
/// the same kind of row, lane, color and cells (padded to the full width).
pub open spec fn layout_matches(layout: GraphLayout, m: LaneModel) -> bool {
    &&& layout.max_lane == m.max_lane
    &&& layout.nodes@.len() == m.rows.len()
    &&& forall|r: int|
        0 <= r < m.rows.len() ==> {
            &&& ((#[trigger] layout.nodes@[r]).commit is Some) == m.rows[r].is_commit
            &&& layout.nodes@[r].lane == m.rows[r].lane
            &&& layout.nodes@[r].color_index == m.rows[r].color
            &&& layout.nodes@[r].cells@ == padded(m.rows[r].cells, row_width(m.max_lane as int))
        }
}

/// Lays out `commits`, given most recent first with every commit before its
/// parents, with the branches in `branches`. Parents that are not among the
/// commits are left out.
///
/// Every row is `row_width(max_lane)` cells wide. The commit rows hold the
/// commits in order, each with a single commit node in its own lane and the
/// names of the branches at it; connector rows hold no commit node. Some row
/// draws in lane `max_lane`. The first commit takes lane 0 and the main branch
/// color, and a linear history stays in lane 0. Beyond these, the layout is
/// exactly what the pass `run` builds, commit by commit (`process_spec`:
/// fan-in row, lane and color, parents, commit row, reconvergence row).
/// The number of commits plus parent links must stay below `LANE_LIMIT`.
#[verifier::rlimit(100)]
#[verifier::spinoff_prover]
pub fn build_graph(commits: &[CommitInfo], branches: &[BranchInfo]) -> (layout: GraphLayout)
    requires
        link_total(commits@) < LANE_LIMIT,
    ensures
        layout.max_lane + 1 < LANE_LIMIT,
        rows_fit(layout.nodes@, layout.max_lane as int),
        forall|r: int| 0 <= r < layout.nodes@.len() ==> row_ok(#[trigger] layout.nodes@[r], branches@),
        max_lane_shown(layout.nodes@, layout.max_lane as int),
        same_commits(commit_rows(layout.nodes@), commits@),
        is_linear(commits@) ==> layout.max_lane == 0 && layout.nodes@.len() == commits@.len() && forall|r: int|
            0 <= r < layout.nodes@.len() ==> (#[trigger] layout.nodes@[r]).lane == 0,
        commits@.len() > 0 ==> layout.nodes@[0].commit is Some && layout.nodes@[0].lane == 0
            && layout.nodes@[0].color_index == MAIN_BRANCH_COLOR,
        layout_matches(layout, run(commits@, commits@.len() as int)),
{
    let mut oid_color: Vec<Option<usize>> = Vec::new();
    let mut k: usize = 0;
    while k < commits.len()
        invariant
            k <= commits@.len(),
            oid_color@.len() == k,
            forall|q: int| 0 <= q < k ==> oid_color@[q] is None,
        decreases commits@.len() - k,
    {
        oid_color.push(None);
        k += 1;
    }
    let mut st = LaneState {
        lanes: Vec::new(),
        lane_color: Vec::new(),
        oid_color,
        nodes: Vec::new(),
        max_lane: 0,
        colors: ColorAssigner::new(),
    };
    assert(same_commits(commit_rows(st.nodes@), commits@.subrange(0, 0)));
    assert(st.model().rows =~= Seq::<RowModel>::empty());
    assert(st.model().oid_color =~= Seq::new(commits@.len(), |j: int| None::<usize>));
    assert(st.model() == run(commits@, 0));
    let mut i: usize = 0;
    while i < commits.len()
        invariant
            st.inv(commits@, i as int),
            st.rows_inv(commits@, branches@, i as int),
            st.linear_inv(commits@, i as int),
            st.first_row_inv(i as int),
            i == 0 ==> st.lanes@.len() == 0 && st.nodes@.len() == 0,
            st.model() == run(commits@, i as int),
            link_total(commits@) < LANE_LIMIT,
        decreases commits@.len() - i,
    {
        st.process_commit(commits, branches, i);
        i += 1;
    }
    proof { lemma_link_total_prefix(commits@, i as int); }
    let width = (st.max_lane + 1) * 2;
    let ghost before = st.nodes@;
    let nodes = pad_rows(st.nodes, width);
    proof {
        lemma_padding_keeps_rows(before, nodes@, width as nat, branches@, st.max_lane as int);
        let m = run(commits@, commits@.len() as int);
        assert(m.rows == before.map_values(|n: GraphNode| row_model(n)));
        assert forall|r: int| 0 <= r < m.rows.len() implies (#[trigger] nodes@[r]).cells@ == padded(m.rows[r].cells, row_width(m.max_lane as int)) by {
            assert(m.rows[r] == row_model(before[r]));
            assert(nodes@[r].cells@ =~= padded(m.rows[r].cells, row_width(m.max_lane as int)));
        }
        assert(commits@.subrange(0, commits@.len() as int) =~= commits@);
    }
    GraphLayout { nodes, max_lane: st.max_lane }
}

/// Row `n` is the row of commit `id`.
pub open spec fn row_has_commit(n: GraphNode, id: CommitId) -> bool {
    match n.commit {
        Some(c) => c.oid == id,
        None => false,
    }
}

/// Row of the first commit row whose commit is `id`.
pub open spec fn head_row(nodes: Seq<GraphNode>, id: CommitId) -> Option<int>
    decreases nodes.len(),
{
    if nodes.len() == 0 {
        None
    } else {
        match head_row(nodes.drop_last(), id) {
            Some(k) => Some(k),
            None => if row_has_commit(nodes.last(), id) {
                Some(nodes.len() - 1)
            } else {
                None
            },
        }
    }
}

proof fn lemma_head_row(nodes: Seq<GraphNode>, id: CommitId)
    ensures
        head_row(nodes, id) matches Some(k) ==> 0 <= k < nodes.len() && row_has_commit(nodes[k], id),
        head_row(nodes, id) is None ==> forall|r: int| 0 <= r < nodes.len() ==> !row_has_commit(#[trigger] nodes[r], id),
    decreases nodes.len(),
{
    if nodes.len() > 0 {
        lemma_head_row(nodes.drop_last(), id);
        assert forall|r: int| 0 <= r < nodes.len() - 1 implies #[trigger] nodes[r] == nodes.drop_last()[r] by {}
    }
}

/// No row above row `h` draws anything in lane `l`'s column.
pub open spec fn free_above(nodes: Seq<GraphNode>, h: int, l: int) -> bool {
    forall|r: int| 0 <= r < h ==> !shows_lane(#[trigger] nodes[r], l)
}

/// `l` is the lane for the uncommitted-changes row: among the lanes
/// `0..=max_lane + 1` free above HEAD's row `h`, the nearest to HEAD's lane
/// `hl`, the lower one on a tie. HEAD's own lane wins when it is free.
pub open spec fn nearest_free_lane(nodes: Seq<GraphNode>, h: int, hl: int, max_lane: int, l: int) -> bool {
    &&& 0 <= l <= max_lane + 1
    &&& free_above(nodes, h, l)
    &&& forall|m: int|
        0 <= m <= max_lane + 1 && #[trigger] free_above(nodes, h, m) ==> dist(l, hl) < dist(m, hl) || (dist(l, hl)
            == dist(m, hl) && l <= m)
}

/// Cells of an old row `r` once the uncommitted-changes row threads lane `l`
/// up to HEAD's row `h` (HEAD on lane `hl`), drawn in `color`, at width `w`.
pub open spec fn threaded_cells(cells: Seq<CellType>, r: int, h: int, hl: int, l: int, color: usize, w: nat) -> Seq<CellType> {
    Seq::new(
        w,
        |j: int|
            {
                let c = if j < cells.len() { cells[j] } else { CellType::Empty };
                if r < h && j == 2 * l {
                    CellType::Pipe(color)
                } else if r == h && l != hl && j == 2 * l {
                    if l > hl { CellType::MergeLeft(color) } else { CellType::MergeRight(color) }
                } else if r == h && l != hl && (if l > hl { 2 * hl < j < 2 * l } else { 2 * l < j < 2 * hl }) {
                    crossed(c, color, false)
                } else {
                    c
                }
            },
    )
}

/// Cells of the uncommitted-changes row: a commit node in lane `l`.
pub open spec fn uncommitted_row_cells(l: int, color: usize, w: nat) -> Seq<CellType> {
    Seq::new(w, |j: int| if j == 2 * l { CellType::Commit(color) } else { CellType::Empty })
}

fn find_head_row(nodes: &Vec<GraphNode>, id: CommitId) -> (r: Option<usize>)
    ensures
        r matches Some(k) ==> head_row(nodes@, id) == Some(k as int),
        r is None ==> head_row(nodes@, id) is None,
{
    proof { lemma_head_row(nodes@, id); }
    let mut k: usize = 0;
    while k < nodes.len()
        invariant
            k <= nodes@.len(),
            head_row(nodes@.subrange(0, k as int), id) is None,
        decreases nodes@.len() - k,
    {
        assert(nodes@.subrange(0, k + 1).drop_last() =~= nodes@.subrange(0, k as int));
        let hit = match &nodes[k].commit {
            Some(c) => c.oid == id,
            None => false,
        };
        if hit {
            proof { lemma_head_row_extend(nodes@, k as int, id); }
            return Some(k);
        }
        k += 1;
    }
    assert(nodes@.subrange(0, nodes@.len() as int) =~= nodes@);
    None
}

proof fn lemma_head_row_extend(nodes: Seq<GraphNode>, k: int, id: CommitId)
    requires
        0 <= k < nodes.len(),
        head_row(nodes.subrange(0, k), id) is None,
        row_has_commit(nodes[k], id),
    ensures
        head_row(nodes, id) == Some(k),
    decreases nodes.len() - k,
{
    assert(nodes.subrange(0, k + 1).drop_last() =~= nodes.subrange(0, k));
    lemma_head_row_prefix(nodes, k + 1, id);
}

proof fn lemma_head_row_prefix(nodes: Seq<GraphNode>, i: int, id: CommitId)
    requires
        0 <= i <= nodes.len(),
        head_row(nodes.subrange(0, i), id) is Some,
    ensures
        head_row(nodes, id) == head_row(nodes.subrange(0, i), id),
    decreases nodes.len() - i,
{
    if i < nodes.len() {
        assert(nodes.subrange(0, i + 1).drop_last() =~= nodes.subrange(0, i));
        lemma_head_row_prefix(nodes, i + 1, id);
    } else {
        assert(nodes.subrange(0, i) =~= nodes);
    }
}

fn is_free_above(nodes: &Vec<GraphNode>, h: usize, l: usize) -> (r: bool)
    requires
        h <= nodes@.len(),
        l < LANE_LIMIT,
    ensures
        r == free_above(nodes@, h as int, l as int),
{
    let mut r: usize = 0;
    while r < h
        invariant
            r <= h <= nodes@.len(),
            l < LANE_LIMIT,
            forall|q: int| 0 <= q < r ==> !shows_lane(#[trigger] nodes@[q], l as int),
        decreases h - r,
    {
        let cells = &nodes[r].cells;
        if 2 * l < cells.len() && cells[2 * l] != CellType::Empty {
            assert(shows_lane(nodes@[r as int], l as int));
            return false;
        }
        r += 1;
    }
    true
}

fn nearest_free(nodes: &Vec<GraphNode>, h: usize, hl: usize, max_lane: usize) -> (l: usize)
    requires
        h <= nodes@.len(),
        hl <= max_lane,
        max_lane + 1 < LANE_LIMIT,
        rows_fit(nodes@, max_lane as int),
    ensures
        nearest_free_lane(nodes@, h as int, hl as int, max_lane as int, l as int),
{
    if is_free_above(nodes, h, hl) {
        return hl;
    }
    let mut best: Option<usize> = None;
    let mut l: usize = 0;
    while l <= max_lane + 1
        invariant
            l <= max_lane + 2,
            h <= nodes@.len(),
            hl <= max_lane,
            max_lane + 1 < LANE_LIMIT,
            rows_fit(nodes@, max_lane as int),
            best matches Some(b) ==> b < l && free_above(nodes@, h as int, b as int) && forall|m: int|
                0 <= m < l && #[trigger] free_above(nodes@, h as int, m) ==> dist(b as int, hl as int) < dist(m, hl as int)
                    || (dist(b as int, hl as int) == dist(m, hl as int) && b <= m),
            best is None ==> forall|m: int| 0 <= m < l ==> !#[trigger] free_above(nodes@, h as int, m),
        decreases max_lane + 2 - l,
    {
        if is_free_above(nodes, h, l) {
            let d: usize = if l >= hl { l - hl } else { hl - l };
            let better = match best {
                None => true,
                Some(b) => {
                    let db: usize = if b >= hl { b - hl } else { hl - b };
                    d < db
                },
            };
            if better {
                best = Some(l);
            }
        }
        l += 1;
    }
    proof {
        let top = max_lane + 1;
        assert forall|r: int| 0 <= r < h implies !shows_lane(#[trigger] nodes@[r], top as int) by {
            assert(nodes@[r].lane <= max_lane);
        }
        assert(free_above(nodes@, h as int, top as int));
    }
    match best {
        Some(b) => b,
        None => 0,
    }
}

fn thread_row(cells: &Vec<CellType>, r: usize, h: usize, hl: usize, l: usize, color: usize, w: usize) -> (out: Vec<CellType>)
    requires
        hl < LANE_LIMIT,
        l < LANE_LIMIT,
    ensures
        out@ == threaded_cells(cells@, r as int, h as int, hl as int, l as int, color, w as nat),
{
    let mut out: Vec<CellType> = Vec::new();
    let mut j: usize = 0;
    while j < w
        invariant
            j <= w,
            hl < LANE_LIMIT,
            l < LANE_LIMIT,
            out@.len() == j,
            forall|k: int| 0 <= k < j ==> #[trigger] out@[k] == threaded_cells(cells@, r as int, h as int, hl as int, l as int, color, w as nat)[k],
        decreases w - j,
    {
        let c = if j < cells.len() { cells[j] } else { CellType::Empty };
        let between = if l > hl { 2 * hl < j && j < 2 * l } else { 2 * l < j && j < 2 * hl };
        let v = if r < h && j == 2 * l {
            CellType::Pipe(color)
        } else if r == h && l != hl && j == 2 * l {
            if l > hl { CellType::MergeLeft(color) } else { CellType::MergeRight(color) }
        } else if r == h && l != hl && between {
            crate::graph::crossed_cell(c, color, false)
        } else {
            c
        };
        out.push(v);
        j += 1;
    }
    assert(out@ =~= threaded_cells(cells@, r as int, h as int, hl as int, l as int, color, w as nat));
    out
}

/// `new_layout` is `old_layout` with the uncommitted-changes row for `count`
/// files on top, threaded to HEAD's commit `head_id` (which has a row).
pub open spec fn uncommitted_added(old_layout: GraphLayout, new_layout: GraphLayout, count: usize, head_id: CommitId) -> bool {
            let old_nodes = old_layout.nodes@;
            let new_nodes = new_layout.nodes@;
            let h = head_row(old_nodes, head_id)->Some_0;
            let hl = old_nodes[h].lane as int;
            let color = old_nodes[h].color_index;
            let l = new_nodes[0].lane as int;
            let w = row_width(new_layout.max_lane as int);
            &&& nearest_free_lane(old_nodes, h, hl, old_layout.max_lane as int, l)
            &&& new_layout.max_lane == if l > old_layout.max_lane { l } else { old_layout.max_lane as int }
            &&& new_nodes.len() == old_nodes.len() + 1
            &&& new_nodes[0].commit is None
            &&& new_nodes[0].is_uncommitted
            &&& new_nodes[0].uncommitted_count == count
            &&& new_nodes[0].color_index == color
            &&& new_nodes[0].branch_names@.len() == 0
            &&& !new_nodes[0].is_head
            &&& new_nodes[0].cells@ == uncommitted_row_cells(l, color, w)
            &&& forall|r: int| 0 <= r < old_nodes.len() ==> {
                &&& (#[trigger] new_nodes[r + 1]).commit == old_nodes[r].commit
                &&& new_nodes[r + 1].lane == old_nodes[r].lane
                &&& new_nodes[r + 1].color_index == old_nodes[r].color_index
                &&& new_nodes[r + 1].branch_names@ == old_nodes[r].branch_names@
                &&& new_nodes[r + 1].is_head == old_nodes[r].is_head
                &&& new_nodes[r + 1].is_uncommitted == old_nodes[r].is_uncommitted
                &&& new_nodes[r + 1].uncommitted_count == old_nodes[r].uncommitted_count
                &&& new_nodes[r + 1].cells@ == threaded_cells(old_nodes[r].cells@, r, h, hl, l, color, w)
            }
            &&& rows_fit(new_nodes, new_layout.max_lane as int)
}

/// Adds the uncommitted-changes row on top of `layout`: `count` changed files,
/// joined to HEAD's commit `head_id`. Returns false, leaving the layout
/// unchanged, when HEAD's commit has no row.
pub fn insert_uncommitted_node(layout: &mut GraphLayout, count: usize, head_id: CommitId) -> (inserted: bool)
    requires
        rows_fit(old(layout).nodes@, old(layout).max_lane as int),
        old(layout).max_lane + 1 < LANE_LIMIT,
    ensures
        inserted == (head_row(old(layout).nodes@, head_id) is Some),
        !inserted ==> *final(layout) == *old(layout),
        inserted ==> uncommitted_added(*old(layout), *final(layout), count, head_id),

{
    proof { lemma_head_row(layout.nodes@, head_id); }
    let h = match find_head_row(&layout.nodes, head_id) {
        Some(h) => h,
        None => return false,
    };
    let hl = layout.nodes[h].lane;
    let color = layout.nodes[h].color_index;
    let l = nearest_free(&layout.nodes, h, hl, layout.max_lane);
    let new_max = if l > layout.max_lane { l } else { layout.max_lane };
    let w = (new_max + 1) * 2;
    let ghost old_nodes = layout.nodes@;
    let n0 = layout.nodes.len();
    let mut rest: Vec<GraphNode> = Vec::new();
    std::mem::swap(&mut rest, &mut layout.nodes);
    let mut top_cells: Vec<CellType> = Vec::new();
    let mut j: usize = 0;
    while j < w
        invariant
            j <= w,
            l <= new_max,
            new_max < LANE_LIMIT,
            top_cells@.len() == j,
            forall|k: int| 0 <= k < j ==> #[trigger] top_cells@[k] == uncommitted_row_cells(l as int, color, w as nat)[k],
        decreases w - j,
    {
        top_cells.push(if j == 2 * l { CellType::Commit(color) } else { CellType::Empty });
        j += 1;
    }
    assert(top_cells@ =~= uncommitted_row_cells(l as int, color, w as nat));
    let mut out: Vec<GraphNode> = Vec::new();
    out.push(GraphNode {
        commit: None,
        lane: l,
        color_index: color,
        branch_names: Vec::new(),
        is_head: false,
        is_uncommitted: true,
        uncommitted_count: count,
        cells: top_cells,
    });
    let mut r: usize = 0;
    while rest.len() > 0
        invariant
            r + rest@.len() == old_nodes.len(),
            old_nodes.len() == n0,
            rest@ == old_nodes.subrange(r as int, old_nodes.len() as int),
            out@.len() == r + 1,
            hl < LANE_LIMIT,
            l < LANE_LIMIT,
            out@[0].lane == l,
            out@[0].commit is None,
            out@[0].is_uncommitted,
            out@[0].uncommitted_count == count,
            out@[0].color_index == color,
            out@[0].branch_names@.len() == 0,
            !out@[0].is_head,
            out@[0].cells@ == uncommitted_row_cells(l as int, color, w as nat),
            forall|q: int| 0 <= q < r ==> {
                &&& (#[trigger] out@[q + 1]).commit == old_nodes[q].commit
                &&& out@[q + 1].lane == old_nodes[q].lane
                &&& out@[q + 1].color_index == old_nodes[q].color_index
                &&& out@[q + 1].branch_names@ == old_nodes[q].branch_names@
                &&& out@[q + 1].is_head == old_nodes[q].is_head
                &&& out@[q + 1].is_uncommitted == old_nodes[q].is_uncommitted
                &&& out@[q + 1].uncommitted_count == old_nodes[q].uncommitted_count
                &&& out@[q + 1].cells@ == threaded_cells(old_nodes[q].cells@, q, h as int, hl as int, l as int, color, w as nat)
            },
        decreases rest@.len(),
    {
        let node = rest.remove(0);
        let cells = thread_row(&node.cells, r, h, hl, l, color, w);
        out.push(GraphNode { cells, ..node });
        r += 1;
        assert(rest@ =~= old_nodes.subrange(r as int, old_nodes.len() as int));
    }
    layout.nodes = out;
    layout.max_lane = new_max;
    proof {
        assert forall|q: int| 0 <= q < layout.nodes@.len() implies #[trigger] layout.nodes@[q].lane <= layout.max_lane
            && layout.nodes@[q].cells@.len() == row_width(layout.max_lane as int) by {
            if q > 0 {
                assert(layout.nodes@[(q - 1) + 1] == layout.nodes@[q]);
            }
        }
    }
    true
}

proof fn lemma_commit_rows_prepend(n: GraphNode, nodes: Seq<GraphNode>)
    requires
        n.commit is None,
    ensures
        commit_rows(seq![n] + nodes) == commit_rows(nodes),
    decreases nodes.len(),
{
    if nodes.len() > 0 {
        lemma_commit_rows_prepend(n, nodes.drop_last());
        assert((seq![n] + nodes).drop_last() =~= seq![n] + nodes.drop_last());
        assert((seq![n] + nodes).last() == nodes.last());
        assert(commit_rows(seq![n] + nodes) == match nodes.last().commit {
            Some(c) => commit_rows(seq![n] + nodes.drop_last()).push(c),
            None => commit_rows(seq![n] + nodes.drop_last()),
        });
    } else {
        assert((seq![n] + nodes).drop_last() =~= Seq::<GraphNode>::empty());
        assert(commit_rows(Seq::<GraphNode>::empty()) == Seq::<CommitInfo>::empty());
        assert(seq![n] + nodes =~= seq![n]);
        assert(commit_rows(seq![n]) == commit_rows(seq![n].drop_last()));
        assert(seq![n].drop_last() =~= Seq::<GraphNode>::empty());
    }
}

proof fn lemma_threaded_commit_cell(old_row: GraphNode, new_row: GraphNode, r: int, h: int, hl: int, l: int, color: usize, w: nat)
    requires
        commit_cell_ok(old_row),
        new_row.commit == old_row.commit,
        new_row.is_uncommitted == old_row.is_uncommitted,
        new_row.lane == old_row.lane,
        new_row.cells@ == threaded_cells(old_row.cells@, r, h, hl, l, color, w),
        r < h ==> !shows_lane(old_row, l),
        r == h ==> old_row.lane == hl && old_row.commit is Some,
        (old_row.commit is Some || old_row.is_uncommitted) ==> 2 * old_row.lane < old_row.cells@.len()
            && old_row.cells@[2 * old_row.lane] is Commit,
        0 <= l,
    ensures
        commit_cell_ok(new_row),
{
    let old_cells = old_row.cells@;
    let is_node_row = old_row.commit is Some || old_row.is_uncommitted;
    assert forall|j: int| 0 <= j < new_row.cells@.len() implies ((#[trigger] new_row.cells@[j] is Commit) <==> (is_node_row
        && j == 2 * new_row.lane)) by {
        let c = if j < old_cells.len() { old_cells[j] } else { CellType::Empty };
        if j < old_cells.len() {
            assert((old_cells[j] is Commit) <==> (is_node_row && j == 2 * old_row.lane));
        }
        if r < h && j == 2 * l {
            if is_node_row && j == 2 * old_row.lane {
                assert(shows_lane(old_row, l));
            }
        }
    }
}

/// Lays out `commits` as [`build_graph`] does; then, when both the number of
/// uncommitted files and HEAD's commit are given and that commit has a row,
/// adds the uncommitted-changes row on top (see [`insert_uncommitted_node`]).
pub fn build_graph_with_uncommitted(
    commits: &[CommitInfo],
    branches: &[BranchInfo],
    uncommitted_count: Option<usize>,
    head_id: Option<CommitId>,
) -> (layout: GraphLayout)
    requires
        link_total(commits@) < LANE_LIMIT,
    ensures
        rows_fit(layout.nodes@, layout.max_lane as int),
        forall|r: int| 0 <= r < layout.nodes@.len() ==> commit_cell_ok(#[trigger] layout.nodes@[r]),
        same_commits(commit_rows(layout.nodes@), commits@),
        (layout.nodes@.len() > 0 && layout.nodes@[0].is_uncommitted) <==> (uncommitted_count is Some
            && head_id is Some && exists|k: int| 0 <= k < commits@.len() && #[trigger] commits@[k].oid == head_id->Some_0),
        layout.nodes@.len() > 0 && layout.nodes@[0].is_uncommitted ==> layout.nodes@[0].uncommitted_count
            == uncommitted_count->Some_0,
        forall|r: int| 1 <= r < layout.nodes@.len() ==> !(#[trigger] layout.nodes@[r]).is_uncommitted,
        exists|plain: GraphLayout|
            {
                &&& layout_matches(plain, run(commits@, commits@.len() as int))
                &&& rows_fit(plain.nodes@, plain.max_lane as int)
                &&& same_commits(commit_rows(plain.nodes@), commits@)
                &&& forall|r: int| 0 <= r < plain.nodes@.len() ==> row_ok(#[trigger] plain.nodes@[r], branches@)
                &&& if uncommitted_count is Some && head_id is Some && head_row(plain.nodes@, head_id->Some_0) is Some {
                    uncommitted_added(plain, layout, uncommitted_count->Some_0, head_id->Some_0)
                } else {
                    layout == plain
                }
            },
{
    let mut layout = build_graph(commits, branches);
    let ghost plain = layout;
    let ghost base = layout.nodes@;
    proof {
        assert forall|r: int| 0 <= r < base.len() implies commit_cell_ok(#[trigger] base[r]) by {
            assert(row_ok(base[r], branches@));
        }
        lemma_commit_rows_head(base, commits@, head_id);
    }
    match (uncommitted_count, head_id) {
        (Some(count), Some(id)) => {
            let inserted = insert_uncommitted_node(&mut layout, count, id);
            proof {
                if inserted {
                    let nn = layout.nodes@;
                    let h = head_row(base, id)->Some_0;
                    let hl = base[h].lane as int;
                    let l = nn[0].lane as int;
                    lemma_head_row(base, id);
                    assert(row_ok(base[h], branches@));
                    assert forall|r: int| 0 <= r < nn.len() implies commit_cell_ok(#[trigger] nn[r]) by {
                        if r > 0 {
                            let q = r - 1;
                            assert(nn[q + 1] == nn[r]);
                            assert(row_ok(base[q], branches@));
                            if q < h {
                                assert(free_above(base, h, l));
                            }
                            lemma_threaded_commit_cell(base[q], nn[r], q, h, hl, l, base[h].color_index, row_width(layout.max_lane as int));
                        }
                    }
                    assert(nn =~= seq![nn[0]] + nn.subrange(1, nn.len() as int));
                    lemma_commit_rows_prepend(nn[0], nn.subrange(1, nn.len() as int));
                    lemma_commit_rows_eq(nn.subrange(1, nn.len() as int), base);
                    assert forall|r: int| 1 <= r < nn.len() implies !(#[trigger] nn[r]).is_uncommitted by {
                        assert(nn[(r - 1) + 1] == nn[r]);
                        assert(row_ok(base[r - 1], branches@));
                    }
                } else if base.len() > 0 {
                    assert(row_ok(base[0], branches@));
                }
            }
        },
        _ => {
            proof {
                if base.len() > 0 {
                    assert(row_ok(base[0], branches@));
                }
                assert forall|r: int| 1 <= r < base.len() implies !(#[trigger] base[r]).is_uncommitted by {
                    assert(row_ok(base[r], branches@));
                }
            }
        },
    }
    proof {
        if layout.nodes@ == base {
            assert forall|r: int| 1 <= r < base.len() implies !(#[trigger] base[r]).is_uncommitted by {
                assert(row_ok(base[r], branches@));
            }
        }
        lemma_head_row(base, if head_id is Some { head_id->Some_0 } else { commits@[0].oid });
    }
    layout
}

/// The layout is fixed by the commits: two layouts built from the same
/// commits have the same highest lane and, row by row, the same kind of row,
/// lane, color and cells, whatever the branches and their order.
pub proof fn lemma_layout_fixed_by_commits(a: GraphLayout, b: GraphLayout, commits: Seq<CommitInfo>)
    requires
        layout_matches(a, run(commits, commits.len() as int)),
        layout_matches(b, run(commits, commits.len() as int)),
    ensures
        a.max_lane == b.max_lane,
        a.nodes@.len() == b.nodes@.len(),
        forall|r: int|
            0 <= r < a.nodes@.len() ==> row_model(#[trigger] a.nodes@[r]) == row_model(b.nodes@[r]),
{
    assert forall|r: int| 0 <= r < a.nodes@.len() implies row_model(#[trigger] a.nodes@[r]) == row_model(b.nodes@[r]) by {
        assert(a.nodes@[r].cells@ == b.nodes@[r].cells@);
    }
}

/// A commit has a row exactly when it is among the commits laid out.
proof fn lemma_commit_rows_head(nodes: Seq<GraphNode>, commits: Seq<CommitInfo>, head_id: Option<CommitId>)
    requires
        same_commits(commit_rows(nodes), commits),
    ensures
        head_id matches Some(id) ==> ((head_row(nodes, id) is Some) <==> exists|k: int|
            0 <= k < commits.len() && #[trigger] commits[k].oid == id),
{
    if let Some(id) = head_id {
        lemma_head_row_rows(nodes, id);
        let rows = commit_rows(nodes);
        if head_row(nodes, id) is Some {
            let k = choose|k: int| 0 <= k < rows.len() && #[trigger] rows[k].oid == id;
            assert(same_commit(rows[k], commits[k]));
            assert(commits[k].oid == id);
        } else {
            assert forall|k: int| 0 <= k < commits.len() implies #[trigger] commits[k].oid != id by {
                assert(same_commit(rows[k], commits[k]));
            }
        }
    }
}

proof fn lemma_head_row_rows(nodes: Seq<GraphNode>, id: CommitId)
    ensures
        (head_row(nodes, id) is Some) <==> exists|k: int| 0 <= k < commit_rows(nodes).len() && #[trigger] commit_rows(nodes)[k].oid == id,
    decreases nodes.len(),
{
    if nodes.len() > 0 {
        let init = nodes.drop_last();
        lemma_head_row_rows(init, id);
        let rows = commit_rows(nodes);
        let prev = commit_rows(init);
        if head_row(init, id) is Some {
            let k = choose|k: int| 0 <= k < prev.len() && #[trigger] prev[k].oid == id;
            assert(rows[k] == prev[k]);
        } else if row_has_commit(nodes.last(), id) {
            assert(rows[prev.len() as int].oid == id);
        } else {
            assert forall|k: int| 0 <= k < rows.len() implies #[trigger] rows[k].oid != id by {
                if k < prev.len() {
                    assert(rows[k] == prev[k]);
                }
            }
        }
    }
}

/// `max_lane` is the highest lane in which the layout draws anything: no row
/// draws right of it, and some row draws in it.
pub proof fn lemma_max_lane_is_highest(nodes: Seq<GraphNode>, max_lane: int)
    requires
        rows_fit(nodes, max_lane),
        max_lane_shown(nodes, max_lane),
        nodes.len() > 0,
    ensures
        exists|r: int| 0 <= r < nodes.len() && #[trigger] shows_lane(nodes[r], max_lane),
        forall|r: int, l: int| 0 <= r < nodes.len() && #[trigger] shows_lane(nodes[r], l) ==> l <= max_lane,
{
    assert forall|r: int, l: int| 0 <= r < nodes.len() && #[trigger] shows_lane(nodes[r], l) implies l <= max_lane by {
        assert(nodes[r].lane <= max_lane);
    }
}

/// `a` and `b` describe the same graph: the same commit ids in the same
/// order, and for each commit the same parents among the commits.
pub open spec fn same_graph(a: Seq<CommitInfo>, b: Seq<CommitInfo>) -> bool {
    &&& a.len() == b.len()
    &&& forall|i: int| 0 <= i < a.len() ==> (#[trigger] a[i]).oid == b[i].oid
    &&& forall|i: int|
        0 <= i < a.len() ==> valid_parents(a, (#[trigger] a[i]).parent_oids@) == valid_parents(b, b[i].parent_oids@)
}

proof fn lemma_row_index_same(a: Seq<CommitInfo>, b: Seq<CommitInfo>, x: CommitId)
    requires
        a.len() == b.len(),
        forall|i: int| 0 <= i < a.len() ==> (#[trigger] a[i]).oid == b[i].oid,
    ensures
        row_index(a, x) == row_index(b, x),
    decreases a.len(),
{
    if a.len() > 0 {
        assert forall|i: int| 0 <= i < a.len() - 1 implies (#[trigger] a.drop_last()[i]).oid == b.drop_last()[i].oid by {
            assert(a.drop_last()[i] == a[i]);
            assert(b.drop_last()[i] == b[i]);
        }
        lemma_row_index_same(a.drop_last(), b.drop_last(), x);
    }
}

proof fn lemma_occurrences_valid(cs: Seq<CommitInfo>, ps: Seq<CommitId>, p: CommitId)
    requires
        row_index(cs, p) is Some,
    ensures
        occurrences(ps, p) == occurrences(valid_parents(cs, ps), p),
    decreases ps.len(),
{
    if ps.len() > 0 {
        lemma_occurrences_valid(cs, ps.drop_last(), p);
        let v = valid_parents(cs, ps.drop_last());
        if row_index(cs, ps.last()) is Some {
            assert(v.push(ps.last()).drop_last() =~= v);
        }
    }
}

/// Parent links to `p` among the first `k` commits, counting only parents
/// that are among the commits.
pub open spec fn valid_child_links(cs: Seq<CommitInfo>, k: int, p: CommitId) -> nat
    decreases k,
{
    if k <= 0 { 0 } else { valid_child_links(cs, k - 1, p) + occurrences(valid_parents(cs, cs[k - 1].parent_oids@), p) }
}

proof fn lemma_child_links_valid(cs: Seq<CommitInfo>, k: int, p: CommitId)
    requires
        0 <= k <= cs.len(),
        row_index(cs, p) is Some,
    ensures
        child_links(cs.subrange(0, k), p) == valid_child_links(cs, k, p),
    decreases k,
{
    if k > 0 {
        lemma_child_links_valid(cs, k - 1, p);
        assert(cs.subrange(0, k).drop_last() =~= cs.subrange(0, k - 1));
        lemma_occurrences_valid(cs, cs[k - 1].parent_oids@, p);
    }
}

proof fn lemma_valid_child_links_same(a: Seq<CommitInfo>, b: Seq<CommitInfo>, k: int, p: CommitId)
    requires
        same_graph(a, b),
        0 <= k <= a.len(),
    ensures
        valid_child_links(a, k, p) == valid_child_links(b, k, p),
    decreases k,
{
    if k > 0 {
        lemma_valid_child_links_same(a, b, k - 1, p);
        assert(valid_parents(a, a[k - 1].parent_oids@) == valid_parents(b, b[k - 1].parent_oids@));
    }
}

proof fn lemma_fork_point_same(a: Seq<CommitInfo>, b: Seq<CommitInfo>, p: CommitId)
    requires
        same_graph(a, b),
        row_index(a, p) is Some,
    ensures
        is_fork_point(a, p) == is_fork_point(b, p),
{
    lemma_row_index_same(a, b, p);
    lemma_child_links_valid(a, a.len() as int, p);
    lemma_child_links_valid(b, b.len() as int, p);
    assert(a.subrange(0, a.len() as int) =~= a);
    assert(b.subrange(0, b.len() as int) =~= b);
    lemma_valid_child_links_same(a, b, a.len() as int, p);
}

proof fn lemma_row_index_all(a: Seq<CommitInfo>, b: Seq<CommitInfo>)
    requires
        same_graph(a, b),
    ensures
        forall|x: CommitId| #[trigger] row_index(a, x) == row_index(b, x),
{
    assert forall|x: CommitId| #[trigger] row_index(a, x) == row_index(b, x) by {
        lemma_row_index_same(a, b, x);
    }
}

proof fn lemma_pipes_same(
    lanes: Seq<Option<CommitId>>,
    lane_color: Seq<Option<usize>>,
    oid_color: Seq<Option<usize>>,
    a: Seq<CommitInfo>,
    b: Seq<CommitInfo>,
)
    requires
        same_graph(a, b),
    ensures
        pipes_of(lanes, lane_color, oid_color, a) == pipes_of(lanes, lane_color, oid_color, b),
{
    lemma_row_index_all(a, b);
    assert(pipes_of(lanes, lane_color, oid_color, a) =~= pipes_of(lanes, lane_color, oid_color, b));
}

proof fn lemma_valid_in(cs: Seq<CommitInfo>, ps: Seq<CommitId>)
    ensures
        forall|j: int| 0 <= j < valid_parents(cs, ps).len() ==> row_index(cs, #[trigger] valid_parents(cs, ps)[j]) is Some,
    decreases ps.len(),
{
    if ps.len() > 0 {
        lemma_valid_in(cs, ps.drop_last());
        let v = valid_parents(cs, ps.drop_last());
        if row_index(cs, ps.last()) is Some {
            assert forall|j: int| 0 <= j < v.push(ps.last()).len() implies row_index(cs, #[trigger] v.push(ps.last())[j]) is Some by {
                if j < v.len() {
                    assert(v.push(ps.last())[j] == v[j]);
                }
            }
        }
    }
}

proof fn lemma_resolve_same(
    s0: ResolveState,
    a: Seq<CommitInfo>,
    b: Seq<CommitInfo>,
    i: int,
    lane: int,
    color: usize,
    valid: Seq<CommitId>,
    k: int,
)
    requires
        same_graph(a, b),
        forall|j: int| 0 <= j < valid.len() ==> row_index(a, #[trigger] valid[j]) is Some,
        k <= valid.len(),
    ensures
        resolve_upto(s0, a, i, lane, color, valid, k) == resolve_upto(s0, b, i, lane, color, valid, k),
    decreases k,
{
    if k > 0 {
        lemma_resolve_same(s0, a, b, i, lane, color, valid, k - 1);
        lemma_row_index_all(a, b);
        lemma_fork_point_same(a, b, valid[k - 1]);
    }
}

proof fn lemma_process_same(st: LaneModel, a: Seq<CommitInfo>, b: Seq<CommitInfo>, i: int)
    requires
        same_graph(a, b),
        0 <= i < a.len(),
    ensures
        process_spec(st, a, i) == process_spec(st, b, i),
{
    lemma_row_index_all(a, b);
    assert(a[i].oid == b[i].oid);
    let st1 = LaneModel { colors: advanced(st.colors), ..st };
    lemma_pipes_same(st1.lanes, st1.lane_color, st1.oid_color, a, b);
    assert(fan_in_merging(st1, a, a[i].oid) =~= fan_in_merging(st1, b, b[i].oid));
    let s1 = fan_in_spec(st1, a, i);
    assert(s1 == fan_in_spec(st1, b, i));
    let id = a[i].oid;
    let found = first_index(s1.lanes, Some(id));
    let al = match found {
        Some(l) => (s1.lanes, s1.lane_color, l),
        None => alloc_spec(s1.lanes, s1.lane_color),
    };
    let lane = al.2;
    let cc = if found is Some {
        continued(s1.colors, lane)
    } else if i == 0 {
        (MAIN_BRANCH_COLOR, main_assigned(s1.colors, lane))
    } else {
        assigned(s1.colors, lane, false)
    };
    let color = cc.0;
    let valid = valid_parents(a, a[i].parent_oids@);
    assert(valid == valid_parents(b, b[i].parent_oids@));
    lemma_valid_in(a, a[i].parent_oids@);
    let s0 = ResolveState {
        lanes: al.0.update(lane, None),
        lane_color: al.1.update(lane, Some(color)),
        oid_color: set_id(s1.oid_color, a, id, color),
        colors: if valid.len() >= 2 { ColorModel { fork_colors: Seq::empty(), ..cc.1 } } else { cc.1 },
        links: Seq::empty(),
    };
    assert(s0.oid_color == set_id(s1.oid_color, b, id, color));
    lemma_resolve_same(s0, a, b, i, lane, color, valid, valid.len() as int);
    let r = resolve_upto(s0, a, i, lane, color, valid, valid.len() as int);
    lemma_pipes_same(r.lanes, r.lane_color, r.oid_color, a, b);
    let mx = max_links(raised(s1.max_lane, lane as usize), r.links);
    let pipes = pipes_of(r.lanes, r.lane_color, r.oid_color, a);
    let row = RowModel {
        is_commit: true,
        lane: lane as usize,
        color,
        cells: commit_row_cells(row_width(mx as int), lane, color, r.links, pipes),
    };
    let s4 = LaneModel {
        lanes: r.lanes,
        lane_color: r.lane_color,
        oid_color: r.oid_color,
        rows: s1.rows.push(row),
        max_lane: mx,
        colors: r.colors,
    };
    lemma_pipes_same(s4.lanes, s4.lane_color, s4.oid_color, a, b);
}

proof fn lemma_run_same(a: Seq<CommitInfo>, b: Seq<CommitInfo>, k: int)
    requires
        same_graph(a, b),
        k <= a.len(),
    ensures
        run(a, k) == run(b, k),
    decreases k,
{
    if k > 0 {
        lemma_run_same(a, b, k - 1);
        lemma_process_same(run(a, k - 1), a, b, k - 1);
    } else {
        assert(run(a, k).oid_color =~= run(b, k).oid_color);
    }
}

/// Parents that are not among the commits make no difference: two commit
/// lists with the same ids in the same order, and the same parents among the
/// commits, are laid out alike (same highest lane and, row by row, the same
/// kind of row, lane, color and cells).
pub proof fn lemma_dangling_parents_ignored(a: Seq<CommitInfo>, b: Seq<CommitInfo>, la: GraphLayout, lb: GraphLayout)
    requires
        same_graph(a, b),
        layout_matches(la, run(a, a.len() as int)),
        layout_matches(lb, run(b, b.len() as int)),
    ensures
        la.max_lane == lb.max_lane,
        la.nodes@.len() == lb.nodes@.len(),
        forall|r: int| 0 <= r < la.nodes@.len() ==> row_model(#[trigger] la.nodes@[r]) == row_model(lb.nodes@[r]),
{
    lemma_run_same(a, b, a.len() as int);
    lemma_layout_fixed_by_commits(la, lb, a);
}

} // verus!
