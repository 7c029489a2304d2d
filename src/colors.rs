//! Color assignment for graph lanes.
//!
//! Colors are indices into an eleven-entry palette. A penalty model picks, for
//! a lane that needs a new color, the palette entry least likely to be confused
//! with its surroundings. Penalties are computed exactly in integer fixed
//! point: one unit of penalty is `PENALTY_SCALE` ticks.

use vstd::prelude::*;

verus! {

/// Number of entries in the lane palette.
pub const LANE_COLOR_COUNT: usize = 11;

/// Palette index reserved for the main branch (light blue).
pub const MAIN_BRANCH_COLOR: usize = 9;

/// Number of recent assignments remembered for the vertical-repeat penalty.
pub const HISTORY_WINDOW: usize = 6;

/// Ticks per penalty unit: the least common multiple of 1..=30, so that the
/// lane-distance term is exact for distances below 30. The other divisions
/// round down where they do not divide evenly.
pub const PENALTY_SCALE: u128 = 2329089562800;

/// Palette slot used for a color index: color indices wrap around the palette.
pub fn palette_slot(color_index: usize) -> (r: usize)
    ensures
        r == color_index % LANE_COLOR_COUNT,
        r < LANE_COLOR_COUNT,
{
    color_index % LANE_COLOR_COUNT
}

/// Abstract state of a [`ColorAssigner`].
pub struct ColorModel {
    /// Current color of each lane, `None` when the lane is free.
    pub lane_colors: Seq<Option<usize>>,
    /// Last color shown on each lane.
    pub lane_last_color: Seq<usize>,
    /// Where the tie-breaking scan over the palette starts.
    pub next_color: usize,
    /// Colors that ordinary assignments never pick.
    pub reserved: Seq<usize>,
    /// Recent assignments as (row, lane, color), oldest first.
    pub history: Seq<(usize, usize, usize)>,
    /// Number of the row being processed.
    pub current_row: usize,
    /// Colors already given to siblings of the current fork.
    pub fork_colors: Seq<usize>,
    /// How often each palette color has been assigned.
    pub usage: Seq<usize>,
    /// Lane of the main branch, once assigned.
    pub main_lane: Option<usize>,
}

pub open spec fn dist(a: int, b: int) -> int {
    if a >= b { a - b } else { b - a }
}

/// Penalty from the other lanes that currently hold color `c`, weighted by
/// distance.
pub open spec fn lanes_term(colors: Seq<Option<usize>>, lane: int, c: int) -> int
    decreases colors.len(),
{
    if colors.len() == 0 {
        0
    } else {
        let i = colors.len() - 1;
        lanes_term(colors.drop_last(), lane, c) + if colors[i] == Some(c as usize) && i != lane {
            (8 * PENALTY_SCALE) as int / (dist(lane, i) + 1)
        } else {
            0
        }
    }
}

/// Weight of one remembered assignment, as seen from `row` and `lane`.
pub open spec fn history_weight(entry: (usize, usize, usize), row: int, lane: int) -> int {
    let row_distance = if row >= entry.0 { row - entry.0 } else { 0 };
    ((8 * PENALTY_SCALE) as int / (row_distance + 1)) / (dist(lane, entry.1 as int) + 1)
}

/// Penalty from recent assignments of color `c`.
pub open spec fn history_term(h: Seq<(usize, usize, usize)>, row: int, lane: int, c: int) -> int
    decreases h.len(),
{
    if h.len() == 0 {
        0
    } else {
        let e = h.last();
        history_term(h.drop_last(), row, lane, c) + if e.2 == c {
            history_weight(e, row, lane)
        } else {
            0
        }
    }
}

pub open spec fn seq_max(s: Seq<usize>) -> int
    decreases s.len(),
{
    if s.len() == 0 {
        0
    } else {
        let m = seq_max(s.drop_last());
        if s.last() as int > m {
            s.last() as int
        } else {
            m
        }
    }
}

/// Balancing penalty: twice the usage of `c` relative to the most used color.
pub open spec fn usage_term(usage: Seq<usize>, c: int) -> int {
    let mx = seq_max(usage);
    if mx > 0 {
        (2 * PENALTY_SCALE) as int * usage[c] / mx
    } else {
        0
    }
}

/// `s` extended with `fill` up to length `n`.
pub open spec fn grown<A>(s: Seq<A>, n: int, fill: A) -> Seq<A> {
    if s.len() >= n {
        s
    } else {
        Seq::new(n as nat, |i: int| if i < s.len() { s[i] } else { fill })
    }
}

pub open spec fn rotated(start: int, k: int) -> int {
    (start + k) % (LANE_COLOR_COUNT as int)
}

/// The recent-assignment list after recording `e`: the newest entries, at most
/// `HISTORY_WINDOW` of them.
pub open spec fn remembered(h: Seq<(usize, usize, usize)>, e: (usize, usize, usize)) -> Seq<
    (usize, usize, usize),
> {
    let p = h.push(e);
    if p.len() > HISTORY_WINDOW {
        p.subrange(p.len() - HISTORY_WINDOW, p.len() as int)
    } else {
        p
    }
}

pub open spec fn bumped(usage: Seq<usize>, c: int) -> Seq<usize> {
    usage.update(c, if usage[c] < usize::MAX { (usage[c] + 1) as usize } else { usize::MAX })
}

impl ColorModel {
    pub open spec fn wf(self) -> bool {
        &&& self.lane_colors.len() == self.lane_last_color.len()
        &&& forall|i: int|
            0 <= i < self.lane_colors.len() ==> (#[trigger] self.lane_colors[i] matches Some(c)
                ==> c < LANE_COLOR_COUNT)
        &&& forall|i: int|
            0 <= i < self.lane_last_color.len() ==> #[trigger] self.lane_last_color[i]
                < LANE_COLOR_COUNT
        &&& self.next_color < LANE_COLOR_COUNT
        &&& self.history.len() <= HISTORY_WINDOW
        &&& forall|i: int| 0 <= i < self.history.len() ==> #[trigger] self.history[i].2 < LANE_COLOR_COUNT
        &&& self.usage.len() == LANE_COLOR_COUNT
    }

    /// The state with room for lane `lane`: free lanes are appended as needed.
    pub open spec fn with_lane(self, lane: int) -> ColorModel {
        ColorModel {
            lane_colors: grown(self.lane_colors, lane + 1, None),
            lane_last_color: grown(self.lane_last_color, lane + 1, 0),
            ..self
        }
    }

    /// Whether color `c` may be picked by an assignment.
    pub open spec fn allowed(self, c: int, use_reserved: bool) -> bool {
        use_reserved || !self.reserved.contains(c as usize)
    }

    /// Penalty of color `c` for lane `lane` (lower is better), in ticks.
    pub open spec fn penalty(self, lane: int, c: int, sibling: bool) -> int {
        (if self.lane_last_color[lane] == c { (10 * PENALTY_SCALE) as int } else { 0 })
            + lanes_term(self.lane_colors, lane, c) + history_term(
            self.history,
            self.current_row as int,
            lane,
            c,
        ) + (if sibling && self.fork_colors.contains(c as usize) {
            (100 * PENALTY_SCALE) as int
        } else {
            0
        }) + usage_term(self.usage, c)
    }

    /// `r` is the color that the penalty model picks: among the allowed colors,
    /// scanned from `next_color` around the palette, the first one of least
    /// penalty; `next_color` itself when no color is allowed.
    pub open spec fn is_best_color(self, lane: int, sibling: bool, use_reserved: bool, r: int) -> bool {
        ||| exists|k: int|
            {
                &&& 0 <= k < LANE_COLOR_COUNT
                &&& r == rotated(self.next_color as int, k)
                &&& self.allowed(r, use_reserved)
                &&& forall|j: int|
                    0 <= j < k && self.allowed(rotated(self.next_color as int, j), use_reserved)
                        ==> self.penalty(lane, r, sibling) < #[trigger] self.penalty(
                        lane,
                        rotated(self.next_color as int, j),
                        sibling,
                    )
                &&& forall|j: int|
                    k < j < LANE_COLOR_COUNT && self.allowed(
                        rotated(self.next_color as int, j),
                        use_reserved,
                    ) ==> self.penalty(lane, r, sibling) <= #[trigger] self.penalty(
                        lane,
                        rotated(self.next_color as int, j),
                        sibling,
                    )
            }
        ||| {
            &&& forall|c: int| 0 <= c < LANE_COLOR_COUNT ==> !#[trigger] self.allowed(c, use_reserved)
            &&& r == self.next_color
        }
    }

    /// State after lane `lane` has been given color `r` by the penalty model.
    pub open spec fn after_pick(self, lane: int, sibling: bool, r: usize) -> ColorModel {
        ColorModel {
            lane_colors: self.lane_colors.update(lane, Some(r)),
            lane_last_color: self.lane_last_color.update(lane, r),
            next_color: ((r + 1) % (LANE_COLOR_COUNT as int)) as usize,
            history: remembered(self.history, (self.current_row, lane as usize, r)),
            usage: bumped(self.usage, r as int),
            fork_colors: if sibling && !self.fork_colors.contains(r) {
                self.fork_colors.push(r)
            } else {
                self.fork_colors
            },
            ..self
        }
    }
}


/// Per-lane color bookkeeping for one layout computation.
pub struct ColorAssigner {
    lane_colors: Vec<Option<usize>>,
    lane_last_color: Vec<usize>,
    next_color_index: usize,
    reserved_colors: Vec<usize>,
    recent_assignments: Vec<(usize, usize, usize)>,
    current_row: usize,
    current_fork_colors: Vec<usize>,
    color_usage_count: Vec<usize>,
    main_lane: Option<usize>,
}

impl View for ColorAssigner {
    type V = ColorModel;

    closed spec fn view(&self) -> ColorModel {
        ColorModel {
            lane_colors: self.lane_colors@,
            lane_last_color: self.lane_last_color@,
            next_color: self.next_color_index,
            reserved: self.reserved_colors@,
            history: self.recent_assignments@,
            current_row: self.current_row,
            fork_colors: self.current_fork_colors@,
            usage: self.color_usage_count@,
            main_lane: self.main_lane,
        }
    }
}

proof fn lemma_lanes_term_bound(colors: Seq<Option<usize>>, lane: int, c: int)
    ensures
        0 <= lanes_term(colors, lane, c) <= colors.len() * (8 * PENALTY_SCALE),
    decreases colors.len(),
{
    if colors.len() > 0 {
        let i = colors.len() - 1;
        lemma_lanes_term_bound(colors.drop_last(), lane, c);
        let d = dist(lane, i) + 1;
        assert((8 * PENALTY_SCALE) as int / d <= (8 * PENALTY_SCALE) as int) by (nonlinear_arith)
            requires d >= 1;
        assert((colors.len() - 1) * (8 * PENALTY_SCALE) + (8 * PENALTY_SCALE) == colors.len() * (8
            * PENALTY_SCALE)) by (nonlinear_arith);
    }
}

proof fn lemma_history_weight_bound(e: (usize, usize, usize), row: int, lane: int)
    ensures
        0 <= history_weight(e, row, lane) <= 8 * PENALTY_SCALE,
{
    let row_distance = if row >= e.0 { row - e.0 } else { 0 };
    let a = (8 * PENALTY_SCALE) as int;
    let d1 = row_distance + 1;
    let d2 = dist(lane, e.1 as int) + 1;
    assert(0 <= a / d1 <= a) by (nonlinear_arith)
        requires a >= 0, d1 >= 1;
    assert(0 <= (a / d1) / d2 <= a / d1) by (nonlinear_arith)
        requires a / d1 >= 0, d2 >= 1;
}

proof fn lemma_history_term_bound(h: Seq<(usize, usize, usize)>, row: int, lane: int, c: int)
    ensures
        0 <= history_term(h, row, lane, c) <= h.len() * (8 * PENALTY_SCALE),
    decreases h.len(),
{
    if h.len() > 0 {
        lemma_history_term_bound(h.drop_last(), row, lane, c);
        lemma_history_weight_bound(h.last(), row, lane);
        assert((h.len() - 1) * (8 * PENALTY_SCALE) + (8 * PENALTY_SCALE) == h.len() * (8
            * PENALTY_SCALE)) by (nonlinear_arith);
    }
}

proof fn lemma_seq_max(s: Seq<usize>)
    ensures
        0 <= seq_max(s) <= usize::MAX,
        forall|i: int| 0 <= i < s.len() ==> s[i] <= seq_max(s),
    decreases s.len(),
{
    if s.len() > 0 {
        lemma_seq_max(s.drop_last());
        assert forall|i: int| 0 <= i < s.len() implies s[i] <= seq_max(s) by {
            if i < s.len() - 1 {
                assert(s[i] == s.drop_last()[i]);
            }
        }
    }
}

proof fn lemma_usage_term_bound(usage: Seq<usize>, c: int)
    requires
        0 <= c < usage.len(),
    ensures
        0 <= usage_term(usage, c) <= 2 * PENALTY_SCALE,
{
    lemma_seq_max(usage);
    let mx = seq_max(usage);
    if mx > 0 {
        let a = (2 * PENALTY_SCALE) as int;
        let u = usage[c] as int;
        assert(0 <= a * u / mx <= a) by (nonlinear_arith)
            requires a >= 0, 0 <= u <= mx, mx > 0;
    }
}

impl ColorAssigner {
    pub open spec fn wf(&self) -> bool {
        self@.wf()
    }

    pub fn new() -> (r: Self)
        ensures
            r.wf(),
            r@.lane_colors.len() == 0,
            r@.lane_last_color.len() == 0,
            r@.next_color == 0,
            r@.reserved.len() == 0,
            r@.history.len() == 0,
            r@.current_row == 0,
            r@.fork_colors.len() == 0,
            r@.usage == Seq::new(LANE_COLOR_COUNT as nat, |i: int| 0usize),
            r@.main_lane.is_none(),
            r@ == initial_colors(),
    {
        let r = ColorAssigner {
            lane_colors: Vec::new(),
            lane_last_color: Vec::new(),
            next_color_index: 0,
            reserved_colors: Vec::new(),
            recent_assignments: Vec::new(),
            current_row: 0,
            current_fork_colors: Vec::new(),
            color_usage_count: vec![0usize; LANE_COLOR_COUNT],
            main_lane: None,
        };
        assert(r@.usage =~= Seq::new(LANE_COLOR_COUNT as nat, |i: int| 0usize));
        assert(r@.lane_colors =~= Seq::<Option<usize>>::empty());
        assert(r@.lane_last_color =~= Seq::<usize>::empty());
        assert(r@.reserved =~= Seq::<usize>::empty());
        assert(r@.history =~= Seq::<(usize, usize, usize)>::empty());
        assert(r@.fork_colors =~= Seq::<usize>::empty());
        r
    }

    /// Whether `lane` is the main branch's lane.
    pub fn is_main_lane(&self, lane: usize) -> (r: bool)
        ensures
            r == (self@.main_lane == Some(lane)),
    {
        self.main_lane == Some(lane)
    }

    /// The color reserved for the main branch.
    pub fn get_main_color(&self) -> (r: usize)
        ensures
            r == MAIN_BRANCH_COLOR,
    {
        MAIN_BRANCH_COLOR
    }

    /// Keeps `color_index` away from ordinary assignments.
    pub fn reserve_color(&mut self, color_index: usize)
        requires
            old(self).wf(),
        ensures
            final(self).wf(),
            final(self)@.reserved.contains(color_index),
            forall|c: usize| #[trigger] final(self)@.reserved.contains(c) <==> (old(self)@.reserved.contains(c) || c == color_index),
            final(self)@.reserved == if old(self)@.reserved.contains(color_index) {
                old(self)@.reserved
            } else {
                old(self)@.reserved.push(color_index)
            },
            final(self)@ == (ColorModel { reserved: final(self)@.reserved, ..old(self)@ }),
    {
        let ghost before = self@.reserved;
        if !vec_contains(&self.reserved_colors, color_index) {
            self.reserved_colors.push(color_index);
            proof { lemma_push_contains(before, color_index); }
        }
    }

    fn ensure_capacity(&mut self, lane: usize)
        requires
            old(self).wf(),
        ensures
            final(self).wf(),
            final(self)@ == old(self)@.with_lane(lane as int),
    {
        let ghost m = self@;
        while self.lane_colors.len() <= lane
            invariant
                self.wf(),
                self@.lane_colors.len() <= lane + 1 || self@.lane_colors.len() == m.lane_colors.len(),
                self@.lane_colors.len() >= m.lane_colors.len(),
                self@.lane_colors =~= grown(m.lane_colors, self@.lane_colors.len() as int, None),
                self@.lane_last_color =~= grown(m.lane_last_color, self@.lane_colors.len() as int, 0),
                self@ == (ColorModel { lane_colors: self@.lane_colors, lane_last_color: self@.lane_last_color, ..m }),
            decreases lane + 1 - self.lane_colors.len(),
        {
            self.lane_colors.push(None);
            self.lane_last_color.push(0);
        }
        assert(self@.lane_colors =~= grown(m.lane_colors, lane + 1, None));
        assert(self@.lane_last_color =~= grown(m.lane_last_color, lane + 1, 0));
    }

    /// The current color of `lane`, if the lane holds one.
    pub fn get_lane_color_index(&self, lane: usize) -> (r: Option<usize>)
        ensures
            r == (if lane < self@.lane_colors.len() { self@.lane_colors[lane as int] } else { None }),
    {
        if lane < self.lane_colors.len() {
            self.lane_colors[lane]
        } else {
            None
        }
    }

    /// Moves to the next row: the fork sibling colors are forgotten.
    pub fn advance_row(&mut self)
        requires
            old(self).wf(),
        ensures
            final(self).wf(),
            final(self)@ == (ColorModel {
                current_row: if old(self)@.current_row < usize::MAX { (old(self)@.current_row + 1) as usize } else { usize::MAX },
                fork_colors: Seq::empty(),
                ..old(self)@
            }),
    {
        self.current_row = self.current_row.saturating_add(1);
        self.current_fork_colors.clear();
        assert(self@.fork_colors =~= Seq::empty());
    }

    /// Starts a fork: the fork sibling colors are forgotten.
    pub fn begin_fork(&mut self)
        requires
            old(self).wf(),
        ensures
            final(self).wf(),
            final(self)@ == (ColorModel { fork_colors: Seq::empty(), ..old(self)@ }),
    {
        self.current_fork_colors.clear();
        assert(self@.fork_colors =~= Seq::empty());
    }
}

impl ColorAssigner {
    /// Penalty of color `c` for lane `lane`, in ticks.
    fn penalty_of(&self, lane: usize, c: usize, sibling: bool) -> (p: u128)
        requires
            self.wf(),
            lane < self@.lane_colors.len(),
            c < LANE_COLOR_COUNT,
        ensures
            p == self@.penalty(lane as int, c as int, sibling),
    {
        let ghost m = self@;
        let scale8: u128 = 8 * PENALTY_SCALE;
        // lanes currently holding `c`
        let mut lanes: u128 = 0;
        let mut i: usize = 0;
        while i < self.lane_colors.len()
            invariant
                m == self@,
                self.wf(),
                scale8 == 8 * PENALTY_SCALE,
                i <= m.lane_colors.len(),
                lanes == lanes_term(m.lane_colors.subrange(0, i as int), lane as int, c as int),
            decreases m.lane_colors.len() - i,
        {
            let ghost pre = m.lane_colors.subrange(0, i as int);
            assert(m.lane_colors.subrange(0, i + 1).drop_last() =~= pre);
            proof {
                lemma_lanes_term_bound(pre, lane as int, c as int);
                assert(i * (8 * PENALTY_SCALE) <= usize::MAX * (8 * PENALTY_SCALE)) by (nonlinear_arith)
                    requires i <= usize::MAX;
            }
            let ghost nxt = m.lane_colors.subrange(0, i + 1);
            assert(nxt[i as int] == m.lane_colors[i as int]);
            assert(nxt.drop_last() =~= pre);
            assert(lanes_term(nxt, lane as int, c as int) == lanes_term(pre, lane as int, c as int) + if m.lane_colors[i as int] == Some(c) && i != lane {
                (8 * PENALTY_SCALE) as int / (dist(lane as int, i as int) + 1)
            } else {
                0
            });
            assert(usize::MAX * (8 * PENALTY_SCALE) + 8 * PENALTY_SCALE <= u128::MAX);
            if i != lane && self.lane_colors[i] == Some(c) {
                let d: usize = if lane >= i { lane - i } else { i - lane };
                let w = scale8 / (d as u128 + 1);
                assert(w <= scale8) by (nonlinear_arith)
                    requires w as int == scale8 as int / (d as int + 1), d >= 0, scale8 >= 0;
                assert(dist(lane as int, i as int) == d);
                lanes = lanes + w;
            }
            i += 1;
        }
        assert(m.lane_colors.subrange(0, m.lane_colors.len() as int) =~= m.lane_colors);
        // recent assignments of `c`
        let mut recent: u128 = 0;
        let mut h: usize = 0;
        while h < self.recent_assignments.len()
            invariant
                m == self@,
                self.wf(),
                scale8 == 8 * PENALTY_SCALE,
                h <= m.history.len(),
                recent == history_term(m.history.subrange(0, h as int), m.current_row as int, lane as int, c as int),
            decreases m.history.len() - h,
        {
            let ghost pre = m.history.subrange(0, h as int);
            assert(m.history.subrange(0, h + 1).drop_last() =~= pre);
            proof {
                lemma_history_term_bound(pre, m.current_row as int, lane as int, c as int);
                lemma_history_weight_bound(m.history[h as int], m.current_row as int, lane as int);
            }
            let ghost nxt = m.history.subrange(0, h + 1);
            assert(nxt.last() == m.history[h as int]);
            assert(nxt.drop_last() =~= pre);
            assert(history_term(nxt, m.current_row as int, lane as int, c as int) == history_term(pre, m.current_row as int, lane as int, c as int) + if m.history[h as int].2 == c {
                history_weight(m.history[h as int], m.current_row as int, lane as int)
            } else {
                0
            });
            assert(6 * (8 * PENALTY_SCALE) <= u128::MAX);
            assert(h * (8 * PENALTY_SCALE) <= 5 * (8 * PENALTY_SCALE)) by (nonlinear_arith)
                requires h <= 5;
            let (row, hist_lane, color) = self.recent_assignments[h];
            if color == c {
                let row_distance = self.current_row.saturating_sub(row);
                let d: usize = if lane >= hist_lane { lane - hist_lane } else { hist_lane - lane };
                assert(dist(lane as int, hist_lane as int) == d);
                recent = recent + (scale8 / (row_distance as u128 + 1)) / (d as u128 + 1);
            }
            h += 1;
        }
        assert(m.history.subrange(0, m.history.len() as int) =~= m.history);
        // balancing term
        let mut max_usage: usize = 0;
        let mut u: usize = 0;
        while u < LANE_COLOR_COUNT
            invariant
                m == self@,
                self.wf(),
                u <= LANE_COLOR_COUNT,
                max_usage == seq_max(m.usage.subrange(0, u as int)),
            decreases LANE_COLOR_COUNT - u,
        {
            assert(m.usage.subrange(0, u + 1).drop_last() =~= m.usage.subrange(0, u as int));
            if self.color_usage_count[u] > max_usage {
                max_usage = self.color_usage_count[u];
            }
            u += 1;
        }
        assert(m.usage.subrange(0, LANE_COLOR_COUNT as int) =~= m.usage);
        proof {
            lemma_seq_max(m.usage);
            lemma_usage_term_bound(m.usage, c as int);
            lemma_lanes_term_bound(m.lane_colors, lane as int, c as int);
            lemma_history_term_bound(m.history, m.current_row as int, lane as int, c as int);
            assert(m.lane_colors.len() * (8 * PENALTY_SCALE) <= usize::MAX * (8 * PENALTY_SCALE)) by (nonlinear_arith)
                requires m.lane_colors.len() <= usize::MAX;
            assert(m.history.len() * (8 * PENALTY_SCALE) <= 6 * (8 * PENALTY_SCALE)) by (nonlinear_arith)
                requires m.history.len() <= 6;
        }
        let balance: u128 = if max_usage > 0 {
            (2 * PENALTY_SCALE) * (self.color_usage_count[c] as u128) / (max_usage as u128)
        } else {
            0
        };
        let last: u128 = if self.lane_last_color[lane] == c { 10 * PENALTY_SCALE } else { 0 };
        let fork: u128 = if sibling && vec_contains(&self.current_fork_colors, c) {
            100 * PENALTY_SCALE
        } else {
            0
        };
        last + lanes + recent + fork + balance
    }
}

proof fn lemma_rotation_covers(start: int, c: int)
    requires
        0 <= start < LANE_COLOR_COUNT,
        0 <= c < LANE_COLOR_COUNT,
    ensures
        exists|k: int| 0 <= k < LANE_COLOR_COUNT && rotated(start, k) == c,
{
    if c >= start {
        assert(rotated(start, c - start) == c);
    } else {
        assert(rotated(start, c + 11 - start) == c);
    }
}

impl ColorAssigner {
    /// Picks a color for `lane` by the penalty model and records it.
    /// `is_fork_sibling` adds the fork-collision term and records the pick as a
    /// sibling of the current fork; `use_reserved` lets reserved colors compete.
    fn assign_color_advanced(&mut self, lane: usize, is_fork_sibling: bool, use_reserved: bool) -> (r: usize)
        requires
            old(self).wf(),
        ensures
            final(self).wf(),
            r < LANE_COLOR_COUNT,
            old(self)@.with_lane(lane as int).is_best_color(lane as int, is_fork_sibling, use_reserved, r as int),
            final(self)@ == old(self)@.with_lane(lane as int).after_pick(lane as int, is_fork_sibling, r),
    {
        self.ensure_capacity(lane);
        let ghost m = self@;
        let start = self.next_color_index;
        let mut best_color: usize = start;
        let mut best_penalty: Option<u128> = None;
        let ghost mut best_k: int = 0;
        let mut k: usize = 0;
        while k < LANE_COLOR_COUNT
            invariant
                m == self@,
                self.wf(),
                lane < m.lane_colors.len(),
                start == m.next_color,
                k <= LANE_COLOR_COUNT,
                best_color < LANE_COLOR_COUNT,
                best_penalty is None ==> best_color == start && forall|j: int|
                    0 <= j < k ==> !#[trigger] m.allowed(rotated(start as int, j), use_reserved),
                best_penalty matches Some(bp) ==> {
                    &&& 0 <= best_k < k
                    &&& best_color == rotated(start as int, best_k)
                    &&& m.allowed(best_color as int, use_reserved)
                    &&& bp == m.penalty(lane as int, best_color as int, is_fork_sibling)
                    &&& forall|j: int|
                        0 <= j < best_k && m.allowed(rotated(start as int, j), use_reserved)
                            ==> bp < #[trigger] m.penalty(lane as int, rotated(start as int, j), is_fork_sibling)
                    &&& forall|j: int|
                        best_k < j < k && m.allowed(rotated(start as int, j), use_reserved)
                            ==> bp <= #[trigger] m.penalty(lane as int, rotated(start as int, j), is_fork_sibling)
                },
            decreases LANE_COLOR_COUNT - k,
        {
            let color_idx = (start + k) % LANE_COLOR_COUNT;
            assert(color_idx == rotated(start as int, k as int));
            if use_reserved || !vec_contains(&self.reserved_colors, color_idx) {
                let p = self.penalty_of(lane, color_idx, is_fork_sibling);
                let better = match best_penalty {
                    None => true,
                    Some(bp) => p < bp,
                };
                if better {
                    best_penalty = Some(p);
                    best_color = color_idx;
                    proof { best_k = k as int; }
                }
            }
            k += 1;
        }
        proof {
            if best_penalty is None {
                assert forall|c: int| 0 <= c < LANE_COLOR_COUNT implies !#[trigger] m.allowed(c, use_reserved) by {
                    lemma_rotation_covers(start as int, c);
                }
            }
        }
        let r = best_color;
        self.lane_colors.set(lane, Some(r));
        self.lane_last_color.set(lane, r);
        self.next_color_index = (r + 1) % LANE_COLOR_COUNT;
        let ghost h = self@.history;
        self.recent_assignments.push((self.current_row, lane, r));
        if self.recent_assignments.len() > HISTORY_WINDOW {
            self.recent_assignments.remove(0);
        }
        assert(self@.history =~= remembered(h, (m.current_row, lane, r)));
        let used = self.color_usage_count[r];
        self.color_usage_count.set(r, used.saturating_add(1));
        if is_fork_sibling && !vec_contains(&self.current_fork_colors, r) {
            self.current_fork_colors.push(r);
        }
        assert(self@.usage =~= bumped(m.usage, r as int));
        assert(self@.lane_colors =~= m.lane_colors.update(lane as int, Some(r)));
        assert(self@.lane_last_color =~= m.lane_last_color.update(lane as int, r));
        r
    }

    /// Gives `lane` a new color by the penalty model; reserved colors are not
    /// candidates.
    pub fn assign_color(&mut self, lane: usize) -> (r: usize)
        requires
            old(self).wf(),
        ensures
            final(self).wf(),
            r < LANE_COLOR_COUNT,
            old(self)@.with_lane(lane as int).is_best_color(lane as int, false, false, r as int),
            final(self)@ == old(self)@.with_lane(lane as int).after_pick(lane as int, false, r),
    {
        self.assign_color_advanced(lane, false, false)
    }

    /// Gives `lane` a color for a sibling of the current fork: colors already
    /// given to its siblings weigh heavily against a pick.
    pub fn assign_fork_sibling_color(&mut self, lane: usize) -> (r: usize)
        requires
            old(self).wf(),
        ensures
            final(self).wf(),
            r < LANE_COLOR_COUNT,
            old(self)@.with_lane(lane as int).is_best_color(lane as int, true, false, r as int),
            final(self)@ == old(self)@.with_lane(lane as int).after_pick(lane as int, true, r),
            final(self)@.fork_colors.contains(r),
    {
        let r = self.assign_color_advanced(lane, true, false);
        proof {
            let f = old(self)@.fork_colors;
            if !f.contains(r) {
                assert(f.push(r)[f.len() as int] == r);
            }
        }
        r
    }

    /// Gives `lane` the main branch color, reserves that color and marks the
    /// lane as the main lane.
    pub fn assign_main_color(&mut self, lane: usize) -> (r: usize)
        requires
            old(self).wf(),
        ensures
            final(self).wf(),
            r == MAIN_BRANCH_COLOR,
            final(self)@.main_lane == Some(lane),
            final(self)@.reserved.contains(MAIN_BRANCH_COLOR),
            forall|c: usize| #[trigger] final(self)@.reserved.contains(c) <==> (old(self)@.reserved.contains(c) || c == MAIN_BRANCH_COLOR),
            final(self)@.reserved == if old(self)@.reserved.contains(MAIN_BRANCH_COLOR) {
                old(self)@.reserved
            } else {
                old(self)@.reserved.push(MAIN_BRANCH_COLOR)
            },
            final(self)@ == (ColorModel {
                lane_colors: old(self)@.with_lane(lane as int).lane_colors.update(lane as int, Some(MAIN_BRANCH_COLOR)),
                lane_last_color: old(self)@.with_lane(lane as int).lane_last_color.update(lane as int, MAIN_BRANCH_COLOR),
                reserved: final(self)@.reserved,
                main_lane: Some(lane),
                usage: bumped(old(self)@.usage, MAIN_BRANCH_COLOR as int),
                ..old(self)@
            }),
    {
        self.ensure_capacity(lane);
        let ghost m = self@;
        let color = MAIN_BRANCH_COLOR;
        self.lane_colors.set(lane, Some(color));
        self.lane_last_color.set(lane, color);
        self.reserve_color(color);
        self.main_lane = Some(lane);
        let used = self.color_usage_count[color];
        self.color_usage_count.set(color, used.saturating_add(1));
        assert(self@.usage =~= bumped(m.usage, color as int));
        assert(self@.lane_colors =~= m.lane_colors.update(lane as int, Some(color)));
        assert(self@.lane_last_color =~= m.lane_last_color.update(lane as int, color));
        color
    }

    /// The color with which `lane` goes on: the main color on the main lane,
    /// else the lane's current color, else a new one by the penalty model.
    pub fn continue_lane(&mut self, lane: usize) -> (r: usize)
        requires
            old(self).wf(),
        ensures
            final(self).wf(),
            r < LANE_COLOR_COUNT,
            old(self)@.main_lane == Some(lane) ==> r == MAIN_BRANCH_COLOR && final(self)@ == old(self)@,
            old(self)@.main_lane != Some(lane) ==> match old(self)@.with_lane(lane as int).lane_colors[lane as int] {
                Some(c) => r == c && final(self)@ == old(self)@.with_lane(lane as int),
                None => old(self)@.with_lane(lane as int).is_best_color(lane as int, false, false, r as int)
                    && final(self)@ == old(self)@.with_lane(lane as int).after_pick(lane as int, false, r),
            },
    {
        if self.main_lane == Some(lane) {
            return MAIN_BRANCH_COLOR;
        }
        self.ensure_capacity(lane);
        match self.lane_colors[lane] {
            Some(c) => c,
            None => self.assign_color(lane),
        }
    }

    /// Frees the color of `lane`; the main lane keeps its color.
    pub fn release_lane(&mut self, lane: usize)
        requires
            old(self).wf(),
        ensures
            final(self).wf(),
            final(self)@ == if lane < old(self)@.lane_colors.len() && old(self)@.main_lane != Some(lane) {
                ColorModel { lane_colors: old(self)@.lane_colors.update(lane as int, None), ..old(self)@ }
            } else {
                old(self)@
            },
    {
        if lane < self.lane_colors.len() && self.main_lane != Some(lane) {
            self.lane_colors.set(lane, None);
            assert(self@.lane_colors =~= old(self)@.lane_colors.update(lane as int, None));
        }
    }
}

impl Default for ColorAssigner {
    fn default() -> (r: Self)
        ensures
            r.wf(),
            r@.lane_colors.len() == 0,
            r@.main_lane.is_none(),
    {
        ColorAssigner::new()
    }
}

proof fn lemma_lanes_term_absent(colors: Seq<Option<usize>>, lane: int, c: int)
    requires
        forall|i: int| 0 <= i < colors.len() ==> colors[i] != Some(c as usize),
    ensures
        lanes_term(colors, lane, c) == 0,
    decreases colors.len(),
{
    if colors.len() > 0 {
        lemma_lanes_term_absent(colors.drop_last(), lane, c);
    }
}

proof fn lemma_history_term_absent(h: Seq<(usize, usize, usize)>, row: int, lane: int, c: int)
    requires
        forall|i: int| 0 <= i < h.len() ==> h[i].2 != c,
    ensures
        history_term(h, row, lane, c) == 0,
    decreases h.len(),
{
    if h.len() > 0 {
        lemma_history_term_absent(h.drop_last(), row, lane, c);
    }
}

/// The main branch color stays with the main lane: once it is reserved, an
/// ordinary or fork-sibling assignment never picks it while some palette
/// color is not reserved.
pub proof fn lemma_reserved_color_never_reassigned(m: ColorModel, lane: int, sibling: bool, r: int)
    requires
        m.is_best_color(lane, sibling, false, r),
        m.reserved.contains(MAIN_BRANCH_COLOR),
        exists|c: usize| c < LANE_COLOR_COUNT && !#[trigger] m.reserved.contains(c),
    ensures
        r != MAIN_BRANCH_COLOR,
{
    let c = choose|c: usize| c < LANE_COLOR_COUNT && !#[trigger] m.reserved.contains(c);
    assert(m.allowed(c as int, false));
}

/// A lane that gets a new color does not get the color it showed last, as
/// long as some other allowed color is free: held by no lane, absent from the
/// recent assignments and, for a fork sibling, not taken by another sibling.
pub proof fn lemma_reused_lane_changes_color(
    m: ColorModel,
    lane: int,
    sibling: bool,
    use_reserved: bool,
    r: int,
    c: int,
)
    requires
        m.wf(),
        0 <= lane < m.lane_colors.len(),
        m.is_best_color(lane, sibling, use_reserved, r),
        0 <= c < LANE_COLOR_COUNT,
        c != m.lane_last_color[lane],
        m.allowed(c, use_reserved),
        forall|i: int| 0 <= i < m.lane_colors.len() ==> m.lane_colors[i] != Some(c as usize),
        forall|i: int| 0 <= i < m.history.len() ==> m.history[i].2 != c,
        !(sibling && m.fork_colors.contains(c as usize)),
    ensures
        r != m.lane_last_color[lane],
{
    let last = m.lane_last_color[lane] as int;
    lemma_lanes_term_absent(m.lane_colors, lane, c);
    lemma_history_term_absent(m.history, m.current_row as int, lane, c);
    lemma_usage_term_bound(m.usage, c);
    lemma_lanes_term_bound(m.lane_colors, lane, last);
    lemma_history_term_bound(m.history, m.current_row as int, lane, last);
    lemma_usage_term_bound(m.usage, last);
    assert(m.penalty(lane, c, sibling) <= 2 * PENALTY_SCALE);
    assert(m.penalty(lane, last, sibling) >= 10 * PENALTY_SCALE);
    lemma_rotation_covers(m.next_color as int, c);
    let j = choose|j: int| 0 <= j < LANE_COLOR_COUNT && rotated(m.next_color as int, j) == c;
    assert(m.penalty(lane, r, sibling) <= m.penalty(lane, rotated(m.next_color as int, j), sibling));
}

/// The penalty model's pick is determined by the assigner's state: two colors
/// that both satisfy `is_best_color` for the same lane and flags are equal.
pub proof fn lemma_best_color_unique(m: ColorModel, lane: int, sibling: bool, use_reserved: bool, r1: int, r2: int)
    requires
        m.is_best_color(lane, sibling, use_reserved, r1),
        m.is_best_color(lane, sibling, use_reserved, r2),
    ensures
        r1 == r2,
{
    let start = m.next_color as int;
    let none_allowed = forall|c: int| 0 <= c < LANE_COLOR_COUNT ==> !#[trigger] m.allowed(c, use_reserved);
    if none_allowed {
        if exists|k: int| 0 <= k < LANE_COLOR_COUNT && r1 == rotated(start, k) && m.allowed(r1, use_reserved) {
            let k = choose|k: int| 0 <= k < LANE_COLOR_COUNT && r1 == rotated(start, k) && m.allowed(r1, use_reserved);
            assert(0 <= r1 < LANE_COLOR_COUNT);
        }
        if exists|k: int| 0 <= k < LANE_COLOR_COUNT && r2 == rotated(start, k) && m.allowed(r2, use_reserved) {
            let k = choose|k: int| 0 <= k < LANE_COLOR_COUNT && r2 == rotated(start, k) && m.allowed(r2, use_reserved);
            assert(0 <= r2 < LANE_COLOR_COUNT);
        }
    } else {
        let k1 = choose|k: int|
            {
                &&& 0 <= k < LANE_COLOR_COUNT
                &&& r1 == rotated(start, k)
                &&& m.allowed(r1, use_reserved)
                &&& forall|j: int|
                    0 <= j < k && m.allowed(rotated(start, j), use_reserved) ==> m.penalty(lane, r1, sibling)
                        < #[trigger] m.penalty(lane, rotated(start, j), sibling)
                &&& forall|j: int|
                    k < j < LANE_COLOR_COUNT && m.allowed(rotated(start, j), use_reserved) ==> m.penalty(
                        lane,
                        r1,
                        sibling,
                    ) <= #[trigger] m.penalty(lane, rotated(start, j), sibling)
            };
        let k2 = choose|k: int|
            {
                &&& 0 <= k < LANE_COLOR_COUNT
                &&& r2 == rotated(start, k)
                &&& m.allowed(r2, use_reserved)
                &&& forall|j: int|
                    0 <= j < k && m.allowed(rotated(start, j), use_reserved) ==> m.penalty(lane, r2, sibling)
                        < #[trigger] m.penalty(lane, rotated(start, j), sibling)
                &&& forall|j: int|
                    k < j < LANE_COLOR_COUNT && m.allowed(rotated(start, j), use_reserved) ==> m.penalty(
                        lane,
                        r2,
                        sibling,
                    ) <= #[trigger] m.penalty(lane, rotated(start, j), sibling)
            };
        if k1 < k2 {
            assert(m.penalty(lane, r2, sibling) < m.penalty(lane, rotated(start, k1), sibling));
            assert(m.penalty(lane, r1, sibling) <= m.penalty(lane, rotated(start, k2), sibling));
        } else if k2 < k1 {
            assert(m.penalty(lane, r1, sibling) < m.penalty(lane, rotated(start, k2), sibling));
            assert(m.penalty(lane, r2, sibling) <= m.penalty(lane, rotated(start, k1), sibling));
        }
    }
}

/// The color the penalty model picks for `lane` in state `m`.
pub open spec fn best_color(m: ColorModel, lane: int, sibling: bool, use_reserved: bool) -> int {
    choose|r: int| m.is_best_color(lane, sibling, use_reserved, r)
}

/// A color that satisfies `is_best_color` is the one `best_color` names.
pub proof fn lemma_best_color_is(m: ColorModel, lane: int, sibling: bool, use_reserved: bool, r: int)
    requires
        m.is_best_color(lane, sibling, use_reserved, r),
    ensures
        best_color(m, lane, sibling, use_reserved) == r,
{
    lemma_best_color_unique(m, lane, sibling, use_reserved, best_color(m, lane, sibling, use_reserved), r);
}

/// Color and state after an ordinary (or fork-sibling) assignment to `lane`.
pub open spec fn assigned(m: ColorModel, lane: int, sibling: bool) -> (usize, ColorModel) {
    let w = m.with_lane(lane);
    let r = best_color(w, lane, sibling, false) as usize;
    (r, w.after_pick(lane, sibling, r))
}

/// State after the main branch color goes to `lane`.
pub open spec fn main_assigned(m: ColorModel, lane: int) -> ColorModel {
    let w = m.with_lane(lane);
    ColorModel {
        lane_colors: w.lane_colors.update(lane, Some(MAIN_BRANCH_COLOR)),
        lane_last_color: w.lane_last_color.update(lane, MAIN_BRANCH_COLOR),
        reserved: if m.reserved.contains(MAIN_BRANCH_COLOR) {
            m.reserved
        } else {
            m.reserved.push(MAIN_BRANCH_COLOR)
        },
        main_lane: Some(lane as usize),
        usage: bumped(m.usage, MAIN_BRANCH_COLOR as int),
        ..m
    }
}

/// Color and state when `lane` goes on (see `continue_lane`).
pub open spec fn continued(m: ColorModel, lane: int) -> (usize, ColorModel) {
    if m.main_lane == Some(lane as usize) {
        (MAIN_BRANCH_COLOR, m)
    } else {
        match m.with_lane(lane).lane_colors[lane] {
            Some(c) => (c, m.with_lane(lane)),
            None => assigned(m, lane, false),
        }
    }
}

/// State after `lane` is released (see `release_lane`).
pub open spec fn released(m: ColorModel, lane: int) -> ColorModel {
    if 0 <= lane < m.lane_colors.len() && m.main_lane != Some(lane as usize) {
        ColorModel { lane_colors: m.lane_colors.update(lane, None), ..m }
    } else {
        m
    }
}

/// State after `advance_row`.
pub open spec fn advanced(m: ColorModel) -> ColorModel {
    ColorModel {
        current_row: if m.current_row < usize::MAX { (m.current_row + 1) as usize } else { usize::MAX },
        fork_colors: Seq::empty(),
        ..m
    }
}

/// The state of a new assigner.
pub open spec fn initial_colors() -> ColorModel {
    ColorModel {
        lane_colors: Seq::empty(),
        lane_last_color: Seq::empty(),
        next_color: 0,
        reserved: Seq::empty(),
        history: Seq::empty(),
        current_row: 0,
        fork_colors: Seq::empty(),
        usage: Seq::new(LANE_COLOR_COUNT as nat, |i: int| 0usize),
        main_lane: None,
    }
}

proof fn lemma_push_contains(s: Seq<usize>, x: usize)
    ensures
        forall|c: usize| #[trigger] s.push(x).contains(c) <==> (s.contains(c) || c == x),
{
    assert forall|c: usize| #[trigger] s.push(x).contains(c) <==> (s.contains(c) || c == x) by {
        if s.contains(c) {
            let j = choose|j: int| 0 <= j < s.len() && s[j] == c;
            assert(s.push(x)[j] == c);
        }
        if c == x {
            assert(s.push(x)[s.len() as int] == c);
        }
        if s.push(x).contains(c) && c != x {
            let j = choose|j: int| 0 <= j < s.push(x).len() && s.push(x)[j] == c;
            assert(s[j] == c);
        }
    }
}

fn vec_contains(v: &Vec<usize>, x: usize) -> (r: bool)
    ensures
        r == v@.contains(x),
{
    let mut i: usize = 0;
    while i < v.len()
        invariant
            i <= v.len(),
            forall|j: int| 0 <= j < i ==> v@[j] != x,
        decreases v.len() - i,
    {
        if v[i] == x {
            return true;
        }
        i += 1;
    }
    false
}

} // verus!
