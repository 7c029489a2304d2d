//! State of the widgets that the terminal front end draws.

use vstd::prelude::*;
use crate::mode::AppMode;
use crate::search::FuzzySearchResult;

verus! {

/// Most search results shown at once in the dropdown.
pub const MAX_VISIBLE_RESULTS: usize = 7;

/// A dialog that asks for a line of text.
pub struct InputDialog<'a> {
    pub title: &'a str,
    pub input: &'a str,
}

impl<'a> InputDialog<'a> {
    pub fn new(title: &'a str, input: &'a str) -> (r: Self)
        ensures
            r.title@ == title@,
            r.input@ == input@,
    {
        InputDialog { title, input }
    }
}

/// A dialog that asks for a yes or a no.
pub struct ConfirmDialog<'a> {
    pub message: &'a str,
}

impl<'a> ConfirmDialog<'a> {
    pub fn new(message: &'a str) -> (r: Self)
        ensures
            r.message@ == message@,
    {
        ConfirmDialog { message }
    }
}

/// The key binding overview.
pub struct HelpPopup;

/// The bottom line: mode, repository and HEAD.
pub struct StatusBar<'a> {
    pub mode: &'a AppMode,
    pub repo_path: &'a str,
    pub head_name: Option<&'a str>,
}

impl<'a> StatusBar<'a> {
    pub fn new(mode: &'a AppMode, repo_path: &'a str, head_name: Option<&'a str>) -> (r: Self)
        ensures
            r.mode == mode,
            r.repo_path@ == repo_path@,
            r.head_name == head_name,
    {
        StatusBar { mode, repo_path, head_name }
    }
}

/// The branch search box with its ranked results.
pub struct SearchDropdown<'a> {
    pub input: &'a str,
    pub results: &'a [FuzzySearchResult],
    pub branch_names: &'a [(usize, String)],
    pub selected_index: Option<usize>,
}

impl<'a> SearchDropdown<'a> {
    pub fn new(
        input: &'a str,
        results: &'a [FuzzySearchResult],
        branch_names: &'a [(usize, String)],
        selected_index: Option<usize>,
    ) -> (r: Self)
        ensures
            r.input@ == input@,
            r.results@ == results@,
            r.branch_names@ == branch_names@,
            r.selected_index == selected_index,
    {
        SearchDropdown { input, results, branch_names, selected_index }
    }

    /// Name of the branch a result refers to; empty when out of range.
    pub fn get_branch_name(&self, result: &FuzzySearchResult) -> (r: &'a str)
        ensures
            r@ == if result.branch_idx < self.branch_names@.len() {
                self.branch_names@[result.branch_idx as int].1@
            } else {
                Seq::<char>::empty()
            },
    {
        if result.branch_idx < self.branch_names.len() {
            self.branch_names[result.branch_idx].1.as_str()
        } else {
            proof { reveal_strlit(""); }
            ""
        }
    }
}

/// Rows the dropdown needs: borders, input line and hint, plus a separator and
/// up to `MAX_VISIBLE_RESULTS` result lines when there are results.
pub fn calculate_dropdown_height(result_count: usize) -> (r: u16)
    ensures
        r == 4 + if result_count > 0 {
            1 + if result_count < MAX_VISIBLE_RESULTS { result_count } else { MAX_VISIBLE_RESULTS }
        } else {
            0
        },
{
    let base_height: usize = 4;
    let results_height: usize = if result_count > 0 {
        1 + if result_count < MAX_VISIBLE_RESULTS { result_count } else { MAX_VISIBLE_RESULTS }
    } else {
        0
    };
    (base_height + results_height) as u16
}

/// Total of `widths`.
pub open spec fn width_sum(widths: Seq<usize>) -> int
    decreases widths.len(),
{
    if widths.len() == 0 { 0 } else { width_sum(widths.drop_last()) + widths.last() }
}

/// Number of leading characters, of display widths `widths`, that fit in
/// `max_width` columns: the longest prefix whose widths add up to at most
/// `max_width`, stopping at the first character that does not fit.
pub fn fitting_chars(widths: &[usize], max_width: usize) -> (r: usize)
    ensures
        r <= widths@.len(),
        width_sum(widths@.subrange(0, r as int)) <= max_width,
        r < widths@.len() ==> width_sum(widths@.subrange(0, r as int)) + widths@[r as int] > max_width,
{
    let mut used: usize = 0;
    let mut k: usize = 0;
    while k < widths.len()
        invariant
            k <= widths@.len(),
            used == width_sum(widths@.subrange(0, k as int)),
            used <= max_width,
        decreases widths@.len() - k,
    {
        assert(widths@.subrange(0, k + 1).drop_last() =~= widths@.subrange(0, k as int));
        if widths[k] > max_width - used {
            return k;
        }
        used = used + widths[k];
        k += 1;
    }
    k
}

} // verus!
