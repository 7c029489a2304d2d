//! Fuzzy search over branch names.

use vstd::prelude::*;

verus! {

/// A branch that matches a query.
#[derive(Debug, Clone)]
pub struct FuzzySearchResult {
    /// Index into the searched branch list.
    pub branch_idx: usize,
    /// Match score; higher is better.
    pub score: i64,
    /// Positions of the matched characters in the branch name.
    pub matched_indices: Vec<usize>,
}

/// What the skim fuzzy matcher (default settings) reports for `pattern` in
/// `choice`: a score and the matched character positions, or no match.
pub uninterp spec fn skim_match(choice: Seq<char>, pattern: Seq<char>) -> Option<(i64, Seq<usize>)>;

/// Relies on `fuzzy_matcher::skim::SkimMatcherV2::default()` and its
/// `FuzzyMatcher::fuzzy_indices`: the result depends on the two strings alone,
/// and an empty pattern matches with score 0 and no positions.
#[verifier::external_body]
fn skim_fuzzy_indices(choice: &str, pattern: &str) -> (r: Option<(i64, Vec<usize>)>)
    ensures
        r is Some ==> skim_match(choice@, pattern@) == Some((r->Some_0.0, r->Some_0.1@)),
        r is None ==> skim_match(choice@, pattern@) is None,
        pattern@.len() == 0 ==> r is Some && r->Some_0.0 == 0 && r->Some_0.1@.len() == 0,
{
    let matcher = fuzzy_matcher::skim::SkimMatcherV2::default();
    fuzzy_matcher::FuzzyMatcher::fuzzy_indices(&matcher, choice, pattern)
}

/// `a` ranks before `b`: higher score first, then lower branch index.
pub open spec fn ranks_before(a: FuzzySearchResult, b: FuzzySearchResult) -> bool {
    a.score > b.score || (a.score == b.score && a.branch_idx < b.branch_idx)
}

/// Results in strict rank order.
pub open spec fn ranked(rs: Seq<FuzzySearchResult>) -> bool {
    forall|a: int, b: int| 0 <= a < b < rs.len() ==> ranks_before(#[trigger] rs[a], #[trigger] rs[b])
}

/// `r` holds what the matcher reports for branch `r.branch_idx` of `branches`.
pub open spec fn reports_match(r: FuzzySearchResult, branches: Seq<(usize, String)>, query: Seq<char>) -> bool {
    &&& r.branch_idx < branches.len()
    &&& skim_match(branches[r.branch_idx as int].1@, query) == Some((r.score, r.matched_indices@))
}

fn ranks_before_exec(a: &FuzzySearchResult, b: &FuzzySearchResult) -> (r: bool)
    ensures
        r == ranks_before(*a, *b),
{
    a.score > b.score || (a.score == b.score && a.branch_idx < b.branch_idx)
}

/// Inserts `r` into the ranked list `results`, ahead of every result it ranks
/// before and behind every other one.
pub fn insert_ranked(results: &mut Vec<FuzzySearchResult>, r: FuzzySearchResult)
    requires
        ranked(old(results)@),
        forall|k: int| 0 <= k < old(results)@.len() ==> #[trigger] old(results)@[k].branch_idx != r.branch_idx,
    ensures
        ranked(final(results)@),
        exists|pos: int|
            0 <= pos <= old(results)@.len() && final(results)@ == old(results)@.insert(pos, r),
{
    let mut pos: usize = 0;
    while pos < results.len() && ranks_before_exec(&results[pos], &r)
        invariant
            pos <= results@.len(),
            results@ == old(results)@,
            forall|k: int| 0 <= k < pos ==> ranks_before(#[trigger] results@[k], r),
        decreases results@.len() - pos,
    {
        pos += 1;
    }
    let ghost before = results@;
    proof {
        // everything from `pos` on ranks after `r`
        assert forall|k: int| pos <= k < before.len() implies ranks_before(r, #[trigger] before[k]) by {
            assert(ranks_before(r, before[pos as int]) || before[pos as int].branch_idx == r.branch_idx);
            if k > pos {
                assert(ranks_before(before[pos as int], before[k]));
            }
        }
    }
    results.insert(pos, r);
    assert(ranked(results@)) by {
        assert forall|a: int, b: int| 0 <= a < b < results@.len() implies ranks_before(#[trigger] results@[a], #[trigger] results@[b]) by {
            if b < pos {
            } else if b == pos {
                assert(results@[a] == before[a]);
            } else if a < pos {
                assert(results@[a] == before[a]);
                assert(results@[b] == before[b - 1]);
                assert(ranks_before(before[a], before[b - 1]));
            } else if a == pos {
                assert(results@[b] == before[b - 1]);
            } else {
                assert(results@[a] == before[a - 1]);
                assert(results@[b] == before[b - 1]);
            }
        }
    }
}

/// Branches whose name matches `query`, best first (higher score, then lower
/// index). An empty query matches nothing.
pub fn fuzzy_search_branches(query: &str, branches: &[(usize, String)]) -> (results: Vec<FuzzySearchResult>)
    ensures
        query@.len() == 0 ==> results@.len() == 0,
        query@.len() > 0 ==> {
            &&& ranked(results@)
            &&& forall|k: int| 0 <= k < results@.len() ==> reports_match(#[trigger] results@[k], branches@, query@)
            &&& forall|i: int|
                0 <= i < branches@.len() && (#[trigger] skim_match(branches@[i].1@, query@)) is Some ==> exists|k: int|
                    0 <= k < results@.len() && results@[k].branch_idx == i
        },
{
    let mut results: Vec<FuzzySearchResult> = Vec::new();
    if query.is_empty() {
        return results;
    }
    let mut i: usize = 0;
    while i < branches.len()
        invariant
            i <= branches@.len(),
            ranked(results@),
            forall|k: int| 0 <= k < results@.len() ==> #[trigger] results@[k].branch_idx < i,
            forall|k: int| 0 <= k < results@.len() ==> reports_match(#[trigger] results@[k], branches@, query@),
            forall|j: int|
                0 <= j < i && (#[trigger] skim_match(branches@[j].1@, query@)) is Some ==> exists|k: int|
                    0 <= k < results@.len() && results@[k].branch_idx == j,
        decreases branches@.len() - i,
    {
        let name: &str = branches[i].1.as_str();
        match skim_fuzzy_indices(name, query) {
            Some((score, matched_indices)) => {
                let ghost before = results@;
                let r = FuzzySearchResult { branch_idx: i, score, matched_indices };
                insert_ranked(&mut results, r);
                proof {
                    let pos = choose|pos: int| 0 <= pos <= before.len() && results@ == before.insert(pos, r);
                    assert(results@[pos].branch_idx == i);
                    assert forall|k: int| 0 <= k < results@.len() implies #[trigger] results@[k].branch_idx < i + 1
                        && reports_match(results@[k], branches@, query@) by {
                        if k < pos {
                            assert(results@[k] == before[k]);
                        } else if k > pos {
                            assert(results@[k] == before[k - 1]);
                        }
                    }
                    assert forall|j: int|
                        0 <= j < i + 1 && (#[trigger] skim_match(branches@[j].1@, query@)) is Some implies exists|k: int|
                            0 <= k < results@.len() && results@[k].branch_idx == j by {
                        if j < i {
                            let k = choose|k: int| 0 <= k < before.len() && before[k].branch_idx == j;
                            if k < pos {
                                assert(results@[k] == before[k]);
                            } else {
                                assert(results@[k + 1] == before[k]);
                            }
                        }
                    }
                }
            },
            None => {},
        }
        i += 1;
    }
    results
}

} // verus!
