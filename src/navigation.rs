//! Moving the selection through the rows of a layout.

use vstd::prelude::*;
use crate::graph::GraphNode;

verus! {

/// Row reached from `current` by `delta` rows, kept within the `row_count`
/// rows (row 0 when there are none).
pub fn move_selection(current: usize, delta: i64, row_count: usize) -> (r: usize)
    ensures
        r == if row_count == 0 {
            0
        } else if current + delta < 0 {
            0
        } else if current + delta > row_count - 1 {
            (row_count - 1) as int
        } else {
            current + delta
        },
{
    if row_count == 0 {
        return 0;
    }
    let max = row_count - 1;
    if delta < 0 {
        let back = (0 - (delta as i128)) as u128;
        if back >= current as u128 {
            0
        } else {
            let r = current - back as usize;
            if r > max { max } else { r }
        }
    } else {
        let fwd = delta as u128;
        if (current as u128) + fwd > max as u128 {
            max
        } else {
            current + delta as usize
        }
    }
}

/// First row after `current` that shows a branch name.
pub fn next_branch_row(nodes: &[GraphNode], current: usize) -> (r: Option<usize>)
    ensures
        r matches Some(i) ==> current < i < nodes@.len() && nodes@[i as int].branch_names@.len() > 0
            && forall|k: int| current < k < i ==> (#[trigger] nodes@[k]).branch_names@.len() == 0,
        r is None ==> forall|k: int| current < k < nodes@.len() ==> (#[trigger] nodes@[k]).branch_names@.len() == 0,
{
    if current >= nodes.len() {
        return None;
    }
    let mut i = current + 1;
    while i < nodes.len()
        invariant
            current < i <= nodes@.len(),
            forall|k: int| current < k < i ==> (#[trigger] nodes@[k]).branch_names@.len() == 0,
        decreases nodes@.len() - i,
    {
        if nodes[i].branch_names.len() > 0 {
            return Some(i);
        }
        i += 1;
    }
    None
}

/// Last row before `current` that shows a branch name.
pub fn prev_branch_row(nodes: &[GraphNode], current: usize) -> (r: Option<usize>)
    ensures
        r matches Some(i) ==> i < current && i < nodes@.len() && nodes@[i as int].branch_names@.len() > 0
            && forall|k: int| i < k < current && k < nodes@.len() ==> (#[trigger] nodes@[k]).branch_names@.len() == 0,
        r is None ==> forall|k: int| 0 <= k < current && k < nodes@.len() ==> (#[trigger] nodes@[k]).branch_names@.len() == 0,
{
    let mut i = if current < nodes.len() { current } else { nodes.len() };
    while i > 0
        invariant
            i <= current,
            i <= nodes@.len(),
            forall|k: int| i <= k < current && k < nodes@.len() ==> (#[trigger] nodes@[k]).branch_names@.len() == 0,
        decreases i,
    {
        if nodes[i - 1].branch_names.len() > 0 {
            return Some(i - 1);
        }
        i -= 1;
    }
    None
}

/// First row of the commit HEAD points to.
pub fn head_row_index(nodes: &[GraphNode]) -> (r: Option<usize>)
    ensures
        r matches Some(i) ==> i < nodes@.len() && nodes@[i as int].is_head && forall|k: int|
            0 <= k < i ==> !(#[trigger] nodes@[k]).is_head,
        r is None ==> forall|k: int| 0 <= k < nodes@.len() ==> !(#[trigger] nodes@[k]).is_head,
{
    let mut i: usize = 0;
    while i < nodes.len()
        invariant
            i <= nodes@.len(),
            forall|k: int| 0 <= k < i ==> !(#[trigger] nodes@[k]).is_head,
        decreases nodes@.len() - i,
    {
        if nodes[i].is_head {
            return Some(i);
        }
        i += 1;
    }
    None
}

} // verus!
