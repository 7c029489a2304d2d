//! Labels for the branch names shown next to a commit.

use vstd::prelude::*;
use vstd::utf8::encode_utf8;

verus! {

/// How one branch name is shown.
#[derive(Debug, Clone)]
pub enum BranchLabel {
    /// A local branch without a remote twin among the names.
    Local(String),
    /// A local branch shown together with its `origin/` twin.
    Paired(String),
    /// A remote branch whose local twin is not among the names.
    Remote(String),
}

/// UTF-8 bytes of a name.
pub open spec fn name_bytes(s: String) -> Seq<u8> {
    encode_utf8(s@)
}

/// The bytes of `origin/`.
pub open spec fn origin_prefix() -> Seq<u8> {
    seq![111u8, 114u8, 105u8, 103u8, 105u8, 110u8, 47u8]
}

/// A remote branch name: one that starts with `origin/`.
pub open spec fn is_remote_name(s: String) -> bool {
    let b = name_bytes(s);
    b.len() >= 7 && b.subrange(0, 7) == origin_prefix()
}

/// `remote` is `origin/` followed by `local`.
pub open spec fn twins(local: String, remote: String) -> bool {
    name_bytes(remote) == origin_prefix() + name_bytes(local)
}

/// Local name `l` has its remote twin among `names`.
pub open spec fn has_remote_twin(names: Seq<String>, l: String) -> bool {
    exists|k: int| 0 <= k < names.len() && twins(l, #[trigger] names[k])
}

/// Remote name `r` has its local twin among `names`.
pub open spec fn has_local_twin(names: Seq<String>, r: String) -> bool {
    exists|k: int| 0 <= k < names.len() && !is_remote_name(#[trigger] names[k]) && twins(names[k], r)
}

/// Labels of the local names of `ns`, in order, looking for twins in `all`.
pub open spec fn local_labels(ns: Seq<String>, all: Seq<String>) -> Seq<BranchLabel>
    decreases ns.len(),
{
    if ns.len() == 0 {
        Seq::empty()
    } else {
        let rest = local_labels(ns.drop_last(), all);
        let n = ns.last();
        if is_remote_name(n) {
            rest
        } else if has_remote_twin(all, n) {
            rest.push(BranchLabel::Paired(n))
        } else {
            rest.push(BranchLabel::Local(n))
        }
    }
}

/// Labels of the remote names of `ns` without a local twin in `all`.
pub open spec fn remote_labels(ns: Seq<String>, all: Seq<String>) -> Seq<BranchLabel>
    decreases ns.len(),
{
    if ns.len() == 0 {
        Seq::empty()
    } else {
        let rest = remote_labels(ns.drop_last(), all);
        let n = ns.last();
        if is_remote_name(n) && !has_local_twin(all, n) {
            rest.push(BranchLabel::Remote(n))
        } else {
            rest
        }
    }
}

fn bytes_of(s: &String) -> (r: &[u8])
    ensures
        r@ == name_bytes(*s),
{
    s.as_str().as_bytes()
}

fn origin_byte(i: usize) -> (r: u8)
    requires
        i < 7,
    ensures
        r == origin_prefix()[i as int],
{
    if i == 0 {
        111
    } else if i == 1 {
        114
    } else if i == 2 {
        105
    } else if i == 3 {
        103
    } else if i == 4 {
        105
    } else if i == 5 {
        110
    } else {
        47
    }
}

fn is_remote_exec(s: &String) -> (r: bool)
    ensures
        r == is_remote_name(*s),
{
    let b = bytes_of(s);
    if b.len() < 7 {
        return false;
    }
    let mut i: usize = 0;
    while i < 7
        invariant
            i <= 7,
            b@.len() >= 7,
            b@ == name_bytes(*s),
            forall|k: int| 0 <= k < i ==> b@[k] == origin_prefix()[k],
        decreases 7 - i,
    {
        if b[i] != origin_byte(i) {
            assert(b@.subrange(0, 7)[i as int] != origin_prefix()[i as int]);
            return false;
        }
        i += 1;
    }
    assert(b@.subrange(0, 7) =~= origin_prefix());
    true
}

fn twins_exec(local: &String, remote: &String) -> (r: bool)
    ensures
        r == twins(*local, *remote),
{
    let l = bytes_of(local);
    let m = bytes_of(remote);
    let ghost want = origin_prefix() + l@;
    if m.len() < 7 || m.len() - 7 != l.len() {
        assert(m@.len() != want.len());
        return false;
    }
    let mut i: usize = 0;
    while i < m.len()
        invariant
            i <= m@.len(),
            m@.len() == want.len(),
            want == origin_prefix() + l@,
            m@ == name_bytes(*remote),
            l@ == name_bytes(*local),
            forall|k: int| 0 <= k < i ==> m@[k] == want[k],
        decreases m@.len() - i,
    {
        let expected = if i < 7 { origin_byte(i) } else { l[i - 7] };
        if m[i] != expected {
            assert(m@[i as int] != want[i as int]);
            return false;
        }
        i += 1;
    }
    assert(m@ =~= want);
    true
}

/// Labels for the branch names at one commit: first the local names in
/// order, each paired with its `origin/` twin when that is among the names,
/// then the remote names whose local twin is not among them.
pub fn branch_labels(names: &[String]) -> (r: Vec<BranchLabel>)
    ensures
        r@ == local_labels(names@, names@) + remote_labels(names@, names@),
{
    let mut locals: Vec<BranchLabel> = Vec::new();
    let mut i: usize = 0;
    while i < names.len()
        invariant
            i <= names@.len(),
            locals@ == local_labels(names@.subrange(0, i as int), names@),
        decreases names@.len() - i,
    {
        assert(names@.subrange(0, i + 1).drop_last() =~= names@.subrange(0, i as int));
        let n = &names[i];
        if !is_remote_exec(n) {
            let mut twin = false;
            let mut k: usize = 0;
            while k < names.len()
                invariant
                    k <= names@.len(),
                    twin == exists|q: int| 0 <= q < k && twins(*n, #[trigger] names@[q]),
                decreases names@.len() - k,
            {
                if !twin && twins_exec(n, &names[k]) {
                    twin = true;
                }
                k += 1;
            }
            if twin {
                locals.push(BranchLabel::Paired(n.clone()));
            } else {
                locals.push(BranchLabel::Local(n.clone()));
            }
        }
        i += 1;
    }
    assert(names@.subrange(0, names@.len() as int) =~= names@);
    let mut remotes: Vec<BranchLabel> = Vec::new();
    let mut i: usize = 0;
    while i < names.len()
        invariant
            i <= names@.len(),
            remotes@ == remote_labels(names@.subrange(0, i as int), names@),
        decreases names@.len() - i,
    {
        assert(names@.subrange(0, i + 1).drop_last() =~= names@.subrange(0, i as int));
        let n = &names[i];
        if is_remote_exec(n) {
            let mut paired = false;
            let mut k: usize = 0;
            while k < names.len()
                invariant
                    k <= names@.len(),
                    paired == exists|q: int| 0 <= q < k && !is_remote_name(#[trigger] names@[q]) && twins(names@[q], *n),
                decreases names@.len() - k,
            {
                if !paired && !is_remote_exec(&names[k]) && twins_exec(&names[k], n) {
                    paired = true;
                }
                k += 1;
            }
            if !paired {
                remotes.push(BranchLabel::Remote(n.clone()));
            }
        }
        i += 1;
    }
    assert(names@.subrange(0, names@.len() as int) =~= names@);
    locals.append(&mut remotes);
    locals
}

} // verus!
