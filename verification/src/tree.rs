//! Builds the process tree: from one enumeration snapshot, the set of
//! a root's transitive descendants.  Traversal keeps a visited set, so
//! it terminates even when a race (pid reuse during enumeration) puts
//! a spurious cycle into the snapshot.

use vstd::prelude::*;
use vstd::set_lib::lemma_len_subset;
use crate::record::ProcSnapshot;
use crate::status::{status_u32, parse_ppid};
use crate::text::lines_of;

verus! {

/// One enumerated process: its id and its snapshot text.
pub struct ProcEntry {
    pub pid: u32,
    pub snap: ProcSnapshot,
}

/// Batch-fatal failures of an inspection.
#[derive(Clone, Copy, Debug, PartialEq, Eq, Structural)]
pub enum InspectError {
    TargetNotFound,
}

/// The parent id an entry's status text records, where the status
/// descriptor was readable at all.
pub open spec fn entry_parent(e: ProcEntry) -> Option<u32> {
    match e.snap.status {
        Some(st) => Some(status_u32(lines_of(st@), "PPid:"@)),
        None => None::<u32>,
    }
}

pub open spec fn has_pid(t: Seq<ProcEntry>, p: u32) -> bool {
    exists|i: int| 0 <= i < t.len() && t[i].pid == p
}

/// A parent-to-child edge of the enumeration snapshot.  A spurious
/// self-referential parent line is not an edge, so it can occur in
/// the input without occurring in any tree.
pub open spec fn is_child(t: Seq<ProcEntry>, parent: u32, child: u32) -> bool {
    child != parent && exists|i: int|
        0 <= i < t.len() && t[i].pid == child && entry_parent(t[i]) == Some(parent)
}

/// Reachability from the root in at most `n` parent-to-child steps.
pub open spec fn reach_n(t: Seq<ProcEntry>, root: u32, p: u32, n: nat) -> bool
    decreases n,
{
    if p == root {
        true
    } else if n == 0 {
        false
    } else {
        exists|q: u32| reach_n(t, root, q, (n - 1) as nat) && is_child(t, q, p)
    }
}

/// The root and its transitive descendants.
pub open spec fn descendant(t: Seq<ProcEntry>, root: u32, p: u32) -> bool {
    exists|n: nat| reach_n(t, root, p, n)
}

proof fn lemma_push_keeps<A>(s: Seq<A>, x: A)
    ensures
        forall|y: A| s.contains(y) ==> #[trigger] s.push(x).contains(y),
        s.push(x).contains(x),
        forall|y: A| #[trigger] s.push(x).contains(y) ==> s.contains(y) || y == x,
        s.no_duplicates() && !s.contains(x) ==> s.push(x).no_duplicates(),
{
    assert forall|y: A| s.contains(y) implies #[trigger] s.push(x).contains(y) by {
        let k = choose|k: int| 0 <= k < s.len() && s[k] == y;
        assert(s.push(x)[k] == y);
    }
    assert(s.push(x)[s.len() as int] == x);
    assert forall|y: A| #[trigger] s.push(x).contains(y) implies s.contains(y) || y == x by {
        let k = choose|k: int| 0 <= k < s.push(x).len() && s.push(x)[k] == y;
        if k < s.len() {
            assert(s[k] == y);
        }
    }
    if s.no_duplicates() && !s.contains(x) {
        assert forall|p: int, q: int|
            0 <= p < s.push(x).len() && 0 <= q < s.push(x).len() && p != q implies s.push(x)[p]
            != s.push(x)[q] by {
            if p < s.len() && q < s.len() {
                assert(s.push(x)[p] == s[p] && s.push(x)[q] == s[q]);
            } else if q == s.len() {
                assert(s.push(x)[p] == s[p] && s.contains(s[p]));
            } else {
                assert(s.push(x)[q] == s[q] && s.contains(s[q]));
            }
        }
    }
}

/// Any pid reachable from the root lies in a set that contains the
/// root and is closed under the snapshot's edges.
proof fn lemma_closed_contains(t: Seq<ProcEntry>, root: u32, s: Seq<u32>, p: u32, n: nat)
    requires
        s.contains(root),
        forall|k: int, c: u32| 0 <= k < s.len() && is_child(t, s[k], c) ==> s.contains(c),
        reach_n(t, root, p, n),
    ensures
        s.contains(p),
    decreases n,
{
    if p != root {
        let q = choose|q: u32| reach_n(t, root, q, (n - 1) as nat) && is_child(t, q, p);
        lemma_closed_contains(t, root, s, q, (n - 1) as nat);
        let k = choose|k: int| 0 <= k < s.len() && s[k] == q;
        assert(is_child(t, s[k], p));
    }
}

proof fn lemma_reach_root_only(t: Seq<ProcEntry>, root: u32, p: u32, n: nat)
    requires
        forall|c: u32| !is_child(t, root, c),
        reach_n(t, root, p, n),
    ensures
        p == root,
    decreases n,
{
    if p != root {
        let q = choose|q: u32| reach_n(t, root, q, (n - 1) as nat) && is_child(t, q, p);
        lemma_reach_root_only(t, root, q, (n - 1) as nat);
        assert(false);
    }
}

/// A root with no children in the snapshot has itself as its only
/// tree member: the tree of a leaf is the singleton of the root.
pub proof fn lemma_singleton_tree(t: Seq<ProcEntry>, root: u32)
    requires
        forall|c: u32| !is_child(t, root, c),
    ensures
        forall|p: u32| descendant(t, root, p) <==> p == root,
{
    assert(reach_n(t, root, root, 0));
    assert forall|p: u32| descendant(t, root, p) implies p == root by {
        let n = choose|n: nat| reach_n(t, root, p, n);
        lemma_reach_root_only(t, root, p, n);
    }
    assert forall|p: u32| p == root implies descendant(t, root, p) by {
        assert(reach_n(t, root, p, 0));
    }
}

/// Linear membership scan.
pub fn vec_contains_u32(v: &Vec<u32>, x: u32) -> (b: bool)
    ensures
        b == v@.contains(x),
{
    let mut k: usize = 0;
    while k < v.len()
        invariant
            0 <= k <= v@.len(),
            forall|m: int| 0 <= m < k ==> v@[m] != x,
        decreases v@.len() - k,
    {
        if v[k] == x {
            return true;
        }
        k += 1;
    }
    false
}

/// Whether any entry carries the given pid.
pub fn table_has_pid(table: &Vec<ProcEntry>, p: u32) -> (b: bool)
    ensures
        b == has_pid(table@, p),
{
    let mut k: usize = 0;
    while k < table.len()
        invariant
            0 <= k <= table@.len(),
            forall|m: int| 0 <= m < k ==> table@[m].pid != p,
        decreases table@.len() - k,
    {
        if table[k].pid == p {
            return true;
        }
        k += 1;
    }
    false
}

/// Whether this entry records `parent` as its parent, not counting a
/// self-referential line.
fn entry_child_of(e: &ProcEntry, parent: u32) -> (b: bool)
    ensures
        b == (e.pid != parent && entry_parent(*e) == Some(parent)),
{
    if e.pid == parent {
        return false;
    }
    match &e.snap.status {
        Some(st) => parse_ppid(st.as_str()) == parent,
        None => false,
    }
}

/// The children of `parent` among the first `j` entries.
spec fn child_seen(t: Seq<ProcEntry>, j: int, parent: u32, c: u32) -> bool {
    c != parent && exists|e: int| 0 <= e < j && t[e].pid == c && entry_parent(t[e]) == Some(parent)
}

/// Returns the ordered set of pids comprising the root and all its
/// transitive descendants, as of the one enumeration snapshot given;
/// fails exactly when the root itself is not in the enumeration.  The
/// visited set caps traversal at the number of distinct pids seen, so
/// the builder terminates on every snapshot, cycles included.
#[verifier::loop_isolation(false)]
pub fn contruct_ptree_for_ppid(table: &Vec<ProcEntry>, root: u32) -> (r: Result<
    Vec<u32>,
    InspectError,
>)
    ensures
        r is Ok <==> has_pid(table@, root),
        r is Err ==> r->Err_0 == InspectError::TargetNotFound,
        r is Ok ==> (r->Ok_0)@.len() >= 1 && (r->Ok_0)@[0] == root,
        r is Ok ==> (r->Ok_0)@.no_duplicates(),
        r is Ok ==> forall|p: u32| (r->Ok_0)@.contains(p) <==> descendant(table@, root, p),
{
    let ghost t = table@;
    if !table_has_pid(table, root) {
        return Err(InspectError::TargetNotFound);
    }
    let mut res: Vec<u32> = Vec::new();
    res.push(root);
    proof {
        assert(res@[0] == root);
        assert(reach_n(t, root, root, 0));
    }
    let mut i: usize = 0;
    while i < res.len()
        invariant
            0 <= i <= res@.len(),
            1 <= res@.len() <= t.len() + 1,
            res@[0] == root,
            res@.no_duplicates(),
            res@.contains(root),
            forall|k: int| 0 <= k < res@.len() ==> descendant(t, root, #[trigger] res@[k]),
            forall|k: int| 0 <= k < res@.len() ==> (#[trigger] res@[k] == root || has_pid(
                t,
                res@[k],
            )),
            forall|k: int, c: u32|
                0 <= k < i && #[trigger] is_child(t, res@[k], c) ==> res@.contains(c),
        decreases t.len() + 1 - res@.len(), res@.len() - i,
    {
        let parent = res[i];
        let ghost res_at_entry = res@;
        let mut j: usize = 0;
        while j < table.len()
            invariant
                0 <= j <= t.len(),
                0 <= i < res@.len(),
                res@.len() <= t.len() + 1,
                res@[i as int] == parent,
                res@[0] == root,
                res@.no_duplicates(),
                res@.contains(root),
                forall|k: int| 0 <= k < res@.len() ==> descendant(t, root, #[trigger] res@[k]),
                forall|k: int| 0 <= k < res@.len() ==> (#[trigger] res@[k] == root || has_pid(
                    t,
                    res@[k],
                )),
                forall|k: int, c: u32|
                    0 <= k < i && #[trigger] is_child(t, res@[k], c) ==> res@.contains(c),
                forall|c: u32| child_seen(t, j as int, parent, c) ==> res@.contains(c),
                res_at_entry.len() <= res@.len(),
            decreases t.len() - j,
        {
            let is_c = entry_child_of(&table[j], parent);
            if is_c {
                let cpid = table[j].pid;
                if !vec_contains_u32(&res, cpid) {
                    proof {
                        broadcast use vstd::set::group_set_axioms;
                        broadcast use vstd::seq_lib::seq_to_set_is_finite;
                        // the visited set stays within the pids of the
                        // snapshot plus the root, so it cannot outgrow it
                        let pids = t.map_values(|e: ProcEntry| e.pid);
                        let bound = pids.to_set().insert(root);
                        assert(pids[j as int] == cpid);
                        assert(pids.to_set().contains(cpid));
                        assert forall|k: int|
                            0 <= k < res@.len() implies bound.remove(cpid).contains(
                            #[trigger] res@[k],
                        ) by {
                            if res@[k] != root {
                                let m = choose|m: int| 0 <= m < t.len() && t[m].pid == res@[k];
                                assert(pids[m] == res@[k]);
                                assert(pids.to_set().contains(res@[k]));
                            }
                            if res@[k] == cpid {
                                assert(res@.contains(cpid));
                            }
                        }
                        assert(res@.to_set().subset_of(bound.remove(cpid)));
                        res@.unique_seq_to_set();
                        pids.lemma_cardinality_of_set();
                        lemma_len_subset(res@.to_set(), bound.remove(cpid));
                        assert(bound.remove(cpid).len() <= t.len());
                        assert(res@.len() <= t.len());
                        // the new pid is a descendant: one more step
                        // from its parent
                        assert(descendant(t, root, parent));
                        let n = choose|n: nat| reach_n(t, root, parent, n);
                        assert(is_child(t, parent, cpid));
                        assert(reach_n(t, root, cpid, n + 1));
                        lemma_push_keeps(res@, cpid);
                    }
                    res.push(cpid);
                } else {
                    proof {
                        lemma_push_keeps(res@, cpid);
                    }
                }
            }
            proof {
                assert forall|c: u32| child_seen(t, j + 1, parent, c) implies res@.contains(c) by {
                    let e = choose|e: int|
                        0 <= e < j + 1 && t[e].pid == c && entry_parent(t[e]) == Some(parent);
                    if e < j {
                        assert(child_seen(t, j as int, parent, c));
                    }
                }
            }
            j += 1;
        }
        proof {
            assert forall|c: u32| is_child(t, parent, c) implies res@.contains(c) by {
                assert(child_seen(t, t.len() as int, parent, c));
            }
        }
        i += 1;
    }
    proof {
        assert forall|p: u32| res@.contains(p) implies descendant(t, root, p) by {
            let k = choose|k: int| 0 <= k < res@.len() && res@[k] == p;
        }
        assert forall|p: u32| descendant(t, root, p) implies res@.contains(p) by {
            let n = choose|n: nat| reach_n(t, root, p, n);
            lemma_closed_contains(t, root, res@, p, n);
        }
    }
    Ok(res)
}

} // verus!
