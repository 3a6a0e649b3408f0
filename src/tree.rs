//! The finished tree, and the assembly that links accumulated children to
//! their parents.
use vstd::prelude::*;
use indextree::{Arena, NodeId};
use crate::entry::{is_root_entry, Entry, EntryView};
use crate::arena::{
    arena_children, arena_entries, arena_freed, arena_ids, arena_len, arena_parents, arena_wf,
    child_ids, children_of, entry_at, entry_of, is_node, link_child, node_number, owns, parent_of,
};

verus! {

/// The children found so far for the directory at `path`, not yet linked.
pub struct Bucket {
    pub path: String,
    pub ids: Vec<NodeId>,
}

/// Whether node `n` waits in one of the buckets.
pub open spec fn pending(bs: Seq<Bucket>, n: nat) -> bool {
    exists|k: int, i: int|
        0 <= k < bs.len() && 0 <= i < bs[k].ids@.len() && #[trigger] node_number(bs[k].ids@[i])
            == n
}

/// The numbers of the nodes in the bucket for `p`, or none where there is no
/// such bucket.
pub open spec fn bucket_for(bs: Seq<Bucket>, p: Seq<char>) -> Seq<nat> {
    if exists|k: int| 0 <= k < bs.len() && #[trigger] bs[k].path@ == p {
        let k = choose|k: int| 0 <= k < bs.len() && #[trigger] bs[k].path@ == p;
        bs[k].ids@.map_values(|id: NodeId| node_number(id))
    } else {
        Seq::empty()
    }
}

/// A node that has no parent and no children.
pub open spec fn loose(a: Arena<Entry>, n: nat) -> bool {
    &&& is_node(a, n)
    &&& parent_of(a, n) is None
    &&& children_of(a, n).len() == 0
}

/// Buckets have distinct paths; each node waits in at most one bucket, is
/// still loose, and is a non-root entry whose parent path is the bucket's.
pub open spec fn buckets_wf(bs: Seq<Bucket>, a: Arena<Entry>) -> bool {
    &&& forall|k1: int, k2: int|
        0 <= k1 < k2 < bs.len() ==> #[trigger] bs[k1].path@ != #[trigger] bs[k2].path@
    &&& forall|k: int, i: int|
        #![trigger bs[k].ids@[i]]
        0 <= k < bs.len() && 0 <= i < bs[k].ids@.len() ==> {
            &&& owns(a, bs[k].ids@[i])
            &&& loose(a, node_number(bs[k].ids@[i]))
            &&& entry_of(a, node_number(bs[k].ids@[i])).parent == Some(bs[k].path@)
            &&& !is_root_entry(entry_of(a, node_number(bs[k].ids@[i])))
        }
    &&& forall|k1: int, i1: int, k2: int, i2: int|
        0 <= k1 < bs.len() && 0 <= i1 < bs[k1].ids@.len() && 0 <= k2 < bs.len() && 0 <= i2
            < bs[k2].ids@.len() && (k1 != k2 || i1 != i2) ==> node_number(
            #[trigger] bs[k1].ids@[i1],
        ) != node_number(#[trigger] bs[k2].ids@[i2])
}

/// Only directories have children.
pub open spec fn dirs_hold_children(a: Arena<Entry>) -> bool {
    forall|n: nat|
        is_node(a, n) && #[trigger] children_of(a, n).len() > 0 ==> entry_of(a, n).is_dir
}

/// Node `n` is none of `ids` from position `lo` on.
pub open spec fn absent_from(ids: Seq<NodeId>, lo: int, n: nat) -> bool {
    forall|k: int| lo <= k < ids.len() ==> node_number(#[trigger] ids[k]) != n
}

/// Some bucket has path `p`.
pub open spec fn has_bucket(bs: Seq<Bucket>, p: Seq<char>) -> bool {
    exists|k: int| 0 <= k < bs.len() && #[trigger] bs[k].path@ == p
}

/// No other node of `a` has the path of node `n`.
pub open spec fn path_unique(a: Arena<Entry>, n: nat) -> bool {
    forall|m: nat| is_node(a, m) && m != n ==> #[trigger] entry_of(a, m).path != entry_of(a, n).path
}

/// Every link joins a child to the node named by its parent path, and no
/// child is a root entry.
pub open spec fn links_sound(a: Arena<Entry>) -> bool {
    forall|c: nat|
        #![trigger parent_of(a, c)]
        is_node(a, c) && parent_of(a, c) is Some ==> {
            &&& entry_of(a, c).parent == Some(entry_of(a, parent_of(a, c)->0).path)
            &&& !is_root_entry(entry_of(a, c))
        }
}


/// The children of each node come in increasing number, that is, in
/// arrival order.
pub open spec fn children_ordered(a: Arena<Entry>) -> bool {
    forall|n: nat, i: int, j: int|
        is_node(a, n) && 0 <= i < j < children_of(a, n).len() ==> #[trigger] children_of(a, n)[i]
            < #[trigger] children_of(a, n)[j]
}

/// The numbers in each bucket increase.
pub open spec fn buckets_ordered(bs: Seq<Bucket>) -> bool {
    forall|k: int, i: int, j: int|
        0 <= k < bs.len() && 0 <= i < j < bs[k].ids@.len() ==> node_number(
            #[trigger] bs[k].ids@[i],
        ) < node_number(#[trigger] bs[k].ids@[j])
}

/// Every node ranks strictly below its parent.
pub open spec fn ranked(a: Arena<Entry>, r: spec_fn(nat) -> nat) -> bool {
    forall|c: nat|
        is_node(a, c) && #[trigger] parent_of(a, c) is Some ==> r(c) < r(parent_of(a, c)->0)
}

/// No chain of parents comes back to where it started: some rank grows
/// strictly from each node to its parent.
pub open spec fn acyclic(a: Arena<Entry>) -> bool {
    exists|r: spec_fn(nat) -> nat| #[trigger] ranked(a, r)
}

/// Linking a parentless node as the last child of another parentless node,
/// above the children it has, keeps children in order and the arena acyclic.
proof fn lemma_link_keeps_shape(a: Arena<Entry>, a2: Arena<Entry>, p: nat, c: nat)
    requires
        arena_wf(a),
        is_node(a, p),
        is_node(a, c),
        p != c,
        parent_of(a, p) is None,
        parent_of(a, c) is None,
        children_ordered(a),
        acyclic(a),
        children_of(a, p).len() == 0 || children_of(a, p).last() < c,
        arena_entries(a2) == arena_entries(a),
        arena_parents(a2) == arena_parents(a).update(c - 1, Some(p)),
        arena_children(a2) == arena_children(a).update(p - 1, children_of(a, p).push(c)),
    ensures
        children_ordered(a2),
        acyclic(a2),
{
    assert forall|n: nat, i: int, j: int|
        is_node(a2, n) && 0 <= i < j < children_of(a2, n).len() implies #[trigger] children_of(
        a2,
        n,
    )[i] < #[trigger] children_of(a2, n)[j] by {
        if n == p {
            let old_len = children_of(a, p).len() as int;
            if j == old_len {
                if i < old_len - 1 {
                    assert(children_of(a, p)[i] < children_of(a, p)[old_len - 1]);
                }
            } else {
                assert(children_of(a, p)[i] < children_of(a, p)[j]);
            }
        } else {
            assert(children_of(a, n)[i] < children_of(a, n)[j]);
        }
    }
    let r = choose|r: spec_fn(nat) -> nat| #[trigger] ranked(a, r);
    let r2 = |n: nat|
        if n == p {
            if r(p) > r(c) {
                r(p)
            } else {
                (r(c) + 1) as nat
            }
        } else {
            r(n)
        };
    assert forall|x: nat| is_node(a2, x) && #[trigger] parent_of(a2, x) is Some implies r2(x) < r2(
        parent_of(a2, x)->0,
    ) by {
        if x != c {
            assert(parent_of(a, x) is Some);
            assert(x != p);
        }
    }
    assert(ranked(a2, r2));
}

/// After `link_child`, the arena stays well formed, and the new link is sound
/// where the child's parent path names the parent.
proof fn lemma_link_keeps_wf(a: Arena<Entry>, a2: Arena<Entry>, p: nat, c: nat)
    requires
        arena_wf(a),
        links_sound(a),
        is_node(a, p),
        is_node(a, c),
        p != c,
        parent_of(a, p) is None,
        parent_of(a, c) is None,
        entry_of(a, c).parent == Some(entry_of(a, p).path),
        !is_root_entry(entry_of(a, c)),
        dirs_hold_children(a),
        entry_of(a, p).is_dir,
        arena_entries(a2) == arena_entries(a),
        arena_ids(a2) == arena_ids(a),
        arena_freed(a2) == arena_freed(a),
        arena_parents(a2) == arena_parents(a).update(c - 1, Some(p)),
        arena_children(a2) == arena_children(a).update(p - 1, children_of(a, p).push(c)),
    ensures
        arena_wf(a2),
        links_sound(a2),
        dirs_hold_children(a2),
{
    assert forall|n: nat| is_node(a2, n) && #[trigger] children_of(a2, n).len() > 0 implies entry_of(
        a2,
        n,
    ).is_dir by {
        if n != p {
            assert(children_of(a2, n) == children_of(a, n));
        }
    }
    assert forall|n: nat, i: int|
        #![trigger children_of(a2, n)[i]]
        is_node(a2, n) && 0 <= i < children_of(a2, n).len() implies {
            &&& is_node(a2, children_of(a2, n)[i])
            &&& parent_of(a2, children_of(a2, n)[i]) == Some(n)
        } by {
        if n != p || i < children_of(a, p).len() {
            let x = children_of(a, n)[i];
            assert(parent_of(a, x) == Some(n));
        }
    }
    assert forall|n: nat, i: int, j: int|
        #![trigger children_of(a2, n)[i], children_of(a2, n)[j]]
        is_node(a2, n) && 0 <= i < j < children_of(a2, n).len() implies children_of(a2, n)[i]
        != children_of(a2, n)[j] by {
        if n == p && j == children_of(a, p).len() {
            let x = children_of(a, p)[i];
            assert(parent_of(a, x) == Some(p));
        } else {
            assert(children_of(a, n)[i] != children_of(a, n)[j]);
        }
    }
    assert forall|x: nat|
        #![trigger parent_of(a2, x)]
        is_node(a2, x) && parent_of(a2, x) is Some implies {
            &&& is_node(a2, parent_of(a2, x)->0)
            &&& children_of(a2, parent_of(a2, x)->0).contains(x)
        } by {
        if x == c {
            assert(children_of(a2, p)[children_of(a, p).len() as int] == c);
        } else {
            let q = parent_of(a, x)->0;
            assert(parent_of(a, x) is Some);
            assert(children_of(a, q).contains(x));
            let i = choose|i: int| 0 <= i < children_of(a, q).len() && children_of(a, q)[i] == x;
            assert(children_of(a2, q)[i] == x);
        }
    }
    assert forall|x: nat|
        #![trigger parent_of(a2, x)]
        is_node(a2, x) && parent_of(a2, x) is Some implies {
            &&& entry_of(a2, x).parent == Some(entry_of(a2, parent_of(a2, x)->0).path)
            &&& !is_root_entry(entry_of(a2, x))
        } by {
        if x != c {
            assert(parent_of(a, x) is Some);
        }
    }
}

/// Taking bucket `k` out keeps the rest well formed, and leaves none of its
/// nodes waiting.
proof fn lemma_remove_bucket(bs: Seq<Bucket>, a: Arena<Entry>, k: int)
    requires
        buckets_wf(bs, a),
        0 <= k < bs.len(),
    ensures
        buckets_wf(bs.remove(k), a),
        forall|n: nat| pending(bs.remove(k), n) ==> pending(bs, n),
        forall|i: int|
            0 <= i < bs[k].ids@.len() ==> !pending(bs.remove(k), node_number(
                #[trigger] bs[k].ids@[i],
            )),
        forall|i: int|
            0 <= i < bs[k].ids@.len() ==> pending(bs, node_number(#[trigger] bs[k].ids@[i])),
        forall|p: Seq<char>|
            p != bs[k].path@ ==> #[trigger] bucket_for(bs.remove(k), p) == bucket_for(bs, p),
{
    let r = bs.remove(k);
    assert forall|k1: int, k2: int| 0 <= k1 < k2 < r.len() implies #[trigger] r[k1].path@
        != #[trigger] r[k2].path@ by {
        let o1 = if k1 < k { k1 } else { k1 + 1 };
        let o2 = if k2 < k { k2 } else { k2 + 1 };
        assert(r[k1] == bs[o1] && r[k2] == bs[o2]);
    }
    assert forall|k1: int, i1: int, k2: int, i2: int|
        0 <= k1 < r.len() && 0 <= i1 < r[k1].ids@.len() && 0 <= k2 < r.len() && 0 <= i2
            < r[k2].ids@.len() && (k1 != k2 || i1 != i2) implies node_number(
        #[trigger] r[k1].ids@[i1],
    ) != node_number(#[trigger] r[k2].ids@[i2]) by {
        let o1 = if k1 < k { k1 } else { k1 + 1 };
        let o2 = if k2 < k { k2 } else { k2 + 1 };
        assert(r[k1] == bs[o1] && r[k2] == bs[o2]);
        assert(bs[o1].ids@[i1] == r[k1].ids@[i1]);
        assert(bs[o2].ids@[i2] == r[k2].ids@[i2]);
    }
    assert forall|k1: int, i: int|
        #![trigger r[k1].ids@[i]]
        0 <= k1 < r.len() && 0 <= i < r[k1].ids@.len() implies {
            &&& loose(a, node_number(r[k1].ids@[i]))
            &&& entry_of(a, node_number(r[k1].ids@[i])).parent == Some(r[k1].path@)
            &&& !is_root_entry(entry_of(a, node_number(r[k1].ids@[i])))
        } by {
        let o1 = if k1 < k { k1 } else { k1 + 1 };
        assert(r[k1] == bs[o1]);
        assert(bs[o1].ids@[i] == r[k1].ids@[i]);
    }
    assert forall|n: nat| pending(r, n) implies pending(bs, n) by {
        let (k1, i) = choose|k1: int, i: int|
            0 <= k1 < r.len() && 0 <= i < r[k1].ids@.len() && #[trigger] node_number(
                r[k1].ids@[i],
            ) == n;
        let o1 = if k1 < k { k1 } else { k1 + 1 };
        assert(r[k1] == bs[o1]);
        assert(node_number(bs[o1].ids@[i]) == n);
    }
    assert forall|i: int| 0 <= i < bs[k].ids@.len() implies !pending(
        r,
        node_number(#[trigger] bs[k].ids@[i]),
    ) by {
        if pending(r, node_number(bs[k].ids@[i])) {
            let (k1, i1) = choose|k1: int, i1: int|
                0 <= k1 < r.len() && 0 <= i1 < r[k1].ids@.len() && #[trigger] node_number(
                    r[k1].ids@[i1],
                ) == node_number(bs[k].ids@[i]);
            let o1 = if k1 < k { k1 } else { k1 + 1 };
            assert(r[k1] == bs[o1]);
            assert(node_number(bs[o1].ids@[i1]) == node_number(bs[k].ids@[i]));
        }
    }
    assert forall|i: int| 0 <= i < bs[k].ids@.len() implies pending(
        bs,
        node_number(#[trigger] bs[k].ids@[i]),
    ) by {
        assert(node_number(bs[k].ids@[i]) == node_number(bs[k].ids@[i]));
    }
    assert forall|p: Seq<char>| p != bs[k].path@ implies #[trigger] bucket_for(r, p)
        == bucket_for(bs, p) by {
        if exists|k2: int| 0 <= k2 < bs.len() && #[trigger] bs[k2].path@ == p {
            let k2 = choose|k2: int| 0 <= k2 < bs.len() && #[trigger] bs[k2].path@ == p;
            let r2 = if k2 < k { k2 } else { k2 - 1 };
            assert(r[r2] == bs[k2]);
            lemma_bucket_for(bs, k2, p);
            lemma_bucket_for(r, r2, p);
        } else {
            assert forall|k2: int| 0 <= k2 < r.len() implies #[trigger] r[k2].path@ != p by {
                let o = if k2 < k { k2 } else { k2 + 1 };
                assert(r[k2] == bs[o]);
            }
        }
    }
}

/// A waiting node is a node of the arena.
proof fn lemma_pending_is_node(bs: Seq<Bucket>, a: Arena<Entry>, n: nat)
    requires
        buckets_wf(bs, a),
        pending(bs, n),
    ensures
        is_node(a, n),
{
    let (k, i) = choose|k: int, i: int|
        0 <= k < bs.len() && 0 <= i < bs[k].ids@.len() && #[trigger] node_number(bs[k].ids@[i])
            == n;
    assert(loose(a, node_number(bs[k].ids@[i])));
}

/// Taking a bucket out keeps the rest in order.
proof fn lemma_remove_keeps_order(bs: Seq<Bucket>, k: int)
    requires
        buckets_ordered(bs),
        0 <= k < bs.len(),
    ensures
        buckets_ordered(bs.remove(k)),
{
    let r = bs.remove(k);
    assert forall|k1: int, i: int, j: int|
        0 <= k1 < r.len() && 0 <= i < j < r[k1].ids@.len() implies node_number(
        #[trigger] r[k1].ids@[i],
    ) < node_number(#[trigger] r[k1].ids@[j]) by {
        let o = if k1 < k { k1 } else { k1 + 1 };
        assert(r[k1] == bs[o]);
        assert(node_number(bs[o].ids@[i]) < node_number(bs[o].ids@[j]));
    }
}

/// Takes out the bucket for `path` and returns its nodes; none where there is
/// no such bucket.
fn take_bucket(bs: &mut Vec<Bucket>, path: &String) -> (r: Vec<NodeId>)
    ensures
        (exists|k: int|
            0 <= k < old(bs)@.len() && old(bs)@[k].path@ == path@ && final(bs)@ == old(
                bs,
            )@.remove(k) && r@ == old(bs)@[k].ids@) || (final(bs)@ == old(bs)@ && r@.len() == 0
            && forall|k: int| 0 <= k < old(bs)@.len() ==> old(bs)@[k].path@ != path@),
{
    let mut k: usize = 0;
    while k < bs.len()
        invariant
            bs@ == old(bs)@,
            k <= bs@.len(),
            forall|m: int| 0 <= m < k ==> bs@[m].path@ != path@,
        decreases bs@.len() - k,
    {
        if bs[k].path == *path {
            let b = bs.remove(k);
            return b.ids;
        }
        k += 1;
    }
    Vec::new()
}

/// The bucket for `p` in buckets with distinct paths is the one whose path is `p`.
pub(crate) proof fn lemma_bucket_for(bs: Seq<Bucket>, k: int, p: Seq<char>)
    requires
        forall|k1: int, k2: int|
            0 <= k1 < k2 < bs.len() ==> #[trigger] bs[k1].path@ != #[trigger] bs[k2].path@,
        0 <= k < bs.len(),
        bs[k].path@ == p,
    ensures
        bucket_for(bs, p) == bs[k].ids@.map_values(|id: NodeId| node_number(id)),
{
    assert(bs[k].path@ == p);
    let k2 = choose|k2: int| 0 <= k2 < bs.len() && #[trigger] bs[k2].path@ == p;
    assert(k2 == k);
}


/// Links to `current`, in bucket order, the nodes of the bucket for its path,
/// after it has done the same for each of them that is a directory, so that a
/// directory is complete before it is linked to its parent. Buckets are taken
/// out as they are used.
pub(crate) fn assemble_tree(tree: &mut Arena<Entry>, current: NodeId, branches: &mut Vec<Bucket>)
    requires
        arena_wf(*old(tree)),
        links_sound(*old(tree)),
        buckets_wf(old(branches)@, *old(tree)),
        loose(*old(tree), node_number(current)),
        owns(*old(tree), current),
        !pending(old(branches)@, node_number(current)),
        entry_of(*old(tree), node_number(current)).is_dir,
        dirs_hold_children(*old(tree)),
        children_ordered(*old(tree)),
        acyclic(*old(tree)),
        buckets_ordered(old(branches)@),
    ensures
        children_ordered(*final(tree)),
        acyclic(*final(tree)),
        buckets_ordered(final(branches)@),
        forall|k: int|
            0 <= k < final(branches)@.len() ==> old(branches)@.contains(
                #[trigger] final(branches)@[k],
            ),
        !has_bucket(final(branches)@, entry_of(*old(tree), node_number(current)).path),
        forall|n: nat|
            pending(old(branches)@, n) && !pending(final(branches)@, n) && #[trigger] entry_of(
                *old(tree),
                n,
            ).is_dir ==> !has_bucket(final(branches)@, entry_of(*old(tree), n).path),
        forall|n: nat|
            pending(old(branches)@, n) && !pending(final(branches)@, n) ==> #[trigger] parent_of(
                *final(tree),
                n,
            ) is Some,
        forall|n: nat|
            #![trigger parent_of(*final(tree), n)]
            #![trigger children_of(*final(tree), n)]
            is_node(*old(tree), n) && n != node_number(current) && !(pending(old(branches)@, n)
                && !pending(final(branches)@, n)) ==> parent_of(*final(tree), n) == parent_of(
                *old(tree),
                n,
            ) && children_of(*final(tree), n) == children_of(*old(tree), n),
        forall|p: Seq<char>|
            #[trigger] bucket_for(final(branches)@, p) != bucket_for(old(branches)@, p)
                ==> !has_bucket(final(branches)@, p),
        arena_wf(*final(tree)),
        dirs_hold_children(*final(tree)),
        arena_ids(*final(tree)) == arena_ids(*old(tree)),
        links_sound(*final(tree)),
        arena_entries(*final(tree)) == arena_entries(*old(tree)),
        buckets_wf(final(branches)@, *final(tree)),
        forall|n: nat| pending(final(branches)@, n) ==> pending(old(branches)@, n),
        final(branches)@.len() <= old(branches)@.len(),
        parent_of(*final(tree), node_number(current)) is None,
        children_of(*final(tree), node_number(current)) == bucket_for(
            old(branches)@,
            entry_of(*old(tree), node_number(current)).path,
        ),
        forall|n: nat|
            #![trigger parent_of(*final(tree), n)]
            #![trigger children_of(*final(tree), n)]
            is_node(*old(tree), n) && n != node_number(current) && !pending(old(branches)@, n)
                ==> parent_of(*final(tree), n) == parent_of(*old(tree), n) && children_of(
                *final(tree),
                n,
            ) == children_of(*old(tree), n),
        forall|n: nat|
            is_node(*old(tree), n) && path_unique(*old(tree), n) && pending(old(branches)@, n)
                && !pending(final(branches)@, n) && #[trigger] entry_of(*old(tree), n).is_dir
                ==> children_of(*final(tree), n) == bucket_for(
                old(branches)@,
                entry_of(*old(tree), n).path,
            ),
        forall|p: Seq<char>|
            #[trigger] bucket_for(final(branches)@, p) != bucket_for(old(branches)@, p) ==> exists|
                m: nat,
            |
                is_node(*old(tree), m) && #[trigger] entry_of(*old(tree), m).path == p && (m
                    == node_number(current) || (pending(old(branches)@, m) && !pending(
                    final(branches)@,
                    m,
                ) && entry_of(*old(tree), m).is_dir)),
    decreases old(branches)@.len(),
{
    let ghost cur = node_number(current);
    let cur_path = entry_at(tree, current).path.clone();
    let ghost b0 = branches@;
    let ids = take_bucket(branches, &cur_path);
    let ghost b1 = branches@;
    let ghost t0 = *tree;
    proof {
        if ids@.len() > 0 || exists|k: int|
            0 <= k < b0.len() && b0[k].path@ == cur_path@ && b1 == b0.remove(k) && ids@
                == b0[k].ids@ {
            let k = choose|k: int|
                0 <= k < b0.len() && b0[k].path@ == cur_path@ && b1 == b0.remove(k) && ids@
                    == b0[k].ids@;
            lemma_remove_bucket(b0, t0, k);
            lemma_remove_keeps_order(b0, k);
            assert forall|j1: int, j2: int|
                0 <= j1 < j2 < ids@.len() implies node_number(#[trigger] ids@[j1]) < node_number(
                #[trigger] ids@[j2],
            ) by {
                assert(ids@[j1] == b0[k].ids@[j1]);
                assert(ids@[j2] == b0[k].ids@[j2]);
            }
            lemma_bucket_for(b0, k, cur_path@);
            assert forall|j: int| 0 <= j < ids@.len() implies {
                &&& loose(t0, node_number(#[trigger] ids@[j]))
                &&& entry_of(t0, node_number(ids@[j])).parent == Some(cur_path@)
                &&& !is_root_entry(entry_of(t0, node_number(ids@[j])))
                &&& !pending(b1, node_number(ids@[j]))
                &&& pending(b0, node_number(ids@[j]))
            } by {
                assert(ids@[j] == b0[k].ids@[j]);
            }
            assert forall|j1: int, j2: int|
                0 <= j1 < j2 < ids@.len() implies node_number(#[trigger] ids@[j1])
                != node_number(#[trigger] ids@[j2]) by {
                assert(ids@[j1] == b0[k].ids@[j1]);
                assert(ids@[j2] == b0[k].ids@[j2]);
            }
        } else {
            assert(bucket_for(b0, cur_path@) =~= Seq::<nat>::empty());
        }
        assert(ids@.map_values(|id: NodeId| node_number(id)) == bucket_for(b0, cur_path@));
        assert(forall|n: nat| pending(b1, n) ==> pending(b0, n));
        assert forall|k: int| 0 <= k < b1.len() implies b0.contains(#[trigger] b1[k]) by {
            if b1 != b0 {
                let k0 = choose|k0: int|
                    0 <= k0 < b0.len() && b0[k0].path@ == cur_path@ && b1 == b0.remove(k0) && ids@
                        == b0[k0].ids@;
                let o = if k < k0 { k } else { k + 1 };
                assert(b1[k] == b0[o]);
            } else {
                assert(b1[k] == b0[k]);
            }
        }
        assert(!has_bucket(b1, cur_path@)) by {
            if has_bucket(b1, cur_path@) {
                let k = choose|k: int| 0 <= k < b1.len() && #[trigger] b1[k].path@ == cur_path@;
                if b1 != b0 {
                    let k0 = choose|k0: int|
                        0 <= k0 < b0.len() && b0[k0].path@ == cur_path@ && b1 == b0.remove(k0)
                            && ids@ == b0[k0].ids@;
                    let o = if k < k0 { k } else { k + 1 };
                    assert(b1[k] == b0[o]);
                    assert(b0[o].path@ != b0[k0].path@);
                } else {
                    assert(b0[k].path@ == cur_path@);
                }
            }
        }
        assert forall|n: nat| pending(b0, n) && !pending(b1, n) implies exists|j: int|
            0 <= j < ids@.len() && node_number(#[trigger] ids@[j]) == n by {
            let (k0, i0) = choose|k0: int, i0: int|
                0 <= k0 < b0.len() && 0 <= i0 < b0[k0].ids@.len() && #[trigger] node_number(
                    b0[k0].ids@[i0],
                ) == n;
            if b1 == b0 {
                assert(node_number(b1[k0].ids@[i0]) == n);
            } else {
                let k = choose|k: int|
                    0 <= k < b0.len() && b0[k].path@ == cur_path@ && b1 == b0.remove(k) && ids@
                        == b0[k].ids@;
                if k0 != k {
                    let r0 = if k0 < k { k0 } else { k0 - 1 };
                    assert(b1[r0] == b0[k0]);
                    assert(node_number(b1[r0].ids@[i0]) == n);
                } else {
                    assert(node_number(ids@[i0]) == n);
                }
            }
        }
        assert forall|p: Seq<char>| #[trigger] bucket_for(b1, p) != bucket_for(b0, p) implies exists|
            m: nat,
        |
            is_node(t0, m) && #[trigger] entry_of(t0, m).path == p && (m == cur || (pending(b0, m)
                && !pending(b1, m) && entry_of(t0, m).is_dir && forall|j: int|
                0 <= j < ids@.len() ==> node_number(#[trigger] ids@[j]) != m)) by {
            assert(is_node(t0, cur) && entry_of(t0, cur).path == p);
        }
    }
    let mut i: usize = 0;
    while i < ids.len()
        invariant
            0 <= i <= ids@.len(),
            arena_wf(*tree),
            links_sound(*tree),
            arena_entries(*tree) == arena_entries(t0),
            arena_ids(*tree) == arena_ids(t0),
            dirs_hold_children(*tree),
            entry_of(t0, node_number(current)).is_dir,
            children_ordered(*tree),
            acyclic(*tree),
            buckets_ordered(branches@),
            forall|j1: int, j2: int|
                0 <= j1 < j2 < ids@.len() ==> node_number(#[trigger] ids@[j1]) < node_number(
                    #[trigger] ids@[j2],
                ),
            owns(*tree, current),
            forall|j: int| 0 <= j < ids@.len() ==> owns(*tree, #[trigger] ids@[j]),
            buckets_wf(branches@, *tree),
            forall|n: nat| pending(branches@, n) ==> pending(b1, n),
            branches@.len() <= b1.len(),
            b1.len() <= b0.len(),
            b1.len() < b0.len() || ids@.len() == 0,
            b0 == old(branches)@,
            t0 == *old(tree),
            cur_path@ == entry_of(t0, cur).path,
            forall|n: nat| pending(b1, n) ==> pending(b0, n),
            cur == node_number(current),
            loose(*tree, cur),
            !pending(b0, cur),
            forall|j: int| i <= j < ids@.len() ==> loose(*tree, node_number(#[trigger] ids@[j])),
            forall|j: int|
                0 <= j < ids@.len() ==> {
                    &&& is_node(*tree, node_number(#[trigger] ids@[j]))
                    &&& parent_of(*tree, node_number(ids@[j])) is None
                    &&& entry_of(t0, node_number(ids@[j])).parent == Some(cur_path@)
                    &&& !is_root_entry(entry_of(t0, node_number(ids@[j])))
                    &&& !pending(b1, node_number(ids@[j]))
                    &&& pending(b0, node_number(ids@[j]))
                },
            forall|j1: int, j2: int|
                0 <= j1 < j2 < ids@.len() ==> node_number(#[trigger] ids@[j1]) != node_number(
                    #[trigger] ids@[j2],
                ),
            forall|n: nat|
                #![trigger parent_of(*tree, n)]
                #![trigger children_of(*tree, n)]
                is_node(t0, n) && n != cur && !pending(b0, n) ==> parent_of(*tree, n)
                    == parent_of(t0, n) && children_of(*tree, n) == children_of(t0, n),
            forall|n: nat|
                is_node(t0, n) && path_unique(t0, n) && pending(b0, n) && !pending(branches@, n)
                    && #[trigger] entry_of(t0, n).is_dir && (forall|j: int|
                    i <= j < ids@.len() ==> node_number(#[trigger] ids@[j]) != n) ==> children_of(
                    *tree,
                    n,
                ) == bucket_for(b0, entry_of(t0, n).path),
            forall|p: Seq<char>|
                #[trigger] bucket_for(branches@, p) != bucket_for(b0, p) ==> exists|m: nat|
                    is_node(t0, m) && #[trigger] entry_of(t0, m).path == p && (m == cur || (
                    pending(b0, m) && !pending(branches@, m) && entry_of(t0, m).is_dir && forall|
                        j: int,
                    |
                        i <= j < ids@.len() ==> node_number(#[trigger] ids@[j]) != m)),
            forall|k: int| 0 <= k < branches@.len() ==> b1.contains(#[trigger] branches@[k]),
            !has_bucket(branches@, cur_path@),
            buckets_wf(b0, t0),
            forall|n: nat|
                pending(b0, n) && !pending(branches@, n) && #[trigger] entry_of(t0, n).is_dir
                    && absent_from(ids@, i as int, n) ==> !has_bucket(
                    branches@,
                    entry_of(t0, n).path,
                ),
            forall|n: nat|
                pending(b0, n) && !pending(branches@, n) && absent_from(ids@, 0, n)
                    ==> #[trigger] parent_of(*tree, n) is Some,
        decreases ids@.len() - i,
    {
        let child = ids[i];
        let e = entry_at(tree, child);
        if e.is_dir {
            let ghost t1 = *tree;
            let ghost b2 = branches@;
            assemble_tree(tree, child, branches);
            assert(children_of(*tree, cur) == children_of(t1, cur));
            assert forall|j: int| i < j < ids@.len() implies loose(
                *tree,
                node_number(#[trigger] ids@[j]),
            ) by {
                assert(!pending(b2, node_number(ids@[j])));
                assert(parent_of(*tree, node_number(ids@[j])) == parent_of(t1, node_number(ids@[j])));
                assert(children_of(*tree, node_number(ids@[j])) == children_of(t1, node_number(ids@[j])));
            }
            assert forall|j: int| 0 <= j < ids@.len() implies parent_of(*tree, node_number(#[trigger] ids@[j])) is None by {
                if j != i {
                    assert(!pending(b2, node_number(ids@[j])));
                    assert(parent_of(*tree, node_number(ids@[j])) == parent_of(t1, node_number(ids@[j])));
                }
            }
            assert forall|n: nat|
                is_node(t0, n) && n != cur && !pending(b0, n) implies #[trigger] parent_of(*tree, n)
                    == parent_of(t0, n) && children_of(*tree, n) == children_of(t0, n) by {
                assert(!pending(b2, n));
                assert(parent_of(t1, n) == parent_of(t0, n));
                assert(children_of(t1, n) == children_of(t0, n));
            }
            let ghost b3 = branches@;
            let ghost cn = node_number(child);
            assert forall|n: nat|
                pending(b0, n) && !pending(b3, n) && absent_from(ids@, 0, n) implies #[trigger] parent_of(
                *tree,
                n,
            ) is Some by {
                if !pending(b2, n) {
                    assert(node_number(ids@[i as int]) != n);
                    assert(parent_of(t1, n) is Some);
                    lemma_pending_is_node(b0, t0, n);
                    assert(parent_of(*tree, n) == parent_of(t1, n));
                }
            }
            assert forall|n: nat|
                pending(b0, n) && !pending(b3, n) && #[trigger] entry_of(t0, n).is_dir
                    && absent_from(ids@, i + 1, n) implies !has_bucket(
                b3,
                entry_of(t0, n).path,
            ) by {
                let pn = entry_of(t0, n).path;
                assert(entry_of(t1, n) == entry_of(t0, n));
                if n == cn {
                } else if pending(b2, n) {
                } else {
                    assert forall|j: int| i <= j < ids@.len() implies node_number(
                        #[trigger] ids@[j],
                    ) != n by {
                        if j == i {
                            assert(n != cn);
                        }
                    }
                    assert(absent_from(ids@, i as int, n));
                    assert(!has_bucket(b2, pn));
                    if has_bucket(b3, pn) {
                        let k = choose|k: int| 0 <= k < b3.len() && #[trigger] b3[k].path@ == pn;
                        assert(b2.contains(b3[k]));
                        let k2 = choose|k2: int| 0 <= k2 < b2.len() && b2[k2] == b3[k];
                        assert(b2[k2].path@ == pn);
                    }
                }
            }
            assert forall|p: Seq<char>| #[trigger] bucket_for(b3, p) != bucket_for(b0, p) implies exists|
                m: nat,
            |
                is_node(t0, m) && #[trigger] entry_of(t0, m).path == p && (m == cur || (pending(
                    b0,
                    m,
                ) && !pending(b3, m) && entry_of(t0, m).is_dir && forall|j: int|
                    i + 1 <= j < ids@.len() ==> node_number(#[trigger] ids@[j]) != m)) by {
                if bucket_for(b3, p) != bucket_for(b2, p) {
                    let m = choose|m: nat|
                        is_node(t1, m) && #[trigger] entry_of(t1, m).path == p && (m == cn || (
                        pending(b2, m) && !pending(b3, m) && entry_of(t1, m).is_dir));
                    assert(entry_of(t1, m) == entry_of(t0, m));
                    if m != cn {
                        assert forall|j: int| i + 1 <= j < ids@.len() implies node_number(
                            #[trigger] ids@[j],
                        ) != m by {
                            assert(!pending(b1, node_number(ids@[j])));
                        }
                    }
                    assert(is_node(t0, m) && entry_of(t0, m).path == p);
                } else {
                    let m = choose|m: nat|
                        is_node(t0, m) && #[trigger] entry_of(t0, m).path == p && (m == cur || (
                        pending(b0, m) && !pending(b2, m) && entry_of(t0, m).is_dir && forall|
                            j: int,
                        |
                            i <= j < ids@.len() ==> node_number(#[trigger] ids@[j]) != m));
                    assert(is_node(t0, m) && entry_of(t0, m).path == p);
                }
            }
            assert forall|n: nat|
                is_node(t0, n) && path_unique(t0, n) && pending(b0, n) && !pending(b3, n)
                    && #[trigger] entry_of(t0, n).is_dir && (forall|j: int|
                    i + 1 <= j < ids@.len() ==> node_number(#[trigger] ids@[j]) != n) implies children_of(
                    *tree,
                    n,
                ) == bucket_for(b0, entry_of(t0, n).path) by {
                let pn = entry_of(t0, n).path;
                assert(entry_of(t1, n) == entry_of(t0, n));
                assert forall|m: nat| is_node(t1, m) && m != n implies #[trigger] entry_of(t1, m).path
                    != entry_of(t1, n).path by {
                    assert(entry_of(t1, m) == entry_of(t0, m));
                }
                assert(path_unique(t1, n));
                if n == cn {
                    assert(children_of(*tree, n) == bucket_for(b2, pn));
                } else if pending(b2, n) {
                    assert(children_of(*tree, n) == bucket_for(b2, pn));
                }
                if n == cn || pending(b2, n) {
                    if bucket_for(b2, pn) != bucket_for(b0, pn) {
                        let m = choose|m: nat|
                            is_node(t0, m) && #[trigger] entry_of(t0, m).path == pn && (m == cur || (
                            pending(b0, m) && !pending(b2, m) && entry_of(t0, m).is_dir && forall|
                                j: int,
                            |
                                i <= j < ids@.len() ==> node_number(#[trigger] ids@[j]) != m));
                        if m == cur {
                            assert(m != n);
                        } else {
                            assert(m != n) by {
                                if n == cn {
                                    assert(node_number(ids@[i as int]) != m);
                                }
                            }
                        }
                        assert(entry_of(t0, m).path != entry_of(t0, n).path);
                    }
                    assert(entry_of(t1, n) == entry_of(t0, n));
                } else {
                    assert(n != cn);
                    assert forall|j: int| i <= j < ids@.len() implies node_number(
                        #[trigger] ids@[j],
                    ) != n by {
                        if j == i {
                            assert(n != cn);
                        }
                    }
                    assert(children_of(t1, n) == bucket_for(b0, pn));
                    assert(children_of(*tree, n) == children_of(t1, n));
                }
            }
        } else {
            proof {
                assert forall|n: nat|
                    is_node(t0, n) && path_unique(t0, n) && pending(b0, n) && !pending(branches@, n)
                        && #[trigger] entry_of(t0, n).is_dir && (forall|j: int|
                        i + 1 <= j < ids@.len() ==> node_number(#[trigger] ids@[j]) != n) implies children_of(
                        *tree,
                        n,
                    ) == bucket_for(b0, entry_of(t0, n).path) by {
                    assert forall|j: int| i <= j < ids@.len() implies node_number(
                        #[trigger] ids@[j],
                    ) != n by {
                        if j == i {
                            assert(entry_of(t0, node_number(ids@[i as int])) == e@);
                        }
                    }
                    assert(absent_from(ids@, i as int, n));
                }
                assert forall|n: nat|
                    pending(b0, n) && !pending(branches@, n) && #[trigger] entry_of(t0, n).is_dir
                        && absent_from(ids@, i + 1, n) implies !has_bucket(
                    branches@,
                    entry_of(t0, n).path,
                ) by {
                    assert forall|j: int| i <= j < ids@.len() implies node_number(
                        #[trigger] ids@[j],
                    ) != n by {
                        if j == i {
                            assert(entry_of(t0, node_number(ids@[i as int])) == e@);
                        }
                    }
                    assert(absent_from(ids@, i as int, n));
                }
                assert forall|p: Seq<char>| #[trigger] bucket_for(branches@, p) != bucket_for(b0, p) implies exists|
                    m: nat,
                |
                    is_node(t0, m) && #[trigger] entry_of(t0, m).path == p && (m == cur || (pending(
                        b0,
                        m,
                    ) && !pending(branches@, m) && entry_of(t0, m).is_dir && forall|j: int|
                        i + 1 <= j < ids@.len() ==> node_number(#[trigger] ids@[j]) != m)) by {
                    let m = choose|m: nat|
                        is_node(t0, m) && #[trigger] entry_of(t0, m).path == p && (m == cur || (
                        pending(b0, m) && !pending(branches@, m) && entry_of(t0, m).is_dir && forall|
                            j: int,
                        |
                            i <= j < ids@.len() ==> node_number(#[trigger] ids@[j]) != m));
                    assert(is_node(t0, m) && entry_of(t0, m).path == p);
                }
            }
        }
        i += 1;
    }
    proof {
        assert forall|p: Seq<char>| #[trigger] bucket_for(branches@, p) != bucket_for(b0, p) implies exists|
            m: nat,
        |
            is_node(t0, m) && #[trigger] entry_of(t0, m).path == p && (m == cur || (pending(b0, m)
                && !pending(branches@, m) && entry_of(t0, m).is_dir)) by {
            let m = choose|m: nat|
                is_node(t0, m) && #[trigger] entry_of(t0, m).path == p && (m == cur || (pending(
                    b0,
                    m,
                ) && !pending(branches@, m) && entry_of(t0, m).is_dir && forall|j: int|
                    i <= j < ids@.len() ==> node_number(#[trigger] ids@[j]) != m));
            assert(is_node(t0, m) && entry_of(t0, m).path == p);
        }
    }
    let mut j: usize = 0;
    while j < ids.len()
        invariant
            0 <= j <= ids@.len(),
            arena_wf(*tree),
            links_sound(*tree),
            arena_entries(*tree) == arena_entries(t0),
            arena_ids(*tree) == arena_ids(t0),
            dirs_hold_children(*tree),
            entry_of(t0, node_number(current)).is_dir,
            children_ordered(*tree),
            acyclic(*tree),
            buckets_ordered(branches@),
            forall|j1: int, j2: int|
                0 <= j1 < j2 < ids@.len() ==> node_number(#[trigger] ids@[j1]) < node_number(
                    #[trigger] ids@[j2],
                ),
            owns(*tree, current),
            forall|j: int| 0 <= j < ids@.len() ==> owns(*tree, #[trigger] ids@[j]),
            buckets_wf(branches@, *tree),
            forall|n: nat| pending(branches@, n) ==> pending(b1, n),
            b0 == old(branches)@,
            t0 == *old(tree),
            cur_path@ == entry_of(t0, cur).path,
            forall|n: nat| pending(b1, n) ==> pending(b0, n),
            cur == node_number(current),
            is_node(*tree, cur),
            parent_of(*tree, cur) is None,
            !pending(b0, cur),
            children_of(*tree, cur) == ids@.take(j as int).map_values(|id: NodeId| node_number(id)),
            forall|k: int|
                0 <= k < ids@.len() ==> {
                    &&& is_node(*tree, node_number(#[trigger] ids@[k]))
                    &&& entry_of(t0, node_number(ids@[k])).parent == Some(cur_path@)
                    &&& !is_root_entry(entry_of(t0, node_number(ids@[k])))
                    &&& !pending(b1, node_number(ids@[k]))
                    &&& pending(b0, node_number(ids@[k]))
                },
            forall|k: int| j <= k < ids@.len() ==> parent_of(*tree, node_number(#[trigger] ids@[k])) is None,
            forall|n: nat|
                is_node(t0, n) && path_unique(t0, n) && pending(b0, n) && !pending(branches@, n)
                    && #[trigger] entry_of(t0, n).is_dir ==> children_of(*tree, n) == bucket_for(
                    b0,
                    entry_of(t0, n).path,
                ),
            forall|p: Seq<char>|
                #[trigger] bucket_for(branches@, p) != bucket_for(b0, p) ==> exists|m: nat|
                    is_node(t0, m) && #[trigger] entry_of(t0, m).path == p && (m == cur || (
                    pending(b0, m) && !pending(branches@, m) && entry_of(t0, m).is_dir)),
            forall|j1: int, j2: int|
                0 <= j1 < j2 < ids@.len() ==> node_number(#[trigger] ids@[j1]) != node_number(
                    #[trigger] ids@[j2],
                ),
            forall|n: nat|
                #![trigger parent_of(*tree, n)]
                #![trigger children_of(*tree, n)]
                is_node(t0, n) && n != cur && !pending(b0, n) ==> parent_of(*tree, n)
                    == parent_of(t0, n) && children_of(*tree, n) == children_of(t0, n),
            forall|k: int| 0 <= k < branches@.len() ==> b1.contains(#[trigger] branches@[k]),
            !has_bucket(branches@, cur_path@),
            buckets_wf(b0, t0),
            forall|n: nat|
                pending(b0, n) && !pending(branches@, n) && #[trigger] entry_of(t0, n).is_dir
                    ==> !has_bucket(branches@, entry_of(t0, n).path),
            forall|n: nat|
                pending(b0, n) && !pending(branches@, n) && absent_from(ids@, j as int, n)
                    ==> #[trigger] parent_of(*tree, n) is Some,
        decreases ids@.len() - j,
    {
        let ghost t3 = *tree;
        let ghost c = node_number(ids@[j as int]);
        link_child(current, ids[j], tree);
        proof {
            if j > 0 {
                assert(children_of(t3, cur).last() == node_number(ids@[j - 1]));
                assert(node_number(ids@[j - 1]) < node_number(ids@[j as int]));
            }
            lemma_link_keeps_shape(t3, *tree, cur, c);
            lemma_link_keeps_wf(t3, *tree, cur, c);
            assert forall|n: nat|
                pending(b0, n) && !pending(branches@, n) && absent_from(ids@, j + 1, n) implies #[trigger] parent_of(
                *tree,
                n,
            ) is Some by {
                if n != c {
                    assert forall|k: int| j <= k < ids@.len() implies node_number(
                        #[trigger] ids@[k],
                    ) != n by {
                        if k == j {
                            assert(n != c);
                        }
                    }
                    assert(absent_from(ids@, j as int, n));
                    lemma_pending_is_node(b0, t0, n);
                    assert(parent_of(t3, n) is Some);
                    assert(parent_of(*tree, n) == parent_of(t3, n));
                }
            }
            assert(ids@.take(j + 1).map_values(|id: NodeId| node_number(id)) =~= ids@.take(
                j as int,
            ).map_values(|id: NodeId| node_number(id)).push(c));
            assert forall|k: int| j < k < ids@.len() implies parent_of(*tree, node_number(#[trigger] ids@[k])) is None by {
                assert(node_number(ids@[k]) != c);
            }
            assert forall|k1: int, i1: int|
                #![trigger branches@[k1].ids@[i1]]
                0 <= k1 < branches@.len() && 0 <= i1 < branches@[k1].ids@.len() implies
                    loose(*tree, node_number(branches@[k1].ids@[i1])) by {
                let n = node_number(branches@[k1].ids@[i1]);
                assert(pending(branches@, n));
                assert(n != c);
            }
            assert forall|n: nat|
                is_node(t0, n) && n != cur && !pending(b0, n) implies #[trigger] parent_of(*tree, n)
                    == parent_of(t0, n) && children_of(*tree, n) == children_of(t0, n) by {
                assert(pending(b0, node_number(ids@[j as int])));
                assert(n != c);
                assert(parent_of(t3, n) == parent_of(t0, n));
                assert(children_of(t3, n) == children_of(t0, n));
                assert(parent_of(*tree, n) == parent_of(t3, n));
                assert(children_of(*tree, n) == children_of(t3, n));
            }
            assert forall|n: nat|
                is_node(t0, n) && path_unique(t0, n) && pending(b0, n) && !pending(branches@, n)
                    && #[trigger] entry_of(t0, n).is_dir implies children_of(*tree, n) == bucket_for(
                    b0,
                    entry_of(t0, n).path,
                ) by {
                assert(n != cur);
                assert(children_of(*tree, n) == children_of(t3, n));
            }
        }
        j += 1;
    }
    proof {
        assert(ids@.take(ids@.len() as int) =~= ids@);
        assert forall|n: nat|
            is_node(t0, n) && n != cur && !(pending(b0, n) && !pending(branches@, n)) implies #[trigger] parent_of(
            *tree,
            n,
        ) == parent_of(t0, n) && children_of(*tree, n) == children_of(t0, n) by {
            if pending(branches@, n) {
                let (k, i) = choose|k: int, i: int|
                    0 <= k < branches@.len() && 0 <= i < branches@[k].ids@.len()
                        && #[trigger] node_number(branches@[k].ids@[i]) == n;
                assert(loose(*tree, node_number(branches@[k].ids@[i])));
                let (k0, i0) = choose|k0: int, i0: int|
                    0 <= k0 < b0.len() && 0 <= i0 < b0[k0].ids@.len() && #[trigger] node_number(
                        b0[k0].ids@[i0],
                    ) == n;
                assert(loose(t0, node_number(b0[k0].ids@[i0])));
                assert(children_of(*tree, n) =~= children_of(t0, n));
            }
        }
        assert forall|p: Seq<char>| #[trigger] bucket_for(branches@, p) != bucket_for(b0, p) implies !has_bucket(
            branches@,
            p,
        ) by {
            if has_bucket(branches@, p) {
                let k = choose|k: int| 0 <= k < branches@.len() && #[trigger] branches@[k].path@ == p;
                assert(b0.contains(branches@[k]));
                let k0 = choose|k0: int| 0 <= k0 < b0.len() && b0[k0] == branches@[k];
                lemma_bucket_for(b0, k0, p);
                lemma_bucket_for(branches@, k, p);
            }
        }
    }
}


/// A directory hierarchy: an arena of entries, and the node that is its root.
#[derive(Debug)]
pub struct Tree {
    inner: Arena<Entry>,
    root: NodeId,
}

impl Tree {
    /// The arena of the tree.
    pub closed spec fn arena(&self) -> Arena<Entry> {
        self.inner
    }

    /// The identifier of the root node.
    pub closed spec fn root_id(&self) -> NodeId {
        self.root
    }

    /// The number of the root node.
    pub open spec fn root_number(&self) -> nat {
        node_number(self.root_id())
    }

    /// The arena is well formed, its links are sound, and the root is one of
    /// its nodes, with no parent.
    pub open spec fn wf(&self) -> bool {
        &&& arena_wf(self.arena())
        &&& links_sound(self.arena())
        &&& is_node(self.arena(), self.root_number())
        &&& owns(self.arena(), self.root_id())
        &&& parent_of(self.arena(), self.root_number()) is None
    }

    /// The entries of the root's children, in order.
    pub open spec fn root_children(&self) -> Seq<EntryView> {
        children_of(self.arena(), self.root_number()).map_values(
            |n: nat| entry_of(self.arena(), n),
        )
    }

    pub fn new(inner: Arena<Entry>, root: NodeId) -> (r: Self)
        ensures
            r.arena() == inner,
            r.root_id() == root,
    {
        Self { inner, root }
    }

    fn inner(&self) -> (r: &Arena<Entry>)
        ensures
            *r == self.arena(),
    {
        &self.inner
    }

    /// The identifier of the root node.
    pub fn root(&self) -> (r: NodeId)
        ensures
            r == self.root_id(),
    {
        self.root
    }

    /// The identifiers of a node's children, in order.
    pub fn children_ids(&self, id: NodeId) -> (r: Vec<NodeId>)
        requires
            self.wf(),
            owns(self.arena(), id),
        ensures
            r@.len() == children_of(self.arena(), node_number(id)).len(),
            forall|i: int|
                0 <= i < r@.len() ==> node_number(#[trigger] r@[i]) == children_of(
                    self.arena(),
                    node_number(id),
                )[i] && owns(self.arena(), r@[i]),
    {
        child_ids(&self.inner, id)
    }

    /// A copy of the entry of a node.
    pub fn entry(&self, id: NodeId) -> (r: Entry)
        requires
            owns(self.arena(), id),
        ensures
            r@ == entry_of(self.arena(), node_number(id)),
    {
        entry_at(&self.inner, id).duplicate()
    }

    /// Copies of the entries of the root's children, in the order in which
    /// they were linked.
    pub fn children_vec(&self) -> (r: Vec<Entry>)
        requires
            self.wf(),
        ensures
            r@.map_values(|e: Entry| e@) == self.root_children(),
    {
        let inner = self.inner();
        let ids = child_ids(inner, self.root);
        let ghost kids = children_of(*inner, node_number(self.root));
        let mut res: Vec<Entry> = Vec::new();
        let mut i: usize = 0;
        while i < ids.len()
            invariant
                i <= ids@.len(),
                ids@.len() == kids.len(),
                *inner == self.arena(),
                kids == children_of(self.arena(), self.root_number()),
                self.wf(),
                forall|k: int| 0 <= k < ids@.len() ==> node_number(#[trigger] ids@[k]) == kids[k],
                forall|k: int| 0 <= k < ids@.len() ==> owns(self.arena(), #[trigger] ids@[k]),
                res@.map_values(|e: Entry| e@) == kids.take(i as int).map_values(
                    |n: nat| entry_of(self.arena(), n),
                ),
            decreases ids@.len() - i,
        {
            let id = ids[i];
            assert(is_node(self.arena(), kids[i as int]));
            let node = entry_at(inner, id).duplicate();
            let ghost before = res@;
            res.push(node);
            assert(kids.take(i + 1) =~= kids.take(i as int).push(kids[i as int]));
            assert(res@.map_values(|e: Entry| e@) =~= before.map_values(|e: Entry| e@).push(
                entry_of(self.arena(), kids[i as int]),
            ));
            assert(res@.map_values(|e: Entry| e@) =~= kids.take(i + 1).map_values(
                |n: nat| entry_of(self.arena(), n),
            ));
            i += 1;
        }
        assert(kids.take(ids@.len() as int) =~= kids);
        res
    }
}

} // verus!
