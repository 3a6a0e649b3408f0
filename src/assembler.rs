//! The consumer side of a walk: it takes entries in any order, stores each in
//! the arena, files each non-root entry under its parent's path, and at the
//! end links the whole into one tree.
use vstd::prelude::*;
use indextree::{Arena, NodeId};
use crate::entry::{is_root_entry, Entry, EntryView};
use crate::arena::{
    add_node, arena_children, arena_entries, arena_ids, arena_len, arena_parents, arena_wf,
    children_of, empty_arena, entry_of, is_node, node_number, owns, parent_of,
};
use crate::tree::{
    acyclic, assemble_tree, bucket_for, buckets_ordered, buckets_wf, children_ordered,
    dirs_hold_children, ranked, lemma_bucket_for, links_sound, loose, path_unique,
    pending, Bucket, Tree,
};

verus! {

/// Why entries could not be assembled into a tree.
#[derive(Debug, PartialEq, Eq, Structural, Clone, Copy)]
pub enum TreeError {
    /// No directory of depth 0 arrived.
    MissingRoot,
    /// An entry other than the root came without a parent path.
    ExpectedParent,
}

/// The numbers of the entries, in arrival order, that are filed under `p`:
/// those other than root entries whose parent path is `p`. Entry `i` has
/// number `i + 1`.
pub open spec fn children_in(rs: Seq<EntryView>, p: Seq<char>) -> Seq<nat>
    decreases rs.len(),
{
    if rs.len() == 0 {
        Seq::empty()
    } else {
        let prev = children_in(rs.drop_last(), p);
        if !is_root_entry(rs.last()) && rs.last().parent == Some(p) {
            prev.push(rs.len())
        } else {
            prev
        }
    }
}

/// The number of the last root entry (a directory of depth 0), if any.
pub open spec fn root_in(rs: Seq<EntryView>) -> Option<nat>
    decreases rs.len(),
{
    if rs.len() == 0 {
        None
    } else if is_root_entry(rs.last()) {
        Some(rs.len())
    } else {
        root_in(rs.drop_last())
    }
}

/// Whether some entry other than a root entry has no parent path.
pub open spec fn parent_missing(rs: Seq<EntryView>) -> bool {
    exists|i: int| 0 <= i < rs.len() && !is_root_entry(#[trigger] rs[i]) && rs[i].parent is None
}

/// What assembling the entries `rs`, in this order, gives: the failure that
/// comes first, or a tree that holds every entry, whose root is the last
/// directory of depth 0, which has no cycle, in which only directories have
/// children and every node's children come in arrival order, whose root
/// has as children the entries filed under its path, and in which every link
/// joins an entry to the directory that its parent path names. A linked
/// directory whose path no other entry shares has as children all the
/// entries filed under its path.
pub open spec fn assembled(rs: Seq<EntryView>, r: Result<Tree, TreeError>) -> bool {
    if parent_missing(rs) {
        r == Err::<Tree, TreeError>(TreeError::ExpectedParent)
    } else if root_in(rs) is None {
        r == Err::<Tree, TreeError>(TreeError::MissingRoot)
    } else {
        r is Ok && built_from(r->Ok_0, rs)
    }
}

/// `t` is a tree assembled from the entries `rs`.
pub open spec fn built_from(t: Tree, rs: Seq<EntryView>) -> bool {
    &&& t.wf()
    &&& arena_entries(t.arena()) == rs
    &&& root_in(rs) == Some(t.root_number())
    &&& entry_of(t.arena(), t.root_number()).is_dir
    &&& dirs_hold_children(t.arena())
    &&& children_ordered(t.arena())
    &&& acyclic(t.arena())
    &&& children_of(t.arena(), t.root_number()) == children_in(
        rs,
        rs[t.root_number() - 1].path,
    )
    &&& forall|n: nat|
        is_node(t.arena(), n) && path_unique(t.arena(), n) && #[trigger] entry_of(
            t.arena(),
            n,
        ).is_dir && parent_of(t.arena(), n) is Some ==> children_of(t.arena(), n) == children_in(
            rs,
            rs[n - 1].path,
        )
}

/// Entries taken so far, not yet linked.
pub struct Assembler {
    tree: Arena<Entry>,
    branches: Vec<Bucket>,
    root: Option<NodeId>,
    missing_parent: bool,
    count: usize,
}

impl Assembler {
    /// The entries taken so far, in arrival order.
    pub closed spec fn entries(&self) -> Seq<EntryView> {
        arena_entries(self.tree)
    }

    pub closed spec fn wf(&self) -> bool {
        &&& arena_wf(self.tree)
        &&& links_sound(self.tree)
        &&& forall|n: nat| #[trigger] is_node(self.tree, n) ==> loose(self.tree, n)
        &&& buckets_wf(self.branches@, self.tree)
        &&& buckets_ordered(self.branches@)
        &&& forall|p: Seq<char>|
            #[trigger] bucket_for(self.branches@, p) == children_in(self.entries(), p)
        &&& match self.root {
            Some(r) => root_in(self.entries()) == Some(node_number(r)) && owns(self.tree, r),
            None => root_in(self.entries()) is None,
        }
        &&& self.missing_parent == parent_missing(self.entries())
        &&& self.count == self.entries().len()
    }

    /// An assembler that has taken nothing.
    pub fn new() -> (r: Self)
        ensures
            r.wf(),
            r.entries() == Seq::<EntryView>::empty(),
    {
        let r = Assembler {
            tree: empty_arena(),
            branches: Vec::new(),
            root: None,
            missing_parent: false,
            count: 0,
        };
        assert forall|p: Seq<char>|
            #[trigger] bucket_for(r.branches@, p) == children_in(r.entries(), p) by {
            assert(bucket_for(r.branches@, p) =~= Seq::<nat>::empty());
        }
        r
    }

    /// The number of entries taken so far.
    pub fn len(&self) -> (r: usize)
        requires
            self.wf(),
        ensures
            r == self.entries().len(),
    {
        self.count
    }
}


/// Entries agree on depths: an entry other than a root lies one level below
/// every entry whose path is its parent path.
pub open spec fn depths_consistent(rs: Seq<EntryView>) -> bool {
    forall|i: int, j: int|
        0 <= i < rs.len() && 0 <= j < rs.len() && !is_root_entry(#[trigger] rs[i])
            && rs[i].parent == Some(#[trigger] rs[j].path) ==> rs[i].depth == rs[j].depth + 1
}

/// Where at most one entry has depth 0, the tree has exactly one node of
/// depth 0, and it is the root, a directory.
pub proof fn law_single_root(t: Tree, rs: Seq<EntryView>)
    requires
        built_from(t, rs),
        forall|i: int, j: int|
            0 <= i < rs.len() && 0 <= j < rs.len() && #[trigger] rs[i].depth == 0
                && #[trigger] rs[j].depth == 0 ==> i == j,
    ensures
        entry_of(t.arena(), t.root_number()).depth == 0,
        entry_of(t.arena(), t.root_number()).is_dir,
        forall|n: nat|
            #[trigger] is_node(t.arena(), n) ==> (entry_of(t.arena(), n).depth == 0 <==> n
                == t.root_number()),
{
    lemma_root_in(rs);
    assert forall|n: nat| #[trigger] is_node(t.arena(), n) implies (entry_of(t.arena(), n).depth
        == 0 <==> n == t.root_number()) by {
        if entry_of(t.arena(), n).depth == 0 {
            assert(rs[n - 1].depth == 0);
            assert(rs[t.root_number() - 1].depth == 0);
        }
    }
}

/// Where the entries agree on depths, every node lies one level below its
/// parent.
pub proof fn law_child_depth(t: Tree, rs: Seq<EntryView>)
    requires
        built_from(t, rs),
        depths_consistent(rs),
    ensures
        forall|c: nat|
            is_node(t.arena(), c) && #[trigger] parent_of(t.arena(), c) is Some ==> entry_of(
                t.arena(),
                c,
            ).depth == entry_of(t.arena(), parent_of(t.arena(), c)->0).depth + 1,
{
    assert forall|c: nat|
        is_node(t.arena(), c) && #[trigger] parent_of(t.arena(), c) is Some implies entry_of(
            t.arena(),
            c,
        ).depth == entry_of(t.arena(), parent_of(t.arena(), c)->0).depth + 1 by {
        let q = parent_of(t.arena(), c)->0;
        assert(is_node(t.arena(), q));
        assert(!is_root_entry(rs[c - 1]));
        assert(rs[c - 1].parent == Some(rs[q - 1].path));
    }
}

/// Every listed child is a node of the arena, is listed once, and under one
/// parent only.
pub proof fn law_tree_shape(t: Tree, rs: Seq<EntryView>)
    requires
        built_from(t, rs),
    ensures
        forall|n: nat, i: int|
            is_node(t.arena(), n) && 0 <= i < children_of(t.arena(), n).len() ==> is_node(
                t.arena(),
                #[trigger] children_of(t.arena(), n)[i],
            ),
        forall|n: nat, i: int, j: int|
            is_node(t.arena(), n) && 0 <= i < j < children_of(t.arena(), n).len()
                ==> #[trigger] children_of(t.arena(), n)[i] != #[trigger] children_of(
                t.arena(),
                n,
            )[j],
        forall|p1: nat, p2: nat, c: nat|
            is_node(t.arena(), p1) && is_node(t.arena(), p2) && #[trigger] children_of(
                t.arena(),
                p1,
            ).contains(c) && #[trigger] children_of(t.arena(), p2).contains(c) ==> p1 == p2,
{
    let a = t.arena();
    assert forall|p1: nat, p2: nat, c: nat|
        is_node(a, p1) && is_node(a, p2) && #[trigger] children_of(a, p1).contains(c)
            && #[trigger] children_of(a, p2).contains(c) implies p1 == p2 by {
        let i = choose|i: int| 0 <= i < children_of(a, p1).len() && children_of(a, p1)[i] == c;
        let j = choose|j: int| 0 <= j < children_of(a, p2).len() && children_of(a, p2)[j] == c;
        assert(parent_of(a, children_of(a, p1)[i]) == Some(p1));
        assert(parent_of(a, children_of(a, p2)[j]) == Some(p2));
    }
}

/// Where no entry is deeper than `k` and the entries agree on depths, no
/// node is deeper than `k`, and no node at depth `k` has children.
pub proof fn law_depth_bound(t: Tree, rs: Seq<EntryView>, k: nat)
    requires
        built_from(t, rs),
        depths_consistent(rs),
        forall|i: int| 0 <= i < rs.len() ==> #[trigger] rs[i].depth <= k,
    ensures
        forall|n: nat| #[trigger] is_node(t.arena(), n) ==> entry_of(t.arena(), n).depth <= k,
        forall|n: nat|
            is_node(t.arena(), n) && entry_of(t.arena(), n).depth == k ==> #[trigger] children_of(
                t.arena(),
                n,
            ).len() == 0,
{
    let a = t.arena();
    assert forall|n: nat| #[trigger] is_node(a, n) implies entry_of(a, n).depth <= k by {
        assert(rs[n - 1].depth <= k);
    }
    assert forall|n: nat| is_node(a, n) && entry_of(a, n).depth == k implies #[trigger] children_of(
        a,
        n,
    ).len() == 0 by {
        if children_of(a, n).len() > 0 {
            let c = children_of(a, n)[0];
            assert(parent_of(a, c) == Some(n));
            assert(!is_root_entry(rs[c - 1]));
            assert(rs[c - 1].parent == Some(rs[n - 1].path));
            assert(rs[c - 1].depth <= k);
        }
    }
}

/// Where no entry carries content, no node of the tree does.
pub proof fn law_no_content(t: Tree, rs: Seq<EntryView>)
    requires
        built_from(t, rs),
        forall|i: int| 0 <= i < rs.len() ==> #[trigger] rs[i].content is None,
    ensures
        forall|n: nat| #[trigger] is_node(t.arena(), n) ==> entry_of(t.arena(), n).content is None,
{
    assert forall|n: nat| #[trigger] is_node(t.arena(), n) implies entry_of(t.arena(), n).content
        is None by {
        assert(rs[n - 1].content is None);
    }
}

/// Where no entry has depth 0 and every entry has a parent path, assembly
/// fails for want of a root.
pub proof fn law_missing_root(rs: Seq<EntryView>, r: Result<Tree, TreeError>)
    requires
        assembled(rs, r),
        forall|i: int| 0 <= i < rs.len() ==> #[trigger] rs[i].depth != 0,
        !parent_missing(rs),
    ensures
        r == Err::<Tree, TreeError>(TreeError::MissingRoot),
{
    lemma_root_in(rs);
}

/// The entries of the children of node `n`, in order.
pub open spec fn child_entries(t: Tree, n: nat) -> Seq<EntryView> {
    children_of(t.arena(), n).map_values(|k: nat| entry_of(t.arena(), k))
}

/// Node `n` is the root, or a directory linked below it whose path no other
/// node shares.
pub open spec fn settled(t: Tree, n: nat) -> bool {
    n == t.root_number() || (is_node(t.arena(), n) && path_unique(t.arena(), n) && entry_of(
        t.arena(),
        n,
    ).is_dir && parent_of(t.arena(), n) is Some)
}

/// The numbers filed under `p` are those of the entries, other than root
/// entries, whose parent path is `p`.
proof fn lemma_children_in(rs: Seq<EntryView>, p: Seq<char>)
    ensures
        forall|k: nat|
            children_in(rs, p).contains(k) <==> (1 <= k <= rs.len() && !is_root_entry(rs[k - 1])
                && rs[k - 1].parent == Some(p)),
    decreases rs.len(),
{
    if rs.len() > 0 {
        let prev = rs.drop_last();
        lemma_children_in(prev, p);
        let c = children_in(rs, p);
        let cp = children_in(prev, p);
        let hit = !is_root_entry(rs.last()) && rs.last().parent == Some(p);
        if hit {
            assert(c == cp.push(rs.len() as nat));
        } else {
            assert(c == cp);
        }
        assert forall|k: nat|
            c.contains(k) <==> (1 <= k <= rs.len() && !is_root_entry(rs[k - 1]) && rs[k - 1].parent
                == Some(p)) by {
            if 1 <= k < rs.len() {
                assert(rs[k - 1] == prev[k - 1]);
            }
            if c.contains(k) {
                let i = choose|i: int| 0 <= i < c.len() && c[i] == k;
                if i < cp.len() {
                    assert(cp[i] == k);
                    assert(cp.contains(k));
                } else {
                    assert(k == rs.len());
                }
            }
            if 1 <= k < rs.len() && !is_root_entry(rs[k - 1]) && rs[k - 1].parent == Some(p) {
                assert(cp.contains(k));
                let i = choose|i: int| 0 <= i < cp.len() && cp[i] == k;
                assert(c[i] == k);
            }
            if k == rs.len() && !is_root_entry(rs[k - 1]) && rs[k - 1].parent == Some(p) {
                assert(c[c.len() - 1] == k);
            }
        }
    }
}

/// An entry is among the children of a settled node exactly when it is one
/// of the entries, other than root entries, whose parent path is the node's
/// path.
proof fn lemma_child_entries(t: Tree, rs: Seq<EntryView>, n: nat, x: EntryView)
    requires
        built_from(t, rs),
        settled(t, n),
    ensures
        child_entries(t, n).contains(x) <==> (rs.contains(x) && !is_root_entry(x) && x.parent == Some(
            entry_of(t.arena(), n).path,
        )),
{
    let a = t.arena();
    let p = entry_of(a, n).path;
    lemma_children_in(rs, p);
    assert(children_of(a, n) == children_in(rs, p));
    if child_entries(t, n).contains(x) {
        let i = choose|i: int| 0 <= i < child_entries(t, n).len() && child_entries(t, n)[i] == x;
        let k = children_of(a, n)[i];
        assert(children_in(rs, p).contains(k));
        assert(rs[k - 1] == x);
    }
    if rs.contains(x) && !is_root_entry(x) && x.parent == Some(p) {
        let j = choose|j: int| 0 <= j < rs.len() && rs[j] == x;
        let k = (j + 1) as nat;
        assert(children_in(rs, p).contains(k));
        let i = choose|i: int| 0 <= i < children_in(rs, p).len() && children_in(rs, p)[i] == k;
        assert(child_entries(t, n)[i] == x);
    }
}

/// Assembling the same entries in another order gives as many nodes, and
/// each settled directory the same child entries as the settled node of the
/// same path in the other tree.
pub proof fn law_order_independent(t1: Tree, rs1: Seq<EntryView>, t2: Tree, rs2: Seq<EntryView>)
    requires
        built_from(t1, rs1),
        built_from(t2, rs2),
        rs1.to_multiset() == rs2.to_multiset(),
    ensures
        arena_len(t1.arena()) == arena_len(t2.arena()),
        forall|n1: nat, n2: nat|
            settled(t1, n1) && settled(t2, n2) && #[trigger] entry_of(t1.arena(), n1).path
                == #[trigger] entry_of(t2.arena(), n2).path ==> child_entries(t1, n1).to_set()
                == child_entries(t2, n2).to_set(),
{
    broadcast use vstd::seq_lib::to_multiset_contains, vstd::seq_lib::to_multiset_len;

    assert(rs1.len() == rs1.to_multiset().len());
    assert(rs2.len() == rs2.to_multiset().len());
    assert forall|n1: nat, n2: nat|
        settled(t1, n1) && settled(t2, n2) && #[trigger] entry_of(t1.arena(), n1).path
            == #[trigger] entry_of(t2.arena(), n2).path implies child_entries(t1, n1).to_set()
        == child_entries(t2, n2).to_set() by {
        assert forall|x: EntryView| child_entries(t1, n1).to_set().contains(x) <==> child_entries(
            t2,
            n2,
        ).to_set().contains(x) by {
            lemma_child_entries(t1, rs1, n1, x);
            lemma_child_entries(t2, rs2, n2, x);
            assert(rs1.contains(x) <==> rs1.to_multiset().contains(x));
            assert(rs2.contains(x) <==> rs2.to_multiset().contains(x));
        }
        assert(child_entries(t1, n1).to_set() =~= child_entries(t2, n2).to_set());
    }
}

/// Entries as a walk of one directory gives them: paths are distinct, depths
/// agree, one entry has depth 0, and every other entry's parent path is the
/// path of a directory among the entries.
#[verifier::opaque]
pub open spec fn walk_like(rs: Seq<EntryView>) -> bool {
    &&& forall|i: int, j: int|
        0 <= i < rs.len() && 0 <= j < rs.len() && i != j ==> #[trigger] rs[i].path
            != #[trigger] rs[j].path
    &&& depths_consistent(rs)
    &&& forall|i: int, j: int|
        0 <= i < rs.len() && 0 <= j < rs.len() && #[trigger] rs[i].depth == 0
            && #[trigger] rs[j].depth == 0 ==> i == j
    &&& forall|i: int|
        0 <= i < rs.len() && #[trigger] rs[i].depth != 0 ==> exists|j: int|
            0 <= j < rs.len() && #[trigger] rs[j].is_dir && rs[i].parent == Some(rs[j].path)
}

/// In a tree assembled from walk-like entries, node `k` of depth other than 0
/// has a parent.
proof fn lemma_linked(t: Tree, rs: Seq<EntryView>, k: nat)
    requires
        built_from(t, rs),
        walk_like(rs),
        1 <= k <= rs.len(),
        rs[k - 1].depth != 0,
    ensures
        parent_of(t.arena(), k) is Some,
    decreases rs[k - 1].depth,
{
    let a = t.arena();
    assert(exists|j: int|
        0 <= j < rs.len() && #[trigger] rs[j].is_dir && rs[k - 1].parent == Some(rs[j].path)) by {
        reveal(walk_like);
    }
    let j = choose|j: int|
        0 <= j < rs.len() && #[trigger] rs[j].is_dir && rs[k - 1].parent == Some(rs[j].path);
    let y = (j + 1) as nat;
    assert(rs[k - 1].depth == rs[j].depth + 1) by {
        reveal(walk_like);
    }
    lemma_root_in(rs);
    if rs[j].depth != 0 {
        lemma_linked(t, rs, y);
    }
    assert(settled(t, y)) by {
        if rs[j].depth == 0 {
            assert(rs[t.root_number() - 1].depth == 0);
            assert(y == t.root_number()) by {
                reveal(walk_like);
            }
        } else {
            assert forall|m: nat| is_node(a, m) && m != y implies #[trigger] entry_of(a, m).path
                != entry_of(a, y).path by {
                assert(rs[m - 1].path != rs[j].path) by {
                    reveal(walk_like);
                }
            }
        }
    }
    lemma_children_in(rs, rs[j].path);
    assert(children_in(rs, rs[j].path).contains(k));
    assert(children_of(a, y) == children_in(rs, entry_of(a, y).path));
    let i = choose|i: int| 0 <= i < children_of(a, y).len() && children_of(a, y)[i] == k;
    assert(parent_of(a, children_of(a, y)[i]) == Some(y));
}

/// Where the entries are walk-like, every node but the root has a parent: no
/// entry is left out of the tree.
pub proof fn law_walk_complete(t: Tree, rs: Seq<EntryView>)
    requires
        built_from(t, rs),
        walk_like(rs),
    ensures
        forall|k: nat|
            is_node(t.arena(), k) ==> (#[trigger] parent_of(t.arena(), k) is None <==> k
                == t.root_number()),
{
    lemma_root_in(rs);
    assert forall|k: nat| is_node(t.arena(), k) implies (#[trigger] parent_of(t.arena(), k)
        is None <==> k == t.root_number()) by {
        if k != t.root_number() {
            assert(rs[k - 1].depth != 0) by {
                assert(rs[t.root_number() - 1].depth == 0);
                reveal(walk_like);
            }
            lemma_linked(t, rs, k);
        }
    }
}

/// Some node of `t` with path `q` hangs below a node with path `p`.
pub open spec fn has_edge(t: Tree, p: Seq<char>, q: Seq<char>) -> bool {
    exists|c: nat|
        is_node(t.arena(), c) && #[trigger] parent_of(t.arena(), c) is Some && entry_of(
            t.arena(),
            parent_of(t.arena(), c)->0,
        ).path == p && entry_of(t.arena(), c).path == q
}

/// An edge of a tree assembled from walk-like entries is found again in a
/// tree assembled from the same entries in another order.
proof fn lemma_edge_kept(
    t1: Tree,
    rs1: Seq<EntryView>,
    t2: Tree,
    rs2: Seq<EntryView>,
    p: Seq<char>,
    q: Seq<char>,
)
    requires
        built_from(t1, rs1),
        built_from(t2, rs2),
        walk_like(rs2),
        rs1.to_multiset() == rs2.to_multiset(),
        has_edge(t1, p, q),
    ensures
        has_edge(t2, p, q),
{
    broadcast use vstd::seq_lib::to_multiset_contains;

    let a1 = t1.arena();
    let a2 = t2.arena();
    let c = choose|c: nat|
        is_node(a1, c) && #[trigger] parent_of(a1, c) is Some && entry_of(
            a1,
            parent_of(a1, c)->0,
        ).path == p && entry_of(a1, c).path == q;
    let x = rs1[c - 1];
    assert(!is_root_entry(x) && x.parent == Some(p));
    assert(rs1.contains(x));
    assert(rs1.to_multiset().contains(x));
    assert(rs2.contains(x));
    let i = choose|i: int| 0 <= i < rs2.len() && rs2[i] == x;
    let k = (i + 1) as nat;
    lemma_root_in(rs2);
    let r = t2.root_number();
    assert(is_root_entry(rs2[r - 1]));
    assert(x.depth != 0) by {
        reveal(walk_like);
        assert(i != r - 1);
    }
    lemma_linked(t2, rs2, k);
    assert(is_node(a2, k) && parent_of(a2, k) is Some);
    let y = parent_of(a2, k)->0;
    assert(entry_of(a2, k) == x);
    assert(entry_of(a2, y).path == p);
}

/// Assembling the same walk-like entries in two orders gives the same root
/// entry and the same edges, as pairs of parent path and child path.
pub proof fn law_same_edges(t1: Tree, rs1: Seq<EntryView>, t2: Tree, rs2: Seq<EntryView>)
    requires
        built_from(t1, rs1),
        built_from(t2, rs2),
        walk_like(rs1),
        walk_like(rs2),
        rs1.to_multiset() == rs2.to_multiset(),
    ensures
        entry_of(t1.arena(), t1.root_number()) == entry_of(t2.arena(), t2.root_number()),
        forall|p: Seq<char>, q: Seq<char>| #[trigger] has_edge(t1, p, q) <==> has_edge(t2, p, q),
{
    broadcast use vstd::seq_lib::to_multiset_contains;

    assert forall|p: Seq<char>, q: Seq<char>| #[trigger] has_edge(t1, p, q) <==> has_edge(
        t2,
        p,
        q,
    ) by {
        if has_edge(t1, p, q) {
            lemma_edge_kept(t1, rs1, t2, rs2, p, q);
        }
        if has_edge(t2, p, q) {
            lemma_edge_kept(t2, rs2, t1, rs1, p, q);
        }
    }
    lemma_root_in(rs1);
    lemma_root_in(rs2);
    let e = rs1[t1.root_number() - 1];
    assert(rs1.contains(e));
    assert(rs1.to_multiset().contains(e));
    assert(rs2.contains(e));
    let i = choose|i: int| 0 <= i < rs2.len() && rs2[i] == e;
    assert(i == t2.root_number() - 1) by {
        reveal(walk_like);
        assert(rs2[t2.root_number() - 1].depth == 0);
    }
}

/// Growing the arena by a loose node keeps the buckets well formed.
proof fn lemma_grow_keeps_buckets(
    bs: Seq<Bucket>,
    a0: Arena<Entry>,
    a1: Arena<Entry>,
    e: EntryView,
    id: NodeId,
)
    requires
        buckets_wf(bs, a0),
        arena_wf(a0),
        arena_entries(a1) == arena_entries(a0).push(e),
        arena_ids(a1) == arena_ids(a0).push(id),
        arena_parents(a1) == arena_parents(a0).push(None),
        arena_children(a1) == arena_children(a0).push(Seq::<nat>::empty()),
    ensures
        buckets_wf(bs, a1),
{
    assert forall|k: int, i: int|
        #![trigger bs[k].ids@[i]]
        0 <= k < bs.len() && 0 <= i < bs[k].ids@.len() implies {
            &&& loose(a1, node_number(bs[k].ids@[i]))
            &&& entry_of(a1, node_number(bs[k].ids@[i])).parent == Some(bs[k].path@)
            &&& !is_root_entry(entry_of(a1, node_number(bs[k].ids@[i])))
        } by {
        assert(loose(a0, node_number(bs[k].ids@[i])));
    }
}

/// The last root, where there is one, is a directory of depth 0.
proof fn lemma_root_in(rs: Seq<EntryView>)
    ensures
        root_in(rs) matches Some(r) ==> 1 <= r <= rs.len() && is_root_entry(rs[r - 1]),
    decreases rs.len(),
{
    if rs.len() > 0 {
        lemma_root_in(rs.drop_last());
    }
}

impl Assembler {
    /// Takes one entry: stores it as a new node; a directory of depth 0
    /// becomes the root; any other entry, a file of depth 0 included, is filed
    /// under its parent path, whether or not that directory has arrived yet. A bucket is made when the first child
    /// for a path arrives: an empty bucket and none give the same children.
    pub fn accept(&mut self, e: Entry)
        requires
            old(self).wf(),
            old(self).entries().len() < usize::MAX,
        ensures
            final(self).wf(),
            final(self).entries() == old(self).entries().push(e@),
    {
        let ghost a0 = self.tree;
        let ghost b0 = self.branches@;
        let ghost ev = e@;
        let ghost rs0 = self.entries();
        let starts_tree = e.depth == 0 && e.is_dir;
        let parent: Option<String> = match &e.parent {
            Some(p) => Some(p.clone()),
            None => None,
        };
        let id = add_node(&mut self.tree, e);
        self.count = self.count + 1;
        let ghost a1 = self.tree;
        let ghost rs1 = self.entries();
        proof {
            assert forall|x: nat| #[trigger] is_node(a0, x) implies entry_of(a1, x) == entry_of(
                a0,
                x,
            ) && parent_of(a1, x) == parent_of(a0, x) && children_of(a1, x) == children_of(a0, x) by {}
            assert forall|x: nat| #[trigger] is_node(a1, x) implies loose(a1, x) by {
                if x <= arena_len(a0) {
                    assert(is_node(a0, x));
                }
            }
            assert(rs1.drop_last() =~= rs0);
            assert(rs1.last() == ev);
        }
        if starts_tree {
            self.root = Some(id);
            proof {
                lemma_grow_keeps_buckets(b0, a0, a1, ev, id);
            }
        } else {
            match parent {
                Some(p) => {
                    let ghost pv = p@;
                    file_under(&mut self.branches, p, id);
                    proof {
                        lemma_file_under(b0, self.branches@, a0, a1, ev, pv, id);
                        lemma_file_keeps_order(b0, self.branches@, a0, pv, id);
                    }
                },
                None => {
                    self.missing_parent = true;
                    proof {
                        lemma_grow_keeps_buckets(b0, a0, a1, ev, id);
                        assert(rs1[rs0.len() as int] == ev);
                    }
                },
            }
        }
        proof {
            assert forall|p: Seq<char>|
                #[trigger] bucket_for(self.branches@, p) == children_in(self.entries(), p) by {
                assert(bucket_for(b0, p) == children_in(rs0, p));
            }
            assert(self.missing_parent == parent_missing(rs1)) by {
                if parent_missing(rs1) && !(!is_root_entry(ev) && ev.parent is None) {
                    let i = choose|i: int|
                        0 <= i < rs1.len() && !is_root_entry(#[trigger] rs1[i]) && rs1[i].parent is None;
                    assert(rs0[i] == rs1[i]);
                }
                if parent_missing(rs0) {
                    let i = choose|i: int|
                        0 <= i < rs0.len() && !is_root_entry(#[trigger] rs0[i]) && rs0[i].parent is None;
                    assert(rs0[i] == rs1[i]);
                }
            }
        }
    }

    /// Ends the stream: fails where an entry came without a parent path, then
    /// where no root arrived; otherwise links every bucket from the root down
    /// and returns the tree.
    pub fn finish(self) -> (r: Result<Tree, TreeError>)
        requires
            self.wf(),
        ensures
            assembled(self.entries(), r),
    {
        let ghost rs = self.entries();
        let Assembler { mut tree, mut branches, root, missing_parent, count: _ } = self;
        if missing_parent {
            return Err(TreeError::ExpectedParent);
        }
        match root {
            None => Err(TreeError::MissingRoot),
            Some(root) => {
                proof {
                    lemma_root_in(rs);
                    assert(is_node(tree, node_number(root)));
                    if pending(branches@, node_number(root)) {
                        let (k, i) = choose|k: int, i: int|
                            0 <= k < branches@.len() && 0 <= i < branches@[k].ids@.len()
                                && #[trigger] node_number(branches@[k].ids@[i]) == node_number(
                                root,
                            );
                        assert(!is_root_entry(entry_of(tree, node_number(branches@[k].ids@[i]))));
                    }
                }
                proof {
                    let r0 = |n: nat| 0nat;
                    assert(ranked(tree, r0));
                }
                let ghost b0 = branches@;
                let ghost t0 = tree;
                assemble_tree(&mut tree, root, &mut branches);
                proof {
                    assert forall|n: nat|
                        is_node(tree, n) && path_unique(tree, n) && #[trigger] entry_of(
                            tree,
                            n,
                        ).is_dir && parent_of(tree, n) is Some implies children_of(tree, n)
                        == children_in(rs, rs[n - 1].path) by {
                        assert(is_node(t0, n));
                        assert(entry_of(tree, n) == entry_of(t0, n));
                        assert forall|m: nat| is_node(t0, m) && m != n implies #[trigger] entry_of(
                            t0,
                            m,
                        ).path != entry_of(t0, n).path by {
                            assert(entry_of(tree, m) == entry_of(t0, m));
                        }
                        assert(n != node_number(root));
                        if !pending(b0, n) {
                            assert(loose(t0, n));
                            assert(parent_of(tree, n) == parent_of(t0, n));
                        }
                        if pending(branches@, n) {
                            let (k, i) = choose|k: int, i: int|
                                0 <= k < branches@.len() && 0 <= i < branches@[k].ids@.len()
                                    && #[trigger] node_number(branches@[k].ids@[i]) == n;
                            assert(loose(tree, node_number(branches@[k].ids@[i])));
                        }
                        assert(bucket_for(b0, entry_of(t0, n).path) == children_in(
                            rs,
                            entry_of(t0, n).path,
                        ));
                    }
                    assert(bucket_for(b0, rs[node_number(root) - 1].path) == children_in(
                        rs,
                        rs[node_number(root) - 1].path,
                    ));
                }
                Ok(Tree::new(tree, root))
            },
        }
    }
}

/// Assembles a tree from entries taken in the given order.
pub fn build(records: &Vec<Entry>) -> (r: Result<Tree, TreeError>)
    requires
        records@.len() < usize::MAX,
    ensures
        assembled(records@.map_values(|e: Entry| e@), r),
{
    let mut acc = Assembler::new();
    let mut i: usize = 0;
    while i < records.len()
        invariant
            i <= records@.len(),
            records@.len() < usize::MAX,
            acc.wf(),
            acc.entries() == records@.take(i as int).map_values(|e: Entry| e@),
        decreases records@.len() - i,
    {
        acc.accept(records[i].duplicate());
        assert(records@.take(i + 1).map_values(|e: Entry| e@) =~= records@.take(
            i as int,
        ).map_values(|e: Entry| e@).push(records@[i as int]@));
        i += 1;
    }
    assert(records@.take(records@.len() as int) =~= records@);
    acc.finish()
}

/// Files node `id` under `path`: last in the bucket for `path`, which is made
/// where there is none yet.
fn file_under(bs: &mut Vec<Bucket>, path: String, id: NodeId)
    ensures
        (exists|k: int|
            0 <= k < old(bs)@.len() && old(bs)@[k].path@ == path@ && final(bs)@.len() == old(
                bs,
            )@.len() && final(bs)@[k].path@ == path@ && final(bs)@[k].ids@ == old(
                bs,
            )@[k].ids@.push(id) && forall|m: int|
                0 <= m < old(bs)@.len() && m != k ==> #[trigger] final(bs)@[m] == old(bs)@[m])
            || ((forall|k: int| 0 <= k < old(bs)@.len() ==> old(bs)@[k].path@ != path@)
            && final(bs)@.len() == old(bs)@.len() + 1 && final(bs)@.last().path@ == path@
            && final(bs)@.last().ids@ == seq![id] && forall|m: int|
            0 <= m < old(bs)@.len() ==> #[trigger] final(bs)@[m] == old(bs)@[m]),
{
    let ghost b0 = bs@;
    let mut k: usize = 0;
    while k < bs.len()
        invariant
            bs@ == b0,
            b0 == old(bs)@,
            k <= bs@.len(),
            forall|m: int| 0 <= m < k ==> bs@[m].path@ != path@,
        decreases bs@.len() - k,
    {
        if bs[k].path == path {
            let mut b = bs.remove(k);
            b.ids.push(id);
            bs.insert(k, b);
            assert(bs@ =~= b0.update(k as int, b));
            assert(b.ids@ == b0[k as int].ids@.push(id));
            return;
        }
        k += 1;
    }
    let mut ids: Vec<NodeId> = Vec::new();
    ids.push(id);
    assert(ids@ =~= seq![id]);
    bs.push(Bucket { path, ids });
}

/// Filing a node numbered above every node of the arena keeps the buckets
/// in order.
proof fn lemma_file_keeps_order(
    b0: Seq<Bucket>,
    b1: Seq<Bucket>,
    a0: Arena<Entry>,
    path: Seq<char>,
    id: NodeId,
)
    requires
        buckets_wf(b0, a0),
        buckets_ordered(b0),
        node_number(id) == arena_len(a0) + 1,
        (exists|k: int|
            0 <= k < b0.len() && b0[k].path@ == path && b1.len() == b0.len() && b1[k].path@
                == path && b1[k].ids@ == b0[k].ids@.push(id) && forall|m: int|
                0 <= m < b0.len() && m != k ==> #[trigger] b1[m] == b0[m]) || ((forall|k: int|
            0 <= k < b0.len() ==> b0[k].path@ != path) && b1.len() == b0.len() + 1
            && b1.last().path@ == path && b1.last().ids@ == seq![id] && forall|m: int|
            0 <= m < b0.len() ==> #[trigger] b1[m] == b0[m]),
    ensures
        buckets_ordered(b1),
{
    assert forall|k: int, i: int, j: int|
        0 <= k < b1.len() && 0 <= i < j < b1[k].ids@.len() implies node_number(
        #[trigger] b1[k].ids@[i],
    ) < node_number(#[trigger] b1[k].ids@[j]) by {
        if k < b0.len() && b1[k] == b0[k] {
            assert(node_number(b0[k].ids@[i]) < node_number(b0[k].ids@[j]));
        } else if k < b0.len() {
            assert(b1[k].ids@[i] == b0[k].ids@[i]);
            assert(loose(a0, node_number(b0[k].ids@[i])));
            if j < b0[k].ids@.len() {
                assert(b1[k].ids@[j] == b0[k].ids@[j]);
                assert(node_number(b0[k].ids@[i]) < node_number(b0[k].ids@[j]));
            }
        }
    }
}

/// Filing a new node keeps the buckets well formed, and adds the node to the
/// bucket for its path alone.
proof fn lemma_file_under(
    b0: Seq<Bucket>,
    b1: Seq<Bucket>,
    a0: Arena<Entry>,
    a1: Arena<Entry>,
    e: EntryView,
    path: Seq<char>,
    id: NodeId,
)
    requires
        buckets_wf(b0, a0),
        forall|n: nat| #[trigger] is_node(a0, n) ==> loose(a0, n),
        arena_wf(a0),
        arena_entries(a1) == arena_entries(a0).push(e),
        arena_ids(a1) == arena_ids(a0).push(id),
        arena_parents(a1) == arena_parents(a0).push(None),
        arena_children(a1) == arena_children(a0).push(Seq::<nat>::empty()),
        node_number(id) == arena_len(a0) + 1,
        !is_root_entry(e),
        e.parent == Some(path),
        (exists|k: int|
            0 <= k < b0.len() && b0[k].path@ == path && b1.len() == b0.len() && b1[k].path@
                == path && b1[k].ids@ == b0[k].ids@.push(id) && forall|m: int|
                0 <= m < b0.len() && m != k ==> #[trigger] b1[m] == b0[m]) || ((forall|k: int|
            0 <= k < b0.len() ==> b0[k].path@ != path) && b1.len() == b0.len() + 1
            && b1.last().path@ == path && b1.last().ids@ == seq![id] && forall|m: int|
            0 <= m < b0.len() ==> #[trigger] b1[m] == b0[m]),
    ensures
        buckets_wf(b1, a1),
        forall|p: Seq<char>|
            #[trigger] bucket_for(b1, p) == if p == path {
                bucket_for(b0, p).push(node_number(id))
            } else {
                bucket_for(b0, p)
            },
{
    let n = node_number(id);
    assert forall|x: nat| #[trigger] is_node(a0, x) implies entry_of(a1, x) == entry_of(a0, x)
        && parent_of(a1, x) == parent_of(a0, x) && children_of(a1, x) == children_of(a0, x) by {}
    assert(entry_of(a1, n) == e);
    assert(loose(a1, n));
    if exists|k: int|
        0 <= k < b0.len() && b0[k].path@ == path && b1.len() == b0.len() && b1[k].path@ == path
            && b1[k].ids@ == b0[k].ids@.push(id) && forall|m: int|
            0 <= m < b0.len() && m != k ==> #[trigger] b1[m] == b0[m] {
        let k = choose|k: int|
            0 <= k < b0.len() && b0[k].path@ == path && b1.len() == b0.len() && b1[k].path@
                == path && b1[k].ids@ == b0[k].ids@.push(id) && forall|m: int|
                0 <= m < b0.len() && m != k ==> #[trigger] b1[m] == b0[m];
        let last = b0[k].ids@.len() as int;
        assert forall|m: int| 0 <= m < b1.len() implies #[trigger] b1[m].path@ == b0[m].path@ by {
            if m != k {
                assert(b1[m] == b0[m]);
            }
        }
        assert forall|m: int, i: int|
            0 <= m < b1.len() && 0 <= i < b1[m].ids@.len() && !(m == k && i == last) implies
                #[trigger] b1[m].ids@[i] == b0[m].ids@[i] && i < b0[m].ids@.len() by {
            if m != k {
                assert(b1[m] == b0[m]);
            }
        }
        assert forall|m: int, i: int|
            #![trigger b1[m].ids@[i]]
            0 <= m < b1.len() && 0 <= i < b1[m].ids@.len() implies {
                &&& loose(a1, node_number(b1[m].ids@[i]))
                &&& entry_of(a1, node_number(b1[m].ids@[i])).parent == Some(b1[m].path@)
                &&& !is_root_entry(entry_of(a1, node_number(b1[m].ids@[i])))
            } by {
            if !(m == k && i == last) {
                assert(b1[m].ids@[i] == b0[m].ids@[i]);
                assert(loose(a0, node_number(b0[m].ids@[i])));
            }
        }
        assert forall|k1: int, i1: int, k2: int, i2: int|
            0 <= k1 < b1.len() && 0 <= i1 < b1[k1].ids@.len() && 0 <= k2 < b1.len() && 0 <= i2
                < b1[k2].ids@.len() && (k1 != k2 || i1 != i2) implies node_number(
            #[trigger] b1[k1].ids@[i1],
        ) != node_number(#[trigger] b1[k2].ids@[i2]) by {
            if !(k1 == k && i1 == last) {
                assert(b1[k1].ids@[i1] == b0[k1].ids@[i1]);
                assert(loose(a0, node_number(b0[k1].ids@[i1])));
            }
            if !(k2 == k && i2 == last) {
                assert(b1[k2].ids@[i2] == b0[k2].ids@[i2]);
                assert(loose(a0, node_number(b0[k2].ids@[i2])));
            }
        }
        assert forall|p: Seq<char>|
            #[trigger] bucket_for(b1, p) == if p == path {
                bucket_for(b0, p).push(n)
            } else {
                bucket_for(b0, p)
            } by {
            if p == path {
                lemma_bucket_for(b0, k, p);
                lemma_bucket_for(b1, k, p);
                assert(b1[k].ids@.map_values(|id: NodeId| node_number(id)) =~= b0[k].ids@.map_values(
                    |id: NodeId| node_number(id),
                ).push(n));
            } else if exists|k2: int| 0 <= k2 < b0.len() && #[trigger] b0[k2].path@ == p {
                let k2 = choose|k2: int| 0 <= k2 < b0.len() && #[trigger] b0[k2].path@ == p;
                assert(b1[k2] == b0[k2]);
                lemma_bucket_for(b0, k2, p);
                lemma_bucket_for(b1, k2, p);
            } else {
                assert(!exists|k2: int| 0 <= k2 < b1.len() && #[trigger] b1[k2].path@ == p);
            }
        }
    } else {
        let k = b0.len() as int;
        assert forall|m: int| 0 <= m < b0.len() implies #[trigger] b1[m].path@ == b0[m].path@ by {
            assert(b1[m] == b0[m]);
        }
        assert forall|m: int, i: int|
            0 <= m < b0.len() && 0 <= i < b1[m].ids@.len() implies #[trigger] b1[m].ids@[i]
                == b0[m].ids@[i] && i < b0[m].ids@.len() by {
            assert(b1[m] == b0[m]);
        }
        assert(b1[k].ids@ == seq![id]);
        assert forall|m: int, i: int|
            #![trigger b1[m].ids@[i]]
            0 <= m < b1.len() && 0 <= i < b1[m].ids@.len() implies {
                &&& loose(a1, node_number(b1[m].ids@[i]))
                &&& entry_of(a1, node_number(b1[m].ids@[i])).parent == Some(b1[m].path@)
                &&& !is_root_entry(entry_of(a1, node_number(b1[m].ids@[i])))
            } by {
            if m < k {
                assert(b1[m].ids@[i] == b0[m].ids@[i]);
                assert(loose(a0, node_number(b0[m].ids@[i])));
            }
        }
        assert forall|k1: int, i1: int, k2: int, i2: int|
            0 <= k1 < b1.len() && 0 <= i1 < b1[k1].ids@.len() && 0 <= k2 < b1.len() && 0 <= i2
                < b1[k2].ids@.len() && (k1 != k2 || i1 != i2) implies node_number(
            #[trigger] b1[k1].ids@[i1],
        ) != node_number(#[trigger] b1[k2].ids@[i2]) by {
            if k1 < k {
                assert(b1[k1].ids@[i1] == b0[k1].ids@[i1]);
                assert(loose(a0, node_number(b0[k1].ids@[i1])));
            }
            if k2 < k {
                assert(b1[k2].ids@[i2] == b0[k2].ids@[i2]);
                assert(loose(a0, node_number(b0[k2].ids@[i2])));
            }
        }
        assert forall|k1: int, k2: int|
            0 <= k1 < k2 < b1.len() implies #[trigger] b1[k1].path@ != #[trigger] b1[k2].path@ by {
            if k2 < k {
                assert(b0[k1].path@ != b0[k2].path@);
            }
        }
        assert forall|p: Seq<char>|
            #[trigger] bucket_for(b1, p) == if p == path {
                bucket_for(b0, p).push(n)
            } else {
                bucket_for(b0, p)
            } by {
            if p == path {
                assert(bucket_for(b0, p) =~= Seq::<nat>::empty());
                lemma_bucket_for(b1, k, p);
                assert(b1[k].ids@.map_values(|id: NodeId| node_number(id)) =~= seq![n]);
            } else if exists|k2: int| 0 <= k2 < b0.len() && #[trigger] b0[k2].path@ == p {
                let k2 = choose|k2: int| 0 <= k2 < b0.len() && #[trigger] b0[k2].path@ == p;
                lemma_bucket_for(b0, k2, p);
                lemma_bucket_for(b1, k2, p);
            } else {
                assert(!exists|k2: int| 0 <= k2 < b1.len() && #[trigger] b1[k2].path@ == p);
            }
        }
    }
}

} // verus!