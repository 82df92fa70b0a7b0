//! A generic, representation-agnostic depth-first walk over any tree of
//! the capability contract, producing the document-order sequence of
//! open/close edges lazily, one edge per call.

use vstd::prelude::*;

use crate::dom::DOMTree;
use crate::dom::TreeView;
use crate::node::NodeId;

verus! {

/// One edge of the walk: a node is opened before its children and closed
/// after them.
#[derive(Clone, Copy, PartialEq, Eq, Structural, Debug)]
pub enum Edge {
    Open(NodeId),
    Close(NodeId),
}

/// The edges of the subtree rooted at `id`, in document order: an Open
/// edge, the edges of each child subtree in order, and a Close edge.
/// `fuel` bounds the recursion depth; from the root of a well-formed
/// tree, the node count is always budget enough.
pub open spec fn subtree_edges(t: TreeView, id: NodeId, fuel: nat) -> Seq<Edge>
    decreases fuel, 0nat,
{
    if fuel == 0 {
        Seq::empty()
    } else {
        seq![Edge::Open(id)] + forest_edges(t, t.node_at(id).children, (fuel - 1) as nat) + seq![
            Edge::Close(id),
        ]
    }
}

/// The edges of a sequence of sibling subtrees, in order.
pub open spec fn forest_edges(t: TreeView, ids: Seq<NodeId>, fuel: nat) -> Seq<Edge>
    decreases fuel, ids.len(),
{
    if ids.len() == 0 {
        Seq::empty()
    } else {
        subtree_edges(t, ids[0], fuel) + forest_edges(t, ids.drop_first(), fuel)
    }
}

/// The full document-order edge sequence of the tree, from its root.
pub open spec fn tree_edges(t: TreeView) -> Seq<Edge> {
    subtree_edges(t, t.root, t.nodes.len())
}

/// A descending path of the tree: it starts at a parentless node, and
/// each entry lists the next among its children.
pub open spec fn is_chain(t: TreeView, c: Seq<NodeId>) -> bool {
    &&& c.len() >= 1
    &&& forall|i: int| 0 <= i < c.len() ==> (#[trigger] c[i]).index < t.nodes.len()
    &&& t.node_at(c[0]).parent is None
    &&& forall|i: int|
        0 <= i < c.len() - 1 ==> t.node_at(#[trigger] c[i]).children.contains(c[i + 1])
}

/// Along a chain of a well-formed tree, each node's parent pointer names
/// the entry before it.
proof fn lemma_chain_parent(t: TreeView, c: Seq<NodeId>, m: int)
    requires
        t.wf(),
        is_chain(t, c),
        0 <= m < c.len() - 1,
    ensures
        t.node_at(c[m + 1]).parent == Some(c[m]),
{
    assert(t.node_at(c[m]).children.contains(c[m + 1]));
    let j = choose|j: int|
        0 <= j < t.node_at(c[m]).children.len() && t.node_at(c[m]).children[j] == c[m + 1];
    assert(t.nodes[c[m].index as int].children[j] == c[m + 1]);
    assert(t.node_at(t.nodes[c[m].index as int].children[j]).parent == Some(
        t.nodes[c[m].index as int].id,
    ));
    assert(t.nodes[c[m].index as int].id == c[m]);
}

/// If two chain entries coincide, so do the entries the same distance
/// before them: a node's parent is unique.
proof fn lemma_chain_shift(t: TreeView, c: Seq<NodeId>, i: int, j: int, k: int)
    requires
        t.wf(),
        is_chain(t, c),
        0 <= i < j < c.len(),
        c[i] == c[j],
        0 <= k <= i,
    ensures
        c[i - k] == c[j - k],
    decreases k,
{
    if k > 0 {
        lemma_chain_shift(t, c, i, j, k - 1);
        lemma_chain_parent(t, c, i - k);
        lemma_chain_parent(t, c, j - k);
    }
}

/// A chain of a well-formed tree never repeats a node.
proof fn lemma_chain_distinct(t: TreeView, c: Seq<NodeId>)
    requires
        t.wf(),
        is_chain(t, c),
    ensures
        forall|i: int, j: int| 0 <= i < j < c.len() ==> c[i] != c[j],
{
    assert forall|i: int, j: int| 0 <= i < j < c.len() implies c[i] != c[j] by {
        if c[i] == c[j] {
            lemma_chain_shift(t, c, i, j, i);
            lemma_chain_parent(t, c, j - i - 1);
        }
    }
}

/// A chain of a well-formed tree is never longer than the arena: its
/// entries are distinct handles into the arena.
proof fn lemma_chain_len(t: TreeView, c: Seq<NodeId>)
    requires
        t.wf(),
        is_chain(t, c),
    ensures
        c.len() <= t.nodes.len(),
{
    lemma_chain_distinct(t, c);
    let idxs = c.map_values(|id: NodeId| id.index as int);
    assert(idxs.no_duplicates()) by {
        assert forall|i: int, j: int|
            0 <= i < idxs.len() && 0 <= j < idxs.len() && i != j implies idxs[i] != idxs[j] by {
            assert(c[i] != c[j]);
        }
    }
    idxs.unique_seq_to_set();
    let range = vstd::set_lib::set_int_range(0, t.nodes.len() as int);
    vstd::set_lib::lemma_int_range(0, t.nodes.len() as int);
    assert(idxs.to_set().subset_of(range)) by {
        assert forall|x: int| idxs.to_set().contains(x) implies range.contains(x) by {
            let k = choose|k: int| 0 <= k < idxs.len() && idxs[k] == x;
            assert(c[k].index < t.nodes.len());
        }
    }
    vstd::set_lib::lemma_len_subset(idxs.to_set(), range);
}

/// Below a chain's end, the edge sequence does not depend on the depth
/// budget once the budget covers the nodes not yet on the chain.
proof fn lemma_subtree_edges_fuel(t: TreeView, c: Seq<NodeId>, f1: nat, f2: nat)
    requires
        t.wf(),
        is_chain(t, c),
        f1 + c.len() > t.nodes.len(),
        f2 + c.len() > t.nodes.len(),
    ensures
        subtree_edges(t, c.last(), f1) == subtree_edges(t, c.last(), f2),
    decreases t.nodes.len() + 1 - c.len(), 1nat, 0nat,
{
    lemma_chain_len(t, c);
    assert(f1 >= 1 && f2 >= 1);
    let id = c.last();
    let kids = t.node_at(id).children;
    assert forall|k: int| 0 <= k < kids.len() implies t.node_at(id).children.contains(
        #[trigger] kids[k],
    ) by {}
    lemma_forest_edges_fuel(t, c, kids, (f1 - 1) as nat, (f2 - 1) as nat);
}

/// The same, for a run of siblings below a chain's end.
proof fn lemma_forest_edges_fuel(t: TreeView, c: Seq<NodeId>, ids: Seq<NodeId>, f1: nat, f2: nat)
    requires
        t.wf(),
        is_chain(t, c),
        forall|k: int| 0 <= k < ids.len() ==> t.node_at(c.last()).children.contains(#[trigger] ids[k]),
        f1 + c.len() + 1 > t.nodes.len(),
        f2 + c.len() + 1 > t.nodes.len(),
    ensures
        forest_edges(t, ids, f1) == forest_edges(t, ids, f2),
    decreases t.nodes.len() + 1 - c.len(), 0nat, ids.len(),
{
    lemma_chain_len(t, c);
    if ids.len() > 0 {
        let c2 = c.push(ids[0]);
        assert(is_chain(t, c2)) by {
            assert(t.node_at(c.last()).children.contains(ids[0]));
            let j = choose|j: int|
                0 <= j < t.node_at(c.last()).children.len() && t.node_at(c.last()).children[j]
                    == ids[0];
            assert(t.nodes[c.last().index as int].children[j].index < t.nodes.len());
            assert forall|i: int| 0 <= i < c2.len() - 1 implies t.node_at(
                #[trigger] c2[i],
            ).children.contains(c2[i + 1]) by {
                if i < c.len() - 1 {
                    assert(t.node_at(c[i]).children.contains(c[i + 1]));
                }
            }
        }
        lemma_subtree_edges_fuel(t, c2, f1, f2);
        assert(c2.last() == ids[0]);
        assert forall|k: int| 0 <= k < ids.drop_first().len() implies t.node_at(
            c.last(),
        ).children.contains(#[trigger] ids.drop_first()[k]) by {
            assert(ids.drop_first()[k] == ids[k + 1]);
        }
        lemma_forest_edges_fuel(t, c, ids.drop_first(), f1, f2);
    }
}

/// From the root of a well-formed tree, the arena size is depth budget
/// enough: a larger budget walks the same edges. The traversal's edge
/// sequence is therefore the complete document-order walk.
pub proof fn lemma_tree_edges_complete(t: TreeView, fuel: nat)
    requires
        t.wf(),
        fuel >= t.nodes.len(),
    ensures
        subtree_edges(t, t.root, fuel) == tree_edges(t),
{
    let c = seq![t.root];
    assert(c.last() == t.root);
    assert(is_chain(t, c));
    lemma_subtree_edges_fuel(t, c, fuel, t.nodes.len());
}

/// The node an edge speaks of.
pub open spec fn edge_target(e: Edge) -> NodeId {
    match e {
        Edge::Open(id) => id,
        Edge::Close(id) => id,
    }
}

/// Every edge of a subtree of a well-formed tree speaks of a node of the
/// tree.
pub proof fn lemma_subtree_edges_valid(t: TreeView, id: NodeId, fuel: nat)
    requires
        t.wf(),
        t.valid(id),
    ensures
        forall|k: int|
            0 <= k < subtree_edges(t, id, fuel).len() ==> edge_target(
                #[trigger] subtree_edges(t, id, fuel)[k],
            ).index < t.nodes.len(),
    decreases fuel, 0nat,
{
    if fuel > 0 {
        let kids = t.node_at(id).children;
        assert forall|j: int| 0 <= j < kids.len() implies (#[trigger] kids[j]).index
            < t.nodes.len() by {
            assert(t.nodes[id.index as int].children[j].index < t.nodes.len());
        }
        lemma_forest_edges_valid(t, kids, (fuel - 1) as nat);
        let e = subtree_edges(t, id, fuel);
        let f = forest_edges(t, kids, (fuel - 1) as nat);
        assert forall|k: int| 0 <= k < e.len() implies edge_target(#[trigger] e[k]).index
            < t.nodes.len() by {
            if k == 0 {
                assert(e[k] == Edge::Open(id));
            } else if k == e.len() - 1 {
                assert(e[k] == Edge::Close(id));
            } else {
                assert(e[k] == f[k - 1]);
                assert(edge_target(f[k - 1]).index < t.nodes.len());
            }
        }
    }
}

/// Every edge of a forest of valid subtrees speaks of a node of the
/// tree.
pub proof fn lemma_forest_edges_valid(t: TreeView, ids: Seq<NodeId>, fuel: nat)
    requires
        t.wf(),
        forall|j: int| 0 <= j < ids.len() ==> (#[trigger] ids[j]).index < t.nodes.len(),
    ensures
        forall|k: int|
            0 <= k < forest_edges(t, ids, fuel).len() ==> edge_target(
                #[trigger] forest_edges(t, ids, fuel)[k],
            ).index < t.nodes.len(),
    decreases fuel, ids.len(),
{
    if ids.len() > 0 {
        lemma_subtree_edges_valid(t, ids[0], fuel);
        lemma_forest_edges_valid(t, ids.drop_first(), fuel);
        let f = forest_edges(t, ids, fuel);
        let head = subtree_edges(t, ids[0], fuel);
        let tail = forest_edges(t, ids.drop_first(), fuel);
        assert forall|k: int| 0 <= k < f.len() implies edge_target(#[trigger] f[k]).index
            < t.nodes.len() by {
            if k < head.len() {
                assert(f[k] == head[k]);
                assert(edge_target(head[k]).index < t.nodes.len());
            } else {
                assert(f[k] == tail[k - head.len()]);
                assert(edge_target(tail[k - head.len()]).index < t.nodes.len());
            }
        }
    }
}

/// The edges one stack entry still owes: a visited entry owes its Close
/// edge; an unvisited one owes its whole subtree, within its depth
/// budget.
pub open spec fn entry_edges(t: TreeView, e: (NodeId, bool, usize)) -> Seq<Edge> {
    if e.1 {
        seq![Edge::Close(e.0)]
    } else {
        subtree_edges(t, e.0, e.2 as nat)
    }
}

/// The edges a whole stack still owes, top entry first.
pub open spec fn stack_edges(t: TreeView, s: Seq<(NodeId, bool, usize)>) -> Seq<Edge>
    decreases s.len(),
{
    if s.len() == 0 {
        Seq::empty()
    } else {
        entry_edges(t, s.last()) + stack_edges(t, s.drop_last())
    }
}

/// A lazy, single-pass, restartable walk over a snapshot of one tree.
/// The snapshot is a ghost record of the tree at construction time; each
/// `next` call must be given the same, unmutated tree.
pub struct Traversal {
    pub stack: Vec<(NodeId, bool, usize)>,
    pub tree: Ghost<TreeView>,
}

impl Traversal {
    /// The stack refers to nodes of the well-formed snapshot.
    pub open spec fn inv(self) -> bool {
        &&& self.tree@.wf()
        &&& forall|k: int|
            0 <= k < self.stack@.len() ==> (#[trigger] self.stack@[k]).0.index
                < self.tree@.nodes.len()
    }

    /// The edges this traversal has yet to produce.
    pub open spec fn pending(self) -> Seq<Edge> {
        stack_edges(self.tree@, self.stack@)
    }

    /// Start a walk over the whole tree, from its root.
    pub fn new<T: DOMTree>(tree: &T) -> (r: Traversal)
        requires
            tree.view().wf(),
        ensures
            r.tree@ == tree.view(),
            r.inv(),
            r.pending() == tree_edges(tree.view()),
    {
        Traversal::for_subtree(tree, tree.root_id())
    }

    /// Start a walk over the subtree rooted at `id`.
    pub fn for_subtree<T: DOMTree>(tree: &T, id: NodeId) -> (r: Traversal)
        requires
            tree.view().wf(),
            tree.view().valid(id),
        ensures
            r.tree@ == tree.view(),
            r.inv(),
            r.pending() == subtree_edges(tree.view(), id, tree.view().nodes.len()),
    {
        let n = tree.node_count();
        let mut stack: Vec<(NodeId, bool, usize)> = Vec::new();
        stack.push((id, false, n));
        let r = Traversal { stack, tree: Ghost(tree.view()) };
        proof {
            let t = tree.view();
            assert(r.stack@.len() == 1);
            assert(r.stack@.last() == (id, false, n));
            assert(r.stack@.drop_last() =~= Seq::<(NodeId, bool, usize)>::empty());
            assert(stack_edges(t, r.stack@.drop_last()) == Seq::<Edge>::empty());
            assert(entry_edges(t, (id, false, n)) == subtree_edges(t, id, n as nat));
            assert(n as nat == t.nodes.len());
            assert(subtree_edges(t, id, t.nodes.len()) + Seq::<Edge>::empty() =~= subtree_edges(
                t,
                id,
                t.nodes.len(),
            ));
            assert(r.pending() == subtree_edges(t, id, t.nodes.len()));
        }
        r
    }

    /// Produce the next edge of the walk, `None` once it is finished.
    pub fn next<T: DOMTree>(&mut self, tree: &T) -> (r: Option<Edge>)
        requires
            tree.view() == old(self).tree@,
            old(self).inv(),
        ensures
            final(self).tree@ == old(self).tree@,
            final(self).inv(),
            match r {
                Some(e) => old(self).pending().len() > 0 && e == old(self).pending()[0]
                    && final(self).pending() == old(self).pending().drop_first(),
                None => old(self).pending().len() == 0 && final(self).pending().len() == 0,
            },
    {
        let ghost t = self.tree@;
        loop
            invariant
                tree.view() == self.tree@,
                t == self.tree@,
                self.tree@ == old(self).tree@,
                self.inv(),
                self.pending() == old(self).pending(),
            decreases self.stack@.len(),
        {
            let ghost stack0 = self.stack@;
            match self.stack.pop() {
                None => {
                    proof {
                        assert(stack_edges(t, stack0) =~= Seq::<Edge>::empty());
                    }
                    return None;
                },
                Some((id, visited, fuel)) => {
                    proof {
                        assert(stack0.last() == (id, visited, fuel));
                        assert(self.stack@ == stack0.drop_last());
                    }
                    if visited {
                        proof {
                            assert(stack_edges(t, stack0) == seq![Edge::Close(id)] + stack_edges(
                                t,
                                self.stack@,
                            ));
                            assert(stack_edges(t, stack0)[0] == Edge::Close(id));
                            assert(stack_edges(t, stack0).drop_first() =~= stack_edges(
                                t,
                                self.stack@,
                            ));
                        }
                        return Some(Edge::Close(id));
                    }
                    if fuel == 0 {
                        proof {
                            assert(entry_edges(t, (id, false, fuel)) =~= Seq::<Edge>::empty());
                            assert(stack_edges(t, stack0) =~= stack_edges(t, self.stack@));
                        }
                        // A zero budget owes no edges; drop the entry.
                        continue ;
                    }
                    let ghost rest = self.stack@;
                    let ghost kids = t.node_at(id).children;
                    self.stack.push((id, true, fuel));
                    let cnt = tree.child_count(id);
                    let mut j: usize = cnt;
                    proof {
                        assert(self.stack@.drop_last() == rest);
                        assert(stack_edges(t, self.stack@) == seq![Edge::Close(id)] + stack_edges(
                            t,
                            rest,
                        ));
                        assert(kids.skip(cnt as int) =~= Seq::<NodeId>::empty());
                    }
                    while j > 0
                        invariant
                            tree.view() == self.tree@,
                            t == self.tree@,
                            self.inv(),
                            0 <= j <= cnt,
                            cnt == kids.len(),
                            t.valid(id),
                            kids == t.node_at(id).children,
                            fuel >= 1,
                            stack_edges(t, self.stack@) == forest_edges(
                                t,
                                kids.skip(j as int),
                                (fuel - 1) as nat,
                            ) + seq![Edge::Close(id)] + stack_edges(t, rest),
                        decreases j,
                    {
                        j = j - 1;
                        let c = tree.child_at(id, j);
                        proof {
                            assert(t.nodes[id.index as int].children[j as int].index
                                < t.nodes.len());
                        }
                        let ghost before = self.stack@;
                        self.stack.push((c, false, fuel - 1));
                        proof {
                            assert(self.stack@.drop_last() == before);
                            let tail = kids.skip(j as int);
                            assert(tail[0] == c);
                            assert(tail.drop_first() =~= kids.skip(j as int + 1));
                            assert(forest_edges(t, tail, (fuel - 1) as nat) == subtree_edges(
                                t,
                                c,
                                (fuel - 1) as nat,
                            ) + forest_edges(t, kids.skip(j as int + 1), (fuel - 1) as nat));
                            assert(stack_edges(t, self.stack@) =~= forest_edges(
                                t,
                                tail,
                                (fuel - 1) as nat,
                            ) + seq![Edge::Close(id)] + stack_edges(t, rest));
                        }
                    }
                    proof {
                        assert(kids.skip(0) =~= kids);
                        assert(stack_edges(t, stack0) == subtree_edges(t, id, fuel as nat)
                            + stack_edges(t, rest));
                        assert(subtree_edges(t, id, fuel as nat) == seq![Edge::Open(id)]
                            + forest_edges(t, kids, (fuel - 1) as nat) + seq![Edge::Close(id)]);
                        assert(stack_edges(t, stack0)[0] == Edge::Open(id));
                        assert(stack_edges(t, stack0).drop_first() =~= stack_edges(
                            t,
                            self.stack@,
                        ));
                    }
                    return Some(Edge::Open(id));
                },
            }
        }
    }
}

/// A tree that hands out a document-order walk over itself.
pub trait TreeTraversal: DOMTree {
    /// Start a walk over the whole tree, from its root.
    fn traverse(&self) -> (r: Traversal)
        requires
            self.view().wf(),
        ensures
            r.tree@ == self.view(),
            r.inv(),
            r.pending() == tree_edges(self.view()),
    {
        Traversal::new(self)
    }
}

impl TreeTraversal for crate::document::Document {

}

} // verus!
