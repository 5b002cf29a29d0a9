//! Depth-first traversal of the process tree, with enter/leave edges, and
//! the laws that hold of it.

use crate::tree::ProcessTree;
use vstd::prelude::*;

verus! {

/// One step of a depth-first walk: entering a node before its children,
/// or leaving it after them. The payload is the node's arena index.
#[derive(Clone, Copy, Debug, PartialEq, Eq, Structural)]
pub enum NodeEdge {
    Start(usize),
    End(usize),
}

impl ProcessTree {
    /// The depth-first edge sequence of the subtree rooted at `a`.
    pub open spec fn subtree_edges(&self, a: int) -> Seq<NodeEdge>
        decreases self.n() - a, 1int, 0int,
        via Self::subtree_edges_decreases
    {
        if self.wf() && 0 <= a < self.n() {
            seq![NodeEdge::Start(a as usize)] + self.children_edges(a, 0) + seq![
                NodeEdge::End(a as usize),
            ]
        } else {
            Seq::empty()
        }
    }

    /// The concatenated edge sequences of `a`'s children from position
    /// `j` on.
    pub open spec fn children_edges(&self, a: int, j: int) -> Seq<NodeEdge>
        decreases self.n() - a, 0int, self.child_seq(a).len() - j,
        via Self::children_edges_decreases
    {
        if self.wf() && 0 <= a < self.n() && 0 <= j {
            if j >= self.child_seq(a).len() {
                Seq::empty()
            } else {
                self.subtree_edges(self.child_seq(a)[j] as int) + self.children_edges(a, j + 1)
            }
        } else {
            Seq::empty()
        }
    }

    #[via_fn]
    proof fn subtree_edges_decreases(&self, a: int) {
    }

    #[via_fn]
    proof fn children_edges_decreases(&self, a: int, j: int) {
        if self.wf() && 0 <= a < self.n() && 0 <= j && j < self.child_seq(a).len() {
            assert(self.children_ok(a));
        }
    }

    fn collect_edges(&self, a: usize, out: &mut Vec<NodeEdge>)
        requires
            self.wf(),
            (a as int) < self.n(),
        ensures
            final(out)@ == old(out)@ + self.subtree_edges(a as int),
        decreases self.nodes@.len() - a,
    {
        out.push(NodeEdge::Start(a));
        let num_children = self.nodes[a].children.len();
        let mut j: usize = 0;
        proof {
            assert(out@ =~= old(out)@ + seq![NodeEdge::Start(a)]);
        }
        while j < num_children
            invariant
                self.wf(),
                (a as int) < self.n(),
                num_children == self.child_seq(a as int).len(),
                j <= num_children,
                out@ == old(out)@ + seq![NodeEdge::Start(a)] + self.children_edges(a as int, 0)
                    .take(out@.len() - old(out)@.len() - 1),
                out@.len() - old(out)@.len() - 1 + self.children_edges(a as int, j as int).len()
                    == self.children_edges(a as int, 0).len(),
                self.children_edges(a as int, 0) =~= self.children_edges(a as int, 0).take(
                    out@.len() - old(out)@.len() - 1,
                ) + self.children_edges(a as int, j as int),
            decreases num_children - j,
        {
            let c = self.nodes[a].children[j];
            proof {
                assert(self.children_ok(a as int));
                assert(self.child_seq(a as int)[j as int] == c);
            }
            let ghost mid = out@;
            self.collect_edges(c, out);
            j += 1;
            proof {
                assert(self.children_edges(a as int, j - 1) == self.subtree_edges(c as int)
                    + self.children_edges(a as int, j as int));
                assert(out@ =~= old(out)@ + seq![NodeEdge::Start(a)] + (self.children_edges(
                    a as int,
                    0,
                ).take(mid.len() - old(out)@.len() - 1) + self.subtree_edges(c as int)));
                assert(self.children_edges(a as int, 0).take(out@.len() - old(out)@.len() - 1)
                    =~= self.children_edges(a as int, 0).take(mid.len() - old(out)@.len() - 1)
                    + self.subtree_edges(c as int));
                assert(self.children_edges(a as int, 0) =~= self.children_edges(a as int, 0).take(
                    out@.len() - old(out)@.len() - 1,
                ) + self.children_edges(a as int, j as int));
            }
        }
        out.push(NodeEdge::End(a));
        proof {
            assert(self.children_edges(a as int, num_children as int) =~= Seq::<NodeEdge>::empty());
            assert(self.children_edges(a as int, 0).take(
                self.children_edges(a as int, 0).len() as int,
            ) =~= self.children_edges(a as int, 0));
            assert(out@ =~= old(out)@ + self.subtree_edges(a as int));
        }
    }

    /// Walk the tree depth first from the root, in sibling attachment
    /// order.
    pub fn traverse(&self) -> (t: Traverse)
        requires
            self.wf(),
        ensures
            t.edges@ == self.subtree_edges(self.root as int),
            t.pos == 0,
    {
        let mut edges: Vec<NodeEdge> = Vec::new();
        self.collect_edges(self.root, &mut edges);
        proof {
            assert(edges@ =~= self.subtree_edges(self.root as int));
        }
        Traverse { edges, pos: 0 }
    }
}

/// A cursor over the depth-first edge sequence of a tree.
pub struct Traverse {
    pub edges: Vec<NodeEdge>,
    pub pos: usize,
}

impl Traverse {
    /// The next edge of the walk, or `None` once all edges were handed
    /// out.
    pub fn next(&mut self) -> (r: Option<NodeEdge>)
        ensures
            final(self).edges == old(self).edges,
            (old(self).pos as int) < old(self).edges@.len() ==> r == Option::Some(
                old(self).edges@[old(self).pos as int],
            ) && final(self).pos == old(self).pos + 1,
            (old(self).pos as int) >= old(self).edges@.len() ==> r is None && final(self).pos
                == old(self).pos,
    {
        if self.pos < self.edges.len() {
            let e = self.edges[self.pos];
            self.pos += 1;
            Some(e)
        } else {
            None
        }
    }
}

/// How many times edge `e` occurs in `s`.
pub open spec fn edge_count(s: Seq<NodeEdge>, e: NodeEdge) -> int
    decreases s.len(),
{
    if s.len() == 0 {
        0
    } else {
        edge_count(s.drop_last(), e) + if s.last() == e {
            1int
        } else {
            0int
        }
    }
}

pub proof fn lemma_edge_count_add(s1: Seq<NodeEdge>, s2: Seq<NodeEdge>, e: NodeEdge)
    ensures
        edge_count(s1 + s2, e) == edge_count(s1, e) + edge_count(s2, e),
    decreases s2.len(),
{
    if s2.len() == 0 {
        assert(s1 + s2 =~= s1);
    } else {
        assert((s1 + s2).drop_last() =~= s1 + s2.drop_last());
        lemma_edge_count_add(s1, s2.drop_last(), e);
    }
}

/// The number of enter edges minus the number of leave edges in `s`.
pub open spec fn edge_net(s: Seq<NodeEdge>) -> int
    decreases s.len(),
{
    if s.len() == 0 {
        0
    } else {
        edge_net(s.drop_last()) + match s.last() {
            NodeEdge::Start(_) => 1int,
            NodeEdge::End(_) => -1int,
        }
    }
}

pub proof fn lemma_edge_net_add(s1: Seq<NodeEdge>, s2: Seq<NodeEdge>)
    ensures
        edge_net(s1 + s2) == edge_net(s1) + edge_net(s2),
    decreases s2.len(),
{
    if s2.len() == 0 {
        assert(s1 + s2 =~= s1);
    } else {
        assert((s1 + s2).drop_last() =~= s1 + s2.drop_last());
        lemma_edge_net_add(s1, s2.drop_last());
    }
}

proof fn lemma_edge_count_singleton(x: NodeEdge, e: NodeEdge)
    ensures
        edge_count(seq![x], e) == if x == e {
            1int
        } else {
            0int
        },
{
    assert(seq![x].drop_last() =~= Seq::<NodeEdge>::empty());
    assert(edge_count(Seq::<NodeEdge>::empty(), e) == 0);
    assert(seq![x].last() == x);
}

impl ProcessTree {
    /// The arena indices fit the machine: sequence positions and node
    /// handles convert back and forth without loss.
    pub proof fn lemma_n_fits_usize(&self)
        ensures
            self.n() <= usize::MAX,
    {
        vstd::std_specs::vec::axiom_spec_len(&self.nodes);
    }

    proof fn lemma_subtree_edge_count(&self, a: int, m: int)
        requires
            self.wf(),
            0 <= a < self.n(),
            0 <= m < self.n(),
        ensures
            edge_count(self.subtree_edges(a), NodeEdge::Start(m as usize)) == (
            if self.is_ancestor_of(a, m) {
                1int
            } else {
                0int
            }),
            edge_count(self.subtree_edges(a), NodeEdge::End(m as usize)) == (
            if self.is_ancestor_of(a, m) {
                1int
            } else {
                0int
            }),
        decreases self.n() - a, 1int, 0int,
    {
        self.lemma_n_fits_usize();
        let s = NodeEdge::Start(m as usize);
        let en = NodeEdge::End(m as usize);
        let sa = seq![NodeEdge::Start(a as usize)];
        let ea = seq![NodeEdge::End(a as usize)];
        let ce = self.children_edges(a, 0);
        lemma_edge_count_add(sa + ce, ea, s);
        lemma_edge_count_add(sa, ce, s);
        lemma_edge_count_add(sa + ce, ea, en);
        lemma_edge_count_add(sa, ce, en);
        lemma_edge_count_singleton(NodeEdge::Start(a as usize), s);
        lemma_edge_count_singleton(NodeEdge::Start(a as usize), en);
        lemma_edge_count_singleton(NodeEdge::End(a as usize), s);
        lemma_edge_count_singleton(NodeEdge::End(a as usize), en);
        self.lemma_children_edge_count(a, 0, m);
        assert(self.children_ok(a));
        if a == m {
            // No child subtree reaches back up to `a`.
            assert forall|k: int|
                0 <= k < self.child_seq(a).len() implies !(#[trigger] self.is_ancestor_of(
                self.child_seq(a)[k] as int,
                m,
            )) by {
                if self.is_ancestor_of(self.child_seq(a)[k] as int, m) {
                    self.lemma_ancestor_le(self.child_seq(a)[k] as int, m);
                }
            }
        } else {
            if exists|k: int|
                0 <= k < self.child_seq(a).len() && #[trigger] self.is_ancestor_of(
                    self.child_seq(a)[k] as int,
                    m,
                ) {
                let k = choose|k: int|
                    0 <= k < self.child_seq(a).len() && #[trigger] self.is_ancestor_of(
                        self.child_seq(a)[k] as int,
                        m,
                    );
                let c = self.child_seq(a)[k] as int;
                assert(self.is_ancestor_of(a, a));
                assert(self.nodes@[c].parent == Option::Some(a as usize));
                assert(self.is_ancestor_of(a, c));
                self.lemma_ancestor_trans(a, c, m);
            } else {
                if self.is_ancestor_of(a, m) {
                    self.lemma_ancestor_via_child(a, m);
                }
            }
        }
    }

    proof fn lemma_children_edge_count(&self, a: int, j: int, m: int)
        requires
            self.wf(),
            0 <= a < self.n(),
            0 <= j,
            0 <= m < self.n(),
        ensures
            edge_count(self.children_edges(a, j), NodeEdge::Start(m as usize)) == (
            if exists|k: int|
                j <= k < self.child_seq(a).len() && #[trigger] self.is_ancestor_of(
                    self.child_seq(a)[k] as int,
                    m,
                ) {
                1int
            } else {
                0int
            }),
            edge_count(self.children_edges(a, j), NodeEdge::End(m as usize)) == (
            if exists|k: int|
                j <= k < self.child_seq(a).len() && #[trigger] self.is_ancestor_of(
                    self.child_seq(a)[k] as int,
                    m,
                ) {
                1int
            } else {
                0int
            }),
        decreases self.n() - a, 0int, self.child_seq(a).len() - j,
    {
        let s = NodeEdge::Start(m as usize);
        let en = NodeEdge::End(m as usize);
        assert(self.children_ok(a));
        if j >= self.child_seq(a).len() {
            assert(self.children_edges(a, j) =~= Seq::<NodeEdge>::empty());
        } else {
            let c = self.child_seq(a)[j] as int;
            self.lemma_subtree_edge_count(c, m);
            self.lemma_children_edge_count(a, j + 1, m);
            lemma_edge_count_add(self.subtree_edges(c), self.children_edges(a, j + 1), s);
            lemma_edge_count_add(self.subtree_edges(c), self.children_edges(a, j + 1), en);
            if self.is_ancestor_of(c, m) {
                assert forall|k: int|
                    j + 1 <= k < self.child_seq(a).len() implies !(#[trigger] self.is_ancestor_of(
                    self.child_seq(a)[k] as int,
                    m,
                )) by {
                    self.lemma_sibling_subtrees_disjoint(a, j, k, m);
                }
            }
        }
    }

    proof fn lemma_children_net_zero(&self, a: int, j: int)
        requires
            self.wf(),
            0 <= a < self.n(),
            0 <= j,
        ensures
            edge_net(self.children_edges(a, j)) == 0,
        decreases self.n() - a, 0int, self.child_seq(a).len() - j,
    {
        assert(self.children_ok(a));
        if j >= self.child_seq(a).len() {
            assert(self.children_edges(a, j) =~= Seq::<NodeEdge>::empty());
        } else {
            let c = self.child_seq(a)[j] as int;
            self.lemma_subtree_net_zero(c);
            self.lemma_children_net_zero(a, j + 1);
            lemma_edge_net_add(self.subtree_edges(c), self.children_edges(a, j + 1));
        }
    }

    /// Law: over the whole traversal, enter and leave edges balance: each
    /// subtree contributes as many of one as of the other.
    pub proof fn lemma_subtree_net_zero(&self, a: int)
        requires
            self.wf(),
            0 <= a < self.n(),
        ensures
            edge_net(self.subtree_edges(a)) == 0,
        decreases self.n() - a, 1int, 0int,
    {
        let sa = seq![NodeEdge::Start(a as usize)];
        let ea = seq![NodeEdge::End(a as usize)];
        self.lemma_children_net_zero(a, 0);
        lemma_edge_net_add(sa + self.children_edges(a, 0), ea);
        lemma_edge_net_add(sa, self.children_edges(a, 0));
        assert(sa.drop_last() =~= Seq::<NodeEdge>::empty());
        assert(ea.drop_last() =~= Seq::<NodeEdge>::empty());
        assert(edge_net(Seq::<NodeEdge>::empty()) == 0);
        assert(edge_net(sa) == 1);
        assert(edge_net(ea) == -1);
    }

    proof fn lemma_children_prefix_net(&self, a: int, j: int, k: int)
        requires
            self.wf(),
            0 <= a < self.n(),
            0 <= j,
            0 <= k <= self.children_edges(a, j).len(),
        ensures
            edge_net(self.children_edges(a, j).take(k)) >= 0,
        decreases self.n() - a, 0int, self.child_seq(a).len() - j,
    {
        assert(self.children_ok(a));
        if j >= self.child_seq(a).len() {
            assert(self.children_edges(a, j).take(k) =~= Seq::<NodeEdge>::empty());
        } else {
            let c = self.child_seq(a)[j] as int;
            let se = self.subtree_edges(c);
            let rest = self.children_edges(a, j + 1);
            if k <= se.len() {
                assert((se + rest).take(k) =~= se.take(k));
                self.lemma_subtree_prefix_net(c, k);
            } else {
                assert((se + rest).take(k) =~= se + rest.take(k - se.len()));
                self.lemma_subtree_net_zero(c);
                self.lemma_children_prefix_net(a, j + 1, k - se.len());
                lemma_edge_net_add(se, rest.take(k - se.len()));
            }
        }
    }

    /// Law: the traversal is properly nested: a proper nonempty prefix of
    /// a subtree's edge sequence always holds more enters than leaves,
    /// and the full sequence balances exactly.
    pub proof fn lemma_subtree_prefix_net(&self, a: int, k: int)
        requires
            self.wf(),
            0 <= a < self.n(),
            0 <= k <= self.subtree_edges(a).len(),
        ensures
            edge_net(self.subtree_edges(a).take(k)) >= 0,
            0 < k < self.subtree_edges(a).len() ==> edge_net(self.subtree_edges(a).take(k)) >= 1,
        decreases self.n() - a, 1int, 0int,
    {
        let sa = seq![NodeEdge::Start(a as usize)];
        let ea = seq![NodeEdge::End(a as usize)];
        let ce = self.children_edges(a, 0);
        let full = self.subtree_edges(a);
        assert(edge_net(Seq::<NodeEdge>::empty()) == 0);
        assert(sa.drop_last() =~= Seq::<NodeEdge>::empty());
        assert(edge_net(sa) == 1);
        if k == 0 {
            assert(full.take(k) =~= Seq::<NodeEdge>::empty());
        } else if k <= 1 + ce.len() {
            assert(full.take(k) =~= sa + ce.take(k - 1));
            self.lemma_children_prefix_net(a, 0, k - 1);
            lemma_edge_net_add(sa, ce.take(k - 1));
        } else {
            assert(k == full.len());
            assert(full.take(k) =~= full);
            self.lemma_subtree_net_zero(a);
        }
    }

    /// Law: the depth-first traversal of a well-formed tree enters every
    /// node of the root's subtree exactly once and leaves it exactly
    /// once, it touches no node outside that subtree, and its enter and
    /// leave edges balance node for node.
    pub proof fn lemma_traverse_each_node_once(&self, m: int)
        requires
            self.wf(),
            0 <= m < self.n(),
        ensures
            edge_count(self.subtree_edges(self.root as int), NodeEdge::Start(m as usize)) == (
            if self.is_ancestor_of(self.root as int, m) {
                1int
            } else {
                0int
            }),
            edge_count(self.subtree_edges(self.root as int), NodeEdge::End(m as usize))
                == edge_count(self.subtree_edges(self.root as int), NodeEdge::Start(m as usize)),
    {
        self.lemma_subtree_edge_count(self.root as int, m);
    }
}

} // verus!
