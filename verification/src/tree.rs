//! The process tree: an append-only arena of process records, a pid index,
//! and the parent/child structure that the trace engine builds up.

use std::collections::HashMap;
use vstd::prelude::*;

verus! {

broadcast use vstd::std_specs::hash::group_hash_axioms;

/// Information about a spawned process.
///
/// Timestamps are nanoseconds on a monotonic clock supplied by the caller.
pub struct ProcessInfo {
    /// The process ID.
    pub pid: i32,
    /// When the process was started (monotonic nanoseconds).
    pub started: u64,
    /// When the process ended, or `None` if it is still running.
    pub ended: Option<u64>,
    /// The commandline with which this process was executed.
    pub cmdline: Vec<String>,
    /// The working directory where the command was invoked.
    pub cwd: Option<String>,
}

/// One arena slot: a process record plus its position in the tree.
pub struct Node {
    /// The process this slot describes.
    pub info: ProcessInfo,
    /// Arena index of the parent, or `None` for the root and for nodes
    /// that have not been attached yet.
    pub parent: Option<usize>,
    /// Arena indices of the children, in attachment order.
    pub children: Vec<usize>,
}

/// A tree of processes.
///
/// Nodes live in `nodes` (the arena) and are never removed; `pids` maps a
/// process id to its arena index; `root` is the index of the originally
/// spawned process. `wall_started` is the wall clock (nanoseconds since the
/// Unix epoch) captured just before the root was spawned; it only anchors
/// the monotonic timestamps when the tree is rendered.
pub struct ProcessTree {
    pub nodes: Vec<Node>,
    pub pids: HashMap<i32, usize>,
    pub root: usize,
    pub wall_started: i64,
}

impl ProcessTree {
    /// Number of nodes in the arena.
    pub open spec fn n(&self) -> int {
        self.nodes@.len() as int
    }

    /// The children sequence of node `i`.
    pub open spec fn child_seq(&self, i: int) -> Seq<usize> {
        self.nodes@[i].children@
    }

    /// A node's parent link points at an earlier node whose child list
    /// holds it.
    pub open spec fn parent_ok(&self, i: int) -> bool {
        match self.nodes@[i].parent {
            Option::None => true,
            Option::Some(p) => 0 <= p < i && exists|j: int|
                0 <= j < self.child_seq(p as int).len() && (#[trigger] self.child_seq(p as int)[j])
                    as int == i,
        }
    }

    /// A node's child list holds distinct later nodes whose parent links
    /// point back at it.
    pub open spec fn children_ok(&self, i: int) -> bool {
        &&& forall|j: int|
            0 <= j < self.child_seq(i).len() ==> i < (#[trigger] self.child_seq(i)[j]) < self.n()
                && self.nodes@[self.child_seq(i)[j] as int].parent == Option::Some(i as usize)
        &&& forall|j: int, k: int|
            0 <= j < k < self.child_seq(i).len() ==> self.child_seq(i)[j] != self.child_seq(i)[k]
    }

    /// The pid index and the arena agree: every key maps to a node with
    /// that pid, and every node's pid is a key mapping back to it.
    pub open spec fn index_ok(&self) -> bool {
        &&& forall|p: i32| #[trigger]
            self.pids@.contains_key(p) ==> 0 <= self.pids@[p] < self.n()
                && self.nodes@[self.pids@[p] as int].info.pid == p
        &&& forall|i: int|
            0 <= i < self.n() ==> self.pids@.contains_key(#[trigger] self.nodes@[i].info.pid)
                && self.pids@[self.nodes@[i].info.pid] as int == i
    }

    /// Well-formedness: the structural invariant every tree the library
    /// hands out satisfies.
    pub open spec fn wf(&self) -> bool {
        &&& 0 <= (self.root as int) < self.n()
        &&& self.nodes@[self.root as int].parent is None
        &&& forall|i: int| 0 <= i < self.n() ==> #[trigger] self.parent_ok(i)
        &&& forall|i: int| 0 <= i < self.n() ==> #[trigger] self.children_ok(i)
        &&& self.index_ok()
    }

    /// Node `x` lies on the parent chain of node `m` (every node is an
    /// ancestor of itself).
    pub open spec fn is_ancestor_of(&self, x: int, m: int) -> bool
        decreases m,
        via Self::is_ancestor_of_decreases
    {
        if self.wf() && 0 <= x < self.n() && 0 <= m < self.n() {
            if x == m {
                true
            } else {
                match self.nodes@[m].parent {
                    Option::None => false,
                    Option::Some(p) => self.is_ancestor_of(x, p as int),
                }
            }
        } else {
            false
        }
    }

    #[via_fn]
    proof fn is_ancestor_of_decreases(&self, x: int, m: int) {
        if self.wf() && 0 <= x < self.n() && 0 <= m < self.n() && x != m {
            assert(self.parent_ok(m));
        }
    }

    /// An ancestor never stands later in the arena than its descendant.
    pub proof fn lemma_ancestor_le(&self, x: int, m: int)
        requires
            self.is_ancestor_of(x, m),
        ensures
            x <= m,
        decreases m,
    {
        if x != m {
            assert(self.parent_ok(m));
            match self.nodes@[m].parent {
                Option::None => {},
                Option::Some(p) => {
                    self.lemma_ancestor_le(x, p as int);
                },
            }
        }
    }

    /// Ancestry is transitive.
    pub proof fn lemma_ancestor_trans(&self, x: int, y: int, m: int)
        requires
            self.is_ancestor_of(x, y),
            self.is_ancestor_of(y, m),
        ensures
            self.is_ancestor_of(x, m),
        decreases m,
    {
        if y != m {
            assert(self.parent_ok(m));
            match self.nodes@[m].parent {
                Option::None => {},
                Option::Some(p) => {
                    self.lemma_ancestor_trans(x, y, p as int);
                },
            }
        }
    }

    /// Two ancestors of one node stand on one chain: one of them is an
    /// ancestor of the other.
    pub proof fn lemma_ancestor_linear(&self, x: int, y: int, m: int)
        requires
            self.is_ancestor_of(x, m),
            self.is_ancestor_of(y, m),
        ensures
            self.is_ancestor_of(x, y) || self.is_ancestor_of(y, x),
        decreases m,
    {
        if x != m && y != m {
            assert(self.parent_ok(m));
            match self.nodes@[m].parent {
                Option::None => {},
                Option::Some(p) => {
                    self.lemma_ancestor_linear(x, y, p as int);
                },
            }
        }
    }

    /// A strict descendant of `a` lies in the subtree of one of `a`'s
    /// children.
    pub proof fn lemma_ancestor_via_child(&self, a: int, m: int)
        requires
            self.is_ancestor_of(a, m),
            a != m,
        ensures
            exists|k: int|
                0 <= k < self.child_seq(a).len() && #[trigger] self.is_ancestor_of(
                    self.child_seq(a)[k] as int,
                    m,
                ),
        decreases m,
    {
        assert(self.parent_ok(m));
        match self.nodes@[m].parent {
            Option::None => {},
            Option::Some(p) => {
                if p as int == a {
                    let k = choose|k: int|
                        0 <= k < self.child_seq(a).len() && (#[trigger] self.child_seq(a)[k])
                            as int == m;
                    assert(self.is_ancestor_of(self.child_seq(a)[k] as int, m));
                } else {
                    self.lemma_ancestor_via_child(a, p as int);
                    let k = choose|k: int|
                        0 <= k < self.child_seq(a).len() && #[trigger] self.is_ancestor_of(
                            self.child_seq(a)[k] as int,
                            p as int,
                        );
                    self.lemma_ancestor_le(self.child_seq(a)[k] as int, p as int);
                    assert(self.is_ancestor_of(self.child_seq(a)[k] as int, m));
                }
            },
        }
    }

    /// The subtrees of two distinct children of one node share nothing.
    pub proof fn lemma_sibling_subtrees_disjoint(&self, a: int, j: int, k: int, m: int)
        requires
            self.wf(),
            0 <= a < self.n(),
            0 <= j < self.child_seq(a).len(),
            0 <= k < self.child_seq(a).len(),
            j != k,
            self.is_ancestor_of(self.child_seq(a)[j] as int, m),
        ensures
            !self.is_ancestor_of(self.child_seq(a)[k] as int, m),
    {
        assert(self.children_ok(a));
        let cj = self.child_seq(a)[j] as int;
        let ck = self.child_seq(a)[k] as int;
        if self.is_ancestor_of(ck, m) {
            self.lemma_ancestor_linear(cj, ck, m);
            if self.is_ancestor_of(cj, ck) {
                assert(cj != ck);
                self.lemma_ancestor_le(cj, a);
            } else {
                assert(ck != cj);
                self.lemma_ancestor_le(ck, a);
            }
        }
    }

    /// No two arena slots describe the same pid.
    pub proof fn lemma_pid_unique(&self, i: int, j: int)
        requires
            self.wf(),
            0 <= i < self.n(),
            0 <= j < self.n(),
            self.nodes@[i].info.pid == self.nodes@[j].info.pid,
        ensures
            i == j,
    {
        assert(self.pids@[self.nodes@[i].info.pid] as int == i);
        assert(self.pids@[self.nodes@[j].info.pid] as int == j);
    }

    /// Build a tree holding only the root process.
    pub fn new(
        pid: i32,
        cmdline: Vec<String>,
        cwd: Option<String>,
        now: u64,
        wall_started: i64,
    ) -> (t: ProcessTree)
        ensures
            t.wf(),
            t.n() == 1,
            t.root == 0,
            t.nodes@[0].info.pid == pid,
            t.nodes@[0].info.started == now,
            t.nodes@[0].info.ended is None,
            t.nodes@[0].info.cmdline == cmdline,
            t.nodes@[0].info.cwd == cwd,
            t.nodes@[0].children@.len() == 0,
            t.pids@ == Map::<i32, usize>::empty().insert(pid, 0usize),
            t.wall_started == wall_started,
            t.stamps_ok(),
            t.stamps_le(now),
    {
        let mut nodes: Vec<Node> = Vec::new();
        nodes.push(
            Node {
                info: ProcessInfo { pid, started: now, ended: None, cmdline, cwd },
                parent: None,
                children: Vec::new(),
            },
        );
        let mut pids: HashMap<i32, usize> = HashMap::new();
        pids.insert(pid, 0);
        let t = ProcessTree { nodes, pids, root: 0, wall_started };
        proof {
            assert forall|i: int| 0 <= i < t.n() implies #[trigger] t.parent_ok(i) by {}
            assert forall|i: int| 0 <= i < t.n() implies #[trigger] t.children_ok(i) by {}
        }
        t
    }

    /// Return the arena index for `pid`, inserting a fresh record (first
    /// seen at monotonic time `now`) when the pid is not known yet.
    pub fn get_or_insert_pid(&mut self, pid: i32, now: u64) -> (idx: usize)
        requires
            old(self).wf(),
        ensures
            final(self).wf(),
            final(self).root == old(self).root,
            final(self).wall_started == old(self).wall_started,
            (idx as int) < final(self).n(),
            final(self).pids@.contains_key(pid) && final(self).pids@[pid] == idx,
            final(self).nodes@[idx as int].info.pid == pid,
            old(self).pids@.contains_key(pid) ==> *final(self) == *old(self) && idx == old(
                self,
            ).pids@[pid],
            !old(self).pids@.contains_key(pid) ==> {
                &&& idx as int == old(self).n()
                &&& final(self).n() == old(self).n() + 1
                &&& forall|i: int|
                    0 <= i < old(self).n() ==> final(self).nodes@[i] == old(self).nodes@[i]
                &&& final(self).pids@ == old(self).pids@.insert(pid, idx)
                &&& final(self).nodes@[idx as int].info.started == now
                &&& final(self).nodes@[idx as int].info.ended is None
                &&& final(self).nodes@[idx as int].info.cmdline@.len() == 0
                &&& final(self).nodes@[idx as int].info.cwd is None
                &&& final(self).nodes@[idx as int].parent is None
                &&& final(self).nodes@[idx as int].children@.len() == 0
            },
    {
        let found: Option<usize> = match self.pids.get(&pid) {
            Some(i) => Some(*i),
            None => None,
        };
        match found {
            Some(i) => i,
            None => {
                let idx = self.nodes.len();
                self.nodes.push(
                    Node {
                        info: ProcessInfo {
                            pid,
                            started: now,
                            ended: None,
                            cmdline: Vec::new(),
                            cwd: None,
                        },
                        parent: None,
                        children: Vec::new(),
                    },
                );
                self.pids.insert(pid, idx);
                proof {
                    assert forall|i: int| 0 <= i < self.n() implies #[trigger] self.parent_ok(i) by {
                        assert(old(self).parent_ok(i) || i == idx);
                        if i < idx {
                            assert(self.child_seq(i) == old(self).child_seq(i));
                            match self.nodes@[i].parent {
                                Option::None => {},
                                Option::Some(p) => {
                                    assert(self.child_seq(p as int) == old(self).child_seq(
                                        p as int,
                                    ));
                                },
                            }
                        }
                    }
                    assert forall|i: int| 0 <= i < self.n() implies #[trigger] self.children_ok(
                        i,
                    ) by {
                        if i < idx {
                            assert(old(self).children_ok(i));
                            assert(self.child_seq(i) == old(self).child_seq(i));
                            assert forall|j: int| 0 <= j < self.child_seq(i).len() implies i < (
                            #[trigger] self.child_seq(i)[j]) < self.n() && self.nodes@[self.child_seq(
                                i,
                            )[j] as int].parent == Option::Some(i as usize) by {
                                assert(old(self).child_seq(i)[j] == self.child_seq(i)[j]);
                                assert(old(self).nodes@[old(self).child_seq(i)[j] as int].parent
                                    == Option::Some(i as usize));
                            }
                        } else {
                            assert(self.child_seq(i).len() == 0);
                        }
                    }
                }
                idx
            },
        }
    }

    /// Attach node `child` as the last child of node `parent`.
    pub(crate) fn attach(&mut self, parent: usize, child: usize)
        requires
            old(self).wf(),
            parent < child,
            (child as int) < old(self).n(),
            old(self).nodes@[child as int].parent is None,
            child != old(self).root,
        ensures
            final(self).wf(),
            final(self).n() == old(self).n(),
            final(self).root == old(self).root,
            final(self).wall_started == old(self).wall_started,
            final(self).pids@ == old(self).pids@,
            forall|i: int|
                0 <= i < old(self).n() && i != parent && i != child ==> final(self).nodes@[i] == old(
                    self,
                ).nodes@[i],
            final(self).nodes@[parent as int].info == old(self).nodes@[parent as int].info,
            final(self).nodes@[parent as int].parent == old(self).nodes@[parent as int].parent,
            final(self).child_seq(parent as int) == old(self).child_seq(parent as int).push(child),
            final(self).nodes@[child as int].info == old(self).nodes@[child as int].info,
            final(self).nodes@[child as int].parent == Option::Some(parent),
            final(self).child_seq(child as int) == old(self).child_seq(child as int),
    {
        proof {
            // The child sits in no child list yet: a list entry's node points
            // back at its list's owner, and the child points nowhere.
            assert forall|q: int, j: int|
                0 <= q < old(self).n() && 0 <= j < old(self).child_seq(q).len() implies old(
                self,
            ).child_seq(q)[j] != child by {
                assert(old(self).children_ok(q));
            }
        }
        self.nodes[parent].children.push(child);
        self.nodes[child].parent = Some(parent);
        proof {
            assert forall|i: int| 0 <= i < self.n() implies #[trigger] self.parent_ok(i) by {
                assert(old(self).parent_ok(i));
                if i == child as int {
                    let last: int = self.child_seq(parent as int).len() - 1;
                    assert((self.child_seq(parent as int)[last]) as int == i);
                } else {
                    match self.nodes@[i].parent {
                        Option::None => {},
                        Option::Some(p) => {
                            let j = choose|j: int|
                                0 <= j < old(self).child_seq(p as int).len() && (
                                #[trigger] old(self).child_seq(p as int)[j]) as int == i;
                            assert((self.child_seq(p as int)[j]) as int == i);
                        },
                    }
                }
            }
            assert forall|i: int| 0 <= i < self.n() implies #[trigger] self.children_ok(i) by {
                assert(old(self).children_ok(i));
                if i == parent as int {
                    assert forall|j: int|
                        0 <= j < self.child_seq(i).len() implies i < (#[trigger] self.child_seq(
                        i,
                    )[j]) < self.n() && self.nodes@[self.child_seq(i)[j] as int].parent
                        == Option::Some(i as usize) by {
                        if j < old(self).child_seq(i).len() {
                            assert(self.child_seq(i)[j] == old(self).child_seq(i)[j]);
                            assert(old(self).child_seq(i)[j] != child);
                        } else {
                            assert(self.child_seq(i)[j] == child);
                        }
                    }
                    assert forall|j: int, k: int|
                        0 <= j < k < self.child_seq(i).len() implies self.child_seq(i)[j]
                        != self.child_seq(i)[k] by {
                        if k < old(self).child_seq(i).len() {
                            assert(old(self).child_seq(i)[j] != old(self).child_seq(i)[k]);
                        } else {
                            assert(self.child_seq(i)[k] == child);
                            assert(old(self).child_seq(i)[j] != child);
                        }
                    }
                } else {
                    assert(self.child_seq(i) == old(self).child_seq(i));
                    assert forall|j: int|
                        0 <= j < self.child_seq(i).len() implies i < (#[trigger] self.child_seq(
                        i,
                    )[j]) < self.n() && self.nodes@[self.child_seq(i)[j] as int].parent
                        == Option::Some(i as usize) by {
                        assert(old(self).child_seq(i)[j] != child);
                        assert(old(self).nodes@[old(self).child_seq(i)[j] as int].parent
                            == Option::Some(i as usize));
                    }
                }
            }
        }
    }

    /// The process record behind a node handle, as the traversal hands
    /// them out.
    pub fn node_info(&self, h: usize) -> (r: &ProcessInfo)
        requires
            (h as int) < self.n(),
        ensures
            *r == self.nodes@[h as int].info,
    {
        &self.nodes[h].info
    }

    /// Look up a process in the tree by pid.
    pub fn get(&self, pid: i32) -> (r: Option<&ProcessInfo>)
        requires
            self.wf(),
        ensures
            match r {
                Option::Some(info) => self.pids@.contains_key(pid) && *info == self.nodes@[self.pids@[pid] as int].info,
                Option::None => !self.pids@.contains_key(pid),
            },
    {
        match self.pids.get(&pid) {
            None => None,
            Some(i) => Some(&self.nodes[*i].info),
        }
    }
}

} // verus!
