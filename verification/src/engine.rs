//! The trace engine's decision logic: one kernel notification in, one tree
//! mutation and one resume decision out.
//!
//! The caller owns the blocking work (waitpid, ptrace requests, procfs
//! reads). It translates each stop into an [`Event`], calls
//! [`ProcessTree::handle_event`] with the current monotonic time, performs
//! the returned [`Action`], and repeats until [`ProcessTree::all_ended`]
//! holds.

use crate::ext::{lossy_string, utf8_lossy};
use crate::tree::ProcessTree;
use vstd::prelude::*;

verus! {

/// The signal number of SIGSTOP on Linux: the initial stop of a freshly
/// attached tracee, which must not be re-delivered on resume.
pub const SIGSTOP: i32 = 19;

/// One stop reported by the kernel for a traced process, with the
/// auxiliary data the caller already fetched for it.
pub enum Event {
    /// The process exited normally.
    Exited { pid: i32 },
    /// The process was killed by a signal.
    Signaled { pid: i32, signal: i32 },
    /// The process created a child by fork, vfork or clone; `child_pid` is
    /// the kernel's event message, `child_cwd` the resolution of the
    /// child's /proc/<pid>/cwd (absent when that failed).
    Forked { pid: i32, child_pid: i32, child_cwd: Option<String> },
    /// The process completed an exec; `cmdline` holds the raw bytes of its
    /// /proc/<pid>/cmdline.
    Execed { pid: i32, cmdline: Vec<u8> },
    /// A signal-delivery stop.
    Stopped { pid: i32, signal: i32 },
}

/// What the caller must do to the tracee after an event was folded into
/// the tree.
#[derive(Clone, Copy, Debug, PartialEq, Eq, Structural)]
pub enum Action {
    /// The process is gone; there is nothing to resume.
    NoResume,
    /// Resume `pid` without delivering a signal.
    Resume { pid: i32 },
    /// Resume `pid` and deliver `signal` to it.
    ResumeWithSignal { pid: i32, signal: i32 },
}

/// A protocol violation: the kernel's event stream named a process the
/// tree cannot account for.
#[derive(Clone, Copy, Debug, PartialEq, Eq, Structural)]
pub enum TraceError {
    /// A fork, vfork or clone event arrived from a pid with no node.
    UnknownParent { pid: i32 },
    /// An exec event arrived from a pid with no node.
    UnknownExecPid { pid: i32 },
    /// The kernel named a child that cannot be attached: already placed,
    /// the root, or not younger than its parent.
    BadAttach { pid: i32, child_pid: i32 },
}

impl ProcessTree {
    /// Every timestamp in the tree respects the clock: nothing started
    /// before the root, and nothing ended before it started.
    pub open spec fn stamps_ok(&self) -> bool {
        forall|i: int|
            0 <= i < self.n() ==> (#[trigger] self.nodes@[i].info).started
                >= self.nodes@[self.root as int].info.started && (self.nodes@[i].info.ended
                is Some ==> self.nodes@[i].info.started <= self.nodes@[i].info.ended->0)
    }

    /// Every timestamp in the tree is at most `hi`.
    pub open spec fn stamps_le(&self, hi: u64) -> bool {
        forall|i: int|
            0 <= i < self.n() ==> (#[trigger] self.nodes@[i].info).started <= hi && (
            self.nodes@[i].info.ended is Some ==> self.nodes@[i].info.ended->0 <= hi)
    }

    /// What `get_or_insert_pid` leaves behind: either the tree is
    /// untouched, or a fresh unattached record for `pid`, first seen at
    /// `now`, stands at the end of the arena.
    pub open spec fn materialized_post(pre: Self, post: Self, pid: i32, now: u64) -> bool {
        if pre.pids@.contains_key(pid) {
            post == pre
        } else {
            &&& post.n() == pre.n() + 1
            &&& forall|k: int| 0 <= k < pre.n() ==> post.nodes@[k] == pre.nodes@[k]
            &&& post.pids@ == pre.pids@.insert(pid, pre.n() as usize)
            &&& post.nodes@[pre.n()].info.pid == pid
            &&& post.nodes@[pre.n()].info.started == now
            &&& post.nodes@[pre.n()].info.ended is None
            &&& post.nodes@[pre.n()].info.cmdline@.len() == 0
            &&& post.nodes@[pre.n()].info.cwd is None
            &&& post.nodes@[pre.n()].parent is None
            &&& post.nodes@[pre.n()].children@.len() == 0
            &&& post.root == pre.root
            &&& post.wall_started == pre.wall_started
        }
    }

    /// What handling an exit or a fatal signal leaves behind: the node for
    /// `pid` exists (materialized at `now` if it was unknown) and carries
    /// an `ended` stamp, set to `now` unless one was already set; nothing
    /// else changes.
    pub open spec fn ended_post(pre: Self, post: Self, pid: i32, now: u64) -> bool {
        &&& post.pids@.contains_key(pid)
        &&& {
            let i = post.pids@[pid] as int;
            if pre.pids@.contains_key(pid) {
                &&& i == pre.pids@[pid]
                &&& post.n() == pre.n()
                &&& post.pids@ == pre.pids@
                &&& post.root == pre.root
                &&& post.wall_started == pre.wall_started
                &&& forall|k: int| 0 <= k < pre.n() && k != i ==> post.nodes@[k] == pre.nodes@[k]
                &&& post.nodes@[i].parent == pre.nodes@[i].parent
                &&& post.nodes@[i].children@ == pre.nodes@[i].children@
                &&& post.nodes@[i].info.pid == pre.nodes@[i].info.pid
                &&& post.nodes@[i].info.started == pre.nodes@[i].info.started
                &&& post.nodes@[i].info.cmdline == pre.nodes@[i].info.cmdline
                &&& post.nodes@[i].info.cwd == pre.nodes@[i].info.cwd
                &&& post.nodes@[i].info.ended == (if pre.nodes@[i].info.ended is Some {
                    pre.nodes@[i].info.ended
                } else {
                    Option::Some(now)
                })
            } else {
                &&& i == pre.n()
                &&& post.n() == pre.n() + 1
                &&& forall|k: int| 0 <= k < pre.n() ==> post.nodes@[k] == pre.nodes@[k]
                &&& post.pids@ == pre.pids@.insert(pid, pre.n() as usize)
                &&& post.root == pre.root
                &&& post.wall_started == pre.wall_started
                &&& post.nodes@[i].info.pid == pid
                &&& post.nodes@[i].info.started == now
                &&& post.nodes@[i].info.ended == Option::Some(now)
                &&& post.nodes@[i].info.cmdline@.len() == 0
                &&& post.nodes@[i].info.cwd is None
                &&& post.nodes@[i].parent is None
                &&& post.nodes@[i].children@.len() == 0
            }
        }
    }

    /// Well-formedness only depends on the tree's shape, the pids and the
    /// index: updates to the other `info` fields preserve it.
    proof fn lemma_wf_after_info_update(pre: Self, post: Self)
        requires
            pre.wf(),
            post.n() == pre.n(),
            post.root == pre.root,
            post.pids@ == pre.pids@,
            forall|k: int|
                0 <= k < pre.n() ==> (#[trigger] post.nodes@[k]).parent == pre.nodes@[k].parent
                    && post.nodes@[k].children@ == pre.nodes@[k].children@
                    && post.nodes@[k].info.pid == pre.nodes@[k].info.pid,
        ensures
            post.wf(),
    {
        assert forall|i: int| 0 <= i < post.n() implies #[trigger] post.parent_ok(i) by {
            assert(pre.parent_ok(i));
            match post.nodes@[i].parent {
                Option::None => {},
                Option::Some(p) => {
                    assert(pre.child_seq(p as int).contains(i as usize));
                    assert(post.child_seq(p as int) == pre.child_seq(p as int));
                },
            }
        }
        assert forall|i: int| 0 <= i < post.n() implies #[trigger] post.children_ok(i) by {
            assert(pre.children_ok(i));
            assert(post.child_seq(i) == pre.child_seq(i));
            assert forall|j: int|
                0 <= j < post.child_seq(i).len() implies i < (#[trigger] post.child_seq(i)[j])
                < post.n() && post.nodes@[post.child_seq(i)[j] as int].parent == Option::Some(
                i as usize,
            ) by {
                assert(pre.child_seq(i)[j] == post.child_seq(i)[j]);
                assert(pre.nodes@[pre.child_seq(i)[j] as int].parent == Option::Some(i as usize));
            }
        }
    }

    /// Record that `pid` is gone: give its node (materializing it if the
    /// exit raced ahead of everything else) an `ended` stamp.
    fn handle_ended(&mut self, pid: i32, now: u64)
        requires
            old(self).wf(),
        ensures
            final(self).wf(),
            Self::ended_post(*old(self), *final(self), pid, now),
            old(self).stamps_ok() && old(self).stamps_le(now) ==> final(self).stamps_ok()
                && final(self).stamps_le(now),
    {
        let idx = self.get_or_insert_pid(pid, now);
        if self.nodes[idx].info.ended.is_none() {
            let ghost mid = *self;
            self.nodes[idx].info.ended = Some(now);
            proof {
                Self::lemma_wf_after_info_update(mid, *self);
            }
        }
    }

    /// What handling a fork, vfork or clone event leaves behind. The
    /// parent must already have a node, else nothing changes and the event
    /// is an error; the child is materialized (at `now` if unknown),
    /// seeded with the first element of the parent's commandline and the
    /// given working directory, and attached as the parent's last child. A
    /// child the tree cannot attach (already placed, the root, or not
    /// younger than its parent) is an error that leaves the tree as it
    /// was.
    pub open spec fn forked_post(
        pre: Self,
        post: Self,
        pid: i32,
        child_pid: i32,
        child_cwd: Option<String>,
        now: u64,
        r: Result<Action, TraceError>,
    ) -> bool {
        if !pre.pids@.contains_key(pid) {
            r == Result::<Action, TraceError>::Err(TraceError::UnknownParent { pid }) && post
                == pre
        } else {
            let p = pre.pids@[pid] as int;
            let fresh = !pre.pids@.contains_key(child_pid);
            let c = if fresh {
                pre.n()
            } else {
                pre.pids@[child_pid] as int
            };
            let attachable = p < c && c != pre.root && (fresh || pre.nodes@[c].parent is None);
            if !attachable {
                r == Result::<Action, TraceError>::Err(
                    TraceError::BadAttach { pid, child_pid },
                ) && post == pre
            } else {
                &&& r == Result::<Action, TraceError>::Ok(Action::Resume { pid })
                &&& post.n() == (if fresh {
                    pre.n() + 1
                } else {
                    pre.n()
                })
                &&& post.pids@ == (if fresh {
                    pre.pids@.insert(child_pid, pre.n() as usize)
                } else {
                    pre.pids@
                })
                &&& post.root == pre.root
                &&& post.wall_started == pre.wall_started
                &&& forall|k: int|
                    0 <= k < pre.n() && k != p && k != c ==> post.nodes@[k] == pre.nodes@[k]
                &&& post.nodes@[p].info == pre.nodes@[p].info
                &&& post.nodes@[p].parent == pre.nodes@[p].parent
                &&& post.child_seq(p) == pre.child_seq(p).push(c as usize)
                &&& post.nodes@[c].parent == Option::Some(p as usize)
                &&& post.child_seq(c) == (if fresh {
                    Seq::<usize>::empty()
                } else {
                    pre.child_seq(c)
                })
                &&& post.nodes@[c].info.pid == child_pid
                &&& post.nodes@[c].info.started == (if fresh {
                    now
                } else {
                    pre.nodes@[c].info.started
                })
                &&& post.nodes@[c].info.ended == (if fresh {
                    Option::<u64>::None
                } else {
                    pre.nodes@[c].info.ended
                })
                &&& post.nodes@[c].info.cwd == child_cwd
                &&& post.nodes@[c].info.cmdline@.len() == (if pre.nodes@[p].info.cmdline@.len()
                    > 0 {
                    1int
                } else {
                    0int
                })
                &&& (pre.nodes@[p].info.cmdline@.len() > 0 ==> post.nodes@[c].info.cmdline@[0]@
                    == pre.nodes@[p].info.cmdline@[0]@)
            }
        }
    }

    fn handle_fork(&mut self, pid: i32, child_pid: i32, child_cwd: Option<String>, now: u64) -> (r:
        Result<Action, TraceError>)
        requires
            old(self).wf(),
        ensures
            final(self).wf(),
            Self::forked_post(*old(self), *final(self), pid, child_pid, child_cwd, now, r),
            old(self).stamps_ok() && old(self).stamps_le(now) ==> final(self).stamps_ok()
                && final(self).stamps_le(now),
    {
        let parent: usize = match self.pids.get(&pid) {
            None => {
                return Err(TraceError::UnknownParent { pid });
            },
            Some(p) => *p,
        };
        let mut seed: Vec<String> = Vec::new();
        if self.nodes[parent].info.cmdline.len() > 0 {
            seed.push(self.nodes[parent].info.cmdline[0].clone());
        }
        let child = self.get_or_insert_pid(child_pid, now);
        if child <= parent || child == self.root || self.nodes[child].parent.is_some() {
            return Err(TraceError::BadAttach { pid, child_pid });
        }
        let ghost mid = *self;
        self.nodes[child].info.cmdline = seed;
        self.nodes[child].info.cwd = child_cwd;
        proof {
            Self::lemma_wf_after_info_update(mid, *self);
        }
        self.attach(parent, child);
        proof {
            if self.child_seq(child as int).len() == 0 {
                assert(self.child_seq(child as int) =~= Seq::<usize>::empty());
            }
        }
        Ok(Action::Resume { pid })
    }

    /// What handling an exec event leaves behind: the node for `pid` (an
    /// error if there is none) has its commandline replaced by the argv
    /// the given /proc/<pid>/cmdline bytes denote; nothing else changes.
    pub open spec fn execed_post(
        pre: Self,
        post: Self,
        pid: i32,
        bytes: Seq<u8>,
        r: Result<Action, TraceError>,
    ) -> bool {
        if !pre.pids@.contains_key(pid) {
            r == Result::<Action, TraceError>::Err(TraceError::UnknownExecPid { pid }) && post
                == pre
        } else {
            let i = pre.pids@[pid] as int;
            &&& r == Result::<Action, TraceError>::Ok(Action::Resume { pid })
            &&& post.n() == pre.n()
            &&& post.pids@ == pre.pids@
            &&& post.root == pre.root
            &&& post.wall_started == pre.wall_started
            &&& forall|k: int| 0 <= k < pre.n() && k != i ==> post.nodes@[k] == pre.nodes@[k]
            &&& post.nodes@[i].parent == pre.nodes@[i].parent
            &&& post.child_seq(i) == pre.child_seq(i)
            &&& post.nodes@[i].info.pid == pre.nodes@[i].info.pid
            &&& post.nodes@[i].info.started == pre.nodes@[i].info.started
            &&& post.nodes@[i].info.ended == pre.nodes@[i].info.ended
            &&& post.nodes@[i].info.cwd == pre.nodes@[i].info.cwd
            &&& post.nodes@[i].info.cmdline@.len() == cmdline_of(bytes).len()
            &&& forall|j: int|
                0 <= j < cmdline_of(bytes).len() ==> post.nodes@[i].info.cmdline@[j]@
                    == cmdline_of(bytes)[j]
        }
    }

    fn handle_exec(&mut self, pid: i32, cmdline: Vec<u8>) -> (r: Result<Action, TraceError>)
        requires
            old(self).wf(),
        ensures
            final(self).wf(),
            Self::execed_post(*old(self), *final(self), pid, cmdline@, r),
            forall|hi: u64|
                old(self).stamps_ok() && old(self).stamps_le(hi) ==> final(self).stamps_ok()
                    && final(self).stamps_le(hi),
    {
        let idx: usize = match self.pids.get(&pid) {
            None => {
                return Err(TraceError::UnknownExecPid { pid });
            },
            Some(i) => *i,
        };
        let parsed = parse_cmdline(&cmdline);
        let ghost mid = *self;
        self.nodes[idx].info.cmdline = parsed;
        proof {
            Self::lemma_wf_after_info_update(mid, *self);
        }
        Ok(Action::Resume { pid })
    }

    /// What handling a signal-delivery stop leaves behind: the pid has a
    /// node (materialized at `now` when the stop raced ahead of the
    /// parent's fork event), and the stop's signal is re-delivered on
    /// resume unless it is the SIGSTOP of a fresh attachment.
    pub open spec fn stopped_post(
        pre: Self,
        post: Self,
        pid: i32,
        signal: i32,
        now: u64,
        r: Result<Action, TraceError>,
    ) -> bool {
        &&& Self::materialized_post(pre, post, pid, now)
        &&& r == Result::<Action, TraceError>::Ok(
            if signal == SIGSTOP {
                Action::Resume { pid }
            } else {
                Action::ResumeWithSignal { pid, signal }
            },
        )
    }

    fn handle_stopped(&mut self, pid: i32, signal: i32, now: u64) -> (r: Result<
        Action,
        TraceError,
    >)
        requires
            old(self).wf(),
        ensures
            final(self).wf(),
            Self::stopped_post(*old(self), *final(self), pid, signal, now, r),
            old(self).stamps_ok() && old(self).stamps_le(now) ==> final(self).stamps_ok()
                && final(self).stamps_le(now),
    {
        self.get_or_insert_pid(pid, now);
        if signal == SIGSTOP {
            Ok(Action::Resume { pid })
        } else {
            Ok(Action::ResumeWithSignal { pid, signal })
        }
    }

    /// Fold one kernel notification into the tree and say how to resume
    /// the tracee. `now` is the current monotonic time; the caller reads
    /// it from the same clock for every call, so it never decreases from
    /// one event to the next.
    pub fn handle_event(&mut self, event: Event, now: u64) -> (r: Result<Action, TraceError>)
        requires
            old(self).wf(),
        ensures
            final(self).wf(),
            final(self).root == old(self).root,
            final(self).wall_started == old(self).wall_started,
            old(self).stamps_ok() && old(self).stamps_le(now) ==> final(self).stamps_ok()
                && final(self).stamps_le(now),
            match event {
                Event::Exited { pid } => r == Result::<Action, TraceError>::Ok(Action::NoResume)
                    && Self::ended_post(*old(self), *final(self), pid, now),
                Event::Signaled { pid, signal: _ } => r == Result::<Action, TraceError>::Ok(
                    Action::NoResume,
                ) && Self::ended_post(*old(self), *final(self), pid, now),
                Event::Forked { pid, child_pid, child_cwd } => Self::forked_post(
                    *old(self),
                    *final(self),
                    pid,
                    child_pid,
                    child_cwd,
                    now,
                    r,
                ),
                Event::Execed { pid, cmdline } => Self::execed_post(
                    *old(self),
                    *final(self),
                    pid,
                    cmdline@,
                    r,
                ),
                Event::Stopped { pid, signal } => Self::stopped_post(
                    *old(self),
                    *final(self),
                    pid,
                    signal,
                    now,
                    r,
                ),
            },
    {
        match event {
            Event::Exited { pid } => {
                self.handle_ended(pid, now);
                Ok(Action::NoResume)
            },
            Event::Signaled { pid, signal: _ } => {
                self.handle_ended(pid, now);
                Ok(Action::NoResume)
            },
            Event::Forked { pid, child_pid, child_cwd } => self.handle_fork(
                pid,
                child_pid,
                child_cwd,
                now,
            ),
            Event::Execed { pid, cmdline } => self.handle_exec(pid, cmdline),
            Event::Stopped { pid, signal } => self.handle_stopped(pid, signal, now),
        }
    }

    /// True when the whole subtree rooted at `a` carries `ended` stamps.
    pub open spec fn subtree_ended(&self, a: int) -> bool
        decreases self.n() - a, 1int, 0int,
        via Self::subtree_ended_decreases
    {
        if self.wf() && 0 <= a < self.n() {
            self.nodes@[a].info.ended is Some && self.children_ended(a, 0)
        } else {
            true
        }
    }

    /// True when the subtrees of node `a`'s children from position `j` on
    /// all carry `ended` stamps.
    pub open spec fn children_ended(&self, a: int, j: int) -> bool
        decreases self.n() - a, 0int, self.child_seq(a).len() - j,
        via Self::children_ended_decreases
    {
        if self.wf() && 0 <= a < self.n() && 0 <= j {
            if j >= self.child_seq(a).len() {
                true
            } else {
                self.subtree_ended(self.child_seq(a)[j] as int) && self.children_ended(a, j + 1)
            }
        } else {
            true
        }
    }

    #[via_fn]
    proof fn subtree_ended_decreases(&self, a: int) {
    }

    #[via_fn]
    proof fn children_ended_decreases(&self, a: int, j: int) {
        if self.wf() && 0 <= a < self.n() && 0 <= j && j < self.child_seq(a).len() {
            assert(self.children_ok(a));
        }
    }

    fn subtree_all_ended(&self, a: usize) -> (r: bool)
        requires
            self.wf(),
            (a as int) < self.n(),
        ensures
            r == self.subtree_ended(a as int),
        decreases self.nodes@.len() - a,
    {
        if self.nodes[a].info.ended.is_none() {
            return false;
        }
        let num_children = self.nodes[a].children.len();
        let mut j: usize = 0;
        while j < num_children
            invariant
                self.wf(),
                (a as int) < self.n(),
                num_children == self.child_seq(a as int).len(),
                self.nodes@[a as int].info.ended is Some,
                j <= num_children,
                self.children_ended(a as int, 0) == self.children_ended(a as int, j as int),
            decreases num_children - j,
        {
            let c = self.nodes[a].children[j];
            proof {
                assert(self.children_ok(a as int));
                assert(self.child_seq(a as int)[j as int] == c);
            }
            if !self.subtree_all_ended(c) {
                proof {
                    assert(!self.children_ended(a as int, j as int));
                    assert(!self.subtree_ended(a as int));
                }
                return false;
            }
            j += 1;
        }
        proof {
            assert(self.children_ended(a as int, num_children as int));
            assert(self.subtree_ended(a as int));
        }
        true
    }

    /// Termination test for the trace loop: does every process in the tree
    /// rooted at the spawned command carry an `ended` stamp?
    pub fn all_ended(&self) -> (r: bool)
        requires
            self.wf(),
        ensures
            r == self.subtree_ended(self.root as int),
    {
        self.subtree_all_ended(self.root)
    }

    proof fn lemma_children_ended_at(&self, a: int, j: int, k: int)
        requires
            self.wf(),
            0 <= a < self.n(),
            0 <= j <= k < self.child_seq(a).len(),
            self.children_ended(a, j),
        ensures
            self.subtree_ended(self.child_seq(a)[k] as int),
        decreases k - j,
    {
        if j < k {
            self.lemma_children_ended_at(a, j + 1, k);
        }
    }

    proof fn lemma_subtree_ended_descendant(&self, x: int, m: int)
        requires
            self.is_ancestor_of(x, m),
            self.subtree_ended(x),
        ensures
            self.subtree_ended(m),
        decreases m,
    {
        if x != m {
            assert(self.parent_ok(m));
            match self.nodes@[m].parent {
                Option::None => {},
                Option::Some(p) => {
                    self.lemma_subtree_ended_descendant(x, p as int);
                    let j = choose|j: int|
                        0 <= j < self.child_seq(p as int).len() && (#[trigger] self.child_seq(
                            p as int,
                        )[j]) as int == m;
                    self.lemma_children_ended_at(p as int, 0, j);
                },
            }
        }
    }

    /// Law: in a tree whose stamps respect the clock, which
    /// `handle_event` preserves for monotone `now` values, no process
    /// started before the root did, nothing ended before it started, and
    /// nothing started or ended after the engine's latest clock reading.
    pub proof fn lemma_stamp_bounds(&self, i: int, hi: u64)
        requires
            self.stamps_ok(),
            self.stamps_le(hi),
            0 <= i < self.n(),
        ensures
            self.nodes@[i].info.started >= self.nodes@[self.root as int].info.started,
            self.nodes@[i].info.started <= hi,
            self.nodes@[i].info.ended is Some ==> self.nodes@[i].info.started
                <= self.nodes@[i].info.ended->0 <= hi,
    {
    }

    /// Law: once the trace loop's termination test holds, every node of
    /// the root's subtree carries an `ended` stamp.
    pub proof fn lemma_all_ended_covers_subtree(&self, m: int)
        requires
            self.wf(),
            0 <= m < self.n(),
            self.subtree_ended(self.root as int),
            self.is_ancestor_of(self.root as int, m),
        ensures
            self.nodes@[m].info.ended is Some,
    {
        self.lemma_subtree_ended_descendant(self.root as int, m);
    }
}

/// The segments of `b` between NUL bytes: what splitting on NUL yields,
/// including the empty segment that a trailing NUL leaves at the end.
pub open spec fn nul_split(b: Seq<u8>) -> Seq<Seq<u8>>
    decreases b.len(),
{
    if b.len() == 0 {
        seq![Seq::<u8>::empty()]
    } else if b.last() == 0 {
        nul_split(b.drop_last()).push(Seq::<u8>::empty())
    } else {
        let s = nul_split(b.drop_last());
        s.update(s.len() - 1, s.last().push(b.last()))
    }
}


/// The argv that the bytes of a /proc/<pid>/cmdline file denote: the
/// NUL-separated segments, decoded leniently, with the last segment (the
/// spurious empty one after the trailing NUL) dropped.
pub open spec fn cmdline_of(b: Seq<u8>) -> Seq<Seq<char>> {
    nul_split(b).drop_last().map_values(|seg: Seq<u8>| utf8_lossy(seg))
}

/// Split the raw bytes of a /proc/<pid>/cmdline file into argv strings.
pub fn parse_cmdline(buf: &Vec<u8>) -> (r: Vec<String>)
    ensures
        r@.len() == cmdline_of(buf@).len(),
        forall|i: int| 0 <= i < r@.len() ==> r@[i]@ == cmdline_of(buf@)[i],
{
    let mut out: Vec<String> = Vec::new();
    let mut cur: Vec<u8> = Vec::new();
    let mut i: usize = 0;
    proof {
        assert(buf@.take(0int) =~= Seq::<u8>::empty());
    }
    while i < buf.len()
        invariant
            i <= buf@.len(),
            nul_split(buf@.take(i as int)).len() == out@.len() + 1,
            forall|k: int|
                0 <= k < out@.len() ==> out@[k]@ == utf8_lossy(
                    #[trigger] nul_split(buf@.take(i as int))[k],
                ),
            cur@ == nul_split(buf@.take(i as int)).last(),
        decreases buf@.len() - i,
    {
        let ghost pre = buf@.take(i as int);
        let b = buf[i];
        proof {
            assert(buf@.take(i as int + 1).drop_last() =~= pre);
            assert(buf@.take(i as int + 1).last() == b);
        }
        if b == 0 {
            let s = lossy_string(&cur);
            out.push(s);
            cur = Vec::new();
            proof {
                assert(nul_split(buf@.take(i as int + 1)) =~= nul_split(pre).push(
                    Seq::<u8>::empty(),
                ));
            }
        } else {
            cur.push(b);
            proof {
                let s = nul_split(pre);
                assert(nul_split(buf@.take(i as int + 1)) =~= s.update(
                    s.len() - 1,
                    s.last().push(b),
                ));
            }
        }
        i += 1;
    }
    proof {
        assert(buf@.take(buf@.len() as int) =~= buf@);
    }
    out
}

} // verus!
