//! Scenario tests: synthetic kernel event sequences driven through the
//! trace engine, mirroring what real traced commands produce.

use tracetree::engine::{Action, Event, TraceError, SIGSTOP};
use tracetree::traverse::NodeEdge;
use tracetree::tree::ProcessTree;

fn argv(args: &[&str]) -> Vec<String> {
    args.iter().map(|s| s.to_string()).collect()
}

const WALL: i64 = 1_700_000_000_000_000_000;

#[test]
fn trivial_noop() {
    // `true`: one process, no children.
    let mut t = ProcessTree::new(100, argv(&["true"]), Some("/tmp".to_string()), 0, WALL);
    let a = t.handle_event(Event::Stopped { pid: 100, signal: SIGSTOP }, 1);
    assert_eq!(a, Ok(Action::Resume { pid: 100 }));
    assert!(!t.all_ended());
    let a = t.handle_event(Event::Exited { pid: 100 }, 5_000_000_000);
    assert_eq!(a, Ok(Action::NoResume));
    assert!(t.all_ended());

    let info = t.get(100).expect("root present");
    assert_eq!(info.pid, 100);
    assert_eq!(info.cmdline, vec!["true".to_string()]);
    assert_eq!(info.ended, Some(5_000_000_000));
    assert_eq!(info.cwd, Some("/tmp".to_string()));
    assert!(t.get(101).is_none());

    let mut walk = t.traverse();
    assert_eq!(walk.next(), Some(NodeEdge::Start(0)));
    assert_eq!(walk.next(), Some(NodeEdge::End(0)));
    assert_eq!(walk.next(), None);
}

#[test]
fn fork_and_exit() {
    // A command forks one child which exits before any exec: the child
    // inherits the executable name only.
    let mut t = ProcessTree::new(200, argv(&["mycmd", "--flag"]), None, 0, WALL);
    let a = t.handle_event(
        Event::Forked { pid: 200, child_pid: 201, child_cwd: Some("/work".to_string()) },
        10,
    );
    assert_eq!(a, Ok(Action::Resume { pid: 200 }));
    let a = t.handle_event(Event::Stopped { pid: 201, signal: SIGSTOP }, 12);
    assert_eq!(a, Ok(Action::Resume { pid: 201 }));
    assert!(!t.all_ended());
    t.handle_event(Event::Exited { pid: 201 }, 20).unwrap();
    assert!(!t.all_ended());
    t.handle_event(Event::Exited { pid: 200 }, 30).unwrap();
    assert!(t.all_ended());

    let child = t.get(201).expect("child present");
    assert_eq!(child.cmdline, vec!["mycmd".to_string()]);
    assert_eq!(child.cwd, Some("/work".to_string()));
    assert!(child.ended.unwrap() >= child.started);

    // Root has exactly one child: the traversal is Start(root),
    // Start(child), End(child), End(root).
    let mut walk = t.traverse();
    assert_eq!(walk.next(), Some(NodeEdge::Start(0)));
    assert_eq!(walk.next(), Some(NodeEdge::Start(1)));
    assert_eq!(walk.next(), Some(NodeEdge::End(1)));
    assert_eq!(walk.next(), Some(NodeEdge::End(0)));
    assert_eq!(walk.next(), None);
}

#[test]
fn shell_pipeline() {
    // `sh -c "echo a | cat"`: the shell forks two children which exec
    // `echo` and `cat`.
    let mut t = ProcessTree::new(300, argv(&["sh", "-c", "echo a | cat"]), None, 0, WALL);
    t.handle_event(Event::Stopped { pid: 300, signal: SIGSTOP }, 1).unwrap();
    t.handle_event(Event::Forked { pid: 300, child_pid: 301, child_cwd: None }, 2).unwrap();
    t.handle_event(Event::Forked { pid: 300, child_pid: 302, child_cwd: None }, 3).unwrap();
    t.handle_event(
        Event::Execed { pid: 301, cmdline: b"/usr/bin/echo\0a\0".to_vec() },
        4,
    )
    .unwrap();
    t.handle_event(Event::Execed { pid: 302, cmdline: b"/usr/bin/cat\0".to_vec() }, 5).unwrap();
    t.handle_event(Event::Exited { pid: 301 }, 6).unwrap();
    t.handle_event(Event::Exited { pid: 302 }, 7).unwrap();
    assert!(!t.all_ended());
    t.handle_event(Event::Exited { pid: 300 }, 8).unwrap();
    assert!(t.all_ended());

    assert_eq!(t.get(300).unwrap().cmdline[0], "sh");
    assert_eq!(
        t.get(301).unwrap().cmdline,
        vec!["/usr/bin/echo".to_string(), "a".to_string()]
    );
    assert_eq!(t.get(302).unwrap().cmdline, vec!["/usr/bin/cat".to_string()]);

    // Both descendants hang off the root: depth two.
    let mut starts = 0;
    let mut max_depth = 0;
    let mut depth = 0;
    let mut walk = t.traverse();
    while let Some(e) = walk.next() {
        match e {
            NodeEdge::Start(_) => {
                starts += 1;
                depth += 1;
                if depth > max_depth {
                    max_depth = depth;
                }
            }
            NodeEdge::End(_) => depth -= 1,
        }
    }
    assert_eq!(starts, 3);
    assert_eq!(max_depth, 2);
    assert_eq!(depth, 0);
}

#[test]
fn exec_chain() {
    // A runner that execs /bin/true: a single node whose cmdline is the
    // post-exec argv.
    let mut t = ProcessTree::new(400, argv(&["./runner"]), None, 100, WALL);
    t.handle_event(Event::Stopped { pid: 400, signal: SIGSTOP }, 110).unwrap();
    t.handle_event(Event::Execed { pid: 400, cmdline: b"/bin/true\0".to_vec() }, 120).unwrap();
    t.handle_event(Event::Exited { pid: 400 }, 130).unwrap();
    assert!(t.all_ended());

    let info = t.get(400).unwrap();
    assert_eq!(info.cmdline, vec!["/bin/true".to_string()]);
    assert!(info.started < info.ended.unwrap());

    let mut walk = t.traverse();
    assert_eq!(walk.next(), Some(NodeEdge::Start(0)));
    assert_eq!(walk.next(), Some(NodeEdge::End(0)));
    assert_eq!(walk.next(), None);
}

#[test]
fn exec_overwrites_argv() {
    // A program that execs itself with different argv: the node keeps its
    // pid and shows the post-exec argv at the end of the trace.
    let mut t = ProcessTree::new(500, argv(&["self", "first"]), None, 0, WALL);
    t.handle_event(
        Event::Execed { pid: 500, cmdline: b"self\0second\0third\0".to_vec() },
        10,
    )
    .unwrap();
    t.handle_event(Event::Exited { pid: 500 }, 20).unwrap();
    let info = t.get(500).unwrap();
    assert_eq!(
        info.cmdline,
        vec!["self".to_string(), "second".to_string(), "third".to_string()]
    );
    // The pid occurs once: the exec reused the node.
    let mut walk = t.traverse();
    let mut count = 0;
    while let Some(e) = walk.next() {
        if let NodeEdge::Start(h) = e {
            assert_eq!(h, 0);
            count += 1;
        }
    }
    assert_eq!(count, 1);
}

#[test]
fn signaled_child() {
    // `sh -c "sleep 10 & kill -KILL $!; wait"`: the killed sleep still
    // gets an ended stamp and the trace terminates.
    let mut t = ProcessTree::new(600, argv(&["sh", "-c", "sleep 10 & kill -KILL $!; wait"]), None, 0, WALL);
    t.handle_event(Event::Forked { pid: 600, child_pid: 601, child_cwd: None }, 5).unwrap();
    t.handle_event(Event::Execed { pid: 601, cmdline: b"sleep\x0010\0".to_vec() }, 6).unwrap();
    let a = t.handle_event(Event::Signaled { pid: 601, signal: 9 }, 7);
    assert_eq!(a, Ok(Action::NoResume));
    assert!(t.get(601).unwrap().ended.is_some());
    assert!(!t.all_ended());
    t.handle_event(Event::Exited { pid: 600 }, 8).unwrap();
    assert!(t.all_ended());
    assert_eq!(t.get(601).unwrap().cmdline, vec!["sleep".to_string(), "10".to_string()]);
}

#[test]
fn clone_thread_appears_as_child() {
    // A clone is reported through the same event as fork: the thread
    // appears as a child node and its exit is tracked.
    let mut t = ProcessTree::new(700, argv(&["threaded"]), None, 0, WALL);
    t.handle_event(Event::Forked { pid: 700, child_pid: 701, child_cwd: None }, 1).unwrap();
    t.handle_event(Event::Exited { pid: 701 }, 2).unwrap();
    t.handle_event(Event::Exited { pid: 700 }, 3).unwrap();
    assert!(t.all_ended());
    let thread = t.get(701).unwrap();
    assert_eq!(thread.cmdline, vec!["threaded".to_string()]);
    assert!(thread.ended.is_some());
}

#[test]
fn child_stop_races_ahead_of_fork_event() {
    // The child's initial SIGSTOP can arrive before the parent's fork
    // event: the node is materialized at the stop and attached later.
    let mut t = ProcessTree::new(800, argv(&["racer"]), None, 0, WALL);
    let a = t.handle_event(Event::Stopped { pid: 801, signal: SIGSTOP }, 5);
    assert_eq!(a, Ok(Action::Resume { pid: 801 }));
    // The stray node exists but is not yet a descendant, so termination
    // ignores it.
    t.handle_event(Event::Forked { pid: 800, child_pid: 801, child_cwd: None }, 9).unwrap();
    // The started stamp kept the earlier sighting.
    assert_eq!(t.get(801).unwrap().started, 5);
    t.handle_event(Event::Exited { pid: 801 }, 10).unwrap();
    t.handle_event(Event::Exited { pid: 800 }, 11).unwrap();
    assert!(t.all_ended());
    let mut walk = t.traverse();
    assert_eq!(walk.next(), Some(NodeEdge::Start(0)));
    assert_eq!(walk.next(), Some(NodeEdge::Start(1)));
    assert_eq!(walk.next(), Some(NodeEdge::End(1)));
    assert_eq!(walk.next(), Some(NodeEdge::End(0)));
    assert_eq!(walk.next(), None);
}

#[test]
fn signal_delivery_is_forwarded() {
    let mut t = ProcessTree::new(900, argv(&["handler"]), None, 0, WALL);
    let a = t.handle_event(Event::Stopped { pid: 900, signal: 17 }, 1);
    assert_eq!(a, Ok(Action::ResumeWithSignal { pid: 900, signal: 17 }));
    let a = t.handle_event(Event::Stopped { pid: 900, signal: SIGSTOP }, 2);
    assert_eq!(a, Ok(Action::Resume { pid: 900 }));
}

#[test]
fn unknown_parent_is_an_error() {
    let mut t = ProcessTree::new(110, argv(&["root"]), None, 0, WALL);
    let a = t.handle_event(Event::Forked { pid: 999, child_pid: 1000, child_cwd: None }, 1);
    assert_eq!(a, Err(TraceError::UnknownParent { pid: 999 }));
}

#[test]
fn unknown_exec_pid_is_an_error() {
    let mut t = ProcessTree::new(120, argv(&["root"]), None, 0, WALL);
    let a = t.handle_event(Event::Execed { pid: 999, cmdline: b"x\0".to_vec() }, 1);
    assert_eq!(a, Err(TraceError::UnknownExecPid { pid: 999 }));
}

#[test]
fn self_fork_is_an_error() {
    // The kernel never reports a process as its own child; the engine
    // rejects such an event instead of corrupting the tree.
    let mut t = ProcessTree::new(130, argv(&["root"]), None, 0, WALL);
    let a = t.handle_event(Event::Forked { pid: 130, child_pid: 130, child_cwd: None }, 1);
    assert_eq!(a, Err(TraceError::BadAttach { pid: 130, child_pid: 130 }));
}

#[test]
fn ended_stamp_is_never_overwritten() {
    let mut t = ProcessTree::new(140, argv(&["root"]), None, 0, WALL);
    t.handle_event(Event::Exited { pid: 140 }, 50).unwrap();
    t.handle_event(Event::Exited { pid: 140 }, 99).unwrap();
    assert_eq!(t.get(140).unwrap().ended, Some(50));
}

#[test]
fn exec_cmdline_decoding() {
    // Raw /proc cmdline bytes: NUL separated, trailing NUL dropped,
    // invalid UTF-8 replaced.
    let mut t = ProcessTree::new(150, argv(&["root"]), None, 0, WALL);
    t.handle_event(Event::Execed { pid: 150, cmdline: b"ls\0-l\0".to_vec() }, 1).unwrap();
    assert_eq!(t.get(150).unwrap().cmdline, vec!["ls".to_string(), "-l".to_string()]);

    t.handle_event(Event::Execed { pid: 150, cmdline: b"".to_vec() }, 2).unwrap();
    assert_eq!(t.get(150).unwrap().cmdline, Vec::<String>::new());

    t.handle_event(
        Event::Execed { pid: 150, cmdline: vec![0x66, 0xff, 0x6f, 0x00] },
        3,
    )
    .unwrap();
    assert_eq!(t.get(150).unwrap().cmdline, vec!["f\u{fffd}o".to_string()]);

    // Non-ASCII UTF-8 passes through the lenient decoder unchanged.
    t.handle_event(
        Event::Execed { pid: 150, cmdline: "caf\u{e9}\0".as_bytes().to_vec() },
        4,
    )
    .unwrap();
    assert_eq!(t.get(150).unwrap().cmdline, vec!["caf\u{e9}".to_string()]);
}

#[test]
fn empty_parent_cmdline_seeds_empty_child() {
    let mut t = ProcessTree::new(160, Vec::new(), None, 0, WALL);
    t.handle_event(Event::Forked { pid: 160, child_pid: 161, child_cwd: None }, 1).unwrap();
    assert_eq!(t.get(161).unwrap().cmdline, Vec::<String>::new());
}
