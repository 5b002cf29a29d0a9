//! Tests of the text and JSON renderings of a traced tree.

use tracetree::engine::Event;
use tracetree::render::fmt_duration;
use tracetree::tree::ProcessTree;

fn argv(args: &[&str]) -> Vec<String> {
    args.iter().map(|s| s.to_string()).collect()
}

const WALL: i64 = 1_700_000_000_000_000_000;

fn pipeline_tree() -> ProcessTree {
    let mut t = ProcessTree::new(300, argv(&["/bin/sh", "-c", "x | y"]), Some("/home".to_string()), 0, WALL);
    t.handle_event(Event::Forked { pid: 300, child_pid: 301, child_cwd: Some("/home".to_string()) }, 100_000_000).unwrap();
    t.handle_event(Event::Execed { pid: 301, cmdline: b"/usr/bin/sleep\x001\0".to_vec() }, 200_000_000).unwrap();
    t.handle_event(Event::Exited { pid: 301 }, 600_000_000).unwrap();
    t.handle_event(Event::Exited { pid: 300 }, 1_034_000_000).unwrap();
    t
}

#[test]
fn fmt_duration_exact() {
    assert_eq!(fmt_duration(0), "0.000s");
    assert_eq!(fmt_duration(1_034_000_000), "1.034s");
    assert_eq!(fmt_duration(59_999_999), "0.059s");
    assert_eq!(fmt_duration(3_600_000_000_000), "3600.000s");
    assert_eq!(fmt_duration(999_999_999), "0.999s");
}

#[test]
fn text_lines_of_tree() {
    let t = pipeline_tree();
    let lines = t.text_lines();
    assert_eq!(lines.len(), 2);
    assert_eq!(lines[0], "300 sh -c x | y [1.034s]");
    assert_eq!(lines[1], "\t301 sleep 1 [0.500s]");
}

#[test]
fn text_line_placeholder_name() {
    let mut t = ProcessTree::new(42, Vec::new(), None, 0, WALL);
    t.handle_event(Event::Exited { pid: 42 }, 1_000_000).unwrap();
    let lines = t.text_lines();
    assert_eq!(lines, vec!["42 <unknown> [0.001s]".to_string()]);
}

#[test]
fn text_line_running_process_shows_question_mark() {
    let t = ProcessTree::new(43, argv(&["loop"]), None, 0, WALL);
    let lines = t.text_lines();
    assert_eq!(lines, vec!["43 loop [?]".to_string()]);
}

#[test]
fn json_with_supplied_timestamps_is_exact() {
    let mut t = ProcessTree::new(10, argv(&["true"]), None, 0, WALL);
    t.handle_event(Event::Exited { pid: 10 }, 5).unwrap();
    let st = vec![("S".to_string(), Some("E".to_string()))];
    let s = t.json_with_timestamps(&st);
    assert_eq!(
        s,
        "{\"pid\":10,\"started\":\"S\",\"ended\":\"E\",\"cmdline\":[\"true\"],\"cwd\":null,\"children\":[]}"
    );
}

#[test]
fn json_escapes_special_characters() {
    let mut t = ProcessTree::new(11, argv(&["a\"b\\c", "x\ny"]), Some("/tmp/\u{1}dir".to_string()), 0, WALL);
    t.handle_event(Event::Exited { pid: 11 }, 5).unwrap();
    let st = vec![("S".to_string(), None)];
    let s = t.json_with_timestamps(&st);
    assert_eq!(
        s,
        "{\"pid\":11,\"started\":\"S\",\"ended\":null,\"cmdline\":[\"a\\\"b\\\\c\",\"x\\u000ay\"],\"cwd\":\"/tmp/\\u0001dir\",\"children\":[]}"
    );
    // And it parses back to the same strings.
    let v: serde_json::Value = serde_json::from_str(&s).unwrap();
    assert_eq!(v["cmdline"][0], "a\"b\\c");
    assert_eq!(v["cmdline"][1], "x\ny");
    assert_eq!(v["cwd"], "/tmp/\u{1}dir");
}

#[test]
fn wall_stamps_anchor_instants() {
    // Every timestamp instant is the node's monotonic stamp anchored at
    // the tree's wall-clock start.
    let mut t = ProcessTree::new(10, argv(&["true"]), None, 500, WALL);
    t.handle_event(Event::Forked { pid: 10, child_pid: 11, child_cwd: None }, 700).unwrap();
    t.handle_event(Event::Exited { pid: 11 }, 800).unwrap();
    t.handle_event(Event::Exited { pid: 10 }, 900).unwrap();
    let w = t.wall_stamps();
    assert_eq!(w, vec![(WALL, Some(WALL + 400)), (WALL + 200, Some(WALL + 300))]);
}

#[test]
fn json_output_shape() {
    // The no-op scenario as JSON: integer pid, RFC 3339 timestamps, empty
    // children array, ended not before started.
    let mut t = ProcessTree::new(100, argv(&["true"]), None, 0, WALL);
    t.handle_event(Event::Exited { pid: 100 }, 5_000_000_000).unwrap();
    let s = t.to_json();
    let v: serde_json::Value = serde_json::from_str(&s).unwrap();
    assert_eq!(v["pid"], 100);
    assert!(v["children"].as_array().unwrap().is_empty());
    let started = v["started"].as_str().unwrap();
    let ended = v["ended"].as_str().unwrap();
    chrono::DateTime::parse_from_rfc3339(started).expect("started is RFC 3339");
    chrono::DateTime::parse_from_rfc3339(ended).expect("ended is RFC 3339");
    assert!(ended >= started);
}

#[test]
fn json_round_trip_recovers_structure() {
    let t = pipeline_tree();
    let s = t.to_json();
    let v: serde_json::Value = serde_json::from_str(&s).unwrap();
    assert_eq!(v["pid"], 300);
    assert_eq!(v["cmdline"][0], "/bin/sh");
    assert_eq!(v["cmdline"][1], "-c");
    assert_eq!(v["cmdline"][2], "x | y");
    assert_eq!(v["cwd"], "/home");
    let children = v["children"].as_array().unwrap();
    assert_eq!(children.len(), 1);
    let c = &children[0];
    assert_eq!(c["pid"], 301);
    assert_eq!(c["cmdline"][0], "/usr/bin/sleep");
    assert_eq!(c["cmdline"][1], "1");
    assert!(c["children"].as_array().unwrap().is_empty());
    assert!(c["ended"].is_string());
}
