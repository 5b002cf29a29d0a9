//! The tree as a JSON document: nested objects with pid, timestamps,
//! commandline, working directory and children, in attachment order.

use crate::ext::{chars_of, rfc3339_of_nanos, string_from_chars};
use crate::render::{dec_int, digit_char, push_dec_i32, views_of};
use crate::tree::ProcessTree;
use vstd::prelude::*;

verus! {

/// The hexadecimal digit character for `d`.
pub open spec fn hex_char(d: int) -> char {
    if d < 10 {
        digit_char(d)
    } else if d == 10 {
        'a'
    } else if d == 11 {
        'b'
    } else if d == 12 {
        'c'
    } else if d == 13 {
        'd'
    } else if d == 14 {
        'e'
    } else {
        'f'
    }
}

/// The JSON escape of one character: quotes and backslashes get a
/// backslash, control characters a `\u00..` escape, the rest stand as
/// they are.
pub open spec fn esc_char(c: char) -> Seq<char> {
    if c == '"' {
        seq!['\\', '"']
    } else if c == '\\' {
        seq!['\\', '\\']
    } else if (c as u32) < 0x20 {
        seq!['\\', 'u', '0', '0', hex_char((c as u32) as int / 16), hex_char((c as u32) as int % 16)]
    } else {
        seq![c]
    }
}

/// `s` with every character escaped for JSON.
pub open spec fn json_escaped(s: Seq<char>) -> Seq<char>
    decreases s.len(),
{
    if s.len() == 0 {
        Seq::empty()
    } else {
        json_escaped(s.drop_last()) + esc_char(s.last())
    }
}

/// A JSON string literal: `s` escaped, in double quotes.
pub open spec fn json_string(s: Seq<char>) -> Seq<char> {
    seq!['"'] + json_escaped(s) + seq!['"']
}

/// A JSON string or `null`.
pub open spec fn json_opt_string(s: Option<Seq<char>>) -> Seq<char> {
    match s {
        Option::Some(x) => json_string(x),
        Option::None => ("null")@,
    }
}

/// The comma-separated JSON string literals for `v[j..]`, with a leading
/// comma unless `j` starts the array.
pub open spec fn json_string_items(v: Seq<Seq<char>>, j: int) -> Seq<char>
    decreases v.len() - j,
{
    if 0 <= j < v.len() {
        (if j > 0 {
            seq![',']
        } else {
            Seq::empty()
        }) + json_string(v[j]) + json_string_items(v, j + 1)
    } else {
        Seq::empty()
    }
}

/// The views of per-node timestamp strings: the `started` text and the
/// optional `ended` text.
pub open spec fn stamp_views(st: Seq<(String, Option<String>)>) -> Seq<(Seq<char>, Option<
    Seq<char>,
>)> {
    st.map_values(
        |p: (String, Option<String>)|
            (
                p.0@,
                match p.1 {
                    Option::Some(s) => Option::Some(s@),
                    Option::None => Option::None,
                },
            ),
    )
}

impl ProcessTree {
    /// The JSON object for the subtree rooted at `a`, with the timestamp
    /// texts supplied per node in `st`.
    pub open spec fn json_node(&self, a: int, st: Seq<(Seq<char>, Option<Seq<char>>)>) -> Seq<char>
        decreases self.n() - a, 1int, 0int,
        via Self::json_node_decreases
    {
        if self.wf() && 0 <= a < self.n() && st.len() == self.n() {
            ("{\"pid\":")@ + dec_int(self.nodes@[a].info.pid as int) + (",\"started\":")@
                + json_string(st[a].0) + (",\"ended\":")@ + json_opt_string(st[a].1) + (
            ",\"cmdline\":[")@ + json_string_items(views_of(self.nodes@[a].info.cmdline@), 0) + (
            "],\"cwd\":")@ + json_opt_string(
                match self.nodes@[a].info.cwd {
                    Option::Some(s) => Option::Some(s@),
                    Option::None => Option::None,
                },
            ) + (",\"children\":[")@ + self.json_children(a, 0, st) + ("]}")@
        } else {
            Seq::empty()
        }
    }

    /// The comma-separated JSON objects of `a`'s children from position
    /// `j` on.
    pub open spec fn json_children(&self, a: int, j: int, st: Seq<(Seq<char>, Option<Seq<char>>)>)
        -> Seq<char>
        decreases self.n() - a, 0int, self.child_seq(a).len() - j,
        via Self::json_children_decreases
    {
        if self.wf() && 0 <= a < self.n() && 0 <= j {
            if j >= self.child_seq(a).len() {
                Seq::empty()
            } else {
                (if j > 0 {
                    seq![',']
                } else {
                    Seq::empty()
                }) + self.json_node(self.child_seq(a)[j] as int, st) + self.json_children(
                    a,
                    j + 1,
                    st,
                )
            }
        } else {
            Seq::empty()
        }
    }

    #[via_fn]
    proof fn json_node_decreases(&self, a: int, st: Seq<(Seq<char>, Option<Seq<char>>)>) {
    }

    #[via_fn]
    proof fn json_children_decreases(&self, a: int, j: int, st: Seq<(Seq<char>, Option<Seq<char>>)>) {
        if self.wf() && 0 <= a < self.n() && 0 <= j && j < self.child_seq(a).len() {
            assert(self.children_ok(a));
        }
    }
}

fn hex_of(d: u32) -> (c: char)
    requires
        d < 16,
    ensures
        c == hex_char(d as int),
{
    match d {
        0 => '0',
        1 => '1',
        2 => '2',
        3 => '3',
        4 => '4',
        5 => '5',
        6 => '6',
        7 => '7',
        8 => '8',
        9 => '9',
        10 => 'a',
        11 => 'b',
        12 => 'c',
        13 => 'd',
        14 => 'e',
        _ => 'f',
    }
}

fn push_str_chars(out: &mut Vec<char>, s: &str)
    ensures
        final(out)@ == old(out)@ + s@,
{
    let cs = chars_of(s);
    let mut i: usize = 0;
    proof {
        assert(out@ =~= old(out)@ + s@.take(0int));
    }
    while i < cs.len()
        invariant
            cs@ == s@,
            i <= cs@.len(),
            out@ == old(out)@ + s@.take(i as int),
        decreases cs@.len() - i,
    {
        out.push(cs[i]);
        proof {
            assert(out@ =~= old(out)@ + s@.take(i + 1));
        }
        i += 1;
    }
    proof {
        assert(old(out)@ + s@.take(s@.len() as int) =~= old(out)@ + s@);
    }
}

fn push_json_string(out: &mut Vec<char>, s: &String)
    ensures
        final(out)@ == old(out)@ + json_string(s@),
{
    out.push('"');
    let ghost base = out@;
    let cs = chars_of(s.as_str());
    let mut i: usize = 0;
    proof {
        assert(json_escaped(s@.take(0int)) =~= Seq::<char>::empty());
        assert(out@ =~= base + json_escaped(s@.take(0int)));
    }
    while i < cs.len()
        invariant
            cs@ == s@,
            i <= cs@.len(),
            out@ == base + json_escaped(s@.take(i as int)),
        decreases cs@.len() - i,
    {
        let c = cs[i];
        if c == '"' {
            out.push('\\');
            out.push('"');
        } else if c == '\\' {
            out.push('\\');
            out.push('\\');
        } else if (c as u32) < 0x20 {
            out.push('\\');
            out.push('u');
            out.push('0');
            out.push('0');
            out.push(hex_of((c as u32) / 16));
            out.push(hex_of((c as u32) % 16));
        } else {
            out.push(c);
        }
        proof {
            assert(s@.take(i + 1).drop_last() =~= s@.take(i as int));
            assert(s@.take(i + 1).last() == s@[i as int]);
            assert(out@ =~= base + (json_escaped(s@.take(i as int)) + esc_char(s@[i as int])));
        }
        i += 1;
    }
    proof {
        assert(s@.take(s@.len() as int) =~= s@);
    }
    out.push('"');
    proof {
        assert(out@ =~= old(out)@ + json_string(s@));
    }
}

fn push_json_opt_string(out: &mut Vec<char>, s: &Option<String>)
    ensures
        final(out)@ == old(out)@ + json_opt_string(
            match s {
                Option::Some(x) => Option::Some(x@),
                Option::None => Option::None,
            },
        ),
{
    match s {
        Some(x) => {
            push_json_string(out, x);
        },
        None => {
            push_str_chars(out, "null");
        },
    }
}

impl ProcessTree {
    #[verifier::rlimit(100)]
    fn push_json_node(&self, a: usize, st: &Vec<(String, Option<String>)>, out: &mut Vec<char>)
        requires
            self.wf(),
            (a as int) < self.n(),
            st@.len() == self.n(),
        ensures
            final(out)@ == old(out)@ + self.json_node(a as int, stamp_views(st@)),
        decreases self.nodes@.len() - a,
    {
        let ghost stv = stamp_views(st@);
        push_str_chars(out, "{\"pid\":");
        push_dec_i32(self.nodes[a].info.pid, out);
        push_str_chars(out, ",\"started\":");
        push_json_string(out, &st[a].0);
        push_str_chars(out, ",\"ended\":");
        push_json_opt_string(out, &st[a].1);
        push_str_chars(out, ",\"cmdline\":[");
        proof {
            assert(stv[a as int].0 == st@[a as int].0@);
        }
        let ghost cmdv = views_of(self.nodes@[a as int].info.cmdline@);
        let ghost base_args = out@;
        let num_args = self.nodes[a].info.cmdline.len();
        let mut j: usize = 0;
        proof {
            assert(base_args + json_string_items(cmdv, 0) =~= out@ + json_string_items(
                cmdv,
                j as int,
            ));
        }
        while j < num_args
            invariant
                self.wf(),
                (a as int) < self.n(),
                st@.len() == self.n(),
                num_args == self.nodes@[a as int].info.cmdline@.len(),
                cmdv == views_of(self.nodes@[a as int].info.cmdline@),
                j <= num_args,
                base_args + json_string_items(cmdv, 0) == out@ + json_string_items(cmdv, j as int),
            decreases num_args - j,
        {
            if j > 0 {
                out.push(',');
            }
            push_json_string(out, &self.nodes[a].info.cmdline[j]);
            proof {
                assert(cmdv[j as int] == self.nodes@[a as int].info.cmdline@[j as int]@);
                assert(json_string_items(cmdv, j as int) =~= (if j > 0 {
                    seq![',']
                } else {
                    Seq::<char>::empty()
                }) + json_string(cmdv[j as int]) + json_string_items(cmdv, j + 1));
                assert(base_args + json_string_items(cmdv, 0) =~= out@ + json_string_items(
                    cmdv,
                    j + 1,
                ));
            }
            j += 1;
        }
        proof {
            assert(json_string_items(cmdv, num_args as int) =~= Seq::<char>::empty());
            assert(out@ =~= base_args + json_string_items(cmdv, 0));
        }
        push_str_chars(out, "],\"cwd\":");
        push_json_opt_string(out, &self.nodes[a].info.cwd);
        push_str_chars(out, ",\"children\":[");
        let ghost base_children = out@;
        let num_children = self.nodes[a].children.len();
        let mut k: usize = 0;
        proof {
            assert(base_children + self.json_children(a as int, 0, stv) =~= out@
                + self.json_children(a as int, k as int, stv));
        }
        while k < num_children
            invariant
                self.wf(),
                (a as int) < self.n(),
                st@.len() == self.n(),
                stv == stamp_views(st@),
                num_children == self.child_seq(a as int).len(),
                k <= num_children,
                base_children + self.json_children(a as int, 0, stv) == out@ + self.json_children(
                    a as int,
                    k as int,
                    stv,
                ),
            decreases num_children - k,
        {
            let c = self.nodes[a].children[k];
            proof {
                assert(self.children_ok(a as int));
                assert(self.child_seq(a as int)[k as int] == c);
            }
            if k > 0 {
                out.push(',');
            }
            self.push_json_node(c, st, out);
            proof {
                assert(self.json_children(a as int, k as int, stv) =~= (if k > 0 {
                    seq![',']
                } else {
                    Seq::<char>::empty()
                }) + self.json_node(c as int, stv) + self.json_children(a as int, k + 1, stv));
                assert(base_children + self.json_children(a as int, 0, stv) =~= out@
                    + self.json_children(a as int, k + 1, stv));
            }
            k += 1;
        }
        proof {
            assert(self.json_children(a as int, num_children as int, stv) =~= Seq::<char>::empty());
            assert(out@ =~= base_children + self.json_children(a as int, 0, stv));
        }
        push_str_chars(out, "]}");
        proof {
            assert(out@ =~= old(out)@ + self.json_node(a as int, stv));
        }
    }

    /// The tree as one JSON document, with the timestamp texts supplied
    /// per node: `st[i]` holds the `started` text and the optional
    /// `ended` text of node `i`.
    pub fn json_with_timestamps(&self, st: &Vec<(String, Option<String>)>) -> (r: String)
        requires
            self.wf(),
            st@.len() == self.n(),
        ensures
            r@ == self.json_node(self.root as int, stamp_views(st@)),
    {
        let mut out: Vec<char> = Vec::new();
        self.push_json_node(self.root, st, &mut out);
        proof {
            assert(out@ =~= self.json_node(self.root as int, stamp_views(st@)));
        }
        string_from_chars(&out)
    }

    /// The wall-clock instant (nanoseconds since the Unix epoch) that a
    /// monotonic stamp `m` denotes, anchored at the tree's start.
    pub open spec fn wall_of(&self, m: int) -> int {
        self.wall_started + (m - self.nodes@[self.root as int].info.started)
    }

    /// Every timestamp's wall-clock instant fits the machine's clock
    /// range.
    pub open spec fn stamps_renderable(&self) -> bool {
        forall|i: int|
            0 <= i < self.n() ==> {
                &&& i64::MIN <= self.wall_of((#[trigger] self.nodes@[i].info).started as int)
                    <= i64::MAX
                &&& (self.nodes@[i].info.ended is Some ==> i64::MIN <= self.wall_of(
                    self.nodes@[i].info.ended->0 as int,
                ) <= i64::MAX)
            }
    }

    /// The wall-clock instants of every node's timestamps: entry `i`
    /// holds the started instant `wall_of(started)` of node `i` and, when
    /// the process was seen ending, the ended instant `wall_of(ended)`,
    /// which never precedes it.
    pub fn wall_stamps(&self) -> (r: Vec<(i64, Option<i64>)>)
        requires
            self.wf(),
            self.stamps_ok(),
            self.stamps_renderable(),
        ensures
            r@.len() == self.n(),
            forall|i: int|
                0 <= i < r@.len() ==> (#[trigger] r@[i]).0 == self.wall_of(
                    self.nodes@[i].info.started as int,
                ),
            forall|i: int|
                0 <= i < r@.len() ==> ((#[trigger] r@[i]).1 is Some <==> self.nodes@[i].info.ended
                    is Some),
            forall|i: int|
                0 <= i < r@.len() ==> ((#[trigger] r@[i]).1 is Some ==> r@[i].1->0 == self.wall_of(
                    self.nodes@[i].info.ended->0 as int,
                ) && r@[i].0 <= r@[i].1->0),
    {
        let root_started = self.nodes[self.root].info.started;
        let mut out: Vec<(i64, Option<i64>)> = Vec::new();
        let mut i: usize = 0;
        while i < self.nodes.len()
            invariant
                self.wf(),
                self.stamps_ok(),
                self.stamps_renderable(),
                root_started == self.nodes@[self.root as int].info.started,
                i <= self.nodes@.len(),
                out@.len() == i,
                forall|k: int|
                    0 <= k < i ==> (#[trigger] out@[k]).0 == self.wall_of(
                        self.nodes@[k].info.started as int,
                    ),
                forall|k: int|
                    0 <= k < i ==> ((#[trigger] out@[k]).1 is Some <==> self.nodes@[k].info.ended
                        is Some),
                forall|k: int|
                    0 <= k < i ==> ((#[trigger] out@[k]).1 is Some ==> out@[k].1->0
                        == self.wall_of(self.nodes@[k].info.ended->0 as int) && out@[k].0
                        <= out@[k].1->0),
            decreases self.nodes@.len() - i,
        {
            let info = &self.nodes[i].info;
            let started_wall: i64 = ((self.wall_started as i128) + (info.started as i128)
                - (root_started as i128)) as i64;
            let ended_wall: Option<i64> = match info.ended {
                Some(e) => {
                    Some(
                        ((self.wall_started as i128) + (e as i128) - (root_started as i128)) as i64,
                    )
                },
                None => None,
            };
            out.push((started_wall, ended_wall));
            i += 1;
        }
        out
    }

    /// Render pinned wall-clock instants as timestamp texts: one per
    /// instant, through the trusted RFC 3339 formatter, each nonempty.
    fn render_stamps(w: &Vec<(i64, Option<i64>)>) -> (r: Vec<(String, Option<String>)>)
        ensures
            r@.len() == w@.len(),
            forall|i: int|
                0 <= i < r@.len() ==> ((#[trigger] r@[i]).1 is Some <==> w@[i].1 is Some),
            forall|i: int| 0 <= i < r@.len() ==> (#[trigger] r@[i]).0@.len() > 0,
            forall|i: int|
                0 <= i < r@.len() ==> ((#[trigger] r@[i]).1 is Some ==> r@[i].1->0@.len() > 0),
    {
        let mut out: Vec<(String, Option<String>)> = Vec::new();
        let mut i: usize = 0;
        while i < w.len()
            invariant
                i <= w@.len(),
                out@.len() == i,
                forall|k: int|
                    0 <= k < i ==> ((#[trigger] out@[k]).1 is Some <==> w@[k].1 is Some),
                forall|k: int| 0 <= k < i ==> (#[trigger] out@[k]).0@.len() > 0,
                forall|k: int|
                    0 <= k < i ==> ((#[trigger] out@[k]).1 is Some ==> out@[k].1->0@.len() > 0),
            decreases w@.len() - i,
        {
            let started_str = rfc3339_of_nanos(w[i].0);
            let ended_str: Option<String> = match w[i].1 {
                Some(n) => Some(rfc3339_of_nanos(n)),
                None => None,
            };
            out.push((started_str, ended_str));
            i += 1;
        }
        out
    }

    /// The tree as JSON. Each node's timestamps are the instants
    /// `wall_stamps` pins (its monotonic stamps anchored at the tree's
    /// wall-clock start), rendered as RFC 3339 text; the texts themselves
    /// are fixed no further, because the machine's local time zone
    /// decides them. The document is the node objects for those texts:
    /// one nonempty pair per node, the ended entry a string exactly when
    /// the process was seen ending.
    pub fn to_json(&self) -> (r: String)
        requires
            self.wf(),
            self.stamps_ok(),
            self.stamps_renderable(),
        ensures
            exists|st: Seq<(Seq<char>, Option<Seq<char>>)>|
                {
                    &&& st.len() == self.n()
                    &&& r@ == #[trigger] self.json_node(self.root as int, st)
                    &&& forall|i: int| 0 <= i < st.len() ==> (#[trigger] st[i]).0.len() > 0
                    &&& forall|i: int|
                        0 <= i < st.len() ==> ((#[trigger] st[i]).1 is Some
                            <==> self.nodes@[i].info.ended is Some)
                    &&& forall|i: int|
                        0 <= i < st.len() ==> ((#[trigger] st[i]).1 is Some ==> st[i].1->0.len()
                            > 0)
                },
    {
        let w = self.wall_stamps();
        let st = Self::render_stamps(&w);
        let r = self.json_with_timestamps(&st);
        proof {
            let stv = stamp_views(st@);
            assert(stv.len() == self.n());
            assert(r@ == self.json_node(self.root as int, stv));
            assert forall|i: int| 0 <= i < stv.len() implies (#[trigger] stv[i]).0.len() > 0 && (
            stv[i].1 is Some <==> self.nodes@[i].info.ended is Some) && (stv[i].1 is Some
                ==> stv[i].1->0.len() > 0) by {
                assert(st@[i].0@.len() > 0);
                assert(st@[i].1 is Some <==> w@[i].1 is Some);
                assert(st@[i].1 is Some ==> st@[i].1->0@.len() > 0);
            }
        }
        r
    }
}

} // verus!
