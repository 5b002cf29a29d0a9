//! Text rendering of the process tree: one line per process, indented one
//! tab per depth level, showing pid, executable basename, arguments and
//! elapsed time.

use crate::ext::{chars_of, string_from_chars};
use crate::tree::{ProcessInfo, ProcessTree};
use vstd::prelude::*;

verus! {

/// The decimal digit character for `d`.
pub open spec fn digit_char(d: int) -> char {
    if d == 0 {
        '0'
    } else if d == 1 {
        '1'
    } else if d == 2 {
        '2'
    } else if d == 3 {
        '3'
    } else if d == 4 {
        '4'
    } else if d == 5 {
        '5'
    } else if d == 6 {
        '6'
    } else if d == 7 {
        '7'
    } else if d == 8 {
        '8'
    } else {
        '9'
    }
}

/// The decimal digits of a non-negative `n`, most significant first.
pub open spec fn dec_nat(n: int) -> Seq<char>
    decreases n,
{
    if n < 10 {
        seq![digit_char(n)]
    } else {
        dec_nat(n / 10) + seq![digit_char(n % 10)]
    }
}

/// The decimal form of `v`, with a minus sign when negative.
pub open spec fn dec_int(v: int) -> Seq<char> {
    if v < 0 {
        seq!['-'] + dec_nat(-v)
    } else {
        dec_nat(v)
    }
}

fn digit_of(d: u64) -> (c: char)
    requires
        d < 10,
    ensures
        c == digit_char(d as int),
{
    match d {
        0 => '0',
        1 => '1',
        2 => '2',
        3 => '3',
        4 => '4',
        5 => '5',
        6 => '6',
        7 => '7',
        8 => '8',
        _ => '9',
    }
}

/// Append the decimal form of `n` to `out`.
pub fn push_dec_u64(n: u64, out: &mut Vec<char>)
    ensures
        final(out)@ == old(out)@ + dec_nat(n as int),
    decreases n,
{
    if n < 10 {
        out.push(digit_of(n));
        proof {
            assert(out@ =~= old(out)@ + dec_nat(n as int));
        }
    } else {
        push_dec_u64(n / 10, out);
        out.push(digit_of(n % 10));
        proof {
            assert(out@ =~= old(out)@ + dec_nat(n as int));
        }
    }
}

/// Append the decimal form of `v` to `out`.
pub fn push_dec_i32(v: i32, out: &mut Vec<char>)
    ensures
        final(out)@ == old(out)@ + dec_int(v as int),
{
    if v < 0 {
        out.push('-');
        let ghost mid = out@;
        let m: u64 = (-(v as i64)) as u64;
        push_dec_u64(m, out);
        proof {
            assert(out@ =~= old(out)@ + dec_int(v as int));
        }
    } else {
        push_dec_u64(v as u64, out);
    }
}

/// A duration in nanoseconds, shown as seconds with three decimal places
/// and a trailing `s`.
pub open spec fn duration_text(nanos: int) -> Seq<char> {
    let millis = (nanos % 1_000_000_000) / 1_000_000;
    dec_nat(nanos / 1_000_000_000) + seq!['.'] + seq![
        digit_char(millis / 100),
        digit_char((millis / 10) % 10),
        digit_char(millis % 10),
    ] + seq!['s']
}

/// Format a duration given in nanoseconds, e.g. `1.034s`.
pub fn fmt_duration(nanos: u64) -> (r: String)
    ensures
        r@ == duration_text(nanos as int),
{
    let mut out: Vec<char> = Vec::new();
    push_dec_u64(nanos / 1_000_000_000, &mut out);
    out.push('.');
    let millis = (nanos % 1_000_000_000) / 1_000_000;
    out.push(digit_of(millis / 100));
    out.push(digit_of((millis / 10) % 10));
    out.push(digit_of(millis % 10));
    out.push('s');
    proof {
        assert(out@ =~= duration_text(nanos as int));
    }
    string_from_chars(&out)
}

/// `p` with its trailing slashes removed.
pub open spec fn strip_trailing_slashes(p: Seq<char>) -> Seq<char>
    decreases p.len(),
{
    if p.len() > 0 && p.last() == '/' {
        strip_trailing_slashes(p.drop_last())
    } else {
        p
    }
}

/// The characters of `p` after its last slash (all of `p` when it has
/// none).
pub open spec fn last_component(p: Seq<char>) -> Seq<char>
    decreases p.len(),
{
    if p.len() == 0 {
        Seq::empty()
    } else if p.last() == '/' {
        Seq::empty()
    } else {
        last_component(p.drop_last()).push(p.last())
    }
}

/// The file name a path denotes: its last component once trailing
/// slashes are gone, or nothing when that component is empty or a dot
/// path.
pub open spec fn basename_of(p: Seq<char>) -> Option<Seq<char>> {
    let s = last_component(strip_trailing_slashes(p));
    if s.len() == 0 || s == (".")@ || s == ("..")@ {
        Option::None
    } else {
        Option::Some(s)
    }
}

proof fn lemma_last_component_at(p: Seq<char>, s: int)
    requires
        0 <= s <= p.len(),
        forall|k: int| s <= k < p.len() ==> p[k] != '/',
        s == 0 || p[s - 1] == '/',
    ensures
        last_component(p) == p.subrange(s, p.len() as int),
    decreases p.len(),
{
    if s == p.len() {
        if p.len() > 0 {
            assert(last_component(p) =~= p.subrange(s, p.len() as int));
        } else {
            assert(last_component(p) =~= p.subrange(s, p.len() as int));
        }
    } else {
        assert(p.last() != '/');
        lemma_last_component_at(p.drop_last(), s);
        assert(p.drop_last().subrange(s, p.len() - 1).push(p.last()) =~= p.subrange(
            s,
            p.len() as int,
        ));
    }
}

/// The basename of the path the characters of `p` spell, or `None` for
/// an empty or dot-only path.
pub fn basename_chars(p: &Vec<char>) -> (r: Option<Vec<char>>)
    ensures
        match r {
            Option::Some(v) => basename_of(p@) == Option::Some(v@),
            Option::None => basename_of(p@) is None,
        },
{
    let mut end: usize = p.len();
    proof {
        assert(p@.take(end as int) =~= p@);
    }
    while end > 0 && p[end - 1] == '/'
        invariant
            end <= p@.len(),
            strip_trailing_slashes(p@) == strip_trailing_slashes(p@.take(end as int)),
        decreases end,
    {
        proof {
            assert(p@.take(end as int).last() == p@[end - 1]);
            assert(p@.take(end as int).drop_last() =~= p@.take(end - 1));
        }
        end -= 1;
    }
    proof {
        if end > 0 {
            assert(p@.take(end as int).last() == p@[end - 1]);
        }
        assert(strip_trailing_slashes(p@) == p@.take(end as int));
    }
    let mut start: usize = end;
    while start > 0 && p[start - 1] != '/'
        invariant
            start <= end <= p@.len(),
            forall|k: int| start <= k < end ==> p@[k] != '/',
        decreases start,
    {
        start -= 1;
    }
    proof {
        lemma_last_component_at(p@.take(end as int), start as int);
    }
    let mut comp: Vec<char> = Vec::new();
    let mut i: usize = start;
    while i < end
        invariant
            start <= i <= end <= p@.len(),
            comp@ == p@.subrange(start as int, i as int),
        decreases end - i,
    {
        comp.push(p[i]);
        proof {
            assert(comp@ =~= p@.subrange(start as int, i + 1));
        }
        i += 1;
    }
    proof {
        assert(p@.take(end as int).subrange(start as int, end as int) =~= p@.subrange(
            start as int,
            end as int,
        ));
    }
    if comp.len() == 0 {
        return None;
    }
    if comp.len() == 1 && comp[0] == '.' {
        proof {
            reveal_strlit(".");
            assert(comp@ =~= (".")@);
        }
        return None;
    }
    if comp.len() == 2 && comp[0] == '.' && comp[1] == '.' {
        proof {
            reveal_strlit("..");
            assert(comp@ =~= ("..")@);
        }
        return None;
    }
    proof {
        reveal_strlit(".");
        reveal_strlit("..");
        assert(comp@ != (".")@ && comp@ != ("..")@);
    }
    Some(comp)
}

/// The views of a sequence of strings.
pub open spec fn string_views(v: Seq<String>) -> Seq<Seq<char>> {
    v.map_values(|s: String| s@)
}

/// The views of the commandline's strings.
pub open spec fn views_of(c: Seq<String>) -> Seq<Seq<char>> {
    c.map_values(|s: String| s@)
}

/// The displayed name of a process: the basename of its argv[0], or a
/// placeholder when there is none.
pub open spec fn name_text(cmdline: Seq<Seq<char>>) -> Seq<char> {
    if cmdline.len() == 0 {
        ("<unknown>")@
    } else {
        match basename_of(cmdline[0]) {
            Option::Some(b) => b,
            Option::None => ("<unknown>")@,
        }
    }
}

/// The arguments from position `j` on, each followed by one space.
pub open spec fn args_text(cmdline: Seq<Seq<char>>, j: int) -> Seq<char>
    decreases cmdline.len() - j,
{
    if 0 <= j < cmdline.len() {
        cmdline[j] + seq![' '] + args_text(cmdline, j + 1)
    } else {
        Seq::empty()
    }
}

/// The elapsed-time text: the run time, or `?` while running.
pub open spec fn elapsed_text(info: ProcessInfo) -> Seq<char> {
    match info.ended {
        Option::Some(e) => duration_text(e - info.started),
        Option::None => ("?")@,
    }
}

/// One tab per depth level.
pub open spec fn tabs(d: int) -> Seq<char>
    decreases d,
{
    if d <= 0 {
        Seq::empty()
    } else {
        tabs(d - 1).push('\t')
    }
}

/// The line shown for one process at a given depth.
pub open spec fn line_text(info: ProcessInfo, depth: int) -> Seq<char> {
    tabs(depth) + dec_int(info.pid as int) + seq![' '] + name_text(views_of(info.cmdline@)) + seq![
        ' ',
    ] + args_text(views_of(info.cmdline@), 1) + seq!['['] + elapsed_text(info) + seq![']']
}

fn append_chars(out: &mut Vec<char>, v: &Vec<char>)
    ensures
        final(out)@ == old(out)@ + v@,
{
    let mut i: usize = 0;
    proof {
        assert(out@ =~= old(out)@ + v@.take(0int));
    }
    while i < v.len()
        invariant
            i <= v@.len(),
            out@ == old(out)@ + v@.take(i as int),
        decreases v@.len() - i,
    {
        out.push(v[i]);
        proof {
            assert(out@ =~= old(out)@ + v@.take(i + 1));
        }
        i += 1;
    }
    proof {
        assert(old(out)@ + v@.take(v@.len() as int) =~= old(out)@ + v@);
    }
}

fn push_unknown(out: &mut Vec<char>)
    ensures
        final(out)@ == old(out)@ + ("<unknown>")@,
{
    out.push('<');
    out.push('u');
    out.push('n');
    out.push('k');
    out.push('n');
    out.push('o');
    out.push('w');
    out.push('n');
    out.push('>');
    proof {
        reveal_strlit("<unknown>");
        assert(out@ =~= old(out)@ + ("<unknown>")@);
    }
}

/// Render the line for one process record at the given depth.
pub fn line_of(info: &ProcessInfo, depth: usize) -> (r: String)
    requires
        info.ended is Some ==> info.started <= info.ended->0,
    ensures
        r@ == line_text(*info, depth as int),
{
    let mut out: Vec<char> = Vec::new();
    let mut d: usize = 0;
    while d < depth
        invariant
            d <= depth,
            out@ == tabs(d as int),
        decreases depth - d,
    {
        out.push('\t');
        d += 1;
    }
    push_dec_i32(info.pid, &mut out);
    out.push(' ');
    let ghost base_name = out@;
    if info.cmdline.len() == 0 {
        push_unknown(&mut out);
    } else {
        let argv0 = chars_of(info.cmdline[0].as_str());
        match basename_chars(&argv0) {
            Some(b) => {
                append_chars(&mut out, &b);
            },
            None => {
                push_unknown(&mut out);
            },
        }
    }
    proof {
        assert(views_of(info.cmdline@).len() == info.cmdline@.len());
        if info.cmdline@.len() > 0 {
            assert(views_of(info.cmdline@)[0] == info.cmdline@[0]@);
        }
        assert(out@ == base_name + name_text(views_of(info.cmdline@)));
    }
    out.push(' ');
    let ghost base_args = out@;
    let ghost cviews = views_of(info.cmdline@);
    let mut j: usize = 1;
    proof {
        assert(base_args + args_text(cviews, 1) =~= out@ + args_text(cviews, 1));
    }
    while j < info.cmdline.len()
        invariant
            1 <= j,
            info.ended is Some ==> info.started <= info.ended->0,
            cviews == views_of(info.cmdline@),
            base_args + args_text(cviews, 1) == out@ + args_text(cviews, j as int),
        decreases info.cmdline@.len() - j,
    {
        let arg = chars_of(info.cmdline[j].as_str());
        append_chars(&mut out, &arg);
        out.push(' ');
        proof {
            assert(cviews[j as int] == info.cmdline@[j as int]@);
            assert(args_text(cviews, j as int) =~= cviews[j as int] + seq![' '] + args_text(
                cviews,
                j + 1,
            ));
            assert(base_args + args_text(cviews, 1) =~= out@ + args_text(cviews, j + 1));
        }
        j += 1;
    }
    proof {
        assert(args_text(cviews, info.cmdline@.len() as int) =~= Seq::<char>::empty());
        assert(out@ =~= base_args + args_text(cviews, 1));
    }
    out.push('[');
    match info.ended {
        Some(e) => {
            let dur = fmt_duration(e - info.started);
            let durc = chars_of(dur.as_str());
            append_chars(&mut out, &durc);
        },
        None => {
            out.push('?');
            proof {
                reveal_strlit("?");
                assert(out@.last() == '?');
                assert(seq!['?'] =~= ("?")@);
            }
        },
    }
    out.push(']');
    proof {
        assert(out@ =~= line_text(*info, depth as int));
    }
    string_from_chars(&out)
}

impl ProcessTree {
    /// The text lines of the subtree rooted at `a`, indented `depth`
    /// tabs.
    pub open spec fn subtree_lines(&self, a: int, depth: int) -> Seq<Seq<char>>
        decreases self.n() - a, 1int, 0int,
        via Self::subtree_lines_decreases
    {
        if self.wf() && 0 <= a < self.n() {
            seq![line_text(self.nodes@[a].info, depth)] + self.children_lines(a, 0, depth + 1)
        } else {
            Seq::empty()
        }
    }

    /// The text lines of `a`'s children from position `j` on.
    pub open spec fn children_lines(&self, a: int, j: int, depth: int) -> Seq<Seq<char>>
        decreases self.n() - a, 0int, self.child_seq(a).len() - j,
        via Self::children_lines_decreases
    {
        if self.wf() && 0 <= a < self.n() && 0 <= j {
            if j >= self.child_seq(a).len() {
                Seq::empty()
            } else {
                self.subtree_lines(self.child_seq(a)[j] as int, depth) + self.children_lines(
                    a,
                    j + 1,
                    depth,
                )
            }
        } else {
            Seq::empty()
        }
    }

    #[via_fn]
    proof fn subtree_lines_decreases(&self, a: int, depth: int) {
    }

    #[via_fn]
    proof fn children_lines_decreases(&self, a: int, j: int, depth: int) {
        if self.wf() && 0 <= a < self.n() && 0 <= j && j < self.child_seq(a).len() {
            assert(self.children_ok(a));
        }
    }

    fn collect_lines(&self, a: usize, depth: usize, out: &mut Vec<String>)
        requires
            self.wf(),
            self.stamps_ok(),
            (a as int) < self.n(),
            depth <= a,
        ensures
            string_views(final(out)@) == string_views(old(out)@) + self.subtree_lines(
                a as int,
                depth as int,
            ),
        decreases self.nodes@.len() - a,
    {
        let line = line_of(&self.nodes[a].info, depth);
        out.push(line);
        proof {
            assert(string_views(out@) =~= string_views(old(out)@) + seq![
                line_text(self.nodes@[a as int].info, depth as int),
            ]);
        }
        let num_children = self.nodes[a].children.len();
        let mut j: usize = 0;
        let ghost base = string_views(out@);
        proof {
            assert(base + self.children_lines(a as int, 0, depth + 1) =~= string_views(out@)
                + self.children_lines(a as int, j as int, depth + 1));
        }
        while j < num_children
            invariant
                self.wf(),
                self.stamps_ok(),
                (a as int) < self.n(),
                depth <= a,
                num_children == self.child_seq(a as int).len(),
                j <= num_children,
                base + self.children_lines(a as int, 0, depth + 1) == string_views(out@)
                    + self.children_lines(a as int, j as int, depth + 1),
            decreases num_children - j,
        {
            let c = self.nodes[a].children[j];
            proof {
                assert(self.children_ok(a as int));
                assert(self.child_seq(a as int)[j as int] == c);
            }
            self.collect_lines(c, depth + 1, out);
            j += 1;
            proof {
                assert(self.children_lines(a as int, j - 1, depth + 1) == self.subtree_lines(
                    c as int,
                    depth + 1,
                ) + self.children_lines(a as int, j as int, depth + 1));
                assert(base + self.children_lines(a as int, 0, depth + 1) =~= string_views(out@)
                    + self.children_lines(a as int, j as int, depth + 1));
            }
        }
        proof {
            assert(self.children_lines(a as int, num_children as int, depth + 1) =~= Seq::<
                Seq<char>,
            >::empty());
            assert(string_views(out@) =~= string_views(old(out)@) + self.subtree_lines(
                a as int,
                depth as int,
            ));
        }
    }

    /// The indented text of the whole tree: one line per process, depth
    /// first, one tab per level.
    pub fn text_lines(&self) -> (r: Vec<String>)
        requires
            self.wf(),
            self.stamps_ok(),
        ensures
            string_views(r@) == self.subtree_lines(self.root as int, 0),
    {
        let mut out: Vec<String> = Vec::new();
        self.collect_lines(self.root, 0, &mut out);
        proof {
            assert(string_views(out@) =~= self.subtree_lines(self.root as int, 0));
        }
        out
    }
}

} // verus!
