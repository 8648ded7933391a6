//! Reading a graph from GFA text: segment (`S`), link (`L`) and path (`P`)
//! lines, tab-separated; other record types are skipped.
use vstd::prelude::*;

use crate::edge::Edge;
use crate::error::{Error, Result};
use crate::graph::{
    all_resolved, flagged, has_id, path_views, select_flagged, valid_path_name, vertex_views,
    PovuGraph,
};
use crate::path::{copy_steps, Orientation, Path, Step};
use crate::vertex::Vertex;
use crate::text::{chars_of, push_char};

verus! {

/// Position of the first `c` in `s`, or `s.len()` when there is none.
pub open spec fn first_of(s: Seq<char>, c: char) -> nat
    decreases s.len(),
{
    if s.len() == 0 {
        0
    } else if s[0] == c {
        0
    } else {
        1 + first_of(s.drop_first(), c)
    }
}

/// The pieces of `s` between the occurrences of `sep`; one piece more than
/// there are separators.
pub open spec fn split(s: Seq<char>, sep: char) -> Seq<Seq<char>>
    decreases s.len(),
{
    let i = first_of(s, sep);
    if i >= s.len() {
        seq![s]
    } else {
        seq![s.take(i as int)] + split(s.skip((i + 1) as int), sep)
    }
}

proof fn lemma_first_of_bounds(s: Seq<char>, c: char)
    ensures
        first_of(s, c) <= s.len(),
    decreases s.len(),
{
    if s.len() > 0 && s[0] != c {
        lemma_first_of_bounds(s.drop_first(), c);
    }
}

proof fn lemma_first_of_unique(s: Seq<char>, c: char, i: int)
    requires
        0 <= i <= s.len(),
        forall|j: int| 0 <= j < i ==> s[j] != c,
        i < s.len() ==> s[i] == c,
    ensures
        first_of(s, c) == i,
    decreases s.len(),
{
    if s.len() > 0 && s[0] != c {
        let t = s.drop_first();
        assert forall|j: int| 0 <= j < i - 1 implies t[j] != c by {
            assert(t[j] == s[j + 1]);
        }
        if i - 1 < t.len() {
            assert(t[i - 1] == s[i]);
        }
        lemma_first_of_unique(t, c, i - 1);
    }
}

/// The pieces of `cs[lo..hi]` between the occurrences of `sep`, as index ranges.
pub fn split_ranges(cs: &Vec<char>, lo: usize, hi: usize, sep: char) -> (r: Vec<(usize, usize)>)
    requires
        lo <= hi <= cs@.len(),
    ensures
        r@.len() == split(cs@.subrange(lo as int, hi as int), sep).len(),
        forall|k: int|
            0 <= k < r@.len() ==> {
                let (a, b) = #[trigger] r@[k];
                &&& lo <= a <= b <= hi
                &&& cs@.subrange(a as int, b as int) == split(
                    cs@.subrange(lo as int, hi as int),
                    sep,
                )[k]
            },
{
    let mut r: Vec<(usize, usize)> = Vec::new();
    let mut p: usize = lo;
    loop
        invariant
            lo <= p <= hi <= cs@.len(),
            split(cs@.subrange(lo as int, hi as int), sep) == r@.map_values(
                |x: (usize, usize)| cs@.subrange(x.0 as int, x.1 as int),
            ) + split(cs@.subrange(p as int, hi as int), sep),
            forall|k: int|
                0 <= k < r@.len() ==> {
                    let (a, b) = #[trigger] r@[k];
                    lo <= a <= b <= hi
                },
        decreases hi - p,
    {
        let mut e = p;
        while e < hi && cs[e] != sep
            invariant
                p <= e <= hi <= cs@.len(),
                forall|j: int| p <= j < e ==> cs@[j] != sep,
            decreases hi - e,
        {
            e = e + 1;
        }
        let ghost x = cs@.subrange(p as int, hi as int);
        proof {
            assert forall|j: int| 0 <= j < e - p implies x[j] != sep by {
                assert(x[j] == cs@[p + j]);
            }
            if e < hi {
                assert(x[e - p] == cs@[e as int]);
            }
            lemma_first_of_unique(x, sep, e - p);
            assert(x.take(e - p) == cs@.subrange(p as int, e as int));
        }
        let ghost old_r = r@;
        r.push((p, e));
        let ghost f = |y: (usize, usize)| cs@.subrange(y.0 as int, y.1 as int);
        assert(r@.map_values(f) == old_r.map_values(f).push(cs@.subrange(p as int, e as int)));
        if e == hi {
            assert(split(x, sep) == seq![x]);
            assert(split(cs@.subrange(lo as int, hi as int), sep) =~= r@.map_values(f));
            return r;
        }
        assert(x.skip(e - p + 1) == cs@.subrange(e + 1, hi as int));
        assert(split(x, sep) == seq![cs@.subrange(p as int, e as int)] + split(
            cs@.subrange(e + 1, hi as int),
            sep,
        ));
        assert(split(cs@.subrange(lo as int, hi as int), sep) =~= r@.map_values(f) + split(
            cs@.subrange(e + 1, hi as int),
            sep,
        ));
        p = e + 1;
    }
}

/// The value of a decimal digit.
pub open spec fn digit_of(c: char) -> Option<nat> {
    if c == '0' {
        Some(0)
    } else if c == '1' {
        Some(1)
    } else if c == '2' {
        Some(2)
    } else if c == '3' {
        Some(3)
    } else if c == '4' {
        Some(4)
    } else if c == '5' {
        Some(5)
    } else if c == '6' {
        Some(6)
    } else if c == '7' {
        Some(7)
    } else if c == '8' {
        Some(8)
    } else if c == '9' {
        Some(9)
    } else {
        None
    }
}

/// The value of a string of decimal digits; `None` when a character is not a digit.
pub open spec fn decimal_value(s: Seq<char>) -> Option<nat>
    decreases s.len(),
{
    if s.len() == 0 {
        Some(0)
    } else {
        match (decimal_value(s.drop_last()), digit_of(s.last())) {
            (Some(v), Some(d)) => Some(v * 10 + d),
            _ => None,
        }
    }
}

/// A vertex ID: one or more decimal digits whose value fits in a `u64`.
pub open spec fn parse_id(s: Seq<char>) -> Option<u64> {
    if s.len() > 0 && decimal_value(s) is Some && decimal_value(s)->0 <= u64::MAX {
        Some(decimal_value(s)->0 as u64)
    } else {
        None
    }
}

/// An orientation field: `+` or `-` alone.
pub open spec fn orientation_of(s: Seq<char>) -> Option<Orientation> {
    if s == seq!['+'] {
        Some(Orientation::Forward)
    } else if s == seq!['-'] {
        Some(Orientation::Reverse)
    } else {
        None
    }
}

/// A step of a `P` line: a vertex ID followed by `+` or `-`.
pub open spec fn step_of(s: Seq<char>) -> Option<Step> {
    if s.len() >= 2 && orientation_of(seq![s.last()]) is Some && parse_id(s.drop_last()) is Some {
        Some(
            Step {
                vertex_id: parse_id(s.drop_last())->0,
                orientation: orientation_of(seq![s.last()])->0,
            },
        )
    } else {
        None
    }
}

/// The steps of a `P` line, one per comma-separated token.
pub open spec fn steps_of(tokens: Seq<Seq<char>>) -> Option<Seq<Step>>
    decreases tokens.len(),
{
    if tokens.len() == 0 {
        Some(Seq::empty())
    } else {
        match (steps_of(tokens.drop_last()), step_of(tokens.last())) {
            (Some(ss), Some(st)) => Some(ss.push(st)),
            _ => None,
        }
    }
}

/// What one line of GFA text says.
pub enum GfaLine {
    Segment { id: u64, sequence: Seq<char> },
    Link { edge: Edge },
    Walk { name: Seq<char>, steps: Seq<Step> },
    Skip,
}

/// A line without a trailing carriage return.
pub open spec fn strip_cr(l: Seq<char>) -> Seq<char> {
    if l.len() > 0 && l.last() == '\r' {
        l.drop_last()
    } else {
        l
    }
}

/// The meaning of one line; `None` when an `S`, `L` or `P` line is malformed.
/// Lines of any other record type, and empty lines, are skipped.
pub open spec fn line_of(l: Seq<char>) -> Option<GfaLine> {
    let f = split(strip_cr(l), '\t');
    if f[0] == seq!['S'] {
        if f.len() >= 3 && parse_id(f[1]) is Some {
            Some(GfaLine::Segment { id: parse_id(f[1])->0, sequence: f[2] })
        } else {
            None
        }
    } else if f[0] == seq!['L'] {
        if f.len() >= 5 && parse_id(f[1]) is Some && orientation_of(f[2]) is Some && parse_id(
            f[3],
        ) is Some && orientation_of(f[4]) is Some {
            Some(
                GfaLine::Link {
                    edge: Edge {
                        from_id: parse_id(f[1])->0,
                        from_orientation: orientation_of(f[2])->0,
                        to_id: parse_id(f[3])->0,
                        to_orientation: orientation_of(f[4])->0,
                    },
                },
            )
        } else {
            None
        }
    } else if f[0] == seq!['P'] {
        if f.len() >= 3 && steps_of(split(f[2], ',')) is Some {
            Some(GfaLine::Walk { name: f[1], steps: steps_of(split(f[2], ','))->0 })
        } else {
            None
        }
    } else {
        Some(GfaLine::Skip)
    }
}

/// A record of GFA text: a segment, a link or a path.
#[derive(Debug, Clone)]
pub enum GfaRecord {
    Segment { id: u64, sequence: String },
    Link(Edge),
    Path { name: String, steps: Vec<Step> },
}

impl GfaRecord {
    /// What the record says, as a line's meaning.
    pub open spec fn view_line(&self) -> GfaLine {
        match self {
            GfaRecord::Segment { id, sequence } => GfaLine::Segment { id: *id, sequence: sequence@ },
            GfaRecord::Link(e) => GfaLine::Link { edge: *e },
            GfaRecord::Path { name, steps } => GfaLine::Walk { name: name@, steps: steps@ },
        }
    }
}

/// The records of the lines `ls`, in order, skipped lines left out; `None`
/// when a line is malformed.
pub open spec fn records_of(ls: Seq<Seq<char>>) -> Option<Seq<GfaLine>>
    decreases ls.len(),
{
    if ls.len() == 0 {
        Some(Seq::empty())
    } else {
        match (records_of(ls.drop_last()), line_of(ls.last())) {
            (Some(rs), Some(GfaLine::Skip)) => Some(rs),
            (Some(rs), Some(r)) => Some(rs.push(r)),
            _ => None,
        }
    }
}

/// The lines of a text.
pub open spec fn lines_of(text: Seq<char>) -> Seq<Seq<char>> {
    split(text, '\n')
}

proof fn lemma_decimal_prefix(s: Seq<char>, k: int)
    requires
        0 <= k <= s.len(),
        decimal_value(s) is Some,
    ensures
        decimal_value(s.take(k)) is Some,
        decimal_value(s.take(k))->0 <= decimal_value(s)->0,
    decreases s.len(),
{
    if k < s.len() {
        let t = s.drop_last();
        lemma_decimal_prefix(t, k);
        assert(t.take(k) == s.take(k));
        assert(decimal_value(t)->0 <= decimal_value(s)->0) by (nonlinear_arith)
            requires
                decimal_value(s)->0 == decimal_value(t)->0 * 10 + digit_of(s.last())->0,
        ;
    } else {
        assert(s.take(k) == s);
    }
}

fn digit_value(c: char) -> (r: Option<u64>)
    ensures
        match digit_of(c) {
            Some(d) => r == Some(d as u64),
            None => r is None,
        },
{
    match c {
        '0' => Some(0),
        '1' => Some(1),
        '2' => Some(2),
        '3' => Some(3),
        '4' => Some(4),
        '5' => Some(5),
        '6' => Some(6),
        '7' => Some(7),
        '8' => Some(8),
        '9' => Some(9),
        _ => None,
    }
}

/// The vertex ID written in `cs[a..b]`.
fn parse_id_at(cs: &Vec<char>, a: usize, b: usize) -> (r: Option<u64>)
    requires
        a <= b <= cs@.len(),
    ensures
        r == parse_id(cs@.subrange(a as int, b as int)),
{
    let ghost s = cs@.subrange(a as int, b as int);
    if a == b {
        return None;
    }
    let mut v: u64 = 0;
    let mut k: usize = a;
    while k < b
        invariant
            a <= k <= b <= cs@.len(),
            s == cs@.subrange(a as int, b as int),
            decimal_value(s.take(k - a)) == Some(v as nat),
        decreases b - k,
    {
        assert(s.take(k + 1 - a).drop_last() == s.take(k - a));
        assert(s.take(k + 1 - a).last() == cs@[k as int]);
        let d = match digit_value(cs[k]) {
            Some(d) => d,
            None => {
                proof {
                    if decimal_value(s) is Some {
                        lemma_decimal_prefix(s, k + 1 - a);
                    }
                }
                return None;
            },
        };
        if v > (u64::MAX - d) / 10 {
            proof {
                assert(v * 10 + d > u64::MAX) by (nonlinear_arith)
                    requires
                        v > (u64::MAX - d) / 10,
                        d < 10,
                ;
                if decimal_value(s) is Some {
                    lemma_decimal_prefix(s, k + 1 - a);
                }
            }
            return None;
        }
        assert(v * 10 + d <= u64::MAX) by (nonlinear_arith)
            requires
                v <= (u64::MAX - d) / 10,
                d < 10,
        ;
        v = v * 10 + d;
        k = k + 1;
    }
    assert(s.take(b - a) == s);
    Some(v)
}

/// The orientation written in `cs[a..b]`.
fn orientation_at(cs: &Vec<char>, a: usize, b: usize) -> (r: Option<Orientation>)
    requires
        a <= b <= cs@.len(),
    ensures
        r == orientation_of(cs@.subrange(a as int, b as int)),
{
    if b - a != 1 {
        proof {
            assert(cs@.subrange(a as int, b as int).len() != 1);
        }
        return None;
    }
    let c = cs[a];
    proof {
        assert(cs@.subrange(a as int, b as int) =~= seq![c]);
    }
    if c == '+' {
        assert(seq![c] =~= seq!['+']);
        Some(Orientation::Forward)
    } else if c == '-' {
        assert(seq![c] =~= seq!['-']);
        assert(seq![c] != seq!['+']) by {
            assert(seq!['+'][0] == '+');
        }
        Some(Orientation::Reverse)
    } else {
        assert(seq![c] != seq!['+']) by {
            assert(seq!['+'][0] == '+');
        }
        assert(seq![c] != seq!['-']) by {
            assert(seq!['-'][0] == '-');
        }
        None
    }
}

/// The text of `cs[a..b]`.
fn string_at(cs: &Vec<char>, a: usize, b: usize) -> (r: String)
    requires
        a <= b <= cs@.len(),
    ensures
        r@ == cs@.subrange(a as int, b as int),
{
    let mut r = String::new();
    let mut k: usize = a;
    while k < b
        invariant
            a <= k <= b <= cs@.len(),
            r@ == cs@.subrange(a as int, k as int),
        decreases b - k,
    {
        push_char(&mut r, cs[k]);
        k = k + 1;
        assert(r@ == cs@.subrange(a as int, k as int));
    }
    r
}

/// The step written in `cs[a..b]`.
fn step_at(cs: &Vec<char>, a: usize, b: usize) -> (r: Option<Step>)
    requires
        a <= b <= cs@.len(),
    ensures
        r == step_of(cs@.subrange(a as int, b as int)),
{
    let ghost s = cs@.subrange(a as int, b as int);
    if b - a < 2 {
        return None;
    }
    proof {
        assert(seq![s.last()] == cs@.subrange(b - 1, b as int));
        assert(s.drop_last() == cs@.subrange(a as int, b - 1));
    }
    let o = match orientation_at(cs, b - 1, b) {
        Some(o) => o,
        None => {
            return None;
        },
    };
    let id = match parse_id_at(cs, a, b - 1) {
        Some(id) => id,
        None => {
            return None;
        },
    };
    Some(Step { vertex_id: id, orientation: o })
}

proof fn lemma_steps_prefix_none(tokens: Seq<Seq<char>>, k: int)
    requires
        0 <= k <= tokens.len(),
        steps_of(tokens.take(k)) is None,
    ensures
        steps_of(tokens) is None,
    decreases tokens.len() - k,
{
    if k < tokens.len() {
        assert(tokens.take(k + 1).drop_last() == tokens.take(k));
        lemma_steps_prefix_none(tokens, k + 1);
    } else {
        assert(tokens.take(k) == tokens);
    }
}

/// The comma-separated steps written in `cs[a..b]`.
fn steps_at(cs: &Vec<char>, a: usize, b: usize) -> (r: Option<Vec<Step>>)
    requires
        a <= b <= cs@.len(),
    ensures
        match r {
            Some(v) => steps_of(split(cs@.subrange(a as int, b as int), ',')) == Some(v@),
            None => steps_of(split(cs@.subrange(a as int, b as int), ',')) is None,
        },
{
    let ghost toks = split(cs@.subrange(a as int, b as int), ',');
    let ranges = split_ranges(cs, a, b, ',');
    let mut out: Vec<Step> = Vec::with_capacity(ranges.len());
    let mut k: usize = 0;
    while k < ranges.len()
        invariant
            k <= ranges@.len(),
            ranges@.len() == toks.len(),
            toks == split(cs@.subrange(a as int, b as int), ','),
            forall|j: int|
                0 <= j < ranges@.len() ==> {
                    let (x, y) = #[trigger] ranges@[j];
                    &&& a <= x <= y <= b
                    &&& cs@.subrange(x as int, y as int) == toks[j]
                },
            b <= cs@.len(),
            steps_of(toks.take(k as int)) == Some(out@),
        decreases ranges@.len() - k,
    {
        let (x, y) = ranges[k];
        assert(toks.take(k + 1).drop_last() == toks.take(k as int));
        assert(toks.take(k + 1).last() == toks[k as int]);
        match step_at(cs, x, y) {
            Some(st) => {
                out.push(st);
            },
            None => {
                proof {
                    lemma_steps_prefix_none(toks, k + 1);
                }
                return None;
            },
        }
        k = k + 1;
    }
    assert(toks.take(k as int) == toks);
    Some(out)
}

/// `cs[a..b]` is the one-character text `c`.
fn is_tag(cs: &Vec<char>, a: usize, b: usize, c: char) -> (r: bool)
    requires
        a <= b <= cs@.len(),
    ensures
        r == (cs@.subrange(a as int, b as int) == seq![c]),
{
    if b - a == 1 && cs[a] == c {
        assert(cs@.subrange(a as int, b as int) =~= seq![c]);
        true
    } else {
        proof {
            if cs@.subrange(a as int, b as int) == seq![c] {
                assert(seq![c].len() == 1);
                assert(cs@.subrange(a as int, b as int)[0] == cs@[a as int]);
            }
        }
        false
    }
}

/// The record on the line `cs[a..b]`: `Err` when it is malformed, `Ok(None)`
/// when it is skipped.
fn line_at(cs: &Vec<char>, a: usize, b: usize) -> (r: core::result::Result<Option<GfaRecord>, ()>)
    requires
        a <= b <= cs@.len(),
    ensures
        match r {
            Err(_) => line_of(cs@.subrange(a as int, b as int)) is None,
            Ok(None) => line_of(cs@.subrange(a as int, b as int)) == Some(GfaLine::Skip),
            Ok(Some(rec)) => line_of(cs@.subrange(a as int, b as int)) == Some(rec.view_line()),
        },
{
    let ghost l = cs@.subrange(a as int, b as int);
    let e = if b > a && cs[b - 1] == '\r' {
        b - 1
    } else {
        b
    };
    proof {
        if b > a && cs@[b - 1] == '\r' {
            assert(l.last() == cs@[b - 1]);
            assert(strip_cr(l) == cs@.subrange(a as int, e as int));
        } else {
            assert(strip_cr(l) == cs@.subrange(a as int, e as int));
        }
    }
    let ghost f = split(strip_cr(l), '\t');
    let fs = split_ranges(cs, a, e, '\t');
    proof {
        assert(f.len() >= 1) by {
            let x = strip_cr(l);
            lemma_first_of_bounds(x, '\t');
        }
    }
    let (t0, t1) = fs[0];
    if is_tag(cs, t0, t1, 'S') {
        if fs.len() < 3 {
            return Err(());
        }
        let (i0, i1) = fs[1];
        let id = match parse_id_at(cs, i0, i1) {
            Some(id) => id,
            None => {
                return Err(());
            },
        };
        let (s0, s1) = fs[2];
        let sequence = string_at(cs, s0, s1);
        Ok(Some(GfaRecord::Segment { id, sequence }))
    } else if is_tag(cs, t0, t1, 'L') {
        assert(f[0] != seq!['S']) by {
            assert(seq!['S'][0] != seq!['L'][0]);
        }
        if fs.len() < 5 {
            return Err(());
        }
        let (a1, b1) = fs[1];
        let (a2, b2) = fs[2];
        let (a3, b3) = fs[3];
        let (a4, b4) = fs[4];
        let from_id = parse_id_at(cs, a1, b1);
        let from_orientation = orientation_at(cs, a2, b2);
        let to_id = parse_id_at(cs, a3, b3);
        let to_orientation = orientation_at(cs, a4, b4);
        match (from_id, from_orientation, to_id, to_orientation) {
            (Some(fi), Some(fo), Some(ti), Some(to)) => Ok(
                Some(
                    GfaRecord::Link(
                        Edge { from_id: fi, from_orientation: fo, to_id: ti, to_orientation: to },
                    ),
                ),
            ),
            _ => Err(()),
        }
    } else if is_tag(cs, t0, t1, 'P') {
        assert(f[0] != seq!['S']) by {
            assert(seq!['S'][0] != seq!['P'][0]);
        }
        assert(f[0] != seq!['L']) by {
            assert(seq!['L'][0] != seq!['P'][0]);
        }
        if fs.len() < 3 {
            return Err(());
        }
        let (n0, n1) = fs[1];
        let (p0, p1) = fs[2];
        match steps_at(cs, p0, p1) {
            Some(steps) => {
                let name = string_at(cs, n0, n1);
                Ok(Some(GfaRecord::Path { name, steps }))
            },
            None => Err(()),
        }
    } else {
        Ok(None)
    }
}

proof fn lemma_records_prefix_none(ls: Seq<Seq<char>>, k: int)
    requires
        0 <= k <= ls.len(),
        records_of(ls.take(k)) is None,
    ensures
        records_of(ls) is None,
    decreases ls.len() - k,
{
    if k < ls.len() {
        assert(ls.take(k + 1).drop_last() == ls.take(k));
        lemma_records_prefix_none(ls, k + 1);
    } else {
        assert(ls.take(k) == ls);
    }
}

/// The views of a list of records.
pub open spec fn record_views(rs: Seq<GfaRecord>) -> Seq<GfaLine> {
    rs.map_values(|r: GfaRecord| r.view_line())
}

/// Read the segment, link and path records of GFA text, in order.
///
/// Fails with `MalformedLine` at the first malformed `S`, `L` or `P` line.
pub fn parse_gfa(text: &str) -> (r: Result<Vec<GfaRecord>>)
    ensures
        r is Ok <==> records_of(lines_of(text@)) is Some,
        r matches Ok(recs) ==> records_of(lines_of(text@)) == Some(record_views(recs@)),
        r matches Err(e) ==> e matches Error::MalformedLine { line } && 1 <= line <= lines_of(
            text@,
        ).len() && line_of(lines_of(text@)[line - 1]) is None && records_of(
            lines_of(text@).take(line - 1),
        ) is Some,
{
    let cs = chars_of(text);
    let ghost ls = lines_of(text@);
    let lines = split_ranges(&cs, 0, cs.len(), '\n');
    proof {
        assert(cs@.subrange(0, cs@.len() as int) == text@);
    }
    let mut recs: Vec<GfaRecord> = Vec::new();
    let mut k: usize = 0;
    while k < lines.len()
        invariant
            k <= lines@.len(),
            lines@.len() == ls.len(),
            ls == lines_of(text@),
            forall|j: int|
                0 <= j < lines@.len() ==> {
                    let (x, y) = #[trigger] lines@[j];
                    &&& x <= y <= cs@.len()
                    &&& cs@.subrange(x as int, y as int) == ls[j]
                },
            records_of(ls.take(k as int)) == Some(record_views(recs@)),
        decreases lines@.len() - k,
    {
        let (x, y) = lines[k];
        assert(ls.take(k + 1).drop_last() == ls.take(k as int));
        assert(ls.take(k + 1).last() == ls[k as int]);
        match line_at(&cs, x, y) {
            Err(_) => {
                proof {
                    lemma_records_prefix_none(ls, k + 1);
                }
                return Err(Error::MalformedLine { line: k + 1 });
            },
            Ok(None) => {},
            Ok(Some(rec)) => {
                let ghost before = recs@;
                recs.push(rec);
                assert(record_views(recs@) == record_views(before).push(rec.view_line()));
            },
        }
        k = k + 1;
    }
    assert(ls.take(k as int) == ls);
    Ok(recs)
}

/// A graph's contents as plain values: vertices as (ID, sequence), edges,
/// and paths as (name, steps), each in the order they were added.
pub struct GraphContents {
    pub vertices: Seq<(u64, Seq<char>)>,
    pub edges: Seq<Edge>,
    pub paths: Seq<(Seq<char>, Seq<Step>)>,
}

/// The contents of a graph with vertices `vs`, edges `es` and paths `ps`.
pub open spec fn contents_of(vs: Seq<Vertex>, es: Seq<Edge>, ps: Seq<Path>) -> GraphContents {
    GraphContents { vertices: vertex_views(vs), edges: es, paths: path_views(ps) }
}

/// Some vertex of `c` has the ID `id`.
pub open spec fn contents_have(c: GraphContents, id: u64) -> bool {
    exists|i: int| 0 <= i < c.vertices.len() && (#[trigger] c.vertices[i]).0 == id
}

/// What adding one record to a graph in the build phase gives: a segment
/// with a new ID adds a vertex, a link adds an edge, a path with a valid name
/// adds a path; `None` for a repeated ID or an invalid name.
pub open spec fn add_record(c: GraphContents, r: GfaLine) -> Option<GraphContents> {
    match r {
        GfaLine::Segment { id, sequence } => if contents_have(c, id) {
            None
        } else {
            Some(GraphContents { vertices: c.vertices.push((id, sequence)), ..c })
        },
        GfaLine::Link { edge } => Some(GraphContents { edges: c.edges.push(edge), ..c }),
        GfaLine::Walk { name, steps } => if valid_path_name(name) {
            Some(GraphContents { paths: c.paths.push((name, steps)), ..c })
        } else {
            None
        },
        GfaLine::Skip => Some(c),
    }
}

/// The contents of an empty graph after adding `rs` in order.
pub open spec fn built_from(rs: Seq<GfaLine>) -> Option<GraphContents>
    decreases rs.len(),
{
    if rs.len() == 0 {
        Some(GraphContents { vertices: Seq::empty(), edges: Seq::empty(), paths: Seq::empty() })
    } else {
        match built_from(rs.drop_last()) {
            Some(c) => add_record(c, rs.last()),
            None => None,
        }
    }
}

/// Every edge and every step of `c` names a vertex of `c`.
pub open spec fn contents_resolved(c: GraphContents) -> bool {
    &&& forall|e: int|
        0 <= e < c.edges.len() ==> contents_have(c, (#[trigger] c.edges[e]).from_id)
            && contents_have(c, c.edges[e].to_id)
    &&& forall|p: int, k: int|
        0 <= p < c.paths.len() && 0 <= k < c.paths[p].1.len() ==> contents_have(
            c,
            (#[trigger] c.paths[p].1[k]).vertex_id,
        )
}

proof fn lemma_has_id_contents(vs: Seq<Vertex>, es: Seq<Edge>, ps: Seq<Path>, id: u64)
    ensures
        has_id(vs, id) <==> contents_have(contents_of(vs, es, ps), id),
{
    let c = contents_of(vs, es, ps);
    if has_id(vs, id) {
        let i = choose|i: int| 0 <= i < vs.len() && (#[trigger] vs[i]).id == id;
        assert(c.vertices[i].0 == id);
    }
    if contents_have(c, id) {
        let i = choose|i: int| 0 <= i < c.vertices.len() && (#[trigger] c.vertices[i]).0 == id;
        assert(vs[i].id == id);
    }
}

pub(crate) proof fn lemma_resolved_contents(vs: Seq<Vertex>, es: Seq<Edge>, ps: Seq<Path>)
    ensures
        all_resolved(vs, es, ps) <==> contents_resolved(contents_of(vs, es, ps)),
{
    let c = contents_of(vs, es, ps);
    assert forall|id: u64| has_id(vs, id) <==> contents_have(c, id) by {
        lemma_has_id_contents(vs, es, ps, id);
    }
    if all_resolved(vs, es, ps) {
        assert forall|p: int, k: int|
            0 <= p < c.paths.len() && 0 <= k < c.paths[p].1.len() implies contents_have(
            c,
            (#[trigger] c.paths[p].1[k]).vertex_id,
        ) by {
            assert(c.paths[p].1 == ps[p].steps@);
            assert(crate::graph::path_resolves(vs, ps[p]));
            assert(has_id(vs, ps[p].steps@[k].vertex_id));
        }
    }
    if contents_resolved(c) {
        assert forall|p: int| 0 <= p < ps.len() implies crate::graph::path_resolves(
            vs,
            #[trigger] ps[p],
        ) by {
            assert forall|k: int| 0 <= k < ps[p].steps@.len() implies has_id(
                vs,
                (#[trigger] ps[p].steps@[k]).vertex_id,
            ) by {
                assert(c.paths[p].1 == ps[p].steps@);
                assert(contents_have(c, c.paths[p].1[k].vertex_id));
            }
        }
    }
}

proof fn lemma_built_prefix_none(rs: Seq<GfaLine>, k: int)
    requires
        0 <= k <= rs.len(),
        built_from(rs.take(k)) is None,
    ensures
        built_from(rs) is None,
    decreases rs.len() - k,
{
    if k < rs.len() {
        assert(rs.take(k + 1).drop_last() == rs.take(k));
        lemma_built_prefix_none(rs, k + 1);
    } else {
        assert(rs.take(k) == rs);
    }
}

impl PovuGraph {
    /// Build a finalized graph from records, as adding them in order with
    /// `add_vertex`, `add_edge` and `add_path` and then calling `finalize`
    /// would: the same errors, and on success the same contents.
    pub fn from_records(records: &Vec<GfaRecord>) -> (r: Result<PovuGraph>)
        ensures
            r is Ok <==> (built_from(record_views(records@)) is Some && contents_resolved(
                built_from(record_views(records@))->0,
            )),
            r matches Ok(g) ==> {
                &&& g.wf()
                &&& g.spec_finalized()
                &&& g.spec_references() is None
                &&& contents_of(g.spec_vertices(), g.spec_edges(), g.spec_paths()) == built_from(
                    record_views(records@),
                )->0
            },
            r matches Err(e) ==> {
                ||| built_from(record_views(records@)) is None && (e is DuplicateVertex
                    || e is InvalidPathName)
                ||| built_from(record_views(records@)) is Some && (e is DanglingEdge
                    || e is DanglingStep)
            },
    {
        let ghost views = record_views(records@);
        let mut g = PovuGraph::new(0, 0, 0);
        let mut k: usize = 0;
        proof {
            let c = contents_of(g.spec_vertices(), g.spec_edges(), g.spec_paths());
            assert(views.take(0) =~= Seq::<GfaLine>::empty());
            assert(c.vertices =~= Seq::empty());
            assert(c.edges =~= Seq::empty());
            assert(c.paths =~= Seq::empty());
        }
        while k < records.len()
            invariant
                k <= records@.len(),
                views == record_views(records@),
                g.wf(),
                !g.spec_finalized(),
                g.spec_references() is None,
                built_from(views.take(k as int)) is Some,
                contents_of(g.spec_vertices(), g.spec_edges(), g.spec_paths()) == built_from(
                    views.take(k as int),
                )->0,
            decreases records@.len() - k,
        {
            let ghost before = contents_of(g.spec_vertices(), g.spec_edges(), g.spec_paths());
            let ghost gv0 = g.spec_vertices();
            let ghost gp0 = g.spec_paths();
            proof {
                assert(views.take(k + 1).drop_last() == views.take(k as int));
                assert(views.take(k + 1).last() == records@[k as int].view_line());
            }
            match &records[k] {
                GfaRecord::Segment { id, sequence } => {
                    proof {
                        lemma_has_id_contents(gv0, g.spec_edges(), gp0, *id);
                    }
                    match g.add_vertex(*id, sequence.as_str()) {
                        Ok(_) => {
                            proof {
                                let after = contents_of(g.spec_vertices(), g.spec_edges(), g.spec_paths());
                                assert(g.spec_vertices() == gv0.push(g.spec_vertices().last()));
                                assert(after.vertices =~= before.vertices.push((*id, sequence@)));
                            }
                        },
                        Err(e) => {
                            proof {
                                lemma_built_prefix_none(views, k + 1);
                            }
                            return Err(e);
                        },
                    }
                },
                GfaRecord::Link(e) => {
                    let _ = g.add_edge(e.from_id, e.from_orientation, e.to_id, e.to_orientation);
                },
                GfaRecord::Path { name, steps } => {
                    match g.add_path(name.as_str(), copy_steps(steps)) {
                        Ok(_) => {
                            proof {
                                let after = contents_of(g.spec_vertices(), g.spec_edges(), g.spec_paths());
                                assert(g.spec_paths() == gp0.push(g.spec_paths().last()));
                                assert(after.paths =~= before.paths.push((name@, steps@)));
                            }
                        },
                        Err(e) => {
                            proof {
                                lemma_built_prefix_none(views, k + 1);
                            }
                            return Err(e);
                        },
                    }
                },
            }
            k = k + 1;
        }
        proof {
            assert(views.take(k as int) == views);
            lemma_resolved_contents(g.spec_vertices(), g.spec_edges(), g.spec_paths());
        }
        match g.finalize() {
            Ok(()) => Ok(g),
            Err(e) => Err(e),
        }
    }

    /// Load a finalized graph from GFA text: its `S`, `L` and `P` records are
    /// added in order, as `from_records` does.
    pub fn from_gfa(text: &str) -> (r: Result<PovuGraph>)
        ensures
            records_of(lines_of(text@)) is None ==> (r matches Err(e) && e is MalformedLine),
            records_of(lines_of(text@)) matches Some(rs) ==> {
                &&& r is Ok <==> (built_from(rs) is Some && contents_resolved(built_from(rs)->0))
                &&& r matches Ok(g) ==> {
                    &&& g.wf()
                    &&& g.spec_finalized()
                    &&& g.spec_references() is None
                    &&& contents_of(g.spec_vertices(), g.spec_edges(), g.spec_paths())
                        == built_from(rs)->0
                }
                &&& r matches Err(e) ==> {
                    ||| built_from(rs) is None && (e is DuplicateVertex || e is InvalidPathName)
                    ||| built_from(rs) is Some && (e is DanglingEdge || e is DanglingStep)
                }
            },
    {
        let records = parse_gfa(text)?;
        PovuGraph::from_records(&records)
    }
}

/// Some line of `text`, without a trailing carriage return, is `name`.
pub open spec fn listed(text: Seq<char>, name: Seq<char>) -> bool {
    exists|k: int| 0 <= k < lines_of(text).len() && strip_cr(#[trigger] lines_of(text)[k]) == name
}

/// Whether `name` is the text `cs[a..b]`.
fn equals_range(name: &Vec<char>, cs: &Vec<char>, a: usize, b: usize) -> (r: bool)
    requires
        a <= b <= cs@.len(),
    ensures
        r == (name@ == cs@.subrange(a as int, b as int)),
{
    if name.len() != b - a {
        return false;
    }
    let mut k: usize = 0;
    while k < name.len()
        invariant
            k <= name@.len() == b - a,
            b <= cs@.len(),
            forall|j: int| 0 <= j < k ==> name@[j] == cs@[a + j],
        decreases name@.len() - k,
    {
        if name[k] != cs[a + k] {
            assert(cs@.subrange(a as int, b as int)[k as int] == cs@[a + k]);
            return false;
        }
        k = k + 1;
    }
    assert(name@ =~= cs@.subrange(a as int, b as int));
    true
}

impl PovuGraph {
    /// Select as references the paths whose names are lines of `list` (exact
    /// match; a trailing carriage return is ignored). An empty list selects
    /// nothing.
    pub fn set_references_from_list(&mut self, list: &str) -> (r: Result<()>)
        requires
            old(self).wf(),
        ensures
            r is Ok,
            final(self).wf(),
            final(self).spec_vertices() == old(self).spec_vertices(),
            final(self).spec_edges() == old(self).spec_edges(),
            final(self).spec_paths() == old(self).spec_paths(),
            final(self).spec_finalized() == old(self).spec_finalized(),
            final(self).spec_references() == Some(
                flagged(
                    Seq::new(
                        old(self).spec_paths().len(),
                        |i: int| listed(list@, old(self).spec_paths()[i].name@),
                    ),
                ),
            ),
    {
        let cs = chars_of(list);
        let ghost ls = lines_of(list@);
        let lines = split_ranges(&cs, 0, cs.len(), '\n');
        proof {
            assert(cs@.subrange(0, cs@.len() as int) == list@);
        }
        let mut bounds: Vec<(usize, usize)> = Vec::with_capacity(lines.len());
        let mut k: usize = 0;
        while k < lines.len()
            invariant
                k <= lines@.len() == ls.len(),
                ls == lines_of(list@),
                forall|j: int|
                    0 <= j < lines@.len() ==> {
                        let (x, y) = #[trigger] lines@[j];
                        &&& x <= y <= cs@.len()
                        &&& cs@.subrange(x as int, y as int) == ls[j]
                    },
                bounds@.len() == k,
                forall|j: int|
                    0 <= j < k ==> {
                        let (x, y) = #[trigger] bounds@[j];
                        &&& x <= y <= cs@.len()
                        &&& cs@.subrange(x as int, y as int) == strip_cr(ls[j])
                    },
            decreases lines@.len() - k,
        {
            let (x, y) = lines[k];
            let e = if y > x && cs[y - 1] == '\r' {
                y - 1
            } else {
                y
            };
            proof {
                let l = ls[k as int];
                if y > x && cs@[y - 1] == '\r' {
                    assert(l.last() == cs@[y - 1]);
                }
                assert(strip_cr(l) == cs@.subrange(x as int, e as int));
            }
            bounds.push((x, e));
            proof {
                assert(bounds@[k as int] == (x, e));
            }
            k = k + 1;
        }
        let paths = self.path_list();
        let ghost want = Seq::new(paths@.len(), |i: int| listed(list@, paths@[i].name@));
        let mut flags: Vec<bool> = Vec::with_capacity(paths.len());
        let mut i: usize = 0;
        while i < paths.len()
            invariant
                i <= paths@.len(),
                want == Seq::new(paths@.len(), |i: int| listed(list@, paths@[i].name@)),
                bounds@.len() == ls.len(),
                ls == lines_of(list@),
                forall|j: int|
                    0 <= j < bounds@.len() ==> {
                        let (x, y) = #[trigger] bounds@[j];
                        &&& x <= y <= cs@.len()
                        &&& cs@.subrange(x as int, y as int) == strip_cr(ls[j])
                    },
                flags@ == want.take(i as int),
            decreases paths@.len() - i,
        {
            let name = chars_of(paths[i].name.as_str());
            let mut found = false;
            let mut k: usize = 0;
            while k < bounds.len() && !found
                invariant
                    k <= bounds@.len() == ls.len(),
                    i < paths@.len(),
                    name@ == paths@[i as int].name@,
                    forall|j: int|
                        0 <= j < bounds@.len() ==> {
                            let (x, y) = #[trigger] bounds@[j];
                            &&& x <= y <= cs@.len()
                            &&& cs@.subrange(x as int, y as int) == strip_cr(ls[j])
                        },
                    ls == lines_of(list@),
                    found ==> listed(list@, name@),
                    !found ==> forall|j: int| 0 <= j < k ==> strip_cr(#[trigger] ls[j]) != name@,
                decreases bounds@.len() - k,
            {
                let (x, y) = bounds[k];
                if equals_range(&name, &cs, x, y) {
                    found = true;
                }
                k = k + 1;
            }
            flags.push(found);
            i = i + 1;
            assert(flags@ =~= want.take(i as int));
        }
        assert(flags@ =~= want);
        let sel = select_flagged(&flags);
        self.set_selection(sel);
        Ok(())
    }
}

/// A graph loaded from GFA text whose records are `rs`, and a graph built in
/// memory by adding the same records in the same order, hold the same
/// vertices, edges and paths: the same vertex count, the same edge count and
/// the same edges.
pub proof fn lemma_loaded_matches_built(loaded: PovuGraph, built: PovuGraph, rs: Seq<GfaLine>)
    requires
        built_from(rs) is Some,
        contents_of(loaded.spec_vertices(), loaded.spec_edges(), loaded.spec_paths())
            == built_from(rs)->0,
        contents_of(built.spec_vertices(), built.spec_edges(), built.spec_paths()) == built_from(
            rs,
        )->0,
    ensures
        loaded.spec_vertices().len() == built.spec_vertices().len(),
        loaded.spec_edges() == built.spec_edges(),
        loaded.spec_paths().len() == built.spec_paths().len(),
        forall|i: int|
            0 <= i < loaded.spec_vertices().len() ==> (#[trigger] loaded.spec_vertices()[i]).id
                == built.spec_vertices()[i].id && loaded.spec_vertices()[i].sequence@
                == built.spec_vertices()[i].sequence@,
{
    let c = built_from(rs)->0;
    let lv = loaded.spec_vertices();
    let bv = built.spec_vertices();
    assert(lv.len() == c.vertices.len());
    assert(bv.len() == c.vertices.len());
    assert(loaded.spec_paths().len() == c.paths.len());
    assert(built.spec_paths().len() == c.paths.len());
    assert forall|i: int| 0 <= i < lv.len() implies (#[trigger] lv[i]).id == bv[i].id
        && lv[i].sequence@ == bv[i].sequence@ by {
        assert(c.vertices[i] == (lv[i].id, lv[i].sequence@));
        assert(c.vertices[i] == (bv[i].id, bv[i].sequence@));
    }
}

} // verus!
