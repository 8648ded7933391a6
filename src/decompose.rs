//! Nested variation regions over the vertex ends of a reference backbone.
//!
//! The ends of the vertices along the backbone are numbered in walk order
//! (end coordinates). Every adjacency of the graph, seen from the backbone,
//! joins two end coordinates (a span). A span *breaks* an interval when one of its ends lies
//! strictly inside the interval and the other strictly outside: the graph can
//! then leave the interval without passing through its boundaries. A region
//! is the smallest interval around a seed span that no span breaks. Regions
//! built this way are nested or side by side; they never partially overlap.
use vstd::prelude::*;

verus! {

/// An interval `[lo, hi]` of end coordinates joined by one adjacency;
/// `seed` tells whether it opens a region of its own.
#[derive(Debug, Clone, Copy, PartialEq, Eq, Structural)]
pub struct Span {
    pub lo: usize,
    pub hi: usize,
    pub seed: bool,
}

/// An interval `[lo, hi]` of end coordinates: the bounds of one region.
#[derive(Debug, Clone, Copy, PartialEq, Eq, Structural)]
pub struct Interval {
    pub lo: usize,
    pub hi: usize,
}

/// `t` has one end strictly inside `[lo, hi]` and the other strictly outside.
pub open spec fn breaks(t: Span, lo: int, hi: int) -> bool {
    (lo < t.lo < hi && t.hi > hi) || (lo < t.hi < hi && t.lo < lo)
}

/// No span of `spans` breaks `[lo, hi]`.
pub open spec fn unbroken(spans: Seq<Span>, lo: int, hi: int) -> bool {
    forall|i: int| 0 <= i < spans.len() ==> !breaks(#[trigger] spans[i], lo, hi)
}

/// `[lo, hi]` holds the span `s`.
pub open spec fn encloses(lo: int, hi: int, s: Span) -> bool {
    lo <= s.lo && s.hi <= hi
}

/// `[lo, hi]` is the smallest unbroken interval that holds `s`.
pub open spec fn is_closure(spans: Seq<Span>, s: Span, lo: int, hi: int) -> bool {
    &&& encloses(lo, hi, s)
    &&& unbroken(spans, lo, hi)
    &&& forall|lo2: int, hi2: int|
        encloses(lo2, hi2, s) && #[trigger] unbroken(spans, lo2, hi2) ==> lo2 <= lo && hi <= hi2
}

/// `r` is a region of `spans`: the closure of one of its seeds.
pub open spec fn is_region(spans: Seq<Span>, r: Interval) -> bool {
    exists|i: int|
        0 <= i < spans.len() && (#[trigger] spans[i]).seed && is_closure(
            spans,
            spans[i],
            r.lo as int,
            r.hi as int,
        )
}

/// Every span is an interval, and the ends of every seed lie on different
/// vertices (coordinates `2p` and `2p + 1` belong to the vertex at `p`).
pub open spec fn spans_wf(spans: Seq<Span>) -> bool {
    forall|i: int|
        0 <= i < spans.len() ==> (#[trigger] spans[i]).lo <= spans[i].hi && (spans[i].seed
            ==> spans[i].lo / 2 < spans[i].hi / 2)
}

/// `a` holds `b`.
pub open spec fn contains(a: Interval, b: Interval) -> bool {
    a.lo <= b.lo && b.hi <= a.hi
}

/// `a` and `b` are nested, or share at most a boundary coordinate.
pub open spec fn nested_or_disjoint(a: Interval, b: Interval) -> bool {
    contains(a, b) || contains(b, a) || a.hi <= b.lo || b.hi <= a.lo
}

/// The order of regions: by first coordinate, and the larger first on a tie, so
/// that every region comes after the regions that hold it.
pub open spec fn before(a: Interval, b: Interval) -> bool {
    a.lo < b.lo || (a.lo == b.lo && a.hi > b.hi)
}

/// Strictly increasing in `before`: sorted and without repeats.
pub open spec fn sorted_regions(rs: Seq<Interval>) -> bool {
    forall|i: int, j: int| 0 <= i < j < rs.len() ==> before(#[trigger] rs[i], #[trigger] rs[j])
}

/// The smallest unbroken interval that holds `s`.
pub fn closure_of(spans: &Vec<Span>, s: Span) -> (r: Interval)
    requires
        s.lo <= s.hi,
    ensures
        is_closure(spans@, s, r.lo as int, r.hi as int),
        r.lo <= r.hi,
{
    let mut lo = s.lo;
    let mut hi = s.hi;
    loop
        invariant
            s.lo <= s.hi,
            lo <= s.lo,
            s.hi <= hi,
            forall|lo2: int, hi2: int|
                encloses(lo2, hi2, s) && #[trigger] unbroken(spans@, lo2, hi2) ==> lo2 <= lo && hi
                    <= hi2,
        decreases lo + (usize::MAX - hi),
    {
        let ghost lo0 = lo;
        let ghost hi0 = hi;
        let mut changed = false;
        let mut i: usize = 0;
        while i < spans.len()
            invariant
                i <= spans.len(),
                lo <= lo0 <= s.lo,
                s.hi <= hi0 <= hi,
                changed ==> lo + (usize::MAX - hi) < lo0 + (usize::MAX - hi0),
                !changed ==> lo == lo0 && hi == hi0,
                !changed ==> forall|j: int|
                    0 <= j < i ==> !breaks(#[trigger] spans@[j], lo as int, hi as int),
                forall|lo2: int, hi2: int|
                    encloses(lo2, hi2, s) && #[trigger] unbroken(spans@, lo2, hi2) ==> lo2 <= lo
                        && hi <= hi2,
            decreases spans.len() - i,
        {
            let t = spans[i];
            if lo < t.lo && t.lo < hi && t.hi > hi {
                proof {
                    assert forall|lo2: int, hi2: int|
                        encloses(lo2, hi2, s) && #[trigger] unbroken(
                            spans@,
                            lo2,
                            hi2,
                        ) implies t.hi <= hi2 by {
                        assert(!breaks(spans@[i as int], lo2, hi2));
                    }
                }
                hi = t.hi;
                changed = true;
            } else if lo < t.hi && t.hi < hi && t.lo < lo {
                proof {
                    assert forall|lo2: int, hi2: int|
                        encloses(lo2, hi2, s) && #[trigger] unbroken(
                            spans@,
                            lo2,
                            hi2,
                        ) implies lo2 <= t.lo by {
                        assert(!breaks(spans@[i as int], lo2, hi2));
                    }
                }
                lo = t.lo;
                changed = true;
            }
            i = i + 1;
        }
        if !changed {
            return Interval { lo, hi };
        }
    }
}

fn precedes(a: Interval, b: Interval) -> (r: bool)
    ensures
        r == before(a, b),
{
    a.lo < b.lo || (a.lo == b.lo && a.hi > b.hi)
}

/// Insert `x` into a sorted list of regions, unless it is already there.
fn insert_region(rs: &mut Vec<Interval>, x: Interval)
    requires
        sorted_regions(old(rs)@),
    ensures
        sorted_regions(final(rs)@),
        forall|y: Interval| #[trigger] final(rs)@.contains(y) <==> (old(rs)@.contains(y) || y == x),
{
    let mut k: usize = 0;
    while k < rs.len() && precedes(rs[k], x)
        invariant
            k <= rs.len(),
            forall|j: int| 0 <= j < k ==> before(#[trigger] rs@[j], x),
        decreases rs.len() - k,
    {
        k = k + 1;
    }
    if k < rs.len() && rs[k] == x {
        assert(rs@.contains(x)) by {
            assert(rs@[k as int] == x);
        }
        return;
    }
    let ghost old_rs = rs@;
    rs.insert(k, x);
    proof {
        assert forall|i: int, j: int| 0 <= i < j < rs@.len() implies before(
            #[trigger] rs@[i],
            #[trigger] rs@[j],
        ) by {
            if j < k {
                assert(rs@[i] == old_rs[i] && rs@[j] == old_rs[j]);
            } else if j == k {
                assert(rs@[i] == old_rs[i]);
            } else if i == k {
                assert(rs@[j] == old_rs[j - 1]);
                assert(before(x, old_rs[k as int]));
            } else if i < k {
                assert(rs@[i] == old_rs[i] && rs@[j] == old_rs[j - 1]);
            } else {
                assert(rs@[i] == old_rs[i - 1] && rs@[j] == old_rs[j - 1]);
            }
        }
        assert forall|y: Interval| #[trigger] rs@.contains(y) <==> (old_rs.contains(y) || y == x) by {
            if rs@.contains(y) {
                let i = choose|i: int| 0 <= i < rs@.len() && rs@[i] == y;
                if i < k {
                    assert(old_rs[i] == y);
                } else if i > k {
                    assert(old_rs[i - 1] == y);
                }
            }
            if old_rs.contains(y) {
                let i = choose|i: int| 0 <= i < old_rs.len() && old_rs[i] == y;
                if i < k {
                    assert(rs@[i] == y);
                } else {
                    assert(rs@[i + 1] == y);
                }
            }
            if y == x {
                assert(rs@[k as int] == x);
            }
        }
    }
}

/// The regions of `spans`: the closure of every seed, each once, in the
/// order `before`.
pub fn find_regions(spans: &Vec<Span>) -> (rs: Vec<Interval>)
    requires
        spans_wf(spans@),
    ensures
        sorted_regions(rs@),
        forall|i: int| 0 <= i < rs@.len() ==> is_region(spans@, #[trigger] rs@[i]),
        forall|i: int| 0 <= i < rs@.len() ==> (#[trigger] rs@[i]).lo / 2 < rs@[i].hi / 2,
        laminar(rs@),
        rs@.len() == 0 <==> forall|i: int| 0 <= i < spans@.len() ==> !(#[trigger] spans@[i]).seed,
        forall|i: int, lo: int, hi: int|
            0 <= i < spans@.len() && spans@[i].seed && #[trigger] is_closure(
                spans@,
                spans@[i],
                lo,
                hi,
            ) ==> rs@.contains(Interval { lo: lo as usize, hi: hi as usize }),
{
    let mut rs: Vec<Interval> = Vec::new();
    let mut i: usize = 0;
    while i < spans.len()
        invariant
            i <= spans.len(),
            spans_wf(spans@),
            sorted_regions(rs@),
            forall|j: int| 0 <= j < rs@.len() ==> is_region(spans@, #[trigger] rs@[j]),
            forall|j: int| 0 <= j < rs@.len() ==> (#[trigger] rs@[j]).lo / 2 < rs@[j].hi / 2,
            rs@.len() == 0 ==> forall|j: int| 0 <= j < i ==> !(#[trigger] spans@[j]).seed,
            forall|j: int, lo: int, hi: int|
                0 <= j < i && spans@[j].seed && #[trigger] is_closure(spans@, spans@[j], lo, hi)
                    ==> rs@.contains(Interval { lo: lo as usize, hi: hi as usize }),
        decreases spans.len() - i,
    {
        let s = spans[i];
        if s.seed {
            assert(s.lo / 2 < s.hi / 2) by {
                assert(spans@[i as int] == s);
            }
            let c = closure_of(spans, s);
            let ghost old_rs = rs@;
            insert_region(&mut rs, c);
            proof {
                assert(is_region(spans@, c)) by {
                    assert(spans@[i as int] == s);
                }
                assert forall|j: int| 0 <= j < rs@.len() implies is_region(
                    spans@,
                    #[trigger] rs@[j],
                ) && rs@[j].lo / 2 < rs@[j].hi / 2 by {
                    assert(rs@.contains(rs@[j]));
                    if rs@[j] != c {
                        assert(old_rs.contains(rs@[j]));
                        let k = choose|k: int| 0 <= k < old_rs.len() && old_rs[k] == rs@[j];
                        assert(is_region(spans@, old_rs[k]));
                        assert(old_rs[k].lo / 2 < old_rs[k].hi / 2);
                    }
                }
                assert forall|j: int, lo: int, hi: int|
                    0 <= j < i + 1 && spans@[j].seed && #[trigger] is_closure(
                        spans@,
                        spans@[j],
                        lo,
                        hi,
                    ) implies rs@.contains(Interval { lo: lo as usize, hi: hi as usize }) by {
                    if j == i {
                        lemma_closure_unique(spans@, s, lo, hi, c.lo as int, c.hi as int);
                        assert(Interval { lo: lo as usize, hi: hi as usize } == c);
                    } else {
                        assert(old_rs.contains(Interval { lo: lo as usize, hi: hi as usize }));
                    }
                }
            }
        }
        i = i + 1;
    }
    proof {
        assert forall|a: int, b: int| 0 <= a < rs@.len() && 0 <= b < rs@.len() implies nested_or_disjoint(
            #[trigger] rs@[a],
            #[trigger] rs@[b],
        ) by {
            lemma_regions_laminar(spans@, rs@[a], rs@[b]);
        }
        if rs@.len() > 0 {
            assert(is_region(spans@, rs@[0]));
        }
    }
    rs
}

/// `p` is the parent of region `i`: the nearest earlier region that holds it,
/// or `None` when no earlier region holds it.
pub open spec fn parent_of(rs: Seq<Interval>, i: int, p: Option<usize>) -> bool {
    match p {
        Some(j) => {
            &&& j < i
            &&& contains(rs[j as int], rs[i])
            &&& forall|k: int| j < k < i ==> !contains(#[trigger] rs[k], rs[i])
        },
        None => forall|k: int| 0 <= k < i ==> !contains(#[trigger] rs[k], rs[i]),
    }
}

/// Any two regions of the list are nested or share at most a boundary.
pub open spec fn laminar(rs: Seq<Interval>) -> bool {
    forall|a: int, b: int|
        0 <= a < rs.len() && 0 <= b < rs.len() ==> nested_or_disjoint(
            #[trigger] rs[a],
            #[trigger] rs[b],
        )
}

/// For each region of the list, its parent in the nesting tree.
pub fn nesting_parents(rs: &Vec<Interval>) -> (ps: Vec<Option<usize>>)
    ensures
        ps@.len() == rs@.len(),
        forall|i: int| 0 <= i < ps@.len() ==> parent_of(rs@, i, #[trigger] ps@[i]),
{
    let mut ps: Vec<Option<usize>> = Vec::with_capacity(rs.len());
    let mut i: usize = 0;
    while i < rs.len()
        invariant
            i <= rs.len(),
            ps@.len() == i,
            forall|k: int| 0 <= k < i ==> parent_of(rs@, k, #[trigger] ps@[k]),
        decreases rs.len() - i,
    {
        let mut p: Option<usize> = None;
        let mut j: usize = i;
        let mut found = false;
        while j > 0 && !found
            invariant
                j <= i < rs.len(),
                !found ==> p is None && forall|k: int|
                    j <= k < i ==> !contains(#[trigger] rs@[k], rs@[i as int]),
                found ==> parent_of(rs@, i as int, p),
            decreases j,
        {
            let r = rs[j - 1];
            if r.lo <= rs[i].lo && rs[i].hi <= r.hi {
                p = Some(j - 1);
                found = true;
            }
            j = j - 1;
        }
        ps.push(p);
        proof {
            assert(ps@[i as int] == p);
        }
        i = i + 1;
    }
    ps
}

/// In a sorted list of regions with proper bounds that never partially
/// overlap, the parent of a region is the innermost other region that holds
/// it, and a region without a parent is held by no other region.
pub proof fn lemma_parent_is_innermost(rs: Seq<Interval>, i: int, p: Option<usize>)
    requires
        sorted_regions(rs),
        laminar(rs),
        forall|k: int| 0 <= k < rs.len() ==> (#[trigger] rs[k]).lo < rs[k].hi,
        0 <= i < rs.len(),
        parent_of(rs, i, p),
    ensures
        p matches Some(j) ==> forall|k: int|
            0 <= k < rs.len() && k != i && #[trigger] contains(rs[k], rs[i]) ==> contains(
                rs[k],
                rs[j as int],
            ),
        p is None ==> forall|k: int|
            0 <= k < rs.len() && k != i ==> !#[trigger] contains(rs[k], rs[i]),
{
    assert forall|k: int| 0 <= k < rs.len() && i < k implies !#[trigger] contains(rs[k], rs[i]) by {
        assert(before(rs[i], rs[k]));
    }
    if let Some(j) = p {
        assert forall|k: int|
            0 <= k < rs.len() && k != i && #[trigger] contains(rs[k], rs[i]) implies contains(
            rs[k],
            rs[j as int],
        ) by {
            if k < j {
                assert(before(rs[k], rs[j as int]));
                assert(nested_or_disjoint(rs[k], rs[j as int]));
            }
        }
    }
}

/// When every span ends below `bound`, so does the closure of each of them.
pub proof fn lemma_closure_below(spans: Seq<Span>, k: int, lo: int, hi: int, bound: int)
    requires
        0 <= k < spans.len(),
        is_closure(spans, spans[k], lo, hi),
        forall|i: int| 0 <= i < spans.len() ==> (#[trigger] spans[i]).hi < bound,
    ensures
        hi < bound,
{
    assert(spans[k].hi < bound);
    if hi >= bound {
        assert forall|i: int| 0 <= i < spans.len() implies !breaks(#[trigger] spans[i], lo, bound - 1) by {
            assert(!breaks(spans[i], lo, hi));
        }
        assert(unbroken(spans, lo, bound - 1));
    }
}

/// `a` strictly holds `b`.
pub open spec fn strictly_contains(a: Interval, b: Interval) -> bool {
    contains(a, b) && a != b
}

/// `a` and `b` share at most a boundary coordinate.
pub open spec fn apart(a: Interval, b: Interval) -> bool {
    a.hi <= b.lo || b.hi <= a.lo
}

/// Of two different regions with proper bounds, exactly one strictly holds
/// the other, or the other holds it, or they lie apart.
pub proof fn lemma_regions_exactly_one(spans: Seq<Span>, a: Interval, b: Interval)
    requires
        is_region(spans, a),
        is_region(spans, b),
        a.lo < a.hi,
        b.lo < b.hi,
        a != b,
    ensures
        strictly_contains(a, b) || strictly_contains(b, a) || apart(a, b),
        !(strictly_contains(a, b) && strictly_contains(b, a)),
        !(strictly_contains(a, b) && apart(a, b)),
        !(strictly_contains(b, a) && apart(a, b)),
{
    lemma_regions_laminar(spans, a, b);
}

/// A span has one closure.
pub proof fn lemma_closure_unique(spans: Seq<Span>, s: Span, lo1: int, hi1: int, lo2: int, hi2: int)
    requires
        is_closure(spans, s, lo1, hi1),
        is_closure(spans, s, lo2, hi2),
    ensures
        lo1 == lo2,
        hi1 == hi2,
{
    assert(unbroken(spans, lo1, hi1));
    assert(unbroken(spans, lo2, hi2));
}

/// Two regions are nested or share at most a boundary: they never partially
/// overlap.
pub proof fn lemma_regions_laminar(spans: Seq<Span>, a: Interval, b: Interval)
    requires
        is_region(spans, a),
        is_region(spans, b),
    ensures
        nested_or_disjoint(a, b),
{
    let i = choose|i: int|
        0 <= i < spans.len() && (#[trigger] spans[i]).seed && is_closure(
            spans,
            spans[i],
            a.lo as int,
            a.hi as int,
        );
    let j = choose|j: int|
        0 <= j < spans.len() && (#[trigger] spans[j]).seed && is_closure(
            spans,
            spans[j],
            b.lo as int,
            b.hi as int,
        );
    lemma_no_partial_overlap(spans, i, a, b);
    lemma_no_partial_overlap(spans, j, b, a);
}

/// The closure `a` of `spans[k]` cannot start before an unbroken `b` and end
/// inside it.
proof fn lemma_no_partial_overlap(spans: Seq<Span>, k: int, a: Interval, b: Interval)
    requires
        0 <= k < spans.len(),
        is_closure(spans, spans[k], a.lo as int, a.hi as int),
        unbroken(spans, b.lo as int, b.hi as int),
    ensures
        !(a.lo < b.lo && b.lo < a.hi && a.hi < b.hi),
{
    let s = spans[k];
    if a.lo < b.lo && b.lo < a.hi && a.hi < b.hi {
        assert(!breaks(s, b.lo as int, b.hi as int));
        if s.lo >= b.lo {
            // the overlap [b.lo, a.hi] is unbroken and smaller than a
            assert forall|i: int| 0 <= i < spans.len() implies !breaks(
                #[trigger] spans[i],
                b.lo as int,
                a.hi as int,
            ) by {
                assert(!breaks(spans[i], a.lo as int, a.hi as int));
                assert(!breaks(spans[i], b.lo as int, b.hi as int));
            }
            assert(unbroken(spans, b.lo as int, a.hi as int));
        } else {
            // s starts before b, so it ends at or before b.lo: [a.lo, b.lo] is
            // unbroken and smaller than a
            assert(s.hi <= b.lo);
            assert forall|i: int| 0 <= i < spans.len() implies !breaks(
                #[trigger] spans[i],
                a.lo as int,
                b.lo as int,
            ) by {
                assert(!breaks(spans[i], a.lo as int, a.hi as int));
                assert(!breaks(spans[i], b.lo as int, b.hi as int));
            }
            assert(unbroken(spans, a.lo as int, b.lo as int));
        }
    }
}

} // verus!
