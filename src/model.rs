//! How a graph is seen from its reference backbone: the position of each
//! vertex on the backbone, the anchor hull of each vertex off the backbone,
//! and the spans that adjacencies cover.
use vstd::prelude::*;

use crate::decompose::{spans_wf, Span};
use crate::edge::Edge;
use crate::path::{Orientation, Step};
use crate::graph::vertex_ids;
use crate::vertex::Vertex;

verus! {

/// An interval `(lo, hi)` of end coordinates, or `None` for none.
pub type Hull = Option<(usize, usize)>;

/// `k` is the first step of `w` that visits `id`.
pub open spec fn visits_first(w: Seq<Step>, id: u64, k: int) -> bool {
    &&& 0 <= k < w.len()
    &&& w[k].vertex_id == id
    &&& forall|j: int| 0 <= j < k ==> (#[trigger] w[j]).vertex_id != id
}

/// The backbone position of `id`: its first visit by `w`, if any.
pub open spec fn first_visit(w: Seq<Step>, id: u64) -> Option<usize> {
    if exists|k: int| visits_first(w, id, k) {
        Some((choose|k: int| visits_first(w, id, k)) as usize)
    } else {
        None
    }
}

/// The backbone position of every vertex, by vertex index; `ids` are the
/// vertex IDs in order.
pub open spec fn positions(ids: Seq<u64>, w: Seq<Step>) -> Seq<Option<usize>> {
    Seq::new(ids.len(), |v: int| first_visit(w, ids[v]))
}

/// The index of the vertex with ID `id`.
pub open spec fn index_of_id(ids: Seq<u64>, id: u64) -> int {
    choose|i: int| 0 <= i < ids.len() && #[trigger] ids[i] == id
}

/// The endpoint vertex indices of every edge.
pub open spec fn edge_endpoints(ids: Seq<u64>, es: Seq<Edge>) -> Seq<(usize, usize)> {
    Seq::new(
        es.len(),
        |e: int| (index_of_id(ids, es[e].from_id) as usize, index_of_id(ids, es[e].to_id) as usize),
    )
}

/// The smallest interval that holds both `a` and `b`.
pub open spec fn join(a: Hull, b: Hull) -> Hull {
    match (a, b) {
        (None, _) => b,
        (_, None) => a,
        (Some((l1, h1)), Some((l2, h2))) => Some(
            (if l1 <= l2 { l1 } else { l2 }, if h1 >= h2 { h1 } else { h2 }),
        ),
    }
}

/// The coordinate of end `e` of the vertex visited at backbone position `p`
/// in orientation `o`: the backbone enters the vertex through the end that
/// its orientation names (coordinate `2p`) and leaves it through the other
/// (coordinate `2p + 1`).
pub open spec fn end_coord(p: usize, o: Orientation, e: Orientation) -> usize {
    if e == o {
        (2 * p) as usize
    } else {
        (2 * p + 1) as usize
    }
}

/// The coordinate of end `e` of a vertex with backbone position `p`, if it
/// lies on the backbone `w`.
pub open spec fn coord_of(w: Seq<Step>, p: Option<usize>, e: Orientation) -> Option<usize> {
    match p {
        Some(q) => Some(end_coord(q, w[q as int].orientation, e)),
        None => None,
    }
}

/// One edge seen from the backbone: its endpoint vertex indices `a` and `b`,
/// and the coordinates of the ends it attaches to, for endpoints on the backbone.
pub type Link = (usize, usize, Option<usize>, Option<usize>);

/// The links of the edges `es`, whose endpoint indices are `ends`.
pub open spec fn edge_links(
    ends: Seq<(usize, usize)>,
    es: Seq<Edge>,
    pos: Seq<Option<usize>>,
    w: Seq<Step>,
) -> Seq<Link> {
    Seq::new(
        es.len(),
        |e: int|
            (
                ends[e].0,
                ends[e].1,
                coord_of(w, pos[ends[e].0 as int], es[e].from_orientation.flipped()),
                coord_of(w, pos[ends[e].1 as int], es[e].to_orientation),
            ),
    )
}

/// What an endpoint passes on: the coordinate of the end it attaches to when
/// it lies on the backbone, else its hull.
pub open spec fn passed(prev: Seq<Hull>, v: int, c: Option<usize>) -> Hull {
    match c {
        Some(x) => Some((x, x)),
        None => prev[v],
    }
}

/// One link passes what its endpoints had in the previous round (`prev`) on
/// to the endpoints that lie off the backbone.
pub open spec fn relax_link(prev: Seq<Hull>, cur: Seq<Hull>, l: Link) -> Seq<Hull> {
    let a = l.0 as int;
    let b = l.1 as int;
    let cur1 = if l.3 is None {
        cur.update(b, join(cur[b], passed(prev, a, l.2)))
    } else {
        cur
    };
    if l.2 is None {
        cur1.update(a, join(cur1[a], passed(prev, b, l.3)))
    } else {
        cur1
    }
}

/// One round: every link, in order, relaxes the hulls of `prev`.
pub open spec fn relax_all(links: Seq<Link>, prev: Seq<Hull>) -> Seq<Hull>
    decreases links.len(),
{
    if links.len() == 0 {
        prev
    } else {
        relax_link(prev, relax_all(links.drop_last(), prev), links.last())
    }
}

/// The hulls of `n` vertices after `k` rounds, starting from none. Each round
/// carries end coordinates one edge further through vertices off the
/// backbone, so as many rounds as there are vertices carry them along every
/// chain of such vertices.
pub open spec fn hulls_after(links: Seq<Link>, n: nat, k: nat) -> Seq<Hull>
    decreases k,
{
    if k == 0 {
        Seq::new(n, |v: int| None)
    } else {
        relax_all(links, hulls_after(links, n, (k - 1) as nat))
    }
}

/// The span of an edge between end coordinates `p` and `q`; it opens a
/// region when more than the step from one vertex to the next lies between.
pub open spec fn span_between(p: usize, q: usize) -> Span {
    let lo = if p <= q { p } else { q };
    let hi = if p <= q { q } else { p };
    Span { lo, hi, seed: hi - lo >= 2 }
}

/// A span between coordinates `p` and `q` that opens no region.
pub open spec fn link(p: usize, q: usize) -> Span {
    let lo = if p <= q { p } else { q };
    let hi = if p <= q { q } else { p };
    Span { lo, hi, seed: false }
}

/// The spans of one link. An edge between two backbone ends joins their
/// coordinates. An edge from a backbone end at `p` to a vertex off the
/// backbone with hull `(l, x)` joins `p` to both ends of the hull: the part of
/// the graph off the backbone that it enters touches `p`, `l` and `x`.
pub open spec fn spans_of_link(hulls: Seq<Hull>, l: Link) -> Seq<Span> {
    match (l.2, l.3) {
        (Some(p), Some(q)) => seq![span_between(p, q)],
        (Some(p), None) => match hulls[l.1 as int] {
            Some((lo, x)) => seq![link(lo, p), link(p, x)],
            None => Seq::empty(),
        },
        (None, Some(q)) => match hulls[l.0 as int] {
            Some((lo, x)) => seq![link(lo, q), link(q, x)],
            None => Seq::empty(),
        },
        (None, None) => Seq::empty(),
    }
}

/// The spans of the links, in edge order.
pub open spec fn edge_spans(links: Seq<Link>, hulls: Seq<Hull>) -> Seq<Span>
    decreases links.len(),
{
    if links.len() == 0 {
        Seq::empty()
    } else {
        edge_spans(links.drop_last(), hulls) + spans_of_link(hulls, links.last())
    }
}

/// The spans of the hulls of the first `n` vertices off the backbone; a hull
/// opens a region when its ends belong to different backbone vertices.
pub open spec fn hull_spans(pos: Seq<Option<usize>>, hulls: Seq<Hull>, n: nat) -> Seq<Span>
    decreases n,
{
    if n == 0 {
        Seq::empty()
    } else {
        let rest = hull_spans(pos, hulls, (n - 1) as nat);
        match (pos[n - 1], hulls[n - 1]) {
            (None, Some((lo, hi))) => rest.push(Span { lo, hi, seed: lo / 2 < hi / 2 }),
            _ => rest,
        }
    }
}

/// The links of a graph with vertex IDs `ids` and edges `es`, seen from backbone `w`.
pub open spec fn model_links(ids: Seq<u64>, es: Seq<Edge>, w: Seq<Step>) -> Seq<Link> {
    edge_links(edge_endpoints(ids, es), es, positions(ids, w), w)
}

/// Every hull of `h` is an interval.
pub open spec fn hulls_ordered(h: Seq<Hull>) -> bool {
    forall|v: int| 0 <= v < h.len() ==> (#[trigger] h[v] matches Some((l, x)) ==> l <= x)
}

/// `h` is the least hull assignment of `n` vertices closed under the links:
/// each vertex off the backbone has the smallest interval holding every end
/// coordinate that reaches it through vertices off the backbone.
pub open spec fn least_closed(links: Seq<Link>, n: nat, h: Seq<Hull>) -> bool {
    &&& h.len() == n
    &&& hulls_ordered(h)
    &&& closed_under(links, h)
    &&& forall|g: Seq<Hull>|
        g.len() == n && hulls_ordered(g) && #[trigger] closed_under(links, g) ==> all_within(h, g)
}

/// The hulls of every vertex, for a graph seen from backbone `w`: the least
/// hull assignment closed under its links.
pub open spec fn model_hulls(ids: Seq<u64>, es: Seq<Edge>, w: Seq<Step>) -> Seq<Hull> {
    choose|h: Seq<Hull>| least_closed(model_links(ids, es, w), ids.len(), h)
}

/// All spans of a graph seen from backbone `w`: edge spans, then hull spans.
pub open spec fn model_spans(ids: Seq<u64>, es: Seq<Edge>, w: Seq<Step>) -> Seq<Span> {
    edge_spans(model_links(ids, es, w), model_hulls(ids, es, w)) + hull_spans(
        positions(ids, w),
        model_hulls(ids, es, w),
        ids.len(),
    )
}

/// Hull `x` lies within hull `y`.
pub open spec fn within(x: Hull, y: Hull) -> bool {
    join(x, y) == y
}

/// The hulls `g` are closed under the links: each endpoint off the backbone
/// holds what the other endpoint of each of its links passes on.
pub open spec fn closed_under(links: Seq<Link>, g: Seq<Hull>) -> bool {
    forall|e: int|
        0 <= e < links.len() ==> {
            let l = #[trigger] links[e];
            &&& l.3 is None ==> within(passed(g, l.0 as int, l.2), g[l.1 as int])
            &&& l.2 is None ==> within(passed(g, l.1 as int, l.3), g[l.0 as int])
        }
}

/// Every hull of `h` lies within the hull of `g` at the same vertex.
pub open spec fn all_within(h: Seq<Hull>, g: Seq<Hull>) -> bool {
    h.len() == g.len() && forall|v: int| 0 <= v < h.len() ==> within(#[trigger] h[v], g[v])
}

proof fn lemma_within_join(x: Hull, y: Hull, z: Hull)
    requires
        within(x, z),
        within(y, z),
        z matches Some((l, h)) ==> l <= h,
    ensures
        within(join(x, y), z),
{
}

proof fn lemma_passed_within(h: Seq<Hull>, g: Seq<Hull>, v: int, c: Option<usize>)
    requires
        all_within(h, g),
        0 <= v < h.len(),
    ensures
        within(passed(h, v, c), passed(g, v, c)),
{
}

proof fn lemma_relax_all_least(links: Seq<Link>, prev: Seq<Hull>, g: Seq<Hull>)
    requires
        all_within(prev, g),
        closed_under(links, g),
        links_within(links, g.len(), usize::MAX as nat + 1),
        forall|v: int| 0 <= v < g.len() ==> (#[trigger] g[v] matches Some((l, x)) ==> l <= x),
    ensures
        all_within(relax_all(links, prev), g),
    decreases links.len(),
{
    if links.len() > 0 {
        let rest = links.drop_last();
        assert(closed_under(rest, g)) by {
            assert forall|e: int| 0 <= e < rest.len() implies #[trigger] rest[e] == links[e] by {}
        }
        assert(links_within(rest, g.len(), usize::MAX as nat + 1)) by {
            assert forall|e: int| 0 <= e < rest.len() implies #[trigger] rest[e] == links[e] by {}
        }
        lemma_relax_all_least(rest, prev, g);
        let l = links.last();
        assert(links[links.len() - 1] == l);
        let cur = relax_all(rest, prev);
        let a = l.0 as int;
        let b = l.1 as int;
        lemma_passed_within(prev, g, a, l.2);
        lemma_passed_within(prev, g, b, l.3);
        let cur1 = if l.3 is None {
            cur.update(b, join(cur[b], passed(prev, a, l.2)))
        } else {
            cur
        };
        if l.3 is None {
            assert(within(passed(g, a, l.2), g[b]));
            assert(within(passed(prev, a, l.2), g[b]));
            lemma_within_join(cur[b], passed(prev, a, l.2), g[b]);
        }
        assert(all_within(cur1, g));
        if l.2 is None {
            assert(within(passed(g, b, l.3), g[a]));
            assert(within(passed(prev, b, l.3), g[a]));
            lemma_within_join(cur1[a], passed(prev, b, l.3), g[a]);
        }
    }
}

/// The hulls after any number of rounds lie within any hulls closed under the
/// links: a vertex's hull never goes beyond the end coordinates that reach it
/// through vertices off the backbone.
pub proof fn lemma_hulls_least(links: Seq<Link>, n: nat, k: nat, g: Seq<Hull>)
    requires
        g.len() == n,
        closed_under(links, g),
        links_within(links, n, usize::MAX as nat + 1),
        forall|v: int| 0 <= v < g.len() ==> (#[trigger] g[v] matches Some((l, x)) ==> l <= x),
    ensures
        all_within(hulls_after(links, n, k), g),
    decreases k,
{
    if k > 0 {
        lemma_hulls_least(links, n, (k - 1) as nat, g);
        lemma_relax_all_least(links, hulls_after(links, n, (k - 1) as nat), g);
    }
}

proof fn lemma_within_trans(x: Hull, y: Hull, z: Hull)
    requires
        within(x, y),
        within(y, z),
    ensures
        within(x, z),
{
}

proof fn lemma_within_join_left(x: Hull, y: Hull)
    ensures
        within(x, join(x, y)),
        within(y, join(x, y)),
{
}

proof fn lemma_relax_link_grows(prev: Seq<Hull>, cur: Seq<Hull>, l: Link)
    requires
        l.0 < cur.len(),
        l.1 < cur.len(),
    ensures
        all_within(cur, relax_link(prev, cur, l)),
        l.3 is None ==> within(passed(prev, l.0 as int, l.2), relax_link(prev, cur, l)[l.1 as int]),
        l.2 is None ==> within(passed(prev, l.1 as int, l.3), relax_link(prev, cur, l)[l.0 as int]),
{
    let a = l.0 as int;
    let b = l.1 as int;
    let cur1 = if l.3 is None {
        cur.update(b, join(cur[b], passed(prev, a, l.2)))
    } else {
        cur
    };
    lemma_within_join_left(cur[b], passed(prev, a, l.2));
    lemma_within_join_left(cur1[a], passed(prev, b, l.3));
    let r = relax_link(prev, cur, l);
    assert forall|v: int| 0 <= v < cur.len() implies within(#[trigger] cur[v], r[v]) by {
        if v == a && l.2 is None {
            if v == b && l.3 is None {
                lemma_within_trans(cur[v], cur1[v], r[v]);
            }
        }
    }
    if l.3 is None && l.2 is None && a == b {
        lemma_within_trans(passed(prev, a, l.2), cur1[b], r[b]);
    }
}

proof fn lemma_relax_len(links: Seq<Link>, prev: Seq<Hull>)
    requires
        forall|e: int| 0 <= e < links.len() ==> (#[trigger] links[e]).0 < prev.len() && links[e].1 < prev.len(),
    ensures
        relax_all(links, prev).len() == prev.len(),
    decreases links.len(),
{
    if links.len() > 0 {
        let rest = links.drop_last();
        assert forall|e: int| 0 <= e < rest.len() implies (#[trigger] rest[e]).0 < prev.len() && rest[e].1 < prev.len() by {
            assert(rest[e] == links[e]);
        }
        lemma_relax_len(rest, prev);
        assert(links[links.len() - 1] == links.last());
    }
}

proof fn lemma_all_within_trans(x: Seq<Hull>, y: Seq<Hull>, z: Seq<Hull>)
    requires
        all_within(x, y),
        all_within(y, z),
    ensures
        all_within(x, z),
{
    assert forall|v: int| 0 <= v < x.len() implies within(#[trigger] x[v], z[v]) by {
        lemma_within_trans(x[v], y[v], z[v]);
    }
}

proof fn lemma_relax_prefix_grows(links: Seq<Link>, prev: Seq<Hull>, j: int, m: int)
    requires
        0 <= j <= m <= links.len(),
        links_within(links, prev.len(), usize::MAX as nat + 1),
    ensures
        all_within(relax_all(links.take(j), prev), relax_all(links.take(m), prev)),
        relax_all(links.take(m), prev).len() == prev.len(),
    decreases m - j,
{
    if j < m {
        lemma_relax_prefix_grows(links, prev, j, m - 1);
        assert(links.take(m).drop_last() == links.take(m - 1));
        assert(links.take(m).last() == links[m - 1]);
        let l = links[m - 1];
        lemma_relax_link_grows(prev, relax_all(links.take(m - 1), prev), l);
        lemma_all_within_trans(
            relax_all(links.take(j), prev),
            relax_all(links.take(m - 1), prev),
            relax_all(links.take(m), prev),
        );
    } else {
        assert forall|e: int| 0 <= e < links.take(m).len() implies (#[trigger] links.take(m)[e]).0 < prev.len() && links.take(m)[e].1 < prev.len() by {
            assert(links.take(m)[e] == links[e]);
        }
        lemma_relax_len(links.take(m), prev);
        assert forall|v: int| 0 <= v < relax_all(links.take(j), prev).len() implies within(
            #[trigger] relax_all(links.take(j), prev)[v],
            relax_all(links.take(m), prev)[v],
        ) by {}
    }
}

/// A round that changes nothing leaves hulls closed under the links.
proof fn lemma_fixpoint_closed(links: Seq<Link>, h: Seq<Hull>)
    requires
        relax_all(links, h) == h,
        links_within(links, h.len(), usize::MAX as nat + 1),
    ensures
        closed_under(links, h),
{
    assert forall|e: int| 0 <= e < links.len() implies {
        let l = #[trigger] links[e];
        &&& l.3 is None ==> within(passed(h, l.0 as int, l.2), h[l.1 as int])
        &&& l.2 is None ==> within(passed(h, l.1 as int, l.3), h[l.0 as int])
    } by {
        let l = links[e];
        lemma_relax_prefix_grows(links, h, e, e);
        assert(links.take(e + 1).drop_last() == links.take(e));
        assert(links.take(e + 1).last() == l);
        lemma_relax_link_grows(h, relax_all(links.take(e), h), l);
        lemma_relax_prefix_grows(links, h, e + 1, links.len() as int);
        assert(links.take(links.len() as int) == links);
        let mid = relax_all(links.take(e + 1), h);
        if l.3 is None {
            lemma_within_trans(passed(h, l.0 as int, l.2), mid[l.1 as int], h[l.1 as int]);
        }
        if l.2 is None {
            lemma_within_trans(passed(h, l.1 as int, l.3), mid[l.0 as int], h[l.0 as int]);
        }
    }
}

/// The size of a hull: none, or the number of coordinates it spans.
pub open spec fn hull_size(x: Hull) -> nat {
    match x {
        None => 0,
        Some((l, h)) => if l <= h {
            (h - l + 1) as nat
        } else {
            1
        },
    }
}

/// The total size of hulls.
pub open spec fn total_size(h: Seq<Hull>) -> nat
    decreases h.len(),
{
    if h.len() == 0 {
        0
    } else {
        total_size(h.drop_last()) + hull_size(h.last())
    }
}

proof fn lemma_total_grows(h: Seq<Hull>, c: Seq<Hull>)
    requires
        all_within(h, c),
        hulls_ordered(h),
        hulls_ordered(c),
    ensures
        total_size(h) <= total_size(c),
        h != c ==> total_size(h) < total_size(c),
    decreases h.len(),
{
    if h.len() > 0 {
        let n = h.len() - 1;
        assert(within(h[n], c[n]));
        assert(h[n] matches Some((l, x)) ==> l <= x);
        assert(c[n] matches Some((l, x)) ==> l <= x);
        lemma_total_grows(h.drop_last(), c.drop_last());
        if h != c {
            if h.drop_last() == c.drop_last() {
                assert(h[n] != c[n]) by {
                    assert(h =~= c.drop_last().push(h[n]));
                    assert(c =~= c.drop_last().push(c[n]));
                }
            }
        }
    } else {
        assert(h =~= c);
    }
}

proof fn lemma_total_bound(h: Seq<Hull>, bound: nat)
    requires
        hulls_within(h, bound),
    ensures
        total_size(h) <= h.len() * bound,
    decreases h.len(),
{
    if h.len() > 0 {
        let n = h.len() - 1;
        assert(h[n] matches Some((l, x)) ==> l <= x && x < bound);
        lemma_total_bound(h.drop_last(), bound);
        assert(hull_size(h[n]) <= bound);
        assert((h.len() - 1) * bound + bound == h.len() * bound) by (nonlinear_arith);
    }
}

/// The least closed hull assignment is unique.
pub(crate) proof fn lemma_least_unique(links: Seq<Link>, n: nat, h: Seq<Hull>)
    requires
        least_closed(links, n, h),
    ensures
        (choose|x: Seq<Hull>| least_closed(links, n, x)) == h,
{
    let x = choose|x: Seq<Hull>| least_closed(links, n, x);
    assert(closed_under(links, h));
    assert(closed_under(links, x));
    assert(all_within(x, h));
    assert(all_within(h, x));
    assert forall|v: int| 0 <= v < n implies #[trigger] x[v] == h[v] by {
        assert(within(x[v], h[v]) && within(h[v], x[v]));
    }
    assert(x =~= h);
}

/// Every hull is an interval of coordinates below `bound`.
pub open spec fn hulls_within(h: Seq<Hull>, bound: nat) -> bool {
    forall|v: int| 0 <= v < h.len() ==> (#[trigger] h[v] matches Some((l, x)) ==> l <= x && x < bound)
}

/// Every backbone position is below `bound`.
pub open spec fn positions_within(pos: Seq<Option<usize>>, bound: nat) -> bool {
    forall|v: int| 0 <= v < pos.len() ==> (#[trigger] pos[v] matches Some(p) ==> p < bound)
}

/// Every span ends below `bound`.
pub open spec fn spans_within(spans: Seq<Span>, bound: nat) -> bool {
    forall|i: int| 0 <= i < spans.len() ==> (#[trigger] spans[i]).hi < bound
}

/// Every edge endpoint is a vertex index.
pub open spec fn ends_in_range(ends: Seq<(usize, usize)>, n: nat) -> bool {
    forall|e: int| 0 <= e < ends.len() ==> (#[trigger] ends[e]).0 < n && ends[e].1 < n
}

/// Every link joins vertex indices below `n`, at coordinates below `bound`.
pub open spec fn links_within(links: Seq<Link>, n: nat, bound: nat) -> bool {
    forall|e: int|
        0 <= e < links.len() ==> {
            let l = #[trigger] links[e];
            &&& l.0 < n
            &&& l.1 < n
            &&& l.2 matches Some(c) ==> c < bound
            &&& l.3 matches Some(c) ==> c < bound
        }
}

proof fn lemma_relax_all_within(links: Seq<Link>, prev: Seq<Hull>, bound: nat)
    requires
        hulls_within(prev, bound),
        links_within(links, prev.len(), bound),
    ensures
        hulls_within(relax_all(links, prev), bound),
        relax_all(links, prev).len() == prev.len(),
    decreases links.len(),
{
    if links.len() > 0 {
        let rest = links.drop_last();
        assert(links_within(rest, prev.len(), bound)) by {
            assert forall|e: int| 0 <= e < rest.len() implies #[trigger] rest[e] == links[e] by {}
        }
        lemma_relax_all_within(rest, prev, bound);
        let l = links.last();
        assert(links[links.len() - 1] == l);
        let cur = relax_all(rest, prev);
        let a = l.0 as int;
        let b = l.1 as int;
        let va = passed(prev, a, l.2);
        let vb = passed(prev, b, l.3);
        assert(va matches Some((x, y)) ==> x <= y && y < bound);
        assert(vb matches Some((x, y)) ==> x <= y && y < bound);
        let cur1 = if l.3 is None {
            cur.update(b, join(cur[b], va))
        } else {
            cur
        };
        assert(hulls_within(cur1, bound)) by {
            assert(cur[b] matches Some((x, y)) ==> x <= y && y < bound);
        }
        assert(cur1[a] matches Some((x, y)) ==> x <= y && y < bound);
    }
}


/// The first visit of `id` by `w`.
pub fn find_first_visit(w: &Vec<Step>, id: u64) -> (r: Option<usize>)
    ensures
        r == first_visit(w@, id),
{
    let mut k: usize = 0;
    while k < w.len()
        invariant
            k <= w@.len(),
            forall|j: int| 0 <= j < k ==> (#[trigger] w@[j]).vertex_id != id,
        decreases w@.len() - k,
    {
        if w[k].vertex_id == id {
            proof {
                assert(visits_first(w@, id, k as int));
                let c = choose|c: int| visits_first(w@, id, c);
                assert(c == k) by {
                    if c < k {
                        assert(w@[c].vertex_id != id);
                    } else if c > k {
                        assert(w@[k as int].vertex_id != id);
                    }
                }
            }
            return Some(k);
        }
        k = k + 1;
    }
    None
}

/// The backbone position of every vertex.
pub fn compute_positions(vs: &Vec<Vertex>, w: &Vec<Step>) -> (pos: Vec<Option<usize>>)
    ensures
        pos@ == positions(vertex_ids(vs@), w@),
        positions_within(pos@, w@.len()),
{
    let mut pos: Vec<Option<usize>> = Vec::with_capacity(vs.len());
    let mut v: usize = 0;
    while v < vs.len()
        invariant
            v <= vs@.len(),
            pos@.len() == v,
            forall|u: int| 0 <= u < v ==> #[trigger] pos@[u] == first_visit(w@, vs@[u].id),
        decreases vs@.len() - v,
    {
        pos.push(find_first_visit(w, vs[v].id));
        v = v + 1;
    }
    assert(pos@ =~= positions(vertex_ids(vs@), w@));
    assert forall|u: int| 0 <= u < pos@.len() implies (#[trigger] pos@[u] matches Some(p) ==> p < w@.len()) by {
        if exists|k: int| visits_first(w@, vs@[u].id, k) {
            let k = choose|k: int| visits_first(w@, vs@[u].id, k);
        }
    }
    pos
}

fn join_hulls(a: Hull, b: Hull) -> (r: Hull)
    ensures
        r == join(a, b),
{
    match (a, b) {
        (None, _) => b,
        (_, None) => a,
        (Some((l1, h1)), Some((l2, h2))) => Some(
            (if l1 <= l2 { l1 } else { l2 }, if h1 >= h2 { h1 } else { h2 }),
        ),
    }
}

fn copy_hulls(h: &Vec<Hull>) -> (r: Vec<Hull>)
    ensures
        r@ == h@,
{
    let mut r: Vec<Hull> = Vec::with_capacity(h.len());
    let mut i: usize = 0;
    while i < h.len()
        invariant
            i <= h@.len(),
            r@ == h@.take(i as int),
        decreases h@.len() - i,
    {
        r.push(h[i]);
        i = i + 1;
        assert(r@ == h@.take(i as int));
    }
    assert(r@ == h@);
    r
}

fn same_hulls(a: &Vec<Hull>, b: &Vec<Hull>) -> (r: bool)
    ensures
        r == (a@ == b@),
{
    if a.len() != b.len() {
        return false;
    }
    let mut i: usize = 0;
    while i < a.len()
        invariant
            i <= a@.len() == b@.len(),
            forall|j: int| 0 <= j < i ==> a@[j] == b@[j],
        decreases a@.len() - i,
    {
        let same = match (a[i], b[i]) {
            (None, None) => true,
            (Some((x, y)), Some((u, v))) => x == u && y == v,
            _ => false,
        };
        if !same {
            return false;
        }
        i = i + 1;
    }
    assert(a@ =~= b@);
    true
}

/// The coordinate of end `e` of the vertex at backbone position `p`.
fn coord_at(w: &Vec<Step>, p: Option<usize>, e: Orientation) -> (r: Option<usize>)
    requires
        p matches Some(q) ==> q < w@.len() && 2 * q + 1 <= usize::MAX,
    ensures
        r == coord_of(w@, p, e),
        r matches Some(c) ==> p matches Some(q) && c <= 2 * q + 1,
{
    match p {
        Some(q) => {
            if w[q].orientation == e {
                Some(2 * q)
            } else {
                Some(2 * q + 1)
            }
        },
        None => None,
    }
}

/// The links of the edges `es`, whose endpoint indices are `ends`.
pub(crate) fn compute_links(
    ends: &Vec<(usize, usize)>,
    es: &Vec<Edge>,
    pos: &Vec<Option<usize>>,
    w: &Vec<Step>,
) -> (links: Vec<Link>)
    requires
        ends@.len() == es@.len(),
        ends_in_range(ends@, pos@.len()),
        positions_within(pos@, w@.len()),
        2 * w@.len() <= usize::MAX,
    ensures
        links@ == edge_links(ends@, es@, pos@, w@),
        links_within(links@, pos@.len(), 2 * w@.len()),
{
    let mut links: Vec<Link> = Vec::with_capacity(es.len());
    let mut e: usize = 0;
    while e < es.len()
        invariant
            e <= es@.len() == ends@.len(),
            ends_in_range(ends@, pos@.len()),
            positions_within(pos@, w@.len()),
            2 * w@.len() <= usize::MAX,
            links@ == edge_links(ends@, es@, pos@, w@).take(e as int),
            links_within(links@, pos@.len(), 2 * w@.len()),
        decreases es@.len() - e,
    {
        let (a, b) = ends[e];
        assert(ends@[e as int].0 < pos@.len() && ends@[e as int].1 < pos@.len());
        assert(pos@[a as int] matches Some(q) ==> q < w@.len());
        assert(pos@[b as int] matches Some(q) ==> q < w@.len());
        let ca = coord_at(w, pos[a], es[e].from_orientation.flip());
        let cb = coord_at(w, pos[b], es[e].to_orientation);
        links.push((a, b, ca, cb));
        e = e + 1;
        assert(links@ =~= edge_links(ends@, es@, pos@, w@).take(e as int));
    }
    assert(edge_links(ends@, es@, pos@, w@).take(e as int) =~= edge_links(ends@, es@, pos@, w@));
    links
}

fn passed_at(prev: &Vec<Hull>, v: usize, c: Option<usize>) -> (r: Hull)
    requires
        v < prev@.len(),
    ensures
        r == passed(prev@, v as int, c),
{
    match c {
        Some(x) => Some((x, x)),
        None => prev[v],
    }
}

/// The least hull assignment of `n` vertices closed under the links, found
/// by rounds of relaxation until a round changes nothing.
pub(crate) fn compute_hulls(links: &Vec<Link>, n: usize, Ghost(bound): Ghost<nat>) -> (h: Vec<Hull>)
    requires
        links_within(links@, n as nat, bound),
        bound <= usize::MAX as nat + 1,
    ensures
        least_closed(links@, n as nat, h@),
        hulls_within(h@, bound),
{
    let mut h: Vec<Hull> = Vec::with_capacity(n);
    let mut v: usize = 0;
    while v < n
        invariant
            v <= n,
            h@ == Seq::new(n as nat, |v: int| None::<(usize, usize)>).take(v as int),
        decreases n - v,
    {
        h.push(None);
        v = v + 1;
        assert(h@ =~= Seq::new(n as nat, |v: int| None::<(usize, usize)>).take(v as int));
    }
    assert(h@ =~= hulls_after(links@, n as nat, 0));
    assert(links_within(links@, n as nat, usize::MAX as nat + 1));
    let ghost mut k: nat = 0;
    proof {
        lemma_total_bound(h@, bound);
    }
    loop
        invariant
            h@.len() == n,
            h@ == hulls_after(links@, n as nat, k),
            links_within(links@, n as nat, bound),
            links_within(links@, n as nat, usize::MAX as nat + 1),
            hulls_within(h@, bound),
            total_size(h@) <= n * bound,
        decreases n * bound - total_size(h@),
    {
        let mut cur = copy_hulls(&h);
        let mut e: usize = 0;
        while e < links.len()
            invariant
                h@.len() == n,
                e <= links@.len(),
                cur@ == relax_all(links@.take(e as int), h@),
                cur@.len() == n,
                links_within(links@, n as nat, bound),
            decreases links@.len() - e,
        {
            let l = links[e];
            let (a, b, ca, cb) = l;
            proof {
                assert(links@[e as int].0 < n && links@[e as int].1 < n);
                assert(links@.take(e + 1).drop_last() == links@.take(e as int));
                assert(links@.take(e + 1).last() == links@[e as int]);
            }
            if cb.is_none() {
                let x = join_hulls(cur[b], passed_at(&h, a, ca));
                cur.set(b, x);
            }
            if ca.is_none() {
                let x = join_hulls(cur[a], passed_at(&h, b, cb));
                cur.set(a, x);
            }
            e = e + 1;
        }
        assert(links@.take(links@.len() as int) == links@);
        proof {
            lemma_relax_all_within(links@, h@, bound);
            lemma_relax_prefix_grows(links@, h@, 0, links@.len() as int);
            assert(links@.take(0).len() == 0);
            assert(relax_all(links@.take(0), h@) == h@);
        }
        if same_hulls(&cur, &h) {
            proof {
                lemma_fixpoint_closed(links@, h@);
                assert forall|g: Seq<Hull>|
                    g.len() == n && hulls_ordered(g) && #[trigger] closed_under(links@, g)
                        implies all_within(h@, g) by {
                    lemma_hulls_least(links@, n as nat, k, g);
                }
            }
            return h;
        }
        proof {
            lemma_total_grows(h@, cur@);
            lemma_total_bound(cur@, bound);
            k = k + 1;
        }
        h = cur;
    }
}

fn push_link(spans: &mut Vec<Span>, p: usize, q: usize)
    ensures
        final(spans)@ == old(spans)@.push(link(p, q)),
{
    let lo = if p <= q { p } else { q };
    let hi = if p <= q { q } else { p };
    spans.push(Span { lo, hi, seed: false });
}

/// The spans of the links, in edge order, then those of the hulls of the
/// vertices off the backbone.
pub(crate) fn compute_spans(
    links: &Vec<Link>,
    pos: &Vec<Option<usize>>,
    hulls: &Vec<Hull>,
    Ghost(bound): Ghost<nat>,
) -> (spans: Vec<Span>)
    requires
        links_within(links@, pos@.len(), bound),
        hulls@.len() == pos@.len(),
        hulls_within(hulls@, bound),
    ensures
        spans@ == edge_spans(links@, hulls@) + hull_spans(pos@, hulls@, pos@.len()),
        spans_wf(spans@),
        spans_within(spans@, bound),
{
    let mut spans: Vec<Span> = Vec::new();
    let mut e: usize = 0;
    while e < links.len()
        invariant
            e <= links@.len(),
            links_within(links@, pos@.len(), bound),
            hulls@.len() == pos@.len(),
            hulls_within(hulls@, bound),
            spans@ == edge_spans(links@.take(e as int), hulls@),
            spans_wf(spans@),
            spans_within(spans@, bound),
        decreases links@.len() - e,
    {
        let (a, b, ca, cb) = links[e];
        let ghost l = links@[e as int];
        proof {
            assert(links@.take(e + 1).drop_last() == links@.take(e as int));
            assert(links@.take(e + 1).last() == l);
            assert(hulls@[a as int] matches Some((x, y)) ==> x <= y && y < bound);
            assert(hulls@[b as int] matches Some((x, y)) ==> x <= y && y < bound);
        }
        let ghost before = spans@;
        match (ca, cb) {
            (Some(p), Some(q)) => {
                let lo = if p <= q { p } else { q };
                let hi = if p <= q { q } else { p };
                spans.push(Span { lo, hi, seed: hi - lo >= 2 });
            },
            (Some(p), None) => {
                if let Some((x, y)) = hulls[b] {
                    push_link(&mut spans, x, p);
                    push_link(&mut spans, p, y);
                }
            },
            (None, Some(q)) => {
                if let Some((x, y)) = hulls[a] {
                    push_link(&mut spans, x, q);
                    push_link(&mut spans, q, y);
                }
            },
            (None, None) => {},
        }
        assert(spans@ =~= before + spans_of_link(hulls@, l));
        e = e + 1;
    }
    assert(links@.take(links@.len() as int) == links@);
    let ghost head = spans@;
    let mut v: usize = 0;
    while v < pos.len()
        invariant
            v <= pos@.len(),
            hulls@.len() == pos@.len(),
            hulls_within(hulls@, bound),
            head == edge_spans(links@, hulls@),
            spans@ == head + hull_spans(pos@, hulls@, v as nat),
            spans_wf(spans@),
            spans_within(spans@, bound),
        decreases pos@.len() - v,
    {
        match (pos[v], hulls[v]) {
            (None, Some((lo, hi))) => {
                assert(hulls@[v as int] matches Some((l, x)) ==> l <= x && x < bound);
                spans.push(Span { lo, hi, seed: lo / 2 < hi / 2 });
            },
            _ => {},
        }
        proof {
            assert(hull_spans(pos@, hulls@, (v + 1) as nat) == match (pos@[v as int], hulls@[v as int]) {
                (None, Some((lo, hi))) => hull_spans(pos@, hulls@, v as nat).push(Span { lo, hi, seed: lo / 2 < hi / 2 }),
                _ => hull_spans(pos@, hulls@, v as nat),
            });
            assert(spans@ =~= head + hull_spans(pos@, hulls@, (v + 1) as nat));
        }
        v = v + 1;
    }
    spans
}

} // verus!
