//! Variation analysis of a finalized graph: its regions (flubbles) along a
//! reference backbone, and the tree (PVST) of how they nest.
use vstd::prelude::*;

use crate::decompose::{
    contains, find_regions, is_closure, is_region, laminar, lemma_closure_below, nesting_parents,
    parent_of, sorted_regions, Interval,
};
use crate::edge::Edge;
use crate::error::{Error, Result};
use crate::graph::{has_id, ids_unique, path_steps, selection_view, vertex_ids, PovuGraph};
use crate::model::{
    compute_hulls, compute_links, compute_positions, compute_spans, index_of_id, model_hulls,
    model_spans, positions, spans_within, Hull,
};
use crate::path::{Path, Step};
use crate::vertex::Vertex;

verus! {

/// A region of variation: an induced subgraph entered and left through two
/// backbone steps.
#[derive(Debug, Clone)]
pub struct VariationRegion {
    /// The backbone step at which the region is entered.
    pub start: Step,
    /// The backbone step at which the region is left.
    pub end: Step,
    /// The backbone position of `start`.
    pub start_position: usize,
    /// The backbone position of `end`.
    pub end_position: usize,
    /// The coordinate of the boundary end through which the region is
    /// entered: `2p` names the end through which the backbone enters the
    /// vertex at position `p`, `2p + 1` the end through which it leaves it.
    pub start_coordinate: usize,
    /// The coordinate of the boundary end through which the region is left.
    pub end_coordinate: usize,
    /// The IDs of the vertices strictly inside the region, in vertex order.
    pub interior: Vec<u64>,
}

impl VariationRegion {
    /// The region's bounds, as end coordinates.
    pub open spec fn bounds(&self) -> Interval {
        Interval { lo: self.start_coordinate, hi: self.end_coordinate }
    }
}

/// A vertex with backbone position `p` and hull `h` lies strictly inside `r`
/// (end coordinates): a backbone vertex with both ends between its
/// boundaries, or a vertex off the backbone whose hull lies in `r` and is not
/// one of its boundary ends alone.
pub open spec fn in_interior(p: Option<usize>, h: Hull, r: Interval) -> bool {
    match p {
        Some(q) => r.lo < 2 * q && 2 * q + 1 < r.hi,
        None => match h {
            Some((a, b)) => r.lo <= a && b <= r.hi && a < r.hi && b > r.lo,
            None => false,
        },
    }
}

/// The IDs of the first `n` vertices that lie strictly inside `r`, in order.
pub open spec fn interior_ids(
    ids: Seq<u64>,
    pos: Seq<Option<usize>>,
    hulls: Seq<Hull>,
    r: Interval,
    n: nat,
) -> Seq<u64>
    decreases n,
{
    if n == 0 {
        Seq::empty()
    } else {
        let rest = interior_ids(ids, pos, hulls, r, (n - 1) as nat);
        if in_interior(pos[n - 1], hulls[n - 1], r) {
            rest.push(ids[n - 1])
        } else {
            rest
        }
    }
}

/// A backbone too long for its end coordinates to fit in a `usize`.
pub open spec fn backbone_too_long(w: Seq<Step>) -> bool {
    w.len() >= usize::MAX / 2
}

/// The paths that may serve as backbone, in order: the selected references,
/// or every path when no selection was made.
pub open spec fn reference_candidates(refs: Option<Seq<usize>>, n: nat) -> Seq<usize> {
    match refs {
        Some(sel) => sel,
        None => Seq::new(n, |i: int| i as usize),
    }
}

/// Candidate `q` is the first candidate path with at least one step; `ps`
/// are the step lists of the paths.
pub open spec fn is_backbone_at(ps: Seq<Seq<Step>>, cands: Seq<usize>, q: int) -> bool {
    &&& 0 <= q < cands.len()
    &&& cands[q] < ps.len()
    &&& ps[cands[q] as int].len() > 0
    &&& forall|j: int| 0 <= j < q ==> ps[(#[trigger] cands[j]) as int].len() == 0
}

/// The backbone of a graph whose paths have the step lists `ps`: the first
/// candidate path with a step, if any.
pub open spec fn backbone_of(ps: Seq<Seq<Step>>, refs: Option<Seq<usize>>) -> Option<usize> {
    let cands = reference_candidates(refs, ps.len());
    if exists|q: int| is_backbone_at(ps, cands, q) {
        Some(cands[choose|q: int| is_backbone_at(ps, cands, q)])
    } else {
        None
    }
}

/// The hierarchy of variation regions (PVST): each region is a node, whose
/// parent is the innermost other region that holds it.
#[derive(Debug, Clone)]
pub struct PvstTree {
    regions: Vec<VariationRegion>,
    parents: Vec<Option<usize>>,
}

/// The number of ancestors of node `i`.
pub open spec fn depth_of(parents: Seq<Option<usize>>, i: int) -> nat
    decreases i,
{
    if 0 <= i < parents.len() {
        match parents[i] {
            Some(j) => if 0 <= j < i {
                1 + depth_of(parents, j as int)
            } else {
                0
            },
            None => 0,
        }
    } else {
        0
    }
}

impl PvstTree {
    /// The regions, one per node.
    pub closed spec fn spec_regions(&self) -> Seq<VariationRegion> {
        self.regions@
    }

    /// The parent of each node.
    pub closed spec fn spec_parents(&self) -> Seq<Option<usize>> {
        self.parents@
    }

    /// The bounds of each node's region.
    pub open spec fn spec_bounds(&self) -> Seq<Interval> {
        self.spec_regions().map_values(|r: VariationRegion| r.bounds())
    }

    /// The tree's invariant: one parent per node, each the nearest earlier
    /// node whose region holds it.
    pub closed spec fn wf(&self) -> bool {
        &&& self.parents@.len() == self.regions@.len()
        &&& forall|i: int|
            0 <= i < self.parents@.len() ==> parent_of(self.spec_bounds(), i, #[trigger] self.parents@[i])
    }

    /// The number of nodes, one per region.
    pub fn vertex_count(&self) -> (r: usize)
        ensures
            r == self.spec_regions().len(),
    {
        self.regions.len()
    }

    /// The region of a node.
    pub fn region_of(&self, node: usize) -> (r: &VariationRegion)
        requires
            node < self.spec_regions().len(),
        ensures
            *r == self.spec_regions()[node as int],
    {
        &self.regions[node]
    }

    /// The parent of a node; `None` for a top-level region.
    pub fn parent(&self, node: usize) -> (r: Option<usize>)
        requires
            self.wf(),
            node < self.spec_regions().len(),
        ensures
            r == self.spec_parents()[node as int],
    {
        self.parents[node]
    }

    /// The nodes whose parent is `parent` (`None`: the top-level regions), in order.
    pub fn children_of(&self, parent: Option<usize>) -> (r: Vec<usize>)
        requires
            self.wf(),
        ensures
            forall|j: int| 0 <= j < r@.len() ==> (#[trigger] r@[j]) < self.spec_regions().len(),
            forall|j: int, k: int| 0 <= j < k < r@.len() ==> #[trigger] r@[j] < #[trigger] r@[k],
            forall|i: int|
                0 <= i < self.spec_regions().len() ==> (self.spec_parents()[i] == parent
                    <==> #[trigger] r@.contains(i as usize)),
    {
        let mut r: Vec<usize> = Vec::new();
        let mut i: usize = 0;
        while i < self.parents.len()
            invariant
                i <= self.parents@.len(),
                self.parents@.len() == self.regions@.len(),
                forall|j: int| 0 <= j < r@.len() ==> (#[trigger] r@[j]) < i,
                forall|j: int, k: int| 0 <= j < k < r@.len() ==> #[trigger] r@[j] < #[trigger] r@[k],
                forall|x: int|
                    0 <= x < self.regions@.len() ==> (#[trigger] r@.contains(x as usize) <==> (x < i
                        && self.parents@[x] == parent)),
            decreases self.parents@.len() - i,
        {
            let ghost old_r = r@;
            if self.parents[i] == parent {
                r.push(i);
            }
            proof {
                assert forall|x: int| 0 <= x < self.regions@.len() implies (#[trigger] r@.contains(
                    x as usize,
                ) <==> (x < i + 1 && self.parents@[x] == parent)) by {
                    if r@.contains(x as usize) {
                        let j = choose|j: int| 0 <= j < r@.len() && r@[j] == x as usize;
                        if j < old_r.len() {
                            assert(old_r[j] == x as usize);
                            assert(old_r.contains(x as usize));
                        }
                    }
                    if x < i && self.parents@[x] == parent {
                        assert(old_r.contains(x as usize));
                        let j = choose|j: int| 0 <= j < old_r.len() && old_r[j] == x as usize;
                        assert(r@[j] == x as usize);
                    }
                    if x == i && self.parents@[x] == parent {
                        assert(r@[r@.len() - 1] == i);
                    }
                }
            }
            i = i + 1;
        }
        r
    }

    /// The children of a node, in order.
    pub fn children(&self, node: usize) -> (r: Vec<usize>)
        requires
            self.wf(),
            node < self.spec_regions().len(),
        ensures
            forall|j: int| 0 <= j < r@.len() ==> (#[trigger] r@[j]) < self.spec_regions().len(),
            forall|j: int, k: int| 0 <= j < k < r@.len() ==> #[trigger] r@[j] < #[trigger] r@[k],
            forall|i: int|
                0 <= i < self.spec_regions().len() ==> (self.spec_parents()[i] == Some(node)
                    <==> #[trigger] r@.contains(i as usize)),
    {
        self.children_of(Some(node))
    }

    /// The top-level regions: the children of the tree's synthetic root.
    pub fn roots(&self) -> (r: Vec<usize>)
        requires
            self.wf(),
        ensures
            forall|j: int| 0 <= j < r@.len() ==> (#[trigger] r@[j]) < self.spec_regions().len(),
            forall|j: int, k: int| 0 <= j < k < r@.len() ==> #[trigger] r@[j] < #[trigger] r@[k],
            forall|i: int|
                0 <= i < self.spec_regions().len() ==> (self.spec_parents()[i] is None
                    <==> #[trigger] r@.contains(i as usize)),
    {
        self.children_of(None)
    }

    /// The depth of a node: 0 for a top-level region.
    pub fn depth(&self, node: usize) -> (r: usize)
        requires
            self.wf(),
            node < self.spec_regions().len(),
        ensures
            r == depth_of(self.spec_parents(), node as int),
    {
        let mut d: usize = 0;
        let mut cur: usize = node;
        loop
            invariant
                self.wf(),
                cur <= node < self.parents@.len(),
                d <= node - cur,
                d + depth_of(self.parents@, cur as int) == depth_of(self.parents@, node as int),
            decreases cur,
        {
            match self.parents[cur] {
                Some(j) => {
                    assert(parent_of(self.spec_bounds(), cur as int, self.parents@[cur as int]));
                    d = d + 1;
                    cur = j;
                },
                None => {
                    return d;
                },
            }
        }
    }
}

/// The result of analysing a graph: the variation regions along the backbone
/// and their hierarchy.
#[derive(Debug, Clone)]
pub struct GraphAnalysis {
    tree: PvstTree,
    backbone: usize,
}

impl GraphAnalysis {
    /// The hierarchy of the regions.
    pub closed spec fn spec_tree(&self) -> PvstTree {
        self.tree
    }

    /// The index of the path used as backbone.
    pub closed spec fn spec_backbone(&self) -> usize {
        self.backbone
    }

    /// The analysis's invariant: its tree is well formed.
    pub open spec fn wf(&self) -> bool {
        self.spec_tree().wf()
    }

    /// The number of variation regions found.
    pub fn flubble_count(&self) -> (r: usize)
        ensures
            r == self.spec_tree().spec_regions().len(),
    {
        self.tree.vertex_count()
    }

    /// The hierarchy (PVST) of the regions.
    pub fn pvst_tree(&self) -> (r: &PvstTree)
        ensures
            *r == self.spec_tree(),
    {
        &self.tree
    }

    /// The index of the path that served as backbone.
    pub fn backbone_path(&self) -> (r: usize)
        ensures
            r == self.spec_backbone(),
    {
        self.backbone
    }
}

/// The backbone among the candidate paths.
fn find_backbone(ps: &Vec<Path>, refs: &Option<Vec<usize>>) -> (r: Option<usize>)
    requires
        selection_view(*refs) matches Some(sel) ==> forall|j: int| 0 <= j < sel.len() ==> (#[trigger] sel[j]) < ps@.len(),
    ensures
        r == backbone_of(path_steps(ps@), selection_view(*refs)),
{
    let ghost rs = selection_view(*refs);
    let ghost cands = reference_candidates(rs, ps@.len());
    let n = match refs {
        Some(sel) => sel.len(),
        None => ps.len(),
    };
    let mut q: usize = 0;
    while q < n
        invariant
            n == cands.len(),
            cands == reference_candidates(rs, ps@.len()),
            rs == selection_view(*refs),
            forall|j: int| 0 <= j < cands.len() ==> (#[trigger] cands[j]) < ps@.len(),
            q <= n,
            forall|j: int| 0 <= j < q ==> path_steps(ps@)[(#[trigger] cands[j]) as int].len() == 0,
        decreases n - q,
    {
        let c = match refs {
            Some(sel) => sel[q],
            None => q,
        };
        assert(c == cands[q as int]);
        assert(path_steps(ps@)[c as int] == ps@[c as int].steps@);
        if ps[c].steps.len() > 0 {
            proof {
                assert(is_backbone_at(path_steps(ps@), cands, q as int));
                let k = choose|k: int| is_backbone_at(path_steps(ps@), cands, k);
                assert(k == q) by {
                    if k < q {
                        assert(path_steps(ps@)[cands[k] as int].len() == 0);
                    } else if k > q {
                        assert(path_steps(ps@)[cands[q as int] as int].len() == 0);
                    }
                }
            }
            return Some(c);
        }
        q = q + 1;
    }
    proof {
        if exists|k: int| is_backbone_at(path_steps(ps@), cands, k) {
            let k = choose|k: int| is_backbone_at(path_steps(ps@), cands, k);
            assert(path_steps(ps@)[cands[k] as int].len() == 0);
        }
    }
    None
}

fn lies_inside(p: Option<usize>, h: Hull, r: Interval) -> (b: bool)
    ensures
        b == in_interior(p, h, r),
{
    match p {
        Some(q) => (r.lo as u128) < 2 * (q as u128) && 2 * (q as u128) + 1 < (r.hi as u128),
        None => match h {
            Some((a, b)) => r.lo <= a && b <= r.hi && a < r.hi && b > r.lo,
            None => false,
        },
    }
}

/// The IDs of the vertices strictly inside `r`, in vertex order.
fn interior_of(vs: &Vec<Vertex>, pos: &Vec<Option<usize>>, hulls: &Vec<Hull>, r: Interval) -> (ids: Vec<u64>)
    requires
        pos@.len() == vs@.len(),
        hulls@.len() == vs@.len(),
    ensures
        ids@ == interior_ids(vertex_ids(vs@), pos@, hulls@, r, vs@.len()),
{
    let mut ids: Vec<u64> = Vec::new();
    let mut v: usize = 0;
    while v < vs.len()
        invariant
            pos@.len() == vs@.len(),
            hulls@.len() == vs@.len(),
            v <= vs@.len(),
            ids@ == interior_ids(vertex_ids(vs@), pos@, hulls@, r, v as nat),
        decreases vs@.len() - v,
    {
        if lies_inside(pos[v], hulls[v], r) {
            ids.push(vs[v].id);
        }
        v = v + 1;
    }
    ids
}

impl PovuGraph {
    /// Find the variation regions of a finalized graph along its backbone,
    /// the first selected reference path with a step (every path is a
    /// candidate when no selection was made), and build their hierarchy.
    /// The regions along any other reference path come from `analyze_along`.
    ///
    /// Fails with `NotFinalized` before `finalize`, with `InvalidBackbone`
    /// when no candidate path has a step, and otherwise as `analyze_along`.
    pub fn analyze(&self) -> (r: Result<GraphAnalysis>)
        requires
            self.wf(),
        ensures
            !self.spec_finalized() ==> (r matches Err(e) && e is NotFinalized),
            self.spec_finalized() && backbone_of(path_steps(self.spec_paths()), self.spec_references()) is None
                ==> (r matches Err(e) && e is InvalidBackbone),
            self.spec_finalized() ==> (backbone_of(path_steps(self.spec_paths()), self.spec_references()) matches Some(b) ==> {
                &&& b < self.spec_paths().len()
                &&& analysis_along(*self, b as int, r)
            }),
    {
        if !self.is_finalized() {
            return Err(Error::NotFinalized);
        }
        proof {
            self.lemma_wf_facts();
        }
        let paths = self.path_list();
        let b = match find_backbone(paths, self.reference_list()) {
            Some(b) => b,
            None => {
                return Err(Error::InvalidBackbone);
            },
        };
        proof {
            let cands = reference_candidates(self.spec_references(), paths@.len());
            let q = choose|q: int| is_backbone_at(path_steps(paths@), cands, q);
            assert(cands[q] < paths@.len());
        }
        self.analyze_along(b)
    }

    /// Find the variation regions of a finalized graph along the reference
    /// path `path`, used as backbone, and build their hierarchy.
    ///
    /// Fails with `NotFinalized` before `finalize`, with `InvalidBackbone`
    /// when there is no such path or it has no step, with `Overflow` when the
    /// path is too long for its end coordinates, and with `NoVariationFound`
    /// when the graph has no region along it.
    pub fn analyze_along(&self, path: usize) -> (r: Result<GraphAnalysis>)
        requires
            self.wf(),
        ensures
            !self.spec_finalized() ==> (r matches Err(e) && e is NotFinalized),
            self.spec_finalized() && (path >= self.spec_paths().len()
                || self.spec_paths()[path as int].steps@.len() == 0) ==> (r matches Err(e)
                && e is InvalidBackbone),
            self.spec_finalized() && path < self.spec_paths().len()
                && self.spec_paths()[path as int].steps@.len() > 0 ==> analysis_along(
                *self,
                path as int,
                r,
            ),
    {
        if !self.is_finalized() {
            return Err(Error::NotFinalized);
        }
        proof {
            self.lemma_wf_facts();
        }
        let paths = self.path_list();
        let vs = self.vertex_list();
        if path >= paths.len() || paths[path].steps.len() == 0 {
            return Err(Error::InvalidBackbone);
        }
        let b = path;
        assert(paths@[b as int].steps@ == path_steps(paths@)[b as int]);
        let w = &paths[b].steps;
        assert(w@ == path_steps(paths@)[b as int]);
        if w.len() >= usize::MAX / 2 {
            return Err(Error::Overflow);
        }
        let ends = self.edge_end_indices();
        let es = self.edge_list();
        let pos = compute_positions(vs, w);
        proof {
            let es = self.spec_edges();
            assert forall|e: int| 0 <= e < ends@.len() implies (#[trigger] ends@[e]).0 < pos@.len()
                && ends@[e].1 < pos@.len() by {
                assert(has_id(vs@, es[e].from_id));
                assert(has_id(vs@, es[e].to_id));
                let ids = vertex_ids(vs@);
                let fi = choose|k: int| 0 <= k < vs@.len() && (#[trigger] vs@[k]).id == es[e].from_id;
                let ti = choose|k: int| 0 <= k < vs@.len() && (#[trigger] vs@[k]).id == es[e].to_id;
                assert(ids[fi] == es[e].from_id);
                assert(ids[ti] == es[e].to_id);
                let i = index_of_id(ids, es[e].from_id);
                let j = index_of_id(ids, es[e].to_id);
                assert(0 <= i < vs@.len());
                assert(0 <= j < vs@.len());
            }
        }
        let links = compute_links(ends, es, &pos, w);
        let hulls = compute_hulls(&links, vs.len(), Ghost(2 * w@.len()));
        let spans = compute_spans(&links, &pos, &hulls, Ghost(2 * w@.len()));
        proof {
            assert(vertex_ids(vs@).len() == vs@.len());
            crate::model::lemma_least_unique(links@, vs@.len(), hulls@);
        }
        let bounds = find_regions(&spans);
        if bounds.len() == 0 {
            return Err(Error::NoVariationFound);
        }
        let parents = nesting_parents(&bounds);
        let mut regions: Vec<VariationRegion> = Vec::with_capacity(bounds.len());
        let mut i: usize = 0;
        while i < bounds.len()
            invariant
                i <= bounds@.len(),
                regions@.len() == i,
                pos@.len() == vs@.len(),
                hulls@.len() == vs@.len(),
                spans_within(spans@, 2 * w@.len()),
                forall|k: int| 0 <= k < bounds@.len() ==> is_region(spans@, #[trigger] bounds@[k]),
                forall|k: int| 0 <= k < bounds@.len() ==> (#[trigger] bounds@[k]).lo / 2 < bounds@[k].hi / 2,
                forall|k: int|
                    0 <= k < i ==> {
                        let r = #[trigger] regions@[k];
                        &&& r.bounds() == bounds@[k]
                        &&& r.start_position == r.start_coordinate / 2
                        &&& r.end_position == r.end_coordinate / 2
                        &&& r.start_position < r.end_position < w@.len()
                        &&& r.start == w@[r.start_position as int]
                        &&& r.end == w@[r.end_position as int]
                        &&& r.interior@ == interior_ids(vertex_ids(vs@), pos@, hulls@, r.bounds(), vs@.len())
                    },
            decreases bounds@.len() - i,
        {
            let iv = bounds[i];
            proof {
                assert(is_region(spans@, bounds@[i as int]));
                let k = choose|k: int|
                    0 <= k < spans@.len() && (#[trigger] spans@[k]).seed && is_closure(
                        spans@,
                        spans@[k],
                        iv.lo as int,
                        iv.hi as int,
                    );
                lemma_closure_below(spans@, k, iv.lo as int, iv.hi as int, 2 * w@.len() as int);
            }
            let interior = interior_of(vs, &pos, &hulls, iv);
            regions.push(
                VariationRegion {
                    start: w[iv.lo / 2],
                    end: w[iv.hi / 2],
                    start_position: iv.lo / 2,
                    end_position: iv.hi / 2,
                    start_coordinate: iv.lo,
                    end_coordinate: iv.hi,
                    interior,
                },
            );
            proof {
                assert(regions@[i as int].bounds() == iv);
            }
            i = i + 1;
        }
        let tree = PvstTree { regions, parents };
        proof {
            assert(tree.spec_bounds() =~= bounds@);
            let ghost vsv = self.spec_vertices();
            let ghost esv = self.spec_edges();
            assert(spans@ == model_spans(vertex_ids(vsv), esv, w@));
            assert(tree.wf());
        }
        Ok(GraphAnalysis { tree, backbone: b })
    }
}

/// What analysing `g` along its path `b` gives: `Overflow` for a path too
/// long for its end coordinates, else `NoVariationFound` exactly when no span
/// opens a region, else an analysis that `describes` the graph.
pub open spec fn analysis_along(g: PovuGraph, b: int, r: Result<GraphAnalysis>) -> bool {
    let ids = vertex_ids(g.spec_vertices());
    let es = g.spec_edges();
    let w = path_steps(g.spec_paths())[b];
    let spans = model_spans(ids, es, w);
    &&& backbone_too_long(w) ==> (r matches Err(e) && e is Overflow)
    &&& !backbone_too_long(w) ==> {
        &&& (r is Err <==> forall|i: int| 0 <= i < spans.len() ==> !(#[trigger] spans[i]).seed)
        &&& r matches Err(e) ==> e is NoVariationFound
    }
    &&& r matches Ok(a) ==> a.spec_backbone() == b && describes(a, ids, es, w)
}

/// What a successful analysis of a graph with vertex IDs `ids`, edges `es` and
/// backbone walk `w` holds: the regions of the graph's spans, each once, in
/// order, with their boundary steps and interiors, and the nesting tree.
pub open spec fn describes(a: GraphAnalysis, ids: Seq<u64>, es: Seq<Edge>, w: Seq<Step>) -> bool {
    let spans = model_spans(ids, es, w);
    let pos = positions(ids, w);
    let hulls = model_hulls(ids, es, w);
    let tree = a.spec_tree();
    let rs = tree.spec_regions();
    let bounds = tree.spec_bounds();
    &&& tree.wf()
    &&& sorted_regions(bounds)
    &&& laminar(bounds)
    &&& forall|i: int| 0 <= i < bounds.len() ==> is_region(spans, #[trigger] bounds[i])
    &&& forall|i: int, lo: int, hi: int|
        0 <= i < spans.len() && spans[i].seed && #[trigger] is_closure(spans, spans[i], lo, hi)
            ==> bounds.contains(Interval { lo: lo as usize, hi: hi as usize })
    &&& forall|i: int|
        0 <= i < rs.len() ==> {
            let r = #[trigger] rs[i];
            &&& r.start_position == r.start_coordinate / 2
            &&& r.end_position == r.end_coordinate / 2
            &&& r.start_position < r.end_position < w.len()
            &&& r.start == w[r.start_position as int]
            &&& r.end == w[r.end_position as int]
            &&& r.interior@ == interior_ids(ids, pos, hulls, r.bounds(), ids.len())
        }
}

proof fn lemma_interior_ids_contains(
    ids: Seq<u64>,
    pos: Seq<Option<usize>>,
    hulls: Seq<Hull>,
    r: Interval,
    n: nat,
    id: u64,
)
    requires
        n <= ids.len(),
    ensures
        interior_ids(ids, pos, hulls, r, n).contains(id) <==> exists|v: int|
            0 <= v < n && #[trigger] ids[v] == id && in_interior(pos[v], hulls[v], r),
    decreases n,
{
    if n > 0 {
        lemma_interior_ids_contains(ids, pos, hulls, r, (n - 1) as nat, id);
        let rest = interior_ids(ids, pos, hulls, r, (n - 1) as nat);
        if in_interior(pos[n - 1], hulls[n - 1], r) {
            let full = rest.push(ids[n - 1]);
            if full.contains(id) {
                let k = choose|k: int| 0 <= k < full.len() && full[k] == id;
                if k < rest.len() {
                    assert(rest[k] == id);
                    assert(rest.contains(id));
                }
            }
            if rest.contains(id) {
                let k = choose|k: int| 0 <= k < rest.len() && rest[k] == id;
                assert(full[k] == id);
            }
            if ids[n - 1] == id {
                assert(full[rest.len() as int] == id);
            }
        }
    }
}

/// Of any two regions of an analysis, the interior of one holds the interior
/// of the other, or the two interiors share no vertex: regions never
/// partially overlap.
pub proof fn lemma_interiors_nested_or_disjoint(
    a: GraphAnalysis,
    ids: Seq<u64>,
    es: Seq<Edge>,
    w: Seq<Step>,
    i: int,
    j: int,
)
    requires
        describes(a, ids, es, w),
        ids.no_duplicates(),
        0 <= i < a.spec_tree().spec_regions().len(),
        0 <= j < a.spec_tree().spec_regions().len(),
    ensures
        ({
            let x = a.spec_tree().spec_regions()[i].interior@.to_set();
            let y = a.spec_tree().spec_regions()[j].interior@.to_set();
            x.subset_of(y) || y.subset_of(x) || x.disjoint(y)
        }),
{
    let pos = positions(ids, w);
    let hulls = model_hulls(ids, es, w);
    let rs = a.spec_tree().spec_regions();
    let bounds = a.spec_tree().spec_bounds();
    let ri = rs[i];
    let rj = rs[j];
    let x = ri.interior@.to_set();
    let y = rj.interior@.to_set();
    assert(bounds[i] == ri.bounds() && bounds[j] == rj.bounds());
    assert(crate::decompose::nested_or_disjoint(bounds[i], bounds[j]));
    if contains(ri.bounds(), rj.bounds()) {
        assert forall|id: u64| y.contains(id) implies x.contains(id) by {
            lemma_interior_ids_contains(ids, pos, hulls, rj.bounds(), ids.len(), id);
            lemma_interior_ids_contains(ids, pos, hulls, ri.bounds(), ids.len(), id);
        }
    } else if contains(rj.bounds(), ri.bounds()) {
        assert forall|id: u64| x.contains(id) implies y.contains(id) by {
            lemma_interior_ids_contains(ids, pos, hulls, rj.bounds(), ids.len(), id);
            lemma_interior_ids_contains(ids, pos, hulls, ri.bounds(), ids.len(), id);
        }
    } else {
        assert forall|id: u64| !(x.contains(id) && y.contains(id)) by {
            lemma_interior_ids_contains(ids, pos, hulls, rj.bounds(), ids.len(), id);
            lemma_interior_ids_contains(ids, pos, hulls, ri.bounds(), ids.len(), id);
            if x.contains(id) && y.contains(id) {
                let u = choose|u: int|
                    0 <= u < ids.len() && #[trigger] ids[u] == id && in_interior(
                        pos[u],
                        hulls[u],
                        ri.bounds(),
                    );
                let v = choose|v: int|
                    0 <= v < ids.len() && #[trigger] ids[v] == id && in_interior(
                        pos[v],
                        hulls[v],
                        rj.bounds(),
                    );
                assert(u == v);
            }
        }
    }
}

} // verus!
