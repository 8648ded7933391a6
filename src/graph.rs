//! The graph: vertices, bidirected edges and reference walks behind one handle,
//! with a build phase and a finalized, read-only phase.
use std::collections::HashMap;
use vstd::prelude::*;
use vstd::string::StrSliceExecFns;

use crate::edge::{source_end, target_end, Edge};
use crate::error::{Error, Result};
use crate::path::{Orientation, Path, Step};
use crate::model::{edge_endpoints, index_of_id};
use crate::vertex::Vertex;

verus! {

/// Whether some vertex of `vs` has the ID `id`.
pub open spec fn has_id(vs: Seq<Vertex>, id: u64) -> bool {
    exists|i: int| 0 <= i < vs.len() && (#[trigger] vs[i]).id == id
}

/// No two vertices of `vs` share an ID.
pub open spec fn ids_unique(vs: Seq<Vertex>) -> bool {
    forall|i: int, j: int|
        0 <= i < vs.len() && 0 <= j < vs.len() && i != j ==> (#[trigger] vs[i]).id
            != (#[trigger] vs[j]).id
}

/// The vertices of `vs` as plain values: (ID, sequence), in order.
pub open spec fn vertex_views(vs: Seq<Vertex>) -> Seq<(u64, Seq<char>)> {
    vs.map_values(|v: Vertex| (v.id, v.sequence@))
}

/// The paths of `ps` as plain values: (name, steps), in order.
pub open spec fn path_views(ps: Seq<Path>) -> Seq<(Seq<char>, Seq<Step>)> {
    ps.map_values(|p: Path| (p.name@, p.steps@))
}

/// The IDs of vertex views.
pub open spec fn view_ids(vv: Seq<(u64, Seq<char>)>) -> Seq<u64> {
    vv.map_values(|x: (u64, Seq<char>)| x.0)
}

/// The step lists of path views.
pub open spec fn view_steps(pv: Seq<(Seq<char>, Seq<Step>)>) -> Seq<Seq<Step>> {
    pv.map_values(|x: (Seq<char>, Seq<Step>)| x.1)
}

/// The vertex IDs of `vs`, in order.
pub open spec fn vertex_ids(vs: Seq<Vertex>) -> Seq<u64> {
    view_ids(vertex_views(vs))
}

/// The step lists of the paths of `ps`, in order.
pub open spec fn path_steps(ps: Seq<Path>) -> Seq<Seq<Step>> {
    view_steps(path_views(ps))
}

proof fn lemma_has_id_in_ids(vs: Seq<Vertex>, id: u64)
    ensures
        has_id(vs, id) <==> vertex_ids(vs).to_set().contains(id),
{
    if has_id(vs, id) {
        let i = choose|i: int| 0 <= i < vs.len() && (#[trigger] vs[i]).id == id;
        assert(vertex_ids(vs)[i] == id);
    }
    if vertex_ids(vs).to_set().contains(id) {
        let i = choose|i: int| 0 <= i < vertex_ids(vs).len() && vertex_ids(vs)[i] == id;
        assert(vs[i].id == id);
    }
}

/// However vertices were added, the graph holds as many vertices as it holds
/// distinct IDs.
pub proof fn lemma_vertex_count_is_distinct_ids(g: &PovuGraph)
    requires
        g.wf(),
    ensures
        g.spec_vertices().len() == vertex_ids(g.spec_vertices()).to_set().len(),
{
    let ids = vertex_ids(g.spec_vertices());
    assert(ids.no_duplicates()) by {
        assert forall|i: int, j: int| 0 <= i < ids.len() && 0 <= j < ids.len() && i != j implies ids[i] != ids[j] by {
            g.lemma_ids_unique(i, j);
        }
    }
    ids.unique_seq_to_set();
}

/// Both endpoints of `e` are vertices of `vs`.
pub open spec fn edge_resolves(vs: Seq<Vertex>, e: Edge) -> bool {
    has_id(vs, e.from_id) && has_id(vs, e.to_id)
}

/// Every step of `p` visits a vertex of `vs`.
pub open spec fn path_resolves(vs: Seq<Vertex>, p: Path) -> bool {
    forall|k: int| 0 <= k < p.steps@.len() ==> has_id(vs, (#[trigger] p.steps@[k]).vertex_id)
}

/// A path name that can be stored: not empty, and without NUL, tab or line breaks.
pub open spec fn valid_path_name(s: Seq<char>) -> bool {
    &&& s.len() > 0
    &&& forall|i: int|
        0 <= i < s.len() ==> #[trigger] s[i] != '\0' && s[i] != '\t' && s[i] != '\n' && s[i]
            != '\r'
}


/// The ends joined to the vertex end `end` by the edges of `es`, in edge
/// order; a loop from `end` to itself lists `end` twice.
pub open spec fn neighbors_in(es: Seq<Edge>, end: (u64, Orientation)) -> Seq<(u64, Orientation)>
    decreases es.len(),
{
    if es.len() == 0 {
        Seq::empty()
    } else {
        let e = es.last();
        let prev = neighbors_in(es.drop_last(), end);
        let with_source = if source_end(e) == end {
            prev.push(target_end(e))
        } else {
            prev
        };
        if target_end(e) == end {
            with_source.push(source_end(e))
        } else {
            with_source
        }
    }
}

/// The indices `i` with `flags[i]`, in increasing order.
pub open spec fn flagged(flags: Seq<bool>) -> Seq<usize>
    decreases flags.len(),
{
    if flags.len() == 0 {
        Seq::empty()
    } else {
        let prev = flagged(flags.drop_last());
        if flags.last() {
            prev.push((flags.len() - 1) as usize)
        } else {
            prev
        }
    }
}

/// The flagged indices list exactly the indices with a flag, in increasing order.
pub proof fn lemma_flagged(flags: Seq<bool>)
    requires
        flags.len() <= usize::MAX,
    ensures
        forall|j: int| 0 <= j < flagged(flags).len() ==> (#[trigger] flagged(flags)[j]) < flags.len()
            && flags[flagged(flags)[j] as int],
        forall|j: int, k: int|
            0 <= j < k < flagged(flags).len() ==> #[trigger] flagged(flags)[j] < #[trigger] flagged(
                flags,
            )[k],
        forall|i: int| 0 <= i < flags.len() && flags[i] ==> #[trigger] flagged(flags).contains(i as usize),
    decreases flags.len(),
{
    if flags.len() > 0 {
        let d = flags.drop_last();
        lemma_flagged(d);
        let prev = flagged(d);
        let f = flagged(flags);
        let n = flags.len() - 1;
        assert(f == if flags.last() {
            prev.push(n as usize)
        } else {
            prev
        });
        assert forall|j: int| 0 <= j < prev.len() implies #[trigger] f[j] == prev[j] by {}
        assert forall|i: int| 0 <= i < flags.len() && flags[i] implies #[trigger] f.contains(i as usize) by {
            if i < n {
                assert(d[i] == flags[i]);
                assert(prev.contains(i as usize));
                let j = choose|j: int| 0 <= j < prev.len() && prev[j] == i as usize;
                assert(f[j] == i as usize);
            } else {
                assert(f[prev.len() as int] == i as usize);
            }
        }
        assert forall|j: int| 0 <= j < f.len() implies (#[trigger] f[j]) < flags.len()
            && flags[f[j] as int] by {
            if j < prev.len() {
                assert(d[prev[j] as int] == flags[prev[j] as int]);
            } else {
                assert(f[j] == n as usize);
                assert(flags[n] == flags.last());
            }
        }
        assert forall|j: int, k: int| 0 <= j < k < f.len() implies #[trigger] f[j] < #[trigger] f[k] by {
            if k < prev.len() {
                assert(prev[j] < prev[k]);
            } else {
                assert(f[k] == n as usize);
                assert(prev[j] < d.len());
            }
        }
    }
}

/// The indices of the set flags, in increasing order.
pub(crate) fn select_flagged(flags: &Vec<bool>) -> (r: Vec<usize>)
    ensures
        r@ == flagged(flags@),
{
    let mut r: Vec<usize> = Vec::new();
    let mut i: usize = 0;
    while i < flags.len()
        invariant
            i <= flags@.len(),
            r@ == flagged(flags@.take(i as int)),
        decreases flags@.len() - i,
    {
        assert(flags@.take(i + 1).drop_last() == flags@.take(i as int));
        if flags[i] {
            r.push(i);
        }
        i = i + 1;
    }
    assert(flags@.take(i as int) == flags@);
    r
}

/// Some prefix of `prefixes` starts `name`.
pub open spec fn matches_prefix(prefixes: Seq<&str>, name: Seq<char>) -> bool {
    exists|k: int| 0 <= k < prefixes.len() && (#[trigger] prefixes[k])@.is_prefix_of(name)
}

/// Some name of `names` is `name`.
pub open spec fn matches_name(names: Seq<&str>, name: Seq<char>) -> bool {
    exists|k: int| 0 <= k < names.len() && (#[trigger] names[k])@ == name
}

/// The view of an optional selection of paths.
pub open spec fn selection_view(refs: Option<Vec<usize>>) -> Option<Seq<usize>> {
    match refs {
        Some(v) => Some(v@),
        None => None,
    }
}

/// A pangenome variation graph.
///
/// Vertices, edges and paths are added in the build phase; `finalize` checks
/// that every edge and every step names a vertex of the graph, and closes the
/// graph for further additions. A vertex ID can be added once: a second
/// `add_vertex` with the same ID is refused. `edges` returns each edge once,
/// as it was added; its reverse is the same adjacency and is not listed.
pub struct PovuGraph {
    pub(crate) vertices: Vec<Vertex>,
    pub(crate) edges: Vec<Edge>,
    pub(crate) paths: Vec<Path>,
    pub(crate) references: Option<Vec<usize>>,
    pub(crate) finalized: bool,
    /// For each edge, the indices of its two endpoint vertices; built by `finalize`.
    pub(crate) edge_ends: Vec<(usize, usize)>,
    /// The index of each vertex, by ID.
    pub(crate) id_index: HashMap<u64, usize>,
}

impl PovuGraph {
    /// The vertices, in the order they were added.
    pub closed spec fn spec_vertices(&self) -> Seq<Vertex> {
        self.vertices@
    }

    /// The edges, in the order they were added.
    pub closed spec fn spec_edges(&self) -> Seq<Edge> {
        self.edges@
    }

    /// The paths, in the order they were added.
    pub closed spec fn spec_paths(&self) -> Seq<Path> {
        self.paths@
    }

    /// The selected reference paths, by index; `None` when no selection was made.
    pub closed spec fn spec_references(&self) -> Option<Seq<usize>> {
        match self.references {
            Some(r) => Some(r@),
            None => None,
        }
    }

    /// Whether the graph has been finalized.
    pub closed spec fn spec_finalized(&self) -> bool {
        self.finalized
    }

    proof fn lemma_ids_unique(&self, i: int, j: int)
        requires
            self.wf(),
            0 <= i < self.spec_vertices().len(),
            0 <= j < self.spec_vertices().len(),
            i != j,
        ensures
            self.spec_vertices()[i].id != self.spec_vertices()[j].id,
    {
    }

    /// The edge endpoint index built by `finalize` is in place.
    pub(crate) open spec fn ends_indexed(&self) -> bool {
        &&& self.edge_ends@.len() == self.edges@.len()
        &&& forall|e: int|
            0 <= e < self.edges@.len() ==> {
                let (a, b) = #[trigger] self.edge_ends@[e];
                &&& a < self.vertices@.len()
                &&& b < self.vertices@.len()
                &&& self.vertices@[a as int].id == self.edges@[e].from_id
                &&& self.vertices@[b as int].id == self.edges@[e].to_id
            }
    }

    /// The graph's invariant: IDs are unique, a selection names paths of the
    /// graph, and a finalized graph has every edge and step resolved.
    pub closed spec fn wf(&self) -> bool {
        &&& ids_unique(self.vertices@)
        &&& forall|id: u64| #[trigger]
            self.id_index@.contains_key(id) ==> self.id_index@[id] < self.vertices@.len()
                && self.vertices@[self.id_index@[id] as int].id == id
        &&& forall|i: int|
            0 <= i < self.vertices@.len() ==> self.id_index@.contains_key(
                #[trigger] self.vertices@[i].id,
            )
        &&& (self.references matches Some(r) ==> forall|j: int|
            0 <= j < r@.len() ==> (#[trigger] r@[j]) < self.paths@.len())
        &&& self.finalized ==> {
            &&& self.ends_indexed()
            &&& forall|e: int|
                0 <= e < self.edges@.len() ==> edge_resolves(
                    self.vertices@,
                    #[trigger] self.edges@[e],
                )
            &&& forall|p: int|
                0 <= p < self.paths@.len() ==> path_resolves(
                    self.vertices@,
                    #[trigger] self.paths@[p],
                )
        }
    }

    /// An empty graph in the build phase; the capacities only size the storage.
    pub fn new(vertex_capacity: usize, edge_capacity: usize, path_capacity: usize) -> (g: Self)
        ensures
            g.wf(),
            !g.spec_finalized(),
            g.spec_vertices().len() == 0,
            g.spec_edges().len() == 0,
            g.spec_paths().len() == 0,
            g.spec_references() is None,
    {
        PovuGraph {
            vertices: Vec::with_capacity(vertex_capacity),
            edges: Vec::with_capacity(edge_capacity),
            paths: Vec::with_capacity(path_capacity),
            references: None,
            finalized: false,
            edge_ends: Vec::new(),
            id_index: HashMap::with_capacity(vertex_capacity),
        }
    }

    /// Whether the graph has been finalized.
    pub fn is_finalized(&self) -> (r: bool)
        ensures
            r == self.spec_finalized(),
    {
        self.finalized
    }

    /// The index of the vertex with ID `id`, if there is one.
    pub fn vertex_index(&self, id: u64) -> (r: Option<usize>)
        requires
            self.wf(),
        ensures
            r matches Some(i) ==> i < self.spec_vertices().len() && self.spec_vertices()[i as int].id
                == id,
            r is None ==> !has_id(self.spec_vertices(), id),
    {
        broadcast use vstd::std_specs::hash::group_hash_axioms;

        match self.id_index.get(&id) {
            Some(i) => Some(*i),
            None => None,
        }
    }

    /// Record that vertex `idx`, the last one, has ID `id`.
    fn insert_index(&mut self, id: u64, idx: usize)
        requires
            old(self).vertices@.len() == idx + 1,
            old(self).vertices@[idx as int].id == id,
            forall|i: int| 0 <= i < idx ==> (#[trigger] old(self).vertices@[i]).id != id,
            forall|k: u64| #[trigger]
                old(self).id_index@.contains_key(k) ==> old(self).id_index@[k] < idx
                    && old(self).vertices@[old(self).id_index@[k] as int].id == k,
            forall|i: int|
                0 <= i < idx ==> old(self).id_index@.contains_key(
                    #[trigger] old(self).vertices@[i].id,
                ),
        ensures
            final(self).vertices == old(self).vertices,
            final(self).edges == old(self).edges,
            final(self).paths == old(self).paths,
            final(self).references == old(self).references,
            final(self).finalized == old(self).finalized,
            final(self).edge_ends == old(self).edge_ends,
            forall|k: u64| #[trigger]
                final(self).id_index@.contains_key(k) ==> final(self).id_index@[k]
                    < final(self).vertices@.len()
                    && final(self).vertices@[final(self).id_index@[k] as int].id == k,
            forall|i: int|
                0 <= i < final(self).vertices@.len() ==> final(self).id_index@.contains_key(
                    #[trigger] final(self).vertices@[i].id,
                ),
    {
        broadcast use vstd::std_specs::hash::group_hash_axioms;

        self.id_index.insert(id, idx);
        assert forall|i: int|
            0 <= i < self.vertices@.len() implies self.id_index@.contains_key(
            #[trigger] self.vertices@[i].id,
        ) by {
            if i < idx {
                assert(old(self).id_index@.contains_key(old(self).vertices@[i].id));
            }
        }
    }

    /// Add a vertex; returns its index.
    ///
    /// Fails with `Finalized` after `finalize`, and with `DuplicateVertex` when
    /// the ID is already in the graph; the graph is then unchanged.
    pub fn add_vertex(&mut self, id: u64, sequence: &str) -> (r: Result<usize>)
        requires
            old(self).wf(),
        ensures
            final(self).wf(),
            final(self).spec_finalized() == old(self).spec_finalized(),
            final(self).spec_edges() == old(self).spec_edges(),
            final(self).spec_paths() == old(self).spec_paths(),
            final(self).spec_references() == old(self).spec_references(),
            old(self).spec_finalized() ==> r is Err && r->Err_0 is Finalized,
            !old(self).spec_finalized() && has_id(old(self).spec_vertices(), id) ==> r is Err
                && r->Err_0 == (Error::DuplicateVertex { id }),
            r is Err ==> final(self).spec_vertices() == old(self).spec_vertices(),
            !old(self).spec_finalized() ==> vertex_ids(final(self).spec_vertices()).to_set()
                == vertex_ids(old(self).spec_vertices()).to_set().insert(id),
            !old(self).spec_finalized() && !has_id(old(self).spec_vertices(), id) ==> {
                &&& r == Ok::<usize, Error>(old(self).spec_vertices().len() as usize)
                &&& final(self).spec_vertices().len() == old(self).spec_vertices().len() + 1
                &&& final(self).spec_vertices().drop_last() == old(self).spec_vertices()
                &&& final(self).spec_vertices().last().id == id
                &&& final(self).spec_vertices().last().sequence@ == sequence@
            },
    {
        if self.finalized {
            return Err(Error::Finalized);
        }
        if let Some(_) = self.vertex_index(id) {
            proof {
                lemma_has_id_in_ids(self.vertices@, id);
                assert(vertex_ids(self.vertices@).to_set() =~= vertex_ids(
                    self.vertices@,
                ).to_set().insert(id));
            }
            return Err(Error::DuplicateVertex { id });
        }
        let idx = self.vertices.len();
        let v = Vertex { id, sequence: sequence.to_owned() };
        self.vertices.push(v);
        self.insert_index(id, idx);
        proof {
            assert(self.vertices@.drop_last() == old(self).vertices@);
            assert(vertex_ids(self.vertices@) == vertex_ids(old(self).vertices@).push(id));
            assert(vertex_ids(self.vertices@).to_set() =~= vertex_ids(old(self).vertices@).to_set().insert(id)) by {
                assert forall|x: u64| #[trigger] vertex_ids(self.vertices@).to_set().contains(x) <==> vertex_ids(old(self).vertices@).to_set().insert(id).contains(x) by {
                    lemma_has_id_in_ids(self.vertices@, x);
                    lemma_has_id_in_ids(old(self).vertices@, x);
                    if has_id(self.vertices@, x) && x != id {
                        let i = choose|i: int| 0 <= i < self.vertices@.len() && (#[trigger] self.vertices@[i]).id == x;
                        assert(old(self).vertices@[i] == self.vertices@[i]);
                    }
                    if has_id(old(self).vertices@, x) {
                        let i = choose|i: int| 0 <= i < old(self).vertices@.len() && (#[trigger] old(self).vertices@[i]).id == x;
                        assert(old(self).vertices@[i] == self.vertices@[i]);
                    }
                    assert(self.vertices@[idx as int].id == id);
                }
            }
            assert forall|i: int, j: int|
                0 <= i < self.vertices@.len() && 0 <= j < self.vertices@.len() && i != j
                    implies (#[trigger] self.vertices@[i]).id != (
            #[trigger] self.vertices@[j]).id by {
                if i == idx {
                    assert(self.vertices@[j] == old(self).vertices@[j]);
                } else if j == idx {
                    assert(self.vertices@[i] == old(self).vertices@[i]);
                } else {
                    assert(self.vertices@[i] == old(self).vertices@[i]);
                    assert(self.vertices@[j] == old(self).vertices@[j]);
                }
            }
        }
        Ok(idx)
    }

    /// Add an edge between two oriented vertex ends; returns its index.
    ///
    /// The endpoints are checked by `finalize`. Fails with `Finalized` after
    /// `finalize`; the graph is then unchanged.
    pub fn add_edge(
        &mut self,
        from_id: u64,
        from_orientation: Orientation,
        to_id: u64,
        to_orientation: Orientation,
    ) -> (r: Result<usize>)
        requires
            old(self).wf(),
        ensures
            final(self).wf(),
            final(self).spec_finalized() == old(self).spec_finalized(),
            final(self).spec_vertices() == old(self).spec_vertices(),
            final(self).spec_paths() == old(self).spec_paths(),
            final(self).spec_references() == old(self).spec_references(),
            old(self).spec_finalized() ==> r is Err && r->Err_0 is Finalized
                && final(self).spec_edges() == old(self).spec_edges(),
            !old(self).spec_finalized() ==> r == Ok::<usize, Error>(
                old(self).spec_edges().len() as usize,
            ) && final(self).spec_edges() == old(self).spec_edges().push(
                Edge { from_id, from_orientation, to_id, to_orientation },
            ),
    {
        if self.finalized {
            return Err(Error::Finalized);
        }
        let idx = self.edges.len();
        self.edges.push(Edge::new(from_id, from_orientation, to_id, to_orientation));
        Ok(idx)
    }

    /// Add a reference path; returns its index.
    ///
    /// Fails with `Finalized` after `finalize`, and with `InvalidPathName` when
    /// the name is empty or holds a NUL, a tab or a line break; the graph is
    /// then unchanged. The steps are checked by `finalize`.
    pub fn add_path(&mut self, name: &str, steps: Vec<Step>) -> (r: Result<usize>)
        requires
            old(self).wf(),
        ensures
            final(self).wf(),
            final(self).spec_finalized() == old(self).spec_finalized(),
            final(self).spec_vertices() == old(self).spec_vertices(),
            final(self).spec_edges() == old(self).spec_edges(),
            final(self).spec_references() == old(self).spec_references(),
            old(self).spec_finalized() ==> r is Err && r->Err_0 is Finalized,
            !old(self).spec_finalized() && !valid_path_name(name@) ==> r is Err && r->Err_0 is InvalidPathName,
            r is Err ==> final(self).spec_paths() == old(self).spec_paths(),
            !old(self).spec_finalized() && valid_path_name(name@) ==> {
                &&& r == Ok::<usize, Error>(old(self).spec_paths().len() as usize)
                &&& final(self).spec_paths().len() == old(self).spec_paths().len() + 1
                &&& final(self).spec_paths().drop_last() == old(self).spec_paths()
                &&& final(self).spec_paths().last().name@ == name@
                &&& final(self).spec_paths().last().steps@ == steps@
            },
    {
        if self.finalized {
            return Err(Error::Finalized);
        }
        if !check_path_name(name) {
            return Err(Error::InvalidPathName);
        }
        let idx = self.paths.len();
        self.paths.push(Path::new(name.to_owned(), steps));
        proof {
            assert(self.paths@.drop_last() == old(self).paths@);
        }
        Ok(idx)
    }

    /// The number of vertices.
    pub fn vertex_count(&self) -> (r: usize)
        ensures
            r == self.spec_vertices().len(),
    {
        self.vertices.len()
    }

    /// The number of edges, each adjacency counted once as it was added.
    pub fn edge_count(&self) -> (r: usize)
        ensures
            r == self.spec_edges().len(),
    {
        self.edges.len()
    }

    /// The selected reference paths, by index; `None` when no selection was made.
    pub fn references(&self) -> (r: Option<Vec<usize>>)
        ensures
            selection_view(r) == self.spec_references(),
    {
        match &self.references {
            Some(sel) => {
                let mut out: Vec<usize> = Vec::with_capacity(sel.len());
                let mut i: usize = 0;
                while i < sel.len()
                    invariant
                        i <= sel@.len(),
                        out@ == sel@.take(i as int),
                    decreases sel@.len() - i,
                {
                    out.push(sel[i]);
                    i = i + 1;
                    assert(out@ == sel@.take(i as int));
                }
                assert(out@ == sel@);
                Some(out)
            },
            None => None,
        }
    }

    /// The vertex ends joined to the end `orientation` of vertex `vertex_id`
    /// (`Forward`: its 5' end, `Reverse`: its 3' end), in edge order.
    pub fn neighbors(&self, vertex_id: u64, orientation: Orientation) -> (r: Vec<(u64, Orientation)>)
        ensures
            r@ == neighbors_in(self.spec_edges(), (vertex_id, orientation)),
    {
        let ghost end = (vertex_id, orientation);
        let mut r: Vec<(u64, Orientation)> = Vec::new();
        let mut i: usize = 0;
        while i < self.edges.len()
            invariant
                i <= self.edges@.len(),
                end == (vertex_id, orientation),
                r@ == neighbors_in(self.edges@.take(i as int), end),
            decreases self.edges@.len() - i,
        {
            let e = self.edges[i];
            proof {
                assert(self.edges@.take(i + 1).drop_last() == self.edges@.take(i as int));
                assert(self.edges@.take(i + 1).last() == e);
            }
            if e.from_id == vertex_id && e.from_orientation.flip() == orientation {
                r.push((e.to_id, e.to_orientation));
            }
            if e.to_id == vertex_id && e.to_orientation == orientation {
                r.push((e.from_id, e.from_orientation.flip()));
            }
            i = i + 1;
        }
        assert(self.edges@.take(i as int) == self.edges@);
        r
    }

    /// The number of edge ends at the end `orientation` of vertex `vertex_id`;
    /// a loop from that end to itself counts twice.
    pub fn degree(&self, vertex_id: u64, orientation: Orientation) -> (r: usize)
        ensures
            r == neighbors_in(self.spec_edges(), (vertex_id, orientation)).len(),
    {
        self.neighbors(vertex_id, orientation).len()
    }

    /// The number of paths.
    pub fn path_count(&self) -> (r: usize)
        ensures
            r == self.spec_paths().len(),
    {
        self.paths.len()
    }
}

/// Every edge and every step of the graph names a vertex of it.
pub open spec fn all_resolved(vs: Seq<Vertex>, es: Seq<Edge>, ps: Seq<Path>) -> bool {
    &&& forall|e: int| 0 <= e < es.len() ==> edge_resolves(vs, #[trigger] es[e])
    &&& forall|p: int| 0 <= p < ps.len() ==> path_resolves(vs, #[trigger] ps[p])
}

impl PovuGraph {
    /// Close the build phase: check that every edge and every step names a
    /// vertex of the graph, and build the edge endpoint index.
    ///
    /// On a finalized graph it does nothing. When a check fails the graph
    /// stays in the build phase, unchanged, and the error names the first
    /// offending edge (`DanglingEdge`), or, when every edge resolves, the
    /// first offending path (`DanglingStep`).
    pub fn finalize(&mut self) -> (r: Result<()>)
        requires
            old(self).wf(),
        ensures
            final(self).wf(),
            final(self).spec_vertices() == old(self).spec_vertices(),
            final(self).spec_edges() == old(self).spec_edges(),
            final(self).spec_paths() == old(self).spec_paths(),
            final(self).spec_references() == old(self).spec_references(),
            final(self).spec_finalized() == r is Ok,
            old(self).spec_finalized() ==> r is Ok,
            r is Ok <==> (old(self).spec_finalized() || all_resolved(
                old(self).spec_vertices(),
                old(self).spec_edges(),
                old(self).spec_paths(),
            )),
            r matches Err(err) ==> {
                ||| err matches Error::DanglingEdge { edge, vertex_id } && {
                    let vs = old(self).spec_vertices();
                    let es = old(self).spec_edges();
                    &&& edge < es.len()
                    &&& !has_id(vs, vertex_id)
                    &&& (vertex_id == es[edge as int].from_id || vertex_id
                        == es[edge as int].to_id)
                    &&& forall|e: int| 0 <= e < edge ==> edge_resolves(vs, #[trigger] es[e])
                }
                ||| err matches Error::DanglingStep { path, vertex_id } && {
                    let vs = old(self).spec_vertices();
                    let es = old(self).spec_edges();
                    let ps = old(self).spec_paths();
                    &&& path < ps.len()
                    &&& !has_id(vs, vertex_id)
                    &&& exists|k: int|
                        0 <= k < ps[path as int].steps@.len()
                            && (#[trigger] ps[path as int].steps@[k]).vertex_id == vertex_id
                    &&& forall|e: int| 0 <= e < es.len() ==> edge_resolves(vs, #[trigger] es[e])
                    &&& forall|p: int| 0 <= p < path ==> path_resolves(vs, #[trigger] ps[p])
                }
            },
    {
        if self.finalized {
            return Ok(());
        }
        let ends = self.resolve_ends()?;
        self.edge_ends = ends;
        self.finalized = true;
        Ok(())
    }

    /// The endpoint indices of every edge, once every edge and every step is
    /// checked to name a vertex of the graph.
    fn resolve_ends(&self) -> (r: Result<Vec<(usize, usize)>>)
        requires
            self.wf(),
        ensures
            r matches Ok(ends) ==> {
                &&& all_resolved(self.vertices@, self.edges@, self.paths@)
                &&& ends@.len() == self.edges@.len()
                &&& forall|e: int|
                    0 <= e < self.edges@.len() ==> {
                        let (a, b) = #[trigger] ends@[e];
                        &&& a < self.vertices@.len()
                        &&& b < self.vertices@.len()
                        &&& self.vertices@[a as int].id == self.edges@[e].from_id
                        &&& self.vertices@[b as int].id == self.edges@[e].to_id
                    }
            },
            r matches Err(err) ==> !all_resolved(self.vertices@, self.edges@, self.paths@) && {
                ||| err matches Error::DanglingEdge { edge, vertex_id } && {
                    let vs = self.vertices@;
                    let es = self.edges@;
                    &&& edge < es.len()
                    &&& !has_id(vs, vertex_id)
                    &&& (vertex_id == es[edge as int].from_id || vertex_id
                        == es[edge as int].to_id)
                    &&& forall|e: int| 0 <= e < edge ==> edge_resolves(vs, #[trigger] es[e])
                }
                ||| err matches Error::DanglingStep { path, vertex_id } && {
                    let vs = self.vertices@;
                    let es = self.edges@;
                    let ps = self.paths@;
                    &&& path < ps.len()
                    &&& !has_id(vs, vertex_id)
                    &&& exists|k: int|
                        0 <= k < ps[path as int].steps@.len()
                            && (#[trigger] ps[path as int].steps@[k]).vertex_id == vertex_id
                    &&& forall|e: int| 0 <= e < es.len() ==> edge_resolves(vs, #[trigger] es[e])
                    &&& forall|p: int| 0 <= p < path ==> path_resolves(vs, #[trigger] ps[p])
                }
            },
    {
        let mut ends: Vec<(usize, usize)> = Vec::with_capacity(self.edges.len());
        let mut e: usize = 0;
        while e < self.edges.len()
            invariant
                self.wf(),
                e <= self.edges@.len(),
                ends@.len() == e,
                forall|k: int|
                    0 <= k < e ==> {
                        let (a, b) = #[trigger] ends@[k];
                        &&& a < self.vertices@.len()
                        &&& b < self.vertices@.len()
                        &&& self.vertices@[a as int].id == self.edges@[k].from_id
                        &&& self.vertices@[b as int].id == self.edges@[k].to_id
                    },
                forall|k: int| 0 <= k < e ==> edge_resolves(self.vertices@, #[trigger] self.edges@[k]),
            decreases self.edges@.len() - e,
        {
            let edge = self.edges[e];
            let a = match self.vertex_index(edge.from_id) {
                Some(a) => a,
                None => {
                    return Err(Error::DanglingEdge { edge: e, vertex_id: edge.from_id });
                },
            };
            let b = match self.vertex_index(edge.to_id) {
                Some(b) => b,
                None => {
                    return Err(Error::DanglingEdge { edge: e, vertex_id: edge.to_id });
                },
            };
            ends.push((a, b));
            proof {
                assert(ends@[e as int] == (a, b));
            }
            e = e + 1;
        }
        let mut p: usize = 0;
        while p < self.paths.len()
            invariant
                self.wf(),
                p <= self.paths@.len(),
                forall|k: int| 0 <= k < self.edges@.len() ==> edge_resolves(self.vertices@, #[trigger] self.edges@[k]),
                forall|k: int| 0 <= k < p ==> path_resolves(self.vertices@, #[trigger] self.paths@[k]),
            decreases self.paths@.len() - p,
        {
            let steps = &self.paths[p].steps;
            let mut k: usize = 0;
            while k < steps.len()
                invariant
                    self.wf(),
                    p < self.paths@.len(),
                    forall|k: int| 0 <= k < self.edges@.len() ==> edge_resolves(self.vertices@, #[trigger] self.edges@[k]),
                    forall|q: int| 0 <= q < p ==> path_resolves(self.vertices@, #[trigger] self.paths@[q]),
                    *steps == self.paths@[p as int].steps,
                    k <= steps@.len(),
                    forall|j: int| 0 <= j < k ==> has_id(self.vertices@, (#[trigger] steps@[j]).vertex_id),
                decreases steps@.len() - k,
            {
                let id = steps[k].vertex_id;
                if self.vertex_index(id).is_none() {
                    proof {
                        assert(self.paths@[p as int].steps@[k as int].vertex_id == id);
                        assert(!path_resolves(self.vertices@, self.paths@[p as int]));
                    }
                    return Err(Error::DanglingStep { path: p, vertex_id: id });
                }
                k = k + 1;
            }
            p = p + 1;
        }
        Ok(ends)
    }

    /// All vertices, in the order they were added.
    pub fn vertices(&self) -> (r: Result<Vec<Vertex>>)
        ensures
            r matches Ok(vs) && vs@.len() == self.spec_vertices().len() && forall|i: int|
                0 <= i < vs@.len() ==> (#[trigger] vs@[i]).id == self.spec_vertices()[i].id
                    && vs@[i].sequence@ == self.spec_vertices()[i].sequence@,
    {
        let mut vs: Vec<Vertex> = Vec::with_capacity(self.vertices.len());
        let mut i: usize = 0;
        while i < self.vertices.len()
            invariant
                i <= self.vertices@.len(),
                vs@.len() == i,
                forall|k: int|
                    0 <= k < i ==> (#[trigger] vs@[k]).id == self.vertices@[k].id
                        && vs@[k].sequence@ == self.vertices@[k].sequence@,
            decreases self.vertices@.len() - i,
        {
            let v = &self.vertices[i];
            vs.push(Vertex { id: v.id, sequence: v.sequence.clone() });
            i = i + 1;
        }
        Ok(vs)
    }

    /// All edges, each once, as they were added.
    pub fn edges(&self) -> (r: Result<Vec<Edge>>)
        ensures
            r matches Ok(es) && es@ == self.spec_edges(),
    {
        let mut es: Vec<Edge> = Vec::with_capacity(self.edges.len());
        let mut i: usize = 0;
        while i < self.edges.len()
            invariant
                i <= self.edges@.len(),
                es@ == self.edges@.take(i as int),
            decreases self.edges@.len() - i,
        {
            es.push(self.edges[i]);
            i = i + 1;
            assert(es@ == self.edges@.take(i as int));
        }
        assert(es@ == self.edges@);
        Ok(es)
    }

    /// All paths, in the order they were added.
    pub fn paths(&self) -> (r: Result<Vec<Path>>)
        ensures
            r matches Ok(ps) && ps@.len() == self.spec_paths().len() && forall|i: int|
                0 <= i < ps@.len() ==> (#[trigger] ps@[i]).name@ == self.spec_paths()[i].name@
                    && ps@[i].steps@ == self.spec_paths()[i].steps@,
    {
        let mut ps: Vec<Path> = Vec::with_capacity(self.paths.len());
        let mut i: usize = 0;
        while i < self.paths.len()
            invariant
                i <= self.paths@.len(),
                ps@.len() == i,
                forall|k: int|
                    0 <= k < i ==> (#[trigger] ps@[k]).name@ == self.paths@[k].name@
                        && ps@[k].steps@ == self.paths@[k].steps@,
            decreases self.paths@.len() - i,
        {
            let p = &self.paths[i];
            let mut steps: Vec<Step> = Vec::with_capacity(p.steps.len());
            let mut k: usize = 0;
            while k < p.steps.len()
                invariant
                    k <= p.steps@.len(),
                    steps@ == p.steps@.take(k as int),
                decreases p.steps@.len() - k,
            {
                steps.push(p.steps[k]);
                k = k + 1;
                assert(steps@ == p.steps@.take(k as int));
            }
            assert(steps@ == p.steps@);
            ps.push(Path { name: p.name.clone(), steps });
            i = i + 1;
        }
        Ok(ps)
    }

    /// Select as references the paths whose names start with one of `prefixes`
    /// (case-sensitive). An empty list selects nothing.
    pub fn set_references_from_prefixes(&mut self, prefixes: &[&str]) -> (r: Result<()>)
        requires
            old(self).wf(),
        ensures
            r is Ok,
            final(self).wf(),
            final(self).spec_vertices() == old(self).spec_vertices(),
            final(self).spec_edges() == old(self).spec_edges(),
            final(self).spec_paths() == old(self).spec_paths(),
            final(self).spec_finalized() == old(self).spec_finalized(),
            final(self).spec_references() == Some(
                flagged(
                    Seq::new(
                        old(self).spec_paths().len(),
                        |i: int| matches_prefix(prefixes@, old(self).spec_paths()[i].name@),
                    ),
                ),
            ),
    {
        let ghost want = Seq::new(
            self.paths@.len(),
            |i: int| matches_prefix(prefixes@, self.paths@[i].name@),
        );
        let mut flags: Vec<bool> = Vec::with_capacity(self.paths.len());
        let mut i: usize = 0;
        while i < self.paths.len()
            invariant
                i <= self.paths@.len(),
                want == Seq::new(
                    self.paths@.len(),
                    |i: int| matches_prefix(prefixes@, self.paths@[i].name@),
                ),
                flags@ == want.take(i as int),
            decreases self.paths@.len() - i,
        {
            let name = self.paths[i].name.as_str();
            let mut found = false;
            let mut k: usize = 0;
            while k < prefixes.len() && !found
                invariant
                    k <= prefixes@.len(),
                    i < self.paths@.len(),
                    name@ == self.paths@[i as int].name@,
                    found ==> matches_prefix(prefixes@, name@),
                    !found ==> forall|j: int| 0 <= j < k ==> !(#[trigger] prefixes@[j])@.is_prefix_of(name@),
                decreases prefixes@.len() - k,
            {
                if has_prefix(name, prefixes[k]) {
                    found = true;
                }
                k = k + 1;
            }
            flags.push(found);
            i = i + 1;
            assert(flags@ =~= want.take(i as int));
        }
        assert(flags@ =~= want);
        let sel = select_flagged(&flags);
        self.set_selection(sel);
        Ok(())
    }

    /// Select as references the paths whose names are in `names` (exact
    /// match). An empty list selects nothing.
    pub fn set_references_from_names(&mut self, names: &[&str]) -> (r: Result<()>)
        requires
            old(self).wf(),
        ensures
            r is Ok,
            final(self).wf(),
            final(self).spec_vertices() == old(self).spec_vertices(),
            final(self).spec_edges() == old(self).spec_edges(),
            final(self).spec_paths() == old(self).spec_paths(),
            final(self).spec_finalized() == old(self).spec_finalized(),
            final(self).spec_references() == Some(
                flagged(
                    Seq::new(
                        old(self).spec_paths().len(),
                        |i: int| matches_name(names@, old(self).spec_paths()[i].name@),
                    ),
                ),
            ),
    {
        let ghost want = Seq::new(
            self.paths@.len(),
            |i: int| matches_name(names@, self.paths@[i].name@),
        );
        let mut flags: Vec<bool> = Vec::with_capacity(self.paths.len());
        let mut i: usize = 0;
        while i < self.paths.len()
            invariant
                i <= self.paths@.len(),
                want == Seq::new(
                    self.paths@.len(),
                    |i: int| matches_name(names@, self.paths@[i].name@),
                ),
                flags@ == want.take(i as int),
            decreases self.paths@.len() - i,
        {
            let name = self.paths[i].name.as_str();
            let mut found = false;
            let mut k: usize = 0;
            while k < names.len() && !found
                invariant
                    k <= names@.len(),
                    i < self.paths@.len(),
                    name@ == self.paths@[i as int].name@,
                    found ==> matches_name(names@, name@),
                    !found ==> forall|j: int| 0 <= j < k ==> (#[trigger] names@[j])@ != name@,
                decreases names@.len() - k,
            {
                if same_text(names[k], name) {
                    found = true;
                }
                k = k + 1;
            }
            flags.push(found);
            i = i + 1;
            assert(flags@ =~= want.take(i as int));
        }
        assert(flags@ =~= want);
        let sel = select_flagged(&flags);
        self.set_selection(sel);
        Ok(())
    }
}

impl PovuGraph {
    /// What the invariant tells a reader of the graph.
    pub proof fn lemma_wf_facts(&self)
        requires
            self.wf(),
        ensures
            ids_unique(self.spec_vertices()),
            self.spec_references() matches Some(sel) ==> forall|j: int|
                0 <= j < sel.len() ==> (#[trigger] sel[j]) < self.spec_paths().len(),
            self.spec_finalized() ==> all_resolved(
                self.spec_vertices(),
                self.spec_edges(),
                self.spec_paths(),
            ),
    {
    }

    /// Replace the reference selection by `sel`, which names paths of the graph.
    pub(crate) fn set_selection(&mut self, sel: Vec<usize>)
        requires
            old(self).wf(),
            exists|flags: Seq<bool>|
                flags.len() == old(self).spec_paths().len() && flags.len() <= usize::MAX && sel@
                    == #[trigger] flagged(flags),
        ensures
            final(self).wf(),
            final(self).spec_vertices() == old(self).spec_vertices(),
            final(self).spec_edges() == old(self).spec_edges(),
            final(self).spec_paths() == old(self).spec_paths(),
            final(self).spec_finalized() == old(self).spec_finalized(),
            final(self).spec_references() == Some(sel@),
    {
        proof {
            let flags = choose|flags: Seq<bool>|
                flags.len() == old(self).spec_paths().len() && flags.len() <= usize::MAX && sel@
                    == #[trigger] flagged(flags);
            lemma_flagged(flags);
        }
        self.references = Some(sel);
    }

    pub(crate) fn vertex_list(&self) -> (r: &Vec<Vertex>)
        ensures
            r@ == self.spec_vertices(),
    {
        &self.vertices
    }

    pub(crate) fn edge_list(&self) -> (r: &Vec<Edge>)
        ensures
            r@ == self.spec_edges(),
    {
        &self.edges
    }

    pub(crate) fn path_list(&self) -> (r: &Vec<Path>)
        ensures
            r@ == self.spec_paths(),
    {
        &self.paths
    }

    pub(crate) fn reference_list(&self) -> (r: &Option<Vec<usize>>)
        ensures
            selection_view(*r) == self.spec_references(),
    {
        &self.references
    }

    /// The endpoint vertex indices of every edge, from the index built by `finalize`.
    pub(crate) fn edge_end_indices(&self) -> (r: &Vec<(usize, usize)>)
        requires
            self.wf(),
            self.spec_finalized(),
        ensures
            r@ == edge_endpoints(vertex_ids(self.spec_vertices()), self.spec_edges()),
    {
        proof {
            let vs = self.vertices@;
            let es = self.edges@;
            let ids = vertex_ids(vs);
            assert forall|e: int| 0 <= e < es.len() implies #[trigger] self.edge_ends@[e]
                == edge_endpoints(ids, es)[e] by {
                let (a, b) = self.edge_ends@[e];
                assert(ids[a as int] == es[e].from_id);
                assert(ids[b as int] == es[e].to_id);
                let ia = index_of_id(ids, es[e].from_id);
                let ib = index_of_id(ids, es[e].to_id);
                assert(ids[ia] == vs[ia].id);
                assert(ids[ib] == vs[ib].id);
                if ia != a {
                    assert(vs[ia].id != vs[a as int].id);
                }
                if ib != b {
                    assert(vs[ib].id != vs[b as int].id);
                }
            }
            assert(self.edge_ends@ =~= edge_endpoints(ids, es));
        }
        &self.edge_ends
    }
}

/// Whether `name` is a path name that can be stored.
fn check_path_name(name: &str) -> (r: bool)
    ensures
        r == valid_path_name(name@),
{
    let n = name.unicode_len();
    if n == 0 {
        return false;
    }
    let mut i: usize = 0;
    while i < n
        invariant
            n == name@.len(),
            i <= n,
            forall|k: int|
                0 <= k < i ==> #[trigger] name@[k] != '\0' && name@[k] != '\t' && name@[k] != '\n'
                    && name@[k] != '\r',
        decreases n - i,
    {
        let c = name.get_char(i);
        if c == '\0' || c == '\t' || c == '\n' || c == '\r' {
            assert(name@[i as int] == c);
            return false;
        }
        i = i + 1;
    }
    true
}

/// Whether `p` is a prefix of `s`.
pub fn has_prefix(s: &str, p: &str) -> (r: bool)
    ensures
        r == p@.is_prefix_of(s@),
{
    let n = s.unicode_len();
    let m = p.unicode_len();
    if m > n {
        return false;
    }
    let mut i: usize = 0;
    while i < m
        invariant
            n == s@.len(),
            m == p@.len(),
            m <= n,
            i <= m,
            forall|k: int| 0 <= k < i ==> p@[k] == s@[k],
        decreases m - i,
    {
        if p.get_char(i) != s.get_char(i) {
            return false;
        }
        i = i + 1;
    }
    true
}

/// Whether `a` and `b` hold the same characters.
pub fn same_text(a: &str, b: &str) -> (r: bool)
    ensures
        r == (a@ == b@),
{
    let n = a.unicode_len();
    if n != b.unicode_len() {
        return false;
    }
    let mut i: usize = 0;
    while i < n
        invariant
            n == a@.len(),
            n == b@.len(),
            i <= n,
            forall|k: int| 0 <= k < i ==> a@[k] == b@[k],
        decreases n - i,
    {
        if a.get_char(i) != b.get_char(i) {
            return false;
        }
        i = i + 1;
    }
    assert(a@ == b@);
    true
}

} // verus!
