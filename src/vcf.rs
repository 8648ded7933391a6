//! Variant records (VCF text) for the regions of an analysis: for each region,
//! the backbone allele, the distinct alleles of the other paths that traverse
//! it, its position on the backbone and its level in the region tree.
use vstd::prelude::*;
use vstd::string::StrSliceExecFns;

use crate::analysis::{backbone_of, backbone_too_long, depth_of, describes, GraphAnalysis};
use crate::decompose::{is_closure, is_region, Interval, Span};
use crate::gfa::{built_from, contents_of, contents_resolved, lines_of, listed, records_of, GraphContents};
use crate::model::model_spans;
use crate::graph::path_steps;
use crate::error::{Error, Result};
use crate::graph::{
    flagged, has_id, ids_unique, path_resolves, path_views, same_text, vertex_ids, vertex_views,
    view_ids, view_steps, PovuGraph,
};
use crate::model::index_of_id;
use crate::path::{Orientation, Path, Step};
use crate::text::{decimal, push_char, push_decimal, push_str};
use crate::vertex::{rev_comp, reverse_complement, Vertex};

verus! {

/// The sequence read when visiting a step: the vertex's sequence, reverse
/// complemented for a reverse visit.
pub open spec fn oriented_seq(vv: Seq<(u64, Seq<char>)>, st: Step) -> Seq<char> {
    let s = vv[index_of_id(view_ids(vv), st.vertex_id)].1;
    match st.orientation {
        Orientation::Forward => s,
        Orientation::Reverse => rev_comp(s),
    }
}

/// The sequence spelled by a walk over the vertices `vv` (ID, sequence).
pub open spec fn walk_seq(vv: Seq<(u64, Seq<char>)>, steps: Seq<Step>) -> Seq<char>
    decreases steps.len(),
{
    if steps.len() == 0 {
        Seq::empty()
    } else {
        walk_seq(vv, steps.drop_last()) + oriented_seq(vv, steps.last())
    }
}

/// `i` is the first index at or after `from` where `steps` has `x`.
pub open spec fn is_first_from(steps: Seq<Step>, x: Step, from: int, i: int) -> bool {
    &&& from <= i < steps.len()
    &&& steps[i] == x
    &&& forall|j: int| from <= j < i ==> steps[j] != x
}

/// The first index at or after `from` where `steps` has `x`.
pub open spec fn first_from(steps: Seq<Step>, x: Step, from: int) -> Option<int> {
    if exists|i: int| is_first_from(steps, x, from, i) {
        Some(choose|i: int| is_first_from(steps, x, from, i))
    } else {
        None
    }
}

/// The first traversal of a region by a walk: from its first visit of `start`
/// to the next visit of `end`, both included.
pub open spec fn traversal(steps: Seq<Step>, start: Step, end: Step) -> Option<Seq<Step>> {
    match first_from(steps, start, 0) {
        Some(a) => match first_from(steps, end, a + 1) {
            Some(b) => Some(steps.subrange(a, b + 1)),
            None => None,
        },
        None => None,
    }
}

/// The alternative alleles of a region among the first `k` paths: each path
/// but the backbone `bb` that traverses the region adds its allele, unless it
/// is the backbone allele `reference` or already listed.
pub open spec fn alt_alleles(
    vv: Seq<(u64, Seq<char>)>,
    pv: Seq<(Seq<char>, Seq<Step>)>,
    bb: int,
    start: Step,
    end: Step,
    reference: Seq<char>,
    k: nat,
) -> Seq<Seq<char>>
    decreases k,
{
    if k == 0 {
        Seq::empty()
    } else {
        let prev = alt_alleles(vv, pv, bb, start, end, reference, (k - 1) as nat);
        if k - 1 == bb {
            prev
        } else {
            match traversal(pv[k - 1].1, start, end) {
                Some(t) => {
                    let allele = walk_seq(vv, t);
                    if allele == reference || prev.contains(allele) {
                        prev
                    } else {
                        prev.push(allele)
                    }
                },
                None => prev,
            }
        }
    }
}

/// Alleles separated by commas; `.` when there is none.
pub open spec fn join_alleles(als: Seq<Seq<char>>) -> Seq<char>
    decreases als.len(),
{
    if als.len() == 0 {
        seq!['.']
    } else if als.len() == 1 {
        als[0]
    } else {
        join_alleles(als.drop_last()) + seq![','] + als.last()
    }
}

/// A boundary step as a record ID part: `>` or `<` for the orientation, then the vertex ID.
pub open spec fn step_label(st: Step) -> Seq<char> {
    seq![
        match st.orientation {
            Orientation::Forward => '>',
            Orientation::Reverse => '<',
        },
    ] + decimal(st.vertex_id as nat)
}

/// The fixed columns after ALT: no quality, the filter passed, and the level.
pub open spec fn info_prefix() -> Seq<char> {
    seq!['\t', '.', '\t', 'P', 'A', 'S', 'S', '\t', 'L', 'V', '=']
}

/// The VCF header.
pub open spec fn header() -> Seq<char> {
    "##fileformat=VCFv4.2\n##INFO=<ID=LV,Number=1,Type=Integer,Description=\"Level in the region tree\">\n#CHROM\tPOS\tID\tREF\tALT\tQUAL\tFILTER\tINFO\n"@
}

/// The record of region `i` of `a`, on the graph with vertices `vv` (ID,
/// sequence) and paths `pv` (name, steps).
pub open spec fn record_line(
    vv: Seq<(u64, Seq<char>)>,
    pv: Seq<(Seq<char>, Seq<Step>)>,
    a: GraphAnalysis,
    i: int,
) -> Seq<char> {
    let bb = a.spec_backbone() as int;
    let w = pv[bb].1;
    let r = a.spec_tree().spec_regions()[i];
    let reference = walk_seq(vv, w.subrange(r.start_position as int, r.end_position + 1));
    let pos = walk_seq(vv, w.take(r.start_position as int)).len() + 1;
    pv[bb].0 + seq!['\t'] + decimal(pos) + seq!['\t'] + step_label(r.start) + step_label(r.end)
        + seq!['\t'] + reference + seq!['\t'] + join_alleles(
        alt_alleles(vv, pv, bb, r.start, r.end, reference, pv.len()),
    ) + info_prefix() + decimal(depth_of(a.spec_tree().spec_parents(), i)) + seq!['\n']
}

/// The records of the first `n` regions.
pub open spec fn records_text(
    vv: Seq<(u64, Seq<char>)>,
    pv: Seq<(Seq<char>, Seq<Step>)>,
    a: GraphAnalysis,
    n: nat,
) -> Seq<char>
    decreases n,
{
    if n == 0 {
        Seq::empty()
    } else {
        records_text(vv, pv, a, (n - 1) as nat) + record_line(vv, pv, a, n - 1)
    }
}

/// The regions of `a` lie on the backbone of the graph with paths `pv`.
pub open spec fn fits(pv: Seq<(Seq<char>, Seq<Step>)>, a: GraphAnalysis) -> bool {
    let bb = a.spec_backbone() as int;
    &&& 0 <= bb < pv.len()
    &&& forall|i: int|
        0 <= i < a.spec_tree().spec_regions().len() ==> {
            let r = #[trigger] a.spec_tree().spec_regions()[i];
            r.start_position < r.end_position < pv[bb].1.len()
        }
}

/// The index of the vertex with ID `id`, which the graph has.
fn index_in(vs: &Vec<Vertex>, id: u64) -> (r: usize)
    requires
        ids_unique(vs@),
        has_id(vs@, id),
    ensures
        r == index_of_id(vertex_ids(vs@), id),
        r < vs@.len(),
{
    let mut i: usize = 0;
    while i < vs.len()
        invariant
            i <= vs@.len(),
            has_id(vs@, id),
            ids_unique(vs@),
            forall|k: int| 0 <= k < i ==> (#[trigger] vs@[k]).id != id,
        decreases vs@.len() - i,
    {
        if vs[i].id == id {
            proof {
                let c = index_of_id(vertex_ids(vs@), id);
                assert(vertex_ids(vs@)[i as int] == id);
                assert(vertex_ids(vs@)[c] == vs@[c].id);
                if c != i {
                    assert(vs@[c].id != vs@[i as int].id);
                }
            }
            return i;
        }
        i = i + 1;
    }
    proof {
        let c = choose|c: int| 0 <= c < vs@.len() && (#[trigger] vs@[c]).id == id;
    }
    0
}

/// Append the sequence read at step `st`.
fn push_oriented(out: &mut String, vs: &Vec<Vertex>, st: Step)
    requires
        ids_unique(vs@),
        has_id(vs@, st.vertex_id),
    ensures
        final(out)@ == old(out)@ + oriented_seq(vertex_views(vs@), st),
{
    let i = index_in(vs, st.vertex_id);
    match st.orientation {
        Orientation::Forward => push_str(out, vs[i].sequence.as_str()),
        Orientation::Reverse => {
            let rc = reverse_complement(vs[i].sequence.as_str());
            push_str(out, rc.as_str());
        },
    }
}

/// Every step of `steps` visits a vertex of `vs`.
pub open spec fn steps_resolve(vs: Seq<Vertex>, steps: Seq<Step>) -> bool {
    forall|k: int| 0 <= k < steps.len() ==> has_id(vs, (#[trigger] steps[k]).vertex_id)
}

/// Append the sequence spelled by `steps[a..b]`.
fn push_walk(out: &mut String, vs: &Vec<Vertex>, steps: &Vec<Step>, a: usize, b: usize)
    requires
        ids_unique(vs@),
        steps_resolve(vs@, steps@),
        a <= b <= steps@.len(),
    ensures
        final(out)@ == old(out)@ + walk_seq(vertex_views(vs@), steps@.subrange(a as int, b as int)),
{
    let mut k = a;
    proof {
        assert(steps@.subrange(a as int, a as int) =~= Seq::<Step>::empty());
        assert(out@ =~= old(out)@ + walk_seq(vertex_views(vs@), steps@.subrange(a as int, a as int)));
    }
    while k < b
        invariant
            a <= k <= b <= steps@.len(),
            ids_unique(vs@),
            steps_resolve(vs@, steps@),
            out@ == old(out)@ + walk_seq(vertex_views(vs@), steps@.subrange(a as int, k as int)),
        decreases b - k,
    {
        proof {
            assert(steps@.subrange(a as int, k + 1).drop_last() == steps@.subrange(a as int, k as int));
            assert(steps@.subrange(a as int, k + 1).last() == steps@[k as int]);
            assert(has_id(vs@, steps@[k as int].vertex_id));
        }
        push_oriented(out, vs, steps[k]);
        k = k + 1;
        assert(out@ =~= old(out)@ + walk_seq(vertex_views(vs@), steps@.subrange(a as int, k as int)));
    }
}

proof fn lemma_walk_len_monotone(vv: Seq<(u64, Seq<char>)>, steps: Seq<Step>, j: int, k: int)
    requires
        0 <= j <= k <= steps.len(),
    ensures
        walk_seq(vv, steps.take(j)).len() <= walk_seq(vv, steps.take(k)).len(),
    decreases k - j,
{
    if j < k {
        lemma_walk_len_monotone(vv, steps, j, k - 1);
        assert(steps.take(k).drop_last() == steps.take(k - 1));
    }
}

/// The length of the sequence spelled by `steps[..k]`, when it fits in a `u64`.
fn walk_len(vs: &Vec<Vertex>, steps: &Vec<Step>, k: usize) -> (r: Option<u64>)
    requires
        ids_unique(vs@),
        steps_resolve(vs@, steps@),
        k <= steps@.len(),
    ensures
        match r {
            Some(n) => n == walk_seq(vertex_views(vs@), steps@.take(k as int)).len(),
            None => walk_seq(vertex_views(vs@), steps@.take(k as int)).len() > u64::MAX,
        },
{
    let mut total: u64 = 0;
    let mut j: usize = 0;
    while j < k
        invariant
            j <= k <= steps@.len(),
            ids_unique(vs@),
            steps_resolve(vs@, steps@),
            total == walk_seq(vertex_views(vs@), steps@.take(j as int)).len(),
        decreases k - j,
    {
        proof {
            assert(steps@.take(j + 1).drop_last() == steps@.take(j as int));
            assert(steps@.take(j + 1).last() == steps@[j as int]);
            assert(has_id(vs@, steps@[j as int].vertex_id));
        }
        let i = index_in(vs, steps[j].vertex_id);
        let n = vs[i].sequence.as_str().unicode_len();
        let ghost n_seen = oriented_seq(vertex_views(vs@), steps@[j as int]).len();
        assert(n_seen == n);
        if n as u64 > u64::MAX - total {
            proof {
                lemma_walk_len_monotone(vertex_views(vs@), steps@, j + 1, k as int);
            }
            return None;
        }
        total = total + n as u64;
        j = j + 1;
    }
    Some(total)
}

/// The first index at or after `from` where `steps` has `x`.
fn find_from(steps: &Vec<Step>, x: Step, from: usize) -> (r: Option<usize>)
    ensures
        r matches Some(i) ==> i < steps@.len() && i < usize::MAX,
        match r {
            Some(i) => first_from(steps@, x, from as int) == Some(i as int),
            None => first_from(steps@, x, from as int) is None,
        },
{
    let mut i = from;
    while i < steps.len()
        invariant
            from <= i,
            forall|j: int| from <= j < i && j < steps@.len() ==> steps@[j] != x,
        decreases steps@.len() - i,
    {
        if steps[i] == x {
            proof {
                assert(is_first_from(steps@, x, from as int, i as int));
                let c = choose|c: int| is_first_from(steps@, x, from as int, c);
                assert(c == i) by {
                    if c < i {
                        assert(steps@[c] != x);
                    } else if c > i {
                        assert(steps@[i as int] != x);
                    }
                }
            }
            return Some(i);
        }
        i = i + 1;
    }
    proof {
        if exists|c: int| is_first_from(steps@, x, from as int, c) {
            let c = choose|c: int| is_first_from(steps@, x, from as int, c);
            assert(steps@[c] != x);
        }
    }
    None
}

/// The views of a list of strings.
pub open spec fn texts(v: Seq<String>) -> Seq<Seq<char>> {
    v.map_values(|s: String| s@)
}

/// Whether `v` holds the text `x`.
fn holds_text(v: &Vec<String>, x: &String) -> (r: bool)
    ensures
        r == texts(v@).contains(x@),
{
    let mut j: usize = 0;
    while j < v.len()
        invariant
            j <= v@.len(),
            forall|k: int| 0 <= k < j ==> (#[trigger] v@[k])@ != x@,
        decreases v@.len() - j,
    {
        if same_text(v[j].as_str(), x.as_str()) {
            assert(texts(v@)[j as int] == x@);
            return true;
        }
        j = j + 1;
    }
    proof {
        if texts(v@).contains(x@) {
            let k = choose|k: int| 0 <= k < texts(v@).len() && texts(v@)[k] == x@;
            assert(v@[k]@ == x@);
        }
    }
    false
}

/// Every path of `ps` visits only vertices of `vs`.
pub open spec fn paths_resolve(vs: Seq<Vertex>, ps: Seq<Path>) -> bool {
    forall|p: int| 0 <= p < ps.len() ==> steps_resolve(vs, (#[trigger] ps[p]).steps@)
}

/// The alternative alleles of the region from `start` to `end`.
fn collect_alts(
    vs: &Vec<Vertex>,
    ps: &Vec<Path>,
    bb: usize,
    start: Step,
    end: Step,
    reference: &String,
) -> (r: Vec<String>)
    requires
        ids_unique(vs@),
        paths_resolve(vs@, ps@),
    ensures
        texts(r@) == alt_alleles(vertex_views(vs@), path_views(ps@), bb as int, start, end, reference@, ps@.len()),
{
    let mut alts: Vec<String> = Vec::new();
    let mut k: usize = 0;
    while k < ps.len()
        invariant
            k <= ps@.len(),
            ids_unique(vs@),
            paths_resolve(vs@, ps@),
            texts(alts@) == alt_alleles(vertex_views(vs@), path_views(ps@), bb as int, start, end, reference@, k as nat),
        decreases ps@.len() - k,
    {
        if k != bb {
            let steps = &ps[k].steps;
            assert(steps_resolve(vs@, ps@[k as int].steps@));
            if let Some(a) = find_from(steps, start, 0) {
                if let Some(b) = find_from(steps, end, a + 1) {
                    let mut allele = String::new();
                    push_walk(&mut allele, vs, steps, a, b + 1);
                    assert(allele@ =~= walk_seq(vertex_views(vs@), steps@.subrange(a as int, b + 1)));
                    if !same_text(allele.as_str(), reference.as_str()) && !holds_text(&alts, &allele) {
                        let ghost before = alts@;
                        alts.push(allele);
                        assert(texts(alts@) =~= texts(before).push(alts@.last()@));
                    }
                }
            }
        }
        k = k + 1;
    }
    alts
}

/// Append the boundary label of a step.
fn push_label(out: &mut String, st: Step)
    ensures
        final(out)@ == old(out)@ + step_label(st),
{
    match st.orientation {
        Orientation::Forward => push_char(out, '>'),
        Orientation::Reverse => push_char(out, '<'),
    }
    push_decimal(out, st.vertex_id);
    assert(out@ =~= old(out)@ + step_label(st));
}

/// Append alleles separated by commas, or `.` when there is none.
fn push_alleles(out: &mut String, als: &Vec<String>)
    ensures
        final(out)@ == old(out)@ + join_alleles(texts(als@)),
{
    if als.len() == 0 {
        push_char(out, '.');
        return;
    }
    push_str(out, als[0].as_str());
    let ghost t = texts(als@);
    proof {
        assert(t.take(1).len() == 1);
        assert(join_alleles(t.take(1)) == t.take(1)[0]);
    }
    let mut k: usize = 1;
    while k < als.len()
        invariant
            1 <= k <= als@.len(),
            t == texts(als@),
            out@ == old(out)@ + join_alleles(t.take(k as int)),
        decreases als@.len() - k,
    {
        push_char(out, ',');
        push_str(out, als[k].as_str());
        proof {
            assert(t.take(k + 1).drop_last() == t.take(k as int));
            assert(t.take(k + 1).last() == als@[k as int]@);
        }
        k = k + 1;
        assert(out@ =~= old(out)@ + join_alleles(t.take(k as int)));
    }
    assert(t.take(k as int) == t);
}

fn push_info_prefix(out: &mut String)
    ensures
        final(out)@ == old(out)@ + info_prefix(),
{
    push_char(out, '\t');
    push_char(out, '.');
    push_char(out, '\t');
    push_char(out, 'P');
    push_char(out, 'A');
    push_char(out, 'S');
    push_char(out, 'S');
    push_char(out, '\t');
    push_char(out, 'L');
    push_char(out, 'V');
    push_char(out, '=');
    assert(out@ =~= old(out)@ + info_prefix());
}

/// Every region of `a` starts at a backbone offset whose 1-based position fits in a `u64`.
pub open spec fn positions_fit(
    pv: Seq<(Seq<char>, Seq<Step>)>,
    vv: Seq<(u64, Seq<char>)>,
    a: GraphAnalysis,
) -> bool {
    let w = pv[a.spec_backbone() as int].1;
    forall|i: int|
        0 <= i < a.spec_tree().spec_regions().len() ==> walk_seq(
            vv,
            w.take((#[trigger] a.spec_tree().spec_regions()[i]).start_position as int),
        ).len() < u64::MAX
}

impl GraphAnalysis {
    /// Append the record of region `i`, whose entry lies at backbone offset `offset`.
    fn push_record(&self, out: &mut String, vs: &Vec<Vertex>, ps: &Vec<Path>, i: usize, offset: u64)
        requires
            self.wf(),
            ids_unique(vs@),
            paths_resolve(vs@, ps@),
            fits(path_views(ps@), *self),
            i < self.spec_tree().spec_regions().len(),
            offset == walk_seq(
                vertex_views(vs@),
                ps@[self.spec_backbone() as int].steps@.take(
                    self.spec_tree().spec_regions()[i as int].start_position as int,
                ),
            ).len(),
            offset < u64::MAX,
        ensures
            final(out)@ == old(out)@ + record_line(vertex_views(vs@), path_views(ps@), *self, i as int),
    {
        let tree = self.pvst_tree();
        let bb = self.backbone_path();
        let w = &ps[bb].steps;
        let wl = w.len();
        let r = tree.region_of(i);
        assert(r.start_position < r.end_position < w@.len());
        assert(steps_resolve(vs@, w@)) by {
            assert(ps@[bb as int].steps@ == w@);
        }
        let mut reference = String::new();
        push_walk(&mut reference, vs, w, r.start_position, r.end_position + 1);
        assert(reference@ =~= walk_seq(vertex_views(vs@), w@.subrange(r.start_position as int, r.end_position + 1)));
        let alts = collect_alts(vs, ps, bb, r.start, r.end, &reference);
        let depth = tree.depth(i);
        push_str(out, ps[bb].name.as_str());
        push_char(out, '\t');
        push_decimal(out, offset + 1);
        push_char(out, '\t');
        push_label(out, r.start);
        push_label(out, r.end);
        push_char(out, '\t');
        push_str(out, reference.as_str());
        push_char(out, '\t');
        push_alleles(out, &alts);
        push_info_prefix(out);
        push_decimal(out, depth as u64);
        push_char(out, '\n');
        assert(out@ =~= old(out)@ + record_line(vertex_views(vs@), path_views(ps@), *self, i as int));
    }

    /// The VCF text of the analysis of `graph`: the header, then one record
    /// per region in region order. A record holds the backbone path's name,
    /// the 1-based position of the region's entry on the backbone, the two
    /// boundary steps as its ID, the backbone allele (both boundaries
    /// included), the distinct alleles of the other paths that traverse the
    /// region, and the region's level in the tree.
    ///
    /// Fails with `NotFinalized` before `finalize`, with `AnalysisMismatch`
    /// when the regions do not lie on the graph's backbone, and with
    /// `Overflow` when a position does not fit in a `u64`.
    pub fn write_vcf(&self, graph: &PovuGraph) -> (r: Result<String>)
        requires
            self.wf(),
            graph.wf(),
        ensures
            !graph.spec_finalized() ==> (r matches Err(e) && e is NotFinalized),
            graph.spec_finalized() && !fits(path_views(graph.spec_paths()), *self) ==> (r matches Err(e)
                && e is AnalysisMismatch),
            graph.spec_finalized() && fits(path_views(graph.spec_paths()), *self) ==> {
                let vv = vertex_views(graph.spec_vertices());
                let pv = path_views(graph.spec_paths());
                &&& r is Ok <==> positions_fit(pv, vv, *self)
                &&& r matches Ok(t) ==> t@ == header() + records_text(
                    vv,
                    pv,
                    *self,
                    self.spec_tree().spec_regions().len(),
                )
                &&& r matches Err(e) ==> e is Overflow
            },
    {
        if !graph.is_finalized() {
            return Err(Error::NotFinalized);
        }
        proof {
            graph.lemma_wf_facts();
        }
        let vs = graph.vertex_list();
        let ps = graph.path_list();
        let tree = self.pvst_tree();
        let bb = self.backbone_path();
        let n = tree.vertex_count();
        if bb >= ps.len() {
            return Err(Error::AnalysisMismatch);
        }
        let w = &ps[bb].steps;
        let mut i: usize = 0;
        while i < n
            invariant
                i <= n == tree.spec_regions().len(),
                graph.spec_finalized(),
                vs@ == graph.spec_vertices(),
                ps@ == graph.spec_paths(),
                *tree == self.spec_tree(),
                bb == self.spec_backbone(),
                bb < ps@.len(),
                *w == ps@[bb as int].steps,
                forall|j: int|
                    0 <= j < i ==> {
                        let r = #[trigger] tree.spec_regions()[j];
                        r.start_position < r.end_position < w@.len()
                    },
            decreases n - i,
        {
            let r = tree.region_of(i);
            if !(r.start_position < r.end_position && r.end_position < w.len()) {
                return Err(Error::AnalysisMismatch);
            }
            i = i + 1;
        }
        proof {
            assert(paths_resolve(vs@, ps@)) by {
                assert forall|p: int| 0 <= p < ps@.len() implies steps_resolve(
                    vs@,
                    (#[trigger] ps@[p]).steps@,
                ) by {
                    assert(path_resolves(vs@, ps@[p]));
                }
            }
        }
        let mut out = String::new();
        push_str(&mut out, "##fileformat=VCFv4.2\n##INFO=<ID=LV,Number=1,Type=Integer,Description=\"Level in the region tree\">\n#CHROM\tPOS\tID\tREF\tALT\tQUAL\tFILTER\tINFO\n");
        let ghost vsv = vs@;
        let ghost psv = ps@;
        let mut i: usize = 0;
        while i < n
            invariant
                i <= n == tree.spec_regions().len(),
                graph.spec_finalized(),
                vs@ == graph.spec_vertices(),
                ps@ == graph.spec_paths(),
                *tree == self.spec_tree(),
                self.wf(),
                bb == self.spec_backbone(),
                bb < ps@.len(),
                *w == ps@[bb as int].steps,
                vsv == vs@,
                psv == ps@,
                ids_unique(vs@),
                paths_resolve(vs@, ps@),
                fits(path_views(ps@), *self),
                forall|j: int| 0 <= j < i ==> walk_seq(
                    vertex_views(vs@),
                    w@.take((#[trigger] tree.spec_regions()[j]).start_position as int),
                ).len() < u64::MAX,
                out@ == header() + records_text(vertex_views(vsv), path_views(psv), *self, i as nat),
            decreases n - i,
        {
            let r = tree.region_of(i);
            assert(r.start_position < r.end_position < w@.len());
            assert(steps_resolve(vs@, w@)) by {
                assert(ps@[bb as int].steps@ == w@);
            }
            let offset = match walk_len(vs, w, r.start_position) {
                Some(x) => x,
                None => {
                    return Err(Error::Overflow);
                },
            };
            if offset == u64::MAX {
                return Err(Error::Overflow);
            }
            self.push_record(&mut out, vs, ps, i, offset);
            i = i + 1;
        }
        Ok(out)
    }
}

/// The view of an optional list.
pub open spec fn list_view(references: Option<&str>) -> Option<Seq<char>> {
    match references {
        Some(l) => Some(l@),
        None => None,
    }
}

/// The references that a list of names selects among the paths of `c`;
/// `None` without a list.
pub open spec fn list_selection(c: GraphContents, refs: Option<Seq<char>>) -> Option<Seq<usize>> {
    match refs {
        None => None,
        Some(l) => Some(flagged(Seq::new(c.paths.len(), |i: int| listed(l, c.paths[i].0)))),
    }
}

/// The backbone of the graph with contents `c` under the list `refs`.
pub open spec fn chosen_backbone(c: GraphContents, refs: Option<Seq<char>>) -> Option<usize> {
    backbone_of(view_steps(c.paths), list_selection(c, refs))
}

/// The spans of the graph with contents `c`, seen from path `b`.
pub open spec fn contents_spans(c: GraphContents, b: int) -> Seq<Span> {
    model_spans(view_ids(c.vertices), c.edges, view_steps(c.paths)[b])
}

/// Every region of `spans` enters the backbone `b` of `c` at a 1-based
/// position that fits in a `u64`.
pub open spec fn regions_fit(c: GraphContents, b: int, spans: Seq<Span>) -> bool {
    forall|r: Interval|
        #[trigger] is_region(spans, r) ==> walk_seq(c.vertices, c.paths[b].1.take((r.lo / 2) as int)).len()
            < u64::MAX
}

/// `t` is the VCF text of an analysis `a` of the graph with contents `c`
/// along backbone `b`.
pub open spec fn vcf_of(c: GraphContents, b: int, a: GraphAnalysis, t: Seq<char>) -> bool {
    &&& a.spec_backbone() == b
    &&& describes(a, view_ids(c.vertices), c.edges, view_steps(c.paths)[b])
    &&& t == header() + records_text(c.vertices, c.paths, a, a.spec_tree().spec_regions().len())
}

proof fn lemma_fit(c: GraphContents, b: int, a: GraphAnalysis)
    requires
        a.spec_backbone() == b,
        describes(a, view_ids(c.vertices), c.edges, view_steps(c.paths)[b]),
        0 <= b < c.paths.len(),
    ensures
        positions_fit(c.paths, c.vertices, a) <==> regions_fit(c, b, contents_spans(c, b)),
{
    let spans = contents_spans(c, b);
    let rs = a.spec_tree().spec_regions();
    let bounds = a.spec_tree().spec_bounds();
    assert(view_steps(c.paths)[b] == c.paths[b].1);
    if positions_fit(c.paths, c.vertices, a) {
        assert forall|r: Interval| #[trigger] is_region(spans, r) implies walk_seq(
            c.vertices,
            c.paths[b].1.take((r.lo / 2) as int),
        ).len() < u64::MAX by {
            let k = choose|k: int|
                0 <= k < spans.len() && (#[trigger] spans[k]).seed && is_closure(
                    spans,
                    spans[k],
                    r.lo as int,
                    r.hi as int,
                );
            assert(bounds.contains(Interval { lo: r.lo as int as usize, hi: r.hi as int as usize }));
            let i = choose|i: int| 0 <= i < bounds.len() && bounds[i] == r;
            assert(bounds[i] == rs[i].bounds());
            assert(rs[i].start_position == r.lo / 2);
        }
    }
    if regions_fit(c, b, spans) {
        assert forall|i: int| 0 <= i < rs.len() implies walk_seq(
            c.vertices,
            c.paths[b].1.take((#[trigger] rs[i]).start_position as int),
        ).len() < u64::MAX by {
            assert(bounds[i] == rs[i].bounds());
            assert(is_region(spans, bounds[i]));
            assert(rs[i].start_position == bounds[i].lo / 2);
        }
    }
}

/// The VCF text of GFA text: load the graph, select the references named
/// one per line in `references` (every path is a candidate without a list),
/// analyse it and write the records of its regions.
///
/// Each failure comes exactly when its cause holds, checked in this order:
/// a malformed line; a repeated segment ID or an invalid path name; an edge
/// or step naming no segment; no candidate path with a step; a backbone too
/// long for its end coordinates; no variation along the backbone; a position
/// beyond `u64`. Otherwise it succeeds.
pub fn gfa_to_vcf(gfa: &str, references: Option<&str>) -> (r: Result<String>)
    ensures
        (r matches Err(e) && e is MalformedLine) <==> records_of(lines_of(gfa@)) is None,
        records_of(lines_of(gfa@)) matches Some(rs) ==> {
            &&& (r matches Err(e) && (e is DuplicateVertex || e is InvalidPathName)) <==> built_from(
                rs,
            ) is None
            &&& built_from(rs) matches Some(c) ==> {
                &&& (r matches Err(e) && (e is DanglingEdge || e is DanglingStep))
                    <==> !contents_resolved(c)
                &&& contents_resolved(c) ==> {
                    &&& (r matches Err(e) && e is InvalidBackbone) <==> chosen_backbone(
                        c,
                        list_view(references),
                    ) is None
                    &&& chosen_backbone(c, list_view(references)) matches Some(b) ==> {
                        let spans = contents_spans(c, b as int);
                        &&& backbone_too_long(view_steps(c.paths)[b as int]) ==> (r matches Err(e)
                            && e is Overflow)
                        &&& !backbone_too_long(view_steps(c.paths)[b as int]) ==> {
                            &&& (r matches Err(e) && e is NoVariationFound) <==> forall|i: int|
                                0 <= i < spans.len() ==> !(#[trigger] spans[i]).seed
                            &&& (exists|i: int| 0 <= i < spans.len() && (#[trigger] spans[i]).seed)
                                ==> {
                                &&& (r matches Err(e) && e is Overflow) <==> !regions_fit(
                                    c,
                                    b as int,
                                    spans,
                                )
                                &&& regions_fit(c, b as int, spans) ==> (r matches Ok(t) && exists|
                                    a: GraphAnalysis,
                                | #[trigger] vcf_of(c, b as int, a, t@))
                            }
                        }
                    }
                }
            }
        },
{
    let mut g = match PovuGraph::from_gfa(gfa) {
        Ok(g) => g,
        Err(e) => {
            return Err(e);
        },
    };
    let ghost c = contents_of(g.spec_vertices(), g.spec_edges(), g.spec_paths());
    proof {
        g.lemma_wf_facts();
        crate::gfa::lemma_resolved_contents(g.spec_vertices(), g.spec_edges(), g.spec_paths());
    }
    if let Some(list) = references {
        let _ = g.set_references_from_list(list);
        proof {
            assert(Seq::new(c.paths.len(), |i: int| listed(list@, c.paths[i].0)) =~= Seq::new(
                g.spec_paths().len(),
                |i: int| listed(list@, g.spec_paths()[i].name@),
            ));
        }
    }
    assert(g.spec_references() == list_selection(c, list_view(references)));
    let a = match g.analyze() {
        Ok(a) => a,
        Err(e) => {
            proof {
                if let Some(b) = chosen_backbone(c, list_view(references)) {
                    assert(contents_spans(c, b as int) == model_spans(
                        vertex_ids(g.spec_vertices()),
                        g.spec_edges(),
                        path_steps(g.spec_paths())[b as int],
                    ));
                }
            }
            return Err(e);
        },
    };
    let ghost b = a.spec_backbone();
    proof {
        lemma_fit(c, b as int, a);
    }
    let t = match a.write_vcf(&g) {
        Ok(t) => t,
        Err(e) => {
            return Err(e);
        },
    };
    proof {
        assert(vcf_of(c, b as int, a, t@));
    }
    Ok(t)
}
/// The paths of `pv` that traverse the region from `start` to `end`.
pub open spec fn threads(pv: Seq<(Seq<char>, Seq<Step>)>, p: int, start: Step, end: Step) -> bool {
    traversal(pv[p].1, start, end) is Some
}

impl GraphAnalysis {
    /// The paths of `graph` that traverse region `node`: each visits the
    /// region's entry step and, later, its exit step. Listed in path order.
    pub fn threading_paths(&self, graph: &PovuGraph, node: usize) -> (r: Vec<usize>)
        requires
            node < self.spec_tree().spec_regions().len(),
        ensures
            forall|j: int| 0 <= j < r@.len() ==> (#[trigger] r@[j]) < graph.spec_paths().len(),
            forall|j: int, k: int| 0 <= j < k < r@.len() ==> #[trigger] r@[j] < #[trigger] r@[k],
            forall|p: int|
                0 <= p < graph.spec_paths().len() ==> (#[trigger] r@.contains(p as usize) <==> threads(
                    path_views(graph.spec_paths()),
                    p,
                    self.spec_tree().spec_regions()[node as int].start,
                    self.spec_tree().spec_regions()[node as int].end,
                )),
    {
        let region = self.pvst_tree().region_of(node);
        let start = region.start;
        let end = region.end;
        let ps = graph.path_list();
        let mut r: Vec<usize> = Vec::new();
        let mut k: usize = 0;
        while k < ps.len()
            invariant
                k <= ps@.len(),
                ps@ == graph.spec_paths(),
                node < self.spec_tree().spec_regions().len(),
                start == self.spec_tree().spec_regions()[node as int].start,
                end == self.spec_tree().spec_regions()[node as int].end,
                forall|j: int| 0 <= j < r@.len() ==> (#[trigger] r@[j]) < k,
                forall|j: int, m: int| 0 <= j < m < r@.len() ==> #[trigger] r@[j] < #[trigger] r@[m],
                forall|p: int|
                    0 <= p < ps@.len() ==> (#[trigger] r@.contains(p as usize) <==> (p < k && threads(
                        path_views(ps@),
                        p,
                        start,
                        end,
                    ))),
            decreases ps@.len() - k,
        {
            let steps = &ps[k].steps;
            let mut hit = false;
            if let Some(a) = find_from(steps, start, 0) {
                if let Some(_) = find_from(steps, end, a + 1) {
                    hit = true;
                }
            }
            assert(hit == threads(path_views(ps@), k as int, start, end));
            let ghost old_r = r@;
            if hit {
                r.push(k);
            }
            proof {
                assert forall|p: int| 0 <= p < ps@.len() implies (#[trigger] r@.contains(p as usize)
                    <==> (p < k + 1 && threads(path_views(ps@), p, start, end))) by {
                    if r@.contains(p as usize) {
                        let j = choose|j: int| 0 <= j < r@.len() && r@[j] == p as usize;
                        if j < old_r.len() {
                            assert(old_r[j] == p as usize);
                            assert(old_r.contains(p as usize));
                        }
                    }
                    if p < k && threads(path_views(ps@), p, start, end) {
                        assert(old_r.contains(p as usize));
                        let j = choose|j: int| 0 <= j < old_r.len() && old_r[j] == p as usize;
                        assert(r@[j] == p as usize);
                    }
                    if p == k && hit {
                        assert(r@[r@.len() - 1] == k);
                    }
                }
            }
            k = k + 1;
        }
        r
    }
}

} // verus!
