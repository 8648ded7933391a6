//! Orientations, steps and reference walks (paths).
use vstd::prelude::*;
use vstd::string::StrSliceExecFns;

use crate::text::{decimal, push_char, push_decimal};

verus! {

/// Which end of a vertex is meant: the forward (5') or the reverse (3') end.
#[derive(Debug, Clone, Copy, PartialEq, Eq, Hash, Structural)]
pub enum Orientation {
    /// Forward orientation (left/5' end)
    Forward,
    /// Reverse orientation (right/3' end)
    Reverse,
}

impl Orientation {
    /// The other orientation.
    pub open spec fn flipped(self) -> Orientation {
        match self {
            Orientation::Forward => Orientation::Reverse,
            Orientation::Reverse => Orientation::Forward,
        }
    }

    /// The orientation character used in GFA text.
    pub open spec fn gfa_char(self) -> char {
        match self {
            Orientation::Forward => '+',
            Orientation::Reverse => '-',
        }
    }

    /// Flip the orientation.
    pub fn flip(&self) -> (r: Self)
        ensures
            r == self.flipped(),
            r != *self,
    {
        match self {
            Orientation::Forward => Orientation::Reverse,
            Orientation::Reverse => Orientation::Forward,
        }
    }

    /// Convert to the GFA orientation character.
    pub fn to_gfa_char(&self) -> (c: char)
        ensures
            c == self.gfa_char(),
    {
        match self {
            Orientation::Forward => '+',
            Orientation::Reverse => '-',
        }
    }

    /// Parse a GFA orientation character.
    pub fn from_gfa_char(c: char) -> (r: Option<Self>)
        ensures
            c == '+' ==> r == Some(Orientation::Forward),
            c == '-' ==> r == Some(Orientation::Reverse),
            c != '+' && c != '-' ==> r is None,
    {
        match c {
            '+' => Some(Orientation::Forward),
            '-' => Some(Orientation::Reverse),
            _ => None,
        }
    }
}


/// A step in a path through the graph: one oriented visit of a vertex.
#[derive(Debug, Clone, Copy, PartialEq, Eq, Hash, Structural)]
pub struct Step {
    /// Vertex ID at this step
    pub vertex_id: u64,
    /// Orientation of the vertex
    pub orientation: Orientation,
}

impl Step {
    /// Create a new step.
    pub fn new(vertex_id: u64, orientation: Orientation) -> (r: Self)
        ensures
            r.vertex_id == vertex_id,
            r.orientation == orientation,
    {
        Step { vertex_id, orientation }
    }

    /// The same vertex visited in the other orientation.
    pub fn reverse(&self) -> (r: Self)
        ensures
            r.vertex_id == self.vertex_id,
            r.orientation == self.orientation.flipped(),
    {
        Step { vertex_id: self.vertex_id, orientation: self.orientation.flip() }
    }

    /// The step as GFA writes it: the vertex ID, then `+` or `-`.
    pub fn to_string(&self) -> (r: String)
        ensures
            r@ == decimal(self.vertex_id as nat).push(self.orientation.gfa_char()),
    {
        let mut r = String::new();
        push_decimal(&mut r, self.vertex_id);
        push_char(&mut r, self.orientation.to_gfa_char());
        r
    }
}

/// Position of the first `#` in `s`, or `s.len()` when there is none.
pub open spec fn first_hash(s: Seq<char>) -> nat
    decreases s.len(),
{
    if s.len() == 0 {
        0
    } else if s[0] == '#' {
        0
    } else {
        1 + first_hash(s.drop_first())
    }
}

/// Field `k` of a PanSN name (`sample#haplotype#contig`), the text between the
/// `k`-th and the `k+1`-th `#`; `None` when the name has fewer than `k` of them.
pub open spec fn pansn_field(s: Seq<char>, k: nat) -> Option<Seq<char>>
    decreases k,
{
    let h = first_hash(s);
    if k == 0 {
        Some(s.take(h as int))
    } else if h >= s.len() {
        None
    } else {
        pansn_field(s.skip((h + 1) as int), (k - 1) as nat)
    }
}

proof fn lemma_first_hash_bounds(s: Seq<char>)
    ensures
        first_hash(s) <= s.len(),
        forall|j: int| 0 <= j < first_hash(s) ==> s[j] != '#',
        first_hash(s) < s.len() ==> s[first_hash(s) as int] == '#',
    decreases s.len(),
{
    if s.len() > 0 && s[0] != '#' {
        lemma_first_hash_bounds(s.drop_first());
        assert forall|j: int| 0 <= j < first_hash(s) implies s[j] != '#' by {
            if j > 0 {
                assert(s[j] == s.drop_first()[j - 1]);
            }
        }
    }
}

proof fn lemma_first_hash_unique(s: Seq<char>, i: int)
    requires
        0 <= i <= s.len(),
        forall|j: int| 0 <= j < i ==> s[j] != '#',
        i < s.len() ==> s[i] == '#',
    ensures
        first_hash(s) == i,
    decreases s.len(),
{
    if s.len() > 0 && s[0] != '#' {
        let t = s.drop_first();
        assert forall|j: int| 0 <= j < i - 1 implies t[j] != '#' by {
            assert(t[j] == s[j + 1]);
        }
        if i - 1 < t.len() {
            assert(t[i - 1] == s[i]);
        }
        lemma_first_hash_unique(t, i - 1);
    }
}

/// Index of the first `#` in `s` at or after `from`, or the length of `s`.
fn find_hash(s: &str, from: usize) -> (r: usize)
    requires
        from <= s@.len(),
    ensures
        first_hash(s@.skip(from as int)) + from == r,
        from <= r <= s@.len(),
        r < s@.len() ==> s@[r as int] == '#',
{
    let n = s.unicode_len();
    let mut i = from;
    while i < n && s.get_char(i) != '#'
        invariant
            n == s@.len(),
            from <= i <= n,
            forall|j: int| from <= j < i ==> s@[j] != '#',
        decreases n - i,
    {
        i = i + 1;
    }
    proof {
        let t = s@.skip(from as int);
        assert forall|j: int| 0 <= j < i - from implies t[j] != '#' by {
            assert(t[j] == s@[j + from]);
        }
        if i < n {
            assert(t[i - from] == s@[i as int]);
        }
        lemma_first_hash_unique(t, i - from);
    }
    i
}

/// A copy of a list of steps.
pub fn copy_steps(v: &Vec<Step>) -> (r: Vec<Step>)
    ensures
        r@ == v@,
{
    let mut r: Vec<Step> = Vec::with_capacity(v.len());
    let mut k: usize = 0;
    while k < v.len()
        invariant
            k <= v@.len(),
            r@ == v@.take(k as int),
        decreases v@.len() - k,
    {
        r.push(v[k]);
        k = k + 1;
        assert(r@ == v@.take(k as int));
    }
    assert(r@ == v@);
    r
}

/// A path (reference walk) through the pangenome graph.
///
/// Names follow the PanSN convention `sample#haplotype#contig`.
#[derive(Debug, Clone, PartialEq, Eq)]
pub struct Path {
    /// Path name (e.g., "sample#0#chr1" in PanSN format)
    pub name: String,
    /// Sequence of steps through the graph
    pub steps: Vec<Step>,
}

impl Path {
    /// Create a new path.
    pub fn new(name: String, steps: Vec<Step>) -> (r: Self)
        ensures
            r.name@ == name@,
            r.steps@ == steps@,
    {
        Path { name, steps }
    }

    /// The number of steps in the path.
    pub fn len(&self) -> (r: usize)
        ensures
            r == self.steps@.len(),
    {
        self.steps.len()
    }

    /// Whether the path has no steps.
    pub fn is_empty(&self) -> (r: bool)
        ensures
            r == (self.steps@.len() == 0),
    {
        self.steps.len() == 0
    }

    /// The sample: the part of the name before the first `#`.
    pub fn sample_name(&self) -> (r: Option<&str>)
        ensures
            r is Some,
            r matches Some(f) ==> pansn_field(self.name@, 0) == Some(f@),
    {
        let s = self.name.as_str();
        let h0 = find_hash(s, 0);
        proof {
            assert(self.name@.skip(0) == self.name@);
        }
        Some(s.substring_char(0, h0))
    }

    /// The haplotype: the field after the first `#`, if there is one.
    pub fn haplotype(&self) -> (r: Option<&str>)
        ensures
            r is Some <==> pansn_field(self.name@, 1) is Some,
            r matches Some(f) ==> pansn_field(self.name@, 1) == Some(f@),
    {
        let s = self.name.as_str();
        let n = s.unicode_len();
        let h0 = find_hash(s, 0);
        proof {
            assert(self.name@.skip(0) == self.name@);
        }
        if h0 >= n {
            return None;
        }
        let h1 = find_hash(s, h0 + 1);
        proof {
            let t = s@.skip(h0 + 1);
            assert(pansn_field(t, 0) == Some(t.take(first_hash(t) as int)));
            assert(t.take(first_hash(t) as int) == s@.subrange(h0 + 1, h1 as int));
        }
        Some(s.substring_char(h0 + 1, h1))
    }

    /// The contig: the field after the second `#`, if there is one.
    pub fn contig(&self) -> (r: Option<&str>)
        ensures
            r is Some <==> pansn_field(self.name@, 2) is Some,
            r matches Some(f) ==> pansn_field(self.name@, 2) == Some(f@),
    {
        let s = self.name.as_str();
        let n = s.unicode_len();
        let h0 = find_hash(s, 0);
        proof {
            assert(self.name@.skip(0) == self.name@);
        }
        if h0 >= n {
            return None;
        }
        let h1 = find_hash(s, h0 + 1);
        let ghost t = s@.skip(h0 + 1);
        assert(pansn_field(s@, 2) == pansn_field(t, 1));
        if h1 >= n {
            assert(pansn_field(t, 1) is None);
            return None;
        }
        let h2 = find_hash(s, h1 + 1);
        proof {
            let u = s@.skip(h1 + 1);
            assert(t.skip((first_hash(t) + 1) as int) == u);
            assert(pansn_field(t, 1) == pansn_field(u, 0));
            assert(pansn_field(u, 0) == Some(u.take(first_hash(u) as int)));
            assert(u.take(first_hash(u) as int) == s@.subrange(h1 + 1, h2 as int));
        }
        Some(s.substring_char(h1 + 1, h2))
    }

    /// The vertex IDs visited by the path, in order.
    pub fn vertex_ids(&self) -> (r: Vec<u64>)
        ensures
            r@.len() == self.steps@.len(),
            forall|i: int| 0 <= i < r@.len() ==> r@[i] == self.steps@[i].vertex_id,
    {
        let mut r: Vec<u64> = Vec::with_capacity(self.steps.len());
        for i in 0..self.steps.len()
            invariant
                r@.len() == i,
                forall|j: int| 0 <= j < i ==> r@[j] == self.steps@[j].vertex_id,
        {
            r.push(self.steps[i].vertex_id);
        }
        r
    }
}

/// Flipping twice gives back the orientation, and a flip always changes it.
pub proof fn lemma_orientation_flip_involutive(o: Orientation)
    ensures
        o.flipped().flipped() == o,
        o.flipped() != o,
{
}

} // verus!
