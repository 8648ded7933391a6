//! Vertices (sequence fragments) and DNA reverse complement.
use vstd::prelude::*;
use vstd::utf8::encode_utf8;

use crate::text::{chars_of, push_char};

verus! {

/// A vertex in the bidirected pangenome graph: an ID and a DNA sequence.
#[derive(Debug, Clone, PartialEq, Eq)]
pub struct Vertex {
    /// Unique vertex ID
    pub id: u64,
    /// DNA sequence for this vertex
    pub sequence: String,
}

/// The complement of one nucleotide; other characters are kept.
pub open spec fn complement(c: char) -> char {
    if c == 'A' || c == 'a' {
        'T'
    } else if c == 'T' || c == 't' {
        'A'
    } else if c == 'C' || c == 'c' {
        'G'
    } else if c == 'G' || c == 'g' {
        'C'
    } else if c == 'N' || c == 'n' {
        'N'
    } else {
        c
    }
}

/// The reverse complement of a sequence: reversed, each character complemented.
pub open spec fn rev_comp(s: Seq<char>) -> Seq<char> {
    Seq::new(s.len(), |i: int| complement(s[s.len() - 1 - i]))
}

fn complement_char(c: char) -> (r: char)
    ensures
        r == complement(c),
{
    match c {
        'A' | 'a' => 'T',
        'T' | 't' => 'A',
        'C' | 'c' => 'G',
        'G' | 'g' => 'C',
        'N' | 'n' => 'N',
        _ => c,
    }
}

/// Compute the reverse complement of a DNA sequence.
pub fn reverse_complement(seq: &str) -> (r: String)
    ensures
        r@ == rev_comp(seq@),
{
    let cs = chars_of(seq);
    let n = cs.len();
    let mut r = String::new();
    let mut i: usize = 0;
    while i < n
        invariant
            n == seq@.len(),
            cs@ == seq@,
            i <= n,
            r@ == rev_comp(seq@).take(i as int),
        decreases n - i,
    {
        let c = cs[n - 1 - i];
        push_char(&mut r, complement_char(c));
        i = i + 1;
        assert(r@ == rev_comp(seq@).take(i as int));
    }
    assert(r@ == rev_comp(seq@));
    r
}

impl Vertex {
    /// The length of the sequence in bytes.
    pub fn len(&self) -> (r: usize)
        ensures
            r == encode_utf8(self.sequence@).len() as usize,
    {
        self.sequence.as_str().len()
    }

    /// Whether the sequence is empty.
    pub fn is_empty(&self) -> (r: bool)
        ensures
            r == (self.sequence@.len() == 0),
    {
        self.sequence.as_str().is_empty()
    }

    /// The reverse complement of this vertex's sequence.
    pub fn reverse_complement(&self) -> (r: String)
        ensures
            r@ == rev_comp(self.sequence@),
    {
        reverse_complement(self.sequence.as_str())
    }
}

} // verus!
