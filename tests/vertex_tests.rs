use povu::{reverse_complement, Vertex};

#[test]
fn test_reverse_complement() {
    assert_eq!(reverse_complement("ACGT"), "ACGT");
    assert_eq!(reverse_complement("AAAA"), "TTTT");
    assert_eq!(reverse_complement("GCGC"), "GCGC");
    assert_eq!(reverse_complement("ATCG"), "CGAT");
}

#[test]
fn test_vertex_rc() {
    let v = Vertex {
        id: 1,
        sequence: "ACGT".to_string(),
    };
    assert_eq!(v.reverse_complement(), "ACGT");
}

#[test]
fn test_vertex_reverse_complement() {
    let v = Vertex {
        id: 1,
        sequence: "ACGTACGT".to_string(),
    };

    let rc = v.reverse_complement();
    assert_eq!(rc, "ACGTACGT");

    let v2 = Vertex {
        id: 2,
        sequence: "AAAA".to_string(),
    };
    assert_eq!(v2.reverse_complement(), "TTTT");
}

#[test]
fn reverse_complement_of_lower_case_n_and_other_characters() {
    assert_eq!(reverse_complement("acgtn"), "NACGT");
    assert_eq!(reverse_complement("AxN"), "NxT");
    assert_eq!(reverse_complement(""), "");
    assert_eq!(reverse_complement("GATTACA"), "TGTAATC");
}

#[test]
fn vertex_length_and_emptiness() {
    let v = Vertex { id: 3, sequence: "ACGTA".to_string() };
    assert_eq!(v.len(), 5);
    assert!(!v.is_empty());
    let e = Vertex { id: 4, sequence: String::new() };
    assert_eq!(e.len(), 0);
    assert!(e.is_empty());
}
