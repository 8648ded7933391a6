use povu::{Orientation, Path, Step};

#[test]
fn test_orientation_flip() {
    assert_eq!(Orientation::Forward.flip(), Orientation::Reverse);
    assert_eq!(Orientation::Reverse.flip(), Orientation::Forward);
}

#[test]
fn test_orientation_gfa() {
    assert_eq!(Orientation::Forward.to_gfa_char(), '+');
    assert_eq!(Orientation::Reverse.to_gfa_char(), '-');
    assert_eq!(Orientation::from_gfa_char('+'), Some(Orientation::Forward));
    assert_eq!(Orientation::from_gfa_char('-'), Some(Orientation::Reverse));
    assert_eq!(Orientation::from_gfa_char('x'), None);
}

#[test]
fn test_step_creation() {
    let step = Step::new(42, Orientation::Forward);
    assert_eq!(step.vertex_id, 42);
    assert_eq!(step.orientation, Orientation::Forward);
    assert_eq!(step.to_string(), "42+");
}

#[test]
fn test_step_reverse() {
    let step = Step::new(42, Orientation::Forward);
    let rev = step.reverse();
    assert_eq!(rev.vertex_id, 42);
    assert_eq!(rev.orientation, Orientation::Reverse);
}

#[test]
fn test_path_pansn_parsing() {
    let path = Path::new(
        "HG002#1#chr1".to_string(),
        vec![
            Step::new(1, Orientation::Forward),
            Step::new(2, Orientation::Reverse),
        ],
    );

    assert_eq!(path.sample_name(), Some("HG002"));
    assert_eq!(path.haplotype(), Some("1"));
    assert_eq!(path.contig(), Some("chr1"));
    assert_eq!(path.len(), 2);
}

#[test]
fn test_path_vertex_ids() {
    let path = Path::new(
        "ref".to_string(),
        vec![
            Step::new(1, Orientation::Forward),
            Step::new(2, Orientation::Reverse),
            Step::new(3, Orientation::Forward),
        ],
    );

    let ids: Vec<u64> = path.vertex_ids().into_iter().collect();
    assert_eq!(ids, vec![1, 2, 3]);
}

#[test]
fn step_to_string_of_reverse_and_zero() {
    assert_eq!(Step::new(0, Orientation::Reverse).to_string(), "0-");
    assert_eq!(Step::new(1234567890, Orientation::Forward).to_string(), "1234567890+");
    assert_eq!(Step::new(u64::MAX, Orientation::Reverse).to_string(), "18446744073709551615-");
}

#[test]
fn pansn_fields_when_delimiters_are_missing() {
    let plain = Path::new("ref".to_string(), vec![]);
    assert_eq!(plain.sample_name(), Some("ref"));
    assert_eq!(plain.haplotype(), None);
    assert_eq!(plain.contig(), None);
    assert!(plain.is_empty());

    let two = Path::new("NA12878#2".to_string(), vec![]);
    assert_eq!(two.sample_name(), Some("NA12878"));
    assert_eq!(two.haplotype(), Some("2"));
    assert_eq!(two.contig(), None);

    let more = Path::new("a##c#d".to_string(), vec![]);
    assert_eq!(more.sample_name(), Some("a"));
    assert_eq!(more.haplotype(), Some(""));
    assert_eq!(more.contig(), Some("c"));

    let empty = Path::new(String::new(), vec![]);
    assert_eq!(empty.sample_name(), Some(""));
    assert_eq!(empty.haplotype(), None);
}

#[test]
fn orientation_flip_twice_is_identity() {
    for o in [Orientation::Forward, Orientation::Reverse] {
        assert_eq!(o.flip().flip(), o);
        assert_eq!(Orientation::from_gfa_char(o.to_gfa_char()), Some(o));
    }
}
