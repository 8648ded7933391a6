use povu::vcf::gfa_to_vcf;
use povu::{Error, PovuGraph};

const HEADER: &str = "##fileformat=VCFv4.2\n##INFO=<ID=LV,Number=1,Type=Integer,Description=\"Level in the region tree\">\n#CHROM\tPOS\tID\tREF\tALT\tQUAL\tFILTER\tINFO\n";

const DIAMOND: &str = "S\t1\tACGT\nS\t2\tT\nS\t3\tG\nS\t4\tCCA\n\
L\t1\t+\t2\t+\t0M\nL\t1\t+\t3\t+\t0M\nL\t2\t+\t4\t+\t0M\nL\t3\t+\t4\t+\t0M\n\
P\tref#0#chr1\t1+,2+,4+\t*\nP\tsample#1#chr1\t1+,3+,4+\t*\nP\tother#1#chr1\t1+,3+,4+\t*\n";

#[test]
fn vcf_of_a_snp() {
    let text = gfa_to_vcf(DIAMOND, None).unwrap();
    let expected = format!("{}ref#0#chr1\t1\t>1>4\tACGTTCCA\tACGTGCCA\t.\tPASS\tLV=0\n", HEADER);
    assert_eq!(text, expected);
}

#[test]
fn vcf_with_a_reference_list() {
    let text = gfa_to_vcf(DIAMOND, Some("sample#1#chr1\r\n")).unwrap();
    let expected = format!("{}sample#1#chr1\t1\t>1>4\tACGTGCCA\tACGTTCCA\t.\tPASS\tLV=0\n", HEADER);
    assert_eq!(text, expected);
}

#[test]
fn vcf_of_nested_regions_with_positions_and_levels() {
    // backbone 1 2 3 4 5 with lengths 2,1,1,1,3; 6 replaces 3; 1 -> 5 skips the middle
    let gfa = "S\t1\tAA\nS\t2\tC\nS\t3\tG\nS\t4\tT\nS\t5\tAAA\nS\t6\tC\n\
L\t1\t+\t2\t+\t*\nL\t2\t+\t3\t+\t*\nL\t3\t+\t4\t+\t*\nL\t4\t+\t5\t+\t*\n\
L\t2\t+\t6\t+\t*\nL\t6\t+\t4\t+\t*\nL\t1\t+\t5\t+\t*\n\
P\tref\t1+,2+,3+,4+,5+\t*\nP\talt\t1+,2+,6+,4+,5+\t*\nP\tdel\t1+,5+\t*\n";
    let text = gfa_to_vcf(gfa, Some("ref")).unwrap();
    let expected = format!(
        "{}ref\t1\t>1>5\tAACGTAAA\tAACCTAAA,AAAAA\t.\tPASS\tLV=0\nref\t3\t>2>4\tCGT\tCCT\t.\tPASS\tLV=1\n",
        HEADER
    );
    assert_eq!(text, expected);
}

#[test]
fn vcf_reads_reverse_steps_as_reverse_complement() {
    // the alternative path visits 3 in reverse
    let gfa = "S\t1\tA\nS\t2\tC\nS\t3\tAG\nS\t4\tT\n\
L\t1\t+\t2\t+\t*\nL\t2\t+\t4\t+\t*\nL\t1\t+\t3\t-\t*\nL\t3\t-\t4\t+\t*\n\
P\tref\t1+,2+,4+\t*\nP\talt\t1+,3-,4+\t*\n";
    let text = gfa_to_vcf(gfa, None).unwrap();
    let expected = format!("{}ref\t1\t>1>4\tACT\tACTT\t.\tPASS\tLV=0\n", HEADER);
    assert_eq!(text, expected);
}

#[test]
fn vcf_errors() {
    assert!(matches!(gfa_to_vcf("S\tx\tA\n", None), Err(Error::MalformedLine { line: 1 })));
    let linear = "S\t1\tA\nS\t2\tC\nL\t1\t+\t2\t+\t*\nP\tref\t1+,2+\t*\n";
    assert!(matches!(gfa_to_vcf(linear, None), Err(Error::NoVariationFound)));
    assert!(matches!(gfa_to_vcf(DIAMOND, Some("nobody")), Err(Error::InvalidBackbone)));
}

#[test]
fn write_vcf_needs_the_analysed_graph() {
    let g = PovuGraph::from_gfa(DIAMOND).unwrap();
    let a = g.analyze().unwrap();
    let text = a.write_vcf(&g).unwrap();
    assert!(text.starts_with(HEADER));
    let other = PovuGraph::from_gfa("S\t1\tA\nP\tp\t1+\t*\n").unwrap();
    assert!(matches!(a.write_vcf(&other), Err(Error::AnalysisMismatch)));
    let open = PovuGraph::new(0, 0, 0);
    assert!(matches!(a.write_vcf(&open), Err(Error::NotFinalized)));
}

#[test]
fn references_from_a_list() {
    let mut g = PovuGraph::from_gfa(DIAMOND).unwrap();
    g.set_references_from_list("other#1#chr1\nref#0#chr1\r\n\nref").unwrap();
    assert_eq!(g.references(), Some(vec![0, 2]));
    g.set_references_from_list("").unwrap();
    assert_eq!(g.references(), Some(vec![]));
    g.set_references_from_list("sample#1").unwrap();
    assert_eq!(g.references(), Some(vec![]));
}

#[test]
fn paths_threading_a_region() {
    let g = PovuGraph::from_gfa(DIAMOND).unwrap();
    let a = g.analyze().unwrap();
    assert_eq!(a.threading_paths(&g, 0), vec![0, 1, 2]);
    let h = PovuGraph::from_gfa("S\t1\tA\nS\t2\tC\nS\t3\tG\nS\t4\tT\nL\t1\t+\t2\t+\t*\nL\t1\t+\t3\t+\t*\nL\t2\t+\t4\t+\t*\nL\t3\t+\t4\t+\t*\nP\tref\t1+,2+,4+\t*\nP\tpart\t3+,4+\t*\nP\tback\t4+,1+\t*\n").unwrap();
    let b = h.analyze().unwrap();
    assert_eq!(b.threading_paths(&h, 0), vec![0]);
}
