use mudskipper::annotation::{annotation_dialect, AnnotationDialect};
use mudskipper::bytes::{bytes_eq, fmt_u32, parse_u32, split_tabs};
use mudskipper::pipeline::{batch_bounds, required_tag_names};
use mudskipper::rad::{encode_header, EventLogSink};

#[test]
fn decimal_renders_canonically() {
    assert_eq!(fmt_u32(0), b"0".to_vec());
    assert_eq!(fmt_u32(7), b"7".to_vec());
    assert_eq!(fmt_u32(120), b"120".to_vec());
    assert_eq!(fmt_u32(u32::MAX), b"4294967295".to_vec());
}

#[test]
fn decimal_parses_and_rejects() {
    assert_eq!(parse_u32(b"0"), Some(0));
    assert_eq!(parse_u32(b"007"), Some(7));
    assert_eq!(parse_u32(b"4294967295"), Some(u32::MAX));
    assert_eq!(parse_u32(b"4294967296"), None);
    assert_eq!(parse_u32(b""), None);
    assert_eq!(parse_u32(b"12a"), None);
    assert_eq!(parse_u32(b"-1"), None);
}

#[test]
fn decimal_round_trip() {
    for n in [0u32, 1, 9, 10, 99, 100, 1234567, u32::MAX] {
        assert_eq!(parse_u32(fmt_u32(n).as_slice()), Some(n));
    }
}

#[test]
fn tabs_split_fields() {
    let fields = split_tabs(b"chr1\t100\t199");
    assert_eq!(fields.len(), 3);
    assert_eq!(fields[0], b"chr1".to_vec());
    assert_eq!(fields[1], b"100".to_vec());
    assert_eq!(fields[2], b"199".to_vec());
    let trailing = split_tabs(b"a\tb\t");
    assert_eq!(trailing.len(), 3);
    assert_eq!(trailing[2], b"".to_vec());
    let single = split_tabs(b"alone");
    assert_eq!(single.len(), 1);
    assert_eq!(single[0], b"alone".to_vec());
}

#[test]
fn byte_equality() {
    assert!(bytes_eq(b"chr1", b"chr1"));
    assert!(!bytes_eq(b"chr1", b"chr2"));
    assert!(!bytes_eq(b"chr1", b"chr10"));
}

#[test]
fn dialect_from_extension() {
    assert_eq!(annotation_dialect(b"genes.gtf"), AnnotationDialect::Gtf2);
    assert_eq!(annotation_dialect(b"genes.gff3"), AnnotationDialect::Gff3);
    assert_eq!(annotation_dialect(b"genes.gff"), AnnotationDialect::Gff3);
    assert_eq!(annotation_dialect(b"genes.txt"), AnnotationDialect::Gff2);
    assert_eq!(annotation_dialect(b"gtf"), AnnotationDialect::Gtf2);
    assert_eq!(annotation_dialect(b"a.b.gff"), AnnotationDialect::Gff3);
    assert_eq!(annotation_dialect(b"trailingdot."), AnnotationDialect::Gff2);
}

#[test]
fn tag_pairs_by_mode() {
    let (bc, umi) = required_tag_names(true);
    assert_eq!(bc, b"CB".to_vec());
    assert_eq!(umi, b"UB".to_vec());
    let (bc, umi) = required_tag_names(false);
    assert_eq!(bc, b"CR".to_vec());
    assert_eq!(umi, b"UR".to_vec());
}

#[test]
fn batching_tiles_the_stream() {
    let b = batch_bounds(10, 4);
    assert_eq!(b, vec![(0, 4), (4, 8), (8, 10)]);
    let none = batch_bounds(0, 4);
    assert!(none.is_empty());
    let exact = batch_bounds(8, 4);
    assert_eq!(exact, vec![(0, 4), (4, 8)]);
}

#[test]
fn event_log_header_bytes() {
    let lengths = vec![200i32, 161];
    let header = encode_header(16, 12, &lengths);
    let mut expected: Vec<u8> = Vec::new();
    expected.extend_from_slice(&[1, 0, 0, 0]); // version
    expected.extend_from_slice(&[16, 0]); // barcode width
    expected.extend_from_slice(&[12, 0]); // umi width
    expected.extend_from_slice(&[2, 0, 0, 0, 0, 0, 0, 0]); // transcript count
    expected.extend_from_slice(&[200, 0, 0, 0]); // length of transcript 0
    expected.extend_from_slice(&[161, 0, 0, 0]); // length of transcript 1
    assert_eq!(header, expected);
}

#[test]
fn event_log_records_and_flushing() {
    let mut sink = EventLogSink::new(2, 1000);
    let barcode = b"ACGT".to_vec();
    sink.append_chunk_header(&barcode, 2);
    let umi = b"TTAA".to_vec();
    sink.add_sc_record(&umi, &vec![0i32, 3]);
    assert!(!sink.should_flush());
    sink.add_sc_record(&umi, &vec![1i32]);
    assert!(sink.should_flush());
    let chunk = sink.take_chunk();
    let mut expected: Vec<u8> = Vec::new();
    expected.extend_from_slice(b"ACGT");
    expected.extend_from_slice(&[2, 0, 0, 0]); // records in chunk
    expected.extend_from_slice(b"TTAA");
    expected.extend_from_slice(&[2, 0, 0, 0, 0, 0, 0, 0, 3, 0, 0, 0]);
    expected.extend_from_slice(b"TTAA");
    expected.extend_from_slice(&[1, 0, 0, 0, 1, 0, 0, 0]);
    assert_eq!(chunk, expected);
    assert!(!sink.should_flush());
    assert!(sink.take_chunk().is_empty());
}

#[test]
fn event_log_bulk_record() {
    let mut sink = EventLogSink::new(10, 1000);
    sink.add_bulk_record(&vec![5i32]);
    assert_eq!(sink.take_chunk(), vec![1, 0, 0, 0, 5, 0, 0, 0]);
}

#[test]
fn event_log_flushes_on_bytes() {
    let mut sink = EventLogSink::new(1000, 4);
    assert!(!sink.should_flush());
    sink.add_bulk_record(&vec![]);
    assert!(sink.should_flush());
}
