use mudskipper::annotation::{build_tree, IndexError};
use mudskipper::catalog::TranscriptCatalog;
use mudskipper::exon::{AlignmentBlock, FeatureRecord, Projection, Strand};
use mudskipper::index::ExonIndex;
use mudskipper::persist::{load_tree, save_index};
use mudskipper::pipeline::{process_record, AlignmentRead, RecordOutcome};
use mudskipper::project::project;

fn exon(
    chrom: &[u8],
    start_1based: u64,
    end_1based: u64,
    strand: Option<Strand>,
    tname: &[u8],
    first: bool,
) -> FeatureRecord {
    FeatureRecord {
        feature_type: b"exon".to_vec(),
        seqname: chrom.to_vec(),
        start: start_1based,
        end: end_1based,
        strand,
        transcript_id: Some(tname.to_vec()),
        first_exon: first,
    }
}

/// chr1, transcript T1, forward strand: exon [100,199] at offset 0 and
/// exon [300,399] at offset 100 (zero-based genomic coordinates).
fn example_features() -> Vec<FeatureRecord> {
    vec![
        exon(b"chr1", 101, 200, Some(Strand::Forward), b"T1", true),
        exon(b"chr1", 301, 400, Some(Strand::Forward), b"T1", false),
    ]
}

fn build(features: &Vec<FeatureRecord>) -> (ExonIndex, TranscriptCatalog) {
    build_tree(features).expect("the example annotation builds")
}

fn run(idx: &ExonIndex, cat: &TranscriptCatalog, blocks: Vec<(i32, i32)>, clip: i32, max: i32) -> Vec<Projection> {
    let _ = cat;
    let blocks: Vec<AlignmentBlock> = blocks
        .into_iter()
        .map(|(s, e)| AlignmentBlock { start: s, end: e })
        .collect();
    project(idx, &b"chr1".to_vec(), &blocks, clip, 0, max)
}

#[test]
fn catalog_records_first_seen_order() {
    let (_, cat) = build(&example_features());
    assert_eq!(cat.names, vec![b"T1".to_vec()]);
    assert_eq!(cat.lengths, vec![200]);
}

#[test]
fn transcript_length_is_exon_sum() {
    let mut features = example_features();
    features.push(exon(b"chr2", 1, 50, Some(Strand::Forward), b"T2", true));
    features.push(exon(b"chr2", 101, 130, Some(Strand::Forward), b"T2", false));
    let (_, cat) = build(&features);
    assert_eq!(cat.lengths, vec![200, 80]);
}

#[test]
fn missing_strand_is_skipped_not_fatal() {
    let mut features = example_features();
    features.push(exon(b"chr1", 501, 600, None, b"T9", true));
    let (idx, cat) = build(&features);
    assert_eq!(cat.names.len(), 1);
    assert_eq!(idx.chroms.len(), 1);
    assert_eq!(idx.chroms[0].recs.len(), 2);
}

#[test]
fn non_exon_features_are_ignored() {
    let mut features = example_features();
    let mut gene = exon(b"chr1", 90, 450, Some(Strand::Forward), b"T1", false);
    gene.feature_type = b"gene".to_vec();
    features.push(gene);
    let (idx, cat) = build(&features);
    assert_eq!(cat.lengths, vec![200]);
    assert_eq!(idx.chroms[0].recs.len(), 2);
}

#[test]
fn zero_start_coordinate_is_rejected() {
    let features = vec![exon(b"chr1", 0, 10, Some(Strand::Forward), b"T1", true)];
    assert!(matches!(build_tree(&features), Err(IndexError::BadAnnotation)));
}

#[test]
fn spliced_read_projects_through_intron() {
    let (idx, cat) = build(&example_features());
    let ps = run(&idx, &cat, vec![(150, 199), (300, 320)], 0, 200);
    assert_eq!(ps.len(), 1);
    assert_eq!(ps[0].tid, 0);
    assert_eq!(ps[0].tstart, 50);
    assert_eq!(ps[0].tend, 120);
    assert!(ps[0].forward);
}

#[test]
fn single_block_read_projects_within_exon() {
    let (idx, cat) = build(&example_features());
    let ps = run(&idx, &cat, vec![(150, 199)], 0, 200);
    assert_eq!(ps.len(), 1);
    assert_eq!(
        ps[0],
        Projection { tid: 0, tstart: 50, tend: 99, forward: true }
    );
}

#[test]
fn mismatched_gap_projects_to_nothing() {
    let (idx, cat) = build(&example_features());
    // the second block starts five bases into the exon, not at its start
    let ps = run(&idx, &cat, vec![(150, 199), (305, 320)], 0, 200);
    assert!(ps.is_empty());
    // the first block stops short of the exon end
    let ps = run(&idx, &cat, vec![(150, 190), (300, 320)], 0, 200);
    assert!(ps.is_empty());
}

#[test]
fn splice_gap_selects_the_matching_transcript_only() {
    let mut features = example_features();
    // a second transcript covering the same region in one unbroken exon
    features.push(exon(b"chr1", 91, 451, Some(Strand::Forward), b"T2", true));
    let (idx, cat) = build(&features);
    let ps = run(&idx, &cat, vec![(150, 199), (300, 320)], 0, 200);
    assert_eq!(ps.len(), 1);
    assert_eq!(ps[0].tid, 0);
    // a plain read inside the shared region maps to both transcripts
    let ps = run(&idx, &cat, vec![(150, 199)], 0, 200);
    assert_eq!(ps.len(), 2);
}

#[test]
fn soft_clip_at_the_bound_is_kept_one_past_is_not() {
    let (idx, cat) = build(&example_features());
    let kept = run(&idx, &cat, vec![(150, 199)], 200, 200);
    assert_eq!(kept.len(), 1);
    let rejected = run(&idx, &cat, vec![(150, 199)], 201, 200);
    assert!(rejected.is_empty());
}

#[test]
fn reverse_strand_counts_from_the_transcripts_own_end() {
    // transcript order for a reverse transcript descends the genome
    let features = vec![
        exon(b"chr1", 301, 400, Some(Strand::Reverse), b"R1", true),
        exon(b"chr1", 101, 200, Some(Strand::Reverse), b"R1", false),
    ];
    let (idx, cat) = build(&features);
    let ps = run(&idx, &cat, vec![(150, 199), (300, 320)], 0, 200);
    assert_eq!(ps.len(), 1);
    assert_eq!(
        ps[0],
        Projection { tid: 0, tstart: 79, tend: 149, forward: false }
    );
}

#[test]
fn unknown_chromosome_projects_to_nothing() {
    let (idx, _) = build(&example_features());
    let blocks = vec![AlignmentBlock { start: 150, end: 199 }];
    let ps = project(&idx, &b"chrX".to_vec(), &blocks, 0, 0, 200);
    assert!(ps.is_empty());
}

#[test]
fn persisted_index_reproduces_projections() {
    let (idx, cat) = build(&example_features());
    let artifacts = save_index(&idx, &cat);
    let (idx2, cat2) = load_tree(&artifacts).expect("a saved index loads");
    assert_eq!(cat2.names, cat.names);
    assert_eq!(cat2.lengths, cat.lengths);
    for blocks in [vec![(150, 199), (300, 320)], vec![(150, 199)]] {
        let before = run(&idx, &cat, blocks.clone(), 0, 200);
        let after = run(&idx2, &cat2, blocks, 0, 200);
        assert_eq!(before, after);
    }
}

#[test]
fn saved_artifacts_have_the_documented_shape() {
    let (idx, cat) = build(&example_features());
    let a = save_index(&idx, &cat);
    assert_eq!(a.name_lines, vec![b"T1".to_vec()]);
    assert_eq!(a.len_lines, vec![b"200".to_vec()]);
    assert_eq!(a.map_lines, vec![b"T1\t0".to_vec()]);
    assert_eq!(
        a.exon_lines,
        vec![b"chr1\t100\t199\t0\t0\t+".to_vec(), b"chr1\t300\t399\t0\t100\t+".to_vec()]
    );
}

#[test]
fn corrupted_artifacts_are_fatal() {
    let (idx, cat) = build(&example_features());
    // an exon row naming a transcript id with no catalog entry
    let mut a = save_index(&idx, &cat);
    a.exon_lines[0] = b"chr1\t100\t199\t7\t0\t+".to_vec();
    assert!(matches!(load_tree(&a), Err(IndexError::CorruptedIndex)));
    // a duplicated transcript name
    let mut a = save_index(&idx, &cat);
    a.name_lines.push(b"T1".to_vec());
    assert!(matches!(load_tree(&a), Err(IndexError::CorruptedIndex)));
    // an unreadable strand column
    let mut a = save_index(&idx, &cat);
    a.exon_lines[0] = b"chr1\t100\t199\t0\t0\tx".to_vec();
    assert!(matches!(load_tree(&a), Err(IndexError::CorruptedIndex)));
    // a name-to-id table that contradicts the name list
    let mut a = save_index(&idx, &cat);
    a.map_lines[0] = b"T1\t1".to_vec();
    assert!(matches!(load_tree(&a), Err(IndexError::CorruptedIndex)));
}

#[test]
fn process_record_projects_and_screens_blocks() {
    let (idx, _) = build(&example_features());
    let good = AlignmentRead {
        chrom: b"chr1".to_vec(),
        blocks: vec![
            AlignmentBlock { start: 150, end: 199 },
            AlignmentBlock { start: 300, end: 320 },
        ],
        left_clip: 0,
        right_clip: 0,
        tags: Vec::new(),
    };
    match process_record(&idx, &good, 200) {
        RecordOutcome::Projected(ps) => {
            assert_eq!(ps.len(), 1);
            assert_eq!(ps[0].tstart, 50);
        },
        RecordOutcome::MalformedBlocks => panic!("well-formed blocks were rejected"),
    }
    let bad = AlignmentRead {
        chrom: b"chr1".to_vec(),
        blocks: vec![
            AlignmentBlock { start: 300, end: 320 },
            AlignmentBlock { start: 150, end: 199 },
        ],
        left_clip: 0,
        right_clip: 0,
        tags: Vec::new(),
    };
    assert!(matches!(process_record(&idx, &bad, 200), RecordOutcome::MalformedBlocks));
}

#[test]
fn reload_reproduces_the_index_exactly() {
    let mut features = example_features();
    features.push(exon(b"chr2", 1, 50, Some(Strand::Reverse), b"T2", true));
    let (idx, cat) = build(&features);
    let (idx2, cat2) = mudskipper::persist::reload_index(&idx, &cat)
        .expect("a freshly saved index reloads");
    assert_eq!(cat2.names, cat.names);
    assert_eq!(cat2.lengths, cat.lengths);
    assert_eq!(idx2.chroms.len(), idx.chroms.len());
    for (g1, g2) in idx.chroms.iter().zip(idx2.chroms.iter()) {
        assert_eq!(g1.name, g2.name);
        assert_eq!(g1.recs, g2.recs);
    }
}
