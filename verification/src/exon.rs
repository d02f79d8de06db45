//! Core value types: strands, exon records, annotation feature records,
//! alignment blocks and projections.

use vstd::prelude::*;

verus! {

/// Strand of a transcript on the genome.
#[derive(Clone, Copy, PartialEq, Eq, Structural, Debug)]
pub enum Strand {
    Forward,
    Reverse,
}

/// One exon interval of the genome, tagged with the transcript that owns it
/// and the transcript-relative coordinate of its first base.
///
/// `start` and `end` are zero-based, inclusive genomic coordinates with
/// `start <= end`. `tpos_start` is the cumulative exonic length of the
/// transcript preceding this exon.
#[derive(Clone, Copy, PartialEq, Eq, Structural, Debug)]
pub struct ExonNode {
    pub start: i32,
    pub end: i32,
    pub tid: i32,
    pub tpos_start: i32,
    pub strand: Strand,
}

/// Number of genomic bases the exon covers (intervals are end-inclusive).
pub open spec fn exon_len(e: ExonNode) -> int {
    e.end - e.start + 1
}

/// Well-formed exon record: non-negative inclusive interval, non-negative
/// transcript id and offset, and transcript coordinates that stay within i32.
pub open spec fn exon_wf(e: ExonNode) -> bool {
    &&& 0 <= e.start <= e.end
    &&& 0 <= e.tid
    &&& 0 <= e.tpos_start
    &&& e.tpos_start + exon_len(e) <= i32::MAX
}

/// One annotation feature, already decoded from the external feature reader:
/// only the fields the index builder consumes, with coordinates 1-based and
/// inclusive as the annotation formats define them.
pub struct FeatureRecord {
    pub feature_type: Vec<u8>,
    pub seqname: Vec<u8>,
    pub start: u64,
    pub end: u64,
    pub strand: Option<Strand>,
    pub transcript_id: Option<Vec<u8>>,
    /// True when the record is marked as its transcript's first exon
    /// (an `exon_number` or `exon` attribute equal to `1`).
    pub first_exon: bool,
}

/// One contiguous aligned genomic span of a read, in zero-based inclusive
/// genomic coordinates.
#[derive(Clone, Copy, PartialEq, Eq, Structural, Debug)]
pub struct AlignmentBlock {
    pub start: i32,
    pub end: i32,
}

/// One transcript-relative placement of a read: the transcript id and the
/// zero-based inclusive transcript coordinates of the read's aligned span,
/// with `forward` telling whether the owning transcript lies on the forward
/// strand.
#[derive(Clone, Copy, PartialEq, Eq, Structural, Debug)]
pub struct Projection {
    pub tid: i32,
    pub tstart: i32,
    pub tend: i32,
    pub forward: bool,
}

} // verus!
