//! The conversion pipeline's decisions, separated from the threads and I/O
//! that carry them out: batching of the input stream, the choice of barcode
//! and UMI tags, per-record tag extraction, and per-record projection.

use vstd::prelude::*;
use crate::exon::{AlignmentBlock, Projection};
use crate::index::ExonIndex;
use crate::project::{blocks_wf, chrom_recs, no_tid_overlap, valid_projection};

verus! {

/// One decoded alignment record, as the external alignment codec hands it
/// over: its chromosome, its ordered aligned blocks, the leading and
/// trailing soft-clip lengths, and its string tags.
pub struct AlignmentRead {
    pub chrom: Vec<u8>,
    pub blocks: Vec<AlignmentBlock>,
    pub left_clip: i32,
    pub right_clip: i32,
    pub tags: Vec<(Vec<u8>, Vec<u8>)>,
}

/// The barcode tag (first) and UMI tag (second) the single-cell pipeline
/// reads: the error-corrected pair or the raw pair.
pub fn required_tag_names(corrected: bool) -> (r: (Vec<u8>, Vec<u8>))
    ensures
        corrected ==> r.0@ == seq![67u8, 66u8] && r.1@ == seq![85u8, 66u8],
        !corrected ==> r.0@ == seq![67u8, 82u8] && r.1@ == seq![85u8, 82u8],
{
    let mut bc: Vec<u8> = Vec::new();
    let mut umi: Vec<u8> = Vec::new();
    bc.push(67);
    umi.push(85);
    if corrected {
        bc.push(66);
        umi.push(66);
    } else {
        bc.push(82);
        umi.push(82);
    }
    proof {
        if corrected {
            assert(bc@ =~= seq![67u8, 66u8]);
            assert(umi@ =~= seq![85u8, 66u8]);
        } else {
            assert(bc@ =~= seq![67u8, 82u8]);
            assert(umi@ =~= seq![85u8, 82u8]);
        }
    }
    (bc, umi)
}

pub open spec fn tags_view(tags: Seq<(Vec<u8>, Vec<u8>)>) -> Seq<(Seq<u8>, Seq<u8>)> {
    tags.map_values(|t: (Vec<u8>, Vec<u8>)| (t.0@, t.1@))
}

/// First value stored under tag `name`, if any.
pub fn find_tag(tags: &Vec<(Vec<u8>, Vec<u8>)>, name: &Vec<u8>) -> (r: Option<usize>)
    ensures
        match r {
            Some(i) => i < tags@.len() && tags@[i as int].0@ == name@ && forall|j: int|
                0 <= j < i ==> tags@[j].0@ != name@,
            None => forall|j: int| 0 <= j < tags@.len() ==> tags@[j].0@ != name@,
        },
{
    let mut i: usize = 0;
    while i < tags.len()
        invariant
            0 <= i <= tags@.len(),
            forall|j: int| 0 <= j < i ==> tags@[j].0@ != name@,
        decreases tags@.len() - i,
    {
        if crate::bytes::bytes_eq(tags[i].0.as_slice(), name.as_slice()) {
            return Some(i);
        }
        i = i + 1;
    }
    None
}

/// Whether every block is a proper genomic interval and the blocks ascend
/// with gaps between them.
pub fn check_blocks(blocks: &Vec<AlignmentBlock>) -> (r: bool)
    ensures
        r == blocks_wf(blocks@),
{
    let mut i: usize = 0;
    while i < blocks.len()
        invariant
            0 <= i <= blocks@.len(),
            forall|k: int| 0 <= k < i ==> 0 <= (#[trigger] blocks@[k]).start <= blocks@[k].end,
            forall|k: int| 0 < k < i ==> blocks@[k - 1].end < (#[trigger] blocks@[k]).start,
        decreases blocks@.len() - i,
    {
        let b = blocks[i];
        if !(0 <= b.start && b.start <= b.end) {
            return false;
        }
        if i > 0 && blocks[i - 1].end >= b.start {
            return false;
        }
        i = i + 1;
    }
    true
}

/// What one record contributes to the output stream.
pub enum RecordOutcome {
    /// The record's projections; empty when no transcript is compatible.
    Projected(Vec<Projection>),
    /// The record's blocks are not a plausible alignment and it is skipped.
    MalformedBlocks,
}

/// Projects one record: a record without blocks or with malformed blocks is
/// skipped; otherwise the projector answers, with its exactness guarantees.
pub fn process_record(idx: &ExonIndex, read: &AlignmentRead, max_soft_clip: i32) -> (r:
    RecordOutcome)
    requires
        idx.wf(),
    ensures
        match r {
            RecordOutcome::Projected(ps) => {
                &&& blocks_wf(read.blocks@) && read.blocks@.len() >= 1
                &&& forall|p: Projection|
                    #[trigger] ps@.contains(p) ==> read.left_clip <= max_soft_clip
                        && read.right_clip <= max_soft_clip && valid_projection(
                        chrom_recs(*idx, read.chrom@),
                        read.blocks@,
                        p,
                    )
                &&& no_tid_overlap(chrom_recs(*idx, read.chrom@)) ==> forall|p: Projection|
                    (read.left_clip <= max_soft_clip && read.right_clip <= max_soft_clip
                        && valid_projection(
                        chrom_recs(*idx, read.chrom@),
                        read.blocks@,
                        p,
                    )) ==> #[trigger] ps@.contains(p)
            },
            RecordOutcome::MalformedBlocks => !(blocks_wf(read.blocks@) && read.blocks@.len() >= 1),
        },
{
    if read.blocks.len() == 0 || !check_blocks(&read.blocks) {
        return RecordOutcome::MalformedBlocks;
    }
    let ps = crate::project::project(
        idx,
        &read.chrom,
        &read.blocks,
        read.left_clip,
        read.right_clip,
        max_soft_clip,
    );
    RecordOutcome::Projected(ps)
}

/// Splits `n` records into consecutive batches of at most `batch` records:
/// the batches tile `[0, n)` in order, each non-empty.
pub fn batch_bounds(n: usize, batch: usize) -> (r: Vec<(usize, usize)>)
    requires
        batch >= 1,
    ensures
        n == 0 ==> r@.len() == 0,
        n > 0 ==> r@.len() >= 1 && r@[0].0 == 0 && r@[r@.len() - 1].1 == n,
        forall|i: int| 0 <= i < r@.len() ==> (#[trigger] r@[i]).0 < r@[i].1 <= n,
        forall|i: int| 0 < i < r@.len() ==> (#[trigger] r@[i]).0 == r@[i - 1].1,
        forall|i: int| 0 <= i < r@.len() ==> (#[trigger] r@[i]).1 - r@[i].0 <= batch,
{
    let mut r: Vec<(usize, usize)> = Vec::new();
    let mut cur: usize = 0;
    while cur < n
        invariant
            0 <= cur <= n,
            batch >= 1,
            cur == 0 ==> r@.len() == 0,
            cur > 0 ==> r@.len() >= 1 && r@[0].0 == 0 && r@[r@.len() - 1].1 == cur,
            forall|i: int| 0 <= i < r@.len() ==> (#[trigger] r@[i]).0 < r@[i].1 <= cur,
            forall|i: int| 0 < i < r@.len() ==> (#[trigger] r@[i]).0 == r@[i - 1].1,
            forall|i: int| 0 <= i < r@.len() ==> (#[trigger] r@[i]).1 - r@[i].0 <= batch,
        decreases n - cur,
    {
        let next = if n - cur > batch {
            cur + batch
        } else {
            n
        };
        r.push((cur, next));
        cur = next;
    }
    r
}

} // verus!
