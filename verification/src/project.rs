//! Splice-aware projection of genomic alignments onto transcripts: a read's
//! ordered blocks are matched against a chain of exons of one transcript,
//! every gap between consecutive blocks having to be exactly one intron of
//! that transcript, and the surviving candidates are reported with exact
//! transcript-relative coordinates.

use vstd::prelude::*;
use crate::exon::{exon_len, exon_wf, AlignmentBlock, ExonNode, Projection, Strand};
use crate::index::{ChromGroup, ExonIndex, spec_overlaps};
use crate::annotation::{first_name_match, lemma_first_name_match, lemma_first_name_match_at};

verus! {

/// Blocks are well-formed genomic intervals, ascending and separated.
pub open spec fn blocks_wf(bs: Seq<AlignmentBlock>) -> bool {
    &&& forall|k: int| 0 <= k < bs.len() ==> 0 <= (#[trigger] bs[k]).start <= bs[k].end
    &&& forall|k: int| 0 < k < bs.len() ==> bs[k - 1].end < (#[trigger] bs[k]).start
}

/// `next` continues `prev` in transcript order: on the forward strand its
/// offset starts where `prev` ends, on the reverse strand the other way
/// around.
pub open spec fn splice_adjacent(prev: ExonNode, next: ExonNode) -> bool {
    if prev.strand == Strand::Forward {
        next.tpos_start == prev.tpos_start + exon_len(prev)
    } else {
        prev.tpos_start == next.tpos_start + exon_len(next)
    }
}

/// Conditions on the exon `c[k]` carrying block `k` of a chain `c`: it
/// belongs to the candidate transcript, the first block starts inside it,
/// every block but the last ends exactly at its genomic end (the splice
/// boundary), every block but the first starts exactly at its genomic start,
/// the last block ends inside it, and consecutive chain exons are adjacent in
/// transcript order.
pub open spec fn link_ok(rs: Seq<ExonNode>, bs: Seq<AlignmentBlock>, c: Seq<int>, k: int) -> bool {
    &&& 0 <= c[k] < rs.len()
    &&& rs[c[k]].tid == rs[c[0]].tid
    &&& rs[c[k]].strand == rs[c[0]].strand
    &&& if k == 0 {
        &&& rs[c[0]].start <= bs[0].start <= rs[c[0]].end
        &&& if bs.len() == 1 {
            bs[0].end <= rs[c[0]].end
        } else {
            bs[0].end == rs[c[0]].end
        }
    } else {
        &&& bs[k].start == rs[c[k]].start
        &&& if k == bs.len() - 1 {
            bs[k].end <= rs[c[k]].end
        } else {
            bs[k].end == rs[c[k]].end
        }
    }
    &&& k > 0 ==> splice_adjacent(rs[c[k - 1]], rs[c[k]])
}

/// A chain assigns one exon to every block, with all links in order.
pub open spec fn chain_links(rs: Seq<ExonNode>, bs: Seq<AlignmentBlock>, c: Seq<int>) -> bool {
    &&& bs.len() >= 1
    &&& c.len() == bs.len()
    &&& forall|k: int| 0 <= k < c.len() ==> link_ok(rs, bs, c, k)
}

/// The projection a chain yields. Transcript coordinates are measured from
/// the transcript's own 5' end: on the forward strand the read's start maps
/// through the first chain exon and its end through the last; on the reverse
/// strand the read's genomic end maps to the transcript start.
pub open spec fn projection_of(rs: Seq<ExonNode>, bs: Seq<AlignmentBlock>, c: Seq<int>) -> Projection {
    let e0 = rs[c[0]];
    let el = rs[c.last()];
    if e0.strand == Strand::Forward {
        Projection {
            tid: e0.tid,
            tstart: (e0.tpos_start + bs[0].start - e0.start) as i32,
            tend: (el.tpos_start + bs.last().end - el.start) as i32,
            forward: true,
        }
    } else {
        Projection {
            tid: e0.tid,
            tstart: (el.tpos_start + el.end - bs.last().end) as i32,
            tend: (e0.tpos_start + e0.end - bs[0].start) as i32,
            forward: false,
        }
    }
}

/// `p` is a projection of the read starting from exon `m`.
pub open spec fn valid_from(
    rs: Seq<ExonNode>,
    bs: Seq<AlignmentBlock>,
    m: int,
    p: Projection,
) -> bool {
    exists|c: Seq<int>| chain_links(rs, bs, c) && c[0] == m && p == projection_of(rs, bs, c)
}

/// `p` is a projection of the read against some transcript of the record
/// list.
pub open spec fn valid_projection(rs: Seq<ExonNode>, bs: Seq<AlignmentBlock>, p: Projection) -> bool {
    exists|c: Seq<int>| chain_links(rs, bs, c) && p == projection_of(rs, bs, c)
}

/// Exons of one transcript never overlap each other: the index invariant the
/// projector's completeness rests on.
pub open spec fn no_tid_overlap(rs: Seq<ExonNode>) -> bool {
    forall|i: int, j: int|
        0 <= i < j < rs.len() && (#[trigger] rs[i]).tid == (#[trigger] rs[j]).tid ==> (rs[i].end
            < rs[j].start || rs[j].end < rs[i].start)
}

/// All records are well-formed exons.
pub open spec fn recs_wf(rs: Seq<ExonNode>) -> bool {
    forall|i: int| 0 <= i < rs.len() ==> exon_wf(#[trigger] rs[i])
}

/// Tries to extend the candidate starting at exon `m` through all blocks.
/// Returns the unique projection of that candidate, or `None` when no chain
/// starts at `m`.
fn try_candidate(recs: &Vec<ExonNode>, blocks: &Vec<AlignmentBlock>, m: usize) -> (res: Option<
    Projection,
>)
    requires
        recs_wf(recs@),
        blocks_wf(blocks@),
        blocks@.len() >= 1,
        m < recs@.len(),
    ensures
        match res {
            Some(p) => valid_from(recs@, blocks@, m as int, p) && (no_tid_overlap(recs@)
                ==> forall|p2: Projection| valid_from(recs@, blocks@, m as int, p2) ==> p2 == p),
            None => no_tid_overlap(recs@) ==> forall|p2: Projection|
                !valid_from(recs@, blocks@, m as int, p2),
        },
{
    let e0 = recs[m];
    let b0 = blocks[0];
    let nb = blocks.len();
    let end_ok = if nb == 1 {
        b0.end <= e0.end
    } else {
        b0.end == e0.end
    };
    if !(e0.start <= b0.start && b0.start <= e0.end && end_ok) {
        proof {
            assert forall|p2: Projection| !valid_from(recs@, blocks@, m as int, p2) by {
                if valid_from(recs@, blocks@, m as int, p2) {
                    let c = choose|c: Seq<int>|
                        chain_links(recs@, blocks@, c) && c[0] == m as int && p2 == projection_of(
                            recs@,
                            blocks@,
                            c,
                        );
                    assert(link_ok(recs@, blocks@, c, 0));
                }
            }
        }
        return None;
    }
    let ghost mut chain: Seq<int> = seq![m as int];
    let mut prev: usize = m;
    let mut k: usize = 1;
    proof {
        assert(link_ok(recs@, blocks@, chain, 0));
        assert forall|c2: Seq<int>|
            chain_links(recs@, blocks@, c2) && c2[0] == m as int implies c2.subrange(0, 1)
            == chain by {
            assert(c2.subrange(0, 1) =~= chain);
        }
    }
    while k < nb
        invariant
            1 <= k <= nb,
            nb == blocks@.len(),
            recs_wf(recs@),
            blocks_wf(blocks@),
            m < recs@.len(),
            chain.len() == k,
            chain[0] == m as int,
            chain[k - 1] == prev as int,
            prev < recs@.len(),
            forall|j: int| 0 <= j < k ==> link_ok(recs@, blocks@, chain, j),
            no_tid_overlap(recs@) ==> forall|c2: Seq<int>|
                chain_links(recs@, blocks@, c2) && c2[0] == m as int ==> c2.subrange(0, k as int)
                    == chain,
        decreases nb - k,
    {
        let found = find_link(recs, blocks, m, prev, k);
        match found {
            None => {
                proof {
                    if no_tid_overlap(recs@) {
                        assert forall|p2: Projection|
                            !valid_from(recs@, blocks@, m as int, p2) by {
                            if valid_from(recs@, blocks@, m as int, p2) {
                                let c2 = choose|c2: Seq<int>|
                                    chain_links(recs@, blocks@, c2) && c2[0] == m as int && p2
                                        == projection_of(recs@, blocks@, c2);
                                assert(c2.subrange(0, k as int) == chain);
                                assert(c2[k - 1] == c2.subrange(0, k as int)[k - 1]);
                                assert(c2[k - 1] == prev as int);
                                assert(link_ok(recs@, blocks@, c2, k as int));
                                assert(candidate_matches(
                                    recs@,
                                    blocks@,
                                    m as int,
                                    prev as int,
                                    k as int,
                                    c2[k as int],
                                ));
                            }
                        }
                    }
                }
                return None;
            },
            Some(jf) => {
                proof {
                    assert(candidate_matches(recs@, blocks@, m as int, prev as int, k as int, jf as int));
                    let old_chain = chain;
                    chain = chain.push(jf as int);
                    assert(chain[k as int] == jf as int);
                    assert(chain.subrange(0, k as int) =~= old_chain);
                    assert forall|jx: int| 0 <= jx < k + 1 implies link_ok(
                        recs@,
                        blocks@,
                        chain,
                        jx,
                    ) by {
                        if jx < k {
                            assert(link_ok(recs@, blocks@, old_chain, jx));
                            assert(chain[jx] == old_chain[jx]);
                            if jx > 0 {
                                assert(chain[jx - 1] == old_chain[jx - 1]);
                            }
                        }
                    }
                    if no_tid_overlap(recs@) {
                        assert forall|c2: Seq<int>|
                            chain_links(recs@, blocks@, c2) && c2[0] == m as int implies c2.subrange(
                            0,
                            k + 1,
                        ) == chain by {
                            assert(c2.subrange(0, k as int) == old_chain);
                            assert(link_ok(recs@, blocks@, c2, k as int));
                            assert(c2.subrange(0, k as int)[k - 1] == c2[k - 1]);
                            assert(c2[k - 1] == prev as int);
                            assert(candidate_matches(
                                recs@,
                                blocks@,
                                m as int,
                                prev as int,
                                k as int,
                                c2[k as int],
                            ));
                            lemma_match_unique(
                                recs@,
                                blocks@,
                                m as int,
                                prev as int,
                                k as int,
                                c2[k as int],
                                jf as int,
                            );
                            assert(c2.subrange(0, k + 1) =~= old_chain.push(jf as int));
                        }
                    }
                }
                prev = jf;
                k = k + 1;
            },
        }
    }
    // every block is carried: compute the exact coordinates
    let e_first = recs[m];
    let e_last = recs[prev];
    let b_first = blocks[0];
    let b_last = blocks[nb - 1];
    proof {
        assert(chain_links(recs@, blocks@, chain));
        assert(chain.last() == prev as int);
        assert(link_ok(recs@, blocks@, chain, 0));
        assert(link_ok(recs@, blocks@, chain, nb - 1));
        assert(exon_wf(recs@[m as int]));
        assert(exon_wf(recs@[prev as int]));
    }
    let p: Projection = if e_first.strand == Strand::Forward {
        Projection {
            tid: e_first.tid,
            tstart: e_first.tpos_start + (b_first.start - e_first.start),
            tend: e_last.tpos_start + (b_last.end - e_last.start),
            forward: true,
        }
    } else {
        Projection {
            tid: e_first.tid,
            tstart: e_last.tpos_start + (e_last.end - b_last.end),
            tend: e_first.tpos_start + (e_first.end - b_first.start),
            forward: false,
        }
    };
    proof {
        assert(p == projection_of(recs@, blocks@, chain));
        assert(valid_from(recs@, blocks@, m as int, p));
        if no_tid_overlap(recs@) {
            assert forall|p2: Projection|
                valid_from(recs@, blocks@, m as int, p2) implies p2 == p by {
                let c2 = choose|c2: Seq<int>|
                    chain_links(recs@, blocks@, c2) && c2[0] == m as int && p2 == projection_of(
                        recs@,
                        blocks@,
                        c2,
                    );
                assert(c2.subrange(0, nb as int) == chain);
                assert(c2.subrange(0, nb as int) =~= c2);
            }
        }
    }
    Some(p)
}

/// The conditions the scan checks for the exon carrying block `k`, given the
/// candidate's first exon `m` and the previous chain exon `prev`.
pub open spec fn candidate_matches(
    rs: Seq<ExonNode>,
    bs: Seq<AlignmentBlock>,
    m: int,
    prev: int,
    k: int,
    j: int,
) -> bool {
    &&& 0 <= j < rs.len()
    &&& rs[j].tid == rs[m].tid
    &&& rs[j].strand == rs[m].strand
    &&& rs[j].start == bs[k].start
    &&& if k < bs.len() - 1 {
        rs[j].end == bs[k].end
    } else {
        bs[k].end <= rs[j].end
    }
    &&& splice_adjacent(rs[prev], rs[j])
}

/// Projects a read (its ordered blocks and soft-clip lengths) against every
/// transcript of one chromosome. A read whose leading or trailing soft clip
/// exceeds `max_soft_clip` yields nothing; otherwise the result holds every
/// valid projection (given the index invariant that exons of one transcript
/// never overlap) and nothing else.
pub fn project_in_group(
    g: &ChromGroup,
    blocks: &Vec<AlignmentBlock>,
    left_clip: i32,
    right_clip: i32,
    max_soft_clip: i32,
) -> (r: Vec<Projection>)
    requires
        g.wf(),
        blocks_wf(blocks@),
        blocks@.len() >= 1,
    ensures
        forall|p: Projection|
            #[trigger] r@.contains(p) ==> left_clip <= max_soft_clip && right_clip <= max_soft_clip
                && valid_projection(g.recs@, blocks@, p),
        no_tid_overlap(g.recs@) ==> forall|p: Projection|
            (left_clip <= max_soft_clip && right_clip <= max_soft_clip && valid_projection(
                g.recs@,
                blocks@,
                p,
            )) ==> #[trigger] r@.contains(p),
{
    let mut out: Vec<Projection> = Vec::new();
    if left_clip > max_soft_clip || right_clip > max_soft_clip {
        return out;
    }
    let b0 = blocks[0];
    let cands = g.query(b0.start, b0.end);
    let mut ci: usize = 0;
    while ci < cands.len()
        invariant
            0 <= ci <= cands@.len(),
            g.wf(),
            blocks_wf(blocks@),
            blocks@.len() >= 1,
            b0 == blocks@[0],
            forall|mm: usize|
                #[trigger] cands@.contains(mm) <==> (mm as int) < g.recs@.len() && spec_overlaps(
                    g.recs@[mm as int],
                    b0.start,
                    b0.end,
                ),
            forall|q: Projection| #[trigger] out@.contains(q) ==> valid_projection(
                g.recs@,
                blocks@,
                q,
            ),
            no_tid_overlap(g.recs@) ==> forall|p2: Projection, mi: int|
                #![trigger out@.contains(p2), cands@[mi]]
                0 <= mi < ci && valid_from(g.recs@, blocks@, cands@[mi] as int, p2)
                    ==> out@.contains(p2),
        decreases cands@.len() - ci,
    {
        let m = cands[ci];
        proof {
            assert(cands@.contains(cands@[ci as int]));
        }
        let ghost out_pre = out@;
        let res = try_candidate(&g.recs, blocks, m);
        match res {
            Some(p) => {
                out.push(p);
                proof {
                    assert(out@ =~= out_pre.push(p));
                    assert(valid_from(g.recs@, blocks@, m as int, p));
                    let c = choose|c: Seq<int>|
                        chain_links(g.recs@, blocks@, c) && c[0] == m as int && p == projection_of(
                            g.recs@,
                            blocks@,
                            c,
                        );
                    assert(valid_projection(g.recs@, blocks@, p));
                    assert(out@[out@.len() - 1] == p);
                    assert(out@.contains(p));
                    assert forall|q: Projection| #[trigger] out@.contains(q) implies valid_projection(
                        g.recs@,
                        blocks@,
                        q,
                    ) by {
                        let qi = choose|qi: int| 0 <= qi < out@.len() && out@[qi] == q;
                        if qi < out_pre.len() {
                            assert(out_pre[qi] == q);
                            assert(out_pre.contains(q));
                        } else {
                            assert(q == p);
                        }
                    }
                }
            },
            None => {},
        }
        proof {
            if no_tid_overlap(g.recs@) {
                assert forall|p2: Projection, mi: int|
                    0 <= mi < ci + 1 && valid_from(
                        g.recs@,
                        blocks@,
                        cands@[mi] as int,
                        p2,
                    ) implies out@.contains(p2) by {
                    if mi < ci {
                        assert(out_pre.contains(p2));
                        let qi = choose|qi: int| 0 <= qi < out_pre.len() && out_pre[qi] == p2;
                        assert(out@[qi] == p2);
                        assert(out@.contains(p2));
                    } else {
                        assert(cands@[mi] == m);
                        match res {
                            Some(p) => {
                                assert(p2 == p);
                                assert(out@[out@.len() - 1] == p);
                                assert(out@.contains(p2));
                            },
                            None => {
                                assert(!valid_from(g.recs@, blocks@, m as int, p2));
                                assert(false);
                            },
                        }
                    }
                }
            }
        }
        ci = ci + 1;
    }
    proof {
        if no_tid_overlap(g.recs@) {
            assert forall|p: Projection|
                left_clip <= max_soft_clip && right_clip <= max_soft_clip && valid_projection(
                    g.recs@,
                    blocks@,
                    p,
                ) implies #[trigger] out@.contains(p) by {
                let c = choose|c: Seq<int>|
                    chain_links(g.recs@, blocks@, c) && p == projection_of(g.recs@, blocks@, c);
                let m0 = c[0];
                assert(link_ok(g.recs@, blocks@, c, 0));
                assert(spec_overlaps(g.recs@[m0], b0.start, b0.end));
                assert(cands@.contains(m0 as usize));
                let mi = choose|mi: int| 0 <= mi < cands@.len() && cands@[mi] == m0 as usize;
                assert(valid_from(g.recs@, blocks@, cands@[mi] as int, p));
            }
        }
    }
    out
}

/// The record list the index holds for chromosome `name` (empty when the
/// chromosome is unknown).
pub open spec fn chrom_recs(idx: ExonIndex, name: Seq<u8>) -> Seq<ExonNode> {
    let gi = first_name_match(idx.chrom_names(), name);
    if gi < 0 {
        Seq::empty()
    } else {
        idx.chroms@[gi].recs@
    }
}

/// Projects a read against the whole index: looks the chromosome up and
/// projects within it. A read on an unknown chromosome yields nothing.
pub fn project(
    idx: &ExonIndex,
    chrom: &Vec<u8>,
    blocks: &Vec<AlignmentBlock>,
    left_clip: i32,
    right_clip: i32,
    max_soft_clip: i32,
) -> (r: Vec<Projection>)
    requires
        idx.wf(),
        blocks_wf(blocks@),
        blocks@.len() >= 1,
    ensures
        forall|p: Projection|
            #[trigger] r@.contains(p) ==> left_clip <= max_soft_clip && right_clip <= max_soft_clip
                && valid_projection(chrom_recs(*idx, chrom@), blocks@, p),
        no_tid_overlap(chrom_recs(*idx, chrom@)) ==> forall|p: Projection|
            (left_clip <= max_soft_clip && right_clip <= max_soft_clip && valid_projection(
                chrom_recs(*idx, chrom@),
                blocks@,
                p,
            )) ==> #[trigger] r@.contains(p),
{
    let gi_opt = idx.find_chrom(chrom);
    proof {
        match gi_opt {
            Some(gi) => lemma_first_name_match_at(idx.chrom_names(), chrom@, gi as int),
            None => {
                lemma_first_name_match(idx.chrom_names(), chrom@);
                if first_name_match(idx.chrom_names(), chrom@) >= 0 {
                    assert(false);
                }
            },
        }
    }
    match gi_opt {
        Some(gi) => {
            let g = &idx.chroms[gi];
            proof {
                assert(g.wf());
                assert(chrom_recs(*idx, chrom@) == g.recs@);
            }
            project_in_group(g, blocks, left_clip, right_clip, max_soft_clip)
        },
        None => {
            proof {
                assert(chrom_recs(*idx, chrom@) =~= Seq::<ExonNode>::empty());
                assert forall|p: Projection|
                    !valid_projection(chrom_recs(*idx, chrom@), blocks@, p) by {
                    if valid_projection(chrom_recs(*idx, chrom@), blocks@, p) {
                        let c = choose|c: Seq<int>|
                            chain_links(chrom_recs(*idx, chrom@), blocks@, c) && p
                                == projection_of(chrom_recs(*idx, chrom@), blocks@, c);
                        assert(link_ok(chrom_recs(*idx, chrom@), blocks@, c, 0));
                    }
                }
            }
            Vec::new()
        },
    }
}

/// A single-block read fully contained in one exon projects to that exon's
/// transcript, at the offset of its start within the transcript.
pub proof fn lemma_single_block_projection(rs: Seq<ExonNode>, b: AlignmentBlock, i: int)
    requires
        0 <= i < rs.len(),
        rs[i].start <= b.start,
        b.start <= b.end,
        b.end <= rs[i].end,
    ensures
        valid_projection(rs, seq![b], projection_of(rs, seq![b], seq![i])),
        rs[i].strand == Strand::Forward ==> projection_of(rs, seq![b], seq![i]) == (Projection {
            tid: rs[i].tid,
            tstart: (rs[i].tpos_start + b.start - rs[i].start) as i32,
            tend: (rs[i].tpos_start + b.end - rs[i].start) as i32,
            forward: true,
        }),
{
    let bs = seq![b];
    let c = seq![i];
    assert(link_ok(rs, bs, c, 0));
    assert(chain_links(rs, bs, c));
}

/// For a two-block read, any projection comes from a pair of exons of one
/// transcript whose intron is exactly the gap between the two blocks: the
/// first exon ends where the first block ends, the second starts where the
/// second block starts, and the two are adjacent in transcript order. A read
/// whose gap matches no transcript's intron therefore projects to nothing.
pub proof fn lemma_two_block_splice(rs: Seq<ExonNode>, bs: Seq<AlignmentBlock>, p: Projection)
    requires
        bs.len() == 2,
        valid_projection(rs, bs, p),
    ensures
        exists|i: int, j: int|
            {
                &&& 0 <= i < rs.len() && 0 <= j < rs.len()
                &&& (#[trigger] rs[i]).tid == p.tid && (#[trigger] rs[j]).tid == p.tid
                &&& rs[i].strand == rs[j].strand
                &&& rs[i].start <= bs[0].start && bs[0].end == rs[i].end
                &&& bs[1].start == rs[j].start && bs[1].end <= rs[j].end
                &&& splice_adjacent(rs[i], rs[j])
            },
{
    let c = choose|c: Seq<int>|
        chain_links(rs, bs, c) && p == projection_of(rs, bs, c);
    assert(link_ok(rs, bs, c, 0));
    assert(link_ok(rs, bs, c, 1));
    let i = c[0];
    let j = c[1];
    assert(c.last() == c[1]);
    assert(rs[i].tid == p.tid && rs[j].tid == p.tid && rs[i].strand == rs[j].strand && rs[i].start
        <= bs[0].start && bs[0].end == rs[i].end && bs[1].start == rs[j].start && bs[1].end
        <= rs[j].end && splice_adjacent(rs[i], rs[j]));
}

/// Scans the record list for an exon carrying block `k` of the candidate
/// whose first exon is `m`, continuing from chain exon `prev`.
fn find_link(
    recs: &Vec<ExonNode>,
    blocks: &Vec<AlignmentBlock>,
    m: usize,
    prev: usize,
    k: usize,
) -> (res: Option<usize>)
    requires
        m < recs@.len(),
        prev < recs@.len(),
        1 <= k < blocks@.len(),
    ensures
        match res {
            Some(j) => candidate_matches(recs@, blocks@, m as int, prev as int, k as int, j as int),
            None => forall|jj: int|
                !candidate_matches(recs@, blocks@, m as int, prev as int, k as int, jj),
        },
{
    let bk = blocks[k];
    let nb = blocks.len();
    let internal = k < nb - 1;
    let mut j: usize = 0;
    while j < recs.len()
        invariant
            0 <= j <= recs@.len(),
            nb == blocks@.len(),
            1 <= k < nb,
            prev < recs@.len(),
            m < recs@.len(),
            bk == blocks@[k as int],
            internal == (k < nb - 1),
            forall|jj: int|
                0 <= jj < j ==> !candidate_matches(
                    recs@,
                    blocks@,
                    m as int,
                    prev as int,
                    k as int,
                    jj,
                ),
        decreases recs@.len() - j,
    {
        let e = recs[j];
        let end_cond = if internal {
            e.end == bk.end
        } else {
            bk.end <= e.end
        };
        let ep = recs[prev];
        let adj = if ep.strand == Strand::Forward {
            e.tpos_start as i64 == ep.tpos_start as i64 + (ep.end as i64 - ep.start as i64 + 1)
        } else {
            ep.tpos_start as i64 == e.tpos_start as i64 + (e.end as i64 - e.start as i64 + 1)
        };
        if e.tid == recs[m].tid && e.strand == recs[m].strand && e.start == bk.start && end_cond
            && adj {
            return Some(j);
        }
        proof {
            assert(!candidate_matches(recs@, blocks@, m as int, prev as int, k as int, j as int));
        }
        j = j + 1;
    }
    None
}

/// Two exons matching the same block of the same candidate coincide, because
/// exons of one transcript never overlap.
proof fn lemma_match_unique(
    rs: Seq<ExonNode>,
    bs: Seq<AlignmentBlock>,
    m: int,
    prev: int,
    k: int,
    j1: int,
    j2: int,
)
    requires
        no_tid_overlap(rs),
        recs_wf(rs),
        blocks_wf(bs),
        0 <= m < rs.len(),
        0 <= k < bs.len(),
        candidate_matches(rs, bs, m, prev, k, j1),
        candidate_matches(rs, bs, m, prev, k, j2),
    ensures
        j1 == j2,
{
    if j1 != j2 {
        assert(rs[j1].tid == rs[j2].tid);
        assert(rs[j1].start == rs[j2].start);
        assert(exon_wf(rs[j1]) && exon_wf(rs[j2]));
        if j1 < j2 {
            assert(rs[j1].end < rs[j2].start || rs[j2].end < rs[j1].start);
        } else {
            assert(rs[j2].end < rs[j1].start || rs[j1].end < rs[j2].start);
        }
        assert(false);
    }
}

} // verus!
