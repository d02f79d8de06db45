//! Building the exon index and transcript catalog from a stream of decoded
//! annotation feature records, and choosing the annotation dialect from a
//! file name. The whole construction is specified by `build_fold`, a fold of
//! `build_step` over the feature stream.

use vstd::prelude::*;
use crate::bytes::{append_bytes, is_line_clean, line_clean};
use crate::catalog::TranscriptCatalog;
use crate::exon::{exon_len, exon_wf, ExonNode, FeatureRecord, Strand};
use crate::index::{ChromGroup, ExonIndex};

verus! {

/// Fatal errors of index construction and loading.
#[derive(Clone, Copy, PartialEq, Eq, Structural, Debug)]
pub enum IndexError {
    /// An annotation feature carries coordinates or names the index cannot
    /// represent (zero start, end before start, out-of-range values, or a
    /// name holding a tab or newline).
    BadAnnotation,
    /// A persisted index is internally inconsistent.
    CorruptedIndex,
}

/// Annotation dialects, chosen from the annotation file's extension.
#[derive(Clone, Copy, PartialEq, Eq, Structural, Debug)]
pub enum AnnotationDialect {
    Gtf2,
    Gff3,
    Gff2,
}

/// The ghost image of one feature record.
pub ghost struct FeatureView {
    pub feature_type: Seq<u8>,
    pub seqname: Seq<u8>,
    pub start: int,
    pub end: int,
    pub strand: Option<Strand>,
    pub transcript_id: Option<Seq<u8>>,
    pub first_exon: bool,
}

impl View for FeatureRecord {
    type V = FeatureView;

    open spec fn view(&self) -> FeatureView {
        FeatureView {
            feature_type: self.feature_type@,
            seqname: self.seqname@,
            start: self.start as int,
            end: self.end as int,
            strand: self.strand,
            transcript_id: match self.transcript_id {
                Some(t) => Some(t@),
                None => None,
            },
            first_exon: self.first_exon,
        }
    }
}

pub open spec fn feats_view(fs: Seq<FeatureRecord>) -> Seq<FeatureView> {
    fs.map_values(|f: FeatureRecord| f@)
}

/// The feature type the builder accepts.
pub open spec fn exon_kw() -> Seq<u8> {
    seq![101u8, 120u8, 111u8, 110u8]
}

/// The builder's accumulated state: transcript names and lengths by id,
/// exon record lists by chromosome in first-seen order, and the running
/// transcript-relative offset.
pub ghost struct BuildState {
    pub names: Seq<Seq<u8>>,
    pub lengths: Seq<int>,
    pub groups: Seq<(Seq<u8>, Seq<ExonNode>)>,
    pub tpos: int,
}

pub open spec fn init_state() -> BuildState {
    BuildState { names: Seq::empty(), lengths: Seq::empty(), groups: Seq::empty(), tpos: 0 }
}

/// First position of `n` in `names`, or -1.
pub open spec fn first_name_match(names: Seq<Seq<u8>>, n: Seq<u8>) -> int
    decreases names.len(),
{
    if names.len() == 0 {
        -1
    } else if names[0] == n {
        0
    } else {
        let r = first_name_match(names.skip(1), n);
        if r < 0 {
            -1
        } else {
            r + 1
        }
    }
}

pub proof fn lemma_first_name_match(names: Seq<Seq<u8>>, n: Seq<u8>)
    ensures
        first_name_match(names, n) >= 0 ==> {
            &&& first_name_match(names, n) < names.len()
            &&& names[first_name_match(names, n)] == n
            &&& forall|j: int| 0 <= j < first_name_match(names, n) ==> names[j] != n
        },
        first_name_match(names, n) < 0 ==> forall|j: int| 0 <= j < names.len() ==> names[j] != n,
    decreases names.len(),
{
    if names.len() > 0 && names[0] != n {
        let t = names.skip(1);
        lemma_first_name_match(t, n);
        assert(forall|k: int| 0 <= k < t.len() ==> t[k] == names[k + 1]);
        if first_name_match(t, n) >= 0 {
            assert(names[first_name_match(names, n)] == t[first_name_match(t, n)]);
            assert forall|j: int| 0 <= j < first_name_match(names, n) implies names[j] != n by {
                if j > 0 {
                    assert(names[j] == t[j - 1]);
                }
            }
        } else {
            assert forall|j: int| 0 <= j < names.len() implies names[j] != n by {
                if j > 0 {
                    assert(names[j] == t[j - 1]);
                }
            }
        }
    }
}

/// When `i` is the first position holding `n`, `first_name_match` says so.
pub proof fn lemma_first_name_match_at(names: Seq<Seq<u8>>, n: Seq<u8>, i: int)
    requires
        0 <= i < names.len(),
        names[i] == n,
        forall|j: int| 0 <= j < i ==> names[j] != n,
    ensures
        first_name_match(names, n) == i,
{
    lemma_first_name_match(names, n);
    let r = first_name_match(names, n);
    if r < 0 {
        assert(names[i] != n);
        assert(false);
    }
    if r < i {
        assert(names[r] != n);
        assert(false);
    }
    if r > i {
        assert(names[i] != n);
        assert(false);
    }
}

/// First position of chromosome `n` among the groups, or -1.
pub open spec fn first_group_match(gs: Seq<(Seq<u8>, Seq<ExonNode>)>, n: Seq<u8>) -> int {
    first_name_match(gs.map_values(|g: (Seq<u8>, Seq<ExonNode>)| g.0), n)
}

/// Appends `e` to the group of chromosome `chrom`, opening the group when it
/// is new.
pub open spec fn add_exon(
    gs: Seq<(Seq<u8>, Seq<ExonNode>)>,
    chrom: Seq<u8>,
    e: ExonNode,
) -> Seq<(Seq<u8>, Seq<ExonNode>)> {
    let gi = first_group_match(gs, chrom);
    if gi < 0 {
        gs.push((chrom, seq![e]))
    } else {
        gs.update(gi, (gs[gi].0, gs[gi].1.push(e)))
    }
}

/// A feature takes part in the index when it is an exon naming a transcript.
pub open spec fn feature_selected(f: FeatureView) -> bool {
    f.feature_type == exon_kw() && f.transcript_id is Some
}

/// One step of index construction, exactly mirroring the builder: a selected
/// feature first resets the running offset when marked as a first exon (even
/// when it is later skipped for a missing strand), is skipped without its
/// strand, and otherwise allocates or resolves its transcript id, extends the
/// transcript's length, records the exon under its chromosome and advances
/// the offset. `None` stands for a fatal rejection: coordinates that do not
/// fit the index, unclean names, or an overflowing length or offset.
pub open spec fn build_step(st: BuildState, f: FeatureView) -> Option<BuildState> {
    if !feature_selected(f) {
        Some(st)
    } else {
        let s1 = BuildState { tpos: if f.first_exon { 0 } else { st.tpos }, ..st };
        if !(1 <= f.start && f.start <= f.end && f.end <= 0x8000_0000) {
            None
        } else if f.strand is None {
            Some(s1)
        } else {
            let start = f.start - 1;
            let end = f.end - 1;
            let len = end - start + 1;
            let tname = f.transcript_id->Some_0;
            if !(line_clean(tname) && line_clean(f.seqname)) {
                None
            } else {
                let ti = first_name_match(s1.names, tname);
                if ti < 0 && s1.names.len() >= 0x7FFF_FFFF {
                    None
                } else {
                    let tid = if ti < 0 {
                        s1.names.len() as int
                    } else {
                        ti
                    };
                    let names2 = if ti < 0 {
                        s1.names.push(tname)
                    } else {
                        s1.names
                    };
                    let lengths2 = if ti < 0 {
                        s1.lengths.push(len)
                    } else {
                        s1.lengths.update(ti, s1.lengths[ti] + len)
                    };
                    if lengths2[tid] > i32::MAX {
                        None
                    } else if s1.tpos + len > i32::MAX {
                        None
                    } else {
                        let e = ExonNode {
                            start: start as i32,
                            end: end as i32,
                            tid: tid as i32,
                            tpos_start: s1.tpos as i32,
                            strand: f.strand->Some_0,
                        };
                        Some(
                            BuildState {
                                names: names2,
                                lengths: lengths2,
                                groups: add_exon(s1.groups, f.seqname, e),
                                tpos: s1.tpos + len,
                            },
                        )
                    }
                }
            }
        }
    }
}

/// Index construction over a whole feature stream.
pub open spec fn build_fold(fs: Seq<FeatureView>) -> Option<BuildState>
    decreases fs.len(),
{
    if fs.len() == 0 {
        Some(init_state())
    } else {
        match build_fold(fs.drop_last()) {
            None => None,
            Some(st) => build_step(st, fs.last()),
        }
    }
}

/// A rejection in some prefix is a rejection of the whole stream.
pub proof fn lemma_fold_prefix_none(fs: Seq<FeatureView>, j: int)
    requires
        0 <= j <= fs.len(),
        build_fold(fs.subrange(0, j)) is None,
    ensures
        build_fold(fs) is None,
    decreases fs.len() - j,
{
    if j < fs.len() {
        assert(fs.subrange(0, j + 1).drop_last() =~= fs.subrange(0, j));
        assert(fs.subrange(0, j + 1).last() == fs[j]);
        lemma_fold_prefix_none(fs, j + 1);
    } else {
        assert(fs.subrange(0, j) =~= fs);
    }
}

/// Summed length of the exons of transcript `id` in one record list.
pub open spec fn tid_len_in(rs: Seq<ExonNode>, id: int) -> int
    decreases rs.len(),
{
    if rs.len() == 0 {
        0
    } else {
        tid_len_in(rs.drop_last(), id) + if rs.last().tid == id {
            exon_len(rs.last())
        } else {
            0
        }
    }
}

/// Summed length of the exons of transcript `id` over all chromosomes.
pub open spec fn total_tid_len(gs: Seq<(Seq<u8>, Seq<ExonNode>)>, id: int) -> int
    decreases gs.len(),
{
    if gs.len() == 0 {
        0
    } else {
        total_tid_len(gs.drop_last(), id) + tid_len_in(gs.last().1, id)
    }
}

proof fn lemma_tid_len_push(rs: Seq<ExonNode>, e: ExonNode, id: int)
    ensures
        tid_len_in(rs.push(e), id) == tid_len_in(rs, id) + if e.tid == id {
            exon_len(e)
        } else {
            0
        },
{
    assert(rs.push(e).drop_last() =~= rs);
}

proof fn lemma_total_tid_len_update(
    gs: Seq<(Seq<u8>, Seq<ExonNode>)>,
    gi: int,
    e: ExonNode,
    id: int,
)
    requires
        0 <= gi < gs.len(),
    ensures
        total_tid_len(gs.update(gi, (gs[gi].0, gs[gi].1.push(e))), id) == total_tid_len(gs, id)
            + if e.tid == id {
            exon_len(e)
        } else {
            0
        },
    decreases gs.len(),
{
    let gs2 = gs.update(gi, (gs[gi].0, gs[gi].1.push(e)));
    if gi == gs.len() - 1 {
        assert(gs2.drop_last() =~= gs.drop_last());
        assert(gs2.last() == (gs[gi].0, gs[gi].1.push(e)));
        lemma_tid_len_push(gs[gi].1, e, id);
    } else {
        assert(gs2.last() == gs.last());
        assert(gs2.drop_last() =~= gs.drop_last().update(gi, (gs[gi].0, gs[gi].1.push(e))));
        lemma_total_tid_len_update(gs.drop_last(), gi, e, id);
    }
}

proof fn lemma_total_tid_len_push_group(
    gs: Seq<(Seq<u8>, Seq<ExonNode>)>,
    chrom: Seq<u8>,
    e: ExonNode,
    id: int,
)
    ensures
        total_tid_len(gs.push((chrom, seq![e])), id) == total_tid_len(gs, id) + if e.tid == id {
            exon_len(e)
        } else {
            0
        },
{
    assert(gs.push((chrom, seq![e])).drop_last() =~= gs);
    assert(gs.push((chrom, seq![e])).last() == (chrom, seq![e]));
    let s = seq![e];
    assert(s.len() == 1);
    assert(s.drop_last() =~= Seq::<ExonNode>::empty());
    assert(tid_len_in(Seq::<ExonNode>::empty(), id) == 0);
    assert(s.last() == e);
    assert(tid_len_in(s, id) == tid_len_in(s.drop_last(), id) + if s.last().tid == id {
        exon_len(s.last())
    } else {
        0
    });
}

proof fn lemma_tid_len_absent(rs: Seq<ExonNode>, id: int)
    requires
        forall|k: int| 0 <= k < rs.len() ==> (#[trigger] rs[k]).tid != id,
    ensures
        tid_len_in(rs, id) == 0,
    decreases rs.len(),
{
    if rs.len() > 0 {
        lemma_tid_len_absent(rs.drop_last(), id);
    }
}

proof fn lemma_total_tid_len_absent(gs: Seq<(Seq<u8>, Seq<ExonNode>)>, id: int)
    requires
        forall|g: int, k: int|
            0 <= g < gs.len() && 0 <= k < gs[g].1.len() ==> (#[trigger] gs[g].1[k]).tid != id,
    ensures
        total_tid_len(gs, id) == 0,
    decreases gs.len(),
{
    if gs.len() > 0 {
        assert(forall|k: int|
            0 <= k < gs.last().1.len() ==> (#[trigger] gs.last().1[k]).tid != id) by {
            assert(gs.last() == gs[gs.len() - 1]);
        }
        lemma_tid_len_absent(gs.last().1, id);
        assert(forall|g: int, k: int|
            0 <= g < gs.drop_last().len() && 0 <= k < gs.drop_last()[g].1.len()
                ==> (#[trigger] gs.drop_last()[g].1[k]).tid != id) by {
            assert(forall|g: int| 0 <= g < gs.len() - 1 ==> gs.drop_last()[g] == gs[g]);
        }
        lemma_total_tid_len_absent(gs.drop_last(), id);
    }
}

/// Invariant of every reachable builder state: names are distinct, clean and
/// as many as the lengths; lengths are the per-transcript exon sums and fit
/// in i32; groups hold well-formed exons of known transcripts under distinct
/// clean chromosome names; the running offset fits in i32.
pub open spec fn state_inv(st: BuildState) -> bool {
    &&& st.names.len() == st.lengths.len()
    &&& st.names.len() <= 0x7FFF_FFFF
    &&& forall|i: int, j: int| 0 <= i < j < st.names.len() ==> st.names[i] != st.names[j]
    &&& forall|i: int| 0 <= i < st.names.len() ==> line_clean(#[trigger] st.names[i])
    &&& forall|i: int| 0 <= i < st.lengths.len() ==> 0 <= #[trigger] st.lengths[i] <= i32::MAX
    &&& 0 <= st.tpos <= i32::MAX
    &&& forall|g: int, k: int|
        0 <= g < st.groups.len() && 0 <= k < st.groups[g].1.len() ==> exon_wf(
            #[trigger] st.groups[g].1[k],
        ) && st.groups[g].1[k].tid < st.names.len()
    &&& forall|g: int, h: int| 0 <= g < h < st.groups.len() ==> st.groups[g].0 != st.groups[h].0
    &&& forall|g: int| 0 <= g < st.groups.len() ==> line_clean((#[trigger] st.groups[g]).0)
    &&& forall|id: int|
        0 <= id < st.lengths.len() ==> st.lengths[id] == total_tid_len(st.groups, id)
}

/// First position in `names` holding exactly `n`, scanning forward.
pub(crate) fn find_first(names: &Vec<Vec<u8>>, n: &Vec<u8>) -> (r: Option<usize>)
    ensures
        match r {
            Some(i) => i < names@.len() && names@[i as int]@ == n@ && forall|j: int|
                0 <= j < i ==> names@[j]@ != n@,
            None => forall|j: int| 0 <= j < names@.len() ==> names@[j]@ != n@,
        },
{
    let mut i: usize = 0;
    while i < names.len()
        invariant
            0 <= i <= names@.len(),
            forall|j: int| 0 <= j < i ==> names@[j]@ != n@,
        decreases names@.len() - i,
    {
        if &names[i] == n {
            proof {
                assert(names@[i as int]@ =~= n@);
            }
            return Some(i);
        }
        proof {
            if names@[i as int]@ == n@ {
                assert(names@[i as int]@ =~= n@);
                assert(false);
            }
        }
        i = i + 1;
    }
    None
}

/// The catalog and grouped records an accepted state describes.
pub open spec fn catalog_matches(cat: TranscriptCatalog, st: BuildState) -> bool {
    &&& cat.names_view() == st.names
    &&& cat.lengths@.map_values(|x: i32| x as int) == st.lengths
}

/// The per-chromosome groups an index holds.
pub open spec fn groups_view(idx: ExonIndex) -> Seq<(Seq<u8>, Seq<ExonNode>)> {
    idx.chroms@.map_values(|g: ChromGroup| (g.name@, g.recs@))
}

/// Builds the exon index and transcript catalog from a decoded feature
/// stream, exactly as `build_fold` describes: selected features are exons
/// naming a transcript; features without a strand are skipped; coordinates,
/// names or sums the index cannot represent reject the whole stream.
///
/// On success the catalog's lengths are exactly the per-transcript sums of
/// the recorded exon lengths.
pub fn build_tree(features: &Vec<FeatureRecord>) -> (r: Result<
    (ExonIndex, TranscriptCatalog),
    IndexError,
>)
    requires
        features@.len() < 0xFFFF_FFFFusize,
    ensures
        match r {
            Ok(p) => {
                &&& build_fold(feats_view(features@)) is Some
                &&& p.0.wf()
                &&& p.1.wf()
                &&& catalog_matches(p.1, build_fold(feats_view(features@))->Some_0)
                &&& groups_view(p.0) == build_fold(feats_view(features@))->Some_0.groups
                &&& p.0.tids_below(p.1.names@.len() as int)
                &&& forall|id: int|
                    0 <= id < p.1.lengths@.len() ==> p.1.lengths@[id] == total_tid_len(
                        groups_view(p.0),
                        id,
                    )
            },
            Err(e) => build_fold(feats_view(features@)) is None && e
                == IndexError::BadAnnotation,
        },
{
    let ghost fviews = feats_view(features@);
    let mut cat = TranscriptCatalog::new();
    let mut chrom_names: Vec<Vec<u8>> = Vec::new();
    let mut chrom_recs: Vec<Vec<ExonNode>> = Vec::new();
    let mut tpos: i32 = 0;
    let ghost mut st = init_state();
    let mut i: usize = 0;
    proof {
        assert(fviews.subrange(0, 0) =~= Seq::<FeatureView>::empty());
    }
    while i < features.len()
        invariant
            0 <= i <= features@.len(),
            features@.len() < 0xFFFF_FFFFusize,
            fviews == feats_view(features@),
            fviews.len() == features@.len(),
            build_fold(fviews.subrange(0, i as int)) == Some(st),
            state_inv(st),
            cat.names_view() == st.names,
            cat.lengths@.map_values(|x: i32| x as int) == st.lengths,
            cat.names@.len() == cat.lengths@.len(),
            chrom_names@.len() == st.groups.len(),
            chrom_recs@.len() == st.groups.len(),
            forall|g: int| 0 <= g < st.groups.len() ==> chrom_names@[g]@ == st.groups[g].0,
            forall|g: int| 0 <= g < st.groups.len() ==> chrom_recs@[g]@ == st.groups[g].1,
            forall|g: int| 0 <= g < st.groups.len() ==> chrom_recs@[g]@.len() <= i,
            tpos == st.tpos,
        decreases features@.len() - i,
    {
        let ghost st0 = st;
        let ghost prefix = fviews.subrange(0, i as int);
        let ghost prefix1 = fviews.subrange(0, i + 1);
        proof {
            assert(prefix1.drop_last() =~= prefix);
            assert(prefix1.last() == fviews[i as int]);
            assert(fviews[i as int] == features@[i as int]@);
        }
        let f = &features[i];
        let selected = is_exon_type(&f.feature_type) && f.transcript_id.is_some();
        if !selected {
            proof {
                assert(!feature_selected(f@));
                assert(build_step(st0, f@) == Some(st0));
            }
            i = i + 1;
            continue ;
        }
        if f.first_exon {
            tpos = 0;
        }
        proof {
            st = BuildState { tpos: tpos as int, ..st0 };
        }
        if f.start < 1 || f.end < f.start || f.end > 0x8000_0000u64 {
            proof {
                assert(build_step(st0, f@) is None);
                assert(build_fold(prefix1) is None);
                lemma_fold_prefix_none(fviews, i + 1);
            }
            return Err(IndexError::BadAnnotation);
        }
        let strand: Strand = match f.strand {
            Some(s) => s,
            None => {
                proof {
                    assert(build_step(st0, f@) == Some(st));
                }
                i = i + 1;
                continue ;
            },
        };
        let start: i32 = (f.start - 1) as i32;
        let end: i32 = (f.end - 1) as i32;
        let len64: i64 = end as i64 - start as i64 + 1;
        let tname: &Vec<u8> = match &f.transcript_id {
            Some(t) => t,
            None => {
                proof {
                    assert(false);
                }
                return Err(IndexError::BadAnnotation);
            },
        };
        if !is_line_clean(tname.as_slice()) || !is_line_clean(f.seqname.as_slice()) {
            proof {
                assert(build_step(st0, f@) is None);
                assert(build_fold(prefix1) is None);
                lemma_fold_prefix_none(fviews, i + 1);
            }
            return Err(IndexError::BadAnnotation);
        }
        let ghost tname_v = f@.transcript_id->Some_0;
        let tid_opt = cat.id_of(tname);
        proof {
            match tid_opt {
                Some(ti) => lemma_first_name_match_at(st.names, tname_v, ti as int),
                None => {
                    lemma_first_name_match(st.names, tname_v);
                    if first_name_match(st.names, tname_v) >= 0 {
                        assert(false);
                    }
                },
            }
        }
        let tid: usize;
        match tid_opt {
            None => {
                if len64 > 0x7FFF_FFFFi64 {
                    proof {
                        assert(build_step(st0, f@) is None);
                        lemma_fold_prefix_none(fviews, i + 1);
                    }
                    return Err(IndexError::BadAnnotation);
                }
                if cat.names.len() >= 0x7FFF_FFFFusize {
                    proof {
                        assert(build_step(st0, f@) is None);
                        lemma_fold_prefix_none(fviews, i + 1);
                    }
                    return Err(IndexError::BadAnnotation);
                }
                tid = cat.names.len();
                let mut owned_name: Vec<u8> = Vec::new();
                append_bytes(&mut owned_name, tname.as_slice());
                proof {
                    assert(owned_name@ =~= tname_v);
                }
                cat.names.push(owned_name);
                cat.lengths.push(len64 as i32);
            },
            Some(ti) => {
                let cur: i32 = cat.lengths[ti];
                let sum: i64 = cur as i64 + len64;
                if sum > 0x7FFF_FFFFi64 {
                    proof {
                        assert(build_step(st0, f@) is None);
                        lemma_fold_prefix_none(fviews, i + 1);
                    }
                    return Err(IndexError::BadAnnotation);
                }
                tid = ti;
                cat.lengths[ti] = sum as i32;
            },
        }
        if tpos as i64 + len64 > 0x7FFF_FFFFi64 {
            proof {
                assert(build_step(st0, f@) is None);
                lemma_fold_prefix_none(fviews, i + 1);
            }
            return Err(IndexError::BadAnnotation);
        }
        let exon = ExonNode { start, end, tid: tid as i32, tpos_start: tpos, strand };
        let ghost s1 = st;
        let ghost ti_spec = first_name_match(s1.names, tname_v);
        let ghost tid_spec: int = if ti_spec < 0 {
            s1.names.len() as int
        } else {
            ti_spec
        };
        let ghost names2 = if ti_spec < 0 {
            s1.names.push(tname_v)
        } else {
            s1.names
        };
        let ghost lengths2 = if ti_spec < 0 {
            s1.lengths.push(len64 as int)
        } else {
            s1.lengths.update(ti_spec, s1.lengths[ti_spec] + len64 as int)
        };
        proof {
            assert(tid as int == tid_spec);
            assert(cat.names_view() =~= names2);
            assert(cat.lengths@.map_values(|x: i32| x as int) =~= lengths2);
        }
        // place the exon under its chromosome
        let gi_opt = find_first(&chrom_names, &f.seqname);
        proof {
            let gnames = s1.groups.map_values(|g: (Seq<u8>, Seq<ExonNode>)| g.0);
            assert(gnames.len() == chrom_names@.len());
            assert(forall|g: int| 0 <= g < gnames.len() ==> gnames[g] == chrom_names@[g]@);
            match gi_opt {
                Some(gi) => lemma_first_name_match_at(gnames, f@.seqname, gi as int),
                None => {
                    lemma_first_name_match(gnames, f@.seqname);
                    if first_name_match(gnames, f@.seqname) >= 0 {
                        assert(false);
                    }
                },
            }
        }
        let ghost groups2 = add_exon(s1.groups, f@.seqname, exon);
        match gi_opt {
            None => {
                let mut owned_chrom: Vec<u8> = Vec::new();
                append_bytes(&mut owned_chrom, f.seqname.as_slice());
                proof {
                    assert(owned_chrom@ =~= f@.seqname);
                }
                chrom_names.push(owned_chrom);
                let mut nv: Vec<ExonNode> = Vec::new();
                nv.push(exon);
                proof {
                    assert(nv@ =~= seq![exon]);
                }
                chrom_recs.push(nv);
            },
            Some(gi) => {
                let mut grp = chrom_recs.remove(gi);
                grp.push(exon);
                chrom_recs.insert(gi, grp);
            },
        }
        tpos = tpos + len64 as i32;
        proof {
            st = BuildState { names: names2, lengths: lengths2, groups: groups2, tpos: tpos as int };
            assert(build_step(st0, f@) == Some(st));
            assert(build_fold(prefix1) == Some(st));
            // the invariant survives the step
            if ti_spec < 0 {
                lemma_total_tid_len_absent(s1.groups, tid_spec);
            }
            match gi_opt {
                None => {
                    assert forall|id: int|
                        0 <= id < lengths2.len() implies lengths2[id] == total_tid_len(
                        groups2,
                        id,
                    ) by {
                        lemma_total_tid_len_push_group(s1.groups, f@.seqname, exon, id);
                    }
                },
                Some(gi) => {
                    assert forall|id: int|
                        0 <= id < lengths2.len() implies lengths2[id] == total_tid_len(
                        groups2,
                        id,
                    ) by {
                        lemma_total_tid_len_update(s1.groups, gi as int, exon, id);
                        if id >= s1.lengths.len() {
                            lemma_total_tid_len_absent(s1.groups, id);
                        }
                    }
                },
            }
            assert(state_inv(st));
            assert forall|g: int| 0 <= g < st.groups.len() implies chrom_recs@[g]@
                == st.groups[g].1 by {}
        }
        i = i + 1;
    }
    proof {
        assert(fviews.subrange(0, fviews.len() as int) =~= fviews);
    }
    // freeze each chromosome's records into its interval tree
    let mut idx = ExonIndex::new();
    let ghost all_groups = st.groups;
    let mut g: usize = 0;
    while g < chrom_names.len()
        invariant
            0 <= g <= chrom_names@.len(),
            chrom_names@.len() == all_groups.len(),
            chrom_recs@.len() == all_groups.len(),
            state_inv(st),
            st.groups == all_groups,
            forall|k: int| 0 <= k < all_groups.len() ==> chrom_names@[k]@ == all_groups[k].0,
            forall|k: int| 0 <= k < all_groups.len() ==> chrom_recs@[k]@ == all_groups[k].1,
            forall|k: int| 0 <= k < all_groups.len() ==> chrom_recs@[k]@.len() < 0xFFFF_FFFF,
            idx.chroms@.len() == g,
            forall|k: int| 0 <= k < g ==> (#[trigger] idx.chroms@[k]).wf(),
            forall|k: int| 0 <= k < g ==> (#[trigger] idx.chroms@[k]).name@ == all_groups[k].0,
            forall|k: int| 0 <= k < g ==> (#[trigger] idx.chroms@[k]).recs@ == all_groups[k].1,
        decreases chrom_names@.len() - g,
    {
        let mut name_g: Vec<u8> = Vec::new();
        append_bytes(&mut name_g, chrom_names[g].as_slice());
        proof {
            assert(name_g@ =~= all_groups[g as int].0);
        }
        let mut recs_g: Vec<ExonNode> = Vec::new();
        let src = &chrom_recs[g];
        let mut k: usize = 0;
        while k < src.len()
            invariant
                0 <= k <= src@.len(),
                recs_g@ =~= src@.subrange(0, k as int),
            decreases src@.len() - k,
        {
            recs_g.push(src[k]);
            proof {
                assert(recs_g@ =~= src@.subrange(0, k + 1));
            }
            k = k + 1;
        }
        proof {
            assert(recs_g@ =~= src@);
            assert(recs_g@ == all_groups[g as int].1);
        }
        let grp = ChromGroup::new(name_g, recs_g);
        idx.chroms.push(grp);
        g = g + 1;
    }
    proof {
        assert(groups_view(idx) =~= all_groups);
        assert(idx.wf());
        assert forall|ii: int| 0 <= ii < cat.lengths@.len() implies 0 <= #[trigger] cat.lengths@[ii] by {
            assert(cat.lengths@.map_values(|x: i32| x as int)[ii] == st.lengths[ii]);
        }
        assert forall|ii: int| 0 <= ii < cat.names@.len() implies line_clean(
            cat.names_view()[ii],
        ) by {
            assert(cat.names_view()[ii] == st.names[ii]);
        }
        assert(cat.wf());
        assert(idx.tids_below(cat.names@.len() as int));
    }
    Ok((idx, cat))
}

/// The extension of a file name: the characters after its last dot, or the
/// whole name when it has no dot.
pub open spec fn ext_of(s: Seq<u8>) -> Seq<u8>
    decreases s.len(),
{
    if s.len() == 0 {
        s
    } else if s.last() == 46 {
        Seq::empty()
    } else {
        ext_of(s.drop_last()).push(s.last())
    }
}

/// The dialect a file name selects: `gtf` names the GTF2 dialect, `gff3` and
/// `gff` name GFF3, anything else falls back to GFF2.
pub open spec fn dialect_spec(name: Seq<u8>) -> AnnotationDialect {
    let e = ext_of(name);
    if e == seq![103u8, 116u8, 102u8] {
        AnnotationDialect::Gtf2
    } else if e == seq![103u8, 102u8, 102u8, 51u8] || e == seq![103u8, 102u8, 102u8] {
        AnnotationDialect::Gff3
    } else {
        AnnotationDialect::Gff2
    }
}

proof fn lemma_ext_after_dot(s: Seq<u8>, p: int)
    requires
        0 <= p < s.len(),
        s[p] == 46,
        forall|q: int| p < q < s.len() ==> s[q] != 46,
    ensures
        ext_of(s) == s.subrange(p + 1, s.len() as int),
    decreases s.len(),
{
    if p == s.len() - 1 {
        assert(s.last() == 46);
        assert(s.subrange(p + 1, s.len() as int) =~= Seq::<u8>::empty());
    } else {
        assert(s.last() != 46);
        let t = s.drop_last();
        assert(forall|q: int| p < q < t.len() ==> t[q] == s[q]);
        lemma_ext_after_dot(t, p);
        assert(ext_of(s) == ext_of(t).push(s.last()));
        assert(ext_of(s) =~= s.subrange(p + 1, s.len() as int));
    }
}

proof fn lemma_ext_no_dot(s: Seq<u8>)
    requires
        forall|q: int| 0 <= q < s.len() ==> s[q] != 46,
    ensures
        ext_of(s) == s,
    decreases s.len(),
{
    if s.len() > 0 {
        lemma_ext_no_dot(s.drop_last());
        assert(ext_of(s) =~= s);
    }
}

/// Chooses the annotation dialect from a file name, by its extension.
pub fn annotation_dialect(file_name: &[u8]) -> (r: AnnotationDialect)
    ensures
        r == dialect_spec(file_name@),
{
    // find the last dot
    let n = file_name.len();
    let mut dot: Option<usize> = None;
    let mut q: usize = 0;
    while q < n
        invariant
            0 <= q <= n,
            n == file_name@.len(),
            match dot {
                Some(p) => p < q && file_name@[p as int] == 46 && forall|x: int|
                    p < x < q ==> file_name@[x] != 46,
                None => forall|x: int| 0 <= x < q ==> file_name@[x] != 46,
            },
        decreases n - q,
    {
        if file_name[q] == 46 {
            dot = Some(q);
        }
        q = q + 1;
    }
    let ext: Vec<u8> = match dot {
        Some(p) => {
            proof {
                lemma_ext_after_dot(file_name@, p as int);
            }
            crate::bytes::sub_vec(file_name, p + 1, n)
        },
        None => {
            proof {
                lemma_ext_no_dot(file_name@);
            }
            crate::bytes::sub_vec(file_name, 0, n)
        },
    };
    proof {
        assert(ext@ == ext_of(file_name@));
    }
    if ext.len() == 3 && ext[0] == 103 && ext[1] == 116 && ext[2] == 102 {
        proof {
            assert(ext@ =~= seq![103u8, 116u8, 102u8]);
        }
        AnnotationDialect::Gtf2
    } else if (ext.len() == 4 && ext[0] == 103 && ext[1] == 102 && ext[2] == 102 && ext[3] == 51)
        || (ext.len() == 3 && ext[0] == 103 && ext[1] == 102 && ext[2] == 102) {
        proof {
            if ext@.len() == 4 {
                assert(ext@ =~= seq![103u8, 102u8, 102u8, 51u8]);
            } else {
                assert(ext@ =~= seq![103u8, 102u8, 102u8]);
            }
        }
        AnnotationDialect::Gff3
    } else {
        proof {
            let e = ext@;
            if e == seq![103u8, 116u8, 102u8] {
                assert(e.len() == 3 && e[0] == 103 && e[1] == 116 && e[2] == 102);
                assert(false);
            }
            if e == seq![103u8, 102u8, 102u8, 51u8] {
                assert(e.len() == 4 && e[0] == 103 && e[1] == 102 && e[2] == 102 && e[3] == 51);
                assert(false);
            }
            if e == seq![103u8, 102u8, 102u8] {
                assert(e.len() == 3 && e[0] == 103 && e[1] == 102 && e[2] == 102);
                assert(false);
            }
        }
        AnnotationDialect::Gff2
    }
}

/// Tests whether a feature type reads `exon`.
fn is_exon_type(ft: &Vec<u8>) -> (r: bool)
    ensures
        r == (ft@ == exon_kw()),
{
    if ft.len() == 4 && ft[0] == 101 && ft[1] == 120 && ft[2] == 111 && ft[3] == 110 {
        proof {
            assert(ft@ =~= exon_kw());
        }
        true
    } else {
        proof {
            if ft@ == exon_kw() {
                assert(ft@.len() == 4);
                assert(ft@[0] == 101 && ft@[1] == 120 && ft@[2] == 111 && ft@[3] == 110);
            }
        }
        false
    }
}

} // verus!
