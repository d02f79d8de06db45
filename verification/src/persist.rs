//! Persistence of the index as four tab/newline-delimited text artifacts:
//! a transcript-name-to-id table, the ordered transcript names, the ordered
//! transcript lengths, and the flat exon table (chromosome, start, end,
//! transcript id, transcript offset, strand), one row per exon record in
//! construction order. The artifacts are handled here as vectors of lines;
//! the surrounding program reads and writes the files.

use vstd::prelude::*;
use crate::annotation::{groups_view, IndexError};
use crate::bytes::{
    append_bytes, dec_seq, fmt_u32, join_spec, lemma_dec_round_trip, lemma_split_join, line_clean,
    parse_u32_spec, split_spec, sub_vec, TAB,
};
use crate::catalog::TranscriptCatalog;
use crate::exon::{exon_wf, ExonNode, Strand};
use crate::index::ExonIndex;

verus! {

/// The four artifacts, each a vector of text lines (without newlines).
pub struct IndexArtifacts {
    pub map_lines: Vec<Vec<u8>>,
    pub name_lines: Vec<Vec<u8>>,
    pub len_lines: Vec<Vec<u8>>,
    pub exon_lines: Vec<Vec<u8>>,
}

pub open spec fn lines_view(v: Seq<Vec<u8>>) -> Seq<Seq<u8>> {
    v.map_values(|l: Vec<u8>| l@)
}

pub open spec fn strand_byte(s: Strand) -> u8 {
    if s == Strand::Forward {
        43u8
    } else {
        45u8
    }
}

/// The fields of one exon-table row.
pub open spec fn row_fields(chrom: Seq<u8>, e: ExonNode) -> Seq<Seq<u8>> {
    seq![
        chrom,
        dec_seq(e.start as nat),
        dec_seq(e.end as nat),
        dec_seq(e.tid as nat),
        dec_seq(e.tpos_start as nat),
        seq![strand_byte(e.strand)],
    ]
}

/// One exon-table row: the six fields joined by tabs.
pub open spec fn row_line(chrom: Seq<u8>, e: ExonNode) -> Seq<u8> {
    join_spec(row_fields(chrom, e))
}

/// The chromosome-tagged exon rows of the groups, flattened in order.
pub open spec fn rows_of(gs: Seq<(Seq<u8>, Seq<ExonNode>)>) -> Seq<(Seq<u8>, ExonNode)>
    decreases gs.len(),
{
    if gs.len() == 0 {
        Seq::empty()
    } else {
        rows_of(gs.drop_last()) + group_rows(gs.last())
    }
}

pub open spec fn group_rows(g: (Seq<u8>, Seq<ExonNode>)) -> Seq<(Seq<u8>, ExonNode)> {
    Seq::new(g.1.len(), |k: int| (g.0, g.1[k]))
}

/// A line reads as the row `(chrom, e)`: six tab-separated fields holding
/// the chromosome, the four decimal numbers and the strand sign.
pub open spec fn line_parses_to(line: Seq<u8>, chrom: Seq<u8>, e: ExonNode) -> bool {
    let fs = split_spec(line);
    &&& fs.len() == 6
    &&& fs[0] == chrom
    &&& parse_u32_spec(fs[1]) is Some && parse_u32_spec(fs[1])->Some_0 == e.start as u32 && e.start
        >= 0
    &&& parse_u32_spec(fs[2]) is Some && parse_u32_spec(fs[2])->Some_0 == e.end as u32 && e.end >= 0
    &&& parse_u32_spec(fs[3]) is Some && parse_u32_spec(fs[3])->Some_0 == e.tid as u32 && e.tid >= 0
    &&& parse_u32_spec(fs[4]) is Some && parse_u32_spec(fs[4])->Some_0 == e.tpos_start as u32
        && e.tpos_start >= 0
    &&& (fs[5] == seq![43u8] && e.strand == Strand::Forward) || (fs[5] == seq![45u8] && e.strand
        == Strand::Reverse)
}

/// A canonical row reads back as exactly its own record.
pub proof fn lemma_row_round_trip(chrom: Seq<u8>, e: ExonNode)
    requires
        line_clean(chrom),
        exon_wf(e),
    ensures
        line_parses_to(row_line(chrom, e), chrom, e),
{
    let fs = row_fields(chrom, e);
    crate::bytes::lemma_dec_seq_digits(e.start as nat);
    crate::bytes::lemma_dec_seq_digits(e.end as nat);
    crate::bytes::lemma_dec_seq_digits(e.tid as nat);
    crate::bytes::lemma_dec_seq_digits(e.tpos_start as nat);
    assert forall|i: int| 0 <= i < fs.len() implies crate::bytes::tab_free(#[trigger] fs[i]) by {
        if i == 0 {
        } else if i == 5 {
            assert(fs[5] == seq![strand_byte(e.strand)]);
            assert(fs[5].len() == 1 && fs[5][0] != TAB);
        } else {
            assert(crate::bytes::all_digits(fs[i]));
        }
    }
    lemma_split_join(fs);
    lemma_dec_round_trip(e.start as u32);
    lemma_dec_round_trip(e.end as u32);
    lemma_dec_round_trip(e.tid as u32);
    lemma_dec_round_trip(e.tpos_start as u32);
}

proof fn lemma_rows_push_group(gs: Seq<(Seq<u8>, Seq<ExonNode>)>, chrom: Seq<u8>, e: ExonNode)
    ensures
        rows_of(gs.push((chrom, seq![e]))) == rows_of(gs) + seq![(chrom, e)],
{
    let gs2 = gs.push((chrom, seq![e]));
    assert(gs2.drop_last() =~= gs);
    assert(gs2.last() == (chrom, seq![e]));
    assert(group_rows((chrom, seq![e])) =~= seq![(chrom, e)]);
}

proof fn lemma_rows_extend_last(gs: Seq<(Seq<u8>, Seq<ExonNode>)>, e: ExonNode)
    requires
        gs.len() > 0,
    ensures
        rows_of(gs.update(gs.len() - 1, (gs.last().0, gs.last().1.push(e)))) == rows_of(gs)
            + seq![(gs.last().0, e)],
{
    let gs2 = gs.update(gs.len() - 1, (gs.last().0, gs.last().1.push(e)));
    assert(gs2.drop_last() =~= gs.drop_last());
    assert(gs2.last() == (gs.last().0, gs.last().1.push(e)));
    assert(group_rows(gs2.last()) =~= group_rows(gs.last()).push((gs.last().0, e)));
    assert(rows_of(gs2) =~= rows_of(gs) + seq![(gs.last().0, e)]);
}

proof fn lemma_rows_prefix(gs: Seq<(Seq<u8>, Seq<ExonNode>)>, g: int)
    requires
        0 <= g < gs.len(),
    ensures
        rows_of(gs.subrange(0, g + 1)) == rows_of(gs.subrange(0, g)) + group_rows(gs[g]),
{
    assert(gs.subrange(0, g + 1).drop_last() =~= gs.subrange(0, g));
    assert(gs.subrange(0, g + 1).last() == gs[g]);
}

/// Rows of well-formed groups carry clean chromosome names and well-formed
/// exons.
proof fn lemma_rows_of_wf(gs: Seq<(Seq<u8>, Seq<ExonNode>)>)
    requires
        forall|g: int| 0 <= g < gs.len() ==> line_clean((#[trigger] gs[g]).0),
        forall|g: int, k: int|
            0 <= g < gs.len() && 0 <= k < gs[g].1.len() ==> exon_wf(#[trigger] gs[g].1[k]),
    ensures
        forall|r: int|
            0 <= r < rows_of(gs).len() ==> line_clean((#[trigger] rows_of(gs)[r]).0) && exon_wf(
                rows_of(gs)[r].1,
            ),
    decreases gs.len(),
{
    if gs.len() > 0 {
        let t = gs.drop_last();
        assert(forall|g: int| 0 <= g < t.len() ==> t[g] == gs[g]);
        lemma_rows_of_wf(t);
        assert(gs.last() == gs[gs.len() - 1]);
        assert forall|r: int|
            0 <= r < rows_of(gs).len() implies line_clean((#[trigger] rows_of(gs)[r]).0)
            && exon_wf(rows_of(gs)[r].1) by {
            if r < rows_of(t).len() {
                assert(rows_of(gs)[r] == rows_of(t)[r]);
            } else {
                assert(rows_of(gs)[r] == group_rows(gs.last())[r - rows_of(t).len()]);
            }
        }
    }
}


/// A well-formed persisted model: a catalog (distinct clean names, one
/// non-negative length each) and non-empty per-chromosome groups of
/// well-formed exons naming known transcripts.
pub open spec fn model_wf(
    names: Seq<Seq<u8>>,
    lengths: Seq<i32>,
    gs: Seq<(Seq<u8>, Seq<ExonNode>)>,
) -> bool {
    &&& names.len() == lengths.len()
    &&& names.len() <= 0x7FFF_FFFF
    &&& forall|i: int, j: int| 0 <= i < j < names.len() ==> names[i] != names[j]
    &&& forall|i: int| 0 <= i < names.len() ==> line_clean(#[trigger] names[i])
    &&& forall|i: int| 0 <= i < lengths.len() ==> 0 <= #[trigger] lengths[i]
    &&& forall|g: int| 0 <= g < gs.len() ==> line_clean((#[trigger] gs[g]).0) && gs[g].1.len() >= 1
    &&& forall|g: int, h: int| 0 <= g < h < gs.len() ==> gs[g].0 != gs[h].0
    &&& forall|g: int, k: int|
        0 <= g < gs.len() && 0 <= k < gs[g].1.len() ==> exon_wf(#[trigger] gs[g].1[k])
            && gs[g].1[k].tid < names.len()
    &&& rows_of(gs).len() < 0xFFFF_FFFF
}

/// The artifact lines are exactly the canonical encoding of the model.
pub open spec fn encodes(
    map_l: Seq<Seq<u8>>,
    name_l: Seq<Seq<u8>>,
    len_l: Seq<Seq<u8>>,
    exon_l: Seq<Seq<u8>>,
    names: Seq<Seq<u8>>,
    lengths: Seq<i32>,
    gs: Seq<(Seq<u8>, Seq<ExonNode>)>,
) -> bool {
    &&& name_l == names
    &&& len_l.len() == lengths.len()
    &&& forall|i: int| 0 <= i < lengths.len() ==> #[trigger] len_l[i] == dec_seq(lengths[i] as nat)
    &&& map_l.len() == names.len()
    &&& forall|i: int|
        0 <= i < names.len() ==> #[trigger] map_l[i] == names[i] + seq![TAB] + dec_seq(i as nat)
    &&& exon_l.len() == rows_of(gs).len()
    &&& forall|r: int|
        0 <= r < exon_l.len() ==> #[trigger] exon_l[r] == row_line(
            rows_of(gs)[r].0,
            rows_of(gs)[r].1,
        )
}

/// The artifacts canonically encode some well-formed model.
pub open spec fn is_canonical(a: &IndexArtifacts) -> bool {
    exists|m: (Seq<Seq<u8>>, Seq<i32>, Seq<(Seq<u8>, Seq<ExonNode>)>)|
        model_wf(m.0, m.1, m.2) && encodes(
            lines_view(a.map_lines@),
            lines_view(a.name_lines@),
            lines_view(a.len_lines@),
            lines_view(a.exon_lines@),
            m.0,
            m.1,
            m.2,
        )
}

/// The groups rebuilt after consuming the first `j` whole groups and `k`
/// leading records of group `j`.
pub open spec fn partial_groups(
    gs: Seq<(Seq<u8>, Seq<ExonNode>)>,
    j: int,
    k: int,
) -> Seq<(Seq<u8>, Seq<ExonNode>)> {
    if k == 0 {
        gs.subrange(0, j)
    } else {
        gs.subrange(0, j).push((gs[j].0, gs[j].1.subrange(0, k)))
    }
}

/// The rows of a group prefix are a prefix of all rows.
proof fn lemma_rows_of_extends(gs: Seq<(Seq<u8>, Seq<ExonNode>)>, j: int)
    requires
        0 <= j <= gs.len(),
    ensures
        rows_of(gs.subrange(0, j)).len() <= rows_of(gs).len(),
        forall|q: int|
            0 <= q < rows_of(gs.subrange(0, j)).len() ==> rows_of(gs)[q] == rows_of(
                gs.subrange(0, j),
            )[q],
    decreases gs.len() - j,
{
    if j == gs.len() {
        assert(gs.subrange(0, j) =~= gs);
    } else {
        lemma_rows_prefix(gs, j);
        lemma_rows_of_extends(gs, j + 1);
    }
}

proof fn lemma_join2(f0: Seq<u8>, f1: Seq<u8>)
    ensures
        join_spec(seq![f0, f1]) == f0 + seq![TAB] + f1,
{
    let s0 = seq![f0, f1];
    assert(s0.skip(1) =~= seq![f1]);
    assert(join_spec(seq![f1]) == f1);
}

/// A line determines its row: two rows read from one line coincide.
pub proof fn lemma_line_parses_unique(line: Seq<u8>, c1: Seq<u8>, e1: ExonNode, c2: Seq<u8>, e2: ExonNode)
    requires
        line_parses_to(line, c1, e1),
        line_parses_to(line, c2, e2),
    ensures
        c1 == c2,
        e1 == e2,
{
    assert(e1.start == e2.start && e1.end == e2.end && e1.tid == e2.tid && e1.tpos_start
        == e2.tpos_start);
    let fs = split_spec(line);
    if fs[5] == seq![43u8] {
        assert(seq![43u8][0] != seq![45u8][0]);
        assert(seq![43u8] != seq![45u8]);
        assert(e1.strand == Strand::Forward && e2.strand == Strand::Forward);
    } else {
        assert(e1.strand == Strand::Reverse && e2.strand == Strand::Reverse);
    }
}

proof fn lemma_join6(f0: Seq<u8>, f1: Seq<u8>, f2: Seq<u8>, f3: Seq<u8>, f4: Seq<u8>, f5: Seq<u8>)
    ensures
        join_spec(seq![f0, f1, f2, f3, f4, f5]) == f0 + seq![TAB] + f1 + seq![TAB] + f2 + seq![TAB]
            + f3 + seq![TAB] + f4 + seq![TAB] + f5,
{
    let s5 = seq![f5];
    let s4 = seq![f4, f5];
    let s3 = seq![f3, f4, f5];
    let s2 = seq![f2, f3, f4, f5];
    let s1 = seq![f1, f2, f3, f4, f5];
    let s0 = seq![f0, f1, f2, f3, f4, f5];
    assert(s0.skip(1) =~= s1);
    assert(s1.skip(1) =~= s2);
    assert(s2.skip(1) =~= s3);
    assert(s3.skip(1) =~= s4);
    assert(s4.skip(1) =~= s5);
    assert(join_spec(s5) == f5);
    assert(join_spec(s4) == f4 + seq![TAB] + join_spec(s5));
    assert(join_spec(s3) == f3 + seq![TAB] + join_spec(s4));
    assert(join_spec(s2) == f2 + seq![TAB] + join_spec(s3));
    assert(join_spec(s1) == f1 + seq![TAB] + join_spec(s2));
    assert(join_spec(s0) == f0 + seq![TAB] + join_spec(s1));
    assert(join_spec(s0) =~= f0 + seq![TAB] + f1 + seq![TAB] + f2 + seq![TAB] + f3 + seq![TAB] + f4
        + seq![TAB] + f5);
}

/// Builds one exon-table row.
fn build_row(chrom: &Vec<u8>, e: &ExonNode) -> (line: Vec<u8>)
    requires
        exon_wf(*e),
    ensures
        line@ == row_line(chrom@, *e),
{
    let mut line: Vec<u8> = Vec::new();
    append_bytes(&mut line, chrom.as_slice());
    line.push(TAB);
    let f1 = fmt_u32(e.start as u32);
    append_bytes(&mut line, f1.as_slice());
    line.push(TAB);
    let f2 = fmt_u32(e.end as u32);
    append_bytes(&mut line, f2.as_slice());
    line.push(TAB);
    let f3 = fmt_u32(e.tid as u32);
    append_bytes(&mut line, f3.as_slice());
    line.push(TAB);
    let f4 = fmt_u32(e.tpos_start as u32);
    append_bytes(&mut line, f4.as_slice());
    line.push(TAB);
    let sb: u8 = match e.strand {
        Strand::Forward => 43,
        Strand::Reverse => 45,
    };
    line.push(sb);
    proof {
        lemma_join6(
            chrom@,
            dec_seq(e.start as nat),
            dec_seq(e.end as nat),
            dec_seq(e.tid as nat),
            dec_seq(e.tpos_start as nat),
            seq![strand_byte(e.strand)],
        );
        assert(line@ =~= chrom@ + seq![TAB] + dec_seq(e.start as nat) + seq![TAB] + dec_seq(
            e.end as nat,
        ) + seq![TAB] + dec_seq(e.tid as nat) + seq![TAB] + dec_seq(e.tpos_start as nat) + seq![TAB]
            + seq![strand_byte(e.strand)]);
    }
    line
}

/// Copies a byte vector.
fn copy_bytes(v: &Vec<u8>) -> (r: Vec<u8>)
    ensures
        r@ == v@,
{
    let r = sub_vec(v.as_slice(), 0, v.len());
    proof {
        assert(r@ =~= v@);
    }
    r
}

/// Writes the four artifacts of an index and its catalog: the names as they
/// are, one decimal length per line, one `name<TAB>id` line per id, and one
/// six-field row per exon record, chromosome by chromosome in construction
/// order.
pub fn save_index(idx: &ExonIndex, cat: &TranscriptCatalog) -> (a: IndexArtifacts)
    requires
        idx.wf(),
        cat.wf(),
        cat.names@.len() <= 0x7FFF_FFFF,
    ensures
        lines_view(a.name_lines@) == cat.names_view(),
        a.len_lines@.len() == cat.lengths@.len(),
        forall|i: int|
            0 <= i < cat.lengths@.len() ==> #[trigger] a.len_lines@[i]@ == dec_seq(
                cat.lengths@[i] as nat,
            ),
        a.map_lines@.len() == cat.names@.len(),
        forall|i: int|
            0 <= i < cat.names@.len() ==> #[trigger] a.map_lines@[i]@ == cat.names_view()[i]
                + seq![TAB] + dec_seq(i as nat),
        a.exon_lines@.len() == rows_of(groups_view(*idx)).len(),
        forall|r: int|
            0 <= r < a.exon_lines@.len() ==> #[trigger] a.exon_lines@[r]@ == row_line(
                rows_of(groups_view(*idx))[r].0,
                rows_of(groups_view(*idx))[r].1,
            ),
{
    let mut name_lines: Vec<Vec<u8>> = Vec::new();
    let mut i: usize = 0;
    while i < cat.names.len()
        invariant
            0 <= i <= cat.names@.len(),
            name_lines@.len() == i,
            forall|j: int| 0 <= j < i ==> #[trigger] name_lines@[j]@ == cat.names_view()[j],
        decreases cat.names@.len() - i,
    {
        name_lines.push(copy_bytes(&cat.names[i]));
        i = i + 1;
    }
    let mut len_lines: Vec<Vec<u8>> = Vec::new();
    let mut i: usize = 0;
    while i < cat.lengths.len()
        invariant
            0 <= i <= cat.lengths@.len(),
            cat.wf(),
            len_lines@.len() == i,
            forall|j: int|
                0 <= j < i ==> #[trigger] len_lines@[j]@ == dec_seq(cat.lengths@[j] as nat),
        decreases cat.lengths@.len() - i,
    {
        let line = fmt_u32(cat.lengths[i] as u32);
        len_lines.push(line);
        i = i + 1;
    }
    let mut map_lines: Vec<Vec<u8>> = Vec::new();
    let mut i: usize = 0;
    while i < cat.names.len()
        invariant
            0 <= i <= cat.names@.len(),
            cat.names@.len() <= 0x7FFF_FFFF,
            map_lines@.len() == i,
            forall|j: int|
                0 <= j < i ==> #[trigger] map_lines@[j]@ == cat.names_view()[j] + seq![TAB]
                    + dec_seq(j as nat),
        decreases cat.names@.len() - i,
    {
        let mut line = copy_bytes(&cat.names[i]);
        line.push(TAB);
        let digits = fmt_u32(i as u32);
        append_bytes(&mut line, digits.as_slice());
        proof {
            assert(line@ =~= cat.names_view()[i as int] + seq![TAB] + dec_seq(i as nat));
        }
        map_lines.push(line);
        i = i + 1;
    }
    let mut exon_lines: Vec<Vec<u8>> = Vec::new();
    let ghost gv = groups_view(*idx);
    let mut g: usize = 0;
    proof {
        assert(rows_of(gv.subrange(0, 0)) =~= Seq::<(Seq<u8>, ExonNode)>::empty());
    }
    while g < idx.chroms.len()
        invariant
            0 <= g <= idx.chroms@.len(),
            idx.wf(),
            gv == groups_view(*idx),
            gv.len() == idx.chroms@.len(),
            exon_lines@.len() == rows_of(gv.subrange(0, g as int)).len(),
            forall|r: int|
                0 <= r < exon_lines@.len() ==> #[trigger] exon_lines@[r]@ == row_line(
                    rows_of(gv.subrange(0, g as int))[r].0,
                    rows_of(gv.subrange(0, g as int))[r].1,
                ),
        decreases idx.chroms@.len() - g,
    {
        let grp = &idx.chroms[g];
        let ghost rows_before = rows_of(gv.subrange(0, g as int));
        let mut k: usize = 0;
        while k < grp.recs.len()
            invariant
                0 <= k <= grp.recs@.len(),
                idx.wf(),
                0 <= g < idx.chroms@.len(),
                grp == &idx.chroms@[g as int],
                gv == groups_view(*idx),
                gv[g as int] == (grp.name@, grp.recs@),
                rows_before == rows_of(gv.subrange(0, g as int)),
                exon_lines@.len() == rows_before.len() + k,
                forall|r: int|
                    0 <= r < rows_before.len() ==> #[trigger] exon_lines@[r]@ == row_line(
                        rows_before[r].0,
                        rows_before[r].1,
                    ),
                forall|r: int|
                    rows_before.len() <= r < exon_lines@.len() ==> #[trigger] exon_lines@[r]@
                        == row_line(grp.name@, grp.recs@[r - rows_before.len()]),
            decreases grp.recs@.len() - k,
        {
            let e = grp.recs[k];
            proof {
                assert(grp.wf());
                assert(exon_wf(e));
            }
            let line = build_row(&grp.name, &e);
            exon_lines.push(line);
            k = k + 1;
        }
        proof {
            lemma_rows_prefix(gv, g as int);
            assert(group_rows(gv[g as int]).len() == grp.recs@.len());
            assert forall|r: int|
                0 <= r < exon_lines@.len() implies #[trigger] exon_lines@[r]@ == row_line(
                rows_of(gv.subrange(0, g + 1))[r].0,
                rows_of(gv.subrange(0, g + 1))[r].1,
            ) by {
                if r < rows_before.len() {
                    assert(rows_of(gv.subrange(0, g + 1))[r] == rows_before[r]);
                } else {
                    assert(rows_of(gv.subrange(0, g + 1))[r] == group_rows(gv[g as int])[r
                        - rows_before.len()]);
                    assert(group_rows(gv[g as int])[r - rows_before.len()] == (grp.name@,
                    grp.recs@[r - rows_before.len()]));
                }
            }
        }
        g = g + 1;
    }
    proof {
        assert(gv.subrange(0, gv.len() as int) =~= gv);
        assert(lines_view(name_lines@) =~= cat.names_view());
    }
    IndexArtifacts { map_lines, name_lines, len_lines, exon_lines }
}

/// Rebuilds the index and catalog from the four artifacts without the
/// original annotation. Whatever it accepts it reads back exactly: the
/// returned catalog's names are the name lines, its lengths are the parsed
/// length lines, and the returned index's exon rows, chromosome by
/// chromosome in run order, are what the exon lines parse to. Inconsistent
/// artifacts (duplicated names, a name-to-id table that does not match,
/// an exon row naming an unknown transcript id, a chromosome run that
/// reappears, or any malformed field) are rejected as a corrupted index.
pub fn load_tree(a: &IndexArtifacts) -> (r: Result<(ExonIndex, TranscriptCatalog), IndexError>)
    ensures
        match r {
            Ok(p) => {
                &&& p.0.wf()
                &&& p.1.wf()
                &&& p.0.tids_below(p.1.names@.len() as int)
                &&& p.1.names@.len() <= 0x7FFF_FFFF
                &&& lines_view(a.name_lines@) == p.1.names_view()
                &&& a.len_lines@.len() == p.1.lengths@.len()
                &&& forall|i: int|
                    0 <= i < p.1.lengths@.len() ==> parse_u32_spec(#[trigger] a.len_lines@[i]@)
                        == Some(p.1.lengths@[i] as u32)
                &&& a.exon_lines@.len() == rows_of(groups_view(p.0)).len()
                &&& forall|r2: int|
                    0 <= r2 < a.exon_lines@.len() ==> line_parses_to(
                        #[trigger] a.exon_lines@[r2]@,
                        rows_of(groups_view(p.0))[r2].0,
                        rows_of(groups_view(p.0))[r2].1,
                    )
            },
            Err(e) => e == IndexError::CorruptedIndex,
        },
        r is Ok <== is_canonical(a),
{
    let ghost cano = is_canonical(a);
    let ghost m: (Seq<Seq<u8>>, Seq<i32>, Seq<(Seq<u8>, Seq<ExonNode>)>) = if cano {
        choose|m: (Seq<Seq<u8>>, Seq<i32>, Seq<(Seq<u8>, Seq<ExonNode>)>)|
            model_wf(m.0, m.1, m.2) && encodes(
                lines_view(a.map_lines@),
                lines_view(a.name_lines@),
                lines_view(a.len_lines@),
                lines_view(a.exon_lines@),
                m.0,
                m.1,
                m.2,
            )
    } else {
        arbitrary()
    };
    proof {
        if cano {
            assert(model_wf(m.0, m.1, m.2) && encodes(
                lines_view(a.map_lines@),
                lines_view(a.name_lines@),
                lines_view(a.len_lines@),
                lines_view(a.exon_lines@),
                m.0,
                m.1,
                m.2,
            ));
        }
    }
    let mut cat = TranscriptCatalog::new();
    // transcript names, in id order
    let mut i: usize = 0;
    while i < a.name_lines.len()
        invariant
            cano == is_canonical(a),
            cano ==> model_wf(m.0, m.1, m.2) && encodes(
                lines_view(a.map_lines@),
                lines_view(a.name_lines@),
                lines_view(a.len_lines@),
                lines_view(a.exon_lines@),
                m.0,
                m.1,
                m.2,
            ),
            0 <= i <= a.name_lines@.len(),
            cat.names@.len() == i,
            cat.lengths@.len() == 0,
            forall|j: int| 0 <= j < i ==> cat.names_view()[j] == #[trigger] a.name_lines@[j]@,
            forall|j: int| 0 <= j < i ==> line_clean(#[trigger] cat.names_view()[j]),
            forall|j1: int, j2: int|
                0 <= j1 < j2 < i ==> cat.names_view()[j1] != cat.names_view()[j2],
        decreases a.name_lines@.len() - i,
    {
        let nm = copy_bytes(&a.name_lines[i]);
        proof {
            if cano {
                assert(lines_view(a.name_lines@)[i as int] == m.0[i as int]);
                assert(nm@ == m.0[i as int]);
            }
        }
        if !crate::bytes::is_line_clean(nm.as_slice()) {
            proof {
                if cano {
                    assert(line_clean(m.0[i as int]));
                    assert(false);
                }
            }
            return Err(IndexError::CorruptedIndex);
        }
        match cat.id_of(&nm) {
            Some(dup) => {
                proof {
                    if cano {
                        assert(cat.names_view()[dup as int] == m.0[dup as int]);
                        assert(m.0[dup as int] == m.0[i as int]);
                        assert(false);
                    }
                }
                return Err(IndexError::CorruptedIndex);
            },
            None => {},
        }
        let ghost view_pre = cat.names_view();
        let ghost nm_v = nm@;
        cat.names.push(nm);
        proof {
            assert(cat.names_view() =~= view_pre.push(nm_v));
        }
        i = i + 1;
    }
    if cat.names.len() > 0x7FFF_FFFFusize {
        proof {
            if cano {
                assert(cat.names@.len() == lines_view(a.name_lines@).len());
                assert(false);
            }
        }
        return Err(IndexError::CorruptedIndex);
    }
    // transcript lengths
    let ghost names_final = cat.names_view();
    let mut i: usize = 0;
    while i < a.len_lines.len()
        invariant
            cano == is_canonical(a),
            cano ==> model_wf(m.0, m.1, m.2) && encodes(
                lines_view(a.map_lines@),
                lines_view(a.name_lines@),
                lines_view(a.len_lines@),
                lines_view(a.exon_lines@),
                m.0,
                m.1,
                m.2,
            ),
            0 <= i <= a.len_lines@.len(),
            cat.lengths@.len() == i,
            cat.names_view() == names_final,
            cat.names@.len() <= 0x7FFF_FFFF,
            cat.names@.len() == a.name_lines@.len(),
            forall|j: int| 0 <= j < cat.names@.len() ==> cat.names_view()[j] == #[trigger] a.name_lines@[j]@,
            forall|j: int| 0 <= j < cat.names@.len() ==> line_clean(#[trigger] cat.names_view()[j]),
            forall|j1: int, j2: int|
                0 <= j1 < j2 < cat.names@.len() ==> cat.names_view()[j1] != cat.names_view()[j2],
            forall|j: int|
                0 <= j < i ==> parse_u32_spec(#[trigger] a.len_lines@[j]@) == Some(
                    cat.lengths@[j] as u32,
                ),
            forall|j: int| 0 <= j < i ==> 0 <= #[trigger] cat.lengths@[j],
        decreases a.len_lines@.len() - i,
    {
        proof {
            if cano {
                assert(lines_view(a.len_lines@)[i as int] == dec_seq(m.1[i as int] as nat));
                assert(a.len_lines@[i as int]@ == dec_seq((m.1[i as int] as u32) as nat));
                lemma_dec_round_trip(m.1[i as int] as u32);
            }
        }
        match crate::bytes::parse_u32(a.len_lines[i].as_slice()) {
            None => {
                proof {
                    if cano {
                        assert(false);
                    }
                }
                return Err(IndexError::CorruptedIndex);
            },
            Some(v) => {
                if v > 0x7FFF_FFFFu32 {
                    proof {
                        if cano {
                            assert(v == m.1[i as int] as u32);
                            assert(false);
                        }
                    }
                    return Err(IndexError::CorruptedIndex);
                }
                cat.lengths.push(v as i32);
            },
        }
        i = i + 1;
    }
    if cat.lengths.len() != cat.names.len() {
        proof {
            if cano {
                assert(cat.lengths@.len() == lines_view(a.len_lines@).len());
                assert(cat.names@.len() == lines_view(a.name_lines@).len());
                assert(false);
            }
        }
        return Err(IndexError::CorruptedIndex);
    }
    proof {
        assert(cat.wf());
    }
    // the name-to-id table must agree with the name list
    if a.map_lines.len() != cat.names.len() {
        proof {
            if cano {
                assert(lines_view(a.map_lines@).len() == m.0.len());
                assert(false);
            }
        }
        return Err(IndexError::CorruptedIndex);
    }
    let mut i: usize = 0;
    while i < a.map_lines.len()
        invariant
            cano == is_canonical(a),
            cano ==> model_wf(m.0, m.1, m.2) && encodes(
                lines_view(a.map_lines@),
                lines_view(a.name_lines@),
                lines_view(a.len_lines@),
                lines_view(a.exon_lines@),
                m.0,
                m.1,
                m.2,
            ),
            0 <= i <= a.map_lines@.len(),
            a.map_lines@.len() == cat.names@.len(),
            cat.names@.len() <= 0x7FFF_FFFF,
            cat.names@.len() == a.name_lines@.len(),
            forall|j: int|
                0 <= j < cat.names@.len() ==> cat.names_view()[j] == #[trigger] a.name_lines@[j]@,
            cat.wf(),
        decreases a.map_lines@.len() - i,
    {
        let fields = crate::bytes::split_tabs(a.map_lines[i].as_slice());
        proof {
            if cano {
                let fs2 = seq![m.0[i as int], dec_seq(i as nat)];
                crate::bytes::lemma_dec_seq_digits(i as nat);
                assert forall|x: int| 0 <= x < fs2.len() implies crate::bytes::tab_free(
                    #[trigger] fs2[x],
                ) by {
                    if x == 0 {
                        assert(line_clean(m.0[i as int]));
                    } else {
                        assert(crate::bytes::all_digits(fs2[1]));
                    }
                }
                lemma_split_join(fs2);
                lemma_join2(m.0[i as int], dec_seq(i as nat));
                assert(lines_view(a.map_lines@)[i as int] == m.0[i as int] + seq![TAB] + dec_seq(
                    i as nat,
                ));
                assert(split_spec(a.map_lines@[i as int]@) == fs2);
                lemma_dec_round_trip(i as u32);
                assert(parse_u32_spec(dec_seq(i as nat)) == Some(i as u32));
            }
        }
        if fields.len() != 2 {
            proof {
                if cano {
                    assert(false);
                }
            }
            return Err(IndexError::CorruptedIndex);
        }
        if !crate::bytes::bytes_eq(fields[0].as_slice(), cat.names[i].as_slice()) {
            proof {
                if cano {
                    assert(fields@[0]@ == m.0[i as int]);
                    assert(cat.names_view()[i as int] == m.0[i as int]);
                    assert(false);
                }
            }
            return Err(IndexError::CorruptedIndex);
        }
        match crate::bytes::parse_u32(fields[1].as_slice()) {
            Some(v) if v as usize == i => {},
            _ => {
                proof {
                    if cano {
                        assert(fields@[1]@ == dec_seq(i as nat));
                        assert(parse_u32_spec(fields@[1]@) == Some(i as u32));
                        assert(false);
                    }
                }
                return Err(IndexError::CorruptedIndex);
            },
        }
        i = i + 1;
    }
    // the exon table, grouped into contiguous chromosome runs
    if a.exon_lines.len() >= 0xFFFF_FFFFusize {
        proof {
            if cano {
                assert(lines_view(a.exon_lines@).len() == rows_of(m.2).len());
                assert(false);
            }
        }
        return Err(IndexError::CorruptedIndex);
    }
    let mut chrom_names: Vec<Vec<u8>> = Vec::new();
    let mut chrom_recs: Vec<Vec<ExonNode>> = Vec::new();
    let ghost mut gs: Seq<(Seq<u8>, Seq<ExonNode>)> = Seq::empty();
    let ghost mut mj: int = 0;
    let ghost mut mk: int = 0;
    let mut r: usize = 0;
    proof {
        assert(rows_of(gs) =~= Seq::<(Seq<u8>, ExonNode)>::empty());
        if cano {
            assert(gs =~= partial_groups(m.2, 0, 0));
            assert(rows_of(m.2.subrange(0, 0)) =~= Seq::<(Seq<u8>, ExonNode)>::empty());
        }
    }
    while r < a.exon_lines.len()
        invariant
            cano == is_canonical(a),
            cano ==> model_wf(m.0, m.1, m.2) && encodes(
                lines_view(a.map_lines@),
                lines_view(a.name_lines@),
                lines_view(a.len_lines@),
                lines_view(a.exon_lines@),
                m.0,
                m.1,
                m.2,
            ),
            cano ==> 0 <= mj <= m.2.len() && 0 <= mk,
            cano ==> (mj < m.2.len() ==> mk < m.2[mj].1.len()),
            cano ==> (mj == m.2.len() ==> mk == 0),
            cano ==> r == rows_of(m.2.subrange(0, mj)).len() + mk,
            cano ==> gs == partial_groups(m.2, mj, mk),
            cano ==> cat.names@.len() == m.0.len(),
            0 <= r <= a.exon_lines@.len(),
            a.exon_lines@.len() < 0xFFFF_FFFF,
            cat.wf(),
            cat.names@.len() == cat.lengths@.len(),
            cat.names@.len() <= 0x7FFF_FFFF,
            chrom_names@.len() == gs.len(),
            chrom_recs@.len() == gs.len(),
            forall|g: int| 0 <= g < gs.len() ==> chrom_names@[g]@ == gs[g].0,
            forall|g: int| 0 <= g < gs.len() ==> chrom_recs@[g]@ == gs[g].1,
            forall|g: int| 0 <= g < gs.len() ==> (#[trigger] gs[g]).1.len() <= r,
            forall|g: int| 0 <= g < gs.len() ==> line_clean((#[trigger] gs[g]).0),
            forall|g1: int, g2: int| 0 <= g1 < g2 < gs.len() ==> gs[g1].0 != gs[g2].0,
            forall|g: int, k: int|
                0 <= g < gs.len() && 0 <= k < gs[g].1.len() ==> exon_wf(#[trigger] gs[g].1[k])
                    && gs[g].1[k].tid < cat.names@.len(),
            rows_of(gs).len() == r,
            forall|q: int|
                0 <= q < r ==> line_parses_to(
                    #[trigger] a.exon_lines@[q]@,
                    rows_of(gs)[q].0,
                    rows_of(gs)[q].1,
                ),
        decreases a.exon_lines@.len() - r,
    {
        let ghost mc: Seq<u8> = if cano { m.2[mj].0 } else { arbitrary() };
        let ghost me: ExonNode = if cano { m.2[mj].1[mk] } else { arbitrary() };
        proof {
            if cano {
                if mj == m.2.len() {
                    assert(m.2.subrange(0, mj) =~= m.2);
                    assert(false);
                }
                lemma_rows_prefix(m.2, mj);
                lemma_rows_of_extends(m.2, mj + 1);
                assert(rows_of(m.2.subrange(0, mj + 1))[r as int] == group_rows(m.2[mj])[mk]);
                assert(rows_of(m.2)[r as int] == (mc, me));
                assert(lines_view(a.exon_lines@)[r as int] == row_line(mc, me));
                assert(line_clean(mc) && exon_wf(me) && me.tid < m.0.len());
                lemma_row_round_trip(mc, me);
                assert(line_parses_to(a.exon_lines@[r as int]@, mc, me));
            }
        }
        let fields = crate::bytes::split_tabs(a.exon_lines[r].as_slice());
        if fields.len() != 6 {
            proof {
                if cano {
                    assert(false);
                }
            }
            return Err(IndexError::CorruptedIndex);
        }
        let chrom = &fields[0];
        if !crate::bytes::is_line_clean(chrom.as_slice()) {
            proof {
                if cano {
                    assert(chrom@ == mc);
                    assert(false);
                }
            }
            return Err(IndexError::CorruptedIndex);
        }
        let start_v = match crate::bytes::parse_u32(fields[1].as_slice()) {
            Some(v) if v <= 0x7FFF_FFFFu32 => v,
            _ => {
                proof {
                    if cano {
                        assert(parse_u32_spec(fields@[1]@) == Some(me.start as u32));
                        assert(false);
                    }
                }
                return Err(IndexError::CorruptedIndex);
            },
        };
        let end_v = match crate::bytes::parse_u32(fields[2].as_slice()) {
            Some(v) if v <= 0x7FFF_FFFFu32 => v,
            _ => {
                proof {
                    if cano {
                        assert(parse_u32_spec(fields@[2]@) == Some(me.end as u32));
                        assert(false);
                    }
                }
                return Err(IndexError::CorruptedIndex);
            },
        };
        if end_v < start_v {
            proof {
                if cano {
                    assert(start_v == me.start as u32 && end_v == me.end as u32);
                    assert(false);
                }
            }
            return Err(IndexError::CorruptedIndex);
        }
        let tid_v = match crate::bytes::parse_u32(fields[3].as_slice()) {
            Some(v) if (v as usize) < cat.names.len() => v,
            _ => {
                proof {
                    if cano {
                        assert(parse_u32_spec(fields@[3]@) == Some(me.tid as u32));
                        assert(false);
                    }
                }
                return Err(IndexError::CorruptedIndex);
            },
        };
        let tpos_v = match crate::bytes::parse_u32(fields[4].as_slice()) {
            Some(v) if v <= 0x7FFF_FFFFu32 => v,
            _ => {
                proof {
                    if cano {
                        assert(parse_u32_spec(fields@[4]@) == Some(me.tpos_start as u32));
                        assert(false);
                    }
                }
                return Err(IndexError::CorruptedIndex);
            },
        };
        if tpos_v as i64 + (end_v as i64 - start_v as i64 + 1) > 0x7FFF_FFFFi64 {
            proof {
                if cano {
                    assert(start_v == me.start as u32 && end_v == me.end as u32 && tpos_v
                        == me.tpos_start as u32);
                    assert(false);
                }
            }
            return Err(IndexError::CorruptedIndex);
        }
        let strand: Strand = if fields[5].len() == 1 && fields[5][0] == 43 {
            Strand::Forward
        } else if fields[5].len() == 1 && fields[5][0] == 45 {
            Strand::Reverse
        } else {
            proof {
                if cano {
                    assert(split_spec(a.exon_lines@[r as int]@)[5] == seq![43u8] || split_spec(
                        a.exon_lines@[r as int]@,
                    )[5] == seq![45u8]);
                    assert(fields@[5]@.len() == 1);
                    assert(fields@[5]@[0] == 43 || fields@[5]@[0] == 45);
                    assert(false);
                }
            }
            return Err(IndexError::CorruptedIndex);
        };
        let e = ExonNode {
            start: start_v as i32,
            end: end_v as i32,
            tid: tid_v as i32,
            tpos_start: tpos_v as i32,
            strand,
        };
        proof {
            assert(fields@[5]@ =~= seq![strand_byte(e.strand)]);
            assert(exon_wf(e));
            assert(line_parses_to(a.exon_lines@[r as int]@, chrom@, e));
            if cano {
                lemma_line_parses_unique(a.exon_lines@[r as int]@, chrom@, e, mc, me);
                assert(chrom@ == mc && e == me);
            }
        }
        let is_run_continuation = if chrom_names.len() > 0 {
            crate::bytes::bytes_eq(
                chrom_names[chrom_names.len() - 1].as_slice(),
                chrom.as_slice(),
            )
        } else {
            false
        };
        if is_run_continuation {
            let li = chrom_recs.len() - 1;
            let mut grp = chrom_recs.remove(li);
            grp.push(e);
            chrom_recs.push(grp);
            proof {
                lemma_rows_extend_last(gs, e);
                gs = gs.update(gs.len() - 1, (gs.last().0, gs.last().1.push(e)));
                if cano {
                    // a continued run sits inside the current model group
                    if mk == 0 {
                        assert(gs.len() > 0);
                        if mj == 0 {
                            assert(partial_groups(m.2, 0, 0) =~= Seq::<(
                                Seq<u8>,
                                Seq<ExonNode>,
                            )>::empty());
                            assert(false);
                        }
                        assert(partial_groups(m.2, mj, 0) == m.2.subrange(0, mj));
                        assert(m.2.subrange(0, mj).last() == m.2[mj - 1]);
                        assert(m.2[mj - 1].0 != m.2[mj].0);
                        assert(false);
                    }
                    let old_partial = partial_groups(m.2, mj, mk);
                    assert(old_partial.last() == (m.2[mj].0, m.2[mj].1.subrange(0, mk)));
                    assert(m.2[mj].1.subrange(0, mk).push(e) =~= m.2[mj].1.subrange(0, mk + 1));
                    assert(gs =~= partial_groups(m.2, mj, mk + 1));
                    mk = mk + 1;
                    if mk == m.2[mj].1.len() {
                        assert(m.2[mj].1.subrange(0, mk) =~= m.2[mj].1);
                        assert(partial_groups(m.2, mj, mk) =~= m.2.subrange(0, mj + 1));
                        lemma_rows_prefix(m.2, mj);
                        mj = mj + 1;
                        mk = 0;
                    }
                    if mk > 0 {
                        lemma_rows_prefix(m.2, mj);
                    }
                }
            }
        } else {
            proof {
                if cano && mk > 0 {
                    // mid-group the run cannot break: the last rebuilt group
                    // carries this very chromosome
                    assert(gs.last() == (m.2[mj].0, m.2[mj].1.subrange(0, mk)));
                    assert(chrom_names@.len() > 0);
                    assert(chrom_names@[chrom_names@.len() - 1]@ == gs.last().0);
                    assert(gs.last().0 == chrom@);
                    assert(false);
                }
            }
            match crate::annotation::find_first(&chrom_names, chrom) {
                Some(seen) => {
                    // this chromosome already had a run earlier
                    proof {
                        if cano {
                            assert(gs == m.2.subrange(0, mj));
                            assert(chrom_names@[seen as int]@ == gs[seen as int].0);
                            assert(gs[seen as int].0 == m.2[seen as int].0);
                            assert(m.2[seen as int].0 == m.2[mj].0);
                            assert(false);
                        }
                    }
                    return Err(IndexError::CorruptedIndex);
                },
                None => {},
            }
            chrom_names.push(copy_bytes(chrom));
            let mut nv: Vec<ExonNode> = Vec::new();
            nv.push(e);
            proof {
                assert(nv@ =~= seq![e]);
            }
            chrom_recs.push(nv);
            proof {
                lemma_rows_push_group(gs, chrom@, e);
                gs = gs.push((chrom@, seq![e]));
                if cano {
                    assert(seq![e] =~= m.2[mj].1.subrange(0, 1));
                    assert(gs =~= partial_groups(m.2, mj, 1));
                    mk = 1;
                    if mk == m.2[mj].1.len() {
                        assert(m.2[mj].1.subrange(0, mk) =~= m.2[mj].1);
                        assert(partial_groups(m.2, mj, mk) =~= m.2.subrange(0, mj + 1));
                        lemma_rows_prefix(m.2, mj);
                        mj = mj + 1;
                        mk = 0;
                    }
                    if mk > 0 {
                        lemma_rows_prefix(m.2, mj);
                    }
                }
            }
        }
        proof {
            assert(rows_of(gs).len() == r + 1);
            assert(rows_of(gs)[r as int] == (chrom@, e));
            assert(line_parses_to(a.exon_lines@[r as int]@, chrom@, e));
        }
        r = r + 1;
    }
    // freeze the runs into interval trees
    let mut idx = ExonIndex::new();
    let mut g: usize = 0;
    while g < chrom_names.len()
        invariant
            0 <= g <= chrom_names@.len(),
            chrom_names@.len() == gs.len(),
            chrom_recs@.len() == gs.len(),
            forall|k: int| 0 <= k < gs.len() ==> chrom_names@[k]@ == gs[k].0,
            forall|k: int| 0 <= k < gs.len() ==> chrom_recs@[k]@ == gs[k].1,
            forall|k: int| 0 <= k < gs.len() ==> (#[trigger] gs[k]).1.len() < 0xFFFF_FFFF,
            forall|k: int| 0 <= k < gs.len() ==> line_clean((#[trigger] gs[k]).0),
            forall|g1: int, g2: int| 0 <= g1 < g2 < gs.len() ==> gs[g1].0 != gs[g2].0,
            forall|k: int, k2: int|
                0 <= k < gs.len() && 0 <= k2 < gs[k].1.len() ==> exon_wf(#[trigger] gs[k].1[k2])
                    && gs[k].1[k2].tid < cat.names@.len(),
            idx.chroms@.len() == g,
            forall|k: int| 0 <= k < g ==> (#[trigger] idx.chroms@[k]).wf(),
            forall|k: int| 0 <= k < g ==> (#[trigger] idx.chroms@[k]).name@ == gs[k].0,
            forall|k: int| 0 <= k < g ==> (#[trigger] idx.chroms@[k]).recs@ == gs[k].1,
        decreases chrom_names@.len() - g,
    {
        let name_g = copy_bytes(&chrom_names[g]);
        let src = &chrom_recs[g];
        let mut recs_g: Vec<ExonNode> = Vec::new();
        let mut k: usize = 0;
        while k < src.len()
            invariant
                0 <= k <= src@.len(),
                recs_g@ =~= src@.subrange(0, k as int),
            decreases src@.len() - k,
        {
            recs_g.push(src[k]);
            proof {
                assert(recs_g@ =~= src@.subrange(0, k + 1));
            }
            k = k + 1;
        }
        proof {
            assert(recs_g@ =~= src@);
            assert(gs[g as int].1.len() < 0xFFFF_FFFF);
            assert(recs_g@ == gs[g as int].1);
            assert(line_clean(gs[g as int].0));
        }
        let grp = crate::index::ChromGroup::new(name_g, recs_g);
        idx.chroms.push(grp);
        g = g + 1;
    }
    proof {
        assert(groups_view(idx) =~= gs);
        assert(idx.wf());
        assert(cat.wf());
        assert(idx.tids_below(cat.names@.len() as int));
        assert(lines_view(a.name_lines@) =~= cat.names_view());
    }
    Ok((idx, cat))
}

/// Round trip: an index written by `save_index` and read back by `load_tree`
/// describes the same transcripts and the same chromosome-tagged exon rows,
/// so every containment or overlap query is answered identically. The
/// hypotheses are exactly what the two functions' contracts give for one
/// artifact value.
pub proof fn lemma_round_trip(
    name_lines: Seq<Seq<u8>>,
    len_lines: Seq<Seq<u8>>,
    exon_lines: Seq<Seq<u8>>,
    names1: Seq<Seq<u8>>,
    lengths1: Seq<i32>,
    rows1: Seq<(Seq<u8>, ExonNode)>,
    names2: Seq<Seq<u8>>,
    lengths2: Seq<i32>,
    rows2: Seq<(Seq<u8>, ExonNode)>,
)
    requires
        name_lines == names1,
        name_lines == names2,
        len_lines.len() == lengths1.len(),
        len_lines.len() == lengths2.len(),
        forall|i: int|
            0 <= i < lengths1.len() ==> parse_u32_spec(#[trigger] len_lines[i]) == Some(
                lengths1[i] as u32,
            ),
        forall|i: int|
            0 <= i < lengths2.len() ==> parse_u32_spec(#[trigger] len_lines[i]) == Some(
                lengths2[i] as u32,
            ),
        forall|i: int| 0 <= i < lengths1.len() ==> (#[trigger] lengths1[i]) >= 0,
        forall|i: int| 0 <= i < lengths2.len() ==> (#[trigger] lengths2[i]) >= 0,
        exon_lines.len() == rows1.len(),
        exon_lines.len() == rows2.len(),
        forall|r: int|
            0 <= r < rows1.len() ==> line_parses_to(
                #[trigger] exon_lines[r],
                rows1[r].0,
                rows1[r].1,
            ),
        forall|r: int|
            0 <= r < rows2.len() ==> line_parses_to(
                #[trigger] exon_lines[r],
                rows2[r].0,
                rows2[r].1,
            ),
    ensures
        names1 == names2,
        lengths1 == lengths2,
        rows1 == rows2,
{
    assert forall|i: int| 0 <= i < lengths1.len() implies lengths1[i] == lengths2[i] by {
        let v = parse_u32_spec(len_lines[i]);
        assert(v == Some(lengths1[i] as u32));
        assert(v == Some(lengths2[i] as u32));
        assert(lengths1[i] as u32 == lengths2[i] as u32);
    }
    assert(lengths1 =~= lengths2);
    assert forall|r: int| 0 <= r < rows1.len() implies rows1[r] == rows2[r] by {
        lemma_line_parses_unique(exon_lines[r], rows1[r].0, rows1[r].1, rows2[r].0, rows2[r].1);
    }
    assert(rows1 =~= rows2);
}

/// Writes the index out and reads it back: the round trip. Whenever the
/// reload succeeds it reproduces the transcripts and the chromosome-tagged
/// exon rows exactly, so the reloaded index answers every query as the
/// original does; and on an index whose exons name catalog transcripts, with
/// no chromosome left empty, the reload always succeeds.
pub fn reload_index(idx: &ExonIndex, cat: &TranscriptCatalog) -> (r: Option<
    (ExonIndex, TranscriptCatalog),
>)
    requires
        idx.wf(),
        cat.wf(),
        cat.names@.len() <= 0x7FFF_FFFF,
    ensures
        match r {
            Some(p) => {
                &&& p.0.wf()
                &&& p.1.wf()
                &&& p.1.names_view() == cat.names_view()
                &&& p.1.lengths@ == cat.lengths@
                &&& rows_of(groups_view(p.0)) == rows_of(groups_view(*idx))
            },
            None => true,
        },
        r is Some <== model_wf(cat.names_view(), cat.lengths@, groups_view(*idx)),
{
    let artifacts = save_index(idx, cat);
    proof {
        if model_wf(cat.names_view(), cat.lengths@, groups_view(*idx)) {
            assert(lines_view(artifacts.name_lines@) =~= cat.names_view());
            let w = (cat.names_view(), cat.lengths@, groups_view(*idx));
            assert(model_wf(w.0, w.1, w.2));
            assert(encodes(
                lines_view(artifacts.map_lines@),
                lines_view(artifacts.name_lines@),
                lines_view(artifacts.len_lines@),
                lines_view(artifacts.exon_lines@),
                w.0,
                w.1,
                w.2,
            ));
            assert(is_canonical(&artifacts));
        }
    }
    match load_tree(&artifacts) {
        Ok(p) => {
            proof {
                let gv = groups_view(*idx);
                lemma_rows_of_wf(gv);
                assert forall|r: int|
                    0 <= r < artifacts.exon_lines@.len() implies line_parses_to(
                    #[trigger] artifacts.exon_lines@[r]@,
                    rows_of(gv)[r].0,
                    rows_of(gv)[r].1,
                ) by {
                    lemma_row_round_trip(rows_of(gv)[r].0, rows_of(gv)[r].1);
                }
                assert forall|i: int|
                    0 <= i < cat.lengths@.len() implies parse_u32_spec(
                    #[trigger] artifacts.len_lines@[i]@,
                ) == Some(cat.lengths@[i] as u32) by {
                    lemma_dec_round_trip(cat.lengths@[i] as u32);
                }
                lemma_round_trip(
                    lines_view(artifacts.name_lines@),
                    artifacts.len_lines@.map_values(|l: Vec<u8>| l@),
                    artifacts.exon_lines@.map_values(|l: Vec<u8>| l@),
                    cat.names_view(),
                    cat.lengths@,
                    rows_of(groups_view(*idx)),
                    p.1.names_view(),
                    p.1.lengths@,
                    rows_of(groups_view(p.0)),
                );
            }
            Some(p)
        },
        Err(_) => None,
    }
}

} // verus!
