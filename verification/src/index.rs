//! The exon interval index: one interval tree per chromosome, each leaf an
//! `ExonNode`. The trees themselves come from the `coitrees` crate; their
//! contents are named by `tree_entries` and reached through two trusted
//! wrappers, and everything above those wrappers is verified.

use vstd::prelude::*;
use crate::bytes::line_clean;
use crate::exon::{exon_wf, ExonNode};

verus! {

/// An interval tree over one chromosome's exons, holding the position of
/// each exon in that chromosome's record list as its metadata. The tree
/// itself is a `coitrees::COITree`, opaque to verification; `tree_entries`
/// names its contents.
#[verifier::external_body]
pub struct ExonTree {
    tree: coitrees::COITree<usize, u32>,
}

/// The intervals a tree stores, each as (first, last, metadata), in the
/// order the tree keeps internally.
pub uninterp spec fn tree_entries(t: ExonTree) -> Seq<(i32, i32, usize)>;

/// The intervals of a record list, each tagged with its own position.
pub open spec fn entry_seq(rs: Seq<ExonNode>) -> Seq<(i32, i32, usize)> {
    Seq::new(rs.len(), |i: int| (rs[i].start, rs[i].end, i as usize))
}

/// Whether exon `e` overlaps the inclusive genomic interval `[first, last]`.
pub open spec fn spec_overlaps(e: ExonNode, first: i32, last: i32) -> bool {
    e.start <= last && first <= e.end
}

/// Relies on coitrees::COITree::new: the tree stores exactly the given
/// intervals with their metadata (reordered internally), and panics only
/// when given u32::MAX or more intervals.
#[verifier::external_body]
fn coitree_new(recs: &Vec<ExonNode>) -> (t: ExonTree)
    requires
        recs@.len() < 0xFFFF_FFFFusize,
    ensures
        tree_entries(t).to_multiset() == entry_seq(recs@).to_multiset(),
        tree_entries(t).len() == recs@.len(),
{
    let nodes: Vec<coitrees::IntervalNode<usize, u32>> = recs
        .iter()
        .enumerate()
        .map(|(i, r)| coitrees::IntervalNode::new(r.start, r.end, i))
        .collect();
    ExonTree { tree: coitrees::COITree::new(nodes) }
}

/// Some entry with metadata `m` overlaps the inclusive interval `[first, last]`.
pub open spec fn has_overlapping_entry(
    es: Seq<(i32, i32, usize)>,
    first: i32,
    last: i32,
    m: usize,
) -> bool {
    exists|j: int|
        0 <= j < es.len() && (#[trigger] es[j]).2 == m && es[j].0 <= last && first <= es[j].1
}

/// No two entries carry the same metadata.
pub open spec fn meta_distinct(es: Seq<(i32, i32, usize)>) -> bool {
    forall|i: int, j: int| 0 <= i < j < es.len() ==> es[i].2 != es[j].2
}

/// Relies on coitrees::COITree::query: it calls the visitor exactly once for
/// every stored interval overlapping `[first, last]` (ends inclusive).
#[verifier::external_body]
fn coitree_query(t: &ExonTree, first: i32, last: i32) -> (r: Vec<usize>)
    ensures
        forall|m: usize|
            #[trigger] r@.contains(m) <==> has_overlapping_entry(tree_entries(*t), first, last, m),
        r@.no_duplicates() <== meta_distinct(tree_entries(*t)),
{
    let mut r: Vec<usize> = Vec::new();
    t.tree.query(first, last, |n| r.push(n.metadata));
    r
}

/// All exons of one chromosome, in construction order, together with the
/// interval tree built over them.
pub struct ChromGroup {
    pub name: Vec<u8>,
    pub recs: Vec<ExonNode>,
    pub tree: ExonTree,
}

impl ChromGroup {
    /// The tree stores exactly the intervals of `recs`, tagged by position.
    pub open spec fn tree_wf(&self) -> bool {
        &&& self.recs@.len() < 0xFFFF_FFFFusize
        &&& tree_entries(self.tree).to_multiset() == entry_seq(self.recs@).to_multiset()
        &&& tree_entries(self.tree).len() == self.recs@.len()
    }

    pub open spec fn wf(&self) -> bool {
        &&& self.tree_wf()
        &&& line_clean(self.name@)
        &&& forall|i: int| 0 <= i < self.recs@.len() ==> exon_wf(#[trigger] self.recs@[i])
    }

    /// Builds the chromosome's tree over its records.
    pub fn new(name: Vec<u8>, recs: Vec<ExonNode>) -> (g: ChromGroup)
        requires
            recs@.len() < 0xFFFF_FFFFusize,
            line_clean(name@),
            forall|i: int| 0 <= i < recs@.len() ==> exon_wf(#[trigger] recs@[i]),
        ensures
            g.wf(),
            g.name == name,
            g.recs == recs,
    {
        let tree = coitree_new(&recs);
        ChromGroup { name, recs, tree }
    }

    /// Positions (into `recs`) of every exon overlapping `[first, last]`,
    /// each exactly once, in no particular order.
    pub fn query(&self, first: i32, last: i32) -> (r: Vec<usize>)
        requires
            self.wf(),
        ensures
            forall|m: usize|
                #[trigger] r@.contains(m) <==> (m as int) < self.recs@.len() && spec_overlaps(
                    self.recs@[m as int],
                    first,
                    last,
                ),
            r@.no_duplicates(),
    {
        let r = coitree_query(&self.tree, first, last);
        proof {
            let te = tree_entries(self.tree);
            let es = entry_seq(self.recs@);
            te.to_multiset_ensures();
            es.to_multiset_ensures();
            // the two lists hold the same elements
            assert forall|e: (i32, i32, usize)| te.contains(e) <==> es.contains(e) by {
                assert(te.to_multiset().count(e) == es.to_multiset().count(e));
            }
            // entry positions determine entries
            assert(forall|k: int| 0 <= k < es.len() ==> (#[trigger] es[k]).2 == k);
            assert forall|m: usize| #[trigger] r@.contains(m) implies (m as int)
                < self.recs@.len() && spec_overlaps(self.recs@[m as int], first, last) by {
                let j = choose|j: int|
                    0 <= j < te.len() && (#[trigger] te[j]).2 == m && te[j].0 <= last && first
                        <= te[j].1;
                assert(te.contains(te[j]));
                assert(es.contains(te[j]));
                let k = choose|k: int| 0 <= k < es.len() && es[k] == te[j];
                assert(k == m as int);
            }
            assert forall|m: usize|
                (m as int) < self.recs@.len() && spec_overlaps(
                    self.recs@[m as int],
                    first,
                    last,
                ) implies #[trigger] r@.contains(m) by {
                let e = es[m as int];
                assert(es.contains(e));
                assert(te.contains(e));
                let j = choose|j: int| 0 <= j < te.len() && te[j] == e;
                assert(te[j].2 == m && te[j].0 <= last && first <= te[j].1);
            }
            // distinct metadata in the tree, so no duplicates in the answer
            assert(es.no_duplicates());
            es.lemma_multiset_has_no_duplicates();
            te.lemma_multiset_has_no_duplicates_conv();
            assert forall|i: int, j: int| 0 <= i < j < te.len() implies te[i].2 != te[j].2 by {
                if te[i].2 == te[j].2 {
                    assert(es.contains(te[i]));
                    assert(es.contains(te[j]));
                    let ki = choose|k: int| 0 <= k < es.len() && es[k] == te[i];
                    let kj = choose|k: int| 0 <= k < es.len() && es[k] == te[j];
                    assert(ki == te[i].2 && kj == te[j].2);
                    assert(te[i] == te[j]);
                }
            }
        }
        r
    }
}

/// The whole index: one `ChromGroup` per chromosome, in first-seen order.
pub struct ExonIndex {
    pub chroms: Vec<ChromGroup>,
}

impl ExonIndex {
    pub open spec fn chrom_names(&self) -> Seq<Seq<u8>> {
        self.chroms@.map_values(|g: ChromGroup| g.name@)
    }

    pub open spec fn wf(&self) -> bool {
        &&& forall|i: int| 0 <= i < self.chroms@.len() ==> (#[trigger] self.chroms@[i]).wf()
        &&& forall|i: int, j: int|
            0 <= i < j < self.chroms@.len() ==> self.chrom_names()[i] != self.chrom_names()[j]
    }

    /// Every stored exon names a transcript id below `n`.
    pub open spec fn tids_below(&self, n: int) -> bool {
        forall|i: int, k: int|
            0 <= i < self.chroms@.len() && 0 <= k < self.chroms@[i].recs@.len()
                ==> #[trigger] self.chroms@[i].recs@[k].tid < n
    }

    pub fn new() -> (idx: ExonIndex)
        ensures
            idx.wf(),
            idx.chroms@.len() == 0,
    {
        ExonIndex { chroms: Vec::new() }
    }

    /// First position whose chromosome name equals `name`, if any.
    pub fn find_chrom(&self, name: &Vec<u8>) -> (r: Option<usize>)
        ensures
            match r {
                Some(i) => i < self.chroms@.len() && self.chrom_names()[i as int] == name@
                    && forall|j: int| 0 <= j < i ==> self.chrom_names()[j] != name@,
                None => forall|j: int|
                    0 <= j < self.chroms@.len() ==> self.chrom_names()[j] != name@,
            },
    {
        let mut i: usize = 0;
        while i < self.chroms.len()
            invariant
                0 <= i <= self.chroms@.len(),
                forall|j: int| 0 <= j < i ==> self.chrom_names()[j] != name@,
            decreases self.chroms@.len() - i,
        {
            if &self.chroms[i].name == name {
                proof {
                    assert(self.chroms@[i as int].name@ =~= name@);
                }
                return Some(i);
            }
            proof {
                assert(self.chrom_names()[i as int] == self.chroms@[i as int].name@);
                if self.chrom_names()[i as int] == name@ {
                    assert(self.chroms@[i as int].name@ =~= name@);
                    assert(false);
                }
            }
            i = i + 1;
        }
        None
    }
}

} // verus!
