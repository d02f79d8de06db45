//! Registry of transcript names, dense integer ids and total exonic lengths.

use vstd::prelude::*;
use crate::bytes::line_clean;

verus! {

/// Ordered registry of transcripts: `names[id]` and `lengths[id]` describe
/// the transcript with dense id `id`; ids are assigned in first-seen order.
pub struct TranscriptCatalog {
    pub names: Vec<Vec<u8>>,
    pub lengths: Vec<i32>,
}

impl TranscriptCatalog {
    /// Names as mathematical byte strings, by id.
    pub open spec fn names_view(&self) -> Seq<Seq<u8>> {
        self.names@.map_values(|n: Vec<u8>| n@)
    }

    /// One length per name, distinct clean names, non-negative lengths.
    pub open spec fn wf(&self) -> bool {
        &&& self.names@.len() == self.lengths@.len()
        &&& forall|i: int, j: int|
            0 <= i < j < self.names@.len() ==> self.names_view()[i] != self.names_view()[j]
        &&& forall|i: int| 0 <= i < self.names@.len() ==> line_clean(self.names_view()[i])
        &&& forall|i: int| 0 <= i < self.lengths@.len() ==> 0 <= #[trigger] self.lengths@[i]
    }

    pub fn new() -> (c: TranscriptCatalog)
        ensures
            c.wf(),
            c.names@.len() == 0,
            c.lengths@.len() == 0,
    {
        TranscriptCatalog { names: Vec::new(), lengths: Vec::new() }
    }

    pub fn len(&self) -> (n: usize)
        ensures
            n == self.names@.len(),
    {
        self.names.len()
    }

    /// First id whose name equals `name`, if any.
    pub fn id_of(&self, name: &Vec<u8>) -> (r: Option<usize>)
        ensures
            match r {
                Some(i) => i < self.names@.len() && self.names_view()[i as int] == name@
                    && forall|j: int| 0 <= j < i ==> self.names_view()[j] != name@,
                None => forall|j: int|
                    0 <= j < self.names@.len() ==> self.names_view()[j] != name@,
            },
    {
        let mut i: usize = 0;
        while i < self.names.len()
            invariant
                0 <= i <= self.names@.len(),
                forall|j: int| 0 <= j < i ==> self.names_view()[j] != name@,
            decreases self.names@.len() - i,
        {
            if &self.names[i] == name {
                proof {
                    assert(self.names@[i as int]@ =~= name@);
                }
                return Some(i);
            }
            proof {
                assert(self.names_view()[i as int] == self.names@[i as int]@);
                if self.names_view()[i as int] == name@ {
                    assert(self.names@[i as int]@ =~= name@);
                    assert(false);
                }
            }
            i = i + 1;
        }
        None
    }

    /// Total exonic length of transcript `id`.
    pub fn length_of(&self, id: usize) -> (r: i32)
        requires
            id < self.lengths@.len(),
        ensures
            r == self.lengths@[id as int],
    {
        self.lengths[id]
    }

    /// Name of transcript `id`.
    pub fn name_of(&self, id: usize) -> (r: &Vec<u8>)
        requires
            id < self.names@.len(),
        ensures
            r@ == self.names_view()[id as int],
    {
        &self.names[id]
    }
}

} // verus!
