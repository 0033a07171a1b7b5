use vstd::prelude::*;

use crate::error::IndexError;
use crate::score_vec::ScoreVec;

verus! {

/// The postings of one term: document identifiers in arrival order, and a
/// score record for each of them at the same position.
#[derive(Debug, Clone)]
pub struct HitList {
    doc_ids: Vec<usize>,
    scores: ScoreVec,
}

impl View for HitList {
    type V = (Seq<usize>, Seq<Seq<i32>>);

    /// The document identifiers and, position by position, their score records.
    closed spec fn view(&self) -> (Seq<usize>, Seq<Seq<i32>>) {
        (self.doc_ids@, self.scores@)
    }
}

impl HitList {
    /// Length of each score record.
    pub closed spec fn stride(&self) -> usize {
        self.scores.stride()
    }

    /// The score vector is well formed and as long as the identifier list.
    pub closed spec fn wf(&self) -> bool {
        &&& self.scores.wf()
        &&& self.doc_ids@.len() == self.scores@.len()
    }

    /// Every record of a well-formed list is `stride` values long.
    pub proof fn lemma_record_width(&self, j: int)
        requires
            self.wf(),
            0 <= j < self@.1.len(),
        ensures
            self@.1[j].len() == self.stride(),
    {
        self.scores.lemma_record_width(j);
    }

    pub fn new(score_dims: usize) -> (r: Self)
        requires
            score_dims >= 1,
        ensures
            r.wf(),
            r.stride() == score_dims,
            r@.0 == Seq::<usize>::empty(),
            r@.1 == Seq::<Seq<i32>>::empty(),
    {
        HitList { doc_ids: Vec::new(), scores: ScoreVec::new(score_dims) }
    }

    /// Appends `doc_id` with its score record as one step: when the record
    /// has the wrong length nothing is appended and `ShapeMismatch` comes back.
    pub fn add_doc(&mut self, doc_id: usize, scores: &mut Vec<i32>) -> (r: Result<(), IndexError>)
        requires
            old(self).wf(),
        ensures
            final(self).wf(),
            final(self).stride() == old(self).stride(),
            old(scores)@.len() == old(self).stride() ==> {
                &&& r is Ok
                &&& final(self)@.0 == old(self)@.0.push(doc_id)
                &&& final(self)@.1 == old(self)@.1.push(old(scores)@)
                &&& final(scores)@ == Seq::<i32>::empty()
            },
            old(scores)@.len() != old(self).stride() ==> {
                &&& r == Err::<(), IndexError>(
                    IndexError::ShapeMismatch { len: old(scores)@.len() as usize, stride: old(self).stride() },
                )
                &&& *final(self) == *old(self)
                &&& *final(scores) == *old(scores)
            },
    {
        match self.scores.add(scores) {
            Ok(()) => {
                self.doc_ids.push(doc_id);
                Ok(())
            },
            Err(e) => Err(e),
        }
    }

    /// The document identifiers, in the order they were added.
    pub fn get_docs(&self) -> (r: &[usize])
        ensures
            r@ == self@.0,
    {
        self.doc_ids.as_slice()
    }

    /// The score records, aligned position by position with `get_docs`.
    pub fn get_scores(&self) -> (r: &ScoreVec)
        ensures
            r@ == self@.1,
            r.stride() == self.stride(),
            self.wf() ==> r.wf(),
    {
        &self.scores
    }
}

/// However a posting list was built, a well-formed one holds as many
/// document identifiers as score records.
pub proof fn lemma_postings_aligned(h: &HitList)
    requires
        h.wf(),
    ensures
        h@.0.len() == h@.1.len(),
{
}

} // verus!
