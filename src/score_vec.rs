use vstd::prelude::*;

use crate::error::IndexError;

verus! {

/// A flat array of `i32` holding fixed-length records, `stride` values each.
#[derive(Debug, Clone)]
pub struct ScoreVec {
    values: Vec<i32>,
    stride: usize,
    size: usize,
}

/// `i < n` and `s >= 1` put the whole record `i` inside `n * s` values.
proof fn lemma_record_bounds(i: int, n: int, s: int)
    requires
        0 <= i < n,
        s >= 1,
    ensures
        0 <= i * s,
        i * s + s <= n * s,
        (i + 1) * s == i * s + s,
{
    assert(0 <= i * s) by (nonlinear_arith)
        requires 0 <= i, s >= 1;
    assert((i + 1) * s == i * s + s) by (nonlinear_arith);
    assert((i + 1) * s <= n * s) by (nonlinear_arith)
        requires i + 1 <= n, s >= 1;
}

impl View for ScoreVec {
    type V = Seq<Seq<i32>>;

    /// The records, in the order in which they were appended.
    closed spec fn view(&self) -> Seq<Seq<i32>> {
        Seq::new(
            self.size as nat,
            |i: int| self.values@.subrange(i * self.stride, i * self.stride + self.stride),
        )
    }
}

impl ScoreVec {
    /// Number of values in each record.
    pub closed spec fn stride(&self) -> usize {
        self.stride
    }

    /// The stride is positive and the flat array holds exactly `size`
    /// records, an addressable number of values.
    pub closed spec fn wf(&self) -> bool {
        &&& self.stride >= 1
        &&& self.values@.len() == self.size * self.stride
        &&& self.size * self.stride <= usize::MAX
    }

    /// Every record of a well-formed vector is `stride` values long.
    pub proof fn lemma_record_width(&self, i: int)
        requires
            self.wf(),
            0 <= i < self@.len(),
        ensures
            self@[i].len() == self.stride(),
    {
        lemma_record_bounds(i, self.size as int, self.stride as int);
    }

    pub fn new(stride: usize) -> (r: Self)
        requires
            stride >= 1,
        ensures
            r.wf(),
            r.stride() == stride,
            r@ == Seq::<Seq<i32>>::empty(),
    {
        let r = ScoreVec { values: Vec::new(), stride, size: 0 };
        assert(r@ =~= Seq::<Seq<i32>>::empty());
        r
    }

    /// The number of records held.
    pub fn len(&self) -> (r: usize)
        requires
            self.wf(),
        ensures
            r == self@.len(),
    {
        self.size
    }

    /// Record `index`, or `OutOfRange` when there are not that many records.
    pub fn get(&self, index: usize) -> (r: Result<&[i32], IndexError>)
        requires
            self.wf(),
        ensures
            index < self@.len() ==> (r matches Ok(rec) && rec@ == self@[index as int]
                && rec@.len() == self.stride()),
            index >= self@.len() ==> r == Err::<&[i32], IndexError>(
                IndexError::OutOfRange { index, size: self@.len() as usize },
            ),
    {
        if index >= self.size {
            return Err(IndexError::OutOfRange { index, size: self.size });
        }
        proof {
            lemma_record_bounds(index as int, self.size as int, self.stride as int);
        }
        let start = index * self.stride;
        let end = start + self.stride;
        let rec = &self.values.as_slice()[start..end];
        Ok(rec)
    }

    /// Appends `score` as the new last record, moving its values out, when
    /// it holds exactly `stride` values; otherwise reports `ShapeMismatch`
    /// and changes neither argument.
    pub fn add(&mut self, score: &mut Vec<i32>) -> (r: Result<(), IndexError>)
        requires
            old(self).wf(),
        ensures
            final(self).wf(),
            final(self).stride() == old(self).stride(),
            old(score)@.len() == old(self).stride() ==> {
                &&& r is Ok
                &&& final(self)@ == old(self)@.push(old(score)@)
                &&& final(score)@ == Seq::<i32>::empty()
            },
            old(score)@.len() != old(self).stride() ==> {
                &&& r == Err::<(), IndexError>(
                    IndexError::ShapeMismatch { len: old(score)@.len() as usize, stride: old(self).stride() },
                )
                &&& *final(self) == *old(self)
                &&& *final(score) == *old(score)
            },
    {
        if score.len() != self.stride {
            return Err(IndexError::ShapeMismatch { len: score.len(), stride: self.stride });
        }
        let ghost before = self.values@;
        let ghost rec = score@;
        self.values.append(score);
        let total = self.values.len();
        proof {
            assert(total == (self.size + 1) * self.stride) by (nonlinear_arith)
                requires
                    total == self.size * self.stride + self.stride;
            assert(self.size + 1 <= total) by (nonlinear_arith)
                requires
                    total == (self.size + 1) * self.stride,
                    self.stride >= 1;
        }
        self.size = self.size + 1;
        proof {
            let n = self.size as int;
            let s = self.stride as int;
            assert forall|i: int| 0 <= i < n - 1 implies #[trigger] self@[i] == old(self)@[i] by {
                lemma_record_bounds(i, n - 1, s);
                assert(self.values@.subrange(i * s, i * s + s) =~= before.subrange(i * s, i * s + s));
            }
            assert((n - 1) * s + s == n * s) by (nonlinear_arith);
            assert(self.values@.subrange((n - 1) * s, (n - 1) * s + s) =~= rec);
            assert(self@ =~= old(self)@.push(rec));
        }
        Ok(())
    }
}

/// Appending records one by one to an empty vector and then reading
/// position `i` gives back the `i`-th record appended.
pub proof fn lemma_appends_read_back(views: Seq<Seq<Seq<i32>>>, recs: Seq<Seq<i32>>)
    requires
        views.len() == recs.len() + 1,
        views[0] == Seq::<Seq<i32>>::empty(),
        forall|i: int| 0 <= i < recs.len() ==> views[i + 1] == #[trigger] views[i].push(recs[i]),
    ensures
        views[recs.len() as int] == recs,
        forall|i: int| 0 <= i < recs.len() ==> #[trigger] views[recs.len() as int][i] == recs[i],
    decreases recs.len(),
{
    if recs.len() > 0 {
        let n = recs.len() - 1;
        lemma_appends_read_back(views.take(n + 1), recs.take(n));
        assert(views[n] == views.take(n + 1)[n]);
        assert(recs.take(n).push(recs[n]) =~= recs);
    }
}

} // verus!
