use std::collections::hash_map::DefaultHasher;
use std::collections::HashMap;
use std::hash::{Hash, Hasher};
use vstd::prelude::*;

use crate::error::IndexError;
use crate::hit_list::HitList;
use crate::tokenizer::{distinct, is_separator, lemma_blank_text, terms, tokenize};

verus! {

broadcast use vstd::std_specs::hash::group_hash_axioms;

/// The identifier that `hash_str` gives a term's text.
pub uninterp spec fn term_hash(s: Seq<char>) -> u64;

/// Relies on `str`'s `Hash` impl written into a `DefaultHasher::new()` and
/// read with `finish`: every hasher made by `new` starts alike, so within one
/// build of the library the identifier is a function of the text alone.
#[verifier::external_body]
pub fn hash_str(s: &str) -> (r: u64)
    ensures
        r == term_hash(s@),
{
    let mut hasher = DefaultHasher::new();
    s.hash(&mut hasher);
    hasher.finish()
}

/// One posting met by a query: the document, the first score of its record
/// (the term's frequency there) and the number of documents in the term's list.
#[derive(Debug, Clone, Copy, PartialEq, Eq, Structural)]
pub struct TermHit {
    pub doc_id: usize,
    pub tf: i32,
    pub df: usize,
}

/// The postings of one term as hits, in list order.
pub open spec fn hits_of_posting(p: (Seq<usize>, Seq<Seq<i32>>)) -> Seq<TermHit> {
    Seq::new(
        p.0.len(),
        |j: int| TermHit { doc_id: p.0[j], tf: p.1[j][0], df: p.0.len() as usize },
    )
}

/// The hits of the terms `ts`, term after term; a term with no posting list
/// contributes nothing.
pub open spec fn hits_of_terms(
    postings: Map<u64, (Seq<usize>, Seq<Seq<i32>>)>,
    ts: Seq<Seq<char>>,
) -> Seq<TermHit>
    decreases ts.len(),
{
    if ts.len() == 0 {
        Seq::empty()
    } else {
        let id = term_hash(ts.last());
        hits_of_terms(postings, ts.drop_last()) + if postings.contains_key(id) {
            hits_of_posting(postings[id])
        } else {
            Seq::empty()
        }
    }
}

/// An inverted index from term identifiers to posting lists, with a forward
/// map from documents to titles and a count of submitted postings.
#[derive(Debug)]
pub struct Index {
    inverted: HashMap<u64, HitList>,
    forward: HashMap<usize, String>,
    score_dims: usize,
    num_docs: usize,
}

impl Index {
    /// The posting list of each term identifier.
    pub closed spec fn postings(&self) -> Map<u64, (Seq<usize>, Seq<Seq<i32>>)> {
        self.inverted@.map_values(|h: HitList| h@)
    }

    /// The posting list of `tok`; empty for a term never indexed.
    pub open spec fn posting_of(&self, tok: u64) -> (Seq<usize>, Seq<Seq<i32>>) {
        if self.postings().contains_key(tok) {
            self.postings()[tok]
        } else {
            (Seq::empty(), Seq::empty())
        }
    }

    /// The title of each document.
    pub closed spec fn titles(&self) -> Map<usize, Seq<char>> {
        self.forward@.map_values(|t: String| t@)
    }

    /// Width of every score record.
    pub closed spec fn score_dims(&self) -> usize {
        self.score_dims
    }

    /// How many postings have been submitted.
    pub closed spec fn submitted(&self) -> usize {
        self.num_docs
    }

    /// Every posting list is well formed with records `score_dims` wide.
    pub closed spec fn wf(&self) -> bool {
        &&& self.score_dims >= 1
        &&& forall|k: u64| #[trigger]
            self.inverted@.contains_key(k) ==> self.inverted@[k].wf()
                && self.inverted@[k].stride() == self.score_dims
    }

    /// Every record in a well-formed index is `score_dims` wide.
    pub proof fn lemma_record_width(&self, tok: u64, j: int)
        requires
            self.wf(),
            self.postings().contains_key(tok),
            0 <= j < self.postings()[tok].1.len(),
        ensures
            self.postings()[tok].1[j].len() == self.score_dims(),
            self.postings()[tok].0.len() == self.postings()[tok].1.len(),
    {
        let h = self.inverted@[tok];
        h.lemma_record_width(j);
        crate::hit_list::lemma_postings_aligned(&h);
    }

    pub fn new(score_dims: usize) -> (r: Self)
        requires
            score_dims >= 1,
        ensures
            r.wf(),
            r.score_dims() == score_dims,
            r.postings() == Map::<u64, (Seq<usize>, Seq<Seq<i32>>)>::empty(),
            r.titles() == Map::<usize, Seq<char>>::empty(),
            r.submitted() == 0,
    {
        let r = Index { inverted: HashMap::new(), forward: HashMap::new(), score_dims, num_docs: 0 };
        assert(r.postings() =~= Map::<u64, (Seq<usize>, Seq<Seq<i32>>)>::empty());
        assert(r.titles() =~= Map::<usize, Seq<char>>::empty());
        r
    }

    /// The number of postings submitted so far.
    pub fn num_docs(&self) -> (r: &usize)
        ensures
            *r == self.submitted(),
    {
        &self.num_docs
    }

    /// Appends `doc_id` with its score record to the posting list of
    /// `tok_id`, sets the document's title and counts the submission. A
    /// record of the wrong width is refused with `ShapeMismatch` and the
    /// index stays as it was.
    pub fn index(&mut self, tok_id: u64, doc_id: usize, scores: &mut Vec<i32>, title: String) -> (r:
        Result<(), IndexError>)
        requires
            old(self).wf(),
            old(self).submitted() < usize::MAX,
        ensures
            final(self).wf(),
            final(self).score_dims() == old(self).score_dims(),
            old(scores)@.len() == old(self).score_dims() ==> {
                &&& r is Ok
                &&& final(self).postings() == old(self).postings().insert(
                    tok_id,
                    (
                        old(self).posting_of(tok_id).0.push(doc_id),
                        old(self).posting_of(tok_id).1.push(old(scores)@),
                    ),
                )
                &&& final(self).titles() == old(self).titles().insert(doc_id, title@)
                &&& final(self).submitted() == old(self).submitted() + 1
                &&& final(scores)@ == Seq::<i32>::empty()
            },
            old(scores)@.len() != old(self).score_dims() ==> {
                &&& r == Err::<(), IndexError>(
                    IndexError::ShapeMismatch { len: old(scores)@.len() as usize, stride: old(self).score_dims() },
                )
                &&& *final(self) == *old(self)
                &&& *final(scores) == *old(scores)
            },
    {
        if scores.len() != self.score_dims {
            return Err(IndexError::ShapeMismatch { len: scores.len(), stride: self.score_dims });
        }
        let mut hits = match self.inverted.remove(&tok_id) {
            Some(h) => h,
            None => HitList::new(self.score_dims),
        };
        assert(hits@ == old(self).posting_of(tok_id));
        let added = hits.add_doc(doc_id, scores);
        self.inverted.insert(tok_id, hits);
        self.forward.insert(doc_id, title);
        self.num_docs = self.num_docs + 1;
        assert(self.postings() =~= old(self).postings().insert(
            tok_id,
            (old(self).posting_of(tok_id).0.push(doc_id), old(self).posting_of(tok_id).1.push(old(scores)@)),
        ));
        assert(self.titles() =~= old(self).titles().insert(doc_id, title@));
        added
    }

    /// The postings that `query` meets: for each distinct normalised term of
    /// the query, in order of first occurrence, the hits of its posting list.
    pub fn query_hits(&self, query: &str) -> (r: Vec<TermHit>)
        requires
            self.wf(),
        ensures
            r@ == hits_of_terms(self.postings(), distinct(terms(query@))),
    {
        let toks = tokenize(query);
        let ghost ts = distinct(terms(query@));
        let mut out: Vec<TermHit> = Vec::new();
        for i in 0..toks.len()
            invariant
                self.wf(),
                toks@.len() == ts.len(),
                forall|k: int| 0 <= k < ts.len() ==> (#[trigger] toks@[k]).0@ == ts[k],
                out@ == hits_of_terms(self.postings(), ts.take(i as int)),
        {
            let id = hash_str(toks[i].0.as_str());
            assert(ts.take(i + 1).drop_last() =~= ts.take(i as int));
            assert(ts.take(i + 1).last() == ts[i as int]);
            let ghost base = out@;
            match self.inverted.get(&id) {
                Some(h) => {
                    let docs = h.get_docs();
                    let sv = h.get_scores();
                    let df = docs.len();
                    assert(self.postings()[id] == h@);
                    for j in 0..df
                        invariant
                            self.wf(),
                            self.inverted@.contains_key(id),
                            *h == self.inverted@[id],
                            docs@ == h@.0,
                            sv@ == h@.1,
                            sv.wf(),
                            sv.stride() == self.score_dims(),
                            df == h@.0.len(),
                            out@ == base + hits_of_posting(h@).take(j as int),
                    {
                        proof {
                            crate::hit_list::lemma_postings_aligned(h);
                        }
                        let tf = match sv.get(j) {
                            Ok(rec) => rec[0],
                            Err(_) => {
                                proof {
                                    assert(false);
                                }
                                0
                            },
                        };
                        out.push(TermHit { doc_id: docs[j], tf, df });
                        assert(hits_of_posting(h@).take(j + 1) =~= hits_of_posting(h@).take(
                            j as int,
                        ).push(TermHit { doc_id: docs@[j as int], tf, df }));
                    }
                    assert(hits_of_posting(h@).take(df as int) =~= hits_of_posting(h@));
                },
                None => {
                    assert(out@ =~= base + Seq::<TermHit>::empty());
                },
            }
        }
        assert(ts.take(ts.len() as int) =~= ts);
        out
    }

    /// The title recorded for `doc_id`, if any.
    pub fn get_title(&self, doc_id: usize) -> (r: Option<&String>)
        ensures
            match r {
                Some(t) => self.titles().contains_key(doc_id) && t@ == self.titles()[doc_id],
                None => !self.titles().contains_key(doc_id),
            },
    {
        self.forward.get(&doc_id)
    }
}

/// After a fresh index and `k` successful submissions, `num_docs` is `k`:
/// it counts postings submitted, not distinct documents.
pub proof fn lemma_submissions_counted(states: Seq<Index>)
    requires
        states.len() >= 1,
        states[0].submitted() == 0,
        forall|i: int|
            0 <= i < states.len() - 1 ==> #[trigger] states[i + 1].submitted() == states[i].submitted()
                + 1,
    ensures
        states.last().submitted() == states.len() - 1,
    decreases states.len(),
{
    if states.len() > 1 {
        let p = states.drop_last();
        assert forall|i: int| 0 <= i < p.len() - 1 implies #[trigger] p[i + 1].submitted()
            == p[i].submitted() + 1 by {
            assert(p[i + 1] == states[i + 1] && p[i] == states[i]);
        }
        lemma_submissions_counted(p);
        assert(p.last() == states[states.len() - 2]);
        assert(states.last().submitted() == states[states.len() - 2].submitted() + 1);
    }
}

/// A query none of whose terms has a posting list meets no posting.
pub proof fn lemma_unmatched_terms(postings: Map<u64, (Seq<usize>, Seq<Seq<i32>>)>, ts: Seq<Seq<char>>)
    requires
        forall|k: int| 0 <= k < ts.len() ==> !postings.contains_key(#[trigger] term_hash(ts[k])),
    ensures
        hits_of_terms(postings, ts) == Seq::<TermHit>::empty(),
    decreases ts.len(),
{
    if ts.len() > 0 {
        let p = ts.drop_last();
        assert forall|k: int| 0 <= k < p.len() implies !postings.contains_key(#[trigger] term_hash(p[k])) by {
            assert(p[k] == ts[k]);
        }
        lemma_unmatched_terms(postings, p);
        assert(!postings.contains_key(term_hash(ts[ts.len() - 1])));
        assert(hits_of_terms(postings, ts) =~= Seq::<TermHit>::empty());
    }
}

/// A query made of separators alone, the empty query among them, meets no
/// posting.
pub proof fn lemma_blank_query(postings: Map<u64, (Seq<usize>, Seq<Seq<i32>>)>, query: Seq<char>)
    requires
        forall|i: int| 0 <= i < query.len() ==> is_separator(#[trigger] query[i]),
    ensures
        hits_of_terms(postings, distinct(terms(query))) == Seq::<TermHit>::empty(),
{
    lemma_blank_text(query);
    assert(terms(query) =~= Seq::<Seq<char>>::empty());
    assert(distinct(terms(query)) =~= Seq::<Seq<char>>::empty());
}

/// The hits a query meets depend on the posting lists and the query's
/// characters alone: equal inputs give equal hits, in the same order.
pub proof fn lemma_hits_reproducible(a: &Index, b: &Index, qa: Seq<char>, qb: Seq<char>)
    requires
        a.postings() == b.postings(),
        qa == qb,
    ensures
        hits_of_terms(a.postings(), distinct(terms(qa))) == hits_of_terms(
            b.postings(),
            distinct(terms(qb)),
        ),
{
}

} // verus!
