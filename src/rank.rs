use vstd::prelude::*;

verus! {

broadcast use vstd::seq_lib::group_to_multiset_ensures, vstd::multiset::group_multiset_axioms;

/// A candidate is a pair (score key, document identifier): `a` ranks ahead
/// of `b` when its key is higher, or the keys tie and its document
/// identifier is lower.
pub open spec fn ranks_before(a: (u64, usize), b: (u64, usize)) -> bool {
    a.0 > b.0 || (a.0 == b.0 && a.1 < b.1)
}

/// No candidate of `s` ranks ahead of one placed before it.
pub open spec fn is_ranked(s: Seq<(u64, usize)>) -> bool {
    forall|i: int, j: int| 0 <= i < j < s.len() ==> !ranks_before(#[trigger] s[j], #[trigger] s[i])
}

/// No candidate of `rest` ranks ahead of any candidate of `top`.
pub open spec fn none_ahead(top: Seq<(u64, usize)>, rest: Seq<(u64, usize)>) -> bool {
    forall|i: int, j: int|
        0 <= i < top.len() && 0 <= j < rest.len() ==> !ranks_before(#[trigger] rest[j], #[trigger] top[i])
}

/// `r` is a valid answer for `top_hits(cands, num_hits)`: as many candidates
/// as asked for or as there are, in ranking order, and none of those left out
/// ranks ahead of one taken.
pub open spec fn is_top(r: Seq<(u64, usize)>, cands: Seq<(u64, usize)>, num_hits: nat) -> bool {
    &&& r.len() == if num_hits < cands.len() {
        num_hits as int
    } else {
        cands.len() as int
    }
    &&& is_ranked(r)
    &&& exists|rest: Seq<(u64, usize)>|
        #[trigger] r.to_multiset().add(rest.to_multiset()) == cands.to_multiset() && none_ahead(
            r,
            rest,
        )
}

/// There is only one valid answer: ranking the same candidates for the same
/// number of hits always gives the same sequence.
pub proof fn lemma_top_unique(
    cands: Seq<(u64, usize)>,
    num_hits: nat,
    r1: Seq<(u64, usize)>,
    r2: Seq<(u64, usize)>,
)
    requires
        is_top(r1, cands, num_hits),
        is_top(r2, cands, num_hits),
    ensures
        r1 == r2,
{
    lemma_prefixes_agree(cands, num_hits, r1, r2, r1.len() as int);
    assert(r1 =~= r1.take(r1.len() as int));
    assert(r2 =~= r2.take(r2.len() as int));
}

/// Two valid answers agree on their first `n` candidates.
proof fn lemma_prefixes_agree(
    cands: Seq<(u64, usize)>,
    num_hits: nat,
    r1: Seq<(u64, usize)>,
    r2: Seq<(u64, usize)>,
    n: int,
)
    requires
        is_top(r1, cands, num_hits),
        is_top(r2, cands, num_hits),
        0 <= n <= r1.len(),
    ensures
        r1.take(n) == r2.take(n),
    decreases n,
{
    if n == 0 {
        assert(r1.take(0) =~= r2.take(0));
    } else {
        let i = n - 1;
        lemma_prefixes_agree(cands, num_hits, r1, r2, i);
        lemma_first_difference(cands, num_hits, r1, r2, i);
        lemma_first_difference(cands, num_hits, r2, r1, i);
        assert(r1[i] == r2[i]);
        assert(r1.take(n) =~= r1.take(i).push(r1[i]));
        assert(r2.take(n) =~= r2.take(i).push(r2[i]));
    }
}

/// Where two valid answers first differ, the first does not rank ahead.
proof fn lemma_first_difference(
    cands: Seq<(u64, usize)>,
    num_hits: nat,
    r1: Seq<(u64, usize)>,
    r2: Seq<(u64, usize)>,
    i: int,
)
    requires
        is_top(r1, cands, num_hits),
        is_top(r2, cands, num_hits),
        0 <= i < r1.len(),
        r1.take(i) == r2.take(i),
    ensures
        !ranks_before(r1[i], r2[i]),
{
    if !ranks_before(r1[i], r2[i]) {
        return;
    }
    let a = r1[i];
    let rest1 = choose|rest: Seq<(u64, usize)>|
        #[trigger] r1.to_multiset().add(rest.to_multiset()) == cands.to_multiset() && none_ahead(
            r1,
            rest,
        );
    let rest2 = choose|rest: Seq<(u64, usize)>|
        #[trigger] r2.to_multiset().add(rest.to_multiset()) == cands.to_multiset() && none_ahead(
            r2,
            rest,
        );
    assert(r1 =~= r1.take(i) + r1.skip(i));
    assert(r2 =~= r2.take(i) + r2.skip(i));
    vstd::seq_lib::lemma_multiset_commutative(r1.take(i), r1.skip(i));
    vstd::seq_lib::lemma_multiset_commutative(r2.take(i), r2.skip(i));
    assert(r1.skip(i)[0] == a);
    assert(r1.skip(i).contains(a));
    if r2.skip(i).contains(a) {
        let j = choose|j: int| 0 <= j < r2.skip(i).len() && r2.skip(i)[j] == a;
        assert(r2[i + j] == a);
        assert(!ranks_before(r2[i + j], r2[i]));
    } else {
        assert(r2.skip(i).to_multiset().count(a) == 0);
        assert(r1.skip(i).to_multiset().count(a) > 0);
        let c1 = r1.take(i).to_multiset().count(a);
        assert(r1.to_multiset().count(a) == c1 + r1.skip(i).to_multiset().count(a));
        assert(r2.to_multiset().count(a) == c1);
        assert(cands.to_multiset().count(a) == r1.to_multiset().count(a) + rest1.to_multiset().count(a));
        assert(cands.to_multiset().count(a) == r2.to_multiset().count(a) + rest2.to_multiset().count(a));
        assert(rest2.to_multiset().count(a) > 0);
        assert(rest2.contains(a));
        let j = choose|j: int| 0 <= j < rest2.len() && rest2[j] == a;
        assert(!ranks_before(rest2[j], r2[i]));
    }
}

/// The position of the best-ranked candidate of a non-empty sequence.
fn best_position(v: &Vec<(u64, usize)>) -> (r: usize)
    requires
        v@.len() > 0,
    ensures
        r < v@.len(),
        forall|j: int| 0 <= j < v@.len() ==> !ranks_before(#[trigger] v@[j], v@[r as int]),
{
    let mut best: usize = 0;
    let mut i: usize = 1;
    while i < v.len()
        invariant
            best < i <= v@.len(),
            forall|j: int| 0 <= j < i ==> !ranks_before(#[trigger] v@[j], v@[best as int]),
        decreases v@.len() - i,
    {
        let (ki, di) = v[i];
        let (kb, db) = v[best];
        if ki > kb || (ki == kb && di < db) {
            best = i;
        }
        i = i + 1;
    }
    best
}

/// The first `num_hits` candidates in ranking order: higher key first,
/// equal keys by ascending document identifier; all of them when there are
/// fewer. What is left out ranks no better than anything returned.
pub fn top_hits(cands: Vec<(u64, usize)>, num_hits: usize) -> (r: Vec<(u64, usize)>)
    ensures
        is_top(r@, cands@, num_hits as nat),
{
    let mut rest = cands;
    let mut top: Vec<(u64, usize)> = Vec::new();
    while top.len() < num_hits && rest.len() > 0
        invariant
            top@.to_multiset().add(rest@.to_multiset()) == cands@.to_multiset(),
            top@.len() + rest@.len() == cands@.len(),
            top@.len() <= num_hits,
            is_ranked(top@),
            none_ahead(top@, rest@),
        decreases rest@.len(),
    {
        let p = best_position(&rest);
        let ghost before = rest@;
        let x = rest.remove(p);
        assert(before.to_multiset().remove(x) == rest@.to_multiset());
        assert(before.contains(x)) by {
            assert(before[p as int] == x);
        }
        assert(before.to_multiset().count(x) > 0);
        let ghost old_top = top@;
        top.push(x);
        assert(top@.to_multiset().add(rest@.to_multiset()) =~= cands@.to_multiset());
        assert forall|i: int, j: int| 0 <= i < top@.len() && 0 <= j < rest@.len() implies
            !ranks_before(#[trigger] rest@[j], #[trigger] top@[i]) by {
            if j < p {
                assert(rest@[j] == before[j]);
            } else {
                assert(rest@[j] == before[j + 1]);
            }
        }
        assert forall|i: int, j: int| 0 <= i < j < top@.len() implies
            !ranks_before(#[trigger] top@[j], #[trigger] top@[i]) by {
            if j == top@.len() - 1 {
                assert(before[p as int] == x);
            }
        }
    }
    assert(top@.to_multiset().add(rest@.to_multiset()) == cands@.to_multiset()
        && none_ahead(top@, rest@));
    top
}

} // verus!
