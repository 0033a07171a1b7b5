use vstd::prelude::*;

verus! {

/// The characters with Unicode's White_Space property.
pub open spec fn is_white_space(c: char) -> bool {
    ||| '\u{9}' <= c <= '\u{d}'
    ||| c == ' '
    ||| c == '\u{85}'
    ||| c == '\u{a0}'
    ||| c == '\u{1680}'
    ||| '\u{2000}' <= c <= '\u{200a}'
    ||| c == '\u{2028}'
    ||| c == '\u{2029}'
    ||| c == '\u{202f}'
    ||| c == '\u{205f}'
    ||| c == '\u{3000}'
}

/// Characters that end a token: newlines and all white space.
pub open spec fn is_separator(c: char) -> bool {
    c == '\n' || is_white_space(c)
}

/// Reading `s` from the left: the tokens completed so far and the token
/// being read.
pub open spec fn scan(s: Seq<char>) -> (Seq<Seq<char>>, Seq<char>)
    decreases s.len(),
{
    if s.len() == 0 {
        (Seq::empty(), Seq::empty())
    } else {
        let (done, cur) = scan(s.drop_last());
        let c = s.last();
        if !is_separator(c) {
            (done, cur.push(c))
        } else if cur.len() > 0 {
            (done.push(cur), Seq::empty())
        } else {
            (done, cur)
        }
    }
}

/// The maximal runs of non-separator characters of `s`, left to right.
pub open spec fn words(s: Seq<char>) -> Seq<Seq<char>> {
    let (done, cur) = scan(s);
    if cur.len() > 0 {
        done.push(cur)
    } else {
        done
    }
}

/// Text made of separators alone has no words.
pub proof fn lemma_blank_text(s: Seq<char>)
    requires
        forall|i: int| 0 <= i < s.len() ==> is_separator(#[trigger] s[i]),
    ensures
        words(s) == Seq::<Seq<char>>::empty(),
        scan(s).1 == Seq::<char>::empty(),
    decreases s.len(),
{
    if s.len() > 0 {
        let p = s.drop_last();
        assert forall|i: int| 0 <= i < p.len() implies is_separator(#[trigger] p[i]) by {
            assert(p[i] == s[i]);
        }
        lemma_blank_text(p);
        assert(is_separator(s[s.len() - 1]));
    }
}

/// What `str::to_lowercase` makes of a string.
pub uninterp spec fn lower_of(s: Seq<char>) -> Seq<char>;

/// The normalised terms of `text`: its words, lower-cased, with repeats.
pub open spec fn terms(text: Seq<char>) -> Seq<Seq<char>> {
    words(text).map_values(|w: Seq<char>| lower_of(w))
}

/// The distinct elements of `ws`, each where it first occurs.
pub open spec fn distinct(ws: Seq<Seq<char>>) -> Seq<Seq<char>>
    decreases ws.len(),
{
    if ws.len() == 0 {
        Seq::empty()
    } else {
        let d = distinct(ws.drop_last());
        if d.contains(ws.last()) {
            d
        } else {
            d.push(ws.last())
        }
    }
}

/// How many times `w` occurs in `ws`.
pub open spec fn occurrences(ws: Seq<Seq<char>>, w: Seq<char>) -> nat
    decreases ws.len(),
{
    if ws.len() == 0 {
        0
    } else {
        occurrences(ws.drop_last(), w) + if ws.last() == w {
            1nat
        } else {
            0nat
        }
    }
}

/// The sum of a sequence of counts.
pub open spec fn sum_counts(c: Seq<usize>) -> nat
    decreases c.len(),
{
    if c.len() == 0 {
        0
    } else {
        sum_counts(c.drop_last()) + c.last() as nat
    }
}

/// The counts of a term table, in table order.
pub open spec fn counts_of(t: Seq<(String, usize)>) -> Seq<usize> {
    t.map_values(|e: (String, usize)| e.1)
}

proof fn lemma_sum_counts_bump(c: Seq<usize>, j: int)
    requires
        0 <= j < c.len(),
        c[j] < usize::MAX,
    ensures
        sum_counts(c.update(j, (c[j] + 1) as usize)) == sum_counts(c) + 1,
    decreases c.len(),
{
    let u = c.update(j, (c[j] + 1) as usize);
    if j == c.len() - 1 {
        assert(u.drop_last() =~= c.drop_last());
    } else {
        assert(u.drop_last() =~= c.drop_last().update(j, (c[j] + 1) as usize));
        lemma_sum_counts_bump(c.drop_last(), j);
    }
}

/// A sequence that does not hold `w` counts it zero times.
proof fn lemma_occurrences_absent(ws: Seq<Seq<char>>, w: Seq<char>)
    requires
        !ws.contains(w),
    ensures
        occurrences(ws, w) == 0,
    decreases ws.len(),
{
    if ws.len() > 0 {
        assert(!ws.drop_last().contains(w)) by {
            if ws.drop_last().contains(w) {
                let k = choose|k: int| 0 <= k < ws.drop_last().len() && ws.drop_last()[k] == w;
                assert(ws[k] == w);
            }
        }
        lemma_occurrences_absent(ws.drop_last(), w);
    }
}

/// `distinct` keeps every element and adds none.
proof fn lemma_distinct_contains(ws: Seq<Seq<char>>, w: Seq<char>)
    ensures
        distinct(ws).contains(w) <==> ws.contains(w),
    decreases ws.len(),
{
    if ws.len() > 0 {
        let p = ws.drop_last();
        let l = ws.last();
        let d = distinct(p);
        lemma_distinct_contains(p, w);
        lemma_distinct_contains(p, l);
        assert(ws.contains(w) <==> (p.contains(w) || l == w)) by {
            if ws.contains(w) && l != w {
                let k = choose|k: int| 0 <= k < ws.len() && ws[k] == w;
                assert(p[k] == w);
            }
            if p.contains(w) {
                let k = choose|k: int| 0 <= k < p.len() && p[k] == w;
                assert(ws[k] == w);
            }
            if l == w {
                assert(ws[ws.len() - 1] == w);
            }
        }
        if !d.contains(l) {
            assert(d.push(l).contains(w) <==> (d.contains(w) || l == w)) by {
                if d.push(l).contains(w) && l != w {
                    let k = choose|k: int| 0 <= k < d.push(l).len() && d.push(l)[k] == w;
                    assert(d[k] == w);
                }
                if d.contains(w) {
                    let k = choose|k: int| 0 <= k < d.len() && d[k] == w;
                    assert(d.push(l)[k] == w);
                }
                if l == w {
                    assert(d.push(l)[d.len() as int] == w);
                }
            }
        }
    }
}

/// `distinct` never repeats an element.
proof fn lemma_distinct_unique(ws: Seq<Seq<char>>)
    ensures
        forall|i: int, j: int|
            0 <= i < j < distinct(ws).len() ==> distinct(ws)[i] != distinct(ws)[j],
    decreases ws.len(),
{
    if ws.len() > 0 {
        let p = ws.drop_last();
        let l = ws.last();
        let d = distinct(p);
        lemma_distinct_unique(p);
        if !d.contains(l) {
            assert forall|i: int, j: int| 0 <= i < j < d.push(l).len() implies d.push(l)[i] != d.push(l)[j] by {
                if j == d.len() {
                    assert(d[i] != l);
                }
            }
        }
    }
}

/// Relies on `char::is_whitespace`: true exactly for the White_Space characters.
#[verifier::external_body]
fn is_whitespace(c: char) -> (r: bool)
    ensures
        r == is_white_space(c),
{
    c.is_whitespace()
}

/// Relies on `String`'s `FromIterator<&char>`: the characters, in order.
#[verifier::external_body]
fn chars_to_string(cs: &Vec<char>) -> (r: String)
    ensures
        r@ == cs@,
{
    cs.iter().collect()
}

/// Relies on `str::to_lowercase`: the result depends on the characters alone.
#[verifier::external_body]
fn lowercase(s: &str) -> (r: String)
    ensures
        r@ == lower_of(s@),
{
    s.to_lowercase()
}

/// The words of `text`, split at newlines and white space.
fn split_words(text: &str) -> (r: Vec<String>)
    ensures
        r@.map_values(|w: String| w@) == words(text@),
{
    let mut done: Vec<String> = Vec::new();
    let mut cur: Vec<char> = Vec::new();
    for c in it: text.chars()
        invariant
            it.seq() == text@,
            ({
                let (d, w) = scan(text@.take(it.index() as int));
                done@.map_values(|s: String| s@) == d && cur@ == w
            }),
    {
        let ghost prefix = text@.take(it.index() as int);
        assert(text@.take(it.index() + 1).drop_last() == prefix);
        if c == '\n' || is_whitespace(c) {
            if cur.len() > 0 {
                let w = chars_to_string(&cur);
                done.push(w);
                cur = Vec::new();
            }
        } else {
            cur.push(c);
        }
        proof {
            assert(done@.map_values(|s: String| s@) =~= scan(text@.take(it.index() + 1)).0);
            assert(cur@ =~= scan(text@.take(it.index() + 1)).1);
        }
    }
    assert(text@.take(text@.len() as int) == text@);
    if cur.len() > 0 {
        let w = chars_to_string(&cur);
        done.push(w);
        assert(done@.map_values(|s: String| s@) =~= words(text@));
    }
    done
}

/// The first position of `w` in `keys`, or `keys.len()` where it is absent.
fn position_of(keys: &Vec<String>, w: &String) -> (r: usize)
    ensures
        r <= keys@.len(),
        r < keys@.len() ==> keys@[r as int]@ == w@,
        forall|k: int| 0 <= k < r ==> (#[trigger] keys@[k])@ != w@,
{
    let mut j: usize = 0;
    while j < keys.len()
        invariant
            j <= keys@.len(),
            forall|k: int| 0 <= k < j ==> (#[trigger] keys@[k])@ != w@,
        decreases keys@.len() - j,
    {
        if keys[j] == *w {
            return j;
        }
        j = j + 1;
    }
    j
}

/// The normalised terms of `text`: each distinct lower-cased word once, in
/// order of first occurrence, with the number of times it occurs.
pub fn tokenize(text: &str) -> (r: Vec<(String, usize)>)
    ensures
        r@.len() == distinct(terms(text@)).len(),
        forall|i: int|
            0 <= i < r@.len() ==> {
                &&& (#[trigger] r@[i]).0@ == distinct(terms(text@))[i]
                &&& r@[i].1 == occurrences(terms(text@), distinct(terms(text@))[i])
            },
        sum_counts(counts_of(r@)) == words(text@).len(),
{
    let raw = split_words(text);
    let ghost ts = terms(text@);
    let mut lowered: Vec<String> = Vec::new();
    for i in 0..raw.len()
        invariant
            raw@.map_values(|w: String| w@) == words(text@),
            ts == terms(text@),
            lowered@.len() == i,
            forall|k: int| 0 <= k < i ==> (#[trigger] lowered@[k])@ == ts[k],
    {
        assert(raw@.map_values(|w: String| w@)[i as int] == raw@[i as int]@);
        let w = lowercase(raw[i].as_str());
        lowered.push(w);
    }
    let mut keys: Vec<String> = Vec::new();
    let mut counts: Vec<usize> = Vec::new();
    for i in 0..lowered.len()
        invariant
            lowered@.len() == ts.len(),
            forall|k: int| 0 <= k < ts.len() ==> (#[trigger] lowered@[k])@ == ts[k],
            keys@.len() == counts@.len(),
            keys@.len() == distinct(ts.take(i as int)).len(),
            forall|k: int|
                0 <= k < keys@.len() ==> {
                    &&& (#[trigger] keys@[k])@ == distinct(ts.take(i as int))[k]
                    &&& counts@[k] == occurrences(ts.take(i as int), distinct(ts.take(i as int))[k])
                },
            forall|k: int| 0 <= k < counts@.len() ==> #[trigger] counts@[k] <= i,
            sum_counts(counts@) == i,
    {
        let ghost p = ts.take(i as int);
        let ghost q = ts.take(i + 1);
        let ghost x = ts[i as int];
        assert(q.drop_last() =~= p);
        assert(q.last() == x);
        proof {
            lemma_distinct_unique(p);
        }
        let j = position_of(&keys, &lowered[i]);
        let ghost old_counts = counts@;
        let ghost old_keys = keys@;
        if j < keys.len() {
            proof {
                assert(distinct(p)[j as int] == x);
                assert(distinct(p).contains(x));
                assert(distinct(q) == distinct(p));
                lemma_sum_counts_bump(counts@, j as int);
            }
            let bumped = counts[j] + 1;
            counts.set(j, bumped);
            assert forall|k: int| 0 <= k < keys@.len() implies {
                &&& (#[trigger] keys@[k])@ == distinct(q)[k]
                &&& counts@[k] == occurrences(q, distinct(q)[k])
            } by {
                assert(keys@[k]@ == distinct(p)[k]);
                assert(old_counts[k] == occurrences(p, distinct(p)[k]));
                assert(occurrences(q, distinct(q)[k]) == occurrences(p, distinct(p)[k]) + if x
                    == distinct(p)[k] {
                    1nat
                } else {
                    0nat
                });
                if k < j {
                    assert(distinct(p)[k] != distinct(p)[j as int]);
                } else if k > j {
                    assert(distinct(p)[j as int] != distinct(p)[k]);
                }
            }
        } else {
            proof {
                assert forall|k: int| 0 <= k < distinct(p).len() implies distinct(p)[k] != x by {
                    assert(keys@[k]@ != lowered@[i as int]@);
                }
                assert(!distinct(p).contains(x));
                assert(distinct(q) == distinct(p).push(x));
                assert(occurrences(p, x) == 0) by {
                    lemma_distinct_contains(p, x);
                    lemma_occurrences_absent(p, x);
                }
                assert(counts@.push(1usize).drop_last() =~= counts@);
            }
            let w = lowered[i].clone();
            keys.push(w);
            counts.push(1);
            assert forall|k: int| 0 <= k < keys@.len() implies {
                &&& (#[trigger] keys@[k])@ == distinct(q)[k]
                &&& counts@[k] == occurrences(q, distinct(q)[k])
            } by {
                assert(occurrences(q, distinct(q)[k]) == occurrences(p, distinct(q)[k]) + if x
                    == distinct(q)[k] {
                    1nat
                } else {
                    0nat
                });
                if k < keys@.len() - 1 {
                    assert(keys@[k] == old_keys[k]);
                    assert(counts@[k] == old_counts[k]);
                    assert(old_keys[k]@ == distinct(p)[k]);
                    assert(old_counts[k] == occurrences(p, distinct(p)[k]));
                    assert(distinct(q)[k] == distinct(p)[k]);
                    assert(distinct(p)[k] != x);
                } else {
                    assert(distinct(q)[k] == x);
                    assert(keys@[k]@ == x);
                    assert(counts@[k] == 1);
                }
            }
        }
    }
    assert(ts.take(ts.len() as int) =~= ts);
    let mut r: Vec<(String, usize)> = Vec::new();
    for k in 0..keys.len()
        invariant
            keys@.len() == counts@.len(),
            r@.len() == k,
            forall|m: int| 0 <= m < k ==> (#[trigger] r@[m]).0 == keys@[m] && r@[m].1 == counts@[m],
    {
        r.push((keys[k].clone(), counts[k]));
    }
    assert(counts_of(r@) =~= counts@);
    r
}

} // verus!
