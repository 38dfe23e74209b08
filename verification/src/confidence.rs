//! The n-gram confidence of the explorer's words: in which order the words are visited
//! (most frequent first, then alphabetically), and the order statistics of a word's
//! predictions that its confidence is drawn from.
use vstd::prelude::*;
use crate::trie::Candidate;
use crate::text::chars_of;

verus! {

/// `a` comes before `b` in the order of `str`'s comparison: character by character, by
/// code point, a proper prefix first.
pub open spec fn text_lt(a: Seq<char>, b: Seq<char>) -> bool
    decreases a.len(),
{
    if a.len() == 0 {
        b.len() > 0
    } else if b.len() == 0 {
        false
    } else if (a[0] as int) < (b[0] as int) {
        true
    } else if (a[0] as int) > (b[0] as int) {
        false
    } else {
        text_lt(a.drop_first(), b.drop_first())
    }
}

/// No text comes before itself, and of two texts at most one comes before the other.
pub proof fn lemma_text_lt_asymmetric(a: Seq<char>, b: Seq<char>)
    ensures
        !(text_lt(a, b) && text_lt(b, a)),
        !text_lt(a, a),
    decreases a.len(),
{
    if a.len() > 0 && b.len() > 0 && a[0] == b[0] {
        lemma_text_lt_asymmetric(a.drop_first(), b.drop_first());
    }
    if a.len() > 0 {
        lemma_text_lt_asymmetric(a.drop_first(), a.drop_first());
    }
}

/// Of two different texts, one comes before the other.
pub proof fn lemma_text_lt_total(a: Seq<char>, b: Seq<char>)
    requires
        a != b,
    ensures
        text_lt(a, b) || text_lt(b, a),
    decreases a.len(),
{
    if a.len() == 0 {
        assert(b.len() > 0) by {
            if b.len() == 0 {
                assert(a =~= b);
            }
        }
    } else if b.len() > 0 && a[0] == b[0] {
        assert(a.drop_first() != b.drop_first()) by {
            if a.drop_first() == b.drop_first() {
                assert(a =~= seq![a[0]] + a.drop_first());
                assert(b =~= seq![b[0]] + b.drop_first());
            }
        }
        lemma_text_lt_total(a.drop_first(), b.drop_first());
    } else if b.len() > 0 {
        assert(a[0] as int != b[0] as int);
    }
}

/// The order of texts is transitive.
pub proof fn lemma_text_lt_transitive(a: Seq<char>, b: Seq<char>, c: Seq<char>)
    requires
        text_lt(a, b),
        text_lt(b, c),
    ensures
        text_lt(a, c),
    decreases a.len(),
{
    if a.len() > 0 && b.len() > 0 && c.len() > 0 && a[0] == b[0] && b[0] == c[0] {
        lemma_text_lt_transitive(a.drop_first(), b.drop_first(), c.drop_first());
    }
}

/// Word `i` is visited before word `j`: it is more frequent, or as frequent and its text
/// comes first, or the two agree and it comes earlier in the list.
pub open spec fn visited_before(freqs: Seq<usize>, texts: Seq<Seq<char>>, i: int, j: int) -> bool {
    ||| freqs[i] > freqs[j]
    ||| (freqs[i] == freqs[j] && text_lt(texts[i], texts[j]))
    ||| (freqs[i] == freqs[j] && texts[i] == texts[j] && i < j)
}

/// Of two different words, one is visited before the other, and not both.
proof fn lemma_visited_total(freqs: Seq<usize>, texts: Seq<Seq<char>>, i: int, j: int)
    requires
        i != j,
    ensures
        visited_before(freqs, texts, i, j) || visited_before(freqs, texts, j, i),
        !(visited_before(freqs, texts, i, j) && visited_before(freqs, texts, j, i)),
{
    lemma_text_lt_asymmetric(texts[i], texts[j]);
    lemma_text_lt_asymmetric(texts[j], texts[j]);
    if texts[i] != texts[j] {
        lemma_text_lt_total(texts[i], texts[j]);
    }
}

/// Visiting order is transitive.
proof fn lemma_visited_transitive(freqs: Seq<usize>, texts: Seq<Seq<char>>, i: int, j: int, k: int)
    requires
        visited_before(freqs, texts, i, j),
        visited_before(freqs, texts, j, k),
    ensures
        visited_before(freqs, texts, i, k),
{
    if freqs[i] == freqs[j] && freqs[j] == freqs[k] {
        if text_lt(texts[i], texts[j]) && text_lt(texts[j], texts[k]) {
            lemma_text_lt_transitive(texts[i], texts[j], texts[k]);
        }
    }
}

/// Whether the text `a` comes before the text `b` (see `text_lt`).
pub fn text_less(a: &str, b: &str) -> (r: bool)
    ensures
        r == text_lt(a@, b@),
{
    let x = chars_of(a);
    let y = chars_of(b);
    let mut i: usize = 0;
    assert(x@.skip(0) =~= x@);
    assert(y@.skip(0) =~= y@);
    while i < x.len() && i < y.len()
        invariant
            x@ == a@,
            y@ == b@,
            i <= x@.len(),
            i <= y@.len(),
            x@.take(i as int) == y@.take(i as int),
            text_lt(x@, y@) == text_lt(x@.skip(i as int), y@.skip(i as int)),
        decreases x@.len() - i,
    {
        let ghost xs = x@.skip(i as int);
        let ghost ys = y@.skip(i as int);
        assert(xs[0] == x@[i as int]);
        assert(ys[0] == y@[i as int]);
        assert(xs.len() > 0 && ys.len() > 0);
        if x[i] < y[i] {
            return true;
        }
        if x[i] > y[i] {
            return false;
        }
        proof {
            assert(xs.drop_first() =~= x@.skip(i as int + 1));
            assert(ys.drop_first() =~= y@.skip(i as int + 1));
            assert(x@[i as int] == y@[i as int]);
            assert(x@.take(i as int + 1) =~= x@.take(i as int).push(x@[i as int]));
            assert(y@.take(i as int + 1) =~= y@.take(i as int).push(y@[i as int]));
        }
        i = i + 1;
    }
    i == x.len() && i < y.len()
}

/// `r` lists each of the indices `0..n` once.
pub open spec fn is_permutation(r: Seq<usize>, n: nat) -> bool {
    &&& r.len() == n
    &&& forall|k: int| 0 <= k < r.len() ==> (#[trigger] r[k]) < n
    &&& forall|k: int, l: int| 0 <= k < l < r.len() ==> r[k] != r[l]
}

/// The order in which the explorer rebuilds its words' confidence: every word once, the
/// most frequent first, words of equal frequency by their text, and equal words in list
/// order (a stable sort).
pub fn confidence_order(freqs: &[usize], texts: &[String]) -> (r: Vec<usize>)
    requires
        freqs@.len() == texts@.len(),
    ensures
        is_permutation(r@, freqs@.len()),
        forall|k: int, l: int| 0 <= k < l < r@.len() ==> visited_before(
            freqs@,
            crate::text::views(texts@),
            #[trigger] r@[k] as int,
            #[trigger] r@[l] as int,
        ),
{
    let ghost ts = crate::text::views(texts@);
    let mut out: Vec<usize> = Vec::new();
    let mut i: usize = 0;
    while i < freqs.len()
        invariant
            i <= freqs@.len(),
            freqs@.len() == texts@.len(),
            ts == crate::text::views(texts@),
            is_permutation(out@, i as nat),
            forall|k: int, l: int| 0 <= k < l < out@.len() ==> visited_before(
                freqs@,
                ts,
                #[trigger] out@[k] as int,
                #[trigger] out@[l] as int,
            ),
        decreases freqs@.len() - i,
    {
        // Find the first place whose word is visited after word i.
        let mut p: usize = 0;
        while p < out.len() && !before(freqs, texts, i, out[p])
            invariant
                p <= out@.len(),
                i < freqs@.len(),
                freqs@.len() == texts@.len(),
                ts == crate::text::views(texts@),
                is_permutation(out@, i as nat),
                forall|k: int| 0 <= k < p ==> !visited_before(freqs@, ts, i as int, #[trigger] out@[k] as int),
            decreases out@.len() - p,
        {
            p = p + 1;
        }
        let ghost old_out = out@;
        proof {
            assert forall|k: int| 0 <= k < p implies visited_before(freqs@, ts, #[trigger] old_out[k] as int, i as int) by {
                lemma_visited_total(freqs@, ts, i as int, old_out[k] as int);
            }
            if p < old_out.len() {
                assert forall|k: int| p <= k < old_out.len() implies visited_before(freqs@, ts, i as int, #[trigger] old_out[k] as int) by {
                    if k > p {
                        lemma_visited_transitive(freqs@, ts, i as int, old_out[p as int] as int, old_out[k] as int);
                    }
                }
            }
        }
        out.insert(p, i);
        proof {
            assert(out@ =~= old_out.take(p as int).push(i) + old_out.skip(p as int));
            assert forall|k: int| 0 <= k < out@.len() implies (#[trigger] out@[k]) < i + 1 by {
                if k < p {
                    assert(out@[k] == old_out[k]);
                } else if k > p {
                    assert(out@[k] == old_out[k - 1]);
                }
            }
            assert forall|k: int, l: int| 0 <= k < l < out@.len() implies out@[k] != out@[l] by {
                if k != p && l != p {
                    let k0 = if k < p { k } else { k - 1 };
                    let l0 = if l < p { l } else { l - 1 };
                    assert(out@[k] == old_out[k0]);
                    assert(out@[l] == old_out[l0]);
                } else if k == p {
                    assert(out@[l] == old_out[l - 1]);
                } else {
                    assert(out@[k] == old_out[k]);
                }
            }
            assert forall|k: int, l: int| 0 <= k < l < out@.len() implies visited_before(
                freqs@,
                ts,
                #[trigger] out@[k] as int,
                #[trigger] out@[l] as int,
            ) by {
                if k != p && l != p {
                    let k0 = if k < p { k } else { k - 1 };
                    let l0 = if l < p { l } else { l - 1 };
                    assert(out@[k] == old_out[k0]);
                    assert(out@[l] == old_out[l0]);
                } else if k == p {
                    assert(out@[l] == old_out[l - 1]);
                } else {
                    assert(out@[k] == old_out[k]);
                }
            }
        }
        i = i + 1;
    }
    out
}

/// Whether word `i` is visited before word `j` (see `visited_before`).
fn before(freqs: &[usize], texts: &[String], i: usize, j: usize) -> (r: bool)
    requires
        i < freqs@.len(),
        j < freqs@.len(),
        freqs@.len() == texts@.len(),
    ensures
        r == visited_before(freqs@, crate::text::views(texts@), i as int, j as int),
{
    let ghost ts = crate::text::views(texts@);
    assert(ts[i as int] == texts@[i as int]@);
    assert(ts[j as int] == texts@[j as int]@);
    if freqs[i] != freqs[j] {
        return freqs[i] > freqs[j];
    }
    if text_less(texts[i].as_str(), texts[j].as_str()) {
        return true;
    }
    if text_less(texts[j].as_str(), texts[i].as_str()) {
        proof {
            lemma_text_lt_asymmetric(ts[i as int], ts[j as int]);
            lemma_text_lt_asymmetric(ts[i as int], ts[i as int]);
        }
        return false;
    }
    proof {
        if ts[i as int] != ts[j as int] {
            lemma_text_lt_total(ts[i as int], ts[j as int]);
        }
    }
    i < j
}

/// The sum of order times count over the predictions `cs`.
pub open spec fn weighted_orders(cs: Seq<Candidate>) -> nat
    decreases cs.len(),
{
    if cs.len() == 0 {
        0
    } else {
        weighted_orders(cs.drop_last()) + cs.last().order as nat * cs.last().count as nat
    }
}

/// The sum of the counts of the predictions `cs`.
pub open spec fn total_count(cs: Seq<Candidate>) -> nat
    decreases cs.len(),
{
    if cs.len() == 0 {
        0
    } else {
        total_count(cs.drop_last()) + cs.last().count as nat
    }
}

/// The highest order among the predictions `cs`, and at least 2.
pub open spec fn highest_order(cs: Seq<Candidate>) -> usize
    decreases cs.len(),
{
    if cs.len() == 0 {
        2
    } else {
        let m = highest_order(cs.drop_last());
        if cs.last().order > m {
            cs.last().order
        } else {
            m
        }
    }
}

/// A prefix of the predictions sums to no more than the whole.
proof fn lemma_sums_grow(cs: Seq<Candidate>, k: int)
    requires
        0 <= k <= cs.len(),
    ensures
        weighted_orders(cs.take(k)) <= weighted_orders(cs),
        total_count(cs.take(k)) <= total_count(cs),
    decreases cs.len() - k,
{
    if k < cs.len() {
        assert(cs.drop_last().take(k) =~= cs.take(k));
        lemma_sums_grow(cs.drop_last(), k);
    } else {
        assert(cs.take(k) =~= cs);
    }
}

/// What a word's confidence is drawn from, over its predictions: the sum of order times
/// count, the sum of the counts, and the highest order (at least 2). The sums are taken in
/// `usize`, so they must fit.
pub fn order_stats(cands: &[Candidate]) -> (r: (usize, usize, usize))
    requires
        weighted_orders(cands@) <= usize::MAX,
        total_count(cands@) <= usize::MAX,
    ensures
        r.0 == weighted_orders(cands@),
        r.1 == total_count(cands@),
        r.2 == highest_order(cands@),
{
    let mut weighted: usize = 0;
    let mut count: usize = 0;
    let mut top: usize = 2;
    let mut i: usize = 0;
    while i < cands.len()
        invariant
            i <= cands@.len(),
            weighted_orders(cands@) <= usize::MAX,
            total_count(cands@) <= usize::MAX,
            weighted == weighted_orders(cands@.take(i as int)),
            count == total_count(cands@.take(i as int)),
            top == highest_order(cands@.take(i as int)),
        decreases cands@.len() - i,
    {
        let c = &cands[i];
        proof {
            assert(cands@.take(i as int + 1).drop_last() =~= cands@.take(i as int));
            assert(cands@.take(i as int + 1).last() == *c);
            lemma_sums_grow(cands@, i as int + 1);
        }
        assert(weighted_orders(cands@.take(i as int + 1)) == weighted + c.order as nat * c.count as nat);
        let w = c.order * c.count;
        weighted = weighted + w;
        count = count + c.count;
        if c.order > top {
            top = c.order;
        }
        i = i + 1;
    }
    assert(cands@.take(i as int) =~= cands@);
    (weighted, count, top)
}

} // verus!
