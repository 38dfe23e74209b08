//! Word frequencies of a token list, and the words new to a vocabulary, most frequent
//! first.
use vstd::prelude::*;
use vstd::hash_map::StringHashMap;
use crate::text::views;

verus! {

/// How many times `w` occurs in `ts`.
pub open spec fn occurrences(ts: Seq<Seq<char>>, w: Seq<char>) -> nat {
    ts.filter(|t: Seq<char>| t == w).len()
}

/// Counting one more token adds one to its own count and leaves the others.
proof fn lemma_occurrences_push(ts: Seq<Seq<char>>, t: Seq<char>, w: Seq<char>)
    ensures
        occurrences(ts.push(t), w) == occurrences(ts, w) + if t == w { 1nat } else { 0nat },
{
    reveal_with_fuel(Seq::filter, 1);
    assert(ts.push(t).drop_last() =~= ts);
}

/// The distinct words of `ts` in order of first occurrence, with how often each occurs.
pub fn word_frequencies(tokens: &[String]) -> (r: (Vec<String>, StringHashMap<usize>))
    ensures
        views(r.0@).no_duplicates(),
        forall|w: Seq<char>| #[trigger] r.1@.contains_key(w) <==> views(tokens@).contains(w),
        forall|w: Seq<char>| #[trigger] views(r.0@).contains(w) <==> views(tokens@).contains(w),
        forall|w: Seq<char>|
            #[trigger] r.1@.contains_key(w) ==> r.1@[w] == occurrences(views(tokens@), w),
{
    let ghost ts = views(tokens@);
    let mut order: Vec<String> = Vec::new();
    let mut counts: StringHashMap<usize> = StringHashMap::new();
    let mut i: usize = 0;
    while i < tokens.len()
        invariant
            i <= tokens@.len(),
            ts == views(tokens@),
            views(order@).no_duplicates(),
            forall|w: Seq<char>| #[trigger] counts@.contains_key(w) <==> ts.take(i as int).contains(w),
            forall|w: Seq<char>| #[trigger] views(order@).contains(w) <==> ts.take(i as int).contains(w),
            forall|w: Seq<char>|
                #[trigger] counts@.contains_key(w) ==> counts@[w] == occurrences(ts.take(i as int), w)
                    && counts@[w] <= i,
        decreases tokens@.len() - i,
    {
        let t = &tokens[i];
        let ghost pre = ts.take(i as int);
        let ghost post = ts.take(i as int + 1);
        proof {
            assert(post =~= pre.push(t@));
            assert forall|w: Seq<char>| #[trigger] post.contains(w) <==> pre.contains(w) || w == t@ by {
                if post.contains(w) && w != t@ {
                    let j = choose|j: int| 0 <= j < post.len() && post[j] == w;
                    assert(pre[j] == w);
                }
                if pre.contains(w) {
                    let j = choose|j: int| 0 <= j < pre.len() && pre[j] == w;
                    assert(post[j] == w);
                }
                if w == t@ {
                    assert(post[i as int] == w);
                }
            }
            assert forall|w: Seq<char>| #[trigger] occurrences(post, w) == occurrences(pre, w) + if t@ == w { 1nat } else { 0nat } by {
                lemma_occurrences_push(pre, t@, w);
            }
        }
        let existing = match counts.get(t.as_str()) {
            Some(c) => Some(*c),
            None => None,
        };
        match existing {
            Some(c) => {
                counts.insert(t.clone(), c + 1);
            },
            None => {
                proof {
                    assert(occurrences(pre, t@) == 0) by {
                        assert(!pre.contains(t@));
                        let pred = |x: Seq<char>| x == t@;
                        let f = pre.filter(pred);
                        if f.len() > 0 {
                            pre.filter_lemma(pred);
                            assert(f.contains(f[0]));
                            pre.lemma_filter_contains_rev(pred, f[0]);
                            assert(f[0] == t@);
                        }
                        assert(f.len() == 0);
                    }
                }
                counts.insert(t.clone(), 1);
                let ghost before = views(order@);
                order.push(t.clone());
                proof {
                    assert(views(order@) =~= before.push(t@));
                    assert forall|j: int, k: int| 0 <= j < k < views(order@).len() implies views(order@)[j] != views(order@)[k] by {
                        if k == before.len() {
                            assert(before.contains(before[j]));
                        }
                    }
                    assert forall|w: Seq<char>| #[trigger] views(order@).contains(w) <==> before.contains(w) || w == t@ by {
                        if views(order@).contains(w) && w != t@ {
                            let j = choose|j: int| 0 <= j < views(order@).len() && views(order@)[j] == w;
                            assert(before[j] == w);
                        }
                        if before.contains(w) {
                            let j = choose|j: int| 0 <= j < before.len() && before[j] == w;
                            assert(views(order@)[j] == w);
                        }
                        if w == t@ {
                            assert(views(order@)[before.len() as int] == w);
                        }
                    }
                }
            },
        }
        i = i + 1;
    }
    assert(ts.take(i as int) =~= ts);
    (order, counts)
}

/// The words of `ws` that are not in `known`, each with its count in `counts`, in the order
/// of `ws`.
fn unknown_words(ws: &Vec<String>, counts: &StringHashMap<usize>, known: &StringHashMap<usize>) -> (r: Vec<(String, usize)>)
    requires
        forall|w: Seq<char>| #[trigger] views(ws@).contains(w) ==> counts@.contains_key(w),
    ensures
        forall|i: int| 0 <= i < r@.len() ==> {
            &&& views(ws@).contains((#[trigger] r@[i]).0@)
            &&& !known@.contains_key(r@[i].0@)
            &&& r@[i].1 == counts@[r@[i].0@]
        },
        forall|w: Seq<char>| #[trigger] views(ws@).contains(w) && !known@.contains_key(w) ==> exists|i: int|
            0 <= i < r@.len() && (#[trigger] r@[i]).0@ == w,
        views(ws@).no_duplicates() ==> forall|i: int, j: int| 0 <= i < j < r@.len() ==> r@[i].0@ != r@[j].0@,
{
    let mut out: Vec<(String, usize)> = Vec::new();
    let mut i: usize = 0;
    let ghost mut pos: Seq<int> = seq![];
    while i < ws.len()
        invariant
            i <= ws@.len(),
            forall|w: Seq<char>| #[trigger] views(ws@).contains(w) ==> counts@.contains_key(w),
            pos.len() == out@.len(),
            forall|k: int| 0 <= k < out@.len() ==> 0 <= #[trigger] pos[k] < i && ws@[pos[k]]@ == out@[k].0@,
            forall|k1: int, k2: int| 0 <= k1 < k2 < out@.len() ==> pos[k1] < pos[k2],
            forall|k: int| 0 <= k < out@.len() ==> {
                &&& !known@.contains_key((#[trigger] out@[k]).0@)
                &&& out@[k].1 == counts@[out@[k].0@]
            },
            forall|j: int| 0 <= j < i && !known@.contains_key(#[trigger] ws@[j]@) ==> exists|k: int|
                0 <= k < out@.len() && (#[trigger] out@[k]).0@ == ws@[j]@,
        decreases ws@.len() - i,
    {
        let w = &ws[i];
        if !known.contains_key(w.as_str()) {
            proof {
                assert(views(ws@)[i as int] == w@);
                assert(views(ws@).contains(w@));
            }
            let c = match counts.get(w.as_str()) {
                Some(c) => *c,
                None => 0,
            };
            let ghost before = out@;
            out.push((w.clone(), c));
            proof {
                pos = pos.push(i as int);
                assert forall|j: int| 0 <= j < i + 1 && !known@.contains_key(#[trigger] ws@[j]@) implies exists|k: int|
                    0 <= k < out@.len() && (#[trigger] out@[k]).0@ == ws@[j]@ by {
                    if j < i {
                        let k = choose|k: int| 0 <= k < before.len() && (#[trigger] before[k]).0@ == ws@[j]@;
                        assert(out@[k] == before[k]);
                    } else {
                        assert(out@[before.len() as int].0@ == ws@[j]@);
                    }
                }
            }
        }
        i = i + 1;
    }
    proof {
        assert forall|i2: int| 0 <= i2 < out@.len() implies views(ws@).contains((#[trigger] out@[i2]).0@) by {
            assert(views(ws@)[pos[i2]] == out@[i2].0@);
        }
        assert forall|w: Seq<char>| #[trigger] views(ws@).contains(w) && !known@.contains_key(w) implies exists|k: int|
            0 <= k < out@.len() && (#[trigger] out@[k]).0@ == w by {
            let j = choose|j: int| 0 <= j < views(ws@).len() && views(ws@)[j] == w;
            assert(ws@[j]@ == w);
        }
        if views(ws@).no_duplicates() {
            assert forall|i1: int, i2: int| 0 <= i1 < i2 < out@.len() implies out@[i1].0@ != out@[i2].0@ by {
                assert(pos[i1] < pos[i2]);
                assert(views(ws@)[pos[i1]] == out@[i1].0@);
                assert(views(ws@)[pos[i2]] == out@[i2].0@);
            }
        }
    }
    out
}

/// The words of `tokens` that `known` lacks, each once with how often it occurs in
/// `tokens`, most frequent first (words of equal frequency in no promised order).
pub fn new_words(tokens: &[String], known: &StringHashMap<usize>) -> (r: Vec<(String, usize)>)
    ensures
        forall|i: int| 0 <= i < r@.len() ==> {
            &&& views(tokens@).contains((#[trigger] r@[i]).0@)
            &&& !known@.contains_key(r@[i].0@)
            &&& r@[i].1 == occurrences(views(tokens@), r@[i].0@)
        },
        forall|w: Seq<char>| #[trigger] views(tokens@).contains(w) && !known@.contains_key(w) ==> exists|i: int|
            0 <= i < r@.len() && (#[trigger] r@[i]).0@ == w,
        forall|i: int, j: int| 0 <= i < j < r@.len() ==> r@[i].0@ != r@[j].0@,
        forall|i: int, j: int| 0 <= i < j < r@.len() ==> r@[i].1 >= r@[j].1,
{
    let (order, counts) = word_frequencies(tokens);
    let mut pool = unknown_words(&order, &counts, known);
    let mut out: Vec<(String, usize)> = Vec::new();
    let ghost ts = views(tokens@);
    proof {
        assert forall|w: Seq<char>| #[trigger] ts.contains(w) && !known@.contains_key(w) implies exists|i: int|
            0 <= i < pool@.len() && (#[trigger] pool@[i]).0@ == w by {
            assert(views(order@).contains(w));
        }
        assert forall|i: int| 0 <= i < pool@.len() implies {
            &&& ts.contains((#[trigger] pool@[i]).0@)
            &&& !known@.contains_key(pool@[i].0@)
            &&& pool@[i].1 == occurrences(ts, pool@[i].0@)
        } by {
            assert(views(order@).contains(pool@[i].0@));
            assert(counts@.contains_key(pool@[i].0@));
        }
    }
    while pool.len() > 0
        invariant
            ts == views(tokens@),
            forall|i: int| 0 <= i < pool@.len() ==> {
                &&& ts.contains((#[trigger] pool@[i]).0@)
                &&& !known@.contains_key(pool@[i].0@)
                &&& pool@[i].1 == occurrences(ts, pool@[i].0@)
            },
            forall|i: int| 0 <= i < out@.len() ==> {
                &&& ts.contains((#[trigger] out@[i]).0@)
                &&& !known@.contains_key(out@[i].0@)
                &&& out@[i].1 == occurrences(ts, out@[i].0@)
            },
            forall|i: int, j: int| 0 <= i < j < pool@.len() ==> pool@[i].0@ != pool@[j].0@,
            forall|i: int, j: int| 0 <= i < j < out@.len() ==> out@[i].0@ != out@[j].0@,
            forall|i: int, j: int| 0 <= i < out@.len() && 0 <= j < pool@.len() ==> out@[i].0@ != pool@[j].0@,
            forall|i: int, j: int| 0 <= i < j < out@.len() ==> out@[i].1 >= out@[j].1,
            forall|i: int, j: int| 0 <= i < out@.len() && 0 <= j < pool@.len() ==> out@[i].1 >= pool@[j].1,
            forall|w: Seq<char>| #[trigger] ts.contains(w) && !known@.contains_key(w) ==> (exists|i: int|
                0 <= i < pool@.len() && (#[trigger] pool@[i]).0@ == w) || (exists|i: int|
                0 <= i < out@.len() && (#[trigger] out@[i]).0@ == w),
        decreases pool@.len(),
    {
        let mut bi: usize = 0;
        let mut k: usize = 1;
        while k < pool.len()
            invariant
                0 < pool@.len(),
                bi < k <= pool@.len(),
                forall|t: int| 0 <= t < k ==> pool@[t].1 <= pool@[bi as int].1,
            decreases pool@.len() - k,
        {
            if pool[k].1 > pool[bi].1 {
                bi = k;
            }
            k = k + 1;
        }
        let ghost pool0 = pool@;
        let ghost out0 = out@;
        let last = pool.len() - 1;
        let item = pool.swap_remove(bi);
        out.push(item);
        proof {
            assert forall|j: int| 0 <= j < pool@.len() implies #[trigger] pool@[j] == pool0[if j == bi { last as int } else { j }] by {
            }
            assert forall|i: int| 0 <= i < pool@.len() implies {
                &&& ts.contains((#[trigger] pool@[i]).0@)
                &&& !known@.contains_key(pool@[i].0@)
                &&& pool@[i].1 == occurrences(ts, pool@[i].0@)
            } by {
                assert(pool@[i] == pool0[if i == bi { last as int } else { i }]);
            }
            assert forall|i: int| 0 <= i < out@.len() implies {
                &&& ts.contains((#[trigger] out@[i]).0@)
                &&& !known@.contains_key(out@[i].0@)
                &&& out@[i].1 == occurrences(ts, out@[i].0@)
            } by {
                if i < out0.len() {
                    assert(out@[i] == out0[i]);
                }
            }
            assert forall|i: int, j: int| 0 <= i < j < pool@.len() implies pool@[i].0@ != pool@[j].0@ by {
                assert(pool@[i] == pool0[if i == bi { last as int } else { i }]);
                assert(pool@[j] == pool0[if j == bi { last as int } else { j }]);
            }
            assert forall|i: int, j: int| 0 <= i < j < out@.len() implies out@[i].0@ != out@[j].0@ by {
                assert(out@[i] == out0[i]);
                if j < out0.len() {
                    assert(out@[j] == out0[j]);
                }
            }
            assert forall|i: int, j: int| 0 <= i < out@.len() && 0 <= j < pool@.len() implies out@[i].0@ != pool@[j].0@ by {
                assert(pool@[j] == pool0[if j == bi { last as int } else { j }]);
                if i < out0.len() {
                    assert(out@[i] == out0[i]);
                }
            }
            assert forall|i: int, j: int| 0 <= i < j < out@.len() implies out@[i].1 >= out@[j].1 by {
                assert(out@[i] == out0[i]);
                if j < out0.len() {
                    assert(out@[j] == out0[j]);
                }
            }
            assert forall|i: int, j: int| 0 <= i < out@.len() && 0 <= j < pool@.len() implies out@[i].1 >= pool@[j].1 by {
                assert(pool@[j] == pool0[if j == bi { last as int } else { j }]);
                if i < out0.len() {
                    assert(out@[i] == out0[i]);
                }
            }
            assert forall|w: Seq<char>| #[trigger] ts.contains(w) && !known@.contains_key(w) implies (exists|i: int|
                0 <= i < pool@.len() && (#[trigger] pool@[i]).0@ == w) || (exists|i: int|
                0 <= i < out@.len() && (#[trigger] out@[i]).0@ == w) by {
                if exists|i: int| 0 <= i < out0.len() && (#[trigger] out0[i]).0@ == w {
                    let i = choose|i: int| 0 <= i < out0.len() && (#[trigger] out0[i]).0@ == w;
                    assert(out@[i] == out0[i]);
                } else {
                    let i = choose|i: int| 0 <= i < pool0.len() && (#[trigger] pool0[i]).0@ == w;
                    if i == bi {
                        assert(out@[out0.len() as int] == pool0[i]);
                    } else if i == last {
                        assert(pool@[bi as int] == pool0[i]);
                    } else {
                        assert(pool@[i] == pool0[i]);
                    }
                }
            }
        }
    }
    out
}

} // verus!
