//! The choices behind the radial word view that do not depend on geometry: which words
//! a query picks, which sector a word falls in, how a word's neighbours spread over the
//! clusters, and which n-grams lie wholly in view.
use vstd::prelude::*;
use crate::text::{chars_of, contains_chars, contains_seq, lowercase_of, to_lowercase, views};

verus! {

/// A query picks a word when the word, in lower case, contains the query in lower case.
pub open spec fn query_picks(word: Seq<char>, query: Seq<char>) -> bool {
    contains_seq(lowercase_of(word), lowercase_of(query))
}

/// Whether the query picks the word (see `query_picks`).
pub fn query_matches(word: &str, query: &str) -> (r: bool)
    ensures
        r == query_picks(word@, query@),
{
    let w = to_lowercase(word);
    let q = to_lowercase(query);
    contains_chars(&chars_of(w.as_str()), &chars_of(q.as_str()))
}

/// The first cluster of `cs` that holds `word`: none before it holds the word.
pub open spec fn first_holding(word: Seq<char>, cs: Seq<Seq<Seq<char>>>, s: int) -> bool {
    &&& 0 <= s < cs.len()
    &&& cs[s].contains(word)
    &&& forall|c: int| 0 <= c < s ==> !(#[trigger] cs[c]).contains(word)
}

/// The views of a list of clusters.
pub open spec fn cluster_views(cs: Seq<Vec<String>>) -> Seq<Seq<Seq<char>>> {
    cs.map_values(|m: Vec<String>| views(m@))
}

/// Whether the list `m` holds `w`.
fn holds(m: &Vec<String>, w: &str) -> (r: bool)
    ensures
        r == views(m@).contains(w@),
{
    let mut i: usize = 0;
    while i < m.len()
        invariant
            i <= m@.len(),
            forall|j: int| 0 <= j < i ==> m@[j]@ != w@,
        decreases m@.len() - i,
    {
        if crate::html::same_text(m[i].as_str(), w) {
            assert(views(m@)[i as int] == w@);
            return true;
        }
        i = i + 1;
    }
    proof {
        if views(m@).contains(w@) {
            let j = choose|j: int| 0 <= j < views(m@).len() && views(m@)[j] == w@;
            assert(m@[j]@ == w@);
        }
    }
    false
}

/// The sector of `word`: the first cluster that holds it, or the first cluster when none
/// does.
pub fn sector_of(word: &str, clusters: &Vec<Vec<String>>) -> (r: usize)
    ensures
        r < clusters@.len() || (r == 0 && clusters@.len() == 0),
        (exists|c: int| 0 <= c < clusters@.len() && (#[trigger] cluster_views(clusters@)[c]).contains(word@))
            ==> first_holding(word@, cluster_views(clusters@), r as int),
        !(exists|c: int| 0 <= c < clusters@.len() && (#[trigger] cluster_views(clusters@)[c]).contains(word@))
            ==> r == 0,
{
    let ghost cv = cluster_views(clusters@);
    let mut c: usize = 0;
    while c < clusters.len()
        invariant
            c <= clusters@.len(),
            cv == cluster_views(clusters@),
            forall|k: int| 0 <= k < c ==> !(#[trigger] cv[k]).contains(word@),
        decreases clusters@.len() - c,
    {
        if holds(&clusters[c], word) {
            assert(cv[c as int] == views(clusters@[c as int]@));
            return c;
        }
        assert(cv[c as int] == views(clusters@[c as int]@));
        c = c + 1;
    }
    0
}

/// How many of the words `ns` the cluster `m` holds.
pub open spec fn in_cluster_count(ns: Seq<Seq<char>>, m: Seq<Seq<char>>) -> nat {
    ns.filter(|y: Seq<char>| m.contains(y)).len()
}

/// How many of the words `ns` the list `m` holds.
fn count_held(ns: &Vec<String>, m: &Vec<String>) -> (n: usize)
    ensures
        n == in_cluster_count(views(ns@), views(m@)),
        n <= ns@.len(),
{
    let ghost nv = views(ns@);
    let ghost mv = views(m@);
    let mut n: usize = 0;
    let mut i: usize = 0;
    while i < ns.len()
        invariant
            i <= ns@.len(),
            nv == views(ns@),
            mv == views(m@),
            n == nv.take(i as int).filter(|y: Seq<char>| mv.contains(y)).len(),
            n <= i,
        decreases ns@.len() - i,
    {
        proof {
            reveal_with_fuel(Seq::filter, 1);
            assert(nv.take(i as int + 1).drop_last() =~= nv.take(i as int));
            assert(nv.take(i as int + 1).last() == ns@[i as int]@);
        }
        if holds(m, ns[i].as_str()) {
            n = n + 1;
        }
        i = i + 1;
    }
    assert(nv.take(i as int) =~= nv);
    n
}

/// For each cluster, how many of the neighbours `neighbors` it holds: the connections a
/// word makes to each cluster.
pub fn cluster_connections(neighbors: &Vec<String>, clusters: &Vec<Vec<String>>) -> (r: Vec<usize>)
    ensures
        r@.len() == clusters@.len(),
        forall|c: int| 0 <= c < clusters@.len() ==> (#[trigger] r@[c]) == in_cluster_count(
            views(neighbors@),
            views(clusters@[c]@),
        ),
{
    let ghost ns = views(neighbors@);
    let mut out: Vec<usize> = Vec::new();
    let mut c: usize = 0;
    while c < clusters.len()
        invariant
            c <= clusters@.len(),
            ns == views(neighbors@),
            out@.len() == c,
            forall|k: int| 0 <= k < c ==> (#[trigger] out@[k]) == in_cluster_count(ns, views(clusters@[k]@)),
        decreases clusters@.len() - c,
    {
        let n = count_held(neighbors, &clusters[c]);
        out.push(n);
        c = c + 1;
    }
    out
}

/// Every word of `ws` is among `vis`.
pub open spec fn all_in_view(ws: Seq<Seq<char>>, vis: Seq<Seq<char>>) -> bool {
    forall|i: int| 0 <= i < ws.len() ==> vis.contains(#[trigger] ws[i])
}

/// The places, in order, among the first `n` n-grams of `l` (each given by its words), of
/// those whose words are all in view.
pub open spec fn cells_upto(l: Seq<Seq<Seq<char>>>, vis: Seq<Seq<char>>, n: int) -> Seq<usize>
    decreases n,
{
    if n <= 0 {
        seq![]
    } else {
        cells_upto(l, vis, n - 1) + if all_in_view(l[n - 1], vis) {
            seq![(n - 1) as usize]
        } else {
            seq![]
        }
    }
}

/// The views of a list of n-grams, each given by its words.
pub open spec fn ngram_views(l: Seq<Vec<String>>) -> Seq<Seq<Seq<char>>> {
    l.map_values(|ws: Vec<String>| views(ws@))
}

/// The places of the n-grams (each given by its words) whose words are all among
/// `visible`: the ones that a semantic cell is drawn for.
pub fn cells_in_view(ngrams: &Vec<Vec<String>>, visible: &Vec<String>) -> (r: Vec<usize>)
    ensures
        r@ == cells_upto(ngram_views(ngrams@), views(visible@), ngrams@.len() as int),
{
    let ghost l = ngram_views(ngrams@);
    let ghost vis = views(visible@);
    let mut out: Vec<usize> = Vec::new();
    let mut k: usize = 0;
    while k < ngrams.len()
        invariant
            k <= ngrams@.len(),
            l == ngram_views(ngrams@),
            vis == views(visible@),
            out@ == cells_upto(l, vis, k as int),
        decreases ngrams@.len() - k,
    {
        let ws = &ngrams[k];
        let mut all = true;
        let mut i: usize = 0;
        while i < ws.len()
            invariant
                i <= ws@.len(),
                vis == views(visible@),
                all == (forall|j: int| 0 <= j < i ==> vis.contains(#[trigger] ws@[j]@)),
            decreases ws@.len() - i,
        {
            let h = holds(visible, ws[i].as_str());
            proof {
                if all && h {
                    assert forall|j: int| 0 <= j < i + 1 implies vis.contains(#[trigger] ws@[j]@) by {}
                }
            }
            all = all && h;
            i = i + 1;
        }
        proof {
            assert(l[k as int] == views(ws@));
            assert(all == all_in_view(l[k as int], vis)) by {
                if all {
                    assert forall|j: int| 0 <= j < l[k as int].len() implies vis.contains(#[trigger] l[k as int][j]) by {
                        assert(l[k as int][j] == ws@[j]@);
                    }
                } else {
                    let j = choose|j: int| 0 <= j < i && !vis.contains(#[trigger] ws@[j]@);
                    assert(l[k as int][j] == ws@[j]@);
                }
            }
        }
        if all {
            out.push(k);
        }
        k = k + 1;
    }
    out
}

/// How alike two words' neighbourhoods are, as counts over their neighbour lists `a` and
/// `b` (each listing a word once): how many neighbours they share, and how many they have
/// between them.
pub fn neighbor_overlap(a: &Vec<String>, b: &Vec<String>) -> (r: (usize, u128))
    ensures
        r.0 == in_cluster_count(views(a@), views(b@)),
        r.1 == a@.len() + b@.len() - r.0,
{
    let shared = count_held(a, b);
    let between = (a.len() - shared) as u128 + b.len() as u128;
    (shared, between)
}

/// The count of `k` in `m`, or 0 when `m` has none.
pub open spec fn count_or_zero(m: Map<usize, u64>, k: usize) -> nat {
    if m.contains_key(k) {
        m[k] as nat
    } else {
        0
    }
}

/// The keys of `la`, then those of `lb` that `a` lacks.
pub open spec fn key_union(la: Seq<usize>, lb: Seq<usize>, a: Map<usize, u64>) -> Seq<usize> {
    la + lb.filter(|k: usize| !a.contains_key(k))
}

/// The sums, over the keys `ks`, of the smaller and of the larger of the two counts.
pub open spec fn min_max_sums(ks: Seq<usize>, a: Map<usize, u64>, b: Map<usize, u64>) -> (nat, nat)
    decreases ks.len(),
{
    if ks.len() == 0 {
        (0, 0)
    } else {
        let p = min_max_sums(ks.drop_last(), a, b);
        let x = count_or_zero(a, ks.last());
        let y = count_or_zero(b, ks.last());
        (p.0 + if x <= y { x } else { y }, p.1 + if x <= y { y } else { x })
    }
}

/// The two sums `r` are the two sums `p`.
pub open spec fn sums_are(r: (u128, u128), p: (nat, nat)) -> bool {
    r.0 == p.0 && r.1 == p.1
}

/// Adds, over the keys `ks` (those with `skip_known` set only when `a` lacks them), the
/// smaller and the larger counts of `a` and `b` to `sums`.
fn add_min_max(
    ks: &Vec<usize>,
    a: &std::collections::HashMap<usize, u64>,
    b: &std::collections::HashMap<usize, u64>,
    skip_known: bool,
    sums: (u128, u128),
    Ghost(done): Ghost<Seq<usize>>,
) -> (r: (u128, u128))
    requires
        sums_are(sums, min_max_sums(done, a@, b@)),
        sums.0 <= done.len() * 0xffff_ffff_ffff_ffffnat,
        sums.1 <= done.len() * 0xffff_ffff_ffff_ffffnat,
        done.len() + ks@.len() <= usize::MAX,
    ensures
        ({
            let more = if skip_known { ks@.filter(|k: usize| !a@.contains_key(k)) } else { ks@ };
            &&& sums_are(r, min_max_sums(done + more, a@, b@))
            &&& r.0 <= (done + more).len() * 0xffff_ffff_ffff_ffffnat
            &&& r.1 <= (done + more).len() * 0xffff_ffff_ffff_ffffnat
        }),
{
    let ghost f = |k: usize| !a@.contains_key(k);
    let mut acc = sums;
    let ghost mut seen: Seq<usize> = done;
    let mut i: usize = 0;
    while i < ks.len()
        invariant
            i <= ks@.len(),
            done.len() + ks@.len() <= usize::MAX,
            f == (|k: usize| !a@.contains_key(k)),
            seen == done + (if skip_known { ks@.take(i as int).filter(f) } else { ks@.take(i as int) }),
            sums_are(acc, min_max_sums(seen, a@, b@)),
            acc.0 <= seen.len() * 0xffff_ffff_ffff_ffffnat,
            acc.1 <= seen.len() * 0xffff_ffff_ffff_ffffnat,
            seen.len() <= done.len() + i,
        decreases ks@.len() - i,
    {
        let k = ks[i];
        proof {
            reveal_with_fuel(Seq::filter, 1);
            assert(ks@.take(i as int + 1).drop_last() =~= ks@.take(i as int));
            assert(ks@.take(i as int + 1).last() == k);
        }
        let take = !skip_known || !a.contains_key(&k);
        if take {
            let x: u64 = match a.get(&k) {
                Some(v) => *v,
                None => 0,
            };
            let y: u64 = match b.get(&k) {
                Some(v) => *v,
                None => 0,
            };
            let lo = if x <= y { x } else { y };
            let hi = if x <= y { y } else { x };
            proof {
                let n = seen.len();
                assert(acc.0 + lo <= (n + 1) * 0xffff_ffff_ffff_ffffnat) by (nonlinear_arith)
                    requires
                        acc.0 <= n * 0xffff_ffff_ffff_ffffnat,
                        lo <= 0xffff_ffff_ffff_ffffnat,
                ;
                assert(acc.1 + hi <= (n + 1) * 0xffff_ffff_ffff_ffffnat) by (nonlinear_arith)
                    requires
                        acc.1 <= n * 0xffff_ffff_ffff_ffffnat,
                        hi <= 0xffff_ffff_ffff_ffffnat,
                ;
                assert((n + 1) * 0xffff_ffff_ffff_ffffnat <= 0xffff_ffff_ffff_ffff_ffff_ffff_ffff_ffffnat) by (nonlinear_arith)
                    requires
                        n + 1 <= 0x1_0000_0000_0000_0000nat,
                ;
                let s2 = seen.push(k);
                assert(s2.drop_last() =~= seen);
                seen = s2;
                if skip_known {
                    assert(ks@.take(i as int + 1).filter(f) =~= ks@.take(i as int).filter(f).push(k));
                } else {
                    assert(ks@.take(i as int + 1) =~= ks@.take(i as int).push(k));
                }
                assert(seen =~= done + (if skip_known { ks@.take(i as int + 1).filter(f) } else { ks@.take(i as int + 1) }));
            }
            acc = (acc.0 + lo as u128, acc.1 + hi as u128);
        } else {
            proof {
                assert(ks@.take(i as int + 1).filter(f) =~= ks@.take(i as int).filter(f));
            }
        }
        i = i + 1;
    }
    assert(ks@.take(i as int) =~= ks@);
    acc
}

/// How alike two words' n-gram orders are: over every order either word took part in, the
/// sum of the smaller of the two counts and the sum of the larger (a missing count being
/// 0). The two order lists together must be countable in `usize`.
pub fn order_overlap(a: &crate::behavior::WordBehavior, b: &crate::behavior::WordBehavior) -> (r: (u128, u128))
    requires
        a.orders@.len() + b.orders@.len() <= usize::MAX,
    ensures
        sums_are(r, min_max_sums(key_union(a.orders@, b.orders@, a.ngram_orders@), a.ngram_orders@, b.ngram_orders@)),
{
    let ghost e: Seq<usize> = seq![];
    let first = add_min_max(&a.orders, &a.ngram_orders, &b.ngram_orders, false, (0, 0), Ghost(e));
    assert(e + a.orders@ =~= a.orders@);
    let r = add_min_max(&b.orders, &a.ngram_orders, &b.ngram_orders, true, first, Ghost(a.orders@));
    r
}

} // verus!
