//! The n-gram table behind the radial word view: every run of 2 to `max_order` words of
//! a text, counted, with when it was first and last seen.
use vstd::prelude::*;
use vstd::hash_map::StringHashMap;
use crate::text::{chars_of, join_with, join_words, lowercase_of, split_whitespace, string_of, to_lowercase, views, words};

verus! {

/// A moment in UTC: seconds since the Unix epoch and nanoseconds past that second.
#[derive(Clone, Copy, PartialEq, Eq, Structural, Debug)]
pub struct Stamp {
    pub secs: i64,
    pub nanos: u32,
}

/// Reads the clock with `std::time::SystemTime::now` and turns it into a `chrono` UTC
/// moment through `DateTime::<Utc>::from`, which takes a clock before the Unix epoch as a
/// negative time; reads its seconds and nanoseconds. Nothing is stated of the moment read.
#[verifier::external_body]
fn current_time() -> (r: Stamp) {
    let t = chrono::DateTime::<chrono::Utc>::from(std::time::SystemTime::now());
    Stamp { secs: t.timestamp(), nanos: t.timestamp_subsec_nanos() }
}

/// One n-gram: its words, how often it was seen, and when it was first and last seen.
pub struct Ngram {
    pub words: Vec<String>,
    pub count: u64,
    pub first_seen: Stamp,
    pub last_seen: Stamp,
}

/// An n-gram as plain values.
pub ghost struct NgramView {
    pub words: Seq<Seq<char>>,
    pub count: u64,
    pub first_seen: Stamp,
    pub last_seen: Stamp,
}

impl View for Ngram {
    type V = NgramView;

    open spec fn view(&self) -> NgramView {
        NgramView { words: views(self.words@), count: self.count, first_seen: self.first_seen, last_seen: self.last_seen }
    }
}

/// The key an n-gram is found by: its words joined by spaces.
pub open spec fn ngram_key(ws: Seq<Seq<char>>) -> Seq<char> {
    join_with(ws, seq![' '])
}

/// The place in `l` of the n-gram whose key is `k`, if any.
pub open spec fn place_of(l: Seq<NgramView>, k: Seq<char>) -> Option<int> {
    if exists|i: int| 0 <= i < l.len() && ngram_key(l[i].words) == k {
        Some(choose|i: int| 0 <= i < l.len() && ngram_key(l[i].words) == k)
    } else {
        None
    }
}

/// The n-grams after seeing the run of words `w` at `now`: the n-gram with its key counts
/// once more and was last seen now; a new one is added, seen once, first and last now.
pub open spec fn seen_once_more(l: Seq<NgramView>, w: Seq<Seq<char>>, now: Stamp) -> Seq<NgramView> {
    match place_of(l, ngram_key(w)) {
        Some(i) => l.update(i, NgramView { count: (l[i].count + 1) as u64, last_seen: now, ..l[i] }),
        None => l.push(NgramView { words: w, count: 1, first_seen: now, last_seen: now }),
    }
}

/// The n-grams after seeing each run of `runs` in turn at `now`.
pub open spec fn seen_all(l: Seq<NgramView>, runs: Seq<Seq<Seq<char>>>, now: Stamp) -> Seq<NgramView>
    decreases runs.len(),
{
    if runs.len() == 0 {
        l
    } else {
        seen_once_more(seen_all(l, runs.drop_last(), now), runs.last(), now)
    }
}

/// The runs of `o` words of `ws` that start before position `n`, in order.
pub open spec fn runs_of_order(ws: Seq<Seq<char>>, o: int, n: int) -> Seq<Seq<Seq<char>>>
    decreases n,
{
    if n <= 0 || o > ws.len() || n > ws.len() - o + 1 {
        seq![]
    } else {
        runs_of_order(ws, o, n - 1).push(ws.subrange(n - 1, n - 1 + o))
    }
}

/// The runs of 2 through `o` words of `ws`, shortest runs first, each length in order of
/// position.
pub open spec fn runs_upto(ws: Seq<Seq<char>>, o: int) -> Seq<Seq<Seq<char>>>
    decreases o,
{
    if o < 2 {
        seq![]
    } else {
        runs_upto(ws, o - 1) + if o <= ws.len() {
            runs_of_order(ws, o, ws.len() - o + 1)
        } else {
            seq![]
        }
    }
}

/// The words of a text for the n-gram table: split at white space, each in lower case.
pub open spec fn table_words(text: Seq<char>) -> Seq<Seq<char>> {
    words(text).map_values(|w: Seq<char>| lowercase_of(w))
}

/// Every n-gram's count, plus the runs of `runs` with its key, fits in a `u64`: counting
/// the runs overflows no count.
pub open spec fn counts_fit(l: Seq<NgramView>, runs: Seq<Seq<Seq<char>>>) -> bool {
    forall|k: Seq<char>| #[trigger] key_count(l, k) + runs_with_key(runs, k) <= u64::MAX
}

/// The n-gram table.
pub struct NgramTable {
    entries: Vec<Ngram>,
    index: StringHashMap<usize>,
}

impl NgramTable {
    /// The n-grams, in the order first seen.
    pub closed spec fn list(&self) -> Seq<NgramView> {
        self.entries@.map_values(|g: Ngram| g@)
    }

    /// The index finds each n-gram by its key, and no two have the same key.
    pub closed spec fn wf(&self) -> bool {
        &&& forall|k: Seq<char>| #[trigger] self.index@.contains_key(k) ==> {
            let i = self.index@[k] as int;
            0 <= i < self.entries@.len() && ngram_key(views(self.entries@[i].words@)) == k
        }
        &&& forall|i: int| 0 <= i < self.entries@.len() ==> {
            let k = ngram_key(views((#[trigger] self.entries@[i]).words@));
            self.index@.contains_key(k) && self.index@[k] == i
        }
    }

    /// No two n-grams of a well-formed table have the same key.
    pub proof fn lemma_keys_distinct(&self)
        requires
            self.wf(),
        ensures
            distinct_keys(self.list()),
    {
        assert forall|i: int, j: int| 0 <= i < j < self.list().len() implies ngram_key(self.list()[i].words)
            != ngram_key(self.list()[j].words) by {
            let ki = ngram_key(views(self.entries@[i].words@));
            let kj = ngram_key(views(self.entries@[j].words@));
            assert(self.index@[ki] == i);
            assert(self.index@[kj] == j);
        }
    }

    /// A table with no n-grams.
    pub fn new() -> (r: NgramTable)
        ensures
            r.wf(),
            r.list() == Seq::<NgramView>::empty(),
    {
        let r = NgramTable { entries: Vec::new(), index: StringHashMap::new() };
        assert(r.list() =~= Seq::<NgramView>::empty());
        r
    }

    /// How many n-grams the table holds.
    pub fn len(&self) -> (r: usize)
        ensures
            r == self.list().len(),
    {
        self.entries.len()
    }

    /// The n-grams, in the order first seen.
    pub fn entries(&self) -> (r: &Vec<Ngram>)
        ensures
            r@.map_values(|g: Ngram| g@) == self.list(),
    {
        &self.entries
    }

    /// Counts the run of words `w` as seen at `now` (see `seen_once_more`).
    fn see(&mut self, w: Vec<String>, now: Stamp)
        requires
            old(self).wf(),
            key_count(old(self).list(), ngram_key(views(w@))) + 1 <= u64::MAX,
        ensures
            final(self).wf(),
            final(self).list() == seen_once_more(old(self).list(), views(w@), now),
    {
        let ghost l0 = self.list();
        let key_chars = join_words(&w);
        let key = string_of(&key_chars);
        let ghost k = key@;
        match self.index.get(key.as_str()) {
            Some(i) => {
                let i = *i;
                proof {
                    assert(ngram_key(l0[i as int].words) == k);
                    self.lemma_keys_distinct();
                    lemma_place_unique(l0, k, i as int);
                    let j = place_of(l0, k)->0;
                    assert(place_of(l0, k) is Some);
                    assert(ngram_key(l0[j].words) == k);
                    assert(self.index@[ngram_key(views(self.entries@[j].words@))] == j);
                    assert(j == i);
                }
                let old_entry = &self.entries[i];
                let updated = Ngram {
                    words: copy_strings(&old_entry.words),
                    count: old_entry.count + 1,
                    first_seen: old_entry.first_seen,
                    last_seen: now,
                };
                self.entries.set(i, updated);
                proof {
                    assert(self.list() =~= l0.update(i as int, NgramView { count: (l0[i as int].count + 1) as u64, last_seen: now, ..l0[i as int] }));
                    assert forall|j: int| 0 <= j < self.entries@.len() implies {
                        let kj = ngram_key(views((#[trigger] self.entries@[j]).words@));
                        self.index@.contains_key(kj) && self.index@[kj] == j
                    } by {
                        if j != i {
                            assert(self.entries@[j] == old(self).entries@[j]);
                        }
                    }
                }
            },
            None => {
                proof {
                    assert(place_of(l0, k) is None) by {
                        if exists|j: int| 0 <= j < l0.len() && ngram_key(l0[j].words) == k {
                            let j = choose|j: int| 0 <= j < l0.len() && ngram_key(l0[j].words) == k;
                            assert(ngram_key(views(self.entries@[j].words@)) == k);
                        }
                    }
                }
                let n = self.entries.len();
                self.entries.push(Ngram { words: w, count: 1, first_seen: now, last_seen: now });
                self.index.insert(key, n);
                proof {
                    assert(self.list() =~= l0.push(NgramView { words: views(w@), count: 1, first_seen: now, last_seen: now }));
                    assert forall|j: int| 0 <= j < self.entries@.len() implies {
                        let kj = ngram_key(views((#[trigger] self.entries@[j]).words@));
                        self.index@.contains_key(kj) && self.index@[kj] == j
                    } by {
                        if j < n {
                            assert(self.entries@[j] == old(self).entries@[j]);
                            assert(ngram_key(views(self.entries@[j].words@)) != k);
                        }
                    }
                    assert forall|k2: Seq<char>| #[trigger] self.index@.contains_key(k2) implies {
                        let i2 = self.index@[k2] as int;
                        0 <= i2 < self.entries@.len() && ngram_key(views(self.entries@[i2].words@)) == k2
                    } by {
                        if k2 != k {
                            let i2 = self.index@[k2] as int;
                            assert(old(self).index@.contains_key(k2));
                            assert(self.entries@[i2] == old(self).entries@[i2]);
                        }
                    }
                }
            },
        }
    }

    /// Counts every run of 2 through `max_order` words of `text` (its words split at white
    /// space and lower-cased), shortest runs first, as seen at `now`.
    pub fn record_windows(&mut self, text: &str, max_order: usize, now: Stamp)
        requires
            old(self).wf(),
            counts_fit(old(self).list(), runs_upto(table_words(text@), max_order as int)),
        ensures
            final(self).wf(),
            final(self).list() == seen_all(old(self).list(), runs_upto(table_words(text@), max_order as int), now),
    {
        let cs = chars_of(text);
        let pieces = split_whitespace(&cs);
        let mut ws: Vec<String> = Vec::new();
        let mut p: usize = 0;
        while p < pieces.len()
            invariant
                p <= pieces@.len(),
                views(pieces@) == words(text@),
                views(ws@) == views(pieces@).take(p as int).map_values(|w: Seq<char>| lowercase_of(w)),
            decreases pieces@.len() - p,
        {
            let l = to_lowercase(pieces[p].as_str());
            let ghost before = views(ws@);
            ws.push(l);
            proof {
                assert(views(ws@) =~= before.push(l@));
                assert(views(pieces@).take(p as int + 1).map_values(|w: Seq<char>| lowercase_of(w)) =~= views(pieces@).take(p as int).map_values(|w: Seq<char>| lowercase_of(w)).push(lowercase_of(pieces@[p as int]@)));
            }
            p = p + 1;
        }
        assert(views(pieces@).take(p as int) =~= views(pieces@));
        let ghost wv = views(ws@);
        assert(wv == table_words(text@));
        let ghost all = runs_upto(wv, max_order as int);
        let ghost l0 = self.list();
        let len = ws.len();
        if max_order < 2 {
            assert(runs_upto(wv, max_order as int) =~= Seq::<Seq<Seq<char>>>::empty());
            return;
        }
        let mut k: usize = 1;
        proof {
            assert(runs_upto(wv, 1) =~= Seq::<Seq<Seq<char>>>::empty());
            lemma_runs_upto_prefix(wv, 1, max_order as int);
            self.lemma_keys_distinct();
        }
        while k < max_order && k < len
            invariant
                1 <= k,
                len == ws@.len(),
                wv == views(ws@),
                all == runs_upto(wv, max_order as int),
                self.wf(),
                runs_upto(wv, k as int).is_prefix_of(all),
                k <= max_order,
                counts_fit(l0, all),
                distinct_keys(l0),
                self.list() == seen_all(l0, runs_upto(wv, k as int), now),
            decreases len - k,
        {
            let order = k + 1;
            let ghost done = runs_upto(wv, order - 1);
            let mut i: usize = 0;
            assert(runs_of_order(wv, order as int, 0) =~= Seq::<Seq<Seq<char>>>::empty());
            assert(done + runs_of_order(wv, order as int, 0) =~= done);
            proof {
                lemma_runs_upto_prefix(wv, order as int, max_order as int);
                assert(runs_upto(wv, order as int) == done + runs_of_order(wv, order as int, len - order + 1));
            }
            while i <= len - order
                invariant
                    2 <= order <= len,
                    order <= max_order,
                    len == ws@.len(),
                    wv == views(ws@),
                    all == runs_upto(wv, max_order as int),
                    done == runs_upto(wv, order - 1),
                    runs_upto(wv, order as int) == done + runs_of_order(wv, order as int, len - order + 1),
                    runs_upto(wv, order as int).is_prefix_of(all),
                    i <= len - order + 1,
                    self.wf(),
                    counts_fit(l0, all),
                    distinct_keys(l0),
                    self.list() == seen_all(l0, done + runs_of_order(wv, order as int, i as int), now),
                decreases len - i,
            {
                let mut window: Vec<String> = Vec::new();
                let mut j: usize = i;
                while j < i + order
                    invariant
                        i <= j <= i + order,
                        i + order <= len,
                        len == ws@.len(),
                        views(window@) == views(ws@).subrange(i as int, j as int),
                    decreases i + order - j,
                {
                    let ghost before = views(window@);
                    window.push(ws[j].clone());
                    assert(views(window@) =~= before.push(ws@[j as int]@));
                    assert(views(ws@).subrange(i as int, j + 1) =~= views(ws@).subrange(i as int, j as int).push(ws@[j as int]@));
                    j = j + 1;
                }
                let ghost prev = done + runs_of_order(wv, order as int, i as int);
                proof {
                    assert(runs_of_order(wv, order as int, i + 1) =~= runs_of_order(wv, order as int, i as int).push(wv.subrange(i as int, i + order)));
                    assert(done + runs_of_order(wv, order as int, i + 1) =~= prev.push(views(window@)));
                    lemma_runs_of_order_prefix(wv, order as int, i + 1, len - order + 1);
                    let next = prev.push(views(window@));
                    let whole = done + runs_of_order(wv, order as int, len - order + 1);
                    assert(next.is_prefix_of(all)) by {
                        assert(next.len() <= whole.len());
                        assert forall|j: int| 0 <= j < next.len() implies next[j] == all[j] by {
                            if j < done.len() {
                                assert(next[j] == done[j]);
                                assert(whole[j] == done[j]);
                            } else {
                                assert(next[j] == runs_of_order(wv, order as int, i + 1)[j - done.len()]);
                                assert(whole[j] == runs_of_order(wv, order as int, len - order + 1)[j - done.len()]);
                            }
                            assert(whole[j] == all[j]);
                        }
                        assert(next =~= all.subrange(0, next.len() as int));
                    }
                    let kw = ngram_key(views(window@));
                    lemma_runs_with_key_prefix(next, all, kw);
                    assert(next.drop_last() =~= prev);
                    lemma_runs_with_key_prefix(prev, next, kw);
                    lemma_fit_prefix(l0, prev, all);
                    lemma_runs_counted(l0, prev, now, kw);
                    assert(counts_fit(l0, all));
                    assert(key_count(l0, kw) + runs_with_key(all, kw) <= u64::MAX);
                }
                self.see(window, now);
                proof {
                    assert(prev.push(views(window@)).drop_last() =~= prev);
                    lemma_runs_of_order_len(wv, order as int, i + 1);
                }
                i = i + 1;
            }
            proof {
                assert(i == len - order + 1);
            }
            k = k + 1;
        }
        proof {
            if k < max_order {
                assert(k >= len);
                lemma_runs_upto_beyond(wv, k as int, max_order as int);
            } else {
                assert(k == max_order);
            }
        }
    }

    /// Counts every run of 2 through `max_order` words of `text` as seen now: the same as
    /// `record_windows` at a moment read from the clock.
    pub fn build_ngrams_from_text(&mut self, text: &str, max_order: usize)
        requires
            old(self).wf(),
            counts_fit(old(self).list(), runs_upto(table_words(text@), max_order as int)),
        ensures
            final(self).wf(),
            exists|now: Stamp| final(self).list() == seen_all(old(self).list(), runs_upto(table_words(text@), max_order as int), now),
    {
        let now = current_time();
        self.record_windows(text, max_order, now);
    }
}

/// A copy of a list of strings.
fn copy_strings(ws: &Vec<String>) -> (r: Vec<String>)
    ensures
        r@ == ws@,
{
    let mut out: Vec<String> = Vec::new();
    let mut i: usize = 0;
    while i < ws.len()
        invariant
            i <= ws@.len(),
            out@ == ws@.take(i as int),
        decreases ws@.len() - i,
    {
        out.push(ws[i].clone());
        i = i + 1;
        assert(out@ =~= ws@.take(i as int));
    }
    assert(out@ =~= ws@);
    out
}

/// There are `n` runs of one length before position `n` while they fit.
proof fn lemma_runs_of_order_len(ws: Seq<Seq<char>>, o: int, n: int)
    requires
        2 <= o <= ws.len(),
        0 <= n <= ws.len() - o + 1,
    ensures
        runs_of_order(ws, o, n).len() == n,
    decreases n,
{
    if n > 0 {
        lemma_runs_of_order_len(ws, o, n - 1);
    }
}

/// The runs up to a shorter length are a prefix of those up to a longer one.
proof fn lemma_runs_upto_prefix(ws: Seq<Seq<char>>, a: int, b: int)
    requires
        a <= b,
    ensures
        runs_upto(ws, a).is_prefix_of(runs_upto(ws, b)),
    decreases b - a,
{
    if a < b {
        lemma_runs_upto_prefix(ws, a, b - 1);
        let x = runs_upto(ws, a);
        let y = runs_upto(ws, b - 1);
        let z = runs_upto(ws, b);
        if b >= 2 {
            assert(y.is_prefix_of(z)) by {
                assert(y =~= z.subrange(0, y.len() as int));
            }
        } else {
            assert(z =~= y);
        }
        assert(x =~= z.subrange(0, x.len() as int)) by {
            assert forall|j: int| 0 <= j < x.len() implies x[j] == z[j] by {
                assert(x[j] == y[j]);
                assert(y[j] == z[j]);
            }
        }
    } else {
        assert(runs_upto(ws, a) =~= runs_upto(ws, b).subrange(0, runs_upto(ws, a).len() as int));
    }
}

/// The runs of one length before position `i` are a prefix of those before `n`.
proof fn lemma_runs_of_order_prefix(ws: Seq<Seq<char>>, o: int, i: int, n: int)
    requires
        2 <= o <= ws.len(),
        0 <= i <= n <= ws.len() - o + 1,
    ensures
        runs_of_order(ws, o, i).len() == i,
        runs_of_order(ws, o, n).len() == n,
        forall|j: int| 0 <= j < i ==> runs_of_order(ws, o, i)[j] == runs_of_order(ws, o, n)[j],
    decreases n - i,
{
    lemma_runs_of_order_len(ws, o, i);
    lemma_runs_of_order_len(ws, o, n);
    if i < n {
        lemma_runs_of_order_prefix(ws, o, i, n - 1);
        lemma_runs_of_order_len(ws, o, n - 1);
        assert forall|j: int| 0 <= j < i implies runs_of_order(ws, o, i)[j] == runs_of_order(ws, o, n)[j] by {
            assert(runs_of_order(ws, o, n)[j] == runs_of_order(ws, o, n - 1)[j]);
        }
    }
}

/// A prefix of the runs has no more runs with a key than the whole.
proof fn lemma_runs_with_key_prefix(a: Seq<Seq<Seq<char>>>, b: Seq<Seq<Seq<char>>>, k: Seq<char>)
    requires
        a.is_prefix_of(b),
    ensures
        runs_with_key(a, k) <= runs_with_key(b, k),
    decreases b.len(),
{
    if a.len() == b.len() {
        assert(a =~= b);
    } else {
        assert(a.is_prefix_of(b.drop_last())) by {
            assert(a =~= b.drop_last().subrange(0, a.len() as int));
        }
        lemma_runs_with_key_prefix(a, b.drop_last(), k);
    }
}

/// Counting a prefix of the runs overflows no count when counting them all does not.
proof fn lemma_fit_prefix(l: Seq<NgramView>, a: Seq<Seq<Seq<char>>>, b: Seq<Seq<Seq<char>>>)
    requires
        a.is_prefix_of(b),
        counts_fit(l, b),
    ensures
        counts_fit(l, a),
{
    assert forall|k: Seq<char>| #[trigger] key_count(l, k) + runs_with_key(a, k) <= u64::MAX by {
        lemma_runs_with_key_prefix(a, b, k);
        assert(key_count(l, k) + runs_with_key(b, k) <= u64::MAX);
    }
}

/// Lengths beyond the words add no runs.
proof fn lemma_runs_upto_beyond(ws: Seq<Seq<char>>, a: int, b: int)
    requires
        a >= ws.len(),
        a <= b,
    ensures
        runs_upto(ws, b) == runs_upto(ws, a),
    decreases b - a,
{
    if a < b {
        lemma_runs_upto_beyond(ws, a, b - 1);
        assert(runs_upto(ws, b) =~= runs_upto(ws, b - 1));
    }
}

/// No two n-grams of `l` have the same key.
pub open spec fn distinct_keys(l: Seq<NgramView>) -> bool {
    forall|i: int, j: int| 0 <= i < j < l.len() ==> ngram_key(l[i].words) != ngram_key(l[j].words)
}

/// How often the n-gram with key `k` was seen; 0 when there is none.
pub open spec fn key_count(l: Seq<NgramView>, k: Seq<char>) -> nat {
    match place_of(l, k) {
        Some(i) => l[i].count as nat,
        None => 0,
    }
}

/// How many runs of `runs` have the key `k`.
pub open spec fn runs_with_key(runs: Seq<Seq<Seq<char>>>, k: Seq<char>) -> nat
    decreases runs.len(),
{
    if runs.len() == 0 {
        0
    } else {
        runs_with_key(runs.drop_last(), k) + if ngram_key(runs.last()) == k {
            1nat
        } else {
            0nat
        }
    }
}

/// With distinct keys, the place of a key is the one n-gram that has it.
proof fn lemma_place_unique(l: Seq<NgramView>, k: Seq<char>, i: int)
    requires
        distinct_keys(l),
        0 <= i < l.len(),
        ngram_key(l[i].words) == k,
    ensures
        place_of(l, k) == Some(i),
{
    let j = choose|j: int| 0 <= j < l.len() && ngram_key(l[j].words) == k;
    if j != i {
        if j < i {
            assert(ngram_key(l[j].words) != ngram_key(l[i].words));
        } else {
            assert(ngram_key(l[i].words) != ngram_key(l[j].words));
        }
    }
}

/// Seeing one run keeps the keys distinct and counts its own key once more.
proof fn lemma_seen_once_count(l: Seq<NgramView>, w: Seq<Seq<char>>, now: Stamp, k: Seq<char>)
    requires
        distinct_keys(l),
        key_count(l, ngram_key(w)) + 1 <= u64::MAX,
    ensures
        distinct_keys(seen_once_more(l, w, now)),
        key_count(seen_once_more(l, w, now), k) == key_count(l, k) + if ngram_key(w) == k {
            1nat
        } else {
            0nat
        },
{
    let l2 = seen_once_more(l, w, now);
    let kw = ngram_key(w);
    match place_of(l, kw) {
        Some(p) => {
            assert(ngram_key(l[p].words) == kw);
            assert(forall|i: int| 0 <= i < l2.len() ==> #[trigger] l2[i].words == l[i].words);
            assert(distinct_keys(l2));
            match place_of(l, k) {
                Some(q) => {
                    assert(ngram_key(l[q].words) == k);
                    lemma_place_unique(l2, k, q);
                },
                None => {
                    if place_of(l2, k) is Some {
                        let q = place_of(l2, k)->0;
                        assert(ngram_key(l[q].words) == k);
                    }
                },
            }
        },
        None => {
            assert(forall|i: int| 0 <= i < l.len() ==> ngram_key(#[trigger] l[i].words) != kw);
            assert(l2.len() == l.len() + 1);
            assert forall|i: int, j: int| 0 <= i < j < l2.len() implies ngram_key(l2[i].words) != ngram_key(l2[j].words) by {
                if j < l.len() {
                    assert(l2[i] == l[i] && l2[j] == l[j]);
                } else {
                    assert(l2[i] == l[i]);
                    assert(l2[j].words == w);
                }
            }
            if kw == k {
                lemma_place_unique(l2, k, l.len() as int);
            } else {
                match place_of(l, k) {
                    Some(q) => {
                        assert(ngram_key(l[q].words) == k);
                        assert(l2[q] == l[q]);
                        lemma_place_unique(l2, k, q);
                    },
                    None => {
                        if place_of(l2, k) is Some {
                            let q = place_of(l2, k)->0;
                            if q < l.len() {
                                assert(l2[q] == l[q]);
                            }
                        }
                    },
                }
            }
        },
    }
}

/// Every n-gram is counted exactly as often as it occurs among the runs seen: after
/// seeing `runs`, the count of each key is its count before plus the runs that have it.
pub proof fn lemma_runs_counted(l: Seq<NgramView>, runs: Seq<Seq<Seq<char>>>, now: Stamp, k: Seq<char>)
    requires
        distinct_keys(l),
        counts_fit(l, runs),
    ensures
        distinct_keys(seen_all(l, runs, now)),
        key_count(seen_all(l, runs, now), k) == key_count(l, k) + runs_with_key(runs, k),
    decreases runs.len(),
{
    if runs.len() > 0 {
        let rest = runs.drop_last();
        let kw = ngram_key(runs.last());
        assert(rest.is_prefix_of(runs)) by {
            assert(rest =~= runs.subrange(0, rest.len() as int));
        }
        lemma_fit_prefix(l, rest, runs);
        lemma_runs_counted(l, rest, now, k);
        lemma_runs_counted(l, rest, now, kw);
        assert(key_count(l, kw) + runs_with_key(runs, kw) <= u64::MAX);
        lemma_seen_once_count(seen_all(l, rest, now), runs.last(), now, k);
    }
}

} // verus!
