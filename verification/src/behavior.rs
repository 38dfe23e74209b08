//! How each word behaves across the n-gram table: the words seen just before and just
//! after it, and the n-gram orders it takes part in, each weighted by the n-gram's count.
use vstd::prelude::*;
use vstd::hash_map::StringHashMap;
use std::collections::HashMap;
use crate::spiral::{NgramTable, NgramView};
use crate::text::views;

verus! {

/// `m` with `c` more counted for `k`.
pub open spec fn add_count<K>(m: Map<K, u64>, k: K, c: u64) -> Map<K, u64> {
    m.insert(k, ((if m.contains_key(k) { m[k] as nat } else { 0nat }) + c) as u64)
}

/// A word's behaviour as plain values.
pub ghost struct BehaviorView {
    pub left: Map<Seq<char>, u64>,
    pub right: Map<Seq<char>, u64>,
    pub orders: Map<usize, u64>,
}

/// The behaviour of a word not yet seen.
pub open spec fn empty_behavior() -> BehaviorView {
    BehaviorView { left: Map::empty(), right: Map::empty(), orders: Map::empty() }
}

/// A behaviour after the word is seen at position `i` of the n-gram `g`: the n-gram's order
/// counts `g.count` more, and so do its neighbours before and after, where there are any.
pub open spec fn at_position(b: BehaviorView, g: NgramView, i: int) -> BehaviorView {
    BehaviorView {
        orders: add_count(b.orders, g.words.len() as usize, g.count),
        left: if i > 0 {
            add_count(b.left, g.words[i - 1], g.count)
        } else {
            b.left
        },
        right: if i < g.words.len() - 1 {
            add_count(b.right, g.words[i + 1], g.count)
        } else {
            b.right
        },
    }
}

/// The behaviours after the first `n` positions of the n-gram `g`.
pub open spec fn positions_upto(m: Map<Seq<char>, BehaviorView>, g: NgramView, n: int) -> Map<Seq<char>, BehaviorView>
    decreases n,
{
    if n <= 0 {
        m
    } else {
        let m1 = positions_upto(m, g, n - 1);
        let w = g.words[n - 1];
        let b = if m1.contains_key(w) {
            m1[w]
        } else {
            empty_behavior()
        };
        m1.insert(w, at_position(b, g, n - 1))
    }
}

/// The behaviour of every word of the n-grams `l`, taken n-gram after n-gram.
pub open spec fn behaviors_of(l: Seq<NgramView>) -> Map<Seq<char>, BehaviorView>
    decreases l.len(),
{
    if l.len() == 0 {
        Map::empty()
    } else {
        positions_upto(behaviors_of(l.drop_last()), l.last(), l.last().words.len() as int)
    }
}

/// Adding `c` to the count of `k` in `m` stays within a `u64`.
pub open spec fn add_fits<K>(m: Map<K, u64>, k: K, c: u64) -> bool {
    (if m.contains_key(k) { m[k] as nat } else { 0nat }) + c <= u64::MAX
}

/// Counting the word at position `i` of the n-gram `g` into the behaviours `m` overflows
/// none of its counts.
pub open spec fn step_fits(m: Map<Seq<char>, BehaviorView>, g: NgramView, i: int) -> bool {
    let x = g.words[i];
    let b = if m.contains_key(x) { m[x] } else { empty_behavior() };
    &&& add_fits(b.orders, g.words.len() as usize, g.count)
    &&& i > 0 ==> add_fits(b.left, g.words[i - 1], g.count)
    &&& i < g.words.len() - 1 ==> add_fits(b.right, g.words[i + 1], g.count)
}

/// Counting the first `n` positions of the n-gram `g` into `m` overflows no count.
pub open spec fn positions_fit(m: Map<Seq<char>, BehaviorView>, g: NgramView, n: int) -> bool
    decreases n,
{
    n <= 0 || (positions_fit(m, g, n - 1) && step_fits(positions_upto(m, g, n - 1), g, n - 1))
}

/// Counting the n-grams `l`, n-gram after n-gram, overflows no count: the counts each word
/// gathers fit in a `u64`.
pub open spec fn behaviors_fit(l: Seq<NgramView>) -> bool
    decreases l.len(),
{
    l.len() == 0 || (behaviors_fit(l.drop_last()) && positions_fit(
        behaviors_of(l.drop_last()),
        l.last(),
        l.last().words.len() as int,
    ))
}

/// How one word behaves.
pub struct WordBehavior {
    pub left_context: StringHashMap<u64>,
    pub right_context: StringHashMap<u64>,
    pub ngram_orders: HashMap<usize, u64>,
    /// The words seen just before or just after the word, each once, in the order first seen.
    pub neighbors: Vec<String>,
    /// The n-gram orders the word took part in, each once, in the order first seen.
    pub orders: Vec<usize>,
}

/// The lists of a behaviour agree with its maps: `neighbors` holds the keys of the left and
/// right contexts and `orders` the keys of the order counts, each once.
pub open spec fn lists_agree(b: WordBehavior) -> bool {
    &&& views(b.neighbors@).no_duplicates()
    &&& forall|k: Seq<char>| #[trigger] views(b.neighbors@).contains(k) <==> (b.left_context@.contains_key(k)
        || b.right_context@.contains_key(k))
    &&& b.orders@.no_duplicates()
    &&& forall|o: usize| #[trigger] b.orders@.contains(o) <==> b.ngram_orders@.contains_key(o)
}

impl View for WordBehavior {
    type V = BehaviorView;

    open spec fn view(&self) -> BehaviorView {
        BehaviorView { left: self.left_context@, right: self.right_context@, orders: self.ngram_orders@ }
    }
}

/// The behaviour of each word, found by the word.
pub struct BehaviorTable {
    words: Vec<String>,
    index: StringHashMap<usize>,
    behaviors: Vec<WordBehavior>,
}

/// The counts of the pairs `ps`, by word; a later pair for a word replaces an earlier one.
pub open spec fn text_pairs_map(ps: Seq<(String, u64)>) -> Map<Seq<char>, u64>
    decreases ps.len(),
{
    if ps.len() == 0 {
        Map::empty()
    } else {
        text_pairs_map(ps.drop_last()).insert(ps.last().0@, ps.last().1)
    }
}

/// The counts of the pairs `ps`, by order; a later pair for an order replaces an earlier one.
pub open spec fn order_pairs_map(ps: Seq<(usize, u64)>) -> Map<usize, u64>
    decreases ps.len(),
{
    if ps.len() == 0 {
        Map::empty()
    } else {
        order_pairs_map(ps.drop_last()).insert(ps.last().0, ps.last().1)
    }
}

/// The sum of the counts of `m` at the keys `ks`.
pub open spec fn counts_sum(m: Map<usize, u64>, ks: Seq<usize>) -> nat
    decreases ks.len(),
{
    if ks.len() == 0 {
        0
    } else {
        counts_sum(m, ks.drop_last()) + m[ks.last()] as nat
    }
}

impl WordBehavior {
    /// The behaviour of a word not yet seen.
    fn empty() -> (r: WordBehavior)
        ensures
            r@ == empty_behavior(),
            lists_agree(r),
    {
        let r = WordBehavior {
            left_context: StringHashMap::new(),
            right_context: StringHashMap::new(),
            ngram_orders: HashMap::new(),
            neighbors: Vec::new(),
            orders: Vec::new(),
        };
        assert(views(r.neighbors@) =~= Seq::<Seq<char>>::empty());
        assert(r@ =~= empty_behavior());
        r
    }

    /// Records `k` among the neighbours, if it is not there yet.
    fn note_neighbor(&mut self, k: &String)
        requires
            lists_agree(*old(self)),
        ensures
            final(self)@ == old(self)@,
            final(self).orders == old(self).orders,
            views(final(self).neighbors@).no_duplicates(),
            forall|x: Seq<char>| #[trigger] views(final(self).neighbors@).contains(x) <==> (views(
                old(self).neighbors@,
            ).contains(x) || x == k@),
    {
        if !self.left_context.contains_key(k.as_str()) && !self.right_context.contains_key(k.as_str()) {
            let ghost before = views(self.neighbors@);
            self.neighbors.push(k.clone());
            proof {
                assert(views(self.neighbors@) =~= before.push(k@));
                assert(!before.contains(k@));
                let now = views(self.neighbors@);
                assert forall|a: int, b: int| 0 <= a < now.len() && 0 <= b < now.len() && a != b implies now[a]
                    != now[b] by {
                    if a < before.len() && b < before.len() {
                        assert(now[a] == before[a]);
                        assert(now[b] == before[b]);
                    } else if a < before.len() {
                        assert(now[a] == before[a]);
                        assert(before.contains(before[a]));
                    } else {
                        assert(now[b] == before[b]);
                        assert(before.contains(before[b]));
                    }
                }
                assert forall|x: Seq<char>| #[trigger] views(self.neighbors@).contains(x) <==> (before.contains(x)
                    || x == k@) by {
                    if views(self.neighbors@).contains(x) {
                        let j = choose|j: int| 0 <= j < views(self.neighbors@).len() && views(self.neighbors@)[j] == x;
                        if j < before.len() {
                            assert(before[j] == x);
                        }
                    }
                    if before.contains(x) {
                        let j = choose|j: int| 0 <= j < before.len() && before[j] == x;
                        assert(views(self.neighbors@)[j] == x);
                    }
                    if x == k@ {
                        assert(views(self.neighbors@)[before.len() as int] == x);
                    }
                }
            }
        }
    }

    /// Counts `c` more for `k` before the word.
    fn count_left(&mut self, k: &String, c: u64)
        requires
            lists_agree(*old(self)),
            (if old(self)@.left.contains_key(k@) { old(self)@.left[k@] as nat } else { 0nat }) + c <= u64::MAX,
        ensures
            lists_agree(*final(self)),
            final(self)@ == (BehaviorView { left: add_count(old(self)@.left, k@, c), ..old(self)@ }),
    {
        self.note_neighbor(k);
        let cur = match self.left_context.get(k.as_str()) {
            Some(v) => *v,
            None => 0,
        };
        self.left_context.insert(k.clone(), cur + c);
        assert(self@ =~= (BehaviorView { left: add_count(old(self)@.left, k@, c), ..old(self)@ }));
    }

    /// Counts `c` more for `k` after the word.
    fn count_right(&mut self, k: &String, c: u64)
        requires
            lists_agree(*old(self)),
            (if old(self)@.right.contains_key(k@) { old(self)@.right[k@] as nat } else { 0nat }) + c <= u64::MAX,
        ensures
            lists_agree(*final(self)),
            final(self)@ == (BehaviorView { right: add_count(old(self)@.right, k@, c), ..old(self)@ }),
    {
        self.note_neighbor(k);
        let cur = match self.right_context.get(k.as_str()) {
            Some(v) => *v,
            None => 0,
        };
        self.right_context.insert(k.clone(), cur + c);
        assert(self@ =~= (BehaviorView { right: add_count(old(self)@.right, k@, c), ..old(self)@ }));
    }

    /// Counts `c` more for the n-gram order `o`.
    fn count_order(&mut self, o: usize, c: u64)
        requires
            lists_agree(*old(self)),
            (if old(self)@.orders.contains_key(o) { old(self)@.orders[o] as nat } else { 0nat }) + c <= u64::MAX,
        ensures
            lists_agree(*final(self)),
            final(self)@ == (BehaviorView { orders: add_count(old(self)@.orders, o, c), ..old(self)@ }),
    {
        let ghost l0 = self.orders@;
        let cur = match self.ngram_orders.get(&o) {
            Some(v) => *v,
            None => 0,
        };
        let known = self.ngram_orders.contains_key(&o);
        if !known {
            self.orders.push(o);
        }
        self.ngram_orders.insert(o, cur + c);
        proof {
            assert(known == l0.contains(o));
            assert forall|p: usize| #[trigger] self.orders@.contains(p) <==> (l0.contains(p) || p == o) by {
                if !known {
                    assert(self.orders@ == l0.push(o));
                    if self.orders@.contains(p) {
                        let j = choose|j: int| 0 <= j < self.orders@.len() && self.orders@[j] == p;
                        if j < l0.len() {
                            assert(l0[j] == p);
                        }
                    }
                    if l0.contains(p) {
                        let j = choose|j: int| 0 <= j < l0.len() && l0[j] == p;
                        assert(self.orders@[j] == p);
                    }
                    if p == o {
                        assert(self.orders@[l0.len() as int] == p);
                    }
                }
            }
            assert(self.orders@.no_duplicates()) by {
                if !known {
                    assert forall|a: int, b: int|
                        0 <= a < self.orders@.len() && 0 <= b < self.orders@.len() && a != b implies self.orders@[a]
                        != self.orders@[b] by {
                        if a < l0.len() && b < l0.len() {
                            assert(self.orders@[a] == l0[a]);
                            assert(self.orders@[b] == l0[b]);
                        } else if a < l0.len() {
                            assert(l0.contains(l0[a]));
                        } else {
                            assert(l0.contains(l0[b]));
                        }
                    }
                }
            }
        }
        assert(self@ =~= (BehaviorView { orders: add_count(old(self)@.orders, o, c), ..old(self)@ }));
    }

    /// Sets the count of `k` before the word to `v`.
    fn put_left(&mut self, k: &String, v: u64)
        requires
            lists_agree(*old(self)),
        ensures
            lists_agree(*final(self)),
            final(self)@ == (BehaviorView { left: old(self)@.left.insert(k@, v), ..old(self)@ }),
    {
        self.note_neighbor(k);
        self.left_context.insert(k.clone(), v);
        assert(self@ =~= (BehaviorView { left: old(self)@.left.insert(k@, v), ..old(self)@ }));
    }

    /// Sets the count of `k` after the word to `v`.
    fn put_right(&mut self, k: &String, v: u64)
        requires
            lists_agree(*old(self)),
        ensures
            lists_agree(*final(self)),
            final(self)@ == (BehaviorView { right: old(self)@.right.insert(k@, v), ..old(self)@ }),
    {
        self.note_neighbor(k);
        self.right_context.insert(k.clone(), v);
        assert(self@ =~= (BehaviorView { right: old(self)@.right.insert(k@, v), ..old(self)@ }));
    }

    /// Sets the count of the order `o` to `v`.
    fn put_order(&mut self, o: usize, v: u64)
        requires
            lists_agree(*old(self)),
        ensures
            lists_agree(*final(self)),
            final(self)@ == (BehaviorView { orders: old(self)@.orders.insert(o, v), ..old(self)@ }),
    {
        let ghost l0 = self.orders@;
        let known = self.ngram_orders.contains_key(&o);
        if !known {
            self.orders.push(o);
        }
        self.ngram_orders.insert(o, v);
        proof {
            assert(known == l0.contains(o));
            assert forall|p: usize| #[trigger] self.orders@.contains(p) <==> (l0.contains(p) || p == o) by {
                if !known {
                    assert(self.orders@ == l0.push(o));
                    if self.orders@.contains(p) {
                        let j = choose|j: int| 0 <= j < self.orders@.len() && self.orders@[j] == p;
                        if j < l0.len() {
                            assert(l0[j] == p);
                        }
                    }
                    if l0.contains(p) {
                        let j = choose|j: int| 0 <= j < l0.len() && l0[j] == p;
                        assert(self.orders@[j] == p);
                    }
                    if p == o {
                        assert(self.orders@[l0.len() as int] == p);
                    }
                }
            }
            assert(self.orders@.no_duplicates()) by {
                if !known {
                    assert forall|a: int, b: int|
                        0 <= a < self.orders@.len() && 0 <= b < self.orders@.len() && a != b implies self.orders@[a]
                        != self.orders@[b] by {
                        if a < l0.len() && b < l0.len() {
                            assert(self.orders@[a] == l0[a]);
                            assert(self.orders@[b] == l0[b]);
                        } else if a < l0.len() {
                            assert(l0.contains(l0[a]));
                        } else {
                            assert(l0.contains(l0[b]));
                        }
                    }
                }
            }
        }
        assert(self@ =~= (BehaviorView { orders: old(self)@.orders.insert(o, v), ..old(self)@ }));
    }

    /// A behaviour read back from stored counts: the words before it, the words after it
    /// and its n-gram orders, each with its count; of two pairs with the same key the later
    /// one stands.
    pub fn from_counts(left: &Vec<(String, u64)>, right: &Vec<(String, u64)>, orders: &Vec<(usize, u64)>) -> (r: WordBehavior)
        ensures
            lists_agree(r),
            r@ == (BehaviorView { left: text_pairs_map(left@), right: text_pairs_map(right@), orders: order_pairs_map(orders@) }),
    {
        let mut b = WordBehavior::empty();
        let mut i: usize = 0;
        while i < left.len()
            invariant
                i <= left@.len(),
                lists_agree(b),
                b@ == (BehaviorView { left: text_pairs_map(left@.take(i as int)), right: Map::empty(), orders: Map::empty() }),
            decreases left@.len() - i,
        {
            proof {
                assert(left@.take(i as int + 1).drop_last() =~= left@.take(i as int));
            }
            b.put_left(&left[i].0, left[i].1);
            i = i + 1;
        }
        assert(left@.take(i as int) =~= left@);
        let mut j: usize = 0;
        while j < right.len()
            invariant
                j <= right@.len(),
                lists_agree(b),
                b@ == (BehaviorView { left: text_pairs_map(left@), right: text_pairs_map(right@.take(j as int)), orders: Map::empty() }),
            decreases right@.len() - j,
        {
            proof {
                assert(right@.take(j as int + 1).drop_last() =~= right@.take(j as int));
            }
            b.put_right(&right[j].0, right[j].1);
            j = j + 1;
        }
        assert(right@.take(j as int) =~= right@);
        let mut k: usize = 0;
        while k < orders.len()
            invariant
                k <= orders@.len(),
                lists_agree(b),
                b@ == (BehaviorView { left: text_pairs_map(left@), right: text_pairs_map(right@), orders: order_pairs_map(orders@.take(k as int)) }),
            decreases orders@.len() - k,
        {
            proof {
                assert(orders@.take(k as int + 1).drop_last() =~= orders@.take(k as int));
            }
            b.put_order(orders[k].0, orders[k].1);
            k = k + 1;
        }
        assert(orders@.take(k as int) =~= orders@);
        b
    }

    /// The word's dominant n-gram order with its count, and the sum of its order counts:
    /// an order of the highest count (of several such, any one), or order 2 with count 0
    /// when the word took part in no n-gram.
    pub fn dominant_order(&self) -> (r: (usize, u64, u128))
        requires
            lists_agree(*self),
        ensures
            self.ngram_orders@.len() == 0 ==> r.0 == 2 && r.1 == 0,
            self.ngram_orders@.len() > 0 ==> {
                &&& self.ngram_orders@.contains_key(r.0)
                &&& r.1 == self.ngram_orders@[r.0]
                &&& forall|o: usize| #[trigger] self.ngram_orders@.contains_key(o) ==> self.ngram_orders@[o] <= r.1
            },
            r.2 == counts_sum(self.ngram_orders@, self.orders@),
    {
        let mut best: usize = 2;
        let mut best_count: u64 = 0;
        let mut found = false;
        let mut total: u128 = 0;
        let mut i: usize = 0;
        while i < self.orders.len()
            invariant
                lists_agree(*self),
                i <= self.orders@.len(),
                total == counts_sum(self.ngram_orders@, self.orders@.take(i as int)),
                total <= i * 0xffff_ffff_ffff_ffffnat,
                found == (i > 0),
                !found ==> best == 2 && best_count == 0,
                found ==> self.ngram_orders@.contains_key(best) && best_count == self.ngram_orders@[best],
                forall|j: int| 0 <= j < i ==> self.ngram_orders@[#[trigger] self.orders@[j]] <= best_count,
            decreases self.orders@.len() - i,
        {
            let o = self.orders[i];
            assert(self.orders@.contains(o));
            let c = match self.ngram_orders.get(&o) {
                Some(v) => *v,
                None => 0,
            };
            proof {
                assert(self.orders@.take(i as int + 1).drop_last() =~= self.orders@.take(i as int));
                assert(total + c <= (i + 1) * 0xffff_ffff_ffff_ffffnat) by (nonlinear_arith)
                    requires
                        total <= i * 0xffff_ffff_ffff_ffffnat,
                        c <= 0xffff_ffff_ffff_ffffnat,
                ;
                assert((i + 1) * 0xffff_ffff_ffff_ffffnat <= 0xffff_ffff_ffff_ffff_ffff_ffff_ffff_ffffnat) by (nonlinear_arith)
                    requires
                        i < 0x1_0000_0000_0000_0000nat,
                ;
            }
            total = total + c as u128;
            if !found || c > best_count {
                best = o;
                best_count = c;
            }
            found = true;
            i = i + 1;
        }
        assert(self.orders@.take(i as int) =~= self.orders@);
        proof {
            if self.ngram_orders@.len() > 0 {
                let o = self.ngram_orders@.dom().choose();
                assert(self.ngram_orders@.dom().finite());
                assert(self.ngram_orders@.dom().len() > 0);
                assert(self.ngram_orders@.dom().contains(o));
                assert(self.orders@.contains(o));
            } else {
                if self.orders@.len() > 0 {
                    assert(self.orders@.contains(self.orders@[0]));
                    assert(self.ngram_orders@.contains_key(self.orders@[0]));
                    assert(self.ngram_orders@.dom().contains(self.orders@[0]));
                }
            }
            assert forall|o: usize| #[trigger] self.ngram_orders@.contains_key(o) implies self.ngram_orders@[o] <= best_count by {
                assert(self.orders@.contains(o));
                let j = choose|j: int| 0 <= j < self.orders@.len() && self.orders@[j] == o;
                assert(self.ngram_orders@[self.orders@[j]] <= best_count);
            }
        }
        (best, best_count, total)
    }
}

impl BehaviorTable {
    /// The behaviours, by word.
    pub closed spec fn view_map(&self) -> Map<Seq<char>, BehaviorView> {
        Map::new(
            |w: Seq<char>| self.index@.contains_key(w),
            |w: Seq<char>| self.behaviors@[self.index@[w] as int]@,
        )
    }

    /// The index finds each word's behaviour, and lists each word once.
    pub closed spec fn wf(&self) -> bool {
        &&& self.words@.len() == self.behaviors@.len()
        &&& forall|w: Seq<char>| #[trigger] self.index@.contains_key(w) ==> {
            let i = self.index@[w] as int;
            0 <= i < self.words@.len() && self.words@[i]@ == w
        }
        &&& forall|i: int| 0 <= i < self.words@.len() ==> {
            let w = (#[trigger] self.words@[i])@;
            self.index@.contains_key(w) && self.index@[w] == i
        }
        &&& forall|i: int| 0 <= i < self.behaviors@.len() ==> lists_agree(#[trigger] self.behaviors@[i])
    }

    /// The words that have a behaviour, in the order first seen.
    pub closed spec fn words_spec(&self) -> Seq<Seq<char>> {
        views(self.words@)
    }

    /// A table with no words.
    fn new() -> (r: BehaviorTable)
        ensures
            r.wf(),
            r.view_map() == Map::<Seq<char>, BehaviorView>::empty(),
    {
        let r = BehaviorTable { words: Vec::new(), index: StringHashMap::new(), behaviors: Vec::new() };
        assert(r.view_map() =~= Map::<Seq<char>, BehaviorView>::empty());
        r
    }

    /// The words that have a behaviour, in the order first seen.
    pub fn words(&self) -> (r: &Vec<String>)
        ensures
            views(r@) == self.words_spec(),
    {
        &self.words
    }

    /// The behaviour of `word`, if it has one.
    pub fn get(&self, word: &str) -> (r: Option<&WordBehavior>)
        requires
            self.wf(),
        ensures
            match r {
                Some(b) => self.view_map().contains_key(word@) && b@ == self.view_map()[word@] && lists_agree(*b),
                None => !self.view_map().contains_key(word@),
            },
    {
        match self.index.get(word) {
            Some(i) => Some(&self.behaviors[*i]),
            None => None,
        }
    }

    /// Counts the word at position `i` of the n-gram `g` (see `at_position`).
    fn see_position(&mut self, g: &crate::spiral::Ngram, i: usize)
        requires
            old(self).wf(),
            i < g.words@.len(),
            step_fits(old(self).view_map(), g@, i as int),
        ensures
            final(self).wf(),
            ({
                let m = old(self).view_map();
                let x = g@.words[i as int];
                let b = if m.contains_key(x) { m[x] } else { empty_behavior() };
                final(self).view_map() == m.insert(x, at_position(b, g@, i as int))
            }),
    {
        let ghost m0 = self.view_map();
        let word = &g.words[i];
        let ghost x = word@;
        assert(g@.words[i as int] == x);
        let idx = match self.index.get(word.as_str()) {
            Some(j) => *j,
            None => {
                let n = self.words.len();
                self.words.push(word.clone());
                let fresh = WordBehavior::empty();
                let ghost bs0 = self.behaviors@;
                self.behaviors.push(fresh);
                proof {
                    assert forall|j: int| 0 <= j < self.behaviors@.len() implies lists_agree(#[trigger] self.behaviors@[j]) by {
                        if j < n {
                            assert(self.behaviors@[j] == bs0[j]);
                        }
                    }
                }
                self.index.insert(word.clone(), n);
                proof {
                    assert forall|w2: Seq<char>| #[trigger] self.index@.contains_key(w2) implies {
                        let j = self.index@[w2] as int;
                        0 <= j < self.words@.len() && self.words@[j]@ == w2
                    } by {
                        if w2 != x {
                            assert(old(self).index@.contains_key(w2));
                        }
                    }
                    assert forall|j: int| 0 <= j < self.words@.len() implies {
                        let w2 = (#[trigger] self.words@[j])@;
                        self.index@.contains_key(w2) && self.index@[w2] == j
                    } by {
                        if j < n {
                            assert(old(self).words@[j] == self.words@[j]);
                            assert(old(self).index@.contains_key(self.words@[j]@));
                            assert(self.words@[j]@ != x);
                        }
                    }
                    assert(self.view_map() =~= m0.insert(x, empty_behavior())) by {
                        assert forall|w2: Seq<char>| #[trigger] self.view_map().contains_key(w2) implies self.view_map()[w2] == m0.insert(x, empty_behavior())[w2] by {
                            if w2 != x {
                                assert(self.behaviors@[self.index@[w2] as int] == old(self).behaviors@[old(self).index@[w2] as int]);
                            } else {
                                assert(self.behaviors@[n as int]@ == empty_behavior());
                            }
                        }
                    }
                }
                n
            },
        };
        let ghost m1 = self.view_map();
        let ghost b = if m0.contains_key(x) { m0[x] } else { empty_behavior() };
        proof {
            assert(m1.contains_key(x));
            assert(m1[x] == b);
            assert(self.index@[x] == idx);
        }
        let c = g.count;
        let len = g.words.len();
        let ghost bs1 = self.behaviors@;
        assert(lists_agree(bs1[idx as int]));
        assert(g@.words.len() == len);
        self.behaviors[idx].count_order(len, c);
        if i > 0 {
            assert(g@.words[i - 1] == g.words@[i - 1]@);
            self.behaviors[idx].count_left(&g.words[i - 1], c);
        }
        if i + 1 < len {
            assert(g@.words[i + 1] == g.words@[i + 1]@);
            self.behaviors[idx].count_right(&g.words[i + 1], c);
        }
        proof {
            assert forall|j: int| 0 <= j < self.behaviors@.len() implies lists_agree(#[trigger] self.behaviors@[j]) by {
                if j != idx {
                    assert(self.behaviors@[j] == bs1[j]);
                }
            }
            assert(self.behaviors@[idx as int]@ == at_position(b, g@, i as int));
            assert(self.view_map() =~= m1.insert(x, at_position(b, g@, i as int))) by {
                assert forall|w2: Seq<char>| #[trigger] self.view_map().contains_key(w2) implies self.view_map()[w2] == m1.insert(x, at_position(b, g@, i as int))[w2] by {
                    if w2 != x {
                        assert(self.index@[w2] != idx);
                    }
                }
            }
            assert(m1.insert(x, at_position(b, g@, i as int)) =~= m0.insert(x, at_position(b, g@, i as int)));
        }
    }
}

/// A prefix of the n-grams is counted without overflow when the whole is.
proof fn lemma_behaviors_fit_prefix(l: Seq<NgramView>, e: int)
    requires
        0 <= e <= l.len(),
        behaviors_fit(l),
    ensures
        behaviors_fit(l.take(e)),
    decreases l.len() - e,
{
    if e < l.len() {
        assert(l.drop_last().take(e) =~= l.take(e));
        lemma_behaviors_fit_prefix(l.drop_last(), e);
    } else {
        assert(l.take(e) =~= l);
    }
}

/// The first `i` positions of an n-gram are counted without overflow when the first `n`
/// are.
proof fn lemma_positions_fit_prefix(m: Map<Seq<char>, BehaviorView>, g: NgramView, i: int, n: int)
    requires
        0 <= i <= n,
        positions_fit(m, g, n),
    ensures
        positions_fit(m, g, i),
    decreases n - i,
{
    if i < n {
        lemma_positions_fit_prefix(m, g, i, n - 1);
    }
}

/// The behaviour of every word of the n-gram table (see `behaviors_of`): for each n-gram,
/// each of its words counts the n-gram's count for the n-gram's order, for the word before
/// it and for the word after it. The counts are `u64`s, so they must fit.
pub fn build_word_behaviors(table: &NgramTable) -> (r: BehaviorTable)
    requires
        behaviors_fit(table.list()),
    ensures
        r.wf(),
        r.view_map() == behaviors_of(table.list()),
{
    let entries = table.entries();
    let ghost l = table.list();
    let mut out = BehaviorTable::new();
    let mut e: usize = 0;
    proof {
        assert(l.take(0) =~= Seq::<NgramView>::empty());
    }
    while e < entries.len()
        invariant
            e <= entries@.len(),
            l == entries@.map_values(|g: crate::spiral::Ngram| g@),
            behaviors_fit(l),
            out.wf(),
            out.view_map() == behaviors_of(l.take(e as int)),
        decreases entries@.len() - e,
    {
        let g = &entries[e];
        let ghost m0 = out.view_map();
        proof {
            assert(l.take(e as int + 1).drop_last() =~= l.take(e as int));
            assert(l.take(e as int + 1).last() == g@);
            lemma_behaviors_fit_prefix(l, e as int + 1);
            assert(positions_fit(m0, g@, g@.words.len() as int));
        }
        let mut i: usize = 0;
        while i < g.words.len()
            invariant
                i <= g.words@.len(),
                g@.words.len() == g.words@.len(),
                positions_fit(m0, g@, g@.words.len() as int),
                out.wf(),
                out.view_map() == positions_upto(m0, g@, i as int),
            decreases g.words@.len() - i,
        {
            proof {
                lemma_positions_fit_prefix(m0, g@, i as int + 1, g@.words.len() as int);
            }
            out.see_position(g, i);
            i = i + 1;
        }
        e = e + 1;
    }
    assert(l.take(e as int) =~= l);
    out
}

/// The hash the clusters are drawn by: over the UTF-8 bytes of a word, each step the hash
/// times 31 plus the byte, wrapping at the width of `usize`.
pub open spec fn word_hash(bs: Seq<u8>) -> usize
    decreases bs.len(),
{
    if bs.len() == 0 {
        0
    } else {
        vstd::wrapping::usize_specs::wrapping_add(
            vstd::wrapping::usize_specs::wrapping_mul(word_hash(bs.drop_last()), 31),
            bs.last() as usize,
        )
    }
}

/// The same hash wrapping at 32 bits, which places a word within its sector.
pub open spec fn angle_hash(bs: Seq<u8>) -> u32
    decreases bs.len(),
{
    if bs.len() == 0 {
        0
    } else {
        vstd::wrapping::u32_specs::wrapping_add(
            vstd::wrapping::u32_specs::wrapping_mul(angle_hash(bs.drop_last()), 31),
            bs.last() as u32,
        )
    }
}

/// The cluster hash of `word` (see `word_hash`).
pub fn hash_word(word: &str) -> (r: usize)
    ensures
        r == word_hash(vstd::utf8::encode_utf8(word@)),
{
    let bs = word.as_bytes();
    let mut h: usize = 0;
    let mut i: usize = 0;
    while i < bs.len()
        invariant
            i <= bs@.len(),
            bs@ == vstd::utf8::encode_utf8(word@),
            h == word_hash(bs@.take(i as int)),
        decreases bs@.len() - i,
    {
        proof {
            assert(bs@.take(i as int + 1).drop_last() =~= bs@.take(i as int));
        }
        h = h.wrapping_mul(31).wrapping_add(bs[i] as usize);
        i = i + 1;
    }
    assert(bs@.take(i as int) =~= bs@);
    h
}

/// The sector hash of `word` (see `angle_hash`).
pub fn hash_word_u32(word: &str) -> (r: u32)
    ensures
        r == angle_hash(vstd::utf8::encode_utf8(word@)),
{
    let bs = word.as_bytes();
    let mut h: u32 = 0;
    let mut i: usize = 0;
    while i < bs.len()
        invariant
            i <= bs@.len(),
            bs@ == vstd::utf8::encode_utf8(word@),
            h == angle_hash(bs@.take(i as int)),
        decreases bs@.len() - i,
    {
        proof {
            assert(bs@.take(i as int + 1).drop_last() =~= bs@.take(i as int));
        }
        h = h.wrapping_mul(31).wrapping_add(bs[i] as u32);
        i = i + 1;
    }
    assert(bs@.take(i as int) =~= bs@);
    h
}

/// The cluster of `word` among `n`: its hash modulo `n`.
pub open spec fn cluster_of(word: Seq<char>, n: usize) -> int {
    (word_hash(vstd::utf8::encode_utf8(word)) as int) % (n as int)
}

/// The members of each of `n` clusters, each word of `ws` put in the cluster of its hash.
pub fn cluster_words(ws: &Vec<String>, n: usize) -> (r: Vec<Vec<String>>)
    requires
        n > 0,
    ensures
        r@.len() == n,
        forall|c: int| 0 <= c < n ==> views((#[trigger] r@[c])@) == views(ws@).filter(|w: Seq<char>| cluster_of(w, n) == c),
{
    let mut out: Vec<Vec<String>> = Vec::new();
    let mut c: usize = 0;
    while c < n
        invariant
            c <= n,
            out@.len() == c,
            forall|j: int| 0 <= j < c ==> (#[trigger] out@[j])@.len() == 0,
        decreases n - c,
    {
        out.push(Vec::new());
        c = c + 1;
    }
    let mut i: usize = 0;
    while i < ws.len()
        invariant
            n > 0,
            out@.len() == n,
            i <= ws@.len(),
            forall|c2: int| 0 <= c2 < n ==> views((#[trigger] out@[c2])@) == views(ws@).take(i as int).filter(|w: Seq<char>| cluster_of(w, n) == c2),
        decreases ws@.len() - i,
    {
        let h = hash_word(ws[i].as_str());
        let k = h % n;
        let ghost pre = views(ws@).take(i as int);
        let ghost post = views(ws@).take(i as int + 1);
        proof {
            assert(post.drop_last() =~= pre);
            assert(post.last() == ws@[i as int]@);
            assert(k == cluster_of(ws@[i as int]@, n));
        }
        let ghost out0 = out@;
        out[k].push(ws[i].clone());
        proof {
            assert forall|c2: int| 0 <= c2 < n implies views((#[trigger] out@[c2])@) == post.filter(|w: Seq<char>| cluster_of(w, n) == c2) by {
                reveal_with_fuel(Seq::filter, 1);
                if c2 == k {
                    assert(views(out@[c2]@) =~= views(out0[c2]@).push(ws@[i as int]@));
                } else {
                    assert(out@[c2] == out0[c2]);
                }
            }
        }
        i = i + 1;
    }
    assert(views(ws@).take(i as int) =~= views(ws@));
    out
}

} // verus!
