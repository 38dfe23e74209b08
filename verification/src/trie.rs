//! A trie of n-gram continuations: for each context (a sequence of words) it counts the
//! words seen next, in the order first seen, and keeps up to five example phrases.
use vstd::prelude::*;
use vstd::hash_map::StringHashMap;
use crate::text::{join_with, join_words, string_of, views};
use crate::tokens::marker;
use crate::score::{Score, score_eq, score_le, score_less, score_lt, lemma_score_trans};

verus! {

/// What a context of the trie holds: the words seen after it (in the order first seen),
/// how often each was seen, and up to five example phrases.
pub ghost struct NodeView {
    pub order: Seq<Seq<char>>,
    pub counts: Map<Seq<char>, usize>,
    pub contexts: Seq<Seq<char>>,
}

/// A context that holds nothing yet.
pub open spec fn empty_node_view() -> NodeView {
    NodeView { order: seq![], counts: Map::empty(), contexts: seq![] }
}

/// The sum of the counts of the words `ws`.
pub open spec fn sum_counts(ws: Seq<Seq<char>>, m: Map<Seq<char>, usize>) -> nat
    decreases ws.len(),
{
    if ws.len() == 0 {
        0
    } else {
        sum_counts(ws.drop_last(), m) + m[ws.last()] as nat
    }
}

/// How many times `w` was seen after a context with these contents.
pub open spec fn count_in(v: NodeView, w: Seq<char>) -> nat {
    if v.counts.contains_key(w) {
        v.counts[w] as nat
    } else {
        0
    }
}

/// The contents of a context after one more sighting of `w`, with the example `full` if
/// there is one.
pub open spec fn bump(v: NodeView, w: Seq<char>, full: Option<Seq<char>>) -> NodeView {
    NodeView {
        order: if v.counts.contains_key(w) {
            v.order
        } else {
            v.order.push(w)
        },
        counts: v.counts.insert(w, (count_in(v, w) + 1) as usize),
        contexts: match full {
            Some(f) => if v.contexts.len() < 5 {
                v.contexts.push(f)
            } else {
                v.contexts
            },
            None => v.contexts,
        },
    }
}

/// `p` is `ctx` or a prefix of it.
pub open spec fn is_prefix_of(p: Seq<Seq<char>>, ctx: Seq<Seq<char>>) -> bool {
    p.len() <= ctx.len() && ctx.take(p.len() as int) == p
}

/// `m` with every prefix of `q` present, those that were missing holding nothing.
pub open spec fn with_prefixes(
    m: Map<Seq<Seq<char>>, NodeView>,
    q: Seq<Seq<char>>,
) -> Map<Seq<Seq<char>>, NodeView> {
    Map::new(
        |p: Seq<Seq<char>>| m.contains_key(p) || is_prefix_of(p, q),
        |p: Seq<Seq<char>>|
            if m.contains_key(p) {
                m[p]
            } else {
                empty_node_view()
            },
    )
}

/// The contexts of a trie after recording that `w` followed `ctx`, with the example `full`
/// if there is one: every prefix of `ctx` now exists, and `ctx` has one more sighting of `w`.
pub open spec fn insert_view(
    m: Map<Seq<Seq<char>>, NodeView>,
    ctx: Seq<Seq<char>>,
    w: Seq<char>,
    full: Option<Seq<char>>,
) -> Map<Seq<Seq<char>>, NodeView> {
    let m2 = with_prefixes(m, ctx);
    m2.insert(ctx, bump(m2[ctx], w, full))
}

/// One recorded sighting: a context, the word that followed it, and perhaps an example.
pub type Sighting = (Seq<Seq<char>>, Seq<char>, Option<Seq<char>>);

/// The sighting of order `o` that starts at token `i` of `ts`, with as example the tokens
/// from up to three before it through its last word, joined by spaces; none if the boundary
/// marker is among its words.
pub open spec fn sighting_at(ts: Seq<Seq<char>>, i: int, o: int, examples: bool) -> Seq<Sighting> {
    let ctx = ts.subrange(i, i + o - 1);
    let next = ts[i + o - 1];
    let start = if i >= 3 {
        i - 3
    } else {
        0
    };
    let full = join_with(ts.subrange(start, i + o), seq![' ']);
    if ctx.contains(marker()) || next == marker() {
        seq![]
    } else {
        seq![(ctx, next, if examples { Some(full) } else { None })]
    }
}

/// The sightings that start at token `i`, of orders 2 through `hi`.
pub open spec fn sightings_from(ts: Seq<Seq<char>>, i: int, hi: int, examples: bool) -> Seq<Sighting>
    decreases hi,
{
    if hi < 2 {
        seq![]
    } else {
        sightings_from(ts, i, hi - 1, examples) + sighting_at(ts, i, hi, examples)
    }
}

/// The highest order of a sighting that starts at token `i`.
pub open spec fn top_order(ts: Seq<Seq<char>>, i: int, max_order: int) -> int {
    if max_order < ts.len() - i {
        max_order
    } else {
        ts.len() - i
    }
}

/// The sightings that start before token `n`, in order of start and then of order.
pub open spec fn sightings_before(ts: Seq<Seq<char>>, n: int, max_order: int, examples: bool) -> Seq<Sighting>
    decreases n,
{
    if n <= 0 {
        seq![]
    } else {
        sightings_before(ts, n - 1, max_order, examples) + sightings_from(
            ts,
            n - 1,
            top_order(ts, n - 1, max_order),
            examples,
        )
    }
}

/// Every n-gram of `ts` of order 2 through `max_order` without the boundary marker, as a
/// sighting of its last word after the others.
pub open spec fn sightings(ts: Seq<Seq<char>>, max_order: int, examples: bool) -> Seq<Sighting> {
    if ts.len() < 2 {
        seq![]
    } else {
        sightings_before(ts, ts.len() - 1, max_order, examples)
    }
}

/// The contexts of a trie after recording each sighting of `l` in turn.
pub open spec fn apply_sightings(m: Map<Seq<Seq<char>>, NodeView>, l: Seq<Sighting>) -> Map<Seq<Seq<char>>, NodeView>
    decreases l.len(),
{
    if l.len() == 0 {
        m
    } else {
        let x = l.last();
        insert_view(apply_sightings(m, l.drop_last()), x.0, x.1, x.2)
    }
}

/// How many of `n` sightings a trie that has recorded `rec` can still record.
pub open spec fn room(rec: nat, n: nat) -> nat {
    if rec + n <= usize::MAX {
        n
    } else if rec <= usize::MAX {
        (usize::MAX - rec) as nat
    } else {
        0
    }
}

/// Twice the score multiplier that `t` gives order `o`.
pub open spec fn boost2(t: BoostTable, o: int) -> u128 {
    match t {
        BoostTable::Standard => if o == 7 {
            8
        } else if o == 6 {
            6
        } else if o == 5 {
            5
        } else if o == 4 {
            4
        } else if o == 3 {
            3
        } else {
            2
        },
        BoostTable::Extended => if o == 12 {
            14
        } else if o == 11 {
            13
        } else if o == 10 {
            12
        } else if o == 9 {
            11
        } else if o == 8 {
            10
        } else if o == 7 {
            8
        } else if o == 6 {
            6
        } else if o == 5 {
            5
        } else if o == 4 {
            4
        } else if o == 3 {
            3
        } else {
            1
        },
    }
}

/// Twice the score multiplier that `t` gives order `o`.
pub fn boost_twice(t: BoostTable, o: usize) -> (r: u128)
    ensures
        r == boost2(t, o as int),
{
    match t {
        BoostTable::Standard => if o == 7 {
            8
        } else if o == 6 {
            6
        } else if o == 5 {
            5
        } else if o == 4 {
            4
        } else if o == 3 {
            3
        } else {
            2
        },
        BoostTable::Extended => if o == 12 {
            14
        } else if o == 11 {
            13
        } else if o == 10 {
            12
        } else if o == 9 {
            11
        } else if o == 8 {
            10
        } else if o == 7 {
            8
        } else if o == 6 {
            6
        } else if o == 5 {
            5
        } else if o == 4 {
            4
        } else if o == 3 {
            3
        } else {
            1
        },
    }
}

/// The sum of the counts a context holds.
pub open spec fn node_total(v: NodeView) -> nat {
    sum_counts(v.order, v.counts)
}

/// The last `o - 1` words of `ctx`.
pub open spec fn suffix(ctx: Seq<Seq<char>>, o: int) -> Seq<Seq<char>> {
    ctx.skip(ctx.len() - (o - 1))
}

/// The highest order consulted for a context of `n` words: `max_order`, or `n + 1` if fewer.
pub open spec fn top_query_order(max_order: usize, n: nat) -> int {
    if max_order <= n {
        max_order as int
    } else {
        n as int + 1
    }
}

/// Some prediction in `r` is of the word `w`.
pub open spec fn lists_word(r: Seq<Candidate>, w: Seq<char>) -> bool {
    exists|t: int| 0 <= t < r.len() && (#[trigger] r[t]).word@ == w
}

/// A next-word prediction: the word, its score (relative frequency times the multiplier
/// of its order), the order of the n-gram it came from, and how often that n-gram was seen.
pub struct Candidate {
    pub word: String,
    pub score: Score,
    pub order: usize,
    pub count: usize,
}

impl Candidate {
    /// A copy of this prediction.
    pub fn duplicate(&self) -> (r: Candidate)
        ensures
            r == *self,
    {
        Candidate { word: self.word.clone(), score: self.score, order: self.order, count: self.count }
    }
}

/// One node of the trie.
pub struct TrieNode {
    children: StringHashMap<usize>,
    counts: StringHashMap<usize>,
    order: Vec<String>,
    contexts: Vec<String>,
    total: usize,
}

/// Which score multipliers an n-gram order gets.
#[derive(PartialEq, Eq, Structural, Clone, Copy, Debug)]
pub enum BoostTable {
    /// 7 → 4.0, 6 → 3.0, 5 → 2.5, 4 → 2.0, 3 → 1.5, other orders → 1.0.
    Standard,
    /// 12 → 7.0, 11 → 6.5, 10 → 6.0, 9 → 5.5, 8 → 5.0, 7 → 4.0, 6 → 3.0, 5 → 2.5, 4 → 2.0,
    /// 3 → 1.5, other orders → 0.5.
    Extended,
}

/// An n-gram trie: contexts of up to `max_order - 1` words, each with the words seen next.
pub struct NgramTrie {
    nodes: Vec<TrieNode>,
    max_order: usize,
    boosts: BoostTable,
    insertions: usize,
    paths: Ghost<Seq<Seq<Seq<char>>>>,
}

impl TrieNode {
    /// What this node holds.
    pub closed spec fn node_view(self) -> NodeView {
        NodeView { order: views(self.order@), counts: self.counts@, contexts: views(self.contexts@) }
    }

    /// The node's word list and counts agree, and its total is their sum.
    pub closed spec fn node_wf(self) -> bool {
        &&& views(self.order@).no_duplicates()
        &&& forall|k: Seq<char>| #[trigger]
            self.counts@.contains_key(k) <==> views(self.order@).contains(k)
        &&& self.total == sum_counts(views(self.order@), self.counts@)
        &&& self.contexts@.len() <= 5
        &&& forall|k: Seq<char>| #[trigger] self.counts@.contains_key(k) ==> self.counts@[k] >= 1
    }

    /// A node that holds nothing.
    fn empty() -> (r: TrieNode)
        ensures
            r.node_wf(),
            r.node_view() == empty_node_view(),
            r.children@ == Map::<Seq<char>, usize>::empty(),
    {
        let r = TrieNode {
            children: StringHashMap::new(),
            counts: StringHashMap::new(),
            order: Vec::new(),
            contexts: Vec::new(),
            total: 0,
        };
        assert(views(r.order@) =~= Seq::<Seq<char>>::empty());
        assert(views(r.contexts@) =~= Seq::<Seq<char>>::empty());
        assert(r.node_view() =~= empty_node_view());
        r
    }
}

/// The index of the node that the path `p` leads to from the root, if any.
pub closed spec fn node_at(nodes: Seq<TrieNode>, p: Seq<Seq<char>>) -> Option<int>
    decreases p.len(),
{
    if p.len() == 0 {
        Some(0)
    } else {
        match node_at(nodes, p.drop_last()) {
            Some(j) => if 0 <= j < nodes.len() && nodes[j].children@.contains_key(p.last()) {
                Some(nodes[j].children@[p.last()] as int)
            } else {
                None
            },
            None => None,
        }
    }
}

impl NgramTrie {
    /// The contexts the trie holds, each with what it holds.
    pub closed spec fn view(self) -> Map<Seq<Seq<char>>, NodeView> {
        Map::new(
            |p: Seq<Seq<char>>| node_at(self.nodes@, p) is Some,
            |p: Seq<Seq<char>>| self.nodes@[node_at(self.nodes@, p)->0].node_view(),
        )
    }

    /// The longest n-grams the trie records.
    pub closed spec fn order_limit(self) -> usize {
        self.max_order
    }

    /// The longest n-grams the trie records.
    pub fn max_order(&self) -> (r: usize)
        ensures
            r == self.order_limit(),
    {
        self.max_order
    }

    /// Changes the longest n-grams that later insertions record; what is recorded stays.
    pub fn set_max_order(&mut self, max_order: usize)
        requires
            old(self).wf(),
        ensures
            final(self).wf(),
            final(self).order_limit() == max_order,
            final(self).view() == old(self).view(),
            final(self).boost_table() == old(self).boost_table(),
            final(self).recorded() == old(self).recorded(),
    {
        self.max_order = max_order;
    }

    /// The multipliers this trie scores orders with.
    pub closed spec fn boost_table(self) -> BoostTable {
        self.boosts
    }

    /// How many sightings the trie has recorded.
    pub closed spec fn recorded(self) -> nat {
        self.insertions as nat
    }

    /// A trie counts its sightings in a `usize`.
    pub proof fn lemma_recorded_fits(&self)
        ensures
            self.recorded() <= usize::MAX,
    {
    }

    /// The trie's nodes are well formed and form a tree whose paths are known.
    pub closed spec fn wf(self) -> bool {
        &&& self.nodes@.len() >= 1
        &&& self.paths@.len() == self.nodes@.len()
        &&& forall|i: int| 0 <= i < self.nodes@.len() ==> (#[trigger] self.nodes@[i]).node_wf()
        &&& forall|i: int|
            0 <= i < self.nodes@.len() ==> self.nodes@[i].total <= self.insertions
        &&& forall|i: int|
            0 <= i < self.nodes@.len() ==> node_at(self.nodes@, #[trigger] self.paths@[i]) == Some(
                i,
            )
        &&& forall|p: Seq<Seq<char>>| #[trigger]
            node_at(self.nodes@, p) is Some ==> self.path_known(p)
    }

    /// The node that `p` leads to was reached by `p` and no other path.
    pub closed spec fn path_known(self, p: Seq<Seq<char>>) -> bool {
        let i = node_at(self.nodes@, p)->0;
        0 <= i < self.nodes@.len() && p == self.paths@[i]
    }

    /// An empty trie for n-grams of up to `max_order` words, scored with the standard
    /// multipliers.
    pub fn new(max_order: usize) -> (r: NgramTrie)
        ensures
            r.wf(),
            r.order_limit() == max_order,
            r.boost_table() == BoostTable::Standard,
            r.view() == Map::<Seq<Seq<char>>, NodeView>::empty().insert(seq![], empty_node_view()),
            r.recorded() == 0,
    {
        NgramTrie::with_boosts(max_order, BoostTable::Standard)
    }

    /// An empty trie for n-grams of up to `max_order` words, scored with `boosts`.
    pub fn with_boosts(max_order: usize, boosts: BoostTable) -> (r: NgramTrie)
        ensures
            r.wf(),
            r.order_limit() == max_order,
            r.boost_table() == boosts,
            r.view() == Map::<Seq<Seq<char>>, NodeView>::empty().insert(seq![], empty_node_view()),
            r.recorded() == 0,
    {
        let mut nodes: Vec<TrieNode> = Vec::new();
        nodes.push(TrieNode::empty());
        let ghost root_path: Seq<Seq<char>> = seq![];
        let ghost ps: Seq<Seq<Seq<char>>> = seq![root_path];
        let r = NgramTrie {
            nodes,
            max_order,
            boosts,
            insertions: 0,
            paths: Ghost(ps),
        };
        assert forall|p: Seq<Seq<char>>| #[trigger]
            node_at(r.nodes@, p) is Some implies r.path_known(p) by {
            lemma_single_node(r.nodes@, p);
            assert(p =~= root_path);
        }
        assert(r.view() =~= Map::<Seq<Seq<char>>, NodeView>::empty().insert(seq![], empty_node_view())) by {
            assert forall|p: Seq<Seq<char>>| #[trigger] r.view().contains_key(p) implies p.len() == 0 by {
                lemma_single_node(r.nodes@, p);
            }
        }
        r
    }

    /// Records that `next_word` followed `context`, keeping `full_context` as an example
    /// when the context holds fewer than five. A trie that has recorded `usize::MAX`
    /// sightings records no more.
    pub fn insert(&mut self, context: &[String], next_word: String, full_context: &str)
        requires
            old(self).wf(),
        ensures
            final(self).wf(),
            final(self).order_limit() == old(self).order_limit(),
            final(self).boost_table() == old(self).boost_table(),
            old(self).recorded() < usize::MAX ==> {
                &&& final(self).view() == insert_view(
                    old(self).view(),
                    views(context@),
                    next_word@,
                    Some(full_context@),
                )
                &&& final(self).recorded() == old(self).recorded() + 1
            },
            old(self).recorded() == usize::MAX ==> final(self).view() == old(self).view()
                && final(self).recorded() == old(self).recorded(),
    {
        self.record(context, next_word, Some(full_context))
    }

    /// Records that `next_word` followed `context`, with the example `example` if there is
    /// one. A trie that has recorded `usize::MAX` sightings records no more.
    fn record(&mut self, context: &[String], next_word: String, example: Option<&str>)
        requires
            old(self).wf(),
        ensures
            final(self).wf(),
            final(self).order_limit() == old(self).order_limit(),
            final(self).boost_table() == old(self).boost_table(),
            old(self).recorded() < usize::MAX ==> {
                &&& final(self).view() == insert_view(
                    old(self).view(),
                    views(context@),
                    next_word@,
                    match example {
                        Some(e) => Some(e@),
                        None => None,
                    },
                )
                &&& final(self).recorded() == old(self).recorded() + 1
            },
            old(self).recorded() == usize::MAX ==> final(self).view() == old(self).view()
                && final(self).recorded() == old(self).recorded(),
    {
        if self.insertions == usize::MAX {
            return;
        }
        let ghost old_view = self.view();
        let ghost ctx = views(context@);
        let mut cur: usize = 0;
        let mut k: usize = 0;
        proof {
            assert(ctx.take(0) =~= Seq::<Seq<char>>::empty());
            assert(self.view() =~= with_prefixes(old_view, ctx.take(0))) by {
                assert forall|p: Seq<Seq<char>>| is_prefix_of(p, ctx.take(0)) implies #[trigger] old_view.contains_key(p) by {
                    assert(p =~= Seq::<Seq<char>>::empty());
                }
            }
        }
        while k < context.len()
            invariant
                self.wf(),
                self.insertions < usize::MAX,
                self.insertions == old(self).insertions,
                self.max_order == old(self).max_order,
                self.boosts == old(self).boosts,
                ctx == views(context@),
                k <= context@.len(),
                cur < self.nodes@.len(),
                node_at(self.nodes@, ctx.take(k as int)) == Some(cur as int),
                self.view() == with_prefixes(old_view, ctx.take(k as int)),
            decreases context@.len() - k,
        {
            let ghost q = ctx.take(k as int + 1);
            proof {
                assert(q.drop_last() =~= ctx.take(k as int));
                assert(q.last() == context@[k as int]@);
            }
            let found = match self.nodes[cur].children.get(context[k].as_str()) {
                Some(child) => Some(*child),
                None => None,
            };
            match found {
                Some(child) => {
                    proof {
                        assert(node_at(self.nodes@, q) == Some(child as int));
                        self.lemma_path_index(q);
                        assert(self.view() =~= with_prefixes(old_view, q)) by {
                            assert forall|p: Seq<Seq<char>>|
                                #![trigger with_prefixes(old_view, q).contains_key(p)]
                                with_prefixes(old_view, q).contains_key(p)
                                    == with_prefixes(old_view, ctx.take(k as int)).contains_key(p) by {
                                lemma_prefix_step(p, ctx, k as int);
                                if p == q {
                                    assert(self.view().contains_key(q));
                                }
                            }
                        }
                    }
                    cur = child;
                },
                None => {
                    let ghost nodes0 = self.nodes@;
                    let ghost paths0 = self.paths@;
                    let ghost view0 = self.view();
                    let n = self.nodes.len();
                    self.nodes.push(TrieNode::empty());
                    let ghost nodes1 = self.nodes@;
                    self.nodes[cur].children.insert(context[k].clone(), n);
                    proof {
                        self.paths@ = paths0.push(q);
                        lemma_edge_added(nodes0, paths0, self.nodes@, cur as int, q, n as int);
                        assert(node_at(nodes0, q) is None);
                        assert forall|i: int| 0 <= i < self.nodes@.len() implies (#[trigger] self.nodes@[i]).node_wf() by {
                            if i < n {
                                assert(self.nodes@[i].node_view() == nodes0[i].node_view());
                                assert(nodes0[i].node_wf());
                            }
                        }
                        assert forall|i: int|
                            0 <= i < self.nodes@.len() implies node_at(self.nodes@, #[trigger] self.paths@[i]) == Some(i) by {
                            if i < n {
                                assert(node_at(nodes0, paths0[i]) == Some(i));
                            }
                        }
                        assert forall|p: Seq<Seq<char>>| #[trigger]
                            node_at(self.nodes@, p) is Some implies self.path_known(p) by {
                            if p != q {
                                assert(node_at(nodes0, p) is Some);
                            }
                        }
                        assert(self.wf());
                        assert(node_at(nodes0, q) is None);
                        assert(!view0.contains_key(q));
                        assert(!old_view.contains_key(q));
                        assert forall|i: int| 0 <= i < n implies #[trigger] self.nodes@[i].node_view() == nodes0[i].node_view() by {
                        }
                        assert(self.view() =~= with_prefixes(old_view, q)) by {
                            assert forall|p: Seq<Seq<char>>|
                                #![trigger with_prefixes(old_view, q).contains_key(p)]
                                with_prefixes(old_view, q).contains_key(p)
                                    == (with_prefixes(old_view, ctx.take(k as int)).contains_key(p) || p == q) by {
                                lemma_prefix_step(p, ctx, k as int);
                            }
                            assert forall|p: Seq<Seq<char>>| #[trigger] self.view().contains_key(p) implies
                                self.view()[p] == with_prefixes(old_view, q)[p] by {
                                if p != q {
                                    let i = node_at(nodes0, p)->0;
                                    assert(node_at(self.nodes@, p) == node_at(nodes0, p));
                                    assert(0 <= i < n);
                                    assert(self.nodes@[i].node_view() == nodes0[i].node_view());
                                    assert(view0.contains_key(p));
                                    assert(view0[p] == nodes0[i].node_view());
                                    let wk = with_prefixes(old_view, ctx.take(k as int));
                                    assert(wk.contains_key(p));
                                    assert(wk[p] == (if old_view.contains_key(p) { old_view[p] } else { empty_node_view() }));
                                    lemma_prefix_step(p, ctx, k as int);
                                    assert(with_prefixes(old_view, q).contains_key(p));
                                    assert(with_prefixes(old_view, q)[p] == (if old_view.contains_key(p) { old_view[p] } else { empty_node_view() }));
                                } else {
                                    assert(self.nodes@[n as int].node_view() == empty_node_view());
                                    lemma_prefix_step(p, ctx, k as int);
                                    assert(with_prefixes(old_view, q).contains_key(q));
                                }
                            }
                        }
                    }
                    cur = n;
                },
            }
            k = k + 1;
        }
        proof {
            assert(ctx.take(k as int) =~= ctx);
        }
        let ghost nodes0 = self.nodes@;
        let ghost m2 = self.view();
        let ghost ghost_example = match example {
            Some(e) => Some(e@),
            None => None,
        };
        let ghost before = self.nodes@[cur as int];
        proof {
            assert(before.node_wf());
            assert(before.total <= self.insertions);
            assert(m2[ctx] == before.node_view());
        }
        let node = &mut self.nodes[cur];
        let existing = match node.counts.get(next_word.as_str()) {
            Some(c) => Some(*c),
            None => None,
        };
        match existing {
            Some(c) => {
                proof {
                    lemma_count_le_sum(views(before.order@), before.counts@, next_word@);
                    lemma_sum_bump(views(before.order@), before.counts@, next_word@);
                }
                node.counts.insert(next_word, c + 1);
            },
            None => {
                proof {
                    lemma_sum_frame(views(before.order@), before.counts@, next_word@, 1);
                }
                let w2 = next_word.clone();
                node.counts.insert(next_word, 1);
                node.order.push(w2);
                proof {
                    assert(views(node.order@) =~= views(before.order@).push(w2@));
                    assert(views(node.order@).drop_last() =~= views(before.order@));
                }
            },
        }
        node.total = node.total + 1;
        match example {
            Some(e) => {
                if node.contexts.len() < 5 {
                    node.contexts.push(e.to_owned());
                    proof {
                        assert(views(node.contexts@) =~= views(before.contexts@).push(e@));
                    }
                }
            },
            None => {},
        }
        self.insertions = self.insertions + 1;
        proof {
            let after = self.nodes@[cur as int];
            assert(after.node_view() =~= bump(before.node_view(), next_word@, ghost_example));
            assert forall|k2: Seq<char>| #[trigger] after.counts@.contains_key(k2) <==> views(after.order@).contains(k2) by {
                if k2 == next_word@ {
                    if existing is None {
                        assert(views(after.order@).last() == k2);
                    }
                } else if after.counts@.contains_key(k2) {
                    assert(before.counts@.contains_key(k2));
                    let j = choose|j: int| 0 <= j < views(before.order@).len() && views(before.order@)[j] == k2;
                    assert(views(after.order@)[j] == k2);
                } else if views(after.order@).contains(k2) {
                    let j = choose|j: int| 0 <= j < views(after.order@).len() && views(after.order@)[j] == k2;
                    if existing is None && j == views(after.order@).len() - 1 {
                    } else {
                        assert(views(before.order@)[j] == k2);
                    }
                }
            }
            assert(after.node_wf());
            lemma_same_children(nodes0, self.nodes@);
            assert forall|p: Seq<Seq<char>>| #[trigger] self.view().contains_key(p) == m2.contains_key(p) by {
            }
            assert(self.view() =~= m2.insert(ctx, bump(m2[ctx], next_word@, ghost_example))) by {
                assert forall|p: Seq<Seq<char>>| #[trigger] self.view().contains_key(p) implies
                    self.view()[p] == m2.insert(ctx, bump(m2[ctx], next_word@, ghost_example))[p] by {
                    let i = node_at(self.nodes@, p)->0;
                    if p != ctx {
                        assert(i != cur);
                    }
                }
            }
            assert forall|i: int| 0 <= i < self.nodes@.len() implies (#[trigger] self.nodes@[i]).node_wf() by {
                if i != cur {
                    assert(self.nodes@[i] == nodes0[i]);
                }
            }
            assert forall|i: int|
                0 <= i < self.nodes@.len() implies node_at(self.nodes@, #[trigger] self.paths@[i]) == Some(i) by {
                assert(node_at(nodes0, self.paths@[i]) == Some(i));
            }
            assert forall|p: Seq<Seq<char>>| #[trigger]
                node_at(self.nodes@, p) is Some implies self.path_known(p) by {
                assert(node_at(nodes0, p) is Some);
            }
            assert forall|i: int|
                0 <= i < self.nodes@.len() implies self.nodes@[i].total <= self.insertions by {
                if i != cur {
                    assert(self.nodes@[i] == nodes0[i]);
                }
            }
        }
    }

    /// The node that a path leads to in a well-formed trie lies within it and was reached by
    /// that path alone.
    proof fn lemma_path_index(&self, p: Seq<Seq<char>>)
        requires
            self.wf(),
            node_at(self.nodes@, p) is Some,
        ensures
            self.path_known(p),
            0 <= node_at(self.nodes@, p)->0 < self.nodes@.len(),
    {
    }

    /// Every word a context of the trie holds was seen after it at least once.
    pub proof fn lemma_counts_positive(&self, p: Seq<Seq<char>>, w: Seq<char>)
        requires
            self.wf(),
            self.view().contains_key(p),
            self.view()[p].counts.contains_key(w),
        ensures
            self.view()[p].counts[w] >= 1,
    {
        self.lemma_path_index(p);
        let j = node_at(self.nodes@, p)->0;
        assert(self.nodes@[j].node_wf());
    }

    /// Records every n-gram of `tokens` of order 2 through the trie's limit that does not
    /// contain the boundary marker `<MSG>`: its last word after the others, with as example
    /// the tokens from up to three before it through its last word. Sightings beyond
    /// `usize::MAX` recorded in all are not recorded. A trie without the marker stays
    /// without it, and fewer than two tokens change nothing.
    pub fn insert_sequence(&mut self, tokens: &[String])
        requires
            old(self).wf(),
        ensures
            final(self).wf(),
            final(self).order_limit() == old(self).order_limit(),
            final(self).boost_table() == old(self).boost_table(),
            ({
                let l = sightings(views(tokens@), old(self).order_limit() as int, true);
                let k = room(old(self).recorded(), l.len());
                &&& final(self).view() == apply_sightings(old(self).view(), l.take(k as int))
                &&& final(self).recorded() == old(self).recorded() + k
            }),
            marker_free(old(self).view()) ==> marker_free(final(self).view()),
            tokens@.len() < 2 ==> final(self).view() == old(self).view() && final(self).recorded()
                == old(self).recorded(),
    {
        let ghost v0 = self.view();
        let ghost r0 = self.recorded();
        let ghost mo = self.max_order as int;
        self.record_all(tokens, true);
        proof {
            if marker_free(v0) {
                lemma_marker_never_recorded(v0, views(tokens@), mo, true, r0);
            }
            if tokens@.len() < 2 {
                lemma_short_sequence_records_nothing(v0, views(tokens@), mo, true, r0);
            }
        }
    }

    /// Records every n-gram of `tokens` of order 2 through the trie's limit that does not
    /// contain the boundary marker `<MSG>`, without examples. Sightings beyond `usize::MAX`
    /// recorded in all are not recorded. A trie without the marker stays without it, and
    /// fewer than two tokens change nothing.
    pub fn insert_tokens(&mut self, tokens: &[String])
        requires
            old(self).wf(),
        ensures
            final(self).wf(),
            final(self).order_limit() == old(self).order_limit(),
            final(self).boost_table() == old(self).boost_table(),
            ({
                let l = sightings(views(tokens@), old(self).order_limit() as int, false);
                let k = room(old(self).recorded(), l.len());
                &&& final(self).view() == apply_sightings(old(self).view(), l.take(k as int))
                &&& final(self).recorded() == old(self).recorded() + k
            }),
            marker_free(old(self).view()) ==> marker_free(final(self).view()),
            tokens@.len() < 2 ==> final(self).view() == old(self).view() && final(self).recorded()
                == old(self).recorded(),
    {
        let ghost v0 = self.view();
        let ghost r0 = self.recorded();
        let ghost mo = self.max_order as int;
        self.record_all(tokens, false);
        proof {
            if marker_free(v0) {
                lemma_marker_never_recorded(v0, views(tokens@), mo, false, r0);
            }
            if tokens@.len() < 2 {
                lemma_short_sequence_records_nothing(v0, views(tokens@), mo, false, r0);
            }
        }
    }

    fn record_all(&mut self, tokens: &[String], examples: bool)
        requires
            old(self).wf(),
        ensures
            final(self).wf(),
            final(self).order_limit() == old(self).order_limit(),
            final(self).boost_table() == old(self).boost_table(),
            ({
                let l = sightings(views(tokens@), old(self).order_limit() as int, examples);
                let k = room(old(self).recorded(), l.len());
                &&& final(self).view() == apply_sightings(old(self).view(), l.take(k as int))
                &&& final(self).recorded() == old(self).recorded() + k
            }),
    {
        let ghost ts = views(tokens@);
        let ghost v0 = self.view();
        let ghost r0 = self.recorded();
        let ghost mo = self.max_order as int;
        if tokens.len() < 2 {
            assert(sightings(ts, mo, examples).take(0) =~= Seq::<Sighting>::empty());
            return;
        }
        let n = tokens.len() - 1;
        let mut i: usize = 0;
        proof {
            assert(sightings_before(ts, 0, mo, examples).take(0) =~= Seq::<Sighting>::empty());
        }
        while i < n
            invariant
                self.wf(),
                n == tokens@.len() - 1,
                ts == views(tokens@),
                mo == self.max_order as int,
                self.max_order == old(self).max_order,
                self.boosts == old(self).boosts,
                v0 == old(self).view(),
                r0 == old(self).recorded(),
                i <= n,
                ({
                    let d = sightings_before(ts, i as int, mo, examples);
                    let k = room(r0, d.len());
                    &&& self.view() == apply_sightings(v0, d.take(k as int))
                    &&& self.recorded() == r0 + k
                }),
            decreases n - i,
        {
            let rest = tokens.len() - i;
            let hi = if self.max_order < rest { self.max_order } else { rest };
            let ghost d0 = sightings_before(ts, i as int, mo, examples);
            let mut c: usize = 1;
            proof {
                assert(sightings_from(ts, i as int, 1, examples) =~= Seq::<Sighting>::empty());
                assert(d0 + sightings_from(ts, i as int, 1, examples) =~= d0);
            }
            while c < hi
                invariant
                    self.wf(),
                    n == tokens@.len() - 1,
                    ts == views(tokens@),
                    mo == self.max_order as int,
                    self.max_order == old(self).max_order,
                    self.boosts == old(self).boosts,
                    v0 == old(self).view(),
                    r0 == old(self).recorded(),
                    i < n,
                    hi == top_order(ts, i as int, mo),
                    hi <= tokens@.len() - i,
                    i + hi <= tokens.len(),
                    1 <= c,
                    c <= hi || c == 1,
                    d0 == sightings_before(ts, i as int, mo, examples),
                    ({
                        let d = d0 + sightings_from(ts, i as int, c as int, examples);
                        let k = room(r0, d.len());
                        &&& self.view() == apply_sightings(v0, d.take(k as int))
                        &&& self.recorded() == r0 + k
                    }),
                decreases hi - c,
            {
                let o = c + 1;
                let ghost d = d0 + sightings_from(ts, i as int, c as int, examples);
                let ghost d2 = d0 + sightings_from(ts, i as int, o as int, examples);
                proof {
                    assert(d2 =~= d + sighting_at(ts, i as int, o as int, examples));
                }
                let mut ctx: Vec<String> = Vec::new();
                let mut has_marker = false;
                let mut j: usize = i;
                while j < i + o - 1
                    invariant
                        2 <= o <= tokens@.len() - i,
                        i + o <= tokens.len(),
                        i <= j <= i + o - 1,
                        ts == views(tokens@),
                        views(ctx@) == ts.subrange(i as int, j as int),
                        has_marker == ts.subrange(i as int, j as int).contains(marker()),
                    decreases i + o - 1 - j,
                {
                    let t = tokens[j].clone();
                    let m = is_marker(&t);
                    let ghost before = views(ctx@);
                    ctx.push(t);
                    proof {
                        assert(views(ctx@) =~= before.push(t@));
                        assert(ts.subrange(i as int, j + 1) =~= ts.subrange(i as int, j as int).push(ts[j as int]));
                        if ts.subrange(i as int, j + 1).contains(marker()) {
                            let x = choose|x: int| 0 <= x < j + 1 - i && #[trigger] ts.subrange(i as int, j + 1)[x] == marker();
                            if x < j - i {
                                assert(ts.subrange(i as int, j as int)[x] == marker());
                            }
                        }
                        if ts.subrange(i as int, j as int).contains(marker()) {
                            let x = choose|x: int| 0 <= x < j - i && #[trigger] ts.subrange(i as int, j as int)[x] == marker();
                            assert(ts.subrange(i as int, j + 1)[x] == marker());
                        }
                        if m {
                            assert(ts.subrange(i as int, j + 1)[j - i] == marker());
                        }
                    }
                    has_marker = has_marker || m;
                    j = j + 1;
                }
                let next = tokens[i + o - 1].clone();
                let next_is_marker = is_marker(&next);
                let ghost k0 = room(r0, d.len());
                if !has_marker && !next_is_marker {
                    let start = if i >= 3 { i - 3 } else { 0 };
                    let mut span: Vec<String> = Vec::new();
                    let mut j2: usize = start;
                    while j2 < i + o
                        invariant
                            2 <= o <= tokens@.len() - i,
                            i + o <= tokens.len(),
                            start <= j2 <= i + o,
                            ts == views(tokens@),
                            views(span@) == ts.subrange(start as int, j2 as int),
                        decreases i + o - j2,
                    {
                        let t = tokens[j2].clone();
                        let ghost before = views(span@);
                        span.push(t);
                        proof {
                            assert(views(span@) =~= before.push(t@));
                            assert(ts.subrange(start as int, j2 + 1) =~= ts.subrange(start as int, j2 as int).push(ts[j2 as int]));
                        }
                        j2 = j2 + 1;
                    }
                    let joined = join_words(&span);
                    let full = string_of(&joined);
                    let ghost item: Sighting = (views(ctx@), next@, if examples { Some(full@) } else { None });
                    proof {
                        assert(sighting_at(ts, i as int, o as int, examples) =~= seq![item]);
                        assert(d2 =~= d.push(item));
                        lemma_apply_push(v0, r0, d, item);
                    }
                    if examples {
                        self.record(&ctx, next, Some(full.as_str()));
                    } else {
                        self.record(&ctx, next, None);
                    }
                } else {
                    proof {
                        assert(sighting_at(ts, i as int, o as int, examples) =~= Seq::<Sighting>::empty());
                        assert(d2 =~= d);
                    }
                }
                c = c + 1;
            }
            proof {
                if hi < 2 {
                    assert(sightings_from(ts, i as int, hi as int, examples) =~= Seq::<Sighting>::empty());
                    assert(sightings_from(ts, i as int, 1, examples) =~= Seq::<Sighting>::empty());
                }
                assert(sightings_before(ts, i as int + 1, mo, examples) =~= d0 + sightings_from(ts, i as int, hi as int, examples));
            }
            i = i + 1;
        }
        proof {
            assert(sightings(ts, mo, examples) == sightings_before(ts, n as int, mo, examples));
        }
    }

    /// `w` is predicted after `ctx` by an n-gram of order `o`: the last `o - 1` words of
    /// `ctx` form a context that has seen `w` and at least two sightings in all.
    pub open spec fn is_candidate(self, ctx: Seq<Seq<char>>, w: Seq<char>, o: int) -> bool {
        let sfx = suffix(ctx, o);
        &&& 2 <= o <= top_query_order(self.order_limit(), ctx.len())
        &&& self.view().contains_key(sfx)
        &&& node_total(self.view()[sfx]) >= 2
        &&& self.view()[sfx].counts.contains_key(w)
    }

    /// The score of predicting `w` after `ctx` at order `o`: its count over the context's
    /// total, times the order's multiplier.
    pub open spec fn candidate_score(self, ctx: Seq<Seq<char>>, w: Seq<char>, o: int) -> Score {
        let v = self.view()[suffix(ctx, o)];
        Score {
            num: (v.counts[w] * boost2(self.boost_table(), o)) as u128,
            den: (2 * node_total(v)) as u128,
        }
    }

    /// `c` is the best prediction of its word after `ctx`: of the orders that predict the
    /// word, the one with the highest score, and of equal scores the highest order.
    pub open spec fn is_best(self, ctx: Seq<Seq<char>>, c: Candidate) -> bool {
        &&& self.is_candidate(ctx, c.word@, c.order as int)
        &&& c.count == self.view()[suffix(ctx, c.order as int)].counts[c.word@]
        &&& c.score == self.candidate_score(ctx, c.word@, c.order as int)
        &&& forall|o2: int| #[trigger]
            self.is_candidate(ctx, c.word@, o2) ==> score_le(
                self.candidate_score(ctx, c.word@, o2),
                c.score,
            ) && (score_eq(self.candidate_score(ctx, c.word@, o2), c.score) ==> o2 <= c.order)
    }

    /// Those predictions of `ctx` that orders above `o`, and at order `o` the words `done`, give.
    closed spec fn processed(self, ctx: Seq<Seq<char>>, w: Seq<char>, o2: int, o: int, done: Seq<Seq<char>>) -> bool {
        self.is_candidate(ctx, w, o2) && (o2 > o || (o2 == o && done.contains(w)))
    }

    /// `c` is the best of the processed predictions of its word.
    closed spec fn best_so_far(self, ctx: Seq<Seq<char>>, c: Candidate, o: int, done: Seq<Seq<char>>) -> bool {
        &&& self.processed(ctx, c.word@, c.order as int, o, done)
        &&& c.count == self.view()[suffix(ctx, c.order as int)].counts[c.word@]
        &&& c.score == self.candidate_score(ctx, c.word@, c.order as int)
        &&& c.score.den > 0
        &&& forall|o2: int| #[trigger]
            self.processed(ctx, c.word@, o2, o, done) ==> score_le(
                self.candidate_score(ctx, c.word@, o2),
                c.score,
            ) && (score_eq(self.candidate_score(ctx, c.word@, o2), c.score) ==> o2 <= c.order)
    }

    /// The collected predictions are each the best so far of a distinct word, `index` finds
    /// them by word, and every processed prediction's word is among them.
    closed spec fn collected(
        self,
        ctx: Seq<Seq<char>>,
        seen: Seq<Candidate>,
        index: Map<Seq<char>, usize>,
        o: int,
        done: Seq<Seq<char>>,
    ) -> bool {
        &&& forall|t: int| 0 <= t < seen.len() ==> self.best_so_far(ctx, #[trigger] seen[t], o, done)
        &&& forall|t: int| 0 <= t < seen.len() ==> #[trigger] index.contains_key(seen[t].word@) && index[seen[t].word@] == t
        &&& forall|w: Seq<char>| #[trigger] index.contains_key(w) ==> index[w] < seen.len() && seen[index[w] as int].word@ == w
        &&& forall|w: Seq<char>, o2: int| #[trigger] self.processed(ctx, w, o2, o, done) ==> index.contains_key(w)
    }

    /// The best prediction of every word that `context` predicts, one per word.
    fn gather(&self, context: &[String]) -> (r: Vec<Candidate>)
        requires
            self.wf(),
        ensures
            forall|t: int| 0 <= t < r@.len() ==> self.is_best(views(context@), #[trigger] r@[t]),
            forall|t: int| 0 <= t < r@.len() ==> (#[trigger] r@[t]).score.den > 0,
            forall|t1: int, t2: int| 0 <= t1 < t2 < r@.len() ==> r@[t1].word@ != r@[t2].word@,
            forall|w: Seq<char>, o: int| #[trigger] self.is_candidate(views(context@), w, o) ==> exists|t: int|
                0 <= t < r@.len() && (#[trigger] r@[t]).word@ == w,
    {
        let ghost ctx = views(context@);
        let n = context.len();
        let hi = if self.max_order <= n { self.max_order } else { n + 1 };
        let mut seen: Vec<Candidate> = Vec::new();
        let mut index: StringHashMap<usize> = StringHashMap::new();
        let mut o: usize = hi;
        let ghost empty_done: Seq<Seq<char>> = seq![];
        proof {
            assert forall|w: Seq<char>, o2: int| #[trigger] self.processed(ctx, w, o2, o as int, empty_done) implies index@.contains_key(w) by {
            }
        }
        while o >= 2
            invariant
                self.wf(),
                ctx == views(context@),
                n == context@.len(),
                hi == top_query_order(self.max_order, n as nat),
                o <= hi,
                self.collected(ctx, seen@, index@, o as int, empty_done),
                empty_done == Seq::<Seq<char>>::empty(),
            decreases o,
        {
            let mut sfx: Vec<String> = Vec::new();
            let start = n - (o - 1);
            let mut j: usize = start;
            while j < n
                invariant
                    start <= j <= n,
                    n == context@.len(),
                    views(sfx@) == views(context@).subrange(start as int, j as int),
                decreases n - j,
            {
                let t = context[j].clone();
                let ghost before = views(sfx@);
                sfx.push(t);
                proof {
                    assert(views(sfx@) =~= before.push(t@));
                    assert(views(context@).subrange(start as int, j + 1) =~= views(context@).subrange(start as int, j as int).push(context@[j as int]@));
                }
                j = j + 1;
            }
            proof {
                assert(views(sfx@) =~= suffix(ctx, o as int));
            }
            let ghost sv = suffix(ctx, o as int);
            match self.find_node(&sfx) {
                None => {
                    proof {
                        assert forall|w: Seq<char>, o2: int| #[trigger] self.processed(ctx, w, o2, o - 1, empty_done)
                            implies self.processed(ctx, w, o2, o as int, empty_done) by {
                            if o2 == o {
                                assert(!self.view().contains_key(sv));
                            }
                        }
                        assert forall|t: int| 0 <= t < seen@.len() implies self.best_so_far(ctx, #[trigger] seen@[t], o - 1, empty_done) by {
                            assert(self.best_so_far(ctx, seen@[t], o as int, empty_done));
                            assert forall|o2: int| #[trigger] self.processed(ctx, seen@[t].word@, o2, o - 1, empty_done)
                                implies self.processed(ctx, seen@[t].word@, o2, o as int, empty_done) by {
                                if o2 == o {
                                    assert(!self.view().contains_key(sv));
                                }
                            }
                        }
                    }
                },
                Some(ni) => {
                    let node = &self.nodes[ni];
                    proof {
                        assert(node.node_wf());
                        assert(self.view().contains_key(sv));
                        assert(self.view()[sv] == node.node_view());
                        assert(node.total <= self.insertions);
                    }
                    let total = node.total;
                    if total >= 2 {
                        let b = boost_twice(self.boosts, o);
                        let den: u128 = (total as u128) * 2;
                        let mut k: usize = 0;
                        proof {
                            assert(views(node.order@).take(0) =~= empty_done);
                        }
                        while k < node.order.len()
                            invariant
                                self.wf(),
                                ctx == views(context@),
                                n == context@.len(),
                                hi == top_query_order(self.max_order, n as nat),
                                2 <= o <= hi,
                                sv == suffix(ctx, o as int),
                                self.view().contains_key(sv),
                                self.view()[sv] == node.node_view(),
                                node.node_wf(),
                                node.total == total,
                                total >= 2,
                                total <= usize::MAX,
                                b == boost2(self.boosts, o as int),
                                den == total * 2,
                                k <= node.order@.len(),
                                self.collected(ctx, seen@, index@, o as int, views(node.order@).take(k as int)),
                                empty_done == Seq::<Seq<char>>::empty(),
                            decreases node.order@.len() - k,
                        {
                            let w = &node.order[k];
                            let ghost done = views(node.order@).take(k as int);
                            let ghost done2 = views(node.order@).take(k as int + 1);
                            let ghost wv = w@;
                            proof {
                                assert(done2 =~= done.push(wv));
                                assert(views(node.order@)[k as int] == wv);
                                assert(node.counts@.contains_key(wv));
                                lemma_count_le_sum(views(node.order@), node.counts@, wv);
                                assert(!done.contains(wv)) by {
                                    if done.contains(wv) {
                                        let x = choose|x: int| 0 <= x < done.len() && #[trigger] done[x] == wv;
                                        assert(views(node.order@)[x] == views(node.order@)[k as int]);
                                    }
                                }
                                assert(self.is_candidate(ctx, wv, o as int));
                            }
                            let count = match node.counts.get(w.as_str()) {
                                Some(c) => *c,
                                None => 0,
                            };
                            proof {
                                assert(b <= 14);
                                assert((count as u128) * b <= 14 * 0xffff_ffff_ffff_ffffu128) by (nonlinear_arith)
                                    requires
                                        b <= 14,
                                        count <= 0xffff_ffff_ffff_ffffu128,
                                ;
                            }
                            let cand = Candidate {
                                word: w.clone(),
                                score: Score { num: (count as u128) * b, den },
                                order: o,
                                count,
                            };
                            proof {
                                assert(cand.score == self.candidate_score(ctx, wv, o as int));
                                // Processing this word adds only its own prediction at this order.
                                assert forall|w2: Seq<char>, o2: int|
                                    #[trigger] self.processed(ctx, w2, o2, o as int, done2) == (self.processed(ctx, w2, o2, o as int, done) || (w2 == wv && o2 == o)) by {
                                    if o2 == o && done.contains(w2) {
                                        let x = choose|x: int| 0 <= x < done.len() && #[trigger] done[x] == w2;
                                        assert(done2[x] == w2);
                                    }
                                    if w2 == wv && o2 == o {
                                        assert(done2[k as int] == wv);
                                    }
                                    if o2 == o && done2.contains(w2) && !done.contains(w2) {
                                        let x = choose|x: int| 0 <= x < done2.len() && #[trigger] done2[x] == w2;
                                        if x < k {
                                            assert(done[x] == w2);
                                        }
                                        assert(x == k);
                                        assert(w2 == wv);
                                    }
                                }
                            }
                            match index.get(w.as_str()) {
                                Some(t) => {
                                    let t = *t;
                                    let ghost x = seen@[t as int];
                                    proof {
                                        assert(x.word@ == wv);
                                        assert(self.best_so_far(ctx, x, o as int, done));
                                        assert(x.order > o);
                                    }
                                    if score_less(seen[t].score, cand.score) {
                                        let ghost seen0 = seen@;
                                        seen.set(t, cand);
                                        proof {
                                            assert forall|o2: int| #[trigger] self.processed(ctx, wv, o2, o as int, done2)
                                                implies score_le(self.candidate_score(ctx, wv, o2), seen@[t as int].score)
                                                    && (score_eq(self.candidate_score(ctx, wv, o2), seen@[t as int].score) ==> o2 <= o) by {
                                                if o2 != o {
                                                    assert(self.processed(ctx, wv, o2, o as int, done));
                                                    let sc = self.candidate_score(ctx, wv, o2);
                                                    lemma_score_trans(sc, x.score, seen@[t as int].score);
                                                }
                                            }
                                            assert(self.best_so_far(ctx, seen@[t as int], o as int, done2));
                                            assert forall|t2: int| 0 <= t2 < seen@.len() implies self.best_so_far(ctx, #[trigger] seen@[t2], o as int, done2) by {
                                                if t2 != t {
                                                    assert(seen@[t2] == seen0[t2]);
                                                    assert(self.best_so_far(ctx, seen0[t2], o as int, done));
                                                    assert(seen0[t2].word@ != wv);
                                                }
                                            }
                                        }
                                    } else {
                                        proof {
                                            assert(score_le(cand.score, x.score));
                                            assert forall|t2: int| 0 <= t2 < seen@.len() implies self.best_so_far(ctx, #[trigger] seen@[t2], o as int, done2) by {
                                                assert(self.best_so_far(ctx, seen@[t2], o as int, done));
                                            }
                                        }
                                    }
                                },
                                None => {
                                    let len = seen.len();
                                    let ghost seen0 = seen@;
                                    let ghost index0 = index@;
                                    seen.push(cand);
                                    index.insert(w.clone(), len);
                                    proof {
                                        assert forall|o2: int| #[trigger] self.processed(ctx, wv, o2, o as int, done)
                                            implies false by {
                                        }
                                        assert forall|t2: int| 0 <= t2 < seen@.len() implies self.best_so_far(ctx, #[trigger] seen@[t2], o as int, done2) by {
                                            if t2 < len {
                                                assert(seen@[t2] == seen0[t2]);
                                                assert(self.best_so_far(ctx, seen0[t2], o as int, done));
                                                assert(seen0[t2].word@ != wv);
                                            }
                                        }
                                        assert forall|t2: int| 0 <= t2 < seen@.len() implies #[trigger] index@.contains_key(seen@[t2].word@) && index@[seen@[t2].word@] == t2 by {
                                            if t2 < len {
                                                assert(seen@[t2] == seen0[t2]);
                                                assert(index0.contains_key(seen0[t2].word@));
                                            }
                                        }
                                    }
                                },
                            }
                            k = k + 1;
                        }
                        proof {
                            assert(views(node.order@).take(k as int) =~= views(node.order@));
                            let full = views(node.order@);
                            assert forall|w: Seq<char>, o2: int| #[trigger] self.processed(ctx, w, o2, o - 1, empty_done)
                                == self.processed(ctx, w, o2, o as int, full) by {
                                if o2 == o && self.is_candidate(ctx, w, o2) {
                                    assert(node.counts@.contains_key(w));
                                }
                            }
                        }
                    } else {
                        proof {
                            assert(self.view()[sv] == node.node_view());
                            assert(node_total(self.view()[sv]) < 2);
                            assert forall|w: Seq<char>, o2: int| #[trigger] self.processed(ctx, w, o2, o - 1, empty_done)
                                == self.processed(ctx, w, o2, o as int, empty_done) by {
                            }
                            assert forall|t: int| 0 <= t < seen@.len() implies self.best_so_far(ctx, #[trigger] seen@[t], o - 1, empty_done) by {
                                assert(self.best_so_far(ctx, seen@[t], o as int, empty_done));
                            }
                        }
                    }
                },
            }
            o = o - 1;
        }
        proof {
            assert forall|t: int| 0 <= t < seen@.len() implies self.is_best(ctx, #[trigger] seen@[t]) by {
                assert(self.best_so_far(ctx, seen@[t], o as int, empty_done));
                assert forall|o2: int| #[trigger] self.is_candidate(ctx, seen@[t].word@, o2)
                    implies self.processed(ctx, seen@[t].word@, o2, o as int, empty_done) by {
                }
            }
            assert forall|t1: int, t2: int| 0 <= t1 < t2 < seen@.len() implies seen@[t1].word@ != seen@[t2].word@ by {
                assert(index@[seen@[t1].word@] == t1);
                assert(index@[seen@[t2].word@] == t2);
            }
            assert forall|w: Seq<char>, o2: int| #[trigger] self.is_candidate(ctx, w, o2) implies exists|t: int|
                0 <= t < seen@.len() && (#[trigger] seen@[t]).word@ == w by {
                assert(self.processed(ctx, w, o2, o as int, empty_done));
                let t = index@[w];
                assert(seen@[t as int].word@ == w);
            }
        }
        seen
    }

    /// The `max_results` best predictions of the word that follows `context`, best first.
    /// Every word that the last `o - 1` words of `context` were seen followed by, for each
    /// order `o` from 2 through the trie's limit whose context has at least two sightings,
    /// is scored by its count over the context's total times the order's multiplier; each
    /// word keeps its best score (of equal scores, the highest order). When more words
    /// are predicted than fit, those left out score no higher than any kept.
    pub fn get_candidates(&self, context: &[String], max_results: usize) -> (r: Vec<Candidate>)
        requires
            self.wf(),
        ensures
            r@.len() <= max_results,
            forall|t: int| 0 <= t < r@.len() ==> self.is_best(views(context@), #[trigger] r@[t]),
            forall|t: int| 0 <= t < r@.len() ==> (#[trigger] r@[t]).count >= 1,
            forall|t1: int, t2: int| 0 <= t1 < t2 < r@.len() ==> r@[t1].word@ != r@[t2].word@,
            forall|t1: int, t2: int|
                0 <= t1 < t2 < r@.len() ==> score_le(r@[t2].score, r@[t1].score),
            forall|w: Seq<char>, o: int|
                #[trigger] self.is_candidate(views(context@), w, o) && !lists_word(r@, w) ==> {
                    &&& r@.len() == max_results
                    &&& forall|t: int|
                        0 <= t < r@.len() ==> score_le(
                            self.candidate_score(views(context@), w, o),
                            #[trigger] r@[t].score,
                        )
                },
    {
        let ghost ctx = views(context@);
        let mut pool = self.gather(context);
        let mut out: Vec<Candidate> = Vec::new();
        proof {
            assert forall|w: Seq<char>, o: int| #[trigger] self.is_candidate(ctx, w, o) implies lists_word(out@, w)
                || lists_word(pool@, w) by {
                let t = choose|t: int| 0 <= t < pool@.len() && (#[trigger] pool@[t]).word@ == w;
                assert(pool@[t].word@ == w);
            }
        }
        while out.len() < max_results && pool.len() > 0
            invariant
                self.wf(),
                ctx == views(context@),
                out@.len() <= max_results,
                forall|t: int| 0 <= t < pool@.len() ==> self.is_best(ctx, #[trigger] pool@[t]),
                forall|t: int| 0 <= t < pool@.len() ==> (#[trigger] pool@[t]).score.den > 0,
                forall|t: int| 0 <= t < out@.len() ==> self.is_best(ctx, #[trigger] out@[t]),
                forall|t: int| 0 <= t < out@.len() ==> (#[trigger] out@[t]).score.den > 0,
                forall|t1: int, t2: int| 0 <= t1 < t2 < pool@.len() ==> pool@[t1].word@ != pool@[t2].word@,
                forall|t1: int, t2: int| 0 <= t1 < t2 < out@.len() ==> out@[t1].word@ != out@[t2].word@,
                forall|t1: int, t2: int|
                    0 <= t1 < out@.len() && 0 <= t2 < pool@.len() ==> out@[t1].word@ != pool@[t2].word@,
                forall|t1: int, t2: int|
                    0 <= t1 < t2 < out@.len() ==> score_le(out@[t2].score, out@[t1].score),
                forall|t1: int, t2: int|
                    0 <= t1 < out@.len() && 0 <= t2 < pool@.len() ==> score_le(
                        pool@[t2].score,
                        out@[t1].score,
                    ),
                forall|w: Seq<char>, o: int| #[trigger]
                    self.is_candidate(ctx, w, o) ==> lists_word(out@, w) || lists_word(pool@, w),
            decreases pool@.len(),
        {
            let mut bi: usize = 0;
            let mut i: usize = 1;
            while i < pool.len()
                invariant
                    0 < pool@.len(),
                    bi < i <= pool@.len(),
                    forall|t: int| 0 <= t < pool@.len() ==> (#[trigger] pool@[t]).score.den > 0,
                    forall|t: int| 0 <= t < i ==> score_le(#[trigger] pool@[t].score, pool@[bi as int].score),
                decreases pool@.len() - i,
            {
                if score_less(pool[bi].score, pool[i].score) {
                    proof {
                        assert forall|t: int| 0 <= t < i + 1 implies score_le(#[trigger] pool@[t].score, pool@[i as int].score) by {
                            if t < i {
                                lemma_score_trans(pool@[t].score, pool@[bi as int].score, pool@[i as int].score);
                            }
                        }
                    }
                    bi = i;
                }
                i = i + 1;
            }
            let ghost pool0 = pool@;
            let ghost out0 = out@;
            let last = pool.len() - 1;
            let c = pool.swap_remove(bi);
            out.push(c);
            proof {
                assert forall|j: int| 0 <= j < pool@.len() implies #[trigger] pool@[j] == pool0[if j == bi { last as int } else { j }] by {
                }
                assert forall|t1: int, t2: int| 0 <= t1 < t2 < pool@.len() implies pool@[t1].word@ != pool@[t2].word@ by {
                    assert(pool@[t1] == pool0[if t1 == bi { last as int } else { t1 }]);
                    assert(pool@[t2] == pool0[if t2 == bi { last as int } else { t2 }]);
                }
                assert forall|t: int| 0 <= t < pool@.len() implies self.is_best(ctx, #[trigger] pool@[t]) && pool@[t].score.den > 0 by {
                    assert(pool@[t] == pool0[if t == bi { last as int } else { t }]);
                }
                assert forall|t: int| 0 <= t < out@.len() implies self.is_best(ctx, #[trigger] out@[t]) && out@[t].score.den > 0 by {
                    if t < out0.len() {
                        assert(out@[t] == out0[t]);
                    }
                }
                assert forall|t1: int, t2: int| 0 <= t1 < t2 < out@.len() implies out@[t1].word@ != out@[t2].word@ by {
                    assert(out@[t1] == out0[t1]);
                    if t2 < out0.len() {
                        assert(out@[t2] == out0[t2]);
                    }
                }
                assert forall|t1: int, t2: int|
                    0 <= t1 < out@.len() && 0 <= t2 < pool@.len() implies out@[t1].word@ != pool@[t2].word@ by {
                    let j = if t2 == bi { last as int } else { t2 };
                    assert(pool@[t2] == pool0[j]);
                    if t1 < out0.len() {
                        assert(out@[t1] == out0[t1]);
                    }
                }
                assert forall|t1: int, t2: int| 0 <= t1 < t2 < out@.len() implies score_le(out@[t2].score, out@[t1].score) by {
                    assert(out@[t1] == out0[t1]);
                    if t2 < out0.len() {
                        assert(out@[t2] == out0[t2]);
                    }
                }
                assert forall|t1: int, t2: int|
                    0 <= t1 < out@.len() && 0 <= t2 < pool@.len() implies score_le(pool@[t2].score, out@[t1].score) by {
                    let j = if t2 == bi { last as int } else { t2 };
                    assert(pool@[t2] == pool0[j]);
                    if t1 < out0.len() {
                        assert(out@[t1] == out0[t1]);
                    }
                }
                assert forall|w: Seq<char>, o: int| #[trigger] self.is_candidate(ctx, w, o) implies lists_word(out@, w)
                    || lists_word(pool@, w) by {
                    if lists_word(out0, w) {
                        let t = choose|t: int| 0 <= t < out0.len() && (#[trigger] out0[t]).word@ == w;
                        assert(out@[t] == out0[t]);
                    } else {
                        let t = choose|t: int| 0 <= t < pool0.len() && (#[trigger] pool0[t]).word@ == w;
                        if t == bi {
                            assert(out@[out0.len() as int] == pool0[t]);
                        } else if t == last {
                            assert(pool@[bi as int] == pool0[t]);
                        } else {
                            assert(pool@[t] == pool0[t]);
                        }
                    }
                }
            }
        }
        proof {
            assert forall|w: Seq<char>, o: int| #[trigger] self.is_candidate(ctx, w, o) && !lists_word(out@, w) implies {
                &&& out@.len() == max_results
                &&& forall|t: int| 0 <= t < out@.len() ==> score_le(self.candidate_score(ctx, w, o), #[trigger] out@[t].score)
            } by {
                let t2 = choose|t: int| 0 <= t < pool@.len() && (#[trigger] pool@[t]).word@ == w;
                assert(self.is_best(ctx, pool@[t2]));
                assert forall|t: int| 0 <= t < out@.len() implies score_le(self.candidate_score(ctx, w, o), #[trigger] out@[t].score) by {
                    assert(score_le(pool@[t2].score, out@[t].score));
                    assert(self.candidate_score(ctx, w, o).den > 0);
                    lemma_score_trans(self.candidate_score(ctx, w, o), pool@[t2].score, out@[t].score);
                }
            }
        }
        proof {
            assert forall|t: int| 0 <= t < out@.len() implies (#[trigger] out@[t]).count >= 1 by {
                assert(self.is_best(ctx, out@[t]));
                self.lemma_counts_positive(suffix(ctx, out@[t].order as int), out@[t].word@);
            }
        }
        out
    }

    /// The index of the node for the context `path`, if the trie holds it.
    fn find_node(&self, path: &[String]) -> (r: Option<usize>)
        requires
            self.wf(),
        ensures
            match r {
                Some(i) => node_at(self.nodes@, views(path@)) == Some(i as int) && i
                    < self.nodes@.len(),
                None => node_at(self.nodes@, views(path@)) is None,
            },
    {
        let mut cur: usize = 0;
        let mut k: usize = 0;
        assert(views(path@).take(0) =~= Seq::<Seq<char>>::empty());
        while k < path.len()
            invariant
                self.wf(),
                k <= path@.len(),
                node_at(self.nodes@, views(path@).take(k as int)) == Some(cur as int),
                cur < self.nodes@.len(),
            decreases path@.len() - k,
        {
            proof {
                assert(views(path@).take(k as int + 1).drop_last() =~= views(path@).take(k as int));
            }
            match self.nodes[cur].children.get(path[k].as_str()) {
                Some(child) => {
                    cur = *child;
                    k = k + 1;
                },
                None => {
                    proof {
                        lemma_node_at_none_extends(
                            self.nodes@,
                            views(path@).take(k as int + 1),
                            views(path@),
                        );
                    }
                    return None;
                },
            }
        }
        assert(views(path@).take(k as int) =~= views(path@));
        Some(cur)
    }

    /// The words seen after `context`, each with its count, in the order first seen; `None`
    /// when the trie holds no such context.
    pub fn get_continuations(&self, context: &[String]) -> (r: Option<Vec<(String, usize)>>)
        requires
            self.wf(),
        ensures
            match r {
                Some(v) => self.view().contains_key(views(context@)) && {
                    let nv = self.view()[views(context@)];
                    &&& v@.len() == nv.order.len()
                    &&& forall|i: int|
                        0 <= i < v@.len() ==> (#[trigger] v@[i]).0@ == nv.order[i] && v@[i].1
                            == nv.counts[nv.order[i]]
                },
                None => !self.view().contains_key(views(context@)),
            },
    {
        match self.find_node(context) {
            None => None,
            Some(i) => {
                let node = &self.nodes[i];
                proof {
                    assert(node.node_wf());
                }
                let mut out: Vec<(String, usize)> = Vec::new();
                let mut j: usize = 0;
                while j < node.order.len()
                    invariant
                        node.node_wf(),
                        j <= node.order@.len(),
                        out@.len() == j,
                        forall|m: int|
                            0 <= m < j ==> (#[trigger] out@[m]).0@ == node.order@[m]@ && out@[m].1
                                == node.counts@[node.order@[m]@],
                    decreases node.order@.len() - j,
                {
                    let w = node.order[j].clone();
                    proof {
                        assert(views(node.order@)[j as int] == node.order@[j as int]@);
                        assert(node.counts@.contains_key(node.order@[j as int]@));
                    }
                    let c = match node.counts.get(w.as_str()) {
                        Some(c) => *c,
                        None => 0,
                    };
                    out.push((w, c));
                    j = j + 1;
                }
                Some(out)
            },
        }
    }

    /// The example phrases stored for `context`; `None` when the trie holds no such context.
    pub fn get_contexts(&self, context: &[String]) -> (r: Option<Vec<String>>)
        requires
            self.wf(),
        ensures
            match r {
                Some(v) => self.view().contains_key(views(context@)) && views(v@)
                    == self.view()[views(context@)].contexts,
                None => !self.view().contains_key(views(context@)),
            },
    {
        match self.find_node(context) {
            None => None,
            Some(i) => {
                let node = &self.nodes[i];
                let mut out: Vec<String> = Vec::new();
                let mut j: usize = 0;
                while j < node.contexts.len()
                    invariant
                        j <= node.contexts@.len(),
                        views(out@) == views(node.contexts@).take(j as int),
                    decreases node.contexts@.len() - j,
                {
                    let c = node.contexts[j].clone();
                    let ghost before = out@;
                    out.push(c);
                    proof {
                        assert(out@ =~= before.push(c));
                        assert(views(before.push(c)) =~= views(before).push(c@));
                        assert(views(node.contexts@).take(j as int + 1) =~= views(node.contexts@).take(
                            j as int,
                        ).push(node.contexts@[j as int]@));
                    }
                    j = j + 1;
                }
                assert(views(node.contexts@).take(j as int) =~= views(node.contexts@));
                Some(out)
            },
        }
    }
}

/// In a trie of one node without children, only the empty path leads anywhere.
proof fn lemma_single_node(nodes: Seq<TrieNode>, p: Seq<Seq<char>>)
    requires
        nodes.len() == 1,
        nodes[0].children@ == Map::<Seq<char>, usize>::empty(),
    ensures
        node_at(nodes, p) == if p.len() == 0 {
            Some(0int)
        } else {
            None::<int>
        },
    decreases p.len(),
{
    if p.len() > 0 {
        lemma_single_node(nodes, p.drop_last());
    }
}

/// A non-empty path leads somewhere only through its parent.
proof fn lemma_node_at_prefix(nodes: Seq<TrieNode>, p: Seq<Seq<char>>)
    requires
        p.len() > 0,
    ensures
        node_at(nodes, p) is Some ==> node_at(nodes, p.drop_last()) is Some,
{
}

/// A path that leads nowhere has no extension that leads somewhere.
proof fn lemma_node_at_none_extends(nodes: Seq<TrieNode>, p: Seq<Seq<char>>, q: Seq<Seq<char>>)
    requires
        node_at(nodes, p) is None,
        p.len() <= q.len(),
        q.take(p.len() as int) == p,
    ensures
        node_at(nodes, q) is None,
    decreases q.len() - p.len(),
{
    if q.len() > p.len() {
        assert(q.drop_last().take(p.len() as int) =~= p);
        lemma_node_at_none_extends(nodes, p, q.drop_last());
    } else {
        assert(q =~= p);
    }
}

/// Extending a prefix of `ctx` by one word: the prefixes of `ctx.take(k + 1)` are those of
/// `ctx.take(k)` and `ctx.take(k + 1)` itself.
proof fn lemma_prefix_step(p: Seq<Seq<char>>, ctx: Seq<Seq<char>>, k: int)
    requires
        0 <= k < ctx.len(),
    ensures
        is_prefix_of(p, ctx.take(k + 1)) == (is_prefix_of(p, ctx.take(k)) || p == ctx.take(k + 1)),
{
    if is_prefix_of(p, ctx.take(k + 1)) && p != ctx.take(k + 1) {
        if p.len() == k + 1 {
            assert(ctx.take(k + 1).take(k + 1) =~= ctx.take(k + 1));
        }
        assert(p.len() <= k);
        assert(ctx.take(k).take(p.len() as int) =~= ctx.take(k + 1).take(p.len() as int));
    }
    if is_prefix_of(p, ctx.take(k)) {
        assert(ctx.take(k + 1).take(p.len() as int) =~= ctx.take(k).take(p.len() as int));
    }
    if p == ctx.take(k + 1) {
        assert(ctx.take(k + 1).take(k + 1) =~= ctx.take(k + 1));
    }
}

/// Adding a new empty node `n` as the child of `cur` along the path `q` makes `q` lead to
/// `n` and leaves every other path where it led.
proof fn lemma_edge_added(
    nodes0: Seq<TrieNode>,
    paths0: Seq<Seq<Seq<char>>>,
    nodes: Seq<TrieNode>,
    cur: int,
    q: Seq<Seq<char>>,
    n: int,
)
    requires
        q.len() > 0,
        n == nodes0.len(),
        n <= usize::MAX,
        0 <= cur < n,
        paths0.len() == nodes0.len(),
        node_at(nodes0, q.drop_last()) == Some(cur),
        !nodes0[cur].children@.contains_key(q.last()),
        nodes.len() == n + 1,
        nodes[n].children@ == Map::<Seq<char>, usize>::empty(),
        nodes[cur].children@ == nodes0[cur].children@.insert(q.last(), n as usize),
        forall|i: int| 0 <= i < n && i != cur ==> #[trigger] nodes[i].children@ == nodes0[i].children@,
        forall|i: int| 0 <= i < n ==> #[trigger] nodes[i].node_view() == nodes0[i].node_view(),
        forall|p: Seq<Seq<char>>| #[trigger]
            node_at(nodes0, p) is Some ==> {
                let i = node_at(nodes0, p)->0;
                0 <= i < nodes0.len() && p == paths0[i]
            },
    ensures
        forall|p: Seq<Seq<char>>| #[trigger]
            node_at(nodes, p) == if p == q {
                Some(n)
            } else {
                node_at(nodes0, p)
            },
{
    assert forall|p: Seq<Seq<char>>| #[trigger]
        node_at(nodes, p) == if p == q {
            Some(n)
        } else {
            node_at(nodes0, p)
        } by {
        lemma_edge_added_at(nodes0, paths0, nodes, cur, q, n, p);
    }
}

proof fn lemma_edge_added_at(
    nodes0: Seq<TrieNode>,
    paths0: Seq<Seq<Seq<char>>>,
    nodes: Seq<TrieNode>,
    cur: int,
    q: Seq<Seq<char>>,
    n: int,
    p: Seq<Seq<char>>,
)
    requires
        q.len() > 0,
        n == nodes0.len(),
        n <= usize::MAX,
        0 <= cur < n,
        paths0.len() == nodes0.len(),
        node_at(nodes0, q.drop_last()) == Some(cur),
        !nodes0[cur].children@.contains_key(q.last()),
        nodes.len() == n + 1,
        nodes[n].children@ == Map::<Seq<char>, usize>::empty(),
        nodes[cur].children@ == nodes0[cur].children@.insert(q.last(), n as usize),
        forall|i: int| 0 <= i < n && i != cur ==> #[trigger] nodes[i].children@ == nodes0[i].children@,
        forall|p: Seq<Seq<char>>| #[trigger]
            node_at(nodes0, p) is Some ==> {
                let i = node_at(nodes0, p)->0;
                0 <= i < nodes0.len() && p == paths0[i]
            },
    ensures
        node_at(nodes, p) == if p == q {
            Some(n)
        } else {
            node_at(nodes0, p)
        },
    decreases p.len(),
{
    if p.len() > 0 {
        let pd = p.drop_last();
        lemma_edge_added_at(nodes0, paths0, nodes, cur, q, n, pd);
        if pd == q {
            assert(node_at(nodes0, q) is None);
        } else {
            match node_at(nodes0, pd) {
                Some(j) => {
                    if j == cur {
                        assert(pd == paths0[cur]);
                        assert(q.drop_last() == paths0[cur]);
                        if p.last() == q.last() {
                            assert(p =~= pd.push(p.last()));
                            assert(q =~= q.drop_last().push(q.last()));
                            assert(p =~= q);
                        }
                    }
                },
                None => {
                },
            }
        }
    }
}

/// Paths lead to the same nodes in two tries whose nodes have the same children.
proof fn lemma_same_children(nodes0: Seq<TrieNode>, nodes: Seq<TrieNode>)
    requires
        nodes.len() == nodes0.len(),
        forall|i: int| 0 <= i < nodes.len() ==> #[trigger] nodes[i].children@ == nodes0[i].children@,
    ensures
        forall|p: Seq<Seq<char>>| #[trigger] node_at(nodes, p) == node_at(nodes0, p),
{
    assert forall|p: Seq<Seq<char>>| #[trigger] node_at(nodes, p) == node_at(nodes0, p) by {
        lemma_same_children_at(nodes0, nodes, p);
    }
}

proof fn lemma_same_children_at(nodes0: Seq<TrieNode>, nodes: Seq<TrieNode>, p: Seq<Seq<char>>)
    requires
        nodes.len() == nodes0.len(),
        forall|i: int| 0 <= i < nodes.len() ==> #[trigger] nodes[i].children@ == nodes0[i].children@,
    ensures
        node_at(nodes, p) == node_at(nodes0, p),
    decreases p.len(),
{
    if p.len() > 0 {
        lemma_same_children_at(nodes0, nodes, p.drop_last());
    }
}

/// A word's count is at most the sum of the counts.
proof fn lemma_count_le_sum(ws: Seq<Seq<char>>, m: Map<Seq<char>, usize>, w: Seq<char>)
    requires
        ws.contains(w),
    ensures
        m[w] <= sum_counts(ws, m),
    decreases ws.len(),
{
    if ws.last() != w {
        assert(ws.drop_last().contains(w)) by {
            let j = choose|j: int| 0 <= j < ws.len() && ws[j] == w;
            assert(ws.drop_last()[j] == w);
        }
        lemma_count_le_sum(ws.drop_last(), m, w);
    }
}

/// Counting one more of a word that occurs once raises the sum by one.
proof fn lemma_sum_bump(ws: Seq<Seq<char>>, m: Map<Seq<char>, usize>, w: Seq<char>)
    requires
        ws.contains(w),
        ws.no_duplicates(),
        m[w] < usize::MAX,
    ensures
        sum_counts(ws, m.insert(w, (m[w] + 1) as usize)) == sum_counts(ws, m) + 1,
    decreases ws.len(),
{
    let j = choose|j: int| 0 <= j < ws.len() && ws[j] == w;
    if ws.last() == w {
        assert(!ws.drop_last().contains(w)) by {
            if ws.drop_last().contains(w) {
                let i = choose|i: int| 0 <= i < ws.drop_last().len() && ws.drop_last()[i] == w;
                assert(ws[i] == ws[ws.len() - 1]);
            }
        }
        lemma_sum_frame(ws.drop_last(), m, w, (m[w] + 1) as usize);
    } else {
        assert(ws.drop_last()[j] == w);
        assert(ws.drop_last().no_duplicates());
        lemma_sum_bump(ws.drop_last(), m, w);
    }
}

/// Changing the count of a word that does not occur leaves the sum as it was.
proof fn lemma_sum_frame(ws: Seq<Seq<char>>, m: Map<Seq<char>, usize>, w: Seq<char>, c: usize)
    requires
        !ws.contains(w),
    ensures
        sum_counts(ws, m.insert(w, c)) == sum_counts(ws, m),
    decreases ws.len(),
{
    if ws.len() > 0 {
        assert(!ws.drop_last().contains(w)) by {
            if ws.drop_last().contains(w) {
                let i = choose|i: int| 0 <= i < ws.drop_last().len() && ws.drop_last()[i] == w;
                assert(ws[i] == w);
            }
        }
        assert(ws.last() != w) by {
            assert(ws[ws.len() - 1] == ws.last());
        }
        lemma_sum_frame(ws.drop_last(), m, w, c);
    }
}

/// What the contexts `m` hold for `ctx`: its contents, or nothing if `ctx` is absent.
pub open spec fn held(m: Map<Seq<Seq<char>>, NodeView>, ctx: Seq<Seq<char>>) -> NodeView {
    if m.contains_key(ctx) {
        m[ctx]
    } else {
        empty_node_view()
    }
}

/// How many sightings in `l` are of `w` after `ctx`.
pub open spec fn times_seen(l: Seq<Sighting>, ctx: Seq<Seq<char>>, w: Seq<char>) -> nat
    decreases l.len(),
{
    if l.len() == 0 {
        0
    } else {
        times_seen(l.drop_last(), ctx, w) + if l.last().0 == ctx && l.last().1 == w {
            1nat
        } else {
            0nat
        }
    }
}

/// Recording that `w` followed `ctx` makes the context `ctx` and each of its prefixes
/// present, counts `w` once more after `ctx`, appends `w` to the words of `ctx` when it is
/// new there, and leaves every other count and every other context as it was.
pub proof fn lemma_insert_counts(
    m: Map<Seq<Seq<char>>, NodeView>,
    ctx: Seq<Seq<char>>,
    w: Seq<char>,
    full: Option<Seq<char>>,
    p: Seq<Seq<char>>,
    w2: Seq<char>,
)
    requires
        count_in(held(m, ctx), w) < usize::MAX,
    ensures
        ({
            let m2 = insert_view(m, ctx, w, full);
            &&& m2.contains_key(ctx)
            &&& is_prefix_of(p, ctx) ==> m2.contains_key(p)
            &&& m.contains_key(p) ==> m2.contains_key(p)
            &&& m2.contains_key(p) ==> m.contains_key(p) || is_prefix_of(p, ctx)
            &&& p != ctx ==> held(m2, p) == held(m, p)
            &&& count_in(held(m2, ctx), w) == count_in(held(m, ctx), w) + 1
            &&& w2 != w ==> count_in(held(m2, ctx), w2) == count_in(held(m, ctx), w2)
            &&& held(m2, ctx).order == if held(m, ctx).counts.contains_key(w) {
                held(m, ctx).order
            } else {
                held(m, ctx).order.push(w)
            }
        }),
{
    let m1 = with_prefixes(m, ctx);
    assert(is_prefix_of(ctx, ctx)) by {
        assert(ctx.take(ctx.len() as int) =~= ctx);
    }
    assert(m1.contains_key(ctx));
    assert(m1[ctx] == held(m, ctx));
}

/// Recording a list of sightings counts each word after each context exactly as often as
/// the list holds that sighting.
pub proof fn lemma_sightings_counted(
    m: Map<Seq<Seq<char>>, NodeView>,
    l: Seq<Sighting>,
    ctx: Seq<Seq<char>>,
    w: Seq<char>,
)
    requires
        count_in(held(m, ctx), w) + times_seen(l, ctx, w) <= usize::MAX,
    ensures
        count_in(held(apply_sightings(m, l), ctx), w) == count_in(held(m, ctx), w) + times_seen(
            l,
            ctx,
            w,
        ),
    decreases l.len(),
{
    if l.len() > 0 {
        let x = l.last();
        lemma_sightings_counted(m, l.drop_last(), ctx, w);
        let m1 = apply_sightings(m, l.drop_last());
        if x.0 == ctx && x.1 == w {
            lemma_insert_counts(m1, x.0, x.1, x.2, ctx, w);
        } else if x.0 == ctx {
            if count_in(held(m1, x.0), x.1) < usize::MAX {
                lemma_insert_counts(m1, x.0, x.1, x.2, ctx, w);
            } else {
                let m2 = insert_view(m1, x.0, x.1, x.2);
                let v = with_prefixes(m1, x.0)[x.0];
                assert(with_prefixes(m1, x.0).contains_key(x.0)) by {
                    assert(x.0.take(x.0.len() as int) =~= x.0);
                }
                assert(m2[ctx] == bump(v, x.1, x.2));
                assert(held(m2, ctx).counts == v.counts.insert(x.1, (count_in(v, x.1) + 1) as usize));
            }
        } else {
            let m2 = insert_view(m1, x.0, x.1, x.2);
            assert(held(m2, ctx) == held(m1, ctx));
        }
    }
}

/// In a well-formed trie, every context that is present has each of its prefixes present.
pub proof fn lemma_prefix_closed(t: NgramTrie, p: Seq<Seq<char>>, q: Seq<Seq<char>>)
    requires
        t.wf(),
        t.view().contains_key(p),
        is_prefix_of(q, p),
    ensures
        t.view().contains_key(q),
    decreases p.len(),
{
    if q.len() < p.len() {
        lemma_node_at_prefix(t.nodes@, p);
        assert(p.drop_last().take(q.len() as int) =~= p.take(q.len() as int));
        lemma_prefix_closed(t, p.drop_last(), q);
    } else {
        assert(p.take(p.len() as int) =~= p);
    }
}

/// In a well-formed trie, no context keeps more than five examples, and no count exceeds
/// the context's total, which does not exceed the number of sightings recorded.
pub proof fn lemma_node_bounds(t: NgramTrie, p: Seq<Seq<char>>, w: Seq<char>)
    requires
        t.wf(),
        t.view().contains_key(p),
    ensures
        t.view()[p].contexts.len() <= 5,
        count_in(t.view()[p], w) <= node_total(t.view()[p]),
        node_total(t.view()[p]) <= t.recorded(),
{
    let i = node_at(t.nodes@, p)->0;
    t.lemma_path_index(p);
    let nd = t.nodes@[i];
    assert(nd.node_wf());
    if nd.counts@.contains_key(w) {
        lemma_count_le_sum(views(nd.order@), nd.counts@, w);
    }
    assert(views(nd.contexts@).len() == nd.contexts@.len());
}

/// Recording one list of sightings and then another is recording the two one after the
/// other.
pub proof fn lemma_apply_concat(m: Map<Seq<Seq<char>>, NodeView>, l1: Seq<Sighting>, l2: Seq<Sighting>)
    ensures
        apply_sightings(apply_sightings(m, l1), l2) == apply_sightings(m, l1 + l2),
    decreases l2.len(),
{
    if l2.len() == 0 {
        assert(l1 + l2 =~= l1);
    } else {
        lemma_apply_concat(m, l1, l2.drop_last());
        assert((l1 + l2).drop_last() =~= l1 + l2.drop_last());
        assert((l1 + l2).last() == l2.last());
    }
}

/// A trie that has recorded `r0` sightings and then records what room there is of `l1`
/// and then of `l2` ends as one that records what room there is of `l1` and `l2` together.
pub proof fn lemma_room_concat(
    m: Map<Seq<Seq<char>>, NodeView>,
    r0: nat,
    l1: Seq<Sighting>,
    l2: Seq<Sighting>,
)
    requires
        r0 <= usize::MAX,
    ensures
        ({
            let k1 = room(r0, l1.len());
            let k2 = room(r0 + k1, l2.len());
            let k = room(r0, (l1 + l2).len());
            &&& apply_sightings(apply_sightings(m, l1.take(k1 as int)), l2.take(k2 as int))
                == apply_sightings(m, (l1 + l2).take(k as int))
            &&& r0 + k1 + k2 == r0 + k
        }),
{
    let k1 = room(r0, l1.len());
    let k2 = room(r0 + k1, l2.len());
    let k = room(r0, (l1 + l2).len());
    if r0 + l1.len() <= usize::MAX {
        assert(k1 == l1.len());
        assert(k == l1.len() + k2);
        assert((l1 + l2).take(k as int) =~= l1.take(k1 as int) + l2.take(k2 as int));
        lemma_apply_concat(m, l1.take(k1 as int), l2.take(k2 as int));
    } else {
        assert(k2 == 0);
        assert(k == k1);
        assert(l2.take(0) =~= Seq::<Sighting>::empty());
        assert((l1 + l2).take(k as int) =~= l1.take(k1 as int));
    }
}

/// Whether `t` is the boundary marker `<MSG>`.
fn is_marker(t: &String) -> (r: bool)
    ensures
        r == (t@ == marker()),
{
    let cs = crate::text::chars_of(t.as_str());
    let r = cs.len() == 5 && cs[0] == '<' && cs[1] == 'M' && cs[2] == 'S' && cs[3] == 'G' && cs[4] == '>';
    proof {
        if cs@.len() == 5 && cs@[0] == '<' && cs@[1] == 'M' && cs@[2] == 'S' && cs@[3] == 'G' && cs@[4] == '>' {
            assert(cs@ =~= marker());
        }
    }
    r
}

/// Recording one more sighting extends the recorded list by it while there is room.
proof fn lemma_apply_push(v0: Map<Seq<Seq<char>>, NodeView>, r0: nat, d: Seq<Sighting>, x: Sighting)
    ensures
        ({
            let k = room(r0, d.len());
            let k2 = room(r0, d.push(x).len());
            &&& r0 + k < usize::MAX ==> k2 == k + 1 && apply_sightings(v0, d.push(x).take(k2 as int))
                == insert_view(apply_sightings(v0, d.take(k as int)), x.0, x.1, x.2)
            &&& r0 + k >= usize::MAX ==> k2 == k && d.push(x).take(k2 as int) == d.take(k as int)
        }),
{
    let k = room(r0, d.len());
    let k2 = room(r0, d.push(x).len());
    if r0 + k < usize::MAX {
        assert(k == d.len());
        assert(d.push(x).take(k2 as int) =~= d.push(x));
        assert(d.take(k as int) =~= d);
        assert(d.push(x).drop_last() =~= d);
    } else {
        assert(d.push(x).take(k2 as int) =~= d.take(k as int));
    }
}

/// No context of `m` has the boundary marker among its words, and no context has seen it
/// next.
pub open spec fn marker_free(m: Map<Seq<Seq<char>>, NodeView>) -> bool {
    forall|p: Seq<Seq<char>>| #[trigger]
        m.contains_key(p) ==> !p.contains(marker()) && !m[p].counts.contains_key(marker())
}

/// None of the sightings `l` has the boundary marker in its context or as its next word.
pub open spec fn marker_free_sightings(l: Seq<Sighting>) -> bool {
    forall|i: int| 0 <= i < l.len() ==> !(#[trigger] l[i]).0.contains(marker()) && l[i].1 != marker()
}

proof fn lemma_marker_free_concat(a: Seq<Sighting>, b: Seq<Sighting>)
    requires
        marker_free_sightings(a),
        marker_free_sightings(b),
    ensures
        marker_free_sightings(a + b),
{
    assert forall|i: int| 0 <= i < (a + b).len() implies !(#[trigger] (a + b)[i]).0.contains(marker())
        && (a + b)[i].1 != marker() by {
        if i < a.len() {
            assert((a + b)[i] == a[i]);
        } else {
            assert((a + b)[i] == b[i - a.len()]);
        }
    }
}

proof fn lemma_sightings_from_marker_free(ts: Seq<Seq<char>>, i: int, hi: int, examples: bool)
    ensures
        marker_free_sightings(sightings_from(ts, i, hi, examples)),
    decreases hi,
{
    if hi >= 2 {
        lemma_sightings_from_marker_free(ts, i, hi - 1, examples);
        lemma_marker_free_concat(sightings_from(ts, i, hi - 1, examples), sighting_at(ts, i, hi, examples));
    }
}

proof fn lemma_sightings_before_marker_free(ts: Seq<Seq<char>>, n: int, max_order: int, examples: bool)
    ensures
        marker_free_sightings(sightings_before(ts, n, max_order, examples)),
    decreases n,
{
    if n > 0 {
        lemma_sightings_before_marker_free(ts, n - 1, max_order, examples);
        lemma_sightings_from_marker_free(ts, n - 1, top_order(ts, n - 1, max_order), examples);
        lemma_marker_free_concat(
            sightings_before(ts, n - 1, max_order, examples),
            sightings_from(ts, n - 1, top_order(ts, n - 1, max_order), examples),
        );
    }
}

/// Recording one sighting without the marker keeps the marker out of the trie.
proof fn lemma_insert_marker_free(
    m: Map<Seq<Seq<char>>, NodeView>,
    ctx: Seq<Seq<char>>,
    w: Seq<char>,
    full: Option<Seq<char>>,
)
    requires
        marker_free(m),
        !ctx.contains(marker()),
        w != marker(),
    ensures
        marker_free(insert_view(m, ctx, w, full)),
{
    let m2 = with_prefixes(m, ctx);
    assert forall|p: Seq<Seq<char>>| #[trigger] m2.contains_key(p) implies !p.contains(marker())
        && !m2[p].counts.contains_key(marker()) by {
        if !m.contains_key(p) {
            assert(is_prefix_of(p, ctx));
            if p.contains(marker()) {
                let j = choose|j: int| 0 <= j < p.len() && p[j] == marker();
                assert(p[j] == ctx.take(p.len() as int)[j]);
                assert(ctx[j] == marker());
            }
            assert(m2[p] == empty_node_view());
        }
    }
    let r = insert_view(m, ctx, w, full);
    assert forall|p: Seq<Seq<char>>| #[trigger] r.contains_key(p) implies !p.contains(marker())
        && !r[p].counts.contains_key(marker()) by {
        if p == ctx {
            assert(m2.contains_key(ctx)) by {
                assert(ctx.take(ctx.len() as int) =~= ctx);
            }
        } else {
            assert(m2.contains_key(p));
        }
    }
}

/// Recording sightings without the marker keeps the marker out of the trie.
proof fn lemma_apply_marker_free(m: Map<Seq<Seq<char>>, NodeView>, l: Seq<Sighting>)
    requires
        marker_free(m),
        marker_free_sightings(l),
    ensures
        marker_free(apply_sightings(m, l)),
    decreases l.len(),
{
    if l.len() > 0 {
        let d = l.drop_last();
        assert forall|i: int| 0 <= i < d.len() implies !(#[trigger] d[i]).0.contains(marker()) && d[i].1
            != marker() by {
            assert(d[i] == l[i]);
        }
        lemma_apply_marker_free(m, d);
        let x = l.last();
        assert(x == l[l.len() - 1]);
        lemma_insert_marker_free(apply_sightings(m, d), x.0, x.1, x.2);
    }
}

/// The boundary marker never enters the trie: recording the sightings of any tokens (as
/// `insert_sequence` and `insert_tokens` do, as many as a trie that has recorded
/// `recorded` has room for) into a trie without the marker leaves no context with the
/// marker among its words and no context that has seen the marker next.
pub proof fn lemma_marker_never_recorded(
    m: Map<Seq<Seq<char>>, NodeView>,
    ts: Seq<Seq<char>>,
    max_order: int,
    examples: bool,
    recorded: nat,
)
    requires
        marker_free(m),
    ensures
        ({
            let l = sightings(ts, max_order, examples);
            marker_free(apply_sightings(m, l.take(room(recorded, l.len()) as int)))
        }),
{
    let l = sightings(ts, max_order, examples);
    let k = room(recorded, l.len()) as int;
    assert(0 <= k <= l.len());
    if ts.len() >= 2 {
        lemma_sightings_before_marker_free(ts, ts.len() - 1, max_order, examples);
    }
    let t = l.take(k);
    assert forall|i: int| 0 <= i < t.len() implies !(#[trigger] t[i]).0.contains(marker()) && t[i].1
        != marker() by {
        assert(t[i] == l[i]);
    }
    lemma_apply_marker_free(m, t);
}

/// A sequence of fewer than two tokens records nothing: no sightings, no room taken, and
/// the trie's contexts stay as they were.
pub proof fn lemma_short_sequence_records_nothing(
    m: Map<Seq<Seq<char>>, NodeView>,
    ts: Seq<Seq<char>>,
    max_order: int,
    examples: bool,
    recorded: nat,
)
    requires
        ts.len() < 2,
    ensures
        sightings(ts, max_order, examples).len() == 0,
        room(recorded, 0) == 0,
        apply_sightings(m, sightings(ts, max_order, examples).take(0)) == m,
{
    assert(sightings(ts, max_order, examples).take(0).len() == 0);
}

} // verus!
