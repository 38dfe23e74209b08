//! The in-memory n-gram cache: conversations are tokenized and their n-grams recorded in a
//! trie, one conversation after another, until the estimated memory use reaches its limit.
use vstd::prelude::*;
use crate::corpus::{CorpusView, DiskCorpus, MessageView};
use crate::text::views;
use crate::tokens::{tokenize, tokens};
use crate::trie::{
    NgramTrie, NodeView, Sighting, apply_sightings, empty_node_view, lemma_room_concat, room,
    sightings, BoostTable,
};

verus! {

/// The memory estimate, in MB, after `t` tokens: 200 bytes for every ten tokens, at least 1.
pub open spec fn ram_estimate(t: nat) -> nat {
    let mb = (t / 10) * 200 / (1024 * 1024);
    if mb >= 1 {
        mb
    } else {
        1
    }
}

/// The tokens of the messages `ms`, counted.
pub open spec fn message_tokens(ms: Seq<MessageView>) -> nat
    decreases ms.len(),
{
    if ms.len() == 0 {
        0
    } else {
        message_tokens(ms.drop_last()) + tokens(ms.last().text).len()
    }
}

/// The sightings of the messages `ms`, message after message.
pub open spec fn message_sightings(ms: Seq<MessageView>, max_order: int) -> Seq<Sighting>
    decreases ms.len(),
{
    if ms.len() == 0 {
        seq![]
    } else {
        message_sightings(ms.drop_last(), max_order) + sightings(
            tokens(ms.last().text),
            max_order,
            true,
        )
    }
}

/// The tokens of the first `k` conversations of `cs`, counted.
pub open spec fn corpora_tokens(cs: Seq<CorpusView>, k: int) -> nat
    decreases k,
{
    if k <= 0 {
        0
    } else {
        corpora_tokens(cs, k - 1) + message_tokens(cs[k - 1].messages)
    }
}

/// The messages of the first `k` conversations of `cs`, counted.
pub open spec fn corpora_messages(cs: Seq<CorpusView>, k: int) -> nat
    decreases k,
{
    if k <= 0 {
        0
    } else {
        corpora_messages(cs, k - 1) + cs[k - 1].messages.len()
    }
}

/// The sightings of the first `k` conversations of `cs`, conversation after conversation.
pub open spec fn corpora_sightings(cs: Seq<CorpusView>, k: int, max_order: int) -> Seq<Sighting>
    decreases k,
{
    if k <= 0 {
        seq![]
    } else {
        corpora_sightings(cs, k - 1, max_order) + message_sightings(cs[k - 1].messages, max_order)
    }
}

/// The memory estimate before conversation `k` is taken up, for a cache that held `t0`
/// tokens and estimated `ram0` MB at the start.
pub open spec fn ram_before(cs: Seq<CorpusView>, k: int, t0: nat, ram0: nat) -> nat {
    if k <= 0 {
        ram0
    } else {
        ram_estimate(t0 + corpora_tokens(cs, k))
    }
}

/// How many of the conversations `cs`, from the `j`-th on, are taken up: each is while
/// the estimate before it is below `max` MB.
pub open spec fn loaded_from(cs: Seq<CorpusView>, j: int, t0: nat, ram0: nat, max: nat) -> int
    decreases cs.len() - j,
{
    if j < 0 || j >= cs.len() || ram_before(cs, j, t0, ram0) >= max {
        j
    } else {
        loaded_from(cs, j + 1, t0, ram0, max)
    }
}

/// The in-memory cache: the trie, counts of what it took up, the names of the
/// conversations taken up, and the memory limit and estimate in MB.
pub struct RAMCache {
    ngram_trie: NgramTrie,
    total_tokens_processed: usize,
    total_messages_processed: usize,
    corpus_names: Vec<String>,
    max_ram_mb: usize,
    current_ram_mb: usize,
}

impl RAMCache {
    /// The trie holds together.
    pub open spec fn wf(&self) -> bool {
        self.trie_spec().wf()
    }

    /// The n-gram trie.
    pub closed spec fn trie_spec(&self) -> NgramTrie {
        self.ngram_trie
    }

    /// The tokens taken up so far.
    pub closed spec fn tokens_spec(&self) -> nat {
        self.total_tokens_processed as nat
    }

    /// The messages taken up so far.
    pub closed spec fn messages_spec(&self) -> nat {
        self.total_messages_processed as nat
    }

    /// The names of the conversations taken up, in order.
    pub closed spec fn names_spec(&self) -> Seq<Seq<char>> {
        views(self.corpus_names@)
    }

    /// The memory limit in MB.
    pub closed spec fn max_ram_spec(&self) -> nat {
        self.max_ram_mb as nat
    }

    /// The memory estimate in MB.
    pub closed spec fn ram_spec(&self) -> nat {
        self.current_ram_mb as nat
    }

    /// An empty cache with a limit of `max_ram_mb` MB whose trie records n-grams of up to
    /// `max_ngram_order` words.
    pub fn new(max_ram_mb: usize, max_ngram_order: usize) -> (r: RAMCache)
        ensures
            r.wf(),
            r.trie_spec().order_limit() == max_ngram_order,
            r.trie_spec().boost_table() == BoostTable::Standard,
            r.trie_spec().view() == Map::<Seq<Seq<char>>, NodeView>::empty().insert(
                seq![],
                empty_node_view(),
            ),
            r.trie_spec().recorded() == 0,
            r.tokens_spec() == 0,
            r.messages_spec() == 0,
            r.names_spec() == Seq::<Seq<char>>::empty(),
            r.max_ram_spec() == max_ram_mb,
            r.ram_spec() == 0,
    {
        let r = RAMCache {
            ngram_trie: NgramTrie::new(max_ngram_order),
            total_tokens_processed: 0,
            total_messages_processed: 0,
            corpus_names: Vec::new(),
            max_ram_mb,
            current_ram_mb: 0,
        };
        assert(views(r.corpus_names@) =~= Seq::<Seq<char>>::empty());
        r
    }

    /// The memory estimate for the tokens taken up so far (see `ram_estimate`).
    pub fn estimate_ram_usage(&self) -> (r: usize)
        ensures
            r == ram_estimate(self.tokens_spec()),
    {
        let n = (self.total_tokens_processed / 10) as u128;
        let mb = (n * 200) / (1024 * 1024);
        assert(mb <= usize::MAX) by {
            assert(n * 200 / 1048576 <= n) by (nonlinear_arith)
                requires
                    n >= 0,
            ;
        }
        let mb = mb as usize;
        if mb >= 1 {
            mb
        } else {
            1
        }
    }

    /// Whether the estimate is still below the limit.
    pub fn can_load_more(&self) -> (r: bool)
        ensures
            r == (self.ram_spec() < self.max_ram_spec()),
    {
        self.current_ram_mb < self.max_ram_mb
    }

    /// The n-gram trie.
    pub fn trie(&self) -> (r: &NgramTrie)
        ensures
            *r == self.trie_spec(),
    {
        &self.ngram_trie
    }

    /// The tokens taken up so far.
    pub fn tokens_processed(&self) -> (r: usize)
        ensures
            r == self.tokens_spec(),
    {
        self.total_tokens_processed
    }

    /// The messages taken up so far.
    pub fn messages_processed(&self) -> (r: usize)
        ensures
            r == self.messages_spec(),
    {
        self.total_messages_processed
    }

    /// The names of the conversations taken up, in order.
    pub fn corpus_names(&self) -> (r: &Vec<String>)
        ensures
            views(r@) == self.names_spec(),
    {
        &self.corpus_names
    }

    /// The memory limit in MB.
    pub fn max_ram_mb(&self) -> (r: usize)
        ensures
            r == self.max_ram_spec(),
    {
        self.max_ram_mb
    }

    /// The memory estimate in MB.
    pub fn current_ram_mb(&self) -> (r: usize)
        ensures
            r == self.ram_spec(),
    {
        self.current_ram_mb
    }
}

/// Takes up the messages of one conversation: tokenizes each, counts its tokens and the
/// message, and records its n-grams.
fn take_up_messages(c: &DiskCorpus, cache: &mut RAMCache)
    requires
        old(cache).wf(),
        old(cache).tokens_spec() + message_tokens(c@.messages) <= usize::MAX,
        old(cache).messages_spec() + c@.messages.len() <= usize::MAX,
    ensures
        final(cache).wf(),
        final(cache).tokens_spec() == old(cache).tokens_spec() + message_tokens(c@.messages),
        final(cache).messages_spec() == old(cache).messages_spec() + c@.messages.len(),
        final(cache).names_spec() == old(cache).names_spec(),
        final(cache).max_ram_spec() == old(cache).max_ram_spec(),
        final(cache).ram_spec() == old(cache).ram_spec(),
        final(cache).trie_spec().order_limit() == old(cache).trie_spec().order_limit(),
        final(cache).trie_spec().boost_table() == old(cache).trie_spec().boost_table(),
        ({
            let l = message_sightings(c@.messages, old(cache).trie_spec().order_limit() as int);
            let k = room(old(cache).trie_spec().recorded(), l.len());
            &&& final(cache).trie_spec().view() == apply_sightings(old(cache).trie_spec().view(), l.take(k as int))
            &&& final(cache).trie_spec().recorded() == old(cache).trie_spec().recorded() + k
        }),
{
    let ghost ms = c@.messages;
    let ghost mo = cache.ngram_trie.order_limit() as int;
    let ghost v0 = cache.ngram_trie.view();
    let ghost r0 = cache.ngram_trie.recorded();
    let ghost t0 = cache.total_tokens_processed as nat;
    let ghost n0 = cache.total_messages_processed as nat;
    let mut i: usize = 0;
    proof {
        cache.ngram_trie.lemma_recorded_fits();
        assert(ms.take(0) =~= Seq::<MessageView>::empty());
        assert(message_sightings(ms.take(0), mo).take(0) =~= Seq::<Sighting>::empty());
    }
    while i < c.messages.len()
        invariant
            cache.wf(),
            ms == c@.messages,
            ms.len() == c.messages@.len(),
            i <= ms.len(),
            mo == cache.ngram_trie.order_limit() as int,
            t0 + message_tokens(ms) <= usize::MAX,
            n0 + ms.len() <= usize::MAX,
            cache.total_tokens_processed == t0 + message_tokens(ms.take(i as int)),
            cache.total_messages_processed == n0 + i,
            cache.corpus_names == old(cache).corpus_names,
            cache.max_ram_mb == old(cache).max_ram_mb,
            cache.current_ram_mb == old(cache).current_ram_mb,
            cache.ngram_trie.order_limit() == old(cache).ngram_trie.order_limit(),
            cache.ngram_trie.boost_table() == old(cache).ngram_trie.boost_table(),
            v0 == old(cache).ngram_trie.view(),
            r0 == old(cache).ngram_trie.recorded(),
            r0 <= usize::MAX,
            ({
                let l = message_sightings(ms.take(i as int), mo);
                let k = room(r0, l.len());
                &&& cache.ngram_trie.view() == apply_sightings(v0, l.take(k as int))
                &&& cache.ngram_trie.recorded() == r0 + k
            }),
        decreases ms.len() - i,
    {
        let ghost pre = ms.take(i as int);
        let ghost post = ms.take(i as int + 1);
        proof {
            assert(post.drop_last() =~= pre);
            assert(post.last() == ms[i as int]);
            assert(ms[i as int] == c.messages@[i as int]@);
            lemma_message_tokens_prefix(ms, i as int + 1);
        }
        let toks = tokenize(c.messages[i].text.as_str());
        proof {
            assert(toks@.len() == views(toks@).len());
        }
        cache.total_tokens_processed = cache.total_tokens_processed + toks.len();
        cache.total_messages_processed = cache.total_messages_processed + 1;
        let ghost vb = cache.ngram_trie.view();
        let ghost rb = cache.ngram_trie.recorded();
        cache.ngram_trie.insert_sequence(&toks);
        proof {
            let l1 = message_sightings(pre, mo);
            let l2 = sightings(views(toks@), mo, true);
            lemma_room_concat(v0, r0, l1, l2);
            assert(message_sightings(post, mo) =~= l1 + l2);
        }
        i = i + 1;
    }
    assert(ms.take(i as int) =~= ms);
}

/// The token count of a prefix of the messages is at most that of all of them.
proof fn lemma_message_tokens_prefix(ms: Seq<MessageView>, k: int)
    requires
        0 <= k <= ms.len(),
    ensures
        message_tokens(ms.take(k)) <= message_tokens(ms),
    decreases ms.len() - k,
{
    if k < ms.len() {
        assert(ms.drop_last().take(k) =~= ms.take(k));
        lemma_message_tokens_prefix(ms.drop_last(), k);
    } else {
        assert(ms.take(k) =~= ms);
    }
}


/// The token count of the first `j` conversations is at most that of the first `k`.
proof fn lemma_corpora_tokens_mono(cs: Seq<CorpusView>, j: int, k: int)
    requires
        0 <= j <= k,
    ensures
        corpora_tokens(cs, j) <= corpora_tokens(cs, k),
        corpora_messages(cs, j) <= corpora_messages(cs, k),
    decreases k - j,
{
    if j < k {
        lemma_corpora_tokens_mono(cs, j, k - 1);
    }
}

/// Taking up conversations stops no earlier than any conversation it reaches.
proof fn lemma_loaded_at_least(cs: Seq<CorpusView>, j: int, t0: nat, ram0: nat, max: nat)
    requires
        0 <= j,
    ensures
        loaded_from(cs, j, t0, ram0, max) >= j,
        loaded_from(cs, j, t0, ram0, max) <= if j <= cs.len() { cs.len() as int } else { j },
    decreases cs.len() - j,
{
    if j < cs.len() && ram_before(cs, j, t0, ram0) < max {
        lemma_loaded_at_least(cs, j + 1, t0, ram0, max);
    }
}

/// Takes up the conversations one after another while the memory estimate is below the
/// limit: each one's name is kept, its messages are tokenized and counted and their
/// n-grams recorded, and the estimate is renewed. Returns the estimate after each
/// conversation taken up; the conversations after them are left.
pub fn process_corpora_into_ram(corpora: &[DiskCorpus], cache: &mut RAMCache) -> (r: Vec<usize>)
    requires
        old(cache).wf(),
        ({
            let cs = crate::corpus::corpus_views(corpora@);
            let k = loaded_from(cs, 0, old(cache).tokens_spec(), old(cache).ram_spec(), old(cache).max_ram_spec());
            &&& old(cache).tokens_spec() + corpora_tokens(cs, k) <= usize::MAX
            &&& old(cache).messages_spec() + corpora_messages(cs, k) <= usize::MAX
        }),
    ensures
        final(cache).wf(),
        ({
            let cs = crate::corpus::corpus_views(corpora@);
            let t0 = old(cache).tokens_spec();
            let k = loaded_from(cs, 0, t0, old(cache).ram_spec(), old(cache).max_ram_spec());
            let mo = old(cache).trie_spec().order_limit() as int;
            let l = corpora_sightings(cs, k, mo);
            let n = room(old(cache).trie_spec().recorded(), l.len());
            &&& r@.len() == k
            &&& forall|j: int| 0 <= j < k ==> r@[j] == ram_estimate(t0 + corpora_tokens(cs, j + 1))
            &&& final(cache).tokens_spec() == t0 + corpora_tokens(cs, k)
            &&& final(cache).messages_spec() == old(cache).messages_spec() + corpora_messages(cs, k)
            &&& final(cache).names_spec() == old(cache).names_spec() + Seq::new(k as nat, |j: int| cs[j].name)
            &&& final(cache).max_ram_spec() == old(cache).max_ram_spec()
            &&& final(cache).ram_spec() == ram_before(cs, k, t0, old(cache).ram_spec())
            &&& final(cache).trie_spec().order_limit() == old(cache).trie_spec().order_limit()
            &&& final(cache).trie_spec().boost_table() == old(cache).trie_spec().boost_table()
            &&& final(cache).trie_spec().view() == apply_sightings(old(cache).trie_spec().view(), l.take(n as int))
            &&& final(cache).trie_spec().recorded() == old(cache).trie_spec().recorded() + n
        }),
{
    let ghost cs = crate::corpus::corpus_views(corpora@);
    let ghost t0 = cache.tokens_spec();
    let ghost n0 = cache.messages_spec();
    let ghost ram0 = cache.ram_spec();
    let ghost max = cache.max_ram_spec();
    let ghost k = loaded_from(cs, 0, t0, ram0, max);
    let ghost names0 = cache.names_spec();
    let ghost mo = cache.trie_spec().order_limit() as int;
    let ghost v0 = cache.trie_spec().view();
    let ghost r0 = cache.trie_spec().recorded();
    let mut out: Vec<usize> = Vec::new();
    let mut i: usize = 0;
    proof {
        cache.ngram_trie.lemma_recorded_fits();
        lemma_loaded_at_least(cs, 0, t0, ram0, max);
        assert(corpora_sightings(cs, 0, mo).take(0) =~= Seq::<Sighting>::empty());
        assert(names0 + Seq::new(0, |j: int| cs[j].name) =~= names0);
    }
    while i < corpora.len() && cache.can_load_more()
        invariant
            cache.wf(),
            cs == crate::corpus::corpus_views(corpora@),
            cs.len() == corpora@.len(),
            0 <= i <= k,
            k <= cs.len(),
            k == loaded_from(cs, 0, t0, ram0, max),
            loaded_from(cs, i as int, t0, ram0, max) == k,
            t0 + corpora_tokens(cs, k) <= usize::MAX,
            n0 + corpora_messages(cs, k) <= usize::MAX,
            out@.len() == i,
            forall|j: int| 0 <= j < i ==> out@[j] == ram_estimate(t0 + corpora_tokens(cs, j + 1)),
            cache.tokens_spec() == t0 + corpora_tokens(cs, i as int),
            cache.messages_spec() == n0 + corpora_messages(cs, i as int),
            cache.names_spec() == names0 + Seq::new(i as nat, |j: int| cs[j].name),
            cache.max_ram_spec() == max,
            cache.ram_spec() == ram_before(cs, i as int, t0, ram0),
            cache.trie_spec().order_limit() == mo,
            cache.trie_spec().boost_table() == old(cache).trie_spec().boost_table(),
            v0 == old(cache).trie_spec().view(),
            r0 == old(cache).trie_spec().recorded(),
            r0 <= usize::MAX,
            ({
                let l = corpora_sightings(cs, i as int, mo);
                let n = room(r0, l.len());
                &&& cache.trie_spec().view() == apply_sightings(v0, l.take(n as int))
                &&& cache.trie_spec().recorded() == r0 + n
            }),
        decreases corpora@.len() - i,
    {
        proof {
            assert(loaded_from(cs, i as int, t0, ram0, max) == loaded_from(cs, i as int + 1, t0, ram0, max));
            lemma_loaded_at_least(cs, i as int + 1, t0, ram0, max);
            lemma_corpora_tokens_mono(cs, i as int + 1, k);
            assert(cs[i as int] == corpora@[i as int]@);
        }
        let c = &corpora[i];
        let ghost names_before = cache.names_spec();
        cache.corpus_names.push(c.name.clone());
        proof {
            assert(views(cache.corpus_names@) =~= names_before.push(c.name@));
            assert(names0 + Seq::new(i as nat + 1, |j: int| cs[j].name) =~= (names0 + Seq::new(i as nat, |j: int| cs[j].name)).push(cs[i as int].name));
        }
        let ghost vb = cache.trie_spec().view();
        let ghost rb = cache.trie_spec().recorded();
        take_up_messages(c, cache);
        proof {
            let l1 = corpora_sightings(cs, i as int, mo);
            let l2 = message_sightings(cs[i as int].messages, mo);
            lemma_room_concat(v0, r0, l1, l2);
            assert(corpora_sightings(cs, i as int + 1, mo) =~= l1 + l2);
        }
        cache.current_ram_mb = cache.estimate_ram_usage();
        out.push(cache.current_ram_mb);
        i = i + 1;
    }
    proof {
        if i < corpora@.len() {
            assert(ram_before(cs, i as int, t0, ram0) >= max);
            assert(loaded_from(cs, i as int, t0, ram0, max) == i);
        } else {
            assert(loaded_from(cs, i as int, t0, ram0, max) == i);
        }
    }
    out
}
} // verus!
