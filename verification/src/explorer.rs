//! The word explorer's model: the conversation files it has loaded, the n-gram trie and
//! punctuation model built from them, and its vocabulary.
use vstd::prelude::*;
use vstd::hash_map::StringHashMap;
use crate::corpus::{concat, mapping_parts, node_parts};
use crate::json::{Json, items_of, lookup, members_of, text_at};
use crate::numbers::{decimal, to_decimal};
use crate::punctuation::{PunctuationModel, trained, MarkCounts};
use crate::text::{chars_of, contains_chars, contains_seq, lowercase_of, string_of, to_lowercase, views, words};
use crate::tokens::{tokenize, tokens};
use crate::trie::{NgramTrie, NodeView, Sighting, apply_sightings, lemma_room_concat, room, sightings, BoostTable};
use crate::vocab::{new_words, occurrences};

verus! {

/// The texts of the `chat_messages` entries whose `text` is a string, empty ones included.
pub open spec fn chat_texts(ms: Seq<Json>) -> Seq<Seq<char>>
    decreases ms.len(),
{
    if ms.len() == 0 {
        seq![]
    } else {
        chat_texts(ms.drop_last()) + match text_at(ms.last(), "text"@) {
            Some(t) => seq![t],
            None => seq![],
        }
    }
}

/// The message texts of one conversation: the non-empty parts of a `mapping` when it has
/// one, else the texts of its `chat_messages`.
pub open spec fn conversation_texts(conv: Json) -> Seq<Seq<char>> {
    match lookup(conv, "mapping"@) {
        Some(mp) => match members_of(Some(mp)) {
            Some(nodes) => mapping_parts(nodes),
            None => seq![],
        },
        None => match items_of(lookup(conv, "chat_messages"@)) {
            Some(ms) => chat_texts(ms),
            None => seq![],
        },
    }
}

/// Each text followed by ` <MSG> `.
pub open spec fn with_markers(ts: Seq<Seq<char>>) -> Seq<char>
    decreases ts.len(),
{
    if ts.len() == 0 {
        seq![]
    } else {
        with_markers(ts.drop_last()) + ts.last() + " <MSG> "@
    }
}

/// The message texts of the conversations `cs`, conversation after conversation.
pub open spec fn all_texts(cs: Seq<Json>) -> Seq<Seq<char>>
    decreases cs.len(),
{
    if cs.len() == 0 {
        seq![]
    } else {
        all_texts(cs.drop_last()) + conversation_texts(cs.last())
    }
}

/// The text a conversation export is read as: every message text of every conversation of
/// its top-level array, each followed by ` <MSG> `.
pub open spec fn export_text(data: Json) -> Seq<char> {
    match items_of(Some(data)) {
        Some(cs) => with_markers(all_texts(cs)),
        None => seq![],
    }
}

/// Appends `t` and ` <MSG> ` to `out`.
fn push_marked(out: &mut Vec<char>, t: &str)
    ensures
        final(out)@ == old(out)@ + t@ + " <MSG> "@,
{
    let a = chars_of(t);
    let b = chars_of(" <MSG> ");
    let ghost o = out@;
    let mut i: usize = 0;
    while i < a.len()
        invariant
            i <= a@.len(),
            out@ == o + a@.take(i as int),
        decreases a@.len() - i,
    {
        out.push(a[i]);
        i = i + 1;
        assert(out@ =~= o + a@.take(i as int));
    }
    assert(a@.take(i as int) =~= a@);
    let ghost o2 = out@;
    let mut j: usize = 0;
    while j < b.len()
        invariant
            j <= b@.len(),
            out@ == o2 + b@.take(j as int),
        decreases b@.len() - j,
    {
        out.push(b[j]);
        j = j + 1;
        assert(out@ =~= o2 + b@.take(j as int));
    }
    assert(b@.take(j as int) =~= b@);
    assert(out@ =~= o + t@ + " <MSG> "@);
}

/// The message texts of one conversation (see `conversation_texts`).
fn texts_of(conv: &Json) -> (r: Vec<String>)
    ensures
        views(r@) == conversation_texts(*conv),
{
    let mut out: Vec<String> = Vec::new();
    match conv.get("mapping") {
        Some(mp) => {
            if let Some(nodes) = mp.as_object() {
                let mut i: usize = 0;
                while i < nodes.len()
                    invariant
                        i <= nodes@.len(),
                        views(out@) == mapping_parts(nodes@.take(i as int)),
                    decreases nodes@.len() - i,
                {
                    proof {
                        assert(nodes@.take(i as int + 1).drop_last() =~= nodes@.take(i as int));
                        assert(nodes@.take(i as int + 1).last() == nodes@[i as int]);
                    }
                    crate::corpus::collect_node_parts(&nodes[i].1, &mut out);
                    i = i + 1;
                }
                assert(nodes@.take(i as int) =~= nodes@);
            } else {
                assert(views(out@) =~= conversation_texts(*conv));
            }
        },
        None => {
            let cm = match conv.get("chat_messages") {
                Some(c) => c.as_array(),
                None => None,
            };
            if let Some(ms) = cm {
                let mut i: usize = 0;
                while i < ms.len()
                    invariant
                        i <= ms@.len(),
                        views(out@) == chat_texts(ms@.take(i as int)),
                    decreases ms@.len() - i,
                {
                    proof {
                        assert(ms@.take(i as int + 1).drop_last() =~= ms@.take(i as int));
                        assert(ms@.take(i as int + 1).last() == ms@[i as int]);
                    }
                    if let Some(t) = ms[i].str_at("text") {
                        let ghost before = views(out@);
                        out.push(t.clone());
                        assert(views(out@) =~= before + seq![t@]);
                    }
                    assert(views(out@) =~= chat_texts(ms@.take(i as int + 1)));
                    i = i + 1;
                }
                assert(ms@.take(i as int) =~= ms@);
            } else {
                assert(views(out@) =~= conversation_texts(*conv));
            }
        },
    }
    out
}

/// The text of a conversation export (see `export_text`).
pub fn conversation_text(data: &Json) -> (r: String)
    ensures
        r@ == export_text(*data),
{
    let mut out: Vec<char> = Vec::new();
    if let Some(cs) = data.as_array() {
        let ghost mut all: Seq<Seq<char>> = seq![];
        let mut i: usize = 0;
        while i < cs.len()
            invariant
                i <= cs@.len(),
                all == all_texts(cs@.take(i as int)),
                out@ == with_markers(all),
            decreases cs@.len() - i,
        {
            proof {
                assert(cs@.take(i as int + 1).drop_last() =~= cs@.take(i as int));
                assert(cs@.take(i as int + 1).last() == cs@[i as int]);
            }
            let ts = texts_of(&cs[i]);
            let mut k: usize = 0;
            let ghost all0 = all;
            while k < ts.len()
                invariant
                    k <= ts@.len(),
                    all == all0 + views(ts@).take(k as int),
                    out@ == with_markers(all),
                decreases ts@.len() - k,
            {
                push_marked(&mut out, ts[k].as_str());
                proof {
                    let next = all.push(ts@[k as int]@);
                    assert(next.drop_last() =~= all);
                    all = next;
                    assert(all =~= all0 + views(ts@).take(k as int + 1));
                }
                k = k + 1;
            }
            proof {
                assert(views(ts@).take(k as int) =~= views(ts@));
            }
            i = i + 1;
        }
        assert(cs@.take(i as int) =~= cs@);
    } else {
        assert(out@ =~= export_text(*data));
    }
    string_of(&out)
}

/// What `Path::file_name` gives for a path that is not a plain name, read back as text:
/// its last component, unless that is `..` or absent.
pub uninterp spec fn path_last_component(path: Seq<char>) -> Option<Seq<char>>;

/// `path` is a plain name: not empty, not `.` or `..`, and without a separator (`/`, `\`)
/// or a drive colon, so that it is a single normal component.
pub open spec fn plain_file_name(path: Seq<char>) -> bool {
    &&& path.len() > 0
    &&& path != "."@
    &&& path != ".."@
    &&& !path.contains('/')
    &&& !path.contains('\\')
    &&& !path.contains(':')
}

/// What `Path::file_name` gives for `path`, read back as text: a plain name is its own file
/// name; of any other path, its last component, unless that is `..` or absent.
pub open spec fn path_file_name(path: Seq<char>) -> Option<Seq<char>> {
    if plain_file_name(path) {
        Some(path)
    } else {
        path_last_component(path)
    }
}

/// Calls `std::path::Path::file_name` on `path` and reads the name back as text: a plain
/// name is its own file name (its one component is a normal one); of other paths the
/// result is named, a function of the path alone.
#[verifier::external_body]
fn file_name_of(path: &str) -> (r: Option<String>)
    ensures
        match r {
            Some(f) => path_file_name(path@) == Some(f@),
            None => path_file_name(path@) is None,
        },
        !plain_file_name(path@) ==> match r {
            Some(f) => path_last_component(path@) == Some(f@),
            None => path_last_component(path@) is None,
        },
{
    std::path::Path::new(path).file_name().and_then(|n| n.to_str()).map(|n| n.to_string())
}

/// The name a loaded file is recorded under: its file name (or the whole path when it has
/// none), `@`, and the n-gram order it was loaded at.
pub open spec fn file_key_of(path: Seq<char>, order: usize) -> Seq<char> {
    let name = match path_file_name(path) {
        Some(f) => f,
        None => path,
    };
    name + "@"@ + decimal(order as nat)
}

/// A file is a dictionary when its path, in lower case, mentions `dict` or `definition`.
pub open spec fn is_dictionary_path(path: Seq<char>) -> bool {
    contains_seq(lowercase_of(path), "dict"@) || contains_seq(lowercase_of(path), "definition"@)
}

/// How many chunks `total` tokens are inserted in, about `target` tokens each: `total`
/// over `target` rounded up, at least one.
pub open spec fn chunk_count(total: nat, target: nat) -> nat {
    let c = ((total + target - 1) as nat) / target;
    if c >= 1 {
        c
    } else {
        1
    }
}

/// The tokens per chunk: `total` over the chunk count, rounded up.
pub open spec fn chunk_size(total: nat, target: nat) -> nat {
    let n = chunk_count(total, target);
    ((total + n - 1) as nat) / n
}

/// Where chunk `c` starts and ends.
pub open spec fn chunk_bounds(total: nat, target: nat, c: nat) -> (nat, nat) {
    let p = chunk_size(total, target);
    let end = (c + 1) * p;
    (c * p, if end <= total { end } else { total })
}

/// The sightings of the chunks before chunk `c` of `ts`, chunk after chunk.
pub open spec fn chunk_sightings(ts: Seq<Seq<char>>, target: nat, c: nat, max_order: int) -> Seq<Sighting>
    decreases c,
{
    if c == 0 {
        seq![]
    } else {
        let b = chunk_bounds(ts.len(), target, (c - 1) as nat);
        chunk_sightings(ts, target, (c - 1) as nat, max_order) + sightings(
            ts.subrange(b.0 as int, b.1 as int),
            max_order,
            false,
        )
    }
}

/// Every chunk starts within the tokens and ends no earlier than it starts.
proof fn lemma_chunk_in_range(total: nat, target: nat, c: nat)
    requires
        target > 0,
        c < chunk_count(total, target),
    ensures
        chunk_bounds(total, target, c).0 <= chunk_bounds(total, target, c).1 <= total,
        (c + 1) * chunk_size(total, target) <= total + chunk_count(total, target),
{
    let n = chunk_count(total, target);
    let p = chunk_size(total, target);
    if total == 0 {
        assert(((target - 1) as nat) / target == 0) by (nonlinear_arith)
            requires
                target > 0,
        ;
        assert(n == 1);
        assert(p == 0);
        assert(c == 0);
    } else {
        let q = ((total + target - 1) as nat) / target;
        assert(q * target <= total + target - 1 && total + target - 1 < (q + 1) * target) by (nonlinear_arith)
            requires
                target > 0,
                q == ((total + target - 1) as nat) / target,
        ;
        assert(q >= 1) by (nonlinear_arith)
            requires
                total > 0,
                target > 0,
                q * target <= total + target - 1,
                total + target - 1 < (q + 1) * target,
        ;
        assert(n == q);
        assert(p * n <= total + n - 1 && total + n - 1 < (p + 1) * n) by (nonlinear_arith)
            requires
                n > 0,
                p == ((total + n - 1) as nat) / n,
        ;
        assert(total + target - 1 < n * target + target) by (nonlinear_arith)
            requires
                total + target - 1 < (n + 1) * target,
        ;
        assert(p <= target) by (nonlinear_arith)
            requires
                n > 0,
                total <= n * target,
                p * n <= total + n - 1,
                target > 0,
        ;
        assert((n - 1) * target < total) by (nonlinear_arith)
            requires
                n * target <= total + target - 1,
                target > 0,
                n >= 1,
        ;
        assert(c * p <= (n - 1) * target) by (nonlinear_arith)
            requires
                c <= n - 1,
                p <= target,
                c >= 0,
                p >= 0,
        ;
        assert((c + 1) * p <= n * p) by (nonlinear_arith)
            requires
                c + 1 <= n,
                p >= 0,
        ;
        assert(c * p <= (c + 1) * p) by (nonlinear_arith)
            requires
                p >= 0,
        ;
    }
}


/// The chunk count for `total` tokens in chunks of about `target` (see `chunk_count`).
fn chunk_count_of(total: usize, target: usize) -> (r: usize)
    requires
        target > 0,
    ensures
        r == chunk_count(total as nat, target as nat),
{
    let c = ((total as u128) + (target as u128) - 1) / (target as u128);
    assert(c <= total + 1) by (nonlinear_arith)
        requires
            c == ((total + target - 1) as nat) / (target as nat),
            target > 0,
    ;
    if c >= 1 {
        if c > total as u128 {
            proof {
                assert(c * target <= total + target - 1) by (nonlinear_arith)
                    requires
                        c == ((total + target - 1) as nat) / (target as nat),
                        target > 0,
                ;
                assert(c <= 1) by (nonlinear_arith)
                    requires
                        c * target <= total + target - 1,
                        c > total,
                        target > 0,
                ;
            }
        }
        c as usize
    } else {
        1
    }
}

/// The chunk size for `total` tokens in chunks of about `target` (see `chunk_size`).
fn chunk_size_of(total: usize, target: usize) -> (r: usize)
    requires
        target > 0,
    ensures
        r == chunk_size(total as nat, target as nat),
{
    let n = chunk_count_of(total, target);
    let q = ((total as u128) + (n as u128) - 1) / (n as u128);
    assert(q <= total) by (nonlinear_arith)
        requires
            n >= 1,
            q == ((total + n - 1) as nat) / (n as nat),
    ;
    q as usize
}

/// `nw` lists each word of `ts` missing from `vocab` once, with its count in `ts`, most
/// frequent first.
pub open spec fn fresh_words(nw: Seq<(String, usize)>, ts: Seq<Seq<char>>, vocab: Seq<Seq<char>>) -> bool {
    &&& forall|i: int| 0 <= i < nw.len() ==> {
        &&& ts.contains((#[trigger] nw[i]).0@)
        &&& !vocab.contains(nw[i].0@)
        &&& nw[i].1 == occurrences(ts, nw[i].0@)
    }
    &&& forall|w: Seq<char>| #[trigger] ts.contains(w) && !vocab.contains(w) ==> exists|i: int|
        0 <= i < nw.len() && (#[trigger] nw[i]).0@ == w
    &&& forall|i: int, j: int| 0 <= i < j < nw.len() ==> nw[i].0@ != nw[j].0@
    &&& forall|i: int, j: int| 0 <= i < j < nw.len() ==> nw[i].1 >= nw[j].1
}

/// The record of one loaded file.
pub struct FileLoadInfo {
    pub filename: String,
    pub ngram_level: usize,
    pub load_count: usize,
}

/// What loading a file did, for the loader's report and for placing the new words.
pub struct LoadReport {
    /// The tokens of the file.
    pub total_tokens: usize,
    /// How many chunks its n-grams were recorded in.
    pub chunks: usize,
    /// The tokens per chunk.
    pub chunk_size: usize,
    /// How many distinct words the file holds.
    pub unique_words: usize,
    /// The words new to the vocabulary, each with its count in the file, most frequent first.
    pub new_words: Vec<(String, usize)>,
    /// The layer the new words belong to: the number of files loaded before this one.
    pub layer: usize,
    /// Whether the file is a dictionary.
    pub is_dict: bool,
}

/// What became of a request to load a file.
pub enum LoadOutcome {
    /// The file was already loaded at the current n-gram order.
    AlreadyLoaded,
    /// The file holds more words than the punctuation counts can take.
    TooLarge,
    /// The file was loaded.
    Loaded(LoadReport),
}

/// The explorer's model.
pub struct Explorer {
    trie: NgramTrie,
    punct: PunctuationModel,
    loaded_keys: Vec<String>,
    loaded_infos: Vec<FileLoadInfo>,
    files_loaded: usize,
    max_ngram_order: usize,
    vocab: Vec<String>,
    vocab_index: StringHashMap<usize>,
    dict_corpus_loaded: bool,
}

impl Explorer {
    /// The parts hold together: the trie and punctuation model are well formed, the loaded
    /// files are listed once each, and the vocabulary index lists the vocabulary.
    pub closed spec fn wf(&self) -> bool {
        &&& self.trie.wf()
        &&& self.punct.wf()
        &&& self.trie.order_limit() == self.max_ngram_order
        &&& self.loaded_keys@.len() == self.loaded_infos@.len()
        &&& forall|w: Seq<char>| #[trigger] self.vocab_index@.contains_key(w) <==> views(self.vocab@).contains(w)
    }

    /// The n-gram trie.
    pub closed spec fn trie_spec(&self) -> NgramTrie {
        self.trie
    }

    /// The punctuation counts.
    pub closed spec fn punct_counts(&self) -> Map<Seq<char>, MarkCounts> {
        self.punct.counts()
    }

    /// How many marks the punctuation model has counted.
    pub closed spec fn punct_seen(&self) -> nat {
        self.punct.seen_spec()
    }

    /// The keys of the loaded files, in the order loaded.
    pub closed spec fn loaded_spec(&self) -> Seq<Seq<char>> {
        views(self.loaded_keys@)
    }

    /// The records of the loaded files, in the order loaded.
    pub closed spec fn infos_spec(&self) -> Seq<FileLoadInfo> {
        self.loaded_infos@
    }

    /// How many files were loaded.
    pub closed spec fn files_spec(&self) -> nat {
        self.files_loaded as nat
    }

    /// The n-gram order files are loaded at.
    pub closed spec fn order_spec(&self) -> usize {
        self.max_ngram_order
    }

    /// The vocabulary, in the order its words were added.
    pub closed spec fn vocab_spec(&self) -> Seq<Seq<char>> {
        views(self.vocab@)
    }

    /// Whether a dictionary was loaded.
    pub closed spec fn dict_spec(&self) -> bool {
        self.dict_corpus_loaded
    }

    /// An empty model: n-grams of up to twelve words, scored with the extended multipliers,
    /// inserted in chunks of about a thousand tokens.
    pub fn new() -> (r: Explorer)
        ensures
            r.wf(),
            r.order_spec() == 12,
            r.trie_spec().boost_table() == BoostTable::Extended,
            r.trie_spec().recorded() == 0,
            r.loaded_spec() == Seq::<Seq<char>>::empty(),
            r.files_spec() == 0,
            r.vocab_spec() == Seq::<Seq<char>>::empty(),
            r.punct_seen() == 0,
            !r.dict_spec(),
    {
        let r = Explorer {
            trie: NgramTrie::with_boosts(12, BoostTable::Extended),
            punct: PunctuationModel::new(),
            loaded_keys: Vec::new(),
            loaded_infos: Vec::new(),
            files_loaded: 0,
            max_ngram_order: 12,
            vocab: Vec::new(),
            vocab_index: StringHashMap::new(),
            dict_corpus_loaded: false,
        };
        assert(views(r.loaded_keys@) =~= Seq::<Seq<char>>::empty());
        assert(views(r.vocab@) =~= Seq::<Seq<char>>::empty());
        r
    }

    /// The n-gram trie.
    pub fn trie(&self) -> (r: &NgramTrie)
        ensures
            *r == self.trie_spec(),
    {
        &self.trie
    }

    /// The punctuation model.
    pub fn punctuation(&self) -> (r: &PunctuationModel)
        ensures
            r.counts() == self.punct_counts(),
            r.seen_spec() == self.punct_seen(),
            self.wf() ==> r.wf(),
    {
        &self.punct
    }

    /// How many files were loaded.
    pub fn files_loaded(&self) -> (r: usize)
        ensures
            r == self.files_spec(),
    {
        self.files_loaded
    }

    /// The n-gram order files are loaded at.
    pub fn max_ngram_order(&self) -> (r: usize)
        ensures
            r == self.order_spec(),
    {
        self.max_ngram_order
    }

    /// The records of the loaded files, in the order loaded.
    pub fn loaded_files(&self) -> (r: &Vec<FileLoadInfo>)
        ensures
            r@ == self.infos_spec(),
    {
        &self.loaded_infos
    }

    /// Whether a dictionary was loaded.
    pub fn dict_corpus_loaded(&self) -> (r: bool)
        ensures
            r == self.dict_spec(),
    {
        self.dict_corpus_loaded
    }

    /// Sets the n-gram order that later loads record; what is recorded stays.
    pub fn set_max_order(&mut self, order: usize)
        requires
            old(self).wf(),
        ensures
            final(self).wf(),
            final(self).order_spec() == order,
            final(self).trie_spec().view() == old(self).trie_spec().view(),
            final(self).trie_spec().order_limit() == order,
            final(self).trie_spec().recorded() == old(self).trie_spec().recorded(),
            final(self).loaded_spec() == old(self).loaded_spec(),
            final(self).vocab_spec() == old(self).vocab_spec(),
    {
        self.max_ngram_order = order;
        self.trie.set_max_order(order);
    }

    /// The name the file at `path` is recorded under at the current order.
    pub fn file_key(&self, path: &str) -> (r: String)
        ensures
            r@ == file_key_of(path@, self.order_spec()),
    {
        let name = match file_name_of(path) {
            Some(f) => f,
            None => path.to_string(),
        };
        let with_at = concat(name.as_str(), "@");
        concat(with_at.as_str(), to_decimal(self.max_ngram_order).as_str())
    }

    /// Whether the file at `path` was already loaded at the current order.
    pub fn is_loaded(&self, path: &str) -> (r: bool)
        ensures
            r == self.loaded_spec().contains(file_key_of(path@, self.order_spec())),
    {
        let key = self.file_key(path);
        let k = chars_of(key.as_str());
        let mut i: usize = 0;
        while i < self.loaded_keys.len()
            invariant
                i <= self.loaded_keys@.len(),
                k@ == file_key_of(path@, self.order_spec()),
                key@ == k@,
                forall|j: int| 0 <= j < i ==> views(self.loaded_keys@)[j] != k@,
            decreases self.loaded_keys@.len() - i,
        {
            assert(views(self.loaded_keys@)[i as int] == self.loaded_keys@[i as int]@);
            if crate::html::same_text(self.loaded_keys[i].as_str(), key.as_str()) {
                return true;
            }
            i = i + 1;
        }
        false
    }

    /// Loads a conversation export read from `path` (see `export_text`), unless a file of
    /// that name was already loaded at the current order. Its text trains the punctuation
    /// model; its tokens are recorded in chunks of about a thousand, no n-gram spanning
    /// two chunks; the file is recorded as loaded; and the words new to the vocabulary are
    /// added to it, most frequent first. A file whose words would overflow the punctuation
    /// counts, or a model that has loaded `usize::MAX` files, loads nothing.
    #[verifier::spinoff_prover]
    pub fn load_document(&mut self, path: &str, data: &Json) -> (r: LoadOutcome)
        requires
            old(self).wf(),
        ensures
            final(self).wf(),
            ({
                let key = file_key_of(path@, old(self).order_spec());
                let text = export_text(*data);
                let ts = tokens(text);
                let mo = old(self).order_spec() as int;
                let unchanged = {
                    &&& final(self).trie_spec() == old(self).trie_spec()
                    &&& final(self).punct_counts() == old(self).punct_counts()
                    &&& final(self).loaded_spec() == old(self).loaded_spec()
                    &&& final(self).files_spec() == old(self).files_spec()
                    &&& final(self).vocab_spec() == old(self).vocab_spec()
                    &&& final(self).dict_spec() == old(self).dict_spec()
                };
                &&& final(self).order_spec() == old(self).order_spec()
                &&& if old(self).loaded_spec().contains(key) {
                    r is AlreadyLoaded && unchanged
                } else if old(self).punct_seen() + words(text).len() > usize::MAX || old(self).files_spec() == usize::MAX {
                    r is TooLarge && unchanged
                } else {
                    r matches LoadOutcome::Loaded(rep) && {
                        let l = chunk_sightings(ts, 1000, chunk_count(ts.len(), 1000), mo);
                        let k = room(old(self).trie_spec().recorded(), l.len());
                        let nw = rep.new_words@;
                        &&& final(self).trie_spec().view() == apply_sightings(old(self).trie_spec().view(), l.take(k as int))
                        &&& final(self).trie_spec().recorded() == old(self).trie_spec().recorded() + k
                        &&& final(self).trie_spec().order_limit() == old(self).trie_spec().order_limit()
                        &&& final(self).trie_spec().boost_table() == old(self).trie_spec().boost_table()
                        &&& final(self).punct_counts() == trained(old(self).punct_counts(), words(text))
                        &&& final(self).loaded_spec() == old(self).loaded_spec().push(key)
                        &&& final(self).files_spec() == old(self).files_spec() + 1
                        &&& final(self).vocab_spec() == old(self).vocab_spec() + nw.map_values(|e: (String, usize)| e.0@)
                        &&& final(self).dict_spec() == (old(self).dict_spec() || is_dictionary_path(path@))
                        &&& rep.total_tokens == ts.len()
                        &&& rep.chunks == chunk_count(ts.len(), 1000)
                        &&& rep.chunk_size == chunk_size(ts.len(), 1000)
                        &&& rep.unique_words == ts.to_set().len()
                        &&& rep.layer == old(self).files_spec()
                        &&& rep.is_dict == is_dictionary_path(path@)
                        &&& fresh_words(nw, ts, old(self).vocab_spec())
                    }
                }
            }),
    {
        if self.is_loaded(path) {
            return LoadOutcome::AlreadyLoaded;
        }
        let key = self.file_key(path);
        let filename = match file_name_of(path) {
            Some(f) => f,
            None => path.to_string(),
        };
        let text = conversation_text(data);
        let tcs = chars_of(text.as_str());
        let tws = crate::text::split_whitespace(&tcs);
        let wcount = tws.len();
        proof {
            assert(views(tws@).len() == tws@.len());
        }
        if self.punct.seen() > usize::MAX - wcount || self.files_loaded == usize::MAX {
            return LoadOutcome::TooLarge;
        }
        let lower = to_lowercase(path);
        let lc = chars_of(lower.as_str());
        let is_dict = contains_chars(&lc, &chars_of("dict")) || contains_chars(&lc, &chars_of("definition"));
        self.punct.train(text.as_str());
        let toks = tokenize(text.as_str());
        let ghost ts = views(toks@);
        let total = toks.len();
        let n = chunk_count_of(total, 1000);
        let p = chunk_size_of(total, 1000);
        let ghost mo = self.max_ngram_order as int;
        let ghost v0 = self.trie.view();
        let ghost r0 = self.trie.recorded();
        proof {
            self.trie.lemma_recorded_fits();
            assert(chunk_sightings(ts, 1000, 0, mo).take(0) =~= Seq::<Sighting>::empty());
        }
        let ghost punct1 = self.punct;
        let mut c: usize = 0;
        while c < n
            invariant
                c <= n,
                self.punct == punct1,
                self.files_loaded == old(self).files_loaded,
                self.files_loaded < usize::MAX,
                self.vocab == old(self).vocab,
                self.vocab_index == old(self).vocab_index,
                self.loaded_keys == old(self).loaded_keys,
                self.loaded_infos == old(self).loaded_infos,
                self.dict_corpus_loaded == old(self).dict_corpus_loaded,
                self.max_ngram_order == old(self).max_ngram_order,
                n == chunk_count(total as nat, 1000),
                p == chunk_size(total as nat, 1000),
                total == toks@.len(),
                ts == views(toks@),
                self.trie.wf(),
                mo == self.trie.order_limit() as int,
                self.trie.boost_table() == old(self).trie.boost_table(),
                v0 == old(self).trie.view(),
                r0 == old(self).trie.recorded(),
                r0 <= usize::MAX,
                ({
                    let l = chunk_sightings(ts, 1000, c as nat, mo);
                    let k = room(r0, l.len());
                    &&& self.trie.view() == apply_sightings(v0, l.take(k as int))
                    &&& self.trie.recorded() == r0 + k
                }),
            decreases n - c,
        {
            proof {
                lemma_chunk_in_range(total as nat, 1000, c as nat);
            }
            let start = c * p;
            let e: u128 = ((c as u128) + 1) * (p as u128);
            let end = if e <= total as u128 { e as usize } else { total };
            let chunk = &toks.as_slice()[start..end];
            proof {
                assert(views(chunk@) =~= ts.subrange(start as int, end as int));
            }
            self.trie.insert_tokens(chunk);
            proof {
                let l1 = chunk_sightings(ts, 1000, c as nat, mo);
                let l2 = sightings(ts.subrange(start as int, end as int), mo, false);
                lemma_room_concat(v0, r0, l1, l2);
                assert(chunk_sightings(ts, 1000, (c + 1) as nat, mo) =~= l1 + l2);
            }
            c = c + 1;
        }
        let ghost keys0 = views(self.loaded_keys@);
        self.loaded_keys.push(key);
        proof {
            assert(views(self.loaded_keys@) =~= keys0.push(file_key_of(path@, old(self).order_spec())));
        }
        self.loaded_infos.push(FileLoadInfo { filename, ngram_level: self.max_ngram_order, load_count: 1 });
        let layer = self.files_loaded;
        self.files_loaded = self.files_loaded + 1;
        let (order, _counts) = crate::vocab::word_frequencies(&toks);
        let unique = order.len();
        proof {
            vstd::seq_lib::seq_to_set_is_finite(views(order@));
            views(order@).unique_seq_to_set();
            assert(views(order@).to_set() =~= ts.to_set());
        }
        let nw = new_words(&toks, &self.vocab_index);
        let ghost vocab0 = views(self.vocab@);
        let ghost nwv = nw@.map_values(|e: (String, usize)| e.0@);
        proof {
            assert forall|w: Seq<char>| #[trigger] ts.contains(w) && !vocab0.contains(w) implies exists|i: int|
                0 <= i < nw@.len() && (#[trigger] nw@[i]).0@ == w by {
                assert(!self.vocab_index@.contains_key(w));
            }
            assert forall|i: int| 0 <= i < nw@.len() implies !vocab0.contains((#[trigger] nw@[i]).0@) by {
                assert(!self.vocab_index@.contains_key(nw@[i].0@));
            }
        }
        let ghost trie2 = self.trie;
        let ghost punct2 = self.punct;
        let ghost keys2 = self.loaded_keys;
        let ghost infos2 = self.loaded_infos;
        let ghost files2 = self.files_loaded;
        let mut i: usize = 0;
        while i < nw.len()
            invariant
                i <= nw@.len(),
                self.trie == trie2,
                self.punct == punct2,
                self.loaded_keys == keys2,
                self.loaded_infos == infos2,
                self.files_loaded == files2,
                self.dict_corpus_loaded == old(self).dict_corpus_loaded,
                self.max_ngram_order == old(self).max_ngram_order,
                nwv == nw@.map_values(|e: (String, usize)| e.0@),
                views(self.vocab@) == vocab0 + nwv.take(i as int),
                forall|w: Seq<char>| #[trigger] self.vocab_index@.contains_key(w) <==> views(self.vocab@).contains(w),
                forall|i1: int, j1: int| 0 <= i1 < j1 < nw@.len() ==> nw@[i1].0@ != nw@[j1].0@,
                forall|i1: int| 0 <= i1 < nw@.len() ==> !vocab0.contains((#[trigger] nw@[i1]).0@),
            decreases nw@.len() - i,
        {
            let w = nw[i].0.clone();
            let idx = self.vocab.len();
            let ghost before = views(self.vocab@);
            self.vocab.push(w.clone());
            self.vocab_index.insert(w, idx);
            proof {
                assert(views(self.vocab@) =~= before.push(nw@[i as int].0@));
                assert(nwv.take(i as int + 1) =~= nwv.take(i as int).push(nw@[i as int].0@));
                assert forall|x: Seq<char>| #[trigger] self.vocab_index@.contains_key(x) <==> views(self.vocab@).contains(x) by {
                    if views(self.vocab@).contains(x) && x != nw@[i as int].0@ {
                        let j = choose|j: int| 0 <= j < views(self.vocab@).len() && views(self.vocab@)[j] == x;
                        assert(before[j] == x);
                    }
                    if before.contains(x) {
                        let j = choose|j: int| 0 <= j < before.len() && before[j] == x;
                        assert(views(self.vocab@)[j] == x);
                    }
                    if x == nw@[i as int].0@ {
                        assert(views(self.vocab@)[before.len() as int] == x);
                    }
                }
            }
            i = i + 1;
        }
        assert(nwv.take(i as int) =~= nwv);
        assert(fresh_words(nw@, ts, vocab0));
        if is_dict {
            self.dict_corpus_loaded = true;
        }
        LoadOutcome::Loaded(LoadReport {
            total_tokens: total,
            chunks: n,
            chunk_size: p,
            unique_words: unique,
            new_words: nw,
            layer,
            is_dict,
        })
    }

}

} // verus!
