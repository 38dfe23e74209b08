//! Which sentence-ending mark tends to follow a word: counted from training text, and
//! suggested once a sentence has run long enough.
use vstd::prelude::*;
use vstd::hash_map::StringHashMap;
use crate::text::{
    char_is_alphanumeric, chars_of, is_alphanumeric_char, lowercase_of, split_whitespace,
    string_of, to_lowercase, views, words,
};

verus! {

/// The place of a sentence-ending mark among `.`, `!` and `?`; none for other characters.
pub open spec fn mark_slot(c: char) -> Option<int> {
    if c == '.' {
        Some(0)
    } else if c == '!' {
        Some(1)
    } else if c == '?' {
        Some(2)
    } else {
        None
    }
}

/// The mark at a place: `.`, `!` or `?`.
pub open spec fn slot_mark(i: int) -> char {
    if i == 0 {
        '.'
    } else if i == 1 {
        '!'
    } else {
        '?'
    }
}

/// `w` without the characters at its end that are not alphanumeric.
pub open spec fn strip_trailing(w: Seq<char>) -> Seq<char>
    decreases w.len(),
{
    if w.len() > 0 && !is_alphanumeric_char(w.last()) {
        strip_trailing(w.drop_last())
    } else {
        w
    }
}

/// The counts of the three marks after one word.
pub type MarkCounts = (usize, usize, usize);

/// One of the three counts.
pub open spec fn count_at(t: MarkCounts, i: int) -> nat {
    if i == 0 {
        t.0 as nat
    } else if i == 1 {
        t.1 as nat
    } else {
        t.2 as nat
    }
}

/// The counts with one more at place `i`.
pub open spec fn bump_at(t: MarkCounts, i: int) -> MarkCounts {
    if i == 0 {
        ((t.0 + 1) as usize, t.1, t.2)
    } else if i == 1 {
        (t.0, (t.1 + 1) as usize, t.2)
    } else {
        (t.0, t.1, (t.2 + 1) as usize)
    }
}

/// The counts after seeing the words `ws`: each word that ends in `.`, `!` or `?` counts
/// that mark once more after the word stripped of trailing non-alphanumerics, in lower
/// case.
pub open spec fn trained(m: Map<Seq<char>, MarkCounts>, ws: Seq<Seq<char>>) -> Map<Seq<char>, MarkCounts>
    decreases ws.len(),
{
    if ws.len() == 0 {
        m
    } else {
        let m1 = trained(m, ws.drop_last());
        let w = ws.last();
        if w.len() > 0 && mark_slot(w.last()) is Some {
            let key = lowercase_of(strip_trailing(w));
            let old_counts = if m1.contains_key(key) {
                m1[key]
            } else {
                (0usize, 0usize, 0usize)
            };
            m1.insert(key, bump_at(old_counts, mark_slot(w.last())->0))
        } else {
            m1
        }
    }
}

/// The punctuation model.
pub struct PunctuationModel {
    word_to_punct: StringHashMap<MarkCounts>,
    seen: usize,
}

impl PunctuationModel {
    /// The counts of each mark after each word.
    pub closed spec fn counts(&self) -> Map<Seq<char>, MarkCounts> {
        self.word_to_punct@
    }

    /// How many marks have been counted in all.
    pub closed spec fn seen_spec(&self) -> nat {
        self.seen as nat
    }

    /// No count exceeds the number of marks counted in all.
    pub closed spec fn wf(&self) -> bool {
        forall|k: Seq<char>|
            #[trigger] self.word_to_punct@.contains_key(k) ==> {
                let t = self.word_to_punct@[k];
                t.0 + t.1 + t.2 <= self.seen
            }
    }

    /// A model that has counted nothing.
    pub fn new() -> (r: PunctuationModel)
        ensures
            r.wf(),
            r.counts() == Map::<Seq<char>, MarkCounts>::empty(),
            r.seen_spec() == 0,
    {
        PunctuationModel { word_to_punct: StringHashMap::new(), seen: 0 }
    }

    /// How many marks have been counted in all.
    pub fn seen(&self) -> (r: usize)
        ensures
            r == self.seen_spec(),
    {
        self.seen
    }

    /// Counts the sentence-ending marks of the words of `text` (see `trained`).
    pub fn train(&mut self, text: &str)
        requires
            old(self).wf(),
            old(self).seen_spec() + words(text@).len() <= usize::MAX,
        ensures
            final(self).wf(),
            final(self).counts() == trained(old(self).counts(), words(text@)),
            final(self).seen_spec() <= old(self).seen_spec() + words(text@).len(),
    {
        let cs = chars_of(text);
        let ws = split_whitespace(&cs);
        let ghost wv = views(ws@);
        let ghost m0 = self.word_to_punct@;
        let ghost s0 = self.seen as nat;
        let mut i: usize = 0;
        assert(wv.take(0) =~= Seq::<Seq<char>>::empty());
        while i < ws.len()
            invariant
                self.wf(),
                wv == views(ws@),
                wv == words(text@),
                i <= wv.len(),
                s0 + wv.len() <= usize::MAX,
                self.seen <= s0 + i,
                self.word_to_punct@ == trained(m0, wv.take(i as int)),
            decreases wv.len() - i,
        {
            let w = chars_of(ws[i].as_str());
            proof {
                assert(wv.take(i as int + 1).drop_last() =~= wv.take(i as int));
                assert(wv.take(i as int + 1).last() == w@);
            }
            if w.len() > 0 {
                let last = w[w.len() - 1];
                let slot: usize = if last == '.' { 0 } else if last == '!' { 1 } else if last == '?' { 2 } else { 3 };
                if slot < 3 {
                    let stripped = strip_trailing_chars(&w);
                    let key = to_lowercase(string_of(&stripped).as_str());
                    let old_counts = match self.word_to_punct.get(key.as_str()) {
                        Some(t) => *t,
                        None => (0, 0, 0),
                    };
                    proof {
                        if self.word_to_punct@.contains_key(key@) {
                            assert(old_counts.0 + old_counts.1 + old_counts.2 <= self.seen);
                        }
                    }
                    let new_counts = if slot == 0 {
                        (old_counts.0 + 1, old_counts.1, old_counts.2)
                    } else if slot == 1 {
                        (old_counts.0, old_counts.1 + 1, old_counts.2)
                    } else {
                        (old_counts.0, old_counts.1, old_counts.2 + 1)
                    };
                    self.word_to_punct.insert(key, new_counts);
                    self.seen = self.seen + 1;
                    proof {
                        assert(new_counts == bump_at(old_counts, slot as int));
                    }
                }
            }
            i = i + 1;
        }
        assert(wv.take(i as int) =~= wv);
    }

    /// The mark to put after `word` when `tokens_since` tokens have passed since the last
    /// one: `.` after more than twenty; otherwise, after more than eight, the mark most
    /// often counted after the word when the word has more than five counted and that
    /// mark makes more than three tenths of them; otherwise none.
    pub fn suggest_punctuation(&self, word: &str, tokens_since: usize) -> (r: Option<char>)
        requires
            self.wf(),
        ensures
            tokens_since > 20 ==> r == Some('.'),
            tokens_since <= 20 ==> match r {
                Some(c) => {
                    &&& self.counts().contains_key(word@)
                    &&& tokens_since > 8
                    &&& mark_slot(c) is Some
                    &&& ({
                        let t = self.counts()[word@];
                        let total = count_at(t, 0) + count_at(t, 1) + count_at(t, 2);
                        let n = count_at(t, mark_slot(c)->0);
                        &&& total > 5
                        &&& forall|i: int| 0 <= i < 3 ==> count_at(t, i) <= n
                        &&& n * 10 > total * 3
                    })
                },
                None => !self.counts().contains_key(word@) || tokens_since <= 8 || {
                    let t = self.counts()[word@];
                    let total = count_at(t, 0) + count_at(t, 1) + count_at(t, 2);
                    total <= 5 || forall|i: int| 0 <= i < 3 ==> count_at(t, i) * 10 <= total * 3
                },
            },
    {
        if tokens_since > 20 {
            return Some('.');
        }
        match self.word_to_punct.get(word) {
            None => None,
            Some(t) => {
                let t = *t;
                proof {
                    assert(t.0 + t.1 + t.2 <= self.seen);
                }
                let total = t.0 + t.1 + t.2;
                if total > 5 && tokens_since > 8 {
                    let (c, n) = if t.0 >= t.1 && t.0 >= t.2 {
                        ('.', t.0)
                    } else if t.1 >= t.2 {
                        ('!', t.1)
                    } else {
                        ('?', t.2)
                    };
                    if (n as u128) * 10 > (total as u128) * 3 {
                        return Some(c);
                    }
                }
                None
            },
        }
    }
}

/// `w` without its trailing characters that are not alphanumeric.
fn strip_trailing_chars(w: &Vec<char>) -> (r: Vec<char>)
    ensures
        r@ == strip_trailing(w@),
{
    let mut n: usize = w.len();
    assert(w@.take(n as int) =~= w@);
    while n > 0 && !char_is_alphanumeric(w[n - 1])
        invariant
            n <= w@.len(),
            strip_trailing(w@.take(n as int)) == strip_trailing(w@),
        decreases n,
    {
        proof {
            assert(w@.take(n as int).drop_last() =~= w@.take(n as int - 1));
        }
        n = n - 1;
    }
    proof {
        if n == w@.len() {
            assert(w@.take(n as int) =~= w@);
        }
    }
    let mut r: Vec<char> = Vec::new();
    let mut i: usize = 0;
    while i < n
        invariant
            i <= n <= w@.len(),
            r@ == w@.take(i as int),
        decreases n - i,
    {
        r.push(w[i]);
        i = i + 1;
        assert(r@ =~= w@.take(i as int));
    }
    r
}

} // verus!
