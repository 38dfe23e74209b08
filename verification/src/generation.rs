//! Text handling around generated token paths: how a path is written out as it plays,
//! which tokens mark dictionary text, and how a path splits into sentences.
use vstd::prelude::*;
use crate::html::same_text;
use crate::text::{chars_of, join_with, string_of, views};

verus! {

/// The tokens that mark dictionary text: `:`, `(`, and the parts of speech.
pub open spec fn definition_marker(w: Seq<char>) -> bool {
    w == ":"@ || w == "("@ || w == "noun"@ || w == "verb"@ || w == "adjective"@ || w == "adverb"@
}

/// Whether `word` marks dictionary text.
pub fn is_likely_definition(word: &str) -> (r: bool)
    ensures
        r == definition_marker(word@),
{
    same_text(word, ":") || same_text(word, "(") || same_text(word, "noun") || same_text(word, "verb")
        || same_text(word, "adjective") || same_text(word, "adverb")
}

/// Punctuation that follows the previous token without a space.
pub open spec fn joins_tight(t: Seq<char>) -> bool {
    t == "."@ || t == ","@ || t == "!"@ || t == "?"@ || t == ";"@ || t == ":"@
}

/// A token that ends a sentence.
pub open spec fn ends_sentence(t: Seq<char>) -> bool {
    t == "."@ || t == "!"@ || t == "?"@
}

/// The text after writing out the token `tok`, the `index`-th of a path, after `out`: a
/// space first unless it is the first token or tight punctuation, and a line break after
/// a sentence end.
pub open spec fn written(out: Seq<char>, index: nat, tok: Seq<char>) -> Seq<char> {
    let sep: Seq<char> = if index > 0 && !joins_tight(tok) { seq![' '] } else { seq![] };
    let nl: Seq<char> = if ends_sentence(tok) { seq!['\n'] } else { seq![] };
    out + sep + tok + nl
}

/// Writes out the token `tok`, the `index`-th of a generated path (see `written`).
pub fn append_generated(out: &mut String, index: usize, tok: &str)
    ensures
        final(out)@ == written(old(out)@, index as nat, tok@),
{
    let mut cs = chars_of(out.as_str());
    let ghost o = cs@;
    let tight = same_text(tok, ".") || same_text(tok, ",") || same_text(tok, "!") || same_text(tok, "?")
        || same_text(tok, ";") || same_text(tok, ":");
    if index > 0 && !tight {
        cs.push(' ');
    }
    let ghost o2 = cs@;
    let t = chars_of(tok);
    let mut i: usize = 0;
    while i < t.len()
        invariant
            i <= t@.len(),
            cs@ == o2 + t@.take(i as int),
        decreases t@.len() - i,
    {
        cs.push(t[i]);
        i = i + 1;
        assert(cs@ =~= o2 + t@.take(i as int));
    }
    assert(t@.take(i as int) =~= t@);
    let ghost o3 = cs@;
    if same_text(tok, ".") || same_text(tok, "!") || same_text(tok, "?") {
        cs.push('\n');
    }
    proof {
        let sep: Seq<char> = if index > 0 && !joins_tight(tok@) { seq![' '] } else { seq![] };
        let nl: Seq<char> = if ends_sentence(tok@) { seq!['\n'] } else { seq![] };
        assert(o2 =~= o + sep);
        assert(cs@ =~= o + sep + tok@ + nl);
    }
    *out = string_of(&cs);
}

/// The part of a generated path after its seed: the tokens past the first `seed_len`
/// when there are more, else the whole path.
pub fn path_after_seed(path: &Vec<String>, seed_len: usize) -> (r: Vec<String>)
    ensures
        r@ == if path@.len() > seed_len { path@.skip(seed_len as int) } else { path@ },
{
    let start = if path.len() > seed_len { seed_len } else { 0 };
    let mut out: Vec<String> = Vec::new();
    let mut i: usize = start;
    while i < path.len()
        invariant
            start <= i <= path@.len(),
            out@ == path@.subrange(start as int, i as int),
        decreases path@.len() - i,
    {
        out.push(path[i].clone());
        i = i + 1;
        assert(out@ =~= path@.subrange(start as int, i as int));
    }
    assert(path@.subrange(start as int, path@.len() as int) =~= path@.skip(start as int));
    assert(path@.skip(0) =~= path@);
    out
}

/// The sentences of `ts` ended so far, with the tokens of the one under way: each token
/// joins the current sentence, and a sentence end closes it, keeping it (joined by
/// spaces) when it has more than one token.
pub open spec fn sentences_from(ts: Seq<Seq<char>>) -> (Seq<Seq<char>>, Seq<Seq<char>>)
    decreases ts.len(),
{
    if ts.len() == 0 {
        (seq![], seq![])
    } else {
        let prev = sentences_from(ts.drop_last());
        let cur = prev.1.push(ts.last());
        if ends_sentence(ts.last()) {
            (if cur.len() > 1 { prev.0.push(join_with(cur, seq![' '])) } else { prev.0 }, seq![])
        } else {
            (prev.0, cur)
        }
    }
}

/// The finished sentences of the tokens `tokens` (see `sentences_from`).
pub fn sentences(tokens: &[String]) -> (r: Vec<String>)
    ensures
        views(r@) == sentences_from(views(tokens@)).0,
{
    let mut out: Vec<String> = Vec::new();
    let mut current: Vec<String> = Vec::new();
    let mut i: usize = 0;
    while i < tokens.len()
        invariant
            i <= tokens@.len(),
            views(out@) == sentences_from(views(tokens@).take(i as int)).0,
            views(current@) == sentences_from(views(tokens@).take(i as int)).1,
        decreases tokens@.len() - i,
    {
        let t = &tokens[i];
        proof {
            assert(views(tokens@).take(i as int + 1).drop_last() =~= views(tokens@).take(i as int));
            assert(views(tokens@).take(i as int + 1).last() == t@);
        }
        let ghost c0 = views(current@);
        current.push(t.clone());
        assert(views(current@) =~= c0.push(t@));
        if same_text(t.as_str(), ".") || same_text(t.as_str(), "!") || same_text(t.as_str(), "?") {
            if current.len() > 1 {
                let joined = crate::text::join_words(&current);
                let ghost o0 = views(out@);
                out.push(string_of(&joined));
                assert(views(out@) =~= o0.push(join_with(views(current@), seq![' '])));
            }
            current = Vec::new();
            assert(views(current@) =~= Seq::<Seq<char>>::empty());
        }
        i = i + 1;
    }
    assert(views(tokens@).take(i as int) =~= views(tokens@));
    out
}

} // verus!
