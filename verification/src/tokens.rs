//! Splitting text into lower-case word and punctuation tokens.
use vstd::prelude::*;
use crate::text::{
    all_ascii, ascii_lower_char, chars_of, char_is_alphanumeric, char_is_whitespace,
    is_alphanumeric_char, is_ascii_char, is_white_space, join_with, lemma_join_chars,
    lemma_join_map, lemma_words_chars, lemma_words_of_join, lowercase_of, no_white_space,
    plain_words, string_of, to_lowercase, views, words, split_whitespace,
};

verus! {

/// The boundary marker as it reads after lower-casing.
pub open spec fn lower_marker() -> Seq<char> {
    seq!['<', 'm', 's', 'g', '>']
}

/// The boundary marker token.
pub open spec fn marker() -> Seq<char> {
    seq!['<', 'M', 'S', 'G', '>']
}

/// The letters and digits of a word.
pub open spec fn word_core(w: Seq<char>) -> Seq<char> {
    w.filter(|c: char| is_alphanumeric_char(c))
}

/// The characters of a word that are neither letters, digits nor white space.
pub open spec fn word_punct(w: Seq<char>) -> Seq<char> {
    w.filter(|c: char| !is_alphanumeric_char(c) && !is_white_space(c))
}

/// The non-empty pieces of `ps`, in order.
pub open spec fn non_empty(ps: Seq<Seq<char>>) -> Seq<Seq<char>> {
    ps.filter(|p: Seq<char>| p.len() > 0)
}

/// The tokens one lower-cased word gives: the boundary marker for `<msg>`; otherwise its
/// letters and digits, then its other characters, leaving out whichever part is empty.
pub open spec fn word_tokens(w: Seq<char>) -> Seq<Seq<char>> {
    if w == lower_marker() {
        seq![marker()]
    } else {
        let clean = word_core(w);
        let punct = word_punct(w);
        let pieces = if punct.len() == 0 {
            seq![clean]
        } else if clean.len() == 0 {
            seq![punct]
        } else {
            seq![clean, punct]
        };
        non_empty(pieces)
    }
}

/// The tokens of a sequence of words, in order.
pub open spec fn tokens_of_words(ws: Seq<Seq<char>>) -> Seq<Seq<char>>
    decreases ws.len(),
{
    if ws.len() == 0 {
        seq![]
    } else {
        tokens_of_words(ws.drop_last()) + word_tokens(ws.last())
    }
}

/// The tokens of a text: the words of its lower-cased form, each split as `word_tokens` says.
pub open spec fn tokens(s: Seq<char>) -> Seq<Seq<char>> {
    tokens_of_words(words(lowercase_of(s)))
}

/// The alphanumeric characters of `w`, and its other characters that are not white space.
fn split_word(w: &[char]) -> (r: (Vec<char>, Vec<char>))
    ensures
        r.0@ == word_core(w@),
        r.1@ == word_punct(w@),
{
    let ghost f = |c: char| is_alphanumeric_char(c);
    let ghost g = |c: char| !is_alphanumeric_char(c) && !is_white_space(c);
    let mut clean: Vec<char> = Vec::new();
    let mut punct: Vec<char> = Vec::new();
    let mut i: usize = 0;
    while i < w.len()
        invariant
            i <= w@.len(),
            f == (|c: char| is_alphanumeric_char(c)),
            g == (|c: char| !is_alphanumeric_char(c) && !is_white_space(c)),
            clean@ == w@.take(i as int).filter(f),
            punct@ == w@.take(i as int).filter(g),
        decreases w@.len() - i,
    {
        proof {
            reveal_with_fuel(Seq::filter, 1);
            assert(w@.take(i as int + 1).drop_last() =~= w@.take(i as int));
        }
        let c = w[i];
        let alnum = char_is_alphanumeric(c);
        if alnum {
            clean.push(c);
        } else if !char_is_whitespace(c) {
            punct.push(c);
        }
        i = i + 1;
    }
    assert(w@.take(i as int) =~= w@);
    (clean, punct)
}

/// Whether `w` is the lower-cased boundary marker.
fn is_lower_marker(w: &[char]) -> (r: bool)
    ensures
        r == (w@ == lower_marker()),
{
    let r = w.len() == 5 && w[0] == '<' && w[1] == 'm' && w[2] == 's' && w[3] == 'g' && w[4] == '>';
    proof {
        if w@.len() == 5 && w@[0] == '<' && w@[1] == 'm' && w@[2] == 's' && w@[3] == 'g' && w@[4] == '>' {
            assert(w@ =~= lower_marker());
        }
    }
    r
}

/// Appends the tokens of one word to `out`.
fn push_word_tokens(out: &mut Vec<String>, w: &[char])
    ensures
        views(final(out)@) == views(old(out)@) + word_tokens(w@),
{
    if is_lower_marker(w) {
        let m = vec!['<', 'M', 'S', 'G', '>'];
        assert(m@ =~= marker());
        let ghost before = views(out@);
        out.push(string_of(&m));
        assert(views(out@) =~= before + seq![marker()]);
        return;
    }
    let (clean, punct) = split_word(w);
    let ghost before = views(out@);
    let ghost pieces = if punct@.len() == 0 {
        seq![clean@]
    } else if clean@.len() == 0 {
        seq![punct@]
    } else {
        seq![clean@, punct@]
    };
    proof {
        reveal_with_fuel(Seq::filter, 3);
        assert(pieces.len() == 1 ==> pieces.drop_last() =~= Seq::<Seq<char>>::empty());
        assert(pieces.len() == 2 ==> pieces.drop_last() =~= seq![clean@]);
        assert(seq![clean@].drop_last() =~= Seq::<Seq<char>>::empty());
        assert(seq![punct@].drop_last() =~= Seq::<Seq<char>>::empty());
    }
    if punct.len() == 0 {
        if clean.len() > 0 {
            out.push(string_of(&clean));
            assert(views(out@) =~= before + non_empty(pieces));
        } else {
            assert(views(out@) =~= before + non_empty(pieces));
        }
    } else if clean.len() == 0 {
        out.push(string_of(&punct));
        assert(views(out@) =~= before + non_empty(pieces));
    } else {
        out.push(string_of(&clean));
        out.push(string_of(&punct));
        assert(views(out@) =~= before + non_empty(pieces));
    }
}

/// Lower-cases `text`, splits it at white space, and splits each word into its letters and
/// digits followed by its other characters; `<msg>` becomes the boundary marker `<MSG>`.
pub fn tokenize(text: &str) -> (r: Vec<String>)
    ensures
        views(r@) == tokens(text@),
{
    let lower = to_lowercase(text);
    let cs = chars_of(lower.as_str());
    let ws = split_whitespace(&cs);
    let mut out: Vec<String> = Vec::new();
    let mut i: usize = 0;
    while i < ws.len()
        invariant
            i <= ws@.len(),
            views(ws@) == words(lowercase_of(text@)),
            views(out@) == tokens_of_words(views(ws@).take(i as int)),
        decreases ws@.len() - i,
    {
        let w = chars_of(ws[i].as_str());
        proof {
            assert(views(ws@).take(i as int + 1).drop_last() =~= views(ws@).take(i as int));
        }
        push_word_tokens(&mut out, &w);
        i = i + 1;
    }
    assert(views(ws@).take(i as int) =~= views(ws@));
    out
}

/// An ASCII character that is not an upper-case letter.
pub open spec fn lower_ascii(c: char) -> bool {
    is_ascii_char(c) && !('A' <= c && c <= 'Z')
}

/// `t` is a token of lower-cased ASCII text: the boundary marker, a run of letters and
/// digits, or a run of other characters that are not white space.
pub open spec fn ascii_token(t: Seq<char>) -> bool {
    ||| t == marker()
    ||| (t.len() > 0 && forall|k: int|
        0 <= k < t.len() ==> is_alphanumeric_char(#[trigger] t[k]) && lower_ascii(t[k]))
    ||| (t.len() > 0 && forall|k: int|
        0 <= k < t.len() ==> !is_alphanumeric_char(#[trigger] t[k]) && !is_white_space(t[k])
            && lower_ascii(t[k]))
}

/// What `p` keeps of `s` satisfies `q` where all of `s` does.
proof fn lemma_filter_all<A>(s: Seq<A>, p: spec_fn(A) -> bool, q: spec_fn(A) -> bool)
    requires
        forall|i: int| 0 <= i < s.len() ==> q(#[trigger] s[i]),
    ensures
        forall|i: int| 0 <= i < s.filter(p).len() ==> q(#[trigger] s.filter(p)[i]) && p(s.filter(p)[i]),
    decreases s.len(),
{
    reveal_with_fuel(Seq::filter, 1);
    if s.len() > 0 {
        assert forall|i: int| 0 <= i < s.drop_last().len() implies q(#[trigger] s.drop_last()[i]) by {
            assert(s.drop_last()[i] == s[i]);
        }
        lemma_filter_all(s.drop_last(), p, q);
        let f = s.drop_last().filter(p);
        if p(s.last()) {
            assert forall|i: int| 0 <= i < f.push(s.last()).len() implies q(#[trigger] f.push(s.last())[i])
                && p(f.push(s.last())[i]) by {
                if i < f.len() {
                    assert(f.push(s.last())[i] == f[i]);
                }
            }
        }
    }
}

/// Filtering by a predicate that all of `s` satisfies keeps all of `s`; by one that none
/// of `s` satisfies, nothing.
proof fn lemma_filter_extremes(s: Seq<char>, p: spec_fn(char) -> bool)
    ensures
        (forall|i: int| 0 <= i < s.len() ==> p(#[trigger] s[i])) ==> s.filter(p) == s,
        (forall|i: int| 0 <= i < s.len() ==> !p(#[trigger] s[i])) ==> s.filter(p).len() == 0,
    decreases s.len(),
{
    reveal_with_fuel(Seq::filter, 1);
    if s.len() > 0 {
        lemma_filter_extremes(s.drop_last(), p);
        if forall|i: int| 0 <= i < s.len() ==> p(#[trigger] s[i]) {
            assert forall|i: int| 0 <= i < s.drop_last().len() implies p(#[trigger] s.drop_last()[i]) by {
                assert(s.drop_last()[i] == s[i]);
            }
            assert(p(s[s.len() - 1]));
            assert(s.drop_last().push(s.last()) =~= s);
        }
        if forall|i: int| 0 <= i < s.len() ==> !p(#[trigger] s[i]) {
            assert forall|i: int| 0 <= i < s.drop_last().len() implies !p(#[trigger] s.drop_last()[i]) by {
                assert(s.drop_last()[i] == s[i]);
            }
            assert(!p(s[s.len() - 1]));
        }
    }
}

/// The tokens of a plain word of lower-case ASCII are tokens of lower-cased ASCII text.
proof fn lemma_word_tokens_ascii(w: Seq<char>)
    requires
        w.len() > 0,
        no_white_space(w),
        forall|k: int| 0 <= k < w.len() ==> lower_ascii(#[trigger] w[k]),
    ensures
        forall|i: int| 0 <= i < word_tokens(w).len() ==> ascii_token(#[trigger] word_tokens(w)[i]),
{
    if w != lower_marker() {
        let fa = |c: char| is_alphanumeric_char(c);
        let fp = |c: char| !is_alphanumeric_char(c) && !is_white_space(c);
        let q = |c: char| lower_ascii(c);
        lemma_filter_all(w, fa, q);
        lemma_filter_all(w, fp, q);
        let clean = word_core(w);
        let punct = word_punct(w);
        let pieces = if punct.len() == 0 {
            seq![clean]
        } else if clean.len() == 0 {
            seq![punct]
        } else {
            seq![clean, punct]
        };
        let fe = |p: Seq<char>| p.len() > 0;
        let qa = |p: Seq<char>| p == clean || p == punct;
        lemma_filter_all(pieces, fe, qa);
        assert forall|i: int| 0 <= i < non_empty(pieces).len() implies ascii_token(
            #[trigger] non_empty(pieces)[i],
        ) by {
            let t = non_empty(pieces)[i];
            assert(t.len() > 0);
            if t == clean {
                assert forall|k: int| 0 <= k < t.len() implies is_alphanumeric_char(#[trigger] t[k])
                    && lower_ascii(t[k]) by {
                    assert(fa(clean[k]) && q(clean[k]));
                }
            } else {
                assert(t == punct);
                assert forall|k: int| 0 <= k < t.len() implies !is_alphanumeric_char(#[trigger] t[k])
                    && !is_white_space(t[k]) && lower_ascii(t[k]) by {
                    assert(fp(punct[k]) && q(punct[k]));
                }
            }
        }
    }
}

/// The tokens of plain words of lower-case ASCII are tokens of lower-cased ASCII text.
proof fn lemma_tokens_of_words_ascii(ws: Seq<Seq<char>>)
    requires
        plain_words(ws),
        forall|i: int, k: int| 0 <= i < ws.len() && 0 <= k < ws[i].len() ==> lower_ascii(#[trigger] ws[i][k]),
    ensures
        forall|i: int| 0 <= i < tokens_of_words(ws).len() ==> ascii_token(#[trigger] tokens_of_words(ws)[i]),
    decreases ws.len(),
{
    if ws.len() > 0 {
        let dl = ws.drop_last();
        assert forall|i: int| 0 <= i < dl.len() implies (#[trigger] dl[i]).len() > 0 && no_white_space(dl[i]) by {
            assert(dl[i] == ws[i]);
        }
        assert forall|i: int, k: int| 0 <= i < dl.len() && 0 <= k < dl[i].len() implies lower_ascii(
            #[trigger] dl[i][k],
        ) by {
            assert(dl[i] == ws[i]);
        }
        lemma_tokens_of_words_ascii(dl);
        let l = ws.last();
        assert(l == ws[ws.len() - 1]);
        assert forall|k: int| 0 <= k < l.len() implies lower_ascii(#[trigger] l[k]) by {
            assert(lower_ascii(ws[ws.len() - 1][k]));
        }
        lemma_word_tokens_ascii(l);
        let a = tokens_of_words(dl);
        let b = word_tokens(l);
        assert forall|i: int| 0 <= i < (a + b).len() implies ascii_token(#[trigger] (a + b)[i]) by {
            if i < a.len() {
                assert((a + b)[i] == a[i]);
            } else {
                assert((a + b)[i] == b[i - a.len()]);
            }
        }
    }
}

/// A token lower-cased: the marker becomes `<msg>`, every other token stays.
pub open spec fn lower_token(t: Seq<char>) -> Seq<char> {
    t.map_values(|c: char| ascii_lower_char(c))
}

/// A token of lower-cased ASCII text, lower-cased and tokenized again, is itself.
proof fn lemma_retokenize_one(t: Seq<char>)
    requires
        ascii_token(t),
    ensures
        lower_token(t).len() > 0,
        no_white_space(lower_token(t)),
        word_tokens(lower_token(t)) == seq![t],
{
    let f = |c: char| ascii_lower_char(c);
    if t == marker() {
        assert(lower_token(t) =~= lower_marker());
    } else {
        assert(lower_token(t) =~= t);
        let fa = |c: char| is_alphanumeric_char(c);
        let fp = |c: char| !is_alphanumeric_char(c) && !is_white_space(c);
        lemma_filter_extremes(t, fa);
        lemma_filter_extremes(t, fp);
        let fe = |p: Seq<char>| p.len() > 0;
        reveal_with_fuel(Seq::filter, 2);
        if forall|k: int| 0 <= k < t.len() ==> is_alphanumeric_char(#[trigger] t[k]) && lower_ascii(t[k]) {
            assert(is_alphanumeric_char(t[0]));
            assert(t != lower_marker());
            assert(word_core(t) == t);
            assert(word_punct(t).len() == 0);
            assert(seq![t].drop_last() =~= Seq::<Seq<char>>::empty());
            assert(non_empty(seq![t]) =~= seq![t]);
        } else {
            assert(forall|k: int| 0 <= k < t.len() ==> !is_alphanumeric_char(#[trigger] t[k])
                && !is_white_space(t[k]) && lower_ascii(t[k]));
            if t == lower_marker() {
                assert(is_alphanumeric_char(t[1]));
            }
            assert(word_core(t).len() == 0);
            assert(word_punct(t) == t);
            assert(seq![t].drop_last() =~= Seq::<Seq<char>>::empty());
            assert(non_empty(seq![t]) =~= seq![t]);
        }
    }
}

/// Tokens of lower-cased ASCII text, each lower-cased, tokenize back to themselves.
proof fn lemma_retokenize_all(ts: Seq<Seq<char>>)
    requires
        forall|i: int| 0 <= i < ts.len() ==> ascii_token(#[trigger] ts[i]),
    ensures
        tokens_of_words(ts.map_values(|t: Seq<char>| lower_token(t))) == ts,
    decreases ts.len(),
{
    let g = |t: Seq<char>| lower_token(t);
    if ts.len() > 0 {
        let dl = ts.drop_last();
        assert forall|i: int| 0 <= i < dl.len() implies ascii_token(#[trigger] dl[i]) by {
            assert(dl[i] == ts[i]);
        }
        lemma_retokenize_all(dl);
        assert(ts.map_values(g).drop_last() =~= dl.map_values(g));
        assert(ts.map_values(g).last() == lower_token(ts.last()));
        assert(ascii_token(ts[ts.len() - 1]));
        lemma_retokenize_one(ts.last());
        assert(dl + seq![ts.last()] =~= ts);
    }
}

/// Tokenizing the tokens of an ASCII text, joined by spaces, gives the same tokens.
pub proof fn lemma_retokenize_ascii(text: Seq<char>)
    requires
        all_ascii(text),
    ensures
        tokens(join_with(tokens(text), seq![' '])) == tokens(text),
{
    let f = |c: char| ascii_lower_char(c);
    let q = |c: char| lower_ascii(c);
    let low = lowercase_of(text);
    assert(low == text.map_values(f));
    assert forall|i: int| 0 <= i < low.len() implies q(#[trigger] low[i]) by {
        assert(low[i] == ascii_lower_char(text[i]));
        assert(is_ascii_char(text[i]));
    }
    lemma_words_chars(low, seq![], q);
    let ws = words(low);
    lemma_tokens_of_words_ascii(ws);
    let ts = tokens(text);
    assert(ts == tokens_of_words(ws));
    let qa = |c: char| is_ascii_char(c);
    assert forall|i: int, k: int| 0 <= i < ts.len() && 0 <= k < ts[i].len() implies qa(#[trigger] ts[i][k]) by {
        assert(ascii_token(ts[i]));
        if ts[i] == marker() {
            assert(is_ascii_char(marker()[k]));
        } else {
            assert(lower_ascii(ts[i][k]));
        }
    }
    lemma_join_chars(ts, seq![' '], qa);
    let joined = join_with(ts, seq![' ']);
    assert(all_ascii(joined));
    lemma_join_map(ts, seq![' '], f);
    assert(seq![' '].map_values(f) =~= seq![' ']);
    let g = |t: Seq<char>| lower_token(t);
    let h = |w: Seq<char>| w.map_values(f);
    assert(ts.map_values(h) =~= ts.map_values(g));
    let lts = ts.map_values(g);
    assert(lowercase_of(joined) == join_with(lts, seq![' ']));
    assert forall|i: int| 0 <= i < lts.len() implies (#[trigger] lts[i]).len() > 0 && no_white_space(lts[i]) by {
        assert(ascii_token(ts[i]));
        lemma_retokenize_one(ts[i]);
    }
    lemma_words_of_join(lts);
    lemma_retokenize_all(ts);
}

} // verus!
