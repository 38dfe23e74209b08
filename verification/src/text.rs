//! Character classes and the string operations that the corpus tools are built from:
//! white-space splitting, joining, trimming and line splitting, each stated over `Seq<char>`.
use vstd::prelude::*;

verus! {

/// The Unicode `White_Space` property, which `char::is_whitespace` tests.
pub open spec fn is_white_space(c: char) -> bool {
    ||| ('\u{9}' <= c && c <= '\u{d}')
    ||| c == ' '
    ||| c == '\u{85}'
    ||| c == '\u{a0}'
    ||| c == '\u{1680}'
    ||| ('\u{2000}' <= c && c <= '\u{200a}')
    ||| c == '\u{2028}'
    ||| c == '\u{2029}'
    ||| c == '\u{202f}'
    ||| c == '\u{205f}'
    ||| c == '\u{3000}'
}

/// Whether `c` is white space in the sense of `char::is_whitespace`.
pub fn char_is_whitespace(c: char) -> (r: bool)
    ensures
        r == is_white_space(c),
{
    ('\u{9}' <= c && c <= '\u{d}') || c == ' ' || c == '\u{85}' || c == '\u{a0}' || c == '\u{1680}'
        || ('\u{2000}' <= c && c <= '\u{200a}') || c == '\u{2028}' || c == '\u{2029}'
        || c == '\u{202f}' || c == '\u{205f}' || c == '\u{3000}'
}

/// A character of the ASCII range.
pub open spec fn is_ascii_char(c: char) -> bool {
    c <= '\u{7f}'
}

/// What `char::is_alphabetic` answers for a character beyond ASCII (the Unicode
/// `Alphabetic` property).
pub uninterp spec fn unicode_alphabetic(c: char) -> bool;

/// What `char::is_numeric` answers for a character beyond ASCII (general categories `Nd`,
/// `Nl`, `No`).
pub uninterp spec fn unicode_numeric(c: char) -> bool;

/// What `char::is_alphabetic` answers for `c`: an ASCII letter, or beyond ASCII the
/// Unicode `Alphabetic` property.
pub open spec fn is_alphabetic_char(c: char) -> bool {
    if is_ascii_char(c) {
        ('a' <= c && c <= 'z') || ('A' <= c && c <= 'Z')
    } else {
        unicode_alphabetic(c)
    }
}

/// What `char::is_numeric` answers for `c`: an ASCII digit, or beyond ASCII a character of
/// the general categories `Nd`, `Nl`, `No`.
pub open spec fn is_numeric_char(c: char) -> bool {
    if is_ascii_char(c) {
        '0' <= c && c <= '9'
    } else {
        unicode_numeric(c)
    }
}

/// What `char::is_uppercase` answers for a character beyond ASCII (the Unicode
/// `Uppercase` property).
pub uninterp spec fn unicode_uppercase(c: char) -> bool;

/// What `char::is_uppercase` answers for `c`: an ASCII capital, or beyond ASCII the
/// Unicode `Uppercase` property.
pub open spec fn is_uppercase_char(c: char) -> bool {
    if is_ascii_char(c) {
        'A' <= c && c <= 'Z'
    } else {
        unicode_uppercase(c)
    }
}

/// What `str::to_lowercase` returns for a string with a character beyond ASCII (Unicode
/// lower-case mapping, with the final-sigma rule).
pub uninterp spec fn unicode_lowercase_of(s: Seq<char>) -> Seq<char>;

/// Every character of `s` is ASCII.
pub open spec fn all_ascii(s: Seq<char>) -> bool {
    forall|i: int| 0 <= i < s.len() ==> is_ascii_char(#[trigger] s[i])
}

/// The ASCII lower case of `c`: `A` to `Z` become `a` to `z`, every other character stays.
pub open spec fn ascii_lower_char(c: char) -> char {
    if 'A' <= c && c <= 'Z' {
        ((c as u32) + 32) as char
    } else {
        c
    }
}

/// What `str::to_lowercase` returns for a string with the characters `s`: of an ASCII
/// string, its ASCII lower case.
pub open spec fn lowercase_of(s: Seq<char>) -> Seq<char> {
    if all_ascii(s) {
        s.map_values(|c: char| ascii_lower_char(c))
    } else {
        unicode_lowercase_of(s)
    }
}

/// `char::is_alphanumeric`, which its documentation defines as alphabetic or numeric.
pub open spec fn is_alphanumeric_char(c: char) -> bool {
    is_alphabetic_char(c) || is_numeric_char(c)
}

/// Calls `char::is_alphabetic`: true of the ASCII letters, and beyond ASCII the answer of a
/// fixed Unicode table, which the contract names.
#[verifier::external_body]
pub(crate) fn char_is_alphabetic(c: char) -> (r: bool)
    ensures
        r == is_alphabetic_char(c),
        !is_ascii_char(c) ==> r == unicode_alphabetic(c),
{
    c.is_alphabetic()
}

/// Calls `char::is_numeric`: true of the ASCII digits, and beyond ASCII the answer of a
/// fixed Unicode table, which the contract names.
#[verifier::external_body]
pub(crate) fn char_is_numeric(c: char) -> (r: bool)
    ensures
        r == is_numeric_char(c),
        !is_ascii_char(c) ==> r == unicode_numeric(c),
{
    c.is_numeric()
}

/// Calls `char::is_uppercase`: true of the ASCII capitals, and beyond ASCII the answer of
/// a fixed Unicode table, which the contract names.
#[verifier::external_body]
pub(crate) fn char_is_uppercase(c: char) -> (r: bool)
    ensures
        r == is_uppercase_char(c),
        !is_ascii_char(c) ==> r == unicode_uppercase(c),
{
    c.is_uppercase()
}

/// Alphabetic or numeric, as `char::is_alphanumeric`.
pub fn char_is_alphanumeric(c: char) -> (r: bool)
    ensures
        r == is_alphanumeric_char(c),
{
    char_is_alphabetic(c) || char_is_numeric(c)
}

/// Calls `str::to_lowercase`: of an ASCII string its ASCII lower case; otherwise the
/// contract names the result, which depends on the argument alone (Unicode lower-case
/// mapping, with the final-sigma rule).
#[verifier::external_body]
pub(crate) fn to_lowercase(s: &str) -> (r: String)
    ensures
        r@ == lowercase_of(s@),
        !all_ascii(s@) ==> r@ == unicode_lowercase_of(s@),
{
    s.to_lowercase()
}

/// Calls `String::push`, which appends one character.
#[verifier::external_body]
pub(crate) fn string_push(s: &mut String, c: char)
    ensures
        final(s)@ == old(s)@.push(c),
{
    s.push(c)
}

/// The characters of `s`, in order.
pub fn chars_of(s: &str) -> (v: Vec<char>)
    ensures
        v@ == s@,
{
    let mut v: Vec<char> = Vec::new();
    for c in it: s.chars()
        invariant
            it.seq() == s@,
            v@ == it.seq().take(it.index() as int),
    {
        assert(it.seq().take(it.index() as int + 1) =~= it.seq().take(it.index() as int).push(c));
        v.push(c);
    }
    assert(v@ =~= s@);
    v
}

/// A `String` holding the characters `v`.
pub fn string_of(v: &[char]) -> (s: String)
    ensures
        s@ == v@,
{
    let mut s = String::new();
    let mut i: usize = 0;
    while i < v.len()
        invariant
            i <= v@.len(),
            s@ == v@.take(i as int),
        decreases v@.len() - i,
    {
        assert(v@.take(i as int + 1) =~= v@.take(i as int).push(v@[i as int]));
        string_push(&mut s, v[i]);
        i = i + 1;
    }
    assert(v@.take(i as int) =~= v@);
    s
}

/// The words of `cur ++ s`, where `cur` is a word begun before `s`: the maximal runs of
/// characters that are not white space, in order.
pub open spec fn words_from(s: Seq<char>, cur: Seq<char>) -> Seq<Seq<char>>
    decreases s.len(),
{
    if s.len() == 0 {
        if cur.len() > 0 {
            seq![cur]
        } else {
            seq![]
        }
    } else if is_white_space(s[0]) {
        (if cur.len() > 0 {
            seq![cur]
        } else {
            seq![]
        }) + words_from(s.drop_first(), seq![])
    } else {
        words_from(s.drop_first(), cur.push(s[0]))
    }
}

/// What `str::split_whitespace` yields for `s`.
pub open spec fn words(s: Seq<char>) -> Seq<Seq<char>> {
    words_from(s, seq![])
}

/// The words `ws` with `sep` between each two of them, as `[T]::join`.
pub open spec fn join_with(ws: Seq<Seq<char>>, sep: Seq<char>) -> Seq<char>
    decreases ws.len(),
{
    if ws.len() == 0 {
        seq![]
    } else if ws.len() == 1 {
        ws[0]
    } else {
        join_with(ws.drop_last(), sep) + sep + ws.last()
    }
}

/// The words of `s` joined by single spaces: `s.split_whitespace().collect::<Vec<_>>().join(" ")`.
pub open spec fn collapse_spaces(s: Seq<char>) -> Seq<char> {
    join_with(words(s), seq![' '])
}

/// Adding one more word to a join adds the separator and the word.
pub proof fn lemma_join_push(ws: Seq<Seq<char>>, w: Seq<char>, sep: Seq<char>)
    ensures
        join_with(ws.push(w), sep) == if ws.len() == 0 {
            w
        } else {
            join_with(ws, sep) + sep + w
        },
{
    assert(ws.push(w).drop_last() =~= ws);
}

/// No character of `w` is white space.
pub open spec fn no_white_space(w: Seq<char>) -> bool {
    forall|k: int| 0 <= k < w.len() ==> !is_white_space(#[trigger] w[k])
}

/// Each of `ws` is a word: not empty, and without white space.
pub open spec fn plain_words(ws: Seq<Seq<char>>) -> bool {
    forall|i: int| 0 <= i < ws.len() ==> (#[trigger] ws[i]).len() > 0 && no_white_space(ws[i])
}

/// A run of characters without white space continues the word begun before it.
pub proof fn lemma_words_from_word(w: Seq<char>, t: Seq<char>, cur: Seq<char>)
    requires
        no_white_space(w),
    ensures
        words_from(w + t, cur) == words_from(t, cur + w),
    decreases w.len(),
{
    if w.len() == 0 {
        assert(w + t =~= t);
        assert(cur + w =~= cur);
    } else {
        assert((w + t)[0] == w[0]);
        assert((w + t).drop_first() =~= w.drop_first() + t);
        assert(cur.push(w[0]) + w.drop_first() =~= cur + w);
        assert forall|k: int| 0 <= k < w.drop_first().len() implies !is_white_space(
            #[trigger] w.drop_first()[k],
        ) by {
            assert(w.drop_first()[k] == w[k + 1]);
        }
        lemma_words_from_word(w.drop_first(), t, cur.push(w[0]));
    }
}

/// A join of two or more words is the first word, the separator, and the join of the rest.
pub proof fn lemma_join_front(ws: Seq<Seq<char>>, sep: Seq<char>)
    requires
        ws.len() >= 2,
    ensures
        join_with(ws, sep) == ws[0] + sep + join_with(ws.drop_first(), sep),
    decreases ws.len(),
{
    if ws.len() == 2 {
        assert(ws.drop_last().len() == 1);
        assert(ws.drop_first().len() == 1);
        assert(join_with(ws.drop_last(), sep) == ws[0]);
        assert(join_with(ws.drop_first(), sep) == ws.last());
    } else {
        lemma_join_front(ws.drop_last(), sep);
        assert(ws.drop_last().drop_first() =~= ws.drop_first().drop_last());
        assert(ws.drop_first().last() == ws.last());
        assert(join_with(ws, sep) =~= ws[0] + sep + join_with(ws.drop_first(), sep));
    }
}

/// Splitting words joined by single spaces at white space gives the words back.
pub proof fn lemma_words_of_join(ws: Seq<Seq<char>>)
    requires
        plain_words(ws),
    ensures
        words(join_with(ws, seq![' '])) == ws,
    decreases ws.len(),
{
    if ws.len() == 1 {
        assert(ws[0].len() > 0 && no_white_space(ws[0]));
        lemma_words_from_word(ws[0], seq![], seq![]);
        assert(ws[0] + Seq::<char>::empty() =~= ws[0]);
        assert(Seq::<char>::empty() + ws[0] =~= ws[0]);
        assert(ws =~= seq![ws[0]]);
    } else if ws.len() >= 2 {
        assert(ws[0].len() > 0 && no_white_space(ws[0]));
        lemma_join_front(ws, seq![' ']);
        let rest = join_with(ws.drop_first(), seq![' ']);
        assert(ws[0] + seq![' '] + rest =~= ws[0] + (seq![' '] + rest));
        lemma_words_from_word(ws[0], seq![' '] + rest, seq![]);
        assert(Seq::<char>::empty() + ws[0] =~= ws[0]);
        assert((seq![' '] + rest)[0] == ' ');
        assert((seq![' '] + rest).drop_first() =~= rest);
        assert forall|i: int| 0 <= i < ws.drop_first().len() implies (#[trigger] ws.drop_first()[i]).len()
            > 0 && no_white_space(ws.drop_first()[i]) by {
            assert(ws.drop_first()[i] == ws[i + 1]);
        }
        lemma_words_of_join(ws.drop_first());
        assert(ws =~= seq![ws[0]] + ws.drop_first());
    }
}

/// The words of characters that all satisfy `q` are plain words of such characters.
pub proof fn lemma_words_chars(s: Seq<char>, cur: Seq<char>, q: spec_fn(char) -> bool)
    requires
        forall|i: int| 0 <= i < s.len() ==> q(#[trigger] s[i]),
        forall|i: int| 0 <= i < cur.len() ==> q(#[trigger] cur[i]),
        no_white_space(cur),
    ensures
        plain_words(words_from(s, cur)),
        forall|i: int, k: int|
            0 <= i < words_from(s, cur).len() && 0 <= k < words_from(s, cur)[i].len() ==> q(
                #[trigger] words_from(s, cur)[i][k],
            ),
    decreases s.len(),
{
    if s.len() > 0 {
        assert forall|k: int| 0 <= k < s.drop_first().len() implies q(#[trigger] s.drop_first()[k]) by {
            assert(s.drop_first()[k] == s[k + 1]);
        }
        if is_white_space(s[0]) {
            lemma_words_chars(s.drop_first(), seq![], q);
            let head: Seq<Seq<char>> = if cur.len() > 0 { seq![cur] } else { seq![] };
            let tail = words_from(s.drop_first(), seq![]);
            assert(words_from(s, cur) == head + tail);
            assert forall|i: int| 0 <= i < (head + tail).len() implies (#[trigger] (head + tail)[i]).len() > 0
                && no_white_space((head + tail)[i]) by {
                if i >= head.len() {
                    assert((head + tail)[i] == tail[i - head.len()]);
                }
            }
            assert forall|i: int, k: int|
                0 <= i < (head + tail).len() && 0 <= k < (head + tail)[i].len() implies q(
                #[trigger] (head + tail)[i][k],
            ) by {
                if i >= head.len() {
                    assert((head + tail)[i] == tail[i - head.len()]);
                }
            }
        } else {
            let c2 = cur.push(s[0]);
            assert forall|k: int| 0 <= k < c2.len() implies q(#[trigger] c2[k]) && !is_white_space(c2[k]) by {
                if k < cur.len() {
                    assert(c2[k] == cur[k]);
                }
            }
            lemma_words_chars(s.drop_first(), c2, q);
        }
    }
}

/// Words whose characters all satisfy `q`, joined by a separator whose characters do too,
/// give characters that all satisfy `q`.
pub proof fn lemma_join_chars(ws: Seq<Seq<char>>, sep: Seq<char>, q: spec_fn(char) -> bool)
    requires
        forall|i: int, k: int| 0 <= i < ws.len() && 0 <= k < ws[i].len() ==> q(#[trigger] ws[i][k]),
        forall|k: int| 0 <= k < sep.len() ==> q(#[trigger] sep[k]),
    ensures
        forall|k: int| 0 <= k < join_with(ws, sep).len() ==> q(#[trigger] join_with(ws, sep)[k]),
    decreases ws.len(),
{
    if ws.len() == 1 {
        assert forall|k: int| 0 <= k < ws[0].len() implies q(#[trigger] ws[0][k]) by {
            assert(q(ws[0][k]));
        }
    } else if ws.len() >= 2 {
        let dl = ws.drop_last();
        assert forall|i: int, k: int| 0 <= i < dl.len() && 0 <= k < dl[i].len() implies q(#[trigger] dl[i][k]) by {
            assert(dl[i] == ws[i]);
        }
        lemma_join_chars(dl, sep, q);
        let a = join_with(dl, sep);
        let l = ws.last();
        assert forall|k: int| 0 <= k < (a + sep + l).len() implies q(#[trigger] (a + sep + l)[k]) by {
            if k < a.len() {
                assert((a + sep + l)[k] == a[k]);
            } else if k < a.len() + sep.len() {
                assert((a + sep + l)[k] == sep[k - a.len()]);
            } else {
                assert((a + sep + l)[k] == l[k - a.len() - sep.len()]);
                assert(q(ws[ws.len() - 1][k - a.len() - sep.len()]));
            }
        }
    }
}

/// Mapping each character of a join maps each word and the separator.
pub proof fn lemma_join_map(ws: Seq<Seq<char>>, sep: Seq<char>, f: spec_fn(char) -> char)
    ensures
        join_with(ws, sep).map_values(f) == join_with(
            ws.map_values(|w: Seq<char>| w.map_values(f)),
            sep.map_values(f),
        ),
    decreases ws.len(),
{
    let g = |w: Seq<char>| w.map_values(f);
    if ws.len() == 0 {
        assert(join_with(ws, sep).map_values(f) =~= Seq::<char>::empty());
    } else if ws.len() == 1 {
        assert(ws.map_values(g).len() == 1);
        assert(ws.map_values(g)[0] == ws[0].map_values(f));
    } else {
        let dl = ws.drop_last();
        lemma_join_map(dl, sep, f);
        assert(ws.map_values(g).drop_last() =~= dl.map_values(g));
        assert(ws.map_values(g).last() == ws.last().map_values(f));
        let a = join_with(dl, sep);
        assert((a + sep + ws.last()).map_values(f) =~= a.map_values(f) + sep.map_values(f)
            + ws.last().map_values(f));
    }
}

/// How many times `c` occurs in `s`.
pub open spec fn count_char(s: Seq<char>, c: char) -> nat
    decreases s.len(),
{
    if s.len() == 0 {
        0
    } else {
        count_char(s.drop_last(), c) + if s.last() == c {
            1nat
        } else {
            0nat
        }
    }
}

/// How many times `c` occurs in the words `ws`, all told.
pub open spec fn count_in_words(ws: Seq<Seq<char>>, c: char) -> nat
    decreases ws.len(),
{
    if ws.len() == 0 {
        0
    } else {
        count_in_words(ws.drop_last(), c) + count_char(ws.last(), c)
    }
}

/// Occurrences in two texts put together add up.
pub proof fn lemma_count_concat(a: Seq<char>, b: Seq<char>, c: char)
    ensures
        count_char(a + b, c) == count_char(a, c) + count_char(b, c),
    decreases b.len(),
{
    if b.len() == 0 {
        assert(a + b =~= a);
    } else {
        lemma_count_concat(a, b.drop_last(), c);
        assert((a + b).drop_last() =~= a + b.drop_last());
        assert((a + b).last() == b.last());
    }
}

/// Occurrences in two lists of words put together add up.
pub proof fn lemma_count_words_concat(a: Seq<Seq<char>>, b: Seq<Seq<char>>, c: char)
    ensures
        count_in_words(a + b, c) == count_in_words(a, c) + count_in_words(b, c),
    decreases b.len(),
{
    if b.len() == 0 {
        assert(a + b =~= a);
    } else {
        lemma_count_words_concat(a, b.drop_last(), c);
        assert((a + b).drop_last() =~= a + b.drop_last());
        assert((a + b).last() == b.last());
    }
}

/// Splitting into words loses no character that is not white space.
pub proof fn lemma_count_words_from(s: Seq<char>, cur: Seq<char>, c: char)
    requires
        !is_white_space(c),
    ensures
        count_in_words(words_from(s, cur), c) == count_char(s, c) + count_char(cur, c),
    decreases s.len(),
{
    assert(count_in_words(Seq::<Seq<char>>::empty(), c) == 0);
    assert(count_char(Seq::<char>::empty(), c) == 0);
    if s.len() == 0 {
        if cur.len() > 0 {
            assert(seq![cur].drop_last() =~= Seq::<Seq<char>>::empty());
            assert(seq![cur].last() == cur);
            assert(count_in_words(seq![cur], c) == count_char(cur, c));
        } else {
            assert(count_char(cur, c) == 0);
        }
    } else {
        assert(s =~= seq![s[0]] + s.drop_first());
        lemma_count_concat(seq![s[0]], s.drop_first(), c);
        assert(seq![s[0]].drop_last() =~= Seq::<char>::empty());
        assert(seq![s[0]].last() == s[0]);
        assert(count_char(seq![s[0]], c) == if s[0] == c { 1nat } else { 0nat });
        if is_white_space(s[0]) {
            assert(s[0] != c);
            lemma_count_words_from(s.drop_first(), seq![], c);
            let head: Seq<Seq<char>> = if cur.len() > 0 { seq![cur] } else { seq![] };
            lemma_count_words_concat(head, words_from(s.drop_first(), seq![]), c);
            if cur.len() > 0 {
                assert(head.drop_last() =~= Seq::<Seq<char>>::empty());
                assert(head.last() == cur);
                assert(count_in_words(head, c) == count_char(cur, c));
            } else {
                assert(head =~= Seq::<Seq<char>>::empty());
                assert(count_char(cur, c) == 0);
            }
            assert(count_char(Seq::<char>::empty(), c) == 0);
        } else {
            lemma_count_words_from(s.drop_first(), cur.push(s[0]), c);
            lemma_count_concat(cur, seq![s[0]], c);
            assert(cur + seq![s[0]] =~= cur.push(s[0]));
        }
    }
}

/// Joining words by a separator without `c` adds no occurrence of `c`.
pub proof fn lemma_count_join(ws: Seq<Seq<char>>, sep: Seq<char>, c: char)
    requires
        count_char(sep, c) == 0,
    ensures
        count_char(join_with(ws, sep), c) == count_in_words(ws, c),
    decreases ws.len(),
{
    if ws.len() == 1 {
        assert(ws.drop_last() =~= Seq::<Seq<char>>::empty());
        assert(count_in_words(Seq::<Seq<char>>::empty(), c) == 0);
        assert(ws.last() == ws[0]);
    } else if ws.len() >= 2 {
        lemma_count_join(ws.drop_last(), sep, c);
        let a = join_with(ws.drop_last(), sep);
        lemma_count_concat(a, sep, c);
        lemma_count_concat(a + sep, ws.last(), c);
    }
}

/// Keeping the characters that satisfy `p` keeps every occurrence of a `c` that does.
pub proof fn lemma_count_filter(s: Seq<char>, p: spec_fn(char) -> bool, c: char)
    requires
        p(c),
    ensures
        count_char(s.filter(p), c) == count_char(s, c),
    decreases s.len(),
{
    reveal_with_fuel(Seq::filter, 1);
    if s.len() > 0 {
        lemma_count_filter(s.drop_last(), p, c);
        let f = s.drop_last().filter(p);
        if p(s.last()) {
            assert(f.push(s.last()).drop_last() =~= f);
            assert(f.push(s.last()).last() == s.last());
        } else {
            assert(s.last() != c);
        }
    }
}

/// Keeping the characters that satisfy `p` drops every occurrence of a `c` that does not.
pub proof fn lemma_count_filter_out(s: Seq<char>, p: spec_fn(char) -> bool, c: char)
    requires
        !p(c),
    ensures
        count_char(s.filter(p), c) == 0,
    decreases s.len(),
{
    reveal_with_fuel(Seq::filter, 1);
    if s.len() > 0 {
        lemma_count_filter_out(s.drop_last(), p, c);
        let f = s.drop_last().filter(p);
        if p(s.last()) {
            assert(f.push(s.last()).drop_last() =~= f);
            assert(f.push(s.last()).last() == s.last());
        }
    }
}

/// Collapsing white space keeps every other character: `c`, not white space, occurs as
/// often in `collapse_spaces(s)` as in `s`.
pub proof fn lemma_collapse_keeps_count(s: Seq<char>, c: char)
    requires
        !is_white_space(c),
    ensures
        count_char(collapse_spaces(s), c) == count_char(s, c),
{
    lemma_count_words_from(s, seq![], c);
    assert(count_char(Seq::<char>::empty(), c) == 0);
    assert(seq![' '].drop_last() =~= Seq::<char>::empty());
    assert(count_char(seq![' '], c) == 0);
    lemma_count_join(words(s), seq![' '], c);
}

/// The views of a list of strings.
pub open spec fn views(v: Seq<String>) -> Seq<Seq<char>> {
    v.map_values(|s: String| s@)
}

/// The words of `s`, as `str::split_whitespace` splits them.
pub fn split_whitespace(s: &[char]) -> (r: Vec<String>)
    ensures
        views(r@) == words(s@),
{
    let mut out: Vec<String> = Vec::new();
    let mut cur: Vec<char> = Vec::new();
    let mut i: usize = 0;
    assert(s@.skip(0) =~= s@);
    assert(views(out@) + words_from(s@.skip(0), cur@) =~= words(s@));
    while i < s.len()
        invariant
            i <= s@.len(),
            views(out@) + words_from(s@.skip(i as int), cur@) == words(s@),
            forall|k: int| 0 <= k < cur@.len() ==> !is_white_space(#[trigger] cur@[k]),
        decreases s@.len() - i,
    {
        let c = s[i];
        let ghost rest = s@.skip(i as int);
        assert(rest.drop_first() =~= s@.skip(i as int + 1));
        if char_is_whitespace(c) {
            if cur.len() > 0 {
                let w = string_of(&cur);
                proof {
                    assert(views(out@.push(w)) =~= views(out@) + seq![cur@]);
                }
                out.push(w);
                cur = Vec::new();
            }
            proof {
                assert(cur@ =~= Seq::<char>::empty());
            }
            assert(views(out@) + words_from(s@.skip(i as int + 1), cur@) =~= words(s@));
        } else {
            cur.push(c);
        }
        i = i + 1;
    }
    if cur.len() > 0 {
        let w = string_of(&cur);
        proof {
            assert(views(out@.push(w)) =~= views(out@) + seq![cur@]);
        }
        out.push(w);
    }
    assert(s@.skip(i as int) =~= Seq::<char>::empty());
    assert(views(out@) =~= words(s@));
    out
}

/// The characters of `s` with each run of white space made one space and none at either end.
pub fn collapse_whitespace(s: &[char]) -> (r: Vec<char>)
    ensures
        r@ == collapse_spaces(s@),
{
    let ws = split_whitespace(s);
    join_words(&ws)
}

/// The strings of `ws` joined by single spaces.
pub fn join_words(ws: &Vec<String>) -> (r: Vec<char>)
    ensures
        r@ == join_with(views(ws@), seq![' ']),
{
    let mut out: Vec<char> = Vec::new();
    let mut i: usize = 0;
    while i < ws.len()
        invariant
            i <= ws@.len(),
            out@ == join_with(views(ws@.take(i as int)), seq![' ']),
        decreases ws@.len() - i,
    {
        let w = chars_of(ws[i].as_str());
        proof {
            assert(views(ws@.take(i as int + 1)) =~= views(ws@.take(i as int)).push(ws@[i as int]@));
            lemma_join_push(views(ws@.take(i as int)), ws@[i as int]@, seq![' ']);
        }
        let ghost before = out@;
        if i > 0 {
            out.push(' ');
        }
        let mut j: usize = 0;
        while j < w.len()
            invariant
                j <= w@.len(),
                out@ == (if i > 0 { before.push(' ') } else { before }) + w@.take(j as int),
            decreases w@.len() - j,
        {
            out.push(w[j]);
            j = j + 1;
            assert(out@ =~= (if i > 0 { before.push(' ') } else { before }) + w@.take(j as int));
        }
        assert(w@.take(j as int) =~= w@);
        assert(i > 0 ==> views(ws@.take(i as int)).len() > 0);
        assert(out@ =~= join_with(views(ws@.take(i as int + 1)), seq![' ']));
        i = i + 1;
    }
    assert(ws@.take(i as int) =~= ws@);
    out
}

/// `s` without its leading white space.
pub open spec fn trim_start(s: Seq<char>) -> Seq<char>
    decreases s.len(),
{
    if s.len() > 0 && is_white_space(s[0]) {
        trim_start(s.drop_first())
    } else {
        s
    }
}

/// `s` without its trailing white space.
pub open spec fn trim_end(s: Seq<char>) -> Seq<char>
    decreases s.len(),
{
    if s.len() > 0 && is_white_space(s.last()) {
        trim_end(s.drop_last())
    } else {
        s
    }
}

/// What `str::trim` returns: `s` without leading and trailing white space.
pub open spec fn trim(s: Seq<char>) -> Seq<char> {
    trim_end(trim_start(s))
}

/// The characters of `s` without leading and trailing white space.
pub fn trim_chars(s: &[char]) -> (r: Vec<char>)
    ensures
        r@ == trim(s@),
{
    let mut i: usize = 0;
    assert(s@.subrange(0, s@.len() as int) =~= s@);
    while i < s.len() && char_is_whitespace(s[i])
        invariant
            i <= s@.len(),
            trim_start(s@) == trim_start(s@.subrange(i as int, s@.len() as int)),
        decreases s@.len() - i,
    {
        assert(s@.subrange(i as int, s@.len() as int).drop_first() =~= s@.subrange(
            i as int + 1,
            s@.len() as int,
        ));
        i = i + 1;
    }
    let ghost t = s@.subrange(i as int, s@.len() as int);
    assert(trim_start(t) == t);
    let mut j: usize = s.len();
    while j > i && char_is_whitespace(s[j - 1])
        invariant
            i <= j <= s@.len(),
            trim_end(t) == trim_end(s@.subrange(i as int, j as int)),
        decreases j,
    {
        assert(s@.subrange(i as int, j as int).drop_last() =~= s@.subrange(i as int, j - 1));
        j = j - 1;
    }
    let mut r: Vec<char> = Vec::new();
    let mut k: usize = i;
    while k < j
        invariant
            i <= k <= j,
            j <= s@.len(),
            r@ == s@.subrange(i as int, k as int),
        decreases j - k,
    {
        r.push(s[k]);
        k = k + 1;
        assert(r@ =~= s@.subrange(i as int, k as int));
    }
    r
}

/// `cur` with one trailing carriage return removed, if it ends with one.
pub open spec fn strip_cr(cur: Seq<char>) -> Seq<char> {
    if cur.len() > 0 && cur.last() == '\r' {
        cur.drop_last()
    } else {
        cur
    }
}

/// The lines of `cur ++ s`, where `cur` is a line begun before `s`.
pub open spec fn lines_from(s: Seq<char>, cur: Seq<char>) -> Seq<Seq<char>>
    decreases s.len(),
{
    if s.len() == 0 {
        if cur.len() > 0 {
            seq![cur]
        } else {
            seq![]
        }
    } else if s[0] == '\n' {
        seq![strip_cr(cur)] + lines_from(s.drop_first(), seq![])
    } else {
        lines_from(s.drop_first(), cur.push(s[0]))
    }
}

/// What `str::lines` yields: the pieces between `\n`, each without one `\r` before its
/// `\n`; a final line ending adds no empty line.
pub open spec fn lines(s: Seq<char>) -> Seq<Seq<char>> {
    lines_from(s, seq![])
}

/// The lines of `s`, as `str::lines` splits them.
pub fn split_lines(s: &[char]) -> (r: Vec<String>)
    ensures
        views(r@) == lines(s@),
{
    let mut out: Vec<String> = Vec::new();
    let mut cur: Vec<char> = Vec::new();
    let mut i: usize = 0;
    assert(s@.skip(0) =~= s@);
    assert(views(out@) + lines_from(s@.skip(0), cur@) =~= lines(s@));
    while i < s.len()
        invariant
            i <= s@.len(),
            views(out@) + lines_from(s@.skip(i as int), cur@) == lines(s@),
        decreases s@.len() - i,
    {
        let c = s[i];
        assert(s@.skip(i as int).drop_first() =~= s@.skip(i as int + 1));
        if c == '\n' {
            if cur.len() > 0 && cur[cur.len() - 1] == '\r' {
                cur.pop();
            }
            let w = string_of(&cur);
            proof {
                assert(views(out@.push(w)) =~= views(out@) + seq![w@]);
            }
            out.push(w);
            cur = Vec::new();
            assert(views(out@) + lines_from(s@.skip(i as int + 1), cur@) =~= lines(s@));
        } else {
            cur.push(c);
        }
        i = i + 1;
    }
    if cur.len() > 0 {
        let w = string_of(&cur);
        proof {
            assert(views(out@.push(w)) =~= views(out@) + seq![cur@]);
        }
        out.push(w);
    }
    assert(s@.skip(i as int) =~= Seq::<char>::empty());
    assert(views(out@) =~= lines(s@));
    out
}

/// `s` begins with `p`.
pub open spec fn starts_with(s: Seq<char>, p: Seq<char>) -> bool {
    p.len() <= s.len() && s.take(p.len() as int) == p
}

/// `s` ends with `p`.
pub open spec fn ends_with(s: Seq<char>, p: Seq<char>) -> bool {
    p.len() <= s.len() && s.skip(s.len() - p.len()) == p
}

/// `p` occurs in `s` at position `i`.
pub open spec fn occurs_at(s: Seq<char>, p: Seq<char>, i: int) -> bool {
    0 <= i && i + p.len() <= s.len() && s.subrange(i, i + p.len()) == p
}

/// `p` occurs somewhere in `s`, as `str::contains` tests.
pub open spec fn contains_seq(s: Seq<char>, p: Seq<char>) -> bool {
    exists|i: int| occurs_at(s, p, i)
}

/// Whether `p` occurs in `s` at position `i`.
pub fn matches_at(s: &[char], p: &[char], i: usize) -> (r: bool)
    requires
        i <= s@.len(),
    ensures
        r == occurs_at(s@, p@, i as int),
{
    if p.len() > s.len() - i {
        return false;
    }
    let mut k: usize = 0;
    while k < p.len()
        invariant
            k <= p@.len(),
            i + p@.len() <= s.len(),
            forall|m: int| 0 <= m < k ==> s@[i + m] == p@[m],
        decreases p@.len() - k,
    {
        if s[i + k] != p[k] {
            assert(s@.subrange(i as int, i + p@.len())[k as int] != p@[k as int]);
            return false;
        }
        k = k + 1;
    }
    assert(s@.subrange(i as int, i + p@.len()) =~= p@);
    true
}

/// Whether `s` begins with `p`.
pub fn has_prefix(s: &[char], p: &[char]) -> (r: bool)
    ensures
        r == starts_with(s@, p@),
{
    let r = matches_at(s, p, 0);
    assert(s@.take(p@.len() as int) =~= s@.subrange(0, p@.len() as int));
    r
}

/// Whether `s` ends with `p`.
pub fn has_suffix(s: &[char], p: &[char]) -> (r: bool)
    ensures
        r == ends_with(s@, p@),
{
    if p.len() > s.len() {
        return false;
    }
    let r = matches_at(s, p, s.len() - p.len());
    assert(s@.skip(s@.len() - p@.len()) =~= s@.subrange(s@.len() - p@.len(), s@.len() as int));
    r
}

/// The first position at or after `from` where `p` occurs in `s`, as `str::find` on
/// the rest of `s` reports it (counted in characters from the start of `s`).
pub fn find_from(s: &[char], p: &[char], from: usize) -> (r: Option<usize>)
    requires
        from <= s@.len(),
    ensures
        match r {
            Some(i) => from <= i && occurs_at(s@, p@, i as int) && forall|j: int|
                from <= j < i ==> !occurs_at(s@, p@, j),
            None => forall|j: int| from <= j ==> !occurs_at(s@, p@, j),
        },
{
    let mut i: usize = from;
    while i < s.len()
        invariant
            from <= i <= s@.len(),
            forall|j: int| from <= j < i ==> !occurs_at(s@, p@, j),
        decreases s@.len() - i,
    {
        if matches_at(s, p, i) {
            return Some(i);
        }
        i = i + 1;
    }
    if matches_at(s, p, i) {
        return Some(i);
    }
    None
}

/// Whether `p` occurs in `s`, as `str::contains` answers.
pub fn contains_chars(s: &[char], p: &[char]) -> (r: bool)
    ensures
        r == contains_seq(s@, p@),
{
    match find_from(s, p, 0) {
        Some(i) => true,
        None => {
            assert forall|j: int| !occurs_at(s@, p@, j) by {
                if j < 0 {
                }
            }
            false
        },
    }
}

/// The position of the first occurrence of `p` in `s` (meaningful when there is one).
pub open spec fn first_match(s: Seq<char>, p: Seq<char>) -> int {
    choose|i: int| occurs_at(s, p, i) && forall|j: int| 0 <= j < i ==> !occurs_at(s, p, j)
}

/// The part of `s` before the first occurrence of `p`, or all of `s` when `p` does not
/// occur: what `s.split(p).next()` yields.
pub open spec fn before_first(s: Seq<char>, p: Seq<char>) -> Seq<char> {
    if contains_seq(s, p) {
        s.take(first_match(s, p))
    } else {
        s
    }
}

/// The part of `s` before the first occurrence of `p` (all of `s` when there is none).
pub fn prefix_before(s: &[char], p: &[char]) -> (r: Vec<char>)
    ensures
        r@ == before_first(s@, p@),
{
    match find_from(s, p, 0) {
        Some(i) => {
            assert(occurs_at(s@, p@, i as int) && forall|j: int|
                0 <= j < i ==> !occurs_at(s@, p@, j));
            let ghost m = first_match(s@, p@);
            assert(m == i) by {
                if m < i {
                } else if m > i {
                }
            }
            let mut r: Vec<char> = Vec::new();
            let mut k: usize = 0;
            while k < i
                invariant
                    k <= i,
                    i <= s@.len(),
                    r@ == s@.take(k as int),
                decreases i - k,
            {
                r.push(s[k]);
                k = k + 1;
                assert(r@ =~= s@.take(k as int));
            }
            r
        },
        None => {
            assert(!contains_seq(s@, p@));
            let mut r: Vec<char> = Vec::new();
            let mut k: usize = 0;
            while k < s.len()
                invariant
                    k <= s@.len(),
                    r@ == s@.take(k as int),
                decreases s@.len() - k,
            {
                r.push(s[k]);
                k = k + 1;
                assert(r@ =~= s@.take(k as int));
            }
            assert(r@ =~= s@);
            r
        },
    }
}

} // verus!
