//! Turning HTML pages into plain paragraphs: which files to take, which elements to skip,
//! which paragraphs are noise, and how a paragraph's text is cleaned.
use vstd::prelude::*;
use vstd::utf8::{char_is_scalar, encode_scalar, encode_utf8};
use crate::qa::{clean_text as clean_plain, cleaned};
use crate::text::{
    char_is_alphabetic, char_is_numeric, char_is_uppercase, char_is_whitespace, chars_of,
    contains_chars, contains_seq, count_char, ends_with, find_from, has_suffix, is_alphabetic_char,
    is_numeric_char, is_uppercase_char, is_white_space, join_with, join_words, lowercase_of,
    occurs_at, split_whitespace, string_of, to_lowercase, trim, trim_chars, views, words,
};

verus! {

/// The pieces of `cur ++ s` between occurrences of `sep`, where `cur` was begun before
/// `s`; empty pieces included, as `str::split` with a character yields them.
pub open spec fn pieces_from(s: Seq<char>, sep: char, cur: Seq<char>) -> Seq<Seq<char>>
    decreases s.len(),
{
    if s.len() == 0 {
        seq![cur]
    } else if s[0] == sep {
        seq![cur] + pieces_from(s.drop_first(), sep, seq![])
    } else {
        pieces_from(s.drop_first(), sep, cur.push(s[0]))
    }
}

/// The pieces of `s` between occurrences of `sep`.
pub open spec fn pieces(s: Seq<char>, sep: char) -> Seq<Seq<char>> {
    pieces_from(s, sep, seq![])
}

/// The first position at or after `from` where `p` occurs in `f` (meaningful when there
/// is one).
pub open spec fn first_from(f: Seq<char>, p: Seq<char>, from: int) -> int {
    choose|i: int| from <= i && occurs_at(f, p, i) && forall|j: int| from <= j < i ==> !occurs_at(f, p, j)
}

/// Each non-empty piece of `parts` is found in `f`, in order, each searched for at its
/// first occurrence after the end of the one before, starting at `from`.
pub open spec fn found_in_order(f: Seq<char>, parts: Seq<Seq<char>>, from: int) -> bool
    decreases parts.len(),
{
    if parts.len() == 0 {
        true
    } else if parts[0].len() == 0 {
        found_in_order(f, parts.drop_first(), from)
    } else if exists|i: int| from <= i && occurs_at(f, parts[0], i) {
        found_in_order(f, parts.drop_first(), first_from(f, parts[0], from) + parts[0].len())
    } else {
        false
    }
}

/// A file name matches a pattern: a pattern with `*` when the pieces between its stars
/// are found in the name in order; any other pattern when the name contains it.
pub open spec fn pattern_matches(f: Seq<char>, pat: Seq<char>) -> bool {
    if pat.contains('*') {
        found_in_order(f, pieces(pat, '*'), 0)
    } else {
        contains_seq(f, pat)
    }
}

/// Some pattern of `pats` matches the file name `f`.
pub open spec fn any_pattern_matches(f: Seq<char>, pats: Seq<Seq<char>>) -> bool {
    exists|i: int| 0 <= i < pats.len() && pattern_matches(f, #[trigger] pats[i])
}

/// The pieces of `s` between occurrences of `sep`.
pub fn split_on(s: &[char], sep: char) -> (r: Vec<String>)
    ensures
        views(r@) == pieces(s@, sep),
{
    let mut out: Vec<String> = Vec::new();
    let mut cur: Vec<char> = Vec::new();
    let mut i: usize = 0;
    assert(s@.skip(0) =~= s@);
    assert(views(out@) + pieces_from(s@.skip(0), sep, cur@) =~= pieces(s@, sep));
    while i < s.len()
        invariant
            i <= s@.len(),
            views(out@) + pieces_from(s@.skip(i as int), sep, cur@) == pieces(s@, sep),
        decreases s@.len() - i,
    {
        let c = s[i];
        let ghost rest = s@.skip(i as int);
        assert(rest.drop_first() =~= s@.skip(i as int + 1));
        if c == sep {
            let w = string_of(&cur);
            proof {
                assert(views(out@.push(w)) =~= views(out@) + seq![cur@]);
            }
            out.push(w);
            cur = Vec::new();
            assert(views(out@) + pieces_from(s@.skip(i as int + 1), sep, cur@) =~= pieces(s@, sep));
        } else {
            cur.push(c);
        }
        i = i + 1;
    }
    let w = string_of(&cur);
    proof {
        assert(views(out@.push(w)) =~= views(out@) + seq![cur@]);
    }
    out.push(w);
    assert(s@.skip(i as int) =~= Seq::<char>::empty());
    assert(views(out@) =~= pieces(s@, sep));
    out
}

/// Whether the file name `f` matches the pattern `pat`.
#[verifier::spinoff_prover]
#[verifier::rlimit(40)]
pub fn matches_pattern(f: &[char], pat: &[char]) -> (r: bool)
    ensures
        r == pattern_matches(f@, pat@),
{
    let star: [char; 1] = ['*'];
    let has_star = contains_chars(pat, &star);
    proof {
        assert(star@ =~= seq!['*']);
        if pat@.contains('*') {
            let k = choose|k: int| 0 <= k < pat@.len() && pat@[k] == '*';
            assert(occurs_at(pat@, seq!['*'], k)) by {
                assert(pat@.subrange(k, k + 1) =~= seq!['*']);
            }
        }
        if contains_seq(pat@, seq!['*']) {
            let k = choose|k: int| occurs_at(pat@, seq!['*'], k);
            assert(pat@[k] == pat@.subrange(k, k + 1)[0]);
        }
    }
    if !has_star {
        return contains_chars(f, pat);
    }
    let parts = split_on(pat, '*');
    let ghost ps = views(parts@);
    let mut from: usize = 0;
    let mut k: usize = 0;
    assert(ps.skip(0) =~= ps);
    while k < parts.len()
        invariant
            k <= parts@.len(),
            ps == views(parts@),
            ps == pieces(pat@, '*'),
            pat@.contains('*'),
            from <= f@.len(),
            found_in_order(f@, ps, 0) == found_in_order(f@, ps.skip(k as int), from as int),
        decreases parts@.len() - k,
    {
        let part = chars_of(parts[k].as_str());
        let ghost rest = ps.skip(k as int);
        assert(rest.drop_first() =~= ps.skip(k as int + 1));
        assert(rest[0] == part@);
        if part.len() > 0 {
            match find_from(f, &part, from) {
                Some(pos) => {
                    proof {
                        assert(exists|i: int| from <= i && occurs_at(f@, part@, i));
                        let m = first_from(f@, part@, from as int);
                        assert(m == pos) by {
                            if m < pos {
                            } else if m > pos {
                            }
                        }
                        assert(occurs_at(f@, part@, pos as int));
                        assert(pos + part.len() <= f.len());
                    }
                    from = pos + part.len();
                },
                None => {
                    assert(rest.len() > 0 && rest[0].len() > 0);
                    assert(!(exists|i: int| from <= i && occurs_at(f@, rest[0], i)));
                    assert(!found_in_order(f@, rest, from as int));
                    return false;
                },
            }
        }
        k = k + 1;
    }
    true
}

/// Whether some pattern of `patterns` matches the file name `f`.
fn any_matches(f: &[char], patterns: &[String]) -> (r: bool)
    ensures
        r == any_pattern_matches(f@, views(patterns@)),
{
    let mut i: usize = 0;
    while i < patterns.len()
        invariant
            i <= patterns@.len(),
            forall|j: int| 0 <= j < i ==> !pattern_matches(f@, #[trigger] views(patterns@)[j]),
        decreases patterns@.len() - i,
    {
        let p = chars_of(patterns[i].as_str());
        if matches_pattern(f, &p) {
            assert(pattern_matches(f@, views(patterns@)[i as int]));
            return true;
        }
        i = i + 1;
    }
    false
}

/// A run without the separator continues the piece begun before it.
proof fn lemma_pieces_run(w: Seq<char>, t: Seq<char>, sep: char, cur: Seq<char>)
    requires
        !w.contains(sep),
    ensures
        pieces_from(w + t, sep, cur) == pieces_from(t, sep, cur + w),
    decreases w.len(),
{
    if w.len() == 0 {
        assert(w + t =~= t);
        assert(cur + w =~= cur);
    } else {
        assert((w + t)[0] == w[0]);
        assert(w[0] != sep) by {
            if w[0] == sep {
                assert(w.contains(sep));
            }
        }
        assert((w + t).drop_first() =~= w.drop_first() + t);
        assert(cur.push(w[0]) + w.drop_first() =~= cur + w);
        assert(!w.drop_first().contains(sep)) by {
            if w.drop_first().contains(sep) {
                let k = choose|k: int| 0 <= k < w.drop_first().len() && w.drop_first()[k] == sep;
                assert(w[k + 1] == sep);
            }
        }
        lemma_pieces_run(w.drop_first(), t, sep, cur.push(w[0]));
    }
}

/// The pieces of `*p*`, where `p` has no star: nothing, `p`, nothing.
proof fn lemma_star_pieces(p: Seq<char>)
    requires
        !p.contains('*'),
    ensures
        pieces(seq!['*'] + p + seq!['*'], '*') == seq![Seq::<char>::empty(), p, Seq::<char>::empty()],
{
    let pat = seq!['*'] + p + seq!['*'];
    let e = Seq::<char>::empty();
    assert(pat[0] == '*');
    assert(pat.drop_first() =~= p + seq!['*']);
    lemma_pieces_run(p, seq!['*'], '*', e);
    assert(e + p =~= p);
    assert(seq!['*'].drop_first() =~= e);
    assert(pieces_from(pat, '*', e) == seq![e] + pieces_from(p + seq!['*'], '*', e));
    assert(pieces_from(seq!['*'], '*', p) == seq![p] + pieces_from(e, '*', e));
    assert(pieces_from(pat, '*', e) =~= seq![e, p, e]);
}

/// A lone empty piece is always found.
proof fn lemma_found_empty(f: Seq<char>, from: int)
    ensures
        found_in_order(f, seq![Seq::<char>::empty()], from),
{
    let t = seq![Seq::<char>::empty()];
    assert(t.len() == 1 && t[0].len() == 0);
    assert(t.drop_first() =~= Seq::<Seq<char>>::empty());
    assert(found_in_order(f, t.drop_first(), from));
}

/// `p`, then nothing, is found from the start when `p` occurs anywhere.
proof fn lemma_found_then_empty(f: Seq<char>, p: Seq<char>)
    ensures
        found_in_order(f, seq![p, Seq::<char>::empty()], 0) == contains_seq(f, p),
{
    let e = Seq::<char>::empty();
    let rest = seq![p, e];
    assert(rest.drop_first() =~= seq![e]);
    assert(rest[0] == p);
    if p.len() == 0 {
        lemma_found_empty(f, 0);
        assert(occurs_at(f, p, 0)) by {
            assert(f.subrange(0, 0) =~= p);
        }
    } else if contains_seq(f, p) {
        let i = choose|i: int| occurs_at(f, p, i);
        assert(0 <= i && occurs_at(f, p, i));
        lemma_found_empty(f, first_from(f, p, 0) + p.len());
    } else {
        assert(!(exists|i: int| 0 <= i && occurs_at(f, p, i)));
    }
}

/// Found in order: nothing, `p`, nothing is found when `p` occurs anywhere.
proof fn lemma_found_star(f: Seq<char>, p: Seq<char>)
    ensures
        found_in_order(f, seq![Seq::<char>::empty(), p, Seq::<char>::empty()], 0) == contains_seq(f, p),
{
    let e = Seq::<char>::empty();
    let ps = seq![e, p, e];
    assert(ps.drop_first() =~= seq![p, e]);
    assert(ps[0].len() == 0);
    lemma_found_then_empty(f, p);
}

/// A pattern `*p*`, where `p` has no star, takes exactly the file names that contain `p`.
pub proof fn lemma_star_pattern(f: Seq<char>, p: Seq<char>)
    requires
        !p.contains('*'),
    ensures
        pattern_matches(f, seq!['*'] + p + seq!['*']) <==> contains_seq(f, p),
{
    let pat = seq!['*'] + p + seq!['*'];
    assert(pat[0] == '*');
    lemma_star_pieces(p);
    lemma_found_star(f, p);
}

/// One pattern is enough: a file that the pattern `pats[i]` alone selects is selected by
/// the whole list `pats`, whatever the pattern's place in it.
pub proof fn lemma_one_pattern_suffices(f: Seq<char>, pats: Seq<Seq<char>>, i: int)
    requires
        0 <= i < pats.len(),
        any_pattern_matches(f, seq![pats[i]]),
    ensures
        any_pattern_matches(f, pats),
{
    let j = choose|j: int| 0 <= j < 1 && pattern_matches(f, #[trigger] seq![pats[i]][j]);
    assert(seq![pats[i]][j] == pats[i]);
}

/// Adding patterns, before or after, never turns out a file that the patterns selected;
/// a file selected by the combined list is selected by one of the two parts.
pub proof fn lemma_patterns_combine(f: Seq<char>, a: Seq<Seq<char>>, b: Seq<Seq<char>>)
    ensures
        any_pattern_matches(f, a + b) <==> any_pattern_matches(f, a) || any_pattern_matches(f, b),
{
    if any_pattern_matches(f, a) {
        let i = choose|i: int| 0 <= i < a.len() && pattern_matches(f, #[trigger] a[i]);
        assert((a + b)[i] == a[i]);
    }
    if any_pattern_matches(f, b) {
        let i = choose|i: int| 0 <= i < b.len() && pattern_matches(f, #[trigger] b[i]);
        assert((a + b)[a.len() + i] == b[i]);
    }
    if any_pattern_matches(f, a + b) {
        let i = choose|i: int| 0 <= i < (a + b).len() && pattern_matches(f, #[trigger] (a + b)[i]);
        if i < a.len() {
            assert((a + b)[i] == a[i]);
        } else {
            assert((a + b)[i] == b[i - a.len()]);
        }
    }
}

/// Whether a file named `filename` is taken under the include patterns: every file when
/// there are none, else those that some pattern matches.
pub fn should_include_file(filename: &str, patterns: &[String]) -> (r: bool)
    ensures
        r == (patterns@.len() == 0 || any_pattern_matches(filename@, views(patterns@))),
{
    if patterns.len() == 0 {
        return true;
    }
    let f = chars_of(filename);
    any_matches(&f, patterns)
}

/// Whether a file named `filename` is left out under the exclude patterns: those that some
/// pattern matches, so none when there are no patterns.
pub fn should_exclude_file(filename: &str, patterns: &[String]) -> (r: bool)
    ensures
        r == any_pattern_matches(filename@, views(patterns@)),
{
    if patterns.len() == 0 {
        return false;
    }
    let f = chars_of(filename);
    any_matches(&f, patterns)
}

/// The class names that mark an element as page furniture.
pub open spec fn skip_classes() -> Seq<Seq<char>> {
    seq![
        "mw-editsection"@,
        "navbox"@,
        "metadata"@,
        "navigation"@,
        "toc"@,
        "references"@,
        "reflist"@,
        "catlinks"@,
        "printfooter"@,
        "siteSub"@,
        "jump-to-nav"@,
        "mw-jump-link"@,
        "noprint"@,
        "sidebar"@,
        "infobox"@,
        "thumbcaption"@,
        "magnify"@,
        "reference"@,
        "cite"@,
        "navigation-not-searchable"@,
        "mw-footer"@,
        "mw-indicators"@,
        "authority-control"@,
        "sistersitebox"@,
        "hatnote"@,
        "shortdescription"@,
        "ambox"@,
        "licensetpl"@,
        "mw-empty-elt"@,
    ]
}

/// The element ids that mark an element as page furniture.
pub open spec fn skip_ids() -> Seq<Seq<char>> {
    seq![
        "toc"@,
        "siteSub"@,
        "contentSub"@,
        "jump-to-nav"@,
        "mw-navigation"@,
        "footer"@,
        "catlinks"@,
        "references"@,
        "mw-head"@,
        "mw-panel"@,
        "mw-page-base"@,
        "mw-data-after-content"@,
        "mw-data-before-content"@,
        "coordinates"@,
        "further-reading"@,
        "external-links"@,
        "see-also"@,
        "mw-normal-catlinks"@,
        "mw-hidden-catlinks"@,
    ]
}

/// Phrases whose presence, in lower case, marks a page as boilerplate.
pub open spec fn trash_markers() -> Seq<Seq<char>> {
    seq![
        "gnu free documentation license"@,
        "wikimedia foundation"@,
        "all text is available under"@,
        "wikiproject"@,
        "this page was last modified"@,
        "talk page"@,
    ]
}

/// The views of a list of string slices.
pub open spec fn strs(v: Seq<&str>) -> Seq<Seq<char>> {
    v.map_values(|s: &str| s@)
}

/// The class names that mark page furniture.
fn skip_class_list() -> (r: Vec<&'static str>)
    ensures
        strs(r@) == skip_classes(),
{
    let mut v: Vec<&'static str> = Vec::new();
    v.push("mw-editsection");
    v.push("navbox");
    v.push("metadata");
    v.push("navigation");
    v.push("toc");
    v.push("references");
    v.push("reflist");
    v.push("catlinks");
    v.push("printfooter");
    v.push("siteSub");
    v.push("jump-to-nav");
    v.push("mw-jump-link");
    v.push("noprint");
    v.push("sidebar");
    v.push("infobox");
    v.push("thumbcaption");
    v.push("magnify");
    v.push("reference");
    v.push("cite");
    v.push("navigation-not-searchable");
    v.push("mw-footer");
    v.push("mw-indicators");
    v.push("authority-control");
    v.push("sistersitebox");
    v.push("hatnote");
    v.push("shortdescription");
    v.push("ambox");
    v.push("licensetpl");
    v.push("mw-empty-elt");
    assert(strs(v@) =~= skip_classes());
    v
}

/// The element ids that mark page furniture.
fn skip_id_list() -> (r: Vec<&'static str>)
    ensures
        strs(r@) == skip_ids(),
{
    let mut v: Vec<&'static str> = Vec::new();
    v.push("toc");
    v.push("siteSub");
    v.push("contentSub");
    v.push("jump-to-nav");
    v.push("mw-navigation");
    v.push("footer");
    v.push("catlinks");
    v.push("references");
    v.push("mw-head");
    v.push("mw-panel");
    v.push("mw-page-base");
    v.push("mw-data-after-content");
    v.push("mw-data-before-content");
    v.push("coordinates");
    v.push("further-reading");
    v.push("external-links");
    v.push("see-also");
    v.push("mw-normal-catlinks");
    v.push("mw-hidden-catlinks");
    assert(strs(v@) =~= skip_ids());
    v
}

/// The boilerplate phrases.
fn trash_marker_list() -> (r: Vec<&'static str>)
    ensures
        strs(r@) == trash_markers(),
{
    let mut v: Vec<&'static str> = Vec::new();
    v.push("gnu free documentation license");
    v.push("wikimedia foundation");
    v.push("all text is available under");
    v.push("wikiproject");
    v.push("this page was last modified");
    v.push("talk page");
    assert(strs(v@) =~= trash_markers());
    v
}


/// Whether `h` contains one of the phrases `ps`.
pub open spec fn contains_any(h: Seq<char>, ps: Seq<Seq<char>>) -> bool {
    exists|i: int| 0 <= i < ps.len() && contains_seq(h, #[trigger] ps[i])
}

/// Whether `h` contains one of the phrases `list`.
fn contains_any_of(h: &[char], list: &Vec<&'static str>) -> (r: bool)
    ensures
        r == contains_any(h@, strs(list@)),
{
    let mut i: usize = 0;
    while i < list.len()
        invariant
            i <= list@.len(),
            forall|j: int| 0 <= j < i ==> !contains_seq(h@, #[trigger] strs(list@)[j]),
        decreases list@.len() - i,
    {
        let p = chars_of(list[i]);
        if contains_chars(h, &p) {
            assert(contains_seq(h@, strs(list@)[i as int]));
            return true;
        }
        i = i + 1;
    }
    false
}

/// Whether two strings hold the same characters.
pub fn same_text(a: &str, b: &str) -> (r: bool)
    ensures
        r == (a@ == b@),
{
    let x = chars_of(a);
    let y = chars_of(b);
    if x.len() != y.len() {
        return false;
    }
    let mut i: usize = 0;
    while i < x.len()
        invariant
            i <= x@.len(),
            x@ == a@,
            y@ == b@,
            x@.len() == y@.len(),
            forall|j: int| 0 <= j < i ==> x@[j] == y@[j],
        decreases x@.len() - i,
    {
        if x[i] != y[i] {
            assert(a@[i as int] != b@[i as int]);
            return false;
        }
        i = i + 1;
    }
    assert(x@ =~= y@);
    true
}

/// What the cleaner reads of an HTML element: four of its attributes and the pieces of
/// text it holds, in document order.
pub struct ElementInfo {
    pub class: Option<String>,
    pub id: Option<String>,
    pub role: Option<String>,
    pub aria_label: Option<String>,
    pub texts: Vec<String>,
}

/// An element is page furniture: its class or id names a navigation, reference or
/// maintenance block, its role is `navigation`, `note` or `banner`, or its ARIA label,
/// in lower case, speaks of navigation, breadcrumbs or a table of contents.
pub open spec fn skipped(e: ElementInfo) -> bool {
    ||| (e.class matches Some(c) && contains_any(c@, skip_classes()))
    ||| (e.id matches Some(i) && contains_any(i@, skip_ids()))
    ||| (e.role matches Some(r) && (r@ == "navigation"@ || r@ == "note"@ || r@ == "banner"@))
    ||| (e.aria_label matches Some(a) && {
        let l = lowercase_of(a@);
        contains_seq(l, "navigation"@) || contains_seq(l, "breadcrumb"@) || contains_seq(l, "toc"@)
    })
}

/// Whether the element is page furniture that the text gatherers pass over.
pub fn should_skip_element(element: &ElementInfo) -> (r: bool)
    ensures
        r == skipped(*element),
{
    if let Some(c) = &element.class {
        let h = chars_of(c.as_str());
        if contains_any_of(&h, &skip_class_list()) {
            return true;
        }
    }
    if let Some(i) = &element.id {
        let h = chars_of(i.as_str());
        if contains_any_of(&h, &skip_id_list()) {
            return true;
        }
    }
    if let Some(role) = &element.role {
        if same_text(role.as_str(), "navigation") || same_text(role.as_str(), "note") || same_text(
            role.as_str(),
            "banner",
        ) {
            return true;
        }
    }
    if let Some(aria) = &element.aria_label {
        let l = to_lowercase(aria.as_str());
        let h = chars_of(l.as_str());
        let a = chars_of("navigation");
        let b = chars_of("breadcrumb");
        let c = chars_of("toc");
        if contains_chars(&h, &a) || contains_chars(&h, &b) || contains_chars(&h, &c) {
            return true;
        }
    }
    false
}

/// An element's text: its pieces joined by single spaces.
pub open spec fn element_text(e: ElementInfo) -> Seq<char> {
    join_with(views(e.texts@), seq![' '])
}

/// The trimmed text of each element that is not page furniture and holds some text.
pub open spec fn paragraphs_of(es: Seq<ElementInfo>) -> Seq<Seq<char>>
    decreases es.len(),
{
    if es.len() == 0 {
        seq![]
    } else {
        let t = trim(element_text(es.last()));
        paragraphs_of(es.drop_last()) + if !skipped(es.last()) && t.len() > 0 {
            seq![t]
        } else {
            seq![]
        }
    }
}

/// Each paragraph followed by a line break.
pub open spec fn as_lines(ps: Seq<Seq<char>>) -> Seq<char>
    decreases ps.len(),
{
    if ps.len() == 0 {
        seq![]
    } else {
        as_lines(ps.drop_last()) + ps.last().push('\n')
    }
}

/// The trimmed text of each element, in order, that is not page furniture and holds some
/// text.
pub fn paragraph_texts(elements: &[ElementInfo]) -> (r: Vec<String>)
    ensures
        views(r@) == paragraphs_of(elements@),
{
    let mut out: Vec<String> = Vec::new();
    let mut i: usize = 0;
    while i < elements.len()
        invariant
            i <= elements@.len(),
            views(out@) == paragraphs_of(elements@.take(i as int)),
        decreases elements@.len() - i,
    {
        let e = &elements[i];
        let joined = join_words(&e.texts);
        let t = trim_chars(&joined);
        proof {
            assert(elements@.take(i as int + 1).drop_last() =~= elements@.take(i as int));
            assert(elements@.take(i as int + 1).last() == *e);
        }
        if !should_skip_element(e) && t.len() > 0 {
            let ts = string_of(&t);
            proof {
                assert(views(out@.push(ts)) =~= views(out@) + seq![ts@]);
            }
            out.push(ts);
        }
        i = i + 1;
    }
    assert(elements@.take(i as int) =~= elements@);
    out
}

/// The text of the elements that are not page furniture, each trimmed and ended by a
/// line break; elements without text give nothing.
pub fn gather_text_from(elements: &[ElementInfo]) -> (r: String)
    ensures
        r@ == as_lines(paragraphs_of(elements@)),
{
    let ps = paragraph_texts(elements);
    let mut out: Vec<char> = Vec::new();
    let mut i: usize = 0;
    while i < ps.len()
        invariant
            i <= ps@.len(),
            out@ == as_lines(views(ps@).take(i as int)),
        decreases ps@.len() - i,
    {
        let p = chars_of(ps[i].as_str());
        let ghost before = out@;
        let mut j: usize = 0;
        while j < p.len()
            invariant
                j <= p@.len(),
                out@ == before + p@.take(j as int),
            decreases p@.len() - j,
        {
            out.push(p[j]);
            j = j + 1;
            assert(out@ =~= before + p@.take(j as int));
        }
        out.push('\n');
        proof {
            assert(views(ps@).take(i as int + 1).drop_last() =~= views(ps@).take(i as int));
            assert(p@.take(j as int) =~= p@);
            assert(out@ =~= before + p@.push('\n'));
        }
        i = i + 1;
    }
    assert(views(ps@).take(i as int) =~= views(ps@));
    string_of(&out)
}


#[verifier::external_type_specification]
#[verifier::external_body]
pub struct ExRegex(regex::Regex);

/// Whether `regex::Regex::new` accepts `pattern`.
pub uninterp spec fn regex_accepts(pattern: Seq<char>) -> bool;

/// What `Regex::replace_all` returns for a regex built from `pattern`, applied to `text`
/// with the replacement `rep`.
pub uninterp spec fn regex_replace_all(pattern: Seq<char>, text: Seq<char>, rep: Seq<char>) -> Seq<char>;

/// A compiled regular expression together with the pattern it was compiled from; only
/// `compile` makes one, so the two always agree.
struct Pattern {
    source: String,
    compiled: regex::Regex,
}

impl Pattern {
    /// The pattern this regular expression was compiled from.
    closed spec fn source(&self) -> Seq<char> {
        self.source@
    }

    /// Calls `regex::Regex::new` on `source`; `None` when the crate rejects the pattern.
    #[verifier::external_body]
    fn compile(source: &str) -> (r: Option<Pattern>)
        ensures
            r is Some <==> regex_accepts(source@),
            r matches Some(p) ==> p.source() == source@,
    {
        match regex::Regex::new(source) {
            Ok(compiled) => Some(Pattern { source: source.to_string(), compiled }),
            Err(_) => None,
        }
    }

    /// Calls `Regex::replace_all`, replacing every match in `text` by `rep`; the result is
    /// named, a function of the pattern, the text and the replacement.
    #[verifier::external_body]
    fn replace_all(&self, text: &str, rep: &str) -> (r: String)
        ensures
            r@ == regex_replace_all(self.source(), text@, rep@),
    {
        self.compiled.replace_all(text, rep).into_owned()
    }
}

/// Bracketed reference numbers such as `[12]`.
pub open spec fn brackets_pattern() -> Seq<char> {
    "\\[[0-9]+\\]"@
}

/// "(citation needed)" or "[citation needed]" with the white space around it.
pub open spec fn citation_pattern() -> Seq<char> {
    "\\s*\\(citation needed\\)\\s*|\\s*\\[citation needed\\]\\s*"@
}

/// A run of white space.
pub open spec fn spaces_pattern() -> Seq<char> {
    "\\s+"@
}

/// Non-breaking spaces made plain spaces.
pub open spec fn nbsp_to_space(s: Seq<char>) -> Seq<char> {
    s.map_values(|c: char| if c == '\u{a0}' { ' ' } else { c })
}

/// En and em dashes made hyphens, curly double quotes and the right single quote made
/// apostrophes.
pub open spec fn plain_punctuation(s: Seq<char>) -> Seq<char> {
    s.map_values(
        |c: char|
            if c == '\u{2013}' || c == '\u{2014}' {
                '-'
            } else if c == '\u{201c}' || c == '\u{201d}' || c == '\u{2019}' {
                '\''
            } else {
                c
            },
    )
}

/// Non-breaking spaces become plain spaces and nothing else moves: the text keeps its
/// length, every U+00A0 becomes ' ', none is left, and every other character stays.
pub proof fn lemma_nbsp_to_space(s: Seq<char>)
    ensures
        nbsp_to_space(s).len() == s.len(),
        forall|i: int| 0 <= i < s.len() && s[i] == '\u{a0}' ==> #[trigger] nbsp_to_space(s)[i] == ' ',
        forall|i: int| 0 <= i < s.len() && s[i] != '\u{a0}' ==> #[trigger] nbsp_to_space(s)[i] == s[i],
        count_char(nbsp_to_space(s), '\u{a0}') == 0,
    decreases s.len(),
{
    if s.len() > 0 {
        lemma_nbsp_to_space(s.drop_last());
        assert(nbsp_to_space(s).drop_last() =~= nbsp_to_space(s.drop_last()));
        assert(nbsp_to_space(s).last() == nbsp_to_space(s)[s.len() - 1]);
    }
}

/// Typographic punctuation is made plain and nothing else moves: the text keeps its length,
/// every right single quote and curly double quote becomes an apostrophe, every en or em
/// dash a hyphen, no such mark is left, and every other character stays where it was. So
/// the apostrophes afterwards are those before plus the quotes made plain.
pub proof fn lemma_plain_punctuation(s: Seq<char>)
    ensures
        plain_punctuation(s).len() == s.len(),
        forall|i: int|
            0 <= i < s.len() && (s[i] == '\u{2019}' || s[i] == '\u{201c}' || s[i] == '\u{201d}')
                ==> #[trigger] plain_punctuation(s)[i] == '\'',
        forall|i: int|
            0 <= i < s.len() && (s[i] == '\u{2013}' || s[i] == '\u{2014}') ==> #[trigger] plain_punctuation(
                s,
            )[i] == '-',
        forall|i: int|
            0 <= i < s.len() && s[i] != '\u{2019}' && s[i] != '\u{201c}' && s[i] != '\u{201d}'
                && s[i] != '\u{2013}' && s[i] != '\u{2014}' ==> #[trigger] plain_punctuation(s)[i]
                == s[i],
        count_char(plain_punctuation(s), '\u{2019}') == 0,
        count_char(plain_punctuation(s), '\'') == count_char(s, '\'') + count_char(s, '\u{2019}')
            + count_char(s, '\u{201c}') + count_char(s, '\u{201d}'),
    decreases s.len(),
{
    if s.len() > 0 {
        lemma_plain_punctuation(s.drop_last());
        assert(plain_punctuation(s).drop_last() =~= plain_punctuation(s.drop_last()));
        assert(plain_punctuation(s).last() == plain_punctuation(s)[s.len() - 1]);
    }
}

/// The cleaned form of a paragraph of an HTML page: non-breaking spaces made spaces,
/// reference numbers and "citation needed" notes removed, dashes and curly quotes made
/// plain, white-space runs made single spaces, and then the plain-text cleaner's
/// character filter and white-space collapse.
pub open spec fn html_cleaned(text: Seq<char>, keep_numbers: bool) -> Seq<char> {
    let s1 = regex_replace_all(brackets_pattern(), nbsp_to_space(text), ""@);
    let s2 = regex_replace_all(citation_pattern(), s1, ""@);
    let s3 = regex_replace_all(spaces_pattern(), plain_punctuation(s2), " "@);
    cleaned(s3, keep_numbers)
}

/// The three patterns that clean HTML paragraphs, compiled once.
pub struct Cleaner {
    brackets: Pattern,
    citations: Pattern,
    spaces: Pattern,
}

/// `s` with its non-breaking spaces made spaces when `nbsp` holds, else with its dashes
/// and curly quotes made plain.
fn map_chars(s: &str, nbsp: bool) -> (r: String)
    ensures
        r@ == if nbsp {
            nbsp_to_space(s@)
        } else {
            plain_punctuation(s@)
        },
{
    let cs = chars_of(s);
    let mut out: Vec<char> = Vec::new();
    let mut i: usize = 0;
    while i < cs.len()
        invariant
            i <= cs@.len(),
            cs@ == s@,
            out@ == (if nbsp {
                nbsp_to_space(s@.take(i as int))
            } else {
                plain_punctuation(s@.take(i as int))
            }),
        decreases cs@.len() - i,
    {
        let c = cs[i];
        let d = if nbsp {
            if c == '\u{a0}' { ' ' } else { c }
        } else if c == '\u{2013}' || c == '\u{2014}' {
            '-'
        } else if c == '\u{201c}' || c == '\u{201d}' || c == '\u{2019}' {
            '\''
        } else {
            c
        };
        out.push(d);
        proof {
            assert(s@.take(i as int + 1) =~= s@.take(i as int).push(c));
            assert(nbsp_to_space(s@.take(i as int + 1)) =~= nbsp_to_space(s@.take(i as int)).push(
                if c == '\u{a0}' { ' ' } else { c },
            ));
            assert(plain_punctuation(s@.take(i as int + 1)) =~= plain_punctuation(s@.take(i as int)).push(
                if c == '\u{2013}' || c == '\u{2014}' {
                    '-'
                } else if c == '\u{201c}' || c == '\u{201d}' || c == '\u{2019}' {
                    '\''
                } else {
                    c
                },
            ));
        }
        i = i + 1;
    }
    assert(s@.take(i as int) =~= s@);
    string_of(&out)
}

impl Cleaner {
    /// The cleaner holds the reference-number, citation and white-space patterns.
    pub closed spec fn wf(&self) -> bool {
        &&& self.brackets.source() == brackets_pattern()
        &&& self.citations.source() == citation_pattern()
        &&& self.spaces.source() == spaces_pattern()
    }

    /// Compiles the cleaner's three patterns; `None` when the regex crate rejects one.
    pub fn new() -> (r: Option<Cleaner>)
        ensures
            r is Some <==> regex_accepts(brackets_pattern()) && regex_accepts(citation_pattern())
                && regex_accepts(spaces_pattern()),
            r matches Some(c) ==> c.wf(),
    {
        let brackets = match Pattern::compile("\\[[0-9]+\\]") {
            Some(p) => p,
            None => return None,
        };
        let citations = match Pattern::compile("\\s*\\(citation needed\\)\\s*|\\s*\\[citation needed\\]\\s*") {
            Some(p) => p,
            None => return None,
        };
        let spaces = match Pattern::compile("\\s+") {
            Some(p) => p,
            None => return None,
        };
        Some(Cleaner { brackets, citations, spaces })
    }

    /// Cleans one paragraph of an HTML page.
    pub fn clean(&self, text: &str, keep_numbers: bool) -> (r: String)
        requires
            self.wf(),
        ensures
            r@ == html_cleaned(text@, keep_numbers),
    {
        let s0 = map_chars(text, true);
        let s1 = self.brackets.replace_all(s0.as_str(), "");
        let s2 = self.citations.replace_all(s1.as_str(), "");
        let s3 = map_chars(s2.as_str(), false);
        let s4 = self.spaces.replace_all(s3.as_str(), " ");
        clean_plain(s4.as_str(), keep_numbers)
    }
}

/// Cleans one paragraph of an HTML page (see `html_cleaned`); `None` only when the regex
/// crate rejects one of the cleaner's fixed patterns.
pub fn clean_text(text: &str, keep_numbers: bool) -> (r: Option<String>)
    ensures
        r is Some <==> regex_accepts(brackets_pattern()) && regex_accepts(citation_pattern())
            && regex_accepts(spaces_pattern()),
        r matches Some(s) ==> s@ == html_cleaned(text@, keep_numbers),
{
    match Cleaner::new() {
        Some(c) => Some(c.clean(text, keep_numbers)),
        None => None,
    }
}


/// How many characters of `s` are not white space, numeric, alphabetic, upper case.
pub open spec fn non_space_count(s: Seq<char>) -> nat {
    s.filter(|c: char| !is_white_space(c)).len()
}

/// How many characters of `s` are numeric.
pub open spec fn digit_count(s: Seq<char>) -> nat {
    s.filter(|c: char| is_numeric_char(c)).len()
}

/// How many characters of `s` are alphabetic.
pub open spec fn alpha_count(s: Seq<char>) -> nat {
    s.filter(|c: char| is_alphabetic_char(c)).len()
}

/// How many characters of `s` are upper case.
pub open spec fn caps_count(s: Seq<char>) -> nat {
    s.filter(|c: char| is_uppercase_char(c)).len()
}

/// How many characters of `s` are `=`.
pub open spec fn equals_count(s: Seq<char>) -> nat {
    s.filter(|c: char| c == '=').len()
}

/// Every character of `s` is numeric, white space, or one of `( ) . -`.
pub open spec fn only_figures(s: Seq<char>) -> bool {
    forall|i: int|
        0 <= i < s.len() ==> is_numeric_char(#[trigger] s[i]) || is_white_space(s[i]) || s[i]
            == '(' || s[i] == ')' || s[i] == '.' || s[i] == '-'
}

/// A paragraph is noise whatever the ratio limits: once trimmed it is shorter than ten
/// bytes, has fewer than `min_words` words, has no character that is not white space, is
/// all figures, is mostly capitals and digits, ends in " rhs" or " lhs" (in lower case),
/// or has three `=` or more and few letters.
pub open spec fn plainly_gibberish(text: Seq<char>, min_words: usize) -> bool {
    let t = trim(text);
    let total = non_space_count(t);
    let lower = lowercase_of(t);
    ||| encode_utf8(t).len() < 10
    ||| words(t).len() < min_words
    ||| total == 0
    ||| only_figures(t)
    ||| caps_count(t) > total / 2 && digit_count(t) > total / 3
    ||| ends_with(lower, " rhs"@)
    ||| ends_with(lower, " lhs"@)
    ||| equals_count(t) >= 3 && alpha_count(t) < total / 3
}

/// The counts that the noise ratios are taken from, over the trimmed paragraph.
pub struct CharCounts {
    pub total: usize,
    pub digits: usize,
    pub alphas: usize,
}

/// Counts the characters of the trimmed paragraph that are not white space, that are
/// numeric, and that are alphabetic.
pub fn char_counts(text: &str) -> (r: CharCounts)
    ensures
        r.total == non_space_count(trim(text@)),
        r.digits == digit_count(trim(text@)),
        r.alphas == alpha_count(trim(text@)),
{
    let cs = chars_of(text);
    let t = trim_chars(&cs);
    let (total, digits, alphas, _caps, _eqs, _figures) = scan(&t);
    CharCounts { total, digits, alphas }
}

/// One pass over `t`: its non-space, digit, letter, capital and `=` counts, and whether it
/// is all figures.
fn scan(t: &[char]) -> (r: (usize, usize, usize, usize, usize, bool))
    ensures
        r.0 == non_space_count(t@),
        r.1 == digit_count(t@),
        r.2 == alpha_count(t@),
        r.3 == caps_count(t@),
        r.4 == equals_count(t@),
        r.5 == only_figures(t@),
{
    let mut total: usize = 0;
    let mut digits: usize = 0;
    let mut alphas: usize = 0;
    let mut caps: usize = 0;
    let mut eqs: usize = 0;
    let mut figures = true;
    let mut i: usize = 0;
    while i < t.len()
        invariant
            i <= t@.len(),
            total == non_space_count(t@.take(i as int)),
            digits == digit_count(t@.take(i as int)),
            alphas == alpha_count(t@.take(i as int)),
            caps == caps_count(t@.take(i as int)),
            eqs == equals_count(t@.take(i as int)),
            figures == only_figures(t@.take(i as int)),
            total <= i && digits <= i && alphas <= i && caps <= i && eqs <= i,
        decreases t@.len() - i,
    {
        let c = t[i];
        let ghost p = t@.take(i as int);
        let ghost q = t@.take(i as int + 1);
        proof {
            reveal_with_fuel(Seq::filter, 1);
            assert(q.drop_last() =~= p);
            assert(q.last() == c);
        }
        if !char_is_whitespace(c) {
            total = total + 1;
        }
        let n = char_is_numeric(c);
        if n {
            digits = digits + 1;
        }
        if char_is_alphabetic(c) {
            alphas = alphas + 1;
        }
        if char_is_uppercase(c) {
            caps = caps + 1;
        }
        if c == '=' {
            eqs = eqs + 1;
        }
        let fig = n || char_is_whitespace(c) || c == '(' || c == ')' || c == '.' || c == '-';
        proof {
            if figures && fig {
                assert forall|j: int| 0 <= j < q.len() implies is_numeric_char(#[trigger] q[j])
                    || is_white_space(q[j]) || q[j] == '(' || q[j] == ')' || q[j] == '.' || q[j]
                    == '-' by {
                    if j < p.len() {
                        assert(q[j] == p[j]);
                    }
                }
            }
            if !fig {
                assert(!(is_numeric_char(q[i as int]) || is_white_space(q[i as int]) || q[i as int] == '('
                    || q[i as int] == ')' || q[i as int] == '.' || q[i as int] == '-'));
            }
            if !figures {
                let j = choose|j: int| 0 <= j < p.len() && !(is_numeric_char(#[trigger] p[j])
                    || is_white_space(p[j]) || p[j] == '(' || p[j] == ')' || p[j] == '.' || p[j] == '-');
                assert(q[j] == p[j]);
            }
        }
        figures = figures && fig;
        i = i + 1;
    }
    assert(t@.take(i as int) =~= t@);
    (total, digits, alphas, caps, eqs, figures)
}

/// Whether the paragraph is noise whatever the ratio limits (see `plainly_gibberish`).
pub fn is_plainly_gibberish(text: &str, min_words: usize) -> (r: bool)
    ensures
        r == plainly_gibberish(text@, min_words),
{
    let cs = chars_of(text);
    let t = trim_chars(&cs);
    let ts = string_of(&t);
    if utf8_len_below(&t, 10) {
        return true;
    }
    let ws = split_whitespace(&t);
    proof {
        assert(views(ws@).len() == ws@.len());
    }
    if ws.len() < min_words {
        return true;
    }
    let (total, digits, alphas, caps, eqs, figures) = scan(&t);
    if total == 0 || figures {
        return true;
    }
    if caps > total / 2 && digits > total / 3 {
        return true;
    }
    let lower = to_lowercase(ts.as_str());
    let lc = chars_of(lower.as_str());
    let rhs = chars_of(" rhs");
    let lhs = chars_of(" lhs");
    if has_suffix(&lc, &rhs) || has_suffix(&lc, &lhs) {
        return true;
    }
    eqs >= 3 && alphas < total / 3
}

/// What the filtered gatherer keeps of the paragraphs `ps`, whose noise verdicts are
/// `noise`: the cleaned form of each paragraph that is not noise, when it has at least
/// `min_words` words.
pub open spec fn kept_paragraphs(
    ps: Seq<Seq<char>>,
    noise: Seq<bool>,
    keep_numbers: bool,
    min_words: usize,
) -> Seq<Seq<char>>
    decreases ps.len(),
{
    if ps.len() == 0 {
        seq![]
    } else {
        let c = html_cleaned(ps.last(), keep_numbers);
        kept_paragraphs(ps.drop_last(), noise.take(ps.len() - 1), keep_numbers, min_words) + if !noise[ps.len() - 1]
            && c.len() > 0 && words(c).len() >= min_words {
            seq![c]
        } else {
            seq![]
        }
    }
}

/// The cleaned paragraphs kept of `paragraphs`, given each one's noise verdict, with the
/// number of paragraphs looked at and the number kept.
pub fn keep_paragraphs(
    cleaner: &Cleaner,
    paragraphs: &[String],
    noise: &[bool],
    keep_numbers: bool,
    min_words: usize,
) -> (r: (Vec<String>, usize, usize))
    requires
        cleaner.wf(),
        noise@.len() == paragraphs@.len(),
    ensures
        views(r.0@) == kept_paragraphs(views(paragraphs@), noise@, keep_numbers, min_words),
        r.1 == paragraphs@.len(),
        r.2 == r.0@.len(),
{
    let mut out: Vec<String> = Vec::new();
    let mut i: usize = 0;
    while i < paragraphs.len()
        invariant
            cleaner.wf(),
            i <= paragraphs@.len(),
            noise@.len() == paragraphs@.len(),
            out@.len() <= i,
            views(out@) == kept_paragraphs(
                views(paragraphs@).take(i as int),
                noise@.take(i as int),
                keep_numbers,
                min_words,
            ),
        decreases paragraphs@.len() - i,
    {
        let ghost pv = views(paragraphs@).take(i as int + 1);
        proof {
            assert(pv.drop_last() =~= views(paragraphs@).take(i as int));
            assert(noise@.take(i as int + 1).take(i as int) =~= noise@.take(i as int));
            assert(pv.last() == paragraphs@[i as int]@);
        }
        if !noise[i] {
            let c = cleaner.clean(paragraphs[i].as_str(), keep_numbers);
            let cc = chars_of(c.as_str());
            let ws = split_whitespace(&cc);
            proof {
                assert(views(ws@).len() == ws@.len());
            }
            if cc.len() > 0 && ws.len() >= min_words {
                proof {
                    assert(views(out@.push(c)) =~= views(out@) + seq![c@]);
                }
                out.push(c);
            }
        }
        i = i + 1;
    }
    assert(views(paragraphs@).take(i as int) =~= views(paragraphs@));
    assert(noise@.take(i as int) =~= noise@);
    let n = out.len();
    (out, paragraphs.len(), n)
}

/// A converted page is kept when, in lower case, it holds none of the boilerplate phrases,
/// and it has at least `min_words` words and some text.
pub open spec fn document_kept(text: Seq<char>, min_words: usize) -> bool {
    &&& !contains_any(lowercase_of(text), trash_markers())
    &&& words(text).len() >= min_words
    &&& text.len() > 0
}

/// Whether a page's final text is kept (see `document_kept`).
pub fn keep_document(final_text: &str, min_words: usize) -> (r: bool)
    ensures
        r == document_kept(final_text@, min_words),
{
    let lower = to_lowercase(final_text);
    let lc = chars_of(lower.as_str());
    if contains_any_of(&lc, &trash_marker_list()) {
        return false;
    }
    let cs = chars_of(final_text);
    let ws = split_whitespace(&cs);
    proof {
        assert(views(ws@).len() == ws@.len());
    }
    ws.len() >= min_words && cs.len() > 0
}

/// The file name that an earlier run's conversation named `name` came from: the name
/// after the prefix `HTML: `, if it has that prefix.
pub fn processed_file_name(name: &str) -> (r: Option<String>)
    ensures
        r is Some <==> crate::text::starts_with(name@, "HTML: "@),
        r matches Some(f) ==> name@ == "HTML: "@ + f@,
{
    let cs = chars_of(name);
    let p = chars_of("HTML: ");
    if !crate::text::has_prefix(&cs, &p) {
        return None;
    }
    let mut rest: Vec<char> = Vec::new();
    let mut i: usize = p.len();
    while i < cs.len()
        invariant
            p@.len() <= i <= cs@.len(),
            rest@ == cs@.subrange(p@.len() as int, i as int),
        decreases cs@.len() - i,
    {
        rest.push(cs[i]);
        i = i + 1;
        assert(rest@ =~= cs@.subrange(p@.len() as int, i as int));
    }
    let f = string_of(&rest);
    assert(name@ =~= p@ + f@) by {
        assert(cs@.take(p@.len() as int) == p@);
    }
    Some(f)
}


/// The UTF-8 encoding of a sequence with one more character is that of the sequence
/// followed by the character's encoding.
proof fn lemma_encode_push(a: Seq<char>, c: char)
    ensures
        encode_utf8(a.push(c)) == encode_utf8(a) + encode_scalar(c as u32),
    decreases a.len(),
{
    if a.len() == 0 {
        let s1 = a.push(c);
        assert(s1.drop_first() =~= Seq::<char>::empty());
        assert(s1[0] == c);
        assert(encode_utf8(s1.drop_first()) =~= Seq::<u8>::empty());
        assert(encode_utf8(a) =~= Seq::<u8>::empty());
        assert(encode_utf8(s1) =~= encode_scalar(c as u32) + Seq::<u8>::empty());
        assert(encode_utf8(s1) =~= encode_utf8(a) + encode_scalar(c as u32));
    } else {
        assert(a.push(c).drop_first() =~= a.drop_first().push(c));
        lemma_encode_push(a.drop_first(), c);
        assert(encode_utf8(a.push(c)) =~= encode_utf8(a) + encode_scalar(c as u32));
    }
}

/// Whether the UTF-8 encoding of `t` is shorter than `limit` bytes.
pub(crate) fn utf8_len_below(t: &[char], limit: usize) -> (r: bool)
    ensures
        r == (encode_utf8(t@).len() < limit),
{
    if limit == 0 {
        return false;
    }
    let mut n: usize = 0;
    let mut i: usize = 0;
    assert(t@.take(0) =~= Seq::<char>::empty());
    while i < t.len()
        invariant
            i <= t@.len(),
            n == encode_utf8(t@.take(i as int)).len(),
            n < limit,
        decreases t@.len() - i,
    {
        let c = t[i];
        proof {
            assert(t@.take(i as int + 1) =~= t@.take(i as int).push(c));
            lemma_encode_push(t@.take(i as int), c);
            char_is_scalar(c);
        }
        let v = c as u32;
        let w: usize = if v <= 0x7f {
            1
        } else if v <= 0x7ff {
            2
        } else if v <= 0xffff {
            3
        } else {
            4
        };
        assert(encode_scalar(v).len() == w);
        if w >= limit - n {
            proof {
                let full = t@;
                assert(full =~= t@.take(i as int + 1) + full.skip(i as int + 1));
                lemma_encode_concat(t@.take(i as int + 1), full.skip(i as int + 1));
            }
            return false;
        }
        n = n + w;
        i = i + 1;
    }
    assert(t@.take(i as int) =~= t@);
    true
}

/// The UTF-8 encoding of two sequences one after the other is their encodings one after
/// the other.
proof fn lemma_encode_concat(a: Seq<char>, b: Seq<char>)
    ensures
        encode_utf8(a + b) == encode_utf8(a) + encode_utf8(b),
    decreases a.len(),
{
    if a.len() == 0 {
        assert(a + b =~= b);
        assert(encode_utf8(a) =~= Seq::<u8>::empty());
        assert(encode_utf8(a) + encode_utf8(b) =~= encode_utf8(b));
    } else {
        assert((a + b).drop_first() =~= a.drop_first() + b);
        lemma_encode_concat(a.drop_first(), b);
        assert(encode_utf8(a + b) =~= encode_utf8(a) + encode_utf8(b));
    }
}


#[verifier::external_type_specification]
#[verifier::external_body]
pub struct ExHtml(scraper::Html);

#[verifier::external_type_specification]
#[verifier::external_body]
pub struct ExSelector(scraper::Selector);

/// Whether `scraper::Selector::parse` accepts the CSS selector `css`.
pub uninterp spec fn selector_accepts(css: Seq<char>) -> bool;

/// What `Html::select` yields, in document order, for the page parsed by
/// `Html::parse_document` from `page` and the selector parsed from `css`: of each element,
/// the attributes `class`, `id`, `role` and `aria-label` and its text pieces.
pub uninterp spec fn selected(page: Seq<char>, css: Seq<char>) -> Seq<ElementInfo>;

/// An HTML page parsed from its source text; only `Page::parse` makes one, so the parsed
/// tree is always that of the source.
pub struct Page {
    source: String,
    dom: scraper::Html,
}

/// A CSS selector together with the text it was parsed from; only `CssSelector::parse`
/// makes one, so the two always agree.
struct CssSelector {
    source: String,
    compiled: scraper::Selector,
}

impl Page {
    /// The text the page was parsed from.
    pub closed spec fn source(&self) -> Seq<char> {
        self.source@
    }

    /// Calls `scraper::Html::parse_document` on `text`, keeping the text beside the tree.
    #[verifier::external_body]
    fn parse(text: &str) -> (r: Page)
        ensures
            r.source() == text@,
    {
        Page { source: text.to_string(), dom: scraper::Html::parse_document(text) }
    }

    /// The page parsed from the HTML text `text`.
    pub fn from_text(text: &str) -> (r: Page)
        ensures
            r.source() == text@,
    {
        Page::parse(text)
    }
}

impl CssSelector {
    /// The selector text this selector was parsed from.
    closed spec fn source(&self) -> Seq<char> {
        self.source@
    }

    /// Calls `scraper::Selector::parse`; `None` when the crate rejects the selector.
    #[verifier::external_body]
    fn parse(css: &str) -> (r: Option<CssSelector>)
        ensures
            r is Some <==> selector_accepts(css@),
            r matches Some(s) ==> s.source() == css@,
    {
        match scraper::Selector::parse(css) {
            Ok(compiled) => Some(CssSelector { source: css.to_string(), compiled }),
            Err(_) => None,
        }
    }
}

/// Calls `Html::select` and reads, of each element it yields in document order, the
/// attributes `class`, `id`, `role` and `aria-label` and its text pieces (`ElementRef::text`).
/// The result is named: a function of the page text and the selector text.
#[verifier::external_body]
fn select_elements(page: &Page, selector: &CssSelector) -> (r: Vec<ElementInfo>)
    ensures
        r@ == selected(page.source(), selector.source()),
{
    page.dom.select(&selector.compiled).map(|el| ElementInfo {
        class: el.value().attr("class").map(|a| a.to_string()),
        id: el.value().attr("id").map(|a| a.to_string()),
        role: el.value().attr("role").map(|a| a.to_string()),
        aria_label: el.value().attr("aria-label").map(|a| a.to_string()),
        texts: el.text().map(|t| t.to_string()).collect(),
    }).collect()
}

/// The elements that `css` picks out of the page `page`; none when the selector is
/// rejected.
pub open spec fn picked_by(page: Seq<char>, css: Seq<char>) -> Seq<ElementInfo> {
    if selector_accepts(css) {
        selected(page, css)
    } else {
        seq![]
    }
}

/// The elements that the selectors `tags` pick out of the page `page`, tag after tag; a
/// selector that the crate rejects picks nothing.
pub open spec fn picked(page: Seq<char>, tags: Seq<&str>) -> Seq<ElementInfo>
    decreases tags.len(),
{
    if tags.len() == 0 {
        seq![]
    } else {
        picked(page, tags.drop_last()) + picked_by(page, tags.last()@)
    }
}

/// The elements that `css` picks out of the page; none when the selector is rejected.
fn elements_by(page: &Page, css: &str) -> (r: Vec<ElementInfo>)
    ensures
        r@ == picked_by(page.source(), css@),
{
    match CssSelector::parse(css) {
        Some(sel) => select_elements(page, &sel),
        None => Vec::new(),
    }
}

/// The elements that the selectors `tags` pick out of the page, tag after tag; a selector
/// that the crate rejects picks nothing.
fn elements_for(page: &Page, tags: &[&str]) -> (r: Vec<ElementInfo>)
    ensures
        r@ == picked(page.source(), tags@),
{
    let mut out: Vec<ElementInfo> = Vec::new();
    let mut i: usize = 0;
    while i < tags.len()
        invariant
            i <= tags@.len(),
            out@ == picked(page.source(), tags@.take(i as int)),
        decreases tags@.len() - i,
    {
        let mut found = elements_by(page, tags[i]);
        out.append(&mut found);
        proof {
            let t = tags@.take(i as int + 1);
            assert(t.drop_last() =~= tags@.take(i as int));
            assert(t.last() == tags@[i as int]);
        }
        i = i + 1;
    }
    assert(tags@.take(i as int) =~= tags@);
    out
}

/// How many elements the CSS selector `css` picks out of the page; none when the selector
/// is rejected.
pub fn count_nodes(page: &Page, css: &str) -> (r: usize)
    ensures
        r == picked_by(page.source(), css@).len(),
{
    elements_by(page, css).len()
}

/// The text of the first of `els`, its pieces joined by spaces and trimmed; `None` when
/// there is none.
pub open spec fn first_text_of(els: Seq<ElementInfo>) -> Option<Seq<char>> {
    if els.len() == 0 {
        None
    } else {
        Some(trim(element_text(els[0])))
    }
}

/// The text, as a plain value, that `r` holds.
pub open spec fn text_option(r: Option<String>) -> Option<Seq<char>> {
    match r {
        Some(t) => Some(t@),
        None => None,
    }
}

/// The text of the first of the picked elements `elements`, its pieces joined by spaces
/// and trimmed; `None` when nothing was picked.
pub fn first_text_from(elements: &[ElementInfo]) -> (r: Option<String>)
    ensures
        text_option(r) == first_text_of(elements@),
{
    if elements.len() == 0 {
        return None;
    }
    let joined = join_words(&elements[0].texts);
    let t = trim_chars(&joined);
    let r = string_of(&t);
    assert(r@ == trim(element_text(elements@[0])));
    Some(r)
}

/// The text of the first element that `css` picks out of the page, its pieces joined by
/// spaces and trimmed; `None` when the selector is rejected or picks nothing.
pub fn first_text(page: &Page, css: &str) -> (r: Option<String>)
    ensures
        text_option(r) == first_text_of(picked_by(page.source(), css@)),
{
    let els = elements_by(page, css);
    first_text_from(&els)
}

/// The text of the page's elements that `tags` pick and that are not page furniture,
/// each trimmed and ended by a line break.
pub fn gather_text(page: &Page, tags: &[&str]) -> (r: String)
    ensures
        r@ == as_lines(paragraphs_of(picked(page.source(), tags@))),
{
    let els = elements_for(page, tags);
    gather_text_from(&els)
}

/// The trimmed, non-empty texts of the page's elements that `tags` pick and that are not
/// page furniture: the paragraphs that the filtered gatherer judges.
pub fn paragraph_candidates(page: &Page, tags: &[&str]) -> (r: Vec<String>)
    ensures
        views(r@) == paragraphs_of(picked(page.source(), tags@)),
{
    let els = elements_for(page, tags);
    paragraph_texts(&els)
}

/// What the converter reads of one page: its title, how many top headings, links and
/// images it has, and either its paragraph candidates (filtered) or its whole text.
pub struct PageSummary {
    pub title: String,
    pub h1: usize,
    pub links: usize,
    pub images: usize,
    pub candidates: Vec<String>,
    pub text: String,
}

/// The title of the page `page`: the text of its first `title` element, or nothing.
pub open spec fn page_title(page: Seq<char>) -> Seq<char> {
    match first_text_of(picked_by(page, "title"@)) {
        Some(t) => t,
        None => seq![],
    }
}

/// Parses the HTML text `text` and reads what the converter keeps of it: the title, the
/// numbers of `h1` elements, of links with an `href` and of images, and, for `filtered`,
/// the paragraph candidates of the elements that `tags` pick, else their whole text.
pub fn page_summary(text: &str, tags: &[&str], filtered: bool) -> (r: PageSummary)
    ensures
        r.title@ == page_title(text@),
        r.h1 == picked_by(text@, "h1"@).len(),
        r.links == picked_by(text@, "a[href]"@).len(),
        r.images == picked_by(text@, "img"@).len(),
        filtered ==> views(r.candidates@) == paragraphs_of(picked(text@, tags@)) && r.text@
            == Seq::<char>::empty(),
        !filtered ==> r.text@ == as_lines(paragraphs_of(picked(text@, tags@))) && r.candidates@
            == Seq::<String>::empty(),
{
    let page = Page::from_text(text);
    let title = match first_text(&page, "title") {
        Some(t) => t,
        None => string_of(&Vec::new()),
    };
    let h1 = count_nodes(&page, "h1");
    let links = count_nodes(&page, "a[href]");
    let images = count_nodes(&page, "img");
    if filtered {
        let candidates = paragraph_candidates(&page, tags);
        let text = string_of(&Vec::new());
        assert(text@ =~= Seq::<char>::empty());
        PageSummary { title, h1, links, images, candidates, text }
    } else {
        let text = gather_text(&page, tags);
        let candidates: Vec<String> = Vec::new();
        PageSummary { title, h1, links, images, candidates, text }
    }
}

} // verus!
