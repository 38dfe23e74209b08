//! The word viewer's data: the text of each corpus item, and the word batches it keeps on
//! disk, named `batch_NNNNN.json` and holding five thousand words each.
use vstd::prelude::*;
use std::collections::HashMap;
use crate::corpus::concat;
use crate::json::{Json, items_of, member, text_at, text_of};
use crate::numbers::{decimal, digits_value, is_digit, all_digits, parse_usize, parsed_usize, to_decimal, unsigned_part};
use crate::text::{chars_of, ends_with, starts_with, string_of, trim, trim_chars, views};

verus! {

/// `s` trimmed, when that leaves something.
pub open spec fn nonblank(s: Option<Seq<char>>) -> Option<Seq<char>> {
    match s {
        Some(t) => if trim(t).len() > 0 {
            Some(trim(t))
        } else {
            None
        },
        None => None,
    }
}

/// The text of the first of `keys` whose member of `item` is a string that is not blank,
/// trimmed.
pub open spec fn first_text_among(item: Json, keys: Seq<Seq<char>>) -> Option<Seq<char>>
    decreases keys.len(),
{
    if keys.len() == 0 {
        None
    } else {
        match nonblank(text_at(item, keys[0])) {
            Some(t) => Some(t),
            None => first_text_among(item, keys.drop_first()),
        }
    }
}

/// The members `k1` and `k2` of `item`, both strings that are not blank, trimmed.
pub open spec fn text_pair(item: Json, k1: Seq<char>, k2: Seq<char>) -> Option<(Seq<char>, Seq<char>)> {
    match (nonblank(text_at(item, k1)), nonblank(text_at(item, k2))) {
        (Some(a), Some(b)) => Some((a, b)),
        _ => None,
    }
}

/// The keys whose value is taken as an item's text, in order of preference.
pub open spec fn primary_keys() -> Seq<Seq<char>> {
    seq!["text"@, "word"@, "token"@, "phrase"@, "content"@, "line"@]
}

/// The text of one corpus item: a string, trimmed; or, of an object, the first of
/// `text`, `word`, `token`, `phrase`, `content`, `line` that holds text; else a question
/// and answer (`Q`/`A`, then `question`/`answer`) as `Q: q || A: a`; else a prompt and
/// completion (`prompt`/`completion`, then `input`/`output`) as `p → c`. Blank text
/// counts as none.
pub open spec fn corpus_item_text(item: Json) -> Option<Seq<char>> {
    match item {
        Json::Str(s) => nonblank(Some(s@)),
        Json::Object(_) => match first_text_among(item, primary_keys()) {
            Some(t) => Some(t),
            None => match text_pair(item, "Q"@, "A"@) {
                Some(p) => Some("Q: "@ + p.0 + " || A: "@ + p.1),
                None => match text_pair(item, "question"@, "answer"@) {
                    Some(p) => Some("Q: "@ + p.0 + " || A: "@ + p.1),
                    None => match text_pair(item, "prompt"@, "completion"@) {
                        Some(p) => Some(p.0 + " → "@ + p.1),
                        None => match text_pair(item, "input"@, "output"@) {
                            Some(p) => Some(p.0 + " → "@ + p.1),
                            None => None,
                        },
                    },
                },
            },
        },
        _ => None,
    }
}

/// The trimmed text of `s`, when it is not blank.
fn nonblank_text(s: Option<&String>) -> (r: Option<String>)
    ensures
        match r {
            Some(t) => nonblank(match s { Some(x) => Some(x@), None => None }) == Some(t@),
            None => nonblank(match s { Some(x) => Some(x@), None => None }) is None,
        },
{
    match s {
        Some(x) => {
            let t = trim_chars(&chars_of(x.as_str()));
            if t.len() > 0 {
                Some(string_of(&t))
            } else {
                None
            }
        },
        None => None,
    }
}

/// The members `k1` and `k2` of `item` as non-blank trimmed texts (see `text_pair`).
fn pair_of(item: &Json, k1: &str, k2: &str) -> (r: Option<(String, String)>)
    ensures
        match r {
            Some(p) => text_pair(*item, k1@, k2@) == Some((p.0@, p.1@)),
            None => text_pair(*item, k1@, k2@) is None,
        },
{
    let a = nonblank_text(item.str_at(k1));
    let b = nonblank_text(item.str_at(k2));
    match (a, b) {
        (Some(x), Some(y)) => Some((x, y)),
        _ => None,
    }
}

/// The text of one corpus item (see `corpus_item_text`).
pub fn extract_text_from_corpus_item(item: &Json) -> (r: Option<String>)
    ensures
        match r {
            Some(t) => corpus_item_text(*item) == Some(t@),
            None => corpus_item_text(*item) is None,
        },
{
    match item {
        Json::Str(s) => nonblank_text(Some(s)),
        Json::Object(_) => {
            let mut keys: Vec<&'static str> = Vec::new();
            keys.push("text");
            keys.push("word");
            keys.push("token");
            keys.push("phrase");
            keys.push("content");
            keys.push("line");
            assert(keys@.map_values(|k: &str| k@) =~= primary_keys());
            assert(primary_keys().skip(0) =~= primary_keys());
            let mut i: usize = 0;
            while i < keys.len()
                invariant
                    i <= keys@.len(),
                    keys@.map_values(|k: &str| k@) == primary_keys(),
                    first_text_among(*item, primary_keys()) == first_text_among(
                        *item,
                        primary_keys().skip(i as int),
                    ),
                decreases keys@.len() - i,
            {
                let ghost rest = primary_keys().skip(i as int);
                assert(rest[0] == keys@[i as int]@);
                assert(rest.drop_first() =~= primary_keys().skip(i as int + 1));
                if let Some(t) = nonblank_text(item.str_at(keys[i])) {
                    return Some(t);
                }
                i = i + 1;
            }
            assert(primary_keys().skip(i as int) =~= Seq::<Seq<char>>::empty());
            if let Some((q, a)) = pair_of(item, "Q", "A") {
                let s1 = concat("Q: ", q.as_str());
                let s2 = concat(s1.as_str(), " || A: ");
                return Some(concat(s2.as_str(), a.as_str()));
            }
            if let Some((q, a)) = pair_of(item, "question", "answer") {
                let s1 = concat("Q: ", q.as_str());
                let s2 = concat(s1.as_str(), " || A: ");
                return Some(concat(s2.as_str(), a.as_str()));
            }
            if let Some((p, c)) = pair_of(item, "prompt", "completion") {
                let s1 = concat(p.as_str(), " → ");
                return Some(concat(s1.as_str(), c.as_str()));
            }
            if let Some((p, c)) = pair_of(item, "input", "output") {
                let s1 = concat(p.as_str(), " → ");
                return Some(concat(s1.as_str(), c.as_str()));
            }
            None
        },
        _ => None,
    }
}

/// Why a corpus file gave no words.
#[derive(PartialEq, Eq, Structural, Clone, Copy, Debug)]
pub enum CorpusProblem {
    /// The document is not an array.
    NotArray,
    /// No item of the array holds text.
    NoText,
}

/// The texts of the items of `items` that hold text, in order.
pub open spec fn item_texts(items: Seq<Json>) -> Seq<Seq<char>>
    decreases items.len(),
{
    if items.len() == 0 {
        seq![]
    } else {
        item_texts(items.drop_last()) + match corpus_item_text(items.last()) {
            Some(t) => seq![t],
            None => seq![],
        }
    }
}

/// The words of a corpus document: the text of each item of its top-level array that holds
/// text; an error when it is not an array or no item holds text.
pub fn corpus_texts(data: &Json) -> (r: Result<Vec<String>, CorpusProblem>)
    ensures
        match items_of(Some(*data)) {
            None => r == Err::<Vec<String>, CorpusProblem>(CorpusProblem::NotArray),
            Some(items) => if item_texts(items).len() == 0 {
                r == Err::<Vec<String>, CorpusProblem>(CorpusProblem::NoText)
            } else {
                r matches Ok(v) && views(v@) == item_texts(items)
            },
        },
{
    match data.as_array() {
        None => Err(CorpusProblem::NotArray),
        Some(items) => {
            let mut out: Vec<String> = Vec::new();
            let mut i: usize = 0;
            while i < items.len()
                invariant
                    i <= items@.len(),
                    views(out@) == item_texts(items@.take(i as int)),
                decreases items@.len() - i,
            {
                proof {
                    assert(items@.take(i as int + 1).drop_last() =~= items@.take(i as int));
                    assert(items@.take(i as int + 1).last() == items@[i as int]);
                }
                if let Some(t) = extract_text_from_corpus_item(&items[i]) {
                    let ghost before = views(out@);
                    out.push(t);
                    assert(views(out@) =~= before.push(out@.last()@));
                }
                assert(views(out@) =~= item_texts(items@.take(i as int + 1)));
                i = i + 1;
            }
            assert(items@.take(i as int) =~= items@);
            if out.len() == 0 {
                Err(CorpusProblem::NoText)
            } else {
                Ok(out)
            }
        },
    }
}

/// `s` with every leading `p` removed, as `str::trim_start_matches` with a string does.
pub open spec fn strip_leading(s: Seq<char>, p: Seq<char>) -> Seq<char>
    decreases s.len(),
{
    if p.len() > 0 && starts_with(s, p) {
        strip_leading(s.skip(p.len() as int), p)
    } else {
        s
    }
}

/// `s` with every trailing `p` removed, as `str::trim_end_matches` with a string does.
pub open spec fn strip_trailing_all(s: Seq<char>, p: Seq<char>) -> Seq<char>
    decreases s.len(),
{
    if p.len() > 0 && ends_with(s, p) {
        strip_trailing_all(s.take(s.len() - p.len()), p)
    } else {
        s
    }
}

/// The batch number a file name gives: the name without its leading `batch_` and trailing
/// `.json`, read as a number.
pub open spec fn batch_number_of(name: Seq<char>) -> Option<usize> {
    parsed_usize(strip_trailing_all(strip_leading(name, "batch_"@), ".json"@))
}

/// `s` with every leading `p` removed.
fn strip_leading_exec(s: &[char], p: &[char]) -> (r: Vec<char>)
    ensures
        r@ == strip_leading(s@, p@),
{
    let mut i: usize = 0;
    assert(s@.skip(0) =~= s@);
    if p.len() > 0 {
        while i <= s.len() && s.len() - i >= p.len() && crate::text::matches_at(s, p, i)
            invariant
                p@.len() > 0,
                i <= s@.len(),
                strip_leading(s@.skip(i as int), p@) == strip_leading(s@, p@),
            decreases s@.len() - i,
        {
            proof {
                let t = s@.skip(i as int);
                assert(starts_with(t, p@)) by {
                    assert(t.take(p@.len() as int) =~= s@.subrange(i as int, i + p@.len()));
                }
                assert(t.skip(p@.len() as int) =~= s@.skip(i + p@.len()));
            }
            i = i + p.len();
        }
        proof {
            let t = s@.skip(i as int);
            if starts_with(t, p@) {
                assert(t.take(p@.len() as int) =~= s@.subrange(i as int, i + p@.len()));
            }
        }
    } else {
        assert(s@.skip(0) =~= s@);
    }
    let mut r: Vec<char> = Vec::new();
    let mut j: usize = i;
    while j < s.len()
        invariant
            i <= j <= s@.len(),
            r@ == s@.subrange(i as int, j as int),
        decreases s@.len() - j,
    {
        r.push(s[j]);
        j = j + 1;
        assert(r@ =~= s@.subrange(i as int, j as int));
    }
    assert(r@ =~= s@.skip(i as int));
    r
}

/// `s` with every trailing `p` removed.
fn strip_trailing_exec(s: &[char], p: &[char]) -> (r: Vec<char>)
    ensures
        r@ == strip_trailing_all(s@, p@),
{
    let mut n: usize = s.len();
    assert(s@.take(n as int) =~= s@);
    if p.len() > 0 {
        while n >= p.len() && crate::text::matches_at(s, p, n - p.len())
            invariant
                p@.len() > 0,
                n <= s@.len(),
                strip_trailing_all(s@.take(n as int), p@) == strip_trailing_all(s@, p@),
            decreases n,
        {
            proof {
                let t = s@.take(n as int);
                assert(ends_with(t, p@)) by {
                    assert(t.skip(t.len() - p@.len()) =~= s@.subrange(n - p@.len(), n as int));
                }
                assert(t.take(t.len() - p@.len()) =~= s@.take(n - p@.len()));
            }
            n = n - p.len();
        }
        proof {
            let t = s@.take(n as int);
            if ends_with(t, p@) {
                assert(t.skip(t.len() - p@.len()) =~= s@.subrange(n - p@.len(), n as int));
            }
        }
    }
    let mut r: Vec<char> = Vec::new();
    let mut j: usize = 0;
    while j < n
        invariant
            j <= n <= s@.len(),
            r@ == s@.take(j as int),
        decreases n - j,
    {
        r.push(s[j]);
        j = j + 1;
        assert(r@ =~= s@.take(j as int));
    }
    r
}

/// The batch number of a file named like `batch_00012.json` (see `batch_number_of`).
pub fn extract_batch_number(filename: &str) -> (r: Option<usize>)
    ensures
        r == batch_number_of(filename@),
{
    let cs = chars_of(filename);
    let a = strip_leading_exec(&cs, &chars_of("batch_"));
    let b = strip_trailing_exec(&a, &chars_of(".json"));
    parse_usize(string_of(&b).as_str())
}

/// Zeros in front of `d` up to five characters.
pub open spec fn pad5(d: Seq<char>) -> Seq<char> {
    if d.len() < 5 {
        Seq::new((5 - d.len()) as nat, |i: int| '0') + d
    } else {
        d
    }
}

/// The file name of batch `n`: `batch_`, its number written with at least five digits,
/// and `.json`.
pub open spec fn batch_file_name(n: usize) -> Seq<char> {
    "batch_"@ + pad5(decimal(n as nat)) + ".json"@
}

/// The file name of batch `n` (see `batch_file_name`).
pub fn batch_name(n: usize) -> (r: String)
    ensures
        r@ == batch_file_name(n),
{
    let d = to_decimal(n);
    let dc = chars_of(d.as_str());
    let mut padded: Vec<char> = Vec::new();
    let mut k: usize = dc.len();
    while k < 5
        invariant
            dc@.len() <= k <= 5 || (k == dc@.len() && k >= 5),
            padded@ == Seq::new((k - dc@.len()) as nat, |i: int| '0'),
        decreases 5 - k,
    {
        padded.push('0');
        k = k + 1;
        assert(padded@ =~= Seq::new((k - dc@.len()) as nat, |i: int| '0'));
    }
    let mut j: usize = 0;
    let ghost z = padded@;
    while j < dc.len()
        invariant
            j <= dc@.len(),
            padded@ == z + dc@.take(j as int),
        decreases dc@.len() - j,
    {
        padded.push(dc[j]);
        j = j + 1;
        assert(padded@ =~= z + dc@.take(j as int));
    }
    assert(dc@.take(j as int) =~= dc@);
    assert(padded@ =~= pad5(decimal(n as nat)));
    let p = string_of(&padded);
    let s1 = concat("batch_", p.as_str());
    concat(s1.as_str(), ".json")
}

/// Batches hold this many words.
pub open spec fn batch_size() -> nat {
    5000
}

/// The word ranges of the batches of `total` words: five thousand each, the last one
/// holding the rest.
pub open spec fn batch_bounds(total: nat, i: nat) -> (nat, nat) {
    let end = (i + 1) * batch_size();
    (i * batch_size(), if end <= total { end } else { total })
}

/// The word ranges of the batches of `total` words (see `batch_bounds`), in order.
pub fn batch_ranges(total: usize) -> (r: Vec<(usize, usize)>)
    ensures
        r@.len() == (total + 4999) / 5000,
        forall|i: int| 0 <= i < r@.len() ==> (#[trigger] r@[i]).0 == batch_bounds(total as nat, i as nat).0
            && r@[i].1 == batch_bounds(total as nat, i as nat).1,
{
    let mut out: Vec<(usize, usize)> = Vec::new();
    let mut index: usize = 0;
    while index < total
        invariant
            index <= total,
            out@.len() == (index + 4999) / 5000,
            index < total ==> index % 5000 == 0,
            forall|i: int| 0 <= i < out@.len() ==> (#[trigger] out@[i]).0 == batch_bounds(total as nat, i as nat).0
                && out@[i].1 == batch_bounds(total as nat, i as nat).1,
        decreases total - index,
    {
        let end = if total - index > 5000 { index + 5000 } else { total };
        let ghost len0 = out@.len();
        proof {
            assert(index == len0 * 5000) by (nonlinear_arith)
                requires
                    len0 == (index + 4999) / 5000,
                    index % 5000 == 0,
            ;
            assert((len0 + 1) * 5000 == index + 5000) by (nonlinear_arith)
                requires
                    index == len0 * 5000,
            ;
        }
        out.push((index, end));
        proof {
            assert(out@[len0 as int] == (index, end));
            if end < total {
                assert(end % 5000 == 0) by (nonlinear_arith)
                    requires
                        end == index + 5000,
                        index % 5000 == 0,
                ;
                assert(out@.len() == (end + 4999) / 5000) by (nonlinear_arith)
                    requires
                        end == index + 5000,
                        out@.len() == len0 + 1,
                        index == len0 * 5000,
                ;
            } else {
                assert(out@.len() == (end + 4999) / 5000) by (nonlinear_arith)
                    requires
                        end == total,
                        total - index <= 5000,
                        total > index,
                        out@.len() == len0 + 1,
                        index == len0 * 5000,
                ;
            }
        }
        index = end;
    }
    out
}

/// The batches on disk, by number, each with its file name.
pub struct WordBatchIndex {
    pub batches: HashMap<usize, String>,
}

/// The file names among `names` that are batch files, by the number each gives; of two
/// names with the same number the later one.
pub open spec fn batch_files(names: Seq<Seq<char>>) -> Map<usize, Seq<char>>
    decreases names.len(),
{
    if names.len() == 0 {
        Map::empty()
    } else {
        let m = batch_files(names.drop_last());
        let n = names.last();
        if starts_with(n, "batch_"@) && ends_with(n, ".json"@) && batch_number_of(n) is Some {
            m.insert(batch_number_of(n)->0, n)
        } else {
            m
        }
    }
}

impl WordBatchIndex {
    /// An index with no batches.
    pub fn new() -> (r: WordBatchIndex)
        ensures
            r.batches@ == Map::<usize, String>::empty(),
    {
        WordBatchIndex { batches: HashMap::new() }
    }

    /// The index of the batch files among the file names of the batch folder.
    pub fn from_file_names(names: &[String]) -> (r: WordBatchIndex)
        ensures
            r.batches@.map_values(|s: String| s@) == batch_files(views(names@)),
    {
        let mut idx = WordBatchIndex::new();
        let mut i: usize = 0;
        while i < names.len()
            invariant
                i <= names@.len(),
                idx.batches@.map_values(|s: String| s@) == batch_files(views(names@).take(i as int)),
            decreases names@.len() - i,
        {
            let name = &names[i];
            let cs = chars_of(name.as_str());
            proof {
                assert(views(names@).take(i as int + 1).drop_last() =~= views(names@).take(i as int));
                assert(views(names@).take(i as int + 1).last() == name@);
            }
            let ghost before = idx.batches@;
            if crate::text::has_prefix(&cs, &chars_of("batch_")) && crate::text::has_suffix(&cs, &chars_of(".json")) {
                if let Some(num) = extract_batch_number(name.as_str()) {
                    idx.batches.insert(num, name.clone());
                    assert(idx.batches@.map_values(|s: String| s@) =~= before.map_values(|s: String| s@).insert(num, name@));
                }
            }
            i = i + 1;
        }
        assert(views(names@).take(i as int) =~= views(names@));
        idx
    }

    /// Whether batch `n` is on disk.
    pub fn has_batch(&self, n: usize) -> (r: bool)
        ensures
            r == self.batches@.contains_key(n),
    {
        self.batches.contains_key(&n)
    }

    /// Whether the index lists no batch.
    pub fn is_empty(&self) -> (r: bool)
        ensures
            r == (self.batches@.len() == 0),
    {
        self.batches.is_empty()
    }
}

/// The batch that Ctrl+Left switches to from batch `active`: the one before, if any.
pub fn previous_batch(active: usize) -> (r: Option<usize>)
    ensures
        r == if active > 0 { Some((active - 1) as usize) } else { None::<usize> },
{
    if active > 0 {
        Some(active - 1)
    } else {
        None
    }
}

/// The batch that Ctrl+Right switches to from batch `active`: the next one, if the index
/// lists it.
pub fn next_batch(index: &WordBatchIndex, active: usize) -> (r: Option<usize>)
    ensures
        r == if active < usize::MAX && index.batches@.contains_key((active + 1) as usize) {
            Some((active + 1) as usize)
        } else {
            None::<usize>
        },
{
    if active < usize::MAX && index.has_batch(active + 1) {
        Some(active + 1)
    } else {
        None
    }
}

/// The message for switching to a batch the index does not list.
pub fn missing_batch_message(n: usize) -> (r: String)
    ensures
        r@ == "Batch "@ + decimal(n as nat) + " does not exist."@,
{
    let s1 = concat("Batch ", to_decimal(n).as_str());
    concat(s1.as_str(), " does not exist.")
}


/// Zeros in front of a numeral leave its value.
proof fn lemma_leading_zeros(z: Seq<char>, d: Seq<char>)
    requires
        forall|i: int| 0 <= i < z.len() ==> z[i] == '0',
    ensures
        digits_value(z + d) == digits_value(d),
    decreases d.len(),
{
    if d.len() == 0 {
        assert(z + d =~= z);
        lemma_zeros_value(z);
    } else {
        assert((z + d).drop_last() =~= z + d.drop_last());
        assert((z + d).last() == d.last());
        lemma_leading_zeros(z, d.drop_last());
    }
}

/// A run of zeros is worth nothing.
proof fn lemma_zeros_value(z: Seq<char>)
    requires
        forall|i: int| 0 <= i < z.len() ==> z[i] == '0',
    ensures
        digits_value(z) == 0,
    decreases z.len(),
{
    if z.len() > 0 {
        lemma_zeros_value(z.drop_last());
    }
}

/// Reading the number back from the file name of batch `n` gives `n`.
pub proof fn lemma_batch_name_number(n: usize)
    ensures
        batch_number_of(batch_file_name(n)) == Some(n),
{
    reveal_strlit("batch_");
    reveal_strlit(".json");
    let d = decimal(n as nat);
    crate::numbers::lemma_decimal_value(n as nat);
    let p = pad5(d);
    let z = Seq::new((5 - d.len()) as nat, |i: int| '0');
    if d.len() < 5 {
        assert(p == z + d);
        lemma_leading_zeros(z, d);
        assert forall|i: int| 0 <= i < p.len() implies is_digit(#[trigger] p[i]) by {
            if i >= z.len() {
                assert(p[i] == d[i - z.len()]);
            }
        }
    }
    assert(all_digits(p));
    assert(digits_value(p) == n);
    assert(p.len() >= 5);
    let name = batch_file_name(n);
    let b = "batch_"@;
    let j = ".json"@;
    assert(name == b + p + j);
    assert(starts_with(name, b)) by {
        assert(name.take(6) =~= b);
    }
    assert(name.skip(6) =~= p + j);
    assert(!starts_with(p + j, b)) by {
        assert((p + j)[0] == p[0]);
        assert(is_digit(p[0]));
        assert(b[0] == 'b');
        if starts_with(p + j, b) {
            assert((p + j).take(6)[0] == b[0]);
        }
    }
    assert(strip_leading(p + j, b) == p + j);
    assert(strip_leading(name, b) == p + j);
    assert(ends_with(p + j, j)) by {
        assert((p + j).skip((p + j).len() - 5) =~= j);
    }
    assert((p + j).take((p + j).len() - 5) =~= p);
    assert(!ends_with(p, j)) by {
        assert(is_digit(p[p.len() - 1]));
        assert(j[4] == 'n');
        if ends_with(p, j) {
            assert(p.skip(p.len() - 5)[4] == p[p.len() - 1]);
        }
    }
    assert(strip_trailing_all(p, j) == p);
    assert(strip_trailing_all(p + j, j) == p);
    assert(unsigned_part(p) == p) by {
        assert(is_digit(p[0]));
    }
}

/// A string item that is not blank has as its text the string trimmed.
pub proof fn lemma_string_item_text(s: String)
    requires
        trim(s@).len() > 0,
    ensures
        corpus_item_text(Json::Str(s)) == Some(trim(s@)),
{
}

/// An object whose `text` member is a string that is not blank has that string, trimmed,
/// as its text, whatever else it holds.
pub proof fn lemma_text_member_first(item: Json, t: Seq<char>)
    requires
        item is Object,
        text_at(item, "text"@) == Some(t),
        trim(t).len() > 0,
    ensures
        corpus_item_text(item) == Some(trim(t)),
{
    assert(primary_keys()[0] == "text"@);
}

/// A question and answer always give an item text: an object whose `Q` and `A` members
/// (or `question` and `answer` members) are strings that are not blank has some text; and
/// when it holds no text under the primary keys, that text is "Q: ", the trimmed question,
/// " || A: ", and the trimmed answer.
pub proof fn lemma_question_answer_text(item: Json, qk: Seq<char>, ak: Seq<char>, q: Seq<char>, a: Seq<char>)
    requires
        item is Object,
        (qk == "Q"@ && ak == "A"@) || (qk == "question"@ && ak == "answer"@),
        text_at(item, qk) == Some(q),
        text_at(item, ak) == Some(a),
        trim(q).len() > 0,
        trim(a).len() > 0,
        qk == "question"@ ==> text_pair(item, "Q"@, "A"@) is None,
    ensures
        corpus_item_text(item) is Some,
        first_text_among(item, primary_keys()) is None ==> corpus_item_text(item) == Some(
            "Q: "@ + trim(q) + " || A: "@ + trim(a),
        ),
{
    assert(text_pair(item, qk, ak) == Some((trim(q), trim(a))));
}

/// An input and output always give an item text: an object whose `input` and `output`
/// members are strings that are not blank has some text.
pub proof fn lemma_input_output_text(item: Json, i: Seq<char>, o: Seq<char>)
    requires
        item is Object,
        text_at(item, "input"@) == Some(i),
        text_at(item, "output"@) == Some(o),
        trim(i).len() > 0,
        trim(o).len() > 0,
    ensures
        corpus_item_text(item) is Some,
{
    assert(text_pair(item, "input"@, "output"@) == Some((trim(i), trim(o))));
}

/// A prompt and completion always give an item text: an object whose `prompt` and
/// `completion` members are strings that are not blank has some text; and when it holds
/// no text under the primary keys and no question and answer, that text is the trimmed
/// prompt, " → ", and the trimmed completion.
pub proof fn lemma_prompt_completion_text(item: Json, prompt: Seq<char>, completion: Seq<char>)
    requires
        item is Object,
        text_at(item, "prompt"@) == Some(prompt),
        text_at(item, "completion"@) == Some(completion),
        trim(prompt).len() > 0,
        trim(completion).len() > 0,
    ensures
        corpus_item_text(item) is Some,
        first_text_among(item, primary_keys()) is None && text_pair(item, "Q"@, "A"@) is None
            && text_pair(item, "question"@, "answer"@) is None ==> corpus_item_text(item) == Some(
            trim(prompt) + " → "@ + trim(completion),
        ),
{
    assert(text_pair(item, "prompt"@, "completion"@) == Some((trim(prompt), trim(completion))));
}

/// An object made of just a `prompt` and a `completion` string, neither blank, has as its
/// text the trimmed prompt, " → ", and the trimmed completion.
pub proof fn lemma_prompt_completion_only(es: Vec<(String, Json)>, prompt: String, completion: String)
    requires
        es@.len() == 2,
        es@[0].0@ == "prompt"@,
        es@[0].1 == Json::Str(prompt),
        es@[1].0@ == "completion"@,
        es@[1].1 == Json::Str(completion),
        trim(prompt@).len() > 0,
        trim(completion@).len() > 0,
    ensures
        corpus_item_text(Json::Object(es)) == Some(trim(prompt@) + " → "@ + trim(completion@)),
{
    let item = Json::Object(es);
    reveal_strlit("prompt");
    reveal_strlit("completion");
    reveal_strlit("text");
    reveal_strlit("word");
    reveal_strlit("token");
    reveal_strlit("phrase");
    reveal_strlit("content");
    reveal_strlit("line");
    reveal_strlit("Q");
    reveal_strlit("A");
    reveal_strlit("question");
    reveal_strlit("answer");
    let d = es@.drop_last();
    assert(d.drop_last() =~= Seq::<(String, Json)>::empty());
    assert(d.last() == es@[0]);
    assert(es@.last() == es@[1]);
    assert forall|k: Seq<char>| #[trigger] member(d.drop_last(), k) is None by {
        assert(d.drop_last().len() == 0);
    }
    assert forall|k: Seq<char>| k != "prompt"@ && k != "completion"@ implies #[trigger] text_at(item, k)
        is None by {
        assert(member(d.drop_last(), k) is None);
        assert(member(d, k) is None);
    }
    assert(member(d.drop_last(), "prompt"@) is None);
    assert(member(d.drop_last(), "completion"@) is None);
    assert("prompt"@.len() == 6 && "completion"@.len() == 10);
    assert(member(es@.drop_last(), "prompt"@) == Some(Json::Str(prompt)));
    assert(text_at(item, "prompt"@) == Some(prompt@));
    assert(member(es@.drop_last(), "completion"@) is None);
    assert(text_at(item, "completion"@) == Some(completion@));
    let ks = primary_keys();
    assert(ks[0] != "prompt"@ && ks[0] != "completion"@);
    assert("word"@ != "prompt"@ && "word"@ != "completion"@);
    assert("token"@ != "prompt"@ && "token"@ != "completion"@);
    assert("phrase"@ != "prompt"@ && "phrase"@ != "completion"@) by {
        assert(("phrase"@)[1] != ("prompt"@)[1]);
    }
    assert("content"@ != "prompt"@ && "content"@ != "completion"@);
    assert("line"@ != "prompt"@ && "line"@ != "completion"@);
    assert("Q"@ != "prompt"@ && "A"@ != "completion"@);
    assert("question"@ != "prompt"@ && "answer"@ != "completion"@) by {
        assert(("answer"@)[0] != ("completion"@)[0]);
    }
    reveal_with_fuel(first_text_among, 7);
    assert(ks.drop_first() =~= seq!["word"@, "token"@, "phrase"@, "content"@, "line"@]);
    assert(first_text_among(item, ks) is None);
    lemma_prompt_completion_text(item, prompt@, completion@);
}

} // verus!
