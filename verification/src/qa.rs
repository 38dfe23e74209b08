//! Plain-text and question/answer transcripts turned into chat messages.
use vstd::prelude::*;
use crate::text::{
    before_first, chars_of, char_is_alphabetic, char_is_numeric, char_is_whitespace,
    collapse_spaces, collapse_whitespace, count_char, has_prefix, lemma_collapse_keeps_count,
    lemma_count_filter, lemma_count_filter_out, is_alphabetic_char, is_numeric_char,
    is_white_space, join_with, lemma_join_chars, lemma_words_chars, lemma_words_of_join, lines,
    prefix_before, split_lines, starts_with, string_of, trim, trim_chars, views, words,
};

verus! {

/// The characters that the plain-text cleaner keeps: letters, white space, digits when
/// numbers are kept, and `. , ! ? ; : ' -`.
pub open spec fn keeps_char(c: char, keep_numbers: bool) -> bool {
    ||| is_alphabetic_char(c)
    ||| is_white_space(c)
    ||| (keep_numbers && is_numeric_char(c))
    ||| c == '.'
    ||| c == ','
    ||| c == '!'
    ||| c == '?'
    ||| c == ';'
    ||| c == ':'
    ||| c == '\''
    ||| c == '-'
}

/// The cleaned form of `s`: the kept characters, with white space collapsed to single
/// spaces and none at either end.
pub open spec fn cleaned(s: Seq<char>, keep_numbers: bool) -> Seq<char> {
    collapse_spaces(s.filter(|c: char| keeps_char(c, keep_numbers)))
}

/// Whether the plain-text cleaner keeps `c`.
pub fn keep_char(c: char, keep_numbers: bool) -> (r: bool)
    ensures
        r == keeps_char(c, keep_numbers),
{
    char_is_alphabetic(c) || char_is_whitespace(c) || (keep_numbers && char_is_numeric(c)) || c
        == '.' || c == ',' || c == '!' || c == '?' || c == ';' || c == ':' || c == '\'' || c
        == '-'
}

/// The cleaned characters of `s`.
pub fn clean_chars(s: &[char], keep_numbers: bool) -> (r: Vec<char>)
    ensures
        r@ == cleaned(s@, keep_numbers),
{
    let ghost f = |c: char| keeps_char(c, keep_numbers);
    let mut kept: Vec<char> = Vec::new();
    let mut i: usize = 0;
    while i < s.len()
        invariant
            i <= s@.len(),
            f == (|c: char| keeps_char(c, keep_numbers)),
            kept@ == s@.take(i as int).filter(f),
        decreases s@.len() - i,
    {
        proof {
            reveal_with_fuel(Seq::filter, 1);
            assert(s@.take(i as int + 1).drop_last() =~= s@.take(i as int));
        }
        if keep_char(s[i], keep_numbers) {
            kept.push(s[i]);
        }
        i = i + 1;
    }
    assert(s@.take(i as int) =~= s@);
    collapse_whitespace(&kept)
}

/// Keeps letters, white space, sentence punctuation (`. , ! ? ; :`), apostrophes, hyphens
/// and, when `keep_numbers` holds, digits; then collapses white space to single spaces.
pub fn clean_text(text: &str, keep_numbers: bool) -> (r: String)
    ensures
        r@ == cleaned(text@, keep_numbers),
{
    let cs = chars_of(text);
    let r = clean_chars(&cs, keep_numbers);
    string_of(&r)
}

/// Every character of `s` is one that the plain-text cleaner keeps.
pub open spec fn all_kept(s: Seq<char>, keep_numbers: bool) -> bool {
    forall|i: int| 0 <= i < s.len() ==> keeps_char(#[trigger] s[i], keep_numbers)
}

/// Keeping the kept characters of a text made of kept characters changes nothing.
proof fn lemma_filter_all_kept(s: Seq<char>, keep_numbers: bool)
    requires
        all_kept(s, keep_numbers),
    ensures
        s.filter(|c: char| keeps_char(c, keep_numbers)) == s,
    decreases s.len(),
{
    reveal_with_fuel(Seq::filter, 1);
    if s.len() > 0 {
        assert forall|k: int| 0 <= k < s.drop_last().len() implies keeps_char(
            #[trigger] s.drop_last()[k],
            keep_numbers,
        ) by {
            assert(s.drop_last()[k] == s[k]);
        }
        lemma_filter_all_kept(s.drop_last(), keep_numbers);
        assert(keeps_char(s.last(), keep_numbers));
        assert(s.drop_last().push(s.last()) =~= s);
    }
}

/// Cleaning a cleaned text changes nothing: the plain-text cleaner is idempotent.
pub proof fn lemma_clean_idempotent(s: Seq<char>, keep_numbers: bool)
    ensures
        cleaned(cleaned(s, keep_numbers), keep_numbers) == cleaned(s, keep_numbers),
{
    let f = |c: char| keeps_char(c, keep_numbers);
    let x = s.filter(f);
    assert forall|i: int| 0 <= i < x.len() implies keeps_char(#[trigger] x[i], keep_numbers) by {
        s.lemma_filter_pred(f, i);
    }
    let ws = words(x);
    lemma_words_chars(x, seq![], f);
    assert(keeps_char(' ', keep_numbers));
    lemma_join_chars(ws, seq![' '], f);
    let c = join_with(ws, seq![' ']);
    assert(c == cleaned(s, keep_numbers));
    lemma_filter_all_kept(c, keep_numbers);
    lemma_words_of_join(ws);
}

/// The plain-text cleaner loses no letter, no digit when numbers are kept, and none of
/// the sentence marks `. , ! ? ; :`, the apostrophe or the hyphen: each such character
/// that is not white space occurs in the cleaned text exactly as often as in the text.
pub proof fn lemma_clean_keeps_marks(s: Seq<char>, keep_numbers: bool, c: char)
    requires
        c == '.' || c == ',' || c == '!' || c == '?' || c == ';' || c == ':' || c == '\'' || c
            == '-' || is_alphabetic_char(c) || (keep_numbers && is_numeric_char(c)),
        !is_white_space(c),
    ensures
        count_char(cleaned(s, keep_numbers), c) == count_char(s, c),
{
    let f = |x: char| keeps_char(x, keep_numbers);
    lemma_count_filter(s, f, c);
    lemma_collapse_keeps_count(s.filter(f), c);
}

/// The plain-text cleaner keeps nothing else: a character that is not a letter, not white
/// space, not a digit kept, and none of `. , ! ? ; : ' -` never occurs in the cleaned text.
pub proof fn lemma_clean_drops_others(s: Seq<char>, keep_numbers: bool, c: char)
    requires
        !(c == '.' || c == ',' || c == '!' || c == '?' || c == ';' || c == ':' || c == '\'' || c
            == '-'),
        !is_alphabetic_char(c),
        !is_white_space(c),
        !(keep_numbers && is_numeric_char(c)),
    ensures
        count_char(cleaned(s, keep_numbers), c) == 0,
{
    let f = |x: char| keeps_char(x, keep_numbers);
    lemma_count_filter_out(s, f, c);
    lemma_collapse_keeps_count(s.filter(f), c);
}

/// Of a text of ASCII letters and spaces the cleaner keeps every word: the cleaned text is
/// its words joined by single spaces.
pub proof fn lemma_clean_letters_and_spaces(s: Seq<char>, keep_numbers: bool)
    requires
        forall|i: int|
            0 <= i < s.len() ==> ('a' <= #[trigger] s[i] && s[i] <= 'z') || ('A' <= s[i] && s[i]
                <= 'Z') || s[i] == ' ',
    ensures
        cleaned(s, keep_numbers) == collapse_spaces(s),
        words(cleaned(s, keep_numbers)) == words(s),
{
    assert forall|i: int| 0 <= i < s.len() implies keeps_char(#[trigger] s[i], keep_numbers) by {
        if s[i] != ' ' {
            assert(is_alphabetic_char(s[i]));
        }
    }
    lemma_filter_all_kept(s, keep_numbers);
    let f = |c: char| true;
    lemma_words_chars(s, seq![], f);
    lemma_words_of_join(words(s));
}

/// The number of lines in `ls` whose trimmed form begins with `p`.
pub open spec fn count_prefixed(ls: Seq<Seq<char>>, p: Seq<char>) -> nat
    decreases ls.len(),
{
    if ls.len() == 0 {
        0
    } else {
        count_prefixed(ls.drop_last(), p) + if starts_with(trim(ls.last()), p) {
            1nat
        } else {
            0nat
        }
    }
}

/// There are at least two question lines (`Q:`) and two answer lines (`A:`), and their
/// numbers differ by at most one.
pub open spec fn qa_shaped(s: Seq<char>) -> bool {
    let q = count_prefixed(lines(s), seq!['Q', ':']);
    let a = count_prefixed(lines(s), seq!['A', ':']);
    q >= 2 && a >= 2 && -1 <= q - a <= 1
}

/// The numbers of lines of `text` whose trimmed form begins with `Q:` and with `A:`.
pub fn qa_counts(text: &str) -> (r: (usize, usize))
    ensures
        r.0 == count_prefixed(lines(text@), seq!['Q', ':']),
        r.1 == count_prefixed(lines(text@), seq!['A', ':']),
{
    let cs = chars_of(text);
    let ls = split_lines(&cs);
    let qp = vec!['Q', ':'];
    let ap = vec!['A', ':'];
    proof {
        assert(qp@ =~= seq!['Q', ':']);
        assert(ap@ =~= seq!['A', ':']);
    }
    let mut q: usize = 0;
    let mut a: usize = 0;
    let mut i: usize = 0;
    while i < ls.len()
        invariant
            i <= ls@.len(),
            q <= i,
            a <= i,
            views(ls@) == lines(text@),
            qp@ == seq!['Q', ':'],
            ap@ == seq!['A', ':'],
            q == count_prefixed(views(ls@).take(i as int), qp@),
            a == count_prefixed(views(ls@).take(i as int), ap@),
        decreases ls@.len() - i,
    {
        let line = chars_of(ls[i].as_str());
        let t = trim_chars(&line);
        proof {
            assert(views(ls@).take(i as int + 1).drop_last() =~= views(ls@).take(i as int));
        }
        if has_prefix(&t, &qp) {
            q = q + 1;
        }
        if has_prefix(&t, &ap) {
            a = a + 1;
        }
        i = i + 1;
    }
    assert(views(ls@).take(i as int) =~= views(ls@));
    (q, a)
}

/// The numbers of question and answer lines of `s` fit a 32-bit signed integer, as the
/// transcript check compares them.
pub open spec fn qa_counts_fit(s: Seq<char>) -> bool {
    &&& count_prefixed(lines(s), seq!['Q', ':']) < 0x8000_0000
    &&& count_prefixed(lines(s), seq!['A', ':']) < 0x8000_0000
}

/// Whether `text` looks like a question/answer transcript.
pub fn is_qa_format(text: &str) -> (r: bool)
    requires
        qa_counts_fit(text@),
    ensures
        r == qa_shaped(text@),
{
    let (q, a) = qa_counts(text);
    q >= 2 && a >= 2 && (q <= a + 1) && (a <= q + 1)
}

/// Who a message is from, and how its identifier begins.
#[derive(PartialEq, Eq, Structural, Clone, Copy, Debug)]
pub enum MessageKind {
    /// A question line (`Q:`), sent by the human.
    Question,
    /// An answer line (`A:`), sent by the assistant.
    Answer,
    /// A line of raw text, sent by the assistant.
    Line,
    /// A whole file of raw text, sent by the assistant.
    Text,
}

/// One chat message: its kind, its number among the messages of its file, and its text.
#[derive(Clone, Debug)]
pub struct ChatMessage {
    pub kind: MessageKind,
    pub id: usize,
    pub text: String,
}

impl MessageKind {
    /// The sender recorded for this kind of message.
    pub fn sender(&self) -> (r: &'static str)
        ensures
            (*self == MessageKind::Question) ==> r@ == "human"@,
            (*self != MessageKind::Question) ==> r@ == "assistant"@,
    {
        match self {
            MessageKind::Question => "human",
            _ => "assistant",
        }
    }

    /// How the identifier of such a message begins (`q-`, `a-`, `line-`, `msg-`).
    pub fn id_prefix(&self) -> (r: &'static str)
        ensures
            (*self == MessageKind::Question) ==> r@ == "q-"@,
            (*self == MessageKind::Answer) ==> r@ == "a-"@,
            (*self == MessageKind::Line) ==> r@ == "line-"@,
            (*self == MessageKind::Text) ==> r@ == "msg-"@,
    {
        match self {
            MessageKind::Question => "q-",
            MessageKind::Answer => "a-",
            MessageKind::Line => "line-",
            MessageKind::Text => "msg-",
        }
    }
}

/// A question or answer body cut before any `|NEXT:` or `NEXT:` marker, trimmed and cleaned.
pub open spec fn qa_body(body: Seq<char>, keep_numbers: bool) -> Seq<char> {
    let marker1 = seq!['|', 'N', 'E', 'X', 'T', ':'];
    let marker2 = seq!['N', 'E', 'X', 'T', ':'];
    cleaned(trim(before_first(before_first(body, marker1), marker2)), keep_numbers)
}

/// The message, if any, that one transcript line gives: its kind and text.
pub open spec fn qa_line_entry(line: Seq<char>, keep_numbers: bool) -> Option<(MessageKind, Seq<char>)> {
    let t = trim(line);
    if t.len() == 0 {
        None
    } else if starts_with(t, seq!['Q', ':']) || starts_with(t, seq!['q', ':']) {
        let f = qa_body(t.skip(2), keep_numbers);
        if f.len() > 0 {
            Some((MessageKind::Question, f))
        } else {
            None
        }
    } else if starts_with(t, seq!['A', ':']) || starts_with(t, seq!['a', ':']) {
        let f = qa_body(t.skip(2), keep_numbers);
        if f.len() > 0 {
            Some((MessageKind::Answer, f))
        } else {
            None
        }
    } else {
        None
    }
}

/// The message, if any, that one line gives in raw-lines mode.
pub open spec fn raw_line_entry(line: Seq<char>, keep_numbers: bool) -> Option<(MessageKind, Seq<char>)> {
    let t = trim(line);
    let f = cleaned(t, keep_numbers);
    if t.len() == 0 || f.len() == 0 {
        None
    } else {
        Some((MessageKind::Line, f))
    }
}

/// The messages that the lines `ls` give, in order, in transcript mode (`qa`) or raw-lines mode.
pub open spec fn line_entries(ls: Seq<Seq<char>>, keep_numbers: bool, qa: bool) -> Seq<(MessageKind, Seq<char>)>
    decreases ls.len(),
{
    if ls.len() == 0 {
        seq![]
    } else {
        let e = if qa {
            qa_line_entry(ls.last(), keep_numbers)
        } else {
            raw_line_entry(ls.last(), keep_numbers)
        };
        line_entries(ls.drop_last(), keep_numbers, qa) + match e {
            Some(x) => seq![x],
            None => seq![],
        }
    }
}

/// `msgs` are the entries `es` numbered from zero.
pub open spec fn numbered(msgs: Seq<ChatMessage>, es: Seq<(MessageKind, Seq<char>)>) -> bool {
    &&& msgs.len() == es.len()
    &&& forall|i: int|
        0 <= i < msgs.len() ==> {
            &&& (#[trigger] msgs[i]).kind == es[i].0
            &&& msgs[i].text@ == es[i].1
            &&& msgs[i].id == i
        }
}

/// The cleaned body of a question or answer line.
fn qa_body_of(body: &[char], keep_numbers: bool) -> (r: Vec<char>)
    ensures
        r@ == qa_body(body@, keep_numbers),
{
    let m1 = vec!['|', 'N', 'E', 'X', 'T', ':'];
    let m2 = vec!['N', 'E', 'X', 'T', ':'];
    proof {
        assert(m1@ =~= seq!['|', 'N', 'E', 'X', 'T', ':']);
        assert(m2@ =~= seq!['N', 'E', 'X', 'T', ':']);
    }
    let p1 = prefix_before(body, &m1);
    let p2 = prefix_before(&p1, &m2);
    let t = trim_chars(&p2);
    clean_chars(&t, keep_numbers)
}

/// The characters of `s` from position `k` on.
fn skip_chars(s: &[char], k: usize) -> (r: Vec<char>)
    requires
        k <= s@.len(),
    ensures
        r@ == s@.skip(k as int),
{
    let mut r: Vec<char> = Vec::new();
    let mut i: usize = k;
    while i < s.len()
        invariant
            k <= i <= s@.len(),
            r@ == s@.subrange(k as int, i as int),
        decreases s@.len() - i,
    {
        r.push(s[i]);
        i = i + 1;
        assert(r@ =~= s@.subrange(k as int, i as int));
    }
    assert(r@ =~= s@.skip(k as int));
    r
}

/// The message that one line gives, in transcript mode (`qa`) or raw-lines mode.
fn line_entry(line: &[char], keep_numbers: bool, qa: bool) -> (r: Option<(MessageKind, Vec<char>)>)
    ensures
        match (if qa { qa_line_entry(line@, keep_numbers) } else { raw_line_entry(line@, keep_numbers) }) {
            Some(e) => r matches Some(x) && x.0 == e.0 && x.1@ == e.1,
            None => r is None,
        },
{
    let t = trim_chars(line);
    if t.len() == 0 {
        return None;
    }
    if !qa {
        let f = clean_chars(&t, keep_numbers);
        if f.len() == 0 {
            return None;
        }
        return Some((MessageKind::Line, f));
    }
    let qu = vec!['Q', ':'];
    let ql = vec!['q', ':'];
    let au = vec!['A', ':'];
    let al = vec!['a', ':'];
    proof {
        assert(qu@ =~= seq!['Q', ':']);
        assert(ql@ =~= seq!['q', ':']);
        assert(au@ =~= seq!['A', ':']);
        assert(al@ =~= seq!['a', ':']);
    }
    if has_prefix(&t, &qu) || has_prefix(&t, &ql) {
        let body = skip_chars(&t, 2);
        let f = qa_body_of(&body, keep_numbers);
        if f.len() == 0 {
            return None;
        }
        Some((MessageKind::Question, f))
    } else if has_prefix(&t, &au) || has_prefix(&t, &al) {
        let body = skip_chars(&t, 2);
        let f = qa_body_of(&body, keep_numbers);
        if f.len() == 0 {
            return None;
        }
        Some((MessageKind::Answer, f))
    } else {
        None
    }
}

/// The messages of `text` line by line, in transcript mode (`qa`) or raw-lines mode.
fn parse_lines(text: &str, keep_numbers: bool, qa: bool) -> (r: Vec<ChatMessage>)
    ensures
        numbered(r@, line_entries(lines(text@), keep_numbers, qa)),
{
    let cs = chars_of(text);
    let ls = split_lines(&cs);
    let mut out: Vec<ChatMessage> = Vec::new();
    let mut i: usize = 0;
    while i < ls.len()
        invariant
            i <= ls@.len(),
            views(ls@) == lines(text@),
            numbered(out@, line_entries(views(ls@).take(i as int), keep_numbers, qa)),
        decreases ls@.len() - i,
    {
        let line = chars_of(ls[i].as_str());
        proof {
            assert(views(ls@).take(i as int + 1).drop_last() =~= views(ls@).take(i as int));
            assert(views(ls@).take(i as int + 1).last() == line@);
        }
        let ghost es = line_entries(views(ls@).take(i as int), keep_numbers, qa);
        match line_entry(&line, keep_numbers, qa) {
            Some((kind, f)) => {
                let id = out.len();
                let msg = ChatMessage { kind, id, text: string_of(&f) };
                let ghost prev = out@;
                out.push(msg);
                proof {
                    let es2 = line_entries(views(ls@).take(i as int + 1), keep_numbers, qa);
                    assert(es2 =~= es.push((kind, f@)));
                    assert forall|k: int| 0 <= k < out@.len() implies {
                        &&& (#[trigger] out@[k]).kind == es2[k].0
                        &&& out@[k].text@ == es2[k].1
                        &&& out@[k].id == k
                    } by {
                        if k < out@.len() - 1 {
                            assert(out@[k] == prev[k]);
                        }
                    }
                }
            },
            None => {
                proof {
                    let es2 = line_entries(views(ls@).take(i as int + 1), keep_numbers, qa);
                    assert(es2 =~= es);
                }
            },
        }
        i = i + 1;
    }
    assert(views(ls@).take(i as int) =~= views(ls@));
    out
}

/// The questions (`Q:` or `q:`) and answers (`A:` or `a:`) of a transcript, each cut before
/// any `NEXT:` marker, trimmed and cleaned; lines that give no text are skipped.
pub fn parse_qa_format(text: &str, keep_numbers: bool) -> (r: Vec<ChatMessage>)
    ensures
        numbered(r@, line_entries(lines(text@), keep_numbers, true)),
{
    parse_lines(text, keep_numbers, true)
}

/// One message for each line of `text` that is not empty once trimmed and cleaned.
pub fn parse_raw_lines(text: &str, keep_numbers: bool) -> (r: Vec<ChatMessage>)
    ensures
        numbered(r@, line_entries(lines(text@), keep_numbers, false)),
{
    parse_lines(text, keep_numbers, false)
}

/// How a text file was read.
#[derive(PartialEq, Eq, Structural, Clone, Copy, Debug)]
pub enum FileFormat {
    /// A question/answer transcript, one message per question or answer.
    QuestionAnswer,
    /// One message per non-empty line.
    RawLines,
    /// The whole file as one message.
    RawText,
}

/// The messages read from one text file, and how it was read.
pub struct ConvertedFile {
    pub format: FileFormat,
    pub messages: Vec<ChatMessage>,
}

/// How a file with the characters `s` is read: as a transcript when it looks like one and
/// line mode is off, line by line when line mode is on, else whole.
pub open spec fn file_format(s: Seq<char>, raw_lines: bool) -> FileFormat {
    if qa_shaped(s) && !raw_lines {
        FileFormat::QuestionAnswer
    } else if raw_lines {
        FileFormat::RawLines
    } else {
        FileFormat::RawText
    }
}

/// Reads one text file: a transcript gives its questions and answers, line mode gives one
/// message per line, and otherwise the whole cleaned text is one message (none if it is empty).
pub fn convert_text_file(content: &str, keep_numbers: bool, raw_lines: bool) -> (r: ConvertedFile)
    requires
        qa_counts_fit(content@),
    ensures
        r.format == file_format(content@, raw_lines),
        r.format == FileFormat::QuestionAnswer ==> numbered(
            r.messages@,
            line_entries(lines(content@), keep_numbers, true),
        ),
        r.format == FileFormat::RawLines ==> numbered(
            r.messages@,
            line_entries(lines(content@), keep_numbers, false),
        ),
        r.format == FileFormat::RawText ==> {
            let c = cleaned(content@, keep_numbers);
            &&& c.len() == 0 ==> r.messages@.len() == 0
            &&& c.len() > 0 ==> numbered(r.messages@, seq![(MessageKind::Text, c)])
        },
{
    if is_qa_format(content) && !raw_lines {
        ConvertedFile { format: FileFormat::QuestionAnswer, messages: parse_qa_format(content, keep_numbers) }
    } else if raw_lines {
        ConvertedFile { format: FileFormat::RawLines, messages: parse_raw_lines(content, keep_numbers) }
    } else {
        let c = clean_text(content, keep_numbers);
        let mut messages: Vec<ChatMessage> = Vec::new();
        if !c.as_str().is_empty() {
            messages.push(ChatMessage { kind: MessageKind::Text, id: 0, text: c });
        }
        ConvertedFile { format: FileFormat::RawText, messages }
    }
}

} // verus!
