//! The interactive query session over the cache: each input line is a command or a
//! query, and the session answers it and remembers the last query and its predictions.
use vstd::prelude::*;
use crate::cache::RAMCache;
use crate::html::same_text;
use crate::numbers::{parse_usize, parsed_usize};
use crate::text::{
    chars_of, has_prefix, lowercase_of, split_whitespace, starts_with, string_of, to_lowercase,
    trim, trim_chars, views, words,
};
use crate::trie::{Candidate, lists_word};

verus! {

/// What an input line asks for, by its trimmed text.
#[derive(PartialEq, Eq, Structural, Clone, Copy, Debug)]
pub enum CommandKind {
    /// Nothing but white space.
    Empty,
    /// `:quit`, `:q` or `:exit`.
    Quit,
    /// `:stats`.
    Stats,
    /// `:help` or `:h`.
    Help,
    /// `:show ` followed by something.
    Show,
    /// Any other line that starts with `:`.
    Unknown,
    /// A query: words of context.
    Query,
}

/// The kind of the trimmed input `t`.
pub open spec fn command_of(t: Seq<char>) -> CommandKind {
    if t.len() == 0 {
        CommandKind::Empty
    } else if t[0] == ':' {
        if t == ":quit"@ || t == ":q"@ || t == ":exit"@ {
            CommandKind::Quit
        } else if t == ":stats"@ {
            CommandKind::Stats
        } else if t == ":help"@ || t == ":h"@ {
            CommandKind::Help
        } else if starts_with(t, ":show "@) {
            CommandKind::Show
        } else {
            CommandKind::Unknown
        }
    } else {
        CommandKind::Query
    }
}

/// The session's answer to one input line.
pub enum Reply {
    /// Nothing to do.
    Nothing,
    /// Leave the session.
    Quit,
    /// Show the cache's statistics.
    Stats,
    /// Show the help text.
    Help,
    /// `:show` without exactly one argument.
    ShowUsage,
    /// `:show` before any query had predictions.
    NoResultsYet,
    /// `:show n` with `n` outside 1 through the number of predictions.
    OutOfRange { index: usize, len: usize },
    /// The argument of `:show` is not a number.
    InvalidNumber(String),
    /// The stored examples after the last query, for its `n`-th predicted word.
    Examples { query: Vec<String>, word: String, examples: Vec<String> },
    /// The trie holds no such context.
    NoExamples,
    /// A line that starts with `:` but is no command.
    Unknown(String),
    /// A query with no predictions.
    NoPredictions(Vec<String>),
    /// A query's predictions, best first.
    Predictions { query: Vec<String>, candidates: Vec<Candidate> },
}

/// The words of a query, each in lower case.
pub open spec fn query_words(t: Seq<char>) -> Seq<Seq<char>> {
    words(t).map_values(|w: Seq<char>| lowercase_of(w))
}

/// The session: the last query that had predictions, and those predictions.
pub struct QuerySession {
    last_query: Vec<String>,
    last_results: Vec<Candidate>,
}

impl QuerySession {
    /// The words of the last query that had predictions.
    pub closed spec fn query_spec(&self) -> Seq<Seq<char>> {
        views(self.last_query@)
    }

    /// The predictions of that query.
    pub closed spec fn results_spec(&self) -> Seq<Candidate> {
        self.last_results@
    }

    /// A session with no query yet.
    pub fn new() -> (r: QuerySession)
        ensures
            r.query_spec() == Seq::<Seq<char>>::empty(),
            r.results_spec() == Seq::<Candidate>::empty(),
    {
        let r = QuerySession { last_query: Vec::new(), last_results: Vec::new() };
        assert(views(r.last_query@) =~= Seq::<Seq<char>>::empty());
        r
    }

    /// Answers one input line. Commands: `:quit`, `:q`, `:exit`; `:stats`; `:help`, `:h`;
    /// `:show n`, the stored examples of the last query's context for its `n`-th
    /// prediction. Any other line is a query: its words in lower case, whose twenty best
    /// predictions are answered and, when there are some, remembered.
    pub fn respond(&mut self, cache: &RAMCache, line: &str) -> (r: Reply)
        requires
            cache.wf(),
        ensures
            ({
                let t = trim(line@);
                let q = old(self).query_spec();
                let res = old(self).results_spec();
                let unchanged = final(self).query_spec() == q && final(self).results_spec() == res;
                match command_of(t) {
                    CommandKind::Empty => r is Nothing && unchanged,
                    CommandKind::Quit => r is Quit && unchanged,
                    CommandKind::Stats => r is Stats && unchanged,
                    CommandKind::Help => r is Help && unchanged,
                    CommandKind::Unknown => unchanged && (r matches Reply::Unknown(s) && s@ == t),
                    CommandKind::Show => unchanged && {
                        let parts = words(t);
                        if parts.len() != 2 {
                            r is ShowUsage
                        } else if res.len() == 0 {
                            r is NoResultsYet
                        } else {
                            match parsed_usize(parts[1]) {
                                None => r matches Reply::InvalidNumber(s) && s@ == parts[1],
                                Some(n) => if n < 1 || n > res.len() {
                                    r matches Reply::OutOfRange { index, len } && index == n && len == res.len()
                                } else {
                                    let trie = cache.trie_spec();
                                    if trie.view().contains_key(q) {
                                        r matches Reply::Examples { query, word, examples } && views(query@) == q
                                            && word@ == res[n - 1].word@ && views(examples@) == trie.view()[q].contexts
                                    } else {
                                        r is NoExamples
                                    }
                                },
                            }
                        }
                    },
                    CommandKind::Query => {
                        let ctx = query_words(t);
                        match r {
                            Reply::NoPredictions(ws) => views(ws@) == ctx && unchanged && (forall|w: Seq<char>, o: int|
                                !cache.trie_spec().is_candidate(ctx, w, o)),
                            Reply::Predictions { query, candidates } => {
                                &&& views(query@) == ctx
                                &&& final(self).query_spec() == ctx
                                &&& final(self).results_spec() == candidates@
                                &&& candidates@.len() > 0
                                &&& candidates@.len() <= 20
                                &&& forall|i: int| 0 <= i < candidates@.len() ==> cache.trie_spec().is_best(ctx, #[trigger] candidates@[i])
                                &&& forall|i: int, j: int| 0 <= i < j < candidates@.len() ==> candidates@[i].word@ != candidates@[j].word@
                                &&& forall|i: int, j: int| 0 <= i < j < candidates@.len() ==> crate::score::score_le(candidates@[j].score, candidates@[i].score)
                                &&& forall|w: Seq<char>, o: int| #[trigger] cache.trie_spec().is_candidate(ctx, w, o) && !lists_word(candidates@, w) ==> {
                                    &&& candidates@.len() == 20
                                    &&& forall|i: int| 0 <= i < candidates@.len() ==> crate::score::score_le(
                                        cache.trie_spec().candidate_score(ctx, w, o),
                                        #[trigger] candidates@[i].score,
                                    )
                                }
                            },
                            _ => false,
                        }
                    },
                }
            }),
    {
        let cs = chars_of(line);
        let tv = trim_chars(&cs);
        let t = string_of(&tv);
        if tv.len() == 0 {
            return Reply::Nothing;
        }
        if tv[0] == ':' {
            let ts = t.as_str();
            if same_text(ts, ":quit") || same_text(ts, ":q") || same_text(ts, ":exit") {
                return Reply::Quit;
            }
            if same_text(ts, ":stats") {
                return Reply::Stats;
            }
            if same_text(ts, ":help") || same_text(ts, ":h") {
                return Reply::Help;
            }
            let show = chars_of(":show ");
            if has_prefix(&tv, &show) {
                let parts = split_whitespace(&tv);
                proof {
                    assert(views(parts@).len() == parts@.len());
                }
                if parts.len() != 2 {
                    return Reply::ShowUsage;
                }
                if self.last_results.len() == 0 {
                    return Reply::NoResultsYet;
                }
                proof {
                    assert(views(parts@)[1] == parts@[1]@);
                }
                match parse_usize(parts[1].as_str()) {
                    None => {
                        return Reply::InvalidNumber(parts[1].clone());
                    },
                    Some(n) => {
                        if n < 1 || n > self.last_results.len() {
                            return Reply::OutOfRange { index: n, len: self.last_results.len() };
                        }
                        let word = self.last_results[n - 1].word.clone();
                        match cache.trie().get_contexts(&self.last_query) {
                            Some(examples) => {
                                let query = copy_words(&self.last_query);
                                return Reply::Examples { query, word, examples };
                            },
                            None => {
                                return Reply::NoExamples;
                            },
                        }
                    },
                }
            }
            return Reply::Unknown(t);
        }
        let ws = split_whitespace(&tv);
        let mut context: Vec<String> = Vec::new();
        let mut i: usize = 0;
        while i < ws.len()
            invariant
                i <= ws@.len(),
                views(ws@) == words(tv@),
                views(context@) == views(ws@).take(i as int).map_values(|w: Seq<char>| lowercase_of(w)),
            decreases ws@.len() - i,
        {
            let l = to_lowercase(ws[i].as_str());
            let ghost before = context@;
            context.push(l);
            proof {
                assert(views(context@) =~= views(before).push(l@));
                assert(views(ws@).take(i as int + 1) =~= views(ws@).take(i as int).push(ws@[i as int]@));
                assert(views(ws@).take(i as int + 1).map_values(|w: Seq<char>| lowercase_of(w)) =~= views(ws@).take(i as int).map_values(|w: Seq<char>| lowercase_of(w)).push(lowercase_of(ws@[i as int]@)));
            }
            i = i + 1;
        }
        proof {
            assert(views(ws@).take(i as int) =~= views(ws@));
        }
        let candidates = cache.trie().get_candidates(&context, 20);
        if candidates.len() == 0 {
            proof {
                assert forall|w: Seq<char>, o: int| !cache.trie_spec().is_candidate(views(context@), w, o) by {
                    if cache.trie_spec().is_candidate(views(context@), w, o) {
                        assert(!lists_word(candidates@, w));
                    }
                }
            }
            return Reply::NoPredictions(context);
        }
        let query = copy_words(&context);
        let mut stored: Vec<Candidate> = Vec::new();
        let mut j: usize = 0;
        while j < candidates.len()
            invariant
                j <= candidates@.len(),
                stored@ == candidates@.take(j as int),
            decreases candidates@.len() - j,
        {
            stored.push(candidates[j].duplicate());
            j = j + 1;
            assert(stored@ =~= candidates@.take(j as int));
        }
        assert(stored@ =~= candidates@);
        self.last_query = context;
        self.last_results = stored;
        Reply::Predictions { query, candidates }
    }
}

/// A copy of a list of words.
fn copy_words(ws: &Vec<String>) -> (r: Vec<String>)
    ensures
        r@ == ws@,
{
    let mut out: Vec<String> = Vec::new();
    let mut i: usize = 0;
    while i < ws.len()
        invariant
            i <= ws@.len(),
            out@ == ws@.take(i as int),
        decreases ws@.len() - i,
    {
        out.push(ws[i].clone());
        i = i + 1;
        assert(out@ =~= ws@.take(i as int));
    }
    assert(out@ =~= ws@);
    out
}

} // verus!
