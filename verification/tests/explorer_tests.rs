use m2_corpus::cache::{process_corpora_into_ram, RAMCache};
use m2_corpus::controls::{Controls, FrameKeys, InputAction};
use m2_corpus::corpus::{DiskCorpus, DiskMessage};
use m2_corpus::explorer::{conversation_text, Explorer, LoadOutcome};
use m2_corpus::generation::{append_generated, is_likely_definition, path_after_seed, sentences};
use m2_corpus::json::Json;
use m2_corpus::punctuation::PunctuationModel;
use m2_corpus::session::{QuerySession, Reply};
use m2_corpus::tokens::tokenize;
use m2_corpus::vocab::{new_words, word_frequencies};

fn s(t: &str) -> Json {
    Json::Str(t.to_string())
}

fn chat(texts: &[&str]) -> Json {
    Json::Array(vec![Json::Object(vec![(
        "chat_messages".to_string(),
        Json::Array(
            texts
                .iter()
                .map(|t| Json::Object(vec![("text".to_string(), s(t))]))
                .collect(),
        ),
    )])])
}

fn keys() -> FrameKeys {
    FrameKeys {
        escape: false,
        space: false,
        ctrl: false,
        key_l: false,
        key_e: false,
        key_t: false,
        key_s: false,
        key_o: false,
        key_n: false,
        key_r: false,
        key_c: false,
        backspace: false,
        enter: false,
        typed: None,
    }
}

fn corpus(name: &str, texts: &[&str]) -> DiskCorpus {
    DiskCorpus {
        uuid: format!("{}-id", name),
        name: name.to_string(),
        messages: texts
            .iter()
            .enumerate()
            .map(|(i, t)| DiskMessage {
                uuid: format!("m{}", i),
                text: t.to_string(),
                sender: "human".to_string(),
            })
            .collect(),
    }
}

#[test]
fn export_text_marks_message_ends() {
    assert_eq!(conversation_text(&chat(&["Hi.", "Yo"])), "Hi. <MSG> Yo <MSG> ");
    assert_eq!(conversation_text(&s("x")), "");
}

#[test]
fn loading_a_file_once() {
    let mut ex = Explorer::new();
    assert_eq!(ex.max_ngram_order(), 12);
    let data = chat(&["The cat sat.", "The cat ran!"]);
    assert_eq!(ex.file_key("data/talk.json"), "talk.json@12");
    let outcome = ex.load_document("data/talk.json", &data);
    match outcome {
        LoadOutcome::Loaded(rep) => {
            // the cat sat . <MSG> the cat ran ! <MSG>
            assert_eq!(rep.total_tokens, 10);
            assert_eq!(rep.chunks, 1);
            assert_eq!(rep.chunk_size, 10);
            assert_eq!(rep.unique_words, 7);
            assert_eq!(rep.layer, 0);
            assert!(!rep.is_dict);
            // Most frequent first; words of equal frequency come in no promised order.
            assert_eq!(rep.new_words.len(), 7);
            let mut top: Vec<&str> = rep.new_words[..3].iter().map(|(w, _)| w.as_str()).collect();
            top.sort();
            assert_eq!(top, vec!["<MSG>", "cat", "the"]);
            assert!(rep.new_words[..3].iter().all(|(_, n)| *n == 2));
            assert!(rep.new_words[3..].iter().all(|(_, n)| *n == 1));
        }
        _ => panic!("expected the file to load"),
    }
    assert!(ex.is_loaded("elsewhere/talk.json"));
    assert_eq!(ex.files_loaded(), 1);
    assert_eq!(ex.loaded_files()[0].filename, "talk.json");
    assert_eq!(ex.loaded_files()[0].ngram_level, 12);
    assert!(matches!(ex.load_document("data/talk.json", &data), LoadOutcome::AlreadyLoaded));
    assert_eq!(
        ex.trie().get_continuations(&["the".to_string(), "cat".to_string()]).unwrap(),
        vec![("sat".to_string(), 1), ("ran".to_string(), 1)]
    );
    // "sat." and "ran!" each count a mark.
    assert_eq!(ex.punctuation().seen(), 2);
    // A second file: only the words it adds are new, and it lies one layer further out.
    match ex.load_document("my_dictionary.json", &chat(&["The dog sat."])) {
        LoadOutcome::Loaded(rep) => {
            assert_eq!(rep.layer, 1);
            assert!(rep.is_dict);
            assert_eq!(rep.new_words, vec![("dog".to_string(), 1)]);
        }
        _ => panic!("expected the file to load"),
    }
    assert!(ex.dict_corpus_loaded());
    // At another order the same file is a new key.
    ex.set_max_order(3);
    assert!(!ex.is_loaded("data/talk.json"));
}

#[test]
fn punctuation_suggestions() {
    let mut p = PunctuationModel::new();
    p.train("Really? Really? Really? Really? Really! Really! Stop. stop!! plain");
    assert_eq!(p.seen(), 8);
    // "really": ? four times, ! twice; more than five counted and ? over three tenths.
    assert_eq!(p.suggest_punctuation("really", 10), Some('?'));
    assert_eq!(p.suggest_punctuation("really", 8), None);
    // "stop" has only two counted marks.
    assert_eq!(p.suggest_punctuation("stop", 10), None);
    assert_eq!(p.suggest_punctuation("unseen", 10), None);
    // After more than twenty tokens a full stop is due whatever the word.
    assert_eq!(p.suggest_punctuation("unseen", 21), Some('.'));
}

#[test]
fn vocabulary_counts_and_new_words() {
    let toks = tokenize("b a b c b a");
    let (order, counts) = word_frequencies(&toks);
    assert_eq!(order, vec!["b", "a", "c"]);
    assert_eq!(counts.get("b"), Some(&3));
    let (_, known) = word_frequencies(&tokenize("c"));
    assert_eq!(new_words(&toks, &known), vec![("b".to_string(), 3), ("a".to_string(), 2)]);
}

#[test]
fn generated_text_layout() {
    let mut out = String::new();
    for (i, t) in ["the", "cat", ",", "sat", "."].iter().enumerate() {
        append_generated(&mut out, i, t);
    }
    assert_eq!(out, "the cat, sat.\n");
    assert!(is_likely_definition("noun"));
    assert!(!is_likely_definition("cat"));
    let path: Vec<String> = ["a", "b", "c"].iter().map(|t| t.to_string()).collect();
    assert_eq!(path_after_seed(&path, 1), vec!["b", "c"]);
    assert_eq!(path_after_seed(&path, 3), vec!["a", "b", "c"]);
    let toks: Vec<String> = ["hi", ".", ".", "the", "cat", "!", "tail"].iter().map(|t| t.to_string()).collect();
    assert_eq!(sentences(&toks), vec!["hi .", "the cat !"]);
}

#[test]
fn cache_takes_corpora_until_full() {
    // The estimate is at least 1 MB once anything is taken up, so a limit of 2 MB takes
    // these small conversations and a limit of 1 MB stops after the first.
    let mut cache = RAMCache::new(2, 3);
    assert!(cache.can_load_more());
    let cs = vec![corpus("one", &["the cat sat", "the cat ran"]), corpus("two", &["a b"])];
    let ram = process_corpora_into_ram(&cs, &mut cache);
    assert_eq!(ram.len(), 2);
    assert_eq!(cache.tokens_processed(), 8);
    assert_eq!(cache.messages_processed(), 3);
    assert_eq!(cache.corpus_names(), &vec!["one".to_string(), "two".to_string()]);
    assert_eq!(cache.estimate_ram_usage(), ram[1]);
    assert_eq!(cache.max_ram_mb(), 2);
    assert_eq!(cache.current_ram_mb(), 1);
    let mut small = RAMCache::new(1, 3);
    assert_eq!(process_corpora_into_ram(&cs, &mut small), vec![1]);
    assert_eq!(small.corpus_names(), &vec!["one".to_string()]);
    assert_eq!(
        cache.trie().get_continuations(&["the".to_string(), "cat".to_string()]).unwrap(),
        vec![("sat".to_string(), 1), ("ran".to_string(), 1)]
    );
    let mut full = RAMCache::new(0, 3);
    assert!(!full.can_load_more());
    assert!(process_corpora_into_ram(&cs, &mut full).is_empty());
    assert_eq!(full.tokens_processed(), 0);
}

#[test]
fn session_answers_commands_and_queries() {
    let mut cache = RAMCache::new(100, 3);
    let cs = vec![corpus("one", &["the cat sat", "the cat sat", "the cat ran"])];
    process_corpora_into_ram(&cs, &mut cache);
    let mut session = QuerySession::new();
    assert!(matches!(session.respond(&cache, "   "), Reply::Nothing));
    assert!(matches!(session.respond(&cache, ":q"), Reply::Quit));
    assert!(matches!(session.respond(&cache, ":stats"), Reply::Stats));
    assert!(matches!(session.respond(&cache, ":h"), Reply::Help));
    assert!(matches!(session.respond(&cache, ":show 1"), Reply::NoResultsYet));
    assert!(matches!(session.respond(&cache, ":show 1 2"), Reply::ShowUsage));
    // Without its argument the line is no `:show` command at all.
    assert!(matches!(session.respond(&cache, ":show"), Reply::Unknown(_)));
    match session.respond(&cache, ":bogus") {
        Reply::Unknown(t) => assert_eq!(t, ":bogus"),
        _ => panic!("expected an unknown command"),
    }
    match session.respond(&cache, "zebra") {
        Reply::NoPredictions(ws) => assert_eq!(ws, vec!["zebra"]),
        _ => panic!("expected no predictions"),
    }
    match session.respond(&cache, "The CAT") {
        Reply::Predictions { query, candidates } => {
            assert_eq!(query, vec!["the", "cat"]);
            assert_eq!(candidates.len(), 2);
            assert_eq!(candidates[0].word, "sat");
            assert_eq!(candidates[0].count, 2);
        }
        _ => panic!("expected predictions"),
    }
    match session.respond(&cache, ":show 1") {
        Reply::Examples { query, word, examples } => {
            assert_eq!(query, vec!["the", "cat"]);
            assert_eq!(word, "sat");
            assert_eq!(examples.len(), 3);
        }
        _ => panic!("expected examples"),
    }
    match session.respond(&cache, ":show 5") {
        Reply::OutOfRange { index, len } => assert_eq!((index, len), (5, 2)),
        _ => panic!("expected out of range"),
    }
    match session.respond(&cache, ":show x") {
        Reply::InvalidNumber(t) => assert_eq!(t, "x"),
        _ => panic!("expected an invalid number"),
    }
}

#[test]
fn controls_state_machine() {
    let mut ex = Explorer::new();
    let mut c = Controls::new(12);
    // Ctrl+O opens the query box; typed characters go in; Enter runs the query.
    let (acts, stop) = c.handle_keys(&mut ex, true, FrameKeys { ctrl: true, key_o: true, ..keys() });
    assert!(acts.is_empty() && stop);
    assert!(c.query_box().0);
    for ch in "Hi There".chars() {
        c.handle_typing(&mut ex, FrameKeys { typed: Some(ch), ..keys() });
    }
    c.handle_typing(&mut ex, FrameKeys { typed: Some('#'), ..keys() });
    assert_eq!(c.query_box().1, "Hi There");
    let acts = c.handle_typing(&mut ex, FrameKeys { enter: true, ..keys() });
    assert_eq!(acts.len(), 1);
    match &acts[0] {
        InputAction::Query(ws) => assert_eq!(ws, &vec!["hi".to_string(), "there".to_string()]),
        _ => panic!("expected a query"),
    }
    assert!(!c.query_box().0);
    // Ctrl+N opens the order box; "5" and Enter set the order.
    let (acts, _) = c.handle_keys(&mut ex, true, FrameKeys { ctrl: true, key_n: true, ..keys() });
    assert!(matches!(acts[0], InputAction::Redraw));
    assert_eq!(c.order_box(), (true, &"12".to_string()));
    c.handle_typing(&mut ex, FrameKeys { backspace: true, ..keys() });
    c.handle_typing(&mut ex, FrameKeys { backspace: true, ..keys() });
    c.handle_typing(&mut ex, FrameKeys { typed: Some('5'), ..keys() });
    let acts = c.handle_typing(&mut ex, FrameKeys { enter: true, ..keys() });
    assert!(matches!(acts[0], InputAction::OrderSet(5)));
    assert_eq!(ex.max_ngram_order(), 5);
    // Selecting a word, Space recenters on it, Escape clears it.
    assert!(!c.select_word("cat".to_string(), false));
    assert_eq!(c.selected(), Some(&"cat".to_string()));
    let (acts, _) = c.handle_keys(&mut ex, true, FrameKeys { space: true, ..keys() });
    match &acts[0] {
        InputAction::Recenter(w) => assert_eq!(w, "cat"),
        _ => panic!("expected a recenter"),
    }
    let (acts, _) = c.handle_keys(&mut ex, true, FrameKeys { escape: true, ..keys() });
    assert!(matches!(acts[0], InputAction::ClearSelection));
    assert_eq!(c.selected(), None);
    // Ctrl+T turns the embeddings on and asks for bridges.
    let (acts, _) = c.handle_keys(&mut ex, true, FrameKeys { ctrl: true, key_t: true, ..keys() });
    assert!(matches!(acts[0], InputAction::ComputeBridges));
    assert_eq!(c.modes().0, true);
}

#[test]
fn hello_session_from_the_sample_file() {
    let mut cache = RAMCache::new(100, 7);
    let cs = vec![corpus("Test Corpus", &["Hello world", "Hello! How can I help?", "Hello, there"])];
    process_corpora_into_ram(&cs, &mut cache);
    let mut session = QuerySession::new();
    match session.respond(&cache, "hello") {
        Reply::Predictions { query, candidates } => {
            assert_eq!(query, vec!["hello"]);
            // "world", "!" and "," each follow "hello" once: a third each.
            assert_eq!(candidates.len(), 3);
            for c in &candidates {
                assert_eq!(c.order, 2);
                assert_eq!(c.count, 1);
                assert_eq!(c.score.num * 3, c.score.den);
            }
        }
        _ => panic!("expected predictions"),
    }
    match session.respond(&cache, ":show 1") {
        Reply::Examples { examples, .. } => {
            assert_eq!(examples, vec!["hello world", "hello !", "hello ,"]);
        }
        _ => panic!("expected examples"),
    }
}

#[test]
fn plain_names_are_their_own_file_names() {
    let ex = Explorer::new();
    assert_eq!(ex.file_key("one.json"), "one.json@12");
    assert_eq!(ex.file_key("two.json"), "two.json@12");
    assert_eq!(ex.file_key(".."), "..@12");
}
