use m2_corpus::tokens::tokenize;
use m2_corpus::trie::{BoostTable, NgramTrie};

fn words(s: &str) -> Vec<String> {
    s.split_whitespace().map(|w| w.to_string()).collect()
}

#[test]
fn tokenize_splits_words_and_punctuation() {
    let t = tokenize("Hello, World! <msg> it's");
    assert_eq!(t, vec!["hello", ",", "world", "!", "<MSG>", "its", "'"]);
}

#[test]
fn tokenize_lowercases_through_unicode() {
    assert_eq!(tokenize("ÉCOLE Straße"), vec!["école", "straße"]);
    assert!(tokenize("   ").is_empty());
}

#[test]
fn insert_then_read_back_counts() {
    let mut trie = NgramTrie::new(3);
    let ctx = words("the cat");
    trie.insert(&ctx, "sat".to_string(), "the cat sat");
    trie.insert(&ctx, "sat".to_string(), "the cat sat");
    trie.insert(&ctx, "ran".to_string(), "the cat ran");
    let c = trie.get_continuations(&ctx).unwrap();
    assert_eq!(c, vec![("sat".to_string(), 2), ("ran".to_string(), 1)]);
    let ex = trie.get_contexts(&ctx).unwrap();
    assert_eq!(ex, vec!["the cat sat", "the cat sat", "the cat ran"]);
    // The prefix "the" exists but has seen nothing of its own.
    assert_eq!(trie.get_continuations(&words("the")).unwrap(), vec![]);
    assert!(trie.get_continuations(&words("dog")).is_none());
}

#[test]
fn only_five_examples_are_kept() {
    let mut trie = NgramTrie::new(2);
    let ctx = words("a");
    for i in 0..7 {
        trie.insert(&ctx, "b".to_string(), &format!("example {}", i));
    }
    assert_eq!(trie.get_contexts(&ctx).unwrap().len(), 5);
    assert_eq!(trie.get_continuations(&ctx).unwrap(), vec![("b".to_string(), 7)]);
}

#[test]
fn insert_sequence_records_every_ngram_once() {
    let mut trie = NgramTrie::new(3);
    let toks = tokenize("a b c a b");
    trie.insert_sequence(&toks);
    assert_eq!(trie.get_continuations(&words("a")).unwrap(), vec![("b".to_string(), 2)]);
    assert_eq!(trie.get_continuations(&words("a b")).unwrap(), vec![("c".to_string(), 1)]);
    assert_eq!(trie.get_continuations(&words("b")).unwrap(), vec![("c".to_string(), 1)]);
    assert_eq!(trie.get_contexts(&words("a b")).unwrap(), vec!["a b c"]);
    assert_eq!(trie.get_contexts(&words("c a")).unwrap(), vec!["a b c a b"]);
}

#[test]
fn boundary_markers_break_ngrams() {
    let mut trie = NgramTrie::new(3);
    let toks = tokenize("hello there <msg> general kenobi");
    trie.insert_sequence(&toks);
    assert_eq!(trie.get_continuations(&words("hello")).unwrap(), vec![("there".to_string(), 1)]);
    assert!(trie.get_continuations(&words("there")).is_none());
    assert!(trie.get_continuations(&words("<MSG>")).is_none());
    assert_eq!(trie.get_continuations(&words("general")).unwrap(), vec![("kenobi".to_string(), 1)]);
}

#[test]
fn candidates_are_scored_and_sorted() {
    let mut trie = NgramTrie::new(3);
    let toks = tokenize("the cat sat the cat ran the dog sat");
    trie.insert_sequence(&toks);
    let cands = trie.get_candidates(&words("the cat"), 10);
    // Order 3 ("the cat" -> sat 1, ran 1; total 2): 1/2 * 1.5 = 0.75 each.
    // Order 2 ("cat" -> sat 1, ran 1; total 2): 1/2 * 1.0 = 0.5 each, so order 3 wins.
    assert_eq!(cands.len(), 2);
    for c in &cands {
        assert_eq!(c.order, 3);
        assert_eq!(c.count, 1);
        assert_eq!(c.score.num * 4, c.score.den * 3);
    }
    let mut ws: Vec<&str> = cands.iter().map(|c| c.word.as_str()).collect();
    ws.sort();
    assert_eq!(ws, vec!["ran", "sat"]);
}

#[test]
fn candidates_need_two_sightings_and_respect_the_limit() {
    let mut trie = NgramTrie::new(2);
    trie.insert_sequence(&tokenize("x y"));
    assert!(trie.get_candidates(&words("x"), 5).is_empty());
    trie.insert_sequence(&tokenize("x z x z x z x y"));
    let cands = trie.get_candidates(&words("x"), 1);
    assert_eq!(cands.len(), 1);
    assert_eq!(cands[0].word, "z");
    assert_eq!(cands[0].count, 3);
    let all = trie.get_candidates(&words("x"), 10);
    assert_eq!(all.len(), 2);
    assert!(all[0].score.num * all[1].score.den >= all[1].score.num * all[0].score.den);
}

#[test]
fn extended_multipliers_score_lower_orders_at_half() {
    let mut trie = NgramTrie::with_boosts(12, BoostTable::Extended);
    trie.insert_tokens(&tokenize("p q p q"));
    let cands = trie.get_candidates(&words("p"), 5);
    assert_eq!(cands.len(), 1);
    // "p" -> q twice out of 2: 1.0 * 0.5.
    assert_eq!(cands[0].score.num * 2, cands[0].score.den);
    // Without examples nothing is stored.
    assert_eq!(trie.get_contexts(&words("p")).unwrap().len(), 0);
}

#[test]
fn changing_the_order_keeps_what_was_recorded() {
    let mut trie = NgramTrie::new(3);
    trie.insert_sequence(&tokenize("a b c"));
    trie.set_max_order(2);
    assert_eq!(trie.max_order(), 2);
    assert_eq!(trie.get_continuations(&words("a b")).unwrap(), vec![("c".to_string(), 1)]);
    trie.insert_sequence(&tokenize("a b d"));
    assert_eq!(trie.get_continuations(&words("a b")).unwrap(), vec![("c".to_string(), 1)]);
    assert_eq!(trie.get_continuations(&words("b")).unwrap(), vec![("c".to_string(), 1), ("d".to_string(), 1)]);
}

#[test]
fn retokenizing_joined_tokens_of_ascii_text() {
    let text = "Hello, World! <msg> it's 3.5 <MSG>x";
    let t = tokenize(text);
    assert_eq!(tokenize(&t.join(" ")), t);
}

#[test]
fn marker_is_never_recorded_and_one_token_records_nothing() {
    let mut trie = NgramTrie::new(3);
    trie.insert_sequence(&tokenize("a b <msg> c d"));
    assert!(trie.get_continuations(&words("<MSG>")).is_none());
    assert_eq!(trie.get_continuations(&words("b")), None);
    assert_eq!(trie.get_continuations(&words("c")).unwrap(), vec![("d".to_string(), 1)]);
    trie.insert_sequence(&words("a"));
    assert_eq!(trie.get_continuations(&words("a")).unwrap(), vec![("b".to_string(), 1)]);
}

#[test]
fn listed_predictions_were_seen() {
    let mut trie = NgramTrie::new(3);
    trie.insert_sequence(&words("the cat sat the cat ran the dog sat"));
    let r = trie.get_candidates(&words("the"), 10);
    assert!(!r.is_empty());
    assert!(r.iter().all(|c| c.count >= 1));
}
