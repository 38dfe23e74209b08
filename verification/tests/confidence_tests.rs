use m2_corpus::confidence::{confidence_order, order_stats, text_less};
use m2_corpus::tokens::tokenize;
use m2_corpus::trie::NgramTrie;

fn strs(ws: &[&str]) -> Vec<String> {
    ws.iter().map(|w| w.to_string()).collect()
}

#[test]
fn texts_compare_as_strings_do() {
    for (a, b) in [("a", "b"), ("ab", "a"), ("", "a"), ("b", "ab"), ("é", "z"), ("same", "same")] {
        assert_eq!(text_less(a, b), a < b, "{} < {}", a, b);
    }
}

#[test]
fn words_visited_by_frequency_then_text() {
    let freqs = vec![1, 5, 5, 2, 5];
    let texts = strs(&["z", "pear", "apple", "x", "apple"]);
    assert_eq!(confidence_order(&freqs, &texts), vec![2, 4, 1, 3, 0]);
    assert!(confidence_order(&[], &[]).is_empty());
}

#[test]
fn order_statistics_of_predictions() {
    let mut trie = NgramTrie::new(3);
    trie.insert_sequence(&tokenize("the cat sat the cat sat the cat ran the dog"));
    let cands = trie.get_candidates(&strs(&["the"]), 50);
    // "the" → cat 3 times, dog once (order 2).
    let (weighted, count, top) = order_stats(&cands);
    assert_eq!(count, 4);
    assert_eq!(weighted, 8);
    assert_eq!(top, 2);
    assert_eq!(order_stats(&[]), (0, 0, 2));
    let cands = trie.get_candidates(&strs(&["the", "cat"]), 50);
    let (weighted, count, top) = order_stats(&cands);
    // "the cat" → sat twice, ran once, both at order 3.
    assert_eq!((weighted, count, top), (9, 3, 3));
}
