use m2_corpus::behavior::{build_word_behaviors, cluster_words, hash_word, hash_word_u32, WordBehavior};
use m2_corpus::radial::{
    cells_in_view, cluster_connections, neighbor_overlap, order_overlap, query_matches, sector_of,
};
use m2_corpus::spiral::{NgramTable, Stamp};

fn at(secs: i64) -> Stamp {
    Stamp { secs, nanos: 0 }
}

#[test]
fn windows_are_counted_shortest_first() {
    let mut t = NgramTable::new();
    t.record_windows("The cat the CAT", 3, at(10));
    let keys: Vec<(String, u64)> = t.entries().iter().map(|g| (g.words.join(" "), g.count)).collect();
    assert_eq!(
        keys,
        vec![
            ("the cat".to_string(), 2),
            ("cat the".to_string(), 1),
            ("the cat the".to_string(), 1),
            ("cat the cat".to_string(), 1),
        ]
    );
    assert_eq!(t.len(), 4);
    t.record_windows("the cat", 3, at(20));
    let first = &t.entries()[0];
    assert_eq!(first.count, 3);
    assert_eq!(first.first_seen, at(10));
    assert_eq!(first.last_seen, at(20));
    assert_eq!(t.entries()[1].last_seen, at(10));
}

#[test]
fn short_texts_and_low_orders_give_nothing() {
    let mut t = NgramTable::new();
    t.record_windows("alone", 5, at(1));
    t.record_windows("two words", 1, at(1));
    assert_eq!(t.len(), 0);
    t.build_ngrams_from_text("two words", 2);
    assert_eq!(t.len(), 1);
    assert_eq!(t.entries()[0].count, 1);
    assert_eq!(t.entries()[0].first_seen, t.entries()[0].last_seen);
}

#[test]
fn behaviours_weigh_neighbours_by_count() {
    let mut t = NgramTable::new();
    t.record_windows("a b c a b", 3, at(0));
    let b = build_word_behaviors(&t);
    assert_eq!(b.words(), &vec!["a".to_string(), "b".to_string(), "c".to_string()]);
    let wb = b.get("b").unwrap();
    // "a b" (count 2), "a b c" and "c a b" put "a" before "b" four times.
    assert_eq!(wb.left_context.get("a"), Some(&4));
    // "b c", "a b c" and "b c a" put "c" after "b" three times.
    assert_eq!(wb.right_context.get("c"), Some(&3));
    assert_eq!(wb.ngram_orders.get(&2), Some(&3));
    assert_eq!(wb.ngram_orders.get(&3), Some(&3));
    assert!(b.get("z").is_none());
}

#[test]
fn word_hashes_and_clusters() {
    assert_eq!(hash_word(""), 0);
    assert_eq!(hash_word("ab"), 97 * 31 + 98);
    assert_eq!(hash_word_u32("ab"), 97 * 31 + 98);
    // Long words wrap.
    let long = "zzzzzzzzzzzzzzzz";
    let mut h: u32 = 0;
    for b in long.bytes() {
        h = h.wrapping_mul(31).wrapping_add(b as u32);
    }
    assert_eq!(hash_word_u32(long), h);
    let ws: Vec<String> = ["ab", "b", "c", "ab"].iter().map(|w| w.to_string()).collect();
    let cs = cluster_words(&ws, 3);
    assert_eq!(cs.len(), 3);
    // "ab" hashes to 3105, 0 mod 3; "b" to 98, 2 mod 3; "c" to 99, 0 mod 3.
    assert_eq!(cs[0], vec!["ab", "c", "ab"]);
    assert!(cs[1].is_empty());
    assert_eq!(cs[2], vec!["b"]);
}

#[test]
fn neighbour_lists_and_dominant_orders() {
    let mut t = NgramTable::new();
    t.record_windows("a b c a b", 3, at(0));
    let b = build_word_behaviors(&t);
    let wb = b.get("b").unwrap();
    let mut ns = wb.neighbors.clone();
    ns.sort();
    assert_eq!(ns, vec!["a", "c"]);
    // "b" counts 3 at order 2 and 3 at order 3: either is dominant; the total is 6.
    let (order, count, total) = wb.dominant_order();
    assert!(order == 2 || order == 3);
    assert_eq!(count, 3);
    assert_eq!(total, 6);
    let mut t2 = NgramTable::new();
    t2.record_windows("x y x y x y", 2, at(0));
    let b2 = build_word_behaviors(&t2);
    // Only bigrams: "x y" three times, "y x" twice.
    assert_eq!(b2.get("x").unwrap().dominant_order(), (2, 5, 5));
}

#[test]
fn radial_choices() {
    assert!(query_matches("Rome", "ROM"));
    assert!(query_matches("anything", ""));
    assert!(!query_matches("Rome", "paris"));
    let clusters: Vec<Vec<String>> = vec![
        vec!["a".to_string()],
        vec!["b".to_string(), "c".to_string()],
        vec!["c".to_string()],
    ];
    assert_eq!(sector_of("c", &clusters), 1);
    assert_eq!(sector_of("z", &clusters), 0);
    let ns: Vec<String> = ["a", "c", "d"].iter().map(|w| w.to_string()).collect();
    assert_eq!(cluster_connections(&ns, &clusters), vec![1, 1, 1]);
    let other: Vec<String> = ["c", "e"].iter().map(|w| w.to_string()).collect();
    assert_eq!(neighbor_overlap(&ns, &other), (1, 4));
    let mut t = NgramTable::new();
    t.record_windows("a b c", 3, at(0));
    let vis: Vec<String> = ["a", "b"].iter().map(|w| w.to_string()).collect();
    // "a b", "b c", "a b c": only the first lies wholly in view.
    let grams: Vec<Vec<String>> = t.entries().iter().map(|g| g.words.clone()).collect();
    assert_eq!(cells_in_view(&grams, &vis), vec![0]);
}

#[test]
fn order_count_overlap() {
    let mut t = NgramTable::new();
    t.record_windows("p q r p q", 3, at(0));
    let b = build_word_behaviors(&t);
    let p = b.get("p").unwrap();
    let r = b.get("r").unwrap();
    // p: order 2 → 3 ("p q" twice, "r p"), order 3 → 3 ("p q r", "q r p", "r p q").
    // r: order 2 → 2 ("q r", "r p"), order 3 → 3.
    assert_eq!(order_overlap(p, r), (5, 6));
}

#[test]
fn behaviours_read_back_from_counts() {
    let left = vec![("a".to_string(), 2), ("b".to_string(), 1), ("a".to_string(), 5)];
    let right = vec![("b".to_string(), 3), ("c".to_string(), 4)];
    let orders = vec![(2usize, 7u64), (3usize, 9u64)];
    let wb = WordBehavior::from_counts(&left, &right, &orders);
    assert_eq!(wb.left_context.get("a"), Some(&5));
    assert_eq!(wb.right_context.get("c"), Some(&4));
    assert_eq!(wb.neighbors, vec!["a", "b", "c"]);
    assert_eq!(wb.dominant_order(), (3, 9, 16));
}
