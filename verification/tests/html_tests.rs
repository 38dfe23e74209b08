use m2_corpus::html::{
    char_counts, clean_text, count_nodes, first_text, first_text_from, gather_text, gather_text_from,
    is_plainly_gibberish, keep_document, keep_paragraphs, matches_pattern, paragraph_candidates,
    paragraph_texts, processed_file_name, same_text, should_exclude_file, should_include_file,
    should_skip_element, split_on, page_summary, Cleaner, ElementInfo, Page,
};

fn pats(ps: &[&str]) -> Vec<String> {
    ps.iter().map(|p| p.to_string()).collect()
}

fn chars(s: &str) -> Vec<char> {
    s.chars().collect()
}

fn element(class: Option<&str>, id: Option<&str>, texts: &[&str]) -> ElementInfo {
    ElementInfo {
        class: class.map(|c| c.to_string()),
        id: id.map(|i| i.to_string()),
        role: None,
        aria_label: None,
        texts: texts.iter().map(|t| t.to_string()).collect(),
    }
}

#[test]
fn include_patterns_with_and_without_stars() {
    assert!(should_include_file("history_of_rome.html", &pats(&["*rome*"])));
    assert!(should_include_file("history_of_rome.html", &pats(&["history*.html"])));
    assert!(should_include_file("history_of_rome.html", &pats(&["of_r"])));
    assert!(!should_include_file("history_of_rome.html", &pats(&["*greece*"])));
    // Pieces must be found in order.
    assert!(!should_include_file("history_of_rome.html", &pats(&["rome*history"])));
    // An empty pattern list includes everything.
    assert!(should_include_file("anything.html", &pats(&[])));
}

#[test]
fn exclude_patterns() {
    assert!(should_exclude_file("Talk_page.html", &pats(&["Talk*"])));
    assert!(!should_exclude_file("Article.html", &pats(&["Talk*", "*Special*"])));
    assert!(!should_exclude_file("Article.html", &pats(&[])));
}

#[test]
fn split_keeps_empty_pieces() {
    assert_eq!(split_on(&chars("*a**b*"), '*'), vec!["", "a", "", "b", ""]);
    assert_eq!(split_on(&chars(""), '*'), vec![""]);
    assert!(matches_pattern(&chars("abc"), &chars("a*c")));
    assert!(!matches_pattern(&chars("abc"), &chars("c*a")));
}

#[test]
fn furniture_elements_are_skipped() {
    assert!(should_skip_element(&element(Some("navbox wide"), None, &["x"])));
    assert!(should_skip_element(&element(None, Some("footer"), &["x"])));
    let mut e = element(None, None, &["x"]);
    e.role = Some("banner".to_string());
    assert!(should_skip_element(&e));
    let mut e = element(None, None, &["x"]);
    e.aria_label = Some("Site Navigation".to_string());
    assert!(should_skip_element(&e));
    assert!(!should_skip_element(&element(Some("content"), Some("main"), &["x"])));
}

#[test]
fn paragraphs_are_trimmed_and_furniture_dropped() {
    let es = vec![
        element(None, None, &["  Rome was", "founded "]),
        element(Some("reflist"), None, &["1. A source"]),
        element(None, None, &["   "]),
        element(None, None, &["It grew."]),
    ];
    assert_eq!(paragraph_texts(&es), vec!["Rome was founded", "It grew."]);
    assert_eq!(gather_text_from(&es), "Rome was founded\nIt grew.\n");
}

#[test]
fn clean_text_removes_references_and_citations() {
    let c = clean_text("Rome[12] was founded (citation needed) in 753\u{a0}BC \u{2014} so it says.", true)
        .unwrap();
    // The citation note goes with the white space around it, as the pattern says.
    assert_eq!(c, "Rome was foundedin 753 BC - so it says.");
    let d = clean_text("Rome[12] was founded in 753 BC.", false).unwrap();
    assert_eq!(d, "Rome was founded in BC.");
}

#[test]
fn gibberish_checks() {
    assert!(is_plainly_gibberish("short", 3));
    assert!(is_plainly_gibberish("one two three four", 5));
    assert!(is_plainly_gibberish("12 (34) 56.78 - 90", 1));
    assert!(is_plainly_gibberish("ABCD123 EFGH456 IJKL789", 1));
    assert!(is_plainly_gibberish("the left side is x lhs", 1));
    assert!(is_plainly_gibberish("a == b == c == d 1 2 3 4 5 6 7 8", 1));
    assert!(!is_plainly_gibberish("Rome was founded on seven hills.", 3));
    let counts = char_counts("  ab 12  ");
    assert_eq!((counts.total, counts.digits, counts.alphas), (4, 2, 2));
}

#[test]
fn paragraphs_kept_after_cleaning() {
    let cleaner = Cleaner::new().unwrap();
    let ps = pats(&["Rome[1] was founded on hills.", "noise", "Two words"]);
    let (kept, looked, n) = keep_paragraphs(&cleaner, &ps, &[false, true, false], true, 3);
    assert_eq!(kept, vec!["Rome was founded on hills."]);
    assert_eq!(looked, 3);
    assert_eq!(n, 1);
}

#[test]
fn documents_with_boilerplate_are_dropped() {
    assert!(keep_document("Rome was founded on seven hills.", 3));
    assert!(!keep_document("Text of the Wikimedia Foundation here.", 3));
    assert!(!keep_document("Too short", 3));
    assert!(!keep_document("", 0));
}

#[test]
fn processed_names() {
    assert_eq!(processed_file_name("HTML: rome.html"), Some("rome.html".to_string()));
    assert_eq!(processed_file_name("rome.html"), None);
    assert!(same_text("abc", "abc"));
    assert!(!same_text("abc", "abd"));
}

#[test]
fn reading_a_parsed_page() {
    let page = "<html><body><h1> Rome </h1><div class=\"navbox\"><p>Links</p></div>\
                <p>Rome was founded.</p><p>It grew <b>large</b>.</p></body></html>";
    let dom = Page::from_text(page);
    assert_eq!(count_nodes(&dom, "p"), 3);
    assert_eq!(count_nodes(&dom, "(("), 0);
    assert_eq!(first_text(&dom, "h1"), Some("Rome".to_string()));
    assert_eq!(first_text(&dom, "h2"), None);
    assert_eq!(
        paragraph_candidates(&dom, &["div", "p"]),
        vec!["Links", "Rome was founded.", "It grew  large ."]
    );
    assert_eq!(gather_text(&dom, &["h1"]), "Rome\n");
}

#[test]
fn first_text_from_takes_first_element_trimmed() {
    let els = vec![
        element(None, None, &["  Rome", "is", "old  "]),
        element(None, None, &["Paris"]),
    ];
    assert_eq!(first_text_from(&els), Some("Rome is old".to_string()));
    assert_eq!(first_text_from(&[]), None);
}

#[test]
fn summarising_a_page() {
    let page = "<html><head><title> Rome, city </title></head><body><h1>Rome</h1>\
                <p>Rome was <a href=\"/f\">founded</a>.</p><img src=\"r.png\"><a>x</a>\
                <ul><li class=\"navbox\">Nav</li></ul></body></html>";
    let s = page_summary(page, &["h1", "p", "li"], true);
    assert_eq!(s.title, "Rome, city");
    assert_eq!(s.h1, 1);
    assert_eq!(s.links, 1);
    assert_eq!(s.images, 1);
    assert_eq!(s.candidates, vec!["Rome", "Rome was  founded ."]);
    assert_eq!(s.text, "");
    let w = page_summary(page, &["h1", "p"], false);
    assert_eq!(w.text, "Rome\nRome was  founded .\n");
    assert!(w.candidates.is_empty());
    let untitled = page_summary("<p>a</p>", &["p"], true);
    assert_eq!(untitled.title, "");
}
