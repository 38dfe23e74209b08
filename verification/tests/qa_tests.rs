use m2_corpus::qa::{clean_text, convert_text_file, is_qa_format, qa_counts, parse_qa_format, parse_raw_lines, FileFormat, MessageKind};

#[test]
fn test_is_qa_format() {
    let qa_text = "Q: What is this?\nA: This is a test.\nQ: Another?\nA: Yes.";
    assert!(is_qa_format(qa_text));

    let raw_text = "This is just some raw text without Q&A structure.";
    assert!(!is_qa_format(raw_text));
}

#[test]
fn test_clean_text() {
    assert_eq!(clean_text("Hello123 world456!", false), "Hello world!");

    assert_eq!(clean_text("Hello123 world456!", true), "Hello123 world456!");

    assert_eq!(clean_text("Test @ #symbols $%^ removal", false), "Test symbols removal");

    assert_eq!(
        clean_text("Keep hyphen-words and don't remove apostrophes.", false),
        "Keep hyphen-words and don't remove apostrophes."
    );
}

#[test]
fn test_parse_qa_format() {
    let text = "Q: What is life?\nA: Life is complex.\nQ: Really?\nA: Yes!";
    let messages = parse_qa_format(text, false);
    assert_eq!(messages.len(), 4);
    assert_eq!(messages[0].kind.sender(), "human");
    assert_eq!(messages[1].kind.sender(), "assistant");
}

#[test]
fn test_parse_raw_lines() {
    let text = "First line of text.\nSecond line here.\n\nFourth line (third was empty).";
    let messages = parse_raw_lines(text, false);
    assert_eq!(messages.len(), 3);
    assert_eq!(messages[0].text, "First line of text.");
    assert_eq!(messages[1].text, "Second line here.");
    assert_eq!(messages[2].text, "Fourth line third was empty.");
}

#[test]
fn qa_bodies_stop_at_next_markers() {
    let text = "Q: First question |NEXT: ignored\nA: An answer NEXT: also ignored";
    let messages = parse_qa_format(text, false);
    assert_eq!(messages.len(), 2);
    assert_eq!(messages[0].text, "First question");
    assert_eq!(messages[0].kind, MessageKind::Question);
    assert_eq!(messages[1].text, "An answer");
    assert_eq!(messages[1].kind, MessageKind::Answer);
    assert_eq!(messages[1].id, 1);
}

#[test]
fn lower_case_markers_and_empty_bodies() {
    let text = "q: lower question\na: 123\nA: kept";
    let messages = parse_qa_format(text, false);
    assert_eq!(messages.len(), 2);
    assert_eq!(messages[0].text, "lower question");
    assert_eq!(messages[1].text, "kept");
}

#[test]
fn a_single_marker_is_not_a_transcript() {
    assert!(!is_qa_format("Q: only a question here"));
    assert!(!is_qa_format(""));
}

#[test]
fn converting_files_in_each_mode() {
    let qa = convert_text_file("Q: one?\nA: two.\nQ: three?\nA: four.", false, false);
    assert_eq!(qa.format, FileFormat::QuestionAnswer);
    assert_eq!(qa.messages.len(), 4);

    let single = convert_text_file("Q: one?\nA: two.", false, false);
    assert_eq!(single.format, FileFormat::RawText);

    let lines = convert_text_file("Q: one?\nA: two.", false, true);
    assert_eq!(lines.format, FileFormat::RawLines);
    assert_eq!(lines.messages[0].text, "Q: one?");

    let whole = convert_text_file("  plain   text\nover lines 42 ", false, false);
    assert_eq!(whole.format, FileFormat::RawText);
    assert_eq!(whole.messages.len(), 1);
    assert_eq!(whole.messages[0].text, "plain text over lines");
    assert_eq!(whole.messages[0].kind, MessageKind::Text);

    let empty = convert_text_file("$$$ ###", false, false);
    assert_eq!(empty.format, FileFormat::RawText);
    assert!(empty.messages.is_empty());
}

#[test]
fn counting_question_and_answer_lines() {
    let text = "Q: one\n  A: two\nq: lower\nQ:three\nA  no\n";
    assert_eq!(qa_counts(text), (2, 1));
    assert_eq!(qa_counts(""), (0, 0));
}

#[test]
fn cleaning_twice_equals_cleaning_once() {
    for text in ["  Hello,   world!! 42 times\t(yes)  ", "a\u{a0}b -- c; d: 'e'", ""] {
        for keep in [false, true] {
            let once = clean_text(text, keep);
            assert_eq!(clean_text(&once, keep), once);
        }
    }
}
