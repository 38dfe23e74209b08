use m2_corpus::corpus::extract_corpora;
use m2_corpus::json::Json;
use m2_corpus::numbers::{parse_usize, to_decimal};
use m2_corpus::viewer::{
    batch_name, batch_ranges, corpus_texts, extract_batch_number, extract_text_from_corpus_item,
    missing_batch_message, next_batch, previous_batch, CorpusProblem, WordBatchIndex,
};

fn s(t: &str) -> Json {
    Json::Str(t.to_string())
}

fn obj(members: &[(&str, Json)]) -> Json {
    Json::Object(members.iter().map(|(k, v)| (k.to_string(), clone_json(v))).collect())
}

fn clone_json(j: &Json) -> Json {
    match j {
        Json::Null => Json::Null,
        Json::Bool(b) => Json::Bool(*b),
        Json::Number(n) => Json::Number(n.clone()),
        Json::Str(t) => Json::Str(t.clone()),
        Json::Array(items) => Json::Array(items.iter().map(clone_json).collect()),
        Json::Object(ms) => Json::Object(ms.iter().map(|(k, v)| (k.clone(), clone_json(v))).collect()),
    }
}

#[test]
fn numbers_read_and_write() {
    assert_eq!(parse_usize("00042"), Some(42));
    assert_eq!(parse_usize("+7"), Some(7));
    assert_eq!(parse_usize(""), None);
    assert_eq!(parse_usize("+"), None);
    assert_eq!(parse_usize("-1"), None);
    assert_eq!(parse_usize("4a"), None);
    assert_eq!(parse_usize("99999999999999999999999"), None);
    assert_eq!(to_decimal(0), "0");
    assert_eq!(to_decimal(1203), "1203");
    assert_eq!(parse_usize(&to_decimal(usize::MAX)), Some(usize::MAX));
}

#[test]
fn batch_names_round_trip() {
    assert_eq!(batch_name(12), "batch_00012.json");
    assert_eq!(batch_name(123456), "batch_123456.json");
    assert_eq!(extract_batch_number("batch_00012.json"), Some(12));
    assert_eq!(extract_batch_number("batch_batch_7.json.json"), Some(7));
    assert_eq!(extract_batch_number("words.json"), None);
    for n in [0usize, 5, 99999, 100000] {
        assert_eq!(extract_batch_number(&batch_name(n)), Some(n));
    }
}

#[test]
fn batches_of_five_thousand() {
    assert_eq!(batch_ranges(0), vec![]);
    assert_eq!(batch_ranges(5000), vec![(0, 5000)]);
    assert_eq!(batch_ranges(12001), vec![(0, 5000), (5000, 10000), (10000, 12001)]);
}

#[test]
fn batch_index_from_names() {
    let names: Vec<String> = ["batch_00000.json", "notes.txt", "batch_00002.json", "batch_x.json"]
        .iter()
        .map(|n| n.to_string())
        .collect();
    let idx = WordBatchIndex::from_file_names(&names);
    assert_eq!(idx.batches.len(), 2);
    assert!(idx.has_batch(0));
    assert!(idx.has_batch(2));
    assert!(!idx.has_batch(1));
    assert!(!idx.is_empty());
    assert!(WordBatchIndex::new().is_empty());
    assert_eq!(next_batch(&idx, 0), None);
    assert_eq!(next_batch(&idx, 1), Some(2));
    assert_eq!(previous_batch(0), None);
    assert_eq!(previous_batch(2), Some(1));
    assert_eq!(missing_batch_message(3), "Batch 3 does not exist.");
}

#[test]
fn corpus_item_texts() {
    assert_eq!(extract_text_from_corpus_item(&s("  hello ")), Some("hello".to_string()));
    assert_eq!(extract_text_from_corpus_item(&s("   ")), None);
    assert_eq!(
        extract_text_from_corpus_item(&obj(&[("text", s(" ")), ("word", s("apple"))])),
        Some("apple".to_string())
    );
    assert_eq!(
        extract_text_from_corpus_item(&obj(&[("question", s("Why?")), ("answer", s("Because."))])),
        Some("Q: Why? || A: Because.".to_string())
    );
    assert_eq!(
        extract_text_from_corpus_item(&obj(&[("input", s("2+2")), ("output", s("4"))])),
        Some("2+2 → 4".to_string())
    );
    assert_eq!(extract_text_from_corpus_item(&obj(&[("Q", s("Half"))])), None);
    assert_eq!(extract_text_from_corpus_item(&Json::Number("3".to_string())), None);
}

#[test]
fn corpus_documents() {
    let doc = Json::Array(vec![s("one"), Json::Null, obj(&[("token", s("two"))])]);
    assert_eq!(corpus_texts(&doc), Ok(vec!["one".to_string(), "two".to_string()]));
    assert_eq!(corpus_texts(&obj(&[("text", s("x"))])), Err(CorpusProblem::NotArray));
    assert_eq!(corpus_texts(&Json::Array(vec![Json::Null])), Err(CorpusProblem::NoText));
}

#[test]
fn conversations_from_both_export_forms() {
    let node = obj(&[(
        "message",
        obj(&[("content", obj(&[("parts", Json::Array(vec![s("Hi there"), s(""), s("Bye")]))]))]),
    )]);
    let chatgpt = obj(&[
        ("name", s("Greeting")),
        ("mapping", obj(&[("n1", node), ("n2", obj(&[("message", Json::Null)]))])),
    ]);
    let chat = obj(&[
        ("uuid", s("c-2")),
        (
            "chat_messages",
            Json::Array(vec![
                obj(&[("text", s("Q one")), ("sender", s("human"))]),
                obj(&[("uuid", s("m-9")), ("text", s("A one"))]),
                obj(&[("sender", s("human"))]),
            ]),
        ),
    ]);
    let empty = obj(&[("name", s("Nothing"))]);
    let corpora = extract_corpora(&Json::Array(vec![chatgpt, empty, chat]));
    assert_eq!(corpora.len(), 2);
    assert_eq!(corpora[0].uuid, "corpus-0");
    assert_eq!(corpora[0].name, "Greeting");
    let texts: Vec<&str> = corpora[0].messages.iter().map(|m| m.text.as_str()).collect();
    assert_eq!(texts, vec!["Hi there", "Bye"]);
    assert_eq!(corpora[0].messages[1].uuid, "msg-0-1");
    assert_eq!(corpora[0].messages[1].sender, "unknown");
    assert_eq!(corpora[1].uuid, "c-2");
    assert_eq!(corpora[1].name, "Unnamed Corpus");
    assert_eq!(corpora[1].messages[0].uuid, "msg-0");
    assert_eq!(corpora[1].messages[0].sender, "human");
    assert_eq!(corpora[1].messages[1].uuid, "m-9");
    assert_eq!(corpora[1].messages[1].sender, "unknown");
    assert!(extract_corpora(&s("not an export")).is_empty());
    assert_eq!(m2_corpus::corpus::concat("ab", "cd"), "abcd");
}

#[test]
fn json_lookups() {
    let o = obj(&[("k", s("first")), ("k", s("second")), ("n", Json::Number("1".to_string()))]);
    assert_eq!(o.str_at("k").map(|t| t.as_str()), Some("first"));
    assert!(o.str_at("n").is_none());
    assert!(o.get("missing").is_none());
    assert_eq!(o.as_object().map(|m| m.len()), Some(3));
    assert!(o.as_array().is_none());
    assert_eq!(s("x").as_str().map(|t| t.as_str()), Some("x"));
}
