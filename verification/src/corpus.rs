//! Conversations read from a JSON export: ChatGPT exports, whose messages sit under
//! `mapping`, and the `chat_messages` form that the transcript converter writes.
use vstd::prelude::*;
use crate::json::{Json, items_of, lookup, members_of, text_at, text_of};
use crate::numbers::{decimal, to_decimal};
use crate::text::{chars_of, string_of};

verus! {

/// One message of a conversation.
pub struct DiskMessage {
    pub uuid: String,
    pub text: String,
    pub sender: String,
}

/// One conversation and its messages.
pub struct DiskCorpus {
    pub uuid: String,
    pub name: String,
    pub messages: Vec<DiskMessage>,
}

/// A message as text.
pub ghost struct MessageView {
    pub uuid: Seq<char>,
    pub text: Seq<char>,
    pub sender: Seq<char>,
}

/// A conversation as text.
pub ghost struct CorpusView {
    pub uuid: Seq<char>,
    pub name: Seq<char>,
    pub messages: Seq<MessageView>,
}

impl View for DiskMessage {
    type V = MessageView;

    open spec fn view(&self) -> MessageView {
        MessageView { uuid: self.uuid@, text: self.text@, sender: self.sender@ }
    }
}

impl View for DiskCorpus {
    type V = CorpusView;

    open spec fn view(&self) -> CorpusView {
        CorpusView {
            uuid: self.uuid@,
            name: self.name@,
            messages: self.messages@.map_values(|m: DiskMessage| m@),
        }
    }
}

/// The views of a list of conversations.
pub open spec fn corpus_views(cs: Seq<DiskCorpus>) -> Seq<CorpusView> {
    cs.map_values(|c: DiskCorpus| c@)
}

/// The non-empty strings among `ps`, in order.
pub open spec fn nonempty_strings(ps: Seq<Json>) -> Seq<Seq<char>>
    decreases ps.len(),
{
    if ps.len() == 0 {
        seq![]
    } else {
        nonempty_strings(ps.drop_last()) + match text_of(Some(ps.last())) {
            Some(t) => if t.len() > 0 {
                seq![t]
            } else {
                seq![]
            },
            None => seq![],
        }
    }
}

/// The non-empty string parts of the message of one node of a ChatGPT `mapping`: those
/// of `message.content.parts`.
pub open spec fn node_parts(node: Json) -> Seq<Seq<char>> {
    match lookup(node, "message"@) {
        Some(m) => match lookup(m, "content"@) {
            Some(c) => match items_of(lookup(c, "parts"@)) {
                Some(ps) => nonempty_strings(ps),
                None => seq![],
            },
            None => seq![],
        },
        None => seq![],
    }
}

/// The message parts of all the nodes of a `mapping`, node after node.
pub open spec fn mapping_parts(nodes: Seq<(String, Json)>) -> Seq<Seq<char>>
    decreases nodes.len(),
{
    if nodes.len() == 0 {
        seq![]
    } else {
        mapping_parts(nodes.drop_last()) + node_parts(nodes.last().1)
    }
}

/// One entry of `chat_messages`: its text, and its uuid and sender where they are strings.
pub type ChatEntry = (Seq<char>, Option<Seq<char>>, Option<Seq<char>>);

/// The entries of `chat_messages` whose `text` is a string.
pub open spec fn chat_entries(ms: Seq<Json>) -> Seq<ChatEntry>
    decreases ms.len(),
{
    if ms.len() == 0 {
        seq![]
    } else {
        let m = ms.last();
        chat_entries(ms.drop_last()) + match text_at(m, "text"@) {
            Some(t) => seq![(t, text_at(m, "uuid"@), text_at(m, "sender"@))],
            None => seq![],
        }
    }
}

/// The messages of conversation number `idx`. With a `mapping` member, its message parts,
/// the `k`-th numbered `msg-idx-k`, sent by `unknown`; otherwise the entries of
/// `chat_messages`, the `k`-th numbered `msg-k` when it has no uuid and sent by `unknown`
/// when it names no sender.
pub open spec fn conversation_messages(conv: Json, idx: nat) -> Seq<MessageView> {
    match lookup(conv, "mapping"@) {
        Some(mp) => match members_of(Some(mp)) {
            Some(nodes) => {
                let ps = mapping_parts(nodes);
                Seq::new(
                    ps.len(),
                    |k: int|
                        MessageView {
                            uuid: "msg-"@ + decimal(idx) + "-"@ + decimal(k as nat),
                            text: ps[k],
                            sender: "unknown"@,
                        },
                )
            },
            None => seq![],
        },
        None => match items_of(lookup(conv, "chat_messages"@)) {
            Some(ms) => {
                let es = chat_entries(ms);
                Seq::new(
                    es.len(),
                    |k: int|
                        MessageView {
                            uuid: match es[k].1 {
                                Some(u) => u,
                                None => "msg-"@ + decimal(k as nat),
                            },
                            text: es[k].0,
                            sender: match es[k].2 {
                                Some(s) => s,
                                None => "unknown"@,
                            },
                        },
                )
            },
            None => seq![],
        },
    }
}

/// Conversation number `idx`, when it has messages: its `uuid` (else `corpus-idx`), its
/// `name` (else `Unnamed Corpus`) and its messages.
pub open spec fn conversation_corpus(conv: Json, idx: nat) -> Option<CorpusView> {
    let ms = conversation_messages(conv, idx);
    if ms.len() == 0 {
        None
    } else {
        Some(
            CorpusView {
                uuid: match text_at(conv, "uuid"@) {
                    Some(u) => u,
                    None => "corpus-"@ + decimal(idx),
                },
                name: match text_at(conv, "name"@) {
                    Some(n) => n,
                    None => "Unnamed Corpus"@,
                },
                messages: ms,
            },
        )
    }
}

/// The conversations with messages among `convs`, in order.
pub open spec fn corpora_of(convs: Seq<Json>) -> Seq<CorpusView>
    decreases convs.len(),
{
    if convs.len() == 0 {
        seq![]
    } else {
        corpora_of(convs.drop_last()) + match conversation_corpus(
            convs.last(),
            (convs.len() - 1) as nat,
        ) {
            Some(c) => seq![c],
            None => seq![],
        }
    }
}

/// What a conversation export holds: the conversations with messages of its top-level
/// array; nothing when the document is not an array.
pub open spec fn extracted_corpora(data: Json) -> Seq<CorpusView> {
    match items_of(Some(data)) {
        Some(convs) => corpora_of(convs),
        None => seq![],
    }
}

/// `a` followed by `b`.
pub fn concat(a: &str, b: &str) -> (r: String)
    ensures
        r@ == a@ + b@,
{
    let mut v = chars_of(a);
    let w = chars_of(b);
    let mut i: usize = 0;
    let ghost a0 = v@;
    while i < w.len()
        invariant
            i <= w@.len(),
            v@ == a0 + w@.take(i as int),
        decreases w@.len() - i,
    {
        v.push(w[i]);
        i = i + 1;
        assert(v@ =~= a0 + w@.take(i as int));
    }
    assert(w@.take(i as int) =~= w@);
    string_of(&v)
}

/// The non-empty string parts of a mapping node's message.
pub(crate) fn collect_node_parts(node: &Json, out: &mut Vec<String>)
    ensures
        crate::text::views(final(out)@) == crate::text::views(old(out)@) + node_parts(*node),
{
    let ghost o = crate::text::views(out@);
    if let Some(m) = node.get("message") {
        if let Some(c) = m.get("content") {
            if let Some(p) = c.get("parts") {
                if let Some(ps) = p.as_array() {
                    let mut i: usize = 0;
                    while i < ps.len()
                        invariant
                            i <= ps@.len(),
                            crate::text::views(out@) == o + nonempty_strings(ps@.take(i as int)),
                        decreases ps@.len() - i,
                    {
                        proof {
                            assert(ps@.take(i as int + 1).drop_last() =~= ps@.take(i as int));
                            assert(ps@.take(i as int + 1).last() == ps@[i as int]);
                        }
                        if let Some(t) = ps[i].as_str() {
                            if !t.as_str().is_empty() {
                                let ghost before = out@;
                                out.push(t.clone());
                                assert(crate::text::views(out@) =~= crate::text::views(before) + seq![t@]);
                            }
                        }
                        assert(crate::text::views(out@) =~= o + nonempty_strings(ps@.take(i as int + 1)));
                        i = i + 1;
                    }
                    assert(ps@.take(i as int) =~= ps@);
                    return;
                }
            }
        }
    }
    assert(crate::text::views(out@) =~= o + node_parts(*node));
}

/// The messages of conversation number `idx` (see `conversation_messages`).
fn messages_of(conv: &Json, idx: usize) -> (r: Vec<DiskMessage>)
    ensures
        r@.map_values(|m: DiskMessage| m@) == conversation_messages(*conv, idx as nat),
{
    let mut out: Vec<DiskMessage> = Vec::new();
    match conv.get("mapping") {
        Some(mp) => {
            if let Some(nodes) = mp.as_object() {
                let mut parts: Vec<String> = Vec::new();
                let mut i: usize = 0;
                while i < nodes.len()
                    invariant
                        i <= nodes@.len(),
                        crate::text::views(parts@) == mapping_parts(nodes@.take(i as int)),
                    decreases nodes@.len() - i,
                {
                    proof {
                        assert(nodes@.take(i as int + 1).drop_last() =~= nodes@.take(i as int));
                        assert(nodes@.take(i as int + 1).last() == nodes@[i as int]);
                    }
                    collect_node_parts(&nodes[i].1, &mut parts);
                    i = i + 1;
                }
                assert(nodes@.take(i as int) =~= nodes@);
                let ghost ps = mapping_parts(nodes@);
                let prefix = concat("msg-", to_decimal(idx).as_str());
                let prefix = concat(prefix.as_str(), "-");
                let mut k: usize = 0;
                while k < parts.len()
                    invariant
                        k <= parts@.len(),
                        crate::text::views(parts@) == ps,
                        prefix@ == "msg-"@ + decimal(idx as nat) + "-"@,
                        out@.len() == k,
                        forall|j: int|
                            0 <= j < k ==> (#[trigger] out@[j])@ == (MessageView {
                                uuid: "msg-"@ + decimal(idx as nat) + "-"@ + decimal(j as nat),
                                text: ps[j],
                                sender: "unknown"@,
                            }),
                    decreases parts@.len() - k,
                {
                    let uuid = concat(prefix.as_str(), to_decimal(k).as_str());
                    assert(parts@[k as int]@ == ps[k as int]);
                    out.push(DiskMessage { uuid, text: parts[k].clone(), sender: "unknown".to_string() });
                    k = k + 1;
                }
                assert(out@.map_values(|m: DiskMessage| m@) =~= conversation_messages(*conv, idx as nat));
            } else {
                assert(out@.map_values(|m: DiskMessage| m@) =~= conversation_messages(*conv, idx as nat));
            }
        },
        None => {
            let cm = match conv.get("chat_messages") {
                Some(c) => c.as_array(),
                None => None,
            };
            if let Some(ms) = cm {
                let ghost es = chat_entries(ms@);
                let mut i: usize = 0;
                while i < ms.len()
                    invariant
                        i <= ms@.len(),
                        es == chat_entries(ms@),
                        out@.len() == chat_entries(ms@.take(i as int)).len(),
                        forall|j: int|
                            0 <= j < out@.len() ==> (#[trigger] out@[j])@ == {
                                let e = chat_entries(ms@.take(i as int))[j];
                                MessageView {
                                    uuid: match e.1 {
                                        Some(u) => u,
                                        None => "msg-"@ + decimal(j as nat),
                                    },
                                    text: e.0,
                                    sender: match e.2 {
                                        Some(s) => s,
                                        None => "unknown"@,
                                    },
                                }
                            },
                    decreases ms@.len() - i,
                {
                    let ghost pre = chat_entries(ms@.take(i as int));
                    proof {
                        assert(ms@.take(i as int + 1).drop_last() =~= ms@.take(i as int));
                        assert(ms@.take(i as int + 1).last() == ms@[i as int]);
                    }
                    let m = &ms[i];
                    if let Some(t) = m.str_at("text") {
                        let n = out.len();
                        let uuid = match m.str_at("uuid") {
                            Some(u) => u.clone(),
                            None => concat("msg-", to_decimal(n).as_str()),
                        };
                        let sender = match m.str_at("sender") {
                            Some(s) => s.clone(),
                            None => "unknown".to_string(),
                        };
                        out.push(DiskMessage { uuid, text: t.clone(), sender });
                        proof {
                            let post = chat_entries(ms@.take(i as int + 1));
                            assert(post =~= pre.push((t@, text_at(*m, "uuid"@), text_at(*m, "sender"@))));
                            assert forall|j: int| 0 <= j < out@.len() implies (#[trigger] out@[j])@ == {
                                let e = post[j];
                                MessageView {
                                    uuid: match e.1 {
                                        Some(u) => u,
                                        None => "msg-"@ + decimal(j as nat),
                                    },
                                    text: e.0,
                                    sender: match e.2 {
                                        Some(s) => s,
                                        None => "unknown"@,
                                    },
                                }
                            } by {
                                if j < n {
                                    assert(post[j] == pre[j]);
                                }
                            }
                        }
                    } else {
                        assert(chat_entries(ms@.take(i as int + 1)) =~= pre);
                    }
                    i = i + 1;
                }
                assert(ms@.take(i as int) =~= ms@);
                assert(out@.map_values(|m: DiskMessage| m@) =~= conversation_messages(*conv, idx as nat));
            } else {
                assert(out@.map_values(|m: DiskMessage| m@) =~= conversation_messages(*conv, idx as nat));
            }
        },
    }
    out
}

/// The conversations of an export (see `extracted_corpora`): ChatGPT exports and the
/// `chat_messages` form alike.
pub fn extract_corpora(data: &Json) -> (r: Vec<DiskCorpus>)
    ensures
        corpus_views(r@) == extracted_corpora(*data),
{
    let mut out: Vec<DiskCorpus> = Vec::new();
    if let Some(convs) = data.as_array() {
        let mut i: usize = 0;
        while i < convs.len()
            invariant
                i <= convs@.len(),
                corpus_views(out@) == corpora_of(convs@.take(i as int)),
            decreases convs@.len() - i,
        {
            proof {
                assert(convs@.take(i as int + 1).drop_last() =~= convs@.take(i as int));
                assert(convs@.take(i as int + 1).last() == convs@[i as int]);
            }
            let conv = &convs[i];
            let messages = messages_of(conv, i);
            if messages.len() > 0 {
                let uuid = match conv.str_at("uuid") {
                    Some(u) => u.clone(),
                    None => concat("corpus-", to_decimal(i).as_str()),
                };
                let name = match conv.str_at("name") {
                    Some(n) => n.clone(),
                    None => "Unnamed Corpus".to_string(),
                };
                let ghost before = out@;
                out.push(DiskCorpus { uuid, name, messages });
                assert(corpus_views(out@) =~= corpus_views(before).push(out@.last()@));
            }
            assert(corpus_views(out@) =~= corpora_of(convs@.take(i as int + 1)));
            i = i + 1;
        }
        assert(convs@.take(i as int) =~= convs@);
    }
    out
}

/// How many non-empty string parts the nodes `nodes` hold, all told.
pub open spec fn parts_total(nodes: Seq<(String, Json)>) -> nat
    decreases nodes.len(),
{
    if nodes.len() == 0 {
        0
    } else {
        parts_total(nodes.drop_last()) + node_parts(nodes.last().1).len()
    }
}

/// A non-empty string among `ps` is one of the non-empty strings of `ps`.
proof fn lemma_nonempty_string_listed(ps: Seq<Json>, t: int, s: String)
    requires
        0 <= t < ps.len(),
        ps[t] == Json::Str(s),
        s@.len() > 0,
    ensures
        nonempty_strings(ps).contains(s@),
    decreases ps.len(),
{
    if t < ps.len() - 1 {
        lemma_nonempty_string_listed(ps.drop_last(), t, s);
        let a = nonempty_strings(ps.drop_last());
        let k = choose|k: int| 0 <= k < a.len() && a[k] == s@;
        let b = match text_of(Some(ps.last())) {
            Some(x) => if x.len() > 0 { seq![x] } else { seq![] },
            None => seq![],
        };
        assert((a + b)[k] == a[k]);
    } else {
        let a = nonempty_strings(ps.drop_last());
        assert(ps.last() == Json::Str(s));
        assert((a + seq![s@])[a.len() as int] == s@);
    }
}

/// A part of the node `nodes[j]` is among the parts of all the nodes, and the parts of
/// all the nodes number as many as each node's parts together.
proof fn lemma_node_part_listed(nodes: Seq<(String, Json)>, j: int, x: Seq<char>)
    requires
        0 <= j < nodes.len(),
        node_parts(nodes[j].1).contains(x),
    ensures
        mapping_parts(nodes).contains(x),
    decreases nodes.len(),
{
    let a = mapping_parts(nodes.drop_last());
    let b = node_parts(nodes.last().1);
    if j < nodes.len() - 1 {
        assert(nodes.drop_last()[j] == nodes[j]);
        lemma_node_part_listed(nodes.drop_last(), j, x);
        let k = choose|k: int| 0 <= k < a.len() && a[k] == x;
        assert((a + b)[k] == a[k]);
    } else {
        let k = choose|k: int| 0 <= k < b.len() && b[k] == x;
        assert((a + b)[a.len() + k] == b[k]);
    }
}

proof fn lemma_mapping_parts_len(nodes: Seq<(String, Json)>)
    ensures
        mapping_parts(nodes).len() == parts_total(nodes),
    decreases nodes.len(),
{
    if nodes.len() > 0 {
        lemma_mapping_parts_len(nodes.drop_last());
    }
}

/// Every node of a ChatGPT `mapping` contributes its messages: a conversation with a
/// `mapping` object has as many messages as its nodes hold non-empty string parts in
/// `message.content.parts`, all told; and each such part, of any node, is the text of one
/// of its messages, sent by `unknown`.
pub proof fn lemma_every_node_contributes(
    conv: Json,
    idx: nat,
    nodes: Seq<(String, Json)>,
    j: int,
    message: Json,
    content: Json,
    parts: Seq<Json>,
    t: int,
    text: String,
)
    requires
        members_of(lookup(conv, "mapping"@)) == Some(nodes),
        0 <= j < nodes.len(),
        lookup(nodes[j].1, "message"@) == Some(message),
        lookup(message, "content"@) == Some(content),
        items_of(lookup(content, "parts"@)) == Some(parts),
        0 <= t < parts.len(),
        parts[t] == Json::Str(text),
        text@.len() > 0,
    ensures
        conversation_messages(conv, idx).len() == parts_total(nodes),
        exists|k: int|
            0 <= k < conversation_messages(conv, idx).len() && (#[trigger] conversation_messages(
                conv,
                idx,
            )[k]).text == text@ && conversation_messages(conv, idx)[k].sender == "unknown"@,
{
    lemma_mapping_parts_len(nodes);
    lemma_nonempty_string_listed(parts, t, text);
    assert(node_parts(nodes[j].1) == nonempty_strings(parts));
    lemma_node_part_listed(nodes, j, text@);
    let ps = mapping_parts(nodes);
    let k = choose|k: int| 0 <= k < ps.len() && ps[k] == text@;
    let ms = conversation_messages(conv, idx);
    assert(ms[k].text == text@);
}

/// An entry of `chat_messages` whose `text` is a string is among the entries.
proof fn lemma_chat_entry_listed(ms: Seq<Json>, t: int, text: Seq<char>)
    requires
        0 <= t < ms.len(),
        text_at(ms[t], "text"@) == Some(text),
    ensures
        exists|k: int| 0 <= k < chat_entries(ms).len() && (#[trigger] chat_entries(ms)[k]).0 == text,
    decreases ms.len(),
{
    let a = chat_entries(ms.drop_last());
    let m = ms.last();
    let b: Seq<ChatEntry> = match text_at(m, "text"@) {
        Some(x) => seq![(x, text_at(m, "uuid"@), text_at(m, "sender"@))],
        None => seq![],
    };
    assert(chat_entries(ms) == a + b);
    if t < ms.len() - 1 {
        assert(ms.drop_last()[t] == ms[t]);
        lemma_chat_entry_listed(ms.drop_last(), t, text);
        let k = choose|k: int| 0 <= k < a.len() && (#[trigger] a[k]).0 == text;
        assert((a + b)[k] == a[k]);
    } else {
        assert(m == ms[t]);
        assert((a + b)[a.len() as int] == b[0]);
    }
}

/// Every entry of `chat_messages` whose `text` is a string gives a message: in a
/// conversation without a `mapping` member, such an entry's text is the text of one of its
/// messages.
pub proof fn lemma_every_chat_entry_contributes(conv: Json, idx: nat, ms: Seq<Json>, t: int, text: Seq<char>)
    requires
        lookup(conv, "mapping"@) is None,
        items_of(lookup(conv, "chat_messages"@)) == Some(ms),
        0 <= t < ms.len(),
        text_at(ms[t], "text"@) == Some(text),
    ensures
        exists|k: int|
            0 <= k < conversation_messages(conv, idx).len() && (#[trigger] conversation_messages(
                conv,
                idx,
            )[k]).text == text,
{
    lemma_chat_entry_listed(ms, t, text);
    let es = chat_entries(ms);
    let k = choose|k: int| 0 <= k < es.len() && (#[trigger] es[k]).0 == text;
    assert(conversation_messages(conv, idx)[k].text == text);
}

} // verus!
