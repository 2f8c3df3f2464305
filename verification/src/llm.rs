//! The request to a chat-completions endpoint: where it goes, how it is authorized, and the
//! conversation it carries.
use vstd::prelude::*;
use crate::text::{decimal, decimal_of, push_char, str_eq};
use crate::types::{ApiMessage, ToolCall};
use crate::state::copy_calls;

verus! {

/// The host is this machine.
pub open spec fn is_local_host(host: Seq<char>) -> bool {
    host == "127.0.0.1"@ || host == "localhost"@
}

/// Whether `host` is this machine; such a model gets the sampling parameters of a local server.
pub fn is_local(host: &str) -> (b: bool)
    ensures
        b == is_local_host(host@),
{
    str_eq(host, "127.0.0.1") || str_eq(host, "localhost")
}

/// The endpoint's URL: HTTPS on port 443 and HTTP otherwise, the host and port, the path prefix
/// if any, then `/v1/chat/completions`.
pub open spec fn chat_url_of(port: u16, host: Seq<char>, prefix: Option<Seq<char>>) -> Seq<char> {
    (if port == 443 { "https"@ } else { "http"@ }) + "://"@ + host + ":"@ + decimal(port as nat)
        + match prefix {
        Some(p) => p,
        None => seq![],
    } + "/v1/chat/completions"@
}

/// The URL requests for completions go to (see `chat_url_of`).
pub fn chat_url(port: u16, host: &str, path_prefix: Option<&str>) -> (url: String)
    ensures
        url@ == chat_url_of(port, host@, match path_prefix {
            Some(p) => Some(p@),
            None => None,
        }),
{
    let mut url = if port == 443 { "https".to_owned() } else { "http".to_owned() };
    url.append("://");
    url.append(host);
    url.append(":");
    let digits = decimal_of(port as u64);
    let mut i: usize = 0;
    let ghost head = url@;
    while i < digits.len()
        invariant
            i <= digits@.len(),
            url@ == head + digits@.take(i as int),
        decreases digits@.len() - i,
    {
        push_char(&mut url, digits[i]);
        i = i + 1;
        assert(url@ =~= head + digits@.take(i as int));
    }
    assert(digits@.take(digits@.len() as int) =~= digits@);
    match path_prefix {
        Some(p) => url.append(p),
        None => {},
    }
    url.append("/v1/chat/completions");
    url
}

/// The value of the `Authorization` header for an API key.
pub open spec fn bearer_of(key: Seq<char>) -> Seq<char> {
    "Bearer "@ + key
}

/// The `Authorization` header's value for `api_key`, when there is one.
pub fn authorization(api_key: Option<&str>) -> (r: Option<String>)
    ensures
        r matches Some(v) ==> api_key matches Some(k) && v@ == bearer_of(k@),
        r is None <==> api_key is None,
{
    match api_key {
        Some(k) => {
            let mut v = "Bearer ".to_owned();
            v.append(k);
            Some(v)
        },
        None => None,
    }
}

/// The content of a message of the conversation.
pub enum ApiView {
    System(Seq<char>),
    User(Seq<char>),
    Assistant(Seq<char>, Option<Seq<char>>, Seq<ToolCall>),
    ToolResult(Seq<char>, Seq<char>),
}

pub open spec fn api_view(m: ApiMessage) -> ApiView {
    match m {
        ApiMessage::System { content } => ApiView::System(content@),
        ApiMessage::User { content } => ApiView::User(content@),
        ApiMessage::Assistant { content, thinking, tool_calls } => ApiView::Assistant(
            content@,
            match thinking {
                Some(t) => Some(t@),
                None => None,
            },
            tool_calls@,
        ),
        ApiMessage::ToolResult { tool_call_id, content } => ApiView::ToolResult(tool_call_id@, content@),
    }
}

/// A message as sent back to the model: the thinking of its own answers left out.
pub open spec fn without_thinking(m: ApiView) -> ApiView {
    match m {
        ApiView::Assistant(content, _, tool_calls) => ApiView::Assistant(content, None, tool_calls),
        other => other,
    }
}

/// The conversation as sent: every message, with the thinking of the model's answers left out.
pub fn strip_thinking(messages: &Vec<ApiMessage>) -> (r: Vec<ApiMessage>)
    ensures
        r@.map_values(|m: ApiMessage| api_view(m)) == messages@.map_values(|m: ApiMessage| without_thinking(api_view(m))),
{
    let mut r: Vec<ApiMessage> = Vec::new();
    let mut i: usize = 0;
    while i < messages.len()
        invariant
            i <= messages@.len(),
            r@.map_values(|m: ApiMessage| api_view(m)) == messages@.take(i as int).map_values(|m: ApiMessage| without_thinking(api_view(m))),
        decreases messages@.len() - i,
    {
        let m = match &messages[i] {
            ApiMessage::System { content } => ApiMessage::System { content: content.clone() },
            ApiMessage::User { content } => ApiMessage::User { content: content.clone() },
            ApiMessage::Assistant { content, thinking: _, tool_calls } => ApiMessage::Assistant {
                content: content.clone(),
                thinking: None,
                tool_calls: copy_calls(tool_calls),
            },
            ApiMessage::ToolResult { tool_call_id, content } => ApiMessage::ToolResult {
                tool_call_id: tool_call_id.clone(),
                content: content.clone(),
            },
        };
        let ghost before = r@.map_values(|m: ApiMessage| api_view(m));
        assert(api_view(m) == without_thinking(api_view(messages@[i as int])));
        r.push(m);
        assert(r@.map_values(|m: ApiMessage| api_view(m)) =~= before.push(without_thinking(api_view(messages@[i as int]))));
        i = i + 1;
        assert(messages@.take(i as int).map_values(|m: ApiMessage| without_thinking(api_view(m))) =~= messages@.take(i - 1).map_values(|m: ApiMessage| without_thinking(api_view(m))).push(without_thinking(api_view(messages@[i - 1]))));
    }
    assert(messages@.take(messages@.len() as int) =~= messages@);
    r
}


/// A value of a message's JSON object.
pub enum EntryValue {
    Text(String),
    Null,
    ToolCalls(Vec<ToolCall>),
}

/// The content of a value of a message's JSON object.
pub enum EntryView {
    Text(Seq<char>),
    Null,
    ToolCalls(Seq<ToolCall>),
}

pub open spec fn entry_view(e: (String, EntryValue)) -> (Seq<char>, EntryView) {
    (e.0@, match e.1 {
        EntryValue::Text(t) => EntryView::Text(t@),
        EntryValue::Null => EntryView::Null,
        EntryValue::ToolCalls(c) => EntryView::ToolCalls(c@),
    })
}

/// The members of a message's JSON object, in order: its role and content; an answer's empty
/// content as `null`, its thinking only when there is some, its tool calls only when there are
/// any; a tool result's call id before its content.
pub open spec fn entries_of(m: ApiView) -> Seq<(Seq<char>, EntryView)> {
    match m {
        ApiView::System(c) => seq![("role"@, EntryView::Text("system"@)), ("content"@, EntryView::Text(c))],
        ApiView::User(c) => seq![("role"@, EntryView::Text("user"@)), ("content"@, EntryView::Text(c))],
        ApiView::Assistant(c, t, calls) => seq![("role"@, EntryView::Text("assistant"@)),
            ("content"@, if c.len() == 0 { EntryView::Null } else { EntryView::Text(c) })]
            + (match t {
                Some(t) => if t.len() > 0 { seq![("thinking"@, EntryView::Text(t))] } else { seq![] },
                None => seq![],
            })
            + (if calls.len() > 0 { seq![("tool_calls"@, EntryView::ToolCalls(calls))] } else { seq![] }),
        ApiView::ToolResult(id, c) => seq![("role"@, EntryView::Text("tool"@)), ("tool_call_id"@, EntryView::Text(id)),
            ("content"@, EntryView::Text(c))],
    }
}

/// The members of the JSON object a message is sent as (see `entries_of`).
pub fn api_entries(m: &ApiMessage) -> (r: Vec<(String, EntryValue)>)
    ensures
        r@.map_values(|e: (String, EntryValue)| entry_view(e)) == entries_of(api_view(*m)),
{
    let mut out: Vec<(String, EntryValue)> = Vec::new();
    match m {
        ApiMessage::System { content } => {
            out.push(("role".to_owned(), EntryValue::Text("system".to_owned())));
            out.push(("content".to_owned(), EntryValue::Text(content.clone())));
        },
        ApiMessage::User { content } => {
            out.push(("role".to_owned(), EntryValue::Text("user".to_owned())));
            out.push(("content".to_owned(), EntryValue::Text(content.clone())));
        },
        ApiMessage::Assistant { content, thinking, tool_calls } => {
            out.push(("role".to_owned(), EntryValue::Text("assistant".to_owned())));
            if content.as_str().is_empty() {
                out.push(("content".to_owned(), EntryValue::Null));
            } else {
                out.push(("content".to_owned(), EntryValue::Text(content.clone())));
            }
            match thinking {
                Some(t) => {
                    if !t.as_str().is_empty() {
                        out.push(("thinking".to_owned(), EntryValue::Text(t.clone())));
                    }
                },
                None => {},
            }
            if tool_calls.len() > 0 {
                out.push(("tool_calls".to_owned(), EntryValue::ToolCalls(copy_calls(tool_calls))));
            }
        },
        ApiMessage::ToolResult { tool_call_id, content } => {
            out.push(("role".to_owned(), EntryValue::Text("tool".to_owned())));
            out.push(("tool_call_id".to_owned(), EntryValue::Text(tool_call_id.clone())));
            out.push(("content".to_owned(), EntryValue::Text(content.clone())));
        },
    }
    assert(out@.map_values(|e: (String, EntryValue)| entry_view(e)) =~= entries_of(api_view(*m)));
    out
}


/// Leaving the thinking out of a conversation that has none left changes nothing: what is sent
/// twice is sent the same.
pub proof fn law_strip_thinking_idempotent(ms: Seq<ApiView>)
    ensures
        ms.map_values(|m: ApiView| without_thinking(m)).map_values(|m: ApiView| without_thinking(m))
            == ms.map_values(|m: ApiView| without_thinking(m)),
{
    let once = ms.map_values(|m: ApiView| without_thinking(m));
    assert(once.map_values(|m: ApiView| without_thinking(m)) =~= once);
}


/// A member of the request body besides the conversation: streaming, the sampling
/// parameters, the tools, and the model when one is named.
pub enum BodyMember {
    Stream,
    Temperature,
    TopP,
    Tools,
    TopK,
    PresencePenalty,
    IdSlot,
    Model(String),
}

/// The content of a member of the request body.
pub enum MemberView {
    Stream,
    Temperature,
    TopP,
    Tools,
    TopK,
    PresencePenalty,
    IdSlot,
    Model(Seq<char>),
}

pub open spec fn member_view(m: BodyMember) -> MemberView {
    match m {
        BodyMember::Stream => MemberView::Stream,
        BodyMember::Temperature => MemberView::Temperature,
        BodyMember::TopP => MemberView::TopP,
        BodyMember::Tools => MemberView::Tools,
        BodyMember::TopK => MemberView::TopK,
        BodyMember::PresencePenalty => MemberView::PresencePenalty,
        BodyMember::IdSlot => MemberView::IdSlot,
        BodyMember::Model(m) => MemberView::Model(m@),
    }
}

/// The members of the request body besides the conversation: streaming, temperature, top-p
/// and the tools always; top-k, presence penalty and the server slot only for a model on this
/// machine; the model when one is named.
pub open spec fn members_of(host: Seq<char>, model: Option<Seq<char>>) -> Seq<MemberView> {
    seq![MemberView::Stream, MemberView::Temperature, MemberView::TopP, MemberView::Tools]
        + (if is_local_host(host) {
            seq![MemberView::TopK, MemberView::PresencePenalty, MemberView::IdSlot]
        } else {
            seq![]
        }) + match model {
        Some(m) => seq![MemberView::Model(m)],
        None => seq![],
    }
}

/// The members of the request body besides the conversation (see `members_of`).
pub fn body_members(host: &str, model: Option<&str>) -> (r: Vec<BodyMember>)
    ensures
        r@.map_values(|m: BodyMember| member_view(m)) == members_of(host@, match model {
            Some(m) => Some(m@),
            None => None,
        }),
{
    let mut r: Vec<BodyMember> = Vec::new();
    r.push(BodyMember::Stream);
    r.push(BodyMember::Temperature);
    r.push(BodyMember::TopP);
    r.push(BodyMember::Tools);
    if is_local(host) {
        r.push(BodyMember::TopK);
        r.push(BodyMember::PresencePenalty);
        r.push(BodyMember::IdSlot);
    }
    match model {
        Some(m) => r.push(BodyMember::Model(m.to_owned())),
        None => {},
    }
    assert(r@.map_values(|m: BodyMember| member_view(m)) =~= members_of(host@, match model {
        Some(m) => Some(m@),
        None => None,
    }));
    r
}


/// Whenever a model is named it is sent, whatever the host: naming one adds exactly a `model`
/// member, last, to the members sent without one; without a model no `model` member is sent.
pub proof fn law_model_is_sent(host: Seq<char>, m: Seq<char>)
    ensures
        members_of(host, Some(m)) == members_of(host, None).push(MemberView::Model(m)),
        members_of(host, Some(m)).contains(MemberView::Model(m)),
        forall|i: int| 0 <= i < members_of(host, None).len() ==> !(#[trigger] members_of(host, None)[i] is Model),
{
    let base = members_of(host, None);
    assert(members_of(host, Some(m)) =~= base.push(MemberView::Model(m)));
    assert(members_of(host, Some(m))[base.len() as int] == MemberView::Model(m));
}

/// The sampling settings of a local server (`top_k`, `presence_penalty`, `id_slot`) are sent
/// exactly when the host is local; streaming, temperature, `top_p` and the tools always are.
pub proof fn law_local_members(host: Seq<char>, model: Option<Seq<char>>)
    ensures
        members_of(host, model).contains(MemberView::TopK) <==> is_local_host(host),
        members_of(host, model).contains(MemberView::IdSlot) <==> is_local_host(host),
        members_of(host, model).contains(MemberView::PresencePenalty) <==> is_local_host(host),
        members_of(host, model).take(4) == seq![MemberView::Stream, MemberView::Temperature, MemberView::TopP, MemberView::Tools],
{
    let ms = members_of(host, model);
    assert(ms.take(4) =~= seq![MemberView::Stream, MemberView::Temperature, MemberView::TopP, MemberView::Tools]);
    if is_local_host(host) {
        assert(ms[4] == MemberView::TopK);
        assert(ms[5] == MemberView::PresencePenalty);
        assert(ms[6] == MemberView::IdSlot);
    } else {
        assert forall|i: int| 0 <= i < ms.len() implies {
            &&& ms[i] != MemberView::TopK
            &&& ms[i] != MemberView::IdSlot
            &&& ms[i] != MemberView::PresencePenalty
        } by {
            if i >= 4 {
                assert(ms[i] is Model);
            }
        }
    }
}

} // verus!
