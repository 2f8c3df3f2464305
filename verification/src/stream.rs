//! Decoding the model's streamed reply: server-sent-event lines, JSON deltas,
//! tool calls assembled from fragments, and tool calls written as XML in the text.
use vstd::prelude::*;
use crate::text::{
    chars_of, contains_in, contains_seq, decimal, decimal_of, ends_with, ends_with_in, find_from,
    find_in, lemma_find_from_bounds, lines, lines_of, slice_of, starts_with, starts_with_in,
    string_of, trim, trim_chars,
};
use crate::types::{
    ToolCall, ToolFunction, ToolResultInfo, Json, as_text, as_u64, get_index, get_key, json_get,
    json_index, json_str, json_u64, opt_value,
};
use crate::text::{split_char, split_on, str_eq, push_char};
use crate::tool::join;

verus! {

/// A tool call read from XML: the function's name and its parameters, in order.
pub type XmlCall = (Seq<char>, Seq<(Seq<char>, Seq<char>)>);

/// The text serde_json writes for the object obtained by inserting the string `pairs`,
/// in order, into a `serde_json::Map` (a later pair replaces an earlier one with the same key).
pub uninterp spec fn string_map_json(pairs: Seq<(Seq<char>, Seq<char>)>) -> Seq<char>;

/// Serialises string pairs as a JSON object with `serde_json::to_string` on a
/// `serde_json::Map` built from them; the result is `string_map_json` of the pairs.
#[verifier::external_body]
fn string_map_to_json(pairs: &Vec<(String, String)>) -> (r: String)
    ensures
        r@ == string_map_json(pairs.deep_view()),
{
    let map: serde_json::Map<String, serde_json::Value> = pairs.iter().map(
        |(k, v)| (k.clone(), serde_json::Value::String(v.clone())),
    ).collect();
    serde_json::to_string(&map).unwrap_or_default()
}

/// Whether `content` holds a complete XML tool call, in either spelling.
pub open spec fn has_xml(content: Seq<char>) -> bool {
    (contains_seq(content, "<tool_call>"@) && contains_seq(content, "</tool_call>"@)) || (
    contains_seq(content, "<toolcall>"@) && contains_seq(content, "</toolcall>"@))
}

/// The parameters `<parameter=key>value</parameter>` found in `ps`, values trimmed.
pub open spec fn xml_params(ps: Seq<char>) -> Seq<(Seq<char>, Seq<char>)>
    decreases ps.len(),
{
    match find_from(ps, "<parameter="@, 0) {
        None => seq![],
        Some(p) => {
            let pp = p + "<parameter="@.len();
            match find_from(ps.skip(pp), seq!['>'], 0) {
                None => seq![],
                Some(ke) => {
                    let vs = pp + ke + 1;
                    match find_from(ps.skip(vs), "</parameter>"@, 0) {
                        None => seq![],
                        Some(ve) => {
                            proof {
                                reveal_strlit("<parameter=");
                                lemma_find_from_bounds(ps, "<parameter="@, 0);
                                lemma_find_from_bounds(ps.skip(pp), seq!['>'], 0);
                                lemma_find_from_bounds(ps.skip(vs), "</parameter>"@, 0);
                            }
                            seq![(ps.subrange(pp, pp + ke), trim(ps.subrange(vs, vs + ve)))]
                                + xml_params(ps.skip(vs + ve))
                        },
                    }
                },
            }
        },
    }
}

/// The call in one block: the name after `<function=` up to `>`, and the block's parameters.
pub open spec fn block_call(block: Seq<char>) -> Option<XmlCall> {
    match find_from(block, "<function="@, 0) {
        None => None,
        Some(fs) => {
            let fp = fs + "<function="@.len();
            match find_from(block.skip(fp), seq!['>'], 0) {
                None => None,
                Some(fe) => Some((block.subrange(fp, fp + fe), xml_params(block))),
            }
        },
    }
}

/// The XML tool calls in `rem`, in order: each block from `<tool_call>` (or, when there is
/// none, `<toolcall>`) to the matching closing tag; blocks without a function are skipped.
pub open spec fn xml_calls(rem: Seq<char>) -> Seq<XmlCall>
    decreases rem.len(),
{
    let a = find_from(rem, "<tool_call>"@, 0);
    let b = find_from(rem, "<toolcall>"@, 0);
    if a is None && b is None {
        seq![]
    } else {
        let open = if a is Some { "<tool_call>"@ } else { "<toolcall>"@ };
        let close = if a is Some { "</tool_call>"@ } else { "</toolcall>"@ };
        let pos = if a is Some { a->0 } else { b->0 };
        let bs = pos + open.len();
        match find_from(rem.skip(bs), close, 0) {
            None => seq![],
            Some(e) => {
                proof {
                    reveal_strlit("<tool_call>");
                    reveal_strlit("<toolcall>");
                    reveal_strlit("</tool_call>");
                    reveal_strlit("</toolcall>");
                    lemma_find_from_bounds(rem, "<tool_call>"@, 0);
                    lemma_find_from_bounds(rem, "<toolcall>"@, 0);
                    lemma_find_from_bounds(rem.skip(bs), close, 0);
                }
                let block = rem.subrange(bs, bs + e);
                let next = rem.skip(bs + e + close.len());
                (match block_call(block) {
                    Some(c) => seq![c],
                    None => seq![],
                }) + xml_calls(next)
            },
        }
    }
}

/// The tool call `calls[i]` is the `i`-th XML call `x`: id `call_i`, type `function`,
/// the call's name, and its parameters as a JSON object.
pub open spec fn is_xml_tool_call(c: ToolCall, i: nat, x: XmlCall) -> bool {
    &&& c.id@ == "call_"@ + decimal(i)
    &&& c.call_type@ == "function"@
    &&& c.function.name@ == x.0
    &&& c.function.arguments@ == string_map_json(x.1)
}

/// Detects whether content contains XML-formatted tool calls.
pub fn has_xml_tool_calls(content: &str) -> (b: bool)
    ensures
        b == has_xml(content@),
{
    let c = chars_of(content);
    (contains_in(&c, &chars_of("<tool_call>")) && contains_in(&c, &chars_of("</tool_call>"))) || (
    contains_in(&c, &chars_of("<toolcall>")) && contains_in(&c, &chars_of("</toolcall>")))
}

fn xml_params_of(ps0: &Vec<char>) -> (r: Vec<(String, String)>)
    ensures
        r.deep_view() == xml_params(ps0@),
{
    let popen = chars_of("<parameter=");
    let pclose = chars_of("</parameter>");
    let gt: Vec<char> = vec!['>'];
    proof {
        reveal_strlit("<parameter=");
        reveal_strlit("</parameter>");
    }
    let mut r: Vec<(String, String)> = Vec::new();
    let mut ps = slice_of(ps0, 0, ps0.len());
    assert(ps0@.subrange(0, ps0@.len() as int) =~= ps0@);
    loop
        invariant
            popen@ == "<parameter="@,
            pclose@ == "</parameter>"@,
            gt@ == seq!['>'],
            xml_params(ps0@) == r.deep_view() + xml_params(ps@),
        decreases ps@.len(),
    {
        let plen = ps.len();
        let p = match find_in(&ps, &popen, 0) {
            Some(p) => p,
            None => {
                assert(xml_params(ps@) =~= Seq::<(Seq<char>, Seq<char>)>::empty());
                return r;
            },
        };
        proof {
            lemma_find_from_bounds(ps@, popen@, 0);
        }
        let pp = p + popen.len();
        let after_key = slice_of(&ps, pp, ps.len());
        assert(after_key@ =~= ps@.skip(pp as int));
        let ke = match find_in(&after_key, &gt, 0) {
            Some(ke) => ke,
            None => {
                assert(xml_params(ps@) =~= Seq::<(Seq<char>, Seq<char>)>::empty());
                return r;
            },
        };
        proof {
            lemma_find_from_bounds(after_key@, gt@, 0);
        }
        let vs = pp + ke + 1;
        let after_value = slice_of(&ps, vs, ps.len());
        assert(after_value@ =~= ps@.skip(vs as int));
        let ve = match find_in(&after_value, &pclose, 0) {
            Some(ve) => ve,
            None => {
                assert(xml_params(ps@) =~= Seq::<(Seq<char>, Seq<char>)>::empty());
                return r;
            },
        };
        proof {
            lemma_find_from_bounds(after_value@, pclose@, 0);
        }
        let key = string_of(&ps, pp, pp + ke);
        let raw = slice_of(&ps, vs, vs + ve);
        let value_chars = trim_chars(&raw);
        let value = string_of(&value_chars, 0, value_chars.len());
        assert(value_chars@.subrange(0, value_chars@.len() as int) =~= value_chars@);
        let ghost before = r.deep_view();
        r.push((key, value));
        assert(r.deep_view() =~= before + seq![(ps@.subrange(pp as int, pp + ke), trim(
            ps@.subrange(vs as int, vs + ve),
        ))]);
        ps = slice_of(&ps, vs + ve, plen);
    }
}

fn block_call_of(block: &Vec<char>) -> (r: Option<(String, Vec<(String, String)>)>)
    ensures
        r is Some <==> block_call(block@) is Some,
        r matches Some(c) ==> block_call(block@) == Some((c.0@, c.1.deep_view())),
{
    let fopen = chars_of("<function=");
    let gt: Vec<char> = vec!['>'];
    proof {
        reveal_strlit("<function=");
    }
    let blen = block.len();
    assert(fopen@ == "<function="@);
    let fs = match find_in(block, &fopen, 0) {
        Some(fs) => fs,
        None => { return None; },
    };
    proof {
        lemma_find_from_bounds(block@, fopen@, 0);
    }
    let fp = fs + fopen.len();
    let rest = slice_of(block, fp, block.len());
    assert(rest@ =~= block@.skip(fp as int));
    assert(gt@ == seq!['>']);
    assert(fp == fs + "<function="@.len());
    assert(find_from(block@, "<function="@, 0) == Some(fs as int));
    let fe = match find_in(&rest, &gt, 0) {
        Some(fe) => fe,
        None => {
            assert(find_from(block@.skip(fp as int), seq!['>'], 0) is None);
            return None;
        },
    };
    proof {
        lemma_find_from_bounds(rest@, gt@, 0);
    }
    let name = string_of(block, fp, fp + fe);
    let params = xml_params_of(block);
    Some((name, params))
}

/// Parses XML-formatted tool calls such as
/// `<tool_call><function=Read><parameter=filePath>README.md</parameter></function></tool_call>`
/// or `<toolcall><function=Glob><parameter=pattern>**/*.rs</parameter></toolcall>`.
pub fn parse_xml_tool_calls(content: &str) -> (r: Vec<ToolCall>)
    ensures
        r@.len() == xml_calls(content@).len(),
        forall|i: int|
            0 <= i < r@.len() ==> is_xml_tool_call(#[trigger] r@[i], i as nat, xml_calls(content@)[i]),
{
    let open1 = chars_of("<tool_call>");
    let close1 = chars_of("</tool_call>");
    let open2 = chars_of("<toolcall>");
    let close2 = chars_of("</toolcall>");
    let prefix = chars_of("call_");
    let function = chars_of("function");
    let mut calls: Vec<ToolCall> = Vec::new();
    let ghost mut found: Seq<XmlCall> = seq![];
    let mut rem = chars_of(content);
    loop
        invariant
            open1@ == "<tool_call>"@,
            close1@ == "</tool_call>"@,
            open2@ == "<toolcall>"@,
            close2@ == "</toolcall>"@,
            prefix@ == "call_"@,
            function@ == "function"@,
            xml_calls(content@) == found + xml_calls(rem@),
            calls@.len() == found.len(),
            calls@.len() + rem@.len() <= content@.len(),
            forall|i: int|
                0 <= i < calls@.len() ==> is_xml_tool_call(#[trigger] calls@[i], i as nat, found[i]),
        decreases rem@.len(),
    {
        let rlen = rem.len();
        proof {
            reveal_strlit("<tool_call>");
            reveal_strlit("</tool_call>");
            reveal_strlit("<toolcall>");
            reveal_strlit("</toolcall>");
        }
        let (first, pos) = match find_in(&rem, &open1, 0) {
            Some(p) => (true, p),
            None => match find_in(&rem, &open2, 0) {
                Some(p) => (false, p),
                None => {
                    assert(xml_calls(rem@) =~= Seq::<XmlCall>::empty());
                    return calls;
                },
            },
        };
        proof {
            lemma_find_from_bounds(rem@, "<tool_call>"@, 0);
            lemma_find_from_bounds(rem@, "<toolcall>"@, 0);
        }
        let open_len: usize = if first { 11 } else { 10 };
        let bs = pos + open_len;
        let rest = slice_of(&rem, bs, rem.len());
        assert(rest@ =~= rem@.skip(bs as int));
        let found_close = if first { find_in(&rest, &close1, 0) } else { find_in(&rest, &close2, 0) };
        let e = match found_close {
            Some(e) => e,
            None => {
                assert(xml_calls(rem@) =~= Seq::<XmlCall>::empty());
                return calls;
            },
        };
        let close_len: usize = if first { 12 } else { 11 };
        proof {
            if first {
                lemma_find_from_bounds(rest@, close1@, 0);
            } else {
                lemma_find_from_bounds(rest@, close2@, 0);
            }
        }
        let block = slice_of(&rem, bs, bs + e);
        let ghost step = match block_call(block@) {
            Some(c) => seq![c],
            None => seq![],
        };
        match block_call_of(&block) {
            Some((name, params)) => {
                let n = calls.len();
                let mut id = string_of(&prefix, 0, prefix.len());
                let digits = decimal_of(n as u64);
                let id_tail = string_of(&digits, 0, digits.len());
                id.append(id_tail.as_str());
                proof {
                    assert(prefix@.subrange(0, prefix@.len() as int) =~= prefix@);
                    assert(digits@.subrange(0, digits@.len() as int) =~= digits@);
                }
                let arguments = string_map_to_json(&params);
                let call_type = string_of(&function, 0, function.len());
                assert(function@.subrange(0, function@.len() as int) =~= function@);
                let call = ToolCall {
                    id,
                    call_type,
                    function: ToolFunction { name, arguments },
                };
                calls.push(call);
            },
            None => {},
        }
        proof {
            found = found + step;
        }
        rem = slice_of(&rem, bs + e + close_len, rlen);
        assert(xml_calls(content@) =~= found + xml_calls(rem@));
    }
}


/// The lines kept when XML tool calls are removed: from a line starting with an opening tag
/// through a line ending with a closing tag nothing is kept (a call opened and closed on one
/// line removes that line only), nor are blank lines; each kept line is followed by a newline.
pub open spec fn strip_lines(ls: Seq<Seq<char>>, in_call: bool) -> Seq<char>
    decreases ls.len(),
{
    if ls.len() == 0 {
        seq![]
    } else {
        let t = trim(ls[0]);
        let rest = ls.drop_first();
        let closes = ends_with(t, "</tool_call>"@) || ends_with(t, "</toolcall>"@);
        if starts_with(t, "<tool_call>"@) || starts_with(t, "<toolcall>"@) {
            strip_lines(rest, !closes)
        } else if closes {
            strip_lines(rest, false)
        } else if !in_call && t.len() > 0 {
            ls[0] + seq!['\n'] + strip_lines(rest, in_call)
        } else {
            strip_lines(rest, in_call)
        }
    }
}

/// Removes XML tool calls from content for display.
pub fn strip_xml_tool_calls(content: &str) -> (r: String)
    ensures
        r@ == strip_lines(lines(content@), false),
{
    let c = chars_of(content);
    let ls = lines_of(&c);
    let open1 = chars_of("<tool_call>");
    let close1 = chars_of("</tool_call>");
    let open2 = chars_of("<toolcall>");
    let close2 = chars_of("</toolcall>");
    let mut result = String::new();
    let mut in_tool_call = false;
    let n = ls.len();
    let mut i: usize = 0;
    let ghost all = lines(content@);
    assert(all.skip(0) =~= all);
    assert(result@ + strip_lines(all, false) =~= strip_lines(all, false));
    while i < n
        invariant
            n == ls@.len() == all.len(),
            all == lines(content@),
            forall|k: int| 0 <= k < n ==> (#[trigger] ls@[k])@ == all[k],
            open1@ == "<tool_call>"@,
            close1@ == "</tool_call>"@,
            open2@ == "<toolcall>"@,
            close2@ == "</toolcall>"@,
            i <= n,
            strip_lines(all, false) == result@ + strip_lines(all.skip(i as int), in_tool_call),
        decreases n - i,
    {
        let line = &ls[i];
        let trimmed = trim_chars(line);
        let ghost rest = all.skip(i as int);
        assert(rest[0] == all[i as int]);
        assert(rest.drop_first() =~= all.skip(i + 1));
        let closes = ends_with_in(&trimmed, &close1) || ends_with_in(&trimmed, &close2);
        if starts_with_in(&trimmed, &open1) || starts_with_in(&trimmed, &open2) {
            in_tool_call = !closes;
        } else if closes {
            in_tool_call = false;
        } else if !in_tool_call && trimmed.len() > 0 {
            let piece = string_of(line, 0, line.len());
            assert(line@.subrange(0, line@.len() as int) =~= line@);
            result.append(piece.as_str());
            crate::text::push_char(&mut result, '\n');
        }
        i = i + 1;
    }
    assert(all.skip(n as int) =~= Seq::<Seq<char>>::empty());
    result
}


/// What the stream reports to the application.
pub enum StreamEvent {
    Token(String),
    Thinking(String),
    ToolCall(ToolCall),
    ToolExecuting(String),
    ToolsExecuted(Vec<ToolResultInfo>),
    Error(String),
    Done,
}

/// The content of an event the decoder emits.
pub enum Decoded {
    Token(Seq<char>),
    Thinking(Seq<char>),
    /// A tool call of type `function`: id, function name, arguments.
    Call(Seq<char>, Seq<char>, Seq<char>),
}

/// `e` is the event whose content is `d`.
pub open spec fn shows(e: StreamEvent, d: Decoded) -> bool {
    match d {
        Decoded::Token(s) => e matches StreamEvent::Token(t) && t@ == s,
        Decoded::Thinking(s) => e matches StreamEvent::Thinking(t) && t@ == s,
        Decoded::Call(id, name, args) => e matches StreamEvent::ToolCall(c) && c.id@ == id
            && c.call_type@ == "function"@ && c.function.name@ == name && c.function.arguments@
            == args,
    }
}

/// The events `es` are, in order, those with contents `ds`.
pub open spec fn shows_all(es: Seq<StreamEvent>, ds: Seq<Decoded>) -> bool {
    es.len() == ds.len() && forall|i: int| 0 <= i < es.len() ==> shows(#[trigger] es[i], ds[i])
}

/// Whether serde_json parses `text` as a JSON object (`serde_json::from_str::<Map<..>>` succeeds).
pub uninterp spec fn is_json_object(text: Seq<char>) -> bool;

/// Tries `serde_json::from_str::<serde_json::Map<String, Value>>` on `text`; the result is
/// `is_json_object` of the text.
#[verifier::external_body]
fn json_object_text(text: &str) -> (b: bool)
    ensures
        b == is_json_object(text@),
{
    serde_json::from_str::<serde_json::Map<String, serde_json::Value>>(text).is_ok()
}

#[verifier::external_type_specification]
#[verifier::external_body]
pub struct ExJsonValue(serde_json::Value);

/// The JSON value serde_json parses from `text` (`serde_json::from_str::<Value>`), as the
/// library reads it; `None` when the text is not JSON.
pub uninterp spec fn json_value(text: Seq<char>) -> Option<Json>;

/// A `serde_json::Value` as the library reads it, variant by variant: numbers keep their
/// value when `as_u64` gives one, objects keep serde_json's order of members.
#[verifier::external_body]
fn json_of(v: &serde_json::Value) -> Json {
    match v {
        serde_json::Value::Null => Json::Null,
        serde_json::Value::Bool(b) => Json::Bool(*b),
        serde_json::Value::Number(n) => Json::Number(n.as_u64()),
        serde_json::Value::String(s) => Json::Str(s.clone()),
        serde_json::Value::Array(a) => Json::Array(a.iter().map(json_of).collect()),
        serde_json::Value::Object(m) => Json::Object(m.iter().map(|(k, x)| (k.clone(), json_of(x))).collect()),
    }
}

/// Parses `text` with `serde_json::from_str::<serde_json::Value>`; the result is `json_value`
/// of the text (`None` where serde_json reports an error).
#[verifier::external_body]
fn parse_json(text: &str) -> (r: Option<Json>)
    ensures
        r == json_value(text@),
{
    match serde_json::from_str::<serde_json::Value>(text) {
        Ok(v) => Some(json_of(&v)),
        Err(_) => None,
    }
}

/// The members of the JSON object written in `text` (a tool call's arguments), in serde_json's
/// order; none when the text is not a JSON object.
pub fn object_members(text: &str) -> (r: Vec<(String, Json)>)
    ensures
        match json_value(text@) {
            Some(Json::Object(m)) => r@ == m@,
            _ => r@.len() == 0,
        },
{
    match parse_json(text) {
        Some(Json::Object(m)) => m,
        _ => Vec::new(),
    }
}

/// The events for a text delta: XML tool calls in it become calls, and the rest of the text is
/// shown when it is not blank; text without XML tool calls is shown as it is.
pub open spec fn text_events(s: Seq<char>, thinking: bool) -> Seq<Decoded> {
    let mk = |t: Seq<char>| if thinking { Decoded::Thinking(t) } else { Decoded::Token(t) };
    if has_xml(s) {
        let calls = xml_calls(s);
        let shown = strip_lines(lines(s), false);
        Seq::new(
            calls.len(),
            |i: int| Decoded::Call("call_"@ + decimal(i as nat), calls[i].0, string_map_json(calls[i].1)),
        ) + if trim(shown).len() > 0 {
            seq![mk(shown)]
        } else {
            seq![]
        }
    } else {
        seq![mk(s)]
    }
}

/// A tool call being assembled from fragments: its index, id, name and arguments so far.
pub struct PartialToolCall {
    pub index: u64,
    pub id: String,
    pub name: String,
    pub arguments: String,
}

/// The contents of a partial tool call.
pub type PartialView = (u64, Seq<char>, Seq<char>, Seq<char>);

pub open spec fn partial_view(p: PartialToolCall) -> PartialView {
    (p.index, p.id@, p.name@, p.arguments@)
}

/// The position of the partial call with index `idx`, if any.
pub open spec fn partial_pos(ps: Seq<PartialView>, idx: u64) -> Option<int>
    decreases ps.len(),
{
    if ps.len() == 0 {
        None
    } else if ps.last().0 == idx {
        Some(ps.len() - 1)
    } else {
        partial_pos(ps.drop_last(), idx)
    }
}

/// The partial calls and events after one tool-call fragment `f`: fragments are matched by
/// `index` (a fragment without one is ignored), set the id and name when they carry them,
/// extend the arguments, and a call whose arguments form a JSON object and which has an id
/// and a name is emitted and forgotten.
pub open spec fn fragment_step(ps: Seq<PartialView>, f: Json) -> (Seq<PartialView>, Seq<Decoded>) {
    match as_u64(get_key(f, "index"@)) {
        None => (ps, seq![]),
        Some(idx) => {
            let pos = partial_pos(ps, idx);
            let ps1 = if pos is Some { ps } else { ps.push((idx, seq![], seq![], seq![])) };
            let k = if pos is Some { pos->0 } else { ps.len() as int };
            let p = ps1[k];
            let id = match as_text(get_key(f, "id"@)) {
                Some(s) => s,
                None => p.1,
            };
            let func = get_key(f, "function"@);
            let name = match func {
                Some(fv) => match as_text(get_key(fv, "name"@)) {
                    Some(s) => s,
                    None => p.2,
                },
                None => p.2,
            };
            let frag = match func {
                Some(fv) => as_text(get_key(fv, "arguments"@)),
                None => None,
            };
            match frag {
                None => (ps1.update(k, (idx, id, name, p.3)), seq![]),
                Some(a) => {
                    let args = p.3 + a;
                    if is_json_object(args) && id.len() > 0 && name.len() > 0 {
                        (ps1.remove(k), seq![Decoded::Call(id, name, args)])
                    } else {
                        (ps1.update(k, (idx, id, name, args)), seq![])
                    }
                },
            }
        },
    }
}

/// The partial calls and events after the fragments `fs`, in order.
pub open spec fn fragments_step(ps: Seq<PartialView>, fs: Seq<Json>) -> (
    Seq<PartialView>,
    Seq<Decoded>,
)
    decreases fs.len(),
{
    if fs.len() == 0 {
        (ps, seq![])
    } else {
        let (ps1, e1) = fragment_step(ps, fs[0]);
        let (ps2, e2) = fragments_step(ps1, fs.drop_first());
        (ps2, e1 + e2)
    }
}

/// `choices[0].delta` of a streamed chunk.
pub open spec fn delta_of(j: Json) -> Option<Json> {
    match get_key(j, "choices"@) {
        Some(c) => match get_index(c, 0) {
            Some(c0) => get_key(c0, "delta"@),
            None => None,
        },
        None => None,
    }
}

/// The partial calls and events after one parsed chunk: its content, then its reasoning, then
/// its tool-call fragments.
pub open spec fn payload_step(ps: Seq<PartialView>, j: Json) -> (Seq<PartialView>, Seq<Decoded>) {
    match delta_of(j) {
        None => (ps, seq![]),
        Some(d) => {
            let e1 = match as_text(get_key(d, "content"@)) {
                Some(s) => text_events(s, false),
                None => seq![],
            };
            let e2 = match as_text(get_key(d, "reasoning_content"@)) {
                Some(s) => text_events(s, true),
                None => seq![],
            };
            match get_key(d, "tool_calls"@) {
                Some(Json::Array(a)) => {
                    let (ps2, e3) = fragments_step(ps, a@);
                    (ps2, e1 + e2 + e3)
                },
                _ => (ps, e1 + e2),
            }
        },
    }
}

/// The JSON payload of a server-sent-event line: what follows `data: `,
/// except for the end marker `data: [DONE]`.
pub open spec fn line_data(line: Seq<char>) -> Option<Seq<char>> {
    if line == "data: [DONE]"@ {
        None
    } else if starts_with(line, "data: "@) {
        Some(line.skip("data: "@.len() as int))
    } else {
        None
    }
}

/// The JSON payload of one line of the stream, if it carries one.
pub fn line_payload(line: &str) -> (r: Option<String>)
    ensures
        r matches Some(p) ==> line_data(line@) == Some(p@),
        r is None ==> line_data(line@) is None,
{
    let c = chars_of(line);
    let prefix = chars_of("data: ");
    proof {
        reveal_strlit("data: ");
    }
    if str_eq(line, "data: [DONE]") {
        return None;
    }
    if starts_with_in(&c, &prefix) {
        Some(string_of(&c, 6, c.len()))
    } else {
        None
    }
}

/// The partial calls and events after one line of the stream: a `data: ` line whose payload
/// parses as JSON is handled as a chunk of the reply; any other line changes nothing.
pub open spec fn line_step(ps: Seq<PartialView>, line: Seq<char>) -> (Seq<PartialView>, Seq<Decoded>) {
    match line_data(line) {
        None => (ps, seq![]),
        Some(d) => match json_value(d) {
            None => (ps, seq![]),
            Some(j) => payload_step(ps, j),
        },
    }
}

/// The partial calls and events after the lines `ls`, one after another.
pub open spec fn lines_step(ps: Seq<PartialView>, ls: Seq<Seq<char>>) -> (Seq<PartialView>, Seq<Decoded>)
    decreases ls.len(),
{
    if ls.len() == 0 {
        (ps, seq![])
    } else {
        let (ps1, e1) = lines_step(ps, ls.drop_last());
        let (ps2, e2) = line_step(ps1, ls.last());
        (ps2, e1 + e2)
    }
}

/// The lines a whole reply is read as: its pieces between newlines, the last one only when it
/// is not empty.
pub open spec fn reply_lines(body: Seq<char>) -> Seq<Seq<char>> {
    let pieces = split_on(body, '\n');
    if pieces.last().len() > 0 { pieces } else { pieces.drop_last() }
}

/// What a whole reply shows before the final `Done`: the events of its lines, then the calls
/// still being assembled whose arguments form a JSON object.
pub open spec fn reply_events(body: Seq<char>) -> Seq<Decoded> {
    let (ps, ds) = lines_step(seq![], reply_lines(body));
    ds + remaining_calls(ps)
}

/// The text of chunks received one after another.
pub open spec fn joined(chunks: Seq<Seq<char>>) -> Seq<char>
    decreases chunks.len(),
{
    if chunks.len() == 0 { seq![] } else { joined(chunks.drop_last()) + chunks.last() }
}

/// The pending text, partial calls and events after decoding `chunk` with `p` pending and
/// calls `ps`: the lines the chunk completes are handled in order.
pub open spec fn chunk_step(p: Seq<char>, ps: Seq<PartialView>, chunk: Seq<char>) -> (
    Seq<char>,
    Seq<PartialView>,
    Seq<Decoded>,
) {
    let pieces = split_on(p + chunk, '\n');
    let (ps1, ds) = lines_step(ps, pieces.drop_last());
    (pieces.last(), ps1, ds)
}

/// The pending text, partial calls and events after decoding `chunks` one after another.
pub open spec fn chunks_step(p: Seq<char>, ps: Seq<PartialView>, chunks: Seq<Seq<char>>) -> (
    Seq<char>,
    Seq<PartialView>,
    Seq<Decoded>,
)
    decreases chunks.len(),
{
    if chunks.len() == 0 {
        (p, ps, seq![])
    } else {
        let (p1, ps1, e1) = chunks_step(p, ps, chunks.drop_last());
        let (p2, ps2, e2) = chunk_step(p1, ps1, chunks.last());
        (p2, ps2, e1 + e2)
    }
}

/// What the end of the stream shows with `p` pending and calls `ps`: the events of the pending
/// line, when there is one, then the calls left whose arguments form a JSON object.
pub open spec fn end_events(p: Seq<char>, ps: Seq<PartialView>) -> Seq<Decoded> {
    let (ps1, ds) = lines_step(ps, if p.len() > 0 { seq![p] } else { seq![] });
    ds + remaining_calls(ps1)
}

/// Decodes the streamed reply: keeps the incomplete last line and the tool calls being assembled.
pub struct StreamDecoder {
    buffer: String,
    partials: Vec<PartialToolCall>,
}

impl StreamDecoder {
    /// The incomplete line received so far.
    pub closed spec fn pending(&self) -> Seq<char> {
        self.buffer@
    }

    /// The tool calls being assembled, in the order their first fragments arrived.
    pub closed spec fn calls(&self) -> Seq<PartialView> {
        self.partials@.map_values(|p: PartialToolCall| partial_view(p))
    }

    /// Each index names at most one call being assembled.
    pub open spec fn wf(&self) -> bool {
        forall|i: int, j: int|
            0 <= i < j < self.calls().len() ==> (#[trigger] self.calls()[i]).0 != (
            #[trigger] self.calls()[j]).0
    }

    /// A decoder with nothing received.
    pub fn new() -> (d: Self)
        ensures
            d.pending() == Seq::<char>::empty(),
            d.calls() == Seq::<PartialView>::empty(),
            d.wf(),
    {
        let d = StreamDecoder { buffer: String::new(), partials: Vec::new() };
        assert(d.calls() =~= Seq::<PartialView>::empty());
        d
    }

    /// Adds received text; returns the lines it completes and keeps the incomplete rest.
    pub fn push_chunk(&mut self, chunk: &str) -> (complete: Vec<String>)
        ensures
            ({
                let pieces = split_on(old(self).pending() + chunk@, '\n');
                &&& complete@.len() == pieces.len() - 1
                &&& forall|i: int| 0 <= i < complete@.len() ==> (#[trigger] complete@[i])@ == pieces[i]
                &&& final(self).pending() == pieces.last()
            }),
            final(self).calls() == old(self).calls(),
            old(self).wf() ==> final(self).wf(),
    {
        self.buffer.append(chunk);
        let all = chars_of(self.buffer.as_str());
        let pieces = split_char(&all, '\n');
        let n = pieces.len();
        proof {
            lemma_split_nonempty(all@, '\n');
        }
        let mut complete: Vec<String> = Vec::new();
        let mut i: usize = 0;
        while i + 1 < n
            invariant
                n == pieces@.len() == split_on(all@, '\n').len(),
                n >= 1,
                forall|k: int| 0 <= k < n ==> (#[trigger] pieces@[k])@ == split_on(all@, '\n')[k],
                i < n,
                complete@.len() == i,
                forall|k: int| 0 <= k < i ==> (#[trigger] complete@[k])@ == split_on(all@, '\n')[k],
            decreases n - i,
        {
            let p = &pieces[i];
            let line = string_of(p, 0, p.len());
            assert(p@.subrange(0, p@.len() as int) =~= p@);
            complete.push(line);
            i = i + 1;
        }
        let last = &pieces[n - 1];
        self.buffer = string_of(last, 0, last.len());
        assert(last@.subrange(0, last@.len() as int) =~= last@);
        complete
    }

    /// Takes the incomplete rest, when there is any.
    pub fn take_rest(&mut self) -> (rest: Option<String>)
        ensures
            old(self).pending().len() == 0 ==> rest is None,
            old(self).pending().len() > 0 ==> (rest matches Some(r) && r@ == old(self).pending()),
            final(self).pending() == Seq::<char>::empty(),
            final(self).calls() == old(self).calls(),
            old(self).wf() ==> final(self).wf(),
    {
        let mut rest = String::new();
        std::mem::swap(&mut rest, &mut self.buffer);
        if rest.as_str().is_empty() {
            None
        } else {
            Some(rest)
        }
    }

    /// Handles one line of the stream: a `data: ` line whose payload parses as JSON is handled
    /// as a chunk of the reply; any other line, the end marker among them, changes nothing.
    pub fn parse_line(&mut self, line: &str) -> (events: Vec<StreamEvent>)
        requires
            old(self).wf(),
        ensures
            final(self).wf(),
            final(self).pending() == old(self).pending(),
            match line_data(line@) {
                None => events@.len() == 0 && final(self).calls() == old(self).calls(),
                Some(d) => match json_value(d) {
                    None => events@.len() == 0 && final(self).calls() == old(self).calls(),
                    Some(j) => {
                        let (ps, ds) = payload_step(old(self).calls(), j);
                        final(self).calls() == ps && shows_all(events@, ds)
                    },
                },
            },
    {
        match line_payload(line) {
            None => Vec::new(),
            Some(data) => match parse_json(data.as_str()) {
                None => Vec::new(),
                Some(j) => self.handle_payload(&j),
            },
        }
    }

    /// Adds received text and handles the lines it completes, in order; keeps the incomplete rest.
    pub fn decode_chunk(&mut self, chunk: &str) -> (events: Vec<StreamEvent>)
        requires
            old(self).wf(),
        ensures
            final(self).wf(),
            ({
                let (p, ps, ds) = chunk_step(old(self).pending(), old(self).calls(), chunk@);
                &&& final(self).pending() == p
                &&& final(self).calls() == ps
                &&& shows_all(events@, ds)
            }),
    {
        let ghost c0 = self.calls();
        let ghost pieces = split_on(self.pending() + chunk@, '\n');
        let lines = self.push_chunk(chunk);
        let ghost ls = pieces.drop_last();
        let mut events: Vec<StreamEvent> = Vec::new();
        let mut i: usize = 0;
        assert(ls.take(0) =~= Seq::<Seq<char>>::empty());
        while i < lines.len()
            invariant
                lines@.len() == ls.len(),
                forall|k: int| 0 <= k < ls.len() ==> (#[trigger] lines@[k])@ == ls[k],
                i <= lines@.len(),
                self.wf(),
                self.pending() == pieces.last(),
                self.calls() == lines_step(c0, ls.take(i as int)).0,
                shows_all(events@, lines_step(c0, ls.take(i as int)).1),
            decreases lines@.len() - i,
        {
            let ghost e0 = events@;
            let mut es = self.parse_line(lines[i].as_str());
            let ghost es0 = es@;
            events.append(&mut es);
            proof {
                assert(ls.take(i + 1).drop_last() =~= ls.take(i as int));
                assert(ls.take(i + 1).last() == ls[i as int]);
                lemma_shows_all_concat(e0, lines_step(c0, ls.take(i as int)).1, es0, line_step(lines_step(c0, ls.take(i as int)).0, ls[i as int]).1);
            }
            i = i + 1;
        }
        assert(ls.take(lines@.len() as int) =~= ls);
        events
    }

    /// Ends the stream: handles the incomplete rest as a last line, then emits the calls left
    /// whose arguments form a JSON object, then `Done`.
    pub fn end_of_stream(&mut self) -> (events: Vec<StreamEvent>)
        requires
            old(self).wf(),
        ensures
            final(self).wf(),
            final(self).pending() == Seq::<char>::empty(),
            final(self).calls() == Seq::<PartialView>::empty(),
            events@.len() >= 1,
            events@.last() is Done,
            shows_all(events@.drop_last(), end_events(old(self).pending(), old(self).calls())),
    {
        let ghost p0 = self.pending();
        let ghost c0 = self.calls();
        let mut events: Vec<StreamEvent> = Vec::new();
        match self.take_rest() {
            Some(rest) => {
                events = self.parse_line(rest.as_str());
                proof {
                    let one = seq![p0];
                    assert(one.drop_last() =~= Seq::<Seq<char>>::empty());
                    assert(one.last() == p0);
                    let (pa, ea) = lines_step(c0, one.drop_last());
                    assert(pa == c0 && ea == Seq::<Decoded>::empty());
                    assert(ea + line_step(c0, p0).1 =~= line_step(c0, p0).1);
                    assert(lines_step(c0, one) == (line_step(c0, p0).0, line_step(c0, p0).1));
                }
            },
            None => {
                assert(lines_step(c0, Seq::<Seq<char>>::empty()) == (c0, Seq::<Decoded>::empty()));
                assert(shows_all(events@, Seq::<Decoded>::empty()));
            },
        }
        assert(self.calls() == lines_step(c0, if p0.len() > 0 { seq![p0] } else { seq![] }).0);
        assert(shows_all(events@, lines_step(c0, if p0.len() > 0 { seq![p0] } else { seq![] }).1));
        let ghost e0 = events@;
        let ghost c1 = self.calls();
        let mut rest_calls = self.finish();
        let ghost r0 = rest_calls@;
        events.append(&mut rest_calls);
        proof {
            lemma_shows_all_concat(e0, lines_step(c0, if p0.len() > 0 { seq![p0] } else { seq![] }).1, r0, remaining_calls(c1));
        }
        let ghost before = events@;
        events.push(StreamEvent::Done);
        assert(events@.drop_last() =~= before);
        events
    }

    /// Handles one parsed chunk of the reply (the JSON after `data: `).
    pub fn handle_payload(&mut self, payload: &Json) -> (events: Vec<StreamEvent>)
        requires
            old(self).wf(),
        ensures
            final(self).wf(),
            final(self).pending() == old(self).pending(),
            ({
                let (ps, ds) = payload_step(old(self).calls(), *payload);
                final(self).calls() == ps && shows_all(events@, ds)
            }),
    {
        let mut events: Vec<StreamEvent> = Vec::new();
        let choices = json_get(payload, "choices");
        let c0 = match choices {
            Some(c) => json_index(c, 0),
            None => None,
        };
        let delta = match c0 {
            Some(c) => json_get(c, "delta"),
            None => None,
        };
        let d = match delta {
            Some(d) => d,
            None => {
                assert(shows_all(events@, seq![]));
                return events;
            },
        };
        let ghost ds1 = match as_text(get_key(*d, "content"@)) {
            Some(t) => text_events(t, false),
            None => seq![],
        };
        let ghost ds2 = match as_text(get_key(*d, "reasoning_content"@)) {
            Some(t) => text_events(t, true),
            None => seq![],
        };
        if let Some(content) = json_str(json_get(d, "content")) {
            push_text_events(&mut events, content.as_str(), false);
        }
        proof {
            assert forall|i: int| 0 <= i < ds1.len() implies shows(#[trigger] events@[i], ds1[i]) by {
                assert(events@[i] == events@[0 + i]);
            }
        }
        assert(shows_all(events@, ds1));
        let ghost e1 = events@;
        if let Some(thinking) = json_str(json_get(d, "reasoning_content")) {
            push_text_events(&mut events, thinking.as_str(), true);
        }
        proof {
            assert(events@ =~= e1 + events@.skip(e1.len() as int));
            assert(shows_all(events@.skip(e1.len() as int), ds2)) by {
                assert forall|i: int| 0 <= i < ds2.len() implies shows(
                    #[trigger] events@.skip(e1.len() as int)[i],
                    ds2[i],
                ) by {
                    assert(events@.skip(e1.len() as int)[i] == events@[e1.len() + i]);
                }
            }
            lemma_shows_all_concat(e1, ds1, events@.skip(e1.len() as int), ds2);
        }
        let ghost e12 = events@;
        assert(shows_all(e12, ds1 + ds2));
        let ghost ps0 = self.calls();
        match json_get(d, "tool_calls") {
            Some(Json::Array(frags)) => {
                let n = frags.len();
                let mut i: usize = 0;
                assert(frags@.take(0) =~= Seq::<Json>::empty());
                while i < n
                    invariant
                        n == frags@.len(),
                        i <= n,
                        self.wf(),
                        self.pending() == old(self).pending(),
                        events@.len() >= e12.len(),
                        events@.take(e12.len() as int) == e12,
                        ({
                            let (ps, ds) = fragments_step(ps0, frags@.take(i as int));
                            self.calls() == ps && shows_all(events@.skip(e12.len() as int), ds)
                        }),
                    decreases n - i,
                {
                    let ghost before = events@;
                    let ghost calls_before = self.calls();
                    self.apply_fragment(&frags[i], &mut events);
                    proof {
                        lemma_fragments_append(ps0, frags@.take(i as int), frags@[i as int]);
                        assert(frags@.take(i + 1) =~= frags@.take(i as int).push(frags@[i as int]));
                        let (psa, dsa) = fragments_step(ps0, frags@.take(i as int));
                        let (psb, dsb) = fragment_step(psa, frags@[i as int]);
                        assert(events@.skip(e12.len() as int) =~= before.skip(e12.len() as int)
                            + events@.skip(before.len() as int));
                        assert(events@.take(e12.len() as int) =~= before.take(e12.len() as int));
                        assert(before.len() == e12.len() + dsa.len());
                        assert forall|k: int|
                            0 <= k < dsa.len() + dsb.len() implies shows(
                            #[trigger] events@.skip(e12.len() as int)[k],
                            (dsa + dsb)[k],
                        ) by {
                            if k < dsa.len() {
                                assert(events@[e12.len() + k] == before[e12.len() + k]);
                                assert(before.skip(e12.len() as int)[k] == before[e12.len() + k]);
                                assert(events@.skip(e12.len() as int)[k] == before.skip(
                                    e12.len() as int,
                                )[k]);
                                assert((dsa + dsb)[k] == dsa[k]);
                            } else {
                                let j = k - dsa.len();
                                assert(events@.skip(e12.len() as int)[k] == events@[before.len()
                                    + j]);
                                assert((dsa + dsb)[k] == dsb[j]);
                            }
                        }
                    }
                    i = i + 1;
                }
                proof {
                    assert(frags@.take(n as int) =~= frags@);
                    assert(events@ =~= e12 + events@.skip(e12.len() as int));
                    let (psf, dsf) = fragments_step(ps0, frags@);
                    lemma_shows_all_concat(e12, ds1 + ds2, events@.skip(e12.len() as int), dsf);
                    assert(ds1 + ds2 + dsf =~= ds1 + ds2 + dsf);
                }
            },
            _ => {
                assert(events@ =~= e12);
            },
        }
        events
    }

    /// The position of the call being assembled with index `idx`.
    fn find_partial(&self, idx: u64) -> (r: Option<usize>)
        ensures
            r matches Some(k) ==> partial_pos(self.calls(), idx) == Some(k as int),
            r is None ==> partial_pos(self.calls(), idx) is None,
    {
        let mut i = self.partials.len();
        assert(self.calls().take(i as int) =~= self.calls());
        while i > 0
            invariant
                i <= self.partials@.len(),
                self.calls().len() == self.partials@.len(),
                partial_pos(self.calls(), idx) == partial_pos(self.calls().take(i as int), idx),
            decreases i,
        {
            assert(self.calls().take(i as int).drop_last() =~= self.calls().take(i - 1));
            if self.partials[i - 1].index == idx {
                return Some(i - 1);
            }
            i = i - 1;
        }
        None
    }

    /// Applies one tool-call fragment, appending the call it completes, if any.
    fn apply_fragment(&mut self, f: &Json, events: &mut Vec<StreamEvent>)
        requires
            old(self).wf(),
        ensures
            final(self).wf(),
            final(self).pending() == old(self).pending(),
            ({
                let (ps, ds) = fragment_step(old(self).calls(), *f);
                &&& final(self).calls() == ps
                &&& final(events)@.len() == old(events)@.len() + ds.len()
                &&& final(events)@.take(old(events)@.len() as int) == old(events)@
                &&& forall|i: int|
                    0 <= i < ds.len() ==> shows(
                        #[trigger] final(events)@[old(events)@.len() + i],
                        ds[i],
                    )
            }),
    {
        let ghost ev0 = events@;
        let idx = match json_u64(json_get(f, "index")) {
            Some(i) => i,
            None => {
                assert(events@.take(ev0.len() as int) =~= ev0);
                return ;
            },
        };
        let ghost ps = self.calls();
        let k = match self.find_partial(idx) {
            Some(k) => k,
            None => {
                proof {
                    lemma_partial_pos_none(ps, idx);
                }
                self.partials.push(
                    PartialToolCall {
                        index: idx,
                        id: String::new(),
                        name: String::new(),
                        arguments: String::new(),
                    },
                );
                assert(self.calls() =~= ps.push((idx, seq![], seq![], seq![])));
                self.partials.len() - 1
            },
        };
        proof {
            lemma_partial_pos_some(ps, idx);
        }
        let ghost ps1 = self.calls();
        assert(ps1[k as int] == partial_view(self.partials@[k as int]));
        let id = match json_str(json_get(f, "id")) {
            Some(s) => s.clone(),
            None => self.partials[k].id.clone(),
        };
        let func = json_get(f, "function");
        let name = match func {
            Some(fv) => match json_str(json_get(fv, "name")) {
                Some(s) => s.clone(),
                None => self.partials[k].name.clone(),
            },
            None => self.partials[k].name.clone(),
        };
        let frag = match func {
            Some(fv) => json_str(json_get(fv, "arguments")),
            None => None,
        };
        match frag {
            None => {
                let args = self.partials[k].arguments.clone();
                self.partials.set(k, PartialToolCall { index: idx, id, name, arguments: args });
                assert(self.calls() =~= ps1.update(k as int, (idx, id@, name@, ps1[k as int].3)));
                assert(events@.take(ev0.len() as int) =~= ev0);
            },
            Some(a) => {
                let mut args = self.partials[k].arguments.clone();
                args.append(a.as_str());
                if json_object_text(args.as_str()) && !id.as_str().is_empty()
                    && !name.as_str().is_empty() {
                    self.partials.remove(k);
                    assert(self.calls() =~= ps1.remove(k as int));
                    let call = ToolCall {
                        id,
                        call_type: "function".to_owned(),
                        function: ToolFunction { name, arguments: args },
                    };
                    events.push(StreamEvent::ToolCall(call));
                    assert(events@.take(ev0.len() as int) =~= ev0);
                } else {
                    self.partials.set(
                        k,
                        PartialToolCall { index: idx, id, name, arguments: args },
                    );
                    assert(self.calls() =~= ps1.update(k as int, (idx, id@, name@, args@)));
                    assert(events@.take(ev0.len() as int) =~= ev0);
                }
            },
        }
    }

    /// Emits, in order, the calls still being assembled whose arguments form a JSON object,
    /// and forgets all of them.
    pub fn finish(&mut self) -> (events: Vec<StreamEvent>)
        ensures
            final(self).calls() == Seq::<PartialView>::empty(),
            final(self).pending() == old(self).pending(),
            final(self).wf(),
            shows_all(events@, remaining_calls(old(self).calls())),
    {
        let ghost ps = self.calls();
        let mut parts: Vec<PartialToolCall> = Vec::new();
        std::mem::swap(&mut parts, &mut self.partials);
        assert(self.calls() =~= Seq::<PartialView>::empty());
        let mut events: Vec<StreamEvent> = Vec::new();
        let n = parts.len();
        let mut i: usize = 0;
        assert(ps.take(0) =~= Seq::<PartialView>::empty());
        while i < n
            invariant
                n == parts@.len(),
                ps == parts@.map_values(|p: PartialToolCall| partial_view(p)),
                i <= n,
                shows_all(events@, remaining_calls(ps.take(i as int))),
            decreases n - i,
        {
            let p = &parts[i];
            assert(ps[i as int] == partial_view(parts@[i as int]));
            assert(ps.take(i + 1) =~= ps.take(i as int).push(ps[i as int]));
            proof {
                lemma_remaining_push(ps.take(i as int), ps[i as int]);
            }
            if json_object_text(p.arguments.as_str()) {
                let call = ToolCall {
                    id: p.id.clone(),
                    call_type: "function".to_owned(),
                    function: ToolFunction { name: p.name.clone(), arguments: p.arguments.clone() },
                };
                events.push(StreamEvent::ToolCall(call));
            }
            i = i + 1;
        }
        assert(ps.take(n as int) =~= ps);
        events
    }
}

/// The calls emitted at the end of the stream: those whose arguments form a JSON object.
pub open spec fn remaining_calls(ps: Seq<PartialView>) -> Seq<Decoded>
    decreases ps.len(),
{
    if ps.len() == 0 {
        seq![]
    } else {
        let p = ps.last();
        remaining_calls(ps.drop_last()) + if is_json_object(p.3) {
            seq![Decoded::Call(p.1, p.2, p.3)]
        } else {
            seq![]
        }
    }
}

proof fn lemma_remaining_push(ps: Seq<PartialView>, p: PartialView)
    ensures
        remaining_calls(ps.push(p)) == remaining_calls(ps) + if is_json_object(p.3) {
            seq![Decoded::Call(p.1, p.2, p.3)]
        } else {
            seq![]
        },
{
    assert(ps.push(p).drop_last() =~= ps);
}

proof fn lemma_partial_pos_none(ps: Seq<PartialView>, idx: u64)
    requires
        partial_pos(ps, idx) is None,
    ensures
        forall|i: int| 0 <= i < ps.len() ==> (#[trigger] ps[i]).0 != idx,
    decreases ps.len(),
{
    if ps.len() > 0 {
        lemma_partial_pos_none(ps.drop_last(), idx);
        assert forall|i: int| 0 <= i < ps.len() implies (#[trigger] ps[i]).0 != idx by {
            if i < ps.len() - 1 {
                assert(ps[i] == ps.drop_last()[i]);
            }
        }
    }
}

proof fn lemma_partial_pos_some(ps: Seq<PartialView>, idx: u64)
    ensures
        partial_pos(ps, idx) matches Some(k) ==> 0 <= k < ps.len() && ps[k].0 == idx,
    decreases ps.len(),
{
    if ps.len() > 0 && ps.last().0 != idx {
        lemma_partial_pos_some(ps.drop_last(), idx);
    }
}

proof fn lemma_fragments_append(ps: Seq<PartialView>, fs: Seq<Json>, f: Json)
    ensures
        ({
            let (psa, dsa) = fragments_step(ps, fs);
            let (psb, dsb) = fragment_step(psa, f);
            fragments_step(ps, fs.push(f)) == (psb, dsa + dsb)
        }),
    decreases fs.len(),
{
    if fs.len() == 0 {
        assert(fs.push(f).drop_first() =~= Seq::<Json>::empty());
        assert(fs.push(f)[0] == f);
        let (psb, dsb) = fragment_step(ps, f);
        assert(fragments_step(psb, Seq::<Json>::empty()) == (psb, Seq::<Decoded>::empty()));
        assert(dsb + Seq::<Decoded>::empty() =~= dsb);
        assert(Seq::<Decoded>::empty() + dsb =~= dsb);
        assert(fragments_step(ps, fs) == (ps, Seq::<Decoded>::empty()));
    } else {
        assert(fs.push(f).drop_first() =~= fs.drop_first().push(f));
        assert(fs.push(f)[0] == fs[0]);
        let (ps1, e1) = fragment_step(ps, fs[0]);
        lemma_fragments_append(ps1, fs.drop_first(), f);
        let (psa, dsa) = fragments_step(ps1, fs.drop_first());
        let (psb, dsb) = fragment_step(psa, f);
        assert(e1 + (dsa + dsb) =~= (e1 + dsa) + dsb);
    }
}

proof fn lemma_shows_all_concat(a: Seq<StreamEvent>, x: Seq<Decoded>, b: Seq<StreamEvent>, y: Seq<Decoded>)
    requires
        shows_all(a, x),
        shows_all(b, y),
    ensures
        shows_all(a + b, x + y),
{
    assert forall|i: int| 0 <= i < (a + b).len() implies shows(#[trigger] (a + b)[i], (x + y)[i]) by {
        if i < a.len() {
            assert((a + b)[i] == a[i]);
            assert((x + y)[i] == x[i]);
        } else {
            assert((a + b)[i] == b[i - a.len()]);
            assert((x + y)[i] == y[i - x.len()]);
        }
    }
}
proof fn lemma_split_nonempty(s: Seq<char>, sep: char)
    ensures
        split_on(s, sep).len() >= 1,
    decreases s.len(),
{
    crate::text::lemma_find_from_bounds(s, seq![sep], 0);
    match find_from(s, seq![sep], 0) {
        Some(i) => {
            lemma_split_nonempty(s.skip(i + 1), sep);
        },
        None => {},
    }
}

/// Appends the events for a text delta.
fn push_text_events(events: &mut Vec<StreamEvent>, s: &str, thinking: bool)
    ensures
        ({
            let ds = text_events(s@, thinking);
            final(events)@.len() == old(events)@.len() + ds.len()
            && final(events)@.take(old(events)@.len() as int) == old(events)@
            && forall|i: int| 0 <= i < ds.len() ==> shows(#[trigger] final(events)@[old(events)@.len() + i], ds[i])
        }),
{
    let ghost ev0 = events@;
    if has_xml_tool_calls(s) {
        let mut calls = parse_xml_tool_calls(s);
        let ghost xs = xml_calls(s@);
        let ghost all = calls@;
        let n = calls.len();
        let mut i: usize = 0;
        while i < n
            invariant
                n == all.len() == xs.len(),
                i <= n,
                calls@ == all.skip(i as int),
                forall|k: int| 0 <= k < n ==> is_xml_tool_call(#[trigger] all[k], k as nat, xs[k]),
                events@.len() == ev0.len() + i,
                events@.take(ev0.len() as int) == ev0,
                forall|k: int|
                    0 <= k < i ==> shows(#[trigger] events@[ev0.len() + k], Decoded::Call(
                        "call_"@ + decimal(k as nat),
                        xs[k].0,
                        string_map_json(xs[k].1),
                    )),
            decreases n - i,
        {
            let call = calls.remove(0);
            assert(call == all[i as int]);
            assert(calls@ =~= all.skip(i + 1));
            events.push(StreamEvent::ToolCall(call));
            i = i + 1;
        }
        let display = strip_xml_tool_calls(s);
        let dchars = chars_of(display.as_str());
        let t = trim_chars(&dchars);
        let ghost ev1 = events@;
        if t.len() > 0 {
            if thinking {
                events.push(StreamEvent::Thinking(display));
            } else {
                events.push(StreamEvent::Token(display));
            }
        }
        let ghost ds = text_events(s@, thinking);
        assert(events@.take(ev0.len() as int) =~= ev0);
        assert forall|k: int| 0 <= k < ds.len() implies shows(#[trigger] events@[ev0.len() + k], ds[k]) by {
            if k < n {
                assert(events@[ev0.len() + k] == ev1[ev0.len() + k]);
            }
        }
    } else {
        let text = s.to_owned();
        if thinking {
            events.push(StreamEvent::Thinking(text));
        } else {
            events.push(StreamEvent::Token(text));
        }
        assert(events@.take(ev0.len() as int) =~= ev0);
    }
}


proof fn lemma_join_cons(a: Seq<char>, rest: Seq<Seq<char>>, sep: Seq<char>)
    ensures
        join(seq![a] + rest, sep) == if rest.len() == 0 { a } else { a + sep + join(rest, sep) },
    decreases rest.len(),
{
    let all = seq![a] + rest;
    if rest.len() == 0 {
        assert(all =~= seq![a]);
    } else if rest.len() == 1 {
        assert(all.drop_last() =~= seq![a]);
        assert(all.last() == rest[0]);
        assert(join(seq![a], sep) == a);
        assert(join(rest, sep) == rest[0]);
        assert(join(all, sep) == join(all.drop_last(), sep) + sep + all.last());
    } else {
        lemma_join_cons(a, rest.drop_last(), sep);
        assert(all.drop_last() =~= seq![a] + rest.drop_last());
        assert(all.last() == rest.last());
        assert(join(all, sep) == join(all.drop_last(), sep) + sep + all.last());
        assert(join(rest, sep) == join(rest.drop_last(), sep) + sep + rest.last());
        assert(a + sep + join(rest.drop_last(), sep) + sep + rest.last() =~= a + sep + (join(rest.drop_last(), sep) + sep + rest.last()));
    }
}

proof fn lemma_split_join(s: Seq<char>, c: char)
    ensures
        join(split_on(s, c), seq![c]) == s,
    decreases s.len(),
{
    lemma_find_from_bounds(s, seq![c], 0);
    match find_from(s, seq![c], 0) {
        Some(i) => {
            let rest = s.skip(i + 1);
            lemma_split_join(rest, c);
            lemma_split_nonempty(rest, c);
            lemma_join_cons(s.take(i), split_on(rest, c), seq![c]);
            assert(split_on(s, c) == seq![s.take(i)] + split_on(rest, c));
            assert(s.subrange(i, i + 1) == seq![c]);
            assert(s[i] == s.subrange(i, i + 1)[0]);
            assert(s =~= s.take(i) + seq![c] + rest);
        },
        None => {
            assert(split_on(s, c) == seq![s]);
        },
    }
}

/// Nothing a stream sends is lost or added on its way into lines: the lines cut from what was
/// pending plus a new chunk, joined again with `\n`, are exactly that text.
pub proof fn law_lines_lose_nothing(pending: Seq<char>, chunk: Seq<char>)
    ensures
        join(split_on(pending + chunk, '\n'), seq!['\n']) == pending + chunk,
{
    lemma_split_join(pending + chunk, '\n');
}


proof fn lemma_find_first(s: Seq<char>, pat: Seq<char>, from: int, i: int)
    requires
        0 <= from <= i,
        crate::text::occurs_at(s, pat, i),
        forall|j: int| from <= j < i ==> !crate::text::occurs_at(s, pat, j),
    ensures
        find_from(s, pat, from) == Some(i),
    decreases i - from,
{
    if from < i {
        lemma_find_first(s, pat, from + 1, i);
    }
}

proof fn lemma_split_concat(x: Seq<char>, y: Seq<char>, c: char)
    ensures
        split_on(x + y, c) == split_on(x, c).drop_last() + split_on(split_on(x, c).last() + y, c),
    decreases x.len(),
{
    lemma_find_from_bounds(x, seq![c], 0);
    lemma_split_nonempty(x, c);
    match find_from(x, seq![c], 0) {
        Some(i) => {
            let rest = x.skip(i + 1);
            lemma_split_concat(rest, y, c);
            lemma_split_nonempty(rest, c);
            assert(i + 1 <= x.len());
            assert forall|j: int| 0 <= j < i implies !crate::text::occurs_at(x + y, seq![c], j) by {
                assert(!crate::text::occurs_at(x, seq![c], j));
                assert((x + y).subrange(j, j + 1) =~= x.subrange(j, j + 1));
            }
            assert((x + y).subrange(i, i + 1) =~= x.subrange(i, i + 1));
            lemma_find_first(x + y, seq![c], 0, i);
            assert((x + y).take(i) =~= x.take(i));
            assert((x + y).skip(i + 1) =~= rest + y);
            assert(split_on(x + y, c) == seq![x.take(i)] + split_on(rest + y, c));
            assert(split_on(x, c) == seq![x.take(i)] + split_on(rest, c));
            assert(split_on(x, c).drop_last() =~= seq![x.take(i)] + split_on(rest, c).drop_last());
            assert(split_on(x, c).last() == split_on(rest, c).last());
        },
        None => {
            assert(split_on(x, c) == seq![x]);
            assert(split_on(x, c).drop_last() =~= Seq::<Seq<char>>::empty());
            assert(Seq::<Seq<char>>::empty() + split_on(x + y, c) =~= split_on(x + y, c));
        },
    }
}

/// How the stream's text is cut into chunks does not matter: pushing `a` and then `b` onto the
/// pending text `p` completes the same lines, in the same order, and leaves the same text
/// pending as pushing `a + b` at once.
pub proof fn law_chunking_does_not_matter(p: Seq<char>, a: Seq<char>, b: Seq<char>)
    ensures
        ({
            let first = split_on(p + a, '\n');
            let second = split_on(first.last() + b, '\n');
            &&& first.drop_last() + second.drop_last() == split_on(p + a + b, '\n').drop_last()
            &&& second.last() == split_on(p + a + b, '\n').last()
        }),
{
    lemma_split_concat(p + a, b, '\n');
    let first = split_on(p + a, '\n');
    let second = split_on(first.last() + b, '\n');
    lemma_split_nonempty(first.last() + b, '\n');
    assert((first.drop_last() + second).drop_last() =~= first.drop_last() + second.drop_last());
    assert((first.drop_last() + second).last() == second.last());
}


proof fn lemma_lines_step_concat(ps: Seq<PartialView>, x: Seq<Seq<char>>, y: Seq<Seq<char>>)
    ensures
        ({
            let (ps1, e1) = lines_step(ps, x);
            let (ps2, e2) = lines_step(ps1, y);
            lines_step(ps, x + y) == (ps2, e1 + e2)
        }),
    decreases y.len(),
{
    let (ps1, e1) = lines_step(ps, x);
    if y.len() == 0 {
        assert(x + y =~= x);
        assert(e1 + Seq::<Decoded>::empty() =~= e1);
    } else {
        lemma_lines_step_concat(ps, x, y.drop_last());
        assert((x + y).drop_last() =~= x + y.drop_last());
        assert((x + y).last() == y.last());
        let (pa, ea) = lines_step(ps1, y.drop_last());
        let (pb, eb) = line_step(pa, y.last());
        assert(e1 + (ea + eb) =~= (e1 + ea) + eb);
    }
}

/// Decoding chunks one after another, from nothing pending, leaves as pending the last piece
/// of their joined text and handles exactly its complete lines, in order.
pub proof fn law_chunks_read_as_lines(ps: Seq<PartialView>, chunks: Seq<Seq<char>>)
    ensures
        ({
            let pieces = split_on(joined(chunks), '\n');
            let (p1, ps1, ds) = chunks_step(seq![], ps, chunks);
            &&& p1 == pieces.last()
            &&& (ps1, ds) == lines_step(ps, pieces.drop_last())
        }),
    decreases chunks.len(),
{
    if chunks.len() == 0 {
        crate::text::lemma_find_from_bounds(Seq::<char>::empty(), seq!['\n'], 0);
        assert(split_on(Seq::<char>::empty(), '\n') == seq![Seq::<char>::empty()]);
        assert(seq![Seq::<char>::empty()].drop_last() =~= Seq::<Seq<char>>::empty());
    } else {
        let init = chunks.drop_last();
        let c = chunks.last();
        law_chunks_read_as_lines(ps, init);
        let first = split_on(joined(init), '\n');
        law_chunking_does_not_matter(seq![], joined(init), c);
        assert(Seq::<char>::empty() + joined(init) =~= joined(init));
        let second = split_on(first.last() + c, '\n');
        lemma_lines_step_concat(ps, first.drop_last(), second.drop_last());
    }
}

/// How the reply is cut into chunks does not change what it shows: decoding the chunks one
/// after another from a new decoder and then ending the stream shows the events of the whole
/// reply (before the final `Done`).
pub proof fn law_chunking_keeps_events(chunks: Seq<Seq<char>>)
    ensures
        ({
            let (p, ps, ds) = chunks_step(seq![], seq![], chunks);
            ds + end_events(p, ps) == reply_events(joined(chunks))
        }),
{
    law_chunks_read_as_lines(seq![], chunks);
    let body = joined(chunks);
    let pieces = split_on(body, '\n');
    lemma_split_nonempty(body, '\n');
    let (p, ps, ds) = chunks_step(seq![], seq![], chunks);
    let tail: Seq<Seq<char>> = if p.len() > 0 { seq![p] } else { seq![] };
    lemma_lines_step_concat(seq![], pieces.drop_last(), tail);
    if p.len() > 0 {
        assert(pieces.drop_last() + tail =~= pieces);
    } else {
        assert(pieces.drop_last() + tail =~= pieces.drop_last());
    }
    let (ps1, e1) = lines_step(seq![], pieces.drop_last());
    let (ps2, e2) = lines_step(ps1, tail);
    assert(e1 + e2 + remaining_calls(ps2) =~= e1 + (e2 + remaining_calls(ps2)));
}


/// The text of one parameter element: `<parameter=k>v</parameter>`.
pub open spec fn param_element(k: Seq<char>, v: Seq<char>) -> Seq<char> {
    "<parameter="@ + k + ">"@ + v + "</parameter>"@
}

/// The parameter elements for the pairs `kvs`, one after another.
pub open spec fn param_elements(kvs: Seq<(Seq<char>, Seq<char>)>) -> Seq<char>
    decreases kvs.len(),
{
    if kvs.len() == 0 {
        seq![]
    } else {
        param_element(kvs[0].0, kvs[0].1) + param_elements(kvs.drop_first())
    }
}

/// No parameter element can start inside `t`: each `<` in it is followed, within it, by a
/// character other than `p`.
pub open spec fn no_param_start(t: Seq<char>) -> bool {
    forall|j: int| 0 <= j < t.len() && #[trigger] t[j] == '<' ==> j + 1 < t.len() && t[j + 1] != 'p'
}

/// A key without `>` and a value without `<`.
pub open spec fn plain_param(kv: (Seq<char>, Seq<char>)) -> bool {
    &&& forall|j: int| 0 <= j < kv.0.len() ==> #[trigger] kv.0[j] != '>'
    &&& forall|j: int| 0 <= j < kv.1.len() ==> #[trigger] kv.1[j] != '<'
}

proof fn lemma_find_none(s: Seq<char>, pat: Seq<char>, from: int)
    requires
        from >= 0,
        forall|j: int| from <= j ==> !crate::text::occurs_at(s, pat, j),
    ensures
        find_from(s, pat, from) is None,
    decreases s.len() - from,
{
    if from + pat.len() <= s.len() && from < s.len() {
        lemma_find_none(s, pat, from + 1);
    }
}

proof fn lemma_shift_occurs(t: Seq<char>, rest: Seq<char>, pat: Seq<char>, j: int)
    requires
        j >= 0,
    ensures
        crate::text::occurs_at(t + rest, pat, j + t.len()) == crate::text::occurs_at(rest, pat, j),
{
    if j + pat.len() <= rest.len() {
        assert((t + rest).subrange(j + t.len(), j + t.len() + pat.len()) =~= rest.subrange(j, j + pat.len()));
    }
}

#[verifier::spinoff_prover]
proof fn lemma_skip_plain(t: Seq<char>, rest: Seq<char>)
    requires
        no_param_start(t),
    ensures
        xml_params(t + rest) == xml_params(rest),
{
    reveal_strlit("<parameter=");
    reveal_strlit("</parameter>");
    let s = t + rest;
    let pat = "<parameter="@;
    let tl = t.len() as int;
    assert forall|j: int| 0 <= j < tl implies !crate::text::occurs_at(s, pat, j) by {
        if crate::text::occurs_at(s, pat, j) {
            assert(s.subrange(j, j + 11)[0] == s[j]);
            assert(s.subrange(j, j + 11)[1] == s[j + 1]);
            assert(s[j] == t[j]);
            assert(t[j] == '<');
            assert(s[j + 1] == t[j + 1]);
        }
    }
    lemma_find_from_bounds(rest, pat, 0);
    match find_from(rest, pat, 0) {
        None => {
            assert forall|j: int| 0 <= j implies !crate::text::occurs_at(s, pat, j) by {
                if j >= tl {
                    lemma_shift_occurs(t, rest, pat, j - tl);
                }
            }
            lemma_find_none(s, pat, 0);
        },
        Some(p) => {
            lemma_shift_occurs(t, rest, pat, p);
            assert forall|j: int| 0 <= j < p + tl implies !crate::text::occurs_at(s, pat, j) by {
                if j >= tl {
                    lemma_shift_occurs(t, rest, pat, j - tl);
                }
            }
            lemma_find_first(s, pat, 0, p + tl);
            let pp = p + 11;
            assert(s.skip(pp + tl) =~= rest.skip(pp));
            lemma_find_from_bounds(rest.skip(pp), seq!['>'], 0);
            match find_from(rest.skip(pp), seq!['>'], 0) {
                None => {},
                Some(ke) => {
                    let vs = pp + ke + 1;
                    assert(s.skip(vs + tl) =~= rest.skip(vs));
                    lemma_find_from_bounds(rest.skip(vs), "</parameter>"@, 0);
                    match find_from(rest.skip(vs), "</parameter>"@, 0) {
                        None => {},
                        Some(ve) => {
                            assert(s.subrange(pp + tl, pp + tl + ke) =~= rest.subrange(pp, pp + ke));
                            assert(s.subrange(vs + tl, vs + tl + ve) =~= rest.subrange(vs, vs + ve));
                            assert(s.skip(vs + tl + ve) =~= rest.skip(vs + ve));
                        },
                    }
                },
            }
        },
    }
}

proof fn lemma_first_gt(k: Seq<char>, tail: Seq<char>)
    requires
        forall|j: int| 0 <= j < k.len() ==> #[trigger] k[j] != '>',
    ensures
        find_from(k + (seq!['>'] + tail), seq!['>'], 0) == Some(k.len() as int),
{
    let s1 = k + (seq!['>'] + tail);
    let kl = k.len() as int;
    assert(s1.subrange(kl, kl + 1) =~= seq!['>']);
    assert forall|j: int| 0 <= j < kl implies !crate::text::occurs_at(s1, seq!['>'], j) by {
        assert(s1[j] == k[j]);
        if crate::text::occurs_at(s1, seq!['>'], j) {
            assert(s1.subrange(j, j + 1)[0] == s1[j]);
        }
    }
    lemma_find_first(s1, seq!['>'], 0, kl);
}

proof fn lemma_first_close(v: Seq<char>, rest: Seq<char>)
    requires
        forall|j: int| 0 <= j < v.len() ==> #[trigger] v[j] != '<',
    ensures
        find_from(v + ("</parameter>"@ + rest), "</parameter>"@, 0) == Some(v.len() as int),
{
    reveal_strlit("</parameter>");
    let close = "</parameter>"@;
    let s2 = v + (close + rest);
    let vl = v.len() as int;
    assert(s2.subrange(vl, vl + 12) =~= close);
    assert forall|j: int| 0 <= j < vl implies !crate::text::occurs_at(s2, close, j) by {
        assert(s2[j] == v[j]);
        if crate::text::occurs_at(s2, close, j) {
            assert(s2.subrange(j, j + 12)[0] == s2[j]);
            assert(close[0] == '<');
        }
    }
    lemma_find_first(s2, close, 0, vl);
}

proof fn lemma_close_starts_nothing()
    ensures
        no_param_start("</parameter>"@),
{
    reveal_strlit("</parameter>");
}

#[verifier::spinoff_prover]
proof fn lemma_param_cons(k: Seq<char>, v: Seq<char>, rest: Seq<char>)
    requires
        forall|j: int| 0 <= j < k.len() ==> #[trigger] k[j] != '>',
        forall|j: int| 0 <= j < v.len() ==> #[trigger] v[j] != '<',
    ensures
        xml_params(param_element(k, v) + rest) == seq![(k, trim(v))] + xml_params(rest),
{
    reveal_strlit("<parameter=");
    reveal_strlit(">");
    let open = "<parameter="@;
    let close = "</parameter>"@;
    let s = param_element(k, v) + rest;
    let kl = k.len() as int;
    let vl = v.len() as int;
    let vs = 11 + kl + 1;
    assert(find_from(s, open, 0) == Some(0int)) by {
        assert(s.subrange(0, 11) =~= open);
    }
    assert(find_from(s.skip(11), seq!['>'], 0) == Some(kl)) by {
        assert(s.skip(11) =~= k + (seq!['>'] + (v + (close + rest))));
        lemma_first_gt(k, v + (close + rest));
    }
    assert(find_from(s.skip(vs), close, 0) == Some(vl)) by {
        assert(s.skip(vs) =~= v + (close + rest));
        lemma_first_close(v, rest);
    }
    assert(s.subrange(11, 11 + kl) =~= k);
    assert(s.subrange(vs, vs + vl) =~= v);
    assert(s.skip(vs + vl) =~= close + rest);
    lemma_close_starts_nothing();
    lemma_skip_plain(close, rest);
}

proof fn lemma_param_list(kvs: Seq<(Seq<char>, Seq<char>)>, u: Seq<char>)
    requires
        no_param_start(u),
        forall|i: int| 0 <= i < kvs.len() ==> plain_param(#[trigger] kvs[i]),
    ensures
        xml_params(param_elements(kvs) + u) == kvs.map_values(|kv: (Seq<char>, Seq<char>)| (kv.0, trim(kv.1))),
    decreases kvs.len(),
{
    if kvs.len() == 0 {
        lemma_skip_plain(u, seq![]);
        assert(param_elements(kvs) + u =~= u + Seq::<char>::empty());
        assert(find_from(Seq::<char>::empty(), "<parameter="@, 0) is None) by {
            reveal_strlit("<parameter=");
        }
        assert(kvs.map_values(|kv: (Seq<char>, Seq<char>)| (kv.0, trim(kv.1))) =~= Seq::<(Seq<char>, Seq<char>)>::empty());
    } else {
        let rest = kvs.drop_first();
        assert forall|i: int| 0 <= i < rest.len() implies plain_param(#[trigger] rest[i]) by {
            assert(rest[i] == kvs[i + 1]);
        }
        lemma_param_list(rest, u);
        assert(plain_param(kvs[0]));
        lemma_param_cons(kvs[0].0, kvs[0].1, param_elements(rest) + u);
        assert(param_elements(kvs) + u =~= param_element(kvs[0].0, kvs[0].1) + (param_elements(rest) + u));
        assert(kvs.map_values(|kv: (Seq<char>, Seq<char>)| (kv.0, trim(kv.1))) =~= seq![(kvs[0].0, trim(kvs[0].1))]
            + rest.map_values(|kv: (Seq<char>, Seq<char>)| (kv.0, trim(kv.1))));
    }
}

/// Every parameter element of a block is read, in order: between text `t` and text `u` in which
/// no element can start, elements `<parameter=k>v</parameter>` (keys without `>`, values
/// without `<`) give exactly their pairs, each value trimmed; so a block with n elements gives
/// n parameters.
pub proof fn law_every_parameter_is_read(t: Seq<char>, kvs: Seq<(Seq<char>, Seq<char>)>, u: Seq<char>)
    requires
        no_param_start(t),
        no_param_start(u),
        forall|i: int| 0 <= i < kvs.len() ==> plain_param(#[trigger] kvs[i]),
    ensures
        xml_params(t + param_elements(kvs) + u) == kvs.map_values(|kv: (Seq<char>, Seq<char>)| (kv.0, trim(kv.1))),
        xml_params(t + param_elements(kvs) + u).len() == kvs.len(),
{
    lemma_param_list(kvs, u);
    lemma_skip_plain(t, param_elements(kvs) + u);
    assert(t + param_elements(kvs) + u =~= t + (param_elements(kvs) + u));
}

} // verus!
