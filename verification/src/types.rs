//! The data that flows between the stream decoder, the tools, the renderer and the application.
use vstd::prelude::*;

verus! {

/// Diff line kind: context, added, or removed.
#[derive(Debug, Clone, Copy, PartialEq, Eq, Structural)]
pub enum DiffLineKind {
    Context,
    Added,
    Removed,
}

/// A single line in a diff.
#[derive(Debug, Clone)]
pub struct DiffLine {
    pub kind: DiffLineKind,
    /// New line number for context and added lines, old line number for removed lines.
    pub lineno: usize,
    pub content: String,
}

/// A hunk of diff lines.
#[derive(Debug, Clone)]
pub struct DiffHunk {
    pub lines: Vec<DiffLine>,
}

/// Complete file diff with structured hunks.
#[derive(Debug, Clone)]
pub struct FileDiff {
    pub path: String,
    pub hunks: Vec<DiffHunk>,
}

/// A tool call requested by the model.
#[derive(Debug, Clone)]
pub struct ToolCall {
    pub id: String,
    pub call_type: String,
    pub function: ToolFunction,
}

/// The function of a tool call: its name and its JSON arguments as text.
#[derive(Debug, Clone)]
pub struct ToolFunction {
    pub name: String,
    pub arguments: String,
}

/// The outcome of one tool call, as shown to the user and reported to the model.
#[derive(Debug, Clone)]
pub struct ToolResultInfo {
    pub tool_call_id: String,
    pub tool_name: String,
    pub tool_args: String,
    pub content: String,
    pub diff: Option<FileDiff>,
}

/// Who a displayed message comes from.
#[derive(Debug, Clone, Copy, PartialEq, Eq, Structural)]
pub enum DisplayRole {
    User,
    Assistant,
    ToolActivity,
}

/// A terminal color.
#[derive(Debug, Clone, Copy, PartialEq, Eq, Structural)]
pub enum Color {
    Yellow,
    Cyan,
    DarkGray,
    Green,
    Red,
    White,
    Rgb(u8, u8, u8),
}

/// The style of a run of text: foreground color, bold, italic.
#[derive(Debug, Clone, Copy, PartialEq, Eq, Structural)]
pub struct Style {
    pub fg: Option<Color>,
    pub bold: bool,
    pub italic: bool,
}

/// A run of text in one style.
#[derive(Debug, Clone)]
pub struct Span {
    pub content: String,
    pub style: Style,
}

/// A rendered line: runs of styled text.
pub type StyledLine = Vec<Span>;

/// A message as displayed, with its rendered lines cached once it is complete.
#[derive(Debug, Clone)]
pub struct DisplayMessage {
    pub role: DisplayRole,
    pub content: String,
    pub thinking: Option<String>,
    pub detail: Option<String>,
    pub diff: Option<FileDiff>,
    pub lines: Vec<StyledLine>,
    pub thinking_lines: Vec<StyledLine>,
    pub detail_lines: Vec<StyledLine>,
}

/// A message of the conversation as sent to the model.
#[derive(Debug, Clone)]
pub enum ApiMessage {
    System { content: String },
    User { content: String },
    Assistant { content: String, thinking: Option<String>, tool_calls: Vec<ToolCall> },
    ToolResult { tool_call_id: String, content: String },
}

/// A JSON value, holding what the library reads of one.
#[derive(Debug)]
pub enum Json {
    Null,
    Bool(bool),
    /// A number; the value is given when it is a non-negative integer that fits in a `u64`.
    Number(Option<u64>),
    Str(String),
    Array(Vec<Json>),
    /// An object's members, in the order the parser gives them, each key once.
    Object(Vec<(String, Json)>),
}

/// The value of member `key` in `members`: the first one with that key.
pub open spec fn member(members: Seq<(String, Json)>, key: Seq<char>) -> Option<Json>
    decreases members.len(),
{
    if members.len() == 0 {
        None
    } else if members[0].0@ == key {
        Some(members[0].1)
    } else {
        member(members.drop_first(), key)
    }
}

/// Member `key` of `j` when `j` is an object (`Value::get` with a string).
pub open spec fn get_key(j: Json, key: Seq<char>) -> Option<Json> {
    match j {
        Json::Object(m) => member(m@, key),
        _ => None,
    }
}

/// Element `i` of `j` when `j` is an array (`Value::get` with an index).
pub open spec fn get_index(j: Json, i: int) -> Option<Json> {
    match j {
        Json::Array(a) => if 0 <= i < a@.len() { Some(a@[i]) } else { None },
        _ => None,
    }
}

/// The text of `j` when it is a string (`Value::as_str`).
pub open spec fn as_text(j: Option<Json>) -> Option<Seq<char>> {
    match j {
        Some(Json::Str(s)) => Some(s@),
        _ => None,
    }
}

/// The value of `j` when it is a non-negative integer (`Value::as_u64`).
pub open spec fn as_u64(j: Option<Json>) -> Option<u64> {
    match j {
        Some(Json::Number(n)) => n,
        _ => None,
    }
}

/// The value a borrowed option refers to.
pub open spec fn opt_value(o: Option<&Json>) -> Option<Json> {
    match o {
        Some(v) => Some(*v),
        None => None,
    }
}

/// Member `key` of an object.
pub fn json_get<'a>(j: &'a Json, key: &str) -> (r: Option<&'a Json>)
    ensures
        opt_value(r) == get_key(*j, key@),
{
    match j {
        Json::Object(m) => member_get(m, key),
        _ => None,
    }
}

/// The value of member `key` among `m`.
pub fn member_get<'a>(m: &'a Vec<(String, Json)>, key: &str) -> (r: Option<&'a Json>)
    ensures
        opt_value(r) == member(m@, key@),
{
    let n = m.len();
    let mut i: usize = 0;
    assert(m@.skip(0) =~= m@);
    while i < n
        invariant
            n == m@.len(),
            i <= n,
            member(m@, key@) == member(m@.skip(i as int), key@),
        decreases n - i,
    {
        assert(m@.skip(i as int).drop_first() =~= m@.skip(i + 1));
        assert(m@.skip(i as int)[0] == m@[i as int]);
        if crate::text::str_eq(m[i].0.as_str(), key) {
            return Some(&m[i].1);
        }
        i = i + 1;
    }
    None
}

/// Element `i` of an array.
pub fn json_index(j: &Json, i: usize) -> (r: Option<&Json>)
    ensures
        opt_value(r) == get_index(*j, i as int),
{
    match j {
        Json::Array(a) => if i < a.len() {
            Some(&a[i])
        } else {
            None
        },
        _ => None,
    }
}

/// The text of a string value.
pub fn json_str(j: Option<&Json>) -> (r: Option<&String>)
    ensures
        r matches Some(s) ==> as_text(opt_value(j)) == Some(s@),
        r is None ==> as_text(opt_value(j)) is None,
{
    match j {
        Some(Json::Str(s)) => Some(s),
        _ => None,
    }
}

/// The value of a non-negative integer.
pub fn json_u64(j: Option<&Json>) -> (r: Option<u64>)
    ensures
        r == as_u64(opt_value(j)),
{
    match j {
        Some(Json::Number(n)) => *n,
        _ => None,
    }
}

} // verus!
