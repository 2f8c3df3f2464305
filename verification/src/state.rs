//! The application's state and how it changes: editing commands from the keyboard,
//! events from the model's stream, scrolling and the spinner. The terminal loop in the
//! application performs the effects these functions return.
use vstd::prelude::*;
use crate::input::{
    Command, delete_backward_char, delete_forward_char, kill_backward_line, kill_backward_word,
    move_backward_char, move_backward_word, move_end_of_line, move_forward_char, move_forward_word,
    move_start_of_line, yank, word_start_before, word_start_after,
};
use crate::stream::StreamEvent;
use crate::text::{
    boundary_index, byte_len, char_index, chars_of, is_boundary, lemma_boundary_bounds,
    push_char, string_of,
};
use crate::types::{ApiMessage, DisplayMessage, DisplayRole, StyledLine, ToolCall, ToolResultInfo};

verus! {

/// What the application must do after a state change.
pub enum Effect {
    /// Leave the application.
    Exit,
    /// Append this submitted line to the history file.
    SaveHistory(String),
    /// Send the conversation (`api_log`) to the model and stream the reply.
    StartStream,
    /// Run these tool calls, reporting `ToolExecuting` for each and then `ToolsExecuted`.
    RunTools(Vec<ToolCall>),
    /// Render message `i` and store its lines with `set_cached_lines`.
    CacheLines(usize),
}

/// The state of the conversation, the input line and the view.
pub struct AppState {
    pub input: String,
    pub cursor: usize,
    pub clipboard: String,
    pub messages: Vec<DisplayMessage>,
    pub api_log: Vec<ApiMessage>,
    pub tool_status: Vec<String>,
    pub show_tool_detail: bool,
    pub port: u16,
    pub host: String,
    pub model: Option<String>,
    pub api_key: Option<String>,
    pub path_prefix: Option<String>,
    pub system_prompt: Option<String>,
    pub waiting: bool,
    pub spinner_idx: usize,
    pub current_stream_message_idx: Option<usize>,
    pub scroll_offset: u16,
    pub target_scroll_offset: u16,
    pub total_rendered_lines: usize,
    pub msg_area_height: u16,
    pub input_history: Vec<String>,
    pub history_idx: Option<usize>,
    pub history_draft: String,
}

/// The input line, cursor and clipboard are the same.
pub open spec fn same_editor(a: AppState, b: AppState) -> bool {
    a.input@ == b.input@ && a.cursor == b.cursor && a.clipboard@ == b.clipboard@
}

/// The conversation is the same: messages, what is sent to the model, tool status, stream target.
pub open spec fn same_conversation(a: AppState, b: AppState) -> bool {
    a.messages == b.messages && a.api_log == b.api_log && a.tool_status == b.tool_status
        && a.current_stream_message_idx == b.current_stream_message_idx
}

/// The connection settings are the same.
pub open spec fn same_settings(a: AppState, b: AppState) -> bool {
    a.port == b.port && a.host == b.host && a.model == b.model && a.api_key == b.api_key
        && a.path_prefix == b.path_prefix && a.system_prompt == b.system_prompt
}

/// The view is the same: detail toggle and scrolling.
pub open spec fn same_view(a: AppState, b: AppState) -> bool {
    a.show_tool_detail == b.show_tool_detail && a.scroll_offset == b.scroll_offset
        && a.target_scroll_offset == b.target_scroll_offset && a.total_rendered_lines
        == b.total_rendered_lines && a.msg_area_height == b.msg_area_height
}

/// The input history is the same.
pub open spec fn same_history(a: AppState, b: AppState) -> bool {
    a.input_history == b.input_history && a.history_idx == b.history_idx && a.history_draft
        == b.history_draft
}

/// Waiting for the model and the spinner are the same.
pub open spec fn same_activity(a: AppState, b: AppState) -> bool {
    a.waiting == b.waiting && a.spinner_idx == b.spinner_idx
}

/// Everything but the input line, cursor and clipboard is the same.
pub open spec fn only_editor_changed(a: AppState, b: AppState) -> bool {
    same_conversation(a, b) && same_settings(a, b) && same_view(a, b) && same_history(a, b)
        && same_activity(a, b)
}

/// Whether applying `cmd` is defined: the byte-offset commands need the cursor on a character
/// boundary where they cut or insert, the word commands need it within the characters.
pub open spec fn command_ok(s: AppState, cmd: Command) -> bool {
    let t = s.input@;
    match cmd {
        Command::InsertChar(_) => is_boundary(t, s.cursor as int) && s.cursor < usize::MAX,
        Command::DeleteBackwardChar => s.cursor > 0 ==> s.cursor - 1 < byte_len(t) && is_boundary(
            t,
            s.cursor - 1,
        ),
        Command::DeleteForwardChar => s.cursor < byte_len(t) ==> is_boundary(t, s.cursor as int),
        Command::MoveBackwardWord => s.cursor <= t.len(),
        Command::KillBackwardWord => s.cursor <= t.len(),
        Command::KillBackwardLine => is_boundary(t, s.cursor as int),
        Command::Yank => is_boundary(t, s.cursor as int) && s.cursor + byte_len(s.clipboard@)
            <= usize::MAX,
        _ => true,
    }
}

/// `m` is a new message from `role` with text `content`, nothing else, and nothing rendered yet.
pub open spec fn is_fresh_message(m: DisplayMessage, role: DisplayRole, content: Seq<char>) -> bool {
    &&& m.role == role
    &&& m.content@ == content
    &&& m.detail is None
    &&& m.diff is None
    &&& m.lines@.len() == 0
    &&& m.thinking_lines@.len() == 0
    &&& m.detail_lines@.len() == 0
}

fn fresh_message(role: DisplayRole, content: String, thinking: Option<String>) -> (m: DisplayMessage)
    ensures
        is_fresh_message(m, role, content@),
        m.thinking == thinking,
{
    DisplayMessage {
        role,
        content,
        thinking,
        detail: None,
        diff: None,
        lines: Vec::new(),
        thinking_lines: Vec::new(),
        detail_lines: Vec::new(),
    }
}

impl AppState {
    /// The state at start: empty input and conversation, not waiting, at the top.
    pub fn new(
        port: u16,
        host: String,
        model: Option<String>,
        api_key: Option<String>,
        path_prefix: Option<String>,
        system_prompt: Option<String>,
        input_history: Vec<String>,
    ) -> (s: Self)
        ensures
            s.input@.len() == 0,
            s.cursor == 0,
            s.clipboard@.len() == 0,
            s.messages@.len() == 0,
            s.api_log@.len() == 0,
            s.tool_status@.len() == 0,
            !s.show_tool_detail,
            s.port == port,
            s.host == host,
            s.model == model,
            s.api_key == api_key,
            s.path_prefix == path_prefix,
            s.system_prompt == system_prompt,
            !s.waiting,
            s.spinner_idx == 0,
            s.current_stream_message_idx is None,
            s.scroll_offset == 0,
            s.target_scroll_offset == 0,
            s.total_rendered_lines == 0,
            s.msg_area_height == 0,
            s.input_history == input_history,
            s.history_idx is None,
            s.history_draft@.len() == 0,
            s.wf(),
    {
        AppState {
            input: String::new(),
            cursor: 0,
            clipboard: String::new(),
            messages: Vec::new(),
            api_log: Vec::new(),
            tool_status: Vec::new(),
            show_tool_detail: false,
            port,
            host,
            model,
            api_key,
            path_prefix,
            system_prompt,
            waiting: false,
            spinner_idx: 0,
            current_stream_message_idx: None,
            scroll_offset: 0,
            target_scroll_offset: 0,
            total_rendered_lines: 0,
            msg_area_height: 0,
            input_history,
            history_idx: None,
            history_draft: String::new(),
        }
    }

    /// The message being streamed, if any, is one of the messages.
    pub open spec fn wf(&self) -> bool {
        self.current_stream_message_idx matches Some(i) ==> i < self.messages@.len()
    }

    /// Whether `command_ok` holds, so that `handle_command` may be applied.
    pub fn command_allowed(&self, cmd: &Command) -> (b: bool)
        ensures
            b == command_ok(*self, *cmd),
    {
        let t = self.input.as_str();
        match cmd {
            Command::InsertChar(_) => self.cursor < usize::MAX && boundary_of(t, self.cursor).is_some(),
            Command::DeleteBackwardChar => self.cursor == 0 || (self.cursor - 1
                < crate::text::byte_len_of(t) && boundary_of(t, self.cursor - 1).is_some()),
            Command::DeleteForwardChar => self.cursor >= crate::text::byte_len_of(t) || boundary_of(
                t,
                self.cursor,
            ).is_some(),
            Command::MoveBackwardWord => self.cursor <= t.unicode_len(),
            Command::KillBackwardWord => self.cursor <= t.unicode_len(),
            Command::KillBackwardLine => boundary_of(t, self.cursor).is_some(),
            Command::Yank => boundary_of(t, self.cursor).is_some() && crate::text::byte_len_of(
                self.clipboard.as_str(),
            ) <= usize::MAX - self.cursor,
            _ => true,
        }
    }

    /// Applies an editing command; returns what the application must do.
    pub fn handle_command(&mut self, cmd: Command) -> (effects: Vec<Effect>)
        requires
            command_ok(*old(self), cmd),
            old(self).wf(),
        ensures
            final(self).wf(),
            command_effect(*old(self), cmd, *final(self), effects@),
    {
        let ghost s0 = *self;
        let mut effects: Vec<Effect> = Vec::new();
        match cmd {
            Command::Exit => {
                effects.push(Effect::Exit);
            },
            Command::InsertChar(ch) => {
                let r = insert_char(self.input.as_str(), self.cursor, ch);
                self.input = r;
                self.cursor = self.cursor + 1;
            },
            Command::ClearInput => {
                self.input = String::new();
                self.cursor = 0;
            },
            Command::DeleteBackwardChar => {
                let (i, c) = delete_backward_char(self.input.as_str(), self.cursor);
                self.input = i;
                self.cursor = c;
            },
            Command::DeleteForwardChar => {
                let (i, c) = delete_forward_char(self.input.as_str(), self.cursor);
                self.input = i;
                self.cursor = c;
            },
            Command::MoveBackwardChar => {
                self.cursor = move_backward_char(self.cursor);
            },
            Command::MoveForwardChar => {
                self.cursor = move_forward_char(self.input.as_str(), self.cursor);
            },
            Command::MoveBackwardWord => {
                self.cursor = move_backward_word(self.input.as_str(), self.cursor);
            },
            Command::MoveForwardWord => {
                self.cursor = move_forward_word(self.input.as_str(), self.cursor);
            },
            Command::MoveStartOfLine => {
                self.cursor = move_start_of_line();
            },
            Command::MoveEndOfLine => {
                self.cursor = move_end_of_line(self.input.as_str());
            },
            Command::KillBackwardWord => {
                let (i, c) = kill_backward_word(self.input.as_str(), self.cursor);
                self.input = i;
                self.cursor = c;
            },
            Command::KillBackwardLine => {
                let (i, c, k) = kill_backward_line(self.input.as_str(), self.cursor);
                self.input = i;
                self.cursor = c;
                self.clipboard = k;
            },
            Command::Yank => {
                let (i, c) = yank(self.input.as_str(), self.cursor, self.clipboard.as_str());
                self.input = i;
                self.cursor = c;
            },
            Command::SubmitInput(msg) => {
                let user = fresh_message(DisplayRole::User, msg.clone(), None);
                self.messages.push(user);
                assert(self.messages@.take(s0.messages@.len() as int) =~= s0.messages@);
                self.api_log.push(ApiMessage::User { content: msg.clone() });
                if !msg.as_str().is_empty() {
                    self.input_history.push(msg.clone());
                    self.history_idx = None;
                    effects.push(Effect::SaveHistory(msg));
                }
                self.input = String::new();
                self.cursor = 0;
                self.waiting = true;
                self.spinner_idx = 0;
                effects.push(Effect::StartStream);
            },
            Command::ToggleToolDetail => {
                self.show_tool_detail = !self.show_tool_detail;
            },
            Command::Noop => {},
        }
        effects
    }
}

/// The character boundary check on a string: `Some` with the character index when `k` is one.
fn boundary_of(t: &str, k: usize) -> (r: Option<usize>)
    ensures
        r is Some <==> is_boundary(t@, k as int),
{
    let v = chars_of(t);
    boundary_index(&v, k)
}

/// `input` with `ch` inserted at byte offset `cursor` (`String::insert`).
pub fn insert_char(input: &str, cursor: usize, ch: char) -> (r: String)
    requires
        is_boundary(input@, cursor as int),
    ensures
        r@ == input@.insert(char_index(input@, cursor as int), ch),
{
    let v = chars_of(input);
    proof {
        lemma_boundary_bounds(input@, cursor as int);
    }
    let j = match boundary_index(&v, cursor) {
        Some(j) => j,
        None => { return input.to_owned(); },
    };
    let mut r = string_of(&v, 0, j);
    push_char(&mut r, ch);
    let tail = string_of(&v, j, v.len());
    r.append(tail.as_str());
    assert(r@ =~= input@.insert(j as int, ch));
    r
}

/// How a command changes the state and what it asks the application to do.
pub open spec fn command_effect(s: AppState, cmd: Command, t: AppState, effects: Seq<Effect>) -> bool {
    let i = s.input@;
    let c = s.cursor as int;
    match cmd {
        Command::SubmitInput(msg) => {
            &&& t.messages@.len() == s.messages@.len() + 1
            &&& t.messages@.take(s.messages@.len() as int) == s.messages@
            &&& is_fresh_message(t.messages@.last(), DisplayRole::User, msg@)
            &&& t.messages@.last().thinking is None
            &&& t.api_log@ == s.api_log@.push(ApiMessage::User { content: msg })
            &&& t.tool_status == s.tool_status
            &&& t.current_stream_message_idx == s.current_stream_message_idx
            &&& t.input@.len() == 0 && t.cursor == 0 && t.clipboard@ == s.clipboard@
            &&& t.waiting && t.spinner_idx == 0
            &&& same_settings(s, t) && same_view(s, t) && t.history_draft == s.history_draft
            &&& if msg@.len() > 0 {
                &&& t.input_history@ == s.input_history@.push(msg)
                &&& t.history_idx is None
                &&& effects.len() == 2
                &&& effects[0] matches Effect::SaveHistory(h) && h@ == msg@
                &&& effects[1] is StartStream
            } else {
                &&& t.input_history == s.input_history && t.history_idx == s.history_idx
                &&& effects.len() == 1 && effects[0] is StartStream
            }
        },
        Command::ToggleToolDetail => {
            &&& t.show_tool_detail == !s.show_tool_detail
            &&& same_editor(s, t) && same_conversation(s, t) && same_settings(s, t)
            &&& t.scroll_offset == s.scroll_offset && t.target_scroll_offset == s.target_scroll_offset
            &&& t.total_rendered_lines == s.total_rendered_lines && t.msg_area_height == s.msg_area_height
            &&& same_history(s, t) && same_activity(s, t)
            &&& effects.len() == 0
        },
        Command::Exit => same_editor(s, t) && only_editor_changed(s, t) && effects.len() == 1
            && effects[0] is Exit,
        Command::Noop => same_editor(s, t) && only_editor_changed(s, t) && effects.len() == 0,
        _ => {
            &&& only_editor_changed(s, t)
            &&& effects.len() == 0
            &&& match cmd {
                Command::InsertChar(ch) => t.input@ == i.insert(char_index(i, c), ch) && t.cursor
                    == c + 1 && t.clipboard@ == s.clipboard@,
                Command::ClearInput => t.input@.len() == 0 && t.cursor == 0 && t.clipboard@
                    == s.clipboard@,
                Command::DeleteBackwardChar => t.clipboard@ == s.clipboard@ && if c == 0 {
                    t.input@ == i && t.cursor == 0
                } else {
                    t.input@ == i.remove(char_index(i, c - 1)) && t.cursor == c - 1
                },
                Command::DeleteForwardChar => t.clipboard@ == s.clipboard@ && t.cursor == c && if c
                    >= byte_len(i) {
                    t.input@ == i
                } else {
                    t.input@ == i.remove(char_index(i, c))
                },
                Command::MoveBackwardChar => t.input@ == i && t.clipboard@ == s.clipboard@
                    && t.cursor == (if c == 0 { 0 } else { c - 1 }),
                Command::MoveForwardChar => t.input@ == i && t.clipboard@ == s.clipboard@
                    && t.cursor == (if c + 1 <= byte_len(i) { c + 1 } else { byte_len(i) as int }),
                Command::MoveBackwardWord => t.input@ == i && t.clipboard@ == s.clipboard@
                    && t.cursor == word_start_before(i, c),
                Command::MoveForwardWord => t.input@ == i && t.clipboard@ == s.clipboard@
                    && t.cursor == (if c >= byte_len(i) { byte_len(i) as int } else { word_start_after(i, c) }),
                Command::MoveStartOfLine => t.input@ == i && t.clipboard@ == s.clipboard@ && t.cursor == 0,
                Command::MoveEndOfLine => t.input@ == i && t.clipboard@ == s.clipboard@ && t.cursor
                    == byte_len(i),
                Command::KillBackwardWord => t.clipboard@ == s.clipboard@ && t.cursor
                    == word_start_before(i, c) && t.input@ == i.take(t.cursor as int) + i.skip(c),
                Command::KillBackwardLine => t.cursor == 0 && t.input@ == i.skip(char_index(i, c))
                    && t.clipboard@ == i.take(char_index(i, c)),
                Command::Yank => t.clipboard@ == s.clipboard@ && t.input@ == i.take(char_index(i, c))
                    + s.clipboard@ + i.skip(char_index(i, c)) && t.cursor == c + byte_len(s.clipboard@),
                _ => true,
            }
        },
    }
}


/// The message that streamed text goes to: the current one, or a new one at the end.
pub open spec fn stream_target(s: AppState) -> int {
    match s.current_stream_message_idx {
        Some(i) => i as int,
        None => s.messages@.len() as int,
    }
}

/// Whether a streamed token, thought or tool call can be added: the conversation log has an
/// entry at the target position (after a new message is opened, if one is).
pub open spec fn stream_event_ok(s: AppState) -> bool {
    match s.current_stream_message_idx {
        Some(i) => i < s.api_log@.len(),
        None => s.messages@.len() <= s.api_log@.len(),
    }
}

/// Two displayed messages agree in everything but their content.
pub open spec fn same_but_content(a: DisplayMessage, b: DisplayMessage) -> bool {
    a.role == b.role && a.thinking == b.thinking && a.detail == b.detail && a.diff == b.diff
        && a.lines == b.lines && a.thinking_lines == b.thinking_lines && a.detail_lines
        == b.detail_lines
}

/// Two displayed messages agree in everything but their thinking text.
pub open spec fn same_but_thinking(a: DisplayMessage, b: DisplayMessage) -> bool {
    a.role == b.role && a.content == b.content && a.detail == b.detail && a.diff == b.diff
        && a.lines == b.lines && a.thinking_lines == b.thinking_lines && a.detail_lines
        == b.detail_lines
}

/// Opening the streamed message: the target keeps its place or a new assistant message (with
/// `thinking` started or not) and a matching assistant log entry are appended; the result
/// is how messages and log look before the event's own change.
pub open spec fn opened_target(s: AppState, msgs: Seq<DisplayMessage>, log: Seq<ApiMessage>, thinking: bool) -> bool {
    match s.current_stream_message_idx {
        Some(_) => msgs == s.messages@ && log == s.api_log@,
        None => {
            &&& msgs.len() == s.messages@.len() + 1
            &&& msgs.take(s.messages@.len() as int) == s.messages@
            &&& is_fresh_message(msgs.last(), DisplayRole::Assistant, seq![])
            &&& (if thinking {
                msgs.last().thinking matches Some(t) && t@.len() == 0
            } else {
                msgs.last().thinking is None
            })
            &&& log.len() == s.api_log@.len() + 1
            &&& log.take(s.api_log@.len() as int) == s.api_log@
            &&& log.last() matches ApiMessage::Assistant { content, thinking: th, tool_calls }
            &&& content@.len() == 0
            &&& tool_calls@.len() == 0
            &&& (if thinking { th matches Some(x) && x@.len() == 0 } else { th is None })
        },
    }
}

/// Everything but messages, log and stream target is the same.
pub open spec fn only_stream_changed(a: AppState, b: AppState) -> bool {
    same_editor(a, b) && same_settings(a, b) && same_view(a, b) && same_history(a, b)
        && same_activity(a, b) && a.tool_status == b.tool_status
}

impl AppState {
    /// Opens the streamed message if there is none (with `thinking` started or not).
    fn open_stream_message(&mut self, thinking: bool) -> (k: usize)
        requires
            old(self).wf(),
            stream_event_ok(*old(self)),
        ensures
            final(self).wf(),
            k == stream_target(*old(self)),
            final(self).current_stream_message_idx == Some(k),
            k < final(self).messages@.len(),
            k < final(self).api_log@.len(),
            opened_target(*old(self), final(self).messages@, final(self).api_log@, thinking),
            only_stream_changed(*old(self), *final(self)),
    {
        match self.current_stream_message_idx {
            Some(k) => k,
            None => {
                let ghost m0 = self.messages@;
                let ghost a0 = self.api_log@;
                let th = if thinking { Some(String::new()) } else { None };
                let th2 = if thinking { Some(String::new()) } else { None };
                self.messages.push(fresh_message(DisplayRole::Assistant, String::new(), th));
                self.api_log.push(
                    ApiMessage::Assistant { content: String::new(), thinking: th2, tool_calls: Vec::new() },
                );
                assert(self.messages@.take(m0.len() as int) =~= m0);
                assert(self.api_log@.take(a0.len() as int) =~= a0);
                let k = self.messages.len() - 1;
                self.current_stream_message_idx = Some(k);
                k
            },
        }
    }

    /// A streamed piece of the reply: appended to the streamed message and, when the log entry
    /// there is an assistant message, to its content.
    pub fn on_token(&mut self, token: &str)
        requires
            old(self).wf(),
            stream_event_ok(*old(self)),
        ensures
            final(self).wf(),
            only_stream_changed(*old(self), *final(self)),
            final(self).current_stream_message_idx == Some(stream_target(*old(self)) as usize),
            exists|msgs: Seq<DisplayMessage>, log: Seq<ApiMessage>|
                #[trigger] opened_target(*old(self), msgs, log, false) && {
                    let k = stream_target(*old(self));
                    &&& final(self).messages@.len() == msgs.len()
                    &&& forall|j: int| 0 <= j < msgs.len() && j != k ==> final(self).messages@[j] == #[trigger] msgs[j]
                    &&& final(self).messages@[k].content@ == msgs[k].content@ + token@
                    &&& same_but_content(final(self).messages@[k], msgs[k])
                    &&& final(self).api_log@.len() == log.len()
                    &&& forall|j: int| 0 <= j < log.len() && j != k ==> final(self).api_log@[j] == #[trigger] log[j]
                    &&& (match log[k] {
                        ApiMessage::Assistant { content, thinking, tool_calls } =>
                            final(self).api_log@[k] matches ApiMessage::Assistant { content: c2, thinking: t2, tool_calls: tc2 }
                            && c2@ == content@ + token@ && t2 == thinking && tc2 == tool_calls,
                        other => final(self).api_log@[k] == other,
                    })
                },
    {
        let k = self.open_stream_message(false);
        let ghost msgs = self.messages@;
        let ghost log = self.api_log@;
        let mut m = self.messages.remove(k);
        m.content.append(token);
        self.messages.insert(k, m);
        let entry = self.api_log.remove(k);
        let entry = match entry {
            ApiMessage::Assistant { content, thinking, tool_calls } => {
                let mut c = content;
                c.append(token);
                ApiMessage::Assistant { content: c, thinking, tool_calls }
            },
            other => other,
        };
        self.api_log.insert(k, entry);
        assert(opened_target(*old(self), msgs, log, false));
    }
}


impl AppState {
    /// A streamed piece of reasoning: appended to the streamed message's thinking, when it has
    /// one, and to the log entry's thinking, when it is an assistant message with one.
    pub fn on_thinking(&mut self, thinking: &str)
        requires
            old(self).wf(),
            stream_event_ok(*old(self)),
        ensures
            final(self).wf(),
            only_stream_changed(*old(self), *final(self)),
            final(self).current_stream_message_idx == Some(stream_target(*old(self)) as usize),
            exists|msgs: Seq<DisplayMessage>, log: Seq<ApiMessage>|
                #[trigger] opened_target(*old(self), msgs, log, true) && {
                    let k = stream_target(*old(self));
                    &&& final(self).messages@.len() == msgs.len()
                    &&& forall|j: int| 0 <= j < msgs.len() && j != k ==> final(self).messages@[j] == #[trigger] msgs[j]
                    &&& same_but_thinking(final(self).messages@[k], msgs[k])
                    &&& (match msgs[k].thinking {
                        Some(t) => final(self).messages@[k].thinking matches Some(t2) && t2@ == t@ + thinking@,
                        None => final(self).messages@[k].thinking is None,
                    })
                    &&& final(self).api_log@.len() == log.len()
                    &&& forall|j: int| 0 <= j < log.len() && j != k ==> final(self).api_log@[j] == #[trigger] log[j]
                    &&& (match log[k] {
                        ApiMessage::Assistant { content, thinking: Some(t), tool_calls } =>
                            final(self).api_log@[k] matches ApiMessage::Assistant { content: c2, thinking: Some(t2), tool_calls: tc2 }
                            && c2 == content && t2@ == t@ + thinking@ && tc2 == tool_calls,
                        other => final(self).api_log@[k] == other,
                    })
                },
    {
        let k = self.open_stream_message(true);
        let ghost msgs = self.messages@;
        let ghost log = self.api_log@;
        let m = self.messages.remove(k);
        let m = match m.thinking {
            Some(t) => {
                let mut t2 = t;
                t2.append(thinking);
                DisplayMessage { thinking: Some(t2), ..m }
            },
            None => m,
        };
        self.messages.insert(k, m);
        let entry = self.api_log.remove(k);
        let entry = match entry {
            ApiMessage::Assistant { content, thinking: Some(t), tool_calls } => {
                let mut t2 = t;
                t2.append(thinking);
                ApiMessage::Assistant { content, thinking: Some(t2), tool_calls }
            },
            other => other,
        };
        self.api_log.insert(k, entry);
        assert(opened_target(*old(self), msgs, log, true));
    }

    /// A tool call from the stream: added to the log entry's tool calls when it is an
    /// assistant message; the displayed messages only get the streamed message opened.
    pub fn on_tool_call(&mut self, call: ToolCall)
        requires
            old(self).wf(),
            stream_event_ok(*old(self)),
        ensures
            final(self).wf(),
            only_stream_changed(*old(self), *final(self)),
            final(self).current_stream_message_idx == Some(stream_target(*old(self)) as usize),
            exists|msgs: Seq<DisplayMessage>, log: Seq<ApiMessage>|
                #[trigger] opened_target(*old(self), msgs, log, false) && {
                    let k = stream_target(*old(self));
                    &&& final(self).messages@ == msgs
                    &&& final(self).api_log@.len() == log.len()
                    &&& forall|j: int| 0 <= j < log.len() && j != k ==> final(self).api_log@[j] == #[trigger] log[j]
                    &&& (match log[k] {
                        ApiMessage::Assistant { content, thinking, tool_calls } =>
                            final(self).api_log@[k] matches ApiMessage::Assistant { content: c2, thinking: t2, tool_calls: tc2 }
                            && c2 == content && t2 == thinking && tc2@ == tool_calls@.push(call),
                        other => final(self).api_log@[k] == other,
                    })
                },
    {
        let k = self.open_stream_message(false);
        let ghost msgs = self.messages@;
        let ghost log = self.api_log@;
        let entry = self.api_log.remove(k);
        let entry = match entry {
            ApiMessage::Assistant { content, thinking, tool_calls } => {
                let mut tc = tool_calls;
                tc.push(call);
                ApiMessage::Assistant { content, thinking, tool_calls: tc }
            },
            other => other,
        };
        self.api_log.insert(k, entry);
        assert(opened_target(*old(self), msgs, log, false));
    }

    /// The stream ended: no message is streamed any more; a completed assistant message at
    /// the end gets its lines rendered; the tool calls of a final assistant log entry are run,
    /// else waiting stops.
    pub fn on_done(&mut self) -> (effects: Vec<Effect>)
        requires
            old(self).wf(),
        ensures
            final(self).wf(),
            final(self).current_stream_message_idx is None,
            same_editor(*old(self), *final(self)),
            same_settings(*old(self), *final(self)),
            same_view(*old(self), *final(self)),
            same_history(*old(self), *final(self)),
            final(self).messages == old(self).messages,
            final(self).api_log == old(self).api_log,
            final(self).tool_status == old(self).tool_status,
            ({
                let n = old(self).messages@.len();
                let cache = n > 0 && old(self).messages@.last().role == DisplayRole::Assistant && (
                    old(self).messages@.last().lines@.len() == 0 || (
                    old(self).messages@.last().thinking_lines@.len() == 0
                        && old(self).messages@.last().thinking is Some));
                let calls = match old(self).api_log@.last() {
                    ApiMessage::Assistant { tool_calls, .. } => if old(self).api_log@.len() > 0 {
                        tool_calls@
                    } else {
                        seq![]
                    },
                    _ => seq![],
                };
                &&& effects@.len() == (if cache { 1int } else { 0 }) + (if calls.len() > 0 { 1int } else { 0 })
                &&& cache ==> (effects@[0] matches Effect::CacheLines(i) && i == n - 1)
                &&& calls.len() > 0 ==> (effects@.last() matches Effect::RunTools(tc) && tc@ == calls)
                &&& calls.len() > 0 ==> final(self).waiting && final(self).spinner_idx == 0
                &&& calls.len() == 0 ==> !final(self).waiting && final(self).spinner_idx == old(self).spinner_idx
            }),
    {
        let mut effects: Vec<Effect> = Vec::new();
        self.current_stream_message_idx = None;
        let n = self.messages.len();
        if n > 0 {
            let last = &self.messages[n - 1];
            if last.role == DisplayRole::Assistant && (last.lines.len() == 0 || (
            last.thinking_lines.len() == 0 && last.thinking.is_some())) {
                effects.push(Effect::CacheLines(n - 1));
            }
        }
        let a = self.api_log.len();
        let mut calls: Vec<ToolCall> = Vec::new();
        if a > 0 {
            match &self.api_log[a - 1] {
                ApiMessage::Assistant { tool_calls, .. } => {
                    calls = copy_calls(tool_calls);
                },
                _ => {},
            }
        }
        if calls.len() > 0 {
            effects.push(Effect::RunTools(calls));
            self.waiting = true;
            self.spinner_idx = 0;
        } else {
            self.waiting = false;
        }
        effects
    }

    /// Stores the rendered lines of message `i`: its content lines when none are cached,
    /// and its thinking lines when it has thinking and none are cached.
    pub fn set_cached_lines(&mut self, i: usize, lines: Vec<StyledLine>, thinking_lines: Vec<StyledLine>)
        requires
            old(self).wf(),
            i < old(self).messages@.len(),
        ensures
            final(self).wf(),
            final(self).messages@.len() == old(self).messages@.len(),
            forall|j: int| 0 <= j < old(self).messages@.len() && j != i ==> final(self).messages@[j] == old(self).messages@[j],
            ({
                let m = old(self).messages@[i as int];
                let m2 = final(self).messages@[i as int];
                &&& m2.role == m.role && m2.content == m.content && m2.thinking == m.thinking
                &&& m2.detail == m.detail && m2.diff == m.diff && m2.detail_lines == m.detail_lines
                &&& m2.lines == if m.lines@.len() == 0 { lines } else { m.lines }
                &&& m2.thinking_lines == if m.thinking_lines@.len() == 0 && m.thinking is Some { thinking_lines } else { m.thinking_lines }
            }),
            only_stream_changed(*old(self), *final(self)),
            final(self).api_log == old(self).api_log,
            final(self).current_stream_message_idx == old(self).current_stream_message_idx,
    {
        let m = self.messages.remove(i);
        let m = if m.lines.len() == 0 { DisplayMessage { lines, ..m } } else { m };
        let m = if m.thinking_lines.len() == 0 && m.thinking.is_some() {
            DisplayMessage { thinking_lines, ..m }
        } else {
            m
        };
        self.messages.insert(i, m);
    }

    /// A tool started running: its description joins the status lines.
    pub fn on_tool_executing(&mut self, desc: String)
        ensures
            final(self).tool_status@ == old(self).tool_status@.push(desc),
            same_editor(*old(self), *final(self)),
            same_settings(*old(self), *final(self)),
            same_view(*old(self), *final(self)),
            same_history(*old(self), *final(self)),
            same_activity(*old(self), *final(self)),
            final(self).messages == old(self).messages,
            final(self).api_log == old(self).api_log,
            final(self).current_stream_message_idx == old(self).current_stream_message_idx,
    {
        self.tool_status.push(desc);
    }

    /// The stream failed: an error line is shown and waiting stops.
    pub fn on_error(&mut self, error_msg: &str)
        requires
            old(self).wf(),
        ensures
            final(self).wf(),
            final(self).messages@.len() == old(self).messages@.len() + 1,
            final(self).messages@.take(old(self).messages@.len() as int) == old(self).messages@,
            is_fresh_message(final(self).messages@.last(), DisplayRole::ToolActivity, "❌ API Error: "@ + error_msg@),
            final(self).messages@.last().thinking is None,
            !final(self).waiting,
            final(self).spinner_idx == old(self).spinner_idx,
            final(self).api_log == old(self).api_log,
            final(self).tool_status == old(self).tool_status,
            final(self).current_stream_message_idx == old(self).current_stream_message_idx,
            same_editor(*old(self), *final(self)),
            same_settings(*old(self), *final(self)),
            same_view(*old(self), *final(self)),
            same_history(*old(self), *final(self)),
    {
        let mut text = "❌ API Error: ".to_owned();
        text.append(error_msg);
        let ghost m0 = self.messages@;
        self.messages.push(fresh_message(DisplayRole::ToolActivity, text, None));
        assert(self.messages@.take(m0.len() as int) =~= m0);
        self.waiting = false;
    }
}

/// A copy of tool calls, field by field.
pub fn copy_calls(calls: &Vec<ToolCall>) -> (r: Vec<ToolCall>)
    ensures
        r@ == calls@,
{
    let mut r: Vec<ToolCall> = Vec::new();
    let n = calls.len();
    let mut i: usize = 0;
    while i < n
        invariant
            n == calls@.len(),
            i <= n,
            r@ == calls@.take(i as int),
        decreases n - i,
    {
        let c = &calls[i];
        let copy = ToolCall {
            id: c.id.clone(),
            call_type: c.call_type.clone(),
            function: crate::types::ToolFunction {
                name: c.function.name.clone(),
                arguments: c.function.arguments.clone(),
            },
        };
        r.push(copy);
        i = i + 1;
        assert(r@ =~= calls@.take(i as int));
    }
    assert(calls@.take(n as int) =~= calls@);
    r
}


/// `d / 4` rounded to the nearest integer, halves away from zero: what `(d as f64 * 0.25).round()`
/// gives, since a quarter of an `i32` is exact in `f64`.
pub open spec fn quarter_rounded(d: int) -> int {
    if d >= 0 {
        (d + 2) / 4
    } else {
        -((-d + 2) / 4)
    }
}

/// The largest scroll offset that still shows a full screen: the wrapped line count minus the
/// screen height (0 when the lines fit), cut to 16 bits as the terminal's offsets are.
pub open spec fn max_scroll(total_lines: usize, height: u16) -> u16 {
    (if total_lines >= height { total_lines - height } else { 0 }) as u16
}

impl AppState {
    /// One frame of smooth scrolling: the offset moves a quarter of the way (rounded) toward
    /// the target.
    pub fn animate_scroll(&mut self)
        ensures
            ({
                let d = old(self).target_scroll_offset - old(self).scroll_offset;
                final(self).scroll_offset == old(self).scroll_offset + quarter_rounded(d)
            }),
            final(self).target_scroll_offset == old(self).target_scroll_offset,
            final(self).total_rendered_lines == old(self).total_rendered_lines,
            final(self).msg_area_height == old(self).msg_area_height,
            final(self).show_tool_detail == old(self).show_tool_detail,
            same_editor(*old(self), *final(self)),
            same_conversation(*old(self), *final(self)),
            same_settings(*old(self), *final(self)),
            same_history(*old(self), *final(self)),
            same_activity(*old(self), *final(self)),
    {
        let diff: i32 = self.target_scroll_offset as i32 - self.scroll_offset as i32;
        if diff != 0 {
            let delta: i32 = if diff >= 0 { (diff + 2) / 4 } else { -((-diff + 2) / 4) };
            let next: i32 = self.scroll_offset as i32 + delta;
            let next = if next < 0 { 0 } else { next };
            self.scroll_offset = next as u16;
        }
    }

    /// Whether the view is at the bottom (the target at or past the last full screen).
    pub fn at_bottom(&self) -> (b: bool)
        ensures
            b == (self.target_scroll_offset >= max_scroll(self.total_rendered_lines, self.msg_area_height)),
    {
        let max = max_scroll_of(self.total_rendered_lines, self.msg_area_height);
        self.target_scroll_offset >= max
    }

    /// Records the size of what was drawn; a view that was at the bottom follows it.
    pub fn record_layout(&mut self, total_lines: usize, height: u16, was_at_bottom: bool)
        ensures
            final(self).total_rendered_lines == total_lines,
            final(self).msg_area_height == height,
            final(self).target_scroll_offset == if was_at_bottom {
                max_scroll(total_lines, height)
            } else {
                old(self).target_scroll_offset
            },
            final(self).scroll_offset == old(self).scroll_offset,
            final(self).show_tool_detail == old(self).show_tool_detail,
            same_editor(*old(self), *final(self)),
            same_conversation(*old(self), *final(self)),
            same_settings(*old(self), *final(self)),
            same_history(*old(self), *final(self)),
            same_activity(*old(self), *final(self)),
    {
        self.total_rendered_lines = total_lines;
        self.msg_area_height = height;
        if was_at_bottom {
            self.target_scroll_offset = max_scroll_of(total_lines, height);
        }
    }

    /// Mouse wheel up: the target moves up three lines, stopping at the top.
    pub fn scroll_up(&mut self)
        ensures
            final(self).target_scroll_offset == if old(self).target_scroll_offset >= 3 {
                old(self).target_scroll_offset - 3
            } else {
                0
            },
            final(self).scroll_offset == old(self).scroll_offset,
            final(self).total_rendered_lines == old(self).total_rendered_lines,
            final(self).msg_area_height == old(self).msg_area_height,
            final(self).show_tool_detail == old(self).show_tool_detail,
            same_editor(*old(self), *final(self)),
            same_conversation(*old(self), *final(self)),
            same_settings(*old(self), *final(self)),
            same_history(*old(self), *final(self)),
            same_activity(*old(self), *final(self)),
    {
        self.target_scroll_offset = if self.target_scroll_offset >= 3 {
            self.target_scroll_offset - 3
        } else {
            0
        };
    }

    /// Mouse wheel down: the target moves down three lines, stopping at the last full screen.
    pub fn scroll_down(&mut self)
        requires
            old(self).target_scroll_offset + 3 <= u16::MAX,
        ensures
            ({
                let max = max_scroll(old(self).total_rendered_lines, old(self).msg_area_height);
                let t = old(self).target_scroll_offset + 3;
                final(self).target_scroll_offset == if t <= max { t } else { max as int }
            }),
            final(self).scroll_offset == old(self).scroll_offset,
            final(self).total_rendered_lines == old(self).total_rendered_lines,
            final(self).msg_area_height == old(self).msg_area_height,
            final(self).show_tool_detail == old(self).show_tool_detail,
            same_editor(*old(self), *final(self)),
            same_conversation(*old(self), *final(self)),
            same_settings(*old(self), *final(self)),
            same_history(*old(self), *final(self)),
            same_activity(*old(self), *final(self)),
    {
        let max = max_scroll_of(self.total_rendered_lines, self.msg_area_height);
        let t = self.target_scroll_offset + 3;
        self.target_scroll_offset = if t <= max { t } else { max };
    }

    /// The terminal was resized: offset and target are kept within the last full screen.
    pub fn on_resize(&mut self)
        ensures
            ({
                let max = max_scroll(old(self).total_rendered_lines, old(self).msg_area_height);
                &&& final(self).target_scroll_offset == if old(self).target_scroll_offset <= max {
                    old(self).target_scroll_offset
                } else {
                    max
                }
                &&& final(self).scroll_offset == if old(self).scroll_offset <= max {
                    old(self).scroll_offset
                } else {
                    max
                }
            }),
            final(self).total_rendered_lines == old(self).total_rendered_lines,
            final(self).msg_area_height == old(self).msg_area_height,
            final(self).show_tool_detail == old(self).show_tool_detail,
            same_editor(*old(self), *final(self)),
            same_conversation(*old(self), *final(self)),
            same_settings(*old(self), *final(self)),
            same_history(*old(self), *final(self)),
            same_activity(*old(self), *final(self)),
    {
        let max = max_scroll_of(self.total_rendered_lines, self.msg_area_height);
        if self.target_scroll_offset > max {
            self.target_scroll_offset = max;
        }
        if self.scroll_offset > max {
            self.scroll_offset = max;
        }
    }

    /// The spinner advances one frame every other frame while waiting.
    pub fn advance_spinner(&mut self, frame_count: usize)
        requires
            old(self).spinner_idx < usize::MAX,
        ensures
            final(self).spinner_idx == if old(self).waiting && frame_count % 2 == 0 {
                ((old(self).spinner_idx + 1) % 10) as usize
            } else {
                old(self).spinner_idx
            },
            final(self).waiting == old(self).waiting,
            same_editor(*old(self), *final(self)),
            same_conversation(*old(self), *final(self)),
            same_settings(*old(self), *final(self)),
            same_view(*old(self), *final(self)),
            same_history(*old(self), *final(self)),
    {
        if self.waiting && frame_count % 2 == 0 {
            let n = crate::ui::spinner_len();
            self.spinner_idx = (self.spinner_idx + 1) % n;
        }
    }
}

fn max_scroll_of(total_lines: usize, height: u16) -> (m: u16)
    ensures
        m == max_scroll(total_lines, height),
{
    let d: usize = if total_lines >= height as usize { total_lines - height as usize } else { 0 };
    d as u16
}


/// The record of a finished tool call: shown as the call's label, with the output as detail
/// and the diff, if any.
pub open spec fn is_tool_record(m: DisplayMessage, r: ToolResultInfo, args: Seq<(String, crate::types::Json)>) -> bool {
    &&& m.role == DisplayRole::ToolActivity
    &&& m.content@ == crate::tool::tool_label(r.tool_name@, args)
    &&& m.thinking is None
    &&& m.detail == Some(r.content)
    &&& m.diff == r.diff
    &&& m.lines@.len() == 0
    &&& m.thinking_lines@.len() == 0
    &&& m.detail_lines@.len() == 0
}

impl AppState {
    /// The tools finished: the status lines are cleared, each result is logged for the model and
    /// recorded for display (`args[i]` being the parsed arguments of `results[i]`), and the
    /// model is asked again.
    pub fn on_tools_executed(&mut self, results: Vec<ToolResultInfo>, args: Vec<Vec<(String, crate::types::Json)>>) -> (effects: Vec<Effect>)
        requires
            old(self).wf(),
            args@.len() == results@.len(),
        ensures
            final(self).wf(),
            final(self).tool_status@.len() == 0,
            final(self).api_log@.len() == old(self).api_log@.len() + results@.len(),
            final(self).api_log@.take(old(self).api_log@.len() as int) == old(self).api_log@,
            forall|i: int| 0 <= i < results@.len() ==> final(self).api_log@[old(self).api_log@.len() + i]
                == (ApiMessage::ToolResult {
                tool_call_id: (#[trigger] results@[i]).tool_call_id,
                content: results@[i].content,
            }),
            final(self).messages@.len() == old(self).messages@.len() + results@.len(),
            final(self).messages@.take(old(self).messages@.len() as int) == old(self).messages@,
            forall|i: int| 0 <= i < results@.len() ==> is_tool_record(
                final(self).messages@[old(self).messages@.len() + i],
                #[trigger] results@[i],
                args@[i]@,
            ),
            final(self).waiting,
            final(self).spinner_idx == 0,
            final(self).current_stream_message_idx == old(self).current_stream_message_idx,
            effects@.len() == 1,
            effects@[0] is StartStream,
            same_editor(*old(self), *final(self)),
            same_settings(*old(self), *final(self)),
            same_view(*old(self), *final(self)),
            same_history(*old(self), *final(self)),
    {
        self.tool_status = Vec::new();
        let ghost r0 = results@;
        let ghost m0 = self.messages@;
        let ghost a0 = self.api_log@;
        let mut results = results;
        let n = results.len();
        let mut i: usize = 0;
        while i < n
            invariant
                n == r0.len() == args@.len(),
                i <= n,
                results@ == r0.skip(i as int),
                self.wf(),
                self.messages@.len() == m0.len() + i,
                self.messages@.take(m0.len() as int) == m0,
                self.api_log@.len() == a0.len() + i,
                self.api_log@.take(a0.len() as int) == a0,
                self.current_stream_message_idx == old(self).current_stream_message_idx,
                self.tool_status@.len() == 0,
                same_editor(*old(self), *self),
                same_settings(*old(self), *self),
                same_view(*old(self), *self),
                same_history(*old(self), *self),
                same_activity(*old(self), *self),
                forall|k: int| 0 <= k < i ==> self.api_log@[a0.len() + k] == (ApiMessage::ToolResult {
                    tool_call_id: (#[trigger] r0[k]).tool_call_id,
                    content: r0[k].content,
                }),
                forall|k: int| 0 <= k < i ==> is_tool_record(self.messages@[m0.len() + k], #[trigger] r0[k], args@[k]@),
            decreases n - i,
        {
            let r = results.remove(0);
            assert(r == r0[i as int]);
            assert(results@ =~= r0.skip(i + 1));
            let label = crate::tool::format_tool_call(r.tool_name.as_str(), &args[i]);
            let ghost ml = self.messages@;
            let ghost al = self.api_log@;
            self.api_log.push(ApiMessage::ToolResult { tool_call_id: r.tool_call_id.clone(), content: r.content.clone() });
            let record = DisplayMessage {
                role: DisplayRole::ToolActivity,
                content: label,
                thinking: None,
                detail: Some(r.content),
                diff: r.diff,
                lines: Vec::new(),
                thinking_lines: Vec::new(),
                detail_lines: Vec::new(),
            };
            self.messages.push(record);
            assert(self.messages@.take(m0.len() as int) =~= m0) by {
                assert(ml.take(m0.len() as int) == m0);
            }
            assert(self.api_log@.take(a0.len() as int) =~= a0) by {
                assert(al.take(a0.len() as int) == a0);
            }
            assert forall|k: int| 0 <= k < i + 1 implies is_tool_record(self.messages@[m0.len() + k], #[trigger] r0[k], args@[k]@) by {
                if k < i {
                    assert(self.messages@[m0.len() + k] == ml[m0.len() + k]);
                }
            }
            assert forall|k: int| 0 <= k < i + 1 implies self.api_log@[a0.len() + k] == (ApiMessage::ToolResult {
                tool_call_id: (#[trigger] r0[k]).tool_call_id,
                content: r0[k].content,
            }) by {
                if k < i {
                    assert(self.api_log@[a0.len() + k] == al[a0.len() + k]);
                }
            }
            i = i + 1;
        }
        self.waiting = true;
        self.spinner_idx = 0;
        let mut effects: Vec<Effect> = Vec::new();
        effects.push(Effect::StartStream);
        effects
    }
}

} // verus!
