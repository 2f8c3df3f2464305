//! What the screen shows, computed from the state: input height, wrapped line count,
//! status line, spinner, cursor position, and the styling of streamed text.
use vstd::prelude::*;
use crate::text::{
    byte_len, byte_len_of, chars_of, is_boundary, char_index, push_char, lemma_boundary_bounds,
    lemma_char_index,
};
use crate::render::{fg, line_runs, runs, span, Run};
use crate::table::{line_width, repeat, run_width};
use crate::types::{Color, DisplayMessage, DisplayRole, Span, Style, StyledLine};

verus! {

/// The spinner's frames.
pub const SPINNER_CHARS: &'static str = "⠋⠙⠹⠸⠼⠴⠦⠧⠇⠏";

/// Number of frames of the spinner.
pub fn spinner_len() -> (n: usize)
    ensures
        n == SPINNER_CHARS@.len(),
        n == 10,
{
    proof {
        reveal_strlit("⠋⠙⠹⠸⠼⠴⠦⠧⠇⠏");
    }
    SPINNER_CHARS.unicode_len()
}

/// Frame `i` of the spinner, or a blank past the last frame.
pub open spec fn spinner_frame(i: int) -> char {
    if 0 <= i < SPINNER_CHARS@.len() {
        SPINNER_CHARS@[i]
    } else {
        ' '
    }
}

/// Frame `i` of the spinner (a blank past the last frame).
pub fn spinner_char(i: usize) -> (c: char)
    ensures
        c == spinner_frame(i as int),
{
    let cs = chars_of(SPINNER_CHARS);
    if i < cs.len() {
        cs[i]
    } else {
        ' '
    }
}

/// How many times `c` occurs in `s`.
pub open spec fn count_of(s: Seq<char>, c: char) -> int
    decreases s.len(),
{
    if s.len() == 0 {
        0
    } else {
        count_of(s.drop_last(), c) + if s.last() == c { 1int } else { 0int }
    }
}

fn count_char(v: &Vec<char>, c: char) -> (n: usize)
    ensures
        n == count_of(v@, c),
{
    let mut n: usize = 0;
    let mut i: usize = 0;
    while i < v.len()
        invariant
            i <= v@.len(),
            n == count_of(v@.take(i as int), c),
            n <= i,
        decreases v@.len() - i,
    {
        assert(v@.take(i + 1).drop_last() =~= v@.take(i as int));
        if v[i] == c {
            n = n + 1;
        }
        i = i + 1;
    }
    assert(v@.take(v@.len() as int) =~= v@);
    n
}

/// The height of the input box: its lines and two lines of padding, at most 12.
pub open spec fn input_box_height(input: Seq<char>) -> int {
    let h = count_of(input, '\n') + 3;
    if h < 12 { h } else { 12 }
}

/// The height of the input box for `input`.
pub fn input_height(input: &str) -> (h: u16)
    ensures
        h == input_box_height(input@),
{
    let cs = chars_of(input);
    let newlines = count_char(&cs, '\n');
    if newlines >= 9 {
        12
    } else {
        (newlines + 3) as u16
    }
}

/// The number of screen rows a line takes in `width` columns once wrapped: its characters
/// (counted up to `usize::MAX`) divided by the width, rounded up, and at least 1.
pub open spec fn line_rows(l: Seq<Run>, width: int) -> int {
    let c = if run_width(l) <= usize::MAX { run_width(l) } else { usize::MAX as int };
    let c1 = if c >= 1 { c } else { 1 };
    (c1 + width - 1) / width
}

/// The number of screen rows lines take, summed.
pub open spec fn total_rows(ls: Seq<Seq<Run>>, width: int) -> int
    decreases ls.len(),
{
    if ls.len() == 0 {
        0
    } else {
        total_rows(ls.drop_last(), width) + line_rows(ls.last(), width)
    }
}

/// The number of screen rows `lines` take in `width` columns once wrapped (at most
/// `usize::MAX`).
pub fn rendered_rows(lines: &Vec<StyledLine>, width: usize) -> (n: usize)
    requires
        width >= 1,
    ensures
        n == if total_rows(line_runs(lines@), width as int) <= usize::MAX {
            total_rows(line_runs(lines@), width as int)
        } else {
            usize::MAX as int
        },
{
    let ghost lv = line_runs(lines@);
    let mut n: usize = 0;
    let mut i: usize = 0;
    while i < lines.len()
        invariant
            width >= 1,
            lv == line_runs(lines@),
            i <= lines@.len(),
            n == if total_rows(lv.take(i as int), width as int) <= usize::MAX {
                total_rows(lv.take(i as int), width as int)
            } else {
                usize::MAX as int
            },
            total_rows(lv.take(i as int), width as int) >= 0,
        decreases lines@.len() - i,
    {
        let c = line_width(&lines[i]);
        let c1 = if c >= 1 { c } else { 1 };
        let rows = (c1 - 1) / width + 1;
        assert(lv.take(i + 1).drop_last() =~= lv.take(i as int));
        assert(lv.take(i + 1).last() == runs(lines@[i as int]@));
        assert(rows as int == (c1 as int + width as int - 1) / (width as int)) by (nonlinear_arith)
            requires
                rows as int == (c1 as int - 1) / (width as int) + 1,
                c1 >= 1,
                width >= 1;
        n = n.saturating_add(rows);
        i = i + 1;
    }
    assert(lv.take(lines@.len() as int) =~= lv);
    n
}

/// The left part of the status line: a prompt to press again after a first exit key, else
/// the spinner and "waiting..." while waiting for the model, else nothing.
pub open spec fn status_left(exit_pressed: bool, waiting: bool, spinner_idx: int) -> Seq<char> {
    if exit_pressed {
        if waiting {
            "Press again to cancel"@
        } else {
            "Press again to exit"@
        }
    } else if waiting {
        seq![spinner_frame(spinner_idx)] + " waiting..."@
    } else {
        seq![]
    }
}

/// The status line in `width` columns: its left part, padded with spaces so that the metrics
/// (one column away from the edge) end it; byte lengths are what is measured.
pub open spec fn status_text(exit_pressed: bool, waiting: bool, spinner_idx: int, metrics: Seq<char>, width: int) -> Seq<char> {
    let left = status_left(exit_pressed, waiting, spinner_idx);
    let room = if width > byte_len(metrics) + 1 { width - (byte_len(metrics) + 1) } else { 0 };
    let pad = if byte_len(left) < room { repeat(' ', room - byte_len(left)) } else { seq![] };
    left + pad + metrics
}

fn push_str_chars(s: &mut String, t: &str)
    ensures
        final(s)@ == old(s)@ + t@,
{
    let cs = chars_of(t);
    let ghost s0 = s@;
    let mut i: usize = 0;
    while i < cs.len()
        invariant
            i <= cs@.len(),
            cs@ == t@,
            s@ == s0 + cs@.take(i as int),
        decreases cs@.len() - i,
    {
        push_char(s, cs[i]);
        i = i + 1;
        assert(s@ =~= s0 + cs@.take(i as int));
    }
    assert(cs@.take(cs@.len() as int) =~= cs@);
}

/// The status line below the input box (see `status_text`); `metrics` is the frame time and
/// rate as shown.
pub fn status_line(exit_pressed: bool, waiting: bool, spinner_idx: usize, metrics: &str, width: usize) -> (s: String)
    ensures
        s@ == status_text(exit_pressed, waiting, spinner_idx as int, metrics@, width as int),
{
    let mut s = String::new();
    if exit_pressed {
        if waiting {
            s = "Press again to cancel".to_owned();
        } else {
            s = "Press again to exit".to_owned();
        }
    } else if waiting {
        push_char(&mut s, spinner_char(spinner_idx));
        push_str_chars(&mut s, " waiting...");
    }
    assert(s@ =~= status_left(exit_pressed, waiting, spinner_idx as int));
    let m = byte_len_of(metrics);
    let room = width.saturating_sub(m).saturating_sub(1);
    let used = byte_len_of(s.as_str());
    if used < room {
        let ghost before = s@;
        let mut k: usize = 0;
        while k < room - used
            invariant
                used < room,
                k <= room - used,
                s@ == before + repeat(' ', k as int),
            decreases room - used - k,
        {
            push_char(&mut s, ' ');
            k = k + 1;
            assert(s@ =~= before + repeat(' ', k as int));
        }
    }
    push_str_chars(&mut s, metrics);
    s
}

/// The line shown for a running tool: two spaces, the spinner frame, a space and the status,
/// in yellow.
pub open spec fn tool_status_text(status: Seq<char>, spinner_idx: int) -> Seq<Run> {
    seq![(seq![' ', ' ', spinner_frame(spinner_idx % 10), ' '] + status, fg(Color::Yellow))]
}

/// The line shown for a running tool.
pub fn tool_status_line(status: &str, spinner_idx: usize) -> (l: StyledLine)
    ensures
        runs(l@) == tool_status_text(status@, spinner_idx as int),
{
    let n = spinner_len();
    let mut s = String::new();
    push_char(&mut s, ' ');
    push_char(&mut s, ' ');
    push_char(&mut s, spinner_char(spinner_idx % n));
    push_char(&mut s, ' ');
    push_str_chars(&mut s, status);
    assert(s@ =~= seq![' ', ' ', spinner_frame(spinner_idx as int % 10), ' '] + status@);
    let mut l: StyledLine = Vec::new();
    l.push(span(s, Style { fg: Some(Color::Yellow), bold: false, italic: false }));
    assert(runs(l@) =~= tool_status_text(status@, spinner_idx as int));
    l
}

/// The row and column (in bytes from the line's start) of the cursor at byte offset `cursor`
/// of `input`: the newlines before it, and its distance from the last of them.
pub open spec fn cursor_at(input: Seq<char>, cursor: int) -> (int, int) {
    let pre = input.take(char_index(input, cursor));
    let row = count_of(pre, '\n');
    let last = last_index(pre, '\n');
    let line_start = if last >= 0 { byte_len(input.take(last + 1)) as int } else { 0 };
    (row, cursor - line_start)
}

/// The index of the last `c` in `s`, or -1.
pub open spec fn last_index(s: Seq<char>, c: char) -> int
    decreases s.len(),
{
    if s.len() == 0 {
        -1
    } else if s.last() == c {
        s.len() - 1
    } else {
        last_index(s.drop_last(), c)
    }
}

/// Where the cursor stands in the input box: its row and its column in bytes.
pub fn cursor_position(input: &str, cursor: usize) -> (rc: (usize, usize))
    requires
        is_boundary(input@, cursor as int),
    ensures
        (rc.0 as int, rc.1 as int) == cursor_at(input@, cursor as int),
{
    let cs = chars_of(input);
    let ghost s = input@;
    proof {
        lemma_boundary_bounds(s, cursor as int);
    }
    let k = match crate::text::boundary_index(&cs, cursor) {
        Some(k) => k,
        None => 0,
    };
    let ghost pre = s.take(k as int);
    let mut row: usize = 0;
    let mut last: usize = 0;
    let mut found = false;
    let mut start: usize = 0;
    let mut b: usize = 0;
    let mut i: usize = 0;
    assert(s.take(0) =~= Seq::<char>::empty());
    while i < k
        invariant
            s == cs@,
            k <= s.len(),
            k == char_index(s, cursor as int),
            byte_len(s.take(k as int)) == cursor,
            i <= k,
            b == byte_len(s.take(i as int)),
            row == count_of(pre.take(i as int), '\n'),
            row <= i,
            pre == s.take(k as int),
            found <==> last_index(pre.take(i as int), '\n') >= 0,
            found ==> last == last_index(pre.take(i as int), '\n') && start == byte_len(s.take(last + 1)),
            found ==> last < i,
            !found ==> start == 0,
            !found ==> last_index(pre.take(i as int), '\n') == -1,
        decreases k - i,
    {
        proof {
            crate::text::lemma_byte_len_step(s, i as int);
            crate::text::lemma_byte_len_mono(s, (i + 1) as int, k as int);
            assert(pre.take(i + 1).drop_last() =~= pre.take(i as int));
            assert(pre.take(i + 1).last() == s[i as int]);
            assert(s.take(i + 1) =~= s.take(i + 1));
        }
        let w = crate::text::char_width_of(cs[i]);
        b = b + w;
        if cs[i] == '\n' {
            row = row + 1;
            last = i;
            found = true;
            start = b;
        }
        i = i + 1;
    }
    assert(pre.take(k as int) =~= pre);
    proof {
        if found {
            crate::text::lemma_byte_len_mono(s, last + 1, k as int);
            assert(start <= cursor);
        } else {
            assert(start == 0);
        }
    }
    assert(last_index(pre, '\n') >= 0 ==> start == byte_len(s.take(last_index(pre, '\n') + 1)));
    assert(count_of(pre, '\n') == row);
    (row, cursor - start)
}

/// The color of text without a color of its own in a message from `role`.
pub open spec fn role_color(role: DisplayRole) -> Color {
    match role {
        DisplayRole::User => Color::Cyan,
        DisplayRole::Assistant => Color::White,
        DisplayRole::ToolActivity => Color::Yellow,
    }
}

/// The color of text without a color of its own in a message from `role`.
pub fn color_for_role(role: DisplayRole) -> (c: Color)
    ensures
        c == role_color(role),
{
    match role {
        DisplayRole::User => Color::Cyan,
        DisplayRole::Assistant => Color::White,
        DisplayRole::ToolActivity => Color::Yellow,
    }
}

/// Streamed thinking as shown: every run in italics, dark gray when it has no color.
pub open spec fn thinking_runs(l: Seq<Run>) -> Seq<Run> {
    l.map_values(|r: Run| (r.0, Style {
        fg: if r.1.fg is None { Some(Color::DarkGray) } else { r.1.fg },
        bold: r.1.bold,
        italic: true,
    }))
}

/// A line of streamed thinking as shown.
pub fn thinking_line(l: &StyledLine) -> (r: StyledLine)
    ensures
        runs(r@) == thinking_runs(runs(l@)),
{
    let mut r: StyledLine = Vec::new();
    let mut i: usize = 0;
    while i < l.len()
        invariant
            i <= l@.len(),
            runs(r@) == thinking_runs(runs(l@.take(i as int))),
        decreases l@.len() - i,
    {
        let st = l[i].style;
        let color = match st.fg {
            Some(c) => Some(c),
            None => Some(Color::DarkGray),
        };
        let ghost before = runs(r@);
        r.push(span(l[i].content.clone(), Style { fg: color, bold: st.bold, italic: true }));
        assert(runs(r@) =~= before.push((l@[i as int].content@, Style { fg: color, bold: st.bold, italic: true })));
        i = i + 1;
        assert(runs(l@.take(i as int)) =~= runs(l@.take(i - 1)).push((l@[i - 1].content@, l@[i - 1].style)));
        assert(thinking_runs(runs(l@.take(i as int))) =~= thinking_runs(runs(l@.take(i - 1))).push((l@[i - 1].content@, Style { fg: color, bold: st.bold, italic: true })));
    }
    assert(l@.take(l@.len() as int) =~= l@);
    r
}

/// A streamed message as shown: a run without a color of its own takes the role's color (and
/// no other style); the others are kept.
pub open spec fn role_runs(l: Seq<Run>, role: DisplayRole) -> Seq<Run> {
    l.map_values(|r: Run| if r.1.fg is None { (r.0, fg(role_color(role))) } else { r })
}

/// A line of a streamed message as shown.
pub fn role_line(l: &StyledLine, role: DisplayRole) -> (r: StyledLine)
    ensures
        runs(r@) == role_runs(runs(l@), role),
{
    let mut r: StyledLine = Vec::new();
    let mut i: usize = 0;
    while i < l.len()
        invariant
            i <= l@.len(),
            runs(r@) == role_runs(runs(l@.take(i as int)), role),
        decreases l@.len() - i,
    {
        let st = l[i].style;
        let nst = match st.fg {
            Some(_) => st,
            None => Style { fg: Some(color_for_role(role)), bold: false, italic: false },
        };
        let ghost before = runs(r@);
        r.push(span(l[i].content.clone(), nst));
        assert(runs(r@) =~= before.push((l@[i as int].content@, nst)));
        i = i + 1;
        assert(runs(l@.take(i as int)) =~= runs(l@.take(i - 1)).push((l@[i - 1].content@, l@[i - 1].style)));
        assert(role_runs(runs(l@.take(i as int)), role) =~= role_runs(runs(l@.take(i - 1)), role).push((l@[i - 1].content@, nst)));
    }
    assert(l@.take(l@.len() as int) =~= l@);
    r
}


/// A part of the conversation as displayed, naming the message (or tool status) it shows.
#[derive(Debug, Clone, Copy, PartialEq, Eq, Structural)]
pub enum Part {
    /// Message `i`'s thinking, rendered now in italics.
    Thinking(usize),
    /// Message `i`'s thinking as rendered before.
    CachedThinking(usize),
    /// Message `i`'s content, rendered now in its role's color.
    Content(usize),
    /// Message `i`'s content as rendered before.
    CachedContent(usize),
    /// Message `i`'s diff.
    Diff(usize),
    /// Message `i`'s tool output, rendered now.
    Detail(usize),
    /// Message `i`'s tool output as rendered before.
    CachedDetail(usize),
    /// The blank line after a message.
    Blank,
    /// Tool status line `j`.
    ToolStatus(usize),
}

/// The parts message `i` is shown as: its thinking if any, its content, its diff if any, its
/// tool output when details are shown and it is a tool's record, then a blank line; what has
/// been rendered before is shown as it was.
pub open spec fn message_parts(m: DisplayMessage, i: usize, show_detail: bool) -> Seq<Part> {
    (match m.thinking {
        Some(_) => if m.thinking_lines@.len() == 0 { seq![Part::Thinking(i)] } else { seq![Part::CachedThinking(i)] },
        None => seq![],
    }) + (if m.lines@.len() == 0 { seq![Part::Content(i)] } else { seq![Part::CachedContent(i)] })
        + (if m.diff is Some { seq![Part::Diff(i)] } else { seq![] })
        + (if show_detail && m.role == DisplayRole::ToolActivity && m.detail is Some {
            if m.detail_lines@.len() == 0 { seq![Part::Detail(i)] } else { seq![Part::CachedDetail(i)] }
        } else {
            seq![]
        }) + seq![Part::Blank]
}

/// The parts of the first `k` messages.
pub open spec fn parts_upto(ms: Seq<DisplayMessage>, k: int, show_detail: bool) -> Seq<Part>
    decreases k,
{
    if k <= 0 || k > ms.len() {
        seq![]
    } else {
        parts_upto(ms, k - 1, show_detail) + message_parts(ms[k - 1], (k - 1) as usize, show_detail)
    }
}

/// The parts of the screen above the input box: every message, then a line per running tool.
pub open spec fn screen_parts(ms: Seq<DisplayMessage>, show_detail: bool, tools: int) -> Seq<Part> {
    parts_upto(ms, ms.len() as int, show_detail) + Seq::new(if tools > 0 { tools as nat } else { 0 }, |j: int| Part::ToolStatus(j as usize))
}

fn parts_of_message(m: &DisplayMessage, i: usize, show: bool) -> (r: Vec<Part>)
    ensures
        r@ == message_parts(*m, i, show),
{
    let mut r: Vec<Part> = Vec::new();
    match &m.thinking {
        Some(_) => {
            if m.thinking_lines.len() == 0 {
                r.push(Part::Thinking(i));
            } else {
                r.push(Part::CachedThinking(i));
            }
        },
        None => {},
    }
    if m.lines.len() == 0 {
        r.push(Part::Content(i));
    } else {
        r.push(Part::CachedContent(i));
    }
    if m.diff.is_some() {
        r.push(Part::Diff(i));
    }
    if show && m.role == DisplayRole::ToolActivity && m.detail.is_some() {
        if m.detail_lines.len() == 0 {
            r.push(Part::Detail(i));
        } else {
            r.push(Part::CachedDetail(i));
        }
    }
    r.push(Part::Blank);
    assert(r@ =~= message_parts(*m, i, show));
    r
}

/// What the conversation area shows, part by part (see `screen_parts`).
pub fn display_parts(state: &crate::state::AppState) -> (r: Vec<Part>)
    ensures
        r@ == screen_parts(state.messages@, state.show_tool_detail, state.tool_status@.len() as int),
{
    let ms = &state.messages;
    let show = state.show_tool_detail;
    let mut r: Vec<Part> = Vec::new();
    let mut i: usize = 0;
    while i < ms.len()
        invariant
            i <= ms@.len(),
            ms@ == state.messages@,
            show == state.show_tool_detail,
            r@ == parts_upto(ms@, i as int, show),
        decreases ms@.len() - i,
    {
        let mut p = parts_of_message(&ms[i], i, show);
        r.append(&mut p);
        i = i + 1;
    }
    let n = state.tool_status.len();
    let ghost base = r@;
    let mut j: usize = 0;
    while j < n
        invariant
            j <= n,
            r@ == base + Seq::new(j as nat, |t: int| Part::ToolStatus(t as usize)),
        decreases n - j,
    {
        r.push(Part::ToolStatus(j));
        j = j + 1;
        assert(r@ =~= base + Seq::new(j as nat, |t: int| Part::ToolStatus(t as usize)));
    }
    r
}

} // verus!
