//! Line editing on the input buffer, emacs style, and the key bindings that drive it.
//!
//! Cursors are byte offsets into the UTF-8 text, except for the word motions
//! (`move_backward_word`, `move_forward_word`, `kill_backward_word`), which count characters.
//! For ASCII text the two coincide (`lemma_ascii_byte_len`).
use vstd::prelude::*;
use crate::text::{
    byte_len, byte_len_of, char_index, chars_of, boundary_index, is_boundary, is_white_space,
    is_whitespace, lemma_boundary_bounds, string_of,
};

verus! {

/// An editing command, decided from one key event.
#[derive(PartialEq, Eq)]
pub enum Command {
    InsertChar(char),
    ClearInput,
    SubmitInput(String),
    KillBackwardWord,
    DeleteBackwardChar,
    DeleteForwardChar,
    MoveBackwardChar,
    MoveForwardChar,
    MoveBackwardWord,
    MoveForwardWord,
    MoveStartOfLine,
    MoveEndOfLine,
    KillBackwardLine,
    Yank,
    ToggleToolDetail,
    Exit,
    Noop,
}

/// The key of a key event, as far as the bindings read it.
#[derive(Clone, Copy, PartialEq, Eq, Structural)]
pub enum KeyCode {
    Char(char),
    Left,
    Right,
    Backspace,
    Enter,
    Esc,
    Other,
}

/// A key event: the key, whether it is a press (not a release or repeat),
/// and whether Control and Alt are held.
#[derive(Clone, Copy, PartialEq, Eq, Structural)]
pub struct KeyEvent {
    pub code: KeyCode,
    pub press: bool,
    pub control: bool,
    pub alt: bool,
}

/// The command bound to `key` when the input buffer holds `input`.
pub open spec fn is_bound_command(c: Command, key: KeyEvent, input: Seq<char>) -> bool {
    if !key.press {
        c is Noop
    } else if key.control && key.code == KeyCode::Char('a') {
        c is MoveStartOfLine
    } else if key.control && key.code == KeyCode::Char('e') {
        c is MoveEndOfLine
    } else if key.control && key.code == KeyCode::Char('b') {
        c is MoveBackwardChar
    } else if key.control && key.code == KeyCode::Char('f') {
        c is MoveForwardChar
    } else if key.alt && key.code == KeyCode::Char('b') {
        c is MoveBackwardWord
    } else if key.alt && key.code == KeyCode::Char('f') {
        c is MoveForwardWord
    } else if key.control && key.code == KeyCode::Char('d') {
        c is DeleteForwardChar
    } else if key.control && key.code == KeyCode::Char('u') {
        c is KillBackwardLine
    } else if key.control && key.code == KeyCode::Char('w') {
        c is KillBackwardWord
    } else if key.control && key.code == KeyCode::Char('y') {
        c is Yank
    } else if key.control && key.code == KeyCode::Char('o') {
        c is ToggleToolDetail
    } else if key.control && key.code == KeyCode::Char('c') {
        c is Exit
    } else {
        match key.code {
            KeyCode::Left => c is MoveBackwardChar,
            KeyCode::Right => c is MoveForwardChar,
            KeyCode::Backspace => c is DeleteBackwardChar,
            KeyCode::Char(ch) => c matches Command::InsertChar(x) && x == ch,
            KeyCode::Enter => c matches Command::SubmitInput(s) && s@ == input,
            KeyCode::Esc => c is Exit,
            KeyCode::Other => c is Noop,
        }
    }
}

fn is_ctrl(key: &KeyEvent, ch: char) -> (b: bool)
    ensures
        b == (key.control && key.code == KeyCode::Char(ch)),
{
    key.control && match key.code {
        KeyCode::Char(c) => c == ch,
        _ => false,
    }
}

fn is_alt(key: &KeyEvent, ch: char) -> (b: bool)
    ensures
        b == (key.alt && key.code == KeyCode::Char(ch)),
{
    key.alt && match key.code {
        KeyCode::Char(c) => c == ch,
        _ => false,
    }
}

/// Maps a key event to the editing command bound to it.
pub fn handle_user_input(key: KeyEvent, input: &str) -> (c: Command)
    ensures
        is_bound_command(c, key, input@),
{
    if !key.press {
        Command::Noop
    } else if is_ctrl(&key, 'a') {
        Command::MoveStartOfLine
    } else if is_ctrl(&key, 'e') {
        Command::MoveEndOfLine
    } else if is_ctrl(&key, 'b') {
        Command::MoveBackwardChar
    } else if is_ctrl(&key, 'f') {
        Command::MoveForwardChar
    } else if is_alt(&key, 'b') {
        Command::MoveBackwardWord
    } else if is_alt(&key, 'f') {
        Command::MoveForwardWord
    } else if is_ctrl(&key, 'd') {
        Command::DeleteForwardChar
    } else if is_ctrl(&key, 'u') {
        Command::KillBackwardLine
    } else if is_ctrl(&key, 'w') {
        Command::KillBackwardWord
    } else if is_ctrl(&key, 'y') {
        Command::Yank
    } else if is_ctrl(&key, 'o') {
        Command::ToggleToolDetail
    } else if is_ctrl(&key, 'c') {
        Command::Exit
    } else {
        match key.code {
            KeyCode::Left => Command::MoveBackwardChar,
            KeyCode::Right => Command::MoveForwardChar,
            KeyCode::Backspace => Command::DeleteBackwardChar,
            KeyCode::Char(ch) => Command::InsertChar(ch),
            KeyCode::Enter => Command::SubmitInput(input.to_owned()),
            KeyCode::Esc => Command::Exit,
            KeyCode::Other => Command::Noop,
        }
    }
}

/// From `pos`, the character index reached by stepping left over whitespace.
pub open spec fn skip_space_left(s: Seq<char>, pos: int) -> int
    decreases pos,
{
    if 0 < pos <= s.len() && is_white_space(s[pos - 1]) {
        skip_space_left(s, pos - 1)
    } else {
        pos
    }
}

/// From `pos`, the character index reached by stepping left over non-whitespace.
pub open spec fn skip_word_left(s: Seq<char>, pos: int) -> int
    decreases pos,
{
    if 0 < pos <= s.len() && !is_white_space(s[pos - 1]) {
        skip_word_left(s, pos - 1)
    } else {
        pos
    }
}

/// From `pos`, the character index reached by stepping right over non-whitespace.
pub open spec fn skip_word_right(s: Seq<char>, pos: int) -> int
    decreases s.len() - pos,
{
    if 0 <= pos < s.len() && !is_white_space(s[pos]) {
        skip_word_right(s, pos + 1)
    } else {
        pos
    }
}

/// From `pos`, the character index reached by stepping right over whitespace.
pub open spec fn skip_space_right(s: Seq<char>, pos: int) -> int
    decreases s.len() - pos,
{
    if 0 <= pos < s.len() && is_white_space(s[pos]) {
        skip_space_right(s, pos + 1)
    } else {
        pos
    }
}

/// Start of the word before `cursor`: skip whitespace leftwards, then the word.
pub open spec fn word_start_before(s: Seq<char>, cursor: int) -> int {
    skip_word_left(s, skip_space_left(s, cursor))
}

/// Start of the word after `cursor`: skip the word rightwards, then the whitespace after it.
pub open spec fn word_start_after(s: Seq<char>, cursor: int) -> int {
    skip_space_right(s, skip_word_right(s, cursor))
}

/// Deletes the character that ends at byte offset `cursor` (Backspace).
pub fn delete_backward_char(input: &str, cursor: usize) -> (r: (String, usize))
    requires
        cursor > 0 ==> cursor - 1 < byte_len(input@) && is_boundary(input@, cursor - 1),
    ensures
        cursor == 0 ==> r.0@ == input@ && r.1 == 0,
        cursor > 0 ==> r.0@ == input@.remove(char_index(input@, cursor - 1)) && r.1 == cursor - 1,
{
    if cursor == 0 {
        return (input.to_owned(), 0);
    }
    let new_cursor = cursor - 1;
    let result = remove_char_at(input, new_cursor);
    (result, new_cursor)
}

/// Deletes the character that starts at byte offset `cursor` (Control-D).
pub fn delete_forward_char(input: &str, cursor: usize) -> (r: (String, usize))
    requires
        cursor < byte_len(input@) ==> is_boundary(input@, cursor as int),
    ensures
        cursor >= byte_len(input@) ==> r.0@ == input@,
        cursor < byte_len(input@) ==> r.0@ == input@.remove(char_index(input@, cursor as int)),
        r.1 == cursor,
{
    if cursor >= byte_len_of(input) {
        return (input.to_owned(), cursor);
    }
    let result = remove_char_at(input, cursor);
    (result, cursor)
}

/// `input` without the character whose encoding starts at byte offset `k` (`String::remove`).
fn remove_char_at(input: &str, k: usize) -> (r: String)
    requires
        k < byte_len(input@),
        is_boundary(input@, k as int),
    ensures
        r@ == input@.remove(char_index(input@, k as int)),
{
    let chars = chars_of(input);
    proof {
        lemma_boundary_bounds(input@, k as int);
    }
    let j = match boundary_index(&chars, k) {
        Some(j) => j,
        None => { return input.to_owned(); },
    };
    let n = chars.len();
    assert(j < n);
    let mut r = string_of(&chars, 0, j);
    let tail = string_of(&chars, j + 1, n);
    r.append(tail.as_str());
    assert(r@ =~= input@.remove(j as int));
    r
}

/// One position left, stopping at 0.
pub fn move_backward_char(cursor: usize) -> (r: usize)
    ensures
        r == if cursor == 0 { 0 } else { cursor - 1 },
{
    if cursor == 0 {
        0
    } else {
        cursor - 1
    }
}

/// One byte right, stopping at the end of the input.
pub fn move_forward_char(input: &str, cursor: usize) -> (r: usize)
    ensures
        r == if cursor + 1 <= byte_len(input@) { cursor + 1 } else { byte_len(input@) as int },
{
    let n = byte_len_of(input);
    if cursor < n {
        cursor + 1
    } else {
        n
    }
}

/// The start of the line: offset 0.
pub fn move_start_of_line() -> (r: usize)
    ensures
        r == 0,
{
    0
}

/// The end of the line: the input's length in bytes.
pub fn move_end_of_line(input: &str) -> (r: usize)
    ensures
        r == byte_len(input@),
{
    byte_len_of(input)
}

/// Moves left over whitespace, then over the word before it (Alt-B); `cursor` counts characters.
pub fn move_backward_word(input: &str, cursor: usize) -> (r: usize)
    requires
        cursor <= input@.len(),
    ensures
        r == word_start_before(input@, cursor as int),
{
    if cursor == 0 {
        return 0;
    }
    let chars = chars_of(input);
    word_start_index(&chars, cursor)
}

fn word_start_index(chars: &Vec<char>, cursor: usize) -> (r: usize)
    requires
        cursor <= chars@.len(),
    ensures
        r == word_start_before(chars@, cursor as int),
        r <= cursor,
{
    let mut pos = cursor;
    while pos > 0 && is_whitespace(chars[pos - 1])
        invariant
            pos <= cursor <= chars@.len(),
            skip_space_left(chars@, pos as int) == skip_space_left(chars@, cursor as int),
        decreases pos,
    {
        pos = pos - 1;
    }
    let ghost mid = pos as int;
    assert(skip_space_left(chars@, pos as int) == pos);
    while pos > 0 && !is_whitespace(chars[pos - 1])
        invariant
            pos <= mid <= cursor <= chars@.len(),
            mid == skip_space_left(chars@, cursor as int),
            skip_word_left(chars@, pos as int) == skip_word_left(chars@, mid),
        decreases pos,
    {
        pos = pos - 1;
    }
    pos
}

/// Moves right over the current word, then over the whitespace after it (Alt-F).
/// At or past the end of the input in bytes it returns that length; otherwise `cursor` counts characters.
pub fn move_forward_word(input: &str, cursor: usize) -> (r: usize)
    ensures
        cursor >= byte_len(input@) ==> r == byte_len(input@),
        cursor < byte_len(input@) ==> r == word_start_after(input@, cursor as int),
{
    let n = byte_len_of(input);
    if cursor >= n {
        return n;
    }
    let chars = chars_of(input);
    let len = chars.len();
    let mut pos = cursor;
    while pos < len && !is_whitespace(chars[pos])
        invariant
            len == chars@.len(),
            cursor <= pos,
            pos < len ==> pos <= len,
            skip_word_right(chars@, pos as int) == skip_word_right(chars@, cursor as int),
        decreases len - pos,
    {
        pos = pos + 1;
    }
    let ghost mid = pos as int;
    assert(skip_word_right(chars@, pos as int) == pos);
    while pos < len && is_whitespace(chars[pos])
        invariant
            len == chars@.len(),
            mid <= pos,
            mid == skip_word_right(chars@, cursor as int),
            skip_space_right(chars@, pos as int) == skip_space_right(chars@, mid),
        decreases len - pos,
    {
        pos = pos + 1;
    }
    pos
}

/// Deletes the word before `cursor` and the whitespace after it (Control-W); `cursor` counts characters.
pub fn kill_backward_word(input: &str, cursor: usize) -> (r: (String, usize))
    requires
        cursor <= input@.len(),
    ensures
        r.1 == word_start_before(input@, cursor as int),
        r.0@ == input@.take(r.1 as int) + input@.skip(cursor as int),
{
    if cursor == 0 {
        assert(input@.take(0) + input@.skip(0) =~= input@);
        return (input.to_owned(), 0);
    }
    let chars = chars_of(input);
    let end = word_start_index(&chars, cursor);
    let mut r = string_of(&chars, 0, end);
    let tail = string_of(&chars, cursor, chars.len());
    r.append(tail.as_str());
    assert(r@ =~= input@.take(end as int) + input@.skip(cursor as int));
    (r, end)
}

/// Cuts the text before `cursor` (Control-U): returns the remaining text, cursor 0,
/// and the cut text for the clipboard.
pub fn kill_backward_line(input: &str, cursor: usize) -> (r: (String, usize, String))
    requires
        is_boundary(input@, cursor as int),
    ensures
        r.0@ == input@.skip(char_index(input@, cursor as int)),
        r.1 == 0,
        r.2@ == input@.take(char_index(input@, cursor as int)),
{
    let chars = chars_of(input);
    proof {
        lemma_boundary_bounds(input@, cursor as int);
    }
    let j = match boundary_index(&chars, cursor) {
        Some(j) => j,
        None => { return (input.to_owned(), 0, String::new()); },
    };
    let killed = string_of(&chars, 0, j);
    let remaining = string_of(&chars, j, chars.len());
    assert(remaining@ =~= input@.skip(j as int));
    assert(killed@ =~= input@.take(j as int));
    (remaining, 0, killed)
}

/// Inserts the clipboard at `cursor` (Control-Y) and moves the cursor past it.
pub fn yank(input: &str, cursor: usize, clipboard: &str) -> (r: (String, usize))
    requires
        is_boundary(input@, cursor as int),
        cursor + byte_len(clipboard@) <= usize::MAX,
    ensures
        r.0@ == input@.take(char_index(input@, cursor as int)) + clipboard@ + input@.skip(
            char_index(input@, cursor as int),
        ),
        r.1 == cursor + byte_len(clipboard@),
{
    let chars = chars_of(input);
    proof {
        lemma_boundary_bounds(input@, cursor as int);
    }
    let j = match boundary_index(&chars, cursor) {
        Some(j) => j,
        None => { return (input.to_owned(), cursor); },
    };
    let mut r = string_of(&chars, 0, j);
    r.append(clipboard);
    let tail = string_of(&chars, j, chars.len());
    r.append(tail.as_str());
    let n = byte_len_of(clipboard);
    assert(r@ =~= input@.take(j as int) + clipboard@ + input@.skip(j as int));
    (r, cursor + n)
}

} // verus!

verus! {

proof fn lemma_skip_space_left(s: Seq<char>, p: int)
    requires
        0 <= p <= s.len(),
    ensures
        0 <= skip_space_left(s, p) <= p,
        forall|i: int| skip_space_left(s, p) <= i < p ==> is_white_space(#[trigger] s[i]),
        skip_space_left(s, p) == 0 || !is_white_space(s[skip_space_left(s, p) - 1]),
    decreases p,
{
    if 0 < p && is_white_space(s[p - 1]) {
        lemma_skip_space_left(s, p - 1);
    }
}

proof fn lemma_skip_word_left(s: Seq<char>, p: int)
    requires
        0 <= p <= s.len(),
    ensures
        0 <= skip_word_left(s, p) <= p,
        forall|i: int| skip_word_left(s, p) <= i < p ==> !is_white_space(#[trigger] s[i]),
        skip_word_left(s, p) == 0 || is_white_space(s[skip_word_left(s, p) - 1]),
    decreases p,
{
    if 0 < p && !is_white_space(s[p - 1]) {
        lemma_skip_word_left(s, p - 1);
    }
}

/// What Control-W removes: the characters from the returned cursor up to `cursor` are a run
/// of non-whitespace followed by a run of whitespace, and the run of non-whitespace is a whole
/// word (it starts at the beginning of the text or right after whitespace).
pub proof fn law_kill_backward_word_removes_one_word(s: Seq<char>, cursor: int)
    requires
        0 <= cursor <= s.len(),
    ensures
        ({
            let start = word_start_before(s, cursor);
            let mid = skip_space_left(s, cursor);
            &&& 0 <= start <= mid <= cursor
            &&& forall|i: int| start <= i < mid ==> !is_white_space(#[trigger] s[i])
            &&& forall|i: int| mid <= i < cursor ==> is_white_space(#[trigger] s[i])
            &&& (start == 0 || is_white_space(s[start - 1]))
        }),
{
    lemma_skip_space_left(s, cursor);
    lemma_skip_word_left(s, skip_space_left(s, cursor));
}

/// Control-U followed by Control-Y at the new cursor gives back the text and cursor as they were.
pub proof fn law_yank_restores_killed_line(s: Seq<char>, cursor: int)
    requires
        is_boundary(s, cursor),
    ensures
        ({
            let j = char_index(s, cursor);
            let remaining = s.skip(j);
            let killed = s.take(j);
            &&& is_boundary(remaining, 0)
            &&& char_index(remaining, 0) == 0
            &&& remaining.take(0) + killed + remaining.skip(0) == s
            &&& 0 + byte_len(killed) == cursor
        }),
{
    let j = char_index(s, cursor);
    lemma_boundary_bounds(s, cursor);
    let remaining = s.skip(j);
    assert(remaining.take(0) =~= Seq::<char>::empty());
    crate::text::lemma_char_index(remaining, 0);
    assert(remaining.take(0) + s.take(j) + remaining.skip(0) =~= s);
}

/// After Backspace or Control-D the cursor is again on a character boundary of the new text,
/// at the character index where the deleted character was.
pub proof fn law_delete_keeps_cursor_on_boundary(s: Seq<char>, k: int)
    requires
        0 <= k < byte_len(s),
        is_boundary(s, k),
    ensures
        is_boundary(s.remove(char_index(s, k)), k),
        char_index(s.remove(char_index(s, k)), k) == char_index(s, k),
{
    let j = char_index(s, k);
    lemma_boundary_bounds(s, k);
    let t = s.remove(j);
    assert(t.take(j) =~= s.take(j));
    crate::text::lemma_char_index(t, j);
}

/// Moving one character right and then one left returns to the same place, inside the text.
pub proof fn law_forward_then_backward_char(s: Seq<char>, cursor: int)
    requires
        0 <= cursor < byte_len(s),
    ensures
        ({
            let f = if cursor + 1 <= byte_len(s) { cursor + 1 } else { byte_len(s) as int };
            (if f == 0 { 0 } else { f - 1 }) == cursor
        }),
{
}

/// In ASCII text every byte offset up to the end is a boundary, at the same character index,
/// so the byte-based and the character-based commands agree.
pub proof fn law_ascii_offsets_are_indices(s: Seq<char>, k: int)
    requires
        crate::text::is_ascii_text(s),
        0 <= k <= s.len(),
    ensures
        byte_len(s) == s.len(),
        is_boundary(s, k),
        char_index(s, k) == k,
{
    crate::text::lemma_ascii_byte_len(s);
    let p = s.take(k);
    assert forall|i: int| 0 <= i < p.len() implies (#[trigger] p[i] as u32) < 0x80 by {
        assert(p[i] == s[i]);
    }
    crate::text::lemma_ascii_byte_len(p);
    crate::text::lemma_char_index(s, k);
}

} // verus!
