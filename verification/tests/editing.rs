use void::input::{
    delete_backward_char, delete_forward_char, handle_user_input, kill_backward_line,
    kill_backward_word, move_backward_char, move_backward_word, move_end_of_line,
    move_forward_char, move_forward_word, move_start_of_line, yank, Command, KeyCode, KeyEvent,
};
use void::state::insert_char;

fn press(code: KeyCode) -> KeyEvent {
    KeyEvent { code, press: true, control: false, alt: false }
}

fn ctrl(c: char) -> KeyEvent {
    KeyEvent { code: KeyCode::Char(c), press: true, control: true, alt: false }
}

fn alt(c: char) -> KeyEvent {
    KeyEvent { code: KeyCode::Char(c), press: true, control: false, alt: true }
}

#[test]
fn control_keys_edit_the_line() {
    assert!(handle_user_input(ctrl('a'), "") == Command::MoveStartOfLine);
    assert!(handle_user_input(ctrl('e'), "") == Command::MoveEndOfLine);
    assert!(handle_user_input(ctrl('b'), "") == Command::MoveBackwardChar);
    assert!(handle_user_input(ctrl('f'), "") == Command::MoveForwardChar);
    assert!(handle_user_input(ctrl('d'), "") == Command::DeleteForwardChar);
    assert!(handle_user_input(ctrl('u'), "") == Command::KillBackwardLine);
    assert!(handle_user_input(ctrl('w'), "") == Command::KillBackwardWord);
    assert!(handle_user_input(ctrl('y'), "") == Command::Yank);
    assert!(handle_user_input(ctrl('o'), "") == Command::ToggleToolDetail);
    assert!(handle_user_input(ctrl('c'), "") == Command::Exit);
}

#[test]
fn alt_keys_move_by_words() {
    assert!(handle_user_input(alt('b'), "x") == Command::MoveBackwardWord);
    assert!(handle_user_input(alt('f'), "x") == Command::MoveForwardWord);
}

#[test]
fn plain_keys_insert_submit_and_leave() {
    assert!(handle_user_input(press(KeyCode::Char('q')), "") == Command::InsertChar('q'));
    assert!(handle_user_input(press(KeyCode::Enter), "hello") == Command::SubmitInput("hello".to_string()));
    assert!(handle_user_input(press(KeyCode::Esc), "") == Command::Exit);
    assert!(handle_user_input(press(KeyCode::Left), "") == Command::MoveBackwardChar);
    assert!(handle_user_input(press(KeyCode::Right), "") == Command::MoveForwardChar);
    assert!(handle_user_input(press(KeyCode::Backspace), "") == Command::DeleteBackwardChar);
    assert!(handle_user_input(press(KeyCode::Other), "") == Command::Noop);
}

#[test]
fn releases_do_nothing() {
    let key = KeyEvent { code: KeyCode::Char('a'), press: false, control: true, alt: false };
    assert!(handle_user_input(key, "abc") == Command::Noop);
}

#[test]
fn control_with_another_letter_inserts_it() {
    assert!(handle_user_input(ctrl('z'), "") == Command::InsertChar('z'));
}

#[test]
fn delete_backward_removes_the_character_before_the_cursor() {
    assert_eq!(delete_backward_char("abc", 2), ("ac".to_string(), 1));
    assert_eq!(delete_backward_char("abc", 0), ("abc".to_string(), 0));
}

#[test]
fn delete_forward_removes_the_character_at_the_cursor() {
    assert_eq!(delete_forward_char("abc", 1), ("ac".to_string(), 1));
    assert_eq!(delete_forward_char("abc", 3), ("abc".to_string(), 3));
}

#[test]
fn cursor_moves_stay_within_the_line() {
    assert_eq!(move_backward_char(0), 0);
    assert_eq!(move_backward_char(3), 2);
    assert_eq!(move_forward_char("ab", 1), 2);
    assert_eq!(move_forward_char("ab", 2), 2);
    assert_eq!(move_start_of_line(), 0);
    assert_eq!(move_end_of_line("héllo"), 6);
}

#[test]
fn word_moves_skip_spaces_and_words() {
    assert_eq!(move_backward_word("hello world", 11), 6);
    assert_eq!(move_backward_word("hello world  ", 13), 6);
    assert_eq!(move_backward_word("hello", 0), 0);
    assert_eq!(move_forward_word("hello world", 0), 6);
    assert_eq!(move_forward_word("hello world", 6), 11);
    assert_eq!(move_forward_word("hello", 9), 5);
}

#[test]
fn kill_backward_word_removes_one_word() {
    assert_eq!(kill_backward_word("hello world", 11), ("hello ".to_string(), 6));
    assert_eq!(kill_backward_word("one two  three", 9), ("one three".to_string(), 4));
    assert_eq!(kill_backward_word("abc", 0), ("abc".to_string(), 0));
}

#[test]
fn kill_backward_line_keeps_what_follows_the_cursor() {
    assert_eq!(
        kill_backward_line("hello world", 6),
        ("world".to_string(), 0, "hello ".to_string())
    );
}

#[test]
fn yank_restores_the_killed_line() {
    let (rest, cursor, killed) = kill_backward_line("hello world", 6);
    let (back, c) = yank(&rest, cursor, &killed);
    assert_eq!(back, "hello world");
    assert_eq!(c, 6);
}

#[test]
fn yank_inserts_at_the_cursor() {
    assert_eq!(yank("ad", 1, "bc"), ("abcd".to_string(), 3));
}

#[test]
fn forward_then_backward_returns_to_the_same_place() {
    let c = move_forward_char("abc", 1);
    assert_eq!(move_backward_char(c), 1);
}

#[test]
fn insert_char_goes_at_the_cursor() {
    assert_eq!(insert_char("ac", 1, 'b'), "abc");
    assert_eq!(insert_char("", 0, 'x'), "x");
}

#[test]
fn deleting_a_wide_character_keeps_the_cursor_on_a_boundary() {
    let (text, cursor) = delete_forward_char("éa", 0);
    assert_eq!(text, "a");
    assert_eq!(cursor, 0);
    assert!(text.is_char_boundary(cursor));
    let (text, cursor) = delete_backward_char("aéb", 1);
    assert_eq!(text, "éb");
    assert_eq!(cursor, 0);
}
