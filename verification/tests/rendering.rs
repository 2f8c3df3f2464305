use void::highlight::{highlight_code_block, render_diff, Highlighter};
use void::message::{message_cuts_ok, message_pieces, render_piece, Piece};
use void::render::{parse_markdown_line, wrap_spans};
use void::table::{
    cell_width, column_count, data_rows, find_table_blocks, natural_widths, render_table_block,
    table_lines, table_rows, table_widths,
};
use void::types::{Color, DiffHunk, DiffLine, DiffLineKind, FileDiff, Span, Style, StyledLine};
use void::ui::{
    color_for_role, cursor_position, input_height, rendered_rows, role_line, spinner_char,
    spinner_len, status_line, thinking_line, tool_status_line,
};
use void::types::DisplayRole;

fn plain() -> Style {
    Style { fg: None, bold: false, italic: false }
}

fn colored(c: Color) -> Style {
    Style { fg: Some(c), bold: false, italic: false }
}

fn text_of(line: &StyledLine) -> String {
    let mut s = String::new();
    for span in line {
        s.push_str(&span.content);
    }
    s
}

fn one(content: &str, style: Style) -> StyledLine {
    vec![Span { content: content.to_string(), style }]
}

#[test]
fn markdown_line_styles_strong_emphasis_and_code() {
    let line = parse_markdown_line("**bold** and *it* `code`");
    let expected = vec![
        ("bold", Style { fg: Some(Color::Yellow), bold: true, italic: false }),
        (" and ", plain()),
        ("it", Style { fg: None, bold: false, italic: true }),
        (" ", plain()),
        ("code", colored(Color::Cyan)),
    ];
    assert_eq!(line.len(), expected.len());
    for (span, (text, style)) in line.iter().zip(expected.iter()) {
        assert_eq!(span.content, *text);
        assert_eq!(span.style, *style);
    }
}

#[test]
fn markdown_line_of_nothing_is_empty() {
    assert!(parse_markdown_line("").is_empty());
}

#[test]
fn wrapping_fills_lines_greedily() {
    let lines = wrap_spans(&one("hello world foo", plain()), 11);
    assert_eq!(lines.len(), 2);
    assert_eq!(text_of(&lines[0]), "hello world");
    assert_eq!(lines[0].len(), 3);
    assert_eq!(text_of(&lines[1]), "foo");
}

#[test]
fn wrapping_cuts_a_long_word() {
    let lines = wrap_spans(&one("abcdefgh", plain()), 3);
    let texts: Vec<String> = lines.iter().map(text_of).collect();
    assert_eq!(texts, vec!["abc", "def", "gh"]);
}

#[test]
fn wrapping_a_long_word_after_others_keeps_its_tail_open() {
    let lines = wrap_spans(&one("ab cdefgh ij", plain()), 3);
    let texts: Vec<String> = lines.iter().map(text_of).collect();
    assert_eq!(texts, vec!["ab", "cde", "fgh", "ij"]);
}

#[test]
fn wrapped_lines_fit_the_width() {
    let lines = wrap_spans(&one("the quick brown fox jumps over the lazy dog", plain()), 9);
    for line in &lines {
        assert!(text_of(line).chars().count() <= 9);
    }
}

#[test]
fn wrapping_nothing_gives_a_blank_line() {
    let lines = wrap_spans(&Vec::new(), 10);
    assert_eq!(lines.len(), 1);
    assert_eq!(text_of(&lines[0]), " ");
    let spaces = wrap_spans(&one("   ", plain()), 10);
    assert_eq!(spaces.len(), 1);
    assert_eq!(text_of(&spaces[0]), " ");
}

#[test]
fn wrapping_to_zero_columns_uses_one() {
    let lines = wrap_spans(&one("ab", plain()), 0);
    let texts: Vec<String> = lines.iter().map(text_of).collect();
    assert_eq!(texts, vec!["a", "b"]);
}

#[test]
fn tables_are_runs_of_two_or_more_bar_lines() {
    let text = "intro\n| a | b |\n| c | d |\nend";
    let blocks = find_table_blocks(text);
    assert_eq!(blocks, vec![(6, 25)]);
    assert_eq!(&text[6..25], "| a | b |\n| c | d |");
    assert!(find_table_blocks("only | one line").is_empty());
    assert!(find_table_blocks("```a|b\n```c|d").is_empty());
}

#[test]
fn tables_found_are_in_order() {
    let text = "| a |\n| b |\nx\n| c |\n| d |";
    let blocks = find_table_blocks(text);
    assert_eq!(blocks.len(), 2);
    assert!(blocks[0].0 < blocks[0].1);
    assert!(blocks[0].1 < blocks[1].0);
    assert!(blocks[1].0 < blocks[1].1);
}

#[test]
fn table_rows_drop_separators_and_empty_cells() {
    let rows = table_rows("| a | b |\n|---|:-:|\n| 1 |  |");
    assert_eq!(rows, vec![vec!["a".to_string(), "b".to_string()], vec!["---".to_string(), ":-:".to_string()], vec!["1".to_string()]]);
    assert_eq!(column_count(&rows), 2);
    let data = data_rows(&rows);
    assert_eq!(data, vec![vec!["a".to_string(), "b".to_string()], vec!["1".to_string()]]);
}

#[test]
fn cell_width_ignores_markup_and_link_targets() {
    assert_eq!(cell_width("**bold**"), 4);
    assert_eq!(cell_width("[docs](http://x.y)"), 4);
    assert_eq!(cell_width("a `b` c"), 5);
    assert_eq!(cell_width("[open"), 4);
}

#[test]
fn natural_widths_are_at_least_one() {
    let rows = vec![vec!["ab".to_string()], vec!["abcd".to_string(), "**".to_string()]];
    assert_eq!(natural_widths(&rows, 3), vec![4, 1, 1]);
}

#[test]
fn table_widths_fit_or_share_or_scale() {
    assert_eq!(table_widths(&vec![3, 4], 80), Some(vec![3, 4]));
    // 20 columns minus borders leave 13; 30 > 13 and 13 > 6: scaled in proportion.
    assert_eq!(table_widths(&vec![10, 20], 20), None);
    // 10 columns leave 3, which is not more than 6: an even share.
    assert_eq!(table_widths(&vec![10, 20], 10), Some(vec![1, 1]));
    assert_eq!(table_widths(&vec![5], 3), Some(vec![1]));
}

#[test]
fn table_is_drawn_with_borders_and_padding() {
    let lines = render_table_block("| a | b |\n|---|---|\n| 1 | 22 |", 80).unwrap();
    let texts: Vec<String> = lines.iter().map(text_of).collect();
    assert_eq!(texts, vec!["╭───┬────╮", "│ a │ b  │", "│ 1 │ 22 │", "╰───┴────╯"]);
    assert_eq!(lines[0][0].style, colored(Color::DarkGray));
    assert_eq!(lines[1][0].style, colored(Color::DarkGray));
}

#[test]
fn table_cells_wrap_inside_their_column() {
    let rows = vec![vec!["aa bb".to_string(), "c".to_string()]];
    let lines = table_lines(&rows, &vec![2, 1]);
    let texts: Vec<String> = lines.iter().map(text_of).collect();
    assert_eq!(texts, vec!["╭────┬───╮", "│ aa │ c │", "│ bb │   │", "╰────┴───╯"]);
}

#[test]
fn a_table_of_separators_draws_nothing() {
    assert_eq!(render_table_block("|---|\n|---|", 40).map(|l| l.len()), Some(0));
}

#[test]
fn message_splits_into_prose_code_and_prose() {
    let text = "Hi\n```rust\nfn x() {}\n```\nBye";
    assert!(message_cuts_ok(text));
    let pieces = message_pieces(text);
    assert_eq!(pieces.len(), 3);
    assert!(matches!(&pieces[0], Piece::Prose(p) if p == "Hi\n"));
    assert!(matches!(&pieces[1], Piece::Code(c, l) if c == "fn x() {}\n" && l == "rust"));
    assert!(matches!(&pieces[2], Piece::Prose(p) if p == "\nBye"));
}

#[test]
fn an_unclosed_fence_is_prose() {
    let pieces = message_pieces("a\n```\nb");
    assert_eq!(pieces.len(), 1);
    assert!(matches!(&pieces[0], Piece::Prose(p) if p == "a\n```\nb"));
}

#[test]
fn message_tables_become_table_pieces() {
    let pieces = message_pieces("x\n| a |\n| b |\n");
    assert_eq!(pieces.len(), 3);
    assert!(matches!(&pieces[0], Piece::Prose(p) if p == "x\n"));
    assert!(matches!(&pieces[1], Piece::Table(t) if t == "| a |\n| b |"));
    assert!(matches!(&pieces[2], Piece::Prose(p) if p == "\n"));
}

#[test]
fn prose_pieces_render_line_by_line() {
    let h = Highlighter::new();
    let lines = render_piece(&h, &Piece::Prose("\nBye **now**".to_string()), 80).unwrap();
    assert_eq!(lines.len(), 2);
    assert!(lines[0].is_empty());
    assert_eq!(text_of(&lines[1]), "Bye now");
}

#[test]
fn code_blocks_are_highlighted_line_by_line() {
    let h = Highlighter::new();
    let lines = highlight_code_block(&h, "fn main() {}\nlet x = 1;", "rust");
    assert_eq!(lines.len(), 2);
    assert_eq!(text_of(&lines[0]), "fn main() {}");
    assert_eq!(text_of(&lines[1]), "let x = 1;");
    for line in &lines {
        for span in line {
            assert!(matches!(span.style.fg, Some(Color::Rgb(_, _, _))));
        }
    }
    let empty = highlight_code_block(&h, "a\n\nb", "nosuchlanguage");
    assert_eq!(empty.len(), 3);
    assert_eq!(empty[1].len(), 1);
    assert_eq!(empty[1][0].content, "");
}

#[test]
fn diffs_show_numbers_markers_and_separators() {
    let h = Highlighter::new();
    let diff = FileDiff {
        path: "notes.txt".to_string(),
        hunks: vec![
            DiffHunk { lines: vec![DiffLine { kind: DiffLineKind::Added, lineno: 1, content: "a".to_string() }] },
            DiffHunk {
                lines: vec![
                    DiffLine { kind: DiffLineKind::Removed, lineno: 15, content: "b".to_string() },
                    DiffLine { kind: DiffLineKind::Context, lineno: 16, content: "c".to_string() },
                ],
            },
        ],
    };
    let lines = render_diff(&h, &diff, "Plain Text");
    assert_eq!(lines.len(), 4);
    assert_eq!(text_of(&lines[0]), "   1 + a");
    assert_eq!(lines[0][0].style, colored(Color::DarkGray));
    assert_eq!(lines[0][2].style, colored(Color::Green));
    assert_eq!(lines[0][4].style, colored(Color::Green));
    assert_eq!(text_of(&lines[1]), "~~~ (hunk separator) ~~~");
    assert_eq!(text_of(&lines[2]), "  15 - b");
    assert_eq!(lines[2][4].style, colored(Color::Red));
    assert_eq!(text_of(&lines[3]), "  16   c");
    assert!(matches!(lines[3][4].style.fg, Some(Color::Rgb(_, _, _))));
}

#[test]
fn input_box_grows_with_lines_up_to_twelve() {
    assert_eq!(input_height(""), 3);
    assert_eq!(input_height("a\nb"), 4);
    assert_eq!(input_height(&"\n".repeat(20)), 12);
}

#[test]
fn rows_count_wrapped_lines() {
    let lines = vec![one("abcdef", plain()), Vec::new(), one("abcd", plain())];
    assert_eq!(rendered_rows(&lines, 4), 4);
}

#[test]
fn status_line_pads_the_metrics_to_the_right() {
    assert_eq!(status_line(false, true, 0, "1.0ms 60fps", 30), "⠋ waiting...    1.0ms 60fps");
    assert_eq!(status_line(true, false, 0, "m", 10), "Press again to exitm");
    assert_eq!(status_line(true, true, 0, "m", 25), "Press again to cancel  m");
    assert_eq!(status_line(false, false, 0, "m", 5), "   m");
}

#[test]
fn spinner_has_ten_frames() {
    assert_eq!(spinner_len(), 10);
    assert_eq!(spinner_char(0), '⠋');
    assert_eq!(spinner_char(9), '⠏');
    assert_eq!(spinner_char(10), ' ');
}

#[test]
fn tool_status_shows_the_spinner() {
    let line = tool_status_line("Executing Read...", 12);
    assert_eq!(line.len(), 1);
    assert_eq!(line[0].content, "  ⠹ Executing Read...");
    assert_eq!(line[0].style, colored(Color::Yellow));
}

#[test]
fn cursor_position_counts_rows_and_bytes() {
    assert_eq!(cursor_position("ab\ncd", 4), (1, 1));
    assert_eq!(cursor_position("ab\ncd", 2), (0, 2));
    assert_eq!(cursor_position("é\nx", 4), (1, 1));
}

#[test]
fn roles_have_colors() {
    assert_eq!(color_for_role(DisplayRole::User), Color::Cyan);
    assert_eq!(color_for_role(DisplayRole::Assistant), Color::White);
    assert_eq!(color_for_role(DisplayRole::ToolActivity), Color::Yellow);
}

#[test]
fn thinking_is_italic_and_gray() {
    let line = vec![
        Span { content: "x".to_string(), style: plain() },
        Span { content: "y".to_string(), style: colored(Color::Red) },
    ];
    let t = thinking_line(&line);
    assert_eq!(t[0].style, Style { fg: Some(Color::DarkGray), bold: false, italic: true });
    assert_eq!(t[1].style, Style { fg: Some(Color::Red), bold: false, italic: true });
}

#[test]
fn uncolored_text_takes_the_role_color() {
    let line = vec![
        Span { content: "x".to_string(), style: Style { fg: None, bold: false, italic: true } },
        Span { content: "y".to_string(), style: colored(Color::Red) },
    ];
    let r = role_line(&line, DisplayRole::User);
    assert_eq!(r[0].style, colored(Color::Cyan));
    assert_eq!(r[0].content, "x");
    assert_eq!(r[1].style, colored(Color::Red));
}

#[test]
fn drawn_tables_are_rectangular() {
    let rows = vec![vec!["a long cell".to_string(), "**b**".to_string()], vec!["c".to_string()]];
    let lines = table_lines(&rows, &vec![4, 2]);
    assert_eq!(lines.len(), 2 + 3 + 1);
    let width = 1 + (4 + 3) + (2 + 3);
    for line in &lines {
        assert_eq!(text_of(line).chars().count(), width);
    }
}

#[test]
fn table_offsets_that_cut_a_character_are_reported() {
    // `str::lines` drops the `\r`, so the second line's end is counted one byte short and
    // falls inside the `é`.
    assert!(!message_cuts_ok("| é |\r\n| bé"));
    assert!(message_cuts_ok("| a |\n| b |"));
}

#[test]
fn plain_messages_are_one_prose_piece() {
    let text = "just *words*\nover two lines";
    assert!(message_cuts_ok(text));
    let pieces = message_pieces(text);
    assert_eq!(pieces.len(), 1);
    assert!(matches!(&pieces[0], Piece::Prose(p) if p == text));
}

#[test]
fn fenced_bars_are_code_not_a_table() {
    let h = Highlighter::new();
    let pieces = message_pieces("```\n|a|\n|b|\n```");
    assert_eq!(pieces.len(), 1);
    let lines = render_piece(&h, &pieces[0], 80).unwrap();
    assert_eq!(lines.len(), 2);
    assert_eq!(text_of(&lines[0]), "|a|");
    assert_eq!(text_of(&lines[1]), "|b|");
}

#[test]
fn diff_line_text_follows_the_marker() {
    let h = Highlighter::new();
    let diff = FileDiff {
        path: "m.rs".to_string(),
        hunks: vec![DiffHunk {
            lines: vec![
                DiffLine { kind: DiffLineKind::Context, lineno: 9, content: "let a = 1;".to_string() },
                DiffLine { kind: DiffLineKind::Added, lineno: 10, content: "let b = 2;".to_string() },
            ],
        }],
    };
    let lines = render_diff(&h, &diff, "Rust");
    assert_eq!(lines.len(), 2);
    let rest: String = lines[1][4..].iter().map(|s| s.content.clone()).collect();
    assert_eq!(rest, "let b = 2;");
    for span in &lines[1][4..] {
        assert_eq!(span.style.fg, Some(Color::Green));
    }
    let kept: String = lines[0][4..].iter().map(|s| s.content.clone()).collect();
    assert_eq!(kept, "let a = 1;");
}
