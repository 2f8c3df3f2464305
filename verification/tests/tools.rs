use void::tool::{
    bash_output, compute_diff, edit_content, edit_summary, format_tool_call, format_truncated,
    glob_output, grep_file, grep_output, is_command_match, no_files_match, plan_tool,
    read_output, trim_dot_slash, truncate_line, validate_bash_command, write_summary,
    ToolRequest, MAX_LINE_WIDTH,
};
use void::types::{DiffLineKind, Json};

fn args(pairs: &[(&str, Json)]) -> Vec<(String, Json)> {
    let mut v = Vec::new();
    for (k, j) in pairs {
        let copy = match j {
            Json::Str(s) => Json::Str(s.clone()),
            Json::Number(n) => Json::Number(*n),
            Json::Bool(b) => Json::Bool(*b),
            _ => Json::Null,
        };
        v.push((k.to_string(), copy));
    }
    v
}

fn text(s: &str) -> Json {
    Json::Str(s.to_string())
}

#[test]
fn tool_calls_are_labelled_by_their_main_argument() {
    assert_eq!(format_tool_call("Read", &args(&[("filePath", text("a.rs")), ("offset", Json::Number(Some(5)))])), "Read a.rs (offset: 5)");
    assert_eq!(format_tool_call("Read", &args(&[("filePath", text("a.rs"))])), "Read a.rs");
    assert_eq!(format_tool_call("Glob", &args(&[("pattern", text("*.rs"))])), "Glob *.rs");
    assert_eq!(format_tool_call("Grep", &args(&[("pattern", text("fn"))])), "Grep fn in ?");
    assert_eq!(format_tool_call("Bash", &args(&[("command", text("ls"))])), "Bash ls");
    assert_eq!(format_tool_call("Edit", &args(&[("path", Json::Bool(true))])), "Edit ?");
    assert_eq!(format_tool_call("Other", &args(&[])), "Other");
}

#[test]
fn diff_without_context_shows_only_changes() {
    let d = compute_diff("a\nb\nc\n", "a\nB\nc\n", "f.txt", 0);
    assert_eq!(d.path, "f.txt");
    assert_eq!(d.hunks.len(), 1);
    let lines: Vec<(DiffLineKind, usize, String)> = d.hunks[0].lines.iter().map(|l| (l.kind, l.lineno, l.content.clone())).collect();
    assert_eq!(lines, vec![(DiffLineKind::Removed, 2, "b".to_string()), (DiffLineKind::Added, 2, "B".to_string())]);
}

#[test]
fn diff_context_joins_nearby_changes() {
    let d = compute_diff("a\nb\nc\n", "a\nB\nc\n", "f.txt", 2);
    assert_eq!(d.hunks.len(), 1);
    let numbers: Vec<usize> = d.hunks[0].lines.iter().map(|l| l.lineno).collect();
    assert_eq!(numbers, vec![1, 2, 2, 3]);
}

#[test]
fn diff_of_far_changes_has_two_hunks() {
    let d = compute_diff("1\n2\n3\n4\n5\n6\n", "x\n2\n3\n4\n5\ny\n", "f", 1);
    assert_eq!(d.hunks.len(), 2);
    assert_eq!(d.hunks[0].lines[0].kind, DiffLineKind::Removed);
    assert_eq!(d.hunks[1].lines.last().unwrap().lineno, 6);
}

#[test]
fn diff_of_equal_texts_is_empty() {
    assert!(compute_diff("same\n", "same\n", "f", 3).hunks.is_empty());
}

#[test]
fn long_lines_are_cut() {
    let long = "a".repeat(MAX_LINE_WIDTH + 1);
    let cut = truncate_line(&long);
    assert_eq!(cut.len(), MAX_LINE_WIDTH + 3);
    assert!(cut.ends_with("a..."));
    assert_eq!(truncate_line("short"), "short");
}

#[test]
fn long_output_keeps_head_and_tail() {
    let lines: Vec<String> = (0..501).map(|i| format!("line{}", i)).collect();
    let out = format_truncated(&lines);
    assert!(out.starts_with("line0\nline1\n"));
    assert!(out.contains("line449\n\n[... 1 lines truncated ...]\n\nline451\n"));
    assert!(out.ends_with("line500"));
    let short: Vec<String> = vec!["a".to_string(), "b".to_string()];
    assert_eq!(format_truncated(&short), "a\nb");
}

#[test]
fn dangerous_commands_are_refused() {
    assert_eq!(validate_bash_command("rm -rf /"), Err("Command blocked for safety: file deletion (data loss risk)".to_string()));
    assert_eq!(validate_bash_command("ls; rm x"), Err("Command blocked for safety: file deletion (data loss risk)".to_string()));
    assert_eq!(validate_bash_command("RM x"), Err("Command blocked for safety: file deletion (data loss risk)".to_string()));
    assert_eq!(validate_bash_command("dd if=/dev/zero of=x"), Err("Command blocked for safety: disk write operations (data destruction risk)".to_string()));
    assert_eq!(validate_bash_command("git push --force"), Err("Command blocked for safety: force git push (overwrites history)".to_string()));
    assert_eq!(validate_bash_command("echo hi\nshutdown now"), Err("Command blocked for safety: system shutdown (would interrupt session)".to_string()));
}

#[test]
fn ordinary_commands_are_allowed() {
    assert_eq!(validate_bash_command("ls -la"), Ok(()));
    assert_eq!(validate_bash_command("git push origin main"), Ok(()));
    assert_eq!(validate_bash_command("cargo build"), Ok(()));
}

#[test]
fn commands_match_at_start_or_after_an_operator() {
    assert!(is_command_match("rm x", "rm "));
    assert!(is_command_match("ls && rm x", "rm "));
    assert!(is_command_match("a | rm x", "rm "));
    assert!(!is_command_match("echo rm x", "rm "));
}

#[test]
fn edits_replace_a_unique_occurrence() {
    assert_eq!(edit_content("hello world", "world", "there"), Ok("hello there".to_string()));
    assert_eq!(edit_content("hello", "zzz", "x"), Err("old_string not found in file".to_string()));
    assert_eq!(edit_content("abc abc", "abc", "x"), Err("old_string appears 2 times (must be unique)".to_string()));
}

#[test]
fn tools_check_their_arguments() {
    match plan_tool("Read", &args(&[("filePath", text("a.txt")), ("offset", Json::Number(Some(3)))])) {
        Ok(ToolRequest::Read { path, offset }) => {
            assert_eq!(path, "a.txt");
            assert_eq!(offset, 2);
        },
        _ => panic!("expected a read"),
    }
    assert!(matches!(plan_tool("Read", &args(&[])), Err(e) if e == "Missing or invalid 'filePath'"));
    assert!(matches!(plan_tool("Grep", &args(&[("pattern", text("x"))])), Err(e) if e == "Missing or invalid 'files'"));
    assert!(matches!(plan_tool("Grep", &args(&[("pattern", text("(")), ("files", text("*"))])), Err(e) if e.starts_with("Invalid regex: ")));
    assert!(matches!(plan_tool("Bash", &args(&[("command", text("rm x"))])), Err(e) if e == "Command blocked for safety: file deletion (data loss risk)"));
    assert!(matches!(plan_tool("Bash", &args(&[("command", text("ls"))])), Ok(ToolRequest::Bash { command }) if command == "ls"));
    assert!(matches!(plan_tool("Write", &args(&[("path", text("p")), ("content", text("c"))])), Ok(ToolRequest::Write { path, content }) if path == "p" && content == "c"));
    assert!(matches!(plan_tool("Edit", &args(&[("path", text("p")), ("old_string", text("o"))])), Err(e) if e == "Missing or invalid 'new_string'"));
    assert!(matches!(plan_tool("Glob", &args(&[("pattern", text("*.md"))])), Ok(ToolRequest::Glob { pattern }) if pattern == "*.md"));
    assert!(matches!(plan_tool("Nope", &args(&[])), Err(e) if e == "Unknown tool: Nope"));
}

#[test]
fn reads_start_at_the_offset() {
    assert_eq!(read_output("a\nb\nc", 1), "b\nc");
    assert_eq!(read_output("a\nb\nc", 0), "a\nb\nc");
    assert_eq!(read_output("a\nb\nc", 7), "");
}

#[test]
fn glob_results_are_sorted() {
    assert_eq!(glob_output("*.rs", vec!["b.rs".to_string(), "a.rs".to_string()]), "a.rs\nb.rs");
    assert_eq!(glob_output("*.rs", Vec::new()), "No files match pattern: *.rs");
    assert_eq!(no_files_match("x"), "No files match pattern: x");
    assert_eq!(trim_dot_slash("././src/a.rs"), "src/a.rs");
    assert_eq!(trim_dot_slash("src/./a.rs"), "src/./a.rs");
}

#[test]
fn grep_lists_matching_lines_with_numbers() {
    let pattern = match plan_tool("Grep", &args(&[("pattern", text("b+")), ("files", text("*"))])) {
        Ok(ToolRequest::Grep { pattern, pattern_text, files }) => {
            assert_eq!(pattern_text, "b+");
            assert_eq!(files, "*");
            pattern
        },
        _ => panic!("expected a search"),
    };
    let hits = grep_file(&pattern, "f.txt", "abc\nxyz\nbb");
    assert_eq!(hits, vec!["f.txt:1: abc".to_string(), "f.txt:3: bb".to_string()]);
    assert_eq!(grep_output("b+", &hits), "f.txt:1: abc\nf.txt:3: bb");
    assert_eq!(grep_output("q", &Vec::new()), "No matches found for pattern: q");
}

#[test]
fn command_output_prefers_stdout_then_stderr_then_status() {
    assert_eq!(bash_output(true, "out\nmore\n", "ignored", ""), "out\nmore");
    assert_eq!(bash_output(false, "x", "err", "exit status: 1"), "err");
    assert_eq!(bash_output(false, "x", "", "exit status: 2"), "Command exited with status: exit status: 2");
}

#[test]
fn summaries_name_the_file() {
    assert_eq!(write_summary("f", "héllo"), "Written 6 bytes to f");
    assert_eq!(edit_summary("f"), "Edited f");
}

#[test]
fn diff_with_full_context_lists_every_line() {
    let d = compute_diff("a  \nb\n", "a\nc\nd", "f", 10);
    assert_eq!(d.hunks.len(), 1);
    let lines: Vec<(DiffLineKind, usize, String)> = d.hunks[0].lines.iter().map(|l| (l.kind, l.lineno, l.content.clone())).collect();
    assert_eq!(
        lines,
        vec![
            (DiffLineKind::Removed, 1, "a".to_string()),
            (DiffLineKind::Removed, 2, "b".to_string()),
            (DiffLineKind::Added, 1, "a".to_string()),
            (DiffLineKind::Added, 2, "c".to_string()),
            (DiffLineKind::Added, 3, "d".to_string()),
        ]
    );
}

#[test]
fn diff_lines_end_at_a_lone_carriage_return() {
    let d = compute_diff("x\ry\n", "x\rz\n", "f", 5);
    assert_eq!(d.hunks.len(), 1);
    let lines: Vec<(DiffLineKind, usize, String)> = d.hunks[0].lines.iter().map(|l| (l.kind, l.lineno, l.content.clone())).collect();
    assert_eq!(
        lines,
        vec![
            (DiffLineKind::Context, 1, "x".to_string()),
            (DiffLineKind::Removed, 2, "y".to_string()),
            (DiffLineKind::Added, 2, "z".to_string()),
        ]
    );
}
