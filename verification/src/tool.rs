//! The tools the model can call: how a call is shown, which commands are refused, how output
//! is cut to size, how edits and diffs are computed. Reading and writing files, listing them
//! and running commands is done by the application.
use vstd::prelude::*;
use crate::text::{
    byte_len, byte_len_of, chars_of, decimal, decimal_of, is_boundary, string_of,
};
use crate::types::{
    Json, as_text, as_u64, member, member_get, opt_value, json_str, json_u64, DiffLineKind,
    DiffLine, DiffHunk, FileDiff,
};
use crate::text::{
    trailing_space, is_whitespace, is_white_space, slice_of, char_index, boundary_index, find_from,
    find_in, starts_with, starts_with_in, lemma_find_from_bounds, lemma_boundary_bounds,
    push_char, contains_seq, contains_in, str_eq, lines, lines_of,
};

verus! {

/// The text of member `key` of the arguments, or `?`.
pub open spec fn arg_text(args: Seq<(String, Json)>, key: Seq<char>) -> Seq<char> {
    match as_text(member(args, key)) {
        Some(t) => t,
        None => "?"@,
    }
}

/// How a tool call is shown: the tool's name and its main argument
/// (e.g. `Read src/main.rs` rather than the JSON arguments).
pub open spec fn tool_label(name: Seq<char>, args: Seq<(String, Json)>) -> Seq<char> {
    if name == "Read"@ {
        let path = arg_text(args, "filePath"@);
        name + " "@ + match as_u64(member(args, "offset"@)) {
            Some(o) => path + " (offset: "@ + decimal(o as nat) + ")"@,
            None => path,
        }
    } else if name == "Glob"@ {
        name + " "@ + arg_text(args, "pattern"@)
    } else if name == "Grep"@ {
        name + " "@ + arg_text(args, "pattern"@) + " in "@ + arg_text(args, "files"@)
    } else if name == "Bash"@ {
        name + " "@ + arg_text(args, "command"@)
    } else if name == "Write"@ || name == "Edit"@ {
        name + " "@ + arg_text(args, "path"@)
    } else {
        name
    }
}

fn arg_text_of(args: &Vec<(String, Json)>, key: &str) -> (r: String)
    ensures
        r@ == arg_text(args@, key@),
{
    match json_str(member_get(args, key)) {
        Some(s) => s.clone(),
        None => "?".to_owned(),
    }
}

fn append_str(s: &mut String, t: &str)
    ensures
        final(s)@ == old(s)@ + t@,
{
    s.append(t);
}

/// Formats a tool call for display (e.g. `Read src/main.rs` instead of the full JSON arguments).
pub fn format_tool_call(tool_name: &str, args: &Vec<(String, Json)>) -> (r: String)
    ensures
        r@ == tool_label(tool_name@, args@),
{
    let n = tool_name;
    let mut out = tool_name.to_owned();
    if crate::text::str_eq(n, "Read") {
        let path = arg_text_of(args, "filePath");
        append_str(&mut out, " ");
        append_str(&mut out, path.as_str());
        match json_u64(member_get(args, "offset")) {
            Some(o) => {
                append_str(&mut out, " (offset: ");
                let d = decimal_of(o);
                let ds = string_of(&d, 0, d.len());
                assert(d@.subrange(0, d@.len() as int) =~= d@);
                append_str(&mut out, ds.as_str());
                append_str(&mut out, ")");
            },
            None => {},
        }
    } else if crate::text::str_eq(n, "Glob") {
        append_str(&mut out, " ");
        append_str(&mut out, arg_text_of(args, "pattern").as_str());
    } else if crate::text::str_eq(n, "Grep") {
        append_str(&mut out, " ");
        append_str(&mut out, arg_text_of(args, "pattern").as_str());
        append_str(&mut out, " in ");
        append_str(&mut out, arg_text_of(args, "files").as_str());
    } else if crate::text::str_eq(n, "Bash") {
        append_str(&mut out, " ");
        append_str(&mut out, arg_text_of(args, "command").as_str());
    } else if crate::text::str_eq(n, "Write") || crate::text::str_eq(n, "Edit") {
        append_str(&mut out, " ");
        append_str(&mut out, arg_text_of(args, "path").as_str());
    }
    assert(out@ =~= tool_label(tool_name@, args@));
    out
}


/// The line-by-line changes `similar::TextDiff::from_lines(old, new)` reports, in order:
/// each a kind (`Equal` as context, `Insert` as added, `Delete` as removed) and the line's text.
pub uninterp spec fn line_changes(old: Seq<char>, new: Seq<char>) -> Seq<(DiffLineKind, Seq<char>)>;

/// The texts of the changes of one side, one after another, leaving out the changes of kind
/// `other`: with `other` the added lines this spells the old text, with `other` the removed
/// lines the new one.
pub open spec fn side_text(ch: Seq<(DiffLineKind, Seq<char>)>, other: DiffLineKind) -> Seq<char>
    decreases ch.len(),
{
    if ch.len() == 0 {
        seq![]
    } else {
        side_text(ch.drop_last(), other) + if ch.last().0 == other { seq![] } else { ch.last().1 }
    }
}

/// The texts of the changes that are not of kind `other`, in order.
pub open spec fn side_lines(ch: Seq<(DiffLineKind, Seq<char>)>, other: DiffLineKind) -> Seq<Seq<char>>
    decreases ch.len(),
{
    if ch.len() == 0 {
        seq![]
    } else {
        side_lines(ch.drop_last(), other) + if ch.last().0 == other { seq![] } else { seq![ch.last().1] }
    }
}

/// The position of the first line break (`\n` or `\r`) in `s` at or after `i`.
pub open spec fn break_from(s: Seq<char>, i: int) -> Option<int>
    decreases s.len() - i,
{
    if i < 0 || i >= s.len() {
        None
    } else if s[i] == '\n' || s[i] == '\r' {
        Some(i)
    } else {
        break_from(s, i + 1)
    }
}

/// A line break found from `i` on lies between `i` and the end of `s`.
pub proof fn lemma_break_from_bounds(s: Seq<char>, i: int)
    requires
        0 <= i,
    ensures
        break_from(s, i) matches Some(j) ==> i <= j < s.len(),
    decreases s.len() - i,
{
    if i < s.len() && !(s[i] == '\n' || s[i] == '\r') {
        lemma_break_from_bounds(s, i + 1);
    }
}

/// The lines a text is compared by: cut after each `\n`, after each `\r\n` and after each
/// `\r` that no `\n` follows, every line keeping its ending; a last line without an ending
/// is kept when it is not empty.
pub open spec fn line_tokens(s: Seq<char>) -> Seq<Seq<char>>
    decreases s.len(),
{
    if s.len() == 0 {
        seq![]
    } else {
        proof {
            lemma_break_from_bounds(s, 0);
        }
        match break_from(s, 0) {
            Some(i) => {
                let end = if s[i] == '\r' && i + 1 < s.len() && s[i + 1] == '\n' { i + 2 } else { i + 1 };
                seq![s.take(end)] + line_tokens(s.skip(end))
            },
            None => seq![s],
        }
    }
}

/// Runs `similar::TextDiff::from_lines(old, new).iter_all_changes()`; the result is
/// `line_changes` of the two texts. similar cuts both texts into lines with `tokenize_lines`
/// (`line_tokens`) and diffs those, so the kept and removed changes are the old text's lines
/// and the kept and added ones the new text's, in order; texts that are equal give only kept
/// lines, since the diff first takes their common prefix, which is all of them.
#[verifier::external_body]
fn diff_lines_of(old: &str, new: &str) -> (r: Vec<(DiffLineKind, String)>)
    ensures
        r@.len() == line_changes(old@, new@).len(),
        side_text(r@.map_values(|c: (DiffLineKind, String)| (c.0, c.1@)), DiffLineKind::Added) == old@,
        side_text(r@.map_values(|c: (DiffLineKind, String)| (c.0, c.1@)), DiffLineKind::Removed) == new@,
        side_lines(r@.map_values(|c: (DiffLineKind, String)| (c.0, c.1@)), DiffLineKind::Added)
            == line_tokens(old@),
        side_lines(r@.map_values(|c: (DiffLineKind, String)| (c.0, c.1@)), DiffLineKind::Removed)
            == line_tokens(new@),
        old@ == new@ ==> forall|i: int| 0 <= i < r@.len() ==> (#[trigger] r@[i]).0 == DiffLineKind::Context,
        forall|i: int| 0 <= i < r@.len() ==> (#[trigger] r@[i]).0 == line_changes(old@, new@)[i].0
            && r@[i].1@ == line_changes(old@, new@)[i].1,
{
    similar::TextDiff::from_lines(old, new).iter_all_changes().map(|c| (match c.tag() {
        similar::ChangeTag::Equal => DiffLineKind::Context,
        similar::ChangeTag::Insert => DiffLineKind::Added,
        similar::ChangeTag::Delete => DiffLineKind::Removed,
    }, c.value().to_string())).collect()
}

/// `s` without trailing whitespace (`str::trim_end`).
pub open spec fn trim_end(s: Seq<char>) -> Seq<char> {
    s.take(s.len() - trailing_space(s))
}

/// Number of changes before `i` that are not of kind `k`.
pub open spec fn count_not(ch: Seq<(DiffLineKind, Seq<char>)>, k: DiffLineKind, i: int) -> int
    decreases i,
{
    if i <= 0 {
        0
    } else {
        count_not(ch, k, i - 1) + if ch[i - 1].0 != k { 1int } else { 0 }
    }
}

/// A numbered diff line: kind, line number (in the new text for context and added lines, in
/// the old text for removed ones, counting from 1) and text without trailing whitespace.
pub type NumberedLine = (DiffLineKind, int, Seq<char>);

pub open spec fn numbered(ch: Seq<(DiffLineKind, Seq<char>)>) -> Seq<NumberedLine> {
    Seq::new(
        ch.len(),
        |i: int|
            (ch[i].0, if ch[i].0 == DiffLineKind::Removed {
                count_not(ch, DiffLineKind::Added, i) + 1
            } else {
                count_not(ch, DiffLineKind::Removed, i) + 1
            }, trim_end(ch[i].1)),
    )
}

/// Line `i` is within `context` lines of a change.
pub open spec fn near_change(ls: Seq<NumberedLine>, i: int, context: int) -> bool {
    exists|c: int| 0 <= c < ls.len() && ls[c].0 != DiffLineKind::Context && c - context <= i <= c + context
}

/// The hunks: maximal runs of consecutive lines that are near a change, from line `i` on,
/// with `cur` the run being collected.
pub open spec fn hunks_from(ls: Seq<NumberedLine>, context: int, i: int, cur: Seq<NumberedLine>) -> Seq<Seq<NumberedLine>>
    decreases ls.len() - i,
{
    if i >= ls.len() || i < 0 {
        if cur.len() > 0 { seq![cur] } else { seq![] }
    } else if near_change(ls, i, context) {
        hunks_from(ls, context, i + 1, cur.push(ls[i]))
    } else {
        (if cur.len() > 0 { seq![cur] } else { seq![] }) + hunks_from(ls, context, i + 1, seq![])
    }
}

/// The hunks of the diff between `old` and `new` with `context` lines around each change.
pub open spec fn diff_hunks(old: Seq<char>, new: Seq<char>, context: int) -> Seq<Seq<NumberedLine>> {
    hunks_from(numbered(line_changes(old, new)), context, 0, seq![])
}

/// The contents of a diff line.
pub open spec fn line_view(l: DiffLine) -> NumberedLine {
    (l.kind, l.lineno as int, l.content@)
}

/// The contents of a diff's hunks.
pub open spec fn hunks_view(d: FileDiff) -> Seq<Seq<NumberedLine>> {
    d.hunks@.map_values(|h: DiffHunk| h.lines@.map_values(|l: DiffLine| line_view(l)))
}

fn trim_end_of(v: &Vec<char>) -> (r: Vec<char>)
    ensures
        r@ == trim_end(v@),
{
    let n = v.len();
    let mut hi: usize = n;
    while hi > 0 && is_whitespace(v[hi - 1])
        invariant
            n == v@.len(),
            hi <= n,
            forall|i: int| hi <= i < n ==> is_white_space(#[trigger] v@[i]),
        decreases hi,
    {
        hi = hi - 1;
    }
    proof {
        crate::text::lemma_trailing_counts(v@, hi as int);
    }
    slice_of(v, 0, hi)
}

proof fn lemma_count_not_bound(ch: Seq<(DiffLineKind, Seq<char>)>, k: DiffLineKind, i: int)
    requires
        0 <= i,
    ensures
        0 <= count_not(ch, k, i) <= i,
    decreases i,
{
    if i > 0 {
        lemma_count_not_bound(ch, k, i - 1);
    }
}

proof fn lemma_kept_sides_agree(ch: Seq<(DiffLineKind, Seq<char>)>)
    requires
        forall|k: int| 0 <= k < ch.len() ==> #[trigger] ch[k].0 == DiffLineKind::Context,
    ensures
        side_text(ch, DiffLineKind::Added) == side_text(ch, DiffLineKind::Removed),
    decreases ch.len(),
{
    if ch.len() > 0 {
        assert forall|k: int| 0 <= k < ch.drop_last().len() implies #[trigger] ch.drop_last()[k].0
            == DiffLineKind::Context by {
            assert(ch.drop_last()[k] == ch[k]);
        }
        lemma_kept_sides_agree(ch.drop_last());
        assert(ch.last().0 == DiffLineKind::Context);
    }
}

proof fn lemma_hunk_found(ls: Seq<NumberedLine>, context: int, i: int, cur: Seq<NumberedLine>, c: int)
    requires
        0 <= i,
        cur.len() > 0 || (i <= c < ls.len() && near_change(ls, c, context)),
    ensures
        hunks_from(ls, context, i, cur).len() > 0,
    decreases ls.len() - i,
{
    if i >= ls.len() {
    } else if near_change(ls, i, context) {
        lemma_hunk_found(ls, context, i + 1, cur.push(ls[i]), c);
    } else if cur.len() > 0 {
    } else {
        lemma_hunk_found(ls, context, i + 1, seq![], c);
    }
}

proof fn lemma_no_change_no_hunk(ls: Seq<NumberedLine>, context: int, i: int)
    requires
        0 <= i,
        forall|k: int| 0 <= k < ls.len() ==> #[trigger] ls[k].0 == DiffLineKind::Context,
    ensures
        hunks_from(ls, context, i, seq![]) == Seq::<Seq<NumberedLine>>::empty(),
    decreases ls.len() - i,
{
    if i < ls.len() {
        assert(!near_change(ls, i, context));
        lemma_no_change_no_hunk(ls, context, i + 1);
        assert(hunks_from(ls, context, i, seq![]) =~= Seq::<Seq<NumberedLine>>::empty()
            + hunks_from(ls, context, i + 1, seq![]));
    }
}

/// Computes the diff between old and new content as hunks of lines, each change with
/// `context` lines around it.
pub fn compute_diff(old: &str, new: &str, path: &str, context: usize) -> (d: FileDiff)
    ensures
        d.path@ == path@,
        hunks_view(d) == diff_hunks(old@, new@, context as int),
        side_lines(line_changes(old@, new@), DiffLineKind::Added) == line_tokens(old@),
        side_lines(line_changes(old@, new@), DiffLineKind::Removed) == line_tokens(new@),
        old@ == new@ <==> d.hunks@.len() == 0,
{
    let changes = diff_lines_of(old, new);
    let ghost ch = line_changes(old@, new@);
    proof {
        assert(changes@.map_values(|c: (DiffLineKind, String)| (c.0, c.1@)) =~= ch);
        if old@ == new@ {
            assert forall|k: int| 0 <= k < numbered(ch).len() implies #[trigger] numbered(ch)[k].0
                == DiffLineKind::Context by {
                assert(changes@[k].0 == DiffLineKind::Context);
            }
            lemma_no_change_no_hunk(numbered(ch), context as int, 0);
        } else {
            if forall|k: int| 0 <= k < ch.len() ==> #[trigger] ch[k].0 == DiffLineKind::Context {
                lemma_kept_sides_agree(ch);
            }
            let k = choose|k: int| 0 <= k < ch.len() && #[trigger] ch[k].0 != DiffLineKind::Context;
            let ls = numbered(ch);
            assert(ls[k].0 != DiffLineKind::Context);
            assert(near_change(ls, k, context as int));
            lemma_hunk_found(ls, context as int, 0, seq![], k);
        }
    }
    let n = changes.len();
    // Number the lines.
    let mut all: Vec<DiffLine> = Vec::new();
    let mut old_no: u128 = 1;
    let mut new_no: u128 = 1;
    let mut i: usize = 0;
    while i < n
        invariant
            n == changes@.len() == ch.len(),
            forall|j: int| 0 <= j < n ==> (#[trigger] changes@[j]).0 == ch[j].0 && changes@[j].1@ == ch[j].1,
            i <= n,
            old_no == count_not(ch, DiffLineKind::Added, i as int) + 1,
            new_no == count_not(ch, DiffLineKind::Removed, i as int) + 1,
            all@.len() == i,
            forall|j: int| 0 <= j < i ==> line_view(#[trigger] all@[j]) == numbered(ch)[j],
        decreases n - i,
    {
        proof {
            lemma_count_not_bound(ch, DiffLineKind::Added, i as int);
            lemma_count_not_bound(ch, DiffLineKind::Removed, i as int);
        }
        let kind = changes[i].0;
        let text = chars_of(changes[i].1.as_str());
        let trimmed = trim_end_of(&text);
        let content = string_of(&trimmed, 0, trimmed.len());
        assert(trimmed@.subrange(0, trimmed@.len() as int) =~= trimmed@);
        let lineno: usize = match kind {
            DiffLineKind::Removed => old_no as usize,
            _ => new_no as usize,
        };
        all.push(DiffLine { kind, lineno, content });
        match kind {
            DiffLineKind::Context => {
                old_no = old_no + 1;
                new_no = new_no + 1;
            },
            DiffLineKind::Added => {
                new_no = new_no + 1;
            },
            DiffLineKind::Removed => {
                old_no = old_no + 1;
            },
        }
        i = i + 1;
    }
    let ghost ls = numbered(ch);
    // Mark the lines near a change.
    let mut marked: Vec<bool> = Vec::new();
    let mut j: usize = 0;
    while j < n
        invariant
            n == all@.len() == ls.len(),
            j <= n,
            marked@.len() == j,
            forall|k: int| 0 <= k < j ==> !(#[trigger] marked@[k]),
        decreases n - j,
    {
        marked.push(false);
        j = j + 1;
    }
    let mut c: usize = 0;
    while c < n
        invariant
            n == all@.len() == ls.len() == marked@.len(),
            forall|k: int| 0 <= k < n ==> line_view(#[trigger] all@[k]) == ls[k],
            c <= n,
            forall|k: int| 0 <= k < n ==> (#[trigger] marked@[k] <==> exists|x: int|
                0 <= x < c && ls[x].0 != DiffLineKind::Context && x - context <= k <= x + context),
        decreases n - c,
    {
        if all[c].kind != DiffLineKind::Context {
            let start = if c >= context { c - context } else { 0 };
            let end = if context <= n - 1 - c { c + context } else { n - 1 };
            let mut k = start;
            while k <= end
                invariant
                    n == marked@.len(),
                    start <= k,
                    end < n,
                    k <= end + 1,
                    start == (if c >= context { c - context } else { 0 }),
                    end == (if context <= n - 1 - c { c + context } else { n - 1 }),
                    forall|t: int| 0 <= t < n ==> (#[trigger] marked@[t] <==> (exists|x: int|
                        0 <= x < c && ls[x].0 != DiffLineKind::Context && x - context <= t <= x + context)
                        || (start <= t < k)),
                decreases end + 1 - k,
            {
                marked.set(k, true);
                k = k + 1;
            }
            assert forall|t: int| 0 <= t < n implies (#[trigger] marked@[t] <==> exists|x: int|
                0 <= x < c + 1 && ls[x].0 != DiffLineKind::Context && x - context <= t <= x + context) by {
                if start <= t <= end {
                    assert(ls[c as int].0 != DiffLineKind::Context);
                }
                if exists|x: int| 0 <= x < c + 1 && ls[x].0 != DiffLineKind::Context && x - context <= t <= x + context {
                    let x = choose|x: int| 0 <= x < c + 1 && ls[x].0 != DiffLineKind::Context && x - context <= t <= x + context;
                    if x == c {
                        assert(start <= t <= end);
                    }
                }
            }
        }
        c = c + 1;
    }
    // Group runs of marked lines into hunks.
    let mut hunks: Vec<DiffHunk> = Vec::new();
    let mut current: Vec<DiffLine> = Vec::new();
    let mut all = all;
    let mut i: usize = 0;
    assert(forall|k: int| 0 <= k < n ==> (#[trigger] marked@[k] <==> near_change(ls, k, context as int)));
    assert(hunks@.map_values(|h: DiffHunk| h.lines@.map_values(|l: DiffLine| line_view(l))) =~= Seq::<Seq<NumberedLine>>::empty());
    assert(current@.map_values(|l: DiffLine| line_view(l)) =~= Seq::<NumberedLine>::empty());
    assert(diff_hunks(old@, new@, context as int) == hunks_from(ls, context as int, 0, seq![]));
    while i < n
        invariant
            n == marked@.len() == ls.len(),
            all@.len() == n - i,
            forall|k: int| 0 <= k < n - i ==> line_view(#[trigger] all@[k]) == ls[i + k],
            forall|k: int| 0 <= k < n ==> (#[trigger] marked@[k] <==> near_change(ls, k, context as int)),
            i <= n,
            diff_hunks(old@, new@, context as int) == hunks@.map_values(
                |h: DiffHunk| h.lines@.map_values(|l: DiffLine| line_view(l)),
            ) + hunks_from(ls, context as int, i as int, current@.map_values(|l: DiffLine| line_view(l))),
        decreases n - i,
    {
        let line = all.remove(0);
        let ghost cur = current@.map_values(|l: DiffLine| line_view(l));
        if marked[i] {
            current.push(line);
            assert(current@.map_values(|l: DiffLine| line_view(l)) =~= cur.push(ls[i as int]));
        } else {
            if current.len() > 0 {
                let mut done: Vec<DiffLine> = Vec::new();
                std::mem::swap(&mut done, &mut current);
                let ghost hv = hunks@.map_values(|h: DiffHunk| h.lines@.map_values(|l: DiffLine| line_view(l)));
                hunks.push(DiffHunk { lines: done });
                assert(hunks@.map_values(|h: DiffHunk| h.lines@.map_values(|l: DiffLine| line_view(l))) =~= hv.push(cur));
            }
            current = Vec::new();
            assert(current@.map_values(|l: DiffLine| line_view(l)) =~= Seq::<NumberedLine>::empty());
        }
        i = i + 1;
    }
    if current.len() > 0 {
        let ghost cur = current@.map_values(|l: DiffLine| line_view(l));
        let ghost hv = hunks@.map_values(|h: DiffHunk| h.lines@.map_values(|l: DiffLine| line_view(l)));
        hunks.push(DiffHunk { lines: current });
        assert(hunks@.map_values(|h: DiffHunk| h.lines@.map_values(|l: DiffLine| line_view(l))) =~= hv.push(cur));
    }
    FileDiff { path: path.to_owned(), hunks }
}


/// Output longer than this many lines is cut.
pub const MAX_OUTPUT_LINES: usize = 500;

/// Lines kept at the end of cut output.
pub const MAX_OUTPUT_CONTEXT: usize = 50;

/// Lines longer than this many bytes are cut.
pub const MAX_LINE_WIDTH: usize = 2000;

/// `pieces` joined with `sep` between them (`[..].join(sep)`).
pub open spec fn join(pieces: Seq<Seq<char>>, sep: Seq<char>) -> Seq<char>
    decreases pieces.len(),
{
    if pieces.len() == 0 {
        seq![]
    } else if pieces.len() == 1 {
        pieces[0]
    } else {
        join(pieces.drop_last(), sep) + sep + pieces.last()
    }
}

/// A line cut to its first `MAX_LINE_WIDTH` bytes, followed by `...`, when it is longer.
pub open spec fn truncated_line(line: Seq<char>) -> Seq<char> {
    if byte_len(line) > MAX_LINE_WIDTH {
        line.take(char_index(line, MAX_LINE_WIDTH as int)) + "..."@
    } else {
        line
    }
}

/// Lines that can be cut: a line longer than `MAX_LINE_WIDTH` bytes has a character
/// boundary at that offset.
pub open spec fn cuttable(lines: Seq<Seq<char>>) -> bool {
    forall|i: int| 0 <= i < lines.len() && byte_len(#[trigger] lines[i]) > MAX_LINE_WIDTH
        ==> is_boundary(lines[i], MAX_LINE_WIDTH as int)
}

/// Output cut to size: with more than `MAX_OUTPUT_LINES` lines, the first lines and the last
/// `MAX_OUTPUT_CONTEXT` lines around a note of how many were left out; every line cut.
pub open spec fn truncated_output(lines: Seq<Seq<char>>) -> Seq<char> {
    let cut = lines.map_values(|l: Seq<char>| truncated_line(l));
    if lines.len() > MAX_OUTPUT_LINES {
        let head_count = (MAX_OUTPUT_LINES - MAX_OUTPUT_CONTEXT) as int;
        let skipped = lines.len() - head_count - MAX_OUTPUT_CONTEXT;
        join(cut.take(head_count), "\n"@) + "\n\n[... "@ + decimal(skipped as nat)
            + " lines truncated ...]\n\n"@ + join(cut.skip(lines.len() - MAX_OUTPUT_CONTEXT), "\n"@)
    } else {
        join(cut, "\n"@)
    }
}

/// Cuts a single line to `MAX_LINE_WIDTH` bytes.
pub fn truncate_line(line: &str) -> (r: String)
    requires
        byte_len(line@) > MAX_LINE_WIDTH ==> is_boundary(line@, MAX_LINE_WIDTH as int),
    ensures
        r@ == truncated_line(line@),
{
    if byte_len_of(line) > MAX_LINE_WIDTH {
        let v = chars_of(line);
        proof {
            lemma_boundary_bounds(line@, MAX_LINE_WIDTH as int);
        }
        let j = match boundary_index(&v, MAX_LINE_WIDTH) {
            Some(j) => j,
            None => { return line.to_owned(); },
        };
        let mut r = string_of(&v, 0, j);
        r.append("...");
        assert(v@.subrange(0, j as int) =~= line@.take(j as int));
        r
    } else {
        line.to_owned()
    }
}

proof fn lemma_join_push(pieces: Seq<Seq<char>>, sep: Seq<char>, p: Seq<char>)
    ensures
        join(pieces.push(p), sep) == if pieces.len() == 0 { p } else { join(pieces, sep) + sep + p },
{
    assert(pieces.push(p).drop_last() =~= pieces);
    if pieces.len() == 0 {
        assert(pieces.push(p)[0] == p);
    }
}

/// `lines[lo..hi]`, each cut, joined with newlines.
fn join_truncated(lines: &Vec<String>, lo: usize, hi: usize) -> (r: String)
    requires
        lo <= hi <= lines@.len(),
        cuttable(lines@.map_values(|l: String| l@)),
    ensures
        r@ == join(lines@.map_values(|l: String| l@).map_values(|l: Seq<char>| truncated_line(l)).subrange(lo as int, hi as int), "\n"@),
{
    let ghost cut = lines@.map_values(|l: String| l@).map_values(|l: Seq<char>| truncated_line(l));
    let mut r = String::new();
    let mut i = lo;
    assert(cut.subrange(lo as int, lo as int) =~= Seq::<Seq<char>>::empty());
    while i < hi
        invariant
            lo <= i <= hi <= lines@.len(),
            cut == lines@.map_values(|l: String| l@).map_values(|l: Seq<char>| truncated_line(l)),
            cuttable(lines@.map_values(|l: String| l@)),
            r@ == join(cut.subrange(lo as int, i as int), "\n"@),
        decreases hi - i,
    {
        let ghost before = cut.subrange(lo as int, i as int);
        assert(lines@.map_values(|l: String| l@)[i as int] == lines@[i as int]@);
        let t = truncate_line(lines[i].as_str());
        if i > lo {
            r.append("\n");
        }
        r.append(t.as_str());
        proof {
            assert(cut.subrange(lo as int, i + 1) =~= before.push(cut[i as int]));
            lemma_join_push(before, "\n"@, cut[i as int]);
        }
        i = i + 1;
    }
    r
}

/// Formats lines with truncation: the first lines, the count of skipped lines, then the last lines.
pub fn format_truncated(lines: &Vec<String>) -> (r: String)
    requires
        cuttable(lines@.map_values(|l: String| l@)),
    ensures
        r@ == truncated_output(lines@.map_values(|l: String| l@)),
{
    let n = lines.len();
    let ghost ls = lines@.map_values(|l: String| l@);
    let ghost cut = ls.map_values(|l: Seq<char>| truncated_line(l));
    if n > MAX_OUTPUT_LINES {
        let head_count = MAX_OUTPUT_LINES - MAX_OUTPUT_CONTEXT;
        let mut r = join_truncated(lines, 0, head_count);
        let skipped = n - head_count - MAX_OUTPUT_CONTEXT;
        r.append("\n\n[... ");
        let d = decimal_of(skipped as u64);
        let ds = string_of(&d, 0, d.len());
        assert(d@.subrange(0, d@.len() as int) =~= d@);
        r.append(ds.as_str());
        r.append(" lines truncated ...]\n\n");
        let tail = join_truncated(lines, n - MAX_OUTPUT_CONTEXT, n);
        r.append(tail.as_str());
        assert(cut.subrange(0, head_count as int) =~= cut.take(head_count as int));
        assert(cut.subrange(n - MAX_OUTPUT_CONTEXT, n as int) =~= cut.skip(n - MAX_OUTPUT_CONTEXT));
        r
    } else {
        let r = join_truncated(lines, 0, n);
        assert(cut.subrange(0, n as int) =~= cut);
        r
    }
}


/// The text `str::to_lowercase` gives for `s` (Unicode lowercase mapping).
pub uninterp spec fn lowercase(s: Seq<char>) -> Seq<char>;

/// Lowercases with `str::to_lowercase`; the result is `lowercase` of the text.
#[verifier::external_body]
fn to_lowercase(s: &str) -> (r: String)
    ensures
        r@ == lowercase(s@),
{
    s.to_lowercase()
}

/// The separators after which a blocked command is also recognised.
pub open spec fn operators() -> Seq<Seq<char>> {
    seq!["; "@, "| "@, "& "@, "$( "@, "` "@, "\t"@, "\n"@]
}

/// The command starts with `pattern`, or the text after the first occurrence of one of the
/// operators does.
pub open spec fn command_matches(command: Seq<char>, pattern: Seq<char>) -> bool {
    starts_with(command, pattern) || exists|k: int|
        0 <= k < operators().len() && (match find_from(command, #[trigger] operators()[k], 0) {
            Some(pos) => starts_with(command.skip(pos + operators()[k].len()), pattern),
            None => false,
        })
}

/// Whether `command` runs `pattern`: at its start or after an operator.
pub fn is_command_match(command: &str, pattern: &str) -> (b: bool)
    ensures
        b == command_matches(command@, pattern@),
{
    let c = chars_of(command);
    let p = chars_of(pattern);
    if starts_with_in(&c, &p) {
        return true;
    }
    let ops: Vec<Vec<char>> = vec![
        chars_of("; "),
        chars_of("| "),
        chars_of("& "),
        chars_of("$( "),
        chars_of("` "),
        chars_of("\t"),
        chars_of("\n"),
    ];
    let ghost opv = operators();
    assert(ops@.len() == 7);
    assert forall|k: int| 0 <= k < 7 implies (#[trigger] ops@[k])@ == opv[k] by {}
    let mut k: usize = 0;
    while k < 7
        invariant
            ops@.len() == 7,
            opv == operators(),
            forall|t: int| 0 <= t < 7 ==> (#[trigger] ops@[t])@ == opv[t],
            c@ == command@,
            p@ == pattern@,
            !starts_with(command@, pattern@),
            k <= 7,
            forall|t: int| 0 <= t < k ==> !(match find_from(command@, #[trigger] opv[t], 0) {
                Some(pos) => starts_with(command@.skip(pos + opv[t].len()), pattern@),
                None => false,
            }),
        decreases 7 - k,
    {
        let op = &ops[k];
        let cl = c.len();
        match find_in(&c, op, 0) {
            Some(pos) => {
                proof {
                    lemma_find_from_bounds(c@, op@, 0);
                }
                let rest = slice_of(&c, pos + op.len(), cl);
                assert(rest@ =~= command@.skip(pos + op@.len()));
                if starts_with_in(&rest, &p) {
                    assert(0 <= k < operators().len());
                    return true;
                }
            },
            None => {},
        }
        k = k + 1;
    }
    false
}

/// The commands refused for safety, as patterns with their reasons, in the order they are tried.
pub open spec fn blocked_rules() -> Seq<(Seq<char>, Seq<char>)> {
    seq![
        ("dd"@, "disk write operations (data destruction risk)"@),
        ("mkfs"@, "filesystem formatting (irreversible)"@),
        ("reboot"@, "system reboot (would interrupt session)"@),
        ("shutdown"@, "system shutdown (would interrupt session)"@),
        ("rm "@, "file deletion (data loss risk)"@),
        ("rm\t"@, "file deletion (data loss risk)"@),
        ("mv "@, "file move/rename (could overwrite data)"@),
        ("truncate"@, "file truncation (destructive)"@),
        ("git push --force"@, "force git push (overwrites history)"@),
        ("git push -f"@, "force git push (overwrites history)"@),
        (" | bash"@, "pipe to bash (code injection risk)"@),
        (" | sh"@, "pipe to shell (code injection risk)"@),
    ]
}

/// The reason the first blocked rule from `k` on that the lowercased command matches gives.
pub open spec fn blocked_from(cmd: Seq<char>, k: int) -> Option<Seq<char>>
    decreases blocked_rules().len() - k,
{
    if k < 0 || k >= blocked_rules().len() {
        None
    } else if command_matches(cmd, blocked_rules()[k].0) {
        Some(blocked_rules()[k].1)
    } else {
        blocked_from(cmd, k + 1)
    }
}

/// Refuses commands that destroy data, stop the machine or pipe into a shell.
pub fn validate_bash_command(command: &str) -> (r: Result<(), String>)
    ensures
        match blocked_from(lowercase(command@), 0) {
            None => r is Ok,
            Some(reason) => r matches Err(e) && e@ == "Command blocked for safety: "@ + reason,
        },
{
    let lower = to_lowercase(command);
    let rules: Vec<(&str, &str)> = vec![
        ("dd", "disk write operations (data destruction risk)"),
        ("mkfs", "filesystem formatting (irreversible)"),
        ("reboot", "system reboot (would interrupt session)"),
        ("shutdown", "system shutdown (would interrupt session)"),
        ("rm ", "file deletion (data loss risk)"),
        ("rm\t", "file deletion (data loss risk)"),
        ("mv ", "file move/rename (could overwrite data)"),
        ("truncate", "file truncation (destructive)"),
        ("git push --force", "force git push (overwrites history)"),
        ("git push -f", "force git push (overwrites history)"),
        (" | bash", "pipe to bash (code injection risk)"),
        (" | sh", "pipe to shell (code injection risk)"),
    ];
    let ghost br = blocked_rules();
    assert(rules@.len() == 12);
    assert forall|k: int| 0 <= k < 12 implies (#[trigger] rules@[k]).0@ == br[k].0 && rules@[k].1@ == br[k].1 by {}
    let mut k: usize = 0;
    while k < 12
        invariant
            rules@.len() == 12,
            br == blocked_rules(),
            forall|t: int| 0 <= t < 12 ==> (#[trigger] rules@[t]).0@ == br[t].0 && rules@[t].1@ == br[t].1,
            lower@ == lowercase(command@),
            k <= 12,
            blocked_from(lower@, 0) == blocked_from(lower@, k as int),
        decreases 12 - k,
    {
        let (pattern, reason) = rules[k];
        if is_command_match(lower.as_str(), pattern) {
            let mut e = "Command blocked for safety: ".to_owned();
            e.append(reason);
            return Err(e);
        }
        k = k + 1;
    }
    Ok(())
}

/// Number of matches of `pat` in `s`, as `str::matches(..).count()` gives it: non-overlapping,
/// left to right; an empty pattern matches at every character boundary.
pub open spec fn match_count(s: Seq<char>, pat: Seq<char>) -> int
    decreases s.len(),
{
    if pat.len() == 0 {
        s.len() + 1int
    } else {
        match find_from(s, pat, 0) {
            None => 0,
            Some(i) => {
                proof {
                    lemma_find_from_bounds(s, pat, 0);
                }
                1 + match_count(s.skip(i + pat.len()), pat)
            },
        }
    }
}

/// `s` with the first occurrence of `pat` replaced by `rep` (`str::replacen(pat, rep, 1)`).
pub open spec fn replace_first(s: Seq<char>, pat: Seq<char>, rep: Seq<char>) -> Seq<char> {
    match find_from(s, pat, 0) {
        Some(i) => s.take(i) + rep + s.skip(i + pat.len()),
        None => s,
    }
}

/// Number of matches of `pat` in `s`.
fn count_matches(s: &Vec<char>, pat: &Vec<char>) -> (n: usize)
    requires
        s@.len() < usize::MAX,
    ensures
        n as int == match_count(s@, pat@),
{
    if pat.len() == 0 {
        return s.len() + 1;
    }
    let mut count: usize = 0;
    let mut rest = slice_of(s, 0, s.len());
    assert(s@.subrange(0, s@.len() as int) =~= s@);
    loop
        invariant
            pat@.len() > 0,
            match_count(s@, pat@) == count + match_count(rest@, pat@),
            count + rest@.len() <= s@.len(),
            s@.len() < usize::MAX,
        decreases rest@.len(),
    {
        let rl = rest.len();
        match find_in(&rest, pat, 0) {
            None => {
                return count;
            },
            Some(i) => {
                proof {
                    lemma_find_from_bounds(rest@, pat@, 0);
                }
                let next = slice_of(&rest, i + pat.len(), rl);
                assert(next@ =~= rest@.skip(i + pat@.len()));
                rest = next;
                count = count + 1;
            },
        }
    }
}

/// The new content of an edit: `old_string` must occur exactly once in `content`, and is
/// replaced by `new_string`.
pub open spec fn edit_result(content: Seq<char>, old_string: Seq<char>, new_string: Seq<char>) -> Result<Seq<char>, Seq<char>> {
    if !contains_seq(content, old_string) {
        Err("old_string not found in file"@)
    } else if match_count(content, old_string) > 1 {
        Err("old_string appears "@ + decimal(match_count(content, old_string) as nat) + " times (must be unique)"@)
    } else {
        Ok(replace_first(content, old_string, new_string))
    }
}

/// Replaces the single occurrence of `old_string` in `content` by `new_string`.
pub fn edit_content(content: &str, old_string: &str, new_string: &str) -> (r: Result<String, String>)
    requires
        content@.len() < usize::MAX,
    ensures
        match edit_result(content@, old_string@, new_string@) {
            Ok(t) => r matches Ok(x) && x@ == t,
            Err(e) => r matches Err(x) && x@ == e,
        },
{
    let c = chars_of(content);
    let p = chars_of(old_string);
    if !contains_in(&c, &p) {
        return Err("old_string not found in file".to_owned());
    }
    let count = count_matches(&c, &p);
    if count > 1 {
        let mut e = "old_string appears ".to_owned();
        let d = decimal_of(count as u64);
        let ds = string_of(&d, 0, d.len());
        assert(d@.subrange(0, d@.len() as int) =~= d@);
        e.append(ds.as_str());
        e.append(" times (must be unique)");
        return Err(e);
    }
    let i = match find_in(&c, &p, 0) {
        Some(i) => i,
        None => { return Ok(content.to_owned()); },
    };
    proof {
        lemma_find_from_bounds(c@, p@, 0);
    }
    let mut r = string_of(&c, 0, i);
    r.append(new_string);
    let tail = string_of(&c, i + p.len(), c.len());
    r.append(tail.as_str());
    assert(r@ =~= replace_first(content@, old_string@, new_string@));
    Ok(r)
}


/// `regex::Regex`, compiled by `compile_pattern`.
#[verifier::external_type_specification]
#[verifier::external_body]
pub struct ExRegex(regex::Regex);

/// A regular expression with its source text.
pub struct Pattern {
    source: String,
    re: regex::Regex,
}

impl View for Pattern {
    type V = Seq<char>;

    /// The source text the expression was compiled from.
    closed spec fn view(&self) -> Seq<char> {
        self.source@
    }
}

/// What `regex::Regex::new(pattern)` gives: `None` when it compiles, else the text of its error.
pub uninterp spec fn regex_compile_error(pattern: Seq<char>) -> Option<Seq<char>>;

/// Whether the regular expression compiled from `pattern` matches somewhere in `text`
/// (`Regex::is_match`).
pub uninterp spec fn regex_is_match(pattern: Seq<char>, text: Seq<char>) -> bool;

/// Compiles `pattern` with `regex::Regex::new`: `Ok` exactly when `regex_compile_error` is
/// `None`, otherwise the error's text.
#[verifier::external_body]
fn compile_regex(pattern: &str) -> (r: Result<Pattern, String>)
    ensures
        match regex_compile_error(pattern@) {
            None => r matches Ok(p) && p@ == pattern@,
            Some(e) => r matches Err(t) && t@ == e,
        },
{
    match regex::Regex::new(pattern) {
        Ok(re) => Ok(Pattern { source: pattern.to_string(), re }),
        Err(e) => Err(e.to_string()),
    }
}

/// Tests a line with `Regex::is_match`; the result is `regex_is_match` of the source and the line.
#[verifier::external_body]
fn pattern_matches(p: &Pattern, line: &str) -> (b: bool)
    ensures
        b == regex_is_match(p@, line@),
{
    p.re.is_match(line)
}

/// A tool call, checked and ready for the application to carry out.
pub enum ToolRequest {
    Read { path: String, offset: usize },
    Glob { pattern: String },
    Grep { pattern: Pattern, pattern_text: String, files: String },
    Bash { command: String },
    Write { path: String, content: String },
    Edit { path: String, old_string: String, new_string: String },
}

/// The text of argument `key`, or the error for a missing or non-string one.
pub open spec fn required_arg(args: Seq<(String, Json)>, key: Seq<char>) -> Result<Seq<char>, Seq<char>> {
    match as_text(member(args, key)) {
        Some(t) => Ok(t),
        None => Err("Missing or invalid '"@ + key + "'"@),
    }
}

fn required_arg_of(args: &Vec<(String, Json)>, key: &str) -> (r: Result<String, String>)
    ensures
        match required_arg(args@, key@) {
            Ok(t) => r matches Ok(x) && x@ == t,
            Err(e) => r matches Err(x) && x@ == e,
        },
{
    match json_str(member_get(args, key)) {
        Some(t) => Ok(t.clone()),
        None => {
            let mut e = "Missing or invalid '".to_owned();
            e.append(key);
            e.append("'");
            Err(e)
        },
    }
}

/// The first line to show of a file: the `offset` argument counts from 1.
pub open spec fn read_offset(args: Seq<(String, Json)>) -> usize {
    match as_u64(member(args, "offset"@)) {
        Some(v) => if (v as usize) >= 1 { ((v as usize) - 1) as usize } else { 0 },
        None => 0,
    }
}

proof fn lemma_tool_names_distinct()
    ensures
        "Read"@ != "Glob"@,
        "Read"@ != "Grep"@,
        "Read"@ != "Bash"@,
        "Read"@ != "Write"@,
        "Read"@ != "Edit"@,
        "Glob"@ != "Grep"@,
        "Glob"@ != "Bash"@,
        "Glob"@ != "Write"@,
        "Glob"@ != "Edit"@,
        "Grep"@ != "Bash"@,
        "Grep"@ != "Write"@,
        "Grep"@ != "Edit"@,
        "Bash"@ != "Write"@,
        "Bash"@ != "Edit"@,
        "Write"@ != "Edit"@,
{
    reveal_strlit("Read");
    reveal_strlit("Glob");
    reveal_strlit("Grep");
    reveal_strlit("Bash");
    reveal_strlit("Write");
    reveal_strlit("Edit");
    assert("Read"@[0] != "Glob"@[0]);
    assert("Read"@[0] != "Grep"@[0]);
    assert("Read"@[0] != "Bash"@[0]);
    assert("Read"@[0] != "Write"@[0]);
    assert("Read"@[0] != "Edit"@[0]);
    assert("Glob"@[1] != "Grep"@[1]);
    assert("Glob"@[0] != "Bash"@[0]);
    assert("Glob"@[0] != "Write"@[0]);
    assert("Glob"@[0] != "Edit"@[0]);
    assert("Grep"@[0] != "Bash"@[0]);
    assert("Grep"@[0] != "Write"@[0]);
    assert("Grep"@[0] != "Edit"@[0]);
    assert("Bash"@[0] != "Write"@[0]);
    assert("Bash"@[0] != "Edit"@[0]);
    assert("Write"@[0] != "Edit"@[0]);
}

/// Checks a tool call's arguments and decides what to carry out: the required arguments of
/// each tool in turn, then the regular expression of a search or the safety rules of a
/// command; an unknown tool is an error.
pub fn plan_tool(name: &str, args: &Vec<(String, Json)>) -> (r: Result<ToolRequest, String>)
    ensures
        name@ == "Read"@ ==> match required_arg(args@, "filePath"@) {
            Err(e) => r matches Err(x) && x@ == e,
            Ok(p) => r matches Ok(ToolRequest::Read { path, offset }) && path@ == p && offset == read_offset(args@),
        },
        name@ == "Glob"@ ==> match required_arg(args@, "pattern"@) {
            Err(e) => r matches Err(x) && x@ == e,
            Ok(p) => r matches Ok(ToolRequest::Glob { pattern }) && pattern@ == p,
        },
        name@ == "Grep"@ ==> match (required_arg(args@, "pattern"@), required_arg(args@, "files"@)) {
            (Err(e), _) => r matches Err(x) && x@ == e,
            (Ok(_), Err(e)) => r matches Err(x) && x@ == e,
            (Ok(p), Ok(f)) => match regex_compile_error(p) {
                Some(e) => r matches Err(x) && x@ == "Invalid regex: "@ + e,
                None => r matches Ok(ToolRequest::Grep { pattern, pattern_text, files }) && pattern@ == p
                    && pattern_text@ == p && files@ == f,
            },
        },
        name@ == "Bash"@ ==> match required_arg(args@, "command"@) {
            Err(e) => r matches Err(x) && x@ == e,
            Ok(c) => match blocked_from(lowercase(c), 0) {
                Some(reason) => r matches Err(x) && x@ == "Command blocked for safety: "@ + reason,
                None => r matches Ok(ToolRequest::Bash { command }) && command@ == c,
            },
        },
        name@ == "Write"@ ==> match (required_arg(args@, "path"@), required_arg(args@, "content"@)) {
            (Err(e), _) => r matches Err(x) && x@ == e,
            (Ok(_), Err(e)) => r matches Err(x) && x@ == e,
            (Ok(p), Ok(c)) => r matches Ok(ToolRequest::Write { path, content }) && path@ == p && content@ == c,
        },
        name@ == "Edit"@ ==> match (required_arg(args@, "path"@), required_arg(args@, "old_string"@), required_arg(args@, "new_string"@)) {
            (Err(e), _, _) => r matches Err(x) && x@ == e,
            (Ok(_), Err(e), _) => r matches Err(x) && x@ == e,
            (Ok(_), Ok(_), Err(e)) => r matches Err(x) && x@ == e,
            (Ok(p), Ok(o), Ok(n)) => r matches Ok(ToolRequest::Edit { path, old_string, new_string })
                && path@ == p && old_string@ == o && new_string@ == n,
        },
        !(name@ == "Read"@ || name@ == "Glob"@ || name@ == "Grep"@ || name@ == "Bash"@ || name@ == "Write"@ || name@ == "Edit"@)
            ==> (r matches Err(x) && x@ == "Unknown tool: "@ + name@),
{
    proof {
        lemma_tool_names_distinct();
    }
    if str_eq(name, "Read") {
        let path = match required_arg_of(args, "filePath") {
            Ok(v) => v,
            Err(e) => { return Err(e); },
        };
        let offset: usize = match json_u64(member_get(args, "offset")) {
            Some(v) => if (v as usize) >= 1 { (v as usize) - 1 } else { 0 },
            None => 0,
        };
        Ok(ToolRequest::Read { path, offset })
    } else if str_eq(name, "Glob") {
        let pattern = match required_arg_of(args, "pattern") {
            Ok(v) => v,
            Err(e) => { return Err(e); },
        };
        Ok(ToolRequest::Glob { pattern })
    } else if str_eq(name, "Grep") {
        let pattern_text = match required_arg_of(args, "pattern") {
            Ok(v) => v,
            Err(e) => { return Err(e); },
        };
        let files = match required_arg_of(args, "files") {
            Ok(v) => v,
            Err(e) => { return Err(e); },
        };
        match compile_regex(pattern_text.as_str()) {
            Ok(pattern) => Ok(ToolRequest::Grep { pattern, pattern_text, files }),
            Err(e) => {
                let mut m = "Invalid regex: ".to_owned();
                m.append(e.as_str());
                Err(m)
            },
        }
    } else if str_eq(name, "Bash") {
        let command = match required_arg_of(args, "command") {
            Ok(v) => v,
            Err(e) => { return Err(e); },
        };
        match validate_bash_command(command.as_str()) {
            Ok(()) => Ok(ToolRequest::Bash { command }),
            Err(e) => Err(e),
        }
    } else if str_eq(name, "Write") {
        let path = match required_arg_of(args, "path") {
            Ok(v) => v,
            Err(e) => { return Err(e); },
        };
        let content = match required_arg_of(args, "content") {
            Ok(v) => v,
            Err(e) => { return Err(e); },
        };
        Ok(ToolRequest::Write { path, content })
    } else if str_eq(name, "Edit") {
        let path = match required_arg_of(args, "path") {
            Ok(v) => v,
            Err(e) => { return Err(e); },
        };
        let old_string = match required_arg_of(args, "old_string") {
            Ok(v) => v,
            Err(e) => { return Err(e); },
        };
        let new_string = match required_arg_of(args, "new_string") {
            Ok(v) => v,
            Err(e) => { return Err(e); },
        };
        Ok(ToolRequest::Edit { path, old_string, new_string })
    } else {
        let mut m = "Unknown tool: ".to_owned();
        m.append(name);
        Err(m)
    }
}


/// The message for a pattern that names no files.
pub open spec fn no_files_text(pattern: Seq<char>) -> Seq<char> {
    "No files match pattern: "@ + pattern
}

/// The message for a pattern that names no files.
pub fn no_files_match(pattern: &str) -> (r: String)
    ensures
        r@ == no_files_text(pattern@),
{
    let mut r = "No files match pattern: ".to_owned();
    r.append(pattern);
    r
}

/// `lines` as strings.
pub open spec fn texts(lines: Seq<String>) -> Seq<Seq<char>> {
    lines.map_values(|l: String| l@)
}

fn strings_of(ls: &Vec<Vec<char>>, from: usize) -> (r: Vec<String>)
    requires
        from <= ls@.len(),
    ensures
        texts(r@) == ls@.map_values(|l: Vec<char>| l@).skip(from as int),
{
    let mut r: Vec<String> = Vec::new();
    let n = ls.len();
    let mut i = from;
    while i < n
        invariant
            n == ls@.len(),
            from <= i <= n,
            texts(r@) == ls@.map_values(|l: Vec<char>| l@).subrange(from as int, i as int),
        decreases n - i,
    {
        let l = &ls[i];
        let t = string_of(l, 0, l.len());
        assert(l@.subrange(0, l@.len() as int) =~= l@);
        let ghost before = texts(r@);
        r.push(t);
        assert(ls@.map_values(|l: Vec<char>| l@)[i as int] == ls@[i as int]@);
        assert(texts(r@) =~= before.push(t@));
        i = i + 1;
        assert(texts(r@) =~= ls@.map_values(|l: Vec<char>| l@).subrange(from as int, i as int));
    }
    assert(ls@.map_values(|l: Vec<char>| l@).subrange(from as int, n as int) =~= ls@.map_values(|l: Vec<char>| l@).skip(from as int));
    r
}

/// The lines from index `k` on (none when there are fewer).
pub open spec fn lines_from(ls: Seq<Seq<char>>, k: int) -> Seq<Seq<char>> {
    if k <= ls.len() {
        ls.skip(k)
    } else {
        seq![]
    }
}

/// The output of a read: the file's lines from `offset` on, cut to size.
pub fn read_output(content: &str, offset: usize) -> (r: String)
    requires
        cuttable(lines_from(lines(content@), offset as int)),
    ensures
        r@ == truncated_output(lines_from(lines(content@), offset as int)),
{
    let c = chars_of(content);
    let ls = lines_of(&c);
    assert(ls@.map_values(|l: Vec<char>| l@) =~= lines(content@));
    let from = if offset <= ls.len() { offset } else { ls.len() };
    let shown = strings_of(&ls, from);
    assert(lines(content@).skip(from as int) =~= lines_from(lines(content@), offset as int));
    format_truncated(&shown)
}

/// The path with every leading `./` removed (`trim_start_matches("./")`).
pub open spec fn strip_dot_slash(p: Seq<char>) -> Seq<char>
    decreases p.len(),
{
    if p.len() >= 2 && p[0] == '.' && p[1] == '/' {
        strip_dot_slash(p.skip(2))
    } else {
        p
    }
}

/// Removes every leading `./` from a path.
pub fn trim_dot_slash(p: &str) -> (r: String)
    ensures
        r@ == strip_dot_slash(p@),
{
    let v = chars_of(p);
    let n = v.len();
    let mut i: usize = 0;
    assert(p@.skip(0) =~= p@);
    while n - i >= 2 && v[i] == '.' && v[i + 1] == '/'
        invariant
            n == v@.len(),
            v@ == p@,
            i <= n,
            strip_dot_slash(p@) == strip_dot_slash(p@.skip(i as int)),
        decreases n - i,
    {
        assert(p@.skip(i as int).skip(2) =~= p@.skip(i + 2));
        i = i + 2;
    }
    assert(p@.skip(i as int) =~= v@.subrange(i as int, n as int));
    string_of(&v, i, n)
}

/// Code-point order on texts, which is the byte order of their UTF-8 encodings (`str`'s `Ord`).
pub open spec fn text_le(a: Seq<char>, b: Seq<char>) -> bool
    decreases a.len(),
{
    if a.len() == 0 {
        true
    } else if b.len() == 0 {
        false
    } else if a[0] != b[0] {
        (a[0] as u32) < (b[0] as u32)
    } else {
        text_le(a.drop_first(), b.drop_first())
    }
}

/// Sorts strings with `slice::sort`: the result holds the same strings, in `text_le` order.
#[verifier::external_body]
fn sort_strings(v: &mut Vec<String>)
    ensures
        texts(final(v)@).to_multiset() == texts(old(v)@).to_multiset(),
        forall|i: int, j: int| 0 <= i < j < final(v)@.len() ==> text_le(#[trigger] final(v)@[i]@, #[trigger] final(v)@[j]@),
{
    v.sort();
}

/// The output of a file search: the matching paths sorted, or a note that there are none.
pub fn glob_output(pattern: &str, paths: Vec<String>) -> (r: String)
    requires
        cuttable(texts(paths@)),
    ensures
        paths@.len() == 0 ==> r@ == no_files_text(pattern@),
        paths@.len() > 0 ==> exists|sorted: Seq<String>|
            #[trigger] texts(sorted).to_multiset() == texts(paths@).to_multiset()
            && (forall|i: int, j: int| 0 <= i < j < sorted.len() ==> text_le(#[trigger] sorted[i]@, #[trigger] sorted[j]@))
            && r@ == truncated_output(texts(sorted)),
{
    if paths.len() == 0 {
        return no_files_match(pattern);
    }
    let mut sorted = paths;
    sort_strings(&mut sorted);
    proof {
        assert(cuttable(texts(sorted@))) by {
            assert forall|i: int| 0 <= i < texts(sorted@).len() && byte_len(#[trigger] texts(sorted@)[i]) > MAX_LINE_WIDTH
                implies is_boundary(texts(sorted@)[i], MAX_LINE_WIDTH as int) by {
                let x = texts(sorted@)[i];
                vstd::seq_lib::to_multiset_contains(texts(sorted@), x);
                vstd::seq_lib::to_multiset_contains(texts(paths@), x);
                assert(texts(sorted@).contains(x));
                assert(texts(paths@).contains(x));
                let k = choose|k: int| 0 <= k < texts(paths@).len() && texts(paths@)[k] == x;
                assert(byte_len(texts(paths@)[k]) > MAX_LINE_WIDTH);
            }
        }
    }
    format_truncated(&sorted)
}

/// The matches of a search in one file: `path:line: text` for each line the pattern matches.
pub open spec fn grep_hits(pattern: Seq<char>, path: Seq<char>, ls: Seq<Seq<char>>) -> Seq<Seq<char>>
    decreases ls.len(),
{
    if ls.len() == 0 {
        seq![]
    } else {
        let n = ls.len() - 1;
        grep_hits(pattern, path, ls.drop_last()) + if regex_is_match(pattern, ls.last()) {
            seq![path + ":"@ + decimal((n + 1) as nat) + ": "@ + ls.last()]
        } else {
            seq![]
        }
    }
}

/// Searches one file's content for the pattern, line by line.
pub fn grep_file(pattern: &Pattern, path: &str, content: &str) -> (r: Vec<String>)
    ensures
        texts(r@) == grep_hits(pattern@, path@, lines(content@)),
{
    let c = chars_of(content);
    let ls = lines_of(&c);
    let ghost all = lines(content@);
    assert(ls@.map_values(|l: Vec<char>| l@) =~= all);
    let n = ls.len();
    let mut r: Vec<String> = Vec::new();
    let mut i: usize = 0;
    while i < n
        invariant
            n == ls@.len() == all.len(),
            all == lines(content@),
            ls@.map_values(|l: Vec<char>| l@) == all,
            i <= n,
            texts(r@) == grep_hits(pattern@, path@, all.take(i as int)),
        decreases n - i,
    {
        let l = &ls[i];
        let line = string_of(l, 0, l.len());
        assert(l@.subrange(0, l@.len() as int) =~= l@);
        assert(l@ == all[i as int]);
        assert(all.take(i + 1).drop_last() =~= all.take(i as int));
        let ghost before = texts(r@);
        if pattern_matches(pattern, line.as_str()) {
            let mut hit = path.to_owned();
            hit.append(":");
            let d = decimal_of((i + 1) as u64);
            let ds = string_of(&d, 0, d.len());
            assert(d@.subrange(0, d@.len() as int) =~= d@);
            hit.append(ds.as_str());
            hit.append(": ");
            hit.append(line.as_str());
            r.push(hit);
            assert(texts(r@) =~= before.push(texts(r@).last()));
        } else {
            assert(texts(r@) =~= before);
        }
        i = i + 1;
    }
    assert(all.take(n as int) =~= all);
    r
}

/// The output of a search: the matches cut to size, or a note that there are none.
pub fn grep_output(pattern_text: &str, matches: &Vec<String>) -> (r: String)
    requires
        cuttable(texts(matches@)),
    ensures
        matches@.len() == 0 ==> r@ == "No matches found for pattern: "@ + pattern_text@,
        matches@.len() > 0 ==> r@ == truncated_output(texts(matches@)),
{
    if matches.len() == 0 {
        let mut r = "No matches found for pattern: ".to_owned();
        r.append(pattern_text);
        r
    } else {
        format_truncated(matches)
    }
}

/// What a command printed: its standard output when it succeeded, else its error output, or
/// a note of its exit status when that is empty.
pub open spec fn command_text(success: bool, stdout: Seq<char>, stderr: Seq<char>, status: Seq<char>) -> Seq<char> {
    if success {
        stdout
    } else if stderr.len() > 0 {
        stderr
    } else {
        "Command exited with status: "@ + status
    }
}

/// The output of a command, cut to size.
pub fn bash_output(success: bool, stdout: &str, stderr: &str, status: &str) -> (r: String)
    requires
        cuttable(lines(command_text(success, stdout@, stderr@, status@))),
    ensures
        r@ == truncated_output(lines(command_text(success, stdout@, stderr@, status@))),
{
    let text = if success {
        stdout.to_owned()
    } else if !stderr.is_empty() {
        stderr.to_owned()
    } else {
        let mut t = "Command exited with status: ".to_owned();
        t.append(status);
        t
    };
    let c = chars_of(text.as_str());
    let ls = lines_of(&c);
    assert(ls@.map_values(|l: Vec<char>| l@) =~= lines(text@));
    let shown = strings_of(&ls, 0);
    assert(ls@.map_values(|l: Vec<char>| l@).skip(0) =~= lines(text@));
    format_truncated(&shown)
}

/// The summary of a write: the content's length in bytes and the path.
pub fn write_summary(path: &str, content: &str) -> (r: String)
    ensures
        r@ == "Written "@ + decimal(byte_len(content@)) + " bytes to "@ + path@,
{
    let mut r = "Written ".to_owned();
    let n = byte_len_of(content);
    let d = decimal_of(n as u64);
    let ds = string_of(&d, 0, d.len());
    assert(d@.subrange(0, d@.len() as int) =~= d@);
    r.append(ds.as_str());
    r.append(" bytes to ");
    r.append(path);
    r
}

/// The summary of an edit.
pub fn edit_summary(path: &str) -> (r: String)
    ensures
        r@ == "Edited "@ + path@,
{
    let mut r = "Edited ".to_owned();
    r.append(path);
    r
}


proof fn lemma_blocked_from(cmd: Seq<char>, k: int)
    requires
        0 <= k <= blocked_rules().len(),
    ensures
        blocked_from(cmd, k) is Some <==> exists|j: int|
            k <= j < blocked_rules().len() && command_matches(cmd, #[trigger] blocked_rules()[j].0),
    decreases blocked_rules().len() - k,
{
    if k < blocked_rules().len() {
        lemma_blocked_from(cmd, k + 1);
        if command_matches(cmd, blocked_rules()[k].0) {
        } else {
            assert forall|j: int| k <= j < blocked_rules().len() && command_matches(cmd, #[trigger] blocked_rules()[j].0) implies k + 1 <= j by {
            }
        }
    }
}

/// A command is refused exactly when, lowercased, it runs one of the blocked commands at its
/// start or after an operator.
pub proof fn law_refused_iff_blocked(command: Seq<char>)
    ensures
        blocked_from(lowercase(command), 0) is Some <==> exists|j: int|
            0 <= j < blocked_rules().len() && command_matches(lowercase(command), #[trigger] blocked_rules()[j].0),
{
    lemma_blocked_from(lowercase(command), 0);
}


proof fn lemma_member_at(args: Seq<(String, Json)>, key: Seq<char>, i: int)
    requires
        0 <= i < args.len(),
        args[i].0@ == key,
        forall|j: int| 0 <= j < i ==> (#[trigger] args[j]).0@ != key,
    ensures
        member(args, key) == Some(args[i].1),
    decreases i,
{
    if i > 0 {
        assert forall|j: int| 0 <= j < i - 1 implies (#[trigger] args.drop_first()[j]).0@ != key by {
            assert(args.drop_first()[j] == args[j + 1]);
        }
        lemma_member_at(args.drop_first(), key, i - 1);
        assert(args[0].0@ != key);
    }
}

proof fn lemma_member_absent(args: Seq<(String, Json)>, key: Seq<char>)
    requires
        forall|j: int| 0 <= j < args.len() ==> (#[trigger] args[j]).0@ != key,
    ensures
        member(args, key) is None,
    decreases args.len(),
{
    if args.len() > 0 {
        assert forall|j: int| 0 <= j < args.len() - 1 implies (#[trigger] args.drop_first()[j]).0@ != key by {
            assert(args.drop_first()[j] == args[j + 1]);
        }
        lemma_member_absent(args.drop_first(), key);
        assert(args[0].0@ != key);
    }
}

proof fn lemma_tool_names_differ()
    ensures
        "Glob"@ != "Read"@,
        "Bash"@ != "Read"@ && "Bash"@ != "Glob"@ && "Bash"@ != "Grep"@,
        "Write"@ != "Read"@ && "Write"@ != "Glob"@ && "Write"@ != "Grep"@ && "Write"@ != "Bash"@,
        "Edit"@ != "Read"@ && "Edit"@ != "Glob"@ && "Edit"@ != "Grep"@ && "Edit"@ != "Bash"@,
        "Grep"@ != "Read"@ && "Grep"@ != "Glob"@,
{
    reveal_strlit("Read");
    reveal_strlit("Glob");
    reveal_strlit("Grep");
    reveal_strlit("Bash");
    reveal_strlit("Write");
    reveal_strlit("Edit");
    assert("Glob"@[0] != "Read"@[0]);
    assert("Bash"@[0] != "Read"@[0] && "Bash"@[0] != "Glob"@[0] && "Bash"@[0] != "Grep"@[0]);
    assert("Write"@.len() != "Read"@.len() && "Write"@.len() != "Glob"@.len());
    assert("Write"@.len() != "Grep"@.len() && "Write"@.len() != "Bash"@.len());
    assert("Edit"@[0] != "Read"@[0] && "Edit"@[0] != "Glob"@[0] && "Edit"@[0] != "Grep"@[0] && "Edit"@[0] != "Bash"@[0]);
    assert("Grep"@[1] != "Read"@[1] && "Grep"@[1] != "Glob"@[1]);
}

/// `args[i]` is the argument `key` and a string: the first member with that key.
pub open spec fn text_arg_at(args: Seq<(String, Json)>, key: Seq<char>, i: int) -> bool {
    &&& 0 <= i < args.len()
    &&& args[i].0@ == key
    &&& args[i].1 is Str
    &&& forall|j: int| 0 <= j < i ==> (#[trigger] args[j]).0@ != key
}

/// A `Glob`, `Bash`, `Write` or `Edit` call is shown as the tool's name, a space, and its main
/// argument (`pattern`, `command`, `path`, `path`) when that is a string.
pub proof fn law_label_shows_main_argument(name: Seq<char>, key: Seq<char>, args: Seq<(String, Json)>, i: int)
    requires
        (name == "Glob"@ && key == "pattern"@) || (name == "Bash"@ && key == "command"@)
            || (name == "Write"@ && key == "path"@) || (name == "Edit"@ && key == "path"@),
        text_arg_at(args, key, i),
    ensures
        tool_label(name, args) == name + " "@ + (args[i].1->Str_0)@,
{
    lemma_member_at(args, key, i);
    lemma_tool_names_differ();
}

/// A `Glob`, `Bash`, `Write` or `Edit` call without its main argument is shown with `?` for it.
pub proof fn law_label_marks_missing_argument(name: Seq<char>, key: Seq<char>, args: Seq<(String, Json)>)
    requires
        (name == "Glob"@ && key == "pattern"@) || (name == "Bash"@ && key == "command"@)
            || (name == "Write"@ && key == "path"@) || (name == "Edit"@ && key == "path"@),
        forall|j: int| 0 <= j < args.len() ==> (#[trigger] args[j]).0@ != key,
    ensures
        tool_label(name, args) == name + " ?"@,
{
    lemma_member_absent(args, key);
    lemma_tool_names_differ();
    reveal_strlit(" ");
    reveal_strlit("?");
    reveal_strlit(" ?");
    assert(" "@ + "?"@ =~= " ?"@);
    assert(name + " "@ + "?"@ =~= name + " ?"@);
}

/// A `Grep` call is shown as `Grep`, its pattern, ` in ` and its files, when both are strings.
pub proof fn law_label_shows_grep(args: Seq<(String, Json)>, i: int, j: int)
    requires
        text_arg_at(args, "pattern"@, i),
        text_arg_at(args, "files"@, j),
    ensures
        tool_label("Grep"@, args) == "Grep "@ + (args[i].1->Str_0)@ + " in "@ + (args[j].1->Str_0)@,
{
    lemma_member_at(args, "pattern"@, i);
    lemma_member_at(args, "files"@, j);
    lemma_tool_names_differ();
    reveal_strlit("Grep");
    reveal_strlit("Grep ");
    reveal_strlit(" ");
    assert("Grep"@ + " "@ =~= "Grep "@);
}

/// A `Read` call is shown as `Read` and its file path, followed by ` (offset: n)` exactly when
/// it has an `offset` argument that is a non-negative integer `n`.
pub proof fn law_label_shows_read(args: Seq<(String, Json)>, i: int)
    requires
        text_arg_at(args, "filePath"@, i),
    ensures
        (forall|j: int| 0 <= j < args.len() ==> (#[trigger] args[j]).0@ != "offset"@)
            ==> tool_label("Read"@, args) == "Read "@ + (args[i].1->Str_0)@,
        forall|j: int, o: u64| text_free_number_at(args, "offset"@, j, o)
            ==> tool_label("Read"@, args) == "Read "@ + (args[i].1->Str_0)@ + " (offset: "@ + decimal(o as nat) + ")"@,
{
    lemma_member_at(args, "filePath"@, i);
    reveal_strlit("Read");
    reveal_strlit("Read ");
    reveal_strlit(" ");
    assert("Read"@ + " "@ =~= "Read "@);
    if forall|j: int| 0 <= j < args.len() ==> (#[trigger] args[j]).0@ != "offset"@ {
        lemma_member_absent(args, "offset"@);
    }
    assert forall|j: int, o: u64| text_free_number_at(args, "offset"@, j, o) implies tool_label("Read"@, args)
        == "Read "@ + (args[i].1->Str_0)@ + " (offset: "@ + decimal(o as nat) + ")"@ by {
        lemma_member_at(args, "offset"@, j);
    }
}

/// `args[j]` is the argument `key` and the non-negative integer `o`: the first member with
/// that key.
pub open spec fn text_free_number_at(args: Seq<(String, Json)>, key: Seq<char>, j: int, o: u64) -> bool {
    &&& 0 <= j < args.len()
    &&& args[j].0@ == key
    &&& args[j].1 == Json::Number(Some(o))
    &&& forall|k: int| 0 <= k < j ==> (#[trigger] args[k]).0@ != key
}

} // verus!
