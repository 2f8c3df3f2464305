//! Syntax highlighting of code blocks and diffs, with syntect's default syntaxes and theme.
use vstd::prelude::*;
use syntect::highlighting::Theme;
use syntect::parsing::SyntaxSet;
use crate::render::{fg, line_runs, plain, runs, span, Run};
use crate::text::{chars_of, decimal, decimal_of, lines, lines_of, push_char, string_of};
use crate::types::{Color, DiffHunk, DiffLine, DiffLineKind, FileDiff, Span, Style, StyledLine};
use crate::table::repeat;

verus! {

#[verifier::external_type_specification]
#[verifier::external_body]
pub struct ExSyntaxSet(SyntaxSet);

#[verifier::external_type_specification]
#[verifier::external_body]
pub struct ExTheme(Theme);

/// The syntax definitions and the color theme that code is highlighted with: syntect's
/// default syntaxes and its theme "base16-ocean.dark". `Highlighter::new` is the only way to
/// make one, so the names below, which speak of the defaults, hold of every highlighter.
pub struct Highlighter {
    syntaxes: SyntaxSet,
    theme: Theme,
}

/// syntect's default syntax definitions for lines without their newline
/// (`SyntaxSet::load_defaults_nonewlines`).
#[verifier::external_body]
fn default_syntaxes() -> SyntaxSet {
    SyntaxSet::load_defaults_nonewlines()
}

/// The names `ThemeSet::load_defaults` documents as the keys of its themes.
pub open spec fn is_default_theme_name(name: Seq<char>) -> bool {
    ||| name == "base16-ocean.dark"@
    ||| name == "base16-eighties.dark"@
    ||| name == "base16-mocha.dark"@
    ||| name == "base16-ocean.light"@
    ||| name == "InspiredGitHub"@
    ||| name == "Solarized (dark)"@
    ||| name == "Solarized (light)"@
}

/// The theme named `name` among syntect's default themes (`ThemeSet::load_defaults`), which
/// hold every documented name.
#[verifier::external_body]
fn default_theme_named(name: &str) -> Theme
    requires
        is_default_theme_name(name@),
{
    syntect::highlighting::ThemeSet::load_defaults().themes[name].clone()
}

impl Highlighter {
    /// A highlighter with syntect's default syntaxes and its theme "base16-ocean.dark".
    pub fn new() -> Highlighter {
        Highlighter { syntaxes: default_syntaxes(), theme: default_theme_named("base16-ocean.dark") }
    }

    /// The syntax definitions, for looking up the syntax of a file.
    pub fn syntax_set(&self) -> &SyntaxSet {
        &self.syntaxes
    }
}

/// Highlighted ranges of a line: color (red, green, blue) and text.
pub type Ranges = Vec<(u8, u8, u8, String)>;

/// The contents of highlighted ranges.
pub open spec fn ranges_view(r: Seq<Ranges>) -> Seq<Seq<(u8, u8, u8, Seq<char>)>> {
    r.map_values(|l: Ranges| l@.map_values(|x: (u8, u8, u8, String)| (x.0, x.1, x.2, x.3@)))
}

/// The contents of strings.
pub open spec fn strings_view(v: Seq<String>) -> Seq<Seq<char>> {
    v.map_values(|s: String| s@)
}

/// The text of a line's ranges, one after another.
pub open spec fn spelled(r: Seq<(u8, u8, u8, Seq<char>)>) -> Seq<char>
    decreases r.len(),
{
    if r.len() == 0 {
        seq![]
    } else {
        spelled(r.drop_last()) + r.last().3
    }
}

/// The ranges of each line spell that line, except for a line syntect fails on, which has
/// none.
pub open spec fn spell_lines(rs: Seq<Seq<(u8, u8, u8, Seq<char>)>>, lines: Seq<Seq<char>>) -> bool {
    &&& rs.len() == lines.len()
    &&& forall|i: int| 0 <= i < rs.len() ==> spelled(#[trigger] rs[i]) == lines[i] || rs[i].len() == 0
}

/// Whether `SyntaxSet::find_syntax_by_token` finds a syntax for `token` among syntect's
/// default syntaxes.
pub uninterp spec fn token_found(token: Seq<char>) -> bool;

/// Whether `SyntaxSet::find_syntax_by_name` finds a syntax named `name` among syntect's
/// default syntaxes.
pub uninterp spec fn name_found(name: Seq<char>) -> bool;

/// The ranges syntect's `HighlightLines::highlight_line` gives for `lines`, highlighted one
/// after another with the default theme and the default syntax `find_syntax_by_token` finds
/// for `token`; no range for a line it fails on.
pub uninterp spec fn token_ranges(token: Seq<char>, lines: Seq<Seq<char>>) -> Seq<Seq<(u8, u8, u8, Seq<char>)>>;

/// As `token_ranges`, with the default syntax `find_syntax_by_name` finds for `name`.
pub uninterp spec fn named_ranges(name: Seq<char>, lines: Seq<Seq<char>>) -> Seq<Seq<(u8, u8, u8, Seq<char>)>>;

/// As `token_ranges`, with the default plain-text syntax (`find_syntax_plain_text`).
pub uninterp spec fn plain_ranges(lines: Seq<Seq<char>>) -> Seq<Seq<(u8, u8, u8, Seq<char>)>>;

/// Looks a token up with `SyntaxSet::find_syntax_by_token`; whether it is found is
/// `token_found` of the token.
#[verifier::external_body]
fn has_syntax_for_token(h: &Highlighter, token: &str) -> (b: bool)
    ensures
        b == token_found(token@),
{
    h.syntaxes.find_syntax_by_token(token).is_some()
}

/// Looks a name up with `SyntaxSet::find_syntax_by_name`; whether it is found is `name_found`
/// of the name.
#[verifier::external_body]
fn has_syntax_named(h: &Highlighter, name: &str) -> (b: bool)
    ensures
        b == name_found(name@),
{
    h.syntaxes.find_syntax_by_name(name).is_some()
}

/// Highlights `lines` with syntect (`find_syntax_by_token`, `HighlightLines::highlight_line`):
/// the ranges are `token_ranges` of the token and the lines; syntect documents that a line's
/// ranges, one after another, make the line.
#[verifier::external_body]
fn highlight_by_token(h: &Highlighter, token: &str, lines: &Vec<String>) -> (r: Vec<Ranges>)
    requires
        token_found(token@),
    ensures
        ranges_view(r@) == token_ranges(token@, strings_view(lines@)),
        spell_lines(ranges_view(r@), strings_view(lines@)),
{
    let syntax = h.syntaxes.find_syntax_by_token(token).unwrap();
    let mut hl = syntect::easy::HighlightLines::new(syntax, &h.theme);
    let mut out = Vec::new();
    for line in lines {
        let ranges = hl.highlight_line(line, &h.syntaxes).unwrap_or_default();
        out.push(ranges.iter().map(|(s, t)| (s.foreground.r, s.foreground.g, s.foreground.b, t.to_string())).collect());
    }
    out
}

/// Highlights `lines` with syntect (`find_syntax_by_name`, `HighlightLines::highlight_line`):
/// the ranges are `named_ranges` of the name and the lines, and spell them.
#[verifier::external_body]
fn highlight_by_name(h: &Highlighter, name: &str, lines: &Vec<String>) -> (r: Vec<Ranges>)
    requires
        name_found(name@),
    ensures
        ranges_view(r@) == named_ranges(name@, strings_view(lines@)),
        spell_lines(ranges_view(r@), strings_view(lines@)),
{
    let syntax = h.syntaxes.find_syntax_by_name(name).unwrap();
    let mut hl = syntect::easy::HighlightLines::new(syntax, &h.theme);
    let mut out = Vec::new();
    for line in lines {
        let ranges = hl.highlight_line(line, &h.syntaxes).unwrap_or_default();
        out.push(ranges.iter().map(|(s, t)| (s.foreground.r, s.foreground.g, s.foreground.b, t.to_string())).collect());
    }
    out
}

/// Highlights `lines` with syntect's plain-text syntax (`find_syntax_plain_text`, which the
/// default syntaxes hold, and `HighlightLines::highlight_line`): the ranges are `plain_ranges`
/// of the lines, and spell them.
#[verifier::external_body]
fn highlight_plain(h: &Highlighter, lines: &Vec<String>) -> (r: Vec<Ranges>)
    ensures
        ranges_view(r@) == plain_ranges(strings_view(lines@)),
        spell_lines(ranges_view(r@), strings_view(lines@)),
{
    let syntax = h.syntaxes.find_syntax_plain_text();
    let mut hl = syntect::easy::HighlightLines::new(syntax, &h.theme);
    let mut out = Vec::new();
    for line in lines {
        let ranges = hl.highlight_line(line, &h.syntaxes).unwrap_or_default();
        out.push(ranges.iter().map(|(s, t)| (s.foreground.r, s.foreground.g, s.foreground.b, t.to_string())).collect());
    }
    out
}

/// The ranges of a code block's lines: with the syntax its language tag names, or plain text
/// when there is none.
pub open spec fn code_ranges(token: Seq<char>, lines: Seq<Seq<char>>) -> Seq<Seq<(u8, u8, u8, Seq<char>)>> {
    if token_found(token) { token_ranges(token, lines) } else { plain_ranges(lines) }
}

/// The ranges of a diff's lines: with the syntax named `name`, or plain text when there is
/// none.
pub open spec fn diff_ranges(name: Seq<char>, lines: Seq<Seq<char>>) -> Seq<Seq<(u8, u8, u8, Seq<char>)>> {
    if name_found(name) { named_ranges(name, lines) } else { plain_ranges(lines) }
}

/// The ranges of a code block's lines, highlighted for its language (see `code_ranges`).
fn highlight_code_lines(h: &Highlighter, token: &str, lines: &Vec<String>) -> (r: Vec<Ranges>)
    ensures
        ranges_view(r@) == code_ranges(token@, strings_view(lines@)),
        spell_lines(ranges_view(r@), strings_view(lines@)),
{
    if has_syntax_for_token(h, token) {
        highlight_by_token(h, token, lines)
    } else {
        highlight_plain(h, lines)
    }
}

/// The ranges of a diff's lines, highlighted with the syntax named `name` (see `diff_ranges`).
fn highlight_diff_lines(h: &Highlighter, name: &str, lines: &Vec<String>) -> (r: Vec<Ranges>)
    ensures
        ranges_view(r@) == diff_ranges(name@, strings_view(lines@)),
        spell_lines(ranges_view(r@), strings_view(lines@)),
{
    if has_syntax_named(h, name) {
        highlight_by_name(h, name, lines)
    } else {
        highlight_plain(h, lines)
    }
}

/// A highlighted line as runs: each range in its color; an empty run when there is none.
pub open spec fn colored(r: Seq<(u8, u8, u8, Seq<char>)>) -> Seq<Run> {
    if r.len() == 0 {
        seq![(seq![], plain())]
    } else {
        r.map_values(|x: (u8, u8, u8, Seq<char>)| (x.3, fg(Color::Rgb(x.0, x.1, x.2))))
    }
}

/// A line of a code block as displayed.
pub open spec fn code_lines(rs: Seq<Seq<(u8, u8, u8, Seq<char>)>>) -> Seq<Seq<Run>> {
    rs.map_values(|r: Seq<(u8, u8, u8, Seq<char>)>| colored(r))
}

fn colored_line(r: &Ranges, over: Option<Color>) -> (l: StyledLine)
    ensures
        runs(l@) == match over {
            None => colored(ranges_view(seq![*r])[0]),
            Some(c) => recolored(ranges_view(seq![*r])[0], c),
        },
{
    let ghost rv = ranges_view(seq![*r])[0];
    assert(rv == r@.map_values(|x: (u8, u8, u8, String)| (x.0, x.1, x.2, x.3@)));
    let mut l: StyledLine = Vec::new();
    if r.len() == 0 {
        l.push(span(String::new(), Style { fg: None, bold: false, italic: false }));
        assert(runs(l@) =~= seq![(Seq::<char>::empty(), plain())]);
        return l;
    }
    let mut i: usize = 0;
    while i < r.len()
        invariant
            rv == r@.map_values(|x: (u8, u8, u8, String)| (x.0, x.1, x.2, x.3@)),
            i <= r@.len(),
            runs(l@) == match over {
                None => rv.take(i as int).map_values(|x: (u8, u8, u8, Seq<char>)| (x.3, fg(Color::Rgb(x.0, x.1, x.2)))),
                Some(c) => rv.take(i as int).map_values(|x: (u8, u8, u8, Seq<char>)| (x.3, fg(c))),
            },
        decreases r@.len() - i,
    {
        let (cr, cg, cb) = (r[i].0, r[i].1, r[i].2);
        let color = match over {
            Some(c) => c,
            None => Color::Rgb(cr, cg, cb),
        };
        let ghost before = runs(l@);
        l.push(span(r[i].3.clone(), Style { fg: Some(color), bold: false, italic: false }));
        assert(runs(l@) =~= before.push((rv[i as int].3, fg(color))));
        i = i + 1;
        assert(rv.take(i as int).drop_last() =~= rv.take(i - 1));
        assert(rv.take(i as int).map_values(|x: (u8, u8, u8, Seq<char>)| (x.3, fg(Color::Rgb(x.0, x.1, x.2))))
            =~= rv.take(i - 1).map_values(|x: (u8, u8, u8, Seq<char>)| (x.3, fg(Color::Rgb(x.0, x.1, x.2)))).push((rv[i - 1].3, fg(Color::Rgb(rv[i - 1].0, rv[i - 1].1, rv[i - 1].2)))));
        assert(over matches Some(c) ==> rv.take(i as int).map_values(|x: (u8, u8, u8, Seq<char>)| (x.3, fg(c)))
            =~= rv.take(i - 1).map_values(|x: (u8, u8, u8, Seq<char>)| (x.3, fg(c))).push((rv[i - 1].3, fg(c))));
    }
    assert(rv.take(r@.len() as int) =~= rv);
    l
}

/// A highlighted line with every range in color `c`; an empty run when there is none.
pub open spec fn recolored(r: Seq<(u8, u8, u8, Seq<char>)>, c: Color) -> Seq<Run> {
    if r.len() == 0 {
        seq![(seq![], plain())]
    } else {
        r.map_values(|x: (u8, u8, u8, Seq<char>)| (x.3, fg(c)))
    }
}

/// Highlights a code block: each line (as `str::lines` splits `code`) as the ranges syntect
/// gives for the syntax named by `language`, each in its color.
pub fn highlight_code_block(h: &Highlighter, code: &str, language: &str) -> (r: Vec<StyledLine>)
    ensures
        line_runs(r@) == code_lines(code_ranges(language@, lines(code@))),
        r@.len() == lines(code@).len(),
        forall|i: int| 0 <= i < r@.len() ==> runs_text(#[trigger] line_runs(r@)[i]) == lines(code@)[i]
            || runs_text(line_runs(r@)[i]).len() == 0,
{
    let cs = chars_of(code);
    let ls = lines_of(&cs);
    let mut texts: Vec<String> = Vec::new();
    let mut i: usize = 0;
    while i < ls.len()
        invariant
            i <= ls@.len(),
            ls@.len() == lines(code@).len(),
            forall|t: int| 0 <= t < ls@.len() ==> (#[trigger] ls@[t])@ == lines(code@)[t],
            strings_view(texts@) == lines(code@).take(i as int),
        decreases ls@.len() - i,
    {
        let s = string_of(&ls[i], 0, ls[i].len());
        assert(ls@[i as int]@.subrange(0, ls@[i as int]@.len() as int) =~= ls@[i as int]@);
        let ghost before = strings_view(texts@);
        texts.push(s);
        assert(strings_view(texts@) =~= before.push(lines(code@)[i as int]));
        i = i + 1;
        assert(strings_view(texts@) =~= lines(code@).take(i as int));
    }
    assert(lines(code@).take(ls@.len() as int) =~= lines(code@));
    let rs = highlight_code_lines(h, language, &texts);
    let ghost rv = ranges_view(rs@);
    let mut out: Vec<StyledLine> = Vec::new();
    let mut k: usize = 0;
    while k < rs.len()
        invariant
            k <= rs@.len(),
            rv == ranges_view(rs@),
            line_runs(out@) == code_lines(rv.take(k as int)),
        decreases rs@.len() - k,
    {
        let l = colored_line(&rs[k], None);
        assert(ranges_view(seq![rs@[k as int]])[0] == rv[k as int]);
        let ghost before = line_runs(out@);
        out.push(l);
        assert(line_runs(out@) =~= before.push(colored(rv[k as int])));
        k = k + 1;
        assert(code_lines(rv.take(k as int)) =~= code_lines(rv.take(k - 1)).push(colored(rv[k - 1])));
    }
    assert(rv.take(rs@.len() as int) =~= rv);
    proof {
        assert forall|i: int| 0 <= i < out@.len() implies runs_text(#[trigger] line_runs(out@)[i]) == lines(code@)[i]
            || runs_text(line_runs(out@)[i]).len() == 0 by {
            assert(line_runs(out@)[i] == colored(rv[i]));
            lemma_colored_text(rv[i]);
            assert(spelled(rv[i]) == strings_view(texts@)[i] || rv[i].len() == 0);
        }
    }
    out
}

/// The text of runs, one after another.
pub open spec fn runs_text(l: Seq<Run>) -> Seq<char>
    decreases l.len(),
{
    if l.len() == 0 {
        seq![]
    } else {
        runs_text(l.drop_last()) + l.last().0
    }
}

proof fn lemma_colored_text(r: Seq<(u8, u8, u8, Seq<char>)>)
    ensures
        r.len() > 0 ==> runs_text(colored(r)) == spelled(r),
        r.len() == 0 ==> runs_text(colored(r)).len() == 0,
{
    lemma_map_text(r);
    if r.len() == 0 {
        let c = colored(r);
        assert(c == seq![(Seq::<char>::empty(), plain())]);
        assert(c.drop_last() =~= Seq::<Run>::empty());
        assert(c.last().0 == Seq::<char>::empty());
        assert(runs_text(Seq::<Run>::empty()) == Seq::<char>::empty());
        assert(runs_text(c) == runs_text(c.drop_last()) + c.last().0);
    }
}

proof fn lemma_map_text(r: Seq<(u8, u8, u8, Seq<char>)>)
    ensures
        runs_text(r.map_values(|x: (u8, u8, u8, Seq<char>)| (x.3, fg(Color::Rgb(x.0, x.1, x.2))))) == spelled(r),
    decreases r.len(),
{
    if r.len() > 0 {
        lemma_map_text(r.drop_last());
        assert(r.map_values(|x: (u8, u8, u8, Seq<char>)| (x.3, fg(Color::Rgb(x.0, x.1, x.2)))).drop_last()
            =~= r.drop_last().map_values(|x: (u8, u8, u8, Seq<char>)| (x.3, fg(Color::Rgb(x.0, x.1, x.2)))));
    }
}


/// A line of a diff: its kind, line number and text.
pub type DiffLineView = (DiffLineKind, usize, Seq<char>);

/// The lines of each hunk of a diff.
pub open spec fn hunks_view(diff: FileDiff) -> Seq<Seq<DiffLineView>> {
    diff.hunks@.map_values(|h: DiffHunk| h.lines@.map_values(|l: DiffLine| (l.kind, l.lineno, l.content@)))
}

/// The number of lines in all hunks.
pub open spec fn line_count(hunks: Seq<Seq<DiffLineView>>) -> int
    decreases hunks.len(),
{
    if hunks.len() == 0 {
        0
    } else {
        line_count(hunks.drop_last()) + hunks.last().len()
    }
}

/// The texts of all lines of all hunks, in order.
pub open spec fn diff_texts(hunks: Seq<Seq<DiffLineView>>) -> Seq<Seq<char>>
    decreases hunks.len(),
{
    if hunks.len() == 0 {
        seq![]
    } else {
        diff_texts(hunks.drop_last()) + hunks.last().map_values(|l: DiffLineView| l.2)
    }
}

/// `s` right-aligned in four columns.
pub open spec fn pad4(s: Seq<char>) -> Seq<char> {
    if s.len() < 4 {
        repeat(' ', 4 - s.len()) + s
    } else {
        s
    }
}

/// The marker of a diff line: `+` in green, `-` in red, or a blank.
pub open spec fn marker(kind: DiffLineKind) -> Run {
    match kind {
        DiffLineKind::Added => ("+"@, fg(Color::Green)),
        DiffLineKind::Removed => ("-"@, fg(Color::Red)),
        DiffLineKind::Context => (" "@, plain()),
    }
}

/// The text of a diff line as displayed: highlighted, but all green when added and all red
/// when removed.
pub open spec fn diff_content(kind: DiffLineKind, r: Seq<(u8, u8, u8, Seq<char>)>) -> Seq<Run> {
    match kind {
        DiffLineKind::Added => recolored(r, Color::Green),
        DiffLineKind::Removed => recolored(r, Color::Red),
        DiffLineKind::Context => colored(r),
    }
}

/// A diff line as displayed: its number right-aligned in four columns, a space, its marker, a
/// space, its text.
pub open spec fn diff_line(l: DiffLineView, r: Seq<(u8, u8, u8, Seq<char>)>) -> Seq<Run> {
    seq![(pad4(decimal(l.1 as nat)), fg(Color::DarkGray)), (" "@, plain()), marker(l.0), (" "@, plain())]
        + diff_content(l.0, r)
}

/// The line shown between two hunks.
pub open spec fn hunk_separator() -> Seq<Run> {
    seq![("~~~ (hunk separator) ~~~"@, fg(Color::DarkGray))]
}

/// The lines of the hunks of a diff as displayed, `ranges` holding the highlighted ranges of
/// every line of every hunk in order: each hunk's lines, a separator line between two hunks.
pub open spec fn diff_display(hunks: Seq<Seq<DiffLineView>>, ranges: Seq<Seq<(u8, u8, u8, Seq<char>)>>) -> Seq<Seq<Run>>
    decreases hunks.len(),
{
    if hunks.len() == 0 {
        seq![]
    } else {
        let k = line_count(hunks.drop_last());
        let last = hunks.last();
        diff_display(hunks.drop_last(), ranges) + (if hunks.len() > 1 { seq![hunk_separator()] } else { seq![] })
            + Seq::new(last.len(), |i: int| diff_line(last[i], ranges[k + i]))
    }
}

/// The lines of a diff as displayed, highlighted with the syntax syntect names `syntax`.
pub open spec fn rendered_diff(diff: FileDiff, syntax: Seq<char>) -> Seq<Seq<Run>> {
    diff_display(hunks_view(diff), diff_ranges(syntax, diff_texts(hunks_view(diff))))
}

proof fn lemma_diff_texts_len(hunks: Seq<Seq<DiffLineView>>)
    ensures
        diff_texts(hunks).len() == line_count(hunks),
    decreases hunks.len(),
{
    if hunks.len() > 0 {
        lemma_diff_texts_len(hunks.drop_last());
    }
}

fn number_text(n: usize) -> (s: String)
    ensures
        s@ == pad4(decimal(n as nat)),
{
    let d = decimal_of(n as u64);
    let mut s = String::new();
    let len = d.len();
    if len < 4 {
        let mut k: usize = 0;
        while k < 4 - len
            invariant
                len < 4,
                k <= 4 - len,
                s@ == repeat(' ', k as int),
            decreases 4 - len - k,
        {
            push_char(&mut s, ' ');
            k = k + 1;
            assert(s@ =~= repeat(' ', k as int));
        }
    }
    let ghost pre = s@;
    let mut i: usize = 0;
    while i < len
        invariant
            len == d@.len(),
            i <= len,
            s@ == pre + d@.take(i as int),
        decreases len - i,
    {
        push_char(&mut s, d[i]);
        i = i + 1;
        assert(s@ =~= pre + d@.take(i as int));
    }
    assert(d@.take(len as int) =~= d@);
    assert(s@ =~= pad4(decimal(n as nat)));
    s
}

/// The row at which line `i` of hunk `h` is displayed: after the lines of the hunks before it
/// and one separator before each hunk but the first.
pub open spec fn diff_row(hunks: Seq<Seq<DiffLineView>>, h: int, i: int) -> int {
    line_count(hunks.take(h)) + h + i
}

/// Each line of each hunk is displayed at its row, and the text after its number and marker
/// reads as the line's text, or is empty where syntect gave no ranges for it.
pub open spec fn rows_show_texts(hunks: Seq<Seq<DiffLineView>>, rows: Seq<Seq<Run>>) -> bool {
    forall|h: int, i: int|
        0 <= h < hunks.len() && 0 <= i < hunks[h].len() ==> row_shows(rows, diff_row(hunks, h, i), #[trigger] hunks[h][i])
}

/// Row `row` exists and, after its number and marker, reads as the text of `l` or is empty.
pub open spec fn row_shows(rows: Seq<Seq<Run>>, row: int, l: DiffLineView) -> bool {
    &&& 0 <= row < rows.len()
    &&& content_text(rows[row]) == l.2 || content_text(rows[row]).len() == 0
}

/// The text of a displayed diff line after its number, space, marker and space.
pub open spec fn content_text(row: Seq<Run>) -> Seq<char> {
    runs_text(row.skip(4))
}

proof fn lemma_map_color_text(r: Seq<(u8, u8, u8, Seq<char>)>, c: Color)
    ensures
        runs_text(r.map_values(|x: (u8, u8, u8, Seq<char>)| (x.3, fg(c)))) == spelled(r),
    decreases r.len(),
{
    if r.len() > 0 {
        lemma_map_color_text(r.drop_last(), c);
        assert(r.map_values(|x: (u8, u8, u8, Seq<char>)| (x.3, fg(c))).drop_last()
            =~= r.drop_last().map_values(|x: (u8, u8, u8, Seq<char>)| (x.3, fg(c))));
    }
}

proof fn lemma_recolored_text(r: Seq<(u8, u8, u8, Seq<char>)>, c: Color)
    ensures
        r.len() > 0 ==> runs_text(recolored(r, c)) == spelled(r),
        r.len() == 0 ==> runs_text(recolored(r, c)).len() == 0,
{
    lemma_map_color_text(r, c);
    if r.len() == 0 {
        let x = recolored(r, c);
        assert(x.drop_last() =~= Seq::<Run>::empty());
        assert(runs_text(x) == runs_text(x.drop_last()) + x.last().0);
    }
}

proof fn lemma_diff_line_text(l: DiffLineView, r: Seq<(u8, u8, u8, Seq<char>)>)
    requires
        spelled(r) == l.2 || r.len() == 0,
    ensures
        content_text(diff_line(l, r)) == l.2 || content_text(diff_line(l, r)).len() == 0,
{
    assert(diff_line(l, r).skip(4) =~= diff_content(l.0, r));
    lemma_colored_text(r);
    lemma_recolored_text(r, Color::Green);
    lemma_recolored_text(r, Color::Red);
}

proof fn lemma_line_count_nonneg(hunks: Seq<Seq<DiffLineView>>)
    ensures
        line_count(hunks) >= 0,
    decreases hunks.len(),
{
    if hunks.len() > 0 {
        lemma_line_count_nonneg(hunks.drop_last());
    }
}

proof fn lemma_diff_texts_row(hunks: Seq<Seq<DiffLineView>>, h: int, i: int)
    requires
        0 <= h < hunks.len(),
        0 <= i < hunks[h].len(),
    ensures
        0 <= line_count(hunks.take(h)) + i < line_count(hunks),
        diff_texts(hunks)[line_count(hunks.take(h)) + i] == hunks[h][i].2,
    decreases hunks.len(),
{
    let dl = hunks.drop_last();
    lemma_diff_texts_len(dl);
    lemma_line_count_nonneg(hunks.take(h));
    let a = diff_texts(dl);
    let b = hunks.last().map_values(|l: DiffLineView| l.2);
    assert(diff_texts(hunks) == a + b);
    if h < hunks.len() - 1 {
        lemma_diff_texts_row(dl, h, i);
        assert(dl.take(h) =~= hunks.take(h));
        assert(dl[h] == hunks[h]);
        let k = line_count(hunks.take(h)) + i;
        assert((a + b)[k] == a[k]);
    } else {
        assert(hunks.take(h) =~= dl);
        let k = line_count(dl) + i;
        assert((a + b)[k] == b[i]);
    }
}

proof fn lemma_diff_display_row(hunks: Seq<Seq<DiffLineView>>, ranges: Seq<Seq<(u8, u8, u8, Seq<char>)>>, h: int, i: int)
    requires
        0 <= h < hunks.len(),
        0 <= i < hunks[h].len(),
    ensures
        0 <= diff_row(hunks, h, i) < diff_display(hunks, ranges).len(),
        diff_display(hunks, ranges)[diff_row(hunks, h, i)] == diff_line(hunks[h][i], ranges[line_count(hunks.take(h)) + i]),
    decreases hunks.len(),
{
    let dl = hunks.drop_last();
    law_diff_line_count(dl, ranges);
    law_diff_line_count(hunks, ranges);
    lemma_line_count_nonneg(hunks.take(h));
    lemma_line_count_nonneg(dl);
    let k = line_count(dl);
    let last = hunks.last();
    let a = diff_display(dl, ranges);
    let sep: Seq<Seq<Run>> = if hunks.len() > 1 { seq![hunk_separator()] } else { seq![] };
    let n = Seq::new(last.len(), |t: int| diff_line(last[t], ranges[k + t]));
    assert(diff_display(hunks, ranges) == a + sep + n);
    let row = diff_row(hunks, h, i);
    if h < hunks.len() - 1 {
        lemma_diff_display_row(dl, ranges, h, i);
        assert(dl.take(h) =~= hunks.take(h));
        assert(dl[h] == hunks[h]);
        assert((a + sep + n)[row] == a[row]);
    } else {
        assert(hunks.take(h) =~= dl);
        assert(a.len() + sep.len() == k + h);
        assert((a + sep + n)[row] == n[i]);
    }
}

/// Displays a diff: each hunk's lines with their numbers, `+`/`-` markers and highlighted text
/// (green when added, red when removed), a separator line between hunks. `syntax` names the
/// syntect syntax to highlight with (plain text when there is no such syntax).
pub fn render_diff(h: &Highlighter, diff: &FileDiff, syntax: &str) -> (r: Vec<StyledLine>)
    ensures
        line_runs(r@) == rendered_diff(*diff, syntax@),
        rows_show_texts(hunks_view(*diff), line_runs(r@)),
{
    let ghost hv = hunks_view(*diff);
    let nh = diff.hunks.len();
    // All line texts, in order.
    let mut texts: Vec<String> = Vec::new();
    let mut hi: usize = 0;
    while hi < nh
        invariant
            nh == diff.hunks@.len() == hv.len(),
            hv == hunks_view(*diff),
            hi <= nh,
            strings_view(texts@) == diff_texts(hv.take(hi as int)),
        decreases nh - hi,
    {
        let hunk = &diff.hunks[hi];
        let ghost hl = hv[hi as int];
        assert(hl == hunk.lines@.map_values(|l: DiffLine| (l.kind, l.lineno, l.content@)));
        let ghost base = strings_view(texts@);
        let mut li: usize = 0;
        while li < hunk.lines.len()
            invariant
                hl == hunk.lines@.map_values(|l: DiffLine| (l.kind, l.lineno, l.content@)),
                li <= hunk.lines@.len(),
                strings_view(texts@) == base + hl.take(li as int).map_values(|l: DiffLineView| l.2),
            decreases hunk.lines@.len() - li,
        {
            let ghost before = strings_view(texts@);
            texts.push(hunk.lines[li].content.clone());
            assert(strings_view(texts@) =~= before.push(hl[li as int].2));
            li = li + 1;
            assert(hl.take(li as int).map_values(|l: DiffLineView| l.2) =~= hl.take(li - 1).map_values(|l: DiffLineView| l.2).push(hl[li - 1].2));
        }
        assert(hl.take(hunk.lines@.len() as int) =~= hl);
        assert(hv.take(hi + 1).drop_last() =~= hv.take(hi as int));
        assert(hv.take(hi + 1).last() == hl);
        hi = hi + 1;
    }
    assert(hv.take(nh as int) =~= hv);
    let rs = highlight_diff_lines(h, syntax, &texts);
    let nr = rs.len();
    let ghost rv = ranges_view(rs@);
    proof {
        lemma_diff_texts_len(hv);
        assert(spell_lines(rv, diff_texts(hv)));
    }
    let mut out: Vec<StyledLine> = Vec::new();
    let mut idx: usize = 0;
    let mut hi: usize = 0;
    while hi < nh
        invariant
            nh == diff.hunks@.len() == hv.len(),
            hv == hunks_view(*diff),
            rv == ranges_view(rs@),
            rv.len() == line_count(hv),
            spell_lines(rv, diff_texts(hv)),
            nr == rs@.len(),
            hi <= nh,
            idx == line_count(hv.take(hi as int)),
            line_runs(out@) == diff_display(hv.take(hi as int), rv),
        decreases nh - hi,
    {
        let hunk = &diff.hunks[hi];
        let ghost hl = hv[hi as int];
        assert(hl == hunk.lines@.map_values(|l: DiffLine| (l.kind, l.lineno, l.content@)));
        assert(hv.take(hi + 1).drop_last() =~= hv.take(hi as int));
        assert(hv.take(hi + 1).last() == hl);
        proof {
            lemma_line_count_prefix(hv, (hi + 1) as int);
        }
        if hi > 0 {
            let mut sep: StyledLine = Vec::new();
            sep.push(span("~~~ (hunk separator) ~~~".to_owned(), Style { fg: Some(Color::DarkGray), bold: false, italic: false }));
            assert(runs(sep@) =~= hunk_separator());
            let ghost before = line_runs(out@);
            out.push(sep);
            assert(line_runs(out@) =~= before.push(hunk_separator()));
        }
        let ghost base = line_runs(out@);
        let mut li: usize = 0;
        while li < hunk.lines.len()
            invariant
                hl == hunk.lines@.map_values(|l: DiffLine| (l.kind, l.lineno, l.content@)),
                rv == ranges_view(rs@),
                rv.len() == line_count(hv),
                nr == rs@.len(),
                idx + hunk.lines@.len() <= rv.len(),
                li <= hunk.lines@.len(),
                line_runs(out@) == base + Seq::new(li as nat, |i: int| diff_line(hl[i], rv[idx + i])),
            decreases hunk.lines@.len() - li,
        {
            let line = &hunk.lines[li];
            let kind = line.kind;
            let mut spans: StyledLine = Vec::new();
            spans.push(span(number_text(line.lineno), Style { fg: Some(Color::DarkGray), bold: false, italic: false }));
            spans.push(span(" ".to_owned(), Style { fg: None, bold: false, italic: false }));
            match kind {
                DiffLineKind::Added => spans.push(span("+".to_owned(), Style { fg: Some(Color::Green), bold: false, italic: false })),
                DiffLineKind::Removed => spans.push(span("-".to_owned(), Style { fg: Some(Color::Red), bold: false, italic: false })),
                DiffLineKind::Context => spans.push(span(" ".to_owned(), Style { fg: None, bold: false, italic: false })),
            }
            spans.push(span(" ".to_owned(), Style { fg: None, bold: false, italic: false }));
            let over = match kind {
                DiffLineKind::Added => Some(Color::Green),
                DiffLineKind::Removed => Some(Color::Red),
                DiffLineKind::Context => None,
            };
            let content = colored_line(&rs[idx + li], over);
            assert(ranges_view(seq![rs@[idx + li]])[0] == rv[idx + li]);
            let ghost head = runs(spans@);
            let mut k: usize = 0;
            while k < content.len()
                invariant
                    k <= content@.len(),
                    runs(spans@) == head + runs(content@.take(k as int)),
                decreases content@.len() - k,
            {
                let ghost b2 = runs(spans@);
                spans.push(span(content[k].content.clone(), content[k].style));
                assert(runs(spans@) =~= b2.push((content@[k as int].content@, content@[k as int].style)));
                k = k + 1;
                assert(runs(content@.take(k as int)) =~= runs(content@.take(k - 1)).push((content@[k - 1].content@, content@[k - 1].style)));
            }
            assert(content@.take(content@.len() as int) =~= content@);
            assert(hl[li as int] == (line.kind, line.lineno, line.content@));
            assert(runs(spans@) =~= diff_line(hl[li as int], rv[idx + li]));
            let ghost b3 = line_runs(out@);
            out.push(spans);
            assert(line_runs(out@) =~= b3.push(diff_line(hl[li as int], rv[idx + li])));
            li = li + 1;
            assert(Seq::new(li as nat, |i: int| diff_line(hl[i], rv[idx + i])) =~= Seq::new((li - 1) as nat, |i: int| diff_line(hl[i], rv[idx + i])).push(diff_line(hl[li - 1], rv[idx + li - 1])));
        }
        assert(line_runs(out@) =~= diff_display(hv.take(hi + 1), rv));
        idx = idx + hunk.lines.len();
        hi = hi + 1;
    }
    assert(hv.take(nh as int) =~= hv);
    proof {
        let rows = line_runs(out@);
        assert forall|hk: int, i: int| 0 <= hk < hv.len() && 0 <= i < hv[hk].len() implies row_shows(
            rows,
            diff_row(hv, hk, i),
            #[trigger] hv[hk][i],
        ) by {
            lemma_diff_display_row(hv, rv, hk, i);
            lemma_diff_texts_row(hv, hk, i);
            lemma_line_count_nonneg(hv.take(hk));
            let k = line_count(hv.take(hk)) + i;
            assert(spelled(rv[k]) == diff_texts(hv)[k] || rv[k].len() == 0);
            lemma_diff_line_text(hv[hk][i], rv[k]);
        }
        assert(rows_show_texts(hv, rows));
    }
    out
}

proof fn lemma_line_count_prefix(hunks: Seq<Seq<DiffLineView>>, k: int)
    requires
        0 <= k <= hunks.len(),
    ensures
        line_count(hunks.take(k)) <= line_count(hunks),
    decreases hunks.len() - k,
{
    if k < hunks.len() {
        lemma_line_count_prefix(hunks, k + 1);
        assert(hunks.take(k + 1).drop_last() =~= hunks.take(k));
    } else {
        assert(hunks.take(k) =~= hunks);
    }
}


/// A diff is shown as all the lines of its hunks and one separator between each two hunks.
pub proof fn law_diff_line_count(hunks: Seq<Seq<DiffLineView>>, ranges: Seq<Seq<(u8, u8, u8, Seq<char>)>>)
    ensures
        diff_display(hunks, ranges).len() == line_count(hunks) + if hunks.len() > 0 { hunks.len() - 1 } else { 0 },
    decreases hunks.len(),
{
    if hunks.len() > 0 {
        law_diff_line_count(hunks.drop_last(), ranges);
    }
}

} // verus!
