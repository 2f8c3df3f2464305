//! Markdown tables: finding them among the lines of a message, and drawing them with borders.
use vstd::prelude::*;
use crate::text::{
    byte_len, byte_len_of, chars_of, contains_in, contains_seq, lemma_byte_len_concat,
    lemma_byte_len_single, lemma_byte_len_split, lemma_char_width, lemma_find_from_bounds,
    find_from, lines, lines_of, starts_with, starts_with_in, string_of, strip_cr, trim, trim_chars,
    split_char, split_on, is_white_space, is_whitespace, push_char,
};
use crate::render::{
    fg, line_runs, markdown_events, md_runs, parse_markdown_line, plain, runs, span, wrap_spans,
    wrapped, Run,
};
use crate::types::{Color, Style, StyledLine};

verus! {

/// A line that belongs to a table: it holds a `|` and is not a code fence.
pub open spec fn is_table_line(l: Seq<char>) -> bool {
    contains_seq(l, seq!['|']) && !starts_with(trim(l), seq!['`', '`', '`'])
}

/// The first line at or after `i` that is not a table line (or the number of lines).
pub open spec fn run_end(ls: Seq<Seq<char>>, i: int) -> int
    decreases ls.len() - i,
{
    if i < 0 || i >= ls.len() || !is_table_line(ls[i]) {
        i
    } else {
        run_end(ls, i + 1)
    }
}

pub proof fn lemma_run_end(ls: Seq<Seq<char>>, i: int)
    requires
        0 <= i <= ls.len(),
    ensures
        i <= run_end(ls, i) <= ls.len(),
        forall|k: int| i <= k < run_end(ls, i) ==> is_table_line(#[trigger] ls[k]),
        run_end(ls, i) < ls.len() ==> !is_table_line(ls[run_end(ls, i)]),
        i < ls.len() && is_table_line(ls[i]) ==> run_end(ls, i) > i,
    decreases ls.len() - i,
{
    if i < ls.len() && is_table_line(ls[i]) {
        lemma_run_end(ls, i + 1);
    }
}

/// The byte offset at which line `k` starts, counting one byte for the `\n` after each line.
pub open spec fn line_offset(ls: Seq<Seq<char>>, k: int) -> int
    decreases k,
{
    if k <= 0 {
        0
    } else {
        line_offset(ls, k - 1) + byte_len(ls[k - 1]) + 1
    }
}

/// The byte ranges of the tables among the lines from `i` on: each run of at least two table
/// lines, from the start of its first line to the end of its last.
pub open spec fn table_blocks(ls: Seq<Seq<char>>, i: int) -> Seq<(int, int)>
    decreases ls.len() - i,
{
    if i < 0 || i >= ls.len() {
        seq![]
    } else if !is_table_line(ls[i]) {
        table_blocks(ls, i + 1)
    } else {
        proof {
            lemma_run_end(ls, i);
        }
        let e = run_end(ls, i);
        let start = line_offset(ls, i);
        let end = line_offset(ls, e - 1) + byte_len(ls[e - 1]);
        let here: Seq<(int, int)> = if e - i >= 2 && start < end { seq![(start, end)] } else { seq![] };
        here + table_blocks(ls, e)
    }
}

proof fn lemma_offset_mono(ls: Seq<Seq<char>>, j: int, k: int)
    requires
        0 <= j <= k,
    ensures
        line_offset(ls, j) <= line_offset(ls, k),
        j < k ==> line_offset(ls, j) + byte_len(ls[j]) + 1 <= line_offset(ls, k),
    decreases k - j,
{
    if j < k {
        lemma_offset_mono(ls, j, k - 1);
    }
}

proof fn lemma_offset_cons(a: Seq<char>, rest: Seq<Seq<char>>, k: int)
    requires
        0 <= k <= rest.len(),
    ensures
        line_offset(seq![a] + rest, k + 1) == byte_len(a) + 1 + line_offset(rest, k),
    decreases k,
{
    let c = seq![a] + rest;
    assert(c[0] == a);
    assert(line_offset(c, 0) == 0);
    assert(line_offset(rest, 0) == 0);
    if k > 0 {
        lemma_offset_cons(a, rest, k - 1);
        assert(c[k] == rest[k - 1]);
        assert(line_offset(c, k + 1) == line_offset(c, k) + byte_len(c[k]) + 1);
        assert(line_offset(rest, k) == line_offset(rest, k - 1) + byte_len(rest[k - 1]) + 1);
    } else {
        assert(line_offset(c, 1) == line_offset(c, 0) + byte_len(c[0]) + 1);
    }
}

proof fn lemma_strip_cr_bytes(x: Seq<char>)
    ensures
        byte_len(strip_cr(x)) <= byte_len(x),
{
    if x.len() > 0 && x.last() == '\r' {
        assert(x =~= x.drop_last() + seq![x.last()]);
        lemma_byte_len_concat(x.drop_last(), seq![x.last()]);
    }
}

/// All lines of `s`, each with one byte for its `\n`, take at most one byte more than `s`.
pub proof fn lemma_lines_offset(s: Seq<char>)
    ensures
        line_offset(lines(s), lines(s).len() as int) <= byte_len(s) + 1,
    decreases s.len(),
{
    if s.len() > 0 {
        lemma_find_from_bounds(s, seq!['\n'], 0);
        match find_from(s, seq!['\n'], 0) {
            Some(i) => {
                let rest = s.skip(i + 1);
                lemma_lines_offset(rest);
                let a = strip_cr(s.take(i));
                assert(lines(s) == seq![a] + lines(rest));
                lemma_offset_cons(a, lines(rest), lines(rest).len() as int);
                lemma_strip_cr_bytes(s.take(i));
                lemma_byte_len_split(s, i);
                let t = s.skip(i);
                assert(t[0] == '\n') by {
                    assert(s.subrange(i, i + 1) == seq!['\n']);
                    assert(s.subrange(i, i + 1)[0] == s[i]);
                }
                assert(t =~= seq![t[0]] + rest);
                lemma_byte_len_concat(seq![t[0]], rest);
                lemma_byte_len_single('\n');
                lemma_char_width('\n');
                assert(byte_len(s) == byte_len(s.take(i)) + 1 + byte_len(rest));
                assert(lines(s).len() == lines(rest).len() + 1);
                assert(line_offset(lines(s), lines(s).len() as int) == byte_len(a) + 1 + line_offset(lines(rest), lines(rest).len() as int));
            },
            None => {
                assert(lines(s) == seq![s]);
                assert(line_offset(seq![s], 1) == line_offset(seq![s], 0) + byte_len(s) + 1);
            },
        }
    }
}

/// Whether `l` belongs to a table.
fn table_line(l: &Vec<char>) -> (b: bool)
    ensures
        b == is_table_line(l@),
{
    let bar: Vec<char> = vec!['|'];
    let fence: Vec<char> = vec!['`', '`', '`'];
    assert(bar@ =~= seq!['|']);
    assert(fence@ =~= seq!['`', '`', '`']);
    let t = trim_chars(l);
    contains_in(l, &bar) && !starts_with_in(&t, &fence)
}

/// The byte ranges of the tables in `text`: runs of at least two consecutive lines that hold a
/// `|` and are not code fences.
pub fn find_table_blocks(text: &str) -> (r: Vec<(usize, usize)>)
    ensures
        r@.map_values(|p: (usize, usize)| (p.0 as int, p.1 as int)) == table_blocks(lines(text@), 0),
{
    let cs = chars_of(text);
    let ls = lines_of(&cs);
    let ghost lv = lines(text@);
    let total = byte_len_of(text);
    let n = ls.len();
    proof {
        lemma_lines_offset(text@);
        assert(ls@.map_values(|x: Vec<char>| x@) =~= lv);
    }
    // Where each line starts, and how long it is.
    let mut starts: Vec<usize> = Vec::new();
    let mut lens: Vec<usize> = Vec::new();
    let mut pos: usize = 0;
    let mut k: usize = 0;
    while k < n
        invariant
            n == ls@.len() == lv.len(),
            forall|t: int| 0 <= t < n ==> (#[trigger] ls@[t])@ == lv[t],
            line_offset(lv, n as int) <= total + 1,
            k <= n,
            starts@.len() == k,
            lens@.len() == k,
            k < n ==> pos == line_offset(lv, k as int),
            forall|t: int| 0 <= t < k ==> starts@[t] == line_offset(lv, t),
            forall|t: int| 0 <= t < k ==> lens@[t] == byte_len(lv[t]),
        decreases n - k,
    {
        let s = string_of(&ls[k], 0, ls[k].len());
        assert(ls@[k as int]@.subrange(0, ls@[k as int]@.len() as int) =~= lv[k as int]);
        let b = byte_len_of(s.as_str());
        proof {
            lemma_offset_mono(lv, k as int, n as int);
            if k + 1 < n {
                lemma_offset_mono(lv, (k + 1) as int, n as int);
            }
        }
        starts.push(pos);
        lens.push(b);
        if k + 1 < n {
            pos = pos + b + 1;
        }
        k = k + 1;
    }
    let mut r: Vec<(usize, usize)> = Vec::new();
    let mut i: usize = 0;
    while i < n
        invariant
            n == ls@.len() == lv.len() == starts@.len() == lens@.len(),
            forall|t: int| 0 <= t < n ==> (#[trigger] ls@[t])@ == lv[t],
            forall|t: int| 0 <= t < n ==> starts@[t] == line_offset(lv, t),
            forall|t: int| 0 <= t < n ==> lens@[t] == byte_len(lv[t]),
            line_offset(lv, n as int) <= total + 1,
            i <= n,
            table_blocks(lv, 0) == r@.map_values(|p: (usize, usize)| (p.0 as int, p.1 as int))
                + table_blocks(lv, i as int),
        decreases n - i,
    {
        if table_line(&ls[i]) {
            let first = i;
            proof {
                lemma_run_end(lv, first as int);
            }
            while i < n && table_line(&ls[i])
                invariant
                    n == ls@.len() == lv.len(),
                    forall|t: int| 0 <= t < n ==> (#[trigger] ls@[t])@ == lv[t],
                    first < i <= n || i == first,
                    first <= i <= run_end(lv, first as int),
                    run_end(lv, first as int) <= n,
                    forall|t: int| first <= t < run_end(lv, first as int) ==> is_table_line(#[trigger] lv[t]),
                    run_end(lv, first as int) < n ==> !is_table_line(lv[run_end(lv, first as int)]),
                decreases n - i,
            {
                i = i + 1;
            }
            assert(i == run_end(lv, first as int));
            assert(i > first);
            let ghost before = r@.map_values(|p: (usize, usize)| (p.0 as int, p.1 as int));
            if i - first >= 2 {
                let start = starts[first];
                proof {
                    lemma_offset_mono(lv, (i - 1) as int, n as int);
                }
                let end = starts[i - 1] + lens[i - 1];
                if start < end {
                    r.push((start, end));
                    assert(r@.map_values(|p: (usize, usize)| (p.0 as int, p.1 as int)) =~= before.push((start as int, end as int)));
                }
            }
        } else {
            i = i + 1;
        }
    }
    assert(table_blocks(lv, n as int) =~= Seq::<(int, int)>::empty());
    assert(r@.map_values(|p: (usize, usize)| (p.0 as int, p.1 as int)) =~= table_blocks(lv, 0));
    r
}


/// The cells kept from the pieces of a table line: each trimmed, the empty ones dropped.
pub open spec fn kept_cells(ps: Seq<Seq<char>>) -> Seq<Seq<char>>
    decreases ps.len(),
{
    if ps.len() == 0 {
        seq![]
    } else {
        let rest = kept_cells(ps.drop_last());
        let t = trim(ps.last());
        if t.len() > 0 {
            rest.push(t)
        } else {
            rest
        }
    }
}

/// The cells of a table line: the pieces between `|`, trimmed, the empty ones dropped.
pub open spec fn row_cells(l: Seq<char>) -> Seq<Seq<char>> {
    kept_cells(split_on(l, '|'))
}

/// The rows of a table: the cells of each line, lines without cells dropped.
pub open spec fn parsed_rows(ls: Seq<Seq<char>>) -> Seq<Seq<Seq<char>>>
    decreases ls.len(),
{
    if ls.len() == 0 {
        seq![]
    } else {
        let rest = parsed_rows(ls.drop_last());
        let c = row_cells(ls.last());
        if c.len() > 0 {
            rest.push(c)
        } else {
            rest
        }
    }
}

/// The contents of rows of strings.
pub open spec fn rows_view(rows: Seq<Vec<String>>) -> Seq<Seq<Seq<char>>> {
    rows.map_values(|r: Vec<String>| r@.map_values(|c: String| c@))
}

/// The most cells in a row.
pub open spec fn max_len(rows: Seq<Seq<Seq<char>>>) -> int
    decreases rows.len(),
{
    if rows.len() == 0 {
        0
    } else {
        let m = max_len(rows.drop_last());
        if rows.last().len() > m {
            rows.last().len() as int
        } else {
            m
        }
    }
}

/// A character that may make up a separator row (`|---|:--|`).
pub open spec fn separator_char(c: char) -> bool {
    c == '-' || c == ':' || c == '|' || is_white_space(c)
}

/// A row whose cells hold only separator characters.
pub open spec fn is_separator_row(row: Seq<Seq<char>>) -> bool {
    forall|i: int, j: int| 0 <= i < row.len() && 0 <= j < row[i].len() ==> separator_char(#[trigger] row[i][j])
}

/// The rows that are not separator rows.
pub open spec fn data_rows_of(rows: Seq<Seq<Seq<char>>>) -> Seq<Seq<Seq<char>>>
    decreases rows.len(),
{
    if rows.len() == 0 {
        seq![]
    } else {
        let rest = data_rows_of(rows.drop_last());
        if is_separator_row(rows.last()) {
            rest
        } else {
            rest.push(rows.last())
        }
    }
}

fn line_cells(l: &Vec<char>) -> (r: Vec<String>)
    ensures
        r@.map_values(|c: String| c@) == row_cells(l@),
{
    let ps = split_char(l, '|');
    let ghost sp = split_on(l@, '|');
    let n = ps.len();
    let mut r: Vec<String> = Vec::new();
    let mut i: usize = 0;
    while i < n
        invariant
            n == ps@.len() == sp.len(),
            forall|t: int| 0 <= t < n ==> (#[trigger] ps@[t])@ == sp[t],
            i <= n,
            r@.map_values(|c: String| c@) == kept_cells(sp.take(i as int)),
        decreases n - i,
    {
        let t = trim_chars(&ps[i]);
        assert(sp.take(i + 1).drop_last() =~= sp.take(i as int));
        assert(sp.take(i + 1).last() == sp[i as int]);
        let ghost before = r@.map_values(|c: String| c@);
        if t.len() > 0 {
            let s = string_of(&t, 0, t.len());
            assert(t@.subrange(0, t@.len() as int) =~= t@);
            r.push(s);
            assert(r@.map_values(|c: String| c@) =~= before.push(t@));
        }
        i = i + 1;
    }
    assert(sp.take(n as int) =~= sp);
    r
}

/// The rows of a table given as text: for each line, the cells between `|`, trimmed and
/// non-empty; lines without cells are left out.
pub fn table_rows(table_text: &str) -> (rows: Vec<Vec<String>>)
    ensures
        rows_view(rows@) == parsed_rows(lines(table_text@)),
{
    let cs = chars_of(table_text);
    let ls = lines_of(&cs);
    let ghost lv = lines(table_text@);
    let n = ls.len();
    let mut rows: Vec<Vec<String>> = Vec::new();
    let mut i: usize = 0;
    while i < n
        invariant
            n == ls@.len() == lv.len(),
            forall|t: int| 0 <= t < n ==> (#[trigger] ls@[t])@ == lv[t],
            i <= n,
            rows_view(rows@) == parsed_rows(lv.take(i as int)),
        decreases n - i,
    {
        let cells = line_cells(&ls[i]);
        assert(lv.take(i + 1).drop_last() =~= lv.take(i as int));
        assert(lv.take(i + 1).last() == lv[i as int]);
        let ghost before = rows_view(rows@);
        if cells.len() > 0 {
            let ghost cv = cells@.map_values(|c: String| c@);
            rows.push(cells);
            assert(rows_view(rows@) =~= before.push(cv));
        }
        i = i + 1;
    }
    assert(lv.take(n as int) =~= lv);
    rows
}

/// The number of columns: the most cells in a row.
pub fn column_count(rows: &Vec<Vec<String>>) -> (c: usize)
    ensures
        c == max_len(rows_view(rows@)),
{
    let ghost rv = rows_view(rows@);
    let n = rows.len();
    let mut c: usize = 0;
    let mut i: usize = 0;
    while i < n
        invariant
            n == rows@.len() == rv.len(),
            rv == rows_view(rows@),
            i <= n,
            c == max_len(rv.take(i as int)),
        decreases n - i,
    {
        assert(rv.take(i + 1).drop_last() =~= rv.take(i as int));
        assert(rv.take(i + 1).last() == rv[i as int]);
        assert(rv[i as int].len() == rows@[i as int]@.len());
        if rows[i].len() > c {
            c = rows[i].len();
        }
        i = i + 1;
    }
    assert(rv.take(n as int) =~= rv);
    c
}

fn copy_row(row: &Vec<String>) -> (r: Vec<String>)
    ensures
        r@.map_values(|c: String| c@) == row@.map_values(|c: String| c@),
{
    let mut r: Vec<String> = Vec::new();
    let mut i: usize = 0;
    while i < row.len()
        invariant
            i <= row@.len(),
            r@.map_values(|c: String| c@) == row@.take(i as int).map_values(|c: String| c@),
        decreases row@.len() - i,
    {
        let ghost before = r@.map_values(|c: String| c@);
        r.push(row[i].clone());
        assert(r@.map_values(|c: String| c@) =~= before.push(row@[i as int]@));
        i = i + 1;
        assert(row@.take(i as int).map_values(|c: String| c@) =~= row@.take(i - 1).map_values(|c: String| c@).push(row@[i - 1]@));
    }
    assert(row@.take(row@.len() as int) =~= row@);
    r
}

fn separator_row(row: &Vec<String>) -> (b: bool)
    ensures
        b == is_separator_row(row@.map_values(|c: String| c@)),
{
    let ghost rv = row@.map_values(|c: String| c@);
    let n = row.len();
    let mut i: usize = 0;
    while i < n
        invariant
            n == row@.len() == rv.len(),
            rv == row@.map_values(|c: String| c@),
            i <= n,
            forall|a: int, j: int| 0 <= a < i && 0 <= j < rv[a].len() ==> separator_char(#[trigger] rv[a][j]),
        decreases n - i,
    {
        let cs = chars_of(row[i].as_str());
        assert(cs@ == rv[i as int]);
        let m = cs.len();
        let mut j: usize = 0;
        while j < m
            invariant
                m == cs@.len(),
                i < n == rv.len(),
                rv == row@.map_values(|c: String| c@),
                cs@ == rv[i as int],
                j <= m,
                forall|t: int| 0 <= t < j ==> separator_char(#[trigger] cs@[t]),
            decreases m - j,
        {
            let c = cs[j];
            if !(c == '-' || c == ':' || c == '|' || is_whitespace(c)) {
                assert(!separator_char(rv[i as int][j as int]));
                return false;
            }
            j = j + 1;
        }
        i = i + 1;
    }
    true
}

/// The rows that are not separator rows (rows whose cells hold only `-`, `:`, `|` and
/// whitespace).
pub fn data_rows(rows: &Vec<Vec<String>>) -> (r: Vec<Vec<String>>)
    ensures
        rows_view(r@) == data_rows_of(rows_view(rows@)),
{
    let ghost rv = rows_view(rows@);
    let n = rows.len();
    let mut r: Vec<Vec<String>> = Vec::new();
    let mut i: usize = 0;
    while i < n
        invariant
            n == rows@.len() == rv.len(),
            rv == rows_view(rows@),
            i <= n,
            rows_view(r@) == data_rows_of(rv.take(i as int)),
        decreases n - i,
    {
        assert(rv.take(i + 1).drop_last() =~= rv.take(i as int));
        assert(rv.take(i + 1).last() == rv[i as int]);
        assert(rv[i as int] == rows@[i as int]@.map_values(|c: String| c@));
        let ghost before = rows_view(r@);
        if !separator_row(&rows[i]) {
            let c = copy_row(&rows[i]);
            r.push(c);
            assert(rows_view(r@) =~= before.push(rv[i as int]));
        }
        i = i + 1;
    }
    assert(rv.take(n as int) =~= rv);
    r
}


/// Characters of inline markdown markup that take no room on screen.
pub open spec fn markup(c: char) -> bool {
    c == '*' || c == '_' || c == '`'
}

/// The number of characters of `s` that are not markup.
pub open spec fn plain_count(s: Seq<char>) -> int
    decreases s.len(),
{
    if s.len() == 0 {
        0
    } else {
        plain_count(s.drop_last()) + if markup(s.last()) { 0int } else { 1int }
    }
}

/// The index of the first `c` in `s`, or the length of `s` when there is none.
pub open spec fn index_or_len(s: Seq<char>, c: char) -> int
    decreases s.len(),
{
    if s.len() == 0 {
        0
    } else if s[0] == c {
        0
    } else {
        1 + index_or_len(s.drop_first(), c)
    }
}

/// What follows index `i` of `s` (nothing when `i` is past the end).
pub open spec fn past(s: Seq<char>, i: int) -> Seq<char> {
    if 0 <= i < s.len() {
        s.skip(i + 1)
    } else {
        seq![]
    }
}

pub proof fn lemma_index_or_len(s: Seq<char>, c: char)
    ensures
        0 <= index_or_len(s, c) <= s.len(),
        index_or_len(s, c) < s.len() ==> s[index_or_len(s, c)] == c,
        forall|k: int| 0 <= k < index_or_len(s, c) ==> s[k] != c,
    decreases s.len(),
{
    if s.len() > 0 && s[0] != c {
        lemma_index_or_len(s.drop_first(), c);
        assert forall|k: int| 0 <= k < index_or_len(s, c) implies s[k] != c by {
            if k > 0 {
                assert(s[k] == s.drop_first()[k - 1]);
            }
        }
    }
}

/// The width of a cell on screen: markup characters take no room, and a link `[text](url)`
/// takes the room of its text.
pub open spec fn visible_width(s: Seq<char>) -> int
    decreases s.len(),
{
    if s.len() == 0 {
        0
    } else if markup(s[0]) {
        visible_width(s.drop_first())
    } else if s[0] == '[' {
        let t = s.drop_first();
        proof {
            lemma_index_or_len(t, ']');
            lemma_index_or_len(past(t, index_or_len(t, ']')), ')');
        }
        let close = index_or_len(t, ']');
        let u = past(t, close);
        let v = past(u, index_or_len(u, ')'));
        plain_count(t.take(close)) + visible_width(v)
    } else {
        1 + visible_width(s.drop_first())
    }
}

pub proof fn lemma_index_at(s: Seq<char>, c: char, m: int)
    requires
        0 <= m <= s.len(),
        forall|k: int| 0 <= k < m ==> s[k] != c,
        m < s.len() ==> s[m] == c,
    ensures
        index_or_len(s, c) == m,
    decreases m,
{
    if m > 0 {
        assert forall|k: int| 0 <= k < m - 1 implies s.drop_first()[k] != c by {
            assert(s.drop_first()[k] == s[k + 1]);
        }
        assert(s[0] != c);
        lemma_index_at(s.drop_first(), c, m - 1);
    }
}

/// The width of a cell on screen (see `visible_width`).
pub fn cell_width(cell: &str) -> (w: usize)
    ensures
        w == visible_width(cell@),
{
    let cs = chars_of(cell);
    let ghost s = cs@;
    let n = cs.len();
    let mut i: usize = 0;
    let mut width: usize = 0;
    assert(s.skip(0) =~= s);
    while i < n
        invariant
            n == s.len(),
            s == cs@,
            i <= n,
            width <= i,
            visible_width(s) == width + visible_width(s.skip(i as int)),
        decreases n - i,
    {
        let ghost r = s.skip(i as int);
        assert(r[0] == cs@[i as int]);
        assert(r.drop_first() =~= s.skip(i + 1));
        let c = cs[i];
        if c == '*' || c == '_' || c == '`' {
            i = i + 1;
        } else if c == '[' {
            let ghost t = r.drop_first();
            let mut j: usize = i + 1;
            let mut link: usize = 0;
            while j < n && cs[j] != ']'
                invariant
                    n == s.len(),
                    s == cs@,
                    i < n,
                    t == s.skip(i + 1),
                    i + 1 <= j <= n,
                    link <= j - (i + 1),
                    link == plain_count(t.take(j - (i + 1))),
                    forall|k: int| i + 1 <= k < j ==> s[k] != ']',
                decreases n - j,
            {
                assert(t.take(j + 1 - (i + 1)).drop_last() =~= t.take(j - (i + 1)));
                assert(t.take(j + 1 - (i + 1)).last() == s[j as int]);
                if !(cs[j] == '*' || cs[j] == '_' || cs[j] == '`') {
                    link = link + 1;
                }
                j = j + 1;
            }
            let ghost close = j - (i + 1);
            proof {
                assert forall|k: int| 0 <= k < close implies t[k] != ']' by {
                    assert(t[k] == s[i + 1 + k]);
                }
                if j < n {
                    assert(t[close] == s[j as int]);
                }
                lemma_index_at(t, ']', close);
            }
            let ghost u = past(t, close);
            if j < n {
                j = j + 1;
            }
            assert(u =~= s.skip(j as int));
            let k0 = j;
            while j < n && cs[j] != ')'
                invariant
                    n == s.len(),
                    s == cs@,
                    k0 <= j <= n,
                    u == s.skip(k0 as int),
                    forall|k: int| k0 <= k < j ==> s[k] != ')',
                decreases n - j,
            {
                j = j + 1;
            }
            let ghost p = j - k0;
            proof {
                assert forall|k: int| 0 <= k < p implies u[k] != ')' by {
                    assert(u[k] == s[k0 + k]);
                }
                if j < n {
                    assert(u[p] == s[j as int]);
                }
                lemma_index_at(u, ')', p);
            }
            if j < n {
                j = j + 1;
            }
            assert(past(u, p) =~= s.skip(j as int));
            width = width + link;
            i = j;
        } else {
            width = width + 1;
            i = i + 1;
        }
    }
    assert(s.skip(n as int) =~= Seq::<char>::empty());
    width
}

/// The widest visible cell of column `i` among `rows`.
pub open spec fn column_width(rows: Seq<Seq<Seq<char>>>, i: int) -> int
    decreases rows.len(),
{
    if rows.len() == 0 {
        0
    } else {
        let m = column_width(rows.drop_last(), i);
        let r = rows.last();
        let v = if 0 <= i < r.len() { visible_width(r[i]) } else { 0 };
        if v > m {
            v
        } else {
            m
        }
    }
}

/// Each column's natural width: its widest visible cell, at least 1.
pub open spec fn natural_widths_of(rows: Seq<Seq<Seq<char>>>, cols: int) -> Seq<int> {
    Seq::new(cols as nat, |i: int| if column_width(rows, i) >= 1 { column_width(rows, i) } else { 1 })
}

/// The natural width of each of `cols` columns over `rows`.
pub fn natural_widths(rows: &Vec<Vec<String>>, cols: usize) -> (w: Vec<usize>)
    requires
        forall|r: int| 0 <= r < rows@.len() ==> (#[trigger] rows@[r])@.len() <= cols,
    ensures
        w@.map_values(|x: usize| x as int) == natural_widths_of(rows_view(rows@), cols as int),
{
    let ghost rv = rows_view(rows@);
    let mut w: Vec<usize> = Vec::new();
    let mut c: usize = 0;
    while c < cols
        invariant
            c <= cols,
            w@.len() == c,
            forall|t: int| 0 <= t < c ==> w@[t] == 0,
        decreases cols - c,
    {
        w.push(0);
        c = c + 1;
    }
    let n = rows.len();
    let mut i: usize = 0;
    while i < n
        invariant
            n == rows@.len() == rv.len(),
            rv == rows_view(rows@),
            forall|r: int| 0 <= r < rows@.len() ==> (#[trigger] rows@[r])@.len() <= cols,
            i <= n,
            w@.len() == cols,
            forall|t: int| 0 <= t < cols ==> w@[t] == column_width(rv.take(i as int), t),
        decreases n - i,
    {
        let row = &rows[i];
        assert(rv.take(i + 1).drop_last() =~= rv.take(i as int));
        assert(rv.take(i + 1).last() == rv[i as int]);
        assert(rv[i as int] == rows@[i as int]@.map_values(|c: String| c@));
        let m = row.len();
        let mut k: usize = 0;
        while k < m
            invariant
                n == rows@.len() == rv.len(),
                i < n,
                rv[i as int] == rows@[i as int]@.map_values(|c: String| c@),
                rv.take(i + 1).drop_last() == rv.take(i as int),
                rv.take(i + 1).last() == rv[i as int],
                m == rows@[i as int]@.len() <= cols,
                k <= m,
                w@.len() == cols,
                forall|t: int| 0 <= t < k ==> w@[t] == column_width(rv.take(i + 1), t),
                forall|t: int| k <= t < cols ==> w@[t] == column_width(rv.take(i as int), t),
            decreases m - k,
        {
            let v = cell_width(rows[i][k].as_str());
            assert(rv[i as int][k as int] == rows@[i as int]@[k as int]@);
            if v > w[k] {
                w.set(k, v);
            }
            k = k + 1;
        }
        proof {
            assert forall|t: int| m <= t < cols implies w@[t] == column_width(rv.take(i + 1), t) by {
            }
        }
        i = i + 1;
    }
    assert(rv.take(n as int) =~= rv);
    let mut c: usize = 0;
    while c < cols
        invariant
            c <= cols,
            w@.len() == cols,
            forall|t: int| 0 <= t < c ==> w@[t] == natural_widths_of(rv, cols as int)[t],
            forall|t: int| c <= t < cols ==> w@[t] == column_width(rv, t),
        decreases cols - c,
    {
        if w[c] < 1 {
            w.set(c, 1);
        }
        c = c + 1;
    }
    assert(w@.map_values(|x: usize| x as int) =~= natural_widths_of(rv, cols as int));
    w
}

/// The sum of `s`.
pub open spec fn total(s: Seq<int>) -> int
    decreases s.len(),
{
    if s.len() == 0 {
        0
    } else {
        total(s.drop_last()) + s.last()
    }
}

/// The room left for cell contents in `max_width` columns once borders and padding of `cols`
/// columns are drawn (`1 + 3 * cols` characters), at least 0.
pub open spec fn available_width(max_width: int, cols: int) -> int {
    if max_width > 1 + 3 * cols {
        max_width - (1 + 3 * cols)
    } else {
        0
    }
}

/// The column widths of a table whose natural widths are `natural`, drawn in `max_width`
/// columns: the natural widths when they fit; when they do not and there is no room for
/// three characters per column, an even share of the room (at least 1); `None` when they do
/// not fit and there is room to scale them down in proportion.
pub open spec fn planned_widths(natural: Seq<int>, max_width: int) -> Option<Seq<int>> {
    let cols = natural.len() as int;
    let avail = available_width(max_width, cols);
    if total(natural) > avail && avail > 3 * cols {
        None
    } else if total(natural) > avail {
        let share = avail / cols;
        Some(Seq::new(cols as nat, |i: int| if share >= 1 { share } else { 1 }))
    } else {
        Some(natural)
    }
}

/// The column widths for natural widths `natural` in `max_width` columns (see
/// `planned_widths`); `None` when they are to be scaled down in proportion.
pub fn table_widths(natural: &Vec<usize>, max_width: usize) -> (r: Option<Vec<usize>>)
    requires
        natural@.len() >= 1,
    ensures
        r matches Some(w) ==> planned_widths(natural@.map_values(|x: usize| x as int), max_width as int)
            == Some(w@.map_values(|x: usize| x as int)),
        r is None <==> planned_widths(natural@.map_values(|x: usize| x as int), max_width as int) is None,
{
    let ghost nv = natural@.map_values(|x: usize| x as int);
    let cols = natural.len();
    let avail: usize = if max_width >= 1 && cols <= (max_width - 1) / 3 {
        assert(3 * cols <= max_width - 1) by (nonlinear_arith)
            requires cols <= (max_width - 1) / 3, max_width >= 1;
        max_width - 1 - 3 * cols
    } else {
        proof {
            if max_width >= 1 {
                assert(3 * cols > max_width - 1) by (nonlinear_arith)
                    requires cols > (max_width - 1) / 3, max_width >= 1;
            }
        }
        0
    };
    assert(avail == available_width(max_width as int, cols as int));
    // Whether the natural widths add up to more than the room.
    let mut sum: usize = 0;
    let mut too_wide = false;
    let mut i: usize = 0;
    while i < cols
        invariant
            cols == natural@.len() == nv.len(),
            nv == natural@.map_values(|x: usize| x as int),
            i <= cols,
            !too_wide ==> sum == total(nv.take(i as int)) && sum <= avail,
            too_wide ==> total(nv) > avail,
        decreases cols - i,
    {
        assert(nv.take(i + 1).drop_last() =~= nv.take(i as int));
        proof {
            lemma_total_prefix(nv, (i + 1) as int);
        }
        if !too_wide {
            if natural[i] > avail - sum {
                too_wide = true;
            } else {
                sum = sum + natural[i];
            }
        }
        i = i + 1;
    }
    assert(nv.take(cols as int) =~= nv);
    let room_to_scale = cols <= avail / 3 && avail - 3 * cols > 0;
    assert(room_to_scale == (avail > 3 * cols)) by {
        if cols <= avail / 3 {
            assert(3 * cols <= avail) by (nonlinear_arith)
                requires cols <= avail / 3;
        } else {
            assert(3 * cols > avail) by (nonlinear_arith)
                requires cols > avail / 3;
        }
    }
    if too_wide && room_to_scale {
        None
    } else if too_wide {
        let share = avail / cols;
        let w1 = if share >= 1 { share } else { 1 };
        let mut w: Vec<usize> = Vec::new();
        let mut c: usize = 0;
        while c < cols
            invariant
                c <= cols,
                w@.len() == c,
                forall|t: int| 0 <= t < c ==> w@[t] == w1,
            decreases cols - c,
        {
            w.push(w1);
            c = c + 1;
        }
        assert(w@.map_values(|x: usize| x as int) =~= Seq::new(cols as nat, |i: int| if share >= 1 { share as int } else { 1 }));
        Some(w)
    } else {
        let mut w: Vec<usize> = Vec::new();
        let mut c: usize = 0;
        while c < cols
            invariant
                c <= cols == natural@.len(),
                w@ == natural@.take(c as int),
            decreases cols - c,
        {
            w.push(natural[c]);
            c = c + 1;
            assert(w@ =~= natural@.take(c as int));
        }
        assert(natural@.take(cols as int) =~= natural@);
        Some(w)
    }
}

/// Partial sums of non-negative numbers grow.
proof fn lemma_total_prefix(s: Seq<int>, k: int)
    requires
        0 <= k <= s.len(),
        forall|i: int| 0 <= i < s.len() ==> s[i] >= 0,
    ensures
        total(s.take(k)) <= total(s),
    decreases s.len() - k,
{
    if k < s.len() {
        lemma_total_prefix(s, k + 1);
        assert(s.take(k + 1).drop_last() =~= s.take(k));
    } else {
        assert(s.take(k) =~= s);
    }
}


/// `n` copies of `c`.
pub open spec fn repeat(c: char, n: int) -> Seq<char> {
    Seq::new(if n > 0 { n as nat } else { 0 }, |i: int| c)
}

/// The bars between the columns of a border: `─` over each column and its padding, joined
/// by `mid`.
pub open spec fn border_bars(widths: Seq<usize>, mid: char) -> Seq<char>
    decreases widths.len(),
{
    if widths.len() == 0 {
        seq![]
    } else if widths.len() == 1 {
        repeat('─', widths[0] + 2)
    } else {
        border_bars(widths.drop_last(), mid) + seq![mid] + repeat('─', widths.last() + 2)
    }
}

/// A border line of a table, in dark gray.
pub open spec fn border_line(widths: Seq<usize>, left: char, mid: char, right: char) -> Seq<Run> {
    seq![(seq![left] + border_bars(widths, mid) + seq![right], fg(Color::DarkGray))]
}

/// The text of cell `i` of a row (empty past the row's last cell).
pub open spec fn cell_text(row: Seq<Seq<char>>, i: int) -> Seq<char> {
    if 0 <= i < row.len() {
        row[i]
    } else {
        seq![]
    }
}

/// The lines of cell `i`: its inline markdown, wrapped to its column's width.
pub open spec fn cell_lines(row: Seq<Seq<char>>, widths: Seq<usize>, i: int) -> Seq<Seq<Run>> {
    wrapped(md_runs(markdown_events(cell_text(row, i)), false, false), widths[i] as int)
}

/// The number of lines a row takes: its tallest cell among the first `k` columns (at least 1).
pub open spec fn row_height(row: Seq<Seq<char>>, widths: Seq<usize>, k: int) -> int
    decreases k,
{
    if k <= 0 {
        1
    } else {
        let h = row_height(row, widths, k - 1);
        let c = cell_lines(row, widths, k - 1).len() as int;
        if c > h {
            c
        } else {
            h
        }
    }
}

/// The number of characters in runs.
pub open spec fn run_width(rs: Seq<Run>) -> int
    decreases rs.len(),
{
    if rs.len() == 0 {
        0
    } else {
        run_width(rs.drop_last()) + rs.last().0.len()
    }
}

/// Line `idx` of cell `i`, padded to its column's width and closed by a bar.
pub open spec fn cell_part(row: Seq<Seq<char>>, widths: Seq<usize>, i: int, idx: int) -> Seq<Run> {
    let ls = cell_lines(row, widths, i);
    let content = if 0 <= idx < ls.len() { ls[idx] } else { seq![(seq![' '], plain())] };
    let pad = widths[i] - run_width(content);
    seq![(seq![' '], plain())] + content + (if pad > 0 { seq![(repeat(' ', pad), plain())] } else { seq![] })
        + seq![(seq![' '], plain()), (seq!['│'], fg(Color::DarkGray))]
}

/// Line `idx` of a row, over its first `k` columns.
pub open spec fn row_line(row: Seq<Seq<char>>, widths: Seq<usize>, idx: int, k: int) -> Seq<Run>
    decreases k,
{
    if k <= 0 {
        seq![(seq!['│'], fg(Color::DarkGray))]
    } else {
        row_line(row, widths, idx, k - 1) + cell_part(row, widths, k - 1, idx)
    }
}

/// The lines of a row.
pub open spec fn row_block(row: Seq<Seq<char>>, widths: Seq<usize>) -> Seq<Seq<Run>> {
    let h = row_height(row, widths, widths.len() as int);
    Seq::new(h as nat, |idx: int| row_line(row, widths, idx, widths.len() as int))
}

/// The lines of rows, one row after another.
pub open spec fn rows_block(rows: Seq<Seq<Seq<char>>>, widths: Seq<usize>) -> Seq<Seq<Run>>
    decreases rows.len(),
{
    if rows.len() == 0 {
        seq![]
    } else {
        rows_block(rows.drop_last(), widths) + row_block(rows.last(), widths)
    }
}

/// A table drawn with rounded borders: a top border, the lines of each row, a bottom border.
pub open spec fn drawn_table(rows: Seq<Seq<Seq<char>>>, widths: Seq<usize>) -> Seq<Seq<Run>> {
    seq![border_line(widths, '╭', '┬', '╮')] + rows_block(rows, widths) + seq![border_line(widths, '╰', '┴', '╯')]
}

fn push_repeat(s: &mut String, c: char, n: usize)
    ensures
        final(s)@ == old(s)@ + repeat(c, n as int),
{
    let ghost s0 = s@;
    let mut i: usize = 0;
    while i < n
        invariant
            i <= n,
            s@ == s0 + repeat(c, i as int),
        decreases n - i,
    {
        push_char(s, c);
        i = i + 1;
        assert(s@ =~= s0 + repeat(c, i as int));
    }
}

fn border(widths: &Vec<usize>, left: char, mid: char, right: char) -> (r: StyledLine)
    ensures
        runs(r@) == border_line(widths@, left, mid, right),
{
    let mut s = String::new();
    push_char(&mut s, left);
    let n = widths.len();
    let mut i: usize = 0;
    assert(border_bars(widths@.take(0), mid) =~= Seq::<char>::empty());
    while i < n
        invariant
            n == widths@.len(),
            i <= n,
            s@ == seq![left] + border_bars(widths@.take(i as int), mid),
        decreases n - i,
    {
        let ghost before = s@;
        if i > 0 {
            push_char(&mut s, mid);
        }
        push_char(&mut s, '─');
        push_char(&mut s, '─');
        push_repeat(&mut s, '─', widths[i]);
        assert(widths@.take(i + 1).drop_last() =~= widths@.take(i as int));
        assert(widths@.take(i + 1).last() == widths@[i as int]);
        assert(repeat('─', widths@[i as int] + 2) =~= seq!['─', '─'] + repeat('─', widths@[i as int] as int));
        if i > 0 {
            assert(s@ =~= before + seq![mid] + repeat('─', widths@[i as int] + 2));
        } else {
            assert(s@ =~= before + repeat('─', widths@[i as int] + 2));
        }
        i = i + 1;
    }
    push_char(&mut s, right);
    assert(widths@.take(n as int) =~= widths@);
    assert(s@ =~= seq![left] + border_bars(widths@, mid) + seq![right]);
    let mut line: StyledLine = Vec::new();
    line.push(span(s, Style { fg: Some(Color::DarkGray), bold: false, italic: false }));
    assert(runs(line@) =~= border_line(widths@, left, mid, right));
    line
}

fn copy_line(l: &StyledLine) -> (r: StyledLine)
    ensures
        runs(r@) == runs(l@),
{
    let mut r: StyledLine = Vec::new();
    let mut i: usize = 0;
    while i < l.len()
        invariant
            i <= l@.len(),
            runs(r@) == runs(l@.take(i as int)),
        decreases l@.len() - i,
    {
        let ghost before = runs(r@);
        r.push(span(l[i].content.clone(), l[i].style));
        assert(runs(r@) =~= before.push((l@[i as int].content@, l@[i as int].style)));
        i = i + 1;
        assert(runs(l@.take(i as int)) =~= runs(l@.take(i - 1)).push((l@[i - 1].content@, l@[i - 1].style)));
    }
    assert(l@.take(l@.len() as int) =~= l@);
    r
}

pub fn line_width(l: &StyledLine) -> (w: usize)
    ensures
        w as int == if run_width(runs(l@)) <= usize::MAX { run_width(runs(l@)) } else { usize::MAX as int },
{
    let mut w: usize = 0;
    let mut i: usize = 0;
    while i < l.len()
        invariant
            i <= l@.len(),
            w as int == if run_width(runs(l@.take(i as int))) <= usize::MAX { run_width(runs(l@.take(i as int))) } else { usize::MAX as int },
            run_width(runs(l@.take(i as int))) >= 0,
        decreases l@.len() - i,
    {
        let n = l[i].content.as_str().unicode_len();
        assert(runs(l@.take(i + 1)).drop_last() =~= runs(l@.take(i as int)));
        assert(runs(l@.take(i + 1)).last() == (l@[i as int].content@, l@[i as int].style));
        w = w.saturating_add(n);
        i = i + 1;
    }
    assert(l@.take(l@.len() as int) =~= l@);
    w
}

fn push_run(line: &mut StyledLine, text: &str, st: Style)
    ensures
        runs(final(line)@) == runs(old(line)@).push((text@, st)),
{
    let ghost before = runs(line@);
    line.push(span(text.to_owned(), st));
    assert(runs(line@) =~= before.push((text@, st)));
}

/// Draws a table: a top border, each row's cells (inline markdown wrapped to their column's
/// width, padded, between bars), a bottom border.
pub fn table_lines(rows: &Vec<Vec<String>>, widths: &Vec<usize>) -> (r: Vec<StyledLine>)
    ensures
        line_runs(r@) == drawn_table(rows_view(rows@), widths@),
{
    let ghost rv = rows_view(rows@);
    let cols = widths.len();
    let mut out: Vec<StyledLine> = Vec::new();
    out.push(border(widths, '╭', '┬', '╮'));
    assert(line_runs(out@) =~= seq![border_line(widths@, '╭', '┬', '╮')]);
    let n = rows.len();
    let mut ri: usize = 0;
    assert(rv.take(0) =~= Seq::<Seq<Seq<char>>>::empty());
    while ri < n
        invariant
            n == rows@.len() == rv.len(),
            rv == rows_view(rows@),
            cols == widths@.len(),
            ri <= n,
            line_runs(out@) == seq![border_line(widths@, '╭', '┬', '╮')] + rows_block(rv.take(ri as int), widths@),
        decreases n - ri,
    {
        let row = &rows[ri];
        let ghost rw = rv[ri as int];
        assert(rw == rows@[ri as int]@.map_values(|c: String| c@));
        // Each cell's lines.
        let mut cells: Vec<Vec<StyledLine>> = Vec::new();
        let mut height: usize = 1;
        let mut ci: usize = 0;
        while ci < cols
            invariant
                cols == widths@.len(),
                rw == row@.map_values(|c: String| c@),
                ci <= cols,
                cells@.len() == ci,
                forall|t: int| 0 <= t < ci ==> line_runs(#[trigger] cells@[t]@) == cell_lines(rw, widths@, t),
                height == row_height(rw, widths@, ci as int),
            decreases cols - ci,
        {
            let text: &str = if ci < row.len() { row[ci].as_str() } else { "" };
            proof {
                if ci < row@.len() {
                    assert(rw[ci as int] == row@[ci as int]@);
                } else {
                    reveal_strlit("");
                }
                assert(text@ == cell_text(rw, ci as int));
            }
            let styled = parse_markdown_line(text);
            let cl = wrap_spans(&styled, widths[ci]);
            if cl.len() > height {
                height = cl.len();
            }
            cells.push(cl);
            ci = ci + 1;
        }
        let ghost base = line_runs(out@);
        let mut idx: usize = 0;
        while idx < height
            invariant
                cols == widths@.len(),
                cells@.len() == cols,
                forall|t: int| 0 <= t < cols ==> line_runs(#[trigger] cells@[t]@) == cell_lines(rw, widths@, t),
                height == row_height(rw, widths@, cols as int),
                idx <= height,
                line_runs(out@) == base + Seq::new(idx as nat, |k: int| row_line(rw, widths@, k, cols as int)),
            decreases height - idx,
        {
            let mut line: StyledLine = Vec::new();
            push_run(&mut line, "│", Style { fg: Some(Color::DarkGray), bold: false, italic: false });
            proof {
                reveal_strlit("│");
                assert("│"@ =~= seq!['│']);
                assert(runs(line@) =~= row_line(rw, widths@, idx as int, 0));
            }
            let mut ci: usize = 0;
            while ci < cols
                invariant
                    cols == widths@.len(),
                    cells@.len() == cols,
                    forall|t: int| 0 <= t < cols ==> line_runs(#[trigger] cells@[t]@) == cell_lines(rw, widths@, t),
                    ci <= cols,
                    runs(line@) == row_line(rw, widths@, idx as int, ci as int),
                decreases cols - ci,
            {
                let ghost before = runs(line@);
                let ghost ls = cell_lines(rw, widths@, ci as int);
                assert(line_runs(cells@[ci as int]@) == ls);
                let content: StyledLine = if idx < cells[ci].len() {
                    assert(runs(cells@[ci as int]@[idx as int]@) == ls[idx as int]);
                    copy_line(&cells[ci][idx])
                } else {
                    let mut b: StyledLine = Vec::new();
                    push_run(&mut b, " ", Style { fg: None, bold: false, italic: false });
                    proof {
                        reveal_strlit(" ");
                        assert(" "@ =~= seq![' ']);
                        assert(runs(b@) =~= seq![(seq![' '], plain())]);
                    }
                    b
                };
                let vis = line_width(&content);
                let padding = widths[ci].saturating_sub(vis);
                let ghost cv = runs(content@);
                proof {
                    reveal_strlit(" ");
                    reveal_strlit("│");
                    assert(" "@ =~= seq![' ']);
                    assert("│"@ =~= seq!['│']);
                    lemma_run_width_nonneg(cv);
                }
                push_run(&mut line, " ", Style { fg: None, bold: false, italic: false });
                let mut k: usize = 0;
                let ghost mid = runs(line@);
                while k < content.len()
                    invariant
                        k <= content@.len(),
                        runs(line@) == mid + runs(content@.take(k as int)),
                    decreases content@.len() - k,
                {
                    let ghost b2 = runs(line@);
                    line.push(span(content[k].content.clone(), content[k].style));
                    assert(runs(line@) =~= b2.push((content@[k as int].content@, content@[k as int].style)));
                    k = k + 1;
                    assert(runs(content@.take(k as int)) =~= runs(content@.take(k - 1)).push((content@[k - 1].content@, content@[k - 1].style)));
                }
                assert(content@.take(content@.len() as int) =~= content@);
                if padding > 0 {
                    let mut p = String::new();
                    push_repeat(&mut p, ' ', padding);
                    let ghost b3 = runs(line@);
                    line.push(span(p, Style { fg: None, bold: false, italic: false }));
                    assert(runs(line@) =~= b3.push((repeat(' ', padding as int), plain())));
                }
                push_run(&mut line, " ", Style { fg: None, bold: false, italic: false });
                push_run(&mut line, "│", Style { fg: Some(Color::DarkGray), bold: false, italic: false });
                assert(runs(line@) =~= before + cell_part(rw, widths@, ci as int, idx as int));
                ci = ci + 1;
            }
            let ghost b4 = line_runs(out@);
            out.push(line);
            assert(line_runs(out@) =~= b4.push(row_line(rw, widths@, idx as int, cols as int)));
            idx = idx + 1;
            assert(Seq::new(idx as nat, |k: int| row_line(rw, widths@, k, cols as int)) =~= Seq::new((idx - 1) as nat, |k: int| row_line(rw, widths@, k, cols as int)).push(row_line(rw, widths@, idx - 1, cols as int)));
        }
        assert(rv.take(ri + 1).drop_last() =~= rv.take(ri as int));
        assert(rv.take(ri + 1).last() == rw);
        assert(Seq::new(height as nat, |k: int| row_line(rw, widths@, k, cols as int)) =~= row_block(rw, widths@));
        assert(line_runs(out@) =~= seq![border_line(widths@, '╭', '┬', '╮')] + rows_block(rv.take(ri + 1), widths@));
        ri = ri + 1;
    }
    assert(rv.take(n as int) =~= rv);
    let ghost b5 = line_runs(out@);
    out.push(border(widths, '╰', '┴', '╯'));
    assert(line_runs(out@) =~= b5.push(border_line(widths@, '╰', '┴', '╯')));
    out
}

proof fn lemma_run_width_nonneg(rs: Seq<Run>)
    ensures
        run_width(rs) >= 0,
    decreases rs.len(),
{
    if rs.len() > 0 {
        lemma_run_width_nonneg(rs.drop_last());
    }
}


pub proof fn lemma_max_len(rows: Seq<Seq<Seq<char>>>)
    ensures
        forall|i: int| 0 <= i < rows.len() ==> (#[trigger] rows[i]).len() <= max_len(rows),
        max_len(rows) >= 0,
    decreases rows.len(),
{
    if rows.len() > 0 {
        lemma_max_len(rows.drop_last());
        assert forall|i: int| 0 <= i < rows.len() implies (#[trigger] rows[i]).len() <= max_len(rows) by {
            if i < rows.len() - 1 {
                assert(rows[i] == rows.drop_last()[i]);
            }
        }
    }
}

proof fn lemma_data_rows_bounded(rows: Seq<Seq<Seq<char>>>, m: int)
    requires
        forall|i: int| 0 <= i < rows.len() ==> (#[trigger] rows[i]).len() <= m,
    ensures
        forall|j: int| 0 <= j < data_rows_of(rows).len() ==> (#[trigger] data_rows_of(rows)[j]).len() <= m,
    decreases rows.len(),
{
    if rows.len() > 0 {
        assert forall|i: int| 0 <= i < rows.drop_last().len() implies (#[trigger] rows.drop_last()[i]).len() <= m by {
            assert(rows.drop_last()[i] == rows[i]);
        }
        lemma_data_rows_bounded(rows.drop_last(), m);
        let rest = data_rows_of(rows.drop_last());
        assert forall|j: int| 0 <= j < data_rows_of(rows).len() implies (#[trigger] data_rows_of(rows)[j]).len() <= m by {
            if j < rest.len() {
                assert(data_rows_of(rows)[j] == rest[j]);
            } else {
                assert(data_rows_of(rows)[j] == rows.last());
            }
        }
    }
}

proof fn lemma_parsed_rows_nonempty(ls: Seq<Seq<char>>)
    ensures
        forall|i: int| 0 <= i < parsed_rows(ls).len() ==> (#[trigger] parsed_rows(ls)[i]).len() > 0,
    decreases ls.len(),
{
    if ls.len() > 0 {
        lemma_parsed_rows_nonempty(ls.drop_last());
        let rest = parsed_rows(ls.drop_last());
        assert forall|i: int| 0 <= i < parsed_rows(ls).len() implies (#[trigger] parsed_rows(ls)[i]).len() > 0 by {
            if i < rest.len() {
                assert(parsed_rows(ls)[i] == rest[i]);
            }
        }
    }
}

/// How a table given as text is drawn in `max_width` columns: no line when it has no data
/// row; `None` when its natural widths do not fit and are to be scaled down in proportion;
/// else the table drawn with its planned widths.
pub open spec fn table_render(text: Seq<char>, max_width: int) -> Option<Seq<Seq<Run>>> {
    let rows = parsed_rows(lines(text));
    let data = data_rows_of(rows);
    if rows.len() == 0 || data.len() == 0 {
        Some(seq![])
    } else {
        match planned_widths(natural_widths_of(data, max_len(rows)), max_width) {
            None => None,
            Some(w) => Some(drawn_table(data, w.map_values(|x: int| x as usize))),
        }
    }
}

/// Draws a table given as text in `max_width` columns (see `table_render`); `None` when its
/// columns are to be scaled down in proportion to their natural widths.
pub fn render_table_block(table_text: &str, max_width: usize) -> (r: Option<Vec<StyledLine>>)
    ensures
        r matches Some(ls) ==> table_render(table_text@, max_width as int) == Some(line_runs(ls@)),
        r is None <==> table_render(table_text@, max_width as int) is None,
{
    let rows = table_rows(table_text);
    if rows.len() == 0 {
        let empty: Vec<StyledLine> = Vec::new();
        assert(line_runs(empty@) =~= Seq::<Seq<Run>>::empty());
        return Some(empty);
    }
    let cols = column_count(&rows);
    let data = data_rows(&rows);
    if data.len() == 0 {
        let empty: Vec<StyledLine> = Vec::new();
        assert(line_runs(empty@) =~= Seq::<Seq<Run>>::empty());
        return Some(empty);
    }
    let ghost rv = rows_view(rows@);
    let ghost dv = rows_view(data@);
    proof {
        lemma_max_len(rv);
        lemma_data_rows_bounded(rv, cols as int);
        lemma_parsed_rows_nonempty(lines(table_text@));
        assert(rv[0].len() > 0);
        assert forall|r: int| 0 <= r < data@.len() implies (#[trigger] data@[r])@.len() <= cols by {
            assert(dv[r] == data@[r]@.map_values(|c: String| c@));
        }
    }
    let natural = natural_widths(&data, cols);
    let ghost nv = natural@.map_values(|x: usize| x as int);
    assert(nv =~= natural_widths_of(dv, cols as int));
    match table_widths(&natural, max_width) {
        None => None,
        Some(w) => {
            let ghost wv = w@.map_values(|x: usize| x as int);
            assert(wv.map_values(|x: int| x as usize) =~= w@);
            let lines = table_lines(&data, &w);
            Some(lines)
        },
    }
}


proof fn lemma_tables_in_order(ls: Seq<Seq<char>>, i: int)
    requires
        0 <= i,
    ensures
        forall|k: int| 0 <= k < table_blocks(ls, i).len() ==> line_offset(ls, i) <= (#[trigger] table_blocks(ls, i)[k]).0 < table_blocks(ls, i)[k].1,
        forall|k: int| 0 <= k < table_blocks(ls, i).len() - 1 ==> (#[trigger] table_blocks(ls, i)[k]).1 < table_blocks(ls, i)[k + 1].0,
    decreases ls.len() - i,
{
    let all = table_blocks(ls, i);
    if i >= ls.len() {
    } else if !is_table_line(ls[i]) {
        lemma_tables_in_order(ls, i + 1);
        lemma_offset_mono(ls, i, i + 1);
        assert(all == table_blocks(ls, i + 1));
    } else {
        lemma_run_end(ls, i);
        let e = run_end(ls, i);
        lemma_tables_in_order(ls, e);
        lemma_offset_mono(ls, i, e);
        lemma_offset_mono(ls, e - 1, e);
        let rest = table_blocks(ls, e);
        let start = line_offset(ls, i);
        let end = line_offset(ls, e - 1) + byte_len(ls[e - 1]);
        if e - i >= 2 && start < end {
            assert(all == seq![(start, end)] + rest);
            assert forall|k: int| 0 <= k < all.len() implies line_offset(ls, i) <= (#[trigger] all[k]).0 < all[k].1 by {
                if k > 0 {
                    assert(all[k] == rest[k - 1]);
                }
            }
            assert forall|k: int| 0 <= k < all.len() - 1 implies (#[trigger] all[k]).1 < all[k + 1].0 by {
                assert(all[k + 1] == rest[k]);
                if k > 0 {
                    assert(all[k] == rest[k - 1]);
                }
            }
        } else {
            assert(all =~= rest);
        }
    }
}

/// The tables found in a text come in order and do not overlap: each ends after it starts and
/// before the next one starts.
pub proof fn law_tables_in_order(text: Seq<char>)
    ensures
        forall|k: int| 0 <= k < table_blocks(lines(text), 0).len() ==> (#[trigger] table_blocks(lines(text), 0)[k]).0 < table_blocks(lines(text), 0)[k].1,
        forall|k: int| 0 <= k < table_blocks(lines(text), 0).len() - 1 ==> (#[trigger] table_blocks(lines(text), 0)[k]).1 < table_blocks(lines(text), 0)[k + 1].0,
{
    lemma_tables_in_order(lines(text), 0);
}


proof fn lemma_run_width_concat(a: Seq<Run>, b: Seq<Run>)
    ensures
        run_width(a + b) == run_width(a) + run_width(b),
    decreases b.len(),
{
    if b.len() == 0 {
        assert(a + b =~= a);
    } else {
        lemma_run_width_concat(a, b.drop_last());
        assert((a + b).drop_last() =~= a + b.drop_last());
        assert((a + b).last() == b.last());
    }
}

proof fn lemma_run_width_one(c: Seq<char>, st: Style)
    ensures
        run_width(seq![(c, st)]) == c.len(),
{
    assert(seq![(c, st)].drop_last() =~= Seq::<Run>::empty());
    assert(seq![(c, st)].last() == (c, st));
    assert(run_width(Seq::<Run>::empty()) == 0);
}

/// The width of a table's lines: a bar, then each column's width, its two spaces of padding
/// and a bar.
pub open spec fn table_width(widths: Seq<usize>, k: int) -> int
    decreases k,
{
    if k <= 0 {
        1
    } else {
        table_width(widths, k - 1) + widths[k - 1] + 3
    }
}

proof fn lemma_border_width(widths: Seq<usize>, mid: char)
    requires
        widths.len() >= 1,
    ensures
        border_bars(widths, mid).len() + 2 == table_width(widths, widths.len() as int),
    decreases widths.len(),
{
    let n = widths.len() as int;
    assert(table_width(widths, n) == table_width(widths, n - 1) + widths[n - 1] + 3);
    if widths.len() > 1 {
        lemma_border_width(widths.drop_last(), mid);
        assert(table_width(widths.drop_last(), n - 1) == table_width(widths, n - 1)) by {
            lemma_table_width_prefix(widths, widths.drop_last(), n - 1);
        }
        assert(border_bars(widths, mid) == border_bars(widths.drop_last(), mid) + seq![mid] + repeat('─', widths.last() + 2));
        assert(repeat('─', widths.last() + 2).len() == widths.last() + 2);
    } else {
        assert(border_bars(widths, mid) == repeat('─', widths[0] + 2));
        assert(repeat('─', widths[0] + 2).len() == widths[0] + 2);
        assert(table_width(widths, 0) == 1);
    }
}

proof fn lemma_table_width_prefix(a: Seq<usize>, b: Seq<usize>, k: int)
    requires
        0 <= k <= a.len(),
        k <= b.len(),
        forall|i: int| 0 <= i < k ==> a[i] == b[i],
    ensures
        table_width(a, k) == table_width(b, k),
    decreases k,
{
    if k > 0 {
        lemma_table_width_prefix(a, b, k - 1);
    }
}

proof fn lemma_cell_part_width(row: Seq<Seq<char>>, widths: Seq<usize>, i: int, idx: int)
    requires
        0 <= i < widths.len(),
        widths[i] >= 1,
    ensures
        run_width(cell_part(row, widths, i, idx)) == widths[i] + 3,
{
    let ls = cell_lines(row, widths, i);
    let content = if 0 <= idx < ls.len() { ls[idx] } else { seq![(seq![' '], plain())] };
    crate::render::law_wrapped_lines_fit(md_runs(markdown_events(cell_text(row, i)), false, false), widths[i] as int);
    lemma_run_width_one(seq![' '], plain());
    if 0 <= idx < ls.len() {
        assert(run_width(ls[idx]) <= widths[i]);
    }
    let pad = widths[i] - run_width(content);
    let padding: Seq<Run> = if pad > 0 { seq![(repeat(' ', pad), plain())] } else { seq![] };
    if pad > 0 {
        lemma_run_width_one(repeat(' ', pad), plain());
    } else {
        assert(run_width(padding) == 0);
    }
    let head = seq![(seq![' '], plain())];
    let tail: Seq<Run> = seq![(seq![' '], plain()), (seq!['│'], fg(Color::DarkGray))];
    lemma_run_width_concat(head, content);
    lemma_run_width_concat(head + content, padding);
    lemma_run_width_concat(head + content + padding, tail);
    assert(tail.drop_last() =~= seq![(seq![' '], plain())]);
    assert(run_width(tail) == 2);
}

proof fn lemma_row_line_width(row: Seq<Seq<char>>, widths: Seq<usize>, idx: int, k: int)
    requires
        0 <= k <= widths.len(),
        forall|i: int| 0 <= i < widths.len() ==> widths[i] >= 1,
    ensures
        run_width(row_line(row, widths, idx, k)) == table_width(widths, k),
    decreases k,
{
    if k == 0 {
        lemma_run_width_one(seq!['│'], fg(Color::DarkGray));
    } else {
        lemma_row_line_width(row, widths, idx, k - 1);
        lemma_cell_part_width(row, widths, k - 1, idx);
        lemma_run_width_concat(row_line(row, widths, idx, k - 1), cell_part(row, widths, k - 1, idx));
    }
}

proof fn lemma_rows_block_width(rows: Seq<Seq<Seq<char>>>, widths: Seq<usize>)
    requires
        forall|i: int| 0 <= i < widths.len() ==> widths[i] >= 1,
    ensures
        forall|k: int| 0 <= k < rows_block(rows, widths).len() ==>
            run_width(#[trigger] rows_block(rows, widths)[k]) == table_width(widths, widths.len() as int),
    decreases rows.len(),
{
    if rows.len() > 0 {
        lemma_rows_block_width(rows.drop_last(), widths);
        let before = rows_block(rows.drop_last(), widths);
        let block = row_block(rows.last(), widths);
        assert forall|k: int| 0 <= k < rows_block(rows, widths).len() implies
            run_width(#[trigger] rows_block(rows, widths)[k]) == table_width(widths, widths.len() as int) by {
            if k < before.len() {
                assert(rows_block(rows, widths)[k] == before[k]);
            } else {
                assert(rows_block(rows, widths)[k] == block[k - before.len()]);
                lemma_row_line_width(rows.last(), widths, k - before.len(), widths.len() as int);
            }
        }
    }
}

/// A drawn table is a rectangle: when every column is at least one character wide, its
/// borders and every line of its rows are equally wide.
pub proof fn law_table_is_rectangular(rows: Seq<Seq<Seq<char>>>, widths: Seq<usize>)
    requires
        widths.len() >= 1,
        forall|i: int| 0 <= i < widths.len() ==> widths[i] >= 1,
    ensures
        forall|k: int| 0 <= k < drawn_table(rows, widths).len() ==>
            run_width(#[trigger] drawn_table(rows, widths)[k]) == table_width(widths, widths.len() as int),
{
    let t = drawn_table(rows, widths);
    let body = rows_block(rows, widths);
    lemma_rows_block_width(rows, widths);
    lemma_border_width(widths, '┬');
    lemma_border_width(widths, '┴');
    lemma_run_width_one(seq!['╭'] + border_bars(widths, '┬') + seq!['╮'], fg(Color::DarkGray));
    lemma_run_width_one(seq!['╰'] + border_bars(widths, '┴') + seq!['╯'], fg(Color::DarkGray));
    assert forall|k: int| 0 <= k < t.len() implies run_width(#[trigger] t[k]) == table_width(widths, widths.len() as int) by {
        if k == 0 {
            assert(t[k] == border_line(widths, '╭', '┬', '╮'));
        } else if k <= body.len() {
            assert(t[k] == body[k - 1]);
        } else {
            assert(t[k] == border_line(widths, '╰', '┴', '╯'));
        }
    }
}

} // verus!
