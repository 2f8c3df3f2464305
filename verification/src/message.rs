//! Splitting a message into prose, fenced code blocks and tables, the way it is displayed.
use vstd::prelude::*;
use crate::text::{
    boundary_index, byte_len, byte_len_of, char_index, char_width, char_width_of, chars_of,
    is_boundary, lemma_byte_len_mono, lemma_byte_len_step, lemma_char_index, lemma_char_width,
    lines, lines_of, slice_of, string_of, trim, trim_chars,
};
use crate::table::{find_table_blocks, index_or_len, lemma_index_or_len, render_table_block, table_blocks, table_render};
use crate::render::{line_runs, markdown_events, md_runs, parse_markdown_line, Run};
use crate::highlight::{code_lines, code_ranges, highlight_code_block, runs_text, Highlighter};
use crate::types::StyledLine;

verus! {

/// An opening or closing code fence starts at character `i`: three backticks at the start of a
/// line.
pub open spec fn fence_at(s: Seq<char>, i: int) -> bool {
    &&& 0 <= i
    &&& i + 3 <= s.len()
    &&& (i == 0 || s[i - 1] == '\n')
    &&& s[i] == '`' && s[i + 1] == '`' && s[i + 2] == '`'
}

/// The index of the first `\n` at or after `i`, or the length of `s`.
pub open spec fn line_end(s: Seq<char>, i: int) -> int {
    i + index_or_len(s.skip(i), '\n')
}

/// The code blocks of `s` from character `i` on, `open` holding the start of an opening fence
/// and of its language tag and the end of that tag when a block is open: each block as the
/// start of its opening fence, the start of its closing fence, and the start and end of its
/// language tag. A fence that is never closed opens no block.
pub open spec fn code_scan(s: Seq<char>, i: int, open: Option<(int, int, int)>) -> Seq<(int, int, int, int)>
    decreases s.len() - i,
{
    if i < 0 || i >= s.len() {
        seq![]
    } else if fence_at(s, i) {
        match open {
            Some((st, l, le)) => seq![(st, i, l, le)] + code_scan(s, i + 3, None),
            None => {
                proof {
                    lemma_index_or_len(s.skip(i + 3), '\n');
                }
                code_scan(s, line_end(s, i + 3), Some((i, i + 3, line_end(s, i + 3))))
            },
        }
    } else {
        code_scan(s, i + 1, open)
    }
}

/// A block of a message: a code block (character indices of its opening fence, its closing
/// fence, and its language tag's start and end) or a table (byte offsets of its start and end).
pub enum Block {
    Code(int, int, int, int),
    Table(int, int),
}

/// The byte offset of character index `k`.
pub open spec fn offset(s: Seq<char>, k: int) -> int {
    byte_len(s.take(k)) as int
}

/// The byte offset where a block starts.
pub open spec fn block_start(s: Seq<char>, b: Block) -> int {
    match b {
        Block::Code(st, _, _, _) => offset(s, st),
        Block::Table(a, _) => a,
    }
}

/// The characters between two byte offsets.
pub open spec fn byte_slice(s: Seq<char>, a: int, b: int) -> Seq<char> {
    s.subrange(char_index(s, a), char_index(s, b))
}

/// A piece of a message as displayed: prose, a code block with its language, or a table.
pub enum PieceView {
    Prose(Seq<char>),
    Code(Seq<char>, Seq<char>),
    Table(Seq<char>),
}

/// A piece of a message: prose, a code block (its code and its language tag), or a table.
pub enum Piece {
    Prose(String),
    Code(String, String),
    Table(String),
}

pub open spec fn piece_view(p: Piece) -> PieceView {
    match p {
        Piece::Prose(t) => PieceView::Prose(t@),
        Piece::Code(c, l) => PieceView::Code(c@, l@),
        Piece::Table(t) => PieceView::Table(t@),
    }
}

/// What a block gives when the text before it has been shown up to byte offset `pos`: nothing
/// when it starts before `pos`; else the prose from `pos` to its start, then the block (a code
/// block's code is what follows its opening fence's line up to its closing fence, its
/// language the trimmed tag), and where the text goes on after it (after a code block's
/// closing fence, at a table's end). The flag says whether the byte offsets cut the text at
/// character boundaries.
pub open spec fn visit(s: Seq<char>, b: Block, pos: int) -> (Seq<PieceView>, int, bool) {
    let start = block_start(s, b);
    if start < pos {
        (seq![], pos, true)
    } else {
        let prose: Seq<PieceView> = if pos < start { seq![PieceView::Prose(byte_slice(s, pos, start))] } else { seq![] };
        match b {
            Block::Code(st, en, l, le) => (
                prose + seq![PieceView::Code(s.subrange(le + 1, en), trim(s.subrange(l, le)))],
                offset(s, en) + 3,
                true,
            ),
            Block::Table(a, e) => (
                prose + seq![PieceView::Table(byte_slice(s, a, e))],
                e,
                is_boundary(s, a) && is_boundary(s, e),
            ),
        }
    }
}

/// The blocks `codes` and `tables` visited in order of their start, a code block before a table
/// that starts at the same offset, from byte offset `pos` on: the pieces, where the text goes
/// on after the last block, and whether every cut fell on a character boundary.
pub open spec fn visit_all(s: Seq<char>, codes: Seq<Block>, tables: Seq<Block>, pos: int) -> (Seq<PieceView>, int, bool)
    decreases codes.len() + tables.len(),
{
    if codes.len() == 0 && tables.len() == 0 {
        (seq![], pos, true)
    } else if tables.len() == 0 || (codes.len() > 0 && block_start(s, codes[0]) <= block_start(s, tables[0])) {
        let (p1, q1, k1) = visit(s, codes[0], pos);
        let (p2, q2, k2) = visit_all(s, codes.drop_first(), tables, q1);
        (p1 + p2, q2, k1 && k2)
    } else {
        let (p1, q1, k1) = visit(s, tables[0], pos);
        let (p2, q2, k2) = visit_all(s, codes, tables.drop_first(), q1);
        (p1 + p2, q2, k1 && k2)
    }
}

/// The code blocks of a message.
pub open spec fn code_blocks_of(s: Seq<char>) -> Seq<Block> {
    code_scan(s, 0, None).map_values(|c: (int, int, int, int)| Block::Code(c.0, c.1, c.2, c.3))
}

/// The tables of a message.
pub open spec fn table_blocks_of(s: Seq<char>) -> Seq<Block> {
    table_blocks(lines(s), 0).map_values(|t: (int, int)| Block::Table(t.0, t.1))
}

/// Whether every byte offset at which the message is cut falls on a character boundary.
pub open spec fn cuts_ok(s: Seq<char>) -> bool {
    visit_all(s, code_blocks_of(s), table_blocks_of(s), 0).2
}

/// The pieces of a message: its prose, code blocks and tables in order, and the prose after
/// the last block.
pub open spec fn message_pieces_of(s: Seq<char>) -> Seq<PieceView> {
    let (ps, pos, _) = visit_all(s, code_blocks_of(s), table_blocks_of(s), 0);
    if pos < byte_len(s) {
        ps.push(PieceView::Prose(byte_slice(s, pos, byte_len(s) as int)))
    } else {
        ps
    }
}

fn fence_here(cs: &Vec<char>, i: usize) -> (b: bool)
    ensures
        b == fence_at(cs@, i as int),
{
    let n = cs.len();
    i <= n && n - i >= 3 && (i == 0 || cs[i - 1] == '\n') && cs[i] == '`' && cs[i + 1] == '`' && cs[i + 2] == '`'
}

proof fn lemma_fence_bytes(s: Seq<char>, i: int)
    requires
        fence_at(s, i),
    ensures
        offset(s, i + 3) == offset(s, i) + 3,
{
    lemma_byte_len_step(s, i);
    lemma_byte_len_step(s, i + 1);
    lemma_byte_len_step(s, i + 2);
    lemma_char_width('`');
}


pub open spec fn codes_view(v: Seq<(usize, usize, usize, usize)>) -> Seq<(int, int, int, int)> {
    v.map_values(|c: (usize, usize, usize, usize)| (c.0 as int, c.1 as int, c.2 as int, c.3 as int))
}

/// The code blocks of `cs` (see `code_scan`).
fn scan_code_blocks(cs: &Vec<char>) -> (r: Vec<(usize, usize, usize, usize)>)
    ensures
        codes_view(r@) == code_scan(cs@, 0, None),
{
    let ghost s = cs@;
    let n = cs.len();
    let mut r: Vec<(usize, usize, usize, usize)> = Vec::new();
    let mut open = false;
    let mut fs: usize = 0;
    let mut ls: usize = 0;
    let mut le: usize = 0;
    let mut i: usize = 0;
    while i < n
        invariant
            n == s.len(),
            s == cs@,
            i <= n,
            code_scan(s, 0, None) == codes_view(r@) + code_scan(s, i as int, if open { Some((fs as int, ls as int, le as int)) } else { None }),
        decreases n - i,
    {
        let ghost st: Option<(int, int, int)> = if open { Some((fs as int, ls as int, le as int)) } else { None };
        if fence_here(cs, i) {
            if open {
                let ghost before = codes_view(r@);
                r.push((fs, i, ls, le));
                assert(codes_view(r@) =~= before.push((fs as int, i as int, ls as int, le as int)));
                assert(code_scan(s, i as int, st) == seq![(fs as int, i as int, ls as int, le as int)] + code_scan(s, i + 3, None));
                open = false;
                i = i + 3;
            } else {
                let j0 = i + 3;
                let mut j = j0;
                while j < n && cs[j] != '\n'
                    invariant
                        n == s.len(),
                        s == cs@,
                        j0 <= j <= n,
                        forall|k: int| j0 <= k < j ==> s[k] != '\n',
                    decreases n - j,
                {
                    j = j + 1;
                }
                proof {
                    let t = s.skip(j0 as int);
                    assert forall|k: int| 0 <= k < j - j0 implies t[k] != '\n' by {
                        assert(t[k] == s[j0 + k]);
                    }
                    if j < n {
                        assert(t[j - j0] == s[j as int]);
                    }
                    crate::table::lemma_index_at(t, '\n', j - j0);
                }
                assert(code_scan(s, i as int, st) == code_scan(s, j as int, Some((i as int, j0 as int, j as int))));
                open = true;
                fs = i;
                ls = j0;
                le = j;
                i = j;
            }
        } else {
            i = i + 1;
        }
    }
    r
}

/// The byte offset of every character index of `cs`, up to its length.
fn char_offsets(cs: &Vec<char>, total: usize) -> (offs: Vec<usize>)
    requires
        total == byte_len(cs@),
    ensures
        offs@.len() == cs@.len() + 1,
        forall|k: int| 0 <= k <= cs@.len() ==> offs@[k] == offset(cs@, k),
{
    let n = cs.len();
    let mut offs: Vec<usize> = Vec::new();
    offs.push(0);
    let mut b: usize = 0;
    let mut k: usize = 0;
    assert(cs@.take(0) =~= Seq::<char>::empty());
    while k < n
        invariant
            n == cs@.len(),
            total == byte_len(cs@),
            k <= n,
            offs@.len() == k + 1,
            b == offset(cs@, k as int),
            forall|t: int| 0 <= t <= k ==> offs@[t] == offset(cs@, t),
        decreases n - k,
    {
        proof {
            lemma_byte_len_step(cs@, k as int);
            lemma_byte_len_mono(cs@, (k + 1) as int, n as int);
            assert(cs@.take(n as int) =~= cs@);
        }
        let w = char_width_of(cs[k]);
        b = b + w;
        offs.push(b);
        k = k + 1;
    }
    offs
}


pub open spec fn pieces_view(v: Seq<Piece>) -> Seq<PieceView> {
    v.map_values(|p: Piece| piece_view(p))
}

/// A code block found by the scan: an opening fence at `st` with its tag from `l` to the `\n`
/// at `le`, and a closing fence at `en`.
pub open spec fn well_placed(s: Seq<char>, c: (int, int, int, int)) -> bool {
    let (st, en, l, le) = c;
    &&& fence_at(s, st)
    &&& fence_at(s, en)
    &&& l == st + 3
    &&& l <= le < en
    &&& s[le] == '\n'
}

proof fn lemma_code_scan(s: Seq<char>, i: int, open: Option<(int, int, int)>)
    requires
        0 <= i,
        open matches Some((st, l, le)) ==> fence_at(s, st) && l == st + 3 && l <= le <= i && le <= s.len()
            && (le < s.len() ==> s[le] == '\n'),
    ensures
        forall|k: int| 0 <= k < code_scan(s, i, open).len() ==> well_placed(s, #[trigger] code_scan(s, i, open)[k]),
    decreases s.len() - i,
{
    if i < 0 || i >= s.len() {
    } else if fence_at(s, i) {
        match open {
            Some((st, l, le)) => {
                lemma_code_scan(s, i + 3, None);
                let rest = code_scan(s, i + 3, None);
                assert(i != le);
                assert(code_scan(s, i, open) == seq![(st, i, l, le)] + rest);
                assert(well_placed(s, (st, i, l, le)));
                assert forall|k: int| 0 <= k < code_scan(s, i, open).len() implies well_placed(s, #[trigger] code_scan(s, i, open)[k]) by {
                    if k > 0 {
                        assert(code_scan(s, i, open)[k] == rest[k - 1]);
                    }
                }
            },
            None => {
                lemma_index_or_len(s.skip(i + 3), '\n');
                let e = line_end(s, i + 3);
                if e < s.len() {
                    assert(s[e] == s.skip(i + 3)[e - (i + 3)]);
                }
                lemma_code_scan(s, e, Some((i, i + 3, e)));
                assert(code_scan(s, i, open) == code_scan(s, e, Some((i, i + 3, e))));
            },
        }
    } else {
        lemma_code_scan(s, i + 1, open);
        assert(code_scan(s, i, open) == code_scan(s, i + 1, open));
    }
}

proof fn lemma_table_blocks_ordered(ls: Seq<Seq<char>>, i: int)
    ensures
        forall|k: int| 0 <= k < table_blocks(ls, i).len() ==> (#[trigger] table_blocks(ls, i)[k]).0 < table_blocks(ls, i)[k].1,
    decreases ls.len() - i,
{
    if i < 0 || i >= ls.len() {
    } else if !crate::table::is_table_line(ls[i]) {
        lemma_table_blocks_ordered(ls, i + 1);
        assert(table_blocks(ls, i) == table_blocks(ls, i + 1));
    } else {
        crate::table::lemma_run_end(ls, i);
        let e = crate::table::run_end(ls, i);
        lemma_table_blocks_ordered(ls, e);
        let rest = table_blocks(ls, e);
        let all = table_blocks(ls, i);
        let start = crate::table::line_offset(ls, i);
        let end = crate::table::line_offset(ls, e - 1) + crate::text::byte_len(ls[e - 1]);
        if e - i >= 2 && start < end {
            assert(all == seq![(start, end)] + rest);
            assert forall|k: int| 0 <= k < all.len() implies (#[trigger] all[k]).0 < all[k].1 by {
                if k > 0 {
                    assert(all[k] == rest[k - 1]);
                }
            }
        } else {
            assert(all == Seq::<(int, int)>::empty() + rest);
            assert(all =~= rest);
        }
    }
}

proof fn lemma_offsets_order(s: Seq<char>, i: int, j: int)
    requires
        0 <= i <= s.len(),
        0 <= j <= s.len(),
        offset(s, i) < offset(s, j),
    ensures
        i < j,
{
    if j <= i {
        lemma_byte_len_mono(s, j, i);
    }
}

/// The pieces of `text`, or `None` when a table's byte offsets do not cut it at character
/// boundaries.
fn pieces_checked(text: &str) -> (r: Option<Vec<Piece>>)
    ensures
        r is Some <==> cuts_ok(text@),
        r matches Some(v) ==> pieces_view(v@) == message_pieces_of(text@),
{
    let cs = chars_of(text);
    let ghost s = text@;
    let n = cs.len();
    let total = byte_len_of(text);
    let offs = char_offsets(&cs, total);
    let codes = scan_code_blocks(&cs);
    let tables = find_table_blocks(text);
    let ghost cb = code_blocks_of(s);
    let ghost tb = table_blocks_of(s);
    proof {
        lemma_code_scan(s, 0, None);
        lemma_table_blocks_ordered(lines(s), 0);
        assert(cs@.take(n as int) =~= cs@);
        lemma_char_index(s, 0);
        assert(s.take(0) =~= Seq::<char>::empty());
        assert(cb.skip(0) =~= cb);
        assert(tb.skip(0) =~= tb);
    }
    let mut out: Vec<Piece> = Vec::new();
    let mut pos: usize = 0;
    let mut pos_c: usize = 0;
    let mut ci: usize = 0;
    let mut ti: usize = 0;
    while ci < codes.len() || ti < tables.len()
        invariant
            s == cs@,
            s == text@,
            n == s.len(),
            total == byte_len(s),
            offs@.len() == n + 1,
            forall|k: int| 0 <= k <= n ==> offs@[k] == offset(s, k),
            codes_view(codes@) == code_scan(s, 0, None),
            forall|k: int| 0 <= k < code_scan(s, 0, None).len() ==> well_placed(s, #[trigger] code_scan(s, 0, None)[k]),
            tables@.map_values(|p: (usize, usize)| (p.0 as int, p.1 as int)) == table_blocks(lines(s), 0),
            forall|k: int| 0 <= k < table_blocks(lines(s), 0).len() ==> (#[trigger] table_blocks(lines(s), 0)[k]).0 < table_blocks(lines(s), 0)[k].1,
            cb == code_blocks_of(s),
            tb == table_blocks_of(s),
            ci <= codes@.len(),
            ti <= tables@.len(),
            pos_c <= n,
            pos == offset(s, pos_c as int),
            visit_all(s, cb, tb, 0).0 == pieces_view(out@) + visit_all(s, cb.skip(ci as int), tb.skip(ti as int), pos as int).0,
            visit_all(s, cb, tb, 0).1 == visit_all(s, cb.skip(ci as int), tb.skip(ti as int), pos as int).1,
            visit_all(s, cb, tb, 0).2 == visit_all(s, cb.skip(ci as int), tb.skip(ti as int), pos as int).2,
        decreases codes@.len() + tables@.len() - ci - ti,
    {
        let ghost cr = cb.skip(ci as int);
        let ghost tr = tb.skip(ti as int);
        let take_code = ti >= tables.len() || (ci < codes.len() && offs[codes[ci].0] <= tables[ti].0);
        let ghost before = pieces_view(out@);
        if take_code {
            let (st, en, l, le) = codes[ci];
            assert(codes_view(codes@)[ci as int] == (st as int, en as int, l as int, le as int));
            assert(well_placed(s, code_scan(s, 0, None)[ci as int]));
            assert(cr[0] == Block::Code(st as int, en as int, l as int, le as int));
            assert(cr.drop_first() =~= cb.skip(ci + 1));
            if ti < tables.len() {
                assert(tables@.map_values(|p: (usize, usize)| (p.0 as int, p.1 as int))[ti as int] == (tables@[ti as int].0 as int, tables@[ti as int].1 as int));
                assert(tr[0] == Block::Table(tables@[ti as int].0 as int, tables@[ti as int].1 as int));
            }
            let start = offs[st];
            if start >= pos {
                proof {
                    lemma_char_index(s, pos_c as int);
                    lemma_char_index(s, st as int);
                    if pos < start {
                        lemma_offsets_order(s, pos_c as int, st as int);
                    }
                    lemma_fence_bytes(s, en as int);
                }
                if pos < start {
                    out.push(Piece::Prose(string_of(&cs, pos_c, st)));
                }
                let code = string_of(&cs, le + 1, en);
                let tag = slice_of(&cs, l, le);
                let lang_chars = trim_chars(&tag);
                let lang = string_of(&lang_chars, 0, lang_chars.len());
                assert(lang_chars@.subrange(0, lang_chars@.len() as int) =~= lang_chars@);
                out.push(Piece::Code(code, lang));
                assert(pieces_view(out@) =~= before + visit(s, cr[0], pos as int).0);
                pos = offs[en + 3];
                pos_c = en + 3;
            } else {
                assert(pieces_view(out@) =~= before + visit(s, cr[0], pos as int).0);
            }
            ci = ci + 1;
        } else {
            let (a, e) = tables[ti];
            assert(tables@.map_values(|p: (usize, usize)| (p.0 as int, p.1 as int))[ti as int] == (a as int, e as int));
            assert(table_blocks(lines(s), 0)[ti as int].0 < table_blocks(lines(s), 0)[ti as int].1);
            assert(tr[0] == Block::Table(a as int, e as int));
            assert(tr.drop_first() =~= tb.skip(ti + 1));
            if ci < codes.len() {
                assert(codes_view(codes@)[ci as int] == (codes@[ci as int].0 as int, codes@[ci as int].1 as int, codes@[ci as int].2 as int, codes@[ci as int].3 as int));
                assert(cr[0] == Block::Code(codes@[ci as int].0 as int, codes@[ci as int].1 as int, codes@[ci as int].2 as int, codes@[ci as int].3 as int));
            }
            if a >= pos {
                let ac = boundary_index(&cs, a);
                let ec = boundary_index(&cs, e);
                if ac.is_none() || ec.is_none() {
                    assert(!visit(s, tr[0], pos as int).2);
                    return None;
                }
                let ac = ac.unwrap();
                let ec = ec.unwrap();
                proof {
                    lemma_char_index(s, pos_c as int);
                    crate::text::lemma_boundary_bounds(s, a as int);
                    crate::text::lemma_boundary_bounds(s, e as int);
                    lemma_offsets_order(s, ac as int, ec as int);
                    if pos < a {
                        lemma_offsets_order(s, pos_c as int, ac as int);
                    }
                }
                if pos < a {
                    out.push(Piece::Prose(string_of(&cs, pos_c, ac)));
                }
                out.push(Piece::Table(string_of(&cs, ac, ec)));
                assert(pieces_view(out@) =~= before + visit(s, tr[0], pos as int).0);
                pos = e;
                pos_c = ec;
            } else {
                assert(pieces_view(out@) =~= before + visit(s, tr[0], pos as int).0);
            }
            ti = ti + 1;
        }
    }
    proof {
        assert(cb.skip(ci as int) =~= Seq::<Block>::empty());
        assert(tb.skip(ti as int) =~= Seq::<Block>::empty());
        lemma_char_index(s, pos_c as int);
        crate::text::lemma_end_boundary(s);
    }
    if pos < total {
        proof {
            lemma_offsets_order(s, pos_c as int, n as int);
        }
        let ghost before = pieces_view(out@);
        out.push(Piece::Prose(string_of(&cs, pos_c, n)));
        assert(pieces_view(out@) =~= before.push(PieceView::Prose(byte_slice(s, pos as int, byte_len(s) as int))));
    }
    Some(out)
}

/// Whether the byte offsets at which `text` is cut into pieces all fall on character
/// boundaries, so that `message_pieces` can take it.
pub fn message_cuts_ok(text: &str) -> (b: bool)
    ensures
        b == cuts_ok(text@),
{
    pieces_checked(text).is_some()
}

/// The pieces of a message: prose, fenced code blocks (fences at line starts; a fence left
/// open opens no block) and tables (see `find_table_blocks`), in order of their start; a block
/// that starts before the end of the previous one is dropped.
pub fn message_pieces(text: &str) -> (r: Vec<Piece>)
    requires
        cuts_ok(text@),
    ensures
        pieces_view(r@) == message_pieces_of(text@),
{
    match pieces_checked(text) {
        Some(v) => v,
        None => Vec::new(),
    }
}


/// How a piece is displayed in `max_width` columns: prose as one line of inline markdown per
/// line, a code block highlighted for its language, a table drawn (`None` when its columns are
/// to be scaled down in proportion).
pub open spec fn piece_display(p: PieceView, max_width: int) -> Option<Seq<Seq<Run>>> {
    match p {
        PieceView::Prose(t) => Some(lines(t).map_values(|l: Seq<char>| md_runs(markdown_events(l), false, false))),
        PieceView::Code(c, l) => Some(code_lines(code_ranges(l, lines(c)))),
        PieceView::Table(t) => table_render(t, max_width),
    }
}

/// Displays a piece of a message (see `piece_display`).
pub fn render_piece(h: &Highlighter, p: &Piece, max_width: usize) -> (r: Option<Vec<StyledLine>>)
    ensures
        r matches Some(ls) ==> piece_display(piece_view(*p), max_width as int) == Some(line_runs(ls@)),
        r is None <==> piece_display(piece_view(*p), max_width as int) is None,
        piece_view(*p) matches PieceView::Code(code, _) ==> r matches Some(ls) && ls@.len() == lines(code).len()
            && forall|i: int| 0 <= i < ls@.len() ==> runs_text(#[trigger] line_runs(ls@)[i]) == lines(code)[i]
            || runs_text(line_runs(ls@)[i]).len() == 0,
{
    match p {
        Piece::Prose(t) => {
            let cs = chars_of(t.as_str());
            let ls = lines_of(&cs);
            let ghost lv = lines(t@);
            let mut out: Vec<StyledLine> = Vec::new();
            let mut i: usize = 0;
            while i < ls.len()
                invariant
                    i <= ls@.len(),
                    ls@.len() == lv.len(),
                    forall|k: int| 0 <= k < ls@.len() ==> (#[trigger] ls@[k])@ == lv[k],
                    line_runs(out@) == lv.take(i as int).map_values(|l: Seq<char>| md_runs(markdown_events(l), false, false)),
                decreases ls@.len() - i,
            {
                let text = string_of(&ls[i], 0, ls[i].len());
                assert(ls@[i as int]@.subrange(0, ls@[i as int]@.len() as int) =~= lv[i as int]);
                let line = parse_markdown_line(text.as_str());
                let ghost before = line_runs(out@);
                out.push(line);
                assert(line_runs(out@) =~= before.push(md_runs(markdown_events(lv[i as int]), false, false)));
                i = i + 1;
                assert(lv.take(i as int).map_values(|l: Seq<char>| md_runs(markdown_events(l), false, false))
                    =~= lv.take(i - 1).map_values(|l: Seq<char>| md_runs(markdown_events(l), false, false)).push(md_runs(markdown_events(lv[i - 1]), false, false)));
            }
            assert(lv.take(ls@.len() as int) =~= lv);
            Some(out)
        },
        Piece::Code(code, language) => Some(highlight_code_block(h, code.as_str(), language.as_str())),
        Piece::Table(t) => render_table_block(t.as_str(), max_width),
    }
}


/// A message with no code block and no table is shown as one piece of prose: the message.
pub proof fn law_plain_message_is_prose(s: Seq<char>)
    requires
        s.len() > 0,
        code_blocks_of(s).len() == 0,
        table_blocks_of(s).len() == 0,
    ensures
        cuts_ok(s),
        message_pieces_of(s) == seq![PieceView::Prose(s)],
{
    assert(code_blocks_of(s) =~= Seq::<Block>::empty());
    assert(table_blocks_of(s) =~= Seq::<Block>::empty());
    assert(s.take(0) =~= Seq::<char>::empty());
    assert(s.take(s.len() as int) =~= s);
    crate::text::lemma_byte_len_strict(s, 0, s.len() as int);
    lemma_char_index(s, 0);
    crate::text::lemma_end_boundary(s);
    assert(byte_slice(s, 0, byte_len(s) as int) =~= s);
}

} // verus!
