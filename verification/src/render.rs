//! Rendering text for the terminal as lines of styled runs: inline markdown and word
//! wrapping.
use vstd::prelude::*;
use crate::text::{
    chars_of, string_of, is_white_space, is_whitespace, lines, lines_of, slice_of, byte_len,
    byte_len_of, contains_seq, contains_in, starts_with, starts_with_in, trim, trim_chars,
    leading_space,
};
use crate::types::{Color, Span, Style, StyledLine};
use crate::table::run_width;
use pulldown_cmark::{Event, Tag};

verus! {

/// An inline markdown event, as far as rendering reads it.
pub enum MdEvent {
    StartStrong,
    EndStrong,
    StartEmphasis,
    EndEmphasis,
    Text(String),
    Code(String),
    Other,
}

/// The content of an inline markdown event.
pub enum MdItem {
    StartStrong,
    EndStrong,
    StartEmphasis,
    EndEmphasis,
    Text(Seq<char>),
    Code(Seq<char>),
    Other,
}

pub open spec fn md_item(e: MdEvent) -> MdItem {
    match e {
        MdEvent::StartStrong => MdItem::StartStrong,
        MdEvent::EndStrong => MdItem::EndStrong,
        MdEvent::StartEmphasis => MdItem::StartEmphasis,
        MdEvent::EndEmphasis => MdItem::EndEmphasis,
        MdEvent::Text(t) => MdItem::Text(t@),
        MdEvent::Code(t) => MdItem::Code(t@),
        MdEvent::Other => MdItem::Other,
    }
}

/// The events `pulldown_cmark::Parser::new(text)` yields: strong and emphasis starts and ends,
/// text, inline code, and everything else as `Other`.
pub uninterp spec fn markdown_events(text: Seq<char>) -> Seq<MdItem>;

/// Parses `text` with `pulldown_cmark::Parser::new`; the events are `markdown_events` of it.
#[verifier::external_body]
fn parse_markdown(text: &str) -> (r: Vec<MdEvent>)
    ensures
        r@.map_values(|e: MdEvent| md_item(e)) == markdown_events(text@),
{
    let mut out = Vec::new();
    for e in pulldown_cmark::Parser::new(text) {
        out.push(match e {
            Event::Start(Tag::Strong) => MdEvent::StartStrong,
            Event::End(Tag::Strong) => MdEvent::EndStrong,
            Event::Start(Tag::Emphasis) => MdEvent::StartEmphasis,
            Event::End(Tag::Emphasis) => MdEvent::EndEmphasis,
            Event::Text(t) => MdEvent::Text(t.to_string()),
            Event::Code(t) => MdEvent::Code(t.to_string()),
            _ => MdEvent::Other,
        });
    }
    out
}

/// The style with no color and no modifiers.
pub open spec fn plain() -> Style {
    Style { fg: None, bold: false, italic: false }
}

/// The style with foreground `c`.
pub open spec fn fg(c: Color) -> Style {
    Style { fg: Some(c), bold: false, italic: false }
}

/// The style of text inside strong (bold, yellow) or emphasis (italic) markup.
pub open spec fn text_style(bold: bool, italic: bool) -> Style {
    if bold {
        Style { fg: Some(Color::Yellow), bold: true, italic: false }
    } else if italic {
        Style { fg: None, bold: false, italic: true }
    } else {
        plain()
    }
}

/// The contents of styled runs.
pub open spec fn runs(spans: Seq<Span>) -> Seq<(Seq<char>, Style)> {
    spans.map_values(|s: Span| (s.content@, s.style))
}

/// The runs of an inline markdown line: text styled by the strong and emphasis markup around
/// it, inline code in cyan, everything else dropped.
pub open spec fn md_runs(evs: Seq<MdItem>, bold: bool, italic: bool) -> Seq<(Seq<char>, Style)>
    decreases evs.len(),
{
    if evs.len() == 0 {
        seq![]
    } else {
        let rest = evs.drop_first();
        match evs[0] {
            MdItem::StartStrong => md_runs(rest, true, italic),
            MdItem::EndStrong => md_runs(rest, false, italic),
            MdItem::StartEmphasis => md_runs(rest, bold, true),
            MdItem::EndEmphasis => md_runs(rest, bold, false),
            MdItem::Text(t) => seq![(t, text_style(bold, italic))] + md_runs(rest, bold, italic),
            MdItem::Code(t) => seq![(t, fg(Color::Cyan))] + md_runs(rest, bold, italic),
            MdItem::Other => md_runs(rest, bold, italic),
        }
    }
}

/// A run of text.
pub fn span(content: String, style: Style) -> (s: Span)
    ensures
        s.content@ == content@,
        s.style == style,
{
    Span { content, style }
}

/// Renders one line of inline markdown as styled runs.
pub fn parse_markdown_line(text: &str) -> (r: StyledLine)
    ensures
        runs(r@) == md_runs(markdown_events(text@), false, false),
{
    let events = parse_markdown(text);
    let ghost evs = events@.map_values(|e: MdEvent| md_item(e));
    let mut spans: Vec<Span> = Vec::new();
    let mut bold = false;
    let mut italic = false;
    let n = events.len();
    let mut i: usize = 0;
    assert(evs.skip(0) =~= evs);
    while i < n
        invariant
            n == events@.len() == evs.len(),
            evs == events@.map_values(|e: MdEvent| md_item(e)),
            i <= n,
            md_runs(evs, false, false) == runs(spans@) + md_runs(evs.skip(i as int), bold, italic),
        decreases n - i,
    {
        let ghost before = runs(spans@);
        assert(evs.skip(i as int).drop_first() =~= evs.skip(i + 1));
        assert(evs.skip(i as int)[0] == md_item(events@[i as int]));
        match &events[i] {
            MdEvent::StartStrong => {
                bold = true;
            },
            MdEvent::EndStrong => {
                bold = false;
            },
            MdEvent::StartEmphasis => {
                italic = true;
            },
            MdEvent::EndEmphasis => {
                italic = false;
            },
            MdEvent::Text(t) => {
                let style = if bold {
                    Style { fg: Some(Color::Yellow), bold: true, italic: false }
                } else if italic {
                    Style { fg: None, bold: false, italic: true }
                } else {
                    Style { fg: None, bold: false, italic: false }
                };
                spans.push(span(t.clone(), style));
                assert(runs(spans@) =~= before.push((t@, style)));
            },
            MdEvent::Code(t) => {
                spans.push(span(t.clone(), Style { fg: Some(Color::Cyan), bold: false, italic: false }));
                assert(runs(spans@) =~= before.push((t@, fg(Color::Cyan))));
            },
            MdEvent::Other => {},
        }
        i = i + 1;
    }
    assert(md_runs(evs.skip(n as int), bold, italic) =~= Seq::<(Seq<char>, Style)>::empty());
    spans
}


/// Number of leading characters of `s` that are not whitespace.
pub open spec fn word_len(s: Seq<char>) -> int
    decreases s.len(),
{
    if s.len() > 0 && !is_white_space(s[0]) {
        1 + word_len(s.drop_first())
    } else {
        0
    }
}

pub proof fn lemma_word_len(s: Seq<char>)
    ensures
        0 <= word_len(s) <= s.len(),
        s.len() > 0 && !is_white_space(s[0]) ==> word_len(s) >= 1,
        forall|i: int| 0 <= i < word_len(s) ==> !is_white_space(#[trigger] s[i]),
        word_len(s) < s.len() ==> is_white_space(s[word_len(s)]),
    decreases s.len(),
{
    if s.len() > 0 && !is_white_space(s[0]) {
        lemma_word_len(s.drop_first());
        assert forall|i: int| 0 <= i < word_len(s) implies !is_white_space(#[trigger] s[i]) by {
            if i > 0 {
                assert(s[i] == s.drop_first()[i - 1]);
            }
        }
    }
}

pub proof fn lemma_leading(s: Seq<char>)
    ensures
        0 <= leading_space(s) <= s.len(),
        leading_space(s) < s.len() ==> !is_white_space(s[leading_space(s)]),
        forall|i: int| 0 <= i < leading_space(s) ==> is_white_space(#[trigger] s[i]),
    decreases s.len(),
{
    if s.len() > 0 && is_white_space(s[0]) {
        lemma_leading(s.drop_first());
        assert forall|i: int| 0 <= i < leading_space(s) implies is_white_space(#[trigger] s[i]) by {
            if i > 0 {
                assert(s[i] == s.drop_first()[i - 1]);
            }
        }
    }
}

/// The words of `s`: the runs of non-whitespace (`str::split_whitespace`).
pub open spec fn words(s: Seq<char>) -> Seq<Seq<char>>
    decreases s.len(),
{
    let t = s.skip(leading_space(s));
    if leading_space(s) < 0 || leading_space(s) > s.len() || t.len() == 0 {
        seq![]
    } else {
        proof {
            lemma_leading(s);
            lemma_word_len(t);
        }
        seq![t.take(word_len(t))] + words(t.skip(word_len(t)))
    }
}

/// The words of `v`.
fn split_words(v: &Vec<char>) -> (r: Vec<Vec<char>>)
    ensures
        r@.map_values(|w: Vec<char>| w@) == words(v@),
{
    let n = v.len();
    let mut r: Vec<Vec<char>> = Vec::new();
    let mut i: usize = 0;
    assert(v@.skip(0) =~= v@);
    loop
        invariant
            n == v@.len(),
            i <= n,
            words(v@) == r@.map_values(|w: Vec<char>| w@) + words(v@.skip(i as int)),
        decreases n - i,
    {
        let ghost s = v@.skip(i as int);
        let mut j = i;
        while j < n && is_whitespace(v[j])
            invariant
                n == v@.len(),
                i <= j <= n,
                forall|k: int| i <= k < j ==> is_white_space(#[trigger] v@[k]),
            decreases n - j,
        {
            j = j + 1;
        }
        proof {
            assert forall|k: int| 0 <= k < j - i implies is_white_space(#[trigger] s[k]) by {
                assert(s[k] == v@[i + k]);
            }
            crate::text::lemma_space_counts(s, j - i, s.len() as int);
        }
        if j == n {
            assert(s.skip(j - i) =~= Seq::<char>::empty());
            assert(r@.map_values(|w: Vec<char>| w@) + words(s) =~= r@.map_values(|w: Vec<char>| w@));
            return r;
        }
        let mut k = j;
        while k < n && !is_whitespace(v[k])
            invariant
                n == v@.len(),
                j <= k <= n,
                forall|t: int| j <= t < k ==> !is_white_space(#[trigger] v@[t]),
            decreases n - k,
        {
            k = k + 1;
        }
        let ghost t = s.skip(j - i);
        proof {
            assert(t =~= v@.skip(j as int));
            lemma_word_count(t, k - j);
        }
        let w = slice_of(v, j, k);
        assert(w@ =~= t.take(k - j));
        let ghost before = r@.map_values(|w: Vec<char>| w@);
        r.push(w);
        assert(r@.map_values(|w: Vec<char>| w@) =~= before.push(t.take(k - j)));
        assert(t.skip(k - j) =~= v@.skip(k as int));
        i = k;
    }
}

proof fn lemma_word_count(t: Seq<char>, w: int)
    requires
        0 <= w <= t.len(),
        forall|i: int| 0 <= i < w ==> !is_white_space(#[trigger] t[i]),
        w < t.len() ==> is_white_space(t[w]),
    ensures
        word_len(t) == w,
    decreases t.len(),
{
    if w > 0 {
        let u = t.drop_first();
        assert forall|i: int| 0 <= i < w - 1 implies !is_white_space(#[trigger] u[i]) by {
            assert(u[i] == t[i + 1]);
        }
        assert(!is_white_space(t[0]));
        lemma_word_count(u, w - 1);
    }
}


/// A run of styled text.
pub type Run = (Seq<char>, Style);

/// The runs of styled lines.
pub open spec fn line_runs(ls: Seq<StyledLine>) -> Seq<Seq<Run>> {
    ls.map_values(|l: StyledLine| runs(l@))
}

/// Each word of each run, with the run's style.
pub open spec fn styled_words(spans: Seq<Run>) -> Seq<Run>
    decreases spans.len(),
{
    if spans.len() == 0 {
        seq![]
    } else {
        let last = spans.last();
        styled_words(spans.drop_last()) + words(last.0).map_values(|w: Seq<char>| (w, last.1))
    }
}

/// `w` cut into pieces of `n` characters, the last one shorter (`slice::chunks`).
pub open spec fn chunks(w: Seq<char>, n: int) -> Seq<Seq<char>>
    decreases w.len(),
{
    if w.len() == 0 || n <= 0 {
        seq![]
    } else if w.len() <= n {
        seq![w]
    } else {
        seq![w.take(n)] + chunks(w.skip(n), n)
    }
}

/// Single-run lines, one per piece.
pub open spec fn piece_lines(pieces: Seq<Seq<char>>, st: Style) -> Seq<Seq<Run>> {
    pieces.map_values(|c: Seq<char>| seq![(c, st)])
}

/// Greedy wrapping of styled words into lines of at most `eff` characters: words are joined
/// by a space in the style of the word after it; a word longer than a line is cut into pieces.
/// `lines` are the finished lines, `cur` the line being filled and `cw` its width.
pub open spec fn wrap_fold(ws: Seq<Run>, eff: int, lines: Seq<Seq<Run>>, cur: Seq<Run>, cw: int) -> (Seq<Seq<Run>>, Seq<Run>)
    decreases ws.len(),
{
    if ws.len() == 0 {
        (lines, cur)
    } else {
        let (w, st) = ws[0];
        let wl = w.len() as int;
        let rest = ws.drop_first();
        if cur.len() == 0 {
            if wl > eff {
                wrap_fold(rest, eff, lines + piece_lines(chunks(w, eff), st), cur, cw)
            } else {
                wrap_fold(rest, eff, lines, seq![(w, st)], wl)
            }
        } else if cw + 1 + wl <= eff {
            wrap_fold(rest, eff, lines, cur + seq![(" "@, st), (w, st)], cw + 1 + wl)
        } else if wl > eff {
            let cs = chunks(w, eff);
            wrap_fold(rest, eff, lines.push(cur) + piece_lines(cs.drop_last(), st), seq![(cs.last(), st)], cs.last().len() as int)
        } else {
            wrap_fold(rest, eff, lines.push(cur), seq![(w, st)], wl)
        }
    }
}

/// The lines of `spans` wrapped to `max_width` characters (at least 1); a single blank line
/// when there is no word.
pub open spec fn wrapped(spans: Seq<Run>, max_width: int) -> Seq<Seq<Run>> {
    let eff = if max_width >= 1 { max_width } else { 1 };
    let blank = seq![seq![(" "@, plain())]];
    if spans.len() == 0 {
        blank
    } else {
        let (ls, cur) = wrap_fold(styled_words(spans), eff, seq![], seq![], 0);
        let all = if cur.len() > 0 { ls.push(cur) } else { ls };
        if all.len() == 0 { blank } else { all }
    }
}

/// `w` cut into pieces of `n` characters.
fn chunks_of(w: &Vec<char>, n: usize) -> (r: Vec<Vec<char>>)
    requires
        n >= 1,
    ensures
        r@.map_values(|c: Vec<char>| c@) == chunks(w@, n as int),
{
    let len = w.len();
    let mut r: Vec<Vec<char>> = Vec::new();
    let mut i: usize = 0;
    assert(w@.skip(0) =~= w@);
    while i < len
        invariant
            len == w@.len(),
            n >= 1,
            i <= len,
            chunks(w@, n as int) == r@.map_values(|c: Vec<char>| c@) + chunks(w@.skip(i as int), n as int),
        decreases len - i,
    {
        let ghost before = r@.map_values(|c: Vec<char>| c@);
        let ghost rest = w@.skip(i as int);
        let end = if len - i <= n { len } else { i + n };
        let c = slice_of(w, i, end);
        r.push(c);
        if len - i <= n {
            assert(c@ =~= rest);
            assert(w@.skip(end as int) =~= Seq::<char>::empty());
        } else {
            assert(c@ =~= rest.take(n as int));
            assert(rest.skip(n as int) =~= w@.skip(end as int));
        }
        assert(r@.map_values(|c: Vec<char>| c@) =~= before.push(c@));
        i = end;
    }
    assert(chunks(w@.skip(len as int), n as int) =~= Seq::<Seq<char>>::empty());
    r
}

proof fn lemma_chunks(w: Seq<char>, n: int)
    requires
        n >= 1,
        w.len() > 0,
    ensures
        chunks(w, n).len() >= 1,
        chunks(w, n).last().len() <= n,
    decreases w.len(),
{
    if w.len() > n {
        lemma_chunks(w.skip(n), n);
    }
}

fn blank_lines() -> (r: Vec<StyledLine>)
    ensures
        line_runs(r@) == seq![seq![(" "@, plain())]],
{
    let mut line: StyledLine = Vec::new();
    line.push(span(" ".to_owned(), Style { fg: None, bold: false, italic: false }));
    let mut r: Vec<StyledLine> = Vec::new();
    r.push(line);
    assert(runs(line@) =~= seq![(" "@, plain())]);
    assert(line_runs(r@) =~= seq![seq![(" "@, plain())]]);
    r
}

fn push_pieces(lines: &mut Vec<StyledLine>, pieces: &Vec<Vec<char>>, lo: usize, hi: usize, st: Style)
    requires
        lo <= hi <= pieces@.len(),
    ensures
        line_runs(final(lines)@) == line_runs(old(lines)@) + piece_lines(pieces@.map_values(|c: Vec<char>| c@).subrange(lo as int, hi as int), st),
{
    let ghost l0 = line_runs(lines@);
    let ghost ps = pieces@.map_values(|c: Vec<char>| c@);
    let mut i = lo;
    while i < hi
        invariant
            lo <= i <= hi <= pieces@.len(),
            ps == pieces@.map_values(|c: Vec<char>| c@),
            line_runs(lines@) == l0 + piece_lines(ps.subrange(lo as int, i as int), st),
        decreases hi - i,
    {
        let c = &pieces[i];
        let mut line: StyledLine = Vec::new();
        line.push(span(string_of(c, 0, c.len()), st));
        assert(c@.subrange(0, c@.len() as int) =~= c@);
        assert(runs(line@) =~= seq![(ps[i as int], st)]);
        let ghost before = line_runs(lines@);
        lines.push(line);
        assert(line_runs(lines@) =~= before.push(seq![(ps[i as int], st)]));
        i = i + 1;
        assert(piece_lines(ps.subrange(lo as int, i as int), st) =~= piece_lines(ps.subrange(lo as int, i - 1), st).push(seq![(ps[i - 1], st)]));
    }
}

/// Wraps styled runs into lines of at most `max_width` characters.
pub fn wrap_spans(spans: &StyledLine, max_width: usize) -> (r: Vec<StyledLine>)
    ensures
        line_runs(r@) == wrapped(runs(spans@), max_width as int),
{
    let eff = if max_width >= 1 { max_width } else { 1 };
    if spans.len() == 0 {
        return blank_lines();
    }
    // The words of all runs, in order, with their styles.
    let mut ws: Vec<(Vec<char>, Style)> = Vec::new();
    let ghost sp = runs(spans@);
    let n = spans.len();
    let mut i: usize = 0;
    assert(sp.take(0) =~= Seq::<Run>::empty());
    while i < n
        invariant
            n == spans@.len() == sp.len(),
            sp == runs(spans@),
            i <= n,
            ws@.map_values(|x: (Vec<char>, Style)| (x.0@, x.1)) == styled_words(sp.take(i as int)),
        decreases n - i,
    {
        let st = spans[i].style;
        let cs = chars_of(spans[i].content.as_str());
        let wv = split_words(&cs);
        let m = wv.len();
        let mut k: usize = 0;
        let ghost base = ws@.map_values(|x: (Vec<char>, Style)| (x.0@, x.1));
        let ghost wsq = words(cs@);
        while k < m
            invariant
                m == wv@.len() == wsq.len(),
                wv@.map_values(|w: Vec<char>| w@) == wsq,
                k <= m,
                ws@.map_values(|x: (Vec<char>, Style)| (x.0@, x.1)) == base + wsq.take(k as int).map_values(|w: Seq<char>| (w, st)),
            decreases m - k,
        {
            let w = slice_of(&wv[k], 0, wv[k].len());
            assert(wv[k as int]@.subrange(0, wv[k as int]@.len() as int) =~= wv[k as int]@);
            assert(wv@.map_values(|w: Vec<char>| w@)[k as int] == wv@[k as int]@);
            let ghost before = ws@.map_values(|x: (Vec<char>, Style)| (x.0@, x.1));
            ws.push((w, st));
            assert(ws@.map_values(|x: (Vec<char>, Style)| (x.0@, x.1)) =~= before.push((wsq[k as int], st)));
            k = k + 1;
            assert(wsq.take(k as int).map_values(|w: Seq<char>| (w, st)) =~= wsq.take(k - 1).map_values(|w: Seq<char>| (w, st)).push((wsq[k - 1], st)));
        }
        proof {
            assert(sp.take(i + 1).drop_last() =~= sp.take(i as int));
            assert(sp.take(i + 1).last() == sp[i as int]);
            assert(sp[i as int] == (spans@[i as int].content@, st));
            assert(wsq.take(m as int) =~= wsq);
        }
        i = i + 1;
    }
    assert(sp.take(n as int) =~= sp);
    // Fill lines greedily.
    let ghost all = ws@.map_values(|x: (Vec<char>, Style)| (x.0@, x.1));
    let mut lines: Vec<StyledLine> = Vec::new();
    let mut current: StyledLine = Vec::new();
    let mut cw: usize = 0;
    let total = ws.len();
    let mut j: usize = 0;
    assert(all.skip(0) =~= all);
    assert(line_runs(lines@) =~= Seq::<Seq<Run>>::empty());
    assert(runs(current@) =~= Seq::<Run>::empty());
    while j < total
        invariant
            total == ws@.len() == all.len(),
            all == ws@.map_values(|x: (Vec<char>, Style)| (x.0@, x.1)),
            eff >= 1,
            j <= total,
            cw <= eff,
            wrap_fold(all, eff as int, seq![], seq![], 0) == wrap_fold(all.skip(j as int), eff as int, line_runs(lines@), runs(current@), cw as int),
        decreases total - j,
    {
        let ghost rest = all.skip(j as int);
        assert(rest[0] == (ws@[j as int].0@, ws@[j as int].1));
        assert(rest.drop_first() =~= all.skip(j + 1));
        let w = &ws[j].0;
        let st = ws[j].1;
        let wl = w.len();
        if current.len() == 0 {
            if wl > eff {
                let cs = chunks_of(w, eff);
                push_pieces(&mut lines, &cs, 0, cs.len(), st);
                assert(cs@.map_values(|c: Vec<char>| c@).subrange(0, cs@.len() as int) =~= chunks(w@, eff as int));
            } else {
                current.push(span(string_of(w, 0, wl), st));
                assert(w@.subrange(0, wl as int) =~= w@);
                assert(runs(current@) =~= seq![(w@, st)]);
                cw = wl;
            }
        } else if cw < eff && wl <= eff - cw - 1 {
            let ghost before = runs(current@);
            current.push(span(" ".to_owned(), st));
            current.push(span(string_of(w, 0, wl), st));
            assert(w@.subrange(0, wl as int) =~= w@);
            assert(runs(current@) =~= before + seq![(" "@, st), (w@, st)]);
            cw = cw + 1 + wl;
        } else {
            let ghost l0 = line_runs(lines@);
            let ghost c0 = runs(current@);
            let mut done: StyledLine = Vec::new();
            std::mem::swap(&mut done, &mut current);
            lines.push(done);
            assert(line_runs(lines@) =~= l0.push(c0));
            if wl > eff {
                let cs = chunks_of(w, eff);
                proof {
                    lemma_chunks(w@, eff as int);
                }
                let k = cs.len();
                push_pieces(&mut lines, &cs, 0, k - 1, st);
                assert(cs@.map_values(|c: Vec<char>| c@).subrange(0, k - 1) =~= chunks(w@, eff as int).drop_last());
                let last = &cs[k - 1];
                assert(cs@.map_values(|c: Vec<char>| c@)[k - 1] == last@);
                current.push(span(string_of(last, 0, last.len()), st));
                assert(last@.subrange(0, last@.len() as int) =~= last@);
                assert(runs(current@) =~= seq![(chunks(w@, eff as int).last(), st)]);
                cw = last.len();
            } else {
                current.push(span(string_of(w, 0, wl), st));
                assert(w@.subrange(0, wl as int) =~= w@);
                assert(runs(current@) =~= seq![(w@, st)]);
                cw = wl;
            }
        }
        j = j + 1;
    }
    assert(all.skip(total as int) =~= Seq::<Run>::empty());
    if current.len() > 0 {
        let ghost l0 = line_runs(lines@);
        let ghost c0 = runs(current@);
        lines.push(current);
        assert(line_runs(lines@) =~= l0.push(c0));
    }
    if lines.len() == 0 {
        return blank_lines();
    }
    lines
}


proof fn lemma_chunks_fit(w: Seq<char>, n: int)
    requires
        n >= 1,
    ensures
        forall|k: int| 0 <= k < chunks(w, n).len() ==> (#[trigger] chunks(w, n)[k]).len() <= n,
    decreases w.len(),
{
    if w.len() > n {
        lemma_chunks_fit(w.skip(n), n);
        let rest = chunks(w.skip(n), n);
        assert forall|k: int| 0 <= k < chunks(w, n).len() implies (#[trigger] chunks(w, n)[k]).len() <= n by {
            if k > 0 {
                assert(chunks(w, n)[k] == rest[k - 1]);
            }
        }
    }
}

proof fn lemma_single_width(c: Seq<char>, st: Style)
    ensures
        run_width(seq![(c, st)]) == c.len(),
{
    assert(seq![(c, st)].drop_last() =~= Seq::<Run>::empty());
    assert(seq![(c, st)].last() == (c, st));
    assert(run_width(Seq::<Run>::empty()) == 0);
}

/// Lines that each fit in `eff` columns.
pub open spec fn all_fit(ls: Seq<Seq<Run>>, eff: int) -> bool {
    forall|k: int| 0 <= k < ls.len() ==> run_width(#[trigger] ls[k]) <= eff
}

proof fn lemma_piece_lines_fit(lines: Seq<Seq<Run>>, pieces: Seq<Seq<char>>, st: Style, eff: int)
    requires
        all_fit(lines, eff),
        forall|k: int| 0 <= k < pieces.len() ==> (#[trigger] pieces[k]).len() <= eff,
    ensures
        all_fit(lines + piece_lines(pieces, st), eff),
{
    let all = lines + piece_lines(pieces, st);
    assert forall|k: int| 0 <= k < all.len() implies run_width(#[trigger] all[k]) <= eff by {
        if k >= lines.len() {
            let c = pieces[k - lines.len()];
            assert(all[k] == seq![(c, st)]);
            lemma_single_width(c, st);
        }
    }
}

proof fn lemma_fold_fits(ws: Seq<Run>, eff: int, lines: Seq<Seq<Run>>, cur: Seq<Run>, cw: int)
    requires
        eff >= 1,
        all_fit(lines, eff),
        run_width(cur) <= eff,
        cur.len() > 0 ==> run_width(cur) == cw,
    ensures
        all_fit(wrap_fold(ws, eff, lines, cur, cw).0, eff),
        run_width(wrap_fold(ws, eff, lines, cur, cw).1) <= eff,
    decreases ws.len(),
{
    if ws.len() > 0 {
        let (w, st) = ws[0];
        let wl = w.len() as int;
        let rest = ws.drop_first();
        lemma_chunks_fit(w, eff);
        if cur.len() == 0 {
            if wl > eff {
                lemma_piece_lines_fit(lines, chunks(w, eff), st, eff);
                lemma_fold_fits(rest, eff, lines + piece_lines(chunks(w, eff), st), cur, cw);
            } else {
                lemma_single_width(w, st);
                lemma_fold_fits(rest, eff, lines, seq![(w, st)], wl);
            }
        } else if cw + 1 + wl <= eff {
            let next = cur + seq![(" "@, st), (w, st)];
            reveal_strlit(" ");
            assert(" "@.len() == 1);
            assert(next.drop_last() =~= cur.push((" "@, st)));
            assert(cur.push((" "@, st)).drop_last() =~= cur);
            assert(run_width(cur.push((" "@, st))) == run_width(cur) + 1);
            assert(run_width(next) == run_width(cur.push((" "@, st))) + wl);
            lemma_fold_fits(rest, eff, lines, next, cw + 1 + wl);
        } else {
            let pushed = lines.push(cur);
            assert(all_fit(pushed, eff)) by {
                assert forall|k: int| 0 <= k < pushed.len() implies run_width(#[trigger] pushed[k]) <= eff by {
                    if k < lines.len() {
                        assert(pushed[k] == lines[k]);
                    }
                }
            }
            if wl > eff {
                let cs = chunks(w, eff);
                lemma_chunks(w, eff);
                assert forall|k: int| 0 <= k < cs.drop_last().len() implies (#[trigger] cs.drop_last()[k]).len() <= eff by {
                    assert(cs.drop_last()[k] == cs[k]);
                }
                lemma_piece_lines_fit(pushed, cs.drop_last(), st, eff);
                lemma_single_width(cs.last(), st);
                lemma_fold_fits(rest, eff, pushed + piece_lines(cs.drop_last(), st), seq![(cs.last(), st)], cs.last().len() as int);
            } else {
                lemma_single_width(w, st);
                lemma_fold_fits(rest, eff, pushed, seq![(w, st)], wl);
            }
        }
    }
}

/// Wrapping never makes a line wider than the width (or than one column, for a width of 0).
pub proof fn law_wrapped_lines_fit(spans: Seq<Run>, max_width: int)
    ensures
        all_fit(wrapped(spans, max_width), if max_width >= 1 { max_width } else { 1 }),
{
    let eff = if max_width >= 1 { max_width } else { 1 };
    let blank = seq![seq![(" "@, plain())]];
    reveal_strlit(" ");
    assert(" "@.len() == 1);
    lemma_single_width(" "@, plain());
    assert(blank[0] == seq![(" "@, plain())]);
    assert(all_fit(blank, eff));
    if spans.len() > 0 {
        lemma_fold_fits(styled_words(spans), eff, seq![], seq![], 0);
        let (ls, cur) = wrap_fold(styled_words(spans), eff, seq![], seq![], 0);
        if cur.len() > 0 {
            let all = ls.push(cur);
            assert forall|k: int| 0 <= k < all.len() implies run_width(#[trigger] all[k]) <= eff by {
                if k < ls.len() {
                    assert(all[k] == ls[k]);
                }
            }
        }
    }
}


/// Whether emphasis is on after the items `evs`, starting from `it`: set by the last emphasis
/// start or end among them; no other item changes it.
pub open spec fn emphasis_after(evs: Seq<MdItem>, it: bool) -> bool
    decreases evs.len(),
{
    if evs.len() == 0 {
        it
    } else {
        match evs.last() {
            MdItem::StartEmphasis => true,
            MdItem::EndEmphasis => false,
            _ => emphasis_after(evs.drop_last(), it),
        }
    }
}

/// Whether strong markup is on after the items `evs`, starting from `bo`: set by the last
/// strong start or end among them; no other item changes it.
pub open spec fn strong_after(evs: Seq<MdItem>, bo: bool) -> bool
    decreases evs.len(),
{
    if evs.len() == 0 {
        bo
    } else {
        match evs.last() {
            MdItem::StartStrong => true,
            MdItem::EndStrong => false,
            _ => strong_after(evs.drop_last(), bo),
        }
    }
}

/// The texts of the text and inline-code items, in order.
pub open spec fn item_texts(evs: Seq<MdItem>) -> Seq<Seq<char>>
    decreases evs.len(),
{
    if evs.len() == 0 {
        seq![]
    } else {
        match evs[0] {
            MdItem::Text(t) => seq![t] + item_texts(evs.drop_first()),
            MdItem::Code(t) => seq![t] + item_texts(evs.drop_first()),
            _ => item_texts(evs.drop_first()),
        }
    }
}

proof fn lemma_state_first(evs: Seq<MdItem>, bo: bool, it: bool)
    requires
        evs.len() > 0,
    ensures
        ({
            let bo1 = match evs[0] {
                MdItem::StartStrong => true,
                MdItem::EndStrong => false,
                _ => bo,
            };
            let it1 = match evs[0] {
                MdItem::StartEmphasis => true,
                MdItem::EndEmphasis => false,
                _ => it,
            };
            &&& emphasis_after(evs, it) == emphasis_after(evs.drop_first(), it1)
            &&& strong_after(evs, bo) == strong_after(evs.drop_first(), bo1)
        }),
    decreases evs.len(),
{
    if evs.len() > 1 {
        lemma_state_first(evs.drop_last(), bo, it);
        assert(evs.drop_last().drop_first() =~= evs.drop_first().drop_last());
        assert(evs.drop_last()[0] == evs[0]);
        assert(evs.drop_first().last() == evs.last());
    } else {
        assert(evs.drop_first() =~= Seq::<MdItem>::empty());
        assert(evs.drop_last() =~= Seq::<MdItem>::empty());
    }
}

/// Markup carries over from one part of a line to the next: the runs of `a + b` are those of
/// `a`, then those of `b` styled with the strong and emphasis state that `a` leaves; an end of
/// strong markup changes only the strong state, an end of emphasis only the emphasis.
pub proof fn law_markup_carries_over(a: Seq<MdItem>, b: Seq<MdItem>, bo: bool, it: bool)
    ensures
        md_runs(a + b, bo, it) == md_runs(a, bo, it) + md_runs(b, strong_after(a, bo), emphasis_after(a, it)),
    decreases a.len(),
{
    if a.len() == 0 {
        assert(a + b =~= b);
        assert(md_runs(a, bo, it) + md_runs(b, bo, it) =~= md_runs(b, bo, it));
    } else {
        assert((a + b)[0] == a[0]);
        assert((a + b).drop_first() =~= a.drop_first() + b);
        lemma_state_first(a, bo, it);
        let bo1 = match a[0] {
            MdItem::StartStrong => true,
            MdItem::EndStrong => false,
            _ => bo,
        };
        let it1 = match a[0] {
            MdItem::StartEmphasis => true,
            MdItem::EndEmphasis => false,
            _ => it,
        };
        law_markup_carries_over(a.drop_first(), b, bo1, it1);
        match a[0] {
            MdItem::Text(t) => {
                assert(seq![(t, text_style(bo, it))] + md_runs(a.drop_first(), bo, it) + md_runs(
                    b,
                    strong_after(a, bo),
                    emphasis_after(a, it),
                ) =~= seq![(t, text_style(bo, it))] + (md_runs(a.drop_first(), bo, it) + md_runs(
                    b,
                    strong_after(a, bo),
                    emphasis_after(a, it),
                )));
            },
            MdItem::Code(t) => {
                assert(seq![(t, fg(Color::Cyan))] + md_runs(a.drop_first(), bo, it) + md_runs(
                    b,
                    strong_after(a, bo),
                    emphasis_after(a, it),
                ) =~= seq![(t, fg(Color::Cyan))] + (md_runs(a.drop_first(), bo, it) + md_runs(
                    b,
                    strong_after(a, bo),
                    emphasis_after(a, it),
                )));
            },
            _ => {},
        }
    }
}

/// Text between markup is styled by the markup around it: a text item after the items `a`
/// is shown bold exactly when strong markup is on after `a`, and italic exactly when emphasis
/// is.
pub proof fn law_text_style_follows_markup(a: Seq<MdItem>, t: Seq<char>, rest: Seq<MdItem>)
    ensures
        md_runs(a + seq![MdItem::Text(t)] + rest, false, false)[md_runs(a, false, false).len() as int]
            == (t, text_style(strong_after(a, false), emphasis_after(a, false))),
{
    law_markup_carries_over(a, seq![MdItem::Text(t)] + rest, false, false);
    assert(a + seq![MdItem::Text(t)] + rest =~= a + (seq![MdItem::Text(t)] + rest));
    let r2 = md_runs(seq![MdItem::Text(t)] + rest, strong_after(a, false), emphasis_after(a, false));
    assert((seq![MdItem::Text(t)] + rest)[0] == MdItem::Text(t));
    assert((seq![MdItem::Text(t)] + rest).drop_first() =~= rest);
    assert(r2[0] == (t, text_style(strong_after(a, false), emphasis_after(a, false))));
}

/// Markup never loses or adds text: the runs' texts are the texts of the text and inline-code
/// items, in order.
pub proof fn law_runs_keep_texts(evs: Seq<MdItem>, bo: bool, it: bool)
    ensures
        md_runs(evs, bo, it).map_values(|r: (Seq<char>, Style)| r.0) == item_texts(evs),
    decreases evs.len(),
{
    if evs.len() > 0 {
        let rest = evs.drop_first();
        law_runs_keep_texts(rest, bo, it);
        law_runs_keep_texts(rest, true, it);
        law_runs_keep_texts(rest, false, it);
        law_runs_keep_texts(rest, bo, true);
        law_runs_keep_texts(rest, bo, false);
        match evs[0] {
            MdItem::Text(t) => {
                assert(md_runs(evs, bo, it).map_values(|r: (Seq<char>, Style)| r.0) =~= seq![t] + md_runs(rest, bo, it).map_values(|r: (Seq<char>, Style)| r.0));
            },
            MdItem::Code(t) => {
                assert(md_runs(evs, bo, it).map_values(|r: (Seq<char>, Style)| r.0) =~= seq![t] + md_runs(rest, bo, it).map_values(|r: (Seq<char>, Style)| r.0));
            },
            _ => {},
        }
    } else {
        assert(md_runs(evs, bo, it).map_values(|r: (Seq<char>, Style)| r.0) =~= Seq::<Seq<char>>::empty());
    }
}

} // verus!
