//! Line-based markdown heading extraction: every line that begins with
//! `#` markers yields one flat document symbol carrying its heading
//! level and trimmed title.

use vstd::prelude::*;

use crate::outline::OutlineNodeV;
use crate::outline::DocumentSymbol;
use crate::outline::SymbolKind;
use crate::outline::sym_view;
use crate::outline::sym_views;
use crate::position::Position;
use crate::position::Range;
use crate::position::find_newline;
use crate::position::find_newline_from;
use crate::position::lemma_find_newline_bounds;
use crate::wikilink::trim_range;
use crate::wikilink::trim_spec;

verus! {

/// The decimal digit character for `d` in `0 ..= 9`.
pub open spec fn digit_char(d: int) -> char {
    if d == 0 {
        '0'
    } else if d == 1 {
        '1'
    } else if d == 2 {
        '2'
    } else if d == 3 {
        '3'
    } else if d == 4 {
        '4'
    } else if d == 5 {
        '5'
    } else if d == 6 {
        '6'
    } else if d == 7 {
        '7'
    } else if d == 8 {
        '8'
    } else {
        '9'
    }
}

/// The decimal rendering of `n`, most significant digit first.
pub open spec fn dec_digits(n: int) -> Seq<char>
    decreases n,
{
    if n < 10 {
        seq![digit_char(n)]
    } else {
        dec_digits(n / 10) + seq![digit_char(n % 10)]
    }
}

/// The detail text of a heading of level `k`.
pub open spec fn heading_detail(k: int) -> Seq<char> {
    "Heading level "@ + dec_digits(k)
}

/// Appends the decimal rendering of `n` to `out`.
fn append_decimal(n: usize, out: &mut String)
    ensures
        final(out)@ == old(out)@ + dec_digits(n as int),
    decreases n,
{
    let ghost pre = out@;
    if n >= 10 {
        append_decimal(n / 10, out);
    }
    let d = n % 10;
    match d {
        0 => out.append("0"),
        1 => out.append("1"),
        2 => out.append("2"),
        3 => out.append("3"),
        4 => out.append("4"),
        5 => out.append("5"),
        6 => out.append("6"),
        7 => out.append("7"),
        8 => out.append("8"),
        _ => out.append("9"),
    }
    proof {
        reveal_strlit("0");
        reveal_strlit("1");
        reveal_strlit("2");
        reveal_strlit("3");
        reveal_strlit("4");
        reveal_strlit("5");
        reveal_strlit("6");
        reveal_strlit("7");
        reveal_strlit("8");
        reveal_strlit("9");
        if n < 10 {
            assert(out@ =~= pre + dec_digits(n as int));
        } else {
            assert(out@ =~= pre + dec_digits(n as int));
        }
    }
}

/// Number of consecutive `#` characters at the start of `[i, lend)`.
pub open spec fn count_hashes_between(t: Seq<char>, i: int, lend: int) -> int
    decreases lend - i,
{
    if i < 0 || i >= lend || lend > t.len() {
        0
    } else if t[i] == '#' {
        1 + count_hashes_between(t, i + 1, lend)
    } else {
        0
    }
}

/// End of the line starting at `start`: the next newline, with a
/// carriage return stripped when it stands immediately before that
/// newline; a line that ends the text without a newline keeps a
/// trailing carriage return.
pub open spec fn line_end(t: Seq<char>, start: int) -> int {
    let e = find_newline(t, start);
    if e < t.len() && e > start && t[e - 1] == '\r' {
        e - 1
    } else {
        e
    }
}

/// The flat symbol of the heading line `[start, lend)` of `t` at line
/// number `linenum`: its level is the count of leading `#` markers, its
/// name the trimmed rest of the line.
pub open spec fn heading_node(t: Seq<char>, start: int, lend: int, linenum: int) -> OutlineNodeV {
    let k = count_hashes_between(t, start, lend);
    OutlineNodeV {
        name: trim_spec(t.subrange(start + k, lend)),
        detail: Some(heading_detail(k)),
        kind: SymbolKind::Namespace,
        level: k,
        range: Range {
            start: Position { line: linenum as usize, character: 0 },
            end: Position { line: linenum as usize, character: (lend - start) as usize },
        },
        selection_range: Range {
            start: Position { line: linenum as usize, character: 0 },
            end: Position { line: linenum as usize, character: (lend - start) as usize },
        },
        span_start: start,
        span_end: lend,
        children: Seq::empty(),
    }
}

/// The flat heading symbols of the lines of `t` from offset `start` on,
/// the line at `start` having line number `linenum`: one symbol per line
/// that begins with a `#` marker.
pub open spec fn parse_symbols_spec(t: Seq<char>, start: int, linenum: int) -> Seq<OutlineNodeV>
    decreases t.len() - start,
    via parse_symbols_spec_decreases
{
    if start < 0 || start >= t.len() {
        Seq::empty()
    } else {
        let e = find_newline(t, start);
        let lend = line_end(t, start);
        let rest = if e < t.len() {
            parse_symbols_spec(t, e + 1, linenum + 1)
        } else {
            Seq::empty()
        };
        if lend > start && t[start] == '#' {
            seq![heading_node(t, start, lend, linenum)] + rest
        } else {
            rest
        }
    }
}

#[via_fn]
proof fn parse_symbols_spec_decreases(t: Seq<char>, start: int, linenum: int) {
    if 0 <= start < t.len() {
        lemma_find_newline_bounds(t, start);
    }
}

/// Leading-hash counts are not negative, and at most the window length.
pub proof fn lemma_count_hashes_nonneg(t: Seq<char>, i: int, lend: int)
    ensures
        0 <= count_hashes_between(t, i, lend),
        0 <= i <= lend <= t.len() ==> i + count_hashes_between(t, i, lend) <= lend,
    decreases lend - i,
{
    if !(i < 0 || i >= lend || lend > t.len()) && t[i] == '#' {
        lemma_count_hashes_nonneg(t, i + 1, lend);
    }
}

/// Number of consecutive `#` characters of `t` from `start`, within the
/// line end `lend`.
pub(crate) fn count_hashes(text: &str, start: usize, lend: usize) -> (k: usize)
    requires
        start <= lend <= text@.len(),
    ensures
        k == count_hashes_between(text@, start as int, lend as int),
        start + k <= lend,
{
    let mut i: usize = start;
    while i < lend && text.get_char(i) == '#'
        invariant
            start <= i <= lend <= text@.len(),
            count_hashes_between(text@, start as int, lend as int) == i - start
                + count_hashes_between(text@, i as int, lend as int),
        decreases lend - i,
    {
        i = i + 1;
    }
    i - start
}

/// Parses markdown text line by line and extracts each heading line
/// (leading `#` markers) as a flat document symbol: the level is the
/// marker count, the name the trimmed rest of the line, the detail
/// names the level, and the span covers the line.
pub fn parse_markdown_symbols(text: &str) -> (r: Vec<DocumentSymbol>)
    ensures
        sym_views(r@) == parse_symbols_spec(text@, 0, 0),
{
    let n = text.unicode_len();
    let mut out: Vec<DocumentSymbol> = Vec::new();
    let mut start: usize = 0;
    let mut linenum: usize = 0;
    proof {
        assert(sym_views(out@) =~= Seq::<OutlineNodeV>::empty());
        assert(sym_views(out@) + parse_symbols_spec(text@, 0, 0) =~= parse_symbols_spec(
            text@,
            0,
            0,
        ));
    }
    while start < n
        invariant
            start <= n,
            linenum <= start,
            n == text@.len(),
            parse_symbols_spec(text@, 0, 0) == sym_views(out@) + parse_symbols_spec(
                text@,
                start as int,
                linenum as int,
            ),
        decreases n - start,
    {
        let e = find_newline_from(text, start);
        let lend = if e < n && e > start && text.get_char(e - 1) == '\r' {
            e - 1
        } else {
            e
        };
        assert(lend == line_end(text@, start as int));
        if lend > start && text.get_char(start) == '#' {
            let k = count_hashes(text, start, lend);
            let (a, b) = trim_range(text, start + k, lend);
            let mut detail = String::from_str("Heading level ");
            append_decimal(k, &mut detail);
            let node = DocumentSymbol {
                name: text.substring_char(a, b).to_owned(),
                detail: Some(detail),
                kind: SymbolKind::Namespace,
                level: k,
                range: Range {
                    start: Position { line: linenum, character: 0 },
                    end: Position { line: linenum, character: lend - start },
                },
                selection_range: Range {
                    start: Position { line: linenum, character: 0 },
                    end: Position { line: linenum, character: lend - start },
                },
                span_start: start,
                span_end: lend,
                children: Vec::new(),
            };
            let ghost prev = out@;
            proof {
                assert(sym_view(node).children =~= Seq::<OutlineNodeV>::empty());
                assert(sym_view(node) == heading_node(
                    text@,
                    start as int,
                    lend as int,
                    linenum as int,
                ));
            }
            out.push(node);
            proof {
                assert(sym_views(out@) =~= sym_views(prev) + seq![sym_view(node)]);
            }
        }
        if e < n {
            start = e + 1;
        } else {
            start = n;
        }
        linenum = linenum + 1;
    }
    proof {
        assert(parse_symbols_spec(text@, start as int, linenum as int) =~= Seq::<
            OutlineNodeV,
        >::empty());
        assert(sym_views(out@) + Seq::<OutlineNodeV>::empty() =~= sym_views(out@));
    }
    out
}

} // verus!
