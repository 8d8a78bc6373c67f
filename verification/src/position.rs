//! Translation between (line, column) coordinates and absolute character
//! offsets within a document's text.
//!
//! Lines are delimited by `'\n'`. A column beyond the end of its line is
//! clamped to the line's length; a line beyond the document's last line
//! yields the offset of the end of the text.

use vstd::prelude::*;

verus! {

/// A (line, column) coordinate within a document, both counted from zero.
#[derive(Clone, Copy, PartialEq, Eq, Structural, Debug)]
pub struct Position {
    pub line: usize,
    pub character: usize,
}

/// A half-open span of a document given by its start and end coordinates.
#[derive(Clone, Copy, PartialEq, Eq, Structural, Debug)]
pub struct Range {
    pub start: Position,
    pub end: Position,
}

/// Number of `'\n'` characters strictly before offset `o`: the line that
/// offset `o` lies on.
pub open spec fn line_of(t: Seq<char>, o: int) -> int
    decreases o,
{
    if o <= 0 {
        0
    } else {
        line_of(t, o - 1) + if t[o - 1] == '\n' {
            1int
        } else {
            0int
        }
    }
}

/// Offset of the first character of the line that offset `o` lies on.
pub open spec fn line_start(t: Seq<char>, o: int) -> int
    decreases o,
{
    if o <= 0 {
        0
    } else if t[o - 1] == '\n' {
        o
    } else {
        line_start(t, o - 1)
    }
}

/// Column of offset `o`: its distance from the start of its line.
pub open spec fn col_of(t: Seq<char>, o: int) -> int {
    o - line_start(t, o)
}

/// Offset of the first `'\n'` at or after `from`, or the text length if
/// there is none.
pub open spec fn find_newline(t: Seq<char>, from: int) -> int
    decreases t.len() - from,
{
    if from < 0 || from >= t.len() {
        t.len() as int
    } else if t[from] == '\n' {
        from
    } else {
        find_newline(t, from + 1)
    }
}

/// Offset at which line `l` starts; the end of the text if the document
/// has fewer lines.
pub open spec fn line_start_idx(t: Seq<char>, l: int) -> int
    decreases l,
{
    if l <= 0 {
        0
    } else {
        let nl = find_newline(t, line_start_idx(t, l - 1));
        if nl < t.len() {
            nl + 1
        } else {
            t.len() as int
        }
    }
}

/// Length of line `l`, not counting its terminating newline.
pub open spec fn line_len_at(t: Seq<char>, l: int) -> int {
    find_newline(t, line_start_idx(t, l)) - line_start_idx(t, l)
}

/// The offset denoted by coordinate (`line`, `col`): the start of `line`
/// plus `col`, with `col` clamped to the line's length.
pub open spec fn offset_of(t: Seq<char>, line: int, col: int) -> int {
    line_start_idx(t, line) + if col <= line_len_at(t, line) {
        col
    } else {
        line_len_at(t, line)
    }
}

pub proof fn lemma_find_newline_bounds(t: Seq<char>, from: int)
    requires
        0 <= from <= t.len(),
    ensures
        from <= find_newline(t, from) <= t.len(),
        forall|j: int| from <= j < find_newline(t, from) ==> t[j] != '\n',
        find_newline(t, from) < t.len() ==> t[find_newline(t, from)] == '\n',
    decreases t.len() - from,
{
    if from < t.len() && t[from] != '\n' {
        lemma_find_newline_bounds(t, from + 1);
    }
}

proof fn lemma_find_newline_skip(t: Seq<char>, from: int, i: int)
    requires
        0 <= from <= i <= t.len(),
        forall|j: int| from <= j < i ==> t[j] != '\n',
    ensures
        find_newline(t, from) == find_newline(t, i),
    decreases i - from,
{
    if from < i {
        lemma_find_newline_skip(t, from + 1, i);
    }
}

pub proof fn lemma_line_of_nonneg(t: Seq<char>, o: int)
    ensures
        0 <= line_of(t, o) <= if o >= 0 {
            o
        } else {
            0
        },
    decreases o,
{
    if o > 0 {
        lemma_line_of_nonneg(t, o - 1);
    }
}

proof fn lemma_line_start_bounds(t: Seq<char>, o: int)
    requires
        0 <= o,
    ensures
        0 <= line_start(t, o) <= o,
        forall|j: int| line_start(t, o) <= j < o ==> t[j] != '\n',
    decreases o,
{
    if o > 0 {
        lemma_line_start_bounds(t, o - 1);
    }
}

pub proof fn lemma_line_start_idx_bounds(t: Seq<char>, l: int)
    requires
        0 <= l,
    ensures
        0 <= line_start_idx(t, l) <= t.len(),
    decreases l,
{
    if l > 0 {
        lemma_line_start_idx_bounds(t, l - 1);
        lemma_find_newline_bounds(t, line_start_idx(t, l - 1));
    }
}

/// The start of the line containing `o`, computed through the line number,
/// is the actual start of that line.
proof fn lemma_line_start_idx_of_line(t: Seq<char>, o: int)
    requires
        0 <= o <= t.len(),
    ensures
        line_start_idx(t, line_of(t, o)) == line_start(t, o),
    decreases o,
{
    if o == 0 {
    } else if t[o - 1] == '\n' {
        lemma_line_start_idx_of_line(t, o - 1);
        lemma_line_of_nonneg(t, o - 1);
        lemma_line_start_bounds(t, o - 1);
        lemma_find_newline_skip(t, line_start(t, o - 1), o - 1);
        assert(find_newline(t, o - 1) == o - 1);
        assert(line_of(t, o) == line_of(t, o - 1) + 1);
    } else {
        lemma_line_start_idx_of_line(t, o - 1);
        assert(line_of(t, o) == line_of(t, o - 1));
        assert(line_start(t, o) == line_start(t, o - 1));
    }
}

/// Round trip: translating offset `o` to a (line, column) coordinate and
/// back yields `o`, for every offset within the text.
pub proof fn lemma_position_offset_round_trip(t: Seq<char>, o: int)
    requires
        0 <= o <= t.len(),
    ensures
        offset_of(t, line_of(t, o), col_of(t, o)) == o,
{
    lemma_line_start_idx_of_line(t, o);
    lemma_line_start_bounds(t, o);
    lemma_find_newline_skip(t, line_start(t, o), o);
    lemma_find_newline_bounds(t, o);
}

/// First `'\n'` at or after `from`, or the text length if there is none.
pub(crate) fn find_newline_from(text: &str, from: usize) -> (r: usize)
    requires
        from <= text@.len(),
    ensures
        r == find_newline(text@, from as int),
        from <= r <= text@.len(),
{
    let n = text.unicode_len();
    let mut i: usize = from;
    loop
        invariant
            from <= i <= n,
            n == text@.len(),
            forall|j: int| from <= j < i ==> text@[j] != '\n',
        decreases n - i,
    {
        if i >= n {
            proof {
                lemma_find_newline_skip(text@, from as int, i as int);
            }
            return i;
        }
        if text.get_char(i) == '\n' {
            proof {
                lemma_find_newline_skip(text@, from as int, i as int);
            }
            return i;
        }
        i = i + 1;
    }
}

/// Converts a (line, column) coordinate into a character offset. The
/// column is clamped to its line's length, and a line beyond the last
/// line of the document yields the offset of the end of the text.
pub fn position_to_offset(text: &str, line: usize, character: usize) -> (o: usize)
    ensures
        o == offset_of(text@, line as int, character as int),
        o <= text@.len(),
{
    let n = text.unicode_len();
    let mut start: usize = 0;
    let mut l: usize = 0;
    while l < line
        invariant
            l <= line,
            n == text@.len(),
            start == line_start_idx(text@, l as int),
            start <= n,
        decreases line - l,
    {
        let nl = find_newline_from(text, start);
        if nl < n {
            start = nl + 1;
        } else {
            start = n;
        }
        l = l + 1;
    }
    let nl = find_newline_from(text, start);
    let linelen = nl - start;
    if character <= linelen {
        start + character
    } else {
        start + linelen
    }
}

/// Converts a character offset into a (line, column) coordinate. An
/// offset past the end of the text is clamped to the end of the text.
pub fn offset_to_position(text: &str, offset: usize) -> (p: Position)
    ensures
        p == position_of(text@, offset as int),
        p.line == line_of(text@, clamped(text@, offset as int)),
        p.character == col_of(text@, clamped(text@, offset as int)),
{
    let n = text.unicode_len();
    let o = if offset <= n {
        offset
    } else {
        n
    };
    let mut line: usize = 0;
    let mut start: usize = 0;
    let mut i: usize = 0;
    while i < o
        invariant
            i <= o <= n,
            n == text@.len(),
            line == line_of(text@, i as int),
            start == line_start(text@, i as int),
            start <= i,
            line <= i,
        decreases o - i,
    {
        if text.get_char(i) == '\n' {
            line = line + 1;
            start = i + 1;
        }
        i = i + 1;
    }
    proof {
        lemma_line_of_nonneg(text@, o as int);
        lemma_line_start_bounds(text@, o as int);
    }
    Position { line, character: o - start }
}

/// An offset clamped to the length of the text.
pub open spec fn clamped(t: Seq<char>, o: int) -> int {
    if o <= t.len() {
        o
    } else {
        t.len() as int
    }
}

/// The (line, column) coordinate of character offset `o`, clamped to the
/// end of the text.
pub open spec fn position_of(t: Seq<char>, o: int) -> Position {
    Position {
        line: line_of(t, clamped(t, o)) as usize,
        character: col_of(t, clamped(t, o)) as usize,
    }
}

/// The coordinate span of the offset range `[start, end]`.
pub open spec fn range_of(t: Seq<char>, start: int, end: int) -> Range {
    Range { start: position_of(t, start), end: position_of(t, end) }
}

/// Coordinate order: an earlier line, or the same line and a column at
/// or before.
pub open spec fn pos_le(p: Position, q: Position) -> bool {
    p.line < q.line || (p.line == q.line && p.character <= q.character)
}

/// The offset-to-coordinate translation is monotone: an offset at or
/// before another translates to a coordinate at or before the other's.
pub proof fn lemma_position_of_monotone(t: Seq<char>, a: int, b: int)
    requires
        0 <= a <= b <= t.len(),
        t.len() <= usize::MAX,
    ensures
        pos_le(position_of(t, a), position_of(t, b)),
    decreases b - a,
{
    lemma_line_of_nonneg(t, a);
    lemma_line_of_nonneg(t, b);
    lemma_line_start_bounds(t, a);
    lemma_line_start_bounds(t, b);
    if a < b {
        lemma_position_of_monotone(t, a, b - 1);
        lemma_line_of_nonneg(t, b - 1);
        lemma_line_start_bounds(t, b - 1);
        if t[b - 1] == '\n' {
            assert(line_of(t, b) == line_of(t, b - 1) + 1);
        } else {
            assert(line_of(t, b) == line_of(t, b - 1));
            assert(line_start(t, b) == line_start(t, b - 1));
        }
    }
}

/// An ordered span translates to an ordered coordinate range.
pub proof fn lemma_range_of_ordered(t: Seq<char>, a: int, b: int)
    requires
        0 <= a <= b <= t.len(),
        t.len() <= usize::MAX,
    ensures
        pos_le(range_of(t, a, b).start, range_of(t, a, b).end),
{
    lemma_position_of_monotone(t, a, b);
}

} // verus!
