//! Locating and decomposing `[[target|alias]]` wiki-links around a cursor
//! offset, and finding the replacement span for link completion.

use vstd::prelude::*;

use crate::is_wspace;
use crate::position::clamped;

verus! {

/// A parsed wiki-link occurrence: the trimmed target path, the trimmed
/// alias if a `|` separator was present, and the offsets of the raw
/// `[[...]]` span, delimiters included.
pub struct WikiLink {
    pub target: String,
    pub alias: Option<String>,
    pub start: usize,
    pub end: usize,
}

/// Largest `i` with `i + 2 <= o` such that `t[i..i+2]` is `[[`.
pub open spec fn last_open_before(t: Seq<char>, o: int) -> Option<int>
    decreases o,
{
    if o < 2 || o > t.len() {
        None
    } else if t[o - 2] == '[' && t[o - 1] == '[' {
        Some(o - 2)
    } else {
        last_open_before(t, o - 1)
    }
}

/// Smallest `j >= o` such that `t[j..j+2]` is `]]`.
pub open spec fn first_close_at(t: Seq<char>, o: int) -> Option<int>
    decreases t.len() - o,
{
    if o < 0 || o + 2 > t.len() {
        None
    } else if t[o] == ']' && t[o + 1] == ']' {
        Some(o)
    } else {
        first_close_at(t, o + 1)
    }
}

/// Smallest index in `[from, to)` holding character `c`.
pub open spec fn find_char(t: Seq<char>, c: char, from: int, to: int) -> Option<int>
    decreases to - from,
{
    if from < 0 || from >= to || to > t.len() {
        None
    } else if t[from] == c {
        Some(from)
    } else {
        find_char(t, c, from + 1, to)
    }
}

/// `s` without its leading white space.
pub open spec fn trim_start_spec(s: Seq<char>) -> Seq<char>
    decreases s.len(),
{
    if s.len() > 0 && is_wspace(s[0]) {
        trim_start_spec(s.drop_first())
    } else {
        s
    }
}

/// `s` without its trailing white space.
pub open spec fn trim_end_spec(s: Seq<char>) -> Seq<char>
    decreases s.len(),
{
    if s.len() > 0 && is_wspace(s.last()) {
        trim_end_spec(s.drop_last())
    } else {
        s
    }
}

/// `s` without leading and trailing white space.
pub open spec fn trim_spec(s: Seq<char>) -> Seq<char> {
    trim_end_spec(trim_start_spec(s))
}

/// The span `(body start, body end)` of the wiki-link around offset `o`:
/// the text strictly between the nearest `[[` before `o` and the nearest
/// `]]` at or after `o`, if both exist.
pub open spec fn link_body(t: Seq<char>, o: int) -> Option<(int, int)> {
    match last_open_before(t, o) {
        Some(i) => match first_close_at(t, o) {
            Some(j) => Some(((i + 2) as int, j)),
            None => None,
        },
        None => None,
    }
}

/// The target of a link body: the trimmed body up to the first `|`
/// separator, itself trimmed again.
pub open spec fn target_of_body(body: Seq<char>) -> Seq<char> {
    let tb = trim_spec(body);
    match find_char(tb, '|', 0, tb.len() as int) {
        Some(p) => trim_spec(tb.subrange(0, p)),
        None => tb,
    }
}

/// The alias of a link body: the trimmed text after the first `|`
/// separator of the trimmed body, if one is present.
pub open spec fn alias_of_body(body: Seq<char>) -> Option<Seq<char>> {
    let tb = trim_spec(body);
    match find_char(tb, '|', 0, tb.len() as int) {
        Some(p) => Some(trim_spec(tb.subrange(p + 1, tb.len() as int))),
        None => None,
    }
}

fn last_open_before_exec(text: &str, o: usize) -> (r: Option<usize>)
    requires
        o <= text@.len(),
    ensures
        match r {
            Some(i) => last_open_before(text@, o as int) == Some(i as int),
            None => last_open_before(text@, o as int) is None,
        },
{
    let mut k: usize = o;
    loop
        invariant
            k <= o <= text@.len(),
            last_open_before(text@, o as int) == last_open_before(text@, k as int),
        decreases k,
    {
        if k < 2 {
            return None;
        }
        if text.get_char(k - 2) == '[' && text.get_char(k - 1) == '[' {
            return Some(k - 2);
        }
        k = k - 1;
    }
}

fn first_close_at_exec(text: &str, o: usize) -> (r: Option<usize>)
    requires
        o <= text@.len(),
    ensures
        match r {
            Some(j) => first_close_at(text@, o as int) == Some(j as int),
            None => first_close_at(text@, o as int) is None,
        },
{
    let n = text.unicode_len();
    let mut k: usize = o;
    loop
        invariant
            o <= k <= n,
            n == text@.len(),
            first_close_at(text@, o as int) == first_close_at(text@, k as int),
        decreases n - k,
    {
        if n < 2 || k > n - 2 {
            return None;
        }
        if text.get_char(k) == ']' && text.get_char(k + 1) == ']' {
            return Some(k);
        }
        k = k + 1;
    }
}

fn find_char_exec(text: &str, c: char, from: usize, to: usize) -> (r: Option<usize>)
    requires
        from <= text@.len(),
        to <= text@.len(),
    ensures
        match r {
            Some(p) => find_char(text@, c, from as int, to as int) == Some(p as int),
            None => find_char(text@, c, from as int, to as int) is None,
        },
{
    let mut k: usize = from;
    loop
        invariant
            from <= k <= text@.len(),
            to <= text@.len(),
            find_char(text@, c, from as int, to as int) == find_char(
                text@,
                c,
                k as int,
                to as int,
            ),
        decreases text@.len() - k,
    {
        if k >= to {
            return None;
        }
        if text.get_char(k) == c {
            return Some(k);
        }
        k = k + 1;
    }
}

proof fn lemma_trim_start_step(s: Seq<char>, lo: int, hi: int)
    requires
        0 <= lo < hi <= s.len(),
        is_wspace(s[lo]),
    ensures
        trim_start_spec(s.subrange(lo, hi)) == trim_start_spec(s.subrange(lo + 1, hi)),
{
    assert(s.subrange(lo, hi).drop_first() =~= s.subrange(lo + 1, hi));
}

proof fn lemma_trim_end_step(s: Seq<char>, lo: int, hi: int)
    requires
        0 <= lo < hi <= s.len(),
        is_wspace(s[hi - 1]),
    ensures
        trim_end_spec(s.subrange(lo, hi)) == trim_end_spec(s.subrange(lo, hi - 1)),
{
    assert(s.subrange(lo, hi).drop_last() =~= s.subrange(lo, hi - 1));
}

/// Narrows `[lo, hi)` to the bounds of `trim_spec` of that range.
pub(crate) fn trim_range(text: &str, lo: usize, hi: usize) -> (r: (usize, usize))
    requires
        lo <= hi <= text@.len(),
    ensures
        lo <= r.0 <= r.1 <= hi,
        text@.subrange(r.0 as int, r.1 as int) == trim_spec(text@.subrange(lo as int, hi as int)),
{
    let mut a: usize = lo;
    while a < hi && is_whitespace_exec(text, a)
        invariant
            lo <= a <= hi <= text@.len(),
            trim_start_spec(text@.subrange(lo as int, hi as int)) == trim_start_spec(
                text@.subrange(a as int, hi as int),
            ),
        decreases hi - a,
    {
        proof {
            lemma_trim_start_step(text@, a as int, hi as int);
        }
        a = a + 1;
    }
    assert(trim_start_spec(text@.subrange(a as int, hi as int)) == text@.subrange(
        a as int,
        hi as int,
    ));
    let mut b: usize = hi;
    while b > a && is_whitespace_exec(text, b - 1)
        invariant
            lo <= a <= b <= hi <= text@.len(),
            trim_start_spec(text@.subrange(lo as int, hi as int)) == text@.subrange(
                a as int,
                hi as int,
            ),
            trim_end_spec(text@.subrange(a as int, hi as int)) == trim_end_spec(
                text@.subrange(a as int, b as int),
            ),
        decreases b,
    {
        proof {
            lemma_trim_end_step(text@, a as int, b as int);
        }
        b = b - 1;
    }
    assert(trim_end_spec(text@.subrange(a as int, b as int)) == text@.subrange(
        a as int,
        b as int,
    ));
    (a, b)
}

fn is_whitespace_exec(text: &str, i: usize) -> (r: bool)
    requires
        i < text@.len(),
    ensures
        r == is_wspace(text@[i as int]),
{
    crate::is_whitespace_char(text.get_char(i))
}

/// Extracts the target (virtual path) of the wiki-link around character
/// offset `offset`: the text between the nearest `[[` before the offset
/// and the nearest `]]` at or after it, trimmed, and cut at the first `|`
/// separator. Returns `None`, never a partial result, when either
/// delimiter is missing or when the target trims to nothing. An offset
/// past the end of the text is clamped.
pub fn extract_wikilink_at_offset(content: &str, offset: usize) -> (r: Option<String>)
    ensures
        ({
            let o = clamped(content@, offset as int);
            match link_body(content@, o) {
                Some(be) => {
                    let target = target_of_body(content@.subrange(be.0, be.1));
                    if target.len() == 0 {
                        r is None
                    } else {
                        r is Some && r->0@ == target
                    }
                },
                None => r is None,
            }
        }),
{
    let n = content.unicode_len();
    let o = if offset <= n {
        offset
    } else {
        n
    };
    let start = match last_open_before_exec(content, o) {
        Some(i) => i,
        None => {
            return None;
        },
    };
    let close = match first_close_at_exec(content, o) {
        Some(j) => j,
        None => {
            return None;
        },
    };
    proof {
        lemma_last_open_bounds(content@, o as int);
        lemma_first_close_bounds(content@, o as int);
    }
    let body_lo = start + 2;
    let body_hi = close;
    let (tlo, thi) = trim_range(content, body_lo, body_hi);
    let ghost tb = trim_spec(content@.subrange(body_lo as int, body_hi as int));
    let pipe = find_char_exec(content, '|', tlo, thi);
    match pipe {
        Some(p) => {
            proof {
                lemma_find_char_bounds(content@, '|', tlo as int, thi as int);
                lemma_find_char_in_subrange(content@, '|', tlo as int, thi as int);
            }
            let (alo, ahi) = trim_range(content, tlo, p);
            proof {
                assert(content@.subrange(tlo as int, p as int) =~= tb.subrange(
                    0,
                    p - tlo,
                ));
            }
            if alo == ahi {
                return None;
            }
            Some(content.substring_char(alo, ahi).to_owned())
        },
        None => {
            proof {
                lemma_find_char_in_subrange(content@, '|', tlo as int, thi as int);
            }
            if tlo == thi {
                return None;
            }
            Some(content.substring_char(tlo, thi).to_owned())
        },
    }
}

/// Whether an auto-paired `]]` stands immediately at offset `c`.
pub open spec fn auto_paired_close(t: Seq<char>, c: int) -> bool {
    0 <= c && c + 2 <= t.len() && t[c] == ']' && t[c + 1] == ']'
}

/// Locates and decomposes the wiki-link around character offset `offset`:
/// the span between the nearest `[[` before the offset and the nearest
/// `]]` at or after it. Returns the trimmed target, the trimmed alias if
/// a `|` separator is present, and the offsets of the raw span including
/// both delimiters. A missing delimiter or an empty target yields `None`,
/// never a partially filled link.
pub fn wikilink_at_offset(content: &str, offset: usize) -> (r: Option<WikiLink>)
    ensures
        ({
            let o = clamped(content@, offset as int);
            match link_body(content@, o) {
                Some(be) => {
                    let body = content@.subrange(be.0, be.1);
                    if target_of_body(body).len() == 0 {
                        r is None
                    } else {
                        &&& r is Some
                        &&& r->0.target@ == target_of_body(body)
                        &&& match alias_of_body(body) {
                            Some(a) => r->0.alias is Some && r->0.alias->0@ == a,
                            None => r->0.alias is None,
                        }
                        &&& r->0.start == be.0 - 2
                        &&& r->0.end == be.1 + 2
                    }
                },
                None => r is None,
            }
        }),
{
    let n = content.unicode_len();
    let o = if offset <= n {
        offset
    } else {
        n
    };
    let start = match last_open_before_exec(content, o) {
        Some(i) => i,
        None => {
            return None;
        },
    };
    let close = match first_close_at_exec(content, o) {
        Some(j) => j,
        None => {
            return None;
        },
    };
    proof {
        lemma_last_open_bounds(content@, o as int);
        lemma_first_close_bounds(content@, o as int);
    }
    let body_lo = start + 2;
    let body_hi = close;
    let (tlo, thi) = trim_range(content, body_lo, body_hi);
    let ghost body = content@.subrange(body_lo as int, body_hi as int);
    let pipe = find_char_exec(content, '|', tlo, thi);
    proof {
        lemma_find_char_bounds(content@, '|', tlo as int, thi as int);
        lemma_find_char_in_subrange(content@, '|', tlo as int, thi as int);
    }
    match pipe {
        Some(p) => {
            let (alo, ahi) = trim_range(content, tlo, p);
            proof {
                assert(content@.subrange(tlo as int, p as int) =~= trim_spec(body).subrange(
                    0,
                    p - tlo,
                ));
            }
            if alo == ahi {
                return None;
            }
            let (blo, bhi) = trim_range(content, p + 1, thi);
            proof {
                assert(content@.subrange(p + 1, thi as int) =~= trim_spec(body).subrange(
                    p + 1 - tlo,
                    thi - tlo,
                ));
            }
            let target = content.substring_char(alo, ahi).to_owned();
            let alias = content.substring_char(blo, bhi).to_owned();
            Some(WikiLink { target, alias: Some(alias), start, end: close + 2 })
        },
        None => {
            if tlo == thi {
                return None;
            }
            let target = content.substring_char(tlo, thi).to_owned();
            Some(WikiLink { target, alias: None, start, end: close + 2 })
        },
    }
}

/// Finds the replacement span for link completion at `cursor`: from the
/// nearest `[[` before the cursor up to the cursor itself, extended over
/// an auto-paired `]]` standing immediately after the cursor. Returns
/// `None` when no `[[` precedes the cursor. A cursor past the end of the
/// text is clamped.
pub fn completion_trigger_span(line: &str, cursor: usize) -> (r: Option<(usize, usize)>)
    ensures
        ({
            let c = clamped(line@, cursor as int);
            match last_open_before(line@, c) {
                Some(i) => {
                    &&& r is Some
                    &&& (r->0).0 == i
                    &&& (r->0).1 == if auto_paired_close(line@, c) {
                        c + 2
                    } else {
                        c
                    }
                },
                None => r is None,
            }
        }),
{
    let n = line.unicode_len();
    let c = if cursor <= n {
        cursor
    } else {
        n
    };
    let start = match last_open_before_exec(line, c) {
        Some(i) => i,
        None => {
            return None;
        },
    };
    let end = if n >= 2 && c <= n - 2 && line.get_char(c) == ']' && line.get_char(c + 1) == ']' {
        c + 2
    } else {
        c
    };
    Some((start, end))
}

proof fn lemma_last_open_skip_down(t: Seq<char>, i: int, o: int)
    requires
        0 <= i,
        i + 2 <= o <= t.len(),
        t[i] == '[' && t[i + 1] == '[',
        forall|k: int| i + 1 <= k && k + 2 <= o ==> !((#[trigger] t[k]) == '[' && t[k + 1] == '['),
    ensures
        last_open_before(t, o) == Some(i),
    decreases o,
{
    if o == i + 2 {
    } else {
        assert(!(t[o - 2] == '[' && t[o - 1] == '['));
        lemma_last_open_skip_down(t, i, o - 1);
    }
}

proof fn lemma_first_close_skip_up(t: Seq<char>, j: int, o: int)
    requires
        0 <= o <= j,
        j + 2 <= t.len(),
        t[j] == ']' && t[j + 1] == ']',
        forall|k: int| o <= k < j ==> !((#[trigger] t[k]) == ']' && t[k + 1] == ']'),
    ensures
        first_close_at(t, o) == Some(j),
    decreases j - o,
{
    if o < j {
        assert(!(t[o] == ']' && t[o + 1] == ']'));
        lemma_first_close_skip_up(t, j, o + 1);
    }
}

/// Cursor stability law: with a `[[` at `i`, a `]]` at `j`, no further
/// `[[` opening between them up to the cursor and no `]]` closing
/// before it, every cursor offset within the brackets resolves to the
/// same link body — the span strictly between the two delimiters — and
/// so to the same target and alias.
pub proof fn lemma_link_body_stable(t: Seq<char>, i: int, j: int, o: int)
    requires
        0 <= i,
        i + 2 <= o <= j,
        j + 2 <= t.len(),
        t[i] == '[' && t[i + 1] == '[',
        t[j] == ']' && t[j + 1] == ']',
        forall|k: int| i + 1 <= k && k + 2 <= o ==> !((#[trigger] t[k]) == '[' && t[k + 1] == '['),
        forall|k: int| o <= k < j ==> !((#[trigger] t[k]) == ']' && t[k + 1] == ']'),
    ensures
        link_body(t, o) == Some(((i + 2) as int, j)),
{
    lemma_last_open_skip_down(t, i, o);
    lemma_first_close_skip_up(t, j, o);
}

proof fn lemma_find_char_bounds(t: Seq<char>, c: char, from: int, to: int)
    ensures
        match find_char(t, c, from, to) {
            Some(p) => from <= p < to && to <= t.len() && t[p] == c,
            None => true,
        },
    decreases to - from,
{
    if 0 <= from < to <= t.len() && t[from] != c {
        lemma_find_char_bounds(t, c, from + 1, to);
    }
}

proof fn lemma_last_open_bounds(t: Seq<char>, o: int)
    ensures
        match last_open_before(t, o) {
            Some(i) => 0 <= i && i + 2 <= o && i + 2 <= t.len(),
            None => true,
        },
    decreases o,
{
    if 2 <= o <= t.len() && !(t[o - 2] == '[' && t[o - 1] == '[') {
        lemma_last_open_bounds(t, o - 1);
    }
}

proof fn lemma_first_close_bounds(t: Seq<char>, o: int)
    ensures
        match first_close_at(t, o) {
            Some(j) => o <= j && j + 2 <= t.len() && 0 <= j,
            None => true,
        },
    decreases t.len() - o,
{
    if 0 <= o && o + 2 <= t.len() && !(t[o] == ']' && t[o + 1] == ']') {
        lemma_first_close_bounds(t, o + 1);
    }
}

/// Searching a subrange of `t` for `c` finds the same positions as
/// searching the extracted subrange from its start.
proof fn lemma_find_char_in_subrange(t: Seq<char>, c: char, lo: int, hi: int)
    requires
        0 <= lo <= hi <= t.len(),
    ensures
        ({
            let sub = t.subrange(lo, hi);
            match find_char(t, c, lo, hi) {
                Some(p) => find_char(sub, c, 0, sub.len() as int) == Some(p - lo),
                None => find_char(sub, c, 0, sub.len() as int) is None,
            }
        }),
    decreases hi - lo,
{
    let sub = t.subrange(lo, hi);
    if lo < hi {
        if t[lo] == c {
        } else {
            lemma_find_char_in_subrange(t, c, lo + 1, hi);
            let sub2 = t.subrange(lo + 1, hi);
            lemma_find_char_shift(sub, c, 1, sub.len() as int);
            assert(sub.subrange(1, sub.len() as int) =~= sub2);
        }
    }
}

/// Searching `[from, to)` of `s` equals searching the same window of the
/// sequence shifted to start at `from`, with positions shifted back.
proof fn lemma_find_char_shift(s: Seq<char>, c: char, from: int, to: int)
    requires
        0 < from <= to <= s.len(),
    ensures
        ({
            let sub = s.subrange(from, to);
            match find_char(s, c, from, to) {
                Some(p) => find_char(sub, c, 0, sub.len() as int) == Some(p - from),
                None => find_char(sub, c, 0, sub.len() as int) is None,
            }
        }),
    decreases to - from,
{
    let sub = s.subrange(from, to);
    if from < to {
        if s[from] == c {
        } else {
            if from + 1 == to {
                assert(find_char(s, c, from + 1, to) is None);
                assert(find_char(sub, c, 1, sub.len() as int) is None);
            } else {
                lemma_find_char_shift(s, c, from + 1, to);
                let sub2 = s.subrange(from + 1, to);
                lemma_find_char_shift(sub, c, 1, sub.len() as int);
                assert(sub.subrange(1, sub.len() as int) =~= sub2);
            }
        }
    }
}

} // verus!
