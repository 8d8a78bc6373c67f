//! Markdown formatting: heading markers get exactly one following
//! space, a blank line follows each heading, surrounding white space is
//! trimmed, runs of blank lines collapse to one, and the output ends
//! with a newline.

use vstd::prelude::*;

use crate::is_wspace;
use crate::is_whitespace_char;
use crate::parser::count_hashes_between;
use crate::parser::line_end;
use crate::position::find_newline;
use crate::position::find_newline_from;
use crate::position::lemma_find_newline_bounds;

verus! {

/// `k` repetitions of the `#` marker.
pub open spec fn hashes(k: int) -> Seq<char>
    decreases k,
{
    if k <= 0 {
        Seq::empty()
    } else {
        hashes(k - 1) + seq!['#']
    }
}

/// The end of `[start, e)` of `t` with trailing white space removed.
pub open spec fn trim_end_idx(t: Seq<char>, start: int, e: int) -> int
    decreases e,
{
    if e > start && 0 <= e - 1 < t.len() && is_wspace(t[e - 1]) {
        trim_end_idx(t, start, e - 1)
    } else {
        e
    }
}

/// The start of `[b, e)` of `t` with leading white space removed.
pub open spec fn trim_start_idx(t: Seq<char>, b: int, e: int) -> int
    decreases e - b,
{
    if 0 <= b < e && b < t.len() && is_wspace(t[b]) {
        trim_start_idx(t, b + 1, e)
    } else {
        b
    }
}

/// The formatted form of the line `[start, lend)` of `t`: a heading
/// line (leading `#` markers) becomes the markers, exactly one space,
/// and the trimmed heading text; any other line is trimmed of leading
/// and trailing white space.
pub open spec fn format_line_at(t: Seq<char>, start: int, lend: int) -> Seq<char> {
    let te = trim_end_idx(t, start, lend);
    if te > start && t[start] == '#' {
        let k = count_hashes_between(t, start, te);
        if start + k < te {
            hashes(k) + seq![' '] + t.subrange(trim_start_idx(t, start + k, te), te)
        } else {
            hashes(k)
        }
    } else {
        t.subrange(trim_start_idx(t, start, te), te)
    }
}

/// The formatted output lines of `t` from offset `start` on, given
/// whether the previously emitted line was blank: headings are followed
/// by one inserted blank line, and runs of blank lines collapse.
pub open spec fn format_lines(t: Seq<char>, start: int, prev_blank: bool) -> Seq<Seq<char>>
    decreases t.len() - start,
    via format_lines_decreases
{
    if start < 0 || start >= t.len() {
        Seq::empty()
    } else {
        let e = find_newline(t, start);
        let next = if e < t.len() {
            e + 1
        } else {
            t.len() as int
        };
        let fl = format_line_at(t, start, line_end(t, start));
        if fl.len() > 0 {
            if fl[0] == '#' {
                seq![fl, Seq::<char>::empty()] + format_lines(t, next, true)
            } else {
                seq![fl] + format_lines(t, next, false)
            }
        } else {
            if !prev_blank {
                seq![Seq::<char>::empty()] + format_lines(t, next, true)
            } else {
                format_lines(t, next, true)
            }
        }
    }
}

#[via_fn]
proof fn format_lines_decreases(t: Seq<char>, start: int, prev_blank: bool) {
    if 0 <= start < t.len() {
        lemma_find_newline_bounds(t, start);
    }
}

/// The output lines joined by newlines.
pub open spec fn join_lines(ls: Seq<Seq<char>>) -> Seq<char>
    decreases ls.len(),
{
    if ls.len() == 0 {
        Seq::empty()
    } else if ls.len() == 1 {
        ls[0]
    } else {
        ls[0] + seq!['\n'] + join_lines(ls.drop_first())
    }
}

/// The fully formatted document: the formatted lines joined by
/// newlines, ending with exactly one final newline.
pub open spec fn format_spec(t: Seq<char>) -> Seq<char> {
    let j = join_lines(format_lines(t, 0, false));
    if j.len() > 0 && j.last() == '\n' {
        j
    } else {
        j + seq!['\n']
    }
}

pub(crate) fn trim_end_from(text: &str, start: usize, e: usize) -> (r: usize)
    requires
        start <= e <= text@.len(),
    ensures
        r == trim_end_idx(text@, start as int, e as int),
        start <= r <= e,
{
    let mut b: usize = e;
    while b > start && is_whitespace_char(text.get_char(b - 1))
        invariant
            start <= b <= e <= text@.len(),
            trim_end_idx(text@, start as int, e as int) == trim_end_idx(
                text@,
                start as int,
                b as int,
            ),
        decreases b,
    {
        b = b - 1;
    }
    b
}

pub(crate) fn trim_start_from(text: &str, b: usize, e: usize) -> (r: usize)
    requires
        b <= e <= text@.len(),
    ensures
        r == trim_start_idx(text@, b as int, e as int),
        b <= r <= e,
{
    let mut a: usize = b;
    while a < e && is_whitespace_char(text.get_char(a))
        invariant
            b <= a <= e <= text@.len(),
            trim_start_idx(text@, b as int, e as int) == trim_start_idx(
                text@,
                a as int,
                e as int,
            ),
        decreases e - a,
    {
        a = a + 1;
    }
    a
}

fn append_hashes(k: usize, out: &mut String)
    ensures
        final(out)@ == old(out)@ + hashes(k as int),
    decreases k,
{
    let ghost pre = out@;
    if k > 0 {
        append_hashes(k - 1, out);
        out.append("#");
        proof {
            reveal_strlit("#");
            assert(out@ =~= pre + hashes(k as int));
        }
    } else {
        proof {
            assert(out@ =~= pre + hashes(0));
        }
    }
}

pub(crate) proof fn lemma_join_snoc(ls: Seq<Seq<char>>, x: Seq<char>)
    requires
        ls.len() >= 1,
    ensures
        join_lines(ls.push(x)) == join_lines(ls) + seq!['\n'] + x,
    decreases ls.len(),
{
    reveal_with_fuel(join_lines, 3);
    let l2 = ls.push(x);
    if ls.len() == 1 {
        assert(l2.drop_first() =~= seq![x]);
        assert(join_lines(l2) == ls[0] + seq!['\n'] + x);
    } else {
        assert(l2.drop_first() =~= ls.drop_first().push(x));
        lemma_join_snoc(ls.drop_first(), x);
        assert(ls[0] + seq!['\n'] + (join_lines(ls.drop_first()) + seq!['\n'] + x) =~= (ls[0]
            + seq!['\n'] + join_lines(ls.drop_first())) + seq!['\n'] + x);
    }
}

/// The formatted output lines of the whole text.
#[verifier::rlimit(60)]
fn format_lines_exec(text: &str) -> (r: Vec<String>)
    ensures
        r@.map_values(|l: String| l@) == format_lines(text@, 0, false),
{
    let n = text.unicode_len();
    let mut out: Vec<String> = Vec::new();
    let mut start: usize = 0;
    let mut prev_blank: bool = false;
    proof {
        assert(out@.map_values(|l: String| l@) =~= Seq::<Seq<char>>::empty());
        assert(out@.map_values(|l: String| l@) + format_lines(text@, 0, false) =~= format_lines(
            text@,
            0,
            false,
        ));
    }
    while start < n
        invariant
            start <= n,
            n == text@.len(),
            format_lines(text@, 0, false) == out@.map_values(|l: String| l@) + format_lines(
                text@,
                start as int,
                prev_blank,
            ),
        decreases n - start,
    {
        let e = find_newline_from(text, start);
        let lend = if e < n && e > start && text.get_char(e - 1) == '\r' {
            e - 1
        } else {
            e
        };
        assert(lend == line_end(text@, start as int));
        let te = trim_end_from(text, start, lend);
        let ghost fl = format_line_at(text@, start as int, lend as int);
        let ghost prev_out = out@;
        let mut next_blank: bool = false;
        if te > start && text.get_char(start) == '#' {
            let k = crate::parser::count_hashes(text, start, te);
            let mut line = String::new();
            append_hashes(k, &mut line);
            if start + k < te {
                let tsi = trim_start_from(text, start + k, te);
                line.append(" ");
                line.append(text.substring_char(tsi, te));
                proof {
                    reveal_strlit(" ");
                    assert(" "@ =~= seq![' ']);
                    assert(line@ =~= fl);
                }
            } else {
                proof {
                    assert(line@ =~= fl);
                }
            }
            proof {
                assert(k >= 1) by {
                    crate::parser::lemma_count_hashes_nonneg(text@, start as int + 1, te as int);
                }
                lemma_hashes_first(k as int);
                assert(fl.len() > 0);
                assert(fl[0] == '#');
            }
            out.push(line);
            out.push(String::new());
            next_blank = true;
            proof {
                assert(out@.map_values(|l: String| l@) =~= prev_out.map_values(|l: String| l@)
                    + seq![fl, Seq::<char>::empty()]);
            }
        } else {
            let tsi = trim_start_from(text, start, te);
            proof {
                assert(fl =~= text@.subrange(tsi as int, te as int));
            }
            if tsi < te {
                let line = text.substring_char(tsi, te).to_owned();
                proof {
                    assert(fl.len() > 0);
                    assert(fl[0] == text@[tsi as int]);
                }
                if text.get_char(tsi) == '#' {
                    out.push(line);
                    out.push(String::new());
                    next_blank = true;
                    proof {
                        assert(out@.map_values(|l: String| l@) =~= prev_out.map_values(
                            |l: String| l@,
                        ) + seq![fl, Seq::<char>::empty()]);
                    }
                } else {
                    out.push(line);
                    next_blank = false;
                    proof {
                        assert(out@.map_values(|l: String| l@) =~= prev_out.map_values(
                            |l: String| l@,
                        ) + seq![fl]);
                    }
                }
            } else {
                proof {
                    assert(fl.len() == 0);
                }
                if !prev_blank {
                    out.push(String::new());
                    proof {
                        assert(out@.map_values(|l: String| l@) =~= prev_out.map_values(
                            |l: String| l@,
                        ) + seq![Seq::<char>::empty()]);
                    }
                }
                next_blank = true;
            }
        }
        start = if e < n {
            e + 1
        } else {
            n
        };
        prev_blank = next_blank;
    }
    proof {
        assert(format_lines(text@, start as int, prev_blank) =~= Seq::<Seq<char>>::empty());
        assert(out@.map_values(|l: String| l@) + Seq::<Seq<char>>::empty() =~= out@.map_values(
            |l: String| l@,
        ));
    }
    out
}

proof fn lemma_hashes_len(k: int)
    ensures
        hashes(k).len() == if k >= 0 {
            k
        } else {
            0
        },
    decreases k,
{
    if k > 0 {
        lemma_hashes_len(k - 1);
    }
}

proof fn lemma_hashes_first(k: int)
    requires
        k >= 1,
    ensures
        hashes(k).len() == k,
        hashes(k)[0] == '#',
    decreases k,
{
    lemma_hashes_len(k);
    if k > 1 {
        lemma_hashes_first(k - 1);
    }
}

/// Formats a markdown document: each heading's `#` markers get exactly
/// one following space and the heading stands before an inserted blank
/// line, other lines are trimmed of surrounding white space, runs of
/// blank lines collapse to one, and the result ends with a newline.
pub fn format_markdown(input: &str) -> (r: String)
    ensures
        r@ == format_spec(input@),
{
    let lines = format_lines_exec(input);
    let ghost lviews = lines@.map_values(|l: String| l@);
    let mut out = String::new();
    let mut i: usize = 0;
    let nl = lines.len();
    while i < nl
        invariant
            i <= nl,
            nl == lines@.len(),
            lviews == lines@.map_values(|l: String| l@),
            i == 0 ==> out@ =~= Seq::<char>::empty(),
            i > 0 ==> out@ == join_lines(lviews.subrange(0, i as int)),
        decreases nl - i,
    {
        if i > 0 {
            out.append("\n");
            proof {
                reveal_strlit("\n");
            }
        }
        out.append(lines[i].as_str());
        proof {
            assert(lviews[i as int] == lines@[i as int]@);
            if i == 0 {
                assert(lviews.subrange(0, 1) =~= seq![lviews[0]]);
                assert(out@ =~= join_lines(lviews.subrange(0, 1)));
            } else {
                assert(lviews.subrange(0, i as int + 1) =~= lviews.subrange(0, i as int).push(
                    lviews[i as int],
                ));
                lemma_join_snoc(lviews.subrange(0, i as int), lviews[i as int]);
                assert("\n"@ =~= seq!['\n']);
                assert(out@ =~= join_lines(lviews.subrange(0, i as int)) + seq!['\n']
                    + lviews[i as int]);
            }
        }
        i = i + 1;
    }
    proof {
        if nl == 0 {
            assert(join_lines(lviews) =~= Seq::<char>::empty());
        } else {
            assert(lviews.subrange(0, nl as int) =~= lviews);
        }
    }
    let olen = out.unicode_len();
    if olen == 0 || !(out.as_str().get_char(olen - 1) == '\n') {
        out.append("\n");
        proof {
            reveal_strlit("\n");
            assert(out@ =~= join_lines(lviews) + seq!['\n']);
        }
    }
    out
}

} // verus!
