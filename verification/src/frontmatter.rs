//! Updating a document's YAML frontmatter with a `tags:` field: an
//! existing tags line is replaced, an existing frontmatter block gains
//! the line before its closing delimiter, and a document without a
//! complete frontmatter block gains a fresh one.

use vstd::prelude::*;

use crate::formatter::join_lines;
use crate::formatter::lemma_join_snoc;
use crate::formatter::trim_start_idx;
use crate::parser::line_end;
use crate::position::find_newline;
use crate::position::find_newline_from;
use crate::position::lemma_find_newline_bounds;
use crate::wikilink::trim_range;
use crate::wikilink::trim_spec;

verus! {

/// The lines of `t` from offset `start` on, split at newlines, a
/// carriage return stripped where it stands immediately before the
/// newline.
pub open spec fn lines_of(t: Seq<char>, start: int) -> Seq<Seq<char>>
    decreases t.len() - start,
    via lines_of_decreases
{
    if start < 0 || start >= t.len() {
        Seq::empty()
    } else {
        let e = find_newline(t, start);
        let rest = if e < t.len() {
            lines_of(t, e + 1)
        } else {
            Seq::empty()
        };
        seq![t.subrange(start, line_end(t, start))] + rest
    }
}

#[via_fn]
proof fn lines_of_decreases(t: Seq<char>, start: int) {
    if 0 <= start < t.len() {
        lemma_find_newline_bounds(t, start);
    }
}

/// A frontmatter delimiter line: three dashes up to surrounding white
/// space.
pub open spec fn is_marker(line: Seq<char>) -> bool {
    trim_spec(line) == "---"@
}

/// A line that carries the `tags:` field, up to leading white space.
pub open spec fn is_tags_line(line: Seq<char>) -> bool {
    let b = trim_start_idx(line, 0, line.len() as int);
    &&& line.len() - b >= 5
    &&& line[b] == 't'
    &&& line[b + 1] == 'a'
    &&& line[b + 2] == 'g'
    &&& line[b + 3] == 's'
    &&& line[b + 4] == ':'
}

/// One tag in quotes.
pub open spec fn quoted(tag: Seq<char>) -> Seq<char> {
    seq!['"'] + tag + seq!['"']
}

/// The quoted tags joined by commas.
pub open spec fn quoted_join(tags: Seq<Seq<char>>) -> Seq<char>
    decreases tags.len(),
{
    if tags.len() == 0 {
        Seq::empty()
    } else if tags.len() == 1 {
        quoted(tags[0])
    } else {
        quoted(tags[0]) + ", "@ + quoted_join(tags.drop_first())
    }
}

/// The whole `tags:` line for a tag list.
pub open spec fn tag_line_of(tags: Seq<Seq<char>>) -> Seq<char> {
    "tags: ["@ + quoted_join(tags) + "]"@
}

/// First frontmatter delimiter line at or after index `i`.
pub open spec fn first_marker_from(ls: Seq<Seq<char>>, i: int) -> Option<int>
    decreases ls.len() - i,
{
    if i < 0 || i >= ls.len() {
        None
    } else if is_marker(ls[i]) {
        Some(i)
    } else {
        first_marker_from(ls, i + 1)
    }
}

/// First `tags:` line in `[i, end)`.
pub open spec fn first_tags_in(ls: Seq<Seq<char>>, i: int, end: int) -> Option<int>
    decreases end - i,
{
    if i < 0 || i >= end || end > ls.len() {
        None
    } else if is_tags_line(ls[i]) {
        Some(i)
    } else {
        first_tags_in(ls, i + 1, end)
    }
}

/// The document's lines after the tags update: inside a complete
/// frontmatter block the first `tags:` line is replaced, or the line is
/// inserted before the closing delimiter; a document without a complete
/// block gains a fresh one, a blank line after it, before all its
/// lines.
pub open spec fn updated_lines(ls: Seq<Seq<char>>, tl: Seq<char>) -> Seq<Seq<char>> {
    if ls.len() > 0 && is_marker(ls[0]) && first_marker_from(ls, 1) is Some {
        let end = first_marker_from(ls, 1)->0;
        match first_tags_in(ls, 1, end) {
            Some(i) => ls.update(i, tl),
            None => ls.insert(end, tl),
        }
    } else {
        seq!["---"@, tl, "---"@, Seq::<char>::empty()] + ls
    }
}

/// The document text after updating its frontmatter with the tag list:
/// the updated lines joined by newlines.
pub open spec fn tagged_spec(t: Seq<char>, tags: Seq<Seq<char>>) -> Seq<char> {
    join_lines(updated_lines(lines_of(t, 0), tag_line_of(tags)))
}

/// The raw lines of the text.
fn lines_exec(text: &str) -> (r: Vec<String>)
    ensures
        r@.map_values(|l: String| l@) == lines_of(text@, 0),
{
    let n = text.unicode_len();
    let mut out: Vec<String> = Vec::new();
    let mut start: usize = 0;
    proof {
        assert(out@.map_values(|l: String| l@) =~= Seq::<Seq<char>>::empty());
        assert(out@.map_values(|l: String| l@) + lines_of(text@, 0) =~= lines_of(text@, 0));
    }
    while start < n
        invariant
            start <= n,
            n == text@.len(),
            lines_of(text@, 0) == out@.map_values(|l: String| l@) + lines_of(
                text@,
                start as int,
            ),
        decreases n - start,
    {
        let e = find_newline_from(text, start);
        let lend = if e < n && e > start && text.get_char(e - 1) == '\r' {
            e - 1
        } else {
            e
        };
        assert(lend == line_end(text@, start as int));
        let line = text.substring_char(start, lend).to_owned();
        let ghost prev = out@;
        out.push(line);
        proof {
            assert(out@.map_values(|l: String| l@) =~= prev.map_values(|l: String| l@) + seq![
                text@.subrange(start as int, lend as int),
            ]);
        }
        start = if e < n {
            e + 1
        } else {
            n
        };
    }
    proof {
        assert(lines_of(text@, start as int) =~= Seq::<Seq<char>>::empty());
        assert(out@.map_values(|l: String| l@) + Seq::<Seq<char>>::empty() =~= out@.map_values(
            |l: String| l@,
        ));
    }
    out
}

fn is_marker_exec(line: &String) -> (r: bool)
    ensures
        r == is_marker(line@),
{
    let n = line.as_str().unicode_len();
    let (a, b) = trim_range(line.as_str(), 0, n);
    proof {
        reveal_strlit("---");
        assert(line@.subrange(0, n as int) =~= line@);
    }
    if b - a != 3 {
        proof {
            reveal_strlit("---");
            assert(line@.subrange(a as int, b as int).len() == b - a);
            assert(trim_spec(line@).len() == b - a);
            assert("---"@.len() == 3);
        }
        return false;
    }
    let r = line.as_str().get_char(a) == '-' && line.as_str().get_char(a + 1) == '-'
        && line.as_str().get_char(a + 2) == '-';
    proof {
        reveal_strlit("---");
        assert(trim_spec(line@)[0] == line@[a as int]);
        assert(trim_spec(line@)[1] == line@[a as int + 1]);
        assert(trim_spec(line@)[2] == line@[a as int + 2]);
        if r {
            assert(trim_spec(line@) =~= "---"@);
        }
    }
    r
}

fn is_tags_exec(line: &String) -> (r: bool)
    ensures
        r == is_tags_line(line@),
{
    let n = line.as_str().unicode_len();
    let b = crate::formatter::trim_start_from(line.as_str(), 0, n);
    if n - b < 5 {
        return false;
    }
    line.as_str().get_char(b) == 't' && line.as_str().get_char(b + 1) == 'a' && line.as_str()
        .get_char(b + 2) == 'g' && line.as_str().get_char(b + 3) == 's' && line.as_str().get_char(
        b + 4,
    ) == ':'
}

proof fn lemma_qjoin_snoc(ls: Seq<Seq<char>>, x: Seq<char>)
    requires
        ls.len() >= 1,
    ensures
        quoted_join(ls.push(x)) == quoted_join(ls) + ", "@ + quoted(x),
    decreases ls.len(),
{
    reveal_with_fuel(quoted_join, 3);
    let l2 = ls.push(x);
    if ls.len() == 1 {
        assert(l2.drop_first() =~= seq![x]);
    } else {
        assert(l2.drop_first() =~= ls.drop_first().push(x));
        lemma_qjoin_snoc(ls.drop_first(), x);
        assert(quoted(ls[0]) + ", "@ + (quoted_join(ls.drop_first()) + ", "@ + quoted(x)) =~= (
        quoted(ls[0]) + ", "@ + quoted_join(ls.drop_first())) + ", "@ + quoted(x));
    }
}

/// Builds the `tags:` line for a tag list.
fn build_tag_line(tags: &Vec<String>) -> (r: String)
    ensures
        r@ == tag_line_of(tags@.map_values(|t: String| t@)),
{
    let ghost ts = tags@.map_values(|t: String| t@);
    let mut joined = String::new();
    let mut i: usize = 0;
    while i < tags.len()
        invariant
            i <= tags@.len(),
            ts == tags@.map_values(|t: String| t@),
            i == 0 ==> joined@ =~= Seq::<char>::empty(),
            i > 0 ==> joined@ == quoted_join(ts.subrange(0, i as int)),
        decreases tags@.len() - i,
    {
        if i > 0 {
            joined.append(", ");
        }
        joined.append("\"");
        joined.append(tags[i].as_str());
        joined.append("\"");
        proof {
            reveal_strlit("\"");
            assert("\""@ =~= seq!['"']);
            assert(ts[i as int] == tags@[i as int]@);
            if i == 0 {
                assert(ts.subrange(0, 1) =~= seq![ts[0]]);
                assert(joined@ =~= quoted(ts[0]));
                assert(quoted_join(seq![ts[0]]) == quoted(ts[0]));
            } else {
                assert(ts.subrange(0, i + 1) =~= ts.subrange(0, i as int).push(ts[i as int]));
                lemma_qjoin_snoc(ts.subrange(0, i as int), ts[i as int]);
                assert(joined@ =~= quoted_join(ts.subrange(0, i as int)) + ", "@ + quoted(
                    ts[i as int],
                ));
            }
        }
        i = i + 1;
    }
    let mut out = String::from_str("tags: [");
    out.append(joined.as_str());
    out.append("]");
    proof {
        if ts.len() == 0 {
        } else {
            assert(ts.subrange(0, ts.len() as int) =~= ts);
        }
        assert(out@ =~= tag_line_of(ts));
    }
    out
}

fn find_marker_from(lines: &Vec<String>, from: usize) -> (r: Option<usize>)
    ensures
        ({
            let ls = lines@.map_values(|l: String| l@);
            match r {
                Some(i) => first_marker_from(ls, from as int) == Some(i as int) && i
                    < lines@.len(),
                None => first_marker_from(ls, from as int) is None,
            }
        }),
{
    let ghost ls = lines@.map_values(|l: String| l@);
    let mut k: usize = from;
    loop
        invariant
            from <= k,
            ls == lines@.map_values(|l: String| l@),
            first_marker_from(ls, from as int) == first_marker_from(ls, k as int),
        decreases lines@.len() - k,
    {
        if k >= lines.len() {
            return None;
        }
        proof {
            assert(ls[k as int] == lines@[k as int]@);
        }
        if is_marker_exec(&lines[k]) {
            return Some(k);
        }
        k = k + 1;
    }
}

fn find_tags_in(lines: &Vec<String>, from: usize, end: usize) -> (r: Option<usize>)
    requires
        end <= lines@.len(),
    ensures
        ({
            let ls = lines@.map_values(|l: String| l@);
            match r {
                Some(i) => first_tags_in(ls, from as int, end as int) == Some(i as int) && i
                    < end,
                None => first_tags_in(ls, from as int, end as int) is None,
            }
        }),
{
    let ghost ls = lines@.map_values(|l: String| l@);
    let mut k: usize = from;
    loop
        invariant
            from <= k,
            end <= lines@.len(),
            ls == lines@.map_values(|l: String| l@),
            first_tags_in(ls, from as int, end as int) == first_tags_in(ls, k as int, end as int),
        decreases end - k,
    {
        if k >= end {
            return None;
        }
        proof {
            assert(ls[k as int] == lines@[k as int]@);
        }
        if is_tags_exec(&lines[k]) {
            return Some(k);
        }
        k = k + 1;
    }
}

/// Joins lines with newlines.
fn join_exec(lines: Vec<String>) -> (r: String)
    ensures
        r@ == join_lines(lines@.map_values(|l: String| l@)),
{
    let ghost lviews = lines@.map_values(|l: String| l@);
    let mut out = String::new();
    let mut i: usize = 0;
    let nl = lines.len();
    while i < nl
        invariant
            i <= nl,
            nl == lines@.len(),
            lviews == lines@.map_values(|l: String| l@),
            i == 0 ==> out@ =~= Seq::<char>::empty(),
            i > 0 ==> out@ == join_lines(lviews.subrange(0, i as int)),
        decreases nl - i,
    {
        if i > 0 {
            out.append("\n");
            proof {
                reveal_strlit("\n");
            }
        }
        out.append(lines[i].as_str());
        proof {
            assert(lviews[i as int] == lines@[i as int]@);
            if i == 0 {
                assert(lviews.subrange(0, 1) =~= seq![lviews[0]]);
                assert(out@ =~= join_lines(lviews.subrange(0, 1)));
            } else {
                assert(lviews.subrange(0, i as int + 1) =~= lviews.subrange(0, i as int).push(
                    lviews[i as int],
                ));
                lemma_join_snoc(lviews.subrange(0, i as int), lviews[i as int]);
                assert("\n"@ =~= seq!['\n']);
                assert(out@ =~= join_lines(lviews.subrange(0, i as int)) + seq!['\n']
                    + lviews[i as int]);
            }
        }
        i = i + 1;
    }
    proof {
        if nl == 0 {
            assert(join_lines(lviews) =~= Seq::<char>::empty());
        } else {
            assert(lviews.subrange(0, nl as int) =~= lviews);
        }
    }
    out
}

/// Updates (or creates) the document's YAML frontmatter with a `tags:`
/// field holding the given tags: an existing `tags:` line inside a
/// complete frontmatter block is replaced, a block without one gains
/// the line before its closing delimiter, and a document without a
/// complete block gains a fresh block, followed by a blank line, before
/// its text.
pub fn update_document_with_tags(text: &str, tags: &Vec<String>) -> (r: String)
    ensures
        r@ == tagged_spec(text@, tags@.map_values(|t: String| t@)),
{
    let mut lines = lines_exec(text);
    let ghost ls = lines@.map_values(|l: String| l@);
    let tl = build_tag_line(tags);
    let has_fm = lines.len() > 0 && is_marker_exec(&lines[0]);
    proof {
        if lines@.len() > 0 {
            assert(ls[0] == lines@[0]@);
        }
    }
    if has_fm {
        match find_marker_from(&lines, 1) {
            Some(end) => {
                match find_tags_in(&lines, 1, end) {
                    Some(i) => {
                        let ghost pre = lines@;
                        let _replaced = lines.remove(i);
                        lines.insert(i, tl);
                        proof {
                            assert(lines@ =~= pre.update(i as int, lines@[i as int]));
                            assert(lines@.map_values(|l: String| l@) =~= ls.update(
                                i as int,
                                tag_line_of(tags@.map_values(|t: String| t@)),
                            ));
                        }
                        return join_exec(lines);
                    },
                    None => {
                        let ghost pre = lines@;
                        lines.insert(end, tl);
                        proof {
                            assert(lines@.map_values(|l: String| l@) =~= ls.insert(
                                end as int,
                                tag_line_of(tags@.map_values(|t: String| t@)),
                            ));
                        }
                        return join_exec(lines);
                    },
                }
            },
            None => {},
        }
    }
    let mut out_lines: Vec<String> = Vec::new();
    out_lines.push(String::from_str("---"));
    out_lines.push(tl);
    out_lines.push(String::from_str("---"));
    out_lines.push(String::new());
    let ghost head = out_lines@.map_values(|l: String| l@);
    proof {
        reveal_strlit("---");
        assert(head =~= seq![
            "---"@,
            tag_line_of(tags@.map_values(|t: String| t@)),
            "---"@,
            Seq::<char>::empty(),
        ]);
    }
    let mut w = lines;
    let ghost mut moved: int = 0;
    while w.len() > 0
        invariant
            0 <= moved,
            moved + w@.len() == ls.len(),
            w@.map_values(|l: String| l@) =~= ls.skip(moved),
            out_lines@.map_values(|l: String| l@) =~= head + ls.subrange(0, moved),
        decreases w@.len(),
    {
        let ghost wv = w@.map_values(|l: String| l@);
        let item = w.remove(0);
        let ghost prev = out_lines@;
        proof {
            assert(wv[0] == item@);
            assert(ls.skip(moved)[0] == ls[moved]);
            assert(w@.map_values(|l: String| l@) =~= wv.drop_first());
            assert(wv.drop_first() =~= ls.skip(moved + 1));
        }
        out_lines.push(item);
        proof {
            assert(out_lines@.map_values(|l: String| l@) =~= prev.map_values(|l: String| l@)
                + seq![item@]);
            assert(prev.map_values(|l: String| l@) + seq![item@] =~= head + ls.subrange(
                0,
                moved + 1,
            ));
            moved = moved + 1;
        }
    }
    proof {
        assert(ls.subrange(0, moved) =~= ls);
        assert(out_lines@.map_values(|l: String| l@) =~= head + ls);
    }
    join_exec(out_lines)
}

} // verus!
