//! Link completion: detecting the `[[` trigger on the cursor's line and
//! building one ranked candidate link per note of the workspace.

use vstd::prelude::*;

use crate::position::find_newline_from;
use crate::position::line_of;
use crate::position::line_start_idx;
use crate::position::position_to_offset;
use crate::parser::line_end;

verus! {

/// One note known to the note index: its vault-relative virtual path,
/// its local path, and its freeform metadata text.
pub struct NoteRecord {
    pub virtual_path: String,
    pub path: String,
    pub metadata: String,
}

/// Mathematical model of a note record.
pub ghost struct NoteRecordV {
    pub virtual_path: Seq<char>,
    pub path: Seq<char>,
    pub metadata: Seq<char>,
}

impl View for NoteRecord {
    type V = NoteRecordV;

    open spec fn view(&self) -> NoteRecordV {
        NoteRecordV {
            virtual_path: self.virtual_path@,
            path: self.path@,
            metadata: self.metadata@,
        }
    }
}

/// The `title` string field of a note's metadata text, if the text is
/// an object with one; a function of the text alone.
pub uninterp spec fn title_of(meta: Seq<char>) -> Option<Seq<char>>;

/// Relies on serde_json::from_str and Value::get: the `title` string
/// field of the parsed metadata object, which depends on the metadata
/// text alone.
#[verifier::external_body]
fn metadata_title(meta: &str) -> (r: Option<String>)
    ensures
        match r {
            Some(t) => title_of(meta@) == Some(t@),
            None => title_of(meta@) is None,
        },
{
    match serde_json::from_str::<serde_json::Value>(meta) {
        Ok(v) => v.get("title").and_then(|t| t.as_str()).map(|s| s.to_string()),
        Err(_) => None,
    }
}

/// The start of the file-name part of a path: the offset just after the
/// last `/` before `o`.
pub open spec fn after_last_slash(p: Seq<char>, o: int) -> int
    decreases o,
{
    if o <= 0 {
        0
    } else if 0 <= o - 1 < p.len() && p[o - 1] == '/' {
        o
    } else {
        after_last_slash(p, o - 1)
    }
}

/// The file-name part of a path: everything after its last `/`.
pub open spec fn file_name_of(p: Seq<char>) -> Seq<char> {
    p.subrange(after_last_slash(p, p.len() as int), p.len() as int)
}

/// The display alias of a note: its metadata title, else the file name
/// of its virtual path, else the virtual path itself.
pub open spec fn alias_of_record(vpath: Seq<char>, meta: Seq<char>) -> Seq<char> {
    match title_of(meta) {
        Some(t) => t,
        None => {
            let f = file_name_of(vpath);
            if f.len() > 0 {
                f
            } else {
                vpath
            }
        },
    }
}

/// Extracts a note's display alias: the `title` field of its metadata,
/// else the file name of its virtual path, else the whole virtual path.
pub fn get_alias(record: &NoteRecord) -> (r: String)
    ensures
        r@ == alias_of_record(record.virtual_path@, record.metadata@),
{
    match metadata_title(record.metadata.as_str()) {
        Some(t) => t,
        None => {
            let p = &record.virtual_path;
            let n = p.as_str().unicode_len();
            let mut k: usize = n;
            while k > 0 && p.as_str().get_char(k - 1) != '/'
                invariant
                    k <= n,
                    n == p@.len(),
                    after_last_slash(p@, n as int) == after_last_slash(p@, k as int),
                decreases k,
            {
                k = k - 1;
            }
            proof {
                assert(after_last_slash(p@, n as int) == k);
            }
            if k < n {
                p.as_str().substring_char(k, n).to_owned()
            } else {
                proof {
                    assert(file_name_of(p@).len() == 0);
                }
                p.clone()
            }
        },
    }
}

/// A path with every backslash separator replaced by a forward slash.
pub open spec fn slashes_of(p: Seq<char>) -> Seq<char> {
    p.map_values(
        |c: char|
            if c == '\\' {
                '/'
            } else {
                c
            },
    )
}

/// Normalises a local path into a virtual path: every backslash
/// separator becomes a forward slash.
pub fn get_virtual_path(local_path: &str) -> (r: String)
    ensures
        r@ == slashes_of(local_path@),
{
    let n = local_path.unicode_len();
    let mut out = String::new();
    let mut i: usize = 0;
    let mut prev: usize = 0;
    proof {
        assert(out@ =~= slashes_of(local_path@.subrange(0, 0)));
    }
    while i < n
        invariant
            prev <= i <= n,
            n == local_path@.len(),
            out@ =~= slashes_of(local_path@.subrange(0, prev as int)),
            forall|j: int| prev <= j < i ==> local_path@[j] != '\\',
        decreases n - i,
    {
        if local_path.get_char(i) == '\\' {
            out.append(local_path.substring_char(prev, i));
            out.append("/");
            proof {
                reveal_strlit("/");
                assert(out@ =~= slashes_of(local_path@.subrange(0, i + 1)));
            }
            prev = i + 1;
        }
        i = i + 1;
    }
    out.append(local_path.substring_char(prev, n));
    proof {
        assert(out@ =~= slashes_of(local_path@));
    }
    out
}

/// A completion candidate: the label shown to the user and the full
/// link text that replaces the trigger span.
pub struct CompletionCandidate {
    pub label: String,
    pub new_text: String,
}

/// Mathematical model of a completion candidate.
pub ghost struct CandidateV {
    pub label: Seq<char>,
    pub new_text: Seq<char>,
}

impl View for CompletionCandidate {
    type V = CandidateV;

    open spec fn view(&self) -> CandidateV {
        CandidateV { label: self.label@, new_text: self.new_text@ }
    }
}

/// Whether a virtual path names a markdown note.
pub open spec fn ends_with_md(p: Seq<char>) -> bool {
    p.len() >= 3 && p[p.len() - 3] == '.' && p[p.len() - 2] == 'm' && p[p.len() - 1] == 'd'
}

/// The candidate built for one note: the normalised virtual path as
/// label, and the full `[[path | alias]]` link as replacement text.
pub open spec fn candidate_of(rec: NoteRecordV) -> CandidateV {
    let vp = slashes_of(rec.virtual_path);
    let alias = alias_of_record(rec.virtual_path, rec.metadata);
    CandidateV { label: vp, new_text: "[["@ + vp + " | "@ + alias + "]]"@ }
}

/// One candidate per markdown note, in note order.
pub open spec fn link_candidates(records: Seq<NoteRecordV>) -> Seq<CandidateV>
    decreases records.len(),
{
    if records.len() == 0 {
        Seq::empty()
    } else {
        let rest = link_candidates(records.drop_first());
        if ends_with_md(records[0].virtual_path) {
            seq![candidate_of(records[0])] + rest
        } else {
            rest
        }
    }
}

fn is_md_path(p: &String) -> (r: bool)
    ensures
        r == ends_with_md(p@),
{
    let n = p.as_str().unicode_len();
    if n < 3 {
        return false;
    }
    p.as_str().get_char(n - 3) == '.' && p.as_str().get_char(n - 2) == 'm' && p.as_str().get_char(
        n - 1,
    ) == 'd'
}

/// Builds one completion candidate per markdown note of the workspace:
/// the label is the note's normalised virtual path and the replacement
/// text the full `[[path | alias]]` link.
pub fn build_link_candidates(records: &Vec<NoteRecord>) -> (r: Vec<CompletionCandidate>)
    ensures
        r@.map_values(|c: CompletionCandidate| c@) == link_candidates(
            records@.map_values(|x: NoteRecord| x@),
        ),
{
    let ghost rs = records@.map_values(|x: NoteRecord| x@);
    let mut out: Vec<CompletionCandidate> = Vec::new();
    let mut i: usize = 0;
    proof {
        assert(out@.map_values(|c: CompletionCandidate| c@) =~= Seq::<CandidateV>::empty());
        assert(rs.skip(0) =~= rs);
        assert(out@.map_values(|c: CompletionCandidate| c@) + link_candidates(rs) =~= link_candidates(
            rs,
        ));
    }
    while i < records.len()
        invariant
            i <= records@.len(),
            rs == records@.map_values(|x: NoteRecord| x@),
            link_candidates(rs) == out@.map_values(|c: CompletionCandidate| c@)
                + link_candidates(rs.skip(i as int)),
        decreases records@.len() - i,
    {
        let rec = &records[i];
        proof {
            assert(rs.skip(i as int)[0] == rs[i as int]);
            assert(rs[i as int] == rec@);
            assert(rs.skip(i as int).drop_first() =~= rs.skip(i as int + 1));
        }
        if is_md_path(&rec.virtual_path) {
            let vp = get_virtual_path(rec.virtual_path.as_str());
            let alias = get_alias(rec);
            let mut link = String::from_str("[[");
            link.append(vp.as_str());
            link.append(" | ");
            link.append(alias.as_str());
            link.append("]]");
            let cand = CompletionCandidate { label: vp, new_text: link };
            let ghost prev = out@;
            proof {
                assert(cand@ == candidate_of(rs[i as int]));
            }
            out.push(cand);
            proof {
                assert(out@.map_values(|c: CompletionCandidate| c@) =~= prev.map_values(
                    |c: CompletionCandidate| c@,
                ) + seq![cand@]);
            }
        }
        i = i + 1;
    }
    proof {
        assert(rs.skip(records@.len() as int).len() == 0);
        assert(link_candidates(rs.skip(records@.len() as int)) =~= Seq::<CandidateV>::empty());
        assert(out@.map_values(|c: CompletionCandidate| c@) + Seq::<CandidateV>::empty()
            =~= out@.map_values(|c: CompletionCandidate| c@));
    }
    out
}

/// The number of lines of `t`, as line iteration sees them: none for an
/// empty text, and no final empty line after a terminating newline.
pub open spec fn lines_count(t: Seq<char>) -> int {
    if t.len() == 0 {
        0
    } else if t.last() == '\n' {
        line_of(t, t.len() as int)
    } else {
        line_of(t, t.len() as int) + 1
    }
}

/// Largest `i >= lo` with `i + 2 <= o` such that `t[i..i+2]` is `[[`:
/// the nearest link opener before `o`, not looking back past `lo`.
pub open spec fn last_open_in(t: Seq<char>, lo: int, o: int) -> Option<int>
    decreases o,
{
    if lo < 0 || o < lo + 2 || o > t.len() {
        None
    } else if t[o - 2] == '[' && t[o - 1] == '[' {
        Some(o - 2)
    } else {
        last_open_in(t, lo, o - 1)
    }
}

/// The completion trigger span on the line `[ls, lend)` with the cursor
/// at column `c`: from the nearest `[[` on the line before the cursor
/// through the cursor, extended over an auto-paired `]]` that stands
/// immediately after the cursor within the line.
pub open spec fn trigger_span(t: Seq<char>, ls: int, lend: int, c: int) -> Option<(int, int)> {
    match last_open_in(t, ls, ls + c) {
        Some(i) => Some(
            (
                i - ls,
                if ls + c + 2 <= lend && t[ls + c] == ']' && t[ls + c + 1] == ']' {
                    c + 2
                } else {
                    c
                },
            ),
        ),
        None => None,
    }
}

fn count_lines(text: &str) -> (r: usize)
    ensures
        r == lines_count(text@),
{
    let n = text.unicode_len();
    if n == 0 {
        return 0;
    }
    let mut i: usize = 0;
    let mut cnt: usize = 0;
    while i < n
        invariant
            i <= n,
            cnt <= i,
            n == text@.len(),
            cnt == line_of(text@, i as int),
        decreases n - i,
    {
        if text.get_char(i) == '\n' {
            cnt = cnt + 1;
        }
        i = i + 1;
    }
    if text.get_char(n - 1) == '\n' {
        cnt
    } else {
        proof {
            crate::position::lemma_line_of_nonneg(text@, n as int - 1);
            assert(line_of(text@, n as int) == line_of(text@, n as int - 1));
        }
        cnt + 1
    }
}

/// The text already typed inside the completion trigger: the characters
/// between the nearest `[[` on the cursor's line and the cursor itself.
/// Yields nothing when the line does not exist or no `[[` precedes the
/// cursor on it.
pub fn typed_query(text: &str, line: usize, character: usize) -> (r: Option<String>)
    ensures
        ({
            let t = text@;
            if line as int >= lines_count(t) {
                r is None
            } else {
                let ls = line_start_idx(t, line as int);
                let lend = line_end(t, ls);
                let c = if character as int <= lend - ls {
                    character as int
                } else {
                    lend - ls
                };
                match last_open_in(t, ls, ls + c) {
                    Some(i) => r is Some && r->0@ == t.subrange(i + 2, ls + c),
                    None => r is None,
                }
            }
        }),
{
    let nlines = count_lines(text);
    if line >= nlines {
        return None;
    }
    let ls = position_to_offset(text, line, 0);
    proof {
        crate::position::lemma_line_start_idx_bounds(text@, line as int);
        crate::position::lemma_find_newline_bounds(text@, line_start_idx(text@, line as int));
        assert(ls == line_start_idx(text@, line as int));
    }
    let e = find_newline_from(text, ls);
    let n = text.unicode_len();
    let lend = if e < n && e > ls && text.get_char(e - 1) == '\r' {
        e - 1
    } else {
        e
    };
    assert(lend == line_end(text@, ls as int));
    let c = if character <= lend - ls {
        character
    } else {
        lend - ls
    };
    match last_open_in_exec(text, ls, ls + c) {
        Some(i) => {
            proof {
                lemma_last_open_in_bounds(text@, ls as int, (ls + c) as int);
            }
            Some(text.substring_char(i + 2, ls + c).to_owned())
        },
        None => None,
    }
}

fn last_open_in_exec(text: &str, lo: usize, o: usize) -> (r: Option<usize>)
    requires
        lo <= o <= text@.len(),
    ensures
        match r {
            Some(i) => last_open_in(text@, lo as int, o as int) == Some(i as int),
            None => last_open_in(text@, lo as int, o as int) is None,
        },
{
    let mut k: usize = o;
    loop
        invariant
            lo <= k <= o <= text@.len(),
            last_open_in(text@, lo as int, o as int) == last_open_in(text@, lo as int, k as int),
        decreases k,
    {
        if k - lo < 2 {
            return None;
        }
        if text.get_char(k - 2) == '[' && text.get_char(k - 1) == '[' {
            return Some(k - 2);
        }
        k = k - 1;
    }
}

/// Detects the link-completion trigger in `text` at the cursor
/// coordinate (`line`, `character`) and builds the candidates from the
/// note records: the columns of the replacement span on that line
/// together with one candidate per markdown note. Yields nothing when
/// the line does not exist or no `[[` precedes the cursor on it.
pub fn link_completions(
    text: &str,
    line: usize,
    character: usize,
    records: &Vec<NoteRecord>,
) -> (r: Option<(usize, usize, Vec<CompletionCandidate>)>)
    ensures
        ({
            let t = text@;
            if line as int >= lines_count(t) {
                r is None
            } else {
                let ls = line_start_idx(t, line as int);
                let lend = line_end(t, ls);
                let c = if character as int <= lend - ls {
                    character as int
                } else {
                    lend - ls
                };
                match trigger_span(t, ls, lend, c) {
                    Some(span) => {
                        &&& r is Some
                        &&& (r->0).0 == span.0
                        &&& (r->0).1 == span.1
                        &&& (r->0).2@.map_values(|x: CompletionCandidate| x@) == link_candidates(
                            records@.map_values(|x: NoteRecord| x@),
                        )
                    },
                    None => r is None,
                }
            }
        }),
{
    let nlines = count_lines(text);
    if line >= nlines {
        return None;
    }
    let ls = position_to_offset(text, line, 0);
    proof {
        crate::position::lemma_line_start_idx_bounds(text@, line as int);
        crate::position::lemma_find_newline_bounds(text@, line_start_idx(text@, line as int));
        assert(ls == line_start_idx(text@, line as int));
    }
    let e = find_newline_from(text, ls);
    let n = text.unicode_len();
    let lend = if e < n && e > ls && text.get_char(e - 1) == '\r' {
        e - 1
    } else {
        e
    };
    assert(lend == line_end(text@, ls as int));
    let c = if character <= lend - ls {
        character
    } else {
        lend - ls
    };
    let opener = last_open_in_exec(text, ls, ls + c);
    let start = match opener {
        Some(i) => i,
        None => {
            return None;
        },
    };
    let close_paired = lend - ls >= 2 && c <= lend - ls - 2 && text.get_char(ls + c) == ']'
        && text.get_char(ls + c + 1) == ']';
    let end_col = if close_paired {
        c + 2
    } else {
        c
    };
    let candidates = build_link_candidates(records);
    proof {
        lemma_last_open_in_bounds(text@, ls as int, (ls + c) as int);
    }
    Some((start - ls, end_col, candidates))
}

proof fn lemma_last_open_in_bounds(t: Seq<char>, lo: int, o: int)
    ensures
        match last_open_in(t, lo, o) {
            Some(i) => lo <= i && i + 2 <= o && i + 2 <= t.len(),
            None => true,
        },
    decreases o,
{
    if 0 <= lo && lo + 2 <= o <= t.len() && !(t[o - 2] == '[' && t[o - 1] == '[') {
        lemma_last_open_in_bounds(t, lo, o - 1);
    }
}

} // verus!
