//! Case-insensitive subsequence fuzzy matching: a candidate matches when
//! every query character appears in it in order; the score counts the
//! candidate characters skipped between consecutive matched query
//! characters, lower being tighter.

use vstd::prelude::*;

use crate::wikilink::trim_spec;
use crate::wikilink::trim_range;

verus! {

/// The lower-case folding of a character sequence; a function of the
/// characters alone.
pub uninterp spec fn lower_of(s: Seq<char>) -> Seq<char>;

/// Relies on str::to_lowercase: the folded text depends on the
/// characters alone.
#[verifier::external_body]
fn to_lower(s: &str) -> (r: String)
    ensures
        r@ == lower_of(s@),
{
    s.to_lowercase()
}

/// Greedy subsequence score of query `q` in candidate `c` where the
/// next query character is the first to match: candidate characters
/// skipped before it are free.
pub open spec fn gap_first(q: Seq<char>, c: Seq<char>) -> Option<int>
    decreases c.len(),
{
    if q.len() == 0 {
        Some(0)
    } else if c.len() == 0 {
        None
    } else if c[0] == q[0] {
        gap_rest(q.drop_first(), c.drop_first())
    } else {
        gap_first(q, c.drop_first())
    }
}

/// Greedy subsequence score of query `q` in candidate `c` after some
/// query character has already matched: each skipped candidate
/// character costs one.
pub open spec fn gap_rest(q: Seq<char>, c: Seq<char>) -> Option<int>
    decreases c.len(),
{
    if q.len() == 0 {
        Some(0)
    } else if c.len() == 0 {
        None
    } else if c[0] == q[0] {
        gap_rest(q.drop_first(), c.drop_first())
    } else {
        match gap_rest(q, c.drop_first()) {
            Some(g) => Some(g + 1),
            None => None,
        }
    }
}

/// The fuzzy rank of a candidate for a query: a blank query matches
/// everything at score zero; otherwise both sides fold to lower case
/// and the query must be a subsequence of the candidate, scored by the
/// skipped characters between consecutive matches.
pub open spec fn fuzzy_rank(q: Seq<char>, c: Seq<char>) -> Option<int> {
    if trim_spec(q).len() == 0 {
        Some(0)
    } else {
        gap_first(lower_of(q), lower_of(c))
    }
}

/// Subsequence match on already-folded strings: `Some(score)` exactly
/// when every character of `query` appears in `candidate` in order,
/// the score counting the candidate characters skipped between
/// consecutive matched query characters.
pub fn fuzzy_match_folded(query: &str, candidate: &str) -> (r: Option<usize>)
    ensures
        match r {
            Some(g) => gap_first(query@, candidate@) == Some(g as int),
            None => gap_first(query@, candidate@) is None,
        },
{
    let qn = query.unicode_len();
    let cn = candidate.unicode_len();
    let mut qi: usize = 0;
    let mut ci: usize = 0;
    let mut total: usize = 0;
    proof {
        assert(query@.skip(0) =~= query@);
        assert(candidate@.skip(0) =~= candidate@);
    }
    loop
        invariant
            qi <= qn,
            ci <= cn,
            total <= ci,
            qi == 0 ==> total == 0,
            qn == query@.len(),
            cn == candidate@.len(),
            ({
                let cur = if qi == 0 {
                    gap_first(query@.skip(qi as int), candidate@.skip(ci as int))
                } else {
                    match gap_rest(query@.skip(qi as int), candidate@.skip(ci as int)) {
                        Some(g) => Some(g + total),
                        None => None,
                    }
                };
                gap_first(query@, candidate@) == cur
            }),
        decreases cn - ci + qn - qi,
    {
        proof {
            assert(query@.skip(qi as int).len() == qn - qi);
            assert(candidate@.skip(ci as int).len() == cn - ci);
        }
        if qi >= qn {
            return Some(total);
        }
        if ci >= cn {
            return None;
        }
        proof {
            assert(query@.skip(qi as int)[0] == query@[qi as int]);
            assert(candidate@.skip(ci as int)[0] == candidate@[ci as int]);
            assert(query@.skip(qi as int).drop_first() =~= query@.skip(qi as int + 1));
            assert(candidate@.skip(ci as int).drop_first() =~= candidate@.skip(ci as int + 1));
        }
        if candidate.get_char(ci) == query.get_char(qi) {
            qi = qi + 1;
            ci = ci + 1;
        } else {
            if qi > 0 {
                total = total + 1;
            }
            ci = ci + 1;
        }
    }
}

/// Fuzzy match of `query` against `candidate`, case-insensitive: a
/// blank query matches at score zero; otherwise both strings fold to
/// lower case and the folded query must appear in the folded candidate
/// as a subsequence, scored by skipped characters. `None` exactly when
/// there is no such subsequence.
pub fn fuzzy_match(query: &str, candidate: &str) -> (r: Option<usize>)
    ensures
        match r {
            Some(g) => fuzzy_rank(query@, candidate@) == Some(g as int),
            None => fuzzy_rank(query@, candidate@) is None,
        },
{
    let qn = query.unicode_len();
    let (a, b) = trim_range(query, 0, qn);
    proof {
        assert(query@.subrange(0, qn as int) =~= query@);
    }
    if a == b {
        return Some(0);
    }
    let lq = to_lower(query);
    let lc = to_lower(candidate);
    fuzzy_match_folded(lq.as_str(), lc.as_str())
}

} // verus!
