//! Ranking workspace symbols and completion candidates with the skim
//! fuzzy matcher: entries whose names match the query keep their score
//! and stand in descending score order, ties keeping their original
//! order.

use vstd::prelude::*;

use crate::completion::CandidateV;
use crate::completion::CompletionCandidate;
use crate::search::info_views;
use crate::symbol::SymbolInfoV;
use crate::symbol::SymbolInformation;

verus! {

/// The skim fuzzy-match score of a choice string against a pattern,
/// under the matcher's default configuration; a function of the two
/// texts alone.
pub uninterp spec fn skim_score_of(choice: Seq<char>, pattern: Seq<char>) -> Option<int>;

/// Relies on fuzzy_matcher's SkimMatcherV2 under its default
/// configuration: the score depends on the choice and pattern texts
/// alone.
#[verifier::external_body]
fn skim_score(choice: &str, pattern: &str) -> (r: Option<i64>)
    ensures
        match r {
            Some(g) => skim_score_of(choice@, pattern@) == Some(g as int),
            None => skim_score_of(choice@, pattern@) is None,
        },
{
    fuzzy_matcher::FuzzyMatcher::fuzzy_match(
        &fuzzy_matcher::skim::SkimMatcherV2::default(),
        choice,
        pattern,
    )
}

/// Model of a skim-scored symbol.
pub open spec fn iscored_view(p: (i64, SymbolInformation)) -> (int, SymbolInfoV) {
    (p.0 as int, p.1@)
}

/// Models of a sequence of skim-scored symbols.
pub open spec fn iscored_views(s: Seq<(i64, SymbolInformation)>) -> Seq<(int, SymbolInfoV)> {
    s.map_values(|p: (i64, SymbolInformation)| iscored_view(p))
}

/// The symbols whose names skim-match the query, each with its score,
/// in the original order.
pub open spec fn skim_filter(symbols: Seq<SymbolInfoV>, query: Seq<char>) -> Seq<
    (int, SymbolInfoV),
>
    decreases symbols.len(),
{
    if symbols.len() == 0 {
        Seq::empty()
    } else {
        let rest = skim_filter(symbols.drop_first(), query);
        match skim_score_of(symbols[0].name, query) {
            Some(g) => seq![(g, symbols[0])] + rest,
            None => rest,
        }
    }
}

/// Inserts `x` into the descending score-sorted `s`, after every entry
/// whose score is at least `x`'s: a stable insertion.
pub open spec fn insert_desc(x: (int, SymbolInfoV), s: Seq<(int, SymbolInfoV)>) -> Seq<
    (int, SymbolInfoV),
>
    decreases s.len(),
{
    if s.len() == 0 {
        seq![x]
    } else if s.last().0 >= x.0 {
        s.push(x)
    } else {
        insert_desc(x, s.drop_last()).push(s.last())
    }
}

/// Stable insertion sort by descending score, taking the entries of `s`
/// in order into the accumulator `acc`.
pub open spec fn sort_desc_acc(acc: Seq<(int, SymbolInfoV)>, s: Seq<(int, SymbolInfoV)>) -> Seq<
    (int, SymbolInfoV),
>
    decreases s.len(),
{
    if s.len() == 0 {
        acc
    } else {
        sort_desc_acc(insert_desc(s[0], acc), s.drop_first())
    }
}

/// The entries of `s` sorted by descending score; entries of equal
/// score keep their order.
pub open spec fn sort_desc(s: Seq<(int, SymbolInfoV)>) -> Seq<(int, SymbolInfoV)> {
    sort_desc_acc(Seq::empty(), s)
}

/// The symbols of a scored sequence, scores stripped.
pub open spec fn strip_iscores(s: Seq<(int, SymbolInfoV)>) -> Seq<SymbolInfoV> {
    s.map_values(|p: (int, SymbolInfoV)| p.1)
}

/// The skim ranking of the workspace symbols for a query: with an empty
/// query every symbol in order; otherwise the symbols whose names
/// skim-match the query, in descending score order, ties keeping
/// document order.
pub open spec fn rank_spec(symbols: Seq<SymbolInfoV>, query: Seq<char>) -> Seq<SymbolInfoV> {
    if query.len() == 0 {
        symbols
    } else {
        strip_iscores(sort_desc(skim_filter(symbols, query)))
    }
}

proof fn lemma_insert_desc_empty(x: (int, SymbolInfoV), s: Seq<(int, SymbolInfoV)>)
    requires
        s.len() == 0,
    ensures
        insert_desc(x, s) == seq![x],
{
    reveal_with_fuel(insert_desc, 2);
}

proof fn lemma_insert_desc_ge(x: (int, SymbolInfoV), s: Seq<(int, SymbolInfoV)>)
    requires
        s.len() > 0,
        s.last().0 >= x.0,
    ensures
        insert_desc(x, s) == s.push(x),
{
    reveal_with_fuel(insert_desc, 2);
}

proof fn lemma_insert_desc_lt(x: (int, SymbolInfoV), s: Seq<(int, SymbolInfoV)>)
    requires
        s.len() > 0,
        s.last().0 < x.0,
    ensures
        insert_desc(x, s) == insert_desc(x, s.drop_last()).push(s.last()),
{
    reveal_with_fuel(insert_desc, 2);
}

/// Inserts `x` into the descending-sorted position of `out`, after
/// every entry whose score is at least `x`'s.
fn insert_scored_desc(out: &mut Vec<(i64, SymbolInformation)>, x: (i64, SymbolInformation))
    ensures
        iscored_views(final(out)@) == insert_desc(iscored_view(x), iscored_views(old(out)@)),
{
    let ghost xv = iscored_view(x);
    let ghost s = iscored_views(out@);
    let mut j: usize = out.len();
    proof {
        assert(s.subrange(0, s.len() as int) =~= s);
        assert(insert_desc(xv, s) + s.skip(s.len() as int) =~= insert_desc(xv, s));
    }
    loop
        invariant
            j <= out@.len(),
            xv == iscored_view(x),
            s == iscored_views(out@),
            insert_desc(xv, s) == insert_desc(xv, s.subrange(0, j as int)) + s.skip(j as int),
        ensures
            j <= out@.len(),
            s == iscored_views(out@),
            insert_desc(xv, s) == s.subrange(0, j as int).push(xv) + s.skip(j as int),
        decreases j,
    {
        if j == 0 {
            proof {
                lemma_insert_desc_empty(xv, s.subrange(0, 0));
                assert(insert_desc(xv, s.subrange(0, 0)) =~= s.subrange(0, 0).push(xv));
            }
            break;
        }
        let prev = out[j - 1].0;
        proof {
            assert(s[j - 1] == iscored_view(out@[j - 1]));
        }
        if prev >= x.0 {
            proof {
                assert(prev == out@[j - 1].0);
                assert(xv.0 == x.0 as int);
                assert(s.subrange(0, j as int).last() == s[j - 1]);
                lemma_insert_desc_ge(xv, s.subrange(0, j as int));
            }
            break;
        }
        proof {
            assert(prev == out@[j - 1].0);
            assert(xv.0 == x.0 as int);
            assert(s.subrange(0, j as int).last() == s[j - 1]);
            lemma_insert_desc_lt(xv, s.subrange(0, j as int));
            assert(s.subrange(0, j as int).drop_last() =~= s.subrange(0, j - 1));
            assert(insert_desc(xv, s.subrange(0, j - 1)).push(s[j - 1]) + s.skip(j as int)
                =~= insert_desc(xv, s.subrange(0, j - 1)) + s.skip(j - 1));
        }
        j = j - 1;
    }
    out.insert(j, x);
    proof {
        assert(iscored_views(out@) =~= s.subrange(0, j as int).push(xv) + s.skip(j as int));
    }
}

/// Ranks the workspace symbols with the skim matcher: an empty query
/// keeps every symbol in order; otherwise the symbols whose names
/// skim-match the query stand in descending score order, ties keeping
/// document order.
pub fn rank_symbols(symbols: Vec<SymbolInformation>, query: &str) -> (r: Vec<SymbolInformation>)
    ensures
        info_views(r@) == rank_spec(info_views(symbols@), query@),
{
    if query.is_empty() {
        return symbols;
    }
    let ghost s = info_views(symbols@);
    let mut w = symbols;
    let mut scored: Vec<(i64, SymbolInformation)> = Vec::new();
    proof {
        assert(iscored_views(scored@) =~= Seq::<(int, SymbolInfoV)>::empty());
        assert(iscored_views(scored@) + skim_filter(s, query@) =~= skim_filter(s, query@));
        assert(info_views(w@) =~= s.skip(0));
    }
    let ghost mut i: int = 0;
    while w.len() > 0
        invariant
            0 <= i,
            i + w@.len() == s.len(),
            s == info_views(symbols@),
            info_views(w@) =~= s.skip(i),
            skim_filter(s, query@) == iscored_views(scored@) + skim_filter(s.skip(i), query@),
        decreases w@.len(),
    {
        let ghost wv = info_views(w@);
        let x = w.remove(0);
        proof {
            assert(wv[0] == x@);
            assert(s.skip(i)[0] == s[i]);
            assert(x@ == s.skip(i)[0]);
            assert(info_views(w@) =~= wv.drop_first());
            assert(wv.drop_first() =~= s.skip(i + 1));
            assert(s.skip(i).drop_first() =~= s.skip(i + 1));
        }
        match skim_score(x.name.as_str(), query) {
            Some(g) => {
                let ghost prev = scored@;
                scored.push((g, x));
                proof {
                    assert(iscored_views(scored@) =~= iscored_views(prev) + seq![
                        (g as int, x@),
                    ]);
                    assert(iscored_views(prev) + (seq![(g as int, x@)] + skim_filter(
                        s.skip(i + 1),
                        query@,
                    )) =~= iscored_views(scored@) + skim_filter(s.skip(i + 1), query@));
                }
            },
            None => {},
        }
        proof {
            i = i + 1;
        }
    }
    proof {
        assert(s.skip(i).len() == 0);
        assert(skim_filter(s.skip(i), query@) =~= Seq::<(int, SymbolInfoV)>::empty());
        assert(iscored_views(scored@) + Seq::<(int, SymbolInfoV)>::empty() =~= iscored_views(
            scored@,
        ));
    }
    let ghost orig = iscored_views(scored@);
    let mut w2 = scored;
    let mut sorted: Vec<(i64, SymbolInformation)> = Vec::new();
    proof {
        assert(iscored_views(sorted@) =~= Seq::<(int, SymbolInfoV)>::empty());
    }
    while w2.len() > 0
        invariant
            sort_desc(orig) == sort_desc_acc(iscored_views(sorted@), iscored_views(w2@)),
        decreases w2@.len(),
    {
        let ghost w2v = iscored_views(w2@);
        let x = w2.remove(0);
        proof {
            assert(w2v[0] == iscored_view(x));
            assert(iscored_views(w2@) =~= w2v.drop_first());
        }
        insert_scored_desc(&mut sorted, x);
    }
    proof {
        assert(iscored_views(w2@).len() == 0);
    }
    let ghost sortedv = iscored_views(sorted@);
    let mut w3 = sorted;
    let mut plain: Vec<SymbolInformation> = Vec::new();
    proof {
        assert(info_views(plain@) =~= strip_iscores(sortedv).subrange(0, 0));
    }
    let ghost mut k: int = 0;
    while w3.len() > 0
        invariant
            0 <= k,
            k + w3@.len() == sortedv.len(),
            iscored_views(w3@) =~= sortedv.skip(k),
            info_views(plain@) == strip_iscores(sortedv).subrange(0, k),
        decreases w3@.len(),
    {
        let ghost w3v = iscored_views(w3@);
        let x = w3.remove(0);
        proof {
            assert(w3v[0] == iscored_view(x));
            assert(sortedv.skip(k)[0] == sortedv[k]);
            assert(iscored_view(x) == sortedv[k]);
            assert(iscored_views(w3@) =~= w3v.drop_first());
            assert(w3v.drop_first() =~= sortedv.skip(k + 1));
        }
        let ghost prev = plain@;
        let (_score, sym) = x;
        plain.push(sym);
        proof {
            assert(info_views(plain@) =~= info_views(prev) + seq![sym@]);
            assert(strip_iscores(sortedv).subrange(0, k + 1) =~= strip_iscores(sortedv).subrange(
                0,
                k,
            ) + seq![strip_iscores(sortedv)[k]]);
            assert(strip_iscores(sortedv)[k] == sortedv[k].1);
            k = k + 1;
        }
    }
    proof {
        assert(strip_iscores(sortedv).subrange(0, k) =~= strip_iscores(sortedv));
    }
    plain
}

/// Models of a sequence of completion candidates.
pub open spec fn cand_views(s: Seq<CompletionCandidate>) -> Seq<CandidateV> {
    s.map_values(|c: CompletionCandidate| c@)
}

/// Models of a sequence of skim-scored candidates.
pub open spec fn cscored_views(s: Seq<(i64, CompletionCandidate)>) -> Seq<(int, CandidateV)> {
    s.map_values(|p: (i64, CompletionCandidate)| (p.0 as int, p.1@))
}

/// The candidates whose labels skim-match the query, each with its
/// score, in the original order.
pub open spec fn skim_filter_candidates(cands: Seq<CandidateV>, query: Seq<char>) -> Seq<
    (int, CandidateV),
>
    decreases cands.len(),
{
    if cands.len() == 0 {
        Seq::empty()
    } else {
        let rest = skim_filter_candidates(cands.drop_first(), query);
        match skim_score_of(cands[0].label, query) {
            Some(g) => seq![(g, cands[0])] + rest,
            None => rest,
        }
    }
}

/// Inserts `x` into the descending score-sorted `s`, after every entry
/// whose score is at least `x`'s: a stable insertion.
pub open spec fn insert_desc_cand(x: (int, CandidateV), s: Seq<(int, CandidateV)>) -> Seq<
    (int, CandidateV),
>
    decreases s.len(),
{
    if s.len() == 0 {
        seq![x]
    } else if s.last().0 >= x.0 {
        s.push(x)
    } else {
        insert_desc_cand(x, s.drop_last()).push(s.last())
    }
}

/// Stable insertion sort of candidates by descending score.
pub open spec fn sort_desc_cand_acc(acc: Seq<(int, CandidateV)>, s: Seq<(int, CandidateV)>) -> Seq<
    (int, CandidateV),
>
    decreases s.len(),
{
    if s.len() == 0 {
        acc
    } else {
        sort_desc_cand_acc(insert_desc_cand(s[0], acc), s.drop_first())
    }
}

/// The scored candidates sorted by descending score; entries of equal
/// score keep their order.
pub open spec fn sort_desc_cand(s: Seq<(int, CandidateV)>) -> Seq<(int, CandidateV)> {
    sort_desc_cand_acc(Seq::empty(), s)
}

/// The candidates of a scored sequence, scores stripped.
pub open spec fn strip_cand_scores(s: Seq<(int, CandidateV)>) -> Seq<CandidateV> {
    s.map_values(|p: (int, CandidateV)| p.1)
}

/// The skim ranking of the completion candidates for a query: with an
/// empty query every candidate in order; otherwise the candidates whose
/// labels skim-match the query, in descending score order, ties keeping
/// note order.
pub open spec fn rank_candidates_spec(cands: Seq<CandidateV>, query: Seq<char>) -> Seq<
    CandidateV,
> {
    if query.len() == 0 {
        cands
    } else {
        strip_cand_scores(sort_desc_cand(skim_filter_candidates(cands, query)))
    }
}

proof fn lemma_insert_desc_cand_empty(x: (int, CandidateV), s: Seq<(int, CandidateV)>)
    requires
        s.len() == 0,
    ensures
        insert_desc_cand(x, s) == seq![x],
{
    reveal_with_fuel(insert_desc_cand, 2);
}

proof fn lemma_insert_desc_cand_ge(x: (int, CandidateV), s: Seq<(int, CandidateV)>)
    requires
        s.len() > 0,
        s.last().0 >= x.0,
    ensures
        insert_desc_cand(x, s) == s.push(x),
{
    reveal_with_fuel(insert_desc_cand, 2);
}

proof fn lemma_insert_desc_cand_lt(x: (int, CandidateV), s: Seq<(int, CandidateV)>)
    requires
        s.len() > 0,
        s.last().0 < x.0,
    ensures
        insert_desc_cand(x, s) == insert_desc_cand(x, s.drop_last()).push(s.last()),
{
    reveal_with_fuel(insert_desc_cand, 2);
}

/// Inserts `x` into the descending-sorted position of `out`, after
/// every entry whose score is at least `x`'s.
fn insert_cand_desc(out: &mut Vec<(i64, CompletionCandidate)>, x: (i64, CompletionCandidate))
    ensures
        (cscored_views(final(out)@) == insert_desc_cand(
            (x.0 as int, x.1@),
            cscored_views(old(out)@),
        )),
{
    let ghost xv: (int, CandidateV) = (x.0 as int, x.1@);
    let ghost s = cscored_views(out@);
    let mut j: usize = out.len();
    proof {
        assert(s.subrange(0, s.len() as int) =~= s);
        assert(insert_desc_cand(xv, s) + s.skip(s.len() as int) =~= insert_desc_cand(xv, s));
    }
    loop
        invariant
            j <= out@.len(),
            (xv == ((x.0 as int, x.1@))),
            s == cscored_views(out@),
            insert_desc_cand(xv, s) == insert_desc_cand(xv, s.subrange(0, j as int)) + s.skip(
                j as int,
            ),
        ensures
            j <= out@.len(),
            s == cscored_views(out@),
            insert_desc_cand(xv, s) == s.subrange(0, j as int).push(xv) + s.skip(j as int),
        decreases j,
    {
        if j == 0 {
            proof {
                lemma_insert_desc_cand_empty(xv, s.subrange(0, 0));
                assert(insert_desc_cand(xv, s.subrange(0, 0)) =~= s.subrange(0, 0).push(xv));
            }
            break;
        }
        let prev = out[j - 1].0;
        proof {
            assert(s[j - 1] == (out@[j - 1].0 as int, out@[j - 1].1@));
        }
        if prev >= x.0 {
            proof {
                assert(prev == out@[j - 1].0);
                assert(s.subrange(0, j as int).last() == s[j - 1]);
                lemma_insert_desc_cand_ge(xv, s.subrange(0, j as int));
            }
            break;
        }
        proof {
            assert(prev == out@[j - 1].0);
            assert(s.subrange(0, j as int).last() == s[j - 1]);
            lemma_insert_desc_cand_lt(xv, s.subrange(0, j as int));
            assert(s.subrange(0, j as int).drop_last() =~= s.subrange(0, j - 1));
            assert(insert_desc_cand(xv, s.subrange(0, j - 1)).push(s[j - 1]) + s.skip(j as int)
                =~= insert_desc_cand(xv, s.subrange(0, j - 1)) + s.skip(j - 1));
        }
        j = j - 1;
    }
    out.insert(j, x);
    proof {
        assert(cscored_views(out@) =~= s.subrange(0, j as int).push(xv) + s.skip(j as int));
    }
}

/// Ranks the completion candidates with the skim matcher: an empty
/// query keeps every candidate in order; otherwise the candidates
/// whose labels skim-match the query stand in descending score order,
/// ties keeping note order.
pub fn rank_candidates(cands: Vec<CompletionCandidate>, query: &str) -> (r: Vec<
    CompletionCandidate,
>)
    ensures
        cand_views(r@) == rank_candidates_spec(cand_views(cands@), query@),
{
    if query.is_empty() {
        return cands;
    }
    let ghost s = cand_views(cands@);
    let mut w = cands;
    let mut scored: Vec<(i64, CompletionCandidate)> = Vec::new();
    proof {
        assert(cscored_views(scored@) =~= Seq::<(int, CandidateV)>::empty());
        assert(cscored_views(scored@) + skim_filter_candidates(s, query@) =~= skim_filter_candidates(
            s,
            query@,
        ));
        assert(cand_views(w@) =~= s.skip(0));
    }
    let ghost mut i: int = 0;
    while w.len() > 0
        invariant
            0 <= i,
            i + w@.len() == s.len(),
            s == cand_views(cands@),
            cand_views(w@) =~= s.skip(i),
            skim_filter_candidates(s, query@) == cscored_views(scored@) + skim_filter_candidates(
                s.skip(i),
                query@,
            ),
        decreases w@.len(),
    {
        let ghost wv = cand_views(w@);
        let x = w.remove(0);
        proof {
            assert(wv[0] == x@);
            assert(s.skip(i)[0] == s[i]);
            assert(x@ == s.skip(i)[0]);
            assert(cand_views(w@) =~= wv.drop_first());
            assert(wv.drop_first() =~= s.skip(i + 1));
            assert(s.skip(i).drop_first() =~= s.skip(i + 1));
        }
        match skim_score(x.label.as_str(), query) {
            Some(g) => {
                let ghost prev = scored@;
                scored.push((g, x));
                proof {
                    assert(cscored_views(scored@) =~= cscored_views(prev) + seq![
                        (g as int, x@),
                    ]);
                    assert(cscored_views(prev) + (seq![(g as int, x@)] + skim_filter_candidates(
                        s.skip(i + 1),
                        query@,
                    )) =~= cscored_views(scored@) + skim_filter_candidates(s.skip(i + 1), query@));
                }
            },
            None => {},
        }
        proof {
            i = i + 1;
        }
    }
    proof {
        assert(s.skip(i).len() == 0);
        assert(skim_filter_candidates(s.skip(i), query@) =~= Seq::<(int, CandidateV)>::empty());
        assert(cscored_views(scored@) + Seq::<(int, CandidateV)>::empty() =~= cscored_views(
            scored@,
        ));
    }
    let ghost orig = cscored_views(scored@);
    let mut w2 = scored;
    let mut sorted: Vec<(i64, CompletionCandidate)> = Vec::new();
    proof {
        assert(cscored_views(sorted@) =~= Seq::<(int, CandidateV)>::empty());
    }
    while w2.len() > 0
        invariant
            sort_desc_cand(orig) == sort_desc_cand_acc(cscored_views(sorted@), cscored_views(w2@)),
        decreases w2@.len(),
    {
        let ghost w2v = cscored_views(w2@);
        let x = w2.remove(0);
        proof {
            assert(w2v[0] == ((x.0 as int, x.1@)));
            assert(cscored_views(w2@) =~= w2v.drop_first());
        }
        insert_cand_desc(&mut sorted, x);
    }
    proof {
        assert(cscored_views(w2@).len() == 0);
    }
    let ghost sortedv = cscored_views(sorted@);
    let mut w3 = sorted;
    let mut plain: Vec<CompletionCandidate> = Vec::new();
    proof {
        assert(cand_views(plain@) =~= strip_cand_scores(sortedv).subrange(0, 0));
    }
    let ghost mut k: int = 0;
    while w3.len() > 0
        invariant
            0 <= k,
            k + w3@.len() == sortedv.len(),
            cscored_views(w3@) =~= sortedv.skip(k),
            cand_views(plain@) == strip_cand_scores(sortedv).subrange(0, k),
        decreases w3@.len(),
    {
        let ghost w3v = cscored_views(w3@);
        let x = w3.remove(0);
        proof {
            assert(w3v[0] == ((x.0 as int, x.1@)));
            assert(sortedv.skip(k)[0] == sortedv[k]);
            assert(((x.0 as int, x.1@)) == sortedv[k]);
            assert(cscored_views(w3@) =~= w3v.drop_first());
            assert(w3v.drop_first() =~= sortedv.skip(k + 1));
        }
        let ghost prev = plain@;
        let (_score, cand) = x;
        plain.push(cand);
        proof {
            assert(cand_views(plain@) =~= cand_views(prev) + seq![cand@]);
            assert(strip_cand_scores(sortedv).subrange(0, k + 1) =~= strip_cand_scores(
                sortedv,
            ).subrange(0, k) + seq![strip_cand_scores(sortedv)[k]]);
            assert(strip_cand_scores(sortedv)[k] == sortedv[k].1);
            k = k + 1;
        }
    }
    proof {
        assert(strip_cand_scores(sortedv).subrange(0, k) =~= strip_cand_scores(sortedv));
    }
    plain
}

} // verus!
