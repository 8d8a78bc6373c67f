//! Workspace-wide symbol search: fuzzy filtering, stable ranking by
//! score, and deduplication by (name, document, line).

use vstd::prelude::*;

use crate::fuzzy::fuzzy_match;
use crate::fuzzy::fuzzy_rank;
use crate::symbol::SymbolInfoV;
use crate::symbol::SymbolInformation;
use crate::wikilink::trim_spec;
use crate::wikilink::trim_range;

verus! {

/// Model of a scored symbol.
pub open spec fn scored_view(p: (usize, SymbolInformation)) -> (int, SymbolInfoV) {
    (p.0 as int, p.1@)
}

/// Models of a sequence of scored symbols.
pub open spec fn scored_views(s: Seq<(usize, SymbolInformation)>) -> Seq<(int, SymbolInfoV)> {
    s.map_values(|p: (usize, SymbolInformation)| scored_view(p))
}

/// Models of a sequence of symbols.
pub open spec fn info_views(s: Seq<SymbolInformation>) -> Seq<SymbolInfoV> {
    s.map_values(|x: SymbolInformation| x@)
}

/// Inserts `x` into the score-sorted `s`, after every entry whose score
/// is at most `x`'s: a stable insertion.
pub open spec fn insert_sorted(x: (int, SymbolInfoV), s: Seq<(int, SymbolInfoV)>) -> Seq<
    (int, SymbolInfoV),
>
    decreases s.len(),
{
    if s.len() == 0 {
        seq![x]
    } else if s.last().0 <= x.0 {
        s.push(x)
    } else {
        insert_sorted(x, s.drop_last()).push(s.last())
    }
}

/// Stable insertion sort by ascending score, taking the entries of `s`
/// in order into the accumulator `acc`.
pub open spec fn sort_acc(acc: Seq<(int, SymbolInfoV)>, s: Seq<(int, SymbolInfoV)>) -> Seq<
    (int, SymbolInfoV),
>
    decreases s.len(),
{
    if s.len() == 0 {
        acc
    } else {
        sort_acc(insert_sorted(s[0], acc), s.drop_first())
    }
}

/// The entries of `s` sorted by ascending score; entries of equal score
/// keep their order.
pub open spec fn sort_by_score(s: Seq<(int, SymbolInfoV)>) -> Seq<(int, SymbolInfoV)> {
    sort_acc(Seq::empty(), s)
}

/// Ascending by score.
pub open spec fn sorted_by_score(s: Seq<(int, SymbolInfoV)>) -> bool {
    forall|i: int, j: int| 0 <= i <= j < s.len() ==> (#[trigger] s[i]).0 <= (#[trigger] s[j]).0
}

proof fn lemma_insert_step_le(x: (int, SymbolInfoV), s: Seq<(int, SymbolInfoV)>)
    requires
        s.len() > 0,
        s.last().0 <= x.0,
    ensures
        insert_sorted(x, s) == s.push(x),
{
    reveal_with_fuel(insert_sorted, 2);
}

proof fn lemma_insert_step_gt(x: (int, SymbolInfoV), s: Seq<(int, SymbolInfoV)>)
    requires
        s.len() > 0,
        s.last().0 > x.0,
    ensures
        insert_sorted(x, s) == insert_sorted(x, s.drop_last()).push(s.last()),
{
    reveal_with_fuel(insert_sorted, 2);
}

proof fn lemma_insert_step_empty(x: (int, SymbolInfoV), s: Seq<(int, SymbolInfoV)>)
    requires
        s.len() == 0,
    ensures
        insert_sorted(x, s) == seq![x],
{
    reveal_with_fuel(insert_sorted, 2);
}

/// Inserts `x` into the score-sorted position of `out`, after every
/// entry whose score is at most `x`'s.
fn insert_scored(out: &mut Vec<(usize, SymbolInformation)>, x: (usize, SymbolInformation))
    ensures
        scored_views(final(out)@) == insert_sorted(scored_view(x), scored_views(old(out)@)),
{
    let ghost xv = scored_view(x);
    let ghost s = scored_views(out@);
    let mut j: usize = out.len();
    proof {
        assert(s.subrange(0, s.len() as int) =~= s);
        assert(insert_sorted(xv, s) + s.skip(s.len() as int) =~= insert_sorted(xv, s));
    }
    loop
        invariant
            j <= out@.len(),
            xv == scored_view(x),
            s == scored_views(out@),
            insert_sorted(xv, s) == insert_sorted(xv, s.subrange(0, j as int)) + s.skip(j as int),
        ensures
            j <= out@.len(),
            s == scored_views(out@),
            insert_sorted(xv, s) == s.subrange(0, j as int).push(xv) + s.skip(j as int),
        decreases j,
    {
        if j == 0 {
            proof {
                lemma_insert_step_empty(xv, s.subrange(0, 0));
                assert(insert_sorted(xv, s.subrange(0, 0)) =~= s.subrange(0, 0).push(xv));
            }
            break;
        }
        let prev = out[j - 1].0;
        proof {
            assert(s[j - 1] == scored_view(out@[j - 1]));
        }
        if prev <= x.0 {
            proof {
                assert(prev == out@[j - 1].0);
                assert(xv.0 == x.0 as int);
                assert(s[j - 1].0 == out@[j - 1].0 as int);
                assert(s.subrange(0, j as int).last() == s[j - 1]);
                lemma_insert_step_le(xv, s.subrange(0, j as int));
            }
            break;
        }
        proof {
            assert(prev == out@[j - 1].0);
            assert(xv.0 == x.0 as int);
            assert(s[j - 1].0 == out@[j - 1].0 as int);
            assert(s.subrange(0, j as int).last() == s[j - 1]);
            lemma_insert_step_gt(xv, s.subrange(0, j as int));
            assert(s.subrange(0, j as int).drop_last() =~= s.subrange(0, j - 1));
            assert(insert_sorted(xv, s.subrange(0, j - 1)).push(s[j - 1]) + s.skip(j as int)
                =~= insert_sorted(xv, s.subrange(0, j - 1)) + s.skip(j - 1));
        }
        j = j - 1;
    }
    out.insert(j, x);
    proof {
        assert(scored_views(out@) =~= s.subrange(0, j as int).push(xv) + s.skip(j as int));
    }
}

/// Sorts scored symbols by ascending score with a stable insertion
/// sort: entries of equal score keep their relative order.
pub fn sort_scored(v: Vec<(usize, SymbolInformation)>) -> (r: Vec<(usize, SymbolInformation)>)
    ensures
        scored_views(r@) == sort_by_score(scored_views(v@)),
{
    let ghost orig = scored_views(v@);
    let mut w = v;
    let mut out: Vec<(usize, SymbolInformation)> = Vec::new();
    proof {
        assert(scored_views(out@) =~= Seq::<(int, SymbolInfoV)>::empty());
    }
    while w.len() > 0
        invariant
            sort_by_score(orig) == sort_acc(scored_views(out@), scored_views(w@)),
        decreases w@.len(),
    {
        let ghost wv = scored_views(w@);
        let x = w.remove(0);
        proof {
            assert(wv[0] == scored_view(x));
            assert(scored_views(w@) =~= wv.drop_first());
        }
        insert_scored(&mut out, x);
    }
    proof {
        assert(scored_views(w@).len() == 0);
    }
    out
}

/// The deduplication key of a workspace symbol: its name, its document,
/// and its starting line.
pub open spec fn key_of(s: SymbolInfoV) -> (Seq<char>, Seq<char>, int) {
    (s.name, s.uri, s.range.start.line as int)
}

/// Removes every entry sharing its key with an earlier entry, keeping
/// first occurrences in order.
pub open spec fn dedup_spec(s: Seq<SymbolInfoV>) -> Seq<SymbolInfoV>
    decreases s.len(),
{
    if s.len() == 0 {
        Seq::empty()
    } else {
        let d = dedup_spec(s.drop_last());
        if exists|j: int| 0 <= j < s.len() - 1 && key_of(#[trigger] s[j]) == key_of(s.last()) {
            d
        } else {
            d.push(s.last())
        }
    }
}

fn same_key(a: &SymbolInformation, b: &SymbolInformation) -> (r: bool)
    ensures
        r == (key_of(a@) == key_of(b@)),
{
    let names = a.name.eq(&b.name);
    let uris = a.uri.eq(&b.uri);
    names && uris && a.range.start.line == b.range.start.line
}

/// Removes every symbol sharing (name, document, starting line) with an
/// earlier one, keeping the first occurrence of each key in order.
#[verifier::rlimit(60)]
pub fn dedup_symbols(v: Vec<SymbolInformation>) -> (r: Vec<SymbolInformation>)
    ensures
        info_views(r@) == dedup_spec(info_views(v@)),
{
    let ghost s = info_views(v@);
    let mut w = v;
    let mut out: Vec<SymbolInformation> = Vec::new();
    let ghost mut i: int = 0;
    proof {
        assert(info_views(out@) =~= Seq::<SymbolInfoV>::empty());
        assert(s.subrange(0, 0) =~= Seq::<SymbolInfoV>::empty());
    }
    while w.len() > 0
        invariant
            0 <= i,
            i + w@.len() == s.len(),
            s == info_views(v@),
            info_views(w@) =~= s.skip(i),
            info_views(out@) == dedup_spec(s.subrange(0, i)),
            forall|j: int| #![trigger s[j]]
                0 <= j < i ==> exists|m: int|
                    0 <= m < info_views(out@).len() && key_of(#[trigger] info_views(out@)[m])
                        == key_of(s[j]),
            forall|m: int| #![trigger info_views(out@)[m]]
                0 <= m < info_views(out@).len() ==> exists|j: int|
                    0 <= j < i && key_of(#[trigger] s[j]) == key_of(info_views(out@)[m]),
        decreases w@.len(),
    {
        let ghost wv = info_views(w@);
        let x = w.remove(0);
        proof {
            assert(wv[0] == x@);
            assert(s.skip(i)[0] == s[i]);
            assert(x@ == s[i]);
            assert(info_views(w@) =~= wv.drop_first());
            assert(wv.drop_first() =~= s.skip(i + 1));
        }
        let mut m: usize = 0;
        let mut found: bool = false;
        while m < out.len() && !found
            invariant
                m <= out@.len(),
                found ==> exists|mm: int|
                    0 <= mm < info_views(out@).len() && key_of(
                        #[trigger] info_views(out@)[mm],
                    ) == key_of(x@),
                !found ==> forall|mm: int|
                    0 <= mm < m ==> key_of(#[trigger] info_views(out@)[mm]) != key_of(x@),
            decreases out@.len() - m,
        {
            proof {
                assert(info_views(out@)[m as int] == out@[m as int]@);
            }
            if same_key(&out[m], &x) {
                found = true;
            }
            m = m + 1;
        }
        proof {
            assert(s.subrange(0, i + 1).drop_last() =~= s.subrange(0, i));
            assert(s.subrange(0, i + 1).last() == s[i]);
        }
        if found {
            proof {
                let mm = choose|mm: int|
                    0 <= mm < info_views(out@).len() && key_of(
                        #[trigger] info_views(out@)[mm],
                    ) == key_of(x@);
                let j = choose|j: int|
                    0 <= j < i && key_of(#[trigger] s[j]) == key_of(info_views(out@)[mm]);
                assert(0 <= j < i && key_of(s[j]) == key_of(s[i]));
                assert(exists|j2: int|
                    0 <= j2 < s.subrange(0, i + 1).len() - 1 && key_of(
                        #[trigger] s.subrange(0, i + 1)[j2],
                    ) == key_of(s.subrange(0, i + 1).last())) by {
                    assert(s.subrange(0, i + 1)[j] == s[j]);
                }
            }
        } else {
            let ghost prev = out@;
            proof {
                assert forall|j2: int|
                    0 <= j2 < s.subrange(0, i + 1).len() - 1 implies key_of(
                    #[trigger] s.subrange(0, i + 1)[j2],
                ) != key_of(s.subrange(0, i + 1).last()) by {
                    assert(s.subrange(0, i + 1)[j2] == s[j2]);
                    if key_of(s[j2]) == key_of(s[i]) {
                        let mm = choose|mm: int|
                            0 <= mm < info_views(prev).len() && key_of(
                                #[trigger] info_views(prev)[mm],
                            ) == key_of(s[j2]);
                        assert(key_of(info_views(prev)[mm]) != key_of(x@));
                    }
                }
            }
            out.push(x);
            proof {
                assert(info_views(out@) =~= info_views(prev) + seq![x@]);
                assert forall|j2: int| #![trigger s[j2]] 0 <= j2 < i + 1 implies exists|mm: int|
                    0 <= mm < info_views(out@).len() && key_of(#[trigger] info_views(out@)[mm])
                        == key_of(s[j2]) by {
                    if j2 < i {
                        let mm = choose|mm: int|
                            0 <= mm < info_views(prev).len() && key_of(
                                #[trigger] info_views(prev)[mm],
                            ) == key_of(s[j2]);
                        assert(info_views(out@)[mm] == info_views(prev)[mm]);
                    } else {
                        assert(info_views(out@)[info_views(out@).len() - 1] == x@);
                    }
                }
                assert forall|mm: int|
                    #![trigger info_views(out@)[mm]]
                    0 <= mm < info_views(out@).len() implies exists|j2: int|
                    0 <= j2 < i + 1 && key_of(#[trigger] s[j2]) == key_of(
                        info_views(out@)[mm],
                    ) by {
                    if mm < info_views(prev).len() {
                        assert(info_views(out@)[mm] == info_views(prev)[mm]);
                        let j2 = choose|j2: int|
                            0 <= j2 < i && key_of(#[trigger] s[j2]) == key_of(
                                info_views(prev)[mm],
                            );
                        assert(key_of(s[j2]) == key_of(info_views(out@)[mm]));
                    } else {
                        assert(info_views(out@)[mm] == x@);
                        assert(key_of(s[i]) == key_of(info_views(out@)[mm]));
                    }
                }
            }
        }
        proof {
            i = i + 1;
        }
    }
    proof {
        assert(s.skip(i).len() == 0);
        assert(i == s.len());
        assert(s.subrange(0, i) =~= s);
    }
    out
}

/// The symbols of `symbols` that fuzzily match `query`, each with its
/// score, in the original order.
pub open spec fn score_filter(symbols: Seq<SymbolInfoV>, query: Seq<char>) -> Seq<
    (int, SymbolInfoV),
>
    decreases symbols.len(),
{
    if symbols.len() == 0 {
        Seq::empty()
    } else {
        let rest = score_filter(symbols.drop_first(), query);
        match fuzzy_rank(query, symbols[0].name) {
            Some(g) => seq![(g, symbols[0])] + rest,
            None => rest,
        }
    }
}

/// The symbols of a scored sequence, scores stripped.
pub open spec fn strip_scores(s: Seq<(int, SymbolInfoV)>) -> Seq<SymbolInfoV> {
    s.map_values(|p: (int, SymbolInfoV)| p.1)
}

/// The workspace search result for `symbols` and `query`: with a blank
/// query every symbol in order; otherwise the fuzzily matching symbols
/// sorted by ascending score, ties in document order; in both cases
/// deduplicated by (name, document, starting line), first occurrences
/// kept.
pub open spec fn search_spec(symbols: Seq<SymbolInfoV>, query: Seq<char>) -> Seq<SymbolInfoV> {
    if trim_spec(query).len() == 0 {
        dedup_spec(symbols)
    } else {
        dedup_spec(strip_scores(sort_by_score(score_filter(symbols, query))))
    }
}

/// Searches the flattened workspace symbols: a blank query keeps every
/// symbol; otherwise symbols whose names fuzzily match the query are
/// ranked by ascending score, ties keeping document order; the result
/// is deduplicated by (name, document, starting line).
pub fn workspace_search(symbols: Vec<SymbolInformation>, query: &str) -> (r: Vec<
    SymbolInformation,
>)
    ensures
        info_views(r@) == search_spec(info_views(symbols@), query@),
{
    let qn = query.unicode_len();
    let (a, b) = trim_range(query, 0, qn);
    proof {
        assert(query@.subrange(0, qn as int) =~= query@);
    }
    if a == b {
        return dedup_symbols(symbols);
    }
    let ghost s = info_views(symbols@);
    let mut w = symbols;
    let mut scored: Vec<(usize, SymbolInformation)> = Vec::new();
    proof {
        assert(scored_views(scored@) =~= Seq::<(int, SymbolInfoV)>::empty());
        assert(scored_views(scored@) + score_filter(s, query@) =~= score_filter(s, query@));
        assert(info_views(w@) =~= s.skip(0));
    }
    let ghost mut i: int = 0;
    while w.len() > 0
        invariant
            0 <= i,
            i + w@.len() == s.len(),
            s == info_views(symbols@),
            info_views(w@) =~= s.skip(i),
            score_filter(s, query@) == scored_views(scored@) + score_filter(
                s.skip(i),
                query@,
            ),
        decreases w@.len(),
    {
        let ghost wv = info_views(w@);
        let x = w.remove(0);
        proof {
            assert(wv[0] == x@);
            assert(s.skip(i)[0] == s[i]);
            assert(x@ == s.skip(i)[0]);
            assert(info_views(w@) =~= wv.drop_first());
            assert(wv.drop_first() =~= s.skip(i + 1));
            assert(s.skip(i).drop_first() =~= s.skip(i + 1));
        }
        match fuzzy_match(query, x.name.as_str()) {
            Some(g) => {
                let ghost prev = scored@;
                scored.push((g, x));
                proof {
                    assert(scored_views(scored@) =~= scored_views(prev) + seq![
                        (g as int, x@),
                    ]);
                    assert(scored_views(prev) + (seq![(g as int, x@)] + score_filter(
                        s.skip(i + 1),
                        query@,
                    )) =~= scored_views(scored@) + score_filter(s.skip(i + 1), query@));
                }
            },
            None => {},
        }
        proof {
            i = i + 1;
        }
    }
    proof {
        assert(s.skip(i).len() == 0);
        assert(score_filter(s.skip(i), query@) =~= Seq::<(int, SymbolInfoV)>::empty());
        assert(scored_views(scored@) + Seq::<(int, SymbolInfoV)>::empty() =~= scored_views(
            scored@,
        ));
    }
    let sorted = sort_scored(scored);
    let ghost sortedv = scored_views(sorted@);
    let mut w2 = sorted;
    let mut plain: Vec<SymbolInformation> = Vec::new();
    proof {
        assert(info_views(plain@) =~= strip_scores(sortedv).subrange(0, 0));
    }
    let ghost mut k: int = 0;
    while w2.len() > 0
        invariant
            0 <= k,
            k + w2@.len() == sortedv.len(),
            scored_views(w2@) =~= sortedv.skip(k),
            info_views(plain@) == strip_scores(sortedv).subrange(0, k),
        decreases w2@.len(),
    {
        let ghost w2v = scored_views(w2@);
        let x = w2.remove(0);
        proof {
            assert(w2v[0] == scored_view(x));
            assert(sortedv.skip(k)[0] == sortedv[k]);
            assert(scored_view(x) == sortedv[k]);
            assert(scored_views(w2@) =~= w2v.drop_first());
            assert(w2v.drop_first() =~= sortedv.skip(k + 1));
        }
        let ghost prev = plain@;
        let (_score, sym) = x;
        plain.push(sym);
        proof {
            assert(info_views(plain@) =~= info_views(prev) + seq![sym@]);
            assert(strip_scores(sortedv).subrange(0, k + 1) =~= strip_scores(
                sortedv,
            ).subrange(0, k) + seq![strip_scores(sortedv)[k]]);
            assert(strip_scores(sortedv)[k] == sortedv[k].1);
        }
        proof {
            k = k + 1;
        }
    }
    proof {
        assert(strip_scores(sortedv).subrange(0, k) =~= strip_scores(sortedv));
    }
    dedup_symbols(plain)
}

/// Workspace search determinism law: the search contract pins its
/// result to a function of the symbol set and the query alone, so two
/// results obtained for equal inputs are equal, however many times the
/// search runs.
pub proof fn lemma_search_deterministic(
    symbols: Seq<SymbolInfoV>,
    query: Seq<char>,
    r1: Seq<SymbolInfoV>,
    r2: Seq<SymbolInfoV>,
)
    requires
        r1 == search_spec(symbols, query),
        r2 == search_spec(symbols, query),
    ensures
        r1 == r2,
{
}

proof fn lemma_insert_sorted_elems(x: (int, SymbolInfoV), s: Seq<(int, SymbolInfoV)>)
    ensures
        insert_sorted(x, s).len() == s.len() + 1,
        forall|i: int|
            0 <= i < insert_sorted(x, s).len() ==> (#[trigger] insert_sorted(x, s)[i]) == x
                || s.contains(insert_sorted(x, s)[i]),
    decreases s.len(),
{
    reveal_with_fuel(insert_sorted, 2);
    let r = insert_sorted(x, s);
    if s.len() == 0 {
    } else if s.last().0 <= x.0 {
        assert forall|i: int| 0 <= i < r.len() implies (#[trigger] r[i]) == x || s.contains(
            r[i],
        ) by {
            if i < s.len() {
                assert(r[i] == s[i]);
            }
        }
    } else {
        lemma_insert_sorted_elems(x, s.drop_last());
        let rr = insert_sorted(x, s.drop_last());
        assert forall|i: int| 0 <= i < r.len() implies (#[trigger] r[i]) == x || s.contains(
            r[i],
        ) by {
            if i < rr.len() {
                assert(r[i] == rr[i]);
                if rr[i] != x {
                    let m = choose|m: int|
                        0 <= m < s.drop_last().len() && s.drop_last()[m] == rr[i];
                    assert(s[m] == rr[i]);
                }
            } else {
                assert(r[i] == s.last());
                assert(s[s.len() - 1] == s.last());
            }
        }
    }
}

proof fn lemma_insert_sorted_sorted(x: (int, SymbolInfoV), s: Seq<(int, SymbolInfoV)>)
    requires
        sorted_by_score(s),
    ensures
        sorted_by_score(insert_sorted(x, s)),
    decreases s.len(),
{
    reveal_with_fuel(insert_sorted, 2);
    let r = insert_sorted(x, s);
    if s.len() == 0 {
    } else if s.last().0 <= x.0 {
        assert forall|i: int, j: int| 0 <= i <= j < r.len() implies (#[trigger] r[i]).0 <= (
        #[trigger] r[j]).0 by {
            if j < s.len() {
                assert(r[i] == s[i] && r[j] == s[j]);
            } else {
                assert(r[j] == x);
                if i < s.len() {
                    assert(r[i] == s[i]);
                    assert(s[i].0 <= s[s.len() - 1].0);
                }
            }
        }
    } else {
        assert(sorted_by_score(s.drop_last())) by {
            assert forall|i: int, j: int| 0 <= i <= j < s.drop_last().len() implies (
            #[trigger] s.drop_last()[i]).0 <= (#[trigger] s.drop_last()[j]).0 by {
                assert(s.drop_last()[i] == s[i] && s.drop_last()[j] == s[j]);
            }
        }
        lemma_insert_sorted_sorted(x, s.drop_last());
        lemma_insert_sorted_elems(x, s.drop_last());
        let rr = insert_sorted(x, s.drop_last());
        assert forall|i: int, j: int| 0 <= i <= j < r.len() implies (#[trigger] r[i]).0 <= (
        #[trigger] r[j]).0 by {
            if j < rr.len() {
                assert(r[i] == rr[i] && r[j] == rr[j]);
            } else {
                assert(r[j] == s.last());
                if i < rr.len() {
                    assert(r[i] == rr[i]);
                    if rr[i] == x {
                    } else {
                        let m = choose|m: int|
                            0 <= m < s.drop_last().len() && s.drop_last()[m] == rr[i];
                        assert(s.drop_last()[m] == s[m]);
                        assert(s[m].0 <= s[s.len() - 1].0);
                    }
                }
            }
        }
    }
}

proof fn lemma_sort_acc_sorted(acc: Seq<(int, SymbolInfoV)>, s: Seq<(int, SymbolInfoV)>)
    requires
        sorted_by_score(acc),
    ensures
        sorted_by_score(sort_acc(acc, s)),
    decreases s.len(),
{
    if s.len() > 0 {
        lemma_insert_sorted_sorted(s[0], acc);
        lemma_sort_acc_sorted(insert_sorted(s[0], acc), s.drop_first());
    }
}

/// Ranking order law: the sorted scored sequence stands in ascending
/// score order.
pub proof fn lemma_sort_by_score_sorted(s: Seq<(int, SymbolInfoV)>)
    ensures
        sorted_by_score(sort_by_score(s)),
{
    lemma_sort_acc_sorted(Seq::empty(), s);
}

} // verus!
