use notemancy_lsp::fuzzy::fuzzy_match;
use notemancy_lsp::fuzzy::fuzzy_match_folded;
use notemancy_lsp::outline::SymbolKind;
use notemancy_lsp::position::Position;
use notemancy_lsp::position::Range;
use notemancy_lsp::completion::CompletionCandidate;
use notemancy_lsp::rank::rank_candidates;
use notemancy_lsp::rank::rank_symbols;
use notemancy_lsp::search::workspace_search;
use notemancy_lsp::symbol::SymbolInformation;

fn sym(name: &str, uri: &str, line: usize) -> SymbolInformation {
    let p0 = Position { line, character: 0 };
    let p1 = Position { line, character: 10 };
    SymbolInformation {
        name: name.to_string(),
        kind: SymbolKind::Namespace,
        uri: uri.to_string(),
        range: Range { start: p0, end: p1 },
        container_name: None,
    }
}

#[test]
fn fuzzy_subsequence_matches() {
    assert_eq!(fuzzy_match("hd", "Heading"), Some(2));
    assert_eq!(fuzzy_match("xz", "Heading"), None);
}

#[test]
fn fuzzy_match_is_case_insensitive() {
    assert_eq!(fuzzy_match("HD", "heading"), Some(2));
    assert_eq!(fuzzy_match("hd", "HEADING"), Some(2));
}

#[test]
fn blank_query_matches_everything_at_zero() {
    assert_eq!(fuzzy_match("", "anything"), Some(0));
    assert_eq!(fuzzy_match("   ", "anything"), Some(0));
}

#[test]
fn folded_match_counts_gaps_between_matches() {
    assert_eq!(fuzzy_match_folded("ab", "ab"), Some(0));
    assert_eq!(fuzzy_match_folded("ab", "axb"), Some(1));
    assert_eq!(fuzzy_match_folded("ab", "axxb"), Some(2));
    assert_eq!(fuzzy_match_folded("ab", "xxab"), Some(0));
    assert_eq!(fuzzy_match_folded("ab", "ba"), None);
}

#[test]
fn search_ranks_by_ascending_score() {
    let symbols = vec![
        sym("axxb", "u1", 0),
        sym("ab", "u2", 1),
        sym("axb", "u3", 2),
        sym("ba", "u4", 3),
    ];
    let result = workspace_search(symbols, "ab");
    let names: Vec<&str> = result.iter().map(|s| s.name.as_str()).collect();
    assert_eq!(names, vec!["ab", "axb", "axxb"]);
}

#[test]
fn search_with_blank_query_keeps_everything() {
    let symbols = vec![sym("one", "u1", 0), sym("two", "u1", 1)];
    let result = workspace_search(symbols, "  ");
    let names: Vec<&str> = result.iter().map(|s| s.name.as_str()).collect();
    assert_eq!(names, vec!["one", "two"]);
}

#[test]
fn search_deduplicates_by_name_uri_and_line() {
    let symbols = vec![
        sym("dup", "u1", 0),
        sym("dup", "u1", 0),
        sym("dup", "u1", 1),
        sym("dup", "u2", 0),
    ];
    let result = workspace_search(symbols, "");
    assert_eq!(result.len(), 3);
    assert_eq!(result[0].uri, "u1");
    assert_eq!(result[0].range.start.line, 0);
    assert_eq!(result[1].range.start.line, 1);
    assert_eq!(result[2].uri, "u2");
}

#[test]
fn repeated_searches_return_the_same_order() {
    let make = || {
        vec![
            sym("gamma", "u1", 0),
            sym("alpha", "u2", 1),
            sym("beta", "u3", 2),
        ]
    };
    let r1 = workspace_search(make(), "a");
    let r2 = workspace_search(make(), "a");
    let n1: Vec<String> = r1.iter().map(|s| s.name.clone()).collect();
    let n2: Vec<String> = r2.iter().map(|s| s.name.clone()).collect();
    assert_eq!(n1, n2);
}

#[test]
fn ties_keep_document_order() {
    let symbols = vec![sym("ab", "u1", 0), sym("ab", "u2", 1)];
    let result = workspace_search(symbols, "ab");
    assert_eq!(result.len(), 2);
    assert_eq!(result[0].uri, "u1");
    assert_eq!(result[1].uri, "u2");
}

#[test]
fn skim_ranking_filters_non_matches() {
    let symbols = vec![sym("Heading", "u1", 0), sym("xyz", "u2", 1), sym("Head", "u3", 2)];
    let result = rank_symbols(symbols, "head");
    assert_eq!(result.len(), 2);
    for s in &result {
        assert_ne!(s.name, "xyz");
    }
}

#[test]
fn skim_ranking_with_empty_query_keeps_order() {
    let symbols = vec![sym("b", "u1", 0), sym("a", "u2", 1)];
    let result = rank_symbols(symbols, "");
    let names: Vec<&str> = result.iter().map(|s| s.name.as_str()).collect();
    assert_eq!(names, vec!["b", "a"]);
}

#[test]
fn candidate_ranking_filters_non_matches() {
    let cands = vec![
        CompletionCandidate {
            label: "notes/head.md".to_string(),
            new_text: "[[notes/head.md | Head]]".to_string(),
        },
        CompletionCandidate {
            label: "zzz.md".to_string(),
            new_text: "[[zzz.md | z]]".to_string(),
        },
    ];
    let ranked = rank_candidates(cands, "head");
    assert_eq!(ranked.len(), 1);
    assert_eq!(ranked[0].label, "notes/head.md");
}

#[test]
fn candidate_ranking_with_empty_query_keeps_order() {
    let cands = vec![
        CompletionCandidate {
            label: "b.md".to_string(),
            new_text: "[[b.md | b]]".to_string(),
        },
        CompletionCandidate {
            label: "a.md".to_string(),
            new_text: "[[a.md | a]]".to_string(),
        },
    ];
    let ranked = rank_candidates(cands, "");
    assert_eq!(ranked[0].label, "b.md");
    assert_eq!(ranked[1].label, "a.md");
}
