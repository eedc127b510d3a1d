//! Finding files by what is typed.
use std::sync::Arc;

use ffp::edit::TypoWordMatch;
use ffp::entry::FileEntry;
use ffp::fuzzy::chars_in_order;
use ffp::fuzzy::fuzzy_match_word;
use ffp::fuzzy::score_fuzzy_word_match;
use ffp::fuzzy::subsequence_match_word;
use ffp::fuzzy::FuzzyWordMatchKind;
use ffp::incremental::answer_search;
use ffp::incremental::fuzzy_match_incremental;
use ffp::incremental::MatchSearchState;
use ffp::incremental::SearchRequest;
use ffp::incremental::SearchScope;
use ffp::rank::fuzzy_match;
use ffp::rank::merge_candidate_pool;
use ffp::rank::should_accept_fast_match_pass;
use ffp::search::extend_scan;
use ffp::search::file_match_score;
use ffp::search::scan_chunk;
use ffp::search::search_chunk_size;
use ffp::search::search_worker_count;
use ffp::search::QueryTerms;
use ffp::search::ScanPass;
use ffp::typo::has_typo_candidate_overlap;
use ffp::typo::is_match_boundary;
use ffp::typo::is_match_separator;
use ffp::typo::typo_match_word;
use ffp::typo::typo_match_word_segmented;

fn entries(names: &[&str]) -> Vec<FileEntry> {
    names.iter().map(|name| FileEntry::new(name.to_string())).collect()
}

#[test]
fn fuzzy_match_empty_query_returns_first_items() {
    let files = entries(&["first.txt", "second.txt", "third.txt"]);

    let matches = fuzzy_match("", &files, 2);
    assert_eq!(matches.len(), 2);
    assert_eq!(matches[0].index, 0);
    assert_eq!(matches[1].index, 1);
}

#[test]
fn fuzzy_match_handles_special_characters() {
    let files = entries(&["foo[bar].txt"]);

    let matches = fuzzy_match("foo[bar].txt", &files, 10);
    assert_eq!(matches.len(), 1);
    assert_eq!(matches[0].index, 0);
}

#[test]
fn fuzzy_match_handles_unicode() {
    let files = entries(&["Résumé.txt"]);

    let matches = fuzzy_match("résumé", &files, 10);
    assert_eq!(matches.len(), 1);
    assert_eq!(matches[0].index, 0);
}

#[test]
fn typo_match_handles_common_edits() {
    assert_eq!(
        typo_match_word("mian", "main.rs"),
        Some(TypoWordMatch { cost: 1, start: 0, span_len: 4 })
    );
    assert_eq!(
        typo_match_word("documnt", "document.pdf"),
        Some(TypoWordMatch { cost: 1, start: 0, span_len: 8 })
    );
    assert_eq!(
        typo_match_word("configg", "config.toml"),
        Some(TypoWordMatch { cost: 1, start: 0, span_len: 7 })
    );
    assert!(typo_match_word("zzzz", "main.rs").is_none());
}

#[test]
fn fuzzy_match_is_typo_resistant() {
    let files = entries(&["many.rs", "main.rs", "document.pdf", "config.toml"]);

    let matches = fuzzy_match("mian", &files, 10);
    assert!(!matches.is_empty());
    assert_eq!(files[matches[0].index].name(), "main.rs");

    let matches = fuzzy_match("documnt", &files, 10);
    assert!(!matches.is_empty());
    assert_eq!(files[matches[0].index].name(), "document.pdf");

    let matches = fuzzy_match("configg", &files, 10);
    assert!(!matches.is_empty());
    assert_eq!(files[matches[0].index].name(), "config.toml");
}

#[test]
fn fuzzy_match_uses_path_for_multi_word_queries() {
    let files = entries(&["/tmp/other/session-log.txt", "/tmp/jcode/session-log.txt"]);

    let matches = fuzzy_match("jcode sessino", &files, 10);
    assert!(!matches.is_empty());
    assert_eq!(files[matches[0].index].path(), "/tmp/jcode/session-log.txt");
}

#[test]
fn fuzzy_match_still_handles_short_substrings() {
    let files = entries(&["main.rs"]);

    let matches = fuzzy_match("rs", &files, 10);
    assert_eq!(matches.len(), 1);
    assert_eq!(matches[0].index, 0);
}

#[test]
fn fuzzy_match_supports_short_exact_and_subsequence_queries() {
    let files = entries(&["notes.txt", "main.rs", "tmux.conf"]);

    let matches = fuzzy_match("m", &files, 10);
    assert!(!matches.is_empty());
    assert_eq!(files[matches[0].index].name(), "main.rs");

    let matches = fuzzy_match("mr", &files, 10);
    assert!(!matches.is_empty());
    assert_eq!(files[matches[0].index].name(), "main.rs");

    let matches = fuzzy_match("tmuxconf", &files, 10);
    assert!(!matches.is_empty());
    assert_eq!(files[matches[0].index].name(), "tmux.conf");
}

#[test]
fn fuzzy_match_searches_path_for_single_word_queries() {
    let files = entries(&["/tmp/other/session-log.txt", "/tmp/jcode/session-log.txt"]);

    let matches = fuzzy_match("jcode", &files, 10);
    assert!(!matches.is_empty());
    assert_eq!(files[matches[0].index].path(), "/tmp/jcode/session-log.txt");
}

#[test]
fn fuzzy_match_incremental_rescans_after_broad_short_prefix() {
    let mut files: Vec<FileEntry> =
        (0..1500).map(|i| FileEntry::new(format!("ma-noise-{i}.txt"))).collect();
    files.push(FileEntry::new("main.rs".to_string()));

    let mut state = MatchSearchState::new(SearchScope::Recent);
    state.reset_if_stale(SearchScope::Recent, 1, files.len());

    let _ = fuzzy_match_incremental("ma", &files, 10, 64, &mut state);
    let matches = fuzzy_match_incremental("mai", &files, 10, 64, &mut state);
    assert!(!matches.is_empty());
    assert_eq!(files[matches[0].index].name(), "main.rs");
}

#[test]
fn fuzzy_match_incremental_reuses_candidate_pool_for_extended_queries() {
    let mut files: Vec<FileEntry> =
        (0..64).map(|i| FileEntry::new(format!("noise-{i}.txt"))).collect();
    files.push(FileEntry::new("main.rs".to_string()));
    files.push(FileEntry::new("maintainer-notes.md".to_string()));

    let mut state = MatchSearchState::new(SearchScope::Recent);
    state.reset_if_stale(SearchScope::Recent, 1, files.len());

    let _ = fuzzy_match_incremental("mi", &files, 10, 16, &mut state);
    assert!(!state.last_candidates().is_empty());
    assert!(state.last_candidates().len() <= 16);

    let matches = fuzzy_match_incremental("mian", &files, 10, 16, &mut state);
    assert!(!matches.is_empty());
    assert_eq!(files[matches[0].index].name(), "main.rs");
    assert_eq!(state.last_query(), "mian");
}

#[test]
fn fuzzy_match_incremental_cache_handles_repeated_query() {
    let files = entries(&["main.rs", "document.pdf"]);
    let mut state = MatchSearchState::new(SearchScope::Recent);
    state.reset_if_stale(SearchScope::Recent, 1, files.len());

    let first = fuzzy_match_incremental("documnt", &files, 10, 16, &mut state);
    let second = fuzzy_match_incremental("documnt", &files, 10, 16, &mut state);
    assert_eq!(first.len(), second.len());
    assert_eq!(files[second[0].index].name(), "document.pdf");
}

#[test]
fn search_results_carry_their_snapshot() {
    // The indexes of a result stand for entries of its own list, whatever has become of
    // the pool since.
    let snapshot = Arc::new(entries(&["alpha.txt", "beta.txt"]));
    let mut state = MatchSearchState::new(SearchScope::Recent);
    let result = answer_search(
        SearchRequest {
            id: 1,
            query: "beta".to_string(),
            scope: SearchScope::Recent,
            file_version: 7,
            files: Arc::clone(&snapshot),
        },
        &mut state,
    );
    assert_eq!(result.id, 1);
    assert!(Arc::ptr_eq(&result.files, &snapshot));
    assert_eq!(result.files[result.matches[0].index].name(), "beta.txt");
}

#[test]
fn typos_take_one_edit_in_short_words_and_two_in_long_ones() {
    // Four characters allow one edit, five allow two.
    assert!(typo_match_word("mzzn", "main.rs").is_none());
    assert_eq!(
        typo_match_word("cxnfyg", "config.toml"),
        Some(TypoWordMatch { cost: 2, start: 0, span_len: 6 })
    );
    assert_eq!(
        typo_match_word("", "main.rs"),
        Some(TypoWordMatch { cost: 0, start: 0, span_len: 0 })
    );
    assert_eq!(
        typo_match_word("rs", "main.rs"),
        Some(TypoWordMatch { cost: 0, start: 5, span_len: 2 })
    );
    assert!(typo_match_word("sr", "main.rs").is_none());
}

#[test]
fn typos_are_found_in_other_scripts_and_in_segments() {
    assert_eq!(
        typo_match_word("rsumé", "résumé.txt"),
        Some(TypoWordMatch { cost: 1, start: 0, span_len: 6 })
    );
    let found = typo_match_word_segmented("sessino", "work/session-log.txt");
    assert!(found.is_some());
    assert_eq!(found.unwrap().cost, 1);
    assert_eq!(found.unwrap().start, 5);
}

#[test]
fn overlap_lets_every_close_word_through() {
    assert!(has_typo_candidate_overlap("mian", "main.rs", 1));
    assert!(has_typo_candidate_overlap("MIAN", "main.rs", 1));
    assert!(!has_typo_candidate_overlap("zzzz", "main.rs", 1));
    assert!(has_typo_candidate_overlap("z", "main.rs", 1));
    assert!(has_typo_candidate_overlap("été", "été.txt", 0));
    assert!(!has_typo_candidate_overlap("éta", "été.txt", 0));
    assert!(!has_typo_candidate_overlap("abcd", "axyd", 1));
    assert!(has_typo_candidate_overlap("abcd", "axyd", 2));
    assert!(has_typo_candidate_overlap("abcdef", "afxyzf", 4));
}

#[test]
fn boundaries_follow_separators() {
    assert!(is_match_separator('/'));
    assert!(is_match_separator('-'));
    assert!(is_match_separator('.'));
    assert!(!is_match_separator('a'));
    assert!(is_match_boundary("foo-bar", 0));
    assert!(is_match_boundary("foo-bar", 4));
    assert!(!is_match_boundary("foo-bar", 5));
}

#[test]
fn characters_in_order_need_not_be_neighbours() {
    assert!(chars_in_order("mr", "main.rs"));
    assert!(!chars_in_order("rm", "main.rs"));
    assert!(chars_in_order("", "main.rs"));
}

#[test]
fn words_match_exactly_before_they_match_otherwise() {
    let exact = fuzzy_match_word("main", "main.rs", true).unwrap();
    assert_eq!(exact.kind, FuzzyWordMatchKind::Exact);
    assert_eq!(exact.start, 0);
    let spread = fuzzy_match_word("mr", "main.rs", true).unwrap();
    assert_eq!(spread.kind, FuzzyWordMatchKind::Subsequence);
    let typo = fuzzy_match_word("mian", "main.rs", true).unwrap();
    assert_eq!(typo.kind, FuzzyWordMatchKind::Typo);
    assert!(fuzzy_match_word("mian", "main.rs", false).is_none());
    assert_eq!(score_fuzzy_word_match("main", "main.rs", exact), 5 * 1164);
    assert_eq!(score_fuzzy_word_match("mr", "main.rs", spread), 5 * 700);
    assert_eq!(score_fuzzy_word_match("mian", "main.rs", typo), 5 * 878);
}

#[test]
fn subsequences_must_not_spread_too_far() {
    assert!(subsequence_match_word("mrs", "main.rs", 3).is_some());
    assert!(subsequence_match_word("xyz", "main.rs", 3).is_none());
}

#[test]
fn a_match_in_the_name_beats_one_in_the_path() {
    let files = entries(&["/main/other.txt", "/other/main.txt"]);
    let words = vec!["main".to_string()];
    // A fifth of a point is the unit: 6000 + 700 + 4 * 36 + 140 - 0.8 points, and
    // 10000 + 700 + 4 * 36 + 180 + 140 points.
    assert_eq!(file_match_score("main", &words, &files[0], false, true), Some(34_916));
    assert_eq!(file_match_score("main", &words, &files[1], false, true), Some(55_820));
    assert_eq!(file_match_score("main", &words, &files[0], false, false), None);
    assert_eq!(file_match_score("main", &Vec::new(), &files[0], false, true), None);
    let matches = fuzzy_match("main", &files, 10);
    assert_eq!(matches[0].index, 1);
    assert_eq!(matches[0].score, 55_820);
    assert_eq!(matches[1].index, 0);
}

#[test]
fn scans_in_pieces_find_the_same() {
    let files = entries(&["main.rs", "many.rs", "notes.txt", "domain.rs", "mail.txt"]);
    let query = QueryTerms::new("mai");
    let whole = scan_chunk(&query, &files, ScanPass::Plain, 10, 0, files.len());
    let mut found = scan_chunk(&query, &files, ScanPass::Plain, 10, 0, 2);
    let rest = scan_chunk(&query, &files, ScanPass::Plain, 10, 2, files.len());
    extend_scan(&mut found, rest, 10);
    assert_eq!(found.results, whole.results);
    assert_eq!(found.warm, whole.warm);
}

#[test]
fn work_is_shared_out_only_when_there_is_much() {
    assert_eq!(search_worker_count(100, 16), 1);
    assert_eq!(search_worker_count(100_000, 16), 8);
    assert_eq!(search_worker_count(100_000, 2), 2);
    assert_eq!(search_chunk_size(100, 8), 13);
}

#[test]
fn candidate_pools_hold_matches_first_and_no_place_twice() {
    let merged = merge_candidate_pool(vec![3, 1], &vec![1, 2, 3, 4], 3);
    assert_eq!(merged, vec![3, 1, 2]);
}

#[test]
fn a_plain_search_is_enough_with_enough_matches() {
    assert!(should_accept_fast_match_pass(50, 50, 1));
    assert!(!should_accept_fast_match_pass(0, 50, 1));
}

#[test]
fn incremental_and_fresh_searches_agree_at_the_start() {
    let files = entries(&["main.rs", "domain.rs", "notes.txt"]);
    let mut state = MatchSearchState::new(SearchScope::All);
    state.reset_if_stale(SearchScope::All, 3, files.len());
    let first = fuzzy_match_incremental("main", &files, 10, 16, &mut state);
    let fresh = fuzzy_match("main", &files, 10);
    assert_eq!(first, fresh);
}
