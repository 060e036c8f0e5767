use intern::index::{Index, SearchResult};
use intern::query::{collate_search, pair_score, rank_order, score_file, sort_search_results, FileHits, StemHits};
use intern::protocol::{join_lines, DAY_SECONDS};

fn row(path: &str, word: &str, stem: usize, offset: usize) -> SearchResult {
    SearchResult { path: path.to_string(), word: word.to_string(), stem, offset }
}

#[test]
fn proximity_ranks_close_terms_first() {
    let mut idx = Index::new();
    idx.index_file("/a", 1, "alpha beta gamma delta").unwrap();
    idx.index_file("/b", 1, "alpha x x x x x x x beta").unwrap();
    assert_eq!(idx.search("alpha beta"), vec!["/a", "/b", ""]);
}

#[test]
fn search_requires_every_stem() {
    let mut idx = Index::new();
    idx.index_file("/a", 1, "alpha").unwrap();
    idx.index_file("/b", 1, "alpha beta").unwrap();
    assert_eq!(idx.search("alpha beta"), vec!["/b", ""]);
}

#[test]
fn search_with_unknown_terms_only() {
    let mut idx = Index::new();
    idx.index_file("/a", 1, "alpha").unwrap();
    assert_eq!(idx.search("zeta"), vec![""]);
    assert_eq!(idx.search(""), vec![""]);
}

#[test]
fn search_ignores_unknown_terms_among_known() {
    let mut idx = Index::new();
    idx.index_file("/a", 1, "alpha").unwrap();
    assert_eq!(idx.search("alpha zeta"), vec!["/a", ""]);
}

#[test]
fn search_matches_stems_across_forms() {
    let mut idx = Index::new();
    idx.index_file("/a", 1, "Running caf\u{e9}").unwrap();
    assert_eq!(idx.search("run CAFE"), vec!["/a", ""]);
}

#[test]
fn collation_keeps_files_with_all_stems() {
    let rows = vec![
        row("/a", "alpha", 1, 0),
        row("/b", "alpha", 1, 0),
        row("/b", "alpha", 1, 4),
        row("/b", "beta", 2, 1),
    ];
    let files = collate_search(&rows, &vec![1, 2]);
    assert_eq!(files.len(), 1);
    assert_eq!(files[0].path, "/b");
    assert_eq!(files[0].stems.len(), 2);
    assert_eq!(files[0].stems[0].stem, 1);
    assert_eq!(files[0].stems[0].offsets, vec![0, 4]);
    assert_eq!(files[0].stems[1].stem, 2);
    assert_eq!(files[0].stems[1].words, vec!["beta"]);
}

#[test]
fn collation_of_empty_stream() {
    assert!(collate_search(&Vec::new(), &vec![1]).is_empty());
}

#[test]
fn pair_score_values() {
    assert_eq!(pair_score(&vec![0], &vec![1]), 3);
    assert_eq!(pair_score(&vec![0], &vec![6]), 2);
    assert_eq!(pair_score(&vec![0], &vec![8]), 1);
    assert_eq!(pair_score(&vec![0], &vec![20]), 1);
    assert_eq!(pair_score(&vec![0], &vec![21]), 0);
    assert_eq!(pair_score(&vec![5], &vec![0]), 0);
    assert_eq!(pair_score(&vec![0, 2], &vec![1, 3]), 6);
    assert_eq!(pair_score(&vec![], &vec![1]), 0);
}

fn hits(path: &str, groups: Vec<(usize, Vec<usize>, Vec<&str>)>) -> FileHits {
    FileHits {
        path: path.to_string(),
        stems: groups
            .into_iter()
            .map(|(stem, offsets, words)| StemHits {
                stem,
                offsets,
                words: words.into_iter().map(|w| w.to_string()).collect(),
            })
            .collect(),
    }
}

#[test]
fn score_values() {
    let q = vec!["alpha".to_string(), "beta".to_string()];
    let a = hits("/a", vec![(1, vec![0], vec!["alpha"]), (2, vec![1], vec!["beta"])]);
    assert_eq!(score_file(&a, &q), 4840);
    let b = hits("/b", vec![(1, vec![0], vec!["Alpha"]), (2, vec![8], vec!["betas"])]);
    assert_eq!(score_file(&b, &q), 2000);
    let c = hits("/c", vec![(1, vec![0], vec!["x"])]);
    assert_eq!(score_file(&c, &q), 1000);
}

#[test]
fn ranking_is_descending_and_stable() {
    assert_eq!(rank_order(&vec![5, 9, 5, 1, 9]), vec![1, 4, 0, 2, 3]);
    assert!(rank_order(&vec![]).is_empty());
}

#[test]
fn sorted_results_end_with_empty_line() {
    let q = vec!["alpha".to_string()];
    let files = vec![
        hits("/low", vec![(1, vec![0], vec!["a"])]),
        hits("/high", vec![(1, vec![0], vec!["alpha"])]),
        hits("/tie", vec![(1, vec![3], vec!["b"])]),
    ];
    assert_eq!(sort_search_results(&files, &q), vec!["/high", "/low", "/tie", ""]);
    assert_eq!(sort_search_results(&Vec::new(), &q), vec![""]);
}

#[test]
fn date_query_lists_files_of_that_day() {
    let mut idx = Index::new();
    idx.insert_file("/next", 1699920000 + DAY_SECONDS as u64);
    idx.insert_file("/noon", 1699920000 + 43200);
    idx.insert_file("/midnight", 1699920000);
    idx.insert_file("/before", 1699919999);
    assert_eq!(idx.respond("@on 2023-11-14\n", 0), "/midnight\n/noon\n");
    assert_eq!(idx.respond("@ago 2023-11-14\u{0}\u{0}", 0), "/midnight\n/noon\n");
}

#[test]
fn date_query_falls_back_to_today() {
    let mut idx = Index::new();
    idx.insert_file("/today", 500);
    idx.insert_file("/old", 10);
    assert_eq!(idx.respond("@on not-a-date", 400), "/today\n");
}

#[test]
fn free_text_request_joins_lines() {
    let mut idx = Index::new();
    idx.index_file("/a", 1, "alpha beta").unwrap();
    idx.index_file("/b", 1, "beta").unwrap();
    assert_eq!(idx.respond("beta\n\u{0}\u{0}", 0), "/a\n/b\n");
    assert_eq!(idx.respond("nothing", 0), "");
}

#[test]
fn join_lines_values() {
    assert_eq!(join_lines(&vec![]), "");
    assert_eq!(join_lines(&vec!["a".to_string()]), "a");
    assert_eq!(join_lines(&vec!["a".to_string(), "".to_string()]), "a\n");
}
