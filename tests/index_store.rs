use intern::index::{Index, IndexTuple};

fn postings_of(idx: &Index, path: &str) -> Vec<(String, usize, String)> {
    let id = idx.lookup_file(path).unwrap().id;
    let mut ids = Vec::new();
    for s in 1..=idx.stem_count() {
        ids.push(s);
    }
    idx.postings_for_stems(&ids)
        .into_iter()
        .filter(|r| r.path == path)
        .map(|r| (r.word, r.offset, format!("{}:{}", id, r.stem)))
        .collect()
}

#[test]
fn single_file_indexing() {
    let mut idx = Index::new();
    let u = idx.index_file("/tmp/a.txt", 10, "The quick brown fox").unwrap();
    assert_eq!(idx.file_count(), 1);
    assert!(u.created);
    assert_eq!(u.file.id, 1);
    assert_eq!(u.file.path, "/tmp/a.txt");
    assert_eq!(u.file.modified, 10);
    let stems: Vec<String> = u.new_stems.iter().map(|s| s.stem.clone()).collect();
    assert_eq!(stems, vec!["the", "quick", "brown", "fox"]);
    assert_eq!(u.new_stems.iter().map(|s| s.id).collect::<Vec<_>>(), vec![1, 2, 3, 4]);
    let words: Vec<(String, usize)> = u.postings.iter().map(|p| (p.word.clone(), p.offset)).collect();
    assert_eq!(
        words,
        vec![
            ("The".to_string(), 0),
            ("quick".to_string(), 1),
            ("brown".to_string(), 2),
            ("fox".to_string(), 3)
        ]
    );
    assert!(u.postings.iter().all(|p| p.file == 1));
    assert_eq!(idx.stem_id("the"), Some(1));
    assert_eq!(idx.stem_id("fox"), Some(4));
}

#[test]
fn reindex_replaces_content() {
    let mut idx = Index::new();
    idx.index_file("/tmp/a.txt", 10, "The quick brown fox").unwrap();
    let u = idx.index_file("/tmp/a.txt", 20, "brown fox jumps").unwrap();
    assert!(!u.created);
    assert_eq!(u.file.id, 1);
    assert_eq!(u.new_stems.len(), 1);
    assert_eq!(u.new_stems[0].stem, "jump");
    assert_eq!(u.new_stems[0].id, 5);
    let rows = postings_of(&idx, "/tmp/a.txt");
    let words: Vec<(String, usize)> = rows.iter().map(|r| (r.0.clone(), r.1)).collect();
    let mut sorted = words.clone();
    sorted.sort_by_key(|w| w.1);
    assert_eq!(
        sorted,
        vec![("brown".to_string(), 0), ("fox".to_string(), 1), ("jumps".to_string(), 2)]
    );
    assert!(!rows.iter().any(|r| r.0 == "The" || r.0 == "quick"));
    assert_eq!(idx.lookup_file("/tmp/a.txt").unwrap().modified, 20);
}

#[test]
fn reindex_same_contents_gives_same_postings() {
    let mut idx = Index::new();
    let first = idx.index_file("/f", 1, "alpha beta alpha").unwrap();
    let second = idx.index_file("/f", 2, "alpha beta alpha").unwrap();
    assert!(second.new_stems.is_empty());
    let a: Vec<(usize, usize, usize, String)> =
        first.postings.iter().map(|p| (p.file, p.stem, p.offset, p.word.clone())).collect();
    let b: Vec<(usize, usize, usize, String)> =
        second.postings.iter().map(|p| (p.file, p.stem, p.offset, p.word.clone())).collect();
    assert_eq!(a, b);
}

#[test]
fn stale_check_skips_unchanged_file() {
    let mut idx = Index::new();
    idx.index_file("/f", 5, "alpha").unwrap();
    assert!(!idx.needs_index("/f", 5));
    assert!(!idx.needs_index("/f", 4));
    assert!(idx.needs_index("/f", 6));
    assert!(idx.needs_index("/g", 0));
    assert!(idx.index_file("/f", 5, "beta").is_none());
    assert_eq!(idx.stem_count(), 1);
}

#[test]
fn file_rows_are_unique_by_path() {
    let mut idx = Index::new();
    assert_eq!(idx.insert_file("/p", 1), Some(1));
    assert_eq!(idx.insert_file("/p", 2), None);
    assert_eq!(idx.insert_file("/q", 2), Some(2));
    assert_eq!(idx.file_count(), 2);
    idx.update_mtime("/p", 9);
    assert_eq!(idx.lookup_file("/p").unwrap().modified, 9);
    assert!(idx.lookup_file("/r").is_none());
}

#[test]
fn stem_rows_refuse_empty_and_duplicates() {
    let mut idx = Index::new();
    assert_eq!(idx.insert_stem("alpha"), Some(1));
    assert_eq!(idx.insert_stem("alpha"), None);
    assert_eq!(idx.insert_stem(""), None);
    assert_eq!(idx.insert_stem("beta"), Some(2));
}

#[test]
fn postings_must_continue_offsets() {
    let mut idx = Index::new();
    idx.insert_file("/p", 1);
    idx.insert_stem("alpha");
    let t = |offset: usize, stem: usize, file: usize| IndexTuple { file, stem, offset, word: "Alpha".to_string() };
    assert!(idx.insert_posting(&t(0, 1, 1)));
    assert!(!idx.insert_posting(&t(0, 1, 1)));
    assert!(!idx.insert_posting(&t(2, 1, 1)));
    assert!(!idx.insert_posting(&t(1, 2, 1)));
    assert!(!idx.insert_posting(&t(1, 1, 2)));
    assert!(idx.insert_posting(&t(1, 1, 1)));
    let rows = idx.postings_for_stems(&vec![1]);
    assert_eq!(rows.len(), 2);
    idx.clear_postings(1);
    assert!(idx.postings_for_stems(&vec![1]).is_empty());
}

#[test]
fn join_is_ordered_by_path_stem_offset() {
    let mut idx = Index::new();
    idx.index_file("/b", 1, "beta alpha beta").unwrap();
    idx.index_file("/a", 1, "alpha gamma").unwrap();
    let rows = idx.postings_for_stems(&vec![2, 1, 2]);
    let got: Vec<(String, usize, usize, String)> =
        rows.into_iter().map(|r| (r.path, r.stem, r.offset, r.word)).collect();
    assert_eq!(
        got,
        vec![
            ("/a".to_string(), 2, 0, "alpha".to_string()),
            ("/b".to_string(), 1, 0, "beta".to_string()),
            ("/b".to_string(), 1, 2, "beta".to_string()),
            ("/b".to_string(), 2, 1, "alpha".to_string()),
        ]
    );
}

#[test]
fn join_finds_both_stems_of_a_file() {
    let mut idx = Index::new();
    idx.index_file("/f", 1, "one two three").unwrap();
    let one = idx.stem_id("one").unwrap();
    let three = idx.stem_id("three").unwrap();
    let rows = idx.postings_for_stems(&vec![one, three]);
    assert!(rows.iter().any(|r| r.path == "/f" && r.stem == one));
    assert!(rows.iter().any(|r| r.path == "/f" && r.stem == three));
    assert_eq!(rows.len(), 2);
}

#[test]
fn empty_file_has_no_postings() {
    let mut idx = Index::new();
    let u = idx.index_file("/empty", 3, "").unwrap();
    assert!(u.postings.is_empty());
    assert_eq!(idx.file_count(), 1);
}

#[test]
fn files_modified_in_window() {
    let mut idx = Index::new();
    idx.insert_file("/late", 1700086400);
    idx.insert_file("/second", 1700086399);
    idx.insert_file("/first", 1700000000);
    let got = idx.files_modified_between(1700000000, 1700000000 + 86400);
    assert_eq!(got, vec!["/first", "/second"]);
}

#[test]
fn postings_name_existing_stems() {
    let mut idx = Index::new();
    let u1 = idx.index_file("/x", 1, "Stemming words, stemmed words").unwrap();
    let u2 = idx.index_file("/y", 1, "other words").unwrap();
    for p in u1.postings.iter().chain(u2.postings.iter()) {
        assert!(1 <= p.stem && p.stem <= idx.stem_count());
        assert_eq!(idx.stem_id(&intern::text::stem_word(&p.word)), Some(p.stem));
    }
    let offsets: Vec<usize> = u1.postings.iter().map(|p| p.offset).collect();
    assert_eq!(offsets, vec![0, 1, 2, 3]);
}
