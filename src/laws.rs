use crate::index::{id_in, is_join, joins, postings_match, reindexed, valid, IndexView, SearchResult};
use crate::text::indexed_words;
use vstd::prelude::*;

verus! {

/// One row of the posting table.
pub struct PostingRow {
    pub file: int,
    pub stem: int,
    pub offset: int,
    pub word: Seq<char>,
}

/// Whether the posting table of `v` holds row `r`.
pub open spec fn has_posting(v: IndexView, r: PostingRow) -> bool {
    &&& 1 <= r.file <= v.files.len()
    &&& 0 <= r.offset < v.files[r.file - 1].words.len()
    &&& v.files[r.file - 1].words[r.offset] == (r.stem, r.word)
}

/// The offsets of the postings of file `f`.
pub open spec fn offsets_of(v: IndexView, f: int) -> Set<int> {
    Set::new(|o: int| exists|r: PostingRow| #[trigger] has_posting(v, r) && r.file == f && r.offset == o)
}

/// No two monitored files share a path.
pub proof fn lemma_unique_paths(v: IndexView)
    requires
        valid(v),
    ensures
        forall|i: int, j: int|
            0 <= i < v.files.len() && 0 <= j < v.files.len() && #[trigger] v.files[i].path
                == #[trigger] v.files[j].path ==> i == j,
{
}

/// The offsets of a file's postings are `0, 1, ..., N - 1`, each in exactly
/// one row.
pub proof fn lemma_contiguous_offsets(v: IndexView, f: int)
    requires
        valid(v),
        1 <= f <= v.files.len(),
    ensures
        offsets_of(v, f) == Set::new(|o: int| 0 <= o < v.files[f - 1].words.len()),
        forall|r1: PostingRow, r2: PostingRow|
            has_posting(v, r1) && has_posting(v, r2) && r1.file == r2.file && r1.offset
                == r2.offset ==> r1 == r2,
{
    let n = v.files[f - 1].words.len();
    assert forall|o: int| 0 <= o < n implies #[trigger] offsets_of(v, f).contains(o) by {
        let w = v.files[f - 1].words[o];
        let r = PostingRow { file: f, stem: w.0, offset: o, word: w.1 };
        assert(has_posting(v, r));
    }
    assert(offsets_of(v, f) =~= Set::new(|o: int| 0 <= o < n));
}

/// Every posting names a row of the stem table.
pub proof fn lemma_posting_stems_exist(v: IndexView, r: PostingRow)
    requires
        valid(v),
        has_posting(v, r),
    ensures
        1 <= r.stem <= v.stems.len(),
{
    assert(v.files[r.file - 1].words[r.offset].0 == r.stem);
}

/// Indexing the same contents a second time leaves the file's postings as
/// they were.
pub proof fn lemma_reindex_idempotent(
    s0: IndexView,
    s1: IndexView,
    s2: IndexView,
    i1: int,
    i2: int,
    p: Seq<char>,
    m1: int,
    m2: int,
    text: Seq<char>,
)
    requires
        valid(s1),
        valid(s2),
        reindexed(s0, s1, i1, p, m1, text),
        reindexed(s1, s2, i2, p, m2, text),
    ensures
        i2 == i1,
        forall|r: PostingRow| r.file == i1 + 1 ==> (has_posting(s1, r) <==> has_posting(s2, r)),
{
    let words = indexed_words(text);
    assert(s1.files[i1].path == p);
    assert(i2 < s1.files.len());
    assert(s1.files[i2].path == p);
    let w1 = s1.files[i1].words;
    let w2 = s2.files[i1].words;
    assert(postings_match(s1.stems, w1, words));
    assert(postings_match(s2.stems, w2, words));
    assert forall|k: int| 0 <= k < w1.len() implies w2[k] == w1[k] by {
        assert(s2.stems[w1[k].0 - 1] == s1.stems[w1[k].0 - 1]);
        assert(s2.stems[w2[k].0 - 1] == s2.stems[w1[k].0 - 1]);
    }
    assert(w2 =~= w1);
}

/// A file that holds both stems `s1` and `s2` contributes postings of both
/// to the join on `[s1, s2]`.
pub proof fn lemma_join_finds_both(
    v: IndexView,
    ids: Seq<usize>,
    r: Seq<SearchResult>,
    f: int,
    k1: int,
    k2: int,
    s1: usize,
    s2: usize,
)
    requires
        ids == seq![s1, s2],
        is_join(v, ids, r),
        0 <= f < v.files.len(),
        0 <= k1 < v.files[f].words.len(),
        0 <= k2 < v.files[f].words.len(),
        v.files[f].words[k1].0 == s1,
        v.files[f].words[k2].0 == s2,
    ensures
        exists|j: int| 0 <= j < r.len() && joins(v, f, k1, r[j]) && r[j].stem == s1,
        exists|j: int| 0 <= j < r.len() && joins(v, f, k2, r[j]) && r[j].stem == s2,
{
    assert(ids[0] == s1 && ids[1] == s2);
    assert(id_in(ids, v.files[f].words[k1].0));
    assert(id_in(ids, v.files[f].words[k2].0));
}

} // verus!
