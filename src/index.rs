use vstd::hash_map::StringHashMap;
use crate::order::{compare_chars, lemma_lt_total, lemma_lt_transitive, seq_lt};
use crate::query::{rank_order, ranked};
use crate::text::{chars_of, indexed_words, stem_of, stemmed_words};
use vstd::prelude::*;

verus! {

/// A row of the monitored-file table.
pub struct MonitoredFile {
    pub id: usize,
    pub path: String,
    pub modified: u64,
}

/// A row of the word-stem table.
pub struct WordStem {
    pub id: usize,
    pub stem: String,
}

/// A row of the posting table: one occurrence of a stem in a file.
pub struct IndexTuple {
    pub file: usize,
    pub stem: usize,
    pub offset: usize,
    pub word: String,
}

struct Occurrence {
    stem: usize,
    word: String,
}

struct FileRecord {
    path: String,
    modified: u64,
    words: Vec<Occurrence>,
}

/// The monitored files, stems and postings. A file's id is its position
/// plus one, and so is a stem's; a posting's offset is its position in its
/// file's list of occurrences.
pub struct Index {
    files: Vec<FileRecord>,
    path_ids: StringHashMap<usize>,
    stems: Vec<String>,
    stem_ids: StringHashMap<usize>,
}

/// A monitored file and its occurrences, each a stem id and a surface word.
pub struct FileView {
    pub path: Seq<char>,
    pub modified: int,
    pub words: Seq<(int, Seq<char>)>,
}

/// The three tables: file `i` has id `i + 1`, stem `i` has id `i + 1`.
pub struct IndexView {
    pub files: Seq<FileView>,
    pub stems: Seq<Seq<char>>,
}

spec fn occurrence_view(o: Occurrence) -> (int, Seq<char>) {
    (o.stem as int, o.word@)
}

spec fn record_view(f: FileRecord) -> FileView {
    FileView {
        path: f.path@,
        modified: f.modified as int,
        words: f.words@.map_values(|o: Occurrence| occurrence_view(o)),
    }
}

impl View for Index {
    type V = IndexView;

    closed spec fn view(&self) -> IndexView {
        IndexView {
            files: self.files@.map_values(|f: FileRecord| record_view(f)),
            stems: self.stems@.map_values(|s: String| s@),
        }
    }
}

/// The id of the file with path `p`, if there is one.
pub open spec fn has_path(v: IndexView, p: Seq<char>) -> bool {
    exists|i: int| 0 <= i < v.files.len() && v.files[i].path == p
}

/// Whether stem `s` is in the stem table.
pub open spec fn has_stem(v: IndexView, s: Seq<char>) -> bool {
    exists|i: int| 0 <= i < v.stems.len() && v.stems[i] == s
}

/// The invariants of the tables: paths and stems are unique, no stem is
/// empty, and every posting names a stem of the stem table.
pub open spec fn valid(v: IndexView) -> bool {
    &&& forall|i: int, j: int|
        0 <= i < v.files.len() && 0 <= j < v.files.len() && i != j ==> v.files[i].path
            != v.files[j].path
    &&& forall|i: int, j: int|
        0 <= i < v.stems.len() && 0 <= j < v.stems.len() && i != j ==> v.stems[i] != v.stems[j]
    &&& forall|i: int| 0 <= i < v.stems.len() ==> v.stems[i].len() > 0
    &&& forall|f: int, k: int|
        0 <= f < v.files.len() && 0 <= k < v.files[f].words.len() ==> 1 <= #[trigger] v.files[f].words[k].0
            <= v.stems.len()
}

/// Room for one more file id.
pub open spec fn file_room(v: IndexView) -> bool {
    v.files.len() + 1 < usize::MAX
}

/// What one call of `Index::index_file` changed: the file row, whether it
/// was created, the stem rows added, and the file's new postings.
pub struct IndexUpdate {
    pub file: MonitoredFile,
    pub created: bool,
    pub new_stems: Vec<WordStem>,
    pub postings: Vec<IndexTuple>,
}

/// Whether a file at `p` last modified at `m` is new or newer than its row.
pub open spec fn stale(v: IndexView, p: Seq<char>, m: int) -> bool {
    !has_path(v, p) || exists|i: int|
        0 <= i < v.files.len() && v.files[i].path == p && v.files[i].modified < m
}

/// Room for the ids that indexing `text` at `p` may take.
pub open spec fn index_room(v: IndexView, p: Seq<char>, text: Seq<char>) -> bool {
    &&& has_path(v, p) || file_room(v)
    &&& v.stems.len() + indexed_words(text).len() + 1 < usize::MAX
}

/// `s` is the stem of one of `words`.
pub open spec fn stem_from(s: Seq<char>, words: Seq<Seq<char>>) -> bool {
    exists|k: int| 0 <= k < words.len() && s == stem_of(words[k])
}

/// `w` records `words` in order, each with the id of its stem in `stems`.
pub open spec fn postings_match(
    stems: Seq<Seq<char>>,
    w: Seq<(int, Seq<char>)>,
    words: Seq<Seq<char>>,
) -> bool {
    &&& w.len() == words.len()
    &&& forall|k: int|
        0 <= k < w.len() ==> {
            &&& 1 <= #[trigger] w[k].0 <= stems.len()
            &&& w[k].1 == words[k]
            &&& stems[w[k].0 - 1] == stem_of(words[k])
        }
}

/// `new` is `old` after file `i` was indexed at path `p` with modification
/// time `m` and contents `text`: stems missing from `old` were appended, the
/// file row was created or updated, and its postings are exactly the words of
/// `text`.
pub open spec fn reindexed(
    old: IndexView,
    new: IndexView,
    i: int,
    p: Seq<char>,
    m: int,
    text: Seq<char>,
) -> bool {
    let words = indexed_words(text);
    let rec = FileView { path: p, modified: m, words: new.files[i].words };
    &&& old.stems.len() <= new.stems.len()
    &&& new.stems.subrange(0, old.stems.len() as int) == old.stems
    &&& forall|j: int|
        old.stems.len() <= j < new.stems.len() ==> stem_from(#[trigger] new.stems[j], words)
    &&& 0 <= i <= old.files.len()
    &&& i < old.files.len() ==> old.files[i].path == p && new.files == old.files.update(i, rec)
    &&& i == old.files.len() ==> !has_path(old, p) && new.files == old.files.push(rec)
    &&& postings_match(new.stems, new.files[i].words, words)
}

/// `u` describes the change from `old` to `new` made on file `i`.
pub open spec fn describes(u: IndexUpdate, old: IndexView, new: IndexView, i: int) -> bool {
    &&& u.file.id == i + 1
    &&& u.file.path@ == new.files[i].path
    &&& u.file.modified == new.files[i].modified
    &&& u.created == (i == old.files.len())
    &&& u.new_stems@.len() + old.stems.len() == new.stems.len()
    &&& forall|j: int|
        0 <= j < u.new_stems@.len() ==> {
            &&& #[trigger] u.new_stems@[j].id == old.stems.len() + j + 1
            &&& u.new_stems@[j].stem@ == new.stems[old.stems.len() + j]
        }
    &&& u.postings@.len() == new.files[i].words.len()
    &&& forall|k: int|
        0 <= k < u.postings@.len() ==> {
            &&& #[trigger] u.postings@[k].file == i + 1
            &&& u.postings@[k].stem == new.files[i].words[k].0
            &&& u.postings@[k].offset == k
            &&& u.postings@[k].word@ == new.files[i].words[k].1
        }
}

/// A posting joined with its file's path.
pub struct SearchResult {
    pub path: String,
    pub word: String,
    pub stem: usize,
    pub offset: usize,
}

/// Whether `s` is one of `ids`.
pub open spec fn id_in(ids: Seq<usize>, s: int) -> bool {
    exists|i: int| 0 <= i < ids.len() && ids[i] as int == s
}

/// Whether `s` is one of the first `n` of `ids`.
pub open spec fn in_prefix(ids: Seq<usize>, n: int, s: int) -> bool {
    exists|a: int| 0 <= a < n && ids[a] as int == s
}

/// Whether file position `f` has a posting whose stem is one of `ids`.
pub open spec fn file_has_hit(v: IndexView, f: int, ids: Seq<usize>) -> bool {
    exists|k: int| 0 <= k < v.files[f].words.len() && id_in(ids, #[trigger] v.files[f].words[k].0)
}

/// The order of the join's rows: by path, then stem id, then offset.
pub open spec fn row_lt(a: SearchResult, b: SearchResult) -> bool {
    ||| seq_lt(a.path@, b.path@)
    ||| a.path@ == b.path@ && a.stem < b.stem
    ||| a.path@ == b.path@ && a.stem == b.stem && a.offset < b.offset
}

/// `r` is posting `k` of the file at position `f`, joined with its path.
pub open spec fn joins(v: IndexView, f: int, k: int, r: SearchResult) -> bool {
    &&& 0 <= f < v.files.len()
    &&& 0 <= k < v.files[f].words.len()
    &&& r.path@ == v.files[f].path
    &&& r.offset == k
    &&& r.stem == v.files[f].words[k].0
    &&& r.word@ == v.files[f].words[k].1
}

/// Whether `s` is one of `ids`.
pub fn contains_id(ids: &Vec<usize>, s: usize) -> (r: bool)
    ensures
        r == id_in(ids@, s as int),
{
    let mut i: usize = 0;
    while i < ids.len()
        invariant
            i <= ids@.len(),
            forall|a: int| 0 <= a < i ==> ids@[a] != s,
        decreases ids.len() - i,
    {
        if ids[i] == s {
            return true;
        }
        i = i + 1;
    }
    false
}

/// `r` is the join of the postings whose stem is one of `ids` with their
/// files' paths: every row is such a posting, every such posting is a row,
/// and the rows are strictly ordered by path, then stem id, then offset.
pub open spec fn is_join(v: IndexView, ids: Seq<usize>, r: Seq<SearchResult>) -> bool {
    &&& forall|j: int|
        0 <= j < r.len() ==> id_in(ids, #[trigger] r[j].stem as int) && exists|f: int|
            joins(v, f, r[j].offset as int, r[j])
    &&& forall|f: int, k: int|
        0 <= f < v.files.len() && 0 <= k < v.files[f].words.len() && id_in(
            ids,
            #[trigger] v.files[f].words[k].0,
        ) ==> exists|j: int| 0 <= j < r.len() && joins(v, f, k, r[j])
    &&& forall|a: int, b: int| 0 <= a < b < r.len() ==> row_lt(r[a], r[b])
}

/// File `f` was last modified in `[start, end)`.
pub open spec fn in_window(v: IndexView, f: int, start: int, end: int) -> bool {
    start <= v.files[f].modified < end
}

/// `p` lists the files modified in `[start, end)`, each once, by
/// modification time and equal times by id.
pub open spec fn by_time(v: IndexView, start: int, end: int, p: Seq<usize>) -> bool {
    &&& forall|t: int|
        0 <= t < p.len() ==> #[trigger] p[t] < v.files.len() && in_window(v, p[t] as int, start, end)
    &&& forall|f: usize| f < v.files.len() && in_window(v, f as int, start, end) ==> p.contains(f)
    &&& forall|a: int, b: int| 0 <= a < b < p.len() ==> p[a] != p[b]
    &&& forall|a: int, b: int|
        0 <= a < b < p.len() ==> v.files[p[a] as int].modified < v.files[p[b] as int].modified || (
        v.files[p[a] as int].modified == v.files[p[b] as int].modified && p[a] < p[b])
}

/// Sorts `ids` in increasing order and drops repeats.
pub fn sorted_unique(ids: &Vec<usize>) -> (r: Vec<usize>)
    ensures
        forall|x: int| id_in(r@, x) <==> id_in(ids@, x),
        forall|i: int, j: int| 0 <= i < j < r@.len() ==> r@[i] < r@[j],
{
    let mut r: Vec<usize> = Vec::new();
    let mut i: usize = 0;
    while i < ids.len()
        invariant
            i <= ids@.len(),
            forall|x: int| id_in(r@, x) <==> id_in(ids@.take(i as int), x),
            forall|a: int, b: int| 0 <= a < b < r@.len() ==> r@[a] < r@[b],
        decreases ids.len() - i,
    {
        let x = ids[i];
        let mut j: usize = 0;
        while j < r.len() && r[j] < x
            invariant
                j <= r@.len(),
                forall|a: int| 0 <= a < j ==> r@[a] < x,
                forall|a: int, b: int| 0 <= a < b < r@.len() ==> r@[a] < r@[b],
                forall|y: int| id_in(r@, y) <==> id_in(ids@.take(i as int), y),
            decreases r.len() - j,
        {
            j = j + 1;
        }
        let ghost before = r@;
        if j < r.len() && r[j] == x {
            assert(id_in(r@, x as int));
        }
        if j == r.len() || r[j] != x {
            r.insert(j, x);
            assert forall|a: int, b: int| 0 <= a < b < r@.len() implies r@[a] < r@[b] by {
                if b < j as int {
                } else if a < j as int && b == j as int {
                } else if a < j as int {
                    assert(r@[b] == before[b - 1]);
                    assert(before[j as int] > x);
                    if b - 1 > j as int {
                        assert(before[j as int] < before[b - 1]);
                    }
                } else if a == j as int {
                    assert(r@[b] == before[b - 1]);
                    if b - 1 > j as int {
                        assert(before[j as int] < before[b - 1]);
                    }
                } else {
                    assert(r@[a] == before[a - 1]);
                    assert(r@[b] == before[b - 1]);
                }
            }
            assert forall|y: int| id_in(r@, y) <==> id_in(before, y) || y == x by {
                if id_in(r@, y) {
                    let a = choose|a: int| 0 <= a < r@.len() && r@[a] as int == y;
                    if a < j as int {
                        assert(before[a] as int == y);
                    } else if a > j as int {
                        assert(before[a - 1] as int == y);
                    }
                }
                if id_in(before, y) {
                    let a = choose|a: int| 0 <= a < before.len() && before[a] as int == y;
                    if a < j as int {
                        assert(r@[a] as int == y);
                    } else {
                        assert(r@[a + 1] as int == y);
                    }
                }
                if y == x {
                    assert(r@[j as int] == x);
                }
            }
        }
        let ghost t0 = ids@.take(i as int);
        let ghost t1 = ids@.take(i as int + 1);
        assert forall|y: int| id_in(t1, y) <==> id_in(t0, y) || y == x by {
            if id_in(t1, y) {
                let a = choose|a: int| 0 <= a < t1.len() && t1[a] as int == y;
                if a < i {
                    assert(t0[a] as int == y);
                }
            }
            if id_in(t0, y) {
                let a = choose|a: int| 0 <= a < t0.len() && t0[a] as int == y;
                assert(t1[a] as int == y);
            }
            if y == x {
                assert(t1[i as int] == x);
            }
        }
        assert forall|y: int| id_in(r@, y) <==> id_in(t1, y) by {
            assert(id_in(before, y) <==> id_in(t0, y));
            assert(id_in(r@, y) <==> id_in(before, y) || y == x);
            assert(id_in(t1, y) <==> id_in(t0, y) || y == x);
        }
        i = i + 1;
    }
    assert(ids@.take(ids@.len() as int) == ids@);
    r
}

impl Index {
    proof fn lemma_describes(
        u: IndexUpdate,
        old: IndexView,
        new: IndexView,
        i: int,
        nsv: Seq<WordStem>,
        pv: Seq<IndexTuple>,
    )
        requires
            u.new_stems@ == nsv,
            u.postings@ == pv,
            u.file.id == i + 1,
            u.file.path@ == new.files[i].path,
            u.file.modified == new.files[i].modified,
            u.created == (i == old.files.len()),
            nsv.len() + old.stems.len() == new.stems.len(),
            forall|j: int|
                0 <= j < nsv.len() ==> {
                    &&& #[trigger] nsv[j].id == old.stems.len() + j + 1
                    &&& nsv[j].stem@ == new.stems[old.stems.len() + j]
                },
            pv.len() == new.files[i].words.len(),
            forall|k: int|
                0 <= k < pv.len() ==> {
                    &&& #[trigger] pv[k].file == i + 1
                    &&& pv[k].stem == new.files[i].words[k].0
                    &&& pv[k].offset == k
                    &&& pv[k].word@ == new.files[i].words[k].1
                },
        ensures
            describes(u, old, new, i),
    {
        assert(u.file.id == i + 1);
        assert(u.file.path@ == new.files[i].path);
        assert(u.file.modified == new.files[i].modified);
        assert(u.created == (i == old.files.len()));
        assert(u.new_stems@.len() + old.stems.len() == new.stems.len());
        assert(u.postings@.len() == new.files[i].words.len());
        assert(forall|j: int|
        0 <= j < u.new_stems@.len() ==> {
            &&& #[trigger] u.new_stems@[j].id == old.stems.len() + j + 1
            &&& u.new_stems@[j].stem@ == new.stems[old.stems.len() + j]
        });
    }

    /// The internal invariant: the tables are valid and the two lookup maps
    /// give each path and each stem its id.
    pub closed spec fn wf(&self) -> bool {
        &&& valid(self@)
        &&& self.files@.len() < usize::MAX
        &&& self.stems@.len() < usize::MAX
        &&& forall|p: Seq<char>| #[trigger]
            self.path_ids@.contains_key(p) <==> has_path(self@, p)
        &&& forall|i: int|
            0 <= i < self.files@.len() ==> self.path_ids@[#[trigger] self.files@[i].path@] == i + 1
        &&& forall|s: Seq<char>| #[trigger]
            self.stem_ids@.contains_key(s) <==> has_stem(self@, s)
        &&& forall|i: int|
            0 <= i < self.stems@.len() ==> self.stem_ids@[#[trigger] self.stems@[i]@] == i + 1
    }

    /// Every index that the library builds satisfies the table invariants.
    pub proof fn lemma_valid(&self)
        requires
            self.wf(),
        ensures
            valid(self@),
    {
    }

    /// An empty index.
    pub fn new() -> (r: Index)
        ensures
            r.wf(),
            r@.files.len() == 0,
            r@.stems.len() == 0,
    {
        let r = Index {
            files: Vec::new(),
            path_ids: StringHashMap::new(),
            stems: Vec::new(),
            stem_ids: StringHashMap::new(),
        };
        assert(r@.files.len() == 0);
        r
    }

    /// The number of monitored files.
    pub fn file_count(&self) -> (r: usize)
        ensures
            r == self@.files.len(),
    {
        self.files.len()
    }

    /// The number of stems.
    pub fn stem_count(&self) -> (r: usize)
        ensures
            r == self@.stems.len(),
    {
        self.stems.len()
    }

    /// The position of the file with path `path`.
    fn position_of(&self, path: &str) -> (r: Option<usize>)
        requires
            self.wf(),
        ensures
            match r {
                Some(i) => i < self@.files.len() && self@.files[i as int].path == path@,
                None => !has_path(self@, path@),
            },
    {
        match self.path_ids.get(path) {
            Some(id) => {
                let ghost i = choose|i: int| 0 <= i < self@.files.len() && self@.files[i].path == path@;
                assert(self.files@[i].path@ == path@);
                Some(*id - 1)
            },
            None => None,
        }
    }

    /// The file row with path `path`, if there is one.
    pub fn lookup_file(&self, path: &str) -> (r: Option<MonitoredFile>)
        requires
            self.wf(),
        ensures
            match r {
                Some(m) => {
                    &&& 1 <= m.id <= self@.files.len()
                    &&& self@.files[m.id - 1].path == path@
                    &&& m.path@ == path@
                    &&& m.modified == self@.files[m.id - 1].modified
                },
                None => !has_path(self@, path@),
            },
    {
        match self.position_of(path) {
            Some(i) => Some(
                MonitoredFile {
                    id: i + 1,
                    path: self.files[i].path.clone(),
                    modified: self.files[i].modified,
                },
            ),
            None => None,
        }
    }

    /// Adds a file row with no postings; refused when the path is already
    /// monitored or no id is left.
    pub fn insert_file(&mut self, path: &str, modified: u64) -> (r: Option<usize>)
        requires
            old(self).wf(),
        ensures
            final(self).wf(),
            r is None <==> has_path(old(self)@, path@) || !file_room(old(self)@),
            r is None ==> final(self)@ == old(self)@,
            r matches Some(id) ==> {
                &&& id == old(self)@.files.len() + 1
                &&& final(self)@.stems == old(self)@.stems
                &&& final(self)@.files == old(self)@.files.push(
                    FileView { path: path@, modified: modified as int, words: Seq::empty() },
                )
            },
    {
        if self.files.len() >= usize::MAX - 1 {
            return None;
        }
        match self.position_of(path) {
            Some(_) => None,
            None => {
                let ghost old_self = *self;
                let id = self.files.len() + 1;
                let rec = FileRecord { path: path.to_owned(), modified, words: Vec::new() };
                self.files.push(rec);
                self.path_ids.insert(path.to_owned(), id);
                let ghost rv = FileView { path: path@, modified: modified as int, words: Seq::empty() };
                assert(self.files@.last().words@.len() == 0);
                assert(record_view(self.files@.last()).words =~= rv.words);
                assert(record_view(self.files@.last()) == rv);
                assert(self@.files =~= old_self@.files.push(rv));
                assert(self@.stems =~= old_self@.stems);
                assert forall|p: Seq<char>| #[trigger]
                    self.path_ids@.contains_key(p) <==> has_path(self@, p) by {
                    if p == path@ {
                        assert(self@.files[id - 1].path == p);
                    }
                    if has_path(old_self@, p) {
                        let i = choose|i: int| 0 <= i < old_self@.files.len() && old_self@.files[i].path == p;
                        assert(self@.files[i].path == p);
                    }
                    if has_path(self@, p) && p != path@ {
                        let i = choose|i: int| 0 <= i < self@.files.len() && self@.files[i].path == p;
                        assert(old_self@.files[i].path == p);
                    }
                }
                assert forall|i: int|
                    0 <= i < self.files@.len() implies self.path_ids@[#[trigger] self.files@[i].path@] == i + 1 by {
                    if i < id - 1 {
                        assert(old_self@.files[i].path == old_self.files@[i].path@);
                        assert(old_self.files@[i].path@ != path@);
                    }
                }
                Some(id)
            },
        }
    }

    /// The id of stem `stem`, if it is in the stem table.
    pub fn stem_id(&self, stem: &str) -> (r: Option<usize>)
        requires
            self.wf(),
        ensures
            match r {
                Some(id) => 1 <= id <= self@.stems.len() && self@.stems[id - 1] == stem@,
                None => !has_stem(self@, stem@),
            },
    {
        match self.stem_ids.get(stem) {
            Some(id) => {
                let ghost i = choose|i: int| 0 <= i < self@.stems.len() && self@.stems[i] == stem@;
                assert(self.stems@[i]@ == stem@);
                Some(*id)
            },
            None => None,
        }
    }

    fn add_stem(&mut self, stem: String) -> (r: usize)
        requires
            old(self).wf(),
            !has_stem(old(self)@, stem@),
            stem@.len() > 0,
            old(self)@.stems.len() + 1 < usize::MAX,
        ensures
            final(self).wf(),
            r == old(self)@.stems.len() + 1,
            final(self)@.stems == old(self)@.stems.push(stem@),
            final(self)@.files == old(self)@.files,
    {
        let ghost old_self = *self;
        let id = self.stems.len() + 1;
        let key = stem.clone();
        self.stems.push(stem);
        self.stem_ids.insert(key, id);
        assert(self@.stems =~= old_self@.stems.push(stem@));
        assert(self@.files =~= old_self@.files);
        assert forall|p: Seq<char>| #[trigger]
            self.stem_ids@.contains_key(p) <==> has_stem(self@, p) by {
            if p == stem@ {
                assert(self@.stems[id - 1] == p);
            }
            if has_stem(old_self@, p) {
                let i = choose|i: int| 0 <= i < old_self@.stems.len() && old_self@.stems[i] == p;
                assert(self@.stems[i] == p);
            }
            if has_stem(self@, p) && p != stem@ {
                let i = choose|i: int| 0 <= i < self@.stems.len() && self@.stems[i] == p;
                assert(old_self@.stems[i] == p);
            }
        }
        assert forall|i: int|
            0 <= i < self.stems@.len() implies self.stem_ids@[#[trigger] self.stems@[i]@] == i + 1 by {
            if i < id - 1 {
                assert(old_self@.stems[i] == old_self.stems@[i]@);
                assert(old_self.stems@[i]@ != stem@);
            }
        }
        id
    }

    /// Adds a stem row; refused when the stem is empty, already present, or
    /// no id is left.
    pub fn insert_stem(&mut self, stem: &str) -> (r: Option<usize>)
        requires
            old(self).wf(),
        ensures
            final(self).wf(),
            r is None <==> stem@.len() == 0 || has_stem(old(self)@, stem@) || old(self)@.stems.len()
                + 1 >= usize::MAX,
            r is None ==> final(self)@ == old(self)@,
            r matches Some(id) ==> {
                &&& id == old(self)@.stems.len() + 1
                &&& final(self)@.stems == old(self)@.stems.push(stem@)
                &&& final(self)@.files == old(self)@.files
            },
    {
        if stem.is_empty() || self.stems.len() >= usize::MAX - 1 {
            return None;
        }
        match self.stem_id(stem) {
            Some(_) => None,
            None => Some(self.add_stem(stem.to_owned())),
        }
    }

    proof fn lemma_same_paths(old_self: Index, new_self: Index)
        requires
            old_self.wf(),
            new_self.path_ids@ == old_self.path_ids@,
            new_self.stem_ids@ == old_self.stem_ids@,
            new_self.stems@ == old_self.stems@,
            new_self.files@.len() == old_self.files@.len(),
            forall|j: int|
                0 <= j < new_self.files@.len() ==> #[trigger] new_self.files@[j].path@
                    == old_self.files@[j].path@,
            forall|f: int, k: int|
                0 <= f < new_self@.files.len() && 0 <= k < new_self@.files[f].words.len() ==> 1
                    <= #[trigger] new_self@.files[f].words[k].0 <= new_self@.stems.len(),
        ensures
            new_self.wf(),
            new_self@.stems == old_self@.stems,
    {
        assert(new_self@.stems =~= old_self@.stems);
        assert forall|p: Seq<char>| has_path(new_self@, p) <==> has_path(old_self@, p) by {
            if has_path(new_self@, p) {
                let j = choose|j: int| 0 <= j < new_self@.files.len() && new_self@.files[j].path == p;
                assert(old_self@.files[j].path == p);
            }
            if has_path(old_self@, p) {
                let j = choose|j: int| 0 <= j < old_self@.files.len() && old_self@.files[j].path == p;
                assert(new_self@.files[j].path == p);
            }
        }
        assert forall|i: int, j: int|
            0 <= i < new_self@.files.len() && 0 <= j < new_self@.files.len() && i != j implies new_self@.files[i].path
                != new_self@.files[j].path by {
            assert(new_self@.files[i].path == old_self@.files[i].path);
            assert(new_self@.files[j].path == old_self@.files[j].path);
        }
    }

    fn set_file(&mut self, i: usize, modified: u64, words: Vec<Occurrence>)
        requires
            old(self).wf(),
            i < old(self)@.files.len(),
            forall|k: int|
                0 <= k < words@.len() ==> 1 <= #[trigger] words@[k].stem <= old(self)@.stems.len(),
        ensures
            final(self).wf(),
            final(self)@.stems == old(self)@.stems,
            final(self)@.files == old(self)@.files.update(
                i as int,
                FileView {
                    path: old(self)@.files[i as int].path,
                    modified: modified as int,
                    words: words@.map_values(|o: Occurrence| occurrence_view(o)),
                },
            ),
    {
        let ghost old_self = *self;
        let ghost wv = words@.map_values(|o: Occurrence| occurrence_view(o));
        self.files[i].modified = modified;
        self.files[i].words = words;
        let ghost rv = FileView { path: old_self@.files[i as int].path, modified: modified as int, words: wv };
        assert(record_view(self.files@[i as int]) == rv);
        assert(self@.files =~= old_self@.files.update(i as int, rv));
        proof {
            assert forall|f: int, k: int|
                0 <= f < self@.files.len() && 0 <= k < self@.files[f].words.len() implies 1 <= #[trigger] self@.files[f].words[k].0
                    <= self@.stems.len() by {
                if f != i {
                    assert(self@.files[f] == old_self@.files[f]);
                } else {
                    assert(self@.files[f].words[k] == occurrence_view(words@[k]));
                }
            }
            Self::lemma_same_paths(old_self, *self);
        }
    }

    /// Sets the modification time of the file with path `path`; nothing
    /// changes when no file has that path.
    pub fn update_mtime(&mut self, path: &str, modified: u64)
        requires
            old(self).wf(),
        ensures
            final(self).wf(),
            final(self)@.stems == old(self)@.stems,
            !has_path(old(self)@, path@) ==> final(self)@ == old(self)@,
            forall|i: int|
                0 <= i < old(self)@.files.len() && old(self)@.files[i].path == path@ ==> final(self)@.files
                    == old(self)@.files.update(
                    i,
                    FileView { modified: modified as int, ..old(self)@.files[i] },
                ),
    {
        match self.position_of(path) {
            Some(i) => {
                let ghost old_self = *self;
                self.files[i].modified = modified;
                proof {
                    let rv = FileView { modified: modified as int, ..old_self@.files[i as int] };
                    assert(record_view(self.files@[i as int]) == rv);
                    assert(self@.files =~= old_self@.files.update(i as int, rv));
                    assert forall|f: int, k: int|
                        0 <= f < self@.files.len() && 0 <= k < self@.files[f].words.len() implies 1 <= #[trigger] self@.files[f].words[k].0
                            <= self@.stems.len() by {
                        assert(self@.files[f].words == old_self@.files[f].words);
                    }
                    Self::lemma_same_paths(old_self, *self);
                    assert forall|j: int|
                        0 <= j < old_self@.files.len() && old_self@.files[j].path == path@ implies self@.files
                            == old_self@.files.update(j, FileView { modified: modified as int, ..old_self@.files[j] }) by {
                        assert(j == i);
                    }
                }
            },
            None => {},
        }
    }

    /// Deletes every posting of the file with id `file_id`; nothing changes
    /// when no file has that id.
    pub fn clear_postings(&mut self, file_id: usize)
        requires
            old(self).wf(),
        ensures
            final(self).wf(),
            final(self)@.stems == old(self)@.stems,
            !(1 <= file_id <= old(self)@.files.len()) ==> final(self)@ == old(self)@,
            1 <= file_id <= old(self)@.files.len() ==> final(self)@.files == old(self)@.files.update(
                file_id - 1,
                FileView { words: Seq::empty(), ..old(self)@.files[file_id - 1] },
            ),
    {
        if 1 <= file_id && file_id <= self.files.len() {
            let m = self.files[file_id - 1].modified;
            let ghost before = self@;
            self.set_file(file_id - 1, m, Vec::new());
            assert(self@.files[file_id - 1].words =~= Seq::empty());
            assert(self@.files =~= before.files.update(
                file_id - 1,
                FileView { words: Seq::empty(), ..before.files[file_id - 1] },
            ));
        }
    }

    /// Appends a posting read back from storage. It is accepted only when its
    /// file and stem exist and its offset is the next one of that file.
    pub fn insert_posting(&mut self, t: &IndexTuple) -> (r: bool)
        requires
            old(self).wf(),
        ensures
            final(self).wf(),
            final(self)@.stems == old(self)@.stems,
            r <==> 1 <= t.file <= old(self)@.files.len() && 1 <= t.stem <= old(self)@.stems.len()
                && t.offset == old(self)@.files[t.file - 1].words.len(),
            !r ==> final(self)@ == old(self)@,
            r ==> final(self)@.files == old(self)@.files.update(
                t.file - 1,
                FileView {
                    words: old(self)@.files[t.file - 1].words.push((t.stem as int, t.word@)),
                    ..old(self)@.files[t.file - 1]
                },
            ),
    {
        if !(1 <= t.file && t.file <= self.files.len() && 1 <= t.stem && t.stem <= self.stems.len()) {
            return false;
        }
        if t.offset != self.files[t.file - 1].words.len() {
            return false;
        }
        let ghost old_self = *self;
        let i = t.file - 1;
        self.files[i].words.push(Occurrence { stem: t.stem, word: t.word.clone() });
        proof {
            let rv = FileView {
                words: old_self@.files[i as int].words.push((t.stem as int, t.word@)),
                ..old_self@.files[i as int]
            };
            assert(record_view(self.files@[i as int]).words =~= rv.words);
            assert(self@.files =~= old_self@.files.update(i as int, rv));
            assert forall|f: int, k: int|
                0 <= f < self@.files.len() && 0 <= k < self@.files[f].words.len() implies 1 <= #[trigger] self@.files[f].words[k].0
                    <= self@.stems.len() by {
                if f != i {
                    assert(self@.files[f] == old_self@.files[f]);
                } else if k < old_self@.files[f].words.len() {
                    assert(self@.files[f].words[k] == old_self@.files[f].words[k]);
                }
            }
            Self::lemma_same_paths(old_self, *self);
        }
        true
    }

    /// Whether the file at `path`, last modified at `modified`, needs
    /// indexing.
    pub fn needs_index(&self, path: &str, modified: u64) -> (r: bool)
        requires
            self.wf(),
        ensures
            r == stale(self@, path@, modified as int),
    {
        match self.position_of(path) {
            Some(i) => self.files[i].modified < modified,
            None => true,
        }
    }

    /// Indexes `text` as the contents of the file at `path`, last modified at
    /// `modified`. Nothing changes when the stored row is as recent, or when
    /// the ids run out.
    #[verifier::rlimit(40)]
    pub fn index_file(&mut self, path: &str, modified: u64, text: &str) -> (r: Option<IndexUpdate>)
        requires
            old(self).wf(),
        ensures
            final(self).wf(),
            r is None <==> !stale(old(self)@, path@, modified as int) || !index_room(
                old(self)@,
                path@,
                text@,
            ),
            r is None ==> final(self)@ == old(self)@,
            r matches Some(u) ==> reindexed(
                old(self)@,
                final(self)@,
                u.file.id - 1,
                path@,
                modified as int,
                text@,
            ) && describes(u, old(self)@, final(self)@, u.file.id - 1),
    {
        let pos = self.position_of(path);
        match pos {
            Some(i) => {
                if self.files[i].modified >= modified {
                    return None;
                }
            },
            None => {
                if self.files.len() >= usize::MAX - 1 {
                    return None;
                }
            },
        }
        let (words, stems) = stemmed_words(text);
        let ghost wv = words@.map_values(|w: String| w@);
        if words.len() >= usize::MAX - 1 || self.stems.len() >= usize::MAX - 1 - words.len() {
            return None;
        }
        let file_id: usize = match pos {
            Some(i) => i + 1,
            None => self.files.len() + 1,
        };
        let ghost before = self@;
        let base = self.stems.len();
        let mut occ: Vec<Occurrence> = Vec::new();
        let mut new_stems: Vec<WordStem> = Vec::new();
        let mut postings: Vec<IndexTuple> = Vec::new();
        let mut k: usize = 0;
        while k < words.len()
            invariant
                self.wf(),
                wv == words@.map_values(|w: String| w@),
                stems@.len() == words@.len(),
                forall|j: int| 0 <= j < stems@.len() ==> #[trigger] stems@[j]@ == stem_of(words@[j]@),
                forall|j: int| 0 <= j < stems@.len() ==> #[trigger] stems@[j]@.len() > 0,
                base == before.stems.len(),
                base + words@.len() + 1 < usize::MAX,
                k <= words@.len(),
                self@.files == before.files,
                base <= self@.stems.len() <= base + k,
                self@.stems.subrange(0, base as int) == before.stems,
                forall|j: int|
                    base <= j < self@.stems.len() ==> stem_from(#[trigger] self@.stems[j], wv),
                postings_match(
                    self@.stems,
                    occ@.map_values(|o: Occurrence| occurrence_view(o)),
                    wv.take(k as int),
                ),
                new_stems@.len() + base == self@.stems.len(),
                forall|j: int|
                    0 <= j < new_stems@.len() ==> {
                        &&& #[trigger] new_stems@[j].id == base + j + 1
                        &&& new_stems@[j].stem@ == self@.stems[base + j]
                    },
                postings@.len() == k,
                forall|j: int|
                    0 <= j < k ==> {
                        &&& #[trigger] postings@[j].file == file_id
                        &&& postings@[j].stem == occ@[j].stem
                        &&& postings@[j].offset == j
                        &&& postings@[j].word@ == occ@[j].word@
                    },
            decreases words.len() - k,
        {
            let ghost prev = self@;
            let ghost prev_occ = occ@.map_values(|o: Occurrence| occurrence_view(o));
            let sid: usize = match self.stem_id(stems[k].as_str()) {
                Some(id) => id,
                None => {
                    let id = self.add_stem(stems[k].clone());
                    new_stems.push(WordStem { id, stem: stems[k].clone() });
                    proof {
                        assert(self@.stems.subrange(0, base as int) =~= prev.stems.subrange(0, base as int));
                        assert(self@.stems[id - 1] == stems@[k as int]@);
                        assert forall|j: int| 0 <= j < new_stems@.len() implies {
                            &&& #[trigger] new_stems@[j].id == base + j + 1
                            &&& new_stems@[j].stem@ == self@.stems[base + j]
                        } by {
                            if j < new_stems@.len() - 1 {
                                assert(self@.stems[base + j] == prev.stems[base + j]);
                            }
                        }
                        assert forall|j: int|
                            base <= j < self@.stems.len() implies stem_from(#[trigger] self@.stems[j], wv) by {
                            if j < prev.stems.len() {
                                assert(self@.stems[j] == prev.stems[j]);
                            } else {
                                assert(self@.stems[j] == stem_of(wv[k as int]));
                            }
                        }
                    }
                    id
                },
            };
            assert(self@.stems[sid - 1] == stem_of(wv[k as int]));
            occ.push(Occurrence { stem: sid, word: words[k].clone() });
            postings.push(IndexTuple { file: file_id, stem: sid, offset: k, word: words[k].clone() });
            proof {
                let ov = occ@.map_values(|o: Occurrence| occurrence_view(o));
                assert(ov =~= prev_occ.push((sid as int, wv[k as int])));
                assert forall|j: int| 0 <= j < ov.len() implies {
                    &&& 1 <= #[trigger] ov[j].0 <= self@.stems.len()
                    &&& ov[j].1 == wv.take(k as int + 1)[j]
                    &&& self@.stems[ov[j].0 - 1] == stem_of(wv.take(k as int + 1)[j])
                } by {
                    if j < k {
                        assert(prev.stems[ov[j].0 - 1] == self@.stems[ov[j].0 - 1]);
                    }
                }
            }
            k = k + 1;
        }
        assert(wv.take(words@.len() as int) == wv);
        let ghost loop_end = self@;
        let created = pos.is_none();
        if created {
            let _ = self.insert_file(path, modified);
        }
        let ghost mid = self@;
        let ghost occ_view = occ@.map_values(|o: Occurrence| occurrence_view(o));
        proof {
            let ov = occ@.map_values(|o: Occurrence| occurrence_view(o));
            assert forall|j: int| 0 <= j < occ@.len() implies 1 <= #[trigger] occ@[j].stem <= mid.stems.len() by {
                assert(ov[j].0 == occ@[j].stem);
            }
        }
        self.set_file(file_id - 1, modified, occ);
        proof {
            let i = file_id - 1;
            assert(self@.files[i as int].words == occ_view);
            assert forall|j: int| 0 <= j < postings@.len() implies {
                &&& #[trigger] postings@[j].file == i + 1
                &&& postings@[j].stem == self@.files[i as int].words[j].0
                &&& postings@[j].offset == j
                &&& postings@[j].word@ == self@.files[i as int].words[j].1
            } by {
                assert(postings@[j].file == file_id);
                assert(occ_view[j] == occurrence_view(occ@[j]));
            }
            assert forall|j: int| 0 <= j < new_stems@.len() implies {
                &&& #[trigger] new_stems@[j].id == before.stems.len() + j + 1
                &&& new_stems@[j].stem@ == self@.stems[before.stems.len() + j]
            } by {
                assert(base == before.stems.len());
                assert(self@.stems == loop_end.stems);
                assert(new_stems@[j].id == base + j + 1);
                assert(new_stems@[j].stem@ == loop_end.stems[base + j]);
            }
        }
        let ghost nsv = new_stems@;
        let ghost pv = postings@;
        let u = IndexUpdate {
            file: MonitoredFile { id: file_id, path: path.to_owned(), modified },
            created,
            new_stems,
            postings,
        };
        proof {
            let i = file_id - 1;
            let ov = self@.files[i as int].words;
            let rec = FileView { path: path@, modified: modified as int, words: ov };
            assert(self@.stems == loop_end.stems);
            if created {
                assert(self@.files =~= before.files.push(rec));
            } else {
                assert(self@.files =~= before.files.update(i as int, rec));
            }
            let words = indexed_words(text@);
            assert(words == wv);
            assert(before.stems.len() <= self@.stems.len());
            assert(self@.stems.subrange(0, before.stems.len() as int) == before.stems);
            assert forall|j: int|
                before.stems.len() <= j < self@.stems.len() implies stem_from(#[trigger] self@.stems[j], words) by {
                assert(loop_end.stems[j] == self@.stems[j]);
            }
            assert(0 <= i <= before.files.len());
            assert(postings_match(self@.stems, self@.files[i as int].words, words));
            if !created {
                assert(before.files[i as int].path == path@);
            } else {
                assert(!has_path(before, path@));
            }
            let rec2 = FileView { path: path@, modified: modified as int, words: self@.files[i as int].words };
            assert(i < before.files.len() ==> before.files[i as int].path == path@ && self@.files == before.files.update(i as int, rec2));
            assert(i == before.files.len() ==> !has_path(before, path@) && self@.files == before.files.push(rec2));
            assert(reindexed(before, self@, i as int, path@, modified as int, text@));
            assert(before == old(self)@);
            assert(u.file.id == i + 1);
            assert(u.file.path@ == self@.files[i as int].path);
            assert(u.file.modified == self@.files[i as int].modified);
            assert(u.created == (i == before.files.len()));
            assert(u.new_stems@.len() + before.stems.len() == self@.stems.len());
            assert(u.postings@.len() == self@.files[i as int].words.len());
            assert(u.new_stems@ == nsv);
            assert(u.postings@ == pv);
            assert forall|j: int| 0 <= j < u.new_stems@.len() implies {
                &&& #[trigger] u.new_stems@[j].id == before.stems.len() + j + 1
                &&& u.new_stems@[j].stem@ == self@.stems[before.stems.len() + j]
            } by {
                assert(nsv[j].id == before.stems.len() + j + 1);
            }
            assert forall|j: int| 0 <= j < u.postings@.len() implies {
                &&& #[trigger] u.postings@[j].file == i + 1
                &&& u.postings@[j].stem == self@.files[i as int].words[j].0
                &&& u.postings@[j].offset == j
                &&& u.postings@[j].word@ == self@.files[i as int].words[j].1
            } by {
                assert(pv[j].file == i + 1);
            }
            Self::lemma_describes(u, before, self@, i as int, nsv, pv);
            assert(describes(u, before, self@, i as int));
        }
        Some(u)
    }

    /// The positions of the files with a posting whose stem is one of `ids`,
    /// in increasing order.
    pub fn files_with_stems(&self, ids: &Vec<usize>) -> (r: Vec<usize>)
        requires
            self.wf(),
        ensures
            forall|t: int|
                0 <= t < r@.len() ==> r@[t] < self@.files.len() && file_has_hit(
                    self@,
                    #[trigger] r@[t] as int,
                    ids@,
                ),
            forall|a: int, b: int| 0 <= a < b < r@.len() ==> r@[a] < r@[b],
            forall|f: int|
                0 <= f < self@.files.len() && file_has_hit(self@, f, ids@) ==> r@.contains(
                    f as usize,
                ),
    {
        let mut r: Vec<usize> = Vec::new();
        let mut f: usize = 0;
        while f < self.files.len()
            invariant
                self.wf(),
                f <= self@.files.len(),
                forall|t: int|
                    0 <= t < r@.len() ==> r@[t] < f && file_has_hit(
                        self@,
                        #[trigger] r@[t] as int,
                        ids@,
                    ),
                forall|a: int, b: int| 0 <= a < b < r@.len() ==> r@[a] < r@[b],
                forall|g: int| 0 <= g < f && file_has_hit(self@, g, ids@) ==> r@.contains(g as usize),
            decreases self.files.len() - f,
        {
            let n = self.files[f].words.len();
            let ghost wv = self@.files[f as int].words;
            assert(wv.len() == n);
            let mut found = false;
            let mut k: usize = 0;
            while k < n && !found
                invariant
                    self.wf(),
                    f < self@.files.len(),
                    wv == self@.files[f as int].words,
                    n == wv.len(),
                    k <= n,
                    found ==> file_has_hit(self@, f as int, ids@),
                    !found ==> forall|kk: int| 0 <= kk < k ==> !id_in(ids@, #[trigger] wv[kk].0),
                decreases n - k + (if found { 0int } else { 1int }),
            {
                let st = self.files[f].words[k].stem;
                assert(wv[k as int].0 == st);
                if contains_id(ids, st) {
                    found = true;
                } else {
                    k = k + 1;
                }
            }
            let ghost before = r@;
            if found {
                r.push(f);
                assert forall|g: int| 0 <= g < f + 1 && file_has_hit(self@, g, ids@) implies r@.contains(g as usize) by {
                    if g < f {
                        let t = choose|t: int| 0 <= t < before.len() && before[t] == g as usize;
                        assert(r@[t] == g as usize);
                    } else {
                        assert(r@[before.len() as int] == f);
                    }
                }
            } else {
                assert(!file_has_hit(self@, f as int, ids@));
            }
            f = f + 1;
        }
        r
    }

    fn path_chars(&self, f: usize) -> (r: Vec<char>)
        requires
            self.wf(),
            f < self@.files.len(),
        ensures
            r@ == self@.files[f as int].path,
    {
        chars_of(self.files[f].path.as_str())
    }

    /// Orders distinct file positions by path.
    pub fn sort_by_path(&self, hits: &Vec<usize>) -> (r: Vec<usize>)
        requires
            self.wf(),
            forall|t: int| 0 <= t < hits@.len() ==> #[trigger] hits@[t] < self@.files.len(),
            forall|a: int, b: int| 0 <= a < b < hits@.len() ==> hits@[a] != hits@[b],
        ensures
            forall|f: usize| r@.contains(f) <==> hits@.contains(f),
            forall|t: int| 0 <= t < r@.len() ==> #[trigger] r@[t] < self@.files.len(),
            forall|a: int, b: int|
                0 <= a < b < r@.len() ==> seq_lt(
                    self@.files[r@[a] as int].path,
                    self@.files[r@[b] as int].path,
                ),
    {
        let ghost v = self@;
        let mut r: Vec<usize> = Vec::new();
        let mut i: usize = 0;
        while i < hits.len()
            invariant
                self.wf(),
                v == self@,
                i <= hits@.len(),
                forall|t: int| 0 <= t < hits@.len() ==> #[trigger] hits@[t] < v.files.len(),
                forall|a: int, b: int| 0 <= a < b < hits@.len() ==> hits@[a] != hits@[b],
                forall|f: usize| r@.contains(f) <==> hits@.take(i as int).contains(f),
                forall|t: int| 0 <= t < r@.len() ==> #[trigger] r@[t] < v.files.len(),
                forall|a: int, b: int|
                    0 <= a < b < r@.len() ==> seq_lt(v.files[r@[a] as int].path, v.files[r@[b] as int].path),
            decreases hits.len() - i,
        {
            let f = hits[i];
            let pf = self.path_chars(f);
            proof {
                v.files.len();
                assert(!r@.contains(f)) by {
                    if r@.contains(f) {
                        let a = choose|a: int| 0 <= a < i && hits@.take(i as int)[a] == f;
                        assert(hits@[a] == hits@[i as int]);
                    }
                }
            }
            let mut j: usize = 0;
            while j < r.len() && compare_chars(&self.path_chars(r[j]), &pf) < 0
                invariant
                    self.wf(),
                    v == self@,
                    j <= r@.len(),
                    pf@ == v.files[f as int].path,
                    forall|t: int| 0 <= t < r@.len() ==> #[trigger] r@[t] < v.files.len(),
                    forall|a: int| 0 <= a < j ==> seq_lt(v.files[r@[a] as int].path, pf@),
                    forall|g: usize| r@.contains(g) <==> hits@.take(i as int).contains(g),
                    !r@.contains(f),
                    forall|a: int, b: int|
                        0 <= a < b < r@.len() ==> seq_lt(v.files[r@[a] as int].path, v.files[r@[b] as int].path),
                decreases r.len() - j,
            {
                j = j + 1;
            }
            let ghost before = r@;
            assert(forall|g: usize| before.contains(g) <==> hits@.take(i as int).contains(g));
            proof {
                if j < r@.len() {
                    let g = r@[j as int];
                    assert(g != f);
                    assert(v.files[g as int].path != v.files[f as int].path);
                    assert(!seq_lt(v.files[g as int].path, pf@));
                    lemma_lt_total(v.files[g as int].path, pf@);
                }
            }
            r.insert(j, f);
            proof {
                assert forall|a: int, b: int|
                    0 <= a < b < r@.len() implies seq_lt(v.files[r@[a] as int].path, v.files[r@[b] as int].path) by {
                    let pa = v.files[r@[a] as int].path;
                    let pb = v.files[r@[b] as int].path;
                    if b < j {
                    } else if b == j {
                    } else if a == j {
                        if b - 1 > j {
                            lemma_lt_transitive(pf@, v.files[before[j as int] as int].path, pb);
                        }
                    } else if a < j {
                        assert(seq_lt(pa, pf@));
                        if b - 1 > j {
                            lemma_lt_transitive(pf@, v.files[before[j as int] as int].path, pb);
                        }
                        lemma_lt_transitive(pa, pf@, pb);
                    } else {
                        assert(r@[a] == before[a - 1]);
                        assert(r@[b] == before[b - 1]);
                    }
                }
                assert forall|g: usize| r@.contains(g) <==> hits@.take(i as int + 1).contains(g) by {
                    let t1 = hits@.take(i as int + 1);
                    let t0 = hits@.take(i as int);
                    assert(t1 == t0.push(f));
                    if r@.contains(g) {
                        let a = choose|a: int| 0 <= a < r@.len() && r@[a] == g;
                        if a != j {
                            if a < j {
                                assert(before[a] == g);
                            } else {
                                assert(before[a - 1] == g);
                            }
                            assert(before.contains(g));
                            assert(t0.contains(g));
                            let b = choose|b: int| 0 <= b < t0.len() && t0[b] == g;
                            assert(t1[b] == g);
                        } else {
                            assert(t1[i as int] == g);
                        }
                    }
                    if t1.contains(g) {
                        if g == f {
                            assert(r@[j as int] == f);
                        } else {
                            assert(t0.contains(g));
                            assert(before.contains(g));
                            let a = choose|a: int| 0 <= a < before.len() && before[a] == g;
                            if a < j {
                                assert(r@[a] == g);
                            } else {
                                assert(r@[a + 1] == g);
                            }
                        }
                    }
                }
            }
            i = i + 1;
        }
        assert(hits@.take(hits@.len() as int) == hits@);
        r
    }

    /// The postings of the file at position `f` whose stem is one of `ids`,
    /// joined with its path, ordered by stem id and then offset.
    pub fn file_rows(&self, f: usize, ids: &Vec<usize>) -> (r: Vec<SearchResult>)
        requires
            self.wf(),
            f < self@.files.len(),
            forall|a: int, b: int| 0 <= a < b < ids@.len() ==> ids@[a] < ids@[b],
        ensures
            forall|j: int|
                0 <= j < r@.len() ==> joins(self@, f as int, #[trigger] r@[j].offset as int, r@[j])
                    && id_in(ids@, r@[j].stem as int),
            forall|a: int, b: int|
                0 <= a < b < r@.len() ==> r@[a].stem < r@[b].stem || (r@[a].stem == r@[b].stem
                    && r@[a].offset < r@[b].offset),
            forall|k: int|
                0 <= k < self@.files[f as int].words.len() && id_in(
                    ids@,
                    #[trigger] self@.files[f as int].words[k].0,
                ) ==> exists|j: int| 0 <= j < r@.len() && r@[j].offset == k,
    {
        let ghost v = self@;
        let ghost wv = v.files[f as int].words;
        let n = self.files[f].words.len();
        let mut r: Vec<SearchResult> = Vec::new();
        let mut si: usize = 0;
        while si < ids.len()
            invariant
                self.wf(),
                v == self@,
                f < v.files.len(),
                wv == v.files[f as int].words,
                n == wv.len(),
                si <= ids@.len(),
                forall|a: int, b: int| 0 <= a < b < ids@.len() ==> ids@[a] < ids@[b],
                forall|j: int|
                    0 <= j < r@.len() ==> joins(v, f as int, #[trigger] r@[j].offset as int, r@[j]),
                forall|j: int|
                    0 <= j < r@.len() ==> in_prefix(ids@, si as int, #[trigger] r@[j].stem as int),
                forall|a: int, b: int|
                    0 <= a < b < r@.len() ==> r@[a].stem < r@[b].stem || (r@[a].stem == r@[b].stem
                        && r@[a].offset < r@[b].offset),
                forall|k: int|
                    0 <= k < n && in_prefix(ids@, si as int, #[trigger] wv[k].0)
                        ==> exists|j: int| 0 <= j < r@.len() && r@[j].offset == k,
            decreases ids.len() - si,
        {
            let s = ids[si];
            let ghost r0 = r@;
            assert forall|j: int|
                0 <= j < r0.len() implies in_prefix(ids@, si as int, #[trigger] r0[j].stem as int) by {
                assert(r0[j] == r@[j]);
            }
            let mut k: usize = 0;
            while k < n
                invariant
                    self.wf(),
                    v == self@,
                    f < v.files.len(),
                    wv == v.files[f as int].words,
                    n == wv.len(),
                    si < ids@.len(),
                    s == ids@[si as int],
                    k <= n,
                    forall|a: int, b: int| 0 <= a < b < ids@.len() ==> ids@[a] < ids@[b],
                    r0.len() <= r@.len(),
                    r@.subrange(0, r0.len() as int) == r0,
                    forall|j: int|
                        0 <= j < r@.len() ==> joins(v, f as int, #[trigger] r@[j].offset as int, r@[j]),
                    forall|j: int|
                        0 <= j < r0.len() ==> in_prefix(ids@, si as int, #[trigger] r0[j].stem as int),
                    forall|j: int| r0.len() <= j < r@.len() ==> #[trigger] r@[j].stem == s && r@[j].offset < k,
                    forall|a: int, b: int|
                        0 <= a < b < r@.len() ==> r@[a].stem < r@[b].stem || (r@[a].stem == r@[b].stem
                            && r@[a].offset < r@[b].offset),
                    forall|kk: int|
                        0 <= kk < n && in_prefix(ids@, si as int, #[trigger] wv[kk].0)
                            ==> exists|j: int| 0 <= j < r0.len() && r0[j].offset == kk,
                    forall|kk: int|
                        0 <= kk < k && #[trigger] wv[kk].0 == s ==> exists|j: int|
                            0 <= j < r@.len() && r@[j].offset == kk,
                decreases n - k,
            {
                if self.files[f].words[k].stem == s {
                    assert(wv[k as int].0 == s);
                    let row = SearchResult {
                        path: self.files[f].path.clone(),
                        word: self.files[f].words[k].word.clone(),
                        stem: s,
                        offset: k,
                    };
                    let ghost before = r@;
                    r.push(row);
                    proof {
                        assert(r@.subrange(0, r0.len() as int) =~= before.subrange(0, r0.len() as int));
                        assert forall|a: int, b: int|
                            0 <= a < b < r@.len() implies r@[a].stem < r@[b].stem || (r@[a].stem == r@[b].stem
                                && r@[a].offset < r@[b].offset) by {
                            if b == before.len() {
                                if a < r0.len() {
                                    assert(r0[a] == r@[a]);
                                    let x = choose|x: int| 0 <= x < si && ids@[x] as int == r0[a].stem as int;
                                    assert(ids@[x] < ids@[si as int]);
                                } else {
                                    assert(r@[a] == before[a]);
                                }
                            } else {
                                assert(r@[a] == before[a]);
                                assert(r@[b] == before[b]);
                            }
                        }
                        assert forall|kk: int|
                            0 <= kk < n && in_prefix(ids@, si as int, #[trigger] wv[kk].0)
                                implies exists|j: int| 0 <= j < r0.len() && r0[j].offset == kk by {}
                        assert forall|kk: int|
                            0 <= kk < k + 1 && #[trigger] wv[kk].0 == s implies exists|j: int|
                                0 <= j < r@.len() && r@[j].offset == kk by {
                            if kk == k {
                                assert(r@[before.len() as int].offset == kk);
                            } else {
                                let j = choose|j: int| 0 <= j < before.len() && before[j].offset == kk;
                                assert(r@[j].offset == kk);
                            }
                        }
                    }
                }
                k = k + 1;
            }
            proof {
                assert forall|j: int|
                    0 <= j < r@.len() implies in_prefix(ids@, si + 1, #[trigger] r@[j].stem as int) by {
                    if j < r0.len() {
                        assert(r0[j] == r@[j]);
                        assert(in_prefix(ids@, si as int, r0[j].stem as int));
                        let x = choose|x: int| 0 <= x < si && ids@[x] as int == r0[j].stem as int;
                        assert(ids@[x] as int == r@[j].stem as int);
                    } else {
                        assert(ids@[si as int] == r@[j].stem);
                        assert(0 <= si < si + 1);
                    }
                }
                assert forall|kk: int|
                    0 <= kk < n && in_prefix(ids@, si + 1, #[trigger] wv[kk].0)
                        implies exists|j: int| 0 <= j < r@.len() && r@[j].offset == kk by {
                    let a = choose|a: int| 0 <= a < si + 1 && ids@[a] as int == wv[kk].0;
                    if a < si {
                        assert(in_prefix(ids@, si as int, wv[kk].0));
                        let j = choose|j: int| 0 <= j < r0.len() && r0[j].offset == kk;
                        assert(r@[j] == r0[j]);
                    }
                }
            }
            si = si + 1;
        }
        proof {
            assert forall|j: int| 0 <= j < r@.len() implies id_in(ids@, r@[j].stem as int) by {
                assert(in_prefix(ids@, si as int, #[trigger] r@[j].stem as int));
            }
            assert forall|k: int|
                0 <= k < wv.len() && id_in(ids@, #[trigger] v.files[f as int].words[k].0) implies exists|j: int|
                    0 <= j < r@.len() && r@[j].offset == k by {
                assert(in_prefix(ids@, si as int, wv[k].0));
            }
        }
        r
    }

    /// The postings whose stem is one of `stem_ids`, each joined with its
    /// file's path, ordered by path, then stem id, then offset.
    pub fn postings_for_stems(&self, stem_ids: &Vec<usize>) -> (r: Vec<SearchResult>)
        requires
            self.wf(),
        ensures
            is_join(self@, stem_ids@, r@),
    {
        let ghost v = self@;
        let ids = sorted_unique(stem_ids);
        let hits = self.files_with_stems(&ids);
        let order = self.sort_by_path(&hits);
        let mut r: Vec<SearchResult> = Vec::new();
        let ghost mut tix: Seq<int> = Seq::empty();
        let mut t: usize = 0;
        while t < order.len()
            invariant
                self.wf(),
                v == self@,
                forall|x: int| id_in(ids@, x) <==> id_in(stem_ids@, x),
                forall|a: int, b: int| 0 <= a < b < ids@.len() ==> ids@[a] < ids@[b],
                forall|q: int| 0 <= q < order@.len() ==> #[trigger] order@[q] < v.files.len(),
                forall|a: int, b: int|
                    0 <= a < b < order@.len() ==> seq_lt(
                        v.files[order@[a] as int].path,
                        v.files[order@[b] as int].path,
                    ),
                t <= order@.len(),
                tix.len() == r@.len(),
                forall|j: int|
                    0 <= j < r@.len() ==> 0 <= #[trigger] tix[j] < t && joins(
                        v,
                        order@[tix[j]] as int,
                        r@[j].offset as int,
                        r@[j],
                    ) && id_in(ids@, r@[j].stem as int),
                forall|a: int, b: int| 0 <= a < b < r@.len() ==> row_lt(r@[a], r@[b]),
                forall|q: int, k: int|
                    0 <= q < t && 0 <= k < v.files[order@[q] as int].words.len() && id_in(
                        ids@,
                        #[trigger] v.files[order@[q] as int].words[k].0,
                    ) ==> exists|j: int| 0 <= j < r@.len() && joins(v, order@[q] as int, k, r@[j]),
            decreases order.len() - t,
        {
            let f = order[t];
            let mut rows = self.file_rows(f, &ids);
            let ghost r0 = r@;
            let ghost rv = rows@;
            r.append(&mut rows);
            proof {
                let tix0 = tix;
                tix = tix + Seq::new(rv.len(), |_j: int| t as int);
                assert(r@ =~= r0 + rv);
                assert forall|j: int|
                    0 <= j < r@.len() implies 0 <= #[trigger] tix[j] < t + 1 && joins(
                        v,
                        order@[tix[j]] as int,
                        r@[j].offset as int,
                        r@[j],
                    ) && id_in(ids@, r@[j].stem as int) by {
                    if j < r0.len() {
                        assert(tix[j] == tix0[j]);
                        assert(r@[j] == r0[j]);
                    } else {
                        assert(r@[j] == rv[j - r0.len()]);
                        assert(rv[j - r0.len()].offset == rv[j - r0.len()].offset);
                    }
                }
                assert forall|a: int, b: int| 0 <= a < b < r@.len() implies row_lt(r@[a], r@[b]) by {
                    if b < r0.len() {
                        assert(r@[a] == r0[a]);
                        assert(r@[b] == r0[b]);
                    } else if a >= r0.len() {
                        assert(r@[a] == rv[a - r0.len()]);
                        assert(r@[b] == rv[b - r0.len()]);
                        assert(rv[a - r0.len()].offset == rv[a - r0.len()].offset);
                        assert(rv[b - r0.len()].offset == rv[b - r0.len()].offset);
                    } else {
                        assert(r@[a] == r0[a]);
                        assert(tix0[a] < t);
                        assert(r@[b] == rv[b - r0.len()]);
                        assert(rv[b - r0.len()].offset == rv[b - r0.len()].offset);
                        assert(tix[a] == tix0[a]);
                        assert(joins(v, order@[tix[a]] as int, r@[a].offset as int, r@[a]));
                        assert(tix[b] == t);
                        assert(joins(v, order@[tix[b]] as int, r@[b].offset as int, r@[b]));
                        assert(r@[a].path@ == v.files[order@[tix0[a]] as int].path);
                        assert(r@[b].path@ == v.files[f as int].path);
                    }
                }
                assert forall|q: int, k: int|
                    0 <= q < t + 1 && 0 <= k < v.files[order@[q] as int].words.len() && id_in(
                        ids@,
                        #[trigger] v.files[order@[q] as int].words[k].0,
                    ) implies exists|j: int| 0 <= j < r@.len() && joins(v, order@[q] as int, k, r@[j]) by {
                    if q < t {
                        let j = choose|j: int| 0 <= j < r0.len() && joins(v, order@[q] as int, k, r0[j]);
                        assert(r@[j] == r0[j]);
                    } else {
                        let j = choose|j: int| 0 <= j < rv.len() && rv[j].offset == k;
                        assert(rv[j].offset == rv[j].offset);
                        assert(r@[r0.len() + j] == rv[j]);
                    }
                }
            }
            t = t + 1;
        }
        proof {
            assert forall|f: int, k: int|
                0 <= f < v.files.len() && 0 <= k < v.files[f].words.len() && id_in(
                    stem_ids@,
                    #[trigger] v.files[f].words[k].0,
                ) implies exists|j: int| 0 <= j < r@.len() && joins(v, f, k, r@[j]) by {
                assert(id_in(ids@, v.files[f].words[k].0));
                assert(file_has_hit(v, f, ids@));
                assert(hits@.contains(f as usize));
                assert(order@.contains(f as usize));
                let q = choose|q: int| 0 <= q < order@.len() && order@[q] == f as usize;
                assert(v.files[order@[q] as int].words[k].0 == v.files[f].words[k].0);
            }
            assert forall|j: int|
                0 <= j < r@.len() implies id_in(stem_ids@, #[trigger] r@[j].stem as int) && exists|f: int|
                    joins(self@, f, r@[j].offset as int, r@[j]) by {
                let f = order@[tix[j]] as int;
                assert(joins(v, f, r@[j].offset as int, r@[j]));
                assert(id_in(ids@, r@[j].stem as int));
            }
        }
        r
    }

    /// The paths of the files last modified in `[start, end)`, by
    /// modification time and equal times by id.
    pub fn files_modified_between(&self, start: i64, end: i64) -> (r: Vec<String>)
        requires
            self.wf(),
        ensures
            exists|p: Seq<usize>|
                #[trigger] by_time(self@, start as int, end as int, p) && r@.len() == p.len() && forall|t: int|
                    0 <= t < p.len() ==> #[trigger] r@[t]@ == self@.files[p[t] as int].path,
    {
        let ghost v = self@;
        let mut sel: Vec<usize> = Vec::new();
        let mut keys: Vec<u64> = Vec::new();
        let mut f: usize = 0;
        while f < self.files.len()
            invariant
                self.wf(),
                v == self@,
                f <= v.files.len(),
                keys@.len() == sel@.len(),
                forall|t: int|
                    0 <= t < sel@.len() ==> #[trigger] sel@[t] < f && in_window(v, sel@[t] as int, start as int, end as int)
                        && keys@[t] == u64::MAX - v.files[sel@[t] as int].modified,
                forall|a: int, b: int| 0 <= a < b < sel@.len() ==> sel@[a] < sel@[b],
                forall|g: usize| g < f && in_window(v, g as int, start as int, end as int) ==> sel@.contains(g),
            decreases self.files.len() - f,
        {
            let m = self.files[f].modified;
            let ghost before = sel@;
            if (m as i128) >= (start as i128) && (m as i128) < (end as i128) {
                sel.push(f);
                keys.push(u64::MAX - m);
                assert forall|g: usize| g < f + 1 && in_window(v, g as int, start as int, end as int) implies sel@.contains(g) by {
                    if g == f {
                        assert(sel@[before.len() as int] == f);
                    } else {
                        assert(before.contains(g));
                        let a = choose|a: int| 0 <= a < before.len() && before[a] == g;
                        assert(sel@[a] == g);
                    }
                }
            }
            f = f + 1;
        }
        let order = rank_order(&keys);
        let mut r: Vec<String> = Vec::new();
        let ghost mut p: Seq<usize> = Seq::empty();
        let mut t: usize = 0;
        while t < order.len()
            invariant
                self.wf(),
                v == self@,
                ranked(keys@, order@),
                keys@.len() == sel@.len(),
                forall|q: int|
                    0 <= q < sel@.len() ==> #[trigger] sel@[q] < v.files.len() && in_window(v, sel@[q] as int, start as int, end as int)
                        && keys@[q] == u64::MAX - v.files[sel@[q] as int].modified,
                forall|a: int, b: int| 0 <= a < b < sel@.len() ==> sel@[a] < sel@[b],
                forall|g: usize| g < v.files.len() && in_window(v, g as int, start as int, end as int) ==> sel@.contains(g),
                t <= order@.len(),
                p.len() == t,
                r@.len() == t,
                forall|q: int| 0 <= q < t ==> #[trigger] p[q] == sel@[order@[q] as int],
                forall|q: int| 0 <= q < t ==> #[trigger] r@[q]@ == v.files[p[q] as int].path,
            decreases order.len() - t,
        {
            let g = sel[order[t]];
            r.push(self.files[g].path.clone());
            proof {
                p = p.push(g);
            }
            t = t + 1;
        }
        proof {
            assert forall|q: int| 0 <= q < p.len() implies #[trigger] p[q] < v.files.len() && in_window(v, p[q] as int, start as int, end as int) by {
                assert(order@[q] < keys@.len());
                assert(p[q] == sel@[order@[q] as int]);
            }
            assert forall|g: usize| g < v.files.len() && in_window(v, g as int, start as int, end as int) implies p.contains(g) by {
                assert(sel@.contains(g));
                let a = choose|a: int| 0 <= a < sel@.len() && sel@[a] == g;
                let au = a as usize;
                assert(au < keys@.len());
                assert(order@.contains(au));
                let q = choose|q: int| 0 <= q < order@.len() && order@[q] == au;
                assert(p[q] == sel@[order@[q] as int]);
                assert(p[q] == g);
            }
            assert forall|a: int, b: int| 0 <= a < b < p.len() implies p[a] != p[b] by {
                assert(order@[a] != order@[b]);
                assert(p[a] == sel@[order@[a] as int]);
                assert(p[b] == sel@[order@[b] as int]);
                if order@[a] < order@[b] {
                    assert(sel@[order@[a] as int] < sel@[order@[b] as int]);
                } else {
                    assert(sel@[order@[b] as int] < sel@[order@[a] as int]);
                }
            }
            assert forall|a: int, b: int|
                0 <= a < b < p.len() implies v.files[p[a] as int].modified < v.files[p[b] as int].modified || (
                v.files[p[a] as int].modified == v.files[p[b] as int].modified && p[a] < p[b]) by {
                let oa = order@[a] as int;
                let ob = order@[b] as int;
                assert(p[a] == sel@[oa]);
                assert(p[b] == sel@[ob]);
                assert(keys@[oa] == u64::MAX - v.files[sel@[oa] as int].modified);
                assert(keys@[ob] == u64::MAX - v.files[sel@[ob] as int].modified);
                if keys@[oa] == keys@[ob] {
                    assert(oa < ob);
                    assert(sel@[oa] < sel@[ob]);
                }
            }
            assert(by_time(v, start as int, end as int, p));
        }
        r
    }
}

} // verus!
