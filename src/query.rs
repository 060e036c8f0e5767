use crate::index::{contains_id, id_in, is_join, Index, IndexView, SearchResult};
use crate::text::{stem_of, stem_word, tokenize, tokens_of};
use vstd::prelude::*;

verus! {

/// The postings of one stem in one file, in stream order.
pub struct StemHits {
    pub stem: usize,
    pub offsets: Vec<usize>,
    pub words: Vec<String>,
}

/// The postings of one file, grouped by stem.
pub struct FileHits {
    pub path: String,
    pub stems: Vec<StemHits>,
}

/// A stem group: stem id, offsets, and surface words.
pub type StemGroup = (int, Seq<int>, Seq<Seq<char>>);

/// The view of one stem group.
pub open spec fn stem_hits_view(h: StemHits) -> StemGroup {
    (h.stem as int, h.offsets@.map_values(|o: usize| o as int), h.words@.map_values(|w: String| w@))
}

/// The view of one file's groups.
pub open spec fn file_hits_view(h: FileHits) -> (Seq<char>, Seq<StemGroup>) {
    (h.path@, h.stems@.map_values(|s: StemHits| stem_hits_view(s)))
}

/// The runs of consecutive rows with the same path, as index ranges.
pub open spec fn path_runs(rows: Seq<SearchResult>) -> Seq<(int, int)>
    decreases rows.len(),
{
    if rows.len() == 0 {
        Seq::empty()
    } else {
        let prev = path_runs(rows.drop_last());
        let n = rows.len() as int;
        if n >= 2 && rows[n - 2].path@ == rows[n - 1].path@ {
            prev.update(prev.len() - 1, (prev.last().0, n))
        } else {
            prev.push((n - 1, n))
        }
    }
}

/// The runs of consecutive rows with the same stem, each with its offsets
/// and surface words.
pub open spec fn stem_groups(rows: Seq<SearchResult>) -> Seq<StemGroup>
    decreases rows.len(),
{
    if rows.len() == 0 {
        Seq::empty()
    } else {
        let prev = stem_groups(rows.drop_last());
        let n = rows.len() as int;
        let x = rows[n - 1];
        if n >= 2 && rows[n - 2].stem == x.stem {
            prev.update(
                prev.len() - 1,
                (x.stem as int, prev.last().1.push(x.offset as int), prev.last().2.push(x.word@)),
            )
        } else {
            prev.push((x.stem as int, seq![x.offset as int], seq![x.word@]))
        }
    }
}

/// Stem `s` is the stem of one of `rows`.
pub open spec fn stem_occurs(rows: Seq<SearchResult>, s: usize) -> bool {
    exists|j: int| 0 <= j < rows.len() && rows[j].stem == s
}

/// Every one of `ids` is the stem of one of `rows`.
pub open spec fn covers(rows: Seq<SearchResult>, ids: Seq<usize>) -> bool {
    forall|i: int| 0 <= i < ids.len() ==> stem_occurs(rows, #[trigger] ids[i])
}

/// The files among `runs` whose rows cover `ids`, each with its stem groups.
pub open spec fn kept_files(
    rows: Seq<SearchResult>,
    runs: Seq<(int, int)>,
    ids: Seq<usize>,
) -> Seq<(Seq<char>, Seq<StemGroup>)>
    decreases runs.len(),
{
    if runs.len() == 0 {
        Seq::empty()
    } else {
        let prev = kept_files(rows, runs.drop_last(), ids);
        let g = rows.subrange(runs.last().0, runs.last().1);
        if covers(g, ids) {
            prev.push((rows[runs.last().0].path@, stem_groups(g)))
        } else {
            prev
        }
    }
}

/// The collation of a posting stream: one entry per run of rows with the
/// same path whose stems include every one of `ids`.
pub open spec fn collated(rows: Seq<SearchResult>, ids: Seq<usize>) -> Seq<(Seq<char>, Seq<StemGroup>)> {
    kept_files(rows, path_runs(rows), ids)
}

proof fn lemma_path_runs_shape(rows: Seq<SearchResult>)
    ensures
        rows.len() > 0 ==> path_runs(rows).len() > 0 && path_runs(rows).last().1 == rows.len(),
        forall|t: int|
            0 <= t < path_runs(rows).len() ==> 0 <= #[trigger] path_runs(rows)[t].0 < path_runs(
                rows,
            )[t].1 <= rows.len(),
    decreases rows.len(),
{
    if rows.len() > 0 {
        let prev = path_runs(rows.drop_last());
        let cur = path_runs(rows);
        lemma_path_runs_shape(rows.drop_last());
        assert forall|t: int| 0 <= t < cur.len() implies 0 <= #[trigger] cur[t].0 < cur[t].1 <= rows.len() by {
            if t < prev.len() && !(t == prev.len() - 1 && cur.len() == prev.len()) {
                assert(cur[t] == prev[t]);
            }
        }
    }
}

/// The runs of consecutive rows of `rows` with the same path.
pub fn path_runs_of(rows: &Vec<SearchResult>) -> (r: Vec<(usize, usize)>)
    ensures
        r@.map_values(|p: (usize, usize)| (p.0 as int, p.1 as int)) == path_runs(rows@),
{
    let mut r: Vec<(usize, usize)> = Vec::new();
    let mut i: usize = 0;
    while i < rows.len()
        invariant
            i <= rows@.len(),
            r@.map_values(|p: (usize, usize)| (p.0 as int, p.1 as int)) == path_runs(rows@.take(i as int)),
        decreases rows.len() - i,
    {
        let ghost s = rows@.take(i as int + 1);
        assert(s.drop_last() == rows@.take(i as int));
        proof {
            lemma_path_runs_shape(rows@.take(i as int));
        }
        if i >= 1 && rows[i - 1].path == rows[i].path {
            let last = r.pop().unwrap();
            r.push((last.0, i + 1));
            assert(r@.map_values(|p: (usize, usize)| (p.0 as int, p.1 as int)) =~= path_runs(s));
        } else {
            r.push((i, i + 1));
            assert(r@.map_values(|p: (usize, usize)| (p.0 as int, p.1 as int)) =~= path_runs(s));
        }
        i = i + 1;
    }
    assert(rows@.take(rows@.len() as int) == rows@);
    r
}

proof fn lemma_stem_groups_shape(rows: Seq<SearchResult>)
    requires
        rows.len() > 0,
    ensures
        stem_groups(rows).len() > 0,
        stem_groups(rows).last().0 == rows.last().stem,
    decreases rows.len(),
{
    if rows.len() >= 2 {
        lemma_stem_groups_shape(rows.drop_last());
    }
}

/// The stem groups of `rows[a..b]`.
pub fn stem_groups_of(rows: &Vec<SearchResult>, a: usize, b: usize) -> (r: Vec<StemHits>)
    requires
        a <= b <= rows@.len(),
    ensures
        r@.map_values(|h: StemHits| stem_hits_view(h)) == stem_groups(rows@.subrange(a as int, b as int)),
{
    let mut r: Vec<StemHits> = Vec::new();
    let mut i: usize = a;
    assert(r@.map_values(|h: StemHits| stem_hits_view(h)) =~= stem_groups(rows@.subrange(a as int, a as int)));
    while i < b
        invariant
            a <= i <= b <= rows@.len(),
            r@.map_values(|h: StemHits| stem_hits_view(h)) == stem_groups(rows@.subrange(a as int, i as int)),
        decreases b - i,
    {
        let ghost s = rows@.subrange(a as int, i as int + 1);
        assert(s.drop_last() =~= rows@.subrange(a as int, i as int));
        let x = &rows[i];
        if i > a && rows[i - 1].stem == x.stem {
            proof {
                lemma_stem_groups_shape(rows@.subrange(a as int, i as int));
            }
            let mut last = r.pop().unwrap();
            let ghost lv = stem_hits_view(last);
            last.offsets.push(x.offset);
            last.words.push(x.word.clone());
            assert(last.offsets@.map_values(|o: usize| o as int) =~= lv.1.push(x.offset as int));
            assert(last.words@.map_values(|w: String| w@) =~= lv.2.push(x.word@));
            r.push(last);
            assert(r@.map_values(|h: StemHits| stem_hits_view(h)) =~= stem_groups(s));
        } else {
            let mut offsets: Vec<usize> = Vec::new();
            offsets.push(x.offset);
            let mut words: Vec<String> = Vec::new();
            words.push(x.word.clone());
            let h = StemHits { stem: x.stem, offsets, words };
            assert(h.offsets@.map_values(|o: usize| o as int) =~= seq![x.offset as int]);
            assert(h.words@.map_values(|w: String| w@) =~= seq![x.word@]);
            r.push(h);
            assert(r@.map_values(|h: StemHits| stem_hits_view(h)) =~= stem_groups(s));
        }
        i = i + 1;
    }
    r
}

/// Whether the stems of `rows[a..b]` include every one of `ids`.
pub fn covers_ids(rows: &Vec<SearchResult>, a: usize, b: usize, ids: &Vec<usize>) -> (r: bool)
    requires
        a <= b <= rows@.len(),
    ensures
        r == covers(rows@.subrange(a as int, b as int), ids@),
{
    let ghost g = rows@.subrange(a as int, b as int);
    let mut i: usize = 0;
    while i < ids.len()
        invariant
            a <= b <= rows@.len(),
            g == rows@.subrange(a as int, b as int),
            i <= ids@.len(),
            forall|t: int| 0 <= t < i ==> stem_occurs(g, #[trigger] ids@[t]),
        decreases ids.len() - i,
    {
        let mut j: usize = a;
        let mut found = false;
        while j < b && !found
            invariant
                a <= j <= b <= rows@.len(),
                g == rows@.subrange(a as int, b as int),
                i < ids@.len(),
                found ==> exists|jj: int| 0 <= jj < g.len() && g[jj].stem == ids@[i as int],
                !found ==> forall|jj: int| a <= jj < j ==> rows@[jj].stem != ids@[i as int],
            decreases b - j + (if found { 0int } else { 1int }),
        {
            if rows[j].stem == ids[i] {
                assert(g[j - a].stem == ids@[i as int]);
                found = true;
            } else {
                j = j + 1;
            }
        }
        if !found {
            assert forall|jj: int| 0 <= jj < g.len() implies g[jj].stem != ids@[i as int] by {
                assert(g[jj] == rows@[a + jj]);
            }
            assert(!stem_occurs(g, ids@[i as int]));
            return false;
        }
        i = i + 1;
    }
    assert(covers(g, ids@));
    true
}

/// Groups a posting stream by file and then by stem, keeping only the files
/// whose stems include every one of `stem_ids`.
pub fn collate_search(search: &Vec<SearchResult>, stem_ids: &Vec<usize>) -> (r: Vec<FileHits>)
    ensures
        r@.map_values(|h: FileHits| file_hits_view(h)) == collated(search@, stem_ids@),
{
    let runs = path_runs_of(search);
    let ghost rv = runs@.map_values(|p: (usize, usize)| (p.0 as int, p.1 as int));
    proof {
        lemma_path_runs_shape(search@);
    }
    let mut r: Vec<FileHits> = Vec::new();
    let mut t: usize = 0;
    while t < runs.len()
        invariant
            rv == runs@.map_values(|p: (usize, usize)| (p.0 as int, p.1 as int)),
            rv == path_runs(search@),
            forall|q: int| 0 <= q < rv.len() ==> 0 <= #[trigger] rv[q].0 < rv[q].1 <= search@.len(),
            t <= runs@.len(),
            r@.map_values(|h: FileHits| file_hits_view(h)) == kept_files(search@, rv.take(t as int), stem_ids@),
        decreases runs.len() - t,
    {
        let (a, b) = runs[t];
        assert(rv[t as int] == (a as int, b as int));
        assert(rv.take(t as int + 1).drop_last() == rv.take(t as int));
        assert(rv.take(t as int + 1).last() == (a as int, b as int));
        if covers_ids(search, a, b, stem_ids) {
            let stems = stem_groups_of(search, a, b);
            let h = FileHits { path: search[a].path.clone(), stems };
            r.push(h);
            assert(r@.map_values(|h: FileHits| file_hits_view(h)) =~= kept_files(
                search@,
                rv.take(t as int + 1),
                stem_ids@,
            ));
        }
        t = t + 1;
    }
    assert(rv.take(runs@.len() as int) == rv);
    r
}

/// The largest score.
pub open spec fn score_cap() -> int {
    u64::MAX as int
}

/// `x`, or the largest score when `x` exceeds it.
pub open spec fn capped(x: int) -> int {
    if x > score_cap() {
        score_cap()
    } else {
        x
    }
}

/// Points for a later stem found `d` tokens after an earlier one.
pub open spec fn proximity_points(d: int) -> int {
    if d < 2 {
        3
    } else if d < 7 {
        2
    } else if d <= 20 {
        1
    } else {
        0
    }
}

/// The points of the two-pointer walk over the offsets `o` of an earlier
/// stem and `c` of a later one, from positions `oi` and `ci`.
pub open spec fn pair_points(o: Seq<int>, c: Seq<int>, oi: int, ci: int) -> int
    decreases o.len() - oi + c.len() - ci,
{
    if oi < 0 || ci < 0 || oi >= o.len() || ci >= c.len() {
        0
    } else if o[oi] > c[ci] {
        pair_points(o, c, oi, ci + 1)
    } else {
        proximity_points(c[ci] - o[oi]) + pair_points(o, c, oi + 1, ci)
    }
}

/// The points of the first `n` adjacent pairs of stem groups.
pub open spec fn proximity_upto(groups: Seq<StemGroup>, n: int) -> int
    decreases n,
{
    if n <= 0 || n >= groups.len() {
        0
    } else {
        proximity_upto(groups, n - 1) + pair_points(groups[n - 1].1, groups[n].1, 0, 0)
    }
}

/// The proximity points of a file: the sum over its adjacent stem groups.
pub open spec fn proximity(groups: Seq<StemGroup>) -> int {
    proximity_upto(groups, groups.len() - 1)
}

/// How many of `words` are among the query tokens `q`.
pub open spec fn word_hits(words: Seq<Seq<char>>, q: Seq<Seq<char>>) -> nat
    decreases words.len(),
{
    if words.len() == 0 {
        0
    } else {
        word_hits(words.drop_last(), q) + if q.contains(words.last()) {
            1nat
        } else {
            0nat
        }
    }
}

/// How many surface words of a file are among the query tokens `q`.
pub open spec fn literal_hits(groups: Seq<StemGroup>, q: Seq<Seq<char>>) -> nat
    decreases groups.len(),
{
    if groups.len() == 0 {
        0
    } else {
        literal_hits(groups.drop_last(), q) + word_hits(groups.last().2, q)
    }
}

/// A score raised by a tenth, rounded down, and capped.
pub open spec fn bump(x: int) -> int {
    if x > score_cap() / 11 {
        score_cap()
    } else {
        x * 11 / 10
    }
}

/// `x` raised by a tenth `m` times.
pub open spec fn boost(x: int, m: nat) -> int
    decreases m,
{
    if m == 0 {
        x
    } else {
        bump(boost(x, (m - 1) as nat))
    }
}

/// The relevance of a file, in thousandths: one point, plus its proximity
/// points, capped, and then raised by a tenth for each surface word that is
/// a query token.
pub open spec fn score_of(groups: Seq<StemGroup>, q: Seq<Seq<char>>) -> int {
    boost(capped(1000 + 1000 * proximity(groups)), literal_hits(groups, q))
}

proof fn lemma_pair_points_nonneg(o: Seq<int>, c: Seq<int>, oi: int, ci: int)
    ensures
        pair_points(o, c, oi, ci) >= 0,
    decreases o.len() - oi + c.len() - ci,
{
    if oi < 0 || ci < 0 || oi >= o.len() || ci >= c.len() {
    } else if o[oi] > c[ci] {
        lemma_pair_points_nonneg(o, c, oi, ci + 1);
    } else {
        lemma_pair_points_nonneg(o, c, oi + 1, ci);
    }
}

proof fn lemma_boost_bounds(x: int, m: nat)
    requires
        0 <= x <= score_cap(),
    ensures
        0 <= boost(x, m) <= score_cap(),
    decreases m,
{
    if m > 0 {
        lemma_boost_bounds(x, (m - 1) as nat);
        let y = boost(x, (m - 1) as nat);
        if y <= score_cap() / 11 {
            assert(y * 11 <= score_cap()) by (nonlinear_arith)
                requires
                    y <= score_cap() / 11,
                    score_cap() == u64::MAX,
            ;
            assert(y * 11 / 10 <= y * 11) by (nonlinear_arith)
                requires
                    y >= 0,
            ;
            assert(y * 11 / 10 >= 0) by (nonlinear_arith)
                requires
                    y >= 0,
            ;
        }
    }
}

/// The points of the two-pointer walk over `o` and `c`, capped.
pub fn pair_score(o: &Vec<usize>, c: &Vec<usize>) -> (r: u64)
    ensures
        r == capped(
            pair_points(o@.map_values(|x: usize| x as int), c@.map_values(|x: usize| x as int), 0, 0),
        ),
{
    let ghost ov = o@.map_values(|x: usize| x as int);
    let ghost cv = c@.map_values(|x: usize| x as int);
    let ghost mut sofar: int = 0;
    let mut acc: u64 = 0;
    let mut oi: usize = 0;
    let mut ci: usize = 0;
    while oi < o.len() && ci < c.len()
        invariant
            ov == o@.map_values(|x: usize| x as int),
            cv == c@.map_values(|x: usize| x as int),
            oi <= o@.len(),
            ci <= c@.len(),
            sofar >= 0,
            pair_points(ov, cv, 0, 0) == sofar + pair_points(ov, cv, oi as int, ci as int),
            acc == capped(sofar),
        decreases o.len() - oi + c.len() - ci,
    {
        let offset = o[oi];
        let comp = c[ci];
        if offset > comp {
            ci = ci + 1;
        } else {
            let d = comp - offset;
            let pts: u64 = if d < 2 {
                3
            } else if d < 7 {
                2
            } else if d <= 20 {
                1
            } else {
                0
            };
            assert(pts == proximity_points(cv[ci as int] - ov[oi as int]));
            proof {
                sofar = sofar + pts;
            }
            acc = acc.saturating_add(pts);
            oi = oi + 1;
        }
    }
    proof {
        lemma_pair_points_nonneg(ov, cv, oi as int, ci as int);
    }
    acc
}

/// Whether `w` is one of the query tokens `q`.
pub fn is_query_token(q: &Vec<String>, w: &String) -> (r: bool)
    ensures
        r == q@.map_values(|s: String| s@).contains(w@),
{
    let ghost qv = q@.map_values(|s: String| s@);
    let mut i: usize = 0;
    while i < q.len()
        invariant
            qv == q@.map_values(|s: String| s@),
            i <= q@.len(),
            forall|a: int| 0 <= a < i ==> qv[a] != w@,
        decreases q.len() - i,
    {
        if q[i] == *w {
            assert(qv[i as int] == w@);
            return true;
        }
        i = i + 1;
    }
    false
}

/// The relevance of `h` for the query tokens `q`, in thousandths.
pub fn score_file(h: &FileHits, q: &Vec<String>) -> (r: u64)
    ensures
        r == score_of(file_hits_view(*h).1, q@.map_values(|s: String| s@)),
{
    let ghost g = file_hits_view(*h).1;
    let ghost qv = q@.map_values(|s: String| s@);
    let n = h.stems.len();
    let mut score: u64 = 1000;
    let mut s: usize = 1;
    while s < n
        invariant
            g == file_hits_view(*h).1,
            n == g.len(),
            1 <= s,
            s <= n || n == 0,
            score == capped(1000 + 1000 * proximity_upto(g, s - 1)),
            proximity_upto(g, s - 1) >= 0,
        decreases n - s,
    {
        let p = pair_score(&h.stems[s - 1].offsets, &h.stems[s].offsets);
        assert(stem_hits_view(h.stems@[s - 1]) == g[s - 1]);
        assert(stem_hits_view(h.stems@[s as int]) == g[s as int]);
        let ghost pts = pair_points(g[s - 1].1, g[s as int].1, 0, 0);
        proof {
            lemma_pair_points_nonneg(g[s - 1].1, g[s as int].1, 0, 0);
        }
        let milli: u64 = if p > u64::MAX / 1000 {
            u64::MAX
        } else {
            p * 1000
        };
        assert(milli == capped(1000 * pts));
        score = score.saturating_add(milli);
        assert(proximity_upto(g, s as int) == proximity_upto(g, s - 1) + pts);
        s = s + 1;
    }
    assert(score == capped(1000 + 1000 * proximity(g)));
    proof {
        lemma_boost_bounds(score as int, 0);
    }
    let ghost base = score as int;
    let mut t: usize = 0;
    while t < n
        invariant
            g == file_hits_view(*h).1,
            qv == q@.map_values(|s: String| s@),
            n == g.len(),
            t <= n,
            0 <= base <= score_cap(),
            score == boost(base, literal_hits(g.take(t as int), qv)),
        decreases n - t,
    {
        let words = &h.stems[t].words;
        assert(stem_hits_view(h.stems@[t as int]) == g[t as int]);
        let ghost wv = g[t as int].2;
        assert(wv == words@.map_values(|w: String| w@));
        let ghost lit0 = literal_hits(g.take(t as int), qv);
        let mut k: usize = 0;
        while k < words.len()
            invariant
                wv == words@.map_values(|w: String| w@),
                qv == q@.map_values(|s: String| s@),
                k <= words@.len(),
                0 <= base <= score_cap(),
                score == boost(base, lit0 + word_hits(wv.take(k as int), qv)),
            decreases words.len() - k,
        {
            assert(wv.take(k as int + 1).drop_last() == wv.take(k as int));
            assert(wv.take(k as int + 1).last() == words@[k as int]@);
            if is_query_token(q, &words[k]) {
                let ghost m = lit0 + word_hits(wv.take(k as int), qv);
                proof {
                    lemma_boost_bounds(base, m);
                }
                if score > u64::MAX / 11 {
                    score = u64::MAX;
                } else {
                    score = score * 11 / 10;
                }
                assert(score == boost(base, m + 1));
            }
            k = k + 1;
        }
        assert(wv.take(words@.len() as int) == wv);
        assert(g.take(t as int + 1).drop_last() == g.take(t as int));
        assert(g.take(t as int + 1).last() == g[t as int]);
        t = t + 1;
    }
    assert(g.take(n as int) == g);
    score
}

/// `order` lists every position of `keys` once, by key from highest to
/// lowest, and equal keys by position.
pub open spec fn ranked(keys: Seq<u64>, order: Seq<usize>) -> bool {
    &&& order.len() == keys.len()
    &&& forall|i: int| 0 <= i < order.len() ==> #[trigger] order[i] < keys.len()
    &&& forall|i: int, j: int| 0 <= i < j < order.len() ==> order[i] != order[j]
    &&& forall|x: usize| x < keys.len() ==> order.contains(x)
    &&& forall|i: int, j: int|
        0 <= i < j < order.len() ==> keys[order[i] as int] > keys[order[j] as int] || (keys[order[i] as int]
            == keys[order[j] as int] && order[i] < order[j])
}

/// The positions of `keys` from the highest key to the lowest; equal keys
/// keep their order.
pub fn rank_order(keys: &Vec<u64>) -> (r: Vec<usize>)
    ensures
        ranked(keys@, r@),
{
    let mut r: Vec<usize> = Vec::new();
    let mut i: usize = 0;
    while i < keys.len()
        invariant
            i <= keys@.len(),
            ranked(keys@.take(i as int), r@),
            forall|a: int| 0 <= a < r@.len() ==> #[trigger] r@[a] < i,
        decreases keys.len() - i,
    {
        let ki = keys[i];
        let mut j: usize = 0;
        while j < r.len() && keys[r[j]] >= ki
            invariant
                i < keys@.len(),
                ki == keys@[i as int],
                j <= r@.len(),
                ranked(keys@.take(i as int), r@),
                forall|a: int| 0 <= a < r@.len() ==> #[trigger] r@[a] < i,
                forall|a: int| 0 <= a < j ==> keys@[r@[a] as int] >= ki,
            decreases r.len() - j,
        {
            assert(keys@.take(i as int)[r@[j as int] as int] == keys@[r@[j as int] as int]);
            j = j + 1;
        }
        let ghost before = r@;
        let ghost kt = keys@.take(i as int);
        assert forall|a: int| 0 <= a < before.len() implies kt[before[a] as int] == keys@[before[a] as int] by {
            assert(before[a] < i);
        }
        r.insert(j, i);
        let ghost k1 = keys@.take(i as int + 1);
        assert forall|a: int| 0 <= a < r@.len() implies k1[r@[a] as int] == keys@[r@[a] as int] && #[trigger] r@[a] < i + 1 by {
            if a < j {
                assert(r@[a] == before[a]);
            } else if a > j {
                assert(r@[a] == before[a - 1]);
            }
        }
        assert forall|x: usize| x < i + 1 implies r@.contains(x) by {
            if x == i {
                assert(r@[j as int] == i);
            } else {
                assert(before.contains(x));
                let a = choose|a: int| 0 <= a < before.len() && before[a] == x;
                if a < j {
                    assert(r@[a] == x);
                } else {
                    assert(r@[a + 1] == x);
                }
            }
        }
        assert forall|a: int, b: int| 0 <= a < b < r@.len() implies r@[a] != r@[b] by {
            if a < j && b < j {
            } else if a == j as int {
                assert(r@[b] == before[b - 1]);
            } else if b == j as int {
                assert(r@[a] == before[a]);
            } else if a < j {
                assert(r@[a] == before[a]);
                assert(r@[b] == before[b - 1]);
            } else {
                assert(r@[a] == before[a - 1]);
                assert(r@[b] == before[b - 1]);
            }
        }
        assert forall|a: int, b: int|
            0 <= a < b < r@.len() implies k1[r@[a] as int] > k1[r@[b] as int] || (k1[r@[a] as int] == k1[r@[b] as int]
                && r@[a] < r@[b]) by {
            if b < j {
                assert(r@[a] == before[a]);
                assert(r@[b] == before[b]);
            } else if b == j as int {
                assert(r@[a] == before[a]);
            } else if a == j as int {
                assert(r@[b] == before[b - 1]);
                assert(keys@[before[j as int] as int] < ki);
                if b - 1 > j {
                    assert(kt[before[j as int] as int] >= kt[before[b - 1] as int]);
                }
            } else if a < j {
                assert(r@[a] == before[a]);
                assert(r@[b] == before[b - 1]);
            } else {
                assert(r@[a] == before[a - 1]);
                assert(r@[b] == before[b - 1]);
            }
        }
        i = i + 1;
    }
    assert(keys@.take(keys@.len() as int) == keys@);
    r
}

/// The characters of each string.
pub open spec fn strings_view(q: Seq<String>) -> Seq<Seq<char>> {
    q.map_values(|s: String| s@)
}

/// The relevance of each file for the query tokens `q`.
pub open spec fn scores(files: Seq<(Seq<char>, Seq<StemGroup>)>, q: Seq<Seq<char>>) -> Seq<u64> {
    Seq::new(files.len(), |i: int| score_of(files[i].1, q) as u64)
}

/// `r` is the paths of `files` from the most relevant to the least for the
/// query tokens `q`, equal scores in their given order, and then one empty
/// line.
pub open spec fn ranked_paths(
    files: Seq<(Seq<char>, Seq<StemGroup>)>,
    q: Seq<Seq<char>>,
    r: Seq<String>,
) -> bool {
    &&& r.len() == files.len() + 1
    &&& r[files.len() as int]@ == Seq::<char>::empty()
    &&& exists|order: Seq<usize>|
        #[trigger] ranked(scores(files, q), order) && forall|i: int|
            0 <= i < files.len() ==> #[trigger] r[i]@ == files[order[i] as int].0
}

/// The paths of `search` from the most relevant to the least for the query
/// tokens `query`, equal scores in their given order, followed by one empty
/// line.
pub fn sort_search_results(search: &Vec<FileHits>, query: &Vec<String>) -> (r: Vec<String>)
    ensures
        ranked_paths(search@.map_values(|h: FileHits| file_hits_view(h)), strings_view(query@), r@),
{
    let ghost qv = query@.map_values(|s: String| s@);
    let ghost hv = search@.map_values(|h: FileHits| file_hits_view(h));
    let mut keys: Vec<u64> = Vec::new();
    let mut i: usize = 0;
    while i < search.len()
        invariant
            qv == query@.map_values(|s: String| s@),
            i <= search@.len(),
            keys@ == scores(hv, qv).take(i as int),
            hv == search@.map_values(|h: FileHits| file_hits_view(h)),
        decreases search.len() - i,
    {
        let sc = score_file(&search[i], query);
        keys.push(sc);
        assert(keys@ =~= scores(hv, qv).take(i as int + 1));
        i = i + 1;
    }
    assert(keys@ =~= scores(hv, qv));
    let order = rank_order(&keys);
    let mut r: Vec<String> = Vec::new();
    let mut t: usize = 0;
    while t < order.len()
        invariant
            ranked(keys@, order@),
            keys@.len() == search@.len(),
            t <= order@.len(),
            r@.len() == t,
            forall|a: int| 0 <= a < t ==> #[trigger] r@[a]@ == search@[order@[a] as int].path@,
        decreases order.len() - t,
    {
        let f = order[t];
        r.push(search[f].path.clone());
        t = t + 1;
    }
    r.push(String::new());
    assert(forall|a: int| 0 <= a < search@.len() ==> #[trigger] r@[a]@ == search@[order@[a] as int].path@);
    assert(qv == strings_view(query@));
    assert(ranked(scores(hv, strings_view(query@)), order@));
    assert(forall|a: int| 0 <= a < hv.len() ==> #[trigger] r@[a]@ == hv[order@[a] as int].0);
    r
}

/// Stem id `x` names the stem of one of the query tokens `q`.
pub open spec fn known_query_stem(v: IndexView, q: Seq<Seq<char>>, x: int) -> bool {
    &&& 1 <= x <= v.stems.len()
    &&& exists|k: int| 0 <= k < q.len() && v.stems[x - 1] == stem_of(q[k])
}

/// `ids` are the ids of the stems of the query tokens `q` that the stem
/// table holds.
pub open spec fn query_ids(v: IndexView, q: Seq<Seq<char>>, ids: Seq<usize>) -> bool {
    forall|x: int| id_in(ids, x) <==> known_query_stem(v, q, x)
}

/// `r` answers the free-text query with tokens `q`: one empty line when no
/// token's stem is known, and otherwise the ranked paths of the files whose
/// postings hold every known stem.
pub open spec fn answers(v: IndexView, q: Seq<Seq<char>>, r: Seq<String>) -> bool {
    exists|ids: Seq<usize>, rows: Seq<SearchResult>|
        #[trigger] query_ids(v, q, ids) && #[trigger] is_join(v, ids, rows) && if ids.len() == 0 {
            r.len() == 1 && r[0]@ == Seq::<char>::empty()
        } else {
            ranked_paths(collated(rows, ids), q, r)
        }
}

impl Index {
    /// Answers a free-text query.
    pub fn search(&self, query: &str) -> (r: Vec<String>)
        requires
            self.wf(),
        ensures
            answers(self@, tokens_of(query@), r@),
    {
        let toks = tokenize(query);
        let ghost tv = toks@.map_values(|t: String| t@);
        let mut ids: Vec<usize> = Vec::new();
        let mut k: usize = 0;
        while k < toks.len()
            invariant
                self.wf(),
                tv == toks@.map_values(|t: String| t@),
                k <= toks@.len(),
                forall|x: int| id_in(ids@, x) <==> known_query_stem(self@, tv.take(k as int), x),
            decreases toks.len() - k,
        {
            let st = stem_word(toks[k].as_str());
            let ghost t0 = tv.take(k as int);
            let ghost t1 = tv.take(k as int + 1);
            assert(t1 == t0.push(tv[k as int]));
            let ghost before = ids@;
            assert(forall|x: int| id_in(before, x) <==> known_query_stem(self@, t0, x));
            proof {
                self.lemma_valid();
            }
            match self.stem_id(st.as_str()) {
                Some(id) => {
                    if !contains_id(&ids, id) {
                        ids.push(id);
                        assert(ids@[ids@.len() - 1] == id);
                    }
                    assert(id_in(ids@, id as int));
                    assert(self@.stems[id - 1] == stem_of(t1[k as int]));
                    assert forall|x: int| id_in(before, x) implies id_in(ids@, x) by {
                        let a = choose|a: int| 0 <= a < before.len() && before[a] as int == x;
                        assert(ids@[a] as int == x);
                    }
                    assert forall|x: int| id_in(ids@, x) implies known_query_stem(self@, t1, x) by {
                        if x == id {
                        } else {
                            let a = choose|a: int| 0 <= a < ids@.len() && ids@[a] as int == x;
                            assert(a < before.len());
                            assert(before[a] as int == x);
                            assert(id_in(before, x));
                            assert(known_query_stem(self@, t0, x));
                            let kk = choose|kk: int| 0 <= kk < t0.len() && self@.stems[x - 1] == stem_of(t0[kk]);
                            assert(t1[kk] == t0[kk]);
                        }
                    }
                    assert forall|x: int| known_query_stem(self@, t1, x) implies id_in(ids@, x) by {
                        let kk = choose|kk: int| 0 <= kk < t1.len() && self@.stems[x - 1] == stem_of(t1[kk]);
                        if kk < k {
                            assert(t0[kk] == t1[kk]);
                            assert(known_query_stem(self@, t0, x));
                            assert(id_in(before, x));
                        } else {
                            assert(self@.stems[x - 1] == self@.stems[id - 1]);
                        }
                    }
                },
                None => {
                    assert forall|x: int| id_in(ids@, x) <==> known_query_stem(self@, t1, x) by {
                        if known_query_stem(self@, t1, x) {
                            let kk = choose|kk: int| 0 <= kk < t1.len() && self@.stems[x - 1] == stem_of(t1[kk]);
                            if kk == k {
                                assert(self@.stems[x - 1] == st@);
                            } else {
                                assert(t0[kk] == t1[kk]);
                            }
                        }
                        if known_query_stem(self@, t0, x) {
                            let kk = choose|kk: int| 0 <= kk < t0.len() && self@.stems[x - 1] == stem_of(t0[kk]);
                            assert(t1[kk] == t0[kk]);
                        }
                    }
                },
            }
            k = k + 1;
        }
        assert(tv.take(toks@.len() as int) == tv);
        let rows = self.postings_for_stems(&ids);
        if ids.len() == 0 {
            let mut r: Vec<String> = Vec::new();
            r.push(String::new());
            assert(query_ids(self@, tv, ids@) && is_join(self@, ids@, rows@));
            return r;
        }
        let hits = collate_search(&rows, &ids);
        let r = sort_search_results(&hits, &toks);
        assert(strings_view(toks@) == tv);
        assert(query_ids(self@, tv, ids@) && is_join(self@, ids@, rows@));
        r
    }
}

} // verus!
