use crate::text::chars_of;
use vstd::prelude::*;

verus! {

/// `p` occurs in `s` at position `i`.
pub open spec fn occurs_at(s: Seq<char>, p: Seq<char>, i: int) -> bool {
    0 <= i && i + p.len() <= s.len() && s.subrange(i, i + p.len()) == p
}

/// `p` occurs somewhere in `s`.
pub open spec fn occurs_in(s: Seq<char>, p: Seq<char>) -> bool {
    exists|i: int| occurs_at(s, p, i)
}

/// `s` ends with `p`.
pub open spec fn ends_with(s: Seq<char>, p: Seq<char>) -> bool {
    p.len() <= s.len() && s.skip(s.len() - p.len()) == p
}

/// The name of Git's metadata directory.
pub open spec fn git_marker() -> Seq<char> {
    seq!['.', 'g', 'i', 't']
}

/// The name of Mercurial's metadata directory.
pub open spec fn hg_marker() -> Seq<char> {
    seq!['.', 'h', 'g']
}

/// The extension of SVG images.
pub open spec fn svg_suffix() -> Seq<char> {
    seq!['.', 's', 'v', 'g']
}

/// A path under version-control metadata.
pub open spec fn vcs_path(s: Seq<char>) -> bool {
    occurs_in(s, git_marker()) || occurs_in(s, hg_marker())
}

/// Whether `p` occurs in `s` at position `i`.
fn matches_at(s: &Vec<char>, p: &Vec<char>, i: usize) -> (r: bool)
    requires
        i <= s@.len(),
    ensures
        r == occurs_at(s@, p@, i as int),
{
    if p.len() > s.len() - i {
        return false;
    }
    let n = s.len();
    let mut k: usize = 0;
    while k < p.len()
        invariant
            n == s@.len(),
            i + p@.len() <= s@.len(),
            k <= p@.len(),
            forall|j: int| 0 <= j < k ==> s@[i + j] == p@[j],
        decreases p.len() - k,
    {
        assert(i + k < s@.len());
        if s[i + k] != p[k] {
            assert(s@.subrange(i as int, i + p@.len())[k as int] != p@[k as int]);
            return false;
        }
        k = k + 1;
    }
    assert(s@.subrange(i as int, i + p@.len()) =~= p@);
    true
}

/// Whether `p` occurs in `s`.
pub fn contains_chars(s: &Vec<char>, p: &Vec<char>) -> (r: bool)
    ensures
        r == occurs_in(s@, p@),
{
    if p.len() == 0 {
        assert(occurs_at(s@, p@, 0)) by {
            assert(s@.subrange(0, 0) =~= p@);
        }
        return true;
    }
    if p.len() > s.len() {
        assert forall|j: int| !occurs_at(s@, p@, j) by {}
        return false;
    }
    let n = s.len();
    let last = n - p.len();
    let mut i: usize = 0;
    while i < last + 1
        invariant
            n == s@.len(),
            p@.len() >= 1,
            last + p@.len() == s@.len(),
            i <= last + 1,
            forall|j: int| 0 <= j < i ==> !occurs_at(s@, p@, j),
        decreases last + 1 - i,
    {
        if matches_at(s, p, i) {
            return true;
        }
        i = i + 1;
    }
    assert forall|j: int| !occurs_at(s@, p@, j) by {
        if 0 <= j && j + p@.len() <= s@.len() {
            assert(j <= last);
        }
    }
    false
}

/// Whether `path` lies under version-control metadata.
pub fn is_vcs_path(path: &str) -> (r: bool)
    ensures
        r == vcs_path(path@),
{
    let s = chars_of(path);
    let git = vec!['.', 'g', 'i', 't'];
    let hg = vec!['.', 'h', 'g'];
    assert(git@ =~= git_marker());
    assert(hg@ =~= hg_marker());
    contains_chars(&s, &git) || contains_chars(&s, &hg)
}

/// Whether a filesystem event on `path` may touch the index: paths under
/// version-control metadata and SVG images are left alone.
pub fn event_path_relevant(path: &str) -> (r: bool)
    ensures
        r == !(vcs_path(path@) || ends_with(path@, svg_suffix())),
{
    if is_vcs_path(path) {
        return false;
    }
    let s = chars_of(path);
    let n = s.len();
    let svg = n >= 4 && s[n - 4] == '.' && s[n - 3] == 's' && s[n - 2] == 'v' && s[n - 1] == 'g';
    assert(svg == ends_with(path@, svg_suffix())) by {
        if n >= 4 {
            assert(svg ==> s@.skip(n - 4) =~= svg_suffix());
            if ends_with(path@, svg_suffix()) {
                assert(s@.skip(n - 4)[0] == '.');
                assert(s@.skip(n - 4)[1] == 's');
                assert(s@.skip(n - 4)[2] == 'v');
                assert(s@.skip(n - 4)[3] == 'g');
            }
        }
    }
    !svg
}

/// The kinds of filesystem events.
#[derive(PartialEq, Eq, Structural, Clone, Copy, Debug)]
pub enum WatchEvent {
    Create,
    Write,
    Chmod,
    NoticeRemove,
    NoticeWrite,
    Remove,
    Rename,
    Rescan,
    Error,
}

/// Whether an event of kind `kind` asks for its path to be brought up to
/// date; renames, rescans and errors do not.
pub open spec fn updates(kind: WatchEvent) -> bool {
    match kind {
        WatchEvent::Rename | WatchEvent::Rescan | WatchEvent::Error => false,
        _ => true,
    }
}

/// Whether an event of kind `kind` on `path` leads to indexing the path.
pub fn process_event(kind: WatchEvent, path: &str) -> (r: bool)
    ensures
        r == (updates(kind) && !(vcs_path(path@) || ends_with(path@, svg_suffix()))),
{
    let update = match kind {
        WatchEvent::Rename | WatchEvent::Rescan | WatchEvent::Error => false,
        _ => true,
    };
    update && event_path_relevant(path)
}

/// What the scanner does with one directory entry.
#[derive(PartialEq, Eq, Structural, Clone, Copy, Debug)]
pub enum ScanAction {
    Descend,
    Skip,
    Index,
}

/// The directory names whose subtree the scanner never enters.
pub open spec fn vcs_dir_name(name: Seq<char>) -> bool {
    name == git_marker() || name == hg_marker()
}

/// Whether a directory with basename `name` is skipped with its subtree.
pub fn skips_directory(name: &str) -> (r: bool)
    ensures
        r == vcs_dir_name(name@),
{
    let s = chars_of(name);
    let git = vec!['.', 'g', 'i', 't'];
    let hg = vec!['.', 'h', 'g'];
    assert(git@ =~= git_marker());
    assert(hg@ =~= hg_marker());
    let is_git = s.len() == 4 && matches_at(&s, &git, 0);
    let is_hg = s.len() == 3 && matches_at(&s, &hg, 0);
    proof {
        if s@.len() == 4 {
            assert(s@.subrange(0, 4) =~= s@);
        }
        if s@.len() == 3 {
            assert(s@.subrange(0, 3) =~= s@);
        }
    }
    assert(is_git == (s@ == git_marker()));
    assert(is_hg == (s@ == hg_marker()));
    is_git || is_hg
}

/// The action for a directory entry: directories are entered when the scan
/// recurses and passed over otherwise; a file is indexed unless one of the
/// ignore rules in effect excludes it.
pub open spec fn scan_action_of(is_dir: bool, recurse: bool, excluded: Seq<bool>) -> ScanAction {
    if is_dir {
        if recurse {
            ScanAction::Descend
        } else {
            ScanAction::Skip
        }
    } else if excluded.contains(true) {
        ScanAction::Skip
    } else {
        ScanAction::Index
    }
}

/// The action for one directory entry, given what each ignore rule in
/// effect says of it.
pub fn scan_action(is_dir: bool, recurse: bool, excluded: &Vec<bool>) -> (r: ScanAction)
    ensures
        r == scan_action_of(is_dir, recurse, excluded@),
{
    if is_dir {
        return if recurse {
            ScanAction::Descend
        } else {
            ScanAction::Skip
        };
    }
    let mut i: usize = 0;
    while i < excluded.len()
        invariant
            !is_dir,
            i <= excluded@.len(),
            forall|j: int| 0 <= j < i ==> !excluded@[j],
        decreases excluded.len() - i,
    {
        if excluded[i] {
            assert(excluded@[i as int] == true);
            assert(excluded@.contains(true));
            assert(scan_action_of(is_dir, recurse, excluded@) == ScanAction::Skip);
            return ScanAction::Skip;
        }
        i = i + 1;
    }
    ScanAction::Index
}

/// Splits `n` items into consecutive batches of at most `max` items: the
/// ranges cover `[0, n)` in order, and every one but the last holds exactly
/// `max` items.
pub fn chunk_ranges(n: usize, max: usize) -> (r: Vec<(usize, usize)>)
    requires
        max > 0,
    ensures
        n == 0 <==> r@.len() == 0,
        r@.len() > 0 ==> r@[0].0 == 0 && r@.last().1 == n,
        forall|t: int| 0 <= t < r@.len() ==> #[trigger] r@[t].0 < r@[t].1 <= r@[t].0 + max,
        forall|t: int| 0 <= t < r@.len() - 1 ==> #[trigger] r@[t].1 == r@[t].0 + max,
        forall|t: int| 0 <= t < r@.len() - 1 ==> #[trigger] r@[t].1 == r@[t + 1].0,
{
    let mut r: Vec<(usize, usize)> = Vec::new();
    let mut start: usize = 0;
    while start < n
        invariant
            max > 0,
            start <= n,
            r@.len() == 0 <==> start == 0,
            r@.len() > 0 ==> r@[0].0 == 0 && r@.last().1 == start,
            forall|t: int| 0 <= t < r@.len() ==> #[trigger] r@[t].0 < r@[t].1 <= r@[t].0 + max,
            forall|t: int| 0 <= t < r@.len() - 1 ==> #[trigger] r@[t].1 == r@[t].0 + max,
            forall|t: int| 0 <= t < r@.len() - 1 ==> #[trigger] r@[t].1 == r@[t + 1].0,
            r@.len() > 0 && start < n ==> r@.last().1 == r@.last().0 + max,
        decreases n - start,
    {
        let end: usize = if n - start > max {
            start + max
        } else {
            n
        };
        let ghost before = r@;
        r.push((start, end));
        assert forall|t: int| 0 <= t < r@.len() - 1 implies #[trigger] r@[t].1 == r@[t].0 + max by {
            assert(r@[t] == before[t]);
        }
        assert forall|t: int| 0 <= t < r@.len() - 1 implies #[trigger] r@[t].1 == r@[t + 1].0 by {
            assert(r@[t] == before[t]);
        }
        start = end;
    }
    r
}

} // verus!
