use crate::index::{by_time, Index, IndexView};
use crate::query::answers;
use crate::text::{chars_of, string_of, tokens_of, white_space};
use vstd::prelude::*;

verus! {

/// The length of a day in seconds.
pub const DAY_SECONDS: i64 = 86400;

/// The Unix time of the midnight (UTC) that starts the `YYYY-MM-DD` date in
/// `text`, when the text is such a date.
pub uninterp spec fn day_start_of(text: Seq<char>) -> Option<i64>;

/// Relies on `chrono::NaiveDate::parse_from_str` with the format `%F`, then
/// `NaiveDate::and_time` at midnight and `DateTime::timestamp`: the result
/// depends on the text alone.
#[verifier::external_body]
fn parse_day_start(text: &str) -> (r: Option<i64>)
    ensures
        r == day_start_of(text@),
{
    match chrono::NaiveDate::parse_from_str(text, "%F") {
        Ok(d) => Some(d.and_time(chrono::NaiveTime::MIN).and_utc().timestamp()),
        Err(_) => None,
    }
}

/// Padding around a request: NUL characters and white space.
pub open spec fn filler(c: char) -> bool {
    c == '\0' || white_space(c)
}

/// `s` without its leading padding.
pub open spec fn drop_filler_start(s: Seq<char>) -> Seq<char>
    decreases s.len(),
{
    if s.len() > 0 && filler(s[0]) {
        drop_filler_start(s.drop_first())
    } else {
        s
    }
}

/// `s` without its trailing padding.
pub open spec fn drop_filler_end(s: Seq<char>) -> Seq<char>
    decreases s.len(),
{
    if s.len() > 0 && filler(s.last()) {
        drop_filler_end(s.drop_last())
    } else {
        s
    }
}

/// The text of a date request after its `n`-character prefix, without
/// surrounding padding.
pub open spec fn date_text(request: Seq<char>, n: int) -> Seq<char> {
    drop_filler_end(drop_filler_start(request.skip(n)))
}

/// The start of the day named by `text`, or `today` when it names none.
pub open spec fn day_start(text: Seq<char>, today: i64) -> i64 {
    match day_start_of(text) {
        Some(d) => d,
        None => today,
    }
}

/// The end of the day that starts at `start`, capped at the largest time.
pub open spec fn day_end(start: i64) -> i64 {
    if start > i64::MAX - DAY_SECONDS {
        i64::MAX
    } else {
        (start + DAY_SECONDS) as i64
    }
}

/// `lines` lists the paths of the files modified in the day that starts at
/// `start`, by modification time, and then one empty line.
pub open spec fn date_lines(v: IndexView, start: i64, lines: Seq<Seq<char>>) -> bool {
    exists|p: Seq<usize>|
        #[trigger] by_time(v, start as int, day_end(start) as int, p) && lines.len() == p.len() + 1
            && lines.last() == Seq::<char>::empty() && forall|t: int|
            0 <= t < p.len() ==> #[trigger] lines[t] == v.files[p[t] as int].path
}

/// Lines joined by newlines.
pub open spec fn joined(lines: Seq<Seq<char>>) -> Seq<char>
    decreases lines.len(),
{
    if lines.len() == 0 {
        Seq::empty()
    } else if lines.len() == 1 {
        lines[0]
    } else {
        joined(lines.drop_last()) + seq!['\n'] + lines.last()
    }
}

/// `s` begins with `p`.
pub open spec fn has_prefix(s: Seq<char>, p: Seq<char>) -> bool {
    p.len() <= s.len() && s.take(p.len() as int) == p
}

/// The prefix of a date request.
pub open spec fn on_prefix() -> Seq<char> {
    seq!['@', 'o', 'n']
}

/// The older spelling of the date request prefix.
pub open spec fn ago_prefix() -> Seq<char> {
    seq!['@', 'a', 'g', 'o']
}

/// Drops the padding around `v[from..]`.
pub fn trim_filler(v: &Vec<char>, from: usize) -> (r: Vec<char>)
    requires
        from <= v@.len(),
    ensures
        r@ == date_text(v@, from as int),
{
    let n = v.len();
    let mut a: usize = from;
    assert(v@.skip(from as int) == v@.subrange(from as int, n as int));
    while a < n && (v[a] == '\0' || crate::text::is_white_space(v[a]))
        invariant
            from <= a <= n == v@.len(),
            drop_filler_start(v@.skip(from as int)) == drop_filler_start(v@.subrange(a as int, n as int)),
        decreases n - a,
    {
        assert(v@.subrange(a as int, n as int).drop_first() == v@.subrange(a as int + 1, n as int));
        a = a + 1;
    }
    assert(drop_filler_start(v@.skip(from as int)) == v@.subrange(a as int, n as int));
    let mut b: usize = n;
    while b > a && (v[b - 1] == '\0' || crate::text::is_white_space(v[b - 1]))
        invariant
            a <= b <= n == v@.len(),
            date_text(v@, from as int) == drop_filler_end(v@.subrange(a as int, b as int)),
        decreases b - a,
    {
        assert(v@.subrange(a as int, b as int).drop_last() == v@.subrange(a as int, b - 1));
        b = b - 1;
    }
    let mut r: Vec<char> = Vec::new();
    let mut i: usize = a;
    while i < b
        invariant
            a <= i <= b <= n == v@.len(),
            r@ == v@.subrange(a as int, i as int),
        decreases b - i,
    {
        r.push(v[i]);
        i = i + 1;
        assert(r@ =~= v@.subrange(a as int, i as int));
    }
    r
}

/// Joins `lines` with newlines.
pub fn join_lines(lines: &Vec<String>) -> (r: String)
    ensures
        r@ == joined(lines@.map_values(|s: String| s@)),
{
    let ghost lv = lines@.map_values(|s: String| s@);
    let mut r = String::new();
    let mut i: usize = 0;
    proof {
        reveal_strlit("\n");
    }
    while i < lines.len()
        invariant
            lv == lines@.map_values(|s: String| s@),
            i <= lines@.len(),
            r@ == joined(lv.take(i as int)),
        decreases lines.len() - i,
    {
        assert(lv.take(i as int + 1).drop_last() == lv.take(i as int));
        if i > 0 {
            r.append("\n");
        }
        r.append(lines[i].as_str());
        proof {
            reveal_strlit("\n");
            if i == 0 {
                assert(r@ =~= lv.take(1)[0]);
            }
        }
        i = i + 1;
    }
    assert(lv.take(lines@.len() as int) == lv);
    r
}

impl Index {
    /// The lines that answer a date request whose date text is `text`; when
    /// the text names no date, the day that starts at `today` is used.
    pub fn respond_to_date(&self, text: &str, today: i64) -> (r: Vec<String>)
        requires
            self.wf(),
        ensures
            date_lines(self@, day_start(text@, today), r@.map_values(|s: String| s@)),
    {
        let start = match parse_day_start(text) {
            Some(d) => d,
            None => today,
        };
        let end = if start > i64::MAX - DAY_SECONDS {
            i64::MAX
        } else {
            start + DAY_SECONDS
        };
        let mut r = self.files_modified_between(start, end);
        let ghost before = r@;
        r.push(String::new());
        proof {
            let lv = r@.map_values(|s: String| s@);
            let p = choose|p: Seq<usize>|
                #[trigger] by_time(self@, start as int, end as int, p) && before.len() == p.len() && forall|t: int|
                    0 <= t < p.len() ==> #[trigger] before[t]@ == self@.files[p[t] as int].path;
            assert forall|t: int| 0 <= t < p.len() implies #[trigger] lv[t] == self@.files[p[t] as int].path by {
                assert(lv[t] == before[t]@);
            }
            assert(lv.last() == Seq::<char>::empty());
            assert(start == day_start(text@, today));
            assert(end == day_end(start));
            assert(by_time(self@, start as int, day_end(start) as int, p));
            assert(lv.len() == p.len() + 1);
        }
        r
    }

    /// Answers one request: `@on DATE` and `@ago DATE` list the files
    /// modified that day, anything else is a free-text query. The lines of
    /// the answer are joined by newlines.
    pub fn respond(&self, request: &str, today: i64) -> (r: String)
        requires
            self.wf(),
        ensures
            has_prefix(request@, on_prefix()) ==> exists|lines: Seq<Seq<char>>|
                #[trigger] date_lines(self@, day_start(date_text(request@, 3), today), lines) && r@
                    == joined(lines),
            !has_prefix(request@, on_prefix()) && has_prefix(request@, ago_prefix()) ==> exists|
                lines: Seq<Seq<char>>,
            |
                #[trigger] date_lines(self@, day_start(date_text(request@, 4), today), lines) && r@
                    == joined(lines),
            !has_prefix(request@, on_prefix()) && !has_prefix(request@, ago_prefix()) ==> exists|
                lines: Seq<String>,
            | #[trigger] answers(self@, tokens_of(request@), lines) && r@ == joined(
                lines.map_values(|s: String| s@),
            ),
    {
        let chars = chars_of(request);
        let n = chars.len();
        let on = n >= 3 && chars[0] == '@' && chars[1] == 'o' && chars[2] == 'n';
        let ago = n >= 4 && chars[0] == '@' && chars[1] == 'a' && chars[2] == 'g' && chars[3] == 'o';
        assert(on == has_prefix(request@, on_prefix())) by {
            if n >= 3 {
                assert(on ==> chars@.take(3) =~= on_prefix());
            }
        }
        assert(ago == has_prefix(request@, ago_prefix())) by {
            if n >= 4 {
                assert(ago ==> chars@.take(4) =~= ago_prefix());
            }
        }
        if on || ago {
            let skip: usize = if on {
                3
            } else {
                4
            };
            let text = string_of(&trim_filler(&chars, skip));
            let lines = self.respond_to_date(text.as_str(), today);
            join_lines(&lines)
        } else {
            let lines = self.search(request);
            join_lines(&lines)
        }
    }
}

} // verus!
