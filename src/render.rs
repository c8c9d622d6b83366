//! Text shown for a session: its transcript as a readable log, its todo
//! titles, and the age of its last change.

use vstd::prelude::*;

use chrono::Datelike;

use crate::json::{field, json_of, parse_json, Json};
use crate::scanner::{is_synthetic, message_text, record_text, synthetic};
use crate::session::Session;
use crate::text::{
    blank, chars_of, decimal, digit, is_blank, lines_of, push_char, push_decimal,
    same_text, split_lines, views,
};

verus! {

/// The heading of a role in the log.
pub open spec fn role_label(t: Seq<char>) -> Seq<char> {
    if t == "user"@ {
        "USER"@
    } else {
        "ASSISTANT"@
    }
}

/// The log text of one transcript line: a user or assistant message that is
/// neither synthetic nor blank, under its role; nothing for any other line.
pub open spec fn log_entry(line: Seq<char>) -> Seq<char> {
    match json_of(line) {
        Some(v) => match field(v, "type"@) {
            Some(Json::Str(t)) => match message_text(v) {
                Some(x) => if (t@ == "user"@ || t@ == "assistant"@) && !is_synthetic(x) && !is_blank(
                    x,
                ) {
                    "\n["@ + role_label(t@) + "]\n"@ + x + "\n"@
                } else {
                    Seq::<char>::empty()
                },
                None => Seq::<char>::empty(),
            },
            _ => Seq::<char>::empty(),
        },
        None => Seq::<char>::empty(),
    }
}

/// The log of a transcript's lines.
pub open spec fn render_log(ls: Seq<Seq<char>>) -> Seq<char>
    decreases ls.len(),
{
    if ls.len() == 0 {
        Seq::<char>::empty()
    } else {
        render_log(ls.drop_last()) + log_entry(ls.last())
    }
}

/// What stands in for the log of a transcript that could not be read.
pub open spec fn unreadable_log() -> Seq<char> {
    "Error reading log"@
}

/// The log text of one transcript line.
pub fn log_entry_of(line: &str) -> (r: String)
    ensures
        r@ == log_entry(line@),
{
    let mut out = String::new();
    match parse_json(line) {
        Some(v) => match v.get("type") {
            Some(Json::Str(t)) => {
                let is_user = same_text(t.as_str(), "user");
                let is_assistant = same_text(t.as_str(), "assistant");
                match record_text(&v) {
                    Some(x) => {
                        let xc = chars_of(x.as_str());
                        if (is_user || is_assistant) && !synthetic(&xc) && !blank(&xc) {
                            out.append("\n[");
                            if is_user {
                                out.append("USER");
                            } else {
                                out.append("ASSISTANT");
                            }
                            out.append("]\n");
                            out.append(x.as_str());
                            out.append("\n");
                        }
                    },
                    None => {},
                }
            },
            _ => {},
        },
        None => {},
    }
    proof {
        assert(out@ =~= log_entry(line@));
    }
    out
}

/// A transcript as a readable log: each user or assistant message under its
/// role, in order; a fixed notice where the transcript could not be read.
pub fn read_log(text: Option<&str>) -> (r: String)
    ensures
        r@ == match text {
            Some(t) => render_log(lines_of(t@)),
            None => unreadable_log(),
        },
{
    match text {
        Some(t) => {
            let lines = split_lines(t);
            let ghost ls = views(lines@);
            let mut out = String::new();
            let mut i: usize = 0;
            while i < lines.len()
                invariant
                    i <= lines.len(),
                    ls == views(lines@),
                    out@ == render_log(ls.take(i as int)),
                decreases lines.len() - i,
            {
                proof {
                    assert(ls.take(i + 1).drop_last() =~= ls.take(i as int));
                    assert(ls.take(i + 1).last() == lines@[i as int]@);
                }
                let e = log_entry_of(lines[i].as_str());
                out.append(e.as_str());
                i += 1;
            }
            proof {
                assert(ls.take(lines.len() as int) =~= ls);
            }
            out
        },
        None => String::from_str("Error reading log"),
    }
}

/// The log of at most the first `n` messages that the log shows.
pub open spec fn render_first(ls: Seq<Seq<char>>, n: nat) -> Seq<char>
    decreases ls.len(),
{
    if ls.len() == 0 || n == 0 {
        Seq::<char>::empty()
    } else if log_entry(ls[0]).len() > 0 {
        log_entry(ls[0]) + render_first(ls.drop_first(), (n - 1) as nat)
    } else {
        render_first(ls.drop_first(), n)
    }
}

/// An excerpt of a transcript: its log cut after the first `max` messages.
pub fn excerpt(text: &str, max: usize) -> (r: String)
    ensures
        r@ == render_first(lines_of(text@), max as nat),
{
    let lines = split_lines(text);
    let ghost ls = views(lines@);
    let mut out = String::new();
    let mut left: usize = max;
    let mut i: usize = 0;
    proof {
        assert(ls.skip(0) =~= ls);
    }
    while i < lines.len() && left > 0
        invariant
            i <= lines.len(),
            ls == views(lines@),
            ls == lines_of(text@),
            out@ + render_first(ls.skip(i as int), left as nat) == render_first(ls, max as nat),
        decreases lines.len() - i,
    {
        let e = log_entry_of(lines[i].as_str());
        let ghost rest = ls.skip(i as int);
        proof {
            assert(rest[0] == lines@[i as int]@);
            assert(rest.drop_first() =~= ls.skip(i + 1));
        }
        if e.as_str().is_empty() {
            assert(log_entry(rest[0]).len() == 0);
        } else {
            let ghost before = out@;
            out.append(e.as_str());
            left -= 1;
            proof {
                assert(before + (e@ + render_first(ls.skip(i + 1), left as nat)) =~= out@
                    + render_first(ls.skip(i + 1), left as nat));
            }
        }
        i += 1;
    }
    proof {
        if i == lines.len() {
            assert(ls.skip(i as int).len() == 0);
        }
        assert(out@ + Seq::<char>::empty() =~= out@);
    }
    out
}

/// The title of a todo item: its `title`, or where it has none its
/// `content`, when that is a string.
pub open spec fn todo_title(item: Json) -> Option<Seq<char>> {
    let pick = match field(item, "title"@) {
        Some(x) => Some(x),
        None => field(item, "content"@),
    };
    match pick {
        Some(Json::Str(s)) => Some(s@),
        _ => None,
    }
}

pub open spec fn titles_in(items: Seq<Json>) -> Seq<Seq<char>>
    decreases items.len(),
{
    if items.len() == 0 {
        Seq::<Seq<char>>::empty()
    } else {
        match todo_title(items.last()) {
            Some(t) => titles_in(items.drop_last()).push(t),
            None => titles_in(items.drop_last()),
        }
    }
}

/// The titles of a todo file: those of the items of its array, in order.
pub open spec fn todo_list(text: Seq<char>) -> Seq<Seq<char>> {
    match json_of(text) {
        Some(Json::Array(items)) => titles_in(items@),
        _ => Seq::<Seq<char>>::empty(),
    }
}

/// The titles of a todo file's items.
pub fn todo_titles(text: &str) -> (r: Vec<String>)
    ensures
        views(r@) == todo_list(text@),
{
    let mut out: Vec<String> = Vec::new();
    match parse_json(text) {
        Some(Json::Array(items)) => {
            let mut i: usize = 0;
            proof {
                assert(items@.take(0) =~= Seq::<Json>::empty());
                assert(views(out@) =~= Seq::<Seq<char>>::empty());
            }
            while i < items.len()
                invariant
                    i <= items.len(),
                    views(out@) == titles_in(items@.take(i as int)),
                decreases items.len() - i,
            {
                proof {
                    assert(items@.take(i + 1).drop_last() =~= items@.take(i as int));
                    assert(items@.take(i + 1).last() == items@[i as int]);
                }
                let item = &items[i];
                let pick = match item.get("title") {
                    Some(x) => Some(x),
                    None => item.get("content"),
                };
                match pick {
                    Some(Json::Str(s)) => {
                        let ghost before = out@;
                        out.push(s.clone());
                        proof {
                            assert(views(out@) =~= views(before).push(s@));
                        }
                    },
                    _ => {},
                }
                i += 1;
            }
            proof {
                assert(items@.take(items.len() as int) =~= items@);
            }
            out
        },
        _ => {
            proof {
                assert(views(out@) =~= Seq::<Seq<char>>::empty());
            }
            out
        },
    }
}

/// The paths under the todos root, in order.
pub open spec fn todo_paths(ps: Seq<Seq<char>>) -> Seq<Seq<char>>
    decreases ps.len(),
{
    if ps.len() == 0 {
        Seq::<Seq<char>>::empty()
    } else if "todos/"@.is_prefix_of(ps.last()) {
        todo_paths(ps.drop_last()).push(ps.last())
    } else {
        todo_paths(ps.drop_last())
    }
}

impl Session {
    /// The related files that are todo entries.
    pub fn todo_files(&self) -> (r: Vec<String>)
        ensures
            views(r@) == todo_paths(views(self.related_files@)),
    {
        let fs = &self.related_files;
        let pre = chars_of("todos/");
        let mut out: Vec<String> = Vec::new();
        let mut i: usize = 0;
        proof {
            assert(views(fs@).take(0) =~= Seq::<Seq<char>>::empty());
            assert(views(out@) =~= Seq::<Seq<char>>::empty());
        }
        while i < fs.len()
            invariant
                i <= fs.len(),
                pre@ == "todos/"@,
                views(out@) == todo_paths(views(fs@).take(i as int)),
            decreases fs.len() - i,
        {
            proof {
                    assert(views(fs@).take(i + 1).drop_last() =~= views(fs@).take(i as int));
                assert(views(fs@).take(i + 1).last() == fs@[i as int]@);
            }
            let ghost before = out@;
            if crate::text::starts_with_chars(&chars_of(fs[i].as_str()), &pre) {
                out.push(fs[i].clone());
                proof {
                    assert(views(out@) =~= views(before).push(fs@[i as int]@));
                }
            }
            i += 1;
        }
        proof {
            assert(views(fs@).take(fs.len() as int) =~= views(fs@));
        }
        out
    }
}

/// Two decimal digits of `n < 100`.
pub open spec fn two_digits(n: nat) -> Seq<char> {
    seq![digit(n / 10), digit(n % 10)]
}

/// The English abbreviation of month `m`, 1 to 12.
pub open spec fn month_abbrev(m: nat) -> Seq<char> {
    if m == 1 {
        "Jan"@
    } else if m == 2 {
        "Feb"@
    } else if m == 3 {
        "Mar"@
    } else if m == 4 {
        "Apr"@
    } else if m == 5 {
        "May"@
    } else if m == 6 {
        "Jun"@
    } else if m == 7 {
        "Jul"@
    } else if m == 8 {
        "Aug"@
    } else if m == 9 {
        "Sep"@
    } else if m == 10 {
        "Oct"@
    } else if m == 11 {
        "Nov"@
    } else {
        "Dec"@
    }
}

/// The last two digits of a year, counted up from the next lower hundred.
pub open spec fn year_in_century(y: int) -> nat {
    (if y >= 0 {
        y % 100
    } else {
        (99 - ((-(y + 1)) % 100))
    }) as nat
}

/// A date as day, abbreviated month and two-digit year: `05 Jan 24`.
pub open spec fn date_label(day: u32, month: u32, year: i32) -> Seq<char> {
    two_digits(day as nat % 100) + " "@ + month_abbrev(month as nat) + " "@ + two_digits(
        year_in_century(year as int),
    )
}

/// How long ago something changed, in the largest whole unit below a day.
pub open spec fn age_label(elapsed: nat) -> Seq<char> {
    if elapsed < 60 {
        decimal(elapsed) + "s"@
    } else if elapsed < 3600 {
        decimal(elapsed / 60) + "m"@
    } else {
        decimal(elapsed / 3600) + "h"@
    }
}

/// Seconds from `from` to `to`, none where `to` is earlier.
pub open spec fn elapsed(from: u64, to: u64) -> nat {
    if to >= from {
        (to - from) as nat
    } else {
        0
    }
}

fn push_two_digits(s: &mut String, n: u32)
    requires
        n < 100,
    ensures
        final(s)@ == old(s)@ + two_digits(n as nat),
{
    let ghost start = s@;
    push_char(s, (48u8 + (n / 10) as u8) as char);
    push_char(s, (48u8 + (n % 10) as u8) as char);
    proof {
        assert(s@ =~= start + two_digits(n as nat));
    }
}

/// A date as day, abbreviated month and two-digit year.
pub fn format_date(day: u32, month: u32, year: i32) -> (r: String)
    ensures
        r@ == date_label(day, month, year),
{
    let mut out = String::new();
    push_two_digits(&mut out, day % 100);
    out.append(" ");
    let name = if month == 1 {
        "Jan"
    } else if month == 2 {
        "Feb"
    } else if month == 3 {
        "Mar"
    } else if month == 4 {
        "Apr"
    } else if month == 5 {
        "May"
    } else if month == 6 {
        "Jun"
    } else if month == 7 {
        "Jul"
    } else if month == 8 {
        "Aug"
    } else if month == 9 {
        "Sep"
    } else if month == 10 {
        "Oct"
    } else if month == 11 {
        "Nov"
    } else {
        "Dec"
    };
    out.append(name);
    out.append(" ");
    let y: i64 = year as i64;
    let c: u32 = if y >= 0 {
        (y % 100) as u32
    } else {
        (99 - ((-(y + 1)) % 100)) as u32
    };
    push_two_digits(&mut out, c);
    proof {
        assert(out@ =~= date_label(day, month, year));
    }
    out
}

/// Relies on chrono's `DateTime::from_timestamp`, `with_timezone(&Local)`
/// and `Datelike`: the day, month and year that a time in seconds since the
/// Unix epoch falls on in the machine's time zone, or nothing where it lies
/// outside chrono's range.
#[verifier::external_body]
fn local_date(secs: i64) -> (r: Option<(u32, u32, i32)>)
    ensures
        match r {
            Some(d) => 1 <= d.0 <= 31 && 1 <= d.1 <= 12,
            None => true,
        },
{
    match chrono::DateTime::from_timestamp(secs, 0) {
        Some(t) => {
            let l = t.with_timezone(&chrono::Local);
            Some((l.day(), l.month(), l.year()))
        },
        None => None,
    }
}

impl Session {
    /// How long before `now` (seconds since the Unix epoch) the transcript
    /// last changed: seconds, minutes or hours below a day, else the local
    /// date of the change (whole days where the date cannot be had).
    pub fn formatted_age(&self, now: u64) -> (r: String)
        ensures
            elapsed(self.modified, now) < 86400 ==> r@ == age_label(elapsed(self.modified, now)),
            elapsed(self.modified, now) >= 86400 ==> (exists|d: u32, m: u32, y: i32|
                r@ == #[trigger] date_label(d, m, y)) || r@ == decimal(
                elapsed(self.modified, now) / 86400,
            ) + "d"@,
    {
        let e: u64 = if now >= self.modified {
            now - self.modified
        } else {
            0
        };
        let mut out = String::new();
        if e < 60 {
            push_decimal(&mut out, e);
            out.append("s");
        } else if e < 3600 {
            push_decimal(&mut out, e / 60);
            out.append("m");
        } else if e < 86400 {
            push_decimal(&mut out, e / 3600);
            out.append("h");
        } else {
            let got = if self.modified <= i64::MAX as u64 {
                local_date(self.modified as i64)
            } else {
                None
            };
            match got {
                Some((d, m, y)) => {
                    return format_date(d, m, y);
                },
                None => {
                    push_decimal(&mut out, e / 86400);
                    out.append("d");
                },
            }
        }
        out
    }
}

} // verus!
