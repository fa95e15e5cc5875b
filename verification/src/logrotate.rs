//! Log rotation decisions: what to do with each file in the log directory,
//! given today's date. Compressed logs older than the retention window are
//! deleted, the current day's log is left alone, and every other plain log
//! is compressed. The directory walk, the compression and the deletions
//! are the caller's work.

use vstd::prelude::*;

verus! {

use vstd::string::StrSliceExecFns;
use chrono::Datelike;
use crate::strutil::{chars_of, str_starts_with, string_from_chars};

/// Days a compressed log is kept before a sweep deletes it.
pub const LOG_RETENTION_DAYS: i64 = 30;

/// The day number that `chrono` reads from a `%Y-%m-%d` date text, when
/// the text is a valid date: a function of the text alone.
pub uninterp spec fn date_days_of(s: Seq<char>) -> Option<int>;

/// Relies on `chrono::NaiveDate::parse_from_str` with the `%Y-%m-%d`
/// format and `Datelike::num_days_from_ce`: the day number of the date the
/// text spells, if it spells one.
#[verifier::external_body]
fn parse_log_date_days(s: &str) -> (r: Option<i32>)
    ensures
        match r {
            Some(d) => date_days_of(s@) == Some(d as int),
            None => date_days_of(s@) is None,
        },
{
    match chrono::NaiveDate::parse_from_str(s, "%Y-%m-%d") {
        Ok(date) => Some(date.num_days_from_ce()),
        Err(_) => None,
    }
}

/// Relies on `chrono::Local::now`, `DateTime::date_naive` and
/// `Datelike::num_days_from_ce`: today's day number in local time.
#[verifier::external_body]
pub fn today_days() -> i32 {
    chrono::Local::now().date_naive().num_days_from_ce()
}

/// What the rotation sweep does with one log file.
#[derive(Debug, Clone, Copy, PartialEq, Eq, Structural)]
pub enum LogAction {
    DeleteOld,
    Compress,
    Keep,
}

/// The date text of an archive name `server.log.<date>.gz`, if the name
/// has that shape.
pub open spec fn archive_date_text(name: Seq<char>) -> Option<Seq<char>> {
    if name.len() >= 14 && name.take(11) == "server.log."@ && name.skip(name.len() - 3) == ".gz"@ {
        Some(name.subrange(11, name.len() - 3))
    } else {
        None
    }
}

/// The date text of a plain log name `server.log.<date>`, if the name has
/// that shape.
pub open spec fn plain_date_text(name: Seq<char>) -> Option<Seq<char>> {
    if name.len() >= 11 && name.take(11) == "server.log."@ {
        Some(name.skip(11))
    } else {
        None
    }
}

/// Whether the name ends in `.gz`.
pub open spec fn is_archive_name(name: Seq<char>) -> bool {
    name.len() >= 3 && name.skip(name.len() - 3) == ".gz"@
}

/// The decision for one file: an archive whose date sits beyond the
/// retention window is deleted and any other archive is kept; a plain log
/// dated today is kept, and every other plain file is compressed.
pub open spec fn spec_log_file_action(name: Seq<char>, today: int) -> LogAction {
    if is_archive_name(name) {
        match archive_date_text(name) {
            Some(text) => match date_days_of(text) {
                Some(d) => if today - d > LOG_RETENTION_DAYS {
                    LogAction::DeleteOld
                } else {
                    LogAction::Keep
                },
                None => LogAction::Keep,
            },
            None => LogAction::Keep,
        }
    } else {
        match plain_date_text(name) {
            Some(text) => match date_days_of(text) {
                Some(d) => if d == today {
                    LogAction::Keep
                } else {
                    LogAction::Compress
                },
                None => LogAction::Compress,
            },
            None => LogAction::Compress,
        }
    }
}

/// Decides what the rotation sweep does with one file of the log
/// directory.
pub fn log_file_action(file_name: &str, today: i32) -> (r: LogAction)
    ensures
        r == spec_log_file_action(file_name@, today as int),
{
    proof {
        reveal_strlit("server.log.");
        reveal_strlit(".gz");
        assert("server.log."@.len() == 11);
        assert(".gz"@.len() == 3);
    }
    let cs = chars_of(file_name);
    let n = cs.len();
    let is_archive = if n >= 3 {
        let mut suffix: Vec<char> = Vec::new();
        let mut k: usize = n - 3;
        while k < n
            invariant
                n == cs@.len(),
                n >= 3,
                n - 3 <= k <= n,
                suffix@ == cs@.subrange(n - 3, k as int),
            decreases n - k,
        {
            suffix.push(cs[k]);
            k += 1;
            proof {
                assert(suffix@ =~= cs@.subrange(n - 3, k as int));
            }
        }
        proof {
            assert(suffix@ =~= cs@.skip(n - 3));
        }
        crate::strutil::chars_eq_str(&suffix, ".gz")
    } else {
        false
    };
    let has_prefix = str_starts_with(file_name, "server.log.");
    if is_archive {
        if has_prefix && n >= 14 {
            let mut text: Vec<char> = Vec::new();
            let mut k: usize = 11;
            while k < n - 3
                invariant
                    n == cs@.len(),
                    n >= 14,
                    11 <= k <= n - 3,
                    text@ == cs@.subrange(11, k as int),
                decreases n - k,
            {
                text.push(cs[k]);
                k += 1;
                proof {
                    assert(text@ =~= cs@.subrange(11, k as int));
                }
            }
            proof {
                assert(text@ =~= cs@.subrange(11, n - 3));
                assert(archive_date_text(cs@) == Some(cs@.subrange(11, n - 3)));
            }
            let text_string = string_from_chars(&text);
            match parse_log_date_days(text_string.as_str()) {
                Some(d) => {
                    if (today as i64) - (d as i64) > LOG_RETENTION_DAYS {
                        LogAction::DeleteOld
                    } else {
                        LogAction::Keep
                    }
                },
                None => LogAction::Keep,
            }
        } else {
            proof {
                assert(archive_date_text(cs@) is None);
            }
            LogAction::Keep
        }
    } else {
        if has_prefix {
            let mut text: Vec<char> = Vec::new();
            let mut k: usize = 11;
            while k < n
                invariant
                    n == cs@.len(),
                    n >= 11,
                    11 <= k <= n,
                    text@ == cs@.subrange(11, k as int),
                decreases n - k,
            {
                text.push(cs[k]);
                k += 1;
                proof {
                    assert(text@ =~= cs@.subrange(11, k as int));
                }
            }
            proof {
                assert(text@ =~= cs@.skip(11));
                assert(plain_date_text(cs@) == Some(cs@.skip(11)));
            }
            let text_string = string_from_chars(&text);
            match parse_log_date_days(text_string.as_str()) {
                Some(d) => {
                    if d == today {
                        LogAction::Keep
                    } else {
                        LogAction::Compress
                    }
                },
                None => LogAction::Compress,
            }
        } else {
            proof {
                assert(plain_date_text(cs@) is None);
            }
            LogAction::Compress
        }
    }
}

} // verus!
