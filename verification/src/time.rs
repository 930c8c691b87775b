//! Instants in UTC, held as a count of seconds since the Unix epoch and the
//! nanoseconds into that second, as chrono's `DateTime<Utc>` keeps them.
//!
//! Calendar arithmetic, formatting and RFC 3339 parsing are chrono's work:
//! each goes through one call whose result is named here.

use chrono::{DateTime, Datelike, Utc};
use vstd::prelude::*;

verus! {

/// Whether `DateTime::from_timestamp(secs, nanos)` gives an instant: the
/// pair lies within chrono's range of dates and names a valid time of day.
pub uninterp spec fn chrono_instant(secs: i64, nanos: u32) -> bool;

/// The calendar year (proleptic Gregorian, UTC) that `Datelike::year` gives
/// for the instant.
pub uninterp spec fn calendar_year(secs: i64, nanos: u32) -> i32;

/// What `DateTime::to_rfc3339` writes for the instant.
pub uninterp spec fn rfc3339_text(secs: i64, nanos: u32) -> Seq<char>;

/// What `DateTime::format("%m/%d")` writes for the instant: month and day,
/// each as two digits.
pub uninterp spec fn month_day_text(secs: i64, nanos: u32) -> Seq<char>;

/// What `DateTime::format("%b %d")` writes for the instant: the abbreviated
/// English month name and the day as two digits.
pub uninterp spec fn month_name_day_text(secs: i64, nanos: u32) -> Seq<char>;

/// What `DateTime::format("%Y, %B %d")` writes for the instant: year, full
/// English month name and day, as in `2024, March 07`.
pub uninterp spec fn long_date_text(secs: i64, nanos: u32) -> Seq<char>;

/// What `DateTime::format("%Y-%m-%d")` writes for the instant.
pub uninterp spec fn iso_date_text(secs: i64, nanos: u32) -> Seq<char>;

/// The instant that `DateTime::parse_from_rfc3339` reads from a text, as
/// seconds and nanoseconds in UTC, or `None` where chrono refuses the text.
pub uninterp spec fn rfc3339_instant(text: Seq<char>) -> Option<(i64, u32)>;

#[verifier::external_type_specification]
#[verifier::external_body]
pub struct ExParseError(chrono::ParseError);

/// An instant: seconds since 1970-01-01T00:00:00Z and nanoseconds into the
/// second (beyond `999_999_999` only within a leap second).
pub struct Timestamp {
    secs: i64,
    nanos: u32,
}

impl Timestamp {
    /// Every timestamp names an instant that chrono can represent.
    #[verifier::type_invariant]
    spec fn representable(self) -> bool {
        chrono_instant(self.secs, self.nanos)
    }

    /// The seconds since the epoch.
    pub closed spec fn spec_secs(self) -> i64 {
        self.secs
    }

    /// The nanoseconds into the second.
    pub closed spec fn spec_nanos(self) -> u32 {
        self.nanos
    }

    /// The timestamp for `secs` and `nanos`, or `None` where chrono has no
    /// such instant.
    pub fn from_parts(secs: i64, nanos: u32) -> (r: Option<Timestamp>)
        ensures
            match r {
                Some(t) => chrono_instant(secs, nanos) && t.spec_secs() == secs && t.spec_nanos()
                    == nanos,
                None => !chrono_instant(secs, nanos),
            },
    {
        if representable(secs, nanos) {
            Some(Timestamp { secs, nanos })
        } else {
            None
        }
    }

    /// The seconds since the epoch (chrono's `timestamp`).
    pub fn secs(&self) -> (r: i64)
        ensures
            r == self.spec_secs(),
    {
        self.secs
    }

    /// The nanoseconds into the second.
    pub fn nanos(&self) -> (r: u32)
        ensures
            r == self.spec_nanos(),
    {
        self.nanos
    }

    /// A timestamp equal to this one.
    pub fn copy(&self) -> (r: Timestamp)
        ensures
            r.spec_secs() == self.spec_secs(),
            r.spec_nanos() == self.spec_nanos(),
    {
        proof {
            use_type_invariant(self);
        }
        Timestamp { secs: self.secs, nanos: self.nanos }
    }

    /// The calendar year of the instant.
    pub fn year(&self) -> (r: i32)
        ensures
            r == calendar_year(self.spec_secs(), self.spec_nanos()),
    {
        proof {
            use_type_invariant(self);
        }
        year_of(self.secs, self.nanos)
    }

    /// The instant in RFC 3339 form.
    pub fn to_rfc3339(&self) -> (r: String)
        ensures
            r@ == rfc3339_text(self.spec_secs(), self.spec_nanos()),
    {
        proof {
            use_type_invariant(self);
        }
        rfc3339_of(self.secs, self.nanos)
    }

    /// Month and day, as `MM/DD`.
    pub fn month_day(&self) -> (r: String)
        ensures
            r@ == month_day_text(self.spec_secs(), self.spec_nanos()),
    {
        proof {
            use_type_invariant(self);
        }
        month_day_of(self.secs, self.nanos)
    }

    /// Abbreviated month name and day, as in `Mar 07`.
    pub fn month_name_day(&self) -> (r: String)
        ensures
            r@ == month_name_day_text(self.spec_secs(), self.spec_nanos()),
    {
        proof {
            use_type_invariant(self);
        }
        month_name_day_of(self.secs, self.nanos)
    }

    /// Year, month name and day, as in `2024, March 07`.
    pub fn long_date(&self) -> (r: String)
        ensures
            r@ == long_date_text(self.spec_secs(), self.spec_nanos()),
    {
        proof {
            use_type_invariant(self);
        }
        long_date_of(self.secs, self.nanos)
    }

    /// The date as `YYYY-MM-DD`.
    pub fn iso_date(&self) -> (r: String)
        ensures
            r@ == iso_date_text(self.spec_secs(), self.spec_nanos()),
    {
        proof {
            use_type_invariant(self);
        }
        iso_date_of(self.secs, self.nanos)
    }

    /// Reads an RFC 3339 date and time (any offset) as an instant in UTC.
    pub fn parse_rfc3339(text: &str) -> (r: Result<Timestamp, chrono::ParseError>)
        ensures
            match r {
                Ok(t) => rfc3339_instant(text@) == Some((t.spec_secs(), t.spec_nanos())),
                Err(_) => rfc3339_instant(text@) is None,
            },
    {
        match parse_instant(text) {
            Ok((secs, nanos)) => Ok(Timestamp { secs, nanos }),
            Err(e) => Err(e),
        }
    }
}

/// Whether the instant is earlier than another.
pub open spec fn earlier(a: (i64, u32), b: (i64, u32)) -> bool {
    a.0 < b.0 || (a.0 == b.0 && a.1 < b.1)
}

/// The pair that orders a timestamp: chrono orders instants by seconds, then
/// by nanoseconds.
pub open spec fn instant(t: Timestamp) -> (i64, u32) {
    (t.spec_secs(), t.spec_nanos())
}

/// Whether `a` is strictly earlier than `b`.
pub fn is_earlier(a: &Timestamp, b: &Timestamp) -> (r: bool)
    ensures
        r == earlier(instant(*a), instant(*b)),
{
    let (sa, sb) = (a.secs(), b.secs());
    sa < sb || (sa == sb && a.nanos() < b.nanos())
}

/// `DateTime::from_timestamp(secs, nanos).is_some()`: whether chrono has an
/// instant for the pair.
#[verifier::external_body]
fn representable(secs: i64, nanos: u32) -> (r: bool)
    ensures
        r == chrono_instant(secs, nanos),
{
    DateTime::from_timestamp(secs, nanos).is_some()
}

/// `Datelike::year` of `DateTime::from_timestamp(secs, nanos)`.
#[verifier::external_body]
fn year_of(secs: i64, nanos: u32) -> (r: i32)
    requires
        chrono_instant(secs, nanos),
    ensures
        r == calendar_year(secs, nanos),
{
    DateTime::from_timestamp(secs, nanos).expect("representable instant").year()
}

/// `DateTime::to_rfc3339` of `DateTime::from_timestamp(secs, nanos)`.
#[verifier::external_body]
fn rfc3339_of(secs: i64, nanos: u32) -> (r: String)
    requires
        chrono_instant(secs, nanos),
    ensures
        r@ == rfc3339_text(secs, nanos),
{
    DateTime::from_timestamp(secs, nanos).expect("representable instant").to_rfc3339()
}

/// `DateTime::format("%m/%d")`, written out, of the instant.
#[verifier::external_body]
fn month_day_of(secs: i64, nanos: u32) -> (r: String)
    requires
        chrono_instant(secs, nanos),
    ensures
        r@ == month_day_text(secs, nanos),
{
    DateTime::from_timestamp(secs, nanos).expect("representable instant").format("%m/%d").to_string()
}

/// `DateTime::format("%b %d")`, written out, of the instant.
#[verifier::external_body]
fn month_name_day_of(secs: i64, nanos: u32) -> (r: String)
    requires
        chrono_instant(secs, nanos),
    ensures
        r@ == month_name_day_text(secs, nanos),
{
    DateTime::from_timestamp(secs, nanos).expect("representable instant").format("%b %d").to_string()
}

/// `DateTime::format("%Y, %B %d")`, written out, of the instant.
#[verifier::external_body]
fn long_date_of(secs: i64, nanos: u32) -> (r: String)
    requires
        chrono_instant(secs, nanos),
    ensures
        r@ == long_date_text(secs, nanos),
{
    DateTime::from_timestamp(secs, nanos).expect("representable instant").format("%Y, %B %d").to_string()
}

/// `DateTime::format("%Y-%m-%d")`, written out, of the instant.
#[verifier::external_body]
fn iso_date_of(secs: i64, nanos: u32) -> (r: String)
    requires
        chrono_instant(secs, nanos),
    ensures
        r@ == iso_date_text(secs, nanos),
{
    DateTime::from_timestamp(secs, nanos).expect("representable instant").format("%Y-%m-%d").to_string()
}

/// `DateTime::parse_from_rfc3339`, taken to UTC and read back as seconds and
/// nanoseconds. What it reads is an instant that chrono represents.
#[verifier::external_body]
fn parse_instant(text: &str) -> (r: Result<(i64, u32), chrono::ParseError>)
    ensures
        match r {
            Ok(p) => rfc3339_instant(text@) == Some(p) && chrono_instant(p.0, p.1),
            Err(_) => rfc3339_instant(text@) is None,
        },
{
    let t = DateTime::parse_from_rfc3339(text)?.with_timezone(&Utc);
    Ok((t.timestamp(), t.timestamp_subsec_nanos()))
}

} // verus!
