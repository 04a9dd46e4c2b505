//! Moments in time, as a todo records them: when it was made, ticked off or
//! filed away.

use vstd::prelude::*;

use chrono::Offset;

verus! {

/// A moment: whole seconds since the Unix epoch, the nanoseconds past them,
/// and the offset from UTC, in seconds, of the clock that took it.
#[derive(Debug, Clone, Copy, PartialEq, Eq, Structural)]
pub struct Stamp {
    pub secs: i64,
    pub nanos: u32,
    pub offset: i32,
}

/// The moment `(secs, nanos)` with UTC offset `offset`, as chrono's
/// `DateTime::to_rfc3339` writes it (the empty text when chrono cannot hold
/// that moment).
pub uninterp spec fn spec_rfc3339(secs: int, nanos: int, offset: int) -> Seq<char>;

/// What chrono's `DateTime::parse_from_rfc3339` makes of `s`: seconds,
/// nanoseconds and UTC offset.
pub uninterp spec fn spec_parse_rfc3339(s: Seq<char>) -> Option<(int, int, int)>;

/// Moments that RFC 3339 text carries exactly: a local year from 0 to 9999,
/// an offset of whole minutes, and nanoseconds below a second, or below two
/// seconds in the last second of a minute, which is a leap second written
/// as second 60.
pub open spec fn writable(s: Stamp) -> bool {
    &&& s.nanos < 2_000_000_000
    &&& s.nanos >= 1_000_000_000 ==> s.secs % 60 == 59
    &&& -86_400 < s.offset < 86_400
    &&& s.offset % 60 == 0
    &&& -62_167_219_200 <= s.secs + s.offset <= 253_402_300_799
}

/// Whether `c` occurs in `s`.
pub open spec fn has_char(s: Seq<char>, c: char) -> bool {
    exists|i: int| 0 <= i < s.len() && s[i] == c
}

impl Stamp {
    /// The current moment on this machine's clock, with its local offset:
    /// chrono's `Local::now()`. Nothing is claimed of what it holds.
    #[verifier::external_body]
    pub(crate) fn now() -> (res: Stamp) {
        let n = chrono::Local::now();
        Stamp {
            secs: n.timestamp(),
            nanos: n.timestamp_subsec_nanos(),
            offset: n.offset().fix().local_minus_utc(),
        }
    }

    /// Seconds since the Unix epoch.
    pub fn timestamp(&self) -> (res: i64)
        ensures
            res == self.secs,
    {
        self.secs
    }

    /// This moment as chrono's `DateTime::to_rfc3339` writes it, such as
    /// `1996-12-19T16:39:57-08:00`. The text holds no tab, newline or carriage
    /// return. For a writable moment it starts with the four digits of the
    /// year, and chrono's RFC 3339 parser reads it back unchanged.
    #[verifier::external_body]
    pub(crate) fn rfc3339(&self) -> (res: String)
        ensures
            res@ == spec_rfc3339(self.secs as int, self.nanos as int, self.offset as int),
            !has_char(res@, '\t'),
            !has_char(res@, '\n'),
            !has_char(res@, '\r'),
            writable(*self) ==> res@.len() >= 20,
            writable(*self) ==> '0' <= res@[0] <= '9',
            writable(*self) ==> spec_parse_rfc3339(res@) == Some(
                (self.secs as int, self.nanos as int, self.offset as int),
            ),
    {
        match (
            chrono::DateTime::from_timestamp(self.secs, self.nanos),
            chrono::FixedOffset::east_opt(self.offset),
        ) {
            (Some(utc), Some(off)) => utc.with_timezone(&off).to_rfc3339(),
            _ => String::new(),
        }
    }
}

/// Seconds, nanoseconds and UTC offset of the moment `s` spells in RFC 3339:
/// chrono's `DateTime::parse_from_rfc3339`.
#[verifier::external_body]
pub(crate) fn parse_rfc3339(s: &str) -> (res: Option<(i64, u32, i32)>)
    ensures
        res matches Some(r) ==> spec_parse_rfc3339(s@) == Some(
            (r.0 as int, r.1 as int, r.2 as int),
        ),
        res is None ==> spec_parse_rfc3339(s@) is None,
{
    match chrono::DateTime::parse_from_rfc3339(s) {
        Ok(d) => Some((d.timestamp(), d.timestamp_subsec_nanos(), d.offset().local_minus_utc())),
        Err(_) => None,
    }
}

/// The UTC offset of this machine's time zone at the moment `(secs, nanos)`:
/// chrono's `with_timezone(&Local)`. It depends on the machine, and nothing
/// is claimed of it. The offset 0 stands in only for a moment that chrono's
/// `DateTime::from_timestamp` refuses, which no moment read by
/// `parse_rfc3339` is.
#[verifier::external_body]
pub(crate) fn local_offset(secs: i64, nanos: u32) -> (res: i32) {
    match chrono::DateTime::from_timestamp(secs, nanos) {
        Some(utc) => utc.with_timezone(&chrono::Local).offset().fix().local_minus_utc(),
        None => 0,
    }
}

/// The moment `s` spells in RFC 3339, seen on this machine's clock: the
/// seconds and nanoseconds are those written, the offset is the local one.
pub fn parse_stamp(s: &str) -> (res: Option<Stamp>)
    ensures
        res matches Some(t) ==> spec_parse_rfc3339(s@) matches Some(p) && t.secs == p.0
            && t.nanos == p.1,
        res is None ==> spec_parse_rfc3339(s@) is None,
{
    match parse_rfc3339(s) {
        Some((secs, nanos, _)) => Some(Stamp { secs, nanos, offset: local_offset(secs, nanos) }),
        None => None,
    }
}

} // verus!
