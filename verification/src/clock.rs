//! Instants of UTC time, and what `chrono` computes of them.

use crate::text::opt_view;
use chrono::{DateTime, SecondsFormat, Utc};
use vstd::prelude::*;

verus! {

// ------------------------------------------------------------------ models

/// The first second that `chrono` can represent.
pub const FIRST_SECOND: i64 = -8334601228800;

/// The last second that `chrono` can represent.
pub const LAST_SECOND: i64 = 8210266876799;

/// Nanoseconds in a second.
pub const NANOS_PER_SECOND: u32 = 1000000000;

/// A point in time: non-leap seconds since the Unix epoch and nanoseconds
/// within the second. In the last second of a minute the nanoseconds may reach
/// into a leap second.
pub open spec fn valid_instant(secs: int, nanos: int) -> bool {
    &&& FIRST_SECOND <= secs <= LAST_SECOND
    &&& 0 <= nanos < 2 * NANOS_PER_SECOND
    &&& nanos >= NANOS_PER_SECOND ==> secs % 60 == 59
}

/// The instants in the order of time.
pub open spec fn earlier(a: (i64, u32), b: (i64, u32)) -> bool {
    a.0 < b.0 || (a.0 == b.0 && a.1 < b.1)
}

/// A number that orders the instants as time does.
pub open spec fn instant_key(t: (i64, u32)) -> int {
    t.0 * (2 * NANOS_PER_SECOND) + t.1
}

/// The second of the day in which an instant lies.
pub open spec fn second_of_day(t: (i64, u32)) -> int {
    t.0 as int % 86400
}

/// The leap seconds that the way from `b` to `a` counts: one that `b` has not
/// finished, or one that `a` has begun.
pub open spec fn leap_seconds(a: (i64, u32), b: (i64, u32)) -> int {
    if second_of_day(a) > second_of_day(b) && b.1 >= NANOS_PER_SECOND {
        1
    } else if second_of_day(a) < second_of_day(b) && a.1 >= NANOS_PER_SECOND {
        -1
    } else {
        0
    }
}

/// The signed nanoseconds from `b` to `a`.
pub open spec fn elapsed_nanos(a: (i64, u32), b: (i64, u32)) -> int {
    (a.0 - b.0 + leap_seconds(a, b)) * NANOS_PER_SECOND + (a.1 - b.1)
}

/// Division that rounds toward zero.
pub open spec fn toward_zero(n: int, d: int) -> int {
    if n >= 0 {
        n / d
    } else {
        -((-n) / d)
    }
}

/// The whole minutes from `b` to `a`, rounded toward zero.
pub open spec fn minutes_between(a: (i64, u32), b: (i64, u32)) -> int {
    toward_zero(elapsed_nanos(a, b), 60 * NANOS_PER_SECOND)
}

// ------------------------------------------------------------------ chrono

/// `DateTime::from_timestamp` accepts exactly the valid instants.
#[verifier::external_body]
fn instant_exists(secs: i64, nanos: u32) -> (r: bool)
    ensures
        r == valid_instant(secs as int, nanos as int),
{
    DateTime::<Utc>::from_timestamp(secs, nanos).is_some()
}

/// The difference of two `DateTime<Utc>`, in the whole minutes that
/// `TimeDelta::num_minutes` gives: it rounds toward zero, and counts a leap
/// second that one of the two instants lies in.
#[verifier::external_body]
fn whole_minutes(secs: i64, nanos: u32, from_secs: i64, from_nanos: u32) -> (r: i64)
    requires
        valid_instant(secs as int, nanos as int),
        valid_instant(from_secs as int, from_nanos as int),
    ensures
        r == minutes_between((secs, nanos), (from_secs, from_nanos)),
{
    let to = DateTime::<Utc>::from_timestamp(secs, nanos).unwrap();
    let from = DateTime::<Utc>::from_timestamp(from_secs, from_nanos).unwrap();
    (to - from).num_minutes()
}

/// What parsing a text as a `DateTime<Utc>` gives: the instant, or the text of
/// the error.
pub uninterp spec fn parsed_instant(text: Seq<char>) -> Result<(i64, u32), Seq<char>>;

/// `str::parse::<DateTime<Utc>>`: the result is a function of the text alone,
/// and a parsed instant is a valid one.
#[verifier::external_body]
fn parse_instant(text: &str) -> (r: Result<(i64, u32), String>)
    ensures
        match r {
            Ok(t) => parsed_instant(text@) == Ok::<(i64, u32), Seq<char>>(t) && valid_instant(
                t.0 as int,
                t.1 as int,
            ),
            Err(e) => parsed_instant(text@) == Err::<(i64, u32), Seq<char>>(e@),
        },
{
    match text.parse::<DateTime<Utc>>() {
        Ok(t) => Ok((t.timestamp(), t.timestamp_subsec_nanos())),
        Err(e) => Err(e.to_string()),
    }
}

/// What `DateTime<Utc>` displays of an instant.
pub uninterp spec fn displayed_instant(secs: i64, nanos: u32) -> Seq<char>;

/// `DateTime<Utc>::to_string`: the result is a function of the instant alone.
#[verifier::external_body]
fn display_instant(secs: i64, nanos: u32) -> (r: String)
    requires
        valid_instant(secs as int, nanos as int),
    ensures
        r@ == displayed_instant(secs, nanos),
{
    DateTime::<Utc>::from_timestamp(secs, nanos).unwrap().to_string()
}

/// An instant in RFC 3339, with as many decimals as it needs and a `Z`.
pub uninterp spec fn rfc3339_instant(secs: i64, nanos: u32) -> Seq<char>;

/// `DateTime<Utc>::to_rfc3339_opts` with automatic decimals and a `Z`: the
/// result is a function of the instant alone.
#[verifier::external_body]
fn write_rfc3339(secs: i64, nanos: u32) -> (r: String)
    requires
        valid_instant(secs as int, nanos as int),
    ensures
        r@ == rfc3339_instant(secs, nanos),
{
    let t = DateTime::<Utc>::from_timestamp(secs, nanos).unwrap();
    t.to_rfc3339_opts(SecondsFormat::AutoSi, true)
}

// --------------------------------------------------------------- timestamps

/// An instant of UTC time.
#[derive(Clone, Copy, Debug, PartialEq, Eq)]
pub struct Timestamp {
    secs: i64,
    nanos: u32,
}

impl View for Timestamp {
    type V = (i64, u32);

    closed spec fn view(&self) -> (i64, u32) {
        (self.secs, self.nanos)
    }
}

impl Timestamp {
    #[verifier::type_invariant]
    closed spec fn is_valid(&self) -> bool {
        valid_instant(self.secs as int, self.nanos as int)
    }

    /// The instant at the given second and nanosecond, if `chrono` can
    /// represent it.
    pub fn new(secs: i64, nanos: u32) -> (t: Option<Timestamp>)
        ensures
            opt_view(t) == if valid_instant(secs as int, nanos as int) {
                Some((secs, nanos))
            } else {
                None
            },
    {
        if instant_exists(secs, nanos) {
            Some(Timestamp { secs, nanos })
        } else {
            None
        }
    }

    /// The seconds since the Unix epoch.
    pub fn secs(&self) -> (s: i64)
        ensures
            s == self@.0,
            valid_instant(self@.0 as int, self@.1 as int),
    {
        proof {
            use_type_invariant(self);
        }
        self.secs
    }

    /// The nanoseconds within the second.
    pub fn nanos(&self) -> (n: u32)
        ensures
            n == self@.1,
    {
        self.nanos
    }

    /// The whole minutes from `start` to this instant, rounded toward zero.
    pub fn minutes_since(&self, start: &Timestamp) -> (m: i64)
        ensures
            m == minutes_between(self@, start@),
            valid_instant(self@.0 as int, self@.1 as int),
            valid_instant(start@.0 as int, start@.1 as int),
    {
        proof {
            use_type_invariant(self);
            use_type_invariant(start);
        }
        whole_minutes(self.secs, self.nanos, start.secs, start.nanos)
    }

    /// Whether this instant is not earlier than `other`.
    pub fn at_or_after(&self, other: &Timestamp) -> (b: bool)
        ensures
            b == !earlier(self@, other@),
    {
        self.secs > other.secs || (self.secs == other.secs && self.nanos >= other.nanos)
    }

    /// A number that orders the instants as time does.
    pub fn key(&self) -> (k: i128)
        ensures
            k == instant_key(self@),
            valid_instant(self@.0 as int, self@.1 as int),
    {
        proof {
            use_type_invariant(self);
        }
        (self.secs as i128) * 2000000000 + (self.nanos as i128)
    }

    /// Reads an instant from a text; the error is the parser's.
    pub fn parse(text: &str) -> (r: Result<Timestamp, String>)
        ensures
            match r {
                Ok(t) => parsed_instant(text@) == Ok::<(i64, u32), Seq<char>>(t@),
                Err(e) => parsed_instant(text@) == Err::<(i64, u32), Seq<char>>(e@),
            },
    {
        match parse_instant(text) {
            Ok(t) => Ok(Timestamp { secs: t.0, nanos: t.1 }),
            Err(e) => Err(e),
        }
    }

    /// The instant as people read it.
    pub fn display(&self) -> (s: String)
        ensures
            s@ == displayed_instant(self@.0, self@.1),
    {
        proof {
            use_type_invariant(self);
        }
        display_instant(self.secs, self.nanos)
    }

    /// The instant in RFC 3339.
    pub fn rfc3339(&self) -> (s: String)
        ensures
            s@ == rfc3339_instant(self@.0, self@.1),
    {
        proof {
            use_type_invariant(self);
        }
        write_rfc3339(self.secs, self.nanos)
    }
}

/// The keys of two valid instants are ordered as the instants are.
pub proof fn law_instant_key_orders(a: (i64, u32), b: (i64, u32))
    requires
        valid_instant(a.0 as int, a.1 as int),
        valid_instant(b.0 as int, b.1 as int),
    ensures
        earlier(a, b) <==> instant_key(a) < instant_key(b),
        instant_key(a) == instant_key(b) <==> a == b,
{
}

/// Among instants outside leap seconds, moving the end of a span to a later
/// instant never lowers its minutes.
pub proof fn law_minutes_monotone_outside_leaps(a: (i64, u32), b: (i64, u32), start: (i64, u32))
    requires
        !earlier(b, a),
        a.1 < NANOS_PER_SECOND,
        b.1 < NANOS_PER_SECOND,
        start.1 < NANOS_PER_SECOND,
    ensures
        minutes_between(a, start) <= minutes_between(b, start),
{
    let x = elapsed_nanos(a, start);
    let y = elapsed_nanos(b, start);
    assert(x <= y);
    lemma_toward_zero_monotone(x, y, 60 * NANOS_PER_SECOND as int);
}

pub proof fn lemma_toward_zero_monotone(x: int, y: int, d: int)
    requires
        x <= y,
        d > 0,
    ensures
        toward_zero(x, d) <= toward_zero(y, d),
{
    if x >= 0 {
        vstd::arithmetic::div_mod::lemma_div_is_ordered(x, y, d);
    } else if y < 0 {
        vstd::arithmetic::div_mod::lemma_div_is_ordered(-y, -x, d);
    } else {
        vstd::arithmetic::div_mod::lemma_div_pos_is_pos(y, d);
        vstd::arithmetic::div_mod::lemma_div_pos_is_pos(-x, d);
    }
}

/// Time is ordered by the second and then by the nanosecond within it, and the
/// minutes between two instants with the same nanosecond, outside leap seconds,
/// are the seconds between them by sixty, rounded toward zero.
pub proof fn law_time(a: (i64, u32), b: (i64, u32))
    ensures
        earlier(a, b) <==> a.0 < b.0 || (a.0 == b.0 && a.1 < b.1),
        !(earlier(a, b) && earlier(b, a)),
        a.1 == b.1 && a.1 < NANOS_PER_SECOND && a.0 >= b.0 ==> minutes_between(a, b) == (a.0 - b.0)
            / 60,
        a.1 < NANOS_PER_SECOND && b.1 < NANOS_PER_SECOND ==> minutes_between(a, b)
            == -minutes_between(b, a),
{
    if a.1 == b.1 && a.1 < NANOS_PER_SECOND && a.0 >= b.0 {
        let d = a.0 - b.0;
        assert((d * 1000000000) / 60000000000 == d / 60);
    }
}

} // verus!
