//! Times of day as seconds since midnight, and durations in seconds.
//!
//! Schedule times may run past midnight (GTFS writes `25:10:00` for a trip
//! that continues after midnight), so a time is any `u32` count of seconds.

use crate::text::{
    chars_of, decimal, find_sep, is_digit, lemma_decimal_roundtrip, lemma_pad2_roundtrip, lemma_split_concat, lemma_split_first,
    lemma_split_no_sep, pad2, parse_u32, parse_u32_spec, push_char, push_pad2, split_on,
};
use chrono::Timelike;
use vstd::prelude::*;

verus! {

/// A time of day, in seconds since midnight.
#[derive(Debug, Clone, Copy, Default, PartialEq, Eq, PartialOrd, Ord, Hash)]
pub struct Time(pub u32);

/// A span of time, in seconds.
#[derive(Debug, Clone, Copy, Default, PartialEq, Eq, PartialOrd, Ord, Hash)]
pub struct Duration(pub u32);


pub open spec fn hours_of(secs: nat) -> nat {
    secs / 3600
}

pub open spec fn minutes_of(secs: nat) -> nat {
    (secs % 3600) / 60
}

pub open spec fn seconds_of(secs: nat) -> nat {
    secs % 60
}

/// `HH:MM:SS`, each field zero-padded to two digits (hours may use more).
pub open spec fn hms_chars(h: nat, m: nat, s: nat) -> Seq<char> {
    pad2(h) + seq![':'] + pad2(m) + seq![':'] + pad2(s)
}

/// The text that `Time::to_hms_string` gives for a number of seconds.
pub open spec fn hms_string(secs: nat) -> Seq<char> {
    hms_chars(hours_of(secs), minutes_of(secs), seconds_of(secs))
}

/// The result of `Time::from_hms`: the first three `:`-separated fields are
/// read as hours, minutes and seconds; any further field is ignored.
pub open spec fn from_hms_spec(s: Seq<char>) -> Option<u32> {
    let f = split_on(s, ':');
    match parse_u32_spec(f[0]) {
        None => None,
        Some(h) => if f.len() < 2 {
            None
        } else {
            match parse_u32_spec(f[1]) {
                None => None,
                Some(m) => if f.len() < 3 {
                    None
                } else {
                    match parse_u32_spec(f[2]) {
                        None => None,
                        Some(sec) => Some((h * 3600 + m * 60 + sec) as u32),
                    }
                },
            }
        },
    }
}

/// Whether the arithmetic of `Time::from_hms` stays within `u32` on `s`:
/// hours are scaled as soon as they are read, minutes likewise, and the
/// three parts are summed last.
pub open spec fn from_hms_in_range(s: Seq<char>) -> bool {
    let f = split_on(s, ':');
    match parse_u32_spec(f[0]) {
        None => true,
        Some(h) => h * 3600 <= u32::MAX && (f.len() < 2 || match parse_u32_spec(f[1]) {
            None => true,
            Some(m) => m * 60 <= u32::MAX && (f.len() < 3 || match parse_u32_spec(f[2]) {
                None => true,
                Some(sec) => h * 3600 + m * 60 + sec <= u32::MAX,
            }),
        }),
    }
}

impl Time {
    /// The earliest representable time.
    pub fn earliest() -> (t: Time)
        ensures
            t.0 == 0,
    {
        Time(0)
    }

    /// The latest representable time; it also stands for "not reached".
    pub fn latest() -> (t: Time)
        ensures
            t.0 == u32::MAX,
    {
        Time(u32::MAX)
    }

    /// The current local time of day.
    ///
    /// Trusted: chrono's `Local::now` and `Timelike::num_seconds_from_midnight`,
    /// which counts the non-leap seconds since the last local midnight, so it
    /// is below one day. Which time it is depends on the clock. The call can
    /// panic only because of its environment, never because of an input: a
    /// system clock set before 1970, or local time zone data that cannot be
    /// read.
    #[verifier::external_body]
    pub fn now() -> (t: Time)
        ensures
            t.0 < 86400,
    {
        Time(chrono::Local::now().num_seconds_from_midnight())
    }

    pub fn from_seconds(secs: u32) -> (t: Time)
        ensures
            t.0 == secs,
    {
        Time(secs)
    }

    pub fn from(value: u32) -> (t: Time)
        ensures
            t.0 == value,
    {
        Time(value)
    }

    pub fn as_seconds(&self) -> (secs: u32)
        ensures
            secs == self.0,
    {
        self.0
    }

    /// The time that lies `rhs` after `self`.
    pub fn add(self, rhs: Duration) -> (t: Time)
        requires
            self.0 + rhs.0 <= u32::MAX,
        ensures
            t.0 == self.0 + rhs.0,
    {
        Time(self.0 + rhs.0)
    }

    /// The sum of two times, in seconds.
    pub fn add_time(self, rhs: Time) -> (t: Time)
        requires
            self.0 + rhs.0 <= u32::MAX,
        ensures
            t.0 == self.0 + rhs.0,
    {
        Time(self.0 + rhs.0)
    }

    /// Moves the time `rhs` later.
    pub fn add_assign(&mut self, rhs: Duration)
        requires
            old(self).0 + rhs.0 <= u32::MAX,
        ensures
            final(self).0 == old(self).0 + rhs.0,
    {
        self.0 = self.0 + rhs.0;
    }

    /// Adds the seconds of `rhs` to the time.
    pub fn add_assign_time(&mut self, rhs: Time)
        requires
            old(self).0 + rhs.0 <= u32::MAX,
        ensures
            final(self).0 == old(self).0 + rhs.0,
    {
        self.0 = self.0 + rhs.0;
    }

    /// The time that lies `rhs` before `self`.
    pub fn sub_duration(self, rhs: Duration) -> (t: Time)
        requires
            rhs.0 <= self.0,
        ensures
            t.0 == self.0 - rhs.0,
    {
        Time(self.0 - rhs.0)
    }

    /// The duration from `rhs` to `self`.
    pub fn sub(self, rhs: Time) -> (d: Duration)
        requires
            rhs.0 <= self.0,
        ensures
            d.0 == self.0 - rhs.0,
    {
        Duration(self.0 - rhs.0)
    }

    /// Renders the time as `HH:MM:SS`.
    pub fn to_hms_string(&self) -> (s: String)
        ensures
            s@ == hms_string(self.0 as nat),
    {
        let h = self.0 / 3600;
        let m = (self.0 % 3600) / 60;
        let sec = self.0 % 60;
        let mut out = String::new();
        push_pad2(&mut out, h);
        push_char(&mut out, ':');
        push_pad2(&mut out, m);
        push_char(&mut out, ':');
        push_pad2(&mut out, sec);
        assert(out@ =~= hms_string(self.0 as nat));
        out
    }

    /// Whether reading `time` as `HH:MM:SS` stays within `u32` (so that
    /// `from_hms` may be called on it).
    pub fn hms_in_range(time: &str) -> (b: bool)
        ensures
            b == from_hms_in_range(time@),
    {
        let chars = chars_of(time);
        let ghost s = chars@;
        let ghost f = split_on(s, ':');
        let e0 = find_sep(&chars, 0, ':');
        proof {
            assert(s.subrange(0, e0 as int) == chars@.subrange(0, e0 as int));
            lemma_split_first(s, ':', e0 as int);
        }
        let hours = match parse_u32(&chars, 0, e0) {
            Some(h) => h as u64,
            None => return true,
        };
        if hours * 3600 > 0xffff_ffff {
            return false;
        }
        if e0 == chars.len() {
            return true;
        }
        let ghost r1 = s.subrange(e0 + 1, s.len() as int);
        let e1 = find_sep(&chars, e0 + 1, ':');
        proof {
            assert(r1.subrange(0, e1 - e0 - 1) =~= chars@.subrange(e0 + 1, e1 as int));
            if e1 < chars@.len() {
                assert(r1[e1 - e0 - 1] == chars@[e1 as int]);
            }
            lemma_split_first(r1, ':', e1 - e0 - 1);
            assert(f[1] == split_on(r1, ':')[0]);
        }
        let minutes = match parse_u32(&chars, e0 + 1, e1) {
            Some(m) => m as u64,
            None => return true,
        };
        if minutes * 60 > 0xffff_ffff {
            return false;
        }
        if e1 == chars.len() {
            proof {
                assert(f.len() == 2);
            }
            return true;
        }
        let ghost r2 = s.subrange(e1 + 1, s.len() as int);
        let e2 = find_sep(&chars, e1 + 1, ':');
        proof {
            assert(r1.subrange(e1 - e0, r1.len() as int) =~= r2);
            assert(r2.subrange(0, e2 - e1 - 1) =~= chars@.subrange(e1 + 1, e2 as int));
            if e2 < chars@.len() {
                assert(r2[e2 - e1 - 1] == chars@[e2 as int]);
            }
            lemma_split_first(r2, ':', e2 - e1 - 1);
            assert(f[2] == split_on(r2, ':')[0]);
        }
        let seconds = match parse_u32(&chars, e1 + 1, e2) {
            Some(sec) => sec as u64,
            None => return true,
        };
        hours * 3600 + minutes * 60 + seconds <= 0xffff_ffff
    }

    /// Parses `HH:MM:SS`. Returns `None` when one of the first three
    /// `:`-separated fields is missing or is not an unsigned number.
    pub fn from_hms(time: &str) -> (t: Option<Time>)
        requires
            from_hms_in_range(time@),
        ensures
            t == (match from_hms_spec(time@) {
                Some(secs) => Some(Time(secs)),
                None => None,
            }),
    {
        let chars = chars_of(time);
        let ghost s = chars@;
        let ghost f = split_on(s, ':');
        let e0 = find_sep(&chars, 0, ':');
        proof {
            assert(s.subrange(0, e0 as int) == chars@.subrange(0, e0 as int));
            lemma_split_first(s, ':', e0 as int);
        }
        let hours = match parse_u32(&chars, 0, e0) {
            Some(h) => h,
            None => return None,
        };
        let hours = hours * 3600;
        if e0 == chars.len() {
            return None;
        }
        let ghost r1 = s.subrange(e0 + 1, s.len() as int);
        let e1 = find_sep(&chars, e0 + 1, ':');
        proof {
            assert(r1.subrange(0, e1 - e0 - 1) =~= chars@.subrange(e0 + 1, e1 as int));
            if e1 < chars@.len() {
                assert(r1[e1 - e0 - 1] == chars@[e1 as int]);
            }
            lemma_split_first(r1, ':', e1 - e0 - 1);
            assert(f[1] == split_on(r1, ':')[0]);
        }
        let minutes = match parse_u32(&chars, e0 + 1, e1) {
            Some(m) => m,
            None => return None,
        };
        let minutes = minutes * 60;
        if e1 == chars.len() {
            proof {
                assert(f.len() == 2);
            }
            return None;
        }
        let ghost r2 = s.subrange(e1 + 1, s.len() as int);
        let e2 = find_sep(&chars, e1 + 1, ':');
        proof {
            assert(r1.subrange(e1 - e0, r1.len() as int) =~= r2);
            assert(r2.subrange(0, e2 - e1 - 1) =~= chars@.subrange(e1 + 1, e2 as int));
            if e2 < chars@.len() {
                assert(r2[e2 - e1 - 1] == chars@[e2 as int]);
            }
            lemma_split_first(r2, ':', e2 - e1 - 1);
            assert(f[2] == split_on(r2, ':')[0]);
        }
        let seconds = match parse_u32(&chars, e1 + 1, e2) {
            Some(sec) => sec,
            None => return None,
        };
        let seconds = hours + minutes + seconds;
        Some(Time(seconds))
    }
}

impl Duration {
    pub fn from_seconds(secs: u32) -> (d: Duration)
        ensures
            d.0 == secs,
    {
        Duration(secs)
    }

    pub fn from(value: u32) -> (d: Duration)
        ensures
            d.0 == value,
    {
        Duration(value)
    }

    pub fn from_minutes(minutes: u32) -> (d: Duration)
        requires
            minutes * 60 <= u32::MAX,
        ensures
            d.0 == minutes * 60,
    {
        Duration(minutes * 60)
    }

    pub fn from_hours(hours: u32) -> (d: Duration)
        requires
            hours * 3600 <= u32::MAX,
        ensures
            d.0 == hours * 3600,
    {
        Duration(hours * 60 * 60)
    }

    pub fn from_days(days: u32) -> (d: Duration)
        requires
            days * 86400 <= u32::MAX,
        ensures
            d.0 == days * 86400,
    {
        Duration(days * 60 * 60 * 24)
    }

    pub fn as_seconds(&self) -> (secs: u32)
        ensures
            secs == self.0,
    {
        self.0
    }

    pub fn add(self, rhs: Duration) -> (d: Duration)
        requires
            self.0 + rhs.0 <= u32::MAX,
        ensures
            d.0 == self.0 + rhs.0,
    {
        Duration(self.0 + rhs.0)
    }

    pub fn sub(self, rhs: Duration) -> (d: Duration)
        requires
            rhs.0 <= self.0,
        ensures
            d.0 == self.0 - rhs.0,
    {
        Duration(self.0 - rhs.0)
    }

    pub fn add_assign(&mut self, rhs: Duration)
        requires
            old(self).0 + rhs.0 <= u32::MAX,
        ensures
            final(self).0 == old(self).0 + rhs.0,
    {
        self.0 = self.0 + rhs.0;
    }

    pub fn sub_assign(&mut self, rhs: Duration)
        requires
            rhs.0 <= old(self).0,
        ensures
            final(self).0 == old(self).0 - rhs.0,
    {
        self.0 = self.0 - rhs.0;
    }
}

/// Whether a journey is constrained by when it leaves or when it arrives.
#[derive(Debug, Clone, Copy, PartialEq, Eq)]
pub enum TimeConstraint {
    Arrival(Time),
    Departure(Time),
}

impl TimeConstraint {
    pub fn time(&self) -> (t: Time)
        ensures
            t == (match *self {
                TimeConstraint::Arrival(a) => a,
                TimeConstraint::Departure(d) => d,
            }),
    {
        match *self {
            TimeConstraint::Arrival(time) => time,
            TimeConstraint::Departure(time) => time,
        }
    }
}

/// Parsing the text `HH:MM:SS` of any hours, minutes and seconds gives the
/// number of seconds they add up to.
pub proof fn lemma_parse_hms_chars(h: nat, m: nat, s: nat)
    requires
        h * 3600 + m * 60 + s <= u32::MAX,
    ensures
        from_hms_in_range(hms_chars(h, m, s)),
        from_hms_spec(hms_chars(h, m, s)) == Some((h * 3600 + m * 60 + s) as u32),
{
    lemma_pad2_roundtrip(h);
    lemma_pad2_roundtrip(m);
    lemma_pad2_roundtrip(s);
    let ph = pad2(h);
    let pm = pad2(m);
    let ps = pad2(s);
    lemma_split_no_sep(ps, ':');
    lemma_split_concat(pm, ':', ps);
    lemma_split_no_sep(pm, ':');
    lemma_split_concat(ph, ':', pm.push(':') + ps);
    lemma_split_no_sep(ph, ':');
    assert(ph.push(':') + (pm.push(':') + ps) =~= hms_chars(h, m, s));
    let f = split_on(hms_chars(h, m, s), ':');
    assert(f =~= seq![ph, pm, ps]);
    assert(parse_u32_spec(ph) == Some(h as u32));
    assert(parse_u32_spec(pm) == Some(m as u32));
    assert(parse_u32_spec(ps) == Some(s as u32));
}

/// Reading back the text of any time gives the same time.
pub proof fn lemma_hms_roundtrip(t: Time)
    ensures
        from_hms_in_range(hms_string(t.0 as nat)),
        from_hms_spec(hms_string(t.0 as nat)) == Some(t.0),
{
    let secs = t.0 as nat;
    assert(hours_of(secs) * 3600 + minutes_of(secs) * 60 + seconds_of(secs) == secs);
    lemma_parse_hms_chars(hours_of(secs), minutes_of(secs), seconds_of(secs));
}

/// Text written as `HH:MM:SS` with minutes and seconds below sixty reads as
/// a time whose text is the same.
pub proof fn lemma_hms_text_roundtrip(h: nat, m: nat, s: nat)
    requires
        m < 60,
        s < 60,
        h * 3600 + m * 60 + s <= u32::MAX,
    ensures
        from_hms_spec(hms_chars(h, m, s)) matches Some(secs) && hms_string(secs as nat) == hms_chars(
            h,
            m,
            s,
        ),
{
    lemma_parse_hms_chars(h, m, s);
    let secs = h * 3600 + m * 60 + s;
    assert(hours_of(secs) == h);
    assert(minutes_of(secs) == m);
    assert(seconds_of(secs) == s);
}

/// Hours are read without a width: the text of the hours' decimal digits
/// (one digit for hours below ten), `:`, two-digit minutes, `:`, two-digit
/// seconds reads as the number of seconds they add up to.
pub proof fn lemma_parse_unpadded_hours(h: nat, m: nat, s: nat)
    requires
        h * 3600 + m * 60 + s <= u32::MAX,
    ensures
        from_hms_in_range(decimal(h) + seq![':'] + pad2(m) + seq![':'] + pad2(s)),
        from_hms_spec(decimal(h) + seq![':'] + pad2(m) + seq![':'] + pad2(s)) == Some(
            (h * 3600 + m * 60 + s) as u32,
        ),
{
    lemma_decimal_roundtrip(h);
    lemma_pad2_roundtrip(m);
    lemma_pad2_roundtrip(s);
    let ph = decimal(h);
    let pm = pad2(m);
    let ps = pad2(s);
    assert(!ph.contains(':')) by {
        if ph.contains(':') {
            let i = choose|i: int| 0 <= i < ph.len() && ph[i] == ':';
            assert(is_digit(ph[i]));
        }
    }
    lemma_split_no_sep(ps, ':');
    lemma_split_concat(pm, ':', ps);
    lemma_split_no_sep(pm, ':');
    lemma_split_concat(ph, ':', pm.push(':') + ps);
    lemma_split_no_sep(ph, ':');
    let text = decimal(h) + seq![':'] + pad2(m) + seq![':'] + pad2(s);
    assert(ph.push(':') + (pm.push(':') + ps) =~= text);
    let f = split_on(text, ':');
    assert(f =~= seq![ph, pm, ps]);
    assert(parse_u32_spec(ph) == Some(h as u32));
    assert(parse_u32_spec(pm) == Some(m as u32));
    assert(parse_u32_spec(ps) == Some(s as u32));
}

/// `Time::from_hms` reads the first three `:`-separated fields as by
/// `u32::from_str`, with no width required of any: when all three read as
/// numbers, the time is hours times 3600 plus minutes times 60 plus
/// seconds; when one is missing or is not a number, there is none.
pub proof fn lemma_from_hms_fields(text: Seq<char>)
    ensures
        ({
            let f = split_on(text, ':');
            if f.len() >= 3 && parse_u32_spec(f[0]) is Some && parse_u32_spec(f[1]) is Some && parse_u32_spec(f[2]) is Some {
                from_hms_spec(text) == Some(
                    (parse_u32_spec(f[0])->Some_0 * 3600 + parse_u32_spec(f[1])->Some_0 * 60 + parse_u32_spec(
                        f[2],
                    )->Some_0) as u32,
                )
            } else {
                from_hms_spec(text) is None
            }
        }),
{
}

} // verus!
