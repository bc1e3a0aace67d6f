//! Durations as plain millisecond counts, their partition into
//! day/hour/minute/second components, and their human-readable forms.

use crate::digits::{dec_seq, pad2, pad2_seq, to_decimal};
use crate::textfmt::{english_of, english_num, join, join_sep, strings_view};
use vstd::prelude::*;

verus! {

/// A span of time with millisecond precision.
#[derive(Clone, Copy, Debug, PartialEq, Eq, Structural)]
pub struct Duration {
    /// The whole milliseconds of the span.
    pub millis: u64,
}

impl Duration {
    /// A duration from a number of milliseconds.
    pub fn from_millis(millis: u64) -> (r: Duration)
        ensures
            r.millis == millis,
    {
        Duration { millis }
    }

    /// A duration from a number of whole seconds.
    pub fn from_secs(secs: u64) -> (r: Duration)
        requires
            secs * 1000 <= u64::MAX,
        ensures
            r.millis == secs * 1000,
    {
        Duration { millis: secs * 1000 }
    }

    /// The whole milliseconds of this duration.
    pub fn as_millis(&self) -> (r: u64)
        ensures
            r == self.millis,
    {
        self.millis
    }

    /// The whole seconds of this duration.
    pub fn as_secs(&self) -> (r: u64)
        ensures
            r == self.millis / 1000,
    {
        self.millis / 1000
    }
}

impl Default for Duration {
    /// The zero duration.
    fn default() -> (r: Duration)
        ensures
            r.millis == 0,
    {
        Duration { millis: 0 }
    }
}

/// A duration split into whole days, hours, minutes and seconds.
pub struct DurationParts {
    pub seconds: u64,
    pub minutes: u64,
    pub hours: u64,
    pub days: u64,
}

/// Partition the given number of seconds into time components.
pub fn partition(seconds: u64) -> (p: DurationParts)
    ensures
        p.days == seconds / 86400,
        p.hours == (seconds % 86400) / 3600,
        p.minutes == (seconds % 3600) / 60,
        p.seconds == seconds % 60,
        p.hours < 24,
        p.minutes < 60,
        p.seconds < 60,
        seconds == p.days * 86400 + p.hours * 3600 + p.minutes * 60 + p.seconds,
{
    let days = seconds / (3600 * 24);
    let rest = seconds % (3600 * 24);
    let hours = rest / 3600;
    let rest = rest % 3600;
    let minutes = rest / 60;
    let secs = rest % 60;

    proof {
        lemma_partition_exact(seconds);
    }

    DurationParts { seconds: secs, minutes, hours, days }
}

/// The hour/minute/second parts that the compact and long forms print.
/// Days are not printed: hours wrap within a day.
pub open spec fn hms_of(secs: nat) -> (nat, nat, nat) {
    (((secs % 86400) / 3600) as nat, ((secs % 3600) / 60) as nat, (secs % 60) as nat)
}

/// The segments a duration prints as, given each part's own wording.
pub open spec fn hms_parts(
    secs: nat,
    hpart: Seq<char>,
    mpart: Seq<char>,
    spart: Seq<char>,
) -> Seq<Seq<char>> {
    let parts = hms_of(secs);
    (if parts.0 > 0 {
        seq![hpart]
    } else {
        Seq::empty()
    }) + (if parts.1 > 0 {
        seq![mpart]
    } else {
        Seq::empty()
    }) + (if parts.2 > 0 {
        seq![spart]
    } else {
        Seq::empty()
    })
}

/// The compact human form of a second count: zero-padded hours, minutes
/// and seconds, each with its unit letter, zero parts dropped, and "0s"
/// when nothing remains.
pub open spec fn compact_of(secs: nat) -> Seq<char> {
    let parts = hms_of(secs);
    if parts.0 == 0 && parts.1 == 0 && parts.2 == 0 {
        "0s"@
    } else {
        join_sep(
            hms_parts(
                secs,
                pad2_seq(parts.0) + "h"@,
                pad2_seq(parts.1) + "m"@,
                pad2_seq(parts.2) + "s"@,
            ),
            " "@,
        )
    }
}

/// The long human form of a second count: each part worded in English,
/// zero parts dropped, and "0 seconds" when nothing remains.
pub open spec fn long_of(secs: nat) -> Seq<char> {
    let parts = hms_of(secs);
    if parts.0 == 0 && parts.1 == 0 && parts.2 == 0 {
        "0 seconds"@
    } else {
        join_sep(
            hms_parts(
                secs,
                if parts.0 == 1 {
                    "one hour"@
                } else {
                    english_of(parts.0) + " hours"@
                },
                if parts.1 == 1 {
                    "one minute"@
                } else {
                    english_of(parts.1) + " minutes"@
                },
                if parts.2 == 1 {
                    "one second"@
                } else {
                    english_of(parts.2) + " seconds"@
                },
            ),
            ", "@,
        )
    }
}

/// The digital form of a second count: hours only when present, then
/// minutes and seconds, all zero-padded and joined by colons.
pub open spec fn digital_of(secs: nat) -> Seq<char> {
    let parts = hms_of(secs);
    if parts.0 > 0 {
        pad2_seq(parts.0) + ":"@ + pad2_seq(parts.1) + ":"@ + pad2_seq(parts.2)
    } else {
        pad2_seq(parts.1) + ":"@ + pad2_seq(parts.2)
    }
}

/// Format a duration as a compact human time.
pub fn compact_duration(duration: &Duration) -> (r: String)
    ensures
        r@ == compact_of(duration.millis as nat / 1000),
{
    let secs = duration.as_secs();
    let p = partition(secs);
    let mut parts: Vec<String> = Vec::new();
    if p.hours > 0 {
        let mut h = pad2(p.hours);
        h.append("h");
        parts.push(h);
    }
    if p.minutes > 0 {
        let mut m = pad2(p.minutes);
        m.append("m");
        parts.push(m);
    }
    if p.seconds > 0 {
        let mut s = pad2(p.seconds);
        s.append("s");
        parts.push(s);
    }
    if parts.len() == 0 {
        return String::from_str("0s");
    }
    let r = join(&parts, " ");
    proof {
        assert(strings_view(parts@) =~= hms_parts(
            secs as nat,
            pad2_seq(hms_of(secs as nat).0) + "h"@,
            pad2_seq(hms_of(secs as nat).1) + "m"@,
            pad2_seq(hms_of(secs as nat).2) + "s"@,
        ));
    }
    r
}

/// Format a duration as a long human time.
pub fn long_duration(duration: &Duration) -> (r: String)
    ensures
        r@ == long_of(duration.millis as nat / 1000),
{
    let secs = duration.as_secs();
    let p = partition(secs);
    let mut parts: Vec<String> = Vec::new();
    if p.hours > 0 {
        if p.hours == 1 {
            parts.push(String::from_str("one hour"));
        } else {
            let mut h = english_num(p.hours);
            h.append(" hours");
            parts.push(h);
        }
    }
    if p.minutes > 0 {
        if p.minutes == 1 {
            parts.push(String::from_str("one minute"));
        } else {
            let mut m = english_num(p.minutes);
            m.append(" minutes");
            parts.push(m);
        }
    }
    if p.seconds > 0 {
        if p.seconds == 1 {
            parts.push(String::from_str("one second"));
        } else {
            let mut s = english_num(p.seconds);
            s.append(" seconds");
            parts.push(s);
        }
    }
    if parts.len() == 0 {
        return String::from_str("0 seconds");
    }
    let r = join(&parts, ", ");
    proof {
        let sn = secs as nat;
        assert(strings_view(parts@) =~= hms_parts(
            sn,
            if hms_of(sn).0 == 1 {
                "one hour"@
            } else {
                english_of(hms_of(sn).0) + " hours"@
            },
            if hms_of(sn).1 == 1 {
                "one minute"@
            } else {
                english_of(hms_of(sn).1) + " minutes"@
            },
            if hms_of(sn).2 == 1 {
                "one second"@
            } else {
                english_of(hms_of(sn).2) + " seconds"@
            },
        ));
    }
    r
}

/// Format a duration in digital clock style.
pub fn digital_duration(duration: &Duration) -> (r: String)
    ensures
        r@ == digital_of(duration.millis as nat / 1000),
{
    let secs = duration.as_secs();
    let p = partition(secs);
    let mut r = String::new();
    if p.hours > 0 {
        r.append(pad2(p.hours).as_str());
        r.append(":");
    }
    r.append(pad2(p.minutes).as_str());
    r.append(":");
    r.append(pad2(p.seconds).as_str());
    proof {
        assert(r@ =~= digital_of(secs as nat));
    }
    r
}

/// The division chain of `partition` recombines to the given count,
/// and nesting the remainders is the same as taking them directly.
proof fn lemma_partition_exact(seconds: u64)
    ensures
        (seconds % 86400) % 3600 == seconds % 3600,
        ((seconds % 86400) % 3600) % 60 == seconds % 60,
        seconds == (seconds / 86400) * 86400 + ((seconds % 86400) / 3600) * 3600 + ((seconds
            % 3600) / 60) * 60 + seconds % 60,
{
    let s = seconds as int;
    vstd::arithmetic::div_mod::lemma_mod_mod(s, 3600, 24);
    vstd::arithmetic::div_mod::lemma_mod_mod(s, 60, 60);
    vstd::arithmetic::div_mod::lemma_fundamental_div_mod(s, 86400);
    vstd::arithmetic::div_mod::lemma_fundamental_div_mod(s % 86400, 3600);
    vstd::arithmetic::div_mod::lemma_fundamental_div_mod(s % 3600, 60);
}

} // verus!
