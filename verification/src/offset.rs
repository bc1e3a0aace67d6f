//! Offsets with millisecond precision, written "mm:ss.mmm", and
//! PT-formatted durations, written "PT1H2M3S".

use crate::digits::{
    all_digits, dec_seq, dec_val, pad2, pad2_seq, pad3, pad3_seq, parse_u32, parse_u64, to_decimal,
    ParseError,
};
use crate::duration::{hms_of, partition, Duration};
use vstd::prelude::*;

verus! {

/// The last position at or before `i` holding `c`, or -1 when there is
/// none.
pub open spec fn rfind_from(s: Seq<char>, c: char, i: int) -> int
    decreases i + 1
        when -1 <= i < s.len()
{
    if i < 0 {
        -1
    } else if s[i] == c {
        i
    } else {
        rfind_from(s, c, i - 1)
    }
}

/// The first position at or after `i` holding `c`, or the length of `s`
/// when there is none.
pub open spec fn find_from(s: Seq<char>, c: char, i: int) -> int
    decreases s.len() - i
        when 0 <= i <= s.len()
{
    if i >= s.len() {
        s.len() as int
    } else if s[i] == c {
        i
    } else {
        find_from(s, c, i + 1)
    }
}

/// What a numeric field denotes: its value, or why it fails. A field must
/// be non-empty, all digits, and fit the range `max`.
pub open spec fn num_of(s: Seq<char>, max: int) -> Result<int, ParseError> {
    if s.len() == 0 {
        Err(ParseError::Empty)
    } else if !all_digits(s) {
        Err(ParseError::NonDigit)
    } else if dec_val(s) > max {
        Err(ParseError::Overflow)
    } else {
        Ok(dec_val(s))
    }
}

/// The last position of `c` in `s`, or -1.
pub open spec fn rfind_of(s: Seq<char>, c: char) -> int {
    rfind_from(s, c, s.len() - 1)
}

/// What an offset string denotes. The text is split at the last `.` into a
/// millisecond field and at the last `:` before it into minutes and
/// seconds; absent fields are zero. A total beyond the millisecond range
/// collapses to zero.
pub open spec fn offset_of(s: Seq<char>) -> Result<u32, ParseError> {
    let di = rfind_of(s, '.');
    let body = if di >= 0 {
        s.take(di)
    } else {
        s
    };
    let msr = if di >= 0 {
        num_of(s.skip(di + 1), u32::MAX as int)
    } else {
        Ok(0)
    };
    match msr {
        Err(e) => Err(e),
        Ok(ms) => {
            let ci = rfind_of(body, ':');
            let mins_s = if ci >= 0 {
                body.take(ci)
            } else {
                Seq::empty()
            };
            let secr = if ci >= 0 {
                num_of(body.skip(ci + 1), u32::MAX as int)
            } else {
                num_of(body, u32::MAX as int)
            };
            match secr {
                Err(e) => Err(e),
                Ok(sec) => {
                    let minr = if mins_s.len() == 0 {
                        Ok(0)
                    } else {
                        num_of(mins_s, u32::MAX as int)
                    };
                    match minr {
                        Err(e) => Err(e),
                        Ok(min) => {
                            let total = ms + sec * 1000 + min * 60000;
                            if total > u32::MAX {
                                Ok(0)
                            } else {
                                Ok(total as u32)
                            }
                        },
                    }
                },
            }
        },
    }
}

/// The display form of a millisecond count: minutes and seconds, and the
/// milliseconds only when there are any.
pub open spec fn offset_display(v: nat) -> Seq<char> {
    let ms = v % 1000;
    let secs = (v / 1000) % 60;
    let mins = (v / 1000) / 60;
    if ms > 0 {
        pad2_seq(mins) + ":"@ + pad2_seq(secs) + "."@ + pad3_seq(ms)
    } else {
        pad2_seq(mins) + ":"@ + pad2_seq(secs)
    }
}

/// An offset with millisecond precision; the field is in milliseconds.
#[derive(Debug, Clone, Copy, PartialEq, Eq, Structural)]
pub struct Offset(pub u32);

impl Offset {
    /// An offset from milliseconds.
    pub fn milliseconds(ms: u32) -> (r: Offset)
        ensures
            r.0 == ms,
    {
        Offset(ms)
    }

    /// Convert to milliseconds.
    pub fn as_milliseconds(&self) -> (r: u32)
        ensures
            r == self.0,
    {
        self.0
    }

    /// Treat the offset as a duration.
    pub fn as_duration(&self) -> (r: Duration)
        ensures
            r.millis == self.0,
    {
        Duration::from_millis(self.0 as u64)
    }

    /// Parse an offset, as `offset_of` describes it.
    pub fn parse(s: &str) -> (r: Result<Offset, ParseError>)
        ensures
            match offset_of(s@) {
                Ok(v) => r matches Ok(o) && o.0 == v,
                Err(e) => r == Err::<Offset, ParseError>(e),
            },
    {
        let ghost sv = s@;
        let len = s.unicode_len();
        let (body_to, ms) = match rfind_char(s, '.') {
            Some(di) => {
                match parse_u32(s.substring_char(di + 1, len)) {
                    Ok(v) => (di, v),
                    Err(e) => {
                        proof {
                            assert(sv.skip(rfind_of(sv, '.') + 1) =~= sv.subrange(
                                di + 1,
                                len as int,
                            ));
                        }
                        return Err(e);
                    },
                }
            },
            None => (len, 0),
        };
        let body = s.substring_char(0, body_to);
        let ghost bodyv = if rfind_of(sv, '.') >= 0 {
            sv.take(rfind_of(sv, '.'))
        } else {
            sv
        };
        proof {
            if rfind_of(sv, '.') >= 0 {
                assert(sv.skip(rfind_of(sv, '.') + 1) =~= sv.subrange(body_to + 1, len as int));
            }
            assert(body@ =~= bodyv);
        }
        let blen = body.unicode_len();
        let (mins_to, sec) = match rfind_char(body, ':') {
            Some(ci) => {
                match parse_u32(body.substring_char(ci + 1, blen)) {
                    Ok(v) => (ci, v),
                    Err(e) => {
                        proof {
                            assert(bodyv.skip(rfind_of(bodyv, ':') + 1) =~= bodyv.subrange(
                                ci + 1,
                                blen as int,
                            ));
                        }
                        return Err(e);
                    },
                }
            },
            None => {
                match parse_u32(body) {
                    Ok(v) => (0, v),
                    Err(e) => {
                        return Err(e);
                    },
                }
            },
        };
        let mins_s = body.substring_char(0, mins_to);
        let ghost minsv = if rfind_of(bodyv, ':') >= 0 {
            bodyv.take(rfind_of(bodyv, ':'))
        } else {
            Seq::<char>::empty()
        };
        proof {
            if rfind_of(bodyv, ':') >= 0 {
                assert(bodyv.skip(rfind_of(bodyv, ':') + 1) =~= bodyv.subrange(
                    mins_to + 1,
                    blen as int,
                ));
                assert(mins_s@ =~= minsv);
            }
        }
        let min: u32 = if rfind_char(body, ':').is_none() {
            0
        } else if mins_s.unicode_len() == 0 {
            0
        } else {
            match parse_u32(mins_s) {
                Ok(v) => v,
                Err(e) => {
                    return Err(e);
                },
            }
        };
        let total: u64 = ms as u64 + sec as u64 * 1000 + min as u64 * 60000;
        if total > u32::MAX as u64 {
            Ok(Offset(0))
        } else {
            Ok(Offset(total as u32))
        }
    }

    /// The display form, as `offset_display` describes it.
    pub fn display_string(&self) -> (r: String)
        ensures
            r@ == offset_display(self.0 as nat),
    {
        let v = self.0;
        let ms = (v % 1000) as u64;
        let secs = ((v / 1000) % 60) as u64;
        let mins = ((v / 1000) / 60) as u64;
        let mut r = pad2(mins);
        r.append(":");
        r.append(pad2(secs).as_str());
        if ms > 0 {
            r.append(".");
            r.append(pad3(ms).as_str());
        }
        proof {
            assert(r@ =~= offset_display(self.0 as nat));
        }
        r
    }
}

/// The last position of `c` in `s`, if any.
fn rfind_char(s: &str, c: char) -> (r: Option<usize>)
    ensures
        match r {
            Some(i) => i < s@.len() && rfind_of(s@, c) == i,
            None => rfind_of(s@, c) == -1,
        },
{
    let ghost sv = s@;
    let len = s.unicode_len();
    let mut i: usize = len;
    while i > 0
        invariant
            0 <= i <= len == sv.len(),
            s@ == sv,
            rfind_from(sv, c, len - 1) == rfind_from(sv, c, i - 1),
        decreases i,
    {
        if s.get_char(i - 1) == c {
            return Some(i - 1);
        }
        i = i - 1;
    }
    None
}

/// The first position of `c` in `s`, or the length of `s`.
fn find_char(s: &str, c: char) -> (r: usize)
    ensures
        r == find_from(s@, c, 0),
        r <= s@.len(),
        r < s@.len() ==> s@[r as int] == c,
{
    let ghost sv = s@;
    let len = s.unicode_len();
    let mut i: usize = 0;
    while i < len
        invariant
            0 <= i <= len == sv.len(),
            s@ == sv,
            find_from(sv, c, 0) == find_from(sv, c, i as int),
        decreases len - i,
    {
        if s.get_char(i) == c {
            return i;
        }
        i = i + 1;
    }
    len
}

/// `s` with every leading "PT" marker dropped.
pub open spec fn strip_pt(s: Seq<char>) -> Seq<char>
    decreases s.len(),
{
    if s.len() >= 2 && s[0] == 'P' && s[1] == 'T' {
        strip_pt(s.skip(2))
    } else {
        s
    }
}

/// What a PT-formatted duration denotes, in milliseconds: hour, minute and
/// second fields each end at their marker letter, the second field may
/// carry a decimal millisecond part, and absent fields are zero. A total
/// beyond the millisecond range is an overflow.
pub open spec fn pt_of(s: Seq<char>) -> Result<u64, ParseError> {
    let t = strip_pt(s);
    let hi = find_from(t, 'H', 0);
    let hr = if hi < t.len() {
        num_of(t.take(hi), u64::MAX as int)
    } else {
        Ok(0)
    };
    let t1 = if hi < t.len() {
        t.skip(hi + 1)
    } else {
        t
    };
    match hr {
        Err(e) => Err(e),
        Ok(h) => {
            let mi = find_from(t1, 'M', 0);
            let mr = if mi < t1.len() {
                num_of(t1.take(mi), u64::MAX as int)
            } else {
                Ok(0)
            };
            let t2 = if mi < t1.len() {
                t1.skip(mi + 1)
            } else {
                t1
            };
            match mr {
                Err(e) => Err(e),
                Ok(m) => {
                    let si = find_from(t2, 'S', 0);
                    if si < t2.len() {
                        let sec_part = t2.take(si);
                        let dot = find_from(sec_part, '.', 0);
                        let sr = if dot < sec_part.len() {
                            num_of(sec_part.take(dot), u64::MAX as int)
                        } else {
                            num_of(sec_part, u64::MAX as int)
                        };
                        let msr = if dot < sec_part.len() {
                            num_of(sec_part.skip(dot + 1), u64::MAX as int)
                        } else {
                            Ok(0)
                        };
                        match sr {
                            Err(e) => Err(e),
                            Ok(sec) => match msr {
                                Err(e) => Err(e),
                                Ok(ms) => {
                                    let total = (h * 3600 + m * 60 + sec) * 1000 + ms;
                                    if total > u64::MAX {
                                        Err(ParseError::Overflow)
                                    } else {
                                        Ok(total as u64)
                                    }
                                },
                            },
                        }
                    } else {
                        let total = (h * 3600 + m * 60) * 1000;
                        if total > u64::MAX {
                            Err(ParseError::Overflow)
                        } else {
                            Ok(total as u64)
                        }
                    }
                },
            }
        },
    }
}

/// The display form of a PT duration with the given second count: marker
/// letters after each non-zero part. Hours wrap within a day, as in the
/// compact form.
pub open spec fn pt_display(secs: nat) -> Seq<char> {
    let parts = hms_of(secs);
    "PT"@ + (if parts.0 > 0 {
        dec_seq(parts.0) + "H"@
    } else {
        Seq::empty()
    }) + (if parts.1 > 0 {
        dec_seq(parts.1) + "M"@
    } else {
        Seq::empty()
    }) + (if parts.2 > 0 {
        dec_seq(parts.2) + "S"@
    } else {
        Seq::empty()
    })
}

/// A PT-formatted duration.
#[derive(Debug, Clone, Copy)]
pub struct PtDuration(pub Duration);

impl PtDuration {
    /// Access the inner duration.
    pub fn as_std(&self) -> (r: &Duration)
        ensures
            *r == self.0,
    {
        &self.0
    }

    /// Convert into the inner duration.
    pub fn into_std(self) -> (r: Duration)
        ensures
            r == self.0,
    {
        self.0
    }

    /// Parse a PT-formatted duration, as `pt_of` describes it.
    #[verifier::rlimit(60)]
    pub fn parse(s: &str) -> (r: Result<PtDuration, ParseError>)
        ensures
            match pt_of(s@) {
                Ok(v) => r matches Ok(d) && d.0.millis == v,
                Err(e) => r == Err::<PtDuration, ParseError>(e),
            },
    {
        let t = strip_pt_str(s);
        let ghost tv = strip_pt(s@);
        let tlen = t.unicode_len();
        let hi = find_char(t, 'H');
        let (h, t1) = if hi < tlen {
            match parse_u64(t.substring_char(0, hi)) {
                Ok(v) => (v, t.substring_char(hi + 1, tlen)),
                Err(e) => {
                    proof {
                        assert(tv.take(find_from(tv, 'H', 0)) =~= tv.subrange(0, hi as int));
                    }
                    return Err(e);
                },
            }
        } else {
            (0, t)
        };
        proof {
            if hi < tlen {
                assert(tv.take(find_from(tv, 'H', 0)) =~= tv.subrange(0, hi as int));
                assert(tv.skip(find_from(tv, 'H', 0) + 1) =~= tv.subrange(hi + 1, tlen as int));
            }
        }
        let ghost t1v = if find_from(tv, 'H', 0) < tv.len() {
            tv.skip(find_from(tv, 'H', 0) + 1)
        } else {
            tv
        };
        let t1len = t1.unicode_len();
        let mi = find_char(t1, 'M');
        let (m, t2) = if mi < t1len {
            match parse_u64(t1.substring_char(0, mi)) {
                Ok(v) => (v, t1.substring_char(mi + 1, t1len)),
                Err(e) => {
                    proof {
                        assert(t1v.take(find_from(t1v, 'M', 0)) =~= t1v.subrange(0, mi as int));
                    }
                    return Err(e);
                },
            }
        } else {
            (0, t1)
        };
        proof {
            if mi < t1len {
                assert(t1v.take(find_from(t1v, 'M', 0)) =~= t1v.subrange(0, mi as int));
                assert(t1v.skip(find_from(t1v, 'M', 0) + 1) =~= t1v.subrange(mi + 1, t1len as int));
            }
        }
        let ghost t2v = if find_from(t1v, 'M', 0) < t1v.len() {
            t1v.skip(find_from(t1v, 'M', 0) + 1)
        } else {
            t1v
        };
        let t2len = t2.unicode_len();
        let si = find_char(t2, 'S');
        let (sec, ms) = if si < t2len {
            let sec_part = t2.substring_char(0, si);
            let ghost spv = t2v.take(find_from(t2v, 'S', 0));
            proof {
                assert(sec_part@ =~= spv);
            }
            let splen = sec_part.unicode_len();
            let dot = find_char(sec_part, '.');
            if dot < splen {
                let secv = match parse_u64(sec_part.substring_char(0, dot)) {
                    Ok(v) => v,
                    Err(e) => {
                        proof {
                            assert(spv.take(find_from(spv, '.', 0)) =~= spv.subrange(
                                0,
                                dot as int,
                            ));
                        }
                        return Err(e);
                    },
                };
                let msv = match parse_u64(sec_part.substring_char(dot + 1, splen)) {
                    Ok(v) => v,
                    Err(e) => {
                        proof {
                            assert(spv.take(find_from(spv, '.', 0)) =~= spv.subrange(
                                0,
                                dot as int,
                            ));
                            assert(spv.skip(find_from(spv, '.', 0) + 1) =~= spv.subrange(
                                dot + 1,
                                splen as int,
                            ));
                        }
                        return Err(e);
                    },
                };
                proof {
                    assert(spv.take(find_from(spv, '.', 0)) =~= spv.subrange(0, dot as int));
                    assert(spv.skip(find_from(spv, '.', 0) + 1) =~= spv.subrange(
                        dot + 1,
                        splen as int,
                    ));
                }
                (secv, msv)
            } else {
                match parse_u64(sec_part) {
                    Ok(v) => (v, 0),
                    Err(e) => {
                        return Err(e);
                    },
                }
            }
        } else {
            (0, 0)
        };
        let total: u128 = ((h as u128) * 3600 + (m as u128) * 60 + (sec as u128)) * 1000 + (
        ms as u128);
        if total > u64::MAX as u128 {
            return Err(ParseError::Overflow);
        }
        Ok(PtDuration(Duration::from_millis(total as u64)))
    }

    /// The display form, as `pt_display` describes it.
    pub fn display_string(&self) -> (r: String)
        ensures
            r@ == pt_display(self.0.millis as nat / 1000),
    {
        let secs = self.0.as_secs();
        let p = partition(secs);
        let mut r = String::from_str("PT");
        if p.hours > 0 {
            r.append(to_decimal(p.hours).as_str());
            r.append("H");
        }
        if p.minutes > 0 {
            r.append(to_decimal(p.minutes).as_str());
            r.append("M");
        }
        if p.seconds > 0 {
            r.append(to_decimal(p.seconds).as_str());
            r.append("S");
        }
        proof {
            assert(r@ =~= pt_display(secs as nat));
        }
        r
    }
}

/// Drop every leading "PT" marker.
fn strip_pt_str(s: &str) -> (r: &str)
    ensures
        r@ == strip_pt(s@),
{
    let ghost sv = s@;
    let len = s.unicode_len();
    let mut i: usize = 0;
    proof {
        assert(sv.skip(0) =~= sv);
    }
    while len - i >= 2 && s.get_char(i) == 'P' && s.get_char(i + 1) == 'T'
        invariant
            0 <= i <= len == sv.len(),
            s@ == sv,
            strip_pt(sv) == strip_pt(sv.skip(i as int)),
        decreases len - i,
    {
        proof {
            let m = sv.skip(i as int);
            assert(m[0] == sv[i as int]);
            assert(m[1] == sv[i + 1]);
            assert(m.skip(2) =~= sv.skip(i + 2));
        }
        i = i + 2;
    }
    proof {
        let m = sv.skip(i as int);
        if len - i >= 2 {
            assert(m[0] == sv[i as int]);
            assert(m[1] == sv[i + 1]);
        }
        assert(strip_pt(sv.skip(i as int)) == sv.skip(i as int));
    }
    let r = s.substring_char(i, len);
    proof {
        assert(r@ =~= sv.skip(i as int));
    }
    r
}

} // verus!
