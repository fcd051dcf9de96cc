use vstd::arithmetic::div_mod::{lemma_fundamental_div_mod_converse, lemma_small_mod};
use vstd::prelude::*;
use vstd::string::{StrSliceExecFns, StringExecFns};

use crate::error::Error;
use crate::text::{
    all_digits, colon_count, dchar, digit_str, digits_val, is_digit_char,
    lemma_colon_count_at_least_two, lemma_digits_val_nonneg, lemma_digits_val_prefix,
};

verus! {

/// A digit string that denotes a number fitting in a byte: non-empty, all
/// digits, value at most 255.
pub open spec fn parse_part_spec(s: Seq<char>) -> Option<u32> {
    if s.len() > 0 && all_digits(s) && digits_val(s) <= 255 {
        Option::Some(digits_val(s) as u32)
    } else {
        Option::None
    }
}

/// Parse the decimal number written between two positions of a string.
#[verifier::loop_isolation(false)]
fn parse_digits(s: &str, from: usize, to: usize) -> (r: Option<u32>)
    requires
        from <= to,
        to <= s@.len(),
    ensures
        r == parse_part_spec(s@.subrange(from as int, to as int)),
{
    let ghost sub = s@.subrange(from as int, to as int);
    if from == to {
        return None;
    }
    let mut acc: u32 = 0;
    let mut i: usize = from;
    proof {
        assert(sub.take(0) =~= Seq::<char>::empty());
    }
    while i < to
        invariant
            from <= i <= to,
            acc <= 255,
            all_digits(sub.take(i - from)),
            acc == digits_val(sub.take(i - from)),
        decreases to - i,
    {
        let c = s.get_char(i);
        proof {
            assert(sub[i - from] == s@[i as int]);
        }
        let cu = c as u32;
        if cu < 48 || cu > 57 {
            proof {
                assert(!is_digit_char(sub[i - from]));
            }
            return None;
        }
        proof {
            assert(sub.take(i - from + 1).drop_last() =~= sub.take(i - from));
            assert(sub.take(i - from + 1).last() == sub[i - from]);
        }
        acc = acc * 10 + (cu - 48);
        if acc > 255 {
            proof {
                if all_digits(sub) {
                    lemma_digits_val_prefix(sub, i - from + 1);
                }
            }
            return None;
        }
        i += 1;
    }
    proof {
        assert(sub.take(to - from) =~= sub);
        lemma_digits_val_nonneg(sub);
    }
    Some(acc)
}

/// Represents a time of day (hours and minutes).
#[derive(Clone, Copy, Debug, PartialEq, Eq, Structural)]
pub struct Time {
    /// Hour (0-23)
    pub hour: u8,
    /// Minute (0-59)
    pub minute: u8,
}

impl Time {
    /// A time is well formed when the hour and minute are in range.
    pub open spec fn wf(self) -> bool {
        self.hour < 24 && self.minute < 60
    }

    /// Minutes since midnight denoted by this time.
    pub open spec fn spec_to_minutes(self) -> int {
        self.hour * 60 + self.minute
    }

    /// The time reached by wrapping a minute count modulo one day.
    pub open spec fn spec_from_minutes(total: int) -> Time
        recommends
            total >= 0,
    {
        Time { hour: (((total / 60) % 24) as u8), minute: ((total % 60) as u8) }
    }

    /// Create a new Time.
    /// Errors if hour >= 24 or minute >= 60.
    pub fn new(hour: u8, minute: u8) -> (r: Result<Time, Error>)
        ensures
            hour < 24 && minute < 60 ==> r == Ok::<Time, Error>(Time { hour, minute }),
            !(hour < 24 && minute < 60) ==> r == Err::<Time, Error>(Error::InvalidTime),
    {
        if hour < 24 && minute < 60 {
            Ok(Time { hour, minute })
        } else {
            Err(Error::InvalidTime)
        }
    }

    /// Convert to total minutes since midnight.
    pub fn to_minutes(&self) -> (r: u32)
        ensures
            r == self.spec_to_minutes(),
    {
        (self.hour as u32) * 60 + (self.minute as u32)
    }

    /// Create a Time from total minutes since midnight, wrapping modulo one day.
    pub fn from_minutes(total: u32) -> (r: Time)
        ensures
            r == Time::spec_from_minutes(total as int),
            r.wf(),
    {
        Time { hour: ((total / 60) % 24) as u8, minute: (total % 60) as u8 }
    }

    /// The time a "HH:MM" string denotes: exactly one ':', both parts
    /// non-empty digit strings, the hour below 24 and the minute below 60;
    /// anything else is invalid.
    pub open spec fn parse_spec(s: Seq<char>) -> Result<Time, Error> {
        if colon_count(s) != 1 {
            Err(Error::InvalidTime)
        } else {
            let i = choose|i: int| 0 <= i < s.len() && s[i] == ':';
            match (parse_part_spec(s.subrange(0, i)), parse_part_spec(
                s.subrange(i + 1, s.len() as int),
            )) {
                (Option::Some(h), Option::Some(m)) => if h < 24 && m < 60 {
                    Ok(Time { hour: h as u8, minute: m as u8 })
                } else {
                    Err(Error::InvalidTime)
                },
                _ => Err(Error::InvalidTime),
            }
        }
    }

    /// Parse from "HH:MM" format.
    #[verifier::loop_isolation(false)]
    pub fn parse(s: &str) -> (r: Result<Time, Error>)
        ensures
            r == Time::parse_spec(s@),
    {
        let n = s.unicode_len();
        let mut cpos: usize = n;
        let mut ccount: usize = 0;
        let mut i: usize = 0;
        proof {
            assert(s@.take(0) =~= Seq::<char>::empty());
        }
        while i < n
            invariant
                i <= n,
                ccount <= i,
                ccount == colon_count(s@.take(i as int)),
                ccount > 0 ==> (cpos < i && s@[cpos as int] == ':'),
                ccount == 0 ==> cpos == n,
            decreases n - i,
        {
            proof {
                assert(s@.take(i as int + 1).drop_last() =~= s@.take(i as int));
                assert(s@.take(i as int + 1).last() == s@[i as int]);
            }
            let c = s.get_char(i);
            if c == ':' {
                if ccount == 0 {
                    cpos = i;
                }
                ccount += 1;
            }
            i += 1;
        }
        proof {
            assert(s@.take(n as int) =~= s@);
        }
        if ccount != 1 {
            return Err(Error::InvalidTime);
        }
        proof {
            let j = choose|j: int| 0 <= j < s@.len() && s@[j] == ':';
            assert(s@[cpos as int] == ':');
            if j < cpos {
                lemma_colon_count_at_least_two(s@, j, cpos as int);
            } else if j > cpos {
                lemma_colon_count_at_least_two(s@, cpos as int, j);
            }
        }
        let hpart = parse_digits(s, 0, cpos);
        let mpart = parse_digits(s, cpos + 1, n);
        match (hpart, mpart) {
            (Some(h), Some(m)) => {
                if h < 24 && m < 60 {
                    Ok(Time { hour: h as u8, minute: m as u8 })
                } else {
                    Err(Error::InvalidTime)
                }
            },
            _ => Err(Error::InvalidTime),
        }
    }

    /// The five characters of the zero-padded "HH:MM" rendering.
    pub open spec fn format_spec(t: Time) -> Seq<char> {
        seq![
            dchar(t.hour as int / 10),
            dchar(t.hour as int % 10),
            ':',
            dchar(t.minute as int / 10),
            dchar(t.minute as int % 10),
        ]
    }

    /// Format as "HH:MM".
    pub fn format(&self) -> (r: String)
        requires
            self.wf(),
        ensures
            r@ == Time::format_spec(*self),
    {
        let mut out = String::new();
        out.append(digit_str(self.hour / 10));
        out.append(digit_str(self.hour % 10));
        proof {
            reveal_strlit(":");
        }
        out.append(":");
        out.append(digit_str(self.minute / 10));
        out.append(digit_str(self.minute % 10));
        proof {
            assert(":"@ =~= seq![':']);
            assert(out@ =~= Time::format_spec(*self));
        }
        out
    }
}

impl Default for Time {
    /// 09:00
    fn default() -> (r: Time)
        ensures
            r == (Time { hour: 9u8, minute: 0u8 }),
    {
        Time { hour: 9, minute: 0 }
    }
}

/// Converting a valid time to minutes since midnight and back yields the
/// same time.
pub proof fn lemma_time_minutes_round_trip(t: Time)
    requires
        t.wf(),
    ensures
        Time::spec_from_minutes(t.spec_to_minutes()) == t,
{
    let total = t.spec_to_minutes();
    lemma_fundamental_div_mod_converse(total, 60, t.hour as int, t.minute as int);
    lemma_small_mod(t.hour as nat, 24);
}

} // verus!
