//! Wall-clock readings and the time elapsed since a stored time stamp.
//!
//! An instant is held as chrono writes it: whole seconds since the Unix
//! epoch (UTC) and the nanoseconds within that second, which exceed
//! 999,999,999 only during a leap second.

use vstd::prelude::*;

verus! {

/// `chrono::Local::now().to_rfc3339()`: the current local time stamp.
#[verifier::external_body]
pub(crate) fn now_rfc3339() -> String {
    chrono::Local::now().to_rfc3339()
}

/// Seconds beyond which no chrono date lies (its years stay within
/// ±262,144).
pub const INSTANT_SECS_BOUND: i64 = 10_000_000_000_000;

/// An instant chrono can hold.
pub open spec fn is_instant(t: (i64, u32)) -> bool {
    -INSTANT_SECS_BOUND < t.0 < INSTANT_SECS_BOUND && t.1 < 2_000_000_000
}

/// The instant an RFC 3339 text names, as `DateTime::parse_from_rfc3339`
/// reads it; `None` where it does not parse.
pub uninterp spec fn rfc3339_instant(text: Seq<char>) -> Option<(i64, u32)>;

/// `chrono::DateTime::parse_from_rfc3339`, read as `(timestamp(),
/// timestamp_subsec_nanos())`. The instant depends on the text alone; a
/// chrono date-time always lies in chrono's date range and holds fewer
/// than two billion nanoseconds.
#[verifier::external_body]
fn parse_rfc3339_instant(text: &str) -> (r: Option<(i64, u32)>)
    ensures
        r == rfc3339_instant(text@),
        r matches Some(t) ==> is_instant(t),
{
    match chrono::DateTime::parse_from_rfc3339(text) {
        Ok(d) => Some((d.timestamp(), d.timestamp_subsec_nanos())),
        Err(_) => None,
    }
}

/// `chrono::Local::now()`, read as `(timestamp(),
/// timestamp_subsec_nanos())`. Which instant it is depends on the clock;
/// it is one chrono can hold.
#[verifier::external_body]
fn now_instant() -> (r: (i64, u32))
    ensures
        is_instant(r),
{
    let d = chrono::Local::now();
    (d.timestamp(), d.timestamp_subsec_nanos())
}

/// Integer division rounded toward zero, as Rust divides.
pub open spec fn div_toward_zero(a: int, b: int) -> int {
    if a >= 0 {
        a / b
    } else {
        -((-a) / b)
    }
}

/// Whole seconds of `now - then`, as chrono's `signed_duration_since`
/// followed by `num_seconds` gives them: the day difference plus the
/// time-of-day difference, where a leap second of the earlier time of day
/// still counts, rounded toward zero.
pub open spec fn seconds_between(then: (i64, u32), now: (i64, u32)) -> int {
    let sa = now.0 % 86_400;
    let sb = then.0 % 86_400;
    let adj: int = if sa > sb && then.1 >= 1_000_000_000 {
        1
    } else if sa < sb && now.1 >= 1_000_000_000 {
        -1
    } else {
        0
    };
    let frac = now.1 - then.1;
    let secs = now.0 - then.0 + adj + frac / 1_000_000_000;
    let nanos = frac % 1_000_000_000;
    if secs < 0 && nanos > 0 {
        secs + 1
    } else {
        secs
    }
}

/// Whole minutes from `then` to `now` (`num_minutes` of the difference).
pub open spec fn minutes_between(then: (i64, u32), now: (i64, u32)) -> int {
    div_toward_zero(seconds_between(then, now), 60)
}

fn rem_day(t: i64) -> (r: i128)
    requires
        -INSTANT_SECS_BOUND < t < INSTANT_SECS_BOUND,
    ensures
        r == t % 86_400,
{
    if t >= 0 {
        let q = (t as u64) % 86_400;
        q as i128
    } else {
        let q = ((-(t as i128)) as u64) % 86_400;
        proof {
            let a: int = -(t as int);
            assert(a % 86_400 == q);
            assert(t as int == -(a / 86_400) * 86_400 - q) by (nonlinear_arith)
                requires a == -(t as int), a % 86_400 == q, a == (a / 86_400) * 86_400 + a % 86_400;
            if q == 0 {
                assert(t as int == (-(a / 86_400)) * 86_400);
                vstd::arithmetic::div_mod::lemma_mod_multiples_basic(-(a / 86_400), 86_400);
            } else {
                assert(t as int == (-(a / 86_400) - 1) * 86_400 + (86_400 - q)) by (nonlinear_arith)
                    requires t as int == -(a / 86_400) * 86_400 - q;
                vstd::arithmetic::div_mod::lemma_fundamental_div_mod_converse(
                    t as int,
                    86_400,
                    -(a / 86_400) - 1,
                    86_400 - q as int,
                );
            }
        }
        if q == 0 {
            0
        } else {
            86_400 - (q as i128)
        }
    }
}

/// Whole minutes from `then` to `now`, both instants chrono can hold.
pub fn whole_minutes_between(then: (i64, u32), now: (i64, u32)) -> (m: i64)
    requires
        is_instant(then),
        is_instant(now),
    ensures
        m == minutes_between(then, now),
{
    let sa = rem_day(now.0);
    let sb = rem_day(then.0);
    let adj: i128 = if sa > sb && then.1 >= 1_000_000_000 {
        1
    } else if sa < sb && now.1 >= 1_000_000_000 {
        -1
    } else {
        0
    };
    let frac: i128 = now.1 as i128 - then.1 as i128;
    let (carry, nanos): (i128, i128) = if frac >= 1_000_000_000 {
        (1, frac - 1_000_000_000)
    } else if frac >= 0 {
        (0, frac)
    } else if frac >= -1_000_000_000 {
        (-1, frac + 1_000_000_000)
    } else {
        (-2, frac + 2_000_000_000)
    };
    proof {
        let f = frac as int;
        vstd::arithmetic::div_mod::lemma_fundamental_div_mod_converse(f, 1_000_000_000, carry as int, nanos as int);
    }
    let raw: i128 = now.0 as i128 - then.0 as i128 + adj + carry;
    let secs: i128 = if raw < 0 && nanos > 0 {
        raw + 1
    } else {
        raw
    };
    assert(secs == seconds_between(then, now));
    let m: i128 = if secs >= 0 {
        ((secs as u128) / 60) as i128
    } else {
        -(((-secs) as u128 / 60) as i128)
    };
    m as i64
}

/// Whole minutes from the time an RFC 3339 text names until now, where the
/// text parses; the clock is read once.
pub fn minutes_since(then_rfc3339: &str) -> (r: Option<i64>)
    ensures
        r is Some <==> rfc3339_instant(then_rfc3339@) is Some,
        r matches Some(m) ==> exists|now: (i64, u32)|
            is_instant(now) && m == #[trigger] minutes_between(rfc3339_instant(then_rfc3339@)->0, now),
{
    match parse_rfc3339_instant(then_rfc3339) {
        None => None,
        Some(then) => {
            let now = now_instant();
            Some(whole_minutes_between(then, now))
        },
    }
}

} // verus!
