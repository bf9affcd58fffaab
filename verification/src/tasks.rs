//! Rendering of task durations (`d h:m:s`) and of task states.
use vstd::prelude::*;
use vstd::string::*;

use crate::text::{digit_char, digits, has_char, pad2, push_pad2};

verus! {

/// The largest number of whole seconds that a `chrono::Duration` can hold
/// (`i64::MAX` milliseconds); the smallest is its negation.
pub const MAX_DURATION_SECONDS: i64 = 9223372036854775;

/// Every integer of at most this magnitude converts to `f64` and back unchanged.
pub const F64_EXACT_LIMIT: i64 = 9007199254740992;

/// Seconds in a day, an hour and a minute.
pub const SECONDS_PER_DAY: i64 = 86400;
pub const SECONDS_PER_HOUR: i64 = 3600;
pub const SECONDS_PER_MINUTE: i64 = 60;

pub open spec fn abs(a: int) -> int {
    if a < 0 {
        -a
    } else {
        a
    }
}

/// Integer division rounding toward zero, as Rust's `/` does.
pub open spec fn trunc_div(a: int, b: int) -> int {
    if b == 0 {
        0
    } else if (a >= 0) == (b > 0) {
        abs(a) / abs(b)
    } else {
        -(abs(a) / abs(b))
    }
}

/// The quotient that `calculate` computes (when it divides at all) is one that
/// survives the trip through `f64` exactly. `calculate` asks this only of a unit
/// that its format names, as it divides for no other.
pub open spec fn quotient_fits_f64(total: int, seconds: int) -> bool {
    (seconds != 0 && total >= seconds) ==> -F64_EXACT_LIMIT <= trunc_div(total, seconds)
        <= F64_EXACT_LIMIT
}

pub open spec fn string_opt_view(o: Option<String>) -> Option<Seq<char>> {
    match o {
        Some(s) => Some(s@),
        None => None,
    }
}

/// One step of the duration rendering: the remaining total after the step and the
/// text the step produces for unit `contains` of `seconds` seconds.
pub open spec fn calculate_spec(
    total: int,
    seconds: int,
    format: Seq<char>,
    contains: char,
    appender: Option<Seq<char>>,
) -> (int, Seq<char>) {
    let tail = match appender {
        Some(a) => a,
        None => Seq::<char>::empty(),
    };
    if !format.contains(contains) {
        (total, Seq::<char>::empty())
    } else if total >= seconds {
        let unit = if seconds == 0 {
            total
        } else {
            trunc_div(total, seconds)
        };
        (total - unit * seconds, pad2(unit) + tail)
    } else if contains == 'h' || contains == 'm' || contains == 's' {
        (total, seq!['0', '0'] + tail)
    } else {
        (total, Seq::<char>::empty())
    }
}

/// The text `formatted` gives for a duration of `secs` seconds.
pub open spec fn formatted_spec(secs: int, format: Option<Seq<char>>) -> Seq<char> {
    match format {
        None => Seq::<char>::empty(),
        Some(f) => {
            let (t1, s1) = calculate_spec(secs, 86400, f, 'd', Some(seq!['d', ' ']));
            let (t2, s2) = calculate_spec(t1, 3600, f, 'h', Some(seq![':']));
            let (t3, s3) = calculate_spec(t2, 60, f, 'm', Some(seq![':']));
            let (_t4, s4) = calculate_spec(t3, 0, f, 's', None);
            s1 + s2 + s3 + s4
        },
    }
}

/// What truncating division leaves behind lies between zero and the dividend, and
/// is smaller than the divisor in magnitude.
pub proof fn lemma_trunc_div_remainder(a: int, b: int)
    requires
        b != 0,
    ensures
        a >= 0 ==> 0 <= trunc_div(a, b) * b <= a,
        a < 0 ==> a <= trunc_div(a, b) * b <= 0,
        abs(a - trunc_div(a, b) * b) < abs(b),
{
    let aa = abs(a);
    let bb = abs(b);
    let q = aa / bb;
    vstd::arithmetic::div_mod::lemma_fundamental_div_mod(aa, bb);
    vstd::arithmetic::div_mod::lemma_mod_bound(aa, bb);
    assert(0 <= q * bb <= aa) by (nonlinear_arith)
        requires
            aa == bb * q + aa % bb,
            0 <= aa % bb < bb,
            aa >= 0,
            bb > 0,
    ;
    if b > 0 {
        assert(bb == b);
        if a >= 0 {
            assert(trunc_div(a, b) == q);
        } else {
            assert(trunc_div(a, b) * b == -(q * bb)) by (nonlinear_arith)
                requires
                    trunc_div(a, b) == -q,
                    bb == b,
            ;
        }
    } else {
        assert(bb == -b);
        if a >= 0 {
            assert(trunc_div(a, b) * b == q * bb) by (nonlinear_arith)
                requires
                    trunc_div(a, b) == -q,
                    bb == -b,
            ;
        } else {
            assert(trunc_div(a, b) * b == -(q * bb)) by (nonlinear_arith)
                requires
                    trunc_div(a, b) == q,
                    bb == -b,
            ;
        }
    }
}

/// `a / b` on `i64`, which rounds toward zero, worked out on magnitudes.
fn div_toward_zero(a: i64, b: i64) -> (q: i64)
    requires
        b != 0,
        !(a == i64::MIN && b == -1),
    ensures
        q == trunc_div(a as int, b as int),
{
    let a_abs: u64 = if a < 0 {
        (0i128 - (a as i128)) as u64
    } else {
        a as u64
    };
    let b_abs: u64 = if b < 0 {
        (0i128 - (b as i128)) as u64
    } else {
        b as u64
    };
    let m: u64 = a_abs / b_abs;
    assert(m as int == abs(a as int) / abs(b as int));
    if (a >= 0) == (b > 0) {
        proof {
            if a < 0 {
                assert(b_abs >= 2 || a_abs < 0x8000_0000_0000_0000);
                if b_abs >= 2 {
                    vstd::arithmetic::div_mod::lemma_div_is_ordered_by_denominator(
                        a_abs as int,
                        2,
                        b_abs as int,
                    );
                }
            }
            vstd::arithmetic::div_mod::lemma_div_is_ordered_by_denominator(
                a_abs as int,
                1,
                b_abs as int,
            );
        }
        m as i64
    } else {
        proof {
            vstd::arithmetic::div_mod::lemma_div_is_ordered_by_denominator(
                a_abs as int,
                1,
                b_abs as int,
            );
        }
        (0i128 - (m as i128)) as i64
    }
}

/// A span of time in whole seconds, within what a `chrono::Duration` can hold.
pub struct Duration {
    secs: i64,
}

impl View for Duration {
    type V = int;

    closed spec fn view(&self) -> int {
        self.secs as int
    }
}

/// Makes a `chrono::Duration` of `secs` seconds with `chrono::Duration::seconds` and
/// reads its whole seconds back with `num_seconds`. `seconds` panics beyond
/// `i64::MAX / 1000` seconds either way, which `requires` leaves out; within that
/// range the duration holds no fraction and `num_seconds` returns `secs` itself.
#[verifier::external_body]
fn chrono_whole_seconds(secs: i64) -> (r: i64)
    requires
        -MAX_DURATION_SECONDS <= secs <= MAX_DURATION_SECONDS,
    ensures
        r == secs,
{
    chrono::Duration::seconds(secs).num_seconds()
}

impl Duration {
    #[verifier::type_invariant]
    spec fn in_range(self) -> bool {
        -MAX_DURATION_SECONDS <= self.secs <= MAX_DURATION_SECONDS
    }

    /// A duration of `secs` seconds (as `chrono::Duration::seconds`, which panics
    /// out of range).
    pub fn seconds(secs: i64) -> (d: Duration)
        requires
            -MAX_DURATION_SECONDS <= secs <= MAX_DURATION_SECONDS,
        ensures
            d@ == secs,
    {
        Duration { secs: chrono_whole_seconds(secs) }
    }

    /// The whole seconds of the duration.
    pub fn num_seconds(&self) -> (s: i64)
        ensures
            s == self@,
            -MAX_DURATION_SECONDS <= s <= MAX_DURATION_SECONDS,
    {
        proof {
            use_type_invariant(self);
        }
        self.secs
    }
}

pub trait LocalDuration {
    /// Renders the duration by `format`: each of the letters `d`, `h`, `m`, `s`
    /// that `format` holds brings in days, hours, minutes and seconds.
    fn formatted(&self, format: Option<String>) -> Option<String>;

    /// Takes the whole units of `seconds` seconds out of `total` and renders them,
    /// if `format` holds `contains`.
    fn calculate(
        &self,
        total: &mut i64,
        seconds: &mut i64,
        format: &String,
        contains: char,
        appender: Option<String>,
    ) -> String
        requires
            format@.contains(contains) ==> quotient_fits_f64(
                *old(total) as int,
                *old(seconds) as int,
            ),
    ;
}

impl LocalDuration for Duration {
    fn formatted(&self, format: Option<String>) -> (r: Option<String>)
        ensures
            r is Some,
            r->0@ == formatted_spec(self@, string_opt_view(format)),
    {
        proof {
            use_type_invariant(self);
        }
        let mut formatted = String::new();
        let mut full_seconds = self.num_seconds();

        if let Some(format) = format {
            let ghost f = format@;
            let ghost (t1, s1) = calculate_spec(self@, 86400, f, 'd', Some(seq!['d', ' ']));
            let ghost (t2, s2) = calculate_spec(t1, 3600, f, 'h', Some(seq![':']));
            let ghost (t3, s3) = calculate_spec(t2, 60, f, 'm', Some(seq![':']));
            let ghost (_t4, s4) = calculate_spec(t3, 0, f, 's', None);
            proof {
                reveal_strlit("d ");
                reveal_strlit(":");
                lemma_trunc_div_remainder(self@, 86400);
            }

            let mut day: i64 = SECONDS_PER_DAY;
            let days = self.calculate(
                &mut full_seconds,
                &mut day,
                &format,
                'd',
                Some(String::from_str("d ")),
            );
            formatted.append(days.as_str());
            assert(full_seconds == t1 && days@ == s1);

            proof {
                lemma_trunc_div_remainder(t1, 3600);
            }
            let mut hour: i64 = SECONDS_PER_HOUR;
            let hours = self.calculate(
                &mut full_seconds,
                &mut hour,
                &format,
                'h',
                Some(String::from_str(":")),
            );
            formatted.append(hours.as_str());
            assert(full_seconds == t2 && hours@ == s2);

            proof {
                lemma_trunc_div_remainder(t2, 60);
            }
            let mut minute: i64 = SECONDS_PER_MINUTE;
            let minutes = self.calculate(
                &mut full_seconds,
                &mut minute,
                &format,
                'm',
                Some(String::from_str(":")),
            );
            formatted.append(minutes.as_str());
            assert(full_seconds == t3 && minutes@ == s3);

            let mut second: i64 = 0;
            let secs = self.calculate(&mut full_seconds, &mut second, &format, 's', None);
            formatted.append(secs.as_str());
            assert(secs@ == s4);
            assert(formatted@ =~= s1 + s2 + s3 + s4);
        }
        Some(formatted)
    }

    fn calculate(
        &self,
        total: &mut i64,
        seconds: &mut i64,
        format: &String,
        contains: char,
        appender: Option<String>,
    ) -> (result: String)
        ensures
            *final(seconds) == *old(seconds),
            *final(total) == calculate_spec(
                *old(total) as int,
                *old(seconds) as int,
                format@,
                contains,
                string_opt_view(appender),
            ).0,
            result@ == calculate_spec(
                *old(total) as int,
                *old(seconds) as int,
                format@,
                contains,
                string_opt_view(appender),
            ).1,
            abs(*final(total) as int) <= abs(*old(total) as int),
    {
        let mut result = String::new();

        if has_char(format.as_str(), contains) {
            if *total >= *seconds {
                let unit: i64;
                if *seconds == 0 {
                    unit = *total;
                    *total = *total - unit * *seconds;
                } else {
                    // Dividing whole numbers leaves a whole quotient, and `requires`
                    // keeps it where rounding it through `f64` changes nothing.
                    unit = div_toward_zero(*total, *seconds);
                    proof {
                        lemma_trunc_div_remainder(*total as int, *seconds as int);
                    }
                    *total = *total - unit * *seconds;
                }

                push_pad2(&mut result, unit);
                if let Some(appender) = appender {
                    result.append(appender.as_str());
                }
                return result;
            }
            let mut formatted = String::from_str("00");
            proof {
                reveal_strlit("00");
            }
            if let Some(appender) = appender {
                formatted.append(appender.as_str());
            }
            assert(formatted@ =~= seq!['0', '0'] + match string_opt_view(appender) {
                Some(a) => a,
                None => Seq::<char>::empty(),
            });

            match contains {
                'h' => result.append(formatted.as_str()),
                'm' => result.append(formatted.as_str()),
                's' => result.append(formatted.as_str()),
                _ => {},
            };
        }
        result
    }
}

} // verus!

verus! {

/// The format that task times are shown in.
pub open spec fn dhms_format() -> Seq<char> {
    seq!['d', ' ', 'h', ':', 'm', ':', 's']
}

/// The text shown for a task time of `seconds` seconds.
pub open spec fn duration_text(seconds: int) -> Seq<char> {
    if seconds == 0 {
        seq!['-', '-']
    } else {
        formatted_spec(seconds, Some(dhms_format()))
    }
}

/// Renders a task time given in whole seconds: `--` for zero, else the duration in
/// the `d h:m:s` format.
pub fn duration_as_string(seconds: i64) -> (r: Option<String>)
    requires
        -MAX_DURATION_SECONDS <= seconds <= MAX_DURATION_SECONDS,
    ensures
        r is Some,
        r->0@ == duration_text(seconds as int),
{
    let duration = Duration::seconds(seconds);

    if duration.num_seconds() == 0 {
        proof {
            reveal_strlit("--");
        }
        return Some(String::from_str("--"));
    }
    proof {
        reveal_strlit("d h:m:s");
    }
    let format = String::from_str("d h:m:s");
    assert(format@ == dhms_format());
    duration.formatted(Some(format))
}

/// The name of a task's state code.
pub open spec fn state_name(state: Option<i32>) -> Seq<char> {
    match state {
        Some(0) => "Uninitialized"@,
        Some(1) => "Executing"@,
        Some(2) => "Suspended"@,
        Some(3) => "Abort pending"@,
        Some(4) => "Quit pending"@,
        Some(5) => "Copy pending"@,
        _ => "Unknown state"@,
    }
}

/// Names a task's state code; codes outside `0..=5`, and a missing code, are
/// `Unknown state`.
pub fn task_state(state: Option<i32>) -> (r: Option<String>)
    ensures
        r is Some,
        r->0@ == state_name(state),
{
    match state {
        Some(0) => Some(String::from_str("Uninitialized")),
        Some(1) => Some(String::from_str("Executing")),
        Some(2) => Some(String::from_str("Suspended")),
        Some(3) => Some(String::from_str("Abort pending")),
        Some(4) => Some(String::from_str("Quit pending")),
        Some(5) => Some(String::from_str("Copy pending")),
        _ => Some(String::from_str("Unknown state")),
    }
}

/// A non-negative duration in the `d h:m:s` format reads as days (only when there
/// is at least one), then hours, minutes and seconds, each of at least two digits,
/// and these parts add back up to the duration.
pub proof fn lemma_formatted_dhms(secs: int)
    requires
        0 <= secs <= MAX_DURATION_SECONDS,
    ensures
        ({
            let days = secs / 86400;
            let hours = (secs % 86400) / 3600;
            let minutes = (secs % 3600) / 60;
            let seconds = secs % 60;
            &&& formatted_spec(secs, Some(dhms_format())) == (if secs >= 86400 {
                pad2(days) + seq!['d', ' ']
            } else {
                Seq::<char>::empty()
            }) + pad2(hours) + seq![':'] + pad2(minutes) + seq![':'] + pad2(seconds)
            &&& 0 <= hours < 24
            &&& 0 <= minutes < 60
            &&& 0 <= seconds < 60
            &&& days * 86400 + hours * 3600 + minutes * 60 + seconds == secs
        }),
{
    let f = dhms_format();
    assert(f[0] == 'd' && f[2] == 'h' && f[4] == 'm' && f[6] == 's');
    assert(f.contains('d') && f.contains('h') && f.contains('m') && f.contains('s'));
    let days = secs / 86400;
    let r1 = secs % 86400;
    let hours = r1 / 3600;
    let minutes = (secs % 3600) / 60;
    let seconds = secs % 60;
    vstd::arithmetic::div_mod::lemma_fundamental_div_mod(secs, 86400);
    vstd::arithmetic::div_mod::lemma_fundamental_div_mod(r1, 3600);
    vstd::arithmetic::div_mod::lemma_fundamental_div_mod(secs % 3600, 60);
    vstd::arithmetic::div_mod::lemma_mod_mod(secs, 3600, 24);
    vstd::arithmetic::div_mod::lemma_mod_mod(secs, 60, 60);
    assert(86400 == 3600 * 24int);
    assert(3600 == 60 * 60int);

    let (t1, s1) = calculate_spec(secs, 86400, f, 'd', Some(seq!['d', ' ']));
    assert(t1 == r1);
    let (t2, s2) = calculate_spec(t1, 3600, f, 'h', Some(seq![':']));
    assert(r1 % 3600 == secs % 3600);
    assert(t2 == secs % 3600);
    assert(s2 == pad2(hours) + seq![':']);
    let (t3, s3) = calculate_spec(t2, 60, f, 'm', Some(seq![':']));
    assert((secs % 3600) % 60 == secs % 60);
    assert(t3 == seconds);
    assert(s3 == pad2(minutes) + seq![':']);
    let (_t4, s4) = calculate_spec(t3, 0, f, 's', None);
    assert(s4 == pad2(seconds));
    assert(days * 86400 + hours * 3600 + minutes * 60 + seconds == secs) by (nonlinear_arith)
        requires
            secs == 86400 * days + r1,
            r1 == 3600 * hours + r1 % 3600,
            r1 % 3600 == secs % 3600,
            secs % 3600 == 60 * minutes + seconds,
    ;
    assert(0 <= hours < 24) by {
        vstd::arithmetic::div_mod::lemma_div_is_ordered(r1, 86399, 3600);
    }
}

/// A negative duration in the `d h:m:s` format reads as zero: `00:00:00`.
pub proof fn lemma_formatted_negative(secs: int)
    requires
        secs < 0,
    ensures
        formatted_spec(secs, Some(dhms_format())) == seq!['0', '0', ':', '0', '0', ':', '0', '0'],
{
    let f = dhms_format();
    assert(f[2] == 'h' && f[4] == 'm' && f[6] == 's');
    assert(f.contains('h') && f.contains('m') && f.contains('s'));
    assert(formatted_spec(secs, Some(f)) =~= seq!['0', '0', ':', '0', '0', ':', '0', '0']);
}

/// Without a format, or with one that names none of `d`, `h`, `m`, `s`, a
/// duration renders as the empty text.
pub proof fn lemma_formatted_without_units(secs: int, format: Option<Seq<char>>)
    requires
        format matches Some(f) ==> !f.contains('d') && !f.contains('h') && !f.contains('m')
            && !f.contains('s'),
    ensures
        formatted_spec(secs, format) == Seq::<char>::empty(),
{
    if let Some(f) = format {
        assert(formatted_spec(secs, format) =~= Seq::<char>::empty());
    }
}

} // verus!

verus! {

/// `a` comes no later than `b` in string order: at the first place where they
/// differ, `a` holds the smaller character, or `a` has ended.
pub open spec fn text_le(a: Seq<char>, b: Seq<char>) -> bool {
    exists|k: int|
        0 <= k <= a.len() && k <= b.len() && a.take(k) == b.take(k) && (k == a.len() || (k
            < b.len() && (a[k] as u32) < (b[k] as u32)))
}

proof fn lemma_pad2_two_digits(n: int)
    requires
        0 <= n < 100,
    ensures
        pad2(n) == seq![digit_char(n / 10), digit_char(n % 10)],
{
    if n >= 10 {
        assert(digits((n / 10) as nat) == seq![digit_char(n / 10)]);
        assert(pad2(n) =~= seq![digit_char(n / 10), digit_char(n % 10)]);
    } else {
        assert(pad2(n) =~= seq![digit_char(n / 10), digit_char(n % 10)]);
    }
}

proof fn lemma_radix_order(q1: int, r1: int, q2: int, r2: int, base: int)
    requires
        base > 0,
        0 <= r1 < base,
        0 <= r2 < base,
        q1 * base + r1 <= q2 * base + r2,
    ensures
        q1 < q2 || (q1 == q2 && r1 <= r2),
{
    if q1 > q2 {
        assert(q1 * base >= (q2 + 1) * base) by (nonlinear_arith)
            requires
                q1 >= q2 + 1,
                base > 0,
        ;
        assert((q2 + 1) * base == q2 * base + base) by (nonlinear_arith);
    } else if q1 == q2 {
    }
}

proof fn lemma_digit_order(d1: int, d2: int)
    requires
        0 <= d1 < 10,
        0 <= d2 < 10,
    ensures
        (digit_char(d1) as u32) < (digit_char(d2) as u32) <==> d1 < d2,
        digit_char(d1) == digit_char(d2) <==> d1 == d2,
{
}

} // verus!

verus! {

/// The eight characters `hh:mm:ss`.
pub open spec fn clock_text(h: int, m: int, s: int) -> Seq<char> {
    seq![
        digit_char(h / 10),
        digit_char(h % 10),
        ':',
        digit_char(m / 10),
        digit_char(m % 10),
        ':',
        digit_char(s / 10),
        digit_char(s % 10),
    ]
}

proof fn lemma_clock_text(x: int)
    requires
        0 <= x < 86400,
    ensures
        formatted_spec(x, Some(dhms_format())) == clock_text(x / 3600, (x % 3600) / 60, x % 60),
        0 <= x / 3600 < 24,
        0 <= (x % 3600) / 60 < 60,
        0 <= x % 60 < 60,
        (x / 3600) * 3600 + ((x % 3600) / 60) * 60 + x % 60 == x,
{
    lemma_formatted_dhms(x);
    vstd::arithmetic::div_mod::lemma_small_mod(x as nat, 86400);
    vstd::arithmetic::div_mod::lemma_basic_div(x, 86400);
    lemma_pad2_two_digits(x / 3600);
    lemma_pad2_two_digits((x % 3600) / 60);
    lemma_pad2_two_digits(x % 60);
    assert(formatted_spec(x, Some(dhms_format())) =~= clock_text(
        x / 3600,
        (x % 3600) / 60,
        x % 60,
    ));
}

/// Two-digit numbers compare as their two digits do, first the tens.
proof fn lemma_two_digit_order(p: int, q: int)
    requires
        0 <= p <= q < 100,
    ensures
        p / 10 < q / 10 || (p / 10 == q / 10 && p % 10 <= q % 10),
        p == q <==> (p / 10 == q / 10 && p % 10 == q % 10),
{
    vstd::arithmetic::div_mod::lemma_fundamental_div_mod(p, 10);
    vstd::arithmetic::div_mod::lemma_fundamental_div_mod(q, 10);
    lemma_radix_order(p / 10, p % 10, q / 10, q % 10, 10);
}

proof fn lemma_clock_text_order(h1: int, m1: int, s1: int, h2: int, m2: int, s2: int)
    requires
        0 <= h1 < 24,
        0 <= h2 < 24,
        0 <= m1 < 60,
        0 <= m2 < 60,
        0 <= s1 < 60,
        0 <= s2 < 60,
        h1 * 3600 + m1 * 60 + s1 <= h2 * 3600 + m2 * 60 + s2,
    ensures
        text_le(clock_text(h1, m1, s1), clock_text(h2, m2, s2)),
{
    let ta = clock_text(h1, m1, s1);
    let tb = clock_text(h2, m2, s2);
    assert(h1 * 3600 + (m1 * 60 + s1) <= h2 * 3600 + (m2 * 60 + s2));
    lemma_radix_order(h1, m1 * 60 + s1, h2, m2 * 60 + s2, 3600);
    lemma_digit_order(h1 / 10, h2 / 10);
    lemma_digit_order(h1 % 10, h2 % 10);
    lemma_digit_order(m1 / 10, m2 / 10);
    lemma_digit_order(m1 % 10, m2 % 10);
    lemma_digit_order(s1 / 10, s2 / 10);
    lemma_digit_order(s1 % 10, s2 % 10);
    if h1 < h2 {
        lemma_two_digit_order(h1, h2);
        let k: int = if h1 / 10 != h2 / 10 {
            0
        } else {
            1
        };
        assert(ta.take(k) =~= tb.take(k));
        assert((ta[k] as u32) < (tb[k] as u32));
    } else {
        lemma_two_digit_order(h1, h2);
        lemma_radix_order(m1, s1, m2, s2, 60);
        if m1 < m2 {
            lemma_two_digit_order(m1, m2);
            let k: int = if m1 / 10 != m2 / 10 {
                3
            } else {
                4
            };
            assert(ta.take(k) =~= tb.take(k));
            assert((ta[k] as u32) < (tb[k] as u32));
        } else {
            lemma_two_digit_order(m1, m2);
            lemma_two_digit_order(s1, s2);
            if s1 < s2 {
                let k: int = if s1 / 10 != s2 / 10 {
                    6
                } else {
                    7
                };
                assert(ta.take(k) =~= tb.take(k));
                assert((ta[k] as u32) < (tb[k] as u32));
            } else {
                assert(ta.take(8) =~= tb.take(8));
            }
        }
    }
}

/// Under a day, the `d h:m:s` text of a duration has eight characters, and sorting
/// these texts as strings sorts them as the durations they show.
pub proof fn lemma_formatted_sorts_under_a_day(a: int, b: int)
    requires
        0 <= a <= b < 86400,
    ensures
        formatted_spec(a, Some(dhms_format())).len() == 8,
        formatted_spec(b, Some(dhms_format())).len() == 8,
        text_le(formatted_spec(a, Some(dhms_format())), formatted_spec(b, Some(dhms_format()))),
{
    lemma_clock_text(a);
    lemma_clock_text(b);
    lemma_clock_text_order(a / 3600, (a % 3600) / 60, a % 60, b / 3600, (b % 3600) / 60, b % 60);
}

} // verus!

verus! {

/// One step of the rendering on a non-negative total and a positive unit.
proof fn lemma_step(t: int, u: int, f: Seq<char>, c: char, tail: Seq<char>)
    requires
        t >= 0,
        u > 0,
    ensures
        0 <= t / u,
        0 <= t - (t / u) * u < u,
        !f.contains(c) ==> calculate_spec(t, u, f, c, Some(tail)) == (t, Seq::<char>::empty()),
        f.contains(c) && t >= u ==> calculate_spec(t, u, f, c, Some(tail)) == (
            t - (t / u) * u,
            pad2(t / u) + tail,
        ),
        f.contains(c) && t < u && (c == 'h' || c == 'm') ==> calculate_spec(
            t,
            u,
            f,
            c,
            Some(tail),
        ) == (t - (t / u) * u, pad2(t / u) + tail),
        f.contains(c) && t < u && c == 'd' ==> calculate_spec(t, u, f, c, Some(tail)) == (
            t - (t / u) * u,
            Seq::<char>::empty(),
        ),
{
    vstd::arithmetic::div_mod::lemma_fundamental_div_mod(t, u);
    vstd::arithmetic::div_mod::lemma_mod_bound(t, u);
    vstd::arithmetic::div_mod::lemma_div_pos_is_pos(t, u);
    if t < u {
        vstd::arithmetic::div_mod::lemma_basic_div(t, u);
        assert(pad2(0) =~= seq!['0', '0']);
    }
    assert(trunc_div(t, u) == t / u);
    assert(t - (t / u) * u == t % u) by (nonlinear_arith)
        requires
            t == u * (t / u) + t % u,
    ;
}

/// For any format and a non-negative duration, each unit that the format names
/// shows the whole units of it left over by the larger named units (days only when
/// there is at least one), and the units shown add back up to the duration. So,
/// without `d`, the hours keep the days: they are `secs / 3600`.
pub proof fn lemma_formatted_units(secs: int, f: Seq<char>)
    requires
        secs >= 0,
    ensures
        ({
            let days = if f.contains('d') {
                secs / 86400
            } else {
                0
            };
            let r1 = secs - days * 86400;
            let hours = if f.contains('h') {
                r1 / 3600
            } else {
                0
            };
            let r2 = r1 - hours * 3600;
            let minutes = if f.contains('m') {
                r2 / 60
            } else {
                0
            };
            let seconds = r2 - minutes * 60;
            &&& formatted_spec(secs, Some(f)) == (if f.contains('d') && secs >= 86400 {
                pad2(days) + seq!['d', ' ']
            } else {
                Seq::<char>::empty()
            }) + (if f.contains('h') {
                pad2(hours) + seq![':']
            } else {
                Seq::<char>::empty()
            }) + (if f.contains('m') {
                pad2(minutes) + seq![':']
            } else {
                Seq::<char>::empty()
            }) + (if f.contains('s') {
                pad2(seconds)
            } else {
                Seq::<char>::empty()
            })
            &&& days * 86400 + hours * 3600 + minutes * 60 + seconds == secs
            &&& 0 <= days && 0 <= hours && 0 <= minutes && 0 <= seconds
            &&& f.contains('d') ==> r1 < 86400
            &&& f.contains('h') ==> r2 < 3600
            &&& f.contains('m') ==> seconds < 60
            &&& !f.contains('d') && f.contains('h') ==> hours == secs / 3600
        }),
{
    let days = if f.contains('d') {
        secs / 86400
    } else {
        0
    };
    lemma_step(secs, 86400, f, 'd', seq!['d', ' ']);
    let r1 = secs - days * 86400;
    let (t1, s1) = calculate_spec(secs, 86400, f, 'd', Some(seq!['d', ' ']));
    assert(t1 == r1);
    let hours = if f.contains('h') {
        r1 / 3600
    } else {
        0
    };
    lemma_step(r1, 3600, f, 'h', seq![':']);
    let r2 = r1 - hours * 3600;
    let (t2, s2) = calculate_spec(t1, 3600, f, 'h', Some(seq![':']));
    assert(t2 == r2);
    let minutes = if f.contains('m') {
        r2 / 60
    } else {
        0
    };
    lemma_step(r2, 60, f, 'm', seq![':']);
    let seconds = r2 - minutes * 60;
    let (t3, s3) = calculate_spec(t2, 60, f, 'm', Some(seq![':']));
    assert(t3 == seconds);
    let (_t4, s4) = calculate_spec(t3, 0, f, 's', None);
    assert(s4 == if f.contains('s') {
        pad2(seconds)
    } else {
        Seq::<char>::empty()
    });
    if f.contains('s') {
        assert(pad2(seconds) + Seq::<char>::empty() =~= pad2(seconds));
    }
}

} // verus!

verus! {

/// A task time shows as `--` exactly when it is zero; any other time shows in the
/// `d h:m:s` format, which never reads `--`.
pub proof fn lemma_duration_text_dashes_only_for_zero(seconds: int)
    ensures
        duration_text(seconds) == seq!['-', '-'] <==> seconds == 0,
        seconds != 0 ==> duration_text(seconds) == formatted_spec(seconds, Some(dhms_format())),
        seconds != 0 ==> duration_text(seconds).len() >= 8,
{
    let f = dhms_format();
    assert(f[0] == 'd' && f[2] == 'h' && f[4] == 'm' && f[6] == 's');
    assert(f.contains('d') && f.contains('h') && f.contains('m') && f.contains('s'));
    if seconds > 0 {
        lemma_formatted_units(seconds, f);
        let days = seconds / 86400;
        let r1 = seconds - days * 86400;
        let hours = r1 / 3600;
        let r2 = r1 - hours * 3600;
        let minutes = r2 / 60;
        let secs = r2 - minutes * 60;
        crate::text::lemma_pad2_decimal(hours);
        crate::text::lemma_pad2_decimal(minutes);
        crate::text::lemma_pad2_decimal(secs);
        assert(duration_text(seconds).len() >= 8);
    } else if seconds < 0 {
        lemma_formatted_negative(seconds);
        assert(duration_text(seconds).len() == 8);
    }
}

/// Only the codes 0 to 5 have names of their own, each a different one; every other
/// code, and a missing one, is `Unknown state`.
pub proof fn lemma_state_names()
    ensures
        forall|code: i32|
            !(0 <= code <= 5) ==> #[trigger] state_name(Some(code)) == "Unknown state"@,
        state_name(None) == "Unknown state"@,
        forall|a: i32, b: i32|
            0 <= a <= 5 && 0 <= b <= 5 && #[trigger] state_name(Some(a)) == #[trigger] state_name(
                Some(b),
            ) ==> a == b,
        forall|code: i32| 0 <= code <= 5 ==> #[trigger] state_name(Some(code)) != "Unknown state"@,
        state_name(Some(0)) == "Uninitialized"@,
        state_name(Some(1)) == "Executing"@,
        state_name(Some(2)) == "Suspended"@,
        state_name(Some(3)) == "Abort pending"@,
        state_name(Some(4)) == "Quit pending"@,
        state_name(Some(5)) == "Copy pending"@,
{
    reveal_strlit("Uninitialized");
    reveal_strlit("Executing");
    reveal_strlit("Suspended");
    reveal_strlit("Abort pending");
    reveal_strlit("Quit pending");
    reveal_strlit("Copy pending");
    reveal_strlit("Unknown state");
    let names = seq![
        "Uninitialized"@,
        "Executing"@,
        "Suspended"@,
        "Abort pending"@,
        "Quit pending"@,
        "Copy pending"@,
        "Unknown state"@,
    ];
    assert(names[0].len() != names[1].len());
    assert(names[0].len() != names[2].len());
    assert(names[0][0] != names[3][0]);
    assert(names[0].len() != names[4].len());
    assert(names[0].len() != names[5].len());
    assert(names[0][2] != names[6][2]);
    assert(names[1][0] != names[2][0]);
    assert(names[1].len() != names[3].len());
    assert(names[1].len() != names[4].len());
    assert(names[1].len() != names[5].len());
    assert(names[1].len() != names[6].len());
    assert(names[2].len() != names[3].len());
    assert(names[2].len() != names[4].len());
    assert(names[2].len() != names[5].len());
    assert(names[2].len() != names[6].len());
    assert(names[3].len() != names[4].len());
    assert(names[3].len() != names[5].len());
    assert(names[3][0] != names[6][0]);
    assert(names[4][0] != names[5][0]);
    assert(names[4].len() != names[6].len());
    assert(names[5].len() != names[6].len());
    assert forall|i: int, j: int| 0 <= i < 7 && 0 <= j < 7 && i != j implies names[i]
        != names[j] by {
        if i > j {
            assert(names[j] != names[i]);
        }
    }
    assert forall|code: i32| 0 <= code <= 5 implies #[trigger] state_name(Some(code))
        == names[code as int] by {}
    assert(names[6] == "Unknown state"@);
}

} // verus!

verus! {

/// What one step does on a non-negative total: when the format names the unit and
/// the total holds at least one of it, it shows the number of whole units and keeps
/// what is left, less than one unit; the units shown and what is left add back up to
/// the total. With a unit of zero seconds it shows the whole total. Otherwise the
/// total stays as it is, and the text is `00` (for hours, minutes and seconds, when
/// named) or empty.
pub proof fn lemma_calculate_units(
    total: int,
    seconds: int,
    f: Seq<char>,
    c: char,
    tail: Seq<char>,
)
    requires
        total >= 0,
        seconds >= 0,
    ensures
        ({
            let (left, text) = calculate_spec(total, seconds, f, c, Some(tail));
            &&& !f.contains(c) ==> left == total && text == Seq::<char>::empty()
            &&& f.contains(c) && seconds > 0 && total >= seconds ==> exists|units: int|
                units >= 1 && units * seconds + left == total && 0 <= left < seconds && text
                    == pad2(units) + tail
            &&& f.contains(c) && seconds == 0 ==> left == total && text == pad2(total) + tail
            &&& f.contains(c) && total < seconds ==> left == total && text == (if c == 'h' || c
                == 'm' || c == 's' {
                seq!['0', '0'] + tail
            } else {
                Seq::<char>::empty()
            })
        }),
{
    if seconds > 0 {
        lemma_step(total, seconds, f, c, tail);
        if f.contains(c) && total >= seconds {
            let q = total / seconds;
            vstd::arithmetic::div_mod::lemma_div_is_ordered(seconds, total, seconds);
            vstd::arithmetic::div_mod::lemma_div_basics(seconds);
            assert(q * seconds + (total - q * seconds) == total);
            assert(q >= 1);
        }
    }
}

} // verus!
