//! Segment identifiers: textual, sortable by creation time — base-36 fields
//! of the current month, day, hour, minute and nanosecond, joined with
//! underscores, plus a random suffix for probabilistic uniqueness.

use vstd::prelude::*;
use vstd::string::StringExecFns;

use chrono::Datelike;
use chrono::Timelike;

verus! {

/// The character for one base-36 digit: `0`-`9` then `a`-`z`.
pub open spec fn b36_char(d: int) -> char {
    if d < 10 {
        ((48 + d) as u8) as char
    } else {
        ((87 + d) as u8) as char
    }
}

/// The base-36 digits of `x`, most significant first; `0` is written "0".
pub open spec fn base36_seq(x: nat) -> Seq<char>
    decreases x,
{
    if x < 36 {
        seq![b36_char(x as int)]
    } else {
        base36_seq(x / 36) + seq![b36_char((x % 36) as int)]
    }
}

/// Relies on `String::push`: appends one character.
#[verifier::external_body]
fn push_char(s: &mut String, c: char)
    ensures
        final(s)@ == old(s)@.push(c),
{
    s.push(c);
}

/// The characters of a digit vector read back to front.
pub open spec fn rev_chars(s: Seq<u8>) -> Seq<char> {
    Seq::new(s.len(), |j: int| b36_char(s[s.len() - 1 - j] as int))
}

/// Renders `x` in base 36, lowercase.
pub fn to_base36(x: u32) -> (r: String)
    ensures
        r@ == base36_seq(x as nat),
{
    let mut rest: u32 = x;
    let mut tail: Vec<u8> = Vec::new();
    while rest >= 36
        invariant
            base36_seq(x as nat) == base36_seq(rest as nat) + rev_chars(tail@),
            forall|j: int| 0 <= j < tail@.len() ==> tail@[j] < 36,
        decreases rest,
    {
        let d: u8 = (rest % 36) as u8;
        let ghost tail0 = tail@;
        tail.push(d);
        proof {
            assert(rev_chars(tail0.push(d)) =~= seq![b36_char(d as int)] + rev_chars(tail0));
            assert(base36_seq(rest as nat) == base36_seq((rest / 36) as nat) + seq![
                b36_char((rest % 36) as int),
            ]);
            assert(base36_seq(rest as nat) + rev_chars(tail0) =~= base36_seq((rest / 36) as nat)
                + rev_chars(tail@));
        }
        rest = rest / 36;
    }
    let mut s = String::new();
    let d0: u8 = (rest % 36) as u8;
    push_char(&mut s, digit_to_char(d0));
    proof {
        assert(base36_seq(rest as nat) =~= seq![b36_char(rest as int)]);
        assert(Seq::<char>::empty().push(b36_char(d0 as int)) =~= seq![b36_char(rest as int)]);
    }
    let n = tail.len();
    let mut i: usize = n;
    while i > 0
        invariant
            n == tail@.len(),
            0 <= i <= n,
            forall|j: int| 0 <= j < n ==> tail@[j] < 36,
            s@ == base36_seq(rest as nat) + rev_chars(tail@).subrange(0, n - i),
            base36_seq(x as nat) == base36_seq(rest as nat) + rev_chars(tail@),
        decreases i,
    {
        let d = tail[i - 1];
        let ghost s0 = s@;
        push_char(&mut s, digit_to_char(d));
        proof {
            assert(rev_chars(tail@)[n - i] == b36_char(tail@[i - 1] as int));
            assert(s0.push(b36_char(d as int)) =~= base36_seq(rest as nat) + rev_chars(
                tail@,
            ).subrange(0, n - i + 1));
        }
        i = i - 1;
    }
    proof {
        assert(rev_chars(tail@).subrange(0, n as int) =~= rev_chars(tail@));
    }
    s
}

/// The character for the digit `d`.
fn digit_to_char(d: u8) -> (r: char)
    requires
        d < 36,
    ensures
        r == b36_char(d as int),
{
    if d < 10 {
        (48 + d) as char
    } else {
        (87 + d) as char
    }
}

/// Relies on `chrono::Utc::now` and its `Datelike`/`Timelike` accessors:
/// month, day, hour and minute lie in their calendar ranges, and the
/// subsecond nanoseconds stay below two seconds (leap-second slack).
/// `Utc::now` aborts if the system clock reads before the Unix epoch; the
/// engine assumes a sane clock.
#[verifier::external_body]
fn clock_now() -> (r: (u32, u32, u32, u32, u32))
    ensures
        1 <= r.0 <= 12 && 1 <= r.1 <= 31 && r.2 < 24 && r.3 < 60 && r.4 < 2000000000,
{
    let now = chrono::Utc::now();
    (now.month(), now.day(), now.hour(), now.minute(), now.timestamp_subsec_nanos())
}

/// Relies on `chrono::Utc::now().timestamp_micros()`: microseconds since the
/// epoch; nothing can be promised of the clock's reading. `Utc::now` aborts
/// if the system clock reads before the Unix epoch.
#[verifier::external_body]
pub(crate) fn now_micros() -> i64 {
    chrono::Utc::now().timestamp_micros()
}

pub assume_specification<T>[ rand::random::<T> ]() -> (r: T)
    where
        rand::distributions::Standard: rand::distributions::Distribution<T>,
;

/// The characters of a segment id built from the given clock fields and
/// random suffix.
pub open spec fn spec_segment_id(m: u32, d: u32, h: u32, mi: u32, nano: u32, rnd: u32) -> Seq<
    char,
> {
    base36_seq(m as nat) + base36_seq(d as nat) + seq!['_'] + base36_seq(h as nat) + base36_seq(
        mi as nat,
    ) + seq!['_'] + base36_seq(nano as nat) + seq!['_'] + base36_seq(rnd as nat)
}

/// Joins the rendered fields with underscores.
pub fn format_segment_id(m: u32, d: u32, h: u32, mi: u32, nano: u32, rnd: u32) -> (r: String)
    ensures
        r@ == spec_segment_id(m, d, h, mi, nano, rnd),
{
    let mut s = to_base36(m);
    s.append(to_base36(d).as_str());
    push_char(&mut s, '_');
    s.append(to_base36(h).as_str());
    s.append(to_base36(mi).as_str());
    push_char(&mut s, '_');
    s.append(to_base36(nano).as_str());
    push_char(&mut s, '_');
    s.append(to_base36(rnd).as_str());
    proof {
        assert(s@ =~= spec_segment_id(m, d, h, mi, nano, rnd));
    }
    s
}

/// Generates an id for a segment: base-36 clock fields joined with
/// underscores, then a random base-36 suffix.
pub fn generate_segment_id() -> (r: String)
    ensures
        exists|m: u32, d: u32, h: u32, mi: u32, nano: u32, rnd: u32|
            1 <= m <= 12 && 1 <= d <= 31 && h < 24 && mi < 60 && nano < 2000000000 && r@
                == spec_segment_id(m, d, h, mi, nano, rnd),
{
    let now = clock_now();
    let random: u32 = rand::random();
    let r = format_segment_id(now.0, now.1, now.2, now.3, now.4, random);
    proof {
        assert(1 <= now.0 <= 12 && 1 <= now.1 <= 31 && now.2 < 24 && now.3 < 60 && now.4
            < 2000000000 && r@ == spec_segment_id(now.0, now.1, now.2, now.3, now.4, random));
    }
    r
}

} // verus!
