//! Shifting the `HHMMSScc` accept time of a quote, as done when a capture is
//! replayed several times over to build a larger one.

use vstd::prelude::*;

verus! {

/// The two-digit number whose ASCII digits are `b[i]`, `b[i + 1]`.
pub open spec fn two_digits(b: Seq<u8>, i: int) -> int {
    (b[i] - 48) * 10 + (b[i + 1] - 48)
}

/// The seconds since midnight that `HHMMSS` in the first six bytes give.
pub open spec fn clock_seconds(b: Seq<u8>) -> int {
    two_digits(b, 0) * 3600 + two_digits(b, 2) * 60 + two_digits(b, 4)
}

/// The ASCII digit of `d`.
pub open spec fn ascii_digit(d: int) -> u8 {
    (48 + d) as u8
}

/// `HHMMSS` for a number of seconds, wrapped to one day.
pub open spec fn clock_text(total: int) -> Seq<u8> {
    let h = (total / 3600) % 24;
    let m = (total / 60) % 60;
    let s = total % 60;
    seq![
        ascii_digit(h / 10),
        ascii_digit(h % 10),
        ascii_digit(m / 10),
        ascii_digit(m % 10),
        ascii_digit(s / 10),
        ascii_digit(s % 10),
    ]
}

/// The first six bytes are digits or above, so that they read as a time
/// without underflow, and the shifted time stays within `u32`.
pub open spec fn can_shift(b: Seq<u8>, shift_secs: u32) -> bool {
    &&& b.len() >= 6
    &&& forall|i: int| 0 <= i < 6 ==> b[i] >= 48
    &&& clock_seconds(b) + shift_secs <= u32::MAX
}

/// The bytes with their `HHMMSS` part moved on by `secs` seconds.
pub open spec fn shifted(b: Seq<u8>, secs: int) -> Seq<u8> {
    clock_text(clock_seconds(b) + secs) + b.subrange(6, b.len() as int)
}

/// Parses the `HHMMSS` part of an 8-byte ASCII time (`HHMMSScc`), adds
/// `shift_secs` seconds and writes the time back, wrapped to one day. The
/// hundredths are left as they are.
pub fn shift_accept_time(bytes: &mut [u8], shift_secs: u32)
    requires
        can_shift(old(bytes)@, shift_secs),
    ensures
        final(bytes)@ == shifted(old(bytes)@, shift_secs as int),
{
    let h = (bytes[0] - 48) as u32 * 10 + (bytes[1] - 48) as u32;
    let m = (bytes[2] - 48) as u32 * 10 + (bytes[3] - 48) as u32;
    let s = (bytes[4] - 48) as u32 * 10 + (bytes[5] - 48) as u32;

    let total_secs = h * 3600 + m * 60 + s + shift_secs;

    let new_h = (total_secs / 3600) % 24;
    let new_m = (total_secs / 60) % 60;
    let new_s = total_secs % 60;

    bytes[0] = 48 + (new_h / 10) as u8;
    bytes[1] = 48 + (new_h % 10) as u8;
    bytes[2] = 48 + (new_m / 10) as u8;
    bytes[3] = 48 + (new_m % 10) as u8;
    bytes[4] = 48 + (new_s / 10) as u8;
    bytes[5] = 48 + (new_s % 10) as u8;
    proof {
        assert(final(bytes)@ =~= clock_text(clock_seconds(old(bytes)@) + shift_secs) + old(bytes)@.subrange(
            6,
            old(bytes)@.len() as int,
        ));
    }
}


proof fn lemma_split_day(x: int, q: int, r: int)
    by (nonlinear_arith)
    requires
        x == 86400 * q + r,
        0 <= r < 86400,
        q >= 0,
    ensures
        x / 3600 == 24 * q + r / 3600,
        x / 60 == 1440 * q + r / 60,
        x % 60 == r % 60,
{
}

/// The time of day of `x` seconds depends only on `x` modulo one day.
proof fn lemma_clock_text_mod_day(x: int)
    requires
        x >= 0,
    ensures
        clock_text(x) == clock_text(x % 86400),
{
    let q = x / 86400;
    let r = x % 86400;
    lemma_split_day(x, q, r);
    assert((24 * q + r / 3600) % 24 == (r / 3600) % 24) by (nonlinear_arith)
        requires
            q >= 0,
            0 <= r < 86400,
    ;
    assert((1440 * q + r / 60) % 60 == (r / 60) % 60) by (nonlinear_arith)
        requires
            q >= 0,
            0 <= r < 86400,
    ;
}

/// Reading back the text of a time of day gives that time.
proof fn lemma_clock_round_trip(r: int)
    requires
        0 <= r < 86400,
    ensures
        clock_seconds(clock_text(r)) == r,
        forall|i: int| 0 <= i < 6 ==> #[trigger] clock_text(r)[i] >= 48,
{
    let h = (r / 3600) % 24;
    let m = (r / 60) % 60;
    let s = r % 60;
    assert(h == r / 3600 && 0 <= h < 24) by (nonlinear_arith)
        requires
            0 <= r < 86400,
            h == (r / 3600) % 24,
    ;
    assert(r == h * 3600 + m * 60 + s) by (nonlinear_arith)
        requires
            0 <= r < 86400,
            h == r / 3600,
            m == (r / 60) % 60,
            s == r % 60,
    ;
    assert(0 <= m < 60 && 0 <= s < 60);
    assert(h == (h / 10) * 10 + h % 10 && m == (m / 10) * 10 + m % 10 && s == (s / 10) * 10 + s % 10);
    let t = clock_text(r);
    assert(two_digits(t, 0) == h);
    assert(two_digits(t, 2) == m);
    assert(two_digits(t, 4) == s);
}

/// Shifting an accept time by `a` seconds and then by `c` seconds gives the
/// same bytes as shifting it once by `a + c` seconds.
pub proof fn lemma_shifts_compose(b: Seq<u8>, a: u32, c: u32)
    requires
        can_shift(b, a),
        clock_seconds(b) + a + c <= u32::MAX,
    ensures
        can_shift(shifted(b, a as int), c),
        shifted(shifted(b, a as int), c as int) == shifted(b, a + c),
{
    let t = clock_seconds(b) + a;
    assert(clock_seconds(b) >= 0);
    let once = shifted(b, a as int);
    lemma_clock_text_mod_day(t);
    lemma_clock_round_trip(t % 86400);
    assert(clock_text(t) == once.subrange(0, 6));
    assert forall|i: int| 0 <= i < 6 implies once[i] >= 48 by {
        assert(once[i] == clock_text(t % 86400)[i]);
    }
    assert(clock_seconds(once) == clock_seconds(clock_text(t % 86400)));
    assert(clock_seconds(once) == t % 86400);
    assert(once.subrange(6, once.len() as int) =~= b.subrange(6, b.len() as int));
    lemma_clock_text_mod_day(t % 86400 + c);
    lemma_clock_text_mod_day(t + c);
    assert((t % 86400 + c) % 86400 == (t + c) % 86400) by (nonlinear_arith)
        requires
            t >= 0,
            c >= 0,
    ;
}

} // verus!
