//! The text form of a quote: capture timestamp, accept time, issue code, then
//! the five best bids (5th to 1st) and asks (1st to 5th) as `qty@price`.

use vstd::prelude::*;

verus! {

/// Length of a KOSPI 200 quote packet.
pub const QUOTE_PACKET_LENGTH: usize = 215;

/// Where each of the five bid prices starts in a quote, in output order (5th to 1st).
pub open spec fn bid_price_starts() -> Seq<int> {
    Seq::new(5, |i: int| 77 - 12 * i)
}

/// Where each of the five ask prices starts in a quote, in output order (1st to 5th).
pub open spec fn ask_price_starts() -> Seq<int> {
    Seq::new(5, |i: int| 96 + 12 * i)
}

/// The ASCII digit for `d < 10`.
pub open spec fn digit(d: nat) -> u8 {
    (48 + d) as u8
}

/// The decimal digits of `n`, without leading zeros.
pub open spec fn decimal(n: nat) -> Seq<u8>
    decreases n,
{
    if n < 10 {
        seq![digit(n)]
    } else {
        decimal(n / 10).push(digit(n % 10))
    }
}

/// `s`, with ASCII zeros in front to make it at least six long.
pub open spec fn zero_padded6(s: Seq<u8>) -> Seq<u8> {
    if s.len() < 6 {
        Seq::new((6 - s.len()) as nat, |i: int| 48u8) + s
    } else {
        s
    }
}

/// `<seconds>.<microseconds, six digits at least> `.
pub open spec fn timestamp_text(ts_sec: u32, ts_usec: u32) -> Seq<u8> {
    decimal(ts_sec as nat) + seq![46u8] + zero_padded6(decimal(ts_usec as nat)) + seq![32u8]
}

/// ` <qty>@<price>` for the level whose 5-byte price starts at `price_start`;
/// its 7-byte quantity follows the price.
pub open spec fn level_text(p: Seq<u8>, price_start: int) -> Seq<u8> {
    seq![32u8] + p.subrange(price_start + 5, price_start + 12) + seq![64u8] + p.subrange(
        price_start,
        price_start + 5,
    )
}

/// The levels whose prices start at `starts`, in that order.
pub open spec fn levels_text(p: Seq<u8>, starts: Seq<int>) -> Seq<u8>
    decreases starts.len(),
{
    if starts.len() == 0 {
        Seq::empty()
    } else {
        levels_text(p, starts.drop_last()) + level_text(p, starts.last())
    }
}

/// The text of a quote received at `ts_sec`.`ts_usec`: the timestamp, the
/// 8-byte accept time (bytes 206..214), the 12-byte issue code (bytes 5..17),
/// the bids from 5th to 1st and the asks from 1st to 5th.
pub open spec fn quote_text(ts_sec: u32, ts_usec: u32, p: Seq<u8>) -> Seq<u8> {
    timestamp_text(ts_sec, ts_usec) + p.subrange(206, 214) + seq![32u8] + p.subrange(5, 17)
        + levels_text(p, bid_price_starts()) + levels_text(p, ask_price_starts())
}

/// Appends the bytes of `src` to `out`.
pub fn append_bytes(out: &mut Vec<u8>, src: &[u8])
    ensures
        final(out)@ == old(out)@ + src@,
{
    let mut i: usize = 0;
    while i < src.len()
        invariant
            i <= src@.len(),
            out@ == old(out)@ + src@.subrange(0, i as int),
        decreases src@.len() - i,
    {
        out.push(src[i]);
        i += 1;
        proof {
            assert(src@.subrange(0, i as int) =~= src@.subrange(0, i - 1).push(src@[i - 1]));
        }
    }
    proof {
        assert(src@.subrange(0, src@.len() as int) =~= src@);
    }
}

/// Appends the decimal digits of `n`.
pub fn push_decimal(out: &mut Vec<u8>, n: u32)
    ensures
        final(out)@ == old(out)@ + decimal(n as nat),
    decreases n,
{
    if n >= 10 {
        push_decimal(out, n / 10);
    }
    out.push(48u8 + (n % 10) as u8);
    proof {
        if n >= 10 {
            assert(decimal(n as nat) == decimal((n / 10) as nat).push(digit((n % 10) as nat)));
        }
        assert(final(out)@ =~= old(out)@ + decimal(n as nat));
    }
}

/// The number of decimal digits of `n`.
pub fn decimal_len(n: u32) -> (r: usize)
    ensures
        r == decimal(n as nat).len(),
        r <= 10,
    decreases n,
{
    proof {
        reveal_with_fuel(pow10, 11);
        assert(pow10(10) == 10000000000nat);
        lemma_decimal_len_at_most(n as nat, 10);
    }
    if n < 10 {
        1
    } else {
        decimal_len(n / 10) + 1
    }
}

/// A number below 10^k has at most k digits.
proof fn lemma_decimal_len_at_most(n: nat, k: nat)
    requires
        n < pow10(k),
        k >= 1,
    ensures
        decimal(n).len() <= k,
    decreases n,
{
    if n >= 10 {
        assert(k >= 2) by {
            reveal_with_fuel(pow10, 2);
        }
        assert(pow10(k) == 10 * pow10((k - 1) as nat));
        assert(n / 10 < pow10((k - 1) as nat));
        lemma_decimal_len_at_most(n / 10, (k - 1) as nat);
    }
}

/// 10 to the power `k`.
pub open spec fn pow10(k: nat) -> nat
    decreases k,
{
    if k == 0 {
        1
    } else {
        10 * pow10((k - 1) as nat)
    }
}

/// The number that ASCII decimal digits spell, most significant first.
pub open spec fn digits_value(s: Seq<u8>) -> int
    decreases s.len(),
{
    if s.len() == 0 {
        0
    } else {
        digits_value(s.drop_last()) * 10 + (s.last() - 48)
    }
}

/// The digits of `n` are ASCII digits that spell `n`.
proof fn lemma_decimal_spells(n: nat)
    ensures
        decimal(n).len() >= 1,
        forall|i: int| 0 <= i < decimal(n).len() ==> 48 <= #[trigger] decimal(n)[i] <= 57,
        digits_value(decimal(n)) == n,
    decreases n,
{
    if n < 10 {
        assert(decimal(n).drop_last() =~= Seq::<u8>::empty());
        assert(decimal(n).last() == digit(n));
        assert(decimal(n).last() - 48 == n);
        assert(digits_value(decimal(n)) == digits_value(decimal(n).drop_last()) * 10 + (decimal(n).last() - 48));
    } else {
        lemma_decimal_spells(n / 10);
        let d = decimal(n);
        assert(d.drop_last() =~= decimal(n / 10));
        assert(d.last() == digit(n % 10));
        assert(d.last() - 48 == n % 10);
        assert(digits_value(d) == digits_value(d.drop_last()) * 10 + (d.last() - 48));
        assert(n == (n / 10) * 10 + n % 10);
        assert forall|i: int| 0 <= i < d.len() implies 48 <= #[trigger] d[i] <= 57 by {
            if i < d.len() - 1 {
                assert(d[i] == decimal(n / 10)[i]);
            }
        }
    }
}

/// Zeros spell 0.
proof fn lemma_zeros_spell_zero(k: nat)
    ensures
        digits_value(Seq::new(k, |i: int| 48u8)) == 0,
    decreases k,
{
    if k > 0 {
        assert(Seq::new(k, |i: int| 48u8).drop_last() =~= Seq::new((k - 1) as nat, |i: int| 48u8));
        lemma_zeros_spell_zero((k - 1) as nat);
    }
}

/// Leading zeros do not change what digits spell.
proof fn lemma_leading_zeros(k: nat, s: Seq<u8>)
    ensures
        digits_value(Seq::new(k, |i: int| 48u8) + s) == digits_value(s),
    decreases s.len(),
{
    let z = Seq::new(k, |i: int| 48u8);
    if s.len() == 0 {
        assert(z + s =~= z);
        lemma_zeros_spell_zero(k);
    } else {
        assert((z + s).drop_last() =~= z + s.drop_last());
        lemma_leading_zeros(k, s.drop_last());
    }
}

/// The line of a quote starts with its capture timestamp, written so that it
/// reads back: the seconds in decimal digits that spell `ts_sec`, a `.`, then
/// at least six digits that spell `ts_usec` (with leading zeros) and a space;
/// for microseconds below one million, exactly six.
pub proof fn lemma_timestamp_reads_back(ts_sec: u32, ts_usec: u32, p: Seq<u8>)
    requires
        p.len() >= 214,
    ensures
        ({
            let t = quote_text(ts_sec, ts_usec, p);
            let k = decimal(ts_sec as nat).len() as int;
            &&& 0 < k
            &&& k + 8 <= t.len()
            &&& forall|i: int| 0 <= i < k ==> 48 <= #[trigger] t[i] <= 57
            &&& digits_value(t.subrange(0, k)) == ts_sec
            &&& t[k] == 46
            &&& {
                let w = zero_padded6(decimal(ts_usec as nat)).len() as int;
                &&& w >= 6
                &&& k + 2 + w <= t.len()
                &&& t[k + 1 + w] == 32
                &&& forall|i: int| k < i < k + 1 + w ==> 48 <= #[trigger] t[i] <= 57
                &&& digits_value(t.subrange(k + 1, k + 1 + w)) == ts_usec
            }
            &&& ts_usec < 1000000 ==> {
                &&& t[k + 7] == 32
                &&& forall|i: int| k < i < k + 7 ==> 48 <= #[trigger] t[i] <= 57
                &&& (t[k + 1] - 48) * 100000 + (t[k + 2] - 48) * 10000 + (t[k + 3] - 48) * 1000 + (t[k
                    + 4] - 48) * 100 + (t[k + 5] - 48) * 10 + (t[k + 6] - 48) == ts_usec
            }
        }),
{
    let t = quote_text(ts_sec, ts_usec, p);
    let ds = decimal(ts_sec as nat);
    let du = decimal(ts_usec as nat);
    let k = ds.len() as int;
    lemma_decimal_spells(ts_sec as nat);
    lemma_decimal_spells(ts_usec as nat);
    let z = zero_padded6(du);
    let ts = timestamp_text(ts_sec, ts_usec);
    assert(ts =~= ds + seq![46u8] + z + seq![32u8]);
    assert(z.len() >= 6);
    assert forall|i: int| 0 <= i < ts.len() implies #[trigger] t[i] == ts[i] by {}
    assert forall|i: int| 0 <= i < k implies t[i] == ds[i] by {
        assert(ts[i] == ds[i]);
    }
    assert(t.subrange(0, k) =~= ds);
    assert(t[k] == ts[k]);
    let w = z.len() as int;
    assert forall|i: int| 0 <= i < w implies 48 <= #[trigger] z[i] <= 57 by {
        if du.len() < 6 && i < 6 - du.len() {
        } else if du.len() < 6 {
            assert(z[i] == du[i - (6 - du.len())]);
        }
    }
    if du.len() < 6 {
        lemma_leading_zeros((6 - du.len()) as nat, du);
    }
    assert(digits_value(z) == ts_usec);
    assert(t.subrange(k + 1, k + 1 + w) =~= z) by {
        assert forall|i: int| 0 <= i < w implies t[k + 1 + i] == z[i] by {
            assert(ts[k + 1 + i] == z[i]);
        }
    }
    assert(t[k + 1 + w] == ts[k + 1 + w]);
    assert forall|i: int| k < i < k + 1 + w implies 48 <= #[trigger] t[i] <= 57 by {
        assert(t[i] == ts[i]);
        assert(ts[i] == z[i - k - 1]);
    }
    if ts_usec < 1000000 {
        reveal_with_fuel(pow10, 7);
        lemma_decimal_len_at_most(ts_usec as nat, 6);
        assert(z.len() == 6);
        assert forall|i: int| 0 <= i < 6 implies 48 <= #[trigger] z[i] <= 57 by {
            if i < 6 - du.len() {
            } else {
                assert(z[i] == du[i - (6 - du.len())]);
            }
        }
        lemma_leading_zeros((6 - du.len()) as nat, du);
        assert(digits_value(z) == ts_usec);
        assert forall|i: int| 0 <= i < 6 implies t[k + 1 + i] == #[trigger] z[i] by {
            assert(ts[k + 1 + i] == z[i]);
        }
        assert(t[k + 7] == ts[k + 7]);
        assert(digits_value(z) == (z[0] - 48) * 100000 + (z[1] - 48) * 10000 + (z[2] - 48) * 1000
            + (z[3] - 48) * 100 + (z[4] - 48) * 10 + (z[5] - 48)) by {
            reveal_with_fuel(digits_value, 7);
            assert(z.drop_last().drop_last().drop_last().drop_last().drop_last().drop_last().len() == 0);
        }
        assert(t[k + 1] == z[0] && t[k + 2] == z[1] && t[k + 3] == z[2]);
        assert(t[k + 4] == z[3] && t[k + 5] == z[4] && t[k + 6] == z[5]);
        assert forall|i: int| k < i < k + 7 implies 48 <= #[trigger] t[i] <= 57 by {
            assert(t[i] == z[i - k - 1]);
        }
    }
}

/// Appends `<ts_sec>.<ts_usec, zero-padded to six digits> `.
pub fn push_timestamp(out: &mut Vec<u8>, ts_sec: u32, ts_usec: u32)
    ensures
        final(out)@ == old(out)@ + timestamp_text(ts_sec, ts_usec),
{
    push_decimal(out, ts_sec);
    out.push(46u8);
    let width = decimal_len(ts_usec);
    let ghost mid = out@;
    let mut pad: usize = 0;
    while width + pad < 6
        invariant
            width <= 10,
            out@ == mid + Seq::new(pad as nat, |i: int| 48u8),
            width + pad <= 6 || pad == 0,
        decreases 6 - width - pad,
    {
        out.push(48u8);
        pad += 1;
        proof {
            assert(out@ =~= mid + Seq::new(pad as nat, |i: int| 48u8));
        }
    }
    let ghost padded = out@;
    push_decimal(out, ts_usec);
    out.push(32u8);
    proof {
        let d = decimal(ts_usec as nat);
        if d.len() < 6 {
            assert(pad == 6 - d.len());
        } else {
            assert(pad == 0);
        }
        assert(final(out)@ =~= old(out)@ + timestamp_text(ts_sec, ts_usec));
    }
}


/// Appends ` <qty>@<price>` for the level whose price starts at `price_start`.
pub fn push_level(out: &mut Vec<u8>, p: &[u8], price_start: usize)
    requires
        price_start <= 144,
        price_start + 12 <= p@.len(),
    ensures
        final(out)@ == old(out)@ + level_text(p@, price_start as int),
{
    out.push(32u8);
    append_bytes(out, &p[price_start + 5..price_start + 12]);
    out.push(64u8);
    append_bytes(out, &p[price_start..price_start + 5]);
    proof {
        assert(final(out)@ =~= old(out)@ + level_text(p@, price_start as int));
    }
}

/// Appends the five bid levels (5th to 1st), then the five ask levels (1st to 5th).
pub fn push_book(out: &mut Vec<u8>, p: &[u8])
    requires
        p@.len() >= 156,
    ensures
        final(out)@ == old(out)@ + levels_text(p@, bid_price_starts()) + levels_text(
            p@,
            ask_price_starts(),
        ),
{
    let mut i: usize = 0;
    while i < 5
        invariant
            i <= 5,
            p@.len() >= 156,
            out@ == old(out)@ + levels_text(p@, bid_price_starts().take(i as int)),
        decreases 5 - i,
    {
        push_level(out, p, 77 - 12 * i);
        proof {
            let t = bid_price_starts().take(i + 1);
            assert(t.drop_last() =~= bid_price_starts().take(i as int));
        }
        i += 1;
    }
    assert(bid_price_starts().take(5) =~= bid_price_starts());
    let ghost mid = out@;
    let mut j: usize = 0;
    while j < 5
        invariant
            j <= 5,
            p@.len() >= 156,
            out@ == mid + levels_text(p@, ask_price_starts().take(j as int)),
        decreases 5 - j,
    {
        push_level(out, p, 96 + 12 * j);
        proof {
            let t = ask_price_starts().take(j + 1);
            assert(t.drop_last() =~= ask_price_starts().take(j as int));
        }
        j += 1;
    }
    assert(ask_price_starts().take(5) =~= ask_price_starts());
}

} // verus!
