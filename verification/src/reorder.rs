//! The reorder buffer: a binary min-heap of packets ordered by exchange accept
//! time, then by network arrival time, then by a tie-breaker.

use vstd::multiset::Multiset;
use vstd::prelude::*;

verus! {

broadcast use {vstd::seq_lib::group_to_multiset_ensures, vstd::multiset::group_multiset_axioms};

/// An item of the reorder buffer. Items are ordered by the exchange's accept
/// time (wall clock), on equal accept times by network arrival time, and on
/// equal arrival times by a tie-breaker.
pub trait ReorderKey {
    spec fn spec_accept_key(&self) -> u64;

    spec fn spec_pkt_time(&self) -> u64;

    spec fn spec_tie(&self) -> u64;

    fn accept_key(&self) -> (r: u64)
        ensures
            r == self.spec_accept_key(),
    ;

    fn pkt_time(&self) -> (r: u64)
        ensures
            r == self.spec_pkt_time(),
    ;

    fn tie(&self) -> (r: u64)
        ensures
            r == self.spec_tie(),
    ;
}

/// `a` comes no later than `b`: by accept time, then by arrival time, then by
/// tie-breaker.
pub open spec fn key_le<T: ReorderKey>(a: T, b: T) -> bool {
    ||| a.spec_accept_key() < b.spec_accept_key()
    ||| (a.spec_accept_key() == b.spec_accept_key() && a.spec_pkt_time() < b.spec_pkt_time())
    ||| (a.spec_accept_key() == b.spec_accept_key() && a.spec_pkt_time() == b.spec_pkt_time()
        && a.spec_tie() <= b.spec_tie())
}

/// `x` is in `items` and comes no later than any of them.
pub open spec fn is_min<T: ReorderKey>(x: T, items: Multiset<T>) -> bool {
    &&& items.contains(x)
    &&& forall|y: T| items.contains(y) ==> key_le(x, y)
}

/// The items of `s` come in order.
pub open spec fn sorted<T: ReorderKey>(s: Seq<T>) -> bool {
    forall|i: int, j: int| 0 <= i <= j < s.len() ==> key_le(#[trigger] s[i], #[trigger] s[j])
}

/// Compares two items by accept time, then arrival time, then tie-breaker.
pub fn comes_first<T: ReorderKey>(a: &T, b: &T) -> (r: bool)
    ensures
        r == key_le(*a, *b),
{
    let ka = a.accept_key();
    let kb = b.accept_key();
    if ka != kb {
        return ka < kb;
    }
    let ta = a.pkt_time();
    let tb = b.pkt_time();
    if ta != tb {
        return ta < tb;
    }
    a.tie() <= b.tie()
}

/// No two different items of `items` compare equal.
pub open spec fn strict_on<T: ReorderKey>(items: Multiset<T>) -> bool {
    forall|x: T, y: T|
        #[trigger] items.contains(x) && #[trigger] items.contains(y) && key_le(x, y) && key_le(
            y,
            x,
        ) ==> x == y
}


/// How long a packet is held back: once the newest network time is this many
/// microseconds (3 s) past a packet's arrival, no packet that comes before it
/// is expected any more.
pub const MAX_DELAY_MICROSECONDS: u64 = 3000000;

/// The latest network time that a capture timestamp can give:
/// `u32::MAX` seconds and `u32::MAX` microseconds.
pub const MAX_PKT_TIME: u64 = 4294967299294967295;

/// A packet is due for release when the newest network time `now` is at least
/// `MAX_DELAY_MICROSECONDS` past its arrival.
pub open spec fn due<T: ReorderKey>(x: T, now: u64) -> bool {
    x.spec_pkt_time() + MAX_DELAY_MICROSECONDS <= now
}

/// One release of the reorder window at network time `now`: from the packets
/// `before`, the due packets that come first are released in order as
/// `released`, until the packet that comes first among those left
/// (`after`) is not due yet.
pub open spec fn release_step<T: ReorderKey>(
    before: Multiset<T>,
    now: u64,
    released: Seq<T>,
    after: Multiset<T>,
) -> bool {
    &&& before == after.add(released.to_multiset())
    &&& sorted(released)
    &&& forall|i: int| 0 <= i < released.len() ==> due(#[trigger] released[i], now)
    &&& forall|i: int, y: T|
        0 <= i < released.len() && #[trigger] after.contains(y) ==> key_le(#[trigger] released[i], y)
    &&& after.len() > 0 ==> exists|y: T| is_min(y, after) && !due(y, now)
}

/// The release of everything: all packets `before` leave in order.
pub open spec fn drain_step<T: ReorderKey>(before: Multiset<T>, released: Seq<T>) -> bool {
    &&& before == released.to_multiset()
    &&& sorted(released)
}


/// The newest network time among `packets` (0 when there are none).
pub open spec fn newest_time<T: ReorderKey>(packets: Seq<T>) -> u64
    decreases packets.len(),
{
    if packets.len() == 0 {
        0
    } else {
        let before = newest_time(packets.drop_last());
        if packets.last().spec_pkt_time() > before {
            packets.last().spec_pkt_time()
        } else {
            before
        }
    }
}

/// The packets of `batches`, one batch after the other.
pub open spec fn concat<T>(batches: Seq<Seq<T>>) -> Seq<T>
    decreases batches.len(),
{
    if batches.len() == 0 {
        Seq::empty()
    } else {
        concat(batches.drop_last()) + batches.last()
    }
}

/// The larger of two numbers.
pub open spec fn max_nat(a: nat, b: nat) -> nat {
    if a > b {
        a
    } else {
        b
    }
}

/// A run of the reorder window. The packets `arrived` come in one by one;
/// after the `i`-th arrives the window, which held `held[i]`, releases
/// `batches[i]` per `release_step` at the newest network time seen so far and
/// is left holding `held[i + 1]`. `peaks[i]` is the most it has held at once
/// after `i` arrivals.
pub open spec fn window_trace<T: ReorderKey>(
    arrived: Seq<T>,
    batches: Seq<Seq<T>>,
    held: Seq<Multiset<T>>,
    peaks: Seq<nat>,
) -> bool
    decreases arrived.len(),
{
    &&& batches.len() == arrived.len()
    &&& held.len() == arrived.len() + 1
    &&& peaks.len() == arrived.len() + 1
    &&& if arrived.len() == 0 {
        held[0].len() == 0 && peaks[0] == 0
    } else {
        let n = arrived.len() - 1;
        &&& window_trace(
            arrived.drop_last(),
            batches.drop_last(),
            held.drop_last(),
            peaks.drop_last(),
        )
        &&& release_step(held[n].insert(arrived[n]), newest_time(arrived), batches[n], held[n + 1])
        &&& peaks[n + 1] == max_nat(peaks[n], held[n].len() + 1)
    }
}

/// The reorder window, fed `arrived` and then drained at the end of the
/// stream, released `out`, holding at most `peak` packets at once.
pub open spec fn complete_run<T: ReorderKey>(arrived: Seq<T>, out: Seq<T>, peak: nat) -> bool {
    exists|batches: Seq<Seq<T>>, held: Seq<Multiset<T>>, peaks: Seq<nat>, rest: Seq<T>|
        #![trigger window_trace(arrived, batches, held, peaks), drain_step(held.last(), rest)]
        {
            &&& window_trace(arrived, batches, held, peaks)
            &&& drain_step(held.last(), rest)
            &&& out == concat(batches) + rest
            &&& peak == peaks.last()
        }
}

/// Along a run, what the window has released and what it holds are exactly
/// what arrived.
pub proof fn lemma_window_trace_conserves<T: ReorderKey>(
    arrived: Seq<T>,
    batches: Seq<Seq<T>>,
    held: Seq<Multiset<T>>,
    peaks: Seq<nat>,
)
    requires
        window_trace(arrived, batches, held, peaks),
    ensures
        arrived.to_multiset() == concat(batches).to_multiset().add(held.last()),
        arrived.len() == concat(batches).len() + held.last().len(),
    decreases arrived.len(),
{
    if arrived.len() == 0 {
        vstd::multiset::lemma_multiset_empty_len(held[0]);
        assert(arrived.to_multiset() =~= concat(batches).to_multiset().add(held.last()));
    } else {
        let n = arrived.len() - 1;
        lemma_window_trace_conserves(
            arrived.drop_last(),
            batches.drop_last(),
            held.drop_last(),
            peaks.drop_last(),
        );
        let a0 = arrived.drop_last();
        let b0 = batches.drop_last();
        assert(held.drop_last().last() == held[n]);
        assert(arrived =~= a0.push(arrived[n]));
        assert(arrived.to_multiset() == a0.to_multiset().insert(arrived[n]));
        assert(concat(batches) == concat(b0) + batches[n]);
        vstd::seq_lib::lemma_multiset_commutative(concat(b0), batches[n]);
        assert(concat(batches).to_multiset() == concat(b0).to_multiset().add(batches[n].to_multiset()));
        assert(held[n].insert(arrived[n]) == held[n + 1].add(batches[n].to_multiset()));
        let lhs = arrived.to_multiset();
        let rhs = concat(batches).to_multiset().add(held.last());
        assert forall|x: T| lhs.count(x) == rhs.count(x) by {
            assert(a0.to_multiset().count(x) == concat(b0).to_multiset().count(x) + held[n].count(x));
            assert(held[n].insert(arrived[n]).count(x) == held[n + 1].count(x) + batches[n].to_multiset().count(x));
        }
        assert(lhs =~= rhs);
        assert(lhs.len() == arrived.len());
        assert(concat(batches).to_multiset().len() == concat(batches).len());
        assert(rhs.len() == concat(batches).to_multiset().len() + held.last().len());
    }
}

/// Along a run, the window never holds more packets at once than have
/// arrived, and once one has arrived it has held at least one.
pub proof fn lemma_window_trace_peaks<T: ReorderKey>(
    arrived: Seq<T>,
    batches: Seq<Seq<T>>,
    held: Seq<Multiset<T>>,
    peaks: Seq<nat>,
)
    requires
        window_trace(arrived, batches, held, peaks),
    ensures
        peaks.last() <= arrived.len(),
        arrived.len() > 0 ==> peaks.last() >= 1,
    decreases arrived.len(),
{
    if arrived.len() > 0 {
        let n = arrived.len() - 1;
        lemma_window_trace_peaks(
            arrived.drop_last(),
            batches.drop_last(),
            held.drop_last(),
            peaks.drop_last(),
        );
        lemma_window_trace_conserves(
            arrived.drop_last(),
            batches.drop_last(),
            held.drop_last(),
            peaks.drop_last(),
        );
        assert(held.drop_last().last() == held[n]);
        assert(peaks.drop_last().last() == peaks[n]);
    }
}

/// A complete run holds at most as many packets at once as arrived, and at
/// least one when any arrived.
pub proof fn lemma_complete_run_peak<T: ReorderKey>(arrived: Seq<T>, out: Seq<T>, peak: nat)
    requires
        complete_run(arrived, out, peak),
    ensures
        peak <= arrived.len(),
        arrived.len() > 0 ==> peak >= 1,
{
    let (batches, held, peaks, rest) = choose|
        batches: Seq<Seq<T>>,
        held: Seq<Multiset<T>>,
        peaks: Seq<nat>,
        rest: Seq<T>,
    |
        #![trigger window_trace(arrived, batches, held, peaks), drain_step(held.last(), rest)]
        {
            &&& window_trace(arrived, batches, held, peaks)
            &&& drain_step(held.last(), rest)
            &&& out == concat(batches) + rest
            &&& peak == peaks.last()
        };
    lemma_window_trace_peaks(arrived, batches, held, peaks);
}

/// Fed and drained, the reorder window releases every packet that arrived,
/// each exactly once.
pub proof fn lemma_complete_run_is_permutation<T: ReorderKey>(
    arrived: Seq<T>,
    out: Seq<T>,
    peak: nat,
)
    requires
        complete_run(arrived, out, peak),
    ensures
        arrived.to_multiset() == out.to_multiset(),
        arrived.len() == out.len(),
{
    let (batches, held, peaks, rest) = choose|
        batches: Seq<Seq<T>>,
        held: Seq<Multiset<T>>,
        peaks: Seq<nat>,
        rest: Seq<T>,
    |
        #![trigger window_trace(arrived, batches, held, peaks), drain_step(held.last(), rest)]
        {
            &&& window_trace(arrived, batches, held, peaks)
            &&& drain_step(held.last(), rest)
            &&& out == concat(batches) + rest
            &&& peak == peaks.last()
        };
    lemma_window_trace_conserves(arrived, batches, held, peaks);
    vstd::seq_lib::lemma_multiset_commutative(concat(batches), rest);
    assert(arrived.to_multiset() =~= out.to_multiset());
}


/// `a` comes no later than `b` by accept time, then by arrival time (the
/// tie-breaker aside).
pub open spec fn time_le<T: ReorderKey>(a: T, b: T) -> bool {
    ||| a.spec_accept_key() < b.spec_accept_key()
    ||| (a.spec_accept_key() == b.spec_accept_key() && a.spec_pkt_time() <= b.spec_pkt_time())
}

/// The items of `s` come in accept-time order, then arrival-time order.
pub open spec fn in_time_order<T: ReorderKey>(s: Seq<T>) -> bool {
    forall|i: int, j: int| 0 <= i <= j < s.len() ==> time_le(#[trigger] s[i], #[trigger] s[j])
}

/// No packet arrives too late for the window, by accept and arrival time:
/// whenever a packet comes strictly before one that arrived earlier, the
/// earlier one has not yet waited its 3 s of network time when the later one
/// arrives.
pub open spec fn arrives_in_window<T: ReorderKey>(arrived: Seq<T>) -> bool {
    forall|i: int, j: int|
        0 <= i < j < arrived.len() ==> time_le(#[trigger] arrived[i], #[trigger] arrived[j])
            || arrived[i].spec_pkt_time() + MAX_DELAY_MICROSECONDS > newest_time(arrived.take(j))
}

/// No packet arrives too late for the window: whenever a packet comes before
/// one that arrived earlier, the earlier one has not yet waited its 3 s of
/// network time when the later one arrives.
pub open spec fn no_late_arrival<T: ReorderKey>(arrived: Seq<T>) -> bool {
    forall|i: int, j: int|
        0 <= i < j < arrived.len() ==> key_le(#[trigger] arrived[i], #[trigger] arrived[j])
            || arrived[i].spec_pkt_time() + MAX_DELAY_MICROSECONDS > newest_time(arrived.take(j))
}

proof fn lemma_trace_in_order<T: ReorderKey>(
    arrived: Seq<T>,
    batches: Seq<Seq<T>>,
    held: Seq<Multiset<T>>,
    peaks: Seq<nat>,
)
    requires
        window_trace(arrived, batches, held, peaks),
        no_late_arrival(arrived),
    ensures
        sorted(concat(batches)),
        forall|i: int, y: T|
            0 <= i < concat(batches).len() && #[trigger] held.last().contains(y) ==> key_le(
                #[trigger] concat(batches)[i],
                y,
            ),
        forall|i: int|
            0 <= i < concat(batches).len() ==> due(
                #[trigger] concat(batches)[i],
                newest_time(arrived),
            ),
    decreases arrived.len(),
{
    if arrived.len() > 0 {
        let m = arrived.len() - 1;
        let a0 = arrived.drop_last();
        let b0 = batches.drop_last();
        let h0 = held.drop_last();
        let new = arrived[m];
        assert forall|i: int, j: int|
            0 <= i < j < a0.len() implies key_le(#[trigger] a0[i], #[trigger] a0[j])
                || a0[i].spec_pkt_time() + MAX_DELAY_MICROSECONDS > newest_time(a0.take(j)) by {
            assert(a0.take(j) =~= arrived.take(j));
            assert(a0[i] == arrived[i] && a0[j] == arrived[j]);
        }
        lemma_trace_in_order(a0, b0, h0, peaks.drop_last());
        lemma_window_trace_conserves(a0, b0, h0, peaks.drop_last());
        let c0 = concat(b0);
        let b = batches[m];
        assert(h0.last() == held[m]);
        assert(concat(batches) == c0 + b);
        assert(arrived.take(m) =~= a0);
        assert(newest_time(arrived) >= newest_time(a0)) by {
            assert(arrived.drop_last() == a0);
        }
        // every packet released so far comes no later than the new one
        assert forall|i: int| 0 <= i < c0.len() implies key_le(#[trigger] c0[i], new) by {
            let x = c0[i];
            assert(c0.contains(x));
            assert(c0.to_multiset().count(x) > 0);
            assert(a0.to_multiset().count(x) > 0);
            assert(a0.contains(x));
            let k = choose|k: int| 0 <= k < a0.len() && a0[k] == x;
            assert(arrived[k] == x);
            assert(key_le(arrived[k], arrived[m]) || arrived[k].spec_pkt_time()
                + MAX_DELAY_MICROSECONDS > newest_time(arrived.take(m)));
        }
        // ...and no later than anything the new batch takes from the window
        assert forall|i: int, y: T|
            0 <= i < c0.len() && #[trigger] held[m].insert(new).contains(y) implies key_le(
                #[trigger] c0[i],
                y,
            ) by {
            if y != new {
                assert(held[m].contains(y));
            }
        }
        let c = concat(batches);
        assert forall|i: int, j: int| 0 <= i <= j < c.len() implies key_le(
            #[trigger] c[i],
            #[trigger] c[j],
        ) by {
            if j < c0.len() {
                assert(c[i] == c0[i] && c[j] == c0[j]);
            } else if i < c0.len() {
                let y = b[j - c0.len()];
                assert(c[j] == y);
                assert(c[i] == c0[i]);
                assert(b.contains(y));
                assert(b.to_multiset().count(y) > 0);
                assert(held[m].insert(new).contains(y));
            } else {
                assert(c[i] == b[i - c0.len()] && c[j] == b[j - c0.len()]);
            }
        }
        assert forall|i: int, y: T|
            0 <= i < c.len() && #[trigger] held.last().contains(y) implies key_le(#[trigger] c[i], y) by {
            assert(held[m].insert(new).contains(y));
            if i < c0.len() {
                assert(c[i] == c0[i]);
            } else {
                assert(c[i] == b[i - c0.len()]);
            }
        }
        assert forall|i: int| 0 <= i < c.len() implies due(#[trigger] c[i], newest_time(arrived)) by {
            if i < c0.len() {
                assert(c[i] == c0[i]);
            } else {
                assert(c[i] == b[i - c0.len()]);
            }
        }
    }
}

/// When no packet arrives too late for the window, the reorder window
/// releases every packet in order: by accept time, then arrival time.
pub proof fn lemma_complete_run_sorted<T: ReorderKey>(arrived: Seq<T>, out: Seq<T>, peak: nat)
    requires
        complete_run(arrived, out, peak),
        no_late_arrival(arrived),
    ensures
        sorted(out),
{
    let (batches, held, peaks, rest) = choose|
        batches: Seq<Seq<T>>,
        held: Seq<Multiset<T>>,
        peaks: Seq<nat>,
        rest: Seq<T>,
    |
        #![trigger window_trace(arrived, batches, held, peaks), drain_step(held.last(), rest)]
        {
            &&& window_trace(arrived, batches, held, peaks)
            &&& drain_step(held.last(), rest)
            &&& out == concat(batches) + rest
            &&& peak == peaks.last()
        };
    lemma_trace_in_order(arrived, batches, held, peaks);
    let c = concat(batches);
    assert forall|i: int, j: int| 0 <= i <= j < out.len() implies key_le(
        #[trigger] out[i],
        #[trigger] out[j],
    ) by {
        if j < c.len() {
            assert(out[i] == c[i] && out[j] == c[j]);
        } else if i < c.len() {
            let y = rest[j - c.len()];
            assert(out[j] == y && out[i] == c[i]);
            assert(rest.contains(y));
            assert(rest.to_multiset().count(y) > 0);
            assert(held.last().contains(y));
        } else {
            assert(out[i] == rest[i - c.len()] && out[j] == rest[j - c.len()]);
        }
    }
}

/// The first packet of a release comes first among all the packets it was
/// released from.
proof fn lemma_first_released_is_min<T: ReorderKey>(
    before: Multiset<T>,
    now: u64,
    released: Seq<T>,
    after: Multiset<T>,
)
    requires
        release_step(before, now, released, after),
        released.len() > 0,
    ensures
        is_min(released[0], before),
{
    let x = released[0];
    assert(released.contains(x));
    assert(released.to_multiset().count(x) > 0);
    assert forall|y: T| before.contains(y) implies key_le(x, y) by {
        if !after.contains(y) {
            assert(released.to_multiset().contains(y));
            assert(released.contains(y));
            let k = choose|k: int| 0 <= k < released.len() && released[k] == y;
            assert(key_le(released[0], released[k]));
        }
    }
}

/// What is left after a release that takes its first packet off.
proof fn lemma_release_rest<T: ReorderKey>(
    before: Multiset<T>,
    now: u64,
    released: Seq<T>,
    after: Multiset<T>,
)
    requires
        release_step(before, now, released, after),
        released.len() > 0,
    ensures
        release_step(before.remove(released[0]), now, released.drop_first(), after),
{
    let x = released[0];
    let rest = released.drop_first();
    assert(rest =~= released.remove(0));
    assert(rest.to_multiset() == released.to_multiset().remove(x));
    assert(released.to_multiset().count(x) > 0);
    assert(before.remove(x) =~= after.add(rest.to_multiset()));
    assert forall|i: int, j: int| 0 <= i <= j < rest.len() implies key_le(
        #[trigger] rest[i],
        #[trigger] rest[j],
    ) by {
        assert(rest[i] == released[i + 1] && rest[j] == released[j + 1]);
    }
    assert forall|i: int| 0 <= i < rest.len() implies due(#[trigger] rest[i], now) by {
        assert(rest[i] == released[i + 1]);
    }
    assert forall|i: int, y: T|
        0 <= i < rest.len() && #[trigger] after.contains(y) implies key_le(#[trigger] rest[i], y) by {
        assert(rest[i] == released[i + 1]);
    }
}

/// On packets that the order keeps apart, a release is determined by what it
/// is released from and the time: two releases from the same packets at the
/// same time release the same packets in the same order and leave the same
/// packets behind.
pub proof fn lemma_release_step_unique<T: ReorderKey>(
    before: Multiset<T>,
    now: u64,
    released1: Seq<T>,
    after1: Multiset<T>,
    released2: Seq<T>,
    after2: Multiset<T>,
)
    requires
        strict_on(before),
        release_step(before, now, released1, after1),
        release_step(before, now, released2, after2),
    ensures
        released1 == released2,
        after1 == after2,
    decreases released1.len(),
{
    if released1.len() == 0 && released2.len() == 0 {
        assert(before =~= after1);
        assert(before =~= after2);
        assert(released1 =~= released2);
    } else if released1.len() == 0 || released2.len() == 0 {
        // the one that releases nothing leaves its first packet, which is not
        // due, while the other releases that same packet, which is due
        let (r, a, other, other_after) = if released1.len() == 0 {
            (released2, after2, released1, after1)
        } else {
            (released1, after1, released2, after2)
        };
        lemma_first_released_is_min(before, now, r, a);
        assert(before =~= other_after);
        assert(other_after.len() > 0) by {
            assert(before.contains(r[0]));
        }
        let y = choose|y: T| is_min(y, other_after) && !due(y, now);
        assert(key_le(r[0], y) && key_le(y, r[0]));
        assert(before.contains(y) && before.contains(r[0]));
        assert(r.contains(r[0]));
        assert(due(r[0], now));
    } else {
        lemma_first_released_is_min(before, now, released1, after1);
        lemma_first_released_is_min(before, now, released2, after2);
        let x = released1[0];
        assert(key_le(x, released2[0]) && key_le(released2[0], x));
        assert(x == released2[0]);
        lemma_release_rest(before, now, released1, after1);
        lemma_release_rest(before, now, released2, after2);
        let rest = before.remove(x);
        assert forall|a: T, b: T|
            #[trigger] rest.contains(a) && #[trigger] rest.contains(b) && key_le(a, b) && key_le(
                b,
                a,
            ) implies a == b by {
            assert(before.contains(a) && before.contains(b));
        }
        lemma_release_step_unique(
            rest,
            now,
            released1.drop_first(),
            after1,
            released2.drop_first(),
            after2,
        );
        assert(released1 =~= seq![x] + released1.drop_first());
        assert(released2 =~= seq![x] + released2.drop_first());
    }
}

/// On packets that the order keeps apart, draining releases them in one
/// order only.
pub proof fn lemma_drain_step_unique<T: ReorderKey>(
    before: Multiset<T>,
    released1: Seq<T>,
    released2: Seq<T>,
)
    requires
        strict_on(before),
        drain_step(before, released1),
        drain_step(before, released2),
    ensures
        released1 == released2,
    decreases released1.len(),
{
    if released1.len() == 0 {
        assert(released2.to_multiset().len() == 0);
        assert(released1 =~= released2);
    } else {
        assert(released2.len() == released1.len()) by {
            assert(released1.to_multiset().len() == released2.to_multiset().len());
        }
        let x1 = released1[0];
        let x2 = released2[0];
        assert(released1.contains(x1) && released2.contains(x2));
        assert(released1.to_multiset().count(x1) > 0 && released2.to_multiset().count(x2) > 0);
        assert(before.contains(x1) && before.contains(x2));
        assert(key_le(x1, x2)) by {
            assert(released1.to_multiset().contains(x2));
            assert(released1.contains(x2));
            let k = choose|k: int| 0 <= k < released1.len() && released1[k] == x2;
            assert(key_le(released1[0], released1[k]));
        }
        assert(key_le(x2, x1)) by {
            assert(released2.to_multiset().contains(x1));
            assert(released2.contains(x1));
            let k = choose|k: int| 0 <= k < released2.len() && released2[k] == x1;
            assert(key_le(released2[0], released2[k]));
        }
        assert(x1 == x2);
        let r1 = released1.drop_first();
        let r2 = released2.drop_first();
        assert(r1 =~= released1.remove(0));
        assert(r2 =~= released2.remove(0));
        let rest = before.remove(x1);
        assert(r1.to_multiset() == rest);
        assert(r2.to_multiset() == rest);
        assert forall|i: int, j: int| 0 <= i <= j < r1.len() implies key_le(
            #[trigger] r1[i],
            #[trigger] r1[j],
        ) by {
            assert(r1[i] == released1[i + 1] && r1[j] == released1[j + 1]);
        }
        assert forall|i: int, j: int| 0 <= i <= j < r2.len() implies key_le(
            #[trigger] r2[i],
            #[trigger] r2[j],
        ) by {
            assert(r2[i] == released2[i + 1] && r2[j] == released2[j + 1]);
        }
        assert forall|a: T, b: T|
            #[trigger] rest.contains(a) && #[trigger] rest.contains(b) && key_le(a, b) && key_le(
                b,
                a,
            ) implies a == b by {
            assert(before.contains(a) && before.contains(b));
        }
        lemma_drain_step_unique(rest, r1, r2);
        assert(released1 =~= seq![x1] + r1);
        assert(released2 =~= seq![x1] + r2);
    }
}

/// On packets that the order keeps apart, a run of the window is determined
/// by what arrives.
pub proof fn lemma_window_trace_unique<T: ReorderKey>(
    arrived: Seq<T>,
    batches1: Seq<Seq<T>>,
    held1: Seq<Multiset<T>>,
    peaks1: Seq<nat>,
    batches2: Seq<Seq<T>>,
    held2: Seq<Multiset<T>>,
    peaks2: Seq<nat>,
)
    requires
        strict_on(arrived.to_multiset()),
        window_trace(arrived, batches1, held1, peaks1),
        window_trace(arrived, batches2, held2, peaks2),
    ensures
        batches1 == batches2,
        held1 == held2,
        peaks1 == peaks2,
    decreases arrived.len(),
{
    if arrived.len() == 0 {
        vstd::multiset::lemma_multiset_empty_len(held1[0]);
        vstd::multiset::lemma_multiset_empty_len(held2[0]);
        assert(batches1 =~= batches2);
        assert(held1 =~= held2);
        assert(peaks1 =~= peaks2);
    } else {
        let n = arrived.len() - 1;
        let a0 = arrived.drop_last();
        assert forall|x: T, y: T|
            #[trigger] a0.to_multiset().contains(x) && #[trigger] a0.to_multiset().contains(y)
                && key_le(x, y) && key_le(y, x) implies x == y by {
            assert(a0.to_multiset().count(x) > 0 && a0.to_multiset().count(y) > 0);
            assert(a0.contains(x) && a0.contains(y));
            let i = choose|i: int| 0 <= i < a0.len() && a0[i] == x;
            let j = choose|j: int| 0 <= j < a0.len() && a0[j] == y;
            assert(arrived[i] == x && arrived[j] == y);
            assert(arrived.contains(x) && arrived.contains(y));
            assert(arrived.to_multiset().contains(x) && arrived.to_multiset().contains(y));
        }
        lemma_window_trace_unique(
            a0,
            batches1.drop_last(),
            held1.drop_last(),
            peaks1.drop_last(),
            batches2.drop_last(),
            held2.drop_last(),
            peaks2.drop_last(),
        );
        lemma_window_trace_conserves(
            a0,
            batches1.drop_last(),
            held1.drop_last(),
            peaks1.drop_last(),
        );
        assert(held1.drop_last().last() == held1[n]);
        assert(held2[n] == held2.drop_last()[n]);
        assert(held1[n] == held2[n]);
        let before = held1[n].insert(arrived[n]);
        assert forall|x: T, y: T|
            #[trigger] before.contains(x) && #[trigger] before.contains(y) && key_le(x, y)
                && key_le(y, x) implies x == y by {
            assert forall|z: T| #[trigger] before.contains(z) implies arrived.contains(z) by {
                if z != arrived[n] {
                    assert(held1[n].contains(z));
                    assert(a0.to_multiset().count(z) > 0);
                    assert(a0.contains(z));
                    let i = choose|i: int| 0 <= i < a0.len() && a0[i] == z;
                    assert(arrived[i] == z);
                }
            }
            assert(arrived.contains(x) && arrived.contains(y));
            assert(arrived.to_multiset().contains(x) && arrived.to_multiset().contains(y));
        }
        lemma_release_step_unique(
            before,
            newest_time(arrived),
            batches1[n],
            held1[n + 1],
            batches2[n],
            held2[n + 1],
        );
        assert(batches1 =~= batches1.drop_last().push(batches1[n]));
        assert(batches2 =~= batches2.drop_last().push(batches2[n]));
        assert(held1 =~= held1.drop_last().push(held1[n + 1]));
        assert(held2 =~= held2.drop_last().push(held2[n + 1]));
        assert(peaks1 =~= peaks1.drop_last().push(peaks1[n + 1]));
        assert(peaks2 =~= peaks2.drop_last().push(peaks2[n + 1]));
        assert(peaks1.drop_last()[n] == peaks1[n]);
        assert(peaks2.drop_last()[n] == peaks2[n]);
    }
}

/// On packets that the order keeps apart, the window fed the same packets
/// releases them in the same order and holds at most as many at once: a
/// complete run is determined by what arrives.
pub proof fn lemma_complete_run_unique<T: ReorderKey>(
    arrived: Seq<T>,
    out1: Seq<T>,
    peak1: nat,
    out2: Seq<T>,
    peak2: nat,
)
    requires
        strict_on(arrived.to_multiset()),
        complete_run(arrived, out1, peak1),
        complete_run(arrived, out2, peak2),
    ensures
        out1 == out2,
        peak1 == peak2,
{
    let (batches1, held1, peaks1, rest1) = choose|
        batches: Seq<Seq<T>>,
        held: Seq<Multiset<T>>,
        peaks: Seq<nat>,
        rest: Seq<T>,
    |
        #![trigger window_trace(arrived, batches, held, peaks), drain_step(held.last(), rest)]
        {
            &&& window_trace(arrived, batches, held, peaks)
            &&& drain_step(held.last(), rest)
            &&& out1 == concat(batches) + rest
            &&& peak1 == peaks.last()
        };
    let (batches2, held2, peaks2, rest2) = choose|
        batches: Seq<Seq<T>>,
        held: Seq<Multiset<T>>,
        peaks: Seq<nat>,
        rest: Seq<T>,
    |
        #![trigger window_trace(arrived, batches, held, peaks), drain_step(held.last(), rest)]
        {
            &&& window_trace(arrived, batches, held, peaks)
            &&& drain_step(held.last(), rest)
            &&& out2 == concat(batches) + rest
            &&& peak2 == peaks.last()
        };
    lemma_window_trace_unique(arrived, batches1, held1, peaks1, batches2, held2, peaks2);
    lemma_window_trace_conserves(arrived, batches1, held1, peaks1);
    let last = held1.last();
    assert forall|x: T, y: T|
        #[trigger] last.contains(x) && #[trigger] last.contains(y) && key_le(x, y) && key_le(
            y,
            x,
        ) implies x == y by {
        assert(arrived.to_multiset().contains(x) && arrived.to_multiset().contains(y));
    }
    lemma_drain_step_unique(last, rest1, rest2);
}

/// The edge from the parent of node `i` to node `i` is ordered.
spec fn edge_ok<T: ReorderKey>(s: Seq<T>, i: int) -> bool {
    key_le(s[(i - 1) / 2], s[i])
}

spec fn heap_ordered<T: ReorderKey>(s: Seq<T>) -> bool {
    forall|i: int| 0 < i < s.len() ==> #[trigger] edge_ok(s, i)
}

proof fn lemma_root_le<T: ReorderKey>(s: Seq<T>, i: int)
    requires
        heap_ordered(s),
        0 <= i < s.len(),
    ensures
        key_le(s[0], s[i]),
    decreases i,
{
    if i > 0 {
        assert(edge_ok(s, i));
        lemma_root_le(s, (i - 1) / 2);
    }
}

proof fn lemma_root_is_min<T: ReorderKey>(s: Seq<T>)
    requires
        heap_ordered(s),
        s.len() > 0,
    ensures
        is_min(s[0], s.to_multiset()),
{
    assert(s.contains(s[0]));
    assert forall|y: T| s.to_multiset().contains(y) implies key_le(s[0], y) by {
        assert(s.contains(y));
        let i = choose|i: int| 0 <= i < s.len() && s[i] == y;
        lemma_root_le(s, i);
    }
}

fn swap_items<T: Copy>(v: &mut Vec<T>, i: usize, j: usize)
    requires
        i < old(v)@.len(),
        j < old(v)@.len(),
    ensures
        final(v)@ == old(v)@.update(i as int, old(v)@[j as int]).update(j as int, old(v)@[i as int]),
        final(v)@.to_multiset() == old(v)@.to_multiset(),
{
    let a = v[i];
    let b = v[j];
    let ghost s0 = v@;
    v.set(i, b);
    let ghost s1 = v@;
    v.set(j, a);
    proof {
        assert(s1.to_multiset() == s0.to_multiset().insert(b).remove(a));
        assert(v@.to_multiset() == s1.to_multiset().insert(a).remove(s1[j as int]));
        if i == j {
            assert(v@ =~= s0);
        } else {
            assert(s1[j as int] == b);
            assert(v@.to_multiset() =~= s0.to_multiset());
        }
    }
}

/// A min-heap of packets waiting in the reorder window.
pub struct ReorderHeap<T: ReorderKey + Copy> {
    items: Vec<T>,
}

impl<T: ReorderKey + Copy> View for ReorderHeap<T> {
    type V = Multiset<T>;

    /// The packets held.
    closed spec fn view(&self) -> Multiset<T> {
        self.items@.to_multiset()
    }
}

impl<T: ReorderKey + Copy> ReorderHeap<T> {
    #[verifier::type_invariant]
    spec fn ordered(self) -> bool {
        heap_ordered(self.items@)
    }

    /// An empty heap.
    pub fn new() -> (r: Self)
        ensures
            r@ == Multiset::<T>::empty(),
    {
        ReorderHeap { items: Vec::new() }
    }

    /// An empty heap with room for `capacity` packets before it reallocates.
    pub fn with_capacity(capacity: usize) -> (r: Self)
        ensures
            r@ == Multiset::<T>::empty(),
    {
        ReorderHeap { items: Vec::with_capacity(capacity) }
    }

    /// The number of packets held.
    pub fn len(&self) -> (n: usize)
        ensures
            n == self@.len(),
    {
        self.items.len()
    }

    /// A packet that comes first, or `None` when the heap is empty.
    pub fn peek(&self) -> (r: Option<&T>)
        ensures
            match r {
                Some(x) => is_min(*x, self@),
                None => self@.len() == 0,
            },
    {
        proof {
            use_type_invariant(self);
        }
        if self.items.len() == 0 {
            None
        } else {
            proof {
                lemma_root_is_min(self.items@);
            }
            Some(&self.items[0])
        }
    }

    /// Adds a packet.
    pub fn push(&mut self, item: T)
        ensures
            final(self)@ == old(self)@.insert(item),
    {
        proof {
            use_type_invariant(&*self);
        }
        let ghost before = self@;
        let mut v: Vec<T> = Vec::new();
        let ghost s0 = self.items@;
        std::mem::swap(&mut v, &mut self.items);
        v.push(item);
        proof {
            assert forall|i: int| 0 < i < v@.len() && i != v@.len() - 1 implies #[trigger] edge_ok(
                v@,
                i,
            ) by {
                assert(edge_ok(s0, i));
            }
        }
        let mut k = v.len() - 1;
        while k > 0
            invariant
                0 <= k < v@.len(),
                v@.to_multiset() == before.insert(item),
                forall|i: int| 0 < i < v@.len() && i != k ==> #[trigger] edge_ok(v@, i),
                k > 0 ==> forall|c: int|
                    0 < c < v@.len() && (c - 1) / 2 == k ==> key_le(
                        v@[(k - 1) / 2],
                        #[trigger] v@[c],
                    ),
            ensures
                v@.to_multiset() == before.insert(item),
                heap_ordered(v@),
            decreases k,
        {
            let p = (k - 1) / 2;
            if comes_first(&v[p], &v[k]) {
                assert(edge_ok(v@, k as int));
                break;
            }
            let ghost s = v@;
            swap_items(&mut v, p, k);
            proof {
                assert forall|i: int| 0 < i < v@.len() && i != p implies #[trigger] edge_ok(
                    v@,
                    i,
                ) by {
                    if i != k && (i - 1) / 2 != p && (i - 1) / 2 != k {
                        assert(edge_ok(s, i));
                    } else if i == k {
                    } else if (i - 1) / 2 == p {
                        assert(edge_ok(s, i));
                    } else {
                        assert(s[i] == v@[i]);
                    }
                }
                if p > 0 {
                    assert(edge_ok(s, p as int));
                    assert forall|c: int| 0 < c < v@.len() && (c - 1) / 2 == p implies key_le(
                        v@[(p - 1) / 2],
                        #[trigger] v@[c],
                    ) by {
                        if c != k {
                            assert(edge_ok(s, c));
                        }
                    }
                }
            }
            k = p;
        }
        self.items = v;
    }

    /// Removes and returns a packet that comes first, or `None` when the heap
    /// is empty.
    pub fn pop(&mut self) -> (r: Option<T>)
        ensures
            match r {
                Some(x) => is_min(x, old(self)@) && final(self)@ == old(self)@.remove(x),
                None => old(self)@.len() == 0 && final(self)@ == old(self)@,
            },
    {
        proof {
            use_type_invariant(&*self);
        }
        let ghost before = self@;
        let mut v: Vec<T> = Vec::new();
        std::mem::swap(&mut v, &mut self.items);
        if v.len() == 0 {
            self.items = v;
            return None;
        }
        let top = v[0];
        proof {
            lemma_root_is_min(v@);
        }
        let ghost s = v@;
        let last = v.pop().unwrap();
        proof {
            assert(s =~= v@.push(last));
        }
        if v.len() > 0 {
            let ghost s1 = v@;
            v.set(0, last);
            proof {
                assert(v@.to_multiset() == s1.to_multiset().insert(last).remove(top));
                assert(v@.to_multiset() =~= before.remove(top));
                assert forall|i: int| 0 < i < v@.len() && (i - 1) / 2 != 0 implies #[trigger] edge_ok(
                    v@,
                    i,
                ) by {
                    assert(edge_ok(s, i));
                }
            }
            Self::sift_down(&mut v);
        } else {
            proof {
                assert(v@.to_multiset() =~= before.remove(top));
            }
        }
        self.items = v;
        Some(top)
    }

    fn sift_down(v: &mut Vec<T>)
        requires
            old(v)@.len() > 0,
            forall|i: int| 0 < i < old(v)@.len() && (i - 1) / 2 != 0 ==> #[trigger] edge_ok(old(v)@, i),
        ensures
            final(v)@.to_multiset() == old(v)@.to_multiset(),
            heap_ordered(final(v)@),
    {
        let len = v.len();
        let mut k: usize = 0;
        loop
            invariant
                len == v@.len(),
                k < len,
                v@.to_multiset() == old(v)@.to_multiset(),
                forall|i: int| 0 < i < len && (i - 1) / 2 != k ==> #[trigger] edge_ok(v@, i),
                k > 0 ==> forall|c: int|
                    0 < c < len && (c - 1) / 2 == k ==> key_le(v@[(k - 1) / 2], #[trigger] v@[c]),
            ensures
                v@.to_multiset() == old(v)@.to_multiset(),
                heap_ordered(v@),
            decreases len - k,
        {
            if k >= len / 2 {
                assert forall|i: int| 0 < i < len implies #[trigger] edge_ok(v@, i) by {
                    assert((i - 1) / 2 != k);
                }
                break;
            }
            let l = 2 * k + 1;
            let r = l + 1;
            let m = if r < len && !comes_first(&v[l], &v[r]) {
                r
            } else {
                l
            };
            if comes_first(&v[k], &v[m]) {
                assert forall|i: int| 0 < i < len implies #[trigger] edge_ok(v@, i) by {
                    if (i - 1) / 2 == k {
                        assert(i == l || i == r);
                    }
                }
                break;
            }
            let ghost s = v@;
            swap_items(v, k, m);
            proof {
                assert forall|i: int| 0 < i < len && (i - 1) / 2 != m implies #[trigger] edge_ok(
                    v@,
                    i,
                ) by {
                    if i == m {
                    } else if i == k {
                        assert(key_le(s[(k - 1) / 2], s[m as int]));
                    } else if (i - 1) / 2 == k {
                        assert(i == l || i == r);
                    } else {
                        assert(edge_ok(s, i));
                        assert(i != k && i != m);
                        if (i - 1) / 2 == k {
                        }
                    }
                }
                assert forall|c: int| 0 < c < len && (c - 1) / 2 == m implies key_le(
                    v@[(m - 1) / 2],
                    #[trigger] v@[c],
                ) by {
                    assert(edge_ok(s, c));
                }
            }
            k = m;
        }
    }
}

} // verus!
