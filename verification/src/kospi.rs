//! Stateful parser and reorder buffer for the KOSPI 200 market data feed.
//!
//! Packets are copied into a slab of fixed-size slots; the reorder window
//! holds 24-byte sorting keys that point into the slab. A slot is returned to
//! the free list once its packet has been written out.

use vstd::multiset::Multiset;
use vstd::prelude::*;
use crate::format::{
    append_bytes, decimal, decimal_len, push_book, quote_text, zero_padded6, QUOTE_PACKET_LENGTH,
};
use crate::quote_parser::{
    ParseStats, capture_quotes, extract_quote, packet_texts, packet_views, pcap_output, read_u64_be,
    spec_accept_key, spec_extract_quote, spec_pkt_time, view_text, keyed, QuotePacket,
};
use crate::reorder::{complete_run, lemma_complete_run_is_permutation};
use crate::sources::DatagramView;
use crate::reorder::{
    arrives_in_window, drain_step, due, in_time_order, is_min, key_le, newest_time, release_step,
    sorted, time_le, ReorderHeap, ReorderKey, MAX_DELAY_MICROSECONDS, MAX_PKT_TIME,
};

verus! {

broadcast use {vstd::seq_lib::group_to_multiset_ensures, vstd::multiset::group_multiset_axioms};

/// The sorting key of a quote waiting in the reorder window.
///
/// Only the keys, a slab index and an arrival number (24 bytes) move when the
/// heap sifts, never the 215-byte payloads.
#[derive(Clone, Copy, PartialEq, Eq, Structural)]
pub struct HeapItem {
    /// The 8-byte exchange accept time (e.g. "09000123"), read big-endian.
    accept_key: u64,
    /// Network arrival time in microseconds.
    pkt_time: u64,
    /// Index of the slab slot that holds the quote.
    arena_idx: u32,
    /// How many quotes were parsed before this one, modulo 2^32: quotes with
    /// equal accept and arrival times leave in the order they came.
    arrival: u32,
}

impl HeapItem {
    /// The slab slot that holds the quote.
    pub closed spec fn slot(self) -> u32 {
        self.arena_idx
    }
}

impl ReorderKey for HeapItem {
    closed spec fn spec_accept_key(&self) -> u64 {
        self.accept_key
    }

    closed spec fn spec_pkt_time(&self) -> u64 {
        self.pkt_time
    }

    /// Quotes with equal accept and arrival times leave in the order they
    /// came.
    closed spec fn spec_tie(&self) -> u64 {
        self.arrival as u64
    }

    fn accept_key(&self) -> (r: u64) {
        self.accept_key
    }

    fn pkt_time(&self) -> (r: u64) {
        self.pkt_time
    }

    fn tie(&self) -> (r: u64) {
        self.arrival as u64
    }
}

/// A quote stored in a slab slot, with its capture timestamp (224 bytes).
pub struct QuoteData {
    ts_sec: u32,
    ts_usec: u32,
    payload: [u8; QUOTE_PACKET_LENGTH],
}

/// A stored quote as the model sees it: timestamp seconds, microseconds and
/// the 215 bytes of the packet.
pub type StoredQuote = (u32, u32, Seq<u8>);

impl View for QuoteData {
    type V = StoredQuote;

    closed spec fn view(&self) -> StoredQuote {
        (self.ts_sec, self.ts_usec, self.payload@)
    }
}

/// The output line of a stored quote.
pub open spec fn quote_line(q: StoredQuote) -> Seq<u8> {
    quote_text(q.0, q.1, q.2).push(10u8)
}

/// The output lines of the quotes of `items`, in order, as the slab `arena`
/// holds them.
pub open spec fn lines_of(arena: Seq<QuoteData>, items: Seq<HeapItem>) -> Seq<u8>
    decreases items.len(),
{
    if items.len() == 0 {
        Seq::empty()
    } else {
        lines_of(arena, items.drop_last()) + quote_line(arena[items.last().slot() as int]@)
    }
}

/// The stored quotes that the keys `items` point to in the slab `arena`.
pub open spec fn records_of(arena: Seq<QuoteData>, items: Seq<HeapItem>) -> Seq<StoredQuote> {
    items.map_values(|x: HeapItem| arena[x.slot() as int]@)
}

/// The accept time and the network arrival time of a stored quote.
pub open spec fn record_key(q: StoredQuote) -> (u64, u64) {
    (spec_accept_key(q.2), spec_pkt_time(q.0, q.1))
}

/// Stored quote `a` comes no later than `b`: by accept time, then by arrival
/// time.
pub open spec fn record_le(a: StoredQuote, b: StoredQuote) -> bool {
    ||| record_key(a).0 < record_key(b).0
    ||| (record_key(a).0 == record_key(b).0 && record_key(a).1 <= record_key(b).1)
}

/// The stored quotes come in accept-time order, then arrival-time order.
pub open spec fn in_record_order(quotes: Seq<StoredQuote>) -> bool {
    forall|i: int, j: int| 0 <= i <= j < quotes.len() ==> record_le(#[trigger] quotes[i], #[trigger] quotes[j])
}

/// Keys that are a permutation of each other point to stored quotes that are
/// a permutation of each other.
proof fn lemma_records_permutation(arena: Seq<QuoteData>, a: Seq<HeapItem>, b: Seq<HeapItem>)
    requires
        a.to_multiset() == b.to_multiset(),
    ensures
        records_of(arena, a).to_multiset() == records_of(arena, b).to_multiset(),
    decreases a.len(),
{
    if a.len() == 0 {
        assert(b.to_multiset().len() == 0);
        assert(b.len() == 0);
        assert(records_of(arena, a) =~= records_of(arena, b));
    } else {
        let x = a.last();
        assert(a.to_multiset().count(x) > 0);
        assert(b.contains(x));
        let k = choose|k: int| 0 <= k < b.len() && b[k] == x;
        let a0 = a.drop_last();
        let b0 = b.remove(k);
        assert(a =~= a0.push(x));
        assert(a0.to_multiset() =~= a.to_multiset().remove(x));
        assert(b0.to_multiset() =~= b.to_multiset().remove(x));
        lemma_records_permutation(arena, a0, b0);
        let r = arena[x.slot() as int]@;
        assert(records_of(arena, a) =~= records_of(arena, a0).push(r));
        assert(records_of(arena, b0) =~= records_of(arena, b).remove(k));
        assert(records_of(arena, b)[k] == r);
        assert(records_of(arena, b).contains(r));
        assert(records_of(arena, b).to_multiset().count(r) > 0);
        assert(records_of(arena, a).to_multiset() =~= records_of(arena, b).to_multiset());
    }
}

/// The output lines of stored quotes, one after the other.
pub open spec fn record_lines(quotes: Seq<StoredQuote>) -> Seq<u8>
    decreases quotes.len(),
{
    if quotes.len() == 0 {
        Seq::empty()
    } else {
        record_lines(quotes.drop_last()) + quote_line(quotes.last())
    }
}

/// The lines of quotes one after the other are the lines of the first ones
/// followed by those of the others.
pub proof fn lemma_record_lines_concat(a: Seq<StoredQuote>, b: Seq<StoredQuote>)
    ensures
        record_lines(a + b) == record_lines(a) + record_lines(b),
    decreases b.len(),
{
    if b.len() == 0 {
        assert(a + b =~= a);
        assert(record_lines(a) + record_lines(b) =~= record_lines(a));
    } else {
        lemma_record_lines_concat(a, b.drop_last());
        assert((a + b).drop_last() =~= a + b.drop_last());
        assert((a + b).last() == b.last());
        assert(record_lines(a) + record_lines(b) =~= record_lines(a) + record_lines(b.drop_last())
            + quote_line(b.last()));
    }
}

/// The lines of quotes that extend others are the lines of the first ones
/// followed by those of the rest.
pub proof fn lemma_record_lines_extend(before: Seq<StoredQuote>, after: Seq<StoredQuote>)
    requires
        before.len() <= after.len(),
        after.subrange(0, before.len() as int) == before,
    ensures
        record_lines(after) == record_lines(before) + record_lines(after.skip(before.len() as int)),
{
    assert(after =~= before + after.skip(before.len() as int));
    lemma_record_lines_concat(before, after.skip(before.len() as int));
}

/// The lines of the quotes that keys point to are the lines of their
/// stored quotes.
proof fn lemma_lines_of_records(arena: Seq<QuoteData>, items: Seq<HeapItem>)
    ensures
        lines_of(arena, items) == record_lines(records_of(arena, items)),
    decreases items.len(),
{
    if items.len() > 0 {
        lemma_lines_of_records(arena, items.drop_last());
        assert(records_of(arena, items).drop_last() =~= records_of(arena, items.drop_last()));
    }
}

/// Appends the decimal digits of `n` to `out`, as formatted by
/// `itoa::Buffer::format`.
///
/// Trusted: itoa documents `format` as printing the integer's decimal
/// representation; for an unsigned integer that is its digits, without sign or
/// leading zeros. The digits are copied onto the end of `out`.
#[verifier::external_body]
fn itoa_append(n: u32, out: &mut Vec<u8>)
    ensures
        final(out)@ == old(out)@ + decimal(n as nat),
{
    let mut buffer = itoa::Buffer::new();
    out.extend_from_slice(buffer.format(n).as_bytes());
}

/// Where `x` is in `items`.
spec fn position_of(items: Seq<HeapItem>, x: HeapItem) -> int {
    choose|k: int| 0 <= k < items.len() && items[k] == x
}

/// Moving a waiting quote to the written ones keeps the quotes accounted for.
proof fn lemma_move_record(done: Seq<StoredQuote>, waiting: Seq<StoredQuote>, k: int)
    requires
        0 <= k < waiting.len(),
    ensures
        (done.push(waiting[k]) + waiting.remove(k)).to_multiset() == (done + waiting).to_multiset(),
{
    vstd::seq_lib::lemma_multiset_commutative(done.push(waiting[k]), waiting.remove(k));
    vstd::seq_lib::lemma_multiset_commutative(done, waiting);
    assert(waiting.contains(waiting[k]));
    assert(waiting.to_multiset().count(waiting[k]) > 0);
    assert(done.push(waiting[k]).to_multiset().add(waiting.remove(k).to_multiset())
        =~= done.to_multiset().add(waiting.to_multiset()));
}

/// A new waiting quote is accounted for along with the quote taken in.
proof fn lemma_add_record(
    fed: Seq<StoredQuote>,
    done: Seq<StoredQuote>,
    waiting: Seq<StoredQuote>,
    r: StoredQuote,
)
    requires
        fed.to_multiset() == (done + waiting).to_multiset(),
    ensures
        fed.push(r).to_multiset() == (done + waiting.push(r)).to_multiset(),
{
    assert(done + waiting.push(r) =~= (done + waiting).push(r));
}

/// Stateful parser and reorder buffer for the KOSPI 200 market data feed.
pub struct KospiHandler {
    /// Re-order messages by the quote accept time at the exchange.
    reorder: bool,
    /// The sorting keys of the quotes in the reorder window.
    heap: ReorderHeap<HeapItem>,
    /// Slab of quote slots.
    arena: Vec<QuoteData>,
    /// Slots whose quotes have been written out and may be overwritten.
    free_list: Vec<u32>,
    /// The highest network timestamp seen so far (µs).
    max_time: u64,
    /// Total number of valid KOSPI 200 quote packets parsed.
    pub quotes_parsed: usize,
    /// Peak number of packets held at once in the reorder window.
    pub max_heap_size: usize,
    /// Buffer in which each output line is built.
    format_buf: Vec<u8>,
    /// Every quote key that entered the reorder window, in arrival order.
    received: Ghost<Seq<HeapItem>>,
    /// Every quote key that left the reorder window, in output order.
    released: Ghost<Seq<HeapItem>>,
    /// Number of valid quotes taken in.
    accepted: Ghost<nat>,
    /// Number of lines written out.
    written: Ghost<nat>,
    /// Every valid quote taken in, with its timestamp, in arrival order.
    fed: Ghost<Seq<StoredQuote>>,
    /// Every quote written out, with its timestamp, in output order.
    emitted: Ghost<Seq<StoredQuote>>,
    /// The keys in the reorder window, in some order.
    waiting: Ghost<Seq<HeapItem>>,
}

/// A release from the window, stated over the quotes: the quotes released
/// come in order, were due, come no later than any quote left waiting, and
/// with those left waiting are the quotes that waited before.
proof fn lemma_release_records(mid: KospiHandler, fin: KospiHandler, e: Seq<HeapItem>)
    requires
        mid.wf(),
        fin.wf(),
        release_step(mid.heap@, fin.max_time, e, fin.heap@),
        fin.arena@ == mid.arena@,
    ensures
        in_record_order(records_of(fin.arena@, e)),
        forall|i: int|
            0 <= i < e.len() ==> record_key(#[trigger] records_of(fin.arena@, e)[i]).1
                + MAX_DELAY_MICROSECONDS <= fin.max_time,
        forall|i: int, j: int|
            0 <= i < e.len() && 0 <= j < fin.pending_quotes().len() ==> record_le(
                #[trigger] records_of(fin.arena@, e)[i],
                #[trigger] fin.pending_quotes()[j],
            ),
        (records_of(fin.arena@, e) + fin.pending_quotes()).to_multiset()
            == mid.pending_quotes().to_multiset(),
{
    let rs = records_of(fin.arena@, e);
    assert forall|i: int| 0 <= i < e.len() implies #[trigger] mid.heap@.contains(e[i]) by {
        assert(e.contains(e[i]));
        assert(e.to_multiset().count(e[i]) > 0);
    }
    assert forall|i: int, j: int| 0 <= i <= j < rs.len() implies record_le(
        #[trigger] rs[i],
        #[trigger] rs[j],
    ) by {
        assert(key_le(e[i], e[j]));
        assert(mid.heap@.contains(e[i]) && mid.heap@.contains(e[j]));
    }
    assert forall|i: int| 0 <= i < e.len() implies record_key(#[trigger] rs[i]).1
        + MAX_DELAY_MICROSECONDS <= fin.max_time by {
        assert(mid.heap@.contains(e[i]));
        assert(due(e[i], fin.max_time));
    }
    assert forall|i: int, j: int|
        0 <= i < e.len() && 0 <= j < fin.pending_quotes().len() implies record_le(
        #[trigger] rs[i],
        #[trigger] fin.pending_quotes()[j],
    ) by {
        let y = fin.waiting@[j];
        assert(fin.waiting@.contains(y));
        assert(fin.waiting@.to_multiset().count(y) > 0);
        assert(fin.heap@.contains(y));
        assert(mid.heap@.contains(e[i]));
        assert(key_le(e[i], y));
    }
    assert(fin.waiting@.to_multiset().add(e.to_multiset()) == mid.waiting@.to_multiset());
    assert((e + fin.waiting@).to_multiset() =~= mid.waiting@.to_multiset()) by {
        vstd::seq_lib::lemma_multiset_commutative(e, fin.waiting@);
    }
    lemma_records_permutation(fin.arena@, e + fin.waiting@, mid.waiting@);
    assert(records_of(fin.arena@, e + fin.waiting@) =~= rs + fin.pending_quotes());
}

impl KospiHandler {
    /// The value of the public field `quotes_parsed`, named by a function so
    /// that contracts outside this module, which cannot read the fields of a
    /// type with private fields, can speak of it.
    pub closed spec fn parsed(&self) -> usize {
        self.quotes_parsed
    }

    /// The value of the public field `max_heap_size`.
    pub closed spec fn peak(&self) -> usize {
        self.max_heap_size
    }

    /// The handler reorders quotes by accept time.
    pub closed spec fn reorders(&self) -> bool {
        self.reorder
    }

    /// The quote keys waiting in the reorder window.
    pub closed spec fn pending(&self) -> Multiset<HeapItem> {
        self.heap@
    }

    /// The highest network timestamp seen so far (µs).
    pub closed spec fn max_time(&self) -> u64 {
        self.max_time
    }

    /// The slab's slots.
    pub closed spec fn slots(&self) -> Seq<QuoteData> {
        self.arena@
    }

    /// Every quote key that entered the reorder window, in arrival order.
    pub closed spec fn received(&self) -> Seq<HeapItem> {
        self.received@
    }

    /// Every quote key that left the reorder window, in output order.
    pub closed spec fn released(&self) -> Seq<HeapItem> {
        self.released@
    }

    /// Number of valid quotes taken in so far.
    pub closed spec fn accepted(&self) -> nat {
        self.accepted@
    }

    /// Number of output lines written so far.
    pub closed spec fn written(&self) -> nat {
        self.written@
    }

    /// Every valid quote taken in so far, with its timestamp, in arrival
    /// order.
    pub closed spec fn fed(&self) -> Seq<StoredQuote> {
        self.fed@
    }

    /// Every quote written out so far, with its timestamp, in output order.
    pub closed spec fn emitted(&self) -> Seq<StoredQuote> {
        self.emitted@
    }

    /// The quotes waiting in the reorder window, with their timestamps.
    pub closed spec fn pending_quotes(&self) -> Seq<StoredQuote> {
        records_of(self.arena@, self.waiting@)
    }

    /// A valid quote can be stored: a slot is free, or the slab can grow
    /// without its index leaving `u32`.
    pub closed spec fn can_store(&self) -> bool {
        self.free_list@.len() > 0 || self.arena@.len() <= u32::MAX
    }

    /// The slab and the free list agree with the window: every key points to
    /// its own slot, and free slots are distinct and pointed to by no key.
    spec fn slab_ok(&self) -> bool {
        &&& self.arena@.len() <= u32::MAX as int + 1
        &&& forall|x: HeapItem| #[trigger]
            self.heap@.contains(x) ==> {
                &&& (x.arena_idx as int) < self.arena@.len()
                &&& self.heap@.count(x) == 1
                &&& x.pkt_time <= MAX_PKT_TIME
            }
        &&& forall|x: HeapItem, y: HeapItem| #[trigger]
            self.heap@.contains(x) && #[trigger] self.heap@.contains(y) && x.arena_idx
                == y.arena_idx ==> x == y
        &&& forall|i: int|
            0 <= i < self.free_list@.len() ==> (#[trigger] self.free_list@[i] as int)
                < self.arena@.len()
        &&& forall|i: int, j: int|
            0 <= i < j < self.free_list@.len() ==> self.free_list@[i] != self.free_list@[j]
        &&& forall|i: int, x: HeapItem|
            0 <= i < self.free_list@.len() && #[trigger] self.heap@.contains(x)
                ==> x.arena_idx != #[trigger] self.free_list@[i]
    }

    /// The internal consistency of the handler.
    pub closed spec fn wf(&self) -> bool {
        &&& self.slab_ok()
        &&& !self.reorder ==> self.heap@.len() == 0 && self.received@.len() == 0
            && self.released@.len() == 0 && self.arena@.len() == 0
        &&& self.received@.to_multiset() == self.released@.to_multiset().add(self.heap@)
        &&& self.written@ + self.heap@.len() == self.accepted@
        &&& self.quotes_parsed == self.accepted@
        &&& self.arena@.len() <= self.accepted@
        &&& self.heap@.len() <= self.max_heap_size
        &&& self.max_heap_size <= self.quotes_parsed
        &&& !self.reorder ==> self.max_heap_size == 0
        &&& self.reorder ==> self.max_time == newest_time(self.received@)
        &&& self.waiting@.to_multiset() == self.heap@
        &&& self.fed@.to_multiset() == (self.emitted@ + records_of(
            self.arena@,
            self.waiting@,
        )).to_multiset()
        &&& self.fed@.len() == self.accepted@
        &&& !self.reorder ==> self.emitted@ == self.fed@
        &&& forall|x: HeapItem| #[trigger]
            self.heap@.contains(x) ==> record_key(self.arena@[x.arena_idx as int]@) == (
                x.accept_key,
                x.pkt_time,
            )
        &&& self.reorder ==> self.emitted@.len() == self.released@.len()
        &&& self.reorder ==> forall|i: int|
            0 <= i < self.released@.len() ==> record_key(#[trigger] self.emitted@[i]) == (
                self.released@[i].accept_key,
                self.released@[i].pkt_time,
            )
    }

    /// Every quote released so far had waited its 3 s of network time behind
    /// the newest quote received. (`flush_all` releases quotes that have not.)
    pub open spec fn released_due(&self) -> bool {
        forall|i: int|
            0 <= i < self.released().len() ==> due(
                #[trigger] self.released()[i],
                newest_time(self.received()),
            )
    }

    /// The reorder window holds back only what it must: when it is not
    /// empty, the quote that comes first has not yet waited its 3 s of
    /// network time behind the newest quote received.
    pub open spec fn settled(&self) -> bool {
        self.pending().len() > 0 ==> exists|y: HeapItem|
            is_min(y, self.pending()) && !due(y, newest_time(self.received()))
    }


    /// Every quote released so far came out in accept-time order, then
    /// arrival-time order, and none of them comes after a quote still waiting.
    pub open spec fn in_order(&self) -> bool {
        &&& in_time_order(self.released())
        &&& forall|i: int, y: HeapItem|
            0 <= i < self.released().len() && #[trigger] self.pending().contains(y) ==> time_le(
                #[trigger] self.released()[i],
                y,
            )
    }

    /// Copies a quote into a slab slot: the last freed slot, or a new one.
    fn store_quote(&mut self, ts_sec: u32, ts_usec: u32, quote: &[u8]) -> (idx: u32)
        requires
            old(self).slab_ok(),
            old(self).reorder,
            old(self).can_store(),
            quote@.len() == QUOTE_PACKET_LENGTH,
        ensures
            final(self).heap == old(self).heap,
            final(self).reorder == old(self).reorder,
            final(self).max_time == old(self).max_time,
            final(self).quotes_parsed == old(self).quotes_parsed,
            final(self).max_heap_size == old(self).max_heap_size,
            final(self).received == old(self).received,
            final(self).released == old(self).released,
            final(self).accepted == old(self).accepted,
            final(self).written == old(self).written,
            final(self).fed == old(self).fed,
            final(self).emitted == old(self).emitted,
            final(self).waiting == old(self).waiting,
            (idx as int) < final(self).arena@.len() <= u32::MAX as int + 1,
            final(self).arena@.len() >= old(self).arena@.len(),
            final(self).arena@.len() <= old(self).arena@.len() + 1,
            final(self).arena@[idx as int]@ == (ts_sec, ts_usec, quote@),
            forall|j: int|
                0 <= j < old(self).arena@.len() && j != idx ==> final(self).arena@[j]
                    == old(self).arena@[j],
            forall|x: HeapItem| #[trigger] old(self).heap@.contains(x) ==> x.arena_idx != idx,
            final(self).free_list@.len() <= old(self).free_list@.len(),
            final(self).free_list@ == old(self).free_list@.subrange(
                0,
                final(self).free_list@.len() as int,
            ),
            forall|i: int|
                0 <= i < final(self).free_list@.len() ==> #[trigger] final(self).free_list@[i]
                    != idx,
    {
        let mut payload = [0u8; QUOTE_PACKET_LENGTH];
        let mut i: usize = 0;
        while i < QUOTE_PACKET_LENGTH
            invariant
                i <= QUOTE_PACKET_LENGTH,
                quote@.len() == QUOTE_PACKET_LENGTH,
                forall|k: int| 0 <= k < i ==> payload@[k] == quote@[k],
            decreases QUOTE_PACKET_LENGTH - i,
        {
            payload[i] = quote[i];
            i += 1;
        }
        assert(payload@ =~= quote@);
        let data = QuoteData { ts_sec, ts_usec, payload };
        let ghost free0 = self.free_list@;
        match self.free_list.pop() {
            Some(idx) => {
                proof {
                    assert(free0[free0.len() - 1] == idx);
                    assert forall|i: int| 0 <= i < self.free_list@.len() implies #[trigger] self.free_list@[i] != idx by {
                        assert(free0[i] == self.free_list@[i]);
                    }
                    assert forall|x: HeapItem| #[trigger] self.heap@.contains(x) implies x.arena_idx != idx by {
                        assert(self.heap@.contains(x) && free0[free0.len() - 1] == idx);
                    }
                }
                self.arena.set(idx as usize, data);
                idx
            },
            None => {
                let idx = self.arena.len() as u32;
                self.arena.push(data);
                idx
            },
        }
    }


    /// Writes out, in order, the waiting quotes that are due, until the one
    /// that comes first is not due yet. Their slots go back to the free list.
    fn release_due(&mut self, output: &mut Vec<u8>) -> (e: Ghost<Seq<HeapItem>>)
        requires
            old(self).wf(),
            old(self).reorder,
        ensures
            final(self).wf(),
            release_step(old(self).heap@, old(self).max_time, e@, final(self).heap@),
            final(self).released@ == old(self).released@ + e@,
            final(output)@ == old(output)@ + lines_of(old(self).arena@, e@),
            final(self).arena@ == old(self).arena@,
            final(self).reorder == old(self).reorder,
            final(self).max_time == old(self).max_time,
            final(self).quotes_parsed == old(self).quotes_parsed,
            final(self).max_heap_size == old(self).max_heap_size,
            final(self).received == old(self).received,
            final(self).accepted == old(self).accepted,
            final(self).written@ == old(self).written@ + e@.len(),
            final(self).free_list@.len() >= old(self).free_list@.len(),
            final(self).emitted@ == old(self).emitted@ + records_of(old(self).arena@, e@),
            final(self).fed == old(self).fed,
    {
        let ghost start = self.heap@;
        let ghost emitted0 = self.emitted@;
        let ghost released0 = self.released@;
        let ghost arena0 = self.arena@;
        let ghost out0 = output@;
        let ghost free_len0 = self.free_list@.len();
        let ghost mut e: Seq<HeapItem> = Seq::empty();
        proof {
            assert(e.to_multiset() =~= Multiset::empty());
            assert(start.add(e.to_multiset()) =~= start);
            assert(released0 + e =~= released0);
        }
        loop
            invariant
                self.wf(),
                self.reorder,
                self.heap@.add(e.to_multiset()) == start,
                sorted(e),
                forall|i: int| 0 <= i < e.len() ==> crate::reorder::due(#[trigger] e[i], self.max_time),
                forall|i: int, y: HeapItem|
                    0 <= i < e.len() && #[trigger] self.heap@.contains(y) ==> key_le(#[trigger] e[i], y),
                self.released@ == released0 + e,
                output@ == out0 + lines_of(arena0, e),
                self.arena@ == arena0,
                self.max_time == old(self).max_time,
                self.quotes_parsed == old(self).quotes_parsed,
                self.max_heap_size == old(self).max_heap_size,
                self.received == old(self).received,
                self.accepted == old(self).accepted,
                self.written@ == old(self).written@ + e.len(),
                self.free_list@.len() >= free_len0,
                self.emitted@ == emitted0 + records_of(arena0, e),
                self.fed == old(self).fed,
            ensures
                release_step(start, self.max_time, e, self.heap@),
                self.wf(),
                self.reorder,
                self.released@ == released0 + e,
                output@ == out0 + lines_of(arena0, e),
                self.arena@ == arena0,
                self.max_time == old(self).max_time,
                self.quotes_parsed == old(self).quotes_parsed,
                self.max_heap_size == old(self).max_heap_size,
                self.received == old(self).received,
                self.accepted == old(self).accepted,
                self.written@ == old(self).written@ + e.len(),
                self.free_list@.len() >= free_len0,
                self.emitted@ == emitted0 + records_of(arena0, e),
                self.fed == old(self).fed,
            decreases self.heap@.len(),
        {
            let top = match self.heap.peek() {
                Some(item) => *item,
                None => {
                    break;
                },
            };
            if top.pkt_time + MAX_DELAY_MICROSECONDS > self.max_time {
                break;
            }
            let ghost h = self.heap@;
            let item = match self.heap.pop() {
                Some(x) => x,
                None => {
                    break;
                },
            };
            proof {
                assert(key_le(item, top) && key_le(top, item));
            }
            let idx = item.arena_idx as usize;
            let data = &self.arena[idx];
            Self::format_and_write(&mut self.format_buf, data.ts_sec, data.ts_usec, data.payload.as_slice(), output);
            self.free_list.push(item.arena_idx);
            let ghost e_old = e;
            proof {
                e = e.push(item);
                assert(e.drop_last() =~= e_old);
            }
            self.released = Ghost(self.released@.push(item));
            self.written = Ghost(self.written@ + 1);
            let ghost w = self.waiting@;
            let ghost emitted_before = self.emitted@;
            proof {
                assert(w.to_multiset().count(item) > 0);
                assert(w.contains(item));
            }
            let ghost k: int = position_of(w, item);
            self.waiting = Ghost(w.remove(k));
            self.emitted = Ghost(self.emitted@.push(arena0[item.arena_idx as int]@));
            proof {
                let rs = records_of(arena0, w);
                assert(records_of(arena0, w.remove(k)) =~= rs.remove(k));
                assert(rs[k] == arena0[item.arena_idx as int]@);
                lemma_move_record(emitted_before, rs, k);
                assert(records_of(arena0, e) =~= records_of(arena0, e_old).push(
                    arena0[item.arena_idx as int]@,
                ));
                assert(self.emitted@ =~= emitted0 + records_of(arena0, e));
            }
            proof {
                assert(self.released@ =~= released0 + e);
                assert(self.heap@.add(e.to_multiset()) =~= start);
                assert(self.received@.to_multiset() =~= self.released@.to_multiset().add(self.heap@));
                assert(h.contains(item));
                assert(record_key(arena0[item.arena_idx as int]@) == (item.accept_key, item.pkt_time));
                assert forall|x: HeapItem| #[trigger] self.heap@.contains(x) implies record_key(
                    self.arena@[x.arena_idx as int]@,
                ) == (x.accept_key, x.pkt_time) by {
                    assert(h.contains(x));
                }
                if self.reorder {
                    let rl = self.released@;
                    assert forall|i: int| 0 <= i < rl.len() implies record_key(
                        #[trigger] self.emitted@[i],
                    ) == (rl[i].accept_key, rl[i].pkt_time) by {
                        if i < rl.len() - 1 {
                            assert(self.emitted@[i] == emitted_before[i]);
                        }
                    }
                }
                assert forall|i: int, j: int| 0 <= i <= j < e.len() implies key_le(#[trigger] e[i], #[trigger] e[j]) by {
                    if j == e.len() - 1 && i < j {
                        assert(e_old[i] == e[i]);
                        assert(h.contains(item));
                    }
                }
                assert forall|i: int, y: HeapItem|
                    0 <= i < e.len() && #[trigger] self.heap@.contains(y) implies key_le(#[trigger] e[i], y) by {
                    assert(h.contains(y));
                    if i < e.len() - 1 {
                        assert(e_old[i] == e[i]);
                    }
                }
                let fl = self.free_list@;
                assert forall|i: int, x: HeapItem|
                    0 <= i < fl.len() && #[trigger] self.heap@.contains(x) implies x.arena_idx != #[trigger] fl[i] by {
                    assert(h.contains(x));
                    if i == fl.len() - 1 {
                        assert(h.contains(item));
                        if x.arena_idx == item.arena_idx {
                            assert(x == item);
                            assert(h.count(item) == 1);
                        }
                    }
                }
                assert forall|i: int, j: int| 0 <= i < j < fl.len() implies fl[i] != fl[j] by {
                    if j == fl.len() - 1 {
                        assert(h.contains(item));
                    }
                }
                assert forall|x: HeapItem| #[trigger] self.heap@.contains(x) implies {
                    &&& (x.arena_idx as int) < self.arena@.len()
                    &&& self.heap@.count(x) == 1
                    &&& x.pkt_time <= MAX_PKT_TIME
                } by {
                    assert(h.contains(x));
                }
                assert forall|x: HeapItem, y: HeapItem| #[trigger]
                    self.heap@.contains(x) && #[trigger] self.heap@.contains(y) && x.arena_idx
                        == y.arena_idx implies x == y by {
                    assert(h.contains(x) && h.contains(y));
                }
                assert forall|i: int| 0 <= i < fl.len() implies (#[trigger] fl[i] as int) < self.arena@.len() by {
                    assert(h.contains(item));
                }
            }
        }
        Ghost(e)
    }


    /// Feeds one UDP payload into the handler.
    ///
    /// A payload that is not a KOSPI 200 quote (shorter than 215 bytes, or not
    /// starting with `B6034`) is ignored. Otherwise the quote is counted and,
    /// without reordering, its line is appended to `output` at once. With
    /// reordering it enters the window, and every quote that has waited long
    /// enough (3 s of network time behind the newest packet) is written out in
    /// accept-time order.
    #[verifier::spinoff_prover]
    pub fn on_packet(&mut self, ts_sec: u32, ts_usec: u32, payload: &[u8], output: &mut Vec<u8>)
        requires
            old(self).wf(),
            old(self).parsed() < usize::MAX,
            old(self).can_store(),
        ensures
            final(self).wf(),
            final(self).reorders() == old(self).reorders(),
            (spec_extract_quote(payload@) is Some || old(self).settled()) ==> final(self).settled(),
            old(self).released_due() ==> final(self).released_due(),
            final(self).parsed() <= u32::MAX ==> final(self).can_store(),
            old(self).in_order() && old(self).released_due() && arrives_in_window(
                final(self).received(),
            ) ==> final(self).in_order(),
            final(self).fed() == match spec_extract_quote(payload@) {
                Some(q) => old(self).fed().push((ts_sec, ts_usec, q)),
                None => old(self).fed(),
            },
            old(self).emitted().len() <= final(self).emitted().len(),
            final(self).emitted().subrange(0, old(self).emitted().len() as int) == old(self).emitted(),
            final(output)@ == old(output)@ + record_lines(
                final(self).emitted().skip(old(self).emitted().len() as int),
            ),
            in_record_order(final(self).emitted().skip(old(self).emitted().len() as int)),
            old(output)@ == record_lines(old(self).emitted()) ==> final(output)@ == record_lines(
                final(self).emitted(),
            ),
            final(self).reorders() ==> forall|i: int|
                old(self).emitted().len() <= i < final(self).emitted().len() ==> record_key(
                    #[trigger] final(self).emitted()[i],
                ).1 + MAX_DELAY_MICROSECONDS <= final(self).max_time(),
            final(self).reorders() ==> forall|i: int, j: int|
                old(self).emitted().len() <= i < final(self).emitted().len() && 0 <= j
                    < final(self).pending_quotes().len() ==> record_le(
                    #[trigger] final(self).emitted()[i],
                    #[trigger] final(self).pending_quotes()[j],
                ),
            final(self).reorders() ==> match spec_extract_quote(payload@) {
                Some(q) => (final(self).emitted().skip(old(self).emitted().len() as int)
                    + final(self).pending_quotes()).to_multiset() == old(
                    self,
                ).pending_quotes().push((ts_sec, ts_usec, q)).to_multiset(),
                None => final(self).pending_quotes() == old(self).pending_quotes(),
            },
            match spec_extract_quote(payload@) {
                None => *final(self) == *old(self) && final(output)@ == old(output)@,
                Some(q) => {
                    let pt = spec_pkt_time(ts_sec, ts_usec);
                    &&& final(self).parsed() == old(self).parsed() + 1
                    &&& final(self).accepted() == old(self).accepted() + 1
                    &&& final(self).max_time() == if pt > old(self).max_time() {
                        pt
                    } else {
                        old(self).max_time()
                    }
                    &&& !old(self).reorders() ==> {
                        &&& final(output)@ == old(output)@ + quote_line((ts_sec, ts_usec, q))
                        &&& final(self).pending() == old(self).pending()
                        &&& final(self).peak() == old(self).peak()
                        &&& final(self).received() == old(self).received()
                        &&& final(self).released() == old(self).released()
                        &&& final(self).written() == old(self).written() + 1
                    }
                    &&& old(self).reorders() ==> exists|item: HeapItem, e: Seq<HeapItem>|
                        {
                            &&& item.spec_accept_key() == spec_accept_key(q)
                            &&& item.spec_pkt_time() == pt
                            &&& item.spec_tie() == old(self).parsed() as int % 0x1_0000_0000
                            &&& final(self).slots()[item.slot() as int]@ == (ts_sec, ts_usec, q)
                            &&& forall|x: HeapItem| #[trigger]
                                old(self).pending().contains(x) ==> final(self).slots()[x.slot() as int]
                                    == old(self).slots()[x.slot() as int]
                            &&& final(self).received() == old(self).received().push(item)
                            &&& release_step(
                                old(self).pending().insert(item),
                                final(self).max_time(),
                                e,
                                final(self).pending(),
                            )
                            &&& final(self).released() == old(self).released() + e
                            &&& final(self).written() == old(self).written() + e.len()
                            &&& final(output)@ == old(output)@ + lines_of(final(self).slots(), e)
                            &&& final(self).peak() == if old(self).peak() > old(self).pending().len() + 1 {
                                old(self).peak() as int
                            } else {
                                old(self).pending().len() + 1int
                            }
                            &&& (old(self).in_order() && forall|i: int|
                                0 <= i < old(self).released().len() ==> time_le(
                                    #[trigger] old(self).released()[i],
                                    item,
                                )) ==> final(self).in_order()
                        }
                },
            },
    {
        let quote = match extract_quote(payload) {
            Some(q) => q,
            None => {
                proof {
                    assert(self.emitted@.skip(self.emitted@.len() as int) =~= Seq::<StoredQuote>::empty());
                    assert(self.emitted@.subrange(0, self.emitted@.len() as int) =~= self.emitted@);
                    assert(output@ =~= old(output)@ + record_lines(Seq::<StoredQuote>::empty()));
                    lemma_record_lines_extend(old(self).emitted@, self.emitted@);
                }
                return ;
            },
        };
        self.quotes_parsed += 1;
        let pkt_time = ts_sec as u64 * 1000000 + ts_usec as u64;
        if pkt_time > self.max_time {
            self.max_time = pkt_time;
        }
        if !self.reorder {
            Self::format_and_write(&mut self.format_buf, ts_sec, ts_usec, quote, output);
            self.accepted = Ghost(self.accepted@ + 1);
            self.written = Ghost(self.written@ + 1);
            self.fed = Ghost(self.fed@.push((ts_sec, ts_usec, quote@)));
            self.emitted = Ghost(self.emitted@.push((ts_sec, ts_usec, quote@)));
            proof {
                assert(self.waiting@.to_multiset().len() == 0);
                assert(self.waiting@.len() == 0);
                assert(self.emitted@ + records_of(self.arena@, self.waiting@) =~= self.emitted@);
                let rec = (ts_sec, ts_usec, quote@);
                let n = old(self).emitted@.len() as int;
                assert(self.emitted@.skip(n) =~= seq![rec]);
                assert(self.emitted@.subrange(0, n) =~= old(self).emitted@);
                assert(seq![rec].drop_last() =~= Seq::<StoredQuote>::empty());
                assert(record_lines(Seq::<StoredQuote>::empty()) =~= Seq::<u8>::empty());
                assert(seq![rec].last() == rec);
                assert(record_lines(seq![rec]) =~= quote_line(rec));
                lemma_record_lines_extend(old(self).emitted@, self.emitted@);
            }
            return ;
        }
        let ghost old_heap = self.heap@;
        let ghost old_arena = self.arena@;
        let accept_key = read_u64_be(&quote[206..214]);
        let arena_idx = self.store_quote(ts_sec, ts_usec, quote);
        let arrival = ((self.quotes_parsed - 1) as u64 % 0x1_0000_0000) as u32;
        let item = HeapItem { accept_key, pkt_time, arena_idx, arrival };
        self.heap.push(item);
        self.received = Ghost(self.received@.push(item));
        self.accepted = Ghost(self.accepted@ + 1);
        let ghost w0 = self.waiting@;
        self.waiting = Ghost(self.waiting@.push(item));
        self.fed = Ghost(self.fed@.push((ts_sec, ts_usec, quote@)));
        proof {
            assert forall|i: int| 0 <= i < w0.len() implies self.arena@[w0[i].arena_idx as int]
                == old_arena[w0[i].arena_idx as int] by {
                assert(w0.contains(w0[i]));
                assert(w0.to_multiset().count(w0[i]) > 0);
                assert(old_heap.contains(w0[i]));
            }
            assert(records_of(self.arena@, w0) =~= records_of(old_arena, w0));
            assert(records_of(self.arena@, self.waiting@) =~= records_of(old_arena, w0).push(
                (ts_sec, ts_usec, quote@),
            ));
            lemma_add_record(old(self).fed@, old(self).emitted@, records_of(old_arena, w0), (ts_sec, ts_usec, quote@));
            assert(quote@.subrange(206, 214) =~= quote@.subrange(206, 214));
            assert(record_key(self.arena@[arena_idx as int]@) == (item.accept_key, item.pkt_time));
            assert forall|x: HeapItem| #[trigger] self.heap@.contains(x) implies record_key(
                self.arena@[x.arena_idx as int]@,
            ) == (x.accept_key, x.pkt_time) by {
                if x != item {
                    assert(old_heap.contains(x));
                    assert(self.arena@[x.arena_idx as int] == old_arena[x.arena_idx as int]);
                }
            }
        }
        proof {
            assert(self.received@.drop_last() =~= old(self).received@);
            assert(self.max_time == newest_time(self.received@));
            assert(quote@.subrange(206, 214) =~= payload@.subrange(0, 215).subrange(206, 214));
            assert(self.received@.to_multiset() =~= self.released@.to_multiset().add(self.heap@));
            assert forall|x: HeapItem| #[trigger] self.heap@.contains(x) implies {
                &&& (x.arena_idx as int) < self.arena@.len()
                &&& self.heap@.count(x) == 1
                &&& x.pkt_time <= MAX_PKT_TIME
            } by {
                if x != item {
                    assert(old_heap.contains(x));
                } else {
                    assert(!old_heap.contains(item));
                }
            }
            assert forall|x: HeapItem, y: HeapItem| #[trigger]
                self.heap@.contains(x) && #[trigger] self.heap@.contains(y) && x.arena_idx
                    == y.arena_idx implies x == y by {
                if x != item {
                    assert(old_heap.contains(x));
                }
                if y != item {
                    assert(old_heap.contains(y));
                }
            }
            let fl = self.free_list@;
            assert forall|i: int, x: HeapItem|
                0 <= i < fl.len() && #[trigger] self.heap@.contains(x) implies x.arena_idx != #[trigger] fl[i] by {
                if x != item {
                    assert(old_heap.contains(x));
                    assert(fl[i] == old(self).free_list@[i]);
                }
            }
            assert forall|i: int| 0 <= i < fl.len() implies (#[trigger] fl[i] as int) < self.arena@.len() by {
                assert(fl[i] == old(self).free_list@[i]);
            }
            assert forall|i: int, j: int| 0 <= i < j < fl.len() implies fl[i] != fl[j] by {
                assert(fl[i] == old(self).free_list@[i]);
                assert(fl[j] == old(self).free_list@[j]);
            }
        }
        let heap_len = self.heap.len();
        if heap_len > self.max_heap_size {
            self.max_heap_size = heap_len;
        }
        let ghost mid = *self;
        let e = self.release_due(output);
        proof {
            if self.heap@.len() > 0 {
                let y = choose|y: HeapItem| is_min(y, self.heap@) && !due(y, self.max_time);
                assert(is_min(y, self.pending()) && !due(y, newest_time(self.received())));
            }
            assert(mid.heap@ == old_heap.insert(item));
            assert(self.arena@[arena_idx as int]@ == (ts_sec, ts_usec, quote@));
            assert(quote@ == payload@.subrange(0, 215));
            assert(self.received@ == old(self).received@.push(item));
            assert(release_step(old_heap.insert(item), self.max_time, e@, self.heap@));
            assert(output@ == old(output)@ + lines_of(self.arena@, e@));
            assert forall|x: HeapItem| #[trigger] old(self).pending().contains(x) implies self.arena@[x.arena_idx as int]
                == old_arena[x.arena_idx as int] by {
            }
            let rcv0 = old(self).received@;
            let n = rcv0.len() as int;
            assert(self.received@.take(n) =~= rcv0);
            assert(self.received@[n] == item);
            assert(newest_time(self.received@) >= newest_time(rcv0));
            if old(self).released_due() {
                let rl = self.released@;
                let r0 = old(self).released@;
                assert forall|i: int| 0 <= i < rl.len() implies due(
                    #[trigger] rl[i],
                    newest_time(self.received@),
                ) by {
                    if i < r0.len() {
                        assert(rl[i] == r0[i]);
                        assert(old(self).released()[i] == r0[i]);
                    } else {
                        assert(rl[i] == e@[i - r0.len()]);
                    }
                }
                assert(self.released_due());
            }
            if old(self).in_order() && old(self).released_due() && arrives_in_window(self.received@) {
                let r0 = old(self).released@;
                assert forall|i: int| 0 <= i < r0.len() implies time_le(#[trigger] r0[i], item) by {
                    let x = r0[i];
                    assert(old(self).released()[i] == x);
                    assert(due(x, newest_time(rcv0)));
                    assert(r0.contains(x));
                    assert(r0.to_multiset().count(x) > 0);
                    assert(rcv0.to_multiset().count(x) > 0);
                    assert(rcv0.contains(x));
                    let k = choose|k: int| 0 <= k < n && rcv0[k] == x;
                    assert(self.received@[k] == x);
                    assert(time_le(self.received@[k], self.received@[n])
                        || self.received@[k].spec_pkt_time() + MAX_DELAY_MICROSECONDS > newest_time(
                        self.received@.take(n),
                    ));
                }
                assert(forall|i: int|
                    0 <= i < old(self).released().len() ==> time_le(
                        #[trigger] old(self).released()[i],
                        item,
                    ));
            }
            if old(self).in_order() && forall|i: int|
                0 <= i < old(self).released().len() ==> time_le(
                    #[trigger] old(self).released()[i],
                    item,
                ) {
                let r = self.released@;
                let r0 = old(self).released@;
                assert forall|i: int, j: int| 0 <= i <= j < r.len() implies time_le(#[trigger] r[i], #[trigger] r[j]) by {
                    if j >= r0.len() && i < r0.len() {
                        let y = e@[j - r0.len()];
                        assert(r[j] == y);
                        assert(r[i] == r0[i]);
                        assert(e@.contains(y));
                        assert(e@.to_multiset().count(y) > 0);
                        assert(mid.heap@.contains(y));
                        assert(old(self).released()[i] == r0[i]);
                        if y != item {
                            assert(old_heap.contains(y));
                            assert(old(self).pending().contains(y));
                            assert(time_le(old(self).released()[i], y));
                        } else {
                            assert(time_le(old(self).released()[i], item));
                        }
                    } else if i < r0.len() {
                        assert(r[i] == r0[i]);
                        assert(r[j] == r0[j]);
                        assert(old(self).released()[i] == r0[i]);
                        assert(old(self).released()[j] == r0[j]);
                        assert(in_time_order(old(self).released()));
                        assert(time_le(old(self).released()[i], old(self).released()[j]));
                    } else {
                        assert(r[i] == e@[i - r0.len()]);
                        assert(r[j] == e@[j - r0.len()]);
                        assert(time_le(e@[i - r0.len()], e@[j - r0.len()]));
                    }
                }
                assert forall|i: int, y: HeapItem|
                    0 <= i < r.len() && #[trigger] self.heap@.contains(y) implies time_le(#[trigger] r[i], y) by {
                    assert(mid.heap@.contains(y));
                    if i < r0.len() {
                        assert(r[i] == r0[i]);
                        assert(old(self).released()[i] == r0[i]);
                        if y != item {
                            assert(old_heap.contains(y));
                            assert(old(self).pending().contains(y));
                            assert(time_le(old(self).released()[i], y));
                        } else {
                            assert(time_le(old(self).released()[i], item));
                        }
                    } else {
                        assert(r[i] == e@[i - r0.len()]);
                        assert(time_le(e@[i - r0.len()], y));
                    }
                }
            }
            let n = old(self).emitted@.len() as int;
            assert(self.emitted@.skip(n) =~= records_of(self.arena@, e@));
            assert(self.emitted@.subrange(0, n) =~= old(self).emitted@);
            lemma_lines_of_records(self.arena@, e@);
            lemma_record_lines_extend(old(self).emitted@, self.emitted@);
            lemma_release_records(mid, *self, e@);
            let rs = records_of(self.arena@, e@);
            assert forall|i: int| n <= i < self.emitted@.len() implies record_key(
                #[trigger] self.emitted@[i],
            ).1 + MAX_DELAY_MICROSECONDS <= self.max_time by {
                assert(self.emitted@[i] == rs[i - n]);
            }
            assert forall|i: int, j: int|
                n <= i < self.emitted@.len() && 0 <= j < self.pending_quotes().len() implies record_le(
                #[trigger] self.emitted@[i],
                #[trigger] self.pending_quotes()[j],
            ) by {
                assert(self.emitted@[i] == rs[i - n]);
            }
            let q = payload@.subrange(0, 215);
            let pt = spec_pkt_time(ts_sec, ts_usec);
            assert(item.spec_accept_key() == spec_accept_key(q));
            assert(item.spec_pkt_time() == pt);
            assert(self.slots()[item.slot() as int]@ == (ts_sec, ts_usec, q));
            assert(forall|x: HeapItem| #[trigger]
                old(self).pending().contains(x) ==> self.slots()[x.slot() as int]
                    == old(self).slots()[x.slot() as int]);
            assert(self.received() == old(self).received().push(item));
            assert(release_step(old(self).pending().insert(item), self.max_time(), e@, self.pending()));
            assert(self.released() == old(self).released() + e@);
            assert(output@ == old(output)@ + lines_of(self.slots(), e@));
            assert(self.peak() == if old(self).peak() > old(self).pending().len() + 1 {
                old(self).peak() as int
            } else {
                old(self).pending().len() + 1int
            });
        }
    }

    /// Writes out every quote still waiting, in accept-time order, when the
    /// stream ends.
    pub fn flush_all(&mut self, output: &mut Vec<u8>)
        requires
            old(self).wf(),
        ensures
            final(self).wf(),
            final(self).pending().len() == 0,
            exists|e: Seq<HeapItem>|
                {
                    &&& drain_step(old(self).pending(), e)
                    &&& final(self).released() == old(self).released() + e
                    &&& final(self).written() == old(self).written() + e.len()
                    &&& final(output)@ == old(output)@ + lines_of(old(self).slots(), e)
                },
            final(self).reorders() == old(self).reorders(),
            final(self).slots() == old(self).slots(),
            final(self).received() == old(self).received(),
            final(self).accepted() == old(self).accepted(),
            final(self).max_time() == old(self).max_time(),
            final(self).parsed() == old(self).parsed(),
            final(self).peak() == old(self).peak(),
            final(self).can_store() == old(self).can_store(),
            old(self).in_order() ==> final(self).in_order(),
            final(self).settled(),
            old(self).pending().len() == 0 ==> final(output)@ == old(output)@,
            final(self).fed() == old(self).fed(),
            old(self).emitted().len() <= final(self).emitted().len(),
            final(self).emitted().subrange(0, old(self).emitted().len() as int) == old(self).emitted(),
            final(output)@ == old(output)@ + record_lines(
                final(self).emitted().skip(old(self).emitted().len() as int),
            ),
            in_record_order(final(self).emitted().skip(old(self).emitted().len() as int)),
            old(output)@ == record_lines(old(self).emitted()) ==> final(output)@ == record_lines(
                final(self).emitted(),
            ),
            final(self).emitted().skip(old(self).emitted().len() as int).to_multiset()
                == old(self).pending_quotes().to_multiset(),
    {
        let ghost start = self.heap@;
        let ghost waiting0 = self.waiting@;
        let ghost released0 = self.released@;
        let ghost arena0 = self.arena@;
        let ghost out0 = output@;
        let ghost emitted0 = self.emitted@;
        let ghost mut e: Seq<HeapItem> = Seq::empty();
        proof {
            assert(e.to_multiset() =~= Multiset::empty());
            assert(start.add(e.to_multiset()) =~= start);
            assert(released0 + e =~= released0);
        }
        loop
            invariant
                self.wf(),
                self.heap@.add(e.to_multiset()) == start,
                sorted(e),
                forall|i: int, y: HeapItem|
                    0 <= i < e.len() && #[trigger] self.heap@.contains(y) ==> key_le(#[trigger] e[i], y),
                self.released@ == released0 + e,
                output@ == out0 + lines_of(arena0, e),
                self.arena@ == arena0,
                self.free_list@ == old(self).free_list@,
                self.reorder == old(self).reorder,
                self.max_time == old(self).max_time,
                self.quotes_parsed == old(self).quotes_parsed,
                self.max_heap_size == old(self).max_heap_size,
                self.received == old(self).received,
                self.accepted == old(self).accepted,
                self.written@ == old(self).written@ + e.len(),
                self.emitted@ == emitted0 + records_of(arena0, e),
                self.fed == old(self).fed,
            ensures
                self.heap@.len() == 0,
                self.wf(),
                drain_step(start, e),
                self.released@ == released0 + e,
                output@ == out0 + lines_of(arena0, e),
                self.arena@ == arena0,
                self.free_list@ == old(self).free_list@,
                self.reorder == old(self).reorder,
                self.max_time == old(self).max_time,
                self.quotes_parsed == old(self).quotes_parsed,
                self.max_heap_size == old(self).max_heap_size,
                self.received == old(self).received,
                self.accepted == old(self).accepted,
                self.written@ == old(self).written@ + e.len(),
                self.emitted@ == emitted0 + records_of(arena0, e),
                self.fed == old(self).fed,
            decreases self.heap@.len(),
        {
            let ghost h = self.heap@;
            let item = match self.heap.pop() {
                Some(x) => x,
                None => {
                    proof {
                        vstd::multiset::lemma_multiset_empty_len(h);
                        assert(start =~= e.to_multiset());
                    }
                    break;
                },
            };
            let idx = item.arena_idx as usize;
            let data = &self.arena[idx];
            Self::format_and_write(&mut self.format_buf, data.ts_sec, data.ts_usec, data.payload.as_slice(), output);
            let ghost e_old = e;
            proof {
                e = e.push(item);
                assert(e.drop_last() =~= e_old);
            }
            self.released = Ghost(self.released@.push(item));
            self.written = Ghost(self.written@ + 1);
            let ghost w = self.waiting@;
            let ghost emitted_before = self.emitted@;
            proof {
                assert(w.to_multiset().count(item) > 0);
                assert(w.contains(item));
            }
            let ghost k: int = position_of(w, item);
            self.waiting = Ghost(w.remove(k));
            self.emitted = Ghost(self.emitted@.push(arena0[item.arena_idx as int]@));
            proof {
                let rs = records_of(arena0, w);
                assert(records_of(arena0, w.remove(k)) =~= rs.remove(k));
                assert(rs[k] == arena0[item.arena_idx as int]@);
                lemma_move_record(emitted_before, rs, k);
                assert(records_of(arena0, e) =~= records_of(arena0, e_old).push(
                    arena0[item.arena_idx as int]@,
                ));
                assert(self.emitted@ =~= emitted0 + records_of(arena0, e));
            }
            proof {
                assert(self.released@ =~= released0 + e);
                assert(self.heap@.add(e.to_multiset()) =~= start);
                if !self.reorder {
                    vstd::multiset::lemma_multiset_empty_len(h);
                    assert(h.contains(item));
                    assert(false);
                }
                assert(self.received@.to_multiset() =~= self.released@.to_multiset().add(self.heap@));
                assert(h.contains(item));
                assert(record_key(arena0[item.arena_idx as int]@) == (item.accept_key, item.pkt_time));
                assert forall|x: HeapItem| #[trigger] self.heap@.contains(x) implies record_key(
                    self.arena@[x.arena_idx as int]@,
                ) == (x.accept_key, x.pkt_time) by {
                    assert(h.contains(x));
                }
                if self.reorder {
                    let rl = self.released@;
                    assert forall|i: int| 0 <= i < rl.len() implies record_key(
                        #[trigger] self.emitted@[i],
                    ) == (rl[i].accept_key, rl[i].pkt_time) by {
                        if i < rl.len() - 1 {
                            assert(self.emitted@[i] == emitted_before[i]);
                        }
                    }
                }
                assert forall|i: int, j: int| 0 <= i <= j < e.len() implies key_le(#[trigger] e[i], #[trigger] e[j]) by {
                    if j == e.len() - 1 && i < j {
                        assert(e_old[i] == e[i]);
                        assert(h.contains(item));
                    }
                }
                assert forall|i: int, y: HeapItem|
                    0 <= i < e.len() && #[trigger] self.heap@.contains(y) implies key_le(#[trigger] e[i], y) by {
                    assert(h.contains(y));
                    if i < e.len() - 1 {
                        assert(e_old[i] == e[i]);
                    }
                }
                let fl = self.free_list@;
                assert forall|i: int, x: HeapItem|
                    0 <= i < fl.len() && #[trigger] self.heap@.contains(x) implies x.arena_idx != #[trigger] fl[i] by {
                    assert(h.contains(x));
                }
                assert forall|x: HeapItem| #[trigger] self.heap@.contains(x) implies {
                    &&& (x.arena_idx as int) < self.arena@.len()
                    &&& self.heap@.count(x) == 1
                    &&& x.pkt_time <= MAX_PKT_TIME
                } by {
                    assert(h.contains(x));
                }
                assert forall|x: HeapItem, y: HeapItem| #[trigger]
                    self.heap@.contains(x) && #[trigger] self.heap@.contains(y) && x.arena_idx
                        == y.arena_idx implies x == y by {
                    assert(h.contains(x) && h.contains(y));
                }
            }
        }
        proof {
            let n = emitted0.len() as int;
            assert(self.emitted@.skip(n) =~= records_of(arena0, e));
            assert(self.emitted@.subrange(0, n) =~= emitted0);
            lemma_lines_of_records(arena0, e);
            lemma_record_lines_extend(emitted0, self.emitted@);
            lemma_records_permutation(arena0, e, waiting0);
            let rs = records_of(arena0, e);
            assert forall|i: int, j: int| 0 <= i <= j < rs.len() implies record_le(
                #[trigger] rs[i],
                #[trigger] rs[j],
            ) by {
                assert(key_le(e[i], e[j]));
                assert(e.contains(e[i]) && e.contains(e[j]));
                assert(e.to_multiset().count(e[i]) > 0 && e.to_multiset().count(e[j]) > 0);
                assert(start.contains(e[i]) && start.contains(e[j]));
                assert(old(self).heap@.contains(e[i]) && old(self).heap@.contains(e[j]));
            }
            if start.len() == 0 {
                assert(e.to_multiset().len() == 0);
                assert(e.len() == 0);
                assert(output@ =~= out0);
            }
            if old(self).in_order() {
                let r = self.released@;
                let r0 = released0;
                assert forall|i: int, j: int| 0 <= i <= j < r.len() implies time_le(#[trigger] r[i], #[trigger] r[j]) by {
                    if j >= r0.len() && i < r0.len() {
                        let y = e[j - r0.len()];
                        assert(r[j] == y);
                        assert(r[i] == r0[i]);
                        assert(e.contains(y));
                        assert(e.to_multiset().count(y) > 0);
                        assert(start.contains(y));
                        assert(old(self).pending().contains(y));
                        assert(old(self).released()[i] == r0[i]);
                        assert(time_le(old(self).released()[i], y));
                    } else if i < r0.len() {
                        assert(r[i] == r0[i]);
                        assert(r[j] == r0[j]);
                        assert(old(self).released()[i] == r0[i]);
                        assert(old(self).released()[j] == r0[j]);
                        assert(in_time_order(old(self).released()));
                        assert(time_le(old(self).released()[i], old(self).released()[j]));
                    } else {
                        assert(r[i] == e[i - r0.len()]);
                        assert(r[j] == e[j - r0.len()]);
                        assert(time_le(e[i - r0.len()], e[j - r0.len()]));
                    }
                }
            }
        }
    }

    /// Whether a valid quote can be stored (see `can_store`).
    pub fn has_room(&self) -> (r: bool)
        ensures
            r == self.can_store(),
    {
        self.free_list.len() > 0 || self.arena.len() <= 4294967295
    }

    /// A handler with empty buffers. With `reorder`, quotes are held back and
    /// written out in accept-time order; otherwise each is written at once.
    pub fn new(reorder: bool) -> (r: Self)
        ensures
            r.wf(),
            r.reorders() == reorder,
            r.pending() == Multiset::<HeapItem>::empty(),
            r.max_time() == 0,
            r.parsed() == 0,
            r.peak() == 0,
            r.received() == Seq::<HeapItem>::empty(),
            r.released() == Seq::<HeapItem>::empty(),
            r.accepted() == 0,
            r.written() == 0,
            r.fed() == Seq::<StoredQuote>::empty(),
            r.emitted() == Seq::<StoredQuote>::empty(),
            r.in_order(),
            r.released_due(),
            r.settled(),
            r.slots() == Seq::<QuoteData>::empty(),
            r.can_store(),
    {
        proof {
            let e = Seq::<HeapItem>::empty();
            assert(e.to_multiset().len() == 0);
            vstd::multiset::lemma_multiset_empty_len(e.to_multiset());
            assert(e.to_multiset().add(Multiset::empty()) =~= Multiset::empty());
            let q = Seq::<StoredQuote>::empty();
            assert(q + records_of(Seq::<QuoteData>::empty(), e) =~= q);
        }
        KospiHandler {
            reorder,
            heap: ReorderHeap::with_capacity(1000000),
            arena: Vec::with_capacity(1000000),
            free_list: Vec::with_capacity(1000000),
            max_time: 0,
            quotes_parsed: 0,
            max_heap_size: 0,
            format_buf: Vec::with_capacity(256),
            received: Ghost(Seq::empty()),
            released: Ghost(Seq::empty()),
            accepted: Ghost(0),
            written: Ghost(0),
            fed: Ghost(Seq::empty()),
            emitted: Ghost(Seq::empty()),
            waiting: Ghost(Seq::empty()),
        }
    }

    /// Formats a quote into `format_buf`, replacing what it held, and appends
    /// the line, ended by a newline, to `out`. The timestamps are written with
    /// itoa.
    fn format_and_write(
        format_buf: &mut Vec<u8>,
        ts_sec: u32,
        ts_usec: u32,
        payload: &[u8],
        out: &mut Vec<u8>,
    )
        requires
            payload@.len() >= 214,
        ensures
            final(format_buf)@ == quote_text(ts_sec, ts_usec, payload@).push(10u8),
            final(out)@ == old(out)@ + final(format_buf)@,
    {
        format_buf.clear();
        itoa_append(ts_sec, format_buf);
        format_buf.push(46u8);
        let digits = decimal_len(ts_usec);
        let pad_len: usize = if digits < 6 {
            6 - digits
        } else {
            0
        };
        let ghost before_pad = format_buf@;
        let mut i: usize = 0;
        while i < pad_len
            invariant
                i <= pad_len,
                format_buf@ == before_pad + Seq::new(i as nat, |k: int| 48u8),
            decreases pad_len - i,
        {
            format_buf.push(48u8);
            i += 1;
            proof {
                assert(format_buf@ =~= before_pad + Seq::new(i as nat, |k: int| 48u8));
            }
        }
        itoa_append(ts_usec, format_buf);
        format_buf.push(32u8);
        proof {
            assert(format_buf@ =~= decimal(ts_sec as nat) + seq![46u8] + zero_padded6(
                decimal(ts_usec as nat),
            ) + seq![32u8]);
        }
        append_bytes(format_buf, &payload[206..214]);
        format_buf.push(32u8);
        append_bytes(format_buf, &payload[5..17]);
        push_book(format_buf, payload);
        format_buf.push(10u8);
        proof {
            assert(format_buf@ =~= quote_text(ts_sec, ts_usec, payload@).push(10u8));
        }
        append_bytes(out, format_buf.as_slice());
    }
}


/// Each key waiting in the window points to a slab slot that holds its
/// quote: the stored quote's accept time and arrival time are the key's. As
/// many quotes wait as keys.
pub proof fn lemma_pending_slots_hold_their_quotes(h: KospiHandler)
    requires
        h.wf(),
    ensures
        forall|x: HeapItem| #[trigger]
            h.pending().contains(x) ==> x.slot() < h.slots().len() && record_key(
                h.slots()[x.slot() as int]@,
            ) == (x.spec_accept_key(), x.spec_pkt_time()),
        h.pending_quotes().len() == h.pending().len(),
{
    assert(h.waiting@.to_multiset().len() == h.waiting@.len());
}

/// The window holds back only what it must, stated over the quotes: when a
/// quote waits, the first waiting quote by accept time, then arrival time, has
/// not yet waited its 3 s of network time behind the newest quote received.
pub proof fn lemma_settled_over_quotes(h: KospiHandler)
    requires
        h.wf(),
        h.settled(),
    ensures
        h.pending_quotes().len() > 0 ==> exists|j: int|
            0 <= j < h.pending_quotes().len() && (forall|k: int|
                0 <= k < h.pending_quotes().len() ==> record_le(
                    #[trigger] h.pending_quotes()[j],
                    #[trigger] h.pending_quotes()[k],
                )) && record_key(h.pending_quotes()[j]).1 + MAX_DELAY_MICROSECONDS > newest_time(
                h.received(),
            ),
{
    let w = h.waiting@;
    assert(w.to_multiset().len() == w.len());
    if w.len() > 0 {
        let y = choose|y: HeapItem| is_min(y, h.pending()) && !due(y, newest_time(h.received()));
        assert(w.to_multiset().count(y) > 0);
        assert(w.contains(y));
        let j = choose|j: int| 0 <= j < w.len() && w[j] == y;
        let pq = h.pending_quotes();
        assert forall|k: int| 0 <= k < pq.len() implies record_le(#[trigger] pq[j], #[trigger] pq[k]) by {
            assert(w.contains(w[k]));
            assert(w.to_multiset().count(w[k]) > 0);
            assert(h.heap@.contains(w[k]));
            assert(key_le(y, w[k]));
        }
        assert(record_key(pq[j]).1 + MAX_DELAY_MICROSECONDS > newest_time(h.received()));
    }
}

/// The handler's counters agree: the peak of the window is at least what it
/// holds and at most the number of quotes parsed, and every quote parsed was
/// taken in. Without reordering nothing is ever held and the peak stays 0.
/// With reordering, the handler's newest network time is the newest arrival
/// time of the quotes received.
pub proof fn lemma_handler_counters(h: KospiHandler)
    requires
        h.wf(),
    ensures
        h.pending().len() <= h.peak(),
        h.peak() <= h.parsed(),
        h.parsed() == h.accepted(),
        !h.reorders() ==> h.peak() == 0 && h.pending().len() == 0 && h.received().len() == 0,
        h.reorders() ==> h.max_time() == newest_time(h.received()),
{
}

/// A handler can store another quote as long as it has parsed no more than
/// `u32::MAX` quotes: each slab slot was filled by a quote parsed.
pub proof fn lemma_room_for_next_quote(h: KospiHandler)
    requires
        h.wf(),
        h.parsed() <= u32::MAX,
    ensures
        h.can_store(),
{
}

/// The line that the handler writes for a quote is the text that
/// `format_output_string` makes of it, followed by a newline.
pub proof fn lemma_handler_line_is_formatted_text(ts_sec: u32, ts_usec: u32, quote: Seq<u8>)
    ensures
        quote_line((ts_sec, ts_usec, quote)) == quote_text(ts_sec, ts_usec, quote) + seq![10u8],
{
    assert(quote_text(ts_sec, ts_usec, quote).push(10u8) =~= quote_text(ts_sec, ts_usec, quote)
        + seq![10u8]);
}

/// Every quote taken in is accounted for, once: the quotes written out so far
/// and those waiting in the window are, up to order, exactly the quotes taken
/// in, as many as were parsed. Without reordering each is written out at once,
/// in the order taken in.
pub proof fn lemma_quotes_accounted_for(h: KospiHandler)
    requires
        h.wf(),
    ensures
        h.fed().to_multiset() == (h.emitted() + h.pending_quotes()).to_multiset(),
        h.pending_quotes().len() == h.pending().len(),
        h.fed().len() == h.parsed(),
        !h.reorders() ==> h.emitted() == h.fed(),
{
    assert(h.waiting@.to_multiset().len() == h.waiting@.len());
}

/// Once the window is empty (after `flush_all`), the handler has written out
/// every quote taken in, once each: what it wrote is, up to order, what it was
/// fed, one line per quote parsed.
pub proof fn lemma_drained_handler_wrote_every_quote(h: KospiHandler)
    requires
        h.wf(),
        h.pending().len() == 0,
    ensures
        h.emitted().to_multiset() == h.fed().to_multiset(),
        h.emitted().len() == h.parsed(),
{
    lemma_quotes_accounted_for(h);
    assert(h.pending_quotes().len() == 0);
    assert(h.emitted() + h.pending_quotes() =~= h.emitted());
    assert(h.emitted().to_multiset().len() == h.emitted().len());
    assert(h.fed().to_multiset().len() == h.fed().len());
}

/// Reordering only changes the order of the lines: a reordering handler and
/// a plain one that were fed the same quotes have, once the reordering one is
/// drained, written the same quotes, each as often.
pub proof fn lemma_reordering_only_permutes(sorting: KospiHandler, plain: KospiHandler)
    requires
        sorting.wf(),
        plain.wf(),
        !plain.reorders(),
        sorting.fed() == plain.fed(),
        sorting.pending().len() == 0,
    ensures
        sorting.emitted().to_multiset() == plain.emitted().to_multiset(),
        sorting.emitted().len() == plain.emitted().len(),
        plain.emitted() == plain.fed(),
{
    lemma_drained_handler_wrote_every_quote(sorting);
    lemma_quotes_accounted_for(plain);
}

/// With reordering, the quotes written out come in accept-time order, then
/// arrival order, as long as the handler releases in order (`in_order`):
/// `new` starts so, `flush_all` keeps it, and `on_packet` keeps it while every
/// quote released so far was due and no quote arrives too late for the window
/// (`arrives_in_window` of the quotes received). Drained, the handler has then
/// written every quote taken in, once each (see
/// `lemma_drained_handler_wrote_every_quote`), in that order.
pub proof fn lemma_written_in_accept_order(h: KospiHandler)
    requires
        h.wf(),
        h.reorders(),
        h.in_order(),
    ensures
        forall|i: int, j: int|
            0 <= i <= j < h.emitted().len() ==> record_le(
                #[trigger] h.emitted()[i],
                #[trigger] h.emitted()[j],
            ),
{
    let r = h.released@;
    let em = h.emitted@;
    assert forall|i: int, j: int| 0 <= i <= j < em.len() implies record_le(
        #[trigger] em[i],
        #[trigger] em[j],
    ) by {
        assert(h.released()[i] == r[i] && h.released()[j] == r[j]);
        assert(time_le(r[i], r[j]));
        assert(record_key(em[i]) == (r[i].accept_key, r[i].pkt_time));
        assert(record_key(em[j]) == (r[j].accept_key, r[j].pkt_time));
    }
}

/// Sequences that are a permutation of each other stay so when each element
/// is mapped.
proof fn lemma_map_permutation<A, B>(a: Seq<A>, b: Seq<A>, f: spec_fn(A) -> B)
    requires
        a.to_multiset() == b.to_multiset(),
    ensures
        a.map_values(f).to_multiset() == b.map_values(f).to_multiset(),
    decreases a.len(),
{
    if a.len() == 0 {
        assert(b.to_multiset().len() == 0);
        assert(b.len() == 0);
        assert(a.map_values(f) =~= b.map_values(f));
    } else {
        let x = a.last();
        assert(a.to_multiset().count(x) > 0);
        assert(b.contains(x));
        let k = choose|k: int| 0 <= k < b.len() && b[k] == x;
        let a0 = a.drop_last();
        let b0 = b.remove(k);
        assert(a =~= a0.push(x));
        assert(a0.to_multiset() =~= a.to_multiset().remove(x));
        assert(b0.to_multiset() =~= b.to_multiset().remove(x));
        lemma_map_permutation(a0, b0, f);
        assert(a.map_values(f) =~= a0.map_values(f).push(f(x)));
        assert(b0.map_values(f) =~= b.map_values(f).remove(k));
        assert(b.map_values(f)[k] == f(x));
        assert(b.map_values(f).contains(f(x)));
        assert(b.map_values(f).to_multiset().count(f(x)) > 0);
        assert(a.map_values(f).to_multiset() =~= b.map_values(f).to_multiset());
    }
}

/// Lines, each ended by a newline, one after the other.
pub open spec fn newline_ended(lines: Seq<Seq<u8>>) -> Seq<u8>
    decreases lines.len(),
{
    if lines.len() == 0 {
        Seq::empty()
    } else {
        newline_ended(lines.drop_last()) + lines.last().push(10u8)
    }
}

/// The lines of quotes are the quotes' texts, each ended by a newline.
proof fn lemma_record_lines_are_texts(quotes: Seq<DatagramView>)
    ensures
        record_lines(quotes) == newline_ended(quotes.map_values(|v: DatagramView| view_text(v))),
    decreases quotes.len(),
{
    if quotes.len() > 0 {
        lemma_record_lines_are_texts(quotes.drop_last());
        assert(quotes.map_values(|v: DatagramView| view_text(v)).drop_last() =~= quotes.drop_last().map_values(
            |v: DatagramView| view_text(v),
        ));
    }
}

/// The handler and the whole-capture parser agree. A handler that was fed, in
/// order, the datagrams of a capture (so that the quotes it took in are the
/// capture's quotes) and was then drained has written, without reordering,
/// exactly the lines of the capture's parse, each ended by a newline; with
/// reordering it has written the same lines, each as often, as many as the
/// parse gives.
pub proof fn lemma_handler_agrees_with_parse<'a>(
    h: KospiHandler,
    data: &'a [u8],
    stats: ParseStats,
    lines: Seq<Seq<u8>>,
)
    requires
        h.wf(),
        h.pending().len() == 0,
        h.fed() == capture_quotes(data@),
        pcap_output(data, h.reorders(), stats, lines),
    ensures
        !h.reorders() ==> record_lines(h.emitted()) == newline_ended(lines),
        h.emitted().map_values(|q: StoredQuote| quote_line(q)).to_multiset() == lines.map_values(
            |l: Seq<u8>| l.push(10u8),
        ).to_multiset(),
        h.emitted().len() == lines.len(),
        stats.quotes == h.parsed(),
{
    let quotes = capture_quotes(data@);
    lemma_drained_handler_wrote_every_quote(h);
    lemma_quotes_accounted_for(h);
    let line_of = |l: Seq<u8>| l.push(10u8);
    let quote_line_of = |q: StoredQuote| quote_line(q);
    if !h.reorders() {
        lemma_record_lines_are_texts(quotes);
        assert(lines.map_values(line_of) =~= h.emitted().map_values(quote_line_of));
    } else {
        let (arrived, out) = choose|arrived: Seq<QuotePacket<'a>>, out: Seq<QuotePacket<'a>>|
            {
                &&& #[trigger] packet_views(arrived) == quotes
                &&& forall|i: int| 0 <= i < arrived.len() ==> keyed(#[trigger] arrived[i], i)
                &&& #[trigger] complete_run(arrived, out, stats.max_heap_size as nat)
                &&& lines == packet_texts(out)
            };
        lemma_complete_run_is_permutation(arrived, out, stats.max_heap_size as nat);
        let view_of = |p: QuotePacket<'a>| p@;
        lemma_map_permutation(arrived, out, view_of);
        assert(packet_views(arrived) =~= arrived.map_values(view_of));
        let vo = out.map_values(view_of);
        assert(lines.map_values(line_of) =~= vo.map_values(quote_line_of));
        lemma_map_permutation(h.emitted(), vo, quote_line_of);
        assert(vo.len() == out.len());
        assert(h.emitted().to_multiset().len() == h.emitted().len());
        assert(vo.to_multiset().len() == vo.len());
    }
}

/// Nothing is lost or duplicated in the reorder window: the quotes that
/// entered it are exactly those written out plus those still waiting, and
/// every quote taken in has been written out or is waiting.
pub proof fn lemma_no_quote_lost(h: KospiHandler)
    requires
        h.wf(),
    ensures
        h.received().to_multiset() == h.released().to_multiset().add(h.pending()),
        h.written() + h.pending().len() == h.accepted(),
{
}

/// Once the window is empty (after `flush_all`), every quote taken in has
/// been written out, exactly once.
pub proof fn lemma_drained_handler_wrote_everything(h: KospiHandler)
    requires
        h.wf(),
        h.pending().len() == 0,
    ensures
        h.written() == h.accepted(),
        h.received().to_multiset() == h.released().to_multiset(),
{
    vstd::multiset::lemma_multiset_empty_len(h.pending());
    assert(h.released().to_multiset().add(h.pending()) =~= h.released().to_multiset());
}

} // verus!
