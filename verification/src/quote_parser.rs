//! Parsing of a whole pcap capture into quote lines, in capture order or
//! reordered by the quote accept time at the exchange.

use vstd::multiset::Multiset;
use vstd::prelude::*;
use vstd::string::StringExecFns;
use crate::format::{append_bytes, push_book, push_timestamp, quote_text, QUOTE_PACKET_LENGTH};
use crate::reorder::{
    complete_run, concat, drain_step, key_le, lemma_complete_run_is_permutation,
    lemma_complete_run_peak, lemma_complete_run_sorted, lemma_complete_run_unique, max_nat, newest_time, no_late_arrival, release_step, sorted,
    window_trace, ReorderHeap, ReorderKey, MAX_DELAY_MICROSECONDS, MAX_PKT_TIME,
};
use crate::sources::{spec_capture, DatagramView, PcapError, PcapReader};

verus! {

broadcast use {vstd::seq_lib::group_to_multiset_ensures, vstd::multiset::group_multiset_axioms};

/// The value of eight bytes in big-endian order.
pub open spec fn u64_be(b: Seq<u8>) -> u64 {
    (b[0] as int * 0x100000000000000 + b[1] as int * 0x1000000000000 + b[2] as int * 0x10000000000
        + b[3] as int * 0x100000000 + b[4] as int * 0x1000000 + b[5] as int * 0x10000
        + b[6] as int * 0x100 + b[7] as int) as u64
}

/// The accept time of a quote: bytes 206..214, read as a big-endian number.
pub open spec fn spec_accept_key(q: Seq<u8>) -> u64 {
    u64_be(q.subrange(206, 214))
}

/// Network arrival time in microseconds.
pub open spec fn spec_pkt_time(ts_sec: u32, ts_usec: u32) -> u64 {
    (ts_sec as int * 1000000 + ts_usec as int) as u64
}

pub(crate) fn read_u64_be(b: &[u8]) -> (r: u64)
    requires
        b@.len() >= 8,
    ensures
        r == u64_be(b@),
{
    (b[0] as u64) * 0x100000000000000 + (b[1] as u64) * 0x1000000000000 + (b[2] as u64)
        * 0x10000000000 + (b[3] as u64) * 0x100000000 + (b[4] as u64) * 0x1000000 + (b[5] as u64)
        * 0x10000 + (b[6] as u64) * 0x100 + b[7] as u64
}

/// A payload starts with the quote packet identifier `B6034`.
pub open spec fn has_quote_magic(p: Seq<u8>) -> bool {
    &&& p.len() >= 5
    &&& p[0] == 66u8
    &&& p[1] == 54u8
    &&& p[2] == 48u8
    &&& p[3] == 51u8
    &&& p[4] == 52u8
}

/// The quote that a UDP payload holds: its first 215 bytes, when the payload
/// is at least that long and starts with `B6034`.
pub open spec fn spec_extract_quote(p: Seq<u8>) -> Option<Seq<u8>> {
    if p.len() >= QUOTE_PACKET_LENGTH && has_quote_magic(p) {
        Some(p.subrange(0, QUOTE_PACKET_LENGTH as int))
    } else {
        None
    }
}

/// Validates that a UDP payload is a complete KOSPI 200 quote packet: at least
/// 215 bytes long and starting with the `B6034` identifier. Returns the
/// packet's 215 bytes.
pub fn extract_quote(payload: &[u8]) -> (r: Option<&[u8]>)
    ensures
        match spec_extract_quote(payload@) {
            Some(q) => r matches Some(s) && s@ == q,
            None => r is None,
        },
        r is Some <==> (payload@.len() >= 215 && payload@[0] == 66 && payload@[1] == 54
            && payload@[2] == 48 && payload@[3] == 51 && payload@[4] == 52),
        r matches Some(s) ==> s@ == payload@.subrange(0, 215),
{
    if payload.len() < QUOTE_PACKET_LENGTH {
        return None;
    }
    // "B6034"
    if payload[0] != 66 || payload[1] != 54 || payload[2] != 48 || payload[3] != 51
        || payload[4] != 52 {
        return None;
    }
    Some(&payload[0..QUOTE_PACKET_LENGTH])
}

/// A payload is a quote exactly when it is at least 215 bytes long and its
/// first five bytes are `B`, `6`, `0`, `3`, `4`; the quote is then its first
/// 215 bytes.
pub proof fn lemma_quote_identified_by_its_bytes(p: Seq<u8>)
    ensures
        spec_extract_quote(p) is Some <==> (p.len() >= 215 && p[0] == 66 && p[1] == 54 && p[2]
            == 48 && p[3] == 51 && p[4] == 52),
        spec_extract_quote(p) is Some ==> spec_extract_quote(p) == Some(p.subrange(0, 215)),
{
}

/// The sort key of a quote is its whole 8-byte accept time (bytes 206..214)
/// read as a big-endian number.
pub proof fn lemma_accept_key_is_all_eight_bytes(q: Seq<u8>)
    requires
        q.len() >= 214,
    ensures
        spec_accept_key(q) == q[206] as int * 0x100000000000000 + q[207] as int * 0x1000000000000
            + q[208] as int * 0x10000000000 + q[209] as int * 0x100000000 + q[210] as int
            * 0x1000000 + q[211] as int * 0x10000 + q[212] as int * 0x100 + q[213] as int,
{
    let b = q.subrange(206, 214);
    assert(b[0] == q[206] && b[1] == q[207] && b[2] == q[208] && b[3] == q[209]);
    assert(b[4] == q[210] && b[5] == q[211] && b[6] == q[212] && b[7] == q[213]);
}

/// Accept times compare as their bytes do: a quote whose accept time bytes
/// (206..214) come first in byte order, at the first byte where they differ,
/// has the smaller sort key, whatever the bytes after it.
pub proof fn lemma_accept_key_follows_byte_order(q1: Seq<u8>, q2: Seq<u8>, j: int)
    requires
        q1.len() >= 214,
        q2.len() >= 214,
        0 <= j < 8,
        forall|i: int| 206 <= i < 206 + j ==> q1[i] == q2[i],
        q1[206 + j] < q2[206 + j],
    ensures
        spec_accept_key(q1) < spec_accept_key(q2),
{
    lemma_accept_key_is_all_eight_bytes(q1);
    lemma_accept_key_is_all_eight_bytes(q2);
    assert(j > 0 ==> q1[206] == q2[206]);
    assert(j > 1 ==> q1[207] == q2[207]);
    assert(j > 2 ==> q1[208] == q2[208]);
    assert(j > 3 ==> q1[209] == q2[209]);
    assert(j > 4 ==> q1[210] == q2[210]);
    assert(j > 5 ==> q1[211] == q2[211]);
    assert(j > 6 ==> q1[212] == q2[212]);
}

/// A quote that `extract_quote` returns is a quote payload itself:
/// extracting from it gives it back unchanged.
pub proof fn lemma_extract_quote_idempotent(payload: Seq<u8>)
    ensures
        match spec_extract_quote(payload) {
            Some(q) => spec_extract_quote(q) == Some(q),
            None => true,
        },
{
    if let Some(q) = spec_extract_quote(payload) {
        assert(q.subrange(0, QUOTE_PACKET_LENGTH as int) =~= q);
    }
}

/// Formats a quote into `out`, replacing what it held: the capture timestamp
/// `ts_sec.ts_usec` (microseconds zero-padded to six digits), the accept time,
/// the issue code, the bids from 5th to 1st and the asks from 1st to 5th, each
/// as `qty@price`.
pub fn format_output_string(ts_sec: u32, ts_usec: u32, payload: &[u8], out: &mut Vec<u8>)
    requires
        payload@.len() >= 214,
    ensures
        final(out)@ == quote_text(ts_sec, ts_usec, payload@),
{
    out.clear();
    push_timestamp(out, ts_sec, ts_usec);
    append_bytes(out, &payload[206..214]);
    out.push(32u8);
    append_bytes(out, &payload[5..17]);
    push_book(out, payload);
}


/// Statistics of a parsed capture.
#[derive(Debug, Default, Clone, Copy, PartialEq, Eq)]
pub struct ParseStats {
    /// Number of valid KOSPI 200 quote packets parsed.
    pub quotes: usize,
    /// Peak number of packets held at once in the reorder window.
    pub max_heap_size: usize,
}

/// A quote waiting in the reorder window. The payload is not copied: it is a
/// slice of the capture.
#[derive(Clone, Copy)]
pub struct QuotePacket<'a> {
    /// The exchange accept time, read big-endian from bytes 206..214.
    pub accept_key: u64,
    /// Network arrival time (µs).
    pub pkt_time: u64,
    /// Capture timestamp, seconds.
    pub ts_sec: u32,
    /// Capture timestamp, microseconds.
    pub ts_usec: u32,
    /// The 215 bytes of the quote.
    pub payload: &'a [u8],
    /// How many quotes of the capture came before this one: quotes with equal
    /// accept and arrival times leave in capture order.
    pub arrival: u64,
}

impl<'a> View for QuotePacket<'a> {
    type V = DatagramView;

    open spec fn view(&self) -> DatagramView {
        (self.ts_sec, self.ts_usec, self.payload@)
    }
}

impl<'a> ReorderKey for QuotePacket<'a> {
    open spec fn spec_accept_key(&self) -> u64 {
        self.accept_key
    }

    open spec fn spec_pkt_time(&self) -> u64 {
        self.pkt_time
    }

    open spec fn spec_tie(&self) -> u64 {
        self.arrival
    }

    fn accept_key(&self) -> (r: u64) {
        self.accept_key
    }

    fn pkt_time(&self) -> (r: u64) {
        self.pkt_time
    }

    fn tie(&self) -> (r: u64) {
        self.arrival
    }
}

/// The keys of a packet are those of its quote and timestamp.
pub open spec fn well_keyed(p: QuotePacket) -> bool {
    &&& p.payload@.len() == QUOTE_PACKET_LENGTH
    &&& p.accept_key == spec_accept_key(p.payload@)
    &&& p.pkt_time == spec_pkt_time(p.ts_sec, p.ts_usec)
}

/// The keys of a packet are those of its quote and timestamp, and it is the
/// capture's quote number `arrival` (counting from 0).
pub open spec fn keyed(p: QuotePacket, arrival: int) -> bool {
    &&& well_keyed(p)
    &&& p.arrival == arrival
}

/// The text of a packet's quote.
pub open spec fn packet_text(p: QuotePacket) -> Seq<u8> {
    quote_text(p.ts_sec, p.ts_usec, p.payload@)
}

/// The quotes among feed datagrams, in order, each with its datagram's
/// timestamp.
pub open spec fn spec_quotes(ds: Seq<DatagramView>) -> Seq<DatagramView>
    decreases ds.len(),
{
    if ds.len() == 0 {
        Seq::empty()
    } else {
        let d = ds.last();
        match spec_extract_quote(d.2) {
            Some(q) => spec_quotes(ds.drop_last()).push((d.0, d.1, q)),
            None => spec_quotes(ds.drop_last()),
        }
    }
}

/// The views of packets.
pub open spec fn packet_views<'a>(ps: Seq<QuotePacket<'a>>) -> Seq<DatagramView> {
    ps.map_values(|p: QuotePacket<'a>| p@)
}

/// The texts of packets.
pub open spec fn packet_texts<'a>(ps: Seq<QuotePacket<'a>>) -> Seq<Seq<u8>> {
    ps.map_values(|p: QuotePacket<'a>| packet_text(p))
}

/// The text of a quote with its timestamp.
pub open spec fn view_text(v: DatagramView) -> Seq<u8> {
    quote_text(v.0, v.1, v.2)
}

/// The quotes of a capture, in capture order, each with the timestamp of its
/// record (none when the capture cannot be read).
pub open spec fn capture_quotes(data: Seq<u8>) -> Seq<DatagramView> {
    match spec_capture(data) {
        Ok(ds) => spec_quotes(ds),
        Err(_) => Seq::empty(),
    }
}

/// What parsing the capture `data` gives: the statistics and the output
/// lines. Without reordering, one line per quote in capture order. With
/// reordering, the quotes pass through the reorder window one by one and it
/// is drained at the end of the capture; the packets that pass hold slices of
/// `data`.
pub open spec fn pcap_output<'a>(
    data: &'a [u8],
    reorder: bool,
    stats: ParseStats,
    lines: Seq<Seq<u8>>,
) -> bool {
    let quotes = capture_quotes(data@);
    &&& stats.quotes == quotes.len()
    &&& !reorder ==> lines == quotes.map_values(|v: DatagramView| view_text(v))
        && stats.max_heap_size == 0
    &&& reorder ==> exists|arrived: Seq<QuotePacket<'a>>, out: Seq<QuotePacket<'a>>|
        {
            &&& #[trigger] packet_views(arrived) == quotes
            &&& forall|i: int| 0 <= i < arrived.len() ==> keyed(#[trigger] arrived[i], i)
            &&& #[trigger] complete_run(arrived, out, stats.max_heap_size as nat)
            &&& lines == packet_texts(out)
        }
}

/// A capture is parsed in one way only: the statistics and the lines that
/// parsing gives are determined by the capture and `reorder`. (With
/// reordering, quotes with equal accept and arrival times leave in capture
/// order.)
pub proof fn lemma_pcap_output_unique<'a>(
    data: &'a [u8],
    reorder: bool,
    stats1: ParseStats,
    lines1: Seq<Seq<u8>>,
    stats2: ParseStats,
    lines2: Seq<Seq<u8>>,
)
    requires
        pcap_output(data, reorder, stats1, lines1),
        pcap_output(data, reorder, stats2, lines2),
    ensures
        stats1 == stats2,
        lines1 == lines2,
{
    let quotes = capture_quotes(data@);
    if reorder {
        let (a1, o1) = choose|arrived: Seq<QuotePacket<'a>>, out: Seq<QuotePacket<'a>>|
            {
                &&& #[trigger] packet_views(arrived) == quotes
                &&& forall|i: int| 0 <= i < arrived.len() ==> keyed(#[trigger] arrived[i], i)
                &&& #[trigger] complete_run(arrived, out, stats1.max_heap_size as nat)
                &&& lines1 == packet_texts(out)
            };
        let (a2, o2) = choose|arrived: Seq<QuotePacket<'a>>, out: Seq<QuotePacket<'a>>|
            {
                &&& #[trigger] packet_views(arrived) == quotes
                &&& forall|i: int| 0 <= i < arrived.len() ==> keyed(#[trigger] arrived[i], i)
                &&& #[trigger] complete_run(arrived, out, stats2.max_heap_size as nat)
                &&& lines2 == packet_texts(out)
            };
        assert(a1.len() == a2.len()) by {
            assert(packet_views(a1).len() == packet_views(a2).len());
        }
        assert forall|i: int| 0 <= i < a1.len() implies a1[i] == a2[i] by {
            assert(packet_views(a1)[i] == packet_views(a2)[i]);
            assert(keyed(a1[i], i) && keyed(a2[i], i));
            assert(a1[i].payload =~= a2[i].payload);
        }
        assert(a1 =~= a2);
        assert forall|x: QuotePacket<'a>, y: QuotePacket<'a>|
            #[trigger] a1.to_multiset().contains(x) && #[trigger] a1.to_multiset().contains(y)
                && key_le(x, y) && key_le(y, x) implies x == y by {
            assert(a1.to_multiset().count(x) > 0 && a1.to_multiset().count(y) > 0);
            assert(a1.contains(x) && a1.contains(y));
            let i = choose|i: int| 0 <= i < a1.len() && a1[i] == x;
            let j = choose|j: int| 0 <= j < a1.len() && a1[j] == y;
            assert(keyed(a1[i], i) && keyed(a1[j], j));
        }
        lemma_complete_run_unique(
            a1,
            o1,
            stats1.max_heap_size as nat,
            o2,
            stats2.max_heap_size as nat,
        );
    }
    assert(stats1.quotes == stats2.quotes);
    assert(stats1.max_heap_size == stats2.max_heap_size);
}

/// The statistics and lines of a capture's parse (see `pcap_output`).
pub open spec fn capture_output<'a>(data: &'a [u8], reorder: bool) -> (ParseStats, Seq<Seq<u8>>) {
    choose|o: (ParseStats, Seq<Seq<u8>>)| pcap_output(data, reorder, o.0, o.1)
}

/// A parse that meets `pcap_output` is the capture's parse.
proof fn lemma_is_capture_output<'a>(
    data: &'a [u8],
    reorder: bool,
    stats: ParseStats,
    lines: Seq<Seq<u8>>,
)
    requires
        pcap_output(data, reorder, stats, lines),
    ensures
        capture_output(data, reorder) == (stats, lines),
        pcap_output(data, reorder, capture_output(data, reorder).0, capture_output(data, reorder).1),
{
    let o = (stats, lines);
    assert(pcap_output(data, reorder, o.0, o.1));
    let c = capture_output(data, reorder);
    lemma_pcap_output_unique(data, reorder, c.0, c.1, stats, lines);
}

/// The views of byte lines.
pub open spec fn lines_view(lines: Seq<Vec<u8>>) -> Seq<Seq<u8>> {
    lines.map_values(|l: Vec<u8>| l@)
}

/// Releases, in order, the waiting packets that are due at network time
/// `now`, formatting each into a line.
fn release_due<'a>(
    heap: &mut ReorderHeap<QuotePacket<'a>>,
    now: u64,
    lines: &mut Vec<Vec<u8>>,
) -> (batch: Ghost<Seq<QuotePacket<'a>>>)
    requires
        forall|x: QuotePacket<'a>| #[trigger] old(heap)@.contains(x) ==> well_keyed(x),
    ensures
        release_step(old(heap)@, now, batch@, final(heap)@),
        lines_view(final(lines)@) == lines_view(old(lines)@) + packet_texts(batch@),
        forall|x: QuotePacket<'a>| #[trigger] final(heap)@.contains(x) ==> well_keyed(x),
{
    let ghost start = heap@;
    let ghost lines0 = lines@;
    let ghost mut e: Seq<QuotePacket<'a>> = Seq::empty();
    proof {
        assert(e.to_multiset() =~= Multiset::empty());
        assert(start.add(e.to_multiset()) =~= start);
        assert(lines_view(lines0) + packet_texts(e) =~= lines_view(lines0));
    }
    loop
        invariant
            heap@.add(e.to_multiset()) == start,
            crate::reorder::sorted(e),
            forall|i: int| 0 <= i < e.len() ==> crate::reorder::due(#[trigger] e[i], now),
            forall|i: int, y: QuotePacket<'a>|
                0 <= i < e.len() && #[trigger] heap@.contains(y) ==> crate::reorder::key_le(#[trigger] e[i], y),
            lines_view(lines@) == lines_view(lines0) + packet_texts(e),
            forall|x: QuotePacket<'a>| #[trigger] heap@.contains(x) ==> well_keyed(x),
        ensures
            release_step(start, now, e, heap@),
            lines_view(lines@) == lines_view(lines0) + packet_texts(e),
            forall|x: QuotePacket<'a>| #[trigger] heap@.contains(x) ==> well_keyed(x),
        decreases heap@.len(),
    {
        let top = match heap.peek() {
            Some(p) => *p,
            None => {
                break;
            },
        };
        if top.pkt_time + MAX_DELAY_MICROSECONDS > now {
            break;
        }
        let ghost h = heap@;
        let packet = match heap.pop() {
            Some(p) => p,
            None => {
                break;
            },
        };
        proof {
            assert(crate::reorder::key_le(packet, top) && crate::reorder::key_le(top, packet));
            assert(h.contains(packet));
        }
        let mut line: Vec<u8> = Vec::new();
        format_output_string(packet.ts_sec, packet.ts_usec, packet.payload, &mut line);
        let ghost lines_before = lines@;
        lines.push(line);
        let ghost e_old = e;
        proof {
            e = e.push(packet);
            assert(lines_view(lines@) =~= lines_view(lines_before).push(packet_text(packet)));
            assert(packet_texts(e) =~= packet_texts(e_old).push(packet_text(packet)));
            assert(heap@.add(e.to_multiset()) =~= start);
            assert forall|i: int, j: int| 0 <= i <= j < e.len() implies crate::reorder::key_le(
                #[trigger] e[i],
                #[trigger] e[j],
            ) by {
                if j == e.len() - 1 && i < j {
                    assert(e_old[i] == e[i]);
                }
            }
            assert forall|i: int, y: QuotePacket<'a>|
                0 <= i < e.len() && #[trigger] heap@.contains(y) implies crate::reorder::key_le(
                #[trigger] e[i],
                y,
            ) by {
                assert(h.contains(y));
                if i < e.len() - 1 {
                    assert(e_old[i] == e[i]);
                }
            }
            assert forall|x: QuotePacket<'a>| #[trigger] heap@.contains(x) implies well_keyed(x) by {
                assert(h.contains(x));
            }
        }
    }
    Ghost(e)
}

/// Releases every waiting packet, in order, formatting each into a line.
fn drain<'a>(heap: &mut ReorderHeap<QuotePacket<'a>>, lines: &mut Vec<Vec<u8>>) -> (rest: Ghost<
    Seq<QuotePacket<'a>>,
>)
    requires
        forall|x: QuotePacket<'a>| #[trigger] old(heap)@.contains(x) ==> well_keyed(x),
    ensures
        drain_step(old(heap)@, rest@),
        lines_view(final(lines)@) == lines_view(old(lines)@) + packet_texts(rest@),
{
    let ghost start = heap@;
    let ghost lines0 = lines@;
    let ghost mut e: Seq<QuotePacket<'a>> = Seq::empty();
    proof {
        assert(e.to_multiset() =~= Multiset::empty());
        assert(start.add(e.to_multiset()) =~= start);
        assert(lines_view(lines0) + packet_texts(e) =~= lines_view(lines0));
    }
    loop
        invariant
            heap@.add(e.to_multiset()) == start,
            crate::reorder::sorted(e),
            forall|i: int, y: QuotePacket<'a>|
                0 <= i < e.len() && #[trigger] heap@.contains(y) ==> crate::reorder::key_le(#[trigger] e[i], y),
            lines_view(lines@) == lines_view(lines0) + packet_texts(e),
            forall|x: QuotePacket<'a>| #[trigger] heap@.contains(x) ==> well_keyed(x),
        ensures
            drain_step(start, e),
            lines_view(lines@) == lines_view(lines0) + packet_texts(e),
        decreases heap@.len(),
    {
        let ghost h = heap@;
        let packet = match heap.pop() {
            Some(p) => p,
            None => {
                proof {
                    vstd::multiset::lemma_multiset_empty_len(h);
                    assert(start =~= e.to_multiset());
                }
                break;
            },
        };
        proof {
            assert(h.contains(packet));
        }
        let mut line: Vec<u8> = Vec::new();
        format_output_string(packet.ts_sec, packet.ts_usec, packet.payload, &mut line);
        let ghost lines_before = lines@;
        lines.push(line);
        let ghost e_old = e;
        proof {
            e = e.push(packet);
            assert(lines_view(lines@) =~= lines_view(lines_before).push(packet_text(packet)));
            assert(packet_texts(e) =~= packet_texts(e_old).push(packet_text(packet)));
            assert(heap@.add(e.to_multiset()) =~= start);
            assert forall|i: int, j: int| 0 <= i <= j < e.len() implies crate::reorder::key_le(
                #[trigger] e[i],
                #[trigger] e[j],
            ) by {
                if j == e.len() - 1 && i < j {
                    assert(e_old[i] == e[i]);
                }
            }
            assert forall|i: int, y: QuotePacket<'a>|
                0 <= i < e.len() && #[trigger] heap@.contains(y) implies crate::reorder::key_le(
                #[trigger] e[i],
                y,
            ) by {
                assert(h.contains(y));
                if i < e.len() - 1 {
                    assert(e_old[i] == e[i]);
                }
            }
            assert forall|x: QuotePacket<'a>| #[trigger] heap@.contains(x) implies well_keyed(x) by {
                assert(h.contains(x));
            }
        }
    }
    Ghost(e)
}


/// There are no more quotes than datagrams.
proof fn lemma_quotes_len(ds: Seq<DatagramView>)
    ensures
        spec_quotes(ds).len() <= ds.len(),
    decreases ds.len(),
{
    if ds.len() > 0 {
        lemma_quotes_len(ds.drop_last());
    }
}

/// Parses a capture held in memory.
///
/// Each feed datagram that holds a KOSPI 200 quote gives one line (see
/// `format_output_string`). Without `reorder` the lines come in capture
/// order. With `reorder` the quotes pass through a reorder window keyed by
/// exchange accept time: after each quote, every quote that has waited 3 s of
/// network time behind the newest packet is released in accept-time order,
/// and the rest are released in order at the end of the capture.
pub fn parse_pcap_with_stats<'a>(data: &'a [u8], reorder: bool) -> (r: Result<
    (ParseStats, Vec<Vec<u8>>),
    PcapError,
>)
    ensures
        match spec_capture(data@) {
            Ok(_) => r matches Ok((stats, lines)) && pcap_output(
                data,
                reorder,
                stats,
                lines_view(lines@),
            ) && (stats, lines_view(lines@)) == capture_output(data, reorder),
            Err(e) => r matches Err(e2) && e2 == e,
        },
{
    let mut reader = match PcapReader::new(data) {
        Ok(reader) => reader,
        Err(e) => return Err(e),
    };
    let ghost all = reader@;
    let data_len = data.len();
    proof {
        crate::sources::lemma_datagrams_len(data@, crate::sources::spec_pcap_context(data@, true).unwrap(), 24);
    }
    let mut heap: ReorderHeap<QuotePacket<'a>> = ReorderHeap::new();
    let mut max_time: u64 = 0;
    let mut quotes: usize = 0;
    let mut peak: usize = 0;
    let mut lines: Vec<Vec<u8>> = Vec::new();
    let ghost mut consumed: Seq<DatagramView> = Seq::empty();
    let ghost mut arrived: Seq<QuotePacket<'a>> = Seq::empty();
    let ghost mut batches: Seq<Seq<QuotePacket<'a>>> = Seq::empty();
    let ghost mut held: Seq<Multiset<QuotePacket<'a>>> = seq![heap@];
    let ghost mut peaks: Seq<nat> = seq![0nat];
    proof {
        assert(consumed + reader@ =~= all);
        assert(packet_views(arrived) =~= spec_quotes(consumed));
        assert(lines_view(lines@) =~= packet_texts(concat(batches)));
        assert(lines_view(lines@) =~= spec_quotes(consumed).map_values(|v: DatagramView| view_text(v)));
    }
    loop
        invariant
            all == consumed + reader@,
            all.len() <= data@.len(),
            data_len == data@.len(),
            packet_views(arrived) == spec_quotes(consumed),
            forall|i: int| 0 <= i < arrived.len() ==> keyed(#[trigger] arrived[i], i),
            quotes == arrived.len(),
            max_time == newest_time(arrived),
            reorder ==> {
                &&& window_trace(arrived, batches, held, peaks)
                &&& heap@ == held.last()
                &&& peak as nat == peaks.last()
                &&& lines_view(lines@) == packet_texts(concat(batches))
                &&& forall|x: QuotePacket<'a>| #[trigger] heap@.contains(x) ==> well_keyed(x)
            },
            !reorder ==> {
                &&& peak == 0
                &&& lines_view(lines@) == spec_quotes(consumed).map_values(|v: DatagramView| view_text(v))
            },
        ensures
            all == consumed + reader@,
            all.len() <= data@.len(),
            data_len == data@.len(),
            packet_views(arrived) == spec_quotes(consumed),
            forall|i: int| 0 <= i < arrived.len() ==> keyed(#[trigger] arrived[i], i),
            quotes == arrived.len(),
            max_time == newest_time(arrived),
            reorder ==> {
                &&& window_trace(arrived, batches, held, peaks)
                &&& heap@ == held.last()
                &&& peak as nat == peaks.last()
                &&& lines_view(lines@) == packet_texts(concat(batches))
                &&& forall|x: QuotePacket<'a>| #[trigger] heap@.contains(x) ==> well_keyed(x)
            },
            !reorder ==> {
                &&& peak == 0
                &&& lines_view(lines@) == spec_quotes(consumed).map_values(|v: DatagramView| view_text(v))
            },
            reader@.len() == 0,
        decreases reader@.len(),
    {
        let d = match reader.next_datagram() {
            Some(d) => d,
            None => {
                proof {
                    assert(consumed + reader@ =~= consumed);
                }
                break;
            },
        };
        let ghost consumed_old = consumed;
        proof {
            consumed = consumed.push(d@);
            assert(consumed.drop_last() =~= consumed_old);
            assert(all =~= consumed + reader@);
            lemma_quotes_len(consumed);
        }
        let quote = match extract_quote(d.payload) {
            Some(q) => q,
            None => {
                continue;
            },
        };
        proof {
            assert(spec_quotes(consumed).len() == spec_quotes(consumed_old).len() + 1);
            assert(all.len() <= data_len);
        }
        quotes += 1;
        let pkt_time = d.ts_sec as u64 * 1000000 + d.ts_usec as u64;
        if pkt_time > max_time {
            max_time = pkt_time;
        }
        let accept_key = read_u64_be(&quote[206..214]);
        let packet = QuotePacket {
            accept_key,
            pkt_time,
            ts_sec: d.ts_sec,
            ts_usec: d.ts_usec,
            payload: quote,
            arrival: (quotes - 1) as u64,
        };
        let ghost arrived_old = arrived;
        proof {
            arrived = arrived.push(packet);
            assert(arrived.drop_last() =~= arrived_old);
            assert(packet_views(arrived) =~= packet_views(arrived_old).push(packet@));
            assert(quote@.subrange(206, 214) =~= d.payload@.subrange(0, 215).subrange(206, 214));
            assert(keyed(packet, arrived.len() - 1));
        }
        if !reorder {
            let mut line: Vec<u8> = Vec::new();
            format_output_string(d.ts_sec, d.ts_usec, quote, &mut line);
            let ghost lines_before = lines@;
            lines.push(line);
            proof {
                assert(lines_view(lines@) =~= lines_view(lines_before).push(view_text(packet@)));
                assert(spec_quotes(consumed).map_values(|v: DatagramView| view_text(v)) =~= spec_quotes(consumed_old).map_values(|v: DatagramView| view_text(v)).push(view_text(packet@)));
            }
            continue;
        }
        let ghost heap_old = heap@;
        heap.push(packet);
        proof {
            assert forall|x: QuotePacket<'a>| #[trigger] heap@.contains(x) implies well_keyed(x) by {
                if x != packet {
                    assert(heap_old.contains(x));
                }
            }
        }
        let n = heap.len();
        if n > peak {
            peak = n;
        }
        let ghost lines_before = lines@;
        let batch = release_due(&mut heap, max_time, &mut lines);
        proof {
            let batches_old = batches;
            let held_old = held;
            let peaks_old = peaks;
            batches = batches.push(batch@);
            held = held.push(heap@);
            peaks = peaks.push(peak as nat);
            assert(batches.drop_last() =~= batches_old);
            assert(held.drop_last() =~= held_old);
            assert(peaks.drop_last() =~= peaks_old);
            assert(concat(batches) == concat(batches_old) + batch@);
            assert(packet_texts(concat(batches)) =~= packet_texts(concat(batches_old)) + packet_texts(batch@));
            assert(window_trace(arrived, batches, held, peaks));
        }
    }
    if reorder {
        let rest = drain(&mut heap, &mut lines);
        proof {
            let out = concat(batches) + rest@;
            assert(packet_texts(out) =~= packet_texts(concat(batches)) + packet_texts(rest@));
            assert(complete_run(arrived, out, peak as nat));
            assert(lines_view(lines@) == packet_texts(out));
            assert(packet_views(arrived) == spec_quotes(consumed));
            assert(consumed =~= all);
            assert(packet_views(arrived) == capture_quotes(data@));
            assert(forall|i: int| 0 <= i < arrived.len() ==> keyed(#[trigger] arrived[i], i));
            let stats = ParseStats { quotes, max_heap_size: peak };
            let a = arrived;
            assert({
                    &&& packet_views(a) == capture_quotes(data@)
                    &&& forall|i: int| 0 <= i < a.len() ==> keyed(#[trigger] a[i], i)
                    &&& complete_run(a, out, stats.max_heap_size as nat)
                    &&& lines_view(lines@) == packet_texts(out)
                });
            assert(exists|arrived: Seq<QuotePacket<'a>>, out: Seq<QuotePacket<'a>>|
                {
                    &&& #[trigger] packet_views(arrived) == capture_quotes(data@)
                    &&& forall|i: int| 0 <= i < arrived.len() ==> keyed(#[trigger] arrived[i], i)
                    &&& #[trigger] complete_run(arrived, out, stats.max_heap_size as nat)
                    &&& lines_view(lines@) == packet_texts(out)
                });
        }
    }
    proof {
        assert(consumed =~= all);
        assert(capture_quotes(data@) == spec_quotes(consumed));
        lemma_is_capture_output(
            data,
            reorder,
            ParseStats { quotes, max_heap_size: peak },
            lines_view(lines@),
        );
    }
    Ok((ParseStats { quotes, max_heap_size: peak }, lines))
}



/// Every quote of the capture gives exactly one line, with or without
/// reordering.
pub proof fn lemma_one_line_per_quote<'a>(
    data: &'a [u8],
    reorder: bool,
    stats: ParseStats,
    lines: Seq<Seq<u8>>,
)
    requires
        pcap_output(data, reorder, stats, lines),
    ensures
        lines.len() == stats.quotes,
        stats.quotes == capture_quotes(data@).len(),
{
    if reorder {
        let (arrived, out) = choose|arrived: Seq<QuotePacket<'a>>, out: Seq<QuotePacket<'a>>|
            {
                &&& #[trigger] packet_views(arrived) == capture_quotes(data@)
                &&& forall|i: int| 0 <= i < arrived.len() ==> keyed(#[trigger] arrived[i], i)
                &&& #[trigger] complete_run(arrived, out, stats.max_heap_size as nat)
                &&& lines == packet_texts(out)
            };
        lemma_complete_run_is_permutation(arrived, out, stats.max_heap_size as nat);
    }
}

/// The peak of the reorder window is at most the number of quotes, and at
/// least 1 when reordering a capture that holds a quote; it is 0 without
/// reordering.
pub proof fn lemma_peak_bounds<'a>(
    data: &'a [u8],
    reorder: bool,
    stats: ParseStats,
    lines: Seq<Seq<u8>>,
)
    requires
        pcap_output(data, reorder, stats, lines),
    ensures
        stats.max_heap_size <= stats.quotes,
        reorder && stats.quotes > 0 ==> stats.max_heap_size >= 1,
        !reorder ==> stats.max_heap_size == 0,
{
    if reorder {
        let (arrived, out) = choose|arrived: Seq<QuotePacket<'a>>, out: Seq<QuotePacket<'a>>|
            {
                &&& #[trigger] packet_views(arrived) == capture_quotes(data@)
                &&& forall|i: int| 0 <= i < arrived.len() ==> keyed(#[trigger] arrived[i], i)
                &&& #[trigger] complete_run(arrived, out, stats.max_heap_size as nat)
                &&& lines == packet_texts(out)
            };
        assert(packet_views(arrived).len() == arrived.len());
        lemma_complete_run_peak(arrived, out, stats.max_heap_size as nat);
    }
}

/// Reordering neither adds nor drops a line: parsing a capture with and
/// without it gives as many lines.
pub proof fn lemma_reorder_preserves_line_count<'a>(
    data: &'a [u8],
    plain_stats: ParseStats,
    plain_lines: Seq<Seq<u8>>,
    sorted_stats: ParseStats,
    sorted_lines: Seq<Seq<u8>>,
)
    requires
        pcap_output(data, false, plain_stats, plain_lines),
        pcap_output(data, true, sorted_stats, sorted_lines),
    ensures
        plain_lines.len() == sorted_lines.len(),
        plain_stats.quotes == sorted_stats.quotes,
{
    lemma_one_line_per_quote(data, false, plain_stats, plain_lines);
    lemma_one_line_per_quote(data, true, sorted_stats, sorted_lines);
}

/// The network arrival time of a quote with its timestamp.
pub open spec fn view_time(v: DatagramView) -> u64 {
    spec_pkt_time(v.0, v.1)
}

/// The newest arrival time among quotes (0 when there are none).
pub open spec fn newest_view_time(vs: Seq<DatagramView>) -> u64
    decreases vs.len(),
{
    if vs.len() == 0 {
        0
    } else {
        let before = newest_view_time(vs.drop_last());
        if view_time(vs.last()) > before {
            view_time(vs.last())
        } else {
            before
        }
    }
}

/// Quote `a` comes no later than quote `b`: by accept time, then by arrival
/// time.
pub open spec fn view_comes_first(a: DatagramView, b: DatagramView) -> bool {
    ||| spec_accept_key(a.2) < spec_accept_key(b.2)
    ||| (spec_accept_key(a.2) == spec_accept_key(b.2) && view_time(a) <= view_time(b))
}

/// No quote of a capture arrives too late for the reorder window: whenever a
/// quote comes before one that arrived earlier, the earlier one has not yet
/// waited its 3 s of network time when the later one arrives.
pub open spec fn quotes_in_window(quotes: Seq<DatagramView>) -> bool {
    forall|i: int, j: int|
        0 <= i < j < quotes.len() ==> view_comes_first(#[trigger] quotes[i], #[trigger] quotes[j])
            || view_time(quotes[i]) + MAX_DELAY_MICROSECONDS > newest_view_time(quotes.take(j))
}

proof fn lemma_newest_time_of_views<'a>(arrived: Seq<QuotePacket<'a>>)
    requires
        forall|i: int| 0 <= i < arrived.len() ==> keyed(#[trigger] arrived[i], i),
    ensures
        newest_time(arrived) == newest_view_time(packet_views(arrived)),
    decreases arrived.len(),
{
    if arrived.len() > 0 {
        let a0 = arrived.drop_last();
        assert forall|i: int| 0 <= i < a0.len() implies keyed(#[trigger] a0[i], i) by {
            assert(a0[i] == arrived[i]);
        }
        lemma_newest_time_of_views(a0);
        assert(packet_views(arrived).drop_last() =~= packet_views(a0));
        assert(keyed(arrived[arrived.len() - 1], arrived.len() - 1));
    }
}

/// With reordering, when no quote of the capture arrives too late for the
/// window, the lines come out in accept-time order (then arrival order): they
/// are the texts of the capture's quotes, in that order.
pub proof fn lemma_reordered_lines_in_accept_order<'a>(
    data: &'a [u8],
    stats: ParseStats,
    lines: Seq<Seq<u8>>,
)
    requires
        pcap_output(data, true, stats, lines),
        quotes_in_window(capture_quotes(data@)),
    ensures
        exists|out: Seq<QuotePacket<'a>>|
            {
                &&& #[trigger] packet_texts(out) == lines
                &&& sorted(out)
                &&& packet_views(out).to_multiset() == capture_quotes(data@).to_multiset()
            },
{
    let quotes = capture_quotes(data@);
    let (arrived, out) = choose|arrived: Seq<QuotePacket<'a>>, out: Seq<QuotePacket<'a>>|
        {
            &&& #[trigger] packet_views(arrived) == quotes
            &&& forall|i: int| 0 <= i < arrived.len() ==> keyed(#[trigger] arrived[i], i)
            &&& #[trigger] complete_run(arrived, out, stats.max_heap_size as nat)
            &&& lines == packet_texts(out)
        };
    assert forall|i: int, j: int| 0 <= i < j < arrived.len() implies key_le(
        #[trigger] arrived[i],
        #[trigger] arrived[j],
    ) || arrived[i].spec_pkt_time() + MAX_DELAY_MICROSECONDS > newest_time(arrived.take(j)) by {
        assert(quotes[i] == arrived[i]@ && quotes[j] == arrived[j]@);
        assert(keyed(arrived[i], i) && keyed(arrived[j], j));
        let t = arrived.take(j);
        assert forall|k: int| 0 <= k < t.len() implies keyed(#[trigger] t[k], k) by {
            assert(t[k] == arrived[k]);
        }
        lemma_newest_time_of_views(t);
        assert(packet_views(t) =~= quotes.take(j));
    }
    assert(no_late_arrival(arrived));
    lemma_complete_run_sorted(arrived, out, stats.max_heap_size as nat);
    lemma_complete_run_is_permutation(arrived, out, stats.max_heap_size as nat);
    lemma_views_permutation(arrived, out);
}

/// Packets that are a permutation of each other have views that are a
/// permutation of each other.
proof fn lemma_views_permutation<'a>(a: Seq<QuotePacket<'a>>, b: Seq<QuotePacket<'a>>)
    requires
        a.to_multiset() == b.to_multiset(),
    ensures
        packet_views(a).to_multiset() == packet_views(b).to_multiset(),
    decreases a.len(),
{
    if a.len() == 0 {
        assert(b.to_multiset().len() == 0);
        assert(b.len() == 0);
        assert(packet_views(a) =~= packet_views(b));
    } else {
        let x = a.last();
        assert(a.to_multiset().count(x) > 0);
        assert(b.contains(x));
        let k = choose|k: int| 0 <= k < b.len() && b[k] == x;
        let a0 = a.drop_last();
        let b0 = b.remove(k);
        assert(a =~= a0.push(x));
        assert(a0.to_multiset() =~= a.to_multiset().remove(x));
        assert(b0.to_multiset() =~= b.to_multiset().remove(x));
        lemma_views_permutation(a0, b0);
        assert(packet_views(a) =~= packet_views(a0).push(x@));
        assert(packet_views(b0) =~= packet_views(b).remove(k));
        assert(packet_views(b)[k] == x@);
        assert(packet_views(b0).to_multiset() == packet_views(b).to_multiset().remove(x@));
        assert(packet_views(b).to_multiset().count(x@) > 0) by {
            assert(packet_views(b).contains(x@));
        }
        assert(packet_views(a).to_multiset() =~= packet_views(b).to_multiset());
    }
}

/// What `String::from_utf8_lossy` makes of a byte sequence.
pub uninterp spec fn utf8_lossy(bytes: Seq<u8>) -> Seq<char>;

/// Decodes bytes as UTF-8 with `String::from_utf8_lossy`, which replaces
/// each invalid sequence by U+FFFD.
///
/// Trusted: the result is named `utf8_lossy` of the bytes; std documents
/// that valid UTF-8 comes back unchanged, which the second clause states. What
/// an invalid sequence becomes is left unsaid.
#[verifier::external_body]
fn string_from_utf8_lossy(bytes: &[u8]) -> (s: String)
    ensures
        s@ == utf8_lossy(bytes@),
        vstd::utf8::valid_utf8(bytes@) ==> s@ == vstd::utf8::decode_utf8(bytes@),
{
    String::from_utf8_lossy(bytes).into_owned()
}

/// The lines, each decoded with `String::from_utf8_lossy`.
pub open spec fn decoded_lines(lines: Seq<Seq<u8>>) -> Seq<Seq<char>> {
    lines.map_values(|l: Seq<u8>| utf8_lossy(l))
}

/// The views of strings.
pub open spec fn strings_view(v: Seq<String>) -> Seq<Seq<char>> {
    v.map_values(|s: String| s@)
}

/// Parses a capture held in memory into its output lines as strings (see
/// `parse_pcap_with_stats`).
pub fn parse_pcap<'a>(data: &'a [u8], reorder: bool) -> (r: Result<Vec<String>, PcapError>)
    ensures
        match spec_capture(data@) {
            Ok(_) => r matches Ok(v) && strings_view(v@) == decoded_lines(
                capture_output(data, reorder).1,
            ) && pcap_output(
                data,
                reorder,
                capture_output(data, reorder).0,
                capture_output(data, reorder).1,
            ),
            Err(e) => r matches Err(e2) && e2 == e,
        },
{
    let (stats, lines) = match parse_pcap_with_stats(data, reorder) {
        Ok(out) => out,
        Err(e) => return Err(e),
    };
    let mut result: Vec<String> = Vec::new();
    let mut i: usize = 0;
    while i < lines.len()
        invariant
            i <= lines@.len(),
            strings_view(result@) == decoded_lines(lines_view(lines@).take(i as int)),
        decreases lines@.len() - i,
    {
        let s = string_from_utf8_lossy(lines[i].as_slice());
        let ghost before = result@;
        result.push(s);
        i += 1;
        proof {
            assert(strings_view(result@) =~= strings_view(before).push(s@));
            assert(lines_view(lines@).take(i as int) =~= lines_view(lines@).take(i - 1).push(
                lines@[i - 1]@,
            ));
            assert(decoded_lines(lines_view(lines@).take(i as int)) =~= decoded_lines(
                lines_view(lines@).take(i - 1),
            ).push(utf8_lossy(lines@[i - 1]@)));
        }
    }
    proof {
        assert(lines_view(lines@).take(lines@.len() as int) =~= lines_view(lines@));
        lemma_is_capture_output(data, reorder, stats, lines_view(lines@));
    }
    Ok(result)
}

/// `parts` joined by `sep`.
pub open spec fn joined(parts: Seq<Seq<char>>, sep: Seq<char>) -> Seq<char>
    decreases parts.len(),
{
    if parts.len() == 0 {
        Seq::empty()
    } else if parts.len() == 1 {
        parts[0]
    } else {
        joined(parts.drop_last(), sep) + sep + parts.last()
    }
}

/// Parses a capture held in memory into one string: its output lines joined
/// by newlines. The capture must be readable.
pub fn parse_to_string<'a>(data: &'a [u8], reorder: bool) -> (r: String)
    requires
        spec_capture(data@) is Ok,
    ensures
        r@ == joined(decoded_lines(capture_output(data, reorder).1), seq!['\n']),
{
    let parts = match parse_pcap(data, reorder) {
        Ok(v) => v,
        Err(_) => {
            proof {
                assert(false);
            }
            Vec::new()
        },
    };
    let ghost parts_view = strings_view(parts@);
    let sep = "\n";
    proof {
        reveal_strlit("\n");
    }
    let mut res = String::new();
    let mut i: usize = 0;
    while i < parts.len()
        invariant
            i <= parts@.len(),
            parts_view == strings_view(parts@),
            sep@ == seq!['\n'],
            res@ == joined(parts_view.take(i as int), seq!['\n']),
        decreases parts@.len() - i,
    {
        if i != 0 {
            res.append(sep);
        }
        res.append(parts[i].as_str());
        i += 1;
        proof {
            assert(parts_view.take(i as int).drop_last() =~= parts_view.take(i - 1));
            if i == 1 {
                assert(res@ =~= joined(parts_view.take(i as int), seq!['\n']));
            }
        }
    }
    proof {
        assert(parts_view.take(parts@.len() as int) =~= parts_view);
    }
    res
}

} // verus!
