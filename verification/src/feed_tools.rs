//! Helpers of the feed tools: the generator of large test captures, which
//! replays a capture's records shifted in time, and the receiver that checks
//! the order of a forwarded quote stream.

use vstd::prelude::*;
use crate::accept_time::{can_shift, shift_accept_time, shifted};
use crate::format::append_bytes;
use crate::quote_parser::{read_u64_be, u64_be};
use crate::sources::u32_le;

verus! {

/// Where a quote's accept time starts in a captured Ethernet frame: 14 bytes
/// of Ethernet, 20 of IPv4 and 8 of UDP header before the quote's offset 206.
pub const ACCEPT_TIME_FRAME_OFFSET: usize = 248;

/// The size of a forwarded quote: capture seconds and microseconds (4 bytes
/// each, little-endian) and the 215 bytes of the quote.
pub const FORWARDED_QUOTE_LEN: usize = 223;

/// The four bytes of `v` in little-endian order.
pub open spec fn le_bytes(v: u32) -> Seq<u8> {
    seq![(v % 0x100) as u8, (v / 0x100 % 0x100) as u8, (v / 0x10000 % 0x100) as u8, (v / 0x1000000) as u8]
}

/// The frame of a record, with the accept time of the quote it carries moved
/// on by `shift_secs` seconds when the frame is long enough to hold one.
pub open spec fn shifted_frame(frame: Seq<u8>, shift_secs: u32) -> Seq<u8> {
    if frame.len() >= ACCEPT_TIME_FRAME_OFFSET + 8 {
        frame.subrange(0, 248) + shifted(frame.subrange(248, 256), shift_secs as int)
            + frame.subrange(256, frame.len() as int)
    } else {
        frame
    }
}

/// A little-endian capture record (a 16-byte record header, then the
/// captured frame) moved on by `shift_secs` seconds: its timestamp seconds
/// and the accept time of its quote.
pub open spec fn spec_shifted_record(record: Seq<u8>, shift_secs: u32) -> Seq<u8> {
    le_bytes((u32_le(record) + shift_secs) as u32) + record.subrange(4, 16) + shifted_frame(
        record.subrange(16, record.len() as int),
        shift_secs,
    )
}

/// A record can be shifted: its seconds stay within `u32`, and the accept
/// time it carries, if any, is made of digits and can be moved on.
pub open spec fn can_shift_record(record: Seq<u8>, shift_secs: u32) -> bool {
    &&& record.len() >= 16
    &&& u32_le(record) + shift_secs <= u32::MAX
    &&& record.len() >= 16 + ACCEPT_TIME_FRAME_OFFSET + 8 ==> can_shift(
        record.subrange(264, 272),
        shift_secs,
    )
}

/// Whether `shifted_record` can move a record on by `shift_secs` seconds (see
/// `can_shift_record`).
pub fn record_can_shift(record: &[u8], shift_secs: u32) -> (r: bool)
    ensures
        r == can_shift_record(record@, shift_secs),
{
    if record.len() < 16 {
        return false;
    }
    let ts_sec = (record[0] as u64) + (record[1] as u64) * 0x100 + (record[2] as u64) * 0x10000
        + (record[3] as u64) * 0x1000000;
    proof {
        assert(ts_sec == u32_le(record@));
    }
    if ts_sec + shift_secs as u64 > 0xffff_ffff {
        return false;
    }
    if record.len() < 16 + ACCEPT_TIME_FRAME_OFFSET + 8 {
        return true;
    }
    let t = &record[264..272];
    proof {
        assert(t@ == record@.subrange(264, 272));
    }
    let mut i: usize = 0;
    while i < 6
        invariant
            i <= 6,
            t@.len() == 8,
            record@.len() >= 272,
            t@ == record@.subrange(264, 272),
            forall|k: int| 0 <= k < i ==> t@[k] >= 48,
        decreases 6 - i,
    {
        if t[i] < 48 {
            proof {
                assert(record@.subrange(264, 272)[i as int] == t@[i as int]);
            }
            return false;
        }
        i += 1;
    }
    let seconds = ((t[0] - 48) as u64 * 10 + (t[1] - 48) as u64) * 3600 + ((t[2] - 48) as u64 * 10
        + (t[3] - 48) as u64) * 60 + (t[4] - 48) as u64 * 10 + (t[5] - 48) as u64;
    proof {
        assert(seconds == crate::accept_time::clock_seconds(t@));
    }
    seconds + shift_secs as u64 <= 0xffff_ffff
}

/// Copies a little-endian capture record (16-byte header, then the captured
/// frame), moving it on by `shift_secs` seconds: the timestamp's seconds
/// gain `shift_secs`, and in a frame long enough to carry a quote the quote's
/// accept time is moved on as well (wrapping at midnight). The rest of the
/// header and of the frame is copied unchanged.
pub fn shifted_record(record: &[u8], shift_secs: u32) -> (r: Vec<u8>)
    requires
        can_shift_record(record@, shift_secs),
    ensures
        r@ == spec_shifted_record(record@, shift_secs),
{
    let ts_sec = (record[0] as u32) + (record[1] as u32) * 0x100 + (record[2] as u32) * 0x10000
        + (record[3] as u32) * 0x1000000;
    let new_ts_sec = ts_sec + shift_secs;
    let mut out: Vec<u8> = Vec::with_capacity(record.len());
    out.push((new_ts_sec % 0x100) as u8);
    out.push((new_ts_sec / 0x100 % 0x100) as u8);
    out.push((new_ts_sec / 0x10000 % 0x100) as u8);
    out.push((new_ts_sec / 0x1000000) as u8);
    append_bytes(&mut out, &record[4..16]);
    let frame = &record[16..record.len()];
    proof {
        assert(out@ =~= le_bytes((u32_le(record@) + shift_secs) as u32) + record@.subrange(4, 16));
    }
    if frame.len() >= ACCEPT_TIME_FRAME_OFFSET + 8 {
        append_bytes(&mut out, &frame[0..248]);
        let mut accept_time: Vec<u8> = Vec::new();
        append_bytes(&mut accept_time, &frame[248..256]);
        proof {
            assert(accept_time@ =~= record@.subrange(264, 272));
        }
        shift_accept_time(accept_time.as_mut_slice(), shift_secs);
        append_bytes(&mut out, accept_time.as_slice());
        append_bytes(&mut out, &frame[256..frame.len()]);
        proof {
            assert(frame@.subrange(248, 256) =~= record@.subrange(264, 272));
        }
    } else {
        append_bytes(&mut out, frame);
    }
    proof {
        assert(out@ =~= spec_shifted_record(record@, shift_secs));
    }
    out
}

/// The records of a little-endian capture from `cursor` on, each with its
/// timestamp's seconds: a 16-byte record header and the captured frame whose
/// length the header gives. Reading stops at the first record cut short.
pub open spec fn spec_records(data: Seq<u8>, cursor: int) -> Seq<(u32, Seq<u8>)>
    decreases data.len() - cursor,
{
    if cursor < 0 || cursor + 16 > data.len() {
        Seq::empty()
    } else {
        let next = cursor + 16 + u32_le(data.subrange(cursor + 8, cursor + 12)) as int;
        if next > data.len() {
            Seq::empty()
        } else {
            seq![(u32_le(data.subrange(cursor, cursor + 4)), data.subrange(cursor, next))]
                + spec_records(data, next)
        }
    }
}

/// Each record that splitting gives is a whole record of the capture,
/// numbered by its own timestamp: its number is the seconds field of its
/// header (bytes 0..4, little-endian), and its length is the 16-byte header
/// plus the captured length that the header gives (bytes 8..12,
/// little-endian).
pub proof fn lemma_records_carry_their_own_seconds(data: Seq<u8>, cursor: int)
    ensures
        forall|i: int|
            0 <= i < spec_records(data, cursor).len() ==> {
                let r = #[trigger] spec_records(data, cursor)[i];
                &&& r.1.len() >= 16
                &&& r.0 as int == r.1[0] as int + r.1[1] as int * 0x100 + r.1[2] as int * 0x10000
                    + r.1[3] as int * 0x1000000
                &&& r.1.len() == 16 + r.1[8] as int + r.1[9] as int * 0x100 + r.1[10] as int
                    * 0x10000 + r.1[11] as int * 0x1000000
            },
    decreases data.len() - cursor,
{
    if !(cursor < 0 || cursor + 16 > data.len()) {
        let next = cursor + 16 + u32_le(data.subrange(cursor + 8, cursor + 12)) as int;
        if next <= data.len() {
            lemma_records_carry_their_own_seconds(data, next);
            let rs = spec_records(data, cursor);
            let rec = data.subrange(cursor, next);
            let hd = data.subrange(cursor, cursor + 4);
            let ln = data.subrange(cursor + 8, cursor + 12);
            assert(hd[0] == rec[0] && hd[1] == rec[1] && hd[2] == rec[2] && hd[3] == rec[3]);
            assert(ln[0] == rec[8] && ln[1] == rec[9] && ln[2] == rec[10] && ln[3] == rec[11]);
            assert forall|i: int| 0 <= i < rs.len() implies {
                let r = #[trigger] rs[i];
                &&& r.1.len() >= 16
                &&& r.0 as int == r.1[0] as int + r.1[1] as int * 0x100 + r.1[2] as int * 0x10000
                    + r.1[3] as int * 0x1000000
                &&& r.1.len() == 16 + r.1[8] as int + r.1[9] as int * 0x100 + r.1[10] as int
                    * 0x10000 + r.1[11] as int * 0x1000000
            } by {
                if i > 0 {
                    assert(rs[i] == spec_records(data, next)[i - 1]);
                } else {
                    assert(rs[0] == (u32_le(hd), rec));
                }
            }
        }
    }
}

/// Splits a little-endian capture, after its 24-byte global header, into its
/// records (header and frame), each with its timestamp's seconds, in capture
/// order. A record cut short by the end of the data ends the list.
pub fn split_records(data: &[u8]) -> (r: Vec<(u32, &[u8])>)
    ensures
        r@.map_values(|x: (u32, &[u8])| (x.0, x.1@)) == spec_records(data@, 24),
        forall|i: int|
            0 <= i < r@.len() ==> {
                let rec = (#[trigger] r@[i]).1@;
                &&& rec.len() >= 16
                &&& r@[i].0 as int == rec[0] as int + rec[1] as int * 0x100 + rec[2] as int
                    * 0x10000 + rec[3] as int * 0x1000000
            },
{
    proof {
        lemma_records_carry_their_own_seconds(data@, 24);
    }
    let len = data.len();
    let mut out: Vec<(u32, &[u8])> = Vec::new();
    let mut cursor: usize = 24;
    let ghost all = spec_records(data@, 24);
    proof {
        assert(out@.map_values(|x: (u32, &[u8])| (x.0, x.1@)) + spec_records(data@, 24) =~= all);
    }
    while cursor <= len && len - cursor >= 16
        invariant
            len == data@.len(),
            out@.map_values(|x: (u32, &[u8])| (x.0, x.1@)) + spec_records(data@, cursor as int)
                == all,
        ensures
            out@.map_values(|x: (u32, &[u8])| (x.0, x.1@)) == all,
        decreases len - cursor,
    {
        let incl = (data[cursor + 8] as u32) + (data[cursor + 9] as u32) * 0x100 + (data[cursor + 10]
            as u32) * 0x10000 + (data[cursor + 11] as u32) * 0x1000000;
        proof {
            assert(incl == u32_le(data@.subrange(cursor + 8, cursor + 12)));
        }
        if incl as usize > len - cursor - 16 {
            proof {
                assert(spec_records(data@, cursor as int) =~= Seq::<(u32, Seq<u8>)>::empty());
                assert(out@.map_values(|x: (u32, &[u8])| (x.0, x.1@)) + spec_records(data@, cursor as int)
                    =~= out@.map_values(|x: (u32, &[u8])| (x.0, x.1@)));
            }
            break;
        }
        let next = cursor + 16 + incl as usize;
        let ts_sec = (data[cursor] as u32) + (data[cursor + 1] as u32) * 0x100 + (data[cursor + 2]
            as u32) * 0x10000 + (data[cursor + 3] as u32) * 0x1000000;
        let record = &data[cursor..next];
        let ghost before = out@.map_values(|x: (u32, &[u8])| (x.0, x.1@));
        out.push((ts_sec, record));
        proof {
            assert(ts_sec == u32_le(data@.subrange(cursor as int, cursor + 4)));
            assert(out@.map_values(|x: (u32, &[u8])| (x.0, x.1@)) =~= before.push((ts_sec, record@)));
            assert(before.push((ts_sec, record@)) + spec_records(data@, next as int) =~= before
                + spec_records(data@, cursor as int));
        }
        cursor = next;
    }
    proof {
        let all = spec_records(data@, 24);
        assert forall|i: int| 0 <= i < out@.len() implies {
            let rec = (#[trigger] out@[i]).1@;
            &&& rec.len() >= 16
            &&& out@[i].0 as int == rec[0] as int + rec[1] as int * 0x100 + rec[2] as int
                * 0x10000 + rec[3] as int * 0x1000000
        } by {
            assert(out@.map_values(|x: (u32, &[u8])| (x.0, x.1@))[i] == all[i]);
        }
    }
    out
}

/// Every record that `spec_records` gives holds at least its 16-byte header.
proof fn lemma_records_have_headers(data: Seq<u8>, cursor: int)
    ensures
        forall|i: int|
            0 <= i < spec_records(data, cursor).len() ==> (#[trigger] spec_records(data, cursor)[i]).1.len() >= 16,
    decreases data.len() - cursor,
{
    if !(cursor < 0 || cursor + 16 > data.len()) {
        let next = cursor + 16 + u32_le(data.subrange(cursor + 8, cursor + 12)) as int;
        if next <= data.len() {
            lemma_records_have_headers(data, next);
            let rs = spec_records(data, cursor);
            assert forall|i: int| 0 <= i < rs.len() implies (#[trigger] rs[i]).1.len() >= 16 by {
                if i > 0 {
                    assert(rs[i] == spec_records(data, next)[i - 1]);
                }
            }
        }
    }
}

/// What the replay tool sends of a captured frame: the frame without its
/// 42 bytes of Ethernet, IPv4 and UDP headers, or the whole frame when it is
/// no longer than that.
pub open spec fn replay_payload(frame: Seq<u8>) -> Seq<u8> {
    if frame.len() > 42 {
        frame.subrange(42, frame.len() as int)
    } else {
        frame
    }
}

/// The payloads that the replay tool sends for the records of a
/// little-endian capture from `cursor` on, in capture order.
pub open spec fn spec_replay_payloads(data: Seq<u8>, cursor: int) -> Seq<Seq<u8>> {
    spec_records(data, cursor).map_values(
        |r: (u32, Seq<u8>)| replay_payload(r.1.subrange(16, r.1.len() as int)),
    )
}

/// The payloads to replay from a little-endian capture: for each record
/// after the global header, its captured frame with the 42 bytes of
/// Ethernet, IPv4 and UDP headers stripped (see `replay_payload`).
pub fn replay_payloads(data: &[u8]) -> (r: Vec<&[u8]>)
    ensures
        r@.map_values(|s: &[u8]| s@) == spec_replay_payloads(data@, 24),
{
    let records = split_records(data);
    let ghost all = spec_records(data@, 24);
    proof {
        lemma_records_have_headers(data@, 24);
    }
    let mut out: Vec<&[u8]> = Vec::new();
    let mut i: usize = 0;
    while i < records.len()
        invariant
            i <= records@.len(),
            all == spec_records(data@, 24),
            records@.map_values(|x: (u32, &[u8])| (x.0, x.1@)) == all,
            forall|k: int| 0 <= k < all.len() ==> (#[trigger] all[k]).1.len() >= 16,
            out@.map_values(|s: &[u8]| s@) == spec_replay_payloads(data@, 24).take(i as int),
        decreases records@.len() - i,
    {
        let record = records[i].1;
        proof {
            assert(all[i as int] == (records@[i as int].0, records@[i as int].1@));
        }
        let frame = &record[16..record.len()];
        let payload = if frame.len() > 42 {
            &frame[42..frame.len()]
        } else {
            frame
        };
        let ghost before = out@.map_values(|s: &[u8]| s@);
        out.push(payload);
        i += 1;
        proof {
            assert(out@.map_values(|s: &[u8]| s@) =~= before.push(payload@));
            assert(payload@ == replay_payload(all[i - 1].1.subrange(16, all[i - 1].1.len() as int)));
            assert(records@.map_values(|x: (u32, &[u8])| (x.0, x.1@)).len() == records@.len());
            assert(spec_replay_payloads(data@, 24).len() == all.len());
            assert(spec_replay_payloads(data@, 24)[i - 1] == payload@);
            assert(spec_replay_payloads(data@, 24).take(i as int) =~= spec_replay_payloads(data@, 24).take(
                i - 1,
            ).push(payload@));
        }
    }
    proof {
        assert(spec_replay_payloads(data@, 24).take(i as int) =~= spec_replay_payloads(data@, 24));
    }
    out
}

/// The seconds by which replay `n` of a capture is moved on, when the
/// capture's records run from `first_ts` to `last_ts` seconds: `n` times its
/// length plus 1 s, so that replays do not overlap. `None` when the capture
/// runs backwards or the shift does not fit in `u32`.
pub open spec fn spec_replay_shift(first_ts: u32, last_ts: u32, n: u32) -> Option<u32> {
    let delta = last_ts - first_ts + 1;
    if first_ts <= last_ts && delta <= u32::MAX && n * delta <= u32::MAX {
        Some((n * delta) as u32)
    } else {
        None
    }
}

/// Computes the shift of replay `n` (see `spec_replay_shift`).
pub fn replay_shift(first_ts: u32, last_ts: u32, n: u32) -> (r: Option<u32>)
    ensures
        r == spec_replay_shift(first_ts, last_ts, n),
{
    if first_ts > last_ts || last_ts - first_ts == 0xffff_ffff {
        return None;
    }
    let delta = last_ts - first_ts + 1;
    let n64 = n as u64;
    let d64 = delta as u64;
    assert(n64 * d64 <= 0xffff_ffff * 0xffff_ffff) by (nonlinear_arith)
        requires
            n64 <= 0xffff_ffff,
            d64 <= 0xffff_ffff,
    ;
    let shift = n64 * d64;
    if shift > 0xffff_ffff {
        None
    } else {
        Some(shift as u32)
    }
}

/// What a forwarded datagram tells the receiver that checks the order of the
/// stream, whose highest accept time so far is `highest`: for a forwarded
/// quote (exactly 223 bytes), its accept time (bytes 214..222, big-endian),
/// the highest accept time now, and whether this one came out of order (below
/// `highest`). Other datagrams are not quotes.
pub open spec fn spec_note_accept_key(highest: u64, datagram: Seq<u8>) -> Option<(u64, u64, bool)> {
    if datagram.len() == FORWARDED_QUOTE_LEN {
        let key = u64_be(datagram.subrange(214, 222));
        Some((key, if key > highest { key } else { highest }, key < highest))
    } else {
        None
    }
}

/// Checks one forwarded datagram against the highest accept time seen so far
/// (see `spec_note_accept_key`): `None` for a datagram that is not a
/// forwarded quote, else its accept time, the new highest accept time and
/// whether it came out of order.
pub fn note_accept_key(highest: u64, datagram: &[u8]) -> (r: Option<(u64, u64, bool)>)
    ensures
        r == spec_note_accept_key(highest, datagram@),
{
    if datagram.len() != FORWARDED_QUOTE_LEN {
        return None;
    }
    let key = read_u64_be(&datagram[214..222]);
    let out_of_order = key < highest;
    let new_highest = if key > highest {
        key
    } else {
        highest
    };
    Some((key, new_highest, out_of_order))
}

} // verus!
