//! Decoding of pcap captures: the global header, the record headers and the
//! link, network and transport layer headers that wrap the feed's UDP payloads.

use vstd::prelude::*;

verus! {

/// Size of the pcap global header.
pub const PCAP_GLOBAL_HEADER_LEN: usize = 24;

/// Size of a pcap record header.
pub const PCAP_RECORD_HEADER_LEN: usize = 16;

/// Records whose captured length exceeds this are skipped (16 MB).
pub const MAX_CAPTURE_SIZE: usize = 16777216;

/// The two UDP destination ports of the market data feed.
pub const FEED_PORT_A: u16 = 15515;
pub const FEED_PORT_B: u16 = 15516;

/// The 32-bit value that four bytes hold in little-endian order.
pub open spec fn u32_le(b: Seq<u8>) -> u32 {
    (b[0] as int + b[1] as int * 0x100 + b[2] as int * 0x10000 + b[3] as int * 0x1000000) as u32
}

/// The 32-bit value that four bytes hold in big-endian order.
pub open spec fn u32_be(b: Seq<u8>) -> u32 {
    (b[3] as int + b[2] as int * 0x100 + b[1] as int * 0x10000 + b[0] as int * 0x1000000) as u32
}

/// The 32-bit value of the first four bytes of `b` as a little-endian host
/// reads a capture field: little-endian, or big-endian when `swapped`.
pub open spec fn spec_read_u32(b: Seq<u8>, swapped: bool) -> u32 {
    if swapped {
        u32_be(b)
    } else {
        u32_le(b)
    }
}

/// Reads four bytes as a `u32` in the host's byte order, with
/// `u32::from_ne_bytes`.
///
/// Trusted: std documents that `from_ne_bytes` reads the bytes in the native
/// byte order of the target, which is little- or big-endian; which one is a
/// property of the machine, so the contract states only that the result is
/// one of the two readings.
#[verifier::external_body]
fn u32_from_ne_bytes(bytes: [u8; 4]) -> (r: u32)
    ensures
        r == u32_le(bytes@) || r == u32_be(bytes@),
{
    u32::from_ne_bytes(bytes)
}

/// Whether this machine stores integers little-endian: it reads the bytes
/// `1, 0, 0, 0` as the number 1.
pub fn host_is_little_endian() -> bool {
    u32_from_ne_bytes([1u8, 0u8, 0u8, 0u8]) == 1
}

/// Reads a 32-bit field of a capture as `u32::from_ne_bytes` does on a host
/// whose byte order is little-endian when `host_little_endian` (big-endian
/// otherwise), then reverses the bytes when `swapped`: the capture was
/// written on a machine of the other byte order (see `read_pcap_context`).
pub fn read_u32(data: &[u8], swapped: bool, host_little_endian: bool) -> (r: u32)
    requires
        data@.len() >= 4,
    ensures
        r == spec_read_u32(data@, swapped == host_little_endian),
{
    let b0 = data[0] as u32;
    let b1 = data[1] as u32;
    let b2 = data[2] as u32;
    let b3 = data[3] as u32;
    if swapped == host_little_endian {
        b3 + b2 * 0x100 + b1 * 0x10000 + b0 * 0x1000000
    } else {
        b0 + b1 * 0x100 + b2 * 0x10000 + b3 * 0x1000000
    }
}

/// Reading a field with its bytes swapped gives the byte-reversed value of
/// reading it without: the two readings of four bytes are each other's
/// byte swap, whatever the host.
pub proof fn lemma_swapped_read_reverses_bytes(b: Seq<u8>, host_little_endian: bool)
    requires
        b.len() >= 4,
    ensures
        spec_read_u32(b, true == host_little_endian) == spec_read_u32(
            seq![b[3], b[2], b[1], b[0]],
            false == host_little_endian,
        ),
        spec_read_u32(b, false == host_little_endian) == spec_read_u32(
            seq![b[3], b[2], b[1], b[0]],
            true == host_little_endian,
        ),
{
}

/// Global metadata of a capture, taken from its 24-byte global header.
#[derive(Clone, Copy, PartialEq, Eq, Structural, Debug)]
pub struct PcapContext {
    /// The capture's fields are in the byte order opposite to the host's.
    pub is_swapped: bool,
    /// Record timestamps hold nanoseconds rather than microseconds.
    pub is_nano: bool,
    /// The data link layer type of every record.
    pub link_type: u32,
}

/// Why a capture cannot be read.
#[derive(Clone, Copy, PartialEq, Eq, Structural, Debug)]
pub enum PcapError {
    /// The capture is shorter than the 24-byte global header.
    FileTooSmall,
    /// The global header does not start with a pcap magic number.
    InvalidMagic,
}

/// The context that a global header describes, on a host that is
/// little-endian when `host_little_endian`, or `None` when its magic number is
/// none of the four pcap magic numbers.
pub open spec fn spec_pcap_context(header: Seq<u8>, host_little_endian: bool) -> Option<PcapContext> {
    let magic = spec_read_u32(header, !host_little_endian);
    let flags: Option<(bool, bool)> = if magic == 0xa1b2c3d4 {
        Some((false, false))
    } else if magic == 0xd4c3b2a1 {
        Some((true, false))
    } else if magic == 0xa1b23c4d {
        Some((false, true))
    } else if magic == 0x4d3cb2a1 {
        Some((true, true))
    } else {
        None
    };
    match flags {
        Some((swapped, nano)) => Some(
            PcapContext {
                is_swapped: swapped,
                is_nano: nano,
                link_type: spec_read_u32(header.subrange(20, 24), swapped == host_little_endian),
            },
        ),
        None => None,
    }
}

/// Parses the 24-byte pcap global header: the magic number, read in the
/// host's byte order, gives the byte order of the capture relative to the
/// host and the precision of its timestamps.
pub fn read_pcap_context(header: &[u8], host_little_endian: bool) -> (r: Result<PcapContext, PcapError>)
    requires
        header@.len() >= 24,
    ensures
        match spec_pcap_context(header@, host_little_endian) {
            Some(ctx) => r == Ok::<PcapContext, PcapError>(ctx),
            None => r == Err::<PcapContext, PcapError>(PcapError::InvalidMagic),
        },
{
    let magic = read_u32(header, false, host_little_endian);
    let (is_swapped, is_nano) = if magic == 0xa1b2c3d4 {
        (false, false)
    } else if magic == 0xd4c3b2a1 {
        (true, false)
    } else if magic == 0xa1b23c4d {
        (false, true)
    } else if magic == 0x4d3cb2a1 {
        (true, true)
    } else {
        return Err(PcapError::InvalidMagic);
    };
    let link_type = read_u32(&header[20..24], is_swapped, host_little_endian);
    Ok(PcapContext { is_swapped, is_nano, link_type })
}

/// A context as a little-endian host would have read it: the same capture,
/// with `is_swapped` set exactly when the capture is big-endian.
pub open spec fn as_on_little_endian(ctx: PcapContext, host_little_endian: bool) -> PcapContext {
    PcapContext { is_swapped: ctx.is_swapped == host_little_endian, ..ctx }
}

/// A capture reads the same on either host: the contexts that a big-endian
/// and a little-endian host read from a header describe the same byte order,
/// timestamp precision and link type, and the same headers are refused.
pub proof fn lemma_context_same_on_any_host(header: Seq<u8>)
    requires
        header.len() >= 24,
    ensures
        match (spec_pcap_context(header, false), spec_pcap_context(header, true)) {
            (Some(big), Some(little)) => as_on_little_endian(big, false) == little,
            (None, None) => true,
            _ => false,
        },
{
    lemma_byte_readings(header[0], header[1], header[2], header[3]);
    assert(u32_le(header) == u32_le(seq![header[0], header[1], header[2], header[3]]));
    assert(u32_be(header) == u32_be(seq![header[0], header[1], header[2], header[3]]));
}

/// The little-endian reading of four bytes is one of the four pcap magic
/// numbers exactly when the big-endian reading is its byte swap.
proof fn lemma_byte_readings(b0: u8, b1: u8, b2: u8, b3: u8)
    ensures
        u32_le(seq![b0, b1, b2, b3]) == 0xa1b2c3d4 <==> u32_be(seq![b0, b1, b2, b3]) == 0xd4c3b2a1,
        u32_le(seq![b0, b1, b2, b3]) == 0xd4c3b2a1 <==> u32_be(seq![b0, b1, b2, b3]) == 0xa1b2c3d4,
        u32_le(seq![b0, b1, b2, b3]) == 0xa1b23c4d <==> u32_be(seq![b0, b1, b2, b3]) == 0x4d3cb2a1,
        u32_le(seq![b0, b1, b2, b3]) == 0x4d3cb2a1 <==> u32_be(seq![b0, b1, b2, b3]) == 0xa1b23c4d,
{
    let s = seq![b0, b1, b2, b3];
    let le: u32 = u32_le(s);
    let be: u32 = u32_be(s);
    assert(s[0] == b0 && s[1] == b1 && s[2] == b2 && s[3] == b3);
    assert(le == (b0 as u32) + (b1 as u32) * 0x100 + (b2 as u32) * 0x10000 + (b3 as u32) * 0x1000000);
    assert(be == (b3 as u32) + (b2 as u32) * 0x100 + (b1 as u32) * 0x10000 + (b0 as u32) * 0x1000000);
    assert(
        (le == 0xa1b2c3d4 <==> be == 0xd4c3b2a1)
        && (le == 0xd4c3b2a1 <==> be == 0xa1b2c3d4)
        && (le == 0xa1b23c4d <==> be == 0x4d3cb2a1)
        && (le == 0x4d3cb2a1 <==> be == 0xa1b23c4d)
    ) by (bit_vector)
        requires
            le == (b0 as u32) + (b1 as u32) * 0x100 + (b2 as u32) * 0x10000 + (b3 as u32) * 0x1000000,
            be == (b3 as u32) + (b2 as u32) * 0x100 + (b1 as u32) * 0x10000 + (b0 as u32) * 0x1000000,
    ;
}


/// Offset of the IPv4 header in a frame of the given data link type: 14 for
/// Ethernet (1), 16 for Linux cooked capture (113), 0 for raw IP (12).
pub open spec fn link_header_len(link_type: u32) -> Option<int> {
    if link_type == 1 {
        Some(14)
    } else if link_type == 113 {
        Some(16)
    } else if link_type == 12 {
        Some(0)
    } else {
        None
    }
}

/// The 16-bit value of two bytes in network (big-endian) order.
pub open spec fn u16_be(hi: u8, lo: u8) -> int {
    hi as int * 0x100 + lo as int
}

/// Where the UDP payload of a frame begins, if the frame is an IPv4 UDP
/// datagram sent to one of the feed's ports.
pub open spec fn spec_udp_payload_start(p: Seq<u8>, link_type: u32) -> Option<int> {
    match link_header_len(link_type) {
        None => None,
        Some(base) => if link_type == 1 && p.len() < 14 {
            None
        } else {
            // a VLAN tag (EtherType 0x8100) adds four bytes to the Ethernet header
            let ip = if link_type == 1 && u16_be(p[12], p[13]) == 0x8100 {
                base + 4
            } else {
                base
            };
            if p.len() < ip + 20 || p[ip] / 16 != 4 {
                None
            } else {
                let udp = ip + (p[ip] % 16) * 4;
                if p.len() < udp + 8 {
                    None
                } else if p[ip + 9] != 17 {
                    None
                } else if u16_be(p[udp + 2], p[udp + 3]) != FEED_PORT_A && u16_be(
                    p[udp + 2],
                    p[udp + 3],
                ) != FEED_PORT_B {
                    None
                } else {
                    Some(udp + 8)
                }
            }
        },
    }
}

/// A payload is kept only from a UDP datagram (IPv4 protocol 17) sent to one
/// of the feed's ports: the two bytes just before the UDP length and checksum
/// spell 15515 or 15516 in network order. A plain Ethernet frame (EtherType
/// 0x0800) or a raw IP frame holding an IPv4 header of 20 bytes and a UDP
/// header to a feed port gives the bytes after the 42 (or 28) header bytes.
pub proof fn lemma_feed_datagrams_only(p: Seq<u8>, link_type: u32)
    ensures
        spec_udp_payload_start(p, link_type) matches Some(start) ==> {
            &&& 8 <= start <= p.len()
            &&& p[start - 6] as int * 256 + p[start - 5] as int == 15515 || p[start - 6] as int
                * 256 + p[start - 5] as int == 15516
        },
        link_type == 1 && p.len() >= 42 && p[12] == 8 && p[13] == 0 && p[14] == 0x45 && p[23]
            == 17 && p[36] == 0x3c && (p[37] == 0x9b || p[37] == 0x9c) ==> spec_udp_payload_start(
            p,
            link_type,
        ) == Some(42int),
        link_type == 12 && p.len() >= 28 && p[0] == 0x45 && p[9] == 17 && p[22] == 0x3c && (p[23]
            == 0x9b || p[23] == 0x9c) ==> spec_udp_payload_start(p, link_type) == Some(28int),
{
}

/// Strips the data link, network and transport layer headers from a frame.
///
/// Returns the UDP payload if the frame is an IPv4 UDP datagram sent to one of
/// the feed's ports, and `None` otherwise.
pub fn extract_udp_payload(packet: &[u8], link_type: u32) -> (r: Option<&[u8]>)
    ensures
        match spec_udp_payload_start(packet@, link_type) {
            Some(start) => r matches Some(payload) && payload@ == packet@.subrange(
                start,
                packet@.len() as int,
            ),
            None => r is None,
        },
{
    let mut offset: usize = if link_type == 1 {
        14
    } else if link_type == 113 {
        16
    } else if link_type == 12 {
        0
    } else {
        return None;
    };

    if link_type == 1 {
        if packet.len() < 14 {
            return None;
        }
        let eth_type = (packet[12] as u16) * 0x100 + packet[13] as u16;
        if eth_type == 0x8100 {
            offset += 4;
        }
    }

    if packet.len() < offset + 20 || packet[offset] >> 4u8 != 4 {
        proof {
            let b = packet@[offset as int];
            assert(b >> 4u8 == b / 16) by (bit_vector);
        }
        return None;
    }
    let vh = packet[offset];
    assert(vh >> 4u8 == vh / 16 && vh & 0x0fu8 == vh % 16) by (bit_vector);

    let ip_header_len = ((vh & 0x0f) as usize) * 4;
    let udp_offset = offset + ip_header_len;

    if packet.len() < udp_offset + 8 {
        return None;
    }
    if packet[offset + 9] != 17 {
        return None;
    }
    let dst_port = (packet[udp_offset + 2] as u16) * 0x100 + packet[udp_offset + 3] as u16;
    if dst_port != FEED_PORT_A && dst_port != FEED_PORT_B {
        return None;
    }
    Some(&packet[udp_offset + 8..packet.len()])
}


/// A datagram as the abstract model sees it: the record's timestamp
/// (seconds, microseconds) and the UDP payload.
pub type DatagramView = (u32, u32, Seq<u8>);

/// The microseconds part of the timestamp of the record at `cursor`.
pub open spec fn record_ts_usec(data: Seq<u8>, ctx: PcapContext, cursor: int) -> u32 {
    let fraction = spec_read_u32(data.subrange(cursor + 4, cursor + 8), ctx.is_swapped);
    if ctx.is_nano {
        (fraction / 1000) as u32
    } else {
        fraction
    }
}

/// The UDP payloads for the feed in the records from `cursor` on, in capture
/// order, with the capture's context `ctx` as a little-endian host reads it. A record is skipped when its captured length exceeds
/// `MAX_CAPTURE_SIZE`; reading stops at the first record that is cut short.
pub open spec fn spec_datagrams(data: Seq<u8>, ctx: PcapContext, cursor: int) -> Seq<DatagramView>
    decreases data.len() - cursor,
{
    if cursor < 0 || cursor + 16 > data.len() {
        Seq::empty()
    } else {
        let incl = spec_read_u32(data.subrange(cursor + 8, cursor + 12), ctx.is_swapped) as int;
        let next = cursor + 16 + incl;
        if next > data.len() {
            Seq::empty()
        } else if incl > MAX_CAPTURE_SIZE {
            spec_datagrams(data, ctx, next)
        } else {
            let packet = data.subrange(cursor + 16, next);
            match spec_udp_payload_start(packet, ctx.link_type) {
                Some(start) => seq![
                    (
                        spec_read_u32(data.subrange(cursor, cursor + 4), ctx.is_swapped),
                        record_ts_usec(data, ctx, cursor),
                        packet.subrange(start, packet.len() as int),
                    ),
                ] + spec_datagrams(data, ctx, next),
                None => spec_datagrams(data, ctx, next),
            }
        }
    }
}


/// Record `c` of a capture is read as its 16-byte header says: the timestamp
/// seconds (bytes 0..4), the fraction (bytes 4..8, nanoseconds in a
/// nanosecond capture) and the captured length (bytes 8..12; the original
/// length at bytes 12..16 plays no part), each in the capture's byte order
/// (big-endian when `ctx.is_swapped`, as a little-endian host reads it). The
/// frame is the captured bytes that follow the header; the next record starts
/// right after them. Reading stops at a record cut short, skips a record
/// longer than `MAX_CAPTURE_SIZE`, and keeps the payload of a feed datagram.
pub proof fn lemma_record_read_from_its_header(data: Seq<u8>, ctx: PcapContext, c: int)
    requires
        0 <= c,
        c + 16 <= data.len(),
    ensures
        ({
            let field = |i: int|
                if ctx.is_swapped {
                    data[c + i] as int * 0x1000000 + data[c + i + 1] as int * 0x10000 + data[c + i
                        + 2] as int * 0x100 + data[c + i + 3] as int
                } else {
                    data[c + i] as int + data[c + i + 1] as int * 0x100 + data[c + i + 2] as int
                        * 0x10000 + data[c + i + 3] as int * 0x1000000
                };
            let next = c + 16 + field(8);
            let usec = if ctx.is_nano {
                field(4) / 1000
            } else {
                field(4)
            };
            &&& next > data.len() ==> spec_datagrams(data, ctx, c).len() == 0
            &&& next <= data.len() && field(8) > MAX_CAPTURE_SIZE ==> spec_datagrams(data, ctx, c)
                == spec_datagrams(data, ctx, next)
            &&& next <= data.len() && field(8) <= MAX_CAPTURE_SIZE ==> spec_datagrams(data, ctx, c)
                == match spec_udp_payload_start(data.subrange(c + 16, next), ctx.link_type) {
                Some(start) => seq![
                    (field(0) as u32, usec as u32, data.subrange(c + 16 + start, next)),
                ] + spec_datagrams(data, ctx, next),
                None => spec_datagrams(data, ctx, next),
            }
        }),
{
    let h = |i: int| data.subrange(c + i, c + i + 4);
    assert forall|i: int| 0 <= i <= 12 implies #[trigger] h(i)[0] == data[c + i] && h(i)[1] == data[c
        + i + 1] && h(i)[2] == data[c + i + 2] && h(i)[3] == data[c + i + 3] by {}
    assert(data.subrange(c, c + 4) == h(0));
    assert(data.subrange(c + 4, c + 8) == h(4));
    assert(data.subrange(c + 8, c + 12) == h(8));
    let next = c + 16 + spec_read_u32(data.subrange(c + 8, c + 12), ctx.is_swapped) as int;
    if next <= data.len() {
        let packet = data.subrange(c + 16, next);
        match spec_udp_payload_start(packet, ctx.link_type) {
            Some(start) => {
                assert(packet.subrange(start, packet.len() as int) =~= data.subrange(c + 16 + start, next));
            },
            None => {},
        }
    }
}

/// A capture holds no more datagrams than it holds bytes after `cursor`.
pub proof fn lemma_datagrams_len(data: Seq<u8>, ctx: PcapContext, cursor: int)
    requires
        0 <= cursor,
    ensures
        spec_datagrams(data, ctx, cursor).len() + cursor <= data.len() || spec_datagrams(
            data,
            ctx,
            cursor,
        ).len() == 0,
    decreases data.len() - cursor,
{
    if cursor + 16 <= data.len() {
        let incl = spec_read_u32(data.subrange(cursor + 8, cursor + 12), ctx.is_swapped) as int;
        let next = cursor + 16 + incl;
        if next <= data.len() {
            lemma_datagrams_len(data, ctx, next);
        }
    }
}

/// What a whole capture holds: its feed datagrams in capture order, or the
/// reason it cannot be read. (It is the same on a host of either byte order:
/// see `lemma_context_same_on_any_host`.)
pub open spec fn spec_capture(data: Seq<u8>) -> Result<Seq<DatagramView>, PcapError> {
    if data.len() < 24 {
        Err(PcapError::FileTooSmall)
    } else {
        match spec_pcap_context(data, true) {
            Some(ctx) => Ok(spec_datagrams(data, ctx, 24)),
            None => Err(PcapError::InvalidMagic),
        }
    }
}

/// A UDP payload for the feed, with the timestamp of its capture record.
pub struct UdpDatagram<'a> {
    pub ts_sec: u32,
    pub ts_usec: u32,
    pub payload: &'a [u8],
}

impl<'a> View for UdpDatagram<'a> {
    type V = DatagramView;

    open spec fn view(&self) -> DatagramView {
        (self.ts_sec, self.ts_usec, self.payload@)
    }
}

/// Walks the records of a capture held in memory and yields its feed
/// datagrams one by one.
pub struct PcapReader<'a> {
    data: &'a [u8],
    context: PcapContext,
    host_little_endian: bool,
    cursor: usize,
}

impl<'a> View for PcapReader<'a> {
    type V = Seq<DatagramView>;

    /// The datagrams that are still to come.
    closed spec fn view(&self) -> Seq<DatagramView> {
        spec_datagrams(
            self.data@,
            as_on_little_endian(self.context, self.host_little_endian),
            self.cursor as int,
        )
    }
}

impl<'a> PcapReader<'a> {
    /// Reads the global header of a capture.
    pub fn new(data: &'a [u8]) -> (r: Result<PcapReader<'a>, PcapError>)
        ensures
            match spec_capture(data@) {
                Ok(datagrams) => r matches Ok(reader) && reader@ == datagrams,
                Err(e) => r == Err::<PcapReader<'a>, PcapError>(e),
            },
    {
        if data.len() < PCAP_GLOBAL_HEADER_LEN {
            return Err(PcapError::FileTooSmall);
        }
        let host_little_endian = host_is_little_endian();
        let header = &data[0..24];
        proof {
            assert(header@.subrange(20, 24) =~= data@.subrange(20, 24));
            assert(spec_pcap_context(header@, false) == spec_pcap_context(data@, false));
            assert(spec_pcap_context(header@, true) == spec_pcap_context(data@, true));
            lemma_context_same_on_any_host(data@);
        }
        let context = match read_pcap_context(header, host_little_endian) {
            Ok(ctx) => ctx,
            Err(e) => {
                return Err(e);
            },
        };
        Ok(PcapReader { data, context, host_little_endian, cursor: PCAP_GLOBAL_HEADER_LEN })
    }

    /// The next feed datagram of the capture, or `None` at its end.
    pub fn next_datagram(&mut self) -> (r: Option<UdpDatagram<'a>>)
        ensures
            match r {
                Some(d) => old(self)@ == seq![d@] + final(self)@,
                None => old(self)@.len() == 0 && final(self)@.len() == 0,
            },
    {
        let data: &'a [u8] = self.data;
        let ctx = self.context;
        let host_le = self.host_little_endian;
        let ghost le_ctx = as_on_little_endian(ctx, host_le);
        let len = data.len();
        let mut cursor = self.cursor;
        while cursor <= len && len - cursor >= PCAP_RECORD_HEADER_LEN
            invariant
                data == self.data,
                ctx == self.context,
                host_le == self.host_little_endian,
                le_ctx == as_on_little_endian(ctx, host_le),
                len == data@.len(),
                spec_datagrams(data@, le_ctx, cursor as int) == old(self)@,
                old(self).data == data,
                old(self).context == ctx,
                old(self).host_little_endian == host_le,
            decreases len - cursor,
        {
            let incl_len = read_u32(&data[cursor + 8..cursor + 12], ctx.is_swapped, host_le) as usize;
            let body = cursor + PCAP_RECORD_HEADER_LEN;
            if incl_len > len - body {
                self.cursor = len;
                return None;
            }
            let next = body + incl_len;
            if incl_len > MAX_CAPTURE_SIZE {
                cursor = next;
                continue;
            }
            let ts_sec = read_u32(&data[cursor..cursor + 4], ctx.is_swapped, host_le);
            let fraction = read_u32(&data[cursor + 4..cursor + 8], ctx.is_swapped, host_le);
            let ts_usec = if ctx.is_nano {
                fraction / 1000
            } else {
                fraction
            };
            let packet = &data[body..next];
            cursor = next;
            if let Some(payload) = extract_udp_payload(packet, ctx.link_type) {
                self.cursor = next;
                return Some(UdpDatagram { ts_sec, ts_usec, payload });
            }
        }
        self.cursor = cursor;
        None
    }
}

/// All feed datagrams of a capture held in memory, in capture order.
pub fn run_pcap_source(data: &[u8]) -> (r: Result<Vec<UdpDatagram<'_>>, PcapError>)
    ensures
        match spec_capture(data@) {
            Ok(datagrams) => r matches Ok(v) && v@.map_values(|d: UdpDatagram| d@) == datagrams,
            Err(e) => r matches Err(e2) && e2 == e,
        },
{
    let mut reader = match PcapReader::new(data) {
        Ok(reader) => reader,
        Err(e) => return Err(e),
    };
    let ghost all = reader@;
    let mut out: Vec<UdpDatagram> = Vec::new();
    loop
        invariant
            all == out@.map_values(|d: UdpDatagram| d@) + reader@,
        ensures
            all == out@.map_values(|d: UdpDatagram| d@),
        decreases reader@.len(),
    {
        let ghost before = out@;
        match reader.next_datagram() {
            Some(d) => {
                out.push(d);
                proof {
                    assert(out@.map_values(|d: UdpDatagram| d@) =~= before.map_values(
                        |d: UdpDatagram| d@,
                    ).push(d@));
                }
            },
            None => {
                assert(reader@ =~= Seq::<DatagramView>::empty());
                break;
            },
        }
    }
    Ok(out)
}

} // verus!
