use kospi200_parser::sources::{
    extract_udp_payload, host_is_little_endian, read_pcap_context, read_u32, run_pcap_source,
    PcapContext, PcapError, PcapReader,
};

fn ipv4_udp(payload: &[u8], port: u16, ihl: u8) -> Vec<u8> {
    let mut ip = vec![0u8; (ihl as usize) * 4];
    ip[0] = 0x40 | ihl;
    ip[9] = 17;
    let mut udp = vec![0u8; 8];
    udp[2..4].copy_from_slice(&port.to_be_bytes());
    let mut out = ip;
    out.extend_from_slice(&udp);
    out.extend_from_slice(payload);
    out
}

fn ethernet(inner: &[u8], vlan: bool) -> Vec<u8> {
    let mut frame = vec![0u8; 12];
    if vlan {
        frame.extend_from_slice(&[0x81, 0x00, 0, 0, 0x08, 0x00]);
    } else {
        frame.extend_from_slice(&[0x08, 0x00]);
    }
    frame.extend_from_slice(inner);
    frame
}

fn header(magic_bytes: [u8; 4], link_type: [u8; 4]) -> Vec<u8> {
    let mut h = magic_bytes.to_vec();
    h.extend_from_slice(&[0u8; 16]);
    h.extend_from_slice(&link_type);
    h
}

#[test]
fn reads_u32_in_either_order() {
    // on a little-endian host
    assert_eq!(read_u32(&[1, 2, 3, 4], false, true), 0x04030201);
    assert_eq!(read_u32(&[1, 2, 3, 4], true, true), 0x01020304);
    // on a big-endian host
    assert_eq!(read_u32(&[1, 2, 3, 4], false, false), 0x01020304);
    assert_eq!(read_u32(&[1, 2, 3, 4], true, false), 0x04030201);
    // bytes after the fourth are ignored
    assert_eq!(read_u32(&[1, 2, 3, 4, 5], false, true), 0x04030201);
}

#[test]
fn unswapped_read_matches_native_order() {
    let host = host_is_little_endian();
    assert_eq!(host, u32::from_ne_bytes([1, 0, 0, 0]) == 1);
    let bytes = [0x12, 0x34, 0x56, 0x78];
    assert_eq!(read_u32(&bytes, false, host), u32::from_ne_bytes(bytes));
    assert_eq!(read_u32(&bytes, true, host), u32::from_ne_bytes(bytes).swap_bytes());
}

#[test]
fn rejects_short_capture() {
    assert!(matches!(run_pcap_source(&[0u8; 23]), Err(PcapError::FileTooSmall)));
}

#[test]
fn rejects_bad_magic() {
    let h = header([0, 0, 0, 0], [1, 0, 0, 0]);
    assert!(matches!(read_pcap_context(&h, true), Err(PcapError::InvalidMagic)));
    assert!(matches!(read_pcap_context(&h, false), Err(PcapError::InvalidMagic)));
    assert!(matches!(run_pcap_source(&h), Err(PcapError::InvalidMagic)));
}

#[test]
fn reads_the_four_magics() {
    let le = read_pcap_context(&header([0xd4, 0xc3, 0xb2, 0xa1], [1, 0, 0, 0]), true).unwrap();
    assert_eq!(le, PcapContext { is_swapped: false, is_nano: false, link_type: 1 });
    let be = read_pcap_context(&header([0xa1, 0xb2, 0xc3, 0xd4], [0, 0, 0, 113]), true).unwrap();
    assert_eq!(be, PcapContext { is_swapped: true, is_nano: false, link_type: 113 });
    let le_nano = read_pcap_context(&header([0x4d, 0x3c, 0xb2, 0xa1], [12, 0, 0, 0]), true).unwrap();
    assert_eq!(le_nano, PcapContext { is_swapped: false, is_nano: true, link_type: 12 });
    let be_nano = read_pcap_context(&header([0xa1, 0xb2, 0x3c, 0x4d], [0, 0, 0, 1]), true).unwrap();
    assert_eq!(be_nano, PcapContext { is_swapped: true, is_nano: true, link_type: 1 });
}

#[test]
fn big_endian_host_reads_magics_the_other_way() {
    let le = read_pcap_context(&header([0xd4, 0xc3, 0xb2, 0xa1], [1, 0, 0, 0]), false).unwrap();
    assert_eq!(le, PcapContext { is_swapped: true, is_nano: false, link_type: 1 });
    let be = read_pcap_context(&header([0xa1, 0xb2, 0xc3, 0xd4], [0, 0, 0, 113]), false).unwrap();
    assert_eq!(be, PcapContext { is_swapped: false, is_nano: false, link_type: 113 });
    let le_nano = read_pcap_context(&header([0x4d, 0x3c, 0xb2, 0xa1], [12, 0, 0, 0]), false).unwrap();
    assert_eq!(le_nano, PcapContext { is_swapped: true, is_nano: true, link_type: 12 });
}

#[test]
fn strips_headers_of_each_link_type() {
    let inner = ipv4_udp(b"hello", 15516, 5);
    assert_eq!(extract_udp_payload(&ethernet(&inner, false), 1), Some(&b"hello"[..]));
    assert_eq!(extract_udp_payload(&ethernet(&inner, true), 1), Some(&b"hello"[..]));
    let mut cooked = vec![0u8; 16];
    cooked.extend_from_slice(&inner);
    assert_eq!(extract_udp_payload(&cooked, 113), Some(&b"hello"[..]));
    assert_eq!(extract_udp_payload(&inner, 12), Some(&b"hello"[..]));
    assert_eq!(extract_udp_payload(&inner, 99), None);
}

#[test]
fn honours_ip_header_length() {
    let inner = ipv4_udp(b"options", 15515, 6);
    assert_eq!(extract_udp_payload(&inner, 12), Some(&b"options"[..]));
}

#[test]
fn rejects_other_datagrams() {
    assert_eq!(extract_udp_payload(&ipv4_udp(b"x", 9999, 5), 12), None);
    let mut tcp = ipv4_udp(b"x", 15515, 5);
    tcp[9] = 6;
    assert_eq!(extract_udp_payload(&tcp, 12), None);
    let mut v6 = ipv4_udp(b"x", 15515, 5);
    v6[0] = 0x65;
    assert_eq!(extract_udp_payload(&v6, 12), None);
    assert_eq!(extract_udp_payload(&[0u8; 10], 1), None);
    assert_eq!(extract_udp_payload(&ipv4_udp(b"", 15515, 5)[..27], 12), None);
}

#[test]
fn walks_records_and_skips_broken_ones() {
    let mut data = header([0xa1, 0xb2, 0xc3, 0xd4], [0, 0, 0, 12]);
    let good = ipv4_udp(b"first", 15515, 5);
    // big-endian record: ts 1.000002, nanosecond flag off
    data.extend_from_slice(&1u32.to_be_bytes());
    data.extend_from_slice(&2u32.to_be_bytes());
    data.extend_from_slice(&(good.len() as u32).to_be_bytes());
    data.extend_from_slice(&(good.len() as u32).to_be_bytes());
    data.extend_from_slice(&good);
    // a record of another port
    let other = ipv4_udp(b"other", 80, 5);
    data.extend_from_slice(&3u32.to_be_bytes());
    data.extend_from_slice(&4u32.to_be_bytes());
    data.extend_from_slice(&(other.len() as u32).to_be_bytes());
    data.extend_from_slice(&(other.len() as u32).to_be_bytes());
    data.extend_from_slice(&other);
    // a record cut short: reading stops there
    data.extend_from_slice(&5u32.to_be_bytes());
    data.extend_from_slice(&6u32.to_be_bytes());
    data.extend_from_slice(&1000u32.to_be_bytes());
    data.extend_from_slice(&1000u32.to_be_bytes());
    data.extend_from_slice(&good);
    let ds = run_pcap_source(&data).unwrap();
    assert_eq!(ds.len(), 1);
    assert_eq!((ds[0].ts_sec, ds[0].ts_usec, ds[0].payload), (1, 2, &b"first"[..]));
}

#[test]
fn nanosecond_timestamps_become_microseconds() {
    let mut data = header([0x4d, 0x3c, 0xb2, 0xa1], [12, 0, 0, 0]);
    let good = ipv4_udp(b"p", 15516, 5);
    data.extend_from_slice(&9u32.to_le_bytes());
    data.extend_from_slice(&123456789u32.to_le_bytes());
    data.extend_from_slice(&(good.len() as u32).to_le_bytes());
    data.extend_from_slice(&(good.len() as u32).to_le_bytes());
    data.extend_from_slice(&good);
    let mut reader = PcapReader::new(&data).unwrap();
    let d = reader.next_datagram().unwrap();
    assert_eq!((d.ts_sec, d.ts_usec), (9, 123456));
    assert!(reader.next_datagram().is_none());
}

#[test]
fn oversized_records_are_skipped() {
    let mut data = header([0xd4, 0xc3, 0xb2, 0xa1], [12, 0, 0, 0]);
    let huge = 16 * 1024 * 1024 + 1;
    data.extend_from_slice(&[0u8; 8]);
    data.extend_from_slice(&(huge as u32).to_le_bytes());
    data.extend_from_slice(&(huge as u32).to_le_bytes());
    data.extend_from_slice(&vec![0u8; huge]);
    let good = ipv4_udp(b"after", 15516, 5);
    data.extend_from_slice(&[0u8; 8]);
    data.extend_from_slice(&(good.len() as u32).to_le_bytes());
    data.extend_from_slice(&(good.len() as u32).to_le_bytes());
    data.extend_from_slice(&good);
    let ds = run_pcap_source(&data).unwrap();
    assert_eq!(ds.len(), 1);
    assert_eq!(ds[0].payload, &b"after"[..]);
}
