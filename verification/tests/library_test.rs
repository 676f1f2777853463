use kospi200_parser::accept_time::shift_accept_time;
use kospi200_parser::feed_tools::{note_accept_key, replay_payloads, replay_shift, shifted_record};
use kospi200_parser::quote_parser::{
    extract_quote, format_output_string, parse_pcap, parse_pcap_with_stats, parse_to_string,
    QuotePacket,
};
use kospi200_parser::reorder::ReorderHeap;
use kospi200_parser::sources::PcapError;

fn quote_payload(issue_code: &[u8; 12], accept_time: &[u8; 8]) -> Vec<u8> {
    let mut payload = vec![b'0'; 215];
    payload[0..5].copy_from_slice(b"B6034");
    payload[5..17].copy_from_slice(issue_code);
    payload[206..214].copy_from_slice(accept_time);
    payload
}

/// A raw-IP (link type 12), little-endian pcap capture of UDP datagrams to port 15515.
fn capture(records: &[(u32, u32, Vec<u8>)]) -> Vec<u8> {
    let mut out = Vec::new();
    out.extend_from_slice(&[0xd4, 0xc3, 0xb2, 0xa1]);
    out.extend_from_slice(&[0u8; 16]);
    out.extend_from_slice(&12u32.to_le_bytes());
    for (sec, usec, payload) in records {
        let mut frame = vec![0u8; 20];
        frame[0] = 0x45;
        frame[9] = 17;
        let mut udp = vec![0u8; 8];
        udp[2..4].copy_from_slice(&15515u16.to_be_bytes());
        frame.extend_from_slice(&udp);
        frame.extend_from_slice(payload);
        out.extend_from_slice(&sec.to_le_bytes());
        out.extend_from_slice(&usec.to_le_bytes());
        out.extend_from_slice(&(frame.len() as u32).to_le_bytes());
        out.extend_from_slice(&(frame.len() as u32).to_le_bytes());
        out.extend_from_slice(&frame);
    }
    out
}

fn two_quotes() -> Vec<u8> {
    capture(&[
        (10, 0, quote_payload(b"KR4101F30001", b"09000200")),
        (11, 0, quote_payload(b"KR4101F30002", b"09000100")),
        (12, 0, b"B6034 but too short".to_vec()),
    ])
}

#[test]
fn extract_quote_checks_length_and_identifier() {
    let q = quote_payload(b"KR4101F30001", b"09000200");
    assert_eq!(extract_quote(&q), Some(&q[..]));
    let mut longer = q.clone();
    longer.extend_from_slice(b"trailer");
    assert_eq!(extract_quote(&longer), Some(&q[..]));
    assert_eq!(extract_quote(&q[..214]), None);
    let mut wrong = q.clone();
    wrong[4] = b'5';
    assert_eq!(extract_quote(&wrong), None);
}

#[test]
fn format_output_string_replaces_buffer() {
    let q = quote_payload(b"KR4101F30001", b"09000200");
    let mut out = b"stale".to_vec();
    format_output_string(1297846801, 42, &q, &mut out);
    let text = String::from_utf8(out).unwrap();
    assert!(text.starts_with("1297846801.000042 09000200 KR4101F30001 0000000@00000"));
    assert_eq!(text.len(), 18 + 8 + 1 + 12 + 10 * 14);
    assert!(!text.ends_with('\n'));
}

#[test]
fn parse_pcap_in_capture_order() {
    let data = two_quotes();
    let lines = parse_pcap(&data, false).unwrap();
    assert_eq!(lines.len(), 2);
    assert!(lines[0].starts_with("10.000000 09000200 KR4101F30001"));
    assert!(lines[1].starts_with("11.000000 09000100 KR4101F30002"));
}

#[test]
fn parse_pcap_reordered() {
    let data = two_quotes();
    let lines = parse_pcap(&data, true).unwrap();
    assert_eq!(lines.len(), 2);
    assert!(lines[0].starts_with("11.000000 09000100 KR4101F30002"));
    assert!(lines[1].starts_with("10.000000 09000200 KR4101F30001"));
}

#[test]
fn parse_pcap_with_stats_counts() {
    let data = two_quotes();
    let (stats, lines) = parse_pcap_with_stats(&data, true).unwrap();
    assert_eq!(stats.quotes, 2);
    assert_eq!(stats.max_heap_size, 2);
    assert_eq!(lines.len(), 2);
    let (stats, _) = parse_pcap_with_stats(&data, false).unwrap();
    assert_eq!(stats.max_heap_size, 0);
}

#[test]
fn parse_pcap_reports_errors() {
    assert!(matches!(parse_pcap(&[1, 2, 3], false), Err(PcapError::FileTooSmall)));
    assert!(matches!(parse_pcap(&[0u8; 24], true), Err(PcapError::InvalidMagic)));
}

#[test]
fn parse_to_string_joins_lines() {
    let data = two_quotes();
    let text = parse_to_string(&data, false);
    let lines: Vec<&str> = text.split('\n').collect();
    assert_eq!(lines.len(), 2);
    assert!(lines[1].starts_with("11.000000 09000100"));
    assert_eq!(parse_to_string(&capture(&[]), true), "");
}

#[test]
fn shifts_accept_time_across_midnight() {
    let mut t = *b"23595912";
    shift_accept_time(&mut t, 2);
    assert_eq!(&t, b"00000112");
    let mut u = *b"09002892";
    shift_accept_time(&mut u, 3600 + 61);
    assert_eq!(&u, b"10012992");
    let mut v = *b"09002892";
    shift_accept_time(&mut v, 0);
    assert_eq!(&v, b"09002892");
}

#[test]
fn heap_pops_in_key_order() {
    let payload = [0u8; 4];
    let p = |accept_key: u64, pkt_time: u64, arrival: u64| QuotePacket {
        accept_key,
        pkt_time,
        ts_sec: 0,
        ts_usec: 0,
        payload: &payload,
        arrival,
    };
    let mut heap = ReorderHeap::new();
    for (i, (a, t)) in [(5, 1), (3, 9), (3, 2), (8, 0), (1, 7), (5, 0), (3, 2)].iter().enumerate() {
        heap.push(p(*a, *t, 10 - i as u64));
    }
    assert_eq!(heap.len(), 7);
    assert_eq!(heap.peek().map(|x| (x.accept_key, x.pkt_time)), Some((1, 7)));
    let mut order = Vec::new();
    while let Some(x) = heap.pop() {
        order.push((x.accept_key, x.pkt_time, x.arrival));
    }
    assert_eq!(
        order,
        vec![(1, 7, 6), (3, 2, 4), (3, 2, 8), (3, 9, 9), (5, 0, 5), (5, 1, 10), (8, 0, 7)]
    );
    assert!(heap.peek().is_none());
}

#[test]
fn equal_keys_leave_in_capture_order() {
    // same accept time, same capture timestamp: the first captured comes first
    let data = capture(&[
        (20, 5, quote_payload(b"KR4101F30009", b"09000300")),
        (20, 5, quote_payload(b"KR4101F30001", b"09000300")),
        (20, 5, quote_payload(b"KR4101F30005", b"09000300")),
    ]);
    let lines = parse_pcap(&data, true).unwrap();
    assert_eq!(lines.len(), 3);
    assert!(lines[0].starts_with("20.000005 09000300 KR4101F30009"));
    assert!(lines[1].starts_with("20.000005 09000300 KR4101F30001"));
    assert!(lines[2].starts_with("20.000005 09000300 KR4101F30005"));
    assert_eq!(parse_pcap(&data, true).unwrap(), lines);
    assert_eq!(parse_to_string(&data, true), lines.join("\n"));
}

#[test]
fn two_shifts_equal_one() {
    let mut twice = *b"22301545";
    shift_accept_time(&mut twice, 5000);
    shift_accept_time(&mut twice, 7000);
    let mut once = *b"22301545";
    shift_accept_time(&mut once, 12000);
    assert_eq!(twice, once);
    assert_eq!(&once, b"01501545");
}

#[test]
fn shifted_record_moves_seconds_and_accept_time() {
    let mut frame = vec![0u8; 300];
    frame[248..256].copy_from_slice(b"23595912");
    let mut record = Vec::new();
    record.extend_from_slice(&1000u32.to_le_bytes());
    record.extend_from_slice(&42u32.to_le_bytes());
    record.extend_from_slice(&300u32.to_le_bytes());
    record.extend_from_slice(&300u32.to_le_bytes());
    record.extend_from_slice(&frame);
    let shifted = shifted_record(&record, 2);
    assert_eq!(shifted.len(), record.len());
    assert_eq!(&shifted[0..4], &1002u32.to_le_bytes());
    assert_eq!(&shifted[4..16], &record[4..16]);
    assert_eq!(&shifted[16 + 248..16 + 256], b"00000112");
    assert_eq!(&shifted[16..16 + 248], &record[16..16 + 248]);
    assert_eq!(&shifted[16 + 256..], &record[16 + 256..]);
}

#[test]
fn shifted_record_leaves_short_frames() {
    let mut record = Vec::new();
    record.extend_from_slice(&0xfffffff0u32.to_le_bytes());
    record.extend_from_slice(&[7u8; 12]);
    record.extend_from_slice(&[9u8; 100]);
    let shifted = shifted_record(&record, 15);
    assert_eq!(&shifted[0..4], &0xffffffffu32.to_le_bytes());
    assert_eq!(&shifted[4..], &record[4..]);
}

#[test]
fn note_accept_key_flags_regressions() {
    let forwarded = |accept: &[u8; 8]| {
        let mut d = vec![0u8; 223];
        d[214..222].copy_from_slice(accept);
        d
    };
    let k1 = u64::from_be_bytes(*b"09000100");
    let k2 = u64::from_be_bytes(*b"09000050");
    assert_eq!(note_accept_key(0, &forwarded(b"09000100")), Some((k1, k1, false)));
    assert_eq!(note_accept_key(k1, &forwarded(b"09000050")), Some((k2, k1, true)));
    assert_eq!(note_accept_key(k1, &forwarded(b"09000100")), Some((k1, k1, false)));
    assert_eq!(note_accept_key(k1, &[0u8; 222]), None);
    assert_eq!(note_accept_key(k1, &[0u8; 224]), None);
}

#[test]
fn parsing_twice_gives_the_same_lines() {
    let data = two_quotes();
    assert_eq!(parse_pcap(&data, true).unwrap(), parse_pcap(&data, true).unwrap());
    assert_eq!(parse_to_string(&data, true), parse_to_string(&data, true));
}

#[test]
fn replay_strips_frame_headers() {
    let data = two_quotes();
    let payloads = replay_payloads(&data);
    assert_eq!(payloads.len(), 3);
    // raw-IP frames: 20 bytes of IPv4 and 8 of UDP, so 42 bytes come off
    // the 28-byte header plus the first 14 bytes of the quote
    assert_eq!(payloads[0], &quote_payload(b"KR4101F30001", b"09000200")[14..]);
    let short = b"B6034 but too short";
    assert_eq!(payloads[2], &short[14..]);
}

#[test]
fn replay_keeps_short_frames_whole() {
    let mut data = vec![0xd4, 0xc3, 0xb2, 0xa1];
    data.extend_from_slice(&[0u8; 20]);
    data.extend_from_slice(&1u32.to_le_bytes());
    data.extend_from_slice(&0u32.to_le_bytes());
    data.extend_from_slice(&5u32.to_le_bytes());
    data.extend_from_slice(&5u32.to_le_bytes());
    data.extend_from_slice(b"hello");
    // a record cut short ends the list
    data.extend_from_slice(&[0u8; 10]);
    let payloads = replay_payloads(&data);
    assert_eq!(payloads, vec![&b"hello"[..]]);
}

#[test]
fn replay_shift_is_multiple_of_length() {
    assert_eq!(replay_shift(100, 199, 0), Some(0));
    assert_eq!(replay_shift(100, 199, 3), Some(300));
    assert_eq!(replay_shift(200, 100, 1), None);
    assert_eq!(replay_shift(0, u32::MAX, 0), None);
    assert_eq!(replay_shift(0, 0xffff, 0x10000), None);
    assert_eq!(replay_shift(0, 0xfffe, 0x10000), Some(0xffff0000));
}

#[test]
fn peak_within_quote_count() {
    let data = two_quotes();
    let (stats, _) = parse_pcap_with_stats(&data, true).unwrap();
    assert!(stats.max_heap_size >= 1 && stats.max_heap_size <= stats.quotes);
}
