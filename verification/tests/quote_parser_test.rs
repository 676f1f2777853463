use kospi200_parser::kospi::{HeapItem, KospiHandler, QuoteData};
use kospi200_parser::sources::run_pcap_source;
use kospi200_parser::quote_parser::parse_pcap;

/// A 215-byte quote filled with ASCII '0', with the given issue code and
/// accept time.
fn quote_payload(issue_code: &[u8; 12], accept_time: &[u8; 8]) -> Vec<u8> {
    let mut payload = vec![b'0'; 215];
    payload[0..5].copy_from_slice(b"B6034");
    payload[5..17].copy_from_slice(issue_code);
    payload[206..214].copy_from_slice(accept_time);
    payload
}

/// An Ethernet frame holding an IPv4 UDP datagram to `port`.
fn udp_frame(payload: &[u8], port: u16) -> Vec<u8> {
    let mut frame = vec![0u8; 14];
    frame[12] = 0x08;
    frame[13] = 0x00;
    let mut ip = vec![0u8; 20];
    ip[0] = 0x45;
    ip[9] = 17;
    frame.extend_from_slice(&ip);
    let mut udp = vec![0u8; 8];
    udp[2..4].copy_from_slice(&port.to_be_bytes());
    frame.extend_from_slice(&udp);
    frame.extend_from_slice(payload);
    frame
}

/// A little-endian, microsecond pcap capture of Ethernet frames.
fn capture(records: &[(u32, u32, Vec<u8>)]) -> Vec<u8> {
    let mut out = Vec::new();
    out.extend_from_slice(&0xa1b2c3d4u32.to_le_bytes());
    out.extend_from_slice(&2u16.to_le_bytes());
    out.extend_from_slice(&4u16.to_le_bytes());
    out.extend_from_slice(&[0u8; 8]);
    out.extend_from_slice(&65535u32.to_le_bytes());
    out.extend_from_slice(&1u32.to_le_bytes());
    for (sec, usec, frame) in records {
        out.extend_from_slice(&sec.to_le_bytes());
        out.extend_from_slice(&usec.to_le_bytes());
        out.extend_from_slice(&(frame.len() as u32).to_le_bytes());
        out.extend_from_slice(&(frame.len() as u32).to_le_bytes());
        out.extend_from_slice(frame);
    }
    out
}

/// A small capture: quotes out of accept-time order within the 3 s window,
/// plus datagrams that are not quotes or not for the feed.
fn small_capture() -> Vec<u8> {
    let q = |code: &[u8; 12], t: &[u8; 8]| udp_frame(&quote_payload(code, t), 15515);
    capture(&[
        (1297814428, 100000, q(b"KR4101F30001", b"09000200")),
        (1297814428, 200000, q(b"KR4101F30002", b"09000100")),
        (1297814428, 300000, udp_frame(b"not a quote", 15515)),
        (1297814428, 400000, udp_frame(&quote_payload(b"KR4101F30009", b"09000050"), 9999)),
        (1297814429, 0, q(b"KR4101F30003", b"09000300")),
        (1297814431, 500000, q(b"KR4101F30004", b"09000250")),
        (1297814433, 0, q(b"KR4101F30005", b"09000400")),
    ])
}

/// Streams a capture into the handler and returns the output lines.
fn parse_to_output(data: &[u8], reorder: bool) -> (Vec<String>, KospiHandler) {
    let mut handler = KospiHandler::new(reorder);
    let mut output_bytes = Vec::new();
    for d in run_pcap_source(data).expect("PCAP source failed") {
        handler.on_packet(d.ts_sec, d.ts_usec, d.payload, &mut output_bytes);
    }
    handler.flush_all(&mut output_bytes);
    let lines = String::from_utf8_lossy(&output_bytes)
        .lines()
        .map(|s| s.to_string())
        .collect();
    (lines, handler)
}

#[test]
fn test_extract_quote_and_format() {
    let mut handler = KospiHandler::new(false);
    let mut output = Vec::new();

    // 1. Fake payload that is too short
    let short_payload = vec![0u8; 100];
    handler.on_packet(1297846801, 123456, &short_payload, &mut output);
    assert_eq!(handler.quotes_parsed, 0, "Should ignore short packets");

    // 2. Valid payload with Magic Bytes
    let mut payload = vec![b'0'; 215]; // Fill with ASCII '0'
    payload[0..5].copy_from_slice(b"B6034"); // Mock Magic Bytes
    payload[5..17].copy_from_slice(b"KR7005930003"); // Mock Issue Code
    payload[206..214].copy_from_slice(b"09000123"); // Mock Accept Time

    handler.on_packet(1297846801, 123456, &payload, &mut output);
    assert_eq!(handler.quotes_parsed, 1, "Should parse valid quote");

    // Convert the bytes back to string for assert
    let out_str = String::from_utf8_lossy(&output);
    // Verify time headers and ISIN
    assert!(out_str.starts_with("1297846801.123456 09000123 KR7005930003"));
    // Since payload is filled with '0', QTY is 7 chars, Price is 5 chars
    assert!(out_str.contains(" 0000000@00000"));
}

#[test]
fn verify_memory_constraints() {
    // Assert slob struct size
    let heap_item_size = std::mem::size_of::<HeapItem>();
    let arena_item_size = std::mem::size_of::<QuoteData>();

    assert_eq!(
        heap_item_size, 24,
        "HeapItem must be 24 bytes (20 data + 4 padding)"
    );
    assert_eq!(arena_item_size, 224, "QuoteData must be 224 bytes");

    // Calculate max heap tracking weight for 3 million in-flight packets
    let max_packets = 3_000_000;
    let heap_weight_mb = (max_packets * heap_item_size) / 1_024 / 1_024;

    println!("Heap tree size at 3M packets: {} MB", heap_weight_mb);
    assert!(
        heap_weight_mb < 100,
        "Heap tree metadata must remain highly cacheable"
    );
}

#[test]
fn parses_small_capture() {
    let (lines, handler) = parse_to_output(&small_capture(), false);
    assert!(!lines.is_empty(), "expected quotes");
    assert_eq!(lines.len(), handler.quotes_parsed);
    println!("quotes parsed: {}", handler.quotes_parsed);
}

#[test]
fn reorder_preserves_packet_count() {
    let (normal, _) = parse_to_output(&small_capture(), false);
    let (reordered, _) = parse_to_output(&small_capture(), true);

    assert_eq!(normal.len(), reordered.len());
}

#[test]
fn unsorted_output_keeps_capture_order() {
    let (lines, handler) = parse_to_output(&small_capture(), false);
    assert_eq!(handler.quotes_parsed, 5);
    assert_eq!(handler.max_heap_size, 0);
    let codes: Vec<&str> = lines.iter().map(|l| &l[27..39]).collect();
    assert_eq!(
        codes,
        vec!["KR4101F30001", "KR4101F30002", "KR4101F30003", "KR4101F30004", "KR4101F30005"]
    );
    assert!(lines[0].starts_with("1297814428.100000 09000200 KR4101F30001 "));
}

#[test]
fn sorted_output_follows_accept_time() {
    let (lines, handler) = parse_to_output(&small_capture(), true);
    assert_eq!(handler.quotes_parsed, 5);
    let times: Vec<&str> = lines.iter().map(|l| &l[18..26]).collect();
    assert_eq!(times, vec!["09000100", "09000200", "09000250", "09000300", "09000400"]);
    // the first two quotes are released when the fourth arrives more than 3 s later
    assert_eq!(handler.max_heap_size, 4);
}

#[test]
fn reorder_releases_only_quotes_older_than_window() {
    let mut handler = KospiHandler::new(true);
    let mut out = Vec::new();
    let a = quote_payload(b"KR4101F30001", b"09000200");
    let b = quote_payload(b"KR4101F30002", b"09000100");
    handler.on_packet(100, 0, &a, &mut out);
    handler.on_packet(101, 0, &b, &mut out);
    assert!(out.is_empty(), "nothing is 3 s old yet");
    handler.on_packet(103, 999999, &a, &mut out);
    assert!(out.is_empty(), "2.999999 s is not enough");
    handler.on_packet(104, 0, &a, &mut out);
    let text = String::from_utf8(out.clone()).unwrap();
    let lines: Vec<&str> = text.lines().collect();
    assert_eq!(lines.len(), 2);
    assert!(lines[0].starts_with("101.000000 09000100 KR4101F30002"));
    assert!(lines[1].starts_with("100.000000 09000200 KR4101F30001"));
    handler.flush_all(&mut out);
    let text = String::from_utf8(out).unwrap();
    let lines: Vec<&str> = text.lines().collect();
    assert_eq!(lines.len(), 4);
    assert!(lines[2].starts_with("103.999999 09000200"));
    assert!(lines[3].starts_with("104.000000 09000200"));
    assert_eq!(handler.quotes_parsed, 4);
}

#[test]
fn equal_accept_times_follow_arrival_time() {
    let mut handler = KospiHandler::new(true);
    let mut out = Vec::new();
    let a = quote_payload(b"KR4101F30001", b"09000100");
    let b = quote_payload(b"KR4101F30002", b"09000100");
    handler.on_packet(200, 5, &b, &mut out);
    handler.on_packet(200, 1, &a, &mut out);
    handler.flush_all(&mut out);
    let text = String::from_utf8(out).unwrap();
    let lines: Vec<&str> = text.lines().collect();
    assert!(lines[0].starts_with("200.000001 09000100 KR4101F30001"));
    assert!(lines[1].starts_with("200.000005 09000100 KR4101F30002"));
}

#[test]
fn freed_slots_are_reused() {
    let mut handler = KospiHandler::new(true);
    let mut out = Vec::new();
    for i in 0..20u32 {
        let t = format!("0900{:04}", i);
        let mut time = [0u8; 8];
        time.copy_from_slice(t.as_bytes());
        let q = quote_payload(b"KR4101F30001", &time);
        handler.on_packet(1000 + i * 4, 0, &q, &mut out);
    }
    handler.flush_all(&mut out);
    let text = String::from_utf8(out).unwrap();
    let lines: Vec<&str> = text.lines().collect();
    assert_eq!(lines.len(), 20);
    for (i, line) in lines.iter().enumerate() {
        assert!(line.contains(&format!("0900{:04}", i)));
    }
    assert_eq!(handler.max_heap_size, 2);
    assert!(handler.has_room());
}

#[test]
fn timestamp_is_zero_padded() {
    let mut handler = KospiHandler::new(false);
    let mut out = Vec::new();
    let q = quote_payload(b"KR4101F30001", b"09000100");
    handler.on_packet(7, 5, &q, &mut out);
    handler.on_packet(0, 1234567, &q, &mut out);
    let text = String::from_utf8(out).unwrap();
    let lines: Vec<&str> = text.lines().collect();
    assert!(lines[0].starts_with("7.000005 09000100 "));
    assert!(lines[1].starts_with("0.1234567 09000100 "));
}

#[test]
fn full_line_layout() {
    let mut payload = quote_payload(b"KR4301F32505", b"09002997");
    // bid levels 1st..5th: price at 29 + 12k, qty at 34 + 12k
    for k in 0..5 {
        let price = format!("{:05}", 92 - k);
        let qty = format!("{:07}", 100 + k);
        payload[29 + 12 * k..34 + 12 * k].copy_from_slice(price.as_bytes());
        payload[34 + 12 * k..41 + 12 * k].copy_from_slice(qty.as_bytes());
    }
    // ask levels 1st..5th: price at 96 + 12k, qty at 101 + 12k
    for k in 0..5 {
        let price = format!("{:05}", 93 + k);
        let qty = format!("{:07}", 200 + k);
        payload[96 + 12 * k..101 + 12 * k].copy_from_slice(price.as_bytes());
        payload[101 + 12 * k..108 + 12 * k].copy_from_slice(qty.as_bytes());
    }
    let mut handler = KospiHandler::new(false);
    let mut out = Vec::new();
    handler.on_packet(1297814429, 998584, &payload, &mut out);
    let expected = "1297814429.998584 09002997 KR4301F32505 \
0000104@00088 0000103@00089 0000102@00090 0000101@00091 0000100@00092 \
0000200@00093 0000201@00094 0000202@00095 0000203@00096 0000204@00097\n";
    assert_eq!(String::from_utf8(out).unwrap(), expected);
}

#[test]
fn flush_after_flush_writes_nothing() {
    let data = small_capture();
    let (_, mut handler) = parse_to_output(&data, true);
    let parsed = handler.quotes_parsed;
    let peak = handler.max_heap_size;
    let mut out = Vec::new();
    handler.flush_all(&mut out);
    assert!(out.is_empty());
    assert_eq!(handler.quotes_parsed, parsed);
    assert_eq!(handler.max_heap_size, peak);
}

#[test]
fn plain_handler_holds_nothing() {
    let mut handler = KospiHandler::new(false);
    let mut out = Vec::new();
    let q = quote_payload(b"KR4101F30001", b"09000100");
    handler.on_packet(10, 0, &q, &mut out);
    let written = out.len();
    assert!(written > 0);
    handler.flush_all(&mut out);
    assert_eq!(out.len(), written);
    assert_eq!(handler.max_heap_size, 0);
    assert_eq!(handler.quotes_parsed, 1);
}

#[test]
fn counters_stay_consistent() {
    let data = small_capture();
    let mut handler = KospiHandler::new(true);
    let mut out = Vec::new();
    let mut last_parsed = 0;
    let mut last_peak = 0;
    for d in run_pcap_source(&data).unwrap() {
        handler.on_packet(d.ts_sec, d.ts_usec, d.payload, &mut out);
        assert!(handler.quotes_parsed >= last_parsed);
        assert!(handler.max_heap_size >= last_peak);
        assert!(handler.max_heap_size <= handler.quotes_parsed);
        last_parsed = handler.quotes_parsed;
        last_peak = handler.max_heap_size;
    }
    assert_eq!(handler.quotes_parsed, 5);
}

#[test]
fn invalid_payload_changes_nothing() {
    let mut handler = KospiHandler::new(true);
    let mut out = Vec::new();
    let q = quote_payload(b"KR4101F30001", b"09000100");
    handler.on_packet(10, 0, &q[..214], &mut out);
    let mut wrong = q.clone();
    wrong[0] = b'C';
    handler.on_packet(10, 0, &wrong, &mut out);
    assert_eq!(handler.quotes_parsed, 0);
    assert!(out.is_empty());
}

#[test]
fn reordered_lines_are_a_permutation_of_plain_lines() {
    let data = small_capture();
    let (mut plain, _) = parse_to_output(&data, false);
    let (mut sorted, _) = parse_to_output(&data, true);
    assert_eq!(plain.len(), sorted.len());
    plain.sort();
    sorted.sort();
    assert_eq!(plain, sorted);
}

#[test]
fn window_holds_back_only_recent_quotes() {
    // after each packet, the first waiting quote is less than 3 s older than
    // the newest quote received
    let mut handler = KospiHandler::new(true);
    let mut out = Vec::new();
    let q1 = quote_payload(b"KR4101F30001", b"09000100");
    let q2 = quote_payload(b"KR4101F30002", b"09000200");
    handler.on_packet(100, 0, &q1, &mut out);
    assert!(out.is_empty());
    handler.on_packet(102, 999999, &q2, &mut out);
    assert!(out.is_empty());
    handler.on_packet(103, 0, &q2, &mut out);
    let text = String::from_utf8(out.clone()).unwrap();
    assert_eq!(text.lines().count(), 1);
    assert!(text.starts_with("100.000000 09000100 KR4101F30001"));
}

#[test]
fn handler_agrees_with_whole_capture_parse() {
    let data = small_capture();
    for reorder in [false, true] {
        let (handler_lines, handler) = parse_to_output(&data, reorder);
        let mut parsed = parse_pcap(&data, reorder).unwrap();
        assert_eq!(handler.quotes_parsed, parsed.len());
        if reorder {
            let mut h = handler_lines.clone();
            h.sort();
            parsed.sort();
            assert_eq!(h, parsed);
        } else {
            assert_eq!(handler_lines, parsed);
        }
    }
}

#[test]
fn handler_breaks_full_ties_by_arrival() {
    // free a slot first so that the later quote takes a lower slot
    let mut handler = KospiHandler::new(true);
    let mut out = Vec::new();
    let early = quote_payload(b"KR4101F30000", b"08000000");
    handler.on_packet(10, 0, &early, &mut out);
    handler.on_packet(20, 0, &early, &mut out);
    handler.on_packet(30, 0, &quote_payload(b"KR4101F30009", b"09000100"), &mut out);
    handler.on_packet(30, 0, &quote_payload(b"KR4101F30001", b"09000100"), &mut out);
    out.clear();
    handler.flush_all(&mut out);
    let text = String::from_utf8(out).unwrap();
    let lines: Vec<&str> = text.lines().collect();
    assert_eq!(lines.len(), 2);
    assert!(lines[0].contains("KR4101F30009"));
    assert!(lines[1].contains("KR4101F30001"));
}
