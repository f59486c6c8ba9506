use helicopter_collective::mdns::{
    build_mdns_announcement, encode_mdns_name, handle_mdns_query, names_equal_prefix,
};

// ── encode_mdns_name ──────────────────────────────────────────────────────

#[test]
fn encode_produces_length_prefixed_labels_with_nul() {
    let mut buf = [0u8; 32];
    let n = encode_mdns_name(&mut buf, "helicopter", "local");
    // \x0a h e l i c o p t e r \x05 l o c a l \x00
    assert_eq!(&buf[..n], b"\x0ahelicopter\x05local\x00");
}

#[test]
fn encode_returns_correct_length() {
    let mut buf = [0u8; 32];
    let n = encode_mdns_name(&mut buf, "helicopter", "local");
    // 1 + 10 + 1 + 5 + 1 = 18
    assert_eq!(n, 18);
}

#[test]
fn encode_single_char_hostname() {
    let mut buf = [0u8; 16];
    let n = encode_mdns_name(&mut buf, "a", "local");
    assert_eq!(&buf[..n], b"\x01a\x05local\x00");
    assert_eq!(n, 9); // 1 + 1 + 1 + 5 + 1
}

#[test]
fn encode_unique_suffix_style() {
    let mut buf = [0u8; 32];
    let n = encode_mdns_name(&mut buf, "helicopter-a1b2c3", "local");
    assert_eq!(buf[0], 17); // len("helicopter-a1b2c3")
    assert_eq!(&buf[1..18], b"helicopter-a1b2c3");
    assert_eq!(buf[18], 5); // len("local")
    assert_eq!(&buf[19..24], b"local");
    assert_eq!(buf[24], 0);
    assert_eq!(n, 25);
}

#[test]
fn encode_leaves_bytes_after_the_name_untouched() {
    let mut buf = [0xAAu8; 12];
    let n = encode_mdns_name(&mut buf, "ab", "cd");
    assert_eq!(n, 7);
    assert_eq!(&buf[..n], b"\x02ab\x02cd\x00");
    assert!(buf[n..].iter().all(|&b| b == 0xAA));
}

#[test]
fn encode_empty_labels() {
    let mut buf = [0xFFu8; 3];
    let n = encode_mdns_name(&mut buf, "", "");
    assert_eq!(n, 3);
    assert_eq!(buf, [0, 0, 0]);
}

// ── names_equal_prefix ───────────────────────────────────────────────────

#[test]
fn names_equal_exact_match() {
    let enc = b"\x0ahelicopter\x05local\x00";
    assert!(names_equal_prefix(enc, enc));
}

#[test]
fn names_equal_query_longer_than_encoded() {
    let enc = b"\x0ahelicopter\x05local\x00";
    let query = b"\x0ahelicopter\x05local\x00extra_garbage";
    assert!(names_equal_prefix(query, enc));
}

#[test]
fn names_equal_case_insensitive() {
    let enc = b"\x0ahelicopter\x05local\x00";
    let query = b"\x0aHELICOPTER\x05LOCAL\x00";
    assert!(names_equal_prefix(query, enc));
}

#[test]
fn names_equal_query_shorter_than_encoded() {
    let enc = b"\x0ahelicopter\x05local\x00";
    let query = b"\x05short\x05local\x00";
    assert!(!names_equal_prefix(query, enc));
}

#[test]
fn names_equal_different_hostname() {
    let enc = b"\x0ahelicopter\x05local\x00";
    let query = b"\x09something\x05local\x00";
    assert!(!names_equal_prefix(query, enc));
}

#[test]
fn names_equal_empty_query() {
    let enc = b"\x0ahelicopter\x05local\x00";
    assert!(!names_equal_prefix(b"", enc));
}

#[test]
fn names_equal_lowercases_only_ascii_letters() {
    // '@' (0x40) and '`' (0x60) differ by 0x20 but are not letters.
    assert!(!names_equal_prefix(b"@", b"`"));
    assert!(names_equal_prefix(b"Z", b"z"));
    assert!(names_equal_prefix(b"anything", b""));
}

// ── handle_mdns_query ────────────────────────────────────────────────────

const DEVICE_IP: [u8; 4] = [192, 168, 7, 1];

fn friendly_enc() -> Vec<u8> {
    let mut buf = vec![0u8; 32];
    let n = encode_mdns_name(&mut buf, "helicopter", "local");
    buf.truncate(n);
    buf
}

fn unique_enc() -> Vec<u8> {
    let mut buf = vec![0u8; 32];
    let n = encode_mdns_name(&mut buf, "helicopter-a1b2c3", "local");
    buf.truncate(n);
    buf
}

/// Build a minimal mDNS query packet for the given encoded name and QTYPE.
fn make_query(id: u16, encoded_name: &[u8], qtype: u16) -> Vec<u8> {
    let mut pkt = Vec::new();
    pkt.extend_from_slice(&id.to_be_bytes()); // ID
    pkt.extend_from_slice(&0u16.to_be_bytes()); // flags = query
    pkt.extend_from_slice(&1u16.to_be_bytes()); // QDCOUNT = 1
    pkt.extend_from_slice(&0u16.to_be_bytes()); // ANCOUNT
    pkt.extend_from_slice(&0u16.to_be_bytes()); // NSCOUNT
    pkt.extend_from_slice(&0u16.to_be_bytes()); // ARCOUNT
    pkt.extend_from_slice(encoded_name); // QNAME
    pkt.extend_from_slice(&qtype.to_be_bytes()); // QTYPE
    pkt.extend_from_slice(&1u16.to_be_bytes()); // QCLASS = IN
    pkt
}

fn call(pkt: &[u8]) -> Option<Vec<u8>> {
    let fe = friendly_enc();
    let ue = unique_enc();
    let mut resp = vec![0u8; 512];
    let len = handle_mdns_query(pkt, &mut resp, DEVICE_IP, &fe, &ue)?;
    resp.truncate(len);
    Some(resp)
}

#[test]
fn rejects_packet_too_short() {
    assert!(call(&[0u8; 11]).is_none());
}

#[test]
fn rejects_response_packet() {
    let mut pkt = make_query(1, &friendly_enc(), 1);
    pkt[2] = 0x80; // set QR bit
    assert!(call(&pkt).is_none());
}

#[test]
fn rejects_unknown_name() {
    let mut buf = [0u8; 32];
    let n = encode_mdns_name(&mut buf, "unknown", "local");
    let pkt = make_query(1, &buf[..n], 1);
    assert!(call(&pkt).is_none());
}

#[test]
fn rejects_aaaa_query_type() {
    let pkt = make_query(1, &friendly_enc(), 28 /* AAAA */);
    assert!(call(&pkt).is_none());
}

#[test]
fn responds_to_a_query_for_friendly_name() {
    let pkt = make_query(0xABCD, &friendly_enc(), 1 /* A */);
    let resp = call(&pkt).expect("should respond");
    // Header: ID preserved, flags = QR+AA, no questions, 1 answer
    assert_eq!(u16::from_be_bytes([resp[0], resp[1]]), 0xABCD);
    assert_eq!(u16::from_be_bytes([resp[2], resp[3]]), 0x8400);
    assert_eq!(u16::from_be_bytes([resp[4], resp[5]]), 0); // QDCOUNT=0
    assert_eq!(u16::from_be_bytes([resp[6], resp[7]]), 1); // ANCOUNT=1
}

#[test]
fn responds_to_any_query_type() {
    let pkt = make_query(1, &friendly_enc(), 255 /* ANY */);
    assert!(call(&pkt).is_some());
}

#[test]
fn responds_to_unique_name() {
    let pkt = make_query(1, &unique_enc(), 1);
    assert!(call(&pkt).is_some());
}

#[test]
fn response_contains_correct_ip() {
    let pkt = make_query(1, &friendly_enc(), 1);
    let resp = call(&pkt).unwrap();
    let fe = friendly_enc();
    // IP starts at: 12 header + name + 2 TYPE + 2 CLASS + 4 TTL + 2 RDLEN = name_end + 10
    let ip_offset = 12 + fe.len() + 10;
    assert_eq!(&resp[ip_offset..ip_offset + 4], &DEVICE_IP);
}

#[test]
fn response_contains_correct_ttl_and_type() {
    let pkt = make_query(1, &friendly_enc(), 1);
    let resp = call(&pkt).unwrap();
    let fe = friendly_enc();
    let name_end = 12 + fe.len();
    assert_eq!(u16::from_be_bytes([resp[name_end], resp[name_end + 1]]), 1); // TYPE=A
    assert_eq!(
        u16::from_be_bytes([resp[name_end + 2], resp[name_end + 3]]),
        0x8001 // CLASS=IN + cache-flush
    );
    assert_eq!(
        u32::from_be_bytes([
            resp[name_end + 4],
            resp[name_end + 5],
            resp[name_end + 6],
            resp[name_end + 7]
        ]),
        120 // TTL
    );
    assert_eq!(
        u16::from_be_bytes([resp[name_end + 8], resp[name_end + 9]]),
        4 // RDLENGTH
    );
}

#[test]
fn handles_compression_pointer_in_name() {
    // Build a packet where the QNAME uses a compression pointer (0xC0 0x0C).
    // The query won't match our names (pointer doesn't resolve here),
    // but the parser must not panic or loop.
    let mut pkt = Vec::new();
    pkt.extend_from_slice(&1u16.to_be_bytes()); // ID
    pkt.extend_from_slice(&0u16.to_be_bytes()); // flags
    pkt.extend_from_slice(&1u16.to_be_bytes()); // QDCOUNT=1
    pkt.extend_from_slice(&[0, 0, 0, 0, 0, 0]); // AN/NS/AR counts
    pkt.push(0xC0); // compression pointer high byte
    pkt.push(0x0C); // compression pointer low byte (points to offset 12 = self)
    pkt.extend_from_slice(&1u16.to_be_bytes()); // QTYPE=A
    pkt.extend_from_slice(&1u16.to_be_bytes()); // QCLASS=IN
    // Should return None (no name match) without panicking
    assert!(call(&pkt).is_none());
}

#[test]
fn handles_multiple_questions_matches_second() {
    let mut buf_unknown = [0u8; 32];
    let n = encode_mdns_name(&mut buf_unknown, "other", "local");
    let unknown = &buf_unknown[..n];

    // Two questions: first is unknown, second matches friendly name
    let fe = friendly_enc();
    let mut pkt = Vec::new();
    pkt.extend_from_slice(&1u16.to_be_bytes()); // ID
    pkt.extend_from_slice(&0u16.to_be_bytes()); // flags
    pkt.extend_from_slice(&2u16.to_be_bytes()); // QDCOUNT=2
    pkt.extend_from_slice(&[0, 0, 0, 0, 0, 0]);
    pkt.extend_from_slice(unknown);
    pkt.extend_from_slice(&1u16.to_be_bytes()); // QTYPE=A
    pkt.extend_from_slice(&1u16.to_be_bytes()); // QCLASS=IN
    pkt.extend_from_slice(&fe);
    pkt.extend_from_slice(&1u16.to_be_bytes());
    pkt.extend_from_slice(&1u16.to_be_bytes());

    assert!(call(&pkt).is_some());
}

#[test]
fn response_is_the_whole_a_record_for_the_matched_name() {
    let ue = unique_enc();
    let pkt = make_query(0x1234, &ue, 255);
    let resp = call(&pkt).unwrap();
    let mut expected = vec![0x12, 0x34, 0x84, 0x00, 0, 0, 0, 1, 0, 0, 0, 0];
    expected.extend_from_slice(&ue);
    expected.extend_from_slice(&[0, 1, 0x80, 0x01, 0, 0, 0, 120, 0, 4, 192, 168, 7, 1]);
    assert_eq!(resp, expected);
    assert_eq!(resp.len(), ue.len() + 26);
}

#[test]
fn query_in_upper_case_is_answered_with_our_spelling() {
    let mut buf = [0u8; 32];
    let n = encode_mdns_name(&mut buf, "HELICOPTER", "LOCAL");
    let pkt = make_query(7, &buf[..n], 1);
    let resp = call(&pkt).unwrap();
    let fe = friendly_enc();
    assert_eq!(&resp[12..12 + fe.len()], &fe[..]);
}

#[test]
fn no_answer_leaves_response_buffer_untouched() {
    let pkt = make_query(1, &friendly_enc(), 28);
    let mut resp = vec![0x5Au8; 64];
    let fe = friendly_enc();
    let ue = unique_enc();
    assert!(handle_mdns_query(&pkt, &mut resp, DEVICE_IP, &fe, &ue).is_none());
    assert!(resp.iter().all(|&b| b == 0x5A));
}

#[test]
fn truncated_question_is_not_answered() {
    let mut pkt = make_query(1, &friendly_enc(), 1);
    pkt.truncate(pkt.len() - 3); // cut into QTYPE/QCLASS
    assert!(call(&pkt).is_none());
}

#[test]
fn zero_question_count_is_not_answered() {
    let mut pkt = make_query(1, &friendly_enc(), 1);
    pkt[5] = 0;
    assert!(call(&pkt).is_none());
}

#[test]
fn label_running_past_the_packet_is_not_answered() {
    let mut pkt = make_query(1, &friendly_enc(), 1);
    pkt[12] = 0x3F;
    assert!(call(&pkt).is_none());
}

// ── build_mdns_announcement ──────────────────────────────────────────────

#[test]
fn announcement_uses_message_id_zero() {
    // RFC 6762 §18.1: unsolicited responses must use ID 0, so resolvers
    // don't mistake them for a reply correlated to an outstanding query.
    let fe = friendly_enc();
    let mut resp = vec![0u8; 512];
    build_mdns_announcement(&mut resp, &fe, DEVICE_IP, 120);
    assert_eq!(u16::from_be_bytes([resp[0], resp[1]]), 0);
}

#[test]
fn announcement_sets_qr_and_aa_flags() {
    let fe = friendly_enc();
    let mut resp = vec![0u8; 512];
    build_mdns_announcement(&mut resp, &fe, DEVICE_IP, 120);
    assert_eq!(u16::from_be_bytes([resp[2], resp[3]]), 0x8400);
}

#[test]
fn goodbye_packet_has_ttl_zero() {
    // A stale-cache "goodbye" only invalidates listeners' cached entry if
    // the TTL field is actually 0 — a wrong constant here would silently
    // leave the old name resolvable for the full normal TTL instead.
    let fe = friendly_enc();
    let mut resp = vec![0u8; 512];
    build_mdns_announcement(&mut resp, &fe, DEVICE_IP, 0);
    let ttl_offset = 12 + fe.len() + 4; // header + name + TYPE + CLASS
    assert_eq!(
        u32::from_be_bytes([
            resp[ttl_offset],
            resp[ttl_offset + 1],
            resp[ttl_offset + 2],
            resp[ttl_offset + 3]
        ]),
        0
    );
}

#[test]
fn announcement_carries_correct_ip_and_ancount() {
    let fe = friendly_enc();
    let mut resp = vec![0u8; 512];
    let n = build_mdns_announcement(&mut resp, &fe, DEVICE_IP, 120);
    assert_eq!(u16::from_be_bytes([resp[6], resp[7]]), 1); // ANCOUNT=1
    let ip_offset = 12 + fe.len() + 10;
    assert_eq!(&resp[ip_offset..ip_offset + 4], &DEVICE_IP);
    assert_eq!(n, ip_offset + 4);
}

#[test]
fn announcement_ttl_is_big_endian() {
    let name = b"\x01a\x00";
    let mut resp = vec![0u8; 40];
    let n = build_mdns_announcement(&mut resp, name, [10, 0, 0, 2], 0x0102_0304);
    assert_eq!(n, 29);
    assert_eq!(&resp[19..23], &[1, 2, 3, 4]);
    assert_eq!(&resp[25..29], &[10, 0, 0, 2]);
    assert!(resp[29..].iter().all(|&b| b == 0));
}
