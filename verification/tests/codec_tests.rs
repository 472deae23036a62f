use dns_resolver::{
    decode_compressed_name, decode_name, encode_dns_name, parse_ipv4, reverse_query_name, Class,
    DNSHeader, DNSPacket, DNSQuestion, DNSResolver, DnsError, Ipv4, RecordType,
};

#[test]
fn test_encode_dns_name() {
    assert_eq!(
        DNSResolver::encode_dns_name("google.com").unwrap(),
        b"\x06google\x03com\x00".to_vec()
    );
}

#[test]
fn test_class() {
    assert_eq!(Class::In.code(), 1);
    assert_eq!(Class::from_code(1).unwrap(), Class::In);
}

#[test]
fn test_record_type() {
    assert_eq!(RecordType::A.code(), 1);
    assert_eq!(RecordType::Ns.code(), 2);
    assert_eq!(RecordType::Md.code(), 3);
    assert_eq!(RecordType::Mf.code(), 4);

    assert_eq!(RecordType::from_code(1).unwrap(), RecordType::A);
    assert_eq!(RecordType::from_code(2).unwrap(), RecordType::Ns);
    assert_eq!(RecordType::from_code(3).unwrap(), RecordType::Md);
    assert_eq!(RecordType::from_code(4).unwrap(), RecordType::Mf);
}

#[test]
fn test_build_query() {
    assert_eq!(
        &DNSResolver::build_query("example.com", RecordType::A, Class::In).unwrap()[2..],
        b"\x01\x00\x00\x01\x00\x00\x00\x00\x00\x00\x07example\x03com\x00\x00\x01\x00\x01"
    );
}

#[test]
fn test_decode_name() {
    let mut buf = [0; 17];
    buf[0] = 3;
    buf[1] = 'w' as u8;
    buf[2] = 'w' as u8;
    buf[3] = 'w' as u8;
    buf[4] = 7;
    buf[5] = 'e' as u8;
    buf[6] = 'x' as u8;
    buf[7] = 'a' as u8;
    buf[8] = 'm' as u8;
    buf[9] = 'p' as u8;
    buf[10] = 'l' as u8;
    buf[11] = 'e' as u8;
    buf[12] = 3;
    buf[13] = 'c' as u8;
    buf[14] = 'o' as u8;
    buf[15] = 'm' as u8;
    buf[16] = 0;

    let (name, used) = decode_name(&buf, 0).unwrap();
    assert_eq!(name, "www.example.com");
    assert_eq!(used, 17);
}

#[test]
fn test_encode_name_example() {
    assert_eq!(
        encode_dns_name("example.com").unwrap(),
        b"\x07example\x03com\x00".to_vec()
    );
}

#[test]
fn test_encode_rejects_long_label() {
    let long = "a".repeat(64);
    assert_eq!(encode_dns_name(&long), Err(DnsError::InvalidName));
    let just_fits = "a".repeat(63);
    assert!(encode_dns_name(&just_fits).is_ok());
}

#[test]
fn test_round_trip_varying_label_lengths() {
    for name in ["a", "a.bb.ccc.dddd", "www.example.com", "x.y", "some-host.example.org"] {
        let encoded = encode_dns_name(name).unwrap();
        let (decoded, used) = decode_name(&encoded, 0).unwrap();
        assert_eq!(decoded, name);
        assert_eq!(used, encoded.len());
        assert_eq!(used, name.len() + 2);
    }
}

#[test]
fn test_compressed_name_consumes_two_bytes() {
    // A literal name at offset 0, then a 2-byte pointer back to it.
    let mut buf = encode_dns_name("example.com").unwrap();
    let ptr_at = buf.len();
    buf.push(0xC0);
    buf.push(0x00);
    let (first, _) = decode_name(&buf, 0).unwrap();
    let (second, used) = decode_name(&buf, ptr_at).unwrap();
    assert_eq!(first, second);
    assert_eq!(used, 2);
    assert_eq!(decode_compressed_name(&buf, ptr_at).unwrap(), "example.com");
}

#[test]
fn test_labels_after_pointer_position() {
    // "www" + pointer to "example.com": joins the label and the target.
    let mut buf = encode_dns_name("example.com").unwrap();
    let start = buf.len();
    buf.push(3);
    buf.extend_from_slice(b"www");
    buf.push(0xC0);
    buf.push(0x00);
    let (name, used) = decode_name(&buf, start).unwrap();
    assert_eq!(name, "www.example.com");
    assert_eq!(used, 6);
}

#[test]
fn test_decode_truncated_name_fails() {
    // Declared label length runs past the end of the buffer.
    let buf = [3u8, b'a'];
    assert_eq!(decode_name(&buf, 0), Err(DnsError::MalformedMessage));
    // A pointer with no second byte.
    let buf2 = [0xC0u8];
    assert_eq!(decode_name(&buf2, 0), Err(DnsError::MalformedMessage));
    // A cursor outside the buffer.
    assert_eq!(decode_name(&buf, 5), Err(DnsError::MalformedMessage));
}

#[test]
fn test_pointer_loop_fails() {
    // Two pointers that chase each other must fail, not hang.
    let buf = [0xC0u8, 0x02, 0xC0, 0x00];
    assert_eq!(decode_name(&buf, 0), Err(DnsError::MalformedMessage));
}

#[test]
fn test_header_round_trip() {
    let h = DNSHeader {
        id: 0xBEEF,
        flags: 0x0100,
        num_questions: 1,
        num_answers: 2,
        num_authorities: 3,
        num_additionals: 4,
    };
    let bytes = h.to_bytes();
    assert_eq!(bytes.len(), 12);
    let parsed = DNSHeader::parse(&bytes).unwrap();
    assert_eq!(parsed, h);
}

#[test]
fn test_header_too_short() {
    let buf = [0u8; 11];
    assert_eq!(DNSHeader::parse(&buf), Err(DnsError::MalformedMessage));
}

#[test]
fn test_question_parse() {
    let mut buf = encode_dns_name("example.com").unwrap();
    buf.extend_from_slice(&[0, 1, 0, 1]);
    let (q, used) = DNSQuestion::parse(&buf, 0).unwrap();
    assert_eq!(q.name, "example.com");
    assert_eq!(q.type_, RecordType::A);
    assert_eq!(q.class, Class::In);
    assert_eq!(used, buf.len());
}

#[test]
fn test_question_foreign_class() {
    let mut buf = encode_dns_name("example.com").unwrap();
    buf.extend_from_slice(&[0, 1, 0, 2]);
    assert_eq!(
        DNSQuestion::parse(&buf, 0).unwrap_err(),
        DnsError::UnsupportedClass
    );
}

#[test]
fn test_question_to_bytes() {
    let q = DNSQuestion::new(String::from("abc"), RecordType::Ns, Class::In);
    assert_eq!(q.to_bytes(), b"abc\x00\x02\x00\x01".to_vec());
}

#[test]
fn test_packet_truncated_record_fails() {
    // Header announces one answer whose declared payload length exceeds
    // the remaining bytes.
    let mut buf: Vec<u8> = vec![0, 0, 0x80, 0, 0, 0, 0, 1, 0, 0, 0, 0];
    buf.extend_from_slice(&encode_dns_name("a.b").unwrap());
    // type 16 (opaque), class 1, ttl 0, declared length 40, but only 2 bytes follow
    buf.extend_from_slice(&[0, 16, 0, 1, 0, 0, 0, 0, 0, 40, 1, 2]);
    assert_eq!(DNSPacket::parse(&buf).unwrap_err(), DnsError::MalformedMessage);
}

#[test]
fn test_packet_count_mismatch_fails() {
    // Header announces a question that is not present at all.
    let buf: Vec<u8> = vec![0, 0, 0, 0, 0, 1, 0, 0, 0, 0, 0, 0];
    assert_eq!(DNSPacket::parse(&buf).unwrap_err(), DnsError::MalformedMessage);
}

#[test]
fn test_parse_ipv4() {
    assert_eq!(parse_ipv4("198.41.0.4"), Some(Ipv4::new(198, 41, 0, 4)));
    assert_eq!(parse_ipv4("255.255.255.255"), Some(Ipv4::new(255, 255, 255, 255)));
    assert_eq!(parse_ipv4("1.2.3"), None);
    assert_eq!(parse_ipv4("1.2.3.4.5"), None);
    assert_eq!(parse_ipv4("256.1.1.1"), None);
    assert_eq!(parse_ipv4("a.b.c.d"), None);
    assert_eq!(parse_ipv4(""), None);
}

#[test]
fn test_reverse_query_name() {
    assert_eq!(reverse_query_name(&Ipv4::new(8, 8, 4, 2)), "2.4.8.8.in-addr.arpa");
    assert_eq!(
        reverse_query_name(&Ipv4::new(192, 168, 0, 117)),
        "117.0.168.192.in-addr.arpa"
    );
}
