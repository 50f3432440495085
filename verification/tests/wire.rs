use dennis::DecodeError;
use dennis::DnsCodec;
use dennis::EncodeError;
use dennis::Flags;
use dennis::Header;
use dennis::Message;
use dennis::Name;
use dennis::Opcode;
use dennis::Question;
use dennis::Rcode;
use dennis::ResourceRecord;
use dennis::parser;

fn query_bytes() -> Vec<u8> {
    vec![
        0x10, 0x32, 0x01, 0x00, 0x00, 0x01, 0x00, 0x00, 0x00, 0x00, 0x00, 0x00, 0x06, 0x67, 0x6f,
        0x6f, 0x67, 0x6c, 0x65, 0x03, 0x63, 0x6f, 0x6d, 0x00, 0x00, 0x10, 0x00, 0x01,
    ]
}

fn response_bytes() -> Vec<u8> {
    vec![
        0x10, 0x32, 0x81, 0x80, 0x00, 0x01, 0x00, 0x01, 0x00, 0x00, 0x00, 0x00, 0x06, 0x67, 0x6f,
        0x6f, 0x67, 0x6c, 0x65, 0x03, 0x63, 0x6f, 0x6d, 0x00, 0x00, 0x10, 0x00, 0x01, 0xc0, 0x0c,
        0x00, 0x10, 0x00, 0x01, 0x00, 0x00, 0x01, 0x0e, 0x00, 0x10, 0x0f, 0x76, 0x3d, 0x73, 0x70,
        0x66, 0x31, 0x20, 0x70, 0x74, 0x72, 0x20, 0x3f, 0x61, 0x6c, 0x6c,
    ]
}

fn query_message() -> Message {
    Message {
        header: Header {
            id: 0x1032,
            flags: Flags::new_with_raw_value(0x0100),
            qd_count: 1,
            an_count: 0,
            ns_count: 0,
            ar_count: 0,
        },
        question: vec![Question { qname: Name::from("google.com"), qtype: 16, qclass: 0x0001 }],
        answer: Vec::new(),
        authority: Vec::new(),
        additional: Vec::new(),
    }
}

fn response_message() -> Message {
    Message {
        header: Header {
            id: 0x1032,
            flags: Flags::new_with_raw_value(0x8180),
            qd_count: 1,
            an_count: 1,
            ns_count: 0,
            ar_count: 0,
        },
        question: vec![Question { qname: Name::from("google.com"), qtype: 16, qclass: 0x0001 }],
        answer: vec![ResourceRecord {
            name: Name::from("google.com"),
            rtype: 16,
            class: 0x0001,
            ttl: 270,
            rdlength: 16,
            rdata: b"\x0fv=spf1 ptr ?all".to_vec(),
        }],
        authority: Vec::new(),
        additional: Vec::new(),
    }
}

#[test]
fn parse_query() {
    let input = query_bytes();
    let (output, _) = parser::message(&input).unwrap();
    let expected = query_message();
    assert_eq!(output, expected)
}

#[test]
fn parse_response() {
    let input = response_bytes();
    let (output, _) = parser::message(&input).unwrap();
    let expected = response_message();
    assert_eq!(output, expected)
}

#[test]
fn parse_consumes_whole_encoding() {
    let input = response_bytes();
    let (_, used) = parser::message(&input).unwrap();
    assert_eq!(used, input.len());
}

#[test]
fn flags_pack_unpack_all_raw_values() {
    for raw in 0..=0xffffu16 {
        let flags = Flags::new_with_raw_value(raw);
        assert_eq!(flags.raw_value(), raw);
    }
}

#[test]
fn flags_fields_of_known_words() {
    let f = Flags::new_with_raw_value(0x0100);
    assert!(!f.qr && !f.aa && !f.tc && f.rd && !f.ra);
    assert_eq!(f.opcode, Opcode::Query);
    assert_eq!(f.rcode, Rcode::NoError);
    assert_eq!(f.z, 0);
    let g = Flags::new_with_raw_value(0x8180);
    assert!(g.qr && !g.aa && !g.tc && g.rd && g.ra);
    assert_eq!(g.opcode, Opcode::Query);
    assert_eq!(g.rcode, Rcode::NoError);
}

#[test]
fn opcode_rcode_reserved_values_round_trip() {
    assert_eq!(Opcode::new_with_raw_value(1), Opcode::IQuery);
    assert_eq!(Opcode::new_with_raw_value(9).raw_value(), 9);
    assert_eq!(Rcode::new_with_raw_value(5), Rcode::Refused);
    assert_eq!(Rcode::new_with_raw_value(11).raw_value(), 11);
    let raw = 0x4830u16;
    assert_eq!(Flags::new_with_raw_value(raw).raw_value(), raw);
}

#[test]
fn encode_query_matches_known_bytes() {
    let mut codec = DnsCodec;
    let mut out: Vec<u8> = Vec::new();
    codec.encode(query_message(), &mut out).unwrap();
    assert_eq!(out, query_bytes());
}

#[test]
fn encode_decode_round_trip_uncompressed() {
    let mut codec = DnsCodec;
    let mut wire: Vec<u8> = Vec::new();
    codec.encode(response_message(), &mut wire).unwrap();
    let decoded = codec.decode(&mut wire).unwrap().unwrap();
    assert_eq!(decoded, response_message());
    assert!(wire.is_empty());
}

#[test]
fn truncation_yields_incomplete_never_malformed() {
    let full = response_bytes();
    for cut in 0..full.len() {
        let short = full[..cut].to_vec();
        assert_eq!(parser::message(&short), Err(DecodeError::Incomplete));
    }
}

#[test]
fn decoder_asks_for_more_bytes_on_short_buffer() {
    let mut codec = DnsCodec;
    let full = query_bytes();
    let mut short = full[..full.len() - 1].to_vec();
    assert_eq!(codec.decode(&mut short), Ok(None));
    assert_eq!(short.len(), full.len() - 1);
}

#[test]
fn decode_advances_past_one_message_only() {
    let mut codec = DnsCodec;
    let mut buffer = query_bytes();
    buffer.extend_from_slice(&[0xab, 0xcd]);
    let first = codec.decode(&mut buffer).unwrap().unwrap();
    assert_eq!(first, query_message());
    assert_eq!(buffer, vec![0xab, 0xcd]);
}

#[test]
fn pointer_resolves_to_same_labels_as_direct_parse() {
    let bytes = response_bytes();
    let (via_pointer, end) = parser::name(&bytes, 28).unwrap();
    let (direct, _) = parser::name(&bytes, 12).unwrap();
    assert_eq!(via_pointer, direct);
    assert_eq!(via_pointer, Name::from("google.com"));
    assert_eq!(end, 30);
}

#[test]
fn chained_pointers_resolve_transitively() {
    // one label, then a pointer to a pointer to a plain name
    let bytes = vec![
        0x03, 0x77, 0x77, 0x77, 0xc0, 0x08, 0x03, 0x00, 0xc0, 0x0a, 0x03, 0x63, 0x6f, 0x6d, 0x00,
    ];
    let (name, end) = parser::name(&bytes, 0).unwrap();
    assert_eq!(name, Name::from("www.com"));
    assert_eq!(end, 6);
}

#[test]
fn self_pointer_is_malformed() {
    let bytes = vec![0xc0, 0x00];
    assert_eq!(parser::name(&bytes, 0), Err(DecodeError::Malformed));
}

#[test]
fn two_step_pointer_cycle_is_malformed() {
    let bytes = vec![0xc0, 0x02, 0xc0, 0x00];
    assert_eq!(parser::name(&bytes, 0), Err(DecodeError::Malformed));
    assert_eq!(parser::name(&bytes, 2), Err(DecodeError::Malformed));
}

#[test]
fn cyclic_pointer_in_message_is_malformed() {
    // a question whose name points at its own pointer
    let mut bytes = query_bytes()[..12].to_vec();
    bytes.extend_from_slice(&[0xc0, 0x0c, 0x00, 0x10, 0x00, 0x01]);
    assert_eq!(parser::message(&bytes), Err(DecodeError::Malformed));
}

#[test]
fn invalid_label_text_is_malformed() {
    let bytes = vec![0x02, 0xff, 0xfe, 0x00];
    assert_eq!(parser::name(&bytes, 0), Err(DecodeError::Malformed));
}

#[test]
fn oversize_label_is_an_encoding_error() {
    let long_label: String = "a".repeat(64);
    let message = Message {
        header: Header {
            id: 1,
            flags: Flags::new_with_raw_value(0),
            qd_count: 1,
            an_count: 0,
            ns_count: 0,
            ar_count: 0,
        },
        question: vec![Question { qname: Name::from(long_label.as_str()), qtype: 1, qclass: 1 }],
        answer: Vec::new(),
        authority: Vec::new(),
        additional: Vec::new(),
    };
    let mut codec = DnsCodec;
    let mut out: Vec<u8> = vec![0x55];
    assert_eq!(codec.encode(message, &mut out), Err(EncodeError::LabelTooLong));
    assert_eq!(out, vec![0x55]);
}

#[test]
fn sixty_three_byte_label_encodes() {
    let label: String = "a".repeat(63);
    let mut codec = DnsCodec;
    let mut out: Vec<u8> = Vec::new();
    let message = Message {
        header: Header {
            id: 1,
            flags: Flags::new_with_raw_value(0),
            qd_count: 1,
            an_count: 0,
            ns_count: 0,
            ar_count: 0,
        },
        question: vec![Question { qname: Name::from(label.as_str()), qtype: 1, qclass: 1 }],
        answer: Vec::new(),
        authority: Vec::new(),
        additional: Vec::new(),
    };
    codec.encode(message, &mut out).unwrap();
    assert_eq!(out[12], 63);
    assert_eq!(out.len(), 12 + 1 + 63 + 1 + 4);
}

#[test]
fn malformed_message_leaves_buffer_untouched() {
    let mut bytes = query_bytes()[..12].to_vec();
    bytes.extend_from_slice(&[0x02, 0xff, 0xfe, 0x00, 0x00, 0x10, 0x00, 0x01]);
    let mut codec = DnsCodec;
    let snapshot = bytes.clone();
    assert_eq!(codec.decode(&mut bytes), Err(DecodeError::Malformed));
    assert_eq!(bytes, snapshot);
}

#[test]
fn name_from_splits_on_dots() {
    assert_eq!(Name::from("google.com"), Name::from("google.com"));
    assert_ne!(Name::from("google.com"), Name::from("google"));
    let mut codec = DnsCodec;
    let mut out: Vec<u8> = Vec::new();
    codec.encode_name(&Name::from("a.bc"), &mut out).unwrap();
    assert_eq!(out, vec![0x01, 0x61, 0x02, 0x62, 0x63, 0x00]);
}

#[test]
fn empty_message_round_trips() {
    let message = Message {
        header: Header {
            id: 0xbeef,
            flags: Flags::new_with_raw_value(0x8403),
            qd_count: 0,
            an_count: 0,
            ns_count: 0,
            ar_count: 0,
        },
        question: Vec::new(),
        answer: Vec::new(),
        authority: Vec::new(),
        additional: Vec::new(),
    };
    let mut codec = DnsCodec;
    let mut wire: Vec<u8> = Vec::new();
    codec.encode(message, &mut wire).unwrap();
    assert_eq!(wire.len(), 12);
    let decoded = codec.decode(&mut wire).unwrap().unwrap();
    assert_eq!(decoded.header.id, 0xbeef);
    assert_eq!(decoded.header.flags, Flags::new_with_raw_value(0x8403));
    assert_eq!(decoded.header.flags.rcode, Rcode::NameError);
    assert!(decoded.question.is_empty() && decoded.answer.is_empty());
}

fn four_section_message() -> Message {
    let record = |label: &str, ttl: u32, data: Vec<u8>| ResourceRecord {
        name: Name::from(label),
        rtype: 2,
        class: 1,
        ttl,
        rdlength: data.len() as u16,
        rdata: data,
    };
    Message {
        header: Header {
            id: 7,
            flags: Flags::new_with_raw_value(0x8400),
            qd_count: 1,
            an_count: 1,
            ns_count: 2,
            ar_count: 1,
        },
        question: vec![Question { qname: Name::from("example.org"), qtype: 2, qclass: 1 }],
        answer: vec![record("example.org", 60, vec![1, 2, 3])],
        authority: vec![
            record("ns1.example.org", 120, vec![]),
            record("ns2.example.org", 120, vec![4]),
        ],
        additional: vec![record("ns1.example.org", 30, vec![9, 9, 9, 9])],
    }
}

#[test]
fn all_sections_round_trip() {
    let mut codec = DnsCodec;
    let mut wire: Vec<u8> = Vec::new();
    codec.encode(four_section_message(), &mut wire).unwrap();
    let decoded = codec.decode(&mut wire).unwrap().unwrap();
    assert_eq!(decoded, four_section_message());
    assert!(wire.is_empty());
}

#[test]
fn ttl_and_rdlength_fields_use_network_byte_order() {
    let bytes = response_bytes();
    let (record, _) = parser::resource_record(&bytes, 28).unwrap();
    assert_eq!(record.ttl, 270);
    assert_eq!(record.rdlength, 16);
    assert_eq!(record.rtype, 16);
    assert_eq!(record.class, 1);
    assert_eq!(record.rdata, b"\x0fv=spf1 ptr ?all".to_vec());
}

#[test]
fn header_parses_at_offset() {
    let bytes = query_bytes();
    let (header, end) = parser::header(&bytes, 0).unwrap();
    assert_eq!(end, 12);
    assert_eq!(header.id, 0x1032);
    assert_eq!(header.qd_count, 1);
    assert_eq!(header.an_count, 0);
    assert_eq!(parser::header(&bytes[..11], 0), Err(DecodeError::Incomplete));
}

#[test]
fn question_parses_after_header() {
    let bytes = query_bytes();
    let (question, end) = parser::question(&bytes, 12).unwrap();
    assert_eq!(question, Question { qname: Name::from("google.com"), qtype: 16, qclass: 1 });
    assert_eq!(end, bytes.len());
}
