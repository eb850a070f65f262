//! End-to-end checks of the codec: encoding queries, decoding responses,
//! and the round trip between them.

use dingo::bits::BitWriter;
use dingo::dns_types::{Class, RecordType};
use dingo::message::header::{Header, ResponseCode};
use dingo::message::question::Entry;
use dingo::message::record::{Record, RecordData, SoaData};
use dingo::message::Message;
use dingo::util::join_asciis;
use dingo::DnsError;

#[test]
fn test_msg_with_soa_records() {
    let response_msg = vec![
        190, 125, 129, 128, 0, 1, 0, 0, 0, 1, 0, 0, 11, 115, 101, 114, 105, 111, 117, 115, 101,
        97, 116, 115, 3, 99, 111, 109, 0, 0, 5, 0, 1, 192, 12, 0, 6, 0, 1, 0, 0, 1, 44, 0, 53, 4,
        100, 110, 115, 49, 3, 112, 48, 51, 5, 110, 115, 111, 110, 101, 3, 110, 101, 116, 0, 10,
        104, 111, 115, 116, 109, 97, 115, 116, 101, 114, 192, 54, 97, 247, 178, 208, 0, 0, 168,
        192, 0, 0, 2, 88, 0, 9, 58, 128, 0, 0, 1, 44,
    ];

    let msg = Message::deserialize(response_msg).unwrap();
    assert_eq!(msg.header.name_server_count, 1);
    assert_eq!(msg.authority.len(), 1);
}

#[test]
fn test_parse_msg() {
    let response_msg = vec![
        0, 33, 129, 128, 0, 1, 0, 2, 0, 0, 0, 0, // Header (12 bytes)
        4, 98, 108, 111, 103, // blog
        12, 97, 100, 97, 109, 99, 104, 97, 108, 109, 101, 114, 115, // adamchalmers
        3, 99, 111, 109, // com
        0,   // .
        0, 1, 0, 1, // type, class
        192, 12, // Answer #1: name, which is a pointer to byte 12.
        0, 1, 0, 1, // type, class
        0, 0, 0, 179, // TTL (u32)
        0, 4, // rdata length
        104, 19, 237, 120, // rdata, an IPv4
        192, 12, // Answer #2: name, which is a pointer to byte 12.
        0, 1, 0, 1, // type, class
        0, 0, 0, 179, // TTL (u32)
        0, 4, // rdata length
        104, 19, 238, 120, // IPv4
    ];

    let actual_msg = Message::deserialize(response_msg).unwrap();

    let name = String::from("blog.adamchalmers.com.");
    let expected_answers = vec![
        Record {
            name: name.clone(),
            class: Class::IN,
            ttl: 179,
            data: RecordData::A(vec![104, 19, 237, 120]),
        },
        Record {
            name,
            class: Class::IN,
            ttl: 179,
            data: RecordData::A(vec![104, 19, 238, 120]),
        },
    ];
    let actual_answers = actual_msg.answer;
    assert_eq!(actual_answers, expected_answers)
}

#[test]
fn test_serialize_header_for_query() {
    let test_id = 33;
    let h = Header::new_query(test_id);
    let mut bv = BitWriter::new();
    h.serialize(&mut bv);
    let buf = bv.finish();
    assert_eq!(buf.len(), 12);
}

#[test]
fn test_deserialize() {
    // This is a real response from a DNS resolver (1.1.1.1)
    let i = vec![
        0, 33, 128, 130, 0, 1, 0, 0, 0, 0, 0, 0, 4, 98, 108, 111, 103, 12, 97, 100, 97, 109, 99,
        104, 97, 108, 109, 101, 114, 115, 3, 99, 111, 109, 0, 0, 1, 0, 1,
    ];

    let h = Header::deserialize(&i).unwrap();
    assert_eq!(h.id, 33);
    assert_eq!(h.resp_code, ResponseCode::ServerFailure);
}

#[test]
fn test_serialize_entry() {
    let entry = Entry::new(
        vec![
            String::from("adamchalmers"),
            String::from("com"),
            String::from(""),
        ],
        RecordType::A,
    );
    let mut bv = BitWriter::new();
    entry.serialize(&mut bv).unwrap();
    let buf = bv.finish();
    let expected_bytes = "adamchalmers".len() + 1 + // First label
        "com".len() + 1 // Second label
        + 1 // Last empty label
        + 2 // QCLASS is 16 bits
        + 2; // QTYPE is 16 bits
    assert_eq!(expected_bytes, buf.len());
}

#[test]
fn query_round_trips_through_decode() {
    let msg = Message::new_query(514, String::from("example.com."), RecordType::Aaaa).unwrap();
    let bytes = msg.serialize_bytes().unwrap();
    assert_eq!(bytes.len(), 12 + 13 + 4);
    let parsed = Message::deserialize(bytes).unwrap();
    assert_eq!(parsed.header, msg.header);
    assert_eq!(parsed.header.id, 514);
    assert!(parsed.header.recursion_desired);
    assert_eq!(parsed.header.question_count, 1);
    assert_eq!(parsed.question.len(), 1);
    assert_eq!(parsed.question[0].labels, vec!["example", "com", ""]);
    assert_eq!(parsed.question[0].record_type, RecordType::Aaaa);
    assert_eq!(parsed.question[0].record_qclass, Class::IN);
    assert!(parsed.answer.is_empty());
    assert!(parsed.authority.is_empty());
    assert!(parsed.additional.is_empty());
}

#[test]
fn query_wire_bytes_are_exact() {
    let msg = Message::new_query(0x0102, String::from("ab."), RecordType::A).unwrap();
    let bytes = msg.serialize_bytes().unwrap();
    let expected = vec![
        1, 2, // id
        1, 0, // QR=0, opcode=0, AA=0, TC=0, RD=1, RA=0, Z=0, RCODE=0
        0, 1, 0, 0, 0, 0, 0, 0, // counts
        2, b'a', b'b', 0, // qname
        0, 1, // qtype A
        0, 1, // qclass IN
    ];
    assert_eq!(bytes, expected);
}

#[test]
fn soa_record_fields_match_wire() {
    let response_msg = vec![
        190, 125, 129, 128, 0, 1, 0, 0, 0, 1, 0, 0, 11, 115, 101, 114, 105, 111, 117, 115, 101,
        97, 116, 115, 3, 99, 111, 109, 0, 0, 5, 0, 1, 192, 12, 0, 6, 0, 1, 0, 0, 1, 44, 0, 53, 4,
        100, 110, 115, 49, 3, 112, 48, 51, 5, 110, 115, 111, 110, 101, 3, 110, 101, 116, 0, 10,
        104, 111, 115, 116, 109, 97, 115, 116, 101, 114, 192, 54, 97, 247, 178, 208, 0, 0, 168,
        192, 0, 0, 2, 88, 0, 9, 58, 128, 0, 0, 1, 44,
    ];
    let msg = Message::deserialize(response_msg).unwrap();
    assert_eq!(msg.authority.len(), 1);
    let expected = Record {
        name: String::from("seriouseats.com."),
        class: Class::IN,
        ttl: 300,
        data: RecordData::Soa(SoaData {
            mname: String::from("dns1.p03.nsone.net."),
            rname: String::from("hostmaster.nsone.net."),
            serial: 1643623120,
            refresh: 43200,
            retry: 600,
            expire: 604800,
        }),
    };
    assert_eq!(msg.authority[0], expected);
}

#[test]
fn decodes_aaaa_cname_and_ns_records() {
    let response_msg = vec![
        0, 7, 129, 128, 0, 1, 0, 3, 0, 0, 0, 0, // header: one question, three answers
        2, b'h', b'i', 0, // question name "hi."
        0, 28, 0, 1, // AAAA, IN
        192, 12, // answer 1 name -> "hi."
        0, 28, 0, 1, // AAAA, IN
        0, 0, 0, 60, // TTL
        0, 16, // rdata length
        0x20, 0x01, 0x0d, 0xb8, 0, 0, 0, 0, 0, 0, 0, 0, 0, 0, 0, 0x44, // an IPv6
        192, 12, // answer 2 name -> "hi."
        0, 5, 0, 1, // CNAME, IN
        0, 0, 0, 60, // TTL
        0, 2, // rdata length
        192, 12, // the alias target, compressed -> "hi."
        192, 12, // answer 3 name -> "hi."
        0, 2, 0, 1, // NS, IN
        0, 0, 0, 60, // TTL
        0, 6, // rdata length
        3, b'n', b's', b'1', 192, 12, // "ns1.hi."
    ];
    let msg = Message::deserialize(response_msg).unwrap();
    assert_eq!(msg.answer.len(), 3);
    assert_eq!(
        msg.answer[0].data,
        RecordData::Aaaa(vec![
            0x20, 0x01, 0x0d, 0xb8, 0, 0, 0, 0, 0, 0, 0, 0, 0, 0, 0, 0x44
        ])
    );
    assert_eq!(msg.answer[1].data, RecordData::Cname(String::from("hi.")));
    assert_eq!(msg.answer[2].data, RecordData::Ns(String::from("ns1.hi.")));
}

#[test]
fn response_checks_report_server_and_id_errors() {
    // rcode = 2 (server failure), id = 33.
    let response_msg = vec![0, 33, 128, 2, 0, 0, 0, 0, 0, 0, 0, 0];
    let msg = Message::deserialize(response_msg).unwrap();
    assert_eq!(msg.validate_id(33), None);
    assert_eq!(msg.validate_id(34), Some(DnsError::QueryIdMismatch));
    assert_eq!(
        msg.server_error(),
        Some(DnsError::ServerSignaledError(ResponseCode::ServerFailure))
    );
    let ok_msg = Message::deserialize(vec![0, 33, 128, 0, 0, 0, 0, 0, 0, 0, 0, 0]).unwrap();
    assert_eq!(ok_msg.server_error(), None);
}

#[test]
fn join_asciis_joins_with_dots() {
    let labels = vec![
        String::from("blog"),
        String::from("adamchalmers"),
        String::from("com"),
        String::from(""),
    ];
    assert_eq!(join_asciis(&labels), "blog.adamchalmers.com.");
    assert_eq!(join_asciis(&vec![]), "");
}

#[test]
fn record_data_must_fill_its_declared_length() {
    // The A payload is 4 bytes but the record declares 6: under-consumption
    // is as malformed as over-consumption.
    let response_msg = vec![
        0, 1, 129, 128, 0, 0, 0, 1, 0, 0, 0, 0, // header: one answer
        0, // answer name: the root
        0, 1, 0, 1, // A, IN
        0, 0, 0, 9, // TTL
        0, 6, // rdata length: two spare bytes
        9, 9, 9, 9, 7, 7, // the address, then stray bytes
    ];
    assert_eq!(
        Message::deserialize(response_msg).unwrap_err(),
        DnsError::FormatError
    );
}

#[test]
fn record_data_longer_than_declared_length_is_malformed() {
    let response_msg = vec![
        0, 1, 129, 128, 0, 0, 0, 1, 0, 0, 0, 0, // header: one answer
        0, // answer name: the root
        0, 1, 0, 1, // A, IN
        0, 0, 0, 9, // TTL
        0, 3, // rdata length: too short for an IPv4 address
        9, 9, 9, 9,
    ];
    assert_eq!(
        Message::deserialize(response_msg).unwrap_err(),
        DnsError::FormatError
    );
}
