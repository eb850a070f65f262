//! Checks of the codec's bounds and its handling of malformed input: bad
//! labels, bad tags, reserved bits, TTL limits, and hostile compression
//! pointers.

use dingo::dns_types::{Class, RecordType};
use dingo::message::header::{Header, Opcode, ResponseCode};
use dingo::message::parser_utils::{read_u16, read_u32, take_bit, take_bits, take_nibble, take_u16};
use dingo::message::question::Entry;
use dingo::message::Message;
use dingo::parse::{parse_label, parse_labels_then_zero, parse_name, MAX_POINTER_DEPTH};
use dingo::DnsError;

/// A response header announcing `an` answers and nothing else, id 1.
fn answer_header(an: u8) -> Vec<u8> {
    vec![0, 1, 129, 128, 0, 0, 0, an, 0, 0, 0, 0]
}

#[test]
fn encoding_rejects_a_64_byte_label_and_accepts_63() {
    let long_label = "a".repeat(64);
    let err = Message::new_query(1, format!("{long_label}.com."), RecordType::A).unwrap_err();
    assert_eq!(err, DnsError::ValueOutOfRange);

    let edge_label = "a".repeat(63);
    let msg = Message::new_query(1, format!("{edge_label}.com."), RecordType::A).unwrap();
    let bytes = msg.serialize_bytes().unwrap();
    assert_eq!(bytes[12], 63);
}

#[test]
fn encoding_rejects_long_and_non_ascii_names() {
    let long_name = format!("{}.", "a.".repeat(140));
    assert_eq!(
        Message::new_query(1, long_name, RecordType::A).unwrap_err(),
        DnsError::ValueOutOfRange
    );
    assert_eq!(
        Message::new_query(1, String::from("m\u{00fc}nchen.de."), RecordType::A).unwrap_err(),
        DnsError::InvalidDomainName
    );
}

#[test]
fn decode_accepts_largest_ttl_and_rejects_the_next() {
    let mut ok = answer_header(1);
    ok.extend_from_slice(&[
        0, // name: the root
        0, 1, 0, 1, // A, IN
        0x7F, 0xFF, 0xFF, 0xFF, // TTL = 2^31 - 1
        0, 4, // rdata length
        1, 2, 3, 4,
    ]);
    let msg = Message::deserialize(ok).unwrap();
    assert_eq!(msg.answer[0].ttl, 0x7FFF_FFFF);

    let mut bad = answer_header(1);
    bad.extend_from_slice(&[
        0, // name: the root
        0, 1, 0, 1, // A, IN
        0x80, 0x00, 0x00, 0x00, // TTL = 2^31
        0, 4, // rdata length
        1, 2, 3, 4,
    ]);
    assert_eq!(
        Message::deserialize(bad).unwrap_err(),
        DnsError::ValueOutOfRange
    );
}

#[test]
fn decode_rejects_nonzero_reserved_bits() {
    // The Z field holds 0b001.
    let bytes = vec![0, 33, 128, 16, 0, 0, 0, 0, 0, 0, 0, 0];
    assert_eq!(
        Message::deserialize(bytes).unwrap_err(),
        DnsError::FormatError
    );
}

#[test]
fn decode_rejects_unknown_tags() {
    let mut type_99 = answer_header(1);
    type_99.extend_from_slice(&[0, 0, 99, 0, 1, 0, 0, 0, 0, 0, 0]);
    assert_eq!(
        Message::deserialize(type_99).unwrap_err(),
        DnsError::UnknownRecordType(99)
    );

    let mut class_2 = answer_header(1);
    class_2.extend_from_slice(&[0, 0, 1, 0, 2, 0, 0, 0, 0, 0, 0]);
    assert_eq!(
        Message::deserialize(class_2).unwrap_err(),
        DnsError::UnknownClass(2)
    );

    // Opcode 3 is unassigned.
    let opcode_3 = vec![0, 1, 24, 0, 0, 0, 0, 0, 0, 0, 0, 0];
    assert_eq!(
        Message::deserialize(opcode_3).unwrap_err(),
        DnsError::UnknownOpcode(3)
    );

    // Response code 6 is outside the supported set.
    let rcode_6 = vec![0, 1, 128, 6, 0, 0, 0, 0, 0, 0, 0, 0];
    assert_eq!(
        Message::deserialize(rcode_6).unwrap_err(),
        DnsError::UnknownResponseCode(6)
    );
}

#[test]
fn decode_rejects_short_buffers() {
    assert_eq!(
        Message::deserialize(Vec::new()).unwrap_err(),
        DnsError::Truncated
    );
    assert_eq!(
        Message::deserialize(vec![0, 1, 128, 0, 0, 0]).unwrap_err(),
        DnsError::Truncated
    );
    // The header promises an answer that is not there.
    assert_eq!(
        Message::deserialize(answer_header(1)).unwrap_err(),
        DnsError::Truncated
    );
}

#[test]
fn forward_pointer_is_rejected() {
    let mut bytes = answer_header(1);
    // The record name points at its own offset.
    bytes.extend_from_slice(&[192, 12, 0, 1, 0, 1, 0, 0, 0, 0, 0, 4, 1, 2, 3, 4]);
    assert_eq!(
        Message::deserialize(bytes).unwrap_err(),
        DnsError::FormatError
    );
}

#[test]
fn pointer_chain_beyond_depth_bound_is_rejected() {
    // A name whose pointers all point strictly backwards, but chain deeper
    // than the chase bound.  The chain hides inside the address bytes of
    // five IPv6 records, which the decoder treats as raw data.
    let mut bytes = answer_header(6);
    let mut last: usize = 0;
    let mut first = true;
    for _ in 0..5 {
        bytes.extend_from_slice(&[
            0, // record name: the root
            0, 28, 0, 1, // AAAA, IN
            0, 0, 0, 0, // TTL
            0, 16, // rdata length
        ]);
        let rstart = bytes.len();
        for slot in 0..8 {
            let here = rstart + 2 * slot;
            if first {
                // The chain's final target: a root label, then filler.
                bytes.extend_from_slice(&[0, 0]);
                first = false;
            } else {
                bytes.extend_from_slice(&[192, last as u8]);
            }
            last = here;
        }
    }
    // The sixth record's name enters the 39-pointer chain at its deepest
    // link, exceeding the bound of 32 chases.
    bytes.extend_from_slice(&[192, last as u8]);
    bytes.extend_from_slice(&[0, 1, 0, 1, 0, 0, 0, 0, 0, 4, 1, 2, 3, 4]);
    assert_eq!(
        Message::deserialize(bytes).unwrap_err(),
        DnsError::FormatError
    );
}

#[test]
fn parse_name_follows_backward_pointers() {
    // "ab." at offset 2, then a name "cd" + pointer to it at offset 6.
    let msg = vec![0, 0, 2, b'a', b'b', 0, 2, b'c', b'd', 192, 2];
    let (labels, end) = parse_name(&msg, 6, MAX_POINTER_DEPTH).unwrap();
    assert_eq!(labels, vec!["cd", "ab", ""]);
    assert_eq!(end, 11);
}

#[test]
fn parse_label_bounds() {
    assert_eq!(parse_label(&vec![2, 65, 66], 0).unwrap(), (String::from("AB"), 3));
    // 64..=191 is the reserved length range.
    assert_eq!(parse_label(&vec![64, 0], 0).unwrap_err(), DnsError::FormatError);
    assert_eq!(parse_label(&vec![191, 0], 0).unwrap_err(), DnsError::FormatError);
    // The label runs past the end of the buffer.
    assert_eq!(parse_label(&vec![5, 65], 0).unwrap_err(), DnsError::FormatError);
    // Reading past the end of the buffer.
    assert_eq!(parse_label(&vec![1, 65], 2).unwrap_err(), DnsError::Truncated);
    // A label must be ASCII.
    assert_eq!(parse_label(&vec![1, 200], 0).unwrap_err(), DnsError::FormatError);
}

#[test]
fn parse_labels_then_zero_reads_until_root() {
    let msg = vec![1, b'a', 2, b'b', b'c', 0, 9, 9];
    let (labels, end) = parse_labels_then_zero(&msg, 0).unwrap();
    assert_eq!(labels, vec!["a", "bc", ""]);
    assert_eq!(end, 6);
}

#[test]
fn bit_and_byte_readers_read_big_endian() {
    let msg = vec![0b1011_0001, 0x34, 0x56, 0x78];
    assert_eq!(take_bit(&msg, 0).unwrap(), (true, 1));
    assert_eq!(take_bit(&msg, 1).unwrap(), (false, 2));
    assert_eq!(take_bits(&msg, 0, 3).unwrap(), (0b101, 3));
    assert_eq!(take_nibble(&msg, 0).unwrap(), (0b1011, 4));
    assert_eq!(take_u16(&msg, 0).unwrap(), (0xB134, 16));
    assert_eq!(take_bits(&msg, 20, 12).unwrap(), (0x678, 32));
    assert_eq!(take_bits(&msg, 30, 3).unwrap_err(), DnsError::Truncated);
    assert_eq!(read_u16(&msg, 2).unwrap(), (0x5678, 4));
    assert_eq!(read_u32(&msg, 0).unwrap(), (0xB134_5678, 4));
    assert_eq!(read_u32(&msg, 1).unwrap_err(), DnsError::Truncated);
}

#[test]
fn decodes_every_known_opcode_and_response_code() {
    let opcodes = [
        (0u8, Opcode::Query),
        (1, Opcode::InverseQuery),
        (2, Opcode::Status),
    ];
    for (num, opcode) in opcodes {
        let bytes = vec![0, 1, num << 3, 0, 0, 0, 0, 0, 0, 0, 0, 0];
        let h = Header::deserialize(&bytes).unwrap();
        assert_eq!(h.opcode, opcode);
    }
    let rcodes = [
        (0u8, ResponseCode::NoError),
        (1, ResponseCode::FormatError),
        (2, ResponseCode::ServerFailure),
        (3, ResponseCode::NameError),
        (4, ResponseCode::NotImplemented),
        (5, ResponseCode::Refused),
    ];
    for (num, code) in rcodes {
        let bytes = vec![0, 1, 0, num, 0, 0, 0, 0, 0, 0, 0, 0];
        let h = Header::deserialize(&bytes).unwrap();
        assert_eq!(h.resp_code, code);
    }
}

#[test]
fn question_entries_decode_name_type_and_class() {
    let msg = vec![
        0, 0, 0, 0, 0, 0, 0, 0, 0, 0, 0, 0, // header space
        2, b'h', b'i', 3, b'c', b'o', b'm', 0, // "hi.com."
        0, 6, // SOA
        0, 1, // IN
    ];
    let (entry, end) = Entry::deserialize(&msg, 12).unwrap();
    assert_eq!(entry.labels, vec!["hi", "com", ""]);
    assert_eq!(entry.record_type, RecordType::Soa);
    assert_eq!(entry.record_qclass, Class::IN);
    assert_eq!(end, 24);
}

#[test]
fn encoding_enforces_the_encoded_name_bound() {
    // Four labels of 63+63+63+61 bytes, dot-terminated: a 254-byte string
    // whose wire form is 255 bytes — the largest name accepted.
    let l63 = "a".repeat(63);
    let l61 = "a".repeat(61);
    let fit = format!("{l63}.{l63}.{l63}.{l61}.");
    assert_eq!(fit.len(), 254);
    let msg = Message::new_query(1, fit, RecordType::A).unwrap();
    let bytes = msg.serialize_bytes().unwrap();
    assert_eq!(bytes.len(), 12 + 255 + 4);

    // One byte more encodes to 256 wire bytes, over the name bound.
    let l62 = "a".repeat(62);
    let over = format!("{l63}.{l63}.{l63}.{l62}.");
    assert_eq!(over.len(), 255);
    assert_eq!(
        Message::new_query(1, over, RecordType::A).unwrap_err(),
        DnsError::ValueOutOfRange
    );

    // Without the final dot the root label still counts: a 253-byte string
    // fits exactly, a 254-byte one does not.
    let edge = format!("{l63}.{l63}.{l63}.{}", "a".repeat(61));
    assert_eq!(edge.len(), 253);
    let msg = Message::new_query(1, edge, RecordType::A).unwrap();
    assert_eq!(msg.serialize_bytes().unwrap().len(), 12 + 255 + 4);
    let undotted_over = format!("{l63}.{l63}.{l63}.{l62}");
    assert_eq!(undotted_over.len(), 254);
    assert_eq!(
        Message::new_query(1, undotted_over, RecordType::A).unwrap_err(),
        DnsError::ValueOutOfRange
    );
}

#[test]
fn undotted_names_get_the_root_label() {
    let msg = Message::new_query(9, String::from("example.com"), RecordType::A).unwrap();
    assert_eq!(msg.question[0].labels, vec!["example", "com", ""]);
    let bytes = msg.serialize_bytes().unwrap();
    // The qname ends with the terminal zero-length byte.
    assert_eq!(bytes[24], 0);
    assert_eq!(bytes.len(), 12 + 13 + 4);
    let parsed = Message::deserialize(bytes).unwrap();
    assert_eq!(parsed.question[0].labels, vec!["example", "com", ""]);
}
