//! The fixed 12-byte message header: id, packed flag bits, and the four
//! section counts.

use vstd::prelude::*;

use crate::bits::{
    lemma_bits_num_of_num_bits, lemma_pow2n_values, num_bits, pow2n, spec_bit, spec_bits_num,
    BitWriter,
};
use crate::message::parser_utils::{take_bit, take_bits, take_nibble, take_u16};
use crate::DnsError;

verus! {

/// The kind of query a message carries; set by the originator of a query and
/// copied into the response.
#[derive(Debug, Clone, Copy, PartialEq, Eq, Structural)]
pub enum Opcode {
    /// A standard query.
    Query,
    /// An inverse query.
    InverseQuery,
    /// A server status request.
    Status,
}

impl Opcode {
    /// The numeric value of the 4-bit opcode field.
    pub open spec fn spec_code(self) -> u8 {
        match self {
            Opcode::Query => 0,
            Opcode::InverseQuery => 1,
            Opcode::Status => 2,
        }
    }

    /// The opcode a 4-bit field value denotes, if any.
    pub open spec fn spec_of_code(v: u8) -> Option<Opcode> {
        if v == 0 {
            Some(Opcode::Query)
        } else if v == 1 {
            Some(Opcode::InverseQuery)
        } else if v == 2 {
            Some(Opcode::Status)
        } else {
            None
        }
    }

    /// Looks an opcode up by its numeric field value.
    pub fn of_code(v: u8) -> (r: Option<Opcode>)
        ensures
            r == Opcode::spec_of_code(v),
    {
        if v == 0 {
            Some(Opcode::Query)
        } else if v == 1 {
            Some(Opcode::InverseQuery)
        } else if v == 2 {
            Some(Opcode::Status)
        } else {
            None
        }
    }

    /// Appends the 4-bit opcode field.
    pub fn serialize(&self, bv: &mut BitWriter)
        requires
            old(bv).wf(),
            old(bv).bits().len() + 16 < usize::MAX - 8,
        ensures
            final(bv).wf(),
            final(bv).bits() == old(bv).bits() + num_bits(self.spec_code() as u16, 4),
    {
        proof {
            lemma_pow2n_values();
        }
        let code: u8 = match self {
            Opcode::Query => 0,
            Opcode::InverseQuery => 1,
            Opcode::Status => 2,
        };
        bv.write_bits(code as u16, 4);
    }
}

/// The resolver's 4-bit verdict on the query.
#[derive(Debug, Clone, Copy, PartialEq, Eq, Structural)]
pub enum ResponseCode {
    /// No error condition.
    NoError,
    /// The name server was unable to interpret the query.
    FormatError,
    /// The name server was unable to process the query because of a problem
    /// on its own side.
    ServerFailure,
    /// The queried domain name does not exist.
    NameError,
    /// The name server does not support the requested kind of query.
    NotImplemented,
    /// The name server refuses to perform the operation for policy reasons.
    Refused,
}

impl ResponseCode {
    /// The numeric value of the 4-bit response-code field.
    pub open spec fn spec_code(self) -> u8 {
        match self {
            ResponseCode::NoError => 0,
            ResponseCode::FormatError => 1,
            ResponseCode::ServerFailure => 2,
            ResponseCode::NameError => 3,
            ResponseCode::NotImplemented => 4,
            ResponseCode::Refused => 5,
        }
    }

    /// The response code a 4-bit field value denotes, if any.
    pub open spec fn spec_of_code(v: u8) -> Option<ResponseCode> {
        if v == 0 {
            Some(ResponseCode::NoError)
        } else if v == 1 {
            Some(ResponseCode::FormatError)
        } else if v == 2 {
            Some(ResponseCode::ServerFailure)
        } else if v == 3 {
            Some(ResponseCode::NameError)
        } else if v == 4 {
            Some(ResponseCode::NotImplemented)
        } else if v == 5 {
            Some(ResponseCode::Refused)
        } else {
            None
        }
    }

    /// Looks a response code up by its numeric field value.
    pub fn of_code(v: u8) -> (r: Option<ResponseCode>)
        ensures
            r == ResponseCode::spec_of_code(v),
    {
        if v == 0 {
            Some(ResponseCode::NoError)
        } else if v == 1 {
            Some(ResponseCode::FormatError)
        } else if v == 2 {
            Some(ResponseCode::ServerFailure)
        } else if v == 3 {
            Some(ResponseCode::NameError)
        } else if v == 4 {
            Some(ResponseCode::NotImplemented)
        } else if v == 5 {
            Some(ResponseCode::Refused)
        } else {
            None
        }
    }

    /// Appends the 4-bit response-code field.
    pub fn serialize(&self, bv: &mut BitWriter)
        requires
            old(bv).wf(),
            old(bv).bits().len() + 16 < usize::MAX - 8,
        ensures
            final(bv).wf(),
            final(bv).bits() == old(bv).bits() + num_bits(self.spec_code() as u16, 4),
    {
        proof {
            lemma_pow2n_values();
        }
        let code: u8 = match self {
            ResponseCode::NoError => 0,
            ResponseCode::FormatError => 1,
            ResponseCode::ServerFailure => 2,
            ResponseCode::NameError => 3,
            ResponseCode::NotImplemented => 4,
            ResponseCode::Refused => 5,
        };
        bv.write_bits(code as u16, 4);
    }
}

/// The header that starts every DNS message, query and response alike.
#[derive(Debug, Clone, Copy, PartialEq, Eq, Structural)]
pub struct Header {
    /// A 16-bit identifier assigned by the program that generates a query;
    /// the reply copies it, so the requester can match replies to
    /// outstanding queries.
    pub id: u16,
    /// The QR bit: whether this message is a query (0) or a response (1).
    pub is_query: bool,
    /// The kind of query in this message.
    pub opcode: Opcode,
    /// Whether the responding name server is an authority for the queried
    /// name.
    pub authoritative_answer: bool,
    /// Whether the message was truncated in transmission.
    pub truncation: bool,
    /// Whether the requester directs the name server to pursue the query
    /// recursively.
    pub recursion_desired: bool,
    /// Whether the name server offers recursive query support.
    pub recursion_available: bool,
    /// The resolver's verdict on the query.
    pub resp_code: ResponseCode,
    /// Number of entries in the question section.
    pub question_count: u16,
    /// Number of resource records in the answer section.
    pub answer_count: u16,
    /// Number of name server resource records in the authority section.
    pub name_server_count: u16,
    /// Number of resource records in the additional section.
    pub additional_records_count: u16,
}

/// The header of a fresh query with one question: standard query, recursion
/// desired, everything else clear.
pub open spec fn spec_query_header(id: u16) -> Header {
    Header {
        id,
        is_query: false,
        opcode: Opcode::Query,
        authoritative_answer: false,
        truncation: false,
        recursion_desired: true,
        recursion_available: false,
        resp_code: ResponseCode::NoError,
        question_count: 1,
        answer_count: 0,
        name_server_count: 0,
        additional_records_count: 0,
    }
}

/// The 96 bits of a header on the wire, in field order: id, QR, opcode, AA,
/// TC, RD, RA, the three reserved Z bits (always zero), the response code,
/// and the four section counts.
pub open spec fn spec_header_bits(h: Header) -> Seq<bool> {
    num_bits(h.id, 16) + seq![h.is_query] + num_bits(h.opcode.spec_code() as u16, 4)
        + seq![h.authoritative_answer] + seq![h.truncation] + seq![h.recursion_desired]
        + seq![h.recursion_available] + num_bits(0u16, 3) + num_bits(
        h.resp_code.spec_code() as u16,
        4,
    ) + num_bits(h.question_count, 16) + num_bits(h.answer_count, 16) + num_bits(
        h.name_server_count,
        16,
    ) + num_bits(h.additional_records_count, 16)
}

/// What decoding the header of `msg` yields: the field values read out of
/// the first 96 bits, or the first error in field order.  The three
/// reserved Z bits must be zero.
pub open spec fn spec_parse_header(msg: Seq<u8>) -> Result<Header, DnsError> {
    if msg.len() < 12 {
        Err(DnsError::Truncated)
    } else {
        let opc = spec_bits_num(msg, 17, 4) as u8;
        let z = spec_bits_num(msg, 25, 3);
        let rc = spec_bits_num(msg, 28, 4) as u8;
        if Opcode::spec_of_code(opc) is None {
            Err(DnsError::UnknownOpcode(opc))
        } else if z != 0 {
            Err(DnsError::FormatError)
        } else if ResponseCode::spec_of_code(rc) is None {
            Err(DnsError::UnknownResponseCode(rc))
        } else {
            Ok(
                Header {
                    id: spec_bits_num(msg, 0, 16) as u16,
                    is_query: spec_bit(msg, 16),
                    opcode: Opcode::spec_of_code(opc).unwrap(),
                    authoritative_answer: spec_bit(msg, 21),
                    truncation: spec_bit(msg, 22),
                    recursion_desired: spec_bit(msg, 23),
                    recursion_available: spec_bit(msg, 24),
                    resp_code: ResponseCode::spec_of_code(rc).unwrap(),
                    question_count: spec_bits_num(msg, 32, 16) as u16,
                    answer_count: spec_bits_num(msg, 48, 16) as u16,
                    name_server_count: spec_bits_num(msg, 64, 16) as u16,
                    additional_records_count: spec_bits_num(msg, 80, 16) as u16,
                },
            )
        }
    }
}

impl Header {
    /// Generates the header for a query with one question.
    pub fn new_query(id: u16) -> (r: Self)
        ensures
            r == spec_query_header(id),
    {
        Self {
            id,
            is_query: false,
            opcode: Opcode::Query,
            authoritative_answer: false,
            truncation: false,
            recursion_desired: true,
            recursion_available: false,
            resp_code: ResponseCode::NoError,
            question_count: 1,
            answer_count: 0,
            name_server_count: 0,
            additional_records_count: 0,
        }
    }

    /// Serializes the header, appending exactly 96 bits in wire field order.
    #[verifier::rlimit(100)]
    pub fn serialize(&self, bv: &mut BitWriter)
        requires
            old(bv).wf(),
            old(bv).bits().len() + 200 < usize::MAX - 8,
        ensures
            final(bv).wf(),
            final(bv).bits() == old(bv).bits() + spec_header_bits(*self),
            final(bv).bits().len() == old(bv).bits().len() + 96,
    {
        proof {
            lemma_pow2n_values();
        }
        let ghost base = old(bv).bits();
        bv.write_bits(self.id, 16);
        bv.push_bit(self.is_query);
        self.opcode.serialize(bv);
        bv.push_bit(self.authoritative_answer);
        bv.push_bit(self.truncation);
        bv.push_bit(self.recursion_desired);
        bv.push_bit(self.recursion_available);
        // The Z field, reserved for future use; always zero.
        bv.write_bits(0, 3);
        self.resp_code.serialize(bv);
        bv.write_bits(self.question_count, 16);
        bv.write_bits(self.answer_count, 16);
        bv.write_bits(self.name_server_count, 16);
        bv.write_bits(self.additional_records_count, 16);
        proof {
            assert(seq![self.is_query] =~= Seq::<bool>::empty().push(self.is_query));
            assert(bv.bits() =~= base + spec_header_bits(*self));
        }
    }

    /// Decodes the header out of the first 12 bytes of a message buffer,
    /// reading the packed fields bit by bit in wire field order.
    pub fn deserialize(msg: &Vec<u8>) -> (r: Result<Header, DnsError>)
        requires
            8 * msg@.len() + 16 <= usize::MAX,
        ensures
            r == spec_parse_header(msg@),
    {
        if msg.len() < 12 {
            return Err(DnsError::Truncated);
        }
        let (id, pos) = match take_u16(msg, 0) {
            Ok(v) => v,
            Err(e) => {
                return Err(e);
            },
        };
        let (qr, pos) = match take_bit(msg, pos) {
            Ok(v) => v,
            Err(e) => {
                return Err(e);
            },
        };
        let (opc, pos) = match take_nibble(msg, pos) {
            Ok(v) => v,
            Err(e) => {
                return Err(e);
            },
        };
        let opcode = match Opcode::of_code(opc) {
            Some(o) => o,
            None => {
                return Err(DnsError::UnknownOpcode(opc));
            },
        };
        let (aa, pos) = match take_bit(msg, pos) {
            Ok(v) => v,
            Err(e) => {
                return Err(e);
            },
        };
        let (tc, pos) = match take_bit(msg, pos) {
            Ok(v) => v,
            Err(e) => {
                return Err(e);
            },
        };
        let (rd, pos) = match take_bit(msg, pos) {
            Ok(v) => v,
            Err(e) => {
                return Err(e);
            },
        };
        let (ra, pos) = match take_bit(msg, pos) {
            Ok(v) => v,
            Err(e) => {
                return Err(e);
            },
        };
        // The Z field is reserved and must be zero in all messages.
        let (z, pos) = match take_bits(msg, pos, 3) {
            Ok(v) => v,
            Err(e) => {
                return Err(e);
            },
        };
        if z != 0 {
            return Err(DnsError::FormatError);
        }
        let (rc, pos) = match take_nibble(msg, pos) {
            Ok(v) => v,
            Err(e) => {
                return Err(e);
            },
        };
        let resp_code = match ResponseCode::of_code(rc) {
            Some(c) => c,
            None => {
                return Err(DnsError::UnknownResponseCode(rc));
            },
        };
        let (qdcount, pos) = match take_u16(msg, pos) {
            Ok(v) => v,
            Err(e) => {
                return Err(e);
            },
        };
        let (ancount, pos) = match take_u16(msg, pos) {
            Ok(v) => v,
            Err(e) => {
                return Err(e);
            },
        };
        let (nscount, pos) = match take_u16(msg, pos) {
            Ok(v) => v,
            Err(e) => {
                return Err(e);
            },
        };
        let (arcount, _pos) = match take_u16(msg, pos) {
            Ok(v) => v,
            Err(e) => {
                return Err(e);
            },
        };
        Ok(
            Header {
                id,
                is_query: qr,
                opcode,
                authoritative_answer: aa,
                truncation: tc,
                recursion_desired: rd,
                recursion_available: ra,
                resp_code,
                question_count: qdcount,
                answer_count: ancount,
                name_server_count: nscount,
                additional_records_count: arcount,
            },
        )
    }
}

/// Decoding 12 bytes whose bits hold `spec_header_bits(h)` yields `h` again.
pub proof fn lemma_header_round_trip(msg: Seq<u8>, h: Header)
    requires
        msg.len() >= 12,
        forall|i: int| 0 <= i < 96 ==> spec_bit(msg, i) == spec_header_bits(h)[i],
    ensures
        spec_parse_header(msg) == Ok::<Header, DnsError>(h),
{
    lemma_pow2n_values();
    let hb = spec_header_bits(h);
    assert forall|i: int| 0 <= i < 16 implies #[trigger] spec_bit(msg, 0 + i) == num_bits(h.id, 16)[i] by {
        assert(hb[i] == num_bits(h.id, 16)[i]);
    }
    lemma_bits_num_of_num_bits(msg, 0, h.id, 16);
    assert(spec_bit(msg, 16) == h.is_query);
    assert forall|i: int| 0 <= i < 4 implies #[trigger] spec_bit(msg, 17 + i) == num_bits(
        h.opcode.spec_code() as u16,
        4,
    )[i] by {
        assert(hb[17 + i] == num_bits(h.opcode.spec_code() as u16, 4)[i]);
    }
    lemma_bits_num_of_num_bits(msg, 17, h.opcode.spec_code() as u16, 4);
    assert(spec_bit(msg, 21) == h.authoritative_answer);
    assert(spec_bit(msg, 22) == h.truncation);
    assert(spec_bit(msg, 23) == h.recursion_desired);
    assert(spec_bit(msg, 24) == h.recursion_available);
    assert forall|i: int| 0 <= i < 3 implies #[trigger] spec_bit(msg, 25 + i) == num_bits(0u16, 3)[i] by {
        assert(hb[25 + i] == num_bits(0u16, 3)[i]);
    }
    lemma_bits_num_of_num_bits(msg, 25, 0u16, 3);
    assert forall|i: int| 0 <= i < 4 implies #[trigger] spec_bit(msg, 28 + i) == num_bits(
        h.resp_code.spec_code() as u16,
        4,
    )[i] by {
        assert(hb[28 + i] == num_bits(h.resp_code.spec_code() as u16, 4)[i]);
    }
    lemma_bits_num_of_num_bits(msg, 28, h.resp_code.spec_code() as u16, 4);
    assert forall|i: int| 0 <= i < 16 implies #[trigger] spec_bit(msg, 32 + i) == num_bits(
        h.question_count,
        16,
    )[i] by {
        assert(hb[32 + i] == num_bits(h.question_count, 16)[i]);
    }
    lemma_bits_num_of_num_bits(msg, 32, h.question_count, 16);
    assert forall|i: int| 0 <= i < 16 implies #[trigger] spec_bit(msg, 48 + i) == num_bits(
        h.answer_count,
        16,
    )[i] by {
        assert(hb[48 + i] == num_bits(h.answer_count, 16)[i]);
    }
    lemma_bits_num_of_num_bits(msg, 48, h.answer_count, 16);
    assert forall|i: int| 0 <= i < 16 implies #[trigger] spec_bit(msg, 64 + i) == num_bits(
        h.name_server_count,
        16,
    )[i] by {
        assert(hb[64 + i] == num_bits(h.name_server_count, 16)[i]);
    }
    lemma_bits_num_of_num_bits(msg, 64, h.name_server_count, 16);
    assert forall|i: int| 0 <= i < 16 implies #[trigger] spec_bit(msg, 80 + i) == num_bits(
        h.additional_records_count,
        16,
    )[i] by {
        assert(hb[80 + i] == num_bits(h.additional_records_count, 16)[i]);
    }
    lemma_bits_num_of_num_bits(msg, 80, h.additional_records_count, 16);
}

} // verus!
