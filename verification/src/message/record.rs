//! Resource records: name, class, TTL, and the type-keyed record data.

use vstd::prelude::*;

use crate::dns_types::{Class, RecordType};
use crate::message::parser_utils::{read_bytes, read_u16, read_u32, spec_u16_at, spec_u32_at};
use crate::parse::{parse_name, spec_parse_name, MAX_POINTER_DEPTH};
use crate::util::{join_asciis, spec_join_labels};
use crate::DnsError;

verus! {

/// The largest TTL the wire format allows: positive values of a signed
/// 32-bit number.
pub const MAX_TTL: u32 = 0x7FFF_FFFF;

/// A record as the contracts see it.
pub struct SpecRecord {
    /// The record's name in display form.
    pub name: Seq<char>,
    /// The record's class.
    pub class: Class,
    /// The record's time to live, at most `MAX_TTL`.
    pub ttl: u32,
    /// The record's payload.
    pub data: SpecRecordData,
}

/// Record data as the contracts see it.
pub enum SpecRecordData {
    /// An IPv4 address: four bytes.
    A(Seq<u8>),
    /// An IPv6 address: sixteen bytes.
    Aaaa(Seq<u8>),
    /// The canonical name of an alias, in display form.
    Cname(Seq<char>),
    /// An authoritative name server, in display form.
    Ns(Seq<char>),
    /// The start-of-authority data.
    Soa(SpecSoaData),
    /// An X25 address; never produced by this decoder.
    X25,
    /// A geographical position; never produced by this decoder.
    Gpos,
}

/// Start-of-authority data as the contracts see it.
pub struct SpecSoaData {
    /// The primary name server of the zone, in display form.
    pub mname: Seq<char>,
    /// The responsible mailbox, in display form.
    pub rname: Seq<char>,
    /// The zone's version number.
    pub serial: u32,
    /// The refresh interval.
    pub refresh: u32,
    /// The retry interval.
    pub retry: u32,
    /// The expiry limit.
    pub expire: u32,
}

/// One resource record of the answer, authority or additional section.
#[derive(Debug)]
pub struct Record {
    /// The name the record concerns, in display form.
    pub name: String,
    /// The record's class.
    pub class: Class,
    /// The record's time to live in seconds, at most `MAX_TTL`.
    pub ttl: u32,
    /// The record's payload.
    pub data: RecordData,
}

/// The payload of a record, keyed by its record type.
#[derive(Debug)]
pub enum RecordData {
    /// An IPv4 address: four bytes.
    A(Vec<u8>),
    /// An IPv6 address: sixteen bytes.
    Aaaa(Vec<u8>),
    /// The canonical name of an alias.
    Cname(String),
    /// An authoritative name server.
    Ns(String),
    /// Start-of-authority data.
    Soa(SoaData),
    /// An X25 address; never produced by this decoder.
    X25(X25Data),
    /// A geographical position; never produced by this decoder.
    Gpos(GposData),
}

/// The start-of-authority payload.
#[derive(Debug)]
pub struct SoaData {
    /// The name server that is the primary source of data for the zone.
    pub mname: String,
    /// The mailbox of the person responsible for the zone.
    pub rname: String,
    /// The version number of the original copy of the zone.
    pub serial: u32,
    /// The interval before the zone should be refreshed.
    pub refresh: u32,
    /// The interval before a failed refresh should be retried.
    pub retry: u32,
    /// The upper limit before the zone is no longer authoritative.
    pub expire: u32,
}

/// An X25 address payload; no record of this type is ever decoded.
#[derive(Debug, Clone, Copy, PartialEq, Eq, Structural)]
pub struct X25Data;

/// A geographical position payload; no record of this type is ever decoded.
#[derive(Debug, Clone, Copy, PartialEq, Eq, Structural)]
pub struct GposData;

impl View for SoaData {
    type V = SpecSoaData;

    open spec fn view(&self) -> SpecSoaData {
        SpecSoaData {
            mname: self.mname@,
            rname: self.rname@,
            serial: self.serial,
            refresh: self.refresh,
            retry: self.retry,
            expire: self.expire,
        }
    }
}

impl View for RecordData {
    type V = SpecRecordData;

    open spec fn view(&self) -> SpecRecordData {
        match self {
            RecordData::A(v) => SpecRecordData::A(v@),
            RecordData::Aaaa(v) => SpecRecordData::Aaaa(v@),
            RecordData::Cname(s) => SpecRecordData::Cname(s@),
            RecordData::Ns(s) => SpecRecordData::Ns(s@),
            RecordData::Soa(d) => SpecRecordData::Soa(d@),
            RecordData::X25(_) => SpecRecordData::X25,
            RecordData::Gpos(_) => SpecRecordData::Gpos,
        }
    }
}

impl View for Record {
    type V = SpecRecord;

    open spec fn view(&self) -> SpecRecord {
        SpecRecord { name: self.name@, class: self.class, ttl: self.ttl, data: self.data@ }
    }
}

impl PartialEq for SoaData {
    fn eq(&self, other: &Self) -> (r: bool) {
        self.mname == other.mname && self.rname == other.rname && self.serial == other.serial
            && self.refresh == other.refresh && self.retry == other.retry && self.expire
            == other.expire
    }
}

impl Eq for SoaData {

}

impl vstd::std_specs::cmp::PartialEqSpecImpl for SoaData {
    open spec fn obeys_eq_spec() -> bool {
        true
    }

    open spec fn eq_spec(&self, other: &Self) -> bool {
        self@ == other@
    }
}

/// Compares two byte strings.
fn bytes_eq(a: &Vec<u8>, b: &Vec<u8>) -> (r: bool)
    ensures
        r == (a@ == b@),
{
    if a.len() != b.len() {
        return false;
    }
    let mut i: usize = 0;
    while i < a.len()
        invariant
            i <= a@.len(),
            a@.len() == b@.len(),
            forall|j: int| 0 <= j < i ==> a@[j] == b@[j],
        decreases a@.len() - i,
    {
        if a[i] != b[i] {
            return false;
        }
        i = i + 1;
    }
    proof {
        assert(a@ =~= b@);
    }
    true
}

impl PartialEq for RecordData {
    fn eq(&self, other: &Self) -> (r: bool) {
        match (self, other) {
            (RecordData::A(a), RecordData::A(b)) => bytes_eq(a, b),
            (RecordData::Aaaa(a), RecordData::Aaaa(b)) => bytes_eq(a, b),
            (RecordData::Cname(a), RecordData::Cname(b)) => *a == *b,
            (RecordData::Ns(a), RecordData::Ns(b)) => *a == *b,
            (RecordData::Soa(a), RecordData::Soa(b)) => *a == *b,
            (RecordData::X25(_), RecordData::X25(_)) => true,
            (RecordData::Gpos(_), RecordData::Gpos(_)) => true,
            _ => false,
        }
    }
}

impl Eq for RecordData {

}

impl vstd::std_specs::cmp::PartialEqSpecImpl for RecordData {
    open spec fn obeys_eq_spec() -> bool {
        true
    }

    open spec fn eq_spec(&self, other: &Self) -> bool {
        self@ == other@
    }
}

impl PartialEq for Record {
    fn eq(&self, other: &Self) -> (r: bool) {
        self.name == other.name && self.class == other.class && self.ttl == other.ttl && self.data
            == other.data
    }
}

impl Eq for Record {

}

impl vstd::std_specs::cmp::PartialEqSpecImpl for Record {
    open spec fn obeys_eq_spec() -> bool {
        true
    }

    open spec fn eq_spec(&self, other: &Self) -> bool {
        self@ == other@
    }
}

/// What decoding record data of type `rt` at byte position `pos` yields.
/// Names inside record data decode against the whole message, since they
/// may be compressed.  Start-of-authority data ends with a fifth 32-bit
/// field on the wire, the minimum TTL; it is read past but not kept, as
/// the data model holds only the four intervals.
pub open spec fn spec_parse_rdata(msg: Seq<u8>, rt: RecordType, pos: int) -> Result<
    (SpecRecordData, int),
    DnsError,
> {
    match rt {
        RecordType::A => {
            if pos + 4 > msg.len() {
                Err(DnsError::Truncated)
            } else {
                Ok((SpecRecordData::A(msg.subrange(pos, pos + 4)), pos + 4))
            }
        },
        RecordType::Aaaa => {
            if pos + 16 > msg.len() {
                Err(DnsError::Truncated)
            } else {
                Ok((SpecRecordData::Aaaa(msg.subrange(pos, pos + 16)), pos + 16))
            }
        },
        RecordType::Cname => {
            match spec_parse_name(msg, pos, MAX_POINTER_DEPTH as nat) {
                Ok((labels, end)) => Ok((SpecRecordData::Cname(spec_join_labels(labels)), end)),
                Err(e) => Err(e),
            }
        },
        RecordType::Ns => {
            match spec_parse_name(msg, pos, MAX_POINTER_DEPTH as nat) {
                Ok((labels, end)) => Ok((SpecRecordData::Ns(spec_join_labels(labels)), end)),
                Err(e) => Err(e),
            }
        },
        RecordType::Soa => {
            match spec_parse_name(msg, pos, MAX_POINTER_DEPTH as nat) {
                Ok((mlabels, p1)) => {
                    match spec_parse_name(msg, p1, MAX_POINTER_DEPTH as nat) {
                        Ok((rlabels, p2)) => {
                            if p2 + 20 > msg.len() {
                                Err(DnsError::Truncated)
                            } else {
                                Ok(
                                    (
                                        SpecRecordData::Soa(
                                            SpecSoaData {
                                                mname: spec_join_labels(mlabels),
                                                rname: spec_join_labels(rlabels),
                                                serial: spec_u32_at(msg, p2),
                                                refresh: spec_u32_at(msg, p2 + 4),
                                                retry: spec_u32_at(msg, p2 + 8),
                                                expire: spec_u32_at(msg, p2 + 12),
                                            },
                                        ),
                                        p2 + 20,
                                    ),
                                )
                            }
                        },
                        Err(e) => Err(e),
                    }
                },
                Err(e) => Err(e),
            }
        },
    }
}

/// What decoding one resource record at byte position `pos` yields: name,
/// type tag, class tag, TTL, record-data length, then the record data,
/// which must occupy exactly its declared length; data that falls short of
/// it or runs past it is malformed.  A TTL above `MAX_TTL` is out of
/// range.
pub open spec fn spec_parse_record(msg: Seq<u8>, pos: int) -> Result<(SpecRecord, int), DnsError> {
    match spec_parse_name(msg, pos, MAX_POINTER_DEPTH as nat) {
        Ok((labels, p)) => {
            if p + 2 > msg.len() {
                Err(DnsError::Truncated)
            } else {
                let t = spec_u16_at(msg, p);
                match RecordType::spec_of_code(t) {
                    None => Err(DnsError::UnknownRecordType(t)),
                    Some(rt) => {
                        if p + 4 > msg.len() {
                            Err(DnsError::Truncated)
                        } else {
                            let c = spec_u16_at(msg, p + 2);
                            match Class::spec_of_code(c) {
                                None => Err(DnsError::UnknownClass(c)),
                                Some(class) => {
                                    if p + 8 > msg.len() {
                                        Err(DnsError::Truncated)
                                    } else {
                                        let ttl = spec_u32_at(msg, p + 4);
                                        if ttl > MAX_TTL {
                                            Err(DnsError::ValueOutOfRange)
                                        } else if p + 10 > msg.len() {
                                            Err(DnsError::Truncated)
                                        } else {
                                            let rdlen = spec_u16_at(msg, p + 8);
                                            if p + 10 + rdlen > msg.len() {
                                                Err(DnsError::Truncated)
                                            } else {
                                                match spec_parse_rdata(msg, rt, p + 10) {
                                                    Ok((data, rend)) => {
                                                        if rend - (p + 10) != rdlen {
                                                            Err(DnsError::FormatError)
                                                        } else {
                                                            Ok(
                                                                (
                                                                    SpecRecord {
                                                                        name: spec_join_labels(
                                                                            labels,
                                                                        ),
                                                                        class,
                                                                        ttl,
                                                                        data,
                                                                    },
                                                                    p + 10 + rdlen,
                                                                ),
                                                            )
                                                        }
                                                    },
                                                    Err(e) => Err(e),
                                                }
                                            }
                                        }
                                    }
                                },
                            }
                        }
                    },
                }
            }
        },
        Err(e) => Err(e),
    }
}

/// Decodes record data of type `rt` at byte position `pos` of the message.
pub fn parse_rdata(msg: &Vec<u8>, rt: RecordType, pos: usize) -> (r: Result<
    (RecordData, usize),
    DnsError,
>)
    ensures
        match r {
            Ok((data, end)) => spec_parse_rdata(msg@, rt, pos as int) == Ok::<_, DnsError>(
                (data@, end as int),
            ) && pos <= end <= msg@.len(),
            Err(e) => spec_parse_rdata(msg@, rt, pos as int) == Err::<(SpecRecordData, int), _>(e),
        },
{
    match rt {
        RecordType::A => {
            let (bytes, end) = match read_bytes(msg, pos, 4) {
                Ok(v) => v,
                Err(e) => {
                    return Err(e);
                },
            };
            Ok((RecordData::A(bytes), end))
        },
        RecordType::Aaaa => {
            let (bytes, end) = match read_bytes(msg, pos, 16) {
                Ok(v) => v,
                Err(e) => {
                    return Err(e);
                },
            };
            Ok((RecordData::Aaaa(bytes), end))
        },
        RecordType::Cname => {
            let (labels, end) = match parse_name(msg, pos, MAX_POINTER_DEPTH) {
                Ok(v) => v,
                Err(e) => {
                    return Err(e);
                },
            };
            Ok((RecordData::Cname(join_asciis(&labels)), end))
        },
        RecordType::Ns => {
            let (labels, end) = match parse_name(msg, pos, MAX_POINTER_DEPTH) {
                Ok(v) => v,
                Err(e) => {
                    return Err(e);
                },
            };
            Ok((RecordData::Ns(join_asciis(&labels)), end))
        },
        RecordType::Soa => {
            let (mlabels, p1) = match parse_name(msg, pos, MAX_POINTER_DEPTH) {
                Ok(v) => v,
                Err(e) => {
                    return Err(e);
                },
            };
            let (rlabels, p2) = match parse_name(msg, p1, MAX_POINTER_DEPTH) {
                Ok(v) => v,
                Err(e) => {
                    return Err(e);
                },
            };
            let (serial, p3) = match read_u32(msg, p2) {
                Ok(v) => v,
                Err(e) => {
                    return Err(e);
                },
            };
            let (refresh, p4) = match read_u32(msg, p3) {
                Ok(v) => v,
                Err(e) => {
                    return Err(e);
                },
            };
            let (retry, p5) = match read_u32(msg, p4) {
                Ok(v) => v,
                Err(e) => {
                    return Err(e);
                },
            };
            let (expire, p6) = match read_u32(msg, p5) {
                Ok(v) => v,
                Err(e) => {
                    return Err(e);
                },
            };
            // The wire carries one more 32-bit field, the minimum TTL; it
            // is not part of the data model, so it is read past and dropped.
            let (_minimum, p7) = match read_u32(msg, p6) {
                Ok(v) => v,
                Err(e) => {
                    return Err(e);
                },
            };
            let soa = SoaData {
                mname: join_asciis(&mlabels),
                rname: join_asciis(&rlabels),
                serial,
                refresh,
                retry,
                expire,
            };
            Ok((RecordData::Soa(soa), p7))
        },
    }
}

/// Decodes one resource record at byte position `pos` of the message.
pub fn parse_record(msg: &Vec<u8>, pos: usize) -> (r: Result<(Record, usize), DnsError>)
    ensures
        match r {
            Ok((record, end)) => spec_parse_record(msg@, pos as int) == Ok::<_, DnsError>(
                (record@, end as int),
            ) && pos <= end <= msg@.len(),
            Err(e) => spec_parse_record(msg@, pos as int) == Err::<(SpecRecord, int), _>(e),
        },
{
    let (labels, p) = match parse_name(msg, pos, MAX_POINTER_DEPTH) {
        Ok(v) => v,
        Err(e) => {
            return Err(e);
        },
    };
    let (t, p) = match read_u16(msg, p) {
        Ok(v) => v,
        Err(e) => {
            return Err(e);
        },
    };
    let rt = match RecordType::of_code(t) {
        Some(v) => v,
        None => {
            return Err(DnsError::UnknownRecordType(t));
        },
    };
    let (c, p) = match read_u16(msg, p) {
        Ok(v) => v,
        Err(e) => {
            return Err(e);
        },
    };
    let class = match Class::of_code(c) {
        Some(v) => v,
        None => {
            return Err(DnsError::UnknownClass(c));
        },
    };
    let (ttl, p) = match read_u32(msg, p) {
        Ok(v) => v,
        Err(e) => {
            return Err(e);
        },
    };
    if ttl > MAX_TTL {
        return Err(DnsError::ValueOutOfRange);
    }
    let (rdlen, p) = match read_u16(msg, p) {
        Ok(v) => v,
        Err(e) => {
            return Err(e);
        },
    };
    if (rdlen as usize) > msg.len() - p {
        return Err(DnsError::Truncated);
    }
    let (data, rend) = match parse_rdata(msg, rt, p) {
        Ok(v) => v,
        Err(e) => {
            return Err(e);
        },
    };
    if rend - p != rdlen as usize {
        return Err(DnsError::FormatError);
    }
    Ok((Record { name: join_asciis(&labels), class, ttl, data }, rend))
}

} // verus!
