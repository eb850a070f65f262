//! Common DNS types that several parts of the codec share: the record-type
//! tag and the class tag, each with its 16-bit wire value.

use vstd::prelude::*;

use crate::bits::{lemma_pow2n_values, num_bits, BitWriter};

verus! {

/// The closed set of record types this codec supports; any other numeric
/// type tag is a decode failure.
#[derive(Debug, Clone, Copy, PartialEq, Eq, Structural)]
pub enum RecordType {
    /// An IPv4 host address.
    A,
    /// An IPv6 host address.
    Aaaa,
    /// The canonical name for an alias.
    Cname,
    /// The start of a zone of authority.
    Soa,
    /// An authoritative name server.
    Ns,
}

impl RecordType {
    /// The numeric value of the 16-bit type tag.
    pub open spec fn spec_code(self) -> u16 {
        match self {
            RecordType::A => 1,
            RecordType::Aaaa => 28,
            RecordType::Cname => 5,
            RecordType::Soa => 6,
            RecordType::Ns => 2,
        }
    }

    /// The record type a 16-bit tag denotes, if any.
    pub open spec fn spec_of_code(v: u16) -> Option<RecordType> {
        if v == 1 {
            Some(RecordType::A)
        } else if v == 28 {
            Some(RecordType::Aaaa)
        } else if v == 5 {
            Some(RecordType::Cname)
        } else if v == 6 {
            Some(RecordType::Soa)
        } else if v == 2 {
            Some(RecordType::Ns)
        } else {
            None
        }
    }

    /// The numeric value of the 16-bit type tag.
    pub fn code(&self) -> (r: u16)
        ensures
            r == self.spec_code(),
    {
        match self {
            RecordType::A => 1,
            RecordType::Aaaa => 28,
            RecordType::Cname => 5,
            RecordType::Soa => 6,
            RecordType::Ns => 2,
        }
    }

    /// Looks a record type up by its numeric tag.
    pub fn of_code(v: u16) -> (r: Option<RecordType>)
        ensures
            r == RecordType::spec_of_code(v),
    {
        if v == 1 {
            Some(RecordType::A)
        } else if v == 28 {
            Some(RecordType::Aaaa)
        } else if v == 5 {
            Some(RecordType::Cname)
        } else if v == 6 {
            Some(RecordType::Soa)
        } else if v == 2 {
            Some(RecordType::Ns)
        } else {
            None
        }
    }

    /// Appends the 16-bit type tag, most significant bit first.
    pub fn serialize(&self, bv: &mut BitWriter)
        requires
            old(bv).wf(),
            old(bv).bits().len() + 16 < usize::MAX - 8,
        ensures
            final(bv).wf(),
            final(bv).bits() == old(bv).bits() + num_bits(self.spec_code(), 16),
    {
        proof {
            lemma_pow2n_values();
        }
        bv.write_bits(self.code(), 16);
    }
}

/// The class of a question or record; only the Internet class is supported.
#[derive(Debug, Clone, Copy, PartialEq, Eq, Structural)]
pub enum Class {
    /// The Internet class.
    IN,
}

impl Class {
    /// The numeric value of the 16-bit class tag.
    pub open spec fn spec_code(self) -> u16 {
        match self {
            Class::IN => 1,
        }
    }

    /// The class a 16-bit tag denotes, if any.
    pub open spec fn spec_of_code(v: u16) -> Option<Class> {
        if v == 1 {
            Some(Class::IN)
        } else {
            None
        }
    }

    /// The numeric value of the 16-bit class tag.
    pub fn code(&self) -> (r: u16)
        ensures
            r == self.spec_code(),
    {
        match self {
            Class::IN => 1,
        }
    }

    /// Looks a class up by its numeric tag.
    pub fn of_code(v: u16) -> (r: Option<Class>)
        ensures
            r == Class::spec_of_code(v),
    {
        if v == 1 {
            Some(Class::IN)
        } else {
            None
        }
    }

    /// Appends the 16-bit class tag, most significant bit first.
    pub fn serialize(&self, bv: &mut BitWriter)
        requires
            old(bv).wf(),
            old(bv).bits().len() + 16 < usize::MAX - 8,
        ensures
            final(bv).wf(),
            final(bv).bits() == old(bv).bits() + num_bits(self.spec_code(), 16),
    {
        proof {
            lemma_pow2n_values();
        }
        bv.write_bits(self.code(), 16);
    }
}

} // verus!
