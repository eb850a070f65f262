//! One question-section entry: a name as labels, a query type, and a query
//! class.

use vstd::prelude::*;
use vstd::string::StrSliceExecFns;
use vstd::string::StringExecFnsIsAscii;
use vstd::utf8::is_ascii_chars;

use crate::bits::{all_bits, lemma_all_bits_concat, BitWriter};
use crate::dns_types::{Class, RecordType};
use crate::message::parser_utils::{read_u16, spec_u16_at};
use crate::parse::{parse_name, spec_parse_label, spec_parse_name, MAX_POINTER_DEPTH};
use crate::DnsError;

verus! {

/// A question entry as the contracts see it: its labels as character
/// sequences, and its two tags.
pub struct SpecQuestion {
    /// The labels of the queried name, ending with the empty root label.
    pub labels: Seq<Seq<char>>,
    /// The queried record type.
    pub record_type: RecordType,
    /// The queried class.
    pub record_qclass: Class,
}

/// One entry of the question section.
#[derive(Debug)]
pub struct Entry {
    /// The labels of the queried name, ending with the empty root label.
    pub labels: Vec<String>,
    /// The queried record type.
    pub record_type: RecordType,
    /// The queried class.
    pub record_qclass: Class,
}

impl View for Entry {
    type V = SpecQuestion;

    open spec fn view(&self) -> SpecQuestion {
        SpecQuestion {
            labels: self.labels.deep_view(),
            record_type: self.record_type,
            record_qclass: self.record_qclass,
        }
    }
}

/// The wire form of one label: a length byte, then the label's ASCII bytes.
pub open spec fn spec_label_wire(label: Seq<char>) -> Seq<u8> {
    seq![label.len() as u8] + label.map_values(|c: char| c as u8)
}

/// The wire form of a label sequence; a trailing empty label encodes as the
/// zero-length terminal byte.
pub open spec fn spec_qname_wire(labels: Seq<Seq<char>>) -> Seq<u8>
    decreases labels.len(),
{
    if labels.len() == 0 {
        Seq::empty()
    } else {
        spec_label_wire(labels[0]) + spec_qname_wire(labels.drop_first())
    }
}

/// Why one label cannot be encoded, if it cannot: 64 bytes or longer is out
/// of range, and only ASCII is accepted.
pub open spec fn spec_label_err(label: Seq<char>) -> Option<DnsError> {
    if label.len() >= 64 {
        Some(DnsError::ValueOutOfRange)
    } else if !is_ascii_chars(label) {
        Some(DnsError::InvalidDomainName)
    } else {
        None
    }
}

/// The first label error in a label sequence, if any.
pub open spec fn spec_qname_check(labels: Seq<Seq<char>>) -> Option<DnsError>
    decreases labels.len(),
{
    if labels.len() == 0 {
        None
    } else if spec_label_err(labels[0]) is Some {
        spec_label_err(labels[0])
    } else {
        spec_qname_check(labels.drop_first())
    }
}

/// The wire form of a whole question entry.
pub open spec fn spec_question_wire(q: SpecQuestion) -> Seq<u8> {
    spec_qname_wire(q.labels) + crate::bits::spec_u16_bytes(q.record_type.spec_code())
        + crate::bits::spec_u16_bytes(q.record_qclass.spec_code())
}

/// Appending one more label appends its wire form.
pub proof fn lemma_qname_wire_push(ls: Seq<Seq<char>>, x: Seq<char>)
    ensures
        spec_qname_wire(ls.push(x)) == spec_qname_wire(ls) + spec_label_wire(x),
    decreases ls.len(),
{
    reveal_with_fuel(spec_qname_wire, 3);
    let p = ls.push(x);
    assert(p.len() == ls.len() + 1);
    if ls.len() == 0 {
        assert(p[0] == x);
        assert(p.drop_first() =~= Seq::<Seq<char>>::empty());
        assert(spec_qname_wire(p) == spec_label_wire(x) + Seq::<u8>::empty());
        assert(spec_label_wire(x) + Seq::<u8>::empty() =~= Seq::<u8>::empty()
            + spec_label_wire(x));
    } else {
        lemma_qname_wire_push(ls.drop_first(), x);
        assert(p.drop_first() =~= ls.drop_first().push(x));
        assert(p[0] == ls[0]);
        assert(spec_qname_wire(p) == spec_label_wire(ls[0]) + (spec_qname_wire(ls.drop_first())
            + spec_label_wire(x)));
        assert(spec_label_wire(ls[0]) + (spec_qname_wire(ls.drop_first()) + spec_label_wire(x))
            =~= (spec_label_wire(ls[0]) + spec_qname_wire(ls.drop_first())) + spec_label_wire(x));
    }
}

/// The wire form of a label sequence splits at any index.
pub proof fn lemma_qname_wire_decompose(ls: Seq<Seq<char>>, i: int)
    requires
        0 <= i <= ls.len(),
    ensures
        spec_qname_wire(ls) =~= spec_qname_wire(ls.take(i)) + spec_qname_wire(ls.skip(i)),
    decreases i,
{
    if i == 0 {
        assert(ls.take(0) =~= Seq::<Seq<char>>::empty());
        assert(ls.skip(0) =~= ls);
    } else {
        lemma_qname_wire_decompose(ls, i - 1);
        assert(ls.take(i) =~= ls.take(i - 1).push(ls[i - 1]));
        lemma_qname_wire_push(ls.take(i - 1), ls[i - 1]);
        assert(ls.skip(i - 1)[0] =~= ls[i - 1]);
        assert(ls.skip(i - 1).drop_first() =~= ls.skip(i));
        assert(spec_qname_wire(ls.skip(i - 1)) =~= spec_label_wire(ls[i - 1]) + spec_qname_wire(
            ls.skip(i),
        ));
    }
}

/// Labels of at most 63 bytes each have a wire form of at most 64 bytes
/// each, so a name's wire form is bounded by its label count.
pub proof fn lemma_qname_wire_len_bound(ls: Seq<Seq<char>>)
    requires
        forall|i: int| 0 <= i < ls.len() ==> #[trigger] ls[i].len() <= 63,
    ensures
        spec_qname_wire(ls).len() <= 64 * ls.len(),
    decreases ls.len(),
{
    if ls.len() > 0 {
        assert(forall|i: int|
            0 <= i < ls.drop_first().len() ==> ls.drop_first()[i] == #[trigger] ls[i + 1]);
        lemma_qname_wire_len_bound(ls.drop_first());
        assert(spec_label_wire(ls[0]).len() == 1 + ls[0].len());
    }
}

/// A label sequence whose labels all pass their checks passes the whole
/// check, and the first failing label decides the error.
pub proof fn lemma_qname_check_at(ls: Seq<Seq<char>>, i: int)
    requires
        0 <= i <= ls.len(),
        forall|j: int| 0 <= j < i ==> spec_label_err(#[trigger] ls[j]) is None,
    ensures
        i < ls.len() && spec_label_err(ls[i]) is Some ==> spec_qname_check(ls) == spec_label_err(
            ls[i],
        ),
        i == ls.len() ==> spec_qname_check(ls) is None,
    decreases i, ls.len(),
{
    if ls.len() == 0 {
    } else if i == 0 {
        if spec_label_err(ls[0]) is None {
        }
    } else {
        assert(spec_label_err(ls[0]) is None);
        assert(forall|j: int|
            0 <= j < i - 1 ==> spec_label_err(#[trigger] ls.drop_first()[j]) is None) by {
            assert(forall|j: int|
                0 <= j < i - 1 ==> ls.drop_first()[j] == #[trigger] ls[j + 1]);
        }
        lemma_qname_check_at(ls.drop_first(), i - 1);
        if i < ls.len() {
            assert(ls.drop_first()[i - 1] == ls[i]);
        }
    }
}

/// Labels that encode and decode losslessly: at least the root label, the
/// root label last and empty, every other label 1 to 63 bytes, all ASCII.
pub open spec fn spec_wf_query_labels(labels: Seq<Seq<char>>) -> bool {
    &&& labels.len() >= 1
    &&& labels.last().len() == 0
    &&& forall|i: int| 0 <= i < labels.len() - 1 ==> 1 <= #[trigger] labels[i].len() <= 63
    &&& forall|i: int| 0 <= i < labels.len() ==> is_ascii_chars(#[trigger] labels[i])
}

/// Decoding the wire form of well-formed labels yields those labels again,
/// whatever else the message holds and whatever the pointer budget.
pub proof fn lemma_qname_wire_parses(msg: Seq<u8>, pos: int, labels: Seq<Seq<char>>, depth: nat)
    requires
        spec_wf_query_labels(labels),
        0 <= pos,
        pos + spec_qname_wire(labels).len() <= msg.len(),
        msg.subrange(pos, pos + spec_qname_wire(labels).len()) == spec_qname_wire(labels),
    ensures
        spec_parse_name(msg, pos, depth) == Ok::<(Seq<Seq<char>>, int), DnsError>(
            (labels, pos + spec_qname_wire(labels).len()),
        ),
    decreases labels.len(),
{
    broadcast use vstd::utf8::is_ascii_chars_nat_bound;

    let wire = spec_qname_wire(labels);
    let l0 = labels[0];
    let lw = spec_label_wire(l0);
    assert(wire == lw + spec_qname_wire(labels.drop_first()));
    assert(lw.len() == 1 + l0.len());
    assert(wire[0] == l0.len() as u8);
    assert(msg[pos] == wire[0]);
    if labels.len() == 1 {
        assert(l0.len() == 0);
        assert(msg[pos] == 0);
        assert(spec_qname_wire(labels.drop_first()) == Seq::<u8>::empty());
        assert(wire.len() == 1);
        assert(spec_parse_name(msg, pos, depth) == Ok::<(Seq<Seq<char>>, int), DnsError>(
            (seq![Seq::<char>::empty()], pos + 1),
        ));
        assert(l0 =~= Seq::<char>::empty());
        assert(seq![Seq::<char>::empty()] =~= labels);
    } else {
        assert(1 <= l0.len() <= 63);
        let b = msg[pos];
        assert(b == l0.len());
        assert(1 <= b < 64);
        // The label is read literally.
        let bytes = msg.subrange(pos + 1, pos + 1 + b);
        assert forall|j: int| 0 <= j < b implies #[trigger] bytes[j] == lw[1 + j] by {
            assert(bytes[j] == msg[pos + 1 + j]);
            assert(msg[pos + 1 + j] == wire[1 + j]);
        }
        assert(is_ascii_chars(l0));
        assert forall|j: int| 0 <= j < bytes.len() implies #[trigger] bytes[j] < 128 by {
            assert(lw[1 + j] == l0.map_values(|c: char| c as u8)[j]);
            assert(l0[j] as nat <= 127);
        }
        assert(!(exists|j: int| 0 <= j < bytes.len() && bytes[j] >= 128));
        let decoded = bytes.map_values(|bb: u8| bb as char);
        assert(decoded =~= l0) by {
            assert forall|j: int| 0 <= j < b implies decoded[j] == #[trigger] l0[j] by {
                assert(bytes[j] == l0.map_values(|c: char| c as u8)[j]);
                assert(l0[j] as nat <= 127);
            }
        }
        assert(spec_parse_label(msg, pos) == Ok::<(Seq<char>, int), DnsError>((l0, pos + 1 + b)));
        // The rest of the labels follow at the end of this one.
        let rest = labels.drop_first();
        let rw = spec_qname_wire(rest);
        assert(spec_wf_query_labels(rest)) by {
            assert(rest.last() == labels.last());
            assert(forall|i: int|
                0 <= i < rest.len() ==> #[trigger] rest[i] == labels[i + 1]);
        }
        assert(msg.subrange(pos + 1 + b, pos + 1 + b + rw.len()) =~= rw) by {
            assert forall|j: int| 0 <= j < rw.len() implies #[trigger] msg.subrange(
                pos + 1 + b,
                pos + 1 + b + rw.len(),
            )[j] == rw[j] by {
                assert(msg.subrange(pos + 1 + b, pos + 1 + b + rw.len())[j] == msg[pos + 1 + b
                    + j]);
                assert(msg[pos + 1 + b + j] == wire[1 + b + j]);
                assert(wire[lw.len() + j] == rw[j]);
            }
        }
        lemma_qname_wire_parses(msg, pos + 1 + b, rest, depth);
        assert(seq![l0] + rest =~= labels);
        assert(pos + 1 + b + rw.len() == pos + wire.len());
    }
}

/// When the whole check passes, every label passes its own check.
pub proof fn lemma_label_ok_of_check(ls: Seq<Seq<char>>, j: int)
    requires
        spec_qname_check(ls) is None,
        0 <= j < ls.len(),
    ensures
        spec_label_err(ls[j]) is None,
    decreases j,
{
    if j == 0 {
    } else {
        assert(ls.drop_first()[j - 1] == ls[j]);
        lemma_label_ok_of_check(ls.drop_first(), j - 1);
    }
}

/// What decoding one question entry at byte position `pos` yields: the name
/// via the name codec, then the type tag and the class tag, each looked up
/// in its closed set.
pub open spec fn spec_parse_question(msg: Seq<u8>, pos: int) -> Result<
    (SpecQuestion, int),
    DnsError,
> {
    match spec_parse_name(msg, pos, MAX_POINTER_DEPTH as nat) {
        Ok((labels, p)) => {
            if p + 2 > msg.len() {
                Err(DnsError::Truncated)
            } else {
                let t = spec_u16_at(msg, p);
                match RecordType::spec_of_code(t) {
                    None => Err(DnsError::UnknownRecordType(t)),
                    Some(record_type) => {
                        if p + 4 > msg.len() {
                            Err(DnsError::Truncated)
                        } else {
                            let c = spec_u16_at(msg, p + 2);
                            match Class::spec_of_code(c) {
                                None => Err(DnsError::UnknownClass(c)),
                                Some(record_qclass) => Ok(
                                    (SpecQuestion { labels, record_type, record_qclass }, p + 4),
                                ),
                            }
                        }
                    },
                }
            }
        },
        Err(e) => Err(e),
    }
}

impl Entry {
    /// Builds a question entry for the Internet class.
    pub fn new(labels: Vec<String>, record_type: RecordType) -> (r: Self)
        ensures
            r@.labels == labels.deep_view(),
            r@.record_type == record_type,
            r@.record_qclass == Class::IN,
    {
        Self { labels, record_type, record_qclass: Class::IN }
    }

    /// The first label error in this question's name, if any: a label of 64
    /// bytes or more is out of range, and a label that is not ASCII is an
    /// invalid domain name.
    pub fn qname_error(&self) -> (r: Option<DnsError>)
        ensures
            r == spec_qname_check(self@.labels),
    {
        let ghost dv = self@.labels;
        let mut i: usize = 0;
        while i < self.labels.len()
            invariant
                i <= self.labels@.len(),
                dv == self@.labels,
                dv.len() == self.labels@.len(),
                forall|j: int| 0 <= j < dv.len() ==> dv[j] == #[trigger] self.labels@[j]@,
                forall|j: int| 0 <= j < i ==> spec_label_err(#[trigger] dv[j]) is None,
            decreases self.labels@.len() - i,
        {
            let label = &self.labels[i];
            if label.as_str().unicode_len() >= 64 {
                proof {
                    lemma_qname_check_at(dv, i as int);
                }
                return Some(DnsError::ValueOutOfRange);
            }
            if !label.is_ascii() {
                proof {
                    lemma_qname_check_at(dv, i as int);
                }
                return Some(DnsError::InvalidDomainName);
            }
            i = i + 1;
        }
        proof {
            lemma_qname_check_at(dv, dv.len() as int);
        }
        None
    }

    /// Serializes the question's name as length-prefixed labels.  The first
    /// bad label decides the error, and nothing is written on failure.
    pub fn serialize_qname(&self, bv: &mut BitWriter) -> (r: Result<(), DnsError>)
        requires
            old(bv).wf(),
            old(bv).bits().len() + 8 * spec_qname_wire(self@.labels).len() + 16 < usize::MAX - 8,
        ensures
            final(bv).wf(),
            match r {
                Ok(()) => {
                    &&& spec_qname_check(self@.labels) is None
                    &&& final(bv).bits() == old(bv).bits() + all_bits(
                        spec_qname_wire(self@.labels),
                    )
                },
                Err(e) => {
                    &&& spec_qname_check(self@.labels) == Some(e)
                    &&& final(bv).bits() == old(bv).bits()
                },
            },
    {
        let ghost dv = self@.labels;
        match self.qname_error() {
            Some(e) => {
                return Err(e);
            },
            None => {},
        }
        proof {
            assert(spec_qname_check(dv) is None);
        }
        assert forall|j: int| 0 <= j < dv.len() implies spec_label_err(#[trigger] dv[j]) is None by {
            lemma_label_ok_of_check(dv, j);
        }
        let ghost base = bv.bits();
        let mut i: usize = 0;
        while i < self.labels.len()
            invariant
                i <= self.labels@.len(),
                dv == self@.labels,
                dv.len() == self.labels@.len(),
                forall|j: int| 0 <= j < dv.len() ==> dv[j] == #[trigger] self.labels@[j]@,
                forall|j: int| 0 <= j < dv.len() ==> spec_label_err(#[trigger] dv[j]) is None,
                bv.wf(),
                bv.bits() == base + all_bits(spec_qname_wire(dv.take(i as int))),
                base.len() + 8 * spec_qname_wire(dv).len() + 16 < usize::MAX - 8,
            decreases self.labels@.len() - i,
        {
            proof {
                lemma_qname_wire_decompose(dv, i as int);
                lemma_qname_wire_decompose(dv, i + 1);
                assert(dv.take(i + 1) =~= dv.take(i as int).push(dv[i as int]));
                lemma_qname_wire_push(dv.take(i as int), dv[i as int]);
            }
            let label = &self.labels[i];
            let len = label.as_str().unicode_len();
            let ghost label_bytes = dv[i as int].map_values(|c: char| c as u8);
            let ghost partial = spec_qname_wire(dv.take(i as int));
            bv.write_byte(len as u8);
            proof {
                lemma_all_bits_concat(partial, seq![len as u8]);
                assert(partial + seq![len as u8] =~= spec_qname_wire(dv.take(i as int)) + seq![
                    dv[i as int].len() as u8,
                ]);
                assert(bv.bits() =~= base + all_bits(partial + seq![len as u8]));
            }
            let mut j: usize = 0;
            while j < len
                invariant
                    j <= len,
                    len == dv[i as int].len(),
                    0 <= i < dv.len(),
                    dv == self@.labels,
                    dv.len() == self.labels@.len(),
                    forall|k: int| 0 <= k < dv.len() ==> dv[k] == #[trigger] self.labels@[k]@,
                    is_ascii_chars(dv[i as int]),
                    label_bytes == dv[i as int].map_values(|c: char| c as u8),
                    partial == spec_qname_wire(dv.take(i as int)),
                    spec_qname_wire(dv) =~= partial + spec_label_wire(dv[i as int])
                        + spec_qname_wire(dv.skip(i + 1)),
                    bv.wf(),
                    bv.bits() == base + all_bits(
                        partial + seq![dv[i as int].len() as u8] + label_bytes.take(j as int),
                    ),
                    base.len() + 8 * spec_qname_wire(dv).len() + 16 < usize::MAX - 8,
                decreases len - j,
            {
                let label = &self.labels[i];
                let b = label.as_str().get_ascii(j);
                let ghost sofar = partial + seq![dv[i as int].len() as u8] + label_bytes.take(
                    j as int,
                );
                bv.write_byte(b);
                proof {
                    lemma_all_bits_concat(sofar, seq![b]);
                    assert(sofar + seq![b] =~= partial + seq![dv[i as int].len() as u8]
                        + label_bytes.take(j + 1));
                    assert(bv.bits() =~= base + all_bits(
                        partial + seq![dv[i as int].len() as u8] + label_bytes.take(j + 1),
                    ));
                    assert(spec_label_wire(dv[i as int]).len() == 1 + dv[i as int].len());
                    assert((partial + spec_label_wire(dv[i as int])).len() <= spec_qname_wire(
                        dv,
                    ).len());
                }
                j = j + 1;
            }
            proof {
                assert(label_bytes.take(len as int) =~= label_bytes);
                assert(partial + seq![dv[i as int].len() as u8] + label_bytes =~= partial
                    + spec_label_wire(dv[i as int]));
                assert(bv.bits() =~= base + all_bits(spec_qname_wire(dv.take(i + 1))));
            }
            i = i + 1;
        }
        proof {
            assert(dv.take(dv.len() as int) =~= dv);
        }
        Ok(())
    }

    /// Serializes the whole question entry: name, type tag, class tag.
    pub fn serialize(&self, bv: &mut BitWriter) -> (r: Result<(), DnsError>)
        requires
            old(bv).wf(),
            old(bv).bits().len() + 8 * spec_question_wire(self@).len() + 64 < usize::MAX - 8,
        ensures
            final(bv).wf(),
            match r {
                Ok(()) => {
                    &&& spec_qname_check(self@.labels) is None
                    &&& final(bv).bits() == old(bv).bits() + all_bits(spec_question_wire(self@))
                },
                Err(e) => {
                    &&& spec_qname_check(self@.labels) == Some(e)
                    &&& final(bv).bits() == old(bv).bits()
                },
            },
    {
        let ghost base = bv.bits();
        let ghost qw = spec_question_wire(self@);
        match self.serialize_qname(bv) {
            Ok(()) => {},
            Err(e) => {
                return Err(e);
            },
        }
        let ghost nw = spec_qname_wire(self@.labels);
        let ghost tw = crate::bits::spec_u16_bytes(self@.record_type.spec_code());
        let ghost cw = crate::bits::spec_u16_bytes(self@.record_qclass.spec_code());
        bv.write_u16_be(self.record_type.code());
        bv.write_u16_be(self.record_qclass.code());
        proof {
            lemma_all_bits_concat(nw, tw);
            lemma_all_bits_concat(nw + tw, cw);
            assert(qw =~= (nw + tw) + cw);
            assert(bv.bits() =~= base + all_bits(qw));
        }
        Ok(())
    }

    /// Decodes one question entry at byte position `pos` of the message.
    pub fn deserialize(msg: &Vec<u8>, pos: usize) -> (r: Result<(Entry, usize), DnsError>)
        ensures
            match r {
                Ok((entry, end)) => spec_parse_question(msg@, pos as int) == Ok::<_, DnsError>(
                    (entry@, end as int),
                ) && pos < end <= msg@.len(),
                Err(e) => spec_parse_question(msg@, pos as int) == Err::<(SpecQuestion, int), _>(
                    e,
                ),
            },
    {
        let (labels, p) = match parse_name(msg, pos, MAX_POINTER_DEPTH) {
            Ok(v) => v,
            Err(e) => {
                return Err(e);
            },
        };
        let (t, p) = match read_u16(msg, p) {
            Ok(v) => v,
            Err(e) => {
                return Err(e);
            },
        };
        let record_type = match RecordType::of_code(t) {
            Some(v) => v,
            None => {
                return Err(DnsError::UnknownRecordType(t));
            },
        };
        let (c, p) = match read_u16(msg, p) {
            Ok(v) => v,
            Err(e) => {
                return Err(e);
            },
        };
        let record_qclass = match Class::of_code(c) {
            Some(v) => v,
            None => {
                return Err(DnsError::UnknownClass(c));
            },
        };
        Ok((Entry { labels, record_type, record_qclass }, p))
    }
}

} // verus!
