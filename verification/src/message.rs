//! The whole DNS message: header, question section, and the three record
//! sections, with the one-shot query encoder and the response decoder.

use vstd::prelude::*;
use vstd::string::StrSliceExecFns;
use vstd::string::StringExecFnsIsAscii;
use vstd::utf8::is_ascii_chars;

use crate::bits::{
    all_bits, lemma_all_bits_concat, lemma_bits_determine_bytes, lemma_u16_bytes_value, spec_bit,
    spec_u16_bytes, BitWriter,
};
use crate::dns_types::{Class, RecordType};
use crate::message::header::{
    lemma_header_round_trip, spec_header_bits, spec_parse_header, spec_query_header, Header,
    ResponseCode,
};
use crate::message::question::{
    lemma_qname_wire_parses, lemma_qname_wire_push, spec_label_wire, spec_parse_question,
    spec_qname_check, spec_qname_wire, spec_question_wire, spec_wf_query_labels, Entry,
    SpecQuestion,
};
use crate::message::parser_utils::spec_u16_at;
use crate::message::record::{parse_record, spec_parse_record, Record, SpecRecord};
use crate::parse::{spec_parse_name, MAX_POINTER_DEPTH};
use crate::DnsError;

pub mod header;
pub mod parser_utils;
pub mod question;
pub mod record;

verus! {

/// UDP messages are 512 octets or less.
pub const MAX_UDP_BYTES: usize = 512;

/// Labels are 63 octets or less.
pub const MAX_LABEL_BYTES: usize = 63;

/// Encoded names — labels plus their length octets — are 255 octets or
/// less.
pub const MAX_NAME_BYTES: usize = 255;

/// A whole message as the contracts see it.
pub struct SpecMessage {
    /// The header.
    pub header: Header,
    /// The question section.
    pub question: Seq<SpecQuestion>,
    /// The answer section.
    pub answer: Seq<SpecRecord>,
    /// The authority section.
    pub authority: Seq<SpecRecord>,
    /// The additional section.
    pub additional: Seq<SpecRecord>,
}

/// A whole DNS message.  The header is always present; the question section
/// describes what is asked, and the last three sections carry resource
/// records.  A decoded message always has as many entries in each section
/// as the header's counts say.
#[derive(Debug)]
pub struct Message {
    /// The header.
    pub header: Header,
    /// The question section.
    pub question: Vec<Entry>,
    /// The answer section: records that answer the question.
    pub answer: Vec<Record>,
    /// The authority section: records that point toward an authoritative
    /// name server.
    pub authority: Vec<Record>,
    /// The additional section: records that relate to the query without
    /// answering it.
    pub additional: Vec<Record>,
}

/// The views of the entries of a question section.
pub open spec fn spec_entries_view(v: Seq<Entry>) -> Seq<SpecQuestion> {
    v.map_values(|e: Entry| e@)
}

/// The views of the records of a record section.
pub open spec fn spec_records_view(v: Seq<Record>) -> Seq<SpecRecord> {
    v.map_values(|r: Record| r@)
}

impl View for Message {
    type V = SpecMessage;

    open spec fn view(&self) -> SpecMessage {
        SpecMessage {
            header: self.header,
            question: spec_entries_view(self.question@),
            answer: spec_records_view(self.answer@),
            authority: spec_records_view(self.authority@),
            additional: spec_records_view(self.additional@),
        }
    }
}

/// The labels a name string splits into at its dots, `cur` being the piece
/// read so far: "a.b." splits into "a", "b" and the empty root label.
pub open spec fn spec_split_labels(s: Seq<char>, cur: Seq<char>) -> Seq<Seq<char>>
    decreases s.len(),
{
    if s.len() == 0 {
        seq![cur]
    } else if s[0] == '.' {
        seq![cur] + spec_split_labels(s.drop_first(), Seq::empty())
    } else {
        spec_split_labels(s.drop_first(), cur.push(s[0]))
    }
}

/// A name of `n` characters splits into at most `n + 1` labels.
pub proof fn lemma_split_labels_count(s: Seq<char>, cur: Seq<char>)
    ensures
        spec_split_labels(s, cur).len() <= s.len() + 1,
    decreases s.len(),
{
    if s.len() > 0 {
        if s[0] == '.' {
            lemma_split_labels_count(s.drop_first(), Seq::empty());
        } else {
            lemma_split_labels_count(s.drop_first(), cur.push(s[0]));
        }
    }
}

/// The labels of a caller-supplied name: its pieces split at the dots,
/// with the empty root label appended when the name does not already end
/// in one, so that the encoded name always terminates with the zero-length
/// byte.
pub open spec fn spec_name_labels(s: Seq<char>) -> Seq<Seq<char>> {
    let ls = spec_split_labels(s, Seq::empty());
    if ls.last().len() == 0 {
        ls
    } else {
        ls.push(Seq::empty())
    }
}

/// The wire form of a split name holds one length octet per label plus
/// every character: one byte more than the string and the piece read so
/// far together.
proof fn lemma_split_wire_len(s: Seq<char>, cur: Seq<char>)
    ensures
        spec_qname_wire(spec_split_labels(s, cur)).len() == cur.len() + s.len() + 1,
    decreases s.len(),
{
    reveal_with_fuel(spec_qname_wire, 3);
    if s.len() == 0 {
        assert(spec_split_labels(s, cur) == seq![cur]);
        assert(seq![cur].drop_first() =~= Seq::<Seq<char>>::empty());
        assert(spec_qname_wire(seq![cur]) == spec_label_wire(cur) + spec_qname_wire(
            seq![cur].drop_first(),
        ));
        assert(spec_label_wire(cur).len() == 1 + cur.len());
    } else if s[0] == '.' {
        lemma_split_wire_len(s.drop_first(), Seq::empty());
        let rest = spec_split_labels(s.drop_first(), Seq::empty());
        assert((seq![cur] + rest)[0] == cur);
        assert((seq![cur] + rest).drop_first() =~= rest);
        assert(spec_qname_wire(seq![cur] + rest) == spec_label_wire(cur) + spec_qname_wire(rest));
        assert(spec_label_wire(cur).len() == 1 + cur.len());
    } else {
        lemma_split_wire_len(s.drop_first(), cur.push(s[0]));
    }
}

proof fn lemma_split_labels_last_nonempty(s: Seq<char>, cur: Seq<char>)
    requires
        s.len() >= 1,
        s.last() != '.',
    ensures
        spec_split_labels(s, cur).last().len() >= 1,
    decreases s.len(),
{
    let rest = s.drop_first();
    if s.len() == 1 {
        assert(s[0] != '.');
        assert(spec_split_labels(rest, cur.push(s[0])) == seq![cur.push(s[0])]);
    } else {
        assert(rest.last() == s.last());
        if s[0] == '.' {
            lemma_split_labels_last_nonempty(rest, Seq::empty());
            lemma_split_labels_not_empty(rest, Seq::empty());
            assert((seq![cur] + spec_split_labels(rest, Seq::empty())).last()
                == spec_split_labels(rest, Seq::empty()).last());
        } else {
            lemma_split_labels_last_nonempty(rest, cur.push(s[0]));
        }
    }
}

/// The encoded length of a caller-supplied name: one byte more than a
/// dot-terminated string, two more than one lacking the final dot, and a
/// single root byte for the empty string.
proof fn lemma_name_labels_wire_len(s: Seq<char>)
    ensures
        spec_qname_wire(spec_name_labels(s)).len() == (if s.len() == 0 {
            1int
        } else if s.last() == '.' {
            s.len() + 1int
        } else {
            s.len() + 2int
        }),
{
    lemma_split_wire_len(s, Seq::empty());
    let ls = spec_split_labels(s, Seq::empty());
    if s.len() == 0 {
        assert(ls == seq![Seq::<char>::empty()]);
        assert(ls.last().len() == 0);
    } else if s.last() == '.' {
        lemma_split_labels_last_empty(s, Seq::empty());
    } else {
        lemma_split_labels_last_nonempty(s, Seq::empty());
        lemma_qname_wire_push(ls, Seq::empty());
        assert(spec_label_wire(Seq::<char>::empty()).len() == 1);
    }
}

proof fn lemma_split_labels_not_empty(s: Seq<char>, cur: Seq<char>)
    ensures
        spec_split_labels(s, cur).len() >= 1,
    decreases s.len(),
{
    if s.len() > 0 && s[0] == '.' {
        lemma_split_labels_not_empty(s.drop_first(), Seq::empty());
    } else if s.len() > 0 {
        lemma_split_labels_not_empty(s.drop_first(), cur.push(s[0]));
    }
}

proof fn lemma_split_labels_last_empty(s: Seq<char>, cur: Seq<char>)
    requires
        s.len() >= 1,
        s.last() == '.',
    ensures
        spec_split_labels(s, cur).last().len() == 0,
    decreases s.len(),
{
    let rest = s.drop_first();
    if s.len() == 1 {
        assert(s[0] == '.');
        assert(spec_split_labels(rest, Seq::empty()) == seq![Seq::<char>::empty()]);
    } else {
        assert(rest.last() == s.last());
        if s[0] == '.' {
            lemma_split_labels_last_empty(rest, Seq::empty());
            lemma_split_labels_not_empty(rest, Seq::empty());
            assert((seq![cur] + spec_split_labels(rest, Seq::empty())).last()
                == spec_split_labels(rest, Seq::empty()).last());
        } else {
            lemma_split_labels_last_empty(rest, cur.push(s[0]));
        }
    }
}

proof fn lemma_split_labels_ascii(s: Seq<char>, cur: Seq<char>)
    requires
        is_ascii_chars(s),
        is_ascii_chars(cur),
    ensures
        forall|i: int|
            0 <= i < spec_split_labels(s, cur).len() ==> is_ascii_chars(
                #[trigger] spec_split_labels(s, cur)[i],
            ),
    decreases s.len(),
{
    if s.len() == 0 {
        assert(spec_split_labels(s, cur) == seq![cur]);
        assert(spec_split_labels(s, cur)[0] == cur);
    } else {
        let rest = s.drop_first();
        assert(is_ascii_chars(rest)) by {
            assert(forall|i: int| 0 <= i < rest.len() ==> rest[i] == #[trigger] s[i + 1]);
        }
        if s[0] == '.' {
            lemma_split_labels_ascii(rest, Seq::empty());
            assert forall|i: int| 0 <= i < spec_split_labels(s, cur).len() implies is_ascii_chars(
                #[trigger] spec_split_labels(s, cur)[i],
            ) by {
                if i >= 1 {
                    assert(spec_split_labels(s, cur)[i] == spec_split_labels(
                        rest,
                        Seq::empty(),
                    )[i - 1]);
                } else {
                    assert(spec_split_labels(s, cur)[0] == cur);
                }
            }
        } else {
            assert(is_ascii_chars(cur.push(s[0]))) by {
                assert(forall|i: int|
                    0 <= i < cur.len() ==> cur.push(s[0])[i] == #[trigger] cur[i]);
                assert(cur.push(s[0]).last() == s[0]);
            }
            lemma_split_labels_ascii(rest, cur.push(s[0]));
            assert forall|i: int| 0 <= i < spec_split_labels(s, cur).len() implies is_ascii_chars(
                #[trigger] spec_split_labels(s, cur)[i],
            ) by {
                assert(spec_split_labels(s, cur)[i] == spec_split_labels(
                    rest,
                    cur.push(s[0]),
                )[i]);
            }
        }
    }
}

/// A name string fit for a query yields well-formed labels: the root
/// label last and empty, every other label 1 to 63 ASCII bytes.  Fit means
/// ASCII with no piece of it empty or over 63 bytes.  Together with the
/// contracts of `Message::new_query` and `Message::serialize_bytes`, and
/// `lemma_query_round_trip`, this closes the loop: the query built from
/// any such name decodes back to itself.
pub proof fn lemma_valid_name_splits_wf(s: Seq<char>)
    requires
        is_ascii_chars(s),
        forall|i: int|
            0 <= i < spec_name_labels(s).len() - 1 ==> 1 <= #[trigger] spec_name_labels(
                s,
            )[i].len() <= 63,
    ensures
        spec_wf_query_labels(spec_name_labels(s)),
{
    let ls = spec_split_labels(s, Seq::empty());
    let nl = spec_name_labels(s);
    lemma_split_labels_not_empty(s, Seq::empty());
    lemma_split_labels_ascii(s, Seq::empty());
    if ls.last().len() == 0 {
        assert(nl == ls);
        assert(nl.last() == nl[nl.len() - 1]);
        assert forall|i: int| 0 <= i < nl.len() implies is_ascii_chars(#[trigger] nl[i]) by {
            assert(nl[i] == ls[i]);
        }
    } else {
        assert(nl == ls.push(Seq::<char>::empty()));
        assert(nl.last().len() == 0);
        assert forall|i: int| 0 <= i < nl.len() implies is_ascii_chars(#[trigger] nl[i]) by {
            if i < ls.len() {
                assert(nl[i] == ls[i]);
            } else {
                assert(nl[i] =~= Seq::<char>::empty());
            }
        }
    }
}

/// Why a caller-supplied name cannot become a query, if it cannot: only
/// ASCII names are valid, and a name whose encoded form — labels plus
/// their length octets — exceeds 255 bytes, or that holds a label over 63
/// bytes, is out of range.
pub open spec fn spec_name_error(s: Seq<char>) -> Option<DnsError> {
    if !is_ascii_chars(s) {
        Some(DnsError::InvalidDomainName)
    } else if spec_qname_wire(spec_name_labels(s)).len() > 255 {
        Some(DnsError::ValueOutOfRange)
    } else if exists|i: int|
        0 <= i < spec_name_labels(s).len() && spec_name_labels(s)[i].len() > 63 {
        Some(DnsError::ValueOutOfRange)
    } else {
        None
    }
}

/// The wire form of a question section.
pub open spec fn spec_questions_wire(qs: Seq<SpecQuestion>) -> Seq<u8>
    decreases qs.len(),
{
    if qs.len() == 0 {
        Seq::empty()
    } else {
        spec_question_wire(qs[0]) + spec_questions_wire(qs.drop_first())
    }
}

/// A one-question section's wire form is that question's wire form.
pub proof fn lemma_single_question_wire(q: SpecQuestion)
    ensures
        spec_questions_wire(seq![q]) == spec_question_wire(q),
{
    assert(seq![q].drop_first() =~= Seq::<SpecQuestion>::empty());
    assert(spec_questions_wire(seq![q].drop_first()) == Seq::<u8>::empty());
    assert(spec_question_wire(seq![q][0]) + Seq::<u8>::empty() =~= spec_question_wire(q));
}

/// The first label error in a question section, if any.
pub open spec fn spec_questions_check(qs: Seq<SpecQuestion>) -> Option<DnsError>
    decreases qs.len(),
{
    if qs.len() == 0 {
        None
    } else if spec_qname_check(qs[0].labels) is Some {
        spec_qname_check(qs[0].labels)
    } else {
        spec_questions_check(qs.drop_first())
    }
}

/// Appending one more question appends its wire form.
pub proof fn lemma_questions_wire_push(qs: Seq<SpecQuestion>, x: SpecQuestion)
    ensures
        spec_questions_wire(qs.push(x)) == spec_questions_wire(qs) + spec_question_wire(x),
    decreases qs.len(),
{
    reveal_with_fuel(spec_questions_wire, 3);
    let p = qs.push(x);
    if qs.len() == 0 {
        assert(p[0] == x);
        assert(p.drop_first() =~= Seq::<SpecQuestion>::empty());
        assert(spec_questions_wire(p) == spec_question_wire(x) + Seq::<u8>::empty());
        assert(spec_question_wire(x) + Seq::<u8>::empty() =~= Seq::<u8>::empty()
            + spec_question_wire(x));
    } else {
        lemma_questions_wire_push(qs.drop_first(), x);
        assert(p.drop_first() =~= qs.drop_first().push(x));
        assert(p[0] == qs[0]);
        assert(spec_questions_wire(p) == spec_question_wire(qs[0]) + (spec_questions_wire(
            qs.drop_first(),
        ) + spec_question_wire(x)));
        assert(spec_question_wire(qs[0]) + (spec_questions_wire(qs.drop_first())
            + spec_question_wire(x)) =~= (spec_question_wire(qs[0]) + spec_questions_wire(
            qs.drop_first(),
        )) + spec_question_wire(x));
    }
}

/// The wire form of a question section splits at any index.
pub proof fn lemma_questions_wire_decompose(qs: Seq<SpecQuestion>, i: int)
    requires
        0 <= i <= qs.len(),
    ensures
        spec_questions_wire(qs) =~= spec_questions_wire(qs.take(i)) + spec_questions_wire(
            qs.skip(i),
        ),
    decreases i,
{
    if i == 0 {
        assert(qs.take(0) =~= Seq::<SpecQuestion>::empty());
        assert(qs.skip(0) =~= qs);
    } else {
        lemma_questions_wire_decompose(qs, i - 1);
        assert(qs.take(i) =~= qs.take(i - 1).push(qs[i - 1]));
        lemma_questions_wire_push(qs.take(i - 1), qs[i - 1]);
        assert(qs.skip(i - 1)[0] == qs[i - 1]);
        assert(qs.skip(i - 1).drop_first() =~= qs.skip(i));
        assert(spec_questions_wire(qs.skip(i - 1)) =~= spec_question_wire(qs[i - 1])
            + spec_questions_wire(qs.skip(i)));
    }
}

/// A question section whose questions all pass their checks passes the
/// whole check, and the first failing question decides the error.
pub proof fn lemma_questions_check_at(qs: Seq<SpecQuestion>, i: int)
    requires
        0 <= i <= qs.len(),
        forall|j: int| 0 <= j < i ==> spec_qname_check(#[trigger] qs[j].labels) is None,
    ensures
        i < qs.len() && spec_qname_check(qs[i].labels) is Some ==> spec_questions_check(qs)
            == spec_qname_check(qs[i].labels),
        i == qs.len() ==> spec_questions_check(qs) is None,
    decreases i, qs.len(),
{
    if qs.len() == 0 {
    } else if i == 0 {
    } else {
        assert(spec_qname_check(qs[0].labels) is None);
        assert(forall|j: int|
            0 <= j < i - 1 ==> spec_qname_check(#[trigger] qs.drop_first()[j].labels) is None) by {
            assert(forall|j: int| 0 <= j < i - 1 ==> qs.drop_first()[j] == #[trigger] qs[j + 1]);
        }
        lemma_questions_check_at(qs.drop_first(), i - 1);
        if i < qs.len() {
            assert(qs.drop_first()[i - 1] == qs[i]);
        }
    }
}

/// What decoding `n` consecutive question entries at byte position `pos`
/// yields.
pub open spec fn spec_parse_questions(msg: Seq<u8>, pos: int, n: nat) -> Result<
    (Seq<SpecQuestion>, int),
    DnsError,
>
    decreases n,
{
    if n == 0 {
        Ok((Seq::empty(), pos))
    } else {
        match spec_parse_question(msg, pos) {
            Ok((q, p)) => match spec_parse_questions(msg, p, (n - 1) as nat) {
                Ok((qs, end)) => Ok((seq![q] + qs, end)),
                Err(e) => Err(e),
            },
            Err(e) => Err(e),
        }
    }
}

/// What decoding `n` consecutive resource records at byte position `pos`
/// yields.
pub open spec fn spec_parse_records(msg: Seq<u8>, pos: int, n: nat) -> Result<
    (Seq<SpecRecord>, int),
    DnsError,
>
    decreases n,
{
    if n == 0 {
        Ok((Seq::empty(), pos))
    } else {
        match spec_parse_record(msg, pos) {
            Ok((r, p)) => match spec_parse_records(msg, p, (n - 1) as nat) {
                Ok((rs, end)) => Ok((seq![r] + rs, end)),
                Err(e) => Err(e),
            },
            Err(e) => Err(e),
        }
    }
}

/// A decoded question section has as many entries as were asked for.
pub proof fn lemma_parse_questions_len(msg: Seq<u8>, pos: int, n: nat)
    ensures
        spec_parse_questions(msg, pos, n) matches Ok((qs, _)) ==> qs.len() == n,
    decreases n,
{
    if n > 0 {
        match spec_parse_question(msg, pos) {
            Ok((q, p)) => {
                lemma_parse_questions_len(msg, p, (n - 1) as nat);
            },
            Err(_) => {},
        }
    }
}

/// A decoded record section has as many records as were asked for.
pub proof fn lemma_parse_records_len(msg: Seq<u8>, pos: int, n: nat)
    ensures
        spec_parse_records(msg, pos, n) matches Ok((rs, _)) ==> rs.len() == n,
    decreases n,
{
    if n > 0 {
        match spec_parse_record(msg, pos) {
            Ok((r, p)) => {
                lemma_parse_records_len(msg, p, (n - 1) as nat);
            },
            Err(_) => {},
        }
    }
}

/// All or nothing: when the first `k` records of a section decode and the
/// record after them fails, the whole section's decode fails with that
/// error — however deep in the section the bad record stands.
pub proof fn lemma_record_error_fails_section(
    msg: Seq<u8>,
    pos: int,
    n: nat,
    k: nat,
    rs: Seq<SpecRecord>,
    p: int,
    e: DnsError,
)
    requires
        k < n,
        spec_parse_records(msg, pos, k) == Ok::<(Seq<SpecRecord>, int), DnsError>((rs, p)),
        spec_parse_record(msg, p) == Err::<(SpecRecord, int), DnsError>(e),
    ensures
        spec_parse_records(msg, pos, n) == Err::<(Seq<SpecRecord>, int), DnsError>(e),
    decreases k,
{
    if k == 0 {
        assert(p == pos);
    } else {
        match spec_parse_record(msg, pos) {
            Ok((r0, p1)) => {
                match spec_parse_records(msg, p1, (k - 1) as nat) {
                    Ok((rs1, p2)) => {
                        assert(p2 == p);
                        lemma_record_error_fails_section(
                            msg,
                            p1,
                            (n - 1) as nat,
                            (k - 1) as nat,
                            rs1,
                            p,
                            e,
                        );
                    },
                    Err(_) => {
                        assert(false);
                    },
                }
            },
            Err(_) => {
                assert(false);
            },
        }
    }
}

/// What decoding a whole message yields: the header, then as many
/// questions and records as the header's counts say, all against the same
/// whole-message buffer.  A failure anywhere fails the whole decode; no
/// partial message exists.
pub open spec fn spec_parse_message(msg: Seq<u8>) -> Result<SpecMessage, DnsError> {
    match spec_parse_header(msg) {
        Ok(h) => match spec_parse_questions(msg, 12, h.question_count as nat) {
            Ok((qs, p1)) => match spec_parse_records(msg, p1, h.answer_count as nat) {
                Ok((ans, p2)) => match spec_parse_records(msg, p2, h.name_server_count as nat) {
                    Ok((auth, p3)) => match spec_parse_records(
                        msg,
                        p3,
                        h.additional_records_count as nat,
                    ) {
                        Ok((add, _)) => Ok(
                            SpecMessage {
                                header: h,
                                question: qs,
                                answer: ans,
                                authority: auth,
                                additional: add,
                            },
                        ),
                        Err(e) => Err(e),
                    },
                    Err(e) => Err(e),
                },
                Err(e) => Err(e),
            },
            Err(e) => Err(e),
        },
        Err(e) => Err(e),
    }
}

/// Decodes `n` consecutive question entries at byte position `pos`.
fn parse_questions(msg: &Vec<u8>, pos: usize, n: u16) -> (r: Result<(Vec<Entry>, usize), DnsError>)
    ensures
        match r {
            Ok((qs, end)) => {
                &&& spec_parse_questions(msg@, pos as int, n as nat) == Ok::<_, DnsError>(
                    (spec_entries_view(qs@), end as int),
                )
                &&& (n > 0 ==> end <= msg@.len())
                &&& (n == 0 ==> end == pos)
            },
            Err(e) => spec_parse_questions(msg@, pos as int, n as nat) == Err::<
                (Seq<SpecQuestion>, int),
                _,
            >(e),
        },
{
    let mut qs: Vec<Entry> = Vec::new();
    let mut p = pos;
    let mut i: u16 = 0;
    while i < n
        invariant
            i <= n,
            i > 0 ==> p <= msg@.len(),
            i == 0 ==> p == pos,
            spec_parse_questions(msg@, pos as int, n as nat) == (
            match spec_parse_questions(msg@, p as int, (n - i) as nat) {
                Ok((s, e)) => Ok::<(Seq<SpecQuestion>, int), DnsError>(
                    (spec_entries_view(qs@) + s, e),
                ),
                Err(er) => Err::<(Seq<SpecQuestion>, int), DnsError>(er),
            }),
        decreases n - i,
    {
        let ghost prev = qs@;
        let (q, p2) = match Entry::deserialize(msg, p) {
            Ok(v) => v,
            Err(e) => {
                return Err(e);
            },
        };
        qs.push(q);
        proof {
            let cont = spec_parse_questions(msg@, p2 as int, (n - i - 1) as nat);
            assert(spec_parse_questions(msg@, p as int, (n - i) as nat) == (match cont {
                Ok((s, e)) => Ok::<(Seq<SpecQuestion>, int), DnsError>((seq![qs@.last()@] + s, e)),
                Err(er) => Err::<(Seq<SpecQuestion>, int), DnsError>(er),
            }));
            assert(spec_entries_view(qs@) =~= spec_entries_view(prev).push(qs@.last()@));
            match cont {
                Ok((s, e)) => {
                    assert(spec_entries_view(prev) + (seq![qs@.last()@] + s) =~= spec_entries_view(
                        qs@,
                    ) + s);
                },
                Err(_) => {},
            }
        }
        p = p2;
        i = i + 1;
    }
    proof {
        assert(spec_parse_questions(msg@, p as int, 0) == Ok::<(Seq<SpecQuestion>, int), DnsError>(
            (Seq::empty(), p as int),
        ));
        assert(spec_entries_view(qs@) + Seq::<SpecQuestion>::empty() =~= spec_entries_view(qs@));
    }
    Ok((qs, p))
}

/// Decodes `n` consecutive resource records at byte position `pos`.
fn parse_records(msg: &Vec<u8>, pos: usize, n: u16) -> (r: Result<(Vec<Record>, usize), DnsError>)
    ensures
        match r {
            Ok((rs, end)) => {
                &&& spec_parse_records(msg@, pos as int, n as nat) == Ok::<_, DnsError>(
                    (spec_records_view(rs@), end as int),
                )
                &&& (n > 0 ==> end <= msg@.len())
                &&& (n == 0 ==> end == pos)
            },
            Err(e) => spec_parse_records(msg@, pos as int, n as nat) == Err::<
                (Seq<SpecRecord>, int),
                _,
            >(e),
        },
{
    let mut rs: Vec<Record> = Vec::new();
    let mut p = pos;
    let mut i: u16 = 0;
    while i < n
        invariant
            i <= n,
            i > 0 ==> p <= msg@.len(),
            i == 0 ==> p == pos,
            spec_parse_records(msg@, pos as int, n as nat) == (
            match spec_parse_records(msg@, p as int, (n - i) as nat) {
                Ok((s, e)) => Ok::<(Seq<SpecRecord>, int), DnsError>(
                    (spec_records_view(rs@) + s, e),
                ),
                Err(er) => Err::<(Seq<SpecRecord>, int), DnsError>(er),
            }),
        decreases n - i,
    {
        let ghost prev = rs@;
        let (rec, p2) = match parse_record(msg, p) {
            Ok(v) => v,
            Err(e) => {
                return Err(e);
            },
        };
        rs.push(rec);
        proof {
            let cont = spec_parse_records(msg@, p2 as int, (n - i - 1) as nat);
            assert(spec_parse_records(msg@, p as int, (n - i) as nat) == (match cont {
                Ok((s, e)) => Ok::<(Seq<SpecRecord>, int), DnsError>((seq![rs@.last()@] + s, e)),
                Err(er) => Err::<(Seq<SpecRecord>, int), DnsError>(er),
            }));
            assert(spec_records_view(rs@) =~= spec_records_view(prev).push(rs@.last()@));
            match cont {
                Ok((s, e)) => {
                    assert(spec_records_view(prev) + (seq![rs@.last()@] + s) =~= spec_records_view(
                        rs@,
                    ) + s);
                },
                Err(_) => {},
            }
        }
        p = p2;
        i = i + 1;
    }
    proof {
        assert(spec_parse_records(msg@, p as int, 0) == Ok::<(Seq<SpecRecord>, int), DnsError>(
            (Seq::empty(), p as int),
        ));
        assert(spec_records_view(rs@) + Seq::<SpecRecord>::empty() =~= spec_records_view(rs@));
    }
    Ok((rs, p))
}

impl Message {
    /// Builds a query for one name and record type.  The name must be
    /// ASCII, no label of it may exceed 63 bytes, and its encoded form —
    /// labels plus their length octets — may hold at most 255 bytes.  A
    /// name that does not already end in the root label's dot gets the
    /// empty root label appended, so the encoded name always terminates
    /// with the zero-length byte.
    pub fn new_query(id: u16, domain_name: String, record_type: RecordType) -> (r: Result<
        Message,
        DnsError,
    >)
        ensures
            match r {
                Ok(m) => {
                    &&& spec_name_error(domain_name@) is None
                    &&& m@.header == spec_query_header(id)
                    &&& m@.question == seq![
                        SpecQuestion {
                            labels: spec_name_labels(domain_name@),
                            record_type,
                            record_qclass: Class::IN,
                        },
                    ]
                    &&& m@.answer == Seq::<SpecRecord>::empty()
                    &&& m@.authority == Seq::<SpecRecord>::empty()
                    &&& m@.additional == Seq::<SpecRecord>::empty()
                },
                Err(e) => spec_name_error(domain_name@) == Some(e),
            },
    {
        let ghost s = domain_name@;
        if !domain_name.is_ascii() {
            return Err(DnsError::InvalidDomainName);
        }
        let name = domain_name.as_str();
        let n = name.unicode_len();
        let ends_with_dot = n >= 1 && name.get_char(n - 1) == '.';
        proof {
            lemma_name_labels_wire_len(s);
        }
        // The encoded name holds one length octet per label plus the root
        // byte: one byte more than a dot-terminated string, two more than
        // one lacking the final dot.
        if (ends_with_dot && n >= MAX_NAME_BYTES) || (!ends_with_dot && n >= MAX_NAME_BYTES - 1) {
            return Err(DnsError::ValueOutOfRange);
        }
        let ghost target = spec_split_labels(s, Seq::empty());
        let mut labels: Vec<String> = Vec::new();
        let mut start: usize = 0;
        let mut i: usize = 0;
        proof {
            assert(s.skip(0) =~= s);
            assert(s.subrange(0, 0) =~= Seq::<char>::empty());
            assert(labels.deep_view() =~= Seq::<Seq<char>>::empty());
            assert(target =~= labels.deep_view() + spec_split_labels(s.skip(0), s.subrange(0, 0)));
        }
        while i < n
            invariant
                0 <= start as int <= i as int <= n,
                n == s.len(),
                name@ == s,
                target == spec_split_labels(s, Seq::empty()),
                target =~= labels.deep_view() + spec_split_labels(
                    s.skip(i as int),
                    s.subrange(start as int, i as int),
                ),
            decreases n - i,
        {
            let c = name.get_char(i);
            proof {
                assert(s.skip(i as int)[0] == s[i as int]);
                assert(s.skip(i as int).drop_first() =~= s.skip(i + 1));
            }
            if c == '.' {
                let piece = name.substring_char(start, i).to_owned();
                let ghost prev = labels.deep_view();
                labels.push(piece);
                proof {
                    assert(labels.deep_view() =~= prev.push(s.subrange(start as int, i as int)));
                    assert(s.subrange(i + 1, i + 1) =~= Seq::<char>::empty());
                    assert(target =~= labels.deep_view() + spec_split_labels(
                        s.skip(i + 1),
                        s.subrange(i + 1, i + 1),
                    ));
                }
                start = i + 1;
            } else {
                proof {
                    assert(s.subrange(start as int, i as int).push(s[i as int]) =~= s.subrange(
                        start as int,
                        i + 1,
                    ));
                }
            }
            i = i + 1;
        }
        let piece = name.substring_char(start, n).to_owned();
        let ghost prev = labels.deep_view();
        labels.push(piece);
        proof {
            assert(labels.deep_view() =~= prev.push(s.subrange(start as int, n as int)));
            assert(s.skip(n as int).len() == 0);
            assert(spec_split_labels(s.skip(n as int), s.subrange(start as int, n as int)) == seq![
                s.subrange(start as int, n as int),
            ]);
            assert(target =~= labels.deep_view());
        }
        // Names end with the root label; append it when the dot was left
        // off.
        let ghost nl = spec_name_labels(s);
        let last_label_len = labels[labels.len() - 1].as_str().unicode_len();
        proof {
            assert(labels.deep_view()[labels@.len() - 1] == labels@[labels@.len() - 1]@);
            assert(labels@[labels@.len() - 1]@ == target.last());
        }
        if last_label_len != 0 {
            let ghost prev2 = labels.deep_view();
            labels.push(String::new());
            proof {
                assert(labels.deep_view() =~= prev2.push(Seq::<char>::empty()));
                assert(nl =~= labels.deep_view());
            }
        } else {
            proof {
                assert(nl =~= labels.deep_view());
            }
        }
        // Reject a label above the limit.
        let mut j: usize = 0;
        while j < labels.len()
            invariant
                j <= labels@.len(),
                s == domain_name@,
                is_ascii_chars(s),
                nl == spec_name_labels(s),
                spec_qname_wire(nl).len() <= 255,
                nl == labels.deep_view(),
                nl.len() == labels@.len(),
                forall|k: int| 0 <= k < nl.len() ==> nl[k] == #[trigger] labels@[k]@,
                forall|k: int| 0 <= k < j ==> #[trigger] nl[k].len() <= 63,
            decreases labels@.len() - j,
        {
            if labels[j].as_str().unicode_len() > MAX_LABEL_BYTES {
                proof {
                    let tl = spec_name_labels(s);
                    assert(exists|k: int| 0 <= k < tl.len() && tl[k].len() > 63) by {
                        assert(tl[j as int].len() > 63);
                    }
                }
                return Err(DnsError::ValueOutOfRange);
            }
            j = j + 1;
        }
        let entry = Entry::new(labels, record_type);
        let ghost ev = entry@;
        let mut question: Vec<Entry> = Vec::new();
        question.push(entry);
        let m = Message {
            header: Header::new_query(id),
            question,
            answer: Vec::new(),
            authority: Vec::new(),
            additional: Vec::new(),
        };
        proof {
            assert(m@.question =~= seq![ev]);
            assert(m@.answer =~= Seq::<SpecRecord>::empty());
            assert(m@.authority =~= Seq::<SpecRecord>::empty());
            assert(m@.additional =~= Seq::<SpecRecord>::empty());
            let tl = spec_name_labels(s);
            assert(!(exists|k: int| 0 <= k < tl.len() && tl[k].len() > 63)) by {
                assert(forall|k: int| 0 <= k < tl.len() ==> #[trigger] tl[k].len() <= 63);
            }
            assert(spec_name_error(s) is None);
        }
        Ok(m)
    }

    /// Serializes the header and every question into the bit stream; the
    /// record sections of a query are empty and contribute no bytes.
    /// Nothing is written on failure.
    fn serialize_bits(&self, bv: &mut BitWriter) -> (r: Result<(), DnsError>)
        requires
            old(bv).wf(),
            old(bv).bits().len() + 8 * spec_questions_wire(self@.question).len() + 512
                < usize::MAX,
        ensures
            final(bv).wf(),
            match r {
                Ok(()) => {
                    &&& spec_questions_check(self@.question) is None
                    &&& final(bv).bits() == old(bv).bits() + spec_header_bits(self.header)
                        + all_bits(spec_questions_wire(self@.question))
                },
                Err(e) => {
                    &&& spec_questions_check(self@.question) == Some(e)
                    &&& final(bv).bits() == old(bv).bits()
                },
            },
    {
        let ghost qv = self@.question;
        // Validate every question before writing anything.
        let mut i: usize = 0;
        while i < self.question.len()
            invariant
                i <= self.question@.len(),
                qv == self@.question,
                qv.len() == self.question@.len(),
                forall|j: int| 0 <= j < qv.len() ==> qv[j] == #[trigger] self.question@[j]@,
                forall|j: int| 0 <= j < i ==> spec_qname_check(#[trigger] qv[j].labels) is None,
                bv.wf(),
                bv.bits() == old(bv).bits(),
            decreases self.question@.len() - i,
        {
            match self.question[i].qname_error() {
                Some(e) => {
                    proof {
                        lemma_questions_check_at(qv, i as int);
                    }
                    return Err(e);
                },
                None => {},
            }
            i = i + 1;
        }
        proof {
            lemma_questions_check_at(qv, qv.len() as int);
        }
        let ghost base = bv.bits();
        self.header.serialize(bv);
        let ghost hb = spec_header_bits(self.header);
        let mut i: usize = 0;
        while i < self.question.len()
            invariant
                i <= self.question@.len(),
                qv == self@.question,
                qv.len() == self.question@.len(),
                forall|j: int| 0 <= j < qv.len() ==> qv[j] == #[trigger] self.question@[j]@,
                forall|j: int|
                    0 <= j < qv.len() ==> spec_qname_check(#[trigger] qv[j].labels) is None,
                hb == spec_header_bits(self.header),
                hb.len() == 96,
                bv.wf(),
                bv.bits() == base + hb + all_bits(spec_questions_wire(qv.take(i as int))),
                base.len() + 8 * spec_questions_wire(qv).len() + 512 < usize::MAX,
            decreases self.question@.len() - i,
        {
            proof {
                lemma_questions_wire_decompose(qv, i as int);
                lemma_questions_wire_decompose(qv, i + 1);
                assert(qv.take(i + 1) =~= qv.take(i as int).push(qv[i as int]));
                lemma_questions_wire_push(qv.take(i as int), qv[i as int]);
            }
            let ghost partial = spec_questions_wire(qv.take(i as int));
            match self.question[i].serialize(bv) {
                Ok(()) => {},
                Err(e) => {
                    proof {
                        assert(spec_qname_check(qv[i as int].labels) == Some(e));
                        assert(false);
                    }
                },
            }
            proof {
                lemma_all_bits_concat(partial, spec_question_wire(qv[i as int]));
                assert(bv.bits() =~= base + hb + all_bits(spec_questions_wire(qv.take(i + 1))));
            }
            i = i + 1;
        }
        proof {
            assert(qv.take(qv.len() as int) =~= qv);
        }
        Ok(())
    }

    /// Serializes the message into its wire bytes: the 12-byte header
    /// followed by the question section.
    pub fn serialize_bytes(&self) -> (r: Result<Vec<u8>, DnsError>)
        requires
            8 * spec_questions_wire(self@.question).len() + 1024 < usize::MAX,
        ensures
            match r {
                Ok(bytes) => {
                    &&& spec_questions_check(self@.question) is None
                    &&& bytes@.len() == 12 + spec_questions_wire(self@.question).len()
                    &&& all_bits(bytes@) == spec_header_bits(self.header) + all_bits(
                        spec_questions_wire(self@.question),
                    )
                },
                Err(e) => spec_questions_check(self@.question) == Some(e),
            },
    {
        let mut bv = BitWriter::new();
        match self.serialize_bits(&mut bv) {
            Ok(()) => {},
            Err(e) => {
                return Err(e);
            },
        }
        let ghost w = spec_questions_wire(self@.question);
        proof {
            assert(bv.bits().len() == 96 + 8 * w.len());
            assert(bv.bits().len() == 8 * (12 + w.len()));
            vstd::arithmetic::div_mod::lemma_mod_multiples_basic(12 + w.len() as int, 8);
        }
        let bytes = bv.finish();
        proof {
            assert(Seq::<bool>::empty() + spec_header_bits(self.header) + all_bits(w)
                =~= spec_header_bits(self.header) + all_bits(w));
        }
        Ok(bytes)
    }

    /// Decodes a response's wire bytes into a message, all or nothing: the
    /// header, then exactly as many questions and records as its counts
    /// say.  Bytes past the last record are ignored.
    pub fn deserialize(input: Vec<u8>) -> (r: Result<Message, DnsError>)
        requires
            8 * input@.len() + 16 <= usize::MAX,
        ensures
            match r {
                Ok(m) => {
                    &&& spec_parse_message(input@) == Ok::<SpecMessage, DnsError>(m@)
                    &&& m@.question.len() == m@.header.question_count
                    &&& m@.answer.len() == m@.header.answer_count
                    &&& m@.authority.len() == m@.header.name_server_count
                    &&& m@.additional.len() == m@.header.additional_records_count
                },
                Err(e) => spec_parse_message(input@) == Err::<SpecMessage, DnsError>(e),
            },
    {
        let header = match Header::deserialize(&input) {
            Ok(h) => h,
            Err(e) => {
                return Err(e);
            },
        };
        let (question, p1) = match parse_questions(&input, 12, header.question_count) {
            Ok(v) => v,
            Err(e) => {
                return Err(e);
            },
        };
        let (answer, p2) = match parse_records(&input, p1, header.answer_count) {
            Ok(v) => v,
            Err(e) => {
                return Err(e);
            },
        };
        let (authority, p3) = match parse_records(&input, p2, header.name_server_count) {
            Ok(v) => v,
            Err(e) => {
                return Err(e);
            },
        };
        let (additional, _) = match parse_records(&input, p3, header.additional_records_count) {
            Ok(v) => v,
            Err(e) => {
                return Err(e);
            },
        };
        proof {
            lemma_parse_questions_len(input@, 12, header.question_count as nat);
            lemma_parse_records_len(input@, p1 as int, header.answer_count as nat);
            lemma_parse_records_len(input@, p2 as int, header.name_server_count as nat);
            lemma_parse_records_len(input@, p3 as int, header.additional_records_count as nat);
        }
        Ok(Message { header, question, answer, authority, additional })
    }

    /// Checks a response's id against the id the query was sent with; a
    /// mismatch is advisory, not fatal.
    pub fn validate_id(&self, sent_query_id: u16) -> (r: Option<DnsError>)
        ensures
            r == (if self.header.id == sent_query_id {
                Option::<DnsError>::None
            } else {
                Some(DnsError::QueryIdMismatch)
            }),
    {
        if self.header.id == sent_query_id {
            None
        } else {
            Some(DnsError::QueryIdMismatch)
        }
    }

    /// The error a response's code signals, if any: a structurally valid
    /// message may still carry the server's refusal or failure.
    pub fn server_error(&self) -> (r: Option<DnsError>)
        ensures
            r == (if self.header.resp_code == ResponseCode::NoError {
                Option::<DnsError>::None
            } else {
                Some(DnsError::ServerSignaledError(self.header.resp_code))
            }),
    {
        match self.header.resp_code {
            ResponseCode::NoError => None,
            c => Some(DnsError::ServerSignaledError(c)),
        }
    }
}

/// Round trip: the wire bytes of a well-formed one-question query decode
/// back to that very query — the header's fields, the question's labels,
/// its record type and its class alike.  The bytes are as
/// `serialize_bytes` makes them; well-formed means the name's labels end
/// with the empty root label, every other label holds 1 to 63 ASCII bytes,
/// and the class is the Internet class.
pub proof fn lemma_query_round_trip(sm: SpecMessage, bytes: Seq<u8>)
    requires
        sm.header == spec_query_header(sm.header.id),
        sm.question.len() == 1,
        spec_wf_query_labels(sm.question[0].labels),
        sm.question[0].record_qclass == Class::IN,
        sm.answer.len() == 0,
        sm.authority.len() == 0,
        sm.additional.len() == 0,
        bytes.len() == 12 + spec_questions_wire(sm.question).len(),
        all_bits(bytes) == spec_header_bits(sm.header) + all_bits(
            spec_questions_wire(sm.question),
        ),
    ensures
        spec_parse_message(bytes) == Ok::<SpecMessage, DnsError>(sm),
{
    let h = sm.header;
    let q = sm.question[0];
    let hb = spec_header_bits(h);
    let w = spec_questions_wire(sm.question);
    let qw = spec_question_wire(q);
    let nw = spec_qname_wire(q.labels);
    let tw = spec_u16_bytes(q.record_type.spec_code());
    let cw = spec_u16_bytes(q.record_qclass.spec_code());
    assert(hb.len() == 96);
    assert(sm.question.drop_first() =~= Seq::<SpecQuestion>::empty());
    assert(w == qw + spec_questions_wire(sm.question.drop_first()));
    assert(w =~= qw);
    assert(qw == nw + tw + cw);
    // The first 96 bits hold the header's bit pattern.
    assert forall|i: int| 0 <= i < 96 implies #[trigger] spec_bit(bytes, i) == hb[i] by {
        assert(all_bits(bytes)[i] == spec_bit(bytes, i));
        assert((hb + all_bits(w))[i] == hb[i]);
    }
    lemma_header_round_trip(bytes, h);
    assert(spec_parse_header(bytes) == Ok::<Header, DnsError>(h));
    // The bytes from position 12 on are the question's wire form.
    assert forall|i: int| 0 <= i < 8 * w.len() implies #[trigger] spec_bit(bytes, 8 * 12 + i)
        == spec_bit(w, i) by {
        assert(all_bits(bytes)[96 + i] == spec_bit(bytes, 96 + i));
        assert((hb + all_bits(w))[96 + i] == all_bits(w)[i]);
        assert(all_bits(w)[i] == spec_bit(w, i));
    }
    lemma_bits_determine_bytes(bytes, w, 12, 0, w.len() as int);
    assert(w.subrange(0, w.len() as int) =~= w);
    let sub = bytes.subrange(12, 12 + w.len() as int);
    assert(sub == w);
    assert forall|j: int| 0 <= j < w.len() implies #[trigger] bytes[12 + j] == w[j] by {
        assert(sub[j] == bytes[12 + j]);
    }
    // The name at position 12 decodes to the question's labels.
    assert(bytes.subrange(12, 12 + nw.len() as int) =~= nw) by {
        assert forall|j: int| 0 <= j < nw.len() implies #[trigger] bytes.subrange(
            12,
            12 + nw.len() as int,
        )[j] == nw[j] by {
            assert(bytes.subrange(12, 12 + nw.len() as int)[j] == bytes[12 + j]);
            assert(w[j] == qw[j]);
            assert(qw[j] == (nw + tw)[j]);
            assert((nw + tw)[j] == nw[j]);
        }
    }
    lemma_qname_wire_parses(bytes, 12, q.labels, MAX_POINTER_DEPTH as nat);
    let p = 12 + nw.len() as int;
    assert(spec_parse_name(bytes, 12, MAX_POINTER_DEPTH as nat) == Ok::<
        (Seq<Seq<char>>, int),
        DnsError,
    >((q.labels, p)));
    // The type tag follows the name.
    assert(bytes[p] == tw[0] && bytes[p + 1] == tw[1]) by {
        assert(w[nw.len() as int] == qw[nw.len() as int]);
        assert(qw[nw.len() as int] == (nw + tw)[nw.len() as int]);
        assert(w[nw.len() as int + 1] == qw[nw.len() as int + 1]);
        assert(qw[nw.len() as int + 1] == (nw + tw)[nw.len() as int + 1]);
    }
    lemma_u16_bytes_value(q.record_type.spec_code());
    assert(spec_u16_at(bytes, p) == q.record_type.spec_code());
    assert(RecordType::spec_of_code(q.record_type.spec_code()) == Some(q.record_type));
    // The class tag follows the type.
    assert(bytes[p + 2] == cw[0] && bytes[p + 3] == cw[1]) by {
        assert(w[nw.len() as int + 2] == qw[nw.len() as int + 2]);
        assert(qw[nw.len() as int + 2] == cw[0]);
        assert(w[nw.len() as int + 3] == qw[nw.len() as int + 3]);
        assert(qw[nw.len() as int + 3] == cw[1]);
    }
    lemma_u16_bytes_value(q.record_qclass.spec_code());
    assert(spec_u16_at(bytes, p + 2) == q.record_qclass.spec_code());
    assert(Class::spec_of_code(q.record_qclass.spec_code()) == Some(Class::IN));
    assert(p + 4 <= bytes.len());
    assert(spec_parse_question(bytes, 12) == Ok::<(SpecQuestion, int), DnsError>(
        (
            SpecQuestion {
                labels: q.labels,
                record_type: q.record_type,
                record_qclass: Class::IN,
            },
            p + 4,
        ),
    ));
    assert(SpecQuestion { labels: q.labels, record_type: q.record_type, record_qclass: Class::IN }
        == q);
    // One question, no records: the sections assemble into the query.
    assert(h.question_count == 1 && h.answer_count == 0 && h.name_server_count == 0
        && h.additional_records_count == 0);
    assert(spec_parse_questions(bytes, p + 4, 0) == Ok::<(Seq<SpecQuestion>, int), DnsError>(
        (Seq::empty(), p + 4),
    ));
    assert(spec_parse_questions(bytes, 12, 1) == Ok::<(Seq<SpecQuestion>, int), DnsError>(
        (seq![q] + Seq::empty(), p + 4),
    ));
    assert(seq![q] + Seq::<SpecQuestion>::empty() =~= sm.question);
    assert(spec_parse_records(bytes, p + 4, 0) == Ok::<(Seq<SpecRecord>, int), DnsError>(
        (Seq::empty(), p + 4),
    ));
    assert(sm.answer =~= Seq::<SpecRecord>::empty());
    assert(sm.authority =~= Seq::<SpecRecord>::empty());
    assert(sm.additional =~= Seq::<SpecRecord>::empty());
    assert(spec_parse_message(bytes) == Ok::<SpecMessage, DnsError>(
        SpecMessage {
            header: h,
            question: seq![q] + Seq::empty(),
            answer: Seq::empty(),
            authority: Seq::empty(),
            additional: Seq::empty(),
        },
    ));
}

} // verus!
