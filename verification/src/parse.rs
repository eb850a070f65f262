//! The name codec's decode side: length-prefixed labels, the zero-length
//! root label, and compression pointers that reference earlier offsets of
//! the whole message buffer.

use vstd::prelude::*;

use crate::message::parser_utils::read_bytes;
use crate::util::ascii_to_string;
use crate::DnsError;

verus! {

/// How many compression pointers one name may chase before decoding fails.
pub const MAX_POINTER_DEPTH: u8 = 32;

/// What reading one label at byte position `pos` yields: its characters and
/// the position just past it.  A length byte of 64 or more is reserved, a
/// label running past the end of the buffer is malformed, and labels are
/// ASCII-only.
pub open spec fn spec_parse_label(msg: Seq<u8>, pos: int) -> Result<(Seq<char>, int), DnsError> {
    if pos < 0 || pos >= msg.len() {
        Err(DnsError::Truncated)
    } else {
        let len = msg[pos];
        if len >= 64 {
            Err(DnsError::FormatError)
        } else if pos + 1 + len > msg.len() {
            Err(DnsError::FormatError)
        } else {
            let bytes = msg.subrange(pos + 1, pos + 1 + len);
            if exists|i: int| 0 <= i < bytes.len() && bytes[i] >= 128 {
                Err(DnsError::FormatError)
            } else {
                Ok((bytes.map_values(|b: u8| b as char), pos + 1 + len))
            }
        }
    }
}

/// What reading a plain label sequence at `pos` yields: labels up to and
/// including the zero-length terminal label, with no pointer following.
pub open spec fn spec_parse_labels_then_zero(msg: Seq<u8>, pos: int) -> Result<
    (Seq<Seq<char>>, int),
    DnsError,
>
    decreases msg.len() - pos,
{
    match spec_parse_label(msg, pos) {
        Ok((label, end)) => {
            if label.len() == 0 {
                Ok((seq![label], end))
            } else {
                match spec_parse_labels_then_zero(msg, end) {
                    Ok((rest, end2)) => Ok((seq![label] + rest, end2)),
                    Err(e) => Err(e),
                }
            }
        },
        Err(e) => Err(e),
    }
}

/// What decoding a whole name at byte position `pos` of the message yields,
/// with `depth` pointer chases left.
///
/// A byte with both high bits set starts a two-byte compression pointer; its
/// low 14 bits are an absolute offset, which must lie strictly before the
/// pointer itself, and the name continues there — a pointer always ends the
/// label sequence.  A zero byte is the root label and ends the name.  Any
/// other byte below 64 begins a literal label.  A pointer that does not
/// point strictly backwards, or a chain of pointers longer than `depth`, is
/// malformed: decoding rejects it rather than chase it forever.
pub open spec fn spec_parse_name(msg: Seq<u8>, pos: int, depth: nat) -> Result<
    (Seq<Seq<char>>, int),
    DnsError,
>
    decreases depth, msg.len() - pos,
{
    if pos < 0 || pos >= msg.len() {
        Err(DnsError::Truncated)
    } else {
        let b = msg[pos];
        if b >= 192 {
            if pos + 1 >= msg.len() {
                Err(DnsError::Truncated)
            } else {
                let target = (b - 192) * 256 + msg[pos + 1];
                if depth == 0 {
                    Err(DnsError::FormatError)
                } else if target >= pos {
                    Err(DnsError::FormatError)
                } else {
                    match spec_parse_name(msg, target as int, (depth - 1) as nat) {
                        Ok((labels, _)) => Ok((labels, pos + 2)),
                        Err(e) => Err(e),
                    }
                }
            }
        } else if b == 0 {
            Ok((seq![Seq::<char>::empty()], pos + 1))
        } else {
            match spec_parse_label(msg, pos) {
                Ok((label, end)) => match spec_parse_name(msg, end, depth) {
                    Ok((rest, end2)) => Ok((seq![label] + rest, end2)),
                    Err(e) => Err(e),
                },
                Err(e) => Err(e),
            }
        }
    }
}

/// Pointer safety: a compression pointer whose target offset is not
/// strictly before the pointer itself is rejected as malformed — never
/// chased, so a self-referencing or forward-referencing pointer cannot make
/// decoding loop.
pub proof fn lemma_forward_pointer_rejected(msg: Seq<u8>, pos: int, depth: nat)
    requires
        0 <= pos,
        pos + 1 < msg.len(),
        msg[pos] >= 192,
        (msg[pos] - 192) * 256 + msg[pos + 1] >= pos,
    ensures
        spec_parse_name(msg, pos, depth) == Err::<(Seq<Seq<char>>, int), DnsError>(
            DnsError::FormatError,
        ),
{
}

/// Pointer safety: with the chase budget spent, one more pointer is
/// rejected as malformed, so a backward-pointing chain longer than the
/// budget cannot make decoding recurse without bound.
pub proof fn lemma_pointer_depth_exhausted(msg: Seq<u8>, pos: int)
    requires
        0 <= pos,
        pos + 1 < msg.len(),
        msg[pos] >= 192,
    ensures
        spec_parse_name(msg, pos, 0) == Err::<(Seq<Seq<char>>, int), DnsError>(
            DnsError::FormatError,
        ),
{
}

/// A name's error propagates through the literal labels before it: when a
/// literal label reads cleanly but the rest of the name fails — a bad
/// pointer among the rest included — the whole name fails with the same
/// error.
pub proof fn lemma_name_error_propagates(
    msg: Seq<u8>,
    pos: int,
    depth: nat,
    label: Seq<char>,
    end: int,
    e: DnsError,
)
    requires
        spec_parse_label(msg, pos) == Ok::<(Seq<char>, int), DnsError>((label, end)),
        label.len() >= 1,
        spec_parse_name(msg, end, depth) == Err::<(Seq<Seq<char>>, int), DnsError>(e),
    ensures
        spec_parse_name(msg, pos, depth) == Err::<(Seq<Seq<char>>, int), DnsError>(e),
{
    assert(0 <= pos < msg.len());
    assert(msg[pos] < 64);
    assert(msg[pos] == label.len());
}

/// Reads one byte as a length, then that many following bytes as an ASCII
/// label.
pub fn parse_label(msg: &Vec<u8>, pos: usize) -> (r: Result<(String, usize), DnsError>)
    ensures
        match r {
            Ok((label, end)) => {
                &&& spec_parse_label(msg@, pos as int) == Ok::<_, DnsError>((label@, end as int))
                &&& label@.len() <= 63
                &&& pos < end <= msg@.len()
            },
            Err(e) => spec_parse_label(msg@, pos as int) == Err::<(Seq<char>, int), _>(e),
        },
{
    if pos >= msg.len() {
        return Err(DnsError::Truncated);
    }
    let len = msg[pos];
    if len >= 64 {
        return Err(DnsError::FormatError);
    }
    if (len as usize) > msg.len() - (pos + 1) {
        return Err(DnsError::FormatError);
    }
    let (bytes, end) = match read_bytes(msg, pos + 1, len as usize) {
        Ok(v) => v,
        Err(_) => {
            return Err(DnsError::FormatError);
        },
    };
    let mut i: usize = 0;
    while i < bytes.len()
        invariant
            i <= bytes@.len(),
            pos < msg@.len(),
            msg@[pos as int] == len,
            len < 64,
            pos + 1 + len <= msg@.len(),
            bytes@ == msg@.subrange(pos + 1, pos + 1 + len),
            forall|j: int| 0 <= j < i ==> bytes@[j] < 128,
        decreases bytes@.len() - i,
    {
        if bytes[i] >= 128 {
            proof {
                let sub = msg@.subrange(pos + 1, pos + 1 + msg@[pos as int]);
                assert(sub =~= bytes@);
                assert(exists|j: int| 0 <= j < sub.len() && sub[j] >= 128) by {
                    assert(sub[i as int] >= 128);
                }
            }
            return Err(DnsError::FormatError);
        }
        i = i + 1;
    }
    let ghost byte_seq = bytes@;
    let label = ascii_to_string(bytes);
    proof {
        let sub = msg@.subrange(pos + 1, pos + 1 + msg@[pos as int]);
        assert(sub =~= byte_seq);
        assert(!(exists|j: int| 0 <= j < sub.len() && sub[j] >= 128));
        assert(label@ =~= sub.map_values(|b: u8| b as char));
    }
    Ok((label, end))
}

/// Matches a sequence of labels terminated by a zero-length label, without
/// following compression pointers.
pub fn parse_labels_then_zero(msg: &Vec<u8>, pos: usize) -> (r: Result<
    (Vec<String>, usize),
    DnsError,
>)
    ensures
        match r {
            Ok((labels, end)) => {
                &&& spec_parse_labels_then_zero(msg@, pos as int) == Ok::<_, DnsError>(
                    (labels.deep_view(), end as int),
                )
                &&& pos < end <= msg@.len()
            },
            Err(e) => spec_parse_labels_then_zero(msg@, pos as int) == Err::<
                (Seq<Seq<char>>, int),
                _,
            >(e),
        },
    decreases msg@.len() - pos,
{
    let (label, end) = match parse_label(msg, pos) {
        Ok(v) => v,
        Err(e) => {
            return Err(e);
        },
    };
    if label.as_str().unicode_len() == 0 {
        let mut labels: Vec<String> = Vec::new();
        labels.push(label);
        proof {
            assert(labels.deep_view() =~= seq![labels@[0]@]);
        }
        Ok((labels, end))
    } else {
        match parse_labels_then_zero(msg, end) {
            Ok((mut rest, end2)) => {
                let ghost rest_view = rest.deep_view();
                rest.insert(0, label);
                proof {
                    assert(rest.deep_view() =~= seq![rest@[0]@] + rest_view);
                }
                Ok((rest, end2))
            },
            Err(e) => Err(e),
        }
    }
}

/// Decodes a whole name at byte position `pos` of the message, following
/// compression pointers, with `depth` chases left.
pub fn parse_name(msg: &Vec<u8>, pos: usize, depth: u8) -> (r: Result<
    (Vec<String>, usize),
    DnsError,
>)
    ensures
        match r {
            Ok((labels, end)) => {
                &&& spec_parse_name(msg@, pos as int, depth as nat) == Ok::<_, DnsError>(
                    (labels.deep_view(), end as int),
                )
                &&& pos < end <= msg@.len()
            },
            Err(e) => spec_parse_name(msg@, pos as int, depth as nat) == Err::<
                (Seq<Seq<char>>, int),
                _,
            >(e),
        },
    decreases depth, msg@.len() - pos,
{
    if pos >= msg.len() {
        return Err(DnsError::Truncated);
    }
    let b = msg[pos];
    if b >= 192 {
        if pos + 1 >= msg.len() {
            return Err(DnsError::Truncated);
        }
        let target = ((b - 192) as usize) * 256 + (msg[pos + 1] as usize);
        if depth == 0 {
            return Err(DnsError::FormatError);
        }
        if target >= pos {
            return Err(DnsError::FormatError);
        }
        match parse_name(msg, target, depth - 1) {
            Ok((labels, _)) => Ok((labels, pos + 2)),
            Err(e) => Err(e),
        }
    } else if b == 0 {
        let mut labels: Vec<String> = Vec::new();
        labels.push(String::new());
        proof {
            assert(labels.deep_view() =~= seq![Seq::<char>::empty()]);
        }
        Ok((labels, pos + 1))
    } else {
        let (label, end) = match parse_label(msg, pos) {
            Ok(v) => v,
            Err(e) => {
                return Err(e);
            },
        };
        match parse_name(msg, end, depth) {
            Ok((mut rest, end2)) => {
                let ghost rest_view = rest.deep_view();
                rest.insert(0, label);
                proof {
                    assert(rest.deep_view() =~= seq![rest@[0]@] + rest_view);
                }
                Ok((rest, end2))
            },
            Err(e) => Err(e),
        }
    }
}

} // verus!
