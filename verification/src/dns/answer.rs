//! Resource records: a name, type, class, time to live and opaque data.

use crate::dns::buffer::{
    be16, be32, bytes_outcome, get_u16, get_u32, octets, put_u16, put_u32, u16_be, u32_be,
};
use crate::dns::error::DnsError;
use crate::dns::label::{
    name_encoding, name_parts, parse_name, put_label_sequence, read_label_sequence,
    resolve_pointer, scan_name, take_bytes, valid_name, wire_name,
};
use crate::dns::question::{Question, QuestionView};
use bytes::BytesMut;
use vstd::prelude::*;
use vstd::utf8::encode_utf8;

verus! {

/// The time to live, in seconds, of an answer made by
/// [`Answer::from_question`].
pub const PLACEHOLDER_TTL: u32 = 60;

/// The number of placeholder answers that [`Answer::from_question`] tells
/// apart by their last byte.
pub const MAX_PLACEHOLDERS: usize = 248;

/// The bytes that a record takes after its name and before its data: type,
/// class, time to live and the length of the data.
pub const RECORD_FIXED_LEN: usize = 10;

/// One resource record of a message.
///
/// `length` is the length that the record declares for `data`; in a record
/// that was read from the wire the two agree. `pointer` is as in
/// [`Question`].
#[derive(Debug, Clone, PartialEq, Eq)]
pub struct Answer {
    pub name: String,
    pub qtype: u16,
    pub qclass: u16,
    pub ttl: u32,
    pub length: u16,
    pub data: Vec<u8>,
    pub pointer: Option<u16>,
}

/// An [`Answer`] with its name as a sequence of characters and its data as
/// a sequence of bytes.
pub struct AnswerView {
    pub name: Seq<char>,
    pub qtype: u16,
    pub qclass: u16,
    pub ttl: u32,
    pub length: u16,
    pub data: Seq<u8>,
    pub pointer: Option<u16>,
}

impl View for Answer {
    type V = AnswerView;

    open spec fn view(&self) -> AnswerView {
        AnswerView {
            name: self.name@,
            qtype: self.qtype,
            qclass: self.qclass,
            ttl: self.ttl,
            length: self.length,
            data: self.data@,
            pointer: self.pointer,
        }
    }
}

impl AnswerView {
    /// The record survives a trip over the wire: its name is whole and
    /// valid, and it declares the length that its data have.
    pub open spec fn wf(self) -> bool {
        &&& self.pointer is None
        &&& valid_name(self.name)
        &&& self.data.len() == self.length
    }
}

/// The bytes of `a` on the wire: its name spelled out, type, class, time to
/// live, declared length, and the data.
pub open spec fn answer_wire(a: AnswerView) -> Seq<u8> {
    wire_name(encode_utf8(a.name)) + u16_be(a.qtype) + u16_be(a.qclass) + u32_be(a.ttl) + u16_be(
        a.length,
    ) + a.data
}

/// What writing `a` gives: its bytes where its name can be written, and a
/// refusal where not.
pub open spec fn answer_encoding(a: AnswerView) -> Result<Seq<u8>, DnsError> {
    match name_encoding(encode_utf8(a.name)) {
        Ok(name) => Ok(
            name + u16_be(a.qtype) + u16_be(a.qclass) + u32_be(a.ttl) + u16_be(a.length) + a.data,
        ),
        Err(e) => Err(e),
    }
}

/// What reading a record from the front of `s` gives, and the bytes left
/// after it. The data are exactly as many bytes as the record declares.
pub open spec fn scan_answer(s: Seq<u8>) -> (Result<AnswerView, DnsError>, Seq<u8>) {
    let (name, rest) = scan_name(s, Seq::empty());
    match name {
        Err(e) => (Err(e), rest),
        Ok(name) => if rest.len() < RECORD_FIXED_LEN {
            (Err(DnsError::TruncatedMessage), rest)
        } else {
            let length = be16(rest[8], rest[9]);
            if rest.len() - RECORD_FIXED_LEN < length {
                (Err(DnsError::TruncatedMessage), rest.skip(RECORD_FIXED_LEN as int))
            } else {
                (
                    Ok(
                        AnswerView {
                            name: name.text(),
                            qtype: be16(rest[0], rest[1]),
                            qclass: be16(rest[2], rest[3]),
                            ttl: be32(rest[4], rest[5], rest[6], rest[7]),
                            length,
                            data: rest.subrange(
                                RECORD_FIXED_LEN as int,
                                RECORD_FIXED_LEN + length,
                            ),
                            pointer: name.pointer(),
                        },
                    ),
                    rest.skip(RECORD_FIXED_LEN + length),
                )
            }
        },
    }
}

/// `a` with its name made whole from the message `full`.
pub open spec fn resolve_answer(a: AnswerView, full: Seq<u8>) -> Result<AnswerView, DnsError> {
    match a.pointer {
        None => Ok(a),
        Some(offset) => match resolve_pointer(full, a.name, offset) {
            Ok(name) => Ok(AnswerView { name, pointer: None, ..a }),
            Err(e) => Err(e),
        },
    }
}

/// The outcome of reading a record, with its name as characters.
pub open spec fn answer_outcome(r: Result<Answer, DnsError>) -> Result<AnswerView, DnsError> {
    match r {
        Ok(a) => Ok(a@),
        Err(e) => Err(e),
    }
}

/// The answer that stands in for a real one: the name, type and class of
/// `q`, a fixed time to live, and four bytes of data of which the last
/// tells the answers of one message apart.
pub open spec fn placeholder_answer(i: u8, q: QuestionView) -> AnswerView {
    AnswerView {
        name: q.name,
        qtype: q.qtype,
        qclass: q.qclass,
        ttl: PLACEHOLDER_TTL,
        length: 4,
        data: seq![8u8, 8u8, 8u8, (8 + i) as u8],
        pointer: None,
    }
}

impl Answer {
    /// A placeholder answer to `q`, the `i`-th of its message.
    pub fn from_question(i: u8, q: &Question) -> (a: Answer)
        requires
            i < MAX_PLACEHOLDERS,
        ensures
            a@ == placeholder_answer(i, q@),
    {
        let mut data: Vec<u8> = Vec::with_capacity(4);
        data.push(0x8);
        data.push(0x8);
        data.push(0x8);
        data.push(0x8 + i);
        assert(data@ =~= seq![8u8, 8u8, 8u8, (8 + i) as u8]);
        Answer {
            name: q.name.clone(),
            qtype: q.qtype,
            qclass: q.qclass,
            ttl: PLACEHOLDER_TTL,
            length: 4,
            data,
            pointer: None,
        }
    }

    /// Writes the record: its name as labels, then type, class, time to
    /// live, the declared length, and the data.
    ///
    /// The name must be whole; it is always spelled out, never written as a
    /// pointer. A name with a label of more than 63 ASCII bytes is refused.
    pub fn to_bytes(&self) -> (r: Result<BytesMut, DnsError>)
        requires
            self.pointer is None,
        ensures
            bytes_outcome(r) == answer_encoding(self@),
    {
        let mut buf = BytesMut::new();
        put_label_sequence(&mut buf, self.name.as_str())?;
        buf.reserve(RECORD_FIXED_LEN);
        put_u16(&mut buf, self.qtype);
        put_u16(&mut buf, self.qclass);
        put_u32(&mut buf, self.ttl);
        put_u16(&mut buf, self.length);
        buf.extend_from_slice(self.data.as_slice());
        assert(octets(buf) =~= answer_wire(self@));
        Ok(buf)
    }

    /// Reads a record from the front of `buf`: the name, the fixed fields,
    /// and as many bytes of data as the record declares.
    ///
    /// Where the name ends in a compression pointer, the record comes back
    /// with `pointer` set: see [`Answer::update_pointer_from_full`].
    pub fn from_bytes(buf: &mut BytesMut) -> (r: Result<Answer, DnsError>)
        ensures
            answer_outcome(r) == scan_answer(octets(*old(buf))).0,
            octets(*final(buf)) == scan_answer(octets(*old(buf))).1,
            r matches Ok(a) ==> a.data@.len() == a.length,
    {
        let (name, pointer) = name_parts(parse_name(buf)?);
        if buf.len() < RECORD_FIXED_LEN {
            return Err(DnsError::TruncatedMessage);
        }
        let ghost rest = octets(*buf);
        let qtype = get_u16(buf);
        let qclass = get_u16(buf);
        let ttl = get_u32(buf);
        let length = get_u16(buf);
        assert(octets(*buf) =~= rest.skip(10));
        if buf.len() < length as usize {
            return Err(DnsError::TruncatedMessage);
        }
        let data = take_bytes(buf, length as usize);
        assert(data@ =~= rest.subrange(10, 10 + length));
        assert(octets(*buf) =~= rest.skip(10 + length));
        Ok(Answer { name, qtype, qclass, ttl, length, data, pointer })
    }

    /// Makes the name whole: follows the pointer into `buf`, the whole
    /// message as it was received, and joins the labels found there to the
    /// labels read before.
    ///
    /// A record that is whole already stays as it is, and so does one whose
    /// pointer cannot be followed.
    pub fn update_pointer_from_full(&mut self, buf: &BytesMut) -> (r: Result<(), DnsError>)
        ensures
            match resolve_answer(old(self)@, octets(*buf)) {
                Ok(a) => r is Ok && final(self)@ == a,
                Err(e) => r == Err::<(), DnsError>(e) && final(self)@ == old(self)@,
            },
    {
        match self.pointer {
            None => Ok(()),
            Some(offset) => {
                let name = read_label_sequence(buf, offset as usize, self.name.clone())?;
                self.name = name;
                self.pointer = None;
                Ok(())
            },
        }
    }
}

} // verus!
