//! Questions: a name, a type and a class.

use crate::dns::buffer::{be16, bytes_outcome, get_u16, octets, put_u16, u16_be};
use crate::dns::error::DnsError;
use crate::dns::label::{
    name_encoding, name_parts, parse_name, put_label_sequence, read_label_sequence,
    resolve_pointer, scan_name, valid_name, wire_name,
};
use bytes::BytesMut;
use vstd::prelude::*;
use vstd::utf8::encode_utf8;

verus! {

/// One question of a message.
///
/// While a message is being read, a name may end in a compression pointer.
/// Then `name` holds the labels before the pointer and `pointer` the offset
/// at which the name goes on. In a question that is whole, `pointer` is
/// `None`.
#[derive(Debug, Clone, PartialEq, Eq)]
pub struct Question {
    pub name: String,
    pub qtype: u16,
    pub qclass: u16,
    pub pointer: Option<u16>,
}

/// A [`Question`] with its name as a sequence of characters.
pub struct QuestionView {
    pub name: Seq<char>,
    pub qtype: u16,
    pub qclass: u16,
    pub pointer: Option<u16>,
}

impl View for Question {
    type V = QuestionView;

    open spec fn view(&self) -> QuestionView {
        QuestionView {
            name: self.name@,
            qtype: self.qtype,
            qclass: self.qclass,
            pointer: self.pointer,
        }
    }
}

impl QuestionView {
    /// The question survives a trip over the wire: its name is whole and
    /// valid.
    pub open spec fn wf(self) -> bool {
        self.pointer is None && valid_name(self.name)
    }
}

/// The bytes of `q` on the wire: its name spelled out, its type, its class.
pub open spec fn question_wire(q: QuestionView) -> Seq<u8> {
    wire_name(encode_utf8(q.name)) + u16_be(q.qtype) + u16_be(q.qclass)
}

/// What writing `q` gives: its bytes where its name can be written, and a
/// refusal where not.
pub open spec fn question_encoding(q: QuestionView) -> Result<Seq<u8>, DnsError> {
    match name_encoding(encode_utf8(q.name)) {
        Ok(name) => Ok(name + u16_be(q.qtype) + u16_be(q.qclass)),
        Err(e) => Err(e),
    }
}

/// What reading a question from the front of `s` gives, and the bytes left
/// after it.
pub open spec fn scan_question(s: Seq<u8>) -> (Result<QuestionView, DnsError>, Seq<u8>) {
    let (name, rest) = scan_name(s, Seq::empty());
    match name {
        Err(e) => (Err(e), rest),
        Ok(name) => if rest.len() < 4 {
            (Err(DnsError::TruncatedMessage), rest)
        } else {
            (
                Ok(
                    QuestionView {
                        name: name.text(),
                        qtype: be16(rest[0], rest[1]),
                        qclass: be16(rest[2], rest[3]),
                        pointer: name.pointer(),
                    },
                ),
                rest.skip(4),
            )
        },
    }
}

/// `q` with its name made whole from the message `full`.
pub open spec fn resolve_question(q: QuestionView, full: Seq<u8>) -> Result<
    QuestionView,
    DnsError,
> {
    match q.pointer {
        None => Ok(q),
        Some(offset) => match resolve_pointer(full, q.name, offset) {
            Ok(name) => Ok(QuestionView { name, pointer: None, ..q }),
            Err(e) => Err(e),
        },
    }
}

/// The outcome of reading a question, with its name as characters.
pub open spec fn question_outcome(r: Result<Question, DnsError>) -> Result<
    QuestionView,
    DnsError,
> {
    match r {
        Ok(q) => Ok(q@),
        Err(e) => Err(e),
    }
}

impl Question {
    /// Writes the question: its name as labels, then type and class.
    ///
    /// The name is always spelled out, never written as a pointer: of a
    /// question whose name still ends in a pointer, the labels that it
    /// holds are written. A name with a label of more than 63 ASCII bytes
    /// is refused.
    pub fn to_bytes(&self) -> (r: Result<BytesMut, DnsError>)
        ensures
            bytes_outcome(r) == question_encoding(self@),
    {
        let mut buf = BytesMut::new();
        put_label_sequence(&mut buf, self.name.as_str())?;
        put_u16(&mut buf, self.qtype);
        put_u16(&mut buf, self.qclass);
        assert(octets(buf) =~= question_wire(self@));
        Ok(buf)
    }

    /// Reads a question from the front of `buf`.
    ///
    /// Where the name ends in a compression pointer, the question comes
    /// back with `pointer` set: see [`Question::update_pointer_from_full`].
    pub fn from_bytes(buf: &mut BytesMut) -> (r: Result<Question, DnsError>)
        ensures
            question_outcome(r) == scan_question(octets(*old(buf))).0,
            octets(*final(buf)) == scan_question(octets(*old(buf))).1,
    {
        let (name, pointer) = name_parts(parse_name(buf)?);
        if buf.len() < 4 {
            return Err(DnsError::TruncatedMessage);
        }
        let ghost rest = octets(*buf);
        let qtype = get_u16(buf);
        let qclass = get_u16(buf);
        assert(octets(*buf) =~= rest.skip(4));
        Ok(Question { name, qtype, qclass, pointer })
    }

    /// Makes the name whole: follows the pointer into `buf`, the whole
    /// message as it was received, and joins the labels found there to the
    /// labels read before.
    ///
    /// A question that is whole already stays as it is, and so does one
    /// whose pointer cannot be followed.
    pub fn update_pointer_from_full(&mut self, buf: &BytesMut) -> (r: Result<(), DnsError>)
        ensures
            match resolve_question(old(self)@, octets(*buf)) {
                Ok(q) => r is Ok && final(self)@ == q,
                Err(e) => r == Err::<(), DnsError>(e) && final(self)@ == old(self)@,
            },
    {
        match self.pointer {
            None => Ok(()),
            Some(offset) => {
                let name = read_label_sequence(buf, offset as usize, self.name.clone())?;
                self.name = name;
                self.pointer = None;
                Ok(())
            },
        }
    }
}

} // verus!
