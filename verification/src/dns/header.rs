//! The twelve bytes at the head of every message.

use crate::dns::buffer::{be16, get_u16, get_u8, octets, put_u16, put_u8, u16_be};
use crate::dns::error::DnsError;
use bytes::BytesMut;
use vstd::prelude::*;

verus! {

/// The number of bytes that a header takes on the wire.
pub const HEADER_LEN: usize = 12;

/// The response code "no error".
pub const NO_ERROR: u8 = 0;

/// The response code "format error": the message could not be read.
pub const FORMAT_ERROR: u8 = 1;

/// The response code "server failure": no answer could be had.
pub const SERVER_FAILURE: u8 = 2;

/// The response code "not implemented": the operation is not supported.
pub const NOT_IMPLEMENTED: u8 = 4;

/// The header of a message.
///
/// `operation_code` and `response_code` are four bits wide on the wire and
/// `reserved` is three: see [`Header::in_range`].
#[derive(Debug, Clone, Copy, PartialEq, Eq)]
pub struct Header {
    pub packet_identifier: u16,
    pub query_response_indicator: bool,
    pub operation_code: u8,
    pub authoritative_answer: bool,
    pub truncation: bool,
    pub recursion_desired: bool,
    pub recursion_available: bool,
    pub reserved: u8,
    pub response_code: u8,
    pub question_count: u16,
    pub answer_record_count: u16,
    pub authority_record_count: u16,
    pub additional_record_count: u16,
}

/// One flag as a bit.
pub open spec fn bit(flag: bool) -> u8 {
    if flag {
        1u8
    } else {
        0u8
    }
}

/// The first byte of flags: `QR<<7 | OPCODE<<3 | AA<<2 | TC<<1 | RD`.
pub open spec fn flags_high(h: Header) -> u8 {
    bit(h.query_response_indicator) << 7 | (h.operation_code & 0x0f) << 3 | bit(
        h.authoritative_answer,
    ) << 2 | bit(h.truncation) << 1 | bit(h.recursion_desired)
}

/// The second byte of flags: `RA<<7 | RCODE`, the three reserved bits
/// between them zero.
pub open spec fn flags_low(h: Header) -> u8 {
    bit(h.recursion_available) << 7 | (h.response_code & 0x0f)
}

/// The twelve bytes of `h` on the wire.
pub open spec fn header_wire(h: Header) -> Seq<u8> {
    u16_be(h.packet_identifier) + seq![flags_high(h), flags_low(h)] + u16_be(h.question_count)
        + u16_be(h.answer_record_count) + u16_be(h.authority_record_count) + u16_be(
        h.additional_record_count,
    )
}

/// The header that the first twelve bytes of `s` spell.
pub open spec fn header_of(s: Seq<u8>) -> Header {
    Header {
        packet_identifier: be16(s[0], s[1]),
        query_response_indicator: s[2] & 0x80 != 0,
        operation_code: (s[2] & 0x78) >> 3,
        authoritative_answer: s[2] & 0x04 != 0,
        truncation: s[2] & 0x02 != 0,
        recursion_desired: s[2] & 0x01 != 0,
        recursion_available: s[3] & 0x80 != 0,
        reserved: (s[3] & 0x70) >> 4,
        response_code: s[3] & 0x0f,
        question_count: be16(s[4], s[5]),
        answer_record_count: be16(s[6], s[7]),
        authority_record_count: be16(s[8], s[9]),
        additional_record_count: be16(s[10], s[11]),
    }
}

/// What reading a header from `s` gives, and the bytes left after it.
pub open spec fn scan_header(s: Seq<u8>) -> (Result<Header, DnsError>, Seq<u8>) {
    if s.len() < HEADER_LEN {
        (Err(DnsError::TruncatedMessage), s)
    } else {
        (Ok(header_of(s)), s.skip(HEADER_LEN as int))
    }
}

impl Header {
    /// Every field fits the bits that the wire gives it.
    pub open spec fn in_range(self) -> bool {
        &&& self.operation_code < 16
        &&& self.reserved < 8
        &&& self.response_code < 16
    }

    /// The header survives a trip over the wire: its fields are in range
    /// and the reserved bits, which are always written as zero, are zero.
    pub open spec fn wf(self) -> bool {
        self.in_range() && self.reserved == 0
    }

    /// The header as the wire carries it: the codes cut to their low four
    /// bits, the reserved bits zero. A header is its own canonical form
    /// exactly where it is well formed.
    pub open spec fn canonical(self) -> Header {
        Header {
            operation_code: self.operation_code & 0x0f,
            reserved: 0,
            response_code: self.response_code & 0x0f,
            ..self
        }
    }

    /// Writes the header as twelve bytes.
    ///
    /// Of `operation_code` and `response_code` the low four bits are
    /// written; the reserved bits are written as zero.
    pub fn to_bytes(&self) -> (buf: BytesMut)
        ensures
            octets(buf) == header_wire(*self),
    {
        let mut buf = BytesMut::with_capacity(96);
        put_u16(&mut buf, self.packet_identifier);
        let qr: u8 = if self.query_response_indicator { 1 } else { 0 };
        let aa: u8 = if self.authoritative_answer { 1 } else { 0 };
        let tc: u8 = if self.truncation { 1 } else { 0 };
        let rd: u8 = if self.recursion_desired { 1 } else { 0 };
        let ra: u8 = if self.recursion_available { 1 } else { 0 };
        put_u8(&mut buf, qr << 7 | (self.operation_code & 0x0f) << 3 | aa << 2 | tc << 1 | rd);
        put_u8(&mut buf, ra << 7 | (self.response_code & 0x0f));
        put_u16(&mut buf, self.question_count);
        put_u16(&mut buf, self.answer_record_count);
        put_u16(&mut buf, self.authority_record_count);
        put_u16(&mut buf, self.additional_record_count);
        assert(octets(buf) =~= header_wire(*self));
        buf
    }

    /// Reads a header from the front of `buf`.
    ///
    /// Any twelve bytes are a header. With fewer the message is truncated,
    /// and `buf` is left as it was.
    pub fn from_bytes(buf: &mut BytesMut) -> (r: Result<Header, DnsError>)
        ensures
            r == scan_header(octets(*old(buf))).0,
            octets(*final(buf)) == scan_header(octets(*old(buf))).1,
            r is Ok ==> r->Ok_0.in_range(),
    {
        if buf.len() < HEADER_LEN {
            return Err(DnsError::TruncatedMessage);
        }
        let ghost s = octets(*buf);
        let id = get_u16(buf);
        let flags1 = get_u8(buf);
        let flags2 = get_u8(buf);
        let question_count = get_u16(buf);
        let answer_record_count = get_u16(buf);
        let authority_record_count = get_u16(buf);
        let additional_record_count = get_u16(buf);
        assert(octets(*buf) =~= s.skip(12));
        assert((flags1 & 0x78) >> 3 < 16) by (bit_vector);
        assert((flags2 & 0x70) >> 4 < 8) by (bit_vector);
        assert(flags2 & 0x0f < 16) by (bit_vector);
        Ok(
            Header {
                packet_identifier: id,
                query_response_indicator: (flags1 & 0x80) != 0,
                operation_code: (flags1 & 0x78) >> 3,
                authoritative_answer: (flags1 & 0x04) != 0,
                truncation: (flags1 & 0x02) != 0,
                recursion_desired: (flags1 & 0x01) != 0,
                recursion_available: (flags2 & 0x80) != 0,
                reserved: (flags2 & 0x70) >> 4,
                response_code: flags2 & 0x0f,
                question_count,
                answer_record_count,
                authority_record_count,
                additional_record_count,
            },
        )
    }
}

} // verus!
