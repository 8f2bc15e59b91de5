//! The byte buffer that messages are read from and written to.
//!
//! `bytes::BytesMut` is a queue of bytes: reading takes from its front,
//! writing adds at its back. Verus cannot look inside it, so this module
//! names what it holds and states, for each of its operations that the codec
//! uses, what the `bytes` crate documents of it. None of these contracts is
//! proved; everything else in the crate is proved from them.
//!
//! As vstd does for `Vec`, the contracts take memory to be there: a buffer
//! that cannot grow any further panics or aborts, and no contract says when.

use crate::dns::error::DnsError;
use bytes::{Buf, BufMut, BytesMut};
use vstd::prelude::*;

verus! {

#[verifier::external_type_specification]
#[verifier::external_body]
pub struct ExBytesMut(BytesMut);

/// The bytes that `buf` holds, the next one to be read first.
pub uninterp spec fn octets(buf: BytesMut) -> Seq<u8>;

/// The outcome of writing, with the buffer as the bytes that it holds.
pub open spec fn bytes_outcome(r: Result<BytesMut, DnsError>) -> Result<Seq<u8>, DnsError> {
    match r {
        Ok(buf) => Ok(octets(buf)),
        Err(e) => Err(e),
    }
}

/// The two bytes of `n`, most significant first.
pub open spec fn u16_be(n: u16) -> Seq<u8> {
    seq![(n / 256) as u8, (n % 256) as u8]
}

/// The four bytes of `n`, most significant first.
pub open spec fn u32_be(n: u32) -> Seq<u8> {
    seq![
        (n / 0x100_0000) as u8,
        (n / 0x1_0000 % 256) as u8,
        (n / 256 % 256) as u8,
        (n % 256) as u8,
    ]
}

/// The number whose big-endian bytes are `hi`, `lo`.
pub open spec fn be16(hi: u8, lo: u8) -> u16 {
    (hi as int * 256 + lo as int) as u16
}

/// The number whose big-endian bytes are `b0` to `b3`.
pub open spec fn be32(b0: u8, b1: u8, b2: u8, b3: u8) -> u32 {
    (b0 as int * 0x100_0000 + b1 as int * 0x1_0000 + b2 as int * 256 + b3 as int) as u32
}

/// `BytesMut::new`: a buffer that holds no bytes.
pub assume_specification[ BytesMut::new ]() -> (buf: BytesMut)
    ensures
        octets(buf) == Seq::<u8>::empty(),
;

/// `BytesMut::with_capacity`: a buffer that holds no bytes, whatever room
/// was asked for.
pub assume_specification[ BytesMut::with_capacity ](capacity: usize) -> (buf: BytesMut)
    ensures
        octets(buf) == Seq::<u8>::empty(),
;

/// `BytesMut::len`: the number of bytes held.
pub assume_specification[ BytesMut::len ](buf: &BytesMut) -> (n: usize)
    ensures
        n == octets(*buf).len(),
;

/// `BytesMut::reserve`: makes room and leaves the bytes held as they are.
pub assume_specification[ BytesMut::reserve ](buf: &mut BytesMut, additional: usize)
    ensures
        octets(*final(buf)) == octets(*old(buf)),
;

/// `BytesMut::extend_from_slice`: adds the bytes of `extend` at the back.
pub assume_specification[ BytesMut::extend_from_slice ](buf: &mut BytesMut, extend: &[u8])
    ensures
        octets(*final(buf)) == octets(*old(buf)) + extend@,
;

/// `BytesMut::clone`: a buffer of its own that holds the same bytes.
pub assume_specification[ <BytesMut as Clone>::clone ](buf: &BytesMut) -> (copy: BytesMut)
    ensures
        octets(copy) == octets(*buf),
;

/// `AsRef::as_ref` of a `BytesMut`: the bytes held, as a slice.
#[verifier::external_body]
pub(crate) fn as_slice(buf: &BytesMut) -> (s: &[u8])
    ensures
        s@ == octets(*buf),
{
    buf.as_ref()
}

/// `Buf::get_u8`: takes one byte from the front. It panics on an empty
/// buffer, which `requires` leaves out.
#[verifier::external_body]
pub(crate) fn get_u8(buf: &mut BytesMut) -> (n: u8)
    requires
        octets(*old(buf)).len() >= 1,
    ensures
        n == octets(*old(buf))[0],
        octets(*final(buf)) == octets(*old(buf)).skip(1),
{
    buf.get_u8()
}

/// `Buf::get_u16`: takes two bytes from the front and reads them as a
/// big-endian number. It panics where fewer than two are held.
#[verifier::external_body]
pub(crate) fn get_u16(buf: &mut BytesMut) -> (n: u16)
    requires
        octets(*old(buf)).len() >= 2,
    ensures
        n == be16(octets(*old(buf))[0], octets(*old(buf))[1]),
        octets(*final(buf)) == octets(*old(buf)).skip(2),
{
    buf.get_u16()
}

/// `Buf::get_u32`: takes four bytes from the front and reads them as a
/// big-endian number. It panics where fewer than four are held.
#[verifier::external_body]
pub(crate) fn get_u32(buf: &mut BytesMut) -> (n: u32)
    requires
        octets(*old(buf)).len() >= 4,
    ensures
        n == be32(
            octets(*old(buf))[0],
            octets(*old(buf))[1],
            octets(*old(buf))[2],
            octets(*old(buf))[3],
        ),
        octets(*final(buf)) == octets(*old(buf)).skip(4),
{
    buf.get_u32()
}

/// `BufMut::put_u8`: adds one byte at the back.
#[verifier::external_body]
pub(crate) fn put_u8(buf: &mut BytesMut, n: u8)
    ensures
        octets(*final(buf)) == octets(*old(buf)).push(n),
{
    buf.put_u8(n)
}

/// `BufMut::put_u16`: adds the two bytes of `n` at the back, most
/// significant first.
#[verifier::external_body]
pub(crate) fn put_u16(buf: &mut BytesMut, n: u16)
    ensures
        octets(*final(buf)) == octets(*old(buf)) + u16_be(n),
{
    buf.put_u16(n)
}

/// `BufMut::put_u32`: adds the four bytes of `n` at the back, most
/// significant first.
#[verifier::external_body]
pub(crate) fn put_u32(buf: &mut BytesMut, n: u32)
    ensures
        octets(*final(buf)) == octets(*old(buf)) + u32_be(n),
{
    buf.put_u32(n)
}

} // verus!
