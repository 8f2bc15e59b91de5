//! Domain names on the wire: a run of labels, each a length byte and that
//! many bytes of text, closed by a zero byte or by a compression pointer.

use crate::dns::buffer::{as_slice, get_u8, octets, put_u8};
use crate::dns::error::DnsError;
use crate::dns::text::text_of;
use bytes::BytesMut;
use vstd::prelude::*;
use vstd::slice::{slice_subrange, slice_to_vec};
use vstd::string::*;
use vstd::utf8::{decode_utf8, encode_utf8, is_ascii_chars, valid_utf8};

verus! {

/// The byte that parts the labels of a name: an ASCII dot.
pub const DOT: u8 = 0x2e;

/// The first length byte that is no length but the start of a pointer.
pub const POINTER_TAG: u8 = 0xc0;

/// The most bytes that a label may hold.
pub const MAX_LABEL_LEN: u8 = 63;

/// Where the first dot of `s` stands, or `s.len()` where it has none.
pub open spec fn first_dot(s: Seq<u8>) -> int
    decreases s.len(),
{
    if s.len() == 0 || s[0] == DOT {
        0
    } else {
        1 + first_dot(s.skip(1))
    }
}

/// The ASCII bytes of `s`, in their order.
pub open spec fn ascii_only(s: Seq<u8>) -> Seq<u8> {
    s.filter(|b: u8| b < 128)
}

/// A label can be written: it has no more ASCII bytes than a length byte
/// may count.
pub open spec fn label_fits(label: Seq<u8>) -> bool {
    ascii_only(label).len() <= MAX_LABEL_LEN
}

/// One label on the wire: the number of its ASCII bytes, then those bytes.
/// The number is a length byte where the label fits.
pub open spec fn wire_label(label: Seq<u8>) -> Seq<u8> {
    seq![ascii_only(label).len() as u8] + ascii_only(label)
}

/// Every label of `s` can be written. The labels are the stretches of `s`
/// between its dots; where `s` is empty or ends in a dot, the last label is
/// empty.
pub open spec fn labels_fit(s: Seq<u8>) -> bool
    decreases s.len(),
{
    let k = first_dot(s);
    if 0 <= k < s.len() {
        label_fits(s.take(k)) && labels_fit(s.skip(k + 1))
    } else {
        label_fits(s)
    }
}

/// The labels of `s` on the wire, one after the other.
pub open spec fn wire_labels(s: Seq<u8>) -> Seq<u8>
    decreases s.len(),
{
    let k = first_dot(s);
    if 0 <= k < s.len() {
        wire_label(s.take(k)) + wire_labels(s.skip(k + 1))
    } else {
        wire_label(s)
    }
}

/// A name on the wire, given the bytes of its text: its labels, then a zero
/// byte. The empty name, the root, has no labels.
pub open spec fn wire_name(s: Seq<u8>) -> Seq<u8> {
    if s.len() == 0 {
        seq![0u8]
    } else {
        wire_labels(s) + seq![0u8]
    }
}

/// What writing a name gives, given the bytes of its text: the name on the
/// wire where every label can be written, and a refusal where one cannot.
pub open spec fn name_encoding(s: Seq<u8>) -> Result<Seq<u8>, DnsError> {
    if labels_fit(s) {
        Ok(wire_name(s))
    } else {
        Err(DnsError::InvalidLabelEncoding)
    }
}

/// `s` is one or more labels parted by dots, each of one to 63 ASCII bytes.
pub open spec fn valid_labels(s: Seq<u8>) -> bool
    decreases s.len(),
{
    let k = first_dot(s);
    &&& 1 <= k <= MAX_LABEL_LEN
    &&& forall|i: int| 0 <= i < k ==> s[i] < 128
    &&& 0 <= k < s.len() ==> valid_labels(s.skip(k + 1))
}

/// `text` is a name that the wire can carry as it is: ASCII, and either
/// empty, which is the root, or labels of one to 63 characters parted by
/// single dots, with no dot at either end.
pub open spec fn valid_name(text: Seq<char>) -> bool {
    &&& is_ascii_chars(text)
    &&& text.len() > 0 ==> valid_labels(encode_utf8(text))
}

/// The bytes `s` as characters, one for one.
pub open spec fn ascii_text(s: Seq<u8>) -> Seq<char> {
    Seq::new(s.len(), |i: int| s[i] as char)
}

/// `first_dot` is the one index below which `s` has no dot and at which it
/// has one or ends.
pub proof fn lemma_first_dot(s: Seq<u8>, k: int)
    requires
        0 <= k <= s.len(),
        forall|i: int| 0 <= i < k ==> s[i] != DOT,
        k < s.len() ==> s[k] == DOT,
    ensures
        first_dot(s) == k,
    decreases s.len(),
{
    if k > 0 {
        lemma_first_dot(s.skip(1), k - 1);
    }
}

/// `first_dot` lies within `s`, on a dot or at the end, with none before.
pub proof fn lemma_first_dot_bounds(s: Seq<u8>)
    ensures
        0 <= first_dot(s) <= s.len(),
        first_dot(s) < s.len() ==> s[first_dot(s)] == DOT,
        forall|i: int| 0 <= i < first_dot(s) ==> s[i] != DOT,
    decreases s.len(),
{
    if s.len() != 0 && s[0] != DOT {
        lemma_first_dot_bounds(s.skip(1));
        assert forall|i: int| 0 <= i < first_dot(s) implies s[i] != DOT by {
            if i > 0 {
                assert(s[i] == s.skip(1)[i - 1]);
            }
        }
    }
}

/// One more byte is kept where it is ASCII.
proof fn lemma_ascii_only_push(s: Seq<u8>, b: u8)
    ensures
        ascii_only(s.push(b)) == if b < 128 {
            ascii_only(s).push(b)
        } else {
            ascii_only(s)
        },
{
    reveal(Seq::filter);
    assert(s.push(b).drop_last() =~= s);
}

/// What a name field held.
#[derive(Debug, Clone, PartialEq, Eq)]
pub enum NameResult {
    /// Labels up to the closing zero byte: the whole name, its labels
    /// joined by dots.
    LabelSequence(String),
    /// Labels up to a compression pointer: the text of those labels, and the
    /// offset in the message at which the name goes on.
    Pointer(String, u16),
}

/// A [`NameResult`] with its text as a sequence of characters.
pub enum NameView {
    LabelSequence(Seq<char>),
    Pointer(Seq<char>, u16),
}

impl View for NameResult {
    type V = NameView;

    open spec fn view(&self) -> NameView {
        match self {
            NameResult::LabelSequence(text) => NameView::LabelSequence(text@),
            NameResult::Pointer(text, offset) => NameView::Pointer(text@, *offset),
        }
    }
}

impl NameView {
    /// The text of the labels that were read.
    pub open spec fn text(self) -> Seq<char> {
        match self {
            NameView::LabelSequence(text) => text,
            NameView::Pointer(text, _) => text,
        }
    }

    /// The offset at which the name goes on, where it ended in a pointer.
    pub open spec fn pointer(self) -> Option<u16> {
        match self {
            NameView::LabelSequence(_) => None,
            NameView::Pointer(_, offset) => Some(offset),
        }
    }
}

/// The outcome of reading a name, with the name's text as characters.
pub open spec fn name_outcome(r: Result<NameResult, DnsError>) -> Result<NameView, DnsError> {
    match r {
        Ok(name) => Ok(name@),
        Err(e) => Err(e),
    }
}

/// The outcome of reading text, as characters.
pub open spec fn text_outcome(r: Result<String, DnsError>) -> Result<Seq<char>, DnsError> {
    match r {
        Ok(text) => Ok(text@),
        Err(e) => Err(e),
    }
}

/// `text` with one more label: after a dot, unless `text` is empty.
pub open spec fn join_label(text: Seq<char>, label: Seq<char>) -> Seq<char> {
    if text.len() == 0 {
        label
    } else {
        text + seq!['.'] + label
    }
}

/// The offset that the two bytes of a pointer hold: the low six bits of the
/// first, then the second.
pub open spec fn pointer_offset(tag: u8, low: u8) -> u16 {
    ((tag - POINTER_TAG) * 256 + low) as u16
}

/// What reading a name from the front of `s` gives, and the bytes left
/// after it; `text` is the text of the labels read before.
///
/// A length byte with its top two bits set starts a pointer, which ends the
/// name. A zero byte ends the name. Any other length byte is followed by
/// that many bytes of one label, which must be valid UTF-8.
pub open spec fn scan_name(s: Seq<u8>, text: Seq<char>) -> (Result<NameView, DnsError>, Seq<u8>)
    decreases s.len(),
{
    if s.len() == 0 {
        (Err(DnsError::TruncatedMessage), s)
    } else if s[0] >= POINTER_TAG {
        if s.len() < 2 {
            (Err(DnsError::TruncatedMessage), s.skip(1))
        } else {
            (Ok(NameView::Pointer(text, pointer_offset(s[0], s[1]))), s.skip(2))
        }
    } else if s[0] == 0 {
        (Ok(NameView::LabelSequence(text)), s.skip(1))
    } else if s.len() - 1 < s[0] {
        (Err(DnsError::InvalidLabelEncoding), s.skip(1))
    } else {
        let label = s.subrange(1, 1 + s[0]);
        if valid_utf8(label) {
            scan_name(s.skip(1 + s[0]), join_label(text, decode_utf8(label)))
        } else {
            (Err(DnsError::InvalidLabelEncoding), s.skip(1 + s[0]))
        }
    }
}

/// The name that goes on at `pos` in the message `s`, after the labels in
/// `text`: the labels from `pos` up to a zero byte, joined to `text`.
///
/// Nothing is read past the end of `s`, and a pointer among those labels is
/// not followed.
pub open spec fn read_labels(s: Seq<u8>, pos: int, text: Seq<char>) -> Result<Seq<char>, DnsError>
    decreases s.len() - pos,
{
    if pos < 0 || pos >= s.len() {
        Err(DnsError::TruncatedMessage)
    } else if s[pos] >= POINTER_TAG {
        Err(DnsError::UnsupportedCompressionChain)
    } else if s[pos] == 0 {
        Ok(text)
    } else if s.len() - pos - 1 < s[pos] {
        Err(DnsError::InvalidLabelEncoding)
    } else {
        let label = s.subrange(pos + 1, pos + 1 + s[pos]);
        if valid_utf8(label) {
            read_labels(s, pos + 1 + s[pos], join_label(text, decode_utf8(label)))
        } else {
            Err(DnsError::InvalidLabelEncoding)
        }
    }
}

/// The name that a pointer to `pos` leads to in the message `s`, after the
/// labels in `text`. A position at or past the end of `s` is out of range;
/// labels that run on to the end of `s` without a closing zero byte are
/// truncated.
pub open spec fn read_target(s: Seq<u8>, pos: int, text: Seq<char>) -> Result<Seq<char>, DnsError> {
    if pos >= s.len() {
        Err(DnsError::PointerOutOfRange)
    } else {
        read_labels(s, pos, text)
    }
}

/// The whole name that a pointer to `offset` stands for in the message
/// `s`, after the labels in `text`.
pub open spec fn resolve_pointer(s: Seq<u8>, text: Seq<char>, offset: u16) -> Result<
    Seq<char>,
    DnsError,
> {
    read_target(s, offset as int, text)
}

/// The room to set aside for a name of `num_labels` labels.
pub fn label_sequence_cap(num_labels: usize) -> (cap: usize)
    requires
        (num_labels + 1) * 8 + 1 <= usize::MAX,
    ensures
        cap == (num_labels + 1) * 8 + 1,
{
    ((num_labels + 1) * 8) + 1
}

/// Whether a length byte starts a compression pointer: its top two bits
/// are both set.
pub fn is_compressed(buf: u8) -> (r: bool)
    ensures
        r == (buf >= POINTER_TAG),
{
    assert((buf >> 6 == 3) == (buf >= 0xc0)) by (bit_vector);
    buf >> 6 == 0b11
}

/// The most dots of a name for which room is set aside before the name is
/// written: a name of more labels than the wire format allows gets none.
pub const MAX_DOTS_FOR_ROOM: usize = 127;

/// The outcome of writing a name aside, as the bytes written.
spec fn wire_outcome(r: Result<Vec<u8>, DnsError>) -> Result<Seq<u8>, DnsError> {
    match r {
        Ok(wire) => Ok(wire@),
        Err(e) => Err(e),
    }
}

/// The dots of `s`.
pub open spec fn dots_of(s: Seq<u8>) -> Seq<u8> {
    s.filter(|b: u8| b == DOT)
}

/// The number of dots in `bytes`.
fn count_dots(bytes: &[u8]) -> (n: usize)
    ensures
        n == dots_of(bytes@).len(),
{
    let mut n: usize = 0;
    let mut i: usize = 0;
    proof {
        reveal(Seq::filter);
        assert(bytes@.take(0) =~= Seq::<u8>::empty());
    }
    while i < bytes.len()
        invariant
            i <= bytes@.len(),
            n <= i,
            n == dots_of(bytes@.take(i as int)).len(),
        decreases bytes@.len() - i,
    {
        proof {
            reveal(Seq::filter);
            assert(bytes@.take(i + 1).drop_last() =~= bytes@.take(i as int));
        }
        if bytes[i] == DOT {
            n += 1;
        }
        i += 1;
    }
    assert(bytes@.take(i as int) =~= bytes@);
    n
}

/// Adds one label to `wire`: the bytes of `bytes` from `start` up to `end`.
/// A label that cannot be written leaves `wire` as it was.
fn push_wire_label(wire: &mut Vec<u8>, bytes: &[u8], start: usize, end: usize) -> (fits: bool)
    requires
        start <= end <= bytes@.len(),
    ensures
        fits == label_fits(bytes@.subrange(start as int, end as int)),
        fits ==> final(wire)@ == old(wire)@ + wire_label(bytes@.subrange(start as int, end as int)),
        !fits ==> final(wire)@ == old(wire)@,
{
    let ghost label = bytes@.subrange(start as int, end as int);
    let mut kept: Vec<u8> = Vec::new();
    let mut i = start;
    while i < end
        invariant
            start <= i <= end <= bytes@.len(),
            label == bytes@.subrange(start as int, end as int),
            kept@ == ascii_only(label.take(i - start)),
        decreases end - i,
    {
        let b = bytes[i];
        proof {
            lemma_ascii_only_push(label.take(i - start), b);
            assert(label.take(i - start).push(b) =~= label.take(i + 1 - start));
        }
        if b < 128 {
            kept.push(b);
        }
        i += 1;
    }
    assert(label.take(end - start) =~= label);
    if kept.len() > MAX_LABEL_LEN as usize {
        return false;
    }
    wire.push(kept.len() as u8);
    wire.append(&mut kept);
    assert(wire@ =~= old(wire)@ + wire_label(label));
    true
}

/// The name whose text has the bytes `bytes`, as it stands on the wire.
fn encode_name(bytes: &[u8]) -> (r: Result<Vec<u8>, DnsError>)
    ensures
        wire_outcome(r) == name_encoding(bytes@),
{
    let n = bytes.len();
    let mut wire: Vec<u8> = Vec::new();
    if n == 0 {
        proof {
            reveal(Seq::filter);
        }
        wire.push(0);
        assert(wire@ =~= wire_name(bytes@));
        return Ok(wire);
    }
    let mut start: usize = 0;
    assert(bytes@.skip(0) =~= bytes@);
    assert(wire@ + wire_labels(bytes@) =~= wire_labels(bytes@));
    loop
        invariant_except_break
            start <= n == bytes@.len(),
            labels_fit(bytes@.skip(start as int)) == labels_fit(bytes@),
            wire@ + wire_labels(bytes@.skip(start as int)) == wire_labels(bytes@),
        invariant
            0 < n == bytes@.len(),
        ensures
            labels_fit(bytes@),
            wire@ == wire_labels(bytes@),
        decreases n - start,
    {
        let ghost rest = bytes@.skip(start as int);
        let mut end = start;
        while end < n && bytes[end] != DOT
            invariant
                start <= end <= n == bytes@.len(),
                forall|i: int| start <= i < end ==> bytes@[i] != DOT,
            decreases n - end,
        {
            end += 1;
        }
        proof {
            lemma_first_dot(rest, end - start);
            assert(rest.take(end - start) =~= bytes@.subrange(start as int, end as int));
            if end == n {
                assert(rest =~= bytes@.subrange(start as int, end as int));
            } else {
                assert(rest.skip(end - start + 1) =~= bytes@.skip(end + 1));
            }
        }
        let ghost before = wire@;
        if !push_wire_label(&mut wire, bytes, start, end) {
            return Err(DnsError::InvalidLabelEncoding);
        }
        if end == n {
            break ;
        }
        proof {
            assert(before + wire_labels(rest) =~= wire@ + wire_labels(bytes@.skip(end + 1)));
        }
        start = end + 1;
    }
    wire.push(0);
    assert(wire@ =~= wire_name(bytes@));
    Ok(wire)
}

/// Writes the name `raw` to the back of `buf` as a run of labels and a
/// closing zero byte. The empty name is written as the closing zero byte
/// alone.
///
/// Of each label only the ASCII bytes are written, and the length byte
/// counts those. A name with a label of more than 63 such bytes is refused,
/// and `buf` is left as it was. So no length byte that is written can be
/// taken for a pointer.
pub fn put_label_sequence(buf: &mut BytesMut, raw: &str) -> (r: Result<(), DnsError>)
    ensures
        match name_encoding(raw.spec_bytes()) {
            Ok(wire) => r is Ok && octets(*final(buf)) == octets(*old(buf)) + wire,
            Err(e) => r == Err::<(), DnsError>(e) && octets(*final(buf)) == octets(*old(buf)),
        },
{
    let bytes = raw.as_bytes();
    let wire = encode_name(bytes)?;
    let dots = count_dots(bytes);
    if dots <= MAX_DOTS_FOR_ROOM {
        buf.reserve(label_sequence_cap(dots + 1));
    }
    let mut i: usize = 0;
    assert(wire@.take(0) =~= Seq::<u8>::empty());
    assert(octets(*buf) =~= octets(*old(buf)) + wire@.take(0));
    while i < wire.len()
        invariant
            i <= wire@.len(),
            octets(*buf) == octets(*old(buf)) + wire@.take(i as int),
        decreases wire@.len() - i,
    {
        put_u8(buf, wire[i]);
        assert(octets(*buf) =~= octets(*old(buf)) + wire@.take(i + 1));
        i += 1;
    }
    assert(wire@.take(i as int) =~= wire@);
    Ok(())
}

/// Takes `count` bytes from the front of `buf`.
pub(crate) fn take_bytes(buf: &mut BytesMut, count: usize) -> (taken: Vec<u8>)
    requires
        count <= octets(*old(buf)).len(),
    ensures
        taken@ == octets(*old(buf)).take(count as int),
        octets(*final(buf)) == octets(*old(buf)).skip(count as int),
{
    let ghost s = octets(*buf);
    let mut left = count;
    let mut taken: Vec<u8> = Vec::with_capacity(count);
    assert(s.skip(0) =~= s);
    while left != 0
        invariant
            left <= count <= s.len(),
            taken@ == s.take(count - left),
            octets(*buf) == s.skip(count - left),
        decreases left,
    {
        let b = get_u8(buf);
        taken.push(b);
        left -= 1;
        assert(taken@ =~= s.take(count - left));
        assert(octets(*buf) =~= s.skip(count - left));
    }
    taken
}

/// Adds `label` to `name`, after a dot where `name` holds text already.
fn push_label(name: &mut String, label: &str)
    ensures
        final(name)@ == join_label(old(name)@, label@),
{
    if !name.as_str().is_empty() {
        proof {
            reveal_strlit(".");
        }
        name.append(".");
        assert(name@ =~= old(name)@ + seq!['.']);
    }
    name.append(label);
}

/// Reads a name from the front of `buf`, up to its closing zero byte or up
/// to a compression pointer, and takes what it read out of `buf`.
///
/// A pointer is not followed here: the result holds its offset.
pub fn parse_name(buf: &mut BytesMut) -> (r: Result<NameResult, DnsError>)
    ensures
        name_outcome(r) == scan_name(octets(*old(buf)), Seq::empty()).0,
        octets(*final(buf)) == scan_name(octets(*old(buf)), Seq::empty()).1,
{
    let mut name = String::new();
    loop
        invariant
            scan_name(octets(*buf), name@) == scan_name(octets(*old(buf)), Seq::empty()),
        decreases octets(*buf).len(),
    {
        let ghost s = octets(*buf);
        if buf.len() < 1 {
            return Err(DnsError::TruncatedMessage);
        }
        let next = get_u8(buf);
        if is_compressed(next) {
            if buf.len() < 1 {
                return Err(DnsError::TruncatedMessage);
            }
            let low = get_u8(buf);
            assert(octets(*buf) =~= s.skip(2));
            let offset: u16 = (next - POINTER_TAG) as u16 * 256 + low as u16;
            return Ok(NameResult::Pointer(name, offset));
        } else if next == 0 {
            return Ok(NameResult::LabelSequence(name));
        } else {
            if buf.len() < next as usize {
                return Err(DnsError::InvalidLabelEncoding);
            }
            let l = take_bytes(buf, next as usize);
            assert(l@ =~= s.subrange(1, 1 + next));
            assert(octets(*buf) =~= s.skip(1 + next));
            match text_of(l) {
                Some(label) => {
                    push_label(&mut name, label.as_str());
                },
                None => {
                    return Err(DnsError::InvalidLabelEncoding);
                },
            }
        }
    }
}

/// Reads, in the whole message `buf`, the labels from `start_pos` up to a
/// zero byte and joins them to `existing`. `buf` is only looked at.
///
/// This is how the target of a compression pointer is read: with a
/// position of its own, within the message as it was received. A position
/// at or past the end of the message is out of range.
pub fn read_label_sequence(buf: &BytesMut, start_pos: usize, existing: String) -> (r: Result<
    String,
    DnsError,
>)
    ensures
        text_outcome(r) == read_target(octets(*buf), start_pos as int, existing@),
{
    let bytes = as_slice(buf);
    let n = bytes.len();
    if start_pos >= n {
        return Err(DnsError::PointerOutOfRange);
    }
    let mut name = existing;
    let mut pos = start_pos;
    loop
        invariant
            bytes@ == octets(*buf),
            n == bytes@.len(),
            start_pos < n,
            read_labels(bytes@, pos as int, name@) == read_labels(
                octets(*buf),
                start_pos as int,
                existing@,
            ),
        decreases n - pos,
    {
        if pos >= n {
            return Err(DnsError::TruncatedMessage);
        }
        let length = bytes[pos];
        if is_compressed(length) {
            return Err(DnsError::UnsupportedCompressionChain);
        }
        if length == 0 {
            return Ok(name);
        }
        if n - pos - 1 < length as usize {
            return Err(DnsError::InvalidLabelEncoding);
        }
        let start = pos + 1;
        let end = start + length as usize;
        let l = slice_to_vec(slice_subrange(bytes, start, end));
        match text_of(l) {
            Some(label) => {
                push_label(&mut name, label.as_str());
            },
            None => {
                return Err(DnsError::InvalidLabelEncoding);
            },
        }
        pos = end;
    }
}

/// Splits what `parse_name` gave into the text and the pointer.
pub(crate) fn name_parts(name: NameResult) -> (parts: (String, Option<u16>))
    ensures
        parts.0@ == name@.text(),
        parts.1 == name@.pointer(),
{
    match name {
        NameResult::LabelSequence(text) => (text, None),
        NameResult::Pointer(text, offset) => (text, Some(offset)),
    }
}

} // verus!
