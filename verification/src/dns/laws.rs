//! What holds of the codec as a whole: that reading undoes writing, that
//! writing never compresses, and that splitting and merging keep every
//! question and answer in its place.

use crate::dns::answer::{answer_encoding, answer_wire, scan_answer, AnswerView};
use crate::dns::buffer::{be16, be32, u16_be, u32_be};
use crate::dns::error::DnsError;
use crate::dns::forward::{
    all_answers, all_questions, merged, single_request, total_answers, total_questions,
};
use crate::dns::header::{flags_high, flags_low, header_of, header_wire, scan_header, Header};
use crate::dns::label::{
    ascii_only, ascii_text, first_dot, join_label, label_fits, labels_fit,
    lemma_first_dot_bounds, name_encoding, read_labels, resolve_pointer, scan_name, valid_labels,
    valid_name, wire_labels, wire_name, NameView, DOT,
};
use crate::dns::question::{question_encoding, question_wire, scan_question, QuestionView};
use crate::dns::record::{
    answers_encoding, answers_wire, questions_encoding, questions_wire, record_encoding,
    record_wire, scan_answers, scan_questions, scan_record, RecordView,
};
use vstd::prelude::*;
use vstd::utf8::{
    decode_utf8, encode_utf8, encode_utf8_decode_utf8, encode_utf8_valid_utf8, is_ascii_chars,
    is_ascii_chars_encode_utf8, valid_utf8,
};

verus! {

/// Two bytes written most significant first read back as the number.
pub proof fn lemma_be16_round_trip(n: u16)
    ensures
        u16_be(n).len() == 2,
        be16(u16_be(n)[0], u16_be(n)[1]) == n,
{
}

/// The number read from two bytes is written as those two bytes.
pub proof fn lemma_be16_bytes(hi: u8, lo: u8)
    ensures
        u16_be(be16(hi, lo)) == seq![hi, lo],
{
    assert(u16_be(be16(hi, lo)) =~= seq![hi, lo]);
}

/// Four bytes written most significant first read back as the number.
pub proof fn lemma_be32_round_trip(n: u32)
    ensures
        u32_be(n).len() == 4,
        be32(u32_be(n)[0], u32_be(n)[1], u32_be(n)[2], u32_be(n)[3]) == n,
{
    let b0 = n / 0x100_0000;
    let b1 = n / 0x1_0000 % 256;
    let b2 = n / 256 % 256;
    let b3 = n % 256;
    assert(b0 < 256 && b1 < 256 && b2 < 256 && b3 < 256 && b0 * 0x100_0000 + b1 * 0x1_0000 + b2
        * 256 + b3 == n) by (bit_vector)
        requires
            b0 == n / 0x100_0000,
            b1 == n / 0x1_0000 % 256,
            b2 == n / 256 % 256,
            b3 == n % 256,
    ;
}

/// The two bytes of flags give back every flag, and of each code its low
/// four bits.
proof fn lemma_flags_round_trip(h: Header)
    ensures
        flags_high(h) & 0x80 != 0 <==> h.query_response_indicator,
        (flags_high(h) & 0x78) >> 3 == h.operation_code & 0x0f,
        flags_high(h) & 0x04 != 0 <==> h.authoritative_answer,
        flags_high(h) & 0x02 != 0 <==> h.truncation,
        flags_high(h) & 0x01 != 0 <==> h.recursion_desired,
        flags_low(h) & 0x80 != 0 <==> h.recursion_available,
        (flags_low(h) & 0x70) >> 4 == 0,
        flags_low(h) & 0x0f == h.response_code & 0x0f,
{
    let qr: u8 = if h.query_response_indicator { 1 } else { 0 };
    let aa: u8 = if h.authoritative_answer { 1 } else { 0 };
    let tc: u8 = if h.truncation { 1 } else { 0 };
    let rd: u8 = if h.recursion_desired { 1 } else { 0 };
    let ra: u8 = if h.recursion_available { 1 } else { 0 };
    let op = h.operation_code;
    let rc = h.response_code;
    let hi: u8 = qr << 7 | (op & 0x0f) << 3 | aa << 2 | tc << 1 | rd;
    let lo: u8 = ra << 7 | (rc & 0x0f);
    assert(hi == flags_high(h));
    assert(lo == flags_low(h));
    assert({
        &&& (hi & 0x80 != 0 <==> qr == 1)
        &&& (hi & 0x78) >> 3 == op & 0x0f
        &&& (hi & 0x04 != 0 <==> aa == 1)
        &&& (hi & 0x02 != 0 <==> tc == 1)
        &&& (hi & 0x01 != 0 <==> rd == 1)
    }) by (bit_vector)
        requires
            hi == qr << 7 | (op & 0x0f) << 3 | aa << 2 | tc << 1 | rd,
            qr <= 1,
            aa <= 1,
            tc <= 1,
            rd <= 1,
    ;
    assert({
        &&& (lo & 0x80 != 0 <==> ra == 1)
        &&& (lo & 0x70) >> 4 == 0
        &&& lo & 0x0f == rc & 0x0f
    }) by (bit_vector)
        requires
            lo == ra << 7 | (rc & 0x0f),
            ra <= 1,
    ;
}

/// A header is its own canonical form exactly where it is well formed, and
/// the canonical form is always well formed and written as the header is.
pub proof fn lemma_canonical(h: Header)
    ensures
        h.canonical().wf(),
        h.wf() <==> h.canonical() == h,
        header_wire(h.canonical()) == header_wire(h),
{
    let op = h.operation_code;
    let rc = h.response_code;
    assert(op & 0x0f < 16 && (op < 16 <==> op & 0x0f == op) && (op & 0x0f) & 0x0f == op & 0x0f)
        by (bit_vector);
    assert(rc & 0x0f < 16 && (rc < 16 <==> rc & 0x0f == rc) && (rc & 0x0f) & 0x0f == rc & 0x0f)
        by (bit_vector);
}

/// What is read back of any header: from the twelve bytes that a header
/// was written as, its canonical form is read, and what followed those
/// bytes is left.
pub proof fn lemma_header_read_back(h: Header, rest: Seq<u8>)
    ensures
        header_wire(h).len() == 12,
        scan_header(header_wire(h) + rest) == (Ok::<Header, DnsError>(h.canonical()), rest),
{
    let s = header_wire(h) + rest;
    lemma_flags_round_trip(h);
    lemma_be16_round_trip(h.packet_identifier);
    lemma_be16_round_trip(h.question_count);
    lemma_be16_round_trip(h.answer_record_count);
    lemma_be16_round_trip(h.authority_record_count);
    lemma_be16_round_trip(h.additional_record_count);
    assert(s[2] == flags_high(h));
    assert(s[3] == flags_low(h));
    assert(header_of(s) == h.canonical());
    assert(s.skip(12) =~= rest);
}

/// Reading undoes writing, for headers: a header whose codes are in range
/// and whose reserved bits are zero is read back, from the twelve bytes
/// that it was written as, as it was, and what followed those bytes is
/// left.
pub proof fn lemma_header_round_trip(h: Header, rest: Seq<u8>)
    requires
        h.wf(),
    ensures
        header_wire(h).len() == 12,
        scan_header(header_wire(h) + rest) == (Ok::<Header, DnsError>(h), rest),
{
    lemma_canonical(h);
    lemma_header_read_back(h, rest);
}

/// Writing undoes reading, for headers: twelve bytes whose reserved bits
/// are zero are written back, from the header that they were read as, as
/// they were.
pub proof fn lemma_header_write_back(s: Seq<u8>)
    requires
        s.len() >= 12,
        s[3] & 0x70 == 0,
    ensures
        header_wire(header_of(s)) == s.take(12),
{
    let h = header_of(s);
    let x = s[2];
    let y = s[3];
    let qr: u8 = if x & 0x80 != 0 { 1 } else { 0 };
    let aa: u8 = if x & 0x04 != 0 { 1 } else { 0 };
    let tc: u8 = if x & 0x02 != 0 { 1 } else { 0 };
    let rd: u8 = if x & 0x01 != 0 { 1 } else { 0 };
    let ra: u8 = if y & 0x80 != 0 { 1 } else { 0 };
    assert(qr << 7 | (((x & 0x78) >> 3) & 0x0f) << 3 | aa << 2 | tc << 1 | rd == x)
        by (bit_vector)
        requires
            qr == (if x & 0x80 != 0 { 1u8 } else { 0u8 }),
            aa == (if x & 0x04 != 0 { 1u8 } else { 0u8 }),
            tc == (if x & 0x02 != 0 { 1u8 } else { 0u8 }),
            rd == (if x & 0x01 != 0 { 1u8 } else { 0u8 }),
    ;
    assert(ra << 7 | ((y & 0x0f) & 0x0f) == y) by (bit_vector)
        requires
            ra == (if y & 0x80 != 0 { 1u8 } else { 0u8 }),
            y & 0x70 == 0,
    ;
    assert(flags_high(h) == x);
    assert(flags_low(h) == y);
    lemma_be16_bytes(s[0], s[1]);
    lemma_be16_bytes(s[4], s[5]);
    lemma_be16_bytes(s[6], s[7]);
    lemma_be16_bytes(s[8], s[9]);
    lemma_be16_bytes(s[10], s[11]);
    assert(header_wire(h) =~= s.take(12));
}

/// Bytes that are all ASCII are valid UTF-8 and spell one character each.
pub proof fn lemma_ascii_decodes(s: Seq<u8>)
    requires
        forall|i: int| 0 <= i < s.len() ==> s[i] < 128,
    ensures
        valid_utf8(s),
        decode_utf8(s) == ascii_text(s),
        is_ascii_chars(ascii_text(s)),
        encode_utf8(ascii_text(s)) == s,
{
    let chars = ascii_text(s);
    assert(is_ascii_chars(chars));
    is_ascii_chars_encode_utf8(chars);
    assert(encode_utf8(chars) =~= s);
    encode_utf8_valid_utf8(chars);
    encode_utf8_decode_utf8(chars);
}

/// ASCII text is the text of its own bytes.
pub proof fn lemma_ascii_text_of_encoding(text: Seq<char>)
    requires
        is_ascii_chars(text),
    ensures
        ascii_text(encode_utf8(text)) == text,
        forall|i: int| 0 <= i < encode_utf8(text).len() ==> encode_utf8(text)[i] < 128,
{
    is_ascii_chars_encode_utf8(text);
    assert(ascii_text(encode_utf8(text)) =~= text);
}

/// Of bytes that are all ASCII, all are kept.
proof fn lemma_ascii_only_keeps(s: Seq<u8>)
    requires
        forall|i: int| 0 <= i < s.len() ==> s[i] < 128,
    ensures
        ascii_only(s) == s,
    decreases s.len(),
{
    reveal(Seq::filter);
    if s.len() > 0 {
        lemma_ascii_only_keeps(s.drop_last());
        assert(s.drop_last().push(s.last()) =~= s);
    }
}

/// One label of ASCII bytes at the front of `w` is read as its text, and
/// reading goes on behind it.
proof fn lemma_scan_one_label(w: Seq<u8>, label: Seq<u8>, tail: Seq<u8>, text: Seq<char>)
    requires
        1 <= label.len() <= 63,
        forall|i: int| 0 <= i < label.len() ==> label[i] < 128,
        w == seq![label.len() as u8] + label + tail,
    ensures
        scan_name(w, text) == scan_name(tail, join_label(text, ascii_text(label))),
{
    lemma_ascii_decodes(label);
    assert(w[0] == label.len());
    assert(w.subrange(1, 1 + w[0]) =~= label);
    assert(w.skip(1 + w[0]) =~= tail);
}

/// The text of labels parted by a dot is the text of the first, a dot, and
/// the text of the rest.
proof fn lemma_ascii_text_split(s: Seq<u8>, k: int)
    requires
        0 <= k < s.len(),
        s[k] == DOT,
    ensures
        ascii_text(s) == ascii_text(s.take(k)) + seq!['.'] + ascii_text(s.skip(k + 1)),
{
    assert(ascii_text(s) =~= ascii_text(s.take(k)) + seq!['.'] + ascii_text(s.skip(k + 1)));
}

/// Joining a label and then more text is joining both with a dot between.
proof fn lemma_join_twice(text: Seq<char>, label: Seq<char>, more: Seq<char>)
    requires
        label.len() > 0,
    ensures
        join_label(join_label(text, label), more) == join_label(text, label + seq!['.'] + more),
{
    assert(join_label(join_label(text, label), more) =~= join_label(
        text,
        label + seq!['.'] + more,
    ));
}

/// Valid labels, written and closed by a zero byte, are read back as their
/// own text, joined to the text read before.
proof fn lemma_labels_round_trip(s: Seq<u8>, text: Seq<char>, rest: Seq<u8>)
    requires
        valid_labels(s),
    ensures
        scan_name(wire_labels(s) + seq![0u8] + rest, text) == (
            Ok::<NameView, DnsError>(NameView::LabelSequence(join_label(text, ascii_text(s)))),
            rest,
        ),
    decreases s.len(),
{
    lemma_first_dot_bounds(s);
    let k = first_dot(s);
    let w = wire_labels(s) + seq![0u8] + rest;
    if k < s.len() {
        let label = s.take(k);
        let tail = s.skip(k + 1);
        let joined = join_label(text, ascii_text(label));
        let behind = wire_labels(tail) + seq![0u8] + rest;
        lemma_ascii_only_keeps(label);
        assert(w =~= seq![label.len() as u8] + label + behind);
        lemma_scan_one_label(w, label, behind, text);
        lemma_labels_round_trip(tail, joined, rest);
        lemma_ascii_text_split(s, k);
        lemma_join_twice(text, ascii_text(label), ascii_text(tail));
    } else {
        let behind = seq![0u8] + rest;
        lemma_ascii_only_keeps(s);
        assert(w =~= seq![s.len() as u8] + s + behind);
        lemma_scan_one_label(w, s, behind, text);
        assert(behind.skip(1) =~= rest);
    }
}

/// Labels that are valid can be written.
proof fn lemma_valid_labels_fit(s: Seq<u8>)
    requires
        valid_labels(s),
    ensures
        labels_fit(s),
    decreases s.len(),
{
    lemma_first_dot_bounds(s);
    let k = first_dot(s);
    if k < s.len() {
        lemma_ascii_only_keeps(s.take(k));
        lemma_valid_labels_fit(s.skip(k + 1));
    } else {
        lemma_ascii_only_keeps(s);
    }
}

/// A valid name is written, and not refused.
pub proof fn lemma_valid_name_is_written(text: Seq<char>)
    requires
        valid_name(text),
    ensures
        name_encoding(encode_utf8(text)) == Ok::<Seq<u8>, DnsError>(wire_name(encode_utf8(text))),
{
    let s = encode_utf8(text);
    if text.len() == 0 {
        reveal(Seq::filter);
        assert(s =~= Seq::<u8>::empty());
    } else {
        lemma_valid_labels_fit(s);
    }
}

/// Whatever labels are written, closed by a zero byte, are read as labels
/// up to a zero byte: never as a pointer, and never refused.
proof fn lemma_labels_read_as_labels(s: Seq<u8>, text: Seq<char>, rest: Seq<u8>)
    requires
        labels_fit(s),
    ensures
        scan_name(wire_labels(s) + seq![0u8] + rest, text).0 matches Ok(
            NameView::LabelSequence(_),
        ),
    decreases s.len(),
{
    lemma_first_dot_bounds(s);
    let k = first_dot(s);
    let w = wire_labels(s) + seq![0u8] + rest;
    let label = if k < s.len() {
        s.take(k)
    } else {
        s
    };
    let kept = ascii_only(label);
    let behind = if k < s.len() {
        wire_labels(s.skip(k + 1)) + seq![0u8] + rest
    } else {
        seq![0u8] + rest
    };
    assert(label_fits(label));
    assert(w =~= seq![kept.len() as u8] + kept + behind);
    assert forall|i: int| 0 <= i < kept.len() implies kept[i] < 128 by {
        label.lemma_filter_pred(|b: u8| b < 128, i);
    }
    if kept.len() > 0 {
        lemma_scan_one_label(w, kept, behind, text);
        if k < s.len() {
            lemma_labels_read_as_labels(
                s.skip(k + 1),
                join_label(text, ascii_text(kept)),
                rest,
            );
        }
    }
}

/// Writing never compresses: whatever name is written, what is read back
/// from its bytes is labels up to a zero byte, never a pointer.
pub proof fn lemma_no_pointer_written(s: Seq<u8>, rest: Seq<u8>)
    requires
        name_encoding(s) is Ok,
    ensures
        scan_name(name_encoding(s)->Ok_0 + rest, Seq::empty()).0 matches Ok(
            NameView::LabelSequence(_),
        ),
{
    if s.len() > 0 {
        lemma_labels_read_as_labels(s, Seq::empty(), rest);
        assert(wire_name(s) + rest =~= wire_labels(s) + seq![0u8] + rest);
    }
}

/// Reading undoes writing, for names: a valid name is read back, from the
/// bytes that it was written as, as the same text, all of it spelled out,
/// and what followed those bytes is left.
pub proof fn lemma_name_round_trip(text: Seq<char>, rest: Seq<u8>)
    requires
        valid_name(text),
    ensures
        name_encoding(encode_utf8(text)) == Ok::<Seq<u8>, DnsError>(wire_name(encode_utf8(text))),
        scan_name(wire_name(encode_utf8(text)) + rest, Seq::empty()) == (
            Ok::<NameView, DnsError>(NameView::LabelSequence(text)),
            rest,
        ),
{
    let s = encode_utf8(text);
    lemma_valid_name_is_written(text);
    if text.len() == 0 {
        assert(text =~= Seq::<char>::empty());
        assert((seq![0u8] + rest).skip(1) =~= rest);
    } else {
        is_ascii_chars_encode_utf8(text);
        lemma_ascii_text_of_encoding(text);
        lemma_labels_round_trip(s, Seq::empty(), rest);
        assert(wire_name(s) + rest =~= wire_labels(s) + seq![0u8] + rest);
    }
}

/// One label of ASCII bytes at `pos` in `s` is read as its text, and
/// reading goes on behind it.
proof fn lemma_read_one_label(s: Seq<u8>, pos: int, label: Seq<u8>, text: Seq<char>)
    requires
        1 <= label.len() <= 63,
        forall|i: int| 0 <= i < label.len() ==> label[i] < 128,
        0 <= pos,
        pos + 1 + label.len() <= s.len(),
        s[pos] == label.len(),
        s.subrange(pos + 1, pos + 1 + label.len()) == label,
    ensures
        read_labels(s, pos, text) == read_labels(
            s,
            pos + 1 + label.len(),
            join_label(text, ascii_text(label)),
        ),
{
    lemma_ascii_decodes(label);
}

/// Valid labels that stand written at `pos` in `s`, closed by a zero byte,
/// are read there as their own text, joined to the text read before.
proof fn lemma_read_labels_at(s: Seq<u8>, pos: int, labels: Seq<u8>, text: Seq<char>)
    requires
        valid_labels(labels),
        0 <= pos,
        pos + wire_labels(labels).len() + 1 <= s.len(),
        s.subrange(pos, pos + wire_labels(labels).len() + 1) == wire_labels(labels) + seq![0u8],
    ensures
        read_labels(s, pos, text) == Ok::<Seq<char>, DnsError>(
            join_label(text, ascii_text(labels)),
        ),
    decreases labels.len(),
{
    lemma_first_dot_bounds(labels);
    let k = first_dot(labels);
    let w = wire_labels(labels) + seq![0u8];
    let here = s.subrange(pos, pos + w.len());
    assert(forall|i: int| 0 <= i < w.len() ==> s[pos + i] == #[trigger] here[i]);
    if k < labels.len() {
        let label = labels.take(k);
        let tail = labels.skip(k + 1);
        let joined = join_label(text, ascii_text(label));
        lemma_ascii_only_keeps(label);
        assert(w =~= seq![label.len() as u8] + label + (wire_labels(tail) + seq![0u8]));
        assert(s[pos] == here[0]);
        assert(s.subrange(pos + 1, pos + 1 + k) =~= label) by {
            assert forall|i: int| 0 <= i < k implies s[pos + 1 + i] == label[i] by {
                assert(s[pos + 1 + i] == here[1 + i]);
            }
        }
        lemma_read_one_label(s, pos, label, text);
        assert(s.subrange(pos + 1 + k, pos + 1 + k + wire_labels(tail).len() + 1) =~= wire_labels(
            tail,
        ) + seq![0u8]) by {
            assert forall|i: int| 0 <= i < wire_labels(tail).len() + 1 implies s[pos + 1 + k + i]
                == (wire_labels(tail) + seq![0u8])[i] by {
                assert(s[pos + 1 + k + i] == here[1 + k + i]);
            }
        }
        lemma_read_labels_at(s, pos + 1 + k, tail, joined);
        lemma_ascii_text_split(labels, k);
        lemma_join_twice(text, ascii_text(label), ascii_text(tail));
    } else {
        lemma_ascii_only_keeps(labels);
        assert(w =~= seq![labels.len() as u8] + labels + seq![0u8]);
        assert(s[pos] == here[0]);
        assert(s.subrange(pos + 1, pos + 1 + k) =~= labels) by {
            assert forall|i: int| 0 <= i < k implies s[pos + 1 + i] == labels[i] by {
                assert(s[pos + 1 + i] == here[1 + i]);
            }
        }
        lemma_read_one_label(s, pos, labels, text);
        assert(s[pos + 1 + k] == here[1 + k]);
    }
}

/// A pointer to a name that is spelled out gives that name: where a valid
/// name stands written at `offset` in the message `s`, a name that is
/// nothing but a pointer to `offset` resolves to the same text.
pub proof fn lemma_pointer_to_name(s: Seq<u8>, offset: u16, text: Seq<char>)
    requires
        valid_name(text),
        offset + wire_name(encode_utf8(text)).len() <= s.len(),
        s.subrange(offset as int, offset + wire_name(encode_utf8(text)).len()) == wire_name(
            encode_utf8(text),
        ),
    ensures
        resolve_pointer(s, Seq::empty(), offset) == Ok::<Seq<char>, DnsError>(text),
{
    let w = wire_name(encode_utf8(text));
    let here = s.subrange(offset as int, offset + w.len());
    if text.len() == 0 {
        assert(text =~= Seq::<char>::empty());
        assert(s[offset as int] == here[0]);
    } else {
        is_ascii_chars_encode_utf8(text);
        lemma_ascii_text_of_encoding(text);
        lemma_read_labels_at(s, offset as int, encode_utf8(text), Seq::empty());
    }
}

/// A question is read as the name at its front and the four bytes behind
/// the name.
proof fn lemma_question_behind_name(s: Seq<u8>, q: QuestionView, fixed: Seq<u8>, rest: Seq<u8>)
    requires
        q.pointer is None,
        scan_name(s, Seq::empty()) == (
            Ok::<NameView, DnsError>(NameView::LabelSequence(q.name)),
            fixed,
        ),
        fixed == u16_be(q.qtype) + u16_be(q.qclass) + rest,
    ensures
        scan_question(s) == (Ok::<QuestionView, DnsError>(q), rest),
{
    lemma_be16_round_trip(q.qtype);
    lemma_be16_round_trip(q.qclass);
    assert(fixed.len() >= 4);
    assert(fixed[0] == u16_be(q.qtype)[0] && fixed[1] == u16_be(q.qtype)[1]);
    assert(fixed[2] == u16_be(q.qclass)[0] && fixed[3] == u16_be(q.qclass)[1]);
    assert(fixed.skip(4) =~= rest);
}

/// Reading undoes writing, for questions: a question with a valid name is
/// read back, from the bytes that it was written as, as it was, and what
/// followed those bytes is left.
pub proof fn lemma_question_round_trip(q: QuestionView, rest: Seq<u8>)
    requires
        q.wf(),
    ensures
        question_encoding(q) == Ok::<Seq<u8>, DnsError>(question_wire(q)),
        scan_question(question_wire(q) + rest) == (Ok::<QuestionView, DnsError>(q), rest),
{
    lemma_valid_name_is_written(q.name);
    let fixed = u16_be(q.qtype) + u16_be(q.qclass) + rest;
    let s = question_wire(q) + rest;
    assert(s == wire_name(encode_utf8(q.name)) + fixed) by {
        assert(s =~= wire_name(encode_utf8(q.name)) + fixed);
    }
    assert(scan_name(s, Seq::empty()) == (
        Ok::<NameView, DnsError>(NameView::LabelSequence(q.name)),
        fixed,
    )) by {
        lemma_name_round_trip(q.name, fixed);
    }
    lemma_question_behind_name(s, q, fixed, rest);
}

/// A record is read as the name at its front, the ten bytes behind the
/// name, and the data behind those.
proof fn lemma_answer_behind_name(s: Seq<u8>, a: AnswerView, fixed: Seq<u8>, rest: Seq<u8>)
    requires
        a.pointer is None,
        a.data.len() == a.length,
        scan_name(s, Seq::empty()) == (
            Ok::<NameView, DnsError>(NameView::LabelSequence(a.name)),
            fixed,
        ),
        fixed == u16_be(a.qtype) + u16_be(a.qclass) + u32_be(a.ttl) + u16_be(a.length) + a.data
            + rest,
    ensures
        scan_answer(s) == (Ok::<AnswerView, DnsError>(a), rest),
{
    lemma_be16_round_trip(a.qtype);
    lemma_be16_round_trip(a.qclass);
    lemma_be32_round_trip(a.ttl);
    lemma_be16_round_trip(a.length);
    assert(fixed.len() >= 10 + a.length);
    assert(fixed[0] == u16_be(a.qtype)[0] && fixed[1] == u16_be(a.qtype)[1]);
    assert(fixed[2] == u16_be(a.qclass)[0] && fixed[3] == u16_be(a.qclass)[1]);
    assert(fixed[4] == u32_be(a.ttl)[0] && fixed[5] == u32_be(a.ttl)[1]);
    assert(fixed[6] == u32_be(a.ttl)[2] && fixed[7] == u32_be(a.ttl)[3]);
    assert(fixed[8] == u16_be(a.length)[0] && fixed[9] == u16_be(a.length)[1]);
    assert(fixed.subrange(10, 10 + a.length) =~= a.data);
    assert(fixed.skip(10 + a.length) =~= rest);
}

/// Reading undoes writing, for resource records: a record with a valid
/// name, whatever its data, is read back, from the bytes that it was
/// written as, as it was, and what followed those bytes is left. The data
/// can be any bytes, as many as their declared length says.
pub proof fn lemma_answer_round_trip(a: AnswerView, rest: Seq<u8>)
    requires
        a.wf(),
    ensures
        answer_encoding(a) == Ok::<Seq<u8>, DnsError>(answer_wire(a)),
        scan_answer(answer_wire(a) + rest) == (Ok::<AnswerView, DnsError>(a), rest),
{
    lemma_valid_name_is_written(a.name);
    let fixed = u16_be(a.qtype) + u16_be(a.qclass) + u32_be(a.ttl) + u16_be(a.length) + a.data
        + rest;
    let s = answer_wire(a) + rest;
    assert(s == wire_name(encode_utf8(a.name)) + fixed) by {
        assert(s =~= wire_name(encode_utf8(a.name)) + fixed);
    }
    assert(scan_name(s, Seq::empty()) == (
        Ok::<NameView, DnsError>(NameView::LabelSequence(a.name)),
        fixed,
    )) by {
        lemma_name_round_trip(a.name, fixed);
    }
    lemma_answer_behind_name(s, a, fixed, rest);
}

/// Questions on the wire are the first of them, then the others.
proof fn lemma_questions_wire_front(qs: Seq<QuestionView>)
    requires
        qs.len() > 0,
    ensures
        questions_wire(qs) == question_wire(qs[0]) + questions_wire(qs.drop_first()),
    decreases qs.len(),
{
    if qs.len() == 1 {
        assert(qs.drop_last() =~= Seq::<QuestionView>::empty());
        assert(qs.drop_first() =~= Seq::<QuestionView>::empty());
        assert(questions_wire(qs) =~= question_wire(qs[0]) + questions_wire(qs.drop_first()));
    } else {
        lemma_questions_wire_front(qs.drop_last());
        assert(qs.drop_last().drop_first() =~= qs.drop_first().drop_last());
        assert(questions_wire(qs) =~= question_wire(qs[0]) + questions_wire(qs.drop_first()));
    }
}

/// Answers on the wire are the first of them, then the others.
proof fn lemma_answers_wire_front(ans: Seq<AnswerView>)
    requires
        ans.len() > 0,
    ensures
        answers_wire(ans) == answer_wire(ans[0]) + answers_wire(ans.drop_first()),
    decreases ans.len(),
{
    if ans.len() == 1 {
        assert(ans.drop_last() =~= Seq::<AnswerView>::empty());
        assert(ans.drop_first() =~= Seq::<AnswerView>::empty());
        assert(answers_wire(ans) =~= answer_wire(ans[0]) + answers_wire(ans.drop_first()));
    } else {
        lemma_answers_wire_front(ans.drop_last());
        assert(ans.drop_last().drop_first() =~= ans.drop_first().drop_last());
        assert(answers_wire(ans) =~= answer_wire(ans[0]) + answers_wire(ans.drop_first()));
    }
}

/// Valid questions are read back, one after the other, as they were
/// written, after the questions found before.
proof fn lemma_questions_round_trip(
    qs: Seq<QuestionView>,
    full: Seq<u8>,
    found: Seq<QuestionView>,
    rest: Seq<u8>,
)
    requires
        forall|i: int| 0 <= i < qs.len() ==> (#[trigger] qs[i]).wf(),
    ensures
        scan_questions(questions_wire(qs) + rest, full, qs.len(), found) == (
            Ok::<Seq<QuestionView>, DnsError>(found + qs),
            rest,
        ),
    decreases qs.len(),
{
    if qs.len() == 0 {
        assert(questions_wire(qs) + rest =~= rest);
        assert(found + qs =~= found);
    } else {
        let tail = qs.drop_first();
        let behind = questions_wire(tail) + rest;
        lemma_questions_wire_front(qs);
        assert(questions_wire(qs) + rest =~= question_wire(qs[0]) + behind);
        lemma_question_round_trip(qs[0], behind);
        assert(forall|i: int| 0 <= i < tail.len() ==> (#[trigger] tail[i]) == qs[i + 1]);
        lemma_questions_round_trip(tail, full, found.push(qs[0]), rest);
        assert(found.push(qs[0]) + tail =~= found + qs);
    }
}

/// Valid answers are read back, one after the other, as they were written,
/// after the answers found before.
proof fn lemma_answers_round_trip(
    ans: Seq<AnswerView>,
    full: Seq<u8>,
    found: Seq<AnswerView>,
    rest: Seq<u8>,
)
    requires
        forall|i: int| 0 <= i < ans.len() ==> (#[trigger] ans[i]).wf(),
    ensures
        scan_answers(answers_wire(ans) + rest, full, ans.len(), found) == (
            Ok::<Seq<AnswerView>, DnsError>(found + ans),
            rest,
        ),
    decreases ans.len(),
{
    if ans.len() == 0 {
        assert(answers_wire(ans) + rest =~= rest);
        assert(found + ans =~= found);
    } else {
        let tail = ans.drop_first();
        let behind = answers_wire(tail) + rest;
        lemma_answers_wire_front(ans);
        assert(answers_wire(ans) + rest =~= answer_wire(ans[0]) + behind);
        lemma_answer_round_trip(ans[0], behind);
        assert(forall|i: int| 0 <= i < tail.len() ==> (#[trigger] tail[i]) == ans[i + 1]);
        lemma_answers_round_trip(tail, full, found.push(ans[0]), rest);
        assert(found.push(ans[0]) + tail =~= found + ans);
    }
}

/// Valid questions are written, one after the other, and not refused.
proof fn lemma_questions_written(qs: Seq<QuestionView>)
    requires
        forall|i: int| 0 <= i < qs.len() ==> (#[trigger] qs[i]).wf(),
    ensures
        questions_encoding(qs) == Ok::<Seq<u8>, DnsError>(questions_wire(qs)),
    decreases qs.len(),
{
    if qs.len() > 0 {
        lemma_questions_written(qs.drop_last());
        lemma_valid_name_is_written(qs.last().name);
    }
}

/// Valid answers are written, one after the other, and not refused.
proof fn lemma_answers_written(ans: Seq<AnswerView>)
    requires
        forall|i: int| 0 <= i < ans.len() ==> (#[trigger] ans[i]).wf(),
    ensures
        answers_encoding(ans) == Ok::<Seq<u8>, DnsError>(answers_wire(ans)),
    decreases ans.len(),
{
    if ans.len() > 0 {
        lemma_answers_written(ans.drop_last());
        lemma_valid_name_is_written(ans.last().name);
    }
}

/// A message whose header counts what it holds and whose entries are valid
/// is written, and not refused.
pub proof fn lemma_record_is_written(m: RecordView)
    requires
        m.counts_agree(),
        m.entries_wf(),
    ensures
        record_encoding(m) == Ok::<Seq<u8>, DnsError>(record_wire(m)),
{
    lemma_questions_written(m.questions);
    lemma_answers_written(m.answers);
}

/// A message is read as its header, then its questions, then its answers.
proof fn lemma_record_in_parts(
    s: Seq<u8>,
    m: RecordView,
    after_header: Seq<u8>,
    after_questions: Seq<u8>,
    rest: Seq<u8>,
)
    requires
        m.counts_agree(),
        scan_header(s) == (Ok::<Header, DnsError>(m.header), after_header),
        scan_questions(after_header, s, m.questions.len(), Seq::empty()) == (
            Ok::<Seq<QuestionView>, DnsError>(m.questions),
            after_questions,
        ),
        scan_answers(after_questions, s, m.answers.len(), Seq::empty()) == (
            Ok::<Seq<AnswerView>, DnsError>(m.answers),
            rest,
        ),
    ensures
        scan_record(s) == (Ok::<RecordView, DnsError>(m), rest),
{
}

/// Reading undoes writing, for whole messages: a message whose header
/// counts what it holds and whose names are valid is read back, from the
/// bytes that it was written as, as it was, and what followed those bytes
/// is left.
pub proof fn lemma_record_round_trip(m: RecordView, rest: Seq<u8>)
    requires
        m.wf(),
    ensures
        record_encoding(m) == Ok::<Seq<u8>, DnsError>(record_wire(m)),
        scan_record(record_wire(m) + rest) == (Ok::<RecordView, DnsError>(m), rest),
{
    lemma_record_is_written(m);
    let s = record_wire(m) + rest;
    let after_questions = answers_wire(m.answers) + rest;
    let after_header = questions_wire(m.questions) + after_questions;
    assert(s == header_wire(m.header) + after_header) by {
        assert(s =~= header_wire(m.header) + after_header);
    }
    assert(scan_header(s) == (Ok::<Header, DnsError>(m.header), after_header)) by {
        lemma_header_round_trip(m.header, after_header);
    }
    assert(scan_questions(after_header, s, m.questions.len(), Seq::empty()) == (
        Ok::<Seq<QuestionView>, DnsError>(m.questions),
        after_questions,
    )) by {
        lemma_questions_round_trip(m.questions, s, Seq::empty(), after_questions);
        assert(Seq::<QuestionView>::empty() + m.questions =~= m.questions);
    }
    assert(scan_answers(after_questions, s, m.answers.len(), Seq::empty()) == (
        Ok::<Seq<AnswerView>, DnsError>(m.answers),
        rest,
    )) by {
        lemma_answers_round_trip(m.answers, s, Seq::empty(), rest);
        assert(Seq::<AnswerView>::empty() + m.answers =~= m.answers);
    }
    lemma_record_in_parts(s, m, after_header, after_questions, rest);
}

/// Writing, reading and writing again gives the bytes of the first
/// writing, for every message whose header counts what it holds and whose
/// names are valid. What is read is the message itself, but for the codes
/// and the reserved bits of its header, which come back canonical.
pub proof fn lemma_encode_idempotent(m: RecordView)
    requires
        m.counts_agree(),
        m.entries_wf(),
    ensures
        record_encoding(m) matches Ok(bytes) && scan_record(bytes).0 matches Ok(read) && read
            == (RecordView { header: m.header.canonical(), ..m }) && record_encoding(read) == Ok::<
            Seq<u8>,
            DnsError,
        >(bytes),
{
    let read = RecordView { header: m.header.canonical(), ..m };
    lemma_canonical(m.header);
    lemma_record_is_written(m);
    lemma_record_round_trip(read, Seq::empty());
    assert(record_wire(read) == record_wire(m));
    assert(record_wire(m) + Seq::<u8>::empty() =~= record_wire(m));
}

/// A message without questions or answers is twelve bytes on the wire, and
/// those twelve bytes are read back as that message.
pub proof fn lemma_empty_record(h: Header)
    requires
        h.wf(),
        h.question_count == 0,
        h.answer_record_count == 0,
    ensures
        record_wire(RecordView { header: h, questions: Seq::empty(), answers: Seq::empty() }).len()
            == 12,
        scan_record(
            record_wire(RecordView { header: h, questions: Seq::empty(), answers: Seq::empty() }),
        ).0 == Ok::<RecordView, DnsError>(
            RecordView { header: h, questions: Seq::empty(), answers: Seq::empty() },
        ),
{
    let m = RecordView { header: h, questions: Seq::empty(), answers: Seq::empty() };
    lemma_header_round_trip(h, Seq::empty());
    lemma_record_round_trip(m, Seq::empty());
    assert(record_wire(m) + Seq::<u8>::empty() =~= record_wire(m));
    assert(record_wire(m) =~= header_wire(h));
}

/// The totals and the gathered entries of replies that each count one
/// question and one answer and hold that many.
proof fn lemma_single_replies(replies: Seq<RecordView>)
    requires
        forall|i: int|
            0 <= i < replies.len() ==> {
                &&& (#[trigger] replies[i]).header.question_count == 1
                &&& replies[i].header.answer_record_count == 1
                &&& replies[i].questions.len() == 1
                &&& replies[i].answers.len() == 1
            },
    ensures
        total_questions(replies) == replies.len(),
        total_answers(replies) == replies.len(),
        all_questions(replies) == Seq::new(replies.len(), |i: int| replies[i].questions[0]),
        all_answers(replies) == Seq::new(replies.len(), |i: int| replies[i].answers[0]),
    decreases replies.len(),
{
    if replies.len() > 0 {
        let front = replies.drop_last();
        lemma_single_replies(front);
        assert(replies.last().questions =~= seq![replies.last().questions[0]]);
        assert(replies.last().answers =~= seq![replies.last().answers[0]]);
        assert(all_questions(replies) =~= Seq::new(
            replies.len(),
            |i: int| replies[i].questions[0],
        ));
        assert(all_answers(replies) =~= Seq::new(replies.len(), |i: int| replies[i].answers[0]));
    } else {
        assert(all_questions(replies) =~= Seq::new(
            replies.len(),
            |i: int| replies[i].questions[0],
        ));
        assert(all_answers(replies) =~= Seq::new(replies.len(), |i: int| replies[i].answers[0]));
    }
}

/// Splitting and merging keep every question and answer in its place: let
/// a message with at least one question, and no more than a header can
/// count, be split into single requests, and let each request be answered
/// by a reply that counts and holds that one question and one answer. Then
/// the merged message counts and holds as many questions and as many
/// answers as the message had questions: the questions of the message in
/// their order, and to each, in the same place, its answer.
pub proof fn lemma_split_merge(m: RecordView, replies: Seq<RecordView>)
    requires
        1 <= m.questions.len() <= u16::MAX,
        replies.len() == m.questions.len(),
        forall|i: int|
            0 <= i < replies.len() ==> {
                &&& (#[trigger] replies[i]).header.question_count == 1
                &&& replies[i].header.answer_record_count == 1
                &&& replies[i].questions == single_request(m, i).questions
                &&& replies[i].answers.len() == 1
            },
    ensures
        merged(replies) matches Ok(Some(whole)) && {
            &&& whole.header.question_count == m.questions.len()
            &&& whole.header.answer_record_count == m.questions.len()
            &&& whole.questions == m.questions
            &&& whole.answers.len() == m.questions.len()
            &&& forall|i: int|
                0 <= i < m.questions.len() ==> whole.answers[i] == replies[i].answers[0]
        },
{
    lemma_single_replies(replies);
    assert(all_questions(replies) =~= m.questions);
}

} // verus!
