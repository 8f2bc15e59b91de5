use bytes::BytesMut;
use dns_codec::dns::{Answer, DnsError, Header, Question, Record};

fn header(questions: u16, answers: u16) -> Vec<u8> {
    Header {
        packet_identifier: 1,
        query_response_indicator: false,
        operation_code: 0,
        authoritative_answer: false,
        truncation: false,
        recursion_desired: false,
        recursion_available: false,
        reserved: 0,
        response_code: 0,
        question_count: questions,
        answer_record_count: answers,
        authority_record_count: 0,
        additional_record_count: 0,
    }
    .to_bytes()
    .to_vec()
}

fn read(bytes: &[u8]) -> Result<Record, DnsError> {
    Record::from_bytes(&mut BytesMut::from(bytes))
}

#[test]
fn message_shorter_than_a_header_is_truncated() {
    assert_eq!(read(&[]), Err(DnsError::TruncatedMessage));
    assert_eq!(read(&[0; 11]), Err(DnsError::TruncatedMessage));
}

#[test]
fn message_with_fewer_questions_than_counted_is_truncated() {
    let mut bytes = header(2, 0);
    bytes.extend_from_slice(b"\x01a\0\0\x01\0\x01");
    assert_eq!(read(&bytes), Err(DnsError::TruncatedMessage));
}

#[test]
fn question_without_its_type_and_class_is_truncated() {
    let mut bs = BytesMut::from(&b"\x01a\0\0\x01\0"[..]);
    assert_eq!(Question::from_bytes(&mut bs), Err(DnsError::TruncatedMessage));
    assert_eq!(&bs[..], &[0u8, 1, 0]);
}

#[test]
fn answer_without_its_fixed_fields_is_truncated() {
    let mut bs = BytesMut::from(&b"\x01a\0\0\x01\0\x01\0\0\0\x3c\0"[..]);
    assert_eq!(Answer::from_bytes(&mut bs), Err(DnsError::TruncatedMessage));
    assert_eq!(bs.len(), 9);
}

#[test]
fn answer_with_less_data_than_declared_is_truncated() {
    let mut bs = BytesMut::from(&b"\x01a\0\0\x01\0\x01\0\0\0\x3c\0\x04\x08\x08\x08"[..]);
    assert_eq!(Answer::from_bytes(&mut bs), Err(DnsError::TruncatedMessage));
    assert_eq!(&bs[..], &[8u8, 8, 8]);
}

#[test]
fn label_claiming_more_than_is_left_never_reads_past_the_end() {
    let mut bytes = header(1, 0);
    bytes.extend_from_slice(&[100, b'a', b'b', b'c', b'd', b'e']);
    assert_eq!(read(&bytes), Err(DnsError::InvalidLabelEncoding));
    let mut bytes = header(1, 0);
    bytes.extend_from_slice(&[63, b'a', b'b', b'c', b'd', b'e']);
    assert_eq!(read(&bytes), Err(DnsError::InvalidLabelEncoding));
}

#[test]
fn length_byte_of_two_hundred_points_out_of_the_message() {
    let mut bytes = header(1, 0);
    bytes.extend_from_slice(&[200, b'a', b'b', b'c', b'd', b'e']);
    assert_eq!(read(&bytes), Err(DnsError::PointerOutOfRange));
}

#[test]
fn label_of_invalid_text_is_refused() {
    let mut bytes = header(1, 0);
    bytes.extend_from_slice(&[2, 0xc3, 0x28, 0, 0, 1, 0, 1]);
    assert_eq!(read(&bytes), Err(DnsError::InvalidLabelEncoding));
}

#[test]
fn pointer_past_the_end_is_out_of_range() {
    let mut bytes = header(1, 0);
    bytes.extend_from_slice(&[0xc0, 18, 0, 1, 0, 1]);
    assert_eq!(bytes.len(), 18);
    assert_eq!(read(&bytes), Err(DnsError::PointerOutOfRange));
    let mut bytes = header(1, 0);
    bytes.extend_from_slice(&[0xff, 0xff, 0, 1, 0, 1]);
    assert_eq!(read(&bytes), Err(DnsError::PointerOutOfRange));
}

#[test]
fn pointer_to_the_last_byte_is_in_range() {
    let mut bytes = header(1, 0);
    bytes.extend_from_slice(&[0xc0, 17, 0, 1, 0, 0]);
    let m = read(&bytes).unwrap();
    assert_eq!(m.questions[0].name, "");
}

#[test]
fn pointer_to_a_pointer_is_refused() {
    let mut bytes = header(2, 0);
    bytes.extend_from_slice(&[0xc0, 18, 0, 1, 0, 1]);
    bytes.extend_from_slice(&[0xc0, 12, 0, 1, 0, 1]);
    assert_eq!(read(&bytes), Err(DnsError::UnsupportedCompressionChain));
}

#[test]
fn pointer_to_itself_is_refused() {
    let mut bytes = header(1, 0);
    bytes.extend_from_slice(&[0xc0, 12, 0, 1, 0, 1]);
    assert_eq!(read(&bytes), Err(DnsError::UnsupportedCompressionChain));
}

#[test]
fn pointer_behind_labels_of_the_target_is_refused() {
    let mut bytes = header(2, 0);
    bytes.extend_from_slice(b"\x01a\xc0\x0c\0\x01\0\x01");
    bytes.extend_from_slice(&[0xc0, 12, 0, 1, 0, 1]);
    assert_eq!(read(&bytes), Err(DnsError::UnsupportedCompressionChain));
}

#[test]
fn target_label_that_runs_past_the_end_is_refused() {
    let mut bytes = header(1, 0);
    bytes.extend_from_slice(&[0xc0, 17, 0, 1, 0, 9]);
    assert_eq!(read(&bytes), Err(DnsError::InvalidLabelEncoding));
}

#[test]
fn target_without_an_end_is_truncated() {
    let mut bytes = header(1, 0);
    bytes.extend_from_slice(&[0xc0, 16, 0, 1, 1, b'x']);
    assert_eq!(read(&bytes), Err(DnsError::TruncatedMessage));
}

#[test]
fn counts_that_differ_from_the_entries_are_refused() {
    let h = Header::from_bytes(&mut BytesMut::from(&header(1, 0)[..])).unwrap();
    let m = Record { header: h, questions: vec![], answers: vec![] };
    assert_eq!(m.to_bytes(), Err(DnsError::InconsistentCounts));
    let h = Header::from_bytes(&mut BytesMut::from(&header(0, 1)[..])).unwrap();
    let m = Record { header: h, questions: vec![], answers: vec![] };
    assert_eq!(m.to_bytes(), Err(DnsError::InconsistentCounts));
    let h = Header::from_bytes(&mut BytesMut::from(&header(0, 0)[..])).unwrap();
    let m = Record {
        header: h,
        questions: vec![Question { name: "a".to_string(), qtype: 1, qclass: 1, pointer: None }],
        answers: vec![],
    };
    assert_eq!(m.to_bytes(), Err(DnsError::InconsistentCounts));
}

fn long_name() -> String {
    format!("{}.example", "x".repeat(64))
}

#[test]
fn name_that_cannot_be_written_is_refused() {
    let q = Question { name: long_name(), qtype: 1, qclass: 1, pointer: None };
    assert_eq!(q.to_bytes(), Err(DnsError::InvalidLabelEncoding));
    let a = Answer {
        name: long_name(),
        qtype: 1,
        qclass: 1,
        ttl: 1,
        length: 0,
        data: vec![],
        pointer: None,
    };
    assert_eq!(a.to_bytes(), Err(DnsError::InvalidLabelEncoding));
    let h = Header::from_bytes(&mut BytesMut::from(&header(1, 0)[..])).unwrap();
    let m = Record { header: h, questions: vec![q.clone()], answers: vec![] };
    assert_eq!(m.to_bytes(), Err(DnsError::InvalidLabelEncoding));
    let h = Header::from_bytes(&mut BytesMut::from(&header(0, 1)[..])).unwrap();
    let m = Record { header: h, questions: vec![], answers: vec![a] };
    assert_eq!(m.to_bytes(), Err(DnsError::InvalidLabelEncoding));
}

#[test]
fn wrong_counts_are_refused_before_names() {
    let q = Question { name: long_name(), qtype: 1, qclass: 1, pointer: None };
    let h = Header::from_bytes(&mut BytesMut::from(&header(2, 0)[..])).unwrap();
    let m = Record { header: h, questions: vec![q], answers: vec![] };
    assert_eq!(m.to_bytes(), Err(DnsError::InconsistentCounts));
}

#[test]
fn label_read_from_the_wire_may_be_too_long_to_write() {
    let mut bytes = header(1, 0);
    bytes.push(64);
    bytes.extend(std::iter::repeat(b'x').take(64));
    bytes.extend_from_slice(&[0, 0, 1, 0, 1]);
    let m = read(&bytes).unwrap();
    assert_eq!(m.questions[0].name, "x".repeat(64));
    assert_eq!(m.to_bytes(), Err(DnsError::InvalidLabelEncoding));
}
