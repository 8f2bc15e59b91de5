use bytes::BytesMut;
use dns_codec::dns::{Answer, DnsError, Header, Question, Record};

fn header(id: u16, questions: u16, answers: u16) -> Header {
    Header {
        packet_identifier: id,
        query_response_indicator: false,
        operation_code: 0,
        authoritative_answer: false,
        truncation: false,
        recursion_desired: true,
        recursion_available: false,
        reserved: 0,
        response_code: 0,
        question_count: questions,
        answer_record_count: answers,
        authority_record_count: 0,
        additional_record_count: 0,
    }
}

fn question(name: &str) -> Question {
    Question { name: name.to_string(), qtype: 1, qclass: 1, pointer: None }
}

fn answer(name: &str, data: Vec<u8>) -> Answer {
    Answer {
        name: name.to_string(),
        qtype: 1,
        qclass: 1,
        ttl: 0x01020304,
        length: data.len() as u16,
        data,
        pointer: None,
    }
}

const SAMPLE: &[u8] = &[
    0x11, 0xb3, 0x81, 0x00, 0x00, 0x01, 0x00, 0x01, 0x00, 0x00, 0x00, 0x00, 0x0c, 0x63, 0x6f, 0x64,
    0x65, 0x63, 0x72, 0x61, 0x66, 0x74, 0x65, 0x72, 0x73, 0x02, 0x69, 0x6f, 0x00, 0x00, 0x01, 0x00,
    0x01, 0x0c, 0x63, 0x6f, 0x64, 0x65, 0x63, 0x72, 0x61, 0x66, 0x74, 0x65, 0x72, 0x73, 0x02, 0x69,
    0x6f, 0x00, 0x00, 0x01, 0x00, 0x01, 0x00, 0x00, 0x00, 0x3c, 0x00, 0x04, 0x08, 0x08, 0x08, 0x08,
];

#[test]
fn sample_message_decodes_field_by_field() {
    let mut bs = BytesMut::from(SAMPLE);
    let record = Record::from_bytes(&mut bs).unwrap();
    assert_eq!(record.header.packet_identifier, 0x11b3);
    assert!(record.header.query_response_indicator);
    assert_eq!(record.header.operation_code, 0);
    assert!(record.header.recursion_desired);
    assert_eq!(record.header.response_code, 0);
    assert_eq!(record.header.question_count, 1);
    assert_eq!(record.header.answer_record_count, 1);
    assert_eq!(
        record.questions,
        vec![Question { name: "codecrafters.io".to_string(), qtype: 1, qclass: 1, pointer: None }]
    );
    assert_eq!(
        record.answers,
        vec![Answer {
            name: "codecrafters.io".to_string(),
            qtype: 1,
            qclass: 1,
            ttl: 60,
            length: 4,
            data: vec![8, 8, 8, 8],
            pointer: None,
        }]
    );
    assert_eq!(bs.len(), 0);
}

#[test]
fn sample_message_is_written_back_byte_for_byte() {
    let record = Record::from_bytes(&mut BytesMut::from(SAMPLE)).unwrap();
    assert_eq!(&record.to_bytes().unwrap()[..], SAMPLE);
}

#[test]
fn question_bytes_are_name_type_class() {
    let q = Question { name: "a.bc".to_string(), qtype: 0x0102, qclass: 0x0304, pointer: None };
    assert_eq!(&q.to_bytes().unwrap()[..], &[1u8, b'a', 2, b'b', b'c', 0, 1, 2, 3, 4]);
}

#[test]
fn answer_bytes_are_name_fields_data() {
    let a = Answer {
        name: "a".to_string(),
        qtype: 0x0102,
        qclass: 0x0304,
        ttl: 0x05060708,
        length: 3,
        data: vec![9, 10, 11],
        pointer: None,
    };
    assert_eq!(
        &a.to_bytes().unwrap()[..],
        &[1u8, b'a', 0, 1, 2, 3, 4, 5, 6, 7, 8, 0, 3, 9, 10, 11]
    );
}

#[test]
fn answer_reads_its_fields_most_significant_byte_first() {
    let mut bs = BytesMut::from(&[1u8, b'a', 0, 1, 2, 3, 4, 5, 6, 7, 8, 0, 3, 9, 10, 11][..]);
    let a = Answer::from_bytes(&mut bs).unwrap();
    assert_eq!(a.qtype, 0x0102);
    assert_eq!(a.qclass, 0x0304);
    assert_eq!(a.ttl, 0x05060708);
    assert_eq!(a.length, 3);
    assert_eq!(a.data, vec![9, 10, 11]);
}

#[test]
fn answer_takes_exactly_the_declared_data() {
    let mut bs = BytesMut::from(&[1u8, b'a', 0, 0, 1, 0, 1, 0, 0, 0, 60, 0, 2, 7, 8, 9, 10][..]);
    let a = Answer::from_bytes(&mut bs).unwrap();
    assert_eq!(a.data, vec![7, 8]);
    assert_eq!(&bs[..], &[9u8, 10]);
}

#[test]
fn answer_without_data_round_trips() {
    let a = answer("example.com", vec![]);
    let back = Answer::from_bytes(&mut a.to_bytes().unwrap()).unwrap();
    assert_eq!(back, a);
}

#[test]
fn answer_with_the_most_data_round_trips() {
    let data: Vec<u8> = (0..65535u32).map(|i| (i % 251) as u8).collect();
    let a = answer("big.example", data);
    assert_eq!(a.length, 65535);
    let mut bs = a.to_bytes().unwrap();
    let back = Answer::from_bytes(&mut bs).unwrap();
    assert_eq!(back, a);
    assert_eq!(bs.len(), 0);
}

#[test]
fn several_answers_are_read_one_after_the_other() {
    let m = Record {
        header: header(9, 2, 3),
        questions: vec![question("a.example"), question("b.example")],
        answers: vec![
            answer("a.example", vec![1, 2, 3, 4]),
            answer("b.example", vec![]),
            answer("b.example", vec![5, 6, 7, 8, 9, 10]),
        ],
    };
    let mut bs = m.to_bytes().unwrap();
    bs.extend_from_slice(&[0xee, 0xff]);
    let back = Record::from_bytes(&mut bs).unwrap();
    assert_eq!(back, m);
    assert_eq!(&bs[..], &[0xeeu8, 0xff]);
}

#[test]
fn message_bytes_are_header_questions_answers() {
    let m = Record {
        header: header(1, 1, 1),
        questions: vec![question("q")],
        answers: vec![answer("r", vec![0xab])],
    };
    let mut expected = header(1, 1, 1).to_bytes().to_vec();
    expected.extend_from_slice(&question("q").to_bytes().unwrap());
    expected.extend_from_slice(&answer("r", vec![0xab]).to_bytes().unwrap());
    assert_eq!(m.to_bytes().unwrap().to_vec(), expected);
}

#[test]
fn writing_reading_writing_gives_the_same_bytes() {
    let m = Record {
        header: header(77, 2, 1),
        questions: vec![question("one.example.org"), question("two.example.org")],
        answers: vec![answer("one.example.org", vec![10, 0, 0, 1])],
    };
    let first = m.to_bytes().unwrap();
    let read = Record::from_bytes(&mut first.clone()).unwrap();
    assert_eq!(read, m);
    assert_eq!(read.to_bytes().unwrap(), first);
}

#[test]
fn empty_message_is_twelve_bytes() {
    let mut bs = BytesMut::from(&[0x12u8, 0x34, 0, 0, 0, 0, 0, 0, 0, 0, 0, 0][..]);
    let m = Record::from_bytes(&mut bs).unwrap();
    let mut h = header(0x1234, 0, 0);
    h.recursion_desired = false;
    assert_eq!(m, Record { header: h, questions: vec![], answers: vec![] });
    let out = m.to_bytes().unwrap();
    assert_eq!(out.len(), 12);
    assert_eq!(&out[..], &[0x12u8, 0x34, 0, 0, 0, 0, 0, 0, 0, 0, 0, 0]);
}

fn compressed_message() -> Vec<u8> {
    let mut bytes = header(5, 1, 1).to_bytes().to_vec();
    bytes.extend_from_slice(b"\x03abc\x11longassdomainname\x03com\0");
    bytes.extend_from_slice(&[0, 1, 0, 1]);
    bytes.extend_from_slice(&[0xc0, 0x0c]);
    bytes.extend_from_slice(&[0, 1, 0, 1, 0, 0, 0, 60, 0, 4, 1, 2, 3, 4]);
    bytes
}

#[test]
fn pointer_to_the_question_gives_the_same_name() {
    let bytes = compressed_message();
    let mut bs = BytesMut::from(&bytes[..]);
    let m = Record::from_bytes(&mut bs).unwrap();
    assert_eq!(m.questions[0].name, "abc.longassdomainname.com");
    assert_eq!(m.answers[0].name, "abc.longassdomainname.com");
    assert_eq!(m.answers[0].name, m.questions[0].name);
    assert_eq!(m.answers[0].pointer, None);
    assert_eq!(m.answers[0].data, vec![1, 2, 3, 4]);
    assert_eq!(bs.len(), 0);
}

#[test]
fn compressed_message_is_written_without_pointers() {
    let bytes = compressed_message();
    let m = Record::from_bytes(&mut BytesMut::from(&bytes[..])).unwrap();
    let mut expected = header(5, 1, 1).to_bytes().to_vec();
    expected.extend_from_slice(b"\x03abc\x11longassdomainname\x03com\0");
    expected.extend_from_slice(&[0, 1, 0, 1]);
    expected.extend_from_slice(b"\x03abc\x11longassdomainname\x03com\0");
    expected.extend_from_slice(&[0, 1, 0, 1, 0, 0, 0, 60, 0, 4, 1, 2, 3, 4]);
    assert_eq!(m.to_bytes().unwrap().to_vec(), expected);
}

#[test]
fn labels_before_a_pointer_are_kept() {
    let mut bytes = header(5, 1, 1).to_bytes().to_vec();
    bytes.extend_from_slice(b"\x07example\x03com\0");
    bytes.extend_from_slice(&[0, 1, 0, 1]);
    bytes.extend_from_slice(b"\x03www\x04mail\xc0\x0c");
    bytes.extend_from_slice(&[0, 1, 0, 1, 0, 0, 0, 60, 0, 0]);
    let m = Record::from_bytes(&mut BytesMut::from(&bytes[..])).unwrap();
    assert_eq!(m.answers[0].name, "www.mail.example.com");
}

#[test]
fn pointer_into_the_middle_of_a_name() {
    let mut bytes = header(5, 2, 0).to_bytes().to_vec();
    bytes.extend_from_slice(b"\x07example\x03com\0");
    bytes.extend_from_slice(&[0, 1, 0, 1]);
    bytes.extend_from_slice(b"\x02ns\xc0\x14");
    bytes.extend_from_slice(&[0, 2, 0, 1]);
    let m = Record::from_bytes(&mut BytesMut::from(&bytes[..])).unwrap();
    assert_eq!(m.questions[1].name, "ns.com");
    assert_eq!(m.questions[1].qtype, 2);
}

#[test]
fn pointer_to_the_root_adds_nothing() {
    let mut bytes = header(5, 2, 0).to_bytes().to_vec();
    bytes.extend_from_slice(b"\x01a\0");
    bytes.extend_from_slice(&[0, 1, 0, 1]);
    bytes.extend_from_slice(b"\x01b\xc0\x0e");
    bytes.extend_from_slice(&[0, 1, 0, 1]);
    let m = Record::from_bytes(&mut BytesMut::from(&bytes[..])).unwrap();
    assert_eq!(m.questions[1].name, "b");
}

#[test]
fn question_alone_keeps_its_pointer_until_resolved() {
    let full = BytesMut::from(&b"\x03abc\x03com\0\x03www\xc0\x00\x00\x01\x00\x01"[..]);
    let mut rest = BytesMut::from(&full[9..]);
    let mut q = Question::from_bytes(&mut rest).unwrap();
    assert_eq!(
        q,
        Question { name: "www".to_string(), qtype: 1, qclass: 1, pointer: Some(0) }
    );
    assert_eq!(q.update_pointer_from_full(&full), Ok(()));
    assert_eq!(
        q,
        Question { name: "www.abc.com".to_string(), qtype: 1, qclass: 1, pointer: None }
    );
    assert_eq!(q.update_pointer_from_full(&full), Ok(()));
    assert_eq!(q.name, "www.abc.com");
}

#[test]
fn answer_alone_keeps_its_pointer_until_resolved() {
    let full =
        BytesMut::from(&b"\x03abc\0\xc0\x00\x00\x01\x00\x01\x00\x00\x00\x07\x00\x01\x2a"[..]);
    let mut rest = BytesMut::from(&full[5..]);
    let mut a = Answer::from_bytes(&mut rest).unwrap();
    assert_eq!(a.name, "");
    assert_eq!(a.pointer, Some(0));
    assert_eq!(a.update_pointer_from_full(&full), Ok(()));
    assert_eq!(
        a,
        Answer {
            name: "abc".to_string(),
            qtype: 1,
            qclass: 1,
            ttl: 7,
            length: 1,
            data: vec![0x2a],
            pointer: None,
        }
    );
}

#[test]
fn failed_resolution_leaves_the_entry_as_it_was() {
    let full = BytesMut::from(&b"\x03abc"[..]);
    let mut q = Question { name: "www".to_string(), qtype: 1, qclass: 1, pointer: Some(9) };
    assert_eq!(q.update_pointer_from_full(&full), Err(DnsError::PointerOutOfRange));
    assert_eq!(q.name, "www");
    assert_eq!(q.pointer, Some(9));
    let mut a = answer("www", vec![]);
    a.pointer = Some(0);
    assert_eq!(a.update_pointer_from_full(&full), Err(DnsError::TruncatedMessage));
    assert_eq!(a.name, "www");
    assert_eq!(a.pointer, Some(0));
}

#[test]
fn what_follows_the_answers_is_left() {
    let mut bytes = header(5, 1, 0).to_bytes().to_vec();
    bytes[11] = 1;
    bytes.extend_from_slice(b"\x01a\0");
    bytes.extend_from_slice(&[0, 1, 0, 1]);
    bytes.extend_from_slice(&[0, 0, 41, 16, 0, 0, 0, 0, 0, 0, 0]);
    let mut bs = BytesMut::from(&bytes[..]);
    let m = Record::from_bytes(&mut bs).unwrap();
    assert_eq!(m.header.additional_record_count, 1);
    assert_eq!(m.questions.len(), 1);
    assert_eq!(bs.len(), 11);
}

#[test]
fn answers_are_whole_without_pointers() {
    let mut m = Record {
        header: header(1, 0, 2),
        questions: vec![],
        answers: vec![answer("a", vec![]), answer("b", vec![])],
    };
    assert!(m.answers_are_whole());
    m.answers[1].pointer = Some(12);
    assert!(!m.answers_are_whole());
    m.answers.clear();
    assert!(m.answers_are_whole());
    m.questions.push(Question { name: "q".to_string(), qtype: 1, qclass: 1, pointer: Some(3) });
    assert!(m.answers_are_whole());
}
