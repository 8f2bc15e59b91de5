use bytes::BytesMut;
use dns_codec::dns::{Answer, DnsError, Header, Question, Record};

fn header(id: u16) -> Header {
    Header {
        packet_identifier: id,
        query_response_indicator: false,
        operation_code: 0,
        authoritative_answer: false,
        truncation: false,
        recursion_desired: true,
        recursion_available: false,
        reserved: 0,
        response_code: 0,
        question_count: 0,
        answer_record_count: 0,
        authority_record_count: 0,
        additional_record_count: 0,
    }
}

fn question(name: &str, qtype: u16) -> Question {
    Question { name: name.to_string(), qtype, qclass: 1, pointer: None }
}

fn query(names: &[&str]) -> Record {
    let mut h = header(0x4242);
    h.question_count = names.len() as u16;
    h.answer_record_count = 3;
    h.authority_record_count = 4;
    h.additional_record_count = 5;
    Record {
        header: h,
        questions: names.iter().enumerate().map(|(i, n)| question(n, i as u16 + 1)).collect(),
        answers: vec![],
    }
}

// What an upstream server does with a single request: the same question,
// one answer, over the wire both ways.
fn upstream(request: &Record, address: u8) -> Record {
    let sent = request.to_bytes().unwrap();
    let received = Record::from_bytes(&mut BytesMut::from(&sent[..])).unwrap();
    let mut reply = received;
    reply.header.query_response_indicator = true;
    reply.header.recursion_available = true;
    reply.header.answer_record_count = 1;
    reply.answers = vec![Answer {
        name: reply.questions[0].name.clone(),
        qtype: reply.questions[0].qtype,
        qclass: 1,
        ttl: 300,
        length: 4,
        data: vec![10, 0, 0, address],
        pointer: None,
    }];
    let back = reply.to_bytes().unwrap();
    Record::from_bytes(&mut BytesMut::from(&back[..])).unwrap()
}

#[test]
fn split_gives_one_request_for_each_question() {
    let requests = query(&["a.example", "b.example", "c.example"]).generate_single_requests();
    assert_eq!(requests.len(), 3);
    for (i, name) in ["a.example", "b.example", "c.example"].iter().enumerate() {
        let mut h = header(0x4242);
        h.question_count = 1;
        assert_eq!(
            requests[i],
            Record { header: h, questions: vec![question(name, i as u16 + 1)], answers: vec![] }
        );
    }
}

#[test]
fn split_requests_can_be_written() {
    for request in query(&["a.example", "b.example"]).generate_single_requests() {
        let bytes = request.to_bytes().unwrap();
        assert_eq!(&bytes[4..12], &[0u8, 1, 0, 0, 0, 0, 0, 0]);
    }
}

#[test]
fn split_of_no_questions_is_empty() {
    assert_eq!(query(&[]).generate_single_requests(), vec![]);
}

#[test]
fn merge_of_no_replies_is_nothing() {
    assert_eq!(Record::merge(vec![]), Ok(None));
}

#[test]
fn split_and_merge_keep_the_order() {
    let names = ["one.example", "two.example", "three.example", "four.example"];
    let replies: Vec<Record> = query(&names)
        .generate_single_requests()
        .iter()
        .enumerate()
        .map(|(i, request)| upstream(request, i as u8))
        .collect();
    let merged = Record::merge(replies).unwrap().unwrap();
    assert_eq!(merged.header.question_count, 4);
    assert_eq!(merged.header.answer_record_count, 4);
    assert_eq!(merged.header.packet_identifier, 0x4242);
    assert!(merged.header.query_response_indicator);
    assert!(merged.header.recursion_available);
    assert_eq!(merged.questions.len(), 4);
    assert_eq!(merged.answers.len(), 4);
    for (i, name) in names.iter().enumerate() {
        assert_eq!(merged.questions[i], question(name, i as u16 + 1));
        assert_eq!(merged.answers[i].name, *name);
        assert_eq!(merged.answers[i].data, vec![10, 0, 0, i as u8]);
    }
    let bytes = merged.to_bytes().unwrap();
    assert_eq!(Record::from_bytes(&mut bytes.clone()).unwrap(), merged);
}

#[test]
fn merge_of_one_reply_is_that_reply() {
    let reply = upstream(&query(&["solo.example"]).generate_single_requests()[0], 9);
    assert_eq!(Record::merge(vec![reply.clone()]), Ok(Some(reply)));
}

#[test]
fn merge_takes_flags_from_the_first_reply_and_sums_the_counts() {
    let mut first = upstream(&query(&["a.example"]).generate_single_requests()[0], 1);
    first.header.packet_identifier = 7;
    first.header.response_code = 3;
    first.header.authority_record_count = 6;
    let mut second = upstream(&query(&["b.example"]).generate_single_requests()[0], 2);
    second.header.packet_identifier = 8;
    second.header.response_code = 0;
    second.header.answer_record_count = 2;
    second.answers.push(second.answers[0].clone());
    let merged = Record::merge(vec![first.clone(), second.clone()]).unwrap().unwrap();
    let mut h = first.header;
    h.question_count = 2;
    h.answer_record_count = 3;
    assert_eq!(merged.header, h);
    assert_eq!(merged.questions, vec![first.questions[0].clone(), second.questions[0].clone()]);
    assert_eq!(
        merged.answers,
        vec![first.answers[0].clone(), second.answers[0].clone(), second.answers[1].clone()]
    );
}

#[test]
fn merge_sums_the_counts_of_the_headers() {
    let mut reply = Record { header: header(1), questions: vec![], answers: vec![] };
    reply.header.question_count = 5;
    reply.header.answer_record_count = 7;
    let merged = Record::merge(vec![reply.clone(), reply.clone()]).unwrap().unwrap();
    assert_eq!(merged.header.question_count, 10);
    assert_eq!(merged.header.answer_record_count, 14);
    assert_eq!(merged.questions.len(), 0);
}

#[test]
fn merge_refuses_counts_that_do_not_fit() {
    let mut reply = Record { header: header(1), questions: vec![], answers: vec![] };
    reply.header.question_count = 40000;
    assert_eq!(
        Record::merge(vec![reply.clone(), reply.clone()]),
        Err(DnsError::InconsistentCounts)
    );
    let mut reply = Record { header: header(1), questions: vec![], answers: vec![] };
    reply.header.answer_record_count = 0xffff;
    let mut one = Record { header: header(1), questions: vec![], answers: vec![] };
    one.header.answer_record_count = 1;
    assert_eq!(Record::merge(vec![reply, one]), Err(DnsError::InconsistentCounts));
}

#[test]
fn merge_sums_up_to_the_largest_count() {
    let mut reply = Record { header: header(1), questions: vec![], answers: vec![] };
    reply.header.question_count = 0xfffe;
    let mut one = Record { header: header(1), questions: vec![], answers: vec![] };
    one.header.question_count = 1;
    let merged = Record::merge(vec![reply, one]).unwrap().unwrap();
    assert_eq!(merged.header.question_count, 0xffff);
}

#[test]
fn placeholder_answer_repeats_the_question() {
    let q = question("codecrafters.io", 16);
    assert_eq!(
        Answer::from_question(0, &q),
        Answer {
            name: "codecrafters.io".to_string(),
            qtype: 16,
            qclass: 1,
            ttl: 60,
            length: 4,
            data: vec![8, 8, 8, 8],
            pointer: None,
        }
    );
    assert_eq!(Answer::from_question(3, &q).data, vec![8, 8, 8, 11]);
    assert_eq!(Answer::from_question(247, &q).data, vec![8, 8, 8, 255]);
}

#[test]
fn response_answers_each_question_with_a_placeholder() {
    let mut request = query(&["a.example", "b.example"]);
    request.answers = vec![Answer::from_question(9, &question("old.example", 1))];
    let response = request.respond();
    let mut h = header(0x4242);
    h.query_response_indicator = true;
    h.response_code = 0;
    h.question_count = 2;
    h.answer_record_count = 2;
    h.authority_record_count = 4;
    h.additional_record_count = 5;
    assert_eq!(response.header, h);
    assert_eq!(response.questions, vec![question("a.example", 1), question("b.example", 2)]);
    assert_eq!(
        response.answers,
        vec![
            Answer::from_question(0, &question("a.example", 1)),
            Answer::from_question(1, &question("b.example", 2)),
        ]
    );
}

#[test]
fn response_to_an_unsupported_operation_says_not_implemented() {
    let mut request = query(&["a.example"]);
    request.header.operation_code = 2;
    let response = request.respond();
    assert_eq!(response.header.response_code, 4);
    assert!(response.header.query_response_indicator);
    assert_eq!(response.answers.len(), 1);
}

#[test]
fn response_to_no_questions_has_no_answers() {
    let response = query(&[]).respond();
    assert_eq!(response.header.answer_record_count, 0);
    assert_eq!(response.answers, vec![]);
    assert_eq!(response.header.response_code, 0);
}

#[test]
fn format_error_reply_carries_the_identifier() {
    let datagram = BytesMut::from(&[0xabu8, 0xcd, 0xff, 0xff, 0x01][..]);
    let reply = Record::format_error(&datagram).unwrap();
    let mut h = header(0xabcd);
    h.query_response_indicator = true;
    h.recursion_desired = false;
    h.response_code = 1;
    assert_eq!(reply, Record { header: h, questions: vec![], answers: vec![] });
    assert_eq!(
        &reply.to_bytes().unwrap()[..],
        &[0xabu8, 0xcd, 0x80, 0x01, 0, 0, 0, 0, 0, 0, 0, 0]
    );
    assert_eq!(datagram.len(), 5);
}

#[test]
fn format_error_reply_needs_an_identifier() {
    assert_eq!(Record::format_error(&BytesMut::new()), None);
    assert_eq!(Record::format_error(&BytesMut::from(&[0x12u8][..])), None);
    assert!(Record::format_error(&BytesMut::from(&[0x12u8, 0x34][..])).is_some());
}

#[test]
fn server_failure_stands_in_for_a_reply() {
    let requests = query(&["a.example", "b.example"]).generate_single_requests();
    let mut replies = Vec::new();
    let mut it = requests.into_iter();
    replies.push(upstream(&it.next().unwrap(), 1));
    let failed = it.next().unwrap().server_failure();
    let mut h = header(0x4242);
    h.query_response_indicator = true;
    h.response_code = 2;
    h.question_count = 1;
    assert_eq!(
        failed,
        Record { header: h, questions: vec![question("b.example", 2)], answers: vec![] }
    );
    replies.push(failed);
    let merged = Record::merge(replies).unwrap().unwrap();
    assert_eq!(merged.header.question_count, 2);
    assert_eq!(merged.header.answer_record_count, 1);
    assert_eq!(merged.questions.len(), 2);
    assert_eq!(merged.answers.len(), 1);
    assert!(merged.to_bytes().is_ok());
}

#[test]
fn reply_that_was_received_counts() {
    let request = query(&["a.example"]).generate_single_requests().remove(0);
    let reply = upstream(&request, 7);
    let received = reply.to_bytes().unwrap();
    assert_eq!(request.reply_or_failure(Some(received)), reply);
}

#[test]
fn missing_reply_is_a_server_failure() {
    let request = query(&["a.example"]).generate_single_requests().remove(0);
    let expected = request.clone().server_failure();
    assert_eq!(request.reply_or_failure(None), expected);
    assert_eq!(expected.header.response_code, 2);
}

#[test]
fn unreadable_reply_is_a_server_failure() {
    let request = query(&["a.example"]).generate_single_requests().remove(0);
    let expected = request.clone().server_failure();
    let mut received = upstream(&request, 7).to_bytes().unwrap();
    received.truncate(20);
    assert_eq!(request.clone().reply_or_failure(Some(received)), expected);
    assert_eq!(request.clone().reply_or_failure(Some(BytesMut::new())), expected);
    let garbage =
        BytesMut::from(&[0u8, 1, 0, 0, 0, 1, 0, 0, 0, 0, 0, 0, 0xc0, 0x0c, 0, 1, 0, 1][..]);
    assert_eq!(request.reply_or_failure(Some(garbage)), expected);
}
