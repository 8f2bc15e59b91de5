//! Forwarding: one request for each question of a query, one message out of
//! the replies, and the replies that are made up on the spot.

use crate::dns::answer::{placeholder_answer, Answer, AnswerView, MAX_PLACEHOLDERS};
use crate::dns::buffer::{as_slice, be16, octets};
use crate::dns::error::DnsError;
use crate::dns::header::{Header, FORMAT_ERROR, NOT_IMPLEMENTED, NO_ERROR, SERVER_FAILURE};
use crate::dns::question::{Question, QuestionView};
use crate::dns::record::{answer_views, question_views, scan_record, Record, RecordView};
use bytes::BytesMut;
use vstd::prelude::*;

verus! {

/// The header of a request that carries one of the questions of a message
/// with header `h`: one question, no other entries, all else as in `h`.
pub open spec fn single_header(h: Header) -> Header {
    Header {
        question_count: 1,
        answer_record_count: 0,
        authority_record_count: 0,
        additional_record_count: 0,
        ..h
    }
}

/// The request that carries question `i` of `m` alone.
pub open spec fn single_request(m: RecordView, i: int) -> RecordView {
    RecordView {
        header: single_header(m.header),
        questions: seq![m.questions[i]],
        answers: Seq::empty(),
    }
}

/// The views of `records`, in order.
pub open spec fn record_views(records: Seq<Record>) -> Seq<RecordView> {
    records.map_values(|m: Record| m@)
}

/// The sum of the question counts in the headers of `replies`.
pub open spec fn total_questions(replies: Seq<RecordView>) -> nat
    decreases replies.len(),
{
    if replies.len() == 0 {
        0
    } else {
        total_questions(replies.drop_last()) + replies.last().header.question_count as nat
    }
}

/// The sum of the answer counts in the headers of `replies`.
pub open spec fn total_answers(replies: Seq<RecordView>) -> nat
    decreases replies.len(),
{
    if replies.len() == 0 {
        0
    } else {
        total_answers(replies.drop_last()) + replies.last().header.answer_record_count as nat
    }
}

/// The questions of all `replies`, reply after reply.
pub open spec fn all_questions(replies: Seq<RecordView>) -> Seq<QuestionView>
    decreases replies.len(),
{
    if replies.len() == 0 {
        Seq::empty()
    } else {
        all_questions(replies.drop_last()) + replies.last().questions
    }
}

/// The answers of all `replies`, reply after reply.
pub open spec fn all_answers(replies: Seq<RecordView>) -> Seq<AnswerView>
    decreases replies.len(),
{
    if replies.len() == 0 {
        Seq::empty()
    } else {
        all_answers(replies.drop_last()) + replies.last().answers
    }
}

/// The one message that `replies` make: nothing where there are none;
/// else the header of the first reply with the sums of the question and
/// answer counts, and all questions and all answers in the order of the
/// replies. Sums that do not fit a count are refused.
pub open spec fn merged(replies: Seq<RecordView>) -> Result<Option<RecordView>, DnsError> {
    if replies.len() == 0 {
        Ok(None)
    } else if total_questions(replies) > u16::MAX || total_answers(replies) > u16::MAX {
        Err(DnsError::InconsistentCounts)
    } else {
        Ok(
            Some(
                RecordView {
                    header: Header {
                        question_count: total_questions(replies) as u16,
                        answer_record_count: total_answers(replies) as u16,
                        ..replies[0].header
                    },
                    questions: all_questions(replies),
                    answers: all_answers(replies),
                },
            ),
        )
    }
}

/// The outcome of merging, as a view.
pub open spec fn merge_outcome(r: Result<Option<Record>, DnsError>) -> Result<
    Option<RecordView>,
    DnsError,
> {
    match r {
        Ok(Some(m)) => Ok(Some(m@)),
        Ok(None) => Ok(None),
        Err(e) => Err(e),
    }
}

/// The response that answers every question of `m` with a placeholder: the
/// header of `m` marked as a response, "not implemented" for any operation
/// but a standard query, and as many answers counted as questions.
pub open spec fn response_to(m: RecordView) -> RecordView {
    RecordView {
        header: Header {
            query_response_indicator: true,
            response_code: if m.header.operation_code == 0 {
                NO_ERROR
            } else {
                NOT_IMPLEMENTED
            },
            answer_record_count: m.header.question_count,
            ..m.header
        },
        questions: m.questions,
        answers: Seq::new(m.questions.len(), |i: int| placeholder_answer(i as u8, m.questions[i])),
    }
}

/// The reply to a datagram that could not be read: "format error" under
/// the datagram's identifier, with every other field zero and no entries.
/// A datagram too short to hold an identifier gets no reply.
pub open spec fn format_error_reply(s: Seq<u8>) -> Option<RecordView> {
    if s.len() < 2 {
        None
    } else {
        Some(
            RecordView {
                header: Header {
                    packet_identifier: be16(s[0], s[1]),
                    query_response_indicator: true,
                    operation_code: 0,
                    authoritative_answer: false,
                    truncation: false,
                    recursion_desired: false,
                    recursion_available: false,
                    reserved: 0,
                    response_code: FORMAT_ERROR,
                    question_count: 0,
                    answer_record_count: 0,
                    authority_record_count: 0,
                    additional_record_count: 0,
                },
                questions: Seq::empty(),
                answers: Seq::empty(),
            },
        )
    }
}

/// The reply that stands in for one that never came: the request `m`
/// marked as a response, with "server failure" and no answers.
pub open spec fn server_failure_of(m: RecordView) -> RecordView {
    RecordView {
        header: Header {
            query_response_indicator: true,
            response_code: SERVER_FAILURE,
            answer_record_count: 0,
            ..m.header
        },
        questions: m.questions,
        answers: Seq::empty(),
    }
}

/// The reply that counts for `request`: the message that was received for
/// it, where bytes were received and can be read as a message; else the
/// stand-in that says "server failure".
pub open spec fn reply_or_failure_of(request: RecordView, received: Option<Seq<u8>>) -> RecordView {
    match received {
        Some(bytes) => match scan_record(bytes).0 {
            Ok(reply) => reply,
            Err(_) => server_failure_of(request),
        },
        None => server_failure_of(request),
    }
}

/// Bytes that may have been received, as a sequence.
pub open spec fn received_bytes(received: Option<BytesMut>) -> Option<Seq<u8>> {
    match received {
        Some(buf) => Some(octets(buf)),
        None => None,
    }
}

/// A message that may be there, as a view.
pub open spec fn optional_view(m: Option<Record>) -> Option<RecordView> {
    match m {
        Some(m) => Some(m@),
        None => None,
    }
}

/// The counts of some first replies sum to no more than those of all.
proof fn lemma_totals_grow(replies: Seq<RecordView>, n: int)
    requires
        0 <= n <= replies.len(),
    ensures
        total_questions(replies.take(n)) <= total_questions(replies),
        total_answers(replies.take(n)) <= total_answers(replies),
    decreases replies.len(),
{
    if n == replies.len() {
        assert(replies.take(n) =~= replies);
    } else {
        lemma_totals_grow(replies.drop_last(), n);
        assert(replies.drop_last().take(n) =~= replies.take(n));
    }
}

impl Record {
    /// Splits the message into one request for each of its questions, in
    /// the order of the questions. Each request carries the header of the
    /// message with a question count of one and the other counts zero.
    ///
    /// A message without questions gives no requests.
    pub fn generate_single_requests(self) -> (requests: Vec<Record>)
        ensures
            requests@.len() == self@.questions.len(),
            forall|i: int|
                0 <= i < requests@.len() ==> (#[trigger] requests@[i])@ == single_request(self@, i),
    {
        let mut h = self.header;
        h.question_count = 1;
        h.answer_record_count = 0;
        h.authority_record_count = 0;
        h.additional_record_count = 0;
        let ghost m = self@;
        let mut requests: Vec<Record> = Vec::new();
        for q in iter: self.questions
            invariant
                h == single_header(m.header),
                question_views(iter.seq()) == m.questions,
                requests@.len() == iter.index(),
                forall|i: int|
                    0 <= i < requests@.len() ==> (#[trigger] requests@[i])@ == single_request(m, i),
        {
            let mut questions: Vec<Question> = Vec::new();
            questions.push(q);
            let request = Record { header: h, questions, answers: Vec::new() };
            assert(request@.questions =~= seq![m.questions[iter.index()]]);
            assert(request@.answers =~= Seq::empty());
            requests.push(request);
        }
        requests
    }

    /// Merges the replies to the requests of one message into one message:
    /// the header of the first reply, with the sums of the replies'
    /// question counts and answer counts, and all their questions and all
    /// their answers in the order of the replies.
    ///
    /// No replies give no message. Counts that sum to more than a header
    /// can hold are refused.
    pub fn merge(replies: Vec<Record>) -> (r: Result<Option<Record>, DnsError>)
        ensures
            merge_outcome(r) == merged(record_views(replies@)),
    {
        if replies.len() == 0 {
            return Ok(None);
        }
        let mut h = replies[0].header;
        let ghost all = record_views(replies@);
        let mut total_q: u16 = 0;
        let mut total_a: u16 = 0;
        let mut qs: Vec<Question> = Vec::new();
        let mut ans: Vec<Answer> = Vec::new();
        assert(question_views(qs@) =~= Seq::empty());
        assert(answer_views(ans@) =~= Seq::empty());
        for reply in iter: replies
            invariant
                record_views(iter.seq()) == all,
                all.len() > 0,
                h == all[0].header,
                total_q == total_questions(all.take(iter.index())),
                total_a == total_answers(all.take(iter.index())),
                question_views(qs@) == all_questions(all.take(iter.index())),
                answer_views(ans@) == all_answers(all.take(iter.index())),
        {
            let mut reply = reply;
            let ghost n = iter.index();
            proof {
                assert(all.take(n + 1).drop_last() =~= all.take(n));
                assert(all.take(n + 1).last() == reply@);
                lemma_totals_grow(all, n + 1);
            }
            match total_q.checked_add(reply.header.question_count) {
                Some(t) => {
                    total_q = t;
                },
                None => {
                    return Err(DnsError::InconsistentCounts);
                },
            }
            match total_a.checked_add(reply.header.answer_record_count) {
                Some(t) => {
                    total_a = t;
                },
                None => {
                    return Err(DnsError::InconsistentCounts);
                },
            }
            proof {
                assert(question_views(qs@ + reply.questions@) =~= question_views(qs@)
                    + reply@.questions);
                assert(answer_views(ans@ + reply.answers@) =~= answer_views(ans@)
                    + reply@.answers);
            }
            qs.append(&mut reply.questions);
            ans.append(&mut reply.answers);
        }
        assert(all.take(all.len() as int) =~= all);
        h.question_count = total_q;
        h.answer_record_count = total_a;
        Ok(Some(Record { header: h, questions: qs, answers: ans }))
    }

    /// Answers the message without looking anything up: marks it as a
    /// response, says "not implemented" to any operation but a standard
    /// query, counts as many answers as the header counts questions, and
    /// puts a placeholder answer to each question in place of the answers
    /// that were there.
    ///
    /// The message may hold no more questions than there are placeholder
    /// answers to tell apart.
    pub fn respond(self) -> (response: Record)
        requires
            self.questions@.len() <= MAX_PLACEHOLDERS,
        ensures
            response@ == response_to(self@),
    {
        let mut resp = self;
        resp.header.query_response_indicator = true;
        resp.header.response_code = if resp.header.operation_code == 0 {
            NO_ERROR
        } else {
            NOT_IMPLEMENTED
        };
        resp.header.answer_record_count = resp.header.question_count;
        let mut answers: Vec<Answer> = Vec::new();
        let mut i: usize = 0;
        while i < resp.questions.len()
            invariant
                i <= resp.questions@.len() <= MAX_PLACEHOLDERS,
                answers@.len() == i,
                forall|j: int|
                    0 <= j < i ==> (#[trigger] answers@[j])@ == placeholder_answer(
                        j as u8,
                        resp.questions@[j]@,
                    ),
            decreases resp.questions@.len() - i,
        {
            answers.push(Answer::from_question(i as u8, &resp.questions[i]));
            i += 1;
        }
        resp.answers = answers;
        assert(resp@.answers =~= response_to(self@).answers);
        assert(resp@.questions =~= self@.questions);
        resp
    }

    /// The reply to a datagram that could not be read as a message: "format
    /// error" under the identifier that the datagram begins with. Where the
    /// datagram is too short to hold an identifier there is nothing to
    /// reply.
    pub fn format_error(datagram: &BytesMut) -> (reply: Option<Record>)
        ensures
            optional_view(reply) == format_error_reply(octets(*datagram)),
    {
        let bytes = as_slice(datagram);
        if bytes.len() < 2 {
            return None;
        }
        let id: u16 = bytes[0] as u16 * 256 + bytes[1] as u16;
        let reply = Record {
            header: Header {
                packet_identifier: id,
                query_response_indicator: true,
                operation_code: 0,
                authoritative_answer: false,
                truncation: false,
                recursion_desired: false,
                recursion_available: false,
                reserved: 0,
                response_code: FORMAT_ERROR,
                question_count: 0,
                answer_record_count: 0,
                authority_record_count: 0,
                additional_record_count: 0,
            },
            questions: Vec::new(),
            answers: Vec::new(),
        };
        assert(reply@.questions =~= Seq::empty());
        assert(reply@.answers =~= Seq::empty());
        Some(reply)
    }

    /// Settles what counts as the reply to this request, given what was
    /// received for it, if anything was: the message received, where it can
    /// be read; else the stand-in of [`Record::server_failure`]. A reply
    /// that was read has whole names and counts what it holds.
    pub fn reply_or_failure(self, received: Option<BytesMut>) -> (reply: Record)
        ensures
            reply@ == reply_or_failure_of(self@, received_bytes(received)),
            received_bytes(received) matches Some(bytes) && scan_record(bytes).0 is Ok
                ==> reply@.counts_agree() && reply@.is_whole(),
    {
        match received {
            Some(bytes) => {
                let mut bytes = bytes;
                match Record::from_bytes(&mut bytes) {
                    Ok(reply) => reply,
                    Err(_) => self.server_failure(),
                }
            },
            None => self.server_failure(),
        }
    }

    /// Turns a request that got no reply into the reply that stands in for
    /// it: the same header and questions, marked as a response, with
    /// "server failure" and no answers. The stand-in can be merged with the
    /// replies that did come.
    pub fn server_failure(self) -> (reply: Record)
        ensures
            reply@ == server_failure_of(self@),
    {
        let mut reply = self;
        reply.header.query_response_indicator = true;
        reply.header.response_code = SERVER_FAILURE;
        reply.header.answer_record_count = 0;
        reply.answers = Vec::new();
        assert(reply@.answers =~= Seq::empty());
        assert(reply@.questions =~= self@.questions);
        reply
    }
}

} // verus!
