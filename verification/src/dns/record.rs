//! Whole messages: a header, its questions and its answers.

use crate::dns::answer::{
    answer_encoding, answer_wire, resolve_answer, scan_answer, Answer, AnswerView,
};
use crate::dns::buffer::{as_slice, bytes_outcome, octets};
use crate::dns::error::DnsError;
use crate::dns::header::{header_wire, scan_header, Header};
use crate::dns::question::{
    question_encoding, question_wire, resolve_question, scan_question, Question, QuestionView,
};
use bytes::BytesMut;
use vstd::prelude::*;

verus! {

/// A message: a header and the questions and answers that follow it.
///
/// The header's counts are fields like any other. In a message that was
/// read from the wire they agree with `questions` and `answers`; a message
/// is written only where they do.
#[derive(Debug, Clone, PartialEq, Eq)]
pub struct Record {
    pub header: Header,
    pub questions: Vec<Question>,
    pub answers: Vec<Answer>,
}

/// A [`Record`] with its questions and answers as sequences of views.
pub struct RecordView {
    pub header: Header,
    pub questions: Seq<QuestionView>,
    pub answers: Seq<AnswerView>,
}

/// The views of `questions`, in order.
pub open spec fn question_views(questions: Seq<Question>) -> Seq<QuestionView> {
    questions.map_values(|q: Question| q@)
}

/// The views of `answers`, in order.
pub open spec fn answer_views(answers: Seq<Answer>) -> Seq<AnswerView> {
    answers.map_values(|a: Answer| a@)
}

impl View for Record {
    type V = RecordView;

    open spec fn view(&self) -> RecordView {
        RecordView {
            header: self.header,
            questions: question_views(self.questions@),
            answers: answer_views(self.answers@),
        }
    }
}

/// The questions `qs` on the wire, one after the other.
pub open spec fn questions_wire(qs: Seq<QuestionView>) -> Seq<u8>
    decreases qs.len(),
{
    if qs.len() == 0 {
        Seq::empty()
    } else {
        questions_wire(qs.drop_last()) + question_wire(qs.last())
    }
}

/// The answers `ans` on the wire, one after the other.
pub open spec fn answers_wire(ans: Seq<AnswerView>) -> Seq<u8>
    decreases ans.len(),
{
    if ans.len() == 0 {
        Seq::empty()
    } else {
        answers_wire(ans.drop_last()) + answer_wire(ans.last())
    }
}

/// The message `m` on the wire: header, questions, answers.
pub open spec fn record_wire(m: RecordView) -> Seq<u8> {
    header_wire(m.header) + questions_wire(m.questions) + answers_wire(m.answers)
}

/// What writing the questions `qs` one after the other gives: their bytes,
/// or the refusal of the first that cannot be written.
pub open spec fn questions_encoding(qs: Seq<QuestionView>) -> Result<Seq<u8>, DnsError>
    decreases qs.len(),
{
    if qs.len() == 0 {
        Ok(Seq::empty())
    } else {
        match questions_encoding(qs.drop_last()) {
            Err(e) => Err(e),
            Ok(front) => match question_encoding(qs.last()) {
                Err(e) => Err(e),
                Ok(last) => Ok(front + last),
            },
        }
    }
}

/// What writing the answers `ans` one after the other gives: their bytes,
/// or the refusal of the first that cannot be written.
pub open spec fn answers_encoding(ans: Seq<AnswerView>) -> Result<Seq<u8>, DnsError>
    decreases ans.len(),
{
    if ans.len() == 0 {
        Ok(Seq::empty())
    } else {
        match answers_encoding(ans.drop_last()) {
            Err(e) => Err(e),
            Ok(front) => match answer_encoding(ans.last()) {
                Err(e) => Err(e),
                Ok(last) => Ok(front + last),
            },
        }
    }
}

/// What writing `m` gives. A header that counts other than the questions
/// and answers that `m` holds is refused first; then the first question,
/// and then the first answer, whose name cannot be written. Else the bytes
/// are those of the header, the questions and the answers.
pub open spec fn record_encoding(m: RecordView) -> Result<Seq<u8>, DnsError> {
    if !m.counts_agree() {
        Err(DnsError::InconsistentCounts)
    } else {
        match questions_encoding(m.questions) {
            Err(e) => Err(e),
            Ok(questions) => match answers_encoding(m.answers) {
                Err(e) => Err(e),
                Ok(answers) => Ok(header_wire(m.header) + questions + answers),
            },
        }
    }
}

/// A refusal among some first questions is the refusal of all of them.
proof fn lemma_questions_refused(qs: Seq<QuestionView>, n: int)
    requires
        0 <= n <= qs.len(),
        questions_encoding(qs.take(n)) is Err,
    ensures
        questions_encoding(qs) == questions_encoding(qs.take(n)),
    decreases qs.len(),
{
    if n == qs.len() {
        assert(qs.take(n) =~= qs);
    } else {
        assert(qs.drop_last().take(n) =~= qs.take(n));
        lemma_questions_refused(qs.drop_last(), n);
    }
}

/// A refusal among some first answers is the refusal of all of them.
proof fn lemma_answers_refused(ans: Seq<AnswerView>, n: int)
    requires
        0 <= n <= ans.len(),
        answers_encoding(ans.take(n)) is Err,
    ensures
        answers_encoding(ans) == answers_encoding(ans.take(n)),
    decreases ans.len(),
{
    if n == ans.len() {
        assert(ans.take(n) =~= ans);
    } else {
        assert(ans.drop_last().take(n) =~= ans.take(n));
        lemma_answers_refused(ans.drop_last(), n);
    }
}

/// What reading `count` questions from the front of `s` gives, after the
/// questions in `found`, and the bytes left. `full` is the whole message,
/// in which pointers are followed as soon as a question has been read.
pub open spec fn scan_questions(
    s: Seq<u8>,
    full: Seq<u8>,
    count: nat,
    found: Seq<QuestionView>,
) -> (Result<Seq<QuestionView>, DnsError>, Seq<u8>)
    decreases count,
{
    if count == 0 {
        (Ok(found), s)
    } else {
        let (q, rest) = scan_question(s);
        match q {
            Err(e) => (Err(e), rest),
            Ok(q) => match resolve_question(q, full) {
                Err(e) => (Err(e), rest),
                Ok(q) => scan_questions(rest, full, (count - 1) as nat, found.push(q)),
            },
        }
    }
}

/// What reading `count` answers from the front of `s` gives, after the
/// answers in `found`, and the bytes left; `full` as in [`scan_questions`].
pub open spec fn scan_answers(s: Seq<u8>, full: Seq<u8>, count: nat, found: Seq<AnswerView>) -> (
    Result<Seq<AnswerView>, DnsError>,
    Seq<u8>,
)
    decreases count,
{
    if count == 0 {
        (Ok(found), s)
    } else {
        let (a, rest) = scan_answer(s);
        match a {
            Err(e) => (Err(e), rest),
            Ok(a) => match resolve_answer(a, full) {
                Err(e) => (Err(e), rest),
                Ok(a) => scan_answers(rest, full, (count - 1) as nat, found.push(a)),
            },
        }
    }
}

/// What reading a message from `s` gives, and the bytes left after it: the
/// header, then as many questions and then as many answers as the header
/// counts. Pointers lead into `s` itself.
pub open spec fn scan_record(s: Seq<u8>) -> (Result<RecordView, DnsError>, Seq<u8>) {
    let (header, rest) = scan_header(s);
    match header {
        Err(e) => (Err(e), rest),
        Ok(header) => {
            let (questions, rest) = scan_questions(
                rest,
                s,
                header.question_count as nat,
                Seq::empty(),
            );
            match questions {
                Err(e) => (Err(e), rest),
                Ok(questions) => {
                    let (answers, rest) = scan_answers(
                        rest,
                        s,
                        header.answer_record_count as nat,
                        Seq::empty(),
                    );
                    match answers {
                        Err(e) => (Err(e), rest),
                        Ok(answers) => (Ok(RecordView { header, questions, answers }), rest),
                    }
                },
            }
        },
    }
}

/// The outcome of reading a message, as a view.
pub open spec fn record_outcome(r: Result<Record, DnsError>) -> Result<RecordView, DnsError> {
    match r {
        Ok(m) => Ok(m@),
        Err(e) => Err(e),
    }
}

impl RecordView {
    /// The header counts as many questions and answers as the message
    /// holds.
    pub open spec fn counts_agree(self) -> bool {
        &&& self.header.question_count == self.questions.len()
        &&& self.header.answer_record_count == self.answers.len()
    }

    /// Each question and each answer survives a trip over the wire.
    pub open spec fn entries_wf(self) -> bool {
        &&& forall|i: int| 0 <= i < self.questions.len() ==> (#[trigger] self.questions[i]).wf()
        &&& forall|i: int| 0 <= i < self.answers.len() ==> (#[trigger] self.answers[i]).wf()
    }

    /// The message survives a trip over the wire: its header does, the
    /// header's counts agree with what it holds, and each question and
    /// answer does.
    pub open spec fn wf(self) -> bool {
        &&& self.header.wf()
        &&& self.counts_agree()
        &&& self.entries_wf()
    }

    /// The name of every answer is whole.
    pub open spec fn answers_whole(self) -> bool {
        forall|i: int| 0 <= i < self.answers.len() ==> (#[trigger] self.answers[i]).pointer is None
    }

    /// Every name is whole, and every answer holds as many bytes of data
    /// as it declares.
    pub open spec fn is_whole(self) -> bool {
        &&& forall|i: int|
            0 <= i < self.questions.len() ==> (#[trigger] self.questions[i]).pointer is None
        &&& forall|i: int|
            0 <= i < self.answers.len() ==> {
                &&& (#[trigger] self.answers[i]).pointer is None
                &&& self.answers[i].data.len() == self.answers[i].length
            }
    }
}

impl Record {
    /// Reads a message from the front of `buf`: the header, then as many
    /// questions and answers as the header counts. A name that ends in a
    /// compression pointer is made whole at once, from the message as it
    /// stood when the call began. What follows the answers stays in `buf`.
    ///
    /// Reading stops at the first error, and `buf` is left where it
    /// stopped.
    #[verifier::loop_isolation(false)]
    pub fn from_bytes(buf: &mut BytesMut) -> (r: Result<Record, DnsError>)
        ensures
            record_outcome(r) == scan_record(octets(*old(buf))).0,
            octets(*final(buf)) == scan_record(octets(*old(buf))).1,
            r matches Ok(m) ==> m@.counts_agree() && m@.is_whole() && m.header.in_range(),
    {
        let full_message = buf.clone();
        let ghost full = octets(*buf);
        let h = Header::from_bytes(buf)?;
        let ghost after_header = octets(*buf);
        let mut qs: Vec<Question> = Vec::new();
        let mut i: u16 = 0;
        assert(question_views(qs@) =~= Seq::empty());
        while i < h.question_count
            invariant
                i <= h.question_count,
                octets(full_message) == full,
                qs@.len() == i,
                forall|j: int| 0 <= j < qs@.len() ==> (#[trigger] qs@[j]).pointer is None,
                scan_questions(
                    octets(*buf),
                    full,
                    (h.question_count - i) as nat,
                    question_views(qs@),
                ) == scan_questions(after_header, full, h.question_count as nat, Seq::empty()),
            decreases h.question_count - i,
        {
            let mut q = Question::from_bytes(buf)?;
            q.update_pointer_from_full(&full_message)?;
            proof {
                assert(question_views(qs@.push(q)) =~= question_views(qs@).push(q@));
            }
            qs.push(q);
            i += 1;
        }
        let ghost after_questions = octets(*buf);
        let mut answers: Vec<Answer> = Vec::new();
        let mut k: u16 = 0;
        assert(answer_views(answers@) =~= Seq::empty());
        while k < h.answer_record_count
            invariant
                k <= h.answer_record_count,
                octets(full_message) == full,
                answers@.len() == k,
                forall|j: int|
                    0 <= j < answers@.len() ==> {
                        &&& (#[trigger] answers@[j]).pointer is None
                        &&& answers@[j].data@.len() == answers@[j].length
                    },
                scan_answers(
                    octets(*buf),
                    full,
                    (h.answer_record_count - k) as nat,
                    answer_views(answers@),
                ) == scan_answers(
                    after_questions,
                    full,
                    h.answer_record_count as nat,
                    Seq::empty(),
                ),
            decreases h.answer_record_count - k,
        {
            let mut a = Answer::from_bytes(buf)?;
            a.update_pointer_from_full(&full_message)?;
            proof {
                assert(answer_views(answers@.push(a)) =~= answer_views(answers@).push(a@));
            }
            answers.push(a);
            k += 1;
        }
        Ok(Record { header: h, questions: qs, answers })
    }

    /// Whether the name of every answer is whole, as
    /// [`Record::to_bytes`] needs it.
    pub fn answers_are_whole(&self) -> (whole: bool)
        ensures
            whole == self@.answers_whole(),
    {
        let mut k: usize = 0;
        while k < self.answers.len()
            invariant
                k <= self.answers@.len(),
                forall|j: int| 0 <= j < k ==> (#[trigger] self@.answers[j]).pointer is None,
            decreases self.answers@.len() - k,
        {
            if self.answers[k].pointer.is_some() {
                assert(self@.answers[k as int].pointer is Some);
                return false;
            }
            k += 1;
        }
        true
    }

    /// Writes the message: the header, each question in order, each answer
    /// in order. Names are always spelled out. The names of the answers
    /// must be whole.
    ///
    /// A message whose header counts other than the questions and answers
    /// that it holds is refused, and so is one with a name that cannot be
    /// written. The counts of authority and additional records, for which a
    /// message holds no entries, are written as they are.
    pub fn to_bytes(&self) -> (r: Result<BytesMut, DnsError>)
        requires
            self@.answers_whole(),
        ensures
            bytes_outcome(r) == record_encoding(self@),
    {
        if self.header.question_count as usize != self.questions.len()
            || self.header.answer_record_count as usize != self.answers.len() {
            return Err(DnsError::InconsistentCounts);
        }
        let mut buf = self.header.to_bytes();
        let ghost m = self@;
        let ghost mut written: Seq<u8> = Seq::empty();
        let mut i: usize = 0;
        assert(m.questions.take(0) =~= Seq::empty());
        assert(octets(buf) =~= header_wire(m.header) + written);
        while i < self.questions.len()
            invariant
                i <= self.questions@.len(),
                m == self@,
                m.counts_agree(),
                questions_encoding(m.questions.take(i as int)) == Ok::<Seq<u8>, DnsError>(written),
                octets(buf) == header_wire(m.header) + written,
            decreases self.questions@.len() - i,
        {
            proof {
                assert(m.questions.take(i + 1).drop_last() =~= m.questions.take(i as int));
                assert(m.questions.take(i + 1).last() == self.questions@[i as int]@);
            }
            match self.questions[i].to_bytes() {
                Ok(bs) => {
                    buf.extend_from_slice(as_slice(&bs));
                    proof {
                        assert(octets(buf) =~= header_wire(m.header) + (written + octets(bs)));
                        written = written + octets(bs);
                    }
                },
                Err(e) => {
                    proof {
                        lemma_questions_refused(m.questions, i + 1);
                    }
                    return Err(e);
                },
            }
            i += 1;
        }
        assert(m.questions.take(i as int) =~= m.questions);
        let ghost questions = written;
        let ghost mut written: Seq<u8> = Seq::empty();
        let mut k: usize = 0;
        assert(m.answers.take(0) =~= Seq::empty());
        assert(octets(buf) =~= header_wire(m.header) + questions + written);
        while k < self.answers.len()
            invariant
                k <= self.answers@.len(),
                m == self@,
                m.counts_agree(),
                m.answers_whole(),
                questions_encoding(m.questions) == Ok::<Seq<u8>, DnsError>(questions),
                answers_encoding(m.answers.take(k as int)) == Ok::<Seq<u8>, DnsError>(written),
                octets(buf) == header_wire(m.header) + questions + written,
            decreases self.answers@.len() - k,
        {
            proof {
                assert(m.answers.take(k + 1).drop_last() =~= m.answers.take(k as int));
                assert(m.answers.take(k + 1).last() == self.answers@[k as int]@);
                assert(m.answers[k as int].pointer is None);
            }
            match self.answers[k].to_bytes() {
                Ok(bs) => {
                    buf.extend_from_slice(as_slice(&bs));
                    proof {
                        assert(octets(buf) =~= header_wire(m.header) + questions + (written
                            + octets(bs)));
                        written = written + octets(bs);
                    }
                },
                Err(e) => {
                    proof {
                        lemma_answers_refused(m.answers, k + 1);
                    }
                    return Err(e);
                },
            }
            k += 1;
        }
        assert(m.answers.take(k as int) =~= m.answers);
        Ok(buf)
    }
}

} // verus!
