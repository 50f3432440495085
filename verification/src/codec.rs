//! The message encoder and the framing adapter: serializes a structured
//! message back to wire bytes (names always written in full, never
//! compressed), and decodes one message per inbound buffer, signalling
//! "need more data" instead of failing when the buffer is merely short.

use vstd::prelude::*;
use vstd::utf8::encode_utf8;

use crate::message::Header;
use crate::message::Message;
use crate::message::MessageView;
use crate::message::Name;
use crate::message::Question;
use crate::message::QuestionView;
use crate::message::RecordView;
use crate::message::ResourceRecord;
use crate::message::spec_flags_raw;
use crate::parser;
use crate::parser::DecodeError;
use crate::parser::spec_parse_message;

verus! {

/// Why an encode attempt failed: some label is too long for its one-byte
/// length prefix. The error is explicit rather than a crash, and nothing
/// is written when it is returned.
#[derive(Clone, Copy, Debug, PartialEq, Eq, Structural)]
pub enum EncodeError {
    /// A label's byte length exceeds the 63 bytes a length prefix can
    /// carry without colliding with the pointer tag bits.
    LabelTooLong,
}

/// The two bytes of a 16-bit value in network byte order.
pub open spec fn spec_u16_be(v: u16) -> Seq<u8> {
    seq![(v >> 8) as u8, (v & 0xff) as u8]
}

/// The four bytes of a 32-bit value in network byte order.
pub open spec fn spec_u32_be(v: u32) -> Seq<u8> {
    seq![(v >> 24) as u8, ((v >> 16) & 0xff) as u8, ((v >> 8) & 0xff) as u8, (v & 0xff) as u8]
}

/// A label fits on the wire when its UTF-8 byte length fits the one-byte
/// length prefix without touching the two pointer tag bits: at most 63.
pub open spec fn label_fits(l: Seq<char>) -> bool {
    encode_utf8(l).len() <= 63
}

/// Every label of the name fits its length prefix.
pub open spec fn name_encodable(ls: Seq<Seq<char>>) -> bool {
    forall|i: int| 0 <= i < ls.len() ==> label_fits(#[trigger] ls[i])
}

/// The wire bytes of a name's labels: each label as a length byte followed
/// by its UTF-8 bytes.
pub open spec fn spec_encode_labels(ls: Seq<Seq<char>>) -> Seq<u8>
    decreases ls.len(),
{
    if ls.len() == 0 {
        Seq::empty()
    } else {
        seq![encode_utf8(ls[0]).len() as u8] + encode_utf8(ls[0]) + spec_encode_labels(
            ls.drop_first(),
        )
    }
}

/// The wire bytes of a whole name: its labels, terminated by a zero byte.
pub open spec fn spec_encode_name(ls: Seq<Seq<char>>) -> Seq<u8> {
    spec_encode_labels(ls) + seq![0u8]
}

/// The 12 header bytes: six 16-bit fields in network byte order.
pub open spec fn spec_encode_header(h: Header) -> Seq<u8> {
    spec_u16_be(h.id) + spec_u16_be(spec_flags_raw(h.flags)) + spec_u16_be(h.qd_count)
        + spec_u16_be(h.an_count) + spec_u16_be(h.ns_count) + spec_u16_be(h.ar_count)
}

/// The wire bytes of one question.
pub open spec fn spec_encode_question(q: QuestionView) -> Seq<u8> {
    spec_encode_name(q.qname) + spec_u16_be(q.qtype) + spec_u16_be(q.qclass)
}

/// The wire bytes of one resource record; the payload is carried opaquely.
pub open spec fn spec_encode_record(r: RecordView) -> Seq<u8> {
    spec_encode_name(r.name) + spec_u16_be(r.rtype) + spec_u16_be(r.class) + spec_u32_be(r.ttl)
        + spec_u16_be(r.rdlength) + r.rdata
}

/// The wire bytes of a question section, in order.
pub open spec fn spec_encode_questions(qs: Seq<QuestionView>) -> Seq<u8>
    decreases qs.len(),
{
    if qs.len() == 0 {
        Seq::empty()
    } else {
        spec_encode_question(qs[0]) + spec_encode_questions(qs.drop_first())
    }
}

/// The wire bytes of a record section, in order.
pub open spec fn spec_encode_records(rs: Seq<RecordView>) -> Seq<u8>
    decreases rs.len(),
{
    if rs.len() == 0 {
        Seq::empty()
    } else {
        spec_encode_record(rs[0]) + spec_encode_records(rs.drop_first())
    }
}

/// The wire bytes of a whole message: header, questions, then the answer,
/// authority and additional records in that order.
pub open spec fn spec_encode_message(m: MessageView) -> Seq<u8> {
    spec_encode_header(m.header) + spec_encode_questions(m.question) + spec_encode_records(
        m.answer,
    ) + spec_encode_records(m.authority) + spec_encode_records(m.additional)
}

/// Every name anywhere in the message is encodable.
pub open spec fn msg_encodable(m: MessageView) -> bool {
    &&& forall|i: int| 0 <= i < m.question.len() ==> name_encodable(#[trigger] m.question[i].qname)
    &&& forall|i: int| 0 <= i < m.answer.len() ==> name_encodable(#[trigger] m.answer[i].name)
    &&& forall|i: int|
        0 <= i < m.authority.len() ==> name_encodable(#[trigger] m.authority[i].name)
    &&& forall|i: int|
        0 <= i < m.additional.len() ==> name_encodable(#[trigger] m.additional[i].name)
}

/// Extending a label prefix by its next label appends that label's wire
/// bytes.
pub proof fn lemma_encode_labels_snoc(ls: Seq<Seq<char>>, i: int)
    requires
        0 <= i < ls.len(),
    ensures
        spec_encode_labels(ls.take(i + 1)) == spec_encode_labels(ls.take(i)) + (seq![
            encode_utf8(ls[i]).len() as u8,
        ] + encode_utf8(ls[i])),
    decreases i,
{
    if i == 0 {
        assert(ls.take(1).drop_first() =~= ls.take(0));
        assert(ls.take(0) =~= Seq::<Seq<char>>::empty());
        assert(spec_encode_labels(ls.take(i + 1)) =~= spec_encode_labels(ls.take(i)) + (seq![
            encode_utf8(ls[i]).len() as u8,
        ] + encode_utf8(ls[i])));
    } else {
        lemma_encode_labels_snoc(ls.drop_first(), i - 1);
        assert(ls.take(i + 1).drop_first() =~= ls.drop_first().take(i));
        assert(ls.take(i).drop_first() =~= ls.drop_first().take(i - 1));
        assert(ls.take(i + 1)[0] == ls[0] && ls.take(i)[0] == ls[0]);
        assert(ls.drop_first()[i - 1] == ls[i]);
        assert(spec_encode_labels(ls.take(i + 1)) =~= spec_encode_labels(ls.take(i)) + (seq![
            encode_utf8(ls[i]).len() as u8,
        ] + encode_utf8(ls[i])));
    }
}

/// Extending a question prefix by its next question appends that
/// question's wire bytes.
pub proof fn lemma_encode_questions_snoc(qs: Seq<QuestionView>, i: int)
    requires
        0 <= i < qs.len(),
    ensures
        spec_encode_questions(qs.take(i + 1)) == spec_encode_questions(qs.take(i))
            + spec_encode_question(qs[i]),
    decreases i,
{
    if i == 0 {
        assert(qs.take(1).drop_first() =~= qs.take(0));
        assert(qs.take(0) =~= Seq::<QuestionView>::empty());
        assert(spec_encode_questions(qs.take(i + 1)) =~= spec_encode_questions(qs.take(i))
            + spec_encode_question(qs[i]));
    } else {
        lemma_encode_questions_snoc(qs.drop_first(), i - 1);
        assert(qs.take(i + 1).drop_first() =~= qs.drop_first().take(i));
        assert(qs.take(i).drop_first() =~= qs.drop_first().take(i - 1));
        assert(qs.take(i + 1)[0] == qs[0] && qs.take(i)[0] == qs[0]);
        assert(qs.drop_first()[i - 1] == qs[i]);
        assert(spec_encode_questions(qs.take(i + 1)) =~= spec_encode_questions(qs.take(i))
            + spec_encode_question(qs[i]));
    }
}

/// Extending a record prefix by its next record appends that record's wire
/// bytes.
pub proof fn lemma_encode_records_snoc(rs: Seq<RecordView>, i: int)
    requires
        0 <= i < rs.len(),
    ensures
        spec_encode_records(rs.take(i + 1)) == spec_encode_records(rs.take(i)) + spec_encode_record(
            rs[i],
        ),
    decreases i,
{
    if i == 0 {
        assert(rs.take(1).drop_first() =~= rs.take(0));
        assert(rs.take(0) =~= Seq::<RecordView>::empty());
        assert(spec_encode_records(rs.take(i + 1)) =~= spec_encode_records(rs.take(i))
            + spec_encode_record(rs[i]));
    } else {
        lemma_encode_records_snoc(rs.drop_first(), i - 1);
        assert(rs.take(i + 1).drop_first() =~= rs.drop_first().take(i));
        assert(rs.take(i).drop_first() =~= rs.drop_first().take(i - 1));
        assert(rs.take(i + 1)[0] == rs[0] && rs.take(i)[0] == rs[0]);
        assert(rs.drop_first()[i - 1] == rs[i]);
        assert(spec_encode_records(rs.take(i + 1)) =~= spec_encode_records(rs.take(i))
            + spec_encode_record(rs[i]));
    }
}

/// Appends one 16-bit field in network byte order.
fn push_u16(dst: &mut Vec<u8>, v: u16)
    ensures
        final(dst)@ == old(dst)@ + spec_u16_be(v),
{
    proof {
        assert((v >> 8) <= 0xff && (v & 0xff) <= 0xff) by (bit_vector);
    }
    dst.push((v >> 8) as u8);
    dst.push((v & 0xff) as u8);
    proof {
        assert(dst@ =~= old(dst)@ + spec_u16_be(v));
    }
}

/// Appends one 32-bit field in network byte order.
fn push_u32(dst: &mut Vec<u8>, v: u32)
    ensures
        final(dst)@ == old(dst)@ + spec_u32_be(v),
{
    proof {
        assert((v >> 24) <= 0xff && ((v >> 16) & 0xff) <= 0xff && ((v >> 8) & 0xff) <= 0xff && (v
            & 0xff) <= 0xff) by (bit_vector);
    }
    dst.push((v >> 24) as u8);
    dst.push(((v >> 16) & 0xff) as u8);
    dst.push(((v >> 8) & 0xff) as u8);
    dst.push((v & 0xff) as u8);
    proof {
        assert(dst@ =~= old(dst)@ + spec_u32_be(v));
    }
}

/// True when every label of the name fits its length prefix.
fn name_fits(n: &Name) -> (b: bool)
    ensures
        b == name_encodable(n@),
{
    let mut i: usize = 0;
    while i < n.labels.len()
        invariant
            i <= n.labels.len(),
            n@.len() == n.labels.len(),
            forall|k: int| 0 <= k < i ==> label_fits(#[trigger] n@[k]),
        decreases n.labels.len() - i,
    {
        let lb = n.labels[i].as_str().as_bytes();
        proof {
            assert(n@[i as int] == n.labels@[i as int]@);
        }
        if lb.len() > 63 {
            proof {
                assert(!label_fits(n@[i as int]));
            }
            return false;
        }
        i = i + 1;
    }
    true
}

/// The framing adapter and encoder: one message per inbound datagram
/// buffer, one serialized message appended per outbound call.
pub struct DnsCodec;

impl DnsCodec {
    /// True when every name in the message is encodable.
    fn message_fits(item: &Message) -> (b: bool)
        ensures
            b == msg_encodable(item@),
    {
        let mut i: usize = 0;
        while i < item.question.len()
            invariant
                i <= item.question.len(),
                item@.question.len() == item.question.len(),
                forall|k: int|
                    0 <= k < i ==> name_encodable(#[trigger] item@.question[k].qname),
            decreases item.question.len() - i,
        {
            let ok = name_fits(&item.question[i].qname);
            proof {
                assert(item@.question[i as int] == item.question@[i as int]@);
                assert(item@.question[i as int].qname == item.question@[i as int].qname@);
            }
            if !ok {
                return false;
            }
            i = i + 1;
        }
        let mut i: usize = 0;
        while i < item.answer.len()
            invariant
                i <= item.answer.len(),
                item@.answer.len() == item.answer.len(),
                forall|k: int| 0 <= k < i ==> name_encodable(#[trigger] item@.answer[k].name),
                forall|k: int|
                    0 <= k < item@.question.len() ==> name_encodable(
                        #[trigger] item@.question[k].qname,
                    ),
            decreases item.answer.len() - i,
        {
            let ok = name_fits(&item.answer[i].name);
            proof {
                assert(item@.answer[i as int] == item.answer@[i as int]@);
                assert(item@.answer[i as int].name == item.answer@[i as int].name@);
            }
            if !ok {
                return false;
            }
            i = i + 1;
        }
        let mut i: usize = 0;
        while i < item.authority.len()
            invariant
                i <= item.authority.len(),
                item@.authority.len() == item.authority.len(),
                forall|k: int| 0 <= k < i ==> name_encodable(#[trigger] item@.authority[k].name),
                forall|k: int|
                    0 <= k < item@.question.len() ==> name_encodable(
                        #[trigger] item@.question[k].qname,
                    ),
                forall|k: int|
                    0 <= k < item@.answer.len() ==> name_encodable(#[trigger] item@.answer[k].name),
            decreases item.authority.len() - i,
        {
            let ok = name_fits(&item.authority[i].name);
            proof {
                assert(item@.authority[i as int] == item.authority@[i as int]@);
                assert(item@.authority[i as int].name == item.authority@[i as int].name@);
            }
            if !ok {
                return false;
            }
            i = i + 1;
        }
        let mut i: usize = 0;
        while i < item.additional.len()
            invariant
                i <= item.additional.len(),
                item@.additional.len() == item.additional.len(),
                forall|k: int| 0 <= k < i ==> name_encodable(#[trigger] item@.additional[k].name),
                forall|k: int|
                    0 <= k < item@.question.len() ==> name_encodable(
                        #[trigger] item@.question[k].qname,
                    ),
                forall|k: int|
                    0 <= k < item@.answer.len() ==> name_encodable(#[trigger] item@.answer[k].name),
                forall|k: int|
                    0 <= k < item@.authority.len() ==> name_encodable(
                        #[trigger] item@.authority[k].name,
                    ),
            decreases item.additional.len() - i,
        {
            let ok = name_fits(&item.additional[i].name);
            proof {
                assert(item@.additional[i as int] == item.additional@[i as int]@);
                assert(item@.additional[i as int].name == item.additional@[i as int].name@);
            }
            if !ok {
                return false;
            }
            i = i + 1;
        }
        true
    }

    /// Appends one name, written in full: each label as a length byte and
    /// its bytes, then the zero terminator. No compression on write.
    pub fn encode_name(&mut self, item: &Name, dst: &mut Vec<u8>) -> (r: Result<(), EncodeError>)
        ensures
            r is Ok <==> name_encodable(item@),
            r is Ok ==> final(dst)@ == old(dst)@ + spec_encode_name(item@),
            r is Err ==> final(dst)@ == old(dst)@,
    {
        if !name_fits(item) {
            return Err(EncodeError::LabelTooLong);
        }
        let mut i: usize = 0;
        proof {
            assert(item@.take(0) =~= Seq::<Seq<char>>::empty());
            assert(old(dst)@ + spec_encode_labels(item@.take(0)) =~= old(dst)@);
        }
        while i < item.labels.len()
            invariant
                i <= item.labels.len(),
                item@.len() == item.labels.len(),
                name_encodable(item@),
                dst@ == old(dst)@ + spec_encode_labels(item@.take(i as int)),
            decreases item.labels.len() - i,
        {
            let lb = item.labels[i].as_str().as_bytes();
            proof {
                assert(item@[i as int] == item.labels@[i as int]@);
                assert(label_fits(item@[i as int]));
            }
            dst.push(lb.len() as u8);
            dst.extend_from_slice(lb);
            proof {
                lemma_encode_labels_snoc(item@, i as int);
                assert(dst@ =~= old(dst)@ + spec_encode_labels(item@.take(i + 1)));
            }
            i = i + 1;
        }
        dst.push(0);
        proof {
            assert(item@.take(item@.len() as int) =~= item@);
            assert(dst@ =~= old(dst)@ + spec_encode_name(item@));
        }
        Ok(())
    }

    /// Appends the six fixed header fields in network byte order.
    pub fn encode_header(&mut self, item: Header, dst: &mut Vec<u8>) -> (r: Result<
        (),
        EncodeError,
    >)
        ensures
            r is Ok,
            final(dst)@ == old(dst)@ + spec_encode_header(item),
    {
        push_u16(dst, item.id);
        push_u16(dst, item.flags.raw_value());
        push_u16(dst, item.qd_count);
        push_u16(dst, item.an_count);
        push_u16(dst, item.ns_count);
        push_u16(dst, item.ar_count);
        proof {
            assert(dst@ =~= old(dst)@ + spec_encode_header(item));
        }
        Ok(())
    }

    /// Appends one question: its name, then the type and class codes.
    pub fn encode_question(&mut self, item: &Question, dst: &mut Vec<u8>) -> (r: Result<
        (),
        EncodeError,
    >)
        ensures
            r is Ok <==> name_encodable(item.qname@),
            r is Ok ==> final(dst)@ == old(dst)@ + spec_encode_question(item@),
            r is Err ==> final(dst)@ == old(dst)@,
    {
        match self.encode_name(&item.qname, dst) {
            Ok(()) => {},
            Err(e) => {
                return Err(e);
            },
        }
        push_u16(dst, item.qtype);
        push_u16(dst, item.qclass);
        proof {
            assert(dst@ =~= old(dst)@ + spec_encode_question(item@));
        }
        Ok(())
    }

    /// Appends one resource record: name, type, class, time to live, the
    /// declared payload length, then the raw payload bytes.
    pub fn encode_resource_record(&mut self, item: &ResourceRecord, dst: &mut Vec<u8>) -> (r:
        Result<(), EncodeError>)
        ensures
            r is Ok <==> name_encodable(item.name@),
            r is Ok ==> final(dst)@ == old(dst)@ + spec_encode_record(item@),
            r is Err ==> final(dst)@ == old(dst)@,
    {
        match self.encode_name(&item.name, dst) {
            Ok(()) => {},
            Err(e) => {
                return Err(e);
            },
        }
        push_u16(dst, item.rtype);
        push_u16(dst, item.class);
        push_u32(dst, item.ttl);
        push_u16(dst, item.rdlength);
        dst.extend_from_slice(item.rdata.as_slice());
        proof {
            assert(dst@ =~= old(dst)@ + spec_encode_record(item@));
        }
        Ok(())
    }

    /// Appends one complete serialized message, or appends nothing and
    /// reports the offending condition when a label cannot be encoded.
    pub fn encode(&mut self, item: Message, dst: &mut Vec<u8>) -> (r: Result<(), EncodeError>)
        ensures
            r is Ok <==> msg_encodable(item@),
            r is Ok ==> final(dst)@ == old(dst)@ + spec_encode_message(item@),
            r is Err ==> final(dst)@ == old(dst)@,
    {
        if !Self::message_fits(&item) {
            return Err(EncodeError::LabelTooLong);
        }
        match self.encode_header(item.header, dst) {
            Ok(()) => {},
            Err(e) => {
                return Err(e);
            },
        }
        let ghost base0 = dst@;
        let mut i: usize = 0;
        proof {
            assert(item@.question.take(0) =~= Seq::<QuestionView>::empty());
            assert(base0 + spec_encode_questions(item@.question.take(0)) =~= base0);
        }
        while i < item.question.len()
            invariant
                i <= item.question.len(),
                msg_encodable(item@),
                item@.question.len() == item.question.len(),
                dst@ == base0 + spec_encode_questions(item@.question.take(i as int)),
            decreases item.question.len() - i,
        {
            proof {
                assert(item@.question[i as int] == item.question@[i as int]@);
                assert(name_encodable(item@.question[i as int].qname));
            }
            match self.encode_question(&item.question[i], dst) {
                Ok(()) => {},
                Err(e) => {
                    proof {
                        assert(false);
                    }
                    return Err(e);
                },
            }
            proof {
                lemma_encode_questions_snoc(item@.question, i as int);
                assert(dst@ =~= base0 + spec_encode_questions(item@.question.take(i + 1)));
            }
            i = i + 1;
        }
        proof {
            assert(item@.question.take(item@.question.len() as int) =~= item@.question);
        }
        let ghost base1 = dst@;
        let mut i: usize = 0;
        proof {
            assert(item@.answer.take(0) =~= Seq::<RecordView>::empty());
            assert(base1 + spec_encode_records(item@.answer.take(0)) =~= base1);
        }
        while i < item.answer.len()
            invariant
                i <= item.answer.len(),
                msg_encodable(item@),
                item@.answer.len() == item.answer.len(),
                dst@ == base1 + spec_encode_records(item@.answer.take(i as int)),
            decreases item.answer.len() - i,
        {
            proof {
                assert(item@.answer[i as int] == item.answer@[i as int]@);
                assert(name_encodable(item@.answer[i as int].name));
            }
            match self.encode_resource_record(&item.answer[i], dst) {
                Ok(()) => {},
                Err(e) => {
                    proof {
                        assert(false);
                    }
                    return Err(e);
                },
            }
            proof {
                lemma_encode_records_snoc(item@.answer, i as int);
                assert(dst@ =~= base1 + spec_encode_records(item@.answer.take(i + 1)));
            }
            i = i + 1;
        }
        proof {
            assert(item@.answer.take(item@.answer.len() as int) =~= item@.answer);
        }
        let ghost base2 = dst@;
        let mut i: usize = 0;
        proof {
            assert(item@.authority.take(0) =~= Seq::<RecordView>::empty());
            assert(base2 + spec_encode_records(item@.authority.take(0)) =~= base2);
        }
        while i < item.authority.len()
            invariant
                i <= item.authority.len(),
                msg_encodable(item@),
                item@.authority.len() == item.authority.len(),
                dst@ == base2 + spec_encode_records(item@.authority.take(i as int)),
            decreases item.authority.len() - i,
        {
            proof {
                assert(item@.authority[i as int] == item.authority@[i as int]@);
                assert(name_encodable(item@.authority[i as int].name));
            }
            match self.encode_resource_record(&item.authority[i], dst) {
                Ok(()) => {},
                Err(e) => {
                    proof {
                        assert(false);
                    }
                    return Err(e);
                },
            }
            proof {
                lemma_encode_records_snoc(item@.authority, i as int);
                assert(dst@ =~= base2 + spec_encode_records(item@.authority.take(i + 1)));
            }
            i = i + 1;
        }
        proof {
            assert(item@.authority.take(item@.authority.len() as int) =~= item@.authority);
        }
        let ghost base3 = dst@;
        let mut i: usize = 0;
        proof {
            assert(item@.additional.take(0) =~= Seq::<RecordView>::empty());
            assert(base3 + spec_encode_records(item@.additional.take(0)) =~= base3);
        }
        while i < item.additional.len()
            invariant
                i <= item.additional.len(),
                msg_encodable(item@),
                item@.additional.len() == item.additional.len(),
                dst@ == base3 + spec_encode_records(item@.additional.take(i as int)),
            decreases item.additional.len() - i,
        {
            proof {
                assert(item@.additional[i as int] == item.additional@[i as int]@);
                assert(name_encodable(item@.additional[i as int].name));
            }
            match self.encode_resource_record(&item.additional[i], dst) {
                Ok(()) => {},
                Err(e) => {
                    proof {
                        assert(false);
                    }
                    return Err(e);
                },
            }
            proof {
                lemma_encode_records_snoc(item@.additional, i as int);
                assert(dst@ =~= base3 + spec_encode_records(item@.additional.take(i + 1)));
            }
            i = i + 1;
        }
        proof {
            assert(item@.additional.take(item@.additional.len() as int) =~= item@.additional);
            assert(dst@ =~= old(dst)@ + spec_encode_message(item@));
        }
        Ok(())
    }

    /// Attempts one decode of the buffer's current contents. On success the
    /// buffer is advanced past exactly the bytes the message occupied; a
    /// merely short buffer yields `Ok(None)` so the caller can supply more
    /// bytes; anything else is a `Malformed` failure, and the buffer is
    /// left as it was.
    pub fn decode(&mut self, src: &mut Vec<u8>) -> (r: Result<Option<Message>, DecodeError>)
        ensures
            spec_parse_message(old(src)@) matches Ok((mv, used)) ==> (r matches Ok(Some(m)) && m@
                == mv && final(src)@ == old(src)@.subrange(used, old(src)@.len() as int)),
            spec_parse_message(old(src)@) == Err::<(MessageView, int), DecodeError>(
                DecodeError::Incomplete,
            ) ==> r == Ok::<Option<Message>, DecodeError>(None) && final(src)@ == old(src)@,
            spec_parse_message(old(src)@) == Err::<(MessageView, int), DecodeError>(
                DecodeError::Malformed,
            ) ==> r == Err::<Option<Message>, DecodeError>(DecodeError::Malformed) && final(src)@
                == old(src)@,
    {
        match parser::message(src.as_slice()) {
            Ok((m, used)) => {
                let mut rest: Vec<u8> = Vec::new();
                let mut k: usize = used;
                proof {
                    assert(rest@ =~= src@.subrange(used as int, used as int));
                }
                while k < src.len()
                    invariant
                        used <= k <= src.len(),
                        src@ == old(src)@,
                        rest@ == src@.subrange(used as int, k as int),
                    decreases src.len() - k,
                {
                    let b = src[k];
                    rest.push(b);
                    proof {
                        assert(rest@ =~= src@.subrange(used as int, k + 1));
                    }
                    k = k + 1;
                }
                proof {
                    assert(rest@ =~= src@.subrange(used as int, src@.len() as int));
                }
                *src = rest;
                Ok(Some(m))
            },
            Err(DecodeError::Incomplete) => Ok(None),
            Err(DecodeError::Malformed) => Err(DecodeError::Malformed),
        }
    }
}

} // verus!
