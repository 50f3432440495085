//! The laws that tie the encoder and the parser together: parsing an
//! encoded message gives the message back, truncating an encoded message
//! reads as "need more bytes" rather than as damage, the parsed sections
//! always match the header counts, a name ending in a pointer resolves to
//! the labels found at the pointer's target, and a pointer chain that
//! closes on itself is rejected as malformed. The companion law that the
//! flags word packs and unpacks without losing a bit stands beside the
//! flags codec itself, as `message::lemma_flags_of_raw`.

use vstd::prelude::*;
use vstd::utf8::decode_utf8;
use vstd::utf8::encode_utf8;
use vstd::utf8::encode_utf8_decode_utf8;
use vstd::utf8::encode_utf8_valid_utf8;

use crate::codec::spec_encode_header;
use crate::codec::spec_encode_labels;
use crate::codec::spec_encode_message;
use crate::codec::spec_encode_name;
use crate::codec::spec_encode_question;
use crate::codec::spec_encode_questions;
use crate::codec::spec_encode_record;
use crate::codec::spec_encode_records;
use crate::codec::spec_u16_be;
use crate::codec::spec_u32_be;
use crate::message::Header;
use crate::message::MessageView;
use crate::message::QuestionView;
use crate::message::RecordView;
use crate::message::flags_wf;
use crate::message::lemma_flags_raw_of;
use crate::message::spec_flags_of;
use crate::message::spec_flags_raw;
use crate::parser::DecodeError;
use crate::parser::is_pointer_byte;
use crate::parser::spec_parse_header;
use crate::parser::spec_parse_message;
use crate::parser::spec_parse_name;
use crate::parser::spec_parse_question;
use crate::parser::spec_parse_questions;
use crate::parser::spec_parse_record;
use crate::parser::spec_parse_records;
use crate::parser::spec_parse_u16;
use crate::parser::spec_parse_u32;
use crate::parser::spec_ptr_target;

verus! {

/// The bytes of `data` lie at `pos` in `buf`, as far as `buf` reaches:
/// every byte of `data` that falls inside the buffer agrees with it. When
/// the buffer ends early this says `buf` carries a prefix of `data`.
pub open spec fn has_prefix_at(buf: Seq<u8>, pos: int, data: Seq<u8>) -> bool {
    0 <= pos && forall|j: int|
        0 <= j < data.len() && pos + j < buf.len() ==> buf[pos + j] == #[trigger] data[j]
}

/// Every label of the sequence is non-empty and fits its length prefix:
/// between 1 and 63 UTF-8 bytes. An empty label would encode as the zero
/// byte that terminates a name, so only such names read back unchanged.
pub open spec fn labels_wf(ls: Seq<Seq<char>>) -> bool {
    forall|i: int| 0 <= i < ls.len() ==> 1 <= encode_utf8(#[trigger] ls[i]).len() <= 63
}

/// A prefix fact about a concatenation splits into one fact per part.
proof fn lemma_prefix_split(buf: Seq<u8>, pos: int, a: Seq<u8>, b: Seq<u8>)
    requires
        has_prefix_at(buf, pos, a + b),
    ensures
        has_prefix_at(buf, pos, a),
        has_prefix_at(buf, pos + a.len(), b),
{
    assert forall|j: int| 0 <= j < a.len() && pos + j < buf.len() implies buf[pos + j] == a[j] by {
        assert((a + b)[j] == a[j]);
    }
    assert forall|j: int|
        0 <= j < b.len() && pos + a.len() + j < buf.len() implies buf[pos + a.len() + j] == b[j] by {
        assert((a + b)[a.len() + j] == b[j]);
    }
}

/// Parsing at the position of an encoded name yields exactly that name
/// when the buffer holds all of its bytes, and `Incomplete` when the
/// buffer ends inside it. Pointer budget does not matter: an encoded name
/// holds no pointer.
proof fn lemma_name_at(buf: Seq<u8>, pos: int, ls: Seq<Seq<char>>, fuel: nat)
    requires
        labels_wf(ls),
        has_prefix_at(buf, pos, spec_encode_name(ls)),
    ensures
        pos + spec_encode_name(ls).len() <= buf.len() ==> spec_parse_name(buf, pos, fuel)
            == Ok::<(Seq<Seq<char>>, int), DecodeError>((ls, pos + spec_encode_name(ls).len())),
        pos + spec_encode_name(ls).len() > buf.len() ==> spec_parse_name(buf, pos, fuel)
            == Err::<(Seq<Seq<char>>, int), DecodeError>(DecodeError::Incomplete),
    decreases ls.len(),
{
    let e = spec_encode_name(ls);
    if ls.len() == 0 {
        assert(e =~= seq![0u8]);
        if pos < buf.len() {
            assert(buf[pos + 0] == e[0]);
            assert(buf[pos] == 0);
            assert(Seq::<Seq<char>>::empty() =~= ls);
        }
    } else {
        let l0 = ls[0];
        let e0 = encode_utf8(l0);
        let n = e0.len() as int;
        assert(1 <= n <= 63);
        let head = seq![n as u8] + e0;
        let rest = ls.drop_first();
        let er = spec_encode_name(rest);
        assert forall|i: int|
            0 <= i < rest.len() implies 1 <= encode_utf8(#[trigger] rest[i]).len() <= 63 by {
            assert(1 <= encode_utf8(ls[i + 1]).len() <= 63);
            assert(rest[i] == ls[i + 1]);
        }
        assert(spec_encode_labels(ls) == head + spec_encode_labels(rest));
        assert(e =~= head + er);
        lemma_prefix_split(buf, pos, head, er);
        assert(e.len() == 1 + n + er.len());
        if pos < buf.len() {
            assert(buf[pos + 0] == head[0]);
            assert(buf[pos] == n as u8);
            let b = buf[pos];
            assert(b != 0 && !is_pointer_byte(b));
            if pos + 1 + n <= buf.len() {
                let lab = buf.subrange(pos + 1, pos + 1 + b);
                assert forall|j: int| 0 <= j < n implies buf[pos + 1 + j] == e0[j] by {
                    assert((head + er)[1 + j] == head[1 + j]);
                    assert(head[1 + j] == e0[j]);
                    assert(buf[pos + (1 + j)] == (head + er)[1 + j]);
                }
                assert(lab =~= e0);
                encode_utf8_valid_utf8(l0);
                encode_utf8_decode_utf8(l0);
                lemma_name_at(buf, pos + 1 + n, rest, fuel);
                if pos + e.len() <= buf.len() {
                    assert(spec_parse_name(buf, pos + 1 + n, fuel) == Ok::<
                        (Seq<Seq<char>>, int),
                        DecodeError,
                    >((rest, pos + 1 + n + er.len())));
                    assert(decode_utf8(lab) == l0);
                    assert(seq![decode_utf8(lab)] + rest =~= ls);
                } else {
                    assert(pos + 1 + n + er.len() > buf.len());
                }
            }
        }
    }
}

/// A question is fit for the round trip when its name's labels are.
pub open spec fn question_wf(q: QuestionView) -> bool {
    labels_wf(q.qname)
}

/// A record is fit for the round trip when its name's labels are and its
/// declared payload length equals the payload it carries.
pub open spec fn record_wf(r: RecordView) -> bool {
    labels_wf(r.name) && r.rdlength == r.rdata.len()
}

/// A message is fit for the round trip: the flags sub-fields stay inside
/// their bit widths, each header count equals its section's length, and
/// every entry is itself well formed.
pub open spec fn message_wf(m: MessageView) -> bool {
    &&& flags_wf(m.header.flags)
    &&& m.header.qd_count == m.question.len()
    &&& m.header.an_count == m.answer.len()
    &&& m.header.ns_count == m.authority.len()
    &&& m.header.ar_count == m.additional.len()
    &&& forall|i: int| 0 <= i < m.question.len() ==> question_wf(#[trigger] m.question[i])
    &&& forall|i: int| 0 <= i < m.answer.len() ==> record_wf(#[trigger] m.answer[i])
    &&& forall|i: int| 0 <= i < m.authority.len() ==> record_wf(#[trigger] m.authority[i])
    &&& forall|i: int| 0 <= i < m.additional.len() ==> record_wf(#[trigger] m.additional[i])
}

/// Parsing at the position of an encoded 16-bit field yields its value, or
/// `Incomplete` when the buffer ends inside it.
proof fn lemma_u16_at(buf: Seq<u8>, pos: int, v: u16)
    requires
        has_prefix_at(buf, pos, spec_u16_be(v)),
    ensures
        pos + 2 <= buf.len() ==> spec_parse_u16(buf, pos) == Ok::<(u16, int), DecodeError>(
            (v, pos + 2),
        ),
        pos + 2 > buf.len() ==> spec_parse_u16(buf, pos) == Err::<(u16, int), DecodeError>(
            DecodeError::Incomplete,
        ),
{
    if pos + 2 <= buf.len() {
        assert(buf[pos + 0] == spec_u16_be(v)[0]);
        assert(buf[pos + 1] == spec_u16_be(v)[1]);
        let b0 = buf[pos];
        let b1 = buf[pos + 1];
        assert(((b0 as u16) << 8) | (b1 as u16) == v) by (bit_vector)
            requires
                b0 == (v >> 8) as u8 && b1 == (v & 0xff) as u8,
        ;
    }
}

/// Parsing at the position of an encoded 32-bit field yields its value, or
/// `Incomplete` when the buffer ends inside it.
proof fn lemma_u32_at(buf: Seq<u8>, pos: int, v: u32)
    requires
        has_prefix_at(buf, pos, spec_u32_be(v)),
    ensures
        pos + 4 <= buf.len() ==> spec_parse_u32(buf, pos) == Ok::<(u32, int), DecodeError>(
            (v, pos + 4),
        ),
        pos + 4 > buf.len() ==> spec_parse_u32(buf, pos) == Err::<(u32, int), DecodeError>(
            DecodeError::Incomplete,
        ),
{
    if pos + 4 <= buf.len() {
        assert(buf[pos + 0] == spec_u32_be(v)[0]);
        assert(buf[pos + 1] == spec_u32_be(v)[1]);
        assert(buf[pos + 2] == spec_u32_be(v)[2]);
        assert(buf[pos + 3] == spec_u32_be(v)[3]);
        let b0 = buf[pos];
        let b1 = buf[pos + 1];
        let b2 = buf[pos + 2];
        let b3 = buf[pos + 3];
        assert(((b0 as u32) << 24) | ((b1 as u32) << 16) | ((b2 as u32) << 8) | (b3 as u32) == v)
            by (bit_vector)
            requires
                b0 == (v >> 24) as u8 && b1 == ((v >> 16) & 0xff) as u8 && b2 == ((v >> 8)
                    & 0xff) as u8 && b3 == (v & 0xff) as u8,
        ;
    }
}

/// Parsing at the position of an encoded header yields it back, or
/// `Incomplete` when the buffer ends inside it.
proof fn lemma_header_at(buf: Seq<u8>, pos: int, h: Header)
    requires
        flags_wf(h.flags),
        has_prefix_at(buf, pos, spec_encode_header(h)),
    ensures
        pos + 12 <= buf.len() ==> spec_parse_header(buf, pos) == Ok::<(Header, int), DecodeError>(
            (h, pos + 12),
        ),
        pos + 12 > buf.len() ==> spec_parse_header(buf, pos) == Err::<(Header, int), DecodeError>(
            DecodeError::Incomplete,
        ),
{
    let a = spec_u16_be(h.id);
    let b = spec_u16_be(spec_flags_raw(h.flags));
    let c = spec_u16_be(h.qd_count);
    let d = spec_u16_be(h.an_count);
    let e = spec_u16_be(h.ns_count);
    let f = spec_u16_be(h.ar_count);
    assert(spec_encode_header(h) =~= a + (b + (c + (d + (e + f)))));
    lemma_prefix_split(buf, pos, a, b + (c + (d + (e + f))));
    lemma_prefix_split(buf, pos + 2, b, c + (d + (e + f)));
    lemma_prefix_split(buf, pos + 4, c, d + (e + f));
    lemma_prefix_split(buf, pos + 6, d, e + f);
    lemma_prefix_split(buf, pos + 8, e, f);
    if pos + 12 <= buf.len() {
        lemma_u16_at(buf, pos, h.id);
        lemma_u16_at(buf, pos + 2, spec_flags_raw(h.flags));
        lemma_u16_at(buf, pos + 4, h.qd_count);
        lemma_u16_at(buf, pos + 6, h.an_count);
        lemma_u16_at(buf, pos + 8, h.ns_count);
        lemma_u16_at(buf, pos + 10, h.ar_count);
        lemma_flags_raw_of(h.flags);
        assert(spec_flags_of(spec_flags_raw(h.flags)) == h.flags);
    }
}

/// Parsing at the position of an encoded question yields it back, or
/// `Incomplete` when the buffer ends inside it.
proof fn lemma_question_at(buf: Seq<u8>, pos: int, q: QuestionView)
    requires
        question_wf(q),
        has_prefix_at(buf, pos, spec_encode_question(q)),
    ensures
        pos + spec_encode_question(q).len() <= buf.len() ==> spec_parse_question(buf, pos)
            == Ok::<(QuestionView, int), DecodeError>((q, pos + spec_encode_question(q).len())),
        pos + spec_encode_question(q).len() > buf.len() ==> spec_parse_question(buf, pos)
            == Err::<(QuestionView, int), DecodeError>(DecodeError::Incomplete),
{
    let en = spec_encode_name(q.qname);
    let t = spec_u16_be(q.qtype);
    let c = spec_u16_be(q.qclass);
    assert(spec_encode_question(q) =~= en + (t + c));
    lemma_prefix_split(buf, pos, en, t + c);
    lemma_prefix_split(buf, pos + en.len(), t, c);
    lemma_name_at(buf, pos, q.qname, buf.len() as nat);
    if pos + en.len() <= buf.len() {
        let p1 = pos + en.len();
        lemma_u16_at(buf, p1, q.qtype);
        lemma_u16_at(buf, p1 + 2, q.qclass);
    }
}

/// Parsing at the position of an encoded record yields it back, or
/// `Incomplete` when the buffer ends inside it.
proof fn lemma_record_at(buf: Seq<u8>, pos: int, r: RecordView)
    requires
        record_wf(r),
        has_prefix_at(buf, pos, spec_encode_record(r)),
    ensures
        pos + spec_encode_record(r).len() <= buf.len() ==> spec_parse_record(buf, pos) == Ok::<
            (RecordView, int),
            DecodeError,
        >((r, pos + spec_encode_record(r).len())),
        pos + spec_encode_record(r).len() > buf.len() ==> spec_parse_record(buf, pos) == Err::<
            (RecordView, int),
            DecodeError,
        >(DecodeError::Incomplete),
{
    let en = spec_encode_name(r.name);
    let t = spec_u16_be(r.rtype);
    let c = spec_u16_be(r.class);
    let l = spec_u32_be(r.ttl);
    let dl = spec_u16_be(r.rdlength);
    let rd = r.rdata;
    assert(spec_encode_record(r) =~= en + (t + (c + (l + (dl + rd)))));
    lemma_prefix_split(buf, pos, en, t + (c + (l + (dl + rd))));
    lemma_prefix_split(buf, pos + en.len(), t, c + (l + (dl + rd)));
    lemma_prefix_split(buf, pos + en.len() + 2, c, l + (dl + rd));
    lemma_prefix_split(buf, pos + en.len() + 4, l, dl + rd);
    lemma_prefix_split(buf, pos + en.len() + 8, dl, rd);
    lemma_name_at(buf, pos, r.name, buf.len() as nat);
    if pos + en.len() <= buf.len() {
        let p1 = pos + en.len();
        lemma_u16_at(buf, p1, r.rtype);
        lemma_u16_at(buf, p1 + 2, r.class);
        lemma_u32_at(buf, p1 + 4, r.ttl);
        lemma_u16_at(buf, p1 + 8, r.rdlength);
        if p1 + 10 <= buf.len() {
            let p5 = p1 + 10;
            if p5 + r.rdlength <= buf.len() {
                assert forall|j: int| 0 <= j < rd.len() implies buf[p5 + j] == rd[j] by {
                    assert(buf[p5 + j] == rd[j]);
                }
                assert(buf.subrange(p5, p5 + r.rdlength) =~= r.rdata);
            }
        }
    }
}

/// Parsing a run of encoded questions yields them all back, or
/// `Incomplete` when the buffer ends inside the run.
proof fn lemma_questions_at(buf: Seq<u8>, pos: int, qs: Seq<QuestionView>)
    requires
        forall|i: int| 0 <= i < qs.len() ==> question_wf(#[trigger] qs[i]),
        0 <= pos <= buf.len(),
        has_prefix_at(buf, pos, spec_encode_questions(qs)),
    ensures
        pos + spec_encode_questions(qs).len() <= buf.len() ==> spec_parse_questions(
            buf,
            pos,
            qs.len(),
        ) == Ok::<(Seq<QuestionView>, int), DecodeError>(
            (qs, pos + spec_encode_questions(qs).len()),
        ),
        pos + spec_encode_questions(qs).len() > buf.len() ==> spec_parse_questions(
            buf,
            pos,
            qs.len(),
        ) == Err::<(Seq<QuestionView>, int), DecodeError>(DecodeError::Incomplete),
    decreases qs.len(),
{
    if qs.len() == 0 {
        assert(Seq::<QuestionView>::empty() =~= qs);
    } else {
        let q0 = qs[0];
        let rest = qs.drop_first();
        let e0 = spec_encode_question(q0);
        let er = spec_encode_questions(rest);
        assert(spec_encode_questions(qs) == e0 + er);
        lemma_prefix_split(buf, pos, e0, er);
        lemma_question_at(buf, pos, q0);
        assert forall|i: int| 0 <= i < rest.len() implies question_wf(#[trigger] rest[i]) by {
            assert(question_wf(qs[i + 1]));
            assert(rest[i] == qs[i + 1]);
        }
        if pos + e0.len() <= buf.len() {
            let p1 = pos + e0.len();
            lemma_questions_at(buf, p1, rest);
            assert(seq![q0] + rest =~= qs);
        }
    }
}

/// Parsing a run of encoded records yields them all back, or `Incomplete`
/// when the buffer ends inside the run.
proof fn lemma_records_at(buf: Seq<u8>, pos: int, rs: Seq<RecordView>)
    requires
        forall|i: int| 0 <= i < rs.len() ==> record_wf(#[trigger] rs[i]),
        0 <= pos <= buf.len(),
        has_prefix_at(buf, pos, spec_encode_records(rs)),
    ensures
        pos + spec_encode_records(rs).len() <= buf.len() ==> spec_parse_records(
            buf,
            pos,
            rs.len(),
        ) == Ok::<(Seq<RecordView>, int), DecodeError>((rs, pos + spec_encode_records(rs).len())),
        pos + spec_encode_records(rs).len() > buf.len() ==> spec_parse_records(buf, pos, rs.len())
            == Err::<(Seq<RecordView>, int), DecodeError>(DecodeError::Incomplete),
    decreases rs.len(),
{
    if rs.len() == 0 {
        assert(Seq::<RecordView>::empty() =~= rs);
    } else {
        let r0 = rs[0];
        let rest = rs.drop_first();
        let e0 = spec_encode_record(r0);
        let er = spec_encode_records(rest);
        assert(spec_encode_records(rs) == e0 + er);
        lemma_prefix_split(buf, pos, e0, er);
        lemma_record_at(buf, pos, r0);
        assert forall|i: int| 0 <= i < rest.len() implies record_wf(#[trigger] rest[i]) by {
            assert(record_wf(rs[i + 1]));
            assert(rest[i] == rs[i + 1]);
        }
        if pos + e0.len() <= buf.len() {
            let p1 = pos + e0.len();
            lemma_records_at(buf, p1, rest);
            assert(seq![r0] + rest =~= rs);
        }
    }
}

/// Parsing a buffer that starts with the encoding of a well-formed message
/// yields the message back when all its bytes are there, and `Incomplete`
/// when the buffer ends anywhere inside the encoding.
proof fn lemma_message_at(buf: Seq<u8>, m: MessageView)
    requires
        message_wf(m),
        has_prefix_at(buf, 0, spec_encode_message(m)),
    ensures
        spec_encode_message(m).len() <= buf.len() ==> spec_parse_message(buf) == Ok::<
            (MessageView, int),
            DecodeError,
        >((m, spec_encode_message(m).len() as int)),
        spec_encode_message(m).len() > buf.len() ==> spec_parse_message(buf) == Err::<
            (MessageView, int),
            DecodeError,
        >(DecodeError::Incomplete),
{
    let eh = spec_encode_header(m.header);
    let eq = spec_encode_questions(m.question);
    let ea = spec_encode_records(m.answer);
    let eu = spec_encode_records(m.authority);
    let ed = spec_encode_records(m.additional);
    let e = spec_encode_message(m);
    assert(e =~= eh + (eq + (ea + (eu + ed))));
    lemma_prefix_split(buf, 0, eh, eq + (ea + (eu + ed)));
    lemma_prefix_split(buf, 12, eq, ea + (eu + ed));
    lemma_prefix_split(buf, 12 + eq.len() as int, ea, eu + ed);
    lemma_prefix_split(buf, 12 + eq.len() + ea.len() as int, eu, ed);
    lemma_header_at(buf, 0, m.header);
    if 12 <= buf.len() {
        lemma_questions_at(buf, 12, m.question);
        assert(m.header.qd_count as nat == m.question.len());
        if 12 + eq.len() <= buf.len() {
            let p1 = 12 + eq.len() as int;
            lemma_records_at(buf, p1, m.answer);
            if p1 + ea.len() <= buf.len() {
                let p2 = p1 + ea.len() as int;
                lemma_records_at(buf, p2, m.authority);
                if p2 + eu.len() <= buf.len() {
                    let p3 = p2 + eu.len() as int;
                    lemma_records_at(buf, p3, m.additional);
                    if p3 + ed.len() <= buf.len() {
                        assert(spec_parse_message(buf) matches Ok((mv, end)) ==> mv =~~= m);
                    }
                }
            }
        }
    }
}

/// Round trip: a message whose names carry well-formed labels, whose
/// header counts match its sections, and whose records declare their true
/// payload lengths parses back from its own encoding, consuming exactly
/// the bytes the encoding occupies.
pub proof fn lemma_round_trip(m: MessageView)
    requires
        message_wf(m),
    ensures
        spec_parse_message(spec_encode_message(m)) == Ok::<(MessageView, int), DecodeError>(
            (m, spec_encode_message(m).len() as int),
        ),
{
    let e = spec_encode_message(m);
    assert forall|j: int| 0 <= j < e.len() && 0 + j < e.len() implies e[0 + j] == #[trigger] e[j]
        by {}
    assert(has_prefix_at(e, 0, e));
    lemma_message_at(e, m);
}

/// Truncating the encoding of a well-formed message at any byte boundary
/// before its last byte parses as `Incomplete`, never as `Malformed`: a
/// short buffer always reads as "more bytes needed".
pub proof fn lemma_truncation_incomplete(m: MessageView, j: int)
    requires
        message_wf(m),
        0 <= j < spec_encode_message(m).len(),
    ensures
        spec_parse_message(spec_encode_message(m).take(j)) == Err::<
            (MessageView, int),
            DecodeError,
        >(DecodeError::Incomplete),
{
    let e = spec_encode_message(m);
    let t = e.take(j);
    assert forall|k: int| 0 <= k < e.len() && 0 + k < t.len() implies t[0 + k] == #[trigger] e[k]
        by {}
    assert(has_prefix_at(t, 0, e));
    lemma_message_at(t, m);
}

/// A successful parse of `n` questions yields exactly `n` of them.
proof fn lemma_parse_questions_len(buf: Seq<u8>, pos: int, n: nat)
    ensures
        spec_parse_questions(buf, pos, n) matches Ok((qs, e)) ==> qs.len() == n,
    decreases n,
{
    if n > 0 {
        let s = spec_parse_question(buf, pos);
        if s is Ok {
            lemma_parse_questions_len(buf, s->Ok_0.1, (n - 1) as nat);
        }
    }
}

/// A successful parse of `n` records yields exactly `n` of them.
proof fn lemma_parse_records_len(buf: Seq<u8>, pos: int, n: nat)
    ensures
        spec_parse_records(buf, pos, n) matches Ok((rs, e)) ==> rs.len() == n,
    decreases n,
{
    if n > 0 {
        let s = spec_parse_record(buf, pos);
        if s is Ok {
            lemma_parse_records_len(buf, s->Ok_0.1, (n - 1) as nat);
        }
    }
}

/// Whatever the parser returns keeps the header's promise: the length of
/// each section equals the corresponding count field.
pub proof fn lemma_sections_match_counts(buf: Seq<u8>)
    ensures
        spec_parse_message(buf) matches Ok((m, end)) ==> {
            &&& m.question.len() == m.header.qd_count
            &&& m.answer.len() == m.header.an_count
            &&& m.authority.len() == m.header.ns_count
            &&& m.additional.len() == m.header.ar_count
        },
{
    let h = spec_parse_header(buf, 0);
    if h is Ok {
        let (header, p0) = h->Ok_0;
        lemma_parse_questions_len(buf, p0, header.qd_count as nat);
        let q = spec_parse_questions(buf, p0, header.qd_count as nat);
        if q is Ok {
            let p1 = q->Ok_0.1;
            lemma_parse_records_len(buf, p1, header.an_count as nat);
            let a = spec_parse_records(buf, p1, header.an_count as nat);
            if a is Ok {
                let p2 = a->Ok_0.1;
                lemma_parse_records_len(buf, p2, header.ns_count as nat);
                let u = spec_parse_records(buf, p2, header.ns_count as nat);
                if u is Ok {
                    let p3 = u->Ok_0.1;
                    lemma_parse_records_len(buf, p3, header.ar_count as nat);
                }
            }
        }
    }
}

/// Pointer resolution: a name spelled as well-formed labels followed by a
/// pointer to offset `k` resolves to those labels followed by whatever
/// labels a parse at `k` yields, fails exactly as the parse at `k` fails,
/// and leaves the cursor just past the pointer. Each hop spends one unit
/// of the pointer budget; with the budget already spent, the pointer is
/// rejected as malformed.
pub proof fn lemma_pointer_resolution(buf: Seq<u8>, pos: int, ls: Seq<Seq<char>>, fuel: nat)
    requires
        labels_wf(ls),
        has_prefix_at(buf, pos, spec_encode_labels(ls)),
        pos + spec_encode_labels(ls).len() + 2 <= buf.len(),
        is_pointer_byte(buf[pos + spec_encode_labels(ls).len()]),
    ensures
        fuel == 0 ==> spec_parse_name(buf, pos, fuel) == Err::<
            (Seq<Seq<char>>, int),
            DecodeError,
        >(DecodeError::Malformed),
        fuel >= 1 ==> spec_parse_name(buf, pos, fuel) == (match spec_parse_name(
            buf,
            spec_ptr_target(buf, pos + spec_encode_labels(ls).len()),
            (fuel - 1) as nat,
        ) {
            Ok((ls2, e2)) => Ok::<(Seq<Seq<char>>, int), DecodeError>(
                (ls + ls2, pos + spec_encode_labels(ls).len() + 2),
            ),
            Err(e) => Err::<(Seq<Seq<char>>, int), DecodeError>(e),
        }),
    decreases ls.len(),
{
    let el = spec_encode_labels(ls);
    let q = pos + el.len();
    let k = spec_ptr_target(buf, q);
    if ls.len() == 0 {
        assert(buf[pos] == buf[q]);
        assert(buf[pos] != 0);
        if fuel >= 1 {
            assert(spec_parse_name(buf, k, (fuel - 1) as nat) matches Ok((ls2, e2)) ==> ls + ls2
                =~= ls2);
        }
    } else {
        let l0 = ls[0];
        let e0 = encode_utf8(l0);
        let n = e0.len() as int;
        assert(1 <= n <= 63);
        let head = seq![n as u8] + e0;
        let rest = ls.drop_first();
        assert forall|i: int|
            0 <= i < rest.len() implies 1 <= encode_utf8(#[trigger] rest[i]).len() <= 63 by {
            assert(1 <= encode_utf8(ls[i + 1]).len() <= 63);
            assert(rest[i] == ls[i + 1]);
        }
        assert(el =~= head + spec_encode_labels(rest));
        lemma_prefix_split(buf, pos, head, spec_encode_labels(rest));
        assert(el.len() == 1 + n + spec_encode_labels(rest).len());
        assert(buf[pos + 0] == head[0]);
        assert(buf[pos] == n as u8);
        let b = buf[pos];
        assert(b != 0 && !is_pointer_byte(b));
        assert(pos + 1 + n <= buf.len());
        let lab = buf.subrange(pos + 1, pos + 1 + b);
        assert forall|j: int| 0 <= j < n implies buf[pos + 1 + j] == e0[j] by {
            assert((head + spec_encode_labels(rest))[1 + j] == head[1 + j]);
            assert(head[1 + j] == e0[j]);
            assert(buf[pos + (1 + j)] == (head + spec_encode_labels(rest))[1 + j]);
        }
        assert(lab =~= e0);
        encode_utf8_valid_utf8(l0);
        encode_utf8_decode_utf8(l0);
        lemma_pointer_resolution(buf, pos + 1 + n, rest, fuel);
        assert(pos + 1 + n + spec_encode_labels(rest).len() == q);
        if fuel >= 1 {
            assert(spec_parse_name(buf, k, (fuel - 1) as nat) matches Ok((ls2, e2))
                ==> seq![decode_utf8(lab)] + (rest + ls2) =~= ls + ls2);
        }
    }
}

/// One hop of a pointer chain: at `p` the buffer spells well-formed
/// labels, then a pointer whose 14-bit offset is `k`.
pub open spec fn jumps_with(buf: Seq<u8>, p: int, k: int, ls: Seq<Seq<char>>) -> bool {
    &&& labels_wf(ls)
    &&& has_prefix_at(buf, p, spec_encode_labels(ls))
    &&& p + spec_encode_labels(ls).len() + 2 <= buf.len()
    &&& is_pointer_byte(buf[p + spec_encode_labels(ls).len()])
    &&& spec_ptr_target(buf, p + spec_encode_labels(ls).len()) == k
}

/// The name at `p` ends in a pointer to offset `k`.
pub open spec fn jumps_to(buf: Seq<u8>, p: int, k: int) -> bool {
    exists|ls: Seq<Seq<char>>| #[trigger] jumps_with(buf, p, k, ls)
}

/// A name that jumps to a position whose parse is malformed is itself
/// malformed, as is any jump once the pointer budget is spent.
proof fn lemma_jump_malformed(buf: Seq<u8>, p: int, k: int, fuel: nat)
    requires
        jumps_to(buf, p, k),
        fuel >= 1 ==> spec_parse_name(buf, k, (fuel - 1) as nat) == Err::<
            (Seq<Seq<char>>, int),
            DecodeError,
        >(DecodeError::Malformed),
    ensures
        spec_parse_name(buf, p, fuel) == Err::<(Seq<Seq<char>>, int), DecodeError>(
            DecodeError::Malformed,
        ),
{
    let ls = choose|ls: Seq<Seq<char>>| jumps_with(buf, p, k, ls);
    lemma_pointer_resolution(buf, p, ls, fuel);
}

/// Cycle safety: a pointer chain that closes on itself — each position's
/// name ends in a pointer to the next, and the last points back to the
/// first — parses as `Malformed` whatever the pointer budget. It can
/// neither hang nor resolve: every hop spends budget and the chain never
/// reaches a terminator.
pub proof fn lemma_pointer_cycle_malformed(buf: Seq<u8>, chain: Seq<int>, fuel: nat)
    requires
        chain.len() >= 1,
        forall|i: int| 0 <= i < chain.len() - 1 ==> jumps_to(buf, #[trigger] chain[i], chain[i + 1]),
        jumps_to(buf, chain[chain.len() - 1], chain[0]),
    ensures
        spec_parse_name(buf, chain[0], fuel) == Err::<(Seq<Seq<char>>, int), DecodeError>(
            DecodeError::Malformed,
        ),
    decreases fuel,
{
    let m = chain.len() as int;
    let k = if m >= 2 {
        chain[1]
    } else {
        chain[0]
    };
    assert(jumps_to(buf, chain[0], k));
    if fuel == 0 {
        lemma_jump_malformed(buf, chain[0], k, fuel);
    } else {
        let rot = chain.subrange(1, m).push(chain[0]);
        assert(rot.len() == m);
        assert(rot[0] == k);
        assert forall|i: int| 0 <= i < rot.len() - 1 implies jumps_to(
            buf,
            #[trigger] rot[i],
            rot[i + 1],
        ) by {
            assert(rot[i] == chain[i + 1]);
            if i < m - 2 {
                assert(rot[i + 1] == chain[i + 2]);
                assert(jumps_to(buf, chain[i + 1], chain[i + 2]));
            } else {
                assert(i == m - 2);
                assert(rot[i + 1] == chain[0]);
                assert(jumps_to(buf, chain[m - 1], chain[0]));
            }
        }
        assert(rot[rot.len() - 1] == chain[0]);
        assert(jumps_to(buf, rot[rot.len() - 1], rot[0]));
        lemma_pointer_cycle_malformed(buf, rot, (fuel - 1) as nat);
        lemma_jump_malformed(buf, chain[0], k, fuel);
    }
}

} // verus!
