//! The structural parser: reads the fixed header, then exactly as many
//! questions and resource records as the header counts declare, resolving
//! compressed names through their pointers on the way.
//!
//! Every executable parser returns exactly what its specification-level
//! counterpart (`spec_parse_*`) computes on the view of the buffer; those
//! spec functions are the single definition of the wire grammar.

use vstd::prelude::*;
use vstd::slice::slice_subrange;
use vstd::utf8::decode_utf8;
use vstd::utf8::valid_utf8;

use crate::message::Flags;
use crate::message::Header;
use crate::message::Message;
use crate::message::MessageView;
use crate::message::Name;
use crate::message::Question;
use crate::message::QuestionView;
use crate::message::RecordView;
use crate::message::ResourceRecord;
use crate::message::spec_flags_of;

verus! {

/// Why a decode attempt failed. `Incomplete` means the buffer ran out of
/// bytes mid-field: the caller should retry once more bytes are available.
/// `Malformed` is fatal for the buffer: invalid label text or an
/// unresolvable pointer chain.
#[derive(Clone, Copy, Debug, PartialEq, Eq, Structural)]
pub enum DecodeError {
    /// The buffer is shorter than the current field requires.
    Incomplete,
    /// The input is structurally invalid.
    Malformed,
}

/// The 16-bit big-endian value whose two bytes sit at `pos`.
pub open spec fn spec_u16_at(buf: Seq<u8>, pos: int) -> u16 {
    ((buf[pos] as u16) << 8) | (buf[pos + 1] as u16)
}

/// Reads one 16-bit network-byte-order field.
pub open spec fn spec_parse_u16(buf: Seq<u8>, pos: int) -> Result<(u16, int), DecodeError> {
    if 0 <= pos && pos + 2 <= buf.len() {
        Ok((spec_u16_at(buf, pos), pos + 2))
    } else {
        Err(DecodeError::Incomplete)
    }
}

/// The 32-bit big-endian value whose four bytes sit at `pos`.
pub open spec fn spec_u32_at(buf: Seq<u8>, pos: int) -> u32 {
    ((buf[pos] as u32) << 24) | ((buf[pos + 1] as u32) << 16) | ((buf[pos + 2] as u32) << 8) | (buf[
        pos + 3] as u32)
}

/// Reads one 32-bit network-byte-order field.
pub open spec fn spec_parse_u32(buf: Seq<u8>, pos: int) -> Result<(u32, int), DecodeError> {
    if 0 <= pos && pos + 4 <= buf.len() {
        Ok((spec_u32_at(buf, pos), pos + 4))
    } else {
        Err(DecodeError::Incomplete)
    }
}

/// True when the byte at `pos` opens a compression pointer: its top two
/// bits are both set.
pub open spec fn is_pointer_byte(b: u8) -> bool {
    b >= 0xc0
}

/// The 14-bit absolute offset a pointer at `pos` designates, measured from
/// the start of the whole buffer.
pub open spec fn spec_ptr_target(buf: Seq<u8>, pos: int) -> int {
    (buf[pos] - 0xc0) * 256 + buf[pos + 1]
}

/// Parses a possibly-compressed name starting at `pos`.
///
/// Labels are read as a length byte followed by that many bytes of UTF-8
/// text, until a zero byte terminates the name or a pointer redirects the
/// read to an absolute offset; the labels found there are appended and the
/// cursor result stays just past the first pointer. `fuel` bounds how many
/// pointers may be followed; exceeding it is the cycle guard and yields
/// `Malformed`. Running out of bytes anywhere yields `Incomplete`, and
/// label text that is not UTF-8 yields `Malformed`.
pub open spec fn spec_parse_name(buf: Seq<u8>, pos: int, fuel: nat) -> Result<
    (Seq<Seq<char>>, int),
    DecodeError,
>
    decreases fuel, buf.len() - pos,
{
    if pos < 0 || pos >= buf.len() {
        Err(DecodeError::Incomplete)
    } else {
        let b = buf[pos];
        if b == 0 {
            Ok((Seq::empty(), pos + 1))
        } else if is_pointer_byte(b) {
            if pos + 2 > buf.len() {
                Err(DecodeError::Incomplete)
            } else if fuel == 0 {
                Err(DecodeError::Malformed)
            } else {
                match spec_parse_name(buf, spec_ptr_target(buf, pos), (fuel - 1) as nat) {
                    Ok((labels, _)) => Ok((labels, pos + 2)),
                    Err(e) => Err(e),
                }
            }
        } else {
            if pos + 1 + b > buf.len() {
                Err(DecodeError::Incomplete)
            } else {
                let lab = buf.subrange(pos + 1, pos + 1 + b);
                if !valid_utf8(lab) {
                    Err(DecodeError::Malformed)
                } else {
                    match spec_parse_name(buf, pos + 1 + b, fuel) {
                        Ok((labels, end)) => Ok((seq![decode_utf8(lab)] + labels, end)),
                        Err(e) => Err(e),
                    }
                }
            }
        }
    }
}

/// Parses a name with the standard pointer budget: one hop per buffer byte,
/// which is enough for every chain that does not revisit an offset.
pub open spec fn spec_parse_name_full(buf: Seq<u8>, pos: int) -> Result<
    (Seq<Seq<char>>, int),
    DecodeError,
> {
    spec_parse_name(buf, pos, buf.len() as nat)
}

/// Parses the fixed 12-byte header at `pos`.
pub open spec fn spec_parse_header(buf: Seq<u8>, pos: int) -> Result<(Header, int), DecodeError> {
    if 0 <= pos && pos + 12 <= buf.len() {
        Ok(
            (
                Header {
                    id: spec_u16_at(buf, pos),
                    flags: spec_flags_of(spec_u16_at(buf, pos + 2)),
                    qd_count: spec_u16_at(buf, pos + 4),
                    an_count: spec_u16_at(buf, pos + 6),
                    ns_count: spec_u16_at(buf, pos + 8),
                    ar_count: spec_u16_at(buf, pos + 10),
                },
                pos + 12,
            ),
        )
    } else {
        Err(DecodeError::Incomplete)
    }
}

/// Parses one question entry at `pos`: a name, then two 16-bit codes.
pub open spec fn spec_parse_question(buf: Seq<u8>, pos: int) -> Result<
    (QuestionView, int),
    DecodeError,
> {
    match spec_parse_name_full(buf, pos) {
        Ok((qname, p1)) => match spec_parse_u16(buf, p1) {
            Ok((qtype, p2)) => match spec_parse_u16(buf, p2) {
                Ok((qclass, p3)) => Ok((QuestionView { qname, qtype, qclass }, p3)),
                Err(e) => Err(e),
            },
            Err(e) => Err(e),
        },
        Err(e) => Err(e),
    }
}

/// Parses one resource record at `pos`: a name, fixed-width fields, then
/// exactly as many payload bytes as the declared length says.
pub open spec fn spec_parse_record(buf: Seq<u8>, pos: int) -> Result<
    (RecordView, int),
    DecodeError,
> {
    match spec_parse_name_full(buf, pos) {
        Ok((name, p1)) => match spec_parse_u16(buf, p1) {
            Ok((rtype, p2)) => match spec_parse_u16(buf, p2) {
                Ok((class, p3)) => match spec_parse_u32(buf, p3) {
                    Ok((ttl, p4)) => match spec_parse_u16(buf, p4) {
                        Ok((rdlength, p5)) => {
                            if p5 + rdlength <= buf.len() {
                                Ok(
                                    (
                                        RecordView {
                                            name,
                                            rtype,
                                            class,
                                            ttl,
                                            rdlength,
                                            rdata: buf.subrange(p5, p5 + rdlength),
                                        },
                                        p5 + rdlength,
                                    ),
                                )
                            } else {
                                Err(DecodeError::Incomplete)
                            }
                        },
                        Err(e) => Err(e),
                    },
                    Err(e) => Err(e),
                },
                Err(e) => Err(e),
            },
            Err(e) => Err(e),
        },
        Err(e) => Err(e),
    }
}

/// Parses exactly `n` consecutive questions starting at `pos`.
pub open spec fn spec_parse_questions(buf: Seq<u8>, pos: int, n: nat) -> Result<
    (Seq<QuestionView>, int),
    DecodeError,
>
    decreases n,
{
    if n == 0 {
        Ok((Seq::empty(), pos))
    } else {
        match spec_parse_question(buf, pos) {
            Ok((q, p1)) => match spec_parse_questions(buf, p1, (n - 1) as nat) {
                Ok((qs, p2)) => Ok((seq![q] + qs, p2)),
                Err(e) => Err(e),
            },
            Err(e) => Err(e),
        }
    }
}

/// Parses exactly `n` consecutive resource records starting at `pos`.
pub open spec fn spec_parse_records(buf: Seq<u8>, pos: int, n: nat) -> Result<
    (Seq<RecordView>, int),
    DecodeError,
>
    decreases n,
{
    if n == 0 {
        Ok((Seq::empty(), pos))
    } else {
        match spec_parse_record(buf, pos) {
            Ok((r, p1)) => match spec_parse_records(buf, p1, (n - 1) as nat) {
                Ok((rs, p2)) => Ok((seq![r] + rs, p2)),
                Err(e) => Err(e),
            },
            Err(e) => Err(e),
        }
    }
}

/// Parses one whole message from the start of the buffer: the header, then
/// as many questions and records as its count fields declare, in section
/// order.
pub open spec fn spec_parse_message(buf: Seq<u8>) -> Result<(MessageView, int), DecodeError> {
    match spec_parse_header(buf, 0) {
        Ok((header, p0)) => match spec_parse_questions(buf, p0, header.qd_count as nat) {
            Ok((question, p1)) => match spec_parse_records(buf, p1, header.an_count as nat) {
                Ok((answer, p2)) => match spec_parse_records(buf, p2, header.ns_count as nat) {
                    Ok((authority, p3)) => match spec_parse_records(
                        buf,
                        p3,
                        header.ar_count as nat,
                    ) {
                        Ok((additional, p4)) => Ok(
                            (
                                MessageView { header, question, answer, authority, additional },
                                p4,
                            ),
                        ),
                        Err(e) => Err(e),
                    },
                    Err(e) => Err(e),
                },
                Err(e) => Err(e),
            },
            Err(e) => Err(e),
        },
        Err(e) => Err(e),
    }
}

/// Relies on std::str::from_utf8: it succeeds exactly on UTF-8 input, and
/// the characters it returns are the UTF-8 decoding of the bytes, as
/// vstd's `valid_utf8` and `decode_utf8` define it.
#[verifier::external_body]
fn utf8_to_str(bytes: &[u8]) -> (r: Option<&str>)
    ensures
        r is Some <==> valid_utf8(bytes@),
        r matches Some(s) ==> s@ == decode_utf8(bytes@),
{
    match std::str::from_utf8(bytes) {
        Ok(s) => Some(s),
        Err(_) => None,
    }
}

/// Reads one 16-bit network-byte-order field.
fn read_u16(buf: &[u8], pos: usize) -> (r: Result<(u16, usize), DecodeError>)
    ensures
        ({
            let s = spec_parse_u16(buf@, pos as int);
            match r {
                Ok((v, end)) => s == Ok::<(u16, int), DecodeError>((v, end as int)),
                Err(e) => s == Err::<(u16, int), DecodeError>(e),
            }
        }),
{
    if buf.len() < 2 || pos > buf.len() - 2 {
        Err(DecodeError::Incomplete)
    } else {
        let v: u16 = ((buf[pos] as u16) << 8) | (buf[pos + 1] as u16);
        Ok((v, pos + 2))
    }
}

/// Reads one 32-bit network-byte-order field.
fn read_u32(buf: &[u8], pos: usize) -> (r: Result<(u32, usize), DecodeError>)
    ensures
        ({
            let s = spec_parse_u32(buf@, pos as int);
            match r {
                Ok((v, end)) => s == Ok::<(u32, int), DecodeError>((v, end as int)),
                Err(e) => s == Err::<(u32, int), DecodeError>(e),
            }
        }),
{
    if buf.len() < 4 || pos > buf.len() - 4 {
        Err(DecodeError::Incomplete)
    } else {
        let v: u32 = ((buf[pos] as u32) << 24) | ((buf[pos + 1] as u32) << 16) | ((buf[pos
            + 2] as u32) << 8) | (buf[pos + 3] as u32);
        Ok((v, pos + 4))
    }
}

/// Parses a possibly-compressed name at `pos`, following pointers from the
/// start of the buffer, and returns it with the position just past the
/// name's own encoding (never past a pointer target).
pub fn name(buf: &[u8], pos: usize) -> (r: Result<(Name, usize), DecodeError>)
    ensures
        ({
            let s = spec_parse_name_full(buf@, pos as int);
            match r {
                Ok((nm, end)) => s == Ok::<(Seq<Seq<char>>, int), DecodeError>((nm@, end as int)),
                Err(e) => s == Err::<(Seq<Seq<char>>, int), DecodeError>(e),
            }
        }),
        r matches Ok(v) ==> v.1 <= buf@.len(),
{
    let mut labels: Vec<String> = Vec::new();
    let mut cur: usize = pos;
    let mut fuel: usize = buf.len();
    let mut ret_end: Option<usize> = None;
    proof {
        assert(labels.deep_view() =~= Seq::<Seq<char>>::empty());
        assert(spec_parse_name(buf@, cur as int, fuel as nat) matches Ok((ls, e)) ==> labels.deep_view() + ls =~= ls);
    }
    loop
        invariant
            ({
                let outer = spec_parse_name_full(buf@, pos as int);
                match spec_parse_name(buf@, cur as int, fuel as nat) {
                    Ok((ls, e)) => outer == Ok::<(Seq<Seq<char>>, int), DecodeError>(
                        (
                            labels.deep_view() + ls,
                            match ret_end {
                                Some(re) => re as int,
                                None => e,
                            },
                        ),
                    ),
                    Err(er) => outer == Err::<(Seq<Seq<char>>, int), DecodeError>(er),
                }
            }),
            ret_end matches Some(re) ==> re <= buf@.len(),
        decreases fuel, buf@.len() - cur,
    {
        if cur >= buf.len() {
            return Err(DecodeError::Incomplete);
        }
        let b: u8 = buf[cur];
        if b == 0 {
            let end: usize = match ret_end {
                Some(re) => re,
                None => cur + 1,
            };
            proof {
                assert(labels.deep_view() + Seq::<Seq<char>>::empty() =~= labels.deep_view());
            }
            return Ok((Name { labels }, end));
        } else if b >= 0xc0 {
            if buf.len() - cur < 2 {
                return Err(DecodeError::Incomplete);
            }
            if fuel == 0 {
                return Err(DecodeError::Malformed);
            }
            let target: usize = ((b - 0xc0) as usize) * 256 + (buf[cur + 1] as usize);
            if ret_end.is_none() {
                ret_end = Some(cur + 2);
            }
            cur = target;
            fuel = fuel - 1;
        } else {
            let blen: usize = b as usize;
            if blen > buf.len() - cur - 1 {
                return Err(DecodeError::Incomplete);
            }
            let piece = slice_subrange(buf, cur + 1, cur + 1 + blen);
            match utf8_to_str(piece) {
                None => {
                    return Err(DecodeError::Malformed);
                },
                Some(s) => {
                    let ghost dv0 = labels.deep_view();
                    labels.push(s.to_owned());
                    proof {
                        assert(labels.deep_view() =~= dv0.push(decode_utf8(piece@)));
                        assert(spec_parse_name(buf@, cur + 1 + blen, fuel as nat) matches Ok((ls3, e3))
                            ==> dv0 + (seq![decode_utf8(piece@)] + ls3) =~= labels.deep_view() + ls3);
                    }
                    cur = cur + 1 + blen;
                },
            }
        }
    }
}

/// Parses one question entry at `pos`.
pub fn question(buf: &[u8], pos: usize) -> (r: Result<(Question, usize), DecodeError>)
    ensures
        ({
            let s = spec_parse_question(buf@, pos as int);
            match r {
                Ok((q, end)) => s == Ok::<(QuestionView, int), DecodeError>((q@, end as int)),
                Err(e) => s == Err::<(QuestionView, int), DecodeError>(e),
            }
        }),
        r matches Ok(v) ==> v.1 <= buf@.len(),
{
    let (qname, p1) = match name(buf, pos) {
        Ok(v) => v,
        Err(e) => {
            return Err(e);
        },
    };
    let (qtype, p2) = match read_u16(buf, p1) {
        Ok(v) => v,
        Err(e) => {
            return Err(e);
        },
    };
    let (qclass, p3) = match read_u16(buf, p2) {
        Ok(v) => v,
        Err(e) => {
            return Err(e);
        },
    };
    Ok((Question { qname, qtype, qclass }, p3))
}

/// Parses one resource record at `pos`.
pub fn resource_record(buf: &[u8], pos: usize) -> (r: Result<
    (ResourceRecord, usize),
    DecodeError,
>)
    ensures
        ({
            let s = spec_parse_record(buf@, pos as int);
            match r {
                Ok((rr, end)) => s == Ok::<(RecordView, int), DecodeError>((rr@, end as int)),
                Err(e) => s == Err::<(RecordView, int), DecodeError>(e),
            }
        }),
        r matches Ok(v) ==> v.1 <= buf@.len(),
{
    let (nm, p1) = match name(buf, pos) {
        Ok(v) => v,
        Err(e) => {
            return Err(e);
        },
    };
    let (rtype, p2) = match read_u16(buf, p1) {
        Ok(v) => v,
        Err(e) => {
            return Err(e);
        },
    };
    let (class, p3) = match read_u16(buf, p2) {
        Ok(v) => v,
        Err(e) => {
            return Err(e);
        },
    };
    let (ttl, p4) = match read_u32(buf, p3) {
        Ok(v) => v,
        Err(e) => {
            return Err(e);
        },
    };
    let (rdlength, p5) = match read_u16(buf, p4) {
        Ok(v) => v,
        Err(e) => {
            return Err(e);
        },
    };
    let rdl: usize = rdlength as usize;
    if rdl > buf.len() - p5 {
        return Err(DecodeError::Incomplete);
    }
    let rdata_slice = slice_subrange(buf, p5, p5 + rdl);
    let rdata = vstd::slice::slice_to_vec(rdata_slice);
    Ok((ResourceRecord { name: nm, rtype, class, ttl, rdlength, rdata }, p5 + rdl))
}

/// Parses the fixed header at `pos`.
pub fn header(buf: &[u8], pos: usize) -> (r: Result<(Header, usize), DecodeError>)
    ensures
        ({
            let s = spec_parse_header(buf@, pos as int);
            match r {
                Ok((h, end)) => s == Ok::<(Header, int), DecodeError>((h, end as int)),
                Err(e) => s == Err::<(Header, int), DecodeError>(e),
            }
        }),
        r matches Ok(v) ==> v.1 <= buf@.len(),
{
    if buf.len() < 12 || pos > buf.len() - 12 {
        return Err(DecodeError::Incomplete);
    }
    let (id, p1) = match read_u16(buf, pos) {
        Ok(v) => v,
        Err(e) => {
            return Err(e);
        },
    };
    let (raw_flags, p2) = match read_u16(buf, p1) {
        Ok(v) => v,
        Err(e) => {
            return Err(e);
        },
    };
    let (qd_count, p3) = match read_u16(buf, p2) {
        Ok(v) => v,
        Err(e) => {
            return Err(e);
        },
    };
    let (an_count, p4) = match read_u16(buf, p3) {
        Ok(v) => v,
        Err(e) => {
            return Err(e);
        },
    };
    let (ns_count, p5) = match read_u16(buf, p4) {
        Ok(v) => v,
        Err(e) => {
            return Err(e);
        },
    };
    let (ar_count, p6) = match read_u16(buf, p5) {
        Ok(v) => v,
        Err(e) => {
            return Err(e);
        },
    };
    Ok((Header { id, flags: Flags::new_with_raw_value(raw_flags), qd_count, an_count, ns_count, ar_count }, p6))
}

/// Parses `n` consecutive questions at `pos`.
fn questions(buf: &[u8], pos: usize, n: u16) -> (r: Result<(Vec<Question>, usize), DecodeError>)
    ensures
        ({
            let s = spec_parse_questions(buf@, pos as int, n as nat);
            match r {
                Ok((qs, end)) => s == Ok::<(Seq<QuestionView>, int), DecodeError>(
                    (qs.deep_view(), end as int),
                ),
                Err(e) => s == Err::<(Seq<QuestionView>, int), DecodeError>(e),
            }
        }),
        r matches Ok(v) ==> v.1 <= buf@.len() || v.1 == pos,
{
    let mut out: Vec<Question> = Vec::new();
    let mut p: usize = pos;
    let mut i: u16 = 0;
    proof {
        assert(out.deep_view() =~= Seq::<QuestionView>::empty());
        assert(spec_parse_questions(buf@, p as int, n as nat) matches Ok((qs, e)) ==> out.deep_view() + qs =~= qs);
    }
    while i < n
        invariant
            i <= n,
            p <= buf@.len() || p == pos,
            ({
                let outer = spec_parse_questions(buf@, pos as int, n as nat);
                match spec_parse_questions(buf@, p as int, (n - i) as nat) {
                    Ok((qs, e)) => outer == Ok::<(Seq<QuestionView>, int), DecodeError>(
                        (out.deep_view() + qs, e),
                    ),
                    Err(er) => outer == Err::<(Seq<QuestionView>, int), DecodeError>(er),
                }
            }),
        decreases n - i,
    {
        match question(buf, p) {
            Ok((q, p2)) => {
                let ghost dv0 = out.deep_view();
                out.push(q);
                proof {
                    assert(out.deep_view() =~= dv0.push(q@));
                    assert(spec_parse_questions(buf@, p2 as int, (n - i - 1) as nat) matches Ok((qs2, e2))
                        ==> dv0 + (seq![q@] + qs2) =~= out.deep_view() + qs2);
                }
                p = p2;
                i = i + 1;
            },
            Err(e) => {
                return Err(e);
            },
        }
    }
    proof {
        assert(spec_parse_questions(buf@, p as int, 0) matches Ok((qs, e)) ==> out.deep_view() + qs =~= out.deep_view());
    }
    Ok((out, p))
}

/// Parses `n` consecutive resource records at `pos`.
fn records(buf: &[u8], pos: usize, n: u16) -> (r: Result<
    (Vec<ResourceRecord>, usize),
    DecodeError,
>)
    ensures
        ({
            let s = spec_parse_records(buf@, pos as int, n as nat);
            match r {
                Ok((rs, end)) => s == Ok::<(Seq<RecordView>, int), DecodeError>(
                    (rs.deep_view(), end as int),
                ),
                Err(e) => s == Err::<(Seq<RecordView>, int), DecodeError>(e),
            }
        }),
        r matches Ok(v) ==> v.1 <= buf@.len() || v.1 == pos,
{
    let mut out: Vec<ResourceRecord> = Vec::new();
    let mut p: usize = pos;
    let mut i: u16 = 0;
    proof {
        assert(out.deep_view() =~= Seq::<RecordView>::empty());
        assert(spec_parse_records(buf@, p as int, n as nat) matches Ok((rs, e)) ==> out.deep_view() + rs =~= rs);
    }
    while i < n
        invariant
            i <= n,
            p <= buf@.len() || p == pos,
            ({
                let outer = spec_parse_records(buf@, pos as int, n as nat);
                match spec_parse_records(buf@, p as int, (n - i) as nat) {
                    Ok((rs, e)) => outer == Ok::<(Seq<RecordView>, int), DecodeError>(
                        (out.deep_view() + rs, e),
                    ),
                    Err(er) => outer == Err::<(Seq<RecordView>, int), DecodeError>(er),
                }
            }),
        decreases n - i,
    {
        match resource_record(buf, p) {
            Ok((rr, p2)) => {
                let ghost dv0 = out.deep_view();
                out.push(rr);
                proof {
                    assert(out.deep_view() =~= dv0.push(rr@));
                    assert(spec_parse_records(buf@, p2 as int, (n - i - 1) as nat) matches Ok((rs2, e2))
                        ==> dv0 + (seq![rr@] + rs2) =~= out.deep_view() + rs2);
                }
                p = p2;
                i = i + 1;
            },
            Err(e) => {
                return Err(e);
            },
        }
    }
    proof {
        assert(spec_parse_records(buf@, p as int, 0) matches Ok((rs, e)) ==> out.deep_view() + rs =~= out.deep_view());
    }
    Ok((out, p))
}

/// Parses one whole message from the start of the buffer and returns it
/// with the number of bytes its encoding occupied.
pub fn message(buf: &[u8]) -> (r: Result<(Message, usize), DecodeError>)
    ensures
        ({
            let s = spec_parse_message(buf@);
            match r {
                Ok((m, end)) => s == Ok::<(MessageView, int), DecodeError>((m@, end as int)),
                Err(e) => s == Err::<(MessageView, int), DecodeError>(e),
            }
        }),
        r matches Ok(v) ==> v.1 <= buf@.len(),
{
    let (hdr, p0) = match header(buf, 0) {
        Ok(v) => v,
        Err(e) => {
            return Err(e);
        },
    };
    let (question, p1) = match questions(buf, p0, hdr.qd_count) {
        Ok(v) => v,
        Err(e) => {
            return Err(e);
        },
    };
    let (answer, p2) = match records(buf, p1, hdr.an_count) {
        Ok(v) => v,
        Err(e) => {
            return Err(e);
        },
    };
    let (authority, p3) = match records(buf, p2, hdr.ns_count) {
        Ok(v) => v,
        Err(e) => {
            return Err(e);
        },
    };
    let (additional, p4) = match records(buf, p3, hdr.ar_count) {
        Ok(v) => v,
        Err(e) => {
            return Err(e);
        },
    };
    let m = Message { header: hdr, question, answer, authority, additional };
    proof {
        assert(spec_parse_message(buf@) matches Ok((mv, e)) ==> m@ =~~= mv);
    }
    Ok((m, p4))
}

} // verus!
