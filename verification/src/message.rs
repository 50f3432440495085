//! The structured representation of one name-resolution protocol message:
//! header, bit-packed flags, questions and resource records, and domain
//! names as sequences of labels.

use vstd::prelude::*;
use vstd::string::StrSliceExecFns;

verus! {

/// Kind of query carried in the header. Values 3 to 15 are reserved by the
/// wire format; they are kept as tagged codes so that every 4-bit pattern
/// round-trips losslessly.
#[derive(Clone, Copy, Debug, PartialEq, Eq, Structural)]
pub enum Opcode {
    /// A standard query.
    Query,
    /// An inverse query.
    IQuery,
    /// A server status request.
    Status,
    /// A reserved code, 3 to 15.
    Reserved(u8),
}

impl Opcode {
    /// A code is well formed when a reserved value stays inside the 4-bit
    /// range and does not shadow one of the named codes.
    pub open spec fn wf(self) -> bool {
        match self {
            Opcode::Reserved(v) => 3 <= v < 16,
            _ => true,
        }
    }

    /// The 4-bit value a code stands for.
    pub open spec fn spec_raw(self) -> u8 {
        match self {
            Opcode::Query => 0,
            Opcode::IQuery => 1,
            Opcode::Status => 2,
            Opcode::Reserved(v) => v,
        }
    }

    /// The code a 4-bit value stands for.
    pub open spec fn spec_of(v: u8) -> Opcode {
        if v == 0 {
            Opcode::Query
        } else if v == 1 {
            Opcode::IQuery
        } else if v == 2 {
            Opcode::Status
        } else {
            Opcode::Reserved(v)
        }
    }

    pub fn new_with_raw_value(v: u8) -> (r: Opcode)
        requires
            v < 16,
        ensures
            r == Opcode::spec_of(v),
            r.wf(),
    {
        match v {
            0 => Opcode::Query,
            1 => Opcode::IQuery,
            2 => Opcode::Status,
            _ => Opcode::Reserved(v),
        }
    }

    pub fn raw_value(&self) -> (r: u8)
        ensures
            r == self.spec_raw(),
    {
        match self {
            Opcode::Query => 0,
            Opcode::IQuery => 1,
            Opcode::Status => 2,
            Opcode::Reserved(v) => *v,
        }
    }
}

/// Round-tripping a well-formed opcode through its 4-bit value gives the
/// opcode back.
proof fn lemma_opcode_raw_of(o: Opcode)
    requires
        o.wf(),
    ensures
        o.spec_raw() < 16,
        Opcode::spec_of(o.spec_raw()) == o,
{
}

/// Response status carried in the header. Values 6 to 15 are reserved by
/// the wire format and kept as tagged codes.
#[derive(Clone, Copy, Debug, PartialEq, Eq, Structural)]
pub enum Rcode {
    /// No error condition.
    NoError,
    /// The server was unable to interpret the query.
    FormatError,
    /// The server was unable to process the query.
    ServerFailure,
    /// The queried domain name does not exist.
    NameError,
    /// The server does not support the requested kind of query.
    NotImplemented,
    /// The server refuses to perform the operation.
    Refused,
    /// A reserved code, 6 to 15.
    Reserved(u8),
}

impl Rcode {
    /// A code is well formed when a reserved value stays inside the 4-bit
    /// range and does not shadow one of the named codes.
    pub open spec fn wf(self) -> bool {
        match self {
            Rcode::Reserved(v) => 6 <= v < 16,
            _ => true,
        }
    }

    /// The 4-bit value a code stands for.
    pub open spec fn spec_raw(self) -> u8 {
        match self {
            Rcode::NoError => 0,
            Rcode::FormatError => 1,
            Rcode::ServerFailure => 2,
            Rcode::NameError => 3,
            Rcode::NotImplemented => 4,
            Rcode::Refused => 5,
            Rcode::Reserved(v) => v,
        }
    }

    /// The code a 4-bit value stands for.
    pub open spec fn spec_of(v: u8) -> Rcode {
        if v == 0 {
            Rcode::NoError
        } else if v == 1 {
            Rcode::FormatError
        } else if v == 2 {
            Rcode::ServerFailure
        } else if v == 3 {
            Rcode::NameError
        } else if v == 4 {
            Rcode::NotImplemented
        } else if v == 5 {
            Rcode::Refused
        } else {
            Rcode::Reserved(v)
        }
    }

    pub fn new_with_raw_value(v: u8) -> (r: Rcode)
        requires
            v < 16,
        ensures
            r == Rcode::spec_of(v),
            r.wf(),
    {
        match v {
            0 => Rcode::NoError,
            1 => Rcode::FormatError,
            2 => Rcode::ServerFailure,
            3 => Rcode::NameError,
            4 => Rcode::NotImplemented,
            5 => Rcode::Refused,
            _ => Rcode::Reserved(v),
        }
    }

    pub fn raw_value(&self) -> (r: u8)
        ensures
            r == self.spec_raw(),
    {
        match self {
            Rcode::NoError => 0,
            Rcode::FormatError => 1,
            Rcode::ServerFailure => 2,
            Rcode::NameError => 3,
            Rcode::NotImplemented => 4,
            Rcode::Refused => 5,
            Rcode::Reserved(v) => *v,
        }
    }
}

/// Round-tripping a well-formed response code through its 4-bit value gives
/// the code back.
proof fn lemma_rcode_raw_of(c: Rcode)
    requires
        c.wf(),
    ensures
        c.spec_raw() < 16,
        Rcode::spec_of(c.spec_raw()) == c,
{
}

/// The header's 16-bit flags word, unpacked into its named sub-fields.
/// Bit 0 of the wire word is its most significant bit: QR, then the 4-bit
/// opcode, AA, TC, RD, RA, 3 reserved bits, and the 4-bit response code.
#[derive(Clone, Copy, Debug, PartialEq, Eq, Structural)]
pub struct Flags {
    /// False for a query, true for a response.
    pub qr: bool,
    /// Kind of query.
    pub opcode: Opcode,
    /// Authoritative answer.
    pub aa: bool,
    /// Truncation.
    pub tc: bool,
    /// Recursion desired.
    pub rd: bool,
    /// Recursion available.
    pub ra: bool,
    /// The 3 reserved bits; not interpreted, but they round-trip.
    pub z: u8,
    /// Response status.
    pub rcode: Rcode,
}

/// Every sub-field of the flags stays inside its bit width.
pub open spec fn flags_wf(f: Flags) -> bool {
    f.opcode.wf() && f.rcode.wf() && f.z < 8
}

/// Packs the flags into their 16-bit wire word. Sub-fields are masked to
/// their width, so packing is total.
pub open spec fn spec_flags_raw(f: Flags) -> u16 {
    (if f.qr {
        0x8000u16
    } else {
        0u16
    }) | (((f.opcode.spec_raw() & 0xf) as u16) << 11) | (if f.aa {
        0x0400u16
    } else {
        0u16
    }) | (if f.tc {
        0x0200u16
    } else {
        0u16
    }) | (if f.rd {
        0x0100u16
    } else {
        0u16
    }) | (if f.ra {
        0x0080u16
    } else {
        0u16
    }) | (((f.z & 7) as u16) << 4) | ((f.rcode.spec_raw() & 0xf) as u16)
}

/// Unpacks a 16-bit wire word into flags. Every pattern is a valid flags
/// value, since the opcode and response code admit reserved codes.
pub open spec fn spec_flags_of(r: u16) -> Flags {
    Flags {
        qr: r & 0x8000 == 0x8000,
        opcode: Opcode::spec_of(((r >> 11) & 0xf) as u8),
        aa: r & 0x0400 == 0x0400,
        tc: r & 0x0200 == 0x0200,
        rd: r & 0x0100 == 0x0100,
        ra: r & 0x0080 == 0x0080,
        z: ((r >> 4) & 7) as u8,
        rcode: Rcode::spec_of((r & 0xf) as u8),
    }
}

/// Unpacking a 16-bit word and packing the result gives the word back: no
/// bit of the wire word is lost, reserved bits and codes included.
pub proof fn lemma_flags_of_raw(r: u16)
    ensures
        spec_flags_raw(spec_flags_of(r)) == r,
        flags_wf(spec_flags_of(r)),
{
    assert(((r >> 11) & 0xf) < 16 && (r & 0xf) < 16 && ((r >> 4) & 7) < 8) by (bit_vector);
    let f = spec_flags_of(r);
    let o8: u8 = ((r >> 11) & 0xf) as u8;
    let z8: u8 = ((r >> 4) & 7) as u8;
    let c8: u8 = (r & 0xf) as u8;
    assert(f.opcode.spec_raw() == o8 && f.rcode.spec_raw() == c8 && f.z == z8);
    assert(o8 & 0xf == o8 && z8 & 7 == z8 && c8 & 0xf == c8) by (bit_vector)
        requires
            o8 < 16 && z8 < 8 && c8 < 16,
    ;
    let o16: u16 = (o8 & 0xf) as u16;
    let z16: u16 = (z8 & 7) as u16;
    let c16: u16 = (c8 & 0xf) as u16;
    let qb: u16 = if f.qr {
        0x8000u16
    } else {
        0u16
    };
    let ab: u16 = if f.aa {
        0x0400u16
    } else {
        0u16
    };
    let tb: u16 = if f.tc {
        0x0200u16
    } else {
        0u16
    };
    let db: u16 = if f.rd {
        0x0100u16
    } else {
        0u16
    };
    let eb: u16 = if f.ra {
        0x0080u16
    } else {
        0u16
    };
    assert(spec_flags_raw(f) == qb | (o16 << 11) | ab | tb | db | eb | (z16 << 4) | c16);
    assert(qb | (o16 << 11) | ab | tb | db | eb | (z16 << 4) | c16 == r) by (bit_vector)
        requires
            ((qb == 0x8000 && r & 0x8000 == 0x8000) || (qb == 0 && !(r & 0x8000 == 0x8000))),
            ((ab == 0x0400 && r & 0x0400 == 0x0400) || (ab == 0 && !(r & 0x0400 == 0x0400))),
            ((tb == 0x0200 && r & 0x0200 == 0x0200) || (tb == 0 && !(r & 0x0200 == 0x0200))),
            ((db == 0x0100 && r & 0x0100 == 0x0100) || (db == 0 && !(r & 0x0100 == 0x0100))),
            ((eb == 0x0080 && r & 0x0080 == 0x0080) || (eb == 0 && !(r & 0x0080 == 0x0080))),
            o16 == (r >> 11) & 0xf,
            z16 == (r >> 4) & 7,
            c16 == r & 0xf,
    ;
}

/// Packing well-formed flags and unpacking the result gives the flags back.
pub proof fn lemma_flags_raw_of(f: Flags)
    requires
        flags_wf(f),
    ensures
        spec_flags_of(spec_flags_raw(f)) == f,
{
    lemma_opcode_raw_of(f.opcode);
    lemma_rcode_raw_of(f.rcode);
    let oraw: u8 = f.opcode.spec_raw();
    let craw: u8 = f.rcode.spec_raw();
    let zraw: u8 = f.z;
    assert(oraw & 0xf == oraw && craw & 0xf == craw && zraw & 7 == zraw) by (bit_vector)
        requires
            oraw < 16 && craw < 16 && zraw < 8,
    ;
    let qb: u16 = if f.qr {
        0x8000u16
    } else {
        0u16
    };
    let ab: u16 = if f.aa {
        0x0400u16
    } else {
        0u16
    };
    let tb: u16 = if f.tc {
        0x0200u16
    } else {
        0u16
    };
    let db: u16 = if f.rd {
        0x0100u16
    } else {
        0u16
    };
    let eb: u16 = if f.ra {
        0x0080u16
    } else {
        0u16
    };
    let ov: u16 = (oraw & 0xf) as u16;
    let zv: u16 = (zraw & 7) as u16;
    let rv: u16 = (craw & 0xf) as u16;
    let raw: u16 = qb | (ov << 11) | ab | tb | db | eb | (zv << 4) | rv;
    assert(spec_flags_raw(f) == raw);
    assert((raw & 0x8000 == 0x8000 <==> qb == 0x8000) && ((raw >> 11) & 0xf) == ov && (raw & 0x0400
        == 0x0400 <==> ab == 0x0400) && (raw & 0x0200 == 0x0200 <==> tb == 0x0200) && (raw & 0x0100
        == 0x0100 <==> db == 0x0100) && (raw & 0x0080 == 0x0080 <==> eb == 0x0080) && ((raw >> 4)
        & 7) == zv && (raw & 0xf) == rv) by (bit_vector)
        requires
            (qb == 0 || qb == 0x8000) && (ab == 0 || ab == 0x0400) && (tb == 0 || tb == 0x0200) && (
            db == 0 || db == 0x0100) && (eb == 0 || eb == 0x0080) && ov < 16 && zv < 8 && rv < 16
                && raw == qb | (ov << 11) | ab | tb | db | eb | (zv << 4) | rv,
    ;
    assert(((raw >> 11) & 0xf) as u8 == oraw && ((raw >> 4) & 7) as u8 == zraw && (raw & 0xf) as u8
        == craw);
}

impl Flags {
    /// Unpacks a 16-bit wire word into its named sub-fields.
    pub fn new_with_raw_value(raw: u16) -> (r: Flags)
        ensures
            r == spec_flags_of(raw),
            flags_wf(r),
            spec_flags_raw(r) == raw,
    {
        proof {
            lemma_flags_of_raw(raw);
            assert(((raw >> 11) & 0xf) < 16 && (raw & 0xf) < 16) by (bit_vector);
        }
        Flags {
            qr: raw & 0x8000 == 0x8000,
            opcode: Opcode::new_with_raw_value(((raw >> 11) & 0xf) as u8),
            aa: raw & 0x0400 == 0x0400,
            tc: raw & 0x0200 == 0x0200,
            rd: raw & 0x0100 == 0x0100,
            ra: raw & 0x0080 == 0x0080,
            z: ((raw >> 4) & 7) as u8,
            rcode: Rcode::new_with_raw_value((raw & 0xf) as u8),
        }
    }

    /// Packs the sub-fields back into the 16-bit wire word.
    pub fn raw_value(&self) -> (r: u16)
        ensures
            r == spec_flags_raw(*self),
    {
        (if self.qr {
            0x8000u16
        } else {
            0u16
        }) | (((self.opcode.raw_value() & 0xf) as u16) << 11) | (if self.aa {
            0x0400u16
        } else {
            0u16
        }) | (if self.tc {
            0x0200u16
        } else {
            0u16
        }) | (if self.rd {
            0x0100u16
        } else {
            0u16
        }) | (if self.ra {
            0x0080u16
        } else {
            0u16
        }) | (((self.z & 7) as u16) << 4) | ((self.rcode.raw_value() & 0xf) as u16)
    }
}

/// The fixed 12-byte header: an id, the flags word, and the four section
/// counts, all 16-bit fields in network byte order on the wire.
#[derive(Clone, Copy, Debug, PartialEq, Eq, Structural)]
pub struct Header {
    /// Identifier copied from a query into the matching reply.
    pub id: u16,
    /// The unpacked flags word.
    pub flags: Flags,
    /// Number of entries in the question section.
    pub qd_count: u16,
    /// Number of records in the answer section.
    pub an_count: u16,
    /// Number of records in the authority section.
    pub ns_count: u16,
    /// Number of records in the additional section.
    pub ar_count: u16,
}

/// A domain name: an ordered sequence of labels. Equality is structural, so
/// compressed and uncompressed spellings of the same name compare equal once
/// parsed.
#[derive(Debug, PartialEq)]
pub struct Name {
    pub(crate) labels: Vec<String>,
}

impl View for Name {
    type V = Seq<Seq<char>>;

    open(crate) spec fn view(&self) -> Seq<Seq<char>> {
        self.labels.deep_view()
    }
}

impl DeepView for Name {
    type V = Seq<Seq<char>>;

    open spec fn deep_view(&self) -> Seq<Seq<char>> {
        self.view()
    }
}

/// Splits a character sequence into the label sequence it spells, cutting at
/// every dot: the split of `"google.com"` is `["google", "com"]`, and an
/// empty piece between, before or after dots stays an empty label.
pub open spec fn split_labels(s: Seq<char>) -> Seq<Seq<char>>
    decreases s.len(),
{
    if s.len() == 0 {
        seq![Seq::<char>::empty()]
    } else {
        let rest = split_labels(s.drop_first());
        if s[0] == '.' {
            seq![Seq::<char>::empty()] + rest
        } else {
            seq![seq![s[0]] + rest[0]] + rest.drop_first()
        }
    }
}

/// The split of any character sequence holds at least one piece.
proof fn lemma_split_labels_len(s: Seq<char>)
    ensures
        split_labels(s).len() >= 1,
    decreases s.len(),
{
    if s.len() > 0 {
        lemma_split_labels_len(s.drop_first());
    }
}

/// A sequence without dots splits into itself alone.
proof fn lemma_split_labels_no_dot(s: Seq<char>)
    requires
        forall|k: int| 0 <= k < s.len() ==> s[k] != '.',
    ensures
        split_labels(s) == seq![s],
    decreases s.len(),
{
    if s.len() == 0 {
        assert(split_labels(s) =~~= seq![s]);
    } else {
        lemma_split_labels_no_dot(s.drop_first());
        lemma_split_labels_len(s.drop_first());
        assert(seq![s[0]] + s.drop_first() =~= s);
        assert(split_labels(s) =~~= seq![s]);
    }
}

/// Splitting at the first dot: everything before it is the first piece, and
/// the rest splits on its own.
proof fn lemma_split_labels_at_dot(s: Seq<char>, j: int)
    requires
        0 <= j < s.len(),
        s[j] == '.',
        forall|k: int| 0 <= k < j ==> s[k] != '.',
    ensures
        split_labels(s) == seq![s.subrange(0, j)] + split_labels(
            s.subrange(j + 1, s.len() as int),
        ),
    decreases j,
{
    if j == 0 {
        assert(s.drop_first() =~= s.subrange(1, s.len() as int));
        assert(s.subrange(0, 0) =~= Seq::<char>::empty());
        assert(split_labels(s) =~~= seq![s.subrange(0, 0)] + split_labels(
            s.subrange(1, s.len() as int),
        ));
    } else {
        let t = s.drop_first();
        lemma_split_labels_at_dot(t, j - 1);
        lemma_split_labels_len(t.subrange(j, t.len() as int));
        assert(t.subrange(0, j - 1) =~= s.subrange(1, j));
        assert(t.subrange(j, t.len() as int) =~= s.subrange(j + 1, s.len() as int));
        assert(seq![s[0]] + s.subrange(1, j) =~= s.subrange(0, j));
        assert(split_labels(s) =~~= seq![s.subrange(0, j)] + split_labels(
            s.subrange(j + 1, s.len() as int),
        ));
    }
}

impl Name {
    /// Builds a name from its dotted spelling, one label per piece between
    /// dots.
    pub fn from(value: &str) -> (r: Name)
        ensures
            r@ == split_labels(value@),
    {
        let n: usize = value.unicode_len();
        let mut labels: Vec<String> = Vec::new();
        let mut start: usize = 0;
        let mut i: usize = 0;
        proof {
            assert(value@.subrange(0, n as int) =~= value@);
            assert(labels.deep_view() =~= Seq::<Seq<char>>::empty());
            assert(labels.deep_view() + split_labels(value@) =~= split_labels(value@));
        }
        while i < n
            invariant
                n == value@.len(),
                start <= i <= n,
                forall|k: int| start <= k < i ==> value@[k] != '.',
                split_labels(value@) == labels.deep_view() + split_labels(
                    value@.subrange(start as int, n as int),
                ),
            decreases n - i,
        {
            if value.get_char(i) == '.' {
                let piece = value.substring_char(start, i).to_owned();
                proof {
                    let tail = value@.subrange(start as int, n as int);
                    lemma_split_labels_at_dot(tail, i - start);
                    assert(tail.subrange(0, i - start) =~= value@.subrange(
                        start as int,
                        i as int,
                    ));
                    assert(tail.subrange(i - start + 1, tail.len() as int) =~= value@.subrange(
                        i as int + 1,
                        n as int,
                    ));
                }
                labels.push(piece);
                proof {
                    assert(labels.deep_view() =~= labels.deep_view().subrange(
                        0,
                        labels.deep_view().len() - 1,
                    ).push(value@.subrange(start as int, i as int)));
                    assert(split_labels(value@) =~~= labels.deep_view() + split_labels(
                        value@.subrange(i as int + 1, n as int),
                    ));
                }
                start = i + 1;
            }
            i = i + 1;
        }
        let last = value.substring_char(start, n).to_owned();
        proof {
            lemma_split_labels_no_dot(value@.subrange(start as int, n as int));
        }
        labels.push(last);
        proof {
            assert(labels.deep_view() =~= labels.deep_view().subrange(
                0,
                labels.deep_view().len() - 1,
            ).push(value@.subrange(start as int, n as int)));
            assert(labels.deep_view() =~~= split_labels(value@));
        }
        Name { labels }
    }
}

/// The mathematical value of a question: its name as label character
/// sequences, and the two 16-bit codes.
#[verifier::ext_equal]
pub struct QuestionView {
    pub qname: Seq<Seq<char>>,
    pub qtype: u16,
    pub qclass: u16,
}

/// One entry of the question section: a name, a query-type code and a
/// query-class code.
#[derive(Debug, PartialEq)]
pub struct Question {
    /// The domain name asked about.
    pub qname: Name,
    /// The query-type code.
    pub qtype: u16,
    /// The query-class code.
    pub qclass: u16,
}

impl View for Question {
    type V = QuestionView;

    open spec fn view(&self) -> QuestionView {
        QuestionView { qname: self.qname@, qtype: self.qtype, qclass: self.qclass }
    }
}

impl DeepView for Question {
    type V = QuestionView;

    open spec fn deep_view(&self) -> QuestionView {
        self.view()
    }
}

/// The mathematical value of a resource record.
#[verifier::ext_equal]
pub struct RecordView {
    pub name: Seq<Seq<char>>,
    pub rtype: u16,
    pub class: u16,
    pub ttl: u32,
    pub rdlength: u16,
    pub rdata: Seq<u8>,
}

/// One resource record: a name, its type and class codes, a time to live,
/// and an opaque payload whose declared length precedes it on the wire.
#[derive(Debug, PartialEq)]
pub struct ResourceRecord {
    /// The domain name the record pertains to.
    pub name: Name,
    /// The record-type code.
    pub rtype: u16,
    /// The record-class code.
    pub class: u16,
    /// Seconds the record may be cached; zero means do not cache.
    pub ttl: u32,
    /// Declared length in bytes of the payload.
    pub rdlength: u16,
    /// The raw payload bytes, carried opaquely.
    pub rdata: Vec<u8>,
}

impl View for ResourceRecord {
    type V = RecordView;

    open spec fn view(&self) -> RecordView {
        RecordView {
            name: self.name@,
            rtype: self.rtype,
            class: self.class,
            ttl: self.ttl,
            rdlength: self.rdlength,
            rdata: self.rdata@,
        }
    }
}

impl DeepView for ResourceRecord {
    type V = RecordView;

    open spec fn deep_view(&self) -> RecordView {
        self.view()
    }
}

/// The mathematical value of a whole message.
#[verifier::ext_equal]
pub struct MessageView {
    pub header: Header,
    pub question: Seq<QuestionView>,
    pub answer: Seq<RecordView>,
    pub authority: Seq<RecordView>,
    pub additional: Seq<RecordView>,
}

/// A whole message: the header followed by the four sections. The parser
/// always returns sections whose lengths equal the header counts; a message
/// built by hand for encoding is the caller's to keep consistent.
#[derive(Debug, PartialEq)]
pub struct Message {
    /// The fixed header.
    pub header: Header,
    /// The question section.
    pub question: Vec<Question>,
    /// The answer section.
    pub answer: Vec<ResourceRecord>,
    /// The authority section.
    pub authority: Vec<ResourceRecord>,
    /// The additional section.
    pub additional: Vec<ResourceRecord>,
}

impl View for Message {
    type V = MessageView;

    open spec fn view(&self) -> MessageView {
        MessageView {
            header: self.header,
            question: self.question.deep_view(),
            answer: self.answer.deep_view(),
            authority: self.authority.deep_view(),
            additional: self.additional.deep_view(),
        }
    }
}

impl DeepView for Message {
    type V = MessageView;

    open spec fn deep_view(&self) -> MessageView {
        self.view()
    }
}

} // verus!
