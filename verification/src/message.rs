//! The DNS message codec: questions, resource records, and whole responses,
//! with a mathematical model of the wire encoding and a decoder proved
//! against it.
//!
//! A domain name is held as its sequence of labels (each 1 to 63 bytes, as
//! the wire format's length byte demands); record data is held as the raw
//! bytes of the RDATA field. Name compression pointers are not emitted and
//! are rejected on decode.

use vstd::prelude::*;

use crate::errors::Error;
use crate::wire::{enc_u16, enc_u32, u16_of, u32_of, push_u16, push_u32, read_u16, read_u32};

verus! {

// ---------------------------------------------------------------------------
// Models: the mathematical values the contracts speak of.
// ---------------------------------------------------------------------------

/// Model of one entry of the question section.
#[verifier::ext_equal]
pub ghost struct QuestionModel {
    pub name: Seq<Seq<u8>>,
    pub qtype: u16,
    pub qclass: u16,
}

/// Model of one resource record, with its RDATA kept as raw bytes.
#[verifier::ext_equal]
pub ghost struct RecordModel {
    pub name: Seq<Seq<u8>>,
    pub rtype: u16,
    pub rclass: u16,
    pub ttl: u32,
    pub rdata: Seq<u8>,
}

/// Model of a whole DNS message as a response carries it: header fields and
/// the four sections.
#[verifier::ext_equal]
pub ghost struct ResponseModel {
    pub id: u16,
    pub flags: u16,
    pub questions: Seq<QuestionModel>,
    pub answers: Seq<RecordModel>,
    pub authorities: Seq<RecordModel>,
    pub additionals: Seq<RecordModel>,
}

// ---------------------------------------------------------------------------
// Executable data types.
// ---------------------------------------------------------------------------

/// One entry of the question section of a DNS message.
#[derive(Debug, Clone, PartialEq, Eq)]
pub struct Question {
    /// The queried name, one label per element.
    pub name: Vec<Vec<u8>>,
    /// The queried record type (A = 1, AAAA = 28, ...).
    pub qtype: u16,
    /// The queried class (IN = 1).
    pub qclass: u16,
}

impl DeepView for Question {
    type V = QuestionModel;

    open spec fn deep_view(&self) -> QuestionModel {
        QuestionModel { name: self.name.deep_view(), qtype: self.qtype, qclass: self.qclass }
    }
}

/// One resource record of the answer, authority, or additional section.
#[derive(Debug, Clone, PartialEq, Eq)]
pub struct Record {
    /// The record's owner name, one label per element.
    pub name: Vec<Vec<u8>>,
    /// The record type.
    pub rtype: u16,
    /// The record class.
    pub rclass: u16,
    /// Time to live, in seconds.
    pub ttl: u32,
    /// The raw bytes of the RDATA field.
    pub rdata: Vec<u8>,
}

impl DeepView for Record {
    type V = RecordModel;

    open spec fn deep_view(&self) -> RecordModel {
        RecordModel {
            name: self.name.deep_view(),
            rtype: self.rtype,
            rclass: self.rclass,
            ttl: self.ttl,
            rdata: self.rdata.deep_view(),
        }
    }
}

/// A decoded DNS message: the header's id and flags, and the four sections.
#[derive(Debug, Clone, PartialEq, Eq)]
pub struct Response {
    /// The transaction id echoed by the server.
    pub id: u16,
    /// The raw 16-bit flags field; the response code sits in its low 4 bits.
    pub flags: u16,
    /// The echoed question section.
    pub questions: Vec<Question>,
    /// The answer section.
    pub answers: Vec<Record>,
    /// The authority section.
    pub authorities: Vec<Record>,
    /// The additional section.
    pub additionals: Vec<Record>,
}

impl DeepView for Response {
    type V = ResponseModel;

    open spec fn deep_view(&self) -> ResponseModel {
        ResponseModel {
            id: self.id,
            flags: self.flags,
            questions: self.questions.deep_view(),
            answers: self.answers.deep_view(),
            authorities: self.authorities.deep_view(),
            additionals: self.additionals.deep_view(),
        }
    }
}

// ---------------------------------------------------------------------------
// Validity: what the wire format can carry.
// ---------------------------------------------------------------------------

/// A label fits the wire format: non-empty and at most 63 bytes, so its
/// length byte can never collide with the terminator or a compression tag.
pub open spec fn valid_label(l: Seq<u8>) -> bool {
    1 <= l.len() <= 63
}

/// Every label of the name fits the wire format.
pub open spec fn valid_name(n: Seq<Seq<u8>>) -> bool {
    forall|i: int| 0 <= i < n.len() ==> valid_label(#[trigger] n[i])
}

/// A question the wire format can carry.
pub open spec fn valid_question(q: QuestionModel) -> bool {
    valid_name(q.name)
}

/// A record the wire format can carry: its RDATA length must fit the 16-bit
/// length field.
pub open spec fn valid_record(r: RecordModel) -> bool {
    valid_name(r.name) && r.rdata.len() <= 0xffff
}

/// Every record of the section is valid.
pub open spec fn valid_records(rs: Seq<RecordModel>) -> bool {
    forall|i: int| 0 <= i < rs.len() ==> valid_record(#[trigger] rs[i])
}

/// A message the wire format can carry: section lengths fit the 16-bit count
/// fields and every entry is itself valid.
pub open spec fn valid_response(m: ResponseModel) -> bool {
    &&& m.questions.len() <= 0xffff
    &&& m.answers.len() <= 0xffff
    &&& m.authorities.len() <= 0xffff
    &&& m.additionals.len() <= 0xffff
    &&& forall|i: int| 0 <= i < m.questions.len() ==> valid_question(#[trigger] m.questions[i])
    &&& valid_records(m.answers)
    &&& valid_records(m.authorities)
    &&& valid_records(m.additionals)
}

// ---------------------------------------------------------------------------
// The encoding, as a mathematical function.
// ---------------------------------------------------------------------------

/// The wire bytes of a name's labels: each label prefixed by its length.
pub open spec fn enc_labels(n: Seq<Seq<u8>>) -> Seq<u8>
    decreases n.len(),
{
    if n.len() == 0 {
        Seq::empty()
    } else {
        seq![n[0].len() as u8] + n[0] + enc_labels(n.drop_first())
    }
}

/// The wire bytes of a name: its labels followed by the zero terminator.
pub open spec fn enc_name(n: Seq<Seq<u8>>) -> Seq<u8> {
    enc_labels(n) + seq![0u8]
}

/// The wire bytes of a question: name, type, class.
pub open spec fn enc_question(q: QuestionModel) -> Seq<u8> {
    enc_name(q.name) + enc_u16(q.qtype) + enc_u16(q.qclass)
}

/// The wire bytes of a record: name, type, class, TTL, RDATA length, RDATA.
pub open spec fn enc_record(r: RecordModel) -> Seq<u8> {
    enc_name(r.name) + enc_u16(r.rtype) + enc_u16(r.rclass) + enc_u32(r.ttl) + enc_u16(
        r.rdata.len() as u16,
    ) + r.rdata
}

/// The wire bytes of a question section, in order.
pub open spec fn enc_questions(qs: Seq<QuestionModel>) -> Seq<u8>
    decreases qs.len(),
{
    if qs.len() == 0 {
        Seq::empty()
    } else {
        enc_question(qs[0]) + enc_questions(qs.drop_first())
    }
}

/// The wire bytes of a record section, in order.
pub open spec fn enc_records(rs: Seq<RecordModel>) -> Seq<u8>
    decreases rs.len(),
{
    if rs.len() == 0 {
        Seq::empty()
    } else {
        enc_record(rs[0]) + enc_records(rs.drop_first())
    }
}

/// The 12 header bytes: id, flags, and the four section counts.
pub open spec fn enc_header(m: ResponseModel) -> Seq<u8> {
    enc_u16(m.id) + enc_u16(m.flags) + enc_u16(m.questions.len() as u16) + enc_u16(
        m.answers.len() as u16,
    ) + enc_u16(m.authorities.len() as u16) + enc_u16(m.additionals.len() as u16)
}

/// The full wire encoding of a message.
pub open spec fn enc_response(m: ResponseModel) -> Seq<u8> {
    enc_header(m) + enc_questions(m.questions) + enc_records(m.answers) + enc_records(
        m.authorities,
    ) + enc_records(m.additionals)
}

// ---------------------------------------------------------------------------
// Prefix lemmas: encoding a section one entry at a time.
// ---------------------------------------------------------------------------

/// Extending the encoded prefix of a name by one label.
pub proof fn lemma_enc_labels_snoc(n: Seq<Seq<u8>>, i: int)
    requires
        0 <= i < n.len(),
    ensures
        enc_labels(n.take(i + 1)) == enc_labels(n.take(i)) + seq![n[i].len() as u8] + n[i],
    decreases i,
{
    if i == 0 {
        assert(n.take(1).len() == 1);
        assert(n.take(1)[0] == n[0]);
        assert(n.take(0).len() == 0);
        assert(n.take(1).drop_first() =~= n.take(0));
        assert(enc_labels(n.take(1)) == seq![n.take(1)[0].len() as u8] + n.take(1)[0]
            + enc_labels(n.take(1).drop_first()));
        assert(enc_labels(n.take(1)) =~= enc_labels(n.take(0)) + seq![n[0].len() as u8] + n[0]);
    } else {
        lemma_enc_labels_snoc(n.drop_first(), i - 1);
        assert(n.take(i + 1).drop_first() =~= n.drop_first().take(i));
        assert(n.take(i).drop_first() =~= n.drop_first().take(i - 1));
        assert(n.take(i + 1)[0] == n[0]);
        assert(n.take(i)[0] == n[0]);
        assert(enc_labels(n.take(i + 1)) == seq![n[0].len() as u8] + n[0] + enc_labels(
            n.drop_first().take(i),
        ));
        assert(enc_labels(n.take(i)) == seq![n[0].len() as u8] + n[0] + enc_labels(
            n.drop_first().take(i - 1),
        ));
        assert(n.drop_first()[i - 1] == n[i]);
        assert(enc_labels(n.take(i + 1)) =~= enc_labels(n.take(i)) + seq![n[i].len() as u8]
            + n[i]);
    }
}

/// Extending the encoded prefix of a question section by one question.
pub proof fn lemma_enc_questions_snoc(qs: Seq<QuestionModel>, i: int)
    requires
        0 <= i < qs.len(),
    ensures
        enc_questions(qs.take(i + 1)) == enc_questions(qs.take(i)) + enc_question(qs[i]),
    decreases i,
{
    if i == 0 {
        assert(qs.take(1).len() == 1);
        assert(qs.take(1)[0] == qs[0]);
        assert(qs.take(0).len() == 0);
        assert(qs.take(1).drop_first() =~= qs.take(0));
        assert(enc_questions(qs.take(1)) == enc_question(qs.take(1)[0]) + enc_questions(
            qs.take(1).drop_first(),
        ));
        assert(enc_questions(qs.take(1)) =~= enc_questions(qs.take(0)) + enc_question(qs[0]));
    } else {
        lemma_enc_questions_snoc(qs.drop_first(), i - 1);
        assert(qs.take(i + 1).drop_first() =~= qs.drop_first().take(i));
        assert(qs.take(i).drop_first() =~= qs.drop_first().take(i - 1));
        assert(qs.take(i + 1)[0] == qs[0]);
        assert(qs.take(i)[0] == qs[0]);
        assert(enc_questions(qs.take(i + 1)) == enc_question(qs[0]) + enc_questions(
            qs.drop_first().take(i),
        ));
        assert(enc_questions(qs.take(i)) == enc_question(qs[0]) + enc_questions(
            qs.drop_first().take(i - 1),
        ));
        assert(qs.drop_first()[i - 1] == qs[i]);
        assert(enc_questions(qs.take(i + 1)) =~= enc_questions(qs.take(i)) + enc_question(
            qs[i],
        ));
    }
}

/// Extending the encoded prefix of a record section by one record.
pub proof fn lemma_enc_records_snoc(rs: Seq<RecordModel>, i: int)
    requires
        0 <= i < rs.len(),
    ensures
        enc_records(rs.take(i + 1)) == enc_records(rs.take(i)) + enc_record(rs[i]),
    decreases i,
{
    if i == 0 {
        assert(rs.take(1).len() == 1);
        assert(rs.take(1)[0] == rs[0]);
        assert(rs.take(0).len() == 0);
        assert(rs.take(1).drop_first() =~= rs.take(0));
        assert(enc_records(rs.take(1)) == enc_record(rs.take(1)[0]) + enc_records(
            rs.take(1).drop_first(),
        ));
        assert(enc_records(rs.take(1)) =~= enc_records(rs.take(0)) + enc_record(rs[0]));
    } else {
        lemma_enc_records_snoc(rs.drop_first(), i - 1);
        assert(rs.take(i + 1).drop_first() =~= rs.drop_first().take(i));
        assert(rs.take(i).drop_first() =~= rs.drop_first().take(i - 1));
        assert(rs.take(i + 1)[0] == rs[0]);
        assert(rs.take(i)[0] == rs[0]);
        assert(enc_records(rs.take(i + 1)) == enc_record(rs[0]) + enc_records(
            rs.drop_first().take(i),
        ));
        assert(enc_records(rs.take(i)) == enc_record(rs[0]) + enc_records(
            rs.drop_first().take(i - 1),
        ));
        assert(rs.drop_first()[i - 1] == rs[i]);
        assert(enc_records(rs.take(i + 1)) =~= enc_records(rs.take(i)) + enc_record(rs[i]));
    }
}

// ---------------------------------------------------------------------------
// The decoder, as a mathematical function. `None` stands for a malformed
// buffer; each parser returns the parsed value and the index just past it.
// ---------------------------------------------------------------------------

/// Parses a name at offset `i`: labels until the zero terminator. A length
/// byte above 63 (in particular a compression tag) or a truncated label is
/// malformed.
pub open spec fn parse_name(b: Seq<u8>, i: int) -> Option<(Seq<Seq<u8>>, int)>
    decreases b.len() - i,
{
    if i < 0 || i >= b.len() {
        None
    } else {
        let len = b[i] as int;
        if len == 0 {
            Some((Seq::empty(), i + 1))
        } else if len <= 63 && i + 1 + len <= b.len() {
            match parse_name(b, i + 1 + len) {
                Some((rest, j)) => Some((seq![b.subrange(i + 1, i + 1 + len)] + rest, j)),
                None => None,
            }
        } else {
            None
        }
    }
}

/// Parses a question at offset `i`: name, type, class.
pub open spec fn parse_question(b: Seq<u8>, i: int) -> Option<(QuestionModel, int)> {
    match parse_name(b, i) {
        Some((name, j)) => if j + 4 <= b.len() {
            Some(
                (
                    QuestionModel {
                        name,
                        qtype: u16_of(b[j], b[j + 1]),
                        qclass: u16_of(b[j + 2], b[j + 3]),
                    },
                    j + 4,
                ),
            )
        } else {
            None
        },
        None => None,
    }
}

/// Parses a record at offset `i`: name, type, class, TTL, RDATA length,
/// RDATA. The declared RDATA length must be covered by the buffer.
pub open spec fn parse_record(b: Seq<u8>, i: int) -> Option<(RecordModel, int)> {
    match parse_name(b, i) {
        Some((name, j)) => if j + 10 <= b.len() {
            let rdlen = u16_of(b[j + 8], b[j + 9]) as int;
            if j + 10 + rdlen <= b.len() {
                Some(
                    (
                        RecordModel {
                            name,
                            rtype: u16_of(b[j], b[j + 1]),
                            rclass: u16_of(b[j + 2], b[j + 3]),
                            ttl: u32_of(b[j + 4], b[j + 5], b[j + 6], b[j + 7]),
                            rdata: b.subrange(j + 10, j + 10 + rdlen),
                        },
                        j + 10 + rdlen,
                    ),
                )
            } else {
                None
            }
        } else {
            None
        },
        None => None,
    }
}

/// Parses `count` questions in sequence starting at offset `i`.
pub open spec fn parse_questions(b: Seq<u8>, i: int, count: nat) -> Option<
    (Seq<QuestionModel>, int),
>
    decreases count,
{
    if count == 0 {
        Some((Seq::empty(), i))
    } else {
        match parse_question(b, i) {
            Some((q, j)) => match parse_questions(b, j, (count - 1) as nat) {
                Some((qs, j2)) => Some((seq![q] + qs, j2)),
                None => None,
            },
            None => None,
        }
    }
}

/// Parses `count` records in sequence starting at offset `i`.
pub open spec fn parse_records(b: Seq<u8>, i: int, count: nat) -> Option<(Seq<RecordModel>, int)>
    decreases count,
{
    if count == 0 {
        Some((Seq::empty(), i))
    } else {
        match parse_record(b, i) {
            Some((r, j)) => match parse_records(b, j, (count - 1) as nat) {
                Some((rs, j2)) => Some((seq![r] + rs, j2)),
                None => None,
            },
            None => None,
        }
    }
}

/// Parses a whole message: 12-byte header, the counted sections, and
/// nothing left over.
pub open spec fn parse_response(b: Seq<u8>) -> Option<ResponseModel> {
    if b.len() < 12 {
        None
    } else {
        let qd = u16_of(b[4], b[5]) as nat;
        let an = u16_of(b[6], b[7]) as nat;
        let ns = u16_of(b[8], b[9]) as nat;
        let ar = u16_of(b[10], b[11]) as nat;
        match parse_questions(b, 12, qd) {
            Some((qs, i1)) => match parse_records(b, i1, an) {
                Some((ans, i2)) => match parse_records(b, i2, ns) {
                    Some((auth, i3)) => match parse_records(b, i3, ar) {
                        Some((add, i4)) => if i4 == b.len() {
                            Some(
                                ResponseModel {
                                    id: u16_of(b[0], b[1]),
                                    flags: u16_of(b[2], b[3]),
                                    questions: qs,
                                    answers: ans,
                                    authorities: auth,
                                    additionals: add,
                                },
                            )
                        } else {
                            None
                        },
                        None => None,
                    },
                    None => None,
                },
                None => None,
            },
            None => None,
        }
    }
}

// ---------------------------------------------------------------------------
// Round trip: parsing an encoding yields the encoded value.
// ---------------------------------------------------------------------------

/// Splits knowledge of a two-part window: if the bytes at `i` are `e1 + e2`,
/// then `e1` and `e2` each sit at their own offset.
pub proof fn lemma_split_window(b: Seq<u8>, i: int, e1: Seq<u8>, e2: Seq<u8>)
    requires
        0 <= i,
        i + e1.len() + e2.len() <= b.len(),
        b.subrange(i, i + e1.len() + e2.len()) == e1 + e2,
    ensures
        b.subrange(i, i + e1.len() as int) == e1,
        b.subrange(i + e1.len() as int, i + e1.len() + e2.len()) == e2,
{
    let w = b.subrange(i, i + e1.len() + e2.len());
    assert forall|k: int| 0 <= k < e1.len() implies b.subrange(i, i + e1.len() as int)[k]
        == e1[k] by {
        assert(b.subrange(i, i + e1.len() as int)[k] == b[i + k]);
        assert(w[k] == b[i + k]);
        assert(w[k] == e1[k]);
    }
    assert(b.subrange(i, i + e1.len() as int) =~= e1);
    assert forall|k: int| 0 <= k < e2.len() implies b.subrange(
        i + e1.len() as int,
        i + e1.len() + e2.len(),
    )[k] == e2[k] by {
        assert(b.subrange(i + e1.len() as int, i + e1.len() + e2.len())[k] == b[i + e1.len()
            + k]);
        assert(w[e1.len() + k] == b[i + (e1.len() + k)]);
        assert(w[e1.len() + k] == e2[k]);
    }
    assert(b.subrange(i + e1.len() as int, i + e1.len() + e2.len()) =~= e2);
}

/// A 16-bit field read back from its own encoding.
pub proof fn lemma_u16_at(b: Seq<u8>, i: int, x: u16)
    requires
        0 <= i,
        i + 2 <= b.len(),
        b.subrange(i, i + 2) == enc_u16(x),
    ensures
        u16_of(b[i], b[i + 1]) == x,
{
    assert(b.subrange(i, i + 2)[0] == b[i]);
    assert(b.subrange(i, i + 2)[1] == b[i + 1]);
    crate::wire::lemma_u16_round_trip(x);
}

/// A 32-bit field read back from its own encoding.
pub proof fn lemma_u32_at(b: Seq<u8>, i: int, x: u32)
    requires
        0 <= i,
        i + 4 <= b.len(),
        b.subrange(i, i + 4) == enc_u32(x),
    ensures
        u32_of(b[i], b[i + 1], b[i + 2], b[i + 3]) == x,
{
    assert(b.subrange(i, i + 4)[0] == b[i]);
    assert(b.subrange(i, i + 4)[1] == b[i + 1]);
    assert(b.subrange(i, i + 4)[2] == b[i + 2]);
    assert(b.subrange(i, i + 4)[3] == b[i + 3]);
    crate::wire::lemma_u32_round_trip(x);
}

/// A non-empty name's encoding starts with its first label.
pub proof fn lemma_enc_name_unfold(n: Seq<Seq<u8>>)
    requires
        n.len() > 0,
    ensures
        enc_name(n) == seq![n[0].len() as u8] + n[0] + enc_name(n.drop_first()),
{
    assert(enc_name(n) =~= seq![n[0].len() as u8] + n[0] + enc_name(n.drop_first()));
}

/// Parsing an encoded name at its offset yields the name.
pub proof fn lemma_parse_name(b: Seq<u8>, i: int, n: Seq<Seq<u8>>)
    requires
        valid_name(n),
        0 <= i,
        i + enc_name(n).len() <= b.len(),
        b.subrange(i, i + enc_name(n).len() as int) == enc_name(n),
    ensures
        parse_name(b, i) == Some((n, i + enc_name(n).len() as int)),
    decreases n.len(),
{
    let e = enc_name(n);
    let el = e.len() as int;
    assert forall|k: int| 0 <= k < el implies b[i + k] == e[k] by {
        assert(b.subrange(i, i + el)[k] == b[i + k]);
    }
    if n.len() == 0 {
        assert(enc_labels(n).len() == 0);
        assert(e =~= seq![0u8]);
        assert(e[0] == 0u8);
        assert(b[i + 0] == e[0]);
        assert(b[i] == 0);
        assert(n =~= Seq::<Seq<u8>>::empty());
    } else {
        let l = n[0];
        let ll = l.len() as int;
        assert(valid_label(l));
        lemma_enc_name_unfold(n);
        let rest = enc_name(n.drop_first());
        assert(e.len() == 1 + ll + rest.len());
        assert(e[0] == l.len() as u8);
        assert(b[i] == l.len() as u8);
        assert(b[i] as int == ll);
        assert forall|k: int| 0 <= k < ll implies b[i + 1 + k] == l[k] by {
            assert(e[1 + k] == l[k]);
        }
        assert(b.subrange(i + 1, i + 1 + ll) =~= l);
        assert forall|k: int| 0 <= k < rest.len() implies b[i + 1 + ll + k] == rest[k] by {
            assert(e[1 + ll + k] == rest[k]);
        }
        assert(b.subrange(i + 1 + ll, i + 1 + ll + rest.len()) =~= rest);
        lemma_parse_name(b, i + 1 + ll, n.drop_first());
        assert(parse_name(b, i) == Some((seq![l] + n.drop_first(), i + el)));
        assert(seq![l] + n.drop_first() =~= n);
    }
}

/// Parsing an encoded question at its offset yields the question.
pub proof fn lemma_parse_question(b: Seq<u8>, i: int, q: QuestionModel)
    requires
        valid_question(q),
        0 <= i,
        i + enc_question(q).len() <= b.len(),
        b.subrange(i, i + enc_question(q).len() as int) == enc_question(q),
    ensures
        parse_question(b, i) == Some((q, i + enc_question(q).len() as int)),
{
    let en = enc_name(q.name);
    let nl = en.len() as int;
    lemma_split_window(b, i, en + enc_u16(q.qtype), enc_u16(q.qclass));
    lemma_split_window(b, i, en, enc_u16(q.qtype));
    lemma_parse_name(b, i, q.name);
    lemma_u16_at(b, i + nl, q.qtype);
    lemma_u16_at(b, i + nl + 2, q.qclass);
    assert(parse_question(b, i) == Some(
        (QuestionModel { name: q.name, qtype: q.qtype, qclass: q.qclass }, i + nl + 4),
    ));
    assert(QuestionModel { name: q.name, qtype: q.qtype, qclass: q.qclass } =~= q);
}

/// Parsing an encoded record at its offset yields the record.
pub proof fn lemma_parse_record(b: Seq<u8>, i: int, r: RecordModel)
    requires
        valid_record(r),
        0 <= i,
        i + enc_record(r).len() <= b.len(),
        b.subrange(i, i + enc_record(r).len() as int) == enc_record(r),
    ensures
        parse_record(b, i) == Some((r, i + enc_record(r).len() as int)),
{
    let en = enc_name(r.name);
    let nl = en.len() as int;
    let rl = r.rdata.len() as int;
    let p1 = en + enc_u16(r.rtype);
    let p2 = p1 + enc_u16(r.rclass);
    let p3 = p2 + enc_u32(r.ttl);
    let p4 = p3 + enc_u16(r.rdata.len() as u16);
    lemma_split_window(b, i, p4, r.rdata);
    lemma_split_window(b, i, p3, enc_u16(r.rdata.len() as u16));
    lemma_split_window(b, i, p2, enc_u32(r.ttl));
    lemma_split_window(b, i, p1, enc_u16(r.rclass));
    lemma_split_window(b, i, en, enc_u16(r.rtype));
    lemma_parse_name(b, i, r.name);
    let j = i + nl;
    lemma_u16_at(b, j, r.rtype);
    lemma_u16_at(b, j + 2, r.rclass);
    lemma_u32_at(b, j + 4, r.ttl);
    lemma_u16_at(b, j + 8, r.rdata.len() as u16);
    assert(u16_of(b[j + 8], b[j + 9]) as int == rl);
    assert(b.subrange(j + 10, j + 10 + rl) == r.rdata);
    assert(parse_record(b, i) == Some(
        (
            RecordModel {
                name: r.name,
                rtype: r.rtype,
                rclass: r.rclass,
                ttl: r.ttl,
                rdata: r.rdata,
            },
            j + 10 + rl,
        ),
    ));
    assert(RecordModel {
        name: r.name,
        rtype: r.rtype,
        rclass: r.rclass,
        ttl: r.ttl,
        rdata: r.rdata,
    } =~= r);
}

/// Parsing an encoded question section at its offset yields the section.
pub proof fn lemma_parse_questions(b: Seq<u8>, i: int, qs: Seq<QuestionModel>)
    requires
        forall|k: int| 0 <= k < qs.len() ==> valid_question(#[trigger] qs[k]),
        0 <= i,
        i + enc_questions(qs).len() <= b.len(),
        b.subrange(i, i + enc_questions(qs).len() as int) == enc_questions(qs),
    ensures
        parse_questions(b, i, qs.len()) == Some((qs, i + enc_questions(qs).len() as int)),
    decreases qs.len(),
{
    if qs.len() == 0 {
        assert(qs =~= Seq::<QuestionModel>::empty());
    } else {
        let e0 = enc_question(qs[0]);
        let erest = enc_questions(qs.drop_first());
        assert(enc_questions(qs) == e0 + erest);
        lemma_split_window(b, i, e0, erest);
        lemma_parse_question(b, i, qs[0]);
        lemma_parse_questions(b, i + e0.len() as int, qs.drop_first());
        assert(parse_questions(b, i, qs.len()) == Some(
            (seq![qs[0]] + qs.drop_first(), i + enc_questions(qs).len() as int),
        ));
        assert(seq![qs[0]] + qs.drop_first() =~= qs);
    }
}

/// Parsing an encoded record section at its offset yields the section.
pub proof fn lemma_parse_records(b: Seq<u8>, i: int, rs: Seq<RecordModel>)
    requires
        valid_records(rs),
        0 <= i,
        i + enc_records(rs).len() <= b.len(),
        b.subrange(i, i + enc_records(rs).len() as int) == enc_records(rs),
    ensures
        parse_records(b, i, rs.len()) == Some((rs, i + enc_records(rs).len() as int)),
    decreases rs.len(),
{
    if rs.len() == 0 {
        assert(rs =~= Seq::<RecordModel>::empty());
    } else {
        let e0 = enc_record(rs[0]);
        let erest = enc_records(rs.drop_first());
        assert(enc_records(rs) == e0 + erest);
        lemma_split_window(b, i, e0, erest);
        lemma_parse_record(b, i, rs[0]);
        lemma_parse_records(b, i + e0.len() as int, rs.drop_first());
        assert(parse_records(b, i, rs.len()) == Some(
            (seq![rs[0]] + rs.drop_first(), i + enc_records(rs).len() as int),
        ));
        assert(seq![rs[0]] + rs.drop_first() =~= rs);
    }
}

/// Round trip: decoding the encoding of any message the wire format can
/// carry yields exactly that message.
#[verifier::rlimit(100)]
pub proof fn lemma_round_trip(m: ResponseModel)
    requires
        valid_response(m),
    ensures
        parse_response(enc_response(m)) == Some(m),
{
    let b = enc_response(m);
    let h = enc_header(m);
    let eq = enc_questions(m.questions);
    let ea = enc_records(m.answers);
    let eu = enc_records(m.authorities);
    let ed = enc_records(m.additionals);
    assert(b == h + eq + ea + eu + ed);
    assert(b.subrange(0, b.len() as int) =~= b);
    lemma_split_window(b, 0, h + eq + ea + eu, ed);
    lemma_split_window(b, 0, h + eq + ea, eu);
    lemma_split_window(b, 0, h + eq, ea);
    lemma_split_window(b, 0, h, eq);
    let h1 = enc_u16(m.id);
    let h2 = enc_u16(m.flags);
    let h3 = enc_u16(m.questions.len() as u16);
    let h4 = enc_u16(m.answers.len() as u16);
    let h5 = enc_u16(m.authorities.len() as u16);
    let h6 = enc_u16(m.additionals.len() as u16);
    assert(h == h1 + h2 + h3 + h4 + h5 + h6);
    lemma_split_window(b, 0, h1 + h2 + h3 + h4 + h5, h6);
    lemma_split_window(b, 0, h1 + h2 + h3 + h4, h5);
    lemma_split_window(b, 0, h1 + h2 + h3, h4);
    lemma_split_window(b, 0, h1 + h2, h3);
    lemma_split_window(b, 0, h1, h2);
    lemma_u16_at(b, 0, m.id);
    lemma_u16_at(b, 2, m.flags);
    lemma_u16_at(b, 4, m.questions.len() as u16);
    lemma_u16_at(b, 6, m.answers.len() as u16);
    lemma_u16_at(b, 8, m.authorities.len() as u16);
    lemma_u16_at(b, 10, m.additionals.len() as u16);
    assert(u16_of(b[4], b[5]) as nat == m.questions.len());
    assert(u16_of(b[6], b[7]) as nat == m.answers.len());
    assert(u16_of(b[8], b[9]) as nat == m.authorities.len());
    assert(u16_of(b[10], b[11]) as nat == m.additionals.len());
    let i1 = 12 + eq.len() as int;
    let i2 = i1 + ea.len() as int;
    let i3 = i2 + eu.len() as int;
    lemma_parse_questions(b, 12, m.questions);
    lemma_parse_records(b, i1, m.answers);
    lemma_parse_records(b, i2, m.authorities);
    lemma_parse_records(b, i3, m.additionals);
    assert(i3 + ed.len() as int == b.len() as int);
    assert(parse_response(b) == Some(
        ResponseModel {
            id: m.id,
            flags: m.flags,
            questions: m.questions,
            answers: m.answers,
            authorities: m.authorities,
            additionals: m.additionals,
        },
    ));
    assert(ResponseModel {
        id: m.id,
        flags: m.flags,
        questions: m.questions,
        answers: m.answers,
        authorities: m.authorities,
        additionals: m.additionals,
    } =~= m);
}

// ---------------------------------------------------------------------------
// Decoder soundness: whatever parses is valid and its bytes are exactly its
// encoding. Together with the round trip, the decoder accepts precisely the
// wire encodings of valid messages.
// ---------------------------------------------------------------------------

/// A parsed name is valid and its bytes are its encoding.
pub proof fn lemma_parse_name_sound(b: Seq<u8>, i: int)
    requires
        parse_name(b, i) is Some,
    ensures
        valid_name(parse_name(b, i)->Some_0.0),
        i < parse_name(b, i)->Some_0.1 <= b.len(),
        b.subrange(i, parse_name(b, i)->Some_0.1) == enc_name(parse_name(b, i)->Some_0.0),
    decreases b.len() - i,
{
    lemma_parse_name_advances(b, i);
    let n = parse_name(b, i)->Some_0.0;
    let j = parse_name(b, i)->Some_0.1;
    let len = b[i] as int;
    if len == 0 {
        assert(n =~= Seq::<Seq<u8>>::empty());
        assert(enc_labels(n).len() == 0);
        assert(b.subrange(i, j) =~= enc_name(n));
    } else {
        let label = b.subrange(i + 1, i + 1 + len);
        lemma_parse_name_sound(b, i + 1 + len);
        let rest = parse_name(b, i + 1 + len)->Some_0.0;
        assert(n == seq![label] + rest);
        assert(n[0] == label);
        assert(n.drop_first() =~= rest);
        assert(valid_label(label));
        assert forall|k: int| 0 <= k < n.len() implies valid_label(#[trigger] n[k]) by {
            if k > 0 {
                assert(n[k] == rest[k - 1]);
            }
        }
        lemma_enc_name_unfold(n);
        assert(b.subrange(i, j) =~= b.subrange(i, i + 1) + b.subrange(i + 1, i + 1 + len)
            + b.subrange(i + 1 + len, j));
        assert(b.subrange(i, i + 1) =~= seq![b[i]]);
        assert(label.len() as u8 == b[i]);
        assert(b.subrange(i, j) == enc_name(n));
    }
}

/// A parsed question is valid and its bytes are its encoding.
pub proof fn lemma_parse_question_sound(b: Seq<u8>, i: int)
    requires
        parse_question(b, i) is Some,
    ensures
        valid_question(parse_question(b, i)->Some_0.0),
        i < parse_question(b, i)->Some_0.1 <= b.len(),
        b.subrange(i, parse_question(b, i)->Some_0.1) == enc_question(
            parse_question(b, i)->Some_0.0,
        ),
{
    lemma_parse_name_sound(b, i);
    let q = parse_question(b, i)->Some_0.0;
    let j = parse_name(b, i)->Some_0.1;
    let jq = parse_question(b, i)->Some_0.1;
    crate::wire::lemma_u16_bytes(b[j], b[j + 1]);
    crate::wire::lemma_u16_bytes(b[j + 2], b[j + 3]);
    assert(b.subrange(i, jq) =~= b.subrange(i, j) + b.subrange(j, j + 2) + b.subrange(
        j + 2,
        j + 4,
    ));
    assert(b.subrange(j, j + 2) =~= seq![b[j], b[j + 1]]);
    assert(b.subrange(j + 2, j + 4) =~= seq![b[j + 2], b[j + 3]]);
    assert(b.subrange(i, jq) == enc_question(q));
}

/// A parsed record is valid and its bytes are its encoding.
pub proof fn lemma_parse_record_sound(b: Seq<u8>, i: int)
    requires
        parse_record(b, i) is Some,
    ensures
        valid_record(parse_record(b, i)->Some_0.0),
        i < parse_record(b, i)->Some_0.1 <= b.len(),
        b.subrange(i, parse_record(b, i)->Some_0.1) == enc_record(parse_record(b, i)->Some_0.0),
{
    lemma_parse_name_sound(b, i);
    let r = parse_record(b, i)->Some_0.0;
    let j = parse_name(b, i)->Some_0.1;
    let jr = parse_record(b, i)->Some_0.1;
    let rdlen = u16_of(b[j + 8], b[j + 9]) as int;
    crate::wire::lemma_u16_bytes(b[j], b[j + 1]);
    crate::wire::lemma_u16_bytes(b[j + 2], b[j + 3]);
    crate::wire::lemma_u32_bytes(b[j + 4], b[j + 5], b[j + 6], b[j + 7]);
    crate::wire::lemma_u16_bytes(b[j + 8], b[j + 9]);
    assert(r.rdata.len() == rdlen);
    assert(r.rdata.len() as u16 == u16_of(b[j + 8], b[j + 9]));
    assert(b.subrange(i, jr) =~= b.subrange(i, j) + b.subrange(j, j + 2) + b.subrange(
        j + 2,
        j + 4,
    ) + b.subrange(j + 4, j + 8) + b.subrange(j + 8, j + 10) + b.subrange(j + 10, j + 10
        + rdlen));
    assert(b.subrange(j, j + 2) =~= seq![b[j], b[j + 1]]);
    assert(b.subrange(j + 2, j + 4) =~= seq![b[j + 2], b[j + 3]]);
    assert(b.subrange(j + 4, j + 8) =~= seq![b[j + 4], b[j + 5], b[j + 6], b[j + 7]]);
    assert(b.subrange(j + 8, j + 10) =~= seq![b[j + 8], b[j + 9]]);
    assert(b.subrange(i, jr) == enc_record(r));
}

/// A parsed question section is valid and its bytes are its encoding.
pub proof fn lemma_parse_questions_sound(b: Seq<u8>, i: int, count: nat)
    requires
        parse_questions(b, i, count) is Some,
        0 <= i <= b.len(),
    ensures
        parse_questions(b, i, count)->Some_0.0.len() == count,
        forall|k: int| 0 <= k < count ==> valid_question(
            #[trigger] parse_questions(b, i, count)->Some_0.0[k],
        ),
        i <= parse_questions(b, i, count)->Some_0.1 <= b.len(),
        b.subrange(i, parse_questions(b, i, count)->Some_0.1) == enc_questions(
            parse_questions(b, i, count)->Some_0.0,
        ),
    decreases count,
{
    let qs = parse_questions(b, i, count)->Some_0.0;
    let j = parse_questions(b, i, count)->Some_0.1;
    if count == 0 {
        assert(qs =~= Seq::<QuestionModel>::empty());
        assert(b.subrange(i, i) =~= Seq::<u8>::empty());
    } else {
        lemma_parse_question_sound(b, i);
        let q0 = parse_question(b, i)->Some_0.0;
        let j1 = parse_question(b, i)->Some_0.1;
        lemma_parse_questions_sound(b, j1, (count - 1) as nat);
        let rest = parse_questions(b, j1, (count - 1) as nat)->Some_0.0;
        assert(qs == seq![q0] + rest);
        assert(qs[0] == q0);
        assert(qs.drop_first() =~= rest);
        assert forall|k: int| 0 <= k < count implies valid_question(#[trigger] qs[k]) by {
            if k > 0 {
                assert(qs[k] == rest[k - 1]);
            }
        }
        assert(b.subrange(i, j) =~= b.subrange(i, j1) + b.subrange(j1, j));
        assert(enc_questions(qs) == enc_question(qs[0]) + enc_questions(qs.drop_first()));
        assert(b.subrange(i, j) == enc_questions(qs));
    }
}

/// A parsed record section is valid and its bytes are its encoding.
pub proof fn lemma_parse_records_sound(b: Seq<u8>, i: int, count: nat)
    requires
        parse_records(b, i, count) is Some,
        0 <= i <= b.len(),
    ensures
        parse_records(b, i, count)->Some_0.0.len() == count,
        valid_records(parse_records(b, i, count)->Some_0.0),
        i <= parse_records(b, i, count)->Some_0.1 <= b.len(),
        b.subrange(i, parse_records(b, i, count)->Some_0.1) == enc_records(
            parse_records(b, i, count)->Some_0.0,
        ),
    decreases count,
{
    let rs = parse_records(b, i, count)->Some_0.0;
    let j = parse_records(b, i, count)->Some_0.1;
    if count == 0 {
        assert(rs =~= Seq::<RecordModel>::empty());
        assert(b.subrange(i, i) =~= Seq::<u8>::empty());
    } else {
        lemma_parse_record_sound(b, i);
        let r0 = parse_record(b, i)->Some_0.0;
        let j1 = parse_record(b, i)->Some_0.1;
        lemma_parse_records_sound(b, j1, (count - 1) as nat);
        let rest = parse_records(b, j1, (count - 1) as nat)->Some_0.0;
        assert(rs == seq![r0] + rest);
        assert(rs[0] == r0);
        assert(rs.drop_first() =~= rest);
        assert forall|k: int| 0 <= k < count implies valid_record(#[trigger] rs[k]) by {
            if k > 0 {
                assert(rs[k] == rest[k - 1]);
            }
        }
        assert(b.subrange(i, j) =~= b.subrange(i, j1) + b.subrange(j1, j));
        assert(enc_records(rs) == enc_record(rs[0]) + enc_records(rs.drop_first()));
        assert(b.subrange(i, j) == enc_records(rs));
    }
}

/// Decoder soundness: a buffer that decodes is exactly the encoding of the
/// decoded message, which is valid. With the round trip this pins the
/// decoder down completely: it accepts precisely the encodings of valid
/// messages, and no two valid messages share an encoding.
#[verifier::rlimit(100)]
pub proof fn lemma_parse_response_sound(b: Seq<u8>)
    requires
        parse_response(b) is Some,
    ensures
        valid_response(parse_response(b)->Some_0),
        b == enc_response(parse_response(b)->Some_0),
{
    let m = parse_response(b)->Some_0;
    let qd = u16_of(b[4], b[5]) as nat;
    let an = u16_of(b[6], b[7]) as nat;
    let ns = u16_of(b[8], b[9]) as nat;
    let ar = u16_of(b[10], b[11]) as nat;
    lemma_parse_questions_sound(b, 12, qd);
    let i1 = parse_questions(b, 12, qd)->Some_0.1;
    lemma_parse_records_sound(b, i1, an);
    let i2 = parse_records(b, i1, an)->Some_0.1;
    lemma_parse_records_sound(b, i2, ns);
    let i3 = parse_records(b, i2, ns)->Some_0.1;
    lemma_parse_records_sound(b, i3, ar);
    let i4 = parse_records(b, i3, ar)->Some_0.1;
    assert(i4 == b.len());
    crate::wire::lemma_u16_bytes(b[0], b[1]);
    crate::wire::lemma_u16_bytes(b[2], b[3]);
    crate::wire::lemma_u16_bytes(b[4], b[5]);
    crate::wire::lemma_u16_bytes(b[6], b[7]);
    crate::wire::lemma_u16_bytes(b[8], b[9]);
    crate::wire::lemma_u16_bytes(b[10], b[11]);
    assert(m.questions.len() as u16 == u16_of(b[4], b[5]));
    assert(m.answers.len() as u16 == u16_of(b[6], b[7]));
    assert(m.authorities.len() as u16 == u16_of(b[8], b[9]));
    assert(m.additionals.len() as u16 == u16_of(b[10], b[11]));
    assert(enc_header(m) =~= b.subrange(0, 12)) by {
        assert(b.subrange(0, 12) =~= b.subrange(0, 2) + b.subrange(2, 4) + b.subrange(4, 6)
            + b.subrange(6, 8) + b.subrange(8, 10) + b.subrange(10, 12));
        assert(b.subrange(0, 2) =~= seq![b[0], b[1]]);
        assert(b.subrange(2, 4) =~= seq![b[2], b[3]]);
        assert(b.subrange(4, 6) =~= seq![b[4], b[5]]);
        assert(b.subrange(6, 8) =~= seq![b[6], b[7]]);
        assert(b.subrange(8, 10) =~= seq![b[8], b[9]]);
        assert(b.subrange(10, 12) =~= seq![b[10], b[11]]);
    }
    assert(b =~= b.subrange(0, 12) + b.subrange(12, i1) + b.subrange(i1, i2) + b.subrange(
        i2,
        i3,
    ) + b.subrange(i3, i4));
    assert(b == enc_response(m));
}

// ---------------------------------------------------------------------------
// Truncation rejection: a successful parse never depends on bytes past the
// buffer, so cutting an encoded message anywhere makes it unparseable.
// ---------------------------------------------------------------------------

/// A successful name parse is unchanged by appending bytes.
pub proof fn lemma_parse_name_ext(b: Seq<u8>, ext: Seq<u8>, i: int)
    requires
        parse_name(b, i) is Some,
    ensures
        parse_name(b + ext, i) == parse_name(b, i),
    decreases b.len() - i,
{
    let full = b + ext;
    assert(full[i] == b[i]);
    let len = b[i] as int;
    if len == 0 {
    } else {
        lemma_parse_name_ext(b, ext, i + 1 + len);
        assert(full.subrange(i + 1, i + 1 + len) =~= b.subrange(i + 1, i + 1 + len));
    }
}

/// A successful question parse is unchanged by appending bytes.
pub proof fn lemma_parse_question_ext(b: Seq<u8>, ext: Seq<u8>, i: int)
    requires
        parse_question(b, i) is Some,
    ensures
        parse_question(b + ext, i) == parse_question(b, i),
{
    let full = b + ext;
    lemma_parse_name_ext(b, ext, i);
    let j = parse_name(b, i)->Some_0.1;
    lemma_parse_name_advances(b, i);
    assert(full[j] == b[j]);
    assert(full[j + 1] == b[j + 1]);
    assert(full[j + 2] == b[j + 2]);
    assert(full[j + 3] == b[j + 3]);
}

/// A successful record parse is unchanged by appending bytes.
pub proof fn lemma_parse_record_ext(b: Seq<u8>, ext: Seq<u8>, i: int)
    requires
        parse_record(b, i) is Some,
    ensures
        parse_record(b + ext, i) == parse_record(b, i),
{
    let full = b + ext;
    lemma_parse_name_ext(b, ext, i);
    let j = parse_name(b, i)->Some_0.1;
    lemma_parse_name_advances(b, i);
    assert forall|x: int| j <= x < j + 10 implies full[x] == b[x] by {}
    let rdlen = u16_of(b[j + 8], b[j + 9]) as int;
    assert(full.subrange(j + 10, j + 10 + rdlen) =~= b.subrange(j + 10, j + 10 + rdlen));
}

/// A successful question-section parse is unchanged by appending bytes.
pub proof fn lemma_parse_questions_ext(b: Seq<u8>, ext: Seq<u8>, i: int, count: nat)
    requires
        parse_questions(b, i, count) is Some,
    ensures
        parse_questions(b + ext, i, count) == parse_questions(b, i, count),
    decreases count,
{
    if count != 0 {
        lemma_parse_question_ext(b, ext, i);
        let j = parse_question(b, i)->Some_0.1;
        lemma_parse_questions_ext(b, ext, j, (count - 1) as nat);
    }
}

/// A successful record-section parse is unchanged by appending bytes.
pub proof fn lemma_parse_records_ext(b: Seq<u8>, ext: Seq<u8>, i: int, count: nat)
    requires
        parse_records(b, i, count) is Some,
    ensures
        parse_records(b + ext, i, count) == parse_records(b, i, count),
    decreases count,
{
    if count != 0 {
        lemma_parse_record_ext(b, ext, i);
        let j = parse_record(b, i)->Some_0.1;
        lemma_parse_records_ext(b, ext, j, (count - 1) as nat);
    }
}

/// Truncation rejection: a buffer cut anywhere short of a message's full
/// encoding never decodes — the decoder fails rather than invent a partial
/// message.
pub proof fn lemma_truncation_rejected(m: ResponseModel, k: int)
    requires
        valid_response(m),
        0 <= k < enc_response(m).len(),
    ensures
        parse_response(enc_response(m).take(k)) is None,
{
    let full = enc_response(m);
    let prefix = full.take(k);
    let ext = full.skip(k);
    assert(prefix + ext =~= full);
    lemma_round_trip(m);
    if parse_response(prefix) is Some {
        assert(prefix.len() >= 12);
        assert forall|x: int| 0 <= x < 12 implies prefix[x] == full[x] by {}
        let qd = u16_of(prefix[4], prefix[5]) as nat;
        let an = u16_of(prefix[6], prefix[7]) as nat;
        let ns = u16_of(prefix[8], prefix[9]) as nat;
        let ar = u16_of(prefix[10], prefix[11]) as nat;
        let pq = parse_questions(prefix, 12, qd);
        assert(pq is Some);
        lemma_parse_questions_ext(prefix, ext, 12, qd);
        let i1 = pq->Some_0.1;
        let pa = parse_records(prefix, i1, an);
        assert(pa is Some);
        lemma_parse_records_ext(prefix, ext, i1, an);
        let i2 = pa->Some_0.1;
        let pu = parse_records(prefix, i2, ns);
        assert(pu is Some);
        lemma_parse_records_ext(prefix, ext, i2, ns);
        let i3 = pu->Some_0.1;
        let pd = parse_records(prefix, i3, ar);
        assert(pd is Some);
        lemma_parse_records_ext(prefix, ext, i3, ar);
        let i4 = pd->Some_0.1;
        // The prefix parse consumed the whole prefix; replayed on the full
        // buffer, the same chain must also end the full parse, so the two
        // end positions coincide — yet one is k and the other is full.len().
        assert(i4 == prefix.len());
        assert(parse_questions(full, 12, qd) == pq);
        assert(parse_records(full, i1, an) == pa);
        assert(parse_records(full, i2, ns) == pu);
        assert(parse_records(full, i3, ar) == pd);
        assert(parse_response(full) is Some);
        assert(i4 == full.len());
        assert(false);
    }
}

// ---------------------------------------------------------------------------
// Bounds facts about the parsers.
// ---------------------------------------------------------------------------

/// A successful name parse always advances, and never past the buffer.
pub proof fn lemma_parse_name_advances(b: Seq<u8>, i: int)
    requires
        parse_name(b, i) is Some,
    ensures
        i < parse_name(b, i)->Some_0.1 <= b.len(),
    decreases b.len() - i,
{
    let len = b[i] as int;
    if len != 0 {
        lemma_parse_name_advances(b, i + 1 + len);
    }
}

// ---------------------------------------------------------------------------
// The executable decoder, proved to return exactly what the mathematical
// decoder says, and `ProtocolParseError` exactly where it says `None`.
// ---------------------------------------------------------------------------

/// The loop view of name parsing: what is already collected plus what the
/// remaining bytes parse to.
pub open spec fn name_parse_step(b: Seq<u8>, i0: int, acc: Seq<Seq<u8>>, cur: int) -> bool {
    parse_name(b, i0) == match parse_name(b, cur) {
        Some((rest, j)) => Some((acc + rest, j)),
        None => None::<(Seq<Seq<u8>>, int)>,
    }
}

/// Decodes a name at offset `start`.
pub fn decode_name(b: &[u8], start: usize) -> (r: Result<(Vec<Vec<u8>>, usize), Error>)
    ensures
        match parse_name(b@, start as int) {
            Some((n, j)) => r matches Ok(p) && p.0.deep_view() == n && p.1 == j,
            None => r == Err::<(Vec<Vec<u8>>, usize), Error>(Error::ProtocolParseError),
        },
{
    let mut acc: Vec<Vec<u8>> = Vec::new();
    let mut cur: usize = start;
    proof {
        assert(acc.deep_view() =~= Seq::<Seq<u8>>::empty());
    }
    loop
        invariant
            name_parse_step(b@, start as int, acc.deep_view(), cur as int),
        decreases b@.len() - cur,
    {
        if cur >= b.len() {
            return Err(Error::ProtocolParseError);
        }
        let len = b[cur] as usize;
        if len == 0 {
            proof {
                assert(parse_name(b@, cur as int) == Some(
                    (Seq::<Seq<u8>>::empty(), cur as int + 1),
                ));
                assert(acc.deep_view() + Seq::<Seq<u8>>::empty() =~= acc.deep_view());
            }
            return Ok((acc, cur + 1));
        }
        if len > 63 || len > b.len() - cur - 1 {
            proof {
                assert(parse_name(b@, cur as int) is None);
            }
            return Err(Error::ProtocolParseError);
        }
        let ghost lab = b@.subrange(cur as int + 1, cur as int + 1 + len as int);
        let mut label: Vec<u8> = Vec::new();
        let mut k: usize = 0;
        proof {
            assert(label@ =~= b@.subrange(cur as int + 1, cur as int + 1));
        }
        while k < len
            invariant
                b@.len() <= usize::MAX,
                cur as int + 1 + len as int <= b@.len(),
                k <= len,
                label@ == b@.subrange(cur as int + 1, cur as int + 1 + k as int),
            decreases len - k,
        {
            label.push(b[cur + 1 + k]);
            proof {
                assert(label@ =~= b@.subrange(cur as int + 1, cur as int + 1 + k as int + 1));
            }
            k += 1;
        }
        let ghost old_acc = acc.deep_view();
        acc.push(label);
        proof {
            assert(label.deep_view() =~= label@);
            assert(acc.deep_view() =~= old_acc.push(lab));
            let p = parse_name(b@, cur as int + 1 + len as int);
            if p is Some {
                let rest = p->Some_0.0;
                assert(parse_name(b@, cur as int) == Some(
                    (seq![lab] + rest, p->Some_0.1),
                ));
                assert(old_acc + (seq![lab] + rest) =~= old_acc.push(lab) + rest);
            } else {
                assert(parse_name(b@, cur as int) is None);
            }
        }
        cur = cur + 1 + len;
    }
}

/// Decodes a question at offset `start`.
pub fn decode_question(b: &[u8], start: usize) -> (r: Result<(Question, usize), Error>)
    ensures
        match parse_question(b@, start as int) {
            Some((q, j)) => r matches Ok(p) && p.0.deep_view() == q && p.1 == j,
            None => r == Err::<(Question, usize), Error>(Error::ProtocolParseError),
        },
{
    let (name, j) = match decode_name(b, start) {
        Ok(p) => p,
        Err(e) => {
            return Err(e);
        },
    };
    proof {
        lemma_parse_name_advances(b@, start as int);
    }
    if b.len() - j < 4 {
        return Err(Error::ProtocolParseError);
    }
    let qtype = read_u16(b, j);
    let qclass = read_u16(b, j + 2);
    let q = Question { name, qtype, qclass };
    proof {
        assert(q.deep_view() =~= parse_question(b@, start as int)->Some_0.0);
    }
    Ok((q, j + 4))
}

/// Decodes a record at offset `start`.
pub fn decode_record(b: &[u8], start: usize) -> (r: Result<(Record, usize), Error>)
    ensures
        match parse_record(b@, start as int) {
            Some((rec, j)) => r matches Ok(p) && p.0.deep_view() == rec && p.1 == j,
            None => r == Err::<(Record, usize), Error>(Error::ProtocolParseError),
        },
{
    let (name, j) = match decode_name(b, start) {
        Ok(p) => p,
        Err(e) => {
            return Err(e);
        },
    };
    proof {
        lemma_parse_name_advances(b@, start as int);
    }
    if b.len() - j < 10 {
        return Err(Error::ProtocolParseError);
    }
    let rtype = read_u16(b, j);
    let rclass = read_u16(b, j + 2);
    let ttl = read_u32(b, j + 4);
    let rdlen = read_u16(b, j + 8) as usize;
    if rdlen > b.len() - (j + 10) {
        return Err(Error::ProtocolParseError);
    }
    let mut rdata: Vec<u8> = Vec::new();
    let mut k: usize = 0;
    proof {
        assert(rdata@ =~= b@.subrange(j as int + 10, j as int + 10));
    }
    while k < rdlen
        invariant
            b@.len() <= usize::MAX,
            j as int + 10 + rdlen as int <= b@.len(),
            k <= rdlen,
            rdata@ == b@.subrange(j as int + 10, j as int + 10 + k as int),
        decreases rdlen - k,
    {
        rdata.push(b[j + 10 + k]);
        proof {
            assert(rdata@ =~= b@.subrange(j as int + 10, j as int + 10 + k as int + 1));
        }
        k += 1;
    }
    let rec = Record { name, rtype, rclass, ttl, rdata };
    proof {
        assert(rec.deep_view().rdata =~= rec.rdata@);
        assert(rec.deep_view() =~= parse_record(b@, start as int)->Some_0.0);
    }
    Ok((rec, j + 10 + rdlen))
}

/// The loop view of section parsing: what is already collected plus what
/// the remaining entries parse to.
pub open spec fn questions_parse_step(
    b: Seq<u8>,
    i0: int,
    count: nat,
    acc: Seq<QuestionModel>,
    cur: int,
    remaining: nat,
) -> bool {
    parse_questions(b, i0, count) == match parse_questions(b, cur, remaining) {
        Some((rest, j)) => Some((acc + rest, j)),
        None => None::<(Seq<QuestionModel>, int)>,
    }
}

/// Decodes `count` questions starting at offset `start`.
pub fn decode_questions(b: &[u8], start: usize, count: usize) -> (r: Result<
    (Vec<Question>, usize),
    Error,
>)
    ensures
        match parse_questions(b@, start as int, count as nat) {
            Some((qs, j)) => r matches Ok(p) && p.0.deep_view() == qs && p.1 == j,
            None => r == Err::<(Vec<Question>, usize), Error>(Error::ProtocolParseError),
        },
{
    let mut acc: Vec<Question> = Vec::new();
    let mut cur: usize = start;
    let mut remaining: usize = count;
    proof {
        assert(acc.deep_view() =~= Seq::<QuestionModel>::empty());
    }
    while remaining > 0
        invariant
            questions_parse_step(
                b@,
                start as int,
                count as nat,
                acc.deep_view(),
                cur as int,
                remaining as nat,
            ),
        decreases remaining,
    {
        let (q, j) = match decode_question(b, cur) {
            Ok(p) => p,
            Err(e) => {
                proof {
                    assert(parse_questions(b@, cur as int, remaining as nat) is None);
                }
                return Err(e);
            },
        };
        let ghost old_acc = acc.deep_view();
        acc.push(q);
        proof {
            assert(acc.deep_view() =~= old_acc.push(q.deep_view()));
            let p = parse_questions(b@, j as int, (remaining - 1) as nat);
            if p is Some {
                let rest = p->Some_0.0;
                assert(parse_questions(b@, cur as int, remaining as nat) == Some(
                    (seq![q.deep_view()] + rest, p->Some_0.1),
                ));
                assert(old_acc + (seq![q.deep_view()] + rest) =~= old_acc.push(q.deep_view())
                    + rest);
            } else {
                assert(parse_questions(b@, cur as int, remaining as nat) is None);
            }
        }
        cur = j;
        remaining -= 1;
    }
    proof {
        assert(parse_questions(b@, cur as int, 0) == Some(
            (Seq::<QuestionModel>::empty(), cur as int),
        ));
        assert(acc.deep_view() + Seq::<QuestionModel>::empty() =~= acc.deep_view());
    }
    Ok((acc, cur))
}

/// The loop view of record-section parsing.
pub open spec fn records_parse_step(
    b: Seq<u8>,
    i0: int,
    count: nat,
    acc: Seq<RecordModel>,
    cur: int,
    remaining: nat,
) -> bool {
    parse_records(b, i0, count) == match parse_records(b, cur, remaining) {
        Some((rest, j)) => Some((acc + rest, j)),
        None => None::<(Seq<RecordModel>, int)>,
    }
}

/// Decodes `count` records starting at offset `start`.
pub fn decode_records(b: &[u8], start: usize, count: usize) -> (r: Result<
    (Vec<Record>, usize),
    Error,
>)
    ensures
        match parse_records(b@, start as int, count as nat) {
            Some((rs, j)) => r matches Ok(p) && p.0.deep_view() == rs && p.1 == j,
            None => r == Err::<(Vec<Record>, usize), Error>(Error::ProtocolParseError),
        },
{
    let mut acc: Vec<Record> = Vec::new();
    let mut cur: usize = start;
    let mut remaining: usize = count;
    proof {
        assert(acc.deep_view() =~= Seq::<RecordModel>::empty());
    }
    while remaining > 0
        invariant
            records_parse_step(
                b@,
                start as int,
                count as nat,
                acc.deep_view(),
                cur as int,
                remaining as nat,
            ),
        decreases remaining,
    {
        let (rec, j) = match decode_record(b, cur) {
            Ok(p) => p,
            Err(e) => {
                proof {
                    assert(parse_records(b@, cur as int, remaining as nat) is None);
                }
                return Err(e);
            },
        };
        let ghost old_acc = acc.deep_view();
        acc.push(rec);
        proof {
            assert(acc.deep_view() =~= old_acc.push(rec.deep_view()));
            let p = parse_records(b@, j as int, (remaining - 1) as nat);
            if p is Some {
                let rest = p->Some_0.0;
                assert(parse_records(b@, cur as int, remaining as nat) == Some(
                    (seq![rec.deep_view()] + rest, p->Some_0.1),
                ));
                assert(old_acc + (seq![rec.deep_view()] + rest) =~= old_acc.push(
                    rec.deep_view(),
                ) + rest);
            } else {
                assert(parse_records(b@, cur as int, remaining as nat) is None);
            }
        }
        cur = j;
        remaining -= 1;
    }
    proof {
        assert(parse_records(b@, cur as int, 0) == Some(
            (Seq::<RecordModel>::empty(), cur as int),
        ));
        assert(acc.deep_view() + Seq::<RecordModel>::empty() =~= acc.deep_view());
    }
    Ok((acc, cur))
}

impl Response {
    /// Decodes a whole DNS message. Returns `ProtocolParseError` exactly
    /// when the bytes are not a well-formed message: a truncated buffer, a
    /// count field pointing past the end, a malformed name, a record whose
    /// declared RDATA length over-runs the buffer, or trailing bytes.
    pub fn from_bytes(b: &[u8]) -> (r: Result<Response, Error>)
        ensures
            match parse_response(b@) {
                Some(m) => r matches Ok(resp) && resp.deep_view() == m,
                None => r == Err::<Response, Error>(Error::ProtocolParseError),
            },
    {
        if b.len() < 12 {
            return Err(Error::ProtocolParseError);
        }
        let id = read_u16(b, 0);
        let flags = read_u16(b, 2);
        let qd = read_u16(b, 4) as usize;
        let an = read_u16(b, 6) as usize;
        let ns = read_u16(b, 8) as usize;
        let ar = read_u16(b, 10) as usize;
        let (questions, i1) = match decode_questions(b, 12, qd) {
            Ok(p) => p,
            Err(e) => {
                return Err(e);
            },
        };
        let (answers, i2) = match decode_records(b, i1, an) {
            Ok(p) => p,
            Err(e) => {
                return Err(e);
            },
        };
        let (authorities, i3) = match decode_records(b, i2, ns) {
            Ok(p) => p,
            Err(e) => {
                return Err(e);
            },
        };
        let (additionals, i4) = match decode_records(b, i3, ar) {
            Ok(p) => p,
            Err(e) => {
                return Err(e);
            },
        };
        if i4 != b.len() {
            return Err(Error::ProtocolParseError);
        }
        let resp = Response { id, flags, questions, answers, authorities, additionals };
        proof {
            assert(resp.deep_view() =~= parse_response(b@)->Some_0);
        }
        Ok(resp)
    }
}

impl Response {
    /// The truncation flag (TC bit) of the flags field: set when a UDP
    /// reply was cut short and a stream transport would carry more. The
    /// backend reports it as-is; retrying over TCP is the caller's policy.
    pub fn is_truncated(&self) -> (r: bool)
        ensures
            r == (self.flags & 0x0200 != 0),
    {
        self.flags & 0x0200 != 0
    }

    /// The response code: the low four bits of the flags field.
    pub fn rcode(&self) -> (r: u16)
        ensures
            r == self.flags & 0x000f,
    {
        self.flags & 0x000f
    }
}

// ---------------------------------------------------------------------------
// Executable validity checks.
// ---------------------------------------------------------------------------

/// Decides whether every label of the name fits the wire format.
pub fn is_valid_name(name: &Vec<Vec<u8>>) -> (r: bool)
    ensures
        r == valid_name(name.deep_view()),
{
    let ghost n = name.deep_view();
    let mut i: usize = 0;
    while i < name.len()
        invariant
            0 <= i <= name.len(),
            n == name.deep_view(),
            forall|k: int| 0 <= k < i ==> valid_label(#[trigger] n[k]),
        decreases name.len() - i,
    {
        let len = name[i].len();
        if len < 1 || len > 63 {
            proof {
                assert(n[i as int] == name@[i as int].deep_view());
                assert(n[i as int].len() == name@[i as int]@.len());
            }
            return false;
        }
        proof {
            assert(n[i as int] == name@[i as int].deep_view());
            assert(n[i as int].len() == name@[i as int]@.len());
        }
        i += 1;
    }
    true
}

/// Decides whether a record fits the wire format.
pub fn is_valid_record(rec: &Record) -> (r: bool)
    ensures
        r == valid_record(rec.deep_view()),
{
    if rec.rdata.len() > 0xffff {
        return false;
    }
    is_valid_name(&rec.name)
}

// ---------------------------------------------------------------------------
// Executable encoders, each proved to append exactly the encoding.
// ---------------------------------------------------------------------------

/// Appends the wire bytes of a name.
pub fn encode_name(out: &mut Vec<u8>, name: &Vec<Vec<u8>>)
    requires
        valid_name(name.deep_view()),
    ensures
        final(out)@ == old(out)@ + enc_name(name.deep_view()),
{
    let ghost n = name.deep_view();
    let ghost base = out@;
    let mut i: usize = 0;
    while i < name.len()
        invariant
            0 <= i <= name.len(),
            n == name.deep_view(),
            valid_name(n),
            out@ == base + enc_labels(n.take(i as int)),
        decreases name.len() - i,
    {
        proof {
            assert(n[i as int] == name@[i as int].deep_view());
            assert(n[i as int] =~= name@[i as int]@);
        }
        let label = &name[i];
        out.push(label.len() as u8);
        out.extend_from_slice(label.as_slice());
        proof {
            lemma_enc_labels_snoc(n, i as int);
            assert(out@ =~= base + enc_labels(n.take(i as int + 1)));
        }
        i += 1;
    }
    out.push(0u8);
    proof {
        assert(n.take(name.len() as int) =~= n);
        assert(out@ =~= base + enc_name(n));
    }
}

/// Appends the wire bytes of a question.
pub fn encode_question(out: &mut Vec<u8>, q: &Question)
    requires
        valid_question(q.deep_view()),
    ensures
        final(out)@ == old(out)@ + enc_question(q.deep_view()),
{
    let ghost base = out@;
    encode_name(out, &q.name);
    push_u16(out, q.qtype);
    push_u16(out, q.qclass);
    proof {
        assert(out@ =~= base + enc_question(q.deep_view()));
    }
}

/// Appends the wire bytes of a record.
pub fn encode_record(out: &mut Vec<u8>, rec: &Record)
    requires
        valid_record(rec.deep_view()),
    ensures
        final(out)@ == old(out)@ + enc_record(rec.deep_view()),
{
    let ghost base = out@;
    encode_name(out, &rec.name);
    push_u16(out, rec.rtype);
    push_u16(out, rec.rclass);
    push_u32(out, rec.ttl);
    push_u16(out, rec.rdata.len() as u16);
    out.extend_from_slice(rec.rdata.as_slice());
    proof {
        assert(rec.deep_view().rdata =~= rec.rdata@);
        assert(out@ =~= base + enc_record(rec.deep_view()));
    }
}

impl Response {
    /// Serialises this message into its wire bytes. Fails with
    /// `EncodingError` exactly when some field cannot be carried by the wire
    /// format (an over-long label, RDATA, or section).
    pub fn to_bytes(&self) -> (r: Result<Vec<u8>, Error>)
        ensures
            valid_response(self.deep_view()) ==> (r matches Ok(b) && b@ == enc_response(
                self.deep_view(),
            )),
            !valid_response(self.deep_view()) ==> r == Err::<Vec<u8>, Error>(
                Error::EncodingError,
            ),
    {
        let ghost m = self.deep_view();
        if self.questions.len() > 0xffff || self.answers.len() > 0xffff || self.authorities.len()
            > 0xffff || self.additionals.len() > 0xffff {
            return Err(Error::EncodingError);
        }
        let mut out: Vec<u8> = Vec::new();
        push_u16(&mut out, self.id);
        push_u16(&mut out, self.flags);
        push_u16(&mut out, self.questions.len() as u16);
        push_u16(&mut out, self.answers.len() as u16);
        push_u16(&mut out, self.authorities.len() as u16);
        push_u16(&mut out, self.additionals.len() as u16);
        proof {
            assert(out@ =~= enc_header(m));
        }

        let ghost header = out@;
        let mut i: usize = 0;
        while i < self.questions.len()
            invariant
                0 <= i <= self.questions.len(),
                m == self.deep_view(),
                out@ == header + enc_questions(m.questions.take(i as int)),
                forall|k: int| 0 <= k < i ==> valid_question(#[trigger] m.questions[k]),
            decreases self.questions.len() - i,
        {
            proof {
                assert(m.questions[i as int] == self.questions@[i as int].deep_view());
            }
            if !is_valid_name(&self.questions[i].name) {
                return Err(Error::EncodingError);
            }
            encode_question(&mut out, &self.questions[i]);
            proof {
                lemma_enc_questions_snoc(m.questions, i as int);
            }
            i += 1;
        }
        proof {
            assert(m.questions.take(self.questions.len() as int) =~= m.questions);
        }

        let ghost through_q = out@;
        match encode_section(&mut out, &self.answers) {
            Ok(()) => {},
            Err(e) => {
                return Err(e);
            },
        }
        match encode_section(&mut out, &self.authorities) {
            Ok(()) => {},
            Err(e) => {
                return Err(e);
            },
        }
        match encode_section(&mut out, &self.additionals) {
            Ok(()) => {},
            Err(e) => {
                return Err(e);
            },
        }
        proof {
            assert(out@ =~= enc_response(m));
        }
        Ok(out)
    }
}

/// Appends the wire bytes of a whole record section, or reports the first
/// record that the wire format cannot carry.
fn encode_section(out: &mut Vec<u8>, recs: &Vec<Record>) -> (r: Result<(), Error>)
    ensures
        valid_records(recs.deep_view()) ==> (r == Ok::<(), Error>(()) && final(out)@ == old(out)@
            + enc_records(recs.deep_view())),
        !valid_records(recs.deep_view()) ==> r == Err::<(), Error>(Error::EncodingError),
{
    let ghost rs = recs.deep_view();
    let ghost base = out@;
    let mut i: usize = 0;
    while i < recs.len()
        invariant
            0 <= i <= recs.len(),
            rs == recs.deep_view(),
            out@ == base + enc_records(rs.take(i as int)),
            forall|k: int| 0 <= k < i ==> valid_record(#[trigger] rs[k]),
        decreases recs.len() - i,
    {
        proof {
            assert(rs[i as int] == recs@[i as int].deep_view());
        }
        if !is_valid_record(&recs[i]) {
            return Err(Error::EncodingError);
        }
        encode_record(out, &recs[i]);
        proof {
            lemma_enc_records_snoc(rs, i as int);
        }
        i += 1;
    }
    proof {
        assert(rs.take(recs.len() as int) =~= rs);
    }
    Ok(())
}

} // verus!
