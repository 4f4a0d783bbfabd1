//! The request side of the codec: a query message with one question and an
//! optional EDNS0 OPT pseudo-record carrying options such as Client Subnet.
//!
//! A request is encoded as a standard DNS message, so its encoding is stated
//! through the same message model the response decoder is proved against.

use vstd::prelude::*;

use crate::csubnet::{
    csubnet_bytes, csubnet_payload, lemma_csubnet_bytes_shape, valid_address, IpAddress, CSUBNET,
};
use crate::errors::Error;
use crate::message::{
    enc_response, is_valid_name, lemma_round_trip, parse_response, valid_question, valid_records,
    valid_response, Question, QuestionModel, RecordModel, ResponseModel,
};
use crate::message::encode_question;
use crate::wire::{enc_u16, enc_u32, push_u16, push_u32, u16_of};

verus! {

/// Model of one EDNS0 option: a Client Subnet option, or any other option
/// held as its code and raw payload.
#[verifier::ext_equal]
pub ghost enum EdnsOptionModel {
    ClientSubnet(crate::csubnet::IpAddressModel),
    Other(u16, Seq<u8>),
}

/// One EDNS0 option of an OPT record.
#[derive(Debug, Clone, PartialEq, Eq)]
pub enum EdnsOption {
    /// The Client Subnet option.
    ClientSubnet(CSUBNET),
    /// Any other option: its code and its raw payload bytes.
    Other(u16, Vec<u8>),
}

impl DeepView for EdnsOption {
    type V = EdnsOptionModel;

    open spec fn deep_view(&self) -> EdnsOptionModel {
        match self {
            EdnsOption::ClientSubnet(cs) => EdnsOptionModel::ClientSubnet(cs.deep_view()),
            EdnsOption::Other(code, data) => EdnsOptionModel::Other(*code, data.deep_view()),
        }
    }
}

/// The wire bytes of one option: code, payload length, payload.
pub open spec fn enc_option(o: EdnsOptionModel) -> Seq<u8> {
    match o {
        EdnsOptionModel::ClientSubnet(a) => csubnet_bytes(a),
        EdnsOptionModel::Other(code, data) => enc_u16(code) + enc_u16(data.len() as u16) + data,
    }
}

/// An option the wire format can carry: an `Other` payload must fit its
/// 16-bit length field, and a Client Subnet address must have its family's
/// octet count (every `IpAddress` value does).
pub open spec fn valid_option(o: EdnsOptionModel) -> bool {
    match o {
        EdnsOptionModel::ClientSubnet(a) => valid_address(a),
        EdnsOptionModel::Other(_, data) => data.len() <= 0xffff,
    }
}

/// Every option of the sequence is valid.
pub open spec fn valid_options(os: Seq<EdnsOptionModel>) -> bool {
    forall|i: int| 0 <= i < os.len() ==> valid_option(#[trigger] os[i])
}

/// The concatenated wire bytes of an option sequence.
pub open spec fn enc_options(os: Seq<EdnsOptionModel>) -> Seq<u8>
    decreases os.len(),
{
    if os.len() == 0 {
        Seq::empty()
    } else {
        enc_option(os[0]) + enc_options(os.drop_first())
    }
}

/// Extending the encoded prefix of an option sequence by one option.
pub proof fn lemma_enc_options_snoc(os: Seq<EdnsOptionModel>, i: int)
    requires
        0 <= i < os.len(),
    ensures
        enc_options(os.take(i + 1)) == enc_options(os.take(i)) + enc_option(os[i]),
    decreases i,
{
    if i == 0 {
        assert(os.take(1).len() == 1);
        assert(os.take(1)[0] == os[0]);
        assert(os.take(0).len() == 0);
        assert(os.take(1).drop_first() =~= os.take(0));
        assert(enc_options(os.take(1)) == enc_option(os.take(1)[0]) + enc_options(
            os.take(1).drop_first(),
        ));
        assert(enc_options(os.take(1)) =~= enc_options(os.take(0)) + enc_option(os[0]));
    } else {
        lemma_enc_options_snoc(os.drop_first(), i - 1);
        assert(os.take(i + 1).drop_first() =~= os.drop_first().take(i));
        assert(os.take(i).drop_first() =~= os.drop_first().take(i - 1));
        assert(os.take(i + 1)[0] == os[0]);
        assert(os.take(i)[0] == os[0]);
        assert(enc_options(os.take(i + 1)) == enc_option(os[0]) + enc_options(
            os.drop_first().take(i),
        ));
        assert(enc_options(os.take(i)) == enc_option(os[0]) + enc_options(
            os.drop_first().take(i - 1),
        ));
        assert(os.drop_first()[i - 1] == os[i]);
        assert(enc_options(os.take(i + 1)) =~= enc_options(os.take(i)) + enc_option(os[i]));
    }
}

/// Serialises an option sequence, or reports the first option the wire
/// format cannot carry.
pub fn encode_options(options: &Vec<EdnsOption>) -> (r: Result<Vec<u8>, Error>)
    ensures
        valid_options(options.deep_view()) ==> (r matches Ok(v) && v@ == enc_options(
            options.deep_view(),
        )),
        !valid_options(options.deep_view()) ==> r == Err::<Vec<u8>, Error>(Error::EncodingError),
{
    let ghost os = options.deep_view();
    let mut out: Vec<u8> = Vec::new();
    let mut i: usize = 0;
    while i < options.len()
        invariant
            0 <= i <= options.len(),
            os == options.deep_view(),
            out@ == enc_options(os.take(i as int)),
            forall|k: int| 0 <= k < i ==> valid_option(#[trigger] os[k]),
        decreases options.len() - i,
    {
        proof {
            assert(os[i as int] == options@[i as int].deep_view());
        }
        match &options[i] {
            EdnsOption::ClientSubnet(cs) => {
                proof {
                    match cs.address {
                        IpAddress::V4(o) => {
                            assert(o.deep_view().len() == 4);
                        },
                        IpAddress::V6(o) => {
                            assert(o.deep_view().len() == 16);
                        },
                    }
                }
                let b = match cs.to_bytes() {
                    Ok(b) => b,
                    Err(_) => {
                        return Err(Error::EncodingError);
                    },
                };
                out.extend_from_slice(b.as_slice());
            },
            EdnsOption::Other(code, data) => {
                if data.len() > 0xffff {
                    proof {
                        assert(data.deep_view() =~= data@);
                        assert(!valid_option(os[i as int]));
                    }
                    return Err(Error::EncodingError);
                }
                push_u16(&mut out, *code);
                push_u16(&mut out, data.len() as u16);
                out.extend_from_slice(data.as_slice());
                proof {
                    assert(data.deep_view() =~= data@);
                }
            },
        }
        proof {
            lemma_enc_options_snoc(os, i as int);
            assert(out@ =~= enc_options(os.take(i as int + 1)));
        }
        i += 1;
    }
    proof {
        assert(os.take(options.len() as int) =~= os);
    }
    Ok(out)
}

/// Model of the OPT pseudo-record of a request.
#[verifier::ext_equal]
pub ghost struct OptRecordModel {
    pub payload_size: u16,
    pub extended_flags: u32,
    pub options: Seq<EdnsOptionModel>,
}

/// The EDNS0 OPT pseudo-record of a request: the advertised UDP payload
/// size (carried in the class field), the extended flags (carried in the
/// TTL field), and the options.
#[derive(Debug, Clone, PartialEq, Eq)]
pub struct OptRecord {
    /// The advertised UDP payload size.
    pub payload_size: u16,
    /// Extended RCODE and flags, as the raw 32 bits of the TTL field.
    pub extended_flags: u32,
    /// The options carried in the record's RDATA.
    pub options: Vec<EdnsOption>,
}

impl DeepView for OptRecord {
    type V = OptRecordModel;

    open spec fn deep_view(&self) -> OptRecordModel {
        OptRecordModel {
            payload_size: self.payload_size,
            extended_flags: self.extended_flags,
            options: self.options.deep_view(),
        }
    }
}

/// Model of a request: transaction id, flags, one question, and the
/// optional OPT pseudo-record.
#[verifier::ext_equal]
pub ghost struct RequestModel {
    pub id: u16,
    pub flags: u16,
    pub question: QuestionModel,
    pub edns: Option<OptRecordModel>,
}

/// A DNS query message: transaction id, flags, one question, and an
/// optional EDNS0 pseudo-record.
#[derive(Debug, Clone, PartialEq, Eq)]
pub struct Request {
    /// The transaction id.
    pub id: u16,
    /// The raw 16-bit flags field.
    pub flags: u16,
    /// The single question.
    pub question: Question,
    /// The optional OPT pseudo-record, sent in the additional section.
    pub edns: Option<OptRecord>,
}

impl DeepView for Request {
    type V = RequestModel;

    open spec fn deep_view(&self) -> RequestModel {
        RequestModel {
            id: self.id,
            flags: self.flags,
            question: self.question.deep_view(),
            edns: self.edns.deep_view(),
        }
    }
}

/// The additional section a request carries: empty, or the single OPT
/// pseudo-record (root name, type 41, payload size in the class field,
/// extended flags in the TTL field, options in the RDATA).
pub open spec fn request_additionals(m: RequestModel) -> Seq<RecordModel> {
    match m.edns {
        None => Seq::empty(),
        Some(o) => seq![
            RecordModel {
                name: Seq::empty(),
                rtype: 41,
                rclass: o.payload_size,
                ttl: o.extended_flags,
                rdata: enc_options(o.options),
            },
        ],
    }
}

/// A request seen as a full DNS message: one question, no answer or
/// authority records, and the OPT record (if any) as the additional section.
pub open spec fn request_message(m: RequestModel) -> ResponseModel {
    ResponseModel {
        id: m.id,
        flags: m.flags,
        questions: seq![m.question],
        answers: Seq::empty(),
        authorities: Seq::empty(),
        additionals: request_additionals(m),
    }
}

/// The wire encoding of a request: the encoding of its message form.
pub open spec fn enc_request(m: RequestModel) -> Seq<u8> {
    enc_response(request_message(m))
}

/// A request the wire format can carry.
pub open spec fn valid_request(m: RequestModel) -> bool {
    &&& valid_question(m.question)
    &&& match m.edns {
        Some(o) => valid_options(o.options) && enc_options(o.options).len() <= 0xffff,
        None => true,
    }
}

impl Request {
    /// Serialises this request into its wire bytes. Fails with
    /// `EncodingError` exactly when the request cannot be carried: an
    /// over-long label or an option payload beyond its length field.
    pub fn to_bytes(&self) -> (r: Result<Vec<u8>, Error>)
        ensures
            valid_request(self.deep_view()) ==> (r matches Ok(b) && b@ == enc_request(
                self.deep_view(),
            )),
            !valid_request(self.deep_view()) ==> r == Err::<Vec<u8>, Error>(
                Error::EncodingError,
            ),
    {
        let ghost m = self.deep_view();
        let ghost msg = request_message(m);
        if !is_valid_name(&self.question.name) {
            return Err(Error::EncodingError);
        }
        let mut out: Vec<u8> = Vec::new();
        push_u16(&mut out, self.id);
        push_u16(&mut out, self.flags);
        push_u16(&mut out, 1);
        push_u16(&mut out, 0);
        push_u16(&mut out, 0);
        match &self.edns {
            None => {
                push_u16(&mut out, 0);
                proof {
                    assert(msg.questions.len() == 1);
                    assert(msg.additionals.len() == 0);
                    assert(out@ =~= crate::message::enc_header(msg));
                }
                encode_question(&mut out, &self.question);
                proof {
                    assert(msg.questions.drop_first() =~= Seq::<QuestionModel>::empty());
                    assert(msg.questions[0] == m.question);
                    assert(crate::message::enc_questions(msg.questions)
                        == crate::message::enc_question(msg.questions[0])
                        + crate::message::enc_questions(msg.questions.drop_first()));
                    assert(crate::message::enc_questions(msg.questions) =~=
                        crate::message::enc_question(m.question));
                    assert(out@ =~= enc_request(m));
                }
                Ok(out)
            },
            Some(opt) => {
                push_u16(&mut out, 1);
                proof {
                    assert(msg.questions.len() == 1);
                    assert(msg.additionals.len() == 1);
                    assert(out@ =~= crate::message::enc_header(msg));
                }
                encode_question(&mut out, &self.question);
                let opt_bytes = match encode_options(&opt.options) {
                    Ok(v) => v,
                    Err(e) => {
                        return Err(e);
                    },
                };
                if opt_bytes.len() > 0xffff {
                    return Err(Error::EncodingError);
                }
                out.push(0u8);
                push_u16(&mut out, 41);
                push_u16(&mut out, opt.payload_size);
                push_u32(&mut out, opt.extended_flags);
                push_u16(&mut out, opt_bytes.len() as u16);
                out.extend_from_slice(opt_bytes.as_slice());
                proof {
                    let orec = request_additionals(m)[0];
                    assert(crate::message::enc_labels(orec.name) =~= Seq::<u8>::empty());
                    assert(crate::message::enc_name(orec.name) =~= seq![0u8]);
                    assert(msg.questions.drop_first() =~= Seq::<QuestionModel>::empty());
                    assert(msg.questions[0] == m.question);
                    assert(crate::message::enc_questions(msg.questions)
                        == crate::message::enc_question(msg.questions[0])
                        + crate::message::enc_questions(msg.questions.drop_first()));
                    assert(crate::message::enc_questions(msg.questions) =~=
                        crate::message::enc_question(m.question));
                    assert(msg.additionals.drop_first() =~= Seq::<RecordModel>::empty());
                    assert(msg.additionals.len() == 1);
                    assert(msg.additionals[0] == orec);
                    assert(crate::message::enc_records(msg.additionals)
                        == crate::message::enc_record(msg.additionals[0])
                        + crate::message::enc_records(msg.additionals.drop_first()));
                    assert(crate::message::enc_records(msg.additionals) =~=
                        crate::message::enc_record(orec));
                    assert(crate::message::enc_record(orec) =~= crate::message::enc_name(
                        orec.name,
                    ) + enc_u16(41) + enc_u16(opt.payload_size) + enc_u32(opt.extended_flags)
                        + enc_u16(opt_bytes.len() as u16) + enc_options(
                        opt.options.deep_view(),
                    ));
                    assert(out@ =~= enc_request(m));
                }
                Ok(out)
            },
        }
    }
}

// ---------------------------------------------------------------------------
// Decoding the options of a received OPT record, with field-by-field bounds
// checks: an option whose declared length over-runs the RDATA is rejected.
// ---------------------------------------------------------------------------

/// The code and raw payload of one option, as they stand on the wire.
pub open spec fn option_pair(o: EdnsOptionModel) -> (u16, Seq<u8>) {
    match o {
        EdnsOptionModel::ClientSubnet(a) => (8u16, csubnet_payload(a)),
        EdnsOptionModel::Other(code, data) => (code, data),
    }
}

/// The code and payload of every option, in order.
pub open spec fn option_pairs(os: Seq<EdnsOptionModel>) -> Seq<(u16, Seq<u8>)>
    decreases os.len(),
{
    if os.len() == 0 {
        Seq::empty()
    } else {
        seq![option_pair(os[0])] + option_pairs(os.drop_first())
    }
}

/// Parses the options of an OPT record's RDATA from offset `i` to its end:
/// each option is its code, its declared payload length, and that many
/// payload bytes. A declared length past the end is malformed.
pub open spec fn parse_options(b: Seq<u8>, i: int) -> Option<Seq<(u16, Seq<u8>)>>
    decreases b.len() - i,
{
    if i == b.len() {
        Some(Seq::empty())
    } else if i + 4 <= b.len() {
        let code = u16_of(b[i], b[i + 1]);
        let len = u16_of(b[i + 2], b[i + 3]) as int;
        if i + 4 + len <= b.len() {
            match parse_options(b, i + 4 + len) {
                Some(rest) => Some(seq![(code, b.subrange(i + 4, i + 4 + len))] + rest),
                None => None,
            }
        } else {
            None
        }
    } else {
        None
    }
}

/// Parsing an encoded option sequence that fills the rest of the buffer
/// yields each option's code and payload.
pub proof fn lemma_parse_options(b: Seq<u8>, i: int, os: Seq<EdnsOptionModel>)
    requires
        valid_options(os),
        0 <= i,
        i + enc_options(os).len() == b.len(),
        b.subrange(i, b.len() as int) == enc_options(os),
    ensures
        parse_options(b, i) == Some(option_pairs(os)),
    decreases os.len(),
{
    if os.len() == 0 {
        assert(option_pairs(os) =~= Seq::<(u16, Seq<u8>)>::empty());
    } else {
        let o = os[0];
        let code = option_pair(o).0;
        let payload = option_pair(o).1;
        let e0 = enc_option(o);
        match o {
            EdnsOptionModel::ClientSubnet(a) => {
                lemma_csubnet_bytes_shape(a);
            },
            EdnsOptionModel::Other(c, data) => {},
        }
        assert(payload.len() <= 0xffff);
        assert(e0 == enc_u16(code) + enc_u16(payload.len() as u16) + payload);
        let erest = enc_options(os.drop_first());
        assert(enc_options(os) == e0 + erest);
        crate::message::lemma_split_window(b, i, e0, erest);
        crate::message::lemma_split_window(b, i, enc_u16(code) + enc_u16(payload.len() as u16),
            payload);
        crate::message::lemma_split_window(b, i, enc_u16(code), enc_u16(payload.len() as u16));
        crate::message::lemma_u16_at(b, i, code);
        crate::message::lemma_u16_at(b, i + 2, payload.len() as u16);
        lemma_parse_options(b, i + 4 + payload.len() as int, os.drop_first());
        assert(b.subrange(i + 4, i + 4 + payload.len() as int) == payload);
        assert(parse_options(b, i) == Some(
            (seq![(code, payload)] + option_pairs(os.drop_first())),
        ));
        assert(seq![(code, payload)] + option_pairs(os.drop_first()) =~= option_pairs(os));
    }
}

/// Options round trip: the serialised options of an OPT record decode back
/// to their codes and payloads.
pub proof fn lemma_options_round_trip(os: Seq<EdnsOptionModel>)
    requires
        valid_options(os),
    ensures
        parse_options(enc_options(os), 0) == Some(option_pairs(os)),
{
    let b = enc_options(os);
    assert(b.subrange(0, b.len() as int) =~= b);
    lemma_parse_options(b, 0, os);
}

/// The loop view of options decoding: what is already collected plus what
/// the remaining bytes parse to.
pub open spec fn options_parse_step(b: Seq<u8>, acc: Seq<(u16, Seq<u8>)>, cur: int) -> bool {
    parse_options(b, 0) == match parse_options(b, cur) {
        Some(rest) => Some(acc + rest),
        None => None::<Seq<(u16, Seq<u8>)>>,
    }
}

/// Decodes the options held in an OPT record's RDATA into their codes and
/// payloads, checking every declared length against the bytes available.
pub fn decode_options(rdata: &[u8]) -> (r: Result<Vec<(u16, Vec<u8>)>, Error>)
    ensures
        match parse_options(rdata@, 0) {
            Some(ps) => r matches Ok(v) && v.deep_view() == ps,
            None => r == Err::<Vec<(u16, Vec<u8>)>, Error>(Error::ProtocolParseError),
        },
{
    let mut acc: Vec<(u16, Vec<u8>)> = Vec::new();
    let mut cur: usize = 0;
    let total = rdata.len();
    proof {
        assert(rdata@.len() == total);
        assert(acc.deep_view() =~= Seq::<(u16, Seq<u8>)>::empty());
    }
    while cur < total
        invariant
            total == rdata@.len(),
            cur <= rdata@.len() <= usize::MAX,
            options_parse_step(rdata@, acc.deep_view(), cur as int),
        decreases rdata@.len() - cur,
    {
        if rdata.len() - cur < 4 {
            return Err(Error::ProtocolParseError);
        }
        let code = crate::wire::read_u16(rdata, cur);
        let len = crate::wire::read_u16(rdata, cur + 2) as usize;
        if len > rdata.len() - (cur + 4) {
            return Err(Error::ProtocolParseError);
        }
        let mut payload: Vec<u8> = Vec::new();
        let mut k: usize = 0;
        proof {
            assert(payload@ =~= rdata@.subrange(cur as int + 4, cur as int + 4));
        }
        while k < len
            invariant
                rdata@.len() <= usize::MAX,
                cur as int + 4 + len as int <= rdata@.len(),
                k <= len,
                payload@ == rdata@.subrange(cur as int + 4, cur as int + 4 + k as int),
            decreases len - k,
        {
            payload.push(rdata[cur + 4 + k]);
            proof {
                assert(payload@ =~= rdata@.subrange(cur as int + 4, cur as int + 4 + k as int
                    + 1));
            }
            k += 1;
        }
        let ghost old_acc = acc.deep_view();
        let ghost pair = (code, rdata@.subrange(cur as int + 4, cur as int + 4 + len as int));
        acc.push((code, payload));
        proof {
            assert(acc.deep_view() =~~= old_acc.push(pair));
            let p = parse_options(rdata@, cur as int + 4 + len as int);
            if p is Some {
                let rest = p->Some_0;
                assert(parse_options(rdata@, cur as int) == Some(seq![pair] + rest));
                assert(old_acc + (seq![pair] + rest) =~= old_acc.push(pair) + rest);
            } else {
                assert(parse_options(rdata@, cur as int) is None);
            }
        }
        cur = cur + 4 + len;
    }
    proof {
        assert(parse_options(rdata@, cur as int) == Some(Seq::<(u16, Seq<u8>)>::empty()));
        assert(acc.deep_view() + Seq::<(u16, Seq<u8>)>::empty() =~= acc.deep_view());
    }
    Ok(acc)
}

/// Round trip for requests: decoding an encoded request yields exactly its
/// message form — the question and OPT record come back as sent.
pub proof fn lemma_request_round_trip(m: RequestModel)
    requires
        valid_request(m),
    ensures
        parse_response(enc_request(m)) == Some(request_message(m)),
{
    let msg = request_message(m);
    assert(forall|i: int| 0 <= i < msg.questions.len() ==> valid_question(
        #[trigger] msg.questions[i],
    ));
    assert(valid_records(msg.answers));
    assert(valid_records(msg.authorities));
    match m.edns {
        Some(o) => {
            let orec = request_additionals(m)[0];
            assert(crate::message::valid_name(orec.name));
            assert(orec.rdata.len() <= 0xffff);
            assert(crate::message::valid_record(orec));
            assert(valid_records(msg.additionals));
        },
        None => {
            assert(valid_records(msg.additionals));
        },
    }
    assert(valid_response(msg));
    lemma_round_trip(msg);
}

} // verus!
