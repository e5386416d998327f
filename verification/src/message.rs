//! Message framing: the envelope around a body.
//!
//! A message carries its kind, a serial number, the addressing fields the
//! kind requires, a body signature, and the body values.  Serial numbers
//! are assigned by the connection, monotonically; a reply or error always
//! carries the serial of the call it answers.

use vstd::prelude::*;
use crate::Error;
use crate::signature::{TC_BYTE, TC_VARIANT};
use crate::value::{Value, AbsValue, abs_seq, sig_of, sig_of_seq, lemma_abs_seq, lemma_sig_of_seq_snoc};
use crate::wire::{Endian, pad_to, push_uint_le, read_uint, lemma_pow256_values, lemma_uint_at_bound, uint_at, lemma_uint_at_frame};
use crate::codec::{encode_body, decode_body, decode_val, encode_val, dec_val, dec_body};

verus! {

/// The four kinds of bus traffic.
#[derive(Clone, Copy, PartialEq, Eq, Structural, Debug)]
pub enum MessageKind {
    /// A method call, expecting a reply unless flagged otherwise.
    Call,
    /// A successful reply to a call.
    Reply,
    /// An error reply to a call.
    Error,
    /// An unsolicited broadcast.
    Signal,
}

/// One framed unit of bus traffic.
pub struct Message {
    pub kind: MessageKind,
    pub serial: u32,
    pub path: Option<String>,
    pub interface: Option<String>,
    pub member: Option<String>,
    pub error_name: Option<String>,
    pub reply_serial: Option<u32>,
    pub destination: Option<String>,
    pub sender: Option<String>,
    pub body: Vec<Value>,
}

impl Message {
    /// The header fields each kind requires are present.
    pub open spec fn wf(&self) -> bool {
        match self.kind {
            MessageKind::Call => self.path is Some && self.member is Some,
            MessageKind::Reply => self.reply_serial is Some,
            MessageKind::Error => self.reply_serial is Some && self.error_name is Some,
            MessageKind::Signal => self.path is Some && self.interface is Some
                && self.member is Some,
        }
    }

    /// Frames a method call.
    pub fn method_call(
        serial: u32,
        destination: String,
        path: String,
        interface: String,
        member: String,
        body: Vec<Value>,
    ) -> (m: Message)
        ensures
            m.wf(),
            m.kind == MessageKind::Call,
            m.serial == serial,
            m.destination == Some(destination),
            m.path == Some(path),
            m.interface == Some(interface),
            m.member == Some(member),
            m.reply_serial is None,
            m.error_name is None,
            m.body == body,
    {
        Message {
            kind: MessageKind::Call,
            serial,
            path: Some(path),
            interface: Some(interface),
            member: Some(member),
            error_name: None,
            reply_serial: None,
            destination: Some(destination),
            sender: None,
            body,
        }
    }

    /// Frames a successful reply; it reuses the call's serial as its
    /// reply-serial.
    pub fn method_return(serial: u32, reply_to: u32, body: Vec<Value>) -> (m: Message)
        ensures
            m.wf(),
            m.kind == MessageKind::Reply,
            m.serial == serial,
            m.reply_serial == Some(reply_to),
            m.body == body,
    {
        Message {
            kind: MessageKind::Reply,
            serial,
            path: None,
            interface: None,
            member: None,
            error_name: None,
            reply_serial: Some(reply_to),
            destination: None,
            sender: None,
            body: body,
        }
    }

    /// Frames an error reply carrying a bus error name and a description.
    pub fn error_reply(serial: u32, reply_to: u32, name: String, description: String) -> (m:
        Message)
        ensures
            m.wf(),
            m.kind == MessageKind::Error,
            m.serial == serial,
            m.reply_serial == Some(reply_to),
            m.error_name == Some(name),
            abs_seq(m.body@) == seq![description@].map_values(|s: Seq<char>| crate::value::AbsValue::Str(s)),
    {
        let mut body: Vec<Value> = Vec::new();
        body.push(Value::Str(description));
        proof {
            lemma_abs_seq(body@);
            assert(abs_seq(body@) =~= seq![body@[0]@]);
        }
        Message {
            kind: MessageKind::Error,
            serial,
            path: None,
            interface: None,
            member: None,
            error_name: Some(name),
            reply_serial: Some(reply_to),
            destination: None,
            sender: None,
            body,
        }
    }

    /// Frames a signal.
    pub fn signal(serial: u32, path: String, interface: String, member: String, body: Vec<
        Value,
    >) -> (m: Message)
        ensures
            m.wf(),
            m.kind == MessageKind::Signal,
            m.serial == serial,
            m.path == Some(path),
            m.interface == Some(interface),
            m.member == Some(member),
            m.body == body,
    {
        Message {
            kind: MessageKind::Signal,
            serial,
            path: Some(path),
            interface: Some(interface),
            member: Some(member),
            error_name: None,
            reply_serial: None,
            destination: None,
            sender: None,
            body,
        }
    }
}

/// The signature of a body: the concatenated signatures of its values.
pub fn body_signature_of(body: &Vec<Value>) -> (r: Vec<u8>)
    ensures
        r@ == sig_of_seq(abs_seq(body@)),
{
    let mut r: Vec<u8> = Vec::new();
    let mut j: usize = 0;
    proof {
        lemma_abs_seq(body@);
        assert(abs_seq(body@).subrange(0, 0) =~= Seq::empty());
    }
    while j < body.len()
        invariant
            j <= body@.len(),
            abs_seq(body@).len() == body@.len(),
            r@ == sig_of_seq(abs_seq(body@).subrange(0, j as int)),
        decreases body@.len() - j,
    {
        let mut m = body[j].signature();
        r.append(&mut m);
        proof {
            lemma_abs_seq(body@);
            lemma_sig_of_seq_snoc(abs_seq(body@), j as int);
        }
        j = j + 1;
    }
    proof {
        assert(abs_seq(body@).subrange(0, body@.len() as int) =~= abs_seq(body@));
    }
    r
}

/// Whether two byte strings are equal.
pub fn bytes_eq(a: &Vec<u8>, b: &Vec<u8>) -> (r: bool)
    ensures
        r == (a@ == b@),
{
    if a.len() != b.len() {
        proof {
            assert(a@.len() != b@.len());
        }
        return false;
    }
    let mut j: usize = 0;
    while j < a.len()
        invariant
            j <= a@.len() == b@.len(),
            forall|k: int| 0 <= k < j ==> a@[k] == b@[k],
        decreases a@.len() - j,
    {
        if a[j] != b[j] {
            return false;
        }
        j = j + 1;
    }
    proof {
        assert(a@ =~= b@);
    }
    true
}



/// The wire code of a message kind, in specifications.
pub open spec fn spec_kind_code(k: MessageKind) -> u8 {
    match k {
        MessageKind::Call => 1,
        MessageKind::Reply => 2,
        MessageKind::Error => 3,
        MessageKind::Signal => 4,
    }
}

/// One header field in the model: a struct of the field code and the
/// boxed value.
pub open spec fn field_rep(code: u8, a: AbsValue) -> AbsValue {
    AbsValue::Struct(seq![AbsValue::Byte(code), AbsValue::Variant(Box::new(a))])
}

/// The canonical header field array of a message, in protocol order:
/// path, interface, member, error name, reply serial, destination,
/// sender, and the body signature when the body is not empty.
pub open spec fn fields_rep(m: Message) -> Seq<AbsValue> {
    (match m.path {
        Some(p) => seq![field_rep(1, AbsValue::ObjectPath(p@))],
        None => Seq::<AbsValue>::empty(),
    }) + (match m.interface {
        Some(x) => seq![field_rep(2, AbsValue::Str(x@))],
        None => Seq::<AbsValue>::empty(),
    }) + (match m.member {
        Some(x) => seq![field_rep(3, AbsValue::Str(x@))],
        None => Seq::<AbsValue>::empty(),
    }) + (match m.error_name {
        Some(x) => seq![field_rep(4, AbsValue::Str(x@))],
        None => Seq::<AbsValue>::empty(),
    }) + (match m.reply_serial {
        Some(x) => seq![field_rep(5, AbsValue::Uint32(x))],
        None => Seq::<AbsValue>::empty(),
    }) + (match m.destination {
        Some(x) => seq![field_rep(6, AbsValue::Str(x@))],
        None => Seq::<AbsValue>::empty(),
    }) + (match m.sender {
        Some(x) => seq![field_rep(7, AbsValue::Str(x@))],
        None => Seq::<AbsValue>::empty(),
    }) + (if sig_of_seq(abs_seq(m.body@)).len() > 0 {
        seq![field_rep(8, AbsValue::Signature(sig_of_seq(abs_seq(m.body@))))]
    } else {
        Seq::<AbsValue>::empty()
    })
}

/// The signature of the header field array: `a(yv)`.
pub open spec fn header_array_sig() -> Seq<u8> {
    seq![97u8, 40u8, TC_BYTE, TC_VARIANT, 41u8]
}

/// The wire code of a message kind.
fn kind_code(k: MessageKind) -> (r: u8)
    ensures
        r == spec_kind_code(k),
        1 <= r <= 4,
{
    match k {
        MessageKind::Call => 1,
        MessageKind::Reply => 2,
        MessageKind::Error => 3,
        MessageKind::Signal => 4,
    }
}

/// One header field: its one-byte code and its boxed value.
fn header_field(code: u8, v: Value) -> (r: Value)
    ensures
        r@ == field_rep(code, v@),
{
    let ghost v0 = v@;
    let mut parts: Vec<Value> = Vec::new();
    parts.push(Value::Byte(code));
    let var_val = Value::Variant(Box::new(v));
    proof {
        assert(var_val@ == AbsValue::Variant(Box::new(v0)));
    }
    parts.push(var_val);
    proof {
        crate::value::lemma_abs_seq(parts@);
        assert(abs_seq(parts@)[0] == parts@[0]@);
        assert(abs_seq(parts@)[1] == parts@[1]@);
        assert(abs_seq(parts@) =~= seq![AbsValue::Byte(code), AbsValue::Variant(Box::new(v0))]);
    }
    Value::Struct(parts)
}

/// The header field array of a message, in protocol order: path,
/// interface, member, error name, reply serial, destination, sender, body
/// signature.
#[verifier::rlimit(100)]
#[verifier::spinoff_prover]
fn build_header_fields(m: &Message, body_sig: Vec<u8>) -> (r: Vec<Value>)
    requires
        body_sig@ == sig_of_seq(abs_seq(m.body@)),
    ensures
        abs_seq(r@) == fields_rep(*m),
{
    let mut fields: Vec<Value> = Vec::new();
    let ghost mut rep = Seq::<AbsValue>::empty();
    proof {
        lemma_abs_seq(fields@);
        assert(abs_seq(fields@) =~= rep);
    }
    match &m.path {
        Some(p) => {
            let ghost pre = fields@;
            fields.push(header_field(1, Value::ObjectPath(clone_str(p))));
            proof {
                rep = rep + seq![field_rep(1, AbsValue::ObjectPath(p@))];
                lemma_abs_seq(pre);
                lemma_abs_seq(fields@);
                assert forall|q: int| 0 <= q < fields@.len() implies abs_seq(fields@)[q]
                    == rep[q] by {
                    assert(abs_seq(fields@)[q] == fields@[q]@);
                    if q < pre.len() {
                        assert(abs_seq(pre)[q] == pre[q]@);
                    }
                }
                assert(abs_seq(fields@) =~= rep);
            }
        },
        None => {
            proof {
                rep = rep + Seq::<AbsValue>::empty();
                assert(abs_seq(fields@) =~= rep);
            }
        },
    }
    match &m.interface {
        Some(x) => {
            let ghost pre = fields@;
            let ghost rpre = rep;
            fields.push(header_field(2, Value::Str(clone_str(x))));
            proof {
                rep = rep + seq![field_rep(2, AbsValue::Str(x@))];
                lemma_abs_seq(pre);
                lemma_abs_seq(fields@);
                assert forall|q: int| 0 <= q < fields@.len() implies abs_seq(fields@)[q]
                    == rep[q] by {
                    assert(abs_seq(fields@)[q] == fields@[q]@);
                    if q < pre.len() {
                        assert(abs_seq(pre)[q] == pre[q]@);
                    }
                }
                assert(abs_seq(fields@) =~= rep);
            }
        },
        None => {
            proof {
                rep = rep + Seq::<AbsValue>::empty();
                assert(abs_seq(fields@) =~= rep);
            }
        },
    }
    match &m.member {
        Some(x) => {
            let ghost pre = fields@;
            fields.push(header_field(3, Value::Str(clone_str(x))));
            proof {
                rep = rep + seq![field_rep(3, AbsValue::Str(x@))];
                lemma_abs_seq(pre);
                lemma_abs_seq(fields@);
                assert forall|q: int| 0 <= q < fields@.len() implies abs_seq(fields@)[q]
                    == rep[q] by {
                    assert(abs_seq(fields@)[q] == fields@[q]@);
                    if q < pre.len() {
                        assert(abs_seq(pre)[q] == pre[q]@);
                    }
                }
                assert(abs_seq(fields@) =~= rep);
            }
        },
        None => {
            proof {
                rep = rep + Seq::<AbsValue>::empty();
                assert(abs_seq(fields@) =~= rep);
            }
        },
    }
    match &m.error_name {
        Some(x) => {
            let ghost pre = fields@;
            fields.push(header_field(4, Value::Str(clone_str(x))));
            proof {
                rep = rep + seq![field_rep(4, AbsValue::Str(x@))];
                lemma_abs_seq(pre);
                lemma_abs_seq(fields@);
                assert forall|q: int| 0 <= q < fields@.len() implies abs_seq(fields@)[q]
                    == rep[q] by {
                    assert(abs_seq(fields@)[q] == fields@[q]@);
                    if q < pre.len() {
                        assert(abs_seq(pre)[q] == pre[q]@);
                    }
                }
                assert(abs_seq(fields@) =~= rep);
            }
        },
        None => {
            proof {
                rep = rep + Seq::<AbsValue>::empty();
                assert(abs_seq(fields@) =~= rep);
            }
        },
    }
    match &m.reply_serial {
        Some(x) => {
            let ghost pre = fields@;
            fields.push(header_field(5, Value::Uint32(*x)));
            proof {
                rep = rep + seq![field_rep(5, AbsValue::Uint32(*x))];
                lemma_abs_seq(pre);
                lemma_abs_seq(fields@);
                assert forall|q: int| 0 <= q < fields@.len() implies abs_seq(fields@)[q]
                    == rep[q] by {
                    assert(abs_seq(fields@)[q] == fields@[q]@);
                    if q < pre.len() {
                        assert(abs_seq(pre)[q] == pre[q]@);
                    }
                }
                assert(abs_seq(fields@) =~= rep);
            }
        },
        None => {
            proof {
                rep = rep + Seq::<AbsValue>::empty();
                assert(abs_seq(fields@) =~= rep);
            }
        },
    }
    match &m.destination {
        Some(x) => {
            let ghost pre = fields@;
            fields.push(header_field(6, Value::Str(clone_str(x))));
            proof {
                rep = rep + seq![field_rep(6, AbsValue::Str(x@))];
                lemma_abs_seq(pre);
                lemma_abs_seq(fields@);
                assert forall|q: int| 0 <= q < fields@.len() implies abs_seq(fields@)[q]
                    == rep[q] by {
                    assert(abs_seq(fields@)[q] == fields@[q]@);
                    if q < pre.len() {
                        assert(abs_seq(pre)[q] == pre[q]@);
                    }
                }
                assert(abs_seq(fields@) =~= rep);
            }
        },
        None => {
            proof {
                rep = rep + Seq::<AbsValue>::empty();
                assert(abs_seq(fields@) =~= rep);
            }
        },
    }
    match &m.sender {
        Some(x) => {
            let ghost pre = fields@;
            fields.push(header_field(7, Value::Str(clone_str(x))));
            proof {
                rep = rep + seq![field_rep(7, AbsValue::Str(x@))];
                lemma_abs_seq(pre);
                lemma_abs_seq(fields@);
                assert forall|q: int| 0 <= q < fields@.len() implies abs_seq(fields@)[q]
                    == rep[q] by {
                    assert(abs_seq(fields@)[q] == fields@[q]@);
                    if q < pre.len() {
                        assert(abs_seq(pre)[q] == pre[q]@);
                    }
                }
                assert(abs_seq(fields@) =~= rep);
            }
        },
        None => {
            proof {
                rep = rep + Seq::<AbsValue>::empty();
                assert(abs_seq(fields@) =~= rep);
            }
        },
    }
    if body_sig.len() > 0 {
        let ghost pre = fields@;
        let ghost bs0 = body_sig@;
        fields.push(header_field(8, Value::Signature(body_sig)));
        proof {
            rep = rep + seq![field_rep(8, AbsValue::Signature(bs0))];
            lemma_abs_seq(pre);
            lemma_abs_seq(fields@);
            assert forall|q: int| 0 <= q < fields@.len() implies abs_seq(fields@)[q] == rep[q] by {
                assert(abs_seq(fields@)[q] == fields@[q]@);
                if q < pre.len() {
                    assert(abs_seq(pre)[q] == pre[q]@);
                }
            }
            assert(abs_seq(fields@) =~= rep);
        }
    } else {
        proof {
            rep = rep + Seq::<AbsValue>::empty();
            assert(abs_seq(fields@) =~= rep);
        }
    }
    proof {
        assert(rep == fields_rep(*m));
    }
    fields
}

/// A plain copy of a string.
fn clone_str(x: &String) -> (r: String)
    ensures
        r@ == x@,
{
    <String as vstd::string::StringExecFns>::from_str(x.as_str())
}

/// Frames a whole message: the fixed header (little-endian marker, kind,
/// flags, protocol version, body length, serial), the header field array
/// with its own alignment, padding to the eight-byte boundary, then the
/// body bytes.  The body is encoded by the value codec under the declared
/// body signature.

/// The code and boxed value of one decoded header field, when it has the
/// field shape.
pub open spec fn field_code_of(e: AbsValue) -> Option<(u8, AbsValue)> {
    match e {
        AbsValue::Struct(ps) => if ps.len() == 2 {
            match (ps[0], ps[1]) {
                (AbsValue::Byte(c), AbsValue::Variant(b)) => Some((c, *b)),
                _ => None,
            }
        } else {
            None
        },
        _ => None,
    }
}

/// The last string-typed header field of `code`, later entries winning.
pub open spec fn last_string_field(fs: Seq<AbsValue>, code: u8) -> Option<Seq<char>>
    decreases fs.len(),
{
    if fs.len() == 0 {
        None
    } else {
        match field_code_of(fs.last()) {
            Some((c, v)) => if c == code && v is Str {
                Some(v->Str_0)
            } else {
                last_string_field(fs.drop_last(), code)
            },
            None => last_string_field(fs.drop_last(), code),
        }
    }
}

/// The last object-path header field of `code`.
pub open spec fn last_path_field(fs: Seq<AbsValue>) -> Option<Seq<char>>
    decreases fs.len(),
{
    if fs.len() == 0 {
        None
    } else {
        match field_code_of(fs.last()) {
            Some((c, v)) => if c == 1 && v is ObjectPath {
                Some(v->ObjectPath_0)
            } else {
                last_path_field(fs.drop_last())
            },
            None => last_path_field(fs.drop_last()),
        }
    }
}

/// The last reply-serial header field.
pub open spec fn last_u32_field(fs: Seq<AbsValue>) -> Option<u32>
    decreases fs.len(),
{
    if fs.len() == 0 {
        None
    } else {
        match field_code_of(fs.last()) {
            Some((c, v)) => if c == 5 && v is Uint32 {
                Some(v->Uint32_0)
            } else {
                last_u32_field(fs.drop_last())
            },
            None => last_u32_field(fs.drop_last()),
        }
    }
}

/// The last body-signature header field.
pub open spec fn last_sig_field(fs: Seq<AbsValue>) -> Option<Seq<u8>>
    decreases fs.len(),
{
    if fs.len() == 0 {
        None
    } else {
        match field_code_of(fs.last()) {
            Some((c, v)) => if c == 8 && v is Signature {
                Some(v->Signature_0)
            } else {
                last_sig_field(fs.drop_last())
            },
            None => last_sig_field(fs.drop_last()),
        }
    }
}

/// An optional owned string equals an optional modeled one.
pub open spec fn opt_str_is(a: Option<String>, b: Option<Seq<char>>) -> bool {
    match (a, b) {
        (Some(x), Some(y)) => x@ == y,
        (None, None) => true,
        _ => false,
    }
}


/// The twelve fixed header bytes: little-endian marker, kind, flags,
/// protocol version, body length, serial.
fn fixed_header(kind: MessageKind, body_len: u32, serial: u32) -> (r: Vec<u8>)
    ensures
        r@.len() == 12,
        r@[0] == 108u8,
        r@[1] == spec_kind_code(kind),
        r@[2] == 0u8,
        r@[3] == 1u8,
        crate::wire::le_at(r@, 4, 4) == body_len,
        crate::wire::le_at(r@, 8, 4) == serial,
{
    let mut out: Vec<u8> = Vec::new();
    out.push(108);  // 'l': little-endian
    out.push(kind_code(kind));
    out.push(0);  // flags
    out.push(1);  // protocol version
    let ghost h4 = out@;
    proof {
        lemma_pow256_values();
        assert(h4[0] == 108u8 && h4[1] == spec_kind_code(kind) && h4[2] == 0u8 && h4[3] == 1u8
            && h4.len() == 4);
    }
    push_uint_le(&mut out, body_len as u64, 4);
    let ghost h8 = out@;
    proof {
        assert forall|k: int| 0 <= k < 4 implies h8[k] == h4[k] by {
            assert(h8.subrange(0, 4)[k] == h4[k]);
        }
    }
    push_uint_le(&mut out, serial as u64, 4);
    proof {
        assert forall|k: int| 0 <= k < 8 implies out@[k] == h8[k] by {
            assert(out@.subrange(0, 8)[k] == h8[k]);
        }
        assert forall|k: int| 4 <= k < 8 implies h8[k] == out@[k] by {}
        lemma_uint_at_frame(h8, out@, 4, 4, Endian::Little);
    }
    out
}

#[verifier::rlimit(100)]
#[verifier::spinoff_prover]
pub fn frame_message(m: &Message) -> (r: Result<Vec<u8>, Error>)
    ensures
        r is Ok <==> ({
            let fa = AbsValue::Array(seq![40u8, TC_BYTE, TC_VARIANT, 41u8], fields_rep(*m));
            &&& crate::codec::body_wf(abs_seq(m.body@))
            &&& crate::signature::sig_valid(sig_of_seq(abs_seq(m.body@)))
            &&& crate::codec::enc_fits_seq(abs_seq(m.body@), 0)
            &&& crate::codec::enc_end_seq(abs_seq(m.body@), 0) <= 0x4000000
            &&& crate::value::wf_val(fa)
            &&& crate::codec::enc_fits(fa, 12)
        }),
        r matches Ok(b) ==> ({
            &&& b@.len() >= 16
            &&& b@[0] == 108u8
            &&& b@[1] == spec_kind_code(m.kind)
            &&& b@[2] == 0u8
            &&& b@[3] == 1u8
            &&& uint_at(b@, 8, 4, Endian::Little) == m.serial
            &&& (dec_val(b@, 12, header_array_sig(), 0, Endian::Little) matches Some(t) && ({
                let bstart = crate::wire::align_up(t.1, 8);
                &&& (t.0 matches AbsValue::Array(es2, fs) && fs == fields_rep(*m))
                &&& bstart <= b@.len()
                &&& uint_at(b@, 4, 4, Endian::Little) == b@.len() - bstart
                &&& dec_body(
                    b@.subrange(bstart, b@.len() as int),
                    0,
                    sig_of_seq(abs_seq(m.body@)),
                    0,
                    Endian::Little,
                ) == Some((abs_seq(m.body@), (b@.len() - bstart) as int))
            }))
        }),
        r is Err ==> (r->Err_0 is InvalidSignature || r->Err_0 is TooLarge),
{
    let body_bytes = encode_body(&m.body)?;
    if body_bytes.len() > 0x4000000 {
        return Err(Error::TooLarge);
    }
    let body_sig = body_signature_of(&m.body);
    let fields = build_header_fields(m, body_sig);
    let field_array = Value::Array(header_field_sig(), fields);
    proof {
        assert(field_array@ == AbsValue::Array(
            seq![40u8, TC_BYTE, TC_VARIANT, 41u8],
            fields_rep(*m),
        ));
    }
    if !crate::codec::check_wf(&field_array) {
        return Err(Error::InvalidSignature);
    }
    let mut out = fixed_header(m.kind, body_bytes.len() as u32, m.serial);
    let ghost h12 = out@;
    let ghost fsig = sig_of(field_array@);
    proof {
        assert(fsig.subrange(0, fsig.len() as int) =~= fsig);
        assert(fsig =~= header_array_sig());
    }
    match encode_val(&mut out, &field_array, Ghost(fsig), Ghost(0)) {
        Ok(()) => {},
        Err(_) => {
            return Err(Error::TooLarge);
        },
    }
    proof {
        assert(field_array@ matches AbsValue::Array(es2, fs) && fs == fields_rep(*m));
        assert(sig_of(field_array@).len() == 5);
        assert forall|k: int| 0 <= k < h12.len() implies out@[k] == h12[k] by {
            assert(out@.subrange(0, h12.len() as int)[k] == h12[k]);
        }
        lemma_uint_at_frame(h12, out@, 4, 4, Endian::Little);
        lemma_uint_at_frame(h12, out@, 8, 4, Endian::Little);
    }
    let out = attach_body(out, body_bytes, Ghost(*m));
    Ok(out)
}

/// Pads the frame to the eight-byte boundary and appends the encoded
/// body, preserving the meaning of everything already written.
#[verifier::rlimit(100)]
#[verifier::spinoff_prover]
fn attach_body(out: Vec<u8>, body_bytes: Vec<u8>, m: Ghost<Message>) -> (r: Vec<u8>)
    requires
        out@.len() >= 13,
        out@[0] == 108u8,
        out@[1] == spec_kind_code(m@.kind),
        out@[2] == 0u8,
        out@[3] == 1u8,
        crate::wire::le_at(out@, 4, 4) == body_bytes@.len(),
        crate::wire::le_at(out@, 8, 4) == m@.serial,
        dec_val(out@, 12, header_array_sig(), 0, Endian::Little) matches Some(t) && t.1
            == out@.len() && (t.0 matches AbsValue::Array(es2, fs) && fs == fields_rep(m@)),
        dec_body(body_bytes@, 0, sig_of_seq(abs_seq(m@.body@)), 0, Endian::Little) == Some(
            (abs_seq(m@.body@), body_bytes@.len() as int),
        ),
    ensures
        r@.len() >= 16,
        r@[0] == 108u8,
        r@[1] == spec_kind_code(m@.kind),
        r@[2] == 0u8,
        r@[3] == 1u8,
        uint_at(r@, 8, 4, Endian::Little) == m@.serial,
        dec_val(r@, 12, header_array_sig(), 0, Endian::Little) matches Some(t) && ({
            let bstart = crate::wire::align_up(t.1, 8);
            &&& (t.0 matches AbsValue::Array(es2, fs) && fs == fields_rep(m@))
            &&& bstart <= r@.len()
            &&& uint_at(r@, 4, 4, Endian::Little) == r@.len() - bstart
            &&& dec_body(
                r@.subrange(bstart, r@.len() as int),
                0,
                sig_of_seq(abs_seq(m@.body@)),
                0,
                Endian::Little,
            ) == Some((abs_seq(m@.body@), (r@.len() - bstart) as int))
        }),
{
    let ghost hf = out@;
    let mut out = out;
    pad_to(&mut out, 8);
    let ghost before_body = out@;
    proof {
        crate::wire::lemma_align_up(hf.len() as int, 8);
        assert(before_body[0] == 108u8 && before_body[1] == spec_kind_code(m@.kind)
            && before_body[2] == 0u8 && before_body[3] == 1u8 && before_body.len() >= 16) by {
            assert(before_body.subrange(0, hf.len() as int)[0] == hf[0]);
            assert(before_body.subrange(0, hf.len() as int)[1] == hf[1]);
            assert(before_body.subrange(0, hf.len() as int)[2] == hf[2]);
            assert(before_body.subrange(0, hf.len() as int)[3] == hf[3]);
            assert(before_body.len() % 8 == 0 && before_body.len() >= 13);
        }
    }
    let mut j: usize = 0;
    let blen = body_bytes.len();
    while j < blen
        invariant
            j <= blen == body_bytes@.len(),
            out@ == before_body + body_bytes@.subrange(0, j as int),
            before_body.len() >= 16,
        decreases blen - j,
    {
        out.push(body_bytes[j]);
        proof {
            assert(body_bytes@.subrange(0, j + 1int) =~= body_bytes@.subrange(0, j as int)
                + seq![body_bytes@[j as int]]);
            assert(out@ =~= before_body + body_bytes@.subrange(0, j + 1int));
        }
        j = j + 1;
    }
    proof {
        let b = out@;
        assert(b == before_body + body_bytes@.subrange(0, blen as int));
        assert(body_bytes@.subrange(0, blen as int) =~= body_bytes@);
        assert forall|k: int| 0 <= k < before_body.len() implies b[k] == before_body[k] by {}
        assert forall|k: int| 0 <= k < hf.len() implies before_body[k] == hf[k] by {
            assert(before_body.subrange(0, hf.len() as int)[k] == hf[k]);
        }
        assert(crate::wire::le_at(hf, 4, 4) == body_bytes@.len());
        lemma_uint_at_frame(hf, b, 4, 4, Endian::Little);
        assert(crate::wire::le_at(hf, 8, 4) == m@.serial as nat);
        lemma_uint_at_frame(hf, b, 8, 4, Endian::Little);
        crate::codec::lemma_dec_val_frame(hf, b, 12, header_array_sig(), 0, Endian::Little);
        assert(dec_val(b, 12, header_array_sig(), 0, Endian::Little) matches Some(t) && t.1
            == hf.len());
        crate::wire::lemma_align_up(hf.len() as int, 8);
        assert(crate::wire::align_up(hf.len() as int, 8) == before_body.len());
        assert(b.subrange(before_body.len() as int, b.len() as int) =~= body_bytes@);
        assert(uint_at(b, 4, 4, Endian::Little) == b.len() - before_body.len());
    }
    out
}

/// The element signature of the header field array: `(yv)`.
fn header_field_sig() -> (r: Vec<u8>)
    ensures
        r@ == seq![40u8, TC_BYTE, TC_VARIANT, 41u8],
{
    let mut r: Vec<u8> = Vec::new();
    r.push(40);  // (
    r.push(TC_BYTE);
    r.push(TC_VARIANT);
    r.push(41);  // )
    proof {
        assert(r@ =~= seq![40u8, TC_BYTE, TC_VARIANT, 41u8]);
    }
    r
}

/// Parses a framed message: fixed header, header field array, body bytes
/// decoded under the declared body signature in the declared byte order.
#[verifier::rlimit(100)]
#[verifier::spinoff_prover]
pub fn parse_message(d: &Vec<u8>) -> (r: Result<Message, Error>)
    ensures
        r matches Ok(m) ==> ({
            let e = if d@[0] == 108 {
                Endian::Little
            } else {
                Endian::Big
            };
            &&& d@.len() >= 16
            &&& (d@[0] == 108 || d@[0] == 66)
            &&& d@[1] == spec_kind_code(m.kind)
            &&& d@[3] == 1
            &&& m.serial == uint_at(d@, 8, 4, e) as u32
            &&& (dec_val(d@, 12, header_array_sig(), 0, e) matches Some(t) && ({
                let fs = t.0->Array_1;
                &&& t.0 is Array
                &&& opt_str_is(m.path, last_path_field(fs))
                &&& opt_str_is(m.interface, last_string_field(fs, 2))
                &&& opt_str_is(m.member, last_string_field(fs, 3))
                &&& opt_str_is(m.error_name, last_string_field(fs, 4))
                &&& m.reply_serial == last_u32_field(fs)
                &&& opt_str_is(m.destination, last_string_field(fs, 6))
                &&& opt_str_is(m.sender, last_string_field(fs, 7))
                &&& ({
                    let bstart = crate::wire::align_up(t.1, 8);
                    let blen = uint_at(d@, 4, 4, e) as int;
                    let bsig = match last_sig_field(fs) {
                        Some(g) => g,
                        None => Seq::<u8>::empty(),
                    };
                    &&& bstart + blen <= d@.len()
                    &&& dec_body(d@.subrange(bstart, bstart + blen), 0, bsig, 0, e) == Some(
                        (abs_seq(m.body@), blen),
                    )
                })
            }))
        }),
{
    if d.len() < 16 {
        return Err(Error::UnexpectedEndOfData);
    }
    let e = if d[0] == 108 {
        Endian::Little
    } else if d[0] == 66 {
        Endian::Big
    } else {
        return Err(Error::UnexpectedEndOfData);
    };
    let kind = match d[1] {
        1 => MessageKind::Call,
        2 => MessageKind::Reply,
        3 => MessageKind::Error,
        4 => MessageKind::Signal,
        _ => {
            return Err(Error::UnexpectedEndOfData);
        },
    };
    if d[3] != 1 {
        return Err(Error::UnexpectedEndOfData);
    }
    let body_len64 = read_uint(d, 4, 4, e);
    proof {
        lemma_uint_at_bound(d@, 4, 4, e);
        lemma_pow256_values();
    }
    let body_len = body_len64 as usize;
    let serial64 = read_uint(d, 8, 4, e);
    proof {
        lemma_uint_at_bound(d@, 8, 4, e);
    }
    let serial = serial64 as u32;
    let mut asig: Vec<u8> = Vec::new();
    asig.push(97);  // a
    asig.push(40);  // (
    asig.push(TC_BYTE);
    asig.push(TC_VARIANT);
    asig.push(41);  // )
    proof {
        assert(asig@ =~= header_array_sig());
    }
    let (fields_value, after_fields, _si) = decode_val(d, 12, &asig, 0, e)?;
    let pad = (8 - (after_fields % 8)) % 8;
    if pad > d.len() - after_fields {
        return Err(Error::UnexpectedEndOfData);
    }
    let body_start = after_fields + pad;
    proof {
        crate::wire::lemma_align_up(after_fields as int, 8);
        assert(body_start as int == crate::wire::align_up(after_fields as int, 8));
    }
    if body_len > d.len() - body_start {
        return Err(Error::UnexpectedEndOfData);
    }
    let mut body_bytes: Vec<u8> = Vec::new();
    let mut j = body_start;
    let body_end = body_start + body_len;
    proof {
        assert(d@.subrange(body_start as int, body_start as int) =~= Seq::empty());
    }
    while j < body_end
        invariant
            body_start <= j <= body_end <= d@.len(),
            body_bytes@ == d@.subrange(body_start as int, j as int),
        decreases body_end - j,
    {
        body_bytes.push(d[j]);
        proof {
            assert(d@.subrange(body_start as int, j + 1int) =~= d@.subrange(
                body_start as int,
                j as int,
            ) + seq![d@[j as int]]);
        }
        j = j + 1;
    }
    let mut m = Message {
        kind,
        serial,
        path: None,
        interface: None,
        member: None,
        error_name: None,
        reply_serial: None,
        destination: None,
        sender: None,
        body: Vec::new(),
    };
    let mut body_sig: Vec<u8> = Vec::new();
    let ghost fs_whole = fields_value@;
    match fields_value {
        Value::Array(_, items) => {
            let ghost items0 = items@;
            let ghost abs0 = abs_seq(items@);
            proof {
                lemma_abs_seq(items@);
                assert(fs_whole->Array_1 == abs0);
                assert(abs0.subrange(0, 0) =~= Seq::<AbsValue>::empty());
            }
            let mut items = items;
            let n = items.len();
            let ghost kind0 = m.kind;
            let ghost serial0 = m.serial;
            let mut k: usize = 0;
            while k < n
                invariant
                    k <= n == items0.len() == abs0.len(),
                    abs0 == abs_seq(items0),
                    items@ == items0.subrange(k as int, n as int),
                    m.kind == kind0,
                    m.serial == serial0,
                    m.body@.len() == 0,
                    opt_str_is(m.path, last_path_field(abs0.subrange(0, k as int))),
                    opt_str_is(m.interface, last_string_field(abs0.subrange(0, k as int), 2)),
                    opt_str_is(m.member, last_string_field(abs0.subrange(0, k as int), 3)),
                    opt_str_is(m.error_name, last_string_field(abs0.subrange(0, k as int), 4)),
                    m.reply_serial == last_u32_field(abs0.subrange(0, k as int)),
                    opt_str_is(m.destination, last_string_field(abs0.subrange(0, k as int), 6)),
                    opt_str_is(m.sender, last_string_field(abs0.subrange(0, k as int), 7)),
                    (match last_sig_field(abs0.subrange(0, k as int)) {
                        Some(g) => body_sig@ == g,
                        None => body_sig@.len() == 0,
                    }),
                decreases n - k,
            {
                let ghost ipre = items@;
                let entry = items.remove(0);
                let ghost e0 = entry;
                proof {
                    assert(ipre[0] == items0[k as int]);
                    assert(items@ =~= items0.subrange(k + 1, n as int));
                    lemma_abs_seq(items0);
                    assert(abs0[k as int] == e0@);
                    assert(abs0.subrange(0, k + 1int).last() == abs0[k as int]);
                    assert(abs0.subrange(0, k + 1int).drop_last() =~= abs0.subrange(0, k as int));
                }
                match entry {
                    Value::Struct(parts) => {
                        let ghost parts0 = parts@;
                        proof {
                            lemma_abs_seq(parts0);
                            assert(e0@ == AbsValue::Struct(abs_seq(parts0)));
                        }
                        if parts.len() != 2 {
                            return Err(Error::UnexpectedEndOfData);
                        }
                        let mut parts = parts;
                        let code_v = parts.remove(0);
                        let val_v = parts.remove(0);
                        proof {
                            assert(code_v == parts0[0] && val_v == parts0[1]);
                            assert(abs_seq(parts0)[0] == parts0[0]@);
                            assert(abs_seq(parts0)[1] == parts0[1]@);
                        }
                        let code = match code_v {
                            Value::Byte(c) => c,
                            _ => {
                                return Err(Error::UnexpectedEndOfData);
                            },
                        };
                        let inner = match val_v {
                            Value::Variant(b) => *b,
                            _ => {
                                return Err(Error::UnexpectedEndOfData);
                            },
                        };
                        let ghost inner0 = inner;
                        proof {
                            assert(field_code_of(abs0[k as int]) == Some((code, inner0@)));
                            crate::value::lemma_view_shape(&inner0);
                        }
                        match (code, inner) {
                            (1, Value::ObjectPath(p)) => {
                                m.path = Some(p);
                            },
                            (2, Value::Str(x)) => {
                                m.interface = Some(x);
                            },
                            (3, Value::Str(x)) => {
                                m.member = Some(x);
                            },
                            (4, Value::Str(x)) => {
                                m.error_name = Some(x);
                            },
                            (5, Value::Uint32(x)) => {
                                m.reply_serial = Some(x);
                            },
                            (6, Value::Str(x)) => {
                                m.destination = Some(x);
                            },
                            (7, Value::Str(x)) => {
                                m.sender = Some(x);
                            },
                            (8, Value::Signature(g)) => {
                                body_sig = g;
                            },
                            _ => {},  // unknown fields are ignored
                        }
                    },
                    _ => {
                        return Err(Error::UnexpectedEndOfData);
                    },
                }
                k = k + 1;
            }
            proof {
                assert(abs0.subrange(0, n as int) =~= abs0);
            }
        },
        _ => {
            return Err(Error::UnexpectedEndOfData);
        },
    }
    proof {
        assert(body_bytes@ == d@.subrange(body_start as int, body_start as int + body_len));
    }
    m.body = decode_body(&body_bytes, &body_sig, e)?;
    proof {
        if last_sig_field(fs_whole->Array_1) is None {
            assert(body_sig@ =~= Seq::<u8>::empty());
        }
    }
    Ok(m)
}

} // verus!
