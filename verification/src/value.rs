//! The decoded, language-native representation of a wire value, and its
//! mathematical model.
//!
//! [`Value`] has one variant per wire type code; containers hold ordered
//! sequences of nested values.  [`AbsValue`] is the ghost mirror that the
//! contracts speak of: strings become sequences of characters, vectors
//! become sequences, and boxes disappear.  A double travels as its IEEE-754
//! bit pattern, which keeps the kernel free of floating point while the
//! wire layout stays intact.

use vstd::prelude::*;
use crate::signature::{
    is_basic_code, sig_valid, sig_single, elem_sig_ok, single_end, find_single_end, SIG_MAX_LEN,
    TC_BYTE, TC_BOOL, TC_INT16, TC_UINT16, TC_INT32, TC_UINT32, TC_INT64, TC_UINT64, TC_DOUBLE,
    TC_STRING, TC_PATH, TC_SIG, TC_VARIANT, TC_ARRAY, TC_STRUCT_OPEN, TC_STRUCT_CLOSE,
    TC_DICT_OPEN, TC_DICT_CLOSE,
};

verus! {

/// A decoded wire value.  The set of representable types is closed: exactly
/// the wire type codes.
#[derive(Debug, PartialEq)]
pub enum Value {
    /// 8-bit unsigned integer (`y`).
    Byte(u8),
    /// Boolean (`b`), marshaled as a 32-bit 0 or 1.
    Boolean(bool),
    /// 16-bit signed integer (`n`).
    Int16(i16),
    /// 16-bit unsigned integer (`q`).
    Uint16(u16),
    /// 32-bit signed integer (`i`).
    Int32(i32),
    /// 32-bit unsigned integer (`u`).
    Uint32(u32),
    /// 64-bit signed integer (`x`).
    Int64(i64),
    /// 64-bit unsigned integer (`t`).
    Uint64(u64),
    /// IEEE-754 double (`d`), carried as its raw bit pattern.
    Double(u64),
    /// UTF-8 string (`s`).
    Str(String),
    /// Object path (`o`): a hierarchical name of a remote object.
    ObjectPath(String),
    /// Type signature (`g`).
    Signature(Vec<u8>),
    /// Array (`a`): the element signature, then the items, each of exactly
    /// that type.
    Array(Vec<u8>, Vec<Value>),
    /// Structure (`(...)`): one or more fields of arbitrary types.
    Struct(Vec<Value>),
    /// Dict entry (`{kv}`): a key of a basic type and a value.
    DictEntry(Box<Value>, Box<Value>),
    /// Variant (`v`): a boxed value carrying its own signature on the wire.
    Variant(Box<Value>),
}

/// The mathematical model of a [`Value`].
pub enum AbsValue {
    Byte(u8),
    Boolean(bool),
    Int16(i16),
    Uint16(u16),
    Int32(i32),
    Uint32(u32),
    Int64(i64),
    Uint64(u64),
    Double(u64),
    Str(Seq<char>),
    ObjectPath(Seq<char>),
    Signature(Seq<u8>),
    Array(Seq<u8>, Seq<AbsValue>),
    Struct(Seq<AbsValue>),
    DictEntry(Box<AbsValue>, Box<AbsValue>),
    Variant(Box<AbsValue>),
}

impl View for Value {
    type V = AbsValue;

    open spec fn view(&self) -> AbsValue
        decreases self,
    {
        match self {
            Value::Byte(x) => AbsValue::Byte(*x),
            Value::Boolean(x) => AbsValue::Boolean(*x),
            Value::Int16(x) => AbsValue::Int16(*x),
            Value::Uint16(x) => AbsValue::Uint16(*x),
            Value::Int32(x) => AbsValue::Int32(*x),
            Value::Uint32(x) => AbsValue::Uint32(*x),
            Value::Int64(x) => AbsValue::Int64(*x),
            Value::Uint64(x) => AbsValue::Uint64(*x),
            Value::Double(x) => AbsValue::Double(*x),
            Value::Str(s) => AbsValue::Str(s@),
            Value::ObjectPath(s) => AbsValue::ObjectPath(s@),
            Value::Signature(s) => AbsValue::Signature(s@),
            Value::Array(es, items) => AbsValue::Array(es@, abs_seq(items@)),
            Value::Struct(items) => AbsValue::Struct(abs_seq(items@)),
            Value::DictEntry(k, v) => AbsValue::DictEntry(Box::new((**k)@), Box::new((**v)@)),
            Value::Variant(b) => AbsValue::Variant(Box::new((**b)@)),
        }
    }
}

/// The model of a sequence of values, elementwise.
pub open spec fn abs_seq(items: Seq<Value>) -> Seq<AbsValue>
    decreases items,
{
    if items.len() == 0 {
        Seq::empty()
    } else {
        seq![items[0]@] + abs_seq(items.subrange(1, items.len() as int))
    }
}

/// `abs_seq` maps elementwise.
pub proof fn lemma_abs_seq(items: Seq<Value>)
    ensures
        abs_seq(items).len() == items.len(),
        forall|k: int| 0 <= k < items.len() ==> abs_seq(items)[k] == #[trigger] items[k]@,
    decreases items,
{
    if items.len() > 0 {
        let tail = items.subrange(1, items.len() as int);
        lemma_abs_seq(tail);
        assert(abs_seq(items) == seq![items[0]@] + abs_seq(tail));
        assert forall|k: int| 0 <= k < items.len() implies abs_seq(items)[k] == #[trigger] items[k]@ by {
            if k > 0 {
                assert(abs_seq(items)[k] == abs_seq(tail)[k - 1]);
                assert(tail[k - 1] == items[k]);
            }
        }
    }
}

/// The signature describing a model value: one complete type.
pub open spec fn sig_of(a: AbsValue) -> Seq<u8>
    decreases a,
{
    match a {
        AbsValue::Byte(_) => seq![TC_BYTE],
        AbsValue::Boolean(_) => seq![TC_BOOL],
        AbsValue::Int16(_) => seq![TC_INT16],
        AbsValue::Uint16(_) => seq![TC_UINT16],
        AbsValue::Int32(_) => seq![TC_INT32],
        AbsValue::Uint32(_) => seq![TC_UINT32],
        AbsValue::Int64(_) => seq![TC_INT64],
        AbsValue::Uint64(_) => seq![TC_UINT64],
        AbsValue::Double(_) => seq![TC_DOUBLE],
        AbsValue::Str(_) => seq![TC_STRING],
        AbsValue::ObjectPath(_) => seq![TC_PATH],
        AbsValue::Signature(_) => seq![TC_SIG],
        AbsValue::Array(es, _) => seq![TC_ARRAY] + es,
        AbsValue::Struct(items) => seq![TC_STRUCT_OPEN] + sig_of_seq(items) + seq![
            TC_STRUCT_CLOSE,
        ],
        AbsValue::DictEntry(k, v) => seq![TC_DICT_OPEN] + sig_of(*k) + sig_of(*v) + seq![
            TC_DICT_CLOSE,
        ],
        AbsValue::Variant(_) => seq![TC_VARIANT],
    }
}

/// Concatenated signatures of a sequence of model values.
pub open spec fn sig_of_seq(items: Seq<AbsValue>) -> Seq<u8>
    decreases items,
{
    if items.len() == 0 {
        Seq::empty()
    } else {
        sig_of(items[0]) + sig_of_seq(items.subrange(1, items.len() as int))
    }
}

/// Whether a model value is of a basic (non-container) type, as a dict key
/// must be.
pub open spec fn is_basic_val(a: AbsValue) -> bool {
    match a {
        AbsValue::Byte(_) => true,
        AbsValue::Boolean(_) => true,
        AbsValue::Int16(_) => true,
        AbsValue::Uint16(_) => true,
        AbsValue::Int32(_) => true,
        AbsValue::Uint32(_) => true,
        AbsValue::Int64(_) => true,
        AbsValue::Uint64(_) => true,
        AbsValue::Double(_) => true,
        AbsValue::Str(_) => true,
        AbsValue::ObjectPath(_) => true,
        AbsValue::Signature(_) => true,
        _ => false,
    }
}

/// Well-formedness of a model value: every signature it carries is valid,
/// arrays are homogeneous, structures are non-empty, dict keys are basic,
/// and a variant's content has a boxable signature.
pub open spec fn wf_val(a: AbsValue) -> bool
    decreases a,
{
    match a {
        AbsValue::Signature(s) => sig_valid(s),
        AbsValue::Array(es, items) => elem_sig_ok(es) && forall|k: int|
            0 <= k < items.len() ==> wf_val(#[trigger] items[k]) && sig_of(items[k]) == es,
        AbsValue::Struct(items) => items.len() >= 1 && forall|k: int|
            0 <= k < items.len() ==> wf_val(#[trigger] items[k]),
        AbsValue::DictEntry(k, v) => is_basic_val(*k) && wf_val(*k) && wf_val(*v),
        AbsValue::Variant(b) => wf_val(*b) && sig_single(sig_of(*b)),
        _ => true,
    }
}

/// Alignment in bytes that a type code demands of its first byte, counted
/// from the start of the encoded unit.
pub open spec fn align_of_code(c: u8) -> int {
    if c == TC_BYTE || c == TC_SIG || c == TC_VARIANT {
        1
    } else if c == TC_INT16 || c == TC_UINT16 {
        2
    } else if c == TC_BOOL || c == TC_INT32 || c == TC_UINT32 || c == TC_STRING || c == TC_PATH
        || c == TC_ARRAY {
        4
    } else {
        8
    }
}

/// Exec mirror of [`align_of_code`].
pub fn alignment_of(c: u8) -> (r: usize)
    ensures
        r as int == align_of_code(c),
        1 <= r <= 8,
{
    if c == TC_BYTE || c == TC_SIG || c == TC_VARIANT {
        1
    } else if c == TC_INT16 || c == TC_UINT16 {
        2
    } else if c == TC_BOOL || c == TC_INT32 || c == TC_UINT32 || c == TC_STRING || c == TC_PATH
        || c == TC_ARRAY {
        4
    } else {
        8
    }
}

impl Value {
    /// Composes the signature describing this value, one complete type.
    pub fn signature(&self) -> (r: Vec<u8>)
        ensures
            r@ == sig_of(self@),
        decreases self,
    {
        match self {
            Value::Byte(_) => make_code(TC_BYTE),
            Value::Boolean(_) => make_code(TC_BOOL),
            Value::Int16(_) => make_code(TC_INT16),
            Value::Uint16(_) => make_code(TC_UINT16),
            Value::Int32(_) => make_code(TC_INT32),
            Value::Uint32(_) => make_code(TC_UINT32),
            Value::Int64(_) => make_code(TC_INT64),
            Value::Uint64(_) => make_code(TC_UINT64),
            Value::Double(_) => make_code(TC_DOUBLE),
            Value::Str(_) => make_code(TC_STRING),
            Value::ObjectPath(_) => make_code(TC_PATH),
            Value::Signature(_) => make_code(TC_SIG),
            Value::Array(es, _) => {
                let mut r = make_code(TC_ARRAY);
                let mut j: usize = 0;
                while j < es.len()
                    invariant
                        j <= es@.len(),
                        r@ == seq![TC_ARRAY] + es@.subrange(0, j as int),
                    decreases es@.len() - j,
                {
                    r.push(es[j]);
                    assert(es@.subrange(0, j + 1int) =~= es@.subrange(0, j as int) + seq![
                        es@[j as int],
                    ]);
                    j = j + 1;
                }
                assert(es@.subrange(0, es@.len() as int) =~= es@);
                r
            },
            Value::Struct(items) => {
                let mut r = make_code(TC_STRUCT_OPEN);
                let mut j: usize = 0;
                while j < items.len()
                    invariant
                        j <= items@.len(),
                        *self == Value::Struct(*items),
                        r@ == seq![TC_STRUCT_OPEN] + sig_of_seq(abs_seq(items@).subrange(
                            0,
                            j as int,
                        )),
                    decreases items@.len() - j,
                {
                    proof {
                        lemma_abs_seq(items@);
                        assert(*items == self->Struct_0);
                        assert(decreases_to!(*self => self->Struct_0));
                        assert(decreases_to!(*items => items@));
                        assert(decreases_to!(items@ => items@[j as int]));
                    }
                    let mut m = items[j].signature();
                    r.append(&mut m);
                    proof {
                        lemma_sig_of_seq_snoc(abs_seq(items@), j as int);
                    }
                    j = j + 1;
                }
                proof {
                    lemma_abs_seq(items@);
                    assert(abs_seq(items@).subrange(0, items@.len() as int) =~= abs_seq(items@));
                }
                r.push(TC_STRUCT_CLOSE);
                r
            },
            Value::DictEntry(k, v) => {
                let mut r = make_code(TC_DICT_OPEN);
                let mut ks = k.signature();
                let mut vs = v.signature();
                r.append(&mut ks);
                r.append(&mut vs);
                r.push(TC_DICT_CLOSE);
                r
            },
            Value::Variant(_) => make_code(TC_VARIANT),
        }
    }
}

/// A one-byte signature.
fn make_code(c: u8) -> (r: Vec<u8>)
    ensures
        r@ == seq![c],
{
    let mut r: Vec<u8> = Vec::new();
    r.push(c);
    r
}

/// Appending one value extends the concatenated signature by that value's
/// signature.
pub proof fn lemma_sig_of_seq_snoc(items: Seq<AbsValue>, j: int)
    requires
        0 <= j < items.len(),
    ensures
        sig_of_seq(items.subrange(0, j + 1)) == sig_of_seq(items.subrange(0, j)) + sig_of(
            items[j],
        ),
    decreases j,
{
    let pre = items.subrange(0, j + 1);
    if j == 0 {
        assert(sig_of_seq(Seq::<AbsValue>::empty()) =~= Seq::<u8>::empty());
        assert(pre.subrange(1, pre.len() as int) =~= Seq::<AbsValue>::empty());
        assert(items.subrange(0, 0) =~= Seq::<AbsValue>::empty());
        assert(pre[0] == items[0]);
        assert(sig_of_seq(pre) == sig_of(pre[0]) + sig_of_seq(pre.subrange(1, pre.len() as int)));
        assert(sig_of(items[0]) + Seq::<u8>::empty() =~= sig_of(items[0]));
        assert(Seq::<u8>::empty() + sig_of(items[0]) =~= sig_of(items[0]));
    } else {
        let tail = items.subrange(1, items.len() as int);
        lemma_sig_of_seq_snoc(tail, j - 1);
        assert(pre.subrange(1, pre.len() as int) =~= tail.subrange(0, j));
        assert(items.subrange(0, j).subrange(1, j) =~= tail.subrange(0, j - 1));
        assert(tail.subrange(0, j - 1 + 1) =~= tail.subrange(0, j));
        assert(tail[j - 1] == items[j]);
        assert(sig_of_seq(pre) == sig_of(items[0]) + sig_of_seq(tail.subrange(0, j)));
        assert(sig_of_seq(items.subrange(0, j)) == sig_of(items[0]) + sig_of_seq(
            tail.subrange(0, j - 1),
        ));
        assert(sig_of(items[0]) + (sig_of_seq(tail.subrange(0, j - 1)) + sig_of(items[j]))
            =~= (sig_of(items[0]) + sig_of_seq(tail.subrange(0, j - 1))) + sig_of(items[j]));
    }
}


/// The view keeps each value's constructor: a wire value is of one shape
/// exactly, and its model is of the same shape.
pub proof fn lemma_view_shape(v: &Value)
    ensures
        (*v is Byte) == (v@ is Byte),
        (*v is Boolean) == (v@ is Boolean),
        (*v is Int16) == (v@ is Int16),
        (*v is Uint16) == (v@ is Uint16),
        (*v is Int32) == (v@ is Int32),
        (*v is Uint32) == (v@ is Uint32),
        (*v is Int64) == (v@ is Int64),
        (*v is Uint64) == (v@ is Uint64),
        (*v is Double) == (v@ is Double),
        (*v is Str) == (v@ is Str),
        (*v is ObjectPath) == (v@ is ObjectPath),
        (*v is Signature) == (v@ is Signature),
        (*v is Array) == (v@ is Array),
        (*v is Struct) == (v@ is Struct),
        (*v is DictEntry) == (v@ is DictEntry),
        (*v is Variant) == (v@ is Variant),
{
    match v {
        Value::Byte(_) => {},
        Value::Boolean(_) => {},
        Value::Int16(_) => {},
        Value::Uint16(_) => {},
        Value::Int32(_) => {},
        Value::Uint32(_) => {},
        Value::Int64(_) => {},
        Value::Uint64(_) => {},
        Value::Double(_) => {},
        Value::Str(_) => {},
        Value::ObjectPath(_) => {},
        Value::Signature(_) => {},
        Value::Array(_, _) => {},
        Value::Struct(_) => {},
        Value::DictEntry(_, _) => {},
        Value::Variant(_) => {},
    }
}

/// Every complete type's signature holds at least one byte.
pub proof fn lemma_sig_of_nonempty(a: AbsValue)
    ensures
        sig_of(a).len() >= 1,
{
    match a {
        AbsValue::Byte(_) => {},
        AbsValue::Boolean(_) => {},
        AbsValue::Int16(_) => {},
        AbsValue::Uint16(_) => {},
        AbsValue::Int32(_) => {},
        AbsValue::Uint32(_) => {},
        AbsValue::Int64(_) => {},
        AbsValue::Uint64(_) => {},
        AbsValue::Double(_) => {},
        AbsValue::Str(_) => {},
        AbsValue::ObjectPath(_) => {},
        AbsValue::Signature(_) => {},
        AbsValue::Array(_, _) => {},
        AbsValue::Struct(_) => {},
        AbsValue::DictEntry(_, _) => {},
        AbsValue::Variant(_) => {},
    }
}

/// A body signature is at least as long as the body.
pub proof fn lemma_sig_of_seq_min(vs: Seq<AbsValue>)
    ensures
        sig_of_seq(vs).len() >= vs.len(),
    decreases vs,
{
    if vs.len() > 0 {
        lemma_sig_of_nonempty(vs[0]);
        lemma_sig_of_seq_min(vs.subrange(1, vs.len() as int));
    }
}

/// An empty body signature means an empty body.
pub proof fn lemma_sig_seq_empty(vs: Seq<AbsValue>)
    requires
        sig_of_seq(vs) == Seq::<u8>::empty(),
    ensures
        vs.len() == 0,
{
    lemma_sig_of_seq_min(vs);
}

/// A one-byte body signature means exactly one value, of that code.
pub proof fn lemma_sig_seq_single(vs: Seq<AbsValue>, c: u8)
    requires
        sig_of_seq(vs) == seq![c],
    ensures
        vs.len() == 1,
        sig_of(vs[0]) == seq![c],
{
    lemma_sig_of_seq_min(vs);
    if vs.len() == 0 {
        assert(sig_of_seq(vs) =~= Seq::<u8>::empty());
    } else {
        lemma_sig_of_nonempty(vs[0]);
        let tail = vs.subrange(1, vs.len() as int);
        lemma_sig_of_seq_min(tail);
        assert(sig_of_seq(vs) == sig_of(vs[0]) + sig_of_seq(tail));
        assert(sig_of_seq(tail) =~= Seq::<u8>::empty());
        assert(sig_of(vs[0]) + Seq::<u8>::empty() =~= sig_of(vs[0]));
        assert(sig_of(vs[0]) =~= seq![c]);
    }
}

/// A one-value body means its signature is that value's signature.
pub proof fn lemma_sig_seq_one(vs: Seq<AbsValue>)
    requires
        vs.len() == 1,
    ensures
        sig_of_seq(vs) == sig_of(vs[0]),
{
    assert(vs.subrange(1, 1) =~= Seq::<AbsValue>::empty());
    assert(sig_of_seq(Seq::<AbsValue>::empty()) =~= Seq::<u8>::empty());
    assert(sig_of(vs[0]) + Seq::<u8>::empty() =~= sig_of(vs[0]));
}

/// The first signature byte names the value's shape.
pub proof fn lemma_code_of_value(a: AbsValue)
    ensures
        sig_of(a)[0] == TC_STRING ==> a is Str,
        sig_of(a)[0] == TC_PATH ==> a is ObjectPath,
        sig_of(a)[0] == TC_SIG ==> a is Signature,
        sig_of(a)[0] == TC_VARIANT ==> a is Variant,
        sig_of(a)[0] == TC_ARRAY ==> a is Array,
        sig_of(a)[0] == TC_DICT_OPEN ==> a is DictEntry,
        sig_of(a)[0] == TC_STRUCT_OPEN ==> a is Struct,
{
    match a {
        AbsValue::Byte(_) => {},
        AbsValue::Boolean(_) => {},
        AbsValue::Int16(_) => {},
        AbsValue::Uint16(_) => {},
        AbsValue::Int32(_) => {},
        AbsValue::Uint32(_) => {},
        AbsValue::Int64(_) => {},
        AbsValue::Uint64(_) => {},
        AbsValue::Double(_) => {},
        AbsValue::Str(_) => {},
        AbsValue::ObjectPath(_) => {},
        AbsValue::Signature(_) => {},
        AbsValue::Array(_, _) => {
            assert(sig_of(a)[0] == TC_ARRAY);
        },
        AbsValue::Struct(_) => {},
        AbsValue::DictEntry(_, _) => {},
        AbsValue::Variant(_) => {},
    }
}

} // verus!
