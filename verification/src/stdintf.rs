//! The standard bus interfaces, and an easy way to call them: liveness
//! ping, introspection, property access, and object management, each a
//! thin typed surface over the call/reply correlator and the dynamic
//! value box.

use vstd::prelude::*;
use vstd::string::StringExecFns;
use crate::Error;
use crate::signature::{TC_STRING, TC_PATH, TC_VARIANT, TC_ARRAY, TC_DICT_OPEN, TC_DICT_CLOSE};
use crate::value::{
    Value, AbsValue, abs_seq, lemma_abs_seq, sig_of, sig_of_seq, lemma_view_shape,
    lemma_sig_seq_single, lemma_sig_seq_empty, lemma_code_of_value,
};
use crate::message::{Message, MessageKind};
use crate::connection::{Connection, first_answer, error_name_of, error_description};
use crate::variant::DynamicValue;

verus! {

/// A mapping from names to boxed dynamic values, as the property
/// interfaces use: association pairs with the wire's order kept.
pub type PropMap = Vec<(String, DynamicValue)>;

/// The wire model of a [`PropMap`]: dict entries from string to variant.
pub open spec fn rep_entries(m: Seq<(String, DynamicValue)>) -> Seq<AbsValue> {
    Seq::new(
        m.len(),
        |i: int|
            AbsValue::DictEntry(
                Box::new(AbsValue::Str(m[i].0@)),
                Box::new(AbsValue::Variant(Box::new(m[i].1.spec_value()@))),
            ),
    )
}

/// The wire model of a list of strings.
pub open spec fn rep_strings(xs: Seq<String>) -> Seq<AbsValue> {
    Seq::new(xs.len(), |i: int| AbsValue::Str(xs[i]@))
}

/// A dict entry from a string key to a variant value.
pub open spec fn prop_entry_shape(a: AbsValue) -> bool {
    a matches AbsValue::DictEntry(k, v) && *k is Str && *v is Variant
}

/// An array of [`prop_entry_shape`] entries with element signature
/// `{sv}`: the wire shape of a property mapping.
pub open spec fn prop_map_shape(a: AbsValue) -> bool {
    a matches AbsValue::Array(es, items) && es == seq![
        TC_DICT_OPEN,
        TC_STRING,
        TC_VARIANT,
        TC_DICT_CLOSE,
    ] && (forall|k: int| 0 <= k < items.len() ==> prop_entry_shape(#[trigger] items[k]))
}

/// `a` is the array holding exactly the wire model of `m`.
pub open spec fn rep_prop_map(a: AbsValue, m: Seq<(String, DynamicValue)>) -> bool {
    a matches AbsValue::Array(es, items) && items == rep_entries(m)
}

/// An array of strings, of element signature `s`.
pub open spec fn string_list_shape(a: AbsValue) -> bool {
    a matches AbsValue::Array(es, items) && es == seq![TC_STRING] && (forall|k: int|
        0 <= k < items.len() ==> (#[trigger] items[k]) is Str)
}

/// `a` is the array holding exactly the strings of `xs`.
pub open spec fn rep_string_list(a: AbsValue, xs: Seq<String>) -> bool {
    a matches AbsValue::Array(es, items) && items == rep_strings(xs)
}

/// A dict entry from an interface name to a property mapping.
pub open spec fn iface_entry_shape(a: AbsValue) -> bool {
    a matches AbsValue::DictEntry(k, v) && *k is Str && prop_map_shape(*v)
}

/// The element signature of an interface mapping: `{sa{sv}}`.
pub open spec fn iface_es() -> Seq<u8> {
    seq![
        TC_DICT_OPEN,
        TC_STRING,
        TC_ARRAY,
        TC_DICT_OPEN,
        TC_STRING,
        TC_VARIANT,
        TC_DICT_CLOSE,
        TC_DICT_CLOSE,
    ]
}

/// The wire shape of a mapping from interface name to property mapping,
/// of element signature `{sa{sv}}`.
pub open spec fn iface_map_shape(a: AbsValue) -> bool {
    a matches AbsValue::Array(es, items) && es == iface_es() && (forall|k: int|
        0 <= k < items.len() ==> iface_entry_shape(#[trigger] items[k]))
}

/// `a` holds exactly the two-level mapping `m`.
pub open spec fn rep_iface_map(a: AbsValue, m: Seq<(String, PropMap)>) -> bool {
    a matches AbsValue::Array(es, items) && items.len() == m.len() && (forall|k: int|
        0 <= k < m.len() ==> ((#[trigger] items[k]) matches AbsValue::DictEntry(kk, vv) && *kk
            == AbsValue::Str(m[k].0@) && rep_prop_map(*vv, m[k].1@)))
}

/// A dict entry from an object path to an interface mapping.
pub open spec fn object_entry_shape(a: AbsValue) -> bool {
    a matches AbsValue::DictEntry(k, v) && *k is ObjectPath && iface_map_shape(*v)
}

/// The element signature of the managed-objects mapping:
/// `{oa{sa{sv}}}`.
pub open spec fn objects_es() -> Seq<u8> {
    seq![TC_DICT_OPEN, TC_PATH] + seq![TC_ARRAY] + iface_es() + seq![TC_DICT_CLOSE]
}

/// The wire shape of the managed-objects mapping, three levels deep, of
/// element signature `{oa{sa{sv}}}`.
pub open spec fn objects_shape(a: AbsValue) -> bool {
    a matches AbsValue::Array(es, items) && es == objects_es() && (forall|k: int|
        0 <= k < items.len() ==> object_entry_shape(#[trigger] items[k]))
}

/// `a` holds exactly the three-level mapping `m`.
pub open spec fn rep_objects(a: AbsValue, m: Seq<(String, Vec<(String, PropMap)>)>) -> bool {
    a matches AbsValue::Array(es, items) && items.len() == m.len() && (forall|k: int|
        0 <= k < m.len() ==> ((#[trigger] items[k]) matches AbsValue::DictEntry(kk, vv) && *kk
            == AbsValue::ObjectPath(m[k].0@) && rep_iface_map(*vv, m[k].1@)))
}

/// The element signature bytes of an interface mapping: `{sa{sv}}`.
fn iface_es_vec() -> (r: Vec<u8>)
    ensures
        r@ == iface_es(),
{
    let mut r: Vec<u8> = Vec::new();
    r.push(TC_DICT_OPEN);
    r.push(TC_STRING);
    r.push(TC_ARRAY);
    r.push(TC_DICT_OPEN);
    r.push(TC_STRING);
    r.push(TC_VARIANT);
    r.push(TC_DICT_CLOSE);
    r.push(TC_DICT_CLOSE);
    proof {
        assert(r@ =~= iface_es());
    }
    r
}

/// The element signature bytes of the managed-objects mapping:
/// `{oa{sa{sv}}}`.
fn objects_es_vec() -> (r: Vec<u8>)
    ensures
        r@ == objects_es(),
{
    let mut r: Vec<u8> = Vec::new();
    r.push(TC_DICT_OPEN);
    r.push(TC_PATH);
    r.push(TC_ARRAY);
    r.push(TC_DICT_OPEN);
    r.push(TC_STRING);
    r.push(TC_ARRAY);
    r.push(TC_DICT_OPEN);
    r.push(TC_STRING);
    r.push(TC_VARIANT);
    r.push(TC_DICT_CLOSE);
    r.push(TC_DICT_CLOSE);
    r.push(TC_DICT_CLOSE);
    proof {
        assert(r@ =~= objects_es());
    }
    r
}

/// The element signature of a property mapping: `{sv}`.
pub fn sig_dict_sv() -> (r: Vec<u8>)
    ensures
        r@ == seq![TC_DICT_OPEN, TC_STRING, TC_VARIANT, TC_DICT_CLOSE],
{
    let mut r: Vec<u8> = Vec::new();
    r.push(TC_DICT_OPEN);
    r.push(TC_STRING);
    r.push(TC_VARIANT);
    r.push(TC_DICT_CLOSE);
    proof {
        assert(r@ =~= seq![TC_DICT_OPEN, TC_STRING, TC_VARIANT, TC_DICT_CLOSE]);
    }
    r
}

/// A one-code signature.
fn sig1(c: u8) -> (r: Vec<u8>)
    ensures
        r@ == seq![c],
{
    let mut r: Vec<u8> = Vec::new();
    r.push(c);
    r
}

/// Turns a property mapping into its wire value.
pub fn prop_map_to_value(m: PropMap) -> (r: Value)
    ensures
        r@ matches AbsValue::Array(es, items) && es == seq![
            TC_DICT_OPEN,
            TC_STRING,
            TC_VARIANT,
            TC_DICT_CLOSE,
        ] && items == rep_entries(m@),
        rep_prop_map(r@, m@),
        prop_map_shape(r@),
{
    let ghost m0 = m@;
    let mut m = m;
    let mut items: Vec<Value> = Vec::new();
    let n = m.len();
    let mut i: usize = 0;
    while i < n
        invariant
            i <= n == m0.len(),
            m@ == m0.subrange(i as int, n as int),
            items@.len() == i,
            forall|q: int| 0 <= q < i ==> (#[trigger] items@[q])@ == rep_entries(m0)[q],
        decreases n - i,
    {
        let ghost mpre = m@;
        let (name, dv) = m.remove(0);
        proof {
            assert(mpre[0] == m0[i as int]);
            assert(m@ =~= m0.subrange(i + 1, n as int));
        }
        let ghost dv0 = dv;
        let ghost name0 = name@;
        let own_sig = dv_sig_copy(&dv);
        let inner: Value = match dv.unbox_as(&own_sig) {
            Ok(v) => v,
            Err(_) => {
                proof {
                    assert(false);
                }
                Value::Boolean(false)
            },
        };
        let ghost inner0 = inner;
        let key_val = Value::Str(name);
        proof {
            assert(key_val@ == AbsValue::Str(name0));
        }
        let var_val = Value::Variant(Box::new(inner));
        proof {
            assert(var_val@ == AbsValue::Variant(Box::new(inner0@)));
        }
        let entry_val = Value::DictEntry(Box::new(key_val), Box::new(var_val));
        proof {
            assert(entry_val@ == AbsValue::DictEntry(
                Box::new(AbsValue::Str(name0)),
                Box::new(AbsValue::Variant(Box::new(inner0@))),
            ));
        }
        items.push(entry_val);
        proof {
            assert(inner0 == dv0.spec_value());
            assert(name0 == m0[i as int].0@);
            assert(dv0 == m0[i as int].1);
            assert(items@.last()@ == rep_entries(m0)[i as int]);
        }
        i = i + 1;
    }
    let es = sig_dict_sv();
    proof {
        lemma_abs_seq(items@);
        assert forall|q: int| 0 <= q < items@.len() implies abs_seq(items@)[q] == rep_entries(
            m0,
        )[q] by {
            assert(abs_seq(items@)[q] == items@[q]@);
        }
        assert(abs_seq(items@) =~= rep_entries(m0));
        assert forall|q: int|
            0 <= q < rep_entries(m0).len() implies prop_entry_shape(
            #[trigger] rep_entries(m0)[q],
        ) by {}
    }
    Value::Array(es, items)
}

/// A copy of the box's signature, so unboxing with it always succeeds.
fn dv_sig_copy(dv: &DynamicValue) -> (r: Vec<u8>)
    ensures
        r@ == dv.spec_sig(),
{
    let s = dv.signature();
    let mut r: Vec<u8> = Vec::new();
    let mut j: usize = 0;
    while j < s.len()
        invariant
            j <= s@.len(),
            r@ == s@.subrange(0, j as int),
            s@ == dv.spec_sig(),
        decreases s@.len() - j,
    {
        r.push(s[j]);
        proof {
            assert(s@.subrange(0, j + 1int) =~= s@.subrange(0, j as int) + seq![s@[j as int]]);
        }
        j = j + 1;
    }
    proof {
        assert(s@.subrange(0, s@.len() as int) =~= s@);
    }
    r
}

/// Reads a property mapping back out of its wire value: succeeds exactly
/// on the property-mapping shape, and then returns exactly its entries.
pub fn value_to_prop_map(v: Value) -> (r: Result<PropMap, Error>)
    ensures
        r is Ok <==> prop_map_shape(v@),
        r matches Ok(m) ==> rep_prop_map(v@, m@),
        r is Err ==> r->Err_0 is TypeMismatch,
{
    proof {
        lemma_view_shape(&v);
    }
    match v {
        Value::Array(es, items) => {
            if !crate::message::bytes_eq(&es, &sig_dict_sv()) {
                return Err(Error::TypeMismatch);
            }
            let ghost items0 = items@;
            let ghost abs0 = abs_seq(items@);
            proof {
                lemma_abs_seq(items@);
            }
            let mut items = items;
            let mut out: PropMap = Vec::new();
            let n = items.len();
            let mut i: usize = 0;
            while i < n
                invariant
                    i <= n == items0.len() == abs0.len(),
                    abs0 == abs_seq(items0),
                    v@ matches AbsValue::Array(ves, vits) && vits == abs0,
                    items@ == items0.subrange(i as int, n as int),
                    out@.len() == i,
                    forall|q: int| 0 <= q < i ==> prop_entry_shape(#[trigger] abs0[q]),
                    forall|q: int| 0 <= q < i ==> rep_entries(out@)[q] == abs0[q],
                decreases n - i,
            {
                let ghost ipre = items@;
                let entry = items.remove(0);
                let ghost e0 = entry;
                proof {
                    assert(ipre[0] == items0[i as int]);
                    assert(items@ =~= items0.subrange(i + 1, n as int));
                    lemma_abs_seq(items0);
                    assert(abs0[i as int] == e0@);
                    lemma_view_shape(&e0);
                }
                let ghost outpre = out@;
                match entry {
                    Value::DictEntry(k, val) => {
                        let ghost k0 = *k;
                        let ghost v0 = *val;
                        proof {
                            lemma_view_shape(&k0);
                            lemma_view_shape(&v0);
                        }
                        match (*k, *val) {
                            (Value::Str(name), Value::Variant(b)) => {
                                let ghost b0 = *b;
                                let dv = DynamicValue::box_value(*b);
                                out.push((name, dv));
                                proof {
                                    assert(rep_entries(out@)[i as int] == abs0[i as int]);
                                    assert forall|q: int| 0 <= q < i + 1 implies rep_entries(
                                        out@,
                                    )[q] == abs0[q] by {
                                        if q < i {
                                            assert(rep_entries(outpre)[q] == abs0[q]);
                                        }
                                    }
                                }
                            },
                            _ => {
                                proof {
                                    assert(!prop_entry_shape(abs0[i as int]));
                                    assert(v@->Array_1 == abs0);
                                    if prop_map_shape(v@) {
                                        assert(prop_entry_shape(v@->Array_1[i as int]));
                                    }
                                }
                                return Err(Error::TypeMismatch);
                            },
                        }
                    },
                    _ => {
                        proof {
                            assert(!prop_entry_shape(abs0[i as int]));
                            assert(v@->Array_1 == abs0);
                            if prop_map_shape(v@) {
                                assert(prop_entry_shape(v@->Array_1[i as int]));
                            }
                        }
                        return Err(Error::TypeMismatch);
                    },
                }
                i = i + 1;
            }
            proof {
                assert(rep_entries(out@) =~= abs0);
                assert(v@->Array_1 == abs0);
                assert forall|q: int|
                    0 <= q < abs0.len() implies prop_entry_shape(
                    #[trigger] v@->Array_1[q],
                ) by {
                    assert(prop_entry_shape(abs0[q]));
                }
            }
            Ok(out)
        },
        _ => Err(Error::TypeMismatch),
    }
}

/// Reads an array of strings out of its wire value: succeeds exactly on
/// that shape, returning exactly its strings.
pub fn value_to_string_list(v: Value) -> (r: Result<Vec<String>, Error>)
    ensures
        r is Ok <==> string_list_shape(v@),
        r matches Ok(xs) ==> rep_string_list(v@, xs@),
        r is Err ==> r->Err_0 is TypeMismatch,
{
    proof {
        lemma_view_shape(&v);
    }
    match v {
        Value::Array(es, items) => {
            if !crate::message::bytes_eq(&es, &sig1(TC_STRING)) {
                return Err(Error::TypeMismatch);
            }
            let ghost items0 = items@;
            let ghost abs0 = abs_seq(items@);
            proof {
                lemma_abs_seq(items@);
            }
            let mut items = items;
            let mut out: Vec<String> = Vec::new();
            let n = items.len();
            let mut i: usize = 0;
            while i < n
                invariant
                    i <= n == items0.len() == abs0.len(),
                    abs0 == abs_seq(items0),
                    v@ matches AbsValue::Array(ves, vits) && vits == abs0,
                    items@ == items0.subrange(i as int, n as int),
                    out@.len() == i,
                    forall|q: int| 0 <= q < i ==> (#[trigger] abs0[q]) is Str,
                    forall|q: int| 0 <= q < i ==> rep_strings(out@)[q] == abs0[q],
                decreases n - i,
            {
                let ghost ipre = items@;
                let entry = items.remove(0);
                let ghost e0 = entry;
                proof {
                    assert(ipre[0] == items0[i as int]);
                    assert(items@ =~= items0.subrange(i + 1, n as int));
                    lemma_abs_seq(items0);
                    assert(abs0[i as int] == e0@);
                    lemma_view_shape(&e0);
                }
                let ghost outpre = out@;
                match entry {
                    Value::Str(x) => {
                        out.push(x);
                        proof {
                            assert forall|q: int| 0 <= q < i + 1 implies rep_strings(out@)[q]
                                == abs0[q] by {
                                if q < i {
                                    assert(rep_strings(outpre)[q] == abs0[q]);
                                }
                            }
                        }
                    },
                    _ => {
                        proof {
                            assert(v@->Array_1 == abs0);
                            if string_list_shape(v@) {
                                assert(v@->Array_1[i as int] is Str);
                            }
                        }
                        return Err(Error::TypeMismatch);
                    },
                }
                i = i + 1;
            }
            proof {
                assert(rep_strings(out@) =~= abs0);
                assert(v@->Array_1 == abs0);
                assert forall|q: int| 0 <= q < abs0.len() implies (#[trigger] v@->Array_1[q])
                    is Str by {
                    assert(abs0[q] is Str);
                }
            }
            Ok(out)
        },
        _ => Err(Error::TypeMismatch),
    }
}

/// Reads a mapping from interface name to property mapping: succeeds
/// exactly on that shape, returning exactly its entries.
pub fn value_to_iface_map(v: Value) -> (r: Result<Vec<(String, PropMap)>, Error>)
    ensures
        r is Ok <==> iface_map_shape(v@),
        r matches Ok(m) ==> rep_iface_map(v@, m@),
        r is Err ==> r->Err_0 is TypeMismatch,
{
    proof {
        lemma_view_shape(&v);
    }
    match v {
        Value::Array(es, items) => {
            if !crate::message::bytes_eq(&es, &iface_es_vec()) {
                return Err(Error::TypeMismatch);
            }
            let ghost items0 = items@;
            let ghost abs0 = abs_seq(items@);
            proof {
                lemma_abs_seq(items@);
            }
            let mut items = items;
            let mut out: Vec<(String, PropMap)> = Vec::new();
            let n = items.len();
            let mut i: usize = 0;
            while i < n
                invariant
                    i <= n == items0.len() == abs0.len(),
                    abs0 == abs_seq(items0),
                    v@ matches AbsValue::Array(ves, vits) && vits == abs0,
                    items@ == items0.subrange(i as int, n as int),
                    out@.len() == i,
                    forall|q: int| 0 <= q < i ==> iface_entry_shape(#[trigger] abs0[q]),
                    forall|q: int|
                        0 <= q < i ==> ((#[trigger] abs0[q]) matches AbsValue::DictEntry(kk, vv)
                            && *kk == AbsValue::Str(out@[q].0@) && rep_prop_map(*vv, out@[q].1@)),
                decreases n - i,
            {
                let ghost ipre = items@;
                let entry = items.remove(0);
                let ghost e0 = entry;
                proof {
                    assert(ipre[0] == items0[i as int]);
                    assert(items@ =~= items0.subrange(i + 1, n as int));
                    lemma_abs_seq(items0);
                    assert(abs0[i as int] == e0@);
                    lemma_view_shape(&e0);
                }
                match entry {
                    Value::DictEntry(k, val) => {
                        let ghost k0 = *k;
                        let ghost v0 = *val;
                        proof {
                            lemma_view_shape(&k0);
                        }
                        match *k {
                            Value::Str(name) => {
                                match value_to_prop_map(*val) {
                                    Ok(props) => {
                                        out.push((name, props));
                                    },
                                    Err(e) => {
                                        proof {
                                            assert(!iface_entry_shape(abs0[i as int]));
                                            assert(v@->Array_1 == abs0);
                                            if iface_map_shape(v@) {
                                                assert(iface_entry_shape(v@->Array_1[i as int]));
                                            }
                                        }
                                        return Err(e);
                                    },
                                }
                            },
                            _ => {
                                proof {
                                    assert(!iface_entry_shape(abs0[i as int]));
                                    assert(v@->Array_1 == abs0);
                                    if iface_map_shape(v@) {
                                        assert(iface_entry_shape(v@->Array_1[i as int]));
                                    }
                                }
                                return Err(Error::TypeMismatch);
                            },
                        }
                    },
                    _ => {
                        proof {
                            assert(!iface_entry_shape(abs0[i as int]));
                            assert(v@->Array_1 == abs0);
                            if iface_map_shape(v@) {
                                assert(iface_entry_shape(v@->Array_1[i as int]));
                            }
                        }
                        return Err(Error::TypeMismatch);
                    },
                }
                i = i + 1;
            }
            proof {
                assert(v@->Array_1 == abs0);
                assert forall|q: int|
                    0 <= q < abs0.len() implies iface_entry_shape(
                    #[trigger] v@->Array_1[q],
                ) by {
                    assert(iface_entry_shape(abs0[q]));
                }
            }
            Ok(out)
        },
        _ => Err(Error::TypeMismatch),
    }
}

/// Reads the three-level managed-objects mapping: succeeds exactly on
/// that shape, returning exactly its entries.
pub fn value_to_managed_objects(v: Value) -> (r: Result<
    Vec<(String, Vec<(String, PropMap)>)>,
    Error,
>)
    ensures
        r is Ok <==> objects_shape(v@),
        r matches Ok(m) ==> rep_objects(v@, m@),
        r is Err ==> r->Err_0 is TypeMismatch,
{
    proof {
        lemma_view_shape(&v);
    }
    match v {
        Value::Array(es, items) => {
            if !crate::message::bytes_eq(&es, &objects_es_vec()) {
                return Err(Error::TypeMismatch);
            }
            let ghost items0 = items@;
            let ghost abs0 = abs_seq(items@);
            proof {
                lemma_abs_seq(items@);
            }
            let mut items = items;
            let mut out: Vec<(String, Vec<(String, PropMap)>)> = Vec::new();
            let n = items.len();
            let mut i: usize = 0;
            while i < n
                invariant
                    i <= n == items0.len() == abs0.len(),
                    abs0 == abs_seq(items0),
                    v@ matches AbsValue::Array(ves, vits) && vits == abs0,
                    items@ == items0.subrange(i as int, n as int),
                    out@.len() == i,
                    forall|q: int| 0 <= q < i ==> object_entry_shape(#[trigger] abs0[q]),
                    forall|q: int|
                        0 <= q < i ==> ((#[trigger] abs0[q]) matches AbsValue::DictEntry(kk, vv)
                            && *kk == AbsValue::ObjectPath(out@[q].0@) && rep_iface_map(
                            *vv,
                            out@[q].1@,
                        )),
                decreases n - i,
            {
                let ghost ipre = items@;
                let entry = items.remove(0);
                let ghost e0 = entry;
                proof {
                    assert(ipre[0] == items0[i as int]);
                    assert(items@ =~= items0.subrange(i + 1, n as int));
                    lemma_abs_seq(items0);
                    assert(abs0[i as int] == e0@);
                    lemma_view_shape(&e0);
                }
                match entry {
                    Value::DictEntry(k, val) => {
                        let ghost k0 = *k;
                        proof {
                            lemma_view_shape(&k0);
                        }
                        match *k {
                            Value::ObjectPath(path) => {
                                match value_to_iface_map(*val) {
                                    Ok(ifaces) => {
                                        out.push((path, ifaces));
                                    },
                                    Err(e) => {
                                        proof {
                                            assert(!object_entry_shape(abs0[i as int]));
                                            assert(v@->Array_1 == abs0);
                                            if objects_shape(v@) {
                                                assert(object_entry_shape(v@->Array_1[i as int]));
                                            }
                                        }
                                        return Err(e);
                                    },
                                }
                            },
                            _ => {
                                proof {
                                    assert(!object_entry_shape(abs0[i as int]));
                                    assert(v@->Array_1 == abs0);
                                    if objects_shape(v@) {
                                        assert(object_entry_shape(v@->Array_1[i as int]));
                                    }
                                }
                                return Err(Error::TypeMismatch);
                            },
                        }
                    },
                    _ => {
                        proof {
                            assert(!object_entry_shape(abs0[i as int]));
                            assert(v@->Array_1 == abs0);
                            if objects_shape(v@) {
                                assert(object_entry_shape(v@->Array_1[i as int]));
                            }
                        }
                        return Err(Error::TypeMismatch);
                    },
                }
                i = i + 1;
            }
            proof {
                assert(v@->Array_1 == abs0);
                assert forall|q: int|
                    0 <= q < abs0.len() implies object_entry_shape(
                    #[trigger] v@->Array_1[q],
                ) by {
                    assert(object_entry_shape(abs0[q]));
                }
            }
            Ok(out)
        },
        _ => Err(Error::TypeMismatch),
    }
}

/// The one string of a reply body, as introspection and the machine-id
/// call return: succeeds exactly on a one-string body.
pub fn reply_to_string(vals: Vec<Value>) -> (r: Result<String, Error>)
    ensures
        r is Ok <==> (vals@.len() == 1 && vals@[0]@ is Str),
        r matches Ok(s) ==> vals@[0]@ == AbsValue::Str(s@),
        r is Err ==> r->Err_0 is TypeMismatch,
{
    let mut vals = vals;
    if vals.len() != 1 {
        return Err(Error::TypeMismatch);
    }
    let ghost v0 = vals@;
    let first = vals.remove(0);
    proof {
        lemma_view_shape(&first);
    }
    match first {
        Value::Str(s) => Ok(s),
        _ => Err(Error::TypeMismatch),
    }
}

/// The one variant of a reply body, boxed: succeeds exactly on a
/// one-variant body.
pub fn reply_to_variant(vals: Vec<Value>) -> (r: Result<DynamicValue, Error>)
    ensures
        r is Ok <==> (vals@.len() == 1 && vals@[0]@ is Variant),
        r matches Ok(dv) ==> dv.wf() && vals@[0]@ == AbsValue::Variant(
            Box::new(dv.spec_value()@),
        ),
        r is Err ==> r->Err_0 is TypeMismatch,
{
    let mut vals = vals;
    if vals.len() != 1 {
        return Err(Error::TypeMismatch);
    }
    let ghost v0 = vals@;
    let first = vals.remove(0);
    proof {
        lemma_view_shape(&first);
    }
    match first {
        Value::Variant(b) => Ok(DynamicValue::box_value(*b)),
        _ => Err(Error::TypeMismatch),
    }
}

/// An empty reply body, as `Ping` and `Properties.Set` return.
pub fn reply_empty(vals: Vec<Value>) -> (r: Result<(), Error>)
    ensures
        r is Ok <==> vals@.len() == 0,
        r is Err ==> r->Err_0 is TypeMismatch,
{
    if vals.len() == 0 {
        Ok(())
    } else {
        Err(Error::TypeMismatch)
    }
}

/// An owned handle on one remote object: the connection, the destination
/// name, the object path, and a call deadline in milliseconds.  The
/// deadline is descriptive here: the model treats the delivery queue as
/// what arrived within it.
pub struct ConnPath {
    pub conn: Connection,
    pub dest: String,
    pub path: String,
    pub timeout_ms: u32,
}

impl Connection {
    /// Binds this connection to one destination and object path.
    pub fn with_path(self, dest: String, path: String, timeout_ms: u32) -> (r: ConnPath)
        ensures
            r.conn == self,
            r.dest == dest,
            r.path == path,
            r.timeout_ms == timeout_ms,
    {
        ConnPath { conn: self, dest, path, timeout_ms }
    }
}

/// The frame a binding method queued: one new call in the outbox, under
/// the next serial, with these addressing fields and this body; the rest
/// of the correlator untouched.
pub open spec fn sent_call(
    pre: Connection,
    post: Connection,
    dest: Seq<char>,
    path: Seq<char>,
    iface: Seq<char>,
    member: Seq<char>,
    body_rep: Seq<AbsValue>,
) -> bool {
    &&& post.next_serial == pre.next_serial + 1
    &&& (pre.inv() ==> post.inv())
    &&& (pre.inv() ==> post.pending@ == pre.pending@)
    &&& post.resolved@ == pre.resolved@
    &&& post.inbox@ == pre.inbox@
    &&& post.outbox@.len() == pre.outbox@.len() + 1
    &&& post.outbox@.subrange(0, pre.outbox@.len() as int) == pre.outbox@
    &&& ({
        let mm = post.outbox@.last();
        &&& mm.kind == MessageKind::Call
        &&& mm.serial == pre.next_serial
        &&& (mm.destination matches Some(x) && x@ == dest)
        &&& (mm.path matches Some(x) && x@ == path)
        &&& (mm.interface matches Some(x) && x@ == iface)
        &&& (mm.member matches Some(x) && x@ == member)
        &&& abs_seq(mm.body@) == body_rep
    })
}

/// No queued frame answers the call about to be made.
pub open spec fn no_answer(pre: Connection) -> bool {
    first_answer(pre.incoming@, pre.next_serial) is None
}

/// The queued frame that answers the call about to be made.
pub open spec fn the_answer(pre: Connection) -> Message {
    pre.incoming@[first_answer(pre.incoming@, pre.next_serial)->0]
}

/// The call consumed exactly its own answer from the delivery queue.
pub open spec fn consumed_answer(pre: Connection, post: Connection) -> bool {
    match first_answer(pre.incoming@, pre.next_serial) {
        None => post.incoming@ == pre.incoming@,
        Some(i) => post.incoming@ == pre.incoming@.remove(i),
    }
}

/// An error frame surfaced as a bus error with its name and description.
pub open spec fn bus_error_result<T>(m: Message, r: Result<T, Error>) -> bool {
    r matches Err(e) && e matches Error::Bus(n, d) && n@ == error_name_of(m) && d@
        == error_description(m)
}

impl ConnPath {
    /// Releases the handle, returning the connection.
    pub fn into_connection(self) -> (r: Connection)
        ensures
            r == self.conn,
    {
        self.conn
    }

    /// Calls one method on this handle's object: the call is framed and
    /// queued, and the first delivered frame bearing its serial decides
    /// the result — a reply's body (checked against the expected
    /// signature), a bus error, or a timeout when no answer arrived.
    pub fn method_call(
        &mut self,
        interface: &str,
        member: &str,
        body: Vec<Value>,
        expected_reply_sig: &Vec<u8>,
    ) -> (r: Result<Vec<Value>, Error>)
        requires
            old(self).conn.has_serials(),
        ensures
            final(self).dest == old(self).dest,
            final(self).path == old(self).path,
            final(self).timeout_ms == old(self).timeout_ms,
            sent_call(
                old(self).conn,
                final(self).conn,
                old(self).dest@,
                old(self).path@,
                interface@,
                member@,
                abs_seq(body@),
            ),
            consumed_answer(old(self).conn, final(self).conn),
            no_answer(old(self).conn) ==> r == Err::<Vec<Value>, Error>(Error::TimedOut),
            !no_answer(old(self).conn) ==> ({
                let m = the_answer(old(self).conn);
                &&& (m.kind == MessageKind::Error ==> bus_error_result(m, r))
                &&& (m.kind == MessageKind::Reply ==> (if sig_of_seq(abs_seq(m.body@))
                    == expected_reply_sig@ {
                    r == Ok::<Vec<Value>, Error>(m.body)
                } else {
                    r == Err::<Vec<Value>, Error>(Error::TypeMismatch)
                }))
            }),
    {
        let dest = clone_string(&self.dest);
        let path = clone_string(&self.path);
        self.conn.call(
            dest,
            path,
            String::from_str(interface),
            String::from_str(member),
            body,
            expected_reply_sig,
        )
    }
}

/// A plain copy of a string.
fn clone_string(s: &String) -> (r: String)
    ensures
        r@ == s@,
{
    String::from_str(s.as_str())
}

/// Method of the standard introspection interface: an object describes its
/// interfaces, methods and signals as an XML document.
pub trait Introspectable {
    type Err;

    fn introspect(&mut self) -> Result<String, Self::Err>;
}

/// Methods of the standard property-access interface.
pub trait Properties {
    type Err;

    fn get(&mut self, interface_name: &str, property_name: &str, expected_sig: &Vec<u8>) -> Result<
        Value,
        Self::Err,
    >;

    fn get_all(&mut self, interface_name: &str) -> Result<PropMap, Self::Err>;

    fn set(&mut self, interface_name: &str, property_name: &str, value: Value) -> Result<
        (),
        Self::Err,
    >;
}

/// Method of the standard object-manager interface.
pub trait ObjectManager {
    type Err;

    fn get_managed_objects(&mut self) -> Result<Vec<(String, Vec<(String, PropMap)>)>, Self::Err>;
}

/// Methods of the standard peer interface.
pub trait Peer {
    type Err;

    fn ping(&mut self) -> Result<(), Self::Err>;

    fn get_machine_id(&mut self) -> Result<String, Self::Err>;
}

impl ConnPath {
    /// `Introspect()`: no arguments; on a success reply of body signature
    /// `s` the result is exactly the reply's one string, the XML
    /// introspection document.
    pub fn introspect(&mut self) -> (r: Result<String, Error>)
        requires
            old(self).conn.has_serials(),
        ensures
            sent_call(
                old(self).conn,
                final(self).conn,
                old(self).dest@,
                old(self).path@,
                "org.freedesktop.DBus.Introspectable"@,
                "Introspect"@,
                Seq::<AbsValue>::empty(),
            ),
            consumed_answer(old(self).conn, final(self).conn),
            no_answer(old(self).conn) ==> r == Err::<String, Error>(Error::TimedOut),
            !no_answer(old(self).conn) ==> single_string_result(the_answer(old(self).conn), r),
    {
        let empty_body: Vec<Value> = Vec::new();
        proof {
            lemma_abs_seq(empty_body@);
            assert(abs_seq(empty_body@) =~= Seq::<AbsValue>::empty());
        }
        let vals = self.method_call(
            "org.freedesktop.DBus.Introspectable",
            "Introspect",
            empty_body,
            &sig1(TC_STRING),
        )?;
        proof {
            crate::connection::lemma_first_answer_props(
                old(self).conn.incoming@,
                old(self).conn.next_serial,
            );
            let m = the_answer(old(self).conn);
            assert(m.kind == MessageKind::Reply) by {
                if m.kind == MessageKind::Error {
                    assert(false);
                }
            }
            assert(sig_of_seq(abs_seq(m.body@)) == seq![TC_STRING]) by {
                if sig_of_seq(abs_seq(m.body@)) != seq![TC_STRING] {
                    assert(false);
                }
            }
            assert(vals == m.body);
            string_reply_shape(m, vals);
        }
        match reply_to_string(vals) {
            Ok(x) => Ok(x),
            Err(_) => {
                proof {
                    assert(false);
                }
                Err(Error::TypeMismatch)
            },
        }
    }

    /// `Properties.Get(interface_name, property_name)`: the reply body is
    /// one variant; the caller supplies the expected contained signature
    /// and receives the content unboxed, or a type mismatch — never a
    /// coerced value.
    pub fn get(&mut self, interface_name: &str, property_name: &str, expected_sig: &Vec<u8>) -> (r:
        Result<Value, Error>)
        requires
            old(self).conn.has_serials(),
        ensures
            sent_call(
                old(self).conn,
                final(self).conn,
                old(self).dest@,
                old(self).path@,
                "org.freedesktop.DBus.Properties"@,
                "Get"@,
                seq![
                    AbsValue::Str(interface_name@),
                    AbsValue::Str(property_name@),
                ],
            ),
            consumed_answer(old(self).conn, final(self).conn),
            no_answer(old(self).conn) ==> r == Err::<Value, Error>(Error::TimedOut),
            !no_answer(old(self).conn) ==> ({
                let m = the_answer(old(self).conn);
                &&& (m.kind == MessageKind::Error ==> bus_error_result(m, r))
                &&& (m.kind == MessageKind::Reply ==> (if sig_of_seq(abs_seq(m.body@)) == seq![
                    TC_VARIANT,
                ] {
                    abs_seq(m.body@).len() == 1 && (abs_seq(m.body@)[0] matches AbsValue::Variant(
                        bb,
                    ) && (if sig_of(*bb) == expected_sig@ {
                        r matches Ok(v) && v@ == *bb
                    } else {
                        r == Err::<Value, Error>(Error::TypeMismatch)
                    }))
                } else {
                    r == Err::<Value, Error>(Error::TypeMismatch)
                }))
            }),
    {
        let mut body: Vec<Value> = Vec::new();
        body.push(Value::Str(String::from_str(interface_name)));
        body.push(Value::Str(String::from_str(property_name)));
        proof {
            lemma_abs_seq(body@);
            assert(abs_seq(body@)[0] == body@[0]@);
            assert(abs_seq(body@)[1] == body@[1]@);
            assert(abs_seq(body@) =~= seq![
                AbsValue::Str(interface_name@),
                AbsValue::Str(property_name@),
            ]);
        }
        let vals = self.method_call(
            "org.freedesktop.DBus.Properties",
            "Get",
            body,
            &sig1(TC_VARIANT),
        )?;
        proof {
            crate::connection::lemma_first_answer_props(
                old(self).conn.incoming@,
                old(self).conn.next_serial,
            );
            let m = the_answer(old(self).conn);
            assert(m.kind == MessageKind::Reply) by {
                if m.kind == MessageKind::Error {
                    assert(false);
                }
            }
            assert(sig_of_seq(abs_seq(m.body@)) == seq![TC_VARIANT]) by {
                if sig_of_seq(abs_seq(m.body@)) != seq![TC_VARIANT] {
                    assert(false);
                }
            }
            assert(vals == m.body);
            lemma_sig_seq_single(abs_seq(m.body@), TC_VARIANT);
            lemma_code_of_value(abs_seq(m.body@)[0]);
            lemma_abs_seq(vals@);
            assert(vals@[0]@ == abs_seq(m.body@)[0]);
        }
        let dv = match reply_to_variant(vals) {
            Ok(dv) => dv,
            Err(_) => {
                proof {
                    assert(false);
                }
                return Err(Error::TypeMismatch);
            },
        };
        let ghost dvg = dv;
        match dv.unbox_as(expected_sig) {
            Ok(v) => {
                proof {
                    assert(expected_sig@ == dvg.spec_sig()) by {
                        if expected_sig@ != dvg.spec_sig() {
                            assert(false);
                        }
                    }
                    assert(v == dvg.spec_value());
                    dvg.lemma_wf();
                }
                Ok(v)
            },
            Err(e) => {
                proof {
                    assert(dvg.spec_sig() != expected_sig@) by {
                        if dvg.spec_sig() == expected_sig@ {
                            assert(false);
                        }
                    }
                    dvg.lemma_wf();
                }
                Err(e)
            },
        }
    }

    /// `Properties.GetAll(interface_name)`: on a success reply of body
    /// signature `a{sv}` the result is exactly the reply's mapping — no
    /// entry dropped, added or re-keyed, each value boxed with its own
    /// signature.
    pub fn get_all(&mut self, interface_name: &str) -> (r: Result<PropMap, Error>)
        requires
            old(self).conn.has_serials(),
        ensures
            sent_call(
                old(self).conn,
                final(self).conn,
                old(self).dest@,
                old(self).path@,
                "org.freedesktop.DBus.Properties"@,
                "GetAll"@,
                seq![AbsValue::Str(interface_name@)],
            ),
            consumed_answer(old(self).conn, final(self).conn),
            no_answer(old(self).conn) ==> r == Err::<PropMap, Error>(Error::TimedOut),
            !no_answer(old(self).conn) ==> ({
                let m = the_answer(old(self).conn);
                &&& (m.kind == MessageKind::Error ==> bus_error_result(m, r))
                &&& (m.kind == MessageKind::Reply ==> (if sig_of_seq(abs_seq(m.body@)) == seq![
                    TC_ARRAY,
                    TC_DICT_OPEN,
                    TC_STRING,
                    TC_VARIANT,
                    TC_DICT_CLOSE,
                ] && abs_seq(m.body@).len() == 1 {
                    (r is Ok <==> prop_map_shape(abs_seq(m.body@)[0])) && (r matches Ok(mm)
                        ==> rep_prop_map(abs_seq(m.body@)[0], mm@)) && (r is Err ==> r->Err_0
                        is TypeMismatch)
                } else {
                    r == Err::<PropMap, Error>(Error::TypeMismatch)
                }))
            }),
    {
        let mut body: Vec<Value> = Vec::new();
        body.push(Value::Str(String::from_str(interface_name)));
        proof {
            lemma_abs_seq(body@);
            assert(abs_seq(body@)[0] == body@[0]@);
            assert(abs_seq(body@) =~= seq![AbsValue::Str(interface_name@)]);
        }
        let mut sig: Vec<u8> = Vec::new();
        sig.push(TC_ARRAY);
        sig.push(TC_DICT_OPEN);
        sig.push(TC_STRING);
        sig.push(TC_VARIANT);
        sig.push(TC_DICT_CLOSE);
        proof {
            assert(sig@ =~= seq![TC_ARRAY, TC_DICT_OPEN, TC_STRING, TC_VARIANT, TC_DICT_CLOSE]);
        }
        let mut vals = self.method_call("org.freedesktop.DBus.Properties", "GetAll", body, &sig)?;
        proof {
            crate::connection::lemma_first_answer_props(
                old(self).conn.incoming@,
                old(self).conn.next_serial,
            );
            let m = the_answer(old(self).conn);
            assert(m.kind == MessageKind::Reply) by {
                if m.kind == MessageKind::Error {
                    assert(false);
                }
            }
            assert(sig_of_seq(abs_seq(m.body@)) == sig@) by {
                if sig_of_seq(abs_seq(m.body@)) != sig@ {
                    assert(false);
                }
            }
            assert(vals == m.body);
            lemma_abs_seq(vals@);
        }
        if vals.len() != 1 {
            return Err(Error::TypeMismatch);
        }
        proof {
            assert(vals@[0]@ == abs_seq(the_answer(old(self).conn).body@)[0]);
        }
        value_to_prop_map(vals.remove(0))
    }

    /// `Properties.Set(interface_name, property_name, value)`: the value
    /// crosses the wire boxed as a variant; success is exactly an
    /// empty-bodied success reply.
    pub fn set(&mut self, interface_name: &str, property_name: &str, value: Value) -> (r: Result<
        (),
        Error,
    >)
        requires
            old(self).conn.has_serials(),
        ensures
            sent_call(
                old(self).conn,
                final(self).conn,
                old(self).dest@,
                old(self).path@,
                "org.freedesktop.DBus.Properties"@,
                "Set"@,
                seq![
                    AbsValue::Str(interface_name@),
                    AbsValue::Str(property_name@),
                    AbsValue::Variant(Box::new(value@)),
                ],
            ),
            consumed_answer(old(self).conn, final(self).conn),
            no_answer(old(self).conn) ==> r == Err::<(), Error>(Error::TimedOut),
            !no_answer(old(self).conn) ==> ({
                let m = the_answer(old(self).conn);
                &&& (m.kind == MessageKind::Error ==> bus_error_result(m, r))
                &&& (m.kind == MessageKind::Reply ==> (if sig_of_seq(abs_seq(m.body@))
                    == Seq::<u8>::empty() {
                    r == Ok::<(), Error>(())
                } else {
                    r == Err::<(), Error>(Error::TypeMismatch)
                }))
            }),
    {
        let mut body: Vec<Value> = Vec::new();
        body.push(Value::Str(String::from_str(interface_name)));
        body.push(Value::Str(String::from_str(property_name)));
        body.push(Value::Variant(Box::new(value)));
        proof {
            lemma_abs_seq(body@);
            assert(abs_seq(body@)[0] == body@[0]@);
            assert(abs_seq(body@)[1] == body@[1]@);
            assert(abs_seq(body@)[2] == body@[2]@);
            assert(abs_seq(body@) =~= seq![
                AbsValue::Str(interface_name@),
                AbsValue::Str(property_name@),
                AbsValue::Variant(Box::new(value@)),
            ]);
        }
        let empty_sig: Vec<u8> = Vec::new();
        let vals = self.method_call("org.freedesktop.DBus.Properties", "Set", body, &empty_sig)?;
        proof {
            crate::connection::lemma_first_answer_props(
                old(self).conn.incoming@,
                old(self).conn.next_serial,
            );
            let m = the_answer(old(self).conn);
            assert(m.kind == MessageKind::Reply) by {
                if m.kind == MessageKind::Error {
                    assert(false);
                }
            }
            assert(sig_of_seq(abs_seq(m.body@)) == Seq::<u8>::empty()) by {
                if sig_of_seq(abs_seq(m.body@)) != Seq::<u8>::empty() {
                    assert(false);
                }
            }
            assert(vals == m.body);
            lemma_sig_seq_empty(abs_seq(m.body@));
            lemma_abs_seq(vals@);
        }
        match reply_empty(vals) {
            Ok(()) => Ok(()),
            Err(_) => {
                proof {
                    assert(false);
                }
                Err(Error::TypeMismatch)
            },
        }
    }

    /// `ObjectManager.GetManagedObjects()`: on a success reply of body
    /// signature `a{oa{sa{sv}}}` the result is exactly the reply's
    /// three-level mapping.
    pub fn get_managed_objects(&mut self) -> (r: Result<
        Vec<(String, Vec<(String, PropMap)>)>,
        Error,
    >)
        requires
            old(self).conn.has_serials(),
        ensures
            sent_call(
                old(self).conn,
                final(self).conn,
                old(self).dest@,
                old(self).path@,
                "org.freedesktop.DBus.ObjectManager"@,
                "GetManagedObjects"@,
                Seq::<AbsValue>::empty(),
            ),
            consumed_answer(old(self).conn, final(self).conn),
            no_answer(old(self).conn) ==> r == Err::<
                Vec<(String, Vec<(String, PropMap)>)>,
                Error,
            >(Error::TimedOut),
            !no_answer(old(self).conn) ==> ({
                let m = the_answer(old(self).conn);
                &&& (m.kind == MessageKind::Error ==> bus_error_result(m, r))
                &&& (m.kind == MessageKind::Reply ==> (if sig_of_seq(abs_seq(m.body@))
                    == managed_objects_sig() && abs_seq(m.body@).len() == 1 {
                    (r is Ok <==> objects_shape(abs_seq(m.body@)[0])) && (r matches Ok(mm)
                        ==> rep_objects(abs_seq(m.body@)[0], mm@)) && (r is Err ==> r->Err_0
                        is TypeMismatch)
                } else {
                    r == Err::<Vec<(String, Vec<(String, PropMap)>)>, Error>(Error::TypeMismatch)
                }))
            }),
    {
        let empty_body: Vec<Value> = Vec::new();
        proof {
            lemma_abs_seq(empty_body@);
            assert(abs_seq(empty_body@) =~= Seq::<AbsValue>::empty());
        }
        let mut sig: Vec<u8> = Vec::new();
        sig.push(TC_ARRAY);
        sig.push(TC_DICT_OPEN);
        sig.push(TC_PATH);
        sig.push(TC_ARRAY);
        sig.push(TC_DICT_OPEN);
        sig.push(TC_STRING);
        sig.push(TC_ARRAY);
        sig.push(TC_DICT_OPEN);
        sig.push(TC_STRING);
        sig.push(TC_VARIANT);
        sig.push(TC_DICT_CLOSE);
        sig.push(TC_DICT_CLOSE);
        sig.push(TC_DICT_CLOSE);
        proof {
            assert(sig@ =~= managed_objects_sig());
        }
        let mut vals = self.method_call(
            "org.freedesktop.DBus.ObjectManager",
            "GetManagedObjects",
            empty_body,
            &sig,
        )?;
        proof {
            crate::connection::lemma_first_answer_props(
                old(self).conn.incoming@,
                old(self).conn.next_serial,
            );
            let m = the_answer(old(self).conn);
            assert(m.kind == MessageKind::Reply) by {
                if m.kind == MessageKind::Error {
                    assert(false);
                }
            }
            assert(sig_of_seq(abs_seq(m.body@)) == managed_objects_sig()) by {
                if sig_of_seq(abs_seq(m.body@)) != managed_objects_sig() {
                    assert(false);
                }
            }
            assert(vals == m.body);
            lemma_abs_seq(vals@);
        }
        if vals.len() != 1 {
            return Err(Error::TypeMismatch);
        }
        proof {
            assert(vals@[0]@ == abs_seq(the_answer(old(self).conn).body@)[0]);
        }
        value_to_managed_objects(vals.remove(0))
    }

    /// `Peer.Ping()`: no arguments; success is exactly an empty-bodied
    /// success reply.
    pub fn ping(&mut self) -> (r: Result<(), Error>)
        requires
            old(self).conn.has_serials(),
        ensures
            sent_call(
                old(self).conn,
                final(self).conn,
                old(self).dest@,
                old(self).path@,
                "org.freedesktop.DBus.Peer"@,
                "Ping"@,
                Seq::<AbsValue>::empty(),
            ),
            consumed_answer(old(self).conn, final(self).conn),
            no_answer(old(self).conn) ==> r == Err::<(), Error>(Error::TimedOut),
            !no_answer(old(self).conn) ==> ({
                let m = the_answer(old(self).conn);
                &&& (m.kind == MessageKind::Error ==> bus_error_result(m, r))
                &&& (m.kind == MessageKind::Reply ==> (if sig_of_seq(abs_seq(m.body@))
                    == Seq::<u8>::empty() {
                    r == Ok::<(), Error>(())
                } else {
                    r == Err::<(), Error>(Error::TypeMismatch)
                }))
            }),
    {
        let empty_body: Vec<Value> = Vec::new();
        proof {
            lemma_abs_seq(empty_body@);
            assert(abs_seq(empty_body@) =~= Seq::<AbsValue>::empty());
        }
        let empty_sig: Vec<u8> = Vec::new();
        let vals = self.method_call("org.freedesktop.DBus.Peer", "Ping", empty_body, &empty_sig)?;
        proof {
            crate::connection::lemma_first_answer_props(
                old(self).conn.incoming@,
                old(self).conn.next_serial,
            );
            let m = the_answer(old(self).conn);
            assert(m.kind == MessageKind::Reply) by {
                if m.kind == MessageKind::Error {
                    assert(false);
                }
            }
            assert(sig_of_seq(abs_seq(m.body@)) == Seq::<u8>::empty()) by {
                if sig_of_seq(abs_seq(m.body@)) != Seq::<u8>::empty() {
                    assert(false);
                }
            }
            assert(vals == m.body);
            lemma_sig_seq_empty(abs_seq(m.body@));
            lemma_abs_seq(vals@);
        }
        match reply_empty(vals) {
            Ok(()) => Ok(()),
            Err(_) => {
                proof {
                    assert(false);
                }
                Err(Error::TypeMismatch)
            },
        }
    }

    /// `Peer.GetMachineId()`: on a success reply of body signature `s`
    /// the result is exactly the reply's one string, a UUID-form
    /// identifier.
    pub fn get_machine_id(&mut self) -> (r: Result<String, Error>)
        requires
            old(self).conn.has_serials(),
        ensures
            sent_call(
                old(self).conn,
                final(self).conn,
                old(self).dest@,
                old(self).path@,
                "org.freedesktop.DBus.Peer"@,
                "GetMachineId"@,
                Seq::<AbsValue>::empty(),
            ),
            consumed_answer(old(self).conn, final(self).conn),
            no_answer(old(self).conn) ==> r == Err::<String, Error>(Error::TimedOut),
            !no_answer(old(self).conn) ==> single_string_result(the_answer(old(self).conn), r),
    {
        let empty_body: Vec<Value> = Vec::new();
        proof {
            lemma_abs_seq(empty_body@);
            assert(abs_seq(empty_body@) =~= Seq::<AbsValue>::empty());
        }
        let vals = self.method_call(
            "org.freedesktop.DBus.Peer",
            "GetMachineId",
            empty_body,
            &sig1(TC_STRING),
        )?;
        proof {
            crate::connection::lemma_first_answer_props(
                old(self).conn.incoming@,
                old(self).conn.next_serial,
            );
            let m = the_answer(old(self).conn);
            assert(m.kind == MessageKind::Reply) by {
                if m.kind == MessageKind::Error {
                    assert(false);
                }
            }
            assert(sig_of_seq(abs_seq(m.body@)) == seq![TC_STRING]) by {
                if sig_of_seq(abs_seq(m.body@)) != seq![TC_STRING] {
                    assert(false);
                }
            }
            assert(vals == m.body);
            string_reply_shape(m, vals);
        }
        match reply_to_string(vals) {
            Ok(x) => Ok(x),
            Err(_) => {
                proof {
                    assert(false);
                }
                Err(Error::TypeMismatch)
            },
        }
    }
}

/// The body signature of a managed-objects reply: `a{oa{sa{sv}}}`.
pub open spec fn managed_objects_sig() -> Seq<u8> {
    seq![
        TC_ARRAY,
        TC_DICT_OPEN,
        TC_PATH,
        TC_ARRAY,
        TC_DICT_OPEN,
        TC_STRING,
        TC_ARRAY,
        TC_DICT_OPEN,
        TC_STRING,
        TC_VARIANT,
        TC_DICT_CLOSE,
        TC_DICT_CLOSE,
        TC_DICT_CLOSE,
    ]
}

/// How a one-string method resolves against its answer: a bus error is
/// surfaced; a reply of body signature `s` yields exactly its string; any
/// other reply body is a type mismatch.
pub open spec fn single_string_result(m: Message, r: Result<String, Error>) -> bool {
    &&& (m.kind == MessageKind::Error ==> bus_error_result(m, r))
    &&& (m.kind == MessageKind::Reply ==> (if sig_of_seq(abs_seq(m.body@)) == seq![TC_STRING] {
        r matches Ok(x) && abs_seq(m.body@) == seq![AbsValue::Str(x@)]
    } else {
        r == Err::<String, Error>(Error::TypeMismatch)
    }))
}

/// A reply body of signature `s` is one string value.
proof fn string_reply_shape(m: Message, vals: Vec<Value>)
    requires
        sig_of_seq(abs_seq(m.body@)) == seq![TC_STRING],
        vals == m.body,
    ensures
        abs_seq(m.body@).len() == 1,
        abs_seq(m.body@)[0] is Str,
        vals@.len() == 1,
        vals@[0]@ == abs_seq(m.body@)[0],
{
    lemma_sig_seq_single(abs_seq(m.body@), TC_STRING);
    lemma_code_of_value(abs_seq(m.body@)[0]);
    lemma_abs_seq(m.body@);
}

impl Introspectable for ConnPath {
    type Err = Error;

    fn introspect(&mut self) -> Result<String, Error> {
        if self.conn.next_serial < 0xFFFFFFFF {
            self.introspect()
        } else {
            Err(Error::Disconnected)
        }
    }
}

impl Properties for ConnPath {
    type Err = Error;

    fn get(&mut self, interface_name: &str, property_name: &str, expected_sig: &Vec<u8>) -> Result<
        Value,
        Error,
    > {
        if self.conn.next_serial < 0xFFFFFFFF {
            self.get(interface_name, property_name, expected_sig)
        } else {
            Err(Error::Disconnected)
        }
    }

    fn get_all(&mut self, interface_name: &str) -> Result<PropMap, Error> {
        if self.conn.next_serial < 0xFFFFFFFF {
            self.get_all(interface_name)
        } else {
            Err(Error::Disconnected)
        }
    }

    fn set(&mut self, interface_name: &str, property_name: &str, value: Value) -> Result<
        (),
        Error,
    > {
        if self.conn.next_serial < 0xFFFFFFFF {
            self.set(interface_name, property_name, value)
        } else {
            Err(Error::Disconnected)
        }
    }
}

impl ObjectManager for ConnPath {
    type Err = Error;

    fn get_managed_objects(&mut self) -> Result<Vec<(String, Vec<(String, PropMap)>)>, Error> {
        if self.conn.next_serial < 0xFFFFFFFF {
            self.get_managed_objects()
        } else {
            Err(Error::Disconnected)
        }
    }
}

impl Peer for ConnPath {
    type Err = Error;

    fn ping(&mut self) -> Result<(), Error> {
        if self.conn.next_serial < 0xFFFFFFFF {
            self.ping()
        } else {
            Err(Error::Disconnected)
        }
    }

    fn get_machine_id(&mut self) -> Result<String, Error> {
        if self.conn.next_serial < 0xFFFFFFFF {
            self.get_machine_id()
        } else {
            Err(Error::Disconnected)
        }
    }
}

/// The `PropertiesChanged` signal of the property interface: which
/// interface changed, the new values of the changed properties, and the
/// names of properties whose values were invalidated.
pub struct PropertiesPropertiesChanged {
    pub interface_name: String,
    pub changed_properties: PropMap,
    pub invalidated_properties: Vec<String>,
}

impl PropertiesPropertiesChanged {
    /// The interface that emits this signal.
    pub fn interface() -> (r: &'static str)
        ensures
            r@ == "org.freedesktop.DBus.Properties"@,
    {
        "org.freedesktop.DBus.Properties"
    }

    /// The signal's member name.
    pub fn name() -> (r: &'static str)
        ensures
            r@ == "PropertiesChanged"@,
    {
        "PropertiesChanged"
    }

    /// Appends this signal's three body values: the interface name, the
    /// changed-property mapping, the invalidated-property names.
    pub fn append(self, body: &mut Vec<Value>)
        ensures
            final(body)@.len() == old(body)@.len() + 3,
            final(body)@.subrange(0, old(body)@.len() as int) == old(body)@,
            final(body)@[old(body)@.len() as int]@ == AbsValue::Str(self.interface_name@),
            rep_prop_map(final(body)@[old(body)@.len() as int + 1]@, self.changed_properties@),
            rep_string_list(
                final(body)@[old(body)@.len() as int + 2]@,
                self.invalidated_properties@,
            ),
            sig_of(final(body)@[old(body)@.len() as int]@) == seq![TC_STRING],
            sig_of(final(body)@[old(body)@.len() as int + 1]@) == seq![
                TC_ARRAY,
                TC_DICT_OPEN,
                TC_STRING,
                TC_VARIANT,
                TC_DICT_CLOSE,
            ],
            sig_of(final(body)@[old(body)@.len() as int + 2]@) == seq![TC_ARRAY, TC_STRING],
    {
        body.push(Value::Str(self.interface_name));
        let pm = prop_map_to_value(self.changed_properties);
        proof {
            assert(sig_of(pm@) =~= seq![
                TC_ARRAY,
                TC_DICT_OPEN,
                TC_STRING,
                TC_VARIANT,
                TC_DICT_CLOSE,
            ]);
        }
        body.push(pm);
        let sl = string_list_to_value(self.invalidated_properties);
        proof {
            assert(sig_of(sl@) =~= seq![TC_ARRAY, TC_STRING]);
        }
        body.push(sl);
        proof {
            assert(body@.subrange(0, old(body)@.len() as int) =~= old(body)@);
        }
    }

    /// Reads the signal back from a body of its three values: succeeds
    /// exactly on that shape, and then the fields are exactly the body's
    /// content.
    pub fn read(body: Vec<Value>) -> (r: Result<Self, Error>)
        ensures
            r is Ok <==> (body@.len() == 3 && body@[0]@ is Str && prop_map_shape(body@[1]@)
                && string_list_shape(body@[2]@)),
            r matches Ok(x) ==> ({
                &&& body@[0]@ == AbsValue::Str(x.interface_name@)
                &&& rep_prop_map(body@[1]@, x.changed_properties@)
                &&& rep_string_list(body@[2]@, x.invalidated_properties@)
            }),
            r is Err ==> r->Err_0 is TypeMismatch,
    {
        let mut body = body;
        if body.len() != 3 {
            return Err(Error::TypeMismatch);
        }
        let ghost b0 = body@;
        let v0 = body.remove(0);
        let v1 = body.remove(0);
        let v2 = body.remove(0);
        proof {
            assert(v0 == b0[0] && v1 == b0[1] && v2 == b0[2]);
            lemma_view_shape(&v0);
        }
        let interface_name = match v0 {
            Value::Str(s) => s,
            _ => {
                return Err(Error::TypeMismatch);
            },
        };
        let changed_properties = value_to_prop_map(v1)?;
        let invalidated_properties = value_to_string_list(v2)?;
        Ok(PropertiesPropertiesChanged { interface_name, changed_properties, invalidated_properties })
    }
}

/// Turns a list of strings into its wire value.
pub fn string_list_to_value(xs: Vec<String>) -> (r: Value)
    ensures
        rep_string_list(r@, xs@),
        string_list_shape(r@),
{
    let ghost xs0 = xs@;
    let mut xs = xs;
    let mut items: Vec<Value> = Vec::new();
    let n = xs.len();
    let mut i: usize = 0;
    while i < n
        invariant
            i <= n == xs0.len(),
            xs@ == xs0.subrange(i as int, n as int),
            items@.len() == i,
            forall|q: int| 0 <= q < i ==> (#[trigger] items@[q])@ == rep_strings(xs0)[q],
        decreases n - i,
    {
        let ghost xpre = xs@;
        let x = xs.remove(0);
        proof {
            assert(xpre[0] == xs0[i as int]);
            assert(xs@ =~= xs0.subrange(i + 1, n as int));
        }
        let ghost x0 = x@;
        items.push(Value::Str(x));
        proof {
            assert(items@.last()@ == AbsValue::Str(x0));
            assert(x0 == xs0[i as int]@);
        }
        i = i + 1;
    }
    proof {
        lemma_abs_seq(items@);
        assert forall|q: int| 0 <= q < items@.len() implies abs_seq(items@)[q] == rep_strings(
            xs0,
        )[q] by {
            assert(abs_seq(items@)[q] == items@[q]@);
        }
        assert(abs_seq(items@) =~= rep_strings(xs0));
        assert forall|q: int|
            0 <= q < rep_strings(xs0).len() implies (#[trigger] rep_strings(xs0)[q]) is Str by {}
    }
    Value::Array(sig1(TC_STRING), items)
}

/// The `InterfacesAdded` signal of the object manager: an object path and
/// the two-level mapping of what appeared there.
pub struct ObjectManagerInterfacesAdded {
    pub object: String,
    pub interfaces: Vec<(String, PropMap)>,
}

impl ObjectManagerInterfacesAdded {
    /// The interface that emits this signal.
    pub fn interface() -> (r: &'static str)
        ensures
            r@ == "org.freedesktop.DBus.ObjectManager"@,
    {
        "org.freedesktop.DBus.ObjectManager"
    }

    /// The signal's member name.
    pub fn name() -> (r: &'static str)
        ensures
            r@ == "InterfacesAdded"@,
    {
        "InterfacesAdded"
    }

    /// Appends this signal's two body values: the object path, then the
    /// interface-to-properties mapping.
    pub fn append(self, body: &mut Vec<Value>)
        ensures
            final(body)@.len() == old(body)@.len() + 2,
            final(body)@.subrange(0, old(body)@.len() as int) == old(body)@,
            final(body)@[old(body)@.len() as int]@ == AbsValue::ObjectPath(self.object@),
            rep_iface_map(final(body)@[old(body)@.len() as int + 1]@, self.interfaces@),
            sig_of(final(body)@[old(body)@.len() as int]@) == seq![TC_PATH],
            sig_of(final(body)@[old(body)@.len() as int + 1]@) == seq![TC_ARRAY] + iface_es(),
    {
        body.push(Value::ObjectPath(self.object));
        let im = iface_map_to_value(self.interfaces);
        proof {
            assert(sig_of(im@) =~= seq![TC_ARRAY] + iface_es());
        }
        body.push(im);
        proof {
            assert(body@.subrange(0, old(body)@.len() as int) =~= old(body)@);
        }
    }

    /// Reads the signal back from a body of its two values: succeeds
    /// exactly on that shape, with the fields exactly the body's content.
    pub fn read(body: Vec<Value>) -> (r: Result<Self, Error>)
        ensures
            r is Ok <==> (body@.len() == 2 && body@[0]@ is ObjectPath && iface_map_shape(
                body@[1]@,
            )),
            r matches Ok(x) ==> ({
                &&& body@[0]@ == AbsValue::ObjectPath(x.object@)
                &&& rep_iface_map(body@[1]@, x.interfaces@)
            }),
            r is Err ==> r->Err_0 is TypeMismatch,
    {
        let mut body = body;
        if body.len() != 2 {
            return Err(Error::TypeMismatch);
        }
        let ghost b0 = body@;
        let v0 = body.remove(0);
        let v1 = body.remove(0);
        proof {
            assert(v0 == b0[0] && v1 == b0[1]);
            lemma_view_shape(&v0);
        }
        let object = match v0 {
            Value::ObjectPath(s) => s,
            _ => {
                return Err(Error::TypeMismatch);
            },
        };
        let interfaces = value_to_iface_map(v1)?;
        Ok(ObjectManagerInterfacesAdded { object, interfaces })
    }
}

/// Turns a two-level interface mapping into its wire value.
pub fn iface_map_to_value(m: Vec<(String, PropMap)>) -> (r: Value)
    ensures
        rep_iface_map(r@, m@),
        iface_map_shape(r@),
{
    let ghost m0 = m@;
    let mut m = m;
    let mut items: Vec<Value> = Vec::new();
    let n = m.len();
    let mut i: usize = 0;
    while i < n
        invariant
            i <= n == m0.len(),
            m@ == m0.subrange(i as int, n as int),
            items@.len() == i,
            forall|q: int|
                0 <= q < i ==> ((#[trigger] items@[q])@ matches AbsValue::DictEntry(kk, vv) && *kk
                    == AbsValue::Str(m0[q].0@) && rep_prop_map(*vv, m0[q].1@) && iface_entry_shape(
                    items@[q]@,
                )),
        decreases n - i,
    {
        let ghost mpre = m@;
        let (name, props) = m.remove(0);
        proof {
            assert(mpre[0] == m0[i as int]);
            assert(m@ =~= m0.subrange(i + 1, n as int));
        }
        let ghost name0 = name@;
        let ghost props0 = props@;
        let pv = prop_map_to_value(props);
        let ghost pv0 = pv;
        let key_val = Value::Str(name);
        proof {
            assert(key_val@ == AbsValue::Str(name0));
        }
        let entry_val = Value::DictEntry(Box::new(key_val), Box::new(pv));
        proof {
            assert(entry_val@ == AbsValue::DictEntry(
                Box::new(AbsValue::Str(name0)),
                Box::new(pv0@),
            ));
            assert(rep_prop_map(pv0@, props0));
            assert(name0 == m0[i as int].0@);
            assert(props0 == m0[i as int].1@);
        }
        items.push(entry_val);
        proof {
            assert(items@.last()@ == entry_val@);
        }
        i = i + 1;
    }
    let mut es: Vec<u8> = Vec::new();
    es.push(TC_DICT_OPEN);
    es.push(TC_STRING);
    es.push(TC_ARRAY);
    es.push(TC_DICT_OPEN);
    es.push(TC_STRING);
    es.push(TC_VARIANT);
    es.push(TC_DICT_CLOSE);
    es.push(TC_DICT_CLOSE);
    proof {
        assert(es@ =~= iface_es());
        lemma_abs_seq(items@);
        assert forall|q: int|
            0 <= q < abs_seq(items@).len() implies ((#[trigger] abs_seq(items@)[q]) matches
            AbsValue::DictEntry(kk, vv) && *kk == AbsValue::Str(m0[q].0@) && rep_prop_map(
            *vv,
            m0[q].1@,
        ) && iface_entry_shape(abs_seq(items@)[q])) by {
            assert(abs_seq(items@)[q] == items@[q]@);
        }
    }
    Value::Array(es, items)
}

/// The `InterfacesRemoved` signal of the object manager: an object path
/// and the names of the interfaces that vanished there.
pub struct ObjectManagerInterfacesRemoved {
    pub object: String,
    pub interfaces: Vec<String>,
}

impl ObjectManagerInterfacesRemoved {
    /// The interface that emits this signal.
    pub fn interface() -> (r: &'static str)
        ensures
            r@ == "org.freedesktop.DBus.ObjectManager"@,
    {
        "org.freedesktop.DBus.ObjectManager"
    }

    /// The signal's member name.
    pub fn name() -> (r: &'static str)
        ensures
            r@ == "InterfacesRemoved"@,
    {
        "InterfacesRemoved"
    }

    /// Appends this signal's two body values: the object path, then the
    /// interface names.
    pub fn append(self, body: &mut Vec<Value>)
        ensures
            final(body)@.len() == old(body)@.len() + 2,
            final(body)@.subrange(0, old(body)@.len() as int) == old(body)@,
            final(body)@[old(body)@.len() as int]@ == AbsValue::ObjectPath(self.object@),
            rep_string_list(final(body)@[old(body)@.len() as int + 1]@, self.interfaces@),
            sig_of(final(body)@[old(body)@.len() as int]@) == seq![TC_PATH],
            sig_of(final(body)@[old(body)@.len() as int + 1]@) == seq![TC_ARRAY, TC_STRING],
    {
        body.push(Value::ObjectPath(self.object));
        let sl = string_list_to_value(self.interfaces);
        proof {
            assert(sig_of(sl@) =~= seq![TC_ARRAY, TC_STRING]);
        }
        body.push(sl);
        proof {
            assert(body@.subrange(0, old(body)@.len() as int) =~= old(body)@);
        }
    }

    /// Reads the signal back from a body of its two values: succeeds
    /// exactly on that shape, with the fields exactly the body's content.
    pub fn read(body: Vec<Value>) -> (r: Result<Self, Error>)
        ensures
            r is Ok <==> (body@.len() == 2 && body@[0]@ is ObjectPath && string_list_shape(
                body@[1]@,
            )),
            r matches Ok(x) ==> ({
                &&& body@[0]@ == AbsValue::ObjectPath(x.object@)
                &&& rep_string_list(body@[1]@, x.interfaces@)
            }),
            r is Err ==> r->Err_0 is TypeMismatch,
    {
        let mut body = body;
        if body.len() != 2 {
            return Err(Error::TypeMismatch);
        }
        let ghost b0 = body@;
        let v0 = body.remove(0);
        let v1 = body.remove(0);
        proof {
            assert(v0 == b0[0] && v1 == b0[1]);
            lemma_view_shape(&v0);
        }
        let object = match v0 {
            Value::ObjectPath(s) => s,
            _ => {
                return Err(Error::TypeMismatch);
            },
        };
        let interfaces = value_to_string_list(v1)?;
        Ok(ObjectManagerInterfacesRemoved { object, interfaces })
    }
}

} // verus!
