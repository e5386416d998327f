//! The value codec: the single place that knows the wire byte layout.
//!
//! The layout is fixed by one specification function, [`dec_val`]: what a
//! well-formed byte sequence means under a signature.  The executable
//! decoder returns exactly what [`dec_val`] says, and the executable
//! encoder's output decodes back to the encoded value — the round-trip law
//! is its `ensures`.  Scalars sit at their natural alignment (padding is
//! zero bytes), strings and arrays carry length prefixes, strings end in a
//! NUL byte, and a variant embeds its own signature before its content.

use vstd::prelude::*;
use vstd::utf8::{valid_utf8, encode_utf8, decode_utf8};
use vstd::utf8::{encode_utf8_valid_utf8, encode_utf8_decode_utf8};
use crate::Error;
use crate::signature::{
    elem_sig_ok, single_end, validate_signature, validate_single, sig_valid, find_single_end, lemma_single_end_window, sig_single,
    SIG_MAX_LEN, TC_BYTE, TC_BOOL, TC_INT16, TC_UINT16, TC_INT32, TC_UINT32, TC_INT64, TC_UINT64,
    TC_DOUBLE, TC_STRING, TC_PATH, TC_SIG, TC_VARIANT, TC_ARRAY, TC_STRUCT_OPEN, TC_STRUCT_CLOSE,
    TC_DICT_OPEN, TC_DICT_CLOSE,
};
use crate::value::{
    Value, AbsValue, abs_seq, lemma_abs_seq, sig_of, sig_of_seq, lemma_sig_of_seq_snoc, wf_val,
    is_basic_val, align_of_code, alignment_of,
};
use crate::wire::{
    Endian, align_up, lemma_align_up, pow256, lemma_pow256_values, le_at, be_at, uint_at,
    lemma_uint_at_bound, lemma_uint_at_frame, zero_bytes, pad_to, read_uint, push_uint_le,
    i16_from_bits, i32_from_bits, i64_from_bits, i16_of_bits, i32_of_bits, i64_of_bits,
    i16_to_bits, i32_to_bits, i64_to_bits,
};

verus! {

/// Most bytes an encoded array may hold.
pub const ARRAY_MAX_BYTES: usize = 0x4000000;

/// Whether `c` is a fixed-size multi-byte scalar code.
pub open spec fn is_fixed_multi(c: u8) -> bool {
    ||| c == TC_BOOL
    ||| c == TC_INT16
    ||| c == TC_UINT16
    ||| c == TC_INT32
    ||| c == TC_UINT32
    ||| c == TC_INT64
    ||| c == TC_UINT64
    ||| c == TC_DOUBLE
}

/// Size in bytes of a fixed-size scalar.
pub open spec fn scalar_size(c: u8) -> int {
    if c == TC_INT16 || c == TC_UINT16 {
        2
    } else if c == TC_BOOL || c == TC_INT32 || c == TC_UINT32 {
        4
    } else {
        8
    }
}

/// The model value a fixed-size scalar code gives to raw bits.
pub open spec fn make_scalar(c: u8, raw: nat) -> AbsValue {
    if c == TC_BOOL {
        AbsValue::Boolean(raw == 1)
    } else if c == TC_INT16 {
        AbsValue::Int16(i16_from_bits(raw))
    } else if c == TC_UINT16 {
        AbsValue::Uint16(raw as u16)
    } else if c == TC_INT32 {
        AbsValue::Int32(i32_from_bits(raw))
    } else if c == TC_UINT32 {
        AbsValue::Uint32(raw as u32)
    } else if c == TC_INT64 {
        AbsValue::Int64(i64_from_bits(raw))
    } else if c == TC_UINT64 {
        AbsValue::Uint64(raw as u64)
    } else {
        AbsValue::Double(raw as u64)
    }
}

/// The meaning of bytes: the one complete type of `sig` starting at `si`,
/// read from `d` at `pos` in byte order `e`.  `Some((v, p, s))` is the value,
/// the position after it, and the signature index after its type.
pub open spec fn dec_val(d: Seq<u8>, pos: int, sig: Seq<u8>, si: int, e: Endian) -> Option<
    (AbsValue, int, int),
>
    decreases d.len() - pos, sig.len() - si, 0int,
{
    if !(0 <= pos <= d.len() && 0 <= si < sig.len()) {
        None
    } else {
        let c = sig[si];
        if c == TC_BYTE {
            if pos + 1 <= d.len() {
                Some((AbsValue::Byte(d[pos]), pos + 1, si + 1))
            } else {
                None
            }
        } else if is_fixed_multi(c) {
            let p = align_up(pos, align_of_code(c));
            let sz = scalar_size(c);
            if p + sz <= d.len() {
                let raw = uint_at(d, p, sz as nat, e);
                if c == TC_BOOL && raw > 1 {
                    None
                } else {
                    Some((make_scalar(c, raw), p + sz, si + 1))
                }
            } else {
                None
            }
        } else if c == TC_STRING || c == TC_PATH {
            let p = align_up(pos, 4);
            if p + 4 <= d.len() {
                let len = uint_at(d, p, 4, e) as int;
                let start = p + 4;
                let endp = start + len;
                if endp + 1 <= d.len() && d[endp] == 0 && valid_utf8(d.subrange(start, endp)) {
                    let chars = decode_utf8(d.subrange(start, endp));
                    if c == TC_STRING {
                        Some((AbsValue::Str(chars), endp + 1, si + 1))
                    } else {
                        Some((AbsValue::ObjectPath(chars), endp + 1, si + 1))
                    }
                } else {
                    None
                }
            } else {
                None
            }
        } else if c == TC_SIG {
            if pos + 1 <= d.len() {
                let len = d[pos] as int;
                let start = pos + 1;
                let endp = start + len;
                if endp + 1 <= d.len() && d[endp] == 0 {
                    Some((AbsValue::Signature(d.subrange(start, endp)), endp + 1, si + 1))
                } else {
                    None
                }
            } else {
                None
            }
        } else if c == TC_VARIANT {
            if pos + 1 <= d.len() {
                let slen = d[pos] as int;
                let gstart = pos + 1;
                let gend = gstart + slen;
                if gend + 1 <= d.len() && d[gend] == 0 {
                    let g = d.subrange(gstart, gend);
                    if single_end(g, 0, 0, 0) == Some(g.len() as int) {
                        match dec_val(d, gend + 1, g, 0, e) {
                            Some((v, p2, _s2)) => Some(
                                (AbsValue::Variant(Box::new(v)), p2, si + 1),
                            ),
                            None => None,
                        }
                    } else {
                        None
                    }
                } else {
                    None
                }
            } else {
                None
            }
        } else if c == TC_ARRAY {
            match single_end(sig, si, 0, 0) {
                Some(se) => if si + 1 < se <= sig.len() {
                    let p = align_up(pos, 4);
                    if p + 4 <= d.len() {
                        let alen = uint_at(d, p, 4, e) as int;
                        if alen <= ARRAY_MAX_BYTES {
                            let q = align_up(p + 4, align_of_code(sig[si + 1]));
                            if q + alen <= d.len() && p + 4 <= q {
                                match dec_elems(d, q, q + alen, sig, si + 1, e) {
                                    Some(items) => Some(
                                        (
                                            AbsValue::Array(sig.subrange(si + 1, se), items),
                                            q + alen,
                                            se,
                                        ),
                                    ),
                                    None => None,
                                }
                            } else {
                                None
                            }
                        } else {
                            None
                        }
                    } else {
                        None
                    }
                } else {
                    None
                },
                None => None,
            }
        } else if c == TC_STRUCT_OPEN {
            let p = align_up(pos, 8);
            if pos <= p <= d.len() {
                match dec_members(d, p, sig, si + 1, e) {
                    Some((items, p2, s2)) => if items.len() >= 1 {
                        Some((AbsValue::Struct(items), p2, s2))
                    } else {
                        None
                    },
                    None => None,
                }
            } else {
                None
            }
        } else if c == TC_DICT_OPEN {
            let p = align_up(pos, 8);
            if pos <= p <= d.len() && si + 1 < sig.len() {
                match dec_val(d, p, sig, si + 1, e) {
                    Some((kv, p1, s1)) => if pos <= p1 <= d.len() && si + 1 < s1 < sig.len() {
                        match dec_val(d, p1, sig, s1, e) {
                            Some((vv, p2, s2)) => if s2 < sig.len() && sig[s2] == TC_DICT_CLOSE {
                                Some(
                                    (
                                        AbsValue::DictEntry(Box::new(kv), Box::new(vv)),
                                        p2,
                                        s2 + 1,
                                    ),
                                )
                            } else {
                                None
                            },
                            None => None,
                        }
                    } else {
                        None
                    },
                    None => None,
                }
            } else {
                None
            }
        } else {
            None
        }
    }
}

/// The elements of an array: values of the one type at `si`, packed from
/// `pos` to exactly `end`.
pub open spec fn dec_elems(d: Seq<u8>, pos: int, end: int, sig: Seq<u8>, si: int, e: Endian) -> Option<
    Seq<AbsValue>,
>
    decreases d.len() - pos, sig.len() - si, 1int,
{
    if !(0 <= pos <= end <= d.len() && 0 <= si < sig.len()) {
        None
    } else if pos == end {
        Some(Seq::empty())
    } else {
        match dec_val(d, pos, sig, si, e) {
            Some((v, p2, _s2)) => if pos < p2 <= end {
                match dec_elems(d, p2, end, sig, si, e) {
                    Some(rest) => Some(seq![v] + rest),
                    None => None,
                }
            } else {
                None
            },
            None => None,
        }
    }
}

/// The members of a structure: values until the closing parenthesis of the
/// signature.
pub open spec fn dec_members(d: Seq<u8>, pos: int, sig: Seq<u8>, si: int, e: Endian) -> Option<
    (Seq<AbsValue>, int, int),
>
    decreases d.len() - pos, sig.len() - si, 1int,
{
    if !(0 <= pos <= d.len() && 0 <= si < sig.len()) {
        None
    } else if sig[si] == TC_STRUCT_CLOSE {
        Some((Seq::empty(), pos, si + 1))
    } else {
        match dec_val(d, pos, sig, si, e) {
            Some((v, p2, s2)) => if pos <= p2 <= d.len() && si < s2 < sig.len() {
                match dec_members(d, p2, sig, s2, e) {
                    Some((rest, p3, s3)) => Some((seq![v] + rest, p3, s3)),
                    None => None,
                }
            } else {
                None
            },
            None => None,
        }
    }
}

/// A whole body: one value per complete type of the signature, ending when
/// the signature does.
pub open spec fn dec_body(d: Seq<u8>, pos: int, sig: Seq<u8>, si: int, e: Endian) -> Option<
    (Seq<AbsValue>, int),
>
    decreases d.len() - pos, sig.len() - si, 1int,
{
    if !(0 <= pos <= d.len() && 0 <= si <= sig.len()) {
        None
    } else if si == sig.len() {
        Some((Seq::empty(), pos))
    } else {
        match dec_val(d, pos, sig, si, e) {
            Some((v, p2, s2)) => if pos <= p2 <= d.len() && si < s2 <= sig.len() {
                match dec_body(d, p2, sig, s2, e) {
                    Some((rest, p3)) => Some((seq![v] + rest, p3)),
                    None => None,
                }
            } else {
                None
            },
            None => None,
        }
    }
}

/// What a successful decode read stays decodable in any longer buffer whose
/// bytes up to the end position agree.
#[verifier::rlimit(100)]
pub proof fn lemma_dec_val_frame(d1: Seq<u8>, d2: Seq<u8>, pos: int, sig: Seq<u8>, si: int, e: Endian)
    requires
        dec_val(d1, pos, sig, si, e) is Some,
        (dec_val(d1, pos, sig, si, e)->0).1 <= d2.len(),
        forall|k: int| pos <= k < (dec_val(d1, pos, sig, si, e)->0).1 ==> d1[k] == #[trigger] d2[k],
    ensures
        pos <= (dec_val(d1, pos, sig, si, e)->0).1 <= d1.len(),
        dec_val(d2, pos, sig, si, e) == dec_val(d1, pos, sig, si, e),
    decreases d1.len() - pos, sig.len() - si, 0int,
{
    let (v, endp, s2) = dec_val(d1, pos, sig, si, e)->0;
    let c = sig[si];
    if c == TC_BYTE {
    } else if is_fixed_multi(c) {
        let p = align_up(pos, align_of_code(c));
        let sz = scalar_size(c);
        lemma_uint_at_frame(d1, d2, p, sz as nat, e);
    } else if c == TC_STRING || c == TC_PATH {
        let p = align_up(pos, 4);
        let len = uint_at(d1, p, 4, e) as int;
        lemma_uint_at_frame(d1, d2, p, 4, e);
        assert(d1.subrange(p + 4, p + 4 + len) =~= d2.subrange(p + 4, p + 4 + len));
    } else if c == TC_SIG {
        let len = d1[pos] as int;
        assert(d1.subrange(pos + 1, pos + 1 + len) =~= d2.subrange(pos + 1, pos + 1 + len));
    } else if c == TC_VARIANT {
        let slen = d1[pos] as int;
        let gend = pos + 1 + slen;
        let g = d1.subrange(pos + 1, gend);
        lemma_dec_val_frame(d1, d2, gend + 1, g, 0, e);
        assert(d1.subrange(pos + 1, gend) =~= d2.subrange(pos + 1, gend));
    } else if c == TC_ARRAY {
        let se = single_end(sig, si, 0, 0)->0;
        let p = align_up(pos, 4);
        let alen = uint_at(d1, p, 4, e) as int;
        let q = align_up(p + 4, align_of_code(sig[si + 1]));
        lemma_uint_at_frame(d1, d2, p, 4, e);
        lemma_dec_elems_frame(d1, d2, q, q + alen, sig, si + 1, e);
    } else if c == TC_STRUCT_OPEN {
        let p = align_up(pos, 8);
        lemma_dec_members_frame(d1, d2, p, sig, si + 1, e);
    } else {
        let p = align_up(pos, 8);
        let (kv, p1, s1) = dec_val(d1, p, sig, si + 1, e)->0;
        lemma_dec_val_frame(d1, d2, p1, sig, s1, e);
        lemma_dec_val_frame(d1, d2, p, sig, si + 1, e);
    }
}

/// Frame property for array elements.
pub proof fn lemma_dec_elems_frame(
    d1: Seq<u8>,
    d2: Seq<u8>,
    pos: int,
    end: int,
    sig: Seq<u8>,
    si: int,
    e: Endian,
)
    requires
        dec_elems(d1, pos, end, sig, si, e) is Some,
        end <= d2.len(),
        forall|k: int| pos <= k < end ==> d1[k] == #[trigger] d2[k],
    ensures
        dec_elems(d2, pos, end, sig, si, e) == dec_elems(d1, pos, end, sig, si, e),
    decreases d1.len() - pos, sig.len() - si, 1int,
{
    if pos == end {
    } else {
        let (v, p2, _s2) = dec_val(d1, pos, sig, si, e)->0;
        lemma_dec_val_frame(d1, d2, pos, sig, si, e);
        lemma_dec_elems_frame(d1, d2, p2, end, sig, si, e);
    }
}

/// Frame property for structure members.
pub proof fn lemma_dec_members_frame(
    d1: Seq<u8>,
    d2: Seq<u8>,
    pos: int,
    sig: Seq<u8>,
    si: int,
    e: Endian,
)
    requires
        dec_members(d1, pos, sig, si, e) is Some,
        (dec_members(d1, pos, sig, si, e)->0).1 <= d2.len(),
        forall|k: int| pos <= k < (dec_members(d1, pos, sig, si, e)->0).1 ==> d1[k] == #[trigger] d2[k],
    ensures
        pos <= (dec_members(d1, pos, sig, si, e)->0).1 <= d1.len(),
        dec_members(d2, pos, sig, si, e) == dec_members(d1, pos, sig, si, e),
    decreases d1.len() - pos, sig.len() - si, 1int,
{
    if sig[si] == TC_STRUCT_CLOSE {
    } else {
        let (v, p2, s2) = dec_val(d1, pos, sig, si, e)->0;
        lemma_dec_members_frame(d1, d2, p2, sig, s2, e);
        lemma_dec_val_frame(d1, d2, pos, sig, si, e);
    }
}

/// Bytes `start..end` of `d`, copied out.
fn copy_range(d: &Vec<u8>, start: usize, end: usize) -> (r: Vec<u8>)
    requires
        start <= end <= d@.len(),
    ensures
        r@ == d@.subrange(start as int, end as int),
{
    let mut r: Vec<u8> = Vec::new();
    let mut j: usize = start;
    proof {
        assert(d@.subrange(start as int, start as int) =~= Seq::empty());
    }
    while j < end
        invariant
            start <= j <= end <= d@.len(),
            r@ == d@.subrange(start as int, j as int),
        decreases end - j,
    {
        r.push(d[j]);
        proof {
            assert(d@.subrange(start as int, j + 1int) =~= d@.subrange(start as int, j as int)
                + seq![d@[j as int]]);
        }
        j = j + 1;
    }
    r
}

/// Relies on `String::from_utf8`: it succeeds exactly on valid UTF-8 and
/// keeps the bytes.
#[verifier::external_body]
fn string_from_utf8(v: Vec<u8>) -> (r: Option<String>)
    ensures
        r is Some <==> valid_utf8(v@),
        r is Some ==> encode_utf8(r->0@) == v@,
{
    String::from_utf8(v).ok()
}

/// The aligned position, or `None` when it lies past `limit`.
fn align_pos(pos: usize, a: usize, limit: usize) -> (r: Option<usize>)
    requires
        a == 1 || a == 2 || a == 4 || a == 8,
        pos <= limit,
    ensures
        match r {
            Some(p) => p as int == align_up(pos as int, a as int) && pos <= p <= limit,
            None => align_up(pos as int, a as int) > limit,
        },
{
    proof {
        lemma_align_up(pos as int, a as int);
    }
    let pad = (a - pos % a) % a;
    if limit - pos >= pad {
        Some(pos + pad)
    } else {
        None
    }
}

/// Decodes the one complete type of `sig` at `si` from `d` at `pos`,
/// returning exactly what [`dec_val`] means there.
#[verifier::rlimit(100)]
#[verifier::spinoff_prover]
pub fn decode_val(d: &Vec<u8>, pos: usize, sig: &Vec<u8>, si: usize, e: Endian) -> (r: Result<
    (Value, usize, usize),
    Error,
>)
    requires
        pos <= d@.len(),
        si <= sig@.len(),
    ensures
        r matches Ok(t) ==> dec_val(d@, pos as int, sig@, si as int, e) == Some(
            (t.0@, t.1 as int, t.2 as int),
        ) && pos <= t.1 <= d@.len() && si < t.2 <= sig@.len(),
        r is Err ==> dec_val(d@, pos as int, sig@, si as int, e) is None,
    decreases d@.len() - pos, sig@.len() - si, 0int,
{
    let dlen = d.len();
    if si >= sig.len() {
        return Err(Error::InvalidSignature);
    }
    let c = sig[si];
    if c == TC_BYTE {
        if pos < dlen {
            Ok(((Value::Byte(d[pos]), pos + 1, si + 1)))
        } else {
            Err(Error::UnexpectedEndOfData)
        }
    } else if c == TC_BOOL || c == TC_INT16 || c == TC_UINT16 || c == TC_INT32 || c == TC_UINT32
        || c == TC_INT64 || c == TC_UINT64 || c == TC_DOUBLE {
        let a = alignment_of(c);
        let sz: usize = if c == TC_INT16 || c == TC_UINT16 {
            2
        } else if c == TC_BOOL || c == TC_INT32 || c == TC_UINT32 {
            4
        } else {
            8
        };
        let p = match align_pos(pos, a, dlen) {
            Some(p) => p,
            None => {
                return Err(Error::UnexpectedEndOfData);
            },
        };
        if dlen - p < sz {
            return Err(Error::UnexpectedEndOfData);
        }
        let raw = read_uint(d, p, sz, e);
        proof {
            lemma_uint_at_bound(d@, p as int, sz as nat, e);
            lemma_pow256_values();
        }
        let v: Value = if c == TC_BOOL {
            if raw > 1 {
                return Err(Error::TypeMismatch);
            }
            Value::Boolean(raw == 1)
        } else if c == TC_INT16 {
            Value::Int16(i16_of_bits(raw as u16))
        } else if c == TC_UINT16 {
            Value::Uint16(raw as u16)
        } else if c == TC_INT32 {
            Value::Int32(i32_of_bits(raw as u32))
        } else if c == TC_UINT32 {
            Value::Uint32(raw as u32)
        } else if c == TC_INT64 {
            Value::Int64(i64_of_bits(raw))
        } else if c == TC_UINT64 {
            Value::Uint64(raw)
        } else {
            Value::Double(raw)
        };
        Ok((v, p + sz, si + 1))
    } else if c == TC_STRING || c == TC_PATH {
        let p = match align_pos(pos, 4, dlen) {
            Some(p) => p,
            None => {
                return Err(Error::UnexpectedEndOfData);
            },
        };
        if dlen - p < 4 {
            return Err(Error::UnexpectedEndOfData);
        }
        let len64 = read_uint(d, p, 4, e);
        let start = p + 4;
        if (len64 as u64) >= (dlen - start) as u64 {
            proof {
                lemma_uint_at_bound(d@, p as int, 4, e);
                lemma_pow256_values();
            }
            return Err(Error::UnexpectedEndOfData);
        }
        let len = len64 as usize;
        proof {
            lemma_uint_at_bound(d@, p as int, 4, e);
            lemma_pow256_values();
        }
        let endp = start + len;
        if d[endp] != 0 {
            return Err(Error::TypeMismatch);
        }
        let bytes = copy_range(d, start, endp);
        match string_from_utf8(bytes) {
            Some(s) => {
                proof {
                    encode_utf8_decode_utf8(s@);
                }
                if c == TC_STRING {
                    Ok((Value::Str(s), endp + 1, si + 1))
                } else {
                    Ok((Value::ObjectPath(s), endp + 1, si + 1))
                }
            },
            None => Err(Error::TypeMismatch),
        }
    } else if c == TC_SIG {
        if pos >= dlen {
            return Err(Error::UnexpectedEndOfData);
        }
        let len = d[pos] as usize;
        let start = pos + 1;
        if len >= dlen - start {
            return Err(Error::UnexpectedEndOfData);
        }
        let endp = start + len;
        if d[endp] != 0 {
            return Err(Error::TypeMismatch);
        }
        let bytes = copy_range(d, start, endp);
        Ok((Value::Signature(bytes), endp + 1, si + 1))
    } else if c == TC_VARIANT {
        if pos >= dlen {
            return Err(Error::UnexpectedEndOfData);
        }
        let slen = d[pos] as usize;
        let gstart = pos + 1;
        if slen >= dlen - gstart {
            return Err(Error::UnexpectedEndOfData);
        }
        let gend = gstart + slen;
        if d[gend] != 0 {
            return Err(Error::TypeMismatch);
        }
        let g = copy_range(d, gstart, gend);
        match find_single_end(&g, 0, 0, 0) {
            Some(ge) => {
                if ge != g.len() {
                    return Err(Error::TypeMismatch);
                }
            },
            None => {
                return Err(Error::TypeMismatch);
            },
        }
        match decode_val(d, gend + 1, &g, 0, e) {
            Ok((v, p2, _s2)) => Ok((Value::Variant(Box::new(v)), p2, si + 1)),
            Err(err) => Err(err),
        }
    } else if c == TC_ARRAY {
        let se = match find_single_end(sig, si, 0, 0) {
            Some(se) => se,
            None => {
                return Err(Error::InvalidSignature);
            },
        };
        if !(si + 1 < se) {
            return Err(Error::InvalidSignature);
        }
        let p = match align_pos(pos, 4, dlen) {
            Some(p) => p,
            None => {
                return Err(Error::UnexpectedEndOfData);
            },
        };
        if dlen - p < 4 {
            return Err(Error::UnexpectedEndOfData);
        }
        let alen64 = read_uint(d, p, 4, e);
        proof {
            lemma_uint_at_bound(d@, p as int, 4, e);
            lemma_pow256_values();
        }
        let alen = alen64 as usize;
        if alen > ARRAY_MAX_BYTES {
            return Err(Error::TooLarge);
        }
        let ea = alignment_of(sig[si + 1]);
        let q = match align_pos(p + 4, ea, dlen) {
            Some(q) => q,
            None => {
                return Err(Error::UnexpectedEndOfData);
            },
        };
        if alen > dlen - q {
            return Err(Error::UnexpectedEndOfData);
        }
        let items = decode_elems(d, q, q + alen, sig, si + 1, e)?;
        let es = copy_range(sig, si + 1, se);
        Ok((Value::Array(es, items), q + alen, se))
    } else if c == TC_STRUCT_OPEN {
        let p = match align_pos(pos, 8, dlen) {
            Some(p) => p,
            None => {
                return Err(Error::UnexpectedEndOfData);
            },
        };
        let (items, p2, s2) = decode_members(d, p, sig, si + 1, e)?;
        if items.len() == 0 {
            return Err(Error::InvalidSignature);
        }
        proof {
            lemma_abs_seq(items@);
        }
        Ok((Value::Struct(items), p2, s2))
    } else if c == TC_DICT_OPEN {
        let p = match align_pos(pos, 8, dlen) {
            Some(p) => p,
            None => {
                return Err(Error::UnexpectedEndOfData);
            },
        };
        if !(si + 1 < sig.len()) {
            return Err(Error::InvalidSignature);
        }
        let (kv, p1, s1) = decode_val(d, p, sig, si + 1, e)?;
        if !(s1 < sig.len()) {
            return Err(Error::InvalidSignature);
        }
        let (vv, p2, s2) = decode_val(d, p1, sig, s1, e)?;
        if !(s2 < sig.len()) {
            return Err(Error::InvalidSignature);
        }
        if sig[s2] != TC_DICT_CLOSE {
            return Err(Error::InvalidSignature);
        }
        Ok((Value::DictEntry(Box::new(kv), Box::new(vv)), p2, s2 + 1))
    } else {
        Err(Error::InvalidSignature)
    }
}

/// Decodes array elements packed from `pos` to exactly `end`.
pub fn decode_elems(d: &Vec<u8>, pos: usize, end: usize, sig: &Vec<u8>, si: usize, e: Endian) -> (r:
    Result<Vec<Value>, Error>)
    requires
        pos <= d@.len(),
        end <= d@.len(),
        si <= sig@.len(),
    ensures
        r matches Ok(vs) ==> dec_elems(d@, pos as int, end as int, sig@, si as int, e) == Some(
            abs_seq(vs@),
        ),
        r is Err ==> dec_elems(d@, pos as int, end as int, sig@, si as int, e) is None,
    decreases d@.len() - pos, sig@.len() - si, 1int,
{
    if si >= sig.len() || pos > end {
        return Err(Error::InvalidSignature);
    }
    if pos == end {
        let vs: Vec<Value> = Vec::new();
        proof {
            lemma_abs_seq(vs@);
            assert(abs_seq(vs@) =~= Seq::<AbsValue>::empty());
        }
        return Ok(vs);
    }
    let (v, p2, _s2) = decode_val(d, pos, sig, si, e)?;
    if !(pos < p2 && p2 <= end) {
        return Err(Error::UnexpectedEndOfData);
    }
    let rest = decode_elems(d, p2, end, sig, si, e)?;
    let ghost restg = rest@;
    let mut rest = rest;
    rest.insert(0, v);
    proof {
        assert(rest@ =~= seq![v] + restg);
        lemma_abs_seq(rest@);
        lemma_abs_seq(restg);
        assert forall|k: int| 0 <= k < rest@.len() implies abs_seq(rest@)[k] == (seq![v@]
            + abs_seq(restg))[k] by {
            if k == 0 {
                assert(rest@[0] == v);
                assert(abs_seq(rest@)[0] == rest@[0]@);
            } else {
                assert(rest@[k] == restg[k - 1]);
                assert(abs_seq(rest@)[k] == rest@[k]@);
                assert(abs_seq(restg)[k - 1] == restg[k - 1]@);
            }
        }
        assert(abs_seq(rest@) =~= seq![v@] + abs_seq(restg));
    }
    Ok(rest)
}

/// Decodes structure members until the closing parenthesis.
pub fn decode_members(d: &Vec<u8>, pos: usize, sig: &Vec<u8>, si: usize, e: Endian) -> (r: Result<
    (Vec<Value>, usize, usize),
    Error,
>)
    requires
        pos <= d@.len(),
        si <= sig@.len(),
    ensures
        r matches Ok(t) ==> dec_members(d@, pos as int, sig@, si as int, e) == Some(
            (abs_seq(t.0@), t.1 as int, t.2 as int),
        ) && pos <= t.1 <= d@.len() && si < t.2 <= sig@.len(),
        r is Err ==> dec_members(d@, pos as int, sig@, si as int, e) is None,
    decreases d@.len() - pos, sig@.len() - si, 1int,
{
    if si >= sig.len() {
        return Err(Error::InvalidSignature);
    }
    if sig[si] == TC_STRUCT_CLOSE {
        let vs: Vec<Value> = Vec::new();
        proof {
            lemma_abs_seq(vs@);
            assert(abs_seq(vs@) =~= Seq::<AbsValue>::empty());
        }
        return Ok((vs, pos, si + 1));
    }
    let (v, p2, s2) = decode_val(d, pos, sig, si, e)?;
    if !(s2 < sig.len()) {
        return Err(Error::InvalidSignature);
    }
    let (rest, p3, s3) = decode_members(d, p2, sig, s2, e)?;
    let ghost restg = rest@;
    let mut rest = rest;
    rest.insert(0, v);
    proof {
        assert(rest@ =~= seq![v] + restg);
        lemma_abs_seq(rest@);
        lemma_abs_seq(restg);
        assert forall|k: int| 0 <= k < rest@.len() implies abs_seq(rest@)[k] == (seq![v@]
            + abs_seq(restg))[k] by {
            if k == 0 {
                assert(rest@[0] == v);
                assert(abs_seq(rest@)[0] == rest@[0]@);
            } else {
                assert(rest@[k] == restg[k - 1]);
                assert(abs_seq(rest@)[k] == rest@[k]@);
                assert(abs_seq(restg)[k - 1] == restg[k - 1]@);
            }
        }
        assert(abs_seq(rest@) =~= seq![v@] + abs_seq(restg));
    }
    Ok((rest, p3, s3))
}

/// Decodes one value per complete type of the signature, from `pos` on.
pub fn decode_body_from(d: &Vec<u8>, pos: usize, sig: &Vec<u8>, si: usize, e: Endian) -> (r: Result<
    (Vec<Value>, usize),
    Error,
>)
    requires
        pos <= d@.len(),
        si <= sig@.len(),
    ensures
        r matches Ok(t) ==> dec_body(d@, pos as int, sig@, si as int, e) == Some(
            (abs_seq(t.0@), t.1 as int),
        ) && pos <= t.1 <= d@.len(),
        r is Err ==> dec_body(d@, pos as int, sig@, si as int, e) is None,
    decreases d@.len() - pos, sig@.len() - si, 1int,
{
    if si == sig.len() {
        let vs: Vec<Value> = Vec::new();
        proof {
            lemma_abs_seq(vs@);
            assert(abs_seq(vs@) =~= Seq::<AbsValue>::empty());
        }
        return Ok((vs, pos));
    }
    let (v, p2, s2) = decode_val(d, pos, sig, si, e)?;
    let (rest, p3) = decode_body_from(d, p2, sig, s2, e)?;
    let ghost restg = rest@;
    let mut rest = rest;
    rest.insert(0, v);
    proof {
        assert(rest@ =~= seq![v] + restg);
        lemma_abs_seq(rest@);
        lemma_abs_seq(restg);
        assert forall|k: int| 0 <= k < rest@.len() implies abs_seq(rest@)[k] == (seq![v@]
            + abs_seq(restg))[k] by {
            if k == 0 {
                assert(rest@[0] == v);
                assert(abs_seq(rest@)[0] == rest@[0]@);
            } else {
                assert(rest@[k] == restg[k - 1]);
                assert(abs_seq(rest@)[k] == rest@[k]@);
                assert(abs_seq(restg)[k - 1] == restg[k - 1]@);
            }
        }
        assert(abs_seq(rest@) =~= seq![v@] + abs_seq(restg));
    }
    Ok((rest, p3))
}

/// Decodes a whole body: the signature must describe the bytes, and the
/// bytes must be consumed exactly.
pub fn decode_body(d: &Vec<u8>, sig: &Vec<u8>, e: Endian) -> (r: Result<Vec<Value>, Error>)
    ensures
        r matches Ok(vs) ==> dec_body(d@, 0, sig@, 0, e) == Some((abs_seq(vs@), d@.len() as int)),
        r is Err ==> !(dec_body(d@, 0, sig@, 0, e) matches Some(t) && t.1 == d@.len()),
{
    let (vs, endp) = decode_body_from(d, 0, sig, 0, e)?;
    if endp != d.len() {
        return Err(Error::UnexpectedEndOfData);
    }
    Ok(vs)
}



/// The position just past a value encoded at `pos`: the exact cursor
/// arithmetic of the wire layout, without the bytes.
pub open spec fn enc_end(a: AbsValue, pos: int) -> int
    decreases a, 0int,
{
    match a {
        AbsValue::Byte(_) => pos + 1,
        AbsValue::Boolean(_) => align_up(pos, 4) + 4,
        AbsValue::Int16(_) => align_up(pos, 2) + 2,
        AbsValue::Uint16(_) => align_up(pos, 2) + 2,
        AbsValue::Int32(_) => align_up(pos, 4) + 4,
        AbsValue::Uint32(_) => align_up(pos, 4) + 4,
        AbsValue::Int64(_) => align_up(pos, 8) + 8,
        AbsValue::Uint64(_) => align_up(pos, 8) + 8,
        AbsValue::Double(_) => align_up(pos, 8) + 8,
        AbsValue::Str(s) => align_up(pos, 4) + 4 + encode_utf8(s).len() + 1,
        AbsValue::ObjectPath(s) => align_up(pos, 4) + 4 + encode_utf8(s).len() + 1,
        AbsValue::Signature(g) => pos + 1 + g.len() + 1,
        AbsValue::Array(es, items) => {
            let q = align_up(align_up(pos, 4) + 4, align_of_code(es[0]));
            enc_end_seq(items, q)
        },
        AbsValue::Struct(items) => enc_end_seq(items, align_up(pos, 8)),
        AbsValue::DictEntry(k, v) => enc_end(*v, enc_end(*k, align_up(pos, 8))),
        AbsValue::Variant(b) => enc_end(*b, pos + 2 + sig_of(*b).len()),
    }
}

/// The position just past a run of values encoded one after another.
pub open spec fn enc_end_seq(items: Seq<AbsValue>, pos: int) -> int
    decreases items, 0int,
{
    if items.len() == 0 {
        pos
    } else {
        enc_end_seq(items.subrange(1, items.len() as int), enc_end(items[0], pos))
    }
}

/// Whether a value encoded at `pos` stays inside every wire length limit:
/// strings fit their 32-bit length prefix, each array's element bytes fit
/// [`ARRAY_MAX_BYTES`], and no array sits close enough to the end of the
/// address space to overflow the cursor.
pub open spec fn enc_fits(a: AbsValue, pos: int) -> bool
    decreases a, 0int,
{
    match a {
        AbsValue::Str(s) => encode_utf8(s).len() <= 0xFFFFFFFF,
        AbsValue::ObjectPath(s) => encode_utf8(s).len() <= 0xFFFFFFFF,
        AbsValue::Array(es, items) => {
            let p = align_up(pos, 4);
            let q = align_up(p + 4, align_of_code(es[0]));
            &&& p < usize::MAX as int - 16
            &&& enc_fits_seq(items, q)
            &&& enc_end_seq(items, q) - q <= ARRAY_MAX_BYTES as int
        },
        AbsValue::Struct(items) => enc_fits_seq(items, align_up(pos, 8)),
        AbsValue::DictEntry(k, v) => enc_fits(*k, align_up(pos, 8)) && enc_fits(
            *v,
            enc_end(*k, align_up(pos, 8)),
        ),
        AbsValue::Variant(b) => enc_fits(*b, pos + 2 + sig_of(*b).len()),
        _ => true,
    }
}

/// [`enc_fits`] for a run of values, each at the position the previous
/// one ends.
pub open spec fn enc_fits_seq(items: Seq<AbsValue>, pos: int) -> bool
    decreases items, 0int,
{
    if items.len() == 0 {
        true
    } else {
        enc_fits(items[0], pos) && enc_fits_seq(
            items.subrange(1, items.len() as int),
            enc_end(items[0], pos),
        )
    }
}

/// A later buffer that extends an earlier one keeps every earlier prefix.
proof fn lemma_prefix_trans(a: Seq<u8>, b: Seq<u8>, c: Seq<u8>)
    requires
        a.len() <= b.len() <= c.len(),
        b.subrange(0, a.len() as int) == a,
        c.subrange(0, b.len() as int) == b,
    ensures
        c.subrange(0, a.len() as int) == a,
{
    assert forall|k: int| 0 <= k < a.len() implies c.subrange(0, a.len() as int)[k] == a[k] by {
        assert(c.subrange(0, b.len() as int)[k] == b[k]);
        assert(b.subrange(0, a.len() as int)[k] == a[k]);
    }
    assert(c.subrange(0, a.len() as int) =~= a);
}

/// A signature of a value starts with a type code, never a closing mark.
proof fn lemma_sig_of_first(a: AbsValue)
    ensures
        sig_of(a).len() >= 1,
        sig_of(a)[0] != TC_STRUCT_CLOSE,
        sig_of(a)[0] != TC_DICT_CLOSE,
{
}

/// An array element signature is never empty.
proof fn lemma_elem_sig_nonempty(es: Seq<u8>)
    requires
        crate::signature::elem_sig_ok(es),
    ensures
        es.len() >= 1,
{
    if es.len() == 0 {
        let s = seq![TC_ARRAY] + es;
        assert(s =~= seq![TC_ARRAY]);
        assert(s.len() == 1);
        assert(single_end(s, 1, 1, 0) is None);
        assert(single_end(s, 0, 0, 0) is None);
    }
}

/// Encodes one value at the end of `buf`.  `sig` and `si` name where the
/// value's type sits in the signature that will drive decoding; the output
/// means the value there: that is the round-trip law.
#[verifier::rlimit(100)]
#[verifier::spinoff_prover]
pub fn encode_val(buf: &mut Vec<u8>, v: &Value, sig: Ghost<Seq<u8>>, si: Ghost<int>) -> (r: Result<
    (),
    Error,
>)
    requires
        wf_val(v@),
        0 <= si@,
        si@ + sig_of(v@).len() <= sig@.len(),
        sig@.subrange(si@, si@ + sig_of(v@).len() as int) == sig_of(v@),
    ensures
        r is Ok <==> enc_fits(v@, old(buf)@.len() as int),
        r is Ok ==> ({
            &&& final(buf)@.len() > old(buf)@.len()
            &&& final(buf)@.len() == enc_end(v@, old(buf)@.len() as int)
            &&& final(buf)@.subrange(0, old(buf)@.len() as int) == old(buf)@
            &&& dec_val(final(buf)@, old(buf)@.len() as int, sig@, si@, Endian::Little) == Some(
                (v@, final(buf)@.len() as int, si@ + sig_of(v@).len()),
            )
        }),
        r is Err ==> final(buf)@ == old(buf)@ && r->Err_0 is TooLarge,
    decreases v, 0int,
{
    let ghost start = buf@.len() as int;
    let orig_len = buf.len();
    proof {
        assert(sig@[si@] == sig_of(v@)[0]) by {
            assert(sig@.subrange(si@, si@ + sig_of(v@).len() as int)[0] == sig_of(v@)[0]);
        }
        lemma_pow256_values();
    }
    match v {
        Value::Byte(x) => {
            buf.push(*x);
            proof {
                assert(buf@.subrange(0, start) =~= old(buf)@);
                assert(buf@[start] == *x);
            }
            Ok(())
        },
        Value::Boolean(x) => {
            let bits: u64 = if *x {
                1
            } else {
                0
            };
            encode_fixed(buf, bits, 4, Ghost(sig@), Ghost(si@), Ghost(v@));
            Ok(())
        },
        Value::Int16(x) => {
            let bits = i16_to_bits(*x);
            encode_fixed(buf, bits as u64, 2, Ghost(sig@), Ghost(si@), Ghost(v@));
            Ok(())
        },
        Value::Uint16(x) => {
            encode_fixed(buf, *x as u64, 2, Ghost(sig@), Ghost(si@), Ghost(v@));
            Ok(())
        },
        Value::Int32(x) => {
            let bits = i32_to_bits(*x);
            encode_fixed(buf, bits as u64, 4, Ghost(sig@), Ghost(si@), Ghost(v@));
            Ok(())
        },
        Value::Uint32(x) => {
            encode_fixed(buf, *x as u64, 4, Ghost(sig@), Ghost(si@), Ghost(v@));
            Ok(())
        },
        Value::Int64(x) => {
            let bits = i64_to_bits(*x);
            encode_fixed(buf, bits, 8, Ghost(sig@), Ghost(si@), Ghost(v@));
            Ok(())
        },
        Value::Uint64(x) => {
            encode_fixed(buf, *x, 8, Ghost(sig@), Ghost(si@), Ghost(v@));
            Ok(())
        },
        Value::Double(x) => {
            encode_fixed(buf, *x, 8, Ghost(sig@), Ghost(si@), Ghost(v@));
            Ok(())
        },
        Value::Str(s) => {
            encode_string_like(buf, s, true, Ghost(sig@), Ghost(si@), Ghost(v@))
        },
        Value::ObjectPath(s) => {
            encode_string_like(buf, s, false, Ghost(sig@), Ghost(si@), Ghost(v@))
        },
        Value::Signature(sv) => {
            proof {
                assert(sv@.len() <= 255);
            }
            buf.push(sv.len() as u8);
            let ghost b1 = buf@;
            buf.extend_from_slice(sv.as_slice());
            let ghost b2 = buf@;
            buf.push(0);
            proof {
                assert(buf@.subrange(0, start) =~= old(buf)@);
                assert(buf@[start] == sv@.len() as u8);
                assert(buf@.subrange(start + 1, start + 1 + sv@.len() as int) =~= sv@);
                assert(buf@[start + 1 + sv@.len() as int] == 0);
            }
            Ok(())
        },
        Value::Variant(b) => {
            let g = b.signature();
            proof {
                assert(sig_single(sig_of((**b)@)));
                assert(g@.len() <= 255);
            }
            buf.push(g.len() as u8);
            buf.extend_from_slice(g.as_slice());
            buf.push(0);
            let ghost pre_inner = buf@;
            proof {
                assert(pre_inner.subrange(0, start) =~= old(buf)@);
                assert(g@.subrange(0, sig_of((**b)@).len() as int) =~= g@);
            }
            match encode_val(buf, b, Ghost(g@), Ghost(0)) {
                Ok(()) => {
                    proof {
                        let d = buf@;
                        let gend = start + 1 + g@.len() as int;
                        assert(d.subrange(0, pre_inner.len() as int) == pre_inner);
                        lemma_prefix_trans(old(buf)@, pre_inner, d);
                        assert forall|k: int| 0 <= k < pre_inner.len() implies d[k]
                            == pre_inner[k] by {
                            assert(d.subrange(0, pre_inner.len() as int)[k] == pre_inner[k]);
                        }
                        assert(d[start] == g@.len() as u8);
                        assert(d.subrange(start + 1, gend) =~= g@);
                        assert(d[gend] == 0);
                        assert(dec_val(d, gend + 1, g@, 0, Endian::Little) == Some(
                            ((**b)@, d.len() as int, sig_of((**b)@).len() as int),
                        ));
                    }
                    Ok(())
                },
                Err(e) => {
                    buf.truncate(orig_len);
                    proof {
                        assert(buf@ =~= old(buf)@);
                    }
                    Err(e)
                },
            }
        },
        Value::Array(es, items) => {
            proof {
                assert(decreases_to!(*v => *items));
            }
            encode_array(buf, es, items, Ghost(sig@), Ghost(si@), Ghost(v@))
        },
        Value::Struct(items) => {
            pad_to(buf, 8);
            let ghost b8 = buf@;
            proof {
                lemma_abs_seq(items@);
                assert(abs_seq(items@).subrange(0, items@.len() as int) =~= abs_seq(items@));
                assert(sig_of(v@) =~= seq![TC_STRUCT_OPEN] + sig_of_seq(abs_seq(items@)) + seq![
                    TC_STRUCT_CLOSE,
                ]);
                let mlen = sig_of_seq(abs_seq(items@)).len() as int;
                assert forall|k: int| 0 <= k < mlen implies sig@.subrange(
                    si@ + 1,
                    si@ + 1 + mlen,
                )[k] == sig_of_seq(abs_seq(items@))[k] by {
                    assert(sig@.subrange(si@, si@ + sig_of(v@).len() as int)[k + 1] == sig_of(
                        v@,
                    )[k + 1]);
                    assert((seq![TC_STRUCT_OPEN] + sig_of_seq(abs_seq(items@)) + seq![
                        TC_STRUCT_CLOSE,
                    ])[k + 1] == sig_of_seq(abs_seq(items@))[k]);
                }
                assert(sig@.subrange(si@ + 1, si@ + 1 + mlen) =~= sig_of_seq(abs_seq(items@)));
                assert(sig@[si@ + 1 + mlen] == TC_STRUCT_CLOSE) by {
                    assert(sig@.subrange(si@, si@ + sig_of(v@).len() as int)[sig_of(v@).len()
                        - 1] == sig_of(v@)[sig_of(v@).len() - 1]);
                    assert(sig_of(v@)[sig_of(v@).len() - 1] == TC_STRUCT_CLOSE);
                }
            }
            match encode_members(buf, items, 0, Ghost(sig@), Ghost(si@ + 1)) {
                Ok(()) => {
                    proof {
                        let d = buf@;
                        lemma_prefix_trans(old(buf)@, b8, d);
                        lemma_align_up(start, 8);
                        lemma_abs_seq(items@);
                        assert(abs_seq(items@).len() >= 1);
                    }
                    Ok(())
                },
                Err(e) => {
                    buf.truncate(orig_len);
                    proof {
                        assert(buf@ =~= old(buf)@);
                    }
                    Err(e)
                },
            }
        },
        Value::DictEntry(k, val) => {
            pad_to(buf, 8);
            let ghost b8 = buf@;
            let ghost ks = sig_of((**k)@);
            let ghost vs = sig_of((**val)@);
            proof {
                assert(sig_of(v@) =~= seq![TC_DICT_OPEN] + ks + vs + seq![TC_DICT_CLOSE]);
                assert forall|k: int| 0 <= k < ks.len() implies sig@.subrange(
                    si@ + 1,
                    si@ + 1 + ks.len() as int,
                )[k] == ks[k] by {
                    assert(sig@.subrange(si@, si@ + sig_of(v@).len() as int)[k + 1] == sig_of(
                        v@,
                    )[k + 1]);
                    assert((seq![TC_DICT_OPEN] + ks + vs + seq![TC_DICT_CLOSE])[k + 1] == ks[k]);
                }
                assert(sig@.subrange(si@ + 1, si@ + 1 + ks.len() as int) =~= ks);
                assert forall|k: int| 0 <= k < vs.len() implies sig@.subrange(
                    si@ + 1 + ks.len() as int,
                    si@ + 1 + ks.len() + vs.len() as int,
                )[k] == vs[k] by {
                    assert(sig@.subrange(si@, si@ + sig_of(v@).len() as int)[k + 1 + ks.len()]
                        == sig_of(v@)[k + 1 + ks.len()]);
                    assert((seq![TC_DICT_OPEN] + ks + vs + seq![TC_DICT_CLOSE])[k + 1 + ks.len()]
                        == vs[k]);
                }
                assert(sig@.subrange(
                    si@ + 1 + ks.len() as int,
                    si@ + 1 + ks.len() + vs.len() as int,
                ) =~= vs);
                assert(sig@[si@ + 1 + ks.len() + vs.len()] == TC_DICT_CLOSE) by {
                    assert(sig@.subrange(si@, si@ + sig_of(v@).len() as int)[sig_of(v@).len()
                        - 1] == sig_of(v@)[sig_of(v@).len() - 1]);
                    assert(sig_of(v@)[sig_of(v@).len() - 1] == TC_DICT_CLOSE);
                }
            }
            match encode_val(buf, k, Ghost(sig@), Ghost(si@ + 1)) {
                Ok(()) => {},
                Err(e) => {
                    buf.truncate(orig_len);
                    proof {
                        assert(buf@ =~= old(buf)@);
                    }
                    return Err(e);
                },
            }
            let ghost b_k = buf@;
            match encode_val(buf, val, Ghost(sig@), Ghost(si@ + 1 + ks.len() as int)) {
                Ok(()) => {
                    proof {
                        let d = buf@;
                        lemma_prefix_trans(b8, b_k, d);
                        lemma_prefix_trans(old(buf)@, b8, d);
                        assert forall|kk: int| 0 <= kk < b_k.len() implies d[kk] == b_k[kk] by {
                            assert(d.subrange(0, b_k.len() as int)[kk] == b_k[kk]);
                        }
                        lemma_dec_val_frame(
                            b_k,
                            d,
                            b8.len() as int,
                            sig@,
                            si@ + 1,
                            Endian::Little,
                        );
                        lemma_align_up(start, 8);
                    }
                    Ok(())
                },
                Err(e) => {
                    buf.truncate(orig_len);
                    proof {
                        assert(buf@ =~= old(buf)@);
                    }
                    Err(e)
                },
            }
        },
    }
}


/// Encodes an array: length prefix, padding to the element alignment,
/// then the elements packed.
#[verifier::rlimit(100)]
#[verifier::spinoff_prover]
fn encode_array(buf: &mut Vec<u8>, es: &Vec<u8>, items: &Vec<Value>, sig: Ghost<Seq<u8>>, si: Ghost<
    int,
>, va: Ghost<AbsValue>) -> (r: Result<(), Error>)
    requires
        va@ == AbsValue::Array(es@, abs_seq(items@)),
        wf_val(va@),
        0 <= si@,
        si@ + sig_of(va@).len() <= sig@.len(),
        sig@.subrange(si@, si@ + sig_of(va@).len() as int) == sig_of(va@),
    ensures
        r is Ok <==> enc_fits(va@, old(buf)@.len() as int),
        r is Ok ==> ({
            &&& final(buf)@.len() > old(buf)@.len()
            &&& final(buf)@.len() == enc_end(va@, old(buf)@.len() as int)
            &&& final(buf)@.subrange(0, old(buf)@.len() as int) == old(buf)@
            &&& dec_val(final(buf)@, old(buf)@.len() as int, sig@, si@, Endian::Little) == Some(
                (va@, final(buf)@.len() as int, si@ + sig_of(va@).len()),
            )
        }),
        r is Err ==> final(buf)@ == old(buf)@ && r->Err_0 is TooLarge,
    decreases *items, items@.len() + 1,
{
    let ghost start = buf@.len() as int;
    let orig_len = buf.len();
    proof {
        assert(sig@[si@] == sig_of(va@)[0]) by {
            assert(sig@.subrange(si@, si@ + sig_of(va@).len() as int)[0] == sig_of(va@)[0]);
        }
        lemma_pow256_values();
    }
            pad_to(buf, 4);
            let lpos = buf.len();
            proof {
                lemma_elem_sig_nonempty(es@);
                assert(sig_of(va@) =~= seq![TC_ARRAY] + es@);
                assert(sig@[si@ + 1] == es@[0]) by {
                    assert(sig@.subrange(si@, si@ + sig_of(va@).len() as int)[1] == sig_of(va@)[1]);
                    assert((seq![TC_ARRAY] + es@)[1] == es@[0]);
                }
            }
            if lpos >= usize::MAX - 16 {
                buf.truncate(orig_len);
                proof {
                    assert(buf@ =~= old(buf)@);
                }
                return Err(Error::TooLarge);
            }
            let ea = alignment_of(es[0]);
            let pad2 = (ea - ((lpos + 4) % ea)) % ea;
            let q = lpos + 4 + pad2;
            proof {
                lemma_align_up(lpos + 4, ea as int);
                assert(q as int == align_up(lpos as int + 4, ea as int));
            }
            let mut tmp: Vec<u8> = vec![0u8; q];
            proof {
                assert(tmp@.len() == q);
                lemma_abs_seq(items@);
                assert(abs_seq(items@).subrange(0, items@.len() as int) =~= abs_seq(items@));
                assert forall|k: int| 0 <= k < es@.len() implies sig@.subrange(
                    si@ + 1,
                    si@ + 1 + es@.len() as int,
                )[k] == es@[k] by {
                    assert(sig@.subrange(si@, si@ + sig_of(va@).len() as int)[k + 1] == sig_of(
                        va@,
                    )[k + 1]);
                    assert((seq![TC_ARRAY] + es@)[k + 1] == es@[k]);
                }
                assert(sig@.subrange(si@ + 1, si@ + 1 + es@.len() as int) =~= es@);
                let ai = abs_seq(items@);
                assert(va@ == AbsValue::Array(es@, ai));
                reveal_with_fuel(wf_val, 2);
                assert(wf_val(va@));
                assert(elem_sig_ok(es@));
                assert forall|k: int| 0 <= k < items@.len() implies wf_val(#[trigger] items@[k]@)
                    && sig_of(items@[k]@) == es@ by {
                    assert(ai[k] == items@[k]@);
                    assert(0 <= k < ai.len());
                    assert(va@->Array_1 == ai);
                    assert(wf_val(va@->Array_1[k]));
                    assert(sig_of(ai[k]) == es@);
                }
            }
            match encode_items(&mut tmp, items, 0, Ghost(sig@), Ghost(si@ + 1), Ghost(es@)) {
                Ok(()) => {},
                Err(e) => {
                    buf.truncate(orig_len);
                    proof {
                        assert(buf@ =~= old(buf)@);
                    }
                    return Err(e);
                },
            }
            let elem_bytes = tmp.len() - q;
            if elem_bytes > ARRAY_MAX_BYTES {
                buf.truncate(orig_len);
                proof {
                    assert(buf@ =~= old(buf)@);
                }
                return Err(Error::TooLarge);
            }
            let ghost b_pad = buf@;
            push_uint_le(buf, elem_bytes as u64, 4);
            let ghost b_len = buf@;
            pad_to(buf, ea);
            let ghost b_q = buf@;
            proof {
                lemma_align_up(lpos as int + 4, ea as int);
                assert(b_q.len() == q);
            }
            let mut j = q;
            let tlen = tmp.len();
            while j < tlen
                invariant
                    q <= j <= tlen == tmp@.len(),
                    buf@ == b_q + tmp@.subrange(q as int, j as int),
                    b_q.len() == q,
                decreases tlen - j,
            {
                buf.push(tmp[j]);
                proof {
                    assert(tmp@.subrange(q as int, j + 1int) =~= tmp@.subrange(q as int, j as int)
                        + seq![tmp@[j as int]]);
                    assert(buf@ =~= b_q + tmp@.subrange(q as int, j + 1int));
                }
                j = j + 1;
            }
            proof {
                let d = buf@;
                assert(d.len() == q + elem_bytes);
                // prefix chain
                assert(b_len.subrange(0, b_pad.len() as int) == b_pad);
                assert(b_q.subrange(0, b_len.len() as int) == b_len);
                assert(d.subrange(0, b_q.len() as int) =~= b_q);
                lemma_prefix_trans(b_pad, b_len, b_q);
                lemma_prefix_trans(b_pad, b_q, d);
                lemma_prefix_trans(old(buf)@, b_pad, d);
                assert forall|k: int| 0 <= k < b_q.len() implies d[k] == b_q[k] by {
                    assert(d.subrange(0, b_q.len() as int)[k] == b_q[k]);
                }
                // the length field
                assert(le_at(b_len, lpos as int, 4) == elem_bytes as nat);
                lemma_uint_at_frame(b_len, d, lpos as int, 4, Endian::Little);
                assert forall|k: int| lpos <= k < lpos + 4 implies b_len[k] == d[k] by {
                    assert(b_q.subrange(0, b_len.len() as int)[k] == b_len[k]);
                }
                assert(uint_at(d, lpos as int, 4, Endian::Little) == elem_bytes as nat);
                // elements
                assert forall|k: int| q <= k < q + elem_bytes implies tmp@[k] == d[k] by {
                    assert((b_q + tmp@.subrange(q as int, tlen as int))[k] == tmp@.subrange(
                        q as int,
                        tlen as int,
                    )[k - q]);
                }
                lemma_dec_elems_frame(
                    tmp@,
                    d,
                    q as int,
                    q as int + elem_bytes,
                    sig@,
                    si@ + 1,
                    Endian::Little,
                );
                // the array's signature window
                let aw = seq![TC_ARRAY] + es@;
                assert(single_end(aw, 0, 0, 0) == Some(aw.len() as int));
                assert(sig@.subrange(si@, si@ + aw.len() as int) =~= aw);
                assert(aw.subrange(0, aw.len() as int) =~= aw);
                lemma_single_end_window(aw, 0, 0, 0, sig@, si@);
                assert(single_end(sig@, si@, 0, 0) == Some(si@ + aw.len()));
                assert(sig@.subrange(si@ + 1, si@ + aw.len()) =~= es@);
                lemma_align_up(start, 4);
                assert(align_up(start, 4) == lpos as int);
                assert(align_up(lpos as int + 4, align_of_code(sig@[si@ + 1])) == q as int);
                assert(va@ matches AbsValue::Array(ves, vitems) && ves == es@ && vitems == abs_seq(
                    items@,
                ));
            }
            Ok(())
        
}

/// Writes a fixed-size scalar: padding to its alignment, then its bits,
/// little-endian.
#[verifier::rlimit(100)]
fn encode_fixed(buf: &mut Vec<u8>, bits: u64, sz: usize, sig: Ghost<Seq<u8>>, si: Ghost<int>, va: Ghost<
    AbsValue,
>)
    requires
        sz == 2 || sz == 4 || sz == 8,
        0 <= si@ < sig@.len(),
        sig@[si@] == sig_of(va@)[0],
        sig_of(va@).len() == 1,
        is_fixed_multi(sig_of(va@)[0]),
        scalar_size(sig_of(va@)[0]) == sz,
        align_of_code(sig_of(va@)[0]) == sz,
        make_scalar(sig_of(va@)[0], bits as nat) == va@,
        !(sig_of(va@)[0] == TC_BOOL && bits > 1),
        (bits as nat) < pow256(sz as nat),
    ensures
        final(buf)@.len() > old(buf)@.len(),
        final(buf)@.len() == align_up(old(buf)@.len() as int, sz as int) + sz,
        final(buf)@.subrange(0, old(buf)@.len() as int) == old(buf)@,
        dec_val(final(buf)@, old(buf)@.len() as int, sig@, si@, Endian::Little) == Some(
            (va@, final(buf)@.len() as int, si@ + 1),
        ),
{
    let ghost start = buf@.len() as int;
    pad_to(buf, sz);
    let ghost b_pad = buf@;
    push_uint_le(buf, bits, sz);
    proof {
        let d = buf@;
        lemma_align_up(start, sz as int);
        assert(d.subrange(0, b_pad.len() as int) == b_pad);
        lemma_prefix_trans(old(buf)@, b_pad, d);
        assert(le_at(d, b_pad.len() as int, sz as nat) == bits as nat);
        assert(uint_at(d, align_up(start, align_of_code(sig@[si@])), scalar_size(sig@[si@]) as nat, Endian::Little) == bits as nat);
    }
}

/// Writes a string or object path: padding, length, UTF-8 bytes, NUL.
#[verifier::rlimit(100)]
fn encode_string_like(buf: &mut Vec<u8>, s: &String, is_str: bool, sig: Ghost<Seq<u8>>, si: Ghost<
    int,
>, va: Ghost<AbsValue>) -> (r: Result<(), Error>)
    requires
        0 <= si@ < sig@.len(),
        is_str ==> sig@[si@] == TC_STRING && va@ == AbsValue::Str(s@),
        !is_str ==> sig@[si@] == TC_PATH && va@ == AbsValue::ObjectPath(s@),
    ensures
        r is Ok <==> encode_utf8(s@).len() <= 0xFFFFFFFF,
        r is Ok ==> ({
            &&& final(buf)@.len() > old(buf)@.len()
            &&& final(buf)@.len() == align_up(old(buf)@.len() as int, 4) + 4 + encode_utf8(
                s@,
            ).len() + 1
            &&& final(buf)@.subrange(0, old(buf)@.len() as int) == old(buf)@
            &&& dec_val(final(buf)@, old(buf)@.len() as int, sig@, si@, Endian::Little) == Some(
                (va@, final(buf)@.len() as int, si@ + 1),
            )
        }),
        r is Err ==> final(buf)@ == old(buf)@ && r->Err_0 is TooLarge,
{
    let ghost start = buf@.len() as int;
    let bytes = s.as_bytes_vec();
    if bytes.len() as u64 > 0xFFFFFFFFu64 {
        return Err(Error::TooLarge);
    }
    proof {
        lemma_pow256_values();
    }
    pad_to(buf, 4);
    let ghost b_pad = buf@;
    push_uint_le(buf, bytes.len() as u64, 4);
    let ghost b_len = buf@;
    buf.extend_from_slice(bytes.as_slice());
    let ghost b_bytes = buf@;
    buf.push(0);
    proof {
        let d = buf@;
        let p = b_pad.len() as int;
        lemma_align_up(start, 4);
        assert(b_len.subrange(0, p) == b_pad);
        assert(b_bytes =~= b_len + bytes@);
        assert(d =~= b_bytes + seq![0u8]);
        assert(d.subrange(0, b_len.len() as int) =~= b_len);
        lemma_prefix_trans(b_pad, b_len, d);
        lemma_prefix_trans(old(buf)@, b_pad, d);
        assert forall|k: int| p <= k < p + 4 implies b_len[k] == d[k] by {
            assert(d.subrange(0, b_len.len() as int)[k] == b_len[k]);
        }
        lemma_uint_at_frame(b_len, d, p, 4, Endian::Little);
        assert(uint_at(d, p, 4, Endian::Little) == bytes@.len());
        let sstart = p + 4;
        let sendp = sstart + bytes@.len() as int;
        assert(d.subrange(sstart, sendp) =~= bytes@);
        assert(d[sendp] == 0);
        assert(bytes@ == encode_utf8(s@));
        encode_utf8_valid_utf8(s@);
        encode_utf8_decode_utf8(s@);
        assert(decode_utf8(d.subrange(sstart, sendp)) == s@);
    }
    Ok(())
}

/// Encodes array elements from `idx` on, each of the one type at `si`.
#[verifier::rlimit(100)]
#[verifier::spinoff_prover]
fn encode_items(buf: &mut Vec<u8>, items: &Vec<Value>, idx: usize, sig: Ghost<Seq<u8>>, si: Ghost<
    int,
>, es: Ghost<Seq<u8>>) -> (r: Result<(), Error>)
    requires
        idx <= items@.len(),
        0 <= si@,
        es@.len() >= 1,
        si@ + es@.len() <= sig@.len(),
        sig@.subrange(si@, si@ + es@.len() as int) == es@,
        forall|k: int|
            idx <= k < items@.len() ==> wf_val(#[trigger] items@[k]@) && sig_of(items@[k]@) == es@,
    ensures
        r is Ok <==> enc_fits_seq(
            abs_seq(items@).subrange(idx as int, items@.len() as int),
            old(buf)@.len() as int,
        ),
        r is Ok ==> ({
            &&& final(buf)@.len() >= old(buf)@.len()
            &&& final(buf)@.len() == enc_end_seq(
                abs_seq(items@).subrange(idx as int, items@.len() as int),
                old(buf)@.len() as int,
            )
            &&& final(buf)@.subrange(0, old(buf)@.len() as int) == old(buf)@
            &&& dec_elems(
                final(buf)@,
                old(buf)@.len() as int,
                final(buf)@.len() as int,
                sig@,
                si@,
                Endian::Little,
            ) == Some(abs_seq(items@).subrange(idx as int, items@.len() as int))
        }),
        r is Err ==> final(buf)@ == old(buf)@ && r->Err_0 is TooLarge,
    decreases *items, items@.len() - idx,
{
    let orig_len = buf.len();
    proof {
        lemma_abs_seq(items@);
    }
    if idx == items.len() {
        proof {
            assert(abs_seq(items@).subrange(idx as int, items@.len() as int)
                =~= Seq::<AbsValue>::empty());
        }
        return Ok(());
    }
    let ghost rem = abs_seq(items@).subrange(idx as int, items@.len() as int);
    let ghost rest = abs_seq(items@).subrange(idx + 1, items@.len() as int);
    proof {
        assert(decreases_to!(items@ => items@[idx as int]));
        assert(rem[0] == items@[idx as int]@);
        assert(rem.subrange(1, rem.len() as int) =~= rest);
    }
    match encode_val(buf, &items[idx], Ghost(sig@), Ghost(si@)) {
        Ok(()) => {},
        Err(e) => {
            proof {
                assert(!enc_fits(rem[0], orig_len as int));
            }
            return Err(e);
        },
    }
    let ghost b_first = buf@;
    proof {
        assert(b_first.len() == enc_end(rem[0], orig_len as int));
    }
    match encode_items(buf, items, idx + 1, Ghost(sig@), Ghost(si@), Ghost(es@)) {
        Ok(()) => {
            proof {
                let d = buf@;
                lemma_prefix_trans(old(buf)@, b_first, d);
                assert forall|k: int| 0 <= k < b_first.len() implies d[k] == b_first[k] by {
                    assert(d.subrange(0, b_first.len() as int)[k] == b_first[k]);
                }
                lemma_dec_val_frame(b_first, d, orig_len as int, sig@, si@, Endian::Little);
                lemma_abs_seq(items@);
                assert(abs_seq(items@).subrange(idx as int, items@.len() as int) =~= seq![
                    items@[idx as int]@,
                ] + abs_seq(items@).subrange(idx + 1, items@.len() as int));
                assert(d.len() == enc_end_seq(rest, b_first.len() as int));
                assert(enc_end_seq(rem, orig_len as int) == enc_end_seq(
                    rest,
                    enc_end(rem[0], orig_len as int),
                ));
                assert(enc_fits_seq(rem, orig_len as int));
            }
            Ok(())
        },
        Err(e) => {
            buf.truncate(orig_len);
            proof {
                assert(buf@ =~= old(buf)@);
                assert(!enc_fits_seq(rest, b_first.len() as int));
                assert(!enc_fits_seq(rem, orig_len as int));
            }
            Err(e)
        },
    }
}

/// Encodes structure members from `idx` on; at `si` the signature holds
/// the remaining member types and then the closing parenthesis.
#[verifier::rlimit(100)]
#[verifier::spinoff_prover]
fn encode_members(buf: &mut Vec<u8>, items: &Vec<Value>, idx: usize, sig: Ghost<Seq<u8>>, si: Ghost<
    int,
>) -> (r: Result<(), Error>)
    requires
        idx <= items@.len(),
        0 <= si@,
        si@ + sig_of_seq(abs_seq(items@).subrange(idx as int, items@.len() as int)).len()
            < sig@.len(),
        sig@.subrange(
            si@,
            si@ + sig_of_seq(abs_seq(items@).subrange(idx as int, items@.len() as int)).len() as int,
        ) == sig_of_seq(abs_seq(items@).subrange(idx as int, items@.len() as int)),
        sig@[si@ + sig_of_seq(abs_seq(items@).subrange(idx as int, items@.len() as int)).len() as int]
            == TC_STRUCT_CLOSE,
        forall|k: int| idx <= k < items@.len() ==> wf_val(#[trigger] items@[k]@),
    ensures
        r is Ok <==> enc_fits_seq(
            abs_seq(items@).subrange(idx as int, items@.len() as int),
            old(buf)@.len() as int,
        ),
        r is Ok ==> ({
            &&& final(buf)@.len() >= old(buf)@.len()
            &&& final(buf)@.len() == enc_end_seq(
                abs_seq(items@).subrange(idx as int, items@.len() as int),
                old(buf)@.len() as int,
            )
            &&& final(buf)@.subrange(0, old(buf)@.len() as int) == old(buf)@
            &&& (idx < items@.len() ==> final(buf)@.len() > old(buf)@.len())
            &&& dec_members(final(buf)@, old(buf)@.len() as int, sig@, si@, Endian::Little)
                == Some(
                (
                    abs_seq(items@).subrange(idx as int, items@.len() as int),
                    final(buf)@.len() as int,
                    si@ + sig_of_seq(
                        abs_seq(items@).subrange(idx as int, items@.len() as int),
                    ).len() + 1,
                ),
            )
        }),
        r is Err ==> final(buf)@ == old(buf)@ && r->Err_0 is TooLarge,
    decreases *items, items@.len() - idx,
{
    let orig_len = buf.len();
    proof {
        lemma_abs_seq(items@);
    }
    if idx == items.len() {
        proof {
            assert(abs_seq(items@).subrange(idx as int, items@.len() as int)
                =~= Seq::<AbsValue>::empty());
            assert(sig_of_seq(Seq::<AbsValue>::empty()) =~= Seq::<u8>::empty());
        }
        return Ok(());
    }
    let ghost rem = abs_seq(items@).subrange(idx as int, items@.len() as int);
    let ghost rest = abs_seq(items@).subrange(idx + 1, items@.len() as int);
    let ghost s0 = sig_of(items@[idx as int]@);
    proof {
        assert(rem[0] == items@[idx as int]@);
        assert(rem.subrange(1, rem.len() as int) =~= rest);
        assert(sig_of_seq(rem) == s0 + sig_of_seq(rest));
        lemma_sig_of_first(items@[idx as int]@);
        assert(sig@.subrange(si@, si@ + s0.len() as int) =~= s0) by {
            assert forall|k: int| 0 <= k < s0.len() implies sig@.subrange(
                si@,
                si@ + s0.len() as int,
            )[k] == s0[k] by {
                assert(sig@.subrange(si@, si@ + sig_of_seq(rem).len() as int)[k] == sig_of_seq(
                    rem,
                )[k]);
                assert((s0 + sig_of_seq(rest))[k] == s0[k]);
            }
        }
        assert(sig@.subrange(si@ + s0.len() as int, si@ + sig_of_seq(rem).len() as int) =~= sig_of_seq(
            rest,
        )) by {
            assert forall|k: int| 0 <= k < sig_of_seq(rest).len() implies sig@.subrange(
                si@ + s0.len() as int,
                si@ + sig_of_seq(rem).len() as int,
            )[k] == sig_of_seq(rest)[k] by {
                assert(sig@.subrange(si@, si@ + sig_of_seq(rem).len() as int)[k + s0.len()]
                    == sig_of_seq(rem)[k + s0.len()]);
                assert((s0 + sig_of_seq(rest))[k + s0.len()] == sig_of_seq(rest)[k]);
            }
        }
        assert(decreases_to!(items@ => items@[idx as int]));
    }
    match encode_val(buf, &items[idx], Ghost(sig@), Ghost(si@)) {
        Ok(()) => {},
        Err(e) => {
            return Err(e);
        },
    }
    let ghost b_first = buf@;
    match encode_members(buf, items, idx + 1, Ghost(sig@), Ghost(si@ + s0.len() as int)) {
        Ok(()) => {
            proof {
                let d = buf@;
                lemma_prefix_trans(old(buf)@, b_first, d);
                assert forall|k: int| 0 <= k < b_first.len() implies d[k] == b_first[k] by {
                    assert(d.subrange(0, b_first.len() as int)[k] == b_first[k]);
                }
                lemma_dec_val_frame(b_first, d, orig_len as int, sig@, si@, Endian::Little);
                assert(rem =~= seq![items@[idx as int]@] + rest);
            }
            Ok(())
        },
        Err(e) => {
            buf.truncate(orig_len);
            proof {
                assert(buf@ =~= old(buf)@);
            }
            Err(e)
        },
    }
}


/// Whether a value is of a basic (non-container) type.
pub fn is_basic_value(v: &Value) -> (r: bool)
    ensures
        r == is_basic_val(v@),
{
    match v {
        Value::Array(_, _) => false,
        Value::Struct(_) => false,
        Value::DictEntry(_, _) => false,
        Value::Variant(_) => false,
        _ => true,
    }
}

/// Whether a value is well-formed: every signature it carries is checked
/// before any byte is written.
#[verifier::rlimit(100)]
#[verifier::spinoff_prover]
pub fn check_wf(v: &Value) -> (r: bool)
    ensures
        r == wf_val(v@),
    decreases v,
{
    match v {
        Value::Signature(s) => validate_signature(s),
        Value::Array(es, items) => {
            let mut avec: Vec<u8> = Vec::new();
            avec.push(TC_ARRAY);
            let mut j: usize = 0;
            while j < es.len()
                invariant
                    j <= es@.len(),
                    avec@ == seq![TC_ARRAY] + es@.subrange(0, j as int),
                decreases es@.len() - j,
            {
                avec.push(es[j]);
                proof {
                    assert(es@.subrange(0, j + 1int) =~= es@.subrange(0, j as int) + seq![
                        es@[j as int],
                    ]);
                    assert(avec@ =~= seq![TC_ARRAY] + es@.subrange(0, j + 1int));
                }
                j = j + 1;
            }
            proof {
                assert(es@.subrange(0, es@.len() as int) =~= es@);
                assert(avec@ =~= seq![TC_ARRAY] + es@);
            }
            let eok = match find_single_end(&avec, 0, 0, 0) {
                Some(e) => e == avec.len(),
                None => false,
            };
            proof {
                assert(eok == elem_sig_ok(es@));
            }
            if !eok {
                proof {
                    if wf_val(v@) {
                        assert(v@->Array_0 == es@);
                        assert(elem_sig_ok(v@->Array_0));
                    }
                }
                return false;
            }
            let n = items.len();
            let mut k: usize = 0;
            let ghost ai = abs_seq(items@);
            proof {
                lemma_abs_seq(items@);
            }
            while k < n
                invariant
                    k <= n == items@.len(),
                    *v == Value::Array(*es, *items),
                    ai == abs_seq(items@),
                    ai.len() == n,
                    forall|q: int| 0 <= q < k ==> wf_val(#[trigger] ai[q]) && sig_of(ai[q]) == es@,
                decreases n - k,
            {
                proof {
                    lemma_abs_seq(items@);
                    assert(decreases_to!(*v => v->Array_1));
                    assert(decreases_to!(*items => items@));
                    assert(decreases_to!(items@ => items@[k as int]));
                }
                if !check_wf(&items[k]) {
                    proof {
                        assert(ai[k as int] == items@[k as int]@);
                        assert(v@->Array_1 == ai);
                        if wf_val(v@) {
                            assert(wf_val(v@->Array_1[k as int]));
                        }
                    }
                    return false;
                }
                let sk = items[k].signature();
                if !crate::message::bytes_eq(&sk, es) {
                    proof {
                        assert(ai[k as int] == items@[k as int]@);
                        assert(v@->Array_1 == ai);
                        if wf_val(v@) {
                            assert(sig_of(v@->Array_1[k as int]) == es@);
                        }
                    }
                    return false;
                }
                proof {
                    assert(ai[k as int] == items@[k as int]@);
                }
                k = k + 1;
            }
            proof {
                assert forall|q: int| 0 <= q < ai.len() implies wf_val(#[trigger] v@->Array_1[q])
                    && sig_of(v@->Array_1[q]) == es@ by {
                    assert(v@->Array_1 == ai);
                    assert(wf_val(ai[q]) && sig_of(ai[q]) == es@);
                }
            }
            true
        },
        Value::Struct(items) => {
            if items.len() == 0 {
                proof {
                    lemma_abs_seq(items@);
                    assert(v@->Struct_0 == abs_seq(items@));
                }
                return false;
            }
            let n = items.len();
            let mut k: usize = 0;
            let ghost ai = abs_seq(items@);
            proof {
                lemma_abs_seq(items@);
            }
            while k < n
                invariant
                    k <= n == items@.len(),
                    *v == Value::Struct(*items),
                    ai == abs_seq(items@),
                    ai.len() == n,
                    n >= 1,
                    forall|q: int| 0 <= q < k ==> wf_val(#[trigger] ai[q]),
                decreases n - k,
            {
                proof {
                    lemma_abs_seq(items@);
                    assert(decreases_to!(*v => v->Struct_0));
                    assert(decreases_to!(*items => items@));
                    assert(decreases_to!(items@ => items@[k as int]));
                }
                if !check_wf(&items[k]) {
                    proof {
                        assert(ai[k as int] == items@[k as int]@);
                        assert(v@->Struct_0 == ai);
                        if wf_val(v@) {
                            assert(wf_val(v@->Struct_0[k as int]));
                        }
                    }
                    return false;
                }
                proof {
                    assert(ai[k as int] == items@[k as int]@);
                }
                k = k + 1;
            }
            proof {
                assert forall|q: int| 0 <= q < ai.len() implies wf_val(
                    #[trigger] v@->Struct_0[q],
                ) by {
                    assert(v@->Struct_0 == ai);
                    assert(wf_val(ai[q]));
                }
            }
            true
        },
        Value::DictEntry(k, val) => {
            if !is_basic_value(k) {
                return false;
            }
            if !check_wf(k) {
                return false;
            }
            check_wf(val)
        },
        Value::Variant(b) => {
            if !check_wf(b) {
                return false;
            }
            let g = b.signature();
            validate_single(&g)
        },
        _ => true,
    }
}

/// Every value of a body is well-formed.
pub open spec fn body_wf(vs: Seq<AbsValue>) -> bool {
    forall|k: int| 0 <= k < vs.len() ==> wf_val(#[trigger] vs[k])
}

/// Encodes body values from `idx` on; at `si` the signature holds exactly
/// the remaining types, to its end.
#[verifier::rlimit(100)]
#[verifier::spinoff_prover]
fn encode_seq(buf: &mut Vec<u8>, values: &Vec<Value>, idx: usize, sig: Ghost<Seq<u8>>, si: Ghost<
    int,
>) -> (r: Result<(), Error>)
    requires
        idx <= values@.len(),
        0 <= si@,
        si@ + sig_of_seq(abs_seq(values@).subrange(idx as int, values@.len() as int)).len()
            == sig@.len(),
        sig@.subrange(si@, sig@.len() as int) == sig_of_seq(
            abs_seq(values@).subrange(idx as int, values@.len() as int),
        ),
        forall|k: int| idx <= k < values@.len() ==> wf_val(#[trigger] values@[k]@),
    ensures
        r is Ok <==> enc_fits_seq(
            abs_seq(values@).subrange(idx as int, values@.len() as int),
            old(buf)@.len() as int,
        ),
        r is Ok ==> ({
            &&& final(buf)@.len() >= old(buf)@.len()
            &&& final(buf)@.len() == enc_end_seq(
                abs_seq(values@).subrange(idx as int, values@.len() as int),
                old(buf)@.len() as int,
            )
            &&& final(buf)@.subrange(0, old(buf)@.len() as int) == old(buf)@
            &&& dec_body(final(buf)@, old(buf)@.len() as int, sig@, si@, Endian::Little) == Some(
                (
                    abs_seq(values@).subrange(idx as int, values@.len() as int),
                    final(buf)@.len() as int,
                ),
            )
        }),
        r is Err ==> final(buf)@ == old(buf)@ && r->Err_0 is TooLarge,
    decreases values@.len() - idx,
{
    let orig_len = buf.len();
    proof {
        lemma_abs_seq(values@);
    }
    if idx == values.len() {
        proof {
            assert(abs_seq(values@).subrange(idx as int, values@.len() as int)
                =~= Seq::<AbsValue>::empty());
            assert(sig_of_seq(Seq::<AbsValue>::empty()) =~= Seq::<u8>::empty());
            assert(si@ == sig@.len());
        }
        return Ok(());
    }
    let ghost rem = abs_seq(values@).subrange(idx as int, values@.len() as int);
    let ghost rest = abs_seq(values@).subrange(idx + 1, values@.len() as int);
    let ghost s0 = sig_of(values@[idx as int]@);
    proof {
        assert(rem[0] == values@[idx as int]@);
        assert(rem.subrange(1, rem.len() as int) =~= rest);
        assert(sig_of_seq(rem) == s0 + sig_of_seq(rest));
        assert(sig@.subrange(si@, si@ + s0.len() as int) =~= s0) by {
            assert forall|k: int| 0 <= k < s0.len() implies sig@.subrange(
                si@,
                si@ + s0.len() as int,
            )[k] == s0[k] by {
                assert(sig@.subrange(si@, sig@.len() as int)[k] == sig_of_seq(rem)[k]);
                assert((s0 + sig_of_seq(rest))[k] == s0[k]);
            }
        }
        assert(sig@.subrange(si@ + s0.len() as int, sig@.len() as int) =~= sig_of_seq(rest)) by {
            assert forall|k: int| 0 <= k < sig_of_seq(rest).len() implies sig@.subrange(
                si@ + s0.len() as int,
                sig@.len() as int,
            )[k] == sig_of_seq(rest)[k] by {
                assert(sig@.subrange(si@, sig@.len() as int)[k + s0.len()] == sig_of_seq(rem)[k
                    + s0.len()]);
                assert((s0 + sig_of_seq(rest))[k + s0.len()] == sig_of_seq(rest)[k]);
            }
        }
    }
    match encode_val(buf, &values[idx], Ghost(sig@), Ghost(si@)) {
        Ok(()) => {},
        Err(e) => {
            return Err(e);
        },
    }
    let ghost b_first = buf@;
    match encode_seq(buf, values, idx + 1, Ghost(sig@), Ghost(si@ + s0.len() as int)) {
        Ok(()) => {
            proof {
                let d = buf@;
                lemma_prefix_trans(old(buf)@, b_first, d);
                assert forall|k: int| 0 <= k < b_first.len() implies d[k] == b_first[k] by {
                    assert(d.subrange(0, b_first.len() as int)[k] == b_first[k]);
                }
                lemma_dec_val_frame(b_first, d, orig_len as int, sig@, si@, Endian::Little);
                assert(rem =~= seq![values@[idx as int]@] + rest);
            }
            Ok(())
        },
        Err(e) => {
            buf.truncate(orig_len);
            proof {
                assert(buf@ =~= old(buf)@);
            }
            Err(e)
        },
    }
}

/// Encodes a whole body.  The values must be well-formed and their
/// composed signature valid: that is checked first, and rejected before
/// any byte is written.  The output means exactly the input under the
/// body's signature: decoding it yields the values back.
pub fn encode_body(values: &Vec<Value>) -> (r: Result<Vec<u8>, Error>)
    ensures
        r is Ok <==> (body_wf(abs_seq(values@)) && sig_valid(sig_of_seq(abs_seq(values@)))
            && enc_fits_seq(abs_seq(values@), 0)),
        r matches Ok(b) ==> ({
            &&& body_wf(abs_seq(values@))
            &&& sig_valid(sig_of_seq(abs_seq(values@)))
            &&& b@.len() == enc_end_seq(abs_seq(values@), 0)
            &&& dec_body(b@, 0, sig_of_seq(abs_seq(values@)), 0, Endian::Little) == Some(
                (abs_seq(values@), b@.len() as int),
            )
        }),
        r is Err ==> (r->Err_0 is InvalidSignature || r->Err_0 is TooLarge),
        (r is Err && r->Err_0 is InvalidSignature) <==> !(body_wf(abs_seq(values@)) && sig_valid(
            sig_of_seq(abs_seq(values@)),
        )),
{
    let bsig = crate::message::body_signature_of(values);
    if !validate_signature(&bsig) {
        return Err(Error::InvalidSignature);
    }
    let n = values.len();
    let mut k: usize = 0;
    proof {
        lemma_abs_seq(values@);
    }
    while k < n
        invariant
            k <= n == values@.len(),
            abs_seq(values@).len() == n,
            forall|q: int| 0 <= q < k ==> wf_val(#[trigger] abs_seq(values@)[q]),
        decreases n - k,
    {
        if !check_wf(&values[k]) {
            proof {
                lemma_abs_seq(values@);
                assert(abs_seq(values@)[k as int] == values@[k as int]@);
            }
            return Err(Error::InvalidSignature);
        }
        proof {
            lemma_abs_seq(values@);
            assert(abs_seq(values@)[k as int] == values@[k as int]@);
        }
        k = k + 1;
    }
    let mut buf: Vec<u8> = Vec::new();
    proof {
        lemma_abs_seq(values@);
        assert(abs_seq(values@).subrange(0, values@.len() as int) =~= abs_seq(values@));
        assert forall|q: int| 0 <= q < values@.len() implies wf_val(#[trigger] values@[q]@) by {
            assert(abs_seq(values@)[q] == values@[q]@);
        }
    }
    proof {
        assert(bsig@.subrange(0, bsig@.len() as int) =~= bsig@);
    }
    match encode_seq(&mut buf, values, 0, Ghost(bsig@), Ghost(0)) {
        Ok(()) => Ok(buf),
        Err(e) => Err(e),
    }
}

} // verus!
