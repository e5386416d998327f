//! The type signature system: the alphabet of wire type codes and the rules
//! for composing and validating signatures.
//!
//! A signature is a sequence of single-byte type codes describing the shape
//! of a value or of a message body.  Containers nest: an array code is
//! followed by exactly one complete element type (possibly a dict entry
//! `{kv}` whose key is a basic type), and a structure wraps one or more
//! complete types in parentheses.  Nesting depth is bounded by the
//! protocol: at most 32 enclosing arrays and 32 enclosing structures or
//! dict entries, and a signature holds at most 255 bytes.

use vstd::prelude::*;

verus! {


/// Wire type codes, one ASCII byte each.
pub const TC_BYTE: u8 = 121;  // y
pub const TC_BOOL: u8 = 98;  // b
pub const TC_INT16: u8 = 110;  // n
pub const TC_UINT16: u8 = 113;  // q
pub const TC_INT32: u8 = 105;  // i
pub const TC_UINT32: u8 = 117;  // u
pub const TC_INT64: u8 = 120;  // x
pub const TC_UINT64: u8 = 116;  // t
pub const TC_DOUBLE: u8 = 100;  // d
pub const TC_STRING: u8 = 115;  // s
pub const TC_PATH: u8 = 111;  // o
pub const TC_SIG: u8 = 103;  // g
pub const TC_VARIANT: u8 = 118;  // v
pub const TC_ARRAY: u8 = 97;  // a
pub const TC_STRUCT_OPEN: u8 = 40;  // (
pub const TC_STRUCT_CLOSE: u8 = 41;  // )
pub const TC_DICT_OPEN: u8 = 123;  // {
pub const TC_DICT_CLOSE: u8 = 125;  // }

/// Most bytes a signature may hold.
pub const SIG_MAX_LEN: usize = 255;

/// Deepest allowed nesting of arrays, and separately of structures and
/// dict entries.
pub const DEPTH_MAX: u32 = 32;

/// A basic (non-container) type code: such a code may key a dict entry.
pub open spec fn is_basic_code(c: u8) -> bool {
    ||| c == TC_BYTE  // byte
    ||| c == TC_BOOL  // boolean
    ||| c == TC_INT16  // int16
    ||| c == TC_UINT16  // uint16
    ||| c == TC_INT32  // int32
    ||| c == TC_UINT32  // uint32
    ||| c == TC_INT64  // int64
    ||| c == TC_UINT64  // uint64
    ||| c == TC_DOUBLE  // double (IEEE-754 bits)
    ||| c == TC_STRING  // string
    ||| c == TC_PATH  // object path
    ||| c == TC_SIG  // signature
}

/// End index of the one complete type starting at `i`, or `None` when the
/// text there is not a complete type.  `ad` and `sd` count the enclosing
/// arrays and structures/dict entries already open above this position.
pub open spec fn single_end(s: Seq<u8>, i: int, ad: int, sd: int) -> Option<int>
    decreases s.len() - i, 1int,
{
    if !(0 <= i < s.len()) {
        None
    } else if is_basic_code(s[i]) || s[i] == TC_VARIANT {
        Some(i + 1)
    } else if s[i] == TC_ARRAY {
        if ad >= DEPTH_MAX {
            None
        } else if i + 1 < s.len() && s[i + 1] == TC_DICT_OPEN {
            if sd >= DEPTH_MAX {
                None
            } else if i + 2 < s.len() && is_basic_code(s[i + 2]) {
                match single_end(s, i + 3, ad + 1, sd + 1) {
                    Some(e) => if e < s.len() && s[e] == TC_DICT_CLOSE {
                        Some(e + 1)
                    } else {
                        None
                    },
                    None => None,
                }
            } else {
                None
            }
        } else {
            single_end(s, i + 1, ad + 1, sd)
        }
    } else if s[i] == TC_STRUCT_OPEN {
        if sd >= DEPTH_MAX {
            None
        } else if i + 1 < s.len() && s[i + 1] != TC_STRUCT_CLOSE {
            members_end(s, i + 1, ad, sd + 1)
        } else {
            None
        }
    } else {
        None
    }
}

/// End index just past the `)` that closes a run of zero or more complete
/// member types starting at `i`.
pub open spec fn members_end(s: Seq<u8>, i: int, ad: int, sd: int) -> Option<int>
    decreases s.len() - i, 2int,
{
    if !(0 <= i < s.len()) {
        None
    } else if s[i] == TC_STRUCT_CLOSE {
        Some(i + 1)
    } else {
        match single_end(s, i, ad, sd) {
            Some(e) => if i < e <= s.len() {
                members_end(s, e, ad, sd)
            } else {
                None
            },
            None => None,
        }
    }
}

/// The text from `i` to the end is a sequence of zero or more complete
/// types.
pub open spec fn tail_valid(s: Seq<u8>, i: int) -> bool
    decreases s.len() - i,
{
    if i == s.len() {
        true
    } else if !(0 <= i < s.len()) {
        false
    } else {
        match single_end(s, i, 0, 0) {
            Some(e) => i < e <= s.len() && tail_valid(s, e),
            None => false,
        }
    }
}

/// A well-formed signature: a bounded sequence of complete types.
pub open spec fn sig_valid(s: Seq<u8>) -> bool {
    s.len() <= SIG_MAX_LEN && tail_valid(s, 0)
}

/// A well-formed signature holding exactly one complete type, as a variant
/// box requires.
pub open spec fn sig_single(s: Seq<u8>) -> bool {
    s.len() <= SIG_MAX_LEN && single_end(s, 0, 0, 0) == Some(s.len() as int)
}

/// A well-formed array element signature: one complete type that an array
/// code may precede, including a dict entry.
pub open spec fn elem_sig_ok(es: Seq<u8>) -> bool {
    single_end(seq![TC_ARRAY] + es, 0, 0, 0) == Some(1 + es.len() as int)
}

/// A complete type consumes at least one byte and stays inside the text.
pub proof fn lemma_single_end_bounds(s: Seq<u8>, i: int, ad: int, sd: int)
    requires
        single_end(s, i, ad, sd) is Some,
    ensures
        i < single_end(s, i, ad, sd)->0 <= s.len(),
    decreases s.len() - i, 1int,
{
    if is_basic_code(s[i]) || s[i] == TC_VARIANT {
    } else if s[i] == TC_ARRAY {
        if i + 1 < s.len() && s[i + 1] == TC_DICT_OPEN {
            lemma_single_end_bounds(s, i + 3, ad + 1, sd + 1);
        } else {
            lemma_single_end_bounds(s, i + 1, ad + 1, sd);
        }
    } else {
        lemma_members_end_bounds(s, i + 1, ad, sd + 1);
    }
}

/// Bounds for [`members_end`], proved together with
/// [`lemma_single_end_bounds`].
pub proof fn lemma_members_end_bounds(s: Seq<u8>, i: int, ad: int, sd: int)
    requires
        members_end(s, i, ad, sd) is Some,
    ensures
        i < members_end(s, i, ad, sd)->0 <= s.len(),
    decreases s.len() - i, 2int,
{
    if s[i] == TC_STRUCT_CLOSE {
    } else {
        let m = single_end(s, i, ad, sd)->0;
        lemma_members_end_bounds(s, m, ad, sd);
    }
}

/// `single_end` reads only the bytes of the type it consumes: the same
/// window of text parses the same way at any position of any signature.
pub proof fn lemma_single_end_window(s: Seq<u8>, i: int, ad: int, sd: int, s2: Seq<u8>, i2: int)
    requires
        single_end(s, i, ad, sd) is Some,
        0 <= i2,
        i2 + (single_end(s, i, ad, sd)->0 - i) <= s2.len(),
        s2.subrange(i2, i2 + (single_end(s, i, ad, sd)->0 - i)) == s.subrange(
            i,
            single_end(s, i, ad, sd)->0,
        ),
    ensures
        i < single_end(s, i, ad, sd)->0 <= s.len(),
        single_end(s2, i2, ad, sd) == Some(i2 + (single_end(s, i, ad, sd)->0 - i)),
    decreases s.len() - i, 1int,
{
    lemma_single_end_bounds(s, i, ad, sd);
    let e = single_end(s, i, ad, sd)->0;
    assert forall|j: int| i2 <= j < i2 + (e - i) implies #[trigger] s2[j] == s[i + (j - i2)] by {
        assert(s2.subrange(i2, i2 + (e - i))[j - i2] == s.subrange(i, e)[j - i2]);
    }
    assert(s2[i2] == s[i]);
    if is_basic_code(s[i]) || s[i] == TC_VARIANT {
    } else if s[i] == TC_ARRAY {
        if i + 1 < s.len() && s[i + 1] == TC_DICT_OPEN {
            let ke = single_end(s, i + 3, ad + 1, sd + 1)->0;
            assert(s2.subrange(i2 + 3, i2 + 3 + (ke - (i + 3))) =~= s.subrange(i + 3, ke));
            lemma_single_end_window(s, i + 3, ad + 1, sd + 1, s2, i2 + 3);
            assert(e == ke + 1);
            assert(i + 3 < ke);
            assert(s2.subrange(i2, i2 + (e - i))[1] == s.subrange(i, e)[1]);
            assert(s2.subrange(i2, i2 + (e - i))[2] == s.subrange(i, e)[2]);
            assert(s2.subrange(i2, i2 + (e - i))[ke - i] == s.subrange(i, e)[ke - i]);
            assert(s2[i2 + 1] == s[i + 1]);
            assert(s2[i2 + 2] == s[i + 2]);
            assert(s2[i2 + (ke - i)] == s[ke]);
        } else {
            assert(s2.subrange(i2 + 1, i2 + 1 + (e - (i + 1))) =~= s.subrange(i + 1, e));
            lemma_single_end_window(s, i + 1, ad + 1, sd, s2, i2 + 1);
            assert(i2 + 1 < s2.len() ==> s2[i2 + 1] == s[i + 1]);
        }
    } else {
        lemma_members_end_bounds(s, i + 1, ad, sd + 1);
        assert(s2[i2 + 1] == s[i + 1]);
        assert(s2.subrange(i2 + 1, i2 + 1 + (e - (i + 1))) =~= s.subrange(i + 1, e));
        lemma_members_end_window(s, i + 1, ad, sd + 1, s2, i2 + 1);
    }
}

/// Window locality for `members_end`, proved together with
/// `lemma_single_end_window`.
pub proof fn lemma_members_end_window(s: Seq<u8>, i: int, ad: int, sd: int, s2: Seq<u8>, i2: int)
    requires
        members_end(s, i, ad, sd) is Some,
        0 <= i2,
        i2 + (members_end(s, i, ad, sd)->0 - i) <= s2.len(),
        s2.subrange(i2, i2 + (members_end(s, i, ad, sd)->0 - i)) == s.subrange(
            i,
            members_end(s, i, ad, sd)->0,
        ),
    ensures
        i < members_end(s, i, ad, sd)->0 <= s.len(),
        members_end(s2, i2, ad, sd) == Some(i2 + (members_end(s, i, ad, sd)->0 - i)),
    decreases s.len() - i, 2int,
{
    lemma_members_end_bounds(s, i, ad, sd);
    let e = members_end(s, i, ad, sd)->0;
    assert forall|j: int| i2 <= j < i2 + (e - i) implies #[trigger] s2[j] == s[i + (j - i2)] by {
        assert(s2.subrange(i2, i2 + (e - i))[j - i2] == s.subrange(i, e)[j - i2]);
    }
    assert(s2[i2] == s[i]);
    if s[i] == TC_STRUCT_CLOSE {
    } else {
        let m = single_end(s, i, ad, sd)->0;
        lemma_single_end_bounds(s, i, ad, sd);
        lemma_members_end_bounds(s, m, ad, sd);
        assert forall|k: int| 0 <= k < m - i implies s2.subrange(i2, i2 + (m - i))[k] == s.subrange(
            i,
            m,
        )[k] by {
            assert(s2[i2 + k] == s[i + (i2 + k - i2)]);
        }
        assert(s2.subrange(i2, i2 + (m - i)) =~= s.subrange(i, m));
        lemma_single_end_window(s, i, ad, sd, s2, i2);
        assert(s2.subrange(i2 + (m - i), i2 + (m - i) + (e - m)) =~= s.subrange(m, e));
        lemma_members_end_window(s, m, ad, sd, s2, i2 + (m - i));
    }
}

/// Exec mirror of [`single_end`]: end index of the complete type at `i`.
pub fn find_single_end(s: &Vec<u8>, i: usize, ad: u32, sd: u32) -> (r: Option<usize>)
    requires
        i <= s@.len(),
    ensures
        match r {
            Some(e) => single_end(s@, i as int, ad as int, sd as int) == Some(e as int) && i < e
                <= s@.len(),
            None => single_end(s@, i as int, ad as int, sd as int) is None,
        },
    decreases s@.len() - i, 1int,
{
    if i >= s.len() {
        return None;
    }
    let c = s[i];
    if c == TC_BYTE || c == TC_BOOL || c == TC_INT16 || c == TC_UINT16 || c == TC_INT32 || c == TC_UINT32 || c == TC_INT64
        || c == TC_UINT64 || c == TC_DOUBLE || c == TC_STRING || c == TC_PATH || c == TC_SIG || c == TC_VARIANT {
        Some(i + 1)
    } else if c == TC_ARRAY {
        if ad >= DEPTH_MAX {
            None
        } else if i + 1 < s.len() && s[i + 1] == TC_DICT_OPEN {
            if sd >= DEPTH_MAX {
                None
            } else if i + 2 < s.len() && {
                let k = s[i + 2];
                k == TC_BYTE || k == TC_BOOL || k == TC_INT16 || k == TC_UINT16 || k == TC_INT32 || k == TC_UINT32 || k
                    == TC_INT64 || k == TC_UINT64 || k == TC_DOUBLE || k == TC_STRING || k == TC_PATH || k == TC_SIG
            } {
                match find_single_end(s, i + 3, ad + 1, sd + 1) {
                    Some(e) => if e < s.len() && s[e] == TC_DICT_CLOSE {
                        Some(e + 1)
                    } else {
                        None
                    },
                    None => None,
                }
            } else {
                None
            }
        } else {
            find_single_end(s, i + 1, ad + 1, sd)
        }
    } else if c == TC_STRUCT_OPEN {
        if sd >= DEPTH_MAX {
            None
        } else if i + 1 < s.len() && s[i + 1] != TC_STRUCT_CLOSE {
            find_members_end(s, i + 1, ad, sd + 1)
        } else {
            None
        }
    } else {
        None
    }
}

/// Exec mirror of [`members_end`].
fn find_members_end(s: &Vec<u8>, i: usize, ad: u32, sd: u32) -> (r: Option<usize>)
    requires
        i <= s@.len(),
    ensures
        match r {
            Some(e) => members_end(s@, i as int, ad as int, sd as int) == Some(e as int) && i < e
                <= s@.len(),
            None => members_end(s@, i as int, ad as int, sd as int) is None,
        },
    decreases s@.len() - i, 2int,
{
    if i >= s.len() {
        return None;
    }
    if s[i] == TC_STRUCT_CLOSE {
        Some(i + 1)
    } else {
        match find_single_end(s, i, ad, sd) {
            Some(e) => find_members_end(s, e, ad, sd),
            None => None,
        }
    }
}

/// Whether `s` is a well-formed signature: a sequence of at most
/// [`SIG_MAX_LEN`] bytes of complete types within the nesting limits.
pub fn validate_signature(s: &Vec<u8>) -> (r: bool)
    ensures
        r == sig_valid(s@),
{
    if s.len() > SIG_MAX_LEN {
        return false;
    }
    let mut i: usize = 0;
    loop
        invariant
            i <= s@.len(),
            tail_valid(s@, 0) == tail_valid(s@, i as int),
            s@.len() <= SIG_MAX_LEN,
        decreases s@.len() - i,
    {
        if i == s.len() {
            return true;
        }
        match find_single_end(s, i, 0, 0) {
            Some(e) => {
                i = e;
            },
            None => {
                return false;
            },
        }
    }
}

/// Whether `s` is a well-formed signature holding exactly one complete
/// type.
pub fn validate_single(s: &Vec<u8>) -> (r: bool)
    ensures
        r == sig_single(s@),
{
    if s.len() > SIG_MAX_LEN {
        return false;
    }
    match find_single_end(s, 0, 0, 0) {
        Some(e) => e == s.len(),
        None => false,
    }
}

} // verus!
