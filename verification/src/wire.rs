//! Byte-level arithmetic of the wire format: alignment and byte-order.
//!
//! Every multi-byte field starts at a position that is a multiple of its
//! type's alignment, counted from the start of the encoded unit; the gap is
//! filled with zero bytes.  Multi-byte integers are read in the byte order
//! the frame declares, and written little-endian.

use vstd::prelude::*;

verus! {

/// Byte order of a frame, declared by its first byte.
#[derive(Clone, Copy, PartialEq, Eq, Structural, Debug)]
pub enum Endian {
    Little,
    Big,
}

/// The smallest position at or after `p` that is a multiple of `a`.
pub open spec fn align_up(p: int, a: int) -> int {
    p + ((a - p % a) % a)
}

/// What alignment does: the padded position is a multiple of `a`, at most
/// `a - 1` bytes away, and already-aligned positions stay put.
pub proof fn lemma_align_up(p: int, a: int)
    requires
        0 <= p,
        a == 1 || a == 2 || a == 4 || a == 8,
    ensures
        p <= align_up(p, a) < p + a,
        align_up(p, a) % a == 0,
        p % a == 0 ==> align_up(p, a) == p,
{
    if a == 1 {
    } else if a == 2 {
    } else if a == 4 {
    } else {
    }
}

/// Powers of 256: the count of values that `n` bytes can hold.
pub open spec fn pow256(n: nat) -> nat
    decreases n,
{
    if n == 0 {
        1
    } else {
        256 * pow256((n - 1) as nat)
    }
}

/// The concrete powers of 256 the codec meets.
pub proof fn lemma_pow256_values()
    ensures
        pow256(0) == 1,
        pow256(1) == 0x100,
        pow256(2) == 0x10000,
        pow256(3) == 0x1000000,
        pow256(4) == 0x100000000,
        pow256(5) == 0x10000000000,
        pow256(6) == 0x1000000000000,
        pow256(7) == 0x100000000000000,
        pow256(8) == 0x10000000000000000,
{
    assert(pow256(0) == 1);
    assert(pow256(1) == 0x100);
    assert(pow256(2) == 0x10000);
    assert(pow256(3) == 0x1000000);
    assert(pow256(4) == 0x100000000);
    assert(pow256(5) == 0x10000000000);
    assert(pow256(6) == 0x1000000000000);
    assert(pow256(7) == 0x100000000000000);
    assert(pow256(8) == 0x10000000000000000);
}

/// Little-endian value of the `n` bytes at `p`.
pub open spec fn le_at(d: Seq<u8>, p: int, n: nat) -> nat
    decreases n,
{
    if n == 0 {
        0
    } else {
        (d[p] as nat) + 256 * le_at(d, p + 1, (n - 1) as nat)
    }
}

/// Big-endian value of the `n` bytes at `p`.
pub open spec fn be_at(d: Seq<u8>, p: int, n: nat) -> nat
    decreases n,
{
    if n == 0 {
        0
    } else {
        be_at(d, p, (n - 1) as nat) * 256 + (d[p + n - 1] as nat)
    }
}

/// Value of the `n` bytes at `p` in byte order `e`.
pub open spec fn uint_at(d: Seq<u8>, p: int, n: nat, e: Endian) -> nat {
    if e == Endian::Little {
        le_at(d, p, n)
    } else {
        be_at(d, p, n)
    }
}

/// `n` bytes hold less than `pow256(n)`.
pub proof fn lemma_uint_at_bound(d: Seq<u8>, p: int, n: nat, e: Endian)
    ensures
        uint_at(d, p, n, e) < pow256(n),
    decreases n,
{
    if n == 0 {
    } else {
        lemma_uint_at_bound(d, p + 1, (n - 1) as nat, Endian::Little);
        lemma_uint_at_bound(d, p, (n - 1) as nat, Endian::Big);
    }
}

/// The value read depends only on the bytes it covers.
pub proof fn lemma_uint_at_frame(d1: Seq<u8>, d2: Seq<u8>, p: int, n: nat, e: Endian)
    requires
        forall|k: int| p <= k < p + n ==> d1[k] == d2[k],
    ensures
        uint_at(d1, p, n, e) == uint_at(d2, p, n, e),
    decreases n,
{
    if n > 0 {
        lemma_uint_at_frame(d1, d2, p + 1, (n - 1) as nat, Endian::Little);
        lemma_uint_at_frame(d1, d2, p, (n - 1) as nat, Endian::Big);
    }
}

/// A sequence of `n` zero bytes, as padding inserts.
pub open spec fn zero_bytes(n: nat) -> Seq<u8> {
    Seq::new(n, |k: int| 0u8)
}

/// Pushes zero bytes until the buffer's length is a multiple of `a`.
pub fn pad_to(buf: &mut Vec<u8>, a: usize)
    requires
        a == 1 || a == 2 || a == 4 || a == 8,
    ensures
        final(buf)@ == old(buf)@ + zero_bytes(
            (align_up(old(buf)@.len() as int, a as int) - old(buf)@.len()) as nat,
        ),
        final(buf)@.len() == align_up(old(buf)@.len() as int, a as int),
        final(buf)@.subrange(0, old(buf)@.len() as int) == old(buf)@,
{
    proof {
        lemma_align_up(old(buf)@.len() as int, a as int);
    }
    let ghost target = align_up(old(buf)@.len() as int, a as int);
    while buf.len() % a != 0
        invariant
            a == 1 || a == 2 || a == 4 || a == 8,
            old(buf)@.len() <= buf@.len() <= target,
            buf@ == old(buf)@ + zero_bytes((buf@.len() - old(buf)@.len()) as nat),
            target == align_up(old(buf)@.len() as int, a as int),
            target % (a as int) == 0,
            buf@.len() < target ==> (buf@.len() as int) % (a as int) != 0,
        decreases target - buf@.len(),
    {
        proof {
            assert(buf@.len() < target);
        }
        buf.push(0);
        proof {
            assert(buf@ =~= old(buf)@ + zero_bytes((buf@.len() - old(buf)@.len()) as nat));
            if buf@.len() < target {
                lemma_align_up(buf@.len() as int, a as int);
            }
        }
    }
    proof {
        assert(buf@.len() == target);
        assert(buf@.subrange(0, old(buf)@.len() as int) =~= old(buf)@);
    }
}

/// Reads the `n`-byte unsigned integer at `pos` in byte order `e`.
pub fn read_uint(d: &Vec<u8>, pos: usize, n: usize, e: Endian) -> (r: u64)
    requires
        1 <= n <= 8,
        pos + n <= d@.len(),
    ensures
        r as nat == uint_at(d@, pos as int, n as nat, e),
{
    proof {
        lemma_pow256_values();
    }
    let dlen = d.len();
    match e {
        Endian::Little => {
            let mut acc: u64 = 0;
            let mut k: usize = n;
            while k > 0
                invariant
                    k <= n <= 8,
                    pos + n <= dlen == d@.len(),
                    acc as nat == le_at(d@, pos + k as int, (n - k) as nat),
                    (acc as nat) < pow256((n - k) as nat),
                    pow256(7) == 0x100000000000000,
                decreases k,
            {
                proof {
                    lemma_pow256_values();
                    lemma_uint_at_bound(d@, pos + k - 1, (n - k + 1) as nat, Endian::Little);
                    assert(pow256((n - k) as nat) <= pow256(7)) by {
                        lemma_pow256_mono((n - k) as nat, 7);
                    }
                }
                acc = acc * 256 + (d[k - 1 + pos] as u64);
                k = k - 1;
                proof {
                    assert(acc as nat == d@[pos + k as int] + 256 * le_at(
                        d@,
                        pos + k as int + 1,
                        (n - k - 1) as nat,
                    ));
                }
            }
            acc
        },
        Endian::Big => {
            let mut acc: u64 = 0;
            let mut k: usize = 0;
            while k < n
                invariant
                    k <= n <= 8,
                    pos + n <= dlen == d@.len(),
                    acc as nat == be_at(d@, pos as int, k as nat),
                    (acc as nat) < pow256(k as nat),
                    pow256(7) == 0x100000000000000,
                decreases n - k,
            {
                proof {
                    lemma_pow256_values();
                    assert(pow256(k as nat) <= pow256(7)) by {
                        lemma_pow256_mono(k as nat, 7);
                    }
                }
                acc = acc * 256 + (d[pos + k] as u64);
                k = k + 1;
            }
            acc
        },
    }
}

/// `pow256` grows with its argument.
pub proof fn lemma_pow256_mono(m: nat, n: nat)
    requires
        m <= n,
    ensures
        pow256(m) <= pow256(n),
    decreases n,
{
    if m < n {
        lemma_pow256_mono(m, (n - 1) as nat);
    }
}

/// Appends the little-endian bytes of `x`, `n` of them.
pub fn push_uint_le(buf: &mut Vec<u8>, x: u64, n: usize)
    requires
        1 <= n <= 8,
        (x as nat) < pow256(n as nat),
    ensures
        final(buf)@.len() == old(buf)@.len() + n,
        final(buf)@.subrange(0, old(buf)@.len() as int) == old(buf)@,
        le_at(final(buf)@, old(buf)@.len() as int, n as nat) == x as nat,
{
    let ghost start = buf@.len() as int;
    let mut rest: u64 = x;
    let mut k: usize = 0;
    proof {
        assert(le_at(buf@, start, 0) == 0);
        assert(pow256(0) == 1);
    }
    while k < n
        invariant
            k <= n <= 8,
            buf@.len() == start + k,
            start == old(buf)@.len(),
            buf@.subrange(0, start) == old(buf)@,
            (x as nat) < pow256(n as nat),
            le_at(buf@, start, k as nat) + pow256(k as nat) * (rest as nat) == x as nat,
            (rest as nat) < pow256((n - k) as nat),
        decreases n - k,
    {
        let ghost pre = buf@;
        let ghost prev_rest = rest as nat;
        let b: u8 = (rest % 256) as u8;
        buf.push(b);
        rest = rest / 256;
        k = k + 1;
        proof {
            assert(buf@ =~= pre + seq![b]);
            lemma_le_snoc(pre, start, (k - 1) as nat, b);
            assert(buf@.subrange(0, start) =~= pre.subrange(0, start));
            assert(prev_rest == (b as nat) + 256 * (rest as nat));
            assert(pow256(k as nat) == 256 * pow256((k - 1) as nat));
            assert(pow256((k - 1) as nat) * prev_rest == pow256((k - 1) as nat) * (b as nat)
                + pow256(k as nat) * (rest as nat)) by (nonlinear_arith)
                requires
                    prev_rest == (b as nat) + 256 * (rest as nat),
                    pow256(k as nat) == 256 * pow256((k - 1) as nat),
            ;
            assert(pow256((n - k + 1) as nat) == 256 * pow256((n - k) as nat));
            assert((rest as nat) < pow256((n - k) as nat)) by (nonlinear_arith)
                requires
                    prev_rest < pow256((n - k + 1) as nat),
                    pow256((n - k + 1) as nat) == 256 * pow256((n - k) as nat),
                    rest as nat == prev_rest / 256,
            ;
        }
    }
    proof {
        assert(pow256(0) == 1);
        assert(rest == 0);
        assert(le_at(buf@, start, n as nat) + pow256(n as nat) * 0 == x as nat);
        assert(pow256(n as nat) * 0 == 0) by (nonlinear_arith);
    }
}

/// Appending one byte extends the little-endian reading by one place.
proof fn lemma_le_snoc(d: Seq<u8>, p: int, n: nat, b: u8)
    requires
        0 <= p,
        p + n == d.len(),
    ensures
        le_at(d + seq![b], p, n + 1) == le_at(d, p, n) + pow256(n) * b,
        le_at(d + seq![b], p, n) == le_at(d, p, n),
    decreases n,
{
    let d2 = d + seq![b];
    if n == 0 {
        assert(le_at(d2, p, 1) == d2[p] + 256 * le_at(d2, p + 1, 0));
        assert(d2[p] == b);
        assert(pow256(0) * b == b) by (nonlinear_arith);
    } else {
        assert(d2[p] == d[p]);
        let tail_n = (n - 1) as nat;
        lemma_le_snoc_shift(d, p + 1, tail_n, b);
        assert(256 * (le_at(d, p + 1, tail_n) + pow256(tail_n) * b) == 256 * le_at(d, p + 1, tail_n)
            + (256 * pow256(tail_n)) * b) by (nonlinear_arith);
    }
}

/// The same, stated for an interior starting point.
proof fn lemma_le_snoc_shift(d: Seq<u8>, p: int, n: nat, b: u8)
    requires
        0 <= p,
        p + n == d.len(),
    ensures
        le_at(d + seq![b], p, n + 1) == le_at(d, p, n) + pow256(n) * b,
        le_at(d + seq![b], p, n) == le_at(d, p, n),
    decreases n,
{
    let d2 = d + seq![b];
    if n == 0 {
        assert(le_at(d2, p, 1) == d2[p] + 256 * le_at(d2, p + 1, 0));
        assert(d2[p] == b);
        assert(pow256(0) * b == b) by (nonlinear_arith);
    } else {
        assert(d2[p] == d[p]);
        let tail_n = (n - 1) as nat;
        lemma_le_snoc_shift(d, p + 1, tail_n, b);
        assert(256 * (le_at(d, p + 1, tail_n) + pow256(tail_n) * b) == 256 * le_at(d, p + 1, tail_n)
            + (256 * pow256(tail_n)) * b) by (nonlinear_arith);
    }
}

/// Sign interpretation of 16 raw bits.
pub open spec fn i16_from_bits(b: nat) -> i16 {
    if b < 0x8000 {
        b as i16
    } else {
        (b - 0x10000) as i16
    }
}

/// Sign interpretation of 32 raw bits.
pub open spec fn i32_from_bits(b: nat) -> i32 {
    if b < 0x80000000 {
        b as i32
    } else {
        (b - 0x100000000) as i32
    }
}

/// Sign interpretation of 64 raw bits.
pub open spec fn i64_from_bits(b: nat) -> i64 {
    if b < 0x8000000000000000 {
        b as i64
    } else {
        (b - 0x10000000000000000) as i64
    }
}

/// Exec mirror of [`i16_from_bits`].
pub fn i16_of_bits(b: u16) -> (r: i16)
    ensures
        r == i16_from_bits(b as nat),
{
    if b < 0x8000 {
        b as i16
    } else {
        ((b as i32) - 0x10000) as i16
    }
}

/// Exec mirror of [`i32_from_bits`].
pub fn i32_of_bits(b: u32) -> (r: i32)
    ensures
        r == i32_from_bits(b as nat),
{
    if b < 0x80000000 {
        b as i32
    } else {
        ((b as i64) - 0x100000000) as i32
    }
}

/// Exec mirror of [`i64_from_bits`].
pub fn i64_of_bits(b: u64) -> (r: i64)
    ensures
        r == i64_from_bits(b as nat),
{
    if b < 0x8000000000000000 {
        b as i64
    } else {
        (((b as i128) - 0x10000000000000000) as i64)
    }
}

/// Raw bits of a signed 16-bit value, the inverse of
/// [`i16_from_bits`].
pub fn i16_to_bits(x: i16) -> (r: u16)
    ensures
        i16_from_bits(r as nat) == x,
{
    if x >= 0 {
        x as u16
    } else {
        ((x as i32) + 0x10000) as u16
    }
}

/// Raw bits of a signed 32-bit value.
pub fn i32_to_bits(x: i32) -> (r: u32)
    ensures
        i32_from_bits(r as nat) == x,
{
    if x >= 0 {
        x as u32
    } else {
        ((x as i64) + 0x100000000) as u32
    }
}

/// Raw bits of a signed 64-bit value.
pub fn i64_to_bits(x: i64) -> (r: u64)
    ensures
        i64_from_bits(r as nat) == x,
{
    if x >= 0 {
        x as u64
    } else {
        (((x as i128) + 0x10000000000000000) as u64)
    }
}

} // verus!
