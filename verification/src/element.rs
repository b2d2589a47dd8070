//! Fixed-width big-endian element codec.
//!
//! Every scalar payload on the wire is a run of `width` bytes, most
//! significant first.  `be_value` reads such a run as a number and
//! `be_bytes` writes one; they are mutually inverse on in-range values.

use vstd::arithmetic::div_mod::{
    lemma_div_pos_is_pos, lemma_fundamental_div_mod, lemma_mod_bound,
};
use vstd::prelude::*;

verus! {

/// 256 to the power `n`: the number of distinct values of `n` bytes.
pub open spec fn pow256(n: nat) -> nat
    decreases n,
{
    if n == 0 {
        1
    } else {
        256 * pow256((n - 1) as nat)
    }
}

/// The number encoded by a big-endian byte string: the last byte is the
/// least significant.
pub open spec fn be_value(s: Seq<u8>) -> nat
    decreases s.len(),
{
    if s.len() == 0 {
        0
    } else {
        (be_value(s.drop_last()) * 256 + s.last()) as nat
    }
}

/// The unique `width`-byte big-endian encoding of `v % pow256(width)`.
pub open spec fn be_bytes(v: nat, width: nat) -> Seq<u8>
    decreases width,
{
    if width == 0 {
        Seq::empty()
    } else {
        be_bytes(v / 256, (width - 1) as nat).push((v % 256) as u8)
    }
}

/// The values of `pow256` at the widths the wire format uses.
pub proof fn lemma_pow256_values()
    ensures
        pow256(0) == 1,
        pow256(1) == 256,
        pow256(2) == 0x1_0000,
        pow256(4) == 0x1_0000_0000,
        pow256(8) == 0x1_0000_0000_0000_0000,
{
    assert(pow256(1) == 256 * pow256(0));
    assert(pow256(2) == 256 * pow256(1));
    assert(pow256(3) == 256 * pow256(2));
    assert(pow256(4) == 256 * pow256(3));
    assert(pow256(5) == 256 * pow256(4));
    assert(pow256(6) == 256 * pow256(5));
    assert(pow256(7) == 256 * pow256(6));
    assert(pow256(8) == 256 * pow256(7));
}

/// A byte string of length `n` encodes a value below `pow256(n)`.
pub proof fn lemma_be_value_bound(s: Seq<u8>)
    ensures
        be_value(s) < pow256(s.len()),
    decreases s.len(),
{
    if s.len() > 0 {
        lemma_be_value_bound(s.drop_last());
        assert(be_value(s.drop_last()) <= pow256((s.len() - 1) as nat) - 1);
        assert(be_value(s.drop_last()) * 256 <= (pow256((s.len() - 1) as nat) - 1) * 256)
            by (nonlinear_arith)
            requires
                be_value(s.drop_last()) <= pow256((s.len() - 1) as nat) - 1,
        ;
    }
}

/// Appending a byte multiplies the encoded value by 256 and adds the byte.
pub proof fn lemma_be_value_push(s: Seq<u8>, b: u8)
    ensures
        be_value(s.push(b)) == be_value(s) * 256 + b,
{
    assert(s.push(b).drop_last() =~= s);
    assert(s.push(b).last() == b);
}

/// Writing `width` bytes of an in-range value and reading them back is
/// the identity.
pub proof fn lemma_be_bytes_value(v: nat, width: nat)
    requires
        v < pow256(width),
    ensures
        be_bytes(v, width).len() == width,
        be_value(be_bytes(v, width)) == v,
    decreases width,
{
    if width > 0 {
        lemma_fundamental_div_mod(v as int, 256);
        assert(v / 256 < pow256((width - 1) as nat)) by (nonlinear_arith)
            requires
                v < pow256(width),
                pow256(width) == 256 * pow256((width - 1) as nat),
                v / 256 * 256 + v % 256 == v,
                0 <= v % 256 < 256,
        ;
        lemma_be_bytes_value(v / 256, (width - 1) as nat);
        lemma_be_value_push(be_bytes(v / 256, (width - 1) as nat), (v % 256) as u8);
    }
}

/// Reading a byte string and writing it back at the same width is the
/// identity.
pub proof fn lemma_be_value_bytes(s: Seq<u8>)
    ensures
        be_bytes(be_value(s), s.len()) == s,
    decreases s.len(),
{
    if s.len() > 0 {
        let v = be_value(s);
        let dl = s.drop_last();
        let b = s.last();
        assert(v == be_value(dl) * 256 + b);
        assert(v / 256 == be_value(dl) && v % 256 == b) by (nonlinear_arith)
            requires
                v == be_value(dl) * 256 + b,
                0 <= b < 256,
        ;
        lemma_be_value_bytes(dl);
        assert(be_bytes(v, s.len()) =~= s);
    }
}

/// Read a `width`-byte big-endian run out of `v` starting at `start`.
pub fn be_decode_range(v: &Vec<u8>, start: usize, width: usize) -> (r: u64)
    requires
        start + width <= v@.len(),
        width <= 8,
    ensures
        r as nat == be_value(v@.subrange(start as int, (start + width) as int)),
{
    proof {
        lemma_pow256_values();
    }
    let vlen = v.len();
    let mut acc: u64 = 0;
    let mut i: usize = 0;
    while i < width
        invariant
            i <= width,
            width <= 8,
            start + width <= vlen,
            vlen == v@.len(),
            acc as nat == be_value(v@.subrange(start as int, (start + i) as int)),
            (acc as nat) < pow256(i as nat),
            pow256(8) == 0x1_0000_0000_0000_0000,
        decreases width - i,
    {
        proof {
            let pre = v@.subrange(start as int, (start + i) as int);
            let post = v@.subrange(start as int, (start + i + 1) as int);
            assert(post.drop_last() =~= pre);
            assert(post.last() == v@[start + i]);
            assert(pow256((i + 1) as nat) == 256 * pow256(i as nat));
            assert(acc as nat * 256 + v@[start + i] < 256 * pow256(i as nat)) by (nonlinear_arith)
                requires
                    (acc as nat) < pow256(i as nat),
                    v@[start + i] < 256,
            ;
            assert(pow256((i + 1) as nat) <= pow256(8)) by {
                lemma_pow256_increases((i + 1) as nat, 8);
            }
        }
        acc = acc * 256 + (v[start + i] as u64);
        i = i + 1;
    }
    assert(v@.subrange(start as int, (start + width) as int) == v@.subrange(
        start as int,
        (start + i) as int,
    ));
    acc
}

/// `pow256` is monotonic.
pub proof fn lemma_pow256_increases(m: nat, n: nat)
    requires
        m <= n,
    ensures
        pow256(m) <= pow256(n),
    decreases n,
{
    if m < n {
        lemma_pow256_increases(m, (n - 1) as nat);
        assert(pow256(n) == 256 * pow256((n - 1) as nat));
        assert(pow256((n - 1) as nat) <= 256 * pow256((n - 1) as nat)) by (nonlinear_arith)
            requires
                pow256((n - 1) as nat) >= 0,
        ;
    }
}

/// Write the `width`-byte big-endian encoding of `v`.
pub fn be_encode(v: u64, width: usize) -> (r: Vec<u8>)
    requires
        width <= 8,
        (v as nat) < pow256(width as nat),
    ensures
        r@ == be_bytes(v as nat, width as nat),
        r@.len() == width,
{
    proof {
        lemma_be_bytes_value(v as nat, width as nat);
    }
    let mut out: Vec<u8> = Vec::new();
    let mut x = v;
    let mut i: usize = 0;
    while i < width
        invariant
            i <= width,
            out@.len() == i,
            (x as nat) < pow256((width - i) as nat),
            be_bytes(v as nat, width as nat) == be_bytes(x as nat, (width - i) as nat) + out@,
        decreases width - i,
    {
        proof {
            lemma_fundamental_div_mod(x as int, 256);
            assert((x as nat) / 256 < pow256((width - i - 1) as nat)) by (nonlinear_arith)
                requires
                    (x as nat) < pow256((width - i) as nat),
                    pow256((width - i) as nat) == 256 * pow256((width - i - 1) as nat),
                    (x as nat) / 256 * 256 + (x as nat) % 256 == x as nat,
                    0 <= (x as nat) % 256 < 256,
            ;
            let k = (width - i) as nat;
            assert(be_bytes(x as nat, k) == be_bytes((x as nat) / 256, (k - 1) as nat).push(
                ((x as nat) % 256) as u8,
            ));
            assert(be_bytes((x as nat) / 256, (k - 1) as nat).push(((x as nat) % 256) as u8)
                + out@ =~= be_bytes((x as nat) / 256, (k - 1) as nat) + (seq![
                ((x as nat) % 256) as u8,
            ] + out@));
        }
        let b = (x % 256) as u8;
        x = x / 256;
        out.insert(0, b);
        i = i + 1;
    }
    proof {
        assert(be_bytes(x as nat, 0) =~= Seq::<u8>::empty());
        assert(Seq::<u8>::empty() + out@ =~= out@);
    }
    out
}

/// A value with a fixed-width big-endian wire representation.
///
/// `raw` is the unsigned reading of the representation: the value itself
/// for unsigned kinds, the two's-complement bit pattern for signed kinds,
/// and 0 or 1 for booleans.
pub trait IntoBytes<const SIZE: usize>: Sized {
    /// The unsigned reading of this value's wire bytes.
    spec fn raw(self) -> nat;

    /// `raw` is in range for `SIZE` bytes.
    proof fn raw_in_range(self)
        ensures
            self.raw() < pow256(SIZE as nat),
    ;

    /// This value's wire bytes, most significant first.
    fn into_bytes(self) -> (r: Vec<u8>)
        ensures
            r@ == be_bytes(self.raw(), SIZE as nat),
            r@.len() == SIZE,
    ;
}

impl IntoBytes<1> for bool {
    open spec fn raw(self) -> nat {
        if self {
            1
        } else {
            0
        }
    }

    proof fn raw_in_range(self) {
        lemma_pow256_values();
    }

    fn into_bytes(self) -> (r: Vec<u8>) {
        proof {
            lemma_pow256_values();
        }
        be_encode(if self { 1 } else { 0 }, 1)
    }
}

impl IntoBytes<1> for u8 {
    open spec fn raw(self) -> nat {
        self as nat
    }

    proof fn raw_in_range(self) {
        lemma_pow256_values();
    }

    fn into_bytes(self) -> (r: Vec<u8>) {
        proof {
            lemma_pow256_values();
        }
        be_encode(self as u64, 1)
    }
}

impl IntoBytes<2> for u16 {
    open spec fn raw(self) -> nat {
        self as nat
    }

    proof fn raw_in_range(self) {
        lemma_pow256_values();
    }

    fn into_bytes(self) -> (r: Vec<u8>) {
        proof {
            lemma_pow256_values();
        }
        be_encode(self as u64, 2)
    }
}

impl IntoBytes<4> for u32 {
    open spec fn raw(self) -> nat {
        self as nat
    }

    proof fn raw_in_range(self) {
        lemma_pow256_values();
    }

    fn into_bytes(self) -> (r: Vec<u8>) {
        proof {
            lemma_pow256_values();
        }
        be_encode(self as u64, 4)
    }
}

impl IntoBytes<8> for u64 {
    open spec fn raw(self) -> nat {
        self as nat
    }

    proof fn raw_in_range(self) {
        lemma_pow256_values();
    }

    fn into_bytes(self) -> (r: Vec<u8>) {
        proof {
            lemma_pow256_values();
        }
        be_encode(self, 8)
    }
}

impl IntoBytes<1> for i8 {
    open spec fn raw(self) -> nat {
        (self as u8) as nat
    }

    proof fn raw_in_range(self) {
        lemma_pow256_values();
    }

    fn into_bytes(self) -> (r: Vec<u8>) {
        proof {
            lemma_pow256_values();
        }
        be_encode((self as u8) as u64, 1)
    }
}

impl IntoBytes<2> for i16 {
    open spec fn raw(self) -> nat {
        (self as u16) as nat
    }

    proof fn raw_in_range(self) {
        lemma_pow256_values();
    }

    fn into_bytes(self) -> (r: Vec<u8>) {
        proof {
            lemma_pow256_values();
        }
        be_encode((self as u16) as u64, 2)
    }
}

impl IntoBytes<4> for i32 {
    open spec fn raw(self) -> nat {
        (self as u32) as nat
    }

    proof fn raw_in_range(self) {
        lemma_pow256_values();
    }

    fn into_bytes(self) -> (r: Vec<u8>) {
        proof {
            lemma_pow256_values();
        }
        be_encode((self as u32) as u64, 4)
    }
}

impl IntoBytes<8> for i64 {
    open spec fn raw(self) -> nat {
        (self as u64) as nat
    }

    proof fn raw_in_range(self) {
        lemma_pow256_values();
    }

    fn into_bytes(self) -> (r: Vec<u8>) {
        proof {
            lemma_pow256_values();
        }
        be_encode(self as u64, 8)
    }
}

} // verus!
