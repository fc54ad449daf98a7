//! Reading and writing single bits, fixed-width fields and Exp-Golomb codes,
//! most significant bit first.
use vstd::arithmetic::logarithm::{lemma_log0, lemma_log_s, log};
use vstd::arithmetic::power2::{
    lemma2_to64, lemma_pow2_pos, lemma_pow2_strictly_increases, lemma_pow2_unfold, pow2,
};
use vstd::prelude::*;

verus! {

// ---------------------------------------------------------------------------
// The model: a byte string is a sequence of bits
// ---------------------------------------------------------------------------

/// Bit `k` of a byte, counted from the most significant one.
pub open spec fn bit_of(b: u8, k: int) -> bool {
    (b >> ((7 - k) as u8)) & 1 == 1
}

/// All bits of a byte string, in order.
pub open spec fn bits_of(d: Seq<u8>) -> Seq<bool> {
    Seq::new(8 * d.len(), |i: int| bit_of(d[i / 8], i % 8))
}

/// The number that a bit string writes in base two.
pub open spec fn bits_value(s: Seq<bool>) -> nat
    decreases s.len(),
{
    if s.len() == 0 {
        0
    } else {
        2 * bits_value(s.drop_last()) + if s.last() {
            1nat
        } else {
            0nat
        }
    }
}

/// The low `n` bits of `v`.
pub open spec fn low_bits(v: nat, n: nat) -> Seq<bool>
    decreases n,
{
    if n == 0 {
        seq![]
    } else {
        low_bits(v / 2, (n - 1) as nat).push(v % 2 == 1)
    }
}

/// How many bits it takes to write `v` without leading zeros.
pub open spec fn bit_length(v: nat) -> nat
    decreases v,
{
    if v == 0 {
        0
    } else {
        1 + bit_length(v / 2)
    }
}

/// `n` zero bits.
pub open spec fn zero_bits(n: nat) -> Seq<bool> {
    Seq::new(n, |i: int| false)
}

/// How many zero bits stand in a row from bit `p` on.
pub open spec fn zero_run(s: Seq<bool>, p: int) -> nat
    decreases s.len() - p,
{
    if 0 <= p < s.len() && !s[p] {
        1 + zero_run(s, p + 1)
    } else {
        0
    }
}

/// One bit at `p`, and the position behind it.
pub open spec fn read_bit(s: Seq<bool>, p: int) -> Option<(bool, int)> {
    if 0 <= p < s.len() {
        Some((s[p], p + 1))
    } else {
        None
    }
}

/// An `n`-bit number at `p`, kept to its low 64 bits, and the position behind it.
pub open spec fn read_bits(s: Seq<bool>, p: int, n: nat) -> Option<(int, int)> {
    if 0 <= p && p + n <= s.len() {
        Some(((bits_value(s.subrange(p, p + n)) % 0x1_0000_0000_0000_0000) as int, p + n))
    } else {
        None
    }
}

/// An unsigned Exp-Golomb code at `p`, and the position behind it: `z` zeros, a
/// one, and `z` bits `x` stand for `2^z - 1 + x`. At most 32 zeros are taken.
#[verifier::opaque]
pub open spec fn read_ue(s: Seq<bool>, p: int) -> Option<(int, int)> {
    let z = zero_run(s, p);
    if z <= 32 && p + 2 * z + 1 <= s.len() {
        Some((pow2(z) - 1 + bits_value(s.subrange(p + z + 1, p + 2 * z + 1)), p + 2 * z + 1))
    } else {
        None
    }
}

/// Where reading stops when there is no unsigned code at `p`.
pub open spec fn ue_stop(s: Seq<bool>, p: int) -> int {
    if zero_run(s, p) > 32 {
        p + 33
    } else {
        s.len() as int
    }
}

/// The signed number with index `k` in the order 0, 1, -1, 2, -2, ...
pub open spec fn signed_of(k: int) -> int {
    if k % 2 == 1 {
        (k + 1) / 2
    } else {
        -(k / 2)
    }
}

/// The index of `v` in the order 0, 1, -1, 2, -2, ...
pub open spec fn index_of_signed(v: int) -> int {
    if v > 0 {
        2 * v - 1
    } else {
        -2 * v
    }
}

/// A signed Exp-Golomb code at `p`, and the position behind it.
pub open spec fn read_se(s: Seq<bool>, p: int) -> Option<(int, int)> {
    match read_ue(s, p) {
        Some((k, q)) => Some((signed_of(k), q)),
        None => None,
    }
}

/// The unsigned Exp-Golomb code of `v`.
#[verifier::opaque]
pub open spec fn ue_code(v: nat) -> Seq<bool> {
    let n = bit_length(v + 1);
    zero_bits((n - 1) as nat) + low_bits(v + 1, n)
}

/// The signed Exp-Golomb code of `v`.
pub open spec fn se_code(v: int) -> Seq<bool> {
    ue_code(index_of_signed(v) as nat)
}

/// 1 if there is a one bit at `j`, else 0 (also past the end).
pub open spec fn weight_at(s: Seq<bool>, j: int) -> int {
    if 0 <= j < s.len() && s[j] {
        1
    } else {
        0
    }
}

/// The byte made of bits `8 * i` to `8 * i + 7`, with zeros past the end.
pub open spec fn packed_byte(s: Seq<bool>, i: int) -> int {
    weight_at(s, 8 * i) * 128 + weight_at(s, 8 * i + 1) * 64 + weight_at(s, 8 * i + 2) * 32
        + weight_at(s, 8 * i + 3) * 16 + weight_at(s, 8 * i + 4) * 8 + weight_at(s, 8 * i + 5) * 4
        + weight_at(s, 8 * i + 6) * 2 + weight_at(s, 8 * i + 7)
}

/// The bits packed into bytes, zero-padded to a byte boundary.
pub open spec fn pack(s: Seq<bool>) -> Seq<u8> {
    Seq::new(((s.len() + 7) / 8) as nat, |i: int| packed_byte(s, i) as u8)
}

// ---------------------------------------------------------------------------
// Facts about the model
// ---------------------------------------------------------------------------

/// `n` bits write a number below `2^n`.
pub proof fn lemma_bits_value_bound(s: Seq<bool>)
    ensures
        bits_value(s) < pow2(s.len()),
    decreases s.len(),
{
    if s.len() == 0 {
        lemma2_to64();
    } else {
        lemma_bits_value_bound(s.drop_last());
        lemma_pow2_unfold(s.len());
    }
}

/// The first bit weighs `2^(n-1)`.
proof fn lemma_bits_value_head(s: Seq<bool>)
    requires
        s.len() > 0,
    ensures
        bits_value(s) == bits_value(s.drop_first()) + if s[0] {
            pow2((s.len() - 1) as nat)
        } else {
            0nat
        },
    decreases s.len(),
{
    if s.len() == 1 {
        lemma2_to64();
        assert(s.drop_last() =~= Seq::<bool>::empty());
        assert(s.drop_first() =~= Seq::<bool>::empty());
    } else {
        lemma_bits_value_head(s.drop_last());
        lemma_pow2_unfold((s.len() - 1) as nat);
        assert(s.drop_last().drop_first() =~= s.drop_first().drop_last());
    }
}

/// Writing the low `n` bits of a number below `2^n` and reading them gives the number.
pub proof fn lemma_low_bits(v: nat, n: nat)
    requires
        v < pow2(n),
    ensures
        low_bits(v, n).len() == n,
        bits_value(low_bits(v, n)) == v,
    decreases n,
{
    if n == 0 {
        lemma2_to64();
    } else {
        lemma_pow2_unfold(n);
        lemma_low_bits(v / 2, (n - 1) as nat);
        assert(low_bits(v, n).drop_last() =~= low_bits(v / 2, (n - 1) as nat));
    }
}

/// A number has as many bits as its length says, and no fewer.
proof fn lemma_bit_length(v: nat)
    requires
        v > 0,
    ensures
        bit_length(v) > 0,
        pow2((bit_length(v) - 1) as nat) <= v < pow2(bit_length(v)),
    decreases v,
{
    lemma2_to64();
    if v > 1 {
        lemma_bit_length(v / 2);
        lemma_pow2_unfold(bit_length(v));
        lemma_pow2_unfold((bit_length(v) - 1) as nat);
    } else {
        assert(bit_length(0) == 0);
        assert(bit_length(1) == 1 + bit_length(0));
    }
}

/// A number below `2^n` has at most `n` bits.
pub proof fn lemma_bit_length_at_most(v: nat, n: nat)
    requires
        v < pow2(n),
    ensures
        bit_length(v) <= n,
{
    if v > 0 && bit_length(v) > n {
        lemma_bit_length(v);
        if n < bit_length(v) - 1 {
            lemma_pow2_strictly_increases(n, (bit_length(v) - 1) as nat);
        }
    }
}

/// A run of `z` zeros ended by a one has length `z`.
proof fn lemma_zero_run(s: Seq<bool>, p: int, z: nat)
    requires
        0 <= p,
        p + z < s.len(),
        s[p + z],
        forall|i: int| p <= i < p + z ==> !#[trigger] s[i],
    ensures
        zero_run(s, p) == z,
    decreases z,
{
    if z > 0 {
        assert(!s[p]);
        lemma_zero_run(s, p + 1, (z - 1) as nat);
    }
}

/// The zeros of a run are zeros, it ends by a one or the end, and it fits.
proof fn lemma_zero_run_shape(s: Seq<bool>, p: int)
    requires
        0 <= p <= s.len(),
    ensures
        p + zero_run(s, p) <= s.len(),
        forall|i: int| p <= i < p + zero_run(s, p) ==> !#[trigger] s[i],
        p + zero_run(s, p) < s.len() ==> s[p + zero_run(s, p)],
    decreases s.len() - p,
{
    if p < s.len() && !s[p] {
        lemma_zero_run_shape(s, p + 1);
    }
}

/// Exp-Golomb codes read back: the code of `v`, wherever it stands, is read as
/// `v`, and reading stops right behind it.
pub proof fn law_ue_roundtrip(before: Seq<bool>, v: nat, after: Seq<bool>)
    requires
        v < 0x1_ffff_ffff,
    ensures
        read_ue(before + ue_code(v) + after, before.len() as int) == Some(
            (v as int, (before.len() + ue_code(v).len()) as int),
        ),
{
    reveal(read_ue);
    reveal(ue_code);
    let n = bit_length(v + 1);
    let s = before + ue_code(v) + after;
    let p = before.len() as int;
    lemma_bit_length(v + 1);
    lemma2_to64();
    lemma_pow2_unfold(33);
    lemma_bit_length_at_most(v + 1, 33);
    let z = (n - 1) as nat;
    let w = low_bits(v + 1, n);
    lemma_low_bits(v + 1, n);
    lemma_bits_value_head(w);
    lemma_bits_value_bound(w.drop_first());
    assert(w[0]);
    assert(s[p + z] == w[0]);
    assert forall|i: int| p <= i < p + z implies !#[trigger] s[i] by {
        assert(s[i] == zero_bits(z)[i - p]);
    }
    lemma_zero_run(s, p, z);
    assert(s.subrange(p + z + 1, p + 2 * z + 1) =~= w.drop_first());
}

/// Signed Exp-Golomb codes read back.
pub proof fn law_se_roundtrip(before: Seq<bool>, v: int, after: Seq<bool>)
    requires
        -0xffff_ffff <= v <= 0xffff_ffff,
    ensures
        read_se(before + se_code(v) + after, before.len() as int) == Some(
            (v, (before.len() + se_code(v).len()) as int),
        ),
{
    law_ue_roundtrip(before, index_of_signed(v) as nat, after);
}

/// A fixed-width field reads back: `n` bits written of a number below `2^n` are
/// read as that number.
pub proof fn law_field_roundtrip(before: Seq<bool>, v: nat, n: nat, after: Seq<bool>)
    requires
        n <= 64,
        v < pow2(n),
    ensures
        read_bits(before + low_bits(v, n) + after, before.len() as int, n) == Some(
            (v as int, (before.len() + n) as int),
        ),
{
    lemma_low_bits(v, n);
    lemma2_to64();
    if n < 64 {
        lemma_pow2_strictly_increases(n, 64);
    }
    let s = before + low_bits(v, n) + after;
    assert(s.subrange(before.len() as int, (before.len() + n) as int) =~= low_bits(v, n));
}

/// A byte's bits are the weights it was summed from.
proof fn lemma_byte_bits(b: u8, b0: u8, b1: u8, b2: u8, b3: u8, b4: u8, b5: u8, b6: u8, b7: u8)
    requires
        b0 <= 1,
        b1 <= 1,
        b2 <= 1,
        b3 <= 1,
        b4 <= 1,
        b5 <= 1,
        b6 <= 1,
        b7 <= 1,
        b == b0 * 128 + b1 * 64 + b2 * 32 + b3 * 16 + b4 * 8 + b5 * 4 + b6 * 2 + b7,
    ensures
        (b >> 7u8) & 1 == b0,
        (b >> 6u8) & 1 == b1,
        (b >> 5u8) & 1 == b2,
        (b >> 4u8) & 1 == b3,
        (b >> 3u8) & 1 == b4,
        (b >> 2u8) & 1 == b5,
        (b >> 1u8) & 1 == b6,
        (b >> 0u8) & 1 == b7,
{
    assert((b >> 7u8) & 1 == b0 && (b >> 6u8) & 1 == b1 && (b >> 5u8) & 1 == b2 && (b >> 4u8) & 1
        == b3 && (b >> 3u8) & 1 == b4 && (b >> 2u8) & 1 == b5 && (b >> 1u8) & 1 == b6 && (b >> 0u8)
        & 1 == b7) by (bit_vector)
        requires
            b0 <= 1,
            b1 <= 1,
            b2 <= 1,
            b3 <= 1,
            b4 <= 1,
            b5 <= 1,
            b6 <= 1,
            b7 <= 1,
            b == b0 * 128 + b1 * 64 + b2 * 32 + b3 * 16 + b4 * 8 + b5 * 4 + b6 * 2 + b7,
    ;
}

/// Packing keeps every bit and pads with zeros.
pub proof fn law_pack(s: Seq<bool>)
    ensures
        pack(s).len() == (s.len() + 7) / 8,
        bits_of(pack(s)) == s + zero_bits((8 * pack(s).len() - s.len()) as nat),
{
    let d = pack(s);
    let pad = zero_bits((8 * d.len() - s.len()) as nat);
    assert forall|j: int| 0 <= j < 8 * d.len() implies #[trigger] bits_of(d)[j] == (s + pad)[j] by {
        let i = j / 8;
        let k = j % 8;
        assert(0 <= i < d.len());
        assert(j == 8 * i + k);
        lemma_byte_bits(
            d[i],
            weight_at(s, 8 * i) as u8,
            weight_at(s, 8 * i + 1) as u8,
            weight_at(s, 8 * i + 2) as u8,
            weight_at(s, 8 * i + 3) as u8,
            weight_at(s, 8 * i + 4) as u8,
            weight_at(s, 8 * i + 5) as u8,
            weight_at(s, 8 * i + 6) as u8,
            weight_at(s, 8 * i + 7) as u8,
        );
        assert(bit_of(d[i], k) == (weight_at(s, 8 * i + k) == 1)) by {
            if k == 0 {
            } else if k == 1 {
            } else if k == 2 {
            } else if k == 3 {
            } else if k == 4 {
            } else if k == 5 {
            } else if k == 6 {
            } else {
            }
        }
    }
    assert(bits_of(d) =~= s + pad);
}

proof fn lemma_bit_length_is_log(v: nat)
    requires
        v > 0,
    ensures
        bit_length(v) == log(2, v as int) + 1,
    decreases v,
{
    if v < 2 {
        lemma_log0(2, v as int);
        assert(bit_length(0) == 0);
    } else {
        lemma_log_s(2, v as int);
        lemma_bit_length_is_log(v / 2);
    }
}

/// A written Exp-Golomb code reads back: packed into bytes, the code of `v` is read as `v`,
/// and takes one bit more than twice the whole part of the binary logarithm of `v + 1`.
pub proof fn law_written_ue_reads_back(v: nat)
    requires
        v < 0x1_ffff_ffff,
    ensures
        read_ue(bits_of(pack(ue_code(v))), 0) == Some((v as int, 2 * log(2, v as int + 1) + 1)),
{
    let code = ue_code(v);
    let none = Seq::<bool>::empty();
    let pad = zero_bits((8 * pack(code).len() - code.len()) as nat);
    law_pack(code);
    law_ue_roundtrip(none, v, pad);
    assert(none + code + pad =~= code + pad);
    lemma_bit_length_is_log(v + 1);
    assert(code.len() == 2 * bit_length(v + 1) - 1) by {
        reveal(ue_code);
        lemma_bit_length(v + 1);
        lemma_low_bits(v + 1, bit_length(v + 1));
    }
}

/// A byte is the sum of its bits' weights.
proof fn lemma_byte_sum(b: u8)
    ensures
        b == ((b >> 7u8) & 1) * 128 + ((b >> 6u8) & 1) * 64 + ((b >> 5u8) & 1) * 32 + ((b >> 4u8) & 1)
            * 16 + ((b >> 3u8) & 1) * 8 + ((b >> 2u8) & 1) * 4 + ((b >> 1u8) & 1) * 2 + ((b >> 0u8)
            & 1),
        (b >> 7u8) & 1 <= 1,
        (b >> 6u8) & 1 <= 1,
        (b >> 5u8) & 1 <= 1,
        (b >> 4u8) & 1 <= 1,
        (b >> 3u8) & 1 <= 1,
        (b >> 2u8) & 1 <= 1,
        (b >> 1u8) & 1 <= 1,
        (b >> 0u8) & 1 <= 1,
{
    let b7: u8 = (b >> 7u8) & 1;
    let b6: u8 = (b >> 6u8) & 1;
    let b5: u8 = (b >> 5u8) & 1;
    let b4: u8 = (b >> 4u8) & 1;
    let b3: u8 = (b >> 3u8) & 1;
    let b2: u8 = (b >> 2u8) & 1;
    let b1: u8 = (b >> 1u8) & 1;
    let b0: u8 = (b >> 0u8) & 1;
    assert(b7 <= 1 && b6 <= 1 && b5 <= 1 && b4 <= 1 && b3 <= 1 && b2 <= 1 && b1 <= 1 && b0 <= 1 && b
        == b7 * 128 + b6 * 64 + b5 * 32 + b4 * 16 + b3 * 8 + b2 * 4 + b1 * 2 + b0) by (bit_vector)
        requires
            b7 == (b >> 7u8) & 1,
            b6 == (b >> 6u8) & 1,
            b5 == (b >> 5u8) & 1,
            b4 == (b >> 4u8) & 1,
            b3 == (b >> 3u8) & 1,
            b2 == (b >> 2u8) & 1,
            b1 == (b >> 1u8) & 1,
            b0 == (b >> 0u8) & 1,
    ;
}

/// Bytes are what their bits pack to.
pub proof fn law_unpacked_bits_pack_again(d: Seq<u8>)
    ensures
        pack(bits_of(d)) == d,
{
    let s = bits_of(d);
    assert forall|i: int| 0 <= i < d.len() implies #[trigger] pack(s)[i] == d[i] by {
        let b = d[i];
        lemma_byte_sum(b);
        assert(s[8 * i] == bit_of(b, 0));
        assert(s[8 * i + 1] == bit_of(b, 1));
        assert(s[8 * i + 2] == bit_of(b, 2));
        assert(s[8 * i + 3] == bit_of(b, 3));
        assert(s[8 * i + 4] == bit_of(b, 4));
        assert(s[8 * i + 5] == bit_of(b, 5));
        assert(s[8 * i + 6] == bit_of(b, 6));
        assert(s[8 * i + 7] == bit_of(b, 7));
        assert(packed_byte(s, i) == b);
    }
    assert(pack(s) =~= d);
}

/// The bits of `s` from `p` to `e` stand in `t` from `q` on.
pub open spec fn carried(s: Seq<bool>, p: int, e: int, t: Seq<bool>, q: int) -> bool {
    &&& 0 <= p <= e <= s.len()
    &&& 0 <= q
    &&& q + (e - p) <= t.len()
    &&& forall|k: int| q <= k < q + (e - p) ==> #[trigger] t[k] == s[k - (q - p)]
}

/// A code that is carried elsewhere reads the same there.
pub proof fn lemma_ue_carried(s: Seq<bool>, p: int, t: Seq<bool>, q: int)
    requires
        0 <= p <= s.len(),
        read_ue(s, p) matches Some((v, e)) && carried(s, p, e, t, q),
    ensures
        read_ue(s, p) matches Some((v, e)) && read_ue(t, q) == Some((v, q + (e - p))) && p < e,
{
    reveal(read_ue);
    let z = zero_run(s, p);
    lemma_zero_run_shape(s, p);
    let e = p + 2 * z + 1;
    assert(t[q + z] == s[p + z]);
    assert forall|k: int| q <= k < q + z implies !#[trigger] t[k] by {
        assert(t[k] == s[k - (q - p)]);
    }
    lemma_zero_run(t, q, z);
    assert(t.subrange(q + z + 1, q + 2 * z + 1) =~= s.subrange(p + z + 1, p + 2 * z + 1));
}

/// What an unsigned code says, and where it ends.
pub proof fn lemma_ue_range(s: Seq<bool>, p: int)
    requires
        0 <= p <= s.len(),
    ensures
        read_ue(s, p) matches Some((v, e)) ==> 0 <= v < 0x1_ffff_ffff && p < e <= s.len(),
{
    reveal(read_ue);
    let z = zero_run(s, p);
    if read_ue(s, p) is Some {
        lemma2_to64();
        lemma_pow2_unfold(33);
        lemma_pow2_pos(z);
        lemma_bits_value_bound(s.subrange(p + z + 1, p + 2 * z + 1));
        if z < 32 {
            lemma_pow2_strictly_increases(z, 32);
        }
    }
}

// ---------------------------------------------------------------------------
// Bit reading
// ---------------------------------------------------------------------------

/// A bit that is shifted into the low 64 bits of a number.
proof fn lemma_shifted_in(whole: int, bit: int)
    requires
        0 <= whole,
        0 <= bit <= 1,
    ensures
        ({
            let v = whole % 0x1_0000_0000_0000_0000;
            let low = if v >= 0x8000_0000_0000_0000 {
                v - 0x8000_0000_0000_0000
            } else {
                v
            };
            low * 2 + bit == (2 * whole + bit) % 0x1_0000_0000_0000_0000
        }),
{
    let m = 0x1_0000_0000_0000_0000int;
    let v = whole % m;
    let q = whole / m;
    let carry = if v >= 0x8000_0000_0000_0000 {
        1int
    } else {
        0int
    };
    vstd::arithmetic::div_mod::lemma_fundamental_div_mod_converse(
        2 * whole + bit,
        m,
        2 * q + carry,
        2 * v - carry * m + bit,
    );
}

/// A reading position in a byte string, counted in bits.
pub struct Bits<'a> {
    d: &'a [u8],
    bit: usize,
}

impl<'a> Bits<'a> {
    /// The bits that are read from.
    pub closed spec fn bits(&self) -> Seq<bool> {
        bits_of(self.d@)
    }

    /// How many bits have been read.
    pub closed spec fn at(&self) -> int {
        self.bit as int
    }

    /// The position lies in the bits, and every position fits in a `usize`.
    pub open spec fn wf(&self) -> bool {
        0 <= self.at() <= self.bits().len() <= usize::MAX
    }

    pub fn new(d: &'a [u8]) -> (r: Self)
        requires
            8 * d@.len() <= usize::MAX,
        ensures
            r.wf(),
            r.bits() == bits_of(d@),
            r.at() == 0,
    {
        Self { d, bit: 0 }
    }

    pub fn pos(&self) -> (r: usize)
        ensures
            r == self.at(),
    {
        self.bit
    }

    /// The next bit.
    pub fn u1(&mut self) -> (r: Option<bool>)
        requires
            old(self).wf(),
        ensures
            final(self).wf(),
            final(self).bits() == old(self).bits(),
            match r {
                Some(v) => read_bit(old(self).bits(), old(self).at()) == Some((v, final(self).at())),
                None => read_bit(old(self).bits(), old(self).at()) is None && final(self).at() ==
                    old(self).at(),
            },
    {
        let i: usize = self.bit / 8;
        if i >= self.d.len() {
            return None;
        }
        let v: u8 = (self.d[i] >> ((7 - self.bit % 8) as u8)) & 1;
        self.bit = self.bit + 1;
        Some(v == 1)
    }

    /// The next `n` bits as a number; bits beyond the last 64 fall away.
    pub fn u(&mut self, n: u32) -> (r: Option<u64>)
        requires
            old(self).wf(),
        ensures
            final(self).wf(),
            final(self).bits() == old(self).bits(),
            match r {
                Some(v) => read_bits(old(self).bits(), old(self).at(), n as nat) == Some(
                    (v as int, final(self).at()),
                ),
                None => read_bits(old(self).bits(), old(self).at(), n as nat) is None
                    && final(self).at() == old(self).bits().len(),
            },
    {
        let ghost s = self.bits();
        let ghost p = self.at();
        let mut v: u64 = 0;
        let mut i: u32 = 0;
        assert(s.subrange(p, p) =~= Seq::<bool>::empty());
        while i < n
            invariant
                i <= n,
                self.wf(),
                s == old(self).bits(),
                p == old(self).at(),
                self.bits() == s,
                self.at() == p + i,
                0 <= p,
                v == bits_value(s.subrange(p, p + i)) % 0x1_0000_0000_0000_0000,
            decreases n - i,
        {
            let b = match self.u1() {
                Some(b) => b,
                None => {
                    return None;
                },
            };
            let ghost whole = bits_value(s.subrange(p, p + i)) as int;
            assert(s.subrange(p, p + i + 1).drop_last() =~= s.subrange(p, p + i));
            let low: u64 = if v >= 0x8000_0000_0000_0000 {
                v - 0x8000_0000_0000_0000
            } else {
                v
            };
            v = low * 2 + if b {
                1u64
            } else {
                0u64
            };
            i = i + 1;
            proof {
                lemma_shifted_in(
                    whole,
                    if b {
                        1int
                    } else {
                        0int
                    },
                );
            }
        }
        Some(v)
    }

    /// The next unsigned Exp-Golomb code.
    pub fn ue(&mut self) -> (r: Option<u64>)
        requires
            old(self).wf(),
        ensures
            final(self).wf(),
            final(self).bits() == old(self).bits(),
            match r {
                Some(v) => v < 0x1_ffff_ffff && read_ue(old(self).bits(), old(self).at()) == Some(
                    (v as int, final(self).at()),
                ),
                None => read_ue(old(self).bits(), old(self).at()) is None && final(self).at()
                    == ue_stop(old(self).bits(), old(self).at()),
            },
    {
        let ghost s = self.bits();
        let ghost p = self.at();
        let mut zeros: u32 = 0;
        let mut base: u64 = 1;
        proof {
            reveal(read_ue);
            lemma2_to64();
            lemma_pow2_unfold(33);
            lemma_zero_run_shape(s, p);
        }
        let ghost z = zero_run(s, p);
        loop
            invariant_except_break
                self.at() == p + zeros,
            invariant
                self.wf(),
                s == old(self).bits(),
                p == old(self).at(),
                self.bits() == s,
                0 <= p,
                zeros <= 32,
                zeros <= z,
                z == zero_run(s, p),
                base == pow2(zeros as nat),
                base <= pow2(32),
                pow2(32) == 0x1_0000_0000,
                pow2(33) == 0x2_0000_0000,
                p + z <= s.len(),
                forall|i: int| p <= i < p + z ==> !#[trigger] s[i],
                p + z < s.len() ==> s[p + z],
            ensures
                self.wf(),
                self.bits() == s,
                zeros == z,
                self.at() == p + z + 1,
                p + z < s.len(),
                base == pow2(zeros as nat),
                zeros <= 32,
            decreases 33 - zeros,
        {
            proof {
                reveal(read_ue);
            }
            let b = match self.u1() {
                Some(b) => b,
                None => {
                    return None;
                },
            };
            if b {
                break;
            }
            if zeros == 32 {
                return None;
            }
            zeros = zeros + 1;
            base = base * 2;
            proof {
                lemma_pow2_unfold(zeros as nat);
                if zeros < 32 {
                    lemma_pow2_strictly_increases(zeros as nat, 32);
                }
            }
        }
        proof {
            let x = s.subrange(p + z + 1, p + 2 * z + 1);
            if p + 2 * z + 1 <= s.len() {
                lemma_bits_value_bound(x);
                if z < 32 {
                    lemma_pow2_strictly_increases(z, 32);
                }
            }
        }
        match self.u(zeros) {
            Some(x) => Some(base - 1 + x),
            None => None,
        }
    }

    /// The next signed Exp-Golomb code.
    pub fn se(&mut self) -> (r: Option<i64>)
        requires
            old(self).wf(),
        ensures
            final(self).wf(),
            final(self).bits() == old(self).bits(),
            match r {
                Some(v) => -0xffff_ffff <= v <= 0xffff_ffff && read_se(old(self).bits(), old(self).at())
                    == Some((v as int, final(self).at())),
                None => read_se(old(self).bits(), old(self).at()) is None && final(self).at()
                    == ue_stop(old(self).bits(), old(self).at()),
            },
    {
        let k = match self.ue() {
            Some(k) => k,
            None => {
                return None;
            },
        };
        if k % 2 == 1 {
            Some(((k + 1) / 2) as i64)
        } else {
            Some(-((k / 2) as i64))
        }
    }
}

// ---------------------------------------------------------------------------
// Bit writing
// ---------------------------------------------------------------------------

/// A growing string of bits.
pub struct BitWriter {
    bits: Vec<bool>,
}

impl View for BitWriter {
    type V = Seq<bool>;

    closed spec fn view(&self) -> Seq<bool> {
        self.bits@
    }
}

impl Default for BitWriter {
    fn default() -> (r: Self)
        ensures
            r@ == Seq::<bool>::empty(),
    {
        Self { bits: Vec::new() }
    }
}

impl BitWriter {
    pub fn new() -> (r: Self)
        ensures
            r@ == Seq::<bool>::empty(),
    {
        Self { bits: Vec::new() }
    }

    /// Appends one bit.
    pub fn put(&mut self, b: bool)
        ensures
            final(self)@ == old(self)@.push(b),
    {
        self.bits.push(b);
    }

    /// Appends the unsigned Exp-Golomb code of `v`.
    pub fn ue(&mut self, v: u64)
        requires
            v < u64::MAX,
        ensures
            final(self)@ == old(self)@ + ue_code(v as nat),
    {
        let w: u64 = v + 1;
        let mut n: u32 = 0;
        let mut rest: u64 = w;
        proof {
            reveal(ue_code);
            lemma2_to64();
            lemma_bit_length(w as nat);
            lemma_bit_length_at_most(w as nat, 64);
        }
        while rest > 0
            invariant
                n + bit_length(rest as nat) == bit_length(w as nat),
                bit_length(w as nat) <= 64,
            decreases rest,
        {
            rest = rest / 2;
            n = n + 1;
        }
        assert(n == bit_length(w as nat));
        let ghost start = self@;
        let mut i: u32 = 1;
        while i < n
            invariant
                1 <= i <= n,
                self@ == start + zero_bits((i - 1) as nat),
            decreases n - i,
        {
            self.put(false);
            i = i + 1;
            assert(self@ =~= start + zero_bits((i - 1) as nat));
        }
        self.u(w, n);
        assert(self@ =~= start + ue_code(v as nat));
    }

    /// Appends bits `from..to` of `src`, as far as it has them.
    pub fn copy_bits(&mut self, src: &[u8], from: usize, to: usize)
        requires
            8 * src@.len() <= usize::MAX,
        ensures
            final(self)@ == old(self)@ + (if from <= to && from <= 8 * src@.len() {
                bits_of(src@).subrange(
                    from as int,
                    if to <= 8 * src@.len() {
                        to as int
                    } else {
                        8 * src@.len() as int
                    },
                )
            } else {
                seq![]
            }),
    {
        let n: usize = src.len() * 8;
        let end: usize = if to <= n {
            to
        } else {
            n
        };
        let ghost start = self@;
        if from > end {
            assert(self@ =~= start + Seq::<bool>::empty());
            return ;
        }
        let mut i: usize = from;
        assert(bits_of(src@).subrange(from as int, from as int) =~= Seq::<bool>::empty());
        assert(self@ =~= start + bits_of(src@).subrange(from as int, from as int));
        while i < end
            invariant
                from <= i <= end <= n,
                n == 8 * src@.len(),
                self@ == start + bits_of(src@).subrange(from as int, i as int),
            decreases end - i,
        {
            let v: u8 = (src[i / 8] >> ((7 - i % 8) as u8)) & 1;
            self.put(v == 1);
            i = i + 1;
            assert(bits_of(src@)[i - 1] == (v == 1));
            assert(self@ =~= start + bits_of(src@).subrange(from as int, i as int));
        }
    }

    /// Appends the signed Exp-Golomb code of `v`.
    pub fn se(&mut self, v: i64)
        requires
            -0x4000_0000_0000_0000 < v,
        ensures
            final(self)@ == old(self)@ + se_code(v as int),
    {
        let k: u64 = if v > 0 {
            2 * (v as u64) - 1
        } else {
            (-(2 * v)) as u64
        };
        self.ue(k);
    }

    /// Appends the low `n` bits of `v`.
    pub fn u(&mut self, v: u64, n: u32)
        requires
            n <= 64,
        ensures
            final(self)@ == old(self)@ + low_bits(v as nat, n as nat),
        decreases n,
    {
        if n > 0 {
            self.u(v / 2, n - 1);
            self.put(v % 2 == 1);
        }
        assert(self@ =~= old(self)@ + low_bits(v as nat, n as nat));
    }

    /// 1 if bit `base + k` is a one, else 0 (also past the end).
    fn weight(&self, base: usize, k: usize) -> (r: u8)
        requires
            base <= self@.len(),
        ensures
            r == weight_at(self@, base + k),
    {
        if self.bits.len() - base > k && self.bits[base + k] {
            1
        } else {
            0
        }
    }

    /// Packs to bytes, zero-padded to a byte boundary.
    pub fn finish(self) -> (out: Vec<u8>)
        ensures
            out@ == pack(self@),
    {
        let mut out: Vec<u8> = Vec::new();
        let mut base: usize = 0;
        let n: usize = self.bits.len();
        while base < n
            invariant
                n == self@.len(),
                out@.len() == (base + 7) / 8,
                base % 8 == 0 || base == n,
                base <= n,
                forall|i: int| 0 <= i < out@.len() ==> #[trigger] out@[i] == packed_byte(self@, i),
            decreases n - base,
        {
            let b: u8 = self.weight(base, 0) * 128 + self.weight(base, 1) * 64 + self.weight(base, 2) * 32
                + self.weight(base, 3) * 16 + self.weight(base, 4) * 8 + self.weight(base, 5) * 4
                + self.weight(base, 6) * 2 + self.weight(base, 7);
            assert(b == packed_byte(self@, base as int / 8));
            out.push(b);
            if n - base <= 8 {
                base = n;
            } else {
                base = base + 8;
            }
        }
        assert(out@ =~= pack(self@));
        out
    }
}

} // verus!
