//! Big-endian integers, byte searches and appends over plain byte slices.
use vstd::prelude::*;

verus! {

/// The 16-bit big-endian number at byte `i` of `d`.
pub open spec fn be16_at(d: Seq<u8>, i: int) -> int {
    d[i] * 0x100 + d[i + 1]
}

/// The 32-bit big-endian number at byte `i` of `d`.
pub open spec fn be32_at(d: Seq<u8>, i: int) -> int {
    be16_at(d, i) * 0x1_0000 + be16_at(d, i + 2)
}

/// The 64-bit big-endian number at byte `i` of `d`.
pub open spec fn be64_at(d: Seq<u8>, i: int) -> int {
    be32_at(d, i) * 0x1_0000_0000 + be32_at(d, i + 4)
}

/// The low 16 bits of `v`, most significant byte first.
pub open spec fn be16_bytes(v: int) -> Seq<u8> {
    seq![((v / 0x100) % 0x100) as u8, (v % 0x100) as u8]
}

/// The low 32 bits of `v`, most significant byte first.
#[verifier::opaque]
pub open spec fn be32_bytes(v: int) -> Seq<u8> {
    be16_bytes(v / 0x1_0000) + be16_bytes(v)
}

/// The low 64 bits of `v`, most significant byte first.
#[verifier::opaque]
pub open spec fn be64_bytes(v: int) -> Seq<u8> {
    be32_bytes(v / 0x1_0000_0000) + be32_bytes(v)
}

/// A 32-bit number has four bytes.
pub broadcast proof fn lemma_be32_len(v: int)
    ensures
        #[trigger] be32_bytes(v).len() == 4,
{
    reveal(be32_bytes);
}

/// A 64-bit number has eight bytes.
pub broadcast proof fn lemma_be64_len(v: int)
    ensures
        #[trigger] be64_bytes(v).len() == 8,
{
    reveal(be64_bytes);
    lemma_be32_len(v / 0x1_0000_0000);
    lemma_be32_len(v);
}

pub broadcast group group_lengths {
    lemma_be32_len,
    lemma_be64_len,
}

/// `n` zero bytes.
pub open spec fn zeros(n: nat) -> Seq<u8> {
    Seq::new(n, |i: int| 0u8)
}

/// Whether the bytes of `pat` stand at byte `i` of `d`.
pub open spec fn stands_at(d: Seq<u8>, i: int, pat: Seq<u8>) -> bool {
    0 <= i && i + pat.len() <= d.len() && d.subrange(i, i + pat.len()) == pat
}

/// The first position at or after `from` where `pat` stands in `d`.
pub open spec fn first_at(d: Seq<u8>, pat: Seq<u8>, from: int) -> Option<int>
    decreases d.len() - from,
{
    if from < 0 || from + pat.len() > d.len() {
        None
    } else if stands_at(d, from, pat) {
        Some(from)
    } else if from < d.len() {
        first_at(d, pat, from + 1)
    } else {
        None
    }
}

/// `d` with the bytes of `v` written over those from `at` on.
pub open spec fn overwritten(d: Seq<u8>, at: int, v: Seq<u8>) -> Seq<u8> {
    d.subrange(0, at) + v + d.subrange(at + v.len(), d.len() as int)
}

/// Writing a 16-bit number and reading it back gives the number.
pub proof fn lemma_be16_roundtrip(before: Seq<u8>, v: int, after: Seq<u8>)
    requires
        0 <= v < 0x1_0000,
    ensures
        be16_at(before + be16_bytes(v) + after, before.len() as int) == v,
{
    let d = before + be16_bytes(v) + after;
    assert(d[before.len() as int] == be16_bytes(v)[0]);
    assert(d[before.len() as int + 1] == be16_bytes(v)[1]);
}

/// Writing a 32-bit number and reading it back gives the number.
pub proof fn lemma_be32_roundtrip(before: Seq<u8>, v: int, after: Seq<u8>)
    requires
        0 <= v < 0x1_0000_0000,
    ensures
        be32_at(before + be32_bytes(v) + after, before.len() as int) == v,
{
    reveal(be32_bytes);
    let d = before + be32_bytes(v) + after;
    let n = before.len() as int;
    assert(d[n] == be16_bytes(v / 0x1_0000)[0]);
    assert(d[n + 1] == be16_bytes(v / 0x1_0000)[1]);
    assert(d[n + 2] == be16_bytes(v)[0]);
    assert(d[n + 3] == be16_bytes(v)[1]);
}

/// Only the low 16 bits of a number show in its two bytes.
pub proof fn lemma_be16_low(v: int)
    requires
        0 <= v,
    ensures
        be16_bytes(v % 0x1_0000) == be16_bytes(v),
{
    let w = v % 0x1_0000;
    assert(w % 0x100 == v % 0x100);
    assert((w / 0x100) % 0x100 == (v / 0x100) % 0x100);
}

/// Only the low 32 bits of a number show in its four bytes.
pub proof fn lemma_be32_low(v: int)
    requires
        0 <= v,
    ensures
        be32_bytes(v % 0x1_0000_0000) == be32_bytes(v),
{
    reveal(be32_bytes);
    let w = v % 0x1_0000_0000;
    assert(w % 0x1_0000 == v % 0x1_0000);
    assert(w / 0x1_0000 == (v / 0x1_0000) % 0x1_0000);
    lemma_be16_low(w);
    lemma_be16_low(v);
    lemma_be16_low(v / 0x1_0000);
}

/// Only the low 64 bits of a number show in its eight bytes.
pub proof fn lemma_be64_low(v: int)
    requires
        0 <= v,
    ensures
        be64_bytes(v % 0x1_0000_0000_0000_0000) == be64_bytes(v),
{
    reveal(be64_bytes);
    let w = v % 0x1_0000_0000_0000_0000;
    assert(w % 0x1_0000_0000 == v % 0x1_0000_0000);
    assert(w / 0x1_0000_0000 == (v / 0x1_0000_0000) % 0x1_0000_0000);
    lemma_be32_low(w);
    lemma_be32_low(v);
    lemma_be32_low(v / 0x1_0000_0000);
}

/// Writing a 64-bit number and reading it back gives the number.
pub proof fn lemma_be64_roundtrip(before: Seq<u8>, v: int, after: Seq<u8>)
    requires
        0 <= v < 0x1_0000_0000_0000_0000,
    ensures
        be64_at(before + be64_bytes(v) + after, before.len() as int) == v,
{
    reveal(be64_bytes);
    broadcast use group_lengths;

    let hi = v / 0x1_0000_0000;
    let lo = v % 0x1_0000_0000;
    let d = before + be64_bytes(v) + after;
    lemma_be32_low(v);
    assert(d =~= before + be32_bytes(hi) + (be32_bytes(v) + after));
    assert(d =~= (before + be32_bytes(hi)) + be32_bytes(lo) + after);
    lemma_be32_roundtrip(before, hi, be32_bytes(v) + after);
    lemma_be32_roundtrip(before + be32_bytes(hi), lo, after);
}

/// What the search finds is an occurrence, and no earlier one exists.
pub proof fn lemma_first_at(d: Seq<u8>, pat: Seq<u8>, from: int)
    requires
        0 <= from,
    ensures
        match first_at(d, pat, from) {
            Some(i) => from <= i && stands_at(d, i, pat)
                && forall|j: int| from <= j < i ==> !#[trigger] stands_at(d, j, pat),
            None => forall|j: int| from <= j ==> !#[trigger] stands_at(d, j, pat),
        },
    decreases d.len() - from,
{
    if from + pat.len() <= d.len() && !stands_at(d, from, pat) && from < d.len() {
        lemma_first_at(d, pat, from + 1);
    }
}

/// The big-endian `u16` at byte `i`.
pub fn be16(d: &[u8], i: usize) -> (v: u16)
    requires
        i + 2 <= d@.len(),
    ensures
        v == be16_at(d@, i as int),
{
    d[i] as u16 * 0x100 + d[i + 1] as u16
}

/// The big-endian `u32` at byte `i`.
pub fn be32(d: &[u8], i: usize) -> (v: u32)
    requires
        i + 4 <= d@.len(),
    ensures
        v == be32_at(d@, i as int),
{
    assert(i + 4 <= d.len());
    be16(d, i) as u32 * 0x1_0000 + be16(d, i + 2) as u32
}

/// The big-endian `u64` at byte `i`.
pub fn be64(d: &[u8], i: usize) -> (v: u64)
    requires
        i + 8 <= d@.len(),
    ensures
        v == be64_at(d@, i as int),
{
    assert(i + 8 <= d.len());
    be32(d, i) as u64 * 0x1_0000_0000 + be32(d, i + 4) as u64
}

/// Appends `s`.
pub fn push_all(out: &mut Vec<u8>, s: &[u8])
    ensures
        final(out)@ == old(out)@ + s@,
{
    out.extend_from_slice(s);
    assert(out@ =~= old(out)@ + s@);
}

/// Appends `n` zero bytes.
pub fn push_zeros(out: &mut Vec<u8>, n: usize)
    ensures
        final(out)@ == old(out)@ + zeros(n as nat),
{
    let mut i: usize = 0;
    while i < n
        invariant
            i <= n,
            out@ == old(out)@ + zeros(i as nat),
        decreases n - i,
    {
        out.push(0);
        i += 1;
        assert(out@ =~= old(out)@ + zeros(i as nat));
    }
}

/// Appends the two big-endian bytes of `v`.
pub fn push_be16(out: &mut Vec<u8>, v: u16)
    ensures
        final(out)@ == old(out)@ + be16_bytes(v as int),
{
    out.push((v / 0x100) as u8);
    out.push((v % 0x100) as u8);
    assert(out@ =~= old(out)@ + be16_bytes(v as int));
}

/// Appends the four big-endian bytes of `v`.
pub fn push_be32(out: &mut Vec<u8>, v: u32)
    ensures
        final(out)@ == old(out)@ + be32_bytes(v as int),
{
    proof {
        reveal(be32_bytes);
    }
    push_be16(out, (v / 0x1_0000) as u16);
    push_be16(out, (v % 0x1_0000) as u16);
    proof {
        lemma_be16_low(v as int);
    }
    assert(out@ =~= old(out)@ + be32_bytes(v as int));
}

/// Appends the eight big-endian bytes of `v`.
pub fn push_be64(out: &mut Vec<u8>, v: u64)
    ensures
        final(out)@ == old(out)@ + be64_bytes(v as int),
{
    proof {
        reveal(be64_bytes);
    }
    push_be32(out, (v / 0x1_0000_0000) as u32);
    push_be32(out, (v % 0x1_0000_0000) as u32);
    proof {
        lemma_be32_low(v as int);
    }
    assert(out@ =~= old(out)@ + be64_bytes(v as int));
}

/// Whether `a` and `b` hold the same bytes.
pub fn same_bytes(a: &[u8], b: &[u8]) -> (r: bool)
    ensures
        r == (a@ == b@),
{
    if a.len() != b.len() {
        return false;
    }
    let mut i: usize = 0;
    while i < a.len()
        invariant
            i <= a@.len(),
            a@.len() == b@.len(),
            forall|j: int| 0 <= j < i ==> a@[j] == b@[j],
        decreases a.len() - i,
    {
        if a[i] != b[i] {
            return false;
        }
        i += 1;
    }
    assert(a@ =~= b@);
    true
}

/// Whether `pat` stands at byte `i` of `d`.
pub fn matches_at(d: &[u8], i: usize, pat: &[u8]) -> (r: bool)
    ensures
        r == stands_at(d@, i as int, pat@),
{
    if i > d.len() || d.len() - i < pat.len() {
        return false;
    }
    same_bytes(&d[i..i + pat.len()], pat)
}

/// The first position at or after `from` where `pat` stands in `d`.
pub fn find_at(d: &[u8], pat: &[u8], from: usize) -> (r: Option<usize>)
    ensures
        match r {
            Some(i) => first_at(d@, pat@, from as int) == Some(i as int) && from <= i && i + pat@.len()
                <= d.len(),
            None => first_at(d@, pat@, from as int) is None,
        },
{
    let mut i: usize = from;
    while i <= d.len() && pat.len() <= d.len() - i
        invariant
            from <= i,
            first_at(d@, pat@, from as int) == first_at(d@, pat@, i as int),
        decreases d.len() - i,
    {
        if matches_at(d, i, pat) {
            return Some(i);
        }
        if i == d.len() {
            return None;
        }
        i += 1;
    }
    None
}

/// Writes the four big-endian bytes of `v` over those from `at` on.
pub fn put_be32(d: &mut Vec<u8>, at: usize, v: u32)
    requires
        at + 4 <= old(d)@.len(),
    ensures
        final(d)@ == overwritten(old(d)@, at as int, be32_bytes(v as int)),
{
    proof {
        broadcast use group_lengths;
    }
    assert(at + 4 <= d.len());
    let mut b: Vec<u8> = Vec::new();
    push_be32(&mut b, v);
    d[at] = b[0];
    d[at + 1] = b[1];
    d[at + 2] = b[2];
    d[at + 3] = b[3];
    assert(d@ =~= overwritten(old(d)@, at as int, be32_bytes(v as int)));
}

} // verus!
