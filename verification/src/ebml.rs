//! EBML primitives: variable-length integers, element headers, and builders for
//! synthesizing a Matroska head. Hand-rolled on purpose; no ffmpeg.
use crate::bytes::push_all;
use vstd::prelude::*;
use vstd::string::*;

verus! {

// ---------------------------------------------------------------------------
// Big-endian numbers of any length
// ---------------------------------------------------------------------------

/// The number that the bytes write in base 256.
pub open spec fn be_value(s: Seq<u8>) -> nat
    decreases s.len(),
{
    if s.len() == 0 {
        0
    } else {
        256 * be_value(s.drop_last()) + s.last() as nat
    }
}

/// The low `n` bytes of `v`, most significant first.
pub open spec fn be_bytes(v: nat, n: nat) -> Seq<u8>
    decreases n,
{
    if n == 0 {
        seq![]
    } else {
        be_bytes(v / 256, (n - 1) as nat).push((v % 256) as u8)
    }
}

/// 256 to the power `n`.
pub open spec fn pow256(n: nat) -> nat
    decreases n,
{
    if n == 0 {
        1
    } else {
        256 * pow256((n - 1) as nat)
    }
}

proof fn lemma_pow256()
    ensures
        pow256(0) == 1,
        pow256(1) == 0x100,
        pow256(2) == 0x1_0000,
        pow256(3) == 0x100_0000,
        pow256(4) == 0x1_0000_0000,
        pow256(5) == 0x100_0000_0000,
        pow256(6) == 0x1_0000_0000_0000,
        pow256(7) == 0x100_0000_0000_0000,
        pow256(8) == 0x1_0000_0000_0000_0000,
{
    reveal_with_fuel(pow256, 9);
}

/// `n` bytes write a number below 256^n, and the first of them weighs the most.
proof fn lemma_be_value_bounds(s: Seq<u8>)
    requires
        s.len() > 0,
    ensures
        s[0] * pow256((s.len() - 1) as nat) <= be_value(s) < (s[0] + 1) * pow256((s.len() - 1) as nat),
    decreases s.len(),
{
    if s.len() == 1 {
        let q = pow256(0) as int;
        let a = s[0] as int;
        assert(s.drop_last() =~= Seq::<u8>::empty());
        assert(be_value(s.drop_last()) == 0);
        assert(a * q == a && (a + 1) * q == a + 1) by (nonlinear_arith)
            requires
                q == 1,
        ;
    } else {
        let head = s.drop_last();
        lemma_be_value_bounds(head);
        let p = pow256((head.len() - 1) as nat) as int;
        let a = s[0] as int;
        assert(pow256((s.len() - 1) as nat) == 256 * p);
        assert(a * (256 * p) == 256 * (a * p)) by (nonlinear_arith);
        assert((a + 1) * (256 * p) == 256 * ((a + 1) * p)) by (nonlinear_arith);
    }
}

/// Writing a number and reading it gives the number.
proof fn lemma_be_bytes(v: nat, n: nat)
    requires
        v < pow256(n),
    ensures
        be_bytes(v, n).len() == n,
        be_value(be_bytes(v, n)) == v,
    decreases n,
{
    if n > 0 {
        lemma_be_bytes(v / 256, (n - 1) as nat);
        assert(be_bytes(v, n).drop_last() =~= be_bytes(v / 256, (n - 1) as nat));
    }
}

/// Appends the low `n` bytes of `v`.
fn push_be(out: &mut Vec<u8>, v: u64, n: usize)
    ensures
        final(out)@ == old(out)@ + be_bytes(v as nat, n as nat),
    decreases n,
{
    if n > 0 {
        push_be(out, v / 256, n - 1);
        out.push((v % 256) as u8);
    }
    assert(out@ =~= old(out)@ + be_bytes(v as nat, n as nat));
}

/// The number that `n` bytes from `pos` on write.
fn read_be(d: &[u8], pos: usize, n: usize) -> (v: u64)
    requires
        pos + n <= d@.len(),
        n <= 8,
    ensures
        v == be_value(d@.subrange(pos as int, pos + n)),
{
    let mut v: u64 = 0;
    let mut k: usize = 0;
    assert(d@.subrange(pos as int, pos as int) =~= Seq::<u8>::empty());
    proof {
        lemma_pow256();
    }
    assert(pos + n <= d.len());
    while k < n
        invariant
            k <= n <= 8,
            pos + n <= d.len(),
            v == be_value(d@.subrange(pos as int, pos + k)),
            v < pow256(k as nat),
        decreases n - k,
    {
        let ghost s = d@.subrange(pos as int, pos + k + 1);
        proof {
            lemma_pow256();
            assert(s.drop_last() =~= d@.subrange(pos as int, pos + k));
            assert(k == 0 || k == 1 || k == 2 || k == 3 || k == 4 || k == 5 || k == 6 || k == 7);
        }
        v = v * 256 + d[pos + k] as u64;
        k += 1;
    }
    v
}

// ---------------------------------------------------------------------------
// Variable-length integers
// ---------------------------------------------------------------------------

/// The length that a lead byte announces: the position of its first one bit. 0 for
/// the byte 0, which is no lead byte.
pub open spec fn vint_length(first: u8) -> int {
    if first >= 0x80 {
        1
    } else if first >= 0x40 {
        2
    } else if first >= 0x20 {
        3
    } else if first >= 0x10 {
        4
    } else if first >= 0x08 {
        5
    } else if first >= 0x04 {
        6
    } else if first >= 0x02 {
        7
    } else if first >= 0x01 {
        8
    } else {
        0
    }
}

/// How many values an integer of `len` bytes can hold, 2^(7 len): also the weight of
/// its marker bit.
pub open spec fn vint_range(len: int) -> int {
    if len == 1 {
        0x80
    } else if len == 2 {
        0x4000
    } else if len == 3 {
        0x20_0000
    } else if len == 4 {
        0x1000_0000
    } else if len == 5 {
        0x8_0000_0000
    } else if len == 6 {
        0x400_0000_0000
    } else if len == 7 {
        0x2_0000_0000_0000
    } else {
        0x100_0000_0000_0000
    }
}

/// The variable-length integer at `pos`, without its marker bit, and its length.
pub open spec fn vint_at(d: Seq<u8>, pos: int) -> Option<(int, int)> {
    let len = vint_length(d[pos]);
    if pos < 0 || pos >= d.len() || len == 0 || pos + len > d.len() {
        None
    } else {
        Some((be_value(d.subrange(pos, pos + len)) - vint_range(len), len))
    }
}

/// The element ID at `pos`, marker bit and all, and its length: four bytes at most.
pub open spec fn id_at(d: Seq<u8>, pos: int) -> Option<(int, int)> {
    let len = vint_length(d[pos]);
    if pos < 0 || pos >= d.len() || len == 0 || len > 4 || pos + len > d.len() {
        None
    } else {
        Some((be_value(d.subrange(pos, pos + len)) as int, len))
    }
}

/// The fewest bytes that hold `v`. The largest value of each length is reserved as
/// the "unknown size" sentinel, so real values must be below it.
pub open spec fn vint_size(v: int) -> int {
    if v < vint_range(1) - 1 {
        1
    } else if v < vint_range(2) - 1 {
        2
    } else if v < vint_range(3) - 1 {
        3
    } else if v < vint_range(4) - 1 {
        4
    } else if v < vint_range(5) - 1 {
        5
    } else if v < vint_range(6) - 1 {
        6
    } else if v < vint_range(7) - 1 {
        7
    } else {
        8
    }
}

/// The largest value that can be written, plus one.
pub const VINT_LIMIT: u64 = 0xff_ffff_ffff_ffff;

/// `v` as a variable-length integer of minimal length.
pub open spec fn vint_bytes(v: int) -> Seq<u8> {
    be_bytes((v + vint_range(vint_size(v))) as nat, vint_size(v) as nat)
}

/// The first byte of a number written in `n` bytes says its highest digit.
pub proof fn lemma_lead_byte(x: int, len: int)
    requires
        1 <= len <= 8,
        vint_range(len) <= x < 2 * vint_range(len),
    ensures
        be_bytes(x as nat, len as nat).len() == len,
        be_value(be_bytes(x as nat, len as nat)) == x,
        vint_length(be_bytes(x as nat, len as nat)[0]) == len,
{
    lemma_pow256();
    lemma_be_bytes(x as nat, len as nat);
    let s = be_bytes(x as nat, len as nat);
    lemma_be_value_bounds(s);
    let a = s[0] as int;
    lemma_lead_digit(a, x, len);
}

/// The highest digit of a number with a marker bit is the marker and what is above.
proof fn lemma_lead_digit(a: int, x: int, len: int)
    requires
        1 <= len <= 8,
        0 <= a < 256,
        a * pow256((len - 1) as nat) <= x < (a + 1) * pow256((len - 1) as nat),
    ensures
        vint_range(len) <= x < 2 * vint_range(len) <==> vint_length(a as u8) == len,
{
    lemma_pow256();
    if len == 1 {
        let q = pow256(0) as int;
        assert(a * q == a && (a + 1) * q == a + 1) by (nonlinear_arith)
            requires
                q == 1,
        ;
    } else if len == 2 {
        assert(a * 0x100 <= x < (a + 1) * 0x100);
    } else if len == 3 {
        assert(a * 0x1_0000 <= x < (a + 1) * 0x1_0000);
    } else if len == 4 {
        assert(a * 0x100_0000 <= x < (a + 1) * 0x100_0000);
    } else if len == 5 {
        assert(a * 0x1_0000_0000 <= x < (a + 1) * 0x1_0000_0000);
    } else if len == 6 {
        assert(a * 0x100_0000_0000 <= x < (a + 1) * 0x100_0000_0000);
    } else if len == 7 {
        assert(a * 0x1_0000_0000_0000 <= x < (a + 1) * 0x1_0000_0000_0000);
    } else {
        assert(a * 0x100_0000_0000_0000 <= x < (a + 1) * 0x100_0000_0000_0000);
    }
}

/// A variable-length integer that is written is read, and its length with it.
pub proof fn law_vint_roundtrip(before: Seq<u8>, v: int, after: Seq<u8>)
    requires
        0 <= v < VINT_LIMIT,
    ensures
        vint_at(before + vint_bytes(v) + after, before.len() as int) == Some(
            (v, vint_bytes(v).len() as int),
        ),
{
    let len = vint_size(v);
    let d = before + vint_bytes(v) + after;
    let p = before.len() as int;
    lemma_lead_byte(v + vint_range(len), len);
    assert(d[p] == vint_bytes(v)[0]);
    assert(d.subrange(p, p + len) =~= vint_bytes(v));
}

/// Integers are written as short as they can be: `v` would not fit, or would be taken
/// for the sentinel, in one byte less.
pub proof fn law_vint_is_minimal(v: int)
    requires
        0 <= v < VINT_LIMIT,
    ensures
        1 <= vint_bytes(v).len() <= 8,
        v < vint_range(vint_bytes(v).len() as int) - 1,
        vint_bytes(v).len() > 1 ==> v >= vint_range(vint_bytes(v).len() - 1) - 1,
{
    lemma_lead_byte(v + vint_range(vint_size(v)), vint_size(v));
}

fn length_of(first: u8) -> (len: usize)
    ensures
        len == vint_length(first),
{
    if first >= 0x80 {
        1
    } else if first >= 0x40 {
        2
    } else if first >= 0x20 {
        3
    } else if first >= 0x10 {
        4
    } else if first >= 0x08 {
        5
    } else if first >= 0x04 {
        6
    } else if first >= 0x02 {
        7
    } else if first >= 0x01 {
        8
    } else {
        0
    }
}

fn range_of(len: usize) -> (r: u64)
    ensures
        r == vint_range(len as int),
{
    match len {
        1 => 0x80,
        2 => 0x4000,
        3 => 0x20_0000,
        4 => 0x1000_0000,
        5 => 0x8_0000_0000,
        6 => 0x400_0000_0000,
        7 => 0x2_0000_0000_0000,
        _ => 0x100_0000_0000_0000,
    }
}

/// What a lead byte announces is in the number.
proof fn lemma_vint_value(d: Seq<u8>, pos: int)
    requires
        vint_at(d, pos) is Some,
    ensures
        ({
            let len = vint_length(d[pos]);
            vint_range(len) <= be_value(d.subrange(pos, pos + len)) < 2 * vint_range(len)
        }),
{
    let len = vint_length(d[pos]);
    let s = d.subrange(pos, pos + len);
    lemma_pow256();
    lemma_be_value_bounds(s);
    assert(s[0] == d[pos]);
    lemma_lead_digit(d[pos] as int, be_value(s) as int, len);
}

/// Reads an EBML variable-length integer (data size) at `pos`.
/// Returns `(value_without_marker, length_in_bytes)`, or `None` if malformed.
/// An all-ones value (the "unknown size" sentinel) is returned as its raw value;
/// callers that care use [`read_element`], which maps it to `size: None`.
pub fn read_vint(buf: &[u8], pos: usize) -> (r: Option<(u64, usize)>)
    ensures
        match r {
            Some((v, len)) => vint_at(buf@, pos as int) == Some((v as int, len as int)) && 1 <= len <= 8
                && pos + len <= buf@.len() && v < vint_range(len as int),
            None => vint_at(buf@, pos as int) is None,
        },
{
    if pos >= buf.len() {
        return None;
    }
    let len: usize = length_of(buf[pos]);
    if len == 0 || len > buf.len() - pos {
        return None;
    }
    proof {
        lemma_vint_value(buf@, pos as int);
    }
    Some((read_be(buf, pos, len) - range_of(len), len))
}

/// Reads an element ID at `pos`, preserving the length-marker bits so IDs compare
/// against their canonical constants (e.g. `Segment` == `0x18538067`).
pub fn read_id(buf: &[u8], pos: usize) -> (r: Option<(u32, usize)>)
    ensures
        match r {
            Some((id, len)) => id_at(buf@, pos as int) == Some((id as int, len as int)) && 1 <= len <= 4
                && pos + len <= buf@.len(),
            None => id_at(buf@, pos as int) is None,
        },
{
    if pos >= buf.len() {
        return None;
    }
    let len: usize = length_of(buf[pos]);
    if len == 0 || len > 4 || len > buf.len() - pos {
        return None;
    }
    proof {
        lemma_vint_value(buf@, pos as int);
    }
    Some((read_be(buf, pos, len) as u32, len))
}

// ---------------------------------------------------------------------------
// Elements
// ---------------------------------------------------------------------------

/// A parsed element header. `size: None` means an unknown-size element
/// (legal for `Segment` and `Cluster`).
#[derive(Debug, Clone, Copy, PartialEq, Eq)]
pub struct Element {
    pub id: u32,
    pub size: Option<u64>,
    /// Bytes consumed by the ID + size fields.
    pub header_len: usize,
    /// Absolute offset of the element's payload.
    pub data_pos: usize,
}

/// An element header in the data.
pub struct ElementSpan {
    pub id: int,
    pub size: Option<int>,
    pub header_len: int,
    pub data_pos: int,
}

impl View for Element {
    type V = ElementSpan;

    open spec fn view(&self) -> ElementSpan {
        ElementSpan {
            id: self.id as int,
            size: match self.size {
                Some(s) => Some(s as int),
                None => None,
            },
            header_len: self.header_len as int,
            data_pos: self.data_pos as int,
        }
    }
}

/// The element header at `pos`: an ID and a size, of which the largest of its length
/// stands for "unknown".
pub open spec fn element_at(d: Seq<u8>, pos: int) -> Option<ElementSpan> {
    match id_at(d, pos) {
        None => None,
        Some((id, idlen)) => match vint_at(d, pos + idlen) {
            None => None,
            Some((raw, len)) => Some(
                ElementSpan {
                    id,
                    size: if raw == vint_range(len) - 1 {
                        None
                    } else {
                        Some(raw)
                    },
                    header_len: idlen + len,
                    data_pos: pos + idlen + len,
                },
            ),
        },
    }
}

/// Reads one element header at `pos`. Does not descend into children.
pub fn read_element(buf: &[u8], pos: usize) -> (r: Option<Element>)
    ensures
        match r {
            Some(e) => element_at(buf@, pos as int) == Some(e@) && pos + 2 <= e.data_pos <= buf@.len()
                && (e.size matches Some(s) ==> s < VINT_LIMIT),
            None => element_at(buf@, pos as int) is None,
        },
{
    let (id, idlen) = read_id(buf, pos)?;
    assert(pos + idlen <= buf.len());
    let (raw, len) = read_vint(buf, pos + idlen)?;
    let size = if raw == range_of(len) - 1 {
        None
    } else {
        Some(raw)
    };
    Some(Element { id, size, header_len: idlen + len, data_pos: pos + idlen + len })
}

// --- Element IDs (with their length-marker bits, as stored on the wire) ---
pub const ID_EBML: u32 = 0x1a45dfa3;

pub const ID_EBML_VERSION: u32 = 0x4286;

pub const ID_EBML_READ_VERSION: u32 = 0x42f7;

pub const ID_EBML_MAX_ID_LEN: u32 = 0x42f2;

pub const ID_EBML_MAX_SIZE_LEN: u32 = 0x42f3;

pub const ID_DOCTYPE: u32 = 0x4282;

pub const ID_DOCTYPE_VERSION: u32 = 0x4287;

pub const ID_DOCTYPE_READ_VERSION: u32 = 0x4285;

pub const ID_SEGMENT: u32 = 0x18538067;

pub const ID_SEEKHEAD: u32 = 0x114d9b74;

pub const ID_INFO: u32 = 0x1549a966;

pub const ID_TIMECODE_SCALE: u32 = 0x2ad7b1;

pub const ID_MUXING_APP: u32 = 0x4d80;

pub const ID_WRITING_APP: u32 = 0x5741;

pub const ID_TRACKS: u32 = 0x1654ae6b;

pub const ID_TRACK_ENTRY: u32 = 0xae;

pub const ID_TRACK_NUMBER: u32 = 0xd7;

pub const ID_TRACK_UID: u32 = 0x73c5;

pub const ID_TRACK_TYPE: u32 = 0x83;

pub const ID_CODEC_ID: u32 = 0x86;

pub const ID_CODEC_PRIVATE: u32 = 0x63a2;

pub const ID_VIDEO: u32 = 0xe0;

pub const ID_PIXEL_WIDTH: u32 = 0xb0;

pub const ID_PIXEL_HEIGHT: u32 = 0xba;

pub const ID_AUDIO: u32 = 0xe1;

pub const ID_SAMPLING_FREQ: u32 = 0xb5;

pub const ID_CHANNELS: u32 = 0x9f;

pub const ID_CLUSTER: u32 = 0x1f43b675;

pub const ID_TIMECODE: u32 = 0xe7;

pub const ID_SIMPLE_BLOCK: u32 = 0xa3;

pub const ID_BLOCK_GROUP: u32 = 0xa0;

pub const ID_BLOCK: u32 = 0xa1;

/// How many bytes an element ID takes (its marker is intrinsic).
pub open spec fn id_length(id: int) -> nat {
    if id <= 0xff {
        1
    } else if id <= 0xffff {
        2
    } else if id <= 0xff_ffff {
        3
    } else {
        4
    }
}

/// Whether an ID carries the marker bit that its length asks for.
pub open spec fn canonical_id(id: int) -> bool {
    0x80 <= id <= 0xff || 0x4000 <= id <= 0x7fff || 0x20_0000 <= id <= 0x3f_ffff || 0x1000_0000 <= id
        <= 0x1fff_ffff
}

/// `[id][size][payload]`: an element with the given raw payload.
pub open spec fn el_bytes(id: u32, payload: Seq<u8>) -> Seq<u8> {
    be_bytes(id as nat, id_length(id as int)) + vint_bytes(payload.len() as int) + payload
}

/// How many bytes an unsigned number takes, one at least.
pub open spec fn byte_length(v: nat) -> nat
    decreases v,
{
    if v < 256 {
        1
    } else {
        1 + byte_length(v / 256)
    }
}

/// An unsigned-integer element, big-endian, minimal length (>= 1 byte).
pub open spec fn uint_bytes(id: u32, v: nat) -> Seq<u8> {
    el_bytes(id, be_bytes(v, byte_length(v)))
}

/// An element that is written is read: its ID, the length of its payload, and the
/// payload where the header says it is.
pub proof fn law_element_roundtrip(before: Seq<u8>, id: u32, payload: Seq<u8>, after: Seq<u8>)
    requires
        canonical_id(id as int),
        payload.len() < VINT_LIMIT,
    ensures
        ({
            let d = before + el_bytes(id, payload) + after;
            let head = el_bytes(id, payload).len() - payload.len();
            &&& element_at(d, before.len() as int) == Some(
                ElementSpan {
                    id: id as int,
                    size: Some(payload.len() as int),
                    header_len: head,
                    data_pos: before.len() + head,
                },
            )
            &&& d.subrange(before.len() + head, before.len() + head + payload.len()) == payload
        }),
{
    let ib = be_bytes(id as nat, id_length(id as int));
    let sb = vint_bytes(payload.len() as int);
    let d = before + el_bytes(id, payload) + after;
    let p = before.len() as int;
    let idlen = id_length(id as int) as int;
    lemma_lead_byte(id as int, idlen);
    assert(d[p] == ib[0]);
    assert(d.subrange(p, p + idlen) =~= ib);
    assert(d =~= (before + ib) + sb + (payload + after));
    law_vint_roundtrip(before + ib, payload.len() as int, payload + after);
    law_vint_is_minimal(payload.len() as int);
    let head = idlen + sb.len();
    assert(d.subrange(p + head, p + head + payload.len()) =~= payload);
}

/// An unsigned number is written as short as it can be, and its bytes say it.
pub proof fn law_uint_payload(v: nat)
    ensures
        be_value(be_bytes(v, byte_length(v))) == v,
        be_bytes(v, byte_length(v)).len() == byte_length(v),
        byte_length(v) > 1 ==> be_bytes(v, byte_length(v))[0] != 0,
    decreases v,
{
    lemma_byte_length(v);
    lemma_be_bytes(v, byte_length(v));
    if byte_length(v) > 1 {
        let s = be_bytes(v, byte_length(v));
        lemma_be_value_bounds(s);
        if s[0] == 0 {
            let q = pow256((s.len() - 1) as nat) as int;
            let a = s[0] as int;
            assert((a + 1) * q == q) by (nonlinear_arith)
                requires
                    a == 0,
            ;
        }
    }
}

proof fn lemma_byte_length(v: nat)
    ensures
        byte_length(v) >= 1,
        v < pow256(byte_length(v)),
        byte_length(v) > 1 ==> v >= pow256((byte_length(v) - 1) as nat),
    decreases v,
{
    lemma_pow256();
    if v >= 256 {
        lemma_byte_length(v / 256);
    }
}

/// Encodes `value` as a minimal-length EBML data-size vint.
pub fn write_vint(value: u64) -> (r: Vec<u8>)
    requires
        value < VINT_LIMIT,
    ensures
        r@ == vint_bytes(value as int),
{
    let len: usize = if value < range_of(1) - 1 {
        1
    } else if value < range_of(2) - 1 {
        2
    } else if value < range_of(3) - 1 {
        3
    } else if value < range_of(4) - 1 {
        4
    } else if value < range_of(5) - 1 {
        5
    } else if value < range_of(6) - 1 {
        6
    } else if value < range_of(7) - 1 {
        7
    } else {
        8
    };
    let mut out: Vec<u8> = Vec::new();
    push_be(&mut out, value + range_of(len), len);
    assert(out@ =~= vint_bytes(value as int));
    out
}

/// `[id][size][payload]` for an element with the given raw payload.
pub fn el(id: u32, payload: &[u8]) -> (r: Vec<u8>)
    requires
        payload@.len() < VINT_LIMIT,
    ensures
        r@ == el_bytes(id, payload@),
{
    let len: usize = if id <= 0xff {
        1
    } else if id <= 0xffff {
        2
    } else if id <= 0xff_ffff {
        3
    } else {
        4
    };
    let mut out: Vec<u8> = Vec::new();
    push_be(&mut out, id as u64, len);
    push_all(&mut out, &write_vint(payload.len() as u64));
    push_all(&mut out, payload);
    assert(out@ =~= el_bytes(id, payload@));
    out
}

/// An unsigned-integer element, big-endian, minimal length (>= 1 byte).
pub fn uint(id: u32, value: u64) -> (r: Vec<u8>)
    ensures
        r@ == uint_bytes(id, value as nat),
        r@.len() <= 20,
{
    let mut n: usize = 1;
    let mut rest: u64 = value;
    proof {
        lemma_pow256();
        lemma_byte_length(value as nat);
        lemma_byte_length_at_most(value as nat, 8);
    }
    while rest >= 256
        invariant
            n + byte_length(rest as nat) == 1 + byte_length(value as nat),
            byte_length(value as nat) <= 8,
        decreases rest,
    {
        rest = rest / 256;
        n += 1;
    }
    let mut payload: Vec<u8> = Vec::new();
    push_be(&mut payload, value, n);
    proof {
        assert(payload@ =~= be_bytes(value as nat, byte_length(value as nat)));
        lemma_uint_length(id, value as nat);
        lemma_be_bytes(value as nat, byte_length(value as nat));
    }
    el(id, &payload)
}

/// An element that holds a 64-bit number takes twenty bytes at most.
pub proof fn lemma_uint_length(id: u32, v: nat)
    requires
        v <= u64::MAX,
    ensures
        uint_bytes(id, v).len() <= 20,
{
    lemma_pow256();
    lemma_byte_length(v);
    lemma_byte_length_at_most(v, 8);
    lemma_be_bytes(v, byte_length(v));
    lemma_el_length(id, be_bytes(v, byte_length(v)));
}

proof fn lemma_byte_length_at_most(v: nat, n: nat)
    requires
        v < pow256(n),
        n >= 1,
    ensures
        byte_length(v) <= n,
    decreases n,
{
    lemma_pow256();
    if v >= 256 {
        if n == 1 {
        } else {
            lemma_byte_length_at_most(v / 256, (n - 1) as nat);
        }
    }
}

/// A header takes twelve bytes at most.
pub proof fn lemma_el_length(id: u32, payload: Seq<u8>)
    requires
        payload.len() < VINT_LIMIT,
    ensures
        el_bytes(id, payload).len() <= payload.len() + 12,
{
    lemma_pow256();
    lemma_be_bytes(id as nat, id_length(id as int));
    law_vint_is_minimal(payload.len() as int);
}

/// A UTF-8 string element.
pub fn ebml_string(id: u32, s: &str) -> (r: Vec<u8>)
    requires
        s.spec_bytes().len() < VINT_LIMIT,
    ensures
        r@ == el_bytes(id, s.spec_bytes()),
{
    el(id, s.as_bytes())
}

/// A binary element (e.g. `CodecPrivate`).
pub fn binary(id: u32, data: &[u8]) -> (r: Vec<u8>)
    requires
        data@.len() < VINT_LIMIT,
    ensures
        r@ == el_bytes(id, data@),
{
    el(id, data)
}

/// A 32-bit IEEE-754 float element; the number is given by its bits.
pub fn float32(id: u32, bits: u32) -> (r: Vec<u8>)
    ensures
        r@ == el_bytes(id, be_bytes(bits as nat, 4)),
        r@.len() <= 16,
{
    let mut payload: Vec<u8> = Vec::new();
    push_be(&mut payload, bits as u64, 4);
    proof {
        lemma_pow256();
        assert(payload@ =~= be_bytes(bits as nat, 4));
        lemma_be_bytes(bits as nat, 4);
        lemma_el_length(id, payload@);
    }
    el(id, &payload)
}

} // verus!
