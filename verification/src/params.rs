//! What a sequence parameter set says when it is read: every field that may stand in front of
//! those that matter is written here as H.264 writes it, and passed over.
use crate::bits::{
    law_field_roundtrip, law_se_roundtrip, law_ue_roundtrip, lemma_low_bits, low_bits, read_bit,
    read_bits, se_code, ue_code,
};
use crate::h264::{
    scaling_list_end, scaling_lists_end, sps_chroma, sps_head, sps_layout, sps_tail, sps_widths,
    ue_run_end, SpsInfo, SpsLayout, SpsWidths,
};
use vstd::arithmetic::power2::lemma2_to64;
use vstd::prelude::*;

verus! {

/// What an Exp-Golomb code may hold here.
pub open spec fn codable(v: nat) -> bool {
    v < 0x1_ffff_ffff
}

/// Codes, one behind the other.
pub open spec fn codes(v: Seq<nat>) -> Seq<bool>
    decreases v.len(),
{
    if v.len() == 0 {
        seq![]
    } else {
        ue_code(v[0]) + codes(v.drop_first())
    }
}

proof fn lemma_codes(s: Seq<bool>, before: Seq<bool>, v: Seq<nat>, after: Seq<bool>)
    requires
        s == before + codes(v) + after,
        forall|i: int| 0 <= i < v.len() ==> codable(#[trigger] v[i]),
    ensures
        ue_run_end(s, before.len() as int, v.len()) == Some((before + codes(v)).len() as int),
    decreases v.len(),
{
    if v.len() > 0 {
        let c = ue_code(v[0]);
        let tail = v.drop_first();
        assert(codable(v[0]));
        assert(s =~= before + c + (codes(tail) + after));
        law_ue_roundtrip(before, v[0], codes(tail) + after);
        assert forall|i: int| 0 <= i < tail.len() implies codable(#[trigger] tail[i]) by {
            assert(tail[i] == v[i + 1]);
        }
        assert(s =~= (before + c) + codes(tail) + after);
        lemma_codes(s, before + c, tail, after);
    } else {
        assert(codes(v) =~= Seq::<bool>::empty());
    }
}

// ---------------------------------------------------------------------------
// Scaling lists
// ---------------------------------------------------------------------------

/// How a scaling list is given: not at all, as the default, or flat.
pub enum Scaling {
    Absent,
    Default,
    Flat,
}

/// How many entries the `i`th list has.
pub open spec fn list_size(i: int) -> nat {
    if i < 6 {
        16
    } else {
        64
    }
}

/// The deltas of a flat list: none of its entries differs from the one before it.
pub open spec fn flat_deltas(n: nat) -> Seq<bool>
    decreases n,
{
    if n == 0 {
        seq![]
    } else {
        se_code(0) + flat_deltas((n - 1) as nat)
    }
}

/// A scaling list in bits. The default is asked for by a first delta that leads to zero.
pub open spec fn scaling_bits(k: Scaling, i: int) -> Seq<bool> {
    match k {
        Scaling::Absent => seq![false],
        Scaling::Default => seq![true] + se_code(-8),
        Scaling::Flat => seq![true] + flat_deltas(list_size(i)),
    }
}

/// Scaling lists from the `i`th on, in bits.
pub open spec fn scaling_lists_bits(lists: Seq<Scaling>, i: int) -> Seq<bool>
    decreases lists.len() - i,
{
    if i < 0 || i >= lists.len() {
        seq![]
    } else {
        scaling_bits(lists[i], i) + scaling_lists_bits(lists, i + 1)
    }
}

proof fn lemma_flat(s: Seq<bool>, before: Seq<bool>, n: nat, after: Seq<bool>)
    requires
        s == before + flat_deltas(n) + after,
    ensures
        scaling_list_end(s, before.len() as int, n, 8, 8) == Some(
            (before + flat_deltas(n)).len() as int,
        ),
    decreases n,
{
    if n > 0 {
        let c = se_code(0);
        let rest = flat_deltas((n - 1) as nat);
        assert(s =~= before + c + (rest + after));
        law_se_roundtrip(before, 0, rest + after);
        assert(s =~= (before + c) + rest + after);
        lemma_flat(s, before + c, (n - 1) as nat, after);
    } else {
        assert(flat_deltas(0) =~= Seq::<bool>::empty());
    }
}

proof fn lemma_ended(s: Seq<bool>, p: int, left: nat, last: int)
    ensures
        scaling_list_end(s, p, left, last, 0) == Some(p),
    decreases left,
{
    if left > 0 {
        lemma_ended(s, p, (left - 1) as nat, last);
    }
}

proof fn lemma_scaling_list(s: Seq<bool>, before: Seq<bool>, k: Scaling, i: int, after: Seq<bool>)
    requires
        s == before + scaling_bits(k, i) + after,
    ensures
        ({
            let p = before.len() as int;
            let end = (before + scaling_bits(k, i)).len() as int;
            match read_bit(s, p) {
                Some((true, q)) => !(k is Absent) && scaling_list_end(s, q, list_size(i), 8, 8) == Some(end),
                Some((false, q)) => k is Absent && q == end,
                None => false,
            }
        }),
{
    let p = before.len() as int;
    match k {
        Scaling::Absent => {
            assert(s[p] == seq![false][0]);
        },
        Scaling::Default => {
            let c = se_code(-8);
            let one = seq![true];
            assert(s[p] == one[0]);
            assert(s =~= (before + one) + c + after);
            law_se_roundtrip(before + one, -8, after);
            let q = (before + one + c).len() as int;
            assert((8 - 8 + 256) % 256 == 0);
            lemma_ended(s, q, (list_size(i) - 1) as nat, 8);
        },
        Scaling::Flat => {
            let one = seq![true];
            let c = flat_deltas(list_size(i));
            assert(s[p] == one[0]);
            assert(s =~= (before + one) + c + after);
            lemma_flat(s, before + one, list_size(i), after);
        },
    }
}

proof fn lemma_scaling_lists(
    s: Seq<bool>,
    before: Seq<bool>,
    lists: Seq<Scaling>,
    i: int,
    after: Seq<bool>,
)
    requires
        s == before + scaling_lists_bits(lists, i) + after,
        0 <= i <= lists.len(),
    ensures
        scaling_lists_end(s, before.len() as int, i as nat, lists.len()) == Some(
            (before + scaling_lists_bits(lists, i)).len() as int,
        ),
    decreases lists.len() - i,
{
    if i < lists.len() {
        let c = scaling_bits(lists[i], i);
        let rest = scaling_lists_bits(lists, i + 1);
        assert(s =~= before + c + (rest + after));
        lemma_scaling_list(s, before, lists[i], i, rest + after);
        assert(s =~= (before + c) + rest + after);
        lemma_scaling_lists(s, before + c, lists, i + 1, after);
    } else {
        assert(scaling_lists_bits(lists, i) =~= Seq::<bool>::empty());
    }
}

// ---------------------------------------------------------------------------
// The parameter set
// ---------------------------------------------------------------------------

/// What only the high profiles carry.
pub struct Chroma {
    pub format: nat,
    /// Whether the planes are coded apart, in 4:4:4 alone.
    pub apart: bool,
    pub luma_depth: nat,
    pub chroma_depth: nat,
    pub bypass: bool,
    /// Eight lists, or twelve in 4:4:4.
    pub scaling: Option<Seq<Scaling>>,
}

/// How POC is coded: in its low bits, by offsets that follow a cycle, or not at all.
pub enum PocCoding {
    Lsb(nat),
    Cycle { always_zero: bool, non_ref: nat, top_to_bottom: nat, offsets: Seq<nat> },
    DecodeOrder,
}

/// A sequence parameter set, as far as the frame_mbs_only flag.
pub struct SpsFields {
    pub profile: nat,
    /// The constraint flags and the level.
    pub constraints: nat,
    pub id: nat,
    pub chroma: Chroma,
    pub frame_num: nat,
    pub poc: PocCoding,
    pub references: nat,
    pub gaps_allowed: bool,
    pub width: nat,
    pub height: nat,
    pub frame_mbs_only: bool,
}

/// The profiles that carry chroma format, depths and scaling lists.
pub open spec fn is_high(profile: nat) -> bool {
    profile == 100 || profile == 110 || profile == 122 || profile == 244 || profile == 44 || profile
        == 83 || profile == 86 || profile == 118 || profile == 128 || profile == 138 || profile == 139
        || profile == 134 || profile == 135
}

pub open spec fn chroma_bits(c: Chroma) -> Seq<bool> {
    ue_code(c.format) + (if c.format == 3 {
        seq![c.apart]
    } else {
        seq![]
    }) + codes(seq![c.luma_depth, c.chroma_depth]) + seq![c.bypass, c.scaling is Some] + (
    match c.scaling {
        Some(lists) => scaling_lists_bits(lists, 0),
        None => seq![],
    })
}

pub open spec fn poc_bits(p: PocCoding) -> Seq<bool> {
    match p {
        PocCoding::Lsb(n) => ue_code(0) + ue_code(n),
        PocCoding::Cycle { always_zero, non_ref, top_to_bottom, offsets } => ue_code(1) + seq![
            always_zero,
        ] + codes(seq![non_ref, top_to_bottom]) + ue_code(offsets.len()) + codes(offsets),
        PocCoding::DecodeOrder => ue_code(2),
    }
}

/// A sequence parameter set in bits.
pub open spec fn sps_bits(f: SpsFields) -> Seq<bool> {
    head_bits(f) + width_bits(f) + tail_bits(f)
}

pub open spec fn head_bits(f: SpsFields) -> Seq<bool> {
    low_bits(f.profile, 8) + low_bits(f.constraints, 16) + ue_code(f.id) + (if is_high(f.profile) {
        chroma_bits(f.chroma)
    } else {
        seq![]
    })
}

pub open spec fn width_bits(f: SpsFields) -> Seq<bool> {
    ue_code(f.frame_num) + poc_bits(f.poc)
}

pub open spec fn tail_bits(f: SpsFields) -> Seq<bool> {
    ue_code(f.references) + seq![f.gaps_allowed] + codes(seq![f.width, f.height]) + seq![
        f.frame_mbs_only,
    ]
}

/// Fields that can be written.
pub open spec fn fields_fit(f: SpsFields) -> bool {
    &&& f.profile < 256
    &&& f.constraints < 0x1_0000
    &&& codable(f.id)
    &&& codable(f.chroma.format)
    &&& codable(f.chroma.luma_depth)
    &&& codable(f.chroma.chroma_depth)
    &&& f.chroma.scaling matches Some(lists) ==> lists.len() == (if f.chroma.format == 3 {
        12int
    } else {
        8
    })
    &&& codable(f.frame_num)
    &&& match f.poc {
        PocCoding::Lsb(n) => codable(n),
        PocCoding::Cycle { always_zero, non_ref, top_to_bottom, offsets } => codable(non_ref)
            && codable(top_to_bottom) && codable(offsets.len()) && forall|i: int|
            0 <= i < offsets.len() ==> codable(#[trigger] offsets[i]),
        PocCoding::DecodeOrder => true,
    }
    &&& codable(f.references)
    &&& codable(f.width)
    &&& codable(f.height)
}

#[verifier::spinoff_prover]
proof fn lemma_chroma(s: Seq<bool>, before: Seq<bool>, c: Chroma, after: Seq<bool>)
    requires
        s == before + chroma_bits(c) + after,
        codable(c.format),
        codable(c.luma_depth),
        codable(c.chroma_depth),
        c.scaling matches Some(lists) ==> lists.len() == (if c.format == 3 {
            12int
        } else {
            8
        }),
    ensures
        sps_chroma(s, before.len() as int) == Some(
            (c.format == 3 && c.apart, (before + chroma_bits(c)).len() as int),
        ),
{
    lemma2_to64();
    let none = Seq::<bool>::empty();
    let a = ue_code(c.format);
    let b = if c.format == 3 {
        seq![c.apart]
    } else {
        none
    };
    let v = seq![c.luma_depth, c.chroma_depth];
    let e = codes(v);
    let f = seq![c.bypass, c.scaling is Some];
    let g = match c.scaling {
        Some(lists) => scaling_lists_bits(lists, 0),
        None => none,
    };
    lemma_chroma_cut(before, a, b, e, f, g, after);
    law_ue_roundtrip(before, c.format, b + e + f + g + after);
    lemma_codes(s, before + a + b, v, f + g + after);
    assert(v.len() == 2);
    lemma_two_flags(s, before + a + b + e, c.bypass, c.scaling is Some, g + after);
    if let Some(lists) = c.scaling {
        lemma_scaling_lists(s, before + a + b + e + f, lists, 0, after);
    }
}

proof fn lemma_chroma_cut(
    before: Seq<bool>,
    a: Seq<bool>,
    b: Seq<bool>,
    e: Seq<bool>,
    f: Seq<bool>,
    g: Seq<bool>,
    after: Seq<bool>,
)
    ensures
        ({
            let s = before + (a + b + e + f + g) + after;
            &&& s == before + a + (b + e + f + g + after)
            &&& s == (before + a + b) + e + (f + g + after)
            &&& s == (before + a + b + e) + f + (g + after)
            &&& s == (before + a + b + e + f) + g + after
            &&& b.len() > 0 ==> s[(before + a).len() as int] == b[0]
            &&& (before + a + b + e + f + g).len() == (before + (a + b + e + f + g)).len()
        }),
{
    let s = before + (a + b + e + f + g) + after;
    assert(s =~= before + a + (b + e + f + g + after));
    assert(s =~= (before + a + b) + e + (f + g + after));
    assert(s =~= (before + a + b + e) + f + (g + after));
    assert(s =~= (before + a + b + e + f) + g + after);
}

proof fn lemma_two_flags(s: Seq<bool>, before: Seq<bool>, a: bool, b: bool, after: Seq<bool>)
    requires
        s == before + seq![a, b] + after,
    ensures
        read_bits(s, before.len() as int, 2) matches Some((v, q)) && q == before.len() + 2 && (v % 2
            == 1) == b,
{
    let p = before.len() as int;
    let t = s.subrange(p, p + 2);
    assert(t =~= seq![a, b]);
    reveal_with_fuel(crate::bits::bits_value, 3);
    assert(t.drop_last() =~= seq![a]);
    assert(t.drop_last().drop_last() =~= Seq::<bool>::empty());
}

#[verifier::spinoff_prover]
proof fn lemma_head(s: Seq<bool>, f: SpsFields, after: Seq<bool>)
    requires
        s == head_bits(f) + after,
        fields_fit(f),
    ensures
        sps_head(s) == Some(
            (is_high(f.profile) && f.chroma.format == 3 && f.chroma.apart, head_bits(f).len() as int),
        ),
{
    lemma2_to64();
    let none = Seq::<bool>::empty();
    let (a, b, c) = (low_bits(f.profile, 8), low_bits(f.constraints, 16), ue_code(f.id));
    let e = if is_high(f.profile) {
        chroma_bits(f.chroma)
    } else {
        none
    };
    lemma_low_bits(f.profile, 8);
    lemma_low_bits(f.constraints, 16);
    assert(s =~= none + a + (b + c + e + after));
    law_field_roundtrip(none, f.profile, 8, b + c + e + after);
    assert(s =~= a + b + (c + e + after));
    law_field_roundtrip(a, f.constraints, 16, c + e + after);
    assert(s =~= (a + b) + c + (e + after));
    law_ue_roundtrip(a + b, f.id, e + after);
    assert(s =~= (a + b + c) + e + after);
    if is_high(f.profile) {
        lemma_chroma(s, a + b + c, f.chroma, after);
    }
}

/// What the width fields say.
pub open spec fn widths_say(f: SpsFields) -> SpsWidths {
    SpsWidths {
        frame_num: f.frame_num as int + 4,
        poc_type: match f.poc {
            PocCoding::Lsb(_) => 0,
            PocCoding::Cycle { .. } => 1,
            PocCoding::DecodeOrder => 2,
        },
        poc_lsb: match f.poc {
            PocCoding::Lsb(n) => n as int + 4,
            _ => 0,
        },
    }
}

#[verifier::spinoff_prover]
proof fn lemma_widths(s: Seq<bool>, before: Seq<bool>, f: SpsFields, after: Seq<bool>)
    requires
        s == before + width_bits(f) + after,
        fields_fit(f),
    ensures
        sps_widths(s, before.len() as int) == Some(
            (widths_say(f), (before + width_bits(f)).len() as int),
        ),
{
    let a = ue_code(f.frame_num);
    let rest = poc_bits(f.poc);
    assert(s =~= before + a + (rest + after));
    law_ue_roundtrip(before, f.frame_num, rest + after);
    let x = before + a;
    assert(s =~= x + rest + after);
    match f.poc {
        PocCoding::Lsb(n) => {
            let (b, c) = (ue_code(0), ue_code(n));
            assert(s =~= x + b + (c + after));
            law_ue_roundtrip(x, 0, c + after);
            assert(s =~= (x + b) + c + after);
            law_ue_roundtrip(x + b, n, after);
            assert(before + width_bits(f) =~= x + b + c);
        },
        PocCoding::Cycle { always_zero, non_ref, top_to_bottom, offsets } => {
            let v = seq![non_ref, top_to_bottom];
            let (b, c, e, g, h) = (
                ue_code(1),
                seq![always_zero],
                codes(v),
                ue_code(offsets.len()),
                codes(offsets),
            );
            assert(s =~= x + b + (c + e + g + h + after));
            law_ue_roundtrip(x, 1, c + e + g + h + after);
            let y = x + b;
            assert(s =~= y + c + (e + g + h + after));
            assert(s[y.len() as int] == c[0]);
            let z = y + c;
            assert(s =~= z + e + (g + h + after));
            lemma_codes(s, z, v, g + h + after);
            assert(s =~= (z + e) + g + (h + after));
            law_ue_roundtrip(z + e, offsets.len(), h + after);
            assert(s =~= (z + e + g) + h + after);
            lemma_codes(s, z + e + g, offsets, after);
            assert(before + width_bits(f) =~= z + e + g + h);
        },
        PocCoding::DecodeOrder => {
            law_ue_roundtrip(x, 2, after);
            assert(before + width_bits(f) =~= x + ue_code(2));
        },
    }
}

#[verifier::spinoff_prover]
proof fn lemma_tail(s: Seq<bool>, before: Seq<bool>, f: SpsFields, after: Seq<bool>)
    requires
        s == before + tail_bits(f) + after,
        fields_fit(f),
    ensures
        sps_tail(s, before.len() as int) matches Some((flag, q)) && flag == f.frame_mbs_only,
{
    let v = seq![f.width, f.height];
    let (a, b, c, e) = (
        ue_code(f.references),
        seq![f.gaps_allowed],
        codes(v),
        seq![f.frame_mbs_only],
    );
    assert(s =~= before + a + (b + c + e + after));
    law_ue_roundtrip(before, f.references, b + c + e + after);
    let x = before + a;
    assert(s =~= x + b + (c + e + after));
    assert(s[x.len() as int] == b[0]);
    let y = x + b;
    assert(s =~= y + c + (e + after));
    lemma_codes(s, y, v, e + after);
    let z = y + c;
    assert(s =~= z + e + after);
    assert(s[z.len() as int] == e[0]);
}

/// A sequence parameter set reads as it is written: in every profile, whatever its chroma
/// format, its scaling lists and the way that it codes POC, the fields that matter are found,
/// and where the width fields stand.
pub proof fn law_sps_fields_are_read(f: SpsFields, after: Seq<bool>)
    requires
        fields_fit(f),
        f.frame_num + 4 <= u32::MAX,
        f.poc matches PocCoding::Lsb(n) ==> n + 4 <= u32::MAX,
    ensures
        sps_layout(sps_bits(f) + after) == Some(
            SpsLayout {
                info: SpsInfo {
                    log2_max_frame_num: (f.frame_num + 4) as u32,
                    poc_type: match f.poc {
                        PocCoding::Lsb(_) => 0,
                        PocCoding::Cycle { .. } => 1,
                        PocCoding::DecodeOrder => 2,
                    },
                    log2_max_poc_lsb: match f.poc {
                        PocCoding::Lsb(n) => (n + 4) as u32,
                        _ => 0,
                    },
                    frame_mbs_only: f.frame_mbs_only,
                    separate_colour_plane: is_high(f.profile) && f.chroma.format == 3
                        && f.chroma.apart,
                },
                start: head_bits(f).len() as int,
                end: (head_bits(f) + width_bits(f)).len() as int,
            },
        ),
{
    let (a, b, c) = (head_bits(f), width_bits(f), tail_bits(f));
    let s = sps_bits(f) + after;
    assert(s =~= a + (b + c + after));
    lemma_head(s, f, b + c + after);
    assert(s =~= a + b + (c + after));
    lemma_widths(s, a, f, c + after);
    assert(s =~= (a + b) + c + after);
    lemma_tail(s, a + b, f, after);
}

} // verus!
