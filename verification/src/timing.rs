//! What recovered composition timing promises: slice headers read as they are written, display
//! positions are the true picture order counts, and the offsets that come of them are the one
//! set that shows the pictures in order, evenly spaced, with no needless delay.
use crate::bits::{
    law_field_roundtrip, law_ue_roundtrip, lemma_low_bits, low_bits, read_bits, read_ue, ue_code,
};
use crate::h264::SpsInfo;
use crate::transplant::{
    ctts_of, display_key, display_keys, display_ranks, gop_start, header_frame_num, header_poc,
    law_ranks_are_a_permutation, law_ranks_follow_display_order, lemma_delay,
    lemma_gop_start_shape, offsets_of, reorder_delay, rollovers, sample_pocs, Unit, VideoOrgans,
};
use vstd::arithmetic::div_mod::lemma_fundamental_div_mod;
use vstd::arithmetic::power2::{lemma_pow2_pos, pow2};
use vstd::prelude::*;
use vstd::seq_lib::seq_to_set_is_finite;
use vstd::set_lib::{lemma_int_range, lemma_subset_equality, set_int_range};

verus! {

// ---------------------------------------------------------------------------
// Slice headers
// ---------------------------------------------------------------------------

/// The fields that open a slice header.
pub struct SliceHeader {
    pub first_mb: nat,
    pub slice_type: nat,
    pub pps_id: nat,
    /// Which colour plane, where planes are coded apart.
    pub plane: nat,
    pub frame_num: nat,
    /// Whether the slice is of a field, and of which, where fields may be coded.
    pub field: bool,
    pub bottom: bool,
    pub idr_id: nat,
    pub poc: nat,
}

/// The header up to frame_num.
pub open spec fn header_opening(h: SliceHeader, sps: SpsInfo) -> Seq<bool> {
    ue_code(h.first_mb) + ue_code(h.slice_type) + ue_code(h.pps_id)
        + if sps.separate_colour_plane {
        low_bits(h.plane, 2)
    } else {
        seq![]
    }
}

/// What stands between frame_num and the POC.
pub open spec fn header_middle(h: SliceHeader, idr: bool, sps: SpsInfo) -> Seq<bool> {
    (if sps.frame_mbs_only {
        seq![]
    } else if h.field {
        seq![true, h.bottom]
    } else {
        seq![false]
    }) + if idr {
        ue_code(h.idr_id)
    } else {
        seq![]
    }
}

/// The opening of a slice header in bits, up to the POC of type 0.
pub open spec fn header_written(h: SliceHeader, idr: bool, sps: SpsInfo) -> Seq<bool> {
    header_opening(h, sps) + low_bits(h.frame_num, sps.log2_max_frame_num as nat) + header_middle(
        h,
        idr,
        sps,
    ) + low_bits(h.poc, sps.log2_max_poc_lsb as nat)
}

/// Fields that fit in their places.
pub open spec fn header_fits(h: SliceHeader, sps: SpsInfo) -> bool {
    &&& h.first_mb < 0x1_ffff_ffff
    &&& h.slice_type < 0x1_ffff_ffff
    &&& h.pps_id < 0x1_ffff_ffff
    &&& h.idr_id < 0x1_ffff_ffff
    &&& h.plane < 4
    &&& sps.log2_max_frame_num <= 64
    &&& h.frame_num < pow2(sps.log2_max_frame_num as nat)
    &&& sps.log2_max_poc_lsb <= 64
    &&& h.poc < pow2(sps.log2_max_poc_lsb as nat)
}

pub proof fn lemma_three_codes(a: nat, b: nat, c: nat, rest: Seq<bool>)
    requires
        a < 0x1_ffff_ffff,
        b < 0x1_ffff_ffff,
        c < 0x1_ffff_ffff,
    ensures
        ({
            let s = ue_code(a) + ue_code(b) + ue_code(c) + rest;
            let (p1, p2, p3) = (
                ue_code(a).len() as int,
                (ue_code(a) + ue_code(b)).len() as int,
                (ue_code(a) + ue_code(b) + ue_code(c)).len() as int,
            );
            &&& read_ue(s, 0) == Some((a as int, p1))
            &&& read_ue(s, p1) == Some((b as int, p2))
            &&& read_ue(s, p2) == Some((c as int, p3))
        }),
{
    let (x, y, z) = (ue_code(a), ue_code(b), ue_code(c));
    let s = x + y + z + rest;
    let none = Seq::<bool>::empty();
    law_ue_roundtrip(none, a, y + z + rest);
    assert(none + x + (y + z + rest) =~= s);
    law_ue_roundtrip(x, b, z + rest);
    assert(x + y + (z + rest) =~= s);
    law_ue_roundtrip(x + y, c, rest);
}

proof fn lemma_header_cut(
    codes: Seq<bool>,
    plane: Seq<bool>,
    num: Seq<bool>,
    fields: Seq<bool>,
    id: Seq<bool>,
    poc: Seq<bool>,
    after: Seq<bool>,
)
    ensures
        ({
            let s = codes + plane + num + (fields + id) + poc + after;
            &&& s == codes + (plane + num + fields + id + poc + after)
            &&& s == (codes + plane) + num + (fields + id + poc + after)
            &&& s == (codes + plane + num + fields) + id + (poc + after)
            &&& s == (codes + plane + num + fields + id) + poc + after
            &&& fields.len() > 0 ==> s[(codes + plane + num).len() as int] == fields[0]
        }),
{
    let s = codes + plane + num + (fields + id) + poc + after;
    assert(s =~= codes + (plane + num + fields + id + poc + after));
    assert(s =~= (codes + plane) + num + (fields + id + poc + after));
    assert(s =~= (codes + plane + num + fields) + id + (poc + after));
    assert(s =~= (codes + plane + num + fields + id) + poc + after);
}

/// The positions at which the fields of a slice header stand.
#[verifier::spinoff_prover]
proof fn lemma_header_places(h: SliceHeader, idr: bool, sps: SpsInfo, after: Seq<bool>)
    requires
        header_fits(h, sps),
    ensures
        ({
            let s = header_written(h, idr, sps) + after;
            let x = ue_code(h.first_mb);
            let y = x + ue_code(h.slice_type);
            let codes = y + ue_code(h.pps_id);
            let p4 = header_opening(h, sps).len() as int;
            let p7 = header_written(h, idr, sps).len() - sps.log2_max_poc_lsb;
            let middle = header_middle(h, idr, sps);
            let p5 = p4 + sps.log2_max_frame_num;
            &&& read_ue(s, 0) == Some((h.first_mb as int, x.len() as int))
            &&& read_ue(s, x.len() as int) == Some((h.slice_type as int, y.len() as int))
            &&& read_ue(s, y.len() as int) == Some((h.pps_id as int, codes.len() as int))
            &&& p4 == codes.len() + (if sps.separate_colour_plane {
                2int
            } else {
                0
            })
            &&& read_bits(s, p4, sps.log2_max_frame_num as nat) == Some((h.frame_num as int, p5))
            &&& !sps.frame_mbs_only ==> p5 < s.len() && s[p5] == h.field
            &&& read_bits(s, p7, sps.log2_max_poc_lsb as nat) matches Some((v, _)) && v == h.poc
            &&& p7 == p5 + middle.len()
            &&& p7 <= s.len()
            &&& idr ==> read_ue(s, p7 - ue_code(h.idr_id).len()) == Some((h.idr_id as int, p7))
        }),
{
    let n = sps.log2_max_frame_num as nat;
    let m = sps.log2_max_poc_lsb as nat;
    let none = Seq::<bool>::empty();
    let codes = ue_code(h.first_mb) + ue_code(h.slice_type) + ue_code(h.pps_id);
    let plane = if sps.separate_colour_plane {
        low_bits(h.plane, 2)
    } else {
        none
    };
    let num = low_bits(h.frame_num, n);
    let poc = low_bits(h.poc, m);
    let fields = if sps.frame_mbs_only {
        none
    } else if h.field {
        seq![true, h.bottom]
    } else {
        seq![false]
    };
    let id = if idr {
        ue_code(h.idr_id)
    } else {
        none
    };
    let s = header_written(h, idr, sps) + after;
    vstd::arithmetic::power2::lemma2_to64();
    lemma_low_bits(h.plane, 2);
    lemma_low_bits(h.frame_num, n);
    lemma_low_bits(h.poc, m);
    assert(s == codes + plane + num + (fields + id) + poc + after);
    lemma_header_cut(codes, plane, num, fields, id, poc, after);
    lemma_three_codes(
        h.first_mb,
        h.slice_type,
        h.pps_id,
        plane + num + fields + id + poc + after,
    );
    law_field_roundtrip(codes + plane, h.frame_num, n, fields + id + poc + after);
    if idr {
        law_ue_roundtrip(codes + plane + num + fields, h.idr_id, poc + after);
    }
    law_field_roundtrip(codes + plane + num + fields + id, h.poc, m, after);
}

/// A slice header reads as it is written: frame_num where the header is that of a picture's
/// first slice, and the POC behind whatever the SPS puts between them.
pub proof fn law_slice_headers_read_back(
    h: SliceHeader,
    idr: bool,
    sps: SpsInfo,
    after: Seq<bool>,
)
    requires
        header_fits(h, sps),
    ensures
        header_frame_num(header_written(h, idr, sps) + after, idr, sps) == (if h.first_mb == 0
            && h.slice_type <= 9 && h.pps_id <= 3 && (idr ==> h.slice_type == 2 || h.slice_type == 4
            || h.slice_type == 7 || h.slice_type == 9) {
            Some(h.frame_num as int)
        } else {
            None
        }),
        header_poc(header_written(h, idr, sps) + after, idr, sps) == (if sps.poc_type == 0 {
            Some(h.poc as int)
        } else {
            None
        }),
{
    lemma_header_places(h, idr, sps, after);
}

// ---------------------------------------------------------------------------
// Display positions
// ---------------------------------------------------------------------------

/// `p` are the true picture order counts of samples whose low bits are `pocs`: counted from
/// the last IDR, in steps of less than half the counter's range, and never back over a place
/// where the counter rolled.
pub open spec fn true_pocs(pocs: Seq<(bool, int)>, p: Seq<int>, log2: nat) -> bool {
    let m = pow2(log2) as int;
    &&& p.len() == pocs.len()
    &&& forall|i: int| 0 <= i < p.len() ==> 0 <= #[trigger] p[i] && p[i] % m == pocs[i].1
    &&& forall|i: int| 0 <= i < p.len() && (i == 0 || pocs[i].0) ==> #[trigger] p[i] < m
    &&& forall|i: int|
        0 < i < p.len() && !pocs[i].0 ==> {
            let step = #[trigger] p[i] - p[i - 1];
            -m < 2 * step < m && p[i - 1] / m <= p[i] / m
        }
}

proof fn lemma_rollovers(pocs: Seq<(bool, int)>, p: Seq<int>, log2: nat, i: int)
    requires
        true_pocs(pocs, p, log2),
        0 <= i < p.len(),
    ensures
        rollovers(pocs, i, log2) == p[i] / pow2(log2) as int,
        display_key(pocs, i, log2) == p[i],
    decreases i,
{
    let m = pow2(log2) as int;
    lemma_pow2_pos(log2);
    let x = p[i];
    let (q, r) = (x / m, x % m);
    lemma_fundamental_div_mod(x, m);
    if i == 0 || pocs[i].0 {
        assert(q == 0) by (nonlinear_arith)
            requires
                x == m * q + r,
                0 <= r < m,
                0 <= x < m,
        ;
        assert(0 * m == 0);
    } else {
        lemma_rollovers(pocs, p, log2, i - 1);
        let y = p[i - 1];
        let (q0, r0) = (y / m, y % m);
        lemma_fundamental_div_mod(y, m);
        assert(q == q0 || q == q0 + 1) by (nonlinear_arith)
            requires
                x == m * q + r,
                y == m * q0 + r0,
                0 <= r < m,
                0 <= r0 < m,
                2 * (x - y) < m,
                q0 <= q,
                m > 0,
        ;
        assert(m * (q0 + 1) == m * q0 + m) by (nonlinear_arith);
        assert(m * q == q * m) by (nonlinear_arith);
        if q == q0 {
            assert(r0 - r == y - x);
        } else {
            assert(r0 - r == y - x + m);
        }
        assert(m / 2 * 2 <= m < m / 2 * 2 + 2);
    }
    assert(m * q == q * m) by (nonlinear_arith);
}

/// The display position of a sample is its true picture order count, though slices carry only
/// its low bits.
pub proof fn law_display_positions_are_true(pocs: Seq<(bool, int)>, p: Seq<int>, log2: nat)
    requires
        true_pocs(pocs, p, log2),
    ensures
        display_keys(pocs, log2) == p,
{
    assert forall|i: int| 0 <= i < p.len() implies display_keys(pocs, log2)[i] == p[i] by {
        lemma_rollovers(pocs, p, log2, i);
    }
    assert(display_keys(pocs, log2) =~= p);
}

// ---------------------------------------------------------------------------
// Composition offsets
// ---------------------------------------------------------------------------

/// When sample `i` is shown: its decode time, at one duration for all, and its offset.
pub open spec fn shown_at(c: Seq<u32>, delta: u32, i: int) -> int {
    i * delta + c[i]
}

/// An IDR stands behind sample `a`, up to sample `b`.
pub open spec fn idr_between(pocs: Seq<(bool, int)>, a: int, b: int) -> bool {
    exists|j: int| a < j <= b && (#[trigger] pocs[j]).0
}

/// Sample `a` is to be shown before sample `b`: an IDR parts them, or none does and its count
/// is lower, or as high and it is decoded first.
pub open spec fn comes_before(pocs: Seq<(bool, int)>, p: Seq<int>, a: int, b: int) -> bool {
    ||| idr_between(pocs, a, b)
    ||| !idr_between(pocs, a, b) && !idr_between(pocs, b, a) && (p[a] < p[b] || (p[a] == p[b] && a
        < b))
}

/// The offsets show every sample in its turn, in consecutive slots of one duration each from
/// slot `e` on, and no later than need be: one of them is shown when it is decoded.
pub open spec fn shows_in_turn(
    c: Seq<u32>,
    pocs: Seq<(bool, int)>,
    p: Seq<int>,
    delta: u32,
    e: int,
) -> bool {
    &&& c.len() == pocs.len()
    &&& forall|a: int, b: int|
        #![trigger c[a], c[b]]
        0 <= a < c.len() && 0 <= b < c.len() && comes_before(pocs, p, a, b) ==> shown_at(c, delta, a)
            < shown_at(c, delta, b)
    &&& forall|i: int|
        0 <= i < c.len() ==> shown_at(c, delta, i) % delta as int == 0 && e * delta <= shown_at(
            c,
            delta,
            i,
        ) && #[trigger] c[i] + i * delta < (e + c.len()) * delta
    &&& exists|i: int| 0 <= i < c.len() && #[trigger] c[i] == 0
}

proof fn lemma_same_gop(pocs: Seq<(bool, int)>, a: int, b: int)
    requires
        0 <= a < pocs.len(),
        0 <= b < pocs.len(),
    ensures
        idr_between(pocs, a, b) ==> gop_start(pocs, a) < gop_start(pocs, b),
        !idr_between(pocs, a, b) && !idr_between(pocs, b, a) ==> gop_start(pocs, a) == gop_start(
            pocs,
            b,
        ),
{
    lemma_gop_start_shape(pocs, a);
    lemma_gop_start_shape(pocs, b);
    let (ga, gb) = (gop_start(pocs, a), gop_start(pocs, b));
    if idr_between(pocs, a, b) {
        let j = choose|j: int| a < j <= b && (#[trigger] pocs[j]).0;
        if gb < j {
            assert(!pocs[j].0);
        }
    } else if !idr_between(pocs, b, a) {
        if ga < gb {
            if gb <= a {
                assert(!pocs[gb].0);
            } else {
                assert(pocs[gb].0);
                assert(idr_between(pocs, a, b));
            }
        }
        if gb < ga {
            if ga <= b {
                assert(!pocs[ga].0);
            } else {
                assert(pocs[ga].0);
                assert(idr_between(pocs, b, a));
            }
        }
    }
}

/// Of two samples, one comes first.
proof fn lemma_one_comes_first(pocs: Seq<(bool, int)>, p: Seq<int>, a: int, b: int)
    requires
        a != b,
    ensures
        comes_before(pocs, p, a, b) || comes_before(pocs, p, b, a),
{
}

proof fn lemma_delay_reached(ranks: Seq<int>, n: int)
    requires
        0 <= n <= ranks.len(),
        reorder_delay(ranks, n) > 0,
    ensures
        exists|i: int| 0 <= i < n && i - (#[trigger] ranks[i]) == reorder_delay(ranks, n),
    decreases n,
{
    if n > 0 {
        if n - 1 - ranks[n - 1] > reorder_delay(ranks, n - 1) {
            assert(n - 1 - ranks[n - 1] == reorder_delay(ranks, n));
        } else {
            lemma_delay_reached(ranks, n - 1);
            let i = choose|i: int|
                0 <= i < n - 1 && i - (#[trigger] ranks[i]) == reorder_delay(ranks, n - 1);
            assert(i - ranks[i] == reorder_delay(ranks, n));
        }
    }
}

/// Everything about the timing of `n` samples fits in 32 bits.
pub open spec fn timing_fits(n: int, delta: u32) -> bool {
    2 * n * delta <= u32::MAX
}

proof fn lemma_offset(pocs: Seq<(bool, int)>, log2: nat, delta: u32, i: int)
    requires
        0 <= i < pocs.len(),
        timing_fits(pocs.len() as int, delta),
    ensures
        ({
            let ranks = display_ranks(pocs, log2);
            let c = offsets_of(ranks, delta);
            let e = reorder_delay(ranks, ranks.len() as int);
            &&& c.len() == pocs.len()
            &&& 0 <= ranks[i] < pocs.len()
            &&& 0 <= e <= pocs.len()
            &&& ranks[i] + e - i >= 0
            &&& c[i] == (ranks[i] + e - i) * delta
            &&& shown_at(c, delta, i) == (e + ranks[i]) * delta
        }),
{
    let ranks = display_ranks(pocs, log2);
    let n = pocs.len() as int;
    law_ranks_are_a_permutation(pocs, log2);
    assert forall|j: int| 0 <= j < ranks.len() implies 0 <= #[trigger] ranks[j] by {
        assert(ranks.contains(ranks[j]));
    }
    assert(ranks.contains(ranks[i]));
    lemma_delay(ranks, n);
    let e = reorder_delay(ranks, n);
    let x = ranks[i] + e - i;
    let k = delta as int;
    assert(0 <= x * k <= 2 * n * k) by (nonlinear_arith)
        requires
            0 <= x <= 2 * n,
            k >= 0,
    ;
    assert(i * k + x * k == (e + ranks[i]) * k) by (nonlinear_arith)
        requires
            x == ranks[i] + e - i,
    ;
}

/// Recovered timing shows every picture in its turn: where the slices carry the low bits of
/// true picture order counts, the offsets that are recovered from them show the samples in
/// the order of the counts, group by group, evenly, and with no needless delay.
#[verifier::spinoff_prover]
pub proof fn law_recovered_timing_shows_in_turn(
    pocs: Seq<(bool, int)>,
    p: Seq<int>,
    log2: nat,
    delta: u32,
)
    requires
        true_pocs(pocs, p, log2),
        pocs.len() > 0,
        delta > 0,
        timing_fits(pocs.len() as int, delta),
    ensures
        exists|e: int|
            0 <= e && #[trigger] shows_in_turn(
                offsets_of(display_ranks(pocs, log2), delta),
                pocs,
                p,
                delta,
                e,
            ),
{
    let ranks = display_ranks(pocs, log2);
    let n = pocs.len() as int;
    let c = offsets_of(ranks, delta);
    let e = reorder_delay(ranks, n);
    law_ranks_are_a_permutation(pocs, log2);
    law_display_positions_are_true(pocs, p, log2);
    lemma_offset(pocs, log2, delta, 0);
    assert forall|a: int, b: int|
        #![trigger c[a], c[b]]
        0 <= a < c.len() && 0 <= b < c.len() && comes_before(pocs, p, a, b) implies shown_at(
        c,
        delta,
        a,
    ) < shown_at(c, delta, b) by {
        lemma_offset(pocs, log2, delta, a);
        lemma_offset(pocs, log2, delta, b);
        lemma_same_gop(pocs, a, b);
        law_ranks_follow_display_order(pocs, log2, a, b);
        lemma_slots_in_order(e + ranks[a], e + ranks[b], delta as int);
    }
    assert forall|i: int| 0 <= i < c.len() implies shown_at(c, delta, i) % delta as int == 0 && e
        * delta <= shown_at(c, delta, i) && #[trigger] c[i] + i * delta < (e + c.len()) * delta by {
        lemma_offset(pocs, log2, delta, i);
        vstd::arithmetic::div_mod::lemma_mod_multiples_basic(e + ranks[i], delta as int);
        lemma_slots_in_order(e + ranks[i], e + n, delta as int);
        if ranks[i] > 0 {
            lemma_slots_in_order(e, e + ranks[i], delta as int);
        }
    }
    assert(exists|i: int| 0 <= i < c.len() && #[trigger] c[i] == 0) by {
        let i = if e > 0 {
            lemma_delay_reached(ranks, n);
            choose|i: int| 0 <= i < n && i - (#[trigger] ranks[i]) == e
        } else {
            assert(ranks.contains(0));
            choose|i: int| 0 <= i < ranks.len() && ranks[i] == 0
        };
        lemma_offset(pocs, log2, delta, i);
        assert(ranks[i] + e - i == 0);
        assert(c[i] == 0 * delta);
    }
    assert(shows_in_turn(c, pocs, p, delta, e));
}

proof fn lemma_slots_in_order(a: int, b: int, k: int)
    requires
        a < b,
        k > 0,
    ensures
        a * k < b * k,
        a * k + k <= b * k,
{
    assert(a * k + k <= b * k) by (nonlinear_arith)
        requires
            a + 1 <= b,
            k > 0,
    ;
}

// ---------------------------------------------------------------------------
// There is only one such timing
// ---------------------------------------------------------------------------

/// A list of all numbers below its length.
spec fn permutes(r: Seq<int>) -> bool {
    &&& r.no_duplicates()
    &&& forall|i: int| 0 <= i < r.len() ==> 0 <= #[trigger] r[i] < r.len()
}

proof fn lemma_permutes(r: Seq<int>, x: int)
    requires
        permutes(r),
        0 <= x < r.len(),
    ensures
        r.contains(x),
{
    let n = r.len() as int;
    r.unique_seq_to_set();
    lemma_int_range(0, n);
    seq_to_set_is_finite(r);
    assert(r.to_set().subset_of(set_int_range(0, n)));
    lemma_subset_equality(r.to_set(), set_int_range(0, n));
    assert(r.to_set().contains(x) <==> set_int_range(0, n).contains(x));
}

/// The same numbers in the same order are not lower.
proof fn lemma_not_lower(r: Seq<int>, s: Seq<int>, x: int, i: int)
    requires
        permutes(r),
        permutes(s),
        r.len() == s.len(),
        forall|a: int, b: int|
            0 <= a < r.len() && 0 <= b < r.len() && #[trigger] r[a] < #[trigger] r[b] ==> s[a] < s[b],
        0 <= i < r.len(),
        r[i] == x,
    ensures
        s[i] >= x,
    decreases x,
{
    if x > 0 {
        lemma_permutes(r, x - 1);
        let j = choose|j: int| 0 <= j < r.len() && r[j] == x - 1;
        lemma_not_lower(r, s, x - 1, j);
        assert(r[j] < r[i]);
    }
}

/// The slot in which a sample is shown, counted from `e`.
spec fn slot(c: Seq<u32>, delta: u32, e: int, i: int) -> int {
    shown_at(c, delta, i) / delta as int - e
}

proof fn lemma_slot(c: Seq<u32>, pocs: Seq<(bool, int)>, p: Seq<int>, delta: u32, e: int, i: int)
    requires
        shows_in_turn(c, pocs, p, delta, e),
        delta > 0,
        0 <= i < c.len(),
    ensures
        shown_at(c, delta, i) == (e + slot(c, delta, e, i)) * delta,
        0 <= slot(c, delta, e, i) < c.len(),
{
    let x = shown_at(c, delta, i);
    let k = delta as int;
    let q = x / k;
    let n = c.len() as int;
    assert(c[i] + i * delta == x);
    lemma_fundamental_div_mod(x, k);
    assert(k * q == q * k) by (nonlinear_arith);
    assert(e <= q < e + n) by (nonlinear_arith)
        requires
            x == k * q,
            e * k <= x < (e + n) * k,
            k > 0,
    ;
}

proof fn lemma_slots(c: Seq<u32>, pocs: Seq<(bool, int)>, p: Seq<int>, delta: u32, e: int)
    requires
        shows_in_turn(c, pocs, p, delta, e),
        delta > 0,
    ensures
        ({
            let r = Seq::new(c.len(), |i: int| slot(c, delta, e, i));
            &&& permutes(r)
            &&& forall|a: int, b: int|
                0 <= a < r.len() && 0 <= b < r.len() && a != b ==> ((#[trigger] r[a]
                    < #[trigger] r[b]) <==> comes_before(pocs, p, a, b))
        }),
{
    let r = Seq::new(c.len(), |i: int| slot(c, delta, e, i));
    let k = delta as int;
    assert forall|a: int, b: int|
        0 <= a < r.len() && 0 <= b < r.len() && a != b && comes_before(pocs, p, a, b) implies (
    #[trigger] r[a]) < (#[trigger] r[b]) by {
        lemma_slot(c, pocs, p, delta, e, a);
        lemma_slot(c, pocs, p, delta, e, b);
        let (x, y) = (c[a], c[b]);
        assert(shown_at(c, delta, a) < shown_at(c, delta, b));
        assert(r[a] < r[b]) by (nonlinear_arith)
            requires
                (e + r[a]) * k < (e + r[b]) * k,
                k > 0,
        ;
    }
    assert forall|a: int, b: int| 0 <= a < r.len() && 0 <= b < r.len() && a != b implies ((
    #[trigger] r[a] < #[trigger] r[b]) <==> comes_before(pocs, p, a, b)) by {
        lemma_one_comes_first(pocs, p, a, b);
        if !comes_before(pocs, p, a, b) {
            assert(r[b] < r[a]);
        }
    }
    assert forall|a: int, b: int| 0 <= a < r.len() && 0 <= b < r.len() && a != b implies r[a]
        != r[b] by {
        lemma_one_comes_first(pocs, p, a, b);
        assert(r[a] < r[b] <==> comes_before(pocs, p, a, b));
        assert(r[b] < r[a] <==> comes_before(pocs, p, b, a));
    }
    assert forall|i: int| 0 <= i < r.len() implies 0 <= #[trigger] r[i] < r.len() by {
        lemma_slot(c, pocs, p, delta, e, i);
    }
}

/// Two sets of offsets that show the same samples in turn are the same.
#[verifier::spinoff_prover]
pub proof fn law_timing_in_turn_is_unique(
    c: Seq<u32>,
    e: int,
    d: Seq<u32>,
    f: int,
    pocs: Seq<(bool, int)>,
    p: Seq<int>,
    delta: u32,
)
    requires
        shows_in_turn(c, pocs, p, delta, e),
        shows_in_turn(d, pocs, p, delta, f),
        delta > 0,
    ensures
        c == d,
{
    let n = c.len();
    let r = Seq::new(n, |i: int| slot(c, delta, e, i));
    let s = Seq::new(n, |i: int| slot(d, delta, f, i));
    let k = delta as int;
    lemma_slots(c, pocs, p, delta, e);
    lemma_slots(d, pocs, p, delta, f);
    assert forall|i: int| 0 <= i < n implies #[trigger] r[i] == s[i] by {
        assert forall|a: int, b: int|
            0 <= a < r.len() && 0 <= b < r.len() && #[trigger] r[a] < #[trigger] r[b] implies s[a]
            < s[b] by {
            assert(comes_before(pocs, p, a, b));
        }
        assert forall|a: int, b: int|
            0 <= a < r.len() && 0 <= b < r.len() && #[trigger] s[a] < #[trigger] s[b] implies r[a]
            < r[b] by {
            assert(comes_before(pocs, p, a, b));
        }
        lemma_not_lower(r, s, r[i], i);
        lemma_not_lower(s, r, s[i], i);
    }
    assert forall|i: int| 0 <= i < n implies #[trigger] c[i] - d[i] == (e - f) * k by {
        lemma_slot(c, pocs, p, delta, e, i);
        lemma_slot(d, pocs, p, delta, f, i);
        assert(r[i] == s[i]);
        assert((e + r[i]) * k - (f + r[i]) * k == (e - f) * k) by (nonlinear_arith);
    }
    let a = choose|i: int| 0 <= i < c.len() && #[trigger] c[i] == 0;
    let b = choose|i: int| 0 <= i < d.len() && #[trigger] d[i] == 0;
    assert(c[a] - d[a] == (e - f) * k);
    assert(c[b] - d[b] == (e - f) * k);
    assert(c =~= d);
}

/// A file's own composition offsets are recovered from its slices: where they show the
/// samples in turn, at the donor's cadence, no other offsets come out.
pub proof fn law_offsets_are_recovered(
    media: Seq<u8>,
    v: Seq<Unit>,
    dv: VideoOrgans,
    sps: SpsInfo,
    pocs: Seq<(bool, int)>,
    p: Seq<int>,
    own: Seq<u32>,
    e: int,
)
    requires
        dv.sps == Some(sps),
        sps.poc_type == 0,
        dv.sample_delta > 0,
        v.len() > 0,
        sample_pocs(media, v, sps) == Some(pocs),
        pocs.len() == v.len(),
        true_pocs(pocs, p, sps.log2_max_poc_lsb as nat),
        timing_fits(v.len() as int, dv.sample_delta),
        shows_in_turn(own, pocs, p, dv.sample_delta, e),
    ensures
        ctts_of(media, v, dv) == Some(own),
{
    let log2 = sps.log2_max_poc_lsb as nat;
    let delta = dv.sample_delta;
    law_recovered_timing_shows_in_turn(pocs, p, log2, delta);
    let c = offsets_of(display_ranks(pocs, log2), delta);
    let f = choose|f: int| 0 <= f && #[trigger] shows_in_turn(c, pocs, p, delta, f);
    law_timing_in_turn_is_unique(c, f, own, e, pocs, p, delta);
}

} // verus!
