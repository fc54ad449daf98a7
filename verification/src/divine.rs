//! `divine`: dowsing for lost codec parameters.
//!
//! A headless H.264 stream with no parameter sets is undecodable: SPS and
//! PPS hold the field widths every slice header is parsed with, and they're
//! gone. But the space of plausible parameter sets is small and *testable*:
//! synthesize a candidate for each guess, decode the stream's own keyframe
//! under it, and ask whether what came out looks like a picture or like static.
//! The guess that produces borders and shapes is the truth: the parameters fit
//! the data like a dental record.
//!
//! The economics: the SPS depends only on geometry, so one donor encode per
//! resolution supplies it. The PPS is synthesized from scratch: entropy
//! mode, reference counts, weighted prediction, init QP are all free knobs,
//! no re-encoding.
//!
//! Decoding is the caller's. Here stand the evidence that is pulled out of the
//! wreck, the grids of guesses, and the rules by which guesses are ranked.
use crate::bits::{bits_of, lemma_bits_value_bound, read_bits, read_ue, Bits};
use crate::bytes::{be32, be32_at, push_all};
use crate::h264::{
    build_pps, parse_sps, patch_sps_widths, patched_sps, pps_of, sps_of, strip_emulation,
    unescaped, PpsParams,
};
use crate::mp4::{analyzable, diagnosis, try_analyze, Analysis, Diagnosis};
use crate::text::{decimal, push_decimal, push_signed, same_text, signed_decimal};
use crate::transplant::{locate_media, media_of};
use vstd::arithmetic::power2::pow2;
use vstd::prelude::*;
use vstd::string::*;

verus! {

// ---------------------------------------------------------------------------
// Pulling testable NALs out of the wreck: no donor needed yet
// ---------------------------------------------------------------------------

/// The three codes that open a slice header, first macroblock, slice type and PPS ID,
/// and the position behind them.
pub open spec fn slice_opening(s: Seq<bool>) -> Option<(int, int, int, int)> {
    match read_ue(s, 0) {
        None => None,
        Some((first_mb, a)) => match read_ue(s, a) {
            None => None,
            Some((slice_type, b)) => match read_ue(s, b) {
                None => None,
                Some((pps_id, c)) => Some((first_mb, slice_type, pps_id, c)),
            },
        },
    }
}

/// The lesser of two numbers.
pub open spec fn lesser(a: int, b: int) -> int {
    if a <= b {
        a
    } else {
        b
    }
}

/// The bits of the bytes from `from` to `to` of a NAL unit, unescaped.
pub open spec fn header_bits(d: Seq<u8>, from: int, to: int) -> Seq<bool> {
    bits_of(unescaped(d.subrange(from, to), 0))
}

/// At `i`: a length-prefixed slice NAL whose header is consistent and whose
/// first slice starts a picture. Gives its end, and whether it is an IDR slice.
pub open spec fn slice_at(d: Seq<u8>, i: int, min: int) -> Option<(int, bool)> {
    let len = be32_at(d, i);
    if i + 6 > d.len() || len < min || len > 0x80_0000 || i + 4 + len > d.len() {
        None
    } else {
        let nal = d[i + 4];
        let idr = nal % 32 == 5;
        if nal >= 128 || !(nal % 32 == 1 || idr) || (idr && nal / 32 == 0) {
            None
        } else {
            match slice_opening(header_bits(d, i + 5, lesser(i + 17, d.len() as int))) {
                None => None,
                Some((first_mb, slice_type, pps_id, _)) => {
                    let intra = slice_type % 5 == 2 || slice_type % 5 == 4;
                    if first_mb != 0 || slice_type > 9 || (idr && !intra) || pps_id > 3 {
                        None
                    } else {
                        Some((i + 4 + len, idr))
                    }
                },
            }
        }
    }
}

/// The first IDR slice of a thousand bytes or more, from `i` on.
pub open spec fn first_idr(d: Seq<u8>, i: int) -> Option<(int, int)>
    decreases d.len() - i,
{
    if i + 6 > d.len() {
        None
    } else {
        match slice_at(d, i, 1000) {
            Some((end, true)) => Some((i, end)),
            _ => first_idr(d, i + 1),
        }
    }
}

/// The slices of 64 bytes or more that follow, from `i` on, `left` at most.
pub open spec fn following(d: Seq<u8>, i: int, left: nat) -> Seq<Seq<u8>>
    decreases d.len() - i,
{
    if left == 0 || i + 6 > d.len() {
        seq![]
    } else {
        match slice_at(d, i, 64) {
            Some((end, _)) => if end <= i {
                seq![]
            } else {
                seq![d.subrange(i + 4, end)] + following(d, end, (left - 1) as nat)
            },
            None => following(d, i + 1, left),
        }
    }
}

/// An IDR slice and up to six slices that follow it.
pub open spec fn chain_of(d: Seq<u8>) -> Option<(Seq<u8>, Seq<Seq<u8>>)> {
    match first_idr(d, 0) {
        None => None,
        Some((start, end)) => Some((d.subrange(start + 4, end), following(d, end, 6))),
    }
}

/// Byte strings, as sequences.
pub open spec fn nals_of(v: Seq<Vec<u8>>) -> Seq<Seq<u8>> {
    v.map_values(|n: Vec<u8>| n@)
}

fn read_opening(rbsp: &[u8]) -> (r: Option<(u64, u64, u64)>)
    requires
        rbsp@.len() <= 12,
    ensures
        match r {
            Some((a, b, c)) => slice_opening(bits_of(rbsp@)) matches Some(o) && o.0 == a && o.1 == b
                && o.2 == c,
            None => slice_opening(bits_of(rbsp@)) is None,
        },
{
    let mut b = Bits::new(rbsp);
    let first_mb = b.ue()?;
    let slice_type = b.ue()?;
    let pps_id = b.ue()?;
    Some((first_mb, slice_type, pps_id))
}

/// At `i`: a length-prefixed slice NAL whose header is consistent and whose
/// first slice starts a picture. Returns (end, idr); the NAL stands from `i + 4` to
/// its end. The deeper header checks (slice_type exists and matches IDR-ness, pps_id
/// is small) cost nothing and keep torn-head garbage from posing as
/// evidence: a fake keyframe here poisons every verdict downstream.
fn slice_nal_at(d: &[u8], i: usize, min: usize) -> (r: Option<(usize, bool)>)
    ensures
        match r {
            Some((end, idr)) => slice_at(d@, i as int, min as int) == Some((end as int, idr)) && i + 4
                + min <= end <= d@.len(),
            None => slice_at(d@, i as int, min as int) is None,
        },
{
    assert(d.len() <= usize::MAX);
    if d.len() < 6 || i > d.len() - 6 {
        return None;
    }
    let len: usize = be32(d, i) as usize;
    if len < min || len > 0x80_0000 || len > d.len() - i - 4 {
        return None;
    }
    let nal: u8 = d[i + 4];
    let idr = nal % 32 == 5;
    if nal >= 128 || !(nal % 32 == 1 || idr) || (idr && nal / 32 == 0) {
        return None;
    }
    let header_end: usize = if d.len() - i <= 17 {
        d.len()
    } else {
        i + 17
    };
    let rbsp = strip_emulation(&d[i + 5..header_end]);
    match read_opening(&rbsp) {
        None => None,
        Some((first_mb, slice_type, pps_id)) => {
            let intra = slice_type % 5 == 2 || slice_type % 5 == 4;
            if first_mb != 0 || slice_type > 9 || (idr && !intra) || pps_id > 3 {
                None
            } else {
                Some((i + 4 + len, idr))
            }
        },
    }
}

fn copied(d: &[u8], from: usize, to: usize) -> (r: Vec<u8>)
    requires
        from <= to <= d@.len(),
    ensures
        r@ == d@.subrange(from as int, to as int),
{
    let mut v: Vec<u8> = Vec::new();
    push_all(&mut v, &d[from..to]);
    assert(v@ =~= d@.subrange(from as int, to as int));
    v
}

fn following_slices(d: &[u8], start: usize) -> (rest: Vec<Vec<u8>>)
    requires
        start <= d@.len(),
    ensures
        nals_of(rest@) == following(d@, start as int, 6),
        rest@.len() <= 6,
{
    let mut rest: Vec<Vec<u8>> = Vec::new();
    let ghost all = following(d@, start as int, 6);
    let mut i: usize = start;
    assert(nals_of(rest@) =~= Seq::<Seq<u8>>::empty());
    assert(Seq::<Seq<u8>>::empty() + all =~= all);
    while rest.len() < 6 && d.len() >= 6 && i <= d.len() - 6
        invariant
            rest@.len() <= 6,
            i <= d@.len(),
            all == nals_of(rest@) + following(d@, i as int, (6 - rest@.len()) as nat),
        decreases d.len() - i,
    {
        match slice_nal_at(d, i, 64) {
            Some((end, _)) => {
                let ghost before = nals_of(rest@);
                let ghost more = following(d@, end as int, (5 - rest@.len()) as nat);
                let nal = copied(d, i + 4, end);
                let ghost shown = nal@;
                rest.push(nal);
                assert(nals_of(rest@) =~= before.push(shown));
                assert(before + (seq![shown] + more) =~= before.push(shown) + more);
                i = end;
            },
            None => {
                i += 1;
            },
        }
    }
    assert(nals_of(rest@) + Seq::<Seq<u8>>::empty() =~= nals_of(rest@));
    rest
}

/// Greedy scan for one IDR slice and the slices that follow it.
pub fn extract_chain(d: &[u8]) -> (r: Option<(Vec<u8>, Vec<Vec<u8>>)>)
    ensures
        match r {
            Some((idr, rest)) => chain_of(d@) == Some((idr@, nals_of(rest@))) && idr@.len() >= 1000
                && rest@.len() <= 6,
            None => chain_of(d@) is None,
        },
{
    let mut i: usize = 0;
    while d.len() >= 6 && i <= d.len() - 6
        invariant
            i <= d@.len(),
            first_idr(d@, 0) == first_idr(d@, i as int),
        decreases d.len() - i,
    {
        match slice_nal_at(d, i, 1000) {
            Some((end, true)) => {
                let idr = copied(d, i + 4, end);
                let rest = following_slices(d, end);
                return Some((idr, rest));
            },
            _ => {
                i += 1;
            },
        }
    }
    None
}

// ---------------------------------------------------------------------------
// The long count
// ---------------------------------------------------------------------------

/// How often a count behaved, of how often it was asked.
#[derive(Debug, Clone, Copy, PartialEq, Eq, Structural)]
pub struct Tally {
    pub ok: u32,
    pub tot: u32,
}

/// How far a count has come: how often it behaved, of how often, and the last number.
pub struct Count {
    pub ok: int,
    pub tot: int,
    pub prev: Option<int>,
}

/// The count with one more slice: `frame_num` is +0/+1 modulo `m` in decode order, and
/// resets to 0 at every IDR.
pub open spec fn counted_on(c: Count, idr: bool, f: int, m: int) -> Count {
    if idr {
        if f == 0 {
            Count { ok: c.ok + 1, tot: c.tot + 1, prev: Some(0) }
        } else {
            Count { ok: c.ok, tot: c.tot + 1, prev: None }
        }
    } else {
        match c.prev {
            None => Count { prev: Some(f), ..c },
            Some(p) => Count {
                ok: if f == p || f == (p + 1) % m {
                    c.ok + 1
                } else {
                    c.ok
                },
                tot: c.tot + 1,
                prev: Some(f),
            },
        }
    }
}

/// The frame_num of the slice from `i + 4` to `end`, at a width.
pub open spec fn frame_num_at(d: Seq<u8>, i: int, end: int, width: nat) -> Option<int> {
    let s = header_bits(d, i + 5, lesser(i + 17, end));
    match slice_opening(s) {
        None => None,
        Some((_, _, _, p)) => match read_bits(s, p, width) {
            None => None,
            Some((v, _)) => Some(v),
        },
    }
}

/// The count over the slices of 200 bytes or more from `i` on, `left` at most.
pub open spec fn long_count_from(d: Seq<u8>, i: int, width: nat, left: nat, c: Count) -> Count
    decreases d.len() - i,
{
    if left == 0 || i + 6 > d.len() {
        c
    } else {
        match slice_at(d, i, 200) {
            None => long_count_from(d, i + 1, width, left, c),
            Some((end, idr)) => if end <= i {
                c
            } else {
                let next = match frame_num_at(d, i, end, width) {
                    None => c,
                    Some(f) => counted_on(c, idr, f, pow2(width) as int),
                };
                long_count_from(d, end, width, (left - 1) as nat, next)
            },
        }
    }
}

/// The count over the first 400 slices.
pub open spec fn long_count(d: Seq<u8>, width: nat) -> Count {
    long_count_from(d, 0, width, 400, Count { ok: 0, tot: 0, prev: None })
}

fn read_frame_num(d: &[u8], i: usize, end: usize, width: u32) -> (r: Option<u64>)
    requires
        i + 5 <= end <= d@.len(),
    ensures
        match r {
            Some(v) => frame_num_at(d@, i as int, end as int, width as nat) == Some(v as int),
            None => frame_num_at(d@, i as int, end as int, width as nat) is None,
        },
{
    let header_end: usize = if end - i <= 17 {
        end
    } else {
        i + 17
    };
    let rbsp = strip_emulation(&d[i + 5..header_end]);
    let mut b = Bits::new(&rbsp);
    let first_mb = b.ue()?;
    let slice_type = b.ue()?;
    let pps_id = b.ue()?;
    b.u(width)
}

/// Long-range counting check: parses frame_num from hundreds of slices at a
/// candidate width and counts how often it behaves: +0/+1 mod M in
/// decode order, reset to 0 at every IDR. A short evidence chain cannot tell
/// adjacent widths apart (frame 6 looks the same 4 bits wide or 5), but the
/// whole tape can: at the wrong width, the count goes mad mid-GOP.
pub fn frame_num_consistency(media: &[u8], fn_width: u32) -> (r: Tally)
    requires
        fn_width < 64,
    ensures
        r.ok == long_count(media@, fn_width as nat).ok,
        r.tot == long_count(media@, fn_width as nat).tot,
        r.ok <= r.tot <= 400,
{
    proof {
        vstd::arithmetic::power2::lemma_pow2_pos(fn_width as nat);
        lemma_pow2_below_64(fn_width as nat);
        vstd::bits::lemma_u64_shl_is_mul(1, fn_width as u64);
    }
    let m: u64 = 1u64 << (fn_width as u64);
    let mut i: usize = 0;
    let mut ok: u32 = 0;
    let mut tot: u32 = 0;
    let mut prev: Option<u64> = None;
    let mut seen: u32 = 0;
    while media.len() >= 6 && i <= media.len() - 6 && seen < 400
        invariant
            i <= media@.len(),
            m == pow2(fn_width as nat),
            m > 0,
            seen <= 400,
            ok <= tot <= seen,
            prev matches Some(p) ==> p < u64::MAX,
            fn_width < 64,
            long_count(media@, fn_width as nat) == long_count_from(
                media@,
                i as int,
                fn_width as nat,
                (400 - seen) as nat,
                Count {
                    ok: ok as int,
                    tot: tot as int,
                    prev: match prev {
                        Some(p) => Some(p as int),
                        None => None,
                    },
                },
            ),
        decreases media.len() - i,
    {
        match slice_nal_at(media, i, 200) {
            Some((end, idr)) => {
                seen += 1;
                if let Some(f) = read_frame_num(media, i, end, fn_width) {
                    proof {
                        lemma_frame_num_small(media@, i as int, end as int, fn_width as nat);
                    }
                    if idr {
                        tot += 1;
                        if f == 0 {
                            ok += 1;
                            prev = Some(0);
                        } else {
                            prev = None;
                        }
                    } else {
                        if let Some(p) = prev {
                            tot += 1;
                            if f == p || f == (p + 1) % m {
                                ok += 1;
                            }
                        }
                        prev = Some(f);
                    }
                }
                i = end;
            },
            None => {
                i += 1;
            },
        }
    }
    Tally { ok, tot }
}

proof fn lemma_pow2_below_64(n: nat)
    requires
        n < 64,
    ensures
        1 <= pow2(n) <= 0x8000_0000_0000_0000,
{
    vstd::arithmetic::power2::lemma_pow2_pos(n);
    vstd::arithmetic::power2::lemma2_to64_rest();
    if n < 63 {
        vstd::arithmetic::power2::lemma_pow2_strictly_increases(n, 63);
    }
}

proof fn lemma_frame_num_small(d: Seq<u8>, i: int, end: int, width: nat)
    requires
        width < 64,
    ensures
        frame_num_at(d, i, end, width) matches Some(v) ==> 0 <= v < u64::MAX,
{
    let s = header_bits(d, i + 5, lesser(i + 17, end));
    if let Some((_, _, _, p)) = slice_opening(s) {
        if 0 <= p && p + width <= s.len() {
            lemma_bits_value_bound(s.subrange(p, p + width));
            lemma_pow2_below_64(width);
        }
    }
}

// ---------------------------------------------------------------------------
// The grids of guesses
// ---------------------------------------------------------------------------

/// Resolutions in rough order of real-world likelihood.
pub const RESOLUTIONS: [(u32, u32); 12] = [
    (1920, 1080),
    (1280, 720),
    (640, 360),
    (854, 480),
    (3840, 2160),
    (2560, 1440),
    (960, 540),
    (720, 480),
    (640, 480),
    (720, 576),
    (426, 240),
    (320, 240),
];

/// Widths of SPS fields: log2_max_frame_num - 4, and log2_max_poc_lsb - 4 or none for
/// poc_type 2.
pub type Widths = (u64, Option<u64>);

/// One resolution's donor: its native SPS.
#[derive(Debug)]
pub struct Geometry {
    pub res: (u32, u32),
    pub native_sps: Vec<u8>,
}

/// A parameter guess awaiting judgment, for the geometry at an index.
#[derive(Debug)]
pub struct Trial {
    pub res: (u32, u32),
    pub widths: Option<Widths>,
    pub pps: PpsParams,
    pub sps: Vec<u8>,
    pub geometry: usize,
}

/// A parameter guess.
pub struct Guess {
    pub res: (u32, u32),
    pub widths: Option<Widths>,
    pub pps: PpsParams,
    pub sps: Seq<u8>,
    pub geometry: int,
}

impl View for Trial {
    type V = Guess;

    open spec fn view(&self) -> Guess {
        Guess {
            res: self.res,
            widths: self.widths,
            pps: self.pps,
            sps: self.sps@,
            geometry: self.geometry as int,
        }
    }
}

/// A list of guesses.
pub open spec fn guesses_of(trials: Seq<Trial>) -> Seq<Guess> {
    trials.map_values(|t: Trial| t@)
}

/// SPS width guesses tried first: donor-native, the hardware-encoder
/// corner (small frame_num, wide POC), the x264 keyint family, and the
/// poc_type-2 layouts of B-frame-less streams (no POC field in headers).
pub open spec fn first_widths() -> Seq<Option<Widths>> {
    seq![
        None,
        Some((0u64, Some(4u64))),
        Some((1u64, Some(4u64))),
        Some((4u64, Some(5u64))),
        Some((2u64, Some(3u64))),
        Some((0u64, None)),
        Some((1u64, None)),
    ]
}

fn stage1_widths() -> (r: Vec<Option<Widths>>)
    ensures
        r@ == first_widths(),
{
    let r: Vec<Option<Widths>> = vec![
        None,
        Some((0, Some(4))),
        Some((1, Some(4))),
        Some((4, Some(5))),
        Some((2, Some(3))),
        Some((0, None)),
        Some((1, None)),
    ];
    assert(r@ =~= first_widths());
    r
}

/// The init_qp that is searched at step `i`: 26, then one less, one more, two less,
/// two more.
pub open spec fn qp_at(i: int) -> i64 {
    (if i % 2 == 1 {
        26 - (i + 1) / 2
    } else {
        26 + i / 2
    }) as i64
}

/// The search order of init_qp.
pub open spec fn qp_order() -> Seq<i64> {
    Seq::new(33, |i: int| qp_at(i))
}

/// init_qp search order for CABAC: 26 outward. Encoders cluster near the
/// middle of the scale; the tails exist but rarely.
pub fn init_qp_order() -> (r: Vec<i64>)
    ensures
        r@ == qp_order(),
        forall|i: int| 0 <= i < r@.len() ==> 0 <= #[trigger] r@[i] <= 51,
{
    let mut v: Vec<i64> = Vec::new();
    v.push(26);
    let mut d: i64 = 1;
    while d <= 16
        invariant
            1 <= d <= 17,
            v@.len() == 2 * d - 1,
            forall|i: int| 0 <= i < v@.len() ==> #[trigger] v@[i] == qp_at(i),
        decreases 17 - d,
    {
        v.push(26 - d);
        v.push(26 + d);
        d += 1;
    }
    assert(v@ =~= qp_order());
    v
}

/// The guess that needs no seed: CAVLC parses independent of init QP.
pub open spec fn cavlc_guess() -> PpsParams {
    PpsParams {
        cabac: false,
        ref_l0: 2,
        weighted_pred: false,
        init_qp: 26,
        chroma_qp_offset: 0,
        transform_8x8: false,
    }
}

/// A guess at the seed of CABAC.
pub open spec fn cabac_guess(init_qp: i64, transform_8x8: bool) -> PpsParams {
    PpsParams {
        cabac: true,
        ref_l0: 2,
        weighted_pred: false,
        init_qp,
        chroma_qp_offset: 0,
        transform_8x8,
    }
}

/// A guess with every init_qp, in search order.
pub open spec fn swept(p: PpsParams) -> Seq<PpsParams> {
    qp_order().map_values(|q: i64| PpsParams { init_qp: q, ..p })
}

/// The parameters tried for each width guess: CAVLC once, CABAC with every seed in both
/// 8x8 modes.
pub open spec fn first_pps() -> Seq<PpsParams> {
    seq![cavlc_guess()] + swept(cabac_guess(26, true)) + swept(cabac_guess(26, false))
}

/// The parameters tried for a finalist: only CABAC depends on the seed.
pub open spec fn reseeded(p: PpsParams) -> Seq<PpsParams> {
    if p.cabac {
        swept(p)
    } else {
        seq![p]
    }
}

/// A native SPS with other widths; none if it cannot be parsed.
pub open spec fn variant(native: Seq<u8>, widths: Option<Widths>) -> Option<Seq<u8>> {
    match widths {
        None => Some(native),
        Some((f, p)) => patched_sps(native, f as nat, p),
    }
}

/// The guesses for one geometry at one width guess.
pub open spec fn guesses_at(
    geometry: int,
    res: (u32, u32),
    native: Seq<u8>,
    widths: Option<Widths>,
    pps: Seq<PpsParams>,
) -> Seq<Guess> {
    match variant(native, widths) {
        None => seq![],
        Some(sps) => pps.map_values(|p: PpsParams| Guess { res, widths, pps: p, sps, geometry }),
    }
}

/// The guesses for one geometry over a grid of widths.
pub open spec fn guesses_over(
    geometry: int,
    res: (u32, u32),
    native: Seq<u8>,
    grid: Seq<Option<Widths>>,
    pps: Seq<PpsParams>,
) -> Seq<Guess>
    decreases grid.len(),
{
    if grid.len() == 0 {
        seq![]
    } else {
        guesses_over(geometry, res, native, grid.drop_last(), pps) + guesses_at(
            geometry,
            res,
            native,
            grid.last(),
            pps,
        )
    }
}

/// The guesses of the first stage: every geometry, width and seed.
pub open spec fn first_guesses(geometries: Seq<Geometry>) -> Seq<Guess>
    decreases geometries.len(),
{
    if geometries.len() == 0 {
        seq![]
    } else {
        let g = geometries.last();
        first_guesses(geometries.drop_last()) + guesses_over(
            geometries.len() - 1,
            g.res,
            g.native_sps@,
            first_widths(),
            first_pps(),
        )
    }
}

/// The bits of a parameter set can be counted.
pub open spec fn countable(sps: Seq<u8>) -> bool {
    8 * sps.len() <= usize::MAX
}

/// Widths that stand for field widths.
pub open spec fn widths_ok(widths: Option<Widths>) -> bool {
    match widths {
        None => true,
        Some((f, p)) => f + 4 <= u64::MAX && (p matches Some(x) ==> x + 4 <= u64::MAX),
    }
}

fn sps_variant(native_sps: &Vec<u8>, widths: Option<Widths>) -> (r: Option<Vec<u8>>)
    requires
        countable(native_sps@),
        widths_ok(widths),
    ensures
        variant(native_sps@, widths) == match r {
            Some(sps) => Some(sps@),
            None => None,
        },
{
    match widths {
        None => Some(copied(native_sps, 0, native_sps.len())),
        Some((f, p)) => patch_sps_widths(native_sps, f, p),
    }
}

/// Adds the guesses for one geometry over a grid of widths.
fn push_trials(
    out: &mut Vec<Trial>,
    geometry: usize,
    geo: &Geometry,
    grid: &[Option<Widths>],
    pps: &[PpsParams],
)
    requires
        countable(geo.native_sps@),
        forall|i: int| 0 <= i < grid@.len() ==> widths_ok(#[trigger] grid@[i]),
    ensures
        guesses_of(final(out)@) == guesses_of(old(out)@) + guesses_over(
            geometry as int,
            geo.res,
            geo.native_sps@,
            grid@,
            pps@,
        ),
{
    let ghost start = guesses_of(out@);
    let ghost native = geo.native_sps@;
    let mut i: usize = 0;
    assert(grid@.take(0) =~= Seq::<Option<Widths>>::empty());
    assert(start + Seq::<Guess>::empty() =~= start);
    while i < grid.len()
        invariant
            i <= grid@.len(),
            countable(geo.native_sps@),
            native == geo.native_sps@,
            forall|i: int| 0 <= i < grid@.len() ==> widths_ok(#[trigger] grid@[i]),
            guesses_of(out@) == start + guesses_over(
                geometry as int,
                geo.res,
                native,
                grid@.take(i as int),
                pps@,
            ),
        decreases grid.len() - i,
    {
        let ghost before = guesses_of(out@);
        let ghost earlier = guesses_over(
            geometry as int,
            geo.res,
            native,
            grid@.take(i as int),
            pps@,
        );
        let ghost here = guesses_at(geometry as int, geo.res, native, grid@[i as int], pps@);
        if let Some(sps) = sps_variant(&geo.native_sps, grid[i]) {
            let mut j: usize = 0;
            assert(before + here.take(0) =~= before);
            while j < pps.len()
                invariant
                    i < grid@.len(),
                    j <= pps@.len(),
                    here == pps@.map_values(
                        |p: PpsParams|
                            Guess {
                                res: geo.res,
                                widths: grid@[i as int],
                                pps: p,
                                sps: sps@,
                                geometry: geometry as int,
                            },
                    ),
                    guesses_of(out@) == before + here.take(j as int),
                decreases pps.len() - j,
            {
                let t = Trial {
                    res: geo.res,
                    widths: grid[i],
                    pps: pps[j],
                    sps: copied(&sps, 0, sps.len()),
                    geometry,
                };
                assert(t.sps@ =~= sps@);
                assert(t@ == here[j as int]);
                let ghost so_far = guesses_of(out@);
                out.push(t);
                assert(guesses_of(out@) =~= so_far.push(here[j as int]));
                assert(here.take(j + 1) =~= here.take(j as int).push(here[j as int]));
                assert((before + here.take(j as int)).push(here[j as int]) =~= before + here.take(
                    j + 1,
                ));
                j += 1;
            }
            assert(here.take(j as int) =~= here);
        } else {
            assert(before + here =~= before);
        }
        assert(grid@.take(i + 1).drop_last() =~= grid@.take(i as int));
        assert(start + earlier + here =~= start + (earlier + here));
        i += 1;
    }
    assert(grid@.take(i as int) =~= grid@);
}

fn push_swept(out: &mut Vec<PpsParams>, p: PpsParams)
    ensures
        final(out)@ == old(out)@ + swept(p),
{
    let qps = init_qp_order();
    let mut i: usize = 0;
    let ghost start = out@;
    assert(start + swept(p).take(0) =~= start);
    while i < qps.len()
        invariant
            i <= qps@.len(),
            qps@ == qp_order(),
            out@ == start + swept(p).take(i as int),
        decreases qps.len() - i,
    {
        out.push(PpsParams { init_qp: qps[i], ..p });
        assert(swept(p).take(i + 1) =~= swept(p).take(i as int).push(swept(p)[i as int]));
        assert(out@ =~= start + swept(p).take(i + 1));
        i += 1;
    }
    assert(swept(p).take(i as int) =~= swept(p));
}

/// The guesses of the first stage, geometry and entropy, to be judged on the keyframe
/// alone. CAVLC: init_qp doesn't gate parsing, one shot per widths. CABAC: the seed must
/// be right; sweep 26 outward, both 8x8 modes.
pub fn stage1_trials(geometries: &[Geometry]) -> (trials: Vec<Trial>)
    requires
        forall|i: int| 0 <= i < geometries@.len() ==> countable(#[trigger] geometries@[i].native_sps@),
    ensures
        guesses_of(trials@) == first_guesses(geometries@),
{
    let mut pps: Vec<PpsParams> = Vec::new();
    pps.push(
        PpsParams {
            cabac: false,
            ref_l0: 2,
            weighted_pred: false,
            init_qp: 26,
            chroma_qp_offset: 0,
            transform_8x8: false,
        },
    );
    let seed = PpsParams {
        cabac: true,
        ref_l0: 2,
        weighted_pred: false,
        init_qp: 26,
        chroma_qp_offset: 0,
        transform_8x8: true,
    };
    push_swept(&mut pps, seed);
    push_swept(&mut pps, PpsParams { transform_8x8: false, ..seed });
    assert(pps@ =~= first_pps());
    let grid = stage1_widths();
    let mut trials: Vec<Trial> = Vec::new();
    let mut i: usize = 0;
    assert(geometries@.take(0) =~= Seq::<Geometry>::empty());
    assert(guesses_of(trials@) =~= Seq::<Guess>::empty());
    while i < geometries.len()
        invariant
            i <= geometries@.len(),
            pps@ == first_pps(),
            grid@ == first_widths(),
            forall|i: int|
                0 <= i < geometries@.len() ==> countable(#[trigger] geometries@[i].native_sps@),
            guesses_of(trials@) == first_guesses(geometries@.take(i as int)),
        decreases geometries.len() - i,
    {
        push_trials(&mut trials, i, &geometries[i], &grid, &pps);
        assert(geometries@.take(i + 1).drop_last() =~= geometries@.take(i as int));
        i += 1;
    }
    assert(geometries@.take(i as int) =~= geometries@);
    trials
}

// ---------------------------------------------------------------------------
// Ranking candidates
// ---------------------------------------------------------------------------

/// A guess that was judged. Scores are IEEE doubles, by their bits: none is negative,
/// so the bits order as the numbers do.
#[derive(Debug)]
pub struct Candidate {
    pub res: (u32, u32),
    pub widths: Option<Widths>,
    pub pps: PpsParams,
    pub sps: Vec<u8>,
    pub geometry: usize,
    pub errors: usize,
    pub gestalt: u64,
    /// The second opinion, where a model gave one.
    pub nn: Option<u64>,
    /// frame_num counting consistency across the whole payload.
    pub consistency: Option<Tally>,
}

/// Where a candidate stands: fewer decoder errors first, then the more consistent
/// count, then the better picture.
#[derive(Debug, Clone, Copy, PartialEq, Eq, Structural)]
pub struct Standing {
    pub errors: usize,
    pub consistency: Option<Tally>,
    pub score: u64,
}

/// A tally as a fraction: one half where there is not enough testimony either way.
pub open spec fn fraction(t: Option<Tally>) -> (int, int) {
    match t {
        None => (1, 2),
        Some(t) => if t.tot < 16 {
            (1, 2)
        } else {
            (t.ok as int, t.tot as int)
        },
    }
}

/// The first fraction is greater.
pub open spec fn exceeds(a: (int, int), b: (int, int)) -> bool {
    a.0 * b.1 > b.0 * a.1
}

/// The first standing is better.
pub open spec fn outranks(a: Standing, b: Standing) -> bool {
    let (ca, cb) = (fraction(a.consistency), fraction(b.consistency));
    a.errors < b.errors || (a.errors == b.errors && (exceeds(ca, cb) || (!exceeds(cb, ca) && a.score
        > b.score)))
}

/// The `i`th comes before the `j`th: it is better, or as good and was there first.
pub open spec fn precedes(s: Seq<Standing>, i: int, j: int) -> bool {
    outranks(s[i], s[j]) || (!outranks(s[j], s[i]) && i < j)
}

/// The order names each place once, each before those that it precedes.
pub open spec fn is_ranking(order: Seq<usize>, s: Seq<Standing>) -> bool {
    &&& order.len() == s.len()
    &&& forall|a: int| 0 <= a < order.len() ==> (#[trigger] order[a]) < s.len()
    &&& forall|a: int, b: int|
        0 <= a < b < order.len() ==> precedes(
            s,
            (#[trigger] order[a]) as int,
            (#[trigger] order[b]) as int,
        )
}

proof fn lemma_exceeds_transitive(a: (int, int), b: (int, int), c: (int, int))
    requires
        a.1 > 0,
        b.1 > 0,
        c.1 > 0,
        !exceeds(b, a),
        !exceeds(c, b),
    ensures
        !exceeds(c, a),
        exceeds(a, b) || exceeds(b, c) ==> exceeds(a, c),
{
    let (x, p) = a;
    let (y, q) = b;
    let (z, r) = c;
    // x/p >= y/q >= z/r
    assert(z * p <= x * r) by (nonlinear_arith)
        requires
            y * p <= x * q,
            z * q <= y * r,
            p > 0,
            q > 0,
            r > 0,
    {
        assert((y * p) * r <= (x * q) * r);
        assert((z * q) * p <= (y * r) * p);
        assert(q * (z * p) <= q * (x * r));
    }
    if x * q > y * p || y * r > z * q {
        assert(x * r > z * p) by (nonlinear_arith)
            requires
                y * p <= x * q,
                z * q <= y * r,
                x * q > y * p || y * r > z * q,
                p > 0,
                q > 0,
                r > 0,
        {
            if x * q > y * p {
                assert((x * q) * r > (y * p) * r);
                assert((z * q) * p <= (y * r) * p);
            } else {
                assert((y * p) * r <= (x * q) * r);
                assert((z * q) * p < (y * r) * p);
            }
            assert(q * (x * r) > q * (z * p));
        }
    }
}

/// Better is a strict weak order: of three, what does not stand behind is transitive.
proof fn lemma_outranks(a: Standing, b: Standing, c: Standing)
    requires
        !outranks(b, a),
        !outranks(c, b),
    ensures
        !outranks(c, a),
        outranks(a, b) || outranks(b, c) ==> outranks(a, c),
{
    let (fa, fb, fc) = (fraction(a.consistency), fraction(b.consistency), fraction(c.consistency));
    if a.errors == b.errors && b.errors == c.errors {
        lemma_exceeds_transitive(fa, fb, fc);
        if !exceeds(fa, fb) && !exceeds(fb, fc) {
            lemma_exceeds_transitive(fc, fb, fa);
        }
    }
}

/// Whether the first standing is better.
fn better(a: &Standing, b: &Standing) -> (r: bool)
    ensures
        r == outranks(*a, *b),
{
    if a.errors != b.errors {
        return a.errors < b.errors;
    }
    let (an, ad) = as_fraction(&a.consistency);
    let (bn, bd) = as_fraction(&b.consistency);
    proof {
        lemma_product(an, bd);
        lemma_product(bn, ad);
    }
    let left: u64 = an * bd;
    let right: u64 = bn * ad;
    left > right || (left == right && a.score > b.score)
}

proof fn lemma_product(a: u64, b: u64)
    requires
        a <= u32::MAX,
        b <= u32::MAX,
    ensures
        0 <= a * b <= u64::MAX,
{
    assert(0 <= a * b <= u32::MAX * u32::MAX) by (nonlinear_arith)
        requires
            0 <= a <= u32::MAX,
            0 <= b <= u32::MAX,
    ;
}

fn as_fraction(t: &Option<Tally>) -> (r: (u64, u64))
    ensures
        (r.0 as int, r.1 as int) == fraction(*t),
        r.0 <= u32::MAX,
        r.1 <= u32::MAX,
{
    match t {
        None => (1, 2),
        Some(t) => if t.tot < 16 {
            (1, 2)
        } else {
            (t.ok as u64, t.tot as u64)
        },
    }
}

/// The order in which candidates stand, by their indices. Candidates that stand alike
/// stay in the order in which they came.
pub fn ranking(standings: &[Standing]) -> (order: Vec<usize>)
    ensures
        is_ranking(order@, standings@),
{
    let mut order: Vec<usize> = Vec::new();
    let mut i: usize = 0;
    while i < standings.len()
        invariant
            i <= standings@.len(),
            order@.len() == i,
            forall|a: int| 0 <= a < order@.len() ==> (#[trigger] order@[a]) < i,
            forall|a: int, b: int|
                0 <= a < b < order@.len() ==> precedes(
                    standings@,
                    (#[trigger] order@[a]) as int,
                    (#[trigger] order@[b]) as int,
                ),
        decreases standings.len() - i,
    {
        let mut at: usize = order.len();
        while at > 0 && better(&standings[i], &standings[order[at - 1]])
            invariant
                i < standings@.len(),
                at <= order@.len(),
                order@.len() == i,
                forall|a: int| 0 <= a < order@.len() ==> (#[trigger] order@[a]) < i,
                forall|a: int|
                    at <= a < order@.len() ==> outranks(
                        standings@[i as int],
                        standings@[(#[trigger] order@[a]) as int],
                    ),
            decreases at,
        {
            at -= 1;
        }
        let ghost before = order@;
        proof {
            assert forall|a: int| 0 <= a < at implies precedes(
                standings@,
                (#[trigger] before[a]) as int,
                i as int,
            ) by {
                let last = before[at - 1] as int;
                assert(!outranks(standings@[i as int], standings@[last]));
                if a < at - 1 {
                    assert(precedes(standings@, before[a] as int, before[at - 1] as int));
                    lemma_not_both(standings@[before[a] as int], standings@[last]);
                    lemma_outranks(
                        standings@[before[a] as int],
                        standings@[last],
                        standings@[i as int],
                    );
                }
            }
        }
        order.insert(at, i);
        assert forall|a: int, b: int| 0 <= a < b < order@.len() implies precedes(
            standings@,
            (#[trigger] order@[a]) as int,
            (#[trigger] order@[b]) as int,
        ) by {
            let (x, y) = (
                if a < at {
                    a
                } else {
                    a - 1
                },
                if b < at {
                    b
                } else {
                    b - 1
                },
            );
            if b == at {
                assert(order@[a] == before[a]);
            } else if a == at {
                assert(order@[b] == before[y]);
                assert(outranks(standings@[i as int], standings@[before[y] as int]));
            } else {
                assert(order@[a] == before[x] && order@[b] == before[y]);
                assert(precedes(standings@, before[x] as int, before[y] as int));
            }
        }
        assert forall|a: int| 0 <= a < order@.len() implies (#[trigger] order@[a]) < i + 1 by {
            if a < at {
                assert(order@[a] == before[a]);
            } else if a > at {
                assert(order@[a] == before[a - 1]);
            }
        }
        i += 1;
    }
    order
}

proof fn lemma_not_both(a: Standing, b: Standing)
    ensures
        outranks(a, b) ==> !outranks(b, a),
{
}

/// A ranking leaves nobody out.
proof fn lemma_everyone_ranked(order: Seq<usize>, s: Seq<Standing>, k: usize)
    requires
        is_ranking(order, s),
        k < s.len(),
    ensures
        exists|a: int| 0 <= a < order.len() && order[a] == k,
{
    let places = order.map_values(|x: usize| x as int);
    assert forall|a: int, b: int| 0 <= a < places.len() && 0 <= b < places.len() && a != b implies
        places[a] != places[b] by {
        if a < b {
            assert(precedes(s, order[a] as int, order[b] as int));
            lemma_not_both(s[order[a] as int], s[order[b] as int]);
        } else {
            assert(precedes(s, order[b] as int, order[a] as int));
            lemma_not_both(s[order[b] as int], s[order[a] as int]);
        }
    }
    places.unique_seq_to_set();
    let all = vstd::set_lib::set_int_range(0, s.len() as int);
    vstd::set_lib::lemma_int_range(0, s.len() as int);
    assert(places.to_set().subset_of(all)) by {
        assert forall|x: int| places.to_set().contains(x) implies all.contains(x) by {
            let a = choose|a: int| 0 <= a < places.len() && places[a] == x;
            assert(order[a] < s.len());
        }
    }
    vstd::set_lib::lemma_subset_equality(places.to_set(), all);
    assert(places.to_set().contains(k as int));
    let a = choose|a: int| 0 <= a < places.len() && places[a] == k as int;
    assert(order[a] == k);
}

proof fn lemma_ranking_prefix(a: Seq<usize>, b: Seq<usize>, s: Seq<Standing>, n: int)
    requires
        is_ranking(a, s),
        is_ranking(b, s),
        0 <= n <= a.len(),
    ensures
        forall|i: int| 0 <= i < n ==> a[i] == b[i],
    decreases n,
{
    if n > 0 {
        let i = n - 1;
        lemma_ranking_prefix(a, b, s, i);
        lemma_everyone_ranked(b, s, a[i]);
        lemma_everyone_ranked(a, s, b[i]);
        let j = choose|j: int| 0 <= j < b.len() && b[j] == a[i];
        let k = choose|k: int| 0 <= k < a.len() && a[k] == b[i];
        if a[i] != b[i] {
            // neither stands in the common front
            if j < i {
                assert(a[j] == b[j]);
                assert(precedes(s, a[j] as int, a[i] as int));
                lemma_not_both(s[a[j] as int], s[a[i] as int]);
            } else if k < i {
                assert(a[k] == b[k]);
                assert(precedes(s, b[k] as int, b[i] as int));
                lemma_not_both(s[b[k] as int], s[b[i] as int]);
            } else {
                assert(precedes(s, b[i] as int, b[j] as int));
                assert(precedes(s, a[i] as int, a[k] as int));
                lemma_not_both(s[a[i] as int], s[b[i] as int]);
                lemma_not_both(s[b[i] as int], s[a[i] as int]);
            }
        }
    }
}

/// A ranking names every candidate.
pub proof fn law_ranking_is_complete(order: Seq<usize>, s: Seq<Standing>, k: usize)
    requires
        is_ranking(order, s),
        k < s.len(),
    ensures
        order.contains(k),
{
    lemma_everyone_ranked(order, s, k);
}

/// There is only one ranking: nothing in it is left to chance.
pub proof fn law_ranking_is_unique(a: Seq<usize>, b: Seq<usize>, s: Seq<Standing>)
    requires
        is_ranking(a, s),
        is_ranking(b, s),
    ensures
        a == b,
{
    lemma_ranking_prefix(a, b, s, a.len() as int);
    assert(a =~= b);
}

impl Candidate {
    /// Where the candidate stands, by a picture score.
    pub fn standing(&self, score: u64) -> (r: Standing)
        ensures
            r == (Standing { errors: self.errors, consistency: self.consistency, score }),
    {
        Standing { errors: self.errors, consistency: self.consistency, score }
    }

    /// The guess in words.
    pub open spec fn words(&self) -> Seq<char> {
        decimal(self.res.0 as nat) + "x"@ + decimal(self.res.1 as nat) + (if self.pps.cabac {
            " cabac init_qp="@
        } else {
            " cavlc init_qp="@
        }) + signed_decimal(self.pps.init_qp as int) + " ref="@ + decimal(self.pps.ref_l0 as nat)
            + (if self.pps.weighted_pred {
            " wp=1"@
        } else {
            " wp=0"@
        }) + (if self.pps.transform_8x8 {
            " 8x8=1 "@
        } else {
            " 8x8=0 "@
        }) + width_words(self.widths)
    }

    /// The guess in words.
    pub fn recipe(&self) -> (r: String)
        requires
            widths_ok(self.widths),
        ensures
            r@ == self.words(),
    {
        let mut s = String::new();
        push_decimal(&mut s, self.res.0 as u64);
        s.append("x");
        push_decimal(&mut s, self.res.1 as u64);
        if self.pps.cabac {
            s.append(" cabac init_qp=");
        } else {
            s.append(" cavlc init_qp=");
        }
        push_signed(&mut s, self.pps.init_qp);
        s.append(" ref=");
        push_decimal(&mut s, self.pps.ref_l0 as u64);
        if self.pps.weighted_pred {
            s.append(" wp=1");
        } else {
            s.append(" wp=0");
        }
        if self.pps.transform_8x8 {
            s.append(" 8x8=1 ");
        } else {
            s.append(" 8x8=0 ");
        }
        push_widths(&mut s, self.widths);
        assert(s@ =~= self.words());
        s
    }
}

/// Widths in words.
pub open spec fn width_words(widths: Option<Widths>) -> Seq<char> {
    match widths {
        None => "native widths"@,
        Some((f, Some(p))) => "fn="@ + decimal((f + 4) as nat) + " poc="@ + decimal((p + 4) as nat),
        Some((f, None)) => "fn="@ + decimal((f + 4) as nat) + " poc_type=2"@,
    }
}

fn push_widths(s: &mut String, widths: Option<Widths>)
    requires
        widths_ok(widths),
    ensures
        final(s)@ == old(s)@ + width_words(widths),
{
    match widths {
        None => {
            s.append("native widths");
        },
        Some((f, p)) => {
            s.append("fn=");
            push_decimal(s, f + 4);
            match p {
                Some(p) => {
                    s.append(" poc=");
                    push_decimal(s, p + 4);
                },
                None => {
                    s.append(" poc_type=2");
                },
            }
        },
    }
    assert(s@ =~= old(s)@ + width_words(widths));
}

// ---------------------------------------------------------------------------
// From one stage to the next
// ---------------------------------------------------------------------------

/// No frames are as bad as an error; frames that nothing can be said of score a wary
/// neutral 0.45.
pub const NEUTRAL: u64 = 0x3fdc_cccc_cccc_cccd;

/// The judgment on a decode: decoder error lines and the picture score, by how many
/// frames came out and what they scored.
pub fn judgment(frames: usize, errors: usize, score: Option<u64>) -> (r: (usize, u64))
    ensures
        r == if frames == 0 {
            (
                if errors == 0 {
                    1
                } else {
                    errors
                },
                0,
            )
        } else {
            (
                errors,
                match score {
                    Some(g) => g,
                    None => NEUTRAL,
                },
            )
        },
{
    if frames == 0 {
        if errors == 0 {
            (1, 0)
        } else {
            (errors, 0)
        }
    } else {
        match score {
            Some(g) => (errors, g),
            None => (errors, NEUTRAL),
        }
    }
}

/// How frame_num counts at each width from 4 to 9.
pub fn width_tallies(media: &[u8]) -> (r: Vec<Tally>)
    ensures
        r@.len() == 6,
        forall|i: int|
            0 <= i < 6 ==> (#[trigger] r@[i]).ok == long_count(media@, (i + 4) as nat).ok && r@[i].tot
                == long_count(media@, (i + 4) as nat).tot,
{
    let mut v: Vec<Tally> = Vec::new();
    let mut m4: u32 = 0;
    while m4 < 6
        invariant
            m4 <= 6,
            v@.len() == m4,
            forall|i: int|
                0 <= i < m4 ==> (#[trigger] v@[i]).ok == long_count(media@, (i + 4) as nat).ok
                    && v@[i].tot == long_count(media@, (i + 4) as nat).tot,
        decreases 6 - m4,
    {
        v.push(frame_num_consistency(media, m4 + 4));
        m4 += 1;
    }
    v
}

/// A tally alone, as a standing.
pub open spec fn by_count(t: Tally) -> Standing {
    Standing { errors: 0, consistency: Some(t), score: 0 }
}

/// The widths by how well frame_num counts, the best first.
pub fn width_order(tallies: &[Tally]) -> (order: Vec<usize>)
    ensures
        is_ranking(order@, tallies@.map_values(|t: Tally| by_count(t))),
{
    let mut standings: Vec<Standing> = Vec::new();
    let ghost all = tallies@.map_values(|t: Tally| by_count(t));
    let mut i: usize = 0;
    while i < tallies.len()
        invariant
            i <= tallies@.len(),
            all == tallies@.map_values(|t: Tally| by_count(t)),
            standings@ == all.take(i as int),
        decreases tallies.len() - i,
    {
        standings.push(Standing { errors: 0, consistency: Some(tallies[i]), score: 0 });
        assert(standings@ =~= all.take(i + 1));
        i += 1;
    }
    assert(standings@ =~= all);
    ranking(&standings)
}

/// The widths that are worth a second look: the first two at most, and none behind one
/// that is not near the best.
pub fn shortlist(order: &[usize], near: &[bool]) -> (r: Vec<u64>)
    requires
        order@.len() == near@.len(),
    ensures
        r@.len() <= 2,
        r@.len() <= order@.len(),
        forall|i: int| 0 <= i < r@.len() ==> #[trigger] r@[i] == order@[i] && near@[i],
        r@.len() < 2 && r@.len() < order@.len() ==> !near@[r@.len() as int],
{
    let mut r: Vec<u64> = Vec::new();
    while r.len() < 2 && r.len() < order.len() && near[r.len()]
        invariant
            order@.len() == near@.len(),
            r@.len() <= 2,
            r@.len() <= order@.len(),
            forall|i: int| 0 <= i < r@.len() ==> #[trigger] r@[i] == order@[i] && near@[i],
        decreases 2 - r.len(),
    {
        let n: usize = r.len();
        r.push(order[n] as u64);
    }
    r
}

/// The finalists: the best entry of each of the top distinct geometries, three at most.
/// Where clean candidates exist, dirty geometries need not apply.
pub open spec fn finalists_from(c: Seq<Candidate>, i: int, picked: Seq<int>) -> Seq<int>
    decreases c.len() - i,
{
    if i >= c.len() || picked.len() >= 3 {
        picked
    } else if c[i].errors > 0 && picked.len() > 0 && c[picked[0]].errors == 0 {
        picked
    } else if exists|k: int| 0 <= k < picked.len() && c[#[trigger] picked[k]].res == c[i].res {
        finalists_from(c, i + 1, picked)
    } else {
        finalists_from(c, i + 1, picked.push(i))
    }
}

/// Indices, as numbers.
pub open spec fn places_of(v: Seq<usize>) -> Seq<int> {
    v.map_values(|x: usize| x as int)
}

/// The best entry of each of the top distinct geometries, by index.
pub fn finalists(stage1: &[Candidate]) -> (r: Vec<usize>)
    ensures
        places_of(r@) == finalists_from(stage1@, 0, seq![]),
        forall|k: int| 0 <= k < r@.len() ==> (#[trigger] r@[k]) < stage1@.len(),
        r@.len() <= 3,
{
    let mut picked: Vec<usize> = Vec::new();
    let mut i: usize = 0;
    assert(places_of(picked@) =~= Seq::<int>::empty());
    while i < stage1.len() && picked.len() < 3
        invariant
            i <= stage1@.len(),
            picked@.len() <= 3,
            forall|k: int| 0 <= k < picked@.len() ==> (#[trigger] picked@[k]) < stage1@.len(),
            finalists_from(stage1@, 0, seq![]) == finalists_from(
                stage1@,
                i as int,
                places_of(picked@),
            ),
        decreases stage1.len() - i,
    {
        let ghost places = places_of(picked@);
        if stage1[i].errors > 0 && picked.len() > 0 && stage1[picked[0]].errors == 0 {
            assert(places[0] == picked@[0]);
            return picked;
        }
        let mut seen = false;
        let mut k: usize = 0;
        while k < picked.len()
            invariant
                i < stage1@.len(),
                k <= picked@.len(),
                places == places_of(picked@),
                forall|k: int| 0 <= k < picked@.len() ==> (#[trigger] picked@[k]) < stage1@.len(),
                seen == exists|j: int|
                    0 <= j < k && stage1@[#[trigger] places[j]].res == stage1@[i as int].res,
            decreases picked.len() - k,
        {
            let a = &stage1[picked[k]];
            let b = &stage1[i];
            assert(places[k as int] == picked@[k as int]);
            if a.res.0 == b.res.0 && a.res.1 == b.res.1 {
                seen = true;
            }
            k += 1;
        }
        if !seen {
            picked.push(i);
            assert(places_of(picked@) =~= places.push(i as int));
        }
        i += 1;
    }
    picked
}

/// The widths tried with a frame_num width: poc_type 2, then every POC width.
pub open spec fn poc_grid(f: u64) -> Seq<Option<Widths>> {
    seq![Some((f, None))] + Seq::new(7, |i: int| Some((f, Some(i as u64))))
}

/// The widths tried with some frame_num widths.
pub open spec fn width_grid(fn_widths: Seq<u64>) -> Seq<Option<Widths>>
    decreases fn_widths.len(),
{
    if fn_widths.len() == 0 {
        seq![]
    } else {
        width_grid(fn_widths.drop_last()) + poc_grid(fn_widths.last())
    }
}

/// The first geometry of a resolution, from the `i`th on.
pub open spec fn geometry_of(geometries: Seq<Geometry>, res: (u32, u32), i: int) -> Option<int>
    decreases geometries.len() - i,
{
    if i >= geometries.len() {
        None
    } else if geometries[i].res == res {
        Some(i)
    } else {
        geometry_of(geometries, res, i + 1)
    }
}

/// The guesses for a finalist: POC layout and init seed, jointly, at the pinned frame_num
/// widths.
pub open spec fn guesses_for(
    c: Candidate,
    geometries: Seq<Geometry>,
    fn_widths: Seq<u64>,
) -> Seq<Guess> {
    match geometry_of(geometries, c.res, 0) {
        None => seq![],
        Some(g) => guesses_over(
            g,
            c.res,
            geometries[g].native_sps@,
            width_grid(fn_widths),
            reseeded(c.pps),
        ),
    }
}

/// The guesses for some finalists.
pub open spec fn second_guesses(
    c: Seq<Candidate>,
    picked: Seq<usize>,
    geometries: Seq<Geometry>,
    fn_widths: Seq<u64>,
) -> Seq<Guess>
    decreases picked.len(),
{
    if picked.len() == 0 {
        seq![]
    } else {
        second_guesses(c, picked.drop_last(), geometries, fn_widths) + guesses_for(
            c[picked.last() as int],
            geometries,
            fn_widths,
        )
    }
}

fn build_width_grid(fn_widths: &[u64]) -> (grid: Vec<Option<Widths>>)
    requires
        forall|i: int| 0 <= i < fn_widths@.len() ==> #[trigger] fn_widths@[i] + 4 <= u64::MAX,
    ensures
        grid@ == width_grid(fn_widths@),
        forall|i: int| 0 <= i < grid@.len() ==> widths_ok(#[trigger] grid@[i]),
{
    let mut grid: Vec<Option<Widths>> = Vec::new();
    let mut i: usize = 0;
    assert(fn_widths@.take(0) =~= Seq::<u64>::empty());
    while i < fn_widths.len()
        invariant
            i <= fn_widths@.len(),
            forall|i: int| 0 <= i < fn_widths@.len() ==> #[trigger] fn_widths@[i] + 4 <= u64::MAX,
            grid@ == width_grid(fn_widths@.take(i as int)),
            forall|i: int| 0 <= i < grid@.len() ==> widths_ok(#[trigger] grid@[i]),
        decreases fn_widths.len() - i,
    {
        let ghost start = grid@;
        let f: u64 = fn_widths[i];
        grid.push(Some((f, None)));
        let mut poc: u64 = 0;
        assert(grid@ =~= start + poc_grid(f).take(1));
        while poc < 7
            invariant
                poc <= 7,
                f + 4 <= u64::MAX,
                grid@ == start + poc_grid(f).take(poc + 1),
                forall|i: int| 0 <= i < grid@.len() ==> widths_ok(#[trigger] grid@[i]),
            decreases 7 - poc,
        {
            grid.push(Some((f, Some(poc))));
            assert(grid@ =~= start + poc_grid(f).take(poc + 2));
            poc += 1;
        }
        assert(poc_grid(f).take(8) =~= poc_grid(f));
        assert(fn_widths@.take(i + 1).drop_last() =~= fn_widths@.take(i as int));
        i += 1;
    }
    assert(fn_widths@.take(i as int) =~= fn_widths@);
    grid
}

fn find_geometry(geometries: &[Geometry], res: (u32, u32)) -> (r: Option<usize>)
    ensures
        match r {
            Some(g) => geometry_of(geometries@, res, 0) == Some(g as int) && g < geometries@.len()
                && geometries@[g as int].res == res,
            None => geometry_of(geometries@, res, 0) is None,
        },
{
    let mut i: usize = 0;
    while i < geometries.len()
        invariant
            i <= geometries@.len(),
            geometry_of(geometries@, res, 0) == geometry_of(geometries@, res, i as int),
        decreases geometries.len() - i,
    {
        if geometries[i].res.0 == res.0 && geometries[i].res.1 == res.1 {
            return Some(i);
        }
        i += 1;
    }
    None
}

/// Header semantics on the keyframe and its trailing slices: the finalists' geometries
/// over POC layout and init seed, jointly, at the pinned frame_num widths.
pub fn stage2_trials(
    stage1: &[Candidate],
    picked: &[usize],
    geometries: &[Geometry],
    fn_widths: &[u64],
) -> (trials: Vec<Trial>)
    requires
        forall|k: int| 0 <= k < picked@.len() ==> (#[trigger] picked@[k]) < stage1@.len(),
        forall|i: int| 0 <= i < geometries@.len() ==> countable(#[trigger] geometries@[i].native_sps@),
        forall|i: int| 0 <= i < fn_widths@.len() ==> #[trigger] fn_widths@[i] + 4 <= u64::MAX,
    ensures
        guesses_of(trials@) == second_guesses(stage1@, picked@, geometries@, fn_widths@),
{
    let grid = build_width_grid(fn_widths);
    let mut trials: Vec<Trial> = Vec::new();
    let mut k: usize = 0;
    assert(picked@.take(0) =~= Seq::<usize>::empty());
    assert(guesses_of(trials@) =~= Seq::<Guess>::empty());
    while k < picked.len()
        invariant
            k <= picked@.len(),
            forall|k: int| 0 <= k < picked@.len() ==> (#[trigger] picked@[k]) < stage1@.len(),
            forall|i: int|
                0 <= i < geometries@.len() ==> countable(#[trigger] geometries@[i].native_sps@),
            grid@ == width_grid(fn_widths@),
            forall|i: int| 0 <= i < grid@.len() ==> widths_ok(#[trigger] grid@[i]),
            guesses_of(trials@) == second_guesses(
                stage1@,
                picked@.take(k as int),
                geometries@,
                fn_widths@,
            ),
        decreases picked.len() - k,
    {
        let ghost before = guesses_of(trials@);
        let c = &stage1[picked[k]];
        match find_geometry(geometries, c.res) {
            Some(g) => {
                let mut pps: Vec<PpsParams> = Vec::new();
                if c.pps.cabac {
                    push_swept(&mut pps, c.pps);
                } else {
                    pps.push(c.pps);
                }
                assert(pps@ =~= reseeded(c.pps));
                push_trials(&mut trials, g, &geometries[g], &grid, &pps);
            },
            None => {
                assert(before + Seq::<Guess>::empty() =~= before);
            },
        }
        assert(picked@.take(k + 1).drop_last() =~= picked@.take(k as int));
        k += 1;
    }
    assert(picked@.take(k as int) =~= picked@);
    trials
}

/// The refinement of a survivor at step `j`: one to four references, each without and
/// with weighted prediction.
pub open spec fn refined(c: Candidate, j: int) -> Guess {
    Guess {
        res: c.res,
        widths: c.widths,
        pps: PpsParams { ref_l0: (1 + j / 2) as u32, weighted_pred: j % 2 == 1, ..c.pps },
        sps: c.sps@,
        geometry: c.geometry as int,
    }
}

/// The refinements of the best few survivors.
pub open spec fn refinements(c: Seq<Candidate>) -> Seq<Guess>
    decreases c.len(),
{
    if c.len() == 0 {
        seq![]
    } else {
        refinements(c.drop_last()) + Seq::new(8, |j: int| refined(c.last(), j))
    }
}

/// Refines the PPS on the best four survivors.
pub fn refinement_trials(survivors: &[Candidate]) -> (trials: Vec<Trial>)
    ensures
        guesses_of(trials@) == refinements(survivors@.take(lesser(survivors@.len() as int, 4))),
{
    let n: usize = if survivors.len() < 4 {
        survivors.len()
    } else {
        4
    };
    let mut trials: Vec<Trial> = Vec::new();
    let mut i: usize = 0;
    assert(survivors@.take(0) =~= Seq::<Candidate>::empty());
    assert(guesses_of(trials@) =~= Seq::<Guess>::empty());
    while i < n
        invariant
            i <= n <= survivors@.len(),
            guesses_of(trials@) == refinements(survivors@.take(i as int)),
        decreases n - i,
    {
        let c = &survivors[i];
        let ghost before = guesses_of(trials@);
        let ghost here = Seq::new(8, |j: int| refined(*c, j));
        let mut j: u32 = 0;
        assert(before + here.take(0) =~= before);
        while j < 8
            invariant
                j <= 8,
                here == Seq::new(8, |j: int| refined(*c, j)),
                guesses_of(trials@) == before + here.take(j as int),
            decreases 8 - j,
        {
            let t = Trial {
                res: c.res,
                widths: c.widths,
                pps: PpsParams { ref_l0: 1 + j / 2, weighted_pred: j % 2 == 1, ..c.pps },
                sps: copied(&c.sps, 0, c.sps.len()),
                geometry: c.geometry,
            };
            assert(t.sps@ =~= c.sps@);
            assert(t@ == here[j as int]);
            let ghost so_far = guesses_of(trials@);
            trials.push(t);
            assert(guesses_of(trials@) =~= so_far.push(here[j as int]));
            assert(so_far.push(here[j as int]) =~= before + here.take(j + 1));
            j += 1;
        }
        assert(here.take(8) =~= here);
        assert(survivors@.take(i + 1).drop_last() =~= survivors@.take(i as int));
        assert(survivors@.take(i + 1).last() == *c);
        i += 1;
    }
    trials
}

/// What the long count says of a candidate: nothing where it stands too far behind the
/// best, or its SPS cannot be parsed.
pub open spec fn testimony(c: Candidate, best: int, media: Seq<u8>) -> Option<Count> {
    if c.errors > best + 2 {
        None
    } else {
        match sps_of(c.sps@) {
            None => None,
            Some(info) => Some(long_count(media, info.log2_max_frame_num as nat)),
        }
    }
}

/// The fewest errors, where the best stands first.
pub open spec fn best_errors(c: Seq<Candidate>) -> int {
    if c.len() == 0 {
        0
    } else {
        c[0].errors as int
    }
}

/// A tally is that of a count.
pub open spec fn tallies_count(t: Option<Tally>, c: Option<Count>) -> bool {
    match t {
        None => c is None,
        Some(t) => c is Some && t.ok == c->0.ok && t.tot == c->0.tot,
    }
}

/// The long count: frame_num across the whole payload arbitrates
/// width degeneracies that a short evidence chain tolerates, including
/// bit-budget aliases (fn=5+poc=6 parses the same header bits as
/// fn=4+poc=7; only the tape-long counting pattern tells them apart).
/// Every candidate tied near the best error count is judged, each width once.
pub fn long_counts(candidates: &[Candidate], media: &[u8]) -> (r: Vec<Option<Tally>>)
    requires
        forall|i: int|
            0 <= i < candidates@.len() ==> countable((#[trigger] candidates@[i]).sps@) && (sps_of(
                candidates@[i].sps@,
            ) matches Some(info) ==> info.log2_max_frame_num < 64),
    ensures
        r@.len() == candidates@.len(),
        forall|i: int|
            0 <= i < r@.len() ==> tallies_count(
                #[trigger] r@[i],
                testimony(candidates@[i], best_errors(candidates@), media@),
            ),
{
    let mut known: Vec<Option<Tally>> = Vec::new();
    while known.len() < 64
        invariant
            known@.len() <= 64,
            forall|w: int| 0 <= w < known@.len() ==> #[trigger] known@[w] is None,
        decreases 64 - known.len(),
    {
        known.push(None);
    }
    let best: usize = if candidates.len() == 0 {
        0
    } else {
        candidates[0].errors
    };
    let mut out: Vec<Option<Tally>> = Vec::new();
    let mut i: usize = 0;
    while i < candidates.len()
        invariant
            i <= candidates@.len(),
            best == best_errors(candidates@),
            known@.len() == 64,
            forall|i: int|
                0 <= i < candidates@.len() ==> countable((#[trigger] candidates@[i]).sps@)
                    && (sps_of(candidates@[i].sps@) matches Some(info) ==> info.log2_max_frame_num
                    < 64),
            forall|w: int|
                0 <= w < 64 && (#[trigger] known@[w]) is Some ==> tallies_count(
                    known@[w],
                    Some(long_count(media@, w as nat)),
                ),
            out@.len() == i,
            forall|i: int|
                0 <= i < out@.len() ==> tallies_count(
                    #[trigger] out@[i],
                    testimony(candidates@[i], best as int, media@),
                ),
        decreases candidates.len() - i,
    {
        let c = &candidates[i];
        let behind = c.errors > best && c.errors - best > 2;
        let mut tally: Option<Tally> = None;
        if !behind {
            if let Some(info) = parse_sps(&c.sps) {
                let w: usize = info.log2_max_frame_num as usize;
                let t: Tally = match known[w] {
                    Some(t) => t,
                    None => frame_num_consistency(media, info.log2_max_frame_num),
                };
                known.set(w, Some(t));
                tally = Some(t);
            }
        }
        out.push(tally);
        i += 1;
    }
    out
}

/// The candidates that are shown: the first five that differ in words.
pub open spec fn shown_from(c: Seq<Candidate>, i: int, picked: Seq<int>) -> Seq<int>
    decreases c.len() - i,
{
    if i >= c.len() || picked.len() >= 5 {
        picked
    } else if exists|k: int| 0 <= k < picked.len() && c[#[trigger] picked[k]].words() == c[i].words() {
        shown_from(c, i + 1, picked)
    } else {
        shown_from(c, i + 1, picked.push(i))
    }
}

/// The first five candidates that differ in words, by index.
pub fn shown(candidates: &[Candidate]) -> (r: Vec<usize>)
    requires
        forall|i: int| 0 <= i < candidates@.len() ==> widths_ok((#[trigger] candidates@[i]).widths),
    ensures
        places_of(r@) == shown_from(candidates@, 0, seq![]),
        forall|k: int| 0 <= k < r@.len() ==> (#[trigger] r@[k]) < candidates@.len(),
        r@.len() <= 5,
{
    let mut picked: Vec<usize> = Vec::new();
    let mut recipes: Vec<String> = Vec::new();
    let mut i: usize = 0;
    assert(places_of(picked@) =~= Seq::<int>::empty());
    while i < candidates.len() && picked.len() < 5
        invariant
            i <= candidates@.len(),
            forall|i: int|
                0 <= i < candidates@.len() ==> widths_ok((#[trigger] candidates@[i]).widths),
            picked@.len() <= 5,
            recipes@.len() == picked@.len(),
            forall|k: int|
                0 <= k < picked@.len() ==> (#[trigger] picked@[k]) < candidates@.len()
                    && recipes@[k]@ == candidates@[picked@[k] as int].words(),
            shown_from(candidates@, 0, seq![]) == shown_from(
                candidates@,
                i as int,
                places_of(picked@),
            ),
        decreases candidates.len() - i,
    {
        let ghost places = places_of(picked@);
        let recipe = candidates[i].recipe();
        let mut seen = false;
        let mut k: usize = 0;
        while k < picked.len()
            invariant
                i < candidates@.len(),
                k <= picked@.len(),
                places == places_of(picked@),
                recipes@.len() == picked@.len(),
                recipe@ == candidates@[i as int].words(),
                forall|k: int|
                    0 <= k < picked@.len() ==> (#[trigger] picked@[k]) < candidates@.len()
                        && recipes@[k]@ == candidates@[picked@[k] as int].words(),
                seen == exists|j: int|
                    0 <= j < k && candidates@[#[trigger] places[j]].words()
                        == candidates@[i as int].words(),
            decreases picked.len() - k,
        {
            assert(places[k as int] == picked@[k as int]);
            if same_text(recipes[k].as_str(), recipe.as_str()) {
                seen = true;
            }
            k += 1;
        }
        if !seen {
            picked.push(i);
            recipes.push(recipe);
            assert(places_of(picked@) =~= places.push(i as int));
        }
        i += 1;
    }
    picked
}

/// Below this (0.4), what came out is no picture.
pub const PICTURE_FLOOR: u64 = 0x3fd9_9999_9999_999a;

/// Whether a winner is one: it decodes without errors, or what came out looks like a
/// picture all the same.
pub fn produced_a_picture(winner: &Candidate) -> (r: bool)
    ensures
        r == (winner.errors == 0 || winner.gestalt >= PICTURE_FLOOR),
{
    winner.errors == 0 || winner.gestalt >= PICTURE_FLOOR
}

/// NAL units behind start codes.
pub open spec fn start_coded(nals: Seq<Seq<u8>>) -> Seq<u8>
    decreases nals.len(),
{
    if nals.len() == 0 {
        seq![]
    } else {
        start_coded(nals.drop_last()) + seq![0u8, 0, 0, 1] + nals.last()
    }
}

fn push_start_coded(out: &mut Vec<u8>, nal: &[u8])
    ensures
        final(out)@ == old(out)@ + seq![0u8, 0, 0, 1] + nal@,
{
    push_all(out, &[0, 0, 0, 1]);
    assert(out@ =~= old(out)@ + seq![0u8, 0, 0, 1]);
    push_all(out, nal);
}

/// A bare H.264 stream: parameter sets, then slices.
pub fn annexb(sps: &[u8], pps: &[u8], nals: &[Vec<u8>]) -> (out: Vec<u8>)
    ensures
        out@ == start_coded(seq![sps@, pps@] + nals_of(nals@)),
{
    let mut out: Vec<u8> = Vec::new();
    push_start_coded(&mut out, sps);
    push_start_coded(&mut out, pps);
    let ghost all = seq![sps@, pps@] + nals_of(nals@);
    proof {
        reveal_with_fuel(start_coded, 3);
        assert(all.take(2).drop_last().drop_last() =~= Seq::<Seq<u8>>::empty());
        assert(out@ =~= start_coded(all.take(2)));
    }
    let mut i: usize = 0;
    while i < nals.len()
        invariant
            i <= nals@.len(),
            all == seq![sps@, pps@] + nals_of(nals@),
            out@ == start_coded(all.take(i + 2)),
        decreases nals.len() - i,
    {
        push_start_coded(&mut out, &nals[i]);
        assert(all.take(i + 3).drop_last() =~= all.take(i + 2));
        assert(all.take(i + 3).last() == nals@[i as int]@);
        i += 1;
    }
    assert(all.take(i + 2) =~= all);
    out
}

/// The stream that a trial is judged on.
pub fn trial_stream(sps: &[u8], pps: PpsParams, nals: &[Vec<u8>]) -> (out: Vec<u8>)
    requires
        -0x4000_0000_0000_0000 < pps.init_qp - 26,
        -0x4000_0000_0000_0000 < pps.chroma_qp_offset,
    ensures
        out@ == start_coded(seq![sps@, pps_of(pps)] + nals_of(nals@)),
{
    annexb(sps, &build_pps(pps), nals)
}

// ---------------------------------------------------------------------------
// The evidence
// ---------------------------------------------------------------------------

/// What divination goes by.
#[derive(Debug)]
pub struct Evidence {
    /// Where the media payload lies.
    pub media_start: usize,
    pub media_end: usize,
    /// Whether its phase is unknown.
    pub head_torn: bool,
    /// A testable keyframe, and the slices that trail it.
    pub idr: Vec<u8>,
    pub slices: Vec<Vec<u8>>,
}

/// Why there is nothing to divine.
#[derive(Debug, Clone, Copy, PartialEq, Eq, Structural)]
pub enum DivineError {
    StillIndexed,
    NoKeyframe,
}

impl DivineError {
    /// The error in words.
    pub open spec fn words(&self) -> Seq<char> {
        match self {
            DivineError::StillIndexed =>
                "this file still has its own index — plain `rescue` will treat it better than divination"@,
            DivineError::NoKeyframe =>
                "no H.264 IDR grammar found in the payload — divine only speaks H.264 so far"@,
        }
    }

    /// The error in words.
    pub fn message(&self) -> (r: &'static str)
        ensures
            r@ == self.words(),
    {
        match self {
            DivineError::StillIndexed =>
                "this file still has its own index — plain `rescue` will treat it better than divination",
            DivineError::NoKeyframe =>
                "no H.264 IDR grammar found in the payload — divine only speaks H.264 so far",
        }
    }
}

/// The media payload of a file.
pub open spec fn media_bytes(d: Seq<u8>) -> Seq<u8> {
    let (from, to, _) = media_of(d);
    d.subrange(from, to)
}

/// Pulls the evidence out of a file that has no index of its own. `None` if its index
/// speaks of what the file does not hold.
pub fn gather(data: &[u8]) -> (r: Option<Result<Evidence, DivineError>>)
    ensures
        match r {
            None => !analyzable(data@),
            Some(Err(DivineError::StillIndexed)) => analyzable(data@) && diagnosis(data@) != Some(
                Diagnosis::NoMoov,
            ),
            Some(Err(DivineError::NoKeyframe)) => diagnosis(data@) == Some(Diagnosis::NoMoov)
                && chain_of(media_bytes(data@)) is None,
            Some(Ok(e)) => diagnosis(data@) == Some(Diagnosis::NoMoov) && media_of(data@) == (
                e.media_start as int,
                e.media_end as int,
                e.head_torn,
            ) && e.media_start <= e.media_end <= data@.len() && chain_of(media_bytes(data@))
                == Some((e.idr@, nals_of(e.slices@))),
        },
{
    match try_analyze(data) {
        None => None,
        Some(Analysis::NoMoov) => {
            let (media_start, media_end, head_torn) = locate_media(data);
            match extract_chain(&data[media_start..media_end]) {
                None => Some(Err(DivineError::NoKeyframe)),
                Some((idr, slices)) => Some(
                    Ok(Evidence { media_start, media_end, head_torn, idr, slices }),
                ),
            }
        },
        Some(_) => Some(Err(DivineError::StillIndexed)),
    }
}

// ---------------------------------------------------------------------------
// What holds of every divination
// ---------------------------------------------------------------------------

proof fn lemma_first_idr(d: Seq<u8>, i: int)
    requires
        i >= 0,
    ensures
        first_idr(d, i) matches Some((start, end)) ==> i <= start && start + 1004 <= end <= d.len()
            && slice_at(d, start, 1000) == Some((end, true)) && d[start + 4] % 32 == 5,
    decreases d.len() - i,
{
    if i + 6 <= d.len() {
        match slice_at(d, i, 1000) {
            Some((end, true)) => {},
            _ => {
                lemma_first_idr(d, i + 1);
            },
        }
    }
}

proof fn lemma_following(d: Seq<u8>, i: int, left: nat)
    ensures
        following(d, i, left).len() <= left,
    decreases d.len() - i,
{
    if left > 0 && i + 6 <= d.len() {
        match slice_at(d, i, 64) {
            Some((end, _)) => {
                if end > i {
                    lemma_following(d, end, (left - 1) as nat);
                }
            },
            None => {
                lemma_following(d, i + 1, left);
            },
        }
    }
}

/// Evidence begins with a keyframe: the first NAL of a chain is an IDR slice of a
/// thousand bytes or more, cut verbatim from the payload, and six slices at most
/// follow.
pub proof fn law_chain_begins_with_a_keyframe(d: Seq<u8>)
    ensures
        chain_of(d) matches Some((idr, rest)) ==> idr.len() >= 1000 && idr[0] % 32 == 5 && rest.len()
            <= 6 && exists|at: int|
            0 <= at && at + idr.len() <= d.len() && #[trigger] d.subrange(at, at + idr.len()) == idr,
{
    lemma_first_idr(d, 0);
    if let Some((start, end)) = first_idr(d, 0) {
        lemma_following(d, end, 6);
        let idr = d.subrange(start + 4, end);
        assert(d.subrange(start + 4, start + 4 + idr.len()) =~= idr);
    }
}

/// A guess at widths is one: a native SPS that parses, patched to a guess, parses to the
/// widths that were guessed.
pub proof fn law_guesses_carry_their_widths(native: Seq<u8>, f: u64, p: Option<u64>)
    requires
        sps_of(native) is Some,
        f < 0xffff_fff0,
        p matches Some(x) ==> x < 0xffff_fff0,
    ensures
        variant(native, Some((f, p))) matches Some(sps) && (sps_of(sps) matches Some(info)
            && info.log2_max_frame_num == f + 4 && (match p {
            Some(x) => info.poc_type == 0 && info.log2_max_poc_lsb == x + 4,
            None => info.poc_type == 2,
        })),
{
    crate::h264::law_patched_sps_reads_back(native, f as nat, p);
}

/// The search for a CABAC seed covers every init_qp within sixteen of 26, each once.
pub proof fn law_every_seed_is_tried_once(q: i64)
    requires
        10 <= q <= 42,
    ensures
        qp_order().contains(q),
        forall|i: int, j: int|
            0 <= i < qp_order().len() && 0 <= j < qp_order().len() && qp_order()[i] == q
                && qp_order()[j] == q ==> i == j,
{
    let at = if q < 26 {
        2 * (26 - q) - 1
    } else {
        2 * (q - 26)
    };
    assert(qp_order()[at] == q);
}

} // verus!
