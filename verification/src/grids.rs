//! What the grids of guesses cover: every combination that a stage is there to try is tried,
//! none twice, and nothing else; and whom a ranking and a shortlist put first.
use crate::divine::{
    cabac_guess, cavlc_guess, exceeds, finalists_from, first_guesses, first_pps, first_widths,
    fraction, geometry_of, guesses_at, guesses_for, guesses_over, is_ranking,
    law_every_seed_is_tried_once, law_guesses_carry_their_widths, outranks, poc_grid, precedes,
    qp_at, qp_order, refined, refinements, reseeded, second_guesses, swept, variant, width_grid,
    Candidate, Geometry, Guess, Standing, Tally, Widths,
};
use crate::h264::{sps_of, PpsParams, SpsInfo};
use vstd::prelude::*;

verus! {

// ---------------------------------------------------------------------------
// Grids
// ---------------------------------------------------------------------------

/// A native SPS can be given every width of a grid.
spec fn all_fit(native: Seq<u8>, grid: Seq<Option<Widths>>) -> bool {
    forall|a: int| 0 <= a < grid.len() ==> variant(native, #[trigger] grid[a]) is Some
}

proof fn lemma_rows(
    geometry: int,
    res: (u32, u32),
    native: Seq<u8>,
    grid: Seq<Option<Widths>>,
    pps: Seq<PpsParams>,
    a: int,
    b: int,
)
    requires
        all_fit(native, grid),
    ensures
        guesses_over(geometry, res, native, grid, pps).len() == grid.len() * pps.len(),
        0 <= a < grid.len() && 0 <= b < pps.len() ==> 0 <= a * pps.len() + b < grid.len()
            * pps.len() && guesses_over(geometry, res, native, grid, pps)[a * pps.len() + b] == (
        Guess {
            res,
            widths: grid[a],
            pps: pps[b],
            sps: variant(native, grid[a]).unwrap(),
            geometry,
        }),
    decreases grid.len(),
{
    let n = pps.len() as int;
    let m = grid.len() as int;
    if m == 0 {
        assert(m * n == 0) by (nonlinear_arith)
            requires
                m == 0,
        ;
    } else {
        let head = grid.drop_last();
        assert(all_fit(native, head)) by {
            assert forall|a: int| 0 <= a < head.len() implies variant(native, #[trigger] head[a]) is Some by {
                assert(head[a] == grid[a]);
            }
        }
        lemma_rows(geometry, res, native, head, pps, a, b);
        let before = guesses_over(geometry, res, native, head, pps);
        let last = guesses_at(geometry, res, native, grid.last(), pps);
        let all = guesses_over(geometry, res, native, grid, pps);
        assert(grid.last() == grid[m - 1]);
        assert(last.len() == n);
        assert((m - 1) * n + n == m * n) by (nonlinear_arith);
        if 0 <= a < m && 0 <= b < n {
            assert(a * n >= 0) by (nonlinear_arith)
                requires
                    a >= 0,
                    n >= 0,
            ;
            assert(a * n + n <= m * n) by (nonlinear_arith)
                requires
                    a + 1 <= m,
                    n >= 0,
            ;
            if a < m - 1 {
                assert(head[a] == grid[a]);
                assert(all[a * n + b] == before[a * n + b]);
            } else {
                assert(all[a * n + b] == last[b]);
            }
        }
    }
}

/// Every guess stands in a row and a column.
proof fn lemma_row_of(i: int, m: int, n: int) -> (r: (int, int))
    requires
        0 <= i < m * n,
        n >= 0,
        m >= 0,
    ensures
        0 <= r.0 < m,
        0 <= r.1 < n,
        i == r.0 * n + r.1,
{
    assert(n > 0) by (nonlinear_arith)
        requires
            0 <= i < m * n,
            n >= 0,
    ;
    let a = i / n;
    let b = i % n;
    vstd::arithmetic::div_mod::lemma_fundamental_div_mod(i, n);
    assert(0 <= a < m && i == a * n + b) by (nonlinear_arith)
        requires
            i == n * a + b,
            0 <= b < n,
            0 <= i < m * n,
            n > 0,
    ;
    (a, b)
}

/// What a grid over one geometry holds: each width with each setting, once, and no more.
proof fn lemma_grid(geometry: int, res: (u32, u32), native: Seq<u8>, grid: Seq<Option<Widths>>, pps: Seq<
    PpsParams,
>)
    requires
        all_fit(native, grid),
    ensures
        ({
            let all = guesses_over(geometry, res, native, grid, pps);
            &&& all.len() == grid.len() * pps.len()
            &&& forall|w: Option<Widths>, p: PpsParams|
                #![trigger grid.contains(w), pps.contains(p)]
                grid.contains(w) && pps.contains(p) ==> all.contains(
                    Guess { res, widths: w, pps: p, sps: variant(native, w).unwrap(), geometry },
                )
            &&& forall|i: int|
                0 <= i < all.len() ==> {
                    &&& grid.contains((#[trigger] all[i]).widths)
                    &&& pps.contains(all[i].pps)
                    &&& all[i].res == res
                    &&& all[i].geometry == geometry
                    &&& Some(all[i].sps) == variant(native, all[i].widths)
                }
            &&& grid.no_duplicates() && pps.no_duplicates() ==> forall|i: int, j: int|
                0 <= i < j < all.len() ==> (#[trigger] all[i]).widths != (#[trigger] all[j]).widths
                    || all[i].pps != all[j].pps
        }),
{
    let all = guesses_over(geometry, res, native, grid, pps);
    let n = pps.len() as int;
    let m = grid.len() as int;
    lemma_rows(geometry, res, native, grid, pps, 0, 0);
    assert forall|w: Option<Widths>, p: PpsParams|
        #![trigger grid.contains(w), pps.contains(p)]
        grid.contains(w) && pps.contains(p) implies all.contains(
        Guess { res, widths: w, pps: p, sps: variant(native, w).unwrap(), geometry },
    ) by {
        let a = choose|a: int| 0 <= a < grid.len() && grid[a] == w;
        let b = choose|b: int| 0 <= b < pps.len() && pps[b] == p;
        lemma_rows(geometry, res, native, grid, pps, a, b);
        assert(all[a * n + b] == (Guess {
            res,
            widths: w,
            pps: p,
            sps: variant(native, w).unwrap(),
            geometry,
        }));
    }
    assert forall|i: int| 0 <= i < all.len() implies {
        &&& grid.contains((#[trigger] all[i]).widths)
        &&& pps.contains(all[i].pps)
        &&& all[i].res == res
        &&& all[i].geometry == geometry
        &&& Some(all[i].sps) == variant(native, all[i].widths)
    } by {
        let (a, b) = lemma_row_of(i, m, n);
        lemma_rows(geometry, res, native, grid, pps, a, b);
        assert(grid.contains(grid[a]) && pps.contains(pps[b]));
    }
    if grid.no_duplicates() && pps.no_duplicates() {
        assert forall|i: int, j: int| 0 <= i < j < all.len() implies (#[trigger] all[i]).widths != (
        #[trigger] all[j]).widths || all[i].pps != all[j].pps by {
            let (a, b) = lemma_row_of(i, m, n);
            let (c, e) = lemma_row_of(j, m, n);
            lemma_rows(geometry, res, native, grid, pps, a, b);
            lemma_rows(geometry, res, native, grid, pps, c, e);
        }
    }
}

/// What stands at a place of the second grid.
spec fn cell(fs: Seq<u64>, i: int) -> Option<Widths> {
    let f = fs[i / 8];
    if i % 8 == 0 {
        Some((f, None))
    } else {
        Some((f, Some((i % 8 - 1) as u64)))
    }
}

proof fn lemma_width_grid(fs: Seq<u64>)
    ensures
        width_grid(fs).len() == 8 * fs.len(),
        forall|i: int| 0 <= i < 8 * fs.len() ==> #[trigger] width_grid(fs)[i] == cell(fs, i),
    decreases fs.len(),
{
    if fs.len() > 0 {
        let head = fs.drop_last();
        lemma_width_grid(head);
        let before = width_grid(head);
        let last = poc_grid(fs.last());
        let all = width_grid(fs);
        assert(last.len() == 8);
        assert forall|i: int| 0 <= i < 8 * fs.len() implies #[trigger] all[i] == cell(fs, i) by {
            if i < before.len() {
                assert(all[i] == before[i]);
                assert(head[i / 8] == fs[i / 8]);
            } else {
                assert(all[i] == last[i - before.len()]);
                assert(i / 8 == fs.len() - 1);
            }
        }
    }
}

/// A width guess of the second stage: one of the frame_num widths, with POC type 2 or a POC
/// of 4 to 10 bits.
pub open spec fn in_second_grid(fs: Seq<u64>, w: Option<Widths>) -> bool {
    w matches Some((f, p)) && fs.contains(f) && (p matches Some(x) ==> x <= 6)
}

proof fn lemma_second_grid(fs: Seq<u64>)
    ensures
        forall|w: Option<Widths>| #[trigger]
            width_grid(fs).contains(w) <==> in_second_grid(fs, w),
        fs.no_duplicates() ==> width_grid(fs).no_duplicates(),
{
    let all = width_grid(fs);
    lemma_width_grid(fs);
    assert forall|w: Option<Widths>| #[trigger] all.contains(w) <==> in_second_grid(fs, w) by {
        if all.contains(w) {
            let i = choose|i: int| 0 <= i < all.len() && all[i] == w;
            assert(fs.contains(fs[i / 8]));
        }
        if in_second_grid(fs, w) {
            let (f, p) = w.unwrap();
            let a = choose|a: int| 0 <= a < fs.len() && fs[a] == f;
            let i = match p {
                None => 8 * a,
                Some(x) => 8 * a + 1 + x,
            };
            assert(i / 8 == a);
            assert(all[i] == w);
        }
    }
    if fs.no_duplicates() {
        assert forall|i: int, j: int| 0 <= i < all.len() && 0 <= j < all.len() && i != j implies all[i]
            != all[j] by {
            assert(all[i] == cell(fs, i) && all[j] == cell(fs, j));
            if i / 8 == j / 8 {
                assert(i % 8 != j % 8);
            } else {
                assert(fs[i / 8] != fs[j / 8]);
            }
        }
    }
}

/// The settings that a finalist is tried with: of CABAC every seed within sixteen of 26, of
/// CAVLC its own.
pub open spec fn in_reseeding(own: PpsParams, p: PpsParams) -> bool {
    &&& p.cabac == own.cabac
    &&& p.ref_l0 == own.ref_l0
    &&& p.weighted_pred == own.weighted_pred
    &&& p.chroma_qp_offset == own.chroma_qp_offset
    &&& p.transform_8x8 == own.transform_8x8
    &&& if own.cabac {
        10 <= p.init_qp <= 42
    } else {
        p.init_qp == own.init_qp
    }
}

proof fn lemma_swept(own: PpsParams)
    ensures
        swept(own).len() == 33,
        swept(own).no_duplicates(),
        forall|p: PpsParams| #[trigger]
            swept(own).contains(p) <==> 10 <= p.init_qp <= 42 && p == (PpsParams {
                init_qp: p.init_qp,
                ..own
            }),
{
    let s = swept(own);
    assert forall|i: int, j: int| 0 <= i < s.len() && 0 <= j < s.len() && i != j implies s[i]
        != s[j] by {
        assert(s[i].init_qp == qp_at(i) && s[j].init_qp == qp_at(j));
    }
    assert forall|p: PpsParams| #[trigger] s.contains(p) <==> 10 <= p.init_qp <= 42 && p == (
    PpsParams { init_qp: p.init_qp, ..own }) by {
        if s.contains(p) {
            let i = choose|i: int| 0 <= i < s.len() && s[i] == p;
            assert(p.init_qp == qp_at(i));
        }
        if 10 <= p.init_qp <= 42 && p == (PpsParams { init_qp: p.init_qp, ..own }) {
            law_every_seed_is_tried_once(p.init_qp);
            let i = choose|i: int| 0 <= i < qp_order().len() && qp_order()[i] == p.init_qp;
            assert(s[i] == p);
        }
    }
}

proof fn lemma_reseeded(own: PpsParams)
    ensures
        reseeded(own).len() == (if own.cabac {
            33int
        } else {
            1
        }),
        reseeded(own).no_duplicates(),
        forall|p: PpsParams| #[trigger] reseeded(own).contains(p) <==> in_reseeding(own, p),
{
    lemma_swept(own);
    assert forall|p: PpsParams| #[trigger] reseeded(own).contains(p) <==> in_reseeding(own, p) by {
        if own.cabac {
            assert(swept(own).contains(p) <==> 10 <= p.init_qp <= 42 && p == (PpsParams {
                init_qp: p.init_qp,
                ..own
            }));
        } else {
            assert(reseeded(own) == seq![own]);
            assert(seq![own][0] == own);
        }
    }
}

proof fn lemma_geometry_of(geometries: Seq<Geometry>, res: (u32, u32), i: int, g: int)
    requires
        0 <= i <= g < geometries.len(),
        geometries[g].res == res,
        forall|k: int| i <= k < g ==> (#[trigger] geometries[k]).res != res,
    ensures
        geometry_of(geometries, res, i) == Some(g),
    decreases g - i,
{
    if i < g {
        let here = geometries[i];
        lemma_geometry_of(geometries, res, i + 1, g);
    }
}

/// The frame_num widths are those of field widths.
pub open spec fn widths_small(fs: Seq<u64>) -> bool {
    forall|a: int| 0 <= a < fs.len() ==> #[trigger] fs[a] < 0xffff_fff0
}

proof fn lemma_second_fits(native: Seq<u8>, fs: Seq<u64>)
    requires
        sps_of(native) is Some,
        widths_small(fs),
    ensures
        all_fit(native, width_grid(fs)),
{
    let grid = width_grid(fs);
    lemma_second_grid(fs);
    assert forall|a: int| 0 <= a < grid.len() implies variant(native, #[trigger] grid[a]) is Some by {
        assert(grid.contains(grid[a]));
        let (f, p) = grid[a].unwrap();
        let k = choose|k: int| 0 <= k < fs.len() && fs[k] == f;
        assert(fs[k] < 0xffff_fff0);
        law_guesses_carry_their_widths(native, f, p);
    }
}

/// The SPS of a guess has the widths that it is a guess at.
pub open spec fn has_widths(info: SpsInfo, f: u64, p: Option<u64>) -> bool {
    &&& info.log2_max_frame_num == f + 4
    &&& match p {
        Some(x) => info.poc_type == 0 && info.log2_max_poc_lsb == x + 4,
        None => info.poc_type == 2,
    }
}

/// What the second stage tries for one finalist: at each pinned frame_num width, POC type 2
/// and every POC of 4 to 10 bits, each with every setting, none twice and nothing else.
pub proof fn law_second_stage_tries_each_once(
    c: Candidate,
    geometries: Seq<Geometry>,
    fs: Seq<u64>,
    g: int,
)
    requires
        0 <= g < geometries.len(),
        geometries[g].res == c.res,
        forall|k: int| 0 <= k < g ==> (#[trigger] geometries[k]).res != c.res,
        sps_of(geometries[g].native_sps@) is Some,
        widths_small(fs),
    ensures
        ({
            let all = guesses_for(c, geometries, fs);
            &&& all.len() == 8 * fs.len() * (if c.pps.cabac {
                33int
            } else {
                1
            })
            &&& forall|f: u64, p: Option<u64>, pps: PpsParams|
                #![trigger in_second_grid(fs, Some((f, p))), in_reseeding(c.pps, pps)]
                in_second_grid(fs, Some((f, p))) && in_reseeding(c.pps, pps) ==> exists|i: int|
                    {
                        &&& 0 <= i < all.len()
                        &&& (#[trigger] all[i]).widths == Some((f, p))
                        &&& all[i].pps == pps
                        &&& all[i].res == c.res
                        &&& all[i].geometry == g
                        &&& sps_of(all[i].sps) matches Some(info) && has_widths(info, f, p)
                    }
            &&& forall|i: int|
                0 <= i < all.len() ==> in_second_grid(fs, (#[trigger] all[i]).widths) && in_reseeding(
                    c.pps,
                    all[i].pps,
                )
            &&& fs.no_duplicates() ==> forall|i: int, j: int|
                0 <= i < j < all.len() ==> (#[trigger] all[i]).widths != (#[trigger] all[j]).widths
                    || all[i].pps != all[j].pps
        }),
{
    let native = geometries[g].native_sps@;
    let grid = width_grid(fs);
    let pps_list = reseeded(c.pps);
    let all = guesses_for(c, geometries, fs);
    lemma_geometry_of(geometries, c.res, 0, g);
    lemma_second_fits(native, fs);
    lemma_second_grid(fs);
    lemma_width_grid(fs);
    lemma_reseeded(c.pps);
    lemma_grid(g, c.res, native, grid, pps_list);
    assert(grid.len() * pps_list.len() == 8 * fs.len() * pps_list.len()) by (nonlinear_arith)
        requires
            grid.len() == 8 * fs.len(),
    ;
    assert forall|f: u64, p: Option<u64>, pps: PpsParams|
        #![trigger in_second_grid(fs, Some((f, p))), in_reseeding(c.pps, pps)]
        in_second_grid(fs, Some((f, p))) && in_reseeding(c.pps, pps) implies exists|i: int|
        {
            &&& 0 <= i < all.len()
            &&& (#[trigger] all[i]).widths == Some((f, p))
            &&& all[i].pps == pps
            &&& all[i].res == c.res
            &&& all[i].geometry == g
            &&& sps_of(all[i].sps) matches Some(info) && has_widths(info, f, p)
        } by {
        let w = Some((f, p));
        assert(grid.contains(w) && pps_list.contains(pps));
        let want = Guess {
            res: c.res,
            widths: w,
            pps,
            sps: variant(native, w).unwrap(),
            geometry: g,
        };
        assert(all.contains(want));
        let i = choose|i: int| 0 <= i < all.len() && all[i] == want;
        let a = choose|a: int| 0 <= a < fs.len() && fs[a] == f;
        assert(fs[a] < 0xffff_fff0);
        law_guesses_carry_their_widths(native, f, p);
        assert(all[i].widths == Some((f, p)));
    }
    assert forall|i: int| 0 <= i < all.len() implies in_second_grid(fs, (#[trigger] all[i]).widths)
        && in_reseeding(c.pps, all[i].pps) by {
        assert(grid.contains(all[i].widths));
        assert(pps_list.contains(all[i].pps));
    }
}

proof fn lemma_second_contains(
    c: Seq<Candidate>,
    picked: Seq<usize>,
    geometries: Seq<Geometry>,
    fs: Seq<u64>,
    k: int,
    i: int,
)
    requires
        0 <= k < picked.len(),
        0 <= i < guesses_for(c[picked[k] as int], geometries, fs).len(),
    ensures
        second_guesses(c, picked, geometries, fs).contains(
            guesses_for(c[picked[k] as int], geometries, fs)[i],
        ),
    decreases picked.len(),
{
    let head = picked.drop_last();
    let before = second_guesses(c, head, geometries, fs);
    let last = guesses_for(c[picked.last() as int], geometries, fs);
    let all = second_guesses(c, picked, geometries, fs);
    let x = guesses_for(c[picked[k] as int], geometries, fs)[i];
    if k < head.len() {
        lemma_second_contains(c, head, geometries, fs, k, i);
        let j = choose|j: int| 0 <= j < before.len() && before[j] == x;
        assert(all[j] == x);
    } else {
        assert(all[before.len() + i] == x);
    }
}

/// The second stage leaves no layout out: for every picked finalist whose geometry has an SPS
/// that parses, every pinned frame_num width `f`, POC type 2 (`None`) and every POC width, and
/// every seed, some trial is a guess at just that.
pub proof fn law_second_stage_covers_every_layout(
    c: Seq<Candidate>,
    picked: Seq<usize>,
    geometries: Seq<Geometry>,
    fs: Seq<u64>,
    k: int,
    g: int,
    f: u64,
    p: Option<u64>,
    pps: PpsParams,
)
    requires
        0 <= k < picked.len(),
        0 <= g < geometries.len(),
        geometries[g].res == c[picked[k] as int].res,
        forall|j: int| 0 <= j < g ==> (#[trigger] geometries[j]).res != c[picked[k] as int].res,
        sps_of(geometries[g].native_sps@) is Some,
        widths_small(fs),
        fs.contains(f),
        p matches Some(x) ==> x <= 6,
        in_reseeding(c[picked[k] as int].pps, pps),
    ensures
        exists|i: int|
            {
                let t = #[trigger] second_guesses(c, picked, geometries, fs)[i];
                &&& 0 <= i < second_guesses(c, picked, geometries, fs).len()
                &&& t.widths == Some((f, p))
                &&& t.pps == pps
                &&& t.res == c[picked[k] as int].res
                &&& t.geometry == g
                &&& sps_of(t.sps) matches Some(info) && has_widths(info, f, p)
            },
{
    let one = c[picked[k] as int];
    let here = guesses_for(one, geometries, fs);
    let all = second_guesses(c, picked, geometries, fs);
    law_second_stage_tries_each_once(one, geometries, fs, g);
    assert(in_second_grid(fs, Some((f, p))) && in_reseeding(one.pps, pps));
    let i = choose|i: int|
        {
            &&& 0 <= i < here.len()
            &&& (#[trigger] here[i]).widths == Some((f, p))
            &&& here[i].pps == pps
            &&& here[i].res == one.res
            &&& here[i].geometry == g
            &&& sps_of(here[i].sps) matches Some(info) && has_widths(info, f, p)
        };
    lemma_second_contains(c, picked, geometries, fs, k, i);
    let j = choose|j: int| 0 <= j < all.len() && all[j] == here[i];
    assert(all[j].widths == Some((f, p)));
}

// ---------------------------------------------------------------------------
// The first stage
// ---------------------------------------------------------------------------

/// A width guess of the first stage, by the bits of frame_num and POC: the donor's own, four
/// common layouts, and two without a POC.
pub open spec fn in_first_grid(w: Option<Widths>) -> bool {
    match w {
        None => true,
        Some((f, Some(p))) => {
            let (num, poc) = (f + 4, p + 4);
            (num == 4 && poc == 8) || (num == 5 && poc == 8) || (num == 8 && poc == 9) || (num == 6
                && poc == 7)
        },
        Some((f, None)) => f + 4 == 4 || f + 4 == 5,
    }
}

/// The settings of the first stage: two references, nothing weighted, no chroma offset; CAVLC
/// once, CABAC with every seed within sixteen of 26, without and with 8x8 transforms.
pub open spec fn in_first_settings(p: PpsParams) -> bool {
    &&& p.ref_l0 == 2
    &&& !p.weighted_pred
    &&& p.chroma_qp_offset == 0
    &&& if p.cabac {
        10 <= p.init_qp <= 42
    } else {
        p.init_qp == 26 && !p.transform_8x8
    }
}

proof fn lemma_first_grid()
    ensures
        forall|w: Option<Widths>| #[trigger] first_widths().contains(w) <==> in_first_grid(w),
        first_widths().no_duplicates(),
{
    let all = first_widths();
    assert forall|w: Option<Widths>| #[trigger] all.contains(w) <==> in_first_grid(w) by {
        if in_first_grid(w) {
            assert(w == all[0] || w == all[1] || w == all[2] || w == all[3] || w == all[4] || w
                == all[5] || w == all[6]);
        }
        if all.contains(w) {
            let i = choose|i: int| 0 <= i < all.len() && all[i] == w;
            assert(i == 0 || i == 1 || i == 2 || i == 3 || i == 4 || i == 5 || i == 6);
        }
    }
}

proof fn lemma_first_settings()
    ensures
        forall|p: PpsParams| #[trigger] first_pps().contains(p) <==> in_first_settings(p),
        first_pps().no_duplicates(),
        first_pps().len() == 67,
{
    let (x, y) = (cabac_guess(26, true), cabac_guess(26, false));
    let one = seq![cavlc_guess()];
    let all = first_pps();
    lemma_swept(x);
    lemma_swept(y);
    let (sx, sy) = (swept(x), swept(y));
    assert(all == one + sx + sy);
    assert forall|p: PpsParams| #[trigger] all.contains(p) <==> in_first_settings(p) by {
        if all.contains(p) {
            let i = choose|i: int| 0 <= i < all.len() && all[i] == p;
            if i == 0 {
            } else if i < 34 {
                assert(sx[i - 1] == p);
                assert(sx.contains(p));
            } else {
                assert(sy[i - 34] == p);
                assert(sy.contains(p));
            }
        }
        if in_first_settings(p) {
            if !p.cabac {
                assert(all[0] == p);
            } else if p.transform_8x8 {
                assert(sx.contains(p));
                let i = choose|i: int| 0 <= i < sx.len() && sx[i] == p;
                assert(all[1 + i] == p);
            } else {
                assert(sy.contains(p));
                let i = choose|i: int| 0 <= i < sy.len() && sy[i] == p;
                assert(all[34 + i] == p);
            }
        }
    }
    assert forall|i: int, j: int| 0 <= i < all.len() && 0 <= j < all.len() && i != j implies all[i]
        != all[j] by {
        assert forall|k: int| 1 <= k < 34 implies #[trigger] all[k] == sx[k - 1] && sx[k - 1].cabac
            && sx[k - 1].transform_8x8 by {}
        assert forall|k: int| 34 <= k < 67 implies #[trigger] all[k] == sy[k - 34] && sy[k
            - 34].cabac && !sy[k - 34].transform_8x8 by {}
        let (a, b) = (all[i], all[j]);
        assert(all[i] == a && all[j] == b);
    }
}

proof fn lemma_first_fits(native: Seq<u8>)
    requires
        sps_of(native) is Some,
    ensures
        all_fit(native, first_widths()),
{
    let grid = first_widths();
    lemma_first_grid();
    assert forall|a: int| 0 <= a < grid.len() implies variant(native, #[trigger] grid[a]) is Some by {
        assert(grid.contains(grid[a]));
        if let Some((f, p)) = grid[a] {
            law_guesses_carry_their_widths(native, f, p);
        }
    }
}

proof fn lemma_first_contains(geometries: Seq<Geometry>, g: int, i: int)
    requires
        0 <= g < geometries.len(),
        0 <= i < first_row(geometries, g).len(),
    ensures
        first_guesses(geometries).contains(first_row(geometries, g)[i]),
    decreases geometries.len(),
{
    let head = geometries.drop_last();
    let before = first_guesses(head);
    let all = first_guesses(geometries);
    let x = first_row(geometries, g)[i];
    if g < head.len() {
        assert(first_row(head, g) == first_row(geometries, g));
        lemma_first_contains(head, g, i);
        let j = choose|j: int| 0 <= j < before.len() && before[j] == x;
        assert(all[j] == x);
    } else {
        assert(all[before.len() + i] == x);
    }
}

/// The guesses of the first stage for one geometry.
spec fn first_row(geometries: Seq<Geometry>, g: int) -> Seq<Guess> {
    guesses_over(
        g,
        geometries[g].res,
        geometries[g].native_sps@,
        first_widths(),
        first_pps(),
    )
}

/// The first stage leaves nothing out: for every geometry whose SPS parses, every width guess
/// and every setting, some trial is a guess at just that, with the donor's SPS where the
/// widths are its own.
pub proof fn law_first_stage_covers_every_guess(
    geometries: Seq<Geometry>,
    g: int,
    w: Option<Widths>,
    pps: PpsParams,
)
    requires
        0 <= g < geometries.len(),
        sps_of(geometries[g].native_sps@) is Some,
        in_first_grid(w),
        in_first_settings(pps),
    ensures
        exists|i: int|
            {
                let t = #[trigger] first_guesses(geometries)[i];
                &&& 0 <= i < first_guesses(geometries).len()
                &&& t.widths == w
                &&& t.pps == pps
                &&& t.res == geometries[g].res
                &&& t.geometry == g
                &&& match w {
                    None => t.sps == geometries[g].native_sps@,
                    Some((f, p)) => sps_of(t.sps) matches Some(info) && has_widths(info, f, p),
                }
            },
{
    let native = geometries[g].native_sps@;
    let row = first_row(geometries, g);
    let all = first_guesses(geometries);
    lemma_first_fits(native);
    lemma_first_grid();
    lemma_first_settings();
    lemma_grid(g, geometries[g].res, native, first_widths(), first_pps());
    assert(first_widths().contains(w) && first_pps().contains(pps));
    let want = Guess {
        res: geometries[g].res,
        widths: w,
        pps,
        sps: variant(native, w).unwrap(),
        geometry: g,
    };
    assert(row.contains(want));
    let i = choose|i: int| 0 <= i < row.len() && row[i] == want;
    lemma_first_contains(geometries, g, i);
    let j = choose|j: int| 0 <= j < all.len() && all[j] == want;
    if let Some((f, p)) = w {
        law_guesses_carry_their_widths(native, f, p);
    }
    assert(all[j].widths == w);
}

// ---------------------------------------------------------------------------
// Refinement
// ---------------------------------------------------------------------------

proof fn lemma_refinements(c: Seq<Candidate>, i: int, j: int)
    ensures
        refinements(c).len() == 8 * c.len(),
        0 <= i < c.len() && 0 <= j < 8 ==> refinements(c)[8 * i + j] == refined(c[i], j),
    decreases c.len(),
{
    if c.len() > 0 {
        let head = c.drop_last();
        lemma_refinements(head, i, j);
        let before = refinements(head);
        let last = Seq::new(8, |j: int| refined(c.last(), j));
        let all = refinements(c);
        if 0 <= i < c.len() && 0 <= j < 8 {
            if i < head.len() {
                assert(all[8 * i + j] == before[8 * i + j]);
            } else {
                assert(all[8 * i + j] == last[j]);
            }
        }
    }
}

/// Refinement tries every survivor with one to four references, without and with weighted
/// prediction: eight trials each, all else as it was.
pub proof fn law_refinement_tries_every_reference_count(
    c: Seq<Candidate>,
    i: int,
    references: u32,
    weighted: bool,
)
    requires
        0 <= i < c.len(),
        1 <= references <= 4,
    ensures
        refinements(c).len() == 8 * c.len(),
        exists|k: int|
            {
                let t = #[trigger] refinements(c)[k];
                &&& 8 * i <= k < 8 * i + 8
                &&& t.pps.ref_l0 == references
                &&& t.pps.weighted_pred == weighted
                &&& t.pps == (PpsParams {
                    ref_l0: references,
                    weighted_pred: weighted,
                    ..c[i].pps
                })
                &&& t.res == c[i].res
                &&& t.widths == c[i].widths
                &&& t.sps == c[i].sps@
                &&& t.geometry == c[i].geometry
            },
{
    let j = 2 * (references - 1) + (if weighted {
        1int
    } else {
        0
    });
    lemma_refinements(c, i, j);
    let t = refinements(c)[8 * i + j];
    assert(t == refined(c[i], j));
    assert(j / 2 == references - 1);
}

// ---------------------------------------------------------------------------
// Who stands first
// ---------------------------------------------------------------------------

/// How a tally counts: as the share of counts that behaved, or as one half where fewer than
/// sixteen were asked.
pub open spec fn share(t: Option<Tally>) -> (int, int) {
    match t {
        Some(Tally { ok, tot }) => if tot >= 16 {
            (ok as int, tot as int)
        } else {
            (1, 2)
        },
        None => (1, 2),
    }
}

/// Who is ranked first has no more errors; of two with as many, the share of its counts is
/// not smaller; of two with the same share, its score is not lower; and of equals, it was
/// there first.
pub proof fn law_ranking_goes_by_errors_then_count_then_score(
    order: Seq<usize>,
    s: Seq<Standing>,
    a: int,
    b: int,
)
    requires
        is_ranking(order, s),
        0 <= a < b < order.len(),
    ensures
        ({
            let (i, j) = (order[a] as int, order[b] as int);
            let (x, y) = (share(s[i].consistency), share(s[j].consistency));
            &&& s[i].errors <= s[j].errors
            &&& s[i].errors == s[j].errors ==> {
                &&& x.0 * y.1 >= y.0 * x.1
                &&& x.0 * y.1 == y.0 * x.1 ==> {
                    &&& s[i].score >= s[j].score
                    &&& s[i].score == s[j].score ==> i < j
                }
            }
        }),
{
    let (i, j) = (order[a] as int, order[b] as int);
    assert(precedes(s, i, j));
    assert(fraction(s[i].consistency) == share(s[i].consistency));
    assert(fraction(s[j].consistency) == share(s[j].consistency));
    assert(exceeds(share(s[i].consistency), share(s[j].consistency)) == (share(
        s[i].consistency,
    ).0 * share(s[j].consistency).1 > share(s[j].consistency).0 * share(s[i].consistency).1));
    assert(outranks(s[i], s[j]) || !outranks(s[j], s[i]));
}

/// The picks so far: each the first of its resolution, none dirty behind a clean first one.
spec fn fair(c: Seq<Candidate>, i: int, picked: Seq<int>) -> bool {
    &&& picked.len() <= 3
    &&& forall|k: int| 0 <= k < picked.len() ==> 0 <= #[trigger] picked[k] < i
    &&& forall|k: int, l: int|
        0 <= k < l < picked.len() ==> #[trigger] picked[k] < #[trigger] picked[l]
            && c[picked[k]].res != c[picked[l]].res
    &&& i > 0 ==> picked.len() > 0 && picked[0] == 0
    &&& i > 0 && c[0].errors == 0 ==> forall|k: int|
        0 <= k < picked.len() ==> c[#[trigger] picked[k]].errors == 0
}

/// Why a candidate is not picked: a better one of its resolution is, or three are, or there
/// is a clean first one and an error at it or before it.
pub open spec fn passed_over(c: Seq<Candidate>, picked: Seq<int>, n: int) -> bool {
    ||| exists|k: int| 0 <= k < picked.len() && #[trigger] picked[k] < n && c[picked[k]].res == c[n].res
    ||| picked.len() == 3 && picked[2] < n
    ||| c[0].errors == 0 && exists|j: int| 0 <= j <= n && (#[trigger] c[j]).errors > 0
}

proof fn lemma_finalists(c: Seq<Candidate>, i: int, picked: Seq<int>)
    requires
        0 <= i <= c.len(),
        fair(c, i, picked),
        forall|n: int| 0 <= n < i ==> picked.contains(n) || #[trigger] passed_over(c, picked, n),
    ensures
        ({
            let r = finalists_from(c, i, picked);
            &&& fair(c, c.len() as int, r)
            &&& forall|n: int| 0 <= n < c.len() ==> r.contains(n) || #[trigger] passed_over(c, r, n)
        }),
    decreases c.len() - i,
{
    let r = finalists_from(c, i, picked);
    if i >= c.len() {
    } else if picked.len() >= 3 {
        assert forall|n: int| 0 <= n < c.len() implies r.contains(n) || #[trigger] passed_over(
            c,
            r,
            n,
        ) by {
            if n < i {
                assert(picked.contains(n) || passed_over(c, picked, n));
            } else {
                assert(picked[2] < i);
            }
        }
    } else if c[i].errors > 0 && picked.len() > 0 && c[picked[0]].errors == 0 {
        assert(picked[0] == 0) by {
            assert(0 <= picked[0] < i);
        }
        assert forall|n: int| 0 <= n < c.len() implies r.contains(n) || #[trigger] passed_over(
            c,
            r,
            n,
        ) by {
            if n < i {
                assert(picked.contains(n) || passed_over(c, picked, n));
            } else {
                assert(c[i].errors > 0 && i <= n);
            }
        }
    } else if exists|k: int| 0 <= k < picked.len() && c[#[trigger] picked[k]].res == c[i].res {
        let k = choose|k: int| 0 <= k < picked.len() && c[#[trigger] picked[k]].res == c[i].res;
        assert(0 <= picked[k] < i);
        assert(passed_over(c, picked, i));
        lemma_finalists(c, i + 1, picked);
    } else {
        let more = picked.push(i);
        assert forall|n: int| 0 <= n < i + 1 implies more.contains(n) || #[trigger] passed_over(
            c,
            more,
            n,
        ) by {
            if n == i {
                assert(more[picked.len() as int] == i);
            } else if picked.contains(n) {
                let k = choose|k: int| 0 <= k < picked.len() && picked[k] == n;
                assert(more[k] == n);
            } else {
                assert(passed_over(c, picked, n));
                if exists|k: int|
                    0 <= k < picked.len() && #[trigger] picked[k] < n && c[picked[k]].res == c[n].res {
                    let k = choose|k: int|
                        0 <= k < picked.len() && #[trigger] picked[k] < n && c[picked[k]].res
                            == c[n].res;
                    assert(more[k] == picked[k]);
                }
            }
        }
        assert(fair(c, i + 1, more)) by {
            assert forall|k: int| 0 <= k < more.len() implies 0 <= #[trigger] more[k] < i + 1 by {
                if k < picked.len() {
                    assert(more[k] == picked[k]);
                }
            }
            assert forall|k: int, l: int| 0 <= k < l < more.len() implies #[trigger] more[k]
                < #[trigger] more[l] && c[more[k]].res != c[more[l]].res by {
                assert(more[k] == picked[k]);
                if l < picked.len() {
                    assert(more[l] == picked[l]);
                } else {
                    assert(0 <= picked[k] < i);
                }
            }
            if picked.len() > 0 {
                assert(more[0] == picked[0]);
                assert(0 <= picked[0] < i);
            }
            if c[0].errors == 0 {
                assert forall|k: int| 0 <= k < more.len() implies c[#[trigger] more[k]].errors == 0 by {
                    if k < picked.len() {
                        assert(more[k] == picked[k]);
                        assert(c[picked[k]].errors == 0);
                    }
                }
            }
        }
        lemma_finalists(c, i + 1, more);
    }
}

/// The finalists are three at most, in order, of different resolutions, the best candidate
/// first; with a clean best one, all are clean. Whoever is not among them was passed over for
/// a reason.
pub proof fn law_finalists_are_the_best_of_each_resolution(c: Seq<Candidate>)
    ensures
        ({
            let r = finalists_from(c, 0, seq![]);
            &&& r.len() <= 3
            &&& c.len() > 0 ==> r.len() > 0 && r[0] == 0
            &&& forall|k: int, l: int|
                0 <= k < l < r.len() ==> #[trigger] r[k] < #[trigger] r[l] && c[r[k]].res != c[r[l]].res
            &&& c.len() > 0 && c[0].errors == 0 ==> forall|k: int|
                0 <= k < r.len() ==> c[#[trigger] r[k]].errors == 0
            &&& forall|n: int| 0 <= n < c.len() ==> r.contains(n) || #[trigger] passed_over(c, r, n)
        }),
{
    lemma_finalists(c, 0, seq![]);
}

} // verus!
