//! What a glance at decoded frames promises: frames come out of a raw buffer one by one, every
//! gradient stands where its two samples do, an edge weighs on the grid only where it lies on it,
//! and sums count each sample once.
use crate::gestalt::{
    brightness, chroma_samples, difference, energy, frame_size, gap_count, gap_if, gradients_of,
    insane, insane_of, one_if, picture_of, pictures_from, Picture,
};
use crate::streams::run_together;
use vstd::arithmetic::div_mod::lemma_fundamental_div_mod_converse;
use vstd::prelude::*;

verus! {

// ---------------------------------------------------------------------------
// Frames
// ---------------------------------------------------------------------------

/// Half of a length, rounded up: what is left once its lower half is gone.
pub open spec fn upper_half(n: int) -> int {
    n - n / 2
}

/// A frame of which every plane is there: luma for each pixel, and either chroma for each
/// square of two by two pixels, those at the edges among them.
pub open spec fn full(f: Picture, w: int, h: int) -> bool {
    &&& f.w == w && f.h == h
    &&& f.y.len() == w * h
    &&& f.u.len() == upper_half(w) * upper_half(h)
    &&& f.v.len() == upper_half(w) * upper_half(h)
}

/// A frame as a decoder writes it: luma, then the one chroma plane, then the other.
pub open spec fn raw(f: Picture) -> Seq<u8> {
    f.y + f.u + f.v
}

proof fn lemma_frame_found(front: Seq<u8>, f: Picture, rest: Seq<u8>, w: int, h: int)
    requires
        w >= 32,
        h >= 32,
        full(f, w, h),
    ensures
        ({
            let d = front + raw(f) + rest;
            let p = front.len() as int;
            let size = frame_size(w, h);
            &&& size == raw(f).len()
            &&& size > 0
            &&& p + size <= d.len()
            &&& picture_of(d.subrange(p, p + size), w, h) == Some(f)
        }),
{
    let d = front + raw(f) + rest;
    let p = front.len() as int;
    let size = frame_size(w, h);
    assert(upper_half(w) == (w + 1) / 2 && upper_half(h) == (h + 1) / 2);
    assert(chroma_samples(w, h) == upper_half(w) * upper_half(h));
    assert(w * h >= 1024) by (nonlinear_arith)
        requires
            w >= 32,
            h >= 32,
    ;
    let cut = d.subrange(p, p + size);
    assert(cut =~= raw(f));
    vstd::arithmetic::div_mod::lemma_mod_self_0(size);
    let (ys, cs) = (w * h, chroma_samples(w, h));
    assert(cut.subrange(0, ys) =~= f.y);
    assert(cut.subrange(ys, ys + cs) =~= f.u);
    assert(cut.subrange(ys + cs, ys + 2 * cs) =~= f.v);
}

proof fn lemma_frames_found(front: Seq<u8>, frames: Seq<Picture>, tail: Seq<u8>, w: int, h: int)
    requires
        w >= 32,
        h >= 32,
        forall|i: int| 0 <= i < frames.len() ==> full(#[trigger] frames[i], w, h),
        tail.len() < w * h + 2 * (upper_half(w) * upper_half(h)),
    ensures
        pictures_from(
            front + run_together(frames.map_values(|f: Picture| raw(f))) + tail,
            w,
            h,
            front.len() as int,
        ) == frames,
    decreases frames.len(),
{
    let parts = frames.map_values(|f: Picture| raw(f));
    let d = front + run_together(parts) + tail;
    assert(upper_half(w) == (w + 1) / 2 && upper_half(h) == (h + 1) / 2);
    if frames.len() == 0 {
        assert(run_together(parts) =~= Seq::<u8>::empty());
        assert(pictures_from(d, w, h, front.len() as int) =~= frames);
    } else {
        let f = frames[0];
        let more = frames.drop_first();
        let rest = more.map_values(|f: Picture| raw(f));
        assert(parts.drop_first() =~= rest);
        assert(parts[0] == raw(f));
        assert(d =~= front + raw(f) + (run_together(rest) + tail));
        lemma_frame_found(front, f, run_together(rest) + tail, w, h);
        assert(d =~= (front + raw(f)) + run_together(rest) + tail);
        assert forall|i: int| 0 <= i < more.len() implies full(#[trigger] more[i], w, h) by {
            assert(more[i] == frames[i + 1]);
        }
        lemma_frames_found(front + raw(f), more, tail, w, h);
        assert(seq![f] + more =~= frames);
    }
}

/// Frames come out as they were written, one by one, and what is less than a frame at the end
/// is dropped.
pub proof fn law_frames_come_out_as_written(frames: Seq<Picture>, tail: Seq<u8>, w: int, h: int)
    requires
        w >= 32,
        h >= 32,
        forall|i: int| 0 <= i < frames.len() ==> full(#[trigger] frames[i], w, h),
        tail.len() < w * h + 2 * (upper_half(w) * upper_half(h)),
    ensures
        pictures_from(run_together(frames.map_values(|f: Picture| raw(f))) + tail, w, h, 0)
            == frames,
{
    let none = Seq::<u8>::empty();
    lemma_frames_found(none, frames, tail, w, h);
    let d = run_together(frames.map_values(|f: Picture| raw(f))) + tail;
    assert(none + run_together(frames.map_values(|f: Picture| raw(f))) + tail =~= d);
}

/// A frame that is less than 32 pixels wide or high is none to judge, whatever is in the buffer.
pub proof fn law_small_frames_are_not_judged(d: Seq<u8>, w: int, h: int, p: int)
    requires
        w < 32 || h < 32,
    ensures
        picture_of(d, w, h) is None,
        pictures_from(d, w, h, p) == Seq::<Picture>::empty(),
    decreases d.len() - p,
{
    let size = frame_size(w, h);
    if size > 0 && p >= 0 && p + size <= d.len() {
        law_small_frames_are_not_judged(d, w, h, p + size);
    }
}

// ---------------------------------------------------------------------------
// Gradients
// ---------------------------------------------------------------------------

proof fn lemma_row_place(w: int, r: int, x: int)
    requires
        w > 0,
        0 <= r,
        0 <= x < w,
    ensures
        (r * w + x) % w == x,
        (r * w + x) / w == r,
        r * w >= 0,
{
    lemma_fundamental_div_mod_converse(r * w + x, w, r, x);
    assert(r * w >= 0) by (nonlinear_arith)
        requires
            w > 0,
            r >= 0,
    ;
}

/// The differences between neighbours of the first `x` samples of a row.
pub open spec fn row_steps(y: Seq<u8>, start: int, x: int) -> Seq<int> {
    Seq::new((x - 1) as nat, |k: int| y[start + k + 1] - y[start + k])
}

proof fn lemma_gradient_row(y: Seq<u8>, w: int, r: int, x: int)
    requires
        w > 0,
        0 <= r,
        1 <= x <= w,
    ensures
        gradients_of(y, w, r * w + x) == gradients_of(y, w, r * w) + row_steps(y, r * w, x),
    decreases x,
{
    lemma_row_place(w, r, x - 1);
    let before = gradients_of(y, w, r * w);
    if x == 1 {
        assert(row_steps(y, r * w, 1) =~= Seq::<int>::empty());
        assert(before + row_steps(y, r * w, 1) =~= before);
    } else {
        lemma_gradient_row(y, w, r, x - 1);
        assert(r * w + x - 1 == r * w + (x - 1));
        assert(row_steps(y, r * w, x) =~= row_steps(y, r * w, x - 1).push(
            y[r * w + x - 1] - y[r * w + x - 2],
        ));
        assert(gradients_of(y, w, r * w + x) =~= before + row_steps(y, r * w, x));
    }
}

/// The gradients of a frame, row by row: the difference of each sample to its left neighbour,
/// and none between the end of a row and the start of the next.
pub proof fn law_gradients_are_steps_along_rows(y: Seq<u8>, w: int, h: int, r: int, x: int)
    requires
        w > 0,
        0 <= h,
    ensures
        gradients_of(y, w, h * w).len() == h * (w - 1),
        0 <= r < h && 1 <= x < w ==> gradients_of(y, w, h * w)[r * (w - 1) + x - 1] == y[r * w + x]
            - y[r * w + x - 1],
    decreases h,
{
    if h == 0 {
        assert(0 * w == 0 && 0 * (w - 1) == 0) by (nonlinear_arith);
    } else {
        let k = h - 1;
        law_gradients_are_steps_along_rows(y, w, k, r, x);
        lemma_gradient_row(y, w, k, w);
        assert(h * w == k * w + w) by (nonlinear_arith)
            requires
                k == h - 1,
        ;
        assert(h * (w - 1) == k * (w - 1) + (w - 1)) by (nonlinear_arith)
            requires
                k == h - 1,
        ;
        if 0 <= r < h && 1 <= x < w {
            if r < k {
                assert(r * (w - 1) + (w - 1) <= k * (w - 1)) by (nonlinear_arith)
                    requires
                        r + 1 <= k,
                        w > 0,
                ;
            }
            assert(r * (w - 1) >= 0) by (nonlinear_arith)
                requires
                    r >= 0,
                    w > 0,
            ;
        }
    }
}

// ---------------------------------------------------------------------------
// Seams
// ---------------------------------------------------------------------------

/// How far two samples are apart.
pub open spec fn apart(a: u8, b: u8) -> int {
    if a < b {
        b - a
    } else {
        a - b
    }
}

/// A frame with one edge down it: one shade left of column `c`, another from there on.
pub open spec fn split_down(y: Seq<u8>, w: int, c: int, a: u8, b: u8) -> bool {
    forall|i: int|
        0 <= i < y.len() ==> #[trigger] y[i] == if i % w < c {
            a
        } else {
            b
        }
}

/// A frame with one edge across it: one shade above row `c`, another from there on.
pub open spec fn split_across(y: Seq<u8>, w: int, c: int, a: u8, b: u8) -> bool {
    forall|i: int|
        0 <= i < y.len() ==> #[trigger] y[i] == if i / w < c {
            a
        } else {
            b
        }
}

proof fn lemma_row_fits(len: nat, w: int, h: int, r: int, x: int)
    requires
        w > 0,
        0 <= r < h,
        0 <= x < w,
        len == h * w,
    ensures
        0 <= r * w + x < len,
        r > 0 ==> 0 <= r * w + x - w && (r * w + x - w) % w == x && (r * w + x - w) / w == r - 1,
        x > 0 ==> (r * w + x - 1) % w == x - 1 && (r * w + x - 1) / w == r,
{
    lemma_row_place(w, r, x);
    assert(r * w + w <= h * w) by (nonlinear_arith)
        requires
            r + 1 <= h,
            w > 0,
    ;
    if r > 0 {
        lemma_row_place(w, r - 1, x);
        assert((r - 1) * w == r * w - w) by (nonlinear_arith);
    }
    if x > 0 {
        lemma_row_place(w, r, x - 1);
    }
}

proof fn lemma_down_row(
    y: Seq<u8>,
    w: int,
    h: int,
    c: int,
    a: u8,
    b: u8,
    grid: bool,
    r: int,
    x: int,
)
    requires
        0 < c < w,
        0 <= r < h,
        0 <= x <= w,
        y.len() == h * w,
        split_down(y, w, c, a, b),
    ensures
        energy(y, w, r * w + x, grid) == energy(y, w, r * w, grid) + if x > c && (c % 16 == 0)
            == grid {
            apart(a, b)
        } else {
            0
        },
    decreases x,
{
    if x > 0 {
        let i = r * w + (x - 1);
        lemma_down_row(y, w, h, c, a, b, grid, r, x - 1);
        lemma_row_fits(y.len(), w, h, r, x - 1);
        lemma_row_place(w, r, x - 1);
        assert(y[i] == if i % w < c {
            a
        } else {
            b
        });
        if r > 0 {
            assert(y[i - w] == y[i]);
        }
        if x - 1 > 0 {
            assert(y[i - 1] == if (i - 1) % w < c {
                a
            } else {
                b
            });
        }
        assert(gap_if(y, i, r, w, grid) == 0);
        assert(gap_if(y, i, x - 1, 1, grid) == if x - 1 == c && (c % 16 == 0) == grid {
            apart(a, b)
        } else {
            0
        });
        assert(energy(y, w, i + 1, grid) == energy(y, w, i, grid) + gap_if(y, i, i % w, 1, grid)
            + gap_if(y, i, i / w, w, grid));
    }
}

proof fn lemma_down(y: Seq<u8>, w: int, h: int, c: int, a: u8, b: u8, grid: bool, r: int)
    requires
        0 < c < w,
        0 <= r <= h,
        y.len() == h * w,
        split_down(y, w, c, a, b),
    ensures
        energy(y, w, r * w, grid) == if (c % 16 == 0) == grid {
            r * apart(a, b)
        } else {
            0
        },
    decreases r,
{
    if r == 0 {
        assert(0 * w == 0 && 0 * apart(a, b) == 0) by (nonlinear_arith);
    } else {
        lemma_down(y, w, h, c, a, b, grid, r - 1);
        lemma_down_row(y, w, h, c, a, b, grid, r - 1, w);
        assert((r - 1) * w + w == r * w) by (nonlinear_arith);
        let g = apart(a, b);
        assert((r - 1) * g + g == r * g) by (nonlinear_arith);
    }
}

/// An edge down a frame weighs once for each row: on the grid where its column is a multiple
/// of sixteen, and elsewhere where it is none.
pub proof fn law_an_edge_down_weighs_by_its_column(
    y: Seq<u8>,
    w: int,
    h: int,
    c: int,
    a: u8,
    b: u8,
)
    requires
        0 < c < w,
        0 <= h,
        y.len() == h * w,
        split_down(y, w, c, a, b),
    ensures
        c % 16 == 0 ==> energy(y, w, h * w, true) == h * apart(a, b) && energy(y, w, h * w, false)
            == 0,
        c % 16 != 0 ==> energy(y, w, h * w, false) == h * apart(a, b) && energy(y, w, h * w, true)
            == 0,
{
    lemma_down(y, w, h, c, a, b, true, h);
    lemma_down(y, w, h, c, a, b, false, h);
}

proof fn lemma_across_row(
    y: Seq<u8>,
    w: int,
    h: int,
    c: int,
    a: u8,
    b: u8,
    grid: bool,
    r: int,
    x: int,
)
    requires
        0 < w,
        0 < c < h,
        0 <= r < h,
        0 <= x <= w,
        y.len() == h * w,
        split_across(y, w, c, a, b),
    ensures
        energy(y, w, r * w + x, grid) == energy(y, w, r * w, grid) + if r == c && (c % 16 == 0)
            == grid {
            x * apart(a, b)
        } else {
            0
        },
    decreases x,
{
    let g = apart(a, b);
    if x == 0 {
        assert(0 * g == 0) by (nonlinear_arith);
    } else {
        let i = r * w + (x - 1);
        lemma_across_row(y, w, h, c, a, b, grid, r, x - 1);
        lemma_row_fits(y.len(), w, h, r, x - 1);
        lemma_row_place(w, r, x - 1);
        assert(y[i] == if i / w < c {
            a
        } else {
            b
        });
        if r > 0 {
            assert(y[i - w] == if (i - w) / w < c {
                a
            } else {
                b
            });
        }
        if x - 1 > 0 {
            assert(y[i - 1] == y[i]);
        }
        assert(gap_if(y, i, x - 1, 1, grid) == 0);
        assert(gap_if(y, i, r, w, grid) == if r == c && (c % 16 == 0) == grid {
            g
        } else {
            0
        });
        assert((x - 1) * g + g == x * g) by (nonlinear_arith);
        assert(energy(y, w, i + 1, grid) == energy(y, w, i, grid) + gap_if(y, i, i % w, 1, grid)
            + gap_if(y, i, i / w, w, grid));
    }
}

proof fn lemma_across(y: Seq<u8>, w: int, h: int, c: int, a: u8, b: u8, grid: bool, r: int)
    requires
        0 < w,
        0 < c < h,
        0 <= r <= h,
        y.len() == h * w,
        split_across(y, w, c, a, b),
    ensures
        energy(y, w, r * w, grid) == if r > c && (c % 16 == 0) == grid {
            w * apart(a, b)
        } else {
            0
        },
    decreases r,
{
    if r == 0 {
        assert(0 * w == 0) by (nonlinear_arith);
    } else {
        lemma_across(y, w, h, c, a, b, grid, r - 1);
        lemma_across_row(y, w, h, c, a, b, grid, r - 1, w);
        assert((r - 1) * w + w == r * w) by (nonlinear_arith);
    }
}

/// An edge across a frame weighs once for each column: on the grid where its row is a multiple
/// of sixteen, and elsewhere where it is none.
pub proof fn law_an_edge_across_weighs_by_its_row(
    y: Seq<u8>,
    w: int,
    h: int,
    c: int,
    a: u8,
    b: u8,
)
    requires
        0 < w,
        0 < c < h,
        y.len() == h * w,
        split_across(y, w, c, a, b),
    ensures
        c % 16 == 0 ==> energy(y, w, h * w, true) == w * apart(a, b) && energy(y, w, h * w, false)
            == 0,
        c % 16 != 0 ==> energy(y, w, h * w, false) == w * apart(a, b) && energy(y, w, h * w, true)
            == 0,
{
    lemma_across(y, w, h, c, a, b, true, h);
    lemma_across(y, w, h, c, a, b, false, h);
}

/// How many of the first `x` places of a row or column lie on the grid, its start apart.
pub open spec fn grid_places(x: int) -> int {
    if x <= 1 {
        0
    } else {
        (x - 1) / 16
    }
}

proof fn lemma_count_row(w: int, r: int, x: int, grid: bool)
    requires
        w > 0,
        0 <= r,
        0 <= x <= w,
    ensures
        gap_count(w, r * w + x, grid) == gap_count(w, r * w, grid) + (if grid {
            grid_places(x)
        } else if x > 0 {
            x - 1 - grid_places(x)
        } else {
            0
        }) + x * one_if(r, grid),
    decreases x,
{
    let v = one_if(r, grid);
    if x == 0 {
        assert(0 * v == 0) by (nonlinear_arith);
    } else {
        lemma_count_row(w, r, x - 1, grid);
        lemma_row_place(w, r, x - 1);
        let i = r * w + (x - 1);
        assert(gap_count(w, i + 1, grid) == gap_count(w, i, grid) + one_if(i % w, grid) + one_if(
            i / w,
            grid,
        ));
        assert((x - 1) * v + v == x * v) by (nonlinear_arith);
    }
}

proof fn lemma_counts(w: int, r: int, grid: bool)
    requires
        w > 0,
        0 <= r,
    ensures
        gap_count(w, r * w, grid) == if grid {
            r * grid_places(w) + w * grid_places(r)
        } else if r > 0 {
            r * (w - 1 - grid_places(w)) + w * (r - 1 - grid_places(r))
        } else {
            0
        },
    decreases r,
{
    let g = grid_places(w);
    if r == 0 {
        assert(0 * w == 0 && 0 * g == 0 && w * 0 == 0) by (nonlinear_arith);
    } else {
        let k = r - 1;
        lemma_counts(w, k, grid);
        lemma_count_row(w, k, w, grid);
        assert(k * w + w == r * w) by (nonlinear_arith)
            requires
                k == r - 1,
        ;
        let (p, q) = (grid_places(r), grid_places(k));
        assert(k * g + g == r * g) by (nonlinear_arith)
            requires
                k == r - 1,
        ;
        assert(k * (w - 1 - g) + (w - 1 - g) == r * (w - 1 - g)) by (nonlinear_arith)
            requires
                k == r - 1,
        ;
        let one = one_if(k, grid);
        if grid {
            assert(p == q + one);
            assert(w * p == w * q + w * one) by (nonlinear_arith)
                requires
                    p == q + one,
            ;
        } else if k > 0 {
            assert(r - 1 - p == k - 1 - q + one);
            let (s, t) = (r - 1 - p, k - 1 - q);
            assert(w * s == w * t + w * one) by (nonlinear_arith)
                requires
                    s == t + one,
            ;
        } else {
            assert(one == 0 && p == 0);
            assert(w * one == 0 && w * (r - 1 - p) == 0) by (nonlinear_arith)
                requires
                    one == 0,
                    r == 1,
                    p == 0,
            ;
            assert(0 * w == 0) by (nonlinear_arith);
        }
    }
}

/// How many gaps there are: one between any two neighbours, along rows and along columns, of
/// which every sixteenth lies on the grid.
pub proof fn law_gaps_lie_between_neighbours(w: int, h: int)
    requires
        w > 0,
        h > 0,
    ensures
        gap_count(w, h * w, true) == h * ((w - 1) / 16) + w * ((h - 1) / 16),
        gap_count(w, h * w, true) + gap_count(w, h * w, false) == h * (w - 1) + w * (h - 1),
{
    lemma_counts(w, h, true);
    lemma_counts(w, h, false);
    let (g, k) = (grid_places(w), grid_places(h));
    assert(h * g + h * (w - 1 - g) == h * (w - 1)) by (nonlinear_arith);
    assert(w * k + w * (h - 1 - k) == w * (h - 1)) by (nonlinear_arith);
}

// ---------------------------------------------------------------------------
// Colour and light
// ---------------------------------------------------------------------------

/// Chroma is insane where it is in one of the four corners of the gamut: the two values add up
/// to nearly all or nearly nothing, or one is far above the other.
pub proof fn law_insane_chroma_is_in_the_corners(u: u8, v: u8)
    ensures
        insane(u, v) <==> u + v > 436 || u + v < 76 || u - v > 180 || v - u > 180,
{
}

/// As many samples are insane as there are places at which both planes together are.
pub proof fn law_insane_samples_are_counted(u: Seq<u8>, v: Seq<u8>, n: int)
    requires
        0 <= n,
    ensures
        insane_of(u, v, n) == Seq::new(n as nat, |i: int| i).filter(
            |i: int| insane(u[i], v[i]),
        ).len(),
    decreases n,
{
    reveal(Seq::filter);
    let all = Seq::new(n as nat, |i: int| i);
    if n > 0 {
        law_insane_samples_are_counted(u, v, n - 1);
        assert(all.drop_last() =~= Seq::new((n - 1) as nat, |i: int| i));
        assert(all.last() == n - 1);
    }
}

/// A black frame has no light, and where one sample changes, the light changes by as much.
pub proof fn law_every_sample_adds_its_light(y: Seq<u8>, n: int, i: int, x: u8)
    requires
        0 <= n <= y.len(),
        0 <= i < n,
    ensures
        brightness(y.update(i, x), n) - brightness(y, n) == x - y[i],
        (forall|k: int| 0 <= k < n ==> #[trigger] y[k] == 0) ==> brightness(y, n) == 0,
    decreases n,
{
    if i < n - 1 {
        law_every_sample_adds_its_light(y, n - 1, i, x);
    } else {
        lemma_light_below(y, n - 1, i, x);
        lemma_black(y, n - 1);
    }
}

proof fn lemma_light_below(y: Seq<u8>, n: int, i: int, x: u8)
    requires
        0 <= n <= i < y.len(),
    ensures
        brightness(y.update(i, x), n) == brightness(y, n),
    decreases n,
{
    if n > 0 {
        lemma_light_below(y, n - 1, i, x);
    }
}

proof fn lemma_black(y: Seq<u8>, n: int)
    ensures
        (forall|k: int| 0 <= k < n ==> #[trigger] y[k] == 0) ==> brightness(y, n) == 0,
    decreases n,
{
    if n > 0 {
        lemma_black(y, n - 1);
    }
}

proof fn lemma_difference_below(a: Seq<u8>, b: Seq<u8>, n: int, i: int, x: u8)
    requires
        0 <= n <= i < b.len(),
    ensures
        difference(a, b.update(i, x), n) == difference(a, b, n),
    decreases n,
{
    if n > 0 {
        lemma_difference_below(a, b, n - 1, i, x);
    }
}

/// Every sample adds how far it is from the other frame's: once it is made equal, just that is
/// gone. It is the same whichever frame comes first.
pub proof fn law_every_sample_adds_its_difference(a: Seq<u8>, b: Seq<u8>, n: int, i: int)
    requires
        0 <= n <= a.len(),
        n <= b.len(),
        0 <= i < n,
    ensures
        difference(a, b, n) == difference(a, b.update(i, a[i]), n) + apart(a[i], b[i]),
        difference(a, b, n) == difference(b, a, n),
    decreases n,
{
    if i < n - 1 {
        law_every_sample_adds_its_difference(a, b, n - 1, i);
    } else {
        lemma_difference_below(a, b, n - 1, i, a[i]);
        lemma_difference_turned(a, b, n - 1);
    }
}

proof fn lemma_difference_turned(a: Seq<u8>, b: Seq<u8>, n: int)
    ensures
        difference(a, b, n) == difference(b, a, n),
    decreases n,
{
    if n > 0 {
        lemma_difference_turned(a, b, n - 1);
    }
}

} // verus!
