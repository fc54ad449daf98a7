//! Gestalt: does this buffer of pixels look like a *picture*?
//!
//! When brute-forcing decode parameters for a headless stream, "0 decoder
//! errors" is necessary but not sufficient: a wrong guess can decode
//! "cleanly" into confetti. This module measures what a glance sees, as exact
//! whole numbers:
//!
//!  - **gradients**: natural images are mostly flat with sparse, strong
//!    edges. Misdecoded garbage is texture everywhere.
//!  - **seams**: a decoder hallucinating from misaligned entropy data
//!    paints hard discontinuities along the 16x16 macroblock grid.
//!  - **insane chroma**: parameter mismatches produce saturated rainbow
//!    soup; real frames keep chroma concentrated near neutral.
//!  - **luma difference**: consecutive frames of real video correlate
//!    strongly; garbage decorrelates.
use crate::bytes::push_all;
use vstd::arithmetic::div_mod::lemma_fundamental_div_mod_converse;
use vstd::prelude::*;

verus! {

/// One decoded frame, yuv420p.
pub struct Frame {
    pub w: usize,
    pub h: usize,
    pub y: Vec<u8>,
    pub u: Vec<u8>,
    pub v: Vec<u8>,
}

/// A frame's picture, as sequences.
pub struct Picture {
    pub w: int,
    pub h: int,
    pub y: Seq<u8>,
    pub u: Seq<u8>,
    pub v: Seq<u8>,
}

impl View for Frame {
    type V = Picture;

    open spec fn view(&self) -> Picture {
        Picture { w: self.w as int, h: self.h as int, y: self.y@, u: self.u@, v: self.v@ }
    }
}

/// How many samples a chroma plane has: half the width and half the height, rounded up.
pub open spec fn chroma_samples(w: int, h: int) -> int {
    ((w + 1) / 2) * ((h + 1) / 2)
}

/// How many bytes a yuv420p frame takes.
pub open spec fn frame_size(w: int, h: int) -> int {
    w * h + 2 * chroma_samples(w, h)
}

/// The first frame of a raw yuv420p buffer. None if the buffer does not divide evenly
/// into frames, or holds none, or the frame is less than 32 pixels wide or high.
pub open spec fn picture_of(data: Seq<u8>, w: int, h: int) -> Option<Picture> {
    let ys = w * h;
    let cs = chroma_samples(w, h);
    if w < 32 || h < 32 || data.len() == 0 || data.len() as int % frame_size(w, h) != 0 {
        None
    } else {
        Some(
            Picture {
                w,
                h,
                y: data.subrange(0, ys),
                u: data.subrange(ys, ys + cs),
                v: data.subrange(ys + cs, ys + 2 * cs),
            },
        )
    }
}

/// The pictures of the whole frames in a raw yuv420p buffer, from `p` on.
pub open spec fn pictures_from(data: Seq<u8>, w: int, h: int, p: int) -> Seq<Picture>
    decreases data.len() - p,
{
    let size = frame_size(w, h);
    if size <= 0 || p < 0 || p + size > data.len() {
        seq![]
    } else {
        match picture_of(data.subrange(p, p + size), w, h) {
            Some(f) => seq![f] + pictures_from(data, w, h, p + size),
            None => pictures_from(data, w, h, p + size),
        }
    }
}

/// A list of frames, as pictures.
pub open spec fn pictures_of(frames: Seq<Frame>) -> Seq<Picture> {
    frames.map_values(|f: Frame| f@)
}

proof fn lemma_sizes(w: int, h: int)
    requires
        0 <= w <= usize::MAX,
        0 <= h <= usize::MAX,
    ensures
        0 <= w * h <= usize::MAX * usize::MAX,
        0 <= chroma_samples(w, h) <= 0x8000_0000_0000_0000 * 0x8000_0000_0000_0000,
{
    let cw = (w + 1) / 2;
    let ch = (h + 1) / 2;
    assert(0 <= w * h <= usize::MAX * usize::MAX) by (nonlinear_arith)
        requires
            0 <= w <= usize::MAX,
            0 <= h <= usize::MAX,
    ;
    assert(0 <= cw * ch <= 0x8000_0000_0000_0000 * 0x8000_0000_0000_0000) by (nonlinear_arith)
        requires
            0 <= cw <= 0x8000_0000_0000_0000,
            0 <= ch <= 0x8000_0000_0000_0000,
    ;
}

/// What divides evenly into frames, and is not empty, holds a frame.
proof fn lemma_whole_frames(len: int, w: int, h: int)
    requires
        len > 0,
        w >= 32,
        h >= 32,
    ensures
        frame_size(w, h) > 0,
        len % frame_size(w, h) == 0 ==> len >= frame_size(w, h),
{
    let size = frame_size(w, h);
    assert(w * h >= 1024 && chroma_samples(w, h) >= 0) by (nonlinear_arith)
        requires
            w >= 32,
            h >= 32,
    ;
    if len < size {
        vstd::arithmetic::div_mod::lemma_small_mod(len as nat, size as nat);
    }
}

/// How many bytes a yuv420p frame takes, if that many can be held.
pub fn frame_bytes(w: usize, h: usize) -> (r: Option<usize>)
    ensures
        match r {
            Some(n) => n == frame_size(w as int, h as int),
            None => frame_size(w as int, h as int) > usize::MAX,
        },
{
    proof {
        lemma_sizes(w as int, h as int);
    }
    let ys: u128 = w as u128 * h as u128;
    let cs: u128 = ((w as u128 + 1) / 2) * ((h as u128 + 1) / 2);
    if ys > usize::MAX as u128 || cs > usize::MAX as u128 {
        return None;
    }
    let n: u128 = ys + 2 * cs;
    if n > usize::MAX as u128 {
        None
    } else {
        Some(n as usize)
    }
}

impl Frame {
    /// Every row is there.
    pub open spec fn whole(&self) -> bool {
        self.y@.len() >= self.w * self.h
    }

    /// Parses a raw yuv420p buffer; None if the size doesn't divide evenly, or the frame
    /// is too small.
    pub fn from_yuv420(data: &[u8], w: usize, h: usize) -> (r: Option<Frame>)
        ensures
            picture_of(data@, w as int, h as int) == match r {
                Some(f) => Some(f@),
                None => None,
            },
            r matches Some(f) ==> f.whole(),
    {
        assert(data.len() <= usize::MAX);
        if w < 32 || h < 32 || data.len() == 0 {
            return None;
        }
        proof {
            lemma_sizes(w as int, h as int);
            lemma_whole_frames(data@.len() as int, w as int, h as int);
        }
        let size: usize = match frame_bytes(w, h) {
            Some(n) => n,
            None => {
                return None;
            },
        };
        if data.len() % size != 0 {
            return None;
        }
        let ys: usize = (w as u128 * h as u128) as usize;
        let cs: usize = (size - ys) / 2;
        assert(cs == chroma_samples(w as int, h as int));
        let mut y: Vec<u8> = Vec::new();
        push_all(&mut y, &data[0..ys]);
        let mut u: Vec<u8> = Vec::new();
        push_all(&mut u, &data[ys..ys + cs]);
        let mut v: Vec<u8> = Vec::new();
        push_all(&mut v, &data[ys + cs..size]);
        assert(y@ =~= data@.subrange(0, ys as int));
        assert(u@ =~= data@.subrange(ys as int, ys + cs));
        assert(v@ =~= data@.subrange(ys + cs, ys + 2 * cs));
        Some(Frame { w, h, y, u, v })
    }
}

/// Cuts a raw yuv420p buffer into frames; what is left over at the end is dropped.
pub fn split_frames(data: &[u8], w: usize, h: usize) -> (frames: Vec<Frame>)
    requires
        frame_size(w as int, h as int) > 0,
    ensures
        pictures_of(frames@) == pictures_from(data@, w as int, h as int, 0),
        forall|i: int| 0 <= i < frames@.len() ==> (#[trigger] frames@[i]).whole(),
{
    let mut frames: Vec<Frame> = Vec::new();
    assert(pictures_of(frames@) =~= Seq::<Picture>::empty());
    assert(data.len() <= usize::MAX);
    let size: usize = match frame_bytes(w, h) {
        Some(n) => n,
        None => {
            return frames;
        },
    };
    let ghost all = pictures_from(data@, w as int, h as int, 0);
    assert(Seq::<Picture>::empty() + all =~= all);
    let mut p: usize = 0;
    while size <= data.len() - p
        invariant
            p <= data@.len(),
            size == frame_size(w as int, h as int),
            size > 0,
            all == pictures_of(frames@) + pictures_from(data@, w as int, h as int, p as int),
            forall|i: int| 0 <= i < frames@.len() ==> (#[trigger] frames@[i]).whole(),
        decreases data.len() - p,
    {
        let ghost before = pictures_of(frames@);
        let ghost rest = pictures_from(data@, w as int, h as int, p + size);
        if let Some(f) = Frame::from_yuv420(&data[p..p + size], w, h) {
            let ghost shown = f@;
            frames.push(f);
            assert(pictures_of(frames@) =~= before.push(shown));
            assert(before + (seq![shown] + rest) =~= before.push(shown) + rest);
        }
        p += size;
    }
    assert(pictures_of(frames@) + Seq::<Picture>::empty() =~= pictures_of(frames@));
    frames
}

// ---------------------------------------------------------------------------
// What a glance sees
// ---------------------------------------------------------------------------

/// The distance between two samples.
pub open spec fn gap(y: Seq<u8>, a: int, b: int) -> int {
    if y[a] >= y[b] {
        y[a] - y[b]
    } else {
        y[b] - y[a]
    }
}

/// The horizontal luma gradients of the first `n` samples, row by row.
pub open spec fn gradients_of(y: Seq<u8>, w: int, n: int) -> Seq<int>
    decreases n,
{
    if n <= 0 {
        seq![]
    } else if (n - 1) % w == 0 {
        gradients_of(y, w, n - 1)
    } else {
        gradients_of(y, w, n - 1).push(y[n - 1] - y[n - 2])
    }
}

/// What luma gradients add up to along the 16-pixel grid and everywhere else, and how
/// many there are of each, both axes together.
#[derive(Debug, Clone, Copy, PartialEq, Eq, Structural)]
pub struct Seams {
    pub seam: u128,
    pub seam_count: u128,
    pub body: u128,
    pub body_count: u128,
}

/// The gap at a sample is on the grid (`grid`), or is not, along one axis: the sample
/// is the `at`th of its row or column, and `back` samples lie between it and the one
/// before.
pub open spec fn gap_if(y: Seq<u8>, i: int, at: int, back: int, grid: bool) -> int {
    if at > 0 && (at % 16 == 0) == grid {
        gap(y, i, i - back)
    } else {
        0
    }
}

/// One if there is such a gap.
pub open spec fn one_if(at: int, grid: bool) -> int {
    if at > 0 && (at % 16 == 0) == grid {
        1
    } else {
        0
    }
}

/// The sum of the gaps of the first `n` samples that are on the grid, or are not.
pub open spec fn energy(y: Seq<u8>, w: int, n: int, grid: bool) -> int
    decreases n,
{
    if n <= 0 {
        0
    } else {
        let i = n - 1;
        energy(y, w, i, grid) + gap_if(y, i, i % w, 1, grid) + gap_if(y, i, i / w, w, grid)
    }
}

/// How many gaps of the first `n` samples are on the grid, or are not.
pub open spec fn gap_count(w: int, n: int, grid: bool) -> int
    decreases n,
{
    if n <= 0 {
        0
    } else {
        let i = n - 1;
        gap_count(w, i, grid) + one_if(i % w, grid) + one_if(i / w, grid)
    }
}

/// Horizontal luma gradients, sampled on every row.
pub fn gradients(f: &Frame) -> (g: Vec<i16>)
    requires
        f.whole(),
    ensures
        g@.map_values(|x: i16| x as int) == gradients_of(f.y@, f.w as int, f.w * f.h),
{
    let mut g: Vec<i16> = Vec::new();
    let ghost as_int = |x: i16| x as int;
    if f.w == 0 {
        assert(f.w * f.h == 0) by (nonlinear_arith)
            requires
                f.w == 0,
        ;
        assert(g@.map_values(as_int) =~= Seq::<int>::empty());
        return g;
    }
    assert(f.y.len() <= usize::MAX);
    let end: usize = f.w * f.h;
    let mut i: usize = 0;
    let mut x: usize = 0;
    let ghost mut row: int = 0;
    assert(g@.map_values(as_int) =~= Seq::<int>::empty());
    while i < end
        invariant
            i <= end <= f.y@.len(),
            x < f.w,
            row >= 0,
            i == row * f.w + x,
            as_int == (|x: i16| x as int),
            g@.map_values(as_int) == gradients_of(f.y@, f.w as int, i as int),
        decreases end - i,
    {
        proof {
            lemma_fundamental_div_mod_converse(i as int, f.w as int, row, x as int);
        }
        if x > 0 {
            let ghost before = g@;
            assert(i > 0) by (nonlinear_arith)
                requires
                    i == row * f.w + x,
                    x > 0,
                    row >= 0,
            ;
            let d: i16 = f.y[i] as i16 - f.y[i - 1] as i16;
            g.push(d);
            assert(g@.map_values(as_int) =~= before.map_values(as_int).push(d as int));
        }
        i += 1;
        x += 1;
        if x == f.w {
            assert((row + 1) * f.w == row * f.w + f.w) by (nonlinear_arith);
            x = 0;
            proof {
                row = row + 1;
            }
        }
    }
    g
}

fn distance(a: u8, b: u8) -> (r: u128)
    ensures
        r == if a >= b {
            a - b
        } else {
            b - a
        },
{
    if a >= b {
        (a - b) as u128
    } else {
        (b - a) as u128
    }
}

/// Adds one gap to the tally.
fn tally(s: &mut Seams, on_grid: bool, d: u128)
    requires
        d <= 255,
        old(s).seam <= 0x1000_0000_0000_0000_0000_0000,
        old(s).seam_count <= 0x1000_0000_0000_0000_0000_0000,
        old(s).body <= 0x1000_0000_0000_0000_0000_0000,
        old(s).body_count <= 0x1000_0000_0000_0000_0000_0000,
    ensures
        on_grid ==> *final(s) == (Seams {
            seam: (old(s).seam + d) as u128,
            seam_count: (old(s).seam_count + 1) as u128,
            ..*old(s)
        }),
        !on_grid ==> *final(s) == (Seams {
            body: (old(s).body + d) as u128,
            body_count: (old(s).body_count + 1) as u128,
            ..*old(s)
        }),
{
    if on_grid {
        s.seam = s.seam + d;
        s.seam_count = s.seam_count + 1;
    } else {
        s.body = s.body + d;
        s.body_count = s.body_count + 1;
    }
}

/// Luma gradients along 16-pixel grid boundaries and everywhere else, both axes.
pub fn seams(f: &Frame) -> (r: Seams)
    requires
        f.whole(),
    ensures
        ({
            let w = f.w as int;
            let n = f.w * f.h;
            &&& r.seam == energy(f.y@, w, n, true)
            &&& r.seam_count == gap_count(w, n, true)
            &&& r.body == energy(f.y@, w, n, false)
            &&& r.body_count == gap_count(w, n, false)
        }),
{
    let mut s = Seams { seam: 0, seam_count: 0, body: 0, body_count: 0 };
    if f.w == 0 {
        assert(f.w * f.h == 0) by (nonlinear_arith)
            requires
                f.w == 0,
        ;
        return s;
    }
    assert(f.y.len() <= usize::MAX);
    let end: usize = f.w * f.h;
    let mut i: usize = 0;
    let mut x: usize = 0;
    let mut row: usize = 0;
    while i < end
        invariant
            i <= end <= f.y@.len(),
            x < f.w,
            i == row * f.w + x,
            s.seam == energy(f.y@, f.w as int, i as int, true),
            s.seam_count == gap_count(f.w as int, i as int, true),
            s.body == energy(f.y@, f.w as int, i as int, false),
            s.body_count == gap_count(f.w as int, i as int, false),
            s.seam <= 510 * i,
            s.seam_count <= 510 * i,
            s.body <= 510 * i,
            s.body_count <= 510 * i,
        decreases end - i,
    {
        proof {
            lemma_fundamental_div_mod_converse(i as int, f.w as int, row as int, x as int);
        }
        if x > 0 {
            assert(i > 0) by (nonlinear_arith)
                requires
                    i == row * f.w + x,
                    x > 0,
            ;
            tally(&mut s, x % 16 == 0, distance(f.y[i], f.y[i - 1]));
        }
        if row > 0 {
            assert(i >= f.w) by (nonlinear_arith)
                requires
                    i == row * f.w + x,
                    row >= 1,
            ;
            tally(&mut s, row % 16 == 0, distance(f.y[i], f.y[i - f.w]));
        }
        assert(row < usize::MAX) by (nonlinear_arith)
            requires
                i == row * f.w + x,
                i < end,
                end <= usize::MAX,
                f.w >= 1,
        ;
        i += 1;
        x += 1;
        if x == f.w {
            assert((row + 1) * f.w == row * f.w + f.w) by (nonlinear_arith);
            x = 0;
            row += 1;
        }
    }
    s
}

/// Whether a chroma sample lies beyond legitimate full-saturation primaries.
pub open spec fn insane(u: u8, v: u8) -> bool {
    let du = if u >= 128 {
        u - 128
    } else {
        128 - u
    };
    let dv = if v >= 128 {
        v - 128
    } else {
        128 - v
    };
    du + dv > 180
}

/// How many of the first `n` chroma samples are insane.
pub open spec fn insane_of(u: Seq<u8>, v: Seq<u8>, n: int) -> int
    decreases n,
{
    if n <= 0 {
        0
    } else {
        insane_of(u, v, n - 1) + if insane(u[n - 1], v[n - 1]) {
            1int
        } else {
            0
        }
    }
}

/// How many chroma samples are beyond sane saturation, of how many. The threshold sits
/// beyond legitimate full-saturation primaries (vivid content is innocent);
/// only the corner-of-the-gamut confetti that misdecodes produce gets there.
pub fn insane_chroma(f: &Frame) -> (r: (usize, usize))
    ensures
        r.1 == if f.u@.len() <= f.v@.len() {
            f.u@.len()
        } else {
            f.v@.len()
        },
        r.0 == insane_of(f.u@, f.v@, r.1 as int),
        r.0 <= r.1,
{
    let n: usize = if f.u.len() <= f.v.len() {
        f.u.len()
    } else {
        f.v.len()
    };
    let mut count: usize = 0;
    let mut i: usize = 0;
    while i < n
        invariant
            i <= n,
            n <= f.u@.len(),
            n <= f.v@.len(),
            count <= i,
            count == insane_of(f.u@, f.v@, i as int),
        decreases n - i,
    {
        let du: u128 = distance(f.u[i], 128);
        let dv: u128 = distance(f.v[i], 128);
        if du + dv > 180 {
            count += 1;
        }
        i += 1;
    }
    (count, n)
}

/// The sum of the first `n` samples.
pub open spec fn brightness(y: Seq<u8>, n: int) -> int
    decreases n,
{
    if n <= 0 {
        0
    } else {
        brightness(y, n - 1) + y[n - 1]
    }
}

/// The sum of the distances between the first `n` samples of two planes.
pub open spec fn difference(a: Seq<u8>, b: Seq<u8>, n: int) -> int
    decreases n,
{
    if n <= 0 {
        0
    } else {
        difference(a, b, n - 1) + if a[n - 1] >= b[n - 1] {
            a[n - 1] - b[n - 1]
        } else {
            b[n - 1] - a[n - 1]
        }
    }
}

/// The sum of a frame's luma samples.
pub fn luma_sum(f: &Frame) -> (r: u128)
    ensures
        r == brightness(f.y@, f.y@.len() as int),
{
    let mut sum: u128 = 0;
    let mut i: usize = 0;
    while i < f.y.len()
        invariant
            i <= f.y@.len(),
            sum == brightness(f.y@, i as int),
            sum <= 255 * i,
        decreases f.y.len() - i,
    {
        sum = sum + f.y[i] as u128;
        i += 1;
    }
    sum
}

/// How far two frames' luma planes are apart in all; None if they differ in shape.
pub fn luma_difference(a: &Frame, b: &Frame) -> (r: Option<u128>)
    ensures
        match r {
            Some(d) => a.w == b.w && a.h == b.h && a.y@.len() == b.y@.len() && d == difference(
                a.y@,
                b.y@,
                a.y@.len() as int,
            ),
            None => a.w != b.w || a.h != b.h || a.y@.len() != b.y@.len(),
        },
{
    if a.w != b.w || a.h != b.h || a.y.len() != b.y.len() {
        return None;
    }
    let mut sum: u128 = 0;
    let mut i: usize = 0;
    while i < a.y.len()
        invariant
            i <= a.y@.len(),
            a.y@.len() == b.y@.len(),
            sum == difference(a.y@, b.y@, i as int),
            sum <= 255 * i,
        decreases a.y.len() - i,
    {
        sum = sum + distance(a.y[i], b.y[i]);
        i += 1;
    }
    Some(sum)
}

/// A frame keeps every byte: its planes, one behind the other, are the buffer's head.
pub proof fn law_planes_keep_every_byte(data: Seq<u8>, w: int, h: int)
    ensures
        picture_of(data, w, h) matches Some(f) ==> f.y + f.u + f.v == data.take(frame_size(w, h)),
{
    if let Some(f) = picture_of(data, w, h) {
        assert(w * h >= 0 && chroma_samples(w, h) >= 0) by (nonlinear_arith)
            requires
                w >= 32,
                h >= 32,
        ;
        lemma_whole_frames(data.len() as int, w, h);
        assert(f.y + f.u + f.v =~= data.take(frame_size(w, h)));
    }
}

/// A flat frame has nothing to judge: no gap anywhere.
pub proof fn law_flat_frames_have_no_edges(y: Seq<u8>, w: int, n: int)
    requires
        w > 0,
        0 <= n <= y.len(),
        forall|i: int, j: int| 0 <= i < y.len() && 0 <= j < y.len() ==> y[i] == y[j],
    ensures
        energy(y, w, n, true) == 0,
        energy(y, w, n, false) == 0,
        forall|i: int|
            0 <= i < gradients_of(y, w, n).len() ==> #[trigger] gradients_of(y, w, n)[i] == 0,
    decreases n,
{
    if n > 0 {
        let i = n - 1;
        law_flat_frames_have_no_edges(y, w, i);
        vstd::arithmetic::div_mod::lemma_fundamental_div_mod(i, w);
        if i / w > 0 {
            assert(i >= w) by (nonlinear_arith)
                requires
                    i == w * (i / w) + i % w,
                    i / w >= 1,
                    i % w >= 0,
                    w > 0,
            ;
        }
        let rest = gradients_of(y, w, i);
        if i % w != 0 {
            assert(i > 0);
            assert(gradients_of(y, w, n) == rest.push(y[i] - y[i - 1]));
            assert(y[i] == y[i - 1]);
        } else {
            assert(gradients_of(y, w, n) == rest);
        }
    }
}

/// Two frames that show the same do not differ.
pub proof fn law_same_frames_do_not_differ(y: Seq<u8>, n: int)
    requires
        0 <= n <= y.len(),
    ensures
        difference(y, y, n) == 0,
    decreases n,
{
    if n > 0 {
        law_same_frames_do_not_differ(y, n - 1);
    }
}

} // verus!
