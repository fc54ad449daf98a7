use basinski::gestalt::{
    frame_bytes, gradients, insane_chroma, luma_difference, luma_sum, seams, split_frames, Frame, Seams,
};

const W: usize = 128;
const H: usize = 96;

fn flat(v: u8) -> Frame {
    Frame { w: W, h: H, y: vec![v; W * H], u: vec![128; W * H / 4], v: vec![128; W * H / 4] }
}

#[test]
fn frames_are_cut_from_a_raw_buffer() {
    let size = frame_bytes(33, 33).unwrap();
    assert_eq!(size, 33 * 33 + 2 * 17 * 17);
    let data: Vec<u8> = (0..2 * size + 5).map(|i| i as u8).collect();
    let f = Frame::from_yuv420(&data[..2 * size], 33, 33).unwrap();
    assert_eq!((f.w, f.h), (33, 33));
    let joined: Vec<u8> = [f.y.clone(), f.u.clone(), f.v.clone()].concat();
    assert_eq!(joined, data[..size]);
    // the size must divide evenly, and the frame must not be tiny
    assert!(Frame::from_yuv420(&data[..size], 33, 33).is_some());
    assert!(Frame::from_yuv420(&data[..size - 1], 33, 33).is_none());
    assert!(Frame::from_yuv420(&data, 33, 33).is_none());
    assert!(Frame::from_yuv420(&[], 33, 33).is_none());
    assert!(Frame::from_yuv420(&data[..31 * 33 + 2 * 16 * 17], 31, 33).is_none());
    assert!(Frame::from_yuv420(&data, usize::MAX, usize::MAX).is_none());
    let frames = split_frames(&data, 33, 33);
    assert_eq!(frames.len(), 2);
    assert_eq!(frames[1].y[..], data[size..size + 33 * 33]);
    assert!(split_frames(&data, 16, 16).is_empty());
}

#[test]
fn flat_frames_have_no_edges() {
    let s = seams(&flat(16));
    assert_eq!((s.seam, s.body), (0, 0));
    assert!(gradients(&flat(16)).iter().all(|&g| g == 0));
    assert_eq!(luma_difference(&flat(16), &flat(16)), Some(0));
}

#[test]
fn seams_are_counted_on_the_grid() {
    // A step at x = 16 is all seam, one at x = 20 is all body.
    let step = |at: usize| {
        let mut f = flat(0);
        for row in 0..H {
            for x in at..W {
                f.y[row * W + x] = 10;
            }
        }
        seams(&f)
    };
    let on_grid_h = (H * (W / 16 - 1)) as u128;
    let on_grid_v = (W * (H / 16 - 1)) as u128;
    let all = (H * (W - 1) + W * (H - 1)) as u128;
    let counts = on_grid_h + on_grid_v;
    assert_eq!(
        step(16),
        Seams {
            seam: 10 * H as u128,
            seam_count: counts,
            body: 0,
            body_count: all - counts
        }
    );
    assert_eq!((step(20).seam, step(20).body), (0, 10 * H as u128));
}

#[test]
fn gradients_run_along_rows() {
    let f = Frame { w: 3, h: 2, y: vec![1, 5, 2, 200, 0, 255], u: vec![], v: vec![] };
    assert_eq!(gradients(&f), vec![4, -3, -200, 255]);
}

#[test]
fn insane_chroma_is_counted() {
    let mut f = flat(16);
    assert_eq!(insane_chroma(&f), (0, W * H / 4));
    f.u = vec![0, 255, 38, 37];
    f.v = vec![75, 182, 38, 38, 99];
    // 128+53, 127+54, 90+90, 91+90: all but the third exceed 180
    assert_eq!(insane_chroma(&f), (3, 4));
}

#[test]
fn luma_sums_and_differences_are_exact() {
    let a = flat(16);
    let b = flat(20);
    assert_eq!(luma_sum(&a), 16 * (W * H) as u128);
    assert_eq!(luma_difference(&a, &b), Some(4 * (W * H) as u128));
    let small = Frame { w: 1, h: 1, y: vec![0], u: vec![], v: vec![] };
    assert_eq!(luma_difference(&a, &small), None);
}
