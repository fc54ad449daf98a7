use basinski::bits::BitWriter;
use basinski::divine::{
    annexb, extract_chain, finalists, frame_num_consistency, gather, init_qp_order, judgment,
    long_counts, produced_a_picture, ranking, refinement_trials, shortlist, shown, stage1_trials,
    stage2_trials, width_order, width_tallies, Candidate, DivineError, Geometry, Standing, Tally,
};
use basinski::h264::{add_emulation, parse_sps, PpsParams};

#[test]
fn chain_extraction_finds_idr_then_slices() {
    // [garbage][IDR 1200B][P 300B][P 280B] — slice headers must survive
    // the deep sanity check: first_mb=0, valid slice_type, pps_id=0.
    let mut d = vec![0xAAu8; 37];
    let nal = |ty: u8, hdr: [u8; 2], len: u32| {
        let mut v = (len - 4).to_be_bytes().to_vec();
        v.push(ty);
        v.extend_from_slice(&hdr);
        v.resize(len as usize, 0x55);
        v
    };
    // IDR: first_mb=0, slice_type=7 (I), pps_id=0 → bits 1 0001000 1...
    d.extend(nal(0x65, [0x88, 0x80], 1200));
    // P: first_mb=0, slice_type=5 (P), pps_id=0 → bits 1 00110 1...
    d.extend(nal(0x41, [0x9A, 0x00], 300));
    d.extend(nal(0x41, [0x9A, 0x00], 280));
    let (idr, ps) = extract_chain(&d).unwrap();
    assert_eq!(idr.len(), 1196);
    assert_eq!(idr[0], 0x65);
    assert_eq!(ps.len(), 2);
    assert_eq!(ps[0].len(), 296);
}

#[test]
fn fake_idr_with_garbage_header_is_rejected() {
    // Plausible length + IDR NAL byte + MSB payload, but the slice
    // header claims slice_type B for an IDR — the torn-head signature.
    let mut d = vec![0u8; 8];
    let mut v = 2000u32.to_be_bytes().to_vec();
    v.push(0x65);
    v.extend_from_slice(&[0xA8, 0x55]); // first_mb=0, slice_type=1 (B)
    v.resize(2004, 0x55);
    d.extend(v);
    assert!(extract_chain(&d).is_none());
}

#[test]
fn no_idr_no_chain() {
    let d = vec![0x11u8; 4096];
    assert!(extract_chain(&d).is_none());
}

/// A slice NAL whose header opens first_mb=0, slice_type=7 or 5, pps_id=0, and then
/// holds `frame_num` in `width` bits.
fn counted_slice(idr: bool, frame_num: u64, width: u32) -> Vec<u8> {
    let mut w = BitWriter::new();
    w.ue(0);
    w.ue(if idr { 7 } else { 5 });
    w.ue(0);
    w.u(frame_num, width);
    w.put(true);
    let mut nal = vec![if idr { 0x65 } else { 0x41 }];
    nal.extend(w.finish());
    nal.resize(250, 0x55);
    let mut v = (nal.len() as u32).to_be_bytes().to_vec();
    v.extend(nal);
    v
}

/// A tape of three GOPs of twenty frames, counted at a width.
fn tape(width: u32) -> Vec<u8> {
    let mut d = Vec::new();
    for _ in 0..3 {
        for n in 0..20u64 {
            d.extend(counted_slice(n == 0, n % (1 << width), width));
        }
    }
    d
}

#[test]
fn the_long_count_knows_its_width() {
    let media = tape(4);
    assert_eq!(frame_num_consistency(&media, 4), Tally { ok: 60, tot: 60 });
    let wrong = frame_num_consistency(&media, 5);
    // every IDR seems to start at an odd number, and the count is lost there
    assert_eq!(wrong.tot, 57);
    assert!(wrong.ok < wrong.tot);
    let tallies = width_tallies(&media);
    assert_eq!(tallies.len(), 6);
    assert_eq!(width_order(&tallies)[0], 0);
}

#[test]
fn shortlists_stop_at_two_and_at_the_first_that_is_far() {
    assert_eq!(shortlist(&[3, 1, 2], &[true, true, true]), vec![3, 1]);
    assert_eq!(shortlist(&[3, 1, 2], &[true, false, true]), vec![3]);
    assert_eq!(shortlist(&[3], &[true]), vec![3]);
}

#[test]
fn seeds_run_from_26_outward() {
    let q = init_qp_order();
    assert_eq!(q.len(), 33);
    assert_eq!(&q[..5], &[26, 25, 27, 24, 28]);
    assert_eq!(&q[31..], &[10, 42]);
}

fn native_sps() -> Vec<u8> {
    let mut w = BitWriter::new();
    w.u(66, 8);
    w.u(0, 8);
    w.u(30, 8);
    w.ue(0);
    w.ue(1);
    w.ue(0);
    w.ue(2);
    w.ue(1);
    w.put(false);
    w.ue(79);
    w.ue(44);
    w.put(true);
    w.put(false);
    w.put(false);
    w.put(false);
    w.put(true);
    let mut nal = vec![0x67];
    nal.extend(add_emulation(&w.finish()));
    nal
}

fn geometries() -> Vec<Geometry> {
    vec![
        Geometry { res: (1280, 720), native_sps: native_sps() },
        Geometry { res: (640, 360), native_sps: vec![0x67] }, // cannot be parsed
    ]
}

#[test]
fn the_first_grid_is_swept() {
    let trials = stage1_trials(&geometries());
    // Seven width guesses for the first geometry, only the native one for the second.
    assert_eq!(trials.len(), 8 * 67);
    assert!(!trials[0].pps.cabac);
    assert_eq!(trials[0].widths, None);
    assert_eq!(trials[0].sps, native_sps());
    assert!(trials[1].pps.cabac && trials[1].pps.transform_8x8);
    assert_eq!(trials[1].pps.init_qp, 26);
    assert!(!trials[34].pps.transform_8x8);
    // The second width guess is fn=4 poc=8, and its SPS says so.
    assert_eq!(trials[67].widths, Some((0, Some(4))));
    let info = parse_sps(&trials[67].sps).unwrap();
    assert_eq!((info.log2_max_frame_num, info.log2_max_poc_lsb), (4, 8));
    assert_eq!(trials[7 * 67].geometry, 1);
}

fn candidate(res: (u32, u32), errors: usize, gestalt: f64) -> Candidate {
    Candidate {
        res,
        widths: None,
        pps: PpsParams {
            cabac: true,
            ref_l0: 2,
            weighted_pred: false,
            init_qp: 26,
            chroma_qp_offset: 0,
            transform_8x8: true,
        },
        sps: native_sps(),
        geometry: 0,
        errors,
        gestalt: gestalt.to_bits(),
        nn: None,
        consistency: None,
    }
}

#[test]
fn ranking_is_stable_and_knows_what_counts() {
    let half = Some(Tally { ok: 10, tot: 20 });
    let most = Some(Tally { ok: 19, tot: 20 });
    let few = Some(Tally { ok: 15, tot: 15 }); // too few to count for more than one half
    let s = |errors, consistency, score: f64| Standing {
        errors,
        consistency,
        score: score.to_bits(),
    };
    let order = ranking(&[
        s(3, most, 0.9),
        s(0, half, 0.2),
        s(0, most, 0.1),
        s(0, few, 0.8),
        s(0, None, 0.8),
        s(0, half, 0.8),
    ]);
    assert_eq!(order, vec![2, 3, 4, 5, 1, 0]);
}

#[test]
fn finalists_are_distinct_and_clean_if_any_is() {
    let c = vec![
        candidate((1280, 720), 0, 0.9),
        candidate((1280, 720), 0, 0.8),
        candidate((640, 360), 0, 0.7),
        candidate((854, 480), 2, 0.9),
    ];
    assert_eq!(finalists(&c), vec![0, 2]);
    let dirty = vec![
        candidate((1280, 720), 1, 0.9),
        candidate((640, 360), 2, 0.7),
        candidate((854, 480), 3, 0.9),
        candidate((320, 240), 4, 0.9),
    ];
    assert_eq!(finalists(&dirty), vec![0, 1, 2]);
    assert!(finalists(&[]).is_empty());
}

#[test]
fn the_second_grid_pins_the_width() {
    let c = vec![candidate((1280, 720), 0, 0.9), candidate((99, 99), 0, 0.9)];
    // poc_type 2 and seven POC widths, each with every seed; no geometry for the other.
    let trials = stage2_trials(&c, &[0, 1], &geometries(), &[3]);
    assert_eq!(trials.len(), 8 * 33);
    assert_eq!(trials[0].widths, Some((3, None)));
    assert_eq!(trials[33].widths, Some((3, Some(0))));
    let mut cavlc = candidate((1280, 720), 0, 0.9);
    cavlc.pps.cabac = false;
    assert_eq!(stage2_trials(&[cavlc], &[0], &geometries(), &[3, 4]).len(), 16);
}

#[test]
fn refinement_tries_references_and_weights() {
    let c = vec![candidate((1280, 720), 0, 0.9)];
    let trials = refinement_trials(&c);
    let seen: Vec<(u32, bool)> =
        trials.iter().map(|t| (t.pps.ref_l0, t.pps.weighted_pred)).collect();
    assert_eq!(
        seen,
        vec![
            (1, false),
            (1, true),
            (2, false),
            (2, true),
            (3, false),
            (3, true),
            (4, false),
            (4, true)
        ]
    );
    let five: Vec<Candidate> = (0..5).map(|_| candidate((1280, 720), 0, 0.9)).collect();
    assert_eq!(refinement_trials(&five).len(), 32);
}

#[test]
fn recipes_say_what_was_guessed() {
    let mut c = candidate((1920, 1080), 0, 0.9);
    assert_eq!(c.recipe(), "1920x1080 cabac init_qp=26 ref=2 wp=0 8x8=1 native widths");
    c.widths = Some((1, Some(4)));
    c.pps.cabac = false;
    c.pps.weighted_pred = true;
    c.pps.transform_8x8 = false;
    assert_eq!(c.recipe(), "1920x1080 cavlc init_qp=26 ref=2 wp=1 8x8=0 fn=5 poc=8");
    c.widths = Some((0, None));
    assert_eq!(c.recipe(), "1920x1080 cavlc init_qp=26 ref=2 wp=1 8x8=0 fn=4 poc_type=2");
}

#[test]
fn recipes_are_shown_once() {
    let c = vec![
        candidate((1920, 1080), 0, 0.9),
        candidate((1920, 1080), 0, 0.8),
        candidate((1280, 720), 0, 0.7),
    ];
    assert_eq!(shown(&c), vec![0, 2]);
    let many: Vec<Candidate> = (0..9).map(|i| candidate((i, i), 0, 0.9)).collect();
    assert_eq!(shown(&many), vec![0, 1, 2, 3, 4]);
}

#[test]
fn winners_decode_or_look_like_something() {
    assert!(produced_a_picture(&candidate((1, 1), 0, 0.0)));
    assert!(produced_a_picture(&candidate((1, 1), 9, 0.4)));
    assert!(!produced_a_picture(&candidate((1, 1), 1, 0.39999)));
}

#[test]
fn judgments_punish_silence() {
    assert_eq!(judgment(0, 0, None), (1, 0.0f64.to_bits()));
    assert_eq!(judgment(0, 5, Some(1)), (5, 0.0f64.to_bits()));
    assert_eq!(judgment(3, 2, None), (2, 0.45f64.to_bits()));
    assert_eq!(judgment(3, 2, Some(0.7f64.to_bits())), (2, 0.7f64.to_bits()));
}

#[test]
fn only_the_near_best_are_counted() {
    let media = tape(5);
    let mut c = vec![candidate((1, 1), 1, 0.5), candidate((1, 1), 3, 0.5), candidate((1, 1), 4, 0.5)];
    c[1].sps = vec![]; // cannot be parsed
    let counts = long_counts(&c, &media);
    assert_eq!(counts, vec![Some(Tally { ok: 60, tot: 60 }), None, None]);
}

#[test]
fn streams_stand_behind_start_codes() {
    let out = annexb(&[0x67, 1], &[0x68], &[vec![0x65, 9]]);
    assert_eq!(out, vec![0, 0, 0, 1, 0x67, 1, 0, 0, 0, 1, 0x68, 0, 0, 0, 1, 0x65, 9]);
}

#[test]
fn evidence_is_gathered_from_a_headless_payload() {
    let nal = |ty: u8, hdr: [u8; 2], len: u32| {
        let mut v = (len - 4).to_be_bytes().to_vec();
        v.push(ty);
        v.extend_from_slice(&hdr);
        v.resize(len as usize, 0x55);
        v
    };
    let mut d = nal(0x65, [0x88, 0x80], 1200);
    d.extend(nal(0x41, [0x9A, 0x00], 300));
    let Some(Ok(e)) = gather(&d) else { panic!("no evidence") };
    assert_eq!((e.media_start, e.media_end), (0, d.len()));
    assert_eq!(e.idr.len(), 1196);
    assert_eq!(e.slices.len(), 1);
    let Some(Err(e)) = gather(&[0u8; 100]) else { panic!("evidence in nothing") };
    assert_eq!(e, DivineError::NoKeyframe);
    assert_eq!(
        e.message(),
        "no H.264 IDR grammar found in the payload — divine only speaks H.264 so far"
    );
    assert_eq!(
        DivineError::StillIndexed.message(),
        "this file still has its own index — plain `rescue` will treat it better than divination"
    );
}
