use basinski::bits::{BitWriter, Bits};
use basinski::h264::{
    add_emulation, build_pps, extract_avcc_params, parse_sps, patch_sps_widths, replace_avcc_params,
    strip_emulation, PpsParams,
};

#[test]
fn ue_roundtrip() {
    for v in [0u64, 1, 2, 3, 7, 8, 254, 255, 1000] {
        let mut w = BitWriter::new();
        w.ue(v);
        let bytes = w.finish();
        assert_eq!(Bits::new(&bytes).ue(), Some(v), "ue({v})");
    }
}

#[test]
fn emulation_roundtrip() {
    let raw = [0u8, 0, 0, 1, 0, 0, 2, 0xFF, 0, 0, 3, 9, 0, 0, 0];
    let escaped = add_emulation(&raw);
    assert_eq!(strip_emulation(&escaped), raw);
    // No forbidden sequences survive in the escaped form.
    assert!(
        !escaped
            .windows(3)
            .any(|w| w[0] == 0 && w[1] == 0 && w[2] <= 2)
    );
}

/// A minimal but real baseline SPS, hand-assembled: profile 66,
/// log2_max_frame_num=4+1, poc_type 0 with lsb width 4+2, 1 ref,
/// 80x45 MBs (1280x720), frame_mbs_only=1.
fn tiny_sps() -> Vec<u8> {
    let mut w = BitWriter::new();
    for v in [66u64, 0, 30] {
        for i in (0..8).rev() {
            w.put(v >> i & 1 == 1);
        }
    }
    w.ue(0); // sps_id
    w.ue(1); // log2_max_frame_num_minus4
    w.ue(0); // poc_type
    w.ue(2); // log2_max_poc_lsb_minus4
    w.ue(1); // max_num_ref_frames
    w.put(false); // gaps_in_frame_num
    w.ue(79); // width mbs - 1
    w.ue(44); // height map units - 1
    w.put(true); // frame_mbs_only
    w.put(false); // direct_8x8
    w.put(false); // cropping
    w.put(false); // vui
    w.put(true); // rbsp stop bit
    let mut nal = vec![0x67];
    nal.extend(add_emulation(&w.finish()));
    nal
}

#[test]
fn sps_parses_and_patches() {
    let sps = tiny_sps();
    let info = parse_sps(&sps).unwrap();
    assert_eq!(info.log2_max_frame_num, 5);
    assert_eq!(info.poc_type, 0);
    assert_eq!(info.log2_max_poc_lsb, 6);
    assert!(info.frame_mbs_only);

    let patched = patch_sps_widths(&sps, 0, Some(4)).unwrap();
    let info2 = parse_sps(&patched).unwrap();
    assert_eq!(info2.log2_max_frame_num, 4);
    assert_eq!(info2.poc_type, 0);
    assert_eq!(info2.log2_max_poc_lsb, 8);
    assert_eq!(info2.frame_mbs_only, info.frame_mbs_only);

    // poc_type 2: no POC field in slice headers at all
    let poc2 = patch_sps_widths(&sps, 1, None).unwrap();
    let info3 = parse_sps(&poc2).unwrap();
    assert_eq!(info3.log2_max_frame_num, 5);
    assert_eq!(info3.poc_type, 2);
    assert_eq!(info3.frame_mbs_only, info.frame_mbs_only);
}

#[test]
fn mp4_sps_replacement_bumps_ancestors() {
    // moov[ trak[ stbl[ stsd[ avc1[ avcC ]]]]] — sizes must all grow.
    let sps = tiny_sps();
    let mut avcc = vec![1u8, 66, 0, 30, 0xFF, 0xE1];
    avcc.extend((sps.len() as u16).to_be_bytes());
    avcc.extend(&sps);
    avcc.push(1); // one PPS
    avcc.extend(2u16.to_be_bytes());
    avcc.extend([0x68, 0xCE]);
    let boxed = |fourcc: &[u8; 4], body: &[u8]| {
        let mut b = (body.len() as u32 + 8).to_be_bytes().to_vec();
        b.extend_from_slice(fourcc);
        b.extend_from_slice(body);
        b
    };
    let file = boxed(
        b"moov",
        &boxed(
            b"trak",
            &boxed(
                b"stbl",
                &boxed(b"stsd", &boxed(b"avc1", &boxed(b"avcC", &avcc))),
            ),
        ),
    );

    // Widths that force the SPS to grow, plus a fresh PPS — the box
    // chain must follow both.
    let patched_sps = patch_sps_widths(&sps, 0, Some(8)).unwrap();
    let new_pps = build_pps(PpsParams {
        cabac: true,
        ref_l0: 3,
        weighted_pred: true,
        init_qp: 23,
        chroma_qp_offset: -2,
        transform_8x8: true,
    });
    let out = replace_avcc_params(&file, &patched_sps, &new_pps).unwrap();
    let diff = (patched_sps.len() + new_pps.len()) as i64 - (sps.len() + 2) as i64;
    assert_eq!(out.len() as i64, file.len() as i64 + diff);
    // outermost size grew by diff
    let outer = u32::from_be_bytes(out[0..4].try_into().unwrap()) as i64;
    let orig = u32::from_be_bytes(file[0..4].try_into().unwrap()) as i64;
    assert_eq!(outer, orig + diff);
    // and both parameter sets inside the result read back correctly
    let (sps2, pps2) = extract_avcc_params(&out).unwrap();
    assert_eq!(parse_sps(&sps2).unwrap().log2_max_poc_lsb, 12);
    assert_eq!(pps2, new_pps);
}

#[test]
fn pps_fields_read_back() {
    let pps = build_pps(PpsParams {
        cabac: true,
        ref_l0: 3,
        weighted_pred: true,
        init_qp: 21,
        chroma_qp_offset: -2,
        transform_8x8: false,
    });
    let rbsp = strip_emulation(&pps[1..]);
    let mut b = Bits::new(&rbsp);
    assert_eq!(b.ue(), Some(0)); // pps_id
    assert_eq!(b.ue(), Some(0)); // sps_id
    assert_eq!(b.u1(), Some(true)); // cabac
    assert_eq!(b.u1(), Some(false)); // pic_order_present
    assert_eq!(b.ue(), Some(0)); // slice groups
    assert_eq!(b.ue(), Some(2)); // ref_l0 - 1
    assert_eq!(b.ue(), Some(0)); // ref_l1 - 1
    assert_eq!(b.u1(), Some(true)); // weighted_pred
    assert_eq!(b.u(2), Some(2)); // weighted_bipred
    assert_eq!(b.se(), Some(-5)); // init_qp - 26
    assert_eq!(b.se(), Some(0)); // init_qs
    assert_eq!(b.se(), Some(-2)); // chroma offset
}

#[test]
fn signed_codes_and_fields_round_trip() {
    for v in [0i64, 1, -1, 2, -2, 26, -26, 1000] {
        let mut w = BitWriter::new();
        w.put(true);
        w.se(v);
        w.u(0x5a, 7);
        let bytes = w.finish();
        let mut b = Bits::new(&bytes);
        assert_eq!(b.u1(), Some(true));
        assert_eq!(b.se(), Some(v), "se({v})");
        assert_eq!(b.u(7), Some(0x5a));
    }
}

#[test]
fn bits_run_out() {
    let mut b = Bits::new(&[0xA0]);
    assert_eq!(b.u(3), Some(5));
    assert_eq!(b.pos(), 3);
    assert_eq!(b.u(6), None);
    let mut zeros = Bits::new(&[0, 0, 0, 0, 0, 1]);
    assert_eq!(zeros.ue(), None); // more than 32 zeros
}

#[test]
fn parameter_sets_that_do_not_parse_are_none() {
    assert_eq!(parse_sps(&[]), None);
    assert_eq!(parse_sps(&[0x67, 66]), None);
    assert_eq!(patch_sps_widths(&[0x67, 66], 0, None), None);
    assert_eq!(extract_avcc_params(&[0u8; 64]), None);
    assert_eq!(replace_avcc_params(&[0u8; 64], &[1], &[2]), None);
}

fn bx(fourcc: &[u8; 4], body: &[u8]) -> Vec<u8> {
    let mut b = (body.len() as u32 + 8).to_be_bytes().to_vec();
    b.extend_from_slice(fourcc);
    b.extend_from_slice(body);
    b
}

fn word(d: &[u8], i: usize) -> u32 {
    u32::from_be_bytes(d[i..i + 4].try_into().unwrap())
}

#[test]
fn every_ancestor_grows_in_the_standard_layout() {
    let avcc = [1, 66, 0, 30, 0xFF, 0xE1, 0, 1, 0x67, 1, 0, 1, 0x68];
    for entry in [b"avc1", b"avc3"] {
        let mut fields = vec![0u8; 78];
        fields.extend(bx(b"avcC", &avcc));
        let mut list = vec![0, 0, 0, 0, 0, 0, 0, 1];
        list.extend(bx(entry, &fields));
        let stsd = bx(b"stsd", &list);
        let out = replace_avcc_params(&stsd, &[0x67, 0x42], &[0x68, 0xCE]).unwrap();
        assert_eq!(out.len(), 125);
        assert_eq!((word(&out, 0), word(&out, 16), word(&out, 102)), (125, 109, 23));
        // and further out: moov, trak, mdia, minf, stbl
        let mut file = stsd;
        for name in [b"stbl", b"minf", b"mdia", b"trak", b"moov"] {
            file = bx(name, &file);
        }
        let whole = [bx(b"mdat", &[7; 9]), file].concat();
        let out = replace_avcc_params(&whole, &[0x67], &[]).unwrap();
        assert_eq!(word(&out, 0), 17);
        for at in [17, 25, 33, 41, 49, 57, 73, 159] {
            assert_eq!(word(&out, at), word(&whole, at) - 1, "box at {at}");
        }
        assert_eq!(extract_avcc_params(&out), Some((vec![0x67], vec![])));
    }
}

#[test]
fn every_ancestor_grows_where_boxes_follow_headers() {
    let avcc = [1, 66, 0, 30, 0xFF, 0xE1, 0, 1, 0x67, 1, 0, 1, 0x68];
    let file = bx(b"stbl", &bx(b"stsd", &bx(b"avc1", &bx(b"avcC", &avcc))));
    let out = replace_avcc_params(&file, &[0x67, 0x42], &[0x68, 0xCE]).unwrap();
    for at in [0, 8, 16, 24] {
        assert_eq!(word(&out, at), word(&file, at) + 2);
    }
}

#[test]
fn patching_again_changes_nothing() {
    let sps = tiny_sps();
    for (f, p) in [(0, Some(4)), (12, Some(12)), (1, None)] {
        let once = patch_sps_widths(&sps, f, p).unwrap();
        assert_eq!(once[0], sps[0]);
        assert_eq!(patch_sps_widths(&once, f, p).unwrap(), once);
    }
}

#[test]
fn written_codes_take_twice_the_logarithm() {
    for (v, end) in [(0u64, 1usize), (1, 3), (2, 3), (3, 5), (6, 5), (7, 7), (0x1_ffff_fffe, 65)] {
        let mut w = BitWriter::new();
        w.ue(v);
        let bytes = w.finish();
        let mut b = Bits::new(&bytes);
        assert_eq!(b.ue(), Some(v));
        assert_eq!(b.pos(), end);
    }
}
