use basinski::mp4::{
    analyze, find_moov, parse_track, reconstruct, synth_ftyp, try_parse_track, Analysis, BoxRef,
    HeadTruncation, RebuildError, TrackError,
};

fn boxed(fourcc: &[u8; 4], body: &[u8]) -> Vec<u8> {
    let mut b = Vec::new();
    b.extend_from_slice(&(body.len() as u32 + 8).to_be_bytes());
    b.extend_from_slice(fourcc);
    b.extend_from_slice(body);
    b
}

/// Build a minimal but structurally honest moov with one video track.
fn test_moov(chunk_offsets: &[u32], sizes: &[u32], syncs: &[u32]) -> Vec<u8> {
    let mut mdhd = vec![0u8; 12]; // version+flags, creation, modification
    mdhd.extend_from_slice(&30u32.to_be_bytes()); // timescale
    mdhd.extend_from_slice(&(sizes.len() as u32).to_be_bytes()); // duration
    mdhd.extend_from_slice(&[0; 4]);

    let mut hdlr = vec![0u8; 8];
    hdlr.extend_from_slice(b"vide");
    hdlr.extend_from_slice(&[0; 13]);

    let mut stsd = vec![0u8; 4];
    stsd.extend_from_slice(&1u32.to_be_bytes());
    stsd.extend(boxed(b"avc1", &[0u8; 70]));

    let mut stts = vec![0u8; 4];
    stts.extend_from_slice(&1u32.to_be_bytes());
    stts.extend_from_slice(&(sizes.len() as u32).to_be_bytes());
    stts.extend_from_slice(&1u32.to_be_bytes()); // delta 1 tick @30 = 1/30 s

    let mut stss = vec![0u8; 4];
    stss.extend_from_slice(&(syncs.len() as u32).to_be_bytes());
    for s in syncs {
        stss.extend_from_slice(&s.to_be_bytes());
    }

    let mut stsc = vec![0u8; 4];
    stsc.extend_from_slice(&1u32.to_be_bytes());
    stsc.extend_from_slice(&1u32.to_be_bytes()); // first_chunk 1
    let per = (sizes.len() as u32).div_ceil(chunk_offsets.len() as u32);
    stsc.extend_from_slice(&per.to_be_bytes());
    stsc.extend_from_slice(&1u32.to_be_bytes());

    let mut stsz = vec![0u8; 4];
    stsz.extend_from_slice(&0u32.to_be_bytes()); // non-uniform
    stsz.extend_from_slice(&(sizes.len() as u32).to_be_bytes());
    for s in sizes {
        stsz.extend_from_slice(&s.to_be_bytes());
    }

    let mut stco = vec![0u8; 4];
    stco.extend_from_slice(&(chunk_offsets.len() as u32).to_be_bytes());
    for c in chunk_offsets {
        stco.extend_from_slice(&c.to_be_bytes());
    }

    let mut stbl = Vec::new();
    for (fc, body) in [
        (b"stsd", &stsd),
        (b"stts", &stts),
        (b"stss", &stss),
        (b"stsc", &stsc),
        (b"stsz", &stsz),
        (b"stco", &stco),
    ] {
        stbl.extend(boxed(fc, body));
    }
    let minf = boxed(b"stbl", &stbl);
    let mut mdia = boxed(b"mdhd", &mdhd);
    mdia.extend(boxed(b"hdlr", &hdlr));
    mdia.extend(boxed(b"minf", &minf));
    let trak = boxed(b"mdia", &mdia);
    boxed(b"moov", &boxed(b"trak", &trak))
}

/// One length-prefixed NAL filling `size` bytes. The first payload byte
/// has its MSB set — first_mb_in_slice == 0 — so slice NALs read as the
/// start of an access unit (the transplant walker depends on this).
fn nal_sample(size: u32, nal_type: u8, fill: u8) -> Vec<u8> {
    let mut s = (size - 4).to_be_bytes().to_vec();
    s.push(nal_type);
    s.resize(size as usize, fill);
    if size >= 6 {
        s[5] = 0x80;
    }
    s
}

/// Assemble a synthetic original mp4: ftyp(32) + free(8) + mdat + moov.
fn synthetic_original() -> (Vec<u8>, Vec<u32>) {
    let sizes: Vec<u32> = vec![900, 40, 44, 38, 880, 42, 46, 36];
    let mut ftyp = Vec::new();
    ftyp.extend_from_slice(&32u32.to_be_bytes());
    ftyp.extend_from_slice(b"ftypisom");
    ftyp.extend_from_slice(&0x200u32.to_be_bytes());
    ftyp.extend_from_slice(b"isomiso2avc1mp41");
    let free = boxed(b"free", &[]);

    let mut media = Vec::new();
    for (i, &s) in sizes.iter().enumerate() {
        let nal_type = if i % 4 == 0 { 0x65 } else { 0x41 }; // IDR every 4
        media.extend(nal_sample(s, nal_type, i as u8));
    }
    let media_start = (ftyp.len() + free.len() + 8) as u32;
    let mdat = boxed(b"mdat", &media);
    let moov = test_moov(&[media_start], &sizes, &[1, 5]);

    let mut file = ftyp;
    file.extend(free);
    file.extend(mdat);
    file.extend(moov);
    (file, sizes)
}


#[test]
fn intact_file_is_intact() {
    let (file, _) = synthetic_original();
    assert!(matches!(analyze(&file), Analysis::Intact));
}

#[test]
fn head_truncated_ftyp_only_recovers_via_mdat_anchor() {
    let (file, _) = synthetic_original();
    let cut = 32; // exactly the ftyp
    let head_truncated = &file[cut..];
    match analyze(head_truncated) {
        Analysis::HeadTruncated(b) => {
            assert_eq!(b.cut_bytes, cut as u64);
            assert_eq!(b.method, "mdat header anchor");
            assert_eq!(b.media_bytes_lost, 0);
            let rebuilt = reconstruct(head_truncated, &b).unwrap();
            assert_eq!(rebuilt.len(), file.len());
            // Media region and moov must be byte-identical to the original.
            assert_eq!(&rebuilt[48..], &file[48..]);
            assert!(matches!(analyze(&rebuilt), Analysis::Intact));
        }
        other => panic!("expected HeadTruncated, got {other:?}"),
    }
}

#[test]
fn head_truncated_through_mdat_header_recovers_via_correlation() {
    let (file, sizes) = synthetic_original();
    let cut = 44; // ftyp(32) + free(8) + half the mdat header
    let head_truncated = &file[cut..];
    match analyze(head_truncated) {
        Analysis::HeadTruncated(b) => {
            assert_eq!(b.cut_bytes, cut as u64);
            assert_eq!(b.method, "stsz/NAL-chain correlation");
            assert_eq!(b.media_bytes_lost, 0);
            let rebuilt = reconstruct(head_truncated, &b).unwrap();
            assert_eq!(rebuilt.len(), file.len());
            assert_eq!(&rebuilt[48..], &file[48..]);
            assert!(matches!(analyze(&rebuilt), Analysis::Intact));
            let _ = sizes;
        }
        other => panic!("expected HeadTruncated, got {other:?}"),
    }
}

#[test]
fn head_truncated_into_media_reports_damage_and_first_clean_keyframe() {
    let (file, sizes) = synthetic_original();
    let cut = 48 + 950; // into the media: kills sample 1 (900) + part of 2
    let head_truncated = &file[cut..];
    match analyze(head_truncated) {
        Analysis::HeadTruncated(b) => {
            assert_eq!(b.cut_bytes, cut as u64);
            assert_eq!(b.media_bytes_lost, 950);
            assert_eq!(b.damaged_keyframes, 1); // sync sample 1 died
            // First clean keyframe is sample 5 (index 4) at t = 4/30.
            let m = b.first_clean_keyframe_time.unwrap();
            let t = m.ticks as f64 / m.timescale as f64;
            assert!((t - 4.0 / 30.0).abs() < 1e-9, "t = {t}");
            let rebuilt = reconstruct(head_truncated, &b).unwrap();
            assert_eq!(rebuilt.len(), file.len());
            // Everything from the cut onward is preserved verbatim.
            assert_eq!(&rebuilt[cut..], &file[cut..]);
            // The destroyed media region is zero-filled silence.
            assert!(rebuilt[48 + 8..cut].iter().all(|&x| x == 0));
            assert!(matches!(analyze(&rebuilt), Analysis::Intact));
            let _ = sizes;
        }
        other => panic!("expected HeadTruncated, got {other:?}"),
    }
}

#[test]
fn no_moov_is_honest_about_it() {
    let (file, _) = synthetic_original();
    // Cut from the back instead: lose the moov.
    let headless = &file[..file.len() - 200];
    assert!(matches!(analyze(headless), Analysis::NoMoov));
}

fn truncation(cut: u64, media_start: u64, moov_orig: u64) -> HeadTruncation {
    HeadTruncation {
        cut_bytes: cut,
        method: "by hand".to_string(),
        media_start,
        moov_orig,
        media_bytes_lost: 0,
        damaged_keyframes: 0,
        first_clean_keyframe_time: None,
        tracks: vec![],
    }
}

#[test]
fn what_cannot_be_rebuilt_says_why() {
    let data = [0u8; 100];
    let e = reconstruct(&data, &truncation(0, 7, 50)).unwrap_err();
    assert_eq!(e, RebuildError::MediaTooEarly);
    assert_eq!(e.message(), "media starts before offset 8");
    let e = reconstruct(&data, &truncation(5, 48, 90)).unwrap_err();
    assert_eq!(e, RebuildError::PrefixTooShort(5));
    assert_eq!(
        e.message(),
        "need to synthesize a 5-byte prefix but the smallest atom is 8 bytes; this layout requires chunk-offset patching, which this build does not do yet"
    );
    let e = reconstruct(&data, &truncation(60, 48, 20)).unwrap_err();
    assert_eq!(e, RebuildError::IndexLost);
    assert_eq!(
        e.message(),
        "moov precedes mdat (faststart layout) and the cut reached it — index lost"
    );
    let e = reconstruct(&data, &truncation(60, 48, 1 << 33)).unwrap_err();
    assert_eq!(e, RebuildError::MdatTooLarge);
    assert_eq!(
        e.message(),
        "reconstructed mdat would need a 64-bit size; unsupported layout"
    );
}

#[test]
fn prefixes_are_atoms_of_the_length_asked_for() {
    // 8 to 27 bytes: one free; 28 and more: ftyp and free
    for k in [8u64, 27, 28, 40] {
        let data = [9u8; 64];
        let out = reconstruct(&data, &truncation(k, 100, 200)).unwrap();
        assert_eq!(out.len() as u64, k + 64);
        assert_eq!(&out[k as usize..], &data[..]);
        let mut at = 0usize;
        while at < k as usize {
            let size = u32::from_be_bytes(out[at..at + 4].try_into().unwrap());
            at += size as usize;
        }
        assert_eq!(at as u64, k);
    }
    assert_eq!(synth_ftyp().len(), 20);
}

#[test]
fn a_rebuilt_index_stands_where_it_stood() {
    let (file, _) = synthetic_original();
    let whole = find_moov(&file).unwrap();
    for cut in [32usize, 44, 48, 998] {
        let Analysis::HeadTruncated(b) = analyze(&file[cut..]) else { panic!("cut {cut}") };
        let rebuilt = reconstruct(&file[cut..], &b).unwrap();
        let m = find_moov(&rebuilt).unwrap();
        assert_eq!(m.offset, whole.offset);
        assert_eq!(m.tracks[0].sample_locations(), whole.tracks[0].sample_locations());
        // every sample that survived is where the index says
        for (off, size) in m.tracks[0].sample_locations() {
            if off as usize >= cut {
                let (a, z) = (off as usize, off as usize + size as usize);
                assert_eq!(&rebuilt[a..z], &file[a..z]);
            }
        }
    }
}

#[test]
fn a_sample_cut_in_its_opening_can_outvote_the_rest() {
    // Two samples, the cut ten bytes into the first: what is left of it neither abstains
    // nor lines up, and one of two is no majority.
    let sizes = [900u32, 880];
    let mut media = nal_sample(900, 0x65, 1);
    media.extend(nal_sample(880, 0x65, 2));
    let mut file = boxed(b"ftyp", b"isom\0\0\x02\0isomiso2avc1mp41");
    file.extend(boxed(b"free", &[]));
    let start = file.len() as u32 + 8;
    file.extend(boxed(b"mdat", &media));
    file.extend(test_moov(&[start], &sizes, &[1, 2]));
    let cut = start as usize + 10;
    let Analysis::HeadTruncated(b) = analyze(&file[cut..]) else { panic!() };
    assert_eq!(b.cut_bytes as usize, cut);
    let rebuilt = reconstruct(&file[cut..], &b).unwrap();
    assert!(!matches!(analyze(&rebuilt), Analysis::Intact));
}

/// A track as `test_moov` makes it, without one of its boxes.
fn trak_without(missing: &[u8; 4]) -> Vec<u8> {
    let part = |fourcc: &[u8; 4], body: Vec<u8>| {
        if fourcc == missing {
            Vec::new()
        } else {
            boxed(fourcc, &body)
        }
    };
    let stbl = [
        part(b"stsd", vec![0; 24]),
        part(b"stsz", vec![0; 12]),
        part(b"stco", vec![0; 8]),
        part(b"stsc", vec![0; 8]),
        part(b"stts", vec![0; 8]),
    ]
    .concat();
    let minf = part(b"stbl", stbl);
    let mdia =
        [part(b"mdhd", vec![0; 24]), part(b"hdlr", vec![0; 12]), part(b"minf", minf)].concat();
    part(b"mdia", mdia)
}

#[test]
fn every_missing_box_is_named() {
    let read = |missing: &[u8; 4]| {
        let d = trak_without(missing);
        let trak = BoxRef { fourcc: *b"trak", body_start: 0, body_end: d.len() };
        parse_track(&d, &trak)
    };
    let cases: [(&[u8; 4], TrackError, &str); 10] = [
        (b"mdia", TrackError::NoMdia, "trak missing mdia"),
        (b"mdhd", TrackError::NoMdhd, "mdia missing mdhd"),
        (b"hdlr", TrackError::NoHdlr, "mdia missing hdlr"),
        (b"minf", TrackError::NoMinf, "mdia missing minf"),
        (b"stbl", TrackError::NoStbl, "minf missing stbl"),
        (b"stsd", TrackError::NoStsd, "stbl missing stsd"),
        (b"stsz", TrackError::NoStsz, "stbl missing stsz"),
        (b"stco", TrackError::NoChunkOffsets, "stbl has neither stco nor co64"),
        (b"stsc", TrackError::NoStsc, "stbl missing stsc"),
        (b"stts", TrackError::NoStts, "stbl missing stts"),
    ];
    for (missing, error, words) in cases {
        let e = read(missing).unwrap_err();
        assert_eq!(e, error);
        assert_eq!(e.message(), words);
    }
    assert!(read(b"none").is_ok());
}

#[test]
fn tables_that_the_data_does_not_hold_are_noticed() {
    // The size table claims a thousand samples.
    let mut d = trak_without(b"none");
    let at = d.windows(4).position(|w| w == b"stsz").unwrap() + 4;
    d[at + 8..at + 12].copy_from_slice(&1000u32.to_be_bytes());
    let trak = BoxRef { fourcc: *b"trak", body_start: 0, body_end: d.len() };
    assert!(try_parse_track(&d, &trak).is_none());
}

#[test]
fn sample_tables_are_resolved() {
    let (file, sizes) = synthetic_original();
    let m = find_moov(&file).unwrap();
    let t = &m.tracks[0];
    assert!(t.is_video());
    assert_eq!((t.handler.as_str(), t.codec.as_str(), t.timescale), ("vide", "avc1", 30));
    assert_eq!(t.dominant_delta(), 1);
    assert_eq!(t.sample_times(), vec![0, 1, 2, 3, 4, 5, 6, 7]);
    let mut at = 48u64;
    let mut want = Vec::new();
    for s in sizes {
        want.push((at, s));
        at += s as u64;
    }
    assert_eq!(t.sample_locations(), want);
}

#[test]
fn the_dominant_delta_is_the_most_common() {
    let (file, _) = synthetic_original();
    let mut t = find_moov(&file).unwrap().tracks.remove(0);
    t.stts = vec![(2, 5), (3, 7), (2, 5)];
    assert_eq!(t.dominant_delta(), 5);
    t.stts = vec![(2, 5), (3, 7)];
    assert_eq!(t.dominant_delta(), 7);
    // of two that are as common, the later
    t.stts = vec![(3, 5), (3, 7)];
    assert_eq!(t.dominant_delta(), 7);
    t.stts = vec![(9, 0), (3, 7)];
    assert_eq!(t.dominant_delta(), 1);
    t.stts = vec![];
    assert_eq!(t.dominant_delta(), 1);
}

#[test]
fn a_rebuilt_file_without_video_is_intact() {
    let (mut file, _) = synthetic_original();
    let at = file.windows(4).rposition(|w| w == b"vide").unwrap();
    file[at..at + 4].copy_from_slice(b"soun");
    assert!(matches!(analyze(&file), Analysis::Intact));
    let Analysis::HeadTruncated(b) = analyze(&file[32..]) else { panic!() };
    assert_eq!(b.cut_bytes, 32);
    let rebuilt = reconstruct(&file[32..], &b).unwrap();
    assert!(matches!(analyze(&rebuilt), Analysis::Intact));
}

#[test]
fn media_starts_at_the_lowest_chunk() {
    // The second chunk stands before the first.
    let sizes = [900u32, 880, 860, 840];
    let mut media = Vec::new();
    for (i, s) in [860u32, 840, 900, 880].into_iter().enumerate() {
        media.extend(nal_sample(s, 0x65, i as u8));
    }
    let mut file = boxed(b"ftyp", b"isom\0\0\x02\0isomiso2avc1mp41");
    file.extend(boxed(b"free", &[]));
    let start = file.len() as u32 + 8;
    file.extend(boxed(b"mdat", &media));
    file.extend(test_moov(&[start + 1700, start], &sizes, &[1, 2, 3, 4]));
    assert!(matches!(analyze(&file), Analysis::Intact));
    let Analysis::HeadTruncated(b) = analyze(&file[32..]) else { panic!() };
    assert_eq!((b.cut_bytes, b.media_start), (32, start as u64));
    let rebuilt = reconstruct(&file[32..], &b).unwrap();
    assert!(matches!(analyze(&rebuilt), Analysis::Intact));
}

#[test]
fn the_likeliest_index_is_found() {
    let small = test_moov(&[100], &[10], &[1]);
    let large = test_moov(&[200], &[10, 20, 30], &[1]);
    let other = test_moov(&[300], &[10, 20, 30], &[1]);
    let hollow = boxed(b"moov", &vec![0u8; large.len()]);
    let starts = |parts: &[&Vec<u8>]| {
        let data: Vec<u8> = parts.iter().flat_map(|p| p.iter().copied()).collect();
        find_moov(&data).map(|m| (m.offset, m.tracks[0].chunk_offsets[0]))
    };
    // the larger of two that chain
    assert_eq!(starts(&[&small, &large]), Some((small.len() as u64, 200)));
    assert_eq!(starts(&[&large, &small]), Some((0, 200)));
    // the first of two that are equally likely
    assert_eq!(starts(&[&large, &other]), Some((0, 200)));
    assert_eq!(starts(&[&other, &large]), Some((0, 300)));
    // one that chains before a larger one that does not
    let junk = vec![0x11u8; 16];
    let behind = (large.len() + junk.len()) as u64;
    assert_eq!(starts(&[&large, &junk, &small]), Some((behind, 100)));
    // one without tracks is passed over
    assert_eq!(starts(&[&hollow, &small]), Some((hollow.len() as u64, 100)));
    assert_eq!(starts(&[&hollow]), None);
}
