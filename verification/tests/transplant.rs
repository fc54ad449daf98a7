use basinski::bits::BitWriter;
use basinski::h264::SpsInfo;
use basinski::mp4::{analyze, find_moov, Analysis};
use basinski::transplant::{
    extract_donor, locate_media, transplant_opts, Donor, DonorAudio, DonorError, TransplantError,
};

fn boxed(fourcc: &[u8; 4], body: &[u8]) -> Vec<u8> {
    let mut b = Vec::new();
    b.extend_from_slice(&(body.len() as u32 + 8).to_be_bytes());
    b.extend_from_slice(fourcc);
    b.extend_from_slice(body);
    b
}

/// Build a minimal but structurally honest moov with one video track.
fn test_moov(chunk_offsets: &[u32], sizes: &[u32], syncs: &[u32]) -> Vec<u8> {
    let mut mdhd = vec![0u8; 12]; // version+flags, creation, modification
    mdhd.extend_from_slice(&30u32.to_be_bytes()); // timescale
    mdhd.extend_from_slice(&(sizes.len() as u32).to_be_bytes()); // duration
    mdhd.extend_from_slice(&[0; 4]);

    let mut hdlr = vec![0u8; 8];
    hdlr.extend_from_slice(b"vide");
    hdlr.extend_from_slice(&[0; 13]);

    let mut stsd = vec![0u8; 4];
    stsd.extend_from_slice(&1u32.to_be_bytes());
    stsd.extend(boxed(b"avc1", &[0u8; 70]));

    let mut stts = vec![0u8; 4];
    stts.extend_from_slice(&1u32.to_be_bytes());
    stts.extend_from_slice(&(sizes.len() as u32).to_be_bytes());
    stts.extend_from_slice(&1u32.to_be_bytes()); // delta 1 tick @30 = 1/30 s

    let mut stss = vec![0u8; 4];
    stss.extend_from_slice(&(syncs.len() as u32).to_be_bytes());
    for s in syncs {
        stss.extend_from_slice(&s.to_be_bytes());
    }

    let mut stsc = vec![0u8; 4];
    stsc.extend_from_slice(&1u32.to_be_bytes());
    stsc.extend_from_slice(&1u32.to_be_bytes()); // first_chunk 1
    let per = (sizes.len() as u32).div_ceil(chunk_offsets.len() as u32);
    stsc.extend_from_slice(&per.to_be_bytes());
    stsc.extend_from_slice(&1u32.to_be_bytes());

    let mut stsz = vec![0u8; 4];
    stsz.extend_from_slice(&0u32.to_be_bytes()); // non-uniform
    stsz.extend_from_slice(&(sizes.len() as u32).to_be_bytes());
    for s in sizes {
        stsz.extend_from_slice(&s.to_be_bytes());
    }

    let mut stco = vec![0u8; 4];
    stco.extend_from_slice(&(chunk_offsets.len() as u32).to_be_bytes());
    for c in chunk_offsets {
        stco.extend_from_slice(&c.to_be_bytes());
    }

    let mut stbl = Vec::new();
    for (fc, body) in [
        (b"stsd", &stsd),
        (b"stts", &stts),
        (b"stss", &stss),
        (b"stsc", &stsc),
        (b"stsz", &stsz),
        (b"stco", &stco),
    ] {
        stbl.extend(boxed(fc, body));
    }
    let minf = boxed(b"stbl", &stbl);
    let mut mdia = boxed(b"mdhd", &mdhd);
    mdia.extend(boxed(b"hdlr", &hdlr));
    mdia.extend(boxed(b"minf", &minf));
    let trak = boxed(b"mdia", &mdia);
    boxed(b"moov", &boxed(b"trak", &trak))
}

/// One length-prefixed NAL filling `size` bytes. The first payload byte
/// has its MSB set — first_mb_in_slice == 0 — so slice NALs read as the
/// start of an access unit (the transplant walker depends on this).
fn nal_sample(size: u32, nal_type: u8, fill: u8) -> Vec<u8> {
    let mut s = (size - 4).to_be_bytes().to_vec();
    s.push(nal_type);
    s.resize(size as usize, fill);
    if size >= 6 {
        s[5] = 0x80;
    }
    s
}

/// Assemble a synthetic original mp4: ftyp(32) + free(8) + mdat + moov.
fn synthetic_original() -> (Vec<u8>, Vec<u32>) {
    let sizes: Vec<u32> = vec![900, 40, 44, 38, 880, 42, 46, 36];
    let mut ftyp = Vec::new();
    ftyp.extend_from_slice(&32u32.to_be_bytes());
    ftyp.extend_from_slice(b"ftypisom");
    ftyp.extend_from_slice(&0x200u32.to_be_bytes());
    ftyp.extend_from_slice(b"isomiso2avc1mp41");
    let free = boxed(b"free", &[]);

    let mut media = Vec::new();
    for (i, &s) in sizes.iter().enumerate() {
        let nal_type = if i % 4 == 0 { 0x65 } else { 0x41 }; // IDR every 4
        media.extend(nal_sample(s, nal_type, i as u8));
    }
    let media_start = (ftyp.len() + free.len() + 8) as u32;
    let mdat = boxed(b"mdat", &media);
    let moov = test_moov(&[media_start], &sizes, &[1, 5]);

    let mut file = ftyp;
    file.extend(free);
    file.extend(mdat);
    file.extend(moov);
    (file, sizes)
}


/// ftyp(32) + free(8) + mdat header(8) in the synthetic original.
const MEDIA_START: usize = 48;

#[test]
fn donor_extraction_reads_the_organs() {
    let (file, _) = synthetic_original();
    let d = extract_donor(&file).unwrap();
    let v = d.video.as_ref().unwrap();
    assert_eq!(v.timescale, 30);
    assert_eq!(v.sample_delta, 1);
    assert_eq!(v.max_sample, 900);
    assert!(!v.has_ctts);
    assert!(d.audio.is_none());
}

#[test]
fn tail_cut_gets_a_transplant() {
    let (file, sizes) = synthetic_original();
    let donor = extract_donor(&file).unwrap();
    // Keep 4 complete samples plus 10 torn bytes of the fifth.
    let keep = MEDIA_START + sizes[..4].iter().sum::<u32>() as usize + 10;
    let broken = &file[..keep];
    assert!(matches!(analyze(broken), Analysis::NoMoov));

    let t = transplant_opts(broken, &donor, false, None).unwrap();
    assert_eq!(t.video_samples, 4);
    assert_eq!(t.sync_samples, 1);
    assert_eq!(t.dropped_leading, 0);
    assert_eq!(t.torn_bytes, 10);
    assert!(matches!(analyze(&t.out), Analysis::Intact));
    let m = find_moov(&t.out).unwrap();
    assert_eq!(m.tracks.len(), 1);
    assert_eq!(m.tracks[0].sample_count, 4);
    assert_eq!(m.tracks[0].sync_samples.as_deref(), Some(&[1u32][..]));
}

#[test]
fn head_cut_resyncs_and_clips_to_the_keyframe() {
    let (file, sizes) = synthetic_original();
    let donor = extract_donor(&file).unwrap();
    // Cut 17 bytes into sample 0 and end exactly after sample 5 — a
    // faststart-style wound: no atoms at all, unknown phase.
    let begin = MEDIA_START + 17;
    let end = MEDIA_START + sizes[..6].iter().sum::<u32>() as usize;
    let broken = &file[begin..end];

    let t = transplant_opts(broken, &donor, false, None).unwrap();
    // Walker resyncs at sample 1; samples 1–3 precede the IDR at index 4.
    assert_eq!(t.dropped_leading, 3);
    assert_eq!(t.video_samples, 2); // the IDR and one trailer
    assert_eq!(t.sync_samples, 1);
    assert_eq!(t.torn_bytes, (sizes[0] - 17_u32) as u64);
    assert!(matches!(analyze(&t.out), Analysis::Intact));
}

#[test]
fn pcm_audio_splits_exactly() {
    let (file, _) = synthetic_original();
    let mut donor = extract_donor(&file).unwrap();
    let mut stsd_body = vec![0u8; 4];
    stsd_body.extend_from_slice(&1u32.to_be_bytes());
    stsd_body.extend(boxed(b"sowt", &[0u8; 28]));
    donor.audio = Some(DonorAudio {
        stsd: boxed(b"stsd", &stsd_body),
        tkhd: None,
        timescale: 8000,
        sample_delta: 1,
        codec: "sowt".into(),
        constant_sample_size: Some(4),
    });

    // Media: [video IDR 100][16 B PCM][video P 60][8 B PCM]
    let mut media = nal_sample(100, 0x65, 1);
    media.extend(vec![0xAAu8; 16]);
    media.extend(nal_sample(60, 0x41, 2));
    media.extend(vec![0xBBu8; 8]);
    let mut broken = Vec::new();
    broken.extend_from_slice(&20u32.to_be_bytes());
    broken.extend_from_slice(b"ftypisom");
    broken.extend_from_slice(&0x200u32.to_be_bytes());
    broken.extend_from_slice(b"isom");
    broken.extend(boxed(b"mdat", &media));
    assert!(matches!(analyze(&broken), Analysis::NoMoov));

    let t = transplant_opts(&broken, &donor, false, None).unwrap();
    assert_eq!(t.video_samples, 2);
    assert_eq!(t.audio_samples, 6); // 16/4 + 8/4
    assert_eq!(t.audio_bytes_dropped, 0);
    assert!(matches!(analyze(&t.out), Analysis::Intact));
    let m = find_moov(&t.out).unwrap();
    assert_eq!(m.tracks.len(), 2);
    let audio = m.tracks.iter().find(|t| t.handler == "soun").unwrap();
    assert_eq!(audio.sample_count, 6);
    assert!(audio.sample_locations().iter().all(|&(_, s)| s == 4));
}

#[test]
fn aac_audio_is_dropped_with_a_count() {
    let (file, sizes) = synthetic_original();
    let mut donor = extract_donor(&file).unwrap();
    donor.audio = Some(DonorAudio {
        stsd: boxed(b"stsd", &[0u8; 8]),
        tkhd: None,
        timescale: 44100,
        sample_delta: 1024,
        codec: "mp4a".into(),
        constant_sample_size: None, // variable — like AAC
    });
    let keep = MEDIA_START + sizes[..5].iter().sum::<u32>() as usize;
    let broken = &file[..keep];
    let t = transplant_opts(broken, &donor, false, None).unwrap();
    assert_eq!(t.video_samples, 5);
    assert_eq!(t.audio_samples, 0);
    let m = find_moov(&t.out).unwrap();
    assert_eq!(m.tracks.len(), 1); // video only — audio honestly dropped
}

#[test]
fn files_that_are_no_donors_say_why() {
    let e = extract_donor(&[0u8; 64]).err().unwrap();
    assert_eq!(e, DonorError::NoMoov);
    assert_eq!(
        e.message(),
        "no parseable moov in the reference file — the donor must be intact"
    );
    // Another codec
    let (mut file, _) = synthetic_original();
    let at = file.windows(4).rposition(|w| w == b"avc1").unwrap();
    file[at..at + 4].copy_from_slice(b"hvc1");
    let e = extract_donor(&file).err().unwrap();
    assert_eq!(e, DonorError::Codec("hvc1".to_string()));
    assert_eq!(
        e.message(),
        "donor video codec is `hvc1` — basinski only knows how to walk H.264 (avc1/avc3) payloads so far"
    );
    // Neither video nor constant-size audio
    let (mut file, _) = synthetic_original();
    let at = file.windows(4).rposition(|w| w == b"vide").unwrap();
    file[at..at + 4].copy_from_slice(b"soun");
    let e = extract_donor(&file).err().unwrap();
    assert_eq!(e, DonorError::NothingTransplantable);
    assert_eq!(
        e.message(),
        "the reference has no H.264 video track and no constant-size audio — nothing transplantable in it"
    );
}

#[test]
fn files_without_a_transplant_say_why() {
    let (file, _) = synthetic_original();
    let donor = extract_donor(&file).unwrap();
    let e = transplant_opts(&[], &donor, false, None).err().unwrap();
    assert_eq!(e, TransplantError::NoMedia);
    assert_eq!(e.message(), "no media payload found to transplant onto");
    let e = transplant_opts(&[0u8; 64], &donor, false, None).err().unwrap();
    assert_eq!(e, TransplantError::NothingMatches);
    assert_eq!(
        e.message(),
        "the donor's H.264 grammar matches nothing in this file — wrong donor, or the media is truly gone"
    );
    // P slices only
    let media = [nal_sample(60, 0x41, 2), nal_sample(60, 0x41, 3)].concat();
    let e = transplant_opts(&boxed(b"mdat", &media), &donor, false, None).err().unwrap();
    assert_eq!(e, TransplantError::NoKeyframe);
    assert_eq!(
        e.message(),
        "no keyframe survives in the recovered video — nothing playable"
    );
    // ... which are kept on request
    let t = transplant_opts(&boxed(b"mdat", &media), &donor, true, None).unwrap();
    assert_eq!((t.video_samples, t.sync_samples), (2, 0));
    let nobody = Donor { video: None, audio: None };
    let e = transplant_opts(&file[..500], &nobody, false, None).err().unwrap();
    assert_eq!(e, TransplantError::NoTracks);
    assert_eq!(
        e.message(),
        "transplant produced no tracks — nothing in this file fits the donor"
    );
}

#[test]
fn donors_are_summarized() {
    let (file, _) = synthetic_original();
    let mut donor = extract_donor(&file).unwrap();
    assert_eq!(donor.summary("30.00"), "video avc1 @ 30.00 fps");
    donor.audio = Some(DonorAudio {
        stsd: vec![],
        tkhd: None,
        timescale: 8000,
        sample_delta: 1,
        codec: "sowt".to_string(),
        constant_sample_size: Some(4),
    });
    assert_eq!(
        donor.summary("30.00"),
        "video avc1 @ 30.00 fps, audio sowt (4-byte samples, recoverable)"
    );
    donor.video = None;
    donor.audio.as_mut().unwrap().constant_sample_size = None;
    assert_eq!(
        donor.summary(""),
        "audio sowt (variable frames — splitting needs a decoder; will be dropped)"
    );
}

#[test]
fn a_transplant_keeps_media_and_index_in_step() {
    let (file, sizes) = synthetic_original();
    let donor = extract_donor(&file).unwrap();
    let keep = MEDIA_START + sizes[..6].iter().sum::<u32>() as usize;
    let t = transplant_opts(&file[..keep], &donor, false, None).unwrap();
    let m = find_moov(&t.out).unwrap();
    let locs = m.tracks[0].sample_locations();
    assert_eq!(locs.len(), 6);
    let mut at = MEDIA_START;
    for ((off, size), want) in locs.into_iter().zip(&sizes) {
        assert_eq!(size, *want);
        let got = &t.out[off as usize..off as usize + size as usize];
        assert_eq!(got, &file[at..at + size as usize]);
        at += size as usize;
    }
    assert_eq!(m.tracks[0].sync_samples.as_deref(), Some(&[1u32, 5][..]));
    assert_eq!(t.duration_ms, 200); // six frames at 30 per second
}

#[test]
fn media_is_found_behind_atoms_and_without_them() {
    let (file, _) = synthetic_original();
    let (start, end, torn) = locate_media(&file);
    assert_eq!((start, torn), (MEDIA_START, false));
    assert!(end > start);
    assert_eq!(locate_media(&[0xAB; 50]), (0, 50, true));
}

#[test]
fn every_byte_of_the_media_is_accounted_for() {
    let (file, _) = synthetic_original();
    let donor = extract_donor(&file).unwrap();
    // [video IDR 100][16 B of something][video P 60][8 B of something]
    let mut media = nal_sample(100, 0x65, 1);
    media.extend(vec![0xAAu8; 16]);
    media.extend(nal_sample(60, 0x41, 2));
    media.extend(vec![0xBBu8; 8]);
    let t = transplant_opts(&boxed(b"mdat", &media), &donor, false, None).unwrap();
    let m = find_moov(&t.out).unwrap();
    let video: u64 = m.tracks[0].sample_locations().iter().map(|&(_, s)| s as u64).sum();
    assert_eq!((video, t.audio_bytes_dropped, t.torn_bytes), (160, 24, 0));
    assert_eq!(video + t.audio_bytes_dropped + t.torn_bytes, media.len() as u64);
}

#[test]
fn salvaged_audio_gains_a_header_per_chunk() {
    let (file, _) = synthetic_original();
    let donor = extract_donor(&file).unwrap();
    let mut media = nal_sample(100, 0x65, 1);
    media.push(0x21); // opens like AAC
    media.extend(vec![0x5Au8; 99]);
    media.extend(nal_sample(60, 0x41, 2));
    media.extend(vec![0xBBu8; 80]); // does not
    let t = transplant_opts(&boxed(b"mdat", &media), &donor, false, Some(44100)).unwrap();
    assert_eq!((t.aac_chunks, t.aac_skipped, t.audio_bytes_dropped), (1, 1, 80));
    let adts = t.audio_adts.unwrap();
    assert_eq!(adts.len(), 107);
    assert_eq!(&adts[7..], &media[100..200]);
    // an unknown rate salvages nothing
    let t = transplant_opts(&boxed(b"mdat", &media), &donor, false, Some(12345)).unwrap();
    assert!(t.audio_adts.is_none());
    assert_eq!(t.audio_bytes_dropped, 180);
}

/// A slice with a frame_num of four bits and a POC of six.
fn reordered_slice(nal: u8, slice_type: u64, frame_num: u64, poc: u64) -> Vec<u8> {
    let mut w = BitWriter::new();
    w.ue(0);
    w.ue(slice_type);
    w.ue(0);
    w.u(frame_num, 4);
    if nal == 0x65 {
        w.ue(0); // idr_pic_id
    }
    w.u(poc, 6);
    w.put(true);
    let mut body = vec![nal];
    body.extend(w.finish());
    body.resize(40, 0x55);
    let mut v = (body.len() as u32).to_be_bytes().to_vec();
    v.extend(body);
    v
}

#[test]
fn composition_offsets_follow_the_slices() {
    let (file, _) = synthetic_original();
    let mut donor = extract_donor(&file).unwrap();
    let v = donor.video.as_mut().unwrap();
    v.has_ctts = true;
    v.sample_delta = 1000;
    v.sps = Some(SpsInfo {
        log2_max_frame_num: 4,
        poc_type: 0,
        log2_max_poc_lsb: 6,
        frame_mbs_only: true,
        separate_colour_plane: false,
    });
    // decode order I P B P B, displayed I B P B P
    let media = [
        reordered_slice(0x65, 7, 0, 0),
        reordered_slice(0x41, 5, 1, 8),
        reordered_slice(0x01, 6, 2, 4),
        reordered_slice(0x41, 5, 2, 16),
        reordered_slice(0x01, 6, 3, 12),
    ]
    .concat();
    let t = transplant_opts(&boxed(b"mdat", &media), &donor, false, None).unwrap();
    assert_eq!(t.video_samples, 5);
    assert!(t.ctts_recovered);
    let at = t.out.windows(4).rposition(|w| w == b"ctts").unwrap() + 8;
    let word = |i: usize| u32::from_be_bytes(t.out[at + 4 * i..at + 4 * i + 4].try_into().unwrap());
    assert_eq!(word(0), 5);
    let entries: Vec<(u32, u32)> = (0..5).map(|i| (word(1 + 2 * i), word(2 + 2 * i))).collect();
    assert_eq!(entries, vec![(1, 1000), (1, 2000), (1, 0), (1, 2000), (1, 0)]);
    // decode order is display order where the picture order count says so
    donor.video.as_mut().unwrap().sps.as_mut().unwrap().poc_type = 2;
    let t = transplant_opts(&boxed(b"mdat", &media), &donor, false, None).unwrap();
    assert!(!t.ctts_recovered);
}

#[test]
fn audio_bytes_that_no_sample_claims_are_counted() {
    let (file, _) = synthetic_original();
    let mut donor = extract_donor(&file).unwrap();
    donor.audio = Some(DonorAudio {
        stsd: boxed(b"stsd", &[0u8; 8]),
        tkhd: None,
        timescale: 8000,
        sample_delta: 1,
        codec: "sowt".to_string(),
        constant_sample_size: Some(4),
    });
    let mut media = nal_sample(100, 0x65, 1);
    media.extend(vec![0xAAu8; 18]); // four samples, two bytes left over
    media.extend(nal_sample(60, 0x41, 2));
    media.extend(vec![0xBBu8; 7]); // one sample, three bytes left over
    let t = transplant_opts(&boxed(b"mdat", &media), &donor, false, None).unwrap();
    assert_eq!((t.audio_samples, t.audio_bytes_dropped), (5, 5));
    assert!(matches!(analyze(&t.out), Analysis::Intact));
}

#[test]
fn transplants_carry_the_media() {
    let (file, sizes) = synthetic_original();
    let donor = extract_donor(&file).unwrap();
    let begin = 48 + 17;
    let end = 48 + sizes[..6].iter().sum::<u32>() as usize;
    let broken = &file[begin..end];
    for keep in [true, false] {
        let t = transplant_opts(broken, &donor, keep, None).unwrap();
        let n = broken.len();
        assert_eq!(&t.out[..20], &basinski::mp4::synth_ftyp()[..]);
        assert_eq!(&t.out[20..24], &(n as u32 + 8).to_be_bytes());
        assert_eq!(&t.out[24..28], b"mdat");
        assert_eq!(&t.out[28..28 + n], broken);
        assert_eq!(&t.out[28 + n..32 + n], &((t.out.len() - 28 - n) as u32).to_be_bytes());
        assert_eq!(&t.out[32 + n..36 + n], b"moov");
        assert!(t.sync_samples <= t.video_samples);
        assert_eq!(t.dropped_leading, if keep { 0 } else { 3 });
        assert_eq!((t.audio_adts, t.aac_chunks, t.aac_skipped), (None, 0, 0));
        let m = find_moov(&t.out).unwrap();
        let syncs = m.tracks[0].sync_samples.clone().unwrap();
        assert_eq!(syncs[0], if keep { 4 } else { 1 });
    }
}
