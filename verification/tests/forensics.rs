use basinski::forensics::{avcc_chain_len, identify, mp3_frame_at, scan_atoms, scan_mp3};

#[test]
fn mp3_frame_header_parses() {
    // MPEG-1 Layer III, 128 kbps, 44100 Hz, no padding: FF FB 90 00
    let d = [0xFF, 0xFB, 0x90, 0x00];
    let (len, desc) = mp3_frame_at(&d, 0).expect("valid header");
    assert_eq!(len, 417);
    assert!(desc.contains("128 kbps"));
}

#[test]
fn mp3_chain_detected_after_garbage() {
    // Build 6 valid 417-byte frames preceded by junk that contains a
    // false sync (FF Ex) that does NOT chain.
    let mut data = vec![0x00, 0xFF, 0xE2, 0x11, 0x22, 0x33];
    for _ in 0..6 {
        let mut frame = vec![0xFF, 0xFB, 0x90, 0x00];
        frame.resize(417, 0xAB);
        data.extend_from_slice(&frame);
    }
    let findings: Vec<_> = scan_mp3(&data).into_iter().collect();
    assert_eq!(findings.len(), 1);
    assert_eq!(findings[0].offset, 6);
    assert!(f64::from_bits(findings[0].confidence) > 0.7);
}

#[test]
fn atom_scan_finds_chained_atoms() {
    // free(16) + mdat(24) + moov(8, ends at EOF)
    let mut d = Vec::new();
    d.extend_from_slice(&16u32.to_be_bytes());
    d.extend_from_slice(b"free");
    d.extend_from_slice(&[0u8; 8]);
    d.extend_from_slice(&24u32.to_be_bytes());
    d.extend_from_slice(b"mdat");
    d.extend_from_slice(&[1u8; 16]);
    d.extend_from_slice(&8u32.to_be_bytes());
    d.extend_from_slice(b"moov");
    let hits = scan_atoms(&d);
    let chained: Vec<_> = hits.iter().filter(|h| h.chains).collect();
    assert_eq!(chained.len(), 3);
    assert_eq!(&chained[1].fourcc, b"mdat");
}

#[test]
fn avcc_chain_counts() {
    // Three length-prefixed NALs: lengths 5, 3, 4.
    let mut d = Vec::new();
    for (len, nal_type) in [(5u32, 0x65u8), (3, 0x41), (4, 0x01)] {
        d.extend_from_slice(&len.to_be_bytes());
        d.push(nal_type);
        d.extend(std::iter::repeat_n(0xCC, len as usize - 1));
    }
    assert_eq!(avcc_chain_len(&d, 0, 10), 3);
    assert_eq!(avcc_chain_len(&d, 1, 10), 0);
}

fn kind_of(data: &[u8]) -> (String, String, f64) {
    let f = identify(data);
    assert!(!f.is_empty());
    (f[0].kind.clone(), f[0].class.clone(), f64::from_bits(f[0].confidence))
}

fn sure(kind: &str, class: &str) -> (String, String, f64) {
    (kind.to_string(), class.to_string(), 1.0)
}

#[test]
fn magic_is_certain() {
    assert_eq!(kind_of(b"\0\0\0\x0cftypisom"), sure("ISO BMFF / MP4 (brand isom)", "container"));
    assert_eq!(kind_of(b"RIFF....WAVE"), sure("WAV audio", "audio"));
    assert_eq!(kind_of(b"RIFF....AVI "), sure("AVI video", "video"));
    assert_eq!(kind_of(b"ID3........."), sure("MP3 audio (ID3-tagged)", "audio"));
    assert_eq!(kind_of(b"fLaC........"), sure("FLAC audio", "audio"));
    assert_eq!(kind_of(b"OggS........"), sure("Ogg container", "container"));
    assert_eq!(kind_of(b"\x1a\x45\xdf\xa3........"), sure("Matroska / WebM", "container"));
    assert_eq!(kind_of(b"FORM....AIFF"), sure("AIFF audio", "audio"));
    assert!(identify(b"nothing here").is_empty());
    assert!(identify(b"").is_empty());
}

#[test]
fn brands_that_are_no_text_are_replaced() {
    let mut d = b"\0\0\0\x0cftyp".to_vec();
    d.extend_from_slice(&[b'a', 0xff, b'b', 0xfe]);
    assert_eq!(kind_of(&d).0, "ISO BMFF / MP4 (brand a\u{fffd}b\u{fffd})");
}

#[test]
fn confidences_are_the_doubles_they_should_be() {
    // 4 to 7 chained MP3 frames, then 8
    for n in 4..=9u32 {
        let mut data = Vec::new();
        for _ in 0..n {
            let mut frame = vec![0xFF, 0xFB, 0x90, 0x00];
            frame.resize(417, 0xAB);
            data.extend_from_slice(&frame);
        }
        let f = scan_mp3(&data).unwrap();
        let want = if n >= 8 { 0.95 } else { 0.7 + n as f64 * 0.03 };
        assert_eq!(f.confidence, f64::to_bits(want), "n={n}");
    }
    // MPEG-TS: 5 packets and more, up to the ceiling
    for n in 5..=12u32 {
        let mut data = vec![0u8; 188 * n as usize];
        for i in 0..n as usize {
            data[188 * i] = 0x47;
        }
        let f = identify(&data);
        let ts = f.iter().find(|f| f.kind == "MPEG transport stream").unwrap();
        let want = (0.5 + n as f64 * 0.05).min(0.97);
        assert_eq!(ts.confidence, f64::to_bits(want), "n={n}");
        assert_eq!(ts.evidence, format!("{n} sync bytes at 188-byte cadence from offset 0"));
    }
    // MP4 framing: 6 to 16 NAL units
    for n in 6..=17u32 {
        let mut data = Vec::new();
        for _ in 0..n {
            data.extend_from_slice(&[0, 0, 0, 3, 0x41, 0x9a, 0xCC]);
        }
        let f = identify(&data);
        let h = f.iter().find(|f| f.kind.starts_with("H.264 in MP4 framing")).unwrap();
        let want = (0.55 + n.min(16) as f64 * 0.025).min(0.9);
        assert_eq!(h.confidence, f64::to_bits(want), "n={n}");
    }
}

#[test]
fn surest_findings_come_first() {
    let mut d = b"\0\0\0\x0cftypisom".to_vec();
    d.extend_from_slice(&8u32.to_be_bytes());
    d.extend_from_slice(b"moov");
    let f = identify(&d);
    assert_eq!(f.len(), 2);
    assert_eq!(f[0].kind, "ISO BMFF / MP4 (brand isom)");
    assert_eq!(f[1].kind, "ISO BMFF / MP4");
    assert_eq!(f[1].confidence, f64::to_bits(0.5 + 0.3));
    assert_eq!(
        f[1].evidence,
        "self-consistent atom chain: ftyp@0 (12 bytes), moov@12 (8 bytes)"
    );
}

#[test]
fn damaged_fronts_are_recognized() {
    let mut d = vec![0u8; 20];
    d.extend_from_slice(&[0x1F, 0x43, 0xB6, 0x75, 0, 0, 0, 0]);
    assert_eq!(
        kind_of(&d),
        ("Matroska / WebM (damaged front)".to_string(), "container".to_string(), 0.6)
    );
    let ogg = b"xxOggS....OggS....".to_vec();
    assert_eq!(
        kind_of(&ogg),
        ("Ogg container (damaged front)".to_string(), "container".to_string(), 0.8)
    );
    let mut flac = Vec::new();
    for _ in 0..16 {
        flac.extend_from_slice(&[0xFF, 0xF8, 0xC9, 0x00, 0x11]);
    }
    assert_eq!(
        kind_of(&flac),
        ("possible bare FLAC frames".to_string(), "audio".to_string(), 0.35)
    );
    let annexb = [
        &[0u8, 0, 0, 1, 0x67, 66, 1][..],
        &[0, 0, 0, 1, 0x68, 1, 1],
        &[0, 0, 0, 1, 0x65, 0x88, 1],
        &[0, 0, 0, 1, 0x41, 0x9a, 1],
    ]
    .concat();
    let f = identify(&annexb);
    assert_eq!(f[0].kind, "H.264 elementary stream (Annex B)");
    assert_eq!(f[0].confidence, f64::to_bits(0.96));
    assert_eq!(f[0].evidence, "4 start codes; SPS:true PPS:true IDR:true SPS→PPS:true");
}

#[test]
fn findings_point_into_the_file() {
    let samples: [&[u8]; 4] =
        [b"\0\0\0\x0cftypisom", b"xxOggS....OggS....", &[0x47; 940], &[0xFF; 600]];
    for d in samples {
        for f in identify(d) {
            assert!(f.offset as usize <= d.len());
            assert!((0.0..=1.0).contains(&f64::from_bits(f.confidence)));
        }
    }
}
