use basinski::ebml::{uint, ID_PIXEL_WIDTH, ID_TRACK_TYPE};
use basinski::mkv_codecs::{opus_channels, opus_head, sniff, track_entry, vp9_dims, Codec};

/// First bytes of a real VP9 keyframe from samples/trey-bermudan-broke2.webm
/// (cluster @ 622530). Encodes 1920x1080.
const VP9_KEYFRAME: &[u8] = &[
    0x82, 0x49, 0x83, 0x42, 0x40, 0x77, 0xF0, 0x43, 0x74, 0x18, 0x27, 0xA0,
];

#[test]
fn vp9_dims_reads_1080p_keyframe() {
    assert_eq!(vp9_dims(VP9_KEYFRAME), Some((1920, 1080)));
}

#[test]
fn vp9_dims_rejects_inter_frame() {
    // 0x86 -> frame_marker 10, but frame_type bit = 1 (inter): no size here.
    assert_eq!(vp9_dims(&[0x86, 0x00, 0x40, 0x96, 0xA8]), None);
}

#[test]
fn vp9_dims_rejects_non_vp9() {
    assert_eq!(vp9_dims(&[0x00, 0x00, 0x00, 0x01, 0x67]), None);
}

#[test]
fn opus_channels_from_toc_stereo_bit() {
    assert_eq!(opus_channels(0xFC), 2); // stereo bit (0x04) set
    assert_eq!(opus_channels(0xF8), 1); // stereo bit clear
}

#[test]
fn opus_head_is_19_bytes() {
    let h = opus_head(2);
    assert_eq!(h.len(), 19);
    assert_eq!(&h[0..8], b"OpusHead");
    assert_eq!(h[8], 1); // version
    assert_eq!(h[9], 2); // channel count
    assert_eq!(&h[12..16], &48000u32.to_le_bytes()); // input sample rate
    assert_eq!(h[18], 0); // channel mapping family
}

#[test]
fn sniff_identifies_vp9_from_keyframe() {
    let frames = vec![(true, VP9_KEYFRAME.to_vec())];
    assert_eq!(sniff(&frames), Codec::Vp9 { width: 1920, height: 1080 });
}

#[test]
fn sniff_identifies_opus_from_consistent_toc() {
    // Audio frames with a constant TOC config (top 5 bits) -> Opus.
    let frames = vec![
        (true, vec![0xFC, 0xEA, 0x73]),
        (true, vec![0xFC, 0x13, 0xFE]),
        (true, vec![0xFC, 0x01, 0x0A]),
    ];
    assert_eq!(sniff(&frames), Codec::Opus { channels: 2 });
}

#[test]
fn sniff_unknown_needs_donor() {
    let frames = vec![(false, vec![0xDE, 0xAD, 0xBE, 0xEF])];
    assert!(matches!(sniff(&frames), Codec::NeedsDonor { .. }));
}

#[test]
fn track_entry_for_vp9_has_codec_id_and_dims() {
    let bytes = track_entry(1, &Codec::Vp9 { width: 1920, height: 1080 });
    // Contains the CodecID string and a TrackType=1 (video).
    assert!(find(&bytes, b"V_VP9").is_some());
    assert!(find(&bytes, &uint(ID_PIXEL_WIDTH, 1920)).is_some());
    assert!(find(&bytes, &uint(ID_TRACK_TYPE, 1)).is_some());
}

#[test]
fn track_entry_for_opus_has_opus_head() {
    let bytes = track_entry(2, &Codec::Opus { channels: 2 });
    assert!(find(&bytes, b"A_OPUS").is_some());
    assert!(find(&bytes, b"OpusHead").is_some());
    assert!(find(&bytes, &uint(ID_TRACK_TYPE, 2)).is_some());
}

#[test]
fn sniff_rejects_unflagged_constant_config_as_opus() {
    // Non-keyframe frames sharing a constant top-5-bit value look like a VP9
    // inter-frame run, not Opus (audio frames are always keyframe-flagged).
    let frames = vec![
        (false, vec![0xFC, 0x11, 0x22]),
        (false, vec![0xFC, 0x33, 0x44]),
    ];
    assert!(matches!(sniff(&frames), Codec::NeedsDonor { .. }));
}

/// Tiny substring search for assertions.
fn find(haystack: &[u8], needle: &[u8]) -> Option<usize> {
    haystack.windows(needle.len()).position(|w| w == needle)
}
