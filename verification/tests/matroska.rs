use basinski::ebml::{
    el, read_element, uint, write_vint, ID_CLUSTER, ID_EBML, ID_INFO, ID_SEGMENT, ID_SIMPLE_BLOCK,
    ID_TIMECODE, ID_TRACKS,
};
use basinski::matroska::{
    all_webm_legal, analyze, build_head, reconstruct, sample_frames, walk_cluster, Analysis,
    SampledBlock, Track,
};
use basinski::mkv_codecs::Codec;

/// Build a synthetic SimpleBlock element: track 1, unlaced, given keyframe
/// flag and frame bytes.
fn simple_block(track: u64, key: bool, frame: &[u8]) -> Vec<u8> {
    let mut body = write_vint(track);
    body.extend_from_slice(&[0x00, 0x00]); // rel timecode
    body.push(if key { 0x80 } else { 0x00 }); // flags
    body.extend_from_slice(frame);
    el(ID_SIMPLE_BLOCK, &body)
}

#[test]
fn walks_cluster_blocks() {
    let mut cluster_body = uint(ID_TIMECODE, 1000);
    cluster_body.extend(simple_block(1, true, b"VIDEO"));
    cluster_body.extend(simple_block(2, false, b"AUDIO"));
    let cluster = el(ID_CLUSTER, &cluster_body);

    let mut got = Vec::new();
    let end = walk_cluster(&cluster, 0, &mut got);
    assert_eq!(end, Some(cluster.len()));
    assert_eq!(got.len(), 2);
    assert_eq!(got[0], SampledBlock { track: 1, keyframe: true, frame: b"VIDEO".to_vec() });
    assert_eq!(got[1], SampledBlock { track: 2, keyframe: false, frame: b"AUDIO".to_vec() });
}

#[test]
fn samples_frames_across_a_cluster() {
    let mut cluster_body = uint(ID_TIMECODE, 0);
    cluster_body.extend(simple_block(1, true, b"K"));
    cluster_body.extend(simple_block(1, false, b"P"));
    let cluster = el(ID_CLUSTER, &cluster_body);

    let s = sample_frames(&cluster, 0, 4);
    assert_eq!(s.len(), 1);
    assert_eq!(s[&1], vec![(true, b"K".to_vec()), (false, b"P".to_vec())]);
}

const VP9_KEYFRAME: &[u8] = &[
    0x82, 0x49, 0x83, 0x42, 0x40, 0x77, 0xF0, 0x43, 0x74, 0x18, 0x27, 0xA0,
];

#[test]
fn analyze_reports_intact_for_ebml_magic() {
    let buf = [0x1A, 0x45, 0xDF, 0xA3, 0x01, 0x02];
    assert!(matches!(analyze(&buf), Analysis::Intact));
}

#[test]
fn analyze_reports_nostructure_for_garbage() {
    let buf = [0u8; 64];
    assert!(matches!(analyze(&buf), Analysis::NoStructure));
}

/// [8 bytes garbage][cluster: VP9 keyframe on track 1, Opus frame on track 2]
fn beheaded() -> (Vec<u8>, Vec<u8>) {
    let mut body = uint(ID_TIMECODE, 0);
    body.extend(simple_block(1, true, VP9_KEYFRAME));
    body.extend(simple_block(2, true, &[0xFC, 0xEA, 0x73]));
    let cluster = el(ID_CLUSTER, &body);
    let mut buf = vec![0xAB; 8];
    buf.extend_from_slice(&cluster);
    (buf, cluster)
}

#[test]
fn analyze_finds_heavy_beheading_with_vp9_and_opus() {
    let (buf, _) = beheaded();
    let Analysis::Heavy(h) = analyze(&buf) else {
        panic!("expected Heavy");
    };
    assert_eq!(h.first_cluster, 8);
    // The single cluster is led by a real VP9 keyframe, so it is also the
    // clean playback start.
    assert_eq!(h.first_keyframe_cluster, Some(8));
    assert_eq!(h.bytes_lost, 8);
    assert_eq!(h.tracks.len(), 2);
    assert_eq!(h.tracks[0].number, 1);
    assert_eq!(h.tracks[0].codec, Codec::Vp9 { width: 1920, height: 1080 });
    assert_eq!(h.tracks[1].number, 2);
    assert_eq!(h.tracks[1].codec, Codec::Opus { channels: 2 });
}

#[test]
fn clean_start_skips_clusters_without_a_keyframe() {
    // First cluster: an inter frame. Second: a keyframe.
    let mut body = uint(ID_TIMECODE, 0);
    body.extend(simple_block(1, false, &[0x86, 0x00, 0x40, 0x96, 0xA8]));
    let first = el(ID_CLUSTER, &body);
    let mut body = uint(ID_TIMECODE, 100);
    body.extend(simple_block(1, true, VP9_KEYFRAME));
    let second = el(ID_CLUSTER, &body);
    let mut buf = first.clone();
    buf.extend_from_slice(&second);
    let Analysis::Heavy(h) = analyze(&buf) else { panic!() };
    assert_eq!(h.first_cluster, 0);
    assert_eq!(h.first_keyframe_cluster, Some(first.len()));
    assert_eq!(h.bytes_lost, first.len());
}

#[test]
fn laced_blocks_and_broken_children_are_not_sampled() {
    // A laced block is skipped, and blocks in front of a malformed child stay.
    let mut laced = write_vint(1);
    laced.extend_from_slice(&[0, 0, 0x82, 1, 2, 3]);
    let mut body = el(ID_SIMPLE_BLOCK, &laced);
    body.extend(simple_block(3, false, b"ok"));
    body.push(0x00); // no legal ID
    let cluster = el(ID_CLUSTER, &body);
    let mut got = Vec::new();
    assert_eq!(walk_cluster(&cluster, 0, &mut got), None);
    assert_eq!(got, vec![SampledBlock { track: 3, keyframe: false, frame: b"ok".to_vec() }]);
    assert_eq!(sample_frames(&cluster, 0, 4)[&3], vec![(false, b"ok".to_vec())]);
}

#[test]
fn samples_stop_at_the_limit() {
    let mut body = Vec::new();
    for i in 0..5u8 {
        body.extend(simple_block(7, true, &[i]));
    }
    let cluster = el(ID_CLUSTER, &body);
    let s = sample_frames(&cluster, 0, 2);
    assert_eq!(s[&7], vec![(true, vec![0]), (true, vec![1])]);
}

#[test]
fn clusters_are_scanned_until_every_track_has_enough() {
    let mut many = Vec::new();
    for _ in 0..9 {
        many.extend(el(ID_CLUSTER, &simple_block(1, true, &[0x01])));
    }
    let s = sample_frames(&many, 0, 9);
    assert_eq!(s.len(), 1);
    assert_eq!(s[&1], vec![(true, vec![0x01]); 9]);
    // the data runs out
    assert_eq!(sample_frames(&many, 0, 100)[&1].len(), 9);
    // a track that appears once all others have enough is not looked for
    let mut late = el(ID_CLUSTER, &simple_block(1, true, &[0x01]));
    late.extend(el(ID_CLUSTER, &simple_block(2, true, &[0x02])));
    assert_eq!(sample_frames(&late, 0, 1).len(), 1);
    assert_eq!(sample_frames(&late, 0, 2).len(), 2);
}

#[test]
fn a_smaller_limit_gives_a_prefix() {
    let mut data = el(ID_CLUSTER, &simple_block(1, true, b"a"));
    let mut second = simple_block(1, false, b"b");
    second.extend(simple_block(2, true, b"x"));
    second.extend(simple_block(1, false, b"c"));
    data.extend(el(ID_CLUSTER, &second));
    data.extend(el(ID_CLUSTER, &simple_block(2, false, b"y")));
    let one: Vec<(bool, Vec<u8>)> = vec![(true, b"a".to_vec()), (false, b"b".to_vec()), (false, b"c".to_vec())];
    let two: Vec<(bool, Vec<u8>)> = vec![(true, b"x".to_vec()), (false, b"y".to_vec())];
    for less in 0..5usize {
        let few = sample_frames(&data, 0, less);
        for more in less..5 {
            let many = sample_frames(&data, 0, more);
            for (track, frames) in &few {
                assert!(frames.len() <= less);
                assert_eq!(frames[..], many[track][..frames.len()]);
            }
        }
        // and each list begins the frames that the track has in the file
        for (track, frames) in &few {
            let all = if *track == 1 { &one } else { &two };
            assert_eq!(frames[..], all[..frames.len()]);
        }
    }
    // track 1 has enough before track 2 appears
    assert_eq!(sample_frames(&data, 0, 1).len(), 1);
    assert_eq!(sample_frames(&data, 0, 2)[&1].len(), 2);
    assert_eq!(sample_frames(&data, 0, 2)[&2], two);
}

#[test]
fn build_head_emits_ebml_and_tracks() {
    let tracks = vec![
        Track { number: 1, codec: Codec::Vp9 { width: 1920, height: 1080 } },
        Track { number: 2, codec: Codec::Opus { channels: 2 } },
    ];
    let head = build_head(&tracks, "webm").unwrap();
    // Starts with EBML magic.
    assert_eq!(&head[0..4], &[0x1A, 0x45, 0xDF, 0xA3]);
    // Declares DocType webm and both codecs.
    assert!(window(&head, b"webm").is_some());
    assert!(window(&head, b"V_VP9").is_some());
    assert!(window(&head, b"A_OPUS").is_some());
    // Contains a Segment ID and a Tracks ID.
    assert!(window(&head, &[0x18, 0x53, 0x80, 0x67]).is_some());
    assert!(window(&head, &[0x16, 0x54, 0xAE, 0x6B]).is_some());
}

#[test]
fn build_head_refuses_donor_only_track() {
    let tracks = vec![Track { number: 1, codec: Codec::NeedsDonor { hint: "x" } }];
    let e = build_head(&tracks, "webm").unwrap_err();
    assert_eq!(e.message(), "track 1 cannot be re-headed without a donor (x)");
}

#[test]
fn reconstruct_prepends_head_and_copies_clusters_verbatim() {
    let (buf, cluster) = beheaded();
    let Analysis::Heavy(h) = analyze(&buf) else { panic!() };
    let out = reconstruct(&buf, &h, h.first_cluster).unwrap();
    // The tail of the output is the surviving clusters, byte-for-byte.
    assert!(out.ends_with(&cluster));
    assert_eq!(&out[0..4], &[0x1A, 0x45, 0xDF, 0xA3]);
}

#[test]
fn a_reader_steps_through_the_head_to_the_clusters() {
    let (buf, cluster) = beheaded();
    let Analysis::Heavy(h) = analyze(&buf) else { panic!() };
    let out = reconstruct(&buf, &h, h.first_cluster).unwrap();
    let header = read_element(&out, 0).unwrap();
    assert_eq!(header.id, ID_EBML);
    let at = header.data_pos + header.size.unwrap() as usize;
    let segment = read_element(&out, at).unwrap();
    assert_eq!((segment.id, segment.size), (ID_SEGMENT, None));
    let info = read_element(&out, segment.data_pos).unwrap();
    assert_eq!(info.id, ID_INFO);
    let at = info.data_pos + info.size.unwrap() as usize;
    let tracks = read_element(&out, at).unwrap();
    assert_eq!(tracks.id, ID_TRACKS);
    let at = tracks.data_pos + tracks.size.unwrap() as usize;
    assert_eq!(&out[at..], &cluster[..]);
}

#[test]
fn only_webm_codecs_make_a_webm() {
    let opus = Track { number: 1, codec: Codec::Opus { channels: 1 } };
    let h264 = Track {
        number: 2,
        codec: Codec::H264 { codec_private: vec![1], width: 16, height: 16 },
    };
    assert!(all_webm_legal(&[opus.clone()]));
    assert!(!all_webm_legal(&[opus, h264]));
    assert!(all_webm_legal(&[]));
}

fn window(haystack: &[u8], needle: &[u8]) -> Option<usize> {
    haystack.windows(needle.len()).position(|w| w == needle)
}
