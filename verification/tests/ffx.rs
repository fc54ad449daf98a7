use basinski::ffx::{
    clip_from_keyframe, decode_errors, decode_rgb224, decode_sample, error_lines, keyframes, mux_audio,
    overwrite_args, plan_conversion, probe, remux, remux_copy, synth_donor, to_correct_format,
    Conversion, Format, Packet, Probe, Stream, RGB224,
};

fn stream(kind: &str, codec: &str, dims: Option<(u32, u32)>) -> Stream {
    Stream {
        codec_type: Some(kind.to_string()),
        codec_name: Some(codec.to_string()),
        width: dims.map(|d| d.0),
        height: dims.map(|d| d.1),
    }
}

fn movie() -> Probe {
    Probe {
        streams: vec![
            stream("audio", "aac", None),
            stream("video", "h264", Some((1280, 720))),
        ],
        format: Some(Format {
            format_name: Some("mov,mp4".to_string()),
            duration: Some("1.5".to_string()),
        }),
    }
}

#[test]
fn probes_are_summarized() {
    assert_eq!(movie().summary(), "mov,mp4, 1.5s, audio:aac, video:h264 1280x720");
    let bare = Probe {
        streams: vec![Stream { codec_type: None, codec_name: None, width: Some(1), height: None }],
        format: None,
    };
    assert_eq!(bare.summary(), "?:?");
}

#[test]
fn cover_art_is_no_video() {
    let p = movie();
    assert!(p.has_video() && p.has_audio());
    assert_eq!(p.video_dims(), Some((1280, 720)));
    let art = Probe { streams: vec![stream("video", "png", Some((300, 300)))], format: None };
    assert!(!art.has_video() && !art.has_audio());
    assert_eq!(art.video_dims(), Some((300, 300)));
    let flat = Probe { streams: vec![stream("video", "h264", Some((0, 9)))], format: None };
    assert!(!flat.has_video());
    assert_eq!(flat.video_dims(), None);
}

#[test]
fn empty_probes_are_none() {
    assert!(probe(None).is_none());
    assert!(probe(Some(Probe { streams: vec![], format: None })).is_none());
    assert_eq!(probe(Some(movie())).unwrap().streams.len(), 2);
}

#[test]
fn keyframe_packets_are_picked() {
    let packet = |pts: Option<&str>, dts: Option<&str>, flags: Option<&str>| Packet {
        pts_time: pts.map(str::to_string),
        dts_time: dts.map(str::to_string),
        flags: flags.map(str::to_string),
    };
    let list = [
        packet(Some("0.0"), Some("-0.1"), Some("K__")),
        packet(Some("0.1"), None, Some("___")),
        packet(None, Some("0.2"), Some("_K_")),
        packet(None, None, Some("K__")),
        packet(Some("0.4"), None, None),
    ];
    assert_eq!(keyframes(&list), vec!["0.0".to_string(), "0.2".to_string()]);
}

#[test]
fn error_lines_are_counted() {
    assert_eq!(error_lines(b""), 0);
    assert_eq!(error_lines(b"one\r\n \t\r\ntwo"), 2);
    // A byte that is no UTF-8 still makes a line; an ideographic space does not.
    assert_eq!(error_lines(&[0xff, b'\n', 0xe3, 0x80, 0x80, b'\n']), 1);
    assert_eq!(decode_errors(b"", true), 0);
    assert_eq!(decode_errors(b"", false), 1);
    assert_eq!(decode_errors(b"a\nb\nc\n", false), 3);
}

#[test]
fn samples_need_dimensions() {
    let (frames, errors) = decode_sample(None, &[], &[]);
    assert!(frames.is_empty());
    assert_eq!(errors, usize::MAX);
    let raw = vec![7u8; 2 * (32 * 32 + 2 * 16 * 16)];
    let (frames, errors) = decode_sample(Some((32, 32)), &raw, b"oops\n");
    assert_eq!(frames.len(), 2);
    assert_eq!(errors, 1);
}

#[test]
fn the_critic_gets_one_frame() {
    let raw: Vec<u8> = (0..RGB224 + 3).map(|i| i as u8).collect();
    assert_eq!(RGB224, 224 * 224 * 3);
    assert_eq!(decode_rgb224(&raw).unwrap(), raw[..RGB224]);
    assert!(decode_rgb224(&raw[..RGB224 - 1]).is_none());
}

#[test]
fn ffmpeg_is_asked_the_right_things() {
    assert_eq!(overwrite_args(), vec!["-v", "error", "-y"]);
    assert_eq!(remux(), vec!["-map", "0", "-c", "copy", "-movflags", "+faststart"]);
    assert_eq!(remux_copy(), vec!["-map", "0", "-c", "copy"]);
    assert_eq!(clip_from_keyframe()[4..6], ["-avoid_negative_ts", "make_zero"]);
    assert_eq!(to_correct_format(false), vec!["-vn", "-c:a", "libmp3lame", "-q:a", "2"]);
    assert_eq!(to_correct_format(true)[..2], ["-c:v", "libx264"]);
    assert_eq!(synth_donor(1280, 720, 30)[6], "testsrc2=size=1280x720:rate=30");
    assert_eq!(synth_donor(1280, 720, 30).len(), 18);
    assert_eq!(mux_audio().0, vec!["-c:a", "pcm_s16le"]);
}

#[test]
fn conversion_takes_consent_and_streams() {
    assert_eq!(plan_conversion(false, Some(&movie())), Conversion::Refused);
    assert_eq!(plan_conversion(true, None), Conversion::Unprobeable);
    let subtitles = Probe { streams: vec![stream("subtitle", "srt", None)], format: None };
    assert_eq!(plan_conversion(true, Some(&subtitles)), Conversion::Nothing);
    assert_eq!(plan_conversion(true, Some(&movie())), Conversion::To { video: true });
    let song = Probe { streams: vec![stream("audio", "flac", None)], format: None };
    assert_eq!(plan_conversion(true, Some(&song)), Conversion::To { video: false });
}
