use basinski::forensics::{identify, Finding};
use basinski::matroska::{DonorNeeded, Heavy, Track};
use basinski::mkv_codecs::Codec;
use basinski::mp4::{HeadTruncation, Moment};
use basinski::rescue::{
    after_regrowth, converted_extension, decode_note, default_name, donor_needed_message, drop_rescued,
    finish_source, first_clean_keyframe, headerless_plan, intact_step, judge_rehead, rehead, retime,
    route, salvage_rate, transplant_report, Clip, FinishSource, HeaderlessError, HeaderlessPlan,
    IntactStep, Options, Route, SearchStep, Start, TruncatedStep, Verdict,
};
use basinski::transplant::{Donor, DonorVideo, Transplant};

fn options() -> Options {
    Options {
        correct_format: false,
        no_clip: false,
        keep_temp: false,
        reference: None,
        fps: None,
        audio: true,
        audio_rate: 44100,
    }
}

#[test]
fn outputs_are_named_after_the_casualty() {
    assert_eq!(default_name("tape", "rescued", "mp4"), "tape.rescued.mp4");
}

#[test]
fn casualties_are_routed() {
    assert!(matches!(route(&[0u8; 64]), Some(Route::Headerless)));
    // a cluster with one block, and nothing in front
    let block = [0xA3, 0x85, 0x81, 0, 0, 0x80, 0xFC];
    let mut d = vec![0x1F, 0x43, 0xB6, 0x75, 0x87];
    d.extend_from_slice(&block);
    let Some(Route::Beheaded(h)) = route(&d) else { panic!() };
    assert_eq!(h.tracks, vec![Track { number: 1, codec: Codec::Opus { channels: 2 } }]);
    // intact Matroska is left to the headerless path
    let mut whole = vec![0x1A, 0x45, 0xDF, 0xA3];
    whole.extend_from_slice(&d);
    assert!(matches!(route(&whole), Some(Route::Headerless)));
}

#[test]
fn regrown_files_are_clipped_where_media_was_lost() {
    let mut b = HeadTruncation {
        cut_bytes: 0,
        method: String::new(),
        media_start: 0,
        moov_orig: 0,
        media_bytes_lost: 0,
        damaged_keyframes: 0,
        first_clean_keyframe_time: None,
        tracks: vec![],
    };
    assert_eq!(after_regrowth(&b, false), TruncatedStep::Remux { damage_kept: false });
    b.media_bytes_lost = 9;
    assert_eq!(after_regrowth(&b, true), TruncatedStep::Remux { damage_kept: true });
    assert_eq!(after_regrowth(&b, false), TruncatedStep::NothingClippable);
    b.first_clean_keyframe_time = Some(Moment { ticks: 4, timescale: 30 });
    assert_eq!(after_regrowth(&b, false), TruncatedStep::Clip);
}

fn heavy(first: usize, keyframe: Option<usize>, codec: Codec) -> Heavy {
    Heavy {
        first_cluster: first,
        first_keyframe_cluster: keyframe,
        tracks: vec![Track { number: 1, codec }],
        bytes_lost: keyframe.unwrap_or(first),
    }
}

#[test]
fn reheads_start_at_a_keyframe() {
    let data = [7u8; 50];
    let opus = || Codec::Opus { channels: 2 };
    let r = rehead(&data, &heavy(8, Some(20), opus()), false).unwrap();
    assert_eq!((r.start_offset, r.start, r.webm), (20, Start::Skipped, true));
    assert_eq!(r.bytes.len(), r.head_len + 30);
    assert_eq!(&r.bytes[r.head_len..], &data[20..]);
    let r = rehead(&data, &heavy(8, Some(20), opus()), true).unwrap();
    assert_eq!((r.start_offset, r.start), (8, Start::Kept));
    let r = rehead(&data, &heavy(8, None, opus()), false).unwrap();
    assert_eq!((r.start_offset, r.start), (8, Start::MidGop));
    let r = rehead(&data, &heavy(8, Some(8), opus()), false).unwrap();
    assert_eq!((r.start_offset, r.start), (8, Start::Clean));
    let e = rehead(&data, &heavy(8, None, Codec::NeedsDonor { hint: "x" }), false).unwrap_err();
    assert_eq!(e, DonorNeeded { track: 1, hint: "x" });
    assert!(donor_needed_message(&e).starts_with("track 1 (x) keeps its parameters in the lost header"));
}

#[test]
fn reheads_are_judged() {
    assert_eq!(judge_rehead(0, false), Verdict::Clean);
    assert_eq!(judge_rehead(1, true), Verdict::Expected);
    assert_eq!(judge_rehead(1, false), Verdict::Rejected);
}

#[test]
fn intact_files_are_left_converted_or_searched() {
    assert_eq!(intact_step(0, false), IntactStep::Leave);
    assert_eq!(intact_step(0, true), IntactStep::Convert);
    assert_eq!(intact_step(3, true), IntactStep::Search);
}

#[test]
fn the_first_clean_keyframe_is_found() {
    let bad = Clip::Decoded { errors: 2 };
    let good = Clip::Decoded { errors: 0 };
    assert_eq!(first_clean_keyframe(0, &[]), SearchStep::NoKeyframes);
    assert_eq!(first_clean_keyframe(3, &[]), SearchStep::Try { keyframe: 0 });
    assert_eq!(first_clean_keyframe(3, &[bad, Clip::Failed]), SearchStep::Try { keyframe: 2 });
    assert_eq!(first_clean_keyframe(3, &[bad, good]), SearchStep::Found { keyframe: 1 });
    assert_eq!(first_clean_keyframe(3, &[bad; 3]), SearchStep::GaveUp);
    assert_eq!(first_clean_keyframe(99, &[bad; 31]), SearchStep::Try { keyframe: 31 });
    assert_eq!(first_clean_keyframe(99, &[bad; 32]), SearchStep::GaveUp);
}

fn finding(kind: &str, confidence: f64) -> Finding {
    Finding {
        kind: kind.to_string(),
        class: "audio".to_string(),
        offset: 6,
        confidence: confidence.to_bits(),
        evidence: String::new(),
    }
}

#[test]
fn headerless_files_are_treated_by_kind() {
    let plan = |kind: &str, confidence: f64| {
        headerless_plan(&[0; 64], &[finding(kind, confidence)], None, &options())
    };
    let trims = [
        ("MP3 audio (x)", "mp3", "mp3"),
        ("AAC audio in ADTS (x)", "aac", "aac"),
        ("MPEG transport stream", "ts", "mp4"),
        ("H.264 elementary stream (Annex B)", "h264", "mp4"),
    ];
    for (kind, trim, container) in trims {
        let Ok(HeaderlessPlan::Trim { offset, trim_ext, container_ext }) = plan(kind, 0.5) else {
            panic!("{kind}")
        };
        assert_eq!((offset, trim_ext, container_ext), (6, trim, container));
        assert!(matches!(plan(kind, 0.49), Err(HeaderlessError::NoStructure)));
        assert!(matches!(plan(kind, f64::NAN), Err(HeaderlessError::NoStructure)));
    }
    let e = plan("H.264 in MP4 framing (x)", 0.9).unwrap_err();
    assert!(matches!(e, HeaderlessError::Mp4Body));
    assert!(e.message().starts_with("this is the body of an MP4 — length-prefixed H.264"));
    let e = plan("FLAC audio", 1.0).unwrap_err();
    assert_eq!(
        e.message(),
        "identified as `FLAC audio` but basinski does not know how to re-head that format yet"
    );
    let e = headerless_plan(&[], &[], None, &options()).unwrap_err();
    assert!(e.message().starts_with("no usable structure found"));
}

#[test]
fn health_and_donors_come_before_kinds() {
    let f = [finding("MP3 audio", 0.9)];
    let mut o = options();
    assert!(matches!(headerless_plan(&[], &f, Some(true), &o), Ok(HeaderlessPlan::Leave)));
    o.reference = Some("sibling.mp4".to_string());
    assert!(matches!(headerless_plan(&[0; 9], &f, None, &o), Ok(HeaderlessPlan::Transplant)));
    let e = headerless_plan(&[0x1A, 0x45, 0xDF, 0xA3], &f, None, &o).unwrap_err();
    assert!(e.message().starts_with("this is a Matroska/WebM file"));
    o.correct_format = true;
    let plan = headerless_plan(&[], &f, Some(false), &o);
    assert!(matches!(plan, Ok(HeaderlessPlan::Convert { video: false })));
}

#[test]
fn a_trimmed_stream_starts_at_its_first_sync() {
    let mut data = vec![0x00, 0xFF, 0xE2, 0x11, 0x22, 0x33];
    for _ in 0..6 {
        let mut frame = vec![0xFF, 0xFB, 0x90, 0x00];
        frame.resize(417, 0xAB);
        data.extend_from_slice(&frame);
    }
    let plan = headerless_plan(&data, &identify(&data), None, &options());
    let Ok(HeaderlessPlan::Trim { offset, .. }) = plan else { panic!() };
    assert_eq!(offset, 6);
}

#[test]
fn donors_are_retimed_on_request() {
    let donor = || Donor {
        video: Some(DonorVideo {
            stsd: vec![],
            tkhd: None,
            timescale: 30,
            sample_delta: 1,
            max_sample: 1,
            has_ctts: false,
            sps: None,
            codec: "avc1".to_string(),
        }),
        audio: None,
    };
    let (d, done) = retime(donor(), Some((24000, 1001)));
    let v = d.video.unwrap();
    assert!(done);
    assert_eq!((v.timescale, v.sample_delta, v.max_sample), (24000, 1001, 1));
    let (d, done) = retime(donor(), None);
    assert!(!done);
    assert_eq!(d.video.unwrap().timescale, 30);
    let (_, done) = retime(Donor { video: None, audio: None }, Some((24, 1)));
    assert!(!done);
}

#[test]
fn audio_is_salvaged_unless_asked_not_to() {
    let mut o = options();
    assert_eq!(salvage_rate(&o), Some(44100));
    o.audio = false;
    assert_eq!(salvage_rate(&o), None);
}

#[test]
fn reports_say_what_there_is_to_say() {
    let mut t = Transplant {
        out: vec![],
        video_samples: 4,
        sync_samples: 1,
        dropped_leading: 0,
        audio_samples: 0,
        audio_bytes_dropped: 0,
        torn_bytes: 0,
        duration_ms: 12_034,
        ctts_recovered: false,
        audio_adts: None,
        aac_chunks: 0,
        aac_skipped: 0,
    };
    assert_eq!(
        transplant_report(&t, false, 44100),
        vec![
            "    video samples recovered : 4 (1 keyframes)",
            "    recovered duration      : 12.034s",
        ]
    );
    t.dropped_leading = 3;
    t.audio_samples = 6;
    t.audio_bytes_dropped = 7;
    t.torn_bytes = 8;
    t.aac_chunks = 2;
    t.aac_skipped = 1;
    t.ctts_recovered = true;
    assert_eq!(
        transplant_report(&t, true, 48000),
        vec![
            "    video samples recovered : 4 (1 keyframes)",
            "    B-frame timing          : recovered from slice POCs (ctts regrown)",
            "    dropped pre-keyframe    : 3 samples (undecodable without their IDR)",
            "    audio samples recovered : 6",
            "    audio recovered         : 2 AAC chunks from the interleave gaps @ 48000 Hz (1 non-audio gaps skipped)",
            "    audio dropped           : 7 bytes (no recognizable AAC framing)",
            "    torn beyond recovery    : 8 bytes",
            "    recovered duration      : 12.034s",
        ]
    );
    t.ctts_recovered = false;
    assert_eq!(
        transplant_report(&t, true, 48000)[1],
        "    (donor reorders B-frames but their timing resisted recovery — expect slight judder, not damage)"
    );
}

#[test]
fn the_end_is_validated_and_maybe_converted() {
    assert_eq!(finish_source(false, true), FinishSource::Nothing);
    assert_eq!(finish_source(true, true), FinishSource::Output);
    assert_eq!(finish_source(true, false), FinishSource::Input);
    assert_eq!(converted_extension(FinishSource::Output, true), Some("correct.mp4"));
    assert_eq!(converted_extension(FinishSource::Output, false), Some("correct.mp3"));
    assert_eq!(converted_extension(FinishSource::Input, true), None);
    assert!(drop_rescued(FinishSource::Output, false));
    assert!(!drop_rescued(FinishSource::Output, true));
    assert!(!drop_rescued(FinishSource::Input, false));
    assert_eq!(decode_note(0), "full decode: clean (0 errors)");
    assert_eq!(decode_note(3), "full decode: 3 error line(s) remain — partial rescue");
}
