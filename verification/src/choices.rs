//! What the choices along a rescue promise: every trace is reported, a stream is cut out as what
//! it is, the earliest clean keyframe is the one that is clipped to, and nothing is thrown away
//! that was not asked for.
use crate::divine::{judgment, produced_a_picture, shortlist, testimony, Candidate};
use crate::ffx::{plan_conversion, probe, Conversion, Probe, Stream};
use crate::forensics::{
    all_found, annexb_found, avcc_found, ebml_found, flac_found, frames_found, law_surest_first,
    listed, magic_found, mp4_found, ogg_found, surest_first, ts_found, Found, Framing,
};
use crate::matroska::{evidence, first_cluster_from, DonorNeeded, Heavy};
use crate::mp4::HeadTruncation;
use crate::rescue::{
    after_regrowth, converted_extension, drop_rescued, finish_source, first_clean_keyframe,
    headerless_treatment, intact_step, judge_rehead, rehead, rehead_ready, retime, route,
    treatment_for, Clip, FinishSource, IntactStep, Rehead, Route, SearchStep, Start, Treatment,
    TruncatedStep, Verdict,
};
use crate::transplant::Donor;
use vstd::prelude::*;

verus! {

// ---------------------------------------------------------------------------
// What is found
// ---------------------------------------------------------------------------

/// What one of the scanners says.
pub open spec fn some_scanner_says(d: Seq<u8>, f: Found) -> bool {
    ||| magic_found(d) == Some(f)
    ||| mp4_found(d) == Some(f)
    ||| frames_found(Framing::Mp3, d) == Some(f)
    ||| frames_found(Framing::Adts, d) == Some(f)
    ||| ts_found(d) == Some(f)
    ||| annexb_found(d) == Some(f)
    ||| avcc_found(d) == Some(f)
    ||| ebml_found(d) == Some(f)
    ||| ogg_found(d) == Some(f)
    ||| flac_found(d) == Some(f)
}

proof fn lemma_listed(a: Seq<Found>, x: Option<Found>, f: Found)
    ensures
        (a + listed(x)).contains(f) <==> a.contains(f) || x == Some(f),
{
    let s = a + listed(x);
    if a.contains(f) {
        let i = choose|i: int| 0 <= i < a.len() && a[i] == f;
        assert(s[i] == f);
    }
    if x == Some(f) {
        assert(s[a.len() as int] == f);
    }
    if s.contains(f) {
        let i = choose|i: int| 0 <= i < s.len() && s[i] == f;
        if i < a.len() {
            assert(a[i] == f);
        }
    }
}

/// Every trace is reported, and nothing that no scanner saw.
pub proof fn law_every_trace_is_reported(d: Seq<u8>, f: Found)
    ensures
        surest_first(all_found(d)).contains(f) <==> some_scanner_says(d, f),
{
    broadcast use vstd::seq_lib::group_to_multiset_ensures;

    let s = all_found(d);
    law_surest_first(s);
    assert(surest_first(s).contains(f) <==> surest_first(s).to_multiset().count(f) > 0);
    assert(s.contains(f) <==> s.to_multiset().count(f) > 0);
    let none = Seq::<Found>::empty();
    let a = listed(magic_found(d));
    assert(none + a =~= a);
    lemma_listed(none, magic_found(d), f);
    lemma_listed(a, mp4_found(d), f);
    let a = a + listed(mp4_found(d));
    lemma_listed(a, frames_found(Framing::Mp3, d), f);
    let a = a + listed(frames_found(Framing::Mp3, d));
    lemma_listed(a, frames_found(Framing::Adts, d), f);
    let a = a + listed(frames_found(Framing::Adts, d));
    lemma_listed(a, ts_found(d), f);
    let a = a + listed(ts_found(d));
    lemma_listed(a, annexb_found(d), f);
    let a = a + listed(annexb_found(d));
    lemma_listed(a, avcc_found(d), f);
    let a = a + listed(avcc_found(d));
    lemma_listed(a, ebml_found(d), f);
    let a = a + listed(ebml_found(d));
    lemma_listed(a, ogg_found(d), f);
    let a = a + listed(ogg_found(d));
    lemma_listed(a, flac_found(d), f);
}

// ---------------------------------------------------------------------------
// What is done with it
// ---------------------------------------------------------------------------

/// A stream is cut out as what it is: MP3 and ADTS stay what they are, a transport stream and
/// bare H.264 become MP4, and the body of an MP4 asks for a donor.
pub proof fn law_streams_are_cut_out_as_what_they_are(f: Found, tail: Seq<char>)
    ensures
        f.kind == "MP3 audio"@ + tail ==> treatment_for(f) == (Treatment::Trim {
            offset: f.offset,
            trim_ext: "mp3"@,
            container_ext: "mp3"@,
        }),
        f.kind == "AAC audio in ADTS"@ + tail ==> treatment_for(f) == (Treatment::Trim {
            offset: f.offset,
            trim_ext: "aac"@,
            container_ext: "aac"@,
        }),
        f.kind == "MPEG transport stream"@ + tail ==> treatment_for(f) == (Treatment::Trim {
            offset: f.offset,
            trim_ext: "ts"@,
            container_ext: "mp4"@,
        }),
        f.kind == "H.264 elementary stream"@ + tail ==> treatment_for(f) == (Treatment::Trim {
            offset: f.offset,
            trim_ext: "h264"@,
            container_ext: "mp4"@,
        }),
        f.kind == "H.264 in MP4 framing"@ + tail ==> treatment_for(f) == Treatment::Mp4Body,
        f.kind.len() > 0 && f.kind[0] != 'M' && f.kind[0] != 'A' && f.kind[0] != 'H'
            ==> treatment_for(f) == (Treatment::Unknown { kind: f.kind }),
{
    reveal_strlit("MP3 audio");
    reveal_strlit("AAC audio in ADTS");
    reveal_strlit("MPEG transport stream");
    reveal_strlit("H.264 elementary stream");
    reveal_strlit("H.264 in MP4 framing");
    let (a, b, c, d, e) = (
        "MP3 audio"@,
        "AAC audio in ADTS"@,
        "MPEG transport stream"@,
        "H.264 elementary stream"@,
        "H.264 in MP4 framing"@,
    );
    let k = f.kind;
    if a.is_prefix_of(k) {
        assert(k[0] == a[0] && k[2] == a[2]);
    }
    if b.is_prefix_of(k) {
        assert(k[0] == b[0]);
    }
    if c.is_prefix_of(k) {
        assert(k[0] == c[0] && k[2] == c[2]);
    }
    if d.is_prefix_of(k) {
        assert(k[0] == d[0] && k[6] == d[6]);
    }
    if e.is_prefix_of(k) {
        assert(k[0] == e[0] && k[6] == e[6]);
    }
    assert((a + tail).subrange(0, a.len() as int) =~= a);
    assert((b + tail).subrange(0, b.len() as int) =~= b);
    assert((c + tail).subrange(0, c.len() as int) =~= c);
    assert((d + tail).subrange(0, d.len() as int) =~= d);
    assert((e + tail).subrange(0, e.len() as int) =~= e);
}

/// A file that does not decode: a donor is used on all but Matroska; without one, the surest
/// finding decides where it is as likely as not, and nothing can be done where none is.
pub proof fn law_the_surest_finding_decides(
    d: Seq<u8>,
    f: Found,
    more: Seq<Found>,
    correct_format: bool,
)
    ensures
        0x3fe0_0000_0000_0000 <= f.confidence <= 0x3ff0_0000_0000_0000 ==> headerless_treatment(
            d,
            seq![f] + more,
            None,
            correct_format,
            false,
        ) == treatment_for(f),
        f.confidence < 0x3fe0_0000_0000_0000 ==> headerless_treatment(
            d,
            seq![f] + more,
            None,
            correct_format,
            false,
        ) == Treatment::NoStructure,
        headerless_treatment(d, seq![], None, correct_format, false) == Treatment::NoStructure,
        headerless_treatment(d, more, None, correct_format, true) == if d.len() >= 4 && d[0] == 0x1a
            && d[1] == 0x45 && d[2] == 0xdf && d[3] == 0xa3 {
            Treatment::MatroskaReference
        } else {
            Treatment::Transplant
        },
{
    assert((seq![f] + more)[0] == f);
    let ebml = crate::forensics::EBML@;
    assert(ebml =~= seq![0x1au8, 0x45, 0xdf, 0xa3]);
    if crate::bytes::stands_at(d, 0, ebml) {
        assert(d.subrange(0, 4)[0] == d[0] && d.subrange(0, 4)[1] == d[1]);
        assert(d.subrange(0, 4)[2] == d[2] && d.subrange(0, 4)[3] == d[3]);
    }
    if d.len() >= 4 && d[0] == 0x1a && d[1] == 0x45 && d[2] == 0xdf && d[3] == 0xa3 {
        assert(d.subrange(0, 4) =~= ebml);
    }
}

// ---------------------------------------------------------------------------
// What is kept
// ---------------------------------------------------------------------------

/// Damage is cut off where it can be, unless it is to be kept; a file that lost no media is
/// never cut, and no cut is made without a keyframe to cut at.
pub proof fn law_damage_is_cut_off_unless_kept(b: HeadTruncation, no_clip: bool, r: TruncatedStep)
    requires
        call_ensures(after_regrowth, (&b, no_clip), r),
    ensures
        b.media_bytes_lost == 0 ==> r == (TruncatedStep::Remux { damage_kept: false }),
        b.media_bytes_lost > 0 && no_clip ==> r == (TruncatedStep::Remux { damage_kept: true }),
        r is Clip ==> b.first_clean_keyframe_time is Some,
        b.media_bytes_lost > 0 && !no_clip ==> !(r is Remux),
        r is NothingClippable ==> b.first_clean_keyframe_time is None,
{
}

/// The clip from the `i`th keyframe decodes without an error.
pub open spec fn clean_at(clips: Seq<Clip>, i: int) -> bool {
    clips[i] == (Clip::Decoded { errors: 0 })
}

/// The search clips from one keyframe after the other and stops at the first clean one: once
/// `n` clips have been seen, the next is tried, unless one of them is clean, and 32 at most.
pub proof fn law_the_earliest_clean_keyframe_is_found(
    clips: Seq<Clip>,
    seen: &[Clip],
    first: int,
    r: SearchStep,
)
    requires
        0 < clips.len() <= usize::MAX,
        seen@.len() <= clips.len(),
        seen@.len() <= 32,
        seen@ == clips.take(seen@.len() as int),
        0 <= first <= clips.len(),
        forall|i: int| 0 <= i < first ==> !#[trigger] clean_at(clips, i),
        first < clips.len() ==> clean_at(clips, first),
        call_ensures(first_clean_keyframe, (clips.len() as usize, seen), r),
    ensures
        first < seen@.len() ==> r == (SearchStep::Found { keyframe: first as usize }),
        seen@.len() <= first && seen@.len() < clips.len() && seen@.len() < 32 ==> r == (
        SearchStep::Try { keyframe: seen@.len() as usize }),
        first == clips.len() && (seen@.len() == clips.len() || seen@.len() == 32) ==> r
            == SearchStep::GaveUp,
        seen@.len() == 32 && first >= 32 ==> r == SearchStep::GaveUp,
{
    assert forall|i: int| 0 <= i < seen@.len() implies seen@[i] == clips[i] by {
        assert(clips.take(seen@.len() as int)[i] == clips[i]);
    }
    match r {
        SearchStep::Found { keyframe } => {
            assert(clean_at(clips, keyframe as int));
            if first < keyframe {
                assert(clean_at(clips, first));
                assert(crate::rescue::clean(seen@[first]));
            }
        },
        _ => {
            if first < seen@.len() {
                assert(clean_at(clips, first));
                assert(crate::rescue::clean(seen@[first]));
            }
        },
    }
}

/// A file without keyframes is not searched.
pub proof fn law_no_keyframes_no_search(seen: &[Clip], r: SearchStep)
    requires
        call_ensures(first_clean_keyframe, (0usize, seen), r),
    ensures
        r == SearchStep::NoKeyframes,
{
}

// ---------------------------------------------------------------------------
// Matroska
// ---------------------------------------------------------------------------

/// A file that opens as Matroska does is not beheaded; one that is has clusters that tell of
/// tracks, the first of them at the first cluster.
pub proof fn law_only_headless_files_are_beheaded(data: &[u8], r: Option<Route>)
    requires
        call_ensures(route, (data,), r),
    ensures
        ({
            let d = data@;
            let headed = d.len() >= 4 && d[0] == 0x1a && d[1] == 0x45 && d[2] == 0xdf && d[3] == 0xa3;
            &&& headed ==> !(r matches Some(Route::Beheaded(_)))
            &&& r matches Some(Route::Beheaded(h)) ==> {
                &&& first_cluster_from(d, 0) == Some(h.first_cluster as int)
                &&& exists|n: u64| #[trigger] evidence(d, h.first_cluster as int).contains_key(n)
            }
            &&& r matches Some(Route::Headerless) ==> headed || first_cluster_from(d, 0) is None
                || forall|n: u64| !#[trigger] evidence(
                d,
                first_cluster_from(d, 0).unwrap(),
            ).contains_key(n)
            &&& r is None ==> !crate::mp4::analyzable(d)
        }),
{
    let d = data@;
    let ebml = crate::forensics::EBML@;
    assert(ebml =~= seq![0x1au8, 0x45, 0xdf, 0xa3]);
    if d.len() >= 4 && d[0] == 0x1a && d[1] == 0x45 && d[2] == 0xdf && d[3] == 0xa3 {
        assert(d.subrange(0, 4) =~= ebml);
    }
    if crate::bytes::stands_at(d, 0, ebml) {
        assert(d.subrange(0, 4)[0] == d[0] && d.subrange(0, 4)[1] == d[1]);
        assert(d.subrange(0, 4)[2] == d[2] && d.subrange(0, 4)[3] == d[3]);
    }
    if let Some(first) = first_cluster_from(d, 0) {
        let m = evidence(d, first);
        if !m.dom().is_empty() {
            assert(exists|n: u64| m.dom().contains(n)) by {
                if forall|n: u64| !m.dom().contains(n) {
                    assert(m.dom() =~= Set::empty());
                }
            }
            let n = choose|n: u64| m.dom().contains(n);
            assert(m.contains_key(n));
        } else {
            assert forall|n: u64| !#[trigger] m.contains_key(n) by {
                assert(!m.dom().contains(n));
            }
        }
    }
}

/// A file gets its head before the cluster that playback starts with, and every byte from there
/// on stays: from the first cluster where all is to be kept, or where none is led by a keyframe;
/// else from the one that is.
pub proof fn law_a_new_head_keeps_the_clusters(
    data: &[u8],
    h: &Heavy,
    no_clip: bool,
    r: Result<Rehead, DonorNeeded>,
)
    requires
        rehead_ready(data@, *h),
        300 * h.tracks@.len() < crate::ebml::VINT_LIMIT,
        call_ensures(rehead, (data, h, no_clip), r),
    ensures
        r matches Ok(x) ==> {
            &&& no_clip || h.first_keyframe_cluster is None ==> x.start_offset == h.first_cluster
            &&& !no_clip && h.first_keyframe_cluster is Some ==> x.start_offset
                == h.first_keyframe_cluster->0
            &&& x.head_len + (data@.len() - x.start_offset) == x.bytes@.len()
            &&& x.bytes@.skip(x.head_len as int) == data@.skip(x.start_offset as int)
            &&& x.start == Start::Kept <==> no_clip
            &&& x.start == Start::MidGop <==> !no_clip && h.first_keyframe_cluster is None
            &&& x.start == Start::Skipped ==> x.start_offset > h.first_cluster
            &&& x.start == Start::Clean ==> x.start_offset <= h.first_cluster
        },
{
    if let Ok(x) = r {
        assert(x.bytes@.skip(x.head_len as int) =~= data@.skip(x.start_offset as int));
    }
}

/// A donor is timed anew by what is asked for, and is left alone in all else.
pub proof fn law_only_the_rate_is_changed(
    donor: Donor,
    fps: Option<(u32, u32)>,
    r: (Donor, bool),
)
    requires
        call_ensures(retime, (donor, fps), r),
    ensures
        r.0.audio == donor.audio,
        r.1 <==> donor.video is Some && fps is Some,
        !r.1 ==> r.0.video == donor.video,
        r.1 ==> (r.0.video matches Some(v) && fps == Some((v.timescale, v.sample_delta)) && v.stsd
            == donor.video->0.stsd && v.tkhd == donor.video->0.tkhd && v.max_sample
            == donor.video->0.max_sample && v.has_ctts == donor.video->0.has_ctts && v.sps
            == donor.video->0.sps && v.codec == donor.video->0.codec),
{
}

/// What decodes is clean, and errors are let pass only where a damaged start was asked for.
pub proof fn law_errors_are_let_pass_only_on_request(errors: usize, no_clip: bool, r: Verdict)
    requires
        call_ensures(judge_rehead, (errors, no_clip), r),
    ensures
        r == Verdict::Clean <==> errors == 0,
        r == Verdict::Expected ==> no_clip,
        r == Verdict::Rejected ==> !no_clip,
{
}

/// What decodes is never searched; it is converted on request only.
pub proof fn law_clean_files_are_not_searched(errors: usize, correct_format: bool, r: IntactStep)
    requires
        call_ensures(intact_step, (errors, correct_format), r),
    ensures
        r == IntactStep::Search <==> errors > 0,
        r == IntactStep::Convert ==> correct_format,
        r == IntactStep::Leave ==> !correct_format,
{
}

/// A rescued file is removed only where it was converted and was not to be kept; it is what is
/// converted where there is one; and only what comes of it is tagged, by whether it has video.
pub proof fn law_a_rescued_file_is_not_lost(
    correct_format: bool,
    rescued: bool,
    keep: bool,
    video: bool,
    source: FinishSource,
    dropped: bool,
    ext: Option<&'static str>,
)
    requires
        call_ensures(finish_source, (correct_format, rescued), source),
        call_ensures(drop_rescued, (source, keep), dropped),
        call_ensures(converted_extension, (source, video), ext),
    ensures
        dropped <==> correct_format && rescued && !keep,
        source == FinishSource::Nothing <==> !correct_format,
        source == FinishSource::Input ==> !rescued,
        ext is Some <==> correct_format && rescued,
        ext matches Some(e) ==> e@ == if video {
            "correct.mp4"@
        } else {
            "correct.mp3"@
        },
{
}

// ---------------------------------------------------------------------------
// Conversion
// ---------------------------------------------------------------------------

/// A stream that is video is of that type, with a width; cover art does not move.
pub proof fn law_cover_art_does_not_move(s: Stream)
    ensures
        s.moving() ==> s.codec_type is Some && s.codec_type->0@ == "video"@ && s.width is Some,
        s.width matches Some(w) && w == 0 ==> !s.moving() && !s.pictured(),
        s.codec_name matches Some(n) && (n@ == "mjpeg"@ || n@ == "png"@) ==> !s.moving(),
        s.codec_type is Some && s.codec_type->0@ == "video"@ && s.width is Some && s.width->0 > 0
            ==> s.pictured() && (s.codec_name is None || s.codec_name->0@ != "mjpeg"@
            && s.codec_name->0@ != "png"@ ==> s.moving()),
{
}

/// Nothing is converted without consent, nor what cannot be probed or has nothing to play; and
/// what has a moving picture becomes video.
pub proof fn law_only_what_plays_is_converted(consent: bool, p: Option<&Probe>, r: Conversion)
    requires
        call_ensures(plan_conversion, (consent, p), r),
    ensures
        !consent <==> r == Conversion::Refused,
        r == Conversion::Unprobeable <==> consent && p is None,
        r matches Conversion::To { video } ==> consent && p is Some && (video <==> exists|i: int|
            0 <= i < p->0.streams@.len() && (#[trigger] p->0.streams@[i]).moving()),
        p matches Some(q) && (exists|i: int|
            0 <= i < q.streams@.len() && crate::ffx::reads(
                (#[trigger] q.streams@[i]).codec_type,
                "audio"@,
            )) ==> r != Conversion::Nothing,
{
}

/// What lists no streams was not made sense of.
pub proof fn law_no_streams_no_probe(p: Option<Probe>, r: Option<Probe>)
    requires
        call_ensures(probe, (p,), r),
    ensures
        r is Some <==> p is Some && p->0.streams@.len() > 0,
        r is Some ==> r == p,
{
}

// ---------------------------------------------------------------------------
// Guesses
// ---------------------------------------------------------------------------

/// A decode without frames never counts as clean and scores nothing; one with frames counts the
/// errors that it had, and scores what its frames did.
pub proof fn law_no_frames_no_credit(
    frames: usize,
    errors: usize,
    score: Option<u64>,
    r: (usize, u64),
)
    requires
        call_ensures(judgment, (frames, errors, score), r),
    ensures
        r.0 == 0 ==> frames > 0 && errors == 0,
        errors > 0 || frames > 0 ==> r.0 == errors,
        r.0 <= errors + 1,
        frames == 0 ==> r.1 == 0,
        frames > 0 && score is Some ==> r.1 == score->0,
        frames > 0 && score is None ==> r.1 == 0x3fdc_cccc_cccc_cccd,
{
}

/// A winner that decodes without errors is one; another is where it scores four tenths.
pub proof fn law_a_clean_winner_wins(c: &Candidate, r: bool)
    requires
        call_ensures(produced_a_picture, (c,), r),
    ensures
        c.errors == 0 ==> r,
        c.errors > 0 ==> (r <==> c.gestalt >= 0x3fd9_9999_9999_999a),
{
}

/// The widths on the short list stand at the head of the order, each near the best: two, unless
/// there are fewer or one that is not near comes before.
pub proof fn law_the_short_list_is_of_two(order: &[usize], near: &[bool], r: Vec<u64>)
    requires
        order@.len() == near@.len(),
        call_ensures(shortlist, (order, near), r),
    ensures
        r@.len() == if order@.len() == 0 || !near@[0] {
            0nat
        } else if order@.len() == 1 || !near@[1] {
            1
        } else {
            2
        },
        r@.len() > 0 ==> r@[0] == order@[0],
        r@.len() > 1 ==> r@[1] == order@[1],
{
    if r@.len() > 0 {
        assert(r@[0] == order@[0] && near@[0]);
    }
    if r@.len() > 1 {
        assert(r@[1] == order@[1] && near@[1]);
    }
}

/// A candidate is heard where it has no more than two errors over the best and an SPS that
/// parses: at that SPS's own width.
pub proof fn law_close_candidates_are_heard(c: Candidate, best: int, media: Seq<u8>)
    ensures
        c.errors - best > 2 ==> testimony(c, best, media) is None,
        c.errors - best <= 2 ==> (testimony(c, best, media) is Some <==> crate::h264::sps_of(
            c.sps@,
        ) is Some),
        testimony(c, best, media) matches Some(t) ==> t == crate::divine::long_count(
            media,
            crate::h264::sps_of(c.sps@)->0.log2_max_frame_num as nat,
        ),
{
}

} // verus!
