//! The rescue pipeline's decisions: diagnose, reconstruct, validate, clip.
//!
//! Two philosophies, used where each applies:
//!  - **surgical** (head-truncated MP4s): the surviving moov index tells us exactly
//!    what was lost and where the first clean keyframe is. No guessing.
//!  - **empirical** (self-synchronizing streams, artifacted files): trim to
//!    the first verifiable sync structure and let the decoder vote.
//!
//! Files, probes and decoders are the caller's; what they report comes in as plain
//! values, and what is to be done next comes out.
use crate::bytes::{matches_at, stands_at};
use crate::ebml::VINT_LIMIT;
use crate::forensics::{
    all_found, law_findings_are_sensible, surest_first, Finding, Found, EBML, EVEN,
};
use crate::matroska::{
    all_webm_legal, doctype_of, evidence, first_cluster_from, first_needing_donor, head_bytes,
    heavy_of, names_donor_track, reconstruct, resolved, shapes_of, webm_legal, DonorNeeded, Heavy,
};
use crate::mp4::{analyzable, diagnosis, try_analyze, Analysis, Diagnosis, HeadTruncation};
use crate::text::{begins_with, decimal, push_decimal};
use crate::transplant::{Donor, Transplant};
use vstd::prelude::*;
use vstd::string::*;

verus! {

/// What the user asked for.
#[derive(Debug)]
pub struct Options {
    pub correct_format: bool,
    /// Keep damaged leading frames instead of clipping to a clean keyframe.
    pub no_clip: bool,
    /// Keep intermediate reconstruction files for inspection.
    pub keep_temp: bool,
    /// An intact sibling file from the same device: the organ donor for a
    /// moov transplant when the casualty's index is gone entirely.
    pub reference: Option<String>,
    /// Override the video frame rate, as ticks per second and per frame. A
    /// paramset-less stream carries no timing of its own, so the donor's rate is a
    /// guess; this lets you set the truth without re-divining.
    pub fps: Option<(u32, u32)>,
    /// Attempt to salvage raw AAC audio from the interleave gaps.
    pub audio: bool,
    /// Sample rate to assume for salvaged AAC.
    pub audio_rate: u32,
}

/// The default name of what a rescue writes.
pub fn default_name(stem: &str, tag: &str, ext: &str) -> (r: String)
    ensures
        r@ == stem@ + "."@ + tag@ + "."@ + ext@,
{
    let mut s = String::from_str(stem);
    s.append(".");
    s.append(tag);
    s.append(".");
    s.append(ext);
    s
}

// ---------------------------------------------------------------------------
// Diagnosis
// ---------------------------------------------------------------------------

/// Which way a casualty is treated.
#[derive(Debug)]
pub enum Route {
    /// The front is gone, the index survived.
    Truncated(HeadTruncation),
    /// The container's structure is intact.
    Intact,
    /// Only Matroska clusters survived.
    Beheaded(Heavy),
    /// Intact Matroska, or no structure: the data is probed, trimmed or transplanted.
    Headerless,
}

/// Only clusters survived of a Matroska file, and blocks are in them.
pub open spec fn beheaded(d: Seq<u8>) -> bool {
    !stands_at(d, 0, EBML@) && match first_cluster_from(d, 0) {
        Some(first) => !evidence(d, first).dom().is_empty(),
        None => false,
    }
}

/// Decides which way a casualty is treated. `None` if its index speaks of what the file
/// does not hold.
pub fn route(data: &[u8]) -> (r: Option<Route>)
    ensures
        match r {
            None => !analyzable(data@),
            Some(Route::Truncated(b)) => analyzable(data@) && diagnosis(data@) == Some(
                Diagnosis::HeadTruncated(b@),
            ),
            Some(Route::Intact) => diagnosis(data@) == Some(Diagnosis::Intact),
            Some(Route::Beheaded(h)) => diagnosis(data@) == Some(Diagnosis::NoMoov) && beheaded(data@)
                && heavy_of(data@, h) && rehead_ready(data@, h),
            Some(Route::Headerless) => diagnosis(data@) == Some(Diagnosis::NoMoov) && !beheaded(
                data@,
            ),
        },
{
    match try_analyze(data) {
        None => None,
        Some(Analysis::HeadTruncated(b)) => Some(Route::Truncated(b)),
        Some(Analysis::Intact) => Some(Route::Intact),
        Some(Analysis::NoMoov) => match crate::matroska::analyze(data) {
            crate::matroska::Analysis::Heavy(h) => {
                proof {
                    let shapes = shapes_of(h.tracks@);
                    let samples = evidence(data@, h.first_cluster as int);
                    assert(samples.contains_key(shapes[0].number as u64));
                    assert(samples.dom().contains(shapes[0].number as u64));
                }
                Some(Route::Beheaded(h))
            },
            _ => Some(Route::Headerless),
        },
    }
}

// ---------------------------------------------------------------------------
// Surgical: head-truncated MP4 with surviving index
// ---------------------------------------------------------------------------

/// What follows the regrowth of a prefix.
#[derive(Debug, Clone, Copy, PartialEq, Eq, Structural)]
pub enum TruncatedStep {
    /// Remux; damaged leading frames are kept where there are any.
    Remux { damage_kept: bool },
    /// Clip to the first clean keyframe that the index knows of.
    Clip,
    /// No intact keyframe survives.
    NothingClippable,
}

/// Decides what follows the regrowth of a prefix.
pub fn after_regrowth(b: &HeadTruncation, no_clip: bool) -> (r: TruncatedStep)
    ensures
        r == if b.media_bytes_lost == 0 || no_clip {
            TruncatedStep::Remux { damage_kept: b.media_bytes_lost > 0 }
        } else if b.first_clean_keyframe_time is Some {
            TruncatedStep::Clip
        } else {
            TruncatedStep::NothingClippable
        },
{
    if b.media_bytes_lost == 0 || no_clip {
        TruncatedStep::Remux { damage_kept: b.media_bytes_lost > 0 }
    } else {
        match b.first_clean_keyframe_time {
            Some(_) => TruncatedStep::Clip,
            None => TruncatedStep::NothingClippable,
        }
    }
}

// ---------------------------------------------------------------------------
// Reconstructive: heavily-beheaded Matroska/WebM (only clusters survive)
// ---------------------------------------------------------------------------

/// Where playback starts.
#[derive(Debug, Clone, Copy, PartialEq, Eq, Structural)]
pub enum Start {
    /// At the first surviving cluster, on request.
    Kept,
    /// At the first surviving cluster, for want of one led by a keyframe.
    MidGop,
    /// At a cluster led by a keyframe, behind the first.
    Skipped,
    /// At the first cluster, which is led by a keyframe.
    Clean,
}

/// A re-headed file.
#[derive(Debug)]
pub struct Rehead {
    pub bytes: Vec<u8>,
    pub start_offset: usize,
    pub start: Start,
    pub head_len: usize,
    pub webm: bool,
}

/// The playback start at the container level: the first cluster led by
/// a true keyframe gives clean playback from frame one. On request everything from the
/// first surviving cluster is kept instead.
pub open spec fn start_of(h: Heavy, no_clip: bool) -> usize {
    match h.first_keyframe_cluster {
        Some(k) if !no_clip => k,
        _ => h.first_cluster,
    }
}

/// What there is to say of the playback start.
pub open spec fn start_kind(h: Heavy, no_clip: bool) -> Start {
    if no_clip {
        Start::Kept
    } else if h.first_keyframe_cluster is None {
        Start::MidGop
    } else if start_of(h, no_clip) > h.first_cluster {
        Start::Skipped
    } else {
        Start::Clean
    }
}

/// The clusters that a diagnosis speaks of lie in the data, and every track's codec is
/// known or says that it is not.
pub open spec fn rehead_ready(d: Seq<u8>, h: Heavy) -> bool {
    &&& resolved(shapes_of(h.tracks@))
    &&& h.first_cluster <= d.len()
    &&& h.bytes_lost <= d.len()
    &&& h.bytes_lost == start_of(h, false)
}

/// Synthesizes a head for the surviving clusters. Errs, and writes nothing, where a
/// track keeps its parameters in the lost header.
pub fn rehead(data: &[u8], h: &Heavy, no_clip: bool) -> (r: Result<Rehead, DonorNeeded>)
    requires
        rehead_ready(data@, *h),
        300 * h.tracks@.len() < VINT_LIMIT,
    ensures
        match r {
            Ok(x) => first_needing_donor(shapes_of(h.tracks@), 0) is None && ({
                let shapes = shapes_of(h.tracks@);
                let head = head_bytes(shapes, doctype_of(shapes));
                &&& x.start_offset == start_of(*h, no_clip)
                &&& x.start == start_kind(*h, no_clip)
                &&& x.bytes@ == head + data@.skip(x.start_offset as int)
                &&& x.head_len == head.len()
                &&& x.webm == webm_legal(shapes)
            }),
            Err(e) => names_donor_track(e, shapes_of(h.tracks@)),
        },
{
    let (start_offset, start) = match h.first_keyframe_cluster {
        _ if no_clip => (h.first_cluster, Start::Kept),
        None => (h.first_cluster, Start::MidGop),
        Some(k) => (
            k,
            if k > h.first_cluster {
                Start::Skipped
            } else {
                Start::Clean
            },
        ),
    };
    match reconstruct(data, h, start_offset) {
        Err(e) => Err(e),
        Ok(bytes) => {
            assert(bytes.len() <= usize::MAX);
            let head_len: usize = bytes.len() - (data.len() - start_offset);
            Ok(Rehead { bytes, start_offset, start, head_len, webm: all_webm_legal(&h.tracks) })
        },
    }
}

/// Why a track cannot be re-headed, in words.
pub fn donor_needed_message(e: &DonorNeeded) -> (r: String)
    ensures
        r@ == "track "@ + decimal(e.track as nat) + " ("@ + e.hint@
            + ") keeps its parameters in the lost header, which basinski can't synthesize from the frames alone. This version re-heads VP9 video + Opus audio only; donor-based Matroska transplant for other codecs is planned but not yet available."@,
{
    let mut s = String::from_str("track ");
    push_decimal(&mut s, e.track);
    s.append(" (");
    s.append(e.hint);
    s.append(
        ") keeps its parameters in the lost header, which basinski can't synthesize from the frames alone. This version re-heads VP9 video + Opus audio only; donor-based Matroska transplant for other codecs is planned but not yet available.",
    );
    s
}

/// What a decode says of a re-headed file.
#[derive(Debug, Clone, Copy, PartialEq, Eq, Structural)]
pub enum Verdict {
    Clean,
    /// Errors, as a start mid-GOP has them.
    Expected,
    /// Errors where there should be none: the file is not handed back.
    Rejected,
}

/// Judges a re-headed file. A clean keyframe-led start should decode cleanly; errors
/// mean that the reconstruction is wrong.
pub fn judge_rehead(errors: usize, no_clip: bool) -> (r: Verdict)
    ensures
        r == if errors == 0 {
            Verdict::Clean
        } else if no_clip {
            Verdict::Expected
        } else {
            Verdict::Rejected
        },
{
    if errors == 0 {
        Verdict::Clean
    } else if no_clip {
        Verdict::Expected
    } else {
        Verdict::Rejected
    }
}

// ---------------------------------------------------------------------------
// Intact container: maybe artifacted, maybe just fine
// ---------------------------------------------------------------------------

/// What is done with a file whose structure is intact.
#[derive(Debug, Clone, Copy, PartialEq, Eq, Structural)]
pub enum IntactStep {
    /// It decodes cleanly, and is converted on request.
    Convert,
    /// It decodes cleanly: nothing to rescue.
    Leave,
    /// It does not: search for the first clean keyframe.
    Search,
}

/// Decides what is done with a file whose structure is intact.
pub fn intact_step(errors: usize, correct_format: bool) -> (r: IntactStep)
    ensures
        r == if errors > 0 {
            IntactStep::Search
        } else if correct_format {
            IntactStep::Convert
        } else {
            IntactStep::Leave
        },
{
    if errors > 0 {
        IntactStep::Search
    } else if correct_format {
        IntactStep::Convert
    } else {
        IntactStep::Leave
    }
}

/// How a clip from a keyframe turned out.
#[derive(Debug, Clone, Copy, PartialEq, Eq, Structural)]
pub enum Clip {
    /// It could not be made.
    Failed,
    /// It decodes with this many error lines.
    Decoded { errors: usize },
}

/// What the search for the first clean keyframe does next.
#[derive(Debug, Clone, Copy, PartialEq, Eq, Structural)]
pub enum SearchStep {
    /// There are no keyframes at all.
    NoKeyframes,
    /// Clip from this keyframe, and see.
    Try { keyframe: usize },
    /// This keyframe yields a clean decode.
    Found { keyframe: usize },
    /// No keyframe in the first 32 yields a clean decode.
    GaveUp,
}

/// A clip decodes without errors.
pub open spec fn clean(c: Clip) -> bool {
    c == (Clip::Decoded { errors: 0 })
}

/// How many keyframes are tried at most.
pub const SEARCH_LIMIT: usize = 32;

/// The next step of the search for the earliest keyframe from which a file decodes
/// clean, by the number of keyframes and how the clips from the first of them turned
/// out.
pub fn first_clean_keyframe(keyframes: usize, clips: &[Clip]) -> (r: SearchStep)
    ensures
        match r {
            SearchStep::NoKeyframes => keyframes == 0,
            SearchStep::Found { keyframe } => keyframes > 0 && keyframe < clips@.len() && clean(
                clips@[keyframe as int],
            ) && forall|i: int| 0 <= i < keyframe ==> !clean(#[trigger] clips@[i]),
            SearchStep::Try { keyframe } => keyframe == clips@.len() && keyframe < keyframes && keyframe
                < SEARCH_LIMIT && forall|i: int| 0 <= i < clips@.len() ==> !clean(#[trigger] clips@[i]),
            SearchStep::GaveUp => keyframes > 0 && (clips@.len() >= keyframes || clips@.len()
                >= SEARCH_LIMIT) && forall|i: int|
                0 <= i < clips@.len() ==> !clean(#[trigger] clips@[i]),
        },
{
    if keyframes == 0 {
        return SearchStep::NoKeyframes;
    }
    let mut i: usize = 0;
    while i < clips.len()
        invariant
            keyframes > 0,
            i <= clips@.len(),
            forall|j: int| 0 <= j < i ==> !clean(#[trigger] clips@[j]),
        decreases clips.len() - i,
    {
        match clips[i] {
            Clip::Decoded { errors: 0 } => {
                return SearchStep::Found { keyframe: i };
            },
            _ => {},
        }
        i += 1;
    }
    if i < keyframes && i < SEARCH_LIMIT {
        SearchStep::Try { keyframe: i }
    } else {
        SearchStep::GaveUp
    }
}

// ---------------------------------------------------------------------------
// Empirical: headerless self-synchronizing streams (MP3, ADTS, MPEG-TS, H.264)
// ---------------------------------------------------------------------------

/// What is done with a file that has no MP4 index and is no beheaded Matroska.
#[derive(Debug)]
pub enum HeaderlessPlan {
    /// Healthy as it is, and no MP4: nothing to rescue.
    Leave,
    /// Healthy as it is, and converted on request.
    Convert { video: bool },
    /// The user brought a donor: they know this is an MP4 body.
    Transplant,
    /// Trim to the first sync and remux: by extension, what the trimmed stream is and
    /// what it becomes.
    Trim { offset: u64, trim_ext: &'static str, container_ext: &'static str },
}

/// Why nothing can be done with it.
#[derive(Debug)]
pub enum HeaderlessError {
    /// A donor for an MP4 does not help a Matroska file.
    MatroskaReference,
    /// Nothing was found, or nothing likely.
    NoStructure,
    /// The body of an MP4, which takes a donor.
    Mp4Body,
    /// A format that cannot be re-headed.
    Unknown { kind: String },
}

/// What is done with a headerless file, or why nothing is.
pub enum Treatment {
    Leave,
    Convert { video: bool },
    Transplant,
    Trim { offset: int, trim_ext: Seq<char>, container_ext: Seq<char> },
    MatroskaReference,
    NoStructure,
    Mp4Body,
    Unknown { kind: Seq<char> },
}

/// A plan, or why there is none, as a treatment.
pub open spec fn treatment_of(r: Result<HeaderlessPlan, HeaderlessError>) -> Treatment {
    match r {
        Ok(HeaderlessPlan::Leave) => Treatment::Leave,
        Ok(HeaderlessPlan::Convert { video }) => Treatment::Convert { video },
        Ok(HeaderlessPlan::Transplant) => Treatment::Transplant,
        Ok(HeaderlessPlan::Trim { offset, trim_ext, container_ext }) => Treatment::Trim {
            offset: offset as int,
            trim_ext: trim_ext@,
            container_ext: container_ext@,
        },
        Err(HeaderlessError::MatroskaReference) => Treatment::MatroskaReference,
        Err(HeaderlessError::NoStructure) => Treatment::NoStructure,
        Err(HeaderlessError::Mp4Body) => Treatment::Mp4Body,
        Err(HeaderlessError::Unknown { kind }) => Treatment::Unknown { kind: kind@ },
    }
}

/// The confidence that nothing exceeds: infinity.
pub const ENDLESS: u64 = 0x7ff0_0000_0000_0000;

/// A confidence is one half or more.
pub open spec fn likely(confidence: u64) -> bool {
    EVEN <= confidence <= ENDLESS
}

/// What a finding asks for, by its kind.
pub open spec fn treatment_for(f: Found) -> Treatment {
    if "MP3 audio"@.is_prefix_of(f.kind) {
        Treatment::Trim { offset: f.offset, trim_ext: "mp3"@, container_ext: "mp3"@ }
    } else if "AAC audio in ADTS"@.is_prefix_of(f.kind) {
        Treatment::Trim { offset: f.offset, trim_ext: "aac"@, container_ext: "aac"@ }
    } else if "MPEG transport stream"@.is_prefix_of(f.kind) {
        Treatment::Trim { offset: f.offset, trim_ext: "ts"@, container_ext: "mp4"@ }
    } else if "H.264 elementary stream"@.is_prefix_of(f.kind) {
        Treatment::Trim { offset: f.offset, trim_ext: "h264"@, container_ext: "mp4"@ }
    } else if "H.264 in MP4 framing"@.is_prefix_of(f.kind) {
        Treatment::Mp4Body
    } else {
        Treatment::Unknown { kind: f.kind }
    }
}

/// What is done with a headerless file: left or converted if it is healthy (`healthy`
/// says so, and whether it has video), else transplanted if there is a donor, else
/// treated by what was found first.
pub open spec fn headerless_treatment(
    d: Seq<u8>,
    findings: Seq<Found>,
    healthy: Option<bool>,
    correct_format: bool,
    donor: bool,
) -> Treatment {
    match healthy {
        Some(video) => if correct_format {
            Treatment::Convert { video }
        } else {
            Treatment::Leave
        },
        None => if donor {
            if stands_at(d, 0, EBML@) {
                Treatment::MatroskaReference
            } else {
                Treatment::Transplant
            }
        } else if findings.len() == 0 || !likely(findings[0].confidence) {
            Treatment::NoStructure
        } else {
            treatment_for(findings[0])
        },
    }
}

fn trim(offset: u64, trim_ext: &'static str, container_ext: &'static str) -> (r: Result<
    HeaderlessPlan,
    HeaderlessError,
>)
    ensures
        treatment_of(r) == (Treatment::Trim {
            offset: offset as int,
            trim_ext: trim_ext@,
            container_ext: container_ext@,
        }),
{
    Ok(HeaderlessPlan::Trim { offset, trim_ext, container_ext })
}

/// Decides what is done with a file that has no MP4 index and is no beheaded Matroska.
/// `healthy` is there if the file can be probed and decodes without errors, and says
/// whether it has video.
pub fn headerless_plan(
    data: &[u8],
    findings: &[Finding],
    healthy: Option<bool>,
    opts: &Options,
) -> (r: Result<HeaderlessPlan, HeaderlessError>)
    ensures
        treatment_of(r) == headerless_treatment(
            data@,
            crate::forensics::found(findings@),
            healthy,
            opts.correct_format,
            opts.reference is Some,
        ),
{
    if let Some(video) = healthy {
        return if opts.correct_format {
            Ok(HeaderlessPlan::Convert { video })
        } else {
            Ok(HeaderlessPlan::Leave)
        };
    }
    if opts.reference.is_some() {
        return if matches_at(data, 0, &EBML) {
            Err(HeaderlessError::MatroskaReference)
        } else {
            Ok(HeaderlessPlan::Transplant)
        };
    }
    if findings.len() == 0 {
        return Err(HeaderlessError::NoStructure);
    }
    let best = &findings[0];
    assert(crate::forensics::found(findings@)[0] == best@);
    if best.confidence < EVEN || best.confidence > ENDLESS {
        return Err(HeaderlessError::NoStructure);
    }
    let kind = best.kind.as_str();
    if begins_with(kind, "MP3 audio") {
        trim(best.offset, "mp3", "mp3")
    } else if begins_with(kind, "AAC audio in ADTS") {
        trim(best.offset, "aac", "aac")
    } else if begins_with(kind, "MPEG transport stream") {
        trim(best.offset, "ts", "mp4")
    } else if begins_with(kind, "H.264 elementary stream") {
        trim(best.offset, "h264", "mp4")
    } else if begins_with(kind, "H.264 in MP4 framing") {
        Err(HeaderlessError::Mp4Body)
    } else {
        Err(HeaderlessError::Unknown { kind: String::from_str(kind) })
    }
}

impl HeaderlessError {
    /// The error in words.
    pub open spec fn words(&self) -> Seq<char> {
        match self {
            HeaderlessError::MatroskaReference =>
                "this is a Matroska/WebM file; the MP4 moov transplant doesn't apply here, and donor-based Matroska transplant is not yet implemented."@,
            HeaderlessError::NoStructure =>
                "no usable structure found: no MP4 index, no recognizable stream sync.\nIf this is the body of an MP4 (mdat only), pass --reference <an intact\nfile from the same device> and basinski will attempt a moov transplant."@,
            HeaderlessError::Mp4Body =>
                "this is the body of an MP4 — length-prefixed H.264 with no index.\nPass --reference <an intact file from the same device> and basinski\nwill attempt a moov transplant."@,
            HeaderlessError::Unknown { kind } => "identified as `"@ + kind@
                + "` but basinski does not know how to re-head that format yet"@,
        }
    }

    /// The error in words.
    pub fn message(&self) -> (r: String)
        ensures
            r@ == self.words(),
    {
        match self {
            HeaderlessError::MatroskaReference => String::from_str(
                "this is a Matroska/WebM file; the MP4 moov transplant doesn't apply here, and donor-based Matroska transplant is not yet implemented.",
            ),
            HeaderlessError::NoStructure => String::from_str(
                "no usable structure found: no MP4 index, no recognizable stream sync.\nIf this is the body of an MP4 (mdat only), pass --reference <an intact\nfile from the same device> and basinski will attempt a moov transplant.",
            ),
            HeaderlessError::Mp4Body => String::from_str(
                "this is the body of an MP4 — length-prefixed H.264 with no index.\nPass --reference <an intact file from the same device> and basinski\nwill attempt a moov transplant.",
            ),
            HeaderlessError::Unknown { kind } => {
                let mut s = String::from_str("identified as `");
                s.append(kind.as_str());
                s.append("` but basinski does not know how to re-head that format yet");
                s
            },
        }
    }
}

// ---------------------------------------------------------------------------
// Surgical, with a donor: the moov transplant
// ---------------------------------------------------------------------------

/// Re-times a donor to a requested rate. The donor only supplied a guess; the
/// user knows whether it was overcranked. Says whether there was anything to re-time.
pub fn retime(donor: Donor, fps: Option<(u32, u32)>) -> (r: (Donor, bool))
    ensures
        r.0.audio == donor.audio,
        match (donor.video, fps) {
            (Some(v), Some((timescale, delta))) => r.1 && r.0.video == Some(
                crate::transplant::DonorVideo { timescale, sample_delta: delta, ..v },
            ),
            _ => !r.1 && r.0.video == donor.video,
        },
{
    match (donor.video, fps) {
        (Some(v), Some((timescale, delta))) => {
            let video = crate::transplant::DonorVideo { timescale, sample_delta: delta, ..v };
            (Donor { video: Some(video), audio: donor.audio }, true)
        },
        (video, _) => (Donor { video, audio: donor.audio }, false),
    }
}

/// The sample rate at which audio is salvaged, if it is.
pub fn salvage_rate(opts: &Options) -> (r: Option<u32>)
    ensures
        r == if opts.audio {
            Some(opts.audio_rate)
        } else {
            None
        },
{
    if opts.audio {
        Some(opts.audio_rate)
    } else {
        None
    }
}

/// Milliseconds as seconds, with three decimals.
pub open spec fn seconds(ms: nat) -> Seq<char> {
    decimal(ms / 1000) + "."@ + decimal((ms / 100) % 10) + decimal((ms / 10) % 10) + decimal(ms % 10)
        + "s"@
}

fn push_seconds(s: &mut String, ms: u64)
    ensures
        final(s)@ == old(s)@ + seconds(ms as nat),
{
    push_decimal(s, ms / 1000);
    s.append(".");
    push_decimal(s, (ms / 100) % 10);
    push_decimal(s, (ms / 10) % 10);
    push_decimal(s, ms % 10);
    s.append("s");
    assert(s@ =~= old(s)@ + seconds(ms as nat));
}

/// A line, if there is anything to say.
pub open spec fn line_if(said: bool, line: Seq<char>) -> Seq<Seq<char>> {
    if said {
        seq![line]
    } else {
        seq![]
    }
}

/// What a transplant recovered, line by line.
pub open spec fn report_of(t: Transplant, reorders: bool, audio_rate: u32) -> Seq<Seq<char>> {
    seq![
        "    video samples recovered : "@ + decimal(t.video_samples as nat) + " ("@ + decimal(
            t.sync_samples as nat,
        ) + " keyframes)"@,
    ] + line_if(
        reorders,
        if t.ctts_recovered {
            "    B-frame timing          : recovered from slice POCs (ctts regrown)"@
        } else {
            "    (donor reorders B-frames but their timing resisted recovery — expect slight judder, not damage)"@
        },
    ) + line_if(
        t.dropped_leading > 0,
        "    dropped pre-keyframe    : "@ + decimal(t.dropped_leading as nat)
            + " samples (undecodable without their IDR)"@,
    ) + line_if(
        t.audio_samples > 0,
        "    audio samples recovered : "@ + decimal(t.audio_samples as nat),
    ) + line_if(
        t.aac_chunks > 0,
        "    audio recovered         : "@ + decimal(t.aac_chunks as nat)
            + " AAC chunks from the interleave gaps @ "@ + decimal(audio_rate as nat) + " Hz"@ + (
        if t.aac_skipped > 0 {
            " ("@ + decimal(t.aac_skipped as nat) + " non-audio gaps skipped)"@
        } else {
            seq![]
        }),
    ) + line_if(
        t.audio_bytes_dropped > 0,
        "    audio dropped           : "@ + decimal(t.audio_bytes_dropped as nat)
            + " bytes (no recognizable AAC framing)"@,
    ) + line_if(
        t.torn_bytes > 0,
        "    torn beyond recovery    : "@ + decimal(t.torn_bytes as nat) + " bytes"@,
    ) + seq!["    recovered duration      : "@ + seconds(t.duration_ms as nat)]
}

fn counted_line(before: &str, n: u64, after: &str) -> (s: String)
    ensures
        s@ == before@ + decimal(n as nat) + after@,
{
    let mut s = String::from_str(before);
    push_decimal(&mut s, n);
    s.append(after);
    s
}

fn add_line(lines: &mut Vec<String>, line: String)
    ensures
        crate::ffx::texts_of(final(lines)@) == crate::ffx::texts_of(old(lines)@) + seq![line@],
{
    let ghost before = lines@;
    lines.push(line);
    assert(crate::ffx::texts_of(lines@) =~= crate::ffx::texts_of(before) + seq![line@]);
}

/// What a transplant recovered, line by line; `reorders` if the donor reorders B-frames.
pub fn transplant_report(t: &Transplant, reorders: bool, audio_rate: u32) -> (lines: Vec<String>)
    ensures
        crate::ffx::texts_of(lines@) == report_of(*t, reorders, audio_rate),
{
    let mut lines: Vec<String> = Vec::new();
    let mut s = counted_line("    video samples recovered : ", t.video_samples as u64, " (");
    push_decimal(&mut s, t.sync_samples as u64);
    s.append(" keyframes)");
    add_line(&mut lines, s);
    if reorders {
        if t.ctts_recovered {
            add_line(
                &mut lines,
                String::from_str(
                    "    B-frame timing          : recovered from slice POCs (ctts regrown)",
                ),
            );
        } else {
            add_line(
                &mut lines,
                String::from_str(
                    "    (donor reorders B-frames but their timing resisted recovery — expect slight judder, not damage)",
                ),
            );
        }
    }
    if t.dropped_leading > 0 {
        add_line(
            &mut lines,
            counted_line(
                "    dropped pre-keyframe    : ",
                t.dropped_leading as u64,
                " samples (undecodable without their IDR)",
            ),
        );
    }
    if t.audio_samples > 0 {
        let mut s = String::from_str("    audio samples recovered : ");
        push_decimal(&mut s, t.audio_samples);
        add_line(&mut lines, s);
    }
    if t.aac_chunks > 0 {
        let mut s = counted_line(
            "    audio recovered         : ",
            t.aac_chunks as u64,
            " AAC chunks from the interleave gaps @ ",
        );
        push_decimal(&mut s, audio_rate as u64);
        s.append(" Hz");
        if t.aac_skipped > 0 {
            s.append(counted_line(" (", t.aac_skipped as u64, " non-audio gaps skipped)").as_str());
        }
        add_line(&mut lines, s);
    }
    if t.audio_bytes_dropped > 0 {
        add_line(
            &mut lines,
            counted_line(
                "    audio dropped           : ",
                t.audio_bytes_dropped,
                " bytes (no recognizable AAC framing)",
            ),
        );
    }
    if t.torn_bytes > 0 {
        add_line(
            &mut lines,
            counted_line("    torn beyond recovery    : ", t.torn_bytes, " bytes"),
        );
    }
    let mut s = String::from_str("    recovered duration      : ");
    push_seconds(&mut s, t.duration_ms);
    add_line(&mut lines, s);
    assert(crate::ffx::texts_of(lines@) =~= report_of(*t, reorders, audio_rate));
    lines
}

// ---------------------------------------------------------------------------
// Final validation + optional Correct Formatting
// ---------------------------------------------------------------------------

/// What is converted at the end.
#[derive(Debug, Clone, Copy, PartialEq, Eq, Structural)]
pub enum FinishSource {
    /// Nothing: the output is validated as it is.
    Nothing,
    /// The rescued file.
    Output,
    /// The input, straight to the output, for want of a rescued file.
    Input,
}

/// Decides what is converted at the end.
pub fn finish_source(correct_format: bool, rescued_exists: bool) -> (r: FinishSource)
    ensures
        r == if !correct_format {
            FinishSource::Nothing
        } else if rescued_exists {
            FinishSource::Output
        } else {
            FinishSource::Input
        },
{
    if !correct_format {
        FinishSource::Nothing
    } else if rescued_exists {
        FinishSource::Output
    } else {
        FinishSource::Input
    }
}

/// The extension that a converted file gets: a rescued file is tagged, what is converted
/// from the input keeps the output's name.
pub fn converted_extension(source: FinishSource, video: bool) -> (r: Option<&'static str>)
    ensures
        match r {
            Some(e) => source == FinishSource::Output && e@ == if video {
                "correct.mp4"@
            } else {
                "correct.mp3"@
            },
            None => source != FinishSource::Output,
        },
{
    match source {
        FinishSource::Output => if video {
            Some("correct.mp4")
        } else {
            Some("correct.mp3")
        },
        _ => None,
    }
}

/// Whether the rescued file is removed once it is converted.
pub fn drop_rescued(source: FinishSource, keep_temp: bool) -> (r: bool)
    ensures
        r == (source == FinishSource::Output && !keep_temp),
{
    match source {
        FinishSource::Output => !keep_temp,
        _ => false,
    }
}

/// What the full decode of the result says.
pub fn decode_note(errors: usize) -> (r: String)
    ensures
        r@ == if errors == 0 {
            "full decode: clean (0 errors)"@
        } else {
            "full decode: "@ + decimal(errors as nat)
                + " error line(s) remain — partial rescue"@
        },
{
    if errors == 0 {
        String::from_str("full decode: clean (0 errors)")
    } else {
        counted_line("full decode: ", errors as u64, " error line(s) remain — partial rescue")
    }
}

/// What is trimmed away lies in the file: a stream that the file's own findings lead to
/// starts in it.
pub proof fn law_trims_lie_in_the_file(
    d: Seq<u8>,
    healthy: Option<bool>,
    correct_format: bool,
    donor: bool,
)
    ensures
        headerless_treatment(d, surest_first(all_found(d)), healthy, correct_format, donor) matches
            Treatment::Trim { offset, trim_ext, container_ext } ==> 0 <= offset <= d.len(),
{
    if surest_first(all_found(d)).len() > 0 {
        law_findings_are_sensible(d, 0);
    }
}

/// A healthy file is never rewritten unasked, and a donor is never used on it.
pub proof fn law_healthy_files_are_left(d: Seq<u8>, findings: Seq<Found>, video: bool, donor: bool)
    ensures
        headerless_treatment(d, findings, Some(video), false, donor) == Treatment::Leave,
        headerless_treatment(d, findings, Some(video), true, donor) == (Treatment::Convert { video }),
{
}

} // verus!
