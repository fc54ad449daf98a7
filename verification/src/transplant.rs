//! The moov transplant: untrunc-style recovery for files whose index is gone.
//!
//! When a file loses its `moov` (a recording cut off mid-write, a faststart
//! file whose front died) the mdat payload is a reel with no spindle. The
//! bytes are all there; nothing says where each sample starts, how long it
//! lasts, or what codec it speaks. But an intact sibling file from the same
//! device speaks the same dialect: same codec parameters (SPS/PPS in `stsd`),
//! same frame cadence, same muxing habits. We harvest that file's organs
//! (its sample descriptions, its `tkhd`, its timing) and regrow the index by
//! walking the orphaned payload one NAL unit at a time:
//!
//!  - H.264 video samples are recovered *exactly*: AVCC length prefixes chain
//!    from sample to sample, and `first_mb_in_slice == 0` (the first bit of
//!    every slice payload) marks each new access unit. IDR NALs mark the
//!    keyframes for a fresh `stss`.
//!  - The bytes between video chains are audio chunks. Constant-sample-size
//!    audio (PCM) splits exactly. Variable-frame audio (AAC) cannot be split
//!    without a decoder in the loop, so it is dropped, and we say so.
//!
//! Counts and durations are written into 32-bit fields by their low bits, and a
//! duration that 64 bits cannot count stands as the largest that they can.
use crate::aac::{aac_gaps, gaps_inside, opens_like_aac, rate_index, self, wide_gaps, wrapped};
use crate::bits::{bits_of, read_bits, read_ue, Bits};
use crate::bytes::{
    be32, be32_at, be32_bytes, be64, be64_at, be64_bytes, matches_at, overwritten, push_all,
    push_be32, push_be64, push_zeros, same_bytes, stands_at, zeros,
};
use crate::forensics::{atom_named_at, atoms, names_atom, scan_atoms, Atom, AtomHit};
use crate::fourcc::{
    CO64, CTTS, DINF, DREF, HDLR, MDAT, MDHD, MDIA, MINF, MOOV, MVHD, SMHD, SOUN, STBL, STCO, STSC,
    STSD, STSS, STSZ, STTS, TKHD, TRAK, URL, VIDE, VMHD,
};
use crate::h264::{parse_sps_from_stsd, sps_in, strip_emulation, unescaped, SpsInfo};
use crate::mp4::{
    box_at, commonest_delta, find_box, first_box, ftyp_box, inside, lemma_atoms_inside, moov_table,
    synth_ftyp, track_table, try_find_moov, try_parse_track, BoxIter, BoxSpan, TrackTable,
};
use crate::text::{decimal, push_decimal, same_text};
use vstd::arithmetic::power2::{lemma2_to64, lemma_pow2_strictly_increases, lemma_pow2_unfold, pow2};
use vstd::prelude::*;
use vstd::seq_lib::seq_to_set_is_finite;
use vstd::set_lib::{lemma_int_range, lemma_subset_equality, set_int_range};
use vstd::string::*;

verus! {

broadcast use crate::bytes::group_lengths;

// ---------------------------------------------------------------------------
// Boxes
// ---------------------------------------------------------------------------

/// A box: its size, its name and its payload.
pub open spec fn box_bytes(fourcc: Seq<u8>, body: Seq<u8>) -> Seq<u8> {
    be32_bytes(body.len() as int + 8) + fourcc + body
}

/// A box around `body`.
pub fn boxed(fourcc: &[u8; 4], body: &[u8]) -> (b: Vec<u8>)
    ensures
        b@ == box_bytes(fourcc@, body@),
{
    let mut b: Vec<u8> = Vec::new();
    push_len32(&mut b, body.len(), 8);
    push_all(&mut b, fourcc);
    push_all(&mut b, body);
    assert(b@ =~= box_bytes(fourcc@, body@));
    b
}

/// Appends the low 32 bits of `n + more`.
fn push_len32(out: &mut Vec<u8>, n: usize, more: u32)
    ensures
        final(out)@ == old(out)@ + be32_bytes(n + more),
{
    let sum: u128 = n as u128 + more as u128;
    push_be32(out, (sum % 0x1_0000_0000) as u32);
    proof {
        crate::bytes::lemma_be32_low(n + more);
    }
}

/// Appends the low 32 bits of `n`.
fn push_low32(out: &mut Vec<u8>, n: u64)
    ensures
        final(out)@ == old(out)@ + be32_bytes(n as int),
{
    push_be32(out, (n % 0x1_0000_0000) as u32);
    proof {
        crate::bytes::lemma_be32_low(n as int);
    }
}

/// Appends the low 64 bits of `n`.
fn push_low64(out: &mut Vec<u8>, n: u128)
    ensures
        final(out)@ == old(out)@ + be64_bytes(n as int),
{
    push_be64(out, (n % 0x1_0000_0000_0000_0000) as u64);
    proof {
        crate::bytes::lemma_be64_low(n as int);
    }
}

// ---------------------------------------------------------------------------
// The donor
// ---------------------------------------------------------------------------

/// What is taken from an intact file.
pub struct Donor {
    pub video: Option<DonorVideo>,
    pub audio: Option<DonorAudio>,
}

pub struct DonorVideo {
    /// Entire stsd box, verbatim: carries avcC (SPS/PPS), dimensions, all of it.
    pub stsd: Vec<u8>,
    /// tkhd fullbox body, verbatim: carries the display matrix (rotation!).
    pub tkhd: Option<Vec<u8>>,
    pub timescale: u32,
    /// Dominant stts delta: ticks per frame.
    pub sample_delta: u32,
    /// Largest sample in the donor; plausibility ceiling when walking.
    pub max_sample: u32,
    /// Donor uses ctts (B-frame reordering); we re-derive one from slice POCs.
    pub has_ctts: bool,
    /// Parsed from the donor's avcC: needed to read slice headers.
    pub sps: Option<SpsInfo>,
    pub codec: String,
}

pub struct DonorAudio {
    pub stsd: Vec<u8>,
    pub tkhd: Option<Vec<u8>>,
    pub timescale: u32,
    pub sample_delta: u32,
    pub codec: String,
    /// Some(n) when every donor sample is n bytes (PCM-style): exact audio
    /// recovery is possible. None (AAC etc.) means frame boundaries need a
    /// decoder we don't have; audio will be dropped, plainly.
    pub constant_sample_size: Option<u32>,
}

/// What is taken of a video track.
pub struct VideoOrgans {
    pub stsd: Seq<u8>,
    pub tkhd: Option<Seq<u8>>,
    pub timescale: u32,
    pub sample_delta: u32,
    pub max_sample: u32,
    pub has_ctts: bool,
    pub sps: Option<SpsInfo>,
    pub codec: Seq<char>,
}

/// What is taken of an audio track.
pub struct AudioOrgans {
    pub stsd: Seq<u8>,
    pub tkhd: Option<Seq<u8>>,
    pub timescale: u32,
    pub sample_delta: u32,
    pub codec: Seq<char>,
    pub constant_sample_size: Option<u32>,
}

/// What is taken of a file.
pub struct Organs {
    pub video: Option<VideoOrgans>,
    pub audio: Option<AudioOrgans>,
}

/// The bytes, if there are any.
pub open spec fn held(v: Option<Vec<u8>>) -> Option<Seq<u8>> {
    match v {
        Some(x) => Some(x@),
        None => None,
    }
}

impl View for DonorVideo {
    type V = VideoOrgans;

    open spec fn view(&self) -> VideoOrgans {
        VideoOrgans {
            stsd: self.stsd@,
            tkhd: held(self.tkhd),
            timescale: self.timescale,
            sample_delta: self.sample_delta,
            max_sample: self.max_sample,
            has_ctts: self.has_ctts,
            sps: self.sps,
            codec: self.codec@,
        }
    }
}

impl View for DonorAudio {
    type V = AudioOrgans;

    open spec fn view(&self) -> AudioOrgans {
        AudioOrgans {
            stsd: self.stsd@,
            tkhd: held(self.tkhd),
            timescale: self.timescale,
            sample_delta: self.sample_delta,
            codec: self.codec@,
            constant_sample_size: self.constant_sample_size,
        }
    }
}

impl View for Donor {
    type V = Organs;

    open spec fn view(&self) -> Organs {
        Organs {
            video: match self.video {
                Some(v) => Some(v@),
                None => None,
            },
            audio: match self.audio {
                Some(a) => Some(a@),
                None => None,
            },
        }
    }
}

/// How the video organs are described, given the frame rate in words.
pub open spec fn video_summary(v: VideoOrgans, fps: Seq<char>) -> Seq<char> {
    "video "@ + v.codec + " @ "@ + fps + " fps"@
}

/// How the audio organs are described.
pub open spec fn audio_summary(a: AudioOrgans) -> Seq<char> {
    match a.constant_sample_size {
        Some(n) => "audio "@ + a.codec + " ("@ + decimal(n as nat) + "-byte samples, recoverable)"@,
        None => "audio "@ + a.codec
            + " (variable frames \u{2014} splitting needs a decoder; will be dropped)"@,
    }
}

impl Donor {
    /// What was harvested, in words. `fps` is the video's frame rate
    /// (`timescale` over `sample_delta`), rendered by the caller.
    pub fn summary(&self, fps: &str) -> (r: String)
        ensures
            r@ == match (self@.video, self@.audio) {
                (Some(v), Some(a)) => video_summary(v, fps@) + ", "@ + audio_summary(a),
                (Some(v), None) => video_summary(v, fps@),
                (None, Some(a)) => audio_summary(a),
                (None, None) => seq![],
            },
    {
        let mut out = String::new();
        if let Some(v) = &self.video {
            out.append("video ");
            out.append(v.codec.as_str());
            out.append(" @ ");
            out.append(fps);
            out.append(" fps");
            assert(out@ =~= video_summary(v@, fps@));
        }
        if let Some(a) = &self.audio {
            if self.video.is_some() {
                out.append(", ");
            }
            let ghost before = out@;
            out.append("audio ");
            out.append(a.codec.as_str());
            match a.constant_sample_size {
                Some(n) => {
                    out.append(" (");
                    push_decimal(&mut out, n as u64);
                    out.append("-byte samples, recoverable)");
                },
                None => {
                    out.append(" (variable frames \u{2014} splitting needs a decoder; will be dropped)");
                },
            }
            assert(out@ =~= before + audio_summary(a@));
        }
        out
    }
}

/// Why a file cannot be a donor.
#[derive(Debug, Clone, PartialEq, Eq)]
pub enum DonorError {
    NoMoov,
    MoovUnreadable,
    /// The video speaks this codec.
    Codec(String),
    NothingTransplantable,
}

/// Why a file cannot be a donor.
pub enum Unfit {
    NoMoov,
    MoovUnreadable,
    Codec(Seq<char>),
    NothingTransplantable,
}

impl View for DonorError {
    type V = Unfit;

    open spec fn view(&self) -> Unfit {
        match self {
            DonorError::NoMoov => Unfit::NoMoov,
            DonorError::MoovUnreadable => Unfit::MoovUnreadable,
            DonorError::Codec(c) => Unfit::Codec(c@),
            DonorError::NothingTransplantable => Unfit::NothingTransplantable,
        }
    }
}

/// The error in words.
pub open spec fn unfit_text(e: Unfit) -> Seq<char> {
    match e {
        Unfit::NoMoov => "no parseable moov in the reference file \u{2014} the donor must be intact"@,
        Unfit::MoovUnreadable => "reference moov unreadable"@,
        Unfit::Codec(c) => "donor video codec is `"@ + c
            + "` \u{2014} basinski only knows how to walk H.264 (avc1/avc3) payloads so far"@,
        Unfit::NothingTransplantable => "the reference has no H.264 video track and no constant-size audio \u{2014} nothing transplantable in it"@,
    }
}

impl DonorError {
    pub fn message(&self) -> (r: String)
        ensures
            r@ == unfit_text(self@),
    {
        match self {
            DonorError::NoMoov => "no parseable moov in the reference file \u{2014} the donor must be intact".to_owned(),
            DonorError::MoovUnreadable => "reference moov unreadable".to_owned(),
            DonorError::Codec(c) => {
                let mut t = "donor video codec is `".to_owned();
                t.append(c.as_str());
                t.append("` \u{2014} basinski only knows how to walk H.264 (avc1/avc3) payloads so far");
                t
            },
            DonorError::NothingTransplantable => "the reference has no H.264 video track and no constant-size audio \u{2014} nothing transplantable in it".to_owned(),
        }
    }
}

/// The largest of the sizes, one at least.
pub open spec fn largest(sizes: Seq<u32>) -> u32
    decreases sizes.len(),
{
    if sizes.len() == 0 {
        1
    } else {
        let before = largest(sizes.drop_last());
        if sizes.last() > before {
            sizes.last()
        } else {
            before
        }
    }
}

/// The size that all samples have, if they have one.
pub open spec fn common_size(sizes: Seq<u32>) -> Option<u32> {
    if sizes.len() > 0 && forall|i: int| 0 <= i < sizes.len() ==> #[trigger] sizes[i] == sizes[0] {
        Some(sizes[0])
    } else {
        None
    }
}

/// The track's natural frame cadence: its most common sample duration, one tick at
/// least.
pub open spec fn cadence(t: TrackTable) -> u32 {
    if t.stts.len() == 0 || commonest_delta(t.stts) == 0 {
        1
    } else {
        commonest_delta(t.stts)
    }
}

/// The stbl box of a trak box that is a track.
pub open spec fn stbl_of(d: Seq<u8>, trak: BoxSpan) -> BoxSpan {
    let mdia = first_box(d, trak.body_start, trak.body_end, MDIA@).unwrap();
    let minf = first_box(d, mdia.body_start, mdia.body_end, MINF@).unwrap();
    first_box(d, minf.body_start, minf.body_end, STBL@).unwrap()
}

/// The stsd box of a trak box that is a track, boxed anew.
pub open spec fn stsd_of(d: Seq<u8>, trak: BoxSpan) -> Seq<u8> {
    let stbl = stbl_of(d, trak);
    let stsd = first_box(d, stbl.body_start, stbl.body_end, STSD@).unwrap();
    box_bytes(STSD@, d.subrange(stsd.body_start, stsd.body_end))
}

/// The tkhd payload of a trak box, if it has one.
pub open spec fn tkhd_of(d: Seq<u8>, trak: BoxSpan) -> Option<Seq<u8>> {
    match first_box(d, trak.body_start, trak.body_end, TKHD@) {
        Some(b) => Some(d.subrange(b.body_start, b.body_end)),
        None => None,
    }
}

/// What is taken of a video track.
pub open spec fn video_of(d: Seq<u8>, trak: BoxSpan, t: TrackTable) -> VideoOrgans {
    let stbl = stbl_of(d, trak);
    VideoOrgans {
        stsd: stsd_of(d, trak),
        tkhd: tkhd_of(d, trak),
        timescale: t.timescale,
        sample_delta: cadence(t),
        max_sample: largest(t.sizes),
        has_ctts: first_box(d, stbl.body_start, stbl.body_end, CTTS@) is Some,
        sps: sps_in(stsd_of(d, trak)),
        codec: t.codec,
    }
}

/// What is taken of an audio track.
pub open spec fn audio_of(d: Seq<u8>, trak: BoxSpan, t: TrackTable) -> AudioOrgans {
    AudioOrgans {
        stsd: stsd_of(d, trak),
        tkhd: tkhd_of(d, trak),
        timescale: t.timescale,
        sample_delta: cadence(t),
        codec: t.codec,
        constant_sample_size: common_size(t.sizes),
    }
}

/// The organs of the boxes from `pos` on, where `got` were taken before: the first
/// video track, which must be H.264, and the first audio track. Boxes that are no
/// tracks are passed over; the outer `None` if the data does not hold what one of
/// them speaks of.
pub open spec fn harvested(d: Seq<u8>, pos: int, end: int, got: Organs) -> Option<Result<Organs, Unfit>>
    decreases end - pos,
{
    match box_at(d, pos, end) {
        None => Some(Ok(got)),
        Some(b) => if b.fourcc != TRAK@ {
            harvested(d, b.body_end, end, got)
        } else {
            match track_table(d, b.body_start, b.body_end) {
                None => None,
                Some(Err(_)) => harvested(d, b.body_end, end, got),
                Some(Ok(t)) => if t.handler == "vide"@ && got.video is None {
                    if t.codec != "avc1"@ && t.codec != "avc3"@ {
                        Some(Err(Unfit::Codec(t.codec)))
                    } else {
                        harvested(
                            d,
                            b.body_end,
                            end,
                            Organs { video: Some(video_of(d, b, t)), audio: got.audio },
                        )
                    }
                } else if t.handler == "soun"@ && got.audio is None {
                    harvested(
                        d,
                        b.body_end,
                        end,
                        Organs { video: got.video, audio: Some(audio_of(d, b, t)) },
                    )
                } else {
                    harvested(d, b.body_end, end, got)
                },
            }
        },
    }
}

/// Whether the organs can be used: there is video, or audio of constant size.
pub open spec fn usable(o: Organs) -> bool {
    o.video is Some || (o.audio matches Some(a) && a.constant_sample_size is Some)
}

/// The organs of an intact file; `None` if the data does not hold what its index
/// speaks of.
pub open spec fn organs_of(d: Seq<u8>) -> Option<Result<Organs, Unfit>> {
    match moov_table(d) {
        None => None,
        Some(None) => Some(Err(Unfit::NoMoov)),
        Some(Some(m)) => match box_at(d, m.offset, d.len() as int) {
            None => Some(Err(Unfit::MoovUnreadable)),
            Some(moov) => if moov.fourcc != MOOV@ {
                Some(Err(Unfit::MoovUnreadable))
            } else {
                match harvested(d, moov.body_start, moov.body_end, Organs { video: None, audio: None }) {
                    None => None,
                    Some(Err(e)) => Some(Err(e)),
                    Some(Ok(o)) => if usable(o) {
                        Some(Ok(o))
                    } else {
                        Some(Err(Unfit::NothingTransplantable))
                    },
                }
            },
        },
    }
}

fn find_largest(sizes: &[u32]) -> (r: u32)
    ensures
        r == largest(sizes@),
{
    let mut best: u32 = 1;
    let mut i: usize = 0;
    assert(sizes@.take(0) =~= Seq::<u32>::empty());
    while i < sizes.len()
        invariant
            i <= sizes@.len(),
            best == largest(sizes@.take(i as int)),
        decreases sizes.len() - i,
    {
        assert(sizes@.take(i + 1).drop_last() =~= sizes@.take(i as int));
        if sizes[i] > best {
            best = sizes[i];
        }
        i += 1;
    }
    assert(sizes@.take(i as int) =~= sizes@);
    best
}

fn find_common_size(sizes: &[u32]) -> (r: Option<u32>)
    ensures
        r == common_size(sizes@),
{
    if sizes.len() == 0 {
        return None;
    }
    let first: u32 = sizes[0];
    let mut i: usize = 1;
    while i < sizes.len()
        invariant
            1 <= i <= sizes@.len(),
            first == sizes@[0],
            forall|j: int| 0 <= j < i ==> #[trigger] sizes@[j] == first,
        decreases sizes.len() - i,
    {
        if sizes[i] != first {
            return None;
        }
        i += 1;
    }
    Some(first)
}

fn copied(d: &[u8], start: usize, end: usize) -> (r: Vec<u8>)
    requires
        start <= end <= d@.len(),
    ensures
        r@ == d@.subrange(start as int, end as int),
{
    let mut v: Vec<u8> = Vec::new();
    push_all(&mut v, &d[start..end]);
    assert(v@ =~= d@.subrange(start as int, end as int));
    v
}

fn copy_text(s: &str) -> (r: String)
    ensures
        r@ == s@,
{
    s.to_owned()
}

/// What [`try_extract_donor`] answers, as the models put it.
pub open spec fn donor_answer(r: Option<Result<Donor, DonorError>>) -> Option<Result<Organs, Unfit>> {
    match r {
        Some(Ok(d)) => Some(Ok(d@)),
        Some(Err(e)) => Some(Err(e@)),
        None => None,
    }
}

/// Harvests the organs from an intact reference file; `None` if the data does not
/// hold what its index speaks of.
pub fn try_extract_donor(data: &[u8]) -> (r: Option<Result<Donor, DonorError>>)
    ensures
        donor_answer(r) == organs_of(data@),
{
    let m = match try_find_moov(data)? {
        Some(m) => m,
        None => {
            return Some(Err(DonorError::NoMoov));
        },
    };
    let mut top = BoxIter::new(data, m.offset as usize, data.len());
    assert(m.offset < data.len());
    let moov = match top.next() {
        Some(b) => b,
        None => {
            return Some(Err(DonorError::MoovUnreadable));
        },
    };
    if !same_bytes(&moov.fourcc, &MOOV) {
        return Some(Err(DonorError::MoovUnreadable));
    }
    let ghost none = Organs { video: None, audio: None };
    let ghost whole = harvested(data@, moov.body_start as int, moov.body_end as int, none);
    let mut donor = Donor { video: None, audio: None };
    let mut it = BoxIter::new(data, moov.body_start, moov.body_end);
    loop
        invariant
            it.data() == data@,
            it.end() == moov.body_end,
            moov.body_end <= data@.len(),
            whole == harvested(data@, it.pos(), it.end(), donor@),
            organs_of(data@) == (match whole {
                None => None,
                Some(Err(e)) => Some(Err(e)),
                Some(Ok(o)) => if usable(o) {
                    Some(Ok(o))
                } else {
                    Some(Err(Unfit::NothingTransplantable))
                },
            }),
        decreases it.end() - it.pos(),
    {
        let trak = match it.next() {
            Some(b) => b,
            None => {
                let fit = donor.video.is_some() || match &donor.audio {
                    Some(a) => a.constant_sample_size.is_some(),
                    None => false,
                };
                if !fit {
                    return Some(Err(DonorError::NothingTransplantable));
                }
                return Some(Ok(donor));
            },
        };
        if same_bytes(&trak.fourcc, &TRAK) {
            if let Ok(t) = try_parse_track(data, &trak)? {
                let tkhd = match find_box(data, trak.body_start, trak.body_end, &TKHD) {
                    Some(b) => Some(copied(data, b.body_start, b.body_end)),
                    None => None,
                };
                // a track has all of these
                let mdia = find_box(data, trak.body_start, trak.body_end, &MDIA).unwrap();
                let minf = find_box(data, mdia.body_start, mdia.body_end, &MINF).unwrap();
                let stbl = find_box(data, minf.body_start, minf.body_end, &STBL).unwrap();
                let stsd = find_box(data, stbl.body_start, stbl.body_end, &STSD).unwrap();
                // Re-box rather than slice backwards: header width stays honest.
                let raw = boxed(&STSD, &data[stsd.body_start..stsd.body_end]);
                assert(raw@ == stsd_of(data@, trak@));
                assert(held(tkhd) == tkhd_of(data@, trak@));
                if same_text(t.handler.as_str(), "vide") && donor.video.is_none() {
                    if !same_text(t.codec.as_str(), "avc1") && !same_text(t.codec.as_str(), "avc3") {
                        return Some(Err(DonorError::Codec(t.codec)));
                    }
                    let sps = parse_sps_from_stsd(&raw);
                    let video = DonorVideo {
                        timescale: t.timescale,
                        sample_delta: t.dominant_delta(),
                        max_sample: find_largest(&t.sizes),
                        has_ctts: find_box(data, stbl.body_start, stbl.body_end, &CTTS).is_some(),
                        codec: copy_text(t.codec.as_str()),
                        stsd: raw,
                        tkhd,
                        sps,
                    };
                    assert(video@ == video_of(data@, trak@, t@));
                    donor.video = Some(video);
                } else if same_text(t.handler.as_str(), "soun") && donor.audio.is_none() {
                    let audio = DonorAudio {
                        timescale: t.timescale,
                        sample_delta: t.dominant_delta(),
                        codec: copy_text(t.codec.as_str()),
                        constant_sample_size: find_common_size(&t.sizes),
                        stsd: raw,
                        tkhd,
                    };
                    assert(audio@ == audio_of(data@, trak@, t@));
                    donor.audio = Some(audio);
                }
            }
        }
    }
}

/// Harvests the organs from an intact reference file.
pub fn extract_donor(data: &[u8]) -> (r: Result<Donor, DonorError>)
    requires
        organs_of(data@) is Some,
    ensures
        donor_answer(Some(r)) == organs_of(data@),
{
    try_extract_donor(data).unwrap()
}

// ---------------------------------------------------------------------------
// Locating the orphaned media
// ---------------------------------------------------------------------------

/// The size an atom at `pos` claims and the length of its header; none if its
/// 64-bit size is cut off.
pub open spec fn claimed(d: Seq<u8>, pos: int) -> Option<(int, int)> {
    let size = be32_at(d, pos);
    if size == 0 {
        Some((d.len() - pos, 8))
    } else if size == 1 {
        if pos + 16 <= d.len() {
            Some((be64_at(d, pos + 8), 16))
        } else {
            None
        }
    } else {
        Some((size, 8))
    }
}

/// `x`, kept between `low` and `high`.
pub open spec fn clamped(x: int, low: int, high: int) -> int {
    if x < low {
        low
    } else if x > high {
        high
    } else {
        x
    }
}

/// The payload of the first mdat that a chain of known atoms from `pos` on leads
/// to. A tail-cut file's mdat size overruns EOF; that's fine, the header itself
/// survived and anchors the payload start.
pub open spec fn leading_media(d: Seq<u8>, pos: int) -> Option<(int, int)>
    decreases d.len() - pos,
{
    if pos < 0 || pos + 8 > d.len() || !atom_named_at(d, pos + 4) {
        None
    } else {
        match claimed(d, pos) {
            None => None,
            Some((size, hdr)) => if stands_at(d, pos + 4, MDAT@) {
                Some((pos + hdr, clamped(pos + size, pos + hdr, d.len() as int)))
            } else if size < hdr || pos + size > d.len() {
                None
            } else {
                leading_media(d, pos + size)
            },
        }
    }
}

/// The largest mdat that chains; the last of them if several are as large.
pub open spec fn largest_mdat(all: Seq<Atom>) -> Option<Atom>
    decreases all.len(),
{
    if all.len() == 0 {
        None
    } else {
        let a = all.last();
        let before = largest_mdat(all.drop_last());
        if a.fourcc == MDAT@ && a.chains && (before matches Some(b) ==> a.size >= b.size) {
            Some(a)
        } else {
            before
        }
    }
}

/// The payload of an interior mdat.
pub open spec fn interior_media(d: Seq<u8>, a: Atom) -> (int, int) {
    let hdr = if be32_at(d, a.offset) == 1 {
        16int
    } else {
        8int
    };
    let start = clamped(a.offset + hdr, 0, d.len() as int);
    (start, clamped(a.offset + a.size, start, d.len() as int))
}

/// Where the media payload lies: behind a leading chain of atoms; else in the
/// largest interior mdat that chains (a faststart file whose front died looks like
/// this: moov wreckage up front, then a perfectly healthy mdat); else everywhere,
/// at an unknown phase.
pub open spec fn media_of(d: Seq<u8>) -> (int, int, bool) {
    match leading_media(d, 0) {
        Some((start, end)) => (start, end, false),
        None => match largest_mdat(atoms(d)) {
            Some(a) => (interior_media(d, a).0, interior_media(d, a).1, false),
            None => (0, d.len() as int, true),
        },
    }
}

fn find_leading_media(d: &[u8]) -> (r: Option<(usize, usize)>)
    ensures
        match r {
            Some((start, end)) => leading_media(d@, 0) == Some((start as int, end as int)) && start
                <= end <= d@.len(),
            None => leading_media(d@, 0) is None,
        },
{
    let mut pos: usize = 0;
    while d.len() >= 8 && pos <= d.len() - 8
        invariant
            pos <= d@.len(),
            leading_media(d@, 0) == leading_media(d@, pos as int),
        decreases d.len() - pos,
    {
        if !names_atom(d, pos + 4) {
            return None;
        }
        let left: usize = d.len() - pos;
        let size32: u32 = be32(d, pos);
        let (size, hdr): (u64, usize) = if size32 == 0 {
            (left as u64, 8)
        } else if size32 == 1 {
            if left < 16 {
                return None;
            }
            (be64(d, pos + 8), 16)
        } else {
            (size32 as u64, 8)
        };
        if matches_at(d, pos + 4, &MDAT) {
            let start: usize = pos + hdr;
            let end: usize = if size < hdr as u64 {
                start
            } else if size > left as u64 {
                d.len()
            } else {
                pos + size as usize
            };
            return Some((start, end));
        }
        if size < hdr as u64 || size > left as u64 {
            return None;
        }
        pos = pos + size as usize;
    }
    None
}

/// Finds the media payload in the broken file. Returns (start, end, head_torn).
/// `head_torn` means the region begins at an unknown phase (raw payload, no
/// surviving mdat header): the leading bytes may be a torn sample's tail.
pub fn locate_media(d: &[u8]) -> (r: (usize, usize, bool))
    ensures
        media_of(d@) == (r.0 as int, r.1 as int, r.2),
        r.0 <= r.1 <= d@.len(),
{
    if let Some((start, end)) = find_leading_media(d) {
        return (start, end, false);
    }
    let hits = scan_atoms(d);
    let ghost all = hits@.map_values(|h: AtomHit| h@);
    assert(all == atoms(d@));
    let mut best: Option<AtomHit> = None;
    let mut i: usize = 0;
    assert(all.take(0) =~= Seq::<Atom>::empty());
    proof {
        lemma_atoms_inside(d@, d@.len() as int);
    }
    while i < hits.len()
        invariant
            i <= hits@.len(),
            all == hits@.map_values(|h: AtomHit| h@),
            inside(d@, all),
            match best {
                Some(h) => largest_mdat(all.take(i as int)) == Some(h@) && 8 <= h.size && h.offset
                    + h.size <= d@.len(),
                None => largest_mdat(all.take(i as int)) is None,
            },
        decreases hits.len() - i,
    {
        let h = hits[i];
        assert(all[i as int] == h@);
        assert(all.take(i + 1).drop_last() =~= all.take(i as int));
        assert(all.take(i + 1).last() == h@);
        if h.chains && same_bytes(&h.fourcc, &MDAT) {
            let better = match best {
                Some(b) => h.size >= b.size,
                None => true,
            };
            if better {
                best = Some(h);
            }
        }
        i += 1;
    }
    assert(all.take(i as int) =~= all);
    if let Some(h) = best {
        assert(h.offset + h.size <= d.len());
        let at: usize = h.offset as usize;
        let hdr: usize = if be32(d, at) == 1 {
            16
        } else {
            8
        };
        let left: usize = d.len() - at;
        let start: usize = if hdr > left {
            d.len()
        } else {
            at + hdr
        };
        let e: usize = at + h.size as usize;
        let end: usize = if e < start {
            start
        } else {
            e
        };
        return (start, end, false);
    }
    (0, d.len(), true)
}

// ---------------------------------------------------------------------------
// Walking the payload
// ---------------------------------------------------------------------------

/// One recovered video sample.
#[derive(Debug, Clone, Copy)]
pub struct Sample {
    /// Offset within the media region.
    pub off: usize,
    pub size: usize,
    pub sync: bool,
}

/// A sample in the media.
pub struct Unit {
    pub off: int,
    pub size: int,
    pub sync: bool,
}

impl View for Sample {
    type V = Unit;

    open spec fn view(&self) -> Unit {
        Unit { off: self.off as int, size: self.size as int, sync: self.sync }
    }
}

/// A list of samples in the media.
pub open spec fn units(v: Seq<Sample>) -> Seq<Unit> {
    v.map_values(|s: Sample| s@)
}

enum Nal {
    Valid { len: usize, ty: u8 },
    /// Length and header plausible but the payload overruns EOF: a sample
    /// the truncation tore in half.
    Torn,
    Invalid,
}

/// What stands at a position of the payload.
pub enum NalSpan {
    Valid { len: int, ty: u8 },
    Torn,
    Invalid,
}

impl View for Nal {
    type V = NalSpan;

    closed spec fn view(&self) -> NalSpan {
        match self {
            Nal::Valid { len, ty } => NalSpan::Valid { len: *len as int, ty: *ty },
            Nal::Torn => NalSpan::Torn,
            Nal::Invalid => NalSpan::Invalid,
        }
    }
}

/// Whether a NAL header byte is consistent: IDR, SPS and PPS are always
/// references; SEI, AUD, ends and filler never are.
pub open spec fn header_ok(nal: u8) -> bool {
    let ty = nal % 32;
    let ref_idc = nal / 32;
    nal < 128 && 1 <= ty <= 23 && (if ty == 5 || ty == 7 || ty == 8 {
        ref_idc != 0
    } else if ty == 6 || 9 <= ty <= 12 {
        ref_idc == 0
    } else {
        true
    })
}

/// The length-prefixed NAL unit at `i`. Up to four trailing crumbs, not even a
/// whole length prefix, are torn too.
pub open spec fn nal_at(d: Seq<u8>, i: int, max_len: int) -> NalSpan {
    let len = be32_at(d, i);
    if i < 0 || i >= d.len() {
        NalSpan::Invalid
    } else if i + 5 > d.len() {
        NalSpan::Torn
    } else if !header_ok(d[i + 4]) || len < 2 || len > max_len {
        NalSpan::Invalid
    } else if i + 4 + len > d.len() {
        NalSpan::Torn
    } else {
        NalSpan::Valid { len, ty: d[i + 4] % 32 }
    }
}

/// The longest NAL unit that is plausible for a donor.
pub open spec fn longest_nal(dv: VideoOrgans) -> int {
    dv.max_sample * 4 + 4096
}

/// Whether the slice at `i` starts a new picture: the first bit of its payload is
/// `first_mb_in_slice == 0` in Exp-Golomb.
pub open spec fn starts_picture(d: Seq<u8>, i: int) -> bool {
    i + 5 < d.len() && d[i + 5] >= 128
}

fn parse_nal(d: &[u8], i: usize, max_len: u64) -> (r: Nal)
    ensures
        r@ == nal_at(d@, i as int, max_len as int),
        r matches Nal::Valid { len, ty } ==> len >= 2 && i + 4 + len <= d.len(),
{
    if i >= d.len() {
        return Nal::Invalid;
    }
    let left: usize = d.len() - i;
    if left < 5 {
        return Nal::Torn;
    }
    let len: u32 = be32(d, i);
    let nal: u8 = d[i + 4];
    let ty: u8 = nal % 32;
    let ref_idc: u8 = nal / 32;
    let ok = nal < 128 && 1 <= ty && ty <= 23 && (if ty == 5 || ty == 7 || ty == 8 {
        ref_idc != 0
    } else if ty == 6 || (9 <= ty && ty <= 12) {
        ref_idc == 0
    } else {
        true
    });
    if !ok || len < 2 || len as u64 > max_len {
        return Nal::Invalid;
    }
    if len as u64 > (left - 4) as u64 {
        return Nal::Torn;
    }
    Nal::Valid { len: len as usize, ty }
}

fn first_mb_zero(d: &[u8], i: usize) -> (r: bool)
    requires
        i <= d@.len(),
    ensures
        r == starts_picture(d@, i as int),
{
    d.len() - i > 5 && d[i + 5] >= 128
}

/// The frame_num in the slice header whose bits are `s`, if the header is sane:
/// first_mb is 0, the slice type exists and is I or SI for an IDR, the PPS id is
/// small, and frame_num is all there.
pub open spec fn header_frame_num(s: Seq<bool>, idr: bool, sps: SpsInfo) -> Option<int> {
    match read_ue(s, 0) {
        None => None,
        Some((first_mb, p1)) => match read_ue(s, p1) {
            None => None,
            Some((slice_type, p2)) => match read_ue(s, p2) {
                None => None,
                Some((pps_id, p3)) => if first_mb != 0 || slice_type > 9 || (idr && slice_type % 5
                    != 2 && slice_type % 5 != 4) || pps_id > 3 {
                    None
                } else {
                    let p4 = if sps.separate_colour_plane {
                        p3 + 2
                    } else {
                        p3
                    };
                    match read_bits(s, p4, sps.log2_max_frame_num as nat) {
                        Some((v, _)) => Some(v),
                        None => None,
                    }
                },
            },
        },
    }
}

/// The frame_num of the slice whose NAL unit stands at `i`, looked for in the
/// first 16 bytes of its payload.
pub open spec fn frame_num_of(d: Seq<u8>, i: int, idr: bool, sps: SpsInfo) -> Option<int> {
    if i + 5 > d.len() {
        None
    } else {
        let end = if i + 21 <= d.len() {
            i + 21
        } else {
            d.len() as int
        };
        header_frame_num(bits_of(unescaped(d.subrange(i + 5, end), 0)), idr, sps)
    }
}

fn read_frame_num(b: &mut Bits, idr: bool, sps: &SpsInfo) -> (r: Option<u64>)
    requires
        old(b).wf(),
        old(b).at() == 0,
    ensures
        match r {
            Some(v) => header_frame_num(old(b).bits(), idr, *sps) == Some(v as int),
            None => header_frame_num(old(b).bits(), idr, *sps) is None,
        },
{
    let first_mb: u64 = b.ue()?;
    let slice_type: u64 = b.ue()?;
    let pps_id: u64 = b.ue()?;
    if first_mb != 0 || slice_type > 9 || (idr && slice_type % 5 != 2 && slice_type % 5 != 4)
        || pps_id > 3 {
        return None;
    }
    if sps.separate_colour_plane {
        b.u(2)?;
    }
    b.u(sps.log2_max_frame_num)
}

/// Deep sanity for a resync candidate's slice header, parsed with the donor's
/// SPS. A fake NAL conjured out of audio bytes rarely survives this far.
/// Returns the frame_num: the caller holds it against the previous sample's.
fn slice_frame_num(d: &[u8], i: usize, idr: bool, sps: &SpsInfo) -> (r: Option<u64>)
    requires
        i <= d@.len(),
    ensures
        match r {
            Some(v) => frame_num_of(d@, i as int, idr, *sps) == Some(v as int),
            None => frame_num_of(d@, i as int, idr, *sps) is None,
        },
{
    let left: usize = d.len() - i;
    if left < 5 {
        return None;
    }
    let end: usize = if left >= 21 {
        i + 21
    } else {
        d.len()
    };
    let rbsp = strip_emulation(&d[i + 5..end]);
    let mut b = Bits::new(&rbsp);
    read_frame_num(&mut b, idr, sps)
}

/// Whether `i` plausibly begins a video sample. (Used to resync after a gap.)
pub open spec fn sample_may_start(d: Seq<u8>, i: int, dv: VideoOrgans) -> bool {
    match nal_at(d, i, longest_nal(dv)) {
        NalSpan::Valid { len, ty } => if ty == 1 || ty == 5 {
            match dv.sps {
                Some(sps) => frame_num_of(d, i, ty == 5, sps) is Some,
                None => starts_picture(d, i),
            }
        } else {
            6 <= ty <= 9
        },
        _ => false,
    }
}

fn au_start_candidate(d: &[u8], i: usize, dv: &DonorVideo) -> (r: bool)
    ensures
        r == sample_may_start(d@, i as int, dv@),
{
    match parse_nal(d, i, dv.max_sample as u64 * 4 + 4096) {
        Nal::Valid { len, ty } => if ty == 1 || ty == 5 {
            match &dv.sps {
                Some(sps) => slice_frame_num(d, i, ty == 5, sps).is_some(),
                None => first_mb_zero(d, i),
            }
        } else {
            6 <= ty && ty <= 9
        },
        _ => false,
    }
}

/// A run of samples: where it ends (behind the last complete sample), and whether
/// a torn NAL unit stands there.
pub struct Run {
    pub samples: Seq<Unit>,
    pub end: int,
    pub torn: bool,
}

/// A sample from `cur` to `pos`.
pub open spec fn unit(cur: int, pos: int, sync: bool) -> Unit {
    Unit { off: cur, size: pos - cur, sync }
}

/// A run with a sample put in front.
pub open spec fn run_after(u: Unit, r: Run) -> Run {
    Run { samples: seq![u] + r.samples, end: r.end, torn: r.torn }
}

/// The run of samples whose NAL units go on at `pos`. The current sample began at
/// `cur`; it may have a slice already, and be an IDR. A slice that starts a picture,
/// or any SEI, SPS, PPS or AUD, behind a slice begins the next sample. A torn NAL
/// unit most likely opened the next sample; the current one, if it has a slice, is
/// complete.
pub open spec fn run_from(
    d: Seq<u8>,
    max_len: int,
    pos: int,
    cur: int,
    has_slice: bool,
    idr: bool,
) -> Run
    decreases d.len() - pos,
{
    match nal_at(d, pos, max_len) {
        NalSpan::Valid { len, ty } => {
            let slice = ty == 1 || ty == 5;
            let new = has_slice && (if slice {
                starts_picture(d, pos)
            } else {
                6 <= ty <= 9
            });
            if new {
                run_after(
                    unit(cur, pos, idr),
                    run_from(d, max_len, pos + 4 + len, pos, slice, ty == 5),
                )
            } else {
                run_from(d, max_len, pos + 4 + len, cur, has_slice || slice, idr || ty == 5)
            }
        },
        NalSpan::Torn => if has_slice {
            Run { samples: seq![unit(cur, pos, idr)], end: pos, torn: true }
        } else {
            Run { samples: seq![], end: cur, torn: true }
        },
        NalSpan::Invalid => if has_slice {
            Run { samples: seq![unit(cur, pos, idr)], end: pos, torn: false }
        } else {
            Run { samples: seq![], end: cur, torn: false }
        },
    }
}

/// The run of samples that starts at `start`.
pub open spec fn run_at(d: Seq<u8>, start: int, dv: VideoOrgans) -> Run {
    run_from(d, longest_nal(dv), start, start, false, false)
}

struct AuWalk {
    samples: Vec<Sample>,
    /// First byte past the last complete sample (where the chain broke).
    end: usize,
    torn: bool,
}

impl View for AuWalk {
    type V = Run;

    closed spec fn view(&self) -> Run {
        Run { samples: units(self.samples@), end: self.end as int, torn: self.torn }
    }
}

/// Samples that lie between `low` and `high`, in order and without overlap.
pub open spec fn laid_out(v: Seq<Unit>, low: int, high: int) -> bool {
    &&& forall|i: int|
        0 <= i < v.len() ==> low <= (#[trigger] v[i]).off && 0 <= v[i].size && v[i].off + v[i].size
            <= high
    &&& forall|i: int, j: int|
        0 <= i < j < v.len() ==> (#[trigger] v[i]).off + v[i].size <= (#[trigger] v[j]).off
}

fn sample(cur: usize, pos: usize, sync: bool) -> (s: Sample)
    requires
        cur <= pos,
    ensures
        s@ == unit(cur as int, pos as int, sync),
{
    Sample { off: cur, size: pos - cur, sync }
}

/// Greedily walks length-prefixed NALs from `start`, splitting them into
/// access units. Stops at the first byte that doesn't parse (an audio chunk,
/// garbage, or EOF).
fn walk_aus(d: &[u8], start: usize, dv: &DonorVideo) -> (r: AuWalk)
    requires
        start <= d@.len(),
    ensures
        r@ == run_at(d@, start as int, dv@),
        start <= r.end <= d@.len(),
        laid_out(units(r.samples@), start as int, r.end as int),
        r.samples@.len() > 0 ==> r.end > start,
{
    let max_len: u64 = dv.max_sample as u64 * 4 + 4096;
    let ghost whole = run_at(d@, start as int, dv@);
    let mut samples: Vec<Sample> = Vec::new();
    let mut pos: usize = start;
    let mut cur: usize = start;
    let mut has_slice = false;
    let mut idr = false;
    assert(units(samples@) + whole.samples =~= whole.samples);
    loop
        invariant
            max_len == longest_nal(dv@),
            start <= cur <= pos <= d@.len(),
            whole == run_at(d@, start as int, dv@),
            laid_out(units(samples@), start as int, cur as int),
            samples@.len() > 0 ==> cur > start,
            has_slice ==> pos > cur,
            ({
                let rest = run_from(
                    d@,
                    max_len as int,
                    pos as int,
                    cur as int,
                    has_slice,
                    idr,
                );
                &&& whole.samples == units(samples@) + rest.samples
                &&& whole.end == rest.end
                &&& whole.torn == rest.torn
            }),
        decreases d.len() - pos,
    {
        match parse_nal(d, pos, max_len) {
            Nal::Valid { len, ty } => {
                let slice = ty == 1 || ty == 5;
                let new = has_slice && (if slice {
                    first_mb_zero(d, pos)
                } else {
                    6 <= ty && ty <= 9  // SEI/SPS/PPS/AUD belong to the NEXT picture
                });
                let ghost rest = run_from(
                    d@,
                    max_len as int,
                    pos as int,
                    cur as int,
                    has_slice,
                    idr,
                );
                if new {
                    let ghost before = units(samples@);
                    let s = sample(cur, pos, idr);
                    let ghost tail = run_from(
                        d@,
                        max_len as int,
                        pos + 4 + len,
                        pos as int,
                        slice,
                        ty == 5,
                    );
                    assert(rest == run_after(s@, tail));
                    samples.push(s);
                    assert(units(samples@) =~= before.push(s@));
                    assert(before + (seq![s@] + tail.samples) =~= units(samples@) + tail.samples);
                    cur = pos;
                    has_slice = false;
                    idr = false;
                }
                has_slice = has_slice || slice;
                idr = idr || ty == 5;
                pos = pos + 4 + len;
            },
            Nal::Torn => {
                let ghost before = units(samples@);
                if has_slice {
                    let s = sample(cur, pos, idr);
                    samples.push(s);
                    assert(units(samples@) =~= before + seq![s@]);
                    cur = pos;
                } else {
                    assert(before + Seq::<Unit>::empty() =~= before);
                }
                return AuWalk { samples, end: cur, torn: true };
            },
            Nal::Invalid => {
                let ghost before = units(samples@);
                if has_slice {
                    let s = sample(cur, pos, idr);
                    samples.push(s);
                    assert(units(samples@) =~= before + seq![s@]);
                    cur = pos;
                } else {
                    assert(before + Seq::<Unit>::empty() =~= before);
                }
                return AuWalk { samples, end: cur, torn: false };
            },
        }
    }
}

/// The first slice among the NAL units from `p` to `end`: where it stands, and
/// whether it is an IDR.
pub open spec fn first_slice_in(d: Seq<u8>, p: int, end: int) -> Option<(int, bool)>
    decreases
            (if p < end {
                end - p
            } else {
                0
            }),
{
    if p < 0 || p + 5 > end || end > d.len() {
        None
    } else {
        let ty = d[p + 4] % 32;
        if ty == 1 || ty == 5 {
            Some((p, ty == 5))
        } else {
            first_slice_in(d, p + 4 + be32_at(d, p), end)
        }
    }
}

/// The first slice of a sample, looked for in its size kept to 32 bits.
pub open spec fn first_slice(d: Seq<u8>, u: Unit) -> Option<(int, bool)> {
    first_slice_in(d, u.off, u.off + u.size % 0x1_0000_0000)
}

/// The frame_num of a sample's first slice.
pub open spec fn sample_frame_num(d: Seq<u8>, u: Unit, sps: SpsInfo) -> Option<int> {
    match first_slice(d, u) {
        Some((p, idr)) => frame_num_of(d, p, idr, sps),
        None => None,
    }
}

/// Whether a sample's frame_num *continues the count*: frame_num is the H.264
/// decoder's own continuity check. Each reference frame increments it by exactly
/// one (mod 2^log2_max_frame_num), and an IDR resets it to zero. A small jump is
/// allowed: non-ref frames repeat the count, and a genuinely damaged frame or two
/// may be missing in between.
pub open spec fn count_continues(d: Seq<u8>, u: Unit, sps: SpsInfo, prev: Option<int>) -> bool {
    match first_slice(d, u) {
        None => false,
        Some((p, idr)) => match frame_num_of(d, p, idr, sps) {
            None => false,
            Some(f) => if idr {
                f == 0
            } else {
                match prev {
                    Some(x) => (f - x) % pow2(sps.log2_max_frame_num as nat) as int <= 4,
                    None => true,
                }
            },
        },
    }
}

/// Whether a video sample verifiably begins at `q`: candidate header, at least one
/// complete access unit, a sane first slice, and a frame_num that continues the
/// count.
pub open spec fn video_starts(d: Seq<u8>, q: int, dv: VideoOrgans, prev: Option<int>) -> bool {
    let run = run_at(d, q, dv);
    sample_may_start(d, q, dv) && run.samples.len() > 0 && match dv.sps {
        Some(sps) => count_continues(d, run.samples[0], sps, prev),
        None => true,
    }
}

/// The next position from `q` on where a video sample verifiably begins.
pub open spec fn next_start(d: Seq<u8>, q: int, dv: VideoOrgans, prev: Option<int>) -> Option<int>
    decreases d.len() - q,
{
    if q < 0 || q + 5 >= d.len() {
        None
    } else if video_starts(d, q, dv, prev) {
        Some(q)
    } else {
        next_start(d, q + 1, dv, prev)
    }
}

/// What a payload is made of.
pub struct Parts {
    pub video: Seq<Unit>,
    /// Non-video byte runs (offset, len): audio chunks, in muxing order.
    pub gaps: Seq<(int, int)>,
    /// Bytes attributable to nothing: torn samples, head fragments.
    pub torn: int,
}

/// A stretch from `pos` to `q` that is no video: a chunk of something else, or
/// garbage; followed by `rest`.
pub open spec fn with_gap(pos: int, q: int, garbage: bool, rest: Parts) -> Parts {
    if q <= pos {
        rest
    } else if garbage {
        Parts { torn: rest.torn + (q - pos), ..rest }
    } else {
        Parts { gaps: seq![(pos, q - pos)] + rest.gaps, ..rest }
    }
}

/// The parts of the payload from `pos` on. The first gap is garbage where the head
/// is torn: a wounded sample's tail, not a real chunk. `prev` is the frame_num of
/// the last accepted sample, the continuity baseline.
pub open spec fn parts_from(
    d: Seq<u8>,
    dv: VideoOrgans,
    pos: int,
    garbage: bool,
    prev: Option<int>,
) -> Parts
    decreases d.len() - pos,
{
    let none = Parts { video: seq![], gaps: seq![], torn: 0 };
    if pos < 0 || pos >= d.len() {
        none
    } else {
        match next_start(d, pos, dv, prev) {
            None => with_gap(pos, d.len() as int, garbage, none),
            Some(q) => {
                let run = run_at(d, q, dv);
                let prev2 = match dv.sps {
                    Some(sps) => sample_frame_num(d, run.samples.last(), sps),
                    None => prev,
                };
                proof {
                    lemma_next_start(d, pos, dv, prev);
                    lemma_run(d, longest_nal(dv), q, q, false, false);
                }
                let rest = if run.torn {
                    Parts { video: seq![], gaps: seq![], torn: d.len() - run.end }
                } else {
                    parts_from(d, dv, run.end, false, prev2)
                };
                with_gap(pos, q, garbage, Parts { video: run.samples + rest.video, ..rest })
            },
        }
    }
}

/// The bytes of all samples.
pub open spec fn video_bytes(v: Seq<Unit>) -> int
    decreases v.len(),
{
    if v.len() == 0 {
        0
    } else {
        video_bytes(v.drop_last()) + v.last().size
    }
}

/// The bytes of all gaps.
pub open spec fn gap_bytes(v: Seq<(int, int)>) -> int
    decreases v.len(),
{
    if v.len() == 0 {
        0
    } else {
        gap_bytes(v.drop_last()) + v.last().1
    }
}

proof fn lemma_one_unit(u: Unit)
    ensures
        video_bytes(seq![u]) == u.size,
{
    assert(seq![u].drop_last() =~= Seq::<Unit>::empty());
    reveal_with_fuel(video_bytes, 2);
}

proof fn lemma_one_gap(g: (int, int))
    ensures
        gap_bytes(seq![g]) == g.1,
{
    assert(seq![g].drop_last() =~= Seq::<(int, int)>::empty());
    reveal_with_fuel(gap_bytes, 2);
}

proof fn lemma_video_bytes_add(a: Seq<Unit>, b: Seq<Unit>)
    ensures
        video_bytes(a + b) == video_bytes(a) + video_bytes(b),
    decreases b.len(),
{
    if b.len() == 0 {
        assert(a + b =~= a);
    } else {
        lemma_video_bytes_add(a, b.drop_last());
        assert((a + b).drop_last() =~= a + b.drop_last());
    }
}

proof fn lemma_gap_bytes_add(a: Seq<(int, int)>, b: Seq<(int, int)>)
    ensures
        gap_bytes(a + b) == gap_bytes(a) + gap_bytes(b),
    decreases b.len(),
{
    if b.len() == 0 {
        assert(a + b =~= a);
    } else {
        lemma_gap_bytes_add(a, b.drop_last());
        assert((a + b).drop_last() =~= a + b.drop_last());
    }
}

/// A run goes forward, stays in the data, and its samples fill it from its start to
/// its end, one behind the other.
pub proof fn lemma_run(d: Seq<u8>, max_len: int, pos: int, cur: int, has_slice: bool, idr: bool)
    requires
        0 <= cur <= pos <= d.len(),
        has_slice ==> cur < pos,
    ensures
        ({
            let r = run_from(d, max_len, pos, cur, has_slice, idr);
            &&& cur <= r.end <= d.len()
            &&& r.samples.len() > 0 ==> cur < r.end
            &&& laid_out(r.samples, cur, r.end)
            &&& video_bytes(r.samples) == r.end - cur
            &&& forall|i: int| 0 <= i < r.samples.len() ==> (#[trigger] r.samples[i]).size > 0
        }),
    decreases d.len() - pos,
{
    let r = run_from(d, max_len, pos, cur, has_slice, idr);
    match nal_at(d, pos, max_len) {
        NalSpan::Valid { len, ty } => {
            let slice = ty == 1 || ty == 5;
            let new = has_slice && (if slice {
                starts_picture(d, pos)
            } else {
                6 <= ty <= 9
            });
            if new {
                let u = unit(cur, pos, idr);
                let rest = run_from(d, max_len, pos + 4 + len, pos, slice, ty == 5);
                lemma_run(d, max_len, pos + 4 + len, pos, slice, ty == 5);
                lemma_video_bytes_add(seq![u], rest.samples);
                lemma_one_unit(u);
                assert(r.samples =~= seq![u] + rest.samples);
                assert forall|i: int| 0 <= i < r.samples.len() implies cur <= (
                #[trigger] r.samples[i]).off && 0 < r.samples[i].size && r.samples[i].off
                    + r.samples[i].size <= r.end by {
                    if i > 0 {
                        assert(r.samples[i] == rest.samples[i - 1]);
                    }
                }
                assert forall|i: int, j: int| 0 <= i < j < r.samples.len() implies (
                #[trigger] r.samples[i]).off + r.samples[i].size <= (#[trigger] r.samples[j]).off by {
                    assert(r.samples[j] == rest.samples[j - 1]);
                    if i > 0 {
                        assert(r.samples[i] == rest.samples[i - 1]);
                    }
                }
            } else {
                lemma_run(
                    d,
                    max_len,
                    pos + 4 + len,
                    cur,
                    has_slice || slice,
                    idr || ty == 5,
                );
            }
        },
        _ => {
            if has_slice {
                let u = unit(cur, pos, idr);
                lemma_one_unit(u);
            }
        },
    }
}

/// A start found lies ahead, with room behind it.
pub proof fn lemma_next_start(d: Seq<u8>, q: int, dv: VideoOrgans, prev: Option<int>)
    ensures
        next_start(d, q, dv, prev) matches Some(r) ==> q <= r && r + 5 < d.len() && video_starts(
            d,
            r,
            dv,
            prev,
        ),
    decreases d.len() - q,
{
    if 0 <= q && q + 5 < d.len() && !video_starts(d, q, dv, prev) {
        lemma_next_start(d, q + 1, dv, prev);
    }
}

/// Gaps that lie between `low` and `high`, none empty, in order and without overlap.
pub open spec fn gaps_laid_out(v: Seq<(int, int)>, low: int, high: int) -> bool {
    &&& forall|i: int|
        0 <= i < v.len() ==> low <= (#[trigger] v[i]).0 && 0 < v[i].1 && v[i].0 + v[i].1 <= high
    &&& forall|i: int, j: int|
        0 <= i < j < v.len() ==> (#[trigger] v[i]).0 + v[i].1 <= (#[trigger] v[j]).0
}

proof fn lemma_laid_out_join(a: Seq<Unit>, b: Seq<Unit>, low: int, mid: int, high: int)
    requires
        laid_out(a, low, mid),
        laid_out(b, mid, high),
        low <= mid <= high,
    ensures
        laid_out(a + b, low, high),
{
    let v = a + b;
    assert forall|i: int| 0 <= i < v.len() implies low <= (#[trigger] v[i]).off && 0 <= v[i].size
        && v[i].off + v[i].size <= high by {
        if i < a.len() {
            assert(v[i] == a[i]);
        } else {
            assert(v[i] == b[i - a.len()]);
        }
    }
    assert forall|i: int, j: int| 0 <= i < j < v.len() implies (#[trigger] v[i]).off + v[i].size <= (
    #[trigger] v[j]).off by {
        if j < a.len() {
            assert(v[i] == a[i] && v[j] == a[j]);
        } else if i < a.len() {
            assert(v[i] == a[i]);
            assert(v[j] == b[j - a.len()]);
        } else {
            assert(v[i] == b[i - a.len()]);
            assert(v[j] == b[j - a.len()]);
        }
    }
}

/// No sample is empty, and none overlaps a gap.
pub open spec fn apart(video: Seq<Unit>, gaps: Seq<(int, int)>) -> bool {
    &&& forall|i: int| 0 <= i < video.len() ==> 0 < (#[trigger] video[i]).size
    &&& forall|i: int, j: int|
        0 <= i < video.len() && 0 <= j < gaps.len() ==> (#[trigger] video[i]).off + video[i].size <= (
        #[trigger] gaps[j]).0 || gaps[j].0 + gaps[j].1 <= video[i].off
}

/// Samples in front of others, and gaps in front of others, stay apart.
proof fn lemma_apart_join(
    run: Seq<Unit>,
    video: Seq<Unit>,
    lead: Seq<(int, int)>,
    gaps: Seq<(int, int)>,
    q: int,
    mid: int,
    high: int,
)
    requires
        apart(video, gaps),
        laid_out(run, q, mid),
        laid_out(video, mid, high),
        gaps_laid_out(gaps, mid, high),
        q <= mid,
        forall|i: int| 0 <= i < run.len() ==> 0 < (#[trigger] run[i]).size,
        forall|j: int| 0 <= j < lead.len() ==> (#[trigger] lead[j]).0 + lead[j].1 <= q,
    ensures
        apart(run + video, lead + gaps),
{
    let v = run + video;
    let g = lead + gaps;
    assert forall|i: int| 0 <= i < v.len() implies 0 < (#[trigger] v[i]).size by {
        if i < run.len() {
            assert(v[i] == run[i]);
        } else {
            assert(v[i] == video[i - run.len()]);
        }
    }
    assert forall|i: int, j: int| 0 <= i < v.len() && 0 <= j < g.len() implies (#[trigger] v[i]).off
        + v[i].size <= (#[trigger] g[j]).0 || g[j].0 + g[j].1 <= v[i].off by {
        if i < run.len() {
            assert(v[i] == run[i]);
        } else {
            assert(v[i] == video[i - run.len()]);
        }
        if j < lead.len() {
            assert(g[j] == lead[j]);
        } else {
            assert(g[j] == gaps[j - lead.len()]);
        }
    }
}

proof fn lemma_parts(d: Seq<u8>, dv: VideoOrgans, pos: int, garbage: bool, prev: Option<int>)
    requires
        0 <= pos <= d.len(),
    ensures
        ({
            let p = parts_from(d, dv, pos, garbage, prev);
            &&& laid_out(p.video, pos, d.len() as int)
            &&& gaps_laid_out(p.gaps, pos, d.len() as int)
            &&& apart(p.video, p.gaps)
            &&& p.torn >= 0
            &&& gap_bytes(p.gaps) >= 0
            &&& video_bytes(p.video) + gap_bytes(p.gaps) + p.torn == d.len() - pos
        }),
    decreases d.len() - pos,
{
    let n = d.len() as int;
    let p = parts_from(d, dv, pos, garbage, prev);
    if pos < n {
        match next_start(d, pos, dv, prev) {
            None => {
                let g = seq![(pos, n - pos)];
                lemma_one_gap((pos, n - pos));
                assert(g + Seq::<(int, int)>::empty() =~= g);
            },
            Some(q) => {
                lemma_next_start(d, pos, dv, prev);
                lemma_run(d, longest_nal(dv), q, q, false, false);
                let run = run_at(d, q, dv);
                let prev2 = match dv.sps {
                    Some(sps) => sample_frame_num(d, run.samples.last(), sps),
                    None => prev,
                };
                let rest = if run.torn {
                    Parts { video: seq![], gaps: seq![], torn: n - run.end }
                } else {
                    parts_from(d, dv, run.end, false, prev2)
                };
                if !run.torn {
                    lemma_parts(d, dv, run.end, false, prev2);
                }
                lemma_video_bytes_add(run.samples, rest.video);
                lemma_laid_out_join(run.samples, rest.video, q, run.end, n);
                let g = seq![(pos, q - pos)];
                lemma_one_gap((pos, q - pos));
                lemma_gap_bytes_add(g, rest.gaps);
                let none = Seq::<(int, int)>::empty();
                lemma_apart_join(run.samples, rest.video, g, rest.gaps, q, run.end, n);
                lemma_apart_join(run.samples, rest.video, none, rest.gaps, q, run.end, n);
                assert(none + rest.gaps =~= rest.gaps);
                let all = g + rest.gaps;
                if q > pos && !garbage {
                    assert forall|i: int| 0 <= i < all.len() implies pos <= (#[trigger] all[i]).0 && 0
                        < all[i].1 && all[i].0 + all[i].1 <= n by {
                        if i > 0 {
                            assert(all[i] == rest.gaps[i - 1]);
                        }
                    }
                    assert forall|i: int, j: int| 0 <= i < j < all.len() implies (
                    #[trigger] all[i]).0 + all[i].1 <= (#[trigger] all[j]).0 by {
                        assert(all[j] == rest.gaps[j - 1]);
                        if i > 0 {
                            assert(all[i] == rest.gaps[i - 1]);
                        }
                    }
                }
            },
        }
    }
}

/// Nothing of the payload is lost from sight or counted twice: samples and gaps lie
/// in order and without overlap, and together with the torn bytes they are all of it.
pub proof fn law_walk_accounts_for_every_byte(d: Seq<u8>, dv: VideoOrgans, head_torn: bool)
    ensures
        ({
            let p = parts_from(d, dv, 0, head_torn, None);
            &&& laid_out(p.video, 0, d.len() as int)
            &&& gaps_laid_out(p.gaps, 0, d.len() as int)
            &&& apart(p.video, p.gaps)
            &&& p.torn >= 0
            &&& video_bytes(p.video) + gap_bytes(p.gaps) + p.torn == d.len()
        }),
{
    lemma_parts(d, dv, 0, head_torn, None);
}

/// A frame_num is below 2^log2_max_frame_num.
proof fn lemma_frame_num_bound(d: Seq<u8>, i: int, idr: bool, sps: SpsInfo)
    ensures
        frame_num_of(d, i, idr, sps) matches Some(f) ==> 0 <= f < pow2(
            sps.log2_max_frame_num as nat,
        ),
{
    if let Some(f) = frame_num_of(d, i, idr, sps) {
        let end = if i + 21 <= d.len() {
            i + 21
        } else {
            d.len() as int
        };
        let s = bits_of(unescaped(d.subrange(i + 5, end), 0));
        let (_, p1) = read_ue(s, 0).unwrap();
        let (_, p2) = read_ue(s, p1).unwrap();
        let (_, p3) = read_ue(s, p2).unwrap();
        let p4 = if sps.separate_colour_plane {
            p3 + 2
        } else {
            p3
        };
        crate::bits::lemma_bits_value_bound(s.subrange(p4, p4 + sps.log2_max_frame_num));
    }
}

/// 2^n, where 64 bits hold it.
fn power_of_two(n: u32) -> (r: u64)
    requires
        n < 64,
    ensures
        r == pow2(n as nat),
{
    let mut r: u64 = 1;
    let mut i: u32 = 0;
    proof {
        lemma2_to64();
    }
    while i < n
        invariant
            i <= n < 64,
            r == pow2(i as nat),
        decreases n - i,
    {
        proof {
            lemma2_to64();
            lemma_pow2_unfold((i + 1) as nat);
            lemma_pow2_strictly_increases((i + 1) as nat, 64);
        }
        r = r * 2;
        i += 1;
    }
    r
}

/// Whether `num` is at most four steps ahead of `prev`, counted modulo 2^log2.
fn steps_on(num: u64, prev: u64, log2: u32) -> (r: bool)
    requires
        num < pow2(log2 as nat),
        prev < pow2(log2 as nat),
    ensures
        r == ((num - prev) % pow2(log2 as nat) as int <= 4),
{
    let ghost m = pow2(log2 as nat) as int;
    if num >= prev {
        assert((num - prev) % m == num - prev) by (nonlinear_arith)
            requires
                0 <= num - prev < m,
        ;
        return num - prev <= 4;
    }
    assert((num - prev) % m == num - prev + m) by (nonlinear_arith)
        requires
            0 <= num - prev + m < m,
            m > 0,
    ;
    if log2 < 64 {
        let m64: u64 = power_of_two(log2);
        m64 - (prev - num) <= 4
    } else {
        proof {
            lemma2_to64();
            lemma_pow2_unfold(65);
            if log2 > 65 {
                lemma_pow2_strictly_increases(65, log2 as nat);
            }
        }
        log2 == 64 && u64::MAX - (prev - num) <= 3
    }
}

/// Position and IDR-ness of a sample's first VCL NAL.
fn first_vcl(d: &[u8], s: &Sample) -> (r: Option<(usize, bool)>)
    requires
        s.off + s.size <= d@.len(),
    ensures
        match r {
            Some((p, idr)) => first_slice(d@, s@) == Some((p as int, idr)) && p + 5 <= s.off + s.size,
            None => first_slice(d@, s@) is None,
        },
{
    let size: u64 = s.size as u64 % 0x1_0000_0000;
    assert(size <= s.size);
    assert(s.off + s.size <= d.len());
    let end: usize = s.off + size as usize;
    let mut p: usize = s.off;
    while p <= end && end - p >= 5
        invariant
            end == s.off + s.size as int % 0x1_0000_0000,
            end <= s.off + s.size <= d@.len(),
            first_slice(d@, s@) == first_slice_in(d@, p as int, end as int),
        decreases
                (if p < end {
                    end - p
                } else {
                    0
                }),
    {
        let len: u32 = be32(d, p);
        let ty: u8 = d[p + 4] % 32;
        if ty == 1 || ty == 5 {
            return Some((p, ty == 5));
        }
        if len as u64 > (end - p - 4) as u64 {
            assert(first_slice_in(d@, p + 4 + len, end as int) is None);
            return None;
        }
        p = p + 4 + len as usize;
    }
    None
}

/// Scans forward from `from` for the next position where a video sample
/// verifiably begins.
fn next_video_start(d: &[u8], from: usize, dv: &DonorVideo, prev: Option<u64>) -> (r: Option<
    (usize, AuWalk),
>)
    requires
        dv.sps matches Some(sps) ==> prev matches Some(x) ==> x < pow2(sps.log2_max_frame_num as nat),
    ensures
        match r {
            Some((q, run)) => {
                &&& next_start(d@, from as int, dv@, wide_num(prev)) == Some(q as int)
                &&& run@ == run_at(d@, q as int, dv@)
                &&& run.samples@.len() > 0
                &&& from <= q < run.end <= d@.len()
                &&& run.samples@.last().off + run.samples@.last().size <= d@.len()
            },
            None => next_start(d@, from as int, dv@, wide_num(prev)) is None,
        },
{
    let ghost wp = wide_num(prev);
    let mut q: usize = from;
    while d.len() > 5 && q < d.len() - 5
        invariant
            from <= q,
            wp == wide_num(prev),
            dv.sps matches Some(sps) ==> prev matches Some(x) ==> x < pow2(
                sps.log2_max_frame_num as nat,
            ),
            next_start(d@, from as int, dv@, wp) == next_start(d@, q as int, dv@, wp),
        decreases d.len() - q,
    {
        if au_start_candidate(d, q, dv) {
            let run = walk_aus(d, q, dv);
            assert(run@.samples == units(run.samples@));
            assert(units(run.samples@).len() == run.samples@.len());
            if run.samples.len() > 0 {
                // The candidate may have opened with a non-slice NAL (SEI etc.);
                // hold the first actual slice to the same standard.
                let first = run.samples[0];
                assert(units(run.samples@)[0] == first@);
                let sane = match &dv.sps {
                    Some(sps) => match first_vcl(d, &first) {
                        Some((p, idr)) => match slice_frame_num(d, p, idr, sps) {
                            Some(num) => {
                                proof {
                                    lemma_frame_num_bound(d@, p as int, idr, *sps);
                                }
                                if idr {
                                    num == 0  // the spec says IDR frame_num is 0; believe it
                                } else {
                                    match prev {
                                        Some(x) => steps_on(num, x, sps.log2_max_frame_num),
                                        None => true,
                                    }
                                }
                            },
                            None => false,
                        },
                        None => false,
                    },
                    None => true,
                };
                if sane {
                    assert(units(run.samples@)[run.samples@.len() - 1] == run.samples@.last()@);
                    return Some((q, run));
                }
            }
        }
        q += 1;
    }
    None
}

/// The number, widened.
pub open spec fn wide_num(v: Option<u64>) -> Option<int> {
    match v {
        Some(x) => Some(x as int),
        None => None,
    }
}

struct Walk {
    video: Vec<Sample>,
    /// Non-video byte runs (offset, len): audio chunks, in muxing order.
    gaps: Vec<(usize, usize)>,
    /// Bytes attributable to nothing: torn samples, head fragments.
    torn: u64,
}

impl View for Walk {
    type V = Parts;

    closed spec fn view(&self) -> Parts {
        Parts { video: units(self.video@), gaps: wide_gaps(self.gaps@), torn: self.torn as int }
    }
}

/// A stretch that is no video, by itself.
pub open spec fn only_gap(pos: int, q: int, garbage: bool) -> Parts {
    with_gap(pos, q, garbage, Parts { video: seq![], gaps: seq![], torn: 0 })
}

/// Parts followed by other parts.
pub open spec fn parts_join(a: Parts, b: Parts) -> Parts {
    Parts { video: a.video + b.video, gaps: a.gaps + b.gaps, torn: a.torn + b.torn }
}

/// Appends a stretch that is no video.
fn note_gap(w: &mut Walk, pos: usize, q: usize, garbage: bool)
    requires
        pos <= q,
        garbage ==> old(w)@.torn + (q - pos) <= u64::MAX,
    ensures
        final(w)@ == parts_join(old(w)@, only_gap(pos as int, q as int, garbage)),
{
    let ghost before = w@;
    let ghost none = Seq::<(int, int)>::empty();
    assert(before.video + Seq::<Unit>::empty() =~= before.video);
    assert(before.gaps + none =~= before.gaps);
    if q > pos {
        if garbage {
            w.torn = w.torn + (q - pos) as u64;
        } else {
            w.gaps.push((pos, q - pos));
            let ghost one = seq![(pos as int, q - pos)];
            assert(one + none =~= one);
            assert(wide_gaps(w.gaps@) =~= before.gaps + one);
        }
    }
}

/// Appends the samples of a run.
fn note_run(w: &mut Walk, samples: Vec<Sample>, torn: u64)
    requires
        old(w)@.torn + torn <= u64::MAX,
    ensures
        final(w)@ == parts_join(
            old(w)@,
            Parts { video: units(samples@), gaps: seq![], torn: torn as int },
        ),
{
    let ghost before = w@;
    let mut more = samples;
    w.video.append(&mut more);
    w.torn = w.torn + torn;
    assert(units(w.video@) =~= before.video + units(samples@));
    assert(before.gaps + Seq::<(int, int)>::empty() =~= before.gaps);
}

proof fn lemma_join_assoc(a: Parts, b: Parts, c: Parts)
    ensures
        parts_join(parts_join(a, b), c) == parts_join(a, parts_join(b, c)),
{
    assert(a.video + b.video + c.video =~= a.video + (b.video + c.video));
    assert(a.gaps + b.gaps + c.gaps =~= a.gaps + (b.gaps + c.gaps));
}

/// Putting a gap in front of some parts joins it to them.
proof fn lemma_with_gap(pos: int, q: int, garbage: bool, rest: Parts)
    ensures
        with_gap(pos, q, garbage, rest) == parts_join(only_gap(pos, q, garbage), rest),
{
    let one = seq![(pos, q - pos)];
    assert(one + Seq::<(int, int)>::empty() =~= one);
    assert(Seq::<(int, int)>::empty() + rest.gaps =~= rest.gaps);
    assert(Seq::<Unit>::empty() + rest.video =~= rest.video);
}

proof fn lemma_torn_bound(d: Seq<u8>, dv: VideoOrgans, pos: int, garbage: bool, prev: Option<int>)
    requires
        0 <= pos <= d.len(),
    ensures
        0 <= parts_from(d, dv, pos, garbage, prev).torn <= d.len() - pos,
    decreases d.len() - pos,
{
    if pos < d.len() {
        if let Some(q) = next_start(d, pos, dv, prev) {
            lemma_next_start(d, pos, dv, prev);
            lemma_run(d, longest_nal(dv), q, q, false, false);
            let run = run_at(d, q, dv);
            if !run.torn {
                let prev2 = match dv.sps {
                    Some(sps) => sample_frame_num(d, run.samples.last(), sps),
                    None => prev,
                };
                lemma_torn_bound(d, dv, run.end, false, prev2);
            }
        }
    }
}

/// The frame_num of a sample's first slice.
fn find_frame_num(d: &[u8], s: &Sample, sps: &SpsInfo) -> (r: Option<u64>)
    requires
        s.off + s.size <= d@.len(),
    ensures
        wide_num(r) == sample_frame_num(d@, s@, *sps),
        r matches Some(x) ==> x < pow2(sps.log2_max_frame_num as nat),
{
    let (p, idr) = first_vcl(d, s)?;
    proof {
        lemma_frame_num_bound(d@, p as int, idr, *sps);
    }
    slice_frame_num(d, p, idr, sps)
}

fn walk_media(d: &[u8], head_torn: bool, dv: &DonorVideo) -> (r: Walk)
    ensures
        r@ == parts_from(d@, dv@, 0, head_torn, None),
{
    let ghost whole = parts_from(d@, dv@, 0, head_torn, None);
    let ghost none = Parts { video: seq![], gaps: seq![], torn: 0 };
    proof {
        lemma_torn_bound(d@, dv@, 0, head_torn, None);
    }
    let mut w = Walk { video: Vec::new(), gaps: Vec::new(), torn: 0 };
    let mut pos: usize = 0;
    // When the head is torn, the first gap is a wounded sample's tail, not
    // a real chunk. Don't let it masquerade as audio.
    let mut garbage = head_torn;
    // frame_num of the last accepted sample: the continuity baseline.
    let mut prev: Option<u64> = None;
    proof {
        assert(w@.video + whole.video =~= whole.video);
        assert(w@.gaps + whole.gaps =~= whole.gaps);
    }
    while pos < d.len()
        invariant
            pos <= d@.len(),
            none == (Parts { video: seq![], gaps: seq![], torn: 0 }),
            0 <= whole.torn <= d@.len(),
            dv.sps matches Some(sps) ==> prev matches Some(x) ==> x < pow2(
                sps.log2_max_frame_num as nat,
            ),
            whole == parts_join(w@, parts_from(d@, dv@, pos as int, garbage, wide_num(prev))),
        decreases d.len() - pos,
    {
        let ghost here = parts_from(d@, dv@, pos as int, garbage, wide_num(prev));
        match next_video_start(d, pos, dv, prev) {
            Some((q, run)) => {
                let ghost prev2 = match dv.sps {
                    Some(sps) => sample_frame_num(d@, run@.samples.last(), sps),
                    None => wide_num(prev),
                };
                let ghost after = if run.torn {
                    none
                } else {
                    parts_from(d@, dv@, run.end as int, false, prev2)
                };
                let ghost torn = if run.torn {
                    d@.len() - run.end
                } else {
                    0
                };
                let ghost mine = Parts { video: run@.samples, gaps: seq![], torn };
                let ghost gap = only_gap(pos as int, q as int, garbage);
                proof {
                    let rest = if run.torn {
                        Parts { video: seq![], gaps: seq![], torn: d@.len() - run.end }
                    } else {
                        parts_from(d@, dv@, run.end as int, false, prev2)
                    };
                    let both = Parts { video: run@.samples + rest.video, ..rest };
                    assert(both.gaps =~= parts_join(mine, after).gaps);
                    assert(both == parts_join(mine, after));
                    lemma_with_gap(pos as int, q as int, garbage, both);
                    lemma_join_assoc(w@, gap, both);
                    lemma_join_assoc(parts_join(w@, gap), mine, after);
                    if !run.torn {
                        lemma_torn_bound(d@, dv@, run.end as int, false, prev2);
                    }
                }
                note_gap(&mut w, pos, q, garbage);
                garbage = false;
                if let Some(sps) = &dv.sps {
                    let last = run.samples[run.samples.len() - 1];
                    assert(units(run.samples@)[run.samples@.len() - 1] == last@);
                    prev = find_frame_num(d, &last, sps);
                }
                if run.torn {
                    note_run(&mut w, run.samples, (d.len() - run.end) as u64);
                    pos = d.len();
                } else {
                    note_run(&mut w, run.samples, 0);
                    pos = run.end;
                }
            },
            None => {
                let end: usize = d.len();
                note_gap(&mut w, pos, end, garbage);
                pos = end;
                assert(w@.video + none.video =~= w@.video);
                assert(w@.gaps + none.gaps =~= w@.gaps);
            },
        }
    }
    assert(w@.video + none.video =~= w@.video);
    assert(w@.gaps + none.gaps =~= w@.gaps);
    w
}

// ---------------------------------------------------------------------------
// Composition timing: recovering ctts from the slices themselves
//
// B-frames decode in one order and display in another; the lost moov's ctts
// box held the difference. But H.264 slices carry their own display order:
// pic_order_cnt_lsb, sitting a few Exp-Golomb fields into every slice header.
// Parse the donor's SPS (from avcC) for the field widths, read each recovered
// sample's POC, rank them within their GOP, and the ctts regrows.
// ---------------------------------------------------------------------------

/// Where the POC stands in the slice header whose bits are `s`.
pub open spec fn poc_position(s: Seq<bool>, idr: bool, sps: SpsInfo) -> Option<int> {
    match read_ue(s, 0) {
        None => None,
        Some((_, p1)) => match read_ue(s, p1) {
            None => None,
            Some((_, p2)) => match read_ue(s, p2) {
                None => None,
                Some((_, p3)) => {
                    let p4 = if sps.separate_colour_plane {
                        p3 + 2
                    } else {
                        p3
                    };
                    let p5 = p4 + sps.log2_max_frame_num;
                    // the field flag, and behind a set one the bottom flag
                    let p6 = if sps.frame_mbs_only {
                        p5
                    } else if 0 <= p5 < s.len() && s[p5] {
                        p5 + 2
                    } else {
                        p5 + 1
                    };
                    if p6 > s.len() {
                        None
                    } else if idr {
                        match read_ue(s, p6) {
                            Some((_, p7)) => Some(p7),
                            None => None,
                        }
                    } else {
                        Some(p6)
                    }
                },
            },
        },
    }
}

/// The POC in the slice header whose bits are `s`; there is one only in type 0.
pub open spec fn header_poc(s: Seq<bool>, idr: bool, sps: SpsInfo) -> Option<int> {
    match poc_position(s, idr, sps) {
        Some(p) => match read_bits(s, p, sps.log2_max_poc_lsb as nat) {
            Some((v, _)) => if sps.poc_type == 0 {
                Some(v)
            } else {
                None
            },
            None => None,
        },
        None => None,
    }
}

/// Whether a sample's first slice is an IDR, and its POC, looked for in the first
/// 32 bytes of the slice.
pub open spec fn sample_poc(d: Seq<u8>, u: Unit, sps: SpsInfo) -> Option<(bool, int)> {
    match first_slice(d, u) {
        None => None,
        Some((p, idr)) => {
            let e1 = p + 4 + be32_at(d, p);
            let e2 = u.off + u.size % 0x1_0000_0000;
            let e3 = p + 37;
            let e = if e1 <= e2 && e1 <= e3 {
                e1
            } else if e2 <= e3 {
                e2
            } else {
                e3
            };
            if e < p + 5 || e > d.len() {
                None
            } else {
                match header_poc(bits_of(unescaped(d.subrange(p + 5, e), 0)), idr, sps) {
                    Some(v) => Some((idr, v)),
                    None => None,
                }
            }
        },
    }
}

/// The POCs of the samples, if all have one.
pub open spec fn sample_pocs(d: Seq<u8>, v: Seq<Unit>, sps: SpsInfo) -> Option<Seq<(bool, int)>>
    decreases v.len(),
{
    if v.len() == 0 {
        Some(seq![])
    } else {
        match (sample_pocs(d, v.drop_last(), sps), sample_poc(d, v.last(), sps)) {
            (Some(before), Some(poc)) => Some(before.push(poc)),
            _ => None,
        }
    }
}

/// How often the POC counter has rolled over since the last IDR, up to sample `i`:
/// it did so where it falls by more than half its range.
pub open spec fn rollovers(pocs: Seq<(bool, int)>, i: int, log2: nat) -> int
    decreases i,
{
    if i <= 0 || pocs[i].0 {
        0
    } else {
        rollovers(pocs, i - 1, log2) + if pocs[i - 1].1 - pocs[i].1 > pow2(log2) / 2 {
            1int
        } else {
            0int
        }
    }
}

/// The display position of sample `i` within its GOP, in POC steps.
pub open spec fn display_key(pocs: Seq<(bool, int)>, i: int, log2: nat) -> int {
    rollovers(pocs, i, log2) * pow2(log2) + pocs[i].1
}

/// The display positions of all samples.
pub open spec fn display_keys(pocs: Seq<(bool, int)>, log2: nat) -> Seq<int> {
    Seq::new(pocs.len(), |i: int| display_key(pocs, i, log2))
}

/// The sample that the GOP of sample `i` starts with: the last IDR, or the first
/// sample of all.
pub open spec fn gop_start(pocs: Seq<(bool, int)>, i: int) -> int
    decreases i,
{
    if i <= 0 || pocs[i].0 {
        i
    } else {
        gop_start(pocs, i - 1)
    }
}

/// The sample behind the GOP of sample `i`: the next IDR, or the end.
pub open spec fn gop_end(pocs: Seq<(bool, int)>, i: int) -> int
    decreases pocs.len() - i,
{
    if i + 1 >= pocs.len() || pocs[i + 1].0 {
        i + 1
    } else {
        gop_end(pocs, i + 1)
    }
}

/// Whether sample `a` is shown before sample `b`: by display position, and where
/// that is the same, in decode order.
pub open spec fn shown_before(keys: Seq<int>, a: int, b: int) -> bool {
    keys[a] < keys[b] || (keys[a] == keys[b] && a < b)
}

/// How many of the samples from `from` to `to - 1` are shown before sample `x`.
pub open spec fn count_before(keys: Seq<int>, x: int, from: int, to: int) -> int
    decreases to - from,
{
    if to <= from {
        0
    } else {
        count_before(keys, x, from, to - 1) + if shown_before(keys, to - 1, x) {
            1int
        } else {
            0int
        }
    }
}

/// The display rank of sample `i` among all samples: GOPs follow one another, and
/// within one, samples are ranked by display position.
pub open spec fn display_rank(pocs: Seq<(bool, int)>, keys: Seq<int>, i: int) -> int {
    let g = gop_start(pocs, i);
    g + count_before(keys, i, g, gop_end(pocs, i))
}

/// The reorder delay of the first `n` samples: enough to make every composition
/// offset non-negative.
pub open spec fn reorder_delay(ranks: Seq<int>, n: int) -> int
    decreases n,
{
    if n <= 0 {
        0
    } else {
        let before = reorder_delay(ranks, n - 1);
        if n - 1 - ranks[n - 1] > before {
            n - 1 - ranks[n - 1]
        } else {
            before
        }
    }
}

/// The display ranks of all samples.
pub open spec fn display_ranks(pocs: Seq<(bool, int)>, log2: nat) -> Seq<int> {
    let keys = display_keys(pocs, log2);
    Seq::new(pocs.len(), |i: int| display_rank(pocs, keys, i))
}

/// The composition offset of every sample, in ticks kept to 32 bits.
pub open spec fn offsets_of(ranks: Seq<int>, delta: u32) -> Seq<u32> {
    let delay = reorder_delay(ranks, ranks.len() as int);
    Seq::new(
        ranks.len(),
        |i: int| (((ranks[i] + delay - i) * delta) % 0x1_0000_0000) as u32,
    )
}

/// Per-sample composition offsets, recovered from the slice POCs. None if anything
/// resists.
pub open spec fn ctts_of(d: Seq<u8>, v: Seq<Unit>, dv: VideoOrgans) -> Option<Seq<u32>> {
    match dv.sps {
        None => None,
        Some(sps) => match sample_pocs(d, v, sps) {
            None => None,
            Some(pocs) => if pocs.len() == 0 || sps.poc_type != 0 {
                None
            } else {
                Some(offsets_of(display_ranks(pocs, sps.log2_max_poc_lsb as nat), dv.sample_delta))
            },
        },
    }
}

fn read_poc(b: &mut Bits, idr: bool, sps: &SpsInfo) -> (r: Option<u64>)
    requires
        old(b).wf(),
        old(b).at() == 0,
    ensures
        wide_num(r) == header_poc(old(b).bits(), idr, *sps),
{
    b.ue()?;  // first_mb_in_slice
    b.ue()?;  // slice_type
    b.ue()?;  // pps_id
    if sps.separate_colour_plane {
        b.u(2)?;
    }
    b.u(sps.log2_max_frame_num)?;  // frame_num
    if !sps.frame_mbs_only {
        if b.u1()? {
            b.u1()?;  // bottom_field_flag
        }
    }
    if idr {
        b.ue()?;  // idr_pic_id
    }
    if sps.poc_type != 0 {
        return None;
    }
    b.u(sps.log2_max_poc_lsb)
}

/// POC (pic_order_cnt_lsb) of a sample's first slice, plus whether it's IDR.
fn first_slice_poc(media: &[u8], s: &Sample, sps: &SpsInfo) -> (r: Option<(bool, u64)>)
    requires
        s.off + s.size <= media@.len(),
    ensures
        match r {
            Some((idr, v)) => sample_poc(media@, s@, *sps) == Some((idr, v as int)),
            None => sample_poc(media@, s@, *sps) is None,
        },
{
    let (p, idr) = first_vcl(media, s)?;
    assert(s.off + s.size <= media.len());
    let len: u32 = be32(media, p);
    let size: u64 = s.size as u64 % 0x1_0000_0000;
    let e2: usize = s.off + size as usize;
    proof {
        lemma_slice_in_range(media@, s.off as int, e2 as int);
    }
    let mut e: usize = e2;
    if e - p > 37 {
        e = p + 37;
    }
    if (len as u64) < (e - p - 4) as u64 {
        e = p + 4 + len as usize;
    }
    if e - p < 5 {
        return None;
    }
    let rbsp = strip_emulation(&media[p + 5..e]);
    let mut b = Bits::new(&rbsp);
    let v: u64 = read_poc(&mut b, idr, sps)?;
    Some((idr, v))
}

proof fn lemma_slice_in_range(d: Seq<u8>, p: int, end: int)
    ensures
        first_slice_in(d, p, end) matches Some((q, idr)) ==> p <= q && q + 5 <= end <= d.len(),
    decreases
            (if p < end {
                end - p
            } else {
                0
            }),
{
    if 0 <= p && p + 5 <= end && end <= d.len() {
        let ty = d[p + 4] % 32;
        if ty != 1 && ty != 5 {
            lemma_slice_in_range(d, p + 4 + be32_at(d, p), end);
        }
    }
}

/// POCs as plain pairs.
pub open spec fn wide_pocs(v: Seq<(bool, u64)>) -> Seq<(bool, int)> {
    v.map_values(|p: (bool, u64)| (p.0, p.1 as int))
}

proof fn lemma_pocs_prefix(d: Seq<u8>, v: Seq<Unit>, sps: SpsInfo, n: int)
    requires
        0 <= n <= v.len(),
        sample_pocs(d, v.take(n), sps) is None,
    ensures
        sample_pocs(d, v, sps) is None,
    decreases v.len() - n,
{
    if n < v.len() {
        assert(v.take(n + 1).drop_last() =~= v.take(n));
        lemma_pocs_prefix(d, v, sps, n + 1);
    } else {
        assert(v.take(n) =~= v);
    }
}

fn find_pocs(media: &[u8], samples: &[Sample], sps: &SpsInfo) -> (r: Option<Vec<(bool, u64)>>)
    requires
        forall|i: int|
            0 <= i < samples@.len() ==> (#[trigger] samples@[i]).off + samples@[i].size <= media@.len(),
    ensures
        match r {
            Some(v) => sample_pocs(media@, units(samples@), *sps) == Some(wide_pocs(v@)),
            None => sample_pocs(media@, units(samples@), *sps) is None,
        },
{
    let ghost list = units(samples@);
    let mut out: Vec<(bool, u64)> = Vec::new();
    let mut i: usize = 0;
    assert(list.take(0) =~= Seq::<Unit>::empty());
    assert(wide_pocs(out@) =~= Seq::<(bool, int)>::empty());
    while i < samples.len()
        invariant
            i <= samples@.len(),
            list == units(samples@),
            forall|i: int|
                0 <= i < samples@.len() ==> (#[trigger] samples@[i]).off + samples@[i].size
                    <= media@.len(),
            sample_pocs(media@, list.take(i as int), *sps) == Some(wide_pocs(out@)),
        decreases samples.len() - i,
    {
        let s = samples[i];
        assert(list.take(i + 1).drop_last() =~= list.take(i as int));
        assert(list.take(i + 1).last() == s@);
        match first_slice_poc(media, &s, sps) {
            Some(poc) => {
                let ghost before = wide_pocs(out@);
                out.push(poc);
                assert(wide_pocs(out@) =~= before.push((poc.0, poc.1 as int)));
            },
            None => {
                proof {
                    lemma_pocs_prefix(media@, list, *sps, i + 1);
                }
                return None;
            },
        }
        i += 1;
    }
    assert(list.take(i as int) =~= list);
    Some(out)
}

proof fn lemma_count_same(keys: Seq<int>, x: int, y: int, from: int, to: int)
    requires
        forall|j: int|
            from <= j < to ==> #[trigger] shown_before(keys, j, x) == shown_before(keys, j, y),
    ensures
        count_before(keys, x, from, to) == count_before(keys, y, from, to),
    decreases to - from,
{
    if from < to {
        lemma_count_same(keys, x, y, from, to - 1);
        assert(shown_before(keys, to - 1, x) == shown_before(keys, to - 1, y));
    }
}

proof fn lemma_count_all(keys: Seq<int>, x: int, from: int, to: int)
    requires
        from <= to,
        forall|j: int| from <= j < to ==> #[trigger] shown_before(keys, j, x),
    ensures
        count_before(keys, x, from, to) == to - from,
    decreases to - from,
{
    if from < to {
        lemma_count_all(keys, x, from, to - 1);
        assert(shown_before(keys, to - 1, x));
    }
}

/// Whether sample `j` is in the list.
spec fn in_list(order: Seq<usize>, j: int) -> bool {
    exists|r: int| 0 <= r < order.len() && #[trigger] order[r] == j
}

/// A list of the samples from `g` to `n - 1` in the order in which they are shown.
spec fn in_order(order: Seq<usize>, keys: Seq<int>, g: int, n: int) -> bool {
    &&& order.len() == n - g
    &&& forall|r: int| 0 <= r < order.len() ==> g <= #[trigger] order[r] < n
    &&& forall|r: int, s: int|
        0 <= r < s < order.len() ==> shown_before(
            keys,
            #[trigger] order[r] as int,
            #[trigger] order[s] as int,
        )
    &&& forall|j: int| g <= j < n ==> #[trigger] in_list(order, j)
    &&& forall|r: int|
        0 <= r < order.len() ==> count_before(keys, #[trigger] order[r] as int, g, n) == r
}

/// Putting sample `n` behind everything that is not shown after it keeps the order.
proof fn lemma_insert_in_order(order: Seq<usize>, keys: Seq<int>, g: int, n: usize, p: int)
    requires
        0 <= g <= n,
        n < keys.len(),
        in_order(order, keys, g, n as int),
        0 <= p <= order.len(),
        forall|r: int| 0 <= r < p ==> keys[#[trigger] order[r] as int] <= keys[n as int],
        forall|r: int| p <= r < order.len() ==> keys[#[trigger] order[r] as int] > keys[n as int],
    ensures
        in_order(order.insert(p, n), keys, g, n + 1),
{
    let new = order.insert(p, n);
    assert forall|j: int| g <= j < n + 1 implies #[trigger] in_list(new, j) by {
        if j == n {
            assert(new[p] == n);
        } else {
            assert(in_list(order, j));
            let r = choose|r: int| 0 <= r < order.len() && #[trigger] order[r] == j;
            if r < p {
                assert(new[r] == j);
            } else {
                assert(new[r + 1] == j);
            }
        }
    }
    assert(count_before(keys, n as int, g, n as int) == p) by {
        if p < order.len() {
            let y = order[p] as int;
            assert forall|j: int| g <= j < n implies #[trigger] shown_before(keys, j, n as int)
                == shown_before(keys, j, y) by {
                assert(in_list(order, j));
                let t = choose|t: int| 0 <= t < order.len() && #[trigger] order[t] == j;
                if t < p {
                    assert(shown_before(keys, order[t] as int, order[p] as int));
                } else if t > p {
                    assert(shown_before(keys, order[p] as int, order[t] as int));
                }
            }
            lemma_count_same(keys, n as int, y, g, n as int);
        } else {
            assert forall|j: int| g <= j < n implies #[trigger] shown_before(keys, j, n as int) by {
                assert(in_list(order, j));
                let t = choose|t: int| 0 <= t < order.len() && #[trigger] order[t] == j;
            }
            lemma_count_all(keys, n as int, g, n as int);
        }
    }
    assert forall|r: int| 0 <= r < new.len() implies count_before(
        keys,
        #[trigger] new[r] as int,
        g,
        n + 1,
    ) == r by {
        let x = new[r] as int;
        assert(count_before(keys, x, g, n + 1) == count_before(keys, x, g, n as int)
            + if shown_before(keys, n as int, x) {
            1int
        } else {
            0int
        });
        if r < p {
            assert(new[r] == order[r]);
        } else if r > p {
            assert(new[r] == order[r - 1]);
        }
    }
    assert forall|r: int, s: int| 0 <= r < s < new.len() implies shown_before(
        keys,
        #[trigger] new[r] as int,
        #[trigger] new[s] as int,
    ) by {
        if s < p {
            assert(new[r] == order[r] && new[s] == order[s]);
        } else if s == p {
            assert(new[r] == order[r]);
        } else {
            assert(new[s] == order[s - 1]);
            if r < p {
                assert(new[r] == order[r]);
            } else if r > p {
                assert(new[r] == order[r - 1]);
            }
        }
    }
    assert forall|r: int| 0 <= r < new.len() implies g <= #[trigger] new[r] < n + 1 by {
        if r < p {
            assert(new[r] == order[r]);
        } else if r > p {
            assert(new[r] == order[r - 1]);
        }
    }
}

/// Keys as mathematical integers.
spec fn wide_keys(v: Seq<u128>) -> Seq<int> {
    v.map_values(|k: u128| k as int)
}

/// The samples from `g` to `e - 1` in the order in which they are shown.
fn order_gop(keys: &[u128], g: usize, e: usize) -> (order: Vec<usize>)
    requires
        g <= e <= keys@.len(),
    ensures
        in_order(order@, wide_keys(keys@), g as int, e as int),
{
    let ghost wk = wide_keys(keys@);
    let mut order: Vec<usize> = Vec::new();
    let mut n: usize = g;
    while n < e
        invariant
            g <= n <= e <= keys@.len(),
            wk == wide_keys(keys@),
            in_order(order@, wk, g as int, n as int),
        decreases e - n,
    {
        let mut p: usize = order.len();
        while p > 0 && keys[order[p - 1]] > keys[n]
            invariant
                p <= order@.len(),
                g <= n < e <= keys@.len(),
                wk == wide_keys(keys@),
                in_order(order@, wk, g as int, n as int),
                forall|r: int|
                    p <= r < order@.len() ==> wk[#[trigger] order@[r] as int] > wk[n as int],
            decreases p,
        {
            assert(order@[p - 1] < n);
            p -= 1;
        }
        proof {
            assert forall|r: int| 0 <= r < p implies wk[#[trigger] order@[r] as int] <= wk[n as int] by {
                assert(order@[p - 1] < n);
                assert(wk[order@[p - 1] as int] <= wk[n as int]);
                if r < p - 1 {
                    assert(shown_before(wk, order@[r] as int, order@[p - 1] as int));
                }
            }
            lemma_insert_in_order(order@, wk, g as int, n, p as int);
        }
        order.insert(p, n);
        n += 1;
    }
    order
}

/// Writes down the ranks of the samples from `g` to `e - 1`.
fn rank_gop(keys: &[u128], g: usize, e: usize, ranks: &mut Vec<usize>)
    requires
        g <= e <= keys@.len(),
        old(ranks)@.len() == keys@.len(),
    ensures
        final(ranks)@.len() == keys@.len(),
        forall|i: int|
            g <= i < e ==> #[trigger] final(ranks)@[i] == g + count_before(
                wide_keys(keys@),
                i,
                g as int,
                e as int,
            ),
        forall|i: int|
            0 <= i < keys@.len() && !(g <= i < e) ==> #[trigger] final(ranks)@[i] == old(ranks)@[i],
{
    let ghost wk = wide_keys(keys@);
    let order = order_gop(keys, g, e);
    let mut r: usize = 0;
    while r < order.len()
        invariant
            r <= order@.len(),
            g <= e <= keys@.len(),
            wk == wide_keys(keys@),
            in_order(order@, wk, g as int, e as int),
            ranks@.len() == keys@.len(),
            forall|t: int| 0 <= t < r ==> ranks@[#[trigger] order@[t] as int] == g + t,
            forall|i: int|
                0 <= i < keys@.len() && !(g <= i < e) ==> #[trigger] ranks@[i] == old(ranks)@[i],
        decreases order.len() - r,
    {
        let x: usize = order[r];
        assert(g <= order@[r as int] < e);
        assert(order@.len() == e - g);
        proof {
            assert forall|t: int| 0 <= t < r implies #[trigger] order@[t] != x by {
                assert(shown_before(wk, order@[t] as int, order@[r as int] as int));
            }
        }
        ranks.set(x, g + r);
        r += 1;
    }
    proof {
        assert forall|i: int| g <= i < e implies #[trigger] ranks@[i] == g + count_before(
            wk,
            i,
            g as int,
            e as int,
        ) by {
            assert(in_list(order@, i));
            let t = choose|t: int| 0 <= t < order@.len() && #[trigger] order@[t] == i;
            assert(count_before(wk, order@[t] as int, g as int, e as int) == t);
        }
    }
}

/// A GOP that starts at `g` and ends at `e` is the GOP of every sample in it.
proof fn lemma_gop(pocs: Seq<(bool, int)>, g: int, e: int, i: int)
    requires
        0 <= g <= i < e <= pocs.len(),
        g == 0 || pocs[g].0,
        e == pocs.len() || pocs[e].0,
        forall|j: int| g < j < e ==> !(#[trigger] pocs[j]).0,
    ensures
        gop_start(pocs, i) == g,
        gop_end(pocs, i) == e,
    decreases e - g,
{
    lemma_gop_start(pocs, g, i);
    lemma_gop_end(pocs, e, i);
}

proof fn lemma_gop_start(pocs: Seq<(bool, int)>, g: int, i: int)
    requires
        0 <= g <= i < pocs.len(),
        g == 0 || pocs[g].0,
        forall|j: int| g < j <= i ==> !(#[trigger] pocs[j]).0,
    ensures
        gop_start(pocs, i) == g,
    decreases i - g,
{
    if g < i {
        assert(!pocs[i].0);
        lemma_gop_start(pocs, g, i - 1);
    }
}

proof fn lemma_gop_end(pocs: Seq<(bool, int)>, e: int, i: int)
    requires
        0 <= i < e <= pocs.len(),
        e == pocs.len() || pocs[e].0,
        forall|j: int| i < j < e ==> !(#[trigger] pocs[j]).0,
    ensures
        gop_end(pocs, i) == e,
    decreases e - i,
{
    if i + 1 < e {
        assert(!pocs[i + 1].0);
        lemma_gop_end(pocs, e, i + 1);
    }
}

/// The display position of every sample.
fn find_keys(pocs: &[(bool, u64)], log2: u32) -> (keys: Vec<u128>)
    ensures
        wide_keys(keys@) == display_keys(wide_pocs(pocs@), log2 as nat),
{
    let ghost wp = wide_pocs(pocs@);
    let ghost m = pow2(log2 as nat) as int;
    proof {
        lemma2_to64();
        if log2 > 64 {
            lemma_pow2_strictly_increases(64, log2 as nat);
            lemma_pow2_unfold(log2 as nat);
            if log2 > 65 {
                lemma_pow2_strictly_increases(64, (log2 - 1) as nat);
            }
        }
    }
    // a counter of more than 64 bits never rolls over
    let range: u128 = if log2 < 64 {
        power_of_two(log2) as u128
    } else if log2 == 64 {
        0x1_0000_0000_0000_0000
    } else {
        0
    };
    let half: u128 = if log2 <= 64 {
        range / 2
    } else {
        0x1_0000_0000_0000_0000
    };
    assert(log2 <= 64 ==> range == m && half == m / 2);
    assert(log2 > 64 ==> m / 2 >= 0x1_0000_0000_0000_0000);
    assert(range <= 0x1_0000_0000_0000_0000) by {
        if log2 < 64 {
            lemma_pow2_strictly_increases(log2 as nat, 64);
        }
    }
    let mut keys: Vec<u128> = Vec::new();
    let mut wraps: u64 = 0;
    let mut i: usize = 0;
    while i < pocs.len()
        invariant
            i <= pocs@.len(),
            wp == wide_pocs(pocs@),
            m == pow2(log2 as nat),
            log2 <= 64 ==> range == m && half == m / 2,
            log2 > 64 ==> m / 2 >= 0x1_0000_0000_0000_0000 && half == 0x1_0000_0000_0000_0000 && wraps
                == 0 && range == 0,
            range <= 0x1_0000_0000_0000_0000,
            wraps <= i,
            i > 0 ==> wraps == rollovers(wp, i - 1, log2 as nat),
            i == 0 ==> wraps == 0,
            keys@.len() == i,
            forall|j: int| 0 <= j < i ==> #[trigger] keys@[j] == display_key(wp, j, log2 as nat),
        decreases pocs.len() - i,
    {
        let (idr, lsb) = pocs[i];
        assert(wp[i as int] == (idr, lsb as int));
        if idr {
            wraps = 0;
        } else if i > 0 {
            let before: u64 = pocs[i - 1].1;
            assert(wp[i - 1].1 == before);
            if before > lsb && (before - lsb) as u128 > half {
                wraps += 1;  // the lsb counter rolled over mid-GOP
            }
        }
        assert(wraps == rollovers(wp, i as int, log2 as nat));
        assert(wraps * range <= 0xffff_ffff_ffff_ffff * 0x1_0000_0000_0000_0000) by (nonlinear_arith)
            requires
                wraps <= 0xffff_ffff_ffff_ffff,
                range <= 0x1_0000_0000_0000_0000,
        ;
        assert(wraps == 0 ==> wraps * range == 0 && wraps * m == 0) by (nonlinear_arith);
        keys.push(wraps as u128 * range + lsb as u128);
        assert(keys@[i as int] == display_key(wp, i as int, log2 as nat));
        i += 1;
    }
    assert(wide_keys(keys@) =~= display_keys(wp, log2 as nat));
    keys
}

/// Ranks as mathematical integers.
spec fn wide_ranks(v: Seq<usize>) -> Seq<int> {
    v.map_values(|r: usize| r as int)
}

/// The display rank of every sample, assigned GOP by GOP.
fn find_ranks(pocs: &[(bool, u64)], log2: u32) -> (ranks: Vec<usize>)
    ensures
        wide_ranks(ranks@) == display_ranks(wide_pocs(pocs@), log2 as nat),
{
    let keys = find_keys(pocs, log2);
    let ghost wp = wide_pocs(pocs@);
    let ghost wk = wide_keys(keys@);
    assert(wk.len() == keys@.len());
    let mut ranks: Vec<usize> = Vec::new();
    let mut n: usize = 0;
    while n < pocs.len()
        invariant
            n <= pocs@.len(),
            ranks@.len() == n,
        decreases pocs.len() - n,
    {
        ranks.push(0);
        n += 1;
    }
    let mut g: usize = 0;
    while g < pocs.len()
        invariant
            g <= pocs@.len(),
            wp == wide_pocs(pocs@),
            wk == wide_keys(keys@),
            wk == display_keys(wp, log2 as nat),
            keys@.len() == pocs@.len(),
            ranks@.len() == pocs@.len(),
            g == 0 || g == pocs@.len() || wp[g as int].0,
            forall|i: int| 0 <= i < g ==> #[trigger] ranks@[i] == display_rank(wp, wk, i),
        decreases pocs.len() - g,
    {
        let mut e: usize = g + 1;
        while e < pocs.len() && !pocs[e].0
            invariant
                g < e <= pocs@.len(),
                wp == wide_pocs(pocs@),
                forall|j: int| g < j < e ==> !(#[trigger] wp[j]).0,
            decreases pocs.len() - e,
        {
            assert(wp[e as int].0 == pocs@[e as int].0);
            e += 1;
        }
        if e < pocs.len() {
            assert(wp[e as int].0 == pocs@[e as int].0);
        }
        let ghost before = ranks@;
        rank_gop(&keys, g, e, &mut ranks);
        proof {
            assert forall|i: int| 0 <= i < e implies #[trigger] ranks@[i] == display_rank(wp, wk, i) by {
                if i >= g {
                    lemma_gop(wp, g as int, e as int, i);
                } else {
                    assert(ranks@[i] == before[i]);
                }
            }
        }
        g = e;
    }
    assert(wide_ranks(ranks@) =~= display_ranks(wp, log2 as nat));
    ranks
}

pub proof fn lemma_delay(ranks: Seq<int>, n: int)
    requires
        0 <= n <= ranks.len(),
        forall|i: int| 0 <= i < ranks.len() ==> 0 <= #[trigger] ranks[i],
    ensures
        0 <= reorder_delay(ranks, n) <= n,
        forall|i: int| 0 <= i < n ==> i - (#[trigger] ranks[i]) <= reorder_delay(ranks, n),
    decreases n,
{
    if n > 0 {
        lemma_delay(ranks, n - 1);
    }
}

/// Per-sample composition offsets (in track ticks), recovered by ranking
/// slice POCs within each IDR-delimited group. None if anything resists.
fn compute_ctts(media: &[u8], samples: &[Sample], dv: &DonorVideo) -> (r: Option<Vec<u32>>)
    requires
        forall|i: int|
            0 <= i < samples@.len() ==> (#[trigger] samples@[i]).off + samples@[i].size <= media@.len(),
    ensures
        match r {
            Some(v) => ctts_of(media@, units(samples@), dv@) == Some(v@),
            None => ctts_of(media@, units(samples@), dv@) is None,
        },
{
    let sps = match &dv.sps {
        Some(sps) => sps,
        None => {
            return None;
        },
    };
    let pocs = find_pocs(media, samples, sps)?;
    assert(wide_pocs(pocs@).len() == pocs@.len());
    if pocs.len() == 0 || sps.poc_type != 0 {
        return None;  // in type 2 decode order IS display order; nothing to recover
    }
    let ranks = find_ranks(&pocs, sps.log2_max_poc_lsb);
    let ghost wr = wide_ranks(ranks@);
    assert(wr.len() == ranks@.len());
    // The reorder delay: enough to make every composition offset non-negative.
    let mut delay: usize = 0;
    let mut i: usize = 0;
    while i < ranks.len()
        invariant
            i <= ranks@.len(),
            wr == wide_ranks(ranks@),
            delay == reorder_delay(wr, i as int),
        decreases ranks.len() - i,
    {
        assert(wr[i as int] == ranks@[i as int]);
        if i > ranks[i] && i - ranks[i] > delay {
            delay = i - ranks[i];
        }
        i += 1;
    }
    proof {
        lemma_delay(wr, wr.len() as int);
    }
    let mut out: Vec<u32> = Vec::new();
    let mut j: usize = 0;
    let ghost delta = dv.sample_delta;
    while j < ranks.len()
        invariant
            j <= ranks@.len(),
            wr == wide_ranks(ranks@),
            wr.len() == ranks@.len(),
            delta == dv.sample_delta,
            delay == reorder_delay(wr, wr.len() as int),
            forall|i: int| 0 <= i < wr.len() ==> i - (#[trigger] wr[i]) <= delay,
            out@.len() == j,
            forall|i: int|
                0 <= i < j ==> #[trigger] out@[i] == ((wr[i] + delay - i) * delta) % 0x1_0000_0000,
        decreases ranks.len() - j,
    {
        assert(wr[j as int] == ranks@[j as int]);
        let step: u128 = ranks[j] as u128 + delay as u128 - j as u128;
        assert(step * delta <= 0x2_0000_0000_0000_0000 * 0x1_0000_0000) by (nonlinear_arith)
            requires
                step <= 0x2_0000_0000_0000_0000,
                delta <= 0x1_0000_0000,
        ;
        assert(step * delta >= 0) by (nonlinear_arith)
            requires
                step >= 0,
                delta >= 0,
        ;
        out.push(((step * dv.sample_delta as u128) % 0x1_0000_0000) as u32);
        j += 1;
    }
    assert(out@ =~= offsets_of(wr, dv.sample_delta));
    Some(out)
}

// ---------------------------------------------------------------------------
// Rebuilding the index
// ---------------------------------------------------------------------------

/// The low 24 bits of `v`, most significant byte first.
pub open spec fn be24_bytes(v: int) -> Seq<u8> {
    seq![((v / 0x1_0000) % 0x100) as u8, ((v / 0x100) % 0x100) as u8, (v % 0x100) as u8]
}

/// A box with a version and flags.
pub open spec fn full_box_bytes(fourcc: Seq<u8>, version: u8, flags: int, body: Seq<u8>) -> Seq<u8> {
    box_bytes(fourcc, seq![version] + be24_bytes(flags) + body)
}

fn full_box(fourcc: &[u8; 4], version: u8, flags: u32, body: &[u8]) -> (b: Vec<u8>)
    ensures
        b@ == full_box_bytes(fourcc@, version, flags as int, body@),
{
    let mut inner: Vec<u8> = Vec::new();
    inner.push(version);
    inner.push(((flags / 0x1_0000) % 0x100) as u8);
    inner.push(((flags / 0x100) % 0x100) as u8);
    inner.push((flags % 0x100) as u8);
    push_all(&mut inner, body);
    assert(inner@ =~= seq![version] + be24_bytes(flags as int) + body@);
    boxed(fourcc, &inner)
}

/// 32-bit numbers, one behind the other.
pub open spec fn words(v: Seq<int>) -> Seq<u8>
    decreases v.len(),
{
    if v.len() == 0 {
        seq![]
    } else {
        words(v.drop_last()) + be32_bytes(v.last())
    }
}

/// 64-bit numbers, one behind the other.
pub open spec fn longs(v: Seq<int>) -> Seq<u8>
    decreases v.len(),
{
    if v.len() == 0 {
        seq![]
    } else {
        longs(v.drop_last()) + be64_bytes(v.last())
    }
}

/// Pairs of 32-bit numbers, one behind the other.
pub open spec fn word_pairs(v: Seq<(int, int)>) -> Seq<u8>
    decreases v.len(),
{
    if v.len() == 0 {
        seq![]
    } else {
        word_pairs(v.drop_last()) + be32_bytes(v.last().0) + be32_bytes(v.last().1)
    }
}

/// The chunk offsets, in 32 bits each if they all fit.
pub open spec fn chunk_offset_bytes(offsets: Seq<int>) -> Seq<u8> {
    if forall|i: int| 0 <= i < offsets.len() ==> #[trigger] offsets[i] <= u32::MAX {
        full_box_bytes(STCO@, 0, 0, be32_bytes(offsets.len() as int) + words(offsets))
    } else {
        full_box_bytes(CO64@, 0, 0, be32_bytes(offsets.len() as int) + longs(offsets))
    }
}

fn chunk_offset_box(offsets: &[u128]) -> (b: Vec<u8>)
    ensures
        b@ == chunk_offset_bytes(offsets@.map_values(|x: u128| x as int)),
{
    let ghost wo = offsets@.map_values(|x: u128| x as int);
    let mut narrow = true;
    let mut i: usize = 0;
    while i < offsets.len()
        invariant
            i <= offsets@.len(),
            wo == offsets@.map_values(|x: u128| x as int),
            narrow == forall|j: int| 0 <= j < i ==> #[trigger] wo[j] <= u32::MAX,
        decreases offsets.len() - i,
    {
        assert(wo[i as int] == offsets@[i as int]);
        if offsets[i] > u32::MAX as u128 {
            narrow = false;
        }
        i += 1;
    }
    let mut body: Vec<u8> = Vec::new();
    push_len32(&mut body, offsets.len(), 0);
    let ghost head = be32_bytes(offsets@.len() as int);
    assert(body@ =~= head);
    assert(wo.take(0) =~= Seq::<int>::empty());
    assert(head + Seq::<u8>::empty() =~= head);
    let mut k: usize = 0;
    while k < offsets.len()
        invariant
            k <= offsets@.len(),
            wo == offsets@.map_values(|x: u128| x as int),
            head == be32_bytes(offsets@.len() as int),
            narrow ==> forall|j: int| 0 <= j < wo.len() ==> #[trigger] wo[j] <= u32::MAX,
            body@ == head + (if narrow {
                words(wo.take(k as int))
            } else {
                longs(wo.take(k as int))
            }),
        decreases offsets.len() - k,
    {
        assert(wo.take(k + 1).drop_last() =~= wo.take(k as int));
        assert(wo.take(k + 1).last() == offsets@[k as int]);
        let ghost before = body@;
        if narrow {
            assert(wo[k as int] <= u32::MAX);
            push_low32(&mut body, offsets[k] as u64);
        } else {
            push_low64(&mut body, offsets[k]);
        }
        k += 1;
        assert(body@ =~= head + (if narrow {
            words(wo.take(k as int))
        } else {
            longs(wo.take(k as int))
        }));
    }
    assert(wo.take(k as int) =~= wo);
    if narrow {
        full_box(&STCO, 0, 0, &body)
    } else {
        full_box(&CO64, 0, 0, &body)
    }
}

/// A duration as a 32-bit field holds it.
pub open spec fn capped32(v: int) -> int {
    if v <= u32::MAX {
        v
    } else {
        u32::MAX as int
    }
}

/// A duration as 64 bits hold it.
pub open spec fn capped64(v: int) -> int {
    if v <= u64::MAX {
        v
    } else {
        u64::MAX as int
    }
}

/// The media header: timescale, duration, language `und`; creation and
/// modification are unknown, honestly zero.
pub open spec fn mdhd_bytes(timescale: u32, duration: int) -> Seq<u8> {
    full_box_bytes(
        MDHD@,
        0,
        0,
        zeros(8) + be32_bytes(timescale as int) + be32_bytes(capped32(duration)) + seq![0x55u8, 0xc4u8]
            + zeros(2),
    )
}

fn cap32(v: u128) -> (r: u32)
    ensures
        r == capped32(v as int),
{
    if v <= u32::MAX as u128 {
        v as u32
    } else {
        u32::MAX
    }
}

fn mdhd(timescale: u32, duration: u128) -> (r: Vec<u8>)
    ensures
        r@ == mdhd_bytes(timescale, duration as int),
{
    let mut b: Vec<u8> = Vec::new();
    push_zeros(&mut b, 8);
    push_be32(&mut b, timescale);
    push_be32(&mut b, cap32(duration));
    b.push(0x55);  // language: und
    b.push(0xc4);
    push_zeros(&mut b, 2);
    assert(b@ =~= zeros(8) + be32_bytes(timescale as int) + be32_bytes(capped32(duration as int)) + seq![
        0x55u8,
        0xc4u8,
    ] + zeros(2));
    full_box(&MDHD, 0, 0, &b)
}

/// `basinski`, with a terminating zero.
pub const HANDLER_NAME: [u8; 9] = [0x62, 0x61, 0x73, 0x69, 0x6e, 0x73, 0x6b, 0x69, 0];

/// The handler of a track, `vide` or `soun`.
pub open spec fn hdlr_bytes(handler: Seq<u8>) -> Seq<u8> {
    full_box_bytes(HDLR@, 0, 0, zeros(4) + handler + zeros(12) + HANDLER_NAME@)
}

fn hdlr(handler: &[u8; 4]) -> (r: Vec<u8>)
    ensures
        r@ == hdlr_bytes(handler@),
{
    let mut b: Vec<u8> = Vec::new();
    push_zeros(&mut b, 4);
    push_all(&mut b, handler);
    push_zeros(&mut b, 12);
    push_all(&mut b, &HANDLER_NAME);
    assert(b@ =~= zeros(4) + handler@ + zeros(12) + HANDLER_NAME@);
    full_box(&HDLR, 0, 0, &b)
}

/// The data reference: this file itself.
pub open spec fn dinf_bytes() -> Seq<u8> {
    box_bytes(
        DINF@,
        full_box_bytes(DREF@, 0, 0, be32_bytes(1) + full_box_bytes(URL@, 0, 1, seq![])),
    )
}

fn dinf() -> (r: Vec<u8>)
    ensures
        r@ == dinf_bytes(),
{
    let none: [u8; 0] = [];
    assert(none@ =~= Seq::<u8>::empty());
    let url = full_box(&URL, 0, 1, &none);  // flag 1: data lives in this file
    let mut dref: Vec<u8> = Vec::new();
    push_be32(&mut dref, 1);
    push_all(&mut dref, &url);
    assert(dref@ =~= be32_bytes(1) + full_box_bytes(URL@, 0, 1, seq![]));
    boxed(&DINF, &full_box(&DREF, 0, 0, &dref))
}

/// The identity matrix.
pub open spec fn matrix_bytes() -> Seq<u8> {
    be32_bytes(0x1_0000) + zeros(12) + be32_bytes(0x1_0000) + zeros(12) + be32_bytes(0x4000_0000)
}

fn push_matrix(out: &mut Vec<u8>)
    ensures
        final(out)@ == old(out)@ + matrix_bytes(),
{
    push_be32(out, 0x1_0000);
    push_zeros(out, 12);
    push_be32(out, 0x1_0000);
    push_zeros(out, 12);
    push_be32(out, 0x4000_0000);
    assert(out@ =~= old(out)@ + matrix_bytes());
}

/// Whether a tkhd payload is of version 1, with 64-bit times.
pub open spec fn tkhd_is_wide(raw: Seq<u8>) -> bool {
    raw.len() > 0 && raw[0] == 1
}

/// The track ID in a donor's tkhd payload, if it reaches that far.
pub open spec fn tkhd_id(raw: Option<Seq<u8>>, fallback: int) -> int {
    match raw {
        Some(b) => {
            let at = if tkhd_is_wide(b) {
                20int
            } else {
                12int
            };
            if b.len() >= at + 4 {
                be32_at(b, at)
            } else {
                fallback
            }
        },
        None => fallback,
    }
}

/// A donor's tkhd with the duration swapped in; a fresh one if the donor had none.
pub open spec fn tkhd_bytes(raw: Option<Seq<u8>>, fallback: int, audio: bool, duration: int) -> Seq<u8> {
    match raw {
        Some(b) => box_bytes(
            TKHD@,
            if tkhd_is_wide(b) && b.len() >= 36 {
                overwritten(b, 28, be64_bytes(duration))
            } else if !tkhd_is_wide(b) && b.len() >= 24 {
                overwritten(b, 20, be32_bytes(capped32(duration)))
            } else {
                b
            },
        ),
        None => full_box_bytes(
            TKHD@,
            0,
            3,
            zeros(8) + be32_bytes(fallback) + zeros(4) + be32_bytes(capped32(duration)) + zeros(12)
                + (if audio {
                seq![1u8, 0u8]
            } else {
                seq![0u8, 0u8]
            }) + zeros(2) + matrix_bytes() + zeros(8),
        ),
    }
}

fn tkhd(raw: &Option<Vec<u8>>, fallback: u32, audio: bool, duration: u64) -> (r: (Vec<u8>, u32))
    ensures
        r.0@ == tkhd_bytes(held(*raw), fallback as int, audio, duration as int),
        r.1 == tkhd_id(held(*raw), fallback as int),
{
    match raw {
        Some(body) => {
            let v1 = body.len() > 0 && body[0] == 1;
            let at: usize = if v1 {
                20
            } else {
                12
            };
            let id: u32 = if body.len() >= at + 4 {
                be32(body, at)
            } else {
                fallback
            };
            let mut field: Vec<u8> = Vec::new();
            let mut b: Vec<u8> = Vec::new();
            if v1 && body.len() >= 36 {
                push_be64(&mut field, duration);
                assert(field@ =~= be64_bytes(duration as int));
                push_all(&mut b, &body[0..28]);
                push_all(&mut b, &field);
                push_all(&mut b, &body[36..body.len()]);
                assert(b@ =~= overwritten(body@, 28, be64_bytes(duration as int)));
            } else if !v1 && body.len() >= 24 {
                push_be32(&mut field, cap32(duration as u128));
                assert(field@ =~= be32_bytes(capped32(duration as int)));
                push_all(&mut b, &body[0..20]);
                push_all(&mut b, &field);
                push_all(&mut b, &body[24..body.len()]);
                assert(b@ =~= overwritten(body@, 20, be32_bytes(capped32(duration as int))));
            } else {
                push_all(&mut b, body);
                assert(b@ =~= body@);
            }
            (boxed(&TKHD, &b), id)
        },
        None => {
            let mut b: Vec<u8> = Vec::new();
            push_zeros(&mut b, 8);  // creation, modification
            push_be32(&mut b, fallback);
            push_zeros(&mut b, 4);  // reserved
            push_be32(&mut b, cap32(duration as u128));
            push_zeros(&mut b, 12);  // reserved, layer, alternate_group
            if audio {
                b.push(1);
            } else {
                b.push(0);
            }
            b.push(0);
            push_zeros(&mut b, 2);
            push_matrix(&mut b);
            push_zeros(&mut b, 8);  // width, height: unknown
            assert(b@ =~= zeros(8) + be32_bytes(fallback as int) + zeros(4) + be32_bytes(
                capped32(duration as int),
            ) + zeros(12) + (if audio {
                seq![1u8, 0u8]
            } else {
                seq![0u8, 0u8]
            }) + zeros(2) + matrix_bytes() + zeros(8));
            (full_box(&TKHD, 0, 3, &b), fallback)
        },
    }
}

/// The movie header: timescale, duration, rate and volume 1.0, identity matrix.
pub open spec fn mvhd_bytes(timescale: int, duration: int, next_id: int) -> Seq<u8> {
    full_box_bytes(
        MVHD@,
        0,
        0,
        zeros(8) + be32_bytes(timescale) + be32_bytes(capped32(duration)) + be32_bytes(0x1_0000) + seq![
            1u8,
            0u8,
        ] + zeros(10) + matrix_bytes() + zeros(24) + be32_bytes(next_id),
    )
}

fn mvhd(timescale: u32, duration: u64, next_id: u64) -> (r: Vec<u8>)
    ensures
        r@ == mvhd_bytes(timescale as int, duration as int, next_id as int),
{
    let mut b: Vec<u8> = Vec::new();
    push_zeros(&mut b, 8);
    push_be32(&mut b, timescale);
    push_be32(&mut b, cap32(duration as u128));
    push_be32(&mut b, 0x1_0000);  // rate 1.0
    b.push(1);  // volume 1.0
    b.push(0);
    push_zeros(&mut b, 10);  // reserved
    push_matrix(&mut b);
    push_zeros(&mut b, 24);  // pre_defined
    push_low32(&mut b, next_id);
    assert(b@ =~= zeros(8) + be32_bytes(timescale as int) + be32_bytes(capped32(duration as int))
        + be32_bytes(0x1_0000) + seq![1u8, 0u8] + zeros(10) + matrix_bytes() + zeros(24) + be32_bytes(
        next_id as int,
    ));
    full_box(&MVHD, 0, 0, &b)
}

/// A trak box.
pub open spec fn trak_bytes(
    tkhd: Seq<u8>,
    mdhd: Seq<u8>,
    handler: Seq<u8>,
    media_header: Seq<u8>,
    stbl: Seq<u8>,
) -> Seq<u8> {
    box_bytes(
        TRAK@,
        tkhd + box_bytes(
            MDIA@,
            mdhd + hdlr_bytes(handler) + box_bytes(
                MINF@,
                media_header + dinf_bytes() + box_bytes(STBL@, stbl),
            ),
        ),
    )
}

fn wrap_trak(tkhd: &[u8], mdhd: &[u8], handler: &[u8; 4], media_header: &[u8], stbl: &[u8]) -> (r: Vec<
    u8,
>)
    ensures
        r@ == trak_bytes(tkhd@, mdhd@, handler@, media_header@, stbl@),
{
    let mut minf: Vec<u8> = Vec::new();
    push_all(&mut minf, media_header);
    push_all(&mut minf, &dinf());
    push_all(&mut minf, &boxed(&STBL, stbl));
    assert(minf@ =~= media_header@ + dinf_bytes() + box_bytes(STBL@, stbl@));
    let mut mdia: Vec<u8> = Vec::new();
    push_all(&mut mdia, mdhd);
    push_all(&mut mdia, &hdlr(handler));
    push_all(&mut mdia, &boxed(&MINF, &minf));
    assert(mdia@ =~= mdhd@ + hdlr_bytes(handler@) + box_bytes(MINF@, minf@));
    let mut trak: Vec<u8> = Vec::new();
    push_all(&mut trak, tkhd);
    push_all(&mut trak, &boxed(&MDIA, &mdia));
    assert(trak@ =~= tkhd@ + box_bytes(MDIA@, mdia@));
    boxed(&TRAK, &trak)
}

/// Runs of equal numbers: how many, and which.
pub open spec fn run_lengths(v: Seq<u32>) -> Seq<(int, int)>
    decreases v.len(),
{
    if v.len() == 0 {
        seq![]
    } else {
        let before = run_lengths(v.drop_last());
        if before.len() > 0 && before.last().1 == v.last() {
            before.drop_last().push((before.last().0 + 1, before.last().1))
        } else {
            before.push((1, v.last() as int))
        }
    }
}

/// Whether any of the numbers is not zero.
pub open spec fn some_nonzero(v: Seq<u32>) -> bool {
    exists|i: int| 0 <= i < v.len() && #[trigger] v[i] != 0
}

/// Composition offsets as a box, where any of them says something.
pub open spec fn ctts_bytes(ctts: Option<Seq<u32>>) -> Seq<u8> {
    match ctts {
        Some(v) => if some_nonzero(v) {
            full_box_bytes(
                CTTS@,
                0,
                0,
                be32_bytes(run_lengths(v).len() as int) + word_pairs(run_lengths(v)),
            )
        } else {
            seq![]
        },
        None => seq![],
    }
}

/// The numbers of the sync samples, from 1 on.
pub open spec fn sync_numbers(v: Seq<Unit>) -> Seq<int>
    decreases v.len(),
{
    if v.len() == 0 {
        seq![]
    } else if v.last().sync {
        sync_numbers(v.drop_last()).push(v.len() as int)
    } else {
        sync_numbers(v.drop_last())
    }
}

/// The sync samples as a box, where not all samples are.
pub open spec fn stss_bytes(v: Seq<Unit>) -> Seq<u8> {
    let syncs = sync_numbers(v);
    if syncs.len() < v.len() {
        full_box_bytes(STSS@, 0, 0, be32_bytes(syncs.len() as int) + words(syncs))
    } else {
        seq![]
    }
}

/// One duration for all samples, as a box.
pub open spec fn stts_bytes(n: int, delta: u32) -> Seq<u8> {
    full_box_bytes(STTS@, 0, 0, be32_bytes(1) + be32_bytes(n) + be32_bytes(delta as int))
}

/// The sizes of the samples.
pub open spec fn unit_sizes(v: Seq<Unit>) -> Seq<int> {
    v.map_values(|u: Unit| u.size)
}

/// The offsets of the samples, with the media at `base`.
pub open spec fn unit_offsets(v: Seq<Unit>, base: int) -> Seq<int> {
    v.map_values(|u: Unit| base + u.off)
}

/// The sample table of the video: one sample per chunk; the offsets are exact, so
/// why pretend otherwise.
pub open spec fn video_stbl_bytes(
    dv: VideoOrgans,
    v: Seq<Unit>,
    ctts: Option<Seq<u32>>,
    base: int,
) -> Seq<u8> {
    dv.stsd + stts_bytes(v.len() as int, dv.sample_delta) + ctts_bytes(ctts) + stss_bytes(v)
        + full_box_bytes(
        STSC@,
        0,
        0,
        be32_bytes(1) + be32_bytes(1) + be32_bytes(1) + be32_bytes(1),
    ) + full_box_bytes(
        STSZ@,
        0,
        0,
        be32_bytes(0) + be32_bytes(v.len() as int) + words(unit_sizes(v)),
    ) + chunk_offset_bytes(unit_offsets(v, base))
}

/// How many whole samples of `css` bytes `len` bytes hold; their count is kept to
/// 32 bits.
pub open spec fn whole_samples(len: int, css: u32) -> int {
    if css == 0 {
        0
    } else {
        (len / css as int) % 0x1_0000_0000
    }
}

/// The chunks that hold a whole sample: their offsets and sample counts.
pub open spec fn counted_chunks(gaps: Seq<(int, int)>, css: u32) -> Seq<(int, int)>
    decreases gaps.len(),
{
    if gaps.len() == 0 {
        seq![]
    } else {
        let (off, len) = gaps.last();
        let before = counted_chunks(gaps.drop_last(), css);
        if whole_samples(len, css) > 0 {
            before.push((off, whole_samples(len, css)))
        } else {
            before
        }
    }
}

/// The samples of all chunks.
pub open spec fn sample_total(chunks: Seq<(int, int)>) -> int
    decreases chunks.len(),
{
    if chunks.len() == 0 {
        0
    } else {
        sample_total(chunks.drop_last()) + chunks.last().1
    }
}

/// Runs of chunks that hold as many samples: the number of the first, and how many
/// samples each holds.
pub open spec fn chunk_runs(chunks: Seq<(int, int)>) -> Seq<(int, int)>
    decreases chunks.len(),
{
    if chunks.len() == 0 {
        seq![]
    } else {
        let before = chunk_runs(chunks.drop_last());
        if before.len() > 0 && before.last().1 == chunks.last().1 {
            before
        } else {
            before.push((chunks.len() as int, chunks.last().1))
        }
    }
}

/// The runs as the entries of an stsc table: each with sample description 1.
pub open spec fn stsc_entries(runs: Seq<(int, int)>) -> Seq<u8>
    decreases runs.len(),
{
    if runs.len() == 0 {
        seq![]
    } else {
        stsc_entries(runs.drop_last()) + be32_bytes(runs.last().0) + be32_bytes(runs.last().1)
            + be32_bytes(1)
    }
}

/// The offsets of the chunks, with the media at `base`.
pub open spec fn chunk_starts(chunks: Seq<(int, int)>, base: int) -> Seq<int> {
    chunks.map_values(|c: (int, int)| base + c.0)
}

/// The sample table of constant-size audio.
pub open spec fn audio_stbl_bytes(da: AudioOrgans, css: u32, chunks: Seq<(int, int)>, base: int) -> Seq<
    u8,
> {
    let total = capped32(sample_total(chunks));
    let runs = chunk_runs(chunks);
    da.stsd + stts_bytes(total, da.sample_delta) + full_box_bytes(
        STSC@,
        0,
        0,
        be32_bytes(runs.len() as int) + stsc_entries(runs),
    ) + full_box_bytes(STSZ@, 0, 0, be32_bytes(css as int) + be32_bytes(total)) + chunk_offset_bytes(
        chunk_starts(chunks, base),
    )
}

fn stts_box(n: u64, delta: u32) -> (b: Vec<u8>)
    ensures
        b@ == stts_bytes(n as int, delta),
{
    let mut body: Vec<u8> = Vec::new();
    push_be32(&mut body, 1);
    push_low32(&mut body, n);
    push_be32(&mut body, delta);
    assert(body@ =~= be32_bytes(1) + be32_bytes(n as int) + be32_bytes(delta as int));
    full_box(&STTS, 0, 0, &body)
}

/// Pairs of numbers, widened.
spec fn wide_pairs(v: Seq<(u64, u32)>) -> Seq<(int, int)> {
    v.map_values(|p: (u64, u32)| (p.0 as int, p.1 as int))
}

fn find_run_lengths(v: &[u32]) -> (runs: Vec<(u64, u32)>)
    ensures
        wide_pairs(runs@) == run_lengths(v@),
{
    let mut runs: Vec<(u64, u32)> = Vec::new();
    let mut i: usize = 0;
    assert(v@.take(0) =~= Seq::<u32>::empty());
    assert(wide_pairs(runs@) =~= Seq::<(int, int)>::empty());
    while i < v.len()
        invariant
            i <= v@.len(),
            wide_pairs(runs@) == run_lengths(v@.take(i as int)),
            forall|j: int| 0 <= j < runs@.len() ==> (#[trigger] runs@[j]).0 <= i,
        decreases v.len() - i,
    {
        assert(v@.take(i + 1).drop_last() =~= v@.take(i as int));
        assert(v@.take(i + 1).last() == v@[i as int]);
        let ghost before = wide_pairs(runs@);
        let n: usize = runs.len();
        if n > 0 {
            assert(before.last() == (runs@[n - 1].0 as int, runs@[n - 1].1 as int));
        }
        if n > 0 && runs[n - 1].1 == v[i] {
            let (count, value) = runs[n - 1];
            runs.set(n - 1, (count + 1, value));
            assert(wide_pairs(runs@) =~= before.drop_last().push((count + 1, value as int)));
        } else {
            runs.push((1, v[i]));
            assert(wide_pairs(runs@) =~= before.push((1, v@[i as int] as int)));
        }
        i += 1;
    }
    assert(v@.take(i as int) =~= v@);
    runs
}

fn any_nonzero(v: &[u32]) -> (r: bool)
    ensures
        r == some_nonzero(v@),
{
    let mut i: usize = 0;
    while i < v.len()
        invariant
            i <= v@.len(),
            forall|j: int| 0 <= j < i ==> #[trigger] v@[j] == 0,
        decreases v.len() - i,
    {
        if v[i] != 0 {
            return true;
        }
        i += 1;
    }
    false
}

/// The offsets, if there are any.
pub open spec fn held_words(v: Option<Vec<u32>>) -> Option<Seq<u32>> {
    match v {
        Some(x) => Some(x@),
        None => None,
    }
}

/// Appends the ctts box: run-length encoded composition offsets, when we recovered any.
fn push_ctts(out: &mut Vec<u8>, ctts: &Option<Vec<u32>>)
    ensures
        final(out)@ == old(out)@ + ctts_bytes(held_words(*ctts)),
{
    let ghost start = out@;
    if let Some(v) = ctts {
        if any_nonzero(v) {
            let runs = find_run_lengths(v);
            let ghost wr = wide_pairs(runs@);
            assert(wr.len() == runs@.len());
            let mut body: Vec<u8> = Vec::new();
            push_len32(&mut body, runs.len(), 0);
            let ghost head = be32_bytes(runs@.len() as int);
            assert(body@ =~= head);
            assert(wr.take(0) =~= Seq::<(int, int)>::empty());
            assert(head + Seq::<u8>::empty() =~= head);
            let mut i: usize = 0;
            while i < runs.len()
                invariant
                    i <= runs@.len(),
                    wr == wide_pairs(runs@),
                    body@ == head + word_pairs(wr.take(i as int)),
                decreases runs.len() - i,
            {
                let (count, value) = runs[i];
                assert(wr.take(i + 1).drop_last() =~= wr.take(i as int));
                assert(wr.take(i + 1).last() == (count as int, value as int));
                push_low32(&mut body, count);
                push_be32(&mut body, value);
                i += 1;
                assert(body@ =~= head + word_pairs(wr.take(i as int)));
            }
            assert(wr.take(i as int) =~= wr);
            push_all(out, &full_box(&CTTS, 0, 0, &body));
            return ;
        }
    }
    assert(out@ =~= start + Seq::<u8>::empty());
}

/// Appends the stss box, where not all samples are sync.
fn push_stss(out: &mut Vec<u8>, samples: &[Sample])
    ensures
        final(out)@ == old(out)@ + stss_bytes(units(samples@)),
{
    let ghost start = out@;
    let ghost list = units(samples@);
    let mut body: Vec<u8> = Vec::new();
    let mut count: usize = 0;
    let mut i: usize = 0;
    assert(list.take(0) =~= Seq::<Unit>::empty());
    while i < samples.len()
        invariant
            i <= samples@.len(),
            list == units(samples@),
            count <= i,
            count == sync_numbers(list.take(i as int)).len(),
            body@ == words(sync_numbers(list.take(i as int))),
        decreases samples.len() - i,
    {
        assert(list.take(i + 1).drop_last() =~= list.take(i as int));
        assert(list.take(i + 1).last() == samples@[i as int]@);
        let ghost before = sync_numbers(list.take(i as int));
        if samples[i].sync {
            push_len32(&mut body, i, 1);
            count += 1;
            assert(before.push(i + 1).drop_last() =~= before);
        }
        i += 1;
    }
    assert(list.take(i as int) =~= list);
    if count < samples.len() {
        let mut all: Vec<u8> = Vec::new();
        push_len32(&mut all, count, 0);
        push_all(&mut all, &body);
        assert(all@ =~= be32_bytes(count as int) + body@);
        push_all(out, &full_box(&STSS, 0, 0, &all));
    } else {
        assert(out@ =~= start + Seq::<u8>::empty());
    }
}

fn video_stbl(dv: &DonorVideo, samples: &[Sample], ctts: &Option<Vec<u32>>, base: u64) -> (stbl: Vec<
    u8,
>)
    ensures
        stbl@ == video_stbl_bytes(dv@, units(samples@), held_words(*ctts), base as int),
{
    let ghost list = units(samples@);
    let mut stbl: Vec<u8> = Vec::new();
    push_all(&mut stbl, &dv.stsd);
    assert(stbl@ =~= dv.stsd@);
    push_all(&mut stbl, &stts_box(samples.len() as u64, dv.sample_delta));
    push_ctts(&mut stbl, ctts);
    push_stss(&mut stbl, samples);
    let ghost part1 = stbl@;
    // One sample per chunk.
    let mut stsc: Vec<u8> = Vec::new();
    push_be32(&mut stsc, 1);
    push_be32(&mut stsc, 1);
    push_be32(&mut stsc, 1);
    push_be32(&mut stsc, 1);
    assert(stsc@ =~= be32_bytes(1) + be32_bytes(1) + be32_bytes(1) + be32_bytes(1));
    push_all(&mut stbl, &full_box(&STSC, 0, 0, &stsc));
    let mut stsz: Vec<u8> = Vec::new();
    push_be32(&mut stsz, 0);
    push_len32(&mut stsz, samples.len(), 0);
    let ghost head = be32_bytes(0) + be32_bytes(list.len() as int);
    assert(stsz@ =~= head);
    let ghost sizes = unit_sizes(list);
    let ghost starts = unit_offsets(list, base as int);
    let mut offsets: Vec<u128> = Vec::new();
    let mut i: usize = 0;
    assert(sizes.take(0) =~= Seq::<int>::empty());
    assert(head + Seq::<u8>::empty() =~= head);
    while i < samples.len()
        invariant
            i <= samples@.len(),
            list == units(samples@),
            sizes == unit_sizes(list),
            starts == unit_offsets(list, base as int),
            stsz@ == head + words(sizes.take(i as int)),
            offsets@.len() == i,
            forall|j: int| 0 <= j < i ==> #[trigger] offsets@[j] == starts[j],
        decreases samples.len() - i,
    {
        let s = samples[i];
        assert(list[i as int] == s@);
        assert(sizes.take(i + 1).drop_last() =~= sizes.take(i as int));
        assert(sizes.take(i + 1).last() == s.size);
        push_low32(&mut stsz, s.size as u64);
        offsets.push(base as u128 + s.off as u128);
        i += 1;
        assert(stsz@ =~= head + words(sizes.take(i as int)));
    }
    assert(sizes.take(i as int) =~= sizes);
    push_all(&mut stbl, &full_box(&STSZ, 0, 0, &stsz));
    assert(offsets@.map_values(|x: u128| x as int) =~= starts);
    push_all(&mut stbl, &chunk_offset_box(&offsets));
    stbl
}

fn count_samples(len: usize, css: u32) -> (n: u64)
    ensures
        n == whole_samples(len as int, css),
{
    if css == 0 {
        0
    } else {
        (len as u64 / css as u64) % 0x1_0000_0000
    }
}

/// Chunks as plain pairs.
pub open spec fn wide_chunks(v: Seq<(usize, u64)>) -> Seq<(int, int)> {
    v.map_values(|c: (usize, u64)| (c.0 as int, c.1 as int))
}

/// The chunks that hold a whole sample. Those that don't hold even one are skipped.
fn count_chunks(gaps: &[(usize, usize)], css: u32) -> (r: Vec<(usize, u64)>)
    ensures
        wide_chunks(r@) == counted_chunks(wide_gaps(gaps@), css),
{
    let ghost wg = wide_gaps(gaps@);
    let mut out: Vec<(usize, u64)> = Vec::new();
    let mut i: usize = 0;
    assert(wg.take(0) =~= Seq::<(int, int)>::empty());
    assert(wide_chunks(out@) =~= Seq::<(int, int)>::empty());
    while i < gaps.len()
        invariant
            i <= gaps@.len(),
            wg == wide_gaps(gaps@),
            wide_chunks(out@) == counted_chunks(wg.take(i as int), css),
        decreases gaps.len() - i,
    {
        let (off, len) = gaps[i];
        assert(wg.take(i + 1).drop_last() =~= wg.take(i as int));
        assert(wg.take(i + 1).last() == (off as int, len as int));
        let n: u64 = count_samples(len, css);
        if n > 0 {
            let ghost before = wide_chunks(out@);
            out.push((off, n));
            assert(wide_chunks(out@) =~= before.push((off as int, n as int)));
        }
        i += 1;
    }
    assert(wg.take(i as int) =~= wg);
    out
}

fn total_samples(chunks: &[(usize, u64)]) -> (r: u128)
    requires
        forall|i: int| 0 <= i < chunks@.len() ==> (#[trigger] chunks@[i]).1 < 0x1_0000_0000,
    ensures
        r == sample_total(wide_chunks(chunks@)),
{
    let ghost wc = wide_chunks(chunks@);
    let mut sum: u128 = 0;
    let mut i: usize = 0;
    assert(wc.take(0) =~= Seq::<(int, int)>::empty());
    while i < chunks.len()
        invariant
            i <= chunks@.len(),
            wc == wide_chunks(chunks@),
            forall|i: int| 0 <= i < chunks@.len() ==> (#[trigger] chunks@[i]).1 < 0x1_0000_0000,
            sum == sample_total(wc.take(i as int)),
            sum <= i * 0x1_0000_0000,
        decreases chunks.len() - i,
    {
        assert(wc.take(i + 1).drop_last() =~= wc.take(i as int));
        assert(wc.take(i + 1).last() == (chunks@[i as int].0 as int, chunks@[i as int].1 as int));
        sum = sum + chunks[i].1 as u128;
        i += 1;
    }
    assert(wc.take(i as int) =~= wc);
    sum
}

fn audio_stbl(da: &DonorAudio, css: u32, chunks: &[(usize, u64)], total: u128, base: u64) -> (stbl: Vec<
    u8,
>)
    requires
        total == sample_total(wide_chunks(chunks@)),
    ensures
        stbl@ == audio_stbl_bytes(da@, css, wide_chunks(chunks@), base as int),
{
    let ghost wc = wide_chunks(chunks@);
    let mut stbl: Vec<u8> = Vec::new();
    push_all(&mut stbl, &da.stsd);
    assert(stbl@ =~= da.stsd@);
    let total32: u32 = cap32(total);
    push_all(&mut stbl, &stts_box(total32 as u64, da.sample_delta));
    // stsc: run-length encode samples-per-chunk.
    let mut entries: Vec<u8> = Vec::new();
    let mut runs: usize = 0;
    let mut last: u64 = 0;
    let ghost starts = chunk_starts(wc, base as int);
    let mut offsets: Vec<u128> = Vec::new();
    let mut i: usize = 0;
    assert(wc.take(0) =~= Seq::<(int, int)>::empty());
    while i < chunks.len()
        invariant
            i <= chunks@.len(),
            wc == wide_chunks(chunks@),
            starts == chunk_starts(wc, base as int),
                runs <= i,
            runs == chunk_runs(wc.take(i as int)).len(),
            runs > 0 ==> last == chunk_runs(wc.take(i as int)).last().1,
            entries@ == stsc_entries(chunk_runs(wc.take(i as int))),
            offsets@.len() == i,
            forall|j: int| 0 <= j < i ==> #[trigger] offsets@[j] == starts[j],
        decreases chunks.len() - i,
    {
        let (off, n) = chunks[i];
        assert(wc[i as int] == (off as int, n as int));
        assert(wc.take(i + 1).drop_last() =~= wc.take(i as int));
        assert(wc.take(i + 1).last() == (off as int, n as int));
        let ghost before = chunk_runs(wc.take(i as int));
        if runs == 0 || last != n {
            assert(before.push((i + 1, n as int)).drop_last() =~= before);
            push_len32(&mut entries, i, 1);
            push_low32(&mut entries, n);
            push_be32(&mut entries, 1);
            runs += 1;
            last = n;
        }
        offsets.push(base as u128 + off as u128);
        i += 1;
    }
    assert(wc.take(i as int) =~= wc);
    let mut stsc: Vec<u8> = Vec::new();
    push_len32(&mut stsc, runs, 0);
    push_all(&mut stsc, &entries);
    assert(stsc@ =~= be32_bytes(runs as int) + entries@);
    push_all(&mut stbl, &full_box(&STSC, 0, 0, &stsc));
    let mut stsz: Vec<u8> = Vec::new();
    push_be32(&mut stsz, css);  // uniform size: no table
    push_be32(&mut stsz, total32);
    assert(stsz@ =~= be32_bytes(css as int) + be32_bytes(total32 as int));
    push_all(&mut stbl, &full_box(&STSZ, 0, 0, &stsz));
    assert(offsets@.map_values(|x: u128| x as int) =~= starts);
    push_all(&mut stbl, &chunk_offset_box(&offsets));
    stbl
}

// ---------------------------------------------------------------------------
// The operation itself
// ---------------------------------------------------------------------------

/// A file with a regrown index.
pub struct Transplant {
    pub out: Vec<u8>,
    pub video_samples: usize,
    pub sync_samples: usize,
    /// Undecodable pre-keyframe samples dropped from the front.
    pub dropped_leading: usize,
    pub audio_samples: u64,
    /// Audio bytes present but unsplittable (no decoder) or unclaimed.
    pub audio_bytes_dropped: u64,
    pub torn_bytes: u64,
    /// How long the file plays, in milliseconds.
    pub duration_ms: u64,
    /// B-frame composition timing was re-derived from slice POCs.
    pub ctts_recovered: bool,
    /// Raw AAC salvaged from the interleave gaps, ADTS-wrapped, ready to mux
    /// alongside the video. None when no audio donor track was built and the
    /// gaps didn't look like AAC (or audio recovery was disabled).
    pub audio_adts: Option<Vec<u8>>,
    /// Audio gaps wrapped, and gaps skipped as non-AAC.
    pub aac_chunks: usize,
    pub aac_skipped: usize,
}

/// What a transplant yields.
pub struct Graft {
    pub out: Seq<u8>,
    pub video_samples: int,
    pub sync_samples: int,
    pub dropped_leading: int,
    pub audio_samples: int,
    pub audio_bytes_dropped: int,
    pub torn_bytes: int,
    pub duration_ms: int,
    pub ctts_recovered: bool,
    pub audio_adts: Option<Seq<u8>>,
    pub aac_chunks: int,
    pub aac_skipped: int,
}

impl View for Transplant {
    type V = Graft;

    open spec fn view(&self) -> Graft {
        Graft {
            out: self.out@,
            video_samples: self.video_samples as int,
            sync_samples: self.sync_samples as int,
            dropped_leading: self.dropped_leading as int,
            audio_samples: self.audio_samples as int,
            audio_bytes_dropped: self.audio_bytes_dropped as int,
            torn_bytes: self.torn_bytes as int,
            duration_ms: self.duration_ms as int,
            ctts_recovered: self.ctts_recovered,
            audio_adts: held(self.audio_adts),
            aac_chunks: self.aac_chunks as int,
            aac_skipped: self.aac_skipped as int,
        }
    }
}

/// Why there is no transplant.
#[derive(Debug, Clone, Copy, PartialEq, Eq, Structural)]
pub enum TransplantError {
    NoMedia,
    NothingMatches,
    NoKeyframe,
    NoTracks,
}

impl TransplantError {
    /// The error in words.
    pub open spec fn text(self) -> Seq<char> {
        match self {
            TransplantError::NoMedia => "no media payload found to transplant onto"@,
            TransplantError::NothingMatches => "the donor's H.264 grammar matches nothing in this file \u{2014} wrong donor, or the media is truly gone"@,
            TransplantError::NoKeyframe => "no keyframe survives in the recovered video \u{2014} nothing playable"@,
            TransplantError::NoTracks => "transplant produced no tracks \u{2014} nothing in this file fits the donor"@,
        }
    }

    pub fn message(&self) -> (r: String)
        ensures
            r@ == self.text(),
    {
        let s = match self {
            TransplantError::NoMedia => "no media payload found to transplant onto",
            TransplantError::NothingMatches => "the donor's H.264 grammar matches nothing in this file \u{2014} wrong donor, or the media is truly gone",
            TransplantError::NoKeyframe => "no keyframe survives in the recovered video \u{2014} nothing playable",
            TransplantError::NoTracks => "transplant produced no tracks \u{2014} nothing in this file fits the donor",
        };
        s.to_owned()
    }
}

/// What the media is made of, read with the donor's grammar. To an audio-only
/// donor it is one chunk of constant-size samples.
pub open spec fn media_parts(media: Seq<u8>, head_torn: bool, o: Organs) -> Parts {
    match o.video {
        Some(dv) => parts_from(media, dv, 0, head_torn, None),
        None => Parts { video: seq![], gaps: seq![(0, media.len() as int)], torn: 0 },
    }
}

/// The first sync sample from `i` on.
pub open spec fn first_sync(v: Seq<Unit>, i: int) -> Option<int>
    decreases v.len() - i,
{
    if i < 0 || i >= v.len() {
        None
    } else if v[i].sync {
        Some(i)
    } else {
        first_sync(v, i + 1)
    }
}

/// The gaps that start at `cut` or behind it.
pub open spec fn gaps_behind(gaps: Seq<(int, int)>, cut: int) -> Seq<(int, int)>
    decreases gaps.len(),
{
    if gaps.len() == 0 {
        seq![]
    } else if gaps.last().0 >= cut {
        gaps_behind(gaps.drop_last(), cut).push(gaps.last())
    } else {
        gaps_behind(gaps.drop_last(), cut)
    }
}

/// The parts without the video before the first keyframe, which can never decode,
/// and without the audio chunks interleaved beside it; and how many samples that
/// are. `None` if there is video but no keyframe.
pub open spec fn playable(p: Parts, keep_preroll: bool) -> Option<(Parts, int)> {
    if keep_preroll || p.video.len() == 0 {
        Some((p, 0))
    } else {
        match first_sync(p.video, 0) {
            None => None,
            Some(n) => if n == 0 {
                Some((p, 0))
            } else {
                Some(
                    (
                        Parts {
                            video: p.video.skip(n),
                            gaps: gaps_behind(p.gaps, p.video[n].off),
                            torn: p.torn,
                        },
                        n,
                    ),
                )
            },
        }
    }
}

/// Whether the media needs an mdat with a 64-bit size.
pub open spec fn needs_wide_mdat(media: Seq<u8>) -> bool {
    media.len() + 16 > u32::MAX
}

/// Where the media starts in the new file.
pub open spec fn media_base(media: Seq<u8>) -> int {
    if needs_wide_mdat(media) {
        36
    } else {
        28
    }
}

/// The media in an mdat box.
pub open spec fn mdat_bytes(media: Seq<u8>) -> Seq<u8> {
    if needs_wide_mdat(media) {
        be32_bytes(1) + MDAT@ + be64_bytes(media.len() as int + 16) + media
    } else {
        be32_bytes(media.len() as int + 8) + MDAT@ + media
    }
}

/// How many milliseconds `ticks` ticks are.
pub open spec fn ticks_to_ms(ticks: int, timescale: u32) -> int {
    capped64(
        ticks * 1000 / (if timescale == 0 {
            1int
        } else {
            timescale as int
        }),
    )
}

/// The composition offsets of the samples, where the donor reorders at all.
pub open spec fn regrown_ctts(media: Seq<u8>, v: Seq<Unit>, dv: VideoOrgans) -> Option<Seq<u32>> {
    if dv.has_ctts {
        ctts_of(media, v, dv)
    } else {
        None
    }
}

/// The trak box of the video.
pub open spec fn video_trak(media: Seq<u8>, v: Seq<Unit>, dv: VideoOrgans) -> Seq<u8> {
    let ticks = v.len() * dv.sample_delta;
    trak_bytes(
        tkhd_bytes(dv.tkhd, 1, false, ticks_to_ms(ticks, dv.timescale)),
        mdhd_bytes(dv.timescale, ticks),
        VIDE@,
        full_box_bytes(VMHD@, 0, 1, zeros(8)),
        video_stbl_bytes(dv, v, regrown_ctts(media, v, dv), media_base(media)),
    )
}

/// The trak box of constant-size audio.
pub open spec fn audio_trak(
    media: Seq<u8>,
    chunks: Seq<(int, int)>,
    da: AudioOrgans,
    css: u32,
    fallback: int,
) -> Seq<u8> {
    let ticks = sample_total(chunks) * da.sample_delta;
    trak_bytes(
        tkhd_bytes(da.tkhd, fallback, true, ticks_to_ms(ticks, da.timescale)),
        mdhd_bytes(da.timescale, ticks),
        SOUN@,
        full_box_bytes(SMHD@, 0, 0, zeros(4)),
        audio_stbl_bytes(da, css, chunks, media_base(media)),
    )
}

/// Some tracks: their trak boxes, how long the longest plays, and the highest ID.
pub struct Tracks {
    pub bytes: Seq<u8>,
    pub duration_ms: int,
    pub max_id: int,
}

/// The larger of two numbers.
pub open spec fn larger(a: int, b: int) -> int {
    if a >= b {
        a
    } else {
        b
    }
}

/// The video track, if the donor has video.
pub open spec fn video_tracks(media: Seq<u8>, v: Seq<Unit>, o: Organs) -> Tracks {
    match o.video {
        Some(dv) => Tracks {
            bytes: video_trak(media, v, dv),
            duration_ms: ticks_to_ms(v.len() * dv.sample_delta, dv.timescale),
            max_id: tkhd_id(dv.tkhd, 1),
        },
        None => Tracks { bytes: seq![], duration_ms: 0, max_id: 0 },
    }
}

/// The audio chunks that can be split into samples: those of a donor with
/// constant-size audio.
pub open spec fn splittable(gaps: Seq<(int, int)>, o: Organs) -> Seq<(int, int)> {
    match o.audio {
        Some(da) => match da.constant_sample_size {
            Some(css) => counted_chunks(gaps, css),
            None => seq![],
        },
        None => seq![],
    }
}

/// The tracks with an audio track behind them, if there are audio samples.
pub open spec fn with_audio(media: Seq<u8>, chunks: Seq<(int, int)>, o: Organs, t: Tracks) -> Tracks {
    if sample_total(chunks) <= 0 {
        t
    } else {
        let da = o.audio.unwrap();
        let fallback = (t.max_id + 1) % 0x1_0000_0000;
        Tracks {
            bytes: t.bytes + audio_trak(
                media,
                chunks,
                da,
                da.constant_sample_size.unwrap(),
                fallback,
            ),
            duration_ms: larger(
                t.duration_ms,
                ticks_to_ms(sample_total(chunks) * da.sample_delta, da.timescale),
            ),
            max_id: larger(t.max_id, tkhd_id(da.tkhd, fallback)),
        }
    }
}

/// The bytes of the gaps that open like AAC.
pub open spec fn aac_bytes(media: Seq<u8>, gaps: Seq<(int, int)>) -> int
    decreases gaps.len(),
{
    if gaps.len() == 0 {
        0
    } else {
        aac_bytes(media, gaps.drop_last()) + if opens_like_aac(media, gaps.last()) {
            gaps.last().1
        } else {
            0
        }
    }
}

/// Whether raw AAC is salvaged from the gaps, and with which rate index: when asked
/// for, at a known rate, where no audio track was built and a gap opens like AAC.
pub open spec fn salvage(media: Seq<u8>, gaps: Seq<(int, int)>, audio_samples: int, rate: Option<u32>) -> Option<
    u8,
> {
    match rate {
        Some(sr) => if audio_samples == 0 && aac_gaps(media, gaps) > 0 {
            rate_index(sr)
        } else {
            None
        },
        None => None,
    }
}

/// The audio bytes that whole samples claim.
pub open spec fn claimed_audio(gaps: Seq<(int, int)>, o: Organs) -> int {
    match o.audio {
        Some(da) => match da.constant_sample_size {
            Some(css) => css * sample_total(counted_chunks(gaps, css)),
            None => 0,
        },
        None => 0,
    }
}

/// The audio bytes that end up nowhere: unsplittable, or unclaimed by a whole sample, and
/// not salvaged.
pub open spec fn lost_audio(media: Seq<u8>, gaps: Seq<(int, int)>, o: Organs, salvaged: bool) -> int {
    if salvaged {
        gap_bytes(gaps) - aac_bytes(media, gaps)
    } else {
        gap_bytes(gaps) - claimed_audio(gaps, o)
    }
}

/// A new file: ftyp, the media verbatim, and an index over the given tracks.
pub open spec fn file_bytes(media: Seq<u8>, t: Tracks) -> Seq<u8> {
    ftyp_box() + mdat_bytes(media) + box_bytes(
        MOOV@,
        mvhd_bytes(1000, t.duration_ms, t.max_id + 1) + t.bytes,
    )
}

/// What comes of the playable parts of the media.
pub open spec fn graft_of(
    media: Seq<u8>,
    p: Parts,
    dropped: int,
    o: Organs,
    rate: Option<u32>,
) -> Result<Graft, TransplantError> {
    let chunks = splittable(p.gaps, o);
    let total = sample_total(chunks);
    let t = with_audio(media, chunks, o, video_tracks(media, p.video, o));
    let idx = salvage(media, p.gaps, total, rate);
    if o.video is None && total <= 0 {
        Err(TransplantError::NoTracks)
    } else {
        Ok(
            Graft {
                out: file_bytes(media, t),
                video_samples: p.video.len() as int,
                sync_samples: if o.video is Some {
                    sync_numbers(p.video).len() as int
                } else {
                    0
                },
                dropped_leading: dropped,
                audio_samples: total,
                audio_bytes_dropped: lost_audio(media, p.gaps, o, idx is Some),
                torn_bytes: p.torn,
                duration_ms: t.duration_ms,
                ctts_recovered: o.video is Some && regrown_ctts(media, p.video, o.video.unwrap()) is Some,
                audio_adts: match idx {
                    Some(i) => Some(wrapped(media, p.gaps, i)),
                    None => None,
                },
                aac_chunks: if idx is Some {
                    aac_gaps(media, p.gaps) as int
                } else {
                    0
                },
                aac_skipped: if idx is Some {
                    p.gaps.len() - aac_gaps(media, p.gaps)
                } else {
                    0
                },
            },
        )
    }
}

/// What a transplant onto a broken file yields.
pub open spec fn transplanted(d: Seq<u8>, o: Organs, keep_preroll: bool, rate: Option<u32>) -> Result<
    Graft,
    TransplantError,
> {
    let (start, end, head_torn) = media_of(d);
    let media = d.subrange(start, end);
    let p = media_parts(media, head_torn, o);
    if media.len() == 0 {
        Err(TransplantError::NoMedia)
    } else if o.video is Some && p.video.len() == 0 {
        Err(TransplantError::NothingMatches)
    } else {
        match playable(p, keep_preroll) {
            None => Err(TransplantError::NoKeyframe),
            Some((q, dropped)) => graft_of(media, q, dropped, o, rate),
        }
    }
}

proof fn lemma_gaps_behind(gaps: Seq<(int, int)>, cut: int, n: int)
    requires
        forall|i: int|
            0 <= i < gaps.len() ==> 0 <= (#[trigger] gaps[i]).0 && 0 <= gaps[i].1 && gaps[i].0
                + gaps[i].1 <= n,
    ensures
        0 <= gap_bytes(gaps_behind(gaps, cut)) <= gap_bytes(gaps),
        forall|i: int|
            0 <= i < gaps_behind(gaps, cut).len() ==> 0 <= (#[trigger] gaps_behind(gaps, cut)[i]).0
                && 0 <= gaps_behind(gaps, cut)[i].1 && gaps_behind(gaps, cut)[i].0 + gaps_behind(
                gaps,
                cut,
            )[i].1 <= n,
    decreases gaps.len(),
{
    if gaps.len() > 0 {
        let head = gaps.drop_last();
        assert forall|i: int| 0 <= i < head.len() implies 0 <= (#[trigger] head[i]).0 && 0 <= head[i].1
            && head[i].0 + head[i].1 <= n by {
            assert(head[i] == gaps[i]);
        }
        lemma_gaps_behind(head, cut, n);
        let more = gaps_behind(head, cut).push(gaps.last());
        assert(more.drop_last() =~= gaps_behind(head, cut));
        assert(gaps.last() == gaps[gaps.len() - 1]);
    }
}

proof fn lemma_samples_at_most_bytes(gaps: Seq<(int, int)>, css: u32)
    requires
        forall|i: int| 0 <= i < gaps.len() ==> 0 <= (#[trigger] gaps[i]).1,
    ensures
        0 <= sample_total(counted_chunks(gaps, css)) <= gap_bytes(gaps),
        forall|i: int|
            0 <= i < counted_chunks(gaps, css).len() ==> 0 <= (#[trigger] counted_chunks(
                gaps,
                css,
            )[i]).1 < 0x1_0000_0000,
    decreases gaps.len(),
{
    if gaps.len() > 0 {
        let head = gaps.drop_last();
        assert forall|i: int| 0 <= i < head.len() implies 0 <= (#[trigger] head[i]).1 by {
            assert(head[i] == gaps[i]);
        }
        lemma_samples_at_most_bytes(head, css);
        let (off, len) = gaps.last();
        assert(gaps.last() == gaps[gaps.len() - 1]);
        let before = counted_chunks(head, css);
        let n = whole_samples(len, css);
        if css > 0 {
            assert(0 <= len / css as int <= len) by (nonlinear_arith)
                requires
                    len >= 0,
                    css >= 1,
            ;
            assert((len / css as int) % 0x1_0000_0000 <= len / css as int);
        }
        if n > 0 {
            assert(before.push((off, n)).drop_last() =~= before);
        }
    }
}

proof fn lemma_claimed_bytes(gaps: Seq<(int, int)>, css: u32)
    requires
        forall|i: int| 0 <= i < gaps.len() ==> 0 <= (#[trigger] gaps[i]).1,
    ensures
        0 <= css * sample_total(counted_chunks(gaps, css)) <= gap_bytes(gaps),
    decreases gaps.len(),
{
    if gaps.len() == 0 {
        assert(css * 0 == 0) by (nonlinear_arith);
    } else {
        let head = gaps.drop_last();
        assert forall|i: int| 0 <= i < head.len() implies 0 <= (#[trigger] head[i]).1 by {
            assert(head[i] == gaps[i]);
        }
        lemma_claimed_bytes(head, css);
        let (off, len) = gaps.last();
        assert(gaps.last() == gaps[gaps.len() - 1]);
        let before = counted_chunks(head, css);
        let total = sample_total(before);
        let n = whole_samples(len, css);
        if n > 0 {
            let q = len / css as int;
            assert(q >= 0) by (nonlinear_arith)
                requires
                    q == len / (css as int),
                    len >= 0,
                    css >= 1,
            ;
            assert(n <= q);
            assert(0 <= css * n <= len) by (nonlinear_arith)
                requires
                    0 < n <= q,
                    q == len / (css as int),
                    len >= 0,
                    css >= 1,
            ;
            assert(before.push((off, n)).drop_last() =~= before);
            assert(css * (total + n) == css * total + css * n) by (nonlinear_arith);
        }
    }
}

proof fn lemma_aac_bytes(media: Seq<u8>, gaps: Seq<(int, int)>)
    requires
        forall|i: int| 0 <= i < gaps.len() ==> 0 <= (#[trigger] gaps[i]).1,
    ensures
        0 <= aac_bytes(media, gaps) <= gap_bytes(gaps),
    decreases gaps.len(),
{
    if gaps.len() > 0 {
        let head = gaps.drop_last();
        assert forall|i: int| 0 <= i < head.len() implies 0 <= (#[trigger] head[i]).1 by {
            assert(head[i] == gaps[i]);
        }
        assert(gaps.last() == gaps[gaps.len() - 1]);
        lemma_aac_bytes(media, head);
    }
}

proof fn lemma_gap_bytes_prefix(gaps: Seq<(int, int)>, n: int)
    requires
        0 <= n <= gaps.len(),
        forall|i: int| 0 <= i < gaps.len() ==> 0 <= (#[trigger] gaps[i]).1,
    ensures
        0 <= gap_bytes(gaps.take(n)) <= gap_bytes(gaps),
    decreases gaps.len() - n, n,
{
    if n < gaps.len() {
        assert(gaps.take(n + 1).drop_last() =~= gaps.take(n));
        assert(gaps.take(n + 1).last() == gaps[n]);
        lemma_gap_bytes_prefix(gaps, n + 1);
        lemma_gap_bytes_sign(gaps.take(n));
    } else {
        assert(gaps.take(n) =~= gaps);
        lemma_gap_bytes_sign(gaps);
    }
}

proof fn lemma_gap_bytes_sign(gaps: Seq<(int, int)>)
    requires
        forall|i: int| 0 <= i < gaps.len() ==> 0 <= (#[trigger] gaps[i]).1,
    ensures
        0 <= gap_bytes(gaps),
    decreases gaps.len(),
{
    if gaps.len() > 0 {
        let head = gaps.drop_last();
        assert forall|i: int| 0 <= i < head.len() implies 0 <= (#[trigger] head[i]).1 by {
            assert(head[i] == gaps[i]);
        }
        assert(gaps.last() == gaps[gaps.len() - 1]);
        lemma_gap_bytes_sign(head);
    }
}

/// Parts that lie in the media.
pub open spec fn parts_inside(p: Parts, media: Seq<u8>) -> bool {
    &&& forall|i: int|
        0 <= i < p.video.len() ==> 0 <= (#[trigger] p.video[i]).off && p.video[i].off + p.video[i].size
            <= media.len()
    &&& gaps_inside(media, p.gaps)
    &&& 0 <= gap_bytes(p.gaps) <= media.len()
    &&& p.torn >= 0
}

/// The bytes of all gaps.
fn sum_gaps(gaps: &[(usize, usize)], limit: u64) -> (r: u64)
    requires
        gap_bytes(wide_gaps(gaps@)) <= limit,
    ensures
        r == gap_bytes(wide_gaps(gaps@)),
{
    let ghost wg = wide_gaps(gaps@);
    let mut sum: u64 = 0;
    let mut i: usize = 0;
    assert(wg.take(0) =~= Seq::<(int, int)>::empty());
    while i < gaps.len()
        invariant
            i <= gaps@.len(),
            wg == wide_gaps(gaps@),
            gap_bytes(wg) <= limit,
            sum == gap_bytes(wg.take(i as int)),
        decreases gaps.len() - i,
    {
        assert(wg.take(i + 1).drop_last() =~= wg.take(i as int));
        assert(wg.take(i + 1).last() == (gaps@[i as int].0 as int, gaps@[i as int].1 as int));
        proof {
            lemma_gap_bytes_prefix(wg, i + 1);
        }
        sum = sum + gaps[i].1 as u64;
        i += 1;
    }
    assert(wg.take(i as int) =~= wg);
    sum
}

/// The bytes of the gaps that open like AAC.
fn sum_aac(media: &[u8], gaps: &[(usize, usize)], limit: u64) -> (r: u64)
    requires
        gaps_inside(media@, wide_gaps(gaps@)),
        gap_bytes(wide_gaps(gaps@)) <= limit,
    ensures
        r == aac_bytes(media@, wide_gaps(gaps@)),
{
    let ghost wg = wide_gaps(gaps@);
    let mut sum: u64 = 0;
    let mut i: usize = 0;
    assert(wg.take(0) =~= Seq::<(int, int)>::empty());
    while i < gaps.len()
        invariant
            i <= gaps@.len(),
            wg == wide_gaps(gaps@),
            gaps_inside(media@, wg),
            gap_bytes(wg) <= limit,
            sum == aac_bytes(media@, wg.take(i as int)),
        decreases gaps.len() - i,
    {
        let (off, len) = gaps[i];
        assert(wg[i as int] == (off as int, len as int));
        assert(wg.take(i + 1).drop_last() =~= wg.take(i as int));
        assert(wg.take(i + 1).last() == (off as int, len as int));
        proof {
            lemma_gap_bytes_prefix(wg, i + 1);
            lemma_aac_bytes(media@, wg.take(i + 1));
        }
        if len > 16 && media[off] / 32 == 1 {
            sum = sum + len as u64;
        }
        i += 1;
    }
    assert(wg.take(i as int) =~= wg);
    sum
}

fn find_first_sync(samples: &[Sample]) -> (r: Option<usize>)
    ensures
        match r {
            Some(i) => first_sync(units(samples@), 0) == Some(i as int) && i < samples@.len(),
            None => first_sync(units(samples@), 0) is None,
        },
{
    let ghost list = units(samples@);
    let mut i: usize = 0;
    while i < samples.len()
        invariant
            i <= samples@.len(),
            list == units(samples@),
            first_sync(list, 0) == first_sync(list, i as int),
        decreases samples.len() - i,
    {
        assert(list[i as int] == samples@[i as int]@);
        if samples[i].sync {
            return Some(i);
        }
        i += 1;
    }
    None
}

fn keep_gaps_behind(gaps: &[(usize, usize)], cut: usize) -> (r: Vec<(usize, usize)>)
    ensures
        wide_gaps(r@) == gaps_behind(wide_gaps(gaps@), cut as int),
{
    let ghost wg = wide_gaps(gaps@);
    let mut out: Vec<(usize, usize)> = Vec::new();
    let mut i: usize = 0;
    assert(wg.take(0) =~= Seq::<(int, int)>::empty());
    assert(wide_gaps(out@) =~= Seq::<(int, int)>::empty());
    while i < gaps.len()
        invariant
            i <= gaps@.len(),
            wg == wide_gaps(gaps@),
            wide_gaps(out@) == gaps_behind(wg.take(i as int), cut as int),
        decreases gaps.len() - i,
    {
        let g = gaps[i];
        assert(wg.take(i + 1).drop_last() =~= wg.take(i as int));
        assert(wg.take(i + 1).last() == (g.0 as int, g.1 as int));
        if g.0 >= cut {
            let ghost before = wide_gaps(out@);
            out.push(g);
            assert(wide_gaps(out@) =~= before.push((g.0 as int, g.1 as int)));
        }
        i += 1;
    }
    assert(wg.take(i as int) =~= wg);
    out
}

/// Clips at the walk level: video before the first keyframe can never decode; drops
/// it (and the audio chunks interleaved beside it) unless the user wants the
/// wreckage.
fn clip(w: Walk, keep_preroll: bool, Ghost(media): Ghost<Seq<u8>>) -> (r: Option<(Walk, usize)>)
    requires
        parts_inside(w@, media),
    ensures
        match r {
            Some((q, dropped)) => playable(w@, keep_preroll) == Some((q@, dropped as int))
                && parts_inside(q@, media),
            None => playable(w@, keep_preroll) is None,
        },
{
    assert(w@.video.len() == w.video@.len());
    if keep_preroll || w.video.len() == 0 {
        return Some((w, 0));
    }
    let n: usize = find_first_sync(&w.video)?;
    if n == 0 {
        return Some((w, 0));
    }
    let cut: usize = w.video[n].off;
    assert(w@.video[n as int] == w.video@[n as int]@);
    let gaps = keep_gaps_behind(&w.gaps, cut);
    let mut video = w.video;
    let tail = video.split_off(n);
    proof {
        lemma_gaps_behind(w@.gaps, cut as int, media.len() as int);
        assert(units(tail@) =~= w@.video.skip(n as int));
    }
    let q = Walk { video: tail, gaps, torn: w.torn };
    proof {
        assert forall|i: int| 0 <= i < q@.video.len() implies 0 <= (#[trigger] q@.video[i]).off
            && q@.video[i].off + q@.video[i].size <= media.len() by {
            assert(q@.video[i] == w@.video[i + n]);
        }
    }
    Some((q, n))
}

fn to_ms(ticks: u128, timescale: u32) -> (r: u64)
    requires
        ticks <= 0x1_0000_0000_0000_0000_0000_0000,
    ensures
        r == ticks_to_ms(ticks as int, timescale),
{
    let d: u128 = if timescale == 0 {
        1
    } else {
        timescale as u128
    };
    let ms: u128 = ticks * 1000 / d;
    if ms <= u64::MAX as u128 {
        ms as u64
    } else {
        u64::MAX
    }
}

fn count_syncs(samples: &[Sample]) -> (n: usize)
    ensures
        n == sync_numbers(units(samples@)).len(),
{
    let ghost list = units(samples@);
    let mut n: usize = 0;
    let mut i: usize = 0;
    assert(list.take(0) =~= Seq::<Unit>::empty());
    while i < samples.len()
        invariant
            i <= samples@.len(),
            list == units(samples@),
            n <= i,
            n == sync_numbers(list.take(i as int)).len(),
        decreases samples.len() - i,
    {
        assert(list.take(i + 1).drop_last() =~= list.take(i as int));
        assert(list.take(i + 1).last() == samples@[i as int]@);
        if samples[i].sync {
            n += 1;
        }
        i += 1;
    }
    assert(list.take(i as int) =~= list);
    n
}

/// Trak boxes under construction.
struct Traks {
    bytes: Vec<u8>,
    duration_ms: u64,
    max_id: u32,
}

impl View for Traks {
    type V = Tracks;

    closed spec fn view(&self) -> Tracks {
        Tracks {
            bytes: self.bytes@,
            duration_ms: self.duration_ms as int,
            max_id: self.max_id as int,
        }
    }
}

/// Where the media starts in the new file.
fn find_base(media: &[u8]) -> (r: u64)
    ensures
        r == media_base(media@),
{
    if media.len() as u128 + 16 > u32::MAX as u128 {
        36
    } else {
        28
    }
}

fn build_video(media: &[u8], samples: &[Sample], dv: &DonorVideo) -> (r: (Traks, bool))
    requires
        forall|i: int|
            0 <= i < samples@.len() ==> (#[trigger] samples@[i]).off + samples@[i].size <= media@.len(),
    ensures
        r.0@.bytes == video_trak(media@, units(samples@), dv@),
        r.0@.duration_ms == ticks_to_ms(samples@.len() * dv.sample_delta, dv.timescale),
        r.0@.max_id == tkhd_id(held(dv.tkhd), 1),
        r.1 == regrown_ctts(media@, units(samples@), dv@) is Some,
{
    // Donor reorders B-frames (has a ctts)? Regrow ours from slice POCs.
    let ctts = if dv.has_ctts {
        compute_ctts(media, samples, dv)
    } else {
        None
    };
    assert(held_words(ctts) == regrown_ctts(media@, units(samples@), dv@));
    assert(units(samples@).len() == samples@.len());
    assert(samples@.len() == samples.len());
    assert(samples@.len() * dv.sample_delta <= u64::MAX * 0x1_0000_0000) by (nonlinear_arith)
        requires
            samples@.len() <= u64::MAX,
            dv.sample_delta <= 0x1_0000_0000,
    ;
    assert(0 <= samples@.len() * dv.sample_delta) by (nonlinear_arith)
        requires
            dv.sample_delta >= 0,
    ;
    let ticks: u128 = samples.len() as u128 * dv.sample_delta as u128;
    let ms: u64 = to_ms(ticks, dv.timescale);
    let (tkhd_box, id) = tkhd(&dv.tkhd, 1, false, ms);
    let mdhd_box = mdhd(dv.timescale, ticks);
    let mut flags: Vec<u8> = Vec::new();
    push_zeros(&mut flags, 8);
    assert(flags@ =~= zeros(8));
    let vmhd = full_box(&VMHD, 0, 1, &flags);
    let stbl = video_stbl(dv, samples, &ctts, find_base(media));
    let bytes = wrap_trak(&tkhd_box, &mdhd_box, &VIDE, &vmhd, &stbl);
    (Traks { bytes, duration_ms: ms, max_id: id }, ctts.is_some())
}

/// Builds an audio track behind the others.
fn build_audio(
    media: &[u8],
    chunks: &[(usize, u64)],
    total: u64,
    da: &DonorAudio,
    css: u32,
    t: Traks,
) -> (r: Traks)
    requires
        total == sample_total(wide_chunks(chunks@)),
        total > 0,
        da.constant_sample_size == Some(css),
    ensures
        r@ == with_audio(
            media@,
            wide_chunks(chunks@),
            Organs { video: None, audio: Some(da@) },
            t@,
        ),
{
    assert(total * da.sample_delta <= u64::MAX * 0x1_0000_0000) by (nonlinear_arith)
        requires
            total <= u64::MAX,
            da.sample_delta <= 0x1_0000_0000,
    ;
    assert(0 <= total * da.sample_delta) by (nonlinear_arith)
        requires
            total >= 0,
            da.sample_delta >= 0,
    ;
    let ticks: u128 = total as u128 * da.sample_delta as u128;
    let ms: u64 = to_ms(ticks, da.timescale);
    let fallback: u32 = t.max_id.wrapping_add(1);
    assert(fallback == (t.max_id + 1) % 0x1_0000_0000);
    let (tkhd_box, id) = tkhd(&da.tkhd, fallback, true, ms);
    let mdhd_box = mdhd(da.timescale, ticks);
    let mut flags: Vec<u8> = Vec::new();
    push_zeros(&mut flags, 4);
    assert(flags@ =~= zeros(4));
    let smhd = full_box(&SMHD, 0, 0, &flags);
    let stbl = audio_stbl(da, css, chunks, total as u128, find_base(media));
    let trak = wrap_trak(&tkhd_box, &mdhd_box, &SOUN, &smhd, &stbl);
    let mut bytes = t.bytes;
    push_all(&mut bytes, &trak);
    Traks {
        bytes,
        duration_ms: if t.duration_ms >= ms {
            t.duration_ms
        } else {
            ms
        },
        max_id: if t.max_id >= id {
            t.max_id
        } else {
            id
        },
    }
}

/// Assembles ftyp + mdat (payload verbatim) + a freshly grown moov.
fn assemble(media: &[u8], t: &Traks) -> (out: Vec<u8>)
    ensures
        out@ == file_bytes(media@, t@),
{
    let mut body = mvhd(1000, t.duration_ms, t.max_id as u64 + 1);
    push_all(&mut body, &t.bytes);
    let mut out = synth_ftyp();
    let ghost front = out@;
    if media.len() as u128 + 16 > u32::MAX as u128 {
        push_be32(&mut out, 1);
        push_all(&mut out, &MDAT);
        push_low64(&mut out, media.len() as u128 + 16);
        push_all(&mut out, media);
    } else {
        push_len32(&mut out, media.len(), 8);
        push_all(&mut out, &MDAT);
        push_all(&mut out, media);
    }
    assert(out@ =~= front + mdat_bytes(media@));
    push_all(&mut out, &boxed(&MOOV, &body));
    out
}

/// What [`transplant_opts`] answers, as the models put it.
pub open spec fn transplant_answer(r: Result<Transplant, TransplantError>) -> Result<
    Graft,
    TransplantError,
> {
    match r {
        Ok(t) => Ok(t@),
        Err(e) => Err(e),
    }
}

/// Grows an index over the playable parts of the media.
fn grow(
    media: &[u8],
    w: Walk,
    dropped: usize,
    donor: &Donor,
    audio_rate: Option<u32>,
) -> (r: Result<Transplant, TransplantError>)
    requires
        parts_inside(w@, media@),
    ensures
        transplant_answer(r) == graft_of(media@, w@, dropped as int, donor@, audio_rate),
{
    let ghost p = w@;
    let ghost o = donor@;
    let ghost gaps = p.gaps;
    assert(gaps.len() == w.gaps@.len());
    assert(p.video.len() == w.video@.len());
    assert(media@.len() == media.len());
    let limit: u64 = media.len() as u64;
    let (mut traks, ctts_recovered) = match &donor.video {
        Some(dv) => {
            proof {
                assert forall|i: int| 0 <= i < w.video@.len() implies (#[trigger] w.video@[i]).off
                    + w.video@[i].size <= media@.len() by {
                    assert(p.video[i] == w.video@[i]@);
                }
            }
            build_video(media, &w.video, dv)
        },
        None => (Traks { bytes: Vec::new(), duration_ms: 0, max_id: 0 }, false),
    };
    assert(traks@.bytes =~= video_tracks(media@, p.video, o).bytes);
    assert(traks@ == video_tracks(media@, p.video, o));
    let sync_samples: usize = match &donor.video {
        Some(_) => count_syncs(&w.video),
        None => 0,
    };
    let mut audio_samples: u64 = 0;
    let css: Option<u32> = match &donor.audio {
        Some(da) => da.constant_sample_size,
        None => None,
    };
    let ghost chunks = splittable(gaps, o);
    let ghost before = traks@;
    match (css, &donor.audio) {
        (Some(css), Some(da)) => {
            let list = count_chunks(&w.gaps, css);
            assert(wide_chunks(list@) == chunks);
            proof {
                lemma_samples_at_most_bytes(gaps, css);
                assert forall|i: int| 0 <= i < list@.len() implies (#[trigger] list@[i]).1
                    < 0x1_0000_0000 by {
                    assert(chunks[i] == (list@[i].0 as int, list@[i].1 as int));
                }
            }
            let total: u128 = total_samples(&list);
            if total > 0 {
                audio_samples = total as u64;
                traks = build_audio(media, &list, audio_samples, da, css, traks);
            }
        },
        _ => {
            assert(sample_total(chunks) == 0);
        },
    }
    assert(audio_samples == sample_total(chunks));
    assert(traks@ == with_audio(media@, chunks, o, before));
    let mut lost: u64 = match css {
        Some(css) => {
            proof {
                lemma_claimed_bytes(gaps, css);
                assert(css * sample_total(chunks) == css * audio_samples);
            }
            let claimed: u64 = css as u64 * audio_samples;
            sum_gaps(&w.gaps, limit) - claimed
        },
        None => sum_gaps(&w.gaps, limit),
    };
    // No PCM track was built, but the gaps may still be raw AAC. Salvage it
    // into an ADTS stream the rescue step can mux back in.
    let mut audio_adts: Option<Vec<u8>> = None;
    let mut aac_chunks: usize = 0;
    let mut aac_skipped: usize = 0;
    if audio_samples == 0 {
        if let Some(sr) = audio_rate {
            if let Some(rec) = aac::recover(media, &w.gaps, sr) {
                proof {
                    lemma_aac_bytes(media@, gaps);
                }
                aac_chunks = rec.chunks;
                aac_skipped = rec.skipped;
                // chunks we DID keep aren't "dropped"
                lost = sum_gaps(&w.gaps, limit) - sum_aac(media, &w.gaps, limit);
                audio_adts = Some(rec.adts);
            }
        }
    }
    let ghost idx = salvage(media@, gaps, sample_total(chunks), audio_rate);
    assert(idx is Some == audio_adts is Some);
    if donor.video.is_none() && audio_samples == 0 {
        return Err(TransplantError::NoTracks);
    }
    let out = assemble(media, &traks);
    Ok(
        Transplant {
            out,
            video_samples: w.video.len(),
            sync_samples,
            dropped_leading: dropped,
            audio_samples,
            audio_bytes_dropped: lost,
            torn_bytes: w.torn,
            duration_ms: traks.duration_ms,
            ctts_recovered,
            audio_adts,
            aac_chunks,
            aac_skipped,
        },
    )
}

/// What a walk finds lies in the media.
proof fn lemma_parts_inside(media: Seq<u8>, dv: VideoOrgans, head_torn: bool)
    ensures
        parts_inside(parts_from(media, dv, 0, head_torn, None), media),
{
    let p = parts_from(media, dv, 0, head_torn, None);
    lemma_parts(media, dv, 0, head_torn, None);
    lemma_video_bytes_sign(p.video, 0, media.len() as int);
}

/// Reads the media with the donor's grammar.
fn read_media(media: &[u8], head_torn: bool, donor: &Donor) -> (w: Walk)
    ensures
        w@ == media_parts(media@, head_torn, donor@),
        parts_inside(w@, media@),
{
    match &donor.video {
        Some(dv) => {
            proof {
                lemma_parts_inside(media@, dv@, head_torn);
            }
            walk_media(media, head_torn, dv)
        },
        None => {
            let mut gaps: Vec<(usize, usize)> = Vec::new();
            gaps.push((0, media.len()));
            assert(wide_gaps(gaps@) =~= seq![(0int, media@.len() as int)]);
            proof {
                lemma_one_gap((0, media@.len() as int));
            }
            let w = Walk { video: Vec::new(), gaps, torn: 0 };
            assert(w@.video =~= Seq::<Unit>::empty());
            w
        },
    }
}

/// Regrows the index of a broken file with a donor's organs.
///
/// `audio_rate`: Some(sr) attempts raw-AAC salvage from the gaps at that
/// sample rate when no PCM audio track is built; None disables it.
pub fn transplant_opts(
    broken: &[u8],
    donor: &Donor,
    keep_preroll: bool,
    audio_rate: Option<u32>,
) -> (r: Result<Transplant, TransplantError>)
    ensures
        transplant_answer(r) == transplanted(broken@, donor@, keep_preroll, audio_rate),
{
    let (start, end, head_torn) = locate_media(broken);
    let media = &broken[start..end];
    if media.len() == 0 {
        return Err(TransplantError::NoMedia);
    }
    let w = read_media(media, head_torn, donor);
    assert(w@.video.len() == w.video@.len());
    if donor.video.is_some() && w.video.len() == 0 {
        return Err(TransplantError::NothingMatches);
    }
    match clip(w, keep_preroll, Ghost(media@)) {
        Some((q, dropped)) => grow(media, q, dropped, donor, audio_rate),
        None => Err(TransplantError::NoKeyframe),
    }
}

proof fn lemma_video_bytes_sign(v: Seq<Unit>, low: int, high: int)
    requires
        laid_out(v, low, high),
    ensures
        video_bytes(v) >= 0,
    decreases v.len(),
{
    if v.len() > 0 {
        assert(v.last() == v[v.len() - 1]);
        let h = v.drop_last();
        assert forall|i: int| 0 <= i < h.len() implies low <= (#[trigger] h[i]).off && 0 <= h[i].size
            && h[i].off + h[i].size <= high by {
            assert(h[i] == v[i]);
        }
        assert forall|i: int, j: int| 0 <= i < j < h.len() implies (#[trigger] h[i]).off + h[i].size
            <= (#[trigger] h[j]).off by {
            assert(h[i] == v[i] && h[j] == v[j]);
        }
        lemma_video_bytes_sign(h, low, high);
    }
}

proof fn lemma_first_sync(v: Seq<Unit>, i: int)
    requires
        0 <= i,
    ensures
        first_sync(v, i) matches Some(n) ==> i <= n < v.len() && v[n].sync,
    decreases v.len() - i,
{
    if i < v.len() && !v[i].sync {
        lemma_first_sync(v, i + 1);
    }
}

proof fn lemma_sync_numbers(v: Seq<Unit>)
    ensures
        sync_numbers(v).len() <= v.len(),
        v.len() > 0 && v[0].sync ==> sync_numbers(v).len() > 0 && sync_numbers(v)[0] == 1,
    decreases v.len(),
{
    if v.len() > 0 {
        lemma_sync_numbers(v.drop_last());
    }
}

/// What holds of every transplant: the media, of which there is some, stands verbatim
/// between a new ftyp and one new moov; not more samples are sync than there are; with the
/// pre-roll kept, nothing is dropped, and without it, video begins with a sync sample; and
/// no AAC is salvaged unless a rate is given.
pub proof fn law_transplants_carry_the_media(
    d: Seq<u8>,
    o: Organs,
    keep_preroll: bool,
    rate: Option<u32>,
)
    requires
        transplanted(d, o, keep_preroll, rate) is Ok,
    ensures
        ({
            let (start, end, head_torn) = media_of(d);
            let media = d.subrange(start, end);
            let g = transplanted(d, o, keep_preroll, rate)->Ok_0;
            let played = playable(media_parts(media, head_torn, o), keep_preroll);
            &&& media.len() > 0
            &&& exists|body: Seq<u8>|
                g.out == ftyp_box() + mdat_bytes(media) + #[trigger] box_bytes(MOOV@, body)
            &&& media.len() + 16 <= u32::MAX ==> mdat_bytes(media) == be32_bytes(
                media.len() as int + 8,
            ) + MDAT@ + media
            &&& 0 <= g.sync_samples <= g.video_samples
            &&& keep_preroll ==> g.dropped_leading == 0
            &&& !keep_preroll && o.video is Some ==> {
                &&& g.video_samples >= 1
                &&& g.sync_samples >= 1
                &&& played matches Some((p, dropped)) && p.video.len() == g.video_samples
                    && p.video[0].sync && sync_numbers(p.video)[0] == 1 && dropped
                    == g.dropped_leading
            }
            &&& rate is None ==> g.audio_adts is None && g.aac_chunks == 0 && g.aac_skipped == 0
        }),
{
    let (start, end, head_torn) = media_of(d);
    let media = d.subrange(start, end);
    let p = media_parts(media, head_torn, o);
    let (q, dropped) = playable(p, keep_preroll).unwrap();
    let t = with_audio(media, splittable(q.gaps, o), o, video_tracks(media, q.video, o));
    let body = mvhd_bytes(1000, t.duration_ms, t.max_id + 1) + t.bytes;
    assert(file_bytes(media, t) == ftyp_box() + mdat_bytes(media) + box_bytes(MOOV@, body));
    lemma_first_sync(p.video, 0);
    lemma_sync_numbers(q.video);
}

// ---------------------------------------------------------------------------
// What the recovered timing guarantees
// ---------------------------------------------------------------------------

pub proof fn lemma_gop_start_shape(pocs: Seq<(bool, int)>, i: int)
    requires
        0 <= i < pocs.len(),
    ensures
        0 <= gop_start(pocs, i) <= i,
        gop_start(pocs, i) == 0 || pocs[gop_start(pocs, i)].0,
        forall|j: int| gop_start(pocs, i) < j <= i ==> !(#[trigger] pocs[j]).0,
    decreases i,
{
    if i > 0 && !pocs[i].0 {
        lemma_gop_start_shape(pocs, i - 1);
    }
}

pub proof fn lemma_gop_end_shape(pocs: Seq<(bool, int)>, i: int)
    requires
        0 <= i < pocs.len(),
    ensures
        i < gop_end(pocs, i) <= pocs.len(),
        gop_end(pocs, i) == pocs.len() || pocs[gop_end(pocs, i)].0,
        forall|j: int| i < j < gop_end(pocs, i) ==> !(#[trigger] pocs[j]).0,
    decreases pocs.len() - i,
{
    if i + 1 < pocs.len() && !pocs[i + 1].0 {
        lemma_gop_end_shape(pocs, i + 1);
    }
}

proof fn lemma_count_at_most(keys: Seq<int>, a: int, b: int, from: int, to: int)
    requires
        from <= to,
        shown_before(keys, a, b),
    ensures
        0 <= count_before(keys, a, from, to) <= count_before(keys, b, from, to) <= to - from,
        from <= a < to ==> count_before(keys, a, from, to) < count_before(keys, b, from, to),
    decreases to - from,
{
    if from < to {
        lemma_count_at_most(keys, a, b, from, to - 1);
    }
}

proof fn lemma_count_below(keys: Seq<int>, a: int, from: int, to: int)
    requires
        from <= to,
    ensures
        0 <= count_before(keys, a, from, to) <= to - from,
        from <= a < to ==> count_before(keys, a, from, to) < to - from,
    decreases to - from,
{
    if from < to {
        lemma_count_below(keys, a, from, to - 1);
    }
}

/// Recovered timing shows the samples in the order that their POCs say: within a
/// GOP, a sample with a lower display position ranks first (in decode order where
/// positions are the same), and every sample of a GOP ranks before those of a later
/// one.
pub proof fn law_ranks_follow_display_order(pocs: Seq<(bool, int)>, log2: nat, a: int, b: int)
    requires
        0 <= a < pocs.len(),
        0 <= b < pocs.len(),
        gop_start(pocs, a) < gop_start(pocs, b) || (gop_start(pocs, a) == gop_start(pocs, b)
            && shown_before(display_keys(pocs, log2), a, b)),
    ensures
        display_ranks(pocs, log2)[a] < display_ranks(pocs, log2)[b],
{
    let keys = display_keys(pocs, log2);
    lemma_gop_start_shape(pocs, a);
    lemma_gop_start_shape(pocs, b);
    lemma_gop_end_shape(pocs, a);
    lemma_gop_end_shape(pocs, b);
    let (ga, ea) = (gop_start(pocs, a), gop_end(pocs, a));
    let (gb, eb) = (gop_start(pocs, b), gop_end(pocs, b));
    assert forall|j: int| ga < j < ea implies !(#[trigger] pocs[j]).0 by {}
    if ga == gb {
        assert(ga <= b < ea) by {
            if b >= ea {
                assert(!pocs[ea].0);
            }
        }
        lemma_gop(pocs, ga, ea, b);
        lemma_count_at_most(keys, a, b, ga, ea);
    } else {
        assert(ea <= gb) by {
            if gb < ea {
                assert(!pocs[gb].0);
            }
        }
        lemma_count_below(keys, a, ga, ea);
        lemma_count_below(keys, b, gb, eb);
    }
}

/// Every sample has a display rank of its own, and the ranks are the numbers from 0 on:
/// they permute the samples.
pub proof fn law_ranks_are_a_permutation(pocs: Seq<(bool, int)>, log2: nat)
    ensures
        display_ranks(pocs, log2).len() == pocs.len(),
        display_ranks(pocs, log2).no_duplicates(),
        forall|r: int| #[trigger]
            display_ranks(pocs, log2).contains(r) <==> 0 <= r < pocs.len(),
{
    let keys = display_keys(pocs, log2);
    let ranks = display_ranks(pocs, log2);
    let n = pocs.len() as int;
    assert forall|i: int| 0 <= i < n implies 0 <= #[trigger] ranks[i] < n by {
        lemma_gop_start_shape(pocs, i);
        lemma_gop_end_shape(pocs, i);
        lemma_count_below(keys, i, gop_start(pocs, i), gop_end(pocs, i));
    }
    assert forall|a: int, b: int| 0 <= a < n && 0 <= b < n && a != b implies #[trigger] ranks[a]
        != #[trigger] ranks[b] by {
        let (ga, gb) = (gop_start(pocs, a), gop_start(pocs, b));
        if ga < gb || (ga == gb && shown_before(keys, a, b)) {
            law_ranks_follow_display_order(pocs, log2, a, b);
        } else {
            law_ranks_follow_display_order(pocs, log2, b, a);
        }
    }
    ranks.unique_seq_to_set();
    lemma_int_range(0, n);
    seq_to_set_is_finite(ranks);
    assert(ranks.to_set().subset_of(set_int_range(0, n)));
    lemma_subset_equality(ranks.to_set(), set_int_range(0, n));
    assert forall|r: int| #[trigger] ranks.contains(r) <==> 0 <= r < n by {
        assert(ranks.to_set().contains(r) <==> set_int_range(0, n).contains(r));
    }
}

/// No sample is shown before it is decoded: with the reorder delay, every
/// composition offset is non-negative.
pub proof fn law_composition_offsets_are_not_negative(pocs: Seq<(bool, int)>, log2: nat, i: int)
    requires
        0 <= i < pocs.len(),
    ensures
        ({
            let ranks = display_ranks(pocs, log2);
            ranks[i] + reorder_delay(ranks, ranks.len() as int) - i >= 0
        }),
{
    let keys = display_keys(pocs, log2);
    let ranks = display_ranks(pocs, log2);
    assert forall|j: int| 0 <= j < ranks.len() implies 0 <= #[trigger] ranks[j] by {
        lemma_gop_start_shape(pocs, j);
        lemma_gop_end_shape(pocs, j);
        lemma_count_below(keys, j, gop_start(pocs, j), gop_end(pocs, j));
    }
    lemma_delay(ranks, ranks.len() as int);
}

/// Salvaged audio is the gaps that open like AAC, each seven bytes longer for its
/// header.
pub proof fn law_salvage_gains_a_header_per_chunk(media: Seq<u8>, gaps: Seq<(int, int)>, sr_idx: u8)
    requires
        forall|i: int|
            0 <= i < gaps.len() ==> 0 <= (#[trigger] gaps[i]).0 && 0 <= gaps[i].1 && gaps[i].0
                + gaps[i].1 <= media.len(),
    ensures
        wrapped(media, gaps, sr_idx).len() == aac_bytes(media, gaps) + 7 * aac_gaps(media, gaps),
    decreases gaps.len(),
{
    if gaps.len() > 0 {
        let head = gaps.drop_last();
        assert forall|i: int| 0 <= i < head.len() implies 0 <= (#[trigger] head[i]).0 && 0 <= head[i].1
            && head[i].0 + head[i].1 <= media.len() by {
            assert(head[i] == gaps[i]);
        }
        law_salvage_gains_a_header_per_chunk(media, head, sr_idx);
        assert(gaps.last() == gaps[gaps.len() - 1]);
    }
}

} // verus!
