//! Codec identification and per-codec Matroska head synthesis for the
//! reconstructive re-head. VP9 and Opus are recognized from their frames; tracks of
//! other codecs need a donor.
use crate::bits::{bit_of, bits_of, weight_at};
use crate::bytes::push_all;
use crate::ebml::{
    be_bytes, el, el_bytes, float32, lemma_el_length, uint, uint_bytes, ID_AUDIO, ID_CHANNELS,
    ID_CODEC_ID, ID_CODEC_PRIVATE, ID_PIXEL_HEIGHT, ID_PIXEL_WIDTH, ID_SAMPLING_FREQ,
    ID_TRACK_ENTRY, ID_TRACK_NUMBER, ID_TRACK_TYPE, ID_TRACK_UID, ID_VIDEO,
};
use vstd::prelude::*;

verus! {

/// What a track's surviving frames revealed about its codec.
#[derive(Debug, Clone, PartialEq)]
pub enum Codec {
    Vp9 { width: u32, height: u32 },
    Vp8 { width: u32, height: u32 },
    Av1 { width: u32, height: u32, config: Vec<u8> },
    Opus { channels: u8 },
    H264 { codec_private: Vec<u8>, width: u32, height: u32 },
    /// Parameters live in the lost `Tracks` and cannot be synthesized from
    /// frames (Vorbis codebooks, AAC AudioSpecificConfig) or could not be
    /// identified at all: needs a `--reference` donor.
    NeedsDonor { hint: &'static str },
}

/// What is known of a codec.
pub enum CodecShape {
    Vp9 { width: int, height: int },
    Vp8 { width: int, height: int },
    Av1 { width: int, height: int, config: Seq<u8> },
    Opus { channels: int },
    H264 { codec_private: Seq<u8>, width: int, height: int },
    NeedsDonor { hint: Seq<char> },
}

impl View for Codec {
    type V = CodecShape;

    open spec fn view(&self) -> CodecShape {
        match self {
            Codec::Vp9 { width, height } => CodecShape::Vp9 {
                width: *width as int,
                height: *height as int,
            },
            Codec::Vp8 { width, height } => CodecShape::Vp8 {
                width: *width as int,
                height: *height as int,
            },
            Codec::Av1 { width, height, config } => CodecShape::Av1 {
                width: *width as int,
                height: *height as int,
                config: config@,
            },
            Codec::Opus { channels } => CodecShape::Opus { channels: *channels as int },
            Codec::H264 { codec_private, width, height } => CodecShape::H264 {
                codec_private: codec_private@,
                width: *width as int,
                height: *height as int,
            },
            Codec::NeedsDonor { hint } => CodecShape::NeedsDonor { hint: hint@ },
        }
    }
}

// ---------------------------------------------------------------------------
// VP9 and Opus headers
// ---------------------------------------------------------------------------

/// The `n`-bit number at bit `pos`; bits past the end are zeros.
pub open spec fn field(s: Seq<bool>, pos: int, n: nat) -> int
    decreases n,
{
    if n == 0 {
        0
    } else {
        2 * field(s, pos, (n - 1) as nat) + weight_at(s, pos + n - 1)
    }
}

/// The width and height in the bits of a VP9 uncompressed header, if they are those
/// of a keyframe. VP9 bitstream, section 6.2.
pub open spec fn vp9_size(s: Seq<bool>) -> Option<(int, int)> {
    let profile = 2 * field(s, 3, 1) + field(s, 2, 1);
    // a reserved bit follows profile 3
    let p = if profile == 3 {
        5int
    } else {
        4int
    };
    let odd = profile == 1 || profile == 3;
    // behind the sync code: the bit depth flag of profiles 2 and 3
    let q = if profile >= 2 {
        p + 29
    } else {
        p + 28
    };
    // color space 7 has no range bit; odd profiles carry subsampling or a reserved bit
    let r = if field(s, q, 3) != 7 {
        if odd {
            q + 7
        } else {
            q + 4
        }
    } else {
        if odd {
            q + 4
        } else {
            q + 3
        }
    };
    if field(s, 0, 2) != 2  // frame_marker
     || field(s, p, 1) == 1  // show_existing_frame: no header follows
     || field(s, p + 1, 1) != 0  // not a keyframe
     || field(s, p + 4, 8) != 0x49 || field(s, p + 12, 8) != 0x83 || field(s, p + 20, 8) != 0x42 {
        None
    } else {
        Some((field(s, r, 16) + 1, field(s, r + 16, 16) + 1))
    }
}

fn read_field(buf: &[u8], pos: usize, n: usize) -> (v: u32)
    requires
        pos <= 1000,
        n <= 16,
    ensures
        v == field(bits_of(buf@), pos as int, n as nat),
        v < 0x1_0000,
{
    let ghost s = bits_of(buf@);
    let mut v: u32 = 0;
    let mut limit: u32 = 1;
    let mut k: usize = 0;
    while k < n
        invariant
            k <= n <= 16,
            pos <= 1000,
            s == bits_of(buf@),
            v == field(s, pos as int, k as nat),
            v < limit,
            limit <= 0x1_0000,
            k == 0 ==> limit == 1,
            k == 1 ==> limit == 2,
            k == 2 ==> limit == 4,
            k == 3 ==> limit == 8,
            k == 4 ==> limit == 16,
            k == 5 ==> limit == 32,
            k == 6 ==> limit == 64,
            k == 7 ==> limit == 128,
            k == 8 ==> limit == 256,
            k == 9 ==> limit == 512,
            k == 10 ==> limit == 1024,
            k == 11 ==> limit == 2048,
            k == 12 ==> limit == 4096,
            k == 13 ==> limit == 8192,
            k == 14 ==> limit == 16384,
            k == 15 ==> limit == 32768,
        decreases n - k,
    {
        let j: usize = pos + k;
        let b: u32 = if j / 8 < buf.len() {
            ((buf[j / 8] >> ((7 - j % 8) as u8)) & 1) as u32
        } else {
            0
        };
        assert(b == weight_at(s, pos + k)) by {
            if j / 8 < buf@.len() {
                let byte = buf@[j as int / 8];
                let sh = (7 - j % 8) as u8;
                assert((byte >> sh) & 1 <= 1) by (bit_vector);
                assert(s[j as int] == bit_of(byte, j as int % 8));
            }
        }
        v = v * 2 + b;
        limit = limit * 2;
        k += 1;
    }
    v
}

/// Parses a VP9 uncompressed header and, for a keyframe, returns `(width, height)`.
/// Returns `None` for non-VP9 data, inter frames, or `show_existing_frame`
/// (none of which carry frame size at the front).
pub fn vp9_dims(frame: &[u8]) -> (r: Option<(u32, u32)>)
    ensures
        match r {
            Some((w, h)) => vp9_size(bits_of(frame@)) == Some((w as int, h as int)),
            None => vp9_size(bits_of(frame@)) is None,
        },
{
    if read_field(frame, 0, 2) != 2 {
        return None;  // frame_marker
    }
    let profile: u32 = 2 * read_field(frame, 3, 1) + read_field(frame, 2, 1);
    let odd = profile == 1 || profile == 3;
    let p: usize = if profile == 3 {
        5
    } else {
        4
    };
    if read_field(frame, p, 1) == 1 || read_field(frame, p + 1, 1) != 0 {
        return None;  // show_existing_frame, or not a keyframe
    }
    if read_field(frame, p + 4, 8) != 0x49 || read_field(frame, p + 12, 8) != 0x83 || read_field(
        frame,
        p + 20,
        8,
    ) != 0x42 {
        return None;  // frame_sync_code
    }
    // color_config
    let q: usize = if profile >= 2 {
        p + 29
    } else {
        p + 28
    };
    let r: usize = if read_field(frame, q, 3) != 7 {
        if odd {
            q + 7
        } else {
            q + 4
        }
    } else {
        if odd {
            q + 4
        } else {
            q + 3
        }
    };
    // frame_size
    Some((read_field(frame, r, 16) + 1, read_field(frame, r + 16, 16) + 1))
}

/// Opus channel count from the TOC byte's stereo flag (bit `0x04`). This matches
/// the standard 1- or 2-channel case; multistream layouts are out of scope.
pub fn opus_channels(toc: u8) -> (r: u8)
    ensures
        r == if (toc / 4) % 2 == 1 {
            2int
        } else {
            1int
        },
{
    if (toc / 4) % 2 == 1 {
        2
    } else {
        1
    }
}

/// `OpusHead`.
pub const OPUS_HEAD: [u8; 8] = [0x4f, 0x70, 0x75, 0x73, 0x48, 0x65, 0x61, 0x64];

/// The 19-byte `OpusHead`: version 1, the channels, pre-skip 3840, input rate 48000,
/// no gain, mapping family 0; numbers are little-endian.
pub open spec fn opus_head_bytes(channels: u8) -> Seq<u8> {
    OPUS_HEAD@ + seq![1u8, channels, 0x00u8, 0x0fu8, 0x80u8, 0xbbu8, 0u8, 0u8, 0u8, 0u8, 0u8]
}

/// Builds the 19-byte `OpusHead` for `CodecPrivate`. Opus always decodes at
/// 48 kHz; pre-skip 3840 matches libopus/ffmpeg defaults. RFC 7845, section 5.1.
pub fn opus_head(channels: u8) -> (h: Vec<u8>)
    ensures
        h@ == opus_head_bytes(channels),
        h@.len() == 19,
{
    let mut h: Vec<u8> = Vec::new();
    push_all(&mut h, &OPUS_HEAD);
    let rest = [1, channels, 0x00, 0x0f, 0x80, 0xbb, 0, 0, 0, 0, 0];
    push_all(&mut h, &rest);
    assert(h@ =~= opus_head_bytes(channels));
    h
}

// ---------------------------------------------------------------------------
// Sniffing
// ---------------------------------------------------------------------------

/// Frames with their keyframe flags.
pub open spec fn frames_of(v: Seq<(bool, Vec<u8>)>) -> Seq<(bool, Seq<u8>)> {
    v.map_values(|f: (bool, Vec<u8>)| (f.0, f.1@))
}

/// The size of the first VP9 keyframe from `i` on; flagged keyframes only, if asked.
pub open spec fn first_vp9(v: Seq<(bool, Seq<u8>)>, i: int, flagged: bool) -> Option<(int, int)>
    decreases v.len() - i,
{
    if i < 0 || i >= v.len() {
        None
    } else if (v[i].0 || !flagged) && vp9_size(bits_of(v[i].1)) is Some {
        vp9_size(bits_of(v[i].1))
    } else {
        first_vp9(v, i + 1, flagged)
    }
}

/// Whether the frames look like Opus packets: all that hold anything share one TOC
/// config (the top 5 bits), the first among them, and one is flagged a keyframe.
///
/// Matroska/WebM audio SimpleBlocks are ALWAYS keyframe-flagged. VP9 inter frames (the
/// false-positive source) are never keyframe-flagged and happen to share a constant
/// top-5-bit value.
pub open spec fn looks_like_opus(v: Seq<(bool, Seq<u8>)>) -> bool {
    &&& v.len() > 0
    &&& v[0].1.len() > 0
    &&& exists|i: int| 0 <= i < v.len() && (#[trigger] v[i]).0
    &&& forall|i: int|
        0 <= i < v.len() ==> (#[trigger] v[i]).1.len() > 0 ==> v[i].1[0] / 8 == v[0].1[0] / 8
}

/// What the frames reveal: a VP9 keyframe carries its own geometry (flagged keyframes
/// are tried first, then any frame, since flags can be unreliable); else a constant
/// TOC config means Opus.
pub open spec fn sniffed(v: Seq<(bool, Seq<u8>)>) -> CodecShape {
    let size = match first_vp9(v, 0, true) {
        Some(x) => Some(x),
        None => first_vp9(v, 0, false),
    };
    match size {
        Some((width, height)) => CodecShape::Vp9 { width, height },
        None => if looks_like_opus(v) {
            CodecShape::Opus {
                channels: if (v[0].1[0] / 4) % 2 == 1 {
                    2
                } else {
                    1
                },
            }
        } else {
            CodecShape::NeedsDonor { hint: "unrecognized codec (Plan 1 handles VP9 + Opus)"@ }
        },
    }
}

fn find_vp9(frames: &[(bool, Vec<u8>)], flagged: bool) -> (r: Option<(u32, u32)>)
    ensures
        match r {
            Some((w, h)) => first_vp9(frames_of(frames@), 0, flagged) == Some((w as int, h as int)),
            None => first_vp9(frames_of(frames@), 0, flagged) is None,
        },
{
    let ghost v = frames_of(frames@);
    let mut i: usize = 0;
    while i < frames.len()
        invariant
            i <= frames@.len(),
            v == frames_of(frames@),
            first_vp9(v, 0, flagged) == first_vp9(v, i as int, flagged),
        decreases frames.len() - i,
    {
        assert(v[i as int] == (frames@[i as int].0, frames@[i as int].1@));
        if frames[i].0 || !flagged {
            if let Some(size) = vp9_dims(&frames[i].1) {
                return Some(size);
            }
        }
        i += 1;
    }
    None
}

fn find_opus(frames: &[(bool, Vec<u8>)]) -> (r: bool)
    ensures
        r == looks_like_opus(frames_of(frames@)),
{
    let ghost v = frames_of(frames@);
    if frames.len() == 0 {
        return false;
    }
    assert(v[0] == (frames@[0].0, frames@[0].1@));
    if frames[0].1.len() == 0 {
        return false;
    }
    let config: u8 = frames[0].1[0] / 8;
    let mut key = false;
    let mut i: usize = 0;
    while i < frames.len()
        invariant
            i <= frames@.len(),
            v == frames_of(frames@),
            v.len() > 0,
            v[0].1.len() > 0,
            config == v[0].1[0] / 8,
            key == exists|j: int| 0 <= j < i && (#[trigger] v[j]).0,
            forall|j: int| 0 <= j < i ==> (#[trigger] v[j]).1.len() > 0 ==> v[j].1[0] / 8 == config,
        decreases frames.len() - i,
    {
        assert(v[i as int] == (frames@[i as int].0, frames@[i as int].1@));
        if frames[i].1.len() > 0 && frames[i].1[0] / 8 != config {
            return false;
        }
        if frames[i].0 {
            key = true;
        }
        i += 1;
    }
    key
}

/// Identifies a track's codec from a sample of its frames. Each entry is
/// `(is_keyframe, frame_bytes)`. VP9 (video) and Opus (audio) are recognized;
/// anything else returns `NeedsDonor`.
pub fn sniff(frames: &[(bool, Vec<u8>)]) -> (r: Codec)
    ensures
        r@ == sniffed(frames_of(frames@)),
{
    if let Some((width, height)) = find_vp9(frames, true) {
        return Codec::Vp9 { width, height };
    }
    if let Some((width, height)) = find_vp9(frames, false) {
        return Codec::Vp9 { width, height };
    }
    if find_opus(frames) {
        assert(frames_of(frames@)[0] == (frames@[0].0, frames@[0].1@));
        return Codec::Opus { channels: opus_channels(frames[0].1[0]) };
    }
    Codec::NeedsDonor { hint: "unrecognized codec (Plan 1 handles VP9 + Opus)" }
}

// ---------------------------------------------------------------------------
// Track entries
// ---------------------------------------------------------------------------

/// `V_VP9`.
pub const V_VP9: [u8; 5] = [0x56, 0x5f, 0x56, 0x50, 0x39];

/// `A_OPUS`.
pub const A_OPUS: [u8; 6] = [0x41, 0x5f, 0x4f, 0x50, 0x55, 0x53];

/// The bits of the 32-bit float 48000.0.
pub const RATE_48K: u32 = 0x473b_8000;

/// Whether a track entry can be made for a codec.
pub open spec fn synthesizable(codec: CodecShape) -> bool {
    codec is Vp9 || codec is Opus
}

/// What follows the number and UID in a track entry.
pub open spec fn entry_details(codec: CodecShape) -> Seq<u8> {
    match codec {
        CodecShape::Vp9 { width, height } => uint_bytes(ID_TRACK_TYPE, 1) + el_bytes(
            ID_CODEC_ID,
            V_VP9@,
        ) + el_bytes(
            ID_VIDEO,
            uint_bytes(ID_PIXEL_WIDTH, width as nat) + uint_bytes(ID_PIXEL_HEIGHT, height as nat),
        ),
        CodecShape::Opus { channels } => uint_bytes(ID_TRACK_TYPE, 2) + el_bytes(
            ID_CODEC_ID,
            A_OPUS@,
        ) + el_bytes(ID_CODEC_PRIVATE, opus_head_bytes(channels as u8)) + el_bytes(
            ID_AUDIO,
            el_bytes(ID_SAMPLING_FREQ, be_bytes(RATE_48K as nat, 4)) + uint_bytes(
                ID_CHANNELS,
                channels as nat,
            ),
        ),
        _ => seq![],
    }
}

/// A `TrackEntry` element.
pub open spec fn track_entry_bytes(number: nat, codec: CodecShape) -> Seq<u8> {
    el_bytes(
        ID_TRACK_ENTRY,
        uint_bytes(ID_TRACK_NUMBER, number) + uint_bytes(ID_TRACK_UID, number) + entry_details(codec),
    )
}

fn vp9_details(width: u32, height: u32) -> (r: Vec<u8>)
    ensures
        r@ == entry_details(CodecShape::Vp9 { width: width as int, height: height as int }),
        r@.len() <= 100,
{
    let mut out = uint(ID_TRACK_TYPE, 1);  // video
    push_all(&mut out, &el(ID_CODEC_ID, &V_VP9));
    let mut video = uint(ID_PIXEL_WIDTH, width as u64);
    push_all(&mut video, &uint(ID_PIXEL_HEIGHT, height as u64));
    push_all(&mut out, &el(ID_VIDEO, &video));
    proof {
        lemma_el_length(ID_CODEC_ID, V_VP9@);
        lemma_el_length(ID_VIDEO, video@);
    }
    out
}

fn opus_details(channels: u8) -> (r: Vec<u8>)
    ensures
        r@ == entry_details(CodecShape::Opus { channels: channels as int }),
        r@.len() <= 200,
{
    let mut out = uint(ID_TRACK_TYPE, 2);  // audio
    push_all(&mut out, &el(ID_CODEC_ID, &A_OPUS));
    let head = opus_head(channels);
    push_all(&mut out, &el(ID_CODEC_PRIVATE, &head));
    let mut audio = float32(ID_SAMPLING_FREQ, RATE_48K);
    push_all(&mut audio, &uint(ID_CHANNELS, channels as u64));
    push_all(&mut out, &el(ID_AUDIO, &audio));
    proof {
        lemma_el_length(ID_CODEC_ID, A_OPUS@);
        lemma_el_length(ID_CODEC_PRIVATE, head@);
        lemma_el_length(ID_AUDIO, audio@);
    }
    out
}

/// Builds a `TrackEntry` element for a sniffed codec, of which callers have made
/// sure that it needs no donor.
pub fn track_entry(number: u64, codec: &Codec) -> (r: Vec<u8>)
    requires
        synthesizable(codec@),
    ensures
        r@ == track_entry_bytes(number as nat, codec@),
        r@.len() <= 300,
{
    let mut body = uint(ID_TRACK_NUMBER, number);
    push_all(&mut body, &uint(ID_TRACK_UID, number));
    match codec {
        Codec::Vp9 { width, height } => {
            push_all(&mut body, &vp9_details(*width, *height));
        },
        Codec::Opus { channels } => {
            push_all(&mut body, &opus_details(*channels));
        },
        _ => {},
    }
    proof {
        lemma_el_length(ID_TRACK_ENTRY, body@);
    }
    el(ID_TRACK_ENTRY, &body)
}

} // verus!
