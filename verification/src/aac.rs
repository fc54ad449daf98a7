//! Raw-AAC salvage from the interleave gaps.
//!
//! When the moov dies, so does the audio sample table: the per-frame sizes
//! that say where each AAC access unit begins. What survives is the audio as
//! the muxer left it: chunks of raw AAC sitting in the gaps *between* the
//! video samples the transplant walker steps over.
//!
//! Raw AAC carries no sync word and no length field, so in principle you
//! cannot find frame boundaries without an AAC parser. But there is a back
//! door. AAC-LC frames from a given encoder all open with the same syntax
//! element: for stereo, a CPE (channel-pair element), whose first byte is a
//! near-constant `0x21`. That lets us recognize an audio chunk. And the
//! decoder will swallow a whole chunk of *several* concatenated frames if we
//! hand it one ADTS header whose length spans the lot: libavcodec decodes
//! raw_data_block after raw_data_block until the packet runs out. So we don't
//! have to split the frames at all: we wrap each gap in one synthetic ADTS
//! header and let the decoder walk the blocks. (The downstream mux re-encodes
//! to one-AU-per-sample, so the multi-block packets never reach a player.)
use crate::bytes::push_all;
use crate::forensics::{adts_frame, ADTS_FREQS};
use crate::text::decimal;
use vstd::prelude::*;

verus! {

/// ADTS sampling_frequency_index for the rates consumer AAC actually uses.
pub open spec fn rate_index(rate: u32) -> Option<u8> {
    if rate == 96000 {
        Some(0)
    } else if rate == 88200 {
        Some(1)
    } else if rate == 64000 {
        Some(2)
    } else if rate == 48000 {
        Some(3)
    } else if rate == 44100 {
        Some(4)
    } else if rate == 32000 {
        Some(5)
    } else if rate == 24000 {
        Some(6)
    } else if rate == 22050 {
        Some(7)
    } else if rate == 16000 {
        Some(8)
    } else if rate == 12000 {
        Some(9)
    } else if rate == 11025 {
        Some(10)
    } else if rate == 8000 {
        Some(11)
    } else {
        None
    }
}

/// A 7-byte ADTS header (MPEG-4, AAC-LC, no CRC) for a payload of `len` bytes,
/// whose own length counts too, kept to 13 bits.
pub open spec fn adts_bytes(len: int, sr_idx: u8, channels: u8) -> Seq<u8> {
    let n = len + 7;
    seq![
        0xffu8,
        0xf1u8,
        0x40u8 | (sr_idx << 2u8) | ((channels >> 2u8) & 1),
        ((channels % 4) * 64 + (n / 2048) % 4) as u8,
        ((n / 8) % 256) as u8,
        ((n % 8) * 32 + 31) as u8,
        0xfcu8,
    ]
}

/// The ADTS header gives back what it was made of: read as a frame, it has the
/// payload's length and its own, the AAC-LC profile and the sample rate, and its
/// channel field holds the channel count.
pub proof fn law_adts_header_reads_back(len: int, sr_idx: u8, channels: u8, payload: Seq<u8>)
    requires
        0 <= len < 8192 - 7,
        sr_idx < 13,
        channels < 8,
    ensures
        adts_frame(adts_bytes(len, sr_idx, channels) + payload, 0) == Some(
            (len + 7, "AAC LC "@ + decimal(ADTS_FREQS@[sr_idx as int] as nat) + " Hz"@),
        ),
        adts_frame(adts_bytes(len, sr_idx, channels), 0) == Some(
            (len + 7, "AAC LC "@ + decimal(ADTS_FREQS@[sr_idx as int] as nat) + " Hz"@),
        ),
        (adts_bytes(len, sr_idx, channels)[2] % 2) * 4 + adts_bytes(len, sr_idx, channels)[3] / 64
            == channels,
{
    let b = 0x40u8 | (sr_idx << 2u8) | ((channels >> 2u8) & 1);
    assert(b == 64 + sr_idx * 4 + channels / 4) by (bit_vector)
        requires
            sr_idx < 13,
            channels < 8,
            b == 0x40u8 | (sr_idx << 2u8) | ((channels >> 2u8) & 1),
    ;
    assert(0xf1u8 & 0xf6u8 == 0xf0u8) by (bit_vector);
    let d = adts_bytes(len, sr_idx, channels) + payload;
    assert(d[0] == 0xff);
    assert(d[1] == 0xf1);
    assert(d[2] == b);
    assert(d[3] == (channels % 4) * 64 + ((len + 7) / 2048) % 4);
    assert(d[4] == ((len + 7) / 8) % 256);
    assert(d[5] == ((len + 7) % 8) * 32 + 31);
    assert("AAC LC "@ =~= "AAC "@ + "LC"@ + " "@) by {
        reveal_strlit("AAC LC ");
        reveal_strlit("AAC ");
        reveal_strlit("LC");
        reveal_strlit(" ");
    }
}

fn sr_index(sample_rate: u32) -> (r: Option<u8>)
    ensures
        r == rate_index(sample_rate),
{
    match sample_rate {
        96000 => Some(0),
        88200 => Some(1),
        64000 => Some(2),
        48000 => Some(3),
        44100 => Some(4),
        32000 => Some(5),
        24000 => Some(6),
        22050 => Some(7),
        16000 => Some(8),
        12000 => Some(9),
        11025 => Some(10),
        8000 => Some(11),
        _ => None,
    }
}

/// A 7-byte ADTS header for a `payload_len`-byte audio payload. ADTS is
/// self-describing (sample rate and channels live here), so no
/// AudioSpecificConfig (no donor audio track) is needed.
pub fn adts_header(payload_len: usize, sr_idx: u8, channels: u8) -> (h: [u8; 7])
    ensures
        h@ == adts_bytes(payload_len as int, sr_idx, channels),
{
    let n: u128 = payload_len as u128 + 7;
    let h = [
        0xff,
        0xf1,  // syncword, MPEG-4, Layer 0, protection_absent
        0x40u8 | (sr_idx << 2u8) | ((channels >> 2u8) & 1),  // profile AAC-LC(1)
        (channels % 4) * 64 + ((n / 2048) % 4) as u8,
        ((n / 8) % 256) as u8,
        ((n % 8) * 32 + 31) as u8,
        0xfc,  // buffer fullness VBR, 1 frame in ADTS frame
    ];
    assert(h@ =~= adts_bytes(payload_len as int, sr_idx, channels));
    h
}

/// Salvaged audio.
pub struct Recovery {
    /// One ADTS-wrapped audio chunk per accepted gap, concatenated.
    pub adts: Vec<u8>,
    /// Gaps that looked like AAC and were wrapped.
    pub chunks: usize,
    /// Gaps skipped (too small, or not AAC: walker-miss contamination).
    pub skipped: usize,
}

/// Whether a gap opens like an AAC-LC stereo frame: a CPE (0b001) in the top 3
/// bits. Encoders settle on 0x21 (CPE, instance 0, common window); the whole
/// CPE-with-instance range is accepted, to be forgiving.
pub open spec fn opens_like_aac(media: Seq<u8>, gap: (int, int)) -> bool {
    gap.1 > 16 && media[gap.0] / 32 == 1
}

/// Gaps as plain pairs.
pub open spec fn wide_gaps(v: Seq<(usize, usize)>) -> Seq<(int, int)> {
    v.map_values(|g: (usize, usize)| (g.0 as int, g.1 as int))
}

/// Gaps that lie in the media.
pub open spec fn gaps_inside(media: Seq<u8>, gaps: Seq<(int, int)>) -> bool {
    forall|i: int|
        0 <= i < gaps.len() ==> 0 <= (#[trigger] gaps[i]).0 && 0 <= gaps[i].1 && gaps[i].0 + gaps[i].1
            <= media.len()
}

/// How many of the gaps open like AAC.
pub open spec fn aac_gaps(media: Seq<u8>, gaps: Seq<(int, int)>) -> nat
    decreases gaps.len(),
{
    if gaps.len() == 0 {
        0
    } else {
        aac_gaps(media, gaps.drop_last()) + if opens_like_aac(media, gaps.last()) {
            1nat
        } else {
            0nat
        }
    }
}

/// The gaps that open like AAC, each behind a header of its own.
pub open spec fn wrapped(media: Seq<u8>, gaps: Seq<(int, int)>, sr_idx: u8) -> Seq<u8>
    decreases gaps.len(),
{
    if gaps.len() == 0 {
        seq![]
    } else {
        let (off, len) = gaps.last();
        let before = wrapped(media, gaps.drop_last(), sr_idx);
        if opens_like_aac(media, gaps.last()) {
            before + adts_bytes(len, sr_idx, 2) + media.subrange(off, off + len)
        } else {
            before
        }
    }
}

fn looks_like_aac(chunk: &[u8]) -> (r: bool)
    ensures
        r == (chunk@.len() > 16 && chunk@[0] / 32 == 1),
{
    chunk.len() > 16 && chunk[0] / 32 == 1
}

/// Wraps each audio gap in an ADTS header. `gaps` are (offset, len) into
/// `media`. Returns None if no rate index exists or nothing looked like AAC.
pub fn recover(media: &[u8], gaps: &[(usize, usize)], sample_rate: u32) -> (r: Option<Recovery>)
    requires
        rate_index(sample_rate) is Some ==> gaps_inside(media@, wide_gaps(gaps@)),
    ensures
        match r {
            Some(rec) => {
                &&& rate_index(sample_rate) matches Some(idx) && rec.adts@ == wrapped(
                    media@,
                    wide_gaps(gaps@),
                    idx,
                )
                &&& rec.chunks == aac_gaps(media@, wide_gaps(gaps@))
                &&& rec.chunks > 0
                &&& rec.skipped == gaps@.len() - rec.chunks
            },
            None => rate_index(sample_rate) is None || aac_gaps(media@, wide_gaps(gaps@)) == 0,
        },
{
    let sr_idx: u8 = sr_index(sample_rate)?;
    let mut adts: Vec<u8> = Vec::new();
    let mut chunks: usize = 0;
    let mut skipped: usize = 0;
    let mut i: usize = 0;
    let ghost wg = wide_gaps(gaps@);
    assert(wg.take(0) =~= Seq::<(int, int)>::empty());
    while i < gaps.len()
        invariant
            i <= gaps@.len(),
            wg == wide_gaps(gaps@),
            gaps_inside(media@, wg),
            chunks + skipped == i,
            chunks == aac_gaps(media@, wg.take(i as int)),
            adts@ == wrapped(media@, wg.take(i as int), sr_idx),
        decreases gaps.len() - i,
    {
        let (off, len) = gaps[i];
        assert(wg[i as int] == (off as int, len as int));
        assert(wg.take(i + 1).drop_last() =~= wg.take(i as int));
        assert(wg.take(i + 1).last() == (off as int, len as int));
        assert(off + len <= media.len());
        let chunk = &media[off..off + len];
        if looks_like_aac(chunk) {
            push_all(&mut adts, &adts_header(len, sr_idx, 2));
            push_all(&mut adts, chunk);
            chunks += 1;
        } else {
            skipped += 1;
        }
        i += 1;
    }
    assert(wg.take(i as int) =~= wg);
    if chunks == 0 {
        return None;
    }
    Some(Recovery { adts, chunks, skipped })
}

} // verus!
