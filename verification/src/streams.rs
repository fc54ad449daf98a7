//! What headerless streams are found to be: streams are put together here from frames,
//! packets and units as their formats lay them out, and the scanners name them.
use crate::aac::{
    aac_gaps, adts_bytes, gaps_inside, law_adts_header_reads_back, rate_index, wrapped,
};
use crate::bytes::{be32_at, be32_bytes};
use crate::forensics::{
    adts_confidence, adts_frame, avcc_chain, avcc_confidence, avcc_found, first_cadence,
    first_chain, frame_at, frame_chain, frames_found, mp3_confidence, mp3_header, sync_run,
    ts_confidence, ts_found, Framing, ADTS_FREQS, MP3_BITRATES_V1L3, MP3_BITRATES_V2L3,
    MP3_RATES_V1, MP3_RATES_V2, MP3_RATES_V25,
};
use crate::text::decimal;
use vstd::arithmetic::div_mod::lemma_fundamental_div_mod;
use vstd::prelude::*;
use vstd::string::*;

verus! {

broadcast use crate::bytes::group_lengths;

// ---------------------------------------------------------------------------
// MPEG audio, Layer III
// ---------------------------------------------------------------------------

/// The bitrate that Layer III gives the index `b`, from 1 to 14, in kbit/s. Those of MPEG-1
/// (version 3) are four to an octave from 32 on; those of MPEG-2 and 2.5 are 8 apart up to
/// 64, and 16 apart above.
pub open spec fn layer3_kbps(version: int, b: int) -> int {
    if version == 3 {
        let step = 32 + 8 * ((b - 1) % 4);
        if b <= 4 {
            step
        } else if b <= 8 {
            2 * step
        } else if b <= 12 {
            4 * step
        } else {
            8 * step
        }
    } else if b <= 8 {
        8 * b
    } else {
        16 * (b - 4)
    }
}

/// The sample rate that Layer III gives the index `r`, from 0 to 2: MPEG-2 halves those of
/// MPEG-1, and MPEG-2.5 (version 0) halves them again.
pub open spec fn layer3_rate(version: int, r: int) -> int {
    let full = if r == 0 {
        44100int
    } else if r == 1 {
        48000
    } else {
        32000
    };
    if version == 3 {
        full
    } else if version == 2 {
        full / 2
    } else {
        full / 4
    }
}

/// How many samples a Layer III frame holds.
pub open spec fn layer3_samples(version: int) -> int {
    if version == 3 {
        1152
    } else {
        576
    }
}

/// What the MPEG version is called.
pub open spec fn layer3_name(version: int) -> Seq<char> {
    if version == 3 {
        "MPEG-1"@
    } else if version == 2 {
        "MPEG-2"@
    } else {
        "MPEG-2.5"@
    }
}

/// A Layer III frame header: eleven sync bits, version, layer, protection, bitrate, sample
/// rate, padding, and nine bits that say nothing about its length.
pub open spec fn layer3_header(
    version: int,
    protection: int,
    b: int,
    r: int,
    padding: int,
    rest: int,
) -> int {
    0xffe0_0000 + version * 0x8_0000 + 0x2_0000 + protection * 0x1_0000 + b * 0x1000 + r * 0x400
        + padding * 0x200 + rest
}

proof fn lemma_layer3_fields(version: int, protection: int, b: int, r: int, padding: int, rest: int)
    requires
        0 <= version < 4,
        0 <= protection < 2,
        0 <= b < 16,
        0 <= r < 4,
        0 <= padding < 2,
        0 <= rest < 0x200,
    ensures
        ({
            let h = layer3_header(version, protection, b, r, padding, rest);
            &&& h / 0x20_0000 == 0x7ff
            &&& (h / 0x8_0000) % 4 == version
            &&& (h / 0x2_0000) % 4 == 1
            &&& (h / 0x1000) % 16 == b
            &&& (h / 0x400) % 4 == r
            &&& (h / 0x200) % 2 == padding
        }),
{
    let h = layer3_header(version, protection, b, r, padding, rest);
    assert(h / 0x200 == 0x7ff000 + version * 0x400 + 0x100 + protection * 0x80 + b * 8 + r * 2
        + padding);
    assert(h / 0x400 == 0x3ff800 + version * 0x200 + 0x80 + protection * 0x40 + b * 4 + r);
    assert(h / 0x1000 == 0xffe00 + version * 0x80 + 0x20 + protection * 0x10 + b);
    assert(h / 0x2_0000 == 0x7ff0 + version * 4 + 1);
    assert(h / 0x8_0000 == 0x1ffc + version);
}

proof fn lemma_layer3_tables(b: int, r: int)
    requires
        1 <= b <= 14,
        0 <= r <= 2,
    ensures
        MP3_BITRATES_V1L3@[b] == layer3_kbps(3, b),
        MP3_BITRATES_V2L3@[b] == layer3_kbps(2, b),
        MP3_BITRATES_V2L3@[b] == layer3_kbps(0, b),
        MP3_RATES_V1@[r] == layer3_rate(3, r),
        MP3_RATES_V2@[r] == layer3_rate(2, r),
        MP3_RATES_V25@[r] == layer3_rate(0, r),
{
    assert(b == 1 || b == 2 || b == 3 || b == 4 || b == 5 || b == 6 || b == 7 || b == 8 || b == 9
        || b == 10 || b == 11 || b == 12 || b == 13 || b == 14);
    assert(r == 0 || r == 1 || r == 2);
}

/// A Layer III frame is as long as what it plays: without the padding byte, as many whole
/// bytes as its bitrate gives its samples. It is described by version, bitrate and rate.
pub proof fn law_layer3_frames_last_as_long_as_they_play(
    version: int,
    protection: int,
    b: int,
    r: int,
    padding: int,
    rest: int,
)
    requires
        version == 0 || version == 2 || version == 3,
        0 <= protection < 2,
        1 <= b <= 14,
        0 <= r <= 2,
        0 <= padding < 2,
        0 <= rest < 0x200,
    ensures
        ({
            let kbps = layer3_kbps(version, b);
            let rate = layer3_rate(version, r);
            &&& mp3_header(layer3_header(version, protection, b, r, padding, rest)) matches Some(
                (len, info),
            )
            &&& (len - padding) * rate <= layer3_samples(version) * 125 * kbps
            &&& layer3_samples(version) * 125 * kbps < (len - padding + 1) * rate
            &&& info == layer3_name(version) + " Layer III, "@ + decimal(kbps as nat) + " kbps, "@
                + decimal(rate as nat) + " Hz"@
        }),
{
    let kbps = layer3_kbps(version, b);
    let rate = layer3_rate(version, r);
    lemma_layer3_fields(version, protection, b, r, padding, rest);
    lemma_layer3_tables(b, r);
    let x = layer3_samples(version) * 125 * kbps;
    if version == 3 {
        assert(x == 144000 * kbps && kbps >= 32 && 0 < rate <= 48000);
    } else {
        assert(x == 72000 * kbps && kbps >= 8 && 0 < rate <= 24000);
    }
    let q = x / rate;
    lemma_fundamental_div_mod(x, rate);
    assert(q * rate <= x < (q + 1) * rate && q >= 24) by (nonlinear_arith)
        requires
            x == rate * q + x % rate,
            0 <= x % rate < rate,
            x >= 24 * rate,
            rate > 0,
    ;
}

/// A header is the sum of its fields.
proof fn lemma_layer3_parts(h: int)
    requires
        0 <= h,
        h / 0x20_0000 == 0x7ff,
        (h / 0x2_0000) % 4 == 1,
    ensures
        h == layer3_header(
            (h / 0x8_0000) % 4,
            (h / 0x1_0000) % 2,
            (h / 0x1000) % 16,
            (h / 0x400) % 4,
            (h / 0x200) % 2,
            h % 0x200,
        ),
{
    let a = h / 0x200;
    let b = h / 0x400;
    let c = h / 0x1000;
    let e = h / 0x1_0000;
    let f = h / 0x2_0000;
    let g = h / 0x8_0000;
    assert(b == a / 2);
    assert(c == b / 4);
    assert(e == c / 16);
    assert(f == e / 2);
    assert(g == f / 4);
    assert(h / 0x20_0000 == g / 4);
    assert(h == 0x200 * a + h % 0x200);
    assert(a == 2 * b + a % 2);
    assert(b == 4 * c + b % 4);
    assert(c == 16 * e + c % 16);
    assert(e == 2 * f + e % 2);
    assert(f == 4 * g + f % 4);
    assert(g == 4 * 0x7ff + g % 4);
}

/// Nothing else is a Layer III frame header: the sync must stand, the version and the
/// layer must be of this kind, and neither bitrate nor rate may be free or reserved.
pub proof fn law_other_headers_are_no_layer3(h: int)
    requires
        mp3_header(h) is Some,
        0 <= h <= u32::MAX,
    ensures
        exists|version: int, protection: int, b: int, r: int, padding: int, rest: int|
            {
                &&& h == #[trigger] layer3_header(version, protection, b, r, padding, rest)
                &&& version == 0 || version == 2 || version == 3
                &&& 0 <= protection < 2
                &&& 1 <= b <= 14
                &&& 0 <= r <= 2
                &&& 0 <= padding < 2
                &&& 0 <= rest < 0x200
            },
{
    let version = (h / 0x8_0000) % 4;
    let layer = (h / 0x2_0000) % 4;
    let protection = (h / 0x1_0000) % 2;
    let b = (h / 0x1000) % 16;
    let r = (h / 0x400) % 4;
    let padding = (h / 0x200) % 2;
    let rest = h % 0x200;
    lemma_layer3_parts(h);
    assert(MP3_BITRATES_V1L3@[0] == 0 && MP3_BITRATES_V1L3@[15] == 0);
    assert(MP3_BITRATES_V2L3@[0] == 0 && MP3_BITRATES_V2L3@[15] == 0);
    assert(MP3_RATES_V1@[3] == 0 && MP3_RATES_V2@[3] == 0 && MP3_RATES_V25@[3] == 0);
    assert(h == layer3_header(version, protection, b, r, padding, rest));
}

/// Padding adds one byte: a header and the one that differs from it in the padding bit
/// alone describe frames of the same kind, the padded one longer by one.
pub proof fn law_padding_adds_a_byte(h: int)
    requires
        0 <= h <= u32::MAX,
        (h / 0x200) % 2 == 0,
        mp3_header(h) is Some,
    ensures
        mp3_header(h) matches Some((len, info)) && mp3_header(h + 0x200) == Some((len + 1, info)),
{
    let g = h + 0x200;
    assert(g / 0x200 == h / 0x200 + 1);
    assert(g / 0x400 == h / 0x400);
    assert(g / 0x1000 == h / 0x1000);
    assert(g / 0x2_0000 == h / 0x2_0000);
    assert(g / 0x8_0000 == h / 0x8_0000);
    assert(g / 0x20_0000 == h / 0x20_0000);
}

// ---------------------------------------------------------------------------
// AAC in ADTS framing
// ---------------------------------------------------------------------------

/// The sample rate that ADTS gives an index below 13: three rates, halved three times, and
/// one more.
pub open spec fn adts_rate(f: int) -> int {
    if f == 12 {
        7350
    } else {
        let full = if f % 3 == 0 {
            96000int
        } else if f % 3 == 1 {
            88200
        } else {
            64000
        };
        if f < 3 {
            full
        } else if f < 6 {
            full / 2
        } else if f < 9 {
            full / 4
        } else {
            full / 8
        }
    }
}

/// What an AAC profile is called.
pub open spec fn adts_profile_name(profile: int) -> Seq<char> {
    if profile == 0 {
        "Main"@
    } else if profile == 1 {
        "LC"@
    } else if profile == 2 {
        "SSR"@
    } else {
        "LTP"@
    }
}

/// Every ADTS header reads as its fields say: the profile, the rate, and the length of the
/// frame, header and all, in thirteen bits over three bytes. The other bits are free.
pub proof fn law_adts_headers_read_as_written(
    d: Seq<u8>,
    mpeg2: bool,
    bare: bool,
    profile: int,
    f: int,
    len: int,
)
    requires
        d.len() >= 7,
        0 <= profile < 4,
        0 <= f < 13,
        7 <= len < 0x2000,
        d[0] == 0xff,
        d[1] == 0xf0 + (if mpeg2 {
            8int
        } else {
            0
        }) + (if bare {
            1int
        } else {
            0
        }),
        d[2] / 64 == profile,
        (d[2] / 4) % 16 == f,
        d[3] % 4 == len / 2048,
        d[4] == (len / 8) % 256,
        d[5] / 32 == len % 8,
    ensures
        adts_frame(d, 0) == Some(
            (
                len,
                "AAC "@ + adts_profile_name(profile) + " "@ + decimal(adts_rate(f) as nat) + " Hz"@,
            ),
        ),
{
    assert(0xf0u8 & 0xf6u8 == 0xf0u8) by (bit_vector);
    assert(0xf1u8 & 0xf6u8 == 0xf0u8) by (bit_vector);
    assert(0xf8u8 & 0xf6u8 == 0xf0u8) by (bit_vector);
    assert(0xf9u8 & 0xf6u8 == 0xf0u8) by (bit_vector);
    assert(f == 0 || f == 1 || f == 2 || f == 3 || f == 4 || f == 5 || f == 6 || f == 7 || f == 8
        || f == 9 || f == 10 || f == 11 || f == 12);
    assert(ADTS_FREQS@[f] == adts_rate(f));
}

// ---------------------------------------------------------------------------
// Chains of frames
// ---------------------------------------------------------------------------

/// The parts, one behind the other.
pub open spec fn run_together(parts: Seq<Seq<u8>>) -> Seq<u8>
    decreases parts.len(),
{
    if parts.len() == 0 {
        seq![]
    } else {
        parts[0] + run_together(parts.drop_first())
    }
}

/// Each part is a whole frame: its header says how long it is.
pub open spec fn whole_frames(framing: Framing, parts: Seq<Seq<u8>>) -> bool {
    forall|j: int|
        0 <= j < parts.len() ==> (frame_at(framing, #[trigger] parts[j], 0) matches Some((len, info))
            && len == parts[j].len())
}

/// A frame reads the same wherever it stands.
proof fn lemma_frame_moved(framing: Framing, front: Seq<u8>, frame: Seq<u8>, rest: Seq<u8>)
    requires
        frame_at(framing, frame, 0) matches Some((len, info)) && len == frame.len(),
    ensures
        frame_at(framing, front + frame + rest, front.len() as int) == frame_at(framing, frame, 0),
        frame.len() >= 7,
{
    let d = front + frame + rest;
    let p = front.len() as int;
    assert(frame.len() >= 7);
    assert forall|k: int| 0 <= k < 7 implies d[p + k] == frame[k] by {}
    assert(d[p] == frame[0]);
    assert(d[p + 1] == frame[1]);
    assert(d[p + 2] == frame[2]);
    assert(d[p + 3] == frame[3]);
    assert(d[p + 4] == frame[4]);
    assert(d[p + 5] == frame[5]);
    assert(be32_at(d, p) == be32_at(frame, 0));
}

proof fn lemma_chain_counts(framing: Framing, front: Seq<u8>, frames: Seq<Seq<u8>>, max: nat)
    requires
        whole_frames(framing, frames),
        frames.len() > 0,
    ensures
        frame_chain(framing, front + run_together(frames), front.len() as int, max) == if frames.len()
            < max {
            frames.len()
        } else {
            max
        },
    decreases frames.len(),
{
    if max > 0 {
        let d = front + run_together(frames);
        let head = frames[0];
        let tail = frames.drop_first();
        let rest = run_together(tail);
        assert(d =~= front + head + rest);
        lemma_frame_moved(framing, front, head, rest);
        if tail.len() > 0 {
            assert(whole_frames(framing, tail)) by {
                assert forall|j: int| 0 <= j < tail.len() implies (frame_at(
                    framing,
                    #[trigger] tail[j],
                    0,
                ) matches Some((len, info)) && len == tail[j].len()) by {
                    assert(tail[j] == frames[j + 1]);
                }
            }
            lemma_frame_moved(framing, seq![], tail[0], run_together(tail.drop_first()));
            assert(d =~= (front + head) + rest);
            lemma_chain_counts(framing, front + head, tail, (max - 1) as nat);
        } else {
            assert(rest =~= Seq::<u8>::empty());
        }
    }
}

proof fn lemma_first_chain(framing: Framing, d: Seq<u8>, i: int, at: int)
    requires
        0 <= i <= at < d.len(),
        frame_chain(framing, d, at, 8) >= 4,
        forall|p: int| i <= p < at ==> #[trigger] frame_chain(framing, d, p, 8) < 4,
    ensures
        first_chain(framing, d, i) == Some(at),
    decreases at - i,
{
    if i < at {
        lemma_first_chain(framing, d, i + 1, at);
    }
}

/// Four frames or more, one behind the other, are found where they start, behind whatever
/// does not itself look like four: as audio, described by the first of them, and the surer
/// the more there are, up to eight.
pub proof fn law_frames_are_found(framing: Framing, front: Seq<u8>, frames: Seq<Seq<u8>>)
    requires
        frames.len() >= 4,
        whole_frames(framing, frames),
        forall|p: int|
            0 <= p < front.len() ==> #[trigger] frame_chain(
                framing,
                front + run_together(frames),
                p,
                8,
            ) < 4,
    ensures
        ({
            let info = frame_at(framing, frames[0], 0).unwrap().1;
            let shown = decimal(
                if frames.len() < 8 {
                    frames.len()
                } else {
                    8
                },
            );
            let at = decimal(front.len());
            &&& frames_found(framing, front + run_together(frames)) matches Some(f)
            &&& f.offset == front.len()
            &&& f.class == "audio"@
            &&& framing == Framing::Mp3 ==> {
                &&& f.kind == "MP3 audio ("@ + info + ")"@
                &&& f.evidence == shown + "+ consecutive frame headers chain from offset "@ + at
                &&& frames.len() >= 8 <==> f.confidence == 0x3fee_6666_6666_6666
                &&& 0x3fea_3d70_a3d7_0a3d <= f.confidence <= 0x3fee_6666_6666_6666
                &&& frames.len() == 4 <==> f.confidence == 0x3fea_3d70_a3d7_0a3d
            }
            &&& framing == Framing::Adts ==> {
                &&& f.kind == "AAC audio in ADTS ("@ + info + ")"@
                &&& f.evidence == shown + "+ consecutive ADTS headers chain from offset "@ + at
                &&& frames.len() >= 8 <==> f.confidence == 0x3fed_c28f_5c28_f5c3
                &&& 0x3fe8_a3d7_0a3d_70a4 <= f.confidence <= 0x3fed_c28f_5c28_f5c3
                &&& frames.len() == 4 <==> f.confidence == 0x3fe8_a3d7_0a3d_70a4
            }
        }),
{
    let d = front + run_together(frames);
    let at = front.len() as int;
    lemma_chain_counts(framing, front, frames, 8);
    assert(d =~= front + frames[0] + run_together(frames.drop_first()));
    lemma_frame_moved(framing, front, frames[0], run_together(frames.drop_first()));
    lemma_first_chain(framing, d, 0, at);
}

// ---------------------------------------------------------------------------
// MPEG transport streams
// ---------------------------------------------------------------------------

/// A sync byte stands where the packet `j` behind `start` begins.
pub open spec fn sync_of(d: Seq<u8>, start: int, j: int) -> bool {
    start + 188 * j < d.len() && d[start + 188 * j] == 0x47
}

/// Sync bytes stand `n` times, 188 bytes apart, from `start` on.
pub open spec fn in_step(d: Seq<u8>, start: int, n: int) -> bool {
    forall|j: int| 0 <= j < n ==> #[trigger] sync_of(d, start, j)
}

proof fn lemma_next_step(d: Seq<u8>, start: int, n: int)
    requires
        0 <= start,
        n >= 1,
    ensures
        in_step(d, start, n) <==> sync_of(d, start, 0) && in_step(d, start + 188, n - 1),
{
    let next = start + 188;
    assert forall|j: int| sync_of(d, start, j + 1) == #[trigger] sync_of(d, next, j) by {
        assert(start + 188 * (j + 1) == next + 188 * j);
    }
    if in_step(d, start, n) {
        assert forall|j: int| 0 <= j < n - 1 implies #[trigger] sync_of(d, next, j) by {
            assert(sync_of(d, start, j + 1));
        }
    }
    if sync_of(d, start, 0) && in_step(d, next, n - 1) {
        assert forall|j: int| 0 <= j < n implies #[trigger] sync_of(d, start, j) by {
            if j > 0 {
                assert(sync_of(d, next, j - 1));
            }
        }
    }
}

proof fn lemma_in_step(d: Seq<u8>, start: int, n: int)
    requires
        0 <= start,
        0 <= n,
        in_step(d, start, n),
        !in_step(d, start, n + 1),
    ensures
        sync_run(d, start) == n,
    decreases n,
{
    lemma_next_step(d, start, n + 1);
    if n > 0 {
        lemma_next_step(d, start, n);
        lemma_in_step(d, start + 188, n - 1);
    }
}

proof fn lemma_run_is_in_step(d: Seq<u8>, start: int)
    requires
        0 <= start,
    ensures
        in_step(d, start, sync_run(d, start) as int),
    decreases
            (if start < d.len() {
                d.len() - start
            } else {
                0
            }),
{
    if start < d.len() && d[start] == 0x47 {
        lemma_run_is_in_step(d, start + 188);
        lemma_next_step(d, start, sync_run(d, start) as int);
    }
}

proof fn lemma_first_cadence(d: Seq<u8>, i: int, start: int)
    requires
        0 <= i <= start < 188,
        sync_run(d, start) >= 5,
        forall|s: int| i <= s < start ==> !#[trigger] in_step(d, s, 5),
    ensures
        first_cadence(d, i) == Some(start),
    decreases start - i,
{
    if i < start {
        lemma_run_is_in_step(d, i);
        if sync_run(d, i) >= 5 {
            assert(in_step(d, i, 5));
        }
        lemma_first_cadence(d, i + 1, start);
    }
}

/// Five packets or more in step are found as a transport stream, from the first byte that
/// is in step, and the surer the more there are, up to ten.
pub proof fn law_packets_in_step_are_found(d: Seq<u8>, start: int, n: int)
    requires
        d.len() >= 940,
        0 <= start < 188,
        n >= 5,
        in_step(d, start, n),
        !in_step(d, start, n + 1),
        forall|s: int| 0 <= s < start ==> !#[trigger] in_step(d, s, 5),
    ensures
        ts_found(d) matches Some(f) && f.offset == start && f.kind == "MPEG transport stream"@
            && f.class == "container"@ && f.evidence == decimal(n as nat)
            + " sync bytes at 188-byte cadence from offset "@ + decimal(start as nat) && (n >= 10
            <==> f.confidence == 0x3fef_0a3d_70a3_d70a) && 0x3fe8_0000_0000_0000 <= f.confidence
            <= 0x3fef_0a3d_70a3_d70a && (n == 5 <==> f.confidence == 0x3fe8_0000_0000_0000),
{
    lemma_in_step(d, start, n);
    lemma_first_cadence(d, 0, start);
}

// ---------------------------------------------------------------------------
// Length-prefixed H.264
// ---------------------------------------------------------------------------

/// A NAL unit behind its length.
pub open spec fn prefixed(unit: Seq<u8>) -> Seq<u8> {
    be32_bytes(unit.len() as int) + unit
}

/// NAL units as they stand in an mdat payload.
pub open spec fn prefixed_units(units: Seq<Seq<u8>>) -> Seq<u8> {
    run_together(units.map_values(|u: Seq<u8>| prefixed(u)))
}

/// Whether a unit may be a NAL unit: not empty, no forbidden bit, a type from 1 to 23.
pub open spec fn may_be_nal(unit: Seq<u8>) -> bool {
    0 < unit.len() <= u32::MAX && unit[0] < 128 && 1 <= unit[0] % 32 <= 23
}

proof fn lemma_prefixed_chain(front: Seq<u8>, units: Seq<Seq<u8>>, max: nat)
    requires
        forall|j: int| 0 <= j < units.len() ==> may_be_nal(#[trigger] units[j]),
    ensures
        avcc_chain(front + prefixed_units(units), front.len() as int, max) == if units.len() < max {
            units.len()
        } else {
            max
        },
    decreases units.len(),
{
    let d = front + prefixed_units(units);
    let parts = units.map_values(|u: Seq<u8>| prefixed(u));
    if units.len() == 0 {
        assert(d =~= front);
    } else if max > 0 {
        let u = units[0];
        let tail = units.drop_first();
        assert(parts.drop_first() =~= tail.map_values(|u: Seq<u8>| prefixed(u)));
        let rest = prefixed_units(tail);
        let len = be32_bytes(u.len() as int);
        assert(d =~= front + len + (u + rest));
        crate::bytes::lemma_be32_roundtrip(front, u.len() as int, u + rest);
        assert(d[front.len() as int + 4] == u[0]);
        assert forall|j: int| 0 <= j < tail.len() implies may_be_nal(#[trigger] tail[j]) by {
            assert(tail[j] == units[j + 1]);
        }
        assert(d =~= (front + len + u) + rest);
        lemma_prefixed_chain(front + len + u, tail, (max - 1) as nat);
    }
}

/// Six length-prefixed NAL units or more, from the start, are found as the payload of an
/// MP4 without its head, and the surer the more there are, up to fourteen.
pub proof fn law_prefixed_units_are_found(units: Seq<Seq<u8>>)
    requires
        units.len() >= 6,
        forall|j: int| 0 <= j < units.len() ==> may_be_nal(#[trigger] units[j]),
    ensures
        avcc_found(prefixed_units(units)) matches Some(f) && f.offset == 0 && f.class == "video"@
            && f.kind == "H.264 in MP4 framing (length-prefixed NALs)"@ && (units.len() >= 14
            <==> f.confidence == 0x3fec_cccc_cccc_cccd) && 0x3fe6_6666_6666_6667 <= f.confidence
            <= 0x3fec_cccc_cccc_cccd && (units.len() == 6 <==> f.confidence
            == 0x3fe6_6666_6666_6667),
{
    let d = prefixed_units(units);
    let none = Seq::<u8>::empty();
    assert(none + d =~= d);
    lemma_prefixed_chain(none, units, 16);
    let parts = units.map_values(|u: Seq<u8>| prefixed(u));
    assert(d == prefixed(units[0]) + run_together(parts.drop_first()));
}

// ---------------------------------------------------------------------------
// How sure
// ---------------------------------------------------------------------------

/// A confidence, by the bits of the number that it is, of so many in a thousand: from one half
/// up to one, a step of a bit is one in two to the 53rd.
pub open spec fn in_a_thousand(bits: u64, n: nat) -> bool {
    let off = 1000 * (bits - 0x3fe0_0000_0000_0000) - (n - 500) * 0x20_0000_0000_0000;
    -2000 <= off <= 2000
}

/// How sure a chain is: with every MP3 or ADTS frame three in a hundred more, with every sync
/// byte five, with every NAL unit two and a half, up to a limit each.
pub proof fn law_longer_chains_are_surer(n: nat)
    ensures
        4 <= n < 8 ==> in_a_thousand(mp3_confidence(n), 700 + 30 * n),
        n >= 8 ==> in_a_thousand(mp3_confidence(n), 950),
        4 <= n < 8 ==> in_a_thousand(adts_confidence(n), 650 + 30 * n),
        n >= 8 ==> in_a_thousand(adts_confidence(n), 930),
        5 <= n < 10 ==> in_a_thousand(ts_confidence(n), 500 + 50 * n),
        n >= 10 ==> in_a_thousand(ts_confidence(n), 970),
        6 <= n < 14 ==> in_a_thousand(avcc_confidence(n), 550 + 25 * n),
        n >= 14 ==> in_a_thousand(avcc_confidence(n), 900),
{
}

// ---------------------------------------------------------------------------
// Salvaged AAC
// ---------------------------------------------------------------------------

/// The rate index of ADTS is that of the rate: each of the twelve rates has the index that
/// stands for it, and no other number has one.
pub proof fn law_rates_have_their_index(rate: u32)
    ensures
        match rate_index(rate) {
            Some(i) => i < 12 && adts_rate(i as int) == rate,
            None => forall|i: int| 0 <= i < 12 ==> #[trigger] adts_rate(i) != rate,
        },
{
    assert forall|i: int| 0 <= i < 12 && rate_index(rate) is None implies #[trigger] adts_rate(i)
        != rate by {
        assert(i == 0 || i == 1 || i == 2 || i == 3 || i == 4 || i == 5 || i == 6 || i == 7 || i == 8
            || i == 9 || i == 10 || i == 11);
    }
}

/// A chunk opens like an AAC frame of a channel pair: more than sixteen bytes, of which the
/// first three bits are 001.
pub open spec fn pair_chunks(media: Seq<u8>) -> spec_fn((int, int)) -> bool {
    |g: (int, int)| g.1 > 16 && media[g.0] & 0xe0 == 0x20
}

/// A chunk behind an ADTS header of its own.
pub open spec fn framed(media: Seq<u8>, sr_idx: u8) -> spec_fn((int, int)) -> Seq<u8> {
    |g: (int, int)| adts_bytes(g.1, sr_idx, 2) + media.subrange(g.0, g.0 + g.1)
}

proof fn lemma_run_push(parts: Seq<Seq<u8>>, x: Seq<u8>)
    ensures
        run_together(parts.push(x)) == run_together(parts) + x,
    decreases parts.len(),
{
    if parts.len() == 0 {
        reveal_with_fuel(run_together, 2);
        assert(parts.push(x).drop_first() =~= Seq::<Seq<u8>>::empty());
        assert(run_together(parts.push(x)) =~= run_together(parts) + x);
    } else {
        let tail = parts.drop_first();
        lemma_run_push(tail, x);
        assert(parts.push(x).drop_first() =~= tail.push(x));
        assert(run_together(parts.push(x)) =~= run_together(parts) + x);
    }
}

/// What is salvaged are the chunks that open like AAC, in order, each as one ADTS frame that
/// holds the chunk byte for byte, in stereo at the rate that was asked for.
pub proof fn law_salvage_frames_every_aac_chunk(
    media: Seq<u8>,
    gaps: Seq<(int, int)>,
    sr_idx: u8,
)
    requires
        gaps_inside(media, gaps),
        sr_idx < 13,
    ensures
        wrapped(media, gaps, sr_idx) == run_together(
            gaps.filter(pair_chunks(media)).map_values(framed(media, sr_idx)),
        ),
        aac_gaps(media, gaps) == gaps.filter(pair_chunks(media)).len(),
    decreases gaps.len(),
{
    reveal(Seq::filter);
    let kept = gaps.filter(pair_chunks(media));
    let f = framed(media, sr_idx);
    if gaps.len() > 0 {
        let head = gaps.drop_last();
        let g = gaps.last();
        assert(g == gaps[gaps.len() - 1]);
        assert forall|i: int| 0 <= i < head.len() implies 0 <= (#[trigger] head[i]).0 && 0 <= head[i].1
            && head[i].0 + head[i].1 <= media.len() by {
            assert(head[i] == gaps[i]);
        }
        law_salvage_frames_every_aac_chunk(media, head, sr_idx);
        let before = head.filter(pair_chunks(media));
        let b = media[g.0];
        assert((b & 0xe0 == 0x20) == (b / 32 == 1)) by (bit_vector);
        if pair_chunks(media)(g) {
            assert(kept == before.push(g));
            assert(kept.map_values(f) =~= before.map_values(f).push(f(g)));
            lemma_run_push(before.map_values(f), f(g));
            let (x, y) = (adts_bytes(g.1, sr_idx, 2), media.subrange(g.0, g.0 + g.1));
            let w = wrapped(media, head, sr_idx);
            assert(w + x + y =~= w + (x + y));
        } else {
            assert(kept == before);
        }
    } else {
        assert(kept.map_values(f) =~= Seq::<Seq<u8>>::empty());
    }
}

/// Every salvaged frame is one: read as ADTS, it is AAC LC at the rate that was asked for, and
/// as long as its chunk and the seven bytes of its header.
pub proof fn law_salvaged_frames_are_whole(media: Seq<u8>, g: (int, int), sr_idx: u8)
    requires
        0 <= g.0,
        0 <= g.1 < 8192 - 7,
        g.0 + g.1 <= media.len(),
        sr_idx < 13,
    ensures
        frame_at(Framing::Adts, framed(media, sr_idx)(g), 0) == Some(
            (
                g.1 + 7,
                "AAC LC "@ + decimal(adts_rate(sr_idx as int) as nat) + " Hz"@,
            ),
        ),
        framed(media, sr_idx)(g).len() == g.1 + 7,
        framed(media, sr_idx)(g).skip(7) == media.subrange(g.0, g.0 + g.1),
{
    let body = media.subrange(g.0, g.0 + g.1);
    law_adts_header_reads_back(g.1, sr_idx, 2, body);
    let i = sr_idx as int;
    assert(i == 0 || i == 1 || i == 2 || i == 3 || i == 4 || i == 5 || i == 6 || i == 7 || i == 8
        || i == 9 || i == 10 || i == 11 || i == 12);
    assert(ADTS_FREQS@[i] == adts_rate(i));
    assert(framed(media, sr_idx)(g).skip(7) =~= body);
}

} // verus!
