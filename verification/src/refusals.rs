//! What is not taken for more than it is: whatever a scanner or a reader accepts has the form that
//! it must have, to the last field.
use crate::bits::{lemma_ue_range, read_ue};
use crate::bytes::{be32_at, be32_bytes, be64_at};
use crate::divine::{header_bits, slice_at};
use crate::ebml::{be_bytes, element_at, lemma_lead_byte, vint_at, vint_range};
use crate::forensics::{
    adts_frame, after_start_code, annexb_confidence, annexb_found, avcc_chain, avcc_found,
    first_avcc_chain, first_cadence, first_chain, frame_at, frame_chain, frames_found, has_type,
    nal_type_at, sps_pps_adjacent, start_codes, sync_run, ts_found, Framing,
};
use crate::matroska::simple_block;
use crate::mkv_codecs::{field, vp9_size};
use crate::mp4::{box_at, counted_longs, counted_pairs, counted_words};
use crate::streams::{in_step, may_be_nal, prefixed, prefixed_units, sync_of};
use crate::transplant::{nal_at, NalSpan};
use crate::walks::{lemma_prefixed_first, sound_nal};
use vstd::prelude::*;

verus! {

broadcast use crate::bytes::group_lengths;

// ---------------------------------------------------------------------------
// NAL units
// ---------------------------------------------------------------------------

/// What is walked as a NAL unit is a sound one behind its length. What is taken for torn has the
/// header of one, if there is room for it, and a length that could be one's but reaches beyond
/// the data.
pub proof fn law_only_sound_units_are_walked(d: Seq<u8>, i: int, max: int)
    ensures
        match nal_at(d, i, max) {
            NalSpan::Valid { len, ty } => {
                &&& 0 <= i && i + 4 + len <= d.len()
                &&& be32_at(d, i) == len
                &&& sound_nal(d.subrange(i + 4, i + 4 + len), max)
                &&& ty == d[i + 4] % 32
            },
            NalSpan::Torn => 0 <= i < d.len() && (d.len() - i < 5 || 2 <= be32_at(d, i) <= max
                && be32_at(d, i) > d.len() - i - 4 && d[i + 4] < 128),
            NalSpan::Invalid => true,
        },
{
    if let NalSpan::Valid { len, ty } = nal_at(d, i, max) {
        let nal = d.subrange(i + 4, i + 4 + len);
        assert(nal[0] == d[i + 4]);
    }
}

/// A slice on a tape is behind its length, of at least `min` bytes and eight megabytes at most,
/// is no more than an IDR slice or another, and opens a picture under one of four parameter sets.
pub proof fn law_only_picture_openings_are_evidence(d: Seq<u8>, i: int, min: int)
    requires
        0 <= i,
    ensures
        slice_at(d, i, min) matches Some((end, idr)) ==> {
            let window = header_bits(
                d,
                i + 5,
                if i + 17 <= d.len() {
                    i + 17
                } else {
                    d.len() as int
                },
            );
            &&& end == i + 4 + be32_at(d, i)
            &&& end <= d.len()
            &&& min <= be32_at(d, i) <= 8 * 1024 * 1024
            &&& d[i + 4] < 128
            &&& if idr {
                d[i + 4] % 32 == 5 && d[i + 4] >= 32
            } else {
                d[i + 4] % 32 == 1
            }
            &&& read_ue(window, 0) matches Some((mb, a)) && mb == 0 && {
                &&& read_ue(window, a) matches Some((ty, b)) && ty <= 9 && {
                    &&& idr ==> ty == 2 || ty == 4 || ty == 7 || ty == 9
                    &&& read_ue(window, b) matches Some((pps, _)) && pps <= 3
                }
            }
        },
{
    let window = header_bits(
        d,
        i + 5,
        if i + 17 <= d.len() {
            i + 17
        } else {
            d.len() as int
        },
    );
    lemma_ue_range(window, 0);
    if let Some((_, a)) = read_ue(window, 0) {
        lemma_ue_range(window, a);
    }
}

// ---------------------------------------------------------------------------
// Start codes
// ---------------------------------------------------------------------------

/// A start code stands at `i`, of three bytes or four, and the NAL unit at `hdr`.
pub open spec fn code_stands(d: Seq<u8>, i: int, hdr: int) -> bool {
    &&& 0 <= i && i + 4 < d.len()
    &&& d[i] == 0 && d[i + 1] == 0
    &&& d[i + 2] == 1 && hdr == i + 3 || d[i + 2] == 0 && d[i + 3] == 1 && hdr == i + 4
}

/// One of the profiles that H.264 has.
pub open spec fn is_profile(b: u8) -> bool {
    ||| b == 66 || b == 77 || b == 88
    ||| b == 100 || b == 110 || b == 122 || b == 244
    ||| b == 44 || b == 83 || b == 86 || b == 118 || b == 128
}

/// A NAL unit of type `ty` may stand at `hdr`: with no forbidden bit, a reference where it must
/// be one and none where it cannot; slices begin with no zero byte, and an SPS with a profile.
pub open spec fn unit_stands(d: Seq<u8>, hdr: int, ty: u8) -> bool {
    &&& 0 <= hdr < d.len()
    &&& d[hdr] < 128 && ty == d[hdr] % 32 && 1 <= ty <= 23
    &&& ty == 5 || ty == 7 || ty == 8 ==> d[hdr] >= 32
    &&& ty == 6 || ty == 9 || ty == 10 || ty == 11 || ty == 12 ==> d[hdr] < 32
    &&& ty <= 5 ==> hdr + 1 < d.len() && d[hdr + 1] != 0
    &&& ty == 7 ==> hdr + 1 < d.len() && is_profile(d[hdr + 1])
}

proof fn lemma_unit_stands(d: Seq<u8>, hdr: int)
    ensures
        forall|ty: u8| nal_type_at(d, hdr) == Some(ty) <==> #[trigger] unit_stands(d, hdr, ty),
{
    assert forall|ty: u8| nal_type_at(d, hdr) == Some(ty) <==> #[trigger] unit_stands(
        d,
        hdr,
        ty,
    ) by {}
}

/// A hit is a start code with a unit of its type behind it.
pub open spec fn hit_stands(d: Seq<u8>, hit: (int, u8)) -> bool {
    exists|hdr: int| #[trigger] code_stands(d, hit.0, hdr) && unit_stands(d, hdr, hit.1)
}

proof fn lemma_hits(d: Seq<u8>, i: int, room: nat)
    requires
        0 <= i,
    ensures
        ({
            let hits = start_codes(d, i, room);
            &&& hits.len() <= room
            &&& forall|k: int|
                0 <= k < hits.len() ==> i <= (#[trigger] hits[k]).0 && hit_stands(d, hits[k])
            &&& forall|k: int, l: int|
                0 <= k < l < hits.len() ==> (#[trigger] hits[k]).0 + 4 <= (#[trigger] hits[l]).0
        }),
    decreases d.len() - i,
{
    if i + 4 < d.len() && room > 0 {
        let after = after_start_code(d, i);
        if after is Some && nal_type_at(d, after.unwrap()) is Some {
            let hdr = after.unwrap();
            let ty = nal_type_at(d, hdr).unwrap();
            lemma_unit_stands(d, hdr);
            assert(code_stands(d, i, hdr));
            assert(unit_stands(d, hdr, ty));
            let rest = start_codes(d, hdr + 1, (room - 1) as nat);
            lemma_hits(d, hdr + 1, (room - 1) as nat);
            let hits = seq![(i, ty)] + rest;
            assert(start_codes(d, i, room) == hits);
            assert(hits[0] == (i, ty));
            assert(code_stands(d, hits[0].0, hdr));
            assert(hit_stands(d, hits[0]));
            assert forall|k: int| 0 <= k < hits.len() implies i <= (#[trigger] hits[k]).0
                && hit_stands(d, hits[k]) by {
                if k > 0 {
                    assert(hits[k] == rest[k - 1]);
                }
            }
            assert forall|k: int, l: int| 0 <= k < l < hits.len() implies (#[trigger] hits[k]).0 + 4
                <= (#[trigger] hits[l]).0 by {
                assert(hits[l] == rest[l - 1]);
                if k > 0 {
                    assert(hits[k] == rest[k - 1]);
                }
            }
        } else {
            lemma_hits(d, i + 1, room);
            assert(start_codes(d, i, room) == start_codes(d, i + 1, room));
        }
    }
}

/// A bare H.264 stream shows by four start codes at least, of 64 at most that are looked at, each
/// with a unit behind it, and by an SPS or an IDR slice among them. It is all but certain where a
/// PPS follows an SPS within 128 bytes and there is an IDR slice; else likely where there are all
/// three; else as likely as not.
pub proof fn law_start_codes_must_have_units(d: Seq<u8>)
    ensures
        ({
            let hits = start_codes(d, 0, 64);
            let idr = exists|k: int| 0 <= k < hits.len() && (#[trigger] hits[k]).1 == 5;
            let sps = exists|k: int| 0 <= k < hits.len() && (#[trigger] hits[k]).1 == 7;
            let pps = exists|k: int| 0 <= k < hits.len() && (#[trigger] hits[k]).1 == 8;
            let near = exists|k: int|
                0 <= k < hits.len() - 1 && (#[trigger] hits[k]).1 == 7 && hits[k + 1].1 == 8 && hits[k
                    + 1].0 - hits[k].0 <= 127;
            &&& hits.len() <= 64
            &&& forall|k: int| 0 <= k < hits.len() ==> hit_stands(d, #[trigger] hits[k])
            &&& annexb_found(d) is Some <==> hits.len() >= 4 && (sps || idr)
            &&& annexb_found(d) matches Some(f) ==> {
                &&& f.offset == hits[0].0
                &&& f.confidence == 0x3fee_b851_eb85_1eb8 <==> near && idr
                &&& f.confidence == 0x3fe1_9999_9999_999a <==> !near && sps && pps && idr
                &&& f.confidence == 0x3fe0_0000_0000_0000 <==> !near && !(sps && pps && idr) || !idr
            }
        }),
{
    let hits = start_codes(d, 0, 64);
    lemma_hits(d, 0, 64);
    assert(sps_pps_adjacent(hits) == exists|k: int|
        0 <= k < hits.len() - 1 && (#[trigger] hits[k]).1 == 7 && hits[k + 1].1 == 8 && hits[k
            + 1].0 - hits[k].0 <= 127);
    assert(has_type(hits, 5) == exists|k: int| 0 <= k < hits.len() && (#[trigger] hits[k]).1 == 5);
    assert(has_type(hits, 7) == exists|k: int| 0 <= k < hits.len() && (#[trigger] hits[k]).1 == 7);
    assert(has_type(hits, 8) == exists|k: int| 0 <= k < hits.len() && (#[trigger] hits[k]).1 == 8);
    if annexb_found(d) is Some {
        assert(annexb_found(d).unwrap().confidence == annexb_confidence(hits));
    }
}

// ---------------------------------------------------------------------------
// Length prefixes
// ---------------------------------------------------------------------------

/// What is counted as a chain is one: as many units as are counted stand there behind their
/// lengths, and where fewer were counted than could be, no other follows.
pub proof fn law_chains_are_made_of_units(d: Seq<u8>, i: int, max: nat) -> (units: Seq<Seq<u8>>)
    ensures
        units.len() == avcc_chain(d, i, max) <= max,
        forall|k: int| 0 <= k < units.len() ==> may_be_nal(#[trigger] units[k]),
        units.len() > 0 ==> 0 <= i && i + prefixed_units(units).len() <= d.len() && d.subrange(
            i,
            i + prefixed_units(units).len(),
        ) == prefixed_units(units),
        units.len() < max ==> avcc_chain(d, i + prefixed_units(units).len(), 1) == 0,
    decreases max,
{
    let none = Seq::<Seq<u8>>::empty();
    if avcc_chain(d, i, max) == 0 {
        let parts = none.map_values(|u: Seq<u8>| prefixed(u));
        assert(parts =~= none);
        assert(prefixed_units(none) =~= Seq::<u8>::empty());
        none
    } else {
        let len = be32_at(d, i);
        let unit = d.subrange(i + 4, i + 4 + len);
        let more = law_chains_are_made_of_units(d, i + 4 + len, (max - 1) as nat);
        let units = seq![unit] + more;
        assert(unit[0] == d[i + 4]);
        assert forall|k: int| 0 <= k < units.len() implies may_be_nal(#[trigger] units[k]) by {
            if k > 0 {
                assert(units[k] == more[k - 1]);
            } else {
                lemma_word_range(d, i);
            }
        }
        assert(units.drop_first() =~= more);
        lemma_prefixed_first(units);
        lemma_word_back(d, i);
        let here = prefixed(unit);
        assert(d.subrange(i, i + here.len()) =~= here);
        if more.len() == 0 {
            assert(more =~= none);
            let parts = more.map_values(|u: Seq<u8>| prefixed(u));
            assert(parts =~= Seq::<Seq<u8>>::empty());
            assert(prefixed_units(more) =~= Seq::<u8>::empty());
            assert(prefixed_units(units) =~= here);
        } else {
            let n = prefixed_units(more).len();
            assert(d.subrange(i, i + here.len() + n) =~= here + d.subrange(
                i + here.len(),
                i + here.len() + n,
            ));
        }
        units
    }
}

proof fn lemma_word_range(d: Seq<u8>, i: int)
    requires
        0 <= i,
        i + 4 <= d.len(),
    ensures
        0 <= be32_at(d, i) <= u32::MAX,
{
}

proof fn lemma_word_back(d: Seq<u8>, i: int)
    requires
        0 <= i,
        i + 4 <= d.len(),
    ensures
        be32_bytes(be32_at(d, i)) == d.subrange(i, i + 4),
{
    reveal(be32_bytes);
    reveal(crate::bytes::be16_bytes);
    assert(be32_bytes(be32_at(d, i)) =~= d.subrange(i, i + 4));
}

/// Length-prefixed units are looked for from every place in the first 64 KiB on, and taken from
/// the first at which six chain.
pub proof fn law_units_are_looked_for_at_the_front(d: Seq<u8>, i: int)
    requires
        0 <= i,
    ensures
        match first_avcc_chain(d, i) {
            Some(at) => i <= at <= 65531 && avcc_chain(d, at, 16) >= 6 && forall|j: int|
                i <= j < at ==> #[trigger] avcc_chain(d, j, 16) < 6,
            None => forall|j: int| i <= j <= 65531 ==> #[trigger] avcc_chain(d, j, 16) < 6,
        },
        avcc_found(d) is Some <==> first_avcc_chain(d, 0) is Some,
        avcc_found(d) matches Some(f) ==> first_avcc_chain(d, 0) == Some(f.offset),
    decreases d.len() - i,
{
    if i + 5 <= d.len() && i + 5 <= 65536 {
        if avcc_chain(d, i, 16) < 6 {
            law_units_are_looked_for_at_the_front(d, i + 1);
        }
    } else {
        assert forall|j: int| i <= j <= 65531 implies #[trigger] avcc_chain(d, j, 16) < 6 by {
            if j + 5 > d.len() {
                assert(avcc_chain(d, j, 16) == 0);
            }
        }
    }
}

// ---------------------------------------------------------------------------
// Frames and packets
// ---------------------------------------------------------------------------

/// What is taken for an ADTS header is one: twelve set bits, layer zero, one of the thirteen
/// sampling rates, and a length of the seven bytes of the header at least.
pub proof fn law_only_adts_headers_are_taken(d: Seq<u8>, i: int)
    requires
        0 <= i,
    ensures
        adts_frame(d, i) is Some <==> {
            &&& i + 7 <= d.len()
            &&& d[i] == 0xff && d[i + 1] >= 0xf0 && (d[i + 1] / 2) % 4 == 0
            &&& (d[i + 2] / 4) % 16 <= 12
            &&& (d[i + 3] % 4) * 2048 + d[i + 4] * 8 + d[i + 5] / 32 >= 7
        },
{
    if i + 7 <= d.len() {
        let b = d[i + 1];
        assert(b & 0xf6 == 0xf0 <==> b >= 0xf0 && (b / 2) % 4 == 0) by (bit_vector);
    }
}

/// Four frames chain from `at`: each but the last is followed by the next.
pub open spec fn four_chain(framing: Framing, d: Seq<u8>, at: int) -> bool {
    &&& frame_at(framing, d, at) matches Some((a, _))
    &&& at + a < d.len()
    &&& frame_at(framing, d, at + a) matches Some((b, _))
    &&& at + a + b < d.len()
    &&& frame_at(framing, d, at + a + b) matches Some((c, _))
    &&& at + a + b + c < d.len()
    &&& frame_at(framing, d, at + a + b + c) is Some
}

/// Audio frames are found at the first place from which four chain, and nowhere without four.
pub proof fn law_four_frames_must_chain(framing: Framing, d: Seq<u8>, i: int)
    requires
        0 <= i,
    ensures
        match first_chain(framing, d, i) {
            Some(at) => i <= at < d.len() && four_chain(framing, d, at) && forall|j: int|
                i <= j < at ==> !#[trigger] four_chain(framing, d, j),
            None => forall|j: int| i <= j < d.len() ==> !#[trigger] four_chain(framing, d, j),
        },
        frames_found(framing, d) is Some <==> first_chain(framing, d, 0) is Some,
        frames_found(framing, d) matches Some(f) ==> first_chain(framing, d, 0) == Some(f.offset),
    decreases d.len() - i,
{
    if i < d.len() {
        lemma_four(framing, d, i);
        if frame_chain(framing, d, i, 8) < 4 {
            law_four_frames_must_chain(framing, d, i + 1);
        }
    }
}

proof fn lemma_four(framing: Framing, d: Seq<u8>, i: int)
    ensures
        frame_chain(framing, d, i, 8) >= 4 <==> four_chain(framing, d, i),
{
    reveal_with_fuel(frame_chain, 5);
}

proof fn lemma_run_in_step(d: Seq<u8>, start: int, n: int)
    requires
        0 <= start,
        0 <= n,
    ensures
        sync_run(d, start) >= n <==> in_step(d, start, n),
    decreases n,
{
    if n > 0 {
        lemma_run_in_step(d, start + 188, n - 1);
        if in_step(d, start, n) {
            assert(sync_of(d, start, 0));
            assert forall|j: int| 0 <= j < n - 1 implies #[trigger] sync_of(d, start + 188, j) by {
                assert(sync_of(d, start, j + 1));
            }
        }
        if in_step(d, start + 188, n - 1) && 0 <= start < d.len() && d[start] == 0x47 {
            assert forall|j: int| 0 <= j < n implies #[trigger] sync_of(d, start, j) by {
                if j > 0 {
                    assert(sync_of(d, start + 188, j - 1));
                }
            }
        }
        if sync_run(d, start) >= n {
            assert(d[start] == 0x47);
        }
    }
}

proof fn lemma_first_step(d: Seq<u8>, s: int)
    requires
        0 <= s <= 188,
    ensures
        match first_cadence(d, s) {
            Some(at) => s <= at < 188 && in_step(d, at, 5) && forall|j: int|
                s <= j < at ==> !#[trigger] in_step(d, j, 5),
            None => forall|j: int| s <= j < 188 ==> !#[trigger] in_step(d, j, 5),
        },
    decreases 188 - s,
{
    if s < 188 {
        lemma_run_in_step(d, s, 5);
        if sync_run(d, s) < 5 {
            lemma_first_step(d, s + 1);
        }
    }
}

/// A transport stream is found where there is room for five packets, at the first of the 188
/// places from which five sync bytes stand in step, and nowhere without five.
pub proof fn law_five_packets_must_be_in_step(d: Seq<u8>)
    ensures
        ts_found(d) is Some <==> d.len() >= 5 * 188 && exists|s: int|
            0 <= s < 188 && #[trigger] in_step(d, s, 5),
        ts_found(d) matches Some(f) ==> 0 <= f.offset < 188 && in_step(d, f.offset, 5) && forall|s: int|
            0 <= s < f.offset ==> !#[trigger] in_step(d, s, 5),
{
    lemma_first_step(d, 0);
}

// ---------------------------------------------------------------------------
// Boxes and elements
// ---------------------------------------------------------------------------

/// A box lies within its parent, behind a header that says so: by its size, by a long size behind
/// the name, or by a size of zero, which reaches to the parent's end.
pub proof fn law_boxes_lie_in_their_parent(d: Seq<u8>, pos: int, end: int)
    ensures
        box_at(d, pos, end) matches Some(b) ==> {
            &&& 0 <= pos && end <= d.len()
            &&& b.fourcc == d.subrange(pos + 4, pos + 8)
            &&& b.body_start <= b.body_end <= end
            &&& be32_at(d, pos) >= 8 ==> b.body_start == pos + 8 && b.body_end == pos + be32_at(d, pos)
            &&& be32_at(d, pos) == 1 ==> b.body_start == pos + 16 && b.body_end == pos + be64_at(
                d,
                pos + 8,
            )
            &&& be32_at(d, pos) == 0 ==> b.body_start == pos + 8 && b.body_end == end
            &&& be32_at(d, pos) == 0 || be32_at(d, pos) == 1 || be32_at(d, pos) >= 8
        },
        0 <= pos && pos + 8 <= end <= d.len() && 8 <= be32_at(d, pos) <= end - pos ==> box_at(
            d,
            pos,
            end,
        ) is Some,
        0 <= pos && pos + 8 <= end <= d.len() && be32_at(d, pos) == 0 ==> box_at(d, pos, end) is Some,
        0 <= pos && pos + 16 <= end <= d.len() && be32_at(d, pos) == 1 && 16 <= be64_at(d, pos + 8)
            <= end - pos ==> box_at(d, pos, end) is Some,
{
}

/// A table is read where all of it is there, to the last number, and refused where it is not: its
/// count behind version and flags, and as many entries as that says.
pub proof fn law_tables_that_run_out_are_refused(d: Seq<u8>, b: int, stride: int)
    requires
        0 <= b,
        8 <= stride,
    ensures
        counted_words(d, b) is Some <==> b + 8 <= d.len() && b + 8 + 4 * be32_at(d, b + 4) <= d.len(),
        counted_longs(d, b) is Some <==> b + 8 <= d.len() && b + 8 + 8 * be32_at(d, b + 4) <= d.len(),
        counted_pairs(d, b, stride) is Some <==> b + 8 <= d.len() && (be32_at(d, b + 4) == 0 || b + 16
            + stride * (be32_at(d, b + 4) - 1) <= d.len()),
        counted_words(d, b) matches Some(v) ==> v.len() == be32_at(d, b + 4),
        counted_longs(d, b) matches Some(v) ==> v.len() == be32_at(d, b + 4),
        counted_pairs(d, b, stride) matches Some(v) ==> v.len() == be32_at(d, b + 4),
{
    if b + 8 <= d.len() {
        lemma_word_range(d, b + 4);
    }
}

/// A number is read from any length that it is written in, not only the shortest.
pub proof fn law_long_numbers_are_read(before: Seq<u8>, v: int, len: int, after: Seq<u8>)
    requires
        1 <= len <= 8,
        0 <= v < vint_range(len),
    ensures
        vint_at(
            before + be_bytes((v + vint_range(len)) as nat, len as nat) + after,
            before.len() as int,
        ) == Some((v, len)),
{
    let s = be_bytes((v + vint_range(len)) as nat, len as nat);
    let d = before + s + after;
    let p = before.len() as int;
    lemma_lead_byte(v + vint_range(len), len);
    assert(d[p] == s[0]);
    assert(d.subrange(p, p + len) =~= s);
}

/// An element lies behind its header, of an ID of four bytes at most and a size of eight, in the
/// data; its size is unknown where all bits of it are set, and known otherwise.
pub proof fn law_elements_stand_behind_their_headers(d: Seq<u8>, pos: int)
    ensures
        element_at(d, pos) matches Some(e) ==> {
            &&& 0 <= pos < d.len()
            &&& d[pos] >= 16
            &&& e.data_pos == pos + e.header_len <= d.len()
            &&& 2 <= e.header_len <= 12
            &&& exists|n: int|
                1 <= n <= 4 && (#[trigger] vint_at(d, pos + n) matches Some((v, len)) && n + len
                    == e.header_len && e.size == (if v == vint_range(len) - 1 {
                    None
                } else {
                    Some(v)
                }))
        },
{
    if let Some(e) = element_at(d, pos) {
        let n = crate::ebml::id_at(d, pos).unwrap().1;
        assert(vint_at(d, pos + n) is Some);
    }
}

/// A block that laces frames, or has no flags, is passed over; any other is taken with its track
/// number, its flag, and all that follows.
pub proof fn law_laced_blocks_are_passed_over(buf: Seq<u8>, track: int, len: int)
    requires
        vint_at(buf, 0) == Some((track, len)),
    ensures
        len + 2 >= buf.len() ==> simple_block(buf) is None,
        len + 2 < buf.len() && buf[len + 2] & 6 != 0 ==> simple_block(buf) is None,
        len + 2 < buf.len() && buf[len + 2] & 6 == 0 ==> (simple_block(buf) matches Some(b) && b.track
            == track && b.frame == buf.skip(len + 3) && (b.keyframe <==> buf[len + 2] & 0x80
            == 0x80)),
{
    if len + 2 < buf.len() {
        let x = buf[len + 2];
        assert((x & 6 == 0) == ((x / 2) % 4 == 0)) by (bit_vector);
        assert((x & 0x80 == 0x80) == (x >= 128)) by (bit_vector);
    }
}

// ---------------------------------------------------------------------------
// VP9
// ---------------------------------------------------------------------------

/// A frame that tells its size has the marker of VP9, is a keyframe that is not shown again, and
/// has the sync code where its profile puts it.
pub proof fn law_only_vp9_keyframes_tell_a_size(s: Seq<bool>)
    ensures
        vp9_size(s) is Some ==> {
            let p: int = if s.len() > 3 && s[2] && s[3] {
                5
            } else {
                4
            };
            &&& s.len() > p + 26
            &&& s[0] && !s[1]
            &&& !s[p] && !s[p + 1]
            &&& field(s, p + 4, 8) == 0x49 && field(s, p + 12, 8) == 0x83 && field(s, p + 20, 8)
                == 0x42
        },
{
    reveal_with_fuel(field, 3);
    if vp9_size(s) is Some {
        let p: int = if s.len() > 3 && s[2] && s[3] {
            5
        } else {
            4
        };
        lemma_field_there(s, p + 20);
    }
}

proof fn lemma_field_there(s: Seq<bool>, pos: int)
    requires
        0 <= pos,
        field(s, pos, 8) == 0x42,
    ensures
        s.len() > pos + 6,
{
    reveal_with_fuel(field, 9);
}

} // verus!
