//! What is read and harvested from files laid out in boxes: the boxes are listed here by name
//! and payload, in whatever order they stand, and the tables by the numbers at their places.
use crate::bytes::{be32_at, be32_bytes, be64_at, stands_at, zeros};
use crate::h264::SpsInfo;
use crate::mp4::{
    box_at, chunk_offsets_in, codec_at, commonest_delta, counted_longs, counted_pairs,
    counted_words, first_box, ftyp_box, law_commonest_delta_is_most_common, moov_table,
    sample_table, samples_lasting, sizes_at, syncs_in, timescale_at, track_table, widened, word_at,
    BoxSpan, MoovTable, SampleTable, TrackError, TrackTable,
};
use crate::regrown::{
    describable, entries32, entries64, fits32, lemma_box_len, lemma_box_read,
    lemma_graft_describable, lemma_graft_out, lemma_longs_each, lemma_longs_len,
    lemma_names_differ, lemma_stands_split, lemma_sync_numbers_fit, lemma_tkhd_is_box,
    lemma_word_read, lemma_words_each, lemma_words_len, regrown_table,
};
use crate::text::utf8_lossy;
use crate::timing::{law_offsets_are_recovered, shows_in_turn, timing_fits, true_pocs};
use crate::transplant::{
    audio_of, audio_stbl_bytes, audio_trak, be24_bytes, box_bytes, cadence, capped32,
    chunk_offset_bytes, ctts_bytes, ctts_of, dinf_bytes, full_box_bytes, harvested, hdlr_bytes,
    largest, longs, matrix_bytes, mdat_bytes, mdhd_bytes, media_base, media_of, media_parts,
    mvhd_bytes, organs_of, playable, regrown_ctts, run_lengths, sample_pocs, sample_total,
    some_nonzero, splittable, stbl_of, stsd_of, stss_bytes, sync_numbers, ticks_to_ms, tkhd_bytes,
    tkhd_of, trak_bytes, transplanted, unit_offsets, unit_sizes, video_of, video_stbl_bytes,
    video_tracks, video_trak, with_audio, word_pairs, words, AudioOrgans, Organs, Parts, Unfit,
    Unit, VideoOrgans, HANDLER_NAME,
};
use vstd::prelude::*;
use vstd::string::*;

verus! {

broadcast use crate::bytes::group_lengths;

// ---------------------------------------------------------------------------
// Boxes in a row
// ---------------------------------------------------------------------------

/// Boxes, by name and payload, one behind the other.
pub open spec fn strung(list: Seq<(Seq<u8>, Seq<u8>)>) -> Seq<u8>
    decreases list.len(),
{
    if list.len() == 0 {
        seq![]
    } else {
        box_bytes(list[0].0, list[0].1) + strung(list.drop_first())
    }
}

/// The payload of the first box of the given name.
pub open spec fn first_body(list: Seq<(Seq<u8>, Seq<u8>)>, name: Seq<u8>) -> Option<Seq<u8>>
    decreases list.len(),
{
    if list.len() == 0 {
        None
    } else if list[0].0 == name {
        Some(list[0].1)
    } else {
        first_body(list.drop_first(), name)
    }
}

/// Whether a box of the given name is there.
pub open spec fn holds(list: Seq<(Seq<u8>, Seq<u8>)>, name: Seq<u8>) -> bool {
    exists|i: int| 0 <= i < list.len() && (#[trigger] list[i]).0 == name
}

/// Names have four characters.
pub open spec fn well_named(list: Seq<(Seq<u8>, Seq<u8>)>) -> bool {
    forall|i: int| 0 <= i < list.len() ==> (#[trigger] list[i]).0.len() == 4
}

pub proof fn lemma_holds(list: Seq<(Seq<u8>, Seq<u8>)>, name: Seq<u8>)
    ensures
        first_body(list, name) is Some <==> holds(list, name),
    decreases list.len(),
{
    if list.len() > 0 {
        let tail = list.drop_first();
        lemma_holds(tail, name);
        if holds(tail, name) {
            let i = choose|i: int| 0 <= i < tail.len() && (#[trigger] tail[i]).0 == name;
            assert(list[i + 1].0 == name);
        }
        if list[0].0 != name && holds(list, name) {
            let i = choose|i: int| 0 <= i < list.len() && (#[trigger] list[i]).0 == name;
            assert(tail[i - 1].0 == name);
        }
    }
}

/// A box in the data holds a payload.
pub open spec fn box_holds(d: Seq<u8>, b: BoxSpan, name: Seq<u8>, body: Seq<u8>) -> bool {
    &&& b.fourcc == name
    &&& b.body_end == b.body_start + body.len()
    &&& stands_at(d, b.body_start, body)
}

/// Boxes that stand in a row are found by their names, the first of each.
pub proof fn law_boxes_are_found(
    d: Seq<u8>,
    pos: int,
    end: int,
    list: Seq<(Seq<u8>, Seq<u8>)>,
    name: Seq<u8>,
)
    requires
        stands_at(d, pos, strung(list)),
        end == pos + strung(list).len(),
        strung(list).len() <= u32::MAX,
        well_named(list),
    ensures
        match first_body(list, name) {
            Some(body) => first_box(d, pos, end, name) matches Some(b) && box_holds(d, b, name, body)
                && pos + 8 <= b.body_start && b.body_end <= end,
            None => first_box(d, pos, end, name) is None,
        },
    decreases list.len(),
{
    if list.len() > 0 {
        let (here, body) = list[0];
        let tail = list.drop_first();
        let e = box_bytes(here, body);
        assert(list[0].0.len() == 4);
        lemma_box_len(here, body);
        lemma_stands_split(d, pos, e, strung(tail));
        lemma_box_read(d, pos, end, here, body);
        assert forall|i: int| 0 <= i < tail.len() implies (#[trigger] tail[i]).0.len() == 4 by {
            assert(tail[i] == list[i + 1]);
        }
        law_boxes_are_found(d, pos + e.len(), end, tail, name);
    }
}

// ---------------------------------------------------------------------------
// Tables
// ---------------------------------------------------------------------------

/// A payload holds a count, behind version and flags, and that many 32-bit numbers.
pub open spec fn lists_words(body: Seq<u8>, v: Seq<u32>) -> bool {
    &&& 8 + 4 * v.len() <= body.len()
    &&& be32_at(body, 4) == v.len()
    &&& forall|i: int| 0 <= i < v.len() ==> be32_at(body, 8 + 4 * i) == #[trigger] v[i]
}

/// The same of 64-bit numbers.
pub open spec fn lists_longs(body: Seq<u8>, v: Seq<u64>) -> bool {
    &&& 8 + 8 * v.len() <= body.len()
    &&& be32_at(body, 4) == v.len()
    &&& forall|i: int| 0 <= i < v.len() ==> be64_at(body, 8 + 8 * i) == #[trigger] v[i]
}

/// The same of entries of which the first two numbers matter, `stride` bytes apart.
pub open spec fn lists_pairs(body: Seq<u8>, v: Seq<(u32, u32)>, stride: int) -> bool {
    &&& 8 + stride * v.len() <= body.len()
    &&& be32_at(body, 4) == v.len()
    &&& forall|i: int|
        0 <= i < v.len() ==> be32_at(body, 8 + stride * i) == (#[trigger] v[i]).0 && be32_at(
            body,
            8 + stride * i + 4,
        ) == v[i].1
}

/// An stsz payload gives the sizes: one for all, or behind a zero one each.
pub open spec fn lists_sizes(body: Seq<u8>, v: Seq<u32>) -> bool {
    &&& 12 <= body.len()
    &&& be32_at(body, 8) == v.len()
    &&& if be32_at(body, 4) != 0 {
        forall|i: int| 0 <= i < v.len() ==> #[trigger] v[i] == be32_at(body, 4)
    } else {
        12 + 4 * v.len() <= body.len() && forall|i: int|
            0 <= i < v.len() ==> be32_at(body, 12 + 4 * i) == #[trigger] v[i]
    }
}

/// An mdhd payload gives the timescale: behind two times of 32 bits, or in version 1 of 64.
pub open spec fn gives_timescale(body: Seq<u8>, timescale: u32) -> bool {
    if body.len() > 0 && body[0] == 1 {
        body.len() >= 24 && be32_at(body, 20) == timescale
    } else {
        body.len() >= 16 && be32_at(body, 12) == timescale
    }
}

proof fn lemma_number_moved(d: Seq<u8>, b: int, body: Seq<u8>, k: int)
    requires
        stands_at(d, b, body),
        0 <= k,
        k + 4 <= body.len(),
    ensures
        be32_at(d, b + k) == be32_at(body, k),
        word_at(d, b + k) == Some(be32_at(body, k)),
        k + 8 <= body.len() ==> be64_at(d, b + k) == be64_at(body, k),
{
    let s = d.subrange(b, b + body.len());
    assert(s[k] == d[b + k] && s[k + 1] == d[b + k + 1] && s[k + 2] == d[b + k + 2] && s[k + 3] == d[b
        + k + 3]);
    if k + 8 <= body.len() {
        assert(s[k + 4] == d[b + k + 4] && s[k + 5] == d[b + k + 5] && s[k + 6] == d[b + k + 6] && s[k
            + 7] == d[b + k + 7]);
    }
}

proof fn lemma_words_listed(d: Seq<u8>, b: int, body: Seq<u8>, v: Seq<u32>)
    requires
        stands_at(d, b, body),
        lists_words(body, v),
    ensures
        counted_words(d, b) == Some(v),
{
    lemma_number_moved(d, b, body, 4);
    let n = v.len() as int;
    let got = Seq::new(n as nat, |i: int| be32_at(d, b + 8 + 4 * i) as u32);
    assert forall|i: int| 0 <= i < n implies got[i] == v[i] by {
        lemma_number_moved(d, b, body, 8 + 4 * i);
    }
    assert(got =~= v);
}

proof fn lemma_longs_listed(d: Seq<u8>, b: int, body: Seq<u8>, v: Seq<u64>)
    requires
        stands_at(d, b, body),
        lists_longs(body, v),
    ensures
        counted_longs(d, b) == Some(v),
{
    lemma_number_moved(d, b, body, 4);
    let n = v.len() as int;
    let got = Seq::new(n as nat, |i: int| be64_at(d, b + 8 + 8 * i) as u64);
    assert forall|i: int| 0 <= i < n implies got[i] == v[i] by {
        lemma_number_moved(d, b, body, 8 + 8 * i);
    }
    assert(got =~= v);
}

proof fn lemma_pairs_listed(d: Seq<u8>, b: int, body: Seq<u8>, v: Seq<(u32, u32)>, stride: int)
    requires
        stands_at(d, b, body),
        lists_pairs(body, v, stride),
        stride == 8 || stride == 12,
    ensures
        counted_pairs(d, b, stride) == Some(v),
{
    lemma_number_moved(d, b, body, 4);
    let n = v.len() as int;
    let got = Seq::new(
        n as nat,
        |i: int|
            (
                be32_at(d, b + 8 + stride * i) as u32,
                be32_at(d, b + 8 + stride * i + 4) as u32,
            ),
    );
    assert forall|i: int| 0 <= i < n implies got[i] == v[i] by {
        assert(8 + stride * i + stride <= 8 + stride * n && stride * i >= 0) by (nonlinear_arith)
            requires
                0 <= i < n,
                stride == 8 || stride == 12,
        ;
        assert(8 + stride * i >= 0);
        let x = v[i];
        lemma_number_moved(d, b, body, 8 + stride * i);
        lemma_number_moved(d, b, body, 8 + stride * i + 4);
    }
    assert(got =~= v);
    assert(n > 0 ==> stride * (n - 1) + 8 <= stride * n) by (nonlinear_arith)
        requires
            stride == 8 || stride == 12,
    ;
}

proof fn lemma_sizes_listed(d: Seq<u8>, b: int, body: Seq<u8>, v: Seq<u32>)
    requires
        stands_at(d, b, body),
        lists_sizes(body, v),
    ensures
        sizes_at(d, b) == Some(v),
{
    lemma_number_moved(d, b, body, 4);
    lemma_number_moved(d, b, body, 8);
    let n = v.len() as int;
    if be32_at(body, 4) != 0 {
        let got = Seq::new(n as nat, |i: int| be32_at(body, 4) as u32);
        assert forall|i: int| 0 <= i < n implies got[i] == v[i] by {}
        assert(got =~= v);
    } else {
        let got = Seq::new(n as nat, |i: int| be32_at(d, b + 12 + 4 * i) as u32);
        assert forall|i: int| 0 <= i < n implies got[i] == v[i] by {
            lemma_number_moved(d, b, body, 12 + 4 * i);
        }
        assert(got =~= v);
    }
}

/// The box lists of a track: what its trak, mdia, minf and stbl boxes hold.
pub struct Layout {
    pub trak: Seq<(Seq<u8>, Seq<u8>)>,
    pub mdia: Seq<(Seq<u8>, Seq<u8>)>,
    pub minf: Seq<(Seq<u8>, Seq<u8>)>,
    pub stbl: Seq<(Seq<u8>, Seq<u8>)>,
}

/// Four characters.
pub open spec fn code(a: u8, b: u8, c: u8, d: u8) -> Seq<u8> {
    seq![a, b, c, d]
}

/// The boxes of a track are nested as they have to be, each list standing in the box of its
/// name.
pub open spec fn nested(l: Layout) -> bool {
    &&& well_named(l.trak)
    &&& well_named(l.mdia)
    &&& well_named(l.minf)
    &&& well_named(l.stbl)
    &&& first_body(l.trak, code(0x6d, 0x64, 0x69, 0x61)) == Some(strung(l.mdia))
    &&& first_body(l.mdia, code(0x6d, 0x69, 0x6e, 0x66)) == Some(strung(l.minf))
    &&& first_body(l.minf, code(0x73, 0x74, 0x62, 0x6c)) == Some(strung(l.stbl))
}

/// The sample table lists what a track table says: sizes in stsz, offsets in stco or else in
/// co64, stsc, sync samples in stss if there is one, stts, and in stsd a first entry of which
/// the name is the codec.
pub open spec fn lists_table(stbl: Seq<(Seq<u8>, Seq<u8>)>, t: TrackTable) -> bool {
    &&& first_body(stbl, code(0x73, 0x74, 0x73, 0x64)) matches Some(stsd) && stsd.len() >= 16
        && t.codec == utf8_lossy(stsd.subrange(12, 16))
    &&& first_body(stbl, code(0x73, 0x74, 0x73, 0x7a)) matches Some(stsz) && lists_sizes(
        stsz,
        t.sizes,
    )
    &&& match first_body(stbl, code(0x73, 0x74, 0x63, 0x6f)) {
        Some(stco) => exists|v: Seq<u32>| #[trigger]
            lists_words(stco, v) && t.chunk_offsets == v.map_values(|x: u32| x as u64),
        None => first_body(stbl, code(0x63, 0x6f, 0x36, 0x34)) matches Some(co64) && lists_longs(
            co64,
            t.chunk_offsets,
        ),
    }
    &&& first_body(stbl, code(0x73, 0x74, 0x73, 0x63)) matches Some(stsc) && lists_pairs(
        stsc,
        t.stsc,
        12,
    )
    &&& match first_body(stbl, code(0x73, 0x74, 0x73, 0x73)) {
        Some(stss) => t.sync_samples matches Some(v) && lists_words(stss, v),
        None => t.sync_samples is None,
    }
    &&& first_body(stbl, code(0x73, 0x74, 0x74, 0x73)) matches Some(stts) && lists_pairs(
        stts,
        t.stts,
        8,
    )
    &&& t.sample_count == t.sizes.len()
}

/// A track is laid out to say what a track table says: its timescale in mdhd, the name of its
/// handler in hdlr, and the rest in its sample table.
pub open spec fn lays_out(l: Layout, t: TrackTable) -> bool {
    &&& nested(l)
    &&& first_body(l.mdia, code(0x6d, 0x64, 0x68, 0x64)) matches Some(mdhd) && gives_timescale(
        mdhd,
        t.timescale,
    )
    &&& first_body(l.mdia, code(0x68, 0x64, 0x6c, 0x72)) matches Some(hdlr) && hdlr.len() >= 12
        && t.handler == utf8_lossy(hdlr.subrange(8, 12))
    &&& lists_table(l.stbl, t)
}

proof fn lemma_codes()
    ensures
        code(0x6d, 0x64, 0x69, 0x61) == crate::fourcc::MDIA@,
        code(0x6d, 0x69, 0x6e, 0x66) == crate::fourcc::MINF@,
        code(0x73, 0x74, 0x62, 0x6c) == crate::fourcc::STBL@,
        code(0x73, 0x74, 0x73, 0x64) == crate::fourcc::STSD@,
        code(0x73, 0x74, 0x73, 0x7a) == crate::fourcc::STSZ@,
        code(0x73, 0x74, 0x63, 0x6f) == crate::fourcc::STCO@,
        code(0x63, 0x6f, 0x36, 0x34) == crate::fourcc::CO64@,
        code(0x73, 0x74, 0x73, 0x63) == crate::fourcc::STSC@,
        code(0x73, 0x74, 0x73, 0x73) == crate::fourcc::STSS@,
        code(0x73, 0x74, 0x74, 0x73) == crate::fourcc::STTS@,
        code(0x63, 0x74, 0x74, 0x73) == crate::fourcc::CTTS@,
        code(0x6d, 0x64, 0x68, 0x64) == crate::fourcc::MDHD@,
        code(0x68, 0x64, 0x6c, 0x72) == crate::fourcc::HDLR@,
        code(0x74, 0x6b, 0x68, 0x64) == crate::fourcc::TKHD@,
        code(0x74, 0x72, 0x61, 0x6b) == crate::fourcc::TRAK@,
        code(0x6d, 0x6f, 0x6f, 0x76) == crate::fourcc::MOOV@,
{
    assert(code(0x6d, 0x64, 0x69, 0x61) =~= crate::fourcc::MDIA@);
    assert(code(0x6d, 0x69, 0x6e, 0x66) =~= crate::fourcc::MINF@);
    assert(code(0x73, 0x74, 0x62, 0x6c) =~= crate::fourcc::STBL@);
    assert(code(0x73, 0x74, 0x73, 0x64) =~= crate::fourcc::STSD@);
    assert(code(0x73, 0x74, 0x73, 0x7a) =~= crate::fourcc::STSZ@);
    assert(code(0x73, 0x74, 0x63, 0x6f) =~= crate::fourcc::STCO@);
    assert(code(0x63, 0x6f, 0x36, 0x34) =~= crate::fourcc::CO64@);
    assert(code(0x73, 0x74, 0x73, 0x63) =~= crate::fourcc::STSC@);
    assert(code(0x73, 0x74, 0x73, 0x73) =~= crate::fourcc::STSS@);
    assert(code(0x73, 0x74, 0x74, 0x73) =~= crate::fourcc::STTS@);
    assert(code(0x63, 0x74, 0x74, 0x73) =~= crate::fourcc::CTTS@);
    assert(code(0x6d, 0x64, 0x68, 0x64) =~= crate::fourcc::MDHD@);
    assert(code(0x68, 0x64, 0x6c, 0x72) =~= crate::fourcc::HDLR@);
    assert(code(0x74, 0x6b, 0x68, 0x64) =~= crate::fourcc::TKHD@);
    assert(code(0x74, 0x72, 0x61, 0x6b) =~= crate::fourcc::TRAK@);
    assert(code(0x6d, 0x6f, 0x6f, 0x76) =~= crate::fourcc::MOOV@);
}

/// What a sample table says of itself.
spec fn table_of(t: TrackTable) -> SampleTable {
    SampleTable {
        codec: t.codec,
        sizes: t.sizes,
        chunk_offsets: t.chunk_offsets,
        stsc: t.stsc,
        sync_samples: t.sync_samples,
        stts: t.stts,
    }
}

#[verifier::spinoff_prover]
proof fn lemma_table_listed(
    d: Seq<u8>,
    b: int,
    e: int,
    stbl: Seq<(Seq<u8>, Seq<u8>)>,
    t: TrackTable,
)
    requires
        stands_at(d, b, strung(stbl)),
        e == b + strung(stbl).len(),
        strung(stbl).len() <= u32::MAX,
        well_named(stbl),
        lists_table(stbl, t),
    ensures
        sample_table(d, b, e) == Some(Ok::<SampleTable, TrackError>(table_of(t))),
{
    lemma_codes();
    law_boxes_are_found(d, b, e, stbl, crate::fourcc::STSD@);
    law_boxes_are_found(d, b, e, stbl, crate::fourcc::STSZ@);
    law_boxes_are_found(d, b, e, stbl, crate::fourcc::STCO@);
    law_boxes_are_found(d, b, e, stbl, crate::fourcc::CO64@);
    law_boxes_are_found(d, b, e, stbl, crate::fourcc::STSC@);
    law_boxes_are_found(d, b, e, stbl, crate::fourcc::STSS@);
    law_boxes_are_found(d, b, e, stbl, crate::fourcc::STTS@);
    let stsd = first_box(d, b, e, crate::fourcc::STSD@).unwrap();
    let sd = first_body(stbl, crate::fourcc::STSD@).unwrap();
    assert(codec_at(d, stsd.body_start, stsd.body_end) == t.codec) by {
        let s = d.subrange(stsd.body_start, stsd.body_start + sd.len());
        assert(d.subrange(stsd.body_start + 12, stsd.body_start + 16) =~= sd.subrange(12, 16)) by {
            assert forall|i: int| 12 <= i < 16 implies d[stsd.body_start + i] == sd[i] by {
                assert(s[i] == sd[i]);
            }
        }
    }
    let stsz = first_box(d, b, e, crate::fourcc::STSZ@).unwrap();
    lemma_sizes_listed(
        d,
        stsz.body_start,
        first_body(stbl, crate::fourcc::STSZ@).unwrap(),
        t.sizes,
    );
    assert(chunk_offsets_in(d, b, e) == Some(Some(t.chunk_offsets))) by {
        match first_body(stbl, crate::fourcc::STCO@) {
            Some(body) => {
                let v = choose|v: Seq<u32>| #[trigger]
                    lists_words(body, v) && t.chunk_offsets == v.map_values(|x: u32| x as u64);
                let x = first_box(d, b, e, crate::fourcc::STCO@).unwrap();
                lemma_words_listed(d, x.body_start, body, v);
                assert(widened(v) =~= t.chunk_offsets);
            },
            None => {
                let x = first_box(d, b, e, crate::fourcc::CO64@).unwrap();
                let body = first_body(stbl, crate::fourcc::CO64@).unwrap();
                lemma_longs_listed(d, x.body_start, body, t.chunk_offsets);
            },
        }
    }
    let stsc = first_box(d, b, e, crate::fourcc::STSC@).unwrap();
    lemma_pairs_listed(
        d,
        stsc.body_start,
        first_body(stbl, crate::fourcc::STSC@).unwrap(),
        t.stsc,
        12,
    );
    assert(syncs_in(d, b, e) == Some(t.sync_samples)) by {
        if let Some(body) = first_body(stbl, crate::fourcc::STSS@) {
            let x = first_box(d, b, e, crate::fourcc::STSS@).unwrap();
            lemma_words_listed(d, x.body_start, body, t.sync_samples.unwrap());
        }
    }
    let stts = first_box(d, b, e, crate::fourcc::STTS@).unwrap();
    lemma_pairs_listed(
        d,
        stts.body_start,
        first_body(stbl, crate::fourcc::STTS@).unwrap(),
        t.stts,
        8,
    );
}

/// Where the sample table of a track lies, and where its other boxes are found.
#[verifier::spinoff_prover]
proof fn lemma_nested(d: Seq<u8>, b: int, e: int, l: Layout)
    requires
        stands_at(d, b, strung(l.trak)),
        e == b + strung(l.trak).len(),
        strung(l.trak).len() <= u32::MAX,
        nested(l),
    ensures
        ({
            let mdia = first_box(d, b, e, crate::fourcc::MDIA@);
            let minf = first_box(
                d,
                mdia.unwrap().body_start,
                mdia.unwrap().body_end,
                crate::fourcc::MINF@,
            );
            let stbl = first_box(
                d,
                minf.unwrap().body_start,
                minf.unwrap().body_end,
                crate::fourcc::STBL@,
            );
            &&& mdia is Some
            &&& minf is Some
            &&& stbl is Some
            &&& stands_at(d, mdia.unwrap().body_start, strung(l.mdia))
            &&& mdia.unwrap().body_end == mdia.unwrap().body_start + strung(l.mdia).len()
            &&& strung(l.mdia).len() <= u32::MAX
            &&& stands_at(d, stbl.unwrap().body_start, strung(l.stbl))
            &&& stbl.unwrap().body_end == stbl.unwrap().body_start + strung(l.stbl).len()
            &&& strung(l.stbl).len() <= u32::MAX
        }),
{
    lemma_codes();
    law_boxes_are_found(d, b, e, l.trak, crate::fourcc::MDIA@);
    let mdia = first_box(d, b, e, crate::fourcc::MDIA@).unwrap();
    law_boxes_are_found(d, mdia.body_start, mdia.body_end, l.mdia, crate::fourcc::MINF@);
    let minf = first_box(d, mdia.body_start, mdia.body_end, crate::fourcc::MINF@).unwrap();
    law_boxes_are_found(d, minf.body_start, minf.body_end, l.minf, crate::fourcc::STBL@);
}

/// A track reads as it is laid out: whatever the order of its boxes and the form of its
/// tables, what they list is what the track table says.
#[verifier::spinoff_prover]
pub proof fn law_tracks_read_as_laid_out(d: Seq<u8>, b: int, e: int, l: Layout, t: TrackTable)
    requires
        stands_at(d, b, strung(l.trak)),
        e == b + strung(l.trak).len(),
        strung(l.trak).len() <= u32::MAX,
        lays_out(l, t),
    ensures
        track_table(d, b, e) == Some(Ok::<TrackTable, TrackError>(t)),
{
    lemma_codes();
    lemma_nested(d, b, e, l);
    let mdia = first_box(d, b, e, crate::fourcc::MDIA@).unwrap();
    law_boxes_are_found(d, mdia.body_start, mdia.body_end, l.mdia, crate::fourcc::MDHD@);
    law_boxes_are_found(d, mdia.body_start, mdia.body_end, l.mdia, crate::fourcc::HDLR@);
    let mdhd = first_box(d, mdia.body_start, mdia.body_end, crate::fourcc::MDHD@).unwrap();
    let mh = first_body(l.mdia, crate::fourcc::MDHD@).unwrap();
    assert(timescale_at(d, mdhd.body_start) == Some(t.timescale as int)) by {
        assert(d.subrange(mdhd.body_start, mdhd.body_start + mh.len())[0] == mh[0]);
        if mh[0] == 1 {
            lemma_number_moved(d, mdhd.body_start, mh, 20);
        } else {
            lemma_number_moved(d, mdhd.body_start, mh, 12);
        }
    }
    let hdlr = first_box(d, mdia.body_start, mdia.body_end, crate::fourcc::HDLR@).unwrap();
    let h = first_body(l.mdia, crate::fourcc::HDLR@).unwrap();
    assert(d.subrange(hdlr.body_start + 8, hdlr.body_start + 12) =~= h.subrange(8, 12)) by {
        let s = d.subrange(hdlr.body_start, hdlr.body_start + h.len());
        assert forall|i: int| 8 <= i < 12 implies d[hdlr.body_start + i] == h[i] by {
            assert(s[i] == h[i]);
        }
    }
    let minf = first_box(d, mdia.body_start, mdia.body_end, crate::fourcc::MINF@).unwrap();
    let stbl = first_box(d, minf.body_start, minf.body_end, crate::fourcc::STBL@).unwrap();
    lemma_table_listed(d, stbl.body_start, stbl.body_end, l.stbl, t);
}

// ---------------------------------------------------------------------------
// Organs
// ---------------------------------------------------------------------------

/// No track with the given handler is among the first `k` boxes.
pub open spec fn none_before(
    d: Seq<u8>,
    pos: int,
    parts: Seq<(Seq<u8>, Seq<u8>)>,
    k: int,
    handler: Seq<char>,
) -> bool
    decreases k,
{
    k <= 0 || {
        &&& parts[0].0 == code(0x74, 0x72, 0x61, 0x6b) ==> (track_table(
            d,
            pos + 8,
            pos + 8 + parts[0].1.len(),
        ) matches Some(Ok(x)) ==> x.handler != handler)
        &&& none_before(d, pos + 8 + parts[0].1.len(), parts.drop_first(), k - 1, handler)
    }
}

/// Where the payload of the `k`th box starts.
pub open spec fn body_at(pos: int, parts: Seq<(Seq<u8>, Seq<u8>)>, k: int) -> int
    decreases k,
{
    if k <= 0 {
        pos + 8
    } else {
        body_at(pos + 8 + parts[0].1.len(), parts.drop_first(), k - 1)
    }
}

/// What was taken first is kept.
proof fn lemma_harvest_keeps(d: Seq<u8>, pos: int, end: int, got: Organs)
    ensures
        harvested(d, pos, end, got) matches Some(Ok(o)) ==> {
            &&& got.video is Some ==> o.video == got.video
            &&& got.audio is Some ==> o.audio == got.audio
        },
    decreases end - pos,
{
    if let Some(b) = box_at(d, pos, end) {
        lemma_harvest_keeps(d, b.body_end, end, got);
        if b.fourcc == crate::fourcc::TRAK@ {
            if let Some(Ok(t)) = track_table(d, b.body_start, b.body_end) {
                lemma_harvest_keeps(
                    d,
                    b.body_end,
                    end,
                    Organs { video: Some(video_of(d, b, t)), audio: got.audio },
                );
                lemma_harvest_keeps(
                    d,
                    b.body_end,
                    end,
                    Organs { video: got.video, audio: Some(audio_of(d, b, t)) },
                );
            }
        }
    }
}

proof fn lemma_harvest(
    d: Seq<u8>,
    pos: int,
    end: int,
    parts: Seq<(Seq<u8>, Seq<u8>)>,
    k: int,
    l: Layout,
    t: TrackTable,
    got: Organs,
    o: Organs,
)
    requires
        stands_at(d, pos, strung(parts)),
        end == pos + strung(parts).len(),
        strung(parts).len() <= u32::MAX,
        well_named(parts),
        0 <= k < parts.len(),
        parts[k] == (code(0x74, 0x72, 0x61, 0x6b), strung(l.trak)),
        lays_out(l, t),
        none_before(d, pos, parts, k, t.handler),
        harvested(d, pos, end, got) == Some(Ok::<Organs, Unfit>(o)),
    ensures
        ({
            let b = BoxSpan {
                fourcc: crate::fourcc::TRAK@,
                body_start: body_at(pos, parts, k),
                body_end: body_at(pos, parts, k) + strung(l.trak).len(),
            };
            &&& stands_at(d, b.body_start, strung(l.trak))
            &&& strung(l.trak).len() <= u32::MAX
            &&& t.handler == "vide"@ && got.video is None ==> o.video == Some(video_of(d, b, t))
            &&& t.handler == "soun"@ && got.audio is None ==> o.audio == Some(audio_of(d, b, t))
        }),
    decreases k,
{
    lemma_codes();
    let (name, body) = parts[0];
    let tail = parts.drop_first();
    let e = box_bytes(name, body);
    assert(parts[0].0.len() == 4);
    lemma_box_len(name, body);
    lemma_stands_split(d, pos, e, strung(tail));
    lemma_box_read(d, pos, end, name, body);
    let b = BoxSpan { fourcc: name, body_start: pos + 8, body_end: pos + 8 + body.len() };
    assert(box_at(d, pos, end) == Some(b));
    reveal_strlit("vide");
    reveal_strlit("soun");
    assert("vide"@[0] != "soun"@[0]);
    if k == 0 {
        law_tracks_read_as_laid_out(d, pos + 8, pos + 8 + body.len(), l, t);
        lemma_harvest_keeps(
            d,
            b.body_end,
            end,
            Organs { video: Some(video_of(d, b, t)), audio: got.audio },
        );
        lemma_harvest_keeps(
            d,
            b.body_end,
            end,
            Organs { video: got.video, audio: Some(audio_of(d, b, t)) },
        );
    } else {
        assert forall|i: int| 0 <= i < tail.len() implies (#[trigger] tail[i]).0.len() == 4 by {
            assert(tail[i] == parts[i + 1]);
        }
        assert(tail[k - 1] == parts[k]);
        let next = if name == crate::fourcc::TRAK@ {
            match track_table(d, b.body_start, b.body_end) {
                Some(Ok(x)) => if x.handler == "vide"@ && got.video is None {
                    Organs { video: Some(video_of(d, b, x)), audio: got.audio }
                } else if x.handler == "soun"@ && got.audio is None {
                    Organs { video: got.video, audio: Some(audio_of(d, b, x)) }
                } else {
                    got
                },
                _ => got,
            }
        } else {
            got
        };
        assert(harvested(d, b.body_end, end, next) == Some(Ok::<Organs, Unfit>(o)));
        lemma_harvest(d, b.body_end, end, tail, k - 1, l, t, next, o);
    }
}

proof fn lemma_largest(sizes: Seq<u32>)
    ensures
        largest(sizes) >= 1,
        forall|i: int| 0 <= i < sizes.len() ==> #[trigger] sizes[i] <= largest(sizes),
        largest(sizes) > 1 ==> sizes.contains(largest(sizes)),
    decreases sizes.len(),
{
    if sizes.len() > 0 {
        let head = sizes.drop_last();
        lemma_largest(head);
        assert forall|i: int| 0 <= i < sizes.len() implies #[trigger] sizes[i] <= largest(sizes) by {
            if i < head.len() {
                assert(head[i] == sizes[i]);
            }
        }
        if largest(sizes) > 1 {
            if largest(sizes) == sizes.last() {
                assert(sizes[sizes.len() - 1] == largest(sizes));
            } else {
                let i = choose|i: int| 0 <= i < head.len() && head[i] == largest(head);
                assert(sizes[i] == largest(sizes));
            }
        }
    }
}

/// The cadence of a track: its most common sample duration, or one tick where that is none.
pub open spec fn keeps_time(stts: Seq<(u32, u32)>, delta: u32) -> bool {
    &&& delta >= 1
    &&& stts.len() == 0 ==> delta == 1
    &&& (forall|i: int| 0 <= i < stts.len() ==> (#[trigger] stts[i]).1 > 0) && stts.len() > 0
        ==> exists|i: int| 0 <= i < stts.len() && (#[trigger] stts[i]).1 == delta
    &&& delta > 1 ==> forall|other: u32| #[trigger]
        samples_lasting(stts, other) <= samples_lasting(stts, delta)
}

proof fn lemma_cadence(t: TrackTable)
    ensures
        keeps_time(t.stts, cadence(t)),
{
    if t.stts.len() > 0 {
        law_commonest_delta_is_most_common(t.stts, 1);
        assert forall|other: u32| cadence(t) > 1 implies #[trigger] samples_lasting(t.stts, other)
            <= samples_lasting(t.stts, cadence(t)) by {
            law_commonest_delta_is_most_common(t.stts, other);
        }
        let i = choose|i: int|
            0 <= i < t.stts.len() && (#[trigger] t.stts[i]).1 == commonest_delta(t.stts);
        assert(t.stts[i].1 == commonest_delta(t.stts));
    }
}

/// A file that ends in a moov which holds the given boxes, the `k`th of them a trak that is
/// laid out to say what `t` says, and the first of its handler.
pub open spec fn file_holds_track(
    d: Seq<u8>,
    front: Seq<u8>,
    parts: Seq<(Seq<u8>, Seq<u8>)>,
    k: int,
    l: Layout,
    t: TrackTable,
) -> bool {
    &&& d == front + box_bytes(code(0x6d, 0x6f, 0x6f, 0x76), strung(parts))
    &&& strung(parts).len() + 8 <= u32::MAX
    &&& well_named(parts)
    &&& 0 <= k < parts.len()
    &&& parts[k] == (code(0x74, 0x72, 0x61, 0x6b), strung(l.trak))
    &&& lays_out(l, t)
    &&& none_before(d, front.len() as int + 8, parts, k, t.handler)
    &&& moov_table(d) matches Some(Some(m)) && m.offset == front.len()
}

proof fn lemma_file_harvest(
    d: Seq<u8>,
    front: Seq<u8>,
    parts: Seq<(Seq<u8>, Seq<u8>)>,
    k: int,
    l: Layout,
    t: TrackTable,
    o: Organs,
)
    requires
        file_holds_track(d, front, parts, k, l, t),
        organs_of(d) == Some(Ok::<Organs, Unfit>(o)),
    ensures
        ({
            let at = body_at(front.len() as int + 8, parts, k);
            let b = BoxSpan {
                fourcc: crate::fourcc::TRAK@,
                body_start: at,
                body_end: at + strung(l.trak).len(),
            };
            &&& stands_at(d, at, strung(l.trak))
            &&& strung(l.trak).len() <= u32::MAX
            &&& t.handler == "vide"@ ==> o.video == Some(video_of(d, b, t))
            &&& t.handler == "soun"@ ==> o.audio == Some(audio_of(d, b, t))
        }),
{
    lemma_codes();
    let p = front.len() as int;
    let body = strung(parts);
    let moov = box_bytes(crate::fourcc::MOOV@, body);
    lemma_box_len(crate::fourcc::MOOV@, body);
    assert(d.subrange(p, p + moov.len()) =~= moov);
    assert(stands_at(d, p, moov));
    lemma_box_read(d, p, d.len() as int, crate::fourcc::MOOV@, body);
    let none = Organs { video: None, audio: None };
    let end = d.len() as int;
    assert(harvested(d, p + 8, end, none) == Some(Ok::<Organs, Unfit>(o)));
    lemma_harvest(d, p + 8, end, parts, k, l, t, none, o);
}

/// The boxes that organs are taken from.
proof fn lemma_organ_boxes(d: Seq<u8>, b: BoxSpan, l: Layout, t: TrackTable)
    requires
        stands_at(d, b.body_start, strung(l.trak)),
        b.body_end == b.body_start + strung(l.trak).len(),
        strung(l.trak).len() <= u32::MAX,
        lays_out(l, t),
    ensures
        ({
            let stbl = stbl_of(d, b);
            &&& first_box(d, stbl.body_start, stbl.body_end, crate::fourcc::CTTS@) is Some <==> holds(
                l.stbl,
                code(0x63, 0x74, 0x74, 0x73),
            )
            &&& stsd_of(d, b) == box_bytes(
                code(0x73, 0x74, 0x73, 0x64),
                first_body(l.stbl, code(0x73, 0x74, 0x73, 0x64)).unwrap(),
            )
            &&& tkhd_of(d, b) == first_body(l.trak, code(0x74, 0x6b, 0x68, 0x64))
        }),
{
    lemma_codes();
    lemma_nested(d, b.body_start, b.body_end, l);
    let stbl = stbl_of(d, b);
    law_boxes_are_found(d, stbl.body_start, stbl.body_end, l.stbl, crate::fourcc::CTTS@);
    lemma_holds(l.stbl, crate::fourcc::CTTS@);
    law_boxes_are_found(d, stbl.body_start, stbl.body_end, l.stbl, crate::fourcc::STSD@);
    law_boxes_are_found(d, b.body_start, b.body_end, l.trak, crate::fourcc::TKHD@);
}

/// The video organs of a file are those of its first video track: its sample descriptions and
/// track header byte for byte, its timescale, its cadence, its largest sample; and it is known
/// to reorder frames exactly where its sample table holds composition offsets.
pub proof fn law_video_organs_are_those_of_the_track(
    d: Seq<u8>,
    front: Seq<u8>,
    parts: Seq<(Seq<u8>, Seq<u8>)>,
    k: int,
    l: Layout,
    t: TrackTable,
    o: Organs,
)
    requires
        file_holds_track(d, front, parts, k, l, t),
        t.handler == "vide"@,
        organs_of(d) == Some(Ok::<Organs, Unfit>(o)),
    ensures
        o.video matches Some(v) && {
            &&& v.has_ctts <==> exists|i: int|
                0 <= i < l.stbl.len() && (#[trigger] l.stbl[i]).0 == code(0x63, 0x74, 0x74, 0x73)
            &&& first_body(l.stbl, code(0x73, 0x74, 0x73, 0x64)) matches Some(stsd) && v.stsd
                == box_bytes(code(0x73, 0x74, 0x73, 0x64), stsd)
            &&& v.tkhd == first_body(l.trak, code(0x74, 0x6b, 0x68, 0x64))
            &&& v.timescale == t.timescale
            &&& keeps_time(t.stts, v.sample_delta)
            &&& v.max_sample >= 1
            &&& forall|i: int| 0 <= i < t.sizes.len() ==> #[trigger] t.sizes[i] <= v.max_sample
            &&& v.max_sample > 1 ==> t.sizes.contains(v.max_sample)
            &&& v.codec == t.codec
            &&& v.sps == crate::h264::sps_in(v.stsd)
        },
{
    lemma_file_harvest(d, front, parts, k, l, t, o);
    let at = body_at(front.len() as int + 8, parts, k);
    let b = BoxSpan {
        fourcc: crate::fourcc::TRAK@,
        body_start: at,
        body_end: at + strung(l.trak).len(),
    };
    lemma_organ_boxes(d, b, l, t);
    lemma_largest(t.sizes);
    lemma_cadence(t);
    assert(holds(l.stbl, code(0x63, 0x74, 0x74, 0x73)) <==> exists|i: int|
        0 <= i < l.stbl.len() && (#[trigger] l.stbl[i]).0 == code(0x63, 0x74, 0x74, 0x73));
}

/// The audio organs of a file are those of its first audio track, and samples of one size are
/// known as such exactly where all of them have it.
pub proof fn law_audio_organs_are_those_of_the_track(
    d: Seq<u8>,
    front: Seq<u8>,
    parts: Seq<(Seq<u8>, Seq<u8>)>,
    k: int,
    l: Layout,
    t: TrackTable,
    o: Organs,
)
    requires
        file_holds_track(d, front, parts, k, l, t),
        t.handler == "soun"@,
        organs_of(d) == Some(Ok::<Organs, Unfit>(o)),
    ensures
        o.audio matches Some(a) && {
            &&& first_body(l.stbl, code(0x73, 0x74, 0x73, 0x64)) matches Some(stsd) && a.stsd
                == box_bytes(code(0x73, 0x74, 0x73, 0x64), stsd)
            &&& a.tkhd == first_body(l.trak, code(0x74, 0x6b, 0x68, 0x64))
            &&& a.timescale == t.timescale
            &&& keeps_time(t.stts, a.sample_delta)
            &&& a.codec == t.codec
            &&& forall|n: u32|
                a.constant_sample_size == Some(n) <==> t.sizes.len() > 0 && forall|i: int|
                    0 <= i < t.sizes.len() ==> #[trigger] t.sizes[i] == n
        },
{
    lemma_file_harvest(d, front, parts, k, l, t, o);
    let at = body_at(front.len() as int + 8, parts, k);
    let b = BoxSpan {
        fourcc: crate::fourcc::TRAK@,
        body_start: at,
        body_end: at + strung(l.trak).len(),
    };
    lemma_organ_boxes(d, b, l, t);
    lemma_cadence(t);
    let a = o.audio.unwrap();
    assert forall|n: u32|
        a.constant_sample_size == Some(n) <==> t.sizes.len() > 0 && forall|i: int|
            0 <= i < t.sizes.len() ==> #[trigger] t.sizes[i] == n by {
        if t.sizes.len() > 0 && forall|i: int| 0 <= i < t.sizes.len() ==> #[trigger] t.sizes[i] == n {
            assert(t.sizes[0] == n);
        }
    }
}

/// A file with a video track is a donor, unless the video is not H.264; and one without video
/// needs audio of one sample size.
pub proof fn law_only_h264_or_even_audio_is_transplantable(d: Seq<u8>)
    ensures
        organs_of(d) matches Some(Ok(o)) ==> {
            &&& o.video is Some || (o.audio matches Some(a) && a.constant_sample_size is Some)
            &&& o.video matches Some(v) ==> v.codec == "avc1"@ || v.codec == "avc3"@
        },
        moov_table(d) == Some(None::<MoovTable>) ==> organs_of(d) == Some(
            Err::<Organs, Unfit>(Unfit::NoMoov),
        ),
{
    if let Some(Some(m)) = moov_table(d) {
        if let Some(moov) = box_at(d, m.offset, d.len() as int) {
            lemma_harvest_codec(
                d,
                moov.body_start,
                moov.body_end,
                Organs { video: None, audio: None },
            );
        }
    }
}

proof fn lemma_harvest_codec(d: Seq<u8>, pos: int, end: int, got: Organs)
    requires
        got.video matches Some(v) ==> v.codec == "avc1"@ || v.codec == "avc3"@,
    ensures
        harvested(d, pos, end, got) matches Some(Ok(o)) ==> (o.video matches Some(v) ==> v.codec
            == "avc1"@ || v.codec == "avc3"@),
    decreases end - pos,
{
    if let Some(b) = box_at(d, pos, end) {
        lemma_harvest_codec(d, b.body_end, end, got);
        if b.fourcc == crate::fourcc::TRAK@ {
            if let Some(Ok(t)) = track_table(d, b.body_start, b.body_end) {
                if t.codec == "avc1"@ || t.codec == "avc3"@ {
                    lemma_harvest_codec(
                        d,
                        b.body_end,
                        end,
                        Organs { video: Some(video_of(d, b, t)), audio: got.audio },
                    );
                }
                lemma_harvest_codec(
                    d,
                    b.body_end,
                    end,
                    Organs { video: got.video, audio: Some(audio_of(d, b, t)) },
                );
            }
        }
    }
}

// ---------------------------------------------------------------------------
// Regrown tracks
// ---------------------------------------------------------------------------

/// A list of one box.
spec fn one(name: Seq<u8>, body: Seq<u8>) -> Seq<(Seq<u8>, Seq<u8>)> {
    seq![(name, body)]
}

proof fn lemma_one(name: Seq<u8>, body: Seq<u8>)
    ensures
        strung(one(name, body)) == box_bytes(name, body),
        forall|n: Seq<u8>| #[trigger]
            first_body(one(name, body), n) == if n == name {
                Some(body)
            } else {
                None
            },
{
    reveal_with_fuel(strung, 2);
    reveal_with_fuel(first_body, 2);
    assert(one(name, body).drop_first() =~= Seq::<(Seq<u8>, Seq<u8>)>::empty());
    assert(box_bytes(name, body) + Seq::<u8>::empty() =~= box_bytes(name, body));
}

proof fn lemma_append(a: Seq<(Seq<u8>, Seq<u8>)>, b: Seq<(Seq<u8>, Seq<u8>)>)
    ensures
        strung(a + b) == strung(a) + strung(b),
        forall|n: Seq<u8>| #[trigger]
            first_body(a + b, n) == if first_body(a, n) is Some {
                first_body(a, n)
            } else {
                first_body(b, n)
            },
    decreases a.len(),
{
    if a.len() == 0 {
        assert(a + b =~= b);
        assert(strung(a) + strung(b) =~= strung(b));
    } else {
        let t = a.drop_first();
        lemma_append(t, b);
        assert((a + b).drop_first() =~= t + b);
        assert(strung(a + b) =~= strung(a) + strung(b));
        assert forall|n: Seq<u8>| #[trigger] first_body(a + b, n) == (if first_body(a, n) is Some {
            first_body(a, n)
        } else {
            first_body(b, n)
        }) by {
            assert(first_body(t + b, n) == (if first_body(t, n) is Some {
                first_body(t, n)
            } else {
                first_body(b, n)
            }));
        }
    }
}

/// The payload of a full box of version 0.
spec fn full(flags: int, body: Seq<u8>) -> Seq<u8> {
    seq![0u8] + be24_bytes(flags) + body
}

proof fn lemma_full(flags: int, body: Seq<u8>)
    ensures
        full(flags, body).len() == body.len() + 4,
        full(flags, body)[0] == 0,
        stands_at(full(flags, body), 4, body),
{
    let f = full(flags, body);
    assert(f.subrange(4, 4 + body.len() as int) =~= body);
}

/// What run lengths stand for: each number as often as its run is long.
pub open spec fn expanded(runs: Seq<(u32, u32)>) -> Seq<u32>
    decreases runs.len(),
{
    if runs.len() == 0 {
        seq![]
    } else {
        expanded(runs.drop_last()) + Seq::new(runs.last().0 as nat, |i: int| runs.last().1)
    }
}

/// Runs as the entries of a table.
spec fn entries(runs: Seq<(int, int)>) -> Seq<(u32, u32)> {
    runs.map_values(|r: (int, int)| (r.0 as u32, r.1 as u32))
}

proof fn lemma_runs(v: Seq<u32>)
    requires
        v.len() <= u32::MAX,
    ensures
        run_lengths(v).len() <= v.len(),
        v.len() > 0 ==> run_lengths(v).len() > 0,
        forall|i: int|
            0 <= i < run_lengths(v).len() ==> 0 < (#[trigger] run_lengths(v)[i]).0 <= v.len() && 0
                <= run_lengths(v)[i].1 <= u32::MAX,
        expanded(entries(run_lengths(v))) == v,
    decreases v.len(),
{
    let runs = run_lengths(v);
    if v.len() == 0 {
        assert(entries(runs) =~= Seq::<(u32, u32)>::empty());
        assert(expanded(entries(runs)) =~= v);
    } else {
        let head = v.drop_last();
        let x = v.last();
        lemma_runs(head);
        let before = run_lengths(head);
        if before.len() > 0 && before.last().1 == x {
            let (n, y) = before.last();
            assert(before.last() == before[before.len() - 1]);
            let lead = before.drop_last();
            assert(runs == lead.push((n + 1, y)));
            assert(entries(runs).drop_last() =~= entries(lead));
            assert(entries(before).drop_last() =~= entries(lead));
            assert(entries(runs).last() == ((n + 1) as u32, x));
            assert(entries(before).last() == (n as u32, x));
            lemma_head_bound(before, head.len() as int);
            assert(expanded(entries(runs)) =~= expanded(entries(before)).push(x));
        } else {
            assert(runs == before.push((1, x as int)));
            assert(entries(runs).drop_last() =~= entries(before));
            assert(entries(runs).last() == (1u32, x));
            assert(expanded(entries(runs)) =~= expanded(entries(before)).push(x));
        }
        assert(head.push(x) =~= v);
    }
}

proof fn lemma_head_bound(runs: Seq<(int, int)>, n: int)
    requires
        runs.len() > 0,
        forall|i: int| 0 <= i < runs.len() ==> 0 < (#[trigger] runs[i]).0 <= n,
    ensures
        0 < runs.last().0 <= n,
{
    assert(runs.last() == runs[runs.len() - 1]);
}

proof fn lemma_pairs_len(v: Seq<(int, int)>)
    ensures
        word_pairs(v).len() == 8 * v.len(),
    decreases v.len(),
{
    if v.len() > 0 {
        lemma_pairs_len(v.drop_last());
    }
}

proof fn lemma_pairs_each(d: Seq<u8>, base: int, v: Seq<(int, int)>, i: int)
    requires
        stands_at(d, base, word_pairs(v)),
        forall|i: int|
            0 <= i < v.len() ==> 0 <= (#[trigger] v[i]).0 <= u32::MAX && 0 <= v[i].1 <= u32::MAX,
        0 <= i < v.len(),
    ensures
        be32_at(d, base + 8 * i) == v[i].0,
        be32_at(d, base + 8 * i + 4) == v[i].1,
    decreases v.len(),
{
    let head = v.drop_last();
    let (a, b) = (be32_bytes(v.last().0), be32_bytes(v.last().1));
    lemma_pairs_len(head);
    lemma_stands_split(d, base, word_pairs(head) + a, b);
    lemma_stands_split(d, base, word_pairs(head), a);
    if i == v.len() - 1 {
        lemma_word_read(d, base + 8 * i, v.last().0);
        lemma_word_read(d, base + 8 * i + 4, v.last().1);
    } else {
        assert forall|j: int| 0 <= j < head.len() implies 0 <= (#[trigger] head[j]).0 <= u32::MAX && 0
            <= head[j].1 <= u32::MAX by {
            assert(head[j] == v[j]);
        }
        lemma_pairs_each(d, base, head, i);
    }
}

/// The payload of a ctts box lists its offsets in runs.
pub open spec fn lists_offsets(body: Seq<u8>, c: Seq<u32>) -> bool {
    exists|runs: Seq<(u32, u32)>| #[trigger] lists_pairs(body, runs, 8) && expanded(runs) == c
}

proof fn lemma_offsets_listed(c: Seq<u32>)
    requires
        c.len() <= u32::MAX,
    ensures
        lists_offsets(
            full(0, be32_bytes(run_lengths(c).len() as int) + word_pairs(run_lengths(c))),
            c,
        ),
{
    let runs = run_lengths(c);
    let n = be32_bytes(runs.len() as int);
    let inner = n + word_pairs(runs);
    let body = full(0, inner);
    lemma_runs(c);
    lemma_full(0, inner);
    lemma_pairs_len(runs);
    lemma_stands_split(body, 4, n, word_pairs(runs));
    lemma_word_read(body, 4, runs.len() as int);
    let list = entries(runs);
    assert forall|i: int| 0 <= i < list.len() implies be32_at(body, 8 + 8 * i) == (
    #[trigger] list[i]).0 && be32_at(body, 8 + 8 * i + 4) == list[i].1 by {
        let x = runs[i];
        lemma_pairs_each(body, 8, runs, i);
    }
    assert(lists_pairs(body, list, 8));
}

proof fn lemma_words_body(v: Seq<int>)
    requires
        fits32(v),
        v.len() <= u32::MAX,
    ensures
        lists_words(full(0, be32_bytes(v.len() as int) + words(v)), entries32(v)),
{
    let n = be32_bytes(v.len() as int);
    let inner = n + words(v);
    let body = full(0, inner);
    lemma_full(0, inner);
    lemma_words_len(v);
    lemma_stands_split(body, 4, n, words(v));
    lemma_word_read(body, 4, v.len() as int);
    let list = entries32(v);
    assert forall|i: int| 0 <= i < list.len() implies be32_at(body, 8 + 4 * i)
        == #[trigger] list[i] by {
        let x = v[i];
        lemma_words_each(body, 8, v, i);
    }
}

proof fn lemma_longs_body(v: Seq<int>)
    requires
        forall|i: int| 0 <= i < v.len() ==> 0 <= #[trigger] v[i] <= u64::MAX,
        v.len() <= u32::MAX,
    ensures
        lists_longs(full(0, be32_bytes(v.len() as int) + longs(v)), entries64(v)),
{
    let n = be32_bytes(v.len() as int);
    let inner = n + longs(v);
    let body = full(0, inner);
    lemma_full(0, inner);
    lemma_longs_len(v);
    lemma_stands_split(body, 4, n, longs(v));
    lemma_word_read(body, 4, v.len() as int);
    let list = entries64(v);
    assert forall|i: int| 0 <= i < list.len() implies be64_at(body, 8 + 8 * i)
        == #[trigger] list[i] by {
        let x = v[i];
        lemma_longs_each(body, 8, v, i);
    }
}

proof fn lemma_sizes_body(v: Seq<int>)
    requires
        fits32(v),
        v.len() <= u32::MAX,
    ensures
        lists_sizes(full(0, be32_bytes(0) + be32_bytes(v.len() as int) + words(v)), entries32(v)),
{
    let z = be32_bytes(0);
    let n = be32_bytes(v.len() as int);
    let inner = z + n + words(v);
    let body = full(0, inner);
    lemma_full(0, inner);
    lemma_words_len(v);
    lemma_stands_split(body, 4, z + n, words(v));
    lemma_stands_split(body, 4, z, n);
    lemma_word_read(body, 4, 0);
    lemma_word_read(body, 8, v.len() as int);
    let list = entries32(v);
    assert forall|i: int| 0 <= i < list.len() implies be32_at(body, 12 + 4 * i)
        == #[trigger] list[i] by {
        let x = v[i];
        lemma_words_each(body, 12, v, i);
    }
}

proof fn lemma_stsc_body()
    ensures
        lists_pairs(
            full(0, be32_bytes(1) + be32_bytes(1) + be32_bytes(1) + be32_bytes(1)),
            seq![(1u32, 1u32)],
            12,
        ),
{
    let w = be32_bytes(1);
    let inner = w + w + w + w;
    let body = full(0, inner);
    lemma_full(0, inner);
    lemma_stands_split(body, 4, w + w + w, w);
    lemma_stands_split(body, 4, w + w, w);
    lemma_stands_split(body, 4, w, w);
    lemma_word_read(body, 4, 1);
    lemma_word_read(body, 8, 1);
    lemma_word_read(body, 12, 1);
}

proof fn lemma_stts_body(n: int, delta: u32)
    requires
        0 <= n <= u32::MAX,
    ensures
        lists_pairs(
            full(0, be32_bytes(1) + be32_bytes(n) + be32_bytes(delta as int)),
            seq![(n as u32, delta)],
            8,
        ),
{
    let (a, b, c) = (be32_bytes(1), be32_bytes(n), be32_bytes(delta as int));
    let inner = a + b + c;
    let body = full(0, inner);
    lemma_full(0, inner);
    lemma_stands_split(body, 4, a + b, c);
    lemma_stands_split(body, 4, a, b);
    lemma_word_read(body, 4, 1);
    lemma_word_read(body, 8, n);
    lemma_word_read(body, 12, delta as int);
}

/// The boxes of a regrown sample table.
spec fn regrown_stbl(
    dv: VideoOrgans,
    stsd: Seq<u8>,
    v: Seq<Unit>,
    ctts: Option<Seq<u32>>,
    base: int,
) -> Seq<(Seq<u8>, Seq<u8>)> {
    one(crate::fourcc::STSD@, stsd) + (one(
        crate::fourcc::STTS@,
        full(0, be32_bytes(1) + be32_bytes(v.len() as int) + be32_bytes(dv.sample_delta as int)),
    ) + (ctts_part(ctts) + (stss_part(v) + (one(
        crate::fourcc::STSC@,
        full(0, be32_bytes(1) + be32_bytes(1) + be32_bytes(1) + be32_bytes(1)),
    ) + (one(
        crate::fourcc::STSZ@,
        full(0, be32_bytes(0) + be32_bytes(v.len() as int) + words(unit_sizes(v))),
    ) + offsets_part(unit_offsets(v, base)))))))
}

spec fn ctts_part(ctts: Option<Seq<u32>>) -> Seq<(Seq<u8>, Seq<u8>)> {
    match ctts {
        Some(c) => if some_nonzero(c) {
            one(
                crate::fourcc::CTTS@,
                full(0, be32_bytes(run_lengths(c).len() as int) + word_pairs(run_lengths(c))),
            )
        } else {
            seq![]
        },
        None => seq![],
    }
}

spec fn stss_part(v: Seq<Unit>) -> Seq<(Seq<u8>, Seq<u8>)> {
    let syncs = sync_numbers(v);
    if syncs.len() < v.len() {
        one(crate::fourcc::STSS@, full(0, be32_bytes(syncs.len() as int) + words(syncs)))
    } else {
        seq![]
    }
}

spec fn offsets_part(offsets: Seq<int>) -> Seq<(Seq<u8>, Seq<u8>)> {
    if forall|i: int| 0 <= i < offsets.len() ==> #[trigger] offsets[i] <= u32::MAX {
        one(crate::fourcc::STCO@, full(0, be32_bytes(offsets.len() as int) + words(offsets)))
    } else {
        one(crate::fourcc::CO64@, full(0, be32_bytes(offsets.len() as int) + longs(offsets)))
    }
}

proof fn lemma_seven_parts(
    a: Seq<u8>,
    b: Seq<u8>,
    c: Seq<u8>,
    d: Seq<u8>,
    e: Seq<u8>,
    f: Seq<u8>,
    g: Seq<u8>,
)
    ensures
        a + (b + (c + (d + (e + (f + g))))) == a + b + c + d + e + f + g,
{
    assert(a + (b + (c + (d + (e + (f + g))))) =~= a + b + c + d + e + f + g);
}

/// The lists that a regrown sample table is made of, one behind the other.
#[verifier::spinoff_prover]
proof fn lemma_regrown_stbl(
    dv: VideoOrgans,
    stsd: Seq<u8>,
    v: Seq<Unit>,
    ctts: Option<Seq<u32>>,
    base: int,
)
    requires
        dv.stsd == box_bytes(crate::fourcc::STSD@, stsd),
    ensures
        strung(regrown_stbl(dv, stsd, v, ctts, base)) == video_stbl_bytes(dv, v, ctts, base),
        well_named(regrown_stbl(dv, stsd, v, ctts, base)),
        forall|n: Seq<u8>| #[trigger]
            first_body(regrown_stbl(dv, stsd, v, ctts, base), n) == if n == crate::fourcc::STSD@ {
                Some(stsd)
            } else if n == crate::fourcc::STTS@ {
                Some(
                    full(
                        0,
                        be32_bytes(1) + be32_bytes(v.len() as int) + be32_bytes(
                            dv.sample_delta as int,
                        ),
                    ),
                )
            } else if first_body(ctts_part(ctts), n) is Some {
                first_body(ctts_part(ctts), n)
            } else if first_body(stss_part(v), n) is Some {
                first_body(stss_part(v), n)
            } else if n == crate::fourcc::STSC@ {
                Some(full(0, be32_bytes(1) + be32_bytes(1) + be32_bytes(1) + be32_bytes(1)))
            } else if n == crate::fourcc::STSZ@ {
                Some(full(0, be32_bytes(0) + be32_bytes(v.len() as int) + words(unit_sizes(v))))
            } else {
                first_body(offsets_part(unit_offsets(v, base)), n)
            },
{
    let b0 = one(crate::fourcc::STSD@, stsd);
    let b1 = one(
        crate::fourcc::STTS@,
        full(0, be32_bytes(1) + be32_bytes(v.len() as int) + be32_bytes(dv.sample_delta as int)),
    );
    let b2 = ctts_part(ctts);
    let b3 = stss_part(v);
    let b4 = one(
        crate::fourcc::STSC@,
        full(0, be32_bytes(1) + be32_bytes(1) + be32_bytes(1) + be32_bytes(1)),
    );
    let b5 = one(
        crate::fourcc::STSZ@,
        full(0, be32_bytes(0) + be32_bytes(v.len() as int) + words(unit_sizes(v))),
    );
    let b6 = offsets_part(unit_offsets(v, base));
    lemma_append(b5, b6);
    lemma_append(b4, b5 + b6);
    lemma_append(b3, b4 + (b5 + b6));
    lemma_append(b2, b3 + (b4 + (b5 + b6)));
    lemma_append(b1, b2 + (b3 + (b4 + (b5 + b6))));
    lemma_append(b0, b1 + (b2 + (b3 + (b4 + (b5 + b6)))));
    lemma_one(b0[0].0, b0[0].1);
    lemma_one(b1[0].0, b1[0].1);
    lemma_one(b4[0].0, b4[0].1);
    lemma_one(b5[0].0, b5[0].1);
    lemma_one(b6[0].0, b6[0].1);
    if b2.len() > 0 {
        lemma_one(b2[0].0, b2[0].1);
    }
    if b3.len() > 0 {
        lemma_one(b3[0].0, b3[0].1);
    }
    lemma_seven_parts(
        strung(b0),
        strung(b1),
        strung(b2),
        strung(b3),
        strung(b4),
        strung(b5),
        strung(b6),
    );
    assert(unit_offsets(v, base).len() == v.len());
    assert(strung(b2) == ctts_bytes(ctts));
    assert(strung(b3) == stss_bytes(v));
    assert(strung(b6) == chunk_offset_bytes(unit_offsets(v, base)));
}

/// A regrown sample table lists what was recovered.
#[verifier::spinoff_prover]
proof fn lemma_regrown_lists(
    dv: VideoOrgans,
    stsd: Seq<u8>,
    v: Seq<Unit>,
    ctts: Option<Seq<u32>>,
    base: int,
)
    requires
        dv.stsd == box_bytes(crate::fourcc::STSD@, stsd),
        stsd.len() >= 16,
        describable(v, base),
        ctts matches Some(c) ==> c.len() <= u32::MAX,
    ensures
        lists_table(regrown_stbl(dv, stsd, v, ctts, base), regrown_table(dv, stsd, v, base)),
        match first_body(regrown_stbl(dv, stsd, v, ctts, base), crate::fourcc::CTTS@) {
            Some(body) => ctts matches Some(c) && lists_offsets(body, c) && some_nonzero(c),
            None => ctts matches Some(c) ==> !some_nonzero(c),
        },
{
    let list = regrown_stbl(dv, stsd, v, ctts, base);
    let t = regrown_table(dv, stsd, v, base);
    let sizes = unit_sizes(v);
    let offsets = unit_offsets(v, base);
    lemma_codes();
    lemma_names_differ();
    lemma_regrown_stbl(dv, stsd, v, ctts, base);
    assert forall|i: int| 0 <= i < sizes.len() implies 0 <= #[trigger] sizes[i] <= u32::MAX by {
        assert(sizes[i] == v[i].size);
    }
    assert forall|i: int| 0 <= i < offsets.len() implies 0 <= #[trigger] offsets[i] <= u64::MAX by {
        assert(offsets[i] == base + v[i].off);
    }
    lemma_sizes_body(sizes);
    lemma_stsc_body();
    lemma_stts_body(v.len() as int, dv.sample_delta);
    lemma_sync_numbers_fit(v);
    lemma_words_body(sync_numbers(v));
    let syncs = sync_numbers(v);
    if syncs.len() < v.len() {
        lemma_one(
            crate::fourcc::STSS@,
            full(0, be32_bytes(syncs.len() as int) + words(syncs)),
        );
    }
    if ctts is Some && some_nonzero(ctts.unwrap()) {
        let c = ctts.unwrap();
        lemma_one(
            crate::fourcc::CTTS@,
            full(0, be32_bytes(run_lengths(c).len() as int) + word_pairs(run_lengths(c))),
        );
        lemma_offsets_listed(c);
    }
    if forall|i: int| 0 <= i < offsets.len() ==> #[trigger] offsets[i] <= u32::MAX {
        let body = full(0, be32_bytes(offsets.len() as int) + words(offsets));
        lemma_one(crate::fourcc::STCO@, body);
        lemma_words_body(offsets);
        let w = entries32(offsets);
        assert(w.map_values(|x: u32| x as u64) =~= entries64(offsets));
        assert(lists_words(body, w));
    } else {
        lemma_one(
            crate::fourcc::CO64@,
            full(0, be32_bytes(offsets.len() as int) + longs(offsets)),
        );
        lemma_longs_body(offsets);
    }
    let none = Seq::<(Seq<u8>, Seq<u8>)>::empty();
    assert forall|n: Seq<u8>| #[trigger] first_body(none, n) is None by {}
    assert(first_body(list, crate::fourcc::STSD@) == Some(stsd));
    assert(first_body(list, crate::fourcc::STSZ@) == Some(
        full(0, be32_bytes(0) + be32_bytes(v.len() as int) + words(unit_sizes(v))),
    ));
    assert(sizes.len() == v.len());
    assert(lists_sizes(first_body(list, crate::fourcc::STSZ@).unwrap(), t.sizes));
    assert(first_body(list, crate::fourcc::STSC@) == Some(
        full(0, be32_bytes(1) + be32_bytes(1) + be32_bytes(1) + be32_bytes(1)),
    ));
    assert(lists_pairs(first_body(list, crate::fourcc::STSC@).unwrap(), t.stsc, 12));
    assert(lists_pairs(first_body(list, crate::fourcc::STTS@).unwrap(), t.stts, 8));
    match first_body(list, crate::fourcc::STSS@) {
        Some(stss) => {
            assert(lists_words(stss, t.sync_samples.unwrap()));
        },
        None => {
            assert(t.sync_samples is None);
        },
    }
    match first_body(list, crate::fourcc::STCO@) {
        Some(stco) => {
            assert(lists_words(stco, entries32(offsets)));
        },
        None => {
            assert(lists_longs(first_body(list, crate::fourcc::CO64@).unwrap(), t.chunk_offsets));
        },
    }
}

/// The box lists of a video track around a sample table.
spec fn layout_around(
    timescale: u32,
    ticks: int,
    tk: Seq<u8>,
    stbl: Seq<(Seq<u8>, Seq<u8>)>,
) -> Layout {
    let minf = one(crate::fourcc::VMHD@, full(1, zeros(8))) + (one(crate::fourcc::DINF@, dref())
        + one(crate::fourcc::STBL@, strung(stbl)));
    let mdia = one(crate::fourcc::MDHD@, mdhd_body(timescale, ticks)) + (one(
        crate::fourcc::HDLR@,
        hdlr_body(),
    ) + one(crate::fourcc::MINF@, strung(minf)));
    Layout {
        trak: one(crate::fourcc::TKHD@, tk) + one(crate::fourcc::MDIA@, strung(mdia)),
        mdia,
        minf,
        stbl,
    }
}

spec fn dref() -> Seq<u8> {
    full_box_bytes(
        crate::fourcc::DREF@,
        0,
        0,
        be32_bytes(1) + full_box_bytes(crate::fourcc::URL@, 0, 1, seq![]),
    )
}

#[verifier::spinoff_prover]
proof fn lemma_layout_around(
    timescale: u32,
    ticks: int,
    tk: Seq<u8>,
    stbl: Seq<(Seq<u8>, Seq<u8>)>,
)
    requires
        well_named(stbl),
    ensures
        ({
            let l = layout_around(timescale, ticks, tk, stbl);
            &&& nested(l)
            &&& l.stbl == stbl
            &&& first_body(l.mdia, crate::fourcc::MDHD@) == Some(mdhd_body(timescale, ticks))
            &&& first_body(l.mdia, crate::fourcc::HDLR@) == Some(hdlr_body())
            &&& box_bytes(crate::fourcc::TRAK@, strung(l.trak)) == trak_bytes(
                box_bytes(crate::fourcc::TKHD@, tk),
                mdhd_bytes(timescale, ticks),
                crate::fourcc::VIDE@,
                full_box_bytes(crate::fourcc::VMHD@, 0, 1, zeros(8)),
                strung(stbl),
            )
        }),
{
    let l = layout_around(timescale, ticks, tk, stbl);
    lemma_codes();
    lemma_names_differ();
    lemma_three(
        one(crate::fourcc::VMHD@, full(1, zeros(8))),
        one(crate::fourcc::DINF@, dref()),
        one(crate::fourcc::STBL@, strung(stbl)),
    );
    lemma_three(
        one(crate::fourcc::MDHD@, mdhd_body(timescale, ticks)),
        one(crate::fourcc::HDLR@, hdlr_body()),
        one(crate::fourcc::MINF@, strung(l.minf)),
    );
    lemma_one(crate::fourcc::TKHD@, tk);
    lemma_one(crate::fourcc::MDIA@, strung(l.mdia));
    lemma_append(one(crate::fourcc::TKHD@, tk), one(crate::fourcc::MDIA@, strung(l.mdia)));
}

spec fn mdhd_body(timescale: u32, ticks: int) -> Seq<u8> {
    full(
        0,
        zeros(8) + be32_bytes(timescale as int) + be32_bytes(capped32(ticks)) + seq![0x55u8, 0xc4u8]
            + zeros(2),
    )
}

spec fn hdlr_body() -> Seq<u8> {
    full(0, zeros(4) + crate::fourcc::VIDE@ + zeros(12) + HANDLER_NAME@)
}

proof fn lemma_media_headers(timescale: u32, ticks: int)
    ensures
        gives_timescale(mdhd_body(timescale, ticks), timescale),
        hdlr_body().len() >= 12,
        hdlr_body().subrange(8, 12) == crate::fourcc::VIDE@,
{
    let ts = be32_bytes(timescale as int);
    let rest = be32_bytes(capped32(ticks)) + seq![0x55u8, 0xc4u8] + zeros(2);
    let inner = zeros(8) + ts + be32_bytes(capped32(ticks)) + seq![0x55u8, 0xc4u8] + zeros(2);
    let body = mdhd_body(timescale, ticks);
    lemma_full(0, inner);
    assert(inner =~= zeros(8) + ts + rest);
    lemma_stands_split(body, 4, zeros(8) + ts, rest);
    lemma_stands_split(body, 4, zeros(8), ts);
    lemma_word_read(body, 12, timescale as int);
    assert(hdlr_body().subrange(8, 12) =~= crate::fourcc::VIDE@);
}

proof fn lemma_three(
    a: Seq<(Seq<u8>, Seq<u8>)>,
    b: Seq<(Seq<u8>, Seq<u8>)>,
    c: Seq<(Seq<u8>, Seq<u8>)>,
)
    requires
        a.len() == 1,
        b.len() == 1,
        c.len() == 1,
        a[0].0.len() == 4,
        b[0].0.len() == 4,
        c[0].0.len() == 4,
        a[0].0 != c[0].0,
        b[0].0 != c[0].0,
    ensures
        strung(a + (b + c)) == box_bytes(a[0].0, a[0].1) + box_bytes(b[0].0, b[0].1) + box_bytes(
            c[0].0,
            c[0].1,
        ),
        first_body(a + (b + c), a[0].0) == Some(a[0].1),
        a[0].0 != b[0].0 ==> first_body(a + (b + c), b[0].0) == Some(b[0].1),
        first_body(a + (b + c), c[0].0) == Some(c[0].1),
        well_named(a + (b + c)),
{
    lemma_append(b, c);
    lemma_append(a, b + c);
    lemma_one(a[0].0, a[0].1);
    lemma_one(b[0].0, b[0].1);
    lemma_one(c[0].0, c[0].1);
    assert(a =~= one(a[0].0, a[0].1));
    assert(b =~= one(b[0].0, b[0].1));
    assert(c =~= one(c[0].0, c[0].1));
    let (x, y, z) = (
        box_bytes(a[0].0, a[0].1),
        box_bytes(b[0].0, b[0].1),
        box_bytes(c[0].0, c[0].1),
    );
    assert(x + (y + z) =~= x + y + z);
}

/// A regrown track is laid out as a track has to be, and says what was recovered: the samples,
/// their sizes, offsets and sync numbers, one duration for all; and, where any composition
/// offset was recovered that says something, a ctts that lists them all.
#[verifier::spinoff_prover]
pub proof fn law_regrown_tracks_are_laid_out(
    media: Seq<u8>,
    v: Seq<Unit>,
    dv: VideoOrgans,
    stsd: Seq<u8>,
) -> (l: Layout)
    requires
        dv.stsd == box_bytes(code(0x73, 0x74, 0x73, 0x64), stsd),
        stsd.len() >= 16,
        describable(v, media_base(media)),
        regrown_ctts(media, v, dv) matches Some(c) ==> c.len() <= u32::MAX,
    ensures
        video_trak(media, v, dv) == box_bytes(code(0x74, 0x72, 0x61, 0x6b), strung(l.trak)),
        lays_out(l, regrown_table(dv, stsd, v, media_base(media))),
        first_body(l.stbl, code(0x73, 0x74, 0x73, 0x64)) == Some(stsd),
        match first_body(l.stbl, code(0x63, 0x74, 0x74, 0x73)) {
            Some(body) => dv.has_ctts && (ctts_of(media, v, dv) matches Some(c) && lists_offsets(
                body,
                c,
            ) && some_nonzero(c)),
            None => dv.has_ctts ==> (ctts_of(media, v, dv) matches Some(c) ==> !some_nonzero(c)),
        },
{
    let ticks = v.len() * dv.sample_delta;
    let base = media_base(media);
    let ms = ticks_to_ms(ticks, dv.timescale);
    let ctts = regrown_ctts(media, v, dv);
    lemma_codes();
    lemma_names_differ();
    lemma_tkhd_is_box(dv.tkhd, 1, false, ms);
    let tk = choose|x: Seq<u8>|
        tkhd_bytes(dv.tkhd, 1, false, ms) == #[trigger] box_bytes(crate::fourcc::TKHD@, x);
    let stbl = regrown_stbl(dv, stsd, v, ctts, base);
    let l = layout_around(dv.timescale, ticks, tk, stbl);
    lemma_regrown_stbl(dv, stsd, v, ctts, base);
    lemma_regrown_lists(dv, stsd, v, ctts, base);
    lemma_media_headers(dv.timescale, ticks);
    lemma_layout_around(dv.timescale, ticks, tk, stbl);
    l
}

/// The boxes of a new file's moov: a header, the video track, and behind it the audio track,
/// if there is one.
proof fn lemma_moov_parts(
    media: Seq<u8>,
    gaps: Seq<(int, int)>,
    v: Seq<Unit>,
    o: Organs,
    trak: Seq<u8>,
) -> (parts: Seq<(Seq<u8>, Seq<u8>)>)
    requires
        o.video matches Some(dv) && video_trak(media, v, dv) == box_bytes(
            code(0x74, 0x72, 0x61, 0x6b),
            trak,
        ),
    ensures
        ({
            let t = with_audio(media, splittable(gaps, o), o, video_tracks(media, v, o));
            strung(parts) == mvhd_bytes(1000, t.duration_ms, t.max_id + 1) + t.bytes
        }),
        well_named(parts),
        parts.len() >= 2,
        parts[0].0 != code(0x74, 0x72, 0x61, 0x6b),
        parts[1] == (code(0x74, 0x72, 0x61, 0x6b), trak),
{
    lemma_codes();
    let dv = o.video.unwrap();
    let chunks = splittable(gaps, o);
    let base = video_tracks(media, v, o);
    let t = with_audio(media, chunks, o, base);
    let mv = mvhd_bytes(1000, t.duration_ms, t.max_id + 1);
    let mbody = full(
        0,
        zeros(8) + be32_bytes(1000) + be32_bytes(capped32(t.duration_ms)) + be32_bytes(0x1_0000)
            + seq![1u8, 0u8] + zeros(10) + matrix_bytes() + zeros(24) + be32_bytes(t.max_id + 1),
    );
    assert(mv == box_bytes(crate::fourcc::MVHD@, mbody));
    let a = one(crate::fourcc::MVHD@, mbody);
    let b = one(crate::fourcc::TRAK@, trak);
    lemma_one(crate::fourcc::MVHD@, mbody);
    lemma_one(crate::fourcc::TRAK@, trak);
    assert(crate::fourcc::MVHD@[0] == 0x6d && crate::fourcc::TRAK@[0] == 0x74);
    if sample_total(chunks) <= 0 {
        lemma_append(a, b);
        a + b
    } else {
        let da = o.audio.unwrap();
        let css = da.constant_sample_size.unwrap();
        let fallback = (base.max_id + 1) % 0x1_0000_0000;
        let at = audio_trak(media, chunks, da, css, fallback);
        let abody = audio_body(media, chunks, da, css, fallback);
        let c = one(crate::fourcc::TRAK@, abody);
        assert(at == box_bytes(crate::fourcc::TRAK@, abody));
        lemma_one(crate::fourcc::TRAK@, abody);
        lemma_append(b, c);
        lemma_append(a, b + c);
        assert(strung(a + (b + c)) =~= mv + t.bytes);
        a + (b + c)
    }
}

/// The payload of an audio trak box.
spec fn audio_body(media: Seq<u8>, chunks: Seq<(int, int)>, da: AudioOrgans, css: u32, fallback: int) -> Seq<
    u8,
> {
    let ticks = sample_total(chunks) * da.sample_delta;
    tkhd_bytes(da.tkhd, fallback, true, ticks_to_ms(ticks, da.timescale)) + box_bytes(
        crate::fourcc::MDIA@,
        mdhd_bytes(da.timescale, ticks) + hdlr_bytes(crate::fourcc::SOUN@) + box_bytes(
            crate::fourcc::MINF@,
            full_box_bytes(crate::fourcc::SMHD@, 0, 0, zeros(4)) + dinf_bytes() + box_bytes(
                crate::fourcc::STBL@,
                audio_stbl_bytes(da, css, chunks, media_base(media)),
            ),
        ),
    )
}

/// The media of a broken file, and what of it a transplant plays.
pub open spec fn played(d: Seq<u8>, o: Organs, keep_preroll: bool) -> (Seq<u8>, Parts) {
    let (start, end, head_torn) = media_of(d);
    let media = d.subrange(start, end);
    (media, playable(media_parts(media, head_torn, o), keep_preroll).unwrap().0)
}

/// A file whose moov holds a header and then a trak that is laid out to say what `t` says.
pub open spec fn opens_with_track(out: Seq<u8>, front: Seq<u8>, l: Layout, t: TrackTable) -> bool {
    exists|parts: Seq<(Seq<u8>, Seq<u8>)>|
        {
            &&& out == front + #[trigger] box_bytes(code(0x6d, 0x6f, 0x6f, 0x76), strung(parts))
            &&& well_named(parts)
            &&& parts.len() >= 2
            &&& parts[0].0 != code(0x74, 0x72, 0x61, 0x6b)
            &&& parts[1] == (code(0x74, 0x72, 0x61, 0x6b), strung(l.trak))
            &&& lays_out(l, t)
        }
}

/// What a transplant writes into its index, for every donor with video: a track with the
/// donor's sample descriptions, and a ctts exactly where the donor reorders frames and any
/// offset was recovered that says something, which lists the recovered offsets.
#[verifier::spinoff_prover]
pub proof fn law_transplants_write_what_was_recovered(
    d: Seq<u8>,
    o: Organs,
    keep_preroll: bool,
    rate: Option<u32>,
    stsd: Seq<u8>,
) -> (l: Layout)
    requires
        transplanted(d, o, keep_preroll, rate) is Ok,
        o.video matches Some(dv) && dv.stsd == box_bytes(code(0x73, 0x74, 0x73, 0x64), stsd),
        stsd.len() >= 16,
        played(d, o, keep_preroll).0.len() <= u32::MAX,
    ensures
        ({
            let g = transplanted(d, o, keep_preroll, rate).unwrap();
            let dv = o.video.unwrap();
            let (media, q) = played(d, o, keep_preroll);
            let table = regrown_table(dv, stsd, q.video, media_base(media));
            &&& opens_with_track(g.out, ftyp_box() + mdat_bytes(media), l, table)
            &&& first_body(l.stbl, code(0x73, 0x74, 0x73, 0x64)) == Some(stsd)
            &&& g.ctts_recovered <==> dv.has_ctts && ctts_of(media, q.video, dv) is Some
            &&& match first_body(l.stbl, code(0x63, 0x74, 0x74, 0x73)) {
                Some(body) => dv.has_ctts && (ctts_of(media, q.video, dv) matches Some(c)
                    && lists_offsets(body, c) && some_nonzero(c)),
                None => dv.has_ctts ==> (ctts_of(media, q.video, dv) matches Some(c)
                    ==> !some_nonzero(c)),
            }
        }),
{
    lemma_codes();
    let dv = o.video.unwrap();
    let (start, end, head_torn) = media_of(d);
    let (media, q) = played(d, o, keep_preroll);
    let g = transplanted(d, o, keep_preroll, rate).unwrap();
    lemma_graft_out(d, o, keep_preroll, rate);
    lemma_graft_describable(media, head_torn, o, keep_preroll);
    lemma_ctts_len(media, q.video, dv);
    let l = law_regrown_tracks_are_laid_out(media, q.video, dv, stsd);
    let parts = lemma_moov_parts(media, q.gaps, q.video, o, strung(l.trak));
    let t = with_audio(media, splittable(q.gaps, o), o, video_tracks(media, q.video, o));
    let front = ftyp_box() + mdat_bytes(media);
    assert(g.out == front + box_bytes(crate::fourcc::MOOV@, strung(parts)));
    assert(opens_with_track(
        g.out,
        front,
        l,
        regrown_table(dv, stsd, q.video, media_base(media)),
    ));
    l
}

proof fn lemma_ctts_len(media: Seq<u8>, v: Seq<Unit>, dv: VideoOrgans)
    ensures
        ctts_of(media, v, dv) matches Some(c) ==> c.len() == v.len(),
{
    if let Some(sps) = dv.sps {
        lemma_pocs_len(media, v, sps);
    }
}

proof fn lemma_pocs_len(media: Seq<u8>, v: Seq<Unit>, sps: SpsInfo)
    ensures
        sample_pocs(media, v, sps) matches Some(pocs) ==> pocs.len() == v.len(),
    decreases v.len(),
{
    if v.len() > 0 {
        lemma_pocs_len(media, v.drop_last(), sps);
    }
}

/// A file with reordered frames gets its own composition offsets back: where it is harvested
/// as a donor, and its payload, without an index, is given one with those organs, the new
/// index lists the offsets that its own sample table listed. They must be offsets that show
/// the pictures in turn at its cadence, and the slices must carry the low bits of true counts.
pub proof fn law_a_file_gets_its_own_offsets_back(
    whole: Seq<u8>,
    front: Seq<u8>,
    parts: Seq<(Seq<u8>, Seq<u8>)>,
    k: int,
    own: Layout,
    t: TrackTable,
    o: Organs,
    offsets: Seq<u32>,
    d: Seq<u8>,
    keep_preroll: bool,
    rate: Option<u32>,
    sps: SpsInfo,
    pocs: Seq<(bool, int)>,
    p: Seq<int>,
    e: int,
) -> (l: Layout)
    requires
        file_holds_track(whole, front, parts, k, own, t),
        t.handler == "vide"@,
        first_body(own.stbl, code(0x63, 0x74, 0x74, 0x73)) matches Some(body) && lists_offsets(
            body,
            offsets,
        ),
        some_nonzero(offsets),
        organs_of(whole) == Some(Ok::<Organs, Unfit>(o)),
        transplanted(d, o, keep_preroll, rate) is Ok,
        played(d, o, keep_preroll).0.len() <= u32::MAX,
        o.video matches Some(dv) && dv.sps == Some(sps) && shows_in_turn(
            offsets,
            pocs,
            p,
            dv.sample_delta,
            e,
        ) && timing_fits(pocs.len() as int, dv.sample_delta),
        sps.poc_type == 0,
        sample_pocs(played(d, o, keep_preroll).0, played(d, o, keep_preroll).1.video, sps) == Some(
            pocs,
        ),
        true_pocs(pocs, p, sps.log2_max_poc_lsb as nat),
    ensures
        ({
            let g = transplanted(d, o, keep_preroll, rate).unwrap();
            let (media, q) = played(d, o, keep_preroll);
            let stsd = first_body(own.stbl, code(0x73, 0x74, 0x73, 0x64)).unwrap();
            &&& opens_with_track(
                g.out,
                ftyp_box() + mdat_bytes(media),
                l,
                regrown_table(o.video.unwrap(), stsd, q.video, media_base(media)),
            )
            &&& first_body(l.stbl, code(0x63, 0x74, 0x74, 0x73)) matches Some(body)
                && lists_offsets(body, offsets)
            &&& g.ctts_recovered
        }),
{
    let dv = o.video.unwrap();
    let (start, end, head_torn) = media_of(d);
    let (media, q) = played(d, o, keep_preroll);
    let stsd = first_body(own.stbl, code(0x73, 0x74, 0x73, 0x64)).unwrap();
    law_video_organs_are_those_of_the_track(whole, front, parts, k, own, t, o);
    lemma_holds(own.stbl, code(0x63, 0x74, 0x74, 0x73));
    lemma_graft_out(d, o, keep_preroll, rate);
    lemma_graft_describable(media, head_torn, o, keep_preroll);
    lemma_pocs_len(media, q.video, sps);
    law_offsets_are_recovered(media, q.video, dv, sps, pocs, p, offsets, e);
    law_transplants_write_what_was_recovered(d, o, keep_preroll, rate, stsd)
}

/// A transplant is as good a donor as the one it came from: harvested in turn, it yields the
/// same sample descriptions, timescale and parameters, and reorders where a ctts was written.
pub proof fn law_transplants_are_donors(
    d: Seq<u8>,
    o: Organs,
    keep_preroll: bool,
    rate: Option<u32>,
    stsd: Seq<u8>,
    again: Organs,
)
    requires
        transplanted(d, o, keep_preroll, rate) is Ok,
        o.video matches Some(dv) && dv.stsd == box_bytes(code(0x73, 0x74, 0x73, 0x64), stsd)
            && dv.sps == crate::h264::sps_in(dv.stsd),
        stsd.len() >= 16,
        played(d, o, keep_preroll).0.len() <= u32::MAX,
        ({
            let g = transplanted(d, o, keep_preroll, rate).unwrap();
            let media = played(d, o, keep_preroll).0;
            &&& moov_table(g.out) matches Some(Some(m)) && m.offset == (ftyp_box() + mdat_bytes(
                media,
            )).len()
            &&& g.out.len() <= u32::MAX
            &&& organs_of(g.out) == Some(Ok::<Organs, Unfit>(again))
        }),
        utf8_lossy(code(0x76, 0x69, 0x64, 0x65)) == "vide"@,
    ensures
        ({
            let dv = o.video.unwrap();
            let (media, q) = played(d, o, keep_preroll);
            again.video matches Some(v) && {
                &&& v.stsd == dv.stsd
                &&& v.sps == dv.sps
                &&& v.timescale == dv.timescale
                &&& dv.sample_delta > 0 && q.video.len() > 0 ==> v.sample_delta == dv.sample_delta
                &&& v.has_ctts <==> dv.has_ctts && (ctts_of(media, q.video, dv) matches Some(c)
                    && exists|i: int| 0 <= i < c.len() && #[trigger] c[i] != 0)
            }
        }),
{
    lemma_codes();
    assert(code(0x76, 0x69, 0x64, 0x65) =~= crate::fourcc::VIDE@);
    let dv = o.video.unwrap();
    let (media, q) = played(d, o, keep_preroll);
    let g = transplanted(d, o, keep_preroll, rate).unwrap();
    let front = ftyp_box() + mdat_bytes(media);
    let table = regrown_table(dv, stsd, q.video, media_base(media));
    let l = law_transplants_write_what_was_recovered(d, o, keep_preroll, rate, stsd);
    let parts = choose|parts: Seq<(Seq<u8>, Seq<u8>)>|
        {
            &&& g.out == front + #[trigger] box_bytes(code(0x6d, 0x6f, 0x6f, 0x76), strung(parts))
            &&& well_named(parts)
            &&& parts.len() >= 2
            &&& parts[0].0 != code(0x74, 0x72, 0x61, 0x6b)
            &&& parts[1] == (code(0x74, 0x72, 0x61, 0x6b), strung(l.trak))
            &&& lays_out(l, table)
        };
    reveal_with_fuel(none_before, 2);
    lemma_box_len(crate::fourcc::MOOV@, strung(parts));
    assert(file_holds_track(g.out, front, parts, 1, l, table));
    law_video_organs_are_those_of_the_track(g.out, front, parts, 1, l, table, again);
    lemma_holds(l.stbl, code(0x63, 0x74, 0x74, 0x73));
    let v = again.video.unwrap();
    let stts = table.stts;
    assert(stts == seq![(q.video.len() as u32, dv.sample_delta)]);
    if dv.sample_delta > 0 {
        assert(stts[0].1 == dv.sample_delta);
        let i = choose|i: int| 0 <= i < stts.len() && (#[trigger] stts[i]).1 == v.sample_delta;
    }
}

} // verus!
