//! What a regrown index says when it is read again: the trak box that a transplant
//! writes is a track, and its tables are the samples that were recovered.
use crate::bytes::{be32_at, be32_bytes, be64_at, be64_bytes, stands_at, zeros};
use crate::forensics::{atom_at, atoms_before, Atom};
use crate::fourcc::{
    CO64, CTTS, DINF, FTYP, HDLR, ISOM, MDAT, MDHD, MDIA, MINF, MOOV, MVHD, SMHD, SOUN, STBL, STCO,
    STSC, STSD, STSS, STSZ, STTS, TKHD, TRAK, VIDE, VMHD,
};
use crate::mp4::{
    all_covered, atom_placed, box_at, chunk_offsets_in, codec_at, counted_longs, counted_pairs,
    counted_words, covered, diagnosis, ends_fit, erased, first_box, first_moov, first_video,
    ftyp_box, less_likely, likeliest_first, lines_up, locations, locations_from, longs_at,
    mdat_ranges, moov_table, nals_fill, named, next_sample, pairs_at, per_chunk, per_chunk_from,
    run_locations, sample_table, sizes_at, syncs_in, table_is_video, timescale_at, track_table,
    tracks_from, vote, walk_end, walks_clean, widened, within_mdat, word_at, words_at, BoxSpan,
    Diagnosis, MoovTable, SampleTable, TrackError, TrackTable,
};
use crate::rebuilt::{law_index_is_found_again, lemma_tracks_step};
use crate::text::utf8_lossy;
use crate::transplant::{
    audio_stbl_bytes, audio_trak, be24_bytes, box_bytes, capped32, chunk_offset_bytes, chunk_runs,
    chunk_starts, counted_chunks, ctts_bytes, dinf_bytes, file_bytes, first_sync, full_box_bytes,
    gaps_behind, gaps_laid_out, hdlr_bytes, laid_out, lemma_next_start, lemma_run, longest_nal,
    longs, matrix_bytes, mdat_bytes, mdhd_bytes, media_base, media_of, media_parts, mvhd_bytes,
    nal_at, needs_wide_mdat, next_start, parts_from, playable, regrown_ctts, run_at, run_from,
    sample_frame_num, sample_total, splittable, starts_picture, stsc_entries, stss_bytes,
    stts_bytes, sync_numbers, ticks_to_ms, tkhd_bytes, trak_bytes, transplanted, unit,
    unit_offsets, unit_sizes, video_stbl_bytes, video_tracks, video_trak, whole_samples,
    with_audio, words, AudioOrgans, NalSpan, Organs, Parts, Tracks, Unit, VideoOrgans,
    HANDLER_NAME,
};
use vstd::prelude::*;

verus! {

broadcast use crate::bytes::group_lengths;

// ---------------------------------------------------------------------------
// Reading what was written
// ---------------------------------------------------------------------------

/// What stands at a place stands there piece by piece.
pub proof fn lemma_stands_split(d: Seq<u8>, pos: int, a: Seq<u8>, b: Seq<u8>)
    requires
        stands_at(d, pos, a + b),
    ensures
        stands_at(d, pos, a),
        stands_at(d, pos + a.len(), b),
{
    let s = a + b;
    assert(d.subrange(pos, pos + a.len()) =~= a) by {
        assert forall|i: int| 0 <= i < a.len() implies d[pos + i] == a[i] by {
            assert(d.subrange(pos, pos + s.len())[i] == s[i]);
        }
    }
    assert(d.subrange(pos + a.len(), pos + a.len() + b.len()) =~= b) by {
        assert forall|i: int| 0 <= i < b.len() implies d[pos + a.len() + i] == b[i] by {
            assert(d.subrange(pos, pos + s.len())[a.len() + i] == s[a.len() + i]);
        }
    }
}

/// A 32-bit number that was written is read.
pub proof fn lemma_word_read(d: Seq<u8>, i: int, v: int)
    requires
        stands_at(d, i, be32_bytes(v)),
        0 <= v <= u32::MAX,
    ensures
        word_at(d, i) == Some(v),
        be32_at(d, i) == v,
{
    let w = be32_bytes(v);
    let e = Seq::<u8>::empty();
    crate::bytes::lemma_be32_roundtrip(e, v, e);
    assert(e + w + e =~= w);
    let s = d.subrange(i, i + 4);
    assert(s[0] == d[i] && s[1] == d[i + 1] && s[2] == d[i + 2] && s[3] == d[i + 3]);
}

/// A 64-bit number that was written is read.
proof fn lemma_long_read(d: Seq<u8>, i: int, v: int)
    requires
        stands_at(d, i, be64_bytes(v)),
        0 <= v <= u64::MAX,
    ensures
        be64_at(d, i) == v,
{
    let w = be64_bytes(v);
    let e = Seq::<u8>::empty();
    crate::bytes::lemma_be64_roundtrip(e, v, e);
    assert(e + w + e =~= w);
    let s = d.subrange(i, i + 8);
    assert(s[0] == d[i] && s[1] == d[i + 1] && s[2] == d[i + 2] && s[3] == d[i + 3]);
    assert(s[4] == d[i + 4] && s[5] == d[i + 5] && s[6] == d[i + 6] && s[7] == d[i + 7]);
}

pub open spec fn fits32(v: Seq<int>) -> bool {
    forall|i: int| 0 <= i < v.len() ==> 0 <= #[trigger] v[i] <= u32::MAX
}

pub proof fn lemma_words_len(v: Seq<int>)
    ensures
        words(v).len() == 4 * v.len(),
    decreases v.len(),
{
    if v.len() > 0 {
        lemma_words_len(v.drop_last());
        assert(be32_bytes(v.last()).len() == 4);
    }
}

pub proof fn lemma_longs_len(v: Seq<int>)
    ensures
        longs(v).len() == 8 * v.len(),
    decreases v.len(),
{
    if v.len() > 0 {
        lemma_longs_len(v.drop_last());
        assert(be64_bytes(v.last()).len() == 8);
    }
}

/// Each of the numbers that were written is read.
pub proof fn lemma_words_each(d: Seq<u8>, base: int, v: Seq<int>, i: int)
    requires
        stands_at(d, base, words(v)),
        fits32(v),
        0 <= i < v.len(),
    ensures
        be32_at(d, base + 4 * i) == v[i],
    decreases v.len(),
{
    let head = v.drop_last();
    lemma_words_len(head);
    lemma_stands_split(d, base, words(head), be32_bytes(v.last()));
    if i == v.len() - 1 {
        lemma_word_read(d, base + 4 * i, v.last());
    } else {
        assert(fits32(head)) by {
            assert forall|j: int| 0 <= j < head.len() implies 0 <= #[trigger] head[j] <= u32::MAX by {
                assert(head[j] == v[j]);
            }
        }
        lemma_words_each(d, base, head, i);
    }
}

pub proof fn lemma_longs_each(d: Seq<u8>, base: int, v: Seq<int>, i: int)
    requires
        stands_at(d, base, longs(v)),
        forall|i: int| 0 <= i < v.len() ==> 0 <= #[trigger] v[i] <= u64::MAX,
        0 <= i < v.len(),
    ensures
        be64_at(d, base + 8 * i) == v[i],
    decreases v.len(),
{
    let head = v.drop_last();
    lemma_longs_len(head);
    lemma_stands_split(d, base, longs(head), be64_bytes(v.last()));
    if i == v.len() - 1 {
        lemma_long_read(d, base + 8 * i, v.last());
    } else {
        assert forall|j: int| 0 <= j < head.len() implies 0 <= #[trigger] head[j] <= u64::MAX by {
            assert(head[j] == v[j]);
        }
        lemma_longs_each(d, base, head, i);
    }
}

/// A table of 32-bit numbers that was written is read.
proof fn lemma_words_read(d: Seq<u8>, base: int, v: Seq<int>)
    requires
        stands_at(d, base, words(v)),
        fits32(v),
    ensures
        words_at(d, base, v.len() as int) == Some(v.map_values(|x: int| x as u32)),
{
    lemma_words_len(v);
    let want = v.map_values(|x: int| x as u32);
    let got = Seq::new(v.len() as int as nat, |i: int| be32_at(d, base + 4 * i) as u32);
    assert forall|i: int| 0 <= i < v.len() implies got[i] == want[i] by {
        lemma_words_each(d, base, v, i);
    }
    assert(got =~= want);
}

/// A table of 64-bit numbers that was written is read.
proof fn lemma_longs_read(d: Seq<u8>, base: int, v: Seq<int>)
    requires
        stands_at(d, base, longs(v)),
        forall|i: int| 0 <= i < v.len() ==> 0 <= #[trigger] v[i] <= u64::MAX,
    ensures
        longs_at(d, base, v.len() as int) == Some(v.map_values(|x: int| x as u64)),
{
    lemma_longs_len(v);
    let want = v.map_values(|x: int| x as u64);
    let got = Seq::new(v.len() as int as nat, |i: int| be64_at(d, base + 8 * i) as u64);
    assert forall|i: int| 0 <= i < v.len() implies got[i] == want[i] by {
        lemma_longs_each(d, base, v, i);
    }
    assert(got =~= want);
}

/// The length of a box.
pub open spec fn box_len(body: Seq<u8>) -> int {
    body.len() as int + 8
}

/// A box that was written is found where it stands, and its payload with it.
pub proof fn lemma_box_read(d: Seq<u8>, pos: int, end: int, fourcc: Seq<u8>, body: Seq<u8>)
    requires
        stands_at(d, pos, box_bytes(fourcc, body)),
        fourcc.len() == 4,
        box_len(body) <= u32::MAX,
        pos + box_len(body) <= end <= d.len(),
    ensures
        box_at(d, pos, end) == Some(
            BoxSpan { fourcc, body_start: pos + 8, body_end: pos + box_len(body) },
        ),
        stands_at(d, pos + 8, body),
{
    let head = be32_bytes(box_len(body));
    assert(head.len() == 4);
    lemma_stands_split(d, pos, head + fourcc, body);
    lemma_stands_split(d, pos, head, fourcc);
    lemma_word_read(d, pos, box_len(body));
    assert(d.subrange(pos + 4, pos + 8) =~= fourcc);
}

/// A full box that was written is found, and its fields behind version and flags.
proof fn lemma_full_box_read(d: Seq<u8>, pos: int, end: int, fourcc: Seq<u8>, flags: int, body: Seq<u8>)
    requires
        stands_at(d, pos, full_box_bytes(fourcc, 0, flags, body)),
        fourcc.len() == 4,
        body.len() + 12 <= u32::MAX,
        pos + body.len() + 12 <= end <= d.len(),
    ensures
        box_at(d, pos, end) == Some(
            BoxSpan { fourcc, body_start: pos + 8, body_end: pos + body.len() + 12 },
        ),
        stands_at(d, pos + 12, body),
        d[pos + 8] == 0,
{
    let head = seq![0u8] + be24_bytes(flags);
    lemma_box_read(d, pos, end, fourcc, head + body);
    lemma_stands_split(d, pos + 8, head, body);
    assert(d.subrange(pos + 8, pos + 8 + head.len())[0] == head[0]);
}

/// A box of another name is passed over.
pub proof fn lemma_pass(d: Seq<u8>, pos: int, end: int, b: BoxSpan, fourcc: Seq<u8>)
    requires
        box_at(d, pos, end) == Some(b),
        b.fourcc != fourcc,
    ensures
        first_box(d, pos, end, fourcc) == first_box(d, b.body_end, end, fourcc),
{
}

/// All the box names of a track differ.
pub proof fn lemma_names_differ()
    ensures
        STSD@ != STTS@,
        STSD@ != STSS@,
        STSD@ != STSC@,
        STSD@ != STSZ@,
        STSD@ != STCO@,
        STSD@ != CO64@,
        STTS@ != STSS@,
        STTS@ != STSC@,
        STTS@ != STSZ@,
        STTS@ != STCO@,
        STTS@ != CO64@,
        CTTS@ != STSS@,
        CTTS@ != STSC@,
        CTTS@ != STSZ@,
        CTTS@ != STCO@,
        CTTS@ != CO64@,
        CTTS@ != STTS@,
        STSS@ != STSC@,
        STSS@ != STSZ@,
        STSS@ != STCO@,
        STSS@ != CO64@,
        STSC@ != STSZ@,
        STSC@ != STCO@,
        STSC@ != CO64@,
        STSC@ != STSS@,
        STSZ@ != STCO@,
        STSZ@ != CO64@,
        STSZ@ != STSS@,
        STCO@ != STSS@,
        CO64@ != STSS@,
        CO64@ != STCO@,
        TKHD@ != MDIA@,
        MDHD@ != HDLR@,
        MDHD@ != MINF@,
        HDLR@ != MINF@,
        VMHD@ != STBL@,
        DINF@ != STBL@,
{
    assert(STSD@[2] == 0x73 && STSD@[3] == 0x64);
    assert(STTS@[2] == 0x74 && STTS@[3] == 0x73);
    assert(CTTS@[0] == 0x63 && CTTS@[1] == 0x74);
    assert(STSS@[2] == 0x73 && STSS@[3] == 0x73);
    assert(STSC@[2] == 0x73 && STSC@[3] == 0x63);
    assert(STSZ@[2] == 0x73 && STSZ@[3] == 0x7a);
    assert(STCO@[2] == 0x63 && STCO@[3] == 0x6f);
    assert(CO64@[0] == 0x63 && CO64@[1] == 0x6f);
    assert(STSD@[0] == 0x73 && STTS@[0] == 0x73 && STSS@[0] == 0x73 && STSC@[0] == 0x73 && STSZ@[0]
        == 0x73 && STCO@[0] == 0x73);
    assert(TKHD@[0] == 0x74 && MDIA@[0] == 0x6d);
    assert(MDHD@[2] == 0x68 && HDLR@[0] == 0x68 && MINF@[2] == 0x6e);
    assert(MDHD@[0] == 0x6d && MINF@[0] == 0x6d);
    assert(VMHD@[0] == 0x76 && DINF@[0] == 0x64 && STBL@[0] == 0x73);
}

// ---------------------------------------------------------------------------
// The sample table
// ---------------------------------------------------------------------------

/// Numbers as 32-bit entries.
pub open spec fn entries32(v: Seq<int>) -> Seq<u32> {
    v.map_values(|x: int| x as u32)
}

/// Numbers as 64-bit entries.
pub open spec fn entries64(v: Seq<int>) -> Seq<u64> {
    v.map_values(|x: int| x as u64)
}

/// What the sample table of recovered samples says.
pub open spec fn video_table(stsd: Seq<u8>, v: Seq<Unit>, delta: u32, base: int) -> SampleTable {
    SampleTable {
        codec: codec_at(stsd, 0, stsd.len() as int),
        sizes: entries32(unit_sizes(v)),
        chunk_offsets: entries64(unit_offsets(v, base)),
        stsc: seq![(1u32, 1u32)],
        sync_samples: if sync_numbers(v).len() < v.len() {
            Some(entries32(sync_numbers(v)))
        } else {
            None
        },
        stts: seq![(v.len() as u32, delta)],
    }
}

/// Samples that an index can describe: fewer than 2^32, each smaller than 4 GiB, at
/// offsets that 64 bits hold.
pub open spec fn describable(v: Seq<Unit>, base: int) -> bool {
    &&& v.len() <= u32::MAX
    &&& forall|i: int|
        0 <= i < v.len() ==> 0 <= (#[trigger] v[i]).size <= u32::MAX && 0 <= base + v[i].off <= u64::MAX
}

/// The seven parts of a sample table.
#[verifier::opaque]
spec fn part(dv: VideoOrgans, v: Seq<Unit>, ctts: Option<Seq<u32>>, base: int, k: int) -> Seq<u8> {
    if k == 0 {
        dv.stsd
    } else if k == 1 {
        stts_bytes(v.len() as int, dv.sample_delta)
    } else if k == 2 {
        ctts_bytes(ctts)
    } else if k == 3 {
        stss_bytes(v)
    } else if k == 4 {
        full_box_bytes(STSC@, 0, 0, be32_bytes(1) + be32_bytes(1) + be32_bytes(1) + be32_bytes(1))
    } else if k == 5 {
        full_box_bytes(
            STSZ@,
            0,
            0,
            be32_bytes(0) + be32_bytes(v.len() as int) + words(unit_sizes(v)),
        )
    } else {
        chunk_offset_bytes(unit_offsets(v, base))
    }
}

/// What stands behind version and flags in each part but the first.
#[verifier::opaque]
spec fn part_body(dv: VideoOrgans, v: Seq<Unit>, ctts: Option<Seq<u32>>, base: int, k: int) -> Seq<u8> {
    if k == 1 {
        be32_bytes(1) + be32_bytes(v.len() as int) + be32_bytes(dv.sample_delta as int)
    } else if k == 2 {
        let runs = crate::transplant::run_lengths(ctts.unwrap());
        be32_bytes(runs.len() as int) + crate::transplant::word_pairs(runs)
    } else if k == 3 {
        be32_bytes(sync_numbers(v).len() as int) + words(sync_numbers(v))
    } else if k == 4 {
        be32_bytes(1) + be32_bytes(1) + be32_bytes(1) + be32_bytes(1)
    } else if k == 5 {
        be32_bytes(0) + be32_bytes(v.len() as int) + words(unit_sizes(v))
    } else if narrow(v, base) {
        be32_bytes(v.len() as int) + words(unit_offsets(v, base))
    } else {
        be32_bytes(v.len() as int) + longs(unit_offsets(v, base))
    }
}

/// Each part but the first is empty or a full box; only two of them can be empty.
proof fn lemma_part_shape(dv: VideoOrgans, v: Seq<Unit>, ctts: Option<Seq<u32>>, base: int, k: int)
    requires
        0 < k < 7,
    ensures
        part_name(v, base, k).len() == 4,
        (part(dv, v, ctts, base, k).len() == 0 && (k == 2 || k == 3)) || (part(dv, v, ctts, base, k)
            == full_box_bytes(part_name(v, base, k), 0, 0, part_body(dv, v, ctts, base, k)) && part(
            dv,
            v,
            ctts,
            base,
            k,
        ).len() == part_body(dv, v, ctts, base, k).len() + 12),
{
    reveal(part);
    reveal(part_body);
    let name = part_name(v, base, k);
    assert(unit_offsets(v, base).len() == v.len());
    lemma_full_len(name, part_body(dv, v, ctts, base, k));
}

/// The name of each part's box.
spec fn part_name(v: Seq<Unit>, base: int, k: int) -> Seq<u8> {
    if k == 0 {
        STSD@
    } else if k == 1 {
        STTS@
    } else if k == 2 {
        CTTS@
    } else if k == 3 {
        STSS@
    } else if k == 4 {
        STSC@
    } else if k == 5 {
        STSZ@
    } else if narrow(v, base) {
        STCO@
    } else {
        CO64@
    }
}

/// Whether all offsets fit in 32 bits.
spec fn narrow(v: Seq<Unit>, base: int) -> bool {
    let offsets = unit_offsets(v, base);
    forall|i: int| 0 <= i < offsets.len() ==> #[trigger] offsets[i] <= u32::MAX
}

/// Where each part starts, in a table that starts at `b`.
spec fn part_at(dv: VideoOrgans, v: Seq<Unit>, ctts: Option<Seq<u32>>, base: int, b: int, k: int) -> int
    decreases k,
{
    if k <= 0 {
        b
    } else {
        part_at(dv, v, ctts, base, b, k - 1) + part(dv, v, ctts, base, k - 1).len()
    }
}

/// A sample table of recovered samples stands from `b` to `e`.
#[verifier::opaque]
spec fn table_at(
    d: Seq<u8>,
    b: int,
    e: int,
    dv: VideoOrgans,
    v: Seq<Unit>,
    ctts: Option<Seq<u32>>,
    base: int,
    sbody: Seq<u8>,
) -> bool {
    &&& stands_at(d, b, video_stbl_bytes(dv, v, ctts, base))
    &&& e == b + video_stbl_bytes(dv, v, ctts, base).len()
    &&& e <= d.len()
    &&& e - b <= u32::MAX
    &&& dv.stsd == box_bytes(STSD@, sbody)
}

proof fn lemma_table_is_parts(dv: VideoOrgans, v: Seq<Unit>, ctts: Option<Seq<u32>>, base: int)
    ensures
        video_stbl_bytes(dv, v, ctts, base) == part(dv, v, ctts, base, 0) + part(dv, v, ctts, base, 1)
            + part(dv, v, ctts, base, 2) + part(dv, v, ctts, base, 3) + part(dv, v, ctts, base, 4)
            + part(dv, v, ctts, base, 5) + part(dv, v, ctts, base, 6),
        part(dv, v, ctts, base, 0) == dv.stsd,
{
    reveal(part);
}

proof fn lemma_seven_stand(
    d: Seq<u8>,
    b: int,
    s0: Seq<u8>,
    s1: Seq<u8>,
    s2: Seq<u8>,
    s3: Seq<u8>,
    s4: Seq<u8>,
    s5: Seq<u8>,
    s6: Seq<u8>,
)
    requires
        stands_at(d, b, s0 + s1 + s2 + s3 + s4 + s5 + s6),
    ensures
        stands_at(d, b, s0),
        stands_at(d, b + s0.len(), s1),
        stands_at(d, b + s0.len() + s1.len(), s2),
        stands_at(d, b + s0.len() + s1.len() + s2.len(), s3),
        stands_at(d, b + s0.len() + s1.len() + s2.len() + s3.len(), s4),
        stands_at(d, b + s0.len() + s1.len() + s2.len() + s3.len() + s4.len(), s5),
        stands_at(d, b + s0.len() + s1.len() + s2.len() + s3.len() + s4.len() + s5.len(), s6),
{
    lemma_stands_split(d, b, s0 + s1 + s2 + s3 + s4 + s5, s6);
    lemma_stands_split(d, b, s0 + s1 + s2 + s3 + s4, s5);
    lemma_stands_split(d, b, s0 + s1 + s2 + s3, s4);
    lemma_stands_split(d, b, s0 + s1 + s2, s3);
    lemma_stands_split(d, b, s0 + s1, s2);
    lemma_stands_split(d, b, s0, s1);
}

/// The parts stand one behind the other.
proof fn lemma_parts_stand(
    d: Seq<u8>,
    b: int,
    e: int,
    dv: VideoOrgans,
    v: Seq<Unit>,
    ctts: Option<Seq<u32>>,
    base: int,
    sbody: Seq<u8>,
)
    requires
        table_at(d, b, e, dv, v, ctts, base, sbody),
    ensures
        forall|k: int|
            0 <= k < 7 ==> stands_at(
                d,
                part_at(dv, v, ctts, base, b, k),
                #[trigger] part(dv, v, ctts, base, k),
            ) && b <= part_at(dv, v, ctts, base, b, k) && part_at(dv, v, ctts, base, b, k) + part(
                dv,
                v,
                ctts,
                base,
                k,
            ).len() <= e,
        part_at(dv, v, ctts, base, b, 7) == e,
        0 <= b <= e <= d.len(),
        e - b <= u32::MAX,
        part(dv, v, ctts, base, 0) == box_bytes(STSD@, sbody),
{
    reveal(table_at);
    lemma_table_is_parts(dv, v, ctts, base);
    reveal_with_fuel(part_at, 8);
    lemma_seven_stand(
        d,
        b,
        part(dv, v, ctts, base, 0),
        part(dv, v, ctts, base, 1),
        part(dv, v, ctts, base, 2),
        part(dv, v, ctts, base, 3),
        part(dv, v, ctts, base, 4),
        part(dv, v, ctts, base, 5),
        part(dv, v, ctts, base, 6),
    );
}

/// Each part is empty, or a box of its name that ends where the next part starts.
proof fn lemma_part_box(
    d: Seq<u8>,
    b: int,
    e: int,
    dv: VideoOrgans,
    v: Seq<Unit>,
    ctts: Option<Seq<u32>>,
    base: int,
    sbody: Seq<u8>,
    k: int,
)
    requires
        0 <= k < 7,
        table_at(d, b, e, dv, v, ctts, base, sbody),
    ensures
        ({
            let p = part_at(dv, v, ctts, base, b, k);
            let q = part_at(dv, v, ctts, base, b, k + 1);
            ||| part(dv, v, ctts, base, k).len() == 0 && q == p && (k == 2 || k == 3)
            ||| box_at(d, p, e) == Some(
                BoxSpan { fourcc: part_name(v, base, k), body_start: p + 8, body_end: q },
            ) && b <= p < q <= e
        }),
{
    lemma_parts_stand(d, b, e, dv, v, ctts, base, sbody);
    let p = part_at(dv, v, ctts, base, b, k);
    let s = part(dv, v, ctts, base, k);
    assert(stands_at(d, p, s));
    if k == 0 {
        assert(box_bytes(STSD@, sbody).len() == box_len(sbody)) by {
            assert(be32_bytes(box_len(sbody)).len() == 4);
        }
        lemma_box_read(d, p, e, STSD@, sbody);
    } else {
        lemma_part_shape(dv, v, ctts, base, k);
        if s.len() > 0 {
            lemma_full_box_read(d, p, e, part_name(v, base, k), 0, part_body(dv, v, ctts, base, k));
        }
    }
}

pub proof fn lemma_full_len(name: Seq<u8>, body: Seq<u8>)
    requires
        name.len() == 4,
    ensures
        full_box_bytes(name, 0, 0, body).len() == body.len() + 12,
{
    assert(be32_bytes((seq![0u8] + be24_bytes(0) + body).len() as int + 8).len() == 4);
}

/// The search for a name passes over the parts of other names.
proof fn lemma_find_from(
    d: Seq<u8>,
    b: int,
    e: int,
    dv: VideoOrgans,
    v: Seq<Unit>,
    ctts: Option<Seq<u32>>,
    base: int,
    sbody: Seq<u8>,
    name: Seq<u8>,
    from: int,
    k: int,
)
    requires
        0 <= from <= k <= 7,
        table_at(d, b, e, dv, v, ctts, base, sbody),
        forall|j: int| from <= j < k ==> #[trigger] part_name(v, base, j) != name,
    ensures
        first_box(d, part_at(dv, v, ctts, base, b, from), e, name) == first_box(
            d,
            part_at(dv, v, ctts, base, b, k),
            e,
            name,
        ),
    decreases k - from,
{
    if from < k {
        lemma_part_box(d, b, e, dv, v, ctts, base, sbody, from);
        assert(part_name(v, base, from) != name);
        lemma_find_from(d, b, e, dv, v, ctts, base, sbody, name, from + 1, k);
    }
}

/// Each part's box is what the search for its name finds; a part that is not there
/// is not found.
proof fn lemma_find_part(
    d: Seq<u8>,
    b: int,
    e: int,
    dv: VideoOrgans,
    v: Seq<Unit>,
    ctts: Option<Seq<u32>>,
    base: int,
    sbody: Seq<u8>,
    k: int,
)
    requires
        0 <= k < 7,
        k != 2,
        table_at(d, b, e, dv, v, ctts, base, sbody),
    ensures
        ({
            let p = part_at(dv, v, ctts, base, b, k);
            let q = part_at(dv, v, ctts, base, b, k + 1);
            let name = part_name(v, base, k);
            if part(dv, v, ctts, base, k).len() == 0 {
                first_box(d, b, e, name) is None
            } else {
                first_box(d, b, e, name) == Some(
                    BoxSpan { fourcc: name, body_start: p + 8, body_end: q },
                )
            }
        }),
{
    let name = part_name(v, base, k);
    lemma_names_differ();
    assert forall|j: int| 0 <= j < k implies #[trigger] part_name(v, base, j) != name by {}
    lemma_find_from(d, b, e, dv, v, ctts, base, sbody, name, 0, k);
    lemma_part_box(d, b, e, dv, v, ctts, base, sbody, k);
    if part(dv, v, ctts, base, k).len() == 0 {
        assert forall|j: int| k < j < 7 implies #[trigger] part_name(v, base, j) != name by {}
        lemma_find_from(d, b, e, dv, v, ctts, base, sbody, name, k + 1, 7);
        lemma_parts_stand(d, b, e, dv, v, ctts, base, sbody);
    }
}

/// What stands behind version and flags of a part's box.
proof fn lemma_body_stands(
    d: Seq<u8>,
    b: int,
    e: int,
    dv: VideoOrgans,
    v: Seq<Unit>,
    ctts: Option<Seq<u32>>,
    base: int,
    sbody: Seq<u8>,
    k: int,
)
    requires
        0 < k < 7,
        table_at(d, b, e, dv, v, ctts, base, sbody),
        part(dv, v, ctts, base, k).len() > 0,
    ensures
        stands_at(d, part_at(dv, v, ctts, base, b, k) + 12, part_body(dv, v, ctts, base, k)),
{
    lemma_parts_stand(d, b, e, dv, v, ctts, base, sbody);
    let p = part_at(dv, v, ctts, base, b, k);
    assert(stands_at(d, p, part(dv, v, ctts, base, k)));
    lemma_part_shape(dv, v, ctts, base, k);
    lemma_full_box_read(d, p, e, part_name(v, base, k), 0, part_body(dv, v, ctts, base, k));
}

/// A counted table of 32-bit numbers is read.
proof fn lemma_counted_words_read(d: Seq<u8>, b: int, v: Seq<int>)
    requires
        stands_at(d, b + 4, be32_bytes(v.len() as int) + words(v)),
        fits32(v),
        v.len() <= u32::MAX,
    ensures
        counted_words(d, b) == Some(entries32(v)),
{
    let head = be32_bytes(v.len() as int);
    assert(head.len() == 4);
    lemma_stands_split(d, b + 4, head, words(v));
    lemma_word_read(d, b + 4, v.len() as int);
    lemma_words_read(d, b + 8, v);
}

/// A counted table of 64-bit numbers is read.
proof fn lemma_counted_longs_read(d: Seq<u8>, b: int, v: Seq<int>)
    requires
        stands_at(d, b + 4, be32_bytes(v.len() as int) + longs(v)),
        forall|i: int| 0 <= i < v.len() ==> 0 <= #[trigger] v[i] <= u64::MAX,
        v.len() <= u32::MAX,
    ensures
        counted_longs(d, b) == Some(entries64(v)),
{
    let head = be32_bytes(v.len() as int);
    assert(head.len() == 4);
    lemma_stands_split(d, b + 4, head, longs(v));
    lemma_word_read(d, b + 4, v.len() as int);
    lemma_longs_read(d, b + 8, v);
}

/// A table of one pair is read.
proof fn lemma_one_pair_read(d: Seq<u8>, b: int, x: int, y: int, stride: int, rest: Seq<u8>)
    requires
        stands_at(d, b + 4, be32_bytes(1) + be32_bytes(x) + be32_bytes(y) + rest),
        0 <= x <= u32::MAX,
        0 <= y <= u32::MAX,
    ensures
        counted_pairs(d, b, stride) == Some(seq![(x as u32, y as u32)]),
{
    let w1 = be32_bytes(1);
    let wx = be32_bytes(x);
    let wy = be32_bytes(y);
    assert(w1.len() == 4 && wx.len() == 4 && wy.len() == 4);
    lemma_stands_split(d, b + 4, w1 + wx + wy, rest);
    lemma_stands_split(d, b + 4, w1 + wx, wy);
    lemma_stands_split(d, b + 4, w1, wx);
    lemma_word_read(d, b + 4, 1);
    lemma_word_read(d, b + 8, x);
    lemma_word_read(d, b + 12, y);
    assert(stride * 0 == 0) by (nonlinear_arith);
    assert(pairs_at(d, b + 8, stride, 1).unwrap() =~= seq![(x as u32, y as u32)]);
}

pub proof fn lemma_sync_numbers_fit(v: Seq<Unit>)
    requires
        v.len() <= u32::MAX,
    ensures
        fits32(sync_numbers(v)),
        sync_numbers(v).len() <= v.len(),
        forall|i: int| 0 <= i < sync_numbers(v).len() ==> 1 <= #[trigger] sync_numbers(v)[i] <= v.len(),
    decreases v.len(),
{
    if v.len() > 0 {
        lemma_sync_numbers_fit(v.drop_last());
    }
}

/// The sample table of recovered samples says what they are.
proof fn lemma_sample_table(
    d: Seq<u8>,
    b: int,
    e: int,
    dv: VideoOrgans,
    v: Seq<Unit>,
    ctts: Option<Seq<u32>>,
    base: int,
    sbody: Seq<u8>,
)
    requires
        table_at(d, b, e, dv, v, ctts, base, sbody),
        describable(v, base),
    ensures
        sample_table(d, b, e) == Some(
            Ok::<SampleTable, TrackError>(video_table(sbody, v, dv.sample_delta, base)),
        ),
{
    let want = video_table(sbody, v, dv.sample_delta, base);
    lemma_stsd_read(d, b, e, dv, v, ctts, base, sbody);
    lemma_stsz_read(d, b, e, dv, v, ctts, base, sbody);
    lemma_offsets_read(d, b, e, dv, v, ctts, base, sbody);
    lemma_stsc_read(d, b, e, dv, v, ctts, base, sbody);
    lemma_stss_read(d, b, e, dv, v, ctts, base, sbody);
    lemma_stts_read(d, b, e, dv, v, ctts, base, sbody);
}

proof fn lemma_stsd_read(
    d: Seq<u8>,
    b: int,
    e: int,
    dv: VideoOrgans,
    v: Seq<Unit>,
    ctts: Option<Seq<u32>>,
    base: int,
    sbody: Seq<u8>,
)
    requires
        table_at(d, b, e, dv, v, ctts, base, sbody),
    ensures
        first_box(d, b, e, STSD@) matches Some(x) && codec_at(d, x.body_start, x.body_end) == codec_at(
            sbody,
            0,
            sbody.len() as int,
        ),
{
    lemma_parts_stand(d, b, e, dv, v, ctts, base, sbody);
    lemma_find_part(d, b, e, dv, v, ctts, base, sbody, 0);
    let p = part_at(dv, v, ctts, base, b, 0);
    assert(stands_at(d, p, part(dv, v, ctts, base, 0)));
    assert(box_bytes(STSD@, sbody).len() == box_len(sbody)) by {
        assert(be32_bytes(box_len(sbody)).len() == 4);
    }
    lemma_box_read(d, p, e, STSD@, sbody);
    assert(part_at(dv, v, ctts, base, b, 1) == p + part(dv, v, ctts, base, 0).len()) by {
        reveal_with_fuel(part_at, 2);
    }
    if sbody.len() >= 16 {
        let got = d.subrange(p + 8 + 12, p + 8 + 16);
        assert forall|i: int| 0 <= i < 4 implies got[i] == sbody.subrange(12, 16)[i] by {
            assert(d.subrange(p + 8, p + 8 + sbody.len())[12 + i] == sbody[12 + i]);
        }
        assert(got =~= sbody.subrange(12, 16));
    }
}

proof fn lemma_stsz_read(
    d: Seq<u8>,
    b: int,
    e: int,
    dv: VideoOrgans,
    v: Seq<Unit>,
    ctts: Option<Seq<u32>>,
    base: int,
    sbody: Seq<u8>,
)
    requires
        table_at(d, b, e, dv, v, ctts, base, sbody),
        describable(v, base),
    ensures
        first_box(d, b, e, STSZ@) matches Some(x) && sizes_at(d, x.body_start) == Some(
            entries32(unit_sizes(v)),
        ),
{
    lemma_find_part(d, b, e, dv, v, ctts, base, sbody, 5);
    lemma_part_shape(dv, v, ctts, base, 5);
    lemma_body_stands(d, b, e, dv, v, ctts, base, sbody, 5);
    reveal(part_body);
    let p = part_at(dv, v, ctts, base, b, 5);
    let n = v.len() as int;
    let sizes = unit_sizes(v);
    assert(sizes.len() == n);
    assert(fits32(sizes));
    assert(be32_bytes(0).len() == 4 && be32_bytes(n).len() == 4);
    lemma_stands_split(d, p + 12, be32_bytes(0) + be32_bytes(n), words(sizes));
    lemma_stands_split(d, p + 12, be32_bytes(0), be32_bytes(n));
    lemma_word_read(d, p + 12, 0);
    lemma_word_read(d, p + 16, n);
    lemma_words_read(d, p + 20, sizes);
}

proof fn lemma_offsets_read(
    d: Seq<u8>,
    b: int,
    e: int,
    dv: VideoOrgans,
    v: Seq<Unit>,
    ctts: Option<Seq<u32>>,
    base: int,
    sbody: Seq<u8>,
)
    requires
        table_at(d, b, e, dv, v, ctts, base, sbody),
        describable(v, base),
    ensures
        chunk_offsets_in(d, b, e) == Some(Some(entries64(unit_offsets(v, base)))),
{
    lemma_find_part(d, b, e, dv, v, ctts, base, sbody, 6);
    lemma_part_shape(dv, v, ctts, base, 6);
    lemma_body_stands(d, b, e, dv, v, ctts, base, sbody, 6);
    reveal(part_body);
    let p = part_at(dv, v, ctts, base, b, 6);
    let offsets = unit_offsets(v, base);
    assert(offsets.len() == v.len());
    if narrow(v, base) {
        assert(fits32(offsets));
        lemma_counted_words_read(d, p + 8, offsets);
        assert(widened(entries32(offsets)) =~= entries64(offsets));
    } else {
        lemma_names_differ();
        assert forall|j: int| 0 <= j < 7 implies #[trigger] part_name(v, base, j) != STCO@ by {}
        lemma_find_from(d, b, e, dv, v, ctts, base, sbody, STCO@, 0, 7);
        lemma_parts_stand(d, b, e, dv, v, ctts, base, sbody);
        assert(first_box(d, e, e, STCO@) is None);
        lemma_counted_longs_read(d, p + 8, offsets);
    }
}

proof fn lemma_stsc_read(
    d: Seq<u8>,
    b: int,
    e: int,
    dv: VideoOrgans,
    v: Seq<Unit>,
    ctts: Option<Seq<u32>>,
    base: int,
    sbody: Seq<u8>,
)
    requires
        table_at(d, b, e, dv, v, ctts, base, sbody),
    ensures
        first_box(d, b, e, STSC@) matches Some(x) && counted_pairs(d, x.body_start, 12) == Some(
            seq![(1u32, 1u32)],
        ),
{
    lemma_find_part(d, b, e, dv, v, ctts, base, sbody, 4);
    lemma_part_shape(dv, v, ctts, base, 4);
    lemma_body_stands(d, b, e, dv, v, ctts, base, sbody, 4);
    reveal(part_body);
    let p = part_at(dv, v, ctts, base, b, 4);
    lemma_one_pair_read(d, p + 8, 1, 1, 12, be32_bytes(1));
}

proof fn lemma_stss_read(
    d: Seq<u8>,
    b: int,
    e: int,
    dv: VideoOrgans,
    v: Seq<Unit>,
    ctts: Option<Seq<u32>>,
    base: int,
    sbody: Seq<u8>,
)
    requires
        table_at(d, b, e, dv, v, ctts, base, sbody),
        v.len() <= u32::MAX,
    ensures
        syncs_in(d, b, e) == Some(
            if sync_numbers(v).len() < v.len() {
                Some(entries32(sync_numbers(v)))
            } else {
                None
            },
        ),
{
    lemma_find_part(d, b, e, dv, v, ctts, base, sbody, 3);
    lemma_part_shape(dv, v, ctts, base, 3);
    lemma_sync_numbers_fit(v);
    let syncs = sync_numbers(v);
    assert((part(dv, v, ctts, base, 3).len() > 0) == (syncs.len() < v.len())) by {
        reveal(part);
        lemma_full_len(STSS@, be32_bytes(syncs.len() as int) + words(syncs));
    }
    if syncs.len() < v.len() {
        lemma_body_stands(d, b, e, dv, v, ctts, base, sbody, 3);
        reveal(part_body);
        let p = part_at(dv, v, ctts, base, b, 3);
        lemma_counted_words_read(d, p + 8, syncs);
    }
}

proof fn lemma_stts_read(
    d: Seq<u8>,
    b: int,
    e: int,
    dv: VideoOrgans,
    v: Seq<Unit>,
    ctts: Option<Seq<u32>>,
    base: int,
    sbody: Seq<u8>,
)
    requires
        table_at(d, b, e, dv, v, ctts, base, sbody),
        v.len() <= u32::MAX,
    ensures
        first_box(d, b, e, STTS@) matches Some(x) && counted_pairs(d, x.body_start, 8) == Some(
            seq![(v.len() as u32, dv.sample_delta)],
        ),
{
    lemma_find_part(d, b, e, dv, v, ctts, base, sbody, 1);
    lemma_part_shape(dv, v, ctts, base, 1);
    lemma_body_stands(d, b, e, dv, v, ctts, base, sbody, 1);
    reveal(part_body);
    let p = part_at(dv, v, ctts, base, b, 1);
    let none = Seq::<u8>::empty();
    let body = be32_bytes(1) + be32_bytes(v.len() as int) + be32_bytes(dv.sample_delta as int);
    assert(body + none =~= body);
    lemma_one_pair_read(d, p + 8, v.len() as int, dv.sample_delta as int, 8, none);
}

// ---------------------------------------------------------------------------
// The track
// ---------------------------------------------------------------------------

/// What the trak box of recovered samples says.
pub open spec fn regrown_table(dv: VideoOrgans, stsd: Seq<u8>, v: Seq<Unit>, base: int) -> TrackTable {
    let s = video_table(stsd, v, dv.sample_delta, base);
    TrackTable {
        handler: utf8_lossy(VIDE@),
        codec: s.codec,
        timescale: dv.timescale,
        sample_count: s.sizes.len() as int,
        sizes: s.sizes,
        chunk_offsets: s.chunk_offsets,
        stsc: s.stsc,
        sync_samples: s.sync_samples,
        stts: s.stts,
    }
}

/// A regrown index reads back: wherever the trak box of recovered samples stands, it
/// is found as a box, it is a track, and its tables are the samples (their sizes,
/// their offsets with the media at its base, their sync numbers, one duration for
/// all). The donor's stsd is taken to be one box, as harvested, and the trak box and
/// what it describes to stay within its 32-bit fields.
pub proof fn law_regrown_index_reads_back(
    d: Seq<u8>,
    pos: int,
    media: Seq<u8>,
    v: Seq<Unit>,
    dv: VideoOrgans,
    stsd: Seq<u8>,
)
    requires
        stands_at(d, pos, video_trak(media, v, dv)),
        video_trak(media, v, dv).len() <= u32::MAX,
        dv.stsd == box_bytes(STSD@, stsd),
        describable(v, media_base(media)),
    ensures
        box_at(d, pos, d.len() as int) matches Some(b) && b.fourcc == TRAK@ && b.body_end == pos
            + video_trak(media, v, dv).len() && track_table(d, b.body_start, b.body_end) == Some(
            Ok::<TrackTable, TrackError>(regrown_table(dv, stsd, v, media_base(media))),
        ),
{
    let ticks = v.len() * dv.sample_delta;
    let base = media_base(media);
    let tk = tkhd_bytes(dv.tkhd, 1, false, ticks_to_ms(ticks, dv.timescale));
    let ctts = regrown_ctts(media, v, dv);
    let stbl = video_stbl_bytes(dv, v, ctts, base);
    let trak = video_trak(media, v, dv);
    lemma_tkhd_is_box(dv.tkhd, 1, false, ticks_to_ms(ticks, dv.timescale));
    let tkbody = choose|x: Seq<u8>| tk == #[trigger] box_bytes(TKHD@, x);
    let s = video_table(stsd, v, dv.sample_delta, base);
    let vbody = seq![0u8] + be24_bytes(1) + zeros(8);
    lemma_names_differ();
    lemma_trak_read(d, pos, dv.timescale, ticks, VIDE@, VMHD@, vbody, tkbody, stbl, trak, s);
    let e = pos + trak.len();
    let b = e - stbl.len();
    assert(table_at(d, b, e, dv, v, ctts, base, stsd)) by {
        reveal(table_at);
    }
    lemma_sample_table(d, b, e, dv, v, ctts, base, stsd);
}

pub proof fn lemma_tkhd_is_box(raw: Option<Seq<u8>>, fallback: int, audio: bool, duration: int)
    ensures
        exists|x: Seq<u8>|
            tkhd_bytes(raw, fallback, audio, duration) == #[trigger] box_bytes(TKHD@, x),
{
    match raw {
        Some(b) => {
            let body = if crate::transplant::tkhd_is_wide(b) && b.len() >= 36 {
                crate::bytes::overwritten(b, 28, be64_bytes(duration))
            } else if !crate::transplant::tkhd_is_wide(b) && b.len() >= 24 {
                crate::bytes::overwritten(b, 20, be32_bytes(crate::transplant::capped32(duration)))
            } else {
                b
            };
            assert(tkhd_bytes(raw, fallback, audio, duration) == box_bytes(TKHD@, body));
        },
        None => {
            let body = zeros(8) + be32_bytes(fallback) + zeros(4) + be32_bytes(
                crate::transplant::capped32(duration),
            ) + zeros(12) + (if audio {
                seq![1u8, 0u8]
            } else {
                seq![0u8, 0u8]
            }) + zeros(2) + crate::transplant::matrix_bytes() + zeros(8);
            assert(tkhd_bytes(raw, fallback, audio, duration) == box_bytes(
                TKHD@,
                seq![0u8] + be24_bytes(3) + body,
            ));
        },
    }
}

pub proof fn lemma_box_len(fourcc: Seq<u8>, body: Seq<u8>)
    requires
        fourcc.len() == 4,
    ensures
        box_bytes(fourcc, body).len() == box_len(body),
{
    assert(be32_bytes(box_len(body)).len() == 4);
}

/// A trak box is found, and what it says is what its sample table says.
#[verifier::spinoff_prover]
#[verifier::rlimit(40)]
proof fn lemma_trak_read(
    d: Seq<u8>,
    pos: int,
    timescale: u32,
    ticks: int,
    handler: Seq<u8>,
    hname: Seq<u8>,
    hbody: Seq<u8>,
    tkbody: Seq<u8>,
    stbl: Seq<u8>,
    trak: Seq<u8>,
    s: SampleTable,
)
    requires
        trak == trak_bytes(
            box_bytes(TKHD@, tkbody),
            mdhd_bytes(timescale, ticks),
            handler,
            box_bytes(hname, hbody),
            stbl,
        ),
        handler.len() == 4,
        hname.len() == 4,
        hname != STBL@,
        stands_at(d, pos, trak),
        trak.len() <= u32::MAX,
    ensures
        box_at(d, pos, d.len() as int) == Some(
            BoxSpan { fourcc: TRAK@, body_start: pos + 8, body_end: pos + trak.len() },
        ),
        stands_at(d, pos + trak.len() - stbl.len(), stbl),
        stbl.len() <= trak.len(),
        sample_table(d, pos + trak.len() - stbl.len(), pos + trak.len()) == Some(
            Ok::<SampleTable, TrackError>(s),
        ) ==> track_table(d, pos + 8, pos + trak.len()) == Some(
            Ok::<TrackTable, TrackError>(
                TrackTable {
                    handler: utf8_lossy(handler),
                    codec: s.codec,
                    timescale,
                    sample_count: s.sizes.len() as int,
                    sizes: s.sizes,
                    chunk_offsets: s.chunk_offsets,
                    stsc: s.stsc,
                    sync_samples: s.sync_samples,
                    stts: s.stts,
                },
            ),
        ),
{
    let tk = box_bytes(TKHD@, tkbody);
    let mh = mdhd_bytes(timescale, ticks);
    let hd = hdlr_bytes(handler);
    let vm = box_bytes(hname, hbody);
    let di = dinf_bytes();
    let st = box_bytes(STBL@, stbl);
    let minf = vm + di + st;
    let mi = box_bytes(MINF@, minf);
    let mdia = mh + hd + mi;
    let md = box_bytes(MDIA@, mdia);
    let body = tk + md;
    let n = d.len() as int;
    lemma_names_differ();
    lemma_box_len(TRAK@, body);
    lemma_box_len(MDIA@, mdia);
    lemma_box_len(MINF@, minf);
    lemma_box_len(STBL@, stbl);
    lemma_box_len(TKHD@, tkbody);
    lemma_box_len(hname, hbody);
    // trak
    lemma_box_read(d, pos, n, TRAK@, body);
    let (b1, e1) = (pos + 8, pos + box_len(body));
    lemma_stands_split(d, b1, tk, md);
    lemma_box_read(d, b1, e1, TKHD@, tkbody);
    let p_mdia = b1 + tk.len();
    lemma_box_read(d, p_mdia, e1, MDIA@, mdia);
    lemma_pass(
        d,
        b1,
        e1,
        BoxSpan { fourcc: TKHD@, body_start: b1 + 8, body_end: p_mdia },
        MDIA@,
    );
    assert(first_box(d, b1, e1, MDIA@) == Some(
        BoxSpan { fourcc: MDIA@, body_start: p_mdia + 8, body_end: e1 },
    ));
    // mdia
    let b2 = p_mdia + 8;
    lemma_stands_split(d, b2, mh + hd, mi);
    lemma_stands_split(d, b2, mh, hd);
    lemma_mdia_read(d, b2, e1, timescale, ticks, handler, minf);
    // minf
    let p_minf = b2 + mh.len() + hd.len();
    let b3 = p_minf + 8;
    lemma_box_read(d, p_minf, e1, MINF@, minf);
    lemma_stands_split(d, b3, vm + di, st);
    lemma_stands_split(d, b3, vm, di);
    lemma_minf_read(d, b3, e1, hname, hbody, stbl);
    // stbl
    let p_stbl = b3 + vm.len() + di.len();
    lemma_box_read(d, p_stbl, e1, STBL@, stbl);
}

/// The mdia payload: mdhd, hdlr, minf.
proof fn lemma_mdia_read(
    d: Seq<u8>,
    b: int,
    e: int,
    timescale: u32,
    ticks: int,
    handler: Seq<u8>,
    minf: Seq<u8>,
)
    requires
        handler.len() == 4,
        ({
            let mh = mdhd_bytes(timescale, ticks);
            let hd = hdlr_bytes(handler);
            &&& stands_at(d, b, mh)
            &&& stands_at(d, b + mh.len(), hd)
            &&& stands_at(d, b + mh.len() + hd.len(), box_bytes(MINF@, minf))
            &&& e == b + mh.len() + hd.len() + box_len(minf)
            &&& e <= d.len()
            &&& e - b <= u32::MAX
        }),
    ensures
        first_box(d, b, e, MDHD@) matches Some(x) && timescale_at(d, x.body_start) == Some(
            timescale as int,
        ),
        first_box(d, b, e, HDLR@) matches Some(x) && x.body_start + 12 <= d.len() && d.subrange(
            x.body_start + 8,
            x.body_start + 12,
        ) == handler,
        first_box(d, b, e, MINF@) == Some(
            BoxSpan {
                fourcc: MINF@,
                body_start: b + mdhd_bytes(timescale, ticks).len() + hdlr_bytes(handler).len() + 8,
                body_end: e,
            },
        ),
{
    lemma_names_differ();
    let mh = mdhd_bytes(timescale, ticks);
    let hd = hdlr_bytes(handler);
    let ts = be32_bytes(timescale as int);
    let rest = be32_bytes(crate::transplant::capped32(ticks)) + seq![0x55u8, 0xc4u8] + zeros(2);
    let mbody = zeros(8) + ts + be32_bytes(crate::transplant::capped32(ticks)) + seq![0x55u8, 0xc4u8]
        + zeros(2);
    let hbody = zeros(4) + handler + zeros(12) + HANDLER_NAME@;
    lemma_full_len(MDHD@, mbody);
    lemma_full_len(HDLR@, hbody);
    lemma_full_box_read(d, b, e, MDHD@, 0, mbody);
    assert(ts.len() == 4);
    assert(mbody =~= zeros(8) + ts + rest);
    lemma_stands_split(d, b + 12, zeros(8) + ts, rest);
    lemma_stands_split(d, b + 12, zeros(8), ts);
    lemma_word_read(d, b + 20, timescale as int);
    let p2 = b + mh.len();
    lemma_full_box_read(d, p2, e, HDLR@, 0, hbody);
    lemma_stands_split(d, p2 + 12, zeros(4) + handler + zeros(12), HANDLER_NAME@);
    lemma_stands_split(d, p2 + 12, zeros(4) + handler, zeros(12));
    lemma_stands_split(d, p2 + 12, zeros(4), handler);
    lemma_pass(d, b, e, BoxSpan { fourcc: MDHD@, body_start: b + 8, body_end: p2 }, HDLR@);
    lemma_pass(d, b, e, BoxSpan { fourcc: MDHD@, body_start: b + 8, body_end: p2 }, MINF@);
    let p3 = p2 + hd.len();
    lemma_pass(d, p2, e, BoxSpan { fourcc: HDLR@, body_start: p2 + 8, body_end: p3 }, MINF@);
    lemma_box_read(d, p3, e, MINF@, minf);
}

/// The minf payload: a media header, dinf, stbl.
proof fn lemma_minf_read(
    d: Seq<u8>,
    b: int,
    e: int,
    hname: Seq<u8>,
    hbody: Seq<u8>,
    stbl: Seq<u8>,
)
    requires
        hname.len() == 4,
        hname != STBL@,
        stands_at(d, b, box_bytes(hname, hbody)),
        stands_at(d, b + box_len(hbody), dinf_bytes()),
        stands_at(d, b + box_len(hbody) + dinf_bytes().len(), box_bytes(STBL@, stbl)),
        e == b + box_len(hbody) + dinf_bytes().len() + box_len(stbl),
        e <= d.len(),
        e - b <= u32::MAX,
    ensures
        first_box(d, b, e, STBL@) == Some(
            BoxSpan {
                fourcc: STBL@,
                body_start: b + box_len(hbody) + dinf_bytes().len() + 8,
                body_end: e,
            },
        ),
{
    lemma_names_differ();
    lemma_box_read(d, b, e, hname, hbody);
    let p2 = b + box_len(hbody);
    lemma_pass(d, b, e, BoxSpan { fourcc: hname, body_start: b + 8, body_end: p2 }, STBL@);
    let dref = full_box_bytes(
        crate::fourcc::DREF@,
        0,
        0,
        be32_bytes(1) + full_box_bytes(crate::fourcc::URL@, 0, 1, seq![]),
    );
    assert(dinf_bytes() == box_bytes(DINF@, dref));
    lemma_box_len(DINF@, dref);
    lemma_box_read(d, p2, e, DINF@, dref);
    let p3 = p2 + dinf_bytes().len();
    lemma_pass(d, p2, e, BoxSpan { fourcc: DINF@, body_start: p2 + 8, body_end: p3 }, STBL@);
    lemma_box_read(d, p3, e, STBL@, stbl);
}

/// The samples of a regrown index lie where they were recovered: the table's
/// locations are the samples' offsets, with the media at its base, and their sizes.
pub proof fn law_regrown_locations(dv: VideoOrgans, stsd: Seq<u8>, v: Seq<Unit>, base: int)
    requires
        describable(v, base),
    ensures
        locations(regrown_table(dv, stsd, v, base)) == v.map_values(
            |u: Unit| (base + u.off, u.size),
        ),
{
    let t = regrown_table(dv, stsd, v, base);
    lemma_locations_from(t, v, base, 0);
    assert(v.skip(0) =~= v);
}

proof fn lemma_locations_from(t: TrackTable, v: Seq<Unit>, base: int, c: int)
    requires
        describable(v, base),
        0 <= c <= v.len(),
        t.sizes == entries32(unit_sizes(v)),
        t.chunk_offsets == entries64(unit_offsets(v, base)),
        t.stsc == seq![(1u32, 1u32)],
    ensures
        locations_from(t, c, c) == v.skip(c).map_values(|u: Unit| (base + u.off, u.size)),
    decreases v.len() - c,
{
    let f = |u: Unit| (base + u.off, u.size);
    assert(t.sizes.len() == v.len());
    assert(t.chunk_offsets.len() == v.len());
    if c < v.len() {
        let stsc = t.stsc;
        assert(stsc[0] == (1u32, 1u32));
        assert(per_chunk_from(stsc, 1, 1, c + 1) == 1);
        assert(per_chunk(stsc, c + 1) == 1);
        let off = base + v[c].off;
        assert(t.chunk_offsets[c] == off);
        assert(t.sizes[c] == v[c].size);
        assert(run_locations(t.sizes, off + t.sizes[c], c + 1, 0) =~= Seq::<(int, int)>::empty());
        let one = run_locations(t.sizes, off, c, 1);
        assert(one =~= seq![(off, v[c].size)]);
        lemma_locations_from(t, v, base, c + 1);
        assert(next_sample(t.sizes, c, 1) == c + 1);
        let rest = v.skip(c + 1).map_values(f);
        assert(locations_from(t, c, c) == one + rest);
        assert(one + rest =~= v.skip(c).map_values(f));
    } else {
        assert(v.skip(c).map_values(f) =~= Seq::<(int, int)>::empty());
    }
}

// ---------------------------------------------------------------------------
// The audio track
// ---------------------------------------------------------------------------

/// Boxes one behind the other: each has its name and ends where the next begins.
spec fn box_row(d: Seq<u8>, e: int, p: Seq<int>, names: Seq<Seq<u8>>) -> bool {
    &&& p.len() == names.len() + 1
    &&& forall|j: int|
        0 <= j < names.len() ==> box_at(d, #[trigger] p[j], e) == Some(
            BoxSpan { fourcc: names[j], body_start: p[j] + 8, body_end: p[j + 1] },
        )
}

/// The search for a name passes over the boxes of other names.
proof fn lemma_row_pass(
    d: Seq<u8>,
    e: int,
    p: Seq<int>,
    names: Seq<Seq<u8>>,
    name: Seq<u8>,
    k: int,
)
    requires
        box_row(d, e, p, names),
        0 <= k <= names.len(),
        forall|j: int| 0 <= j < k ==> #[trigger] names[j] != name,
    ensures
        first_box(d, p[0], e, name) == first_box(d, p[k], e, name),
    decreases k,
{
    if k > 0 {
        lemma_row_pass(d, e, p, names, name, k - 1);
        let j = k - 1;
        assert(names[j] != name);
        let b = BoxSpan { fourcc: names[j], body_start: p[j] + 8, body_end: p[j + 1] };
        lemma_pass(d, p[j], e, b, name);
    }
}

/// Five boxes stand one behind the other, and their payloads where they belong.
proof fn lemma_five_boxes(
    d: Seq<u8>,
    b: int,
    e: int,
    n: Seq<Seq<u8>>,
    w: Seq<Seq<u8>>,
    p: Seq<int>,
)
    requires
        n.len() == 5,
        w.len() == 5,
        forall|j: int| 0 <= j < 5 ==> (#[trigger] n[j]).len() == 4,
        stands_at(
            d,
            b,
            box_bytes(n[0], w[0]) + box_bytes(n[1], w[1]) + box_bytes(n[2], w[2]) + box_bytes(
                n[3],
                w[3],
            ) + box_bytes(n[4], w[4]),
        ),
        p == seq![
            b,
            b + box_len(w[0]),
            b + box_len(w[0]) + box_len(w[1]),
            b + box_len(w[0]) + box_len(w[1]) + box_len(w[2]),
            b + box_len(w[0]) + box_len(w[1]) + box_len(w[2]) + box_len(w[3]),
            b + box_len(w[0]) + box_len(w[1]) + box_len(w[2]) + box_len(w[3]) + box_len(w[4]),
        ],
        e == p[5],
        0 <= b,
        e <= d.len(),
        e - b <= u32::MAX,
    ensures
        box_row(d, e, p, n),
        forall|j: int| 0 <= j < 5 ==> stands_at(d, p[j] + 8, #[trigger] w[j]),
{
    let x0 = box_bytes(n[0], w[0]);
    let x1 = box_bytes(n[1], w[1]);
    let x2 = box_bytes(n[2], w[2]);
    let x3 = box_bytes(n[3], w[3]);
    let x4 = box_bytes(n[4], w[4]);
    lemma_box_len(n[0], w[0]);
    lemma_box_len(n[1], w[1]);
    lemma_box_len(n[2], w[2]);
    lemma_box_len(n[3], w[3]);
    lemma_box_len(n[4], w[4]);
    lemma_five_stand(d, b, x0, x1, x2, x3, x4);
    lemma_box_read(d, p[0], e, n[0], w[0]);
    lemma_box_read(d, p[1], e, n[1], w[1]);
    lemma_box_read(d, p[2], e, n[2], w[2]);
    lemma_box_read(d, p[3], e, n[3], w[3]);
    lemma_box_read(d, p[4], e, n[4], w[4]);
}

proof fn lemma_five_stand(
    d: Seq<u8>,
    b: int,
    s0: Seq<u8>,
    s1: Seq<u8>,
    s2: Seq<u8>,
    s3: Seq<u8>,
    s4: Seq<u8>,
)
    requires
        stands_at(d, b, s0 + s1 + s2 + s3 + s4),
    ensures
        stands_at(d, b, s0),
        stands_at(d, b + s0.len(), s1),
        stands_at(d, b + s0.len() + s1.len(), s2),
        stands_at(d, b + s0.len() + s1.len() + s2.len(), s3),
        stands_at(d, b + s0.len() + s1.len() + s2.len() + s3.len(), s4),
{
    lemma_stands_split(d, b, s0 + s1 + s2 + s3, s4);
    lemma_stands_split(d, b, s0 + s1 + s2, s3);
    lemma_stands_split(d, b, s0 + s1, s2);
    lemma_stands_split(d, b, s0, s1);
}

/// Runs that an index can describe.
spec fn runs_fit(runs: Seq<(int, int)>) -> bool {
    &&& runs.len() <= u32::MAX
    &&& forall|i: int|
        0 <= i < runs.len() ==> 0 <= (#[trigger] runs[i]).0 <= u32::MAX && 0 <= runs[i].1
            <= u32::MAX
}

proof fn lemma_entries_len(runs: Seq<(int, int)>)
    ensures
        stsc_entries(runs).len() == 12 * runs.len(),
    decreases runs.len(),
{
    if runs.len() > 0 {
        lemma_entries_len(runs.drop_last());
        assert(be32_bytes(runs.last().0).len() == 4 && be32_bytes(runs.last().1).len() == 4
            && be32_bytes(1).len() == 4);
    }
}

proof fn lemma_entry_read(d: Seq<u8>, base: int, runs: Seq<(int, int)>, i: int)
    requires
        stands_at(d, base, stsc_entries(runs)),
        runs_fit(runs),
        0 <= i < runs.len(),
    ensures
        be32_at(d, base + 12 * i) == runs[i].0,
        be32_at(d, base + 12 * i + 4) == runs[i].1,
    decreases runs.len(),
{
    let head = runs.drop_last();
    let x = be32_bytes(runs.last().0);
    let y = be32_bytes(runs.last().1);
    let z = be32_bytes(1);
    assert(x.len() == 4 && y.len() == 4 && z.len() == 4);
    lemma_entries_len(head);
    assert(runs.last() == runs[runs.len() - 1]);
    lemma_stands_split(d, base, stsc_entries(head) + x + y, z);
    lemma_stands_split(d, base, stsc_entries(head) + x, y);
    lemma_stands_split(d, base, stsc_entries(head), x);
    if i == runs.len() - 1 {
        lemma_word_read(d, base + 12 * i, runs.last().0);
        lemma_word_read(d, base + 12 * i + 4, runs.last().1);
    } else {
        assert forall|j: int| 0 <= j < head.len() implies 0 <= (#[trigger] head[j]).0 <= u32::MAX && 0
            <= head[j].1 <= u32::MAX by {
            assert(head[j] == runs[j]);
        }
        lemma_entry_read(d, base, head, i);
        assert(head[i] == runs[i]);
    }
}

/// Pairs as 32-bit entries.
pub open spec fn entry_pairs(v: Seq<(int, int)>) -> Seq<(u32, u32)> {
    v.map_values(|r: (int, int)| (r.0 as u32, r.1 as u32))
}

proof fn lemma_runs_read(d: Seq<u8>, b: int, runs: Seq<(int, int)>)
    requires
        stands_at(d, b + 4, be32_bytes(runs.len() as int) + stsc_entries(runs)),
        runs_fit(runs),
        0 <= b,
    ensures
        counted_pairs(d, b, 12) == Some(entry_pairs(runs)),
{
    let n = runs.len() as int;
    let head = be32_bytes(n);
    assert(head.len() == 4);
    lemma_stands_split(d, b + 4, head, stsc_entries(runs));
    lemma_word_read(d, b + 4, n);
    lemma_entries_len(runs);
    let got = pairs_at(d, b + 8, 12, n);
    assert(got is Some);
    let want = entry_pairs(runs);
    assert forall|i: int| 0 <= i < n implies got.unwrap()[i] == want[i] by {
        lemma_entry_read(d, b + 8, runs, i);
    }
    assert(got.unwrap() =~= want);
}

proof fn lemma_chunk_runs_fit(chunks: Seq<(int, int)>)
    requires
        chunks.len() <= u32::MAX,
        forall|i: int| 0 <= i < chunks.len() ==> 0 <= (#[trigger] chunks[i]).1 <= u32::MAX,
    ensures
        runs_fit(chunk_runs(chunks)),
        chunk_runs(chunks).len() <= chunks.len(),
    decreases chunks.len(),
{
    if chunks.len() > 0 {
        let head = chunks.drop_last();
        assert forall|i: int| 0 <= i < head.len() implies 0 <= (#[trigger] head[i]).1 <= u32::MAX by {
            assert(head[i] == chunks[i]);
        }
        lemma_chunk_runs_fit(head);
        assert(chunks.last() == chunks[chunks.len() - 1]);
        let before = chunk_runs(head);
        let runs = chunk_runs(chunks);
        assert forall|i: int| 0 <= i < runs.len() implies 0 <= (#[trigger] runs[i]).0 <= u32::MAX && 0
            <= runs[i].1 <= u32::MAX by {
            if i < before.len() {
                assert(runs[i] == before[i]);
            }
        }
    }
}

/// Audio chunks that an index can describe.
pub open spec fn audible(chunks: Seq<(int, int)>, base: int) -> bool {
    &&& chunks.len() <= u32::MAX
    &&& 0 <= sample_total(chunks)
    &&& forall|i: int|
        0 <= i < chunks.len() ==> 0 <= (#[trigger] chunks[i]).1 <= u32::MAX && 0 <= base + chunks[i].0
            <= u64::MAX
}

/// What the sample table of constant-size audio says.
pub open spec fn audio_table(
    stsd: Seq<u8>,
    chunks: Seq<(int, int)>,
    delta: u32,
    css: u32,
    base: int,
) -> SampleTable {
    let total = capped32(sample_total(chunks));
    SampleTable {
        codec: codec_at(stsd, 0, stsd.len() as int),
        sizes: Seq::new(total as nat, |i: int| css),
        chunk_offsets: entries64(chunk_starts(chunks, base)),
        stsc: entry_pairs(chunk_runs(chunks)),
        sync_samples: None,
        stts: seq![(total as u32, delta)],
    }
}

/// The name of the box of chunk offsets.
spec fn offsets_name(offsets: Seq<int>) -> Seq<u8> {
    if fits32(offsets) {
        STCO@
    } else {
        CO64@
    }
}

/// What stands behind version and flags in it.
spec fn offsets_body(offsets: Seq<int>) -> Seq<u8> {
    if fits32(offsets) {
        be32_bytes(offsets.len() as int) + words(offsets)
    } else {
        be32_bytes(offsets.len() as int) + longs(offsets)
    }
}

/// A payload behind version and flags of zero.
spec fn plain(body: Seq<u8>) -> Seq<u8> {
    seq![0u8] + be24_bytes(0) + body
}

spec fn audio_names(offsets: Seq<int>) -> Seq<Seq<u8>> {
    seq![STSD@, STTS@, STSC@, STSZ@, offsets_name(offsets)]
}

spec fn audio_payloads(
    stsd: Seq<u8>,
    chunks: Seq<(int, int)>,
    delta: u32,
    css: u32,
    base: int,
) -> Seq<Seq<u8>> {
    let total = capped32(sample_total(chunks));
    let runs = chunk_runs(chunks);
    seq![
        stsd,
        plain(be32_bytes(1) + be32_bytes(total) + be32_bytes(delta as int)),
        plain(be32_bytes(runs.len() as int) + stsc_entries(runs)),
        plain(be32_bytes(css as int) + be32_bytes(total)),
        plain(offsets_body(chunk_starts(chunks, base))),
    ]
}

proof fn lemma_audio_stbl_shape(
    da: AudioOrgans,
    css: u32,
    chunks: Seq<(int, int)>,
    base: int,
    stsd: Seq<u8>,
)
    requires
        da.stsd == box_bytes(STSD@, stsd),
        audible(chunks, base),
    ensures
        ({
            let n = audio_names(chunk_starts(chunks, base));
            let w = audio_payloads(stsd, chunks, da.sample_delta, css, base);
            audio_stbl_bytes(da, css, chunks, base) == box_bytes(n[0], w[0]) + box_bytes(n[1], w[1])
                + box_bytes(n[2], w[2]) + box_bytes(n[3], w[3]) + box_bytes(n[4], w[4])
        }),
{
    let offsets = chunk_starts(chunks, base);
    let low = forall|i: int| 0 <= i < offsets.len() ==> #[trigger] offsets[i] <= u32::MAX;
    assert(low == fits32(offsets)) by {
        if low {
            assert forall|i: int| 0 <= i < offsets.len() implies 0 <= #[trigger] offsets[i]
                <= u32::MAX by {
                assert(offsets[i] == base + chunks[i].0);
            }
        }
    }
    assert(chunk_offset_bytes(offsets) == box_bytes(
        offsets_name(offsets),
        plain(offsets_body(offsets)),
    ));
}

/// What stands behind version and flags.
proof fn lemma_plain_stands(d: Seq<u8>, p: int, body: Seq<u8>)
    requires
        stands_at(d, p, plain(body)),
    ensures
        stands_at(d, p + 4, body),
{
    assert(be24_bytes(0).len() == 3);
    lemma_stands_split(d, p, seq![0u8] + be24_bytes(0), body);
}

/// The sample table of constant-size audio says what the chunks are.
#[verifier::spinoff_prover]
#[verifier::rlimit(40)]
proof fn lemma_audio_table(
    d: Seq<u8>,
    b: int,
    e: int,
    da: AudioOrgans,
    css: u32,
    chunks: Seq<(int, int)>,
    base: int,
    stsd: Seq<u8>,
)
    requires
        stands_at(d, b, audio_stbl_bytes(da, css, chunks, base)),
        e == b + audio_stbl_bytes(da, css, chunks, base).len(),
        0 <= b,
        e <= d.len(),
        e - b <= u32::MAX,
        da.stsd == box_bytes(STSD@, stsd),
        audible(chunks, base),
        css > 0,
    ensures
        sample_table(d, b, e) == Some(
            Ok::<SampleTable, TrackError>(audio_table(stsd, chunks, da.sample_delta, css, base)),
        ),
{
    let offsets = chunk_starts(chunks, base);
    let n = audio_names(offsets);
    let w = audio_payloads(stsd, chunks, da.sample_delta, css, base);
    let p = seq![
        b,
        b + box_len(w[0]),
        b + box_len(w[0]) + box_len(w[1]),
        b + box_len(w[0]) + box_len(w[1]) + box_len(w[2]),
        b + box_len(w[0]) + box_len(w[1]) + box_len(w[2]) + box_len(w[3]),
        b + box_len(w[0]) + box_len(w[1]) + box_len(w[2]) + box_len(w[3]) + box_len(w[4]),
    ];
    lemma_audio_stbl_shape(da, css, chunks, base, stsd);
    lemma_box_len(n[0], w[0]);
    lemma_box_len(n[1], w[1]);
    lemma_box_len(n[2], w[2]);
    lemma_box_len(n[3], w[3]);
    lemma_box_len(n[4], w[4]);
    lemma_five_boxes(d, b, e, n, w, p);
    lemma_names_differ();
    lemma_audio_stsd(d, e, p, n, stsd);
    lemma_audio_stts(d, e, p, n, chunks, da.sample_delta);
    lemma_audio_stsc(d, e, p, n, chunks);
    lemma_audio_stsz(d, e, p, n, chunks, css);
    lemma_audio_offsets(d, e, p, n, chunks, base);
    lemma_row_pass(d, e, p, n, STSS@, 5);
    assert(first_box(d, e, e, STSS@) is None);
}

proof fn lemma_audio_stsd(d: Seq<u8>, e: int, p: Seq<int>, n: Seq<Seq<u8>>, stsd: Seq<u8>)
    requires
        box_row(d, e, p, n),
        n.len() == 5,
        n[0] == STSD@,
        p[1] == p[0] + box_len(stsd),
        0 <= p[0],
        p[1] <= d.len(),
        stands_at(d, p[0] + 8, stsd),
    ensures
        first_box(d, p[0], e, STSD@) matches Some(x) && codec_at(d, x.body_start, x.body_end)
            == codec_at(stsd, 0, stsd.len() as int),
{
    let q = p[0] + 8;
    assert(box_at(d, p[0], e) is Some);
    if stsd.len() >= 16 {
        let got = d.subrange(q + 12, q + 16);
        assert forall|i: int| 0 <= i < 4 implies got[i] == stsd.subrange(12, 16)[i] by {
            assert(d.subrange(q, q + stsd.len())[12 + i] == stsd[12 + i]);
        }
        assert(got =~= stsd.subrange(12, 16));
    }
}

proof fn lemma_audio_stts(
    d: Seq<u8>,
    e: int,
    p: Seq<int>,
    n: Seq<Seq<u8>>,
    chunks: Seq<(int, int)>,
    delta: u32,
)
    requires
        box_row(d, e, p, n),
        n.len() == 5,
        n[0] == STSD@,
        n[1] == STTS@,
        0 <= sample_total(chunks),
        stands_at(
            d,
            p[1] + 8,
            plain(
                be32_bytes(1) + be32_bytes(capped32(sample_total(chunks))) + be32_bytes(
                    delta as int,
                ),
            ),
        ),
    ensures
        first_box(d, p[0], e, STTS@) matches Some(x) && counted_pairs(d, x.body_start, 8) == Some(
            seq![(capped32(sample_total(chunks)) as u32, delta)],
        ),
{
    let total = capped32(sample_total(chunks));
    let body = be32_bytes(1) + be32_bytes(total) + be32_bytes(delta as int);
    lemma_names_differ();
    lemma_row_pass(d, e, p, n, STTS@, 1);
    lemma_plain_stands(d, p[1] + 8, body);
    let none = Seq::<u8>::empty();
    assert(body + none =~= body);
    lemma_one_pair_read(d, p[1] + 8, total, delta as int, 8, none);
    assert(box_at(d, p[1], e) is Some);
}

proof fn lemma_audio_stsc(
    d: Seq<u8>,
    e: int,
    p: Seq<int>,
    n: Seq<Seq<u8>>,
    chunks: Seq<(int, int)>,
)
    requires
        box_row(d, e, p, n),
        n.len() == 5,
        n[0] == STSD@,
        n[1] == STTS@,
        n[2] == STSC@,
        0 <= p[2],
        chunks.len() <= u32::MAX,
        forall|i: int| 0 <= i < chunks.len() ==> 0 <= (#[trigger] chunks[i]).1 <= u32::MAX,
        stands_at(
            d,
            p[2] + 8,
            plain(be32_bytes(chunk_runs(chunks).len() as int) + stsc_entries(chunk_runs(chunks))),
        ),
    ensures
        first_box(d, p[0], e, STSC@) matches Some(x) && counted_pairs(d, x.body_start, 12) == Some(
            entry_pairs(chunk_runs(chunks)),
        ),
{
    let runs = chunk_runs(chunks);
    lemma_names_differ();
    lemma_row_pass(d, e, p, n, STSC@, 2);
    lemma_plain_stands(d, p[2] + 8, be32_bytes(runs.len() as int) + stsc_entries(runs));
    lemma_chunk_runs_fit(chunks);
    lemma_runs_read(d, p[2] + 8, runs);
    assert(box_at(d, p[2], e) is Some);
}

proof fn lemma_audio_stsz(
    d: Seq<u8>,
    e: int,
    p: Seq<int>,
    n: Seq<Seq<u8>>,
    chunks: Seq<(int, int)>,
    css: u32,
)
    requires
        box_row(d, e, p, n),
        n.len() == 5,
        n[0] == STSD@,
        n[1] == STTS@,
        n[2] == STSC@,
        n[3] == STSZ@,
        0 <= sample_total(chunks),
        css > 0,
        stands_at(
            d,
            p[3] + 8,
            plain(be32_bytes(css as int) + be32_bytes(capped32(sample_total(chunks)))),
        ),
    ensures
        first_box(d, p[0], e, STSZ@) matches Some(x) && sizes_at(d, x.body_start) == Some(
            Seq::new(capped32(sample_total(chunks)) as nat, |i: int| css),
        ),
{
    let total = capped32(sample_total(chunks));
    let a = be32_bytes(css as int);
    assert(a.len() == 4);
    lemma_names_differ();
    lemma_row_pass(d, e, p, n, STSZ@, 3);
    lemma_plain_stands(d, p[3] + 8, a + be32_bytes(total));
    lemma_stands_split(d, p[3] + 12, a, be32_bytes(total));
    lemma_word_read(d, p[3] + 12, css as int);
    lemma_word_read(d, p[3] + 16, total);
    assert(box_at(d, p[3], e) is Some);
    let got = Seq::new(total as nat, |i: int| (css as int) as u32);
    assert(got =~= Seq::new(total as nat, |i: int| css));
}

proof fn lemma_audio_offsets(
    d: Seq<u8>,
    e: int,
    p: Seq<int>,
    n: Seq<Seq<u8>>,
    chunks: Seq<(int, int)>,
    base: int,
)
    requires
        box_row(d, e, p, n),
        n == audio_names(chunk_starts(chunks, base)),
        p[5] == e,
        audible(chunks, base),
        stands_at(d, p[4] + 8, plain(offsets_body(chunk_starts(chunks, base)))),
    ensures
        chunk_offsets_in(d, p[0], e) == Some(Some(entries64(chunk_starts(chunks, base)))),
{
    let offsets = chunk_starts(chunks, base);
    lemma_names_differ();
    assert(offsets.len() == chunks.len());
    lemma_plain_stands(d, p[4] + 8, offsets_body(offsets));
    assert(box_at(d, p[4], e) is Some);
    if fits32(offsets) {
        lemma_row_pass(d, e, p, n, STCO@, 4);
        lemma_counted_words_read(d, p[4] + 8, offsets);
        assert(widened(entries32(offsets)) =~= entries64(offsets)) by {
            assert forall|i: int| 0 <= i < offsets.len() implies widened(entries32(offsets))[i]
                == entries64(offsets)[i] by {
                assert(0 <= offsets[i] <= u32::MAX);
            }
        }
    } else {
        lemma_row_pass(d, e, p, n, STCO@, 5);
        assert(first_box(d, e, e, STCO@) is None);
        lemma_row_pass(d, e, p, n, CO64@, 4);
        assert forall|i: int| 0 <= i < offsets.len() implies 0 <= #[trigger] offsets[i] <= u64::MAX by {
            assert(offsets[i] == base + chunks[i].0);
        }
        lemma_counted_longs_read(d, p[4] + 8, offsets);
    }
}

/// What the audio track of a regrown index says.
pub open spec fn regrown_audio(
    da: AudioOrgans,
    stsd: Seq<u8>,
    chunks: Seq<(int, int)>,
    css: u32,
    base: int,
) -> TrackTable {
    let s = audio_table(stsd, chunks, da.sample_delta, css, base);
    TrackTable {
        handler: utf8_lossy(SOUN@),
        codec: s.codec,
        timescale: da.timescale,
        sample_count: s.sizes.len() as int,
        sizes: s.sizes,
        chunk_offsets: s.chunk_offsets,
        stsc: s.stsc,
        sync_samples: s.sync_samples,
        stts: s.stts,
    }
}

/// A regrown audio track reads back: wherever its trak box stands, it is found as a box,
/// it is a track, and its tables are the chunks: one size for all samples, the chunks'
/// offsets with the media at its base, and how many samples each holds.
pub proof fn law_regrown_audio_reads_back(
    d: Seq<u8>,
    pos: int,
    media: Seq<u8>,
    chunks: Seq<(int, int)>,
    da: AudioOrgans,
    css: u32,
    fallback: int,
    stsd: Seq<u8>,
)
    requires
        0 <= pos,
        stands_at(d, pos, audio_trak(media, chunks, da, css, fallback)),
        audio_trak(media, chunks, da, css, fallback).len() <= u32::MAX,
        da.stsd == box_bytes(STSD@, stsd),
        audible(chunks, media_base(media)),
        css > 0,
    ensures
        box_at(d, pos, d.len() as int) matches Some(b) && b.fourcc == TRAK@ && b.body_end == pos
            + audio_trak(media, chunks, da, css, fallback).len() && track_table(
            d,
            b.body_start,
            b.body_end,
        ) == Some(
            Ok::<TrackTable, TrackError>(regrown_audio(da, stsd, chunks, css, media_base(media))),
        ),
{
    let ticks = sample_total(chunks) * da.sample_delta;
    let base = media_base(media);
    let ms = ticks_to_ms(ticks, da.timescale);
    let tk = tkhd_bytes(da.tkhd, fallback, true, ms);
    let stbl = audio_stbl_bytes(da, css, chunks, base);
    let trak = audio_trak(media, chunks, da, css, fallback);
    lemma_tkhd_is_box(da.tkhd, fallback, true, ms);
    let tkbody = choose|x: Seq<u8>| tk == #[trigger] box_bytes(TKHD@, x);
    let s = audio_table(stsd, chunks, da.sample_delta, css, base);
    let hbody = seq![0u8] + be24_bytes(0) + zeros(4);
    assert(SMHD@ != STBL@) by {
        assert(SMHD@[1] == 0x6d && STBL@[1] == 0x74);
    }
    lemma_trak_read(d, pos, da.timescale, ticks, SOUN@, SMHD@, hbody, tkbody, stbl, trak, s);
    let e = pos + trak.len();
    let b = e - stbl.len();
    lemma_audio_table(d, b, e, da, css, chunks, base, stsd);
}

// ---------------------------------------------------------------------------
// The file
// ---------------------------------------------------------------------------

/// The media is carried over verbatim: any stretch of it stands in the new file at
/// its offset behind the media's base.
pub proof fn law_media_is_verbatim(media: Seq<u8>, t: Tracks, off: int, size: int)
    requires
        0 <= off,
        0 <= size,
        off + size <= media.len(),
    ensures
        file_bytes(media, t).subrange(
            media_base(media) + off,
            media_base(media) + off + size,
        ) == media.subrange(off, off + size),
{
    let out = file_bytes(media, t);
    lemma_front(media);
    let head = ftyp_box() + mdat_head(media);
    let moov = box_bytes(MOOV@, mvhd_bytes(1000, t.duration_ms, t.max_id + 1) + t.bytes);
    assert(out =~= head + media + moov);
    assert(out.subrange(head.len() + off, head.len() + off + size) =~= media.subrange(off, off + size));
}

/// The header of the mdat box.
spec fn mdat_head(media: Seq<u8>) -> Seq<u8> {
    if needs_wide_mdat(media) {
        be32_bytes(1) + MDAT@ + be64_bytes(media.len() as int + 16)
    } else {
        be32_bytes(media.len() as int + 8) + MDAT@
    }
}

proof fn lemma_front(media: Seq<u8>)
    ensures
        ftyp_box().len() == 20,
        mdat_bytes(media) == mdat_head(media) + media,
        (ftyp_box() + mdat_head(media)).len() == media_base(media),
{
    crate::mp4::law_prefix_length(28);
    assert(be32_bytes(20).len() == 4 && be32_bytes(0x200).len() == 4);
    assert(be32_bytes(1).len() == 4 && be32_bytes(media.len() as int + 8).len() == 4);
    assert(be64_bytes(media.len() as int + 16).len() == 8);
    assert(mdat_bytes(media) =~= mdat_head(media) + media);
}

/// The new file is whole: its boxes walk cleanly from the first byte to the last, a
/// moov among them.
pub proof fn law_new_file_walks_clean(media: Seq<u8>, t: Tracks)
    requires
        mvhd_bytes(1000, t.duration_ms, t.max_id + 1).len() + t.bytes.len() + 8 <= u32::MAX,
        media.len() + 16 <= u64::MAX,
    ensures
        walks_clean(file_bytes(media, t)),
{
    let d = file_bytes(media, t);
    let n = d.len() as int;
    let body = mvhd_bytes(1000, t.duration_ms, t.max_id + 1) + t.bytes;
    let moov = box_bytes(MOOV@, body);
    lemma_front(media);
    lemma_box_len(MOOV@, body);
    let p2 = 20 + mdat_bytes(media).len() as int;
    assert(d.subrange(0, n) =~= d);
    assert(stands_at(d, 0, ftyp_box() + mdat_bytes(media) + moov));
    lemma_stands_split(d, 0, ftyp_box() + mdat_bytes(media), moov);
    lemma_stands_split(d, 0, ftyp_box(), mdat_bytes(media));
    // ftyp
    let fbody = ISOM@ + be32_bytes(0x200) + ISOM@;
    assert(be32_bytes(0x200).len() == 4);
    assert(ftyp_box() =~= box_bytes(FTYP@, fbody));
    lemma_box_read(d, 0, n, FTYP@, fbody);
    // mdat
    lemma_stands_split(d, 20, mdat_head(media), media);
    lemma_mdat_read(d, 20, n, media);
    // moov
    lemma_box_read(d, p2, n, MOOV@, body);
    assert(FTYP@[0] == 0x66 && MDAT@[0] == 0x6d && MDAT@[1] == 0x64 && MOOV@[0] == 0x6d && MOOV@[1]
        == 0x6f);
    assert(walk_end(d, n, n) == n);
    assert(walk_end(d, p2, n) == n);
    assert(walk_end(d, 20, n) == n);
    assert(first_box(d, p2, n, MOOV@) is Some);
    assert(first_box(d, 20, n, MOOV@) is Some);
}

proof fn lemma_mdat_read(d: Seq<u8>, pos: int, end: int, media: Seq<u8>)
    requires
        stands_at(d, pos, mdat_head(media)),
        0 <= pos,
        pos + mdat_head(media).len() + media.len() <= end <= d.len(),
        media.len() + 16 <= u64::MAX,
    ensures
        box_at(d, pos, end) matches Some(b) && b.fourcc == MDAT@ && b.body_start == pos
            + mdat_head(media).len() && b.body_end == b.body_start + media.len(),
{
    let len = media.len() as int;
    if needs_wide_mdat(media) {
        let w = be32_bytes(1);
        let l = be64_bytes(len + 16);
        assert(w.len() == 4 && l.len() == 8);
        lemma_stands_split(d, pos, w + MDAT@, l);
        lemma_stands_split(d, pos, w, MDAT@);
        lemma_word_read(d, pos, 1);
        lemma_long_read(d, pos + 8, len + 16);
        assert(d.subrange(pos + 4, pos + 8) =~= MDAT@);
    } else {
        let w = be32_bytes(len + 8);
        assert(w.len() == 4);
        lemma_stands_split(d, pos, w, MDAT@);
        lemma_word_read(d, pos, len + 8);
        assert(d.subrange(pos + 4, pos + 8) =~= MDAT@);
    }
}

// ---------------------------------------------------------------------------
// A transplant is intact
// ---------------------------------------------------------------------------

/// Whole length-prefixed NAL units fill the data from `p` to `end`.
pub open spec fn whole_nals(d: Seq<u8>, p: int, end: int) -> bool
    decreases
            (if p < end {
                end - p
            } else {
                0
            }),
{
    if p >= end {
        p == end
    } else {
        0 <= p && p + 5 <= d.len() && be32_at(d, p) > 0 && d[p + 4] < 128 && 1 <= d[p + 4] % 32 <= 23
            && whole_nals(d, p + 4 + be32_at(d, p), end)
    }
}

/// How many NAL units there are from `p` to `end`.
pub open spec fn nal_count(d: Seq<u8>, p: int, end: int) -> nat
    decreases
            (if p < end {
                end - p
            } else {
                0
            }),
{
    if p >= end || be32_at(d, p) <= 0 {
        0
    } else {
        1 + nal_count(d, p + 4 + be32_at(d, p), end)
    }
}

/// Each sample is made of whole NAL units.
pub open spec fn all_whole(d: Seq<u8>, v: Seq<Unit>) -> bool {
    forall|i: int|
        0 <= i < v.len() ==> 0 < (#[trigger] v[i]).size && whole_nals(
            d,
            v[i].off,
            v[i].off + v[i].size,
        )
}

proof fn lemma_whole_append(d: Seq<u8>, a: int, b: int)
    requires
        0 <= a <= b,
        whole_nals(d, a, b),
        b + 5 <= d.len(),
        be32_at(d, b) > 0,
        d[b + 4] < 128,
        1 <= d[b + 4] % 32 <= 23,
    ensures
        whole_nals(d, a, b + 4 + be32_at(d, b)),
    decreases b - a,
{
    if a < b {
        lemma_whole_bounded(d, a, b);
        lemma_whole_append(d, a + 4 + be32_at(d, a), b);
    } else {
        let e = b + 4 + be32_at(d, b);
        assert(whole_nals(d, e, e));
    }
}

proof fn lemma_whole_bounded(d: Seq<u8>, a: int, b: int)
    requires
        a < b,
        whole_nals(d, a, b),
    ensures
        a + 4 + be32_at(d, a) <= b,
{
    let next = a + 4 + be32_at(d, a);
    assert(whole_nals(d, next, b));
}

proof fn lemma_run_whole(
    d: Seq<u8>,
    max_len: int,
    pos: int,
    cur: int,
    has_slice: bool,
    idr: bool,
)
    requires
        0 <= cur <= pos <= d.len(),
        has_slice ==> cur < pos,
        whole_nals(d, cur, pos),
    ensures
        all_whole(d, run_from(d, max_len, pos, cur, has_slice, idr).samples),
    decreases d.len() - pos,
{
    let r = run_from(d, max_len, pos, cur, has_slice, idr);
    match nal_at(d, pos, max_len) {
        NalSpan::Valid { len, ty } => {
            let slice = ty == 1 || ty == 5;
            let new = has_slice && (if slice {
                starts_picture(d, pos)
            } else {
                6 <= ty <= 9
            });
            if new {
                let u = unit(cur, pos, idr);
                assert(whole_nals(d, pos, pos));
                lemma_whole_append(d, pos, pos);
                let rest = run_from(d, max_len, pos + 4 + len, pos, slice, ty == 5);
                lemma_run_whole(d, max_len, pos + 4 + len, pos, slice, ty == 5);
                assert(r.samples =~= seq![u] + rest.samples);
                assert forall|i: int| 0 <= i < r.samples.len() implies 0 < (#[trigger] r.samples[i]).size
                    && whole_nals(d, r.samples[i].off, r.samples[i].off + r.samples[i].size) by {
                    if i > 0 {
                        assert(r.samples[i] == rest.samples[i - 1]);
                    }
                }
            } else {
                lemma_whole_append(d, cur, pos);
                lemma_run_whole(
                    d,
                    max_len,
                    pos + 4 + len,
                    cur,
                    has_slice || slice,
                    idr || ty == 5,
                );
            }
        },
        _ => {},
    }
}

proof fn lemma_parts_whole(d: Seq<u8>, dv: VideoOrgans, pos: int, garbage: bool, prev: Option<int>)
    requires
        0 <= pos <= d.len(),
    ensures
        all_whole(d, parts_from(d, dv, pos, garbage, prev).video),
    decreases d.len() - pos,
{
    let p = parts_from(d, dv, pos, garbage, prev);
    if pos < d.len() {
        if let Some(q) = next_start(d, pos, dv, prev) {
            lemma_next_start(d, pos, dv, prev);
            lemma_run(d, longest_nal(dv), q, q, false, false);
            let run = run_at(d, q, dv);
            assert(whole_nals(d, q, q));
            lemma_run_whole(d, longest_nal(dv), q, q, false, false);
            let prev2 = match dv.sps {
                Some(sps) => sample_frame_num(d, run.samples.last(), sps),
                None => prev,
            };
            let rest = if run.torn {
                Parts { video: seq![], gaps: seq![], torn: d.len() - run.end }
            } else {
                parts_from(d, dv, run.end, false, prev2)
            };
            if !run.torn {
                lemma_parts_whole(d, dv, run.end, false, prev2);
            }
            assert(p.video == run.samples + rest.video);
            assert forall|i: int| 0 <= i < p.video.len() implies 0 < (#[trigger] p.video[i]).size
                && whole_nals(d, p.video[i].off, p.video[i].off + p.video[i].size) by {
                if i < run.samples.len() {
                    assert(p.video[i] == run.samples[i]);
                } else {
                    assert(p.video[i] == rest.video[i - run.samples.len()]);
                }
            }
        }
    }
}

/// Every recovered sample is made of whole NAL units.
pub proof fn law_samples_are_whole_nals(d: Seq<u8>, dv: VideoOrgans, head_torn: bool)
    ensures
        all_whole(d, parts_from(d, dv, 0, head_torn, None).video),
{
    lemma_parts_whole(d, dv, 0, head_torn, None);
}

proof fn lemma_whole_fills(d: Seq<u8>, pos: int, size: int, consumed: int, nals: nat)
    requires
        0 <= consumed <= size,
        whole_nals(d, pos + consumed, pos + size),
        nals + nal_count(d, pos + consumed, pos + size) <= 64,
    ensures
        nals_fill(d, pos, size, consumed, nals),
    decreases size - consumed,
{
    if consumed < size {
        let i = pos + consumed;
        lemma_whole_bounded(d, i, pos + size);
        lemma_whole_fills(d, pos, size, consumed + 4 + be32_at(d, i), nals + 1);
    }
}

/// A sample that stands in a file is made of whole NAL units there, too.
proof fn lemma_whole_moved(a: Seq<u8>, d: Seq<u8>, b: Seq<u8>, p: int, end: int)
    requires
        whole_nals(d, p, end),
    ensures
        whole_nals(a + d + b, a.len() + p, a.len() + end),
        nal_count(a + d + b, a.len() + p, a.len() + end) == nal_count(d, p, end),
    decreases
            (if p < end {
                end - p
            } else {
                0
            }),
{
    let out = a + d + b;
    if p < end {
        assert(be32_at(out, a.len() + p) == be32_at(d, p));
        assert(out[a.len() + p + 4] == d[p + 4]);
        lemma_whole_moved(a, d, b, p + 4 + be32_at(d, p), end);
    }
}

/// Where every sample is made of whole NAL units, 64 at most, the index lines up.
proof fn lemma_all_vote(
    out: Seq<u8>,
    locs: Seq<(int, int)>,
    i: int,
    checks: nat,
    n: nat,
)
    requires
        0 <= i <= locs.len(),
        n > 0 || i < locs.len(),
        forall|j: int|
            0 <= j < locs.len() ==> 0 <= (#[trigger] locs[j]).0 && 0 < locs[j].1 && locs[j].0
                + locs[j].1 <= out.len() && whole_nals(out, locs[j].0, locs[j].0 + locs[j].1)
                && nal_count(out, locs[j].0, locs[j].0 + locs[j].1) <= 64,
    ensures
        vote(out, locs, i, 0, checks, n, n),
    decreases locs.len() - i,
{
    if i < locs.len() {
        let (off, size) = locs[i];
        lemma_whole_fills(out, off, size, 0, 0);
        lemma_whole_bounded(out, off, off + size);
        assert(!erased(out, off, size)) by {
            if erased(out, off, size) {
                assert(out[off] == 0 && out[off + 1] == 0 && out[off + 2] == 0 && out[off + 3] == 0);
            }
        }
        if n + 1 < checks {
            lemma_all_vote(out, locs, i + 1, checks, n + 1);
        }
    }
}

proof fn lemma_placed_head(s: Seq<Atom>, y: Atom)
    requires
        s.len() > 0,
        !less_likely(s[0], y),
    ensures
        atom_placed(s, y).len() > 0,
        atom_placed(s, y)[0] == s[0],
    decreases s.len(),
{
    if less_likely(s.last(), y) {
        lemma_placed_head(s.drop_last(), y);
    }
}

proof fn lemma_likeliest_head(s: Seq<Atom>)
    requires
        s.len() > 0,
        forall|j: int| 0 < j < s.len() ==> !less_likely(s[0], #[trigger] s[j]),
    ensures
        likeliest_first(s).len() > 0,
        likeliest_first(s)[0] == s[0],
    decreases s.len(),
{
    if s.len() == 1 {
        assert(s.drop_last() =~= Seq::<Atom>::empty());
        assert(likeliest_first(s.drop_last()) =~= Seq::<Atom>::empty());
    } else {
        let t = s.drop_last();
        assert forall|j: int| 0 < j < t.len() implies !less_likely(t[0], #[trigger] t[j]) by {
            assert(t[j] == s[j]);
        }
        lemma_likeliest_head(t);
        lemma_placed_head(likeliest_first(t), s.last());
    }
}

/// An atom that is all of the data comes before any atom in it.
proof fn lemma_named_head(m: Seq<u8>, x: Atom, n: int)
    requires
        atom_at(m, 0) == Some(x),
        x.fourcc == MOOV@,
        x.chains,
        x.size == m.len(),
        1 <= n,
    ensures
        ({
            let v = named(atoms_before(m, n), MOOV@);
            &&& v.len() > 0
            &&& v[0] == x
            &&& forall|j: int| 0 < j < v.len() ==> !less_likely(x, #[trigger] v[j])
        }),
    decreases n,
{
    let before = atoms_before(m, n - 1);
    if n == 1 {
        assert(before =~= Seq::<Atom>::empty());
        assert(before.push(x).drop_last() =~= before);
        assert(named(before, MOOV@) =~= Seq::<Atom>::empty());
    } else {
        lemma_named_head(m, x, n - 1);
        if let Some(a) = atom_at(m, n - 1) {
            assert(before.push(a).drop_last() =~= before);
            let old_list = named(before, MOOV@);
            let list = named(atoms_before(m, n), MOOV@);
            assert forall|j: int| 0 < j < list.len() implies !less_likely(x, #[trigger] list[j]) by {
                if j < old_list.len() {
                    assert(list[j] == old_list[j]);
                }
            }
        }
    }
}

/// What a file that is nothing but an index says: its tracks, if it has any.
proof fn lemma_bare_moov(body: Seq<u8>, tracks: Seq<TrackTable>)
    requires
        box_len(body) <= u32::MAX,
        tracks_from(box_bytes(MOOV@, body), 8, box_len(body)) == Some(tracks),
        tracks.len() > 0,
    ensures
        moov_table(box_bytes(MOOV@, body)) == Some(Some(MoovTable { tracks, offset: 0 })),
{
    let m = box_bytes(MOOV@, body);
    let n = m.len() as int;
    lemma_box_len(MOOV@, body);
    assert(m.subrange(0, n) =~= m);
    assert(stands_at(m, 0, m));
    lemma_box_read(m, 0, n, MOOV@, body);
    assert(m.subrange(4, 8) =~= MOOV@);
    assert(stands_at(m, 4, MOOV@));
    let x = Atom { offset: 0, size: n, fourcc: MOOV@, chains: true };
    lemma_stands_split(m, 0, be32_bytes(box_len(body)) + MOOV@, body);
    lemma_stands_split(m, 0, be32_bytes(box_len(body)), MOOV@);
    lemma_word_read(m, 0, box_len(body));
    assert(atom_at(m, 0) == Some(x));
    lemma_named_head(m, x, n);
    let v = named(atoms_before(m, n), MOOV@);
    lemma_likeliest_head(v);
    let l = likeliest_first(v);
    assert(first_moov(m, l, 0) == Some(Some(MoovTable { tracks, offset: 0 })));
}

/// The index of recovered samples lists their track first, and then what follows.
proof fn lemma_index_tracks(
    media: Seq<u8>,
    v: Seq<Unit>,
    dv: VideoOrgans,
    stsd: Seq<u8>,
    t: Tracks,
    rest: Seq<u8>,
    others: Seq<TrackTable>,
)
    requires
        t.bytes == video_trak(media, v, dv) + rest,
        mvhd_bytes(1000, t.duration_ms, t.max_id + 1).len() + t.bytes.len() + 8 <= u32::MAX,
        dv.stsd == box_bytes(STSD@, stsd),
        describable(v, media_base(media)),
        ({
            let mv = mvhd_bytes(1000, t.duration_ms, t.max_id + 1);
            let m = box_bytes(MOOV@, mv + t.bytes);
            tracks_from(
                m,
                (8 + mv.len() + video_trak(media, v, dv).len()) as int,
                box_len(mv + t.bytes),
            ) == Some(others)
        }),
    ensures
        ({
            let body = mvhd_bytes(1000, t.duration_ms, t.max_id + 1) + t.bytes;
            tracks_from(box_bytes(MOOV@, body), 8, box_len(body)) == Some(
                seq![regrown_table(dv, stsd, v, media_base(media))] + others,
            )
        }),
{
    let mv = mvhd_bytes(1000, t.duration_ms, t.max_id + 1);
    let body = mv + t.bytes;
    let m = box_bytes(MOOV@, body);
    let n = m.len() as int;
    let trak = video_trak(media, v, dv);
    let table = regrown_table(dv, stsd, v, media_base(media));
    lemma_box_len(MOOV@, body);
    lemma_moov_stands(body);
    lemma_stands_split(m, 8, mv, t.bytes);
    lemma_mvhd_read(m, 8, t.duration_ms, t.max_id + 1);
    let p = 8 + mv.len() as int;
    lemma_stands_split(m, p, trak, rest);
    law_regrown_index_reads_back(m, p, media, v, dv, stsd);
    lemma_two_steps(m, p, p + trak.len(), n, table, others);
}

/// An index alone, and its payload in it.
proof fn lemma_moov_stands(body: Seq<u8>)
    requires
        box_len(body) <= u32::MAX,
    ensures
        ({
            let m = box_bytes(MOOV@, body);
            &&& m.len() == box_len(body)
            &&& stands_at(m, 0, m)
            &&& stands_at(m, 8, body)
        }),
{
    let m = box_bytes(MOOV@, body);
    lemma_box_len(MOOV@, body);
    assert(m.subrange(0, m.len() as int) =~= m);
    lemma_box_read(m, 0, m.len() as int, MOOV@, body);
}

proof fn lemma_two_steps(
    m: Seq<u8>,
    p: int,
    q: int,
    n: int,
    table: TrackTable,
    others: Seq<TrackTable>,
)
    requires
        n <= m.len(),
        box_at(m, 8, n) matches Some(a) && a.fourcc != TRAK@ && a.body_end == p,
        box_at(m, p, n) matches Some(b) && b.fourcc == TRAK@ && b.body_end == q && track_table(
            m,
            b.body_start,
            b.body_end,
        ) == Some(Ok::<TrackTable, TrackError>(table)),
        tracks_from(m, q, n) == Some(others),
    ensures
        tracks_from(m, 8, n) == Some(seq![table] + others),
{
    lemma_tracks_step(m, 8, n);
    lemma_tracks_step(m, p, n);
}

/// A last track.
proof fn lemma_last_track(m: Seq<u8>, q: int, n: int, table: TrackTable)
    requires
        n <= m.len(),
        box_at(m, q, n) matches Some(b) && b.fourcc == TRAK@ && b.body_end == n && track_table(
            m,
            b.body_start,
            b.body_end,
        ) == Some(Ok::<TrackTable, TrackError>(table)),
    ensures
        tracks_from(m, q, n) == Some(seq![table]),
{
    lemma_tracks_step(m, q, n);
    lemma_tracks_step(m, n, n);
    assert(box_at(m, n, n) is None);
    assert(seq![table] + Seq::<TrackTable>::empty() =~= seq![table]);
}

proof fn lemma_mvhd_read(d: Seq<u8>, pos: int, duration: int, next_id: int)
    requires
        stands_at(d, pos, mvhd_bytes(1000, duration, next_id)),
        pos + mvhd_bytes(1000, duration, next_id).len() <= d.len(),
        mvhd_bytes(1000, duration, next_id).len() <= u32::MAX,
    ensures
        box_at(d, pos, d.len() as int) matches Some(b) && b.fourcc == MVHD@ && b.body_end == pos
            + mvhd_bytes(1000, duration, next_id).len(),
        MVHD@ != TRAK@,
{
    let x = mvhd_bytes(1000, duration, next_id);
    lemma_mvhd_is_box(duration, next_id);
    let body = choose|body: Seq<u8>| x == #[trigger] box_bytes(MVHD@, body);
    lemma_box_len(MVHD@, body);
    lemma_box_read(d, pos, d.len() as int, MVHD@, body);
    assert(MVHD@[0] == 0x6d && TRAK@[0] == 0x74);
}

proof fn lemma_mvhd_is_box(duration: int, next_id: int)
    ensures
        exists|body: Seq<u8>|
            mvhd_bytes(1000, duration, next_id) == #[trigger] box_bytes(MVHD@, body),
{
    let inner = zeros(8) + be32_bytes(1000) + be32_bytes(capped32(duration)) + be32_bytes(0x1_0000)
        + seq![1u8, 0u8] + zeros(10) + matrix_bytes() + zeros(24) + be32_bytes(next_id);
    assert(mvhd_bytes(1000, duration, next_id) == box_bytes(
        MVHD@,
        seq![0u8] + be24_bytes(0) + inner,
    ));
}

/// The samples of the index lie in the media.
proof fn lemma_media_covers(media: Seq<u8>, v: Seq<Unit>, t: Tracks)
    requires
        mvhd_bytes(1000, t.duration_ms, t.max_id + 1).len() + t.bytes.len() + 8 <= u32::MAX,
        media.len() + 16 <= u64::MAX,
        laid_out(v, 0, media.len() as int),
    ensures
        ({
            let out = file_bytes(media, t);
            let locs = v.map_values(|u: Unit| (media_base(media) + u.off, u.size));
            all_covered(locs, mdat_ranges(out, 0, out.len() as int))
        }),
{
    let d = file_bytes(media, t);
    let n = d.len() as int;
    let body = mvhd_bytes(1000, t.duration_ms, t.max_id + 1) + t.bytes;
    let moov = box_bytes(MOOV@, body);
    let locs = v.map_values(|u: Unit| (media_base(media) + u.off, u.size));
    lemma_front(media);
    lemma_box_len(MOOV@, body);
    assert(d.subrange(0, n) =~= d);
    assert(stands_at(d, 0, ftyp_box() + mdat_bytes(media) + moov));
    lemma_stands_split(d, 0, ftyp_box() + mdat_bytes(media), moov);
    lemma_stands_split(d, 0, ftyp_box(), mdat_bytes(media));
    let fbody = ISOM@ + be32_bytes(0x200) + ISOM@;
    assert(be32_bytes(0x200).len() == 4);
    assert(ftyp_box() =~= box_bytes(FTYP@, fbody));
    lemma_box_read(d, 0, n, FTYP@, fbody);
    lemma_stands_split(d, 20, mdat_head(media), media);
    lemma_mdat_read(d, 20, n, media);
    assert(FTYP@[0] == 0x66 && MDAT@[0] == 0x6d);
    let range = (media_base(media), media_base(media) + media.len() as int);
    let rest = mdat_ranges(d, range.1, n);
    assert(mdat_ranges(d, 20, n) == seq![range] + rest);
    assert(mdat_ranges(d, 0, n) == mdat_ranges(d, 20, n));
    let ranges = mdat_ranges(d, 0, n);
    assert forall|i: int| 0 <= i < locs.len() implies covered(#[trigger] locs[i], ranges) by {
        assert(locs[i] == (media_base(media) + v[i].off, v[i].size));
        assert(ranges[0] == range);
    }
}

/// A moved index agrees with the data.
proof fn lemma_file_lines_up(media: Seq<u8>, v: Seq<Unit>, t: Tracks)
    requires
        v.len() > 0,
        laid_out(v, 0, media.len() as int),
        all_whole(media, v),
        forall|i: int|
            0 <= i < v.len() ==> nal_count(
                media,
                (#[trigger] v[i]).off,
                v[i].off + v[i].size,
            ) <= 64,
    ensures
        lines_up(
            file_bytes(media, t),
            Some(v.map_values(|u: Unit| (media_base(media) + u.off, u.size))),
            0,
        ),
{
    let out = file_bytes(media, t);
    let locs = v.map_values(|u: Unit| (media_base(media) + u.off, u.size));
    lemma_front(media);
    let head = ftyp_box() + mdat_head(media);
    let moov = box_bytes(MOOV@, mvhd_bytes(1000, t.duration_ms, t.max_id + 1) + t.bytes);
    assert(out =~= head + media + moov);
    assert forall|j: int| 0 <= j < locs.len() implies 0 <= (#[trigger] locs[j]).0 && 0 < locs[j].1
        && locs[j].0 + locs[j].1 <= out.len() && whole_nals(
        out,
        locs[j].0,
        locs[j].0 + locs[j].1,
    ) && nal_count(out, locs[j].0, locs[j].0 + locs[j].1) <= 64 by {
        let u = v[j];
        assert(locs[j] == (media_base(media) + u.off, u.size));
        lemma_whole_moved(head, media, moov, u.off, u.off + u.size);
    }
    lemma_all_vote(out, locs, 0, 12, 0);
}

/// The index of the file made of recovered samples is found.
#[verifier::spinoff_prover]
proof fn lemma_graft_index(
    media: Seq<u8>,
    v: Seq<Unit>,
    dv: VideoOrgans,
    stsd: Seq<u8>,
    t: Tracks,
    rest: Seq<u8>,
    others: Seq<TrackTable>,
)
    requires
        t.bytes == video_trak(media, v, dv) + rest,
        mvhd_bytes(1000, t.duration_ms, t.max_id + 1).len() + t.bytes.len() + 8 <= u32::MAX,
        dv.stsd == box_bytes(STSD@, stsd),
        describable(v, media_base(media)),
        named(
            atoms_before(
                file_bytes(media, t),
                (ftyp_box() + mdat_bytes(media)).len() as int,
            ),
            MOOV@,
        ).len() == 0,
        ({
            let mv = mvhd_bytes(1000, t.duration_ms, t.max_id + 1);
            let m = box_bytes(MOOV@, mv + t.bytes);
            tracks_from(
                m,
                (8 + mv.len() + video_trak(media, v, dv).len()) as int,
                box_len(mv + t.bytes),
            ) == Some(others)
        }),
    ensures
        moov_table(file_bytes(media, t)) == Some(
            Some(
                MoovTable {
                    tracks: seq![regrown_table(dv, stsd, v, media_base(media))] + others,
                    offset: (ftyp_box() + mdat_bytes(media)).len() as int,
                },
            ),
        ),
{
    let body = mvhd_bytes(1000, t.duration_ms, t.max_id + 1) + t.bytes;
    let tracks = seq![regrown_table(dv, stsd, v, media_base(media))] + others;
    lemma_index_tracks(media, v, dv, stsd, t, rest, others);
    lemma_bare_moov(body, tracks);
    law_index_is_found_again(ftyp_box() + mdat_bytes(media), box_bytes(MOOV@, body));
}

proof fn lemma_locations_fit(v: Seq<Unit>, base: int, len: int)
    requires
        laid_out(v, 0, len),
        base + len <= u64::MAX,
    ensures
        ends_fit(v.map_values(|u: Unit| (base + u.off, u.size))),
{
    let locs = v.map_values(|u: Unit| (base + u.off, u.size));
    assert forall|i: int| 0 <= i < locs.len() implies (#[trigger] locs[i]).0 + locs[i].1
        <= u64::MAX by {
        assert(locs[i] == (base + v[i].off, v[i].size));
    }
}

/// The file made of recovered samples is one that the analysis finds nothing wrong with,
/// if its other tracks are read at all and do not pass for video.
#[verifier::spinoff_prover]
proof fn lemma_graft_is_intact(
    media: Seq<u8>,
    v: Seq<Unit>,
    dv: VideoOrgans,
    stsd: Seq<u8>,
    t: Tracks,
    rest: Seq<u8>,
    others: Seq<TrackTable>,
)
    requires
        v.len() > 0,
        laid_out(v, 0, media.len() as int),
        all_whole(media, v),
        forall|i: int|
            0 <= i < v.len() ==> nal_count(
                media,
                (#[trigger] v[i]).off,
                v[i].off + v[i].size,
            ) <= 64,
        t.bytes == video_trak(media, v, dv) + rest,
        mvhd_bytes(1000, t.duration_ms, t.max_id + 1).len() + t.bytes.len() + 8 <= u32::MAX,
        media.len() + 36 <= u64::MAX,
        dv.stsd == box_bytes(STSD@, stsd),
        describable(v, media_base(media)),
        named(
            atoms_before(
                file_bytes(media, t),
                (ftyp_box() + mdat_bytes(media)).len() as int,
            ),
            MOOV@,
        ).len() == 0,
        ({
            let mv = mvhd_bytes(1000, t.duration_ms, t.max_id + 1);
            let m = box_bytes(MOOV@, mv + t.bytes);
            tracks_from(
                m,
                (8 + mv.len() + video_trak(media, v, dv).len()) as int,
                box_len(mv + t.bytes),
            ) == Some(others)
        }),
        others.len() == 0 || utf8_lossy(VIDE@) == "vide"@,
    ensures
        diagnosis(file_bytes(media, t)) == Some(Diagnosis::Intact),
{
    let out = file_bytes(media, t);
    let table = regrown_table(dv, stsd, v, media_base(media));
    let m = MoovTable {
        tracks: seq![table] + others,
        offset: (ftyp_box() + mdat_bytes(media)).len() as int,
    };
    let locs = v.map_values(|u: Unit| (media_base(media) + u.off, u.size));
    lemma_graft_index(media, v, dv, stsd, t, rest, others);
    law_new_file_walks_clean(media, t);
    law_regrown_locations(dv, stsd, v, media_base(media));
    lemma_media_covers(media, v, t);
    lemma_file_lines_up(media, v, t);
    lemma_locations_fit(v, media_base(media), media.len() as int);
    lemma_intact_with(out, m, table, others, locs);
}

proof fn lemma_intact_with(
    out: Seq<u8>,
    m: MoovTable,
    table: TrackTable,
    others: Seq<TrackTable>,
    locs: Seq<(int, int)>,
)
    requires
        moov_table(out) == Some(Some(m)),
        m.tracks == seq![table] + others,
        others.len() == 0 || table_is_video(table),
        locations(table) == locs,
        ends_fit(locs),
        walks_clean(out),
        lines_up(out, Some(locs), 0),
        all_covered(locs, mdat_ranges(out, 0, out.len() as int)),
    ensures
        diagnosis(out) == Some(Diagnosis::Intact),
{
    reveal_with_fuel(first_video, 2);
    reveal_with_fuel(within_mdat, 2);
    assert(m.tracks[0] == table);
}

/// Everything about a graft stays within the 32-bit fields of an index, no sample has more
/// than 64 NAL units, and no moov begins in the media.
pub open spec fn graft_is_plain(media: Seq<u8>, q: Parts, o: Organs) -> bool {
    let t = with_audio(media, splittable(q.gaps, o), o, video_tracks(media, q.video, o));
    let v = q.video;
    &&& media.len() <= u32::MAX
    &&& mvhd_bytes(1000, t.duration_ms, t.max_id + 1).len() + t.bytes.len() + 8 <= u32::MAX
    &&& forall|i: int|
        0 <= i < v.len() ==> nal_count(media, (#[trigger] v[i]).off, v[i].off + v[i].size) <= 64
    &&& named(
        atoms_before(file_bytes(media, t), (ftyp_box() + mdat_bytes(media)).len() as int),
        MOOV@,
    ).len() == 0
}

/// A transplant onto a broken file yields a file that the analysis finds nothing wrong
/// with. This holds of a donor with video, where no sample has more than 64 NAL units,
/// everything stays within the 32-bit fields of an index, and no moov begins in the
/// media; and, where an audio track is built too, by the name of the video handler
/// reading as text.
pub proof fn law_transplants_are_intact(
    d: Seq<u8>,
    o: Organs,
    keep_preroll: bool,
    rate: Option<u32>,
    stsd: Seq<u8>,
    audio_stsd: Seq<u8>,
)
    requires
        transplanted(d, o, keep_preroll, rate) is Ok,
        o.video matches Some(dv) && dv.stsd == box_bytes(STSD@, stsd),
        o.audio matches Some(da) ==> da.stsd == box_bytes(STSD@, audio_stsd),
        ({
            let (start, end, head_torn) = media_of(d);
            let media = d.subrange(start, end);
            let q = playable(media_parts(media, head_torn, o), keep_preroll).unwrap().0;
            graft_is_plain(media, q, o)
        }),
    ensures
        ({
            let g = transplanted(d, o, keep_preroll, rate).unwrap();
            (g.audio_samples <= 0 || utf8_lossy(VIDE@) == "vide"@) ==> diagnosis(g.out) == Some(
                Diagnosis::Intact,
            )
        }),
{
    let g = transplanted(d, o, keep_preroll, rate).unwrap();
    let (start, end, head_torn) = media_of(d);
    let media = d.subrange(start, end);
    let q = playable(media_parts(media, head_torn, o), keep_preroll).unwrap().0;
    lemma_graft_out(d, o, keep_preroll, rate);
    lemma_graft_samples(media, head_torn, o, keep_preroll);
    if g.audio_samples <= 0 || utf8_lossy(VIDE@) == "vide"@ {
        lemma_parts_are_intact(media, q, o, stsd, audio_stsd);
    }
}

/// What a transplant writes.
pub proof fn lemma_graft_out(d: Seq<u8>, o: Organs, keep_preroll: bool, rate: Option<u32>)
    requires
        transplanted(d, o, keep_preroll, rate) is Ok,
        o.video is Some,
    ensures
        ({
            let (start, end, head_torn) = media_of(d);
            let media = d.subrange(start, end);
            let p = media_parts(media, head_torn, o);
            let q = playable(p, keep_preroll).unwrap().0;
            let g = transplanted(d, o, keep_preroll, rate).unwrap();
            &&& p.video.len() > 0
            &&& playable(p, keep_preroll) is Some
            &&& g.audio_samples == sample_total(splittable(q.gaps, o))
            &&& g.out == file_bytes(
                media,
                with_audio(media, splittable(q.gaps, o), o, video_tracks(media, q.video, o)),
            )
        }),
{
}

/// A new file over playable parts is intact.
proof fn lemma_parts_are_intact(
    media: Seq<u8>,
    q: Parts,
    o: Organs,
    stsd: Seq<u8>,
    audio_stsd: Seq<u8>,
)
    requires
        o.video matches Some(dv) && dv.stsd == box_bytes(STSD@, stsd),
        o.audio matches Some(da) ==> da.stsd == box_bytes(STSD@, audio_stsd),
        graft_is_plain(media, q, o),
        q.video.len() > 0,
        laid_out(q.video, 0, media.len() as int),
        all_whole(media, q.video),
        describable(q.video, media_base(media)),
        gaps_inside(q.gaps, media.len() as int),
        q.gaps.len() <= u32::MAX,
        sample_total(splittable(q.gaps, o)) <= 0 || utf8_lossy(VIDE@) == "vide"@,
    ensures
        diagnosis(
            file_bytes(
                media,
                with_audio(media, splittable(q.gaps, o), o, video_tracks(media, q.video, o)),
            ),
        ) == Some(Diagnosis::Intact),
{
    let dv = o.video.unwrap();
    let v = q.video;
    let chunks = splittable(q.gaps, o);
    let one = video_tracks(media, v, o);
    let t = with_audio(media, chunks, o, one);
    let mv = mvhd_bytes(1000, t.duration_ms, t.max_id + 1);
    let m = box_bytes(MOOV@, mv + t.bytes);
    let n = box_len(mv + t.bytes);
    let trak = video_trak(media, v, dv);
    let at = (8 + mv.len() + trak.len()) as int;
    lemma_moov_stands(mv + t.bytes);
    if sample_total(chunks) <= 0 {
        let none = Seq::<u8>::empty();
        assert(trak + none =~= trak);
        assert(at == n);
        lemma_tracks_step(m, at, n);
        assert(box_at(m, n, n) is None);
        lemma_graft_is_intact(media, v, dv, stsd, t, none, seq![]);
    } else {
        lemma_splittable(media.len() as int, q.gaps, o, media_base(media));
        let da = o.audio.unwrap();
        let css = da.constant_sample_size.unwrap();
        let fallback = (one.max_id + 1) % 0x1_0000_0000;
        let rest = audio_trak(media, chunks, da, css, fallback);
        let table = regrown_audio(da, audio_stsd, chunks, css, media_base(media));
        assert(t.bytes == trak + rest);
        lemma_stands_split(m, 8, mv, t.bytes);
        lemma_stands_split(m, 8 + mv.len() as int, trak, rest);
        law_regrown_audio_reads_back(m, at, media, chunks, da, css, fallback, audio_stsd);
        lemma_last_track(m, at, n, table);
        lemma_graft_is_intact(media, v, dv, stsd, t, rest, seq![table]);
    }
}

/// Gaps that lie in the media.
spec fn gaps_inside(gaps: Seq<(int, int)>, len: int) -> bool {
    forall|i: int|
        0 <= i < gaps.len() ==> 0 <= (#[trigger] gaps[i]).0 && 0 < gaps[i].1 && gaps[i].0 + gaps[i].1
            <= len
}

/// The chunks of constant-size audio can be described.
proof fn lemma_splittable(len: int, gaps: Seq<(int, int)>, o: Organs, base: int)
    requires
        gaps_inside(gaps, len),
        gaps.len() <= u32::MAX,
        len <= u32::MAX,
        0 <= base <= 36,
        sample_total(splittable(gaps, o)) > 0,
    ensures
        audible(splittable(gaps, o), base),
        o.audio matches Some(da) && (da.constant_sample_size matches Some(css) && css > 0),
{
    let css = o.audio.unwrap().constant_sample_size.unwrap();
    lemma_counted_chunks(len, gaps, css);
}

proof fn lemma_counted_chunks(len: int, gaps: Seq<(int, int)>, css: u32)
    requires
        gaps_inside(gaps, len),
        len <= u32::MAX,
    ensures
        ({
            let chunks = counted_chunks(gaps, css);
            &&& chunks.len() <= gaps.len()
            &&& 0 <= sample_total(chunks)
            &&& chunks.len() > 0 ==> css > 0
            &&& forall|i: int|
                0 <= i < chunks.len() ==> 0 <= (#[trigger] chunks[i]).0 <= len && 0 <= chunks[i].1
                    <= u32::MAX
        }),
    decreases gaps.len(),
{
    let chunks = counted_chunks(gaps, css);
    if gaps.len() > 0 {
        let head = gaps.drop_last();
        assert forall|i: int| 0 <= i < head.len() implies 0 <= (#[trigger] head[i]).0 && 0 < head[i].1
            && head[i].0 + head[i].1 <= len by {
            assert(head[i] == gaps[i]);
        }
        lemma_counted_chunks(len, head, css);
        let before = counted_chunks(head, css);
        let (off, size) = gaps.last();
        assert(gaps.last() == gaps[gaps.len() - 1]);
        let n = whole_samples(size, css);
        if n > 0 {
            assert(n <= size) by (nonlinear_arith)
                requires
                    size > 0,
                    css > 0,
                    n == size / (css as int),
            ;
            assert(chunks.drop_last() =~= before);
            assert forall|i: int| 0 <= i < chunks.len() implies 0 <= (#[trigger] chunks[i]).0 <= len && 0
                <= chunks[i].1 <= u32::MAX by {
                if i < before.len() {
                    assert(chunks[i] == before[i]);
                }
            }
        }
    }
}

/// The samples that a transplant keeps are whole and in order, and its gaps lie in the
/// media.
proof fn lemma_graft_samples(media: Seq<u8>, head_torn: bool, o: Organs, keep_preroll: bool)
    requires
        o.video is Some,
        media.len() <= u32::MAX,
        media_parts(media, head_torn, o).video.len() > 0,
        playable(media_parts(media, head_torn, o), keep_preroll) is Some,
    ensures
        ({
            let q = playable(media_parts(media, head_torn, o), keep_preroll).unwrap().0;
            &&& q.video.len() > 0
            &&& laid_out(q.video, 0, media.len() as int)
            &&& all_whole(media, q.video)
            &&& describable(q.video, media_base(media))
            &&& gaps_inside(q.gaps, media.len() as int)
            &&& q.gaps.len() <= u32::MAX
        }),
{
    let dv = o.video.unwrap();
    let p = media_parts(media, head_torn, o);
    let q = playable(p, keep_preroll).unwrap().0;
    law_samples_are_whole_nals(media, dv, head_torn);
    crate::transplant::law_walk_accounts_for_every_byte(media, dv, head_torn);
    lemma_playable(media, p, keep_preroll);
    lemma_few_samples(q.video, 0, media.len() as int);
    lemma_few_gaps(p.gaps, 0, media.len() as int);
    if !keep_preroll {
        let n = first_sync(p.video, 0).unwrap();
        lemma_gaps_behind(p.gaps, p.video[n].off, media.len() as int);
    }
}

/// What a transplant plays can be described by an index.
pub proof fn lemma_graft_describable(
    media: Seq<u8>,
    head_torn: bool,
    o: Organs,
    keep_preroll: bool,
)
    requires
        o.video is Some,
        media.len() <= u32::MAX,
        media_parts(media, head_torn, o).video.len() > 0,
        playable(media_parts(media, head_torn, o), keep_preroll) is Some,
    ensures
        ({
            let q = playable(media_parts(media, head_torn, o), keep_preroll).unwrap().0;
            q.video.len() > 0 && describable(q.video, media_base(media))
        }),
{
    lemma_graft_samples(media, head_torn, o, keep_preroll);
}

/// There are no more gaps than bytes.
proof fn lemma_few_gaps(v: Seq<(int, int)>, low: int, high: int)
    requires
        gaps_laid_out(v, low, high),
        low <= high,
    ensures
        v.len() <= high - low,
        v.len() > 0 ==> v.last().0 + v.last().1 >= low + v.len(),
    decreases v.len(),
{
    let n = v.len() as int;
    if n > 0 {
        let w = v.drop_last();
        assert forall|i: int| 0 <= i < w.len() implies low <= (#[trigger] w[i]).0 && 0 < w[i].1 && w[i].0
            + w[i].1 <= high by {
            assert(w[i] == v[i]);
        }
        assert forall|i: int, j: int| 0 <= i < j < w.len() implies (#[trigger] w[i]).0 + w[i].1 <= (
        #[trigger] w[j]).0 by {
            assert(w[i] == v[i] && w[j] == v[j]);
        }
        lemma_few_gaps(w, low, high);
        if n > 1 {
            assert(w.last() == v[n - 2]);
            assert(v[n - 2].0 + v[n - 2].1 <= v[n - 1].0);
        }
        assert(v[n - 1].0 + v[n - 1].1 <= high);
    }
}

proof fn lemma_gaps_behind(gaps: Seq<(int, int)>, cut: int, len: int)
    requires
        gaps_inside(gaps, len),
    ensures
        gaps_inside(gaps_behind(gaps, cut), len),
        gaps_behind(gaps, cut).len() <= gaps.len(),
    decreases gaps.len(),
{
    if gaps.len() > 0 {
        let head = gaps.drop_last();
        assert forall|i: int| 0 <= i < head.len() implies 0 <= (#[trigger] head[i]).0 && 0 < head[i].1
            && head[i].0 + head[i].1 <= len by {
            assert(head[i] == gaps[i]);
        }
        lemma_gaps_behind(head, cut, len);
        let before = gaps_behind(head, cut);
        let after = gaps_behind(gaps, cut);
        assert(gaps.last() == gaps[gaps.len() - 1]);
        assert forall|i: int| 0 <= i < after.len() implies 0 <= (#[trigger] after[i]).0 && 0 < after[i].1
            && after[i].0 + after[i].1 <= len by {
            if i < before.len() {
                assert(after[i] == before[i]);
            }
        }
    }
}

/// There are no more samples than bytes.
proof fn lemma_few_samples(v: Seq<Unit>, low: int, high: int)
    requires
        laid_out(v, low, high),
        forall|i: int| 0 <= i < v.len() ==> 0 < (#[trigger] v[i]).size,
        v.len() > 0,
    ensures
        v.len() <= high - low,
        v.last().off + v.last().size >= low + v.len(),
    decreases v.len(),
{
    let n = v.len() as int;
    if n > 1 {
        let w = v.drop_last();
        assert(w.last() == v[n - 2]);
        assert forall|i: int| 0 <= i < w.len() implies low <= (#[trigger] w[i]).off && 0 < w[i].size
            && w[i].off + w[i].size <= high by {
            assert(w[i] == v[i]);
        }
        assert forall|i: int, j: int| 0 <= i < j < w.len() implies (#[trigger] w[i]).off + w[i].size
            <= (#[trigger] w[j]).off by {
            assert(w[i] == v[i] && w[j] == v[j]);
        }
        lemma_few_samples(w, low, high);
        assert(v[n - 2].off + v[n - 2].size <= v[n - 1].off);
    }
    assert(v[n - 1].off + v[n - 1].size <= high);
}

/// Clipping to the first keyframe leaves samples as they are.
proof fn lemma_playable(media: Seq<u8>, p: Parts, keep_preroll: bool)
    requires
        p.video.len() > 0,
        laid_out(p.video, 0, media.len() as int),
        all_whole(media, p.video),
        playable(p, keep_preroll) is Some,
    ensures
        ({
            let v = playable(p, keep_preroll).unwrap().0.video;
            &&& v.len() > 0
            &&& laid_out(v, 0, media.len() as int)
            &&& all_whole(media, v)
        }),
{
    let v = playable(p, keep_preroll).unwrap().0.video;
    if !keep_preroll {
        lemma_first_sync(p.video, 0);
        let n = first_sync(p.video, 0).unwrap();
        assert(p.video.skip(0) =~= p.video);
        assert(v == p.video.skip(n));
        assert forall|i: int| 0 <= i < v.len() implies #[trigger] v[i] == p.video[i + n] by {}
        assert forall|i: int| 0 <= i < v.len() implies 0 < (#[trigger] v[i]).size && whole_nals(
            media,
            v[i].off,
            v[i].off + v[i].size,
        ) by {
            assert(v[i] == p.video[i + n]);
        }
        assert forall|i: int, j: int| 0 <= i < j < v.len() implies (#[trigger] v[i]).off + v[i].size
            <= (#[trigger] v[j]).off by {
            assert(v[i] == p.video[i + n] && v[j] == p.video[j + n]);
        }
    }
}

proof fn lemma_first_sync(v: Seq<Unit>, i: int)
    requires
        0 <= i,
    ensures
        first_sync(v, i) matches Some(n) ==> i <= n < v.len(),
    decreases v.len() - i,
{
    if i < v.len() && !v[i].sync {
        lemma_first_sync(v, i + 1);
    }
}

} // verus!
