//! What a rebuilt file image promises: it walks, its index is found where it stood, and
//! the samples that the index speaks of are where it says.
use crate::bytes::{be32_at, be32_bytes, be64_at};
use crate::forensics::{atom_at, atom_named_at, atoms, atoms_before, Atom};
use crate::fourcc::{
    CO64, FREE, FTYP, HDLR, ISOM, MDAT, MDHD, MDIA, MINF, MOOV, STBL, STCO, STSC, STSD, STSS, STSZ,
    STTS, TRAK,
};
use crate::mp4::{
    anchored, atom_placed, attributed, before_index, box_at, chunk_offsets_in, codec_at,
    correlated, counted_longs, counted_pairs, counted_words, diagnosis, ends_fit, erased,
    first_box, first_moov, first_video, free_box, ftyp_box, inside, law_lost_media_is_silence,
    law_media_starts_lowest, law_prefix_is_atoms, law_prefix_length, law_survivors_return,
    lemma_atoms_inside, lemma_box_lengths, lemma_named_inside, lemma_placed_inside,
    lemma_written_box, less_likely, likeliest_first, lines_up, longs_at, mdat_ranges,
    media_start_of, moov_table, nals_fill, named, pairs_at, prefix_of, rebuilt, sample_table,
    sizes_at, syncs_in, table_is_video, timescale_at, track_table, tracks_from, video_locations,
    vote, walk_end, walks_clean, within_mdat, word_at, words_at, BoxSpan, Diagnosis, MoovTable,
    SampleTable, TrackError, TrackTable, Truncation,
};
use crate::text::utf8_lossy;
use vstd::prelude::*;

verus! {

broadcast use crate::bytes::group_lengths;

// ---------------------------------------------------------------------------
// Bytes in front of a file change nothing but where things are
// ---------------------------------------------------------------------------

/// A box, `n` bytes further on.
pub open spec fn box_moved(b: Option<BoxSpan>, n: int) -> Option<BoxSpan> {
    match b {
        Some(b) => Some(
            BoxSpan { fourcc: b.fourcc, body_start: b.body_start + n, body_end: b.body_end + n },
        ),
        None => None,
    }
}

proof fn lemma_box_moved(a: Seq<u8>, d: Seq<u8>, p: int, e: int)
    requires
        p >= 0,
    ensures
        box_at(a + d, a.len() + p, a.len() + e) == box_moved(box_at(d, p, e), a.len() as int),
{
    let out = a + d;
    let q = a.len() + p;
    if p + 8 <= d.len() {
        assert(out.subrange(q + 4, q + 8) =~= d.subrange(p + 4, p + 8));
        assert(be32_at(out, q) == be32_at(d, p));
        if p + 16 <= d.len() {
            assert(be64_at(out, q + 8) == be64_at(d, p + 8));
        }
    }
}

proof fn lemma_first_box_moved(a: Seq<u8>, d: Seq<u8>, p: int, e: int, fourcc: Seq<u8>)
    requires
        p >= 0,
    ensures
        first_box(a + d, a.len() + p, a.len() + e, fourcc) == box_moved(
            first_box(d, p, e, fourcc),
            a.len() as int,
        ),
        first_box(d, p, e, fourcc) matches Some(b) ==> b.body_start >= p && b.body_end
            >= b.body_start && b.body_end <= d.len(),
    decreases e - p,
{
    lemma_box_moved(a, d, p, e);
    if let Some(b) = box_at(d, p, e) {
        if b.fourcc != fourcc {
            lemma_first_box_moved(a, d, b.body_end, e, fourcc);
        }
    }
}

proof fn lemma_walk_shift(a: Seq<u8>, d: Seq<u8>, p: int, fourcc: Seq<u8>)
    requires
        p >= 0,
    ensures
        walk_end(a + d, a.len() + p, (a + d).len() as int) == a.len() + walk_end(
            d,
            p,
            d.len() as int,
        ),
        first_box(a + d, a.len() + p, (a + d).len() as int, fourcc) is Some == first_box(
            d,
            p,
            d.len() as int,
            fourcc,
        ) is Some,
    decreases d.len() - p,
{
    lemma_box_moved(a, d, p, d.len() as int);
    if let Some(b) = box_at(d, p, d.len() as int) {
        lemma_walk_shift(a, d, b.body_end, fourcc);
    }
}

proof fn lemma_word_moved(a: Seq<u8>, d: Seq<u8>, i: int)
    requires
        i >= 0,
    ensures
        word_at(a + d, a.len() + i) == word_at(d, i),
{
    if i + 4 <= d.len() {
        assert(be32_at(a + d, a.len() + i) == be32_at(d, i));
    }
}

proof fn lemma_words_moved(a: Seq<u8>, d: Seq<u8>, base: int, n: int)
    requires
        base >= 0,
        n >= 0,
    ensures
        words_at(a + d, a.len() + base, n) == words_at(d, base, n),
{
    if n > 0 && base + 4 * n <= d.len() {
        let x = words_at(a + d, a.len() + base, n).unwrap();
        let y = words_at(d, base, n).unwrap();
        assert forall|i: int| 0 <= i < n implies x[i] == y[i] by {
            assert(be32_at(a + d, a.len() + base + 4 * i) == be32_at(d, base + 4 * i));
        }
        assert(x =~= y);
    } else if n == 0 {
        assert(words_at(a + d, a.len() + base, n).unwrap() =~= words_at(d, base, n).unwrap());
    }
}

proof fn lemma_longs_moved(a: Seq<u8>, d: Seq<u8>, base: int, n: int)
    requires
        base >= 0,
        n >= 0,
    ensures
        longs_at(a + d, a.len() + base, n) == longs_at(d, base, n),
{
    if n > 0 && base + 8 * n <= d.len() {
        let x = longs_at(a + d, a.len() + base, n).unwrap();
        let y = longs_at(d, base, n).unwrap();
        assert forall|i: int| 0 <= i < n implies x[i] == y[i] by {
            assert(be64_at(a + d, a.len() + base + 8 * i) == be64_at(d, base + 8 * i));
        }
        assert(x =~= y);
    } else if n == 0 {
        assert(longs_at(a + d, a.len() + base, n).unwrap() =~= longs_at(d, base, n).unwrap());
    }
}

proof fn lemma_pairs_moved(a: Seq<u8>, d: Seq<u8>, base: int, stride: int, n: int)
    requires
        base >= 0,
        stride >= 0,
        n >= 0,
    ensures
        pairs_at(a + d, a.len() + base, stride, n) == pairs_at(d, base, stride, n),
{
    if n > 0 && base + stride * (n - 1) + 8 <= d.len() {
        let x = pairs_at(a + d, a.len() + base, stride, n).unwrap();
        let y = pairs_at(d, base, stride, n).unwrap();
        assert forall|i: int| 0 <= i < n implies x[i] == y[i] by {
            let p = base + stride * i;
            assert(0 <= stride * i <= stride * (n - 1)) by (nonlinear_arith)
                requires
                    0 <= i <= n - 1,
                    stride >= 0,
            ;
            assert(be32_at(a + d, a.len() + p) == be32_at(d, p));
            assert(be32_at(a + d, a.len() + p + 4) == be32_at(d, p + 4));
        }
        assert(x =~= y);
    } else if n == 0 {
        assert(pairs_at(a + d, a.len() + base, stride, n).unwrap() =~= pairs_at(
            d,
            base,
            stride,
            n,
        ).unwrap());
    }
}

proof fn lemma_tables_moved(a: Seq<u8>, d: Seq<u8>, b: int)
    requires
        b >= 0,
    ensures
        counted_words(a + d, a.len() + b) == counted_words(d, b),
        counted_longs(a + d, a.len() + b) == counted_longs(d, b),
        counted_pairs(a + d, a.len() + b, 8) == counted_pairs(d, b, 8),
        counted_pairs(a + d, a.len() + b, 12) == counted_pairs(d, b, 12),
        sizes_at(a + d, a.len() + b) == sizes_at(d, b),
{
    lemma_word_moved(a, d, b + 4);
    lemma_word_moved(a, d, b + 8);
    if let Some(n) = word_at(d, b + 4) {
        lemma_words_moved(a, d, b + 8, n);
        lemma_longs_moved(a, d, b + 8, n);
        lemma_pairs_moved(a, d, b + 8, 8, n);
        lemma_pairs_moved(a, d, b + 8, 12, n);
    }
    if let Some(n) = word_at(d, b + 8) {
        lemma_words_moved(a, d, b + 12, n);
    }
}

proof fn lemma_chunk_offsets_moved(a: Seq<u8>, d: Seq<u8>, b: int, e: int)
    requires
        b >= 0,
    ensures
        chunk_offsets_in(a + d, a.len() + b, a.len() + e) == chunk_offsets_in(d, b, e),
{
    lemma_first_box_moved(a, d, b, e, STCO@);
    lemma_first_box_moved(a, d, b, e, CO64@);
    if let Some(x) = first_box(d, b, e, STCO@) {
        lemma_tables_moved(a, d, x.body_start);
    }
    if let Some(x) = first_box(d, b, e, CO64@) {
        lemma_tables_moved(a, d, x.body_start);
    }
}

proof fn lemma_syncs_moved(a: Seq<u8>, d: Seq<u8>, b: int, e: int)
    requires
        b >= 0,
    ensures
        syncs_in(a + d, a.len() + b, a.len() + e) == syncs_in(d, b, e),
{
    lemma_first_box_moved(a, d, b, e, STSS@);
    if let Some(x) = first_box(d, b, e, STSS@) {
        lemma_tables_moved(a, d, x.body_start);
    }
}

proof fn lemma_codec_moved(a: Seq<u8>, d: Seq<u8>, b: int, e: int)
    requires
        0 <= b,
        e <= d.len(),
    ensures
        codec_at(a + d, a.len() + b, a.len() + e) == codec_at(d, b, e),
{
    if e - b >= 16 {
        assert((a + d).subrange(a.len() + b + 12, a.len() + b + 16) =~= d.subrange(b + 12, b + 16));
    }
}

/// The sample table of a region, from what is read of its boxes.
spec fn table_from(
    codec: Option<Seq<char>>,
    sizes: Option<Option<Seq<u32>>>,
    chunk_offsets: Option<Option<Seq<u64>>>,
    stsc: Option<Option<Seq<(u32, u32)>>>,
    syncs: Option<Option<Seq<u32>>>,
    stts: Option<Option<Seq<(u32, u32)>>>,
) -> Option<Result<SampleTable, TrackError>> {
    match (codec, sizes) {
        (None, _) => Some(Err(TrackError::NoStsd)),
        (_, None) => Some(Err(TrackError::NoStsz)),
        (_, Some(None)) => None,
        (Some(codec), Some(Some(sizes))) => match chunk_offsets {
            None => None,
            Some(None) => Some(Err(TrackError::NoChunkOffsets)),
            Some(Some(chunk_offsets)) => match stsc {
                None => Some(Err(TrackError::NoStsc)),
                Some(None) => None,
                Some(Some(stsc)) => match syncs {
                    None => None,
                    Some(sync_samples) => match stts {
                        None => Some(Err(TrackError::NoStts)),
                        Some(None) => None,
                        Some(Some(stts)) => Some(
                            Ok(
                                SampleTable {
                                    codec,
                                    sizes,
                                    chunk_offsets,
                                    stsc,
                                    sync_samples,
                                    stts,
                                },
                            ),
                        ),
                    },
                },
            },
        },
    }
}

spec fn codec_in(d: Seq<u8>, b: int, e: int) -> Option<Seq<char>> {
    match first_box(d, b, e, STSD@) {
        Some(x) => Some(codec_at(d, x.body_start, x.body_end)),
        None => None,
    }
}

spec fn sizes_in(d: Seq<u8>, b: int, e: int) -> Option<Option<Seq<u32>>> {
    match first_box(d, b, e, STSZ@) {
        Some(x) => Some(sizes_at(d, x.body_start)),
        None => None,
    }
}

spec fn pairs_in(d: Seq<u8>, b: int, e: int, fourcc: Seq<u8>, stride: int) -> Option<
    Option<Seq<(u32, u32)>>,
> {
    match first_box(d, b, e, fourcc) {
        Some(x) => Some(counted_pairs(d, x.body_start, stride)),
        None => None,
    }
}

proof fn lemma_table_parts(d: Seq<u8>, b: int, e: int)
    ensures
        sample_table(d, b, e) == table_from(
            codec_in(d, b, e),
            sizes_in(d, b, e),
            chunk_offsets_in(d, b, e),
            pairs_in(d, b, e, STSC@, 12),
            syncs_in(d, b, e),
            pairs_in(d, b, e, STTS@, 8),
        ),
{
}

proof fn lemma_parts_moved(a: Seq<u8>, d: Seq<u8>, b: int, e: int)
    requires
        b >= 0,
    ensures
        codec_in(a + d, a.len() + b, a.len() + e) == codec_in(d, b, e),
        sizes_in(a + d, a.len() + b, a.len() + e) == sizes_in(d, b, e),
{
    lemma_first_box_moved(a, d, b, e, STSD@);
    lemma_first_box_moved(a, d, b, e, STSZ@);
    if let Some(x) = first_box(d, b, e, STSD@) {
        lemma_codec_moved(a, d, x.body_start, x.body_end);
    }
    if let Some(x) = first_box(d, b, e, STSZ@) {
        lemma_tables_moved(a, d, x.body_start);
    }
}

proof fn lemma_pairs_in_moved(a: Seq<u8>, d: Seq<u8>, b: int, e: int, fourcc: Seq<u8>, stride: int)
    requires
        b >= 0,
        stride == 8 || stride == 12,
    ensures
        pairs_in(a + d, a.len() + b, a.len() + e, fourcc, stride) == pairs_in(
            d,
            b,
            e,
            fourcc,
            stride,
        ),
{
    lemma_first_box_moved(a, d, b, e, fourcc);
    if let Some(x) = first_box(d, b, e, fourcc) {
        lemma_tables_moved(a, d, x.body_start);
    }
}

#[verifier::spinoff_prover]
#[verifier::rlimit(40)]
proof fn lemma_sample_table_moved(a: Seq<u8>, d: Seq<u8>, b: int, e: int)
    requires
        b >= 0,
    ensures
        sample_table(a + d, a.len() + b, a.len() + e) == sample_table(d, b, e),
{
    lemma_table_parts(d, b, e);
    lemma_table_parts(a + d, a.len() + b, a.len() + e);
    lemma_parts_moved(a, d, b, e);
    lemma_chunk_offsets_moved(a, d, b, e);
    lemma_pairs_in_moved(a, d, b, e, STSC@, 12);
    lemma_syncs_moved(a, d, b, e);
    lemma_pairs_in_moved(a, d, b, e, STTS@, 8);
}

/// What a track says, from what is read of its boxes.
spec fn track_from(
    mdia: bool,
    timescale: Option<Option<int>>,
    handler: Option<Option<Seq<char>>>,
    minf: bool,
    table: Option<Option<Result<SampleTable, TrackError>>>,
) -> Option<Result<TrackTable, TrackError>> {
    if !mdia {
        Some(Err(TrackError::NoMdia))
    } else {
        match timescale {
            None => Some(Err(TrackError::NoMdhd)),
            Some(None) => None,
            Some(Some(timescale)) => match handler {
                None => Some(Err(TrackError::NoHdlr)),
                Some(None) => None,
                Some(Some(handler)) => if !minf {
                    Some(Err(TrackError::NoMinf))
                } else {
                    match table {
                        None => Some(Err(TrackError::NoStbl)),
                        Some(None) => None,
                        Some(Some(Err(error))) => Some(Err(error)),
                        Some(Some(Ok(s))) => Some(
                            Ok(
                                TrackTable {
                                    handler,
                                    codec: s.codec,
                                    timescale: timescale as u32,
                                    sample_count: s.sizes.len() as int,
                                    sizes: s.sizes,
                                    chunk_offsets: s.chunk_offsets,
                                    stsc: s.stsc,
                                    sync_samples: s.sync_samples,
                                    stts: s.stts,
                                },
                            ),
                        ),
                    }
                },
            },
        }
    }
}

spec fn timescale_in(d: Seq<u8>, mdia: Option<BoxSpan>) -> Option<Option<int>> {
    match mdia {
        None => None,
        Some(m) => match first_box(d, m.body_start, m.body_end, MDHD@) {
            None => None,
            Some(x) => Some(timescale_at(d, x.body_start)),
        },
    }
}

spec fn handler_in(d: Seq<u8>, mdia: Option<BoxSpan>) -> Option<Option<Seq<char>>> {
    match mdia {
        None => None,
        Some(m) => match first_box(d, m.body_start, m.body_end, HDLR@) {
            None => None,
            Some(x) => if x.body_start + 12 > d.len() {
                Some(None)
            } else {
                Some(Some(utf8_lossy(d.subrange(x.body_start + 8, x.body_start + 12))))
            },
        },
    }
}

spec fn minf_in(d: Seq<u8>, mdia: Option<BoxSpan>) -> Option<BoxSpan> {
    match mdia {
        None => None,
        Some(m) => first_box(d, m.body_start, m.body_end, MINF@),
    }
}

spec fn table_in(d: Seq<u8>, minf: Option<BoxSpan>) -> Option<
    Option<Result<SampleTable, TrackError>>,
> {
    match minf {
        None => None,
        Some(m) => match first_box(d, m.body_start, m.body_end, STBL@) {
            None => None,
            Some(x) => Some(sample_table(d, x.body_start, x.body_end)),
        },
    }
}

proof fn lemma_track_parts(d: Seq<u8>, b: int, e: int)
    ensures
        ({
            let mdia = first_box(d, b, e, MDIA@);
            let minf = minf_in(d, mdia);
            track_table(d, b, e) == track_from(
                mdia is Some,
                timescale_in(d, mdia),
                handler_in(d, mdia),
                minf is Some,
                table_in(d, minf),
            )
        }),
{
}

/// A box that lies in the data.
spec fn lies_in(d: Seq<u8>, b: Option<BoxSpan>) -> bool {
    b matches Some(x) ==> 0 <= x.body_start <= x.body_end <= d.len()
}

proof fn lemma_timescale_moved(a: Seq<u8>, d: Seq<u8>, mdia: Option<BoxSpan>)
    requires
        lies_in(d, mdia),
    ensures
        timescale_in(a + d, box_moved(mdia, a.len() as int)) == timescale_in(d, mdia),
{
    if let Some(m) = mdia {
        lemma_first_box_moved(a, d, m.body_start, m.body_end, MDHD@);
        if let Some(x) = first_box(d, m.body_start, m.body_end, MDHD@) {
            lemma_word_moved(a, d, x.body_start + 20);
            lemma_word_moved(a, d, x.body_start + 12);
        }
    }
}

proof fn lemma_handler_moved(a: Seq<u8>, d: Seq<u8>, mdia: Option<BoxSpan>)
    requires
        lies_in(d, mdia),
    ensures
        handler_in(a + d, box_moved(mdia, a.len() as int)) == handler_in(d, mdia),
{
    if let Some(m) = mdia {
        lemma_first_box_moved(a, d, m.body_start, m.body_end, HDLR@);
        if let Some(x) = first_box(d, m.body_start, m.body_end, HDLR@) {
            let h = x.body_start;
            if h + 12 <= d.len() {
                assert((a + d).subrange(a.len() + h + 8, a.len() + h + 12) =~= d.subrange(
                    h + 8,
                    h + 12,
                ));
            }
        }
    }
}

proof fn lemma_minf_moved(a: Seq<u8>, d: Seq<u8>, mdia: Option<BoxSpan>)
    requires
        lies_in(d, mdia),
    ensures
        minf_in(a + d, box_moved(mdia, a.len() as int)) == box_moved(
            minf_in(d, mdia),
            a.len() as int,
        ),
        lies_in(d, minf_in(d, mdia)),
{
    if let Some(m) = mdia {
        lemma_first_box_moved(a, d, m.body_start, m.body_end, MINF@);
    }
}

#[verifier::spinoff_prover]
#[verifier::rlimit(40)]
proof fn lemma_table_in_moved(a: Seq<u8>, d: Seq<u8>, minf: Option<BoxSpan>)
    requires
        lies_in(d, minf),
    ensures
        table_in(a + d, box_moved(minf, a.len() as int)) == table_in(d, minf),
{
    if let Some(m) = minf {
        lemma_first_box_moved(a, d, m.body_start, m.body_end, STBL@);
        if let Some(x) = first_box(d, m.body_start, m.body_end, STBL@) {
            lemma_sample_table_moved(a, d, x.body_start, x.body_end);
        }
    }
}

#[verifier::spinoff_prover]
#[verifier::rlimit(40)]
proof fn lemma_track_table_moved(a: Seq<u8>, d: Seq<u8>, b: int, e: int)
    requires
        b >= 0,
    ensures
        track_table(a + d, a.len() + b, a.len() + e) == track_table(d, b, e),
{
    let mdia = first_box(d, b, e, MDIA@);
    lemma_first_box_moved(a, d, b, e, MDIA@);
    lemma_track_parts(d, b, e);
    lemma_track_parts(a + d, a.len() + b, a.len() + e);
    lemma_timescale_moved(a, d, mdia);
    lemma_handler_moved(a, d, mdia);
    lemma_minf_moved(a, d, mdia);
    lemma_table_in_moved(a, d, minf_in(d, mdia));
}

/// The tracks from a box on, from what is read of it and what follows.
pub open spec fn tracks_with(
    is_trak: bool,
    track: Option<Result<TrackTable, TrackError>>,
    rest: Option<Seq<TrackTable>>,
) -> Option<Seq<TrackTable>> {
    if !is_trak {
        rest
    } else {
        match track {
            None => None,
            Some(Ok(t)) => match rest {
                Some(rest) => Some(seq![t] + rest),
                None => None,
            },
            Some(Err(error)) => rest,
        }
    }
}

/// The tracks from `p` on are those of the box there and those behind it.
pub proof fn lemma_tracks_step(d: Seq<u8>, p: int, e: int)
    ensures
        match box_at(d, p, e) {
            None => tracks_from(d, p, e) == Some(Seq::<TrackTable>::empty()),
            Some(b) => tracks_from(d, p, e) == tracks_with(
                b.fourcc == TRAK@,
                track_table(d, b.body_start, b.body_end),
                tracks_from(d, b.body_end, e),
            ),
        },
{
}

#[verifier::spinoff_prover]
#[verifier::rlimit(40)]
proof fn lemma_tracks_moved(a: Seq<u8>, d: Seq<u8>, p: int, e: int)
    requires
        p >= 0,
    ensures
        tracks_from(a + d, a.len() + p, a.len() + e) == tracks_from(d, p, e),
    decreases e - p,
{
    lemma_box_moved(a, d, p, e);
    lemma_tracks_step(d, p, e);
    lemma_tracks_step(a + d, a.len() + p, a.len() + e);
    match box_at(d, p, e) {
        None => {},
        Some(b) => {
            lemma_track_table_moved(a, d, b.body_start, b.body_end);
            lemma_tracks_moved(a, d, b.body_end, e);
        },
    }
}

/// An atom, `n` bytes further on.
pub open spec fn atom_moved(a: Atom, n: int) -> Atom {
    Atom { offset: a.offset + n, ..a }
}

/// Atoms, `n` bytes further on.
pub open spec fn atoms_moved(v: Seq<Atom>, n: int) -> Seq<Atom> {
    v.map_values(|a: Atom| atom_moved(a, n))
}

proof fn lemma_atom_moved(a: Seq<u8>, d: Seq<u8>, i: int)
    requires
        i >= 0,
    ensures
        atom_at(a + d, a.len() + i) == match atom_at(d, i) {
            Some(x) => Some(atom_moved(x, a.len() as int)),
            None => None,
        },
{
    let out = a + d;
    let q = a.len() + i;
    if i + 8 <= d.len() {
        lemma_name_moved(a, d, i + 4);
        assert(out.subrange(q + 4, q + 8) =~= d.subrange(i + 4, i + 8));
        assert(be32_at(out, q) == be32_at(d, i));
        if i + 16 <= d.len() {
            assert(be64_at(out, q + 8) == be64_at(d, i + 8));
        }
        if let Some(size) = crate::forensics::atom_size(d, i) {
            if size >= 8 {
                lemma_name_moved(a, d, i + size + 4);
            }
        }
    }
}

proof fn lemma_name_moved(a: Seq<u8>, d: Seq<u8>, i: int)
    requires
        i >= 0,
    ensures
        atom_named_at(a + d, a.len() + i) == atom_named_at(d, i),
{
    let out = a + d;
    let q = a.len() + i;
    if i + 4 <= d.len() {
        assert(out.subrange(q, q + 4) =~= d.subrange(i, i + 4));
    }
}

proof fn lemma_named_moved(a: Seq<u8>, d: Seq<u8>, n: int)
    requires
        n >= 0,
        named(atoms_before(a + d, a.len() as int), MOOV@).len() == 0,
    ensures
        named(atoms_before(a + d, a.len() + n), MOOV@) == atoms_moved(
            named(atoms_before(d, n), MOOV@),
            a.len() as int,
        ),
    decreases n,
{
    let k = a.len() as int;
    if n > 0 {
        lemma_named_moved(a, d, n - 1);
        lemma_atom_moved(a, d, n - 1);
        let before = named(atoms_before(d, n - 1), MOOV@);
        if let Some(x) = atom_at(d, n - 1) {
            let xs = atoms_before(d, n - 1);
            let ys = atoms_before(a + d, k + n - 1);
            assert(xs.push(x).drop_last() =~= xs);
            assert(ys.push(atom_moved(x, k)).drop_last() =~= ys);
            if x.fourcc == MOOV@ {
                assert(atoms_moved(before.push(x), k) =~= atoms_moved(before, k).push(
                    atom_moved(x, k),
                ));
            }
        }
    } else {
        assert(named(atoms_before(a + d, k), MOOV@) =~= atoms_moved(
            named(atoms_before(d, 0), MOOV@),
            k,
        ));
    }
}

proof fn lemma_placed_moved(s: Seq<Atom>, x: Atom, n: int)
    ensures
        atom_placed(atoms_moved(s, n), atom_moved(x, n)) == atoms_moved(atom_placed(s, x), n),
    decreases s.len(),
{
    let t = atoms_moved(s, n);
    if s.len() > 0 && less_likely(s.last(), x) {
        assert(t.last() == atom_moved(s.last(), n));
        assert(t.drop_last() =~= atoms_moved(s.drop_last(), n));
        lemma_placed_moved(s.drop_last(), x, n);
        let inner = atom_placed(s.drop_last(), x);
        assert(atoms_moved(inner.push(s.last()), n) =~= atoms_moved(inner, n).push(t.last()));
    } else {
        if s.len() > 0 {
            assert(t.last() == atom_moved(s.last(), n));
        }
        assert(atoms_moved(s.push(x), n) =~= t.push(atom_moved(x, n)));
    }
}

proof fn lemma_likeliest_moved(s: Seq<Atom>, n: int)
    ensures
        likeliest_first(atoms_moved(s, n)) == atoms_moved(likeliest_first(s), n),
    decreases s.len(),
{
    if s.len() == 0 {
        assert(likeliest_first(atoms_moved(s, n)) =~= atoms_moved(likeliest_first(s), n));
    } else {
        let t = atoms_moved(s, n);
        assert(t.drop_last() =~= atoms_moved(s.drop_last(), n));
        assert(t.last() == atom_moved(s.last(), n));
        lemma_likeliest_moved(s.drop_last(), n);
        lemma_placed_moved(likeliest_first(s.drop_last()), s.last(), n);
    }
}

/// An index, `n` bytes further on.
pub open spec fn moov_moved(m: Option<Option<MoovTable>>, n: int) -> Option<Option<MoovTable>> {
    match m {
        Some(Some(m)) => Some(Some(MoovTable { offset: m.offset + n, ..m })),
        _ => m,
    }
}

/// The first index from a candidate on, from what is read there and what follows.
spec fn moov_with(
    tracks: Option<Seq<TrackTable>>,
    offset: int,
    rest: Option<Option<MoovTable>>,
) -> Option<Option<MoovTable>> {
    match tracks {
        None => None,
        Some(tracks) => if tracks.len() > 0 {
            Some(Some(MoovTable { tracks, offset }))
        } else {
            rest
        },
    }
}

proof fn lemma_first_moov_step(d: Seq<u8>, v: Seq<Atom>, i: int)
    ensures
        0 <= i < v.len() ==> first_moov(d, v, i) == moov_with(
            tracks_from(d, v[i].offset + 8, v[i].offset + v[i].size),
            v[i].offset,
            first_moov(d, v, i + 1),
        ),
        !(0 <= i < v.len()) ==> first_moov(d, v, i) == Some(None::<MoovTable>),
{
}

#[verifier::spinoff_prover]
#[verifier::rlimit(40)]
proof fn lemma_first_moov_moved(a: Seq<u8>, d: Seq<u8>, v: Seq<Atom>, i: int)
    requires
        inside(d, v),
    ensures
        first_moov(a + d, atoms_moved(v, a.len() as int), i) == moov_moved(
            first_moov(d, v, i),
            a.len() as int,
        ),
    decreases v.len() - i,
{
    let n = a.len() as int;
    let w = atoms_moved(v, n);
    lemma_first_moov_step(d, v, i);
    lemma_first_moov_step(a + d, w, i);
    if 0 <= i < v.len() {
        let x = v[i];
        assert(w[i] == atom_moved(x, n));
        lemma_tracks_moved(a, d, x.offset + 8, x.offset + x.size);
        lemma_first_moov_moved(a, d, v, i + 1);
    }
}

proof fn lemma_likeliest_inside(d: Seq<u8>, s: Seq<Atom>)
    requires
        inside(d, s),
    ensures
        inside(d, likeliest_first(s)),
    decreases s.len(),
{
    if s.len() > 0 {
        lemma_likeliest_inside(d, s.drop_last());
        lemma_placed_inside(d, likeliest_first(s.drop_last()), s.last());
    }
}

/// An index is found again behind anything that is put in front of a file, if no moov
/// begins there.
pub proof fn law_index_is_found_again(a: Seq<u8>, d: Seq<u8>)
    requires
        named(atoms_before(a + d, a.len() as int), MOOV@).len() == 0,
    ensures
        moov_table(a + d) == moov_moved(moov_table(d), a.len() as int),
{
    let n = d.len() as int;
    lemma_named_moved(a, d, n);
    let v = named(atoms_before(d, n), MOOV@);
    lemma_likeliest_moved(v, a.len() as int);
    lemma_atoms_inside(d, n);
    lemma_named_inside(d, atoms_before(d, n), MOOV@);
    lemma_likeliest_inside(d, v);
    lemma_first_moov_moved(a, d, likeliest_first(v), 0);
}

/// The same of a file that is cut in two.
proof fn lemma_index_behind(d: Seq<u8>, n: int)
    requires
        0 <= n <= d.len(),
        named(atoms_before(d, n), MOOV@).len() == 0,
    ensures
        moov_table(d) == moov_moved(moov_table(d.skip(n)), n),
{
    assert(d =~= d.take(n) + d.skip(n));
    law_index_is_found_again(d.take(n), d.skip(n));
}

// ---------------------------------------------------------------------------
// A rebuilt file is intact
// ---------------------------------------------------------------------------

/// A moov that is found from a box on is found from any box before it.
proof fn lemma_first_box_behind(d: Seq<u8>, p: int, fourcc: Seq<u8>)
    requires
        box_at(d, p, d.len() as int) matches Some(b) && first_box(
            d,
            b.body_end,
            d.len() as int,
            fourcc,
        ) is Some,
    ensures
        first_box(d, p, d.len() as int, fourcc) is Some,
{
}

/// The surviving structure walks to the end: from the first byte on if only structure was
/// cut, else from the index on.
pub open spec fn survivors_walk(d: Seq<u8>, t: Truncation) -> bool {
    let n = d.len() as int;
    if t.cut_bytes <= t.media_start - 8 && t.cut_bytes <= t.moov_orig {
        walks_clean(d)
    } else {
        let p = t.moov_orig - t.cut_bytes;
        p >= 0 && walk_end(d, p, n) == n && first_box(d, p, n, MOOV@) is Some
    }
}

/// A prefix in front of a box: what is found behind it is found from the first byte on.
proof fn lemma_prefix_first_box(len: int, rest: Seq<u8>)
    requires
        prefix_of(len) is Some,
        len <= u64::MAX,
        first_box(
            prefix_of(len).unwrap() + rest,
            len,
            (prefix_of(len).unwrap() + rest).len() as int,
            MOOV@,
        ) is Some,
    ensures
        first_box(
            prefix_of(len).unwrap() + rest,
            0,
            (prefix_of(len).unwrap() + rest).len() as int,
            MOOV@,
        ) is Some,
{
    let d = prefix_of(len).unwrap() + rest;
    let n = d.len() as int;
    law_prefix_length(len);
    let none = Seq::<u8>::empty();
    if len >= 28 {
        lemma_box_lengths(len - 20);
        let tail = FTYP@ + ISOM@ + be32_bytes(0x200) + ISOM@ + free_box(len - 20) + rest;
        assert(d =~= none + be32_bytes(20) + tail);
        crate::bytes::lemma_be32_roundtrip(none, 20, tail);
        assert(box_at(d, 0, n) matches Some(b) && b.body_end == 20);
        assert(d =~= ftyp_box() + free_box(len - 20) + rest);
        lemma_written_box(ftyp_box(), len - 20, rest);
        lemma_first_box_behind(d, 20, MOOV@);
        lemma_first_box_behind(d, 0, MOOV@);
    } else {
        lemma_box_lengths(len);
        assert(d =~= none + free_box(len) + rest);
        lemma_written_box(none, len, rest);
        lemma_first_box_behind(d, 0, MOOV@);
    }
}

/// Boxes in front of a box, and boxes behind it.
proof fn lemma_media_box_walks(out: Seq<u8>, header: int, m: int, tail: Seq<u8>)
    requires
        prefix_of(header) is Some,
        header <= u64::MAX,
        header + 8 <= m <= out.len(),
        m - header <= u32::MAX,
        out.take(header) == prefix_of(header).unwrap(),
        be32_at(out, header) == m - header,
        out.skip(m) == tail,
        walk_end(tail, 0, tail.len() as int) == tail.len(),
        first_box(tail, 0, tail.len() as int, MOOV@) is Some,
    ensures
        walks_clean(out),
{
    let n = out.len() as int;
    let p = prefix_of(header).unwrap();
    let rest = out.skip(header);
    assert(out =~= out.take(m) + tail);
    assert(out =~= p + rest);
    lemma_walk_shift(out.take(m), tail, 0, MOOV@);
    assert(box_at(out, header, n) matches Some(b) && b.body_end == m);
    lemma_first_box_behind(out, header, MOOV@);
    law_prefix_is_atoms(header, rest);
    lemma_prefix_first_box(header, rest);
}

/// What is rebuilt when the cut went through the structure in front of the media.
proof fn lemma_rebuilt_front(d: Seq<u8>, t: Truncation)
    requires
        0 <= t.cut_bytes,
        rebuilt(d, t) matches Some(Ok(out)),
        !(t.cut_bytes <= t.media_start - 8 && t.cut_bytes <= t.moov_orig),
        t.moov_orig >= t.cut_bytes,
        t.moov_orig - t.cut_bytes <= d.len(),
    ensures
        ({
            let out = rebuilt(d, t).unwrap().unwrap();
            let header = t.media_start - 8;
            &&& prefix_of(header) is Some
            &&& out.take(header) == prefix_of(header).unwrap()
            &&& header + 8 <= t.moov_orig <= out.len()
            &&& t.moov_orig - header <= u32::MAX
            &&& be32_at(out, header) == t.moov_orig - header
            &&& out.skip(t.moov_orig) == d.skip(t.moov_orig - t.cut_bytes)
        }),
{
    let out = rebuilt(d, t).unwrap().unwrap();
    let k = t.cut_bytes;
    let header = t.media_start - 8;
    let p = prefix_of(header).unwrap();
    let size = t.moov_orig - header;
    law_survivors_return(d, t);
    law_prefix_length(header);
    assert(be32_bytes(size).len() == 4);
    assert(out.take(header) =~= p);
    assert(out =~= p + be32_bytes(size) + out.skip(header + 4));
    crate::bytes::lemma_be32_roundtrip(p, size, out.skip(header + 4));
    assert(out.skip(t.moov_orig) =~= d.skip(t.moov_orig - k));
}

/// A rebuilt file is whole: where the surviving structure walks to the end, the boxes of
/// the rebuilt image walk cleanly from the first byte to the last, a moov among them.
pub proof fn law_rebuilt_walks_clean(d: Seq<u8>, t: Truncation)
    requires
        0 <= t.cut_bytes,
        t.cut_bytes + d.len() <= u64::MAX,
        rebuilt(d, t) matches Some(Ok(out)),
        survivors_walk(d, t),
    ensures
        walks_clean(rebuilt(d, t).unwrap().unwrap()),
{
    let k = t.cut_bytes;
    let header = t.media_start - 8;
    if k <= header && k <= t.moov_orig {
        let p = prefix_of(k).unwrap();
        law_prefix_length(k);
        lemma_walk_shift(p, d, 0, MOOV@);
        law_prefix_is_atoms(k, d);
        lemma_prefix_first_box(k, d);
    } else {
        let at = t.moov_orig - k;
        let tail = d.skip(at);
        assert(box_at(d, at, d.len() as int) is Some);
        assert(d =~= d.take(at) + tail);
        lemma_walk_shift(d.take(at), tail, 0, MOOV@);
        lemma_rebuilt_front(d, t);
        law_survivors_return(d, t);
        lemma_media_box_walks(rebuilt(d, t).unwrap().unwrap(), header, t.moov_orig, tail);
    }
}

/// A sample's opening bytes were cut off entirely or not at all; if they were, it ends in
/// the file, which had `len` bytes.
pub open spec fn settled(loc: (int, int), t: Truncation, len: int) -> bool {
    let (off, size) = loc;
    off >= t.cut_bytes || (off + size <= len && (off + size <= t.cut_bytes || off + 16
        <= t.cut_bytes))
}

/// The locations of samples that stand in the media.
spec fn in_media(locs: Seq<(int, int)>, t: Truncation) -> bool {
    forall|j: int| 0 <= j < locs.len() ==> t.media_start <= (#[trigger] locs[j]).0 && 0 <= locs[j].1
}

proof fn lemma_fill_shift(
    d: Seq<u8>,
    out: Seq<u8>,
    k: int,
    off: int,
    size: int,
    consumed: int,
    nals: nat,
)
    requires
        0 <= k <= off,
        consumed >= 0,
        out.len() == k + d.len(),
        forall|p: int| off <= p < out.len() ==> #[trigger] out[p] == d[p - k],
    ensures
        nals_fill(out, off, size, consumed, nals) == nals_fill(d, off - k, size, consumed, nals),
    decreases 64 - nals,
{
    if consumed < size && nals < 64 {
        let i = off + consumed;
        if i + 5 <= out.len() {
            assert(be32_at(out, i) == be32_at(d, i - k)) by {
                assert(out[i] == d[i - k] && out[i + 1] == d[i - k + 1] && out[i + 2] == d[i - k + 2]
                    && out[i + 3] == d[i - k + 3]);
            }
            assert(out[i + 4] == d[i - k + 4]);
            if be32_at(d, i - k) >= 0 {
                lemma_fill_shift(
                    d,
                    out,
                    k,
                    off,
                    size,
                    consumed + 4 + be32_at(d, i - k),
                    nals + 1,
                );
            }
        }
    }
}

/// The rebuilt image, as the vote sees it: survivors where they stood, and silence for
/// lost media.
spec fn restored(d: Seq<u8>, out: Seq<u8>, t: Truncation) -> bool {
    &&& 0 <= t.cut_bytes
    &&& out.len() == t.cut_bytes + d.len()
    &&& forall|p: int|
        p >= t.cut_bytes && p >= t.media_start && p < out.len() ==> #[trigger] out[p] == d[p
            - t.cut_bytes]
    &&& forall|p: int| t.media_start <= p < t.cut_bytes ==> #[trigger] out[p] == 0
}

/// A sample that survived votes in the rebuilt image as it did before.
proof fn lemma_sample_shift(d: Seq<u8>, out: Seq<u8>, t: Truncation, off: int, size: int)
    requires
        restored(d, out, t),
        off >= t.cut_bytes,
        off >= t.media_start,
        off - t.cut_bytes + size <= d.len(),
    ensures
        nals_fill(out, off, size, 0, 0) == nals_fill(d, off - t.cut_bytes, size, 0, 0),
        erased(out, off, size) == erased(d, off - t.cut_bytes, size),
{
    let k = t.cut_bytes;
    lemma_fill_shift(d, out, k, off, size, 0, 0);
    if erased(d, off - k, size) {
        assert forall|j: int| off <= j < off + size && j < off + 16 implies #[trigger] out[j] == 0 by {
            assert(d[j - k] == 0);
        }
    }
    if erased(out, off, size) {
        assert forall|j: int| off - k <= j < off - k + size && j < off - k + 16 implies
            #[trigger] d[j] == 0 by {
            assert(out[j + k] == 0);
        }
    }
}

proof fn lemma_vote_shift(
    d: Seq<u8>,
    out: Seq<u8>,
    t: Truncation,
    locs: Seq<(int, int)>,
    i: int,
    checks: nat,
    ok: nat,
    tried: nat,
)
    requires
        0 <= i,
        restored(d, out, t),
        in_media(locs, t),
        forall|j: int| i <= j < locs.len() ==> settled(#[trigger] locs[j], t, out.len() as int),
    ensures
        vote(out, locs, i, 0, checks, ok, tried) == vote(
            d,
            locs,
            i,
            t.cut_bytes,
            checks,
            ok,
            tried,
        ),
    decreases locs.len() - i,
{
    let k = t.cut_bytes;
    if i < locs.len() {
        let (off, size) = locs[i];
        assert(settled(locs[i], t, out.len() as int));
        if off < k {
            assert(erased(out, off, size));
            lemma_vote_shift(d, out, t, locs, i + 1, checks, ok, tried);
        } else if off - k + size <= d.len() {
            lemma_sample_shift(d, out, t, off, size);
            let ok2 = if nals_fill(d, off - k, size, 0, 0) {
                ok + 1
            } else {
                ok
            };
            lemma_vote_shift(d, out, t, locs, i + 1, checks, ok, tried);
            lemma_vote_shift(d, out, t, locs, i + 1, checks, ok2, tried + 1);
        }
    }
}

/// One more vote for it does not turn a vote that carries.
proof fn lemma_vote_grows(
    d: Seq<u8>,
    locs: Seq<(int, int)>,
    i: int,
    k: int,
    checks: nat,
    ok: nat,
    tried: nat,
)
    requires
        vote(d, locs, i, k, checks, ok, tried),
    ensures
        vote(d, locs, i, k, checks, ok + 1, tried),
    decreases locs.len() - i,
{
    if 0 <= i < locs.len() {
        let (off, size) = locs[i];
        let pos = off - k;
        if off < k || (pos + size <= d.len() && erased(d, pos, size)) {
            lemma_vote_grows(d, locs, i + 1, k, checks, ok, tried);
        } else if pos + size <= d.len() && tried + 1 < checks {
            let ok2 = if nals_fill(d, pos, size, 0, 0) {
                ok + 1
            } else {
                ok
            };
            lemma_vote_grows(d, locs, i + 1, k, checks, ok2, tried + 1);
        }
    }
}

/// The cut runs through a sample that ends in the file.
pub open spec fn torn(loc: (int, int), t: Truncation, len: int) -> bool {
    let (off, size) = loc;
    off < t.cut_bytes && off + size <= len
}

/// A vote that carries with one more vote against it, if it is not closed by then.
spec fn carries_against(
    d: Seq<u8>,
    locs: Seq<(int, int)>,
    i: int,
    k: int,
    checks: nat,
    ok: nat,
    tried: nat,
) -> bool {
    if tried >= checks {
        crate::mp4::carried_vote(ok, tried)
    } else {
        vote(d, locs, i, k, checks, ok, tried)
    }
}

/// A vote that carries with one more vote against it carries in the rebuilt image, where
/// the `one`th sample may vote that abstained.
proof fn lemma_vote_with_one_torn(
    d: Seq<u8>,
    out: Seq<u8>,
    t: Truncation,
    locs: Seq<(int, int)>,
    i: int,
    one: int,
    checks: nat,
    ok: nat,
    tried: nat,
)
    requires
        0 <= i <= one < locs.len(),
        restored(d, out, t),
        in_media(locs, t),
        tried < checks,
        torn(locs[one], t, out.len() as int),
        forall|j: int|
            i <= j < locs.len() && j != one ==> settled(#[trigger] locs[j], t, out.len() as int),
        vote(d, locs, i, t.cut_bytes, checks, ok, tried),
        carries_against(d, locs, i, t.cut_bytes, checks, ok, tried + 1),
    ensures
        vote(out, locs, i, 0, checks, ok, tried),
    decreases locs.len() - i,
{
    let k = t.cut_bytes;
    let (off, size) = locs[i];
    if i == one {
        lemma_vote_shift(d, out, t, locs, i + 1, checks, ok, tried);
        lemma_vote_shift(d, out, t, locs, i + 1, checks, ok, tried + 1);
        lemma_vote_shift(d, out, t, locs, i + 1, checks, ok + 1, tried + 1);
        if tried + 1 < checks {
            lemma_vote_grows(d, locs, i + 1, k, checks, ok, tried + 1);
        }
    } else {
        assert(settled(locs[i], t, out.len() as int));
        if off < k {
            assert(erased(out, off, size));
            lemma_vote_with_one_torn(d, out, t, locs, i + 1, one, checks, ok, tried);
        } else if off - k + size <= d.len() {
            lemma_sample_shift(d, out, t, off, size);
            let ok2 = if nals_fill(d, off - k, size, 0, 0) {
                ok + 1
            } else {
                ok
            };
            if erased(d, off - k, size) {
                lemma_vote_with_one_torn(d, out, t, locs, i + 1, one, checks, ok, tried);
            } else if tried + 1 < checks {
                lemma_vote_with_one_torn(d, out, t, locs, i + 1, one, checks, ok2, tried + 1);
            }
        }
    }
}

proof fn lemma_anchor_lines_up(
    d: Seq<u8>,
    video: Option<Seq<(int, int)>>,
    mdats: Seq<Atom>,
    i: int,
    media_start: int,
)
    ensures
        anchored(d, video, mdats, i, media_start) matches Some(k) ==> k >= 0 && lines_up(d, video, k),
    decreases mdats.len() - i,
{
    if 0 <= i < mdats.len() {
        lemma_anchor_lines_up(d, video, mdats, i + 1, media_start);
    }
}

proof fn lemma_attributed_lines_up(d: Seq<u8>, locs: Seq<(int, int)>, q: int, j: int)
    ensures
        attributed(d, locs, q, j) matches Some(k) ==> k >= 0 && lines_up(d, Some(locs), k),
    decreases locs.len() - j,
{
    if 0 <= j < locs.len() && j < 64 {
        lemma_attributed_lines_up(d, locs, q, j + 1);
    }
}

proof fn lemma_correlated_lines_up(d: Seq<u8>, locs: Seq<(int, int)>, q: int)
    ensures
        correlated(d, locs, q) matches Some(k) ==> k >= 0 && lines_up(d, Some(locs), k),
    decreases d.len() - q,
{
    if 0 <= q && q + 5 < d.len() && q + 5 < 0x10_0000 {
        lemma_attributed_lines_up(d, locs, q, 0);
        lemma_correlated_lines_up(d, locs, q + 1);
    }
}

/// The cut that an analysis reports is one that the index agrees with.
pub proof fn law_reported_cut_lines_up(d: Seq<u8>, m: MoovTable, t: Truncation)
    requires
        moov_table(d) == Some(Some(m)),
        diagnosis(d) == Some(Diagnosis::HeadTruncated(t)),
    ensures
        t.cut_bytes >= 0,
        t.media_start == media_start_of(m.tracks),
        t.moov_orig == m.offset + t.cut_bytes,
        lines_up(d, video_locations(m.tracks), t.cut_bytes),
{
    let video = video_locations(m.tracks);
    let mdats = named(atoms(d), MDAT@);
    let list = before_index(mdats, m.offset, true) + before_index(mdats, m.offset, false);
    lemma_anchor_lines_up(d, video, list, 0, media_start_of(m.tracks));
    if let Some(locs) = video {
        lemma_correlated_lines_up(d, locs, 0);
    }
}

/// How many bytes stand in front of what survives in the rebuilt image.
pub open spec fn front_length(t: Truncation) -> int {
    if t.media_start - 8 < t.cut_bytes < t.media_start {
        t.media_start
    } else {
        t.cut_bytes
    }
}

/// No moov begins in what is put in front of the survivors, nor in the piece of an mdat
/// header that gives way to a new one.
pub open spec fn front_is_free(d: Seq<u8>, t: Truncation, out: Seq<u8>) -> bool {
    let lead = front_length(t);
    named(atoms_before(out, lead), MOOV@).len() == 0 && named(
        atoms_before(d, lead - t.cut_bytes),
        MOOV@,
    ).len() == 0
}

/// The index of a rebuilt image is the one that survived, where it stood before the cut.
pub proof fn law_rebuilt_index_is_back(d: Seq<u8>, m: MoovTable, t: Truncation)
    requires
        moov_table(d) == Some(Some(m)),
        0 <= t.cut_bytes,
        rebuilt(d, t) matches Some(Ok(out)) && front_is_free(d, t, out),
    ensures
        moov_table(rebuilt(d, t).unwrap().unwrap()) == Some(
            Some(MoovTable { offset: m.offset + t.cut_bytes, ..m }),
        ),
{
    let out = rebuilt(d, t).unwrap().unwrap();
    let k = t.cut_bytes;
    let lead = front_length(t);
    lemma_out_splits(d, t);
    lemma_index_back(d, out, m, lead, k);
}

proof fn lemma_out_splits(d: Seq<u8>, t: Truncation)
    requires
        0 <= t.cut_bytes,
        rebuilt(d, t) matches Some(Ok(out)),
    ensures
        ({
            let out = rebuilt(d, t).unwrap().unwrap();
            let lead = front_length(t);
            &&& t.cut_bytes <= lead <= out.len()
            &&& out.len() == t.cut_bytes + d.len()
            &&& out.skip(lead) == d.skip(lead - t.cut_bytes)
        }),
{
    let out = rebuilt(d, t).unwrap().unwrap();
    let lead = front_length(t);
    law_survivors_return(d, t);
    if lead == t.cut_bytes {
        assert(d.skip(0) =~= d);
    } else {
        assert(out.skip(lead) =~= d.skip(lead - t.cut_bytes));
    }
}

#[verifier::spinoff_prover]
#[verifier::rlimit(50)]
proof fn lemma_index_back(d: Seq<u8>, out: Seq<u8>, m: MoovTable, lead: int, k: int)
    requires
        moov_table(d) == Some(Some(m)),
        0 <= k <= lead <= out.len(),
        out.len() == k + d.len(),
        out.skip(lead) == d.skip(lead - k),
        named(atoms_before(out, lead), MOOV@).len() == 0,
        named(atoms_before(d, lead - k), MOOV@).len() == 0,
    ensures
        moov_table(out) == Some(Some(MoovTable { offset: m.offset + k, ..m })),
{
    lemma_index_behind(out, lead);
    lemma_index_behind(d, lead - k);
    lemma_moved_back(moov_table(d.skip(lead - k)), m, lead - k, lead);
}

proof fn lemma_moved_back(x: Option<Option<MoovTable>>, m: MoovTable, a: int, b: int)
    requires
        moov_moved(x, a) == Some(Some(m)),
    ensures
        moov_moved(x, b) == Some(Some(MoovTable { offset: m.offset + b - a, ..m })),
{
}

/// All samples are settled but one at most, which the cut runs through; where there is
/// one, the vote carries with one more vote against it.
pub open spec fn video_in_place(d: Seq<u8>, locs: Seq<(int, int)>, t: Truncation) -> bool {
    let len = t.cut_bytes + d.len();
    &&& forall|j: int|
        0 <= j < locs.len() ==> settled(#[trigger] locs[j], t, len) || torn(locs[j], t, len)
    &&& forall|i: int, j: int|
        0 <= i < locs.len() && 0 <= j < locs.len() && !settled(#[trigger] locs[i], t, len)
            && !settled(#[trigger] locs[j], t, len) ==> i == j
    &&& (exists|j: int| 0 <= j < locs.len() && !settled(#[trigger] locs[j], t, len)) ==> vote(
        d,
        locs,
        0,
        t.cut_bytes,
        12,
        0,
        1,
    )
}

/// Ranges, `n` bytes further on.
pub open spec fn ranges_moved(r: Seq<(int, int)>, n: int) -> Seq<(int, int)> {
    r.map_values(|x: (int, int)| (x.0 + n, x.1 + n))
}

/// The samples that the index speaks of are where the cut puts them: with video, the vote
/// on it carries whatever became of the sample that the cut runs through; without, every
/// sample lies in an mdat, moved by the cut.
pub open spec fn samples_in_place(d: Seq<u8>, m: MoovTable, t: Truncation) -> bool {
    match video_locations(m.tracks) {
        Some(locs) => video_in_place(d, locs, t),
        None => within_mdat(
            m.tracks,
            0,
            ranges_moved(mdat_ranges(d, 0, d.len() as int), t.cut_bytes),
        ) == Some(true),
    }
}

/// A head-truncated file that is rebuilt is intact again. This holds where the surviving
/// structure walks to the end, no moov begins in what is put in front, and the samples
/// are where the cut puts them.
pub proof fn law_rebuilt_is_intact(d: Seq<u8>, m: MoovTable, t: Truncation)
    requires
        moov_table(d) == Some(Some(m)),
        diagnosis(d) == Some(Diagnosis::HeadTruncated(t)),
        t.cut_bytes + d.len() <= u64::MAX,
        rebuilt(d, t) matches Some(Ok(out)) && front_is_free(d, t, out),
        survivors_walk(d, t),
        samples_in_place(d, m, t),
    ensures
        diagnosis(rebuilt(d, t).unwrap().unwrap()) == Some(Diagnosis::Intact),
{
    let out = rebuilt(d, t).unwrap().unwrap();
    law_reported_cut_lines_up(d, m, t);
    law_rebuilt_index_is_back(d, m, t);
    law_rebuilt_walks_clean(d, t);
    let back = MoovTable { offset: t.moov_orig, ..m };
    if video_locations(m.tracks) is Some {
        lemma_samples_line_up(d, m.tracks, t);
        lemma_cut_ends_fit(d, m);
        lemma_intact(out, back);
    } else {
        lemma_anchored_cut(d, m, t);
        lemma_rebuilt_ranges(d, t);
        lemma_intact_without_video(out, back);
    }
}

proof fn lemma_samples_line_up(d: Seq<u8>, tracks: Seq<TrackTable>, t: Truncation)
    requires
        0 <= t.cut_bytes,
        rebuilt(d, t) matches Some(Ok(out)),
        lines_up(d, video_locations(tracks), t.cut_bytes),
        t.media_start == media_start_of(tracks),
        video_locations(tracks) matches Some(locs) && video_in_place(d, locs, t),
    ensures
        lines_up(rebuilt(d, t).unwrap().unwrap(), video_locations(tracks), 0),
{
    let locs = video_locations(tracks).unwrap();
    let out = rebuilt(d, t).unwrap().unwrap();
    let len = t.cut_bytes + d.len();
    law_survivors_return(d, t);
    assert forall|p: int| t.media_start <= p < t.cut_bytes implies #[trigger] out[p] == 0 by {
        law_lost_media_is_silence(d, t, p);
    }
    assert(restored(d, out, t));
    lemma_video_in_media(tracks);
    if exists|j: int| 0 <= j < locs.len() && !settled(#[trigger] locs[j], t, len) {
        let one = choose|j: int| 0 <= j < locs.len() && !settled(#[trigger] locs[j], t, len);
        assert forall|j: int| 0 <= j < locs.len() && j != one implies settled(
            #[trigger] locs[j],
            t,
            len,
        ) by {
            if !settled(locs[j], t, len) {
                assert(!settled(locs[one], t, len));
                assert(j == one);
            }
        }
        assert(torn(locs[one], t, len));
        lemma_vote_with_one_torn(d, out, t, locs, 0, one, 12, 0, 0);
    } else {
        lemma_vote_shift(d, out, t, locs, 0, 12, 0, 0);
    }
}

/// The samples of the video stand in the media.
proof fn lemma_video_in_media(tracks: Seq<TrackTable>)
    ensures
        video_locations(tracks) matches Some(locs) ==> forall|j: int|
            0 <= j < locs.len() ==> media_start_of(tracks) <= (#[trigger] locs[j]).0 && 0 <= locs[j].1,
{
    lemma_first_video_is_there(tracks, 0);
    if let Some(locs) = video_locations(tracks) {
        let i = choose|i: int|
            0 <= i < tracks.len() && first_video(tracks, 0) == Some(#[trigger] tracks[i]);
        assert forall|j: int| 0 <= j < locs.len() implies media_start_of(tracks) <= (
        #[trigger] locs[j]).0 && 0 <= locs[j].1 by {
            law_media_starts_lowest(tracks, i, j);
        }
    }
}

proof fn lemma_first_video_is_there(tracks: Seq<TrackTable>, i: int)
    ensures
        first_video(tracks, i) is Some ==> exists|k: int|
            0 <= k < tracks.len() && first_video(tracks, i) == Some(#[trigger] tracks[k]),
    decreases tracks.len() - i,
{
    if 0 <= i < tracks.len() {
        if table_is_video(tracks[i]) {
            assert(first_video(tracks, i) == Some(tracks[i]));
        } else {
            lemma_first_video_is_there(tracks, i + 1);
        }
    }
}

proof fn lemma_cut_ends_fit(d: Seq<u8>, m: MoovTable)
    requires
        moov_table(d) == Some(Some(m)),
        diagnosis(d) is Some,
        video_locations(m.tracks) is Some,
    ensures
        ends_fit(video_locations(m.tracks).unwrap()),
{
}

proof fn lemma_intact(out: Seq<u8>, m: MoovTable)
    requires
        moov_table(out) == Some(Some(m)),
        walks_clean(out),
        video_locations(m.tracks) matches Some(locs) && ends_fit(locs),
        lines_up(out, video_locations(m.tracks), 0),
    ensures
        diagnosis(out) == Some(Diagnosis::Intact),
{
}

proof fn lemma_intact_without_video(out: Seq<u8>, m: MoovTable)
    requires
        moov_table(out) == Some(Some(m)),
        walks_clean(out),
        video_locations(m.tracks) is None,
        within_mdat(m.tracks, 0, mdat_ranges(out, 0, out.len() as int)) == Some(true),
    ensures
        diagnosis(out) == Some(Diagnosis::Intact),
{
}

/// Without video the cut is that of an mdat header, so only structure was cut.
proof fn lemma_anchored_cut(d: Seq<u8>, m: MoovTable, t: Truncation)
    requires
        moov_table(d) == Some(Some(m)),
        diagnosis(d) == Some(Diagnosis::HeadTruncated(t)),
        video_locations(m.tracks) is None,
    ensures
        t.cut_bytes <= t.media_start - 8,
        t.cut_bytes <= t.moov_orig,
{
    let n = d.len() as int;
    let mdats = named(atoms(d), MDAT@);
    let a = before_index(mdats, m.offset, true);
    let b = before_index(mdats, m.offset, false);
    lemma_atoms_inside(d, n);
    lemma_named_inside(d, atoms(d), MDAT@);
    lemma_before_inside(d, mdats, m.offset, true);
    lemma_before_inside(d, mdats, m.offset, false);
    assert forall|i: int| 0 <= i < (a + b).len() implies 0 <= (#[trigger] (a + b)[i]).offset by {
        if i < a.len() {
            assert((a + b)[i] == a[i]);
        } else {
            assert((a + b)[i] == b[i - a.len()]);
        }
    }
    lemma_anchor_before_media(d, None, a + b, 0, media_start_of(m.tracks));
    let v = named(atoms(d), MOOV@);
    lemma_named_inside(d, atoms(d), MOOV@);
    lemma_likeliest_inside(d, v);
    lemma_first_moov_offset(d, likeliest_first(v), 0);
}

proof fn lemma_before_inside(d: Seq<u8>, all: Seq<Atom>, offset: int, chains: bool)
    requires
        inside(d, all),
    ensures
        inside(d, before_index(all, offset, chains)),
    decreases all.len(),
{
    if all.len() > 0 {
        lemma_before_inside(d, all.drop_last(), offset, chains);
    }
}

proof fn lemma_anchor_before_media(
    d: Seq<u8>,
    video: Option<Seq<(int, int)>>,
    mdats: Seq<Atom>,
    i: int,
    media_start: int,
)
    requires
        forall|j: int| 0 <= j < mdats.len() ==> 0 <= (#[trigger] mdats[j]).offset,
    ensures
        anchored(d, video, mdats, i, media_start) matches Some(k) ==> k <= media_start - 8,
    decreases mdats.len() - i,
{
    if 0 <= i < mdats.len() {
        assert(0 <= mdats[i].offset);
        lemma_anchor_before_media(d, video, mdats, i + 1, media_start);
    }
}

proof fn lemma_first_moov_offset(d: Seq<u8>, v: Seq<Atom>, i: int)
    requires
        inside(d, v),
    ensures
        first_moov(d, v, i) matches Some(Some(m)) ==> 0 <= m.offset,
    decreases v.len() - i,
{
    lemma_first_moov_step(d, v, i);
    if 0 <= i < v.len() {
        lemma_first_moov_offset(d, v, i + 1);
    }
}

proof fn lemma_ranges_step(d: Seq<u8>, p: int, e: int)
    ensures
        mdat_ranges(d, p, e) == match box_at(d, p, e) {
            Some(b) => (if b.fourcc == MDAT@ {
                seq![(b.body_start, b.body_end)]
            } else {
                seq![]
            }) + mdat_ranges(d, b.body_end, e),
            None => seq![],
        },
{
    if let Some(b) = box_at(d, p, e) {
        let rest = mdat_ranges(d, b.body_end, e);
        assert(Seq::<(int, int)>::empty() + rest =~= rest);
    }
}

proof fn lemma_ranges_moved(a: Seq<u8>, d: Seq<u8>, p: int)
    requires
        p >= 0,
    ensures
        mdat_ranges(a + d, a.len() + p, (a + d).len() as int) == ranges_moved(
            mdat_ranges(d, p, d.len() as int),
            a.len() as int,
        ),
    decreases d.len() - p,
{
    let k = a.len() as int;
    let n = d.len() as int;
    lemma_box_moved(a, d, p, n);
    lemma_ranges_step(d, p, n);
    lemma_ranges_step(a + d, k + p, k + n);
    match box_at(d, p, n) {
        Some(b) => {
            lemma_ranges_moved(a, d, b.body_end);
            let rest = mdat_ranges(d, b.body_end, n);
            let one = if b.fourcc == MDAT@ {
                seq![(b.body_start, b.body_end)]
            } else {
                seq![]
            };
            assert(ranges_moved(one + rest, k) =~= ranges_moved(one, k) + ranges_moved(rest, k));
            if b.fourcc == MDAT@ {
                assert(ranges_moved(one, k) =~= seq![(b.body_start + k, b.body_end + k)]);
            } else {
                assert(ranges_moved(one, k) =~= Seq::<(int, int)>::empty());
            }
        },
        None => {
            assert(ranges_moved(Seq::empty(), k) =~= Seq::<(int, int)>::empty());
        },
    }
}

/// A synthesized prefix holds no mdat.
proof fn lemma_prefix_ranges(len: int, rest: Seq<u8>)
    requires
        prefix_of(len) is Some,
        len <= u64::MAX,
    ensures
        ({
            let d = prefix_of(len).unwrap() + rest;
            mdat_ranges(d, 0, d.len() as int) == mdat_ranges(d, len, d.len() as int)
        }),
{
    let d = prefix_of(len).unwrap() + rest;
    let n = d.len() as int;
    law_prefix_length(len);
    let none = Seq::<u8>::empty();
    assert(FREE@[0] == 0x66 && FTYP@[0] == 0x66 && MDAT@[0] == 0x6d);
    if len >= 28 {
        lemma_box_lengths(len - 20);
        let tail = FTYP@ + ISOM@ + be32_bytes(0x200) + ISOM@ + free_box(len - 20) + rest;
        assert(d =~= none + be32_bytes(20) + tail);
        crate::bytes::lemma_be32_roundtrip(none, 20, tail);
        assert(d.subrange(4, 8) =~= FTYP@);
        assert(box_at(d, 0, n) matches Some(b) && b.body_end == 20 && b.fourcc == FTYP@);
        assert(d =~= ftyp_box() + free_box(len - 20) + rest);
        lemma_written_box(ftyp_box(), len - 20, rest);
        assert(mdat_ranges(d, 0, n) == mdat_ranges(d, 20, n));
        assert(mdat_ranges(d, 20, n) == mdat_ranges(d, len, n));
    } else {
        lemma_box_lengths(len);
        assert(d =~= none + free_box(len) + rest);
        lemma_written_box(none, len, rest);
    }
}

proof fn lemma_rebuilt_ranges(d: Seq<u8>, t: Truncation)
    requires
        0 <= t.cut_bytes <= u64::MAX,
        t.cut_bytes <= t.media_start - 8,
        t.cut_bytes <= t.moov_orig,
        rebuilt(d, t) matches Some(Ok(out)),
    ensures
        ({
            let out = rebuilt(d, t).unwrap().unwrap();
            mdat_ranges(out, 0, out.len() as int) == ranges_moved(
                mdat_ranges(d, 0, d.len() as int),
                t.cut_bytes,
            )
        }),
{
    let k = t.cut_bytes;
    law_prefix_length(k);
    lemma_prefix_ranges(k, d);
    lemma_ranges_moved(prefix_of(k).unwrap(), d, 0);
}

} // verus!
