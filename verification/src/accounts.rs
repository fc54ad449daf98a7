//! What a transplant reports: playback starts at a keyframe, gaps are cut into whole samples, and
//! what was recovered and what was dropped add up to what was there.
use crate::aac::{aac_gaps, opens_like_aac, rate_index};
use crate::donors::played;
use crate::forensics::Atom;
use crate::fourcc::MDAT;
use crate::transplant::{
    aac_bytes, counted_chunks, first_sync, gap_bytes, largest_mdat, media_of, media_parts,
    playable, sample_total, splittable, sync_numbers, ticks_to_ms, transplanted, whole_samples,
    Organs, Parts, Unit,
};
use crate::walks::{law_chunks_behind_the_cut_are_kept, law_first_sync_is_the_first};
use vstd::prelude::*;

verus! {

// ---------------------------------------------------------------------------
// What is played
// ---------------------------------------------------------------------------

/// Everything is played where that is asked for, or where there is no video. Else playback
/// starts with the first keyframe, with the gaps behind its start: what comes before is
/// counted, and nothing is played where there is no keyframe.
pub proof fn law_playback_starts_at_the_first_keyframe(p: Parts, keep_preroll: bool, n: int)
    requires
        0 <= n <= p.video.len(),
        forall|i: int| 0 <= i < n ==> !(#[trigger] p.video[i]).sync,
        n < p.video.len() ==> p.video[n].sync,
    ensures
        keep_preroll || p.video.len() == 0 ==> playable(p, keep_preroll) == Some((p, 0int)),
        !keep_preroll && n == p.video.len() && n > 0 ==> playable(p, keep_preroll) is None,
        !keep_preroll && n < p.video.len() ==> (playable(p, keep_preroll) matches Some((q, dropped))
            && {
            &&& dropped == n
            &&& q.video == p.video.skip(n)
            &&& q.torn == p.torn
            &&& n == 0 ==> q.gaps == p.gaps
            &&& n > 0 ==> q.gaps == p.gaps.filter(|g: (int, int)| g.0 >= p.video[n].off)
        }),
{
    law_first_sync_is_the_first(p.video, 0);
    lemma_first_sync_at(p.video, 0, n);
    if n < p.video.len() {
        law_chunks_behind_the_cut_are_kept(p.gaps, p.video[n].off);
        assert(p.video.skip(0) =~= p.video);
    }
}

proof fn lemma_first_sync_at(v: Seq<Unit>, i: int, n: int)
    requires
        0 <= i <= n <= v.len(),
        forall|j: int| i <= j < n ==> !(#[trigger] v[j]).sync,
        n < v.len() ==> v[n].sync,
    ensures
        first_sync(v, i) == if n < v.len() {
            Some(n)
        } else {
            None
        },
    decreases n - i,
{
    if i < n {
        lemma_first_sync_at(v, i + 1, n);
    }
}

/// As many sync samples are listed as there are keyframes, each by its number, counted from one.
pub proof fn law_keyframes_are_numbered_from_one(v: Seq<Unit>)
    ensures
        sync_numbers(v).len() == v.filter(|u: Unit| u.sync).len(),
        forall|k: int|
            0 <= k < sync_numbers(v).len() ==> 1 <= #[trigger] sync_numbers(v)[k] <= v.len()
                && v[sync_numbers(v)[k] - 1].sync,
        forall|k: int, l: int|
            0 <= k < l < sync_numbers(v).len() ==> #[trigger] sync_numbers(v)[k]
                < #[trigger] sync_numbers(v)[l],
    decreases v.len(),
{
    reveal(Seq::filter);
    if v.len() > 0 {
        let head = v.drop_last();
        law_keyframes_are_numbered_from_one(head);
        let before = sync_numbers(head);
        assert forall|k: int| 0 <= k < sync_numbers(v).len() implies 1
            <= #[trigger] sync_numbers(v)[k] <= v.len() && v[sync_numbers(v)[k] - 1].sync by {
            if k < before.len() {
                assert(sync_numbers(v)[k] == before[k]);
                assert(head[before[k] - 1] == v[before[k] - 1]);
            }
        }
        assert forall|k: int, l: int| 0 <= k < l < sync_numbers(v).len() implies
            #[trigger] sync_numbers(v)[k] < #[trigger] sync_numbers(v)[l] by {
            assert(sync_numbers(v)[k] == before[k]);
            if l < before.len() {
                assert(sync_numbers(v)[l] == before[l]);
            }
        }
    }
}

// ---------------------------------------------------------------------------
// Gaps
// ---------------------------------------------------------------------------

/// A gap holds as many samples as fit in it, whole; one that is too short for any is no chunk.
/// What is left over at the ends is less than a sample for each gap.
pub proof fn law_gaps_are_cut_into_whole_samples(gaps: Seq<(int, int)>, size: u32)
    requires
        size > 0,
        forall|i: int|
            0 <= i < gaps.len() ==> 0 <= (#[trigger] gaps[i]).1 < 0x1_0000_0000 * size,
    ensures
        counted_chunks(gaps, size) == gaps.filter(|g: (int, int)| g.1 >= size).map_values(
            |g: (int, int)| (g.0, g.1 / size as int),
        ),
        0 <= gap_bytes(gaps) - size * sample_total(counted_chunks(gaps, size)),
        gaps.len() > 0 ==> gap_bytes(gaps) - size * sample_total(counted_chunks(gaps, size))
            < gaps.len() * size,
    decreases gaps.len(),
{
    reveal(Seq::filter);
    let big = |g: (int, int)| g.1 >= size;
    let cut = |g: (int, int)| (g.0, g.1 / size as int);
    if gaps.len() == 0 {
        assert(counted_chunks(gaps, size) =~= gaps.filter(big).map_values(cut));
        assert(size * 0 == 0) by (nonlinear_arith);
    } else {
        let head = gaps.drop_last();
        let (off, len) = gaps.last();
        assert forall|i: int| 0 <= i < head.len() implies 0 <= (#[trigger] head[i]).1
            < 0x1_0000_0000 * size by {
            assert(head[i] == gaps[i]);
        }
        law_gaps_are_cut_into_whole_samples(head, size);
        assert(gaps[gaps.len() - 1] == gaps.last());
        let n = len / size as int;
        vstd::arithmetic::div_mod::lemma_fundamental_div_mod(len, size as int);
        vstd::arithmetic::div_mod::lemma_mod_bound(len, size as int);
        assert(n < 0x1_0000_0000 && n >= 0) by (nonlinear_arith)
            requires
                len == size * n + len % (size as int),
                0 <= len % (size as int) < size,
                0 <= len < 0x1_0000_0000 * size,
                size > 0,
        ;
        vstd::arithmetic::div_mod::lemma_small_mod(n as nat, 0x1_0000_0000);
        assert(whole_samples(len, size) == n);
        assert(len >= size <==> n > 0) by (nonlinear_arith)
            requires
                len == size * n + len % (size as int),
                0 <= len % (size as int) < size,
                n >= 0,
        ;
        let before = counted_chunks(head, size);
        let all = counted_chunks(gaps, size);
        assert(all =~= gaps.filter(big).map_values(cut));
        let m = sample_total(before);
        if n > 0 {
            assert(all.drop_last() =~= before);
            assert(sample_total(all) == m + n);
        }
        assert(size * (m + n) == size * m + size * n) by (nonlinear_arith);
        assert(size * (m + 0) == size * m);
        assert(gaps.len() * size == head.len() * size + size) by (nonlinear_arith)
            requires
                gaps.len() == head.len() + 1,
        ;
        if n == 0 {
            assert(size * n == 0) by (nonlinear_arith)
                requires
                    n == 0,
            ;
        }
        if head.len() == 0 {
            assert(gap_bytes(head) == 0);
            assert(before.len() == 0);
            assert(size * 0 == 0) by (nonlinear_arith);
            assert(head.len() * size == 0) by (nonlinear_arith)
                requires
                    head.len() == 0,
            ;
        }
    }
}

/// Whether a gap looks like AAC: of more than sixteen bytes, of which the first three bits say
/// that a channel pair follows.
pub open spec fn pair_follows(media: Seq<u8>, gap: (int, int)) -> bool {
    gap.1 > 16 && 32 <= media[gap.0] < 64
}

/// The AAC chunks among the gaps are those that look like it, and their bytes are theirs.
pub proof fn law_aac_chunks_are_told_apart(media: Seq<u8>, gaps: Seq<(int, int)>)
    ensures
        aac_gaps(media, gaps) == gaps.filter(|g: (int, int)| pair_follows(media, g)).len(),
        aac_bytes(media, gaps) == gap_bytes(
            gaps.filter(|g: (int, int)| pair_follows(media, g)),
        ),
    decreases gaps.len(),
{
    reveal(Seq::filter);
    let f = |g: (int, int)| pair_follows(media, g);
    if gaps.len() > 0 {
        law_aac_chunks_are_told_apart(media, gaps.drop_last());
        let g = gaps.last();
        assert(opens_like_aac(media, g) == f(g));
        let before = gaps.drop_last().filter(f);
        if f(g) {
            assert(gaps.filter(f) == before.push(g));
            assert(before.push(g).drop_last() =~= before);
        }
    }
}

// ---------------------------------------------------------------------------
// The report
// ---------------------------------------------------------------------------

/// A report balances. Samples and keyframes are those that are played; of the bytes in the gaps,
/// those of whole samples, or of salvaged chunks, and those dropped are all of them; and every
/// gap is a salvaged chunk or a skipped one. AAC is salvaged where a rate that has an index is
/// given, no other audio was recovered, and some gap looks like it.
pub proof fn law_reports_balance(d: Seq<u8>, o: Organs, keep_preroll: bool, rate: Option<u32>)
    requires
        transplanted(d, o, keep_preroll, rate) is Ok,
    ensures
        ({
            let g = transplanted(d, o, keep_preroll, rate).unwrap();
            let (media, q) = played(d, o, keep_preroll);
            let (start, end, head_torn) = media_of(d);
            &&& g.video_samples == q.video.len()
            &&& o.video is Some ==> g.sync_samples == q.video.filter(|u: Unit| u.sync).len()
            &&& g.video_samples + g.dropped_leading == media_parts(media, head_torn, o).video.len()
            &&& g.torn_bytes == media_parts(media, head_torn, o).torn
            &&& g.audio_adts is Some <==> {
                &&& g.audio_samples == 0
                &&& rate matches Some(sr) && rate_index(sr) is Some
                &&& q.gaps.filter(|x: (int, int)| pair_follows(media, x)).len() > 0
            }
            &&& g.audio_adts is Some ==> {
                &&& gap_bytes(q.gaps.filter(|x: (int, int)| pair_follows(media, x)))
                    + g.audio_bytes_dropped == gap_bytes(q.gaps)
                &&& g.aac_chunks + g.aac_skipped == q.gaps.len()
                &&& g.aac_chunks == q.gaps.filter(|x: (int, int)| pair_follows(media, x)).len()
            }
            &&& g.audio_adts is None ==> {
                &&& g.aac_chunks == 0 && g.aac_skipped == 0
                &&& match o.audio {
                    Some(a) => match a.constant_sample_size {
                        Some(size) => size * g.audio_samples + g.audio_bytes_dropped == gap_bytes(
                            q.gaps,
                        ),
                        None => g.audio_samples == 0 && g.audio_bytes_dropped == gap_bytes(q.gaps),
                    },
                    None => g.audio_samples == 0 && g.audio_bytes_dropped == gap_bytes(q.gaps),
                }
            }
        }),
{
    let (start, end, head_torn) = media_of(d);
    let (media, q) = played(d, o, keep_preroll);
    let p = media_parts(media, head_torn, o);
    law_first_sync_is_the_first(p.video, 0);
    law_keyframes_are_numbered_from_one(q.video);
    law_aac_chunks_are_told_apart(media, q.gaps);
    assert(sample_total(Seq::<(int, int)>::empty()) == 0);
    lemma_total_behind(q.gaps, o);
}

proof fn lemma_total_behind(gaps: Seq<(int, int)>, o: Organs)
    ensures
        sample_total(splittable(gaps, o)) >= 0,
{
    if let Some(a) = o.audio {
        if let Some(size) = a.constant_sample_size {
            lemma_chunk_total(gaps, size);
        }
    }
}

proof fn lemma_chunk_total(gaps: Seq<(int, int)>, size: u32)
    ensures
        sample_total(counted_chunks(gaps, size)) >= 0,
    decreases gaps.len(),
{
    if gaps.len() > 0 {
        lemma_chunk_total(gaps.drop_last(), size);
        let before = counted_chunks(gaps.drop_last(), size);
        let all = counted_chunks(gaps, size);
        if whole_samples(gaps.last().1, size) > 0 {
            assert(all.drop_last() =~= before);
        }
    }
}

/// A recovered file lasts as long as its longest track: as long as video and audio each do, in
/// whole milliseconds, and no longer than one of them.
pub proof fn law_files_last_as_long_as_their_longest_track(
    d: Seq<u8>,
    o: Organs,
    keep_preroll: bool,
    rate: Option<u32>,
)
    requires
        transplanted(d, o, keep_preroll, rate) is Ok,
    ensures
        ({
            let g = transplanted(d, o, keep_preroll, rate).unwrap();
            let video = match o.video {
                Some(v) => ticks_to_ms(
                    g.video_samples * v.sample_delta,
                    v.timescale,
                ),
                None => 0,
            };
            let audio = match o.audio {
                Some(a) => if g.audio_samples > 0 {
                    ticks_to_ms(g.audio_samples * a.sample_delta, a.timescale)
                } else {
                    0
                },
                None => 0,
            };
            &&& g.duration_ms >= video && g.duration_ms >= audio
            &&& g.duration_ms == video || g.duration_ms == audio
        }),
{
    let (media, q) = played(d, o, keep_preroll);
    lemma_total_behind(q.gaps, o);
    assert(sample_total(Seq::<(int, int)>::empty()) == 0);
    if let Some(v) = o.video {
        assert(q.video.len() * v.sample_delta >= 0) by (nonlinear_arith);
        lemma_ms(q.video.len() * v.sample_delta, v.timescale);
    }
}

proof fn lemma_ms(ticks: int, timescale: u32)
    requires
        ticks >= 0,
    ensures
        ticks_to_ms(ticks, timescale) >= 0,
{
    let t: int = if timescale == 0 {
        1
    } else {
        timescale as int
    };
    assert(ticks * 1000 / t >= 0) by {
        vstd::arithmetic::div_mod::lemma_div_pos_is_pos(ticks * 1000, t);
    }
}

// ---------------------------------------------------------------------------
// Where media is
// ---------------------------------------------------------------------------

/// The payload of a file without an index is that of its largest mdat that chains: none is
/// larger, and none behind it is as large.
pub proof fn law_the_largest_mdat_holds_the_media(all: Seq<Atom>)
    ensures
        match largest_mdat(all) {
            Some(a) => exists|i: int|
                0 <= i < all.len() && #[trigger] all[i] == a && a.fourcc == seq![
                    0x6du8,
                    0x64,
                    0x61,
                    0x74,
                ] && a.chains && forall|j: int|
                    0 <= j < all.len() && j != i && (#[trigger] all[j]).fourcc == a.fourcc
                        && all[j].chains ==> all[j].size < a.size || all[j].size == a.size && j < i,
            None => forall|j: int|
                0 <= j < all.len() && (#[trigger] all[j]).fourcc == seq![0x6du8, 0x64, 0x61, 0x74]
                    ==> !all[j].chains,
        },
    decreases all.len(),
{
    assert(MDAT@ =~= seq![0x6du8, 0x64, 0x61, 0x74]);
    if all.len() > 0 {
        let head = all.drop_last();
        let n = all.len() - 1;
        law_the_largest_mdat_holds_the_media(head);
        assert forall|j: int| 0 <= j < n implies all[j] == head[j] by {}
        assert(all[n] == all.last());
        if let Some(a) = largest_mdat(head) {
            let i = choose|i: int|
                0 <= i < head.len() && #[trigger] head[i] == a && a.chains && forall|j: int|
                    0 <= j < head.len() && j != i && (#[trigger] head[j]).fourcc == a.fourcc
                        && head[j].chains ==> head[j].size < a.size || head[j].size == a.size && j
                        < i;
            assert(all[i] == a);
        }
    }
}

} // verus!
