//! What an index means: where its samples lie, when they are decoded, and how much of them a
//! cut destroys, each told by how samples follow one another.
use crate::mp4::{
    damaged, diagnosis, locations, locations_from, lowest_of, lowest_start, next_sample, per_chunk,
    per_chunk_from, run_locations, sync_list, times, times_from, total_damaged, Diagnosis,
    TrackTable, Truncation,
};
use vstd::prelude::*;
use vstd::string::*;

verus! {

// ---------------------------------------------------------------------------
// Samples in chunks
// ---------------------------------------------------------------------------

/// Entry `i` of an stsc governs a chunk: it starts at or before it, and the next one behind.
pub open spec fn governs(stsc: Seq<(u32, u32)>, i: int, chunk: int) -> bool {
    &&& 0 <= i < stsc.len()
    &&& stsc[i].0 <= chunk
    &&& i + 1 < stsc.len() ==> chunk < stsc[i + 1].0
}

/// The entries of an stsc start one behind the other.
pub open spec fn entries_ascend(stsc: Seq<(u32, u32)>) -> bool {
    forall|a: int, b: int|
        0 <= a < b < stsc.len() ==> (#[trigger] stsc[a]).0 < (#[trigger] stsc[b]).0
}

proof fn lemma_governs(stsc: Seq<(u32, u32)>, k: int, per: int, i: int, chunk: int)
    requires
        entries_ascend(stsc),
        governs(stsc, i, chunk),
        0 <= k <= i + 1,
        k == i + 1 ==> per == stsc[i].1,
    ensures
        per_chunk_from(stsc, k, per, chunk) == stsc[i].1,
    decreases i + 1 - k,
{
    if k <= i {
        if k < i {
            assert(stsc[k].0 < stsc[i].0);
        }
        lemma_governs(stsc, k + 1, stsc[k].1 as int, i, chunk);
    }
}

/// A chunk holds as many samples as the entry that governs it says.
pub proof fn law_chunks_hold_what_their_entry_says(stsc: Seq<(u32, u32)>, i: int, chunk: int)
    requires
        entries_ascend(stsc),
        governs(stsc, i, chunk),
    ensures
        per_chunk(stsc, chunk) == stsc[i].1,
{
    lemma_governs(stsc, 0, stsc[0].1 as int, i, chunk);
}

/// How many samples the chunks in front of chunk `c` (0-based) hold.
pub open spec fn samples_before(t: TrackTable, c: int) -> int
    decreases c,
{
    if c <= 0 {
        0
    } else {
        samples_before(t, c - 1) + per_chunk(t.stsc, c)
    }
}

proof fn lemma_per_chunk(stsc: Seq<(u32, u32)>, chunk: int)
    ensures
        per_chunk(stsc, chunk) >= 0,
{
    if stsc.len() > 0 {
        lemma_per_chunk_from(stsc, 0, stsc[0].1 as int, chunk);
    }
}

proof fn lemma_per_chunk_from(stsc: Seq<(u32, u32)>, i: int, per: int, chunk: int)
    requires
        per >= 0,
    ensures
        per_chunk_from(stsc, i, per, chunk) >= 0,
    decreases stsc.len() - i,
{
    if 0 <= i < stsc.len() && stsc[i].0 <= chunk {
        lemma_per_chunk_from(stsc, i + 1, stsc[i].1 as int, chunk);
    }
}

proof fn lemma_run(sizes: Seq<u32>, off: int, sample: int, left: int, i: int)
    requires
        0 <= sample <= sizes.len(),
        0 <= left,
    ensures
        ({
            let run = run_locations(sizes, off, sample, left);
            &&& run.len() == (if left < sizes.len() - sample {
                left
            } else {
                sizes.len() - sample
            })
            &&& 0 <= i < run.len() ==> run[i].1 == sizes[sample + i]
            &&& run.len() > 0 ==> run[0].0 == off
            &&& 0 <= i < run.len() - 1 ==> run[i + 1].0 == run[i].0 + sizes[sample + i]
        }),
    decreases left,
{
    if left > 0 && sample < sizes.len() {
        let next = off + sizes[sample];
        let rest = run_locations(sizes, next, sample + 1, left - 1);
        lemma_run(sizes, next, sample + 1, left - 1, i - 1);
        lemma_run(sizes, next, sample + 1, left - 1, 0);
        let run = run_locations(sizes, off, sample, left);
        assert(run == seq![(off, sizes[sample] as int)] + rest);
        if 0 < i < run.len() {
            assert(run[i] == rest[i - 1]);
        }
        if 0 <= i < run.len() - 1 {
            assert(run[i + 1] == rest[i]);
        }
    }
}

/// The first sample of chunk `c`, if there are that many samples.
spec fn first_of(t: TrackTable, c: int) -> int {
    if samples_before(t, c) < t.sizes.len() {
        samples_before(t, c)
    } else {
        t.sizes.len() as int
    }
}

proof fn lemma_first_of(t: TrackTable, c: int)
    requires
        0 <= c,
    ensures
        0 <= first_of(t, c) <= t.sizes.len(),
        0 <= samples_before(t, c),
        next_sample(t.sizes, first_of(t, c), per_chunk(t.stsc, c + 1)) == first_of(t, c + 1),
    decreases c,
{
    lemma_per_chunk(t.stsc, c + 1);
    if c > 0 {
        lemma_first_of(t, c - 1);
        lemma_per_chunk(t.stsc, c);
    }
}

/// The locations from chunk `c` on are those behind the samples of the chunks before it.
proof fn lemma_from_chunk(t: TrackTable, c: int)
    requires
        0 <= c <= t.chunk_offsets.len(),
    ensures
        locations(t).len() >= first_of(t, c),
        locations(t).skip(first_of(t, c)) == locations_from(t, c, first_of(t, c)),
    decreases c,
{
    let all = locations(t);
    if c == 0 {
        assert(first_of(t, 0) == 0);
        assert(all.skip(0) =~= all);
    } else {
        let a = first_of(t, c - 1);
        let b = first_of(t, c);
        let n = per_chunk(t.stsc, c);
        lemma_from_chunk(t, c - 1);
        lemma_first_of(t, c - 1);
        lemma_per_chunk(t.stsc, c);
        let run = run_locations(t.sizes, t.chunk_offsets[c - 1] as int, a, n);
        let rest = locations_from(t, c, b);
        lemma_run(t.sizes, t.chunk_offsets[c - 1] as int, a, n, 0);
        assert(all.skip(a) == run + rest);
        assert(run.len() == b - a);
        assert(all.skip(b) =~= rest) by {
            assert forall|i: int| 0 <= i < rest.len() implies all.skip(b)[i] == rest[i] by {
                assert((run + rest)[run.len() + i] == rest[i]);
                assert(all.skip(a)[run.len() + i] == all[b + i]);
            }
            assert(all.skip(a).len() == run.len() + rest.len());
        }
    }
}

/// Samples lie in their chunks one behind the other: of the samples of chunk `c` (0-based), the
/// first stands at the chunk's offset, each next one where the one before it ends, and each
/// has its own size.
pub proof fn law_samples_lie_in_their_chunks(t: TrackTable, c: int, s: int)
    requires
        0 <= c < t.chunk_offsets.len(),
        samples_before(t, c) <= s < samples_before(t, c + 1),
        s < t.sizes.len(),
    ensures
        s < locations(t).len(),
        locations(t)[s].1 == t.sizes[s],
        s == samples_before(t, c) ==> locations(t)[s].0 == t.chunk_offsets[c],
        s > samples_before(t, c) ==> s - 1 >= 0 && locations(t)[s].0 == locations(t)[s - 1].0
            + t.sizes[s - 1],
{
    let all = locations(t);
    let a = first_of(t, c);
    let n = per_chunk(t.stsc, c + 1);
    lemma_first_of(t, c);
    lemma_from_chunk(t, c);
    lemma_per_chunk(t.stsc, c + 1);
    let off = t.chunk_offsets[c] as int;
    let run = run_locations(t.sizes, off, a, n);
    let rest = locations_from(t, c + 1, next_sample(t.sizes, a, n));
    assert(all.skip(a) == run + rest);
    lemma_run(t.sizes, off, a, n, s - a);
    lemma_run(t.sizes, off, a, n, s - a - 1);
    assert(run.len() > s - a);
    assert(all.skip(a)[s - a] == run[s - a]);
    assert(all.skip(a)[s - a] == all[s]);
    if s > a {
        assert(all.skip(a)[s - a - 1] == run[s - a - 1]);
        assert(all.skip(a)[s - a - 1] == all[s - 1]);
    }
}

/// An index has as many samples as sizes, unless its chunks hold fewer.
pub proof fn law_every_sample_in_a_chunk_has_a_place(t: TrackTable)
    ensures
        locations(t).len() == (if samples_before(t, t.chunk_offsets.len() as int) < t.sizes.len() {
            samples_before(t, t.chunk_offsets.len() as int)
        } else {
            t.sizes.len() as int
        }),
{
    let n = t.chunk_offsets.len() as int;
    lemma_from_chunk(t, n);
    lemma_first_of(t, n);
    assert(locations(t).skip(first_of(t, n)).len() == 0);
}

// ---------------------------------------------------------------------------
// Decode times
// ---------------------------------------------------------------------------

/// How many samples the first `e` runs of an stts hold.
pub open spec fn run_start(stts: Seq<(u32, u32)>, e: int) -> int
    decreases e,
{
    if e <= 0 {
        0
    } else {
        run_start(stts, e - 1) + stts[e - 1].0
    }
}

proof fn lemma_run_start(stts: Seq<(u32, u32)>, e: int)
    requires
        0 < e <= stts.len(),
    ensures
        run_start(stts, e) == stts[0].0 + run_start(stts.drop_first(), e - 1),
    decreases e,
{
    if e > 1 {
        lemma_run_start(stts, e - 1);
        assert(stts.drop_first()[e - 2] == stts[e - 1]);
    } else {
        assert(run_start(stts, 0) == 0);
        assert(run_start(stts.drop_first(), 0) == 0);
    }
}

proof fn lemma_run_start_order(stts: Seq<(u32, u32)>, e: int)
    requires
        0 <= e <= stts.len(),
    ensures
        run_start(stts, e) >= 0,
    decreases e,
{
    if e > 0 {
        lemma_run_start_order(stts, e - 1);
    }
}

proof fn lemma_times(stts: Seq<(u32, u32)>, t: int, e: int, s: int)
    requires
        0 <= e < stts.len(),
        run_start(stts, e) <= s < run_start(stts, e + 1),
    ensures
        times_from(stts, t).len() == run_start(stts, stts.len() as int),
        s < times_from(stts, t).len(),
        s + 1 < times_from(stts, t).len() ==> times_from(stts, t)[s + 1] - times_from(stts, t)[s]
            == stts[e].1,
        s == 0 ==> times_from(stts, t)[0] == t,
    decreases stts.len(),
{
    let (count, delta) = stts[0];
    let tail = stts.drop_first();
    let here = Seq::new(count as nat, |i: int| t + i * delta);
    let next = t + count * delta;
    let rest = times_from(tail, next);
    let all = times_from(stts, t);
    assert(all == here + rest);
    lemma_run_start(stts, stts.len() as int);
    lemma_run_start_order(stts, e);
    lemma_times_len(tail, next);
    lemma_run_start(stts, e + 1);
    if e == 0 {
        assert(run_start(tail, 0) == 0);
        assert(s < count);
        lemma_run_start_order(tail, tail.len() as int);
        if s + 1 < count {
            assert((s + 1) * delta == s * delta + delta) by (nonlinear_arith);
        } else if s + 1 < all.len() {
            assert(all[s + 1] == rest[0]);
            lemma_first_time(tail, next);
            assert((count - 1) * delta + delta == count * delta) by (nonlinear_arith);
        }
        if s == 0 {
            assert(0 * delta == 0) by (nonlinear_arith);
        }
    } else {
        lemma_run_start(stts, e);
        assert(tail[e - 1] == stts[e]);
        lemma_run_start_order(tail, e - 1);
        lemma_times(tail, next, e - 1, s - count);
        assert(all[s] == rest[s - count]);
        if s + 1 < all.len() {
            assert(all[s + 1] == rest[s + 1 - count]);
        }
        if s == 0 {
            assert(count == 0);
            assert(0 * delta == 0) by (nonlinear_arith);
        }
    }
}

proof fn lemma_times_len(stts: Seq<(u32, u32)>, t: int)
    ensures
        times_from(stts, t).len() == run_start(stts, stts.len() as int),
    decreases stts.len(),
{
    if stts.len() > 0 {
        let (count, delta) = stts[0];
        lemma_times_len(stts.drop_first(), t + count * delta);
        lemma_run_start(stts, stts.len() as int);
    }
}

proof fn lemma_first_time(stts: Seq<(u32, u32)>, t: int)
    ensures
        times_from(stts, t).len() > 0 ==> times_from(stts, t)[0] == t,
    decreases stts.len(),
{
    if stts.len() > 0 {
        let (count, delta) = stts[0];
        let here = Seq::new(count as nat, |i: int| t + i * delta);
        let rest = times_from(stts.drop_first(), t + count * delta);
        assert(times_from(stts, t) == here + rest);
        if count == 0 {
            assert(0 * delta == 0) by (nonlinear_arith);
            lemma_first_time(stts.drop_first(), t + count * delta);
            assert(here + rest =~= rest);
        } else {
            assert(here[0] == t + 0 * delta);
            assert(0 * delta == 0) by (nonlinear_arith);
        }
    }
}

/// Samples are decoded one after the other from tick 0 on: each sample of a run lasts as long
/// as the run says, and there are as many times as samples in the runs.
pub proof fn law_samples_last_as_their_run_says(t: TrackTable, e: int, s: int)
    requires
        0 <= e < t.stts.len(),
        run_start(t.stts, e) <= s < run_start(t.stts, e + 1),
    ensures
        times(t).len() == run_start(t.stts, t.stts.len() as int),
        s < times(t).len(),
        times(t)[0] == 0,
        s + 1 < times(t).len() ==> times(t)[s + 1] - times(t)[s] == t.stts[e].1,
{
    lemma_times(t.stts, 0, e, s);
    lemma_first_time(t.stts, 0);
    lemma_run_start_order(t.stts, e);
}

// ---------------------------------------------------------------------------
// What a cut destroys
// ---------------------------------------------------------------------------

/// The numbers of a track's sync samples: those listed, or all.
pub open spec fn sync_numbers_of(t: TrackTable) -> Seq<u32> {
    match t.sync_samples {
        Some(v) => v,
        None => Seq::new(t.sizes.len(), |i: int| (i + 1) as u32),
    }
}

/// A sync sample, by its number from 1 on, starts in the first `k` bytes.
pub open spec fn starts_in_cut(t: TrackTable, k: int) -> spec_fn(u32) -> bool {
    |n: u32| 1 <= n <= locations(t).len() && locations(t)[n - 1].0 < k
}

proof fn lemma_damaged(t: TrackTable, syncs: Seq<u32>, k: int, n: int)
    requires
        0 <= n <= syncs.len(),
    ensures
        damaged(syncs, locations(t), k, n) == syncs.take(n).filter(starts_in_cut(t, k)).len(),
    decreases n,
{
    reveal(Seq::filter);
    if n > 0 {
        lemma_damaged(t, syncs, k, n - 1);
        assert(syncs.take(n).drop_last() =~= syncs.take(n - 1));
        assert(syncs.take(n).last() == syncs[n - 1]);
    } else {
        assert(syncs.take(0) =~= Seq::<u32>::empty());
    }
}

proof fn lemma_one_video(tracks: Seq<TrackTable>, k: int, n: int, at: int)
    requires
        0 <= at < tracks.len(),
        0 <= n <= tracks.len(),
        tracks[at].handler == "vide"@,
        forall|j: int| 0 <= j < tracks.len() && j != at ==> (#[trigger] tracks[j]).handler != "vide"@,
    ensures
        total_damaged(tracks, k, n) == if n > at {
            damaged(
                sync_list(tracks[at]),
                locations(tracks[at]),
                k,
                sync_list(tracks[at]).len() as int,
            )
        } else {
            0
        },
    decreases n,
{
    if n > 0 {
        lemma_one_video(tracks, k, n - 1, at);
        let here = tracks[n - 1];
        assert(n - 1 != at ==> here.handler != "vide"@);
    }
}

proof fn lemma_lowest_attained(offsets: Seq<u64>)
    ensures
        lowest_of(offsets) matches Some(x) ==> exists|j: int|
            0 <= j < offsets.len() && #[trigger] offsets[j] == x,
    decreases offsets.len(),
{
    if offsets.len() > 0 {
        let head = offsets.drop_last();
        lemma_lowest_attained(head);
        let x = lowest_of(offsets).unwrap();
        if x == offsets.last() {
            assert(offsets[offsets.len() - 1] == x);
        } else {
            let j = choose|j: int| 0 <= j < head.len() && #[trigger] head[j] == x;
            assert(offsets[j] == x);
        }
    }
}

proof fn lemma_start_attained(tracks: Seq<TrackTable>)
    ensures
        lowest_start(tracks) matches Some(x) ==> exists|i: int, j: int|
            0 <= i < tracks.len() && 0 <= j < tracks[i].chunk_offsets.len()
                && #[trigger] tracks[i].chunk_offsets[j] == x,
    decreases tracks.len(),
{
    if tracks.len() > 0 {
        let head = tracks.drop_last();
        lemma_start_attained(head);
        lemma_lowest_attained(tracks.last().chunk_offsets);
        if let Some(x) = lowest_start(tracks) {
            let last = tracks.len() - 1;
            if lowest_of(tracks.last().chunk_offsets) == Some(x) {
                let j = choose|j: int|
                    0 <= j < tracks.last().chunk_offsets.len()
                        && #[trigger] tracks.last().chunk_offsets[j] == x;
                assert(tracks[last].chunk_offsets[j] == x);
            } else {
                let (i, j) = choose|i: int, j: int|
                    0 <= i < head.len() && 0 <= j < head[i].chunk_offsets.len()
                        && #[trigger] head[i].chunk_offsets[j] == x;
                assert(tracks[i].chunk_offsets[j] == x);
            }
        }
    }
}

/// What is reported lost is what the cut took: as many bytes as it reaches beyond the lowest
/// chunk of any track, which is where the media starts; the index stood as far back as it
/// stands now and as was cut; and with one video track, as many keyframes are damaged as it
/// has sync samples that start in the cut.
pub proof fn law_reported_damage_is_what_was_cut(d: Seq<u8>, t: Truncation)
    requires
        diagnosis(d) == Some(Diagnosis::HeadTruncated(t)),
    ensures
        t.media_bytes_lost == (if t.cut_bytes > t.media_start {
            t.cut_bytes - t.media_start
        } else {
            0
        }),
        forall|i: int, j: int|
            0 <= i < t.tracks.len() && 0 <= j < t.tracks[i].chunk_offsets.len() ==> t.media_start
                <= #[trigger] t.tracks[i].chunk_offsets[j],
        (exists|i: int|
            0 <= i < t.tracks.len() && (#[trigger] t.tracks[i]).chunk_offsets.len() > 0) ==> exists|
            i: int,
            j: int,
        |
            0 <= i < t.tracks.len() && 0 <= j < t.tracks[i].chunk_offsets.len()
                && #[trigger] t.tracks[i].chunk_offsets[j] == t.media_start,
        crate::mp4::moov_table(d) matches Some(Some(m)) && t.moov_orig == m.offset + t.cut_bytes
            && t.tracks == m.tracks,
        t.media_bytes_lost == 0 ==> t.damaged_keyframes == 0 && t.first_clean_keyframe_time is None,
        t.media_bytes_lost > 0 ==> forall|at: int|
            0 <= at < t.tracks.len() && (#[trigger] t.tracks[at]).handler == "vide"@ && (forall|
                j: int,
            |
                0 <= j < t.tracks.len() && j != at ==> (#[trigger] t.tracks[j]).handler != "vide"@)
                ==> t.damaged_keyframes == sync_numbers_of(t.tracks[at]).filter(
                starts_in_cut(t.tracks[at], t.cut_bytes),
            ).len(),
{
    let k = t.cut_bytes;
    let n = t.tracks.len() as int;
    assert forall|i: int, j: int|
        0 <= i < t.tracks.len() && 0 <= j < t.tracks[i].chunk_offsets.len() implies t.media_start
        <= #[trigger] t.tracks[i].chunk_offsets[j] by {
        crate::mp4::law_media_starts_lowest(t.tracks, i, j);
    }
    lemma_start_attained(t.tracks);
    if exists|i: int| 0 <= i < t.tracks.len() && (#[trigger] t.tracks[i]).chunk_offsets.len() > 0 {
        let i = choose|i: int|
            0 <= i < t.tracks.len() && (#[trigger] t.tracks[i]).chunk_offsets.len() > 0;
        lemma_start_is_some(t.tracks, i);
    }
    if t.media_bytes_lost > 0 {
        assert forall|at: int|
            0 <= at < t.tracks.len() && (#[trigger] t.tracks[at]).handler == "vide"@ && (forall|
                j: int,
            |
                0 <= j < t.tracks.len() && j != at ==> (#[trigger] t.tracks[j]).handler != "vide"@)
            implies t.damaged_keyframes == sync_numbers_of(t.tracks[at]).filter(
            starts_in_cut(t.tracks[at], k),
        ).len() by {
            let v = t.tracks[at];
            let syncs = sync_list(v);
            lemma_one_video(t.tracks, k, n, at);
            lemma_damaged(v, syncs, k, syncs.len() as int);
            assert(syncs.take(syncs.len() as int) =~= syncs);
            assert(syncs == sync_numbers_of(v));
        }
    }
}

proof fn lemma_start_is_some(tracks: Seq<TrackTable>, i: int)
    requires
        0 <= i < tracks.len(),
        tracks[i].chunk_offsets.len() > 0,
    ensures
        lowest_start(tracks) is Some,
    decreases tracks.len(),
{
    let last = tracks.last().chunk_offsets;
    if i < tracks.len() - 1 {
        lemma_start_is_some(tracks.drop_last(), i);
    }
    if last.len() > 0 {
        assert(lowest_of(last) is Some);
    }
}

} // verus!
