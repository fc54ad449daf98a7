//! What the search for a cut promises: samples are told by whether their NAL units fill them,
//! the samples that survived vote on a cut, and the first place that fits is taken.
use crate::bytes::be32_bytes;
use crate::donors::strung;
use crate::forensics::{avcc_chain, Atom};
use crate::fourcc::MDAT;
use crate::mp4::{
    all_covered, anchored, attributed, before_index, carried_vote, correlated, covered, ends_fit,
    erased, lines_up, locations, mdat_ranges, nals_fill, named, vote, within_mdat, TrackTable,
};
use crate::regrown::{lemma_box_len, lemma_box_read};
use crate::streams::{may_be_nal, prefixed, prefixed_units};
use crate::transplant::box_bytes;
use crate::walks::lemma_prefixed_first;
use vstd::prelude::*;

verus! {

broadcast use crate::bytes::group_lengths;

// ---------------------------------------------------------------------------
// Samples
// ---------------------------------------------------------------------------

/// The first `k` units, of 64 at most, make up this many bytes.
pub open spec fn made_of(units: Seq<Seq<u8>>, k: int, size: int) -> bool {
    0 <= k <= units.len() && k <= 64 && prefixed_units(units.take(k)).len() == size
}

proof fn lemma_no_units()
    ensures
        prefixed_units(Seq::<Seq<u8>>::empty()) == Seq::<u8>::empty(),
{
    let parts = Seq::<Seq<u8>>::empty().map_values(|u: Seq<u8>| prefixed(u));
    assert(parts =~= Seq::<Seq<u8>>::empty());
}

proof fn lemma_take_first(units: Seq<Seq<u8>>, k: int)
    requires
        0 < k <= units.len(),
    ensures
        prefixed_units(units.take(k)).len() == 4 + units[0].len() + prefixed_units(
            units.drop_first().take(k - 1),
        ).len(),
{
    assert(units.take(k).drop_first() =~= units.drop_first().take(k - 1));
    lemma_prefixed_first(units.take(k));
}

proof fn lemma_fill(
    front: Seq<u8>,
    units: Seq<Seq<u8>>,
    rest: Seq<u8>,
    pos: int,
    size: int,
    consumed: int,
    nals: nat,
)
    requires
        forall|j: int| 0 <= j < units.len() ==> may_be_nal(#[trigger] units[j]),
        front.len() == pos + consumed,
        0 <= pos,
        0 <= consumed,
        0 <= size - consumed <= prefixed_units(units).len(),
        nals <= 64,
    ensures
        nals_fill(front + prefixed_units(units) + rest, pos, size, consumed, nals) <==> exists|k: int|
            0 <= k <= units.len() && nals + k <= 64 && (#[trigger] prefixed_units(units.take(k))).len()
                == size - consumed,
    decreases units.len(),
{
    let d = front + prefixed_units(units) + rest;
    let left = size - consumed;
    lemma_no_units();
    assert(units.take(0) =~= Seq::<Seq<u8>>::empty());
    if left == 0 {
        assert(prefixed_units(units.take(0)).len() == left);
    } else if nals >= 64 {
        assert forall|k: int| 0 <= k <= units.len() && nals + k <= 64 implies (
        #[trigger] prefixed_units(units.take(k))).len() != left by {
            assert(k == 0);
        }
    } else {
        if units.len() == 0 {
            assert(units =~= Seq::<Seq<u8>>::empty());
            assert(false);
        }
        let u = units[0];
        let tail = units.drop_first();
        let more = prefixed_units(tail);
        let i = pos + consumed;
        lemma_prefixed_first(units);
        assert(may_be_nal(u));
        assert(d =~= front + be32_bytes(u.len() as int) + (u + more + rest));
        crate::bytes::lemma_be32_roundtrip(front, u.len() as int, u + more + rest);
        assert(d[i + 4] == u[0]);
        assert forall|j: int| 0 <= j < tail.len() implies may_be_nal(#[trigger] tail[j]) by {
            assert(tail[j] == units[j + 1]);
        }
        let step = 4 + u.len();
        assert(nals_fill(d, pos, size, consumed, nals) == nals_fill(
            d,
            pos,
            size,
            consumed + step,
            nals + 1,
        ));
        if left < step {
            assert(!nals_fill(d, pos, size, consumed + step, nals + 1));
            assert forall|k: int| 0 <= k <= units.len() && nals + k <= 64 implies (
            #[trigger] prefixed_units(units.take(k))).len() != left by {
                if k > 0 {
                    lemma_take_first(units, k);
                }
            }
        } else {
            assert(d =~= (front + prefixed(u)) + more + rest);
            lemma_fill(front + prefixed(u), tail, rest, pos, size, consumed + step, nals + 1);
            if nals_fill(d, pos, size, consumed + step, nals + 1) {
                let k = choose|k: int|
                    0 <= k <= tail.len() && nals + 1 + k <= 64 && (#[trigger] prefixed_units(
                        tail.take(k),
                    )).len() == left - step;
                lemma_take_first(units, k + 1);
                assert(prefixed_units(units.take(k + 1)).len() == left);
            }
            if exists|k: int|
                0 <= k <= units.len() && nals + k <= 64 && (#[trigger] prefixed_units(
                    units.take(k),
                )).len() == left {
                let k = choose|k: int|
                    0 <= k <= units.len() && nals + k <= 64 && (#[trigger] prefixed_units(
                        units.take(k),
                    )).len() == left;
                lemma_take_first(units, k);
                assert(prefixed_units(tail.take(k - 1)).len() == left - step);
            }
        }
    }
}

/// A sample is told by its NAL units: behind one another from its start, some number of them, 64
/// at most, makes up just the size that the index records.
pub proof fn law_samples_are_told_by_their_units(
    front: Seq<u8>,
    units: Seq<Seq<u8>>,
    rest: Seq<u8>,
    size: int,
)
    requires
        forall|j: int| 0 <= j < units.len() ==> may_be_nal(#[trigger] units[j]),
        0 <= size <= prefixed_units(units).len(),
    ensures
        nals_fill(front + prefixed_units(units) + rest, front.len() as int, size, 0, 0)
            <==> exists|k: int| #[trigger] made_of(units, k, size),
{
    lemma_fill(front, units, rest, front.len() as int, size, 0, 0);
    if exists|k: int|
        0 <= k <= units.len() && 0 + k <= 64 && (#[trigger] prefixed_units(units.take(k))).len()
            == size {
        let k = choose|k: int|
            0 <= k <= units.len() && 0 + k <= 64 && (#[trigger] prefixed_units(units.take(k))).len()
                == size;
        assert(made_of(units, k, size));
    }
    if exists|k: int| #[trigger] made_of(units, k, size) {
        let k = choose|k: int| #[trigger] made_of(units, k, size);
        assert(prefixed_units(units.take(k)).len() == size);
    }
}

// ---------------------------------------------------------------------------
// The vote
// ---------------------------------------------------------------------------

/// A sample whose first sixteen bytes, or all of fewer, are zero.
pub open spec fn blank(d: Seq<u8>, pos: int, size: int) -> bool {
    forall|j: int| 0 <= j < 16 && j < size ==> d[#[trigger] (pos + j)] == 0
}

/// The samples that survived a cut of `k` bytes and are not blank, of those from `i` up to `n`.
pub open spec fn voters(d: Seq<u8>, locs: Seq<(int, int)>, k: int, i: int, n: int) -> Seq<int> {
    Seq::new((n - i) as nat, |j: int| i + j).filter(
        |s: int| locs[s].0 >= k && !blank(d, locs[s].0 - k, locs[s].1),
    )
}

/// Those of them that their NAL units fill.
pub open spec fn in_favour(d: Seq<u8>, locs: Seq<(int, int)>, k: int, of: Seq<int>) -> Seq<int> {
    of.filter(|s: int| nals_fill(d, locs[s].0 - k, locs[s].1, 0, 0))
}

/// The first `n` of a list, or all of it.
pub open spec fn first_of(v: Seq<int>, n: int) -> Seq<int> {
    if v.len() <= n {
        v
    } else {
        v.take(n)
    }
}

proof fn lemma_filter_both<A>(a: Seq<A>, b: Seq<A>, f: spec_fn(A) -> bool)
    ensures
        (a + b).filter(f) == a.filter(f) + b.filter(f),
    decreases b.len(),
{
    reveal(Seq::filter);
    if b.len() == 0 {
        assert(a + b =~= a);
        assert(a.filter(f) + b.filter(f) =~= a.filter(f));
    } else {
        lemma_filter_both(a, b.drop_last(), f);
        assert((a + b).drop_last() =~= a + b.drop_last());
        assert((a + b).last() == b.last());
        assert((a + b).filter(f) =~= a.filter(f) + b.filter(f));
    }
}

proof fn lemma_filter_one<A>(x: A, f: spec_fn(A) -> bool)
    ensures
        seq![x].filter(f) == if f(x) {
            seq![x]
        } else {
            seq![]
        },
{
    reveal(Seq::filter);
    assert(seq![x].drop_last() =~= Seq::<A>::empty());
    assert(Seq::<A>::empty().filter(f) =~= Seq::<A>::empty());
    assert(seq![x].last() == x);
    assert(Seq::<A>::empty().push(x) =~= seq![x]);
}

proof fn lemma_first_voter(d: Seq<u8>, locs: Seq<(int, int)>, k: int, i: int, n: int)
    requires
        i < n,
    ensures
        voters(d, locs, k, i, n) == (if locs[i].0 >= k && !blank(d, locs[i].0 - k, locs[i].1) {
            seq![i]
        } else {
            seq![]
        }) + voters(d, locs, k, i + 1, n),
{
    let f = |s: int| locs[s].0 >= k && !blank(d, locs[s].0 - k, locs[s].1);
    let all = Seq::new((n - i) as nat, |j: int| i + j);
    let rest = Seq::new((n - i - 1) as nat, |j: int| i + 1 + j);
    assert(all =~= seq![i] + rest);
    lemma_filter_both(seq![i], rest, f);
    lemma_filter_one(i, f);
}

proof fn lemma_first_in_favour(d: Seq<u8>, locs: Seq<(int, int)>, k: int, i: int, of: Seq<int>)
    ensures
        in_favour(d, locs, k, seq![i] + of).len() == in_favour(d, locs, k, of).len() + if nals_fill(
            d,
            locs[i].0 - k,
            locs[i].1,
            0,
            0,
        ) {
            1nat
        } else {
            0
        },
        in_favour(d, locs, k, Seq::<int>::empty()).len() == 0,
{
    let f = |s: int| nals_fill(d, locs[s].0 - k, locs[s].1, 0, 0);
    lemma_filter_both(seq![i], of, f);
    lemma_filter_one(i, f);
    reveal(Seq::filter);
}

proof fn lemma_blank(d: Seq<u8>, pos: int, size: int)
    ensures
        erased(d, pos, size) <==> blank(d, pos, size),
{
    if erased(d, pos, size) {
        assert forall|j: int| 0 <= j < 16 && j < size implies d[#[trigger] (pos + j)] == 0 by {
            assert(d[pos + j] == 0);
        }
    }
    if blank(d, pos, size) {
        assert forall|j: int| pos <= j < pos + size && j < pos + 16 implies #[trigger] d[j] == 0 by {
            assert(d[pos + (j - pos)] == 0);
        }
    }
}

/// All samples before the `n`th lie in the cut or in the data, and the `n`th, if there is one,
/// hangs over the end of the data.
pub open spec fn reach(d: Seq<u8>, locs: Seq<(int, int)>, k: int, n: int) -> bool {
    &&& 0 <= n <= locs.len()
    &&& forall|i: int|
        0 <= i < n ==> (#[trigger] locs[i]).0 < k || locs[i].0 - k + locs[i].1 <= d.len()
    &&& n < locs.len() ==> locs[n].0 >= k && locs[n].0 - k + locs[n].1 > d.len()
}

proof fn lemma_vote(
    d: Seq<u8>,
    locs: Seq<(int, int)>,
    k: int,
    n: int,
    i: int,
    ok: nat,
    tried: nat,
)
    requires
        reach(d, locs, k, n),
        0 <= i <= n,
        tried < 12,
    ensures
        ({
            let heard = first_of(voters(d, locs, k, i, n), 12 - tried);
            vote(d, locs, i, k, 12, ok, tried) == carried_vote(
                ok + in_favour(d, locs, k, heard).len(),
                tried + heard.len(),
            )
        }),
    decreases n - i,
{
    let all = voters(d, locs, k, i, n);
    let heard = first_of(all, 12 - tried);
    lemma_first_in_favour(d, locs, k, i, seq![]);
    if i == n {
        reveal(Seq::filter);
        assert(all =~= Seq::<int>::empty());
    } else {
        let (off, size) = locs[i];
        let rest = voters(d, locs, k, i + 1, n);
        lemma_first_voter(d, locs, k, i, n);
        lemma_blank(d, off - k, size);
        if off < k || erased(d, off - k, size) {
            assert(all =~= rest);
            lemma_vote(d, locs, k, n, i + 1, ok, tried);
        } else {
            assert(all == seq![i] + rest);
            let fits = nals_fill(d, off - k, size, 0, 0);
            let ok2: nat = if fits {
                ok + 1
            } else {
                ok
            };
            if tried + 1 >= 12 {
                assert(heard =~= seq![i] + Seq::<int>::empty());
            } else {
                let more = first_of(rest, 12 - tried - 1);
                assert(heard =~= seq![i] + more);
                lemma_first_in_favour(d, locs, k, i, more);
                lemma_vote(d, locs, k, n, i + 1, ok2, tried + 1);
            }
        }
    }
}

/// A cut is agreed on by the samples that survived it, up to the first that hangs over the end:
/// of the first twelve that are not blank, four in five are filled by their NAL units, and there
/// is one at least.
pub proof fn law_four_in_five_agree_on_a_cut(d: Seq<u8>, locs: Seq<(int, int)>, k: int, n: int)
    requires
        reach(d, locs, k, n),
    ensures
        ({
            let heard = first_of(voters(d, locs, k, 0, n), 12);
            lines_up(d, Some(locs), k) <==> heard.len() > 0 && 5 * in_favour(d, locs, k, heard).len()
                >= 4 * heard.len()
        }),
{
    lemma_vote(d, locs, k, n, 0, 0, 0);
}

/// Where there is no video to ask, any cut is agreed on.
pub proof fn law_without_video_none_disagrees(d: Seq<u8>, k: int)
    ensures
        lines_up(d, None, k),
{
}

// ---------------------------------------------------------------------------
// Where a cut is found
// ---------------------------------------------------------------------------

/// The atoms of a name, and those before the index that chain or do not, are picked in order.
pub proof fn law_atoms_are_picked_in_order(
    all: Seq<Atom>,
    name: Seq<u8>,
    offset: int,
    chains: bool,
)
    ensures
        named(all, name) == all.filter(|a: Atom| a.fourcc == name),
        before_index(all, offset, chains) == all.filter(
            |a: Atom| a.offset < offset && a.chains == chains,
        ),
    decreases all.len(),
{
    reveal(Seq::filter);
    if all.len() > 0 {
        law_atoms_are_picked_in_order(all.drop_last(), name, offset, chains);
    }
}

/// The header of `mdat` puts the cut where the media, eight bytes behind it, is where the index
/// says, and the samples agree.
pub open spec fn anchors(
    d: Seq<u8>,
    video: Option<Seq<(int, int)>>,
    mdat: Atom,
    media_start: int,
    k: int,
) -> bool {
    k >= 0 && mdat.offset + 8 + k == media_start && lines_up(d, video, k)
}

/// The cut comes from the first header that anchors it, and there is none where none does.
pub proof fn law_the_first_anchor_is_taken(
    d: Seq<u8>,
    video: Option<Seq<(int, int)>>,
    mdats: Seq<Atom>,
    i: int,
    media_start: int,
)
    requires
        0 <= i,
    ensures
        match anchored(d, video, mdats, i, media_start) {
            Some(k) => exists|j: int|
                i <= j < mdats.len() && anchors(d, video, #[trigger] mdats[j], media_start, k)
                    && forall|h: int, x: int|
                    i <= h < j ==> !#[trigger] anchors(d, video, mdats[h], media_start, x),
            None => forall|h: int, x: int|
                i <= h < mdats.len() ==> !#[trigger] anchors(d, video, mdats[h], media_start, x),
        },
    decreases mdats.len() - i,
{
    if i < mdats.len() {
        let k = media_start - 8 - mdats[i].offset;
        if k >= 0 && lines_up(d, video, k) {
            assert(anchors(d, video, mdats[i], media_start, k));
        } else {
            assert(forall|x: int| !#[trigger] anchors(d, video, mdats[i], media_start, x));
            law_the_first_anchor_is_taken(d, video, mdats, i + 1, media_start);
        }
    }
}

/// Position `q` is where the `j`th sample, of the first 64, stands now: its NAL units fill it,
/// and the samples agree on the cut that this makes.
pub open spec fn belongs(d: Seq<u8>, locs: Seq<(int, int)>, q: int, j: int, k: int) -> bool {
    &&& 0 <= j < locs.len() && j < 64
    &&& k >= 0 && q + k == locs[j].0
    &&& nals_fill(d, q, locs[j].1, 0, 0)
    &&& lines_up(d, Some(locs), k)
}

/// Of the samples from `j` on, the `h`th is the first that position `q` belongs to.
pub open spec fn belongs_first(
    d: Seq<u8>,
    locs: Seq<(int, int)>,
    q: int,
    j: int,
    h: int,
    k: int,
) -> bool {
    &&& j <= h && belongs(d, locs, q, h, k)
    &&& forall|g: int, x: int| j <= g < h ==> !#[trigger] belongs(d, locs, q, g, x)
}

proof fn lemma_attributed(d: Seq<u8>, locs: Seq<(int, int)>, q: int, j: int) -> (h: int)
    requires
        0 <= j,
    ensures
        match attributed(d, locs, q, j) {
            Some(k) => belongs_first(d, locs, q, j, h, k),
            None => forall|g: int, x: int| j <= g ==> !#[trigger] belongs(d, locs, q, g, x),
        },
    decreases locs.len() - j,
{
    if j < locs.len() && j < 64 {
        let k = locs[j].0 - q;
        if k >= 0 && nals_fill(d, q, locs[j].1, 0, 0) && vote(d, locs, 0, k, 12, 0, 0) {
            assert(lines_up(d, Some(locs), k));
            assert(belongs(d, locs, q, j, k));
            j
        } else {
            assert forall|x: int| !#[trigger] belongs(d, locs, q, j, x) by {
                if belongs(d, locs, q, j, x) {
                    assert(x == k);
                }
            }
            lemma_attributed(d, locs, q, j + 1)
        }
    } else {
        j
    }
}

/// Some sample belongs to position `q`, in the first megabyte, where a NAL unit stands; the first
/// of them makes the cut.
pub open spec fn makes_cut(d: Seq<u8>, locs: Seq<(int, int)>, q: int, k: int) -> bool {
    &&& 0 <= q && q + 5 < d.len() && q + 5 < 1024 * 1024
    &&& avcc_chain(d, q, 1) == 1
    &&& exists|h: int| #[trigger] belongs_first(d, locs, q, 0, h, k)
}

proof fn lemma_chain_begins(d: Seq<u8>, q: int)
    ensures
        avcc_chain(d, q, 4) >= 1 <==> avcc_chain(d, q, 1) == 1,
{
    reveal_with_fuel(avcc_chain, 2);
}

/// Without a header, the cut comes from the first position that a sample belongs to, and from
/// the first such sample; there is none where no position has any.
pub proof fn law_the_first_match_is_taken(d: Seq<u8>, locs: Seq<(int, int)>, q: int)
    requires
        0 <= q,
    ensures
        match correlated(d, locs, q) {
            Some(k) => exists|p: int|
                q <= p && #[trigger] makes_cut(d, locs, p, k) && forall|o: int, x: int|
                    q <= o < p ==> !#[trigger] makes_cut(d, locs, o, x),
            None => forall|o: int, x: int| q <= o ==> !#[trigger] makes_cut(d, locs, o, x),
        },
    decreases d.len() - q,
{
    if q + 5 < d.len() && q + 5 < 0x10_0000 {
        lemma_chain_begins(d, q);
        let h = lemma_attributed(d, locs, q, 0);
        if avcc_chain(d, q, 4) >= 1 && attributed(d, locs, q, 0) is Some {
            let k = attributed(d, locs, q, 0).unwrap();
            assert(belongs_first(d, locs, q, 0, h, k));
            assert(makes_cut(d, locs, q, k));
        } else {
            assert forall|x: int| !#[trigger] makes_cut(d, locs, q, x) by {
                if makes_cut(d, locs, q, x) {
                    let g = choose|g: int| #[trigger] belongs_first(d, locs, q, 0, g, x);
                    assert(belongs(d, locs, q, g, x));
                }
            }
            law_the_first_match_is_taken(d, locs, q + 1);
        }
    }
}

// ---------------------------------------------------------------------------
// Samples without video
// ---------------------------------------------------------------------------

/// Every sample of every track lies in one of the ranges.
pub open spec fn all_lie_in(tracks: Seq<TrackTable>, ranges: Seq<(int, int)>) -> bool {
    forall|i: int, j: int|
        0 <= i < tracks.len() && 0 <= j < locations(tracks[i]).len() ==> lies_in(
            #[trigger] locations(tracks[i])[j],
            ranges,
        )
}

/// A sample lies in one of the ranges, from its first byte to its last.
pub open spec fn lies_in(loc: (int, int), ranges: Seq<(int, int)>) -> bool {
    exists|r: int|
        0 <= r < ranges.len() && (#[trigger] ranges[r]).0 <= loc.0 && ranges[r].1 >= loc.0 + loc.1
}

proof fn lemma_within(tracks: Seq<TrackTable>, i: int, ranges: Seq<(int, int)>)
    requires
        0 <= i <= tracks.len(),
        forall|t: int| 0 <= t < tracks.len() ==> ends_fit(locations(#[trigger] tracks[t])),
    ensures
        within_mdat(tracks, i, ranges) == Some(
            forall|t: int| i <= t < tracks.len() ==> all_covered(
                locations(#[trigger] tracks[t]),
                ranges,
            ),
        ),
    decreases tracks.len() - i,
{
    if i < tracks.len() {
        lemma_within(tracks, i + 1, ranges);
        assert(ends_fit(locations(tracks[i])));
    }
}

/// Without video, an index is true where every sample of every track lies in an mdat.
pub proof fn law_true_indexes_point_into_mdat(tracks: Seq<TrackTable>, ranges: Seq<(int, int)>)
    requires
        forall|t: int| 0 <= t < tracks.len() ==> ends_fit(locations(#[trigger] tracks[t])),
    ensures
        within_mdat(tracks, 0, ranges) == Some(all_lie_in(tracks, ranges)),
{
    lemma_within(tracks, 0, ranges);
    assert forall|loc: (int, int)| #[trigger] lies_in(loc, ranges) == covered(loc, ranges) by {
        if covered(loc, ranges) {
            let j = choose|j: int|
                0 <= j < ranges.len() && (#[trigger] ranges[j]).0 <= loc.0 && loc.0 + loc.1
                    <= ranges[j].1;
            assert(ranges[j].1 >= loc.0 + loc.1);
        }
        if lies_in(loc, ranges) {
            let j = choose|j: int|
                0 <= j < ranges.len() && (#[trigger] ranges[j]).0 <= loc.0 && ranges[j].1 >= loc.0
                    + loc.1;
            assert(loc.0 + loc.1 <= ranges[j].1);
        }
    }
    if all_lie_in(tracks, ranges) {
        assert forall|t: int| 0 <= t < tracks.len() implies all_covered(
            locations(#[trigger] tracks[t]),
            ranges,
        ) by {
            let locs = locations(tracks[t]);
            assert forall|j: int| 0 <= j < locs.len() implies covered(#[trigger] locs[j], ranges) by {
                assert(lies_in(locations(tracks[t])[j], ranges));
            }
        }
    }
    if forall|t: int| 0 <= t < tracks.len() ==> all_covered(locations(#[trigger] tracks[t]), ranges) {
        assert forall|i: int, j: int|
            0 <= i < tracks.len() && 0 <= j < locations(tracks[i]).len() implies lies_in(
            #[trigger] locations(tracks[i])[j],
            ranges,
        ) by {
            assert(all_covered(locations(tracks[i]), ranges));
            assert(covered(locations(tracks[i])[j], ranges));
            assert(lies_in(locations(tracks[i])[j], ranges));
        }
    }
}

/// The payloads of the boxes that are called mdat, in order.
pub open spec fn media_bodies(list: Seq<(Seq<u8>, Seq<u8>)>) -> Seq<Seq<u8>>
    decreases list.len(),
{
    if list.len() == 0 {
        seq![]
    } else if list[0].0 == seq![0x6du8, 0x64, 0x61, 0x74] {
        seq![list[0].1] + media_bodies(list.drop_first())
    } else {
        media_bodies(list.drop_first())
    }
}

/// Each range is where the payload stands.
pub open spec fn hold_bodies(d: Seq<u8>, ranges: Seq<(int, int)>, bodies: Seq<Seq<u8>>) -> bool {
    ranges.len() == bodies.len() && forall|i: int|
        0 <= i < ranges.len() ==> 0 <= (#[trigger] ranges[i]).0 <= ranges[i].1 <= d.len()
            && d.subrange(ranges[i].0, ranges[i].1) == bodies[i]
}

proof fn lemma_ranges(d: Seq<u8>, front: Seq<u8>, list: Seq<(Seq<u8>, Seq<u8>)>)
    requires
        d == front + strung(list),
        strung(list).len() <= u32::MAX,
        forall|i: int| 0 <= i < list.len() ==> (#[trigger] list[i]).0.len() == 4,
    ensures
        hold_bodies(
            d,
            mdat_ranges(d, front.len() as int, d.len() as int),
            media_bodies(list),
        ),
    decreases list.len(),
{
    let p = front.len() as int;
    let end = d.len() as int;
    assert(MDAT@ =~= seq![0x6du8, 0x64, 0x61, 0x74]);
    if list.len() == 0 {
        assert(d =~= front);
    } else {
        let (name, body) = list[0];
        let tail = list.drop_first();
        let here = box_bytes(name, body);
        assert(list[0].0.len() == 4);
        lemma_box_len(name, body);
        assert(d =~= (front + here) + strung(tail));
        assert(d.subrange(p, p + here.len()) =~= here);
        lemma_box_read(d, p, end, name, body);
        assert forall|i: int| 0 <= i < tail.len() implies (#[trigger] tail[i]).0.len() == 4 by {
            assert(tail[i] == list[i + 1]);
        }
        lemma_ranges(d, front + here, tail);
        let more = mdat_ranges(d, p + here.len(), end);
        if name == MDAT@ {
            let all = seq![(p + 8, p + here.len())] + more;
            let bodies = seq![body] + media_bodies(tail);
            assert(mdat_ranges(d, p, end) =~= all);
            assert forall|i: int| 0 <= i < all.len() implies 0 <= (#[trigger] all[i]).0 <= all[i].1
                <= d.len() && d.subrange(all[i].0, all[i].1) == bodies[i] by {
                if i == 0 {
                    assert(d.subrange(p + 8, p + 8 + body.len()) =~= body);
                } else {
                    assert(all[i] == more[i - 1]);
                }
            }
        }
    }
}

/// Media lies in the payloads of the mdat boxes of a file, and in no others.
pub proof fn law_media_lies_in_mdat(list: Seq<(Seq<u8>, Seq<u8>)>)
    requires
        strung(list).len() <= u32::MAX,
        forall|i: int| 0 <= i < list.len() ==> (#[trigger] list[i]).0.len() == 4,
    ensures
        hold_bodies(
            strung(list),
            mdat_ranges(strung(list), 0, strung(list).len() as int),
            media_bodies(list),
        ),
{
    let none = Seq::<u8>::empty();
    assert(none + strung(list) =~= strung(list));
    lemma_ranges(strung(list), none, list);
}

} // verus!
