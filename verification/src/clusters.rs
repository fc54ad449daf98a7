//! What is made of a Matroska file without its head: where its clusters are found, which of
//! them playback can start with, and which tracks they give away.
use crate::bits::bits_of;
use crate::bytes::stands_at;
use crate::ebml::{el_bytes, element_at};
use crate::matroska::{
    blocks_bytes, clean_start, cluster_walk, evidence, first_cluster_from, first_video, frames_in,
    keyframe_cluster, law_cluster_roundtrip, law_one_cluster_is_sampled, leads_with_keyframe,
    numbered, Block, TrackShape,
};
use crate::mkv_codecs::vp9_size;
use vstd::prelude::*;

verus! {

// ---------------------------------------------------------------------------
// The first cluster
// ---------------------------------------------------------------------------

/// A cluster opens at `i`: its ID stands there, behind its size comes an element, and that is
/// a timecode, a simple block or a block group.
pub open spec fn cluster_opens(d: Seq<u8>, i: int) -> bool {
    &&& 0 <= i && i + 4 <= d.len()
    &&& d.subrange(i, i + 4) == seq![0x1fu8, 0x43, 0xb6, 0x75]
    &&& element_at(d, i) matches Some(c) && c.id == 0x1f43_b675 && (element_at(
        d,
        c.data_pos,
    ) matches Some(child) && (child.id == 0xe7 || child.id == 0xa3 || child.id == 0xa0))
}

proof fn lemma_first_cluster(d: Seq<u8>, i: int)
    requires
        0 <= i,
    ensures
        match first_cluster_from(d, i) {
            Some(at) => i <= at && cluster_opens(d, at) && forall|j: int|
                i <= j < at ==> !#[trigger] cluster_opens(d, j),
            None => forall|j: int| i <= j ==> !#[trigger] cluster_opens(d, j),
        },
    decreases d.len() - i,
{
    assert(crate::forensics::EBML_CLUSTER@ =~= seq![0x1fu8, 0x43, 0xb6, 0x75]);
    if i + 4 <= d.len() {
        let here = stands_at(d, i, crate::forensics::EBML_CLUSTER@)
            && crate::matroska::verified_cluster(d, i);
        assert(here == cluster_opens(d, i));
        if !here {
            lemma_first_cluster(d, i + 1);
        }
    }
}

/// The first surviving cluster is the first place where a cluster opens.
pub proof fn law_first_cluster_is_the_first(d: Seq<u8>)
    ensures
        match first_cluster_from(d, 0) {
            Some(at) => cluster_opens(d, at) && forall|j: int|
                0 <= j < at ==> !#[trigger] cluster_opens(d, j),
            None => forall|j: int| !#[trigger] cluster_opens(d, j),
        },
{
    lemma_first_cluster(d, 0);
}

// ---------------------------------------------------------------------------
// Where playback starts
// ---------------------------------------------------------------------------

/// Where the `n`th cluster behind the one at `pos` starts, each where the one before it ends.
pub open spec fn nth_cluster(d: Seq<u8>, pos: int, n: nat) -> Option<int>
    decreases n,
{
    if n == 0 {
        Some(pos)
    } else {
        match cluster_walk(d, pos).1 {
            Some(next) => nth_cluster(d, next, (n - 1) as nat),
            None => None,
        }
    }
}

/// A cluster can be walked, and the first block of a track in it is a VP9 keyframe.
pub open spec fn keyframe_leads(d: Seq<u8>, pos: int, track: int) -> bool {
    let (blocks, next) = cluster_walk(d, pos);
    &&& pos < d.len()
    &&& next is Some
    &&& exists|i: int|
        {
            &&& 0 <= i < blocks.len()
            &&& (#[trigger] blocks[i]).track == track
            &&& vp9_size(bits_of(blocks[i].frame)) is Some
            &&& forall|j: int| 0 <= j < i ==> (#[trigger] blocks[j]).track != track
        }
}

proof fn lemma_leads(blocks: Seq<Block>, track: int, i: int)
    requires
        0 <= i,
        forall|j: int| 0 <= j < i && j < blocks.len() ==> (#[trigger] blocks[j]).track != track,
    ensures
        leads_with_keyframe(blocks, track, i) <==> exists|k: int|
            {
                &&& 0 <= k < blocks.len()
                &&& (#[trigger] blocks[k]).track == track
                &&& vp9_size(bits_of(blocks[k].frame)) is Some
                &&& forall|j: int| 0 <= j < k ==> (#[trigger] blocks[j]).track != track
            },
    decreases blocks.len() - i,
{
    if i < blocks.len() {
        if blocks[i].track == track {
            assert forall|k: int|
                {
                    &&& 0 <= k < blocks.len()
                    &&& (#[trigger] blocks[k]).track == track
                    &&& forall|j: int| 0 <= j < k ==> (#[trigger] blocks[j]).track != track
                } implies k == i by {
                if k < i {
                    assert(blocks[k].track != track);
                }
                if i < k {
                    assert(blocks[i].track != track);
                }
            }
        } else {
            lemma_leads(blocks, track, i + 1);
        }
    }
}

proof fn lemma_keyframe_cluster(d: Seq<u8>, pos: int, track: int, left: nat)
    ensures
        match keyframe_cluster(d, pos, track, left) {
            Some(at) => exists|n: nat|
                {
                    &&& n < left
                    &&& #[trigger] nth_cluster(d, pos, n) == Some(at)
                    &&& keyframe_leads(d, at, track)
                    &&& forall|m: nat|
                        m < n ==> (#[trigger] nth_cluster(d, pos, m) matches Some(x)
                            && !keyframe_leads(d, x, track))
                },
            None => true,
        },
    decreases left,
{
    if pos < d.len() && left > 0 {
        let (blocks, next) = cluster_walk(d, pos);
        lemma_leads(blocks, track, 0);
        if next is Some && leads_with_keyframe(blocks, track, 0) {
            assert(nth_cluster(d, pos, 0) == Some(pos));
            assert(keyframe_leads(d, pos, track));
        } else if next is Some && next.unwrap() > pos {
            let nx = next.unwrap();
            lemma_keyframe_cluster(d, nx, track, (left - 1) as nat);
            assert(!keyframe_leads(d, pos, track));
            if let Some(at) = keyframe_cluster(d, nx, track, (left - 1) as nat) {
                let n = choose|n: nat|
                    {
                        &&& n < left - 1
                        &&& #[trigger] nth_cluster(d, nx, n) == Some(at)
                        &&& keyframe_leads(d, at, track)
                        &&& forall|m: nat|
                            m < n ==> (#[trigger] nth_cluster(d, nx, m) matches Some(x)
                                && !keyframe_leads(d, x, track))
                    };
                assert(nth_cluster(d, pos, n + 1) == Some(at));
                assert forall|m: nat| m < n + 1 implies (#[trigger] nth_cluster(d, pos, m) matches Some(
                    x,
                ) && !keyframe_leads(d, x, track)) by {
                    if m > 0 {
                        assert(nth_cluster(d, pos, m) == nth_cluster(d, nx, (m - 1) as nat));
                    }
                }
            }
        }
    }
}

/// Playback starts with the first cluster of 32 that is led by a keyframe of the first video
/// track; with no video track, with the first cluster of all.
pub proof fn law_playback_starts_with_a_keyframe(d: Seq<u8>, first: int, tracks: Seq<TrackShape>)
    ensures
        ({
            let video = first_video(tracks, 0);
            &&& match video {
                Some(number) => exists|i: int|
                    {
                        &&& 0 <= i < tracks.len()
                        &&& (#[trigger] tracks[i]).number == number
                        &&& !(tracks[i].codec is Opus || tracks[i].codec is NeedsDonor)
                        &&& forall|j: int|
                            0 <= j < i ==> (#[trigger] tracks[j]).codec is Opus
                                || tracks[j].codec is NeedsDonor
                    },
                None => forall|j: int|
                    0 <= j < tracks.len() ==> (#[trigger] tracks[j]).codec is Opus
                        || tracks[j].codec is NeedsDonor,
            }
            &&& video is None ==> clean_start(d, first, video) == Some(first)
            &&& video matches Some(track) ==> (clean_start(d, first, video) matches Some(at)
                ==> exists|n: nat|
                {
                    &&& n < 32
                    &&& #[trigger] nth_cluster(d, first, n) == Some(at)
                    &&& keyframe_leads(d, at, track)
                    &&& forall|m: nat|
                        m < n ==> (#[trigger] nth_cluster(d, first, m) matches Some(x)
                            && !keyframe_leads(d, x, track))
                })
        }),
{
    lemma_first_video(tracks, 0);
    if let Some(track) = first_video(tracks, 0) {
        lemma_keyframe_cluster(d, first, track, 32);
    }
}

proof fn lemma_first_video(tracks: Seq<TrackShape>, i: int)
    requires
        0 <= i <= tracks.len(),
    ensures
        match first_video(tracks, i) {
            Some(number) => exists|k: int|
                {
                    &&& i <= k < tracks.len()
                    &&& (#[trigger] tracks[k]).number == number
                    &&& !(tracks[k].codec is Opus || tracks[k].codec is NeedsDonor)
                    &&& forall|j: int|
                        i <= j < k ==> (#[trigger] tracks[j]).codec is Opus
                            || tracks[j].codec is NeedsDonor
                },
            None => forall|j: int|
                i <= j < tracks.len() ==> (#[trigger] tracks[j]).codec is Opus
                    || tracks[j].codec is NeedsDonor,
        },
    decreases tracks.len() - i,
{
    if i < tracks.len() {
        let here = tracks[i];
        if !crate::matroska::is_video(here.codec) {
            lemma_first_video(tracks, i + 1);
            if let Some(number) = first_video(tracks, i) {
                let k = choose|k: int|
                    {
                        &&& i + 1 <= k < tracks.len()
                        &&& (#[trigger] tracks[k]).number == number
                        &&& !(tracks[k].codec is Opus || tracks[k].codec is NeedsDonor)
                        &&& forall|j: int|
                            i + 1 <= j < k ==> (#[trigger] tracks[j]).codec is Opus
                                || tracks[j].codec is NeedsDonor
                    };
                assert(tracks[k].number == number);
            }
        } else {
            assert(tracks[i].number == here.number);
        }
    }
}

/// A playable start is found wherever there is one: if one of the first 32 clusters, each where
/// the one before it ends, is led by a keyframe of the track, some start is found.
pub proof fn law_a_keyframe_cluster_is_found(d: Seq<u8>, first: int, track: int, n: nat)
    requires
        n < 32,
        nth_cluster(d, first, n) matches Some(at) && keyframe_leads(d, at, track),
        forall|m: nat|
            m < n ==> (#[trigger] nth_cluster(d, first, m) matches Some(x) && cluster_walk(
                d,
                x,
            ).1 matches Some(next) && x < next),
    ensures
        clean_start(d, first, Some(track)) is Some,
{
    lemma_found(d, first, track, 32, n);
}

proof fn lemma_found(d: Seq<u8>, pos: int, track: int, left: nat, n: nat)
    requires
        n < left,
        nth_cluster(d, pos, n) matches Some(at) && keyframe_leads(d, at, track),
        forall|m: nat|
            m < n ==> (#[trigger] nth_cluster(d, pos, m) matches Some(x) && cluster_walk(
                d,
                x,
            ).1 matches Some(next) && x < next),
    ensures
        keyframe_cluster(d, pos, track, left) is Some,
    decreases n,
{
    let (blocks, next) = cluster_walk(d, pos);
    lemma_leads(blocks, track, 0);
    if n > 0 {
        assert(nth_cluster(d, pos, 0) == Some(pos));
        let nx = next.unwrap();
        assert(nth_cluster(d, pos, n) == nth_cluster(d, nx, (n - 1) as nat));
        assert forall|m: nat| m < n - 1 implies (#[trigger] nth_cluster(d, nx, m) matches Some(x)
            && cluster_walk(d, x).1 matches Some(y) && x < y) by {
            assert(nth_cluster(d, pos, m + 1) == nth_cluster(d, nx, m));
        }
        lemma_found(d, nx, track, (left - 1) as nat, (n - 1) as nat);
        lemma_nth_inside(d, nx, (n - 1) as nat, track);
    }
}

proof fn lemma_nth_inside(d: Seq<u8>, pos: int, n: nat, track: int)
    requires
        nth_cluster(d, pos, n) matches Some(at) && at < d.len(),
        forall|m: nat|
            m < n ==> (#[trigger] nth_cluster(d, pos, m) matches Some(x) && cluster_walk(
                d,
                x,
            ).1 matches Some(next) && x < next),
    ensures
        pos < d.len(),
    decreases n,
{
    if n > 0 {
        assert(nth_cluster(d, pos, 0) == Some(pos));
        let nx = cluster_walk(d, pos).1.unwrap();
        assert forall|m: nat| m < n - 1 implies (#[trigger] nth_cluster(d, nx, m) matches Some(x)
            && cluster_walk(d, x).1 matches Some(y) && x < y) by {
            assert(nth_cluster(d, pos, m + 1) == nth_cluster(d, nx, m));
        }
        assert(nth_cluster(d, pos, n) == nth_cluster(d, nx, (n - 1) as nat));
        lemma_nth_inside(d, nx, (n - 1) as nat, track);
    }
}

// ---------------------------------------------------------------------------
// The tracks
// ---------------------------------------------------------------------------

/// A cluster tells its tracks: behind any garbage, the blocks of one cluster are the evidence,
/// by track, of which the first six frames count.
pub proof fn law_a_cluster_tells_its_tracks(
    garbage: Seq<u8>,
    blocks: Seq<Block>,
    t: (u8, u8),
    track: u64,
)
    requires
        numbered(blocks),
        blocks_bytes(blocks, t).len() < crate::ebml::VINT_LIMIT,
    ensures
        ({
            let d = garbage + el_bytes(0x1f43_b675, blocks_bytes(blocks, t));
            let samples = evidence(d, garbage.len() as int);
            let frames = frames_in(blocks, track);
            &&& samples.contains_key(track) <==> frames.len() > 0
            &&& frames.len() > 0 ==> samples[track] == frames.take(
                if frames.len() < 6 {
                    frames.len() as int
                } else {
                    6
                },
            )
        }),
{
    let cluster = el_bytes(0x1f43_b675, blocks_bytes(blocks, t));
    let none = Seq::<u8>::empty();
    let d = garbage + cluster;
    law_cluster_roundtrip(garbage, blocks, t, none);
    assert(garbage + cluster + none =~= d);
    crate::ebml::law_element_roundtrip(garbage, 0x1f43_b675, blocks_bytes(blocks, t), none);
    law_one_cluster_is_sampled(d, garbage.len() as int, blocks, 6, track);
}

} // verus!
