//! Matroska/WebM analysis and re-heading. Walks surviving clusters, sniffs each
//! track's codec from frame bytes, and synthesizes a fresh container head
//! (EBML + Segment + Info + Tracks), copying clusters verbatim, never decoding.
use crate::bits::bits_of;
use crate::bytes::{matches_at, push_all, stands_at};
use crate::ebml::{
    be_value, canonical_id, el, el_bytes, element_at, law_element_roundtrip, law_vint_is_minimal,
    law_vint_roundtrip, lemma_el_length, lemma_uint_length, read_element, read_vint, uint,
    uint_bytes, vint_at, vint_bytes, ElementSpan, ID_BLOCK_GROUP, ID_CLUSTER, ID_DOCTYPE,
    ID_DOCTYPE_READ_VERSION, ID_DOCTYPE_VERSION, ID_EBML, ID_EBML_MAX_ID_LEN, ID_EBML_MAX_SIZE_LEN,
    ID_EBML_READ_VERSION, ID_EBML_VERSION, ID_INFO, ID_MUXING_APP, ID_SEGMENT, ID_SIMPLE_BLOCK,
    ID_TIMECODE, ID_TIMECODE_SCALE, ID_TRACKS, ID_WRITING_APP, VINT_LIMIT,
};
use crate::forensics::{EBML, EBML_CLUSTER};
use crate::mkv_codecs::{
    frames_of, sniff, sniffed, synthesizable, track_entry, track_entry_bytes, vp9_dims, vp9_size,
    Codec, CodecShape,
};
use crate::text::{decimal, push_decimal};
use std::collections::BTreeMap;
use vstd::prelude::*;
use vstd::std_specs::cmp::OrdSpec;
use vstd::std_specs::iter::IteratorSpec;
use vstd::string::*;

verus! {

// ---------------------------------------------------------------------------
// Walking clusters
// ---------------------------------------------------------------------------

/// One sampled block: which track, whether flagged a keyframe, and the first
/// (un-laced) frame's bytes.
#[derive(Debug, Clone, PartialEq)]
pub struct SampledBlock {
    pub track: u64,
    pub keyframe: bool,
    pub frame: Vec<u8>,
}

/// A block in the data.
pub struct Block {
    pub track: int,
    pub keyframe: bool,
    pub frame: Seq<u8>,
}

impl View for SampledBlock {
    type V = Block;

    open spec fn view(&self) -> Block {
        Block { track: self.track as int, keyframe: self.keyframe, frame: self.frame@ }
    }
}

/// A list of blocks in the data.
pub open spec fn blocks_of(v: Seq<SampledBlock>) -> Seq<Block> {
    v.map_values(|b: SampledBlock| b@)
}

/// The unlaced block in a SimpleBlock payload:
/// `[track vint][int16 rel timecode][flags][frame]`. None for laced blocks.
pub open spec fn simple_block(buf: Seq<u8>) -> Option<Block> {
    match vint_at(buf, 0) {
        None => None,
        Some((track, len)) => {
            let p = len + 2;
            if p >= buf.len() || (buf[p] / 2) % 4 != 0 {
                None
            } else {
                Some(Block { track, keyframe: buf[p] >= 128, frame: buf.skip(p + 1) })
            }
        },
    }
}

/// The unlaced SimpleBlocks among a cluster's children from `p` on, and whether the
/// children are well-formed as far as they were walked. A child of unknown size, or
/// one that overruns the data, ends the walk.
pub open spec fn children(d: Seq<u8>, p: int, end: int) -> (Seq<Block>, bool)
    decreases
            (if p < end {
                end - p
            } else {
                0
            }),
{
    if p >= end {
        (seq![], true)
    } else {
        match element_at(d, p) {
            None => (seq![], false),
            Some(e) => match e.size {
                None => (seq![], true),
                Some(size) => {
                    let body_end = e.data_pos + size;
                    if body_end > d.len() || body_end <= p {
                        (seq![], true)
                    } else {
                        let rest = children(d, body_end, end);
                        let block = if e.id == ID_SIMPLE_BLOCK {
                            simple_block(d.subrange(e.data_pos, body_end))
                        } else {
                            None
                        };
                        match block {
                            Some(b) => (seq![b] + rest.0, rest.1),
                            None => rest,
                        }
                    }
                },
            },
        }
    }
}

/// Where the payload of a cluster ends.
pub open spec fn cluster_end(d: Seq<u8>, c: ElementSpan) -> int {
    match c.size {
        Some(s) => if c.data_pos + s <= d.len() {
            c.data_pos + s
        } else {
            d.len() as int
        },
        None => d.len() as int,
    }
}

/// The blocks of the cluster at `pos`, and the offset just past it; no offset if
/// there is no cluster, or a child's header is malformed.
pub open spec fn cluster_walk(d: Seq<u8>, pos: int) -> (Seq<Block>, Option<int>) {
    match element_at(d, pos) {
        None => (seq![], None),
        Some(c) => if c.id != ID_CLUSTER {
            (seq![], None)
        } else {
            let (blocks, ok) = children(d, c.data_pos, cluster_end(d, c));
            (
                blocks,
                if ok {
                    Some(cluster_end(d, c))
                } else {
                    None
                },
            )
        },
    }
}

fn parse_simpleblock(buf: &[u8]) -> (r: Option<SampledBlock>)
    ensures
        match r {
            Some(b) => simple_block(buf@) == Some(b@),
            None => simple_block(buf@) is None,
        },
{
    let (track, len) = read_vint(buf, 0)?;
    let p: usize = len + 2;  // skip int16 relative timecode
    if p >= buf.len() || (buf[p] / 2) % 4 != 0 {
        return None;  // laced
    }
    let mut frame: Vec<u8> = Vec::new();
    push_all(&mut frame, &buf[p + 1..buf.len()]);
    assert(frame@ =~= buf@.skip(p + 1));
    Some(SampledBlock { track, keyframe: buf[p] >= 128, frame })
}

/// Walks one cluster at `pos`, appending each SimpleBlock to `blocks`. Only unlaced
/// blocks are reported (laced blocks are skipped for sampling; they are still
/// copied verbatim during reconstruction). Returns the offset just past the
/// cluster, or `None` if the header is malformed.
pub fn walk_cluster(data: &[u8], pos: usize, blocks: &mut Vec<SampledBlock>) -> (r: Option<usize>)
    ensures
        blocks_of(final(blocks)@) == blocks_of(old(blocks)@) + cluster_walk(data@, pos as int).0,
        match r {
            Some(end) => cluster_walk(data@, pos as int).1 == Some(end as int) && pos < end <= data@.len(),
            None => cluster_walk(data@, pos as int).1 is None,
        },
{
    let ghost start = blocks_of(blocks@);
    assert(start + Seq::<Block>::empty() =~= start);
    let cluster = match read_element(data, pos) {
        Some(c) => c,
        None => {
            return None;
        },
    };
    if cluster.id != ID_CLUSTER {
        return None;
    }
    let left: u64 = (data.len() - cluster.data_pos) as u64;
    let end: usize = match cluster.size {
        Some(s) => if s <= left {
            cluster.data_pos + s as usize
        } else {
            data.len()
        },
        None => data.len(),
    };
    assert(end == cluster_end(data@, cluster@));
    let ghost whole = children(data@, cluster.data_pos as int, end as int);
    assert(start + whole.0 == blocks_of(blocks@) + whole.0);
    let mut p: usize = cluster.data_pos;
    while p < end
        invariant
            end <= data@.len(),
            whole == children(data@, cluster.data_pos as int, end as int),
            cluster_walk(data@, pos as int) == (
                whole.0,
                if whole.1 {
                    Some(end as int)
                } else {
                    None
                },
            ),
            start == blocks_of(old(blocks)@),
            start + whole.0 == blocks_of(blocks@) + children(data@, p as int, end as int).0,
            whole.1 == children(data@, p as int, end as int).1,
            pos < end,
        decreases
                (if p < end {
                    end - p
                } else {
                    0
                }),
    {
        let e = match read_element(data, p) {
            Some(e) => e,
            None => {
                assert(blocks_of(blocks@) + Seq::<Block>::empty() =~= blocks_of(blocks@));
                return None;
            },
        };
        let size: u64 = match e.size {
            Some(s) => s,
            None => {
                // unknown-size child inside a cluster: stop
                assert(blocks_of(blocks@) + Seq::<Block>::empty() =~= blocks_of(blocks@));
                return Some(end);
            },
        };
        if size > (data.len() - e.data_pos) as u64 {
            assert(blocks_of(blocks@) + Seq::<Block>::empty() =~= blocks_of(blocks@));
            return Some(end);
        }
        let body_end: usize = e.data_pos + size as usize;
        let ghost rest = children(data@, body_end as int, end as int).0;
        if e.id == ID_SIMPLE_BLOCK {
            if let Some(block) = parse_simpleblock(&data[e.data_pos..body_end]) {
                let ghost before = blocks_of(blocks@);
                blocks.push(block);
                assert(blocks_of(blocks@) =~= before.push(block@));
                assert(before + (seq![block@] + rest) =~= blocks_of(blocks@) + rest);
            }
        }
        // Timecode, BlockGroup, etc. are skipped for sampling.
        p = body_end;
    }
    assert(blocks_of(blocks@) + Seq::<Block>::empty() =~= blocks_of(blocks@));
    Some(end)
}

// ---------------------------------------------------------------------------
// Sampling frames
// ---------------------------------------------------------------------------

/// Sampled frames by track.
pub open spec fn samples_of(m: Map<u64, Vec<(bool, Vec<u8>)>>) -> Map<u64, Seq<(bool, Seq<u8>)>> {
    m.map_values(|v: Vec<(bool, Vec<u8>)>| frames_of(v@))
}

/// The samples with one more block: a track keeps its first `per_track` frames.
pub open spec fn with_block(
    m: Map<u64, Seq<(bool, Seq<u8>)>>,
    b: Block,
    per_track: nat,
) -> Map<u64, Seq<(bool, Seq<u8>)>> {
    let track = b.track as u64;
    let have = if m.contains_key(track) {
        m[track]
    } else {
        seq![]
    };
    m.insert(
        track,
        if have.len() < per_track {
            have.push((b.keyframe, b.frame))
        } else {
            have
        },
    )
}

/// The samples with some more blocks, in order.
pub open spec fn with_blocks(
    m: Map<u64, Seq<(bool, Seq<u8>)>>,
    blocks: Seq<Block>,
    per_track: nat,
) -> Map<u64, Seq<(bool, Seq<u8>)>>
    decreases blocks.len(),
{
    if blocks.len() == 0 {
        m
    } else {
        with_block(with_blocks(m, blocks.drop_last(), per_track), blocks.last(), per_track)
    }
}

/// There are samples, and every track that was seen has enough of them.
pub open spec fn enough(m: Map<u64, Seq<(bool, Seq<u8>)>>, per_track: nat) -> bool {
    &&& exists|t: u64| #[trigger] m.contains_key(t)
    &&& forall|t: u64| #[trigger] m.contains_key(t) ==> m[t].len() >= per_track
}

/// The samples of the clusters from `pos` on, added to those that are there, until every
/// seen track has enough or the data runs out. A malformed cluster ends the scan; blocks
/// in front of a malformed child still count.
pub open spec fn sampled(
    d: Seq<u8>,
    pos: int,
    per_track: nat,
    m: Map<u64, Seq<(bool, Seq<u8>)>>,
) -> Map<u64, Seq<(bool, Seq<u8>)>>
    decreases d.len() - pos,
{
    if pos >= d.len() || enough(m, per_track) {
        m
    } else {
        let (blocks, next) = cluster_walk(d, pos);
        let more = with_blocks(m, blocks, per_track);
        match next {
            Some(n) => if n <= pos {
                more
            } else {
                sampled(d, n, per_track, more)
            },
            None => more,
        }
    }
}

/// Adds one block to the samples.
fn take_block(
    samples: &mut BTreeMap<u64, Vec<(bool, Vec<u8>)>>,
    block: &SampledBlock,
    per_track: usize,
)
    ensures
        samples_of(final(samples)@) == with_block(
            samples_of(old(samples)@),
            block@,
            per_track as nat,
        ),
{
    let ghost before = samples_of(samples@);
    let track: u64 = block.track;
    let mut list: Vec<(bool, Vec<u8>)> = match samples.remove(&track) {
        Some(v) => v,
        None => Vec::new(),
    };
    let ghost have = if before.contains_key(track) {
        before[track]
    } else {
        seq![]
    };
    assert(frames_of(list@) =~= have);
    if list.len() < per_track {
        let mut frame: Vec<u8> = Vec::new();
        push_all(&mut frame, &block.frame);
        assert(frame@ =~= block.frame@);
        list.push((block.keyframe, frame));
        assert(frames_of(list@) =~= have.push((block.keyframe, block.frame@)));
    }
    samples.insert(track, list);
    assert(samples_of(samples@) =~= with_block(before, block@, per_track as nat));
}

/// Whether there are samples, and every track that was seen has enough of them.
fn has_enough(samples: &BTreeMap<u64, Vec<(bool, Vec<u8>)>>, per_track: usize) -> (r: bool)
    ensures
        r == enough(samples_of(samples@), per_track as nat),
{
    let ghost m = samples_of(samples@);
    if samples.is_empty() {
        return false;
    }
    let iter = samples.iter();
    let ghost all = iter.remaining();
    assert(all.len() > 0);
    assert(m.contains_key(*all[0].0)) by {
        assert(samples@.contains_key(*all[0].0));
    }
    for (number, frames) in it: iter
        invariant
            it.seq() == all,
            m == samples_of(samples@),
            forall|i: int|
                0 <= i < all.len() ==> samples@.contains_key(*(#[trigger] all[i]).0)
                    && samples@[*all[i].0] == *all[i].1,
            forall|i: int| 0 <= i < it.index@ ==> (#[trigger] all[i]).1@.len() >= per_track,
    {
        if frames.len() < per_track {
            assert(all[it.index@].1@.len() < per_track);
            assert(m.contains_key(*all[it.index@].0));
            assert(m[*all[it.index@].0].len() < per_track);
            return false;
        }
    }
    assert forall|t: u64| #[trigger] m.contains_key(t) implies m[t].len() >= per_track by {
        assert(samples@.contains_key(t));
        let i = choose|i: int| 0 <= i < all.len() && all[i] == (&t, &samples@[t]);
        assert(all[i].1@.len() >= per_track);
    }
    true
}

/// Collects up to `per_track` sample frames per track, scanning clusters from
/// `first_cluster` forward until every seen track has enough samples or the
/// data runs out.
pub fn sample_frames(data: &[u8], first_cluster: usize, per_track: usize) -> (samples: BTreeMap<
    u64,
    Vec<(bool, Vec<u8>)>,
>)
    ensures
        samples_of(samples@) == sampled(
            data@,
            first_cluster as int,
            per_track as nat,
            Map::empty(),
        ),
{
    let mut samples: BTreeMap<u64, Vec<(bool, Vec<u8>)>> = BTreeMap::new();
    let mut pos: usize = first_cluster;
    assert(samples_of(samples@) =~= Map::<u64, Seq<(bool, Seq<u8>)>>::empty());
    while pos < data.len()
        invariant
            sampled(data@, first_cluster as int, per_track as nat, Map::empty()) == sampled(
                data@,
                pos as int,
                per_track as nat,
                samples_of(samples@),
            ),
        decreases data.len() - pos,
    {
        if has_enough(&samples, per_track) {
            return samples;
        }
        let ghost m = samples_of(samples@);
        let mut blocks: Vec<SampledBlock> = Vec::new();
        let next = walk_cluster(data, pos, &mut blocks);
        let ghost list = cluster_walk(data@, pos as int).0;
        assert(blocks_of(blocks@) =~= list) by {
            assert(Seq::<Block>::empty() + list =~= list);
            assert(blocks_of(Seq::<SampledBlock>::empty()) =~= Seq::<Block>::empty());
        }
        assert(list.take(0) =~= Seq::<Block>::empty());
        let mut i: usize = 0;
        while i < blocks.len()
            invariant
                i <= blocks@.len(),
                blocks_of(blocks@) == list,
                samples_of(samples@) == with_blocks(m, list.take(i as int), per_track as nat),
            decreases blocks.len() - i,
        {
            take_block(&mut samples, &blocks[i], per_track);
            assert(list.take(i + 1).drop_last() =~= list.take(i as int));
            assert(list.take(i + 1).last() == blocks@[i as int]@);
            i += 1;
        }
        assert(list.take(i as int) =~= list);
        match next {
            Some(n) => {
                pos = n;
            },
            None => {
                return samples;
            },
        }
    }
    samples
}

/// No track has more than `per_track` samples.
pub proof fn law_samples_are_bounded(d: Seq<u8>, first_cluster: int, per_track: nat, track: u64)
    ensures
        ({
            let samples = sampled(d, first_cluster, per_track, Map::empty());
            samples.contains_key(track) ==> samples[track].len() <= per_track
        }),
{
    lemma_sampled_bounded(d, first_cluster, per_track, Map::empty());
}

spec fn bounded(m: Map<u64, Seq<(bool, Seq<u8>)>>, per_track: nat) -> bool {
    forall|t: u64| #[trigger] m.contains_key(t) ==> m[t].len() <= per_track
}

proof fn lemma_blocks_bounded(
    m: Map<u64, Seq<(bool, Seq<u8>)>>,
    blocks: Seq<Block>,
    per_track: nat,
)
    requires
        bounded(m, per_track),
    ensures
        bounded(with_blocks(m, blocks, per_track), per_track),
    decreases blocks.len(),
{
    if blocks.len() > 0 {
        lemma_blocks_bounded(m, blocks.drop_last(), per_track);
    }
}

proof fn lemma_sampled_bounded(
    d: Seq<u8>,
    pos: int,
    per_track: nat,
    m: Map<u64, Seq<(bool, Seq<u8>)>>,
)
    requires
        bounded(m, per_track),
    ensures
        bounded(sampled(d, pos, per_track, m), per_track),
    decreases d.len() - pos,
{
    if pos < d.len() && !enough(m, per_track) {
        let (blocks, next) = cluster_walk(d, pos);
        lemma_blocks_bounded(m, blocks, per_track);
        if let Some(n) = next {
            if n > pos {
                lemma_sampled_bounded(d, n, per_track, with_blocks(m, blocks, per_track));
            }
        }
    }
}

/// The frames of one track among some blocks, in order.
pub open spec fn frames_in(blocks: Seq<Block>, track: u64) -> Seq<(bool, Seq<u8>)>
    decreases blocks.len(),
{
    if blocks.len() == 0 {
        seq![]
    } else {
        let before = frames_in(blocks.drop_last(), track);
        if blocks.last().track as u64 == track {
            before.push((blocks.last().keyframe, blocks.last().frame))
        } else {
            before
        }
    }
}

/// The frames of one track in the clusters from `pos` on, in file order.
pub open spec fn track_frames(d: Seq<u8>, pos: int, track: u64) -> Seq<(bool, Seq<u8>)>
    decreases d.len() - pos,
{
    if pos >= d.len() {
        seq![]
    } else {
        let (blocks, next) = cluster_walk(d, pos);
        match next {
            Some(n) => if n <= pos {
                frames_in(blocks, track)
            } else {
                frames_in(blocks, track) + track_frames(d, n, track)
            },
            None => frames_in(blocks, track),
        }
    }
}

/// The first `n` of some frames.
spec fn leading(frames: Seq<(bool, Seq<u8>)>, n: nat) -> Seq<(bool, Seq<u8>)> {
    if frames.len() <= n {
        frames
    } else {
        frames.take(n as int)
    }
}

/// The samples hold the first `per_track` of the frames that a track had so far.
spec fn keeps(
    m: Map<u64, Seq<(bool, Seq<u8>)>>,
    track: u64,
    per_track: nat,
    frames: Seq<(bool, Seq<u8>)>,
) -> bool {
    &&& m.contains_key(track) <==> frames.len() > 0
    &&& m.contains_key(track) ==> m[track] == leading(frames, per_track)
}

proof fn lemma_blocks_keep(
    m: Map<u64, Seq<(bool, Seq<u8>)>>,
    blocks: Seq<Block>,
    per_track: nat,
    track: u64,
    frames: Seq<(bool, Seq<u8>)>,
)
    requires
        keeps(m, track, per_track, frames),
    ensures
        keeps(with_blocks(m, blocks, per_track), track, per_track, frames + frames_in(blocks, track)),
    decreases blocks.len(),
{
    if blocks.len() == 0 {
        assert(frames + frames_in(blocks, track) =~= frames);
    } else {
        lemma_blocks_keep(m, blocks.drop_last(), per_track, track, frames);
        let had = frames + frames_in(blocks.drop_last(), track);
        let b = blocks.last();
        let have = leading(had, per_track);
        if b.track as u64 == track {
            let frame = (b.keyframe, b.frame);
            assert(frames + frames_in(blocks, track) =~= had.push(frame));
            if had.len() == 0 {
                assert(have =~= Seq::<(bool, Seq<u8>)>::empty());
            }
            if have.len() < per_track {
                assert(leading(had.push(frame), per_track) =~= have.push(frame));
            } else {
                assert(leading(had.push(frame), per_track) =~= have);
            }
        }
    }
}

proof fn lemma_samples_lead(
    d: Seq<u8>,
    pos: int,
    per_track: nat,
    m: Map<u64, Seq<(bool, Seq<u8>)>>,
    track: u64,
    frames: Seq<(bool, Seq<u8>)>,
)
    requires
        keeps(m, track, per_track, frames),
    ensures
        ({
            let samples = sampled(d, pos, per_track, m);
            samples.contains_key(track) ==> samples[track].is_prefix_of(
                frames + track_frames(d, pos, track),
            )
        }),
    decreases d.len() - pos,
{
    if pos < d.len() && !enough(m, per_track) {
        let (blocks, next) = cluster_walk(d, pos);
        let more = frames + frames_in(blocks, track);
        lemma_blocks_keep(m, blocks, per_track, track, frames);
        if let Some(n) = next {
            if n > pos {
                lemma_samples_lead(
                    d,
                    n,
                    per_track,
                    with_blocks(m, blocks, per_track),
                    track,
                    more,
                );
                assert(more + track_frames(d, n, track) =~= frames + track_frames(d, pos, track));
            }
        }
    }
}

/// The samples of a track are the first of its frames, in file order, over the clusters
/// that follow one another from the first on.
pub proof fn law_samples_lead_the_track(
    d: Seq<u8>,
    first_cluster: int,
    per_track: nat,
    track: u64,
)
    ensures
        ({
            let samples = sampled(d, first_cluster, per_track, Map::empty());
            samples.contains_key(track) ==> samples[track].is_prefix_of(
                track_frames(d, first_cluster, track),
            )
        }),
{
    let none = Seq::<(bool, Seq<u8>)>::empty();
    lemma_samples_lead(d, first_cluster, per_track, Map::empty(), track, none);
    assert(none + track_frames(d, first_cluster, track) =~= track_frames(d, first_cluster, track));
}

/// The last cluster is sampled whole: each track in it has the first `per_track` of its frames
/// there, and no other track has any.
pub proof fn law_one_cluster_is_sampled(
    d: Seq<u8>,
    pos: int,
    blocks: Seq<Block>,
    per_track: nat,
    track: u64,
)
    requires
        0 <= pos < d.len(),
        cluster_walk(d, pos) == (blocks, Some(d.len() as int)),
    ensures
        ({
            let samples = sampled(d, pos, per_track, Map::empty());
            let frames = frames_in(blocks, track);
            &&& samples.contains_key(track) <==> frames.len() > 0
            &&& frames.len() > 0 ==> samples[track] == frames.take(
                if frames.len() < per_track {
                    frames.len() as int
                } else {
                    per_track as int
                },
            )
        }),
{
    let none = Map::<u64, Seq<(bool, Seq<u8>)>>::empty();
    let nothing = Seq::<(bool, Seq<u8>)>::empty();
    let frames = frames_in(blocks, track);
    lemma_blocks_keep(none, blocks, per_track, track, nothing);
    assert(nothing + frames =~= frames);
    assert(!enough(none, per_track));
    let more = with_blocks(none, blocks, per_track);
    assert(sampled(d, d.len() as int, per_track, more) == more);
    assert(frames.take(frames.len() as int) =~= frames);
}

proof fn lemma_blocks_extend(
    m: Map<u64, Seq<(bool, Seq<u8>)>>,
    blocks: Seq<Block>,
    per_track: nat,
    track: u64,
)
    requires
        m.contains_key(track),
    ensures
        with_blocks(m, blocks, per_track).contains_key(track),
        m[track].is_prefix_of(with_blocks(m, blocks, per_track)[track]),
    decreases blocks.len(),
{
    if blocks.len() > 0 {
        lemma_blocks_extend(m, blocks.drop_last(), per_track, track);
    }
}

proof fn lemma_samples_extend(
    d: Seq<u8>,
    pos: int,
    per_track: nat,
    m: Map<u64, Seq<(bool, Seq<u8>)>>,
    track: u64,
)
    requires
        m.contains_key(track),
    ensures
        sampled(d, pos, per_track, m).contains_key(track),
        m[track].is_prefix_of(sampled(d, pos, per_track, m)[track]),
    decreases d.len() - pos,
{
    if pos < d.len() && !enough(m, per_track) {
        let (blocks, next) = cluster_walk(d, pos);
        lemma_blocks_extend(m, blocks, per_track, track);
        if let Some(n) = next {
            if n > pos {
                lemma_samples_extend(
                    d,
                    n,
                    per_track,
                    with_blocks(m, blocks, per_track),
                    track,
                );
            }
        }
    }
}

/// Two scans that stand at one place, with different limits.
spec fn keep_alike(
    few: Map<u64, Seq<(bool, Seq<u8>)>>,
    less: nat,
    many: Map<u64, Seq<(bool, Seq<u8>)>>,
    more: nat,
    frames: spec_fn(u64) -> Seq<(bool, Seq<u8>)>,
) -> bool {
    forall|t: u64|
        #![trigger few.contains_key(t)]
        #![trigger many.contains_key(t)]
        keeps(few, t, less, frames(t)) && keeps(many, t, more, frames(t))
}

proof fn lemma_samples_grow(
    d: Seq<u8>,
    pos: int,
    less: nat,
    few: Map<u64, Seq<(bool, Seq<u8>)>>,
    more: nat,
    many: Map<u64, Seq<(bool, Seq<u8>)>>,
    frames: spec_fn(u64) -> Seq<(bool, Seq<u8>)>,
    track: u64,
)
    requires
        less <= more,
        keep_alike(few, less, many, more, frames),
        sampled(d, pos, less, few).contains_key(track),
    ensures
        sampled(d, pos, more, many).contains_key(track),
        sampled(d, pos, less, few)[track].is_prefix_of(sampled(d, pos, more, many)[track]),
    decreases d.len() - pos,
{
    if pos >= d.len() || enough(few, less) {
        assert(keeps(few, track, less, frames(track)) && keeps(many, track, more, frames(track)));
        lemma_samples_extend(d, pos, more, many, track);
    } else {
        if enough(many, more) {
            let t = choose|t: u64| #[trigger] many.contains_key(t);
            assert(few.contains_key(t));
            assert forall|t: u64| #[trigger] few.contains_key(t) implies few[t].len() >= less by {
                assert(many.contains_key(t));
            }
            assert(enough(few, less));
        }
        let (blocks, next) = cluster_walk(d, pos);
        let then_few = with_blocks(few, blocks, less);
        let then_many = with_blocks(many, blocks, more);
        let then_frames = |t: u64| frames(t) + frames_in(blocks, t);
        assert forall|t: u64|
            keeps(then_few, t, less, #[trigger] then_frames(t)) && keeps(
                then_many,
                t,
                more,
                then_frames(t),
            ) by {
            assert(few.contains_key(t) || !few.contains_key(t));
            lemma_blocks_keep(few, blocks, less, t, frames(t));
            lemma_blocks_keep(many, blocks, more, t, frames(t));
        }
        assert(keep_alike(then_few, less, then_many, more, then_frames)) by {
            assert forall|t: u64|
                #![trigger then_few.contains_key(t)]
                #![trigger then_many.contains_key(t)]
                keeps(then_few, t, less, then_frames(t)) && keeps(
                    then_many,
                    t,
                    more,
                    then_frames(t),
                ) by {
                let f = then_frames(t);
            }
        }
        if next is Some && next.unwrap() > pos {
            lemma_samples_grow(
                d,
                next.unwrap(),
                less,
                then_few,
                more,
                then_many,
                then_frames,
                track,
            );
        } else {
            assert(then_few.contains_key(track));
        }
    }
}

/// A smaller limit gives less of the same: each track that it samples is sampled under
/// the larger limit too, and begins with the same frames.
pub proof fn law_smaller_limit_gives_a_prefix(
    d: Seq<u8>,
    first_cluster: int,
    less: nat,
    more: nat,
    track: u64,
)
    requires
        less <= more,
    ensures
        ({
            let few = sampled(d, first_cluster, less, Map::empty());
            let many = sampled(d, first_cluster, more, Map::empty());
            few.contains_key(track) ==> many.contains_key(track) && few[track].is_prefix_of(
                many[track],
            )
        }),
{
    let none = Map::<u64, Seq<(bool, Seq<u8>)>>::empty();
    let frames = |t: u64| Seq::<(bool, Seq<u8>)>::empty();
    if sampled(d, first_cluster, less, none).contains_key(track) {
        assert(keep_alike(none, less, none, more, frames));
        lemma_samples_grow(d, first_cluster, less, none, more, none, frames, track);
    }
}

/// The samples of all clusters from `pos` on.
pub open spec fn sampled_whole(
    d: Seq<u8>,
    pos: int,
    per_track: nat,
    m: Map<u64, Seq<(bool, Seq<u8>)>>,
) -> Map<u64, Seq<(bool, Seq<u8>)>>
    decreases d.len() - pos,
{
    if pos >= d.len() {
        m
    } else {
        let (blocks, next) = cluster_walk(d, pos);
        let more = with_blocks(m, blocks, per_track);
        match next {
            Some(n) => if n <= pos {
                more
            } else {
                sampled_whole(d, n, per_track, more)
            },
            None => more,
        }
    }
}

/// Where the clusters from `pos` on lead, one behind the other: to the end of the data, or
/// to the first that is malformed.
pub open spec fn clusters_end(d: Seq<u8>, pos: int) -> int
    decreases d.len() - pos,
{
    match cluster_walk(d, pos).1 {
        Some(n) => if pos < n <= d.len() {
            clusters_end(d, n)
        } else {
            pos
        },
        None => pos,
    }
}

/// The scan does not stop short: where every cluster can be walked, each track that is
/// seen in the end has enough samples, or all the data was read.
pub proof fn law_scan_does_not_stop_short(
    d: Seq<u8>,
    pos: int,
    per_track: nat,
    m: Map<u64, Seq<(bool, Seq<u8>)>>,
)
    requires
        0 <= pos <= d.len(),
        clusters_end(d, pos) == d.len(),
    ensures
        enough(sampled(d, pos, per_track, m), per_track) || sampled(d, pos, per_track, m)
            == sampled_whole(d, pos, per_track, m),
    decreases d.len() - pos,
{
    if pos < d.len() && !enough(m, per_track) {
        let (blocks, next) = cluster_walk(d, pos);
        law_scan_does_not_stop_short(
            d,
            next.unwrap(),
            per_track,
            with_blocks(m, blocks, per_track),
        );
    }
}

// ---------------------------------------------------------------------------
// Diagnosis
// ---------------------------------------------------------------------------

/// One reconstructed track: its block number and sniffed codec.
#[derive(Debug, Clone, PartialEq)]
pub struct Track {
    pub number: u64,
    pub codec: Codec,
}

/// What is known of a track.
pub struct TrackShape {
    pub number: int,
    pub codec: CodecShape,
}

impl View for Track {
    type V = TrackShape;

    open spec fn view(&self) -> TrackShape {
        TrackShape { number: self.number as int, codec: self.codec@ }
    }
}

/// What is known of a list of tracks.
pub open spec fn shapes_of(tracks: Seq<Track>) -> Seq<TrackShape> {
    tracks.map_values(|t: Track| t@)
}

/// A heavy beheading: the head is gone, but clusters survive from `first_cluster`.
#[derive(Debug, Clone, PartialEq)]
pub struct Heavy {
    /// Offset of the first verified surviving cluster.
    pub first_cluster: usize,
    /// Offset of the first cluster led by a true video keyframe: the clean
    /// playback start. `None` if no keyframe-led cluster was found in the scan
    /// window (then playback must start mid-GOP and may show leading artifacts).
    pub first_keyframe_cluster: Option<usize>,
    pub tracks: Vec<Track>,
    /// Bytes discarded before the chosen playback start.
    pub bytes_lost: usize,
}

/// What `analyze` concluded about a buffer.
#[derive(Debug, Clone, PartialEq)]
pub enum Analysis {
    /// Valid EBML magic at offset 0: not a beheading; leave it to ffmpeg.
    Intact,
    /// Only clusters survive; the `Tracks` element must be reconstructed.
    Heavy(Heavy),
    /// No usable Matroska structure found.
    NoStructure,
}

/// A cluster begins at `pos` whose first child is a plausible Timecode or block,
/// which guards against the 4-byte cluster ID appearing inside frame data.
pub open spec fn verified_cluster(d: Seq<u8>, pos: int) -> bool {
    match element_at(d, pos) {
        Some(c) => c.id == ID_CLUSTER && match element_at(d, c.data_pos) {
            Some(child) => child.id == ID_TIMECODE || child.id == ID_SIMPLE_BLOCK || child.id
                == ID_BLOCK_GROUP,
            None => false,
        },
        None => false,
    }
}

/// The first offset, from `i` on, that begins a verified cluster.
pub open spec fn first_cluster_from(d: Seq<u8>, i: int) -> Option<int>
    decreases d.len() - i,
{
    if i + 4 > d.len() {
        None
    } else if stands_at(d, i, EBML_CLUSTER@) && verified_cluster(d, i) {
        Some(i)
    } else {
        first_cluster_from(d, i + 1)
    }
}

/// Whether a codec is a video codec.
pub open spec fn is_video(codec: CodecShape) -> bool {
    codec is Vp9 || codec is Vp8 || codec is Av1 || codec is H264
}

/// The number of the first video track, from the `i`th track on.
pub open spec fn first_video(tracks: Seq<TrackShape>, i: int) -> Option<int>
    decreases tracks.len() - i,
{
    if i >= tracks.len() {
        None
    } else if is_video(tracks[i].codec) {
        Some(tracks[i].number)
    } else {
        first_video(tracks, i + 1)
    }
}

/// Whether the first block of a track, from the `i`th block on, is a true keyframe.
pub open spec fn leads_with_keyframe(blocks: Seq<Block>, track: int, i: int) -> bool
    decreases blocks.len() - i,
{
    if i >= blocks.len() {
        false
    } else if blocks[i].track == track {
        vp9_size(bits_of(blocks[i].frame)) is Some
    } else {
        leads_with_keyframe(blocks, track, i + 1)
    }
}

/// The first cluster led by a true keyframe, of the `left` clusters from `pos` on.
pub open spec fn keyframe_cluster(d: Seq<u8>, pos: int, track: int, left: nat) -> Option<int>
    decreases left,
{
    if pos >= d.len() || left == 0 {
        None
    } else {
        let (blocks, next) = cluster_walk(d, pos);
        match next {
            None => None,
            Some(n) => if leads_with_keyframe(blocks, track, 0) {
                Some(pos)
            } else if n <= pos {
                None
            } else {
                keyframe_cluster(d, n, track, (left - 1) as nat)
            },
        }
    }
}

/// The clean playback start. With no video track, audio frames are all keyframes, so
/// the first cluster itself is clean.
pub open spec fn clean_start(d: Seq<u8>, first: int, video: Option<int>) -> Option<int> {
    match video {
        None => Some(first),
        Some(track) => keyframe_cluster(d, first, track, 32),
    }
}

/// The tracks are those that were sampled, each once, by number, each with the codec
/// that its samples give away.
pub open spec fn lists_samples(
    tracks: Seq<TrackShape>,
    samples: Map<u64, Seq<(bool, Seq<u8>)>>,
) -> bool {
    &&& forall|i: int, j: int| 0 <= i < j < tracks.len() ==> tracks[i].number < tracks[j].number
    &&& forall|i: int|
        0 <= i < tracks.len() ==> {
            let t = #[trigger] tracks[i];
            0 <= t.number <= u64::MAX && samples.contains_key(t.number as u64) && t.codec
                == sniffed(samples[t.number as u64])
        }
    &&& forall|n: u64| #[trigger]
        samples.contains_key(n) ==> exists|i: int|
            0 <= i < tracks.len() && (#[trigger] tracks[i]).number == n
}

/// The samples that a diagnosis rests on.
pub open spec fn evidence(d: Seq<u8>, first: int) -> Map<u64, Seq<(bool, Seq<u8>)>> {
    sampled(d, first, 6, Map::empty())
}

/// A heavy beheading is what the data shows.
pub open spec fn heavy_of(d: Seq<u8>, h: Heavy) -> bool {
    &&& first_cluster_from(d, 0) == Some(h.first_cluster as int)
    &&& lists_samples(shapes_of(h.tracks@), evidence(d, h.first_cluster as int))
    &&& match h.first_keyframe_cluster {
        Some(k) => Some(k as int),
        None => None,
    } == clean_start(d, h.first_cluster as int, first_video(shapes_of(h.tracks@), 0))
    &&& h.bytes_lost == match h.first_keyframe_cluster {
        Some(k) => k,
        None => h.first_cluster,
    }
}

fn validate_cluster(data: &[u8], pos: usize) -> (r: bool)
    ensures
        r == verified_cluster(data@, pos as int),
{
    match read_element(data, pos) {
        Some(cluster) => {
            if cluster.id != ID_CLUSTER {
                return false;
            }
            match read_element(data, cluster.data_pos) {
                Some(child) => child.id == ID_TIMECODE || child.id == ID_SIMPLE_BLOCK || child.id
                    == ID_BLOCK_GROUP,
                None => false,
            }
        },
        None => false,
    }
}

fn find_first_cluster(data: &[u8]) -> (r: Option<usize>)
    ensures
        match r {
            Some(i) => first_cluster_from(data@, 0) == Some(i as int) && i + 4 <= data@.len(),
            None => first_cluster_from(data@, 0) is None,
        },
{
    let mut i: usize = 0;
    while data.len() >= 4 && i <= data.len() - 4
        invariant
            i <= data@.len(),
            first_cluster_from(data@, 0) == first_cluster_from(data@, i as int),
        decreases data.len() - i,
    {
        if matches_at(data, i, &EBML_CLUSTER) && validate_cluster(data, i) {
            return Some(i);
        }
        i += 1;
    }
    None
}

fn video_track(tracks: &[Track]) -> (r: Option<u64>)
    ensures
        first_video(shapes_of(tracks@), 0) == match r {
            Some(n) => Some(n as int),
            None => None,
        },
{
    let mut i: usize = 0;
    while i < tracks.len()
        invariant
            i <= tracks@.len(),
            first_video(shapes_of(tracks@), 0) == first_video(shapes_of(tracks@), i as int),
        decreases tracks.len() - i,
    {
        assert(shapes_of(tracks@)[i as int] == tracks@[i as int]@);
        match tracks[i].codec {
            Codec::Vp9 { .. } | Codec::Vp8 { .. } | Codec::Av1 { .. } | Codec::H264 { .. } => {
                return Some(tracks[i].number);
            },
            Codec::Opus { .. } | Codec::NeedsDonor { .. } => {},
        }
        i += 1;
    }
    None
}

fn led_by_keyframe(blocks: &[SampledBlock], track: u64) -> (r: bool)
    ensures
        r == leads_with_keyframe(blocks_of(blocks@), track as int, 0),
{
    let mut i: usize = 0;
    while i < blocks.len()
        invariant
            i <= blocks@.len(),
            leads_with_keyframe(blocks_of(blocks@), track as int, 0) == leads_with_keyframe(
                blocks_of(blocks@),
                track as int,
                i as int,
            ),
        decreases blocks.len() - i,
    {
        assert(blocks_of(blocks@)[i as int] == blocks@[i as int]@);
        if blocks[i].track == track {
            return vp9_dims(&blocks[i].frame).is_some();
        }
        i += 1;
    }
    false
}

fn find_keyframe_cluster(data: &[u8], start: usize, video: Option<u64>) -> (r: Option<usize>)
    requires
        start <= data@.len(),
    ensures
        match r {
            Some(k) => Some(k as int),
            None => None,
        } == clean_start(
            data@,
            start as int,
            match video {
                Some(n) => Some(n as int),
                None => None,
            },
        ),
        r matches Some(k) ==> k <= data@.len(),
{
    let track: u64 = match video {
        Some(n) => n,
        None => {
            return Some(start);
        },
    };
    let mut pos: usize = start;
    let mut scanned: u32 = 0;
    while pos < data.len() && scanned < 32
        invariant
            scanned <= 32,
            keyframe_cluster(data@, start as int, track as int, 32) == keyframe_cluster(
                data@,
                pos as int,
                track as int,
                (32 - scanned) as nat,
            ),
            video == Some(track),
        decreases 32 - scanned,
    {
        let mut blocks: Vec<SampledBlock> = Vec::new();
        let next = walk_cluster(data, pos, &mut blocks);
        proof {
            let list = cluster_walk(data@, pos as int).0;
            assert(blocks_of(Seq::<SampledBlock>::empty()) =~= Seq::<Block>::empty());
            assert(Seq::<Block>::empty() + list =~= list);
        }
        match next {
            Some(n) => {
                if led_by_keyframe(&blocks, track) {
                    return Some(pos);
                }
                scanned += 1;
                pos = n;
            },
            None => {
                return None;
            },
        }
    }
    None
}

proof fn lemma_increasing(keys: Seq<u64>)
    requires
        vstd::std_specs::btree::increasing_seq(keys),
    ensures
        forall|i: int, j: int| 0 <= i < j < keys.len() ==> keys[i] < keys[j],
{
    assert forall|i: int, j: int| 0 <= i < j < keys.len() implies keys[i] < keys[j] by {
        assert(keys[i].cmp_spec(&keys[j]) is Less);
    }
}

/// The tracks that the samples give away, by number.
fn sniff_tracks(samples: &BTreeMap<u64, Vec<(bool, Vec<u8>)>>) -> (tracks: Vec<Track>)
    ensures
        lists_samples(shapes_of(tracks@), samples_of(samples@)),
        tracks@.len() == samples@.len(),
{
    let mut tracks: Vec<Track> = Vec::new();
    let iter = samples.iter();
    let ghost all = iter.remaining();
    let ghost keys = all.map_values(|kv: (&u64, &Vec<(bool, Vec<u8>)>)| *kv.0);
    assert forall|i: int, j: int| 0 <= i < j < all.len() implies *(#[trigger] all[i]).0 < *(
    #[trigger] all[j]).0 by {
        lemma_increasing(keys);
        assert(keys[i] == *all[i].0 && keys[j] == *all[j].0);
    }
    for (number, frames) in it: iter
        invariant
            it.seq() == all,
            tracks@.len() == it.index@,
            forall|i: int|
                0 <= i < tracks@.len() ==> (#[trigger] tracks@[i]).number == *all[i].0
                    && tracks@[i].codec@ == sniffed(frames_of(all[i].1@)),
    {
        tracks.push(Track { number: *number, codec: sniff(frames) });
    }
    proof {
        let shapes = shapes_of(tracks@);
        let m = samples_of(samples@);
        assert forall|n: u64| #[trigger] m.contains_key(n) implies exists|i: int|
            0 <= i < shapes.len() && (#[trigger] shapes[i]).number == n by {
            assert(samples@.contains_key(n));
            let i = choose|i: int| 0 <= i < all.len() && all[i] == (&n, &samples@[n]);
            assert(shapes[i].number == n);
        }
        assert forall|i: int| 0 <= i < shapes.len() implies {
            let t = #[trigger] shapes[i];
            0 <= t.number <= u64::MAX && m.contains_key(t.number as u64) && t.codec == sniffed(
                m[t.number as u64],
            )
        } by {
            assert(samples@.contains_key(*all[i].0));
        }
    }
    tracks
}

/// Diagnoses a buffer that has no MP4 index.
pub fn analyze(data: &[u8]) -> (r: Analysis)
    ensures
        match r {
            Analysis::Intact => stands_at(data@, 0, EBML@),
            Analysis::Heavy(h) => !stands_at(data@, 0, EBML@) && heavy_of(data@, h)
                && h.tracks@.len() > 0 && resolved(shapes_of(h.tracks@)) && h.first_cluster
                <= data@.len() && h.bytes_lost <= data@.len(),
            Analysis::NoStructure => !stands_at(data@, 0, EBML@) && match first_cluster_from(
                data@,
                0,
            ) {
                None => true,
                Some(first) => evidence(data@, first).dom().is_empty(),
            },
        },
{
    if matches_at(data, 0, &EBML) {
        return Analysis::Intact;
    }
    let first: usize = match find_first_cluster(data) {
        Some(i) => i,
        None => {
            return Analysis::NoStructure;
        },
    };
    let samples = sample_frames(data, first, 6);
    if samples.is_empty() {
        return Analysis::NoStructure;
    }
    let tracks = sniff_tracks(&samples);
    let first_keyframe_cluster = find_keyframe_cluster(data, first, video_track(&tracks));
    let bytes_lost: usize = match first_keyframe_cluster {
        Some(k) => k,
        None => first,
    };
    Analysis::Heavy(Heavy { first_cluster: first, first_keyframe_cluster, tracks, bytes_lost })
}

// ---------------------------------------------------------------------------
// Re-heading
// ---------------------------------------------------------------------------

/// A track whose parameters lived in the lost header.
#[derive(Debug, Clone, Copy, PartialEq)]
pub struct DonorNeeded {
    pub track: u64,
    pub hint: &'static str,
}

impl DonorNeeded {
    /// The error in words.
    pub fn message(&self) -> (r: String)
        ensures
            r@ == "track "@ + decimal(self.track as nat)
                + " cannot be re-headed without a donor ("@ + self.hint@ + ")"@,
    {
        let mut s = String::from_str("track ");
        push_decimal(&mut s, self.track);
        s.append(" cannot be re-headed without a donor (");
        s.append(self.hint);
        s.append(")");
        s
    }
}

/// The first track, from the `i`th on, that needs a donor.
pub open spec fn first_needing_donor(tracks: Seq<TrackShape>, i: int) -> Option<TrackShape>
    decreases tracks.len() - i,
{
    if i >= tracks.len() {
        None
    } else if tracks[i].codec is NeedsDonor {
        Some(tracks[i])
    } else {
        first_needing_donor(tracks, i + 1)
    }
}

/// An error names the first track that needs a donor.
pub open spec fn names_donor_track(e: DonorNeeded, tracks: Seq<TrackShape>) -> bool {
    first_needing_donor(tracks, 0) == Some(
        TrackShape { number: e.track as int, codec: CodecShape::NeedsDonor { hint: e.hint@ } },
    )
}

/// Whether every codec is legal in a `.webm`.
pub open spec fn webm_legal(tracks: Seq<TrackShape>) -> bool {
    forall|i: int|
        0 <= i < tracks.len() ==> {
            let codec = (#[trigger] tracks[i]).codec;
            codec is Vp9 || codec is Vp8 || codec is Av1 || codec is Opus
        }
}

/// Every track has a codec that frames alone can describe, or says that it needs a
/// donor.
pub open spec fn resolved(tracks: Seq<TrackShape>) -> bool {
    forall|i: int|
        0 <= i < tracks.len() ==> synthesizable((#[trigger] tracks[i]).codec)
            || tracks[i].codec is NeedsDonor
}

/// The track entries.
pub open spec fn entries(tracks: Seq<TrackShape>) -> Seq<u8>
    decreases tracks.len(),
{
    if tracks.len() == 0 {
        seq![]
    } else {
        entries(tracks.drop_last()) + track_entry_bytes(
            tracks.last().number as nat,
            tracks.last().codec,
        )
    }
}

/// The opening of a Segment of unknown size, whose children are read until the end of
/// the file.
pub const SEGMENT_OPEN: [u8; 12] = [
    0x18,
    0x53,
    0x80,
    0x67,
    0x01,
    0xff,
    0xff,
    0xff,
    0xff,
    0xff,
    0xff,
    0xff,
];

/// "basinski"
pub const APP_NAME: [u8; 8] = [0x62, 0x61, 0x73, 0x69, 0x6e, 0x73, 0x6b, 0x69];

/// "webm"
pub const WEBM: [u8; 4] = [0x77, 0x65, 0x62, 0x6d];

/// "matroska"
pub const MATROSKA: [u8; 8] = [0x6d, 0x61, 0x74, 0x72, 0x6f, 0x73, 0x6b, 0x61];

/// The payload of the EBML header.
pub open spec fn header_payload(doctype: Seq<u8>) -> Seq<u8> {
    uint_bytes(ID_EBML_VERSION, 1) + uint_bytes(ID_EBML_READ_VERSION, 1) + uint_bytes(
        ID_EBML_MAX_ID_LEN,
        4,
    ) + uint_bytes(ID_EBML_MAX_SIZE_LEN, 8) + el_bytes(ID_DOCTYPE, doctype) + uint_bytes(
        ID_DOCTYPE_VERSION,
        2,
    ) + uint_bytes(ID_DOCTYPE_READ_VERSION, 2)
}

/// The payload of the Info element: timecodes count milliseconds.
pub open spec fn info_payload() -> Seq<u8> {
    uint_bytes(ID_TIMECODE_SCALE, 1_000_000) + el_bytes(ID_MUXING_APP, APP_NAME@) + el_bytes(
        ID_WRITING_APP,
        APP_NAME@,
    )
}

/// The container head: EBML header, Segment of unknown size, Info, Tracks.
pub open spec fn head_bytes(tracks: Seq<TrackShape>, doctype: Seq<u8>) -> Seq<u8> {
    el_bytes(ID_EBML, header_payload(doctype)) + SEGMENT_OPEN@ + el_bytes(ID_INFO, info_payload())
        + el_bytes(ID_TRACKS, entries(tracks))
}

/// The document type that the tracks allow.
pub open spec fn doctype_of(tracks: Seq<TrackShape>) -> Seq<u8> {
    if webm_legal(tracks) {
        WEBM@
    } else {
        MATROSKA@
    }
}

/// True if every track's codec is legal in a `.webm` (so the DocType is "webm";
/// otherwise "matroska").
pub fn all_webm_legal(tracks: &[Track]) -> (r: bool)
    ensures
        r == webm_legal(shapes_of(tracks@)),
{
    let mut i: usize = 0;
    while i < tracks.len()
        invariant
            i <= tracks@.len(),
            webm_legal(shapes_of(tracks@).take(i as int)),
        decreases tracks.len() - i,
    {
        let ghost shapes = shapes_of(tracks@);
        assert(shapes[i as int] == tracks@[i as int]@);
        match tracks[i].codec {
            Codec::Vp9 { .. } | Codec::Vp8 { .. } | Codec::Av1 { .. } | Codec::Opus { .. } => {},
            Codec::H264 { .. } | Codec::NeedsDonor { .. } => {
                return false;
            },
        }
        assert forall|j: int| 0 <= j < i + 1 implies {
            let codec = (#[trigger] shapes.take(i + 1)[j]).codec;
            codec is Vp9 || codec is Vp8 || codec is Av1 || codec is Opus
        } by {
            if j < i {
                assert(shapes.take(i as int)[j] == shapes.take(i + 1)[j]);
            }
        }
        i += 1;
    }
    assert(shapes_of(tracks@).take(i as int) =~= shapes_of(tracks@));
    true
}

/// The first track that needs a donor, if any.
pub fn needs_donor(tracks: &[Track]) -> (r: Option<DonorNeeded>)
    ensures
        match r {
            Some(e) => names_donor_track(e, shapes_of(tracks@)),
            None => first_needing_donor(shapes_of(tracks@), 0) is None && forall|i: int|
                0 <= i < tracks@.len() ==> !(#[trigger] tracks@[i].codec is NeedsDonor),
        },
{
    let mut i: usize = 0;
    while i < tracks.len()
        invariant
            i <= tracks@.len(),
            first_needing_donor(shapes_of(tracks@), 0) == first_needing_donor(
                shapes_of(tracks@),
                i as int,
            ),
            forall|j: int| 0 <= j < i ==> !(#[trigger] tracks@[j].codec is NeedsDonor),
        decreases tracks.len() - i,
    {
        assert(shapes_of(tracks@)[i as int] == tracks@[i as int]@);
        match tracks[i].codec {
            Codec::NeedsDonor { hint } => {
                return Some(DonorNeeded { track: tracks[i].number, hint });
            },
            Codec::Vp9 { .. }
            | Codec::Vp8 { .. }
            | Codec::Av1 { .. }
            | Codec::Opus { .. }
            | Codec::H264 { .. } => {},
        }
        i += 1;
    }
    None
}

fn header_element(doctype: &[u8]) -> (r: Vec<u8>)
    requires
        doctype@.len() + 200 < VINT_LIMIT,
    ensures
        r@ == el_bytes(ID_EBML, header_payload(doctype@)),
{
    let mut payload = uint(ID_EBML_VERSION, 1);
    push_all(&mut payload, &uint(ID_EBML_READ_VERSION, 1));
    push_all(&mut payload, &uint(ID_EBML_MAX_ID_LEN, 4));
    push_all(&mut payload, &uint(ID_EBML_MAX_SIZE_LEN, 8));
    proof {
        lemma_el_length(ID_DOCTYPE, doctype@);
    }
    push_all(&mut payload, &el(ID_DOCTYPE, doctype));
    push_all(&mut payload, &uint(ID_DOCTYPE_VERSION, 2));
    push_all(&mut payload, &uint(ID_DOCTYPE_READ_VERSION, 2));
    el(ID_EBML, &payload)
}

fn info_element() -> (r: Vec<u8>)
    ensures
        r@ == el_bytes(ID_INFO, info_payload()),
{
    let mut payload = uint(ID_TIMECODE_SCALE, 1_000_000);
    proof {
        lemma_el_length(ID_MUXING_APP, APP_NAME@);
        lemma_el_length(ID_WRITING_APP, APP_NAME@);
    }
    push_all(&mut payload, &el(ID_MUXING_APP, &APP_NAME));
    push_all(&mut payload, &el(ID_WRITING_APP, &APP_NAME));
    el(ID_INFO, &payload)
}

fn tracks_element(tracks: &[Track]) -> (r: Vec<u8>)
    requires
        forall|i: int| 0 <= i < tracks@.len() ==> synthesizable(#[trigger] tracks@[i].codec@),
        300 * tracks@.len() < VINT_LIMIT,
    ensures
        r@ == el_bytes(ID_TRACKS, entries(shapes_of(tracks@))),
{
    let ghost shapes = shapes_of(tracks@);
    let mut payload: Vec<u8> = Vec::new();
    let mut i: usize = 0;
    assert(shapes.take(0) =~= Seq::<TrackShape>::empty());
    while i < tracks.len()
        invariant
            i <= tracks@.len(),
            shapes == shapes_of(tracks@),
            forall|i: int| 0 <= i < tracks@.len() ==> synthesizable(#[trigger] tracks@[i].codec@),
            payload@ == entries(shapes.take(i as int)),
            payload@.len() <= 300 * i,
        decreases tracks.len() - i,
    {
        push_all(&mut payload, &track_entry(tracks[i].number, &tracks[i].codec));
        assert(shapes.take(i + 1).drop_last() =~= shapes.take(i as int));
        assert(shapes.take(i + 1).last() == tracks@[i as int]@);
        i += 1;
    }
    assert(shapes.take(i as int) =~= shapes);
    el(ID_TRACKS, &payload)
}

fn head_for(tracks: &[Track], doctype: &[u8]) -> (r: Result<Vec<u8>, DonorNeeded>)
    requires
        resolved(shapes_of(tracks@)),
        300 * tracks@.len() < VINT_LIMIT,
        doctype@.len() + 200 < VINT_LIMIT,
    ensures
        match r {
            Ok(head) => first_needing_donor(shapes_of(tracks@), 0) is None && head@ == head_bytes(
                shapes_of(tracks@),
                doctype@,
            ),
            Err(e) => names_donor_track(e, shapes_of(tracks@)),
        },
{
    if let Some(e) = needs_donor(tracks) {
        return Err(e);
    }
    assert forall|i: int| 0 <= i < tracks@.len() implies synthesizable(
        #[trigger] tracks@[i].codec@,
    ) by {
        assert(shapes_of(tracks@)[i] == tracks@[i]@);
        assert(!(tracks@[i].codec is NeedsDonor));
    }
    let mut head = header_element(doctype);
    push_all(&mut head, &SEGMENT_OPEN);
    push_all(&mut head, &info_element());
    push_all(&mut head, &tracks_element(tracks));
    Ok(head)
}

/// Synthesizes the container head: EBML header + Segment(unknown size) + Info +
/// Tracks. Errs if any track still needs a donor.
pub fn build_head(tracks: &[Track], doctype: &str) -> (r: Result<Vec<u8>, DonorNeeded>)
    requires
        resolved(shapes_of(tracks@)),
        300 * tracks@.len() < VINT_LIMIT,
        doctype.spec_bytes().len() + 200 < VINT_LIMIT,
    ensures
        match r {
            Ok(head) => first_needing_donor(shapes_of(tracks@), 0) is None && head@ == head_bytes(
                shapes_of(tracks@),
                doctype.spec_bytes(),
            ),
            Err(e) => names_donor_track(e, shapes_of(tracks@)),
        },
{
    head_for(tracks, doctype.as_bytes())
}

/// Full reconstructed file bytes: synthesized head followed by the surviving
/// clusters from `start_offset` to the end, copied verbatim. `start_offset` is a
/// cluster boundary chosen by the caller (the first keyframe-led cluster for a clean
/// start, or `first_cluster` to keep everything).
pub fn reconstruct(data: &[u8], h: &Heavy, start_offset: usize) -> (r: Result<
    Vec<u8>,
    DonorNeeded,
>)
    requires
        resolved(shapes_of(h.tracks@)),
        300 * h.tracks@.len() < VINT_LIMIT,
        start_offset <= data@.len(),
    ensures
        match r {
            Ok(out) => first_needing_donor(shapes_of(h.tracks@), 0) is None && out@ == head_bytes(
                shapes_of(h.tracks@),
                doctype_of(shapes_of(h.tracks@)),
            ) + data@.skip(start_offset as int),
            Err(e) => names_donor_track(e, shapes_of(h.tracks@)),
        },
{
    let built = if all_webm_legal(&h.tracks) {
        head_for(&h.tracks, &WEBM)
    } else {
        head_for(&h.tracks, &MATROSKA)
    };
    match built {
        Ok(head) => {
            let mut out = head;
            push_all(&mut out, &data[start_offset..data.len()]);
            assert(data@.subrange(start_offset as int, data@.len() as int) =~= data@.skip(
                start_offset as int,
            ));
            Ok(out)
        },
        Err(e) => Err(e),
    }
}

proof fn lemma_segment_opens(before: Seq<u8>, after: Seq<u8>)
    ensures
        element_at(before + SEGMENT_OPEN@ + after, before.len() as int) == Some(
            ElementSpan {
                id: ID_SEGMENT as int,
                size: None,
                header_len: 12,
                data_pos: before.len() as int + 12,
            },
        ),
{
    let d = before + SEGMENT_OPEN@ + after;
    let p = before.len() as int;
    let id = d.subrange(p, p + 4);
    let size = d.subrange(p + 4, p + 12);
    assert(id =~= seq![0x18u8, 0x53, 0x80, 0x67]);
    assert(size =~= seq![0x01u8, 0xff, 0xff, 0xff, 0xff, 0xff, 0xff, 0xff]);
    lemma_be_value_4(id);
    lemma_be_value_4(size.take(4));
    lemma_be_value_8(size);
    assert(size.take(4) =~= seq![0x01u8, 0xff, 0xff, 0xff]);
}

proof fn lemma_be_value_4(s: Seq<u8>)
    requires
        s.len() == 4,
    ensures
        be_value(s) == 0x100_0000 * s[0] + 0x1_0000 * s[1] + 0x100 * s[2] + s[3],
{
    reveal_with_fuel(be_value, 5);
}

proof fn lemma_be_value_8(s: Seq<u8>)
    requires
        s.len() == 8,
    ensures
        be_value(s) == 0x1_0000_0000 * be_value(s.take(4)) + 0x100_0000 * s[4] + 0x1_0000 * s[5]
            + 0x100 * s[6] + s[7],
{
    reveal_with_fuel(be_value, 5);
    assert(s.drop_last().drop_last().drop_last().drop_last() =~= s.take(4));
}

proof fn lemma_payloads_fit(doctype: Seq<u8>)
    requires
        doctype.len() <= 8,
    ensures
        header_payload(doctype).len() < VINT_LIMIT,
        info_payload().len() < VINT_LIMIT,
{
    lemma_uint_length(ID_EBML_VERSION, 1);
    lemma_uint_length(ID_EBML_READ_VERSION, 1);
    lemma_uint_length(ID_EBML_MAX_ID_LEN, 4);
    lemma_uint_length(ID_EBML_MAX_SIZE_LEN, 8);
    lemma_el_length(ID_DOCTYPE, doctype);
    lemma_uint_length(ID_DOCTYPE_VERSION, 2);
    lemma_uint_length(ID_DOCTYPE_READ_VERSION, 2);
    lemma_uint_length(ID_TIMECODE_SCALE, 1_000_000);
    lemma_el_length(ID_MUXING_APP, APP_NAME@);
    lemma_el_length(ID_WRITING_APP, APP_NAME@);
}

/// An element with the given ID reaches from `pos` to `end`.
pub open spec fn element_spans(d: Seq<u8>, pos: int, id: u32, end: int) -> bool {
    match element_at(d, pos) {
        Some(e) => e.id == id && e.size == Some(end - e.data_pos),
        None => false,
    }
}

proof fn lemma_element_spans(d: Seq<u8>, before: Seq<u8>, id: u32, payload: Seq<u8>, after: Seq<u8>)
    requires
        canonical_id(id as int),
        payload.len() < VINT_LIMIT,
        d == before + el_bytes(id, payload) + after,
    ensures
        element_spans(
            d,
            before.len() as int,
            id,
            (before.len() + el_bytes(id, payload).len()) as int,
        ),
{
    law_element_roundtrip(before, id, payload, after);
}

proof fn lemma_four_parts(a: Seq<u8>, s: Seq<u8>, b: Seq<u8>, c: Seq<u8>, tail: Seq<u8>)
    ensures
        ({
            let d = a + s + b + c + tail;
            &&& d == seq![] + a + (s + b + c + tail)
            &&& d == a + s + (b + c + tail)
            &&& d == (a + s) + b + (c + tail)
            &&& d == (a + s + b) + c + tail
            &&& d.skip((a + s + b + c).len() as int) == tail
        }),
{
    let d = a + s + b + c + tail;
    assert(d =~= seq![] + a + (s + b + c + tail));
    assert(d =~= a + s + (b + c + tail));
    assert(d =~= (a + s) + b + (c + tail));
    assert(d.skip((a + s + b + c).len() as int) =~= tail);
}

/// A re-headed file opens with an EBML header and a Segment of unknown size, and ends
/// in the surviving clusters, byte for byte: an element reader that steps through the
/// head arrives at the first of them.
pub proof fn law_rehead_leads_to_the_clusters(tracks: Seq<TrackShape>, survivors: Seq<u8>)
    requires
        entries(tracks).len() < VINT_LIMIT,
    ensures
        ({
            let head = head_bytes(tracks, doctype_of(tracks));
            let d = head + survivors;
            let header = el_bytes(ID_EBML, header_payload(doctype_of(tracks)));
            let info = header.len() + SEGMENT_OPEN@.len();
            let track_list = info + el_bytes(ID_INFO, info_payload()).len();
            &&& element_spans(d, 0, ID_EBML, header.len() as int)
            &&& element_at(d, header.len() as int) == Some(
                ElementSpan { id: ID_SEGMENT as int, size: None, header_len: 12, data_pos: info as int },
            )
            &&& element_spans(d, info as int, ID_INFO, track_list as int)
            &&& element_spans(d, track_list as int, ID_TRACKS, head.len() as int)
            &&& d.skip(head.len() as int) == survivors
        }),
{
    let doctype = doctype_of(tracks);
    let pa = header_payload(doctype);
    let pb = info_payload();
    let pc = entries(tracks);
    let a = el_bytes(ID_EBML, pa);
    let b = el_bytes(ID_INFO, pb);
    let c = el_bytes(ID_TRACKS, pc);
    let s = SEGMENT_OPEN@;
    lemma_payloads_fit(doctype);
    lemma_four_parts(a, s, b, c, survivors);
    let d = head_bytes(tracks, doctype) + survivors;
    lemma_element_spans(d, seq![], ID_EBML, pa, s + b + c + survivors);
    lemma_segment_opens(a, b + c + survivors);
    lemma_element_spans(d, a + s, ID_INFO, pb, c + survivors);
    lemma_element_spans(d, a + s + b, ID_TRACKS, pc, survivors);
}

// ---------------------------------------------------------------------------
// A cluster that is written is walked
// ---------------------------------------------------------------------------

/// A SimpleBlock payload that holds a block, unlaced, at relative timecode `t`.
pub open spec fn block_bytes(b: Block, t: (u8, u8)) -> Seq<u8> {
    vint_bytes(b.track) + seq![
        t.0,
        t.1,
        if b.keyframe {
            0x80u8
        } else {
            0
        },
    ] + b.frame
}

/// The SimpleBlocks of a cluster.
pub open spec fn blocks_bytes(blocks: Seq<Block>, t: (u8, u8)) -> Seq<u8>
    decreases blocks.len(),
{
    if blocks.len() == 0 {
        seq![]
    } else {
        el_bytes(ID_SIMPLE_BLOCK, block_bytes(blocks[0], t)) + blocks_bytes(blocks.skip(1), t)
    }
}

/// A block's track number can be written.
pub open spec fn numbered(blocks: Seq<Block>) -> bool {
    forall|i: int| 0 <= i < blocks.len() ==> 0 <= (#[trigger] blocks[i]).track < VINT_LIMIT
}

/// A block that is written is read.
pub proof fn law_block_roundtrip(b: Block, t: (u8, u8))
    requires
        0 <= b.track < VINT_LIMIT,
    ensures
        simple_block(block_bytes(b, t)) == Some(b),
{
    let fixed = seq![
        t.0,
        t.1,
        if b.keyframe {
            0x80u8
        } else {
            0
        },
    ];
    let d = block_bytes(b, t);
    law_vint_roundtrip(seq![], b.track, fixed + b.frame);
    law_vint_is_minimal(b.track);
    assert(seq![] + vint_bytes(b.track) + (fixed + b.frame) =~= d);
    let p = vint_bytes(b.track).len() as int + 2;
    assert(d[p] == fixed[2]);
    assert(d.skip(p + 1) =~= b.frame);
}

proof fn lemma_children_read(
    d: Seq<u8>,
    before: Seq<u8>,
    blocks: Seq<Block>,
    t: (u8, u8),
    after: Seq<u8>,
)
    requires
        d == before + blocks_bytes(blocks, t) + after,
        numbered(blocks),
        blocks_bytes(blocks, t).len() < VINT_LIMIT,
    ensures
        children(
            d,
            before.len() as int,
            (before.len() + blocks_bytes(blocks, t).len()) as int,
        ) == (blocks, true),
    decreases blocks.len(),
{
    let p = before.len() as int;
    let end = p + blocks_bytes(blocks, t).len();
    if blocks.len() == 0 {
        assert(children(d, p, end).0 =~= blocks);
    } else {
        let body = block_bytes(blocks[0], t);
        let first = el_bytes(ID_SIMPLE_BLOCK, body);
        let rest = blocks_bytes(blocks.skip(1), t);
        assert(first.len() >= body.len());
        law_element_roundtrip(before, ID_SIMPLE_BLOCK, body, rest + after);
        lemma_assoc(before, first, rest, after);
        assert(numbered(blocks.skip(1))) by {
            assert forall|i: int| 0 <= i < blocks.skip(1).len() implies 0 <= (
            #[trigger] blocks.skip(1)[i]).track < VINT_LIMIT by {
                assert(blocks.skip(1)[i] == blocks[i + 1]);
            }
        }
        lemma_children_read(d, before + first, blocks.skip(1), t, after);
        law_block_roundtrip(blocks[0], t);
        assert(seq![blocks[0]] + blocks.skip(1) =~= blocks);
    }
}

proof fn lemma_assoc(a: Seq<u8>, b: Seq<u8>, c: Seq<u8>, d: Seq<u8>)
    ensures
        a + (b + c) + d == a + b + (c + d),
        a + (b + c) + d == (a + b) + c + d,
{
    assert(a + (b + c) + d =~= a + b + (c + d));
    assert(a + (b + c) + d =~= (a + b) + c + d);
}

/// A cluster that is written is walked: its blocks come out in order, and the walk
/// ends just past it, wherever it stands.
pub proof fn law_cluster_roundtrip(
    before: Seq<u8>,
    blocks: Seq<Block>,
    t: (u8, u8),
    after: Seq<u8>,
)
    requires
        numbered(blocks),
        blocks_bytes(blocks, t).len() < VINT_LIMIT,
    ensures
        ({
            let cluster = el_bytes(ID_CLUSTER, blocks_bytes(blocks, t));
            cluster_walk(before + cluster + after, before.len() as int) == (
                blocks,
                Some((before.len() + cluster.len()) as int),
            )
        }),
{
    let body = blocks_bytes(blocks, t);
    let cluster = el_bytes(ID_CLUSTER, body);
    let d = before + cluster + after;
    law_element_roundtrip(before, ID_CLUSTER, body, after);
    let head = cluster.len() - body.len();
    let lead = before + cluster.take(head);
    assert(cluster =~= cluster.take(head) + body);
    lemma_assoc(before, cluster.take(head), body, after);
    lemma_children_read(d, lead, blocks, t, after);
}

} // verus!
