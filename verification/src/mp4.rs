//! MP4 (ISO BMFF) forensic parsing and reconstruction.
//!
//! The trick that makes head_truncated MP4s rescuable: ffmpeg and most muxers write
//! the `moov` box (the complete index of the file, including every sample's
//! *absolute byte offset*) at the END of the file. Cut the head off an MP4
//! and the index usually survives. If we can work out exactly how many bytes
//! `K` were lost, we can regrow a prosthetic prefix of exactly K's worth of
//! structure (`ftyp` + a `free` box of silence, plus a fresh `mdat` header if
//! the first one died) and every offset in the index becomes true again.
//!
//! Two ways to find K:
//!  1. **mdat anchor**: the surviving `mdat` header tells us where it sits
//!     now; the sample table tells us where it used to sit.
//!  2. **NAL correlation**: when even the mdat header is gone, slide the
//!     sample-size table (`stsz`) along the surviving bytes until the H.264
//!     length-prefixed NAL structure lines up. The index fits the data like
//!     a dental record.
//!
//! An index can speak of bytes that the data does not hold, or of offsets that no
//! 64-bit number holds. The models below give `None` for such an index; the
//! functions named `try_..` report it, and the others ask that it not be so.
use crate::bytes::{
    be32, be32_at, be32_bytes, be64, be64_at, be64_bytes, push_all, push_be32, push_be64,
    push_zeros, zeros,
};
use crate::forensics::{
    atom_at, atoms, atoms_before, avcc_chain, avcc_chain_len, scan_atoms, Atom, AtomHit,
};
use crate::fourcc::{
    CO64, FREE, FTYP, HDLR, ISOM, MDAT, MDHD, MDIA, MINF, MOOV, STBL, STCO, STSC, STSD, STSS, STSZ,
    STTS, TRAK,
};
use crate::text::{decimal, lossy_text, push_decimal, same_text, utf8_lossy};
use std::collections::BTreeMap;
use vstd::prelude::*;
use vstd::string::*;

verus! {

broadcast use crate::bytes::group_lengths;

// ---------------------------------------------------------------------------
// Box walking
// ---------------------------------------------------------------------------

/// A box found in a buffer.
#[derive(Debug, Clone, Copy)]
pub struct BoxRef {
    pub fourcc: [u8; 4],
    /// Payload range (after size+fourcc header).
    pub body_start: usize,
    pub body_end: usize,
}

/// A box in the data.
pub struct BoxSpan {
    pub fourcc: Seq<u8>,
    pub body_start: int,
    pub body_end: int,
}

impl View for BoxRef {
    type V = BoxSpan;

    open spec fn view(&self) -> BoxSpan {
        BoxSpan {
            fourcc: self.fourcc@,
            body_start: self.body_start as int,
            body_end: self.body_end as int,
        }
    }
}

/// The box at `pos` of a region that ends at `end`: size 0 means "to the end of
/// the region", and 1 that a 64-bit size follows the name.
pub open spec fn box_at(d: Seq<u8>, pos: int, end: int) -> Option<BoxSpan> {
    let size32 = be32_at(d, pos);
    let hdr = if size32 == 1 {
        16int
    } else {
        8int
    };
    let size = if size32 == 0 {
        end - pos
    } else if size32 == 1 {
        be64_at(d, pos + 8)
    } else {
        size32
    };
    if pos < 0 || end > d.len() || pos + hdr > end || pos + 8 > end || size < hdr || pos + size
        > end {
        None
    } else {
        Some(
            BoxSpan {
                fourcc: d.subrange(pos + 4, pos + 8),
                body_start: pos + hdr,
                body_end: pos + size,
            },
        )
    }
}

/// The boxes from `pos` on, up to the first place where there is none.
pub open spec fn boxes(d: Seq<u8>, pos: int, end: int) -> Seq<BoxSpan>
    decreases end - pos,
{
    match box_at(d, pos, end) {
        Some(b) => seq![b] + boxes(d, b.body_end, end),
        None => seq![],
    }
}

/// The first box of the given name.
pub open spec fn first_box(d: Seq<u8>, pos: int, end: int, fourcc: Seq<u8>) -> Option<BoxSpan>
    decreases end - pos,
{
    match box_at(d, pos, end) {
        Some(b) => if b.fourcc == fourcc {
            Some(b)
        } else {
            first_box(d, b.body_end, end, fourcc)
        },
        None => None,
    }
}

/// The end of a region, kept within the data.
pub open spec fn clipped(d: Seq<u8>, end: int) -> int {
    if end <= d.len() {
        end
    } else {
        d.len() as int
    }
}

/// A walk over the boxes of a region.
pub struct BoxIter<'a> {
    data: &'a [u8],
    pos: usize,
    end: usize,
}

impl<'a> BoxIter<'a> {
    pub closed spec fn data(&self) -> Seq<u8> {
        self.data@
    }

    pub closed spec fn pos(&self) -> int {
        self.pos as int
    }

    pub closed spec fn end(&self) -> int {
        self.end as int
    }

    pub fn new(data: &'a [u8], start: usize, end: usize) -> (r: Self)
        ensures
            r.data() == data@,
            r.pos() == start,
            r.end() == clipped(data@, end as int),
    {
        Self {
            data,
            pos: start,
            end: if end <= data.len() {
                end
            } else {
                data.len()
            },
        }
    }

    /// The next box, if there is one.
    pub fn next(&mut self) -> (r: Option<BoxRef>)
        ensures
            final(self).data() == old(self).data(),
            final(self).end() == old(self).end(),
            match r {
                Some(b) => box_at(old(self).data(), old(self).pos(), old(self).end()) == Some(b@)
                    && final(self).pos() == b.body_end && old(self).pos() < b.body_start
                    <= b.body_end <= old(self).end() <= old(self).data().len(),
                None => box_at(old(self).data(), old(self).pos(), old(self).end()) is None && final(
                    self).pos() == old(self).pos(),
            },
    {
        let (pos, end) = (self.pos, self.end);
        if end > self.data.len() || pos > end || end - pos < 8 {
            return None;
        }
        let left: usize = end - pos;
        let size32: u32 = be32(self.data, pos);
        let (size, hdr): (u64, usize) = if size32 == 0 {
            (left as u64, 8)
        } else if size32 == 1 {
            if left < 16 {
                return None;
            }
            (be64(self.data, pos + 8), 16)
        } else {
            (size32 as u64, 8)
        };
        if size < hdr as u64 || size > left as u64 {
            return None;
        }
        let fourcc = [
            self.data[pos + 4],
            self.data[pos + 5],
            self.data[pos + 6],
            self.data[pos + 7],
        ];
        assert(fourcc@ =~= self.data@.subrange(pos + 4, pos + 8));
        let b = BoxRef { fourcc, body_start: pos + hdr, body_end: pos + size as usize };
        self.pos = b.body_end;
        Some(b)
    }
}

/// The first box of the given name in a region of `data`.
pub fn find_box(data: &[u8], start: usize, end: usize, fourcc: &[u8; 4]) -> (r: Option<BoxRef>)
    ensures
        match r {
            Some(b) => first_box(data@, start as int, clipped(data@, end as int), fourcc@) == Some(b@)
                && start < b.body_start <= b.body_end <= data@.len() && b.body_end <= end,
            None => first_box(data@, start as int, clipped(data@, end as int), fourcc@) is None,
        },
{
    let mut it = BoxIter::new(data, start, end);
    loop
        invariant
            it.data() == data@,
            it.end() == clipped(data@, end as int),
            start <= it.pos(),
            first_box(data@, start as int, it.end(), fourcc@) == first_box(
                data@,
                it.pos(),
                it.end(),
                fourcc@,
            ),
        decreases it.end() - it.pos(),
    {
        match it.next() {
            Some(b) => {
                if crate::bytes::same_bytes(&b.fourcc, fourcc) {
                    return Some(b);
                }
            },
            None => {
                return None;
            },
        }
    }
}

// ---------------------------------------------------------------------------
// Sample tables
// ---------------------------------------------------------------------------

/// One track of an index.
#[derive(Debug, Clone)]
pub struct Track {
    /// 'vide', 'soun', etc.
    pub handler: String,
    /// First stsd entry fourcc, e.g. "avc1", "mp4a".
    pub codec: String,
    pub timescale: u32,
    pub sample_count: usize,
    pub sizes: Vec<u32>,
    pub chunk_offsets: Vec<u64>,
    /// (first_chunk 1-based, samples_per_chunk)
    pub stsc: Vec<(u32, u32)>,
    /// 1-based sync sample numbers; None means every sample is sync.
    pub sync_samples: Option<Vec<u32>>,
    /// (count, delta)
    pub stts: Vec<(u32, u32)>,
}

/// What an index says of one track.
pub struct TrackTable {
    pub handler: Seq<char>,
    pub codec: Seq<char>,
    pub timescale: u32,
    pub sample_count: int,
    pub sizes: Seq<u32>,
    pub chunk_offsets: Seq<u64>,
    pub stsc: Seq<(u32, u32)>,
    pub sync_samples: Option<Seq<u32>>,
    pub stts: Seq<(u32, u32)>,
}

impl View for Track {
    type V = TrackTable;

    open spec fn view(&self) -> TrackTable {
        TrackTable {
            handler: self.handler@,
            codec: self.codec@,
            timescale: self.timescale,
            sample_count: self.sample_count as int,
            sizes: self.sizes@,
            chunk_offsets: self.chunk_offsets@,
            stsc: self.stsc@,
            sync_samples: match self.sync_samples {
                Some(v) => Some(v@),
                None => None,
            },
            stts: self.stts@,
        }
    }
}

/// What an index says of its tracks.
pub open spec fn tables(tracks: Seq<Track>) -> Seq<TrackTable> {
    tracks.map_values(|t: Track| t@)
}

/// How many samples a chunk holds: what the last entry that starts at or before
/// it says, entries being read up to the first that starts behind it.
pub open spec fn per_chunk(stsc: Seq<(u32, u32)>, chunk: int) -> int
    decreases stsc.len(),
{
    if stsc.len() == 0 {
        0
    } else {
        per_chunk_from(stsc, 0, stsc[0].1 as int, chunk)
    }
}

/// The samples per chunk that the entries from `i` on say, `per` so far.
pub open spec fn per_chunk_from(stsc: Seq<(u32, u32)>, i: int, per: int, chunk: int) -> int
    decreases stsc.len() - i,
{
    if 0 <= i < stsc.len() && stsc[i].0 <= chunk {
        per_chunk_from(stsc, i + 1, stsc[i].1 as int, chunk)
    } else {
        per
    }
}

/// The samples from `sample` on, `left` at most, one behind the other from `off` on.
pub open spec fn run_locations(sizes: Seq<u32>, off: int, sample: int, left: int) -> Seq<(int, int)>
    decreases left,
{
    if left <= 0 || sample < 0 || sample >= sizes.len() {
        seq![]
    } else {
        seq![(off, sizes[sample] as int)] + run_locations(
            sizes,
            off + sizes[sample],
            sample + 1,
            left - 1,
        )
    }
}

/// The sample that follows a chunk of `n` samples from `sample` on.
pub open spec fn next_sample(sizes: Seq<u32>, sample: int, n: int) -> int {
    if sample + n < sizes.len() {
        sample + n
    } else {
        sizes.len() as int
    }
}

/// The offset and size of every sample of the chunks from `chunk` (0-based) on,
/// of which `sample` is the first.
pub open spec fn locations_from(t: TrackTable, chunk: int, sample: int) -> Seq<(int, int)>
    decreases t.chunk_offsets.len() - chunk,
{
    if chunk < 0 || chunk >= t.chunk_offsets.len() {
        seq![]
    } else {
        let n = per_chunk(t.stsc, chunk + 1);
        run_locations(t.sizes, t.chunk_offsets[chunk] as int, sample, n) + locations_from(
            t,
            chunk + 1,
            next_sample(t.sizes, sample, n),
        )
    }
}

/// Absolute offset and size of every sample, in order.
pub open spec fn locations(t: TrackTable) -> Seq<(int, int)> {
    locations_from(t, 0, 0)
}

/// Whether every sample ends at an offset that a 64-bit number holds.
pub open spec fn ends_fit(locs: Seq<(int, int)>) -> bool {
    forall|i: int| 0 <= i < locs.len() ==> (#[trigger] locs[i]).0 + locs[i].1 <= u64::MAX
}

/// Locations as plain pairs.
pub open spec fn wide(v: Seq<(u64, u32)>) -> Seq<(int, int)> {
    v.map_values(|l: (u64, u32)| (l.0 as int, l.1 as int))
}

/// The decode times of the samples that the entries describe, from `t` on.
pub open spec fn times_from(stts: Seq<(u32, u32)>, t: int) -> Seq<int>
    decreases stts.len(),
{
    if stts.len() == 0 {
        seq![]
    } else {
        let (count, delta) = stts[0];
        Seq::new(count as nat, |i: int| t + i * delta) + times_from(
            stts.drop_first(),
            t + count * delta,
        )
    }
}

/// The decode time of every sample, in ticks.
pub open spec fn times(t: TrackTable) -> Seq<int> {
    times_from(t.stts, 0)
}

/// How many ticks the entries span.
pub open spec fn total_ticks(stts: Seq<(u32, u32)>) -> int
    decreases stts.len(),
{
    if stts.len() == 0 {
        0
    } else {
        stts[0].0 * stts[0].1 + total_ticks(stts.drop_first())
    }
}

/// Whether the track is a video track.
pub open spec fn table_is_video(t: TrackTable) -> bool {
    t.handler == "vide"@
}

/// How many samples last `delta` ticks, over all runs.
pub open spec fn samples_lasting(stts: Seq<(u32, u32)>, delta: u32) -> int
    decreases stts.len(),
{
    if stts.len() == 0 {
        0
    } else {
        samples_lasting(stts.drop_last(), delta) + if stts.last().1 == delta {
            stts.last().0 as int
        } else {
            0
        }
    }
}

/// The most common sample duration among those of the first `n` runs, counted over all
/// runs; the one whose run comes last if several are as common.
pub open spec fn commonest_of(stts: Seq<(u32, u32)>, n: int) -> u32
    decreases n,
{
    if n <= 1 {
        stts[0].1
    } else {
        let before = commonest_of(stts, n - 1);
        let here = stts[n - 1].1;
        if samples_lasting(stts, here) >= samples_lasting(stts, before) {
            here
        } else {
            before
        }
    }
}

/// The most common sample duration.
pub open spec fn commonest_delta(stts: Seq<(u32, u32)>) -> u32 {
    commonest_of(stts, stts.len() as int)
}

proof fn lemma_commonest(stts: Seq<(u32, u32)>, n: int, i: int)
    requires
        0 <= i < n <= stts.len(),
    ensures
        samples_lasting(stts, stts[i].1) <= samples_lasting(stts, commonest_of(stts, n)),
    decreases n,
{
    if n > 1 && i < n - 1 {
        lemma_commonest(stts, n - 1, i);
    }
}

proof fn lemma_samples_lasting(stts: Seq<(u32, u32)>, delta: u32)
    ensures
        0 <= samples_lasting(stts, delta) <= stts.len() * u32::MAX,
        samples_lasting(stts, delta) > 0 ==> exists|i: int|
            0 <= i < stts.len() && (#[trigger] stts[i]).1 == delta,
    decreases stts.len(),
{
    if stts.len() > 0 {
        let head = stts.drop_last();
        lemma_samples_lasting(head, delta);
        if stts.last().1 == delta {
            assert(stts[stts.len() - 1].1 == delta);
        } else if samples_lasting(stts, delta) > 0 {
            let i = choose|i: int| 0 <= i < head.len() && (#[trigger] head[i]).1 == delta;
            assert(stts[i].1 == delta);
        }
    }
}

/// No duration is more common than the most common one.
pub proof fn law_commonest_delta_is_most_common(stts: Seq<(u32, u32)>, delta: u32)
    requires
        stts.len() > 0,
    ensures
        samples_lasting(stts, delta) <= samples_lasting(stts, commonest_delta(stts)),
        exists|i: int| 0 <= i < stts.len() && (#[trigger] stts[i]).1 == commonest_delta(stts),
{
    lemma_samples_lasting(stts, delta);
    lemma_samples_lasting(stts, commonest_delta(stts));
    lemma_commonest_is_there(stts, stts.len() as int);
    if samples_lasting(stts, delta) > 0 {
        let i = choose|i: int| 0 <= i < stts.len() && (#[trigger] stts[i]).1 == delta;
        lemma_commonest(stts, stts.len() as int, i);
    }
}

proof fn lemma_commonest_is_there(stts: Seq<(u32, u32)>, n: int)
    requires
        1 <= n <= stts.len(),
    ensures
        exists|i: int| 0 <= i < n && (#[trigger] stts[i]).1 == commonest_of(stts, n),
    decreases n,
{
    if n == 1 {
        assert(stts[0].1 == commonest_of(stts, n));
    } else {
        lemma_commonest_is_there(stts, n - 1);
        let i = choose|i: int| 0 <= i < n - 1 && (#[trigger] stts[i]).1 == commonest_of(stts, n - 1);
        if commonest_of(stts, n) == commonest_of(stts, n - 1) {
            assert(stts[i].1 == commonest_of(stts, n));
        } else {
            assert(stts[n - 1].1 == commonest_of(stts, n));
        }
    }
}

/// How many samples last as long as each run's, over all runs.
fn tally_deltas(stts: &Vec<(u32, u32)>) -> (m: BTreeMap<u32, u128>)
    ensures
        forall|i: int|
            0 <= i < stts@.len() ==> m@.contains_key((#[trigger] stts@[i]).1) && m@[stts@[i].1]
                == samples_lasting(stts@, stts@[i].1),
{
    let mut m: BTreeMap<u32, u128> = BTreeMap::new();
    let ghost all = stts@;
    let mut i: usize = 0;
    assert(all.take(0) =~= Seq::<(u32, u32)>::empty());
    while i < stts.len()
        invariant
            all == stts@,
            i <= all.len(),
            forall|k: u32| #[trigger]
                m@.contains_key(k) ==> m@[k] == samples_lasting(all.take(i as int), k),
            forall|k: u32| !#[trigger] m@.contains_key(k) ==> samples_lasting(all.take(i as int), k)
                == 0,
            forall|j: int| 0 <= j < i ==> m@.contains_key((#[trigger] all[j]).1),
        decreases stts.len() - i,
    {
        let (count, delta) = stts[i];
        let ghost before = m@;
        proof {
            lemma_samples_lasting(all.take(i as int), delta);
            assert(all.take(i as int).len() * u32::MAX <= usize::MAX * u32::MAX)
                by (nonlinear_arith)
                requires
                    all.take(i as int).len() == i,
            ;
            assert(all.take(i + 1).drop_last() =~= all.take(i as int));
            assert(all.take(i + 1).last() == all[i as int]);
        }
        let have: u128 = match m.get(&delta) {
            Some(n) => *n,
            None => 0,
        };
        m.insert(delta, have + count as u128);
        assert forall|k: u32| #[trigger] m@.contains_key(k) implies m@[k] == samples_lasting(
            all.take(i + 1),
            k,
        ) by {
            if k != delta {
                assert(before.contains_key(k));
            }
        }
        assert forall|k: u32| !#[trigger] m@.contains_key(k) implies samples_lasting(
            all.take(i + 1),
            k,
        ) == 0 by {
            assert(!before.contains_key(k));
        }
        i += 1;
    }
    assert(all.take(i as int) =~= all);
    m
}

impl Track {
    /// The count is that of the sizes, and samples and chunks are counted in 32 bits.
    pub open spec fn wf(&self) -> bool {
        &&& self.sample_count == self.sizes@.len()
        &&& self.sizes@.len() <= u32::MAX
        &&& self.chunk_offsets@.len() <= u32::MAX
    }

    /// Absolute (original-file) offset and size of every sample, in order; `None`
    /// if a sample ends beyond what 64 bits can count.
    pub fn try_sample_locations(&self) -> (r: Option<Vec<(u64, u32)>>)
        requires
            self.wf(),
        ensures
            match r {
                Some(locs) => ends_fit(locations(self@)) && wide(locs@) == locations(self@),
                None => !ends_fit(locations(self@)),
            },
    {
        let mut out: Vec<(u64, u32)> = Vec::new();
        let mut sample: usize = 0;
        let mut chunk: usize = 0;
        let ghost t = self@;
        assert(wide(out@) + locations(t) =~= locations(t));
        while chunk < self.chunk_offsets.len()
            invariant
                self.wf(),
                t == self@,
                chunk <= self.chunk_offsets@.len(),
                sample <= self.sizes@.len(),
                ends_fit(wide(out@)),
                wide(out@) + locations_from(t, chunk as int, sample as int) == locations(t),
            decreases self.chunk_offsets.len() - chunk,
        {
            let n: u32 = samples_in_chunk(&self.stsc, chunk as u32 + 1);
            let mut off: u64 = self.chunk_offsets[chunk];
            let mut left: u32 = n;
            let ghost first = sample as int;
            let ghost rest = locations_from(t, chunk + 1, next_sample(t.sizes, first, n as int));
            assert(wide(out@) + (run_locations(t.sizes, off as int, sample as int, n as int) + rest)
                == locations(t));
            while left > 0 && sample < self.sizes.len()
                invariant
                    self.wf(),
                    t == self@,
                    left <= n,
                    first + (n - left) == sample || (sample == self.sizes@.len() && first + (n - left)
                        >= sample),
                    0 <= first,
                    sample <= self.sizes@.len(),
                    ends_fit(wide(out@)),
                    wide(out@) + (run_locations(t.sizes, off as int, sample as int, left as int) + rest)
                        == locations(t),
                decreases left,
            {
                let size: u32 = self.sizes[sample];
                let ghost before = wide(out@);
                let ghost tail = run_locations(t.sizes, off + size, sample + 1, left - 1);
                out.push((off, size));
                assert(wide(out@) =~= before.push((off as int, size as int)));
                assert(before + ((seq![(off as int, size as int)] + tail) + rest) =~= wide(out@) + (tail
                    + rest));
                match off.checked_add(size as u64) {
                    Some(next) => {
                        proof {
                            assert forall|i: int| 0 <= i < wide(out@).len() implies (#[trigger] wide(
                                out@)[i]).0 + wide(out@)[i].1 <= u64::MAX by {
                                if i < before.len() {
                                    assert(wide(out@)[i] == before[i]);
                                }
                            }
                        }
                        off = next;
                    },
                    None => {
                        proof {
                            let all = locations(t);
                            let at = before.len() as int;
                            assert(all[at] == wide(out@)[at]);
                            assert(!(all[at].0 + all[at].1 <= u64::MAX));
                        }
                        return None;
                    },
                }
                sample += 1;
                left -= 1;
            }
            assert(run_locations(t.sizes, off as int, sample as int, left as int) =~= Seq::<
                (int, int),
            >::empty());
            assert(Seq::<(int, int)>::empty() + rest =~= rest);
            chunk += 1;
        }
        assert(wide(out@) + Seq::<(int, int)>::empty() =~= wide(out@));
        Some(out)
    }

    /// Absolute (original-file) offset and size of every sample, in order.
    pub fn sample_locations(&self) -> (r: Vec<(u64, u32)>)
        requires
            self.wf(),
            ends_fit(locations(self@)),
        ensures
            wide(r@) == locations(self@),
    {
        self.try_sample_locations().unwrap()
    }
}

fn samples_in_chunk(stsc: &[(u32, u32)], chunk: u32) -> (per: u32)
    ensures
        per == per_chunk(stsc@, chunk as int),
{
    if stsc.len() == 0 {
        return 0;
    }
    let mut per: u32 = stsc[0].1;
    let mut i: usize = 0;
    while i < stsc.len() && stsc[i].0 <= chunk
        invariant
            i <= stsc@.len(),
            stsc@.len() > 0,
            per_chunk(stsc@, chunk as int) == per_chunk_from(
                stsc@,
                i as int,
                per as int,
                chunk as int,
            ),
        decreases stsc.len() - i,
    {
        per = stsc[i].1;
        i += 1;
    }
    per
}

/// Times are in order of the entries, and each entry's are counted from its start.
proof fn lemma_total_ticks(stts: Seq<(u32, u32)>)
    ensures
        total_ticks(stts) >= 0,
    decreases stts.len(),
{
    if stts.len() > 0 {
        lemma_total_ticks(stts.drop_first());
        let (count, delta) = stts[0];
        assert(count * delta >= 0) by (nonlinear_arith)
            requires
                count >= 0,
                delta >= 0,
        ;
    }
}

/// Numbers as mathematical integers.
pub open spec fn wide_ticks(v: Seq<u64>) -> Seq<int> {
    v.map_values(|x: u64| x as int)
}

/// The time of sample `i`, without listing the others.
pub open spec fn time_at(stts: Seq<(u32, u32)>, t: int, i: int) -> Option<int>
    decreases stts.len(),
{
    if stts.len() == 0 || i < 0 {
        None
    } else {
        let (count, delta) = stts[0];
        if i < count {
            Some(t + i * delta)
        } else {
            time_at(stts.drop_first(), t + count * delta, i - count)
        }
    }
}

/// The time of one sample is what the list of all times says.
proof fn lemma_time_at(stts: Seq<(u32, u32)>, t: int, i: int)
    requires
        i >= 0,
    ensures
        time_at(stts, t, i) == if i < times_from(stts, t).len() {
            Some(times_from(stts, t)[i])
        } else {
            None
        },
    decreases stts.len(),
{
    if stts.len() > 0 {
        let (count, delta) = stts[0];
        if i >= count {
            lemma_time_at(stts.drop_first(), t + count * delta, i - count);
        }
    }
}

impl Track {
    /// How many ticks the samples last together.
    fn ticks(&self) -> (r: u128)
        requires
            self.stts@.len() <= u32::MAX,
        ensures
            r == total_ticks(self.stts@),
    {
        let mut sum: u128 = 0;
        let mut i: usize = 0;
        let ghost stts = self.stts@;
        assert(stts.skip(0) =~= stts);
        while i < self.stts.len()
            invariant
                stts == self.stts@,
                i <= stts.len(),
                stts.len() <= u32::MAX,
                sum + total_ticks(stts.skip(i as int)) == total_ticks(stts),
                sum <= i * 0x1_0000_0000_0000_0000,
            decreases self.stts.len() - i,
        {
            let (count, delta) = self.stts[i];
            assert(stts.skip(i as int)[0] == (count, delta));
            assert(stts.skip(i as int).drop_first() =~= stts.skip(i + 1));
            assert(count * delta < 0x1_0000_0000_0000_0000) by (nonlinear_arith)
                requires
                    count <= u32::MAX,
                    delta <= u32::MAX,
            ;
            assert(i * 0x1_0000_0000_0000_0000 + 0x1_0000_0000_0000_0000 == (i + 1)
                * 0x1_0000_0000_0000_0000);
            sum = sum + (count as u128) * (delta as u128);
            i += 1;
        }
        sum
    }

    /// Decode timestamp of each sample, in ticks of the track's timescale.
    pub fn sample_times(&self) -> (r: Vec<u64>)
        requires
            total_ticks(self.stts@) <= u64::MAX,
        ensures
            wide_ticks(r@) == times(self@),
    {
        let mut out: Vec<u64> = Vec::new();
        let mut t: u64 = 0;
        let mut i: usize = 0;
        let ghost stts = self.stts@;
        assert(stts.skip(0) =~= stts);
        assert(wide_ticks(out@) + times_from(stts, 0) =~= times_from(stts, 0));
        while i < self.stts.len()
            invariant
                stts == self.stts@,
                i <= stts.len(),
                t + total_ticks(stts.skip(i as int)) <= u64::MAX,
                wide_ticks(out@) + times_from(stts.skip(i as int), t as int) == times_from(stts, 0),
            decreases self.stts.len() - i,
        {
            let (count, delta) = self.stts[i];
            let ghost here = stts.skip(i as int);
            let ghost start = t as int;
            let ghost before = wide_ticks(out@);
            let ghost entry = Seq::new(count as nat, |i: int| start + i * delta);
            let ghost rest = times_from(stts.skip(i + 1), start + count * delta);
            proof {
                assert(here[0] == (count, delta));
                assert(here.drop_first() =~= stts.skip(i + 1));
                lemma_total_ticks(stts.skip(i + 1));
                assert(times_from(here, start) =~= entry + rest);
            }
            let mut j: u32 = 0;
            assert(entry.take(0) =~= Seq::<int>::empty());
            assert(before + Seq::<int>::empty() =~= before);
            while j < count
                invariant
                    j <= count,
                    t == start + j * delta,
                    start + count * delta <= u64::MAX,
                    entry == Seq::new(count as nat, |i: int| start + i * delta),
                    wide_ticks(out@) == before + entry.take(j as int),
                decreases count - j,
            {
                proof {
                    assert(j * delta + delta == (j + 1) * delta) by (nonlinear_arith);
                    assert((j + 1) * delta <= count * delta) by (nonlinear_arith)
                        requires
                            j + 1 <= count,
                            delta >= 0,
                    ;
                    assert(entry[j as int] == t);
                }
                let ghost prev = wide_ticks(out@);
                out.push(t);
                assert(wide_ticks(out@) =~= prev.push(t as int));
                assert(entry.take(j + 1) =~= entry.take(j as int).push(t as int));
                assert(prev.push(t as int) =~= before + entry.take(j + 1));
                t = t + delta as u64;
                j += 1;
            }
            assert(entry.take(count as int) =~= entry);
            assert(before + (entry + rest) =~= wide_ticks(out@) + rest);
            i += 1;
        }
        assert(wide_ticks(out@) + Seq::<int>::empty() =~= wide_ticks(out@));
        out
    }

    /// Decode timestamp of sample `index`, in ticks of the track's timescale.
    fn sample_time(&self, index: usize) -> (r: Option<u64>)
        requires
            total_ticks(self.stts@) <= u64::MAX,
        ensures
            match r {
                Some(t) => index < times(self@).len() && t == times(self@)[index as int],
                None => index >= times(self@).len(),
            },
    {
        let ghost stts = self.stts@;
        let mut t: u64 = 0;
        let mut left: usize = index;
        let mut i: usize = 0;
        proof {
            lemma_time_at(stts, 0, index as int);
        }
        assert(stts.skip(0) =~= stts);
        while i < self.stts.len()
            invariant
                stts == self.stts@,
                i <= stts.len(),
                t + total_ticks(stts.skip(i as int)) <= u64::MAX,
                time_at(stts, 0, index as int) == time_at(stts.skip(i as int), t as int, left as int),
                time_at(stts, 0, index as int) == if index < times(self@).len() {
                    Some(times(self@)[index as int])
                } else {
                    None
                },
            decreases self.stts.len() - i,
        {
            let (count, delta) = self.stts[i];
            proof {
                let here = stts.skip(i as int);
                assert(here[0] == (count, delta));
                assert(here.drop_first() =~= stts.skip(i + 1));
                lemma_total_ticks(stts.skip(i + 1));
                assert(left < count ==> left * delta <= count * delta) by (nonlinear_arith)
                    requires
                        delta >= 0,
                        left >= 0,
                ;
                assert(count * delta >= 0) by (nonlinear_arith)
                    requires
                        count >= 0,
                        delta >= 0,
                ;
            }
            if (left as u64) < count as u64 {
                return Some(t + (left as u64) * (delta as u64));
            }
            t = t + (count as u64) * (delta as u64);
            left = left - count as usize;
            i += 1;
        }
        None
    }

    pub fn is_video(&self) -> (r: bool)
        ensures
            r == table_is_video(self@),
    {
        same_text(self.handler.as_str(), "vide")
    }

    /// The most common sample duration: the file's natural frame cadence, one
    /// tick at least.
    pub fn dominant_delta(&self) -> (r: u32)
        ensures
            r == if self.stts@.len() == 0 || commonest_delta(self.stts@) == 0 {
                1
            } else {
                commonest_delta(self.stts@)
            },
            self.stts@.len() > 0 ==> forall|delta: u32| #[trigger]
                samples_lasting(self.stts@, delta) <= samples_lasting(
                    self.stts@,
                    commonest_delta(self.stts@),
                ),
    {
        if self.stts.len() == 0 {
            return 1;
        }
        let ghost stts = self.stts@;
        proof {
            assert forall|delta: u32| #[trigger] samples_lasting(stts, delta) <= samples_lasting(
                stts,
                commonest_delta(stts),
            ) by {
                law_commonest_delta_is_most_common(stts, delta);
            }
        }
        let totals = tally_deltas(&self.stts);
        let mut best: u32 = self.stts[0].1;
        let mut most: u128 = match totals.get(&best) {
            Some(n) => *n,
            None => 0,
        };
        let mut i: usize = 1;
        while i < self.stts.len()
            invariant
                stts == self.stts@,
                1 <= i <= stts.len(),
                best == commonest_of(stts, i as int),
                most == samples_lasting(stts, best),
                forall|i: int|
                    0 <= i < stts.len() ==> totals@.contains_key((#[trigger] stts[i]).1)
                        && totals@[stts[i].1] == samples_lasting(stts, stts[i].1),
            decreases self.stts.len() - i,
        {
            let delta: u32 = self.stts[i].1;
            assert(totals@.contains_key(stts[i as int].1));
            let total: u128 = match totals.get(&delta) {
                Some(n) => *n,
                None => 0,
            };
            if total >= most {
                best = delta;
                most = total;
            }
            i += 1;
        }
        if best == 0 {
            1
        } else {
            best
        }
    }
}

// ---------------------------------------------------------------------------
// Reading a track
// ---------------------------------------------------------------------------

/// Why a trak box is not a track.
#[derive(Debug, Clone, Copy, PartialEq, Eq, Structural)]
pub enum TrackError {
    NoMdia,
    NoMdhd,
    NoHdlr,
    NoMinf,
    NoStbl,
    NoStsd,
    NoStsz,
    NoChunkOffsets,
    NoStsc,
    NoStts,
}

impl TrackError {
    /// The error in words.
    pub open spec fn text(self) -> Seq<char> {
        match self {
            TrackError::NoMdia => "trak missing mdia"@,
            TrackError::NoMdhd => "mdia missing mdhd"@,
            TrackError::NoHdlr => "mdia missing hdlr"@,
            TrackError::NoMinf => "mdia missing minf"@,
            TrackError::NoStbl => "minf missing stbl"@,
            TrackError::NoStsd => "stbl missing stsd"@,
            TrackError::NoStsz => "stbl missing stsz"@,
            TrackError::NoChunkOffsets => "stbl has neither stco nor co64"@,
            TrackError::NoStsc => "stbl missing stsc"@,
            TrackError::NoStts => "stbl missing stts"@,
        }
    }

    pub fn message(&self) -> (r: String)
        ensures
            r@ == self.text(),
    {
        let s = match self {
            TrackError::NoMdia => "trak missing mdia",
            TrackError::NoMdhd => "mdia missing mdhd",
            TrackError::NoHdlr => "mdia missing hdlr",
            TrackError::NoMinf => "mdia missing minf",
            TrackError::NoStbl => "minf missing stbl",
            TrackError::NoStsd => "stbl missing stsd",
            TrackError::NoStsz => "stbl missing stsz",
            TrackError::NoChunkOffsets => "stbl has neither stco nor co64",
            TrackError::NoStsc => "stbl missing stsc",
            TrackError::NoStts => "stbl missing stts",
        };
        s.to_owned()
    }
}

/// The 32-bit number at `i`, where the data holds one.
pub open spec fn word_at(d: Seq<u8>, i: int) -> Option<int> {
    if 0 <= i && i + 4 <= d.len() {
        Some(be32_at(d, i))
    } else {
        None
    }
}

/// `n` 32-bit numbers from `base` on, where the data holds them.
pub open spec fn words_at(d: Seq<u8>, base: int, n: int) -> Option<Seq<u32>> {
    if n <= 0 || base + 4 * n <= d.len() {
        Some(Seq::new(n as nat, |i: int| be32_at(d, base + 4 * i) as u32))
    } else {
        None
    }
}

/// `n` 64-bit numbers from `base` on, where the data holds them.
pub open spec fn longs_at(d: Seq<u8>, base: int, n: int) -> Option<Seq<u64>> {
    if n <= 0 || base + 8 * n <= d.len() {
        Some(Seq::new(n as nat, |i: int| be64_at(d, base + 8 * i) as u64))
    } else {
        None
    }
}

/// `n` pairs of 32-bit numbers, `stride` bytes apart from `base` on, where the
/// data holds them.
pub open spec fn pairs_at(d: Seq<u8>, base: int, stride: int, n: int) -> Option<Seq<(u32, u32)>> {
    if n <= 0 || base + stride * (n - 1) + 8 <= d.len() {
        Some(
            Seq::new(
                n as nat,
                |i: int|
                    (be32_at(d, base + stride * i) as u32, be32_at(d, base + stride * i + 4) as u32),
            ),
        )
    } else {
        None
    }
}

/// A table of 32-bit numbers behind its count, in the full box whose payload
/// starts at `b`.
pub open spec fn counted_words(d: Seq<u8>, b: int) -> Option<Seq<u32>> {
    match word_at(d, b + 4) {
        Some(n) => words_at(d, b + 8, n),
        None => None,
    }
}

/// A table of 64-bit numbers behind its count.
pub open spec fn counted_longs(d: Seq<u8>, b: int) -> Option<Seq<u64>> {
    match word_at(d, b + 4) {
        Some(n) => longs_at(d, b + 8, n),
        None => None,
    }
}

/// A table of pairs behind its count.
pub open spec fn counted_pairs(d: Seq<u8>, b: int, stride: int) -> Option<Seq<(u32, u32)>> {
    match word_at(d, b + 4) {
        Some(n) => pairs_at(d, b + 8, stride, n),
        None => None,
    }
}

/// The timescale in the mdhd payload at `b`, whose place depends on its version.
pub open spec fn timescale_at(d: Seq<u8>, b: int) -> Option<int> {
    if b >= d.len() {
        None
    } else if d[b] == 1 {
        word_at(d, b + 20)
    } else {
        word_at(d, b + 12)
    }
}

/// The sample sizes in the stsz payload at `b`: one for all, or one each.
pub open spec fn sizes_at(d: Seq<u8>, b: int) -> Option<Seq<u32>> {
    match (word_at(d, b + 4), word_at(d, b + 8)) {
        (Some(uniform), Some(n)) => if uniform != 0 {
            Some(Seq::new(n as nat, |i: int| uniform as u32))
        } else {
            words_at(d, b + 12, n)
        },
        _ => None,
    }
}

/// 32-bit numbers, widened.
pub open spec fn widened(v: Seq<u32>) -> Seq<u64> {
    v.map_values(|x: u32| x as u64)
}

/// What a sample table says: what a [`TrackTable`] holds of an `stbl`.
pub struct SampleTable {
    pub codec: Seq<char>,
    pub sizes: Seq<u32>,
    pub chunk_offsets: Seq<u64>,
    pub stsc: Seq<(u32, u32)>,
    pub sync_samples: Option<Seq<u32>>,
    pub stts: Seq<(u32, u32)>,
}

/// The name of the first entry of the stsd payload from `b` to `e`.
pub open spec fn codec_at(d: Seq<u8>, b: int, e: int) -> Seq<char> {
    if e - b >= 16 {
        utf8_lossy(d.subrange(b + 12, b + 16))
    } else {
        "????"@
    }
}

/// The chunk offsets of the stbl payload from `b` to `e`, of either width. The
/// outer `None` is for a table that the data does not hold.
pub open spec fn chunk_offsets_in(d: Seq<u8>, b: int, e: int) -> Option<Option<Seq<u64>>> {
    match first_box(d, b, e, STCO@) {
        Some(stco) => match counted_words(d, stco.body_start) {
            Some(v) => Some(Some(widened(v))),
            None => None,
        },
        None => match first_box(d, b, e, CO64@) {
            Some(co64) => match counted_longs(d, co64.body_start) {
                Some(v) => Some(Some(v)),
                None => None,
            },
            None => Some(None),
        },
    }
}

/// The sync samples of the stbl payload from `b` to `e`, if it lists them.
pub open spec fn syncs_in(d: Seq<u8>, b: int, e: int) -> Option<Option<Seq<u32>>> {
    match first_box(d, b, e, STSS@) {
        Some(stss) => match counted_words(d, stss.body_start) {
            Some(v) => Some(Some(v)),
            None => None,
        },
        None => Some(None),
    }
}

/// What the stbl payload from `b` to `e` says. Boxes and tables are looked for in
/// a fixed order, and the first that is missing or cut short decides.
pub open spec fn sample_table(d: Seq<u8>, b: int, e: int) -> Option<Result<SampleTable, TrackError>> {
    match first_box(d, b, e, STSD@) {
        None => Some(Err(TrackError::NoStsd)),
        Some(stsd) => match first_box(d, b, e, STSZ@) {
            None => Some(Err(TrackError::NoStsz)),
            Some(stsz) => match sizes_at(d, stsz.body_start) {
                None => None,
                Some(sizes) => match chunk_offsets_in(d, b, e) {
                    None => None,
                    Some(None) => Some(Err(TrackError::NoChunkOffsets)),
                    Some(Some(chunk_offsets)) => match first_box(d, b, e, STSC@) {
                        None => Some(Err(TrackError::NoStsc)),
                        Some(stsc_box) => match counted_pairs(d, stsc_box.body_start, 12) {
                            None => None,
                            Some(stsc) => match syncs_in(d, b, e) {
                                None => None,
                                Some(sync_samples) => match first_box(d, b, e, STTS@) {
                                    None => Some(Err(TrackError::NoStts)),
                                    Some(stts_box) => match counted_pairs(
                                        d,
                                        stts_box.body_start,
                                        8,
                                    ) {
                                        None => None,
                                        Some(stts) => Some(
                                            Ok(
                                                SampleTable {
                                                    codec: codec_at(
                                                        d,
                                                        stsd.body_start,
                                                        stsd.body_end,
                                                    ),
                                                    sizes,
                                                    chunk_offsets,
                                                    stsc,
                                                    sync_samples,
                                                    stts,
                                                },
                                            ),
                                        ),
                                    },
                                },
                            },
                        },
                    },
                },
            },
        },
    }
}

/// What the trak payload from `b` to `e` says; `None` if the data does not hold a
/// number or a table that it speaks of.
pub open spec fn track_table(d: Seq<u8>, b: int, e: int) -> Option<Result<TrackTable, TrackError>> {
    match first_box(d, b, e, MDIA@) {
        None => Some(Err(TrackError::NoMdia)),
        Some(mdia) => match first_box(d, mdia.body_start, mdia.body_end, MDHD@) {
            None => Some(Err(TrackError::NoMdhd)),
            Some(mdhd) => match timescale_at(d, mdhd.body_start) {
                None => None,
                Some(timescale) => match first_box(d, mdia.body_start, mdia.body_end, HDLR@) {
                    None => Some(Err(TrackError::NoHdlr)),
                    Some(hdlr) => if hdlr.body_start + 12 > d.len() {
                        None
                    } else {
                        match first_box(d, mdia.body_start, mdia.body_end, MINF@) {
                            None => Some(Err(TrackError::NoMinf)),
                            Some(minf) => match first_box(d, minf.body_start, minf.body_end, STBL@) {
                                None => Some(Err(TrackError::NoStbl)),
                                Some(stbl) => match sample_table(
                                    d,
                                    stbl.body_start,
                                    stbl.body_end,
                                ) {
                                    None => None,
                                    Some(Err(error)) => Some(Err(error)),
                                    Some(Ok(s)) => Some(
                                        Ok(
                                            TrackTable {
                                                handler: utf8_lossy(
                                                    d.subrange(
                                                        hdlr.body_start + 8,
                                                        hdlr.body_start + 12,
                                                    ),
                                                ),
                                                codec: s.codec,
                                                timescale: timescale as u32,
                                                sample_count: s.sizes.len() as int,
                                                sizes: s.sizes,
                                                chunk_offsets: s.chunk_offsets,
                                                stsc: s.stsc,
                                                sync_samples: s.sync_samples,
                                                stts: s.stts,
                                            },
                                        ),
                                    ),
                                },
                            },
                        }
                    },
                },
            },
        },
    }
}

/// The 32-bit number `k` bytes behind `b`, where the data holds one.
fn read_word(d: &[u8], b: usize, k: usize) -> (r: Option<u32>)
    requires
        b <= d@.len(),
        k <= 32,
    ensures
        match r {
            Some(v) => word_at(d@, b + k) == Some(v as int) && b + k + 4 <= d.len(),
            None => word_at(d@, b + k) is None,
        },
{
    if d.len() - b < k + 4 {
        return None;
    }
    Some(be32(d, b + k))
}

fn read_words(d: &[u8], base: usize, n: u32) -> (r: Option<Vec<u32>>)
    ensures
        match r {
            Some(v) => words_at(d@, base as int, n as int) == Some(v@) && v@.len() == n,
            None => words_at(d@, base as int, n as int) is None,
        },
{
    let mut out: Vec<u32> = Vec::new();
    if n == 0 {
        assert(out@ =~= Seq::new(0, |i: int| be32_at(d@, base + 4 * i) as u32));
        return Some(out);
    }
    if base > d.len() || (d.len() - base) as u64 / 4 < n as u64 {
        return None;
    }
    let mut i: u32 = 0;
    let mut at: usize = base;
    while i < n
        invariant
            i <= n,
            at == base + 4 * i,
            base + 4 * n <= d.len(),
            out@ == Seq::new(i as nat, |i: int| be32_at(d@, base + 4 * i) as u32),
        decreases n - i,
    {
        out.push(be32(d, at));
        at += 4;
        i += 1;
        assert(out@ =~= Seq::new(i as nat, |i: int| be32_at(d@, base + 4 * i) as u32));
    }
    Some(out)
}

fn read_longs(d: &[u8], base: usize, n: u32) -> (r: Option<Vec<u64>>)
    ensures
        match r {
            Some(v) => longs_at(d@, base as int, n as int) == Some(v@) && v@.len() == n,
            None => longs_at(d@, base as int, n as int) is None,
        },
{
    let mut out: Vec<u64> = Vec::new();
    if n == 0 {
        assert(out@ =~= Seq::new(0, |i: int| be64_at(d@, base + 8 * i) as u64));
        return Some(out);
    }
    if base > d.len() || (d.len() - base) as u64 / 8 < n as u64 {
        return None;
    }
    let mut i: u32 = 0;
    let mut at: usize = base;
    while i < n
        invariant
            i <= n,
            at == base + 8 * i,
            base + 8 * n <= d.len(),
            out@ == Seq::new(i as nat, |i: int| be64_at(d@, base + 8 * i) as u64),
        decreases n - i,
    {
        out.push(be64(d, at));
        at += 8;
        i += 1;
        assert(out@ =~= Seq::new(i as nat, |i: int| be64_at(d@, base + 8 * i) as u64));
    }
    Some(out)
}

fn read_pairs(d: &[u8], base: usize, stride: usize, n: u32) -> (r: Option<Vec<(u32, u32)>>)
    requires
        stride == 8 || stride == 12,
    ensures
        match r {
            Some(v) => pairs_at(d@, base as int, stride as int, n as int) == Some(v@) && v@.len() == n,
            None => pairs_at(d@, base as int, stride as int, n as int) is None,
        },
{
    let ghost want = |i: int|
        (be32_at(d@, base + stride * i) as u32, be32_at(d@, base + stride * i + 4) as u32);
    let mut out: Vec<(u32, u32)> = Vec::new();
    if n == 0 {
        assert(out@ =~= Seq::new(0, want));
        return Some(out);
    }
    if base > d.len() || d.len() - base < 8 {
        assert(stride * (n - 1) >= 0) by (nonlinear_arith)
            requires
                stride >= 0,
                n >= 1,
        ;
        return None;
    }
    let room: u64 = (d.len() - base - 8) as u64 / stride as u64;
    proof {
        let left = d.len() - base - 8;
        assert(room >= n - 1 <==> stride * (n - 1) <= left) by {
            assert(stride * room <= left < stride * room + stride) by (nonlinear_arith)
                requires
                    room == left as u64 / stride as u64,
                    left >= 0,
                    left <= u64::MAX,
                    stride > 0,
            ;
            assert(room >= n - 1 ==> stride * (n - 1) <= stride * room) by (nonlinear_arith)
                requires
                    stride > 0,
            ;
            assert(room < n - 1 ==> stride * (n - 1) >= stride * room + stride) by (nonlinear_arith)
                requires
                    stride > 0,
            ;
        }
    }
    if room < n as u64 - 1 {
        return None;
    }
    let mut i: u32 = 0;
    let mut at: usize = base;
    while i < n
        invariant
            i <= n,
            i < n ==> at == base + stride * i,
            base + stride * (n - 1) + 8 <= d.len(),
            stride == 8 || stride == 12,
            want == (|i: int|
                (
                    be32_at(d@, base + stride * i) as u32,
                    be32_at(d@, base + stride * i + 4) as u32,
                )),
            out@ == Seq::new(i as nat, want),
        decreases n - i,
    {
        assert(stride * i <= stride * (n - 1)) by (nonlinear_arith)
            requires
                i <= n - 1,
                stride > 0,
        ;
        out.push((be32(d, at), be32(d, at + 4)));
        i += 1;
        assert(out@ =~= Seq::new(i as nat, want));
        if i < n {
            assert(stride * i <= stride * (n - 1)) by (nonlinear_arith)
                requires
                    i <= n - 1,
                    stride > 0,
            ;
            assert(stride * i == stride * (i - 1) + stride) by (nonlinear_arith);
            at += stride;
        }
    }
    Some(out)
}

fn read_counted_words(d: &[u8], b: usize) -> (r: Option<Vec<u32>>)
    requires
        b <= d@.len(),
    ensures
        match r {
            Some(v) => counted_words(d@, b as int) == Some(v@) && v@.len() <= u32::MAX,
            None => counted_words(d@, b as int) is None,
        },
{
    let n: u32 = read_word(d, b, 4)?;
    read_words(d, b + 8, n)
}

fn read_counted_longs(d: &[u8], b: usize) -> (r: Option<Vec<u64>>)
    requires
        b <= d@.len(),
    ensures
        match r {
            Some(v) => counted_longs(d@, b as int) == Some(v@) && v@.len() <= u32::MAX,
            None => counted_longs(d@, b as int) is None,
        },
{
    let n: u32 = read_word(d, b, 4)?;
    read_longs(d, b + 8, n)
}

fn read_counted_pairs(d: &[u8], b: usize, stride: usize) -> (r: Option<Vec<(u32, u32)>>)
    requires
        b <= d@.len(),
        stride == 8 || stride == 12,
    ensures
        match r {
            Some(v) => counted_pairs(d@, b as int, stride as int) == Some(v@) && v@.len() <= u32::MAX,
            None => counted_pairs(d@, b as int, stride as int) is None,
        },
{
    let n: u32 = read_word(d, b, 4)?;
    read_pairs(d, b + 8, stride, n)
}

fn read_timescale(d: &[u8], b: usize) -> (r: Option<u32>)
    requires
        b <= d@.len(),
    ensures
        match r {
            Some(v) => timescale_at(d@, b as int) == Some(v as int),
            None => timescale_at(d@, b as int) is None,
        },
{
    if b >= d.len() {
        return None;
    }
    if d[b] == 1 {
        read_word(d, b, 20)
    } else {
        read_word(d, b, 12)
    }
}

fn read_sizes(d: &[u8], b: usize) -> (r: Option<Vec<u32>>)
    requires
        b <= d@.len(),
    ensures
        match r {
            Some(v) => sizes_at(d@, b as int) == Some(v@) && v@.len() <= u32::MAX,
            None => sizes_at(d@, b as int) is None,
        },
{
    let uniform: u32 = read_word(d, b, 4)?;
    let n: u32 = read_word(d, b, 8)?;
    if uniform == 0 {
        return read_words(d, b + 12, n);
    }
    let mut out: Vec<u32> = Vec::new();
    let mut i: u32 = 0;
    while i < n
        invariant
            i <= n,
            out@ == Seq::new(i as nat, |i: int| uniform as u32),
        decreases n - i,
    {
        out.push(uniform);
        i += 1;
        assert(out@ =~= Seq::new(i as nat, |i: int| uniform as u32));
    }
    assert(uniform as int as u32 == uniform);
    assert(out@ =~= Seq::new(n as int as nat, |i: int| uniform as int as u32));
    Some(out)
}

fn read_chunk_offsets(d: &[u8], b: usize, e: usize) -> (r: Option<Option<Vec<u64>>>)
    requires
        e <= d@.len(),
    ensures
        match r {
            Some(Some(v)) => chunk_offsets_in(d@, b as int, e as int) == Some(Some(v@)) && v@.len()
                <= u32::MAX,
            Some(None) => chunk_offsets_in(d@, b as int, e as int) == Some(None::<Seq<u64>>),
            None => chunk_offsets_in(d@, b as int, e as int) is None,
        },
{
    if let Some(stco) = find_box(d, b, e, &STCO) {
        let narrow = read_counted_words(d, stco.body_start)?;
        let mut out: Vec<u64> = Vec::new();
        let mut i: usize = 0;
        assert(widened(narrow@.take(0)) =~= out@);
        while i < narrow.len()
            invariant
                i <= narrow@.len(),
                out@ == widened(narrow@.take(i as int)),
            decreases narrow.len() - i,
        {
            let ghost before = out@;
            out.push(narrow[i] as u64);
            i += 1;
            assert(narrow@.take(i as int) =~= narrow@.take(i - 1).push(narrow@[i - 1]));
            assert(out@ =~= widened(narrow@.take(i as int)));
        }
        assert(narrow@.take(i as int) =~= narrow@);
        return Some(Some(out));
    }
    if let Some(co64) = find_box(d, b, e, &CO64) {
        return Some(Some(read_counted_longs(d, co64.body_start)?));
    }
    Some(None)
}

fn read_syncs(d: &[u8], b: usize, e: usize) -> (r: Option<Option<Vec<u32>>>)
    requires
        e <= d@.len(),
    ensures
        match r {
            Some(Some(v)) => syncs_in(d@, b as int, e as int) == Some(Some(v@)),
            Some(None) => syncs_in(d@, b as int, e as int) == Some(None::<Seq<u32>>),
            None => syncs_in(d@, b as int, e as int) is None,
        },
{
    match find_box(d, b, e, &STSS) {
        Some(stss) => Some(Some(read_counted_words(d, stss.body_start)?)),
        None => Some(None),
    }
}

/// Reads a sample table: as [`Track`], without a handler and a timescale.
fn read_sample_table(d: &[u8], b: usize, e: usize) -> (r: Option<Result<Track, TrackError>>)
    requires
        e <= d@.len(),
    ensures
        match r {
            Some(Ok(t)) => t.wf() && sample_table(d@, b as int, e as int) == Some(
                Ok::<SampleTable, TrackError>(
                    SampleTable {
                        codec: t@.codec,
                        sizes: t@.sizes,
                        chunk_offsets: t@.chunk_offsets,
                        stsc: t@.stsc,
                        sync_samples: t@.sync_samples,
                        stts: t@.stts,
                    },
                ),
            ) && t.stts@.len() <= u32::MAX,
            Some(Err(error)) => sample_table(d@, b as int, e as int) == Some(
                Err::<SampleTable, TrackError>(error),
            ),
            None => sample_table(d@, b as int, e as int) is None,
        },
{
    let stsd = match find_box(d, b, e, &STSD) {
        Some(x) => x,
        None => {
            return Some(Err(TrackError::NoStsd));
        },
    };
    let codec = if stsd.body_end - stsd.body_start >= 16 {
        lossy_text(&d[stsd.body_start + 12..stsd.body_start + 16])
    } else {
        "????".to_owned()
    };
    let stsz = match find_box(d, b, e, &STSZ) {
        Some(x) => x,
        None => {
            return Some(Err(TrackError::NoStsz));
        },
    };
    let sizes = read_sizes(d, stsz.body_start)?;
    let chunk_offsets = match read_chunk_offsets(d, b, e)? {
        Some(v) => v,
        None => {
            return Some(Err(TrackError::NoChunkOffsets));
        },
    };
    let stsc_box = match find_box(d, b, e, &STSC) {
        Some(x) => x,
        None => {
            return Some(Err(TrackError::NoStsc));
        },
    };
    let stsc = read_counted_pairs(d, stsc_box.body_start, 12)?;
    // absent means all samples are sync
    let sync_samples = read_syncs(d, b, e)?;
    let stts_box = match find_box(d, b, e, &STTS) {
        Some(x) => x,
        None => {
            return Some(Err(TrackError::NoStts));
        },
    };
    let stts = read_counted_pairs(d, stts_box.body_start, 8)?;
    Some(
        Ok(
            Track {
                handler: String::new(),
                codec,
                timescale: 0,
                sample_count: sizes.len(),
                sizes,
                chunk_offsets,
                stsc,
                sync_samples,
                stts,
            },
        ),
    )
}

/// A track that was read from an index: its tables are counted in 32 bits.
pub open spec fn read_track(t: Track) -> bool {
    t.wf() && t.stts@.len() <= u32::MAX
}

/// The track that a trak box describes; `None` if the data does not hold a number
/// or a table that the box speaks of.
pub fn try_parse_track(data: &[u8], trak: &BoxRef) -> (r: Option<Result<Track, TrackError>>)
    ensures
        match r {
            Some(Ok(t)) => read_track(t) && track_table(
                data@,
                trak.body_start as int,
                clipped(data@, trak.body_end as int),
            ) == Some(Ok::<TrackTable, TrackError>(t@)),
            Some(Err(error)) => track_table(
                data@,
                trak.body_start as int,
                clipped(data@, trak.body_end as int),
            ) == Some(Err::<TrackTable, TrackError>(error)),
            None => track_table(
                data@,
                trak.body_start as int,
                clipped(data@, trak.body_end as int),
            ) is None,
        },
{
    let mdia = match find_box(data, trak.body_start, trak.body_end, &MDIA) {
        Some(x) => x,
        None => {
            return Some(Err(TrackError::NoMdia));
        },
    };
    let mdhd = match find_box(data, mdia.body_start, mdia.body_end, &MDHD) {
        Some(x) => x,
        None => {
            return Some(Err(TrackError::NoMdhd));
        },
    };
    let timescale: u32 = read_timescale(data, mdhd.body_start)?;
    let hdlr = match find_box(data, mdia.body_start, mdia.body_end, &HDLR) {
        Some(x) => x,
        None => {
            return Some(Err(TrackError::NoHdlr));
        },
    };
    if data.len() - hdlr.body_start < 12 {
        return None;
    }
    let handler = lossy_text(&data[hdlr.body_start + 8..hdlr.body_start + 12]);
    let minf = match find_box(data, mdia.body_start, mdia.body_end, &MINF) {
        Some(x) => x,
        None => {
            return Some(Err(TrackError::NoMinf));
        },
    };
    let stbl = match find_box(data, minf.body_start, minf.body_end, &STBL) {
        Some(x) => x,
        None => {
            return Some(Err(TrackError::NoStbl));
        },
    };
    match read_sample_table(data, stbl.body_start, stbl.body_end)? {
        Ok(mut t) => {
            t.handler = handler;
            t.timescale = timescale;
            Some(Ok(t))
        },
        Err(error) => Some(Err(error)),
    }
}

/// The track that a trak box describes.
pub fn parse_track(data: &[u8], trak: &BoxRef) -> (r: Result<Track, TrackError>)
    requires
        track_table(data@, trak.body_start as int, clipped(data@, trak.body_end as int)) is Some,
    ensures
        match r {
            Ok(t) => read_track(t) && track_table(
                data@,
                trak.body_start as int,
                clipped(data@, trak.body_end as int),
            ) == Some(Ok::<TrackTable, TrackError>(t@)),
            Err(error) => track_table(
                data@,
                trak.body_start as int,
                clipped(data@, trak.body_end as int),
            ) == Some(Err::<TrackTable, TrackError>(error)),
        },
{
    try_parse_track(data, trak).unwrap()
}

// ---------------------------------------------------------------------------
// Finding the index
// ---------------------------------------------------------------------------

/// A parsed index.
#[derive(Debug)]
pub struct Moov {
    pub tracks: Vec<Track>,
    /// Offset of the moov box within the buffer it was scanned from.
    pub offset: u64,
}

/// What an index says.
pub struct MoovTable {
    pub tracks: Seq<TrackTable>,
    pub offset: int,
}

impl View for Moov {
    type V = MoovTable;

    open spec fn view(&self) -> MoovTable {
        MoovTable { tracks: tables(self.tracks@), offset: self.offset as int }
    }
}

/// The atoms of the given name, in order.
pub open spec fn named(all: Seq<Atom>, fourcc: Seq<u8>) -> Seq<Atom>
    decreases all.len(),
{
    if all.len() == 0 {
        seq![]
    } else if all.last().fourcc == fourcc {
        named(all.drop_last(), fourcc).push(all.last())
    } else {
        named(all.drop_last(), fourcc)
    }
}

/// Whether `a` is less likely than `b` to be a true atom: one that chains is more
/// likely than one that does not, and among such the larger one.
pub open spec fn less_likely(a: Atom, b: Atom) -> bool {
    (!a.chains && b.chains) || (a.chains == b.chains && a.size < b.size)
}

/// The list with `x` placed behind everything that is at least as likely.
pub open spec fn atom_placed(s: Seq<Atom>, x: Atom) -> Seq<Atom>
    decreases s.len(),
{
    if s.len() > 0 && less_likely(s.last(), x) {
        atom_placed(s.drop_last(), x).push(s.last())
    } else {
        s.push(x)
    }
}

/// The list from the most to the least likely; equals keep their order.
pub open spec fn likeliest_first(s: Seq<Atom>) -> Seq<Atom>
    decreases s.len(),
{
    if s.len() == 0 {
        seq![]
    } else {
        atom_placed(likeliest_first(s.drop_last()), s.last())
    }
}

/// The tracks among the boxes from `pos` on; trak boxes that are no tracks are
/// passed over. `None` if the data does not hold what one of them speaks of.
pub open spec fn tracks_from(d: Seq<u8>, pos: int, end: int) -> Option<Seq<TrackTable>>
    decreases end - pos,
{
    match box_at(d, pos, end) {
        None => Some(seq![]),
        Some(b) => if b.fourcc == TRAK@ {
            match track_table(d, b.body_start, b.body_end) {
                None => None,
                Some(Ok(t)) => match tracks_from(d, b.body_end, end) {
                    Some(rest) => Some(seq![t] + rest),
                    None => None,
                },
                Some(Err(error)) => tracks_from(d, b.body_end, end),
            }
        } else {
            tracks_from(d, b.body_end, end)
        },
    }
}

/// The first of the candidates from `i` on that holds a track.
pub open spec fn first_moov(d: Seq<u8>, candidates: Seq<Atom>, i: int) -> Option<Option<MoovTable>>
    decreases candidates.len() - i,
{
    if i < 0 || i >= candidates.len() {
        Some(None)
    } else {
        let a = candidates[i];
        match tracks_from(d, a.offset + 8, a.offset + a.size) {
            None => None,
            Some(tracks) => if tracks.len() > 0 {
                Some(Some(MoovTable { tracks, offset: a.offset }))
            } else {
                first_moov(d, candidates, i + 1)
            },
        }
    }
}

/// The index of the data, wherever it stands; the inner `None` if there is no
/// index, the outer if the data does not hold what one speaks of.
pub open spec fn moov_table(d: Seq<u8>) -> Option<Option<MoovTable>> {
    first_moov(d, likeliest_first(named(atoms(d), MOOV@)), 0)
}

/// What a list of atoms says.
pub open spec fn seen(v: Seq<AtomHit>) -> Seq<Atom> {
    v.map_values(|h: AtomHit| h@)
}

/// Atoms that lie within the data.
pub open spec fn inside(d: Seq<u8>, v: Seq<Atom>) -> bool {
    forall|i: int|
        0 <= i < v.len() ==> 0 <= (#[trigger] v[i]).offset && 8 <= v[i].size && v[i].offset + v[i].size
            <= d.len() && v[i].fourcc.len() == 4
}

/// Every atom found lies within the data.
pub proof fn lemma_atoms_inside(d: Seq<u8>, n: int)
    ensures
        inside(d, atoms_before(d, n)),
    decreases n,
{
    if n > 0 {
        lemma_atoms_inside(d, n - 1);
    }
}

/// Atoms picked by name lie within the data.
pub proof fn lemma_named_inside(d: Seq<u8>, all: Seq<Atom>, fourcc: Seq<u8>)
    requires
        inside(d, all),
    ensures
        inside(d, named(all, fourcc)),
    decreases all.len(),
{
    if all.len() > 0 {
        lemma_named_inside(d, all.drop_last(), fourcc);
    }
}

/// Collects the atoms of the given name.
fn collect_named(hits: &[AtomHit], fourcc: &[u8; 4]) -> (r: Vec<AtomHit>)
    ensures
        seen(r@) == named(seen(hits@), fourcc@),
{
    let ghost all = seen(hits@);
    let mut out: Vec<AtomHit> = Vec::new();
    let mut i: usize = 0;
    assert(all.take(0) =~= Seq::<Atom>::empty());
    assert(seen(out@) =~= Seq::<Atom>::empty());
    while i < hits.len()
        invariant
            i <= hits@.len(),
            all == seen(hits@),
            seen(out@) == named(all.take(i as int), fourcc@),
        decreases hits.len() - i,
    {
        let h = hits[i];
        assert(all.take(i + 1).drop_last() =~= all.take(i as int));
        assert(all.take(i + 1).last() == h@);
        if crate::bytes::same_bytes(&h.fourcc, fourcc) {
            let ghost before = seen(out@);
            out.push(h);
            assert(seen(out@) =~= before.push(h@));
        }
        i += 1;
    }
    assert(all.take(i as int) =~= all);
    out
}

fn place_atom(v: &mut Vec<AtomHit>, x: AtomHit)
    ensures
        seen(final(v)@) == atom_placed(seen(old(v)@), x@),
{
    let ghost start = seen(v@);
    let mut i: usize = v.len();
    proof {
        assert(start.take(i as int) =~= start);
        assert(start.skip(i as int) =~= Seq::<Atom>::empty());
        assert(atom_placed(start, x@) + Seq::<Atom>::empty() =~= atom_placed(start, x@));
    }
    while i > 0 && ((!v[i - 1].chains && x.chains) || (v[i - 1].chains == x.chains && v[i - 1].size
        < x.size))
        invariant
            i <= v@.len(),
            start == seen(v@),
            atom_placed(start, x@) == atom_placed(start.take(i as int), x@) + start.skip(i as int),
        decreases i,
    {
        proof {
            let t = start.take(i as int);
            assert(t.last() == v@[i - 1]@);
            assert(t.drop_last() =~= start.take(i - 1));
            assert(atom_placed(t.drop_last(), x@).push(t.last()) + start.skip(i as int)
                =~= atom_placed(t.drop_last(), x@) + start.skip(i - 1));
        }
        i -= 1;
    }
    proof {
        let t = start.take(i as int);
        if i > 0 {
            assert(t.last() == v@[i - 1]@);
        }
        assert(atom_placed(t, x@) == t.push(x@));
    }
    v.insert(i, x);
    assert(seen(v@) =~= start.take(i as int).push(x@) + start.skip(i as int));
}

/// Sorts candidates, the most likely first.
fn rank(hits: &[AtomHit]) -> (r: Vec<AtomHit>)
    ensures
        seen(r@) == likeliest_first(seen(hits@)),
{
    let ghost all = seen(hits@);
    let mut out: Vec<AtomHit> = Vec::new();
    let mut i: usize = 0;
    assert(all.take(0) =~= Seq::<Atom>::empty());
    assert(seen(out@) =~= Seq::<Atom>::empty());
    while i < hits.len()
        invariant
            i <= hits@.len(),
            all == seen(hits@),
            seen(out@) == likeliest_first(all.take(i as int)),
        decreases hits.len() - i,
    {
        assert(all.take(i + 1).drop_last() =~= all.take(i as int));
        assert(all.take(i + 1).last() == hits@[i as int]@);
        place_atom(&mut out, hits[i]);
        i += 1;
    }
    assert(all.take(i as int) =~= all);
    out
}

/// An atom that is placed among others lies within the data as they do.
pub proof fn lemma_placed_inside(d: Seq<u8>, s: Seq<Atom>, x: Atom)
    requires
        inside(d, s),
        inside(d, seq![x]),
    ensures
        inside(d, atom_placed(s, x)),
    decreases s.len(),
{
    assert(seq![x][0] == x);
    if s.len() > 0 && less_likely(s.last(), x) {
        lemma_placed_inside(d, s.drop_last(), x);
    }
}

proof fn lemma_ranked_inside(d: Seq<u8>, s: Seq<Atom>)
    requires
        inside(d, s),
    ensures
        inside(d, likeliest_first(s)),
    decreases s.len(),
{
    if s.len() > 0 {
        lemma_ranked_inside(d, s.drop_last());
        lemma_placed_inside(d, likeliest_first(s.drop_last()), s.last());
    }
}

/// All tracks were read from an index.
pub open spec fn read_tracks(v: Seq<Track>) -> bool {
    forall|i: int| 0 <= i < v.len() ==> read_track(#[trigger] v[i])
}

fn read_tracks_from(d: &[u8], start: usize, end: usize) -> (r: Option<Vec<Track>>)
    requires
        end <= d@.len(),
    ensures
        match r {
            Some(v) => tracks_from(d@, start as int, end as int) == Some(tables(v@)) && read_tracks(v@),
            None => tracks_from(d@, start as int, end as int) is None,
        },
{
    let mut out: Vec<Track> = Vec::new();
    let mut it = BoxIter::new(d, start, end);
    let ghost whole = tracks_from(d@, start as int, end as int);
    proof {
        assert(tables(out@) =~= Seq::<TrackTable>::empty());
        if whole is Some {
            assert(tables(out@) + whole.unwrap() =~= whole.unwrap());
        }
    }
    loop
        invariant
            it.data() == d@,
            it.end() == end,
            end <= d@.len(),
            read_tracks(out@),
            whole == tracks_from(d@, start as int, end as int),
            match tracks_from(d@, it.pos(), end as int) {
                Some(rest) => whole == Some(tables(out@) + rest),
                None => whole is None,
            },
        decreases it.end() - it.pos(),
    {
        match it.next() {
            Some(b) => {
                if crate::bytes::same_bytes(&b.fourcc, &TRAK) {
                    match try_parse_track(d, &b)? {
                        Ok(t) => {
                            let ghost before = tables(out@);
                            let ghost rest = tracks_from(d@, it.pos(), end as int);
                            out.push(t);
                            assert(tables(out@) =~= before.push(t@));
                            assert(rest matches Some(r) ==> before + (seq![t@] + r) =~= tables(out@)
                                + r);
                        },
                        Err(_) => {},
                    }
                }
            },
            None => {
                assert(tables(out@) + Seq::<TrackTable>::empty() =~= tables(out@));
                return Some(out);
            },
        }
    }
}

/// An index whose tracks were read, and which lies in `d`.
pub open spec fn read_moov(m: Moov, d: Seq<u8>) -> bool {
    read_tracks(m.tracks@) && m.tracks@.len() > 0 && m.offset < d.len()
}

/// Hunts for a parseable moov box anywhere in the buffer; the outer `None` if the
/// data does not hold what a candidate speaks of.
pub fn try_find_moov(data: &[u8]) -> (r: Option<Option<Moov>>)
    ensures
        match r {
            Some(Some(m)) => moov_table(data@) == Some(Some(m@)) && read_moov(m, data@),
            Some(None) => moov_table(data@) == Some(None::<MoovTable>),
            None => moov_table(data@) is None,
        },
{
    let hits = scan_atoms(data);
    assert(seen(hits@) == atoms(data@));
    let moovs = collect_named(&hits, &MOOV);
    // Prefer chained hits (ending at EOF or another atom): a real moov chains.
    let candidates = rank(&moovs);
    let ghost cands = seen(candidates@);
    proof {
        lemma_atoms_inside(data@, data@.len() as int);
        lemma_named_inside(data@, atoms(data@), MOOV@);
        lemma_ranked_inside(data@, named(atoms(data@), MOOV@));
    }
    let mut i: usize = 0;
    while i < candidates.len()
        invariant
            i <= candidates@.len(),
            cands == seen(candidates@),
            cands == likeliest_first(named(atoms(data@), MOOV@)),
            inside(data@, cands),
            moov_table(data@) == first_moov(data@, cands, i as int),
        decreases candidates.len() - i,
    {
        let hit = candidates[i];
        assert(cands[i as int] == hit@);
        assert(hit.offset + hit.size <= data.len());
        let start: usize = hit.offset as usize;
        let end: usize = start + hit.size as usize;
        let tracks = read_tracks_from(data, start + 8, end)?;
        assert(tables(tracks@).len() == tracks@.len());
        if tracks.len() > 0 {
            return Some(Some(Moov { tracks, offset: hit.offset }));
        }
        i += 1;
    }
    Some(None)
}

/// Hunts for a parseable moov box anywhere in the buffer.
pub fn find_moov(data: &[u8]) -> (r: Option<Moov>)
    requires
        moov_table(data@) is Some,
    ensures
        match r {
            Some(m) => moov_table(data@) == Some(Some(m@)) && read_moov(m, data@),
            None => moov_table(data@) == Some(None::<MoovTable>),
        },
{
    try_find_moov(data).unwrap()
}

/// The atoms that are as likely as any with this chaining and size, in order.
pub open spec fn as_likely_as(s: Seq<Atom>, chains: bool, size: int) -> Seq<Atom>
    decreases s.len(),
{
    if s.len() == 0 {
        seq![]
    } else if s.last().chains == chains && s.last().size == size {
        as_likely_as(s.drop_last(), chains, size).push(s.last())
    } else {
        as_likely_as(s.drop_last(), chains, size)
    }
}

/// Whether no atom is followed by a likelier one.
pub open spec fn unlikelier_on(s: Seq<Atom>) -> bool {
    forall|i: int, j: int| 0 <= i < j < s.len() ==> !less_likely(#[trigger] s[i], #[trigger] s[j])
}

proof fn lemma_atom_placed(s: Seq<Atom>, x: Atom)
    requires
        unlikelier_on(s),
    ensures
        unlikelier_on(atom_placed(s, x)),
        atom_placed(s, x).len() == s.len() + 1,
        atom_placed(s, x).to_multiset() == s.to_multiset().insert(x),
        forall|i: int|
            0 <= i < s.len() + 1 ==> #[trigger] atom_placed(s, x)[i] == x || s.contains(
                atom_placed(s, x)[i],
            ),
    decreases s.len(),
{
    broadcast use vstd::seq_lib::group_to_multiset_ensures;

    let p = atom_placed(s, x);
    if s.len() > 0 && less_likely(s.last(), x) {
        let head = s.drop_last();
        let inner = atom_placed(head, x);
        lemma_atom_placed(head, x);
        assert(head.push(s.last()) =~= s);
        assert(p =~= inner.push(s.last()));
        assert forall|i: int| 0 <= i < p.len() implies #[trigger] p[i] == x || s.contains(p[i]) by {
            if i < inner.len() {
                assert(p[i] == inner[i]);
                if inner[i] != x {
                    let k = choose|k: int| 0 <= k < head.len() && head[k] == inner[i];
                    assert(s[k] == p[i]);
                }
            } else {
                assert(s[s.len() - 1] == p[i]);
            }
        }
        assert forall|i: int, j: int| 0 <= i < j < p.len() implies !less_likely(
            #[trigger] p[i],
            #[trigger] p[j],
        ) by {
            assert(p[i] == inner[i]);
            if j == inner.len() {
                if inner[i] != x {
                    let k = choose|k: int| 0 <= k < head.len() && head[k] == inner[i];
                    assert(!less_likely(s[k], s[s.len() - 1]));
                }
            } else {
                assert(p[j] == inner[j]);
            }
        }
        assert(p.to_multiset() =~= s.to_multiset().insert(x));
    } else {
        assert forall|i: int, j: int| 0 <= i < j < p.len() implies !less_likely(
            #[trigger] p[i],
            #[trigger] p[j],
        ) by {
            assert(p[i] == s[i]);
            if j == s.len() {
                if i < s.len() - 1 {
                    assert(!less_likely(s[i], s[s.len() - 1]));
                }
            } else {
                assert(p[j] == s[j]);
            }
        }
        assert forall|i: int| 0 <= i < p.len() implies #[trigger] p[i] == x || s.contains(p[i]) by {
            if i < s.len() {
                assert(s[i] == p[i]);
            }
        }
    }
}

proof fn lemma_atom_placed_in_turn(s: Seq<Atom>, x: Atom, chains: bool, size: int)
    ensures
        as_likely_as(atom_placed(s, x), chains, size) == if x.chains == chains && x.size == size {
            as_likely_as(s, chains, size).push(x)
        } else {
            as_likely_as(s, chains, size)
        },
    decreases s.len(),
{
    if s.len() > 0 && less_likely(s.last(), x) {
        lemma_atom_placed_in_turn(s.drop_last(), x, chains, size);
        assert(atom_placed(s, x).drop_last() =~= atom_placed(s.drop_last(), x));
    } else {
        assert(s.push(x).drop_last() =~= s);
    }
}

/// Ranking loses and adds no atom, leaves the likeliest in front (one that chains before
/// one that does not, then the larger), and keeps the order among equally likely ones.
pub proof fn law_likeliest_first(s: Seq<Atom>)
    ensures
        likeliest_first(s).len() == s.len(),
        likeliest_first(s).to_multiset() == s.to_multiset(),
        unlikelier_on(likeliest_first(s)),
        forall|chains: bool, size: int| #[trigger]
            as_likely_as(likeliest_first(s), chains, size) == as_likely_as(s, chains, size),
    decreases s.len(),
{
    broadcast use vstd::seq_lib::group_to_multiset_ensures;

    if s.len() > 0 {
        let head = s.drop_last();
        law_likeliest_first(head);
        lemma_atom_placed(likeliest_first(head), s.last());
        assert(head.push(s.last()) =~= s);
        assert forall|chains: bool, size: int| #[trigger]
            as_likely_as(likeliest_first(s), chains, size) == as_likely_as(s, chains, size) by {
            lemma_atom_placed_in_turn(likeliest_first(head), s.last(), chains, size);
            assert(as_likely_as(likeliest_first(head), chains, size) == as_likely_as(
                head,
                chains,
                size,
            ));
        }
    } else {
        assert(s =~= Seq::<Atom>::empty());
    }
}

/// Whether `a` is taken before `b`: it is likelier, or as likely and stands further in front.
pub open spec fn taken_before(a: Atom, b: Atom) -> bool {
    less_likely(b, a) || (a.chains == b.chains && a.size == b.size && a.offset < b.offset)
}

spec fn in_file_order(s: Seq<Atom>, end: int) -> bool {
    &&& forall|i: int, j: int|
        0 <= i < j < s.len() ==> (#[trigger] s[i]).offset < (#[trigger] s[j]).offset
    &&& forall|i: int| 0 <= i < s.len() ==> (#[trigger] s[i]).offset < end
}

spec fn in_turn(s: Seq<Atom>) -> bool {
    forall|i: int, j: int| 0 <= i < j < s.len() ==> taken_before(#[trigger] s[i], #[trigger] s[j])
}

proof fn lemma_atoms_in_file_order(d: Seq<u8>, n: int)
    ensures
        in_file_order(atoms_before(d, n), n),
        forall|i: int|
            0 <= i < atoms_before(d, n).len() ==> atom_at(
                d,
                (#[trigger] atoms_before(d, n)[i]).offset,
            ) == Some(atoms_before(d, n)[i]),
    decreases n,
{
    if n > 0 {
        lemma_atoms_in_file_order(d, n - 1);
    }
}

proof fn lemma_named(all: Seq<Atom>, fourcc: Seq<u8>, end: int)
    requires
        in_file_order(all, end),
    ensures
        in_file_order(named(all, fourcc), end),
        forall|a: Atom| #[trigger]
            named(all, fourcc).contains(a) <==> all.contains(a) && a.fourcc == fourcc,
    decreases all.len(),
{
    if all.len() > 0 {
        let head = all.drop_last();
        let before = named(head, fourcc);
        let v = named(all, fourcc);
        lemma_named(head, fourcc, all.last().offset);
        assert(head.push(all.last()) =~= all);
        assert forall|a: Atom| #[trigger] v.contains(a) implies all.contains(a) && a.fourcc
            == fourcc by {
            let k = choose|k: int| 0 <= k < v.len() && v[k] == a;
            if k < before.len() {
                assert(before[k] == a);
                assert(before.contains(a));
                let i = choose|i: int| 0 <= i < head.len() && head[i] == a;
                assert(all[i] == a);
            } else {
                assert(all[all.len() - 1] == a);
            }
        }
        assert forall|a: Atom| all.contains(a) && a.fourcc == fourcc implies #[trigger] v.contains(
            a,
        ) by {
            let i = choose|i: int| 0 <= i < all.len() && all[i] == a;
            if i < head.len() {
                assert(head[i] == a);
                assert(before.contains(a));
                let k = choose|k: int| 0 <= k < before.len() && before[k] == a;
                assert(v[k] == a);
            } else {
                assert(v[v.len() - 1] == a);
            }
        }
    }
}

proof fn lemma_placed_in_turn(s: Seq<Atom>, x: Atom)
    requires
        in_turn(s),
        forall|i: int| 0 <= i < s.len() ==> (#[trigger] s[i]).offset < x.offset,
    ensures
        in_turn(atom_placed(s, x)),
        forall|a: Atom| #[trigger] atom_placed(s, x).contains(a) <==> s.contains(a) || a == x,
    decreases s.len(),
{
    let p = atom_placed(s, x);
    if s.len() > 0 && less_likely(s.last(), x) {
        let head = s.drop_last();
        let inner = atom_placed(head, x);
        lemma_placed_in_turn(head, x);
        assert forall|i: int, j: int| 0 <= i < j < p.len() implies taken_before(
            #[trigger] p[i],
            #[trigger] p[j],
        ) by {
            assert(p[i] == inner[i]);
            if j == inner.len() {
                assert(inner.contains(inner[i]));
                if inner[i] != x {
                    let k = choose|k: int| 0 <= k < head.len() && head[k] == inner[i];
                    assert(taken_before(s[k], s[s.len() - 1]));
                }
            } else {
                assert(p[j] == inner[j]);
            }
        }
        assert forall|a: Atom| #[trigger] p.contains(a) implies s.contains(a) || a == x by {
            let k = choose|k: int| 0 <= k < p.len() && p[k] == a;
            if k < inner.len() {
                assert(inner[k] == a);
                assert(inner.contains(a));
                if a != x {
                    let i = choose|i: int| 0 <= i < head.len() && head[i] == a;
                    assert(s[i] == a);
                }
            } else {
                assert(s[s.len() - 1] == a);
            }
        }
        assert forall|a: Atom| s.contains(a) || a == x implies #[trigger] p.contains(a) by {
            if a != x && a == s.last() {
                assert(p[p.len() - 1] == a);
            } else {
                if a != x {
                    let i = choose|i: int| 0 <= i < s.len() && s[i] == a;
                    assert(head[i] == a);
                }
                assert(inner.contains(a));
                let k = choose|k: int| 0 <= k < inner.len() && inner[k] == a;
                assert(p[k] == a);
            }
        }
    } else {
        assert forall|i: int, j: int| 0 <= i < j < p.len() implies taken_before(
            #[trigger] p[i],
            #[trigger] p[j],
        ) by {
            assert(p[i] == s[i]);
            if j == s.len() {
                assert(s[i].offset < x.offset);
                if i < s.len() - 1 {
                    assert(taken_before(s[i], s[s.len() - 1]));
                }
            } else {
                assert(p[j] == s[j]);
            }
        }
        assert forall|a: Atom| #[trigger] p.contains(a) implies s.contains(a) || a == x by {
            let k = choose|k: int| 0 <= k < p.len() && p[k] == a;
            if k < s.len() {
                assert(s[k] == a);
            }
        }
        assert forall|a: Atom| s.contains(a) || a == x implies #[trigger] p.contains(a) by {
            if s.contains(a) {
                let k = choose|k: int| 0 <= k < s.len() && s[k] == a;
                assert(p[k] == a);
            } else {
                assert(p[s.len() as int] == a);
            }
        }
    }
}

proof fn lemma_ranked_in_turn(s: Seq<Atom>, end: int)
    requires
        in_file_order(s, end),
    ensures
        in_turn(likeliest_first(s)),
        forall|a: Atom| #[trigger] likeliest_first(s).contains(a) <==> s.contains(a),
    decreases s.len(),
{
    if s.len() > 0 {
        let head = s.drop_last();
        let r = likeliest_first(head);
        let x = s.last();
        lemma_ranked_in_turn(head, x.offset);
        assert forall|i: int| 0 <= i < r.len() implies (#[trigger] r[i]).offset < x.offset by {
            assert(r.contains(r[i]));
        }
        lemma_placed_in_turn(r, x);
        assert(head.push(x) =~= s);
        assert forall|a: Atom| #[trigger] likeliest_first(s).contains(a) <==> s.contains(a) by {
            if s.contains(a) && a != x {
                let i = choose|i: int| 0 <= i < s.len() && s[i] == a;
                assert(head[i] == a);
            }
            if head.contains(a) {
                let i = choose|i: int| 0 <= i < head.len() && head[i] == a;
                assert(s[i] == a);
            }
            assert(s[s.len() - 1] == x);
            assert(r.contains(a) <==> head.contains(a));
        }
    }
}

/// A moov atom of the data that holds at least one track.
pub open spec fn indexes(d: Seq<u8>, a: Atom) -> bool {
    &&& atoms(d).contains(a)
    &&& a.fourcc == MOOV@
    &&& tracks_from(d, a.offset + 8, a.offset + a.size) matches Some(tracks) && tracks.len() > 0
}

/// The index is that of one moov atom: its offset and all its tracks, in order.
pub open spec fn index_of(d: Seq<u8>, m: MoovTable, a: Atom) -> bool {
    &&& m.offset == a.offset
    &&& Some(m.tracks) == tracks_from(d, a.offset + 8, a.offset + a.size)
}

proof fn lemma_first_moov(d: Seq<u8>, candidates: Seq<Atom>, i: int) -> (k: int)
    requires
        0 <= i,
        first_moov(d, candidates, i) is Some,
    ensures
        match first_moov(d, candidates, i).unwrap() {
            Some(m) => i <= k < candidates.len() && index_of(d, m, candidates[k]) && m.tracks.len()
                > 0,
            None => k >= candidates.len(),
        },
        forall|j: int|
            i <= j < k && j < candidates.len() ==> tracks_from(
                d,
                (#[trigger] candidates[j]).offset + 8,
                candidates[j].offset + candidates[j].size,
            ) == Some(Seq::<TrackTable>::empty()),
    decreases candidates.len() - i,
{
    if i >= candidates.len() {
        i
    } else {
        let a = candidates[i];
        let tracks = tracks_from(d, a.offset + 8, a.offset + a.size).unwrap();
        if tracks.len() > 0 {
            i
        } else {
            assert(tracks =~= Seq::<TrackTable>::empty());
            lemma_first_moov(d, candidates, i + 1)
        }
    }
}

proof fn lemma_torn_candidate(d: Seq<u8>, candidates: Seq<Atom>, i: int) -> (k: int)
    requires
        0 <= i,
        first_moov(d, candidates, i) is None,
    ensures
        0 <= k < candidates.len(),
        tracks_from(d, candidates[k].offset + 8, candidates[k].offset + candidates[k].size) is None,
    decreases candidates.len() - i,
{
    let a = candidates[i];
    if tracks_from(d, a.offset + 8, a.offset + a.size) is None {
        i
    } else {
        lemma_torn_candidate(d, candidates, i + 1)
    }
}

/// Which index is found: there is one exactly where some moov atom holds a track, and then
/// it is that of the likeliest such atom, the first in the file among equally likely ones.
/// The search fails to answer only where the data does not hold what a moov atom speaks of.
pub proof fn law_likeliest_index_is_found(d: Seq<u8>)
    ensures
        match moov_table(d) {
            Some(Some(m)) => {
                &&& m.tracks.len() > 0
                &&& 0 <= m.offset <= d.len() - 8
                &&& d.subrange(m.offset + 4, m.offset + 8) == MOOV@
                &&& exists|a: Atom| #[trigger]
                    indexes(d, a) && index_of(d, m, a) && forall|b: Atom| #[trigger]
                        indexes(d, b) ==> b == a || taken_before(a, b)
            },
            Some(None) => forall|a: Atom| !#[trigger] indexes(d, a),
            None => exists|a: Atom| #[trigger]
                atoms(d).contains(a) && a.fourcc == MOOV@ && tracks_from(
                    d,
                    a.offset + 8,
                    a.offset + a.size,
                ) is None,
        },
{
    let v = named(atoms(d), MOOV@);
    let r = likeliest_first(v);
    let end = d.len() as int;
    lemma_atoms_in_file_order(d, end);
    lemma_named(atoms(d), MOOV@, end);
    lemma_ranked_in_turn(v, end);
    if moov_table(d) is None {
        let k = lemma_torn_candidate(d, r, 0);
        assert(r.contains(r[k]));
        assert(v.contains(r[k]));
    }
    if moov_table(d) is Some {
        let k = lemma_first_moov(d, r, 0);
        assert forall|b: Atom| #[trigger] indexes(d, b) implies exists|j: int|
            k <= j < r.len() && r[j] == b by {
            assert(v.contains(b));
            assert(r.contains(b));
            let j = choose|j: int| 0 <= j < r.len() && r[j] == b;
            assert(k <= j);
        }
        if let Some(m) = moov_table(d).unwrap() {
            let a = r[k];
            assert(r.contains(a));
            assert(v.contains(a));
            assert(indexes(d, a));
            assert(atom_at(d, a.offset) == Some(a)) by {
                let i = choose|i: int| 0 <= i < atoms(d).len() && atoms(d)[i] == a;
                assert(atoms_before(d, end)[i] == a);
            }
            assert forall|b: Atom| #[trigger] indexes(d, b) implies b == a || taken_before(a, b) by {
                let j = choose|j: int| k <= j < r.len() && r[j] == b;
                if j > k {
                    assert(taken_before(r[k], r[j]));
                }
            }
        }
    }
}

// ---------------------------------------------------------------------------
// Damage analysis
// ---------------------------------------------------------------------------

/// The first video track from `i` on.
pub open spec fn first_video(tracks: Seq<TrackTable>, i: int) -> Option<TrackTable>
    decreases tracks.len() - i,
{
    if i < 0 || i >= tracks.len() {
        None
    } else if table_is_video(tracks[i]) {
        Some(tracks[i])
    } else {
        first_video(tracks, i + 1)
    }
}

/// Where the boxes that start at `pos` end.
pub open spec fn walk_end(d: Seq<u8>, pos: int, end: int) -> int
    decreases end - pos,
{
    match box_at(d, pos, end) {
        Some(b) => walk_end(d, b.body_end, end),
        None => pos,
    }
}

/// Whether the buffer parses as a clean top-level atom chain from 0 to EOF that
/// includes a moov. Necessary but NOT sufficient for intactness: cut exactly an
/// mp4's ftyp off and `free+mdat+moov` still walks cleanly, while every chunk
/// offset in the index now lies by ftyp's size. Alignment must be verified
/// separately.
pub open spec fn walks_clean(d: Seq<u8>) -> bool {
    first_box(d, 0, d.len() as int, MOOV@) is Some && walk_end(d, 0, d.len() as int) == d.len()
}

/// The payload ranges of the mdat boxes from `pos` on.
pub open spec fn mdat_ranges(d: Seq<u8>, pos: int, end: int) -> Seq<(int, int)>
    decreases end - pos,
{
    match box_at(d, pos, end) {
        Some(b) => if b.fourcc == MDAT@ {
            seq![(b.body_start, b.body_end)] + mdat_ranges(d, b.body_end, end)
        } else {
            mdat_ranges(d, b.body_end, end)
        },
        None => seq![],
    }
}

/// Whether a sample lies in one of the ranges.
pub open spec fn covered(loc: (int, int), ranges: Seq<(int, int)>) -> bool {
    exists|j: int|
        0 <= j < ranges.len() && (#[trigger] ranges[j]).0 <= loc.0 && loc.0 + loc.1 <= ranges[j].1
}

/// Whether every sample lies in one of the ranges.
pub open spec fn all_covered(locs: Seq<(int, int)>, ranges: Seq<(int, int)>) -> bool {
    forall|i: int| 0 <= i < locs.len() ==> covered(#[trigger] locs[i], ranges)
}

/// Whether every sample that the tracks from `i` on describe falls inside an mdat.
/// A front-cut shifts real data leftward, so the index's tail samples overhang
/// mdat's end. `None` if a sample of a track that is looked at ends beyond 64 bits.
pub open spec fn within_mdat(tracks: Seq<TrackTable>, i: int, ranges: Seq<(int, int)>) -> Option<bool>
    decreases tracks.len() - i,
{
    if i < 0 || i >= tracks.len() {
        Some(true)
    } else if !ends_fit(locations(tracks[i])) {
        None
    } else if all_covered(locations(tracks[i]), ranges) {
        within_mdat(tracks, i + 1, ranges)
    } else {
        Some(false)
    }
}

/// Whether whole length-prefixed NAL units from `pos` on fill `size` bytes, of
/// which `consumed` are done: 64 units at most.
pub open spec fn nals_fill(d: Seq<u8>, pos: int, size: int, consumed: int, nals: nat) -> bool
    decreases 64 - nals,
{
    if consumed >= size || nals >= 64 {
        consumed == size
    } else {
        let i = pos + consumed;
        let ty = d[i + 4] % 32;
        if i + 5 > d.len() || be32_at(d, i) == 0 || d[i + 4] >= 128 || ty < 1 || ty > 23 {
            false
        } else {
            nals_fill(d, pos, size, consumed + 4 + be32_at(d, i), nals + 1)
        }
    }
}

/// Whether a sample of `size` bytes at `pos` opens with zeros only: erased, not
/// shifted, since real H.264 data never opens with a zero run.
pub open spec fn erased(d: Seq<u8>, pos: int, size: int) -> bool {
    forall|j: int| pos <= j < pos + size && j < pos + 16 ==> #[trigger] d[j] == 0
}

/// At least 80% must line up.
pub open spec fn carried_vote(ok: nat, tried: nat) -> bool {
    tried > 0 && ok * 10 >= tried * 8
}

/// The vote of the samples from `i` on whether `k` bytes were cut: each surviving
/// sample's NAL chain must fill exactly the size that the index records. Samples
/// in the cut region and erased ones abstain, and the vote closes after `checks`
/// votes or at the first sample that overhangs the data.
pub open spec fn vote(
    d: Seq<u8>,
    locs: Seq<(int, int)>,
    i: int,
    k: int,
    checks: nat,
    ok: nat,
    tried: nat,
) -> bool
    decreases locs.len() - i,
{
    if i < 0 || i >= locs.len() {
        carried_vote(ok, tried)
    } else {
        let (off, size) = locs[i];
        let pos = off - k;
        if off < k {
            vote(d, locs, i + 1, k, checks, ok, tried)
        } else if pos + size > d.len() {
            carried_vote(ok, tried)
        } else if erased(d, pos, size) {
            vote(d, locs, i + 1, k, checks, ok, tried)
        } else {
            let ok2 = if nals_fill(d, pos, size, 0, 0) {
                ok + 1
            } else {
                ok
            };
            if tried + 1 >= checks {
                carried_vote(ok2, tried + 1)
            } else {
                vote(d, locs, i + 1, k, checks, ok2, tried + 1)
            }
        }
    }
}

/// Whether the index agrees with the data if `k` bytes were cut. Without a video
/// track there is nothing to verify against; the anchor is trusted.
pub open spec fn lines_up(d: Seq<u8>, video: Option<Seq<(int, int)>>, k: int) -> bool {
    match video {
        Some(locs) => vote(d, locs, 0, k, 12, 0, 0),
        None => true,
    }
}

/// The first of the first 64 samples, from `j` on, that position `q` can be
/// attributed to, as a cut.
pub open spec fn attributed(d: Seq<u8>, locs: Seq<(int, int)>, q: int, j: int) -> Option<int>
    decreases locs.len() - j,
{
    if j < 0 || j >= locs.len() || j >= 64 {
        None
    } else {
        let (off, size) = locs[j];
        if off >= q && nals_fill(d, q, size, 0, 0) && vote(d, locs, 0, off - q, 12, 0, 0) {
            Some(off - q)
        } else {
            attributed(d, locs, q, j + 1)
        }
    }
}

/// Last-ditch cut finder: slides along the head of the buffer, from `q` on,
/// looking for a position whose NAL structure matches the recorded size of one of
/// the first samples.
pub open spec fn correlated(d: Seq<u8>, locs: Seq<(int, int)>, q: int) -> Option<int>
    decreases d.len() - q,
{
    if q < 0 || q + 5 >= d.len() || q + 5 >= 0x10_0000 {
        None
    } else if avcc_chain(d, q, 4) >= 1 && attributed(d, locs, q, 0) is Some {
        attributed(d, locs, q, 0)
    } else {
        correlated(d, locs, q + 1)
    }
}

/// The lesser of two numbers, where there are any.
pub open spec fn lesser_of(a: Option<int>, b: Option<int>) -> Option<int> {
    match (a, b) {
        (Some(x), Some(y)) => if x <= y {
            a
        } else {
            b
        },
        (None, _) => b,
        (_, None) => a,
    }
}

/// The lowest of some offsets.
pub open spec fn lowest_of(offsets: Seq<u64>) -> Option<int>
    decreases offsets.len(),
{
    if offsets.len() == 0 {
        None
    } else {
        lesser_of(lowest_of(offsets.drop_last()), Some(offsets.last() as int))
    }
}

/// The lowest chunk offset of the tracks.
pub open spec fn lowest_start(tracks: Seq<TrackTable>) -> Option<int>
    decreases tracks.len(),
{
    if tracks.len() == 0 {
        None
    } else {
        lesser_of(lowest_start(tracks.drop_last()), lowest_of(tracks.last().chunk_offsets))
    }
}

proof fn lemma_lowest_of(offsets: Seq<u64>, j: int)
    requires
        0 <= j < offsets.len(),
    ensures
        lowest_of(offsets) matches Some(x) && 0 <= x <= offsets[j],
    decreases offsets.len(),
{
    reveal_with_fuel(lowest_of, 2);
    if j < offsets.len() - 1 {
        lemma_lowest_of(offsets.drop_last(), j);
    } else if offsets.len() > 1 {
        lemma_lowest_of(offsets.drop_last(), 0);
    }
}

proof fn lemma_lowest_start(tracks: Seq<TrackTable>, i: int, j: int)
    requires
        0 <= i < tracks.len(),
        0 <= j < tracks[i].chunk_offsets.len(),
    ensures
        lowest_start(tracks) matches Some(x) && x <= tracks[i].chunk_offsets[j],
    decreases tracks.len(),
{
    if i < tracks.len() - 1 {
        lemma_lowest_start(tracks.drop_last(), i, j);
    } else {
        lemma_lowest_of(tracks[i].chunk_offsets, j);
    }
}

/// No chunk, and no sample, stands before the first byte of media data.
pub proof fn law_media_starts_lowest(tracks: Seq<TrackTable>, i: int, j: int)
    requires
        0 <= i < tracks.len(),
    ensures
        0 <= j < tracks[i].chunk_offsets.len() ==> media_start_of(tracks)
            <= tracks[i].chunk_offsets[j],
        0 <= j < locations(tracks[i]).len() ==> media_start_of(tracks) <= locations(tracks[i])[j].0
            && 0 <= locations(tracks[i])[j].1,
{
    let low = media_start_of(tracks);
    assert forall|c: int| 0 <= c < tracks[i].chunk_offsets.len() implies low
        <= #[trigger] tracks[i].chunk_offsets[c] by {
        lemma_lowest_start(tracks, i, c);
    }
    lemma_locations_behind(tracks[i], 0, 0, low);
}

/// Every location is at `low` or behind it.
spec fn all_behind(locs: Seq<(int, int)>, low: int) -> bool {
    forall|j: int| 0 <= j < locs.len() ==> low <= (#[trigger] locs[j]).0 && 0 <= locs[j].1
}

proof fn lemma_run_behind(sizes: Seq<u32>, off: int, sample: int, left: int, low: int)
    requires
        low <= off,
    ensures
        all_behind(run_locations(sizes, off, sample, left), low),
    decreases left,
{
    if left > 0 && 0 <= sample < sizes.len() {
        lemma_run_behind(sizes, off + sizes[sample], sample + 1, left - 1, low);
    }
}

proof fn lemma_locations_behind(t: TrackTable, chunk: int, sample: int, low: int)
    requires
        forall|c: int| 0 <= c < t.chunk_offsets.len() ==> low <= #[trigger] t.chunk_offsets[c],
    ensures
        all_behind(locations_from(t, chunk, sample), low),
    decreases t.chunk_offsets.len() - chunk,
{
    if 0 <= chunk < t.chunk_offsets.len() {
        let n = per_chunk(t.stsc, chunk + 1);
        let run = run_locations(t.sizes, t.chunk_offsets[chunk] as int, sample, n);
        let rest = locations_from(t, chunk + 1, next_sample(t.sizes, sample, n));
        lemma_run_behind(t.sizes, t.chunk_offsets[chunk] as int, sample, n, low);
        lemma_locations_behind(t, chunk + 1, next_sample(t.sizes, sample, n), low);
        let all = run + rest;
        assert forall|j: int| 0 <= j < all.len() implies low <= (#[trigger] all[j]).0 && 0 <= all[j].1 by {
            if j < run.len() {
                assert(all[j] == run[j]);
            } else {
                assert(all[j] == rest[j - run.len()]);
            }
        }
    }
}

/// The first byte of media data, in the coordinates of the index.
pub open spec fn media_start_of(tracks: Seq<TrackTable>) -> int {
    match lowest_start(tracks) {
        Some(x) => x,
        None => 0,
    }
}

/// The atoms that start before `offset`, of those that chain or of those that do not.
pub open spec fn before_index(all: Seq<Atom>, offset: int, chains: bool) -> Seq<Atom>
    decreases all.len(),
{
    if all.len() == 0 {
        seq![]
    } else if all.last().offset < offset && all.last().chains == chains {
        before_index(all.drop_last(), offset, chains).push(all.last())
    } else {
        before_index(all.drop_last(), offset, chains)
    }
}

/// The cut that the first trustworthy mdat header, of those from `i` on, gives:
/// it stood eight bytes before the media.
pub open spec fn anchored(
    d: Seq<u8>,
    video: Option<Seq<(int, int)>>,
    mdats: Seq<Atom>,
    i: int,
    media_start: int,
) -> Option<int>
    decreases mdats.len() - i,
{
    if i < 0 || i >= mdats.len() {
        None
    } else {
        let k = media_start - 8 - mdats[i].offset;
        if k >= 0 && lines_up(d, video, k) {
            Some(k)
        } else {
            anchored(d, video, mdats, i + 1, media_start)
        }
    }
}

/// A moment of a track: a count of ticks, of which `timescale` make a second.
#[derive(Debug, Clone, Copy, PartialEq, Eq, Structural)]
pub struct Moment {
    pub ticks: u64,
    pub timescale: u32,
}

/// Whether `a` is later than `b`.
pub open spec fn later(a: Moment, b: Moment) -> bool {
    a.ticks * b.timescale > b.ticks * a.timescale
}

/// The sync samples of a track, by number: those listed, else all.
pub open spec fn sync_list(t: TrackTable) -> Seq<u32> {
    match t.sync_samples {
        Some(v) => v,
        None => Seq::new(t.sizes.len(), |i: int| (i + 1) as u32),
    }
}

/// How many of the first `n` sync samples start in the first `k` bytes.
pub open spec fn damaged(syncs: Seq<u32>, locs: Seq<(int, int)>, k: int, n: int) -> nat
    decreases n,
{
    if n <= 0 {
        0
    } else {
        let idx = syncs[n - 1] - 1;
        damaged(syncs, locs, k, n - 1) + if 0 <= idx < locs.len() && locs[idx].0 < k {
            1nat
        } else {
            0nat
        }
    }
}

/// The time of the first sync sample, from the `i`th on, that survived a cut of
/// `k` bytes and has a time.
pub open spec fn clean_sync(
    syncs: Seq<u32>,
    locs: Seq<(int, int)>,
    clock: Seq<int>,
    k: int,
    i: int,
) -> Option<int>
    decreases syncs.len() - i,
{
    if i < 0 || i >= syncs.len() {
        None
    } else {
        let idx = syncs[i] - 1;
        if 0 <= idx < locs.len() && locs[idx].0 >= k && idx < clock.len() {
            Some(clock[idx])
        } else {
            clean_sync(syncs, locs, clock, k, i + 1)
        }
    }
}

/// The index behind the last of the first `n` samples that a cut of `k` bytes destroyed.
pub open spec fn behind_destroyed(locs: Seq<(int, int)>, k: int, n: int) -> int
    decreases n,
{
    if n <= 0 {
        0
    } else if locs[n - 1].0 < k {
        n
    } else {
        behind_destroyed(locs, k, n - 1)
    }
}

/// The time of the sample behind the last one that a cut of `k` bytes destroyed; none if
/// there is no such sample, or it has no time.
pub open spec fn clean_sample(locs: Seq<(int, int)>, clock: Seq<int>, k: int) -> Option<int> {
    let i = behind_destroyed(locs, k, locs.len() as int);
    if i < locs.len() && i < clock.len() {
        Some(clock[i])
    } else {
        None
    }
}

/// The first moment from which a track is intact: video at a clean sync sample, audio
/// past its last destroyed sample.
pub open spec fn clean_moment(t: TrackTable, k: int) -> Option<Moment> {
    let ticks = if table_is_video(t) {
        clean_sync(sync_list(t), locations(t), times(t), k, 0)
    } else {
        clean_sample(locations(t), times(t), k)
    };
    match ticks {
        Some(x) => Some(
            Moment {
                ticks: x as u64,
                timescale: if t.timescale == 0 {
                    1
                } else {
                    t.timescale
                },
            },
        ),
        None => None,
    }
}

/// The latest of the clean moments of the first `n` tracks.
pub open spec fn latest_clean(tracks: Seq<TrackTable>, k: int, n: int) -> Option<Moment>
    decreases n,
{
    if n <= 0 {
        None
    } else {
        match (latest_clean(tracks, k, n - 1), clean_moment(tracks[n - 1], k)) {
            (Some(a), Some(b)) => if later(b, a) {
                Some(b)
            } else {
                Some(a)
            },
            (None, b) => b,
            (a, None) => a,
        }
    }
}

/// How many sync samples of the first `n` tracks' video a cut of `k` bytes hit.
pub open spec fn total_damaged(tracks: Seq<TrackTable>, k: int, n: int) -> nat
    decreases n,
{
    if n <= 0 {
        0
    } else {
        let t = tracks[n - 1];
        total_damaged(tracks, k, n - 1) + if table_is_video(t) {
            damaged(sync_list(t), locations(t), k, sync_list(t).len() as int)
        } else {
            0nat
        }
    }
}

/// Whether the census can be taken of a track: its offsets and times can be
/// counted in 64 bits, and its sync samples are numbered from 1.
pub open spec fn countable(t: TrackTable) -> bool {
    &&& ends_fit(locations(t))
    &&& total_ticks(t.stts) <= u64::MAX
    &&& table_is_video(t) ==> forall|i: int|
        0 <= i < sync_list(t).len() ==> #[trigger] sync_list(t)[i] > 0
}

/// Whether the census can be taken of every track.
pub open spec fn all_countable(tracks: Seq<TrackTable>) -> bool {
    forall|i: int| 0 <= i < tracks.len() ==> countable(#[trigger] tracks[i])
}

/// What is known of a file whose front was cut off.
pub struct Truncation {
    pub cut_bytes: int,
    pub method: Seq<char>,
    pub media_start: int,
    pub moov_orig: int,
    pub media_bytes_lost: int,
    pub damaged_keyframes: int,
    pub first_clean_keyframe_time: Option<Moment>,
    pub tracks: Seq<TrackTable>,
}

/// What the analysis of a file says.
pub enum Diagnosis {
    Intact,
    HeadTruncated(Truncation),
    NoMoov,
}

/// The cut, and how it was found: by an mdat header that chains, then by one that
/// does not, then by the size table.
pub open spec fn cut_of(d: Seq<u8>, m: MoovTable, video: Option<Seq<(int, int)>>) -> Option<
    (int, Seq<char>),
> {
    let mdats = named(atoms(d), MDAT@);
    let list = before_index(mdats, m.offset, true) + before_index(mdats, m.offset, false);
    match anchored(d, video, list, 0, media_start_of(m.tracks)) {
        Some(k) => Some((k, "mdat header anchor"@)),
        None => match video {
            Some(locs) => match correlated(d, locs, 0) {
                Some(k) => Some((k, "stsz/NAL-chain correlation"@)),
                None => None,
            },
            None => None,
        },
    }
}

/// What a cut of `k` bytes did; `None` if a track cannot be counted.
pub open spec fn census(m: MoovTable, k: int, method: Seq<char>) -> Option<Truncation> {
    let start = media_start_of(m.tracks);
    let lost = if k > start {
        k - start
    } else {
        0
    };
    if m.offset + k > u64::MAX || (lost > 0 && !all_countable(m.tracks)) {
        None
    } else {
        let n = if lost > 0 {
            m.tracks.len() as int
        } else {
            0
        };
        Some(
            Truncation {
                cut_bytes: k,
                method,
                media_start: start,
                moov_orig: m.offset + k,
                media_bytes_lost: lost,
                damaged_keyframes: total_damaged(m.tracks, k, n) as int,
                first_clean_keyframe_time: latest_clean(m.tracks, k, n),
                tracks: m.tracks,
            },
        )
    }
}

/// Whether the index tells the truth about a file whose structure parses from end
/// to end; `None` if a sample that is looked at ends beyond 64 bits.
pub open spec fn index_is_true(d: Seq<u8>, m: MoovTable, video: Option<Seq<(int, int)>>) -> Option<
    bool,
> {
    if !walks_clean(d) {
        Some(false)
    } else if video is Some {
        Some(lines_up(d, video, 0))
    } else {
        within_mdat(m.tracks, 0, mdat_ranges(d, 0, d.len() as int))
    }
}

/// The sample locations of the first video track.
pub open spec fn video_locations(tracks: Seq<TrackTable>) -> Option<Seq<(int, int)>> {
    match first_video(tracks, 0) {
        Some(t) => Some(locations(t)),
        None => None,
    }
}

/// What is wrong with a file that has the index `m`.
pub open spec fn diagnosis_with(d: Seq<u8>, m: MoovTable) -> Option<Diagnosis> {
    let video = video_locations(m.tracks);
    if video is Some && !ends_fit(video.unwrap()) {
        None
    } else {
        match index_is_true(d, m, video) {
            None => None,
            Some(true) => Some(Diagnosis::Intact),
            Some(false) => match cut_of(d, m, video) {
                // index present but data doesn't line up
                None => Some(Diagnosis::NoMoov),
                Some((k, method)) => match census(m, k, method) {
                    Some(t) => Some(Diagnosis::HeadTruncated(t)),
                    None => None,
                },
            },
        }
    }
}

/// What is wrong with a file; `None` if its index speaks of bytes that the data
/// does not hold, or of numbers that no 64-bit number holds.
pub open spec fn diagnosis(d: Seq<u8>) -> Option<Diagnosis> {
    match moov_table(d) {
        None => None,
        Some(None) => Some(Diagnosis::NoMoov),
        Some(Some(m)) => diagnosis_with(d, m),
    }
}

// ---------------------------------------------------------------------------
// What a census promises
// ---------------------------------------------------------------------------

/// Sample `idx` of a track is where clean playback of it can start, after a cut of `k`
/// bytes. Of video it is a sync sample that survived, the first listed; of anything else,
/// it and all samples behind it survived, and the one in front of it did not.
pub open spec fn plays_clean_from(t: TrackTable, k: int, idx: int) -> bool {
    let locs = locations(t);
    let clock = times(t);
    &&& 0 <= idx < locs.len()
    &&& idx < clock.len()
    &&& locs[idx].0 >= k
    &&& if t.handler == "vide"@ {
        match t.sync_samples {
            Some(syncs) => exists|j: int|
                {
                    &&& 0 <= j < syncs.len()
                    &&& #[trigger] syncs[j] == idx + 1
                    &&& forall|i: int|
                        0 <= i < j ==> {
                            let s = #[trigger] syncs[i] - 1;
                            s < 0 || s >= locs.len() || s >= clock.len() || locs[s].0 < k
                        }
                },
            None => idx < t.sizes.len() && forall|s: int|
                0 <= s < idx ==> (#[trigger] locs[s]).0 < k,
        }
    } else {
        &&& forall|s: int| idx <= s < locs.len() ==> (#[trigger] locs[s]).0 >= k
        &&& idx > 0 ==> locs[idx - 1].0 < k
    }
}

/// The moment of sample `idx` of a track.
pub open spec fn moment_of(t: TrackTable, idx: int) -> Moment {
    Moment {
        ticks: times(t)[idx] as u64,
        timescale: if t.timescale == 0 {
            1
        } else {
            t.timescale
        },
    }
}

proof fn lemma_clean_sync(
    syncs: Seq<u32>,
    locs: Seq<(int, int)>,
    clock: Seq<int>,
    k: int,
    i: int,
) -> (j: int)
    requires
        0 <= i <= syncs.len(),
    ensures
        i <= j <= syncs.len(),
        forall|a: int|
            i <= a < j ==> {
                let s = #[trigger] syncs[a] - 1;
                s < 0 || s >= locs.len() || s >= clock.len() || locs[s].0 < k
            },
        match clean_sync(syncs, locs, clock, k, i) {
            Some(x) => j < syncs.len() && 0 <= syncs[j] - 1 < locs.len() && syncs[j] - 1 < clock.len()
                && locs[syncs[j] - 1].0 >= k && x == clock[syncs[j] - 1],
            None => j == syncs.len(),
        },
    decreases syncs.len() - i,
{
    if i >= syncs.len() {
        i
    } else {
        let idx = syncs[i] - 1;
        if 0 <= idx < locs.len() && locs[idx].0 >= k && idx < clock.len() {
            i
        } else {
            lemma_clean_sync(syncs, locs, clock, k, i + 1)
        }
    }
}

proof fn lemma_behind_destroyed(locs: Seq<(int, int)>, k: int, n: int)
    requires
        0 <= n <= locs.len(),
    ensures
        0 <= behind_destroyed(locs, k, n) <= n,
        behind_destroyed(locs, k, n) > 0 ==> locs[behind_destroyed(locs, k, n) - 1].0 < k,
        forall|s: int| behind_destroyed(locs, k, n) <= s < n ==> (#[trigger] locs[s]).0 >= k,
    decreases n,
{
    if n > 0 && locs[n - 1].0 >= k {
        lemma_behind_destroyed(locs, k, n - 1);
    }
}

/// A track's clean moment is that of the sample from which it plays clean.
proof fn lemma_clean_moment(t: TrackTable, k: int)
    requires
        t.sizes.len() <= u32::MAX,
    ensures
        forall|idx: int| #[trigger]
            plays_clean_from(t, k, idx) ==> clean_moment(t, k) == Some(moment_of(t, idx)),
        clean_moment(t, k) matches Some(m) ==> exists|idx: int| #[trigger]
            plays_clean_from(t, k, idx) && m == moment_of(t, idx),
{
    let locs = locations(t);
    let clock = times(t);
    if t.handler == "vide"@ {
        let syncs = sync_list(t);
        let j = lemma_clean_sync(syncs, locs, clock, k, 0);
        assert forall|idx: int| #[trigger] plays_clean_from(t, k, idx) implies clean_moment(t, k)
            == Some(moment_of(t, idx)) by {
            let i = match t.sync_samples {
                Some(v) => choose|i: int|
                    {
                        &&& 0 <= i < v.len()
                        &&& #[trigger] v[i] == idx + 1
                        &&& forall|a: int|
                            0 <= a < i ==> {
                                let s = #[trigger] v[a] - 1;
                                s < 0 || s >= locs.len() || s >= clock.len() || locs[s].0 < k
                            }
                    },
                None => idx,
            };
            assert(syncs[i] == idx + 1);
            assert(i >= j);
            if j < i {
                assert(syncs[j] - 1 >= 0);
                if t.sync_samples is None {
                    assert(locs[j].0 < k);
                }
                assert(false);
            }
        }
        if clean_moment(t, k) is Some {
            let idx = syncs[j] - 1;
            assert(syncs[j] == idx + 1);
            if t.sync_samples is None {
                assert forall|s: int| 0 <= s < idx implies (#[trigger] locs[s]).0 < k by {
                    assert(syncs[s] - 1 == s);
                }
            } else {
                let v = t.sync_samples.unwrap();
                assert(v[j] == idx + 1);
            }
            assert(plays_clean_from(t, k, idx));
        }
    } else {
        let b = behind_destroyed(locs, k, locs.len() as int);
        lemma_behind_destroyed(locs, k, locs.len() as int);
        assert forall|idx: int| #[trigger] plays_clean_from(t, k, idx) implies clean_moment(t, k)
            == Some(moment_of(t, idx)) by {
            if b < idx {
                assert(locs[idx - 1].0 >= k);
            }
            if idx < b {
                assert(locs[b - 1].0 >= k);
            }
        }
        if clean_moment(t, k) is Some {
            assert(plays_clean_from(t, k, b));
        }
    }
}

proof fn lemma_latest_clean(tracks: Seq<TrackTable>, k: int, n: int)
    requires
        0 <= n <= tracks.len(),
    ensures
        forall|i: int|
            0 <= i < n ==> (clean_moment(#[trigger] tracks[i], k) matches Some(c) ==> latest_clean(
                tracks,
                k,
                n,
            ) matches Some(m) && c.ticks * m.timescale <= m.ticks * c.timescale),
        latest_clean(tracks, k, n) matches Some(m) ==> exists|i: int|
            0 <= i < n && clean_moment(#[trigger] tracks[i], k) == Some(m),
        latest_clean(tracks, k, n) matches Some(m) ==> m.timescale > 0,
    decreases n,
{
    if n > 0 {
        lemma_latest_clean(tracks, k, n - 1);
        let before = latest_clean(tracks, k, n - 1);
        let here = clean_moment(tracks[n - 1], k);
        let now = latest_clean(tracks, k, n);
        assert forall|i: int| 0 <= i < n implies (clean_moment(#[trigger] tracks[i], k) matches Some(
            c,
        ) ==> now matches Some(m) && c.ticks * m.timescale <= m.ticks * c.timescale) by {
            if let Some(c) = clean_moment(tracks[i], k) {
                let m = now.unwrap();
                if i < n - 1 {
                    let a = before.unwrap();
                    if now != before {
                        lemma_not_later(c, a, m);
                    }
                }
            }
        }
        if now is Some {
            if now == here {
                assert(clean_moment(tracks[n - 1], k) == now);
            } else {
                let i = choose|i: int|
                    0 <= i < n - 1 && clean_moment(#[trigger] tracks[i], k) == before;
                assert(clean_moment(tracks[i], k) == now);
            }
        }
    }
}

/// What is not later than `a` is not later than `m`, which is later than `a`.
proof fn lemma_not_later(c: Moment, a: Moment, m: Moment)
    requires
        c.ticks * a.timescale <= a.ticks * c.timescale,
        m.ticks * a.timescale > a.ticks * m.timescale,
        a.timescale > 0,
    ensures
        c.ticks * m.timescale <= m.ticks * c.timescale,
{
    let (ct, cs, at, as_, mt, ms) = (
        c.ticks as int,
        c.timescale as int,
        a.ticks as int,
        a.timescale as int,
        m.ticks as int,
        m.timescale as int,
    );
    assert(ct * ms <= mt * cs) by (nonlinear_arith)
        requires
            ct * as_ <= at * cs,
            mt * as_ > at * ms,
            as_ > 0,
            ct >= 0,
            cs >= 0,
            at >= 0,
            mt >= 0,
            ms >= 0,
    {
        assert(ct * ms * as_ <= at * cs * ms);
        assert(at * ms * cs <= mt * as_ * cs);
        assert(ct * ms * as_ <= mt * cs * as_);
    }
}

/// An index counts samples in 32 bits.
spec fn sizes_fit(tracks: Seq<TrackTable>) -> bool {
    forall|i: int| 0 <= i < tracks.len() ==> (#[trigger] tracks[i]).sizes.len() <= u32::MAX
}

proof fn lemma_tracks_sizes(d: Seq<u8>, pos: int, end: int)
    ensures
        tracks_from(d, pos, end) matches Some(tracks) ==> sizes_fit(tracks),
    decreases end - pos,
{
    if let Some(b) = box_at(d, pos, end) {
        lemma_tracks_sizes(d, b.body_end, end);
    }
}

proof fn lemma_read_sizes(d: Seq<u8>, candidates: Seq<Atom>, i: int)
    ensures
        first_moov(d, candidates, i) matches Some(Some(m)) ==> sizes_fit(m.tracks),
    decreases candidates.len() - i,
{
    if 0 <= i < candidates.len() {
        let a = candidates[i];
        lemma_tracks_sizes(d, a.offset + 8, a.offset + a.size);
        lemma_read_sizes(d, candidates, i + 1);
    }
}

/// Playback that starts at the reported moment starts on clean data in every track: where
/// media was lost, the moment is not before the one from which any track plays clean, and
/// it is that of one of the tracks. It is missing only where no track plays clean again.
pub proof fn law_clean_start_is_clean_for_every_track(d: Seq<u8>, t: Truncation)
    requires
        diagnosis(d) == Some(Diagnosis::HeadTruncated(t)),
        t.media_bytes_lost > 0,
    ensures
        forall|i: int, idx: int|
            0 <= i < t.tracks.len() && #[trigger] plays_clean_from(t.tracks[i], t.cut_bytes, idx)
                ==> {
                &&& t.first_clean_keyframe_time matches Some(m)
                &&& times(t.tracks[i])[idx] * m.timescale <= m.ticks * moment_of(
                    t.tracks[i],
                    idx,
                ).timescale
            },
        t.first_clean_keyframe_time matches Some(m) ==> exists|i: int, idx: int|
            0 <= i < t.tracks.len() && #[trigger] plays_clean_from(t.tracks[i], t.cut_bytes, idx)
                && m == moment_of(t.tracks[i], idx),
{
    let k = t.cut_bytes;
    let n = t.tracks.len() as int;
    lemma_read_sizes(d, likeliest_first(named(atoms(d), MOOV@)), 0);
    lemma_latest_clean(t.tracks, k, n);
    assert forall|i: int, idx: int|
        0 <= i < t.tracks.len() && #[trigger] plays_clean_from(t.tracks[i], k, idx) implies {
        &&& t.first_clean_keyframe_time matches Some(m)
        &&& times(t.tracks[i])[idx] * m.timescale <= m.ticks * moment_of(
            t.tracks[i],
            idx,
        ).timescale
    } by {
        lemma_clean_moment(t.tracks[i], k);
        assert(countable(t.tracks[i]));
        lemma_times_fit(t.tracks[i].stts, 0, idx);
    }
    if let Some(m) = t.first_clean_keyframe_time {
        let i = choose|i: int| 0 <= i < n && clean_moment(#[trigger] t.tracks[i], k) == Some(m);
        lemma_clean_moment(t.tracks[i], k);
        let idx = choose|idx: int| #[trigger]
            plays_clean_from(t.tracks[i], k, idx) && m == moment_of(t.tracks[i], idx);
        assert(plays_clean_from(t.tracks[i], k, idx));
    }
}

/// No sample's time is beyond the ticks of all samples.
proof fn lemma_times_fit(stts: Seq<(u32, u32)>, t: int, i: int)
    requires
        0 <= i < times_from(stts, t).len(),
    ensures
        t <= times_from(stts, t)[i] <= t + total_ticks(stts),
    decreases stts.len(),
{
    if stts.len() > 0 {
        let (count, delta) = stts[0];
        lemma_total_ticks(stts.drop_first());
        assert(count * delta >= 0) by (nonlinear_arith)
            requires
                count >= 0,
                delta >= 0,
        ;
        if i < count {
            assert(0 <= i * delta <= count * delta) by (nonlinear_arith)
                requires
                    0 <= i < count,
                    delta >= 0,
            ;
        } else {
            lemma_times_fit(stts.drop_first(), t + count * delta, i - count);
        }
    }
}

/// What is known of a file whose front was cut off.
#[derive(Debug)]
pub struct HeadTruncation {
    /// K: number of bytes cut from the front.
    pub cut_bytes: u64,
    /// How K was determined.
    pub method: String,
    /// Lowest chunk offset (original coords): first byte of media data.
    pub media_start: u64,
    /// moov position in original coords.
    pub moov_orig: u64,
    /// Bytes of actual media data destroyed (zero-filled on reconstruction).
    pub media_bytes_lost: u64,
    /// Number of leading video sync samples whose data was destroyed.
    pub damaged_keyframes: usize,
    /// Decode time of the first moment every track is intact: video at a clean
    /// sync sample, audio past its last destroyed sample. Clip here for
    /// artifact-free playback.
    pub first_clean_keyframe_time: Option<Moment>,
    pub tracks: Vec<Track>,
}

impl View for HeadTruncation {
    type V = Truncation;

    open spec fn view(&self) -> Truncation {
        Truncation {
            cut_bytes: self.cut_bytes as int,
            method: self.method@,
            media_start: self.media_start as int,
            moov_orig: self.moov_orig as int,
            media_bytes_lost: self.media_bytes_lost as int,
            damaged_keyframes: self.damaged_keyframes as int,
            first_clean_keyframe_time: self.first_clean_keyframe_time,
            tracks: tables(self.tracks@),
        }
    }
}

/// What the analysis of a file says.
#[derive(Debug)]
pub enum Analysis {
    /// The atom chain walks cleanly from byte 0 to EOF and includes moov.
    Intact,
    /// Front of the file is gone, but the index survived. Recoverable.
    HeadTruncated(HeadTruncation),
    /// No usable moov anywhere. Without the index (or a reference file with
    /// matching codec parameters) the mdat payload is a reel with no spindle.
    NoMoov,
}

impl View for Analysis {
    type V = Diagnosis;

    open spec fn view(&self) -> Diagnosis {
        match self {
            Analysis::Intact => Diagnosis::Intact,
            Analysis::HeadTruncated(t) => Diagnosis::HeadTruncated(t@),
            Analysis::NoMoov => Diagnosis::NoMoov,
        }
    }
}

/// Plain pairs of wide numbers.
pub open spec fn wide_ranges(v: Seq<(u64, u64)>) -> Seq<(int, int)> {
    v.map_values(|r: (u64, u64)| (r.0 as int, r.1 as int))
}

/// Whether the top level parses from end to end and has a moov, and where the
/// mdat payloads lie.
fn chain_walks_clean(data: &[u8]) -> (r: (bool, Vec<(u64, u64)>))
    ensures
        r.0 == walks_clean(data@),
        wide_ranges(r.1@) == mdat_ranges(data@, 0, data@.len() as int),
{
    let mut it = BoxIter::new(data, 0, data.len());
    let mut saw_moov = false;
    let mut ranges: Vec<(u64, u64)> = Vec::new();
    let mut pos: usize = 0;
    let ghost n = data@.len() as int;
    assert(wide_ranges(ranges@) + mdat_ranges(data@, 0, n) =~= mdat_ranges(data@, 0, n));
    loop
        invariant
            it.data() == data@,
            it.end() == n,
            n == data@.len(),
            it.pos() == pos,
            saw_moov || first_box(data@, pos as int, n, MOOV@) == first_box(data@, 0, n, MOOV@),
            saw_moov ==> first_box(data@, 0, n, MOOV@) is Some,
            walk_end(data@, pos as int, n) == walk_end(data@, 0, n),
            wide_ranges(ranges@) + mdat_ranges(data@, pos as int, n) == mdat_ranges(data@, 0, n),
        decreases it.end() - it.pos(),
    {
        match it.next() {
            Some(b) => {
                if crate::bytes::same_bytes(&b.fourcc, &MOOV) {
                    saw_moov = true;
                }
                if crate::bytes::same_bytes(&b.fourcc, &MDAT) {
                    let ghost before = wide_ranges(ranges@);
                    let ghost rest = mdat_ranges(data@, b.body_end as int, n);
                    ranges.push((b.body_start as u64, b.body_end as u64));
                    assert(wide_ranges(ranges@) =~= before.push((b.body_start as int, b.body_end as int)));
                    assert(before + (seq![(b.body_start as int, b.body_end as int)] + rest)
                        =~= wide_ranges(ranges@) + rest);
                }
                pos = b.body_end;
            },
            None => {
                assert(wide_ranges(ranges@) + Seq::<(int, int)>::empty() =~= wide_ranges(ranges@));
                return (saw_moov && pos == data.len(), ranges);
            },
        }
    }
}

fn is_covered(off: u64, size: u32, ranges: &[(u64, u64)]) -> (r: bool)
    requires
        off + size <= u64::MAX,
    ensures
        r == covered((off as int, size as int), wide_ranges(ranges@)),
{
    let ghost wr = wide_ranges(ranges@);
    let mut j: usize = 0;
    while j < ranges.len()
        invariant
            j <= ranges@.len(),
            wr == wide_ranges(ranges@),
            off + size <= u64::MAX,
            forall|i: int| 0 <= i < j ==> !((#[trigger] wr[i]).0 <= off && off + size <= wr[i].1),
        decreases ranges.len() - j,
    {
        let (start, end) = ranges[j];
        assert(wr[j as int] == (start as int, end as int));
        if off >= start && off + size as u64 <= end {
            return true;
        }
        j += 1;
    }
    false
}

/// Whether every sample of every track falls inside an mdat; `None` if a sample
/// ends beyond 64 bits.
fn samples_within_mdat(tracks: &[Track], ranges: &[(u64, u64)]) -> (r: Option<bool>)
    requires
        read_tracks(tracks@),
    ensures
        r == within_mdat(tables(tracks@), 0, wide_ranges(ranges@)),
{
    let ghost list = tables(tracks@);
    let mut i: usize = 0;
    while i < tracks.len()
        invariant
            i <= tracks@.len(),
            read_tracks(tracks@),
            list == tables(tracks@),
            within_mdat(list, 0, wide_ranges(ranges@)) == within_mdat(
                list,
                i as int,
                wide_ranges(ranges@),
            ),
        decreases tracks.len() - i,
    {
        assert(list[i as int] == tracks@[i as int]@);
        let locs = tracks[i].try_sample_locations()?;
        let ghost all = locations(list[i as int]);
        let mut j: usize = 0;
        while j < locs.len()
            invariant
                j <= locs@.len(),
                all == wide(locs@),
                ends_fit(all),
                i < tracks@.len(),
                list == tables(tracks@),
                all == locations(list[i as int]),
                within_mdat(list, 0, wide_ranges(ranges@)) == within_mdat(
                    list,
                    i as int,
                    wide_ranges(ranges@),
                ),
                forall|m: int| 0 <= m < j ==> covered(#[trigger] all[m], wide_ranges(ranges@)),
            decreases locs.len() - j,
        {
            let (off, size) = locs[j];
            assert(all[j as int] == (off as int, size as int));
            if !is_covered(off, size, ranges) {
                assert(!all_covered(all, wide_ranges(ranges@)));
                return Some(false);
            }
            j += 1;
        }
        i += 1;
    }
    Some(true)
}

/// Walks 4-byte BE length prefixes from `pos`; true if valid NALs sum to `size`.
fn nal_chain_sums_to(data: &[u8], pos: usize, size: u32) -> (r: bool)
    requires
        pos <= data@.len(),
    ensures
        r == nals_fill(data@, pos as int, size as int, 0, 0),
{
    let left: usize = data.len() - pos;
    let mut consumed: u64 = 0;
    let mut nals: u32 = 0;
    while consumed < size as u64 && nals < 64
        invariant
            pos <= data@.len(),
            left == data@.len() - pos,
            consumed <= 0x2_0000_0004,
            nals <= 64,
            nals_fill(data@, pos as int, size as int, 0, 0) == nals_fill(
                data@,
                pos as int,
                size as int,
                consumed as int,
                nals as nat,
            ),
        decreases 64 - nals,
    {
        if consumed + 5 > left as u64 {
            return false;
        }
        assert(pos + left <= data.len());
        let i: usize = pos + consumed as usize;
        let len: u32 = be32(data, i);
        let nal: u8 = data[i + 4];
        if len == 0 || nal >= 128 || nal % 32 < 1 || nal % 32 > 23 {
            return false;
        }
        consumed = consumed + 4 + len as u64;
        nals += 1;
    }
    consumed == size as u64
}

/// Whether the sample opens with zeros only.
fn opens_erased(data: &[u8], pos: usize, size: u32) -> (r: bool)
    requires
        pos + size <= data@.len(),
    ensures
        r == erased(data@, pos as int, size as int),
{
    let peek: usize = if size < 16 {
        size as usize
    } else {
        16
    };
    let mut j: usize = 0;
    while j < peek
        invariant
            j <= peek,
            peek <= 16,
            peek <= size,
            peek == size || peek == 16,
            pos + size <= data@.len(),
            forall|m: int| pos <= m < pos + j ==> #[trigger] data@[m] == 0,
        decreases peek - j,
    {
        assert(pos + j < data.len());
        if data[pos + j] != 0 {
            assert(data@[pos + j] != 0);
            return false;
        }
        j += 1;
    }
    true
}

/// Checks that the index agrees with the data for a given K: at each surviving
/// video sample offset, the AVCC NAL-length chain must sum exactly to the
/// sample size recorded in stsz.
fn verify_k(data: &[u8], locs: &[(u64, u32)], k: u64, checks: u32) -> (r: bool)
    requires
        ends_fit(wide(locs@)),
        checks > 0,
    ensures
        r == vote(data@, wide(locs@), 0, k as int, checks as nat, 0, 0),
{
    let ghost all = wide(locs@);
    let mut tried: u32 = 0;
    let mut ok: u32 = 0;
    let mut i: usize = 0;
    while i < locs.len()
        invariant
            i <= locs@.len(),
            all == wide(locs@),
            ends_fit(all),
            ok <= tried < checks,
            vote(data@, all, 0, k as int, checks as nat, 0, 0) == vote(
                data@,
                all,
                i as int,
                k as int,
                checks as nat,
                ok as nat,
                tried as nat,
            ),
        decreases locs.len() - i,
    {
        let (off, size) = locs[i];
        assert(all[i as int] == (off as int, size as int));
        if off >= k {
            let pos: u64 = off - k;
            if pos + size as u64 > data.len() as u64 {
                return tried > 0 && ok as u64 * 10 >= tried as u64 * 8;
            }
            // All-zero bytes mean *erased* (e.g. our own zero-fill), not shifted:
            // erased samples abstain from the alignment vote.
            if !opens_erased(data, pos as usize, size) {
                if nal_chain_sums_to(data, pos as usize, size) {
                    ok += 1;
                }
                tried += 1;
                if tried >= checks {
                    return tried > 0 && ok as u64 * 10 >= tried as u64 * 8;
                }
            }
        }
        i += 1;
    }
    tried > 0 && ok as u64 * 10 >= tried as u64 * 8
}

/// Tries to attribute position `q` to each of the first few samples.
fn attribute(data: &[u8], locs: &[(u64, u32)], q: usize) -> (r: Option<u64>)
    requires
        ends_fit(wide(locs@)),
        q <= data@.len(),
    ensures
        match r {
            Some(k) => attributed(data@, wide(locs@), q as int, 0) == Some(k as int),
            None => attributed(data@, wide(locs@), q as int, 0) is None,
        },
{
    let ghost all = wide(locs@);
    let mut j: usize = 0;
    while j < locs.len() && j < 64
        invariant
            j <= locs@.len(),
            all == wide(locs@),
            ends_fit(all),
            q <= data@.len(),
            attributed(data@, all, q as int, 0) == attributed(data@, all, q as int, j as int),
        decreases locs.len() - j,
    {
        let (off, size) = locs[j];
        assert(all[j as int] == (off as int, size as int));
        if off >= q as u64 && nal_chain_sums_to(data, q, size) {
            let k: u64 = off - q as u64;
            if verify_k(data, locs, k, 12) {
                return Some(k);
            }
        }
        j += 1;
    }
    None
}

/// Last-ditch K finder: slides along the buffer looking for a position whose
/// NAL structure matches the first surviving video sample's recorded size.
fn correlate_k(data: &[u8], locs: &[(u64, u32)]) -> (r: Option<u64>)
    requires
        ends_fit(wide(locs@)),
    ensures
        match r {
            Some(k) => correlated(data@, wide(locs@), 0) == Some(k as int),
            None => correlated(data@, wide(locs@), 0) is None,
        },
{
    // Search window: the head of the file (the cut is at the front).
    let window: usize = if data.len() < 0x10_0000 {
        data.len()
    } else {
        0x10_0000
    };
    let mut q: usize = 0;
    while window > 5 && q < window - 5
        invariant
            window <= data@.len(),
            window == data@.len() || window == 0x10_0000,
            window <= 0x10_0000,
            ends_fit(wide(locs@)),
            correlated(data@, wide(locs@), 0) == correlated(data@, wide(locs@), q as int),
        decreases window - q,
    {
        if avcc_chain_len(data, q, 4) >= 1 {
            if let Some(k) = attribute(data, locs, q) {
                return Some(k);
            }
        }
        q += 1;
    }
    None
}

/// The first video track's sample locations: the outer `None` if one ends beyond
/// 64 bits, the inner if there is no video track.
fn find_video_locations(tracks: &[Track]) -> (r: Option<Option<Vec<(u64, u32)>>>)
    requires
        read_tracks(tracks@),
    ensures
        match r {
            Some(Some(locs)) => video_locations(tables(tracks@)) == Some(wide(locs@)) && ends_fit(
                wide(locs@),
            ),
            Some(None) => video_locations(tables(tracks@)) is None,
            None => video_locations(tables(tracks@)) is Some && !ends_fit(
                video_locations(tables(tracks@)).unwrap(),
            ),
        },
{
    let ghost list = tables(tracks@);
    let mut i: usize = 0;
    while i < tracks.len()
        invariant
            i <= tracks@.len(),
            read_tracks(tracks@),
            list == tables(tracks@),
            first_video(list, 0) == first_video(list, i as int),
        decreases tracks.len() - i,
    {
        assert(list[i as int] == tracks@[i as int]@);
        if tracks[i].is_video() {
            return match tracks[i].try_sample_locations() {
                Some(locs) => Some(Some(locs)),
                None => None,
            };
        }
        i += 1;
    }
    Some(None)
}

fn find_lowest(offsets: &[u64]) -> (r: Option<u64>)
    ensures
        lowest_of(offsets@) == match r {
            Some(x) => Some(x as int),
            None => None,
        },
{
    let mut best: Option<u64> = None;
    let mut i: usize = 0;
    assert(offsets@.take(0) =~= Seq::<u64>::empty());
    while i < offsets.len()
        invariant
            i <= offsets@.len(),
            lowest_of(offsets@.take(i as int)) == match best {
                Some(x) => Some(x as int),
                None => None,
            },
        decreases offsets.len() - i,
    {
        let here: u64 = offsets[i];
        assert(offsets@.take(i + 1).drop_last() =~= offsets@.take(i as int));
        best = match best {
            Some(x) => if x <= here {
                Some(x)
            } else {
                Some(here)
            },
            None => Some(here),
        };
        i += 1;
    }
    assert(offsets@.take(i as int) =~= offsets@);
    best
}

fn find_media_start(tracks: &[Track]) -> (r: u64)
    ensures
        r == media_start_of(tables(tracks@)),
{
    let ghost list = tables(tracks@);
    let mut best: Option<u64> = None;
    let mut i: usize = 0;
    assert(list.take(0) =~= Seq::<TrackTable>::empty());
    while i < tracks.len()
        invariant
            i <= tracks@.len(),
            list == tables(tracks@),
            match best {
                Some(x) => lowest_start(list.take(i as int)) == Some(x as int),
                None => lowest_start(list.take(i as int)) is None,
            },
        decreases tracks.len() - i,
    {
        assert(list.take(i + 1).drop_last() =~= list.take(i as int));
        assert(list.take(i + 1).last() == tracks@[i as int]@);
        if let Some(here) = find_lowest(&tracks[i].chunk_offsets) {
            best = match best {
                Some(x) => if x <= here {
                    Some(x)
                } else {
                    Some(here)
                },
                None => Some(here),
            };
        }
        i += 1;
    }
    assert(list.take(i as int) =~= list);
    match best {
        Some(x) => x,
        None => 0,
    }
}

fn collect_before(hits: &[AtomHit], offset: u64, chains: bool) -> (r: Vec<AtomHit>)
    ensures
        seen(r@) == before_index(seen(hits@), offset as int, chains),
{
    let ghost all = seen(hits@);
    let mut out: Vec<AtomHit> = Vec::new();
    let mut i: usize = 0;
    assert(all.take(0) =~= Seq::<Atom>::empty());
    assert(seen(out@) =~= Seq::<Atom>::empty());
    while i < hits.len()
        invariant
            i <= hits@.len(),
            all == seen(hits@),
            seen(out@) == before_index(all.take(i as int), offset as int, chains),
        decreases hits.len() - i,
    {
        let h = hits[i];
        assert(all.take(i + 1).drop_last() =~= all.take(i as int));
        assert(all.take(i + 1).last() == h@);
        if h.offset < offset && h.chains == chains {
            let ghost before = seen(out@);
            out.push(h);
            assert(seen(out@) =~= before.push(h@));
        }
        i += 1;
    }
    assert(all.take(i as int) =~= all);
    out
}

/// The video locations as the models take them.
pub open spec fn wide_video(video: Option<Vec<(u64, u32)>>) -> Option<Seq<(int, int)>> {
    match video {
        Some(locs) => Some(wide(locs@)),
        None => None,
    }
}

fn anchor_k(
    data: &[u8],
    video: &Option<Vec<(u64, u32)>>,
    mdats: &[AtomHit],
    media_start: u64,
) -> (r: Option<u64>)
    requires
        video matches Some(locs) ==> ends_fit(wide(locs@)),
    ensures
        match r {
            Some(k) => anchored(data@, wide_video(*video), seen(mdats@), 0, media_start as int) == Some(
                k as int,
            ),
            None => anchored(data@, wide_video(*video), seen(mdats@), 0, media_start as int) is None,
        },
{
    let ghost list = seen(mdats@);
    let ghost wv = wide_video(*video);
    let mut i: usize = 0;
    while i < mdats.len()
        invariant
            i <= mdats@.len(),
            list == seen(mdats@),
            wv == wide_video(*video),
            video matches Some(locs) ==> ends_fit(wide(locs@)),
            anchored(data@, wv, list, 0, media_start as int) == anchored(
                data@,
                wv,
                list,
                i as int,
                media_start as int,
            ),
        decreases mdats.len() - i,
    {
        let hit = mdats[i];
        assert(list[i as int] == hit@);
        // The mdat header once stood at media_start - 8.
        if media_start >= 8 && media_start - 8 >= hit.offset {
            let k: u64 = media_start - 8 - hit.offset;
            let agrees = match video {
                Some(locs) => verify_k(data, locs, k, 12),
                None => true,
            };
            if agrees {
                return Some(k);
            }
        }
        i += 1;
    }
    None
}

fn find_cut(
    data: &[u8],
    moov: &Moov,
    video: &Option<Vec<(u64, u32)>>,
    media_start: u64,
) -> (r: Option<(u64, String)>)
    requires
        video matches Some(locs) ==> ends_fit(wide(locs@)),
        media_start == media_start_of(tables(moov.tracks@)),
    ensures
        match r {
            Some((k, method)) => cut_of(data@, moov@, wide_video(*video)) == Some((k as int, method@)),
            None => cut_of(data@, moov@, wide_video(*video)) is None,
        },
{
    // K, method 1: anchor on a surviving mdat header. In the truncated file
    // the mdat box still chains (its size still reaches exactly to moov), so
    // a chained hit is a trustworthy anchor.
    let hits = scan_atoms(data);
    assert(seen(hits@) == atoms(data@));
    let mdats = collect_named(&hits, &MDAT);
    let mut list = collect_before(&mdats, moov.offset, true);
    let mut rest = collect_before(&mdats, moov.offset, false);
    let ghost (a, b) = (seen(list@), seen(rest@));
    list.append(&mut rest);
    assert(seen(list@) =~= a + b);
    if let Some(k) = anchor_k(data, video, &list, media_start) {
        return Some((k, "mdat header anchor".to_owned()));
    }
    // K, method 2: correlate the sample-size table against raw NAL structure.
    match video {
        Some(locs) => match correlate_k(data, locs) {
            Some(k) => Some((k, "stsz/NAL-chain correlation".to_owned())),
            None => None,
        },
        None => None,
    }
}

/// The sync samples of a track, by number: those listed, else all.
fn list_syncs(t: &Track) -> (r: Vec<u32>)
    requires
        t.wf(),
    ensures
        r@ == sync_list(t@),
{
    let mut out: Vec<u32> = Vec::new();
    match &t.sync_samples {
        Some(v) => {
            let mut i: usize = 0;
            while i < v.len()
                invariant
                    i <= v@.len(),
                    out@ == v@.take(i as int),
                decreases v.len() - i,
            {
                out.push(v[i]);
                i += 1;
                assert(out@ =~= v@.take(i as int));
            }
            assert(v@.take(i as int) =~= v@);
        },
        None => {
            let mut i: usize = 0;
            while i < t.sizes.len()
                invariant
                    i <= t.sizes@.len(),
                    t.sizes@.len() <= u32::MAX,
                    out@ == Seq::new(i as nat, |i: int| (i + 1) as u32),
                decreases t.sizes.len() - i,
            {
                out.push(i as u32 + 1);
                i += 1;
                assert(out@ =~= Seq::new(i as nat, |i: int| (i + 1) as u32));
            }
        },
    }
    out
}

fn all_positive(syncs: &[u32]) -> (r: bool)
    ensures
        r == forall|i: int| 0 <= i < syncs@.len() ==> #[trigger] syncs@[i] > 0,
{
    let mut i: usize = 0;
    while i < syncs.len()
        invariant
            i <= syncs@.len(),
            forall|j: int| 0 <= j < i ==> #[trigger] syncs@[j] > 0,
        decreases syncs.len() - i,
    {
        if syncs[i] == 0 {
            return false;
        }
        i += 1;
    }
    true
}

/// One track's part in the census: how many of its sync samples were hit (for a
/// video track), and its first clean moment. `None` if it cannot be counted.
fn take_census(t: &Track, k: u64) -> (r: Option<(u64, Option<Moment>)>)
    requires
        read_track(*t),
    ensures
        match r {
            Some((hit, clean)) => {
                &&& countable(t@)
                &&& hit == if table_is_video(t@) {
                    damaged(sync_list(t@), locations(t@), k as int, sync_list(t@).len() as int)
                } else {
                    0
                }
                &&& clean == clean_moment(t@, k as int)
            },
            None => !countable(t@),
        },
{
    let locs = t.try_sample_locations()?;
    if t.ticks() > u64::MAX as u128 {
        return None;
    }
    let ghost all = wide(locs@);
    let ghost clock = times(t@);
    let timescale: u32 = if t.timescale == 0 {
        1
    } else {
        t.timescale
    };
    if t.is_video() {
        let syncs = list_syncs(t);
        if !all_positive(&syncs) {
            return None;
        }
        let mut hit: u64 = 0;
        let mut clean: Option<u64> = None;
        let mut i: usize = 0;
        while i < syncs.len()
            invariant
                i <= syncs@.len(),
                read_track(*t),
                total_ticks(t.stts@) <= u64::MAX,
                all == wide(locs@),
                clock == times(t@),
                forall|j: int| 0 <= j < syncs@.len() ==> #[trigger] syncs@[j] > 0,
                hit == damaged(syncs@, all, k as int, i as int),
                hit <= i,
                match clean {
                    Some(x) => clean_sync(syncs@, all, clock, k as int, 0) == Some(x as int),
                    None => clean_sync(syncs@, all, clock, k as int, 0) == clean_sync(
                        syncs@,
                        all,
                        clock,
                        k as int,
                        i as int,
                    ),
                },
            decreases syncs.len() - i,
        {
            let idx: u32 = syncs[i] - 1;
            if (idx as u64) < locs.len() as u64 {
                let at: usize = idx as usize;
                let (off, _) = locs[at];
                assert(all[at as int].0 == off);
                if off < k {
                    hit += 1;
                } else if clean.is_none() {
                    clean = t.sample_time(at);
                }
            }
            i += 1;
        }
        let moment = match clean {
            Some(ticks) => Some(Moment { ticks, timescale }),
            None => None,
        };
        return Some((hit, moment));
    }
    let mut i: usize = locs.len();
    while i > 0 && locs[i - 1].0 >= k
        invariant
            i <= locs@.len(),
            all == wide(locs@),
            behind_destroyed(all, k as int, all.len() as int) == behind_destroyed(
                all,
                k as int,
                i as int,
            ),
        decreases i,
    {
        assert(all[i - 1].0 == locs@[i - 1].0);
        i -= 1;
    }
    assert(i > 0 ==> all[i - 1].0 == locs@[i - 1].0);
    let moment = if i < locs.len() {
        match t.sample_time(i) {
            Some(ticks) => Some(Moment { ticks, timescale }),
            None => None,
        }
    } else {
        None
    };
    Some((0, moment))
}

fn is_later(a: Moment, b: Moment) -> (r: bool)
    ensures
        r == later(a, b),
{
    assert(a.ticks * b.timescale <= u64::MAX * u32::MAX) by (nonlinear_arith)
        requires
            a.ticks <= u64::MAX,
            b.timescale <= u32::MAX,
    ;
    assert(b.ticks * a.timescale <= u64::MAX * u32::MAX) by (nonlinear_arith)
        requires
            b.ticks <= u64::MAX,
            a.timescale <= u32::MAX,
    ;
    assert(0 <= a.ticks * b.timescale && 0 <= b.ticks * a.timescale) by (nonlinear_arith)
        requires
            a.ticks >= 0,
            b.ticks >= 0,
            a.timescale >= 0,
            b.timescale >= 0,
    ;
    (a.ticks as u128) * (b.timescale as u128) > (b.ticks as u128) * (a.timescale as u128)
}

/// What is wrong with a file; `None` if its index speaks of bytes that the data
/// does not hold, or of numbers that no 64-bit number holds.
///
/// The number of sync samples that were hit is counted in a `usize`: where more
/// were hit than that can count, the answer is `None` as well.
pub fn try_analyze(data: &[u8]) -> (r: Option<Analysis>)
    ensures
        match r {
            Some(a) => diagnosis(data@) == Some(a@),
            None => !analyzable(data@),
        },
{
    let (clean, ranges) = chain_walks_clean(data);
    let moov = match try_find_moov(data)? {
        Some(m) => m,
        None => {
            return Some(Analysis::NoMoov);
        },
    };
    let video = find_video_locations(&moov.tracks)?;
    assert(wide_video(video) == video_locations(moov@.tracks));
    if clean {
        // Structure parses end to end, but is the index telling the truth?
        let aligned = match &video {
            Some(locs) => verify_k(data, locs, 0, 12),
            None => samples_within_mdat(&moov.tracks, &ranges)?,
        };
        if aligned {
            return Some(Analysis::Intact);
        }
    }
    let media_start: u64 = find_media_start(&moov.tracks);
    let (k, method) = match find_cut(data, &moov, &video, media_start) {
        Some(x) => x,
        None => {
            return Some(Analysis::NoMoov);  // index present but data doesn't line up
        },
    };
    let ghost list = moov@.tracks;
    assert(list.len() == moov.tracks@.len());
    let moov_orig: u64 = moov.offset.checked_add(k)?;
    // Census of the dead: which samples lived in the cut region? The clip
    // target is the latest "first clean moment" across all tracks.
    let lost: u64 = if k > media_start {
        k - media_start
    } else {
        0
    };
    let mut hit: u64 = 0;
    let mut first_clean: Option<Moment> = None;
    let mut i: usize = 0;
    let end: usize = if lost > 0 {
        moov.tracks.len()
    } else {
        0
    };
    while i < end
        invariant
            i <= end,
            end == 0 || (end == moov.tracks@.len() && lost > 0),
            list == moov@.tracks,
            read_tracks(moov.tracks@),
            forall|j: int| 0 <= j < i ==> countable(#[trigger] list[j]),
            hit == total_damaged(list, k as int, i as int),
            first_clean == latest_clean(list, k as int, i as int),
            lost > 0 ==> end == list.len(),
            analyzable(data@) ==> lost > 0 ==> all_countable(list) && total_damaged(
                list,
                k as int,
                end as int,
            ) <= usize::MAX,
        decreases end - i,
    {
        assert(list[i as int] == moov.tracks@[i as int]@);
        let (n, moment) = take_census(&moov.tracks[i], k)?;
        proof {
            lemma_total_damaged_grows(list, k as int, i + 1, end as int);
        }
        hit = hit.checked_add(n)?;
        first_clean = match (first_clean, moment) {
            (Some(a), Some(b)) => if is_later(b, a) {
                Some(b)
            } else {
                Some(a)
            },
            (None, b) => b,
            (a, None) => a,
        };
        i += 1;
    }
    if hit > usize::MAX as u64 {
        return None;
    }
    Some(
        Analysis::HeadTruncated(
            HeadTruncation {
                cut_bytes: k,
                method,
                media_start,
                moov_orig,
                media_bytes_lost: lost,
                damaged_keyframes: hit as usize,
                first_clean_keyframe_time: first_clean,
                tracks: moov.tracks,
            },
        ),
    )
}

proof fn lemma_total_damaged_grows(tracks: Seq<TrackTable>, k: int, m: int, n: int)
    requires
        0 <= m <= n,
    ensures
        total_damaged(tracks, k, m) <= total_damaged(tracks, k, n),
    decreases n - m,
{
    if m < n {
        lemma_total_damaged_grows(tracks, k, m, n - 1);
    }
}

/// Whether a file can be analyzed: its index speaks only of bytes that the data
/// holds and of numbers that the machine can count.
pub open spec fn analyzable(d: Seq<u8>) -> bool {
    match diagnosis(d) {
        Some(Diagnosis::HeadTruncated(t)) => t.damaged_keyframes <= usize::MAX,
        Some(_) => true,
        None => false,
    }
}

/// What is wrong with a file.
pub fn analyze(data: &[u8]) -> (r: Analysis)
    requires
        analyzable(data@),
    ensures
        diagnosis(data@) == Some(r@),
{
    try_analyze(data).unwrap()
}

// ---------------------------------------------------------------------------
// Reconstruction
// ---------------------------------------------------------------------------

/// A 20-byte ftyp box: brand and compatible brand isom.
pub open spec fn ftyp_box() -> Seq<u8> {
    be32_bytes(20) + FTYP@ + ISOM@ + be32_bytes(0x200) + ISOM@
}

/// A `free` box of `n` bytes in all: structural silence.
pub open spec fn free_box(n: int) -> Seq<u8> {
    if n <= u32::MAX {
        be32_bytes(n) + FREE@ + zeros((n - 8) as nat)
    } else {
        be32_bytes(1) + FREE@ + be64_bytes(n) + zeros((n - 16) as nat)
    }
}

/// `len` bytes of valid atoms; none are shorter than eight bytes.
pub open spec fn prefix_of(len: int) -> Option<Seq<u8>> {
    if len >= 28 {
        Some(ftyp_box() + free_box(len - 20))
    } else if len >= 8 {
        Some(free_box(len))
    } else {
        None
    }
}

/// Why a file image cannot be rebuilt.
#[derive(Debug, Clone, Copy, PartialEq, Eq, Structural)]
pub enum RebuildError {
    /// There is no room for an mdat header before the media.
    MediaTooEarly,
    /// A prefix of this length cannot be made of atoms.
    PrefixTooShort(u64),
    /// The index stood in front of the media, and the cut reached it.
    IndexLost,
    /// The mdat would need a 64-bit size.
    MdatTooLarge,
}

impl RebuildError {
    /// The error in words.
    pub open spec fn text(self) -> Seq<char> {
        match self {
            RebuildError::MediaTooEarly => "media starts before offset 8"@,
            RebuildError::PrefixTooShort(len) => "need to synthesize a "@ + decimal(len as nat)
                + "-byte prefix but the smallest atom is 8 bytes; this layout requires chunk-offset patching, which this build does not do yet"@,
            RebuildError::IndexLost => "moov precedes mdat (faststart layout) and the cut reached it \u{2014} index lost"@,
            RebuildError::MdatTooLarge => "reconstructed mdat would need a 64-bit size; unsupported layout"@,
        }
    }

    pub fn message(&self) -> (r: String)
        ensures
            r@ == self.text(),
    {
        match self {
            RebuildError::MediaTooEarly => "media starts before offset 8".to_owned(),
            RebuildError::PrefixTooShort(len) => {
                let mut t = "need to synthesize a ".to_owned();
                push_decimal(&mut t, *len);
                t.append(
                    "-byte prefix but the smallest atom is 8 bytes; this layout requires chunk-offset patching, which this build does not do yet",
                );
                t
            },
            RebuildError::IndexLost => "moov precedes mdat (faststart layout) and the cut reached it \u{2014} index lost".to_owned(),
            RebuildError::MdatTooLarge => "reconstructed mdat would need a 64-bit size; unsupported layout".to_owned(),
        }
    }
}

/// The file image as it was before the cut: everything that can be synthesized is,
/// lost media is zeros, and the survivors stand where they stood. `None` if the cut
/// ended inside an mdat header of which the data holds less than that.
pub open spec fn rebuilt(d: Seq<u8>, t: Truncation) -> Option<Result<Seq<u8>, RebuildError>> {
    let k = t.cut_bytes;
    let header = t.media_start - 8;
    if header < 0 {
        Some(Err(RebuildError::MediaTooEarly))
    } else if k <= header && k <= t.moov_orig {
        // only synthesizable structure was cut
        match prefix_of(k) {
            Some(p) => Some(Ok(p + d)),
            None => Some(Err(RebuildError::PrefixTooShort(k as u64))),
        }
    } else if t.moov_orig < t.media_start {
        Some(Err(RebuildError::IndexLost))
    } else {
        match prefix_of(header) {
            None => Some(Err(RebuildError::PrefixTooShort(header as u64))),
            Some(p) => {
                let size = t.moov_orig - header;
                let front = p + be32_bytes(size) + MDAT@;
                if size > u32::MAX {
                    Some(Err(RebuildError::MdatTooLarge))
                } else if k > t.media_start {
                    Some(Ok(front + zeros((k - t.media_start) as nat) + d))
                } else if t.media_start - k > d.len() {
                    None
                } else {
                    Some(Ok(front + d.skip(t.media_start - k)))
                }
            },
        }
    }
}

/// Synthesized boxes have the length that they claim.
pub proof fn lemma_box_lengths(n: int)
    requires
        n >= 8,
    ensures
        ftyp_box().len() == 20,
        free_box(n).len() == n,
{
    assert(be32_bytes(20).len() == 4);
    assert(be32_bytes(0x200).len() == 4);
    assert(be32_bytes(n).len() == 4);
    assert(be32_bytes(1).len() == 4);
    assert(be64_bytes(n).len() == 8);
}

/// A synthesized prefix has exactly the length asked for.
pub proof fn law_prefix_length(len: int)
    ensures
        prefix_of(len) matches Some(p) ==> p.len() == len,
{
    if len >= 28 {
        lemma_box_lengths(len - 20);
    } else if len >= 8 {
        lemma_box_lengths(len);
    }
}

/// Reading the size of a box that was written.
pub proof fn lemma_written_box(before: Seq<u8>, n: int, rest: Seq<u8>)
    requires
        8 <= n <= u64::MAX,
    ensures
        ({
            let d = before + free_box(n) + rest;
            box_at(d, before.len() as int, d.len() as int) matches Some(b) && b.body_end == before.len()
                + n && b.fourcc == FREE@
        }),
{
    let d = before + free_box(n) + rest;
    let p = before.len() as int;
    lemma_box_lengths(n);
    if n <= u32::MAX {
        let tail = FREE@ + zeros((n - 8) as nat) + rest;
        assert(d =~= before + be32_bytes(n) + tail);
        crate::bytes::lemma_be32_roundtrip(before, n, tail);
        assert(d.subrange(p + 4, p + 8) =~= FREE@);
    } else {
        let tail = FREE@ + be64_bytes(n) + zeros((n - 16) as nat) + rest;
        assert(d =~= before + be32_bytes(1) + tail);
        crate::bytes::lemma_be32_roundtrip(before, 1, tail);
        let head = before + be32_bytes(1) + FREE@;
        let end = zeros((n - 16) as nat) + rest;
        assert(d =~= head + be64_bytes(n) + end);
        crate::bytes::lemma_be64_roundtrip(head, n, end);
        assert(head.len() == p + 8);
        assert(d.subrange(p + 4, p + 8) =~= FREE@);
    }
}

/// A synthesized prefix is made of atoms: a walk over the boxes of any file that
/// opens with it comes by the byte right behind it.
pub proof fn law_prefix_is_atoms(len: int, rest: Seq<u8>)
    requires
        prefix_of(len) is Some,
        len <= u64::MAX,
    ensures
        ({
            let d = prefix_of(len).unwrap() + rest;
            walk_end(d, 0, d.len() as int) == walk_end(d, len, d.len() as int)
        }),
{
    let d = prefix_of(len).unwrap() + rest;
    let n = d.len() as int;
    law_prefix_length(len);
    let none = Seq::<u8>::empty();
    if len >= 28 {
        lemma_box_lengths(len - 20);
        let tail = FTYP@ + ISOM@ + be32_bytes(0x200) + ISOM@ + free_box(len - 20) + rest;
        assert(d =~= none + be32_bytes(20) + tail);
        crate::bytes::lemma_be32_roundtrip(none, 20, tail);
        assert(box_at(d, 0, n) matches Some(b) && b.body_end == 20);
        assert(walk_end(d, 0, n) == walk_end(d, 20, n));
        assert(d =~= ftyp_box() + free_box(len - 20) + rest);
        lemma_written_box(ftyp_box(), len - 20, rest);
        assert(walk_end(d, 20, n) == walk_end(d, len, n));
    } else {
        lemma_box_lengths(len);
        assert(d =~= none + free_box(len) + rest);
        lemma_written_box(none, len, rest);
        assert(walk_end(d, 0, n) == walk_end(d, len, n));
    }
}

/// The rebuilt image has the length the file had, and every surviving byte that is
/// media or index stands where it stood before the cut.
pub proof fn law_survivors_return(d: Seq<u8>, t: Truncation)
    requires
        0 <= t.cut_bytes,
        rebuilt(d, t) matches Some(Ok(out)),
    ensures
        ({
            let out = rebuilt(d, t).unwrap().unwrap();
            let k = t.cut_bytes;
            &&& out.len() == k + d.len()
            &&& k <= t.media_start - 8 && k <= t.moov_orig ==> out.skip(k) == d
            &&& k >= t.media_start ==> out.skip(k) == d
            &&& forall|p: int|
                p >= k && p >= t.media_start && p < out.len() ==> #[trigger] out[p] == d[p - k]
        }),
{
    let out = rebuilt(d, t).unwrap().unwrap();
    let k = t.cut_bytes;
    let header = t.media_start - 8;
    if k <= header && k <= t.moov_orig {
        law_prefix_length(k);
        assert(out.skip(k) =~= d);
    } else {
        law_prefix_length(header);
        let p = prefix_of(header).unwrap();
        assert(be32_bytes(t.moov_orig - header).len() == 4);
        let front = p + be32_bytes(t.moov_orig - header) + MDAT@;
        assert(front.len() == t.media_start);
        if k > t.media_start {
            assert(out.skip(k) =~= d);
        } else {
            assert(out =~= front + d.skip(t.media_start - k));
            if k == t.media_start {
                assert(out.skip(k) =~= d);
            }
        }
    }
}

/// Media that no longer exists comes back as silence: zero bytes.
pub proof fn law_lost_media_is_silence(d: Seq<u8>, t: Truncation, p: int)
    requires
        0 <= t.cut_bytes,
        rebuilt(d, t) matches Some(Ok(out)),
        t.media_start <= p < t.cut_bytes,
    ensures
        rebuilt(d, t).unwrap().unwrap()[p] == 0,
{
    let header = t.media_start - 8;
    if !(t.cut_bytes <= header && t.cut_bytes <= t.moov_orig) {
        law_prefix_length(header);
        assert(be32_bytes(t.moov_orig - header).len() == 4);
        let front = prefix_of(header).unwrap() + be32_bytes(t.moov_orig - header) + MDAT@;
        assert(front.len() == t.media_start);
    }
}

/// The shortest ftyp that players accept.
pub fn synth_ftyp() -> (b: Vec<u8>)
    ensures
        b@ == ftyp_box(),
{
    // size(4) 'ftyp' major(4) minor(4) compat(4) = 20 bytes
    let mut b: Vec<u8> = Vec::new();
    push_be32(&mut b, 20);
    push_all(&mut b, &FTYP);
    push_all(&mut b, &ISOM);
    push_be32(&mut b, 0x200);
    push_all(&mut b, &ISOM);
    assert(Seq::<u8>::empty() + be32_bytes(20) =~= be32_bytes(20));
    b
}

/// Appends a `free` box: structural silence. The honest atom: it admits it holds
/// nothing. We use it to stand in for everything the tape lost.
fn push_free(b: &mut Vec<u8>, total: u64)
    requires
        8 <= total <= usize::MAX,
    ensures
        final(b)@ == old(b)@ + free_box(total as int),
{
    if total <= u32::MAX as u64 {
        push_be32(b, total as u32);
        push_all(b, &FREE);
        push_zeros(b, total as usize - 8);
    } else {
        push_be32(b, 1);
        push_all(b, &FREE);
        push_be64(b, total);
        push_zeros(b, total as usize - 16);
    }
    assert(b@ =~= old(b)@ + free_box(total as int));
}

/// Fills `[0, len)` of the original coordinate space with valid atoms.
fn synth_prefix(len: u64) -> (r: Option<Vec<u8>>)
    requires
        len <= usize::MAX,
    ensures
        match r {
            Some(p) => prefix_of(len as int) == Some(p@),
            None => prefix_of(len as int) is None,
        },
{
    if len >= 28 {
        let mut p = synth_ftyp();
        push_free(&mut p, len - 20);
        Some(p)
    } else if len >= 8 {
        let mut p: Vec<u8> = Vec::new();
        push_free(&mut p, len);
        assert(p@ =~= free_box(len as int));
        Some(p)
    } else {
        None
    }
}

/// Rebuilds the original file image from the head_truncated buffer.
pub fn reconstruct(data: &[u8], b: &HeadTruncation) -> (r: Result<Vec<u8>, RebuildError>)
    requires
        b.cut_bytes + data@.len() <= usize::MAX,
        rebuilt(data@, b@) is Some,
    ensures
        match r {
            Ok(out) => rebuilt(data@, b@) == Some(Ok::<Seq<u8>, RebuildError>(out@)),
            Err(error) => rebuilt(data@, b@) == Some(Err::<Seq<u8>, RebuildError>(error)),
        },
{
    let k: u64 = b.cut_bytes;
    if b.media_start < 8 {
        return Err(RebuildError::MediaTooEarly);
    }
    let header: u64 = b.media_start - 8;
    // First original byte that must be *preserved* (not synthesized):
    // whichever comes first, the moov or the mdat header.
    if k <= header && k <= b.moov_orig {
        // The cut only removed synthesizable structure (ftyp/free). Regrow
        // exactly K bytes of prefix and the survivors line right up.
        return match synth_prefix(k) {
            Some(p) => {
                let mut out = p;
                push_all(&mut out, data);
                Ok(out)
            },
            None => Err(RebuildError::PrefixTooShort(k)),
        };
    }
    // The cut reached into the mdat header or the media itself.
    if b.moov_orig < b.media_start {
        return Err(RebuildError::IndexLost);
    }
    // [0, header): prosthetic structure
    let mut out = match synth_prefix(header) {
        Some(p) => p,
        None => {
            return Err(RebuildError::PrefixTooShort(header));
        },
    };
    // [header, media_start): fresh mdat header spanning to moov
    let size: u64 = b.moov_orig - header;
    if size > u32::MAX as u64 {
        return Err(RebuildError::MdatTooLarge);
    }
    push_be32(&mut out, size as u32);
    push_all(&mut out, &MDAT);
    if k > b.media_start {
        // [media_start, K): media that no longer exists. Zero-fill:
        // the decoder will hiss here; the clip stage cuts it away.
        push_zeros(&mut out, (k - b.media_start) as usize);
        push_all(&mut out, data);
    } else {
        // Cut ended inside the mdat header; skip its orphaned fragment.
        let skip: usize = (b.media_start - k) as usize;
        push_all(&mut out, &data[skip..data.len()]);
        assert(data@.subrange(skip as int, data@.len() as int) =~= data@.skip(b.media_start - k));
    }
    Ok(out)
}

/// Whether [`reconstruct`] has what it needs: the image fits in memory, and where
/// the cut ended inside the mdat header, the rest of that header is there.
pub fn can_reconstruct(data: &[u8], b: &HeadTruncation) -> (r: bool)
    ensures
        r == (b.cut_bytes + data@.len() <= usize::MAX && rebuilt(data@, b@) is Some),
{
    let k: u64 = b.cut_bytes;
    if k > usize::MAX as u64 || k as usize > usize::MAX - data.len() {
        return false;
    }
    if b.media_start < 8 {
        return true;
    }
    let header: u64 = b.media_start - 8;
    if k <= header && k <= b.moov_orig {
        return true;
    }
    b.moov_orig < b.media_start || header < 8 || b.moov_orig - header > u32::MAX as u64 || k
        >= b.media_start || b.media_start - k <= data.len() as u64
}

/// Every offset in the index becomes true again: the sample that the index puts at
/// `off`, and that survived at `off - k`, stands at `off` in the rebuilt image.
pub proof fn law_offsets_true_again(d: Seq<u8>, t: Truncation, off: int, size: int)
    requires
        0 <= t.cut_bytes,
        rebuilt(d, t) matches Some(Ok(out)),
        off >= t.cut_bytes,
        off >= t.media_start,
        size >= 0,
        off - t.cut_bytes + size <= d.len(),
    ensures
        rebuilt(d, t).unwrap().unwrap().subrange(off, off + size) == d.subrange(
            off - t.cut_bytes,
            off - t.cut_bytes + size,
        ),
{
    law_survivors_return(d, t);
    let out = rebuilt(d, t).unwrap().unwrap();
    assert(out.subrange(off, off + size) =~= d.subrange(
        off - t.cut_bytes,
        off - t.cut_bytes + size,
    ));
}

} // verus!
