//! What walking a payload recovers: access units as H.264 lays them out come back one by one,
//! what lies between them is told apart, and what an index needs to say of them is worked out.
use crate::bits::bits_of;
use crate::bytes::{be32_at, be32_bytes, be64_bytes, overwritten, stands_at};
use crate::h264::{unescaped, SpsInfo};
use crate::streams::{prefixed, prefixed_units};
use crate::transplant::{
    count_continues, first_slice, first_slice_in, first_sync, frame_num_of, gaps_behind,
    header_frame_num, header_poc, leading_media, longest_nal, media_of, nal_at, next_start,
    parts_from, run_at, run_from, sample_poc, starts_picture, ticks_to_ms, tkhd_bytes, unit,
    video_starts, NalSpan, Run, Unit, VideoOrgans,
};
use vstd::arithmetic::div_mod::lemma_fundamental_div_mod;
use vstd::arithmetic::power2::{lemma_pow2_pos, pow2};
use vstd::prelude::*;

verus! {

broadcast use crate::bytes::group_lengths;

// ---------------------------------------------------------------------------
// Access units
// ---------------------------------------------------------------------------

/// A NAL unit that can stand in a payload: of two bytes or more and no longer than `max`,
/// with no forbidden bit and a type from 1 to 23, a reference if it is an IDR slice or a
/// parameter set, and none if it is an SEI, a delimiter, an end or filler.
pub open spec fn sound_nal(nal: Seq<u8>, max: int) -> bool {
    let ty = nal[0] % 32;
    &&& 2 <= nal.len() <= max
    &&& nal.len() <= u32::MAX
    &&& nal[0] < 128
    &&& 1 <= ty <= 23
    &&& ty == 5 || ty == 7 || ty == 8 ==> nal[0] >= 32
    &&& ty == 6 || ty == 9 || ty == 10 || ty == 11 || ty == 12 ==> nal[0] < 32
}

/// A slice: of an IDR picture, or of another one.
pub open spec fn is_slice(nal: Seq<u8>) -> bool {
    nal[0] % 32 == 1 || nal[0] % 32 == 5
}

/// A NAL unit behind a slice opens the next picture: a slice of which the first bit is set,
/// which says that its first macroblock is the picture's, or an SEI, SPS, PPS or delimiter.
pub open spec fn opens_picture(nal: Seq<u8>) -> bool {
    if is_slice(nal) {
        nal[1] >= 128
    } else {
        6 <= nal[0] % 32 <= 9
    }
}

/// Some NAL unit of the list is a slice.
pub open spec fn has_slice(nals: Seq<Seq<u8>>) -> bool {
    exists|i: int| 0 <= i < nals.len() && is_slice(#[trigger] nals[i])
}

/// Some NAL unit of the list is a slice of an IDR picture.
pub open spec fn has_idr(nals: Seq<Seq<u8>>) -> bool {
    exists|i: int| 0 <= i < nals.len() && (#[trigger] nals[i])[0] % 32 == 5
}

/// The rest of an access unit, of which a slice may have been seen: sound NAL units, of which
/// none behind a slice opens a picture.
pub open spec fn goes_on(nals: Seq<Seq<u8>>, seen: bool, max: int) -> bool {
    &&& forall|i: int| 0 <= i < nals.len() ==> sound_nal(#[trigger] nals[i], max)
    &&& forall|i: int|
        0 <= i < nals.len() && (seen || has_slice(nals.take(i))) ==> !opens_picture(
            #[trigger] nals[i],
        )
}

/// An access unit: its first NAL unit opens a picture, none behind its first slice does, and
/// it has a slice.
pub open spec fn access_unit(nals: Seq<Seq<u8>>, max: int) -> bool {
    nals.len() > 0 && opens_picture(nals[0]) && has_slice(nals) && goes_on(nals, false, max)
}

/// All of them are access units.
pub open spec fn access_units(aus: Seq<Seq<Seq<u8>>>, max: int) -> bool {
    forall|i: int| 0 <= i < aus.len() ==> access_unit(#[trigger] aus[i], max)
}

/// Access units as they stand in a payload.
pub open spec fn payload(aus: Seq<Seq<Seq<u8>>>) -> Seq<u8>
    decreases aus.len(),
{
    if aus.len() == 0 {
        seq![]
    } else {
        prefixed_units(aus[0]) + payload(aus.drop_first())
    }
}

/// The samples that access units are, one behind the other from `pos` on: sync where there is
/// a slice of an IDR picture.
pub open spec fn samples_of_units(aus: Seq<Seq<Seq<u8>>>, pos: int) -> Seq<Unit>
    decreases aus.len(),
{
    if aus.len() == 0 {
        seq![]
    } else {
        let size = prefixed_units(aus[0]).len() as int;
        seq![Unit { off: pos, size, sync: has_idr(aus[0]) }] + samples_of_units(
            aus.drop_first(),
            pos + size,
        )
    }
}

proof fn lemma_goes_on(nals: Seq<Seq<u8>>, seen: bool, max: int)
    requires
        nals.len() > 0,
        goes_on(nals, seen, max),
    ensures
        goes_on(nals.drop_first(), seen || is_slice(nals[0]), max),
        has_slice(nals) <==> is_slice(nals[0]) || has_slice(nals.drop_first()),
        has_idr(nals) <==> nals[0][0] % 32 == 5 || has_idr(nals.drop_first()),
        sound_nal(nals[0], max),
        seen ==> !opens_picture(nals[0]),
{
    let tail = nals.drop_first();
    assert forall|i: int| 0 <= i < tail.len() implies sound_nal(#[trigger] tail[i], max) by {
        assert(tail[i] == nals[i + 1]);
    }
    assert forall|i: int|
        0 <= i < tail.len() && (seen || is_slice(nals[0]) || has_slice(tail.take(i))) implies
        !opens_picture(#[trigger] tail[i]) by {
        assert(tail[i] == nals[i + 1]);
        if !seen {
            if is_slice(nals[0]) {
                assert(nals.take(i + 1)[0] == nals[0]);
            } else {
                let k = choose|k: int| 0 <= k < tail.take(i).len() && is_slice(
                    #[trigger] tail.take(i)[k],
                );
                assert(nals.take(i + 1)[k + 1] == tail.take(i)[k]);
            }
            assert(has_slice(nals.take(i + 1)));
        }
    }
    if has_slice(tail) {
        let k = choose|k: int| 0 <= k < tail.len() && is_slice(#[trigger] tail[k]);
        assert(nals[k + 1] == tail[k]);
    }
    if has_slice(nals) && !is_slice(nals[0]) {
        let k = choose|k: int| 0 <= k < nals.len() && is_slice(#[trigger] nals[k]);
        assert(tail[k - 1] == nals[k]);
    }
    if has_idr(tail) {
        let k = choose|k: int| 0 <= k < tail.len() && (#[trigger] tail[k])[0] % 32 == 5;
        assert(nals[k + 1] == tail[k]);
    }
    if has_idr(nals) && nals[0][0] % 32 != 5 {
        let k = choose|k: int| 0 <= k < nals.len() && (#[trigger] nals[k])[0] % 32 == 5;
        assert(tail[k - 1] == nals[k]);
    }
}

/// A NAL unit in a payload is read as it is.
proof fn lemma_nal_read(front: Seq<u8>, nal: Seq<u8>, rest: Seq<u8>, max: int)
    requires
        sound_nal(nal, max),
    ensures
        ({
            let d = front + prefixed(nal) + rest;
            let p = front.len() as int;
            &&& nal_at(d, p, max) == (NalSpan::Valid { len: nal.len() as int, ty: nal[0] % 32 })
            &&& starts_picture(d, p) == (nal[1] >= 128)
        }),
{
    let d = front + prefixed(nal) + rest;
    let p = front.len() as int;
    let len = be32_bytes(nal.len() as int);
    assert(d =~= front + len + (nal + rest));
    crate::bytes::lemma_be32_roundtrip(front, nal.len() as int, nal + rest);
    assert(d[p + 4] == nal[0]);
    assert(d[p + 5] == nal[1]);
}

pub proof fn lemma_prefixed_first(nals: Seq<Seq<u8>>)
    requires
        nals.len() > 0,
    ensures
        prefixed_units(nals) == prefixed(nals[0]) + prefixed_units(nals.drop_first()),
{
    let parts = nals.map_values(|u: Seq<u8>| prefixed(u));
    assert(parts.drop_first() =~= nals.drop_first().map_values(|u: Seq<u8>| prefixed(u)));
}

proof fn lemma_regroup(a: Seq<u8>, b: Seq<u8>, c: Seq<u8>, d: Seq<u8>)
    ensures
        a + (b + c) + d == a + b + (c + d),
        a + (b + c) + d == (a + b) + c + d,
{
    assert(a + (b + c) + d =~= a + b + (c + d));
    assert(a + (b + c) + d =~= (a + b) + c + d);
}

proof fn lemma_regroup_tail(a: Seq<u8>, b: Seq<u8>, c: Seq<u8>, d: Seq<u8>, e: Seq<u8>)
    ensures
        a + (b + c) + d + e == a + b + (c + d + e),
        a + (b + c) + d + e == (a + b) + c + d + e,
{
    assert(a + (b + c) + d + e =~= a + b + (c + d + e));
    assert(a + (b + c) + d + e =~= (a + b) + c + d + e);
}

/// The walk from within an access unit, up to where no NAL unit stands.
#[verifier::spinoff_prover]
proof fn lemma_walk(
    d: Seq<u8>,
    front: Seq<u8>,
    nals: Seq<Seq<u8>>,
    aus: Seq<Seq<Seq<u8>>>,
    rest: Seq<u8>,
    max: int,
    cur: int,
    seen: bool,
    idr: bool,
)
    requires
        d == front + prefixed_units(nals) + payload(aus) + rest,
        goes_on(nals, seen, max),
        seen || has_slice(nals),
        access_units(aus, max),
        !(nal_at(d, d.len() - rest.len(), max) is Valid),
    ensures
        ({
            let end = front.len() + prefixed_units(nals).len();
            run_from(d, max, front.len() as int, cur, seen, idr) == (Run {
                samples: seq![unit(cur, end as int, idr || has_idr(nals))] + samples_of_units(
                    aus,
                    end as int,
                ),
                end: d.len() - rest.len(),
                torn: nal_at(d, d.len() - rest.len(), max) is Torn,
            })
        }),
    decreases aus.len(), nals.len(),
{
    let p = front.len() as int;
    if nals.len() > 0 {
        let nal = nals[0];
        let tail = nals.drop_first();
        let here = prefixed(nal);
        lemma_goes_on(nals, seen, max);
        lemma_prefixed_first(nals);
        lemma_regroup_tail(front, here, prefixed_units(tail), payload(aus), rest);
        lemma_nal_read(front, nal, prefixed_units(tail) + payload(aus) + rest, max);
        let ty = nal[0] % 32;
        lemma_walk(
            d,
            front + here,
            tail,
            aus,
            rest,
            max,
            cur,
            seen || is_slice(nal),
            idr || ty == 5,
        );
        assert((front + here).len() == p + 4 + nal.len());
    } else {
        let none = prefixed_units(nals);
        assert(none =~= Seq::<u8>::empty());
        assert(!has_idr(nals));
        if aus.len() == 0 {
            assert(d =~= front + rest);
            assert(seq![unit(cur, p, idr)] + samples_of_units(aus, p) =~= seq![unit(cur, p, idr)]);
        } else {
            let au = aus[0];
            let more = aus.drop_first();
            let nal = au[0];
            let tail = au.drop_first();
            let here = prefixed(nal);
            assert(access_unit(au, max));
            lemma_goes_on(au, false, max);
            lemma_prefixed_first(au);
            assert(d =~= front + (here + prefixed_units(tail)) + payload(more) + rest);
            lemma_regroup_tail(front, here, prefixed_units(tail), payload(more), rest);
            lemma_nal_read(front, nal, prefixed_units(tail) + payload(more) + rest, max);
            assert(access_units(more, max)) by {
                assert forall|i: int| 0 <= i < more.len() implies access_unit(
                    #[trigger] more[i],
                    max,
                ) by {
                    assert(more[i] == aus[i + 1]);
                }
            }
            let ty = nal[0] % 32;
            lemma_walk(d, front + here, tail, more, rest, max, p, is_slice(nal), ty == 5);
            assert((front + here).len() == p + 4 + nal.len());
            let end = p + prefixed_units(au).len();
            assert(unit(p, end, ty == 5 || has_idr(tail)) == (Unit {
                off: p,
                size: prefixed_units(au).len() as int,
                sync: has_idr(au),
            }));
        }
    }
}

/// The walk over access units.
proof fn lemma_walk_units(
    front: Seq<u8>,
    aus: Seq<Seq<Seq<u8>>>,
    rest: Seq<u8>,
    max: int,
)
    requires
        aus.len() > 0,
        access_units(aus, max),
        ({
            let d = front + payload(aus) + rest;
            !(nal_at(d, d.len() - rest.len(), max) is Valid)
        }),
    ensures
        ({
            let d = front + payload(aus) + rest;
            run_from(d, max, front.len() as int, front.len() as int, false, false) == (Run {
                samples: samples_of_units(aus, front.len() as int),
                end: d.len() - rest.len(),
                torn: nal_at(d, d.len() - rest.len(), max) is Torn,
            })
        }),
{
    let d = front + payload(aus) + rest;
    let p = front.len() as int;
    let au = aus[0];
    let more = aus.drop_first();
    assert(access_unit(au, max));
    assert forall|i: int| 0 <= i < more.len() implies access_unit(#[trigger] more[i], max) by {
        assert(more[i] == aus[i + 1]);
    }
    assert(d =~= front + prefixed_units(au) + payload(more) + rest);
    lemma_walk(d, front, au, more, rest, max, p, false, false);
}

/// Access units are walked: from their start, each comes back as one sample, with its offset,
/// its size, and whether it is a keyframe, up to the end of the payload.
pub proof fn law_access_units_are_walked(
    front: Seq<u8>,
    aus: Seq<Seq<Seq<u8>>>,
    dv: VideoOrgans,
)
    requires
        aus.len() > 0,
        access_units(aus, dv.max_sample * 4 + 4096),
    ensures
        run_at(front + payload(aus), front.len() as int, dv) == (Run {
            samples: samples_of_units(aus, front.len() as int),
            end: (front + payload(aus)).len() as int,
            torn: false,
        }),
{
    let none = Seq::<u8>::empty();
    let d = front + payload(aus);
    assert(d + none =~= d);
    assert(d + none == front + payload(aus) + none);
    lemma_walk_units(front, aus, none, longest_nal(dv));
}

/// A NAL unit that the data breaks off in is torn.
proof fn lemma_torn_nal(front: Seq<u8>, nal: Seq<u8>, k: int, max: int)
    requires
        sound_nal(nal, max),
        0 < k < prefixed(nal).len(),
    ensures
        nal_at(front + prefixed(nal).take(k), front.len() as int, max) is Torn,
{
    let d = front + prefixed(nal).take(k);
    let p = front.len() as int;
    if k >= 5 {
        let len = be32_bytes(nal.len() as int);
        assert(d =~= front + len + nal.take(k - 4));
        crate::bytes::lemma_be32_roundtrip(front, nal.len() as int, nal.take(k - 4));
        assert(d[p + 4] == nal[0]);
    }
}

/// Access units before a tear are walked as others are, up to the tear.
pub proof fn law_units_before_a_tear_are_walked(
    front: Seq<u8>,
    aus: Seq<Seq<Seq<u8>>>,
    nal: Seq<u8>,
    k: int,
    dv: VideoOrgans,
)
    requires
        aus.len() > 0,
        access_units(aus, dv.max_sample * 4 + 4096),
        sound_nal(nal, dv.max_sample * 4 + 4096),
        0 < k < prefixed(nal).len(),
    ensures
        run_at(front + payload(aus) + prefixed(nal).take(k), front.len() as int, dv) == (Run {
            samples: samples_of_units(aus, front.len() as int),
            end: (front + payload(aus)).len() as int,
            torn: true,
        }),
{
    lemma_torn_nal(front + payload(aus), nal, k, longest_nal(dv));
    lemma_walk_units(front, aus, prefixed(nal).take(k), longest_nal(dv));
}

proof fn lemma_first_slice_in(
    d: Seq<u8>,
    front: Seq<u8>,
    nals: Seq<Seq<u8>>,
    rest: Seq<u8>,
    k: int,
    max: int,
)
    requires
        d == front + prefixed_units(nals) + rest,
        0 <= k < nals.len(),
        forall|i: int| 0 <= i < nals.len() ==> sound_nal(#[trigger] nals[i], max),
        forall|i: int| 0 <= i < k ==> !is_slice(#[trigger] nals[i]),
        is_slice(nals[k]),
    ensures
        first_slice_in(
            d,
            front.len() as int,
            (front.len() + prefixed_units(nals).len()) as int,
        ) == Some(
            ((front.len() + prefixed_units(nals.take(k)).len()) as int, nals[k][0] % 32 == 5),
        ),
    decreases nals.len(),
{
    let p = front.len() as int;
    let nal = nals[0];
    let tail = nals.drop_first();
    let here = prefixed(nal);
    assert(sound_nal(nal, max));
    lemma_prefixed_first(nals);
    lemma_regroup(front, here, prefixed_units(tail), rest);
    lemma_nal_read(front, nal, prefixed_units(tail) + rest, max);
    assert(d[p + 4] == nal[0]);
    if k == 0 {
        assert(nals.take(0).map_values(|u: Seq<u8>| prefixed(u)) =~= Seq::<Seq<u8>>::empty());
        assert(prefixed_units(nals.take(0)) =~= Seq::<u8>::empty());
    } else {
        assert(!is_slice(nals[0]));
        assert forall|i: int| 0 <= i < tail.len() implies sound_nal(#[trigger] tail[i], max) by {
            assert(tail[i] == nals[i + 1]);
        }
        assert forall|i: int| 0 <= i < k - 1 implies !is_slice(#[trigger] tail[i]) by {
            assert(tail[i] == nals[i + 1]);
        }
        lemma_first_slice_in(d, front + here, tail, rest, k - 1, max);
        assert(nals.take(k).drop_first() =~= tail.take(k - 1));
        lemma_prefixed_first(nals.take(k));
        assert((front + here).len() == p + 4 + nal.len());
    }
}

/// Where access units stand, video starts. If the parameters are known, the first slice must have
/// a header that fits them and a number that goes on from the one before: zero in a keyframe, else
/// the same or up to four more.
pub proof fn law_video_starts_where_access_units_stand(
    front: Seq<u8>,
    aus: Seq<Seq<Seq<u8>>>,
    k: int,
    dv: VideoOrgans,
    prev: Option<int>,
)
    requires
        aus.len() > 0,
        access_units(aus, dv.max_sample * 4 + 4096),
        prefixed_units(aus[0]).len() <= u32::MAX,
        0 <= k < aus[0].len(),
        is_slice(aus[0][k]),
        forall|i: int| 0 <= i < k ==> !is_slice(#[trigger] aus[0][i]),
    ensures
        ({
            let d = front + payload(aus);
            let idr = aus[0][k][0] % 32 == 5;
            let p = front.len() + prefixed_units(aus[0].take(k)).len();
            video_starts(d, front.len() as int, dv, prev) <==> (dv.sps matches Some(sps) ==> (
            frame_num_of(d, p as int, idr, sps) matches Some(f) && {
                &&& idr ==> f == 0
                &&& !idr && prev is Some ==> (f - prev->0) % pow2(
                    sps.log2_max_frame_num as nat,
                ) as int <= 4
            }))
        }),
{
    let d = front + payload(aus);
    let q = front.len() as int;
    let max = longest_nal(dv);
    let au = aus[0];
    let more = payload(aus.drop_first());
    assert(access_unit(au, max));
    law_access_units_are_walked(front, aus, dv);
    lemma_prefixed_first(au);
    let nal = au[0];
    let tail = prefixed_units(au.drop_first());
    assert(sound_nal(nal, max));
    assert(d =~= front + prefixed(nal) + (tail + more));
    lemma_nal_read(front, nal, tail + more, max);
    assert(d =~= front + prefixed_units(au) + more);
    lemma_first_slice_in(d, front, au, more, k, max);
    let u = samples_of_units(aus, q)[0];
    assert(u == (Unit { off: q, size: prefixed_units(au).len() as int, sync: has_idr(au) }));
    vstd::arithmetic::div_mod::lemma_small_mod(prefixed_units(au).len(), 0x1_0000_0000);
    if k == 0 {
        assert(au.take(0).map_values(|u: Seq<u8>| prefixed(u)) =~= Seq::<Seq<u8>>::empty());
        assert(prefixed_units(au.take(0)) =~= Seq::<u8>::empty());
    } else {
        assert(!is_slice(au[0]));
    }
}

/// A payload that breaks off in a NAL unit gives up every access unit before, and counts the rest
/// as torn; without parameters to go by, all of it is believed.
pub proof fn law_torn_payloads_are_recovered_up_to_the_tear(
    aus: Seq<Seq<Seq<u8>>>,
    nal: Seq<u8>,
    k: int,
    dv: VideoOrgans,
)
    requires
        aus.len() > 0,
        dv.sps is None,
        access_units(aus, dv.max_sample * 4 + 4096),
        sound_nal(nal, dv.max_sample * 4 + 4096),
        0 < k < prefixed(nal).len(),
    ensures
        ({
            let p = parts_from(payload(aus) + prefixed(nal).take(k), dv, 0, false, None);
            &&& p.video == samples_of_units(aus, 0)
            &&& p.gaps.len() == 0
            &&& p.torn == k
        }),
{
    let none = Seq::<u8>::empty();
    let torn = prefixed(nal).take(k);
    let d = payload(aus) + torn;
    let max = longest_nal(dv);
    law_units_before_a_tear_are_walked(none, aus, nal, k, dv);
    assert(none + payload(aus) + torn =~= d);
    assert(none + payload(aus) =~= payload(aus));
    let au = aus[0];
    assert(access_unit(au, max));
    lemma_prefixed_first(au);
    let first = au[0];
    assert(sound_nal(first, max));
    let tail = prefixed_units(au.drop_first()) + payload(aus.drop_first()) + torn;
    assert(d =~= none + prefixed(first) + tail);
    lemma_nal_read(none, first, tail, max);
    let run = run_at(d, 0, dv);
    assert(run.samples.len() > 0);
    assert(video_starts(d, 0, dv, None));
    assert(next_start(d, 0, dv, None) == Some(0int));
    assert(run.samples + Seq::<Unit>::empty() =~= run.samples);
}

/// A payload of access units alone is recovered whole: every one of them as a sample, nothing
/// between them, nothing torn.
pub proof fn law_payloads_are_recovered_whole(aus: Seq<Seq<Seq<u8>>>, dv: VideoOrgans)
    requires
        aus.len() > 0,
        access_units(aus, dv.max_sample * 4 + 4096),
        video_starts(payload(aus), 0, dv, None),
        payload(aus).len() > 5,
    ensures
        ({
            let p = parts_from(payload(aus), dv, 0, false, None);
            &&& p.video == samples_of_units(aus, 0)
            &&& p.gaps.len() == 0
            &&& p.torn == 0
        }),
{
    let d = payload(aus);
    let none = Seq::<u8>::empty();
    law_access_units_are_walked(none, aus, dv);
    assert(none + d =~= d);
    assert(next_start(d, 0, dv, None) == Some(0int));
    let run = run_at(d, 0, dv);
    let prev = match dv.sps {
        Some(sps) => crate::transplant::sample_frame_num(d, run.samples.last(), sps),
        None => None,
    };
    assert(parts_from(d, dv, d.len() as int, false, prev).video =~= Seq::<Unit>::empty());
    assert(run.samples + Seq::<Unit>::empty() =~= run.samples);
}

proof fn lemma_next_at(d: Seq<u8>, pos: int, q: int, dv: VideoOrgans, prev: Option<int>)
    requires
        0 <= pos <= q,
        q + 5 < d.len(),
        video_starts(d, q, dv, prev),
        forall|i: int| pos <= i < q ==> !#[trigger] video_starts(d, i, dv, prev),
    ensures
        next_start(d, pos, dv, prev) == Some(q),
    decreases q - pos,
{
    if pos < q {
        assert(!video_starts(d, pos, dv, prev));
        lemma_next_at(d, pos + 1, q, dv, prev);
    }
}

/// What lies before the next place where video verifiably begins is one stretch of something
/// else: a chunk of its own, or, behind a torn head, bytes that belong to nothing. The samples
/// that begin there come first.
pub proof fn law_what_is_not_video_is_told_apart(
    d: Seq<u8>,
    pos: int,
    q: int,
    dv: VideoOrgans,
    prev: Option<int>,
)
    requires
        0 <= pos < q,
        q + 5 < d.len(),
        video_starts(d, q, dv, prev),
        forall|i: int| pos <= i < q ==> !#[trigger] video_starts(d, i, dv, prev),
    ensures
        ({
            let chunk = parts_from(d, dv, pos, false, prev);
            let torn = parts_from(d, dv, pos, true, prev);
            let rest = parts_from(d, dv, q, false, prev);
            &&& chunk.gaps == seq![(pos, q - pos)] + rest.gaps
            &&& chunk.torn == rest.torn
            &&& chunk.video == rest.video
            &&& torn.gaps == rest.gaps
            &&& torn.torn == rest.torn + (q - pos)
            &&& torn.video == rest.video
            &&& run_at(d, q, dv).samples.is_prefix_of(rest.video)
        }),
{
    lemma_next_at(d, pos, q, dv, prev);
    lemma_next_at(d, q, q, dv, prev);
}

/// A sample continues the count where its frame_num is that of the one before it, or one to
/// four more, around the counter's range; a keyframe counts from zero.
pub proof fn law_counts_go_on_by_four_at_most(
    d: Seq<u8>,
    u: Unit,
    sps: SpsInfo,
    p: int,
    idr: bool,
    f: int,
    x: int,
)
    requires
        first_slice(d, u) == Some((p, idr)),
        frame_num_of(d, p, idr, sps) == Some(f),
        0 <= f < pow2(sps.log2_max_frame_num as nat),
        0 <= x < pow2(sps.log2_max_frame_num as nat),
    ensures
        idr ==> (count_continues(d, u, sps, Some(x)) <==> f == 0),
        !idr ==> (count_continues(d, u, sps, Some(x)) <==> exists|k: int|
            0 <= k <= 4 && f == #[trigger] ahead(x, k, pow2(sps.log2_max_frame_num as nat) as int)),
        !idr ==> count_continues(d, u, sps, None),
{
    let m = pow2(sps.log2_max_frame_num as nat) as int;
    lemma_pow2_pos(sps.log2_max_frame_num as nat);
    if !idr {
        let k = (f - x) % m;
        if f >= x {
            vstd::arithmetic::div_mod::lemma_small_mod((f - x) as nat, m as nat);
            assert(k == f - x);
        } else {
            vstd::arithmetic::div_mod::lemma_mod_add_multiples_vanish(f - x, m);
            vstd::arithmetic::div_mod::lemma_small_mod((f - x + m) as nat, m as nat);
            assert(k == f - x + m);
        }
        assert(f == ahead(x, k, m));
        if exists|j: int| 0 <= j <= 4 && f == #[trigger] ahead(x, j, m) {
            let j = choose|j: int| 0 <= j <= 4 && f == #[trigger] ahead(x, j, m);
            assert(k <= j);
        }
    }
}

/// `k` counts on from `x`, around the range `m`: once around at most.
pub open spec fn ahead(x: int, k: int, m: int) -> int {
    if x + k < m {
        x + k
    } else {
        x + k - m
    }
}

// ---------------------------------------------------------------------------
// What is kept
// ---------------------------------------------------------------------------

/// The chunks that are kept are those that start at the cut or behind it, in order.
pub proof fn law_chunks_behind_the_cut_are_kept(gaps: Seq<(int, int)>, cut: int)
    ensures
        gaps_behind(gaps, cut) == gaps.filter(|g: (int, int)| g.0 >= cut),
    decreases gaps.len(),
{
    reveal(Seq::filter);
    if gaps.len() > 0 {
        law_chunks_behind_the_cut_are_kept(gaps.drop_last(), cut);
    }
}

/// The first sync sample is one, and none before it is.
pub proof fn law_first_sync_is_the_first(v: Seq<Unit>, i: int)
    requires
        0 <= i,
    ensures
        match first_sync(v, i) {
            Some(n) => i <= n < v.len() && v[n].sync && forall|j: int|
                i <= j < n ==> !(#[trigger] v[j]).sync,
            None => forall|j: int| i <= j < v.len() ==> !(#[trigger] v[j]).sync,
        },
    decreases v.len() - i,
{
    if i < v.len() && !v[i].sync {
        law_first_sync_is_the_first(v, i + 1);
    }
}

/// A duration in milliseconds is the whole part of what the ticks last.
pub proof fn law_milliseconds_are_whole(ticks: int, timescale: u32)
    requires
        0 <= ticks,
        timescale > 0,
        ticks * 1000 <= u64::MAX,
    ensures
        ticks_to_ms(ticks, timescale) * timescale <= ticks * 1000,
        ticks * 1000 < (ticks_to_ms(ticks, timescale) + 1) * timescale,
{
    let x = ticks * 1000;
    let k = timescale as int;
    let q = x / k;
    lemma_fundamental_div_mod(x, k);
    assert(q * k <= x < (q + 1) * k && 0 <= q <= x) by (nonlinear_arith)
        requires
            x == k * q + x % k,
            0 <= x % k < k,
            k >= 1,
            x >= 0,
    ;
}

/// A donor's track header is kept but for its duration: 32 bits behind the first twenty bytes,
/// or in version 1 64 bits behind the first twenty-eight.
pub proof fn law_track_headers_keep_all_but_the_duration(
    raw: Seq<u8>,
    fallback: int,
    audio: bool,
    duration: int,
)
    requires
        raw.len() >= 36,
        0 <= duration <= u32::MAX,
    ensures
        ({
            let wide = raw[0] == 1;
            let (at, n) = if wide {
                (28int, 8int)
            } else {
                (20int, 4int)
            };
            exists|body: Seq<u8>|
                {
                    &&& tkhd_bytes(Some(raw), fallback, audio, duration)
                        == crate::transplant::box_bytes(
                        seq![0x74u8, 0x6b, 0x68, 0x64],
                        #[trigger] body.take(raw.len() as int),
                    )
                    &&& body.len() == raw.len()
                    &&& forall|i: int|
                        0 <= i < raw.len() && !(at <= i < at + n) ==> #[trigger] body[i] == raw[i]
                    &&& wide ==> crate::bytes::be64_at(body, at) == duration
                    &&& !wide ==> be32_at(body, at) == duration
                }
        }),
{
    assert(crate::fourcc::TKHD@ =~= seq![0x74u8, 0x6b, 0x68, 0x64]);
    let wide = raw[0] == 1;
    let (at, v) = if wide {
        (28int, be64_bytes(duration))
    } else {
        (20int, be32_bytes(duration))
    };
    let body = overwritten(raw, at, v);
    assert(body.take(raw.len() as int) =~= body);
    let (a, b) = (raw.subrange(0, at), raw.subrange(at + v.len(), raw.len() as int));
    assert(body == a + v + b);
    if wide {
        crate::bytes::lemma_be64_roundtrip(a, duration, b);
    } else {
        crate::bytes::lemma_be32_roundtrip(a, duration, b);
    }
    assert forall|i: int| 0 <= i < raw.len() && !(at <= i < at + v.len()) implies #[trigger] body[i]
        == raw[i] by {
        if i < at {
            assert(a[i] == raw[i]);
        } else {
            assert(b[i - at - v.len()] == raw[i]);
        }
    }
}

// ---------------------------------------------------------------------------
// Finding the payload
// ---------------------------------------------------------------------------

/// Behind one leading ftyp and a media header, the payload is everything up to where the
/// header says it ends, or to the end of a file that was cut off before.
pub proof fn law_payloads_are_located(ftyp: Seq<u8>, claimed: int, rest: Seq<u8>)
    requires
        8 <= claimed <= u32::MAX,
        ftyp.len() + 8 <= u32::MAX,
    ensures
        ({
            let head = be32_bytes(ftyp.len() as int + 8) + seq![0x66u8, 0x74, 0x79, 0x70] + ftyp;
            let d = head + be32_bytes(claimed) + seq![0x6du8, 0x64, 0x61, 0x74] + rest;
            let start = ftyp.len() + 16;
            media_of(d) == (
                start as int,
                if start + (claimed - 8) <= d.len() {
                    start + (claimed - 8)
                } else {
                    d.len() as int
                },
                false,
            )
        }),
{
    let a = be32_bytes(ftyp.len() as int + 8);
    let f = seq![0x66u8, 0x74, 0x79, 0x70];
    let head = a + f + ftyp;
    let c = be32_bytes(claimed);
    let m = seq![0x6du8, 0x64, 0x61, 0x74];
    let d = head + c + m + rest;
    let none = Seq::<u8>::empty();
    let n = head.len() as int;
    crate::bytes::lemma_be32_roundtrip(none, ftyp.len() as int + 8, f + ftyp + c + m + rest);
    assert(none + a + (f + ftyp + c + m + rest) =~= d);
    crate::bytes::lemma_be32_roundtrip(head, claimed, m + rest);
    assert(head + c + (m + rest) =~= d);
    assert(crate::fourcc::FTYP@ =~= f);
    assert(crate::fourcc::MDAT@ =~= m);
    assert(d.subrange(4, 8) =~= f);
    assert(d.subrange(n + 4, n + 8) =~= m);
    assert(stands_at(d, 4, crate::fourcc::FTYP@));
    assert(stands_at(d, n + 4, crate::fourcc::MDAT@));
    assert(!stands_at(d, 4, crate::fourcc::MDAT@)) by {
        assert(f[0] != m[0]);
    }
    assert(leading_media(d, 0) == leading_media(d, n));
}

// ---------------------------------------------------------------------------
// Slice headers in place
// ---------------------------------------------------------------------------

/// The number of a slice is read from the sixteen bytes behind its first, or from what there is.
pub proof fn law_slice_numbers_are_read_in_place(
    front: Seq<u8>,
    nal: Seq<u8>,
    rest: Seq<u8>,
    idr: bool,
    sps: SpsInfo,
)
    requires
        0 < nal.len() <= u32::MAX,
        nal.len() >= 17 || rest.len() == 0,
    ensures
        frame_num_of(front + prefixed(nal) + rest, front.len() as int, idr, sps)
            == header_frame_num(
            bits_of(
                unescaped(
                    nal.subrange(
                        1,
                        if nal.len() >= 17 {
                            17
                        } else {
                            nal.len() as int
                        },
                    ),
                    0,
                ),
            ),
            idr,
            sps,
        ),
{
    let d = front + prefixed(nal) + rest;
    let p = front.len() as int;
    if nal.len() >= 17 {
        assert(d.subrange(p + 5, p + 21) =~= nal.subrange(1, 17));
    } else {
        let n = nal.len() as int;
        let end = if p + 21 <= d.len() {
            p + 21
        } else {
            d.len() as int
        };
        assert(end == p + 4 + n);
        assert(d.subrange(p + 5, end) =~= nal.subrange(1, n));
    }
}

/// The display position of a sample is read from the first slice of its access unit: from the 32
/// bytes behind its first, or from all of it where it is shorter.
pub proof fn law_display_positions_are_read_in_place(
    front: Seq<u8>,
    nals: Seq<Seq<u8>>,
    rest: Seq<u8>,
    k: int,
    max: int,
    sps: SpsInfo,
    sync: bool,
)
    requires
        0 <= k < nals.len(),
        forall|i: int| 0 <= i < nals.len() ==> sound_nal(#[trigger] nals[i], max),
        forall|i: int| 0 <= i < k ==> !is_slice(#[trigger] nals[i]),
        is_slice(nals[k]),
        prefixed_units(nals).len() <= u32::MAX,
    ensures
        ({
            let d = front + prefixed_units(nals) + rest;
            let u = Unit {
                off: front.len() as int,
                size: prefixed_units(nals).len() as int,
                sync,
            };
            let nal = nals[k];
            let idr = nal[0] % 32 == 5;
            let head = nal.subrange(
                1,
                if nal.len() >= 33 {
                    33
                } else {
                    nal.len() as int
                },
            );
            sample_poc(d, u, sps) == match header_poc(bits_of(unescaped(head, 0)), idr, sps) {
                Some(v) => Some((idr, v)),
                None => None,
            }
        }),
{
    let d = front + prefixed_units(nals) + rest;
    let nal = nals[k];
    let size = prefixed_units(nals).len();
    lemma_first_slice_in(d, front, nals, rest, k, max);
    vstd::arithmetic::div_mod::lemma_small_mod(size, 0x1_0000_0000);
    let before = prefixed_units(nals.take(k));
    let after = prefixed_units(nals.skip(k + 1));
    lemma_units_around(nals, k);
    let p = (front.len() + before.len()) as int;
    assert(d =~= (front + before) + prefixed(nal) + (after + rest));
    assert(sound_nal(nal, max));
    lemma_nal_read(front + before, nal, after + rest, max);
    let e = if nal.len() >= 33 {
        p + 37
    } else {
        p + 4 + nal.len()
    };
    assert(d.subrange(p + 5, e) =~= nal.subrange(1, e - p - 4));
}

proof fn lemma_units_around(nals: Seq<Seq<u8>>, k: int)
    requires
        0 <= k < nals.len(),
    ensures
        prefixed_units(nals) == prefixed_units(nals.take(k)) + prefixed(nals[k]) + prefixed_units(
            nals.skip(k + 1),
        ),
    decreases nals.len(),
{
    lemma_prefixed_first(nals);
    let tail = nals.drop_first();
    if k == 0 {
        assert(nals.take(0).map_values(|u: Seq<u8>| prefixed(u)) =~= Seq::<Seq<u8>>::empty());
        assert(prefixed_units(nals.take(0)) =~= Seq::<u8>::empty());
        assert(nals.skip(1) =~= tail);
        assert(prefixed_units(nals) =~= prefixed_units(nals.take(0)) + prefixed(nals[0])
            + prefixed_units(nals.skip(1)));
    } else {
        lemma_units_around(tail, k - 1);
        assert(nals.take(k).drop_first() =~= tail.take(k - 1));
        lemma_prefixed_first(nals.take(k));
        assert(tail.skip(k) =~= nals.skip(k + 1));
        assert(prefixed_units(nals) =~= prefixed_units(nals.take(k)) + prefixed(nals[k])
            + prefixed_units(nals.skip(k + 1)));
    }
}

} // verus!
