//! What divination finds on a tape: a keyframe and the slices behind it, how their numbers count,
//! and which guesses are put before the user.
use crate::bits::{bits_of, law_field_roundtrip, low_bits, read_bits, ue_code};
use crate::bytes::be32_bytes;
use crate::divine::{
    chain_of, counted_on, first_idr, following, frame_num_at, header_bits, lesser, long_count,
    long_count_from, qp_order, shown_from, slice_at, slice_opening, start_coded, Candidate, Count,
};
use crate::h264::unescaped;
use crate::streams::{prefixed, prefixed_units};
use crate::timing::lemma_three_codes;
use crate::walks::lemma_prefixed_first;
use vstd::arithmetic::power2::{lemma_pow2_pos, pow2};
use vstd::prelude::*;

verus! {

broadcast use crate::bytes::group_lengths;

// ---------------------------------------------------------------------------
// Slices
// ---------------------------------------------------------------------------

/// A slice, and what its header says.
pub struct Slice {
    pub nal: Seq<u8>,
    pub idr: bool,
    pub slice_type: nat,
    pub pps_id: nat,
    pub frame_num: nat,
    /// What follows frame_num in the first twelve bytes of the header.
    pub after: Seq<bool>,
}

/// A slice of at least `min` bytes that opens a picture, with frame_num in `width` bits: one of
/// an IDR picture is a reference and intra coded.
pub open spec fn opens(s: Slice, min: int, width: nat) -> bool {
    &&& 13 <= min <= s.nal.len() <= 0x80_0000
    &&& s.nal[0] < 128
    &&& s.idr ==> s.nal[0] % 32 == 5 && s.nal[0] >= 32 && (s.slice_type == 2 || s.slice_type == 4
        || s.slice_type == 7 || s.slice_type == 9)
    &&& !s.idr ==> s.nal[0] % 32 == 1 && s.slice_type <= 9
    &&& s.pps_id <= 3
    &&& width <= 64
    &&& s.frame_num < pow2(width)
    &&& bits_of(unescaped(s.nal.subrange(1, 13), 0)) == ue_code(0) + ue_code(s.slice_type)
        + ue_code(s.pps_id) + low_bits(s.frame_num, width) + s.after
}

/// The NAL units of slices.
pub open spec fn nals_in(s: Seq<Slice>) -> Seq<Seq<u8>> {
    s.map_values(|x: Slice| x.nal)
}

/// All of them are slices of at least `min` bytes that open pictures.
pub open spec fn all_open(s: Seq<Slice>, min: int, width: nat) -> bool {
    forall|i: int| 0 <= i < s.len() ==> opens(#[trigger] s[i], min, width)
}

proof fn lemma_codes_cut(x: Seq<bool>, num: Seq<bool>, after: Seq<bool>)
    ensures
        x + num + after == x + (num + after),
{
    assert(x + num + after =~= x + (num + after));
}

/// A slice on a tape is seen for what it is.
#[verifier::spinoff_prover]
proof fn lemma_slice_read(front: Seq<u8>, s: Slice, rest: Seq<u8>, min: int, width: nat)
    requires
        opens(s, min, width),
    ensures
        ({
            let d = front + prefixed(s.nal) + rest;
            let p = front.len() as int;
            let end = p + 4 + s.nal.len();
            &&& slice_at(d, p, min) == Some((end, s.idr))
            &&& frame_num_at(d, p, end, width) == Some(s.frame_num as int)
            &&& d.subrange(p + 4, end) == s.nal
            &&& p + 6 <= end <= d.len()
        }),
{
    let d = front + prefixed(s.nal) + rest;
    let p = front.len() as int;
    let end = p + 4 + s.nal.len();
    let len = be32_bytes(s.nal.len() as int);
    assert(d =~= front + len + (s.nal + rest));
    crate::bytes::lemma_be32_roundtrip(front, s.nal.len() as int, s.nal + rest);
    assert(d[p + 4] == s.nal[0]);
    assert(d.subrange(p + 4, end) =~= s.nal);
    assert(d.subrange(p + 5, p + 17) =~= s.nal.subrange(1, 13));
    assert(lesser(p + 17, d.len() as int) == p + 17);
    assert(lesser(p + 17, end) == p + 17);
    let bits = header_bits(d, p + 5, p + 17);
    let codes = ue_code(0) + ue_code(s.slice_type) + ue_code(s.pps_id);
    let num = low_bits(s.frame_num, width);
    lemma_codes_cut(codes, num, s.after);
    lemma_three_codes(0, s.slice_type, s.pps_id, num + s.after);
    law_field_roundtrip(codes, s.frame_num, width, s.after);
    assert(slice_opening(bits) == Some(
        (0int, s.slice_type as int, s.pps_id as int, codes.len() as int),
    ));
    assert(read_bits(bits, codes.len() as int, width) matches Some((v, _)) && v == s.frame_num);
}

proof fn lemma_first_slice(front: Seq<u8>, s: Seq<Slice>, rest: Seq<u8>)
    requires
        s.len() > 0,
    ensures
        ({
            let d = front + prefixed_units(nals_in(s)) + rest;
            let more = prefixed_units(nals_in(s.drop_first()));
            &&& d == front + prefixed(s[0].nal) + (more + rest)
            &&& d == (front + prefixed(s[0].nal)) + more + rest
        }),
{
    let more = prefixed_units(nals_in(s.drop_first()));
    assert(nals_in(s).drop_first() =~= nals_in(s.drop_first()));
    lemma_prefixed_first(nals_in(s));
    let d = front + prefixed_units(nals_in(s)) + rest;
    assert(nals_in(s)[0] == s[0].nal);
    assert(d =~= front + prefixed(s[0].nal) + (more + rest));
    assert(d =~= (front + prefixed(s[0].nal)) + more + rest);
}

// ---------------------------------------------------------------------------
// The evidence
// ---------------------------------------------------------------------------

proof fn lemma_following(
    front: Seq<u8>,
    s: Seq<Slice>,
    rest: Seq<u8>,
    left: nat,
    width: nat,
)
    requires
        all_open(s, 64, width),
        left <= s.len() || rest.len() == 0,
    ensures
        following(
            front + prefixed_units(nals_in(s)) + rest,
            front.len() as int,
            left,
        ) == if left <= s.len() {
            nals_in(s).take(left as int)
        } else {
            nals_in(s)
        },
    decreases s.len(),
{
    let d = front + prefixed_units(nals_in(s)) + rest;
    let p = front.len() as int;
    if left == 0 {
        assert(nals_in(s).take(0) =~= Seq::<Seq<u8>>::empty());
    } else if s.len() == 0 {
        assert(nals_in(s) =~= Seq::<Seq<u8>>::empty());
        assert(prefixed_units(nals_in(s)) =~= Seq::<u8>::empty());
        assert(d =~= front);
        assert(following(d, p, left) =~= nals_in(s));
    } else {
        let tail = s.drop_first();
        lemma_first_slice(front, s, rest);
        lemma_slice_read(front, s[0], prefixed_units(nals_in(tail)) + rest, 64, width);
        assert forall|i: int| 0 <= i < tail.len() implies opens(#[trigger] tail[i], 64, width) by {
            assert(tail[i] == s[i + 1]);
        }
        lemma_following(front + prefixed(s[0].nal), tail, rest, (left - 1) as nat, width);
        if left <= s.len() {
            assert(seq![s[0].nal] + nals_in(tail).take(left - 1) =~= nals_in(s).take(left as int));
        } else {
            assert(seq![s[0].nal] + nals_in(tail) =~= nals_in(s));
        }
    }
}

/// A keyframe of a thousand bytes is taken as it stands, and with it the six slices behind it,
/// or as many as there are.
pub proof fn law_a_keyframe_is_taken_with_six_slices(
    key: Slice,
    s: Seq<Slice>,
    rest: Seq<u8>,
    width: nat,
)
    requires
        key.idr,
        opens(key, 1000, width),
        all_open(s, 64, width),
        s.len() >= 6 || rest.len() == 0,
    ensures
        chain_of(prefixed(key.nal) + prefixed_units(nals_in(s)) + rest) == Some(
            (
                key.nal,
                if s.len() >= 6 {
                    nals_in(s).take(6)
                } else {
                    nals_in(s)
                },
            ),
        ),
{
    let none = Seq::<u8>::empty();
    let more = prefixed_units(nals_in(s));
    let d = prefixed(key.nal) + more + rest;
    assert(d =~= none + prefixed(key.nal) + (more + rest));
    lemma_slice_read(none, key, more + rest, 1000, width);
    assert(first_idr(d, 0) == Some((0int, prefixed(key.nal).len() as int)));
    lemma_following(prefixed(key.nal), s, rest, 6, width);
}

// ---------------------------------------------------------------------------
// The long count
// ---------------------------------------------------------------------------

/// A slice that the count is asked of: one of an IDR picture, or one behind a slice of which
/// the number can be gone by.
pub open spec fn asked(s: Seq<Slice>, k: int) -> bool {
    s[k].idr || k > 0 && (s[k - 1].idr ==> s[k - 1].frame_num == 0)
}

/// A slice of which the number is as it should be: zero in an IDR picture, else that of the
/// slice before it or the next one, and zero behind the last number that `width` bits hold.
pub open spec fn in_turn(s: Seq<Slice>, k: int, width: nat) -> bool {
    if s[k].idr {
        s[k].frame_num == 0
    } else {
        ||| s[k].frame_num == s[k - 1].frame_num
        ||| s[k].frame_num == s[k - 1].frame_num + 1
        ||| s[k].frame_num == 0 && s[k - 1].frame_num == pow2(width) - 1
    }
}

/// The first `n` places.
pub open spec fn places(n: int) -> Seq<int> {
    Seq::new(n as nat, |k: int| k)
}

/// How many of the first `n` slices the count is asked of.
pub open spec fn times_asked(s: Seq<Slice>, n: int) -> nat {
    places(n).filter(|k: int| asked(s, k)).len()
}

/// How many of the first `n` slices the count is asked of and is in turn.
pub open spec fn times_in_turn(s: Seq<Slice>, n: int, width: nat) -> nat {
    places(n).filter(|k: int| asked(s, k) && in_turn(s, k, width)).len()
}

proof fn lemma_one_more(s: Seq<Slice>, n: int, width: nat)
    requires
        0 <= n,
    ensures
        times_asked(s, 0) == 0,
        times_in_turn(s, 0, width) == 0,
        times_asked(s, n + 1) == times_asked(s, n) + if asked(s, n) {
            1nat
        } else {
            0
        },
        times_in_turn(s, n + 1, width) == times_in_turn(s, n, width) + if asked(s, n) && in_turn(
            s,
            n,
            width,
        ) {
            1nat
        } else {
            0
        },
{
    reveal(Seq::filter);
    assert(places(n + 1).drop_last() =~= places(n));
    assert(places(n + 1).last() == n);
}

/// The count once `k` slices have been seen.
pub open spec fn count_at(s: Seq<Slice>, k: int, width: nat) -> Count {
    Count {
        ok: times_in_turn(s, k, width) as int,
        tot: times_asked(s, k) as int,
        prev: if k <= 0 || s[k - 1].idr && s[k - 1].frame_num != 0 {
            None
        } else {
            Some(s[k - 1].frame_num as int)
        },
    }
}

proof fn lemma_counted(s: Seq<Slice>, k: int, width: nat)
    requires
        0 <= k < s.len(),
        forall|i: int| 0 <= i < s.len() ==> (#[trigger] s[i]).frame_num < pow2(width),
    ensures
        counted_on(count_at(s, k, width), s[k].idr, s[k].frame_num as int, pow2(width) as int)
            == count_at(s, k + 1, width),
{
    lemma_one_more(s, k, width);
    lemma_pow2_pos(width);
    let m = pow2(width) as int;
    if k > 0 {
        let x = s[k - 1].frame_num as int;
        if x + 1 < m {
            vstd::arithmetic::div_mod::lemma_small_mod((x + 1) as nat, m as nat);
        } else {
            assert(x + 1 == m);
            vstd::arithmetic::div_mod::lemma_mod_self_0(m);
        }
    }
}

proof fn lemma_tape(front: Seq<u8>, s: Seq<Slice>, k: int, width: nat)
    requires
        0 <= k <= s.len(),
        k <= 400,
        all_open(s, 200, width),
    ensures
        long_count_from(
            front + prefixed_units(nals_in(s.skip(k))),
            front.len() as int,
            width,
            (400 - k) as nat,
            count_at(s, k, width),
        ) == count_at(
            s,
            if s.len() <= 400 {
                s.len() as int
            } else {
                400
            },
            width,
        ),
    decreases s.len() - k,
{
    let here = s.skip(k);
    let none = Seq::<u8>::empty();
    let d = front + prefixed_units(nals_in(here));
    if k == s.len() {
        assert(nals_in(here) =~= Seq::<Seq<u8>>::empty());
        assert(prefixed_units(nals_in(here)) =~= none);
        assert(d =~= front);
    } else if k < 400 {
        assert(d =~= d + none);
        assert(here[0] == s[k]);
        lemma_first_slice(front, here, none);
        assert(here.drop_first() =~= s.skip(k + 1));
        let more = prefixed_units(nals_in(s.skip(k + 1)));
        lemma_slice_read(front, s[k], more + none, 200, width);
        assert forall|i: int| 0 <= i < s.len() implies (#[trigger] s[i]).frame_num < pow2(width) by {
            assert(opens(s[i], 200, width));
        }
        lemma_counted(s, k, width);
        assert((front + prefixed(s[k].nal)) + more + none =~= (front + prefixed(s[k].nal)) + more);
        lemma_tape(front + prefixed(s[k].nal), s, k + 1, width);
    }
}

/// A tape is counted slice by slice, four hundred at most: as often as a slice can be asked, and
/// as often as its number is in turn.
pub proof fn law_tapes_are_counted(s: Seq<Slice>, width: nat)
    requires
        all_open(s, 200, width),
    ensures
        ({
            let n = if s.len() <= 400 {
                s.len() as int
            } else {
                400
            };
            let c = long_count(prefixed_units(nals_in(s)), width);
            &&& c.tot == times_asked(s, n)
            &&& c.ok == times_in_turn(s, n, width)
        }),
{
    let none = Seq::<u8>::empty();
    assert(s.skip(0) =~= s);
    lemma_one_more(s, 0, width);
    lemma_tape(none, s, 0, width);
    assert(none + prefixed_units(nals_in(s)) =~= prefixed_units(nals_in(s)));
}

// ---------------------------------------------------------------------------
// Seeds, streams and what is shown
// ---------------------------------------------------------------------------

/// How far a seed is from the middle.
pub open spec fn from_middle(q: i64) -> int {
    if q < 26 {
        26 - q
    } else {
        q - 26
    }
}

/// Seeds are tried from the middle outward, the lower of two first, as far as sixteen off.
pub proof fn law_seeds_go_outward(i: int, j: int, q: i64)
    ensures
        0 <= i < j < qp_order().len() ==> from_middle(qp_order()[i]) < from_middle(qp_order()[j])
            || from_middle(qp_order()[i]) == from_middle(qp_order()[j]) && qp_order()[i]
            < qp_order()[j],
        qp_order().contains(q) <==> from_middle(q) <= 16,
{
    if from_middle(q) <= 16 {
        let k: int = if q < 26 {
            2 * (26 - q) - 1
        } else {
            2 * (q - 26)
        };
        assert(qp_order()[k] == q);
    }
    if qp_order().contains(q) {
        let k = choose|k: int| 0 <= k < qp_order().len() && qp_order()[k] == q;
        assert(qp_order()[k] == crate::divine::qp_at(k));
    }
}

/// A stream of NAL units: each stands behind a start code of its own, and streams follow one
/// another as their units do.
pub proof fn law_units_stand_behind_start_codes(a: Seq<Seq<u8>>, b: Seq<Seq<u8>>, nal: Seq<u8>)
    ensures
        start_coded(Seq::<Seq<u8>>::empty()) == Seq::<u8>::empty(),
        start_coded(seq![nal]) == seq![0u8, 0, 0, 1] + nal,
        start_coded(a + b) == start_coded(a) + start_coded(b),
    decreases b.len(),
{
    reveal_with_fuel(start_coded, 2);
    assert(seq![nal].drop_last() =~= Seq::<Seq<u8>>::empty());
    assert(start_coded(seq![nal]) =~= seq![0u8, 0, 0, 1] + nal);
    if b.len() == 0 {
        assert(a + b =~= a);
        assert(start_coded(a) + start_coded(b) =~= start_coded(a));
    } else {
        law_units_stand_behind_start_codes(a, b.drop_last(), nal);
        assert((a + b).drop_last() =~= a + b.drop_last());
        assert((a + b).last() == b.last());
        assert(start_coded(a + b) =~= start_coded(a) + start_coded(b));
    }
}

/// One of those picked, no later than the `j`th candidate, reads as it does.
pub open spec fn said(c: Seq<Candidate>, picked: Seq<int>, j: int) -> bool {
    exists|k: int|
        0 <= k < picked.len() && #[trigger] picked[k] <= j && c[picked[k]].words() == c[j].words()
}

/// Candidates before the `i`th, of which no two read the same and none is left out that reads
/// otherwise than all before it.
pub open spec fn differ_in_words(c: Seq<Candidate>, picked: Seq<int>, i: int) -> bool {
    &&& forall|k: int| 0 <= k < picked.len() ==> 0 <= #[trigger] picked[k] < i
    &&& forall|k: int, l: int|
        0 <= k < l < picked.len() ==> #[trigger] picked[k] < #[trigger] picked[l]
            && c[picked[k]].words() != c[picked[l]].words()
    &&& forall|j: int| 0 <= j < i ==> #[trigger] said(c, picked, j)
}

proof fn lemma_said_again(c: Seq<Candidate>, i: int, picked: Seq<int>)
    requires
        0 <= i < c.len(),
        differ_in_words(c, picked, i),
        exists|k: int| 0 <= k < picked.len() && c[#[trigger] picked[k]].words() == c[i].words(),
    ensures
        differ_in_words(c, picked, i + 1),
{
    let k = choose|k: int|
        0 <= k < picked.len() && c[#[trigger] picked[k]].words() == c[i].words();
    assert(picked[k] < i);
    assert(said(c, picked, i));
}

proof fn lemma_said_first(c: Seq<Candidate>, i: int, picked: Seq<int>)
    requires
        0 <= i < c.len(),
        differ_in_words(c, picked, i),
        !exists|k: int| 0 <= k < picked.len() && c[#[trigger] picked[k]].words() == c[i].words(),
    ensures
        differ_in_words(c, picked.push(i), i + 1),
{
    let more = picked.push(i);
    assert forall|j: int| 0 <= j < i + 1 implies #[trigger] said(c, more, j) by {
        if j == i {
            assert(more[picked.len() as int] == i);
        } else {
            assert(said(c, picked, j));
            let k = choose|k: int|
                0 <= k < picked.len() && #[trigger] picked[k] <= j && c[picked[k]].words()
                    == c[j].words();
            assert(more[k] == picked[k]);
        }
    }
    assert forall|k: int, l: int| 0 <= k < l < more.len() implies #[trigger] more[k]
        < #[trigger] more[l] && c[more[k]].words() != c[more[l]].words() by {
        assert(more[k] == picked[k]);
        if l < picked.len() {
            assert(more[l] == picked[l]);
        }
    }
}

proof fn lemma_shown(c: Seq<Candidate>, i: int, picked: Seq<int>)
    requires
        0 <= i <= c.len(),
        differ_in_words(c, picked, i),
        picked.len() <= 5,
    ensures
        ({
            let r = shown_from(c, i, picked);
            &&& r.len() <= 5
            &&& r.len() < 5 ==> differ_in_words(c, r, c.len() as int)
            &&& r.len() == 5 ==> exists|n: int|
                0 <= n <= c.len() && #[trigger] differ_in_words(c, r, n)
        }),
    decreases c.len() - i,
{
    if i >= c.len() || picked.len() >= 5 {
        assert(differ_in_words(c, picked, i));
    } else if exists|k: int| 0 <= k < picked.len() && c[#[trigger] picked[k]].words()
        == c[i].words() {
        lemma_said_again(c, i, picked);
        lemma_shown(c, i + 1, picked);
    } else {
        lemma_said_first(c, i, picked);
        lemma_shown(c, i + 1, picked.push(i));
    }
}

/// Of the candidates, in order, those are shown that read otherwise than all before them: the
/// first five, or as many as there are.
pub proof fn law_five_that_differ_are_shown(c: Seq<Candidate>)
    ensures
        ({
            let r = shown_from(c, 0, seq![]);
            &&& r.len() <= 5
            &&& r.len() < 5 ==> differ_in_words(c, r, c.len() as int)
            &&& r.len() == 5 ==> exists|n: int|
                0 <= n <= c.len() && #[trigger] differ_in_words(c, r, n)
        }),
{
    lemma_shown(c, 0, seq![]);
}

} // verus!
