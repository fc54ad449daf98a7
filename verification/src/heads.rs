//! What a synthesized Matroska head says when it is read: an element reader that knows
//! nothing but IDs and sizes finds the document type, the timecode scale and every track
//! with its codec; and what a keyframe or a packet says of its track before that.
use crate::bits::{bits_of, bits_value, lemma_low_bits, low_bits};
use crate::ebml::{
    be_bytes, be_value, byte_length, canonical_id, el_bytes, element_at, law_element_roundtrip,
    law_uint_payload, lemma_el_length, lemma_uint_length, ElementSpan, VINT_LIMIT,
};
use crate::matroska::{doctype_of, entries, head_bytes, header_payload, info_payload, TrackShape};
use crate::mkv_codecs::{
    field, first_vp9, looks_like_opus, opus_head_bytes, sniffed, synthesizable, track_entry_bytes,
    vp9_size, CodecShape,
};
use crate::streams::run_together;
use vstd::arithmetic::power2::{lemma2_to64, pow2};
use vstd::prelude::*;

verus! {

// ---------------------------------------------------------------------------
// Reading elements
// ---------------------------------------------------------------------------

/// The payload of the first element with the given ID, of those from `pos` on.
#[verifier::opaque]
pub open spec fn under_from(d: Seq<u8>, pos: int, id: int) -> Option<Seq<u8>>
    decreases d.len() - pos,
{
    match element_at(d, pos) {
        Some(ElementSpan { id: here, size: Some(n), header_len, data_pos }) => {
            let end = data_pos + n;
            if end > d.len() || end <= pos {
                None
            } else if here == id {
                Some(d.subrange(data_pos, end))
            } else {
                under_from(d, end, id)
            }
        },
        _ => None,
    }
}

/// The payload of the first element with the given ID.
pub open spec fn under(d: Seq<u8>, id: int) -> Option<Seq<u8>> {
    under_from(d, 0, id)
}

/// Whether the first element with the given ID holds the number `v`.
pub open spec fn says(d: Seq<u8>, id: int, v: int) -> bool {
    under(d, id) matches Some(p) && be_value(p) == v
}

/// Elements, one behind the other.
pub open spec fn elements(list: Seq<(u32, Seq<u8>)>) -> Seq<u8>
    decreases list.len(),
{
    if list.len() == 0 {
        seq![]
    } else {
        el_bytes(list[0].0, list[0].1) + elements(list.drop_first())
    }
}

/// The payload of the first of the elements that has the given ID.
pub open spec fn first_payload(list: Seq<(u32, Seq<u8>)>, id: int) -> Option<Seq<u8>>
    decreases list.len(),
{
    if list.len() == 0 {
        None
    } else if list[0].0 == id {
        Some(list[0].1)
    } else {
        first_payload(list.drop_first(), id)
    }
}

/// Elements that can be written: canonical IDs, and sizes that have a vint.
pub open spec fn writable(list: Seq<(u32, Seq<u8>)>) -> bool {
    forall|i: int|
        0 <= i < list.len() ==> canonical_id((#[trigger] list[i]).0 as int) && list[i].1.len()
            < VINT_LIMIT
}

proof fn lemma_under(before: Seq<u8>, list: Seq<(u32, Seq<u8>)>, id: int)
    requires
        writable(list),
    ensures
        under_from(before + elements(list), before.len() as int, id) == first_payload(list, id),
    decreases list.len(),
{
    reveal_with_fuel(under_from, 2);
    let d = before + elements(list);
    let p = before.len() as int;
    if list.len() == 0 {
        assert(d =~= before);
    } else {
        let (here, payload) = list[0];
        let e = el_bytes(here, payload);
        let tail = list.drop_first();
        let rest = elements(tail);
        law_element_roundtrip(before, here, payload, rest);
        assert(d =~= before + e + rest);
        assert forall|i: int| 0 <= i < tail.len() implies canonical_id(
            (#[trigger] tail[i]).0 as int,
        ) && tail[i].1.len() < VINT_LIMIT by {
            assert(tail[i] == list[i + 1]);
        }
        assert(d =~= (before + e) + rest);
        lemma_under(before + e, tail, id);
    }
}

/// Elements that were written are found by their IDs, the first of each.
pub proof fn law_elements_are_found(list: Seq<(u32, Seq<u8>)>, id: int)
    requires
        writable(list),
    ensures
        under(elements(list), id) == first_payload(list, id),
{
    let none = Seq::<u8>::empty();
    assert(none + elements(list) =~= elements(list));
    lemma_under(none, list, id);
}

/// Elements are their bytes, one behind the other.
proof fn lemma_elements_are(list: Seq<(u32, Seq<u8>)>, bytes: Seq<Seq<u8>>)
    requires
        list.len() == bytes.len(),
        forall|i: int| 0 <= i < list.len() ==> #[trigger] bytes[i] == el_bytes(list[i].0, list[i].1),
    ensures
        elements(list) == run_together(bytes),
    decreases list.len(),
{
    if list.len() > 0 {
        let a = list.drop_first();
        let b = bytes.drop_first();
        assert forall|i: int| 0 <= i < a.len() implies #[trigger] b[i] == el_bytes(a[i].0, a[i].1) by {
            assert(b[i] == bytes[i + 1]);
        }
        lemma_elements_are(a, b);
    }
}

/// Five byte strings, one behind the other.
proof fn lemma_five(a: Seq<u8>, b: Seq<u8>, c: Seq<u8>, d: Seq<u8>, e: Seq<u8>)
    ensures
        run_together(seq![a, b, c, d, e]) == a + b + (c + d + e),
{
    reveal_with_fuel(run_together, 6);
    let s = seq![a, b, c, d, e];
    assert(s.drop_first() =~= seq![b, c, d, e]);
    assert(seq![b, c, d, e].drop_first() =~= seq![c, d, e]);
    assert(seq![c, d, e].drop_first() =~= seq![d, e]);
    assert(seq![d, e].drop_first() =~= seq![e]);
    assert(seq![e].drop_first() =~= Seq::<Seq<u8>>::empty());
    assert(run_together(s) =~= a + b + (c + d + e));
}

/// Six byte strings, one behind the other.
proof fn lemma_six(a: Seq<u8>, b: Seq<u8>, c: Seq<u8>, d: Seq<u8>, e: Seq<u8>, f: Seq<u8>)
    ensures
        run_together(seq![a, b, c, d, e, f]) == a + b + (c + d + e + f),
{
    let s = seq![a, b, c, d, e, f];
    assert(s.drop_first() =~= seq![b, c, d, e, f]);
    lemma_five(b, c, d, e, f);
    assert(run_together(s) =~= a + b + (c + d + e + f));
}

/// Seven byte strings, one behind the other.
proof fn lemma_seven(
    a: Seq<u8>,
    b: Seq<u8>,
    c: Seq<u8>,
    d: Seq<u8>,
    e: Seq<u8>,
    f: Seq<u8>,
    g: Seq<u8>,
)
    ensures
        run_together(seq![a, b, c, d, e, f, g]) == a + b + c + d + e + f + g,
{
    let s = seq![a, b, c, d, e, f, g];
    assert(s.drop_first() =~= seq![b, c, d, e, f, g]);
    lemma_six(b, c, d, e, f, g);
    assert(run_together(s) =~= a + b + c + d + e + f + g);
}

/// A number as the payload of an element.
spec fn number(v: nat) -> Seq<u8> {
    be_bytes(v, byte_length(v))
}

proof fn lemma_number(v: nat)
    requires
        v <= u64::MAX,
    ensures
        be_value(number(v)) == v,
        number(v).len() <= 20,
{
    law_uint_payload(v);
    lemma_uint_length(0xd7, v);
}

// ---------------------------------------------------------------------------
// Track entries
// ---------------------------------------------------------------------------

/// The payload of a track entry says that the track is VP9 video of the given size.
pub open spec fn entry_says_vp9(entry: Seq<u8>, width: int, height: int) -> bool {
    &&& says(entry, 0x83, 1)
    &&& under(entry, 0x86) == Some(seq![0x56u8, 0x5f, 0x56, 0x50, 0x39])
    &&& under(entry, 0xe0) matches Some(video) && says(video, 0xb0, width) && says(
        video,
        0xba,
        height,
    )
}

/// The payload of a track entry says that the track is Opus at 48 kHz with that many
/// channels: in the audio settings, and in the 19-byte identification header.
pub open spec fn entry_says_opus(entry: Seq<u8>, channels: int) -> bool {
    &&& says(entry, 0x83, 2)
    &&& under(entry, 0x86) == Some(seq![0x41u8, 0x5f, 0x4f, 0x50, 0x55, 0x53])
    &&& under(entry, 0xe1) matches Some(audio) && says(audio, 0x9f, channels) && (under(
        audio,
        0xb5,
    ) matches Some(rate) && rate.len() == 4 && be_value(rate) == 0x473b_8000)
    &&& under(entry, 0x63a2) matches Some(head) && head.len() == 19 && head.take(8) == seq![
        0x4fu8,
        0x70,
        0x75,
        0x73,
        0x48,
        0x65,
        0x61,
        0x64,
    ] && head[8] == 1 && head[9] == channels && head[10] + 256 * head[11] == 3840 && head[12] + 256
        * head[13] + 65536 * head[14] + 16777216 * head[15] == 48000 && head[16] == 0 && head[17] == 0
        && head[18] == 0
}

/// The payload of a track entry says what is known of a track.
pub open spec fn entry_says(entry: Seq<u8>, track: TrackShape) -> bool {
    &&& says(entry, 0xd7, track.number)
    &&& says(entry, 0x73c5, track.number)
    &&& track.codec matches CodecShape::Vp9 { width, height } ==> entry_says_vp9(
        entry,
        width,
        height,
    )
    &&& track.codec matches CodecShape::Opus { channels } ==> entry_says_opus(entry, channels)
}

/// A track that an entry can describe.
pub open spec fn describable_track(t: TrackShape) -> bool {
    &&& 0 <= t.number <= u64::MAX
    &&& match t.codec {
        CodecShape::Vp9 { width, height } => 0 <= width <= u32::MAX && 0 <= height <= u32::MAX,
        CodecShape::Opus { channels } => 0 <= channels < 256,
        _ => false,
    }
}

/// The parts of a VP9 track entry.
spec fn vp9_parts(n: nat, width: nat, height: nat) -> Seq<(u32, Seq<u8>)> {
    seq![
        (0xd7u32, number(n)),
        (0x73c5u32, number(n)),
        (0x83u32, number(1)),
        (0x86u32, seq![0x56u8, 0x5f, 0x56, 0x50, 0x39]),
        (
            0xe0u32,
            elements(seq![(0xb0u32, number(width)), (0xbau32, number(height))]),
        ),
    ]
}

/// The parts of an Opus track entry.
spec fn opus_parts(n: nat, channels: u8) -> Seq<(u32, Seq<u8>)> {
    seq![
        (0xd7u32, number(n)),
        (0x73c5u32, number(n)),
        (0x83u32, number(2)),
        (0x86u32, seq![0x41u8, 0x5f, 0x4f, 0x50, 0x55, 0x53]),
        (0x63a2u32, opus_head_bytes(channels)),
        (
            0xe1u32,
            elements(
                seq![
                    (0xb5u32, be_bytes(0x473b_8000, 4)),
                    (0x9fu32, number(channels as nat)),
                ],
            ),
        ),
    ]
}

proof fn lemma_two_elements(a: (u32, Seq<u8>), b: (u32, Seq<u8>))
    requires
        a.1.len() <= 20,
        b.1.len() <= 20,
        canonical_id(a.0 as int),
        canonical_id(b.0 as int),
        a.0 != b.0,
    ensures
        elements(seq![a, b]) == el_bytes(a.0, a.1) + el_bytes(b.0, b.1),
        under(elements(seq![a, b]), a.0 as int) == Some(a.1),
        under(elements(seq![a, b]), b.0 as int) == Some(b.1),
        elements(seq![a, b]).len() <= 100,
{
    let list = seq![a, b];
    reveal_with_fuel(elements, 3);
    reveal_with_fuel(first_payload, 3);
    assert(list.drop_first() =~= seq![b]);
    assert(list.drop_first().drop_first() =~= Seq::<(u32, Seq<u8>)>::empty());
    assert(elements(list) =~= el_bytes(a.0, a.1) + el_bytes(b.0, b.1));
    law_elements_are_found(list, a.0 as int);
    law_elements_are_found(list, b.0 as int);
    lemma_el_length(a.0, a.1);
    lemma_el_length(b.0, b.1);
}

#[verifier::spinoff_prover]
proof fn lemma_vp9_entry(n: nat, width: nat, height: nat)
    requires
        n <= u64::MAX,
        width <= u32::MAX,
        height <= u32::MAX,
    ensures
        ({
            let entry = elements(vp9_parts(n, width, height));
            &&& track_entry_bytes(
                n,
                CodecShape::Vp9 { width: width as int, height: height as int },
            ) == el_bytes(0xae, entry)
            &&& says(entry, 0xd7, n as int)
            &&& says(entry, 0x73c5, n as int)
            &&& entry_says_vp9(entry, width as int, height as int)
            &&& entry.len() <= 300
        }),
{
    let parts = vp9_parts(n, width, height);
    let entry = elements(parts);
    let video = elements(seq![(0xb0u32, number(width)), (0xbau32, number(height))]);
    lemma_number(n);
    lemma_number(1);
    lemma_number(width);
    lemma_number(height);
    lemma_two_elements((0xb0u32, number(width)), (0xbau32, number(height)));
    assert(writable(parts));
    reveal_with_fuel(first_payload, 6);
    let none = Seq::<(u32, Seq<u8>)>::empty();
    assert(parts.drop_first() =~= seq![parts[1], parts[2], parts[3], parts[4]]);
    assert(parts.drop_first().drop_first() =~= seq![parts[2], parts[3], parts[4]]);
    assert(parts.drop_first().drop_first().drop_first() =~= seq![parts[3], parts[4]]);
    assert(parts.drop_first().drop_first().drop_first().drop_first() =~= seq![parts[4]]);
    assert(parts.drop_first().drop_first().drop_first().drop_first().drop_first() =~= none);
    law_elements_are_found(parts, 0xd7);
    law_elements_are_found(parts, 0x73c5);
    law_elements_are_found(parts, 0x83);
    law_elements_are_found(parts, 0x86);
    law_elements_are_found(parts, 0xe0);
    lemma_el_length(0xd7, number(n));
    lemma_el_length(0x73c5, number(n));
    lemma_el_length(0x83, number(1));
    lemma_el_length(0x86, parts[3].1);
    lemma_el_length(0xe0, video);
    assert(crate::mkv_codecs::V_VP9@ =~= parts[3].1);
    let (a, b, c, d, e) = (
        el_bytes(0xd7, number(n)),
        el_bytes(0x73c5, number(n)),
        el_bytes(0x83, number(1)),
        el_bytes(0x86, parts[3].1),
        el_bytes(0xe0, video),
    );
    lemma_elements_are(parts, seq![a, b, c, d, e]);
    lemma_five(a, b, c, d, e);
}

#[verifier::spinoff_prover]
proof fn lemma_opus_entry(n: nat, channels: u8)
    requires
        n <= u64::MAX,
    ensures
        ({
            let entry = elements(opus_parts(n, channels));
            &&& track_entry_bytes(n, CodecShape::Opus { channels: channels as int }) == el_bytes(
                0xae,
                entry,
            )
            &&& says(entry, 0xd7, n as int)
            &&& says(entry, 0x73c5, n as int)
            &&& entry_says_opus(entry, channels as int)
            &&& entry.len() <= 300
        }),
{
    let parts = opus_parts(n, channels);
    let entry = elements(parts);
    let rate = be_bytes(0x473b_8000, 4);
    let audio = elements(seq![(0xb5u32, rate), (0x9fu32, number(channels as nat))]);
    let head = opus_head_bytes(channels);
    lemma_number(n);
    lemma_number(2);
    lemma_number(channels as nat);
    lemma_rate_payload();
    lemma_two_elements((0xb5u32, rate), (0x9fu32, number(channels as nat)));
    assert(head.take(8) =~= seq![0x4fu8, 0x70, 0x75, 0x73, 0x48, 0x65, 0x61, 0x64]);
    assert(writable(parts));
    reveal_with_fuel(first_payload, 7);
    let none = Seq::<(u32, Seq<u8>)>::empty();
    assert(parts.drop_first() =~= seq![parts[1], parts[2], parts[3], parts[4], parts[5]]);
    assert(parts.drop_first().drop_first() =~= seq![parts[2], parts[3], parts[4], parts[5]]);
    assert(parts.drop_first().drop_first().drop_first() =~= seq![parts[3], parts[4], parts[5]]);
    assert(parts.drop_first().drop_first().drop_first().drop_first() =~= seq![parts[4], parts[5]]);
    assert(parts.drop_first().drop_first().drop_first().drop_first().drop_first() =~= seq![
        parts[5],
    ]);
    assert(parts.drop_first().drop_first().drop_first().drop_first().drop_first().drop_first()
        =~= none);
    law_elements_are_found(parts, 0xd7);
    law_elements_are_found(parts, 0x73c5);
    law_elements_are_found(parts, 0x83);
    law_elements_are_found(parts, 0x86);
    law_elements_are_found(parts, 0x63a2);
    law_elements_are_found(parts, 0xe1);
    lemma_el_length(0xd7, number(n));
    lemma_el_length(0x73c5, number(n));
    lemma_el_length(0x83, number(2));
    lemma_el_length(0x86, parts[3].1);
    lemma_el_length(0x63a2, head);
    lemma_el_length(0xe1, audio);
    assert(crate::mkv_codecs::A_OPUS@ =~= parts[3].1);
    let (a, b, c, d, e, f) = (
        el_bytes(0xd7, number(n)),
        el_bytes(0x73c5, number(n)),
        el_bytes(0x83, number(2)),
        el_bytes(0x86, parts[3].1),
        el_bytes(0x63a2, head),
        el_bytes(0xe1, audio),
    );
    lemma_elements_are(parts, seq![a, b, c, d, e, f]);
    lemma_six(a, b, c, d, e, f);
}

proof fn lemma_rate_payload()
    ensures
        be_bytes(0x473b_8000, 4).len() == 4,
        be_value(be_bytes(0x473b_8000, 4)) == 0x473b_8000,
{
    law_uint_payload(0x473b_8000);
    reveal_with_fuel(byte_length, 5);
}

/// A track entry reads back: its payload names the track's number, its codec, and the frame
/// size of video or the channels of audio, each under its own ID.
pub proof fn law_track_entry_reads_back(track: TrackShape)
    requires
        describable_track(track),
    ensures
        under(track_entry_bytes(track.number as nat, track.codec), 0xae) matches Some(entry)
            && entry_says(entry, track),
        track_entry_bytes(track.number as nat, track.codec).len() <= 400,
{
    let n = track.number as nat;
    let entry = match track.codec {
        CodecShape::Vp9 { width, height } => {
            lemma_vp9_entry(n, width as nat, height as nat);
            elements(vp9_parts(n, width as nat, height as nat))
        },
        CodecShape::Opus { channels } => {
            lemma_opus_entry(n, channels as u8);
            elements(opus_parts(n, channels as u8))
        },
        _ => seq![],
    };
    lemma_alone(0xae, entry);
    lemma_el_length(0xae, entry);
}

proof fn lemma_alone(id: u32, payload: Seq<u8>)
    requires
        canonical_id(id as int),
        payload.len() < VINT_LIMIT,
    ensures
        under(el_bytes(id, payload), id as int) == Some(payload),
{
    let list = seq![(id, payload)];
    reveal_with_fuel(elements, 2);
    reveal_with_fuel(first_payload, 2);
    assert(list.drop_first() =~= Seq::<(u32, Seq<u8>)>::empty());
    assert(elements(list) =~= el_bytes(id, payload));
    law_elements_are_found(list, id as int);
}

// ---------------------------------------------------------------------------
// The head
// ---------------------------------------------------------------------------

/// The payload of the `k`th element.
#[verifier::opaque]
pub open spec fn nth_payload(d: Seq<u8>, pos: int, k: int) -> Option<(int, Seq<u8>)>
    decreases k,
{
    match element_at(d, pos) {
        Some(ElementSpan { id, size: Some(n), header_len, data_pos }) => {
            if data_pos + n > d.len() || k < 0 {
                None
            } else if k == 0 {
                Some((id, d.subrange(data_pos, data_pos + n)))
            } else {
                nth_payload(d, data_pos + n, k - 1)
            }
        },
        _ => None,
    }
}

/// The payload of a track entry.
spec fn entry_payload(t: TrackShape) -> Seq<u8> {
    match t.codec {
        CodecShape::Vp9 { width, height } => elements(
            vp9_parts(t.number as nat, width as nat, height as nat),
        ),
        CodecShape::Opus { channels } => elements(opus_parts(t.number as nat, channels as u8)),
        _ => seq![],
    }
}

proof fn lemma_entry_payload(t: TrackShape)
    requires
        describable_track(t),
    ensures
        track_entry_bytes(t.number as nat, t.codec) == el_bytes(0xae, entry_payload(t)),
        entry_says(entry_payload(t), t),
        entry_payload(t).len() <= 300,
{
    match t.codec {
        CodecShape::Vp9 { width, height } => {
            lemma_vp9_entry(t.number as nat, width as nat, height as nat);
        },
        CodecShape::Opus { channels } => {
            lemma_opus_entry(t.number as nat, channels as u8);
        },
        _ => {},
    }
}

spec fn all_describable(tracks: Seq<TrackShape>) -> bool {
    forall|i: int| 0 <= i < tracks.len() ==> describable_track(#[trigger] tracks[i])
}

proof fn lemma_entries_first(tracks: Seq<TrackShape>)
    requires
        tracks.len() > 0,
    ensures
        entries(tracks) == track_entry_bytes(tracks[0].number as nat, tracks[0].codec) + entries(
            tracks.drop_first(),
        ),
    decreases tracks.len(),
{
    let head = tracks.drop_last();
    if tracks.len() == 1 {
        assert(head =~= Seq::<TrackShape>::empty());
        assert(tracks.drop_first() =~= Seq::<TrackShape>::empty());
        assert(entries(tracks) =~= track_entry_bytes(tracks[0].number as nat, tracks[0].codec)
            + entries(tracks.drop_first()));
    } else {
        lemma_entries_first(head);
        assert(tracks.drop_first().drop_last() =~= head.drop_first());
        assert(tracks.drop_first().last() == tracks.last());
        assert(entries(tracks) =~= track_entry_bytes(tracks[0].number as nat, tracks[0].codec)
            + entries(tracks.drop_first()));
    }
}

proof fn lemma_nth_step(
    d: Seq<u8>,
    before: Seq<u8>,
    e: Seq<u8>,
    id: u32,
    payload: Seq<u8>,
    after: Seq<u8>,
    k: int,
)
    requires
        canonical_id(id as int),
        payload.len() < VINT_LIMIT,
        e == el_bytes(id, payload),
        d == before + e + after,
        k >= 0,
    ensures
        nth_payload(d, before.len() as int, k) == if k == 0 {
            Some((id as int, payload))
        } else {
            nth_payload(d, (before + e).len() as int, k - 1)
        },
{
    reveal_with_fuel(nth_payload, 2);
    law_element_roundtrip(before, id, payload, after);
}

proof fn lemma_under_step(
    d: Seq<u8>,
    before: Seq<u8>,
    e: Seq<u8>,
    here: u32,
    payload: Seq<u8>,
    after: Seq<u8>,
    id: int,
)
    requires
        canonical_id(here as int),
        payload.len() < VINT_LIMIT,
        e == el_bytes(here, payload),
        d == before + e + after,
    ensures
        under_from(d, before.len() as int, id) == if id == here {
            Some(payload)
        } else {
            under_from(d, (before + e).len() as int, id)
        },
{
    reveal_with_fuel(under_from, 2);
    law_element_roundtrip(before, here, payload, after);
}

proof fn lemma_nth_entry(before: Seq<u8>, tracks: Seq<TrackShape>, k: int)
    requires
        all_describable(tracks),
        0 <= k < tracks.len(),
    ensures
        nth_payload(before + entries(tracks), before.len() as int, k) == Some(
            (0xaeint, entry_payload(tracks[k])),
        ),
    decreases k,
{
    let t = tracks[0];
    let e = el_bytes(0xae, entry_payload(t));
    let tail = tracks.drop_first();
    let rest = entries(tail);
    let d = before + entries(tracks);
    lemma_entry_payload(t);
    lemma_entries_first(tracks);
    lemma_shift(before, e, rest);
    lemma_nth_step(d, before, e, 0xae, entry_payload(t), rest, k);
    if k > 0 {
        assert forall|i: int| 0 <= i < tail.len() implies describable_track(#[trigger] tail[i]) by {
            assert(tail[i] == tracks[i + 1]);
        }
        lemma_nth_entry(before + e, tail, k - 1);
    }
}

proof fn lemma_shift(a: Seq<u8>, b: Seq<u8>, c: Seq<u8>)
    ensures
        a + (b + c) == a + b + c,
{
    assert(a + (b + c) =~= a + b + c);
}

/// The Tracks element lists the tracks in order, each as what is known of it.
pub proof fn law_entries_list_the_tracks(tracks: Seq<TrackShape>, k: int)
    requires
        forall|i: int| 0 <= i < tracks.len() ==> describable_track(#[trigger] tracks[i]),
        0 <= k < tracks.len(),
    ensures
        nth_payload(entries(tracks), 0, k) matches Some((id, entry)) && id == 0xae && entry_says(
            entry,
            tracks[k],
        ),
{
    let none = Seq::<u8>::empty();
    assert(none + entries(tracks) =~= entries(tracks));
    lemma_nth_entry(none, tracks, k);
    lemma_entry_payload(tracks[k]);
}

/// The parts of an EBML header.
spec fn header_parts(doctype: Seq<u8>) -> Seq<(u32, Seq<u8>)> {
    seq![
        (0x4286u32, number(1)),
        (0x42f7u32, number(1)),
        (0x42f2u32, number(4)),
        (0x42f3u32, number(8)),
        (0x4282u32, doctype),
        (0x4287u32, number(2)),
        (0x4285u32, number(2)),
    ]
}

#[verifier::spinoff_prover]
proof fn lemma_header(doctype: Seq<u8>)
    requires
        doctype.len() <= 8,
    ensures
        ({
            let d = header_payload(doctype);
            &&& says(d, 0x4286, 1)
            &&& says(d, 0x42f7, 1)
            &&& says(d, 0x42f2, 4)
            &&& says(d, 0x42f3, 8)
            &&& under(d, 0x4282) == Some(doctype)
            &&& says(d, 0x4287, 2)
            &&& says(d, 0x4285, 2)
            &&& d.len() <= 300
        }),
{
    let parts = header_parts(doctype);
    lemma_number(1);
    lemma_number(2);
    lemma_number(4);
    lemma_number(8);
    assert(writable(parts));
    reveal_with_fuel(first_payload, 8);
    let a = parts.drop_first();
    assert(a =~= seq![parts[1], parts[2], parts[3], parts[4], parts[5], parts[6]]);
    let b = a.drop_first();
    assert(b =~= seq![parts[2], parts[3], parts[4], parts[5], parts[6]]);
    let c = b.drop_first();
    assert(c =~= seq![parts[3], parts[4], parts[5], parts[6]]);
    let e = c.drop_first();
    assert(e =~= seq![parts[4], parts[5], parts[6]]);
    let f = e.drop_first();
    assert(f =~= seq![parts[5], parts[6]]);
    let g = f.drop_first();
    assert(g =~= seq![parts[6]]);
    assert(g.drop_first() =~= Seq::<(u32, Seq<u8>)>::empty());
    law_elements_are_found(parts, 0x4286);
    law_elements_are_found(parts, 0x42f7);
    law_elements_are_found(parts, 0x42f2);
    law_elements_are_found(parts, 0x42f3);
    law_elements_are_found(parts, 0x4282);
    law_elements_are_found(parts, 0x4287);
    law_elements_are_found(parts, 0x4285);
    lemma_el_length(0x4286, number(1));
    lemma_el_length(0x42f7, number(1));
    lemma_el_length(0x42f2, number(4));
    lemma_el_length(0x42f3, number(8));
    lemma_el_length(0x4282, doctype);
    lemma_el_length(0x4287, number(2));
    lemma_el_length(0x4285, number(2));
    let (a, b, c, d, e, f, g) = (
        el_bytes(0x4286, number(1)),
        el_bytes(0x42f7, number(1)),
        el_bytes(0x42f2, number(4)),
        el_bytes(0x42f3, number(8)),
        el_bytes(0x4282, doctype),
        el_bytes(0x4287, number(2)),
        el_bytes(0x4285, number(2)),
    );
    lemma_elements_are(parts, seq![a, b, c, d, e, f, g]);
    lemma_seven(a, b, c, d, e, f, g);
    assert(elements(parts) == header_payload(doctype));
}

#[verifier::spinoff_prover]
proof fn lemma_info()
    ensures
        says(info_payload(), 0x2a_d7b1, 1_000_000),
        info_payload().len() <= 200,
{
    let app = crate::matroska::APP_NAME@;
    let parts = seq![(0x2a_d7b1u32, number(1_000_000)), (0x4d80u32, app), (0x5741u32, app)];
    lemma_number(1_000_000);
    assert(writable(parts));
    reveal_with_fuel(elements, 4);
    reveal_with_fuel(first_payload, 2);
    let a = parts.drop_first();
    assert(a =~= seq![parts[1], parts[2]]);
    let b = a.drop_first();
    assert(b =~= seq![parts[2]]);
    assert(b.drop_first() =~= Seq::<(u32, Seq<u8>)>::empty());
    law_elements_are_found(parts, 0x2a_d7b1);
    lemma_el_length(0x2a_d7b1, number(1_000_000));
    lemma_el_length(0x4d80, app);
    lemma_el_length(0x5741, app);
    assert(elements(parts) =~= info_payload());
}

/// A head reads back. In front stands an EBML header that asks for no more than version 1
/// of EBML and version 2 of the document type, which is named as it was asked for. The
/// Segment behind it holds an Info, which counts time in milliseconds, and the track list.
#[verifier::spinoff_prover]
pub proof fn law_head_reads_back(tracks: Seq<TrackShape>, doctype: Seq<u8>, survivors: Seq<u8>)
    requires
        doctype.len() <= 8,
        entries(tracks).len() < VINT_LIMIT,
    ensures
        ({
            let d = head_bytes(tracks, doctype) + survivors;
            let at = el_bytes(0x1a45_dfa3, header_payload(doctype)).len() as int;
            let segment = d.skip(at + 12);
            &&& under(d, 0x1a45_dfa3) matches Some(header) && {
                &&& says(header, 0x4286, 1)
                &&& says(header, 0x42f7, 1)
                &&& says(header, 0x42f2, 4)
                &&& says(header, 0x42f3, 8)
                &&& under(header, 0x4282) == Some(doctype)
                &&& says(header, 0x4287, 2)
                &&& says(header, 0x4285, 2)
            }
            &&& d.subrange(at, at + 12) == seq![
                0x18u8,
                0x53,
                0x80,
                0x67,
                0x01,
                0xff,
                0xff,
                0xff,
                0xff,
                0xff,
                0xff,
                0xff,
            ]
            &&& under(segment, 0x1549_a966) matches Some(info) && says(info, 0x2a_d7b1, 1_000_000)
            &&& under(segment, 0x1654_ae6b) == Some(entries(tracks))
        }),
{
    let d = head_bytes(tracks, doctype) + survivors;
    let pa = header_payload(doctype);
    let pb = info_payload();
    let pc = entries(tracks);
    let a = el_bytes(0x1a45_dfa3, pa);
    let b = el_bytes(0x1549_a966, pb);
    let c = el_bytes(0x1654_ae6b, pc);
    let s = crate::matroska::SEGMENT_OPEN@;
    let none = Seq::<u8>::empty();
    lemma_header(doctype);
    lemma_info();
    lemma_head_cut(a, s, b, c, survivors);
    assert(s =~= seq![0x18u8, 0x53, 0x80, 0x67, 0x01, 0xff, 0xff, 0xff, 0xff, 0xff, 0xff, 0xff]);
    lemma_under_step(d, none, a, 0x1a45_dfa3, pa, s + b + c + survivors, 0x1a45_dfa3);
    let segment = d.skip(a.len() as int + 12);
    lemma_under_step(segment, none, b, 0x1549_a966, pb, c + survivors, 0x1549_a966);
    lemma_under_step(segment, none, b, 0x1549_a966, pb, c + survivors, 0x1654_ae6b);
    lemma_under_step(segment, none + b, c, 0x1654_ae6b, pc, survivors, 0x1654_ae6b);
}

proof fn lemma_head_cut(a: Seq<u8>, s: Seq<u8>, b: Seq<u8>, c: Seq<u8>, tail: Seq<u8>)
    requires
        s.len() == 12,
    ensures
        ({
            let d = a + s + b + c + tail;
            let none = Seq::<u8>::empty();
            &&& d == none + a + (s + b + c + tail)
            &&& d.subrange(a.len() as int, a.len() as int + 12) == s
            &&& d.skip(a.len() as int + 12) == none + b + (c + tail)
            &&& d.skip(a.len() as int + 12) == (none + b) + c + tail
        }),
{
    let d = a + s + b + c + tail;
    let none = Seq::<u8>::empty();
    assert(d =~= none + a + (s + b + c + tail));
    assert(d.subrange(a.len() as int, a.len() as int + 12) =~= s);
    assert(d.skip(a.len() as int + 12) =~= none + b + (c + tail));
    assert(d.skip(a.len() as int + 12) =~= (none + b) + c + tail);
}

/// A file of VP9 and Opus alone is called webm, and one with any other codec matroska.
pub proof fn law_doctype_fits_the_codecs(tracks: Seq<TrackShape>)
    ensures
        (forall|i: int| 0 <= i < tracks.len() ==> synthesizable((#[trigger] tracks[i]).codec))
            ==> doctype_of(tracks) == seq![0x77u8, 0x65, 0x62, 0x6d],
        (exists|i: int|
            0 <= i < tracks.len() && ((#[trigger] tracks[i]).codec is H264 || tracks[i].codec is NeedsDonor))
            ==> doctype_of(tracks) == seq![0x6du8, 0x61, 0x74, 0x72, 0x6f, 0x73, 0x6b, 0x61],
{
    assert(crate::matroska::WEBM@ =~= seq![0x77u8, 0x65, 0x62, 0x6d]);
    assert(crate::matroska::MATROSKA@ =~= seq![0x6du8, 0x61, 0x74, 0x72, 0x6f, 0x73, 0x6b, 0x61]);
}

// ---------------------------------------------------------------------------
// What frames say of their track
// ---------------------------------------------------------------------------

proof fn lemma_field(s: Seq<bool>, pos: int, n: nat)
    requires
        0 <= pos,
        pos + n <= s.len(),
    ensures
        field(s, pos, n) == bits_value(s.subrange(pos, pos + n)),
    decreases n,
{
    if n > 0 {
        lemma_field(s, pos, (n - 1) as nat);
        assert(s.subrange(pos, pos + n).drop_last() =~= s.subrange(pos, pos + n - 1));
    } else {
        assert(s.subrange(pos, pos + n) =~= Seq::<bool>::empty());
    }
}

/// A number that was written in `n` bits is read.
proof fn lemma_field_read(s: Seq<bool>, before: Seq<bool>, v: nat, n: nat, after: Seq<bool>)
    requires
        s == before + low_bits(v, n) + after,
        v < pow2(n),
    ensures
        field(s, before.len() as int, n) == v,
        low_bits(v, n).len() == n,
{
    lemma_low_bits(v, n);
    lemma_field(s, before.len() as int, n);
    assert(s.subrange(before.len() as int, before.len() as int + n) =~= low_bits(v, n));
}

/// How many bits follow the colour space of a VP9 keyframe: the range, which RGB (7) does
/// not have, and in odd profiles the subsampling, which RGB does not have, and a reserved
/// bit.
pub open spec fn vp9_colour_bits(profile: int, space: int) -> nat {
    if space == 7 {
        if profile % 2 == 1 {
            1
        } else {
            0
        }
    } else if profile % 2 == 1 {
        4
    } else {
        1
    }
}

/// The header of a VP9 keyframe up to its profile: the frame marker, the low and the high
/// bit of the profile, and a reserved bit behind profile 3.
pub open spec fn vp9_opening(profile: int) -> Seq<bool> {
    low_bits(2, 2) + seq![profile % 2 == 1, profile >= 2] + (if profile == 3 {
        seq![false]
    } else {
        seq![]
    })
}

/// The header of a VP9 keyframe up to its colour space: a frame of its own, a keyframe, two
/// flags, the sync code, and in the high profiles the depth.
pub open spec fn vp9_lead(profile: int, shown: bool, resilient: bool, deep: bool) -> Seq<bool> {
    vp9_opening(profile) + seq![false, false, shown, resilient] + low_bits(0x49, 8) + low_bits(
        0x83,
        8,
    ) + low_bits(0x42, 8) + (if profile >= 2 {
        seq![deep]
    } else {
        seq![]
    })
}

#[verifier::spinoff_prover]
proof fn lemma_vp9_lead(profile: int, shown: bool, resilient: bool, deep: bool, after: Seq<bool>)
    requires
        0 <= profile < 4,
    ensures
        ({
            let s = vp9_lead(profile, shown, resilient, deep) + after;
            let p = if profile == 3 {
                5int
            } else {
                4
            };
            &&& vp9_lead(profile, shown, resilient, deep).len() == p + 28 + (if profile >= 2 {
                1int
            } else {
                0
            })
            &&& field(s, 0, 2) == 2
            &&& field(s, 2, 1) == profile % 2
            &&& field(s, 3, 1) == (if profile >= 2 {
                1int
            } else {
                0
            })
            &&& field(s, p, 1) == 0
            &&& field(s, p + 1, 1) == 0
            &&& field(s, p + 4, 8) == 0x49
            &&& field(s, p + 12, 8) == 0x83
            &&& field(s, p + 20, 8) == 0x42
        }),
{
    lemma2_to64();
    let s = vp9_lead(profile, shown, resilient, deep) + after;
    let none = Seq::<bool>::empty();
    let bits = seq![profile % 2 == 1, profile >= 2];
    let gap = if profile == 3 {
        seq![false]
    } else {
        none
    };
    let flags = seq![false, false, shown, resilient];
    let depth = if profile >= 2 {
        seq![deep]
    } else {
        none
    };
    let (m, x, y, z) = (low_bits(2, 2), low_bits(0x49, 8), low_bits(0x83, 8), low_bits(0x42, 8));
    lemma_low_bits(2, 2);
    lemma_low_bits(0x49, 8);
    lemma_low_bits(0x83, 8);
    lemma_low_bits(0x42, 8);
    let open = m + bits + gap;
    assert(s =~= none + m + (bits + gap + flags + x + y + z + depth + after));
    lemma_field_read(s, none, 2, 2, bits + gap + flags + x + y + z + depth + after);
    assert(s =~= (open + flags) + x + (y + z + depth + after));
    lemma_field_read(s, open + flags, 0x49, 8, y + z + depth + after);
    assert(s =~= (open + flags + x) + y + (z + depth + after));
    lemma_field_read(s, open + flags + x, 0x83, 8, z + depth + after);
    assert(s =~= (open + flags + x + y) + z + (depth + after));
    lemma_field_read(s, open + flags + x + y, 0x42, 8, depth + after);
    let p = open.len() as int;
    assert(s[2] == bits[0] && s[3] == bits[1]);
    assert(s[p] == flags[0] && s[p + 1] == flags[1]);
    reveal_with_fuel(field, 2);
}

/// A VP9 keyframe tells its size: in every profile and colour space, the two 16-bit numbers
/// behind the colour settings are the width and the height, each less one.
pub proof fn law_vp9_keyframes_tell_their_size(
    profile: int,
    shown: bool,
    resilient: bool,
    deep: bool,
    space: nat,
    colour: Seq<bool>,
    width: nat,
    height: nat,
    after: Seq<bool>,
)
    requires
        0 <= profile < 4,
        space < 8,
        colour.len() == vp9_colour_bits(profile, space as int),
        1 <= width <= 0x1_0000,
        1 <= height <= 0x1_0000,
    ensures
        vp9_size(
            vp9_lead(profile, shown, resilient, deep) + low_bits(space, 3) + colour + low_bits(
                (width - 1) as nat,
                16,
            ) + low_bits((height - 1) as nat, 16) + after,
        ) == Some((width as int, height as int)),
{
    lemma2_to64();
    let lead = vp9_lead(profile, shown, resilient, deep);
    let (c, w, h) = (
        low_bits(space, 3),
        low_bits((width - 1) as nat, 16),
        low_bits((height - 1) as nat, 16),
    );
    let s = lead + c + colour + w + h + after;
    assert(s =~= lead + (c + colour + w + h + after));
    lemma_vp9_lead(profile, shown, resilient, deep, c + colour + w + h + after);
    assert(s =~= lead + c + (colour + w + h + after));
    lemma_field_read(s, lead, space, 3, colour + w + h + after);
    assert(s =~= (lead + c + colour) + w + (h + after));
    lemma_field_read(s, lead + c + colour, (width - 1) as nat, 16, h + after);
    assert(s =~= (lead + c + colour + w) + h + after);
    lemma_field_read(s, lead + c + colour + w, (height - 1) as nat, 16, after);
}

/// A frame's first bits are those of a VP9 keyframe of the given size.
pub open spec fn shows_vp9(frame: Seq<u8>, width: int, height: int) -> bool {
    vp9_size(bits_of(frame)) == Some((width, height))
}

proof fn lemma_first_vp9(v: Seq<(bool, Seq<u8>)>, i: int, at: int, flagged: bool)
    requires
        0 <= i <= at <= v.len(),
        forall|j: int|
            i <= j < at ==> flagged && !(#[trigger] v[j]).0 || vp9_size(bits_of(v[j].1)) is None,
        at < v.len() ==> (v[at].0 || !flagged) && vp9_size(bits_of(v[at].1)) is Some,
    ensures
        first_vp9(v, i, flagged) == if at < v.len() {
            vp9_size(bits_of(v[at].1))
        } else {
            None
        },
    decreases at - i,
{
    if i < at {
        let f = v[i];
        lemma_first_vp9(v, i + 1, at, flagged);
    }
}

/// The first flagged keyframe that opens like VP9 decides the codec and the size; where no
/// flagged one does, the first frame that does.
pub proof fn law_a_keyframe_decides(
    v: Seq<(bool, Seq<u8>)>,
    at: int,
    flagged: bool,
    width: int,
    height: int,
)
    requires
        0 <= at < v.len(),
        shows_vp9(v[at].1, width, height),
        flagged ==> v[at].0 && forall|j: int|
            0 <= j < at ==> !(#[trigger] v[j]).0 || vp9_size(bits_of(v[j].1)) is None,
        !flagged ==> (forall|j: int|
            0 <= j < v.len() ==> !(#[trigger] v[j]).0 || vp9_size(bits_of(v[j].1)) is None)
            && forall|j: int| 0 <= j < at ==> vp9_size(bits_of((#[trigger] v[j]).1)) is None,
    ensures
        sniffed(v) == (CodecShape::Vp9 { width, height }),
{
    if flagged {
        lemma_first_vp9(v, 0, at, true);
    } else {
        lemma_first_vp9(v, 0, v.len() as int, true);
        lemma_first_vp9(v, 0, at, false);
    }
}

/// Packets of one configuration, one of them flagged, none of which opens like VP9, are
/// Opus: stereo where the flag of the first one's opening byte says so.
pub proof fn law_packets_of_one_kind_are_opus(v: Seq<(bool, Seq<u8>)>, config: u8, stereo: bool)
    requires
        v.len() > 0,
        forall|j: int| 0 <= j < v.len() ==> vp9_size(bits_of((#[trigger] v[j]).1)) is None,
        forall|j: int|
            0 <= j < v.len() ==> (#[trigger] v[j]).1.len() > 0 && v[j].1[0] >> 3u8 == config,
        exists|j: int| 0 <= j < v.len() && (#[trigger] v[j]).0,
        (v[0].1[0] & 4 == 4) == stereo,
    ensures
        sniffed(v) == (CodecShape::Opus {
            channels: if stereo {
                2
            } else {
                1
            },
        }),
{
    lemma_first_vp9(v, 0, v.len() as int, true);
    lemma_first_vp9(v, 0, v.len() as int, false);
    assert forall|j: int| 0 <= j < v.len() implies (#[trigger] v[j]).1[0] / 8 == config by {
        let x = v[j].1[0];
        assert(x >> 3u8 == x / 8) by (bit_vector);
    }
    let x = v[0].1[0];
    assert((x & 4 == 4) == ((x / 4) % 2 == 1)) by (bit_vector);
    assert(looks_like_opus(v));
}

/// Frames of which none opens like VP9, and which differ in configuration or of which none
/// is flagged, are not recognized.
pub proof fn law_other_frames_need_a_donor(v: Seq<(bool, Seq<u8>)>)
    requires
        forall|j: int| 0 <= j < v.len() ==> vp9_size(bits_of((#[trigger] v[j]).1)) is None,
        v.len() == 0 || (forall|j: int| 0 <= j < v.len() ==> !(#[trigger] v[j]).0) || exists|i: int,
            j: int|
            0 <= i < v.len() && 0 <= j < v.len() && (#[trigger] v[i]).1.len() > 0 && (
            #[trigger] v[j]).1.len() > 0 && v[i].1[0] / 8 != v[j].1[0] / 8,
    ensures
        sniffed(v) is NeedsDonor,
{
    lemma_first_vp9(v, 0, v.len() as int, true);
    lemma_first_vp9(v, 0, v.len() as int, false);
}

} // verus!
