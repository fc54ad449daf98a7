//! What marks give a file away: magic at its front, start codes, page and cluster marks, sync
//! patterns and atoms, wherever they stand.
use crate::forensics::{
    after_start_code, annexb_found, atom_at, atoms, atoms_before, chained, ebml_found, first_ebml,
    flac_found, flac_syncs, has_atom, has_type, magic_found, mp4_found, nal_type_at, ogg_found,
    ogg_pages, sps_pps_adjacent, start_codes, Atom, Found,
};
use crate::streams::run_together;
use crate::text::{decimal, utf8_lossy};
use vstd::prelude::*;
use vstd::string::*;

verus! {

broadcast use crate::bytes::group_lengths;

/// Four bytes stand at `i`.
pub open spec fn four_at(d: Seq<u8>, i: int, a: u8, b: u8, c: u8, e: u8) -> bool {
    &&& 0 <= i && i + 4 <= d.len()
    &&& d[i] == a && d[i + 1] == b && d[i + 2] == c && d[i + 3] == e
}

proof fn lemma_four_at(d: Seq<u8>, i: int, pat: Seq<u8>)
    requires
        pat.len() == 4,
    ensures
        crate::bytes::stands_at(d, i, pat) <==> four_at(d, i, pat[0], pat[1], pat[2], pat[3]),
{
    if four_at(d, i, pat[0], pat[1], pat[2], pat[3]) {
        assert(d.subrange(i, i + 4) =~= pat);
    }
    if crate::bytes::stands_at(d, i, pat) {
        let s = d.subrange(i, i + 4);
        assert(s[0] == d[i] && s[1] == d[i + 1] && s[2] == d[i + 2] && s[3] == d[i + 3]);
    }
}

// ---------------------------------------------------------------------------
// Magic
// ---------------------------------------------------------------------------

/// A finding at the front of a file, of the given kind and class, beyond doubt.
pub open spec fn certainly(f: Option<Found>, kind: Seq<char>, class: Seq<char>) -> bool {
    f matches Some(x) && x.kind == kind && x.class == class && x.offset == 0 && x.confidence
        == 0x3ff0_0000_0000_0000
}

/// Files with their front intact are known by it: by the name behind the first size, or by
/// their first four bytes, in a RIFF or FORM file together with the third four.
pub proof fn law_magic_names_the_file(d: Seq<u8>)
    requires
        d.len() >= 12,
    ensures
        ({
            let f = magic_found(d);
            let ftyp = four_at(d, 4, 0x66, 0x74, 0x79, 0x70);
            let riff = four_at(d, 0, 0x52, 0x49, 0x46, 0x46);
            &&& ftyp ==> certainly(
                f,
                "ISO BMFF / MP4 (brand "@ + utf8_lossy(d.subrange(8, 12)) + ")"@,
                "container"@,
            )
            &&& !ftyp && riff && four_at(d, 8, 0x57, 0x41, 0x56, 0x45) ==> certainly(
                f,
                "WAV audio"@,
                "audio"@,
            )
            &&& !ftyp && riff && d[8] == 0x41 && d[9] == 0x56 && d[10] == 0x49 ==> certainly(
                f,
                "AVI video"@,
                "video"@,
            )
            &&& !ftyp && d[0] == 0x49 && d[1] == 0x44 && d[2] == 0x33 ==> certainly(
                f,
                "MP3 audio (ID3-tagged)"@,
                "audio"@,
            )
            &&& !ftyp && four_at(d, 0, 0x66, 0x4c, 0x61, 0x43) ==> certainly(
                f,
                "FLAC audio"@,
                "audio"@,
            )
            &&& !ftyp && four_at(d, 0, 0x4f, 0x67, 0x67, 0x53) ==> certainly(
                f,
                "Ogg container"@,
                "container"@,
            )
            &&& !ftyp && four_at(d, 0, 0x1a, 0x45, 0xdf, 0xa3) ==> certainly(
                f,
                "Matroska / WebM"@,
                "container"@,
            )
            &&& !ftyp && four_at(d, 0, 0x46, 0x4f, 0x52, 0x4d) && four_at(
                d,
                8,
                0x41,
                0x49,
                0x46,
                0x46,
            ) ==> certainly(f, "AIFF audio"@, "audio"@)
        }),
{
    lemma_four_at(d, 4, crate::fourcc::FTYP@);
    lemma_four_at(d, 0, crate::forensics::RIFF@);
    lemma_four_at(d, 8, crate::forensics::WAVE@);
    lemma_four_at(d, 0, crate::forensics::FLAC@);
    lemma_four_at(d, 0, crate::forensics::OGGS@);
    lemma_four_at(d, 0, crate::forensics::EBML@);
    lemma_four_at(d, 0, crate::forensics::FORM@);
    lemma_four_at(d, 8, crate::forensics::AIFF@);
    let avi = crate::forensics::AVI@;
    let id3 = crate::forensics::ID3@;
    let (x, y) = (d.subrange(8, 11), d.subrange(0, 3));
    assert(x[0] == d[8] && x[1] == d[9] && x[2] == d[10]);
    assert(y[0] == d[0] && y[1] == d[1] && y[2] == d[2]);
    if d[8] == 0x41 && d[9] == 0x56 && d[10] == 0x49 {
        assert(x =~= avi);
    }
    if d[0] == 0x49 && d[1] == 0x44 && d[2] == 0x33 {
        assert(y =~= id3);
    }
}

// ---------------------------------------------------------------------------
// Ogg, FLAC and EBML marks
// ---------------------------------------------------------------------------

/// The numbers in a list are all those below `n` for which a test holds, in ascending order.
pub open spec fn lists_all(v: Seq<int>, n: int, test: spec_fn(int) -> bool) -> bool {
    &&& forall|i: int, j: int| 0 <= i < j < v.len() ==> #[trigger] v[i] < #[trigger] v[j]
    &&& forall|i: int| 0 <= i < v.len() ==> 0 <= #[trigger] v[i] < n && test(v[i])
    &&& forall|p: int| 0 <= p < n && #[trigger] test(p) ==> v.contains(p)
}

proof fn lemma_lists_all_step(v: Seq<int>, n: int, test: spec_fn(int) -> bool)
    requires
        lists_all(v, n - 1, test),
        n >= 1,
    ensures
        lists_all(
            if test(n - 1) {
                v.push(n - 1)
            } else {
                v
            },
            n,
            test,
        ),
{
    let w = if test(n - 1) {
        v.push(n - 1)
    } else {
        v
    };
    assert forall|i: int| 0 <= i < w.len() implies 0 <= #[trigger] w[i] < n && test(w[i]) by {
        if i < v.len() {
            assert(w[i] == v[i]);
        }
    }
    assert forall|i: int, j: int| 0 <= i < j < w.len() implies #[trigger] w[i] < #[trigger] w[j] by {
        assert(w[i] == v[i]);
        if j < v.len() {
            assert(w[j] == v[j]);
        }
    }
    assert forall|p: int| 0 <= p < n && #[trigger] test(p) implies w.contains(p) by {
        if p < n - 1 {
            assert(v.contains(p));
            let i = choose|i: int| 0 <= i < v.len() && v[i] == p;
            assert(w[i] == p);
        } else {
            assert(w[v.len() as int] == p);
        }
    }
}

/// An Ogg page mark stands at a place.
pub open spec fn page_marks(d: Seq<u8>) -> spec_fn(int) -> bool {
    |p: int| four_at(d, p, 0x4f, 0x67, 0x67, 0x53)
}

/// A FLAC frame may start at a place: fourteen sync bits, and a block size that is not 0.
pub open spec fn frame_syncs(d: Seq<u8>) -> spec_fn(int) -> bool {
    |p: int|
        0 <= p && p + 4 < d.len() && d[p] == 0xff && 0xf8 <= d[p + 1] <= 0xfb && d[p + 2] / 16 != 0
}

proof fn lemma_ogg_pages(d: Seq<u8>, n: int)
    requires
        0 <= n,
    ensures
        lists_all(ogg_pages(d, n), n, page_marks(d)),
    decreases n,
{
    if n > 0 {
        lemma_ogg_pages(d, n - 1);
        lemma_four_at(d, n - 1, crate::forensics::OGGS@);
        lemma_lists_all_step(ogg_pages(d, n - 1), n, page_marks(d));
    }
}

proof fn lemma_flac_syncs(d: Seq<u8>, n: int)
    requires
        0 <= n,
    ensures
        lists_all(flac_syncs(d, n), n, frame_syncs(d)),
    decreases n,
{
    if n > 0 {
        lemma_flac_syncs(d, n - 1);
        lemma_lists_all_step(flac_syncs(d, n - 1), n, frame_syncs(d));
    }
}

/// Ogg pages in the middle of a file give it away, two of them or more, unless it opens with
/// one; it is found at the first. The last place that could hold a mark does not count.
pub proof fn law_page_marks_are_found(d: Seq<u8>, pages: Seq<int>)
    requires
        d.len() > 4,
        lists_all(pages, d.len() - 4, page_marks(d)),
    ensures
        pages.len() >= 2 && pages[0] > 0 <==> ogg_found(d) is Some,
        ogg_found(d) matches Some(f) ==> f.offset == pages[0] && f.kind
            == "Ogg container (damaged front)"@ && f.class == "container"@ && f.confidence
            == 0x3fe9_9999_9999_999a,
{
    let own = ogg_pages(d, d.len() - 4);
    lemma_ogg_pages(d, d.len() - 4);
    lemma_same_list(own, pages, d.len() - 4, page_marks(d));
    lemma_four_at(d, 0, crate::forensics::OGGS@);
    if pages.len() > 0 {
        let x = pages[0];
        if page_marks(d)(0) {
            assert(pages.contains(0));
            let i = choose|i: int| 0 <= i < pages.len() && pages[i] == 0;
            if i > 0 {
                assert(pages[0] < pages[i]);
            }
        }
        if x == 0 {
            assert(page_marks(d)(pages[0]));
        }
    }
}

/// Bare FLAC frames are a weak sign: sixteen are asked for, and found at the first; a file that
/// opens with the FLAC mark is known otherwise.
pub proof fn law_bare_flac_frames_are_found(d: Seq<u8>, syncs: Seq<int>)
    requires
        lists_all(syncs, d.len() as int, frame_syncs(d)),
    ensures
        syncs.len() >= 16 && !four_at(d, 0, 0x66, 0x4c, 0x61, 0x43) <==> flac_found(d) is Some,
        flac_found(d) matches Some(f) ==> f.offset == syncs[0] && f.kind
            == "possible bare FLAC frames"@ && f.class == "audio"@ && f.confidence
            == 0x3fd6_6666_6666_6666 && f.evidence == decimal(syncs.len())
            + " candidate FLAC frame syncs (weak signal)"@,
{
    let own = flac_syncs(d, d.len() as int);
    lemma_flac_syncs(d, d.len() as int);
    lemma_same_list(own, syncs, d.len() as int, frame_syncs(d));
    lemma_four_at(d, 0, crate::forensics::FLAC@);
}

/// There is one ascending list of the numbers that pass a test.
proof fn lemma_same_list(a: Seq<int>, b: Seq<int>, n: int, test: spec_fn(int) -> bool)
    requires
        lists_all(a, n, test),
        lists_all(b, n, test),
    ensures
        a == b,
{
    lemma_same_prefix(a, b, n, test, a.len() as int);
    lemma_same_prefix(b, a, n, test, b.len() as int);
    assert(a =~= b);
}

proof fn lemma_same_prefix(a: Seq<int>, b: Seq<int>, n: int, test: spec_fn(int) -> bool, k: int)
    requires
        lists_all(a, n, test),
        lists_all(b, n, test),
        0 <= k <= a.len(),
    ensures
        k <= b.len(),
        forall|i: int| 0 <= i < k ==> #[trigger] a[i] == b[i],
    decreases k,
{
    if k > 0 {
        let i = k - 1;
        lemma_same_prefix(a, b, n, test, i);
        assert(test(a[i]));
        assert(b.contains(a[i]));
        let j = choose|j: int| 0 <= j < b.len() && b[j] == a[i];
        if j < i {
            assert(a[j] == b[j]);
            assert(a[j] < a[i]);
        }
        assert(test(b[i]));
        assert(a.contains(b[i]));
        let m = choose|m: int| 0 <= m < a.len() && a[m] == b[i];
        if j > i {
            assert(b[i] < b[j]);
            if m < i {
                assert(a[m] == b[m]);
                assert(b[m] < b[i]);
            } else if m > i {
                assert(a[i] < a[m]);
            }
        }
    }
}

/// A cluster or a segment ID stands at a place, with something behind it.
pub open spec fn ebml_mark(d: Seq<u8>, i: int) -> bool {
    i + 4 < d.len() && (four_at(d, i, 0x1f, 0x43, 0xb6, 0x75) || four_at(
        d,
        i,
        0x18,
        0x53,
        0x80,
        0x67,
    ))
}

proof fn lemma_first_ebml(d: Seq<u8>, i: int, at: int)
    requires
        0 <= i <= at,
        ebml_mark(d, at),
        forall|j: int| i <= j < at ==> !#[trigger] ebml_mark(d, j),
    ensures
        first_ebml(d, i) == Some(at),
    decreases at - i,
{
    lemma_four_at(d, i, crate::forensics::EBML_CLUSTER@);
    lemma_four_at(d, i, crate::forensics::EBML_SEGMENT@);
    if i < at {
        assert(!ebml_mark(d, i));
        lemma_first_ebml(d, i + 1, at);
    }
}

/// The first cluster or segment ID gives a Matroska file away whose front is damaged.
pub proof fn law_ebml_marks_are_found(d: Seq<u8>, at: int)
    requires
        0 <= at,
        ebml_mark(d, at),
        forall|j: int| 0 <= j < at ==> !#[trigger] ebml_mark(d, j),
    ensures
        d[0] != 0x1a ==> (ebml_found(d) matches Some(f) && f.offset == at && f.kind
            == "Matroska / WebM (damaged front)"@ && f.class == "container"@ && f.confidence
            == 0x3fe3_3333_3333_3333),
        d[0] == 0x1a ==> ebml_found(d) is None,
{
    lemma_first_ebml(d, 0, at);
}

// ---------------------------------------------------------------------------
// Atoms
// ---------------------------------------------------------------------------

/// The twelve names by which a top-level atom is known: ftyp, moov, mdat, free, skip, wide,
/// moof, mfra, udta, uuid, pnot, sidx.
pub open spec fn names_an_atom(d: Seq<u8>, i: int) -> bool {
    ||| four_at(d, i, 0x66, 0x74, 0x79, 0x70)
    ||| four_at(d, i, 0x6d, 0x6f, 0x6f, 0x76)
    ||| four_at(d, i, 0x6d, 0x64, 0x61, 0x74)
    ||| four_at(d, i, 0x66, 0x72, 0x65, 0x65)
    ||| four_at(d, i, 0x73, 0x6b, 0x69, 0x70)
    ||| four_at(d, i, 0x77, 0x69, 0x64, 0x65)
    ||| four_at(d, i, 0x6d, 0x6f, 0x6f, 0x66)
    ||| four_at(d, i, 0x6d, 0x66, 0x72, 0x61)
    ||| four_at(d, i, 0x75, 0x64, 0x74, 0x61)
    ||| four_at(d, i, 0x75, 0x75, 0x69, 0x64)
    ||| four_at(d, i, 0x70, 0x6e, 0x6f, 0x74)
    ||| four_at(d, i, 0x73, 0x69, 0x64, 0x78)
}

proof fn lemma_names_an_atom(d: Seq<u8>, i: int)
    ensures
        crate::forensics::atom_named_at(d, i) <==> names_an_atom(d, i),
{
    lemma_four_at(d, i, crate::fourcc::FTYP@);
    lemma_four_at(d, i, crate::fourcc::MOOV@);
    lemma_four_at(d, i, crate::fourcc::MDAT@);
    lemma_four_at(d, i, crate::fourcc::FREE@);
    lemma_four_at(d, i, crate::fourcc::SKIP@);
    lemma_four_at(d, i, crate::fourcc::WIDE@);
    lemma_four_at(d, i, crate::fourcc::MOOF@);
    lemma_four_at(d, i, crate::fourcc::MFRA@);
    lemma_four_at(d, i, crate::fourcc::UDTA@);
    lemma_four_at(d, i, crate::fourcc::UUID@);
    lemma_four_at(d, i, crate::fourcc::PNOT@);
    lemma_four_at(d, i, crate::fourcc::SIDX@);
}

/// An atom of `size` bytes stands at `i`: known by its name, its size in 32 bits, or in 64
/// behind the name where those say 1, or to the end of the data where they say 0; and it lies
/// in the data.
pub open spec fn atom_stands(d: Seq<u8>, i: int, size: int) -> bool {
    let word = crate::bytes::be32_at(d, i);
    &&& 0 <= i && i + 8 <= d.len()
    &&& names_an_atom(d, i + 4)
    &&& word == 0 ==> size == d.len() - i
    &&& word == 1 ==> i + 16 <= d.len() && size == crate::bytes::be64_at(d, i + 8)
    &&& word > 1 ==> size == word
    &&& 8 <= size && i + size <= d.len()
}

/// Every atom is found, and nothing else is taken for one; it chains where it ends with the
/// data, or where the name of another stands four bytes behind its end.
pub proof fn law_atoms_are_found(d: Seq<u8>, i: int, size: int)
    ensures
        atom_stands(d, i, size) <==> exists|k: int|
            {
                &&& 0 <= k < atoms(d).len()
                &&& (#[trigger] atoms(d)[k]).offset == i
                &&& atoms(d)[k].size == size
            },
        forall|k: int|
            0 <= k < atoms(d).len() && (#[trigger] atoms(d)[k]).offset == i && atoms(d)[k].size == size
                ==> {
                &&& atoms(d)[k].fourcc == d.subrange(i + 4, i + 8)
                &&& atoms(d)[k].chains <==> i + size == d.len() || names_an_atom(d, i + size + 4)
            },
{
    let n = d.len() as int;
    lemma_names_an_atom(d, i + 4);
    lemma_names_an_atom(d, i + size + 4);
    lemma_atoms_listed(d, n);
    if atom_stands(d, i, size) {
        assert(atom_at(d, i) is Some);
        lemma_atom_in(d, n, i);
        let k = choose|k: int|
            0 <= k < atoms_before(d, n).len() && #[trigger] atoms_before(d, n)[k] == atom_at(
                d,
                i,
            ).unwrap();
        assert(atoms(d)[k].offset == i);
    }
}

proof fn lemma_atoms_listed(d: Seq<u8>, n: int)
    ensures
        forall|k: int|
            0 <= k < atoms_before(d, n).len() ==> atom_at(
                d,
                (#[trigger] atoms_before(d, n)[k]).offset,
            ) == Some(atoms_before(d, n)[k]),
    decreases n,
{
    if n > 0 {
        lemma_atoms_listed(d, n - 1);
    }
}

proof fn lemma_atom_in(d: Seq<u8>, n: int, i: int)
    requires
        0 <= i < n,
        atom_at(d, i) is Some,
    ensures
        exists|k: int|
            0 <= k < atoms_before(d, n).len() && #[trigger] atoms_before(d, n)[k] == atom_at(
                d,
                i,
            ).unwrap(),
    decreases n,
{
    let all = atoms_before(d, n);
    if i == n - 1 {
        assert(all[all.len() - 1] == atom_at(d, i).unwrap());
    } else {
        lemma_atom_in(d, n - 1, i);
        let before = atoms_before(d, n - 1);
        let k = choose|k: int|
            0 <= k < before.len() && #[trigger] before[k] == atom_at(d, i).unwrap();
        assert(all[k] == atom_at(d, i).unwrap());
    }
}

proof fn lemma_chained(all: Seq<Atom>)
    ensures
        chained(all) == all.filter(|a: Atom| a.chains),
    decreases all.len(),
{
    reveal(Seq::filter);
    if all.len() > 0 {
        lemma_chained(all.drop_last());
    }
}

/// An atom skeleton is found exactly where some atom chains, at the first that does; it is the
/// surer for an index among those that chain, and for media.
pub proof fn law_atom_chains_are_found(d: Seq<u8>)
    ensures
        ({
            let chain = atoms(d).filter(|a: Atom| a.chains);
            let moov = exists|k: int|
                0 <= k < chain.len() && (#[trigger] chain[k]).fourcc == seq![0x6du8, 0x6f, 0x6f, 0x76];
            let mdat = exists|k: int|
                0 <= k < chain.len() && (#[trigger] chain[k]).fourcc == seq![0x6du8, 0x64, 0x61, 0x74];
            &&& mp4_found(d) is Some <==> chain.len() > 0
            &&& mp4_found(d) matches Some(f) ==> {
                &&& f.offset == chain[0].offset
                &&& f.class == "container"@
                &&& f.kind == (if atoms(d)[0].offset == 0 {
                    "ISO BMFF / MP4"@
                } else {
                    "ISO BMFF / MP4 (damaged front)"@
                })
                &&& moov && mdat ==> f.confidence == 0x3fee_6666_6666_6667
                &&& moov && !mdat ==> f.confidence == 0x3fe9_9999_9999_999a
                &&& !moov && mdat ==> f.confidence == 0x3fe4_cccc_cccc_cccd
                &&& !moov && !mdat ==> f.confidence == 0x3fe0_0000_0000_0000
            }
        }),
{
    lemma_chained(atoms(d));
    let chain = chained(atoms(d));
    assert(crate::fourcc::MOOV@ =~= seq![0x6du8, 0x6f, 0x6f, 0x76]);
    assert(crate::fourcc::MDAT@ =~= seq![0x6du8, 0x64, 0x61, 0x74]);
    assert(has_atom(chain, crate::fourcc::MOOV@) == exists|k: int|
        0 <= k < chain.len() && (#[trigger] chain[k]).fourcc == crate::fourcc::MOOV@);
    assert(has_atom(chain, crate::fourcc::MDAT@) == exists|k: int|
        0 <= k < chain.len() && (#[trigger] chain[k]).fourcc == crate::fourcc::MDAT@);
}

// ---------------------------------------------------------------------------
// Start codes
// ---------------------------------------------------------------------------

/// A NAL unit behind a start code of four bytes.
pub open spec fn start_coded_unit(unit: Seq<u8>) -> Seq<u8> {
    seq![0u8, 0, 0, 1] + unit
}

/// NAL units behind start codes.
pub open spec fn start_coded_units(units: Seq<Seq<u8>>) -> Seq<u8> {
    run_together(units.map_values(|u: Seq<u8>| start_coded_unit(u)))
}

/// The opening of a NAL unit is plausible: no forbidden bit; a type from 1 to 23; IDR slices
/// and parameter sets are references, and SEI, delimiters, ends and filler are not; a slice
/// does not open with a zero byte; and an SPS opens with a profile.
pub open spec fn opens_plausibly(unit: Seq<u8>) -> bool {
    let ty = unit[0] % 32;
    let reference = unit[0] / 32 != 0;
    &&& unit[0] < 128
    &&& 1 <= ty <= 23
    &&& ty == 5 || ty == 7 || ty == 8 ==> reference
    &&& ty == 6 || 9 <= ty <= 12 ==> !reference
    &&& ty <= 5 ==> unit[1] != 0
    &&& ty == 7 ==> (unit[1] == 66 || unit[1] == 77 || unit[1] == 88 || unit[1] == 100 || unit[1]
        == 110 || unit[1] == 122 || unit[1] == 244 || unit[1] == 44 || unit[1] == 83 || unit[1] == 86
        || unit[1] == 118 || unit[1] == 128)
}

/// A NAL unit as it stands in a stream: it holds no two zeros in a row with a zero or a one
/// behind them, and does not end in a zero.
pub open spec fn escaped_unit(unit: Seq<u8>) -> bool {
    &&& unit.len() >= 2
    &&& unit.last() != 0
    &&& forall|i: int|
        0 <= i && i + 2 < unit.len() && #[trigger] unit[i] == 0 && unit[i + 1] == 0 ==> unit[i + 2] > 1
}

/// The units are such as a stream holds.
pub open spec fn stream_units(units: Seq<Seq<u8>>) -> bool {
    forall|j: int|
        0 <= j < units.len() ==> escaped_unit(#[trigger] units[j]) && opens_plausibly(units[j])
}

/// Where each unit's start code stands, and the unit's type.
pub open spec fn code_places(units: Seq<Seq<u8>>, pos: int) -> Seq<(int, u8)>
    decreases units.len(),
{
    if units.len() == 0 {
        seq![]
    } else {
        seq![(pos, units[0][0] % 32)] + code_places(
            units.drop_first(),
            pos + 4 + units[0].len(),
        )
    }
}

/// Inside a unit no start code is found.
proof fn lemma_inside_unit(front: Seq<u8>, unit: Seq<u8>, rest: Seq<u8>, k: int, room: nat)
    requires
        escaped_unit(unit),
        1 <= k <= unit.len(),
    ensures
        ({
            let d = front + unit + rest;
            start_codes(d, front.len() + k, room) == start_codes(
                d,
                (front.len() + unit.len()) as int,
                room,
            ) || (start_codes(d, front.len() + k, room).len() == 0 && rest.len() < 5)
        }),
    decreases unit.len() - k,
{
    let d = front + unit + rest;
    let i = front.len() + k;
    if k < unit.len() {
        assert(d[i] == unit[k]);
        assert(after_start_code(d, i) is None) by {
            if k == unit.len() - 1 {
                assert(unit[k] == unit.last());
            } else {
                assert(d[i + 1] == unit[k + 1]);
                if k == unit.len() - 2 {
                    assert(unit[k + 1] == unit.last());
                } else {
                    assert(d[i + 2] == unit[k + 2]);
                }
            }
        }
        lemma_inside_unit(front, unit, rest, k + 1, room);
    }
}

#[verifier::spinoff_prover]
proof fn lemma_start_codes(front: Seq<u8>, units: Seq<Seq<u8>>, room: nat)
    requires
        stream_units(units),
        units.len() <= room,
    ensures
        start_codes(front + start_coded_units(units), front.len() as int, room) == code_places(
            units,
            front.len() as int,
        ),
    decreases units.len(),
{
    let d = front + start_coded_units(units);
    let p = front.len() as int;
    let parts = units.map_values(|u: Seq<u8>| start_coded_unit(u));
    if units.len() == 0 {
        assert(d =~= front);
    } else {
        let u = units[0];
        let tail = units.drop_first();
        assert(parts.drop_first() =~= tail.map_values(|u: Seq<u8>| start_coded_unit(u)));
        let rest = start_coded_units(tail);
        let code = seq![0u8, 0, 0, 1];
        assert(d =~= front + code + u + rest);
        assert(d =~= (front + code) + u + rest);
        assert(escaped_unit(u) && opens_plausibly(u));
        assert(d[p] == 0 && d[p + 1] == 0 && d[p + 2] == 0 && d[p + 3] == 1);
        assert(d[p + 4] == u[0] && d[p + 5] == u[1]);
        assert(nal_type_at(d, p + 4) == Some(u[0] % 32));
        assert(after_start_code(d, p) == Some(p + 4));
        let left = (room - 1) as nat;
        lemma_inside_unit(front + code, u, rest, 1, left);
        assert forall|j: int| 0 <= j < tail.len() implies escaped_unit(#[trigger] tail[j])
            && opens_plausibly(tail[j]) by {
            assert(tail[j] == units[j + 1]);
        }
        assert(d =~= (front + code + u) + rest);
        lemma_start_codes(front + code + u, tail, left);
        if tail.len() > 0 {
            let v = tail[0];
            assert(escaped_unit(v));
            let more = parts.drop_first().drop_first();
            assert(rest == start_coded_unit(v) + run_together(more));
            assert(rest.len() >= 6);
        } else {
            assert(rest =~= Seq::<u8>::empty());
        }
        assert(start_codes(d, p, room) =~= seq![(p, u[0] % 32)] + start_codes(d, p + 5, left));
    }
}

/// A bare H.264 stream of four units or more, with an SPS or an IDR slice among them, is found
/// at its start. It is surest of a stream with an IDR slice in which a PPS stands within 128
/// bytes behind an SPS.
pub proof fn law_start_coded_streams_are_found(units: Seq<Seq<u8>>, a: int, b: int)
    requires
        stream_units(units),
        4 <= units.len() <= 64,
        0 <= a < units.len() - 1,
        units[a][0] % 32 == 7,
        units[a + 1][0] % 32 == 8,
        units[a].len() + 4 < 128,
        0 <= b < units.len(),
        units[b][0] % 32 == 5,
    ensures
        annexb_found(start_coded_units(units)) matches Some(f) && f.offset == 0 && f.kind
            == "H.264 elementary stream (Annex B)"@ && f.class == "video"@ && f.confidence
            == 0x3fee_b851_eb85_1eb8,
{
    let none = Seq::<u8>::empty();
    let d = start_coded_units(units);
    assert(none + d =~= d);
    lemma_start_codes(none, units, 64);
    let hits = code_places(units, 0);
    lemma_code_place(units, 0, a);
    lemma_code_place(units, 0, a + 1);
    lemma_code_place(units, 0, b);
    lemma_code_place(units, 0, 0);
    assert(hits[b].1 == 5);
    assert(hits[a].1 == 7);
    assert(has_type(hits, 5) && has_type(hits, 7));
    assert(hits[a].1 == 7 && hits[a + 1].1 == 8 && hits[a + 1].0 - hits[a].0 < 128);
    assert(sps_pps_adjacent(hits));
}

proof fn lemma_code_place(units: Seq<Seq<u8>>, pos: int, k: int)
    requires
        0 <= k < units.len(),
    ensures
        code_places(units, pos).len() == units.len(),
        code_places(units, pos)[k].1 == units[k][0] % 32,
        k == 0 ==> code_places(units, pos)[0].0 == pos,
        k + 1 < units.len() ==> code_places(units, pos)[k + 1].0 == code_places(units, pos)[k].0 + 4
            + units[k].len(),
    decreases units.len(),
{
    let tail = units.drop_first();
    let next = pos + 4 + units[0].len();
    let all = code_places(units, pos);
    let rest = code_places(tail, next);
    assert(all == seq![(pos, units[0][0] % 32)] + rest);
    if tail.len() > 0 {
        if k > 0 {
            lemma_code_place(tail, next, k - 1);
            assert(tail[k - 1] == units[k]);
            assert(all[k] == rest[k - 1]);
            if k + 1 < units.len() {
                assert(all[k + 1] == rest[k]);
            }
        } else {
            lemma_code_place(tail, next, 0);
            assert(all[1] == rest[0]);
        }
    }
}

} // verus!
