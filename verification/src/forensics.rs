//! Forensic media identification.
//!
//! Most identifiers look at magic bytes at offset 0 and give up. Decayed media
//! rarely cooperates: headers get truncated, prepended with garbage, or
//! overwritten. The scanners here instead hunt for *codec-level* structure
//! (frame sync chains, NAL units, atom skeletons) anywhere in the file, the
//! way a tape restorer listens for the music underneath the hiss.
use crate::bytes::{be32, be32_at, be64, be64_at, matches_at, stands_at};
use crate::fourcc::{FREE, FTYP, MDAT, MFRA, MOOF, MOOV, PNOT, SIDX, SKIP, UDTA, UUID, WIDE};
use crate::text::{
    bool_text, decimal, join, joined, lossy_text, push_bool, push_decimal, utf8_lossy,
};
use vstd::prelude::*;
use vstd::string::*;

verus! {

/// One thing a file may be, with the evidence for it.
#[derive(Debug, Clone)]
pub struct Finding {
    /// What we think this is, e.g. "MP3 audio (MPEG-1 Layer III)".
    pub kind: String,
    /// "audio", "video", or "container".
    pub class: String,
    /// Byte offset of the first corroborating structure.
    pub offset: u64,
    /// How sure we are, from 0.0 to 1.0: the bits of a double. For numbers that
    /// are not negative, the order of the bits is the order of the numbers.
    pub confidence: u64,
    /// Human-readable evidence trail.
    pub evidence: String,
}

/// What a finding says.
pub struct Found {
    pub kind: Seq<char>,
    pub class: Seq<char>,
    pub offset: int,
    pub confidence: u64,
    pub evidence: Seq<char>,
}

impl View for Finding {
    type V = Found;

    open spec fn view(&self) -> Found {
        Found {
            kind: self.kind@,
            class: self.class@,
            offset: self.offset as int,
            confidence: self.confidence,
            evidence: self.evidence@,
        }
    }
}

/// What a list of findings says.
pub open spec fn found(v: Seq<Finding>) -> Seq<Found> {
    v.map_values(|f: Finding| f@)
}

/// The confidence 1.0.
pub const CERTAIN: u64 = 0x3ff0_0000_0000_0000;

/// The confidence 0.5.
pub const EVEN: u64 = 0x3fe0_0000_0000_0000;

// ---------------------------------------------------------------------------
// Intact magic at offset 0: the easy case, checked first for completeness.
// ---------------------------------------------------------------------------

pub const RIFF: [u8; 4] = [0x52, 0x49, 0x46, 0x46];

pub const WAVE: [u8; 4] = [0x57, 0x41, 0x56, 0x45];

pub const AVI: [u8; 3] = [0x41, 0x56, 0x49];

pub const ID3: [u8; 3] = [0x49, 0x44, 0x33];

pub const FLAC: [u8; 4] = [0x66, 0x4c, 0x61, 0x43];

pub const OGGS: [u8; 4] = [0x4f, 0x67, 0x67, 0x53];

pub const EBML: [u8; 4] = [0x1a, 0x45, 0xdf, 0xa3];

pub const FORM: [u8; 4] = [0x46, 0x4f, 0x52, 0x4d];

pub const AIFF: [u8; 4] = [0x41, 0x49, 0x46, 0x46];

/// A finding beyond doubt, at the front of the file.
pub open spec fn magic(kind: Seq<char>, class: Seq<char>, evidence: Seq<char>) -> Option<Found> {
    Some(Found { kind, class, offset: 0, confidence: CERTAIN, evidence })
}

/// What the first twelve bytes say.
pub open spec fn magic_found(d: Seq<u8>) -> Option<Found> {
    if d.len() < 12 {
        None
    } else if stands_at(d, 4, FTYP@) {
        magic(
            "ISO BMFF / MP4 (brand "@ + utf8_lossy(d.subrange(8, 12)) + ")"@,
            "container"@,
            "intact ftyp box at offset 0"@,
        )
    } else if stands_at(d, 0, RIFF@) && stands_at(d, 8, WAVE@) {
        magic("WAV audio"@, "audio"@, "RIFF/WAVE header at offset 0"@)
    } else if stands_at(d, 0, RIFF@) && stands_at(d, 8, AVI@) {
        magic("AVI video"@, "video"@, "RIFF/AVI header at offset 0"@)
    } else if stands_at(d, 0, ID3@) {
        magic("MP3 audio (ID3-tagged)"@, "audio"@, "ID3v2 tag at offset 0"@)
    } else if stands_at(d, 0, FLAC@) {
        magic("FLAC audio"@, "audio"@, "fLaC stream marker at offset 0"@)
    } else if stands_at(d, 0, OGGS@) {
        magic("Ogg container"@, "container"@, "OggS page at offset 0"@)
    } else if stands_at(d, 0, EBML@) {
        magic("Matroska / WebM"@, "container"@, "EBML magic at offset 0"@)
    } else if stands_at(d, 0, FORM@) && stands_at(d, 8, AIFF@) {
        magic("AIFF audio"@, "audio"@, "FORM/AIFF header at offset 0"@)
    } else {
        None
    }
}

/// Whether a scanner's answer is the one wanted.
pub open spec fn answers(r: Option<Finding>, want: Option<Found>) -> bool {
    match r {
        Some(f) => want == Some(f@),
        None => want is None,
    }
}

fn certain(kind: &str, class: &str, evidence: &str) -> (r: Option<Finding>)
    ensures
        answers(r, magic(kind@, class@, evidence@)),
{
    Some(
        Finding {
            kind: kind.to_owned(),
            class: class.to_owned(),
            offset: 0,
            confidence: CERTAIN,
            evidence: evidence.to_owned(),
        },
    )
}

fn scan_magic(d: &[u8]) -> (r: Option<Finding>)
    ensures
        answers(r, magic_found(d@)),
{
    if d.len() < 12 {
        return None;
    }
    if matches_at(d, 4, &FTYP) {
        let mut kind = "ISO BMFF / MP4 (brand ".to_owned();
        kind.append(lossy_text(&d[8..12]).as_str());
        kind.append(")");
        certain(kind.as_str(), "container", "intact ftyp box at offset 0")
    } else if matches_at(d, 0, &RIFF) && matches_at(d, 8, &WAVE) {
        certain("WAV audio", "audio", "RIFF/WAVE header at offset 0")
    } else if matches_at(d, 0, &RIFF) && matches_at(d, 8, &AVI) {
        certain("AVI video", "video", "RIFF/AVI header at offset 0")
    } else if matches_at(d, 0, &ID3) {
        certain("MP3 audio (ID3-tagged)", "audio", "ID3v2 tag at offset 0")
    } else if matches_at(d, 0, &FLAC) {
        certain("FLAC audio", "audio", "fLaC stream marker at offset 0")
    } else if matches_at(d, 0, &OGGS) {
        certain("Ogg container", "container", "OggS page at offset 0")
    } else if matches_at(d, 0, &EBML) {
        certain("Matroska / WebM", "container", "EBML magic at offset 0")
    } else if matches_at(d, 0, &FORM) && matches_at(d, 8, &AIFF) {
        certain("AIFF audio", "audio", "FORM/AIFF header at offset 0")
    } else {
        None
    }
}

// ---------------------------------------------------------------------------
// MP4 atom skeleton: finds box structure even when the front of the file
// is gone. The moov box (and friends) are unmistakable.
// ---------------------------------------------------------------------------

/// Whether a known top-level atom is named at byte `i` of `d`.
pub open spec fn atom_named_at(d: Seq<u8>, i: int) -> bool {
    stands_at(d, i, FTYP@) || stands_at(d, i, MOOV@) || stands_at(d, i, MDAT@) || stands_at(
        d,
        i,
        FREE@,
    ) || stands_at(d, i, SKIP@) || stands_at(d, i, WIDE@) || stands_at(d, i, MOOF@) || stands_at(
        d,
        i,
        MFRA@,
    ) || stands_at(d, i, UDTA@) || stands_at(d, i, UUID@) || stands_at(d, i, PNOT@) || stands_at(
        d,
        i,
        SIDX@,
    )
}

/// A plausible top-level MP4 atom.
#[derive(Debug, Clone, Copy)]
pub struct AtomHit {
    /// Offset of the size field (atom start).
    pub offset: u64,
    pub size: u64,
    pub fourcc: [u8; 4],
    /// Whether offset + size lands exactly on EOF or another known atom.
    pub chains: bool,
}

/// An atom in the data.
pub struct Atom {
    pub offset: int,
    pub size: int,
    pub fourcc: Seq<u8>,
    pub chains: bool,
}

impl View for AtomHit {
    type V = Atom;

    open spec fn view(&self) -> Atom {
        Atom {
            offset: self.offset as int,
            size: self.size as int,
            fourcc: self.fourcc@,
            chains: self.chains,
        }
    }
}

/// The size an atom at `start` claims: 0 means "to the end of the data", and 1
/// that a 64-bit size follows the name.
pub open spec fn atom_size(d: Seq<u8>, start: int) -> Option<int> {
    let size = be32_at(d, start);
    if size == 0 {
        Some(d.len() - start)
    } else if size == 1 {
        if start + 16 > d.len() {
            None
        } else {
            Some(be64_at(d, start + 8))
        }
    } else {
        Some(size)
    }
}

/// The atom at `start`: a known name, and a size that holds the header and stays
/// within the data.
pub open spec fn atom_at(d: Seq<u8>, start: int) -> Option<Atom> {
    if start < 0 || start + 8 > d.len() || !atom_named_at(d, start + 4) {
        None
    } else {
        match atom_size(d, start) {
            Some(size) => if size < 8 || start + size > d.len() {
                None
            } else {
                Some(
                    Atom {
                        offset: start,
                        size,
                        fourcc: d.subrange(start + 4, start + 8),
                        chains: start + size == d.len() || atom_named_at(d, start + size + 4),
                    },
                )
            },
            None => None,
        }
    }
}

/// All atoms that start before `n`, in order.
pub open spec fn atoms_before(d: Seq<u8>, n: int) -> Seq<Atom>
    decreases n,
{
    if n <= 0 {
        seq![]
    } else {
        match atom_at(d, n - 1) {
            Some(a) => atoms_before(d, n - 1).push(a),
            None => atoms_before(d, n - 1),
        }
    }
}

/// All atoms of the data, in order.
pub open spec fn atoms(d: Seq<u8>) -> Seq<Atom> {
    atoms_before(d, d.len() as int)
}

pub(crate) fn names_atom(d: &[u8], i: usize) -> (r: bool)
    ensures
        r == atom_named_at(d@, i as int),
{
    matches_at(d, i, &FTYP) || matches_at(d, i, &MOOV) || matches_at(d, i, &MDAT) || matches_at(
        d,
        i,
        &FREE,
    ) || matches_at(d, i, &SKIP) || matches_at(d, i, &WIDE) || matches_at(d, i, &MOOF)
        || matches_at(d, i, &MFRA) || matches_at(d, i, &UDTA) || matches_at(d, i, &UUID)
        || matches_at(d, i, &PNOT) || matches_at(d, i, &SIDX)
}

fn read_atom(d: &[u8], start: usize) -> (r: Option<AtomHit>)
    requires
        start + 8 <= d@.len(),
    ensures
        match r {
            Some(h) => atom_at(d@, start as int) == Some(h@),
            None => atom_at(d@, start as int) is None,
        },
{
    assert(start + 8 <= d.len());
    if !names_atom(d, start + 4) {
        return None;
    }
    let left: usize = d.len() - start;
    let size32: u32 = be32(d, start);
    let size: u64 = if size32 == 0 {
        left as u64
    } else if size32 == 1 {
        if left < 16 {
            return None;
        }
        be64(d, start + 8)
    } else {
        size32 as u64
    };
    if size < 8 || size > left as u64 {
        return None;
    }
    let end: usize = start + size as usize;
    let chains = end == d.len() || (d.len() - end >= 8 && names_atom(d, end + 4));
    let fourcc = [d[start + 4], d[start + 5], d[start + 6], d[start + 7]];
    assert(fourcc@ =~= d@.subrange(start + 4, start + 8));
    Some(AtomHit { offset: start as u64, size, fourcc, chains })
}

/// Scans the whole buffer for plausible top-level MP4 atoms.
pub fn scan_atoms(d: &[u8]) -> (hits: Vec<AtomHit>)
    ensures
        hits@.map_values(|h: AtomHit| h@) == atoms(d@),
{
    let mut hits: Vec<AtomHit> = Vec::new();
    let mut i: usize = 0;
    assert(hits@.map_values(|h: AtomHit| h@) =~= atoms_before(d@, 0));
    while i < d.len()
        invariant
            i <= d@.len(),
            hits@.map_values(|h: AtomHit| h@) == atoms_before(d@, i as int),
        decreases d.len() - i,
    {
        if d.len() - i >= 8 {
            if let Some(h) = read_atom(d, i) {
                let ghost before = hits@.map_values(|h: AtomHit| h@);
                hits.push(h);
                assert(hits@.map_values(|h: AtomHit| h@) =~= before.push(h@));
            }
        }
        i += 1;
    }
    hits
}

/// The atoms that chain, in order.
pub open spec fn chained(all: Seq<Atom>) -> Seq<Atom>
    decreases all.len(),
{
    if all.len() == 0 {
        seq![]
    } else if all.last().chains {
        chained(all.drop_last()).push(all.last())
    } else {
        chained(all.drop_last())
    }
}

/// Whether some atom of the list has the given name.
pub open spec fn has_atom(list: Seq<Atom>, fourcc: Seq<u8>) -> bool {
    exists|i: int| 0 <= i < list.len() && #[trigger] list[i].fourcc == fourcc
}

/// An atom as the evidence trail shows it.
pub open spec fn atom_text(a: Atom) -> Seq<char> {
    utf8_lossy(a.fourcc) + "@"@ + decimal(a.offset as nat) + " ("@ + decimal(a.size as nat)
        + " bytes)"@
}

/// The confidence in an atom chain: 0.5, and 0.3 more for a moov, 0.15 for an mdat.
pub open spec fn mp4_confidence(moov: bool, mdat: bool) -> u64 {
    if moov && mdat {
        0x3fee_6666_6666_6667
    } else if moov {
        0x3fe9_9999_9999_999a
    } else if mdat {
        0x3fe4_cccc_cccc_cccd
    } else {
        EVEN
    }
}

/// What the atom skeleton says.
pub open spec fn mp4_found(d: Seq<u8>) -> Option<Found> {
    let all = atoms(d);
    let chain = chained(all);
    if chain.len() == 0 {
        None
    } else {
        Some(
            Found {
                kind: if all[0].offset == 0 {
                    "ISO BMFF / MP4"@
                } else {
                    "ISO BMFF / MP4 (damaged front)"@
                },
                class: "container"@,
                offset: chain[0].offset,
                confidence: mp4_confidence(has_atom(chain, MOOV@), has_atom(chain, MDAT@)),
                evidence: "self-consistent atom chain: "@ + joined(
                    chain.map_values(|a: Atom| atom_text(a)),
                    ", "@,
                ),
            },
        )
    }
}

fn show_atom(h: &AtomHit) -> (r: String)
    ensures
        r@ == atom_text(h@),
{
    let mut t = lossy_text(&h.fourcc);
    t.append("@");
    push_decimal(&mut t, h.offset);
    t.append(" (");
    push_decimal(&mut t, h.size);
    t.append(" bytes)");
    t
}

fn scan_mp4_atoms(d: &[u8]) -> (r: Option<Finding>)
    ensures
        answers(r, mp4_found(d@)),
{
    let hits = scan_atoms(d);
    let ghost all = hits@.map_values(|h: AtomHit| h@);
    let mut moov = false;
    let mut mdat = false;
    let mut offset: u64 = 0;
    let mut parts: Vec<String> = Vec::new();
    let mut i: usize = 0;
    assert(all.take(0) =~= Seq::<Atom>::empty());
    assert(chained(all.take(0)).map_values(|a: Atom| atom_text(a)) =~= parts@.map_values(
        |s: String| s@,
    ));
    while i < hits.len()
        invariant
            i <= hits@.len(),
            all == hits@.map_values(|h: AtomHit| h@),
            parts@.len() == chained(all.take(i as int)).len(),
            parts@.map_values(|s: String| s@) == chained(all.take(i as int)).map_values(
                |a: Atom| atom_text(a),
            ),
            moov == has_atom(chained(all.take(i as int)), MOOV@),
            mdat == has_atom(chained(all.take(i as int)), MDAT@),
            chained(all.take(i as int)).len() > 0 ==> offset == chained(all.take(i as int))[0].offset,
        decreases hits.len() - i,
    {
        let h = hits[i];
        assert(all[i as int] == h@);
        assert(all.take(i + 1).drop_last() =~= all.take(i as int));
        let ghost before = chained(all.take(i as int));
        let ghost texts = parts@.map_values(|s: String| s@);
        if h.chains {
            let ghost now = before.push(h@);
            assert(chained(all.take(i + 1)) == now);
            if parts.len() == 0 {
                offset = h.offset;
            }
            let m = matches_at(&h.fourcc, 0, &MOOV);
            let n = matches_at(&h.fourcc, 0, &MDAT);
            assert(h.fourcc@.subrange(0, 4) =~= h.fourcc@);
            proof {
                lemma_has_atom_push(before, h@, MOOV@);
                lemma_has_atom_push(before, h@, MDAT@);
            }
            moov = moov || m;
            mdat = mdat || n;
            parts.push(show_atom(&h));
            assert(parts@.map_values(|s: String| s@) =~= texts.push(atom_text(h@)));
            assert(now.map_values(|a: Atom| atom_text(a)) =~= before.map_values(
                |a: Atom| atom_text(a),
            ).push(atom_text(h@)));
        }
        i += 1;
    }
    assert(all.take(i as int) =~= all);
    if parts.len() == 0 {
        return None;
    }
    proof {
        lemma_chained_len(all);
    }
    assert(all[0] == hits@[0]@);
    let kind = if hits[0].offset == 0 {
        "ISO BMFF / MP4"
    } else {
        "ISO BMFF / MP4 (damaged front)"
    };
    let confidence: u64 = if moov && mdat {
        0x3fee_6666_6666_6667
    } else if moov {
        0x3fe9_9999_9999_999a
    } else if mdat {
        0x3fe4_cccc_cccc_cccd
    } else {
        EVEN
    };
    let mut evidence = "self-consistent atom chain: ".to_owned();
    evidence.append(join(&parts, ", ").as_str());
    Some(
        Finding {
            kind: kind.to_owned(),
            class: "container".to_owned(),
            offset,
            confidence,
            evidence,
        },
    )
}

proof fn lemma_has_atom_push(list: Seq<Atom>, a: Atom, fourcc: Seq<u8>)
    ensures
        has_atom(list.push(a), fourcc) == (has_atom(list, fourcc) || a.fourcc == fourcc),
{
    let more = list.push(a);
    if has_atom(list, fourcc) {
        let i = choose|i: int| 0 <= i < list.len() && #[trigger] list[i].fourcc == fourcc;
        assert(more[i].fourcc == fourcc);
    }
    if a.fourcc == fourcc {
        assert(more[list.len() as int].fourcc == fourcc);
    }
    if has_atom(more, fourcc) {
        let i = choose|i: int| 0 <= i < more.len() && #[trigger] more[i].fourcc == fourcc;
        if i < list.len() {
            assert(list[i].fourcc == fourcc);
        }
    }
}

proof fn lemma_chained_len(all: Seq<Atom>)
    ensures
        chained(all).len() <= all.len(),
    decreases all.len(),
{
    if all.len() > 0 {
        lemma_chained_len(all.drop_last());
    }
}

// ---------------------------------------------------------------------------
// MP3: the classic self-synchronizing format. Each frame header predicts
// the next frame's position; a chain of agreeing headers is near-proof.
// AAC in ADTS framing: same chaining trick, different header.
// ---------------------------------------------------------------------------

/// An audio framing whose frame headers tell where the next frame starts.
#[derive(Debug, Clone, Copy, PartialEq, Eq, Structural)]
pub enum Framing {
    Mp3,
    Adts,
}

pub const MP3_BITRATES_V1L3: [u32; 16] = [
    0,
    32,
    40,
    48,
    56,
    64,
    80,
    96,
    112,
    128,
    160,
    192,
    224,
    256,
    320,
    0,
];

pub const MP3_BITRATES_V2L3: [u32; 16] = [
    0,
    8,
    16,
    24,
    32,
    40,
    48,
    56,
    64,
    80,
    96,
    112,
    128,
    144,
    160,
    0,
];

pub const MP3_RATES_V1: [u32; 4] = [44100, 48000, 32000, 0];

pub const MP3_RATES_V2: [u32; 4] = [22050, 24000, 16000, 0];

pub const MP3_RATES_V25: [u32; 4] = [11025, 12000, 8000, 0];

/// The length and description of an MPEG audio Layer III frame with header `h`:
/// 11 sync bits, version, layer, a bit, bitrate, sample rate, padding.
pub open spec fn mp3_header(h: int) -> Option<(int, Seq<char>)> {
    let version = (h / 0x8_0000) % 4;  // 0=2.5, 2=2, 3=1
    let layer = (h / 0x2_0000) % 4;  // 1=III
    let bitrate_idx = (h / 0x1000) % 16;
    let rate_idx = (h / 0x400) % 4;
    let padding = (h / 0x200) % 2;
    let bitrate = if version == 3 {
        MP3_BITRATES_V1L3@[bitrate_idx] as int
    } else {
        MP3_BITRATES_V2L3@[bitrate_idx] as int
    };
    let rate = if version == 3 {
        MP3_RATES_V1@[rate_idx] as int
    } else if version == 2 {
        MP3_RATES_V2@[rate_idx] as int
    } else {
        MP3_RATES_V25@[rate_idx] as int
    };
    let bytes_per_kbit = if version == 3 {
        144 * 1000int
    } else {
        72 * 1000int
    };
    let name = if version == 3 {
        "MPEG-1"@
    } else if version == 2 {
        "MPEG-2"@
    } else {
        "MPEG-2.5"@
    };
    let len = bytes_per_kbit * bitrate / rate + padding;
    if h / 0x20_0000 != 0x7ff || version == 1 || layer != 1 || bitrate == 0 || rate == 0 || len
        < 24 {
        None
    } else {
        Some(
            (
                len,
                name + " Layer III, "@ + decimal(bitrate as nat) + " kbps, "@ + decimal(rate as nat)
                    + " Hz"@,
            ),
        )
    }
}

/// The MPEG audio Layer III frame at `i`.
pub open spec fn mp3_frame(d: Seq<u8>, i: int) -> Option<(int, Seq<char>)> {
    if i + 4 > d.len() {
        None
    } else {
        mp3_header(be32_at(d, i))
    }
}

pub const ADTS_FREQS: [u32; 13] = [
    96000,
    88200,
    64000,
    48000,
    44100,
    32000,
    24000,
    22050,
    16000,
    12000,
    11025,
    8000,
    7350,
];

/// The name of an AAC profile.
pub open spec fn aac_profile(profile: int) -> Seq<char> {
    if profile == 0 {
        "Main"@
    } else if profile == 1 {
        "LC"@
    } else if profile == 2 {
        "SSR"@
    } else {
        "LTP"@
    }
}

/// The ADTS frame at `i`: 12 sync bits, layer 0, profile, sample rate, length.
pub open spec fn adts_frame(d: Seq<u8>, i: int) -> Option<(int, Seq<char>)> {
    let freq = (d[i + 2] / 4) as int % 16;
    let len = (d[i + 3] as int % 4) * 2048 + d[i + 4] * 8 + d[i + 5] / 32;
    if i + 7 > d.len() || d[i] != 0xff || d[i + 1] & 0xf6 != 0xf0 || freq >= 13 || len < 7 {
        None
    } else {
        Some(
            (
                len,
                "AAC "@ + aac_profile(d[i + 2] as int / 64) + " "@ + decimal(
                    ADTS_FREQS@[freq] as nat,
                ) + " Hz"@,
            ),
        )
    }
}

/// The frame at `i` in the given framing.
pub open spec fn frame_at(framing: Framing, d: Seq<u8>, i: int) -> Option<(int, Seq<char>)> {
    match framing {
        Framing::Mp3 => mp3_frame(d, i),
        Framing::Adts => adts_frame(d, i),
    }
}

/// Whether there is a frame at `i`, and `info` describes it.
pub open spec fn describes(framing: Framing, d: Seq<u8>, i: int, info: Seq<char>) -> bool {
    frame_at(framing, d, i) matches Some((len, text)) && text == info
}

/// How many frames, `max` at most, chain from `i`: each starts where the one
/// before it ends, and the last may run past the end of the data.
pub open spec fn frame_chain(framing: Framing, d: Seq<u8>, i: int, max: nat) -> nat
    decreases max,
{
    if max == 0 {
        0
    } else {
        match frame_at(framing, d, i) {
            Some((len, info)) => 1 + if i + len >= d.len() {
                0
            } else {
                frame_chain(framing, d, i + len, (max - 1) as nat)
            },
            None => 0,
        }
    }
}

/// Parses an MPEG audio frame header at `i`; returns (frame_len, description).
pub fn mp3_frame_at(d: &[u8], i: usize) -> (r: Option<(usize, String)>)
    ensures
        match r {
            Some((len, info)) => mp3_frame(d@, i as int) == Some((len as int, info@)) && len < 0x1_0000,
            None => mp3_frame(d@, i as int) is None,
        },
{
    if d.len() < 4 || i > d.len() - 4 {
        return None;
    }
    let h: u32 = be32(d, i);
    if h / 0x20_0000 != 0x7ff {
        return None;  // no sync
    }
    let version: u32 = (h / 0x8_0000) % 4;
    let layer: u32 = (h / 0x2_0000) % 4;
    let bitrate_idx: usize = ((h / 0x1000) % 16) as usize;
    let rate_idx: usize = ((h / 0x400) % 4) as usize;
    let padding: u32 = (h / 0x200) % 2;
    // Only Layer III matters for rescue purposes; II/I are vanishingly rare.
    if version == 1 || layer != 1 {
        return None;
    }
    let bitrate: u32 = if version == 3 {
        MP3_BITRATES_V1L3[bitrate_idx]
    } else {
        MP3_BITRATES_V2L3[bitrate_idx]
    };
    let rate: u32 = if version == 3 {
        MP3_RATES_V1[rate_idx]
    } else if version == 2 {
        MP3_RATES_V2[rate_idx]
    } else {
        MP3_RATES_V25[rate_idx]
    };
    if bitrate == 0 || rate == 0 {
        return None;
    }
    assert(bitrate <= 320 && rate >= 8000);
    let bytes_per_kbit: u32 = if version == 3 {
        144000
    } else {
        72000
    };
    let name = if version == 3 {
        "MPEG-1"
    } else if version == 2 {
        "MPEG-2"
    } else {
        "MPEG-2.5"
    };
    assert(bytes_per_kbit * bitrate <= 144000 * 320) by (nonlinear_arith)
        requires
            bytes_per_kbit <= 144000,
            bitrate <= 320,
    ;
    let whole: u32 = bytes_per_kbit * bitrate;
    assert(whole / rate <= whole / 8000) by (nonlinear_arith)
        requires
            rate >= 8000,
            whole >= 0,
    ;
    let len: u32 = whole / rate + padding;
    if len < 24 {
        return None;
    }
    let mut info = name.to_owned();
    info.append(" Layer III, ");
    push_decimal(&mut info, bitrate as u64);
    info.append(" kbps, ");
    push_decimal(&mut info, rate as u64);
    info.append(" Hz");
    Some((len as usize, info))
}

pub fn adts_frame_at(d: &[u8], i: usize) -> (r: Option<(usize, String)>)
    ensures
        match r {
            Some((len, info)) => adts_frame(d@, i as int) == Some((len as int, info@)) && len < 0x1_0000,
            None => adts_frame(d@, i as int) is None,
        },
{
    if d.len() < 7 || i > d.len() - 7 {
        return None;
    }
    if d[i] != 0xff || d[i + 1] & 0xf6 != 0xf0 {
        return None;  // sync 0xFFF + layer 00
    }
    let profile: u8 = d[i + 2] / 64;
    let freq: usize = ((d[i + 2] / 4) % 16) as usize;
    let len: usize = (d[i + 3] as usize % 4) * 2048 + d[i + 4] as usize * 8 + d[i + 5] as usize / 32;
    if freq >= 13 || len < 7 {
        return None;
    }
    let name = match profile {
        0 => "Main",
        1 => "LC",
        2 => "SSR",
        _ => "LTP",
    };
    let mut info = "AAC ".to_owned();
    info.append(name);
    info.append(" ");
    push_decimal(&mut info, ADTS_FREQS[freq] as u64);
    info.append(" Hz");
    Some((len, info))
}

/// Counts how many consecutive frames chain from position `i`, with the
/// description of the first.
fn chain_frames(d: &[u8], i: usize, max: usize, framing: Framing) -> (r: (usize, Option<String>))
    ensures
        r.0 == frame_chain(framing, d@, i as int, max as nat),
        match r.1 {
            Some(info) => describes(framing, d@, i as int, info@),
            None => r.0 == 0,
        },
{
    let mut count: usize = 0;
    let mut desc: Option<String> = None;
    let mut at: usize = i;
    while count < max
        invariant
            count <= max,
            count + frame_chain(framing, d@, at as int, (max - count) as nat) == frame_chain(
                framing,
                d@,
                i as int,
                max as nat,
            ),
            count == 0 ==> at == i && desc is None,
            match desc {
                Some(info) => describes(framing, d@, i as int, info@),
                None => count == 0,
            },
        decreases max - count,
    {
        let frame = match framing {
            Framing::Mp3 => mp3_frame_at(d, at),
            Framing::Adts => adts_frame_at(d, at),
        };
        match frame {
            Some((len, info)) => {
                if count == 0 {
                    desc = Some(info);
                }
                count += 1;
                if at >= d.len() || len >= d.len() - at {
                    return (count, desc);
                }
                at = at + len;
            },
            None => {
                return (count, desc);
            },
        }
    }
    (count, desc)
}

/// The first position at or after `i` from which four frames chain.
pub open spec fn first_chain(framing: Framing, d: Seq<u8>, i: int) -> Option<int>
    decreases d.len() - i,
{
    if i >= d.len() {
        None
    } else if frame_chain(framing, d, i, 8) >= 4 {
        Some(i)
    } else {
        first_chain(framing, d, i + 1)
    }
}

/// The confidence in a chain of `count` MP3 frames: 0.95 for eight, less for fewer.
pub open spec fn mp3_confidence(count: nat) -> u64 {
    if count >= 8 {
        0x3fee_6666_6666_6666
    } else if count == 7 {
        0x3fed_1eb8_51eb_851e
    } else if count == 6 {
        0x3fec_28f5_c28f_5c28
    } else if count == 5 {
        0x3feb_3333_3333_3333
    } else {
        0x3fea_3d70_a3d7_0a3d
    }
}

/// The confidence in a chain of `count` ADTS frames: 0.93 for eight, less for fewer.
pub open spec fn adts_confidence(count: nat) -> u64 {
    if count >= 8 {
        0x3fed_c28f_5c28_f5c3
    } else if count == 7 {
        0x3feb_851e_b851_eb85
    } else if count == 6 {
        0x3fea_8f5c_28f5_c290
    } else if count == 5 {
        0x3fe9_9999_9999_999a
    } else {
        0x3fe8_a3d7_0a3d_70a4
    }
}

/// What the frame chain that starts at `i` says.
pub open spec fn chain_found(framing: Framing, d: Seq<u8>, i: int) -> Found {
    let count = frame_chain(framing, d, i, 8);
    let info = frame_at(framing, d, i).unwrap().1;
    match framing {
        Framing::Mp3 => Found {
            kind: "MP3 audio ("@ + info + ")"@,
            class: "audio"@,
            offset: i,
            confidence: mp3_confidence(count),
            evidence: decimal(count) + "+ consecutive frame headers chain from offset "@ + decimal(
                i as nat,
            ),
        },
        Framing::Adts => Found {
            kind: "AAC audio in ADTS ("@ + info + ")"@,
            class: "audio"@,
            offset: i,
            confidence: adts_confidence(count),
            evidence: decimal(count) + "+ consecutive ADTS headers chain from offset "@ + decimal(
                i as nat,
            ),
        },
    }
}

/// What the first frame chain says.
pub open spec fn frames_found(framing: Framing, d: Seq<u8>) -> Option<Found> {
    match first_chain(framing, d, 0) {
        Some(i) => Some(chain_found(framing, d, i)),
        None => None,
    }
}

fn report_chain(d: &[u8], i: usize, count: usize, info: &str, framing: Framing) -> (f: Finding)
    requires
        count == frame_chain(framing, d@, i as int, 8),
        describes(framing, d@, i as int, info@),
    ensures
        f@ == chain_found(framing, d@, i as int),
{
    let mut evidence = String::new();
    push_decimal(&mut evidence, count as u64);
    let (mut kind, confidence) = match framing {
        Framing::Mp3 => {
            evidence.append("+ consecutive frame headers chain from offset ");
            let confidence: u64 = if count >= 8 {
                0x3fee_6666_6666_6666
            } else if count == 7 {
                0x3fed_1eb8_51eb_851e
            } else if count == 6 {
                0x3fec_28f5_c28f_5c28
            } else if count == 5 {
                0x3feb_3333_3333_3333
            } else {
                0x3fea_3d70_a3d7_0a3d
            };
            ("MP3 audio (".to_owned(), confidence)
        },
        Framing::Adts => {
            evidence.append("+ consecutive ADTS headers chain from offset ");
            let confidence: u64 = if count >= 8 {
                0x3fed_c28f_5c28_f5c3
            } else if count == 7 {
                0x3feb_851e_b851_eb85
            } else if count == 6 {
                0x3fea_8f5c_28f5_c290
            } else if count == 5 {
                0x3fe9_9999_9999_999a
            } else {
                0x3fe8_a3d7_0a3d_70a4
            };
            ("AAC audio in ADTS (".to_owned(), confidence)
        },
    };
    push_decimal(&mut evidence, i as u64);
    kind.append(info);
    kind.append(")");
    let f = Finding { kind, class: "audio".to_owned(), offset: i as u64, confidence, evidence };
    assert(Seq::<char>::empty() + decimal(count as nat) =~= decimal(count as nat));
    f
}

fn scan_frames(d: &[u8], framing: Framing) -> (r: Option<Finding>)
    ensures
        answers(r, frames_found(framing, d@)),
{
    // Step a byte at a time until we find a position where >= 4 frames chain.
    let mut i: usize = 0;
    while i < d.len()
        invariant
            first_chain(framing, d@, 0) == first_chain(framing, d@, i as int),
        decreases d.len() - i,
    {
        if d[i] == 0xff {
            let (count, desc) = chain_frames(d, i, 8, framing);
            if count >= 4 {
                if let Some(info) = desc {
                    return Some(report_chain(d, i, count, info.as_str(), framing));
                }
            }
        } else {
            assert(frame_at(framing, d@, i as int) is None);
        }
        i += 1;
    }
    None
}

/// Looks for MP3 frames.
pub fn scan_mp3(d: &[u8]) -> (r: Option<Finding>)
    ensures
        answers(r, frames_found(Framing::Mp3, d@)),
{
    scan_frames(d, Framing::Mp3)
}

// ---------------------------------------------------------------------------
// MPEG-TS: 0x47 sync byte at strict 188-byte cadence.
// ---------------------------------------------------------------------------

/// How many sync bytes stand 188 bytes apart from `i` on.
pub open spec fn sync_run(d: Seq<u8>, i: int) -> nat
    decreases
            (if i < d.len() {
                d.len() - i
            } else {
                0
            }),
{
    if 0 <= i < d.len() && d[i] == 0x47 {
        1 + sync_run(d, i + 188)
    } else {
        0
    }
}

/// The first of the starts from `start` to 187 with five sync bytes in a row.
pub open spec fn first_cadence(d: Seq<u8>, start: int) -> Option<int>
    decreases 188 - start,
{
    if start >= 188 {
        None
    } else if sync_run(d, start) >= 5 {
        Some(start)
    } else {
        first_cadence(d, start + 1)
    }
}

/// The confidence in `count` sync bytes: 0.5 and 0.05 for each, 0.97 at most.
pub open spec fn ts_confidence(count: nat) -> u64 {
    if count >= 10 {
        0x3fef_0a3d_70a3_d70a
    } else if count == 9 {
        0x3fee_6666_6666_6666
    } else if count == 8 {
        0x3fec_cccc_cccc_cccd
    } else if count == 7 {
        0x3feb_3333_3333_3334
    } else if count == 6 {
        0x3fe9_9999_9999_999a
    } else {
        0x3fe8_0000_0000_0000
    }
}

/// What the sync bytes say, where there is room for five packets.
pub open spec fn ts_found(d: Seq<u8>) -> Option<Found> {
    match first_cadence(d, 0) {
        Some(start) => if d.len() < 940 {
            None
        } else {
            Some(
                Found {
                    kind: "MPEG transport stream"@,
                    class: "container"@,
                    offset: start,
                    confidence: ts_confidence(sync_run(d, start)),
                    evidence: decimal(sync_run(d, start))
                        + " sync bytes at 188-byte cadence from offset "@ + decimal(start as nat),
                },
            )
        },
        None => None,
    }
}

fn count_syncs(d: &[u8], start: usize) -> (count: u64)
    ensures
        count == sync_run(d@, start as int),
{
    let mut count: u64 = 0;
    let mut i: usize = start;
    while i < d.len() && d[i] == 0x47
        invariant
            count + sync_run(d@, i as int) == sync_run(d@, start as int),
            count <= i <= usize::MAX,
        decreases d.len() - i,
    {
        count += 1;
        if d.len() - i <= 188 {
            assert(sync_run(d@, i + 188) == 0);
            return count;
        }
        i += 188;
    }
    count
}

fn scan_mpegts(d: &[u8]) -> (r: Option<Finding>)
    ensures
        answers(r, ts_found(d@)),
{
    if d.len() < 940 {
        return None;
    }
    let mut start: usize = 0;
    while start < 188
        invariant
            start <= 188,
            d@.len() >= 940,
            first_cadence(d@, 0) == first_cadence(d@, start as int),
        decreases 188 - start,
    {
        let count: u64 = count_syncs(d, start);
        if count >= 5 {
            let confidence: u64 = if count >= 10 {
                0x3fef_0a3d_70a3_d70a
            } else if count == 9 {
                0x3fee_6666_6666_6666
            } else if count == 8 {
                0x3fec_cccc_cccc_cccd
            } else if count == 7 {
                0x3feb_3333_3333_3334
            } else if count == 6 {
                0x3fe9_9999_9999_999a
            } else {
                0x3fe8_0000_0000_0000
            };
            let mut evidence = String::new();
            push_decimal(&mut evidence, count);
            assert(evidence@ =~= decimal(count as nat));
            evidence.append(" sync bytes at 188-byte cadence from offset ");
            push_decimal(&mut evidence, start as u64);
            return Some(
                Finding {
                    kind: "MPEG transport stream".to_owned(),
                    class: "container".to_owned(),
                    offset: start as u64,
                    confidence,
                    evidence,
                },
            );
        }
        start += 1;
    }
    None
}

// ---------------------------------------------------------------------------
// H.264 Annex B: start codes 00 00 (00) 01 followed by sane NAL types.
// Seeing SPS+PPS+IDR is essentially a signed confession.
// ---------------------------------------------------------------------------

/// A profile that an SPS may open with.
pub open spec fn known_profile(b: u8) -> bool {
    b == 66 || b == 77 || b == 88 || b == 100 || b == 110 || b == 122 || b == 244 || b == 44 || b
        == 83 || b == 86 || b == 118 || b == 128
}

/// The type of the NAL unit whose header stands at `hdr`, if the header is
/// consistent and the payload opens plausibly.
///
/// Random data, and especially MP4 index-table wreckage, which is full of small
/// big-endian integers, manufactures 00 00 01 sequences for free; hence the care.
pub open spec fn nal_type_at(d: Seq<u8>, hdr: int) -> Option<u8> {
    let nal = d[hdr];
    let ty = nal % 32;
    let ref_idc = nal / 32;
    if hdr < 0 || hdr >= d.len() {
        None
    } else if nal >= 128 || ty < 1 || ty > 23 {
        None
    } else if (ty == 5 || ty == 7 || ty == 8) && ref_idc == 0 {
        None  // IDR/SPS/PPS are references
    } else if (ty == 6 || 9 <= ty <= 12) && ref_idc != 0 {
        None  // SEI/AUD/end/filler never are
    } else if ty <= 5 && (hdr + 1 >= d.len() || d[hdr + 1] == 0) {
        // a zero first byte means 8+ leading Exp-Golomb zeros: not a thing in real slices
        None
    } else if ty == 7 && (hdr + 1 >= d.len() || !known_profile(d[hdr + 1])) {
        None
    } else {
        Some(ty)
    }
}

/// The position of the NAL header behind a start code at `i`.
pub open spec fn after_start_code(d: Seq<u8>, i: int) -> Option<int> {
    if i < 0 || i + 4 >= d.len() || d[i] != 0 || d[i + 1] != 0 {
        None
    } else if d[i + 2] == 1 {
        Some(i + 3)
    } else if d[i + 2] == 0 && d[i + 3] == 1 {
        Some(i + 4)
    } else {
        None
    }
}

/// The start codes found from `i` on, with the type of the NAL unit behind each:
/// `room` at most. The search goes on behind the header of a NAL unit found.
pub open spec fn start_codes(d: Seq<u8>, i: int, room: nat) -> Seq<(int, u8)>
    decreases d.len() - i,
{
    if i < 0 || i + 4 >= d.len() || room == 0 {
        seq![]
    } else {
        match after_start_code(d, i) {
            Some(hdr) => match nal_type_at(d, hdr) {
                Some(ty) => seq![(i, ty)] + start_codes(d, hdr + 1, (room - 1) as nat),
                None => start_codes(d, i + 1, room),
            },
            None => start_codes(d, i + 1, room),
        }
    }
}

/// Whether a NAL unit of the given type was found.
pub open spec fn has_type(hits: Seq<(int, u8)>, ty: u8) -> bool {
    exists|i: int| 0 <= i < hits.len() && (#[trigger] hits[i]).1 == ty
}

/// Whether an SPS has a PPS start code right behind it: the Annex B signature.
pub open spec fn sps_pps_adjacent(hits: Seq<(int, u8)>) -> bool {
    exists|i: int|
        0 <= i < hits.len() - 1 && (#[trigger] hits[i]).1 == 7 && hits[i + 1].1 == 8 && hits[i
            + 1].0 - hits[i].0 < 128
}

/// The confidence in an Annex B stream: 0.96 for the signature and an IDR, 0.55
/// with all three types present but scattered, else 0.5.
pub open spec fn annexb_confidence(hits: Seq<(int, u8)>) -> u64 {
    if sps_pps_adjacent(hits) && has_type(hits, 5) {
        0x3fee_b851_eb85_1eb8
    } else if has_type(hits, 7) && has_type(hits, 8) && has_type(hits, 5) {
        0x3fe1_9999_9999_999a
    } else {
        EVEN
    }
}

/// What the start codes say.
pub open spec fn annexb_found(d: Seq<u8>) -> Option<Found> {
    let hits = start_codes(d, 0, 64);
    if hits.len() >= 4 && (has_type(hits, 7) || has_type(hits, 5)) {
        Some(
            Found {
                kind: "H.264 elementary stream (Annex B)"@,
                class: "video"@,
                offset: hits[0].0,
                confidence: annexb_confidence(hits),
                evidence: decimal(hits.len()) + " start codes; SPS:"@ + bool_text(has_type(hits, 7))
                    + " PPS:"@ + bool_text(has_type(hits, 8)) + " IDR:"@ + bool_text(
                    has_type(hits, 5),
                ) + " SPS\u{2192}PPS:"@ + bool_text(sps_pps_adjacent(hits)),
            },
        )
    } else {
        None
    }
}

fn valid_nal_at(d: &[u8], hdr: usize) -> (r: Option<u8>)
    ensures
        r == nal_type_at(d@, hdr as int),
{
    if hdr >= d.len() {
        return None;
    }
    let nal: u8 = d[hdr];
    let ty: u8 = nal % 32;
    let ref_idc: u8 = nal / 32;
    if nal >= 128 || ty < 1 || ty > 23 {
        return None;
    }
    if (ty == 5 || ty == 7 || ty == 8) && ref_idc == 0 {
        return None;
    }
    if (ty == 6 || (9 <= ty && ty <= 12)) && ref_idc != 0 {
        return None;
    }
    if ty <= 5 || ty == 7 {
        if d.len() - hdr < 2 {
            return None;
        }
        let b: u8 = d[hdr + 1];
        if ty == 7 {
            match b {
                66 | 77 | 88 | 100 | 110 | 122 | 244 | 44 | 83 | 86 | 118 | 128 => {},
                _ => {
                    return None;
                },
            }
        } else if b == 0 {
            return None;
        }
    }
    Some(ty)
}

spec fn wide_hits(hits: Seq<(u64, u8)>) -> Seq<(int, u8)> {
    hits.map_values(|h: (u64, u8)| (h.0 as int, h.1))
}

fn find_start_codes(d: &[u8]) -> (hits: Vec<(u64, u8)>)
    ensures
        wide_hits(hits@) == start_codes(d@, 0, 64),
        hits@.len() <= 64,
        forall|i: int, j: int| 0 <= i < j < hits@.len() ==> hits@[i].0 < hits@[j].0,
{
    let mut hits: Vec<(u64, u8)> = Vec::new();
    let mut i: usize = 0;
    assert(wide_hits(hits@) + start_codes(d@, 0, 64) =~= start_codes(d@, 0, 64));
    while d.len() > 4 && i < d.len() - 4 && hits.len() < 64
        invariant
            i <= d@.len(),
            hits@.len() <= 64,
            wide_hits(hits@) + start_codes(d@, i as int, (64 - hits@.len()) as nat) == start_codes(
                d@,
                0,
                64,
            ),
            forall|j: int| 0 <= j < hits@.len() ==> (#[trigger] hits@[j]).0 < i,
            forall|j: int, k: int| 0 <= j < k < hits@.len() ==> hits@[j].0 < hits@[k].0,
        decreases d.len() - i,
    {
        if d[i] == 0 && d[i + 1] == 0 && (d[i + 2] == 1 || (d[i + 2] == 0 && d[i + 3] == 1)) {
            let hdr: usize = if d[i + 2] == 1 {
                i + 3
            } else {
                i + 4
            };
            if let Some(ty) = valid_nal_at(d, hdr) {
                let ghost before = wide_hits(hits@);
                let ghost rest = start_codes(d@, hdr + 1, (64 - hits@.len() - 1) as nat);
                hits.push((i as u64, ty));
                assert(wide_hits(hits@) =~= before.push((i as int, ty)));
                assert(before + (seq![(i as int, ty)] + rest) =~= wide_hits(hits@) + rest);
                i = hdr;
            }
        }
        i += 1;
    }
    assert(wide_hits(hits@) + Seq::<(int, u8)>::empty() =~= wide_hits(hits@));
    hits
}

fn any_of_type(hits: &[(u64, u8)], ty: u8) -> (r: bool)
    ensures
        r == has_type(wide_hits(hits@), ty),
{
    let ghost wide = wide_hits(hits@);
    let mut i: usize = 0;
    while i < hits.len()
        invariant
            i <= hits@.len(),
            wide == wide_hits(hits@),
            forall|j: int| 0 <= j < i ==> (#[trigger] wide[j]).1 != ty,
        decreases hits.len() - i,
    {
        assert(wide[i as int].1 == hits@[i as int].1);
        if hits[i].1 == ty {
            return true;
        }
        i += 1;
    }
    false
}

fn any_sps_pps(hits: &[(u64, u8)]) -> (r: bool)
    requires
        forall|i: int, j: int| 0 <= i < j < hits@.len() ==> hits@[i].0 < hits@[j].0,
    ensures
        r == sps_pps_adjacent(wide_hits(hits@)),
{
    let ghost wide = wide_hits(hits@);
    let mut i: usize = 0;
    while hits.len() > 1 && i < hits.len() - 1
        invariant
            wide == wide_hits(hits@),
            forall|i: int, j: int| 0 <= i < j < hits@.len() ==> hits@[i].0 < hits@[j].0,
            forall|j: int|
                0 <= j < i ==> !((#[trigger] wide[j]).1 == 7 && wide[j + 1].1 == 8 && wide[j + 1].0
                    - wide[j].0 < 128),
        decreases hits.len() - i,
    {
        let a = hits[i];
        let b = hits[i + 1];
        assert(wide[i as int] == (a.0 as int, a.1));
        assert(wide[i + 1] == (b.0 as int, b.1));
        if a.1 == 7 && b.1 == 8 && b.0 - a.0 < 128 {
            return true;
        }
        i += 1;
    }
    false
}

fn scan_h264_annexb(d: &[u8]) -> (r: Option<Finding>)
    ensures
        answers(r, annexb_found(d@)),
{
    let hits = find_start_codes(d);
    let ghost wide = wide_hits(hits@);
    let sps = any_of_type(&hits, 7);
    let pps = any_of_type(&hits, 8);
    let idr = any_of_type(&hits, 5);
    let adjacent = any_sps_pps(&hits);
    if hits.len() >= 4 && (sps || idr) {
        let confidence: u64 = if adjacent && idr {
            0x3fee_b851_eb85_1eb8
        } else if sps && pps && idr {
            0x3fe1_9999_9999_999a  // all present but scattered: could be coincidence
        } else {
            EVEN
        };
        let mut evidence = String::new();
        push_decimal(&mut evidence, hits.len() as u64);
        assert(evidence@ =~= decimal(wide.len()));
        evidence.append(" start codes; SPS:");
        push_bool(&mut evidence, sps);
        evidence.append(" PPS:");
        push_bool(&mut evidence, pps);
        evidence.append(" IDR:");
        push_bool(&mut evidence, idr);
        evidence.append(" SPS\u{2192}PPS:");
        push_bool(&mut evidence, adjacent);
        assert(wide[0].0 == hits@[0].0);
        return Some(
            Finding {
                kind: "H.264 elementary stream (Annex B)".to_owned(),
                class: "video".to_owned(),
                offset: hits[0].0,
                confidence,
                evidence,
            },
        );
    }
    None
}

// ---------------------------------------------------------------------------
// AVCC-style H.264: what lives inside an MP4's mdat: 4-byte big-endian
// length prefixes, each followed by a valid NAL header. A chain of these
// means "this is the body of an MP4 whose head has been cut off".
// ---------------------------------------------------------------------------

/// How many length-prefixed NAL units, `max` at most, chain from `i`. Each is
/// whole, not empty, and has a plausible header byte.
pub open spec fn avcc_chain(d: Seq<u8>, i: int, max: nat) -> nat
    decreases max,
{
    let len = be32_at(d, i);
    let ty = d[i + 4] % 32;
    if max == 0 || i < 0 || i + 5 > d.len() || len == 0 || i + 4 + len > d.len() || d[i + 4] >= 128
        || ty < 1 || ty > 23 {
        0
    } else {
        1 + avcc_chain(d, i + 4 + len, (max - 1) as nat)
    }
}

/// From position `i`, counts how many length-prefixed NAL units chain.
pub fn avcc_chain_len(d: &[u8], i: usize, max: usize) -> (count: usize)
    ensures
        count == avcc_chain(d@, i as int, max as nat),
{
    let mut count: usize = 0;
    let mut at: usize = i;
    while count < max && d.len() >= 5 && at <= d.len() - 5
        invariant
            count <= max,
            count + avcc_chain(d@, at as int, (max - count) as nat) == avcc_chain(
                d@,
                i as int,
                max as nat,
            ),
        decreases max - count,
    {
        let len: u32 = be32(d, at);
        if len == 0 || len as u64 > (d.len() - at - 4) as u64 {
            return count;
        }
        let nal: u8 = d[at + 4];
        if nal >= 128 || nal % 32 < 1 || nal % 32 > 23 {
            return count;
        }
        at = at + 4 + len as usize;
        count += 1;
    }
    count
}

/// The first position from `i` on, near the start of the data, from which six
/// NAL units chain.
pub open spec fn first_avcc_chain(d: Seq<u8>, i: int) -> Option<int>
    decreases d.len() - i,
{
    if i < 0 || i + 5 > d.len() || i + 5 > 65536 {
        None
    } else if avcc_chain(d, i, 16) >= 6 {
        Some(i)
    } else {
        first_avcc_chain(d, i + 1)
    }
}

/// The confidence in `count` chained NAL units: 0.55 and 0.025 for each, 0.9 at most.
pub open spec fn avcc_confidence(count: nat) -> u64 {
    if count >= 14 {
        0x3fec_cccc_cccc_cccd
    } else if count == 13 {
        0x3fec_0000_0000_0000
    } else if count == 12 {
        0x3feb_3333_3333_3334
    } else if count == 11 {
        0x3fea_6666_6666_6667
    } else if count == 10 {
        0x3fe9_9999_9999_999a
    } else if count == 9 {
        0x3fe8_cccc_cccc_cccd
    } else if count == 8 {
        0x3fe8_0000_0000_0000
    } else if count == 7 {
        0x3fe7_3333_3333_3334
    } else {
        0x3fe6_6666_6666_6667
    }
}

/// What the length prefixes say.
pub open spec fn avcc_found(d: Seq<u8>) -> Option<Found> {
    match first_avcc_chain(d, 0) {
        Some(i) => Some(
            Found {
                kind: "H.264 in MP4 framing (length-prefixed NALs)"@,
                class: "video"@,
                offset: i,
                confidence: avcc_confidence(avcc_chain(d, i, 16)),
                evidence: decimal(avcc_chain(d, i, 16))
                    + " length-prefixed NAL units chain from offset "@ + decimal(i as nat)
                    + " \u{2014} looks like mdat payload from a head_truncated MP4"@,
            },
        ),
        None => None,
    }
}

fn scan_avcc_lengths(d: &[u8]) -> (r: Option<Finding>)
    ensures
        answers(r, avcc_found(d@)),
{
    // Sample a handful of alignments near the start; mdat payloads usually
    // begin within the first few hundred bytes of a head_truncated file.
    let limit: usize = if d.len() < 65536 {
        d.len()
    } else {
        65536
    };
    let mut i: usize = 0;
    while limit >= 5 && i <= limit - 5
        invariant
            limit <= d@.len(),
            limit == d@.len() || limit == 65536,
            limit <= 65536,
            first_avcc_chain(d@, 0) == first_avcc_chain(d@, i as int),
        decreases limit - i,
    {
        let count: usize = avcc_chain_len(d, i, 16);
        if count >= 6 {
            let confidence: u64 = if count >= 14 {
                0x3fec_cccc_cccc_cccd
            } else if count == 13 {
                0x3fec_0000_0000_0000
            } else if count == 12 {
                0x3feb_3333_3333_3334
            } else if count == 11 {
                0x3fea_6666_6666_6667
            } else if count == 10 {
                0x3fe9_9999_9999_999a
            } else if count == 9 {
                0x3fe8_cccc_cccc_cccd
            } else if count == 8 {
                0x3fe8_0000_0000_0000
            } else if count == 7 {
                0x3fe7_3333_3333_3334
            } else {
                0x3fe6_6666_6666_6667
            };
            let mut evidence = String::new();
            push_decimal(&mut evidence, count as u64);
            assert(evidence@ =~= decimal(count as nat));
            evidence.append(" length-prefixed NAL units chain from offset ");
            push_decimal(&mut evidence, i as u64);
            evidence.append(" \u{2014} looks like mdat payload from a head_truncated MP4");
            return Some(
                Finding {
                    kind: "H.264 in MP4 framing (length-prefixed NALs)".to_owned(),
                    class: "video".to_owned(),
                    offset: i as u64,
                    confidence,
                    evidence,
                },
            );
        }
        i += 1;
    }
    None
}

// ---------------------------------------------------------------------------
// EBML / Matroska: cluster IDs survive even when the EBML header doesn't.
// ---------------------------------------------------------------------------

pub const EBML_CLUSTER: [u8; 4] = [0x1f, 0x43, 0xb6, 0x75];

pub const EBML_SEGMENT: [u8; 4] = [0x18, 0x53, 0x80, 0x67];

/// The first cluster or segment ID from `i` on. The very last position is not
/// looked at: an ID there has nothing behind it.
pub open spec fn first_ebml(d: Seq<u8>, i: int) -> Option<int>
    decreases d.len() - i,
{
    if i < 0 || i + 4 >= d.len() {
        None
    } else if stands_at(d, i, EBML_CLUSTER@) || stands_at(d, i, EBML_SEGMENT@) {
        Some(i)
    } else {
        first_ebml(d, i + 1)
    }
}

/// What the EBML IDs say, where the file does not open like an EBML file.
pub open spec fn ebml_found(d: Seq<u8>) -> Option<Found> {
    match first_ebml(d, 0) {
        Some(i) => if d[0] != 0x1a {
            Some(
                Found {
                    kind: "Matroska / WebM (damaged front)"@,
                    class: "container"@,
                    offset: i,
                    confidence: 0x3fe3_3333_3333_3333,
                    evidence: "EBML segment/cluster IDs found at offset "@ + decimal(i as nat),
                },
            )
        } else {
            None
        },
        None => None,
    }
}

fn scan_ebml(d: &[u8]) -> (r: Option<Finding>)
    ensures
        answers(r, ebml_found(d@)),
{
    let mut i: usize = 0;
    while d.len() > 4 && i < d.len() - 4
        invariant
            first_ebml(d@, 0) == first_ebml(d@, i as int),
        decreases d.len() - i,
    {
        if matches_at(d, i, &EBML_CLUSTER) || matches_at(d, i, &EBML_SEGMENT) {
            if d[0] == 0x1a {
                return None;
            }
            let mut evidence = "EBML segment/cluster IDs found at offset ".to_owned();
            push_decimal(&mut evidence, i as u64);
            return Some(
                Finding {
                    kind: "Matroska / WebM (damaged front)".to_owned(),
                    class: "container".to_owned(),
                    offset: i as u64,
                    confidence: 0x3fe3_3333_3333_3333,
                    evidence,
                },
            );
        }
        i += 1;
    }
    None
}

// ---------------------------------------------------------------------------
// Ogg pages mid-file.
// ---------------------------------------------------------------------------

/// The positions before `n` where an Ogg page marker stands, in order.
pub open spec fn ogg_pages(d: Seq<u8>, n: int) -> Seq<int>
    decreases n,
{
    if n <= 0 {
        seq![]
    } else if stands_at(d, n - 1, OGGS@) {
        ogg_pages(d, n - 1).push(n - 1)
    } else {
        ogg_pages(d, n - 1)
    }
}

/// What the page markers say, where the file does not open with one; three are
/// counted at most, and the very last position is not looked at.
pub open spec fn ogg_found(d: Seq<u8>) -> Option<Found> {
    let pages = ogg_pages(d, d.len() - 4);
    if pages.len() < 2 || stands_at(d, 0, OGGS@) {
        None
    } else {
        Some(
            Found {
                kind: "Ogg container (damaged front)"@,
                class: "container"@,
                offset: pages[0],
                confidence: 0x3fe9_9999_9999_999a,
                evidence: decimal(
                    if pages.len() < 3 {
                        2
                    } else {
                        3
                    },
                ) + "+ OggS page markers found mid-file"@,
            },
        )
    }
}

proof fn lemma_ogg_pages_grow(d: Seq<u8>, m: int, n: int)
    requires
        m <= n,
    ensures
        ogg_pages(d, m).len() <= ogg_pages(d, n).len(),
        ogg_pages(d, m).len() > 0 ==> ogg_pages(d, n)[0] == ogg_pages(d, m)[0],
    decreases n - m,
{
    if m < n {
        lemma_ogg_pages_grow(d, m, n - 1);
    }
}

fn scan_ogg(d: &[u8]) -> (r: Option<Finding>)
    ensures
        answers(r, ogg_found(d@)),
{
    if matches_at(d, 0, &OGGS) {
        return None;  // already reported by scan_magic
    }
    let mut count: u64 = 0;
    let mut first: u64 = 0;
    let mut i: usize = 0;
    while d.len() > 4 && i < d.len() - 4 && count < 3
        invariant
            i <= d@.len(),
            count <= 3,
            d@.len() > 4 ==> i <= d@.len() - 4,
            d@.len() <= 4 ==> i == 0,
            count == ogg_pages(d@, i as int).len(),
            count > 0 ==> first == ogg_pages(d@, i as int)[0],
        decreases d.len() - i,
    {
        if matches_at(d, i, &OGGS) {
            if count == 0 {
                first = i as u64;
            }
            count += 1;
        }
        i += 1;
    }
    proof {
        if d@.len() > 4 {
            lemma_ogg_pages_grow(d@, i as int, d@.len() - 4);
        }
    }
    if count >= 2 {
        let mut evidence = String::new();
        push_decimal(&mut evidence, count);
        assert(evidence@ =~= decimal(count as nat));
        evidence.append("+ OggS page markers found mid-file");
        return Some(
            Finding {
                kind: "Ogg container (damaged front)".to_owned(),
                class: "container".to_owned(),
                offset: first,
                confidence: 0x3fe9_9999_9999_999a,
                evidence,
            },
        );
    }
    None
}

// ---------------------------------------------------------------------------
// Bare FLAC frames: 14-bit sync 0b11111111111110.
// ---------------------------------------------------------------------------

/// Whether a FLAC frame may start at `i`: the sync, and a block size that is not
/// reserved.
pub open spec fn flac_sync_at(d: Seq<u8>, i: int) -> bool {
    0 <= i && i + 4 < d.len() && d[i] == 0xff && d[i + 1] / 4 == 0x3e && d[i + 2] >= 16
}

/// The positions before `n` where a FLAC frame may start, in order.
pub open spec fn flac_syncs(d: Seq<u8>, n: int) -> Seq<int>
    decreases n,
{
    if n <= 0 {
        seq![]
    } else if flac_sync_at(d, n - 1) {
        flac_syncs(d, n - 1).push(n - 1)
    } else {
        flac_syncs(d, n - 1)
    }
}

/// What bare FLAC frames say: the sync is weak, so sixteen are asked for.
pub open spec fn flac_found(d: Seq<u8>) -> Option<Found> {
    let syncs = flac_syncs(d, d.len() as int);
    if syncs.len() < 16 || stands_at(d, 0, FLAC@) {
        None
    } else {
        Some(
            Found {
                kind: "possible bare FLAC frames"@,
                class: "audio"@,
                offset: syncs[0],
                confidence: 0x3fd6_6666_6666_6666,
                evidence: decimal(syncs.len()) + " candidate FLAC frame syncs (weak signal)"@,
            },
        )
    }
}

fn scan_flac_frames(d: &[u8]) -> (r: Option<Finding>)
    ensures
        answers(r, flac_found(d@)),
{
    if matches_at(d, 0, &FLAC) {
        return None;
    }
    let mut count: u64 = 0;
    let mut first: u64 = 0;
    let mut i: usize = 0;
    while i < d.len()
        invariant
            i <= d@.len(),
            count <= i,
            count == flac_syncs(d@, i as int).len(),
            count > 0 ==> first == flac_syncs(d@, i as int)[0],
        decreases d.len() - i,
    {
        if d.len() - i > 4 && d[i] == 0xff && d[i + 1] / 4 == 0x3e && d[i + 2] >= 16 {
            if count == 0 {
                first = i as u64;
            }
            count += 1;
        }
        i += 1;
    }
    // FLAC sync is weak (14 bits); require a lot of hits and no stronger signal.
    if count >= 16 {
        let mut evidence = String::new();
        push_decimal(&mut evidence, count);
        assert(evidence@ =~= decimal(count as nat));
        evidence.append(" candidate FLAC frame syncs (weak signal)");
        return Some(
            Finding {
                kind: "possible bare FLAC frames".to_owned(),
                class: "audio".to_owned(),
                offset: first,
                confidence: 0x3fd6_6666_6666_6666,
                evidence,
            },
        );
    }
    None
}

// ---------------------------------------------------------------------------
// All scanners together
// ---------------------------------------------------------------------------

/// The finding, if there is one, as a list.
pub open spec fn listed(f: Option<Found>) -> Seq<Found> {
    match f {
        Some(x) => seq![x],
        None => seq![],
    }
}

/// What every scanner says, in the order in which they are run.
pub open spec fn all_found(d: Seq<u8>) -> Seq<Found> {
    listed(magic_found(d)) + listed(mp4_found(d)) + listed(frames_found(Framing::Mp3, d)) + listed(
        frames_found(Framing::Adts, d),
    ) + listed(ts_found(d)) + listed(annexb_found(d)) + listed(avcc_found(d)) + listed(
        ebml_found(d),
    ) + listed(ogg_found(d)) + listed(flac_found(d))
}

/// The list with `x` placed behind everything that is at least as sure.
pub open spec fn placed(s: Seq<Found>, x: Found) -> Seq<Found>
    decreases s.len(),
{
    if s.len() > 0 && s.last().confidence < x.confidence {
        placed(s.drop_last(), x).push(s.last())
    } else {
        s.push(x)
    }
}

/// The list from the surest finding to the least sure; findings that are equally
/// sure keep their order.
pub open spec fn surest_first(s: Seq<Found>) -> Seq<Found>
    decreases s.len(),
{
    if s.len() == 0 {
        seq![]
    } else {
        placed(surest_first(s.drop_last()), s.last())
    }
}

/// The findings of one confidence, in order.
pub open spec fn as_sure_as(s: Seq<Found>, confidence: u64) -> Seq<Found>
    decreases s.len(),
{
    if s.len() == 0 {
        seq![]
    } else if s.last().confidence == confidence {
        as_sure_as(s.drop_last(), confidence).push(s.last())
    } else {
        as_sure_as(s.drop_last(), confidence)
    }
}

/// Whether no finding is followed by a surer one.
pub open spec fn descending(s: Seq<Found>) -> bool {
    forall|i: int, j: int|
        0 <= i < j < s.len() ==> (#[trigger] s[i]).confidence >= (#[trigger] s[j]).confidence
}

proof fn lemma_placed(s: Seq<Found>, x: Found)
    requires
        descending(s),
    ensures
        descending(placed(s, x)),
        placed(s, x).len() == s.len() + 1,
        placed(s, x).to_multiset() == s.to_multiset().insert(x),
        forall|i: int|
            0 <= i < placed(s, x).len() ==> #[trigger] placed(s, x)[i] == x || s.contains(
                placed(s, x)[i],
            ),
        forall|c: u64| #[trigger]
            as_sure_as(placed(s, x), c) == if c == x.confidence {
                as_sure_as(s, c).push(x)
            } else {
                as_sure_as(s, c)
            },
    decreases s.len(),
{
    broadcast use vstd::seq_lib::group_to_multiset_ensures;

    if s.len() > 0 && s.last().confidence < x.confidence {
        let head = s.drop_last();
        let inner = placed(head, x);
        let p = inner.push(s.last());
        lemma_placed(head, x);
        assert(head.push(s.last()) =~= s);
        assert forall|i: int| 0 <= i < p.len() implies #[trigger] p[i] == x || s.contains(p[i]) by {
            if i < inner.len() {
                assert(p[i] == inner[i]);
                if inner[i] != x {
                    let k = choose|k: int| 0 <= k < head.len() && head[k] == inner[i];
                    assert(s[k] == p[i]);
                }
            } else {
                assert(s[s.len() - 1] == p[i]);
            }
        }
        assert forall|i: int, j: int| 0 <= i < j < p.len() implies (#[trigger] p[i]).confidence >= (
        #[trigger] p[j]).confidence by {
            if j == inner.len() {
                assert(p[i] == inner[i]);
                if inner[i] != x {
                    let k = choose|k: int| 0 <= k < head.len() && head[k] == inner[i];
                    assert(s[k].confidence >= s[s.len() - 1].confidence);
                }
            } else {
                assert(inner[i].confidence >= inner[j].confidence);
            }
        }
        assert forall|c: u64| #[trigger] as_sure_as(p, c) == (if c == x.confidence {
            as_sure_as(s, c).push(x)
        } else {
            as_sure_as(s, c)
        }) by {
            assert(p.drop_last() =~= inner);
            assert(as_sure_as(inner, c) == if c == x.confidence {
                as_sure_as(head, c).push(x)
            } else {
                as_sure_as(head, c)
            });
        }
        assert(p.to_multiset() =~= s.to_multiset().insert(x));
    } else {
        let p = s.push(x);
        assert(p.drop_last() =~= s);
        assert forall|i: int, j: int| 0 <= i < j < p.len() implies (#[trigger] p[i]).confidence >= (
        #[trigger] p[j]).confidence by {
            if j == s.len() {
                assert(s[i].confidence >= s[s.len() - 1].confidence) by {
                    if i < s.len() - 1 {
                        assert(s[i].confidence >= s[s.len() - 1].confidence);
                    }
                }
            } else {
                assert(s[i].confidence >= s[j].confidence);
            }
        }
        assert forall|i: int| 0 <= i < p.len() implies #[trigger] p[i] == x || s.contains(p[i]) by {
            if i < s.len() {
                assert(s[i] == p[i]);
            }
        }
    }
}

/// Sorting loses and adds no finding, leaves the surest in front, and keeps the
/// order among findings that are equally sure.
pub proof fn law_surest_first(s: Seq<Found>)
    ensures
        surest_first(s).len() == s.len(),
        surest_first(s).to_multiset() == s.to_multiset(),
        descending(surest_first(s)),
        forall|c: u64| #[trigger] as_sure_as(surest_first(s), c) == as_sure_as(s, c),
    decreases s.len(),
{
    broadcast use vstd::seq_lib::group_to_multiset_ensures;

    if s.len() > 0 {
        let head = s.drop_last();
        law_surest_first(head);
        lemma_placed(surest_first(head), s.last());
        assert(head.push(s.last()) =~= s);
    } else {
        assert(s =~= Seq::<Found>::empty());
    }
}

/// Places `x` behind everything that is at least as sure.
fn place(v: &mut Vec<Finding>, x: Finding)
    ensures
        found(final(v)@) == placed(found(old(v)@), x@),
{
    let ghost start = found(v@);
    let mut i: usize = v.len();
    proof {
        assert(start.take(i as int) =~= start);
        assert(start.skip(i as int) =~= Seq::<Found>::empty());
        assert(placed(start, x@) + Seq::<Found>::empty() =~= placed(start, x@));
    }
    while i > 0 && v[i - 1].confidence < x.confidence
        invariant
            i <= v@.len(),
            start == found(v@),
            placed(start, x@) == placed(start.take(i as int), x@) + start.skip(i as int),
        decreases i,
    {
        proof {
            let t = start.take(i as int);
            assert(t.last() == v@[i - 1]@);
            assert(t.drop_last() =~= start.take(i - 1));
            assert(placed(t.drop_last(), x@).push(t.last()) + start.skip(i as int) =~= placed(
                t.drop_last(),
                x@,
            ) + start.skip(i - 1));
        }
        i -= 1;
    }
    proof {
        let t = start.take(i as int);
        if i > 0 {
            assert(t.last() == v@[i - 1]@);
        }
        assert(placed(t, x@) == t.push(x@));
    }
    v.insert(i, x);
    assert(found(v@) =~= start.take(i as int).push(x@) + start.skip(i as int));
}

/// Appends what a scanner says.
fn note(v: &mut Vec<Finding>, f: Option<Finding>, Ghost(want): Ghost<Option<Found>>)
    requires
        answers(f, want),
    ensures
        found(final(v)@) == found(old(v)@) + listed(want),
{
    let ghost before = found(v@);
    match f {
        Some(x) => {
            v.push(x);
            assert(found(v@) =~= before + seq![x@]);
        },
        None => {
            assert(found(v@) =~= before + Seq::<Found>::empty());
        },
    }
}

/// Runs every scanner over the buffer and returns findings, best first.
pub fn identify(data: &[u8]) -> (r: Vec<Finding>)
    ensures
        found(r@) == surest_first(all_found(data@)),
        found(r@).to_multiset() == all_found(data@).to_multiset(),
        descending(found(r@)),
        forall|c: u64| #[trigger] as_sure_as(found(r@), c) == as_sure_as(all_found(data@), c),
{
    let mut all: Vec<Finding> = Vec::new();
    assert(found(all@) =~= Seq::<Found>::empty());
    let ghost d = data@;
    note(&mut all, scan_magic(data), Ghost(magic_found(d)));
    assert(found(all@) =~= listed(magic_found(d)));
    note(&mut all, scan_mp4_atoms(data), Ghost(mp4_found(d)));
    note(&mut all, scan_mp3(data), Ghost(frames_found(Framing::Mp3, d)));
    note(&mut all, scan_frames(data, Framing::Adts), Ghost(frames_found(Framing::Adts, d)));
    note(&mut all, scan_mpegts(data), Ghost(ts_found(d)));
    note(&mut all, scan_h264_annexb(data), Ghost(annexb_found(d)));
    note(&mut all, scan_avcc_lengths(data), Ghost(avcc_found(d)));
    note(&mut all, scan_ebml(data), Ghost(ebml_found(d)));
    note(&mut all, scan_ogg(data), Ghost(ogg_found(d)));
    note(&mut all, scan_flac_frames(data), Ghost(flac_found(d)));
    let ghost list = found(all@);
    assert(list == all_found(d));
    let mut out: Vec<Finding> = Vec::new();
    let ghost mut done: int = 0;
    assert(list.take(0) =~= Seq::<Found>::empty());
    assert(found(out@) =~= Seq::<Found>::empty());
    assert(list.skip(0) =~= list);
    while all.len() > 0
        invariant
            0 <= done <= list.len(),
            list.len() - done == all@.len(),
            found(all@) == list.skip(done),
            found(out@) == surest_first(list.take(done)),
        ensures
            done == list.len(),
            found(out@) == surest_first(list.take(done)),
        decreases all.len(),
    {
        let ghost before = all@;
        assert(list.skip(done)[0] == before[0]@);
        let x = all.remove(0);
        assert forall|i: int| 0 <= i < all@.len() implies #[trigger] found(all@)[i] == list.skip(
            done + 1,
        )[i] by {
            assert(found(before)[i + 1] == list.skip(done)[i + 1]);
        }
        assert(found(all@) =~= list.skip(done + 1));
        place(&mut out, x);
        proof {
            assert(list.take(done + 1).drop_last() =~= list.take(done));
            assert(list.take(done + 1).last() == x@);
            done = done + 1;
        }
    }
    assert(list.take(done) =~= list);
    proof {
        law_surest_first(list);
    }
    out
}

// ---------------------------------------------------------------------------
// What holds of every finding
// ---------------------------------------------------------------------------

/// A finding points into the data, and is at most certain.
pub open spec fn sensible(d: Seq<u8>, f: Found) -> bool {
    0 <= f.offset <= d.len() && f.confidence <= CERTAIN
}

spec fn all_sensible(d: Seq<u8>, s: Seq<Found>) -> bool {
    forall|i: int| 0 <= i < s.len() ==> sensible(d, #[trigger] s[i])
}

proof fn lemma_chained_inside(d: Seq<u8>, n: int)
    ensures
        forall|j: int|
            0 <= j < chained(atoms_before(d, n)).len() ==> 0 <= (#[trigger] chained(
                atoms_before(d, n),
            )[j]).offset <= d.len(),
    decreases n,
{
    if n > 0 {
        lemma_chained_inside(d, n - 1);
        let before = atoms_before(d, n - 1);
        if let Some(a) = atom_at(d, n - 1) {
            assert(before.push(a).drop_last() =~= before);
            let list = chained(atoms_before(d, n));
            assert forall|j: int| 0 <= j < list.len() implies 0 <= (#[trigger] list[j]).offset
                <= d.len() by {
                if j < chained(before).len() {
                    assert(list[j] == chained(before)[j]);
                }
            }
        }
    }
}

proof fn lemma_first_chain_inside(framing: Framing, d: Seq<u8>, i: int)
    requires
        i >= 0,
    ensures
        first_chain(framing, d, i) matches Some(p) ==> 0 <= p < d.len(),
    decreases d.len() - i,
{
    if i < d.len() && frame_chain(framing, d, i, 8) < 4 {
        lemma_first_chain_inside(framing, d, i + 1);
    }
}

proof fn lemma_first_cadence_inside(d: Seq<u8>, start: int)
    requires
        start >= 0,
    ensures
        first_cadence(d, start) matches Some(p) ==> 0 <= p < 188,
    decreases 188 - start,
{
    if start < 188 && sync_run(d, start) < 5 {
        lemma_first_cadence_inside(d, start + 1);
    }
}

proof fn lemma_start_codes_inside(d: Seq<u8>, i: int, room: nat)
    ensures
        start_codes(d, i, room).len() > 0 ==> 0 <= start_codes(d, i, room)[0].0 < d.len(),
    decreases d.len() - i,
{
    if 0 <= i && i + 4 < d.len() && room > 0 {
        match after_start_code(d, i) {
            Some(hdr) => {
                if nal_type_at(d, hdr) is None {
                    lemma_start_codes_inside(d, i + 1, room);
                }
            },
            None => {
                lemma_start_codes_inside(d, i + 1, room);
            },
        }
    }
}

proof fn lemma_first_avcc_inside(d: Seq<u8>, i: int)
    ensures
        first_avcc_chain(d, i) matches Some(p) ==> 0 <= p < d.len(),
    decreases d.len() - i,
{
    if 0 <= i && i + 5 <= d.len() && i + 5 <= 65536 && avcc_chain(d, i, 16) < 6 {
        lemma_first_avcc_inside(d, i + 1);
    }
}

proof fn lemma_first_ebml_inside(d: Seq<u8>, i: int)
    ensures
        first_ebml(d, i) matches Some(p) ==> 0 <= p < d.len(),
    decreases d.len() - i,
{
    if 0 <= i && i + 4 < d.len() {
        lemma_first_ebml_inside(d, i + 1);
    }
}

proof fn lemma_marks_inside(d: Seq<u8>, n: int)
    ensures
        forall|j: int| 0 <= j < ogg_pages(d, n).len() ==> 0 <= #[trigger] ogg_pages(d, n)[j] < n,
        forall|j: int| 0 <= j < flac_syncs(d, n).len() ==> 0 <= #[trigger] flac_syncs(d, n)[j] < n,
    decreases n,
{
    if n > 0 {
        lemma_marks_inside(d, n - 1);
        let a = ogg_pages(d, n - 1);
        let b = flac_syncs(d, n - 1);
        assert forall|j: int| 0 <= j < ogg_pages(d, n).len() implies 0 <= #[trigger] ogg_pages(
            d,
            n,
        )[j] < n by {
            if j < a.len() {
                assert(ogg_pages(d, n)[j] == a[j]);
            }
        }
        assert forall|j: int| 0 <= j < flac_syncs(d, n).len() implies 0 <= #[trigger] flac_syncs(
            d,
            n,
        )[j] < n by {
            if j < b.len() {
                assert(flac_syncs(d, n)[j] == b[j]);
            }
        }
    }
}

proof fn lemma_scanners_sensible(d: Seq<u8>)
    ensures
        all_sensible(d, listed(magic_found(d))),
        all_sensible(d, listed(mp4_found(d))),
        all_sensible(d, listed(frames_found(Framing::Mp3, d))),
        all_sensible(d, listed(frames_found(Framing::Adts, d))),
        all_sensible(d, listed(ts_found(d))),
        all_sensible(d, listed(annexb_found(d))),
        all_sensible(d, listed(avcc_found(d))),
        all_sensible(d, listed(ebml_found(d))),
        all_sensible(d, listed(ogg_found(d))),
        all_sensible(d, listed(flac_found(d))),
{
    lemma_chained_inside(d, d.len() as int);
    lemma_first_chain_inside(Framing::Mp3, d, 0);
    lemma_first_chain_inside(Framing::Adts, d, 0);
    lemma_first_cadence_inside(d, 0);
    lemma_start_codes_inside(d, 0, 64);
    lemma_first_avcc_inside(d, 0);
    lemma_first_ebml_inside(d, 0);
    lemma_marks_inside(d, d.len() - 4);
    lemma_marks_inside(d, d.len() as int);
}

proof fn lemma_sensible_join(d: Seq<u8>, a: Seq<Found>, b: Seq<Found>)
    requires
        all_sensible(d, a),
        all_sensible(d, b),
    ensures
        all_sensible(d, a + b),
{
    assert forall|i: int| 0 <= i < (a + b).len() implies sensible(d, #[trigger] (a + b)[i]) by {
        if i < a.len() {
            assert((a + b)[i] == a[i]);
        } else {
            assert((a + b)[i] == b[i - a.len()]);
        }
    }
}

proof fn lemma_sensible_sorted(d: Seq<u8>, s: Seq<Found>)
    requires
        all_sensible(d, s),
    ensures
        all_sensible(d, surest_first(s)),
    decreases s.len(),
{
    if s.len() > 0 {
        let head = s.drop_last();
        assert forall|i: int| 0 <= i < head.len() implies sensible(d, #[trigger] head[i]) by {
            assert(head[i] == s[i]);
        }
        lemma_sensible_sorted(d, head);
        lemma_sensible_placed(d, surest_first(head), s.last());
    }
}

proof fn lemma_sensible_placed(d: Seq<u8>, s: Seq<Found>, x: Found)
    requires
        all_sensible(d, s),
        sensible(d, x),
    ensures
        all_sensible(d, placed(s, x)),
    decreases s.len(),
{
    let p = placed(s, x);
    if s.len() > 0 && s.last().confidence < x.confidence {
        let head = s.drop_last();
        assert forall|i: int| 0 <= i < head.len() implies sensible(d, #[trigger] head[i]) by {
            assert(head[i] == s[i]);
        }
        lemma_sensible_placed(d, head, x);
        let inner = placed(head, x);
        assert forall|i: int| 0 <= i < p.len() implies sensible(d, #[trigger] p[i]) by {
            if i < inner.len() {
                assert(p[i] == inner[i]);
            }
        }
    } else {
        assert forall|i: int| 0 <= i < p.len() implies sensible(d, #[trigger] p[i]) by {
            if i < s.len() {
                assert(p[i] == s[i]);
            }
        }
    }
}

/// Every finding points into the file, and none is surer than certain.
pub proof fn law_findings_are_sensible(d: Seq<u8>, i: int)
    requires
        0 <= i < surest_first(all_found(d)).len(),
    ensures
        sensible(d, surest_first(all_found(d))[i]),
{
    lemma_scanners_sensible(d);
    let a = listed(magic_found(d)) + listed(mp4_found(d));
    lemma_sensible_join(d, listed(magic_found(d)), listed(mp4_found(d)));
    let b = a + listed(frames_found(Framing::Mp3, d));
    lemma_sensible_join(d, a, listed(frames_found(Framing::Mp3, d)));
    let c = b + listed(frames_found(Framing::Adts, d));
    lemma_sensible_join(d, b, listed(frames_found(Framing::Adts, d)));
    let e = c + listed(ts_found(d));
    lemma_sensible_join(d, c, listed(ts_found(d)));
    let f = e + listed(annexb_found(d));
    lemma_sensible_join(d, e, listed(annexb_found(d)));
    let g = f + listed(avcc_found(d));
    lemma_sensible_join(d, f, listed(avcc_found(d)));
    let h = g + listed(ebml_found(d));
    lemma_sensible_join(d, g, listed(ebml_found(d)));
    let k = h + listed(ogg_found(d));
    lemma_sensible_join(d, h, listed(ogg_found(d)));
    lemma_sensible_join(d, k, listed(flac_found(d)));
    lemma_sensible_sorted(d, all_found(d));
}

} // verus!
