//! H.264 bitstream surgery: emulation prevention, SPS parsing, and SPS
//! *patching*, for manufacturing organ donors whose parameter sets match a
//! stream no living encoder will emit.
//!
//! Hardware encoders pick SPS field widths (log2_max_frame_num,
//! log2_max_pic_order_cnt_lsb) that x264 never produces. When a head_truncated
//! stream's parameter sets are gone, we re-encode a donor with the right
//! macroblock geometry and then bit-splice the widths the slices actually
//! use. The splice shifts everything downstream, so emulation-prevention
//! bytes are stripped, the bits rewoven, and the escapes re-inserted.
use crate::bits::{
    bits_of, carried, law_pack, law_se_roundtrip, law_ue_roundtrip, law_unpacked_bits_pack_again,
    lemma_ue_carried, lemma_ue_range, pack, read_bit, read_bits, read_se, read_ue, se_code,
    ue_code, zero_bits, BitWriter, Bits,
};
use crate::bytes::{
    be16, be16_at, be16_bytes, be32, be32_at, be32_bytes, find_at, first_at, matches_at,
    overwritten, push_all, push_be16, put_be32, stands_at,
};
use crate::fourcc::{AVC1, AVC3, AVCC, STSD};
use vstd::prelude::*;

verus! {

broadcast use crate::bytes::group_lengths;

// ---------------------------------------------------------------------------
// Emulation prevention
// ---------------------------------------------------------------------------

/// How many zero bytes end the text read so far, once `b` is read too.
pub open spec fn zeros_after(zeros: nat, b: u8) -> nat {
    if b == 0 {
        zeros + 1
    } else {
        0
    }
}

/// `d` without its emulation-prevention bytes, where `zeros` zero bytes precede it.
pub open spec fn unescaped(d: Seq<u8>, zeros: nat) -> Seq<u8>
    decreases d.len(),
{
    if d.len() == 0 {
        seq![]
    } else if zeros >= 2 && d[0] == 3 {
        unescaped(d.drop_first(), 0)
    } else {
        seq![d[0]] + unescaped(d.drop_first(), zeros_after(zeros, d[0]))
    }
}

/// `d` with emulation-prevention bytes, where `zeros` zero bytes precede it.
pub open spec fn escaped(d: Seq<u8>, zeros: nat) -> Seq<u8>
    decreases d.len(),
{
    if d.len() == 0 {
        seq![]
    } else if zeros >= 2 && d[0] <= 3 {
        seq![3u8, d[0]] + escaped(d.drop_first(), zeros_after(0, d[0]))
    } else {
        seq![d[0]] + escaped(d.drop_first(), zeros_after(zeros, d[0]))
    }
}

/// Whether three bytes from `j` on could be mistaken for a start code.
pub open spec fn start_code_like(d: Seq<u8>, j: int) -> bool {
    0 <= j && j + 2 < d.len() && d[j] == 0 && d[j + 1] == 0 && d[j + 2] <= 2
}

proof fn lemma_unescape_escaped(d: Seq<u8>, zeros: nat)
    ensures
        unescaped(escaped(d, zeros), zeros) == d,
    decreases d.len(),
{
    if d.len() > 0 {
        let e = escaped(d, zeros);
        let rest = d.drop_first();
        if zeros >= 2 && d[0] <= 3 {
            let tail = escaped(rest, zeros_after(0, d[0]));
            lemma_unescape_escaped(rest, zeros_after(0, d[0]));
            assert(e.drop_first() =~= seq![d[0]] + tail);
            assert(e.drop_first().drop_first() =~= tail);
            assert(unescaped(e, zeros) == unescaped(e.drop_first(), 0));
        } else {
            let tail = escaped(rest, zeros_after(zeros, d[0]));
            lemma_unescape_escaped(rest, zeros_after(zeros, d[0]));
            assert(e.drop_first() =~= tail);
        }
        assert(unescaped(e, zeros) =~= seq![d[0]] + rest);
        assert(seq![d[0]] + rest =~= d);
    }
}

/// Stripping undoes escaping: every byte string comes back from its escaped form.
pub proof fn law_emulation_roundtrip(d: Seq<u8>)
    ensures
        unescaped(escaped(d, 0), 0) == d,
{
    lemma_unescape_escaped(d, 0);
}

proof fn lemma_escaped_is_clean(d: Seq<u8>, zeros: nat, lead: Seq<u8>)
    requires
        lead.len() == (if zeros >= 2 {
            2nat
        } else {
            zeros
        }),
        forall|i: int| 0 <= i < lead.len() ==> lead[i] == 0,
    ensures
        forall|j: int| !#[trigger] start_code_like(lead + escaped(d, zeros), j),
    decreases d.len(),
{
    let e = escaped(d, zeros);
    let whole = lead + e;
    if d.len() > 0 {
        let rest = d.drop_first();
        if zeros >= 2 && d[0] <= 3 {
            let z = zeros_after(0, d[0]);
            let lead2 = if d[0] == 0 {
                seq![0u8]
            } else {
                seq![]
            };
            lemma_escaped_is_clean(rest, z, lead2);
            let tail = lead2 + escaped(rest, z);
            assert forall|j: int| !#[trigger] start_code_like(whole, j) by {
                if start_code_like(whole, j) {
                    assert(whole[2] == 3);
                    let off = if d[0] == 0 {
                        3int
                    } else {
                        4int
                    };
                    assert(j >= 3);
                    assert(whole[3] == d[0]);
                    assert(j >= off);
                    assert(tail[j - off] == whole[j]);
                    assert(tail[j - off + 1] == whole[j + 1]);
                    assert(tail[j - off + 2] == whole[j + 2]);
                    assert(start_code_like(tail, j - off));
                }
            }
        } else {
            let z = zeros_after(zeros, d[0]);
            if d[0] == 0 {
                let lead2 = lead.push(0u8);
                lemma_escaped_is_clean(rest, z, lead2);
                assert(whole =~= lead2 + escaped(rest, z));
            } else {
                lemma_escaped_is_clean(rest, z, seq![]);
                let tail = Seq::<u8>::empty() + escaped(rest, z);
                let off = lead.len() as int + 1;
                assert forall|j: int| !#[trigger] start_code_like(whole, j) by {
                    if start_code_like(whole, j) {
                        assert(whole[lead.len() as int] == d[0]);
                        if j >= off {
                            assert(tail[j - off] == whole[j]);
                            assert(tail[j - off + 1] == whole[j + 1]);
                            assert(tail[j - off + 2] == whole[j + 2]);
                            assert(start_code_like(tail, j - off));
                        }
                    }
                }
            }
        }
    }
}

/// No start code survives in the escaped form: two zero bytes are never followed
/// by a byte below 3.
pub proof fn law_escaped_has_no_start_code(d: Seq<u8>, j: int)
    ensures
        !start_code_like(escaped(d, 0), j),
{
    lemma_escaped_is_clean(d, 0, seq![]);
    assert(Seq::<u8>::empty() + escaped(d, 0) =~= escaped(d, 0));
}

proof fn lemma_unescaped_len(d: Seq<u8>, zeros: nat)
    ensures
        unescaped(d, zeros).len() <= d.len(),
    decreases d.len(),
{
    if d.len() > 0 {
        if zeros >= 2 && d[0] == 3 {
            lemma_unescaped_len(d.drop_first(), 0);
        } else {
            lemma_unescaped_len(d.drop_first(), zeros_after(zeros, d[0]));
        }
    }
}

/// Removes emulation-prevention bytes (00 00 03 becomes 00 00).
pub fn strip_emulation(d: &[u8]) -> (out: Vec<u8>)
    ensures
        out@ == unescaped(d@, 0),
        out@.len() <= d@.len(),
{
    let mut out: Vec<u8> = Vec::new();
    let mut zeros: usize = 0;
    let mut i: usize = 0;
    assert(d@.skip(0) =~= d@);
    while i < d.len()
        invariant
            i <= d@.len(),
            zeros <= i,
            out@ + unescaped(d@.skip(i as int), zeros as nat) == unescaped(d@, 0),
        decreases d.len() - i,
    {
        let b: u8 = d[i];
        let ghost rest = d@.skip(i as int);
        assert(rest[0] == b);
        assert(rest.drop_first() =~= d@.skip(i + 1));
        let ghost before = out@;
        if zeros >= 2 && b == 3 {
            zeros = 0;
        } else {
            zeros = if b == 0 {
                zeros + 1
            } else {
                0
            };
            out.push(b);
            assert(before + (seq![b] + unescaped(rest.drop_first(), zeros as nat)) =~= out@
                + unescaped(rest.drop_first(), zeros as nat));
        }
        i = i + 1;
    }
    assert(unescaped(d@.skip(i as int), zeros as nat) =~= Seq::<u8>::empty());
    assert(out@ =~= unescaped(d@, 0));
    proof {
        lemma_unescaped_len(d@, 0);
    }
    out
}

/// Re-inserts emulation-prevention bytes (00 00 0x becomes 00 00 03 0x).
pub fn add_emulation(d: &[u8]) -> (out: Vec<u8>)
    ensures
        out@ == escaped(d@, 0),
        unescaped(out@, 0) == d@,
{
    proof {
        law_emulation_roundtrip(d@);
    }
    let mut out: Vec<u8> = Vec::new();
    let mut zeros: usize = 0;
    let mut i: usize = 0;
    assert(d@.skip(0) =~= d@);
    while i < d.len()
        invariant
            i <= d@.len(),
            zeros <= i,
            out@ + escaped(d@.skip(i as int), zeros as nat) == escaped(d@, 0),
        decreases d.len() - i,
    {
        let b: u8 = d[i];
        let ghost rest = d@.skip(i as int);
        assert(rest[0] == b);
        assert(rest.drop_first() =~= d@.skip(i + 1));
        let ghost before = out@;
        let ghost from = zeros;
        if zeros >= 2 && b <= 3 {
            out.push(3);
            zeros = 0;
        }
        zeros = if b == 0 {
            zeros + 1
        } else {
            0
        };
        out.push(b);
        assert(before + escaped(rest, from as nat) =~= out@ + escaped(
            rest.drop_first(),
            zeros as nat,
        ));
        i = i + 1;
    }
    assert(escaped(d@.skip(i as int), zeros as nat) =~= Seq::<u8>::empty());
    assert(out@ =~= escaped(d@, 0));
    out
}

// ---------------------------------------------------------------------------
// SPS
// ---------------------------------------------------------------------------

/// The fields of an SPS that slice headers are parsed against.
#[derive(Debug, Clone, Copy, PartialEq, Eq, Structural)]
pub struct SpsInfo {
    pub log2_max_frame_num: u32,
    pub poc_type: u64,
    pub log2_max_poc_lsb: u32,
    pub frame_mbs_only: bool,
    pub separate_colour_plane: bool,
}

/// Profiles whose SPS carries chroma format, bit depths and scaling matrices.
pub open spec fn high_profile(profile: int) -> bool {
    profile == 100 || profile == 110 || profile == 122 || profile == 244 || profile == 44 || profile
        == 83 || profile == 86 || profile == 118 || profile == 128 || profile == 138 || profile
        == 139 || profile == 134 || profile == 135
}

/// The end of a scaling list of `left` more entries: deltas are read until the
/// running scale reaches zero, which ends the list early.
pub open spec fn scaling_list_end(s: Seq<bool>, p: int, left: nat, last: int, next: int) -> Option<
    int,
>
    decreases left,
{
    if left == 0 {
        Some(p)
    } else if next == 0 {
        scaling_list_end(s, p, (left - 1) as nat, last, next)
    } else {
        match read_se(s, p) {
            Some((delta, q)) => {
                let n = (last + delta + 256) % 256;
                scaling_list_end(
                    s,
                    q,
                    (left - 1) as nat,
                    if n != 0 {
                        n
                    } else {
                        last
                    },
                    n,
                )
            },
            None => None,
        }
    }
}

/// The end of scaling lists `i` to `lists - 1`, each preceded by a presence
/// flag: six of 16 entries, then those of 64.
pub open spec fn scaling_lists_end(s: Seq<bool>, p: int, i: nat, lists: nat) -> Option<int>
    decreases lists - i,
{
    if i >= lists {
        Some(p)
    } else {
        match read_bit(s, p) {
            Some((true, q)) => match scaling_list_end(
                s,
                q,
                if i < 6 {
                    16
                } else {
                    64
                },
                8,
                8,
            ) {
                Some(r) => scaling_lists_end(s, r, i + 1, lists),
                None => None,
            },
            Some((false, q)) => scaling_lists_end(s, q, i + 1, lists),
            None => None,
        }
    }
}

/// The end of `n` unsigned codes from `p` on.
pub open spec fn ue_run_end(s: Seq<bool>, p: int, n: nat) -> Option<int>
    decreases n,
{
    if n == 0 {
        Some(p)
    } else {
        match read_ue(s, p) {
            Some((v, q)) => ue_run_end(s, q, (n - 1) as nat),
            None => None,
        }
    }
}

/// The chroma part of a high-profile SPS: its separate_colour_plane flag and
/// its end.
pub open spec fn sps_chroma(s: Seq<bool>, p: int) -> Option<(bool, int)> {
    match read_ue(s, p) {
        None => None,
        Some((chroma, p1)) => match if chroma == 3 {
            read_bit(s, p1)
        } else {
            Some((false, p1))
        } {
            None => None,
            // bit depths of luma and chroma, then the transform bypass flag
            Some((plane, p2)) => match ue_run_end(s, p2, 2) {
                None => None,
                Some(p3) => match read_bits(s, p3, 2) {
                    None => None,
                    Some((flags, p4)) => if flags % 2 == 1 {
                        match scaling_lists_end(
                            s,
                            p4,
                            0,
                            if chroma == 3 {
                                12
                            } else {
                                8
                            },
                        ) {
                            None => None,
                            Some(p5) => Some((plane, p5)),
                        }
                    } else {
                        Some((plane, p4))
                    },
                },
            },
        },
    }
}

/// Everything before the width fields: the separate_colour_plane flag and the
/// position where the width fields begin.
pub open spec fn sps_head(s: Seq<bool>) -> Option<(bool, int)> {
    match read_bits(s, 0, 8) {
        None => None,
        Some((profile, p1)) => match read_bits(s, p1, 16) {
            None => None,
            Some((constraints, p2)) => match read_ue(s, p2) {
                None => None,
                Some((id, p3)) => if high_profile(profile) {
                    sps_chroma(s, p3)
                } else {
                    Some((false, p3))
                },
            },
        },
    }
}

/// The width fields of an SPS.
pub struct SpsWidths {
    pub frame_num: int,
    pub poc_type: int,
    pub poc_lsb: int,
}

/// The width fields at `p`, and where they end.
pub open spec fn sps_widths(s: Seq<bool>, p: int) -> Option<(SpsWidths, int)> {
    match read_ue(s, p) {
        None => None,
        Some((f, p1)) => match read_ue(s, p1) {
            None => None,
            Some((poc, p2)) => if poc == 0 {
                match read_ue(s, p2) {
                    None => None,
                    Some((l, p3)) => Some(
                        (SpsWidths { frame_num: f + 4, poc_type: poc, poc_lsb: l + 4 }, p3),
                    ),
                }
            } else if poc == 1 {
                // always-zero flag, two offsets, and a counted list of offsets
                match read_bit(s, p2) {
                    None => None,
                    Some((flag, p3)) => match ue_run_end(s, p3, 2) {
                        None => None,
                        Some(p4) => match read_ue(s, p4) {
                            None => None,
                            Some((n, p5)) => match ue_run_end(s, p5, n as nat) {
                                None => None,
                                Some(p6) => Some(
                                    (SpsWidths { frame_num: f + 4, poc_type: poc, poc_lsb: 0 }, p6),
                                ),
                            },
                        },
                    },
                }
            } else {
                Some((SpsWidths { frame_num: f + 4, poc_type: poc, poc_lsb: 0 }, p2))
            },
        },
    }
}

/// What follows the width fields, as far as the frame_mbs_only flag: that flag
/// and the position behind it.
pub open spec fn sps_tail(s: Seq<bool>, p: int) -> Option<(bool, int)> {
    // max_num_ref_frames, gaps flag, width and height in macroblocks
    match read_ue(s, p) {
        None => None,
        Some((refs, p1)) => match read_bit(s, p1) {
            None => None,
            Some((gaps, p2)) => match ue_run_end(s, p2, 2) {
                None => None,
                Some(p3) => read_bit(s, p3),
            },
        },
    }
}

/// A parsed SPS payload: its fields and the span of its width fields, in bits.
pub struct SpsLayout {
    pub info: SpsInfo,
    pub start: int,
    pub end: int,
}

/// How an SPS payload (its bits, escapes removed) is laid out.
pub open spec fn sps_layout(s: Seq<bool>) -> Option<SpsLayout> {
    match sps_head(s) {
        None => None,
        Some((plane, start)) => match sps_widths(s, start) {
            None => None,
            Some((w, end)) => match sps_tail(s, end) {
                None => None,
                Some((mbs_only, q)) => Some(
                    SpsLayout {
                        info: SpsInfo {
                            log2_max_frame_num: (w.frame_num % 0x1_0000_0000) as u32,
                            poc_type: w.poc_type as u64,
                            log2_max_poc_lsb: (w.poc_lsb % 0x1_0000_0000) as u32,
                            frame_mbs_only: mbs_only,
                            separate_colour_plane: plane,
                        },
                        start,
                        end,
                    },
                ),
            },
        },
    }
}

/// The bits of a NAL unit's payload: its header byte and its escapes removed.
pub open spec fn payload_bits(nal: Seq<u8>) -> Seq<bool> {
    bits_of(unescaped(nal.skip(1), 0))
}

/// The fields of an SPS NAL unit, header byte included.
pub open spec fn sps_of(nal: Seq<u8>) -> Option<SpsInfo> {
    if nal.len() == 0 {
        None
    } else {
        match sps_layout(payload_bits(nal)) {
            Some(l) => Some(l.info),
            None => None,
        }
    }
}

/// Whether a profile's SPS carries chroma format, bit depths and scaling matrices.
fn is_high_profile(profile: u64) -> (r: bool)
    ensures
        r == high_profile(profile as int),
{
    match profile {
        100 | 110 | 122 | 244 | 44 | 83 | 86 | 118 | 128 | 138 | 139 | 134 | 135 => true,
        _ => false,
    }
}

/// Reads past `n` unsigned (or signed) codes.
fn skip_codes(b: &mut Bits, n: u64) -> (r: Option<()>)
    requires
        old(b).wf(),
    ensures
        final(b).wf(),
        final(b).bits() == old(b).bits(),
        match r {
            Some(_) => ue_run_end(old(b).bits(), old(b).at(), n as nat) == Some(final(b).at()),
            None => ue_run_end(old(b).bits(), old(b).at(), n as nat) is None,
        },
{
    let mut i: u64 = 0;
    while i < n
        invariant
            i <= n,
            b.wf(),
            b.bits() == old(b).bits(),
            ue_run_end(old(b).bits(), old(b).at(), n as nat) == ue_run_end(
                b.bits(),
                b.at(),
                (n - i) as nat,
            ),
        decreases n - i,
    {
        b.ue()?;
        i = i + 1;
    }
    Some(())
}

/// Reads past one scaling list of `size` entries.
fn skip_scaling_list(b: &mut Bits, size: u32) -> (r: Option<()>)
    requires
        old(b).wf(),
    ensures
        final(b).wf(),
        final(b).bits() == old(b).bits(),
        match r {
            Some(_) => scaling_list_end(old(b).bits(), old(b).at(), size as nat, 8, 8) == Some(
                final(b).at(),
            ),
            None => scaling_list_end(old(b).bits(), old(b).at(), size as nat, 8, 8) is None,
        },
{
    let mut last: i64 = 8;
    let mut next: i64 = 8;
    let mut i: u32 = 0;
    while i < size
        invariant
            i <= size,
            0 <= last < 256,
            0 <= next < 256,
            b.wf(),
            b.bits() == old(b).bits(),
            scaling_list_end(old(b).bits(), old(b).at(), size as nat, 8, 8) == scaling_list_end(
                b.bits(),
                b.at(),
                (size - i) as nat,
                last as int,
                next as int,
            ),
        decreases size - i,
    {
        if next != 0 {
            let delta: i64 = b.se()?;
            let sum: i64 = last + delta + 256;
            // the running scale is kept modulo 256
            let mut rem: i64 = if sum >= 0 {
                sum % 256
            } else {
                256 - 1 - ((-(sum + 1)) % 256)
            };
            assert(rem == (last + delta + 256) % 256);
            next = rem;
        }
        if next != 0 {
            last = next;
        }
        i = i + 1;
    }
    Some(())
}

/// Reads past `lists` scaling lists, each behind its presence flag.
fn skip_scaling_lists(b: &mut Bits, lists: u32) -> (r: Option<()>)
    requires
        old(b).wf(),
    ensures
        final(b).wf(),
        final(b).bits() == old(b).bits(),
        match r {
            Some(_) => scaling_lists_end(old(b).bits(), old(b).at(), 0, lists as nat) == Some(
                final(b).at(),
            ),
            None => scaling_lists_end(old(b).bits(), old(b).at(), 0, lists as nat) is None,
        },
{
    let mut i: u32 = 0;
    while i < lists
        invariant
            i <= lists,
            b.wf(),
            b.bits() == old(b).bits(),
            scaling_lists_end(old(b).bits(), old(b).at(), 0, lists as nat) == scaling_lists_end(
                b.bits(),
                b.at(),
                i as nat,
                lists as nat,
            ),
        decreases lists - i,
    {
        if b.u1()? {
            let size: u32 = if i < 6 {
                16
            } else {
                64
            };
            skip_scaling_list(b, size)?;
        }
        i = i + 1;
    }
    Some(())
}

/// Reads the chroma part of a high-profile SPS.
fn read_chroma(b: &mut Bits) -> (r: Option<bool>)
    requires
        old(b).wf(),
    ensures
        final(b).wf(),
        final(b).bits() == old(b).bits(),
        match r {
            Some(plane) => sps_chroma(old(b).bits(), old(b).at()) == Some((plane, final(b).at())),
            None => sps_chroma(old(b).bits(), old(b).at()) is None,
        },
{
    let chroma: u64 = b.ue()?;
    let plane = if chroma == 3 {
        b.u1()?
    } else {
        false
    };
    skip_codes(b, 2)?;  // bit depths
    let flags: u64 = b.u(2)?;  // transform bypass, scaling matrix present
    if flags % 2 == 1 {
        let lists: u32 = if chroma == 3 {
            12
        } else {
            8
        };
        skip_scaling_lists(b, lists)?;
    }
    Some(plane)
}

/// Parses the fields of an SPS NAL (header byte included) that slice-header
/// parsing depends on. Returns the bit position where the width fields begin
/// and end (within the *stripped* payload) alongside the info: the patcher
/// splices exactly that span.
fn parse_sps_inner(nal: &[u8]) -> (r: Option<(SpsInfo, Vec<u8>, usize, usize)>)
    requires
        8 * nal@.len() <= usize::MAX,
    ensures
        match r {
            Some((info, rbsp, start, end)) => {
                &&& nal@.len() > 0
                &&& rbsp@ == unescaped(nal@.skip(1), 0)
                &&& rbsp@.len() <= nal@.len()
                &&& sps_layout(bits_of(rbsp@)) == Some(
                    SpsLayout { info, start: start as int, end: end as int },
                )
            },
            None => sps_of(nal@) is None,
        },
{
    if nal.len() == 0 {
        return None;
    }
    let rbsp = strip_emulation(&nal[1..nal.len()]);
    assert(nal@.subrange(1, nal@.len() as int) =~= nal@.skip(1));
    let mut b = Bits::new(&rbsp);
    let profile: u64 = b.u(8)?;
    b.u(16)?;  // constraint flags + level
    b.ue()?;  // sps_id
    let plane = if is_high_profile(profile) {
        read_chroma(&mut b)?
    } else {
        false
    };
    let start: usize = b.pos();
    let frame_num: u64 = b.ue()?;
    let poc_type: u64 = b.ue()?;
    let mut poc_lsb: u64 = 0;
    if poc_type == 0 {
        poc_lsb = b.ue()? + 4;
    } else if poc_type == 1 {
        b.u1()?;
        skip_codes(&mut b, 2)?;
        let n: u64 = b.ue()?;
        skip_codes(&mut b, n)?;
    }
    let end: usize = b.pos();
    b.ue()?;  // max_num_ref_frames
    b.u1()?;  // gaps_in_frame_num_value_allowed
    skip_codes(&mut b, 2)?;  // width and height in macroblocks
    let mbs_only = b.u1()?;
    let info = SpsInfo {
        log2_max_frame_num: ((frame_num + 4) % 0x1_0000_0000) as u32,
        poc_type,
        log2_max_poc_lsb: (poc_lsb % 0x1_0000_0000) as u32,
        frame_mbs_only: mbs_only,
        separate_colour_plane: plane,
    };
    Some((info, rbsp, start, end))
}

/// The fields of an SPS NAL (header byte included) that slice headers need.
pub fn parse_sps(nal: &[u8]) -> (r: Option<SpsInfo>)
    requires
        8 * nal@.len() <= usize::MAX,
    ensures
        r == sps_of(nal@),
{
    match parse_sps_inner(nal) {
        Some((info, _, _, _)) => Some(info),
        None => None,
    }
}

// ---------------------------------------------------------------------------
// SPS patching
// ---------------------------------------------------------------------------

/// The bits that say: frame_num is `4 + f` wide, and POC comes as type 0, `4 + p`
/// wide, or as type 2.
pub open spec fn width_codes(f: nat, poc: Option<u64>) -> Seq<bool> {
    match poc {
        Some(p) => ue_code(f) + ue_code(0) + ue_code(p as nat),
        None => ue_code(f) + ue_code(2),
    }
}

/// An SPS payload with other width fields.
pub open spec fn patched_bits(s: Seq<bool>, l: SpsLayout, f: nat, poc: Option<u64>) -> Seq<bool> {
    s.subrange(0, l.start) + width_codes(f, poc) + s.subrange(l.end, s.len() as int)
}

/// An SPS NAL unit with other width fields.
pub open spec fn patched_sps(nal: Seq<u8>, f: nat, poc: Option<u64>) -> Option<Seq<u8>> {
    if nal.len() == 0 {
        None
    } else {
        match sps_layout(payload_bits(nal)) {
            Some(l) => Some(
                seq![nal[0]] + escaped(pack(patched_bits(payload_bits(nal), l, f, poc)), 0),
            ),
            None => None,
        }
    }
}

proof fn lemma_ue_run_range(s: Seq<bool>, p: int, n: nat)
    requires
        0 <= p <= s.len(),
    ensures
        ue_run_end(s, p, n) matches Some(e) ==> p <= e <= s.len(),
    decreases n,
{
    lemma_ue_range(s, p);
    if n > 0 {
        if let Some((v, q)) = read_ue(s, p) {
            lemma_ue_run_range(s, q, (n - 1) as nat);
        }
    }
}

proof fn lemma_ue_run_carried(s: Seq<bool>, p: int, n: nat, t: Seq<bool>, q: int)
    requires
        0 <= p <= s.len(),
        ue_run_end(s, p, n) matches Some(e) && carried(s, p, e, t, q),
    ensures
        ue_run_end(s, p, n) matches Some(e) && ue_run_end(t, q, n) == Some(q + (e - p)),
    decreases n,
{
    if n > 0 {
        let (v, m) = read_ue(s, p).unwrap();
        lemma_ue_range(s, p);
        lemma_ue_run_range(s, m, (n - 1) as nat);
        lemma_ue_carried(s, p, t, q);
        lemma_ue_run_carried(s, m, (n - 1) as nat, t, q + (m - p));
    }
}

proof fn lemma_scaling_list_range(s: Seq<bool>, p: int, left: nat, last: int, next: int)
    requires
        0 <= p <= s.len(),
    ensures
        scaling_list_end(s, p, left, last, next) matches Some(e) ==> p <= e <= s.len(),
    decreases left,
{
    lemma_ue_range(s, p);
    if left > 0 {
        if next == 0 {
            lemma_scaling_list_range(s, p, (left - 1) as nat, last, next);
        } else if let Some((delta, q)) = read_se(s, p) {
            let n = (last + delta + 256) % 256;
            lemma_scaling_list_range(
                s,
                q,
                (left - 1) as nat,
                if n != 0 {
                    n
                } else {
                    last
                },
                n,
            );
        }
    }
}

proof fn lemma_scaling_list_carried(
    s: Seq<bool>,
    p: int,
    left: nat,
    last: int,
    next: int,
    t: Seq<bool>,
    q: int,
)
    requires
        0 <= p <= s.len(),
        scaling_list_end(s, p, left, last, next) matches Some(e) && carried(s, p, e, t, q),
    ensures
        scaling_list_end(s, p, left, last, next) matches Some(e) && scaling_list_end(
            t,
            q,
            left,
            last,
            next,
        ) == Some(q + (e - p)),
    decreases left,
{
    if left > 0 {
        if next == 0 {
            lemma_scaling_list_carried(s, p, (left - 1) as nat, last, next, t, q);
        } else {
            let (delta, m) = read_se(s, p).unwrap();
            let n = (last + delta + 256) % 256;
            let l2 = if n != 0 {
                n
            } else {
                last
            };
            lemma_ue_range(s, p);
            lemma_scaling_list_range(s, m, (left - 1) as nat, l2, n);
            lemma_ue_carried(s, p, t, q);
            lemma_scaling_list_carried(s, m, (left - 1) as nat, l2, n, t, q + (m - p));
        }
    }
}

spec fn list_size(i: nat) -> nat {
    if i < 6 {
        16
    } else {
        64
    }
}

proof fn lemma_scaling_lists_range(s: Seq<bool>, p: int, i: nat, lists: nat)
    requires
        0 <= p <= s.len(),
    ensures
        scaling_lists_end(s, p, i, lists) matches Some(e) ==> p <= e <= s.len(),
    decreases lists - i,
{
    if i < lists && p < s.len() {
        if s[p] {
            lemma_scaling_list_range(s, p + 1, list_size(i), 8, 8);
            if let Some(r) = scaling_list_end(s, p + 1, list_size(i), 8, 8) {
                lemma_scaling_lists_range(s, r, i + 1, lists);
            }
        } else {
            lemma_scaling_lists_range(s, p + 1, i + 1, lists);
        }
    }
}

proof fn lemma_scaling_lists_carried(
    s: Seq<bool>,
    p: int,
    i: nat,
    lists: nat,
    t: Seq<bool>,
    q: int,
)
    requires
        0 <= p <= s.len(),
        scaling_lists_end(s, p, i, lists) matches Some(e) && carried(s, p, e, t, q),
    ensures
        scaling_lists_end(s, p, i, lists) matches Some(e) && scaling_lists_end(t, q, i, lists)
            == Some(q + (e - p)),
    decreases lists - i,
{
    if i < lists {
        let e = scaling_lists_end(s, p, i, lists).unwrap();
        if s[p] {
            lemma_scaling_list_range(s, p + 1, list_size(i), 8, 8);
            let r = scaling_list_end(s, p + 1, list_size(i), 8, 8).unwrap();
            lemma_scaling_lists_range(s, r, i + 1, lists);
            assert(t[q] == s[p]);
            lemma_scaling_list_carried(s, p + 1, list_size(i), 8, 8, t, q + 1);
            lemma_scaling_lists_carried(s, r, i + 1, lists, t, q + (r - p));
        } else {
            lemma_scaling_lists_range(s, p + 1, i + 1, lists);
            assert(t[q] == s[p]);
            lemma_scaling_lists_carried(s, p + 1, i + 1, lists, t, q + 1);
        }
    }
}

proof fn lemma_field_carried(s: Seq<bool>, p: int, n: nat, t: Seq<bool>, q: int)
    requires
        carried(s, p, p + n, t, q),
    ensures
        read_bits(s, p, n) matches Some((v, e)) && read_bits(t, q, n) == Some((v, q + n)),
{
    assert(t.subrange(q, q + n) =~= s.subrange(p, p + n));
}

proof fn lemma_chroma_range(s: Seq<bool>, p: int)
    requires
        0 <= p <= s.len(),
    ensures
        sps_chroma(s, p) matches Some((plane, e)) ==> p <= e <= s.len(),
{
    lemma_ue_range(s, p);
    if let Some((chroma, p1)) = read_ue(s, p) {
        let p2 = if chroma == 3 {
            p1 + 1
        } else {
            p1
        };
        if p2 <= s.len() {
            lemma_ue_run_range(s, p2, 2);
            if let Some(p3) = ue_run_end(s, p2, 2) {
                if let Some((flags, p4)) = read_bits(s, p3, 2) {
                    lemma_scaling_lists_range(s, p4, 0, 12);
                    lemma_scaling_lists_range(s, p4, 0, 8);
                }
            }
        }
    }
}

proof fn lemma_chroma_carried(s: Seq<bool>, p: int, t: Seq<bool>, q: int)
    requires
        0 <= p <= s.len(),
        sps_chroma(s, p) matches Some((plane, e)) && carried(s, p, e, t, q),
    ensures
        sps_chroma(s, p) matches Some((plane, e)) && sps_chroma(t, q) == Some(
            (plane, q + (e - p)),
        ),
{
    let d = q - p;
    let (plane, e) = sps_chroma(s, p).unwrap();
    lemma_ue_range(s, p);
    let (chroma, p1) = read_ue(s, p).unwrap();
    let p2 = if chroma == 3 {
        p1 + 1
    } else {
        p1
    };
    lemma_ue_run_range(s, p2, 2);
    let p3 = ue_run_end(s, p2, 2).unwrap();
    let (flags, p4) = read_bits(s, p3, 2).unwrap();
    lemma_scaling_lists_range(s, p4, 0, 12);
    lemma_scaling_lists_range(s, p4, 0, 8);
    assert(p4 <= e);
    lemma_ue_carried(s, p, t, q);
    if chroma == 3 {
        assert(t[p1 + d] == s[p1]);
    }
    lemma_ue_run_carried(s, p2, 2, t, p2 + d);
    lemma_field_carried(s, p3, 2, t, p3 + d);
    if flags % 2 == 1 {
        lemma_scaling_lists_carried(
            s,
            p4,
            0,
            if chroma == 3 {
                12
            } else {
                8
            },
            t,
            p4 + d,
        );
    }
}

proof fn lemma_head_range(s: Seq<bool>)
    ensures
        sps_head(s) matches Some((plane, e)) ==> 0 <= e <= s.len(),
{
    if s.len() >= 24 {
        lemma_ue_range(s, 24);
        if let Some((id, p3)) = read_ue(s, 24) {
            lemma_chroma_range(s, p3);
        }
    }
}

proof fn lemma_head_carried(s: Seq<bool>, t: Seq<bool>)
    requires
        sps_head(s) matches Some((plane, e)) && carried(s, 0, e, t, 0),
    ensures
        sps_head(t) == sps_head(s),
{
    let (plane, e) = sps_head(s).unwrap();
    lemma_ue_range(s, 24);
    let (id, p3) = read_ue(s, 24).unwrap();
    lemma_chroma_range(s, p3);
    lemma_field_carried(s, 0, 8, t, 0);
    lemma_field_carried(s, 8, 16, t, 8);
    lemma_ue_carried(s, 24, t, 24);
    if high_profile(read_bits(s, 0, 8).unwrap().0) {
        lemma_chroma_carried(s, p3, t, p3);
    }
}

proof fn lemma_widths_range(s: Seq<bool>, p: int)
    requires
        0 <= p <= s.len(),
    ensures
        sps_widths(s, p) matches Some((w, e)) ==> p <= e <= s.len(),
{
    lemma_ue_range(s, p);
    if let Some((f, p1)) = read_ue(s, p) {
        lemma_ue_range(s, p1);
        if let Some((poc, p2)) = read_ue(s, p1) {
            lemma_ue_range(s, p2);
            if poc == 1 && p2 < s.len() {
                lemma_ue_run_range(s, p2 + 1, 2);
                if let Some(p4) = ue_run_end(s, p2 + 1, 2) {
                    lemma_ue_range(s, p4);
                    if let Some((n, p5)) = read_ue(s, p4) {
                        lemma_ue_run_range(s, p5, n as nat);
                    }
                }
            }
        }
    }
}

proof fn lemma_tail_carried(s: Seq<bool>, p: int, t: Seq<bool>, q: int)
    requires
        0 <= p <= s.len(),
        sps_tail(s, p) is Some,
        carried(s, p, s.len() as int, t, q),
    ensures
        sps_tail(t, q) matches Some((mbs_only, e)) && mbs_only == sps_tail(s, p).unwrap().0,
{
    let d = q - p;
    lemma_ue_range(s, p);
    let (refs, p1) = read_ue(s, p).unwrap();
    let p2 = p1 + 1;
    lemma_ue_run_range(s, p2, 2);
    let p3 = ue_run_end(s, p2, 2).unwrap();
    lemma_ue_carried(s, p, t, q);
    assert(t[p1 + d] == s[p1]);
    lemma_ue_run_carried(s, p2, 2, t, p2 + d);
    assert(t[p3 + d] == s[p3]);
}

proof fn lemma_layout_range(s: Seq<bool>)
    ensures
        sps_layout(s) matches Some(l) ==> 0 <= l.start <= l.end <= s.len(),
{
    lemma_head_range(s);
    if let Some((plane, start)) = sps_head(s) {
        lemma_widths_range(s, start);
    }
}

/// Width fields read back as they were written.
proof fn lemma_width_codes(head: Seq<bool>, f: nat, poc: Option<u64>, rest: Seq<bool>)
    requires
        f < 0x1_ffff_ffff,
        poc matches Some(p) ==> p < 0x1_ffff_ffff,
    ensures
        sps_widths(head + width_codes(f, poc) + rest, head.len() as int) == Some(
            (
                SpsWidths {
                    frame_num: f as int + 4,
                    poc_type: if poc is Some {
                        0
                    } else {
                        2
                    },
                    poc_lsb: match poc {
                        Some(p) => p + 4,
                        None => 0,
                    },
                },
                (head.len() + width_codes(f, poc).len()) as int,
            ),
        ),
{
    let t = head + width_codes(f, poc) + rest;
    match poc {
        Some(p) => {
            let after = ue_code(0) + ue_code(p as nat) + rest;
            assert(t =~= head + ue_code(f) + after);
            law_ue_roundtrip(head, f, after);
            let h1 = head + ue_code(f);
            assert(t =~= h1 + ue_code(0) + (ue_code(p as nat) + rest));
            law_ue_roundtrip(h1, 0, ue_code(p as nat) + rest);
            let h2 = h1 + ue_code(0);
            assert(t =~= h2 + ue_code(p as nat) + rest);
            law_ue_roundtrip(h2, p as nat, rest);
        },
        None => {
            assert(t =~= head + ue_code(f) + (ue_code(2) + rest));
            law_ue_roundtrip(head, f, ue_code(2) + rest);
            let h1 = head + ue_code(f);
            assert(t =~= h1 + ue_code(2) + rest);
            law_ue_roundtrip(h1, 2, rest);
        },
    }
}

/// The patched bits, followed by padding, read as the same SPS with the other widths.
proof fn lemma_patched_layout(s: Seq<bool>, l: SpsLayout, f: nat, poc: Option<u64>, pad: Seq<bool>)
    requires
        sps_layout(s) == Some(l),
        f < 0x1_ffff_ffff,
        poc matches Some(p) ==> p < 0x1_ffff_ffff,
    ensures
        sps_layout(patched_bits(s, l, f, poc) + pad) matches Some(m) && m.info == (SpsInfo {
            log2_max_frame_num: ((f + 4) % 0x1_0000_0000) as u32,
            poc_type: if poc is Some {
                0
            } else {
                2
            },
            log2_max_poc_lsb: (match poc {
                Some(p) => (p + 4) % 0x1_0000_0000,
                None => 0,
            }) as u32,
            ..l.info
        }) && m.start == l.start && m.end == l.start + width_codes(f, poc).len(),
{
    lemma_layout_range(s);
    let head = s.subrange(0, l.start);
    let tail = s.subrange(l.end, s.len() as int);
    let codes = width_codes(f, poc);
    let t = patched_bits(s, l, f, poc) + pad;
    let q = l.start + codes.len() as int;
    assert(t =~= head + codes + (tail + pad));
    assert(head.len() == l.start);
    assert(carried(s, 0, l.start, t, 0)) by {
        assert forall|k: int| 0 <= k < l.start implies #[trigger] t[k] == s[k] by {
            assert(t[k] == head[k]);
        }
    }
    lemma_head_carried(s, t);
    lemma_width_codes(head, f, poc, tail + pad);
    assert(carried(s, l.end, s.len() as int, t, q)) by {
        assert forall|k: int| q <= k < q + (s.len() - l.end) implies #[trigger] t[k] == s[k - (q
            - l.end)] by {
            assert(t[k] == tail[k - q]);
        }
    }
    lemma_tail_carried(s, l.end, t, q);
}

/// A patched SPS reads back with the widths that were asked for and every other
/// field as it was.
pub proof fn law_patched_sps_reads_back(nal: Seq<u8>, f: nat, poc: Option<u64>)
    requires
        sps_of(nal) is Some,
        f < 0x1_ffff_ffff,
        poc matches Some(p) ==> p < 0x1_ffff_ffff,
    ensures
        patched_sps(nal, f, poc) matches Some(out) && sps_of(out) == Some(
            SpsInfo {
                log2_max_frame_num: ((f + 4) % 0x1_0000_0000) as u32,
                poc_type: if poc is Some {
                    0
                } else {
                    2
                },
                log2_max_poc_lsb: (match poc {
                    Some(p) => (p + 4) % 0x1_0000_0000,
                    None => 0,
                }) as u32,
                ..sps_of(nal).unwrap()
            },
        ),
{
    let s = payload_bits(nal);
    let l = sps_layout(s).unwrap();
    let body = pack(patched_bits(s, l, f, poc));
    let out = seq![nal[0]] + escaped(body, 0);
    assert(out.skip(1) =~= escaped(body, 0));
    law_emulation_roundtrip(body);
    law_pack(patched_bits(s, l, f, poc));
    let pad = zero_bits((8 * body.len() - patched_bits(s, l, f, poc).len()) as nat);
    lemma_patched_layout(s, l, f, poc, pad);
}

/// Rewrites an SPS NAL's frame_num / POC width fields:
/// log2_max_frame_num = 4 + fn_m4; `poc_m4 = Some(p)` sets
/// pic_order_cnt_type 0 with log2_max_pic_order_cnt_lsb = 4 + p, while
/// `None` sets pic_order_cnt_type 2, the no-B-frames layout in which slice
/// headers carry no POC field at all. Everything downstream shifts;
/// emulation prevention is redone from scratch.
pub fn patch_sps_widths(nal: &[u8], fn_m4: u64, poc_m4: Option<u64>) -> (r: Option<Vec<u8>>)
    requires
        8 * nal@.len() <= usize::MAX,
        fn_m4 < u64::MAX,
        poc_m4 matches Some(p) ==> p < u64::MAX,
    ensures
        match r {
            Some(out) => patched_sps(nal@, fn_m4 as nat, poc_m4) == Some(out@),
            None => sps_of(nal@) is None,
        },
{
    let (info, rbsp, start, end) = parse_sps_inner(nal)?;
    let ghost s = bits_of(rbsp@);
    let ghost l = SpsLayout { info, start: start as int, end: end as int };
    proof {
        lemma_layout_range(s);
    }
    let mut w = BitWriter::new();
    w.copy_bits(&rbsp, 0, start);
    let ghost head = s.subrange(0, start as int);
    assert(w@ =~= head);
    w.ue(fn_m4);
    match poc_m4 {
        Some(p) => {
            w.ue(0);  // poc_type 0
            w.ue(p);
            assert(w@ =~= head + (ue_code(fn_m4 as nat) + ue_code(0) + ue_code(p as nat)));
        },
        None => {
            w.ue(2);  // poc_type 2: display order IS decode order
            assert(w@ =~= head + (ue_code(fn_m4 as nat) + ue_code(2)));
        },
    }
    w.copy_bits(&rbsp, end, rbsp.len() * 8);
    assert(w@ == patched_bits(s, l, fn_m4 as nat, poc_m4));
    let body = w.finish();
    let mut out: Vec<u8> = Vec::new();
    out.push(nal[0]);
    push_all(&mut out, &add_emulation(&body));
    assert(out@ =~= seq![nal@[0]] + escaped(body@, 0));
    Some(out)
}

/// Patching again with the same widths changes nothing.
pub proof fn law_patching_again_changes_nothing(nal: Seq<u8>, f: nat, poc: Option<u64>)
    requires
        sps_of(nal) is Some,
        f < 0x1_ffff_ffff,
        poc matches Some(p) ==> p < 0x1_ffff_ffff,
    ensures
        patched_sps(nal, f, poc) matches Some(out) && out[0] == nal[0] && patched_sps(out, f, poc)
            == Some(out),
{
    let s = payload_bits(nal);
    let l = sps_layout(s).unwrap();
    let bits = patched_bits(s, l, f, poc);
    let body = pack(bits);
    let out = seq![nal[0]] + escaped(body, 0);
    assert(out.skip(1) =~= escaped(body, 0));
    law_emulation_roundtrip(body);
    law_pack(bits);
    let pad = zero_bits((8 * body.len() - bits.len()) as nat);
    let t = bits + pad;
    assert(payload_bits(out) == t);
    lemma_patched_layout(s, l, f, poc, pad);
    lemma_layout_range(s);
    let m = sps_layout(t).unwrap();
    assert(patched_bits(t, m, f, poc) =~= t) by {
        let head = s.subrange(0, l.start);
        let codes = width_codes(f, poc);
        let tail = s.subrange(l.end, s.len() as int);
        assert(t.subrange(0, m.start) =~= head);
        assert(t =~= head + codes + (tail + pad));
        assert(t.subrange(m.end, t.len() as int) =~= tail + pad);
    }
    law_unpacked_bits_pack_again(body);
}

// ---------------------------------------------------------------------------
// PPS: synthesized whole, never borrowed
// ---------------------------------------------------------------------------

/// Everything a PPS says that matters to slice parsing and entropy decode.
/// These are exactly the unknowns that divination grids over, so we write the
/// PPS from scratch instead of borrowing an encoder's.
#[derive(Debug, Clone, Copy, PartialEq, Eq, Structural)]
pub struct PpsParams {
    pub cabac: bool,
    /// Default reference count for list 0 (P-slice headers parse against it).
    pub ref_l0: u32,
    /// Slices carry pred-weight tables (hardware: rare; x264 medium+: yes).
    pub weighted_pred: bool,
    /// CABAC seeds its contexts from this; CAVLC merely dequantizes with it.
    pub init_qp: i64,
    pub chroma_qp_offset: i64,
    /// transform_8x8_mode changes I-macroblock parsing (High profile).
    pub transform_8x8: bool,
}

/// The part of a PPS payload that every PPS has.
pub open spec fn pps_core(p: PpsParams) -> Seq<bool> {
    let refs = if p.ref_l0 == 0 {
        0nat
    } else {
        (p.ref_l0 - 1) as nat
    };
    ue_code(0) + ue_code(0) + seq![p.cabac, false] + ue_code(0) + ue_code(refs) + ue_code(0) + seq![
        p.weighted_pred,
        true,
        false,
    ] + se_code(p.init_qp - 26) + se_code(0) + se_code(p.chroma_qp_offset as int) + seq![
        true,
        false,
        false,
    ]
}

/// The high-profile extension of a PPS payload.
pub open spec fn pps_extension(p: PpsParams) -> Seq<bool> {
    if p.transform_8x8 {
        seq![true, false] + se_code(p.chroma_qp_offset as int)
    } else {
        seq![]
    }
}

/// A PPS payload, with its stop bit.
pub open spec fn pps_bits(p: PpsParams) -> Seq<bool> {
    pps_core(p) + pps_extension(p) + seq![true]
}

/// A PPS NAL unit.
pub open spec fn pps_of(p: PpsParams) -> Seq<u8> {
    seq![0x68u8] + escaped(pack(pps_bits(p)), 0)
}

/// Writes the PPS NAL unit that says what `p` says.
pub fn build_pps(p: PpsParams) -> (nal: Vec<u8>)
    requires
        -0x4000_0000_0000_0000 < p.init_qp - 26,
        -0x4000_0000_0000_0000 < p.chroma_qp_offset,
    ensures
        nal@ == pps_of(p),
{
    let mut w = BitWriter::new();
    w.ue(0);  // pps_id
    w.ue(0);  // sps_id
    w.put(p.cabac);
    w.put(false);  // bottom_field_pic_order_in_frame_present
    let ghost part1 = ue_code(0) + ue_code(0) + seq![p.cabac, false];
    assert(w@ =~= part1);
    w.ue(0);  // num_slice_groups_minus1
    let refs: u32 = if p.ref_l0 == 0 {
        0
    } else {
        p.ref_l0 - 1
    };
    w.ue(refs as u64);
    w.ue(0);  // num_ref_idx_l1_default_active_minus1
    w.put(p.weighted_pred);
    // weighted_bipred_idc: implicit (no tables in B headers)
    w.put(true);
    w.put(false);
    let ghost part2 = part1 + ue_code(0) + ue_code(refs as nat) + ue_code(0) + seq![
        p.weighted_pred,
        true,
        false,
    ];
    assert(w@ =~= part2);
    w.se(p.init_qp - 26);
    w.se(0);  // pic_init_qs
    w.se(p.chroma_qp_offset);
    w.put(true);  // deblocking_filter_control_present (slices carry deblock fields)
    w.put(false);  // constrained_intra_pred
    w.put(false);  // redundant_pic_cnt_present
    assert(w@ =~= pps_core(p));
    if p.transform_8x8 {
        w.put(true);  // transform_8x8_mode
        w.put(false);  // pic_scaling_matrix_present
        w.se(p.chroma_qp_offset);  // second_chroma_qp_index_offset
    }
    assert(w@ =~= pps_core(p) + pps_extension(p));
    w.put(true);  // rbsp stop bit
    assert(w@ =~= pps_bits(p));
    let mut nal: Vec<u8> = Vec::new();
    nal.push(0x68);
    push_all(&mut nal, &add_emulation(&w.finish()));
    assert(nal@ =~= pps_of(p));
    nal
}

/// The fields of a PPS payload, in the order in which they stand.
pub open spec fn pps_fields(s: Seq<bool>) -> Option<PpsParams> {
    match ue_run_end(s, 0, 2) {
        None => None,
        Some(p1) => match (read_bit(s, p1), ue_run_end(s, p1 + 2, 1)) {
            (Some((cabac, _)), Some(p2)) => match read_ue(s, p2) {
                None => None,
                Some((refs, p3)) => match ue_run_end(s, p3, 1) {
                    None => None,
                    Some(p4) => match (read_bit(s, p4), read_se(s, p4 + 3)) {
                        (Some((weighted, _)), Some((qp, p5))) => match ue_run_end(s, p5, 1) {
                            None => None,
                            Some(p6) => match read_se(s, p6) {
                                None => None,
                                Some((chroma, p7)) => if p7 + 3 < s.len() {
                                    Some(
                                        PpsParams {
                                            cabac,
                                            ref_l0: (refs + 1) as u32,
                                            weighted_pred: weighted,
                                            init_qp: (qp + 26) as i64,
                                            chroma_qp_offset: chroma as i64,
                                            transform_8x8: !ends_at(s, p7 + 3),
                                        },
                                    )
                                } else {
                                    None
                                },
                            },
                        },
                        _ => None,
                    },
                },
            },
            _ => None,
        },
    }
}

/// Whether nothing but the stop bit and its padding is left at `p`.
pub open spec fn ends_at(s: Seq<bool>, p: int) -> bool {
    0 <= p < s.len() && s[p] && forall|i: int| p < i < s.len() ==> !#[trigger] s[i]
}

proof fn lemma_assoc(a: Seq<bool>, b: Seq<bool>, c: Seq<bool>)
    ensures
        a + b + c == a + (b + c),
{
    assert(a + b + c =~= a + (b + c));
}

proof fn lemma_first_of(h: Seq<bool>, x: Seq<bool>, r: Seq<bool>)
    requires
        x.len() > 0,
    ensures
        (h + (x + r))[h.len() as int] == x[0],
        (h + (x + r)).len() == h.len() + x.len() + r.len(),
{
}

/// The end of a PPS tells whether there is an extension.
proof fn lemma_pps_end(p: PpsParams, h: Seq<bool>, pad: Seq<bool>)
    requires
        forall|i: int| 0 <= i < pad.len() ==> !#[trigger] pad[i],
    ensures
        ends_at(h + (pps_extension(p) + seq![true] + pad), h.len() as int) == !p.transform_8x8,
        h.len() < (h + (pps_extension(p) + seq![true] + pad)).len(),
{
    let end = pps_extension(p) + seq![true] + pad;
    let s = h + end;
    let q = h.len() as int;
    if p.transform_8x8 {
        let stop = q + pps_extension(p).len();
        assert(s[stop]);
        assert(!ends_at(s, q));
    } else {
        assert forall|i: int| q < i < s.len() implies !#[trigger] s[i] by {
            assert(s[i] == end[i - q]);
            assert(end[i - q] == pad[i - q - 1]);
        }
        assert(s[q] == end[0]);
        assert(ends_at(s, q));
    }
}

/// One unsigned code in the middle of a sequence is a run of one code.
proof fn lemma_one_code(before: Seq<bool>, v: nat, after: Seq<bool>)
    requires
        v < 0x1_ffff_ffff,
    ensures
        ue_run_end(before + ue_code(v) + after, before.len() as int, 1) == Some(
            (before.len() + ue_code(v).len()) as int,
        ),
{
    law_ue_roundtrip(before, v, after);
    reveal_with_fuel(ue_run_end, 2);
}

/// A PPS payload and its padding read back field by field.
proof fn lemma_pps_fields(p: PpsParams, pad: Seq<bool>)
    requires
        -0xffff_ffff <= p.init_qp - 26 <= 0xffff_ffff,
        -0xffff_ffff <= p.chroma_qp_offset <= 0xffff_ffff,
        forall|i: int| 0 <= i < pad.len() ==> !#[trigger] pad[i],
    ensures
        pps_fields(pps_bits(p) + pad) == Some(pps_meaning(p)),
{
    let s = pps_bits(p) + pad;
    let refs = if p.ref_l0 == 0 {
        0nat
    } else {
        (p.ref_l0 - 1) as nat
    };
    let chroma = p.chroma_qp_offset as int;
    let c0 = ue_code(0);
    let x1 = seq![p.cabac, false];
    let x2 = seq![p.weighted_pred, true, false];
    let x3 = seq![true, false, false];
    let qp = se_code(p.init_qp - 26);
    let cq = se_code(chroma);
    let end = pps_extension(p) + seq![true] + pad;
    // s is the chain of its parts; h_i are its beginnings
    let r9 = x3 + end;
    let r8 = cq + r9;
    let r7 = se_code(0) + r8;
    let r6 = qp + r7;
    let r5 = x2 + r6;
    let r4 = c0 + r5;
    let r3 = ue_code(refs) + r4;
    let r2 = c0 + r3;
    let r1 = x1 + r2;
    let r0 = c0 + r1;
    let h1 = c0;
    let h2 = h1 + c0;
    let h3 = h2 + x1;
    let h4 = h3 + c0;
    let h5 = h4 + ue_code(refs);
    let h6 = h5 + c0;
    let h7 = h6 + x2;
    let h8 = h7 + qp;
    let h9 = h8 + se_code(0);
    let h10 = h9 + cq;
    let h11 = h10 + x3;
    assert(pps_core(p) == h11);
    lemma_assoc(h11, pps_extension(p), seq![true]);
    lemma_assoc(h11, pps_extension(p) + seq![true], pad);
    assert(s == h11 + end);
    lemma_assoc(h10, x3, end);
    lemma_assoc(h9, cq, r9);
    lemma_assoc(h8, se_code(0), r8);
    lemma_assoc(h7, qp, r7);
    lemma_assoc(h6, x2, r6);
    lemma_assoc(h5, c0, r5);
    lemma_assoc(h4, ue_code(refs), r4);
    lemma_assoc(h3, c0, r3);
    lemma_assoc(h2, x1, r2);
    lemma_assoc(h1, c0, r1);
    assert(s == c0 + r0);
    assert(c0 + r0 =~= Seq::<bool>::empty() + c0 + r0);
    law_ue_roundtrip(Seq::<bool>::empty(), 0, r0);
    law_ue_roundtrip(h1, 0, r1);
    assert(ue_run_end(s, 0, 2) == Some(h2.len() as int)) by {
        reveal_with_fuel(ue_run_end, 3);
    }
    lemma_first_of(h2, x1, r2);
    lemma_one_code(h3, 0, r3);
    law_ue_roundtrip(h4, refs, r4);
    lemma_one_code(h5, 0, r5);
    lemma_first_of(h6, x2, r6);
    law_se_roundtrip(h7, p.init_qp - 26, r7);
    lemma_one_code(h8, 0, r8);
    law_se_roundtrip(h9, chroma, r9);
    lemma_pps_end(p, h11, pad);
}

/// What a PPS built from `p` says: a list of no references counts as a list of one.
pub open spec fn pps_meaning(p: PpsParams) -> PpsParams {
    PpsParams {
        ref_l0: if p.ref_l0 == 0 {
            1
        } else {
            p.ref_l0
        },
        ..p
    }
}

/// A PPS reads back as what it was built from.
pub proof fn law_pps_reads_back(p: PpsParams)
    requires
        -0xffff_ffff <= p.init_qp - 26 <= 0xffff_ffff,
        -0xffff_ffff <= p.chroma_qp_offset <= 0xffff_ffff,
    ensures
        pps_fields(payload_bits(pps_of(p))) == Some(pps_meaning(p)),
{
    let nal = pps_of(p);
    let body = pack(pps_bits(p));
    assert(nal.skip(1) =~= escaped(body, 0));
    law_emulation_roundtrip(body);
    law_pack(pps_bits(p));
    let pad = zero_bits((8 * body.len() - pps_bits(p).len()) as nat);
    lemma_pps_fields(p, pad);
}

// ---------------------------------------------------------------------------
// Parameter sets inside an mp4
// ---------------------------------------------------------------------------

/// The first SPS and PPS of the avcC payload at `p`: a version byte 1, at least
/// one SPS and at least one PPS, each set behind a 16-bit length.
pub open spec fn avcc_sets(d: Seq<u8>, p: int) -> Option<(Seq<u8>, Seq<u8>)> {
    let q = p + 8 + be16_at(d, p + 6);
    let end = q + 3 + be16_at(d, q + 1);
    if p + 8 <= d.len() && d[p] == 1 && d[p + 5] % 32 != 0 && q + 3 <= d.len() && d[q] != 0 && end
        <= d.len() {
        Some((d.subrange(p + 8, q), d.subrange(q + 3, end)))
    } else {
        None
    }
}

/// The first SPS and PPS of the first avcC box in `d`.
pub open spec fn avcc_params(d: Seq<u8>) -> Option<(Seq<u8>, Seq<u8>)> {
    match first_at(d, AVCC@, 0) {
        Some(i) => avcc_sets(d, i + 4),
        None => None,
    }
}

/// First SPS and PPS NALs from the first avcC box found in the buffer.
pub fn extract_avcc_params(d: &[u8]) -> (r: Option<(Vec<u8>, Vec<u8>)>)
    ensures
        match r {
            Some((sps, pps)) => avcc_params(d@) == Some((sps@, pps@)),
            None => avcc_params(d@) is None,
        },
        r matches Some((sps, pps)) ==> sps@.len() < 0x1_0000 && pps@.len() < 0x1_0000,
{
    let idx: usize = find_at(d, &AVCC, 0)?;
    let p: usize = idx + 4;
    let left: usize = d.len() - p;
    // version(1) profile(1) compat(1) level(1) lengthSize(1) numSPS(1) length(2)
    if left < 8 || d[p] != 1 || d[p + 5] % 32 == 0 {
        return None;
    }
    let sps_len: usize = be16(d, p + 6) as usize;
    if left - 8 < sps_len || left - 8 - sps_len < 3 {
        return None;
    }
    let q: usize = p + 8 + sps_len;
    if d[q] == 0 {
        return None;  // no PPS
    }
    let pps_len: usize = be16(d, q + 1) as usize;
    if left - 8 - sps_len - 3 < pps_len {
        return None;
    }
    let mut sps: Vec<u8> = Vec::new();
    push_all(&mut sps, &d[p + 8..q]);
    let mut pps: Vec<u8> = Vec::new();
    push_all(&mut pps, &d[q + 3..q + 3 + pps_len]);
    assert(sps@ =~= d@.subrange(p + 8, q as int));
    assert(pps@ =~= d@.subrange(q + 3, q + 3 + pps_len));
    Some((sps, pps))
}

/// The fields of the first SPS of the first avcC box in `d`.
pub open spec fn sps_in(d: Seq<u8>) -> Option<SpsInfo> {
    match avcc_params(d) {
        Some((sps, pps)) => sps_of(sps),
        None => None,
    }
}

/// Hunts down the avcC inside a verbatim stsd box (or any buffer) and parses
/// its first SPS.
pub fn parse_sps_from_stsd(stsd: &[u8]) -> (r: Option<SpsInfo>)
    ensures
        r == sps_in(stsd@),
{
    match extract_avcc_params(stsd) {
        Some((sps, _)) => parse_sps(&sps),
        None => None,
    }
}

// ---------------------------------------------------------------------------
// Transplanting patched parameter sets back into an mp4
// ---------------------------------------------------------------------------

/// How far into a box at `pos` of `size` bytes the boxes that it holds begin: behind its
/// header, and in an stsd behind its version, flags and entry count, and in an avc1 or
/// avc3 behind the fields of a visual sample entry, unless a box stands right behind the
/// header there too.
pub open spec fn inner_start(d: Seq<u8>, pos: int, size: int) -> int {
    let next = be32_at(d, pos + 8);
    if pos + 12 <= d.len() && next >= 8 && 8 + next <= size {
        8
    } else if stands_at(d, pos + 4, STSD@) {
        16
    } else if stands_at(d, pos + 4, AVC1@) || stands_at(d, pos + 4, AVC3@) {
        86
    } else {
        8
    }
}

/// The boxes around byte `target`, outermost first and down to the one that begins
/// there, among those that start at `pos` and end at `end`; `None` if the walk leaves the
/// data. A box smaller than its own header ends the walk.
pub open spec fn boxes_around(d: Seq<u8>, pos: int, end: int, target: int) -> Option<Seq<int>>
    decreases
            (if pos <= d.len() {
                d.len() - pos + 1
            } else {
                0
            }),
{
    let size = be32_at(d, pos);
    if pos + 8 > end {
        Some(seq![])
    } else if pos < 0 || pos + 4 > d.len() {
        None
    } else if size < 8 {
        Some(seq![])
    } else if pos == target {
        Some(seq![pos])
    } else if pos < target < pos + size {
        match boxes_around(d, pos + inner_start(d, pos, size), pos + size, target) {
            Some(inner) => Some(seq![pos] + inner),
            None => None,
        }
    } else {
        boxes_around(d, pos + size, end, target)
    }
}

/// A walk over the boxes from `pos` on comes by `q`, before `end`.
pub open spec fn walks_to(d: Seq<u8>, pos: int, end: int, q: int) -> bool
    decreases q - pos,
{
    pos + 8 <= end && 0 <= pos && pos + 4 <= d.len() && be32_at(d, pos) >= 8 && (pos == q || (pos
        + be32_at(d, pos) <= q && walks_to(d, pos + be32_at(d, pos), end, q)))
}

/// Boxes nested one in the other, from one among those that start at `pos` and end at
/// `end` down to the one at `target`.
pub open spec fn nested_down_to(d: Seq<u8>, pos: int, end: int, path: Seq<int>, target: int) -> bool
    decreases path.len(),
{
    &&& path.len() > 0
    &&& walks_to(d, pos, end, path[0])
    &&& if path.len() == 1 {
        path[0] == target
    } else {
        let size = be32_at(d, path[0]);
        &&& path[0] < target < path[0] + size
        &&& nested_down_to(
            d,
            path[0] + inner_start(d, path[0], size),
            path[0] + size,
            path.skip(1),
            target,
        )
    }
}

/// `d` with the sizes of the boxes at `at` changed by `diff`, modulo 2^32.
pub open spec fn resized(d: Seq<u8>, at: Seq<int>, diff: int) -> Seq<u8>
    decreases at.len(),
{
    if at.len() == 0 {
        d
    } else {
        overwritten(
            resized(d, at.drop_last(), diff),
            at.last(),
            be32_bytes((be32_at(d, at.last()) + diff) % 0x1_0000_0000),
        )
    }
}

/// Where the first parameter sets stand in an mp4.
pub struct AvccSpan {
    /// Where the avcC box starts.
    pub avcc: int,
    /// Where the length of the SPS stands.
    pub sps: int,
    /// The length of the SPS.
    pub sps_len: int,
    /// Where the length of the PPS stands.
    pub pps: int,
    /// The length of the PPS.
    pub pps_len: int,
}

/// The parameter sets of the avcC box that starts at `avcc`, if it holds both.
pub open spec fn avcc_span(d: Seq<u8>, avcc: int) -> Option<AvccSpan> {
    let sps = avcc + 14;
    let sps_len = be16_at(d, sps);
    let pps = sps + 2 + sps_len + 1;
    let pps_len = be16_at(d, pps);
    if sps + 2 <= d.len() && pps + 2 <= d.len() && d[pps - 1] != 0 && pps + 2 + pps_len <= d.len() {
        Some(AvccSpan { avcc, sps, sps_len, pps, pps_len })
    } else {
        None
    }
}

/// Where the first parameter sets of the first avcC box stand.
pub open spec fn first_avcc_span(d: Seq<u8>) -> Option<AvccSpan> {
    match first_at(d, AVCC@, 0) {
        Some(i) => avcc_span(d, i - 4),
        None => None,
    }
}

/// The first avcC has room for its size before its name, and the boxes around
/// it can be walked within the data.
pub open spec fn avcc_replaceable(d: Seq<u8>) -> bool {
    &&& first_at(d, AVCC@, 0) matches Some(i) ==> i >= 4
    &&& first_avcc_span(d) matches Some(a) ==> boxes_around(d, 0, d.len() as int, a.avcc) is Some
}

/// How much longer an mp4 gets with other parameter sets.
pub open spec fn growth(a: AvccSpan, sps: Seq<u8>, pps: Seq<u8>) -> int {
    sps.len() + pps.len() - (a.sps_len + a.pps_len)
}

/// Bytes with other parameter sets where `a` says that some stand.
pub open spec fn spliced(b: Seq<u8>, a: AvccSpan, sps: Seq<u8>, pps: Seq<u8>) -> Seq<u8> {
    b.subrange(0, a.sps) + be16_bytes(sps.len() as int) + sps + b.subrange(
        a.sps + 2 + a.sps_len,
        a.pps,
    ) + be16_bytes(pps.len() as int) + pps + b.subrange(a.pps + 2 + a.pps_len, b.len() as int)
}

/// An mp4 with other parameter sets in its first avcC.
pub open spec fn with_params(d: Seq<u8>, a: AvccSpan, sps: Seq<u8>, pps: Seq<u8>) -> Seq<u8> {
    let around = boxes_around(d, 0, d.len() as int, a.avcc).unwrap();
    spliced(resized(d, around, growth(a, sps, pps)), a, sps, pps)
}

/// Boxes around the target start at or before it, in increasing order, with room
/// for a header each.
proof fn lemma_boxes_around(d: Seq<u8>, pos: int, end: int, target: int)
    requires
        0 <= pos,
        target + 4 <= d.len(),
        boxes_around(d, pos, end, target) is Some,
    ensures
        ({
            let at = boxes_around(d, pos, end, target).unwrap();
            &&& forall|i: int| 0 <= i < at.len() ==> pos <= #[trigger] at[i] <= target
            &&& forall|i: int, j: int| 0 <= i < j < at.len() ==> #[trigger] at[i] + 8 <= #[trigger] at[j]
        }),
    decreases
            (if pos <= d.len() {
                d.len() - pos + 1
            } else {
                0
            }),
{
    let size = be32_at(d, pos);
    if pos + 8 > end || size < 8 || pos == target {
    } else if pos < target < pos + size {
        let from = pos + inner_start(d, pos, size);
        lemma_boxes_around(d, from, pos + size, target);
        let inner = boxes_around(d, from, pos + size, target).unwrap();
        let at = seq![pos] + inner;
        assert forall|i: int, j: int| 0 <= i < j < at.len() implies #[trigger] at[i] + 8
            <= #[trigger] at[j] by {
            assert(at[j] == inner[j - 1]);
            if i > 0 {
                assert(at[i] == inner[i - 1]);
            }
        }
    } else {
        lemma_boxes_around(d, pos + size, end, target);
    }
}

/// Writing a word changes nothing else.
proof fn lemma_word_written(b: Seq<u8>, at: int, v: int)
    requires
        0 <= at,
        at + 4 <= b.len(),
        0 <= v < 0x1_0000_0000,
    ensures
        ({
            let r = b.subrange(0, at) + be32_bytes(v) + b.subrange(at + 4, b.len() as int);
            &&& r.len() == b.len()
            &&& be32_at(r, at) == v
            &&& forall|k: int| 0 <= k < b.len() && !(at <= k < at + 4) ==> #[trigger] r[k] == b[k]
        }),
{
    crate::bytes::lemma_be32_roundtrip(b.subrange(0, at), v, b.subrange(at + 4, b.len() as int));
}

/// A word is the same where its bytes are.
proof fn lemma_word_same(r: Seq<u8>, b: Seq<u8>, at: int)
    requires
        r[at] == b[at],
        r[at + 1] == b[at + 1],
        r[at + 2] == b[at + 2],
        r[at + 3] == b[at + 3],
    ensures
        be32_at(r, at) == be32_at(b, at),
{
}

/// Resizing writes only the sizes of the given boxes.
#[verifier::spinoff_prover]
#[verifier::rlimit(40)]
proof fn lemma_resized(d: Seq<u8>, at: Seq<int>, diff: int)
    requires
        forall|i: int| 0 <= i < at.len() ==> 0 <= #[trigger] at[i] && at[i] + 4 <= d.len(),
        forall|i: int, j: int| 0 <= i < j < at.len() ==> #[trigger] at[i] + 8 <= #[trigger] at[j],
    ensures
        resized(d, at, diff).len() == d.len(),
        forall|k: int|
            0 <= k < d.len() && (forall|i: int|
                0 <= i < at.len() ==> !(#[trigger] at[i] <= k < at[i] + 4)) ==> #[trigger] resized(
                d,
                at,
                diff,
            )[k] == d[k],
        forall|i: int|
            0 <= i < at.len() ==> be32_at(resized(d, at, diff), #[trigger] at[i]) == (be32_at(
                d,
                at[i],
            ) + diff) % 0x1_0000_0000,
    decreases at.len(),
{
    if at.len() > 0 {
        let head = at.drop_last();
        assert forall|i: int| 0 <= i < head.len() implies 0 <= #[trigger] head[i] && head[i] + 4
            <= d.len() by {
            assert(head[i] == at[i]);
        }
        assert forall|i: int, j: int| 0 <= i < j < head.len() implies #[trigger] head[i] + 8
            <= #[trigger] head[j] by {
            assert(head[i] == at[i] && head[j] == at[j]);
        }
        lemma_resized(d, head, diff);
        let b = resized(d, head, diff);
        let last = at[at.len() - 1];
        assert(at.last() == last);
        let v = (be32_at(d, last) + diff) % 0x1_0000_0000;
        let r = resized(d, at, diff);
        lemma_word_written(b, last, v);
        assert(r =~= b.subrange(0, last) + be32_bytes(v) + b.subrange(last + 4, b.len() as int));
        assert forall|k: int|
            0 <= k < d.len() && (forall|i: int|
                0 <= i < at.len() ==> !(#[trigger] at[i] <= k < at[i] + 4)) implies #[trigger] r[k]
            == d[k] by {
            assert(!(last <= k < last + 4));
            assert forall|i: int| 0 <= i < head.len() implies !(#[trigger] head[i] <= k < head[i]
                + 4) by {
                assert(head[i] == at[i]);
            }
            assert(b[k] == d[k]);
        }
        assert forall|i: int| 0 <= i < at.len() implies be32_at(r, #[trigger] at[i]) == (be32_at(
            d,
            at[i],
        ) + diff) % 0x1_0000_0000 by {
            if i < at.len() - 1 {
                assert(head[i] == at[i]);
                assert(at[i] + 8 <= last);
                lemma_word_same(r, b, at[i]);
            }
        }
    }
}

/// A walk that comes by a box finds what a walk from there finds.
proof fn lemma_walks_to(d: Seq<u8>, pos: int, end: int, q: int, target: int)
    requires
        walks_to(d, pos, end, q),
        q <= target,
    ensures
        boxes_around(d, pos, end, target) == boxes_around(d, q, end, target),
        q + 8 <= end,
        0 <= q,
        q + 4 <= d.len(),
        be32_at(d, q) >= 8,
    decreases q - pos,
{
    if pos != q {
        lemma_walks_to(d, pos + be32_at(d, pos), end, q, target);
    }
}

/// The boxes around a target are those that are nested down to it.
proof fn lemma_nested(d: Seq<u8>, pos: int, end: int, path: Seq<int>, target: int)
    requires
        nested_down_to(d, pos, end, path, target),
    ensures
        boxes_around(d, pos, end, target) == Some(path),
    decreases path.len(),
{
    let p = path[0];
    lemma_walks_to(d, pos, end, p, target);
    if path.len() == 1 {
        assert(path =~= seq![p]);
    } else {
        let size = be32_at(d, p);
        lemma_nested(d, p + inner_start(d, p, size), p + size, path.skip(1), target);
        assert(seq![p] + path.skip(1) =~= path);
    }
}

/// Replacing parameter sets changes the length by their growth, and every box
/// around them grows by as much: each on the path from the top of the file down to the
/// avcC, the avcC among them.
pub proof fn law_ancestors_grow(d: Seq<u8>, sps: Seq<u8>, pps: Seq<u8>, path: Seq<int>, i: int)
    requires
        avcc_replaceable(d),
        first_avcc_span(d) is Some,
        nested_down_to(d, 0, d.len() as int, path, first_avcc_span(d).unwrap().avcc),
        0 <= i < path.len(),
    ensures
        ({
            let a = first_avcc_span(d).unwrap();
            let out = with_params(d, a, sps, pps);
            let size = be32_at(d, path[i]) + growth(a, sps, pps);
            &&& path.last() == a.avcc
            &&& out.len() == d.len() + growth(a, sps, pps)
            &&& be32_at(out, path[i]) == size % 0x1_0000_0000
            &&& 0 <= size <= u32::MAX ==> be32_at(out, path[i]) == size
        }),
{
    let a = first_avcc_span(d).unwrap();
    lemma_nested(d, 0, d.len() as int, path, a.avcc);
    lemma_path_end(d, 0, d.len() as int, path, a.avcc);
    lemma_found_grow(d, sps, pps, i);
}

/// Each box that is found around the avcC grows.
proof fn lemma_found_grow(d: Seq<u8>, sps: Seq<u8>, pps: Seq<u8>, i: int)
    requires
        avcc_replaceable(d),
        first_avcc_span(d) is Some,
        0 <= i < boxes_around(d, 0, d.len() as int, first_avcc_span(d).unwrap().avcc).unwrap().len(),
    ensures
        ({
            let a = first_avcc_span(d).unwrap();
            let out = with_params(d, a, sps, pps);
            let around = boxes_around(d, 0, d.len() as int, a.avcc).unwrap();
            &&& out.len() == d.len() + growth(a, sps, pps)
            &&& be32_at(out, around[i]) == (be32_at(d, around[i]) + growth(a, sps, pps))
                % 0x1_0000_0000
        }),
{
    let a = first_avcc_span(d).unwrap();
    let out = with_params(d, a, sps, pps);
    let around = boxes_around(d, 0, d.len() as int, a.avcc).unwrap();
    lemma_boxes_around(d, 0, d.len() as int, a.avcc);
    let diff = growth(a, sps, pps);
    lemma_resized(d, around, diff);
    let b = resized(d, around, diff);
    let p = around[i];
    assert(p + 4 <= a.sps);
    assert(out[p] == b[p]);
    assert(out[p + 1] == b[p + 1]);
    assert(out[p + 2] == b[p + 2]);
    assert(out[p + 3] == b[p + 3]);
}

proof fn lemma_path_end(d: Seq<u8>, pos: int, end: int, path: Seq<int>, target: int)
    requires
        nested_down_to(d, pos, end, path, target),
    ensures
        path.last() == target,
    decreases path.len(),
{
    if path.len() > 1 {
        let size = be32_at(d, path[0]);
        lemma_path_end(
            d,
            path[0] + inner_start(d, path[0], size),
            path[0] + size,
            path.skip(1),
            target,
        );
    }
}

/// The parameter sets that were put in are the ones that are found: provided the
/// avcC box reads as one (version 1, at least one SPS), the lengths fit their
/// fields, and no changed size spells `avcC` itself.
pub proof fn law_replaced_params_read_back(d: Seq<u8>, sps: Seq<u8>, pps: Seq<u8>)
    requires
        avcc_replaceable(d),
        first_avcc_span(d) is Some,
        sps.len() < 0x1_0000,
        pps.len() < 0x1_0000,
        d[first_avcc_span(d).unwrap().avcc + 8] == 1,
        d[first_avcc_span(d).unwrap().avcc + 13] % 32 != 0,
        first_at(with_params(d, first_avcc_span(d).unwrap(), sps, pps), AVCC@, 0) == first_at(
            d,
            AVCC@,
            0,
        ),
    ensures
        avcc_params(with_params(d, first_avcc_span(d).unwrap(), sps, pps)) == Some((sps, pps)),
{
    let a = first_avcc_span(d).unwrap();
    let out = with_params(d, a, sps, pps);
    let around = boxes_around(d, 0, d.len() as int, a.avcc).unwrap();
    lemma_boxes_around(d, 0, d.len() as int, a.avcc);
    let diff = growth(a, sps, pps);
    lemma_resized(d, around, diff);
    let b = resized(d, around, diff);
    let p = a.avcc + 8;
    assert forall|k: int| p <= k < d.len() implies #[trigger] b[k] == d[k] by {
        assert forall|i: int| 0 <= i < around.len() implies !(#[trigger] around[i] <= k < around[i]
            + 4) by {}
    }
    let mid = b.subrange(a.sps + 2 + a.sps_len, a.pps);
    let end = b.subrange(a.pps + 2 + a.pps_len, d.len() as int);
    let head = b.subrange(0, a.sps);
    let sl = be16_bytes(sps.len() as int);
    let pl = be16_bytes(pps.len() as int);
    assert(out =~= head + sl + (sps + mid + pl + pps + end));
    crate::bytes::lemma_be16_roundtrip(head, sps.len() as int, sps + mid + pl + pps + end);
    assert(out =~= (head + sl + sps + mid) + pl + (pps + end));
    crate::bytes::lemma_be16_roundtrip(head + sl + sps + mid, pps.len() as int, pps + end);
    assert(out[p] == b[p]);
    assert(out[p + 5] == b[p + 5]);
    let q = p + 8 + sps.len();
    assert(out[q] == mid[0]);
    assert(out.subrange(p + 8, q) =~= sps);
    assert(out.subrange(q + 3, q + 3 + pps.len()) =~= pps);
}

/// The positions as mathematical integers.
spec fn as_ints(at: Seq<usize>) -> Seq<int> {
    at.map_values(|p: usize| p as int)
}

/// How far into a box the boxes that it holds begin.
fn inner_offset(d: &[u8], pos: usize, size: u128) -> (r: usize)
    requires
        pos + 4 <= d@.len(),
    ensures
        r == inner_start(d@, pos as int, size as int),
{
    if d.len() - pos >= 12 {
        let next: u128 = be32(d, pos + 8) as u128;
        if next >= 8 && 8 + next <= size {
            return 8;
        }
    }
    if matches_at(d, pos + 4, &STSD) {
        16
    } else if matches_at(d, pos + 4, &AVC1) || matches_at(d, pos + 4, &AVC3) {
        86
    } else {
        8
    }
}

/// Collects the boxes around `target`, outermost first; `None` if the walk
/// leaves the data.
fn find_boxes_around(d: &[u8], target: usize) -> (r: Option<Vec<usize>>)
    ensures
        match r {
            Some(at) => boxes_around(d@, 0, d@.len() as int, target as int) == Some(as_ints(at@)),
            None => boxes_around(d@, 0, d@.len() as int, target as int) is None,
        },
{
    let mut at: Vec<usize> = Vec::new();
    let n: u128 = d.len() as u128;
    let mut pos: u128 = 0;
    let mut end: u128 = n;
    let ghost whole = boxes_around(d@, 0, d@.len() as int, target as int);
    assert(as_ints(at@) =~= Seq::<int>::empty());
    assert(whole matches Some(r) ==> Seq::<int>::empty() + r =~= r);
    while pos + 8 <= end
        invariant
            n == d@.len(),
            n <= usize::MAX,
            whole == boxes_around(d@, 0, d@.len() as int, target as int),
            pos <= n + 0x1_0000_0000,
            end <= n + 0x1_0000_0000,
            match boxes_around(d@, pos as int, end as int, target as int) {
                Some(r) => whole == Some(as_ints(at@) + r),
                None => whole is None,
            },
        decreases
                (if pos <= n {
                    n - pos + 1
                } else {
                    0
                }),
    {
        if pos + 4 > n {
            return None;
        }
        let here: usize = pos as usize;
        let size: u128 = be32(d, here) as u128;
        if size < 8 {
            assert(as_ints(at@) + Seq::<int>::empty() =~= as_ints(at@));
            return Some(at);
        }
        if here == target {
            let ghost before = as_ints(at@);
            at.push(here);
            assert(as_ints(at@) =~= before + seq![here as int]);
            return Some(at);
        }
        if here < target && (target as u128) < pos + size {
            let ghost before = as_ints(at@);
            at.push(here);
            end = pos + size;
            pos = pos + inner_offset(d, here, size) as u128;
            assert(as_ints(at@) =~= before + seq![here as int]);
            assert(boxes_around(d@, pos as int, end as int, target as int) matches Some(r)
                ==> before + (seq![here as int] + r) =~= as_ints(at@) + r);
        } else {
            pos = pos + size;
        }
    }
    assert(as_ints(at@) + Seq::<int>::empty() =~= as_ints(at@));
    Some(at)
}

/// A copy of `d` with the sizes of the boxes at `around` changed by `diff`, given
/// modulo 2^32.
fn resize_boxes(d: &[u8], around: &[usize], step: u32, diff: Ghost<int>) -> (b: Vec<u8>)
    requires
        step == diff@ % 0x1_0000_0000,
        forall|j: int| 0 <= j < around@.len() ==> #[trigger] around@[j] + 4 <= d@.len(),
    ensures
        b@ == resized(d@, as_ints(around@), diff@),
        b@.len() == d@.len(),
{
    let ghost at = as_ints(around@);
    let mut b: Vec<u8> = Vec::new();
    push_all(&mut b, d);
    assert(b@ =~= d@);
    assert(at.take(0) =~= Seq::<int>::empty());
    let mut i: usize = 0;
    while i < around.len()
        invariant
            i <= around@.len(),
            at == as_ints(around@),
            b@ == resized(d@, at.take(i as int), diff@),
            b@.len() == d@.len(),
            step == diff@ % 0x1_0000_0000,
            forall|j: int| 0 <= j < around@.len() ==> #[trigger] around@[j] + 4 <= d@.len(),
        decreases around.len() - i,
    {
        let pos: usize = around[i];
        assert(at[i as int] == pos);
        let size: u32 = be32(d, pos).wrapping_add(step);
        assert(size == (be32_at(d@, pos as int) + diff@) % 0x1_0000_0000);
        put_be32(&mut b, pos, size);
        assert(at.take(i + 1).drop_last() =~= at.take(i as int));
        i = i + 1;
    }
    assert(at.take(i as int) =~= at);
    b
}

/// The parameter sets of the avcC box at `avcc`: where the SPS length stands and
/// what it is, and the same of the PPS.
fn find_avcc_span(d: &[u8], avcc: usize) -> (r: Option<(usize, usize, usize, usize)>)
    requires
        avcc + 8 <= d@.len(),
    ensures
        match r {
            Some((sps, sps_len, pps, pps_len)) => avcc_span(d@, avcc as int) == Some(
                AvccSpan {
                    avcc: avcc as int,
                    sps: sps as int,
                    sps_len: sps_len as int,
                    pps: pps as int,
                    pps_len: pps_len as int,
                },
            ),
            None => avcc_span(d@, avcc as int) is None,
        },
{
    let left: usize = d.len() - avcc;
    if left < 16 {
        return None;
    }
    let sps: usize = avcc + 14;
    let sps_len: usize = be16(d, sps) as usize;
    if left - 16 < sps_len || left - 16 - sps_len < 3 {
        return None;
    }
    let pps: usize = sps + 2 + sps_len + 1;
    if d[pps - 1] == 0 {
        return None;
    }
    let pps_len: usize = be16(d, pps) as usize;
    if left - 16 - sps_len - 3 < pps_len {
        return None;
    }
    Some((sps, sps_len, pps, pps_len))
}

/// Whether the first avcC of `mp4` can be rewritten in place.
pub fn can_replace_avcc(mp4: &[u8]) -> (r: bool)
    ensures
        r == avcc_replaceable(mp4@),
{
    match find_at(mp4, &AVCC, 0) {
        Some(i) => {
            if i < 4 {
                return false;
            }
            match find_avcc_span(mp4, i - 4) {
                Some(_) => find_boxes_around(mp4, i - 4).is_some(),
                None => true,
            }
        },
        None => true,
    }
}

/// Replaces the first SPS and PPS inside the file's avcC, growing or
/// shrinking every ancestor box on the way up. Requires moov to follow mdat
/// (so chunk offsets don't move), true of every donor this tool encodes.
#[verifier::spinoff_prover]
#[verifier::rlimit(80)]
pub fn replace_avcc_params(mp4: &[u8], new_sps: &[u8], new_pps: &[u8]) -> (r: Option<Vec<u8>>)
    requires
        avcc_replaceable(mp4@),
    ensures
        match r {
            Some(out) => first_avcc_span(mp4@) is Some && out@ == with_params(
                mp4@,
                first_avcc_span(mp4@).unwrap(),
                new_sps@,
                new_pps@,
            ),
            None => first_avcc_span(mp4@) is None,
        },
{
    let avcc: usize = find_at(mp4, &AVCC, 0)? - 4;
    let (sps, sps_len, pps, pps_len) = find_avcc_span(mp4, avcc)?;
    let ghost a = first_avcc_span(mp4@).unwrap();
    let around = find_boxes_around(mp4, avcc)?;
    let ghost at = as_ints(around@);
    proof {
        lemma_boxes_around(mp4@, 0, mp4@.len() as int, avcc as int);
        assert(boxes_around(mp4@, 0, mp4@.len() as int, avcc as int).unwrap() == at);
        assert(avcc + 8 <= mp4@.len());
        assert forall|j: int| 0 <= j < around@.len() implies #[trigger] around@[j] + 4
            <= mp4@.len() by {
            assert(at[j] == around@[j]);
        }
    }
    let ghost diff = growth(a, new_sps@, new_pps@);
    let step: u32 = size_step(new_sps.len(), new_pps.len(), (sps_len + pps_len) as u32);
    assert(step == diff % 0x1_0000_0000);
    // bump every box containing the avcC
    let b = resize_boxes(mp4, &around, step, Ghost(diff));
    assert(a == (AvccSpan {
        avcc: avcc as int,
        sps: sps as int,
        sps_len: sps_len as int,
        pps: pps as int,
        pps_len: pps_len as int,
    }));
    Some(splice(&b, sps, sps_len, pps, pps_len, new_sps, new_pps, Ghost(a)))
}

/// Puts other parameter sets in.
fn splice(
    b: &[u8],
    sps: usize,
    sps_len: usize,
    pps: usize,
    pps_len: usize,
    new_sps: &[u8],
    new_pps: &[u8],
    a: Ghost<AvccSpan>,
) -> (out: Vec<u8>)
    requires
        a@.sps == sps,
        a@.sps_len == sps_len,
        a@.pps == pps,
        a@.pps_len == pps_len,
        sps + 2 + sps_len <= pps,
        pps + 2 + pps_len <= b@.len(),
    ensures
        out@ == spliced(b@, a@, new_sps@, new_pps@),
{
    let mut out: Vec<u8> = Vec::new();
    assert(b.len() <= usize::MAX);
    push_all(&mut out, &b[0..sps]);
    push_be16(&mut out, low16(new_sps.len()));
    push_all(&mut out, new_sps);
    push_all(&mut out, &b[sps + 2 + sps_len..pps]);
    push_be16(&mut out, low16(new_pps.len()));
    push_all(&mut out, new_pps);
    push_all(&mut out, &b[pps + 2 + pps_len..b.len()]);
    proof {
        crate::bytes::lemma_be16_low(new_sps@.len() as int);
        crate::bytes::lemma_be16_low(new_pps@.len() as int);
        assert(b@.subrange(0, sps as int) + be16_bytes(new_sps@.len() as int) =~= Seq::<u8>::empty()
            + b@.subrange(0, sps as int) + be16_bytes(new_sps@.len() as int));
    }
    out
}

/// By how much boxes grow where two parameter sets take the place of `old` bytes, in 32 bits.
fn size_step(sps: usize, pps: usize, old: u32) -> (r: u32)
    ensures
        r == (sps + pps - old) % 0x1_0000_0000,
{
    let grown: u32 = low32(sps).wrapping_add(low32(pps));
    let r: u32 = grown.wrapping_sub(old);
    proof {
        let m = 0x1_0000_0000int;
        let (a, b) = (sps as int / m, pps as int / m);
        assert(sps == m * a + sps as int % m && pps == m * b + pps as int % m);
        let k: int = (if sps as int % m + pps as int % m >= m {
            1int
        } else {
            0
        }) - (if grown < old {
            1int
        } else {
            0
        });
        assert(sps + pps - old == m * (a + b + k) + r);
        vstd::arithmetic::div_mod::lemma_fundamental_div_mod_converse(
            sps + pps - old,
            m,
            a + b + k,
            r as int,
        );
    }
    r
}

/// The low 32 bits of a length.
fn low32(n: usize) -> (r: u32)
    ensures
        r == n as int % 0x1_0000_0000,
{
    (n as u64 % 0x1_0000_0000) as u32
}

/// The low 16 bits of a length.
fn low16(n: usize) -> (r: u16)
    ensures
        r == n % 0x1_0000,
{
    (n % 0x1_0000) as u16
}

} // verus!
