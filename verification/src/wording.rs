//! What the texts promise: numbers read back, lists are put together part by part, lines count
//! where they have something on them, and what ffprobe says is taken in order.
use crate::ffx::{first_pictured, times_of, Packet, Stream};
use crate::rescue::{report_of, seconds};
use crate::text::{
    decimal, digit_char, is_white, joined, line_begun, lines_with_text, signed_decimal,
};
use crate::transplant::Transplant;
use vstd::prelude::*;

verus! {

// ---------------------------------------------------------------------------
// Numbers
// ---------------------------------------------------------------------------

/// What a row of digits is worth, the last counting ones.
pub open spec fn worth(s: Seq<char>) -> int
    decreases s.len(),
{
    if s.len() == 0 {
        0
    } else {
        10 * worth(s.drop_last()) + (s.last() as int - '0' as int)
    }
}

/// A number in decimal is worth that number, in digits alone, with no zero before them.
pub proof fn law_decimals_read_back(n: nat)
    ensures
        worth(decimal(n)) == n,
        decimal(n).len() > 0,
        forall|i: int| 0 <= i < decimal(n).len() ==> '0' <= #[trigger] decimal(n)[i] <= '9',
        n > 0 ==> decimal(n)[0] != '0',
        n == 0 ==> decimal(n) == seq!['0'],
    decreases n,
{
    reveal_with_fuel(worth, 2);
    if n < 10 {
        assert(decimal(n).drop_last() =~= Seq::<char>::empty());
    } else {
        law_decimals_read_back(n / 10);
        assert(decimal(n).drop_last() =~= decimal(n / 10));
    }
}

/// A negative number has a minus sign before it, and no other has.
pub proof fn law_signs_are_written(n: nat)
    ensures
        signed_decimal(n as int) == decimal(n),
        n > 0 ==> signed_decimal(-(n as int)) == seq!['-'] + decimal(n),
{
}

proof fn lemma_three_digits(a: int, b: int, c: int)
    requires
        0 <= a < 10,
        0 <= b < 10,
        0 <= c < 10,
    ensures
        worth(seq![digit_char(a), digit_char(b), digit_char(c)]) == 100 * a + 10 * b + c,
{
    let s = seq![digit_char(a), digit_char(b), digit_char(c)];
    reveal_with_fuel(worth, 4);
    assert(s.drop_last() =~= seq![digit_char(a), digit_char(b)]);
    assert(s.drop_last().drop_last() =~= seq![digit_char(a)]);
    assert(s.drop_last().drop_last().drop_last() =~= Seq::<char>::empty());
    assert(forall|d: int| 0 <= d < 10 ==> #[trigger] digit_char(d) as int - '0' as int == d);
}

proof fn lemma_thousandths(s: nat, ms: nat)
    requires
        ms < 1000,
    ensures
        (1000 * s + ms) / 1000 == s,
        ms == 100 * (((1000 * s + ms) / 100) % 10) + 10 * (((1000 * s + ms) / 10) % 10) + (1000 * s
            + ms) % 10,
{
    let n = 1000 * s + ms;
    let (a, b, c) = (ms / 100, (ms / 10) % 10, ms % 10);
    assert(ms == 100 * a + 10 * b + c && a < 10) by {
        let t = ms / 10;
        assert(t / 10 == a);
    }
    assert(n == 100 * (10 * s + a) + (10 * b + c));
    assert(n / 100 == 10 * s + a && (10 * s + a) % 10 == a);
    assert(n == 10 * (100 * s + 10 * a + b) + c);
    assert(n / 10 == 100 * s + 10 * a + b && (10 * (10 * s + a) + b) % 10 == b);
    assert((10 * (100 * s + 10 * a + b) + c) % 10 == c);
    assert(n == 1000 * s + ms && n / 1000 == s);
}

proof fn lemma_seconds_cut(whole: Seq<char>, a: char, b: char, c: char)
    ensures
        ({
            let t = whole + seq!['.'] + seq![a] + seq![b] + seq![c] + seq!['s'];
            let k = whole.len() as int;
            &&& t.len() == k + 5
            &&& t.take(k) == whole
            &&& t[k] == '.'
            &&& t.subrange(k + 1, k + 4) == seq![a, b, c]
            &&& t[k + 4] == 's'
        }),
{
    let t = whole + seq!['.'] + seq![a] + seq![b] + seq![c] + seq!['s'];
    let k = whole.len() as int;
    assert(t.take(k) =~= whole);
    assert(t.subrange(k + 1, k + 4) =~= seq![a, b, c]);
}

/// Milliseconds as seconds: whole seconds, a point, three digits that are worth what is left,
/// and the unit.
pub proof fn law_seconds_have_three_decimals(s: nat, ms: nat)
    requires
        ms < 1000,
    ensures
        ({
            let t = seconds(1000 * s + ms);
            let k = decimal(s).len() as int;
            &&& t.len() == k + 5
            &&& t.take(k) == decimal(s)
            &&& t[k] == '.'
            &&& worth(t.subrange(k + 1, k + 4)) == ms
            &&& t[k + 4] == 's'
        }),
{
    let n = 1000 * s + ms;
    lemma_thousandths(s, ms);
    let (a, b, c) = ((n / 100) % 10, (n / 10) % 10, n % 10);
    assert(decimal(a) == seq![digit_char(a as int)]);
    assert(decimal(b) == seq![digit_char(b as int)]);
    assert(decimal(c) == seq![digit_char(c as int)]);
    assert("."@ == seq!['.'] && "s"@ == seq!['s']) by {
        reveal_strlit(".");
        reveal_strlit("s");
        assert("."@ =~= seq!['.'] && "s"@ =~= seq!['s']);
    }
    lemma_seconds_cut(
        decimal(s),
        digit_char(a as int),
        digit_char(b as int),
        digit_char(c as int),
    );
    lemma_three_digits(a as int, b as int, c as int);
}

// ---------------------------------------------------------------------------
// Lists and lines
// ---------------------------------------------------------------------------

/// A list of one part is that part, and two lists are joined as their parts are, with the
/// separator between them.
pub proof fn law_lists_are_joined(
    a: Seq<Seq<char>>,
    b: Seq<Seq<char>>,
    part: Seq<char>,
    sep: Seq<char>,
)
    ensures
        joined(seq![part], sep) == part,
        joined(Seq::<Seq<char>>::empty(), sep) == Seq::<char>::empty(),
        a.len() > 0 && b.len() > 0 ==> joined(a + b, sep) == joined(a, sep) + sep + joined(b, sep),
    decreases b.len(),
{
    if a.len() > 0 && b.len() > 0 {
        assert((a + b).drop_last() =~= a + b.drop_last());
        assert((a + b).last() == b.last());
        if b.len() == 1 {
            assert(a + b.drop_last() =~= a);
        } else {
            law_lists_are_joined(a, b.drop_last(), part, sep);
            assert(joined(a + b, sep) =~= joined(a, sep) + sep + joined(b, sep));
        }
    }
}

proof fn lemma_line_prefix(s: Seq<char>, t: Seq<char>, n: int)
    requires
        0 <= n <= s.len(),
    ensures
        line_begun(s + t, n) == line_begun(s, n),
        lines_with_text(s + t, n) == lines_with_text(s, n),
    decreases n,
{
    if n > 0 {
        lemma_line_prefix(s, t, n - 1);
    }
}

proof fn lemma_after_break(s: Seq<char>, t: Seq<char>, n: int)
    requires
        0 <= n <= t.len(),
    ensures
        ({
            let all = s + seq!['\n'] + t;
            let k = s.len() + 1 + n;
            &&& line_begun(all, k) == line_begun(t, n)
            &&& lines_with_text(all, k) == lines_with_text(s, s.len() as int) + lines_with_text(
                t,
                n,
            )
        }),
    decreases n,
{
    let all = s + seq!['\n'] + t;
    if n == 0 {
        let k = s.len() as int;
        assert(all[k] == '\n');
        assert(is_white('\n'));
        assert(all =~= s + (seq!['\n'] + t));
        lemma_line_prefix(s, seq!['\n'] + t, k);
    } else {
        lemma_after_break(s, t, n - 1);
        assert(all[s.len() + n] == t[n - 1]);
    }
}

proof fn lemma_one_line(s: Seq<char>, n: int)
    requires
        0 <= n <= s.len(),
        !s.contains('\n'),
    ensures
        line_begun(s, n) == exists|i: int| 0 <= i < n && !is_white(#[trigger] s[i]),
        lines_with_text(s, n) == if line_begun(s, n) {
            1nat
        } else {
            0
        },
    decreases n,
{
    if n > 0 {
        lemma_one_line(s, n - 1);
        assert(s[n - 1] != '\n') by {
            assert(s.contains(s[n - 1]));
        }
        if line_begun(s, n) && is_white(s[n - 1]) {
            assert(line_begun(s, n - 1));
        }
    }
}

/// Lines are counted one by one: those behind a line break add to those before it, and a line
/// counts where anything on it is no white space.
pub proof fn law_lines_count_where_something_stands(s: Seq<char>, t: Seq<char>)
    ensures
        lines_with_text(s + seq!['\n'] + t, (s + seq!['\n'] + t).len() as int) == lines_with_text(
            s,
            s.len() as int,
        ) + lines_with_text(t, t.len() as int),
        !s.contains('\n') ==> lines_with_text(s, s.len() as int) == if exists|i: int|
            0 <= i < s.len() && !is_white(#[trigger] s[i]) {
            1nat
        } else {
            0
        },
{
    lemma_after_break(s, t, t.len() as int);
    if !s.contains('\n') {
        lemma_one_line(s, s.len() as int);
    }
}

/// Of the ASCII characters, the space and the five from tab to carriage return are white space.
pub proof fn law_blanks_are_white(c: char)
    requires
        c < '\x7f',
    ensures
        is_white(c) <==> c == ' ' || '\t' <= c <= '\r',
{
}

// ---------------------------------------------------------------------------
// Probes
// ---------------------------------------------------------------------------

/// The first stream with a picture is one, and none before it has one.
pub proof fn law_first_picture_is_the_first(streams: Seq<Stream>, i: int)
    requires
        0 <= i,
    ensures
        match first_pictured(streams, i) {
            Some(s) => exists|k: int|
                i <= k < streams.len() && #[trigger] streams[k] == s && s.pictured() && forall|j: int|
                    i <= j < k ==> !(#[trigger] streams[j]).pictured(),
            None => forall|j: int| i <= j < streams.len() ==> !(#[trigger] streams[j]).pictured(),
        },
    decreases streams.len() - i,
{
    if i < streams.len() && !streams[i].pictured() {
        law_first_picture_is_the_first(streams, i + 1);
    } else if i < streams.len() {
        assert(streams[i] == streams[i]);
    }
}

/// The times of keyframes are those that the packets flagged as keyframes give, in order: a
/// packet adds its presentation time, else its decoding time, else nothing; and one that is no
/// keyframe adds nothing.
pub proof fn law_keyframe_times_are_in_order(a: Seq<Packet>, b: Seq<Packet>, p: Packet)
    ensures
        times_of(a + b) == times_of(a) + times_of(b),
        p.flags is None ==> times_of(seq![p]) == Seq::<Seq<char>>::empty(),
        p.flags matches Some(f) && !f@.contains('K') ==> times_of(seq![p]) == Seq::<
            Seq<char>,
        >::empty(),
        p.flags matches Some(f) && f@.contains('K') && p.pts_time is Some ==> times_of(seq![p])
            == seq![p.pts_time->0@],
        p.flags matches Some(f) && f@.contains('K') && p.pts_time is None && p.dts_time is Some
            ==> times_of(seq![p]) == seq![p.dts_time->0@],
        p.flags matches Some(f) && f@.contains('K') && p.pts_time is None && p.dts_time is None
            ==> times_of(seq![p]) == Seq::<Seq<char>>::empty(),
    decreases b.len(),
{
    reveal_with_fuel(times_of, 2);
    assert(seq![p].drop_last() =~= Seq::<Packet>::empty());
    assert(seq![p].last() == p);
    assert(Seq::<Seq<char>>::empty().push(p.pts_time->0@) =~= seq![p.pts_time->0@]);
    assert(Seq::<Seq<char>>::empty().push(p.dts_time->0@) =~= seq![p.dts_time->0@]);
    if b.len() == 0 {
        assert(a + b =~= a);
        assert(times_of(a) + times_of(b) =~= times_of(a));
    } else {
        law_keyframe_times_are_in_order(a, b.drop_last(), p);
        assert((a + b).drop_last() =~= a + b.drop_last());
        assert((a + b).last() == b.last());
        assert(times_of(a + b) =~= times_of(a) + times_of(b));
    }
}

// ---------------------------------------------------------------------------
// Reports
// ---------------------------------------------------------------------------

/// One line, or none.
pub open spec fn lines_for(said: bool) -> nat {
    if said {
        1
    } else {
        0
    }
}

/// A report says what there is to say, and no more: samples and duration always, timing where
/// the donor reorders frames, and every loss or gain where there was one.
pub proof fn law_reports_say_what_happened(t: Transplant, reorders: bool, rate: u32)
    ensures
        ({
            let r = report_of(t, reorders, rate);
            &&& r.len() == 2 + lines_for(reorders) + lines_for(t.dropped_leading > 0) + lines_for(
                t.audio_samples > 0,
            ) + lines_for(t.aac_chunks > 0) + lines_for(t.audio_bytes_dropped > 0) + lines_for(
                t.torn_bytes > 0,
            )
            &&& r[0] == "    video samples recovered : "@ + decimal(t.video_samples as nat) + " ("@
                + decimal(t.sync_samples as nat) + " keyframes)"@
            &&& r[r.len() - 1] == "    recovered duration      : "@ + seconds(t.duration_ms as nat)
            &&& t.torn_bytes > 0 ==> r[r.len() - 2] == "    torn beyond recovery    : "@ + decimal(
                t.torn_bytes as nat,
            ) + " bytes"@
        }),
{
}

} // verus!
