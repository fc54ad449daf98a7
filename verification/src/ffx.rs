//! What ffprobe and ffmpeg are asked, and what their answers mean. Running them is
//! left to the caller, who hands their output in.
use crate::gestalt::{frame_size, pictures_from, pictures_of, split_frames, Frame};
use crate::text::{
    count_lines, decimal, has_char, join, joined, lines_with_text, lossy_text, push_decimal,
    same_text, utf8_lossy,
};
use vstd::prelude::*;
use vstd::string::*;

verus! {

// ---------------------------------------------------------------------------
// ffprobe
// ---------------------------------------------------------------------------

/// What ffprobe says of a file.
#[derive(Debug)]
pub struct Probe {
    pub streams: Vec<Stream>,
    pub format: Option<Format>,
}

/// What ffprobe says of a stream.
#[derive(Debug)]
pub struct Stream {
    pub codec_type: Option<String>,
    pub codec_name: Option<String>,
    pub width: Option<u32>,
    pub height: Option<u32>,
}

/// What ffprobe says of a container.
#[derive(Debug)]
pub struct Format {
    pub format_name: Option<String>,
    pub duration: Option<String>,
}

/// The text that is there is this one.
pub open spec fn reads(t: Option<String>, s: Seq<char>) -> bool {
    match t {
        Some(x) => x@ == s,
        None => false,
    }
}

/// The text that is there, or a question mark.
pub open spec fn text_or_unknown(t: Option<String>) -> Seq<char> {
    match t {
        Some(x) => x@,
        None => "?"@,
    }
}

impl Stream {
    /// A video stream with real dimensions.
    pub open spec fn pictured(&self) -> bool {
        reads(self.codec_type, "video"@) && self.width is Some && self.width->0 > 0
    }

    /// A video stream that is no cover art.
    pub open spec fn moving(&self) -> bool {
        self.pictured() && !reads(self.codec_name, "mjpeg"@) && !reads(self.codec_name, "png"@)
    }

    /// The stream in words.
    pub open spec fn words(&self) -> Seq<char> {
        let named = text_or_unknown(self.codec_type) + ":"@ + text_or_unknown(self.codec_name);
        match (self.width, self.height) {
            (Some(w), Some(h)) => named + " "@ + decimal(w as nat) + "x"@ + decimal(h as nat),
            _ => named,
        }
    }

    fn is_pictured(&self) -> (r: bool)
        ensures
            r == self.pictured(),
    {
        says(&self.codec_type, "video") && match self.width {
            Some(w) => w > 0,
            None => false,
        }
    }

    fn describe(&self) -> (r: String)
        ensures
            r@ == self.words(),
    {
        let mut s = String::new();
        append_known(&mut s, &self.codec_type);
        s.append(":");
        append_known(&mut s, &self.codec_name);
        if let Some(w) = self.width {
            if let Some(h) = self.height {
                s.append(" ");
                push_decimal(&mut s, w as u64);
                s.append("x");
                push_decimal(&mut s, h as u64);
            }
        }
        assert(s@ =~= self.words());
        s
    }
}

fn says(t: &Option<String>, s: &str) -> (r: bool)
    ensures
        r == reads(*t, s@),
{
    match t {
        Some(x) => same_text(x.as_str(), s),
        None => false,
    }
}

fn append_known(out: &mut String, t: &Option<String>)
    ensures
        final(out)@ == old(out)@ + text_or_unknown(*t),
{
    match t {
        Some(x) => {
            out.append(x.as_str());
        },
        None => {
            out.append("?");
        },
    }
}

/// The first stream, from the `i`th on, with real dimensions.
pub open spec fn first_pictured(streams: Seq<Stream>, i: int) -> Option<Stream>
    decreases streams.len() - i,
{
    if i >= streams.len() {
        None
    } else if streams[i].pictured() {
        Some(streams[i])
    } else {
        first_pictured(streams, i + 1)
    }
}

/// What a probe says of the container.
pub open spec fn format_words(format: Option<Format>) -> Seq<Seq<char>> {
    match format {
        None => seq![],
        Some(f) => (match f.format_name {
            Some(name) => seq![name@],
            None => seq![],
        }) + (match f.duration {
            Some(d) => seq![d@ + "s"@],
            None => seq![],
        }),
    }
}

/// Texts, as sequences of characters.
pub open spec fn texts_of(v: Seq<String>) -> Seq<Seq<char>> {
    v.map_values(|s: String| s@)
}

impl Probe {
    /// Dimensions of the first real video stream.
    pub fn video_dims(&self) -> (r: Option<(u32, u32)>)
        ensures
            match first_pictured(self.streams@, 0) {
                Some(s) => match s.height {
                    Some(h) => r == Some((s.width->0, h)),
                    None => r is None,
                },
                None => r is None,
            },
    {
        let mut i: usize = 0;
        while i < self.streams.len()
            invariant
                i <= self.streams@.len(),
                first_pictured(self.streams@, 0) == first_pictured(self.streams@, i as int),
            decreases self.streams.len() - i,
        {
            let s = &self.streams[i];
            if s.is_pictured() {
                return match (s.width, s.height) {
                    (Some(w), Some(h)) => Some((w, h)),
                    _ => None,
                };
            }
            i += 1;
        }
        None
    }

    /// Whether there is video. Cover art streams masquerade as video; real dimensions
    /// are required.
    pub fn has_video(&self) -> (r: bool)
        ensures
            r == exists|i: int|
                0 <= i < self.streams@.len() && (#[trigger] self.streams@[i]).moving(),
    {
        let mut i: usize = 0;
        while i < self.streams.len()
            invariant
                i <= self.streams@.len(),
                forall|j: int| 0 <= j < i ==> !(#[trigger] self.streams@[j]).moving(),
            decreases self.streams.len() - i,
        {
            let s = &self.streams[i];
            if s.is_pictured() && !says(&s.codec_name, "mjpeg") && !says(&s.codec_name, "png") {
                assert(self.streams@[i as int].moving());
                return true;
            }
            i += 1;
        }
        false
    }

    /// Whether there is audio.
    pub fn has_audio(&self) -> (r: bool)
        ensures
            r == exists|i: int|
                0 <= i < self.streams@.len() && reads(
                    (#[trigger] self.streams@[i]).codec_type,
                    "audio"@,
                ),
    {
        let mut i: usize = 0;
        while i < self.streams.len()
            invariant
                i <= self.streams@.len(),
                forall|j: int|
                    0 <= j < i ==> !reads((#[trigger] self.streams@[j]).codec_type, "audio"@),
            decreases self.streams.len() - i,
        {
            if says(&self.streams[i].codec_type, "audio") {
                assert(reads(self.streams@[i as int].codec_type, "audio"@));
                return true;
            }
            i += 1;
        }
        false
    }

    /// The container's name and duration and the streams, in one line.
    pub fn summary(&self) -> (r: String)
        ensures
            r@ == joined(
                format_words(self.format) + self.streams@.map_values(|s: Stream| s.words()),
                ", "@,
            ),
    {
        let mut parts: Vec<String> = Vec::new();
        assert(texts_of(parts@) =~= Seq::<Seq<char>>::empty());
        if let Some(f) = &self.format {
            if let Some(name) = &f.format_name {
                parts.push(String::from_str(name.as_str()));
                assert(texts_of(parts@) =~= seq![name@]);
            }
            let ghost named = texts_of(parts@);
            if let Some(d) = &f.duration {
                let mut s = String::from_str(d.as_str());
                s.append("s");
                parts.push(s);
                assert(texts_of(parts@) =~= named + seq![d@ + "s"@]);
            }
        }
        assert(texts_of(parts@) =~= format_words(self.format));
        let ghost words = self.streams@.map_values(|s: Stream| s.words());
        let mut i: usize = 0;
        while i < self.streams.len()
            invariant
                i <= self.streams@.len(),
                words == self.streams@.map_values(|s: Stream| s.words()),
                texts_of(parts@) == format_words(self.format) + words.take(i as int),
            decreases self.streams.len() - i,
        {
            let ghost before = texts_of(parts@);
            let s = self.streams[i].describe();
            parts.push(s);
            assert(texts_of(parts@) =~= before.push(words[i as int]));
            assert(words.take(i + 1) =~= words.take(i as int).push(words[i as int]));
            assert(before.push(words[i as int]) =~= format_words(self.format) + words.take(i + 1));
            i += 1;
        }
        assert(words.take(i as int) =~= words);
        join(&parts, ", ")
    }
}

/// What a probe comes to, if ffprobe made anything of the file: nothing where it lists
/// no streams.
pub fn probe(parsed: Option<Probe>) -> (r: Option<Probe>)
    ensures
        r == match parsed {
            Some(p) => if p.streams@.len() == 0 {
                None
            } else {
                Some(p)
            },
            None => None,
        },
{
    match parsed {
        Some(p) => if p.streams.len() == 0 {
            None
        } else {
            Some(p)
        },
        None => None,
    }
}

/// A packet, as ffprobe lists it.
#[derive(Debug)]
pub struct Packet {
    pub pts_time: Option<String>,
    pub dts_time: Option<String>,
    pub flags: Option<String>,
}

impl Packet {
    /// When the packet is shown, if it is a keyframe and says when: its presentation
    /// time, or else its decoding time.
    pub open spec fn keyframe_time(&self) -> Option<Seq<char>> {
        match self.flags {
            None => None,
            Some(f) => if !f@.contains('K') {
                None
            } else {
                match self.pts_time {
                    Some(t) => Some(t@),
                    None => match self.dts_time {
                        Some(t) => Some(t@),
                        None => None,
                    },
                }
            },
        }
    }
}

/// The times of the keyframes among the first packets.
pub open spec fn times_of(packets: Seq<Packet>) -> Seq<Seq<char>>
    decreases packets.len(),
{
    if packets.len() == 0 {
        seq![]
    } else {
        match packets.last().keyframe_time() {
            Some(t) => times_of(packets.drop_last()).push(t),
            None => times_of(packets.drop_last()),
        }
    }
}

/// Presentation timestamps of every video keyframe, in order, as ffprobe writes them.
pub fn keyframes(packets: &[Packet]) -> (r: Vec<String>)
    ensures
        texts_of(r@) == times_of(packets@),
{
    let mut out: Vec<String> = Vec::new();
    let mut i: usize = 0;
    assert(packets@.take(0) =~= Seq::<Packet>::empty());
    assert(texts_of(out@) =~= Seq::<Seq<char>>::empty());
    while i < packets.len()
        invariant
            i <= packets@.len(),
            texts_of(out@) == times_of(packets@.take(i as int)),
        decreases packets.len() - i,
    {
        let p = &packets[i];
        let ghost before = texts_of(out@);
        let keyed = match &p.flags {
            Some(f) => has_char(f.as_str(), 'K'),
            None => false,
        };
        if keyed {
            let time: Option<&String> = match &p.pts_time {
                Some(t) => Some(t),
                None => match &p.dts_time {
                    Some(t) => Some(t),
                    None => None,
                },
            };
            if let Some(t) = time {
                out.push(String::from_str(t.as_str()));
                assert(texts_of(out@) =~= before.push(t@));
            }
        }
        assert(packets@.take(i + 1).drop_last() =~= packets@.take(i as int));
        i += 1;
    }
    assert(packets@.take(i as int) =~= packets@);
    out
}

// ---------------------------------------------------------------------------
// Decoder output
// ---------------------------------------------------------------------------

/// How many error lines a decoder printed.
pub fn error_lines(stderr: &[u8]) -> (r: usize)
    ensures
        r == lines_with_text(utf8_lossy(stderr@), utf8_lossy(stderr@).len() as int),
{
    count_lines(lossy_text(stderr).as_str())
}

/// How many errors a full decode reported, by what it printed and whether it
/// succeeded: a silent failure counts as one.
pub fn decode_errors(stderr: &[u8], success: bool) -> (r: usize)
    ensures
        ({
            let lines = lines_with_text(utf8_lossy(stderr@), utf8_lossy(stderr@).len() as int);
            r == if !success && lines == 0 {
                1
            } else {
                lines
            }
        }),
{
    let lines: usize = error_lines(stderr);
    if !success && lines == 0 {
        1
    } else {
        lines
    }
}

/// What a decode to raw yuv420p gave: the frames, and the number of decoder error lines.
/// Without dimensions the stream was not even probeable: maximal failure.
pub fn decode_sample(dims: Option<(u32, u32)>, stdout: &[u8], stderr: &[u8]) -> (r: (
    Vec<Frame>,
    usize,
))
    requires
        dims matches Some((w, h)) ==> frame_size(w as int, h as int) > 0,
    ensures
        match dims {
            None => r.0@.len() == 0 && r.1 == usize::MAX,
            Some((w, h)) => pictures_of(r.0@) == pictures_from(stdout@, w as int, h as int, 0) && r.1
                == lines_with_text(utf8_lossy(stderr@), utf8_lossy(stderr@).len() as int),
        },
        forall|i: int| 0 <= i < r.0@.len() ==> (#[trigger] r.0@[i]).whole(),
{
    match dims {
        None => (Vec::new(), usize::MAX),
        Some((w, h)) => (split_frames(stdout, w as usize, h as usize), error_lines(stderr)),
    }
}

/// The bytes of a 224x224 rgb24 frame: food for the neural critic.
pub const RGB224: usize = 150528;

/// The first 224x224 rgb24 frame of a raw decode, if it is all there.
pub fn decode_rgb224(stdout: &[u8]) -> (r: Option<Vec<u8>>)
    ensures
        match r {
            Some(v) => stdout@.len() >= RGB224 && v@ == stdout@.take(RGB224 as int),
            None => stdout@.len() < RGB224,
        },
{
    if stdout.len() < RGB224 {
        return None;
    }
    let mut v: Vec<u8> = Vec::new();
    crate::bytes::push_all(&mut v, &stdout[0..RGB224]);
    assert(v@ =~= stdout@.take(RGB224 as int));
    Some(v)
}

// ---------------------------------------------------------------------------
// ffmpeg operations
// ---------------------------------------------------------------------------

/// Arguments, as sequences of characters.
pub open spec fn args_of(v: Seq<&'static str>) -> Seq<Seq<char>> {
    v.map_values(|s: &'static str| s@)
}

/// The source of a short synthetic clip.
pub open spec fn test_source(w: nat, h: nat, fps: nat) -> Seq<char> {
    "testsrc2=size="@ + decimal(w) + "x"@ + decimal(h) + ":rate="@ + decimal(fps)
}

/// Encode a short synthetic clip, the blank check an organ donor signs: what stands
/// before the output. Only the SPS geometry matters (the PPS gets synthesized from
/// scratch and grafted in later), so one encode per resolution suffices. ref=8 oversizes
/// max_num_ref_frames as DPB headroom for whatever the casualty references;
/// crf 12 keeps samples fat so the transplant walker's size ceiling clears
/// whatever the casualty contains.
pub fn synth_donor(w: u32, h: u32, fps: u32) -> (r: Vec<String>)
    ensures
        texts_of(r@) == seq!["-v"@, "error"@, "-y"@, "-f"@, "lavfi"@, "-i"@] + seq![
            test_source(w as nat, h as nat, fps as nat),
        ] + seq![
            "-frames:v"@,
            "8"@,
            "-c:v"@,
            "libx264"@,
            "-preset"@,
            "fast"@,
            "-crf"@,
            "12"@,
            "-x264-params"@,
            "ref=8:keyint=16"@,
            "-an"@,
        ],
{
    let mut r: Vec<String> = Vec::new();
    assert(texts_of(r@) =~= Seq::<Seq<char>>::empty());
    push_args(&mut r, &["-v", "error", "-y", "-f", "lavfi", "-i"]);
    let ghost opening = seq!["-v"@, "error"@, "-y"@, "-f"@, "lavfi"@, "-i"@];
    assert(texts_of(r@) =~= opening);
    let mut s = String::from_str("testsrc2=size=");
    push_decimal(&mut s, w as u64);
    s.append("x");
    push_decimal(&mut s, h as u64);
    s.append(":rate=");
    push_decimal(&mut s, fps as u64);
    let ghost source = s@;
    r.push(s);
    assert(texts_of(r@) =~= opening + seq![source]);
    push_args(
        &mut r,
        &[
            "-frames:v",
            "8",
            "-c:v",
            "libx264",
            "-preset",
            "fast",
            "-crf",
            "12",
            "-x264-params",
            "ref=8:keyint=16",
            "-an",
        ],
    );
    assert(texts_of(r@) =~= opening + seq![source] + seq![
        "-frames:v"@,
        "8"@,
        "-c:v"@,
        "libx264"@,
        "-preset"@,
        "fast"@,
        "-crf"@,
        "12"@,
        "-x264-params"@,
        "ref=8:keyint=16"@,
        "-an"@,
    ]);
    r
}

fn push_args(out: &mut Vec<String>, args: &[&'static str])
    ensures
        texts_of(final(out)@) == texts_of(old(out)@) + args_of(args@),
{
    let ghost start = texts_of(out@);
    let mut i: usize = 0;
    assert(start + args_of(args@).take(0) =~= start);
    while i < args.len()
        invariant
            i <= args@.len(),
            texts_of(out@) == start + args_of(args@).take(i as int),
        decreases args.len() - i,
    {
        let ghost before = texts_of(out@);
        out.push(String::from_str(args[i]));
        assert(texts_of(out@) =~= before.push(args@[i as int]@));
        assert(before.push(args@[i as int]@) =~= start + args_of(args@).take(i + 1));
        i += 1;
    }
    assert(args_of(args@).take(i as int) =~= args_of(args@));
}

/// Mux a recovered ADTS audio track onto a video-only mp4, in two steps: decode it to
/// PCM, then re-encode that and mux. Salvaged ADTS packs several raw blocks under one
/// sync header: fed straight to the AAC encoder, only the first block of each packet
/// would come out. `-shortest` trims the small tail mismatch from skipped gaps.
pub fn mux_audio() -> (r: (Vec<&'static str>, Vec<&'static str>))
    ensures
        args_of(r.0@) == seq!["-c:a"@, "pcm_s16le"@],
        args_of(r.1@) == seq![
            "-map"@,
            "0:v:0"@,
            "-map"@,
            "1:a:0"@,
            "-c:v"@,
            "copy"@,
            "-c:a"@,
            "aac"@,
            "-b:a"@,
            "192k"@,
            "-shortest"@,
            "-movflags"@,
            "+faststart"@,
        ],
{
    let decode = vec!["-c:a", "pcm_s16le"];
    let mux = vec![
        "-map",
        "0:v:0",
        "-map",
        "1:a:0",
        "-c:v",
        "copy",
        "-c:a",
        "aac",
        "-b:a",
        "192k",
        "-shortest",
        "-movflags",
        "+faststart",
    ];
    assert(args_of(decode@) =~= seq!["-c:a"@, "pcm_s16le"@]);
    assert(args_of(mux@) =~= seq![
        "-map"@,
        "0:v:0"@,
        "-map"@,
        "1:a:0"@,
        "-c:v"@,
        "copy"@,
        "-c:a"@,
        "aac"@,
        "-b:a"@,
        "192k"@,
        "-shortest"@,
        "-movflags"@,
        "+faststart"@,
    ]);
    (decode, mux)
}

/// What stands before the input when a file is written.
pub fn overwrite_args() -> (r: Vec<&'static str>)
    ensures
        args_of(r@) == seq!["-v"@, "error"@, "-y"@],
{
    let r = vec!["-v", "error", "-y"];
    assert(args_of(r@) =~= seq!["-v"@, "error"@, "-y"@]);
    r
}

/// Losslessly clip to the end: what stands between the input and the output.
pub fn clip_from_keyframe() -> (r: Vec<&'static str>)
    ensures
        args_of(r@) == seq![
            "-map"@,
            "0"@,
            "-c"@,
            "copy"@,
            "-avoid_negative_ts"@,
            "make_zero"@,
            "-movflags"@,
            "+faststart"@,
        ],
{
    let r = vec![
        "-map",
        "0",
        "-c",
        "copy",
        "-avoid_negative_ts",
        "make_zero",
        "-movflags",
        "+faststart",
    ];
    assert(args_of(r@) =~= seq![
        "-map"@,
        "0"@,
        "-c"@,
        "copy"@,
        "-avoid_negative_ts"@,
        "make_zero"@,
        "-movflags"@,
        "+faststart"@,
    ]);
    r
}

/// Remux without re-encoding (used to normalize a reconstructed file).
pub fn remux() -> (r: Vec<&'static str>)
    ensures
        args_of(r@) == seq!["-map"@, "0"@, "-c"@, "copy"@, "-movflags"@, "+faststart"@],
{
    let r = vec!["-map", "0", "-c", "copy", "-movflags", "+faststart"];
    assert(args_of(r@) =~= seq!["-map"@, "0"@, "-c"@, "copy"@, "-movflags"@, "+faststart"@]);
    r
}

/// Stream-copy every track into a Matroska/WebM container (no transcode).
pub fn remux_copy() -> (r: Vec<&'static str>)
    ensures
        args_of(r@) == seq!["-map"@, "0"@, "-c"@, "copy"@],
{
    let r = vec!["-map", "0", "-c", "copy"];
    assert(args_of(r@) =~= seq!["-map"@, "0"@, "-c"@, "copy"@]);
    r
}

/// The Correct Format. Video: H.264/AAC MP4. Audio: MP3.
/// This is not configurable. That is the joke, and also the truth.
pub fn to_correct_format(video: bool) -> (r: Vec<&'static str>)
    ensures
        video ==> args_of(r@) == seq![
            "-c:v"@,
            "libx264"@,
            "-preset"@,
            "medium"@,
            "-crf"@,
            "20"@,
            "-pix_fmt"@,
            "yuv420p"@,
            "-c:a"@,
            "aac"@,
            "-b:a"@,
            "192k"@,
            "-movflags"@,
            "+faststart"@,
        ],
        !video ==> args_of(r@) == seq!["-vn"@, "-c:a"@, "libmp3lame"@, "-q:a"@, "2"@],
{
    if video {
        let r = vec![
            "-c:v",
            "libx264",
            "-preset",
            "medium",
            "-crf",
            "20",
            "-pix_fmt",
            "yuv420p",
            "-c:a",
            "aac",
            "-b:a",
            "192k",
            "-movflags",
            "+faststart",
        ];
        assert(args_of(r@) =~= seq![
            "-c:v"@,
            "libx264"@,
            "-preset"@,
            "medium"@,
            "-crf"@,
            "20"@,
            "-pix_fmt"@,
            "yuv420p"@,
            "-c:a"@,
            "aac"@,
            "-b:a"@,
            "192k"@,
            "-movflags"@,
            "+faststart"@,
        ]);
        r
    } else {
        let r = vec!["-vn", "-c:a", "libmp3lame", "-q:a", "2"];
        assert(args_of(r@) =~= seq!["-vn"@, "-c:a"@, "libmp3lame"@, "-q:a"@, "2"@]);
        r
    }
}

// ---------------------------------------------------------------------------
// Conversion
// ---------------------------------------------------------------------------

/// What a request to convert comes to.
#[derive(Debug, Clone, Copy, PartialEq, Eq, Structural)]
pub enum Conversion {
    /// No consent to The Correct Format.
    Refused,
    /// ffprobe can't make sense of the file at all.
    Unprobeable,
    /// No audio or video streams: nothing to convert.
    Nothing,
    /// Video becomes mp4, audio alone becomes mp3.
    To { video: bool },
}

/// Decides what to do with a file that is to be converted.
pub fn plan_conversion(consent: bool, probe: Option<&Probe>) -> (r: Conversion)
    ensures
        r == match probe {
            _ if !consent => Conversion::Refused,
            None => Conversion::Unprobeable,
            Some(p) => {
                let video = exists|i: int|
                    0 <= i < p.streams@.len() && (#[trigger] p.streams@[i]).moving();
                let audio = exists|i: int|
                    0 <= i < p.streams@.len() && reads(
                        (#[trigger] p.streams@[i]).codec_type,
                        "audio"@,
                    );
                if !video && !audio {
                    Conversion::Nothing
                } else {
                    Conversion::To { video }
                }
            },
        },
{
    if !consent {
        return Conversion::Refused;
    }
    match probe {
        None => Conversion::Unprobeable,
        Some(p) => {
            let video = p.has_video();
            if !video && !p.has_audio() {
                Conversion::Nothing
            } else {
                Conversion::To { video }
            }
        },
    }
}

} // verus!
