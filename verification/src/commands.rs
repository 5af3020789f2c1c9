//! Argument lists of the external programs the tool runs: the encoder
//! (`ffmpeg`), the prober (`ffprobe`) and the speech recogniser.
use vstd::prelude::*;
use vstd::string::*;
use crate::paths::AudioFormat;
use crate::text::{
    trim, trim_str, trim_end, is_unicode_whitespace, lemma_trim_start_skip,
    lemma_trim_end_take,
};

verus! {

/// The texts of a list of arguments.
pub open spec fn texts(args: Seq<String>) -> Seq<Seq<char>> {
    args.map_values(|a: String| a@)
}

/// Sample rate, in Hz, of the PCM that the analysis decodes to.
pub const ANALYSIS_SAMPLE_RATE: u32 = 16000;

fn push_arg(args: &mut Vec<String>, a: &str)
    ensures
        texts(final(args)@) == texts(old(args)@).push(a@),
{
    args.push(String::from_str(a));
    assert(texts(args@) =~= texts(old(args)@).push(a@));
}

/// Encoder arguments that copy the audio of a video into 16-bit PCM WAV:
/// `-i <input> -vn -acodec pcm_s16le -y <output>`.
pub fn extraction_args(input: &str, output: &str) -> (r: Vec<String>)
    ensures
        texts(r@) == seq!["-i"@, input@, "-vn"@, "-acodec"@, "pcm_s16le"@, "-y"@, output@],
{
    let mut r: Vec<String> = Vec::new();
    push_arg(&mut r, "-i");
    push_arg(&mut r, input);
    push_arg(&mut r, "-vn");
    push_arg(&mut r, "-acodec");
    push_arg(&mut r, "pcm_s16le");
    push_arg(&mut r, "-y");
    push_arg(&mut r, output);
    assert(texts(r@) =~= seq!["-i"@, input@, "-vn"@, "-acodec"@, "pcm_s16le"@, "-y"@, output@]);
    r
}

/// The audio codec an output format is encoded with.
pub open spec fn codec_of(format: AudioFormat) -> Seq<char> {
    match format {
        AudioFormat::Wav => "pcm_s16le"@,
        AudioFormat::Flac => "flac"@,
        AudioFormat::Mp3 => "libmp3lame"@,
    }
}

/// Encoder settings beyond the codec: MP3 is encoded at VBR quality 2.
pub open spec fn extra_args_of(format: AudioFormat) -> Seq<Seq<char>> {
    match format {
        AudioFormat::Mp3 => seq!["-q:a"@, "2"@],
        _ => Seq::empty(),
    }
}

/// Encoder arguments that convert an audio file:
/// `-i <input> -y -acodec <codec> [extra settings] <output>`.
pub fn conversion_args(input: &str, output: &str, format: AudioFormat) -> (r: Vec<String>)
    ensures
        texts(r@) == seq!["-i"@, input@, "-y"@, "-acodec"@, codec_of(format)] + extra_args_of(
            format,
        ) + seq![output@],
{
    let mut r: Vec<String> = Vec::new();
    push_arg(&mut r, "-i");
    push_arg(&mut r, input);
    push_arg(&mut r, "-y");
    push_arg(&mut r, "-acodec");
    match format {
        AudioFormat::Wav => push_arg(&mut r, "pcm_s16le"),
        AudioFormat::Flac => push_arg(&mut r, "flac"),
        AudioFormat::Mp3 => {
            push_arg(&mut r, "libmp3lame");
            push_arg(&mut r, "-q:a");
            push_arg(&mut r, "2");
        },
    }
    push_arg(&mut r, output);
    assert(texts(r@) =~= seq!["-i"@, input@, "-y"@, "-acodec"@, codec_of(format)]
        + extra_args_of(format) + seq![output@]);
    r
}

/// Prober arguments that report the duration of the first audio stream's
/// container and the stream's sample rate and channels as `key=value`
/// lines.
pub fn duration_probe_args(input: &str) -> (r: Vec<String>)
    ensures
        texts(r@) == seq![
            "-v"@,
            "error"@,
            "-select_streams"@,
            "a:0"@,
            "-show_entries"@,
            "format=duration:stream=sample_rate,channels"@,
            "-of"@,
            "default=noprint_wrappers=1"@,
            input@,
        ],
{
    let mut r: Vec<String> = Vec::new();
    push_arg(&mut r, "-v");
    push_arg(&mut r, "error");
    push_arg(&mut r, "-select_streams");
    push_arg(&mut r, "a:0");
    push_arg(&mut r, "-show_entries");
    push_arg(&mut r, "format=duration:stream=sample_rate,channels");
    push_arg(&mut r, "-of");
    push_arg(&mut r, "default=noprint_wrappers=1");
    push_arg(&mut r, input);
    assert(texts(r@) =~= seq![
        "-v"@,
        "error"@,
        "-select_streams"@,
        "a:0"@,
        "-show_entries"@,
        "format=duration:stream=sample_rate,channels"@,
        "-of"@,
        "default=noprint_wrappers=1"@,
        input@,
    ]);
    r
}

/// Prober arguments that report the codec, sample rate, channels and bit
/// rate of the first audio stream as `key=value` lines.
pub fn stream_info_args(input: &str) -> (r: Vec<String>)
    ensures
        texts(r@) == seq![
            "-v"@,
            "error"@,
            "-select_streams"@,
            "a:0"@,
            "-show_entries"@,
            "stream=codec_name,codec_long_name,sample_rate,channels,bit_rate"@,
            "-of"@,
            "default=noprint_wrappers=1"@,
            input@,
        ],
{
    let mut r: Vec<String> = Vec::new();
    push_arg(&mut r, "-v");
    push_arg(&mut r, "error");
    push_arg(&mut r, "-select_streams");
    push_arg(&mut r, "a:0");
    push_arg(&mut r, "-show_entries");
    push_arg(&mut r, "stream=codec_name,codec_long_name,sample_rate,channels,bit_rate");
    push_arg(&mut r, "-of");
    push_arg(&mut r, "default=noprint_wrappers=1");
    push_arg(&mut r, input);
    assert(texts(r@) =~= seq![
        "-v"@,
        "error"@,
        "-select_streams"@,
        "a:0"@,
        "-show_entries"@,
        "stream=codec_name,codec_long_name,sample_rate,channels,bit_rate"@,
        "-of"@,
        "default=noprint_wrappers=1"@,
        input@,
    ]);
    r
}

/// Encoder arguments that decode any audio to mono 32-bit float PCM at
/// 16 kHz on standard output:
/// `-i <input> -f f32le -acodec pcm_f32le -ar 16000 -ac 1 -y pipe:1`.
pub fn pcm_decode_args(input: &str) -> (r: Vec<String>)
    ensures
        texts(r@) == seq![
            "-i"@,
            input@,
            "-f"@,
            "f32le"@,
            "-acodec"@,
            "pcm_f32le"@,
            "-ar"@,
            "16000"@,
            "-ac"@,
            "1"@,
            "-y"@,
            "pipe:1"@,
        ],
{
    let mut r: Vec<String> = Vec::new();
    push_arg(&mut r, "-i");
    push_arg(&mut r, input);
    push_arg(&mut r, "-f");
    push_arg(&mut r, "f32le");
    push_arg(&mut r, "-acodec");
    push_arg(&mut r, "pcm_f32le");
    push_arg(&mut r, "-ar");
    push_arg(&mut r, "16000");
    push_arg(&mut r, "-ac");
    push_arg(&mut r, "1");
    push_arg(&mut r, "-y");
    push_arg(&mut r, "pipe:1");
    assert(texts(r@) =~= seq![
        "-i"@,
        input@,
        "-f"@,
        "f32le"@,
        "-acodec"@,
        "pcm_f32le"@,
        "-ar"@,
        "16000"@,
        "-ac"@,
        "1"@,
        "-y"@,
        "pipe:1"@,
    ]);
    r
}

/// Encoder arguments that make the recogniser's mono 16 kHz WAV copy:
/// `-i <input> -ar 16000 -ac 1 -y <output>`.
pub fn recognition_resample_args(input: &str, output: &str) -> (r: Vec<String>)
    ensures
        texts(r@) == seq!["-i"@, input@, "-ar"@, "16000"@, "-ac"@, "1"@, "-y"@, output@],
{
    let mut r: Vec<String> = Vec::new();
    push_arg(&mut r, "-i");
    push_arg(&mut r, input);
    push_arg(&mut r, "-ar");
    push_arg(&mut r, "16000");
    push_arg(&mut r, "-ac");
    push_arg(&mut r, "1");
    push_arg(&mut r, "-y");
    push_arg(&mut r, output);
    assert(texts(r@) =~= seq!["-i"@, input@, "-ar"@, "16000"@, "-ac"@, "1"@, "-y"@, output@]);
    r
}

/// The prompt the recogniser receives: the reference text trimmed, when
/// there is one and it is not blank.
pub open spec fn prompt_of(reference: Option<Seq<char>>) -> Option<Seq<char>> {
    match reference {
        Some(t) => if trim(t).len() > 0 {
            Some(trim(t))
        } else {
            None
        },
        None => None,
    }
}

/// Law: the prompt is the whole reference text with only the whitespace
/// at its two ends removed.  When the first character that is not
/// whitespace stands at `a` and the last at `b - 1`, the prompt is the
/// text from `a` to `b`, every line of it and the whitespace inside it
/// included.
pub proof fn lemma_prompt_is_whole_text(t: Seq<char>, a: int, b: int)
    requires
        0 <= a < b <= t.len(),
        forall|k: int| 0 <= k < a ==> is_unicode_whitespace(#[trigger] t[k]),
        forall|k: int| b <= k < t.len() ==> is_unicode_whitespace(#[trigger] t[k]),
        !is_unicode_whitespace(t[a]),
        !is_unicode_whitespace(t[b - 1]),
    ensures
        prompt_of(Some(t)) == Some(t.subrange(a, b)),
{
    lemma_trim_start_skip(t, a);
    let s = t.subrange(a, t.len() as int);
    assert forall|k: int| b - a <= k < s.len() implies is_unicode_whitespace(#[trigger] s[k]) by {
        assert(s[k] == t[a + k]);
    }
    assert(s[b - a - 1] == t[b - 1]);
    lemma_trim_end_take(s, b - a);
    assert(s.subrange(0, b - a) =~= t.subrange(a, b));
}

/// Law: a reference text made of whitespace alone gives no prompt.
pub proof fn lemma_blank_reference_gives_no_prompt(t: Seq<char>)
    requires
        forall|k: int| 0 <= k < t.len() ==> is_unicode_whitespace(#[trigger] t[k]),
    ensures
        prompt_of(Some(t)) is None,
{
    lemma_trim_start_skip(t, t.len() as int);
    assert(t.subrange(t.len() as int, t.len() as int) =~= Seq::<char>::empty());
    assert(trim_end(Seq::<char>::empty()) == Seq::<char>::empty());
}

/// Recogniser arguments: model, input, Chinese, JSON output, word
/// threshold 0.01, and the trimmed reference text as prompt when it is
/// not blank.
pub fn recognizer_args(model: &str, wav: &str, reference: Option<&str>) -> (r: Vec<String>)
    ensures
        texts(r@) == seq![
            "-m"@,
            model@,
            "-f"@,
            wav@,
            "-l"@,
            "zh"@,
            "--output-json"@,
            "--word-thold"@,
            "0.01"@,
        ] + match prompt_of(
            match reference {
                Some(t) => Some(t@),
                None => None,
            },
        ) {
            Some(p) => seq!["--prompt"@, p],
            None => Seq::empty(),
        },
{
    let mut r: Vec<String> = Vec::new();
    push_arg(&mut r, "-m");
    push_arg(&mut r, model);
    push_arg(&mut r, "-f");
    push_arg(&mut r, wav);
    push_arg(&mut r, "-l");
    push_arg(&mut r, "zh");
    push_arg(&mut r, "--output-json");
    push_arg(&mut r, "--word-thold");
    push_arg(&mut r, "0.01");
    let ghost base = texts(r@);
    assert(base =~= seq![
        "-m"@,
        model@,
        "-f"@,
        wav@,
        "-l"@,
        "zh"@,
        "--output-json"@,
        "--word-thold"@,
        "0.01"@,
    ]);
    match reference {
        Some(t) => {
            let p = trim_str(t);
            if p.as_str().unicode_len() > 0 {
                push_arg(&mut r, "--prompt");
                push_arg(&mut r, p.as_str());
                assert(texts(r@) =~= base + seq!["--prompt"@, p@]);
            } else {
                assert(base =~= base + Seq::<Seq<char>>::empty());
            }
        },
        None => {
            assert(base =~= base + Seq::<Seq<char>>::empty());
        },
    }
    r
}

} // verus!
