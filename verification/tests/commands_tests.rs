use mp4_audio_extractor::commands::{
    conversion_args, duration_probe_args, extraction_args, pcm_decode_args,
    recognition_resample_args, recognizer_args, stream_info_args, ANALYSIS_SAMPLE_RATE,
};
use mp4_audio_extractor::paths::AudioFormat;

#[test]
fn extraction_arguments() {
    assert_eq!(
        extraction_args("in.mp4", "in_audio.wav"),
        vec!["-i", "in.mp4", "-vn", "-acodec", "pcm_s16le", "-y", "in_audio.wav"]
    );
}

#[test]
fn conversion_arguments_per_format() {
    assert_eq!(
        conversion_args("a.wav", "a.mp3", AudioFormat::Mp3),
        vec!["-i", "a.wav", "-y", "-acodec", "libmp3lame", "-q:a", "2", "a.mp3"]
    );
    assert_eq!(
        conversion_args("a.mp3", "a.flac", AudioFormat::Flac),
        vec!["-i", "a.mp3", "-y", "-acodec", "flac", "a.flac"]
    );
    assert_eq!(
        conversion_args("a.mp3", "a.wav", AudioFormat::Wav),
        vec!["-i", "a.mp3", "-y", "-acodec", "pcm_s16le", "a.wav"]
    );
}

#[test]
fn prober_arguments() {
    assert_eq!(
        duration_probe_args("x.wav"),
        vec![
            "-v",
            "error",
            "-select_streams",
            "a:0",
            "-show_entries",
            "format=duration:stream=sample_rate,channels",
            "-of",
            "default=noprint_wrappers=1",
            "x.wav"
        ]
    );
    assert_eq!(stream_info_args("x.wav")[5], "stream=codec_name,codec_long_name,sample_rate,channels,bit_rate");
    assert_eq!(stream_info_args("x.wav").len(), 9);
}

#[test]
fn pcm_decoding_arguments() {
    assert_eq!(ANALYSIS_SAMPLE_RATE, 16000);
    assert_eq!(
        pcm_decode_args("x.flac"),
        vec![
            "-i", "x.flac", "-f", "f32le", "-acodec", "pcm_f32le", "-ar", "16000", "-ac", "1", "-y",
            "pipe:1"
        ]
    );
    assert_eq!(
        recognition_resample_args("x.flac", "x_whisper_temp.wav"),
        vec!["-i", "x.flac", "-ar", "16000", "-ac", "1", "-y", "x_whisper_temp.wav"]
    );
}

#[test]
fn recognizer_arguments_with_prompt() {
    let args = recognizer_args("m.bin", "t.wav", Some("  你好，世界 \n"));
    assert_eq!(
        args,
        vec![
            "-m", "m.bin", "-f", "t.wav", "-l", "zh", "--output-json", "--word-thold", "0.01",
            "--prompt", "你好，世界"
        ]
    );
}

#[test]
fn recognizer_arguments_without_prompt() {
    let base = vec!["-m", "m.bin", "-f", "t.wav", "-l", "zh", "--output-json", "--word-thold", "0.01"];
    assert_eq!(recognizer_args("m.bin", "t.wav", None), base);
    assert_eq!(recognizer_args("m.bin", "t.wav", Some(" \u{3000}\t")), base);
}
