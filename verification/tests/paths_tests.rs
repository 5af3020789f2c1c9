use mp4_audio_extractor::paths::{
    analysis_decision, conversion_location, extraction_location, recognizer_model_locations,
    recognizer_program_locations, analysis_format, audio_format, check_analysis_input, conversion_output, extraction_output,
    folder_choice, folder_to_open, plan_conversion, plan_extraction, plan_recognition_temp,
    recognition_temp_output, recognizer_model_candidates, recognizer_program_candidates,
    split_file_name, split_path, AudioFormat, MediaError, PathParts,
};

fn parts(parent: Option<&str>, name: Option<&str>) -> PathParts {
    PathParts {
        parent: parent.map(|s| s.to_string()),
        file_name: name.map(|s| s.to_string()),
    }
}

#[test]
fn file_name_split() {
    assert_eq!(split_file_name("video.MP4"), ("video".to_string(), Some("MP4".to_string())));
    assert_eq!(split_file_name("a.b.c"), ("a.b".to_string(), Some("c".to_string())));
    assert_eq!(split_file_name(".bashrc"), (".bashrc".to_string(), None));
    assert_eq!(split_file_name("noext"), ("noext".to_string(), None));
    assert_eq!(split_file_name("a."), ("a".to_string(), Some("".to_string())));
    assert_eq!(split_file_name("..x"), (".".to_string(), Some("x".to_string())));
}

#[test]
fn file_name_rebuilds_from_stem_and_extension() {
    for name in ["clip.final.mp4", "x", ".hidden", "a.", "视频.MP4"] {
        let (stem, ext) = split_file_name(name);
        match ext {
            Some(e) => assert_eq!(format!("{}.{}", stem, e), name),
            None => assert_eq!(stem, name),
        }
    }
}

#[test]
fn splits_a_path() {
    let p = split_path("/tmp/videos/clip.mp4");
    assert_eq!(p.parent.as_deref(), Some("/tmp/videos"));
    assert_eq!(p.file_name.as_deref(), Some("clip.mp4"));
    let e = split_path("");
    assert!(e.parent.is_none());
    assert!(e.file_name.is_none());
}

#[test]
fn extraction_goes_beside_the_video() {
    assert_eq!(plan_extraction("/tmp/x/Video.MP4").unwrap(), "/tmp/x/Video_audio.wav");
    assert_eq!(plan_extraction("movie.mp4").unwrap(), "movie_audio.wav");
}

#[test]
fn extraction_refuses_other_extensions() {
    match plan_extraction("/tmp/clip.MOV") {
        Err(MediaError::UnsupportedVideo(ext)) => assert_eq!(ext, "mov"),
        other => panic!("unexpected {:?}", other),
    }
    match plan_extraction("/tmp/noext") {
        Err(MediaError::UnsupportedVideo(ext)) => assert_eq!(ext, ""),
        other => panic!("unexpected {:?}", other),
    }
}

#[test]
fn extraction_output_defaults() {
    let loc = extraction_output(&parts(None, Some("a.mp4"))).unwrap();
    assert_eq!(loc.dir, ".");
    assert_eq!(loc.file_name, "a_audio.wav");
    assert!(extraction_output(&parts(Some("/d"), None)).is_err());
}

#[test]
fn conversion_between_formats() {
    assert_eq!(
        plan_conversion("/music/song.WAV", "MP3").unwrap(),
        ("/music/song.mp3".to_string(), AudioFormat::Mp3)
    );
    assert_eq!(
        plan_conversion("song.flac", "wav").unwrap(),
        ("song.wav".to_string(), AudioFormat::Wav)
    );
}

#[test]
fn conversion_refusals_in_order() {
    match plan_conversion("a.ogg", "xyz") {
        Err(MediaError::UnsupportedSource(ext)) => assert_eq!(ext, "ogg"),
        other => panic!("unexpected {:?}", other),
    }
    match plan_conversion("a.wav", "OGG") {
        Err(MediaError::UnsupportedTarget(ext)) => assert_eq!(ext, "ogg"),
        other => panic!("unexpected {:?}", other),
    }
    assert!(matches!(plan_conversion("a.Mp3", "mP3"), Err(MediaError::SameFormat)));
}

#[test]
fn conversion_output_without_name() {
    let t = conversion_output(&parts(Some("/x"), Some(".wav")), "flac");
    assert!(matches!(t, Err(MediaError::UnsupportedSource(_))));
    let t = conversion_output(&parts(Some("/x"), Some("b.wav")), "flac").unwrap();
    assert_eq!(t.location.dir, "/x");
    assert_eq!(t.location.file_name, "b.flac");
    assert_eq!(t.format, AudioFormat::Flac);
}

#[test]
fn analysis_inputs() {
    assert_eq!(check_analysis_input("/a/b.FLAC").unwrap(), AudioFormat::Flac);
    match check_analysis_input("/a/b.mp4") {
        Err(MediaError::UnsupportedAnalysis(ext)) => assert_eq!(ext, "mp4"),
        other => panic!("unexpected {:?}", other),
    }
    assert!(analysis_format(&parts(None, None)).is_err());
}

#[test]
fn formats_by_extension() {
    assert_eq!(audio_format("wav"), Some(AudioFormat::Wav));
    assert_eq!(audio_format("flac"), Some(AudioFormat::Flac));
    assert_eq!(audio_format("mp3"), Some(AudioFormat::Mp3));
    assert_eq!(audio_format("WAV"), None);
    assert_eq!(audio_format(""), None);
}

#[test]
fn recognition_copy_location() {
    assert_eq!(plan_recognition_temp("/d/rec.mp3"), "/d/rec_whisper_temp.wav");
    let loc = recognition_temp_output(&parts(None, None));
    assert_eq!(loc.dir, ".");
    assert_eq!(loc.file_name, "temp_whisper_temp.wav");
}

#[test]
fn folder_for_files_and_folders() {
    assert_eq!(folder_to_open("/a/b/c.txt", false), "/a/b");
    assert_eq!(folder_to_open("/a/b", true), "/a/b");
    assert_eq!(folder_to_open("c.txt", false), "");
    assert_eq!(folder_to_open("/", false), ".");
    assert_eq!(folder_choice("x", false, None), ".");
}

#[test]
fn recognizer_search_order() {
    let p = recognizer_program_candidates("/opt/app/bin/tool");
    assert_eq!(
        p,
        vec![
            "/opt/app/bin/tools/whisper-cli.exe".to_string(),
            "/opt/app/bin/../../../tools/whisper-cli.exe".to_string()
        ]
    );
    let m = recognizer_model_candidates("/opt/app/bin/tool");
    assert_eq!(
        m,
        vec![
            "/opt/app/bin/tools/ggml-small.bin".to_string(),
            "/opt/app/bin/../../../tools/ggml-small.bin".to_string(),
            "/opt/app/bin/tools/ggml-tiny.bin".to_string(),
            "/opt/app/bin/../../../tools/ggml-tiny.bin".to_string(),
        ]
    );
}

#[test]
fn paths_without_a_file_name() {
    match plan_extraction("") {
        Err(MediaError::UnsupportedVideo(ext)) => assert_eq!(ext, ""),
        other => panic!("unexpected {:?}", other),
    }
    match plan_extraction("/videos/..") {
        Err(MediaError::UnsupportedVideo(ext)) => assert_eq!(ext, ""),
        other => panic!("unexpected {:?}", other),
    }
    match check_analysis_input("..") {
        Err(MediaError::UnsupportedAnalysis(ext)) => assert_eq!(ext, ""),
        other => panic!("unexpected {:?}", other),
    }
    assert!(split_path("a/..").file_name.is_none());
    assert!(plan_recognition_temp("").ends_with("_whisper_temp.wav"));
}

#[test]
fn decisions_on_lower_cased_extensions() {
    let p = parts(Some("/v"), Some("Clip.MP4"));
    let loc = extraction_location(&p, "mp4").unwrap();
    assert_eq!(loc.dir, "/v");
    assert_eq!(loc.file_name, "Clip_audio.wav");
    match extraction_location(&p, "MP4") {
        Err(MediaError::UnsupportedVideo(x)) => assert_eq!(x, "MP4"),
        other => panic!("unexpected {:?}", other.is_ok()),
    }
    assert_eq!(analysis_decision("mp3").unwrap(), AudioFormat::Mp3);
    assert!(matches!(analysis_decision("aac"), Err(MediaError::UnsupportedAnalysis(_))));
    let s = parts(Some("/m"), Some("song.WAV"));
    let t = conversion_location(&s, "wav", "flac").unwrap();
    assert_eq!(t.location.file_name, "song.flac");
    assert_eq!(t.format, AudioFormat::Flac);
    assert!(matches!(conversion_location(&s, "wav", "wav"), Err(MediaError::SameFormat)));
    assert!(matches!(conversion_location(&s, "aac", "wav"), Err(MediaError::UnsupportedSource(_))));
    assert!(matches!(conversion_location(&s, "wav", "aac"), Err(MediaError::UnsupportedTarget(_))));
}

#[test]
fn recognizer_relative_locations() {
    assert_eq!(
        recognizer_program_locations(),
        vec!["tools/whisper-cli.exe".to_string(), "../../../tools/whisper-cli.exe".to_string()]
    );
    let m: Vec<(String, String)> = recognizer_model_locations();
    let m: Vec<(&str, &str)> = m.iter().map(|(a, b)| (a.as_str(), b.as_str())).collect();
    assert_eq!(
        m,
        vec![
            ("tools", "ggml-small.bin"),
            ("../../../tools", "ggml-small.bin"),
            ("tools", "ggml-tiny.bin"),
            ("../../../tools", "ggml-tiny.bin"),
        ]
    );
    assert_eq!(
        recognizer_program_candidates(""),
        vec!["./tools/whisper-cli.exe".to_string(), "./../../../tools/whisper-cli.exe".to_string()]
    );
}

#[test]
fn conversion_output_is_not_the_input() {
    let (out, _) = plan_conversion("dir/a.WAV", "mp3").unwrap();
    assert_ne!(out, "dir/a.WAV");
    assert_eq!(out, "dir/a.mp3");
}

#[test]
fn plain_paths_on_every_level() {
    assert_eq!(plan_extraction("/clip.mp4").unwrap(), "/clip_audio.wav");
    assert_eq!(plan_recognition_temp("a/b/c.flac"), "a/b/c_whisper_temp.wav");
    assert_eq!(folder_to_open("/x", false), "/");
    assert_eq!(folder_to_open("", false), ".");
}

#[test]
fn chinese_names_are_planned_like_any_other() {
    assert_eq!(plan_extraction("视频/片段.MP4").unwrap(), "视频/片段_audio.wav");
    match plan_extraction("视频/片段.Mov") {
        Err(MediaError::UnsupportedVideo(e)) => assert_eq!(e, "mov"),
        other => panic!("unexpected {:?}", other),
    }
    let (out, format) = plan_conversion("歌曲.WAV", "mp3").unwrap();
    assert_eq!(out, "歌曲.mp3");
    assert_eq!(format, AudioFormat::Mp3);
    assert!(matches!(check_analysis_input("录音.Flac"), Ok(AudioFormat::Flac)));
    match check_analysis_input("录音.文本") {
        Err(MediaError::UnsupportedAnalysis(e)) => assert_eq!(e, "文本"),
        other => panic!("unexpected {:?}", other),
    }
}
