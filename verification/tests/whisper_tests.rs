use mp4_audio_extractor::whisper::{word_of_token, words_from_report, words_of_tokens, Json};

fn text(s: &str) -> Json {
    Json::Text(s.to_string())
}

fn obj(entries: Vec<(&str, Json)>) -> Json {
    Json::Object(entries.into_iter().map(|(k, v)| (k.to_string(), v)).collect())
}

fn token(t: &str, from: Option<u64>, to: Option<u64>) -> Json {
    obj(vec![
        ("text", text(t)),
        ("offsets", obj(vec![("from", Json::Number(from)), ("to", Json::Number(to))])),
    ])
}

#[test]
fn words_from_a_report() {
    let root = obj(vec![(
        "transcription",
        Json::Array(vec![
            obj(vec![(
                "tokens",
                Json::Array(vec![
                    token("你", Some(120), Some(180)),
                    token(" ", Some(180), Some(200)),
                    token("好", Some(200), Some(260)),
                ]),
            )]),
            obj(vec![("text", text("no tokens here"))]),
            obj(vec![(
                "tokens",
                Json::Array(vec![token("吗", Some(300), Some(300)), token("呢", Some(400), Some(450))]),
            )]),
        ]),
    )]);
    let words = words_from_report(&root);
    let got: Vec<(String, u64, u64)> =
        words.into_iter().map(|w| (w.text, w.start_ms, w.end_ms)).collect();
    assert_eq!(
        got,
        vec![
            ("你".to_string(), 120, 180),
            ("好".to_string(), 200, 260),
            ("呢".to_string(), 400, 450)
        ]
    );
}

#[test]
fn report_without_transcription() {
    assert!(words_from_report(&obj(vec![("result", Json::Null)])).is_empty());
    assert!(words_from_report(&Json::Array(vec![])).is_empty());
    assert!(words_from_report(&obj(vec![("transcription", text("x"))])).is_empty());
}

#[test]
fn token_with_missing_offsets_counts_zero() {
    let t = obj(vec![("text", text("a")), ("offsets", obj(vec![("to", Json::Number(Some(5)))]))]);
    let w = word_of_token(&t).unwrap();
    assert_eq!((w.text.as_str(), w.start_ms, w.end_ms), ("a", 0, 5));
    let t = obj(vec![("text", text("a"))]);
    assert!(word_of_token(&t).is_none());
}

#[test]
fn token_that_is_not_a_string_or_unsigned() {
    let t = obj(vec![
        ("text", Json::Number(Some(3))),
        ("offsets", obj(vec![("from", Json::Number(Some(1))), ("to", Json::Number(Some(2)))])),
    ]);
    assert!(word_of_token(&t).is_none());
    let t = token("b", Some(1), None);
    assert!(word_of_token(&t).is_none());
}

#[test]
fn first_entry_of_a_key_counts() {
    let t = obj(vec![
        ("text", text("x")),
        ("text", text("y")),
        ("offsets", obj(vec![("from", Json::Number(Some(1))), ("to", Json::Number(Some(2)))])),
    ]);
    assert_eq!(word_of_token(&t).unwrap().text, "x");
}

#[test]
fn token_words_keep_order() {
    let ws = words_of_tokens(&vec![token("b", Some(5), Some(9)), token("a", Some(1), Some(3))]);
    assert_eq!(ws.len(), 2);
    assert_eq!(ws[0].text, "b");
    assert_eq!(ws[1].start_ms, 1);
}
