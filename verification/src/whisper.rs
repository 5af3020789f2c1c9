//! Word timings out of the speech recogniser's JSON report.
//!
//! The recogniser writes a JSON document whose `transcription` array holds
//! segments; each segment's `tokens` array holds tokens with a `text` and
//! `offsets.from` / `offsets.to` in milliseconds.  This module models the
//! parts of a JSON value that the extraction reads and turns the report
//! into a list of timed words.
use vstd::prelude::*;
use crate::text::same_text;

verus! {

/// A JSON value, holding what the word extraction reads of it: a number is
/// kept as its value as an unsigned 64-bit integer, when it is one.
pub enum Json {
    Null,
    Bool(bool),
    Number(Option<u64>),
    Text(String),
    Array(Vec<Json>),
    Object(Vec<(String, Json)>),
}

/// A recognised word with its start and end, in milliseconds.
pub struct TimedWord {
    pub text: String,
    pub start_ms: u64,
    pub end_ms: u64,
}

impl View for TimedWord {
    type V = (Seq<char>, u64, u64);

    open spec fn view(&self) -> (Seq<char>, u64, u64) {
        (self.text@, self.start_ms, self.end_ms)
    }
}

/// The value stored under `key` among `entries`, taking the first entry
/// with that key.
pub open spec fn entries_lookup(entries: Seq<(String, Json)>, key: Seq<char>) -> Option<Json>
    decreases entries.len(),
{
    if entries.len() == 0 {
        None
    } else if entries[0].0@ == key {
        Some(entries[0].1)
    } else {
        entries_lookup(entries.drop_first(), key)
    }
}

/// Member `key` of `j`, when `j` is an object that has one.
pub open spec fn field(j: Json, key: Seq<char>) -> Option<Json> {
    match j {
        Json::Object(entries) => entries_lookup(entries@, key),
        _ => None,
    }
}

/// Member `key` of `j`, when `j` is present.
pub open spec fn field_of(j: Option<Json>, key: Seq<char>) -> Option<Json> {
    match j {
        Some(v) => field(v, key),
        None => None,
    }
}

/// The string that `j` holds, or the empty string.
pub open spec fn text_or_empty(j: Option<Json>) -> Seq<char> {
    match j {
        Some(Json::Text(s)) => s@,
        _ => Seq::empty(),
    }
}

/// The unsigned integer that `j` holds, or zero.
pub open spec fn u64_or_zero(j: Option<Json>) -> u64 {
    match j {
        Some(Json::Number(Some(n))) => n,
        _ => 0,
    }
}

/// The word that one token yields: none for an empty or single-space text
/// or for a token that does not end after it starts.
pub open spec fn token_word(token: Json) -> Option<(Seq<char>, u64, u64)> {
    let text = text_or_empty(field(token, "text"@));
    let offsets = field(token, "offsets"@);
    let from = u64_or_zero(field_of(offsets, "from"@));
    let to = u64_or_zero(field_of(offsets, "to"@));
    if text.len() == 0 || text == seq![' '] {
        None
    } else if to <= from {
        None
    } else {
        Some((text, from, to))
    }
}

/// The words of a token list, in order.
pub open spec fn tokens_words(tokens: Seq<Json>) -> Seq<(Seq<char>, u64, u64)>
    decreases tokens.len(),
{
    if tokens.len() == 0 {
        Seq::empty()
    } else {
        let rest = tokens_words(tokens.drop_last());
        match token_word(tokens.last()) {
            Some(w) => rest.push(w),
            None => rest,
        }
    }
}

/// The words of one segment: those of its `tokens` array, if it has one.
pub open spec fn segment_words(segment: Json) -> Seq<(Seq<char>, u64, u64)> {
    match field(segment, "tokens"@) {
        Some(Json::Array(tokens)) => tokens_words(tokens@),
        _ => Seq::empty(),
    }
}

/// The words of a segment list, segment after segment.
pub open spec fn segments_words(segments: Seq<Json>) -> Seq<(Seq<char>, u64, u64)>
    decreases segments.len(),
{
    if segments.len() == 0 {
        Seq::empty()
    } else {
        segments_words(segments.drop_last()) + segment_words(segments.last())
    }
}

/// The words of a whole report: those of its `transcription` array, if it
/// has one.
pub open spec fn report_words(root: Json) -> Seq<(Seq<char>, u64, u64)> {
    match field(root, "transcription"@) {
        Some(Json::Array(segments)) => segments_words(segments@),
        _ => Seq::empty(),
    }
}

/// A word the extraction may produce: non-empty text other than a single
/// space, ending strictly after it starts.
pub open spec fn is_proper_word(w: (Seq<char>, u64, u64)) -> bool {
    w.0.len() > 0 && w.0 != seq![' '] && w.1 < w.2
}

proof fn lemma_tokens_words_proper(tokens: Seq<Json>)
    ensures
        forall|i: int|
            0 <= i < tokens_words(tokens).len() ==> is_proper_word(#[trigger] tokens_words(tokens)[i]),
    decreases tokens.len(),
{
    if tokens.len() > 0 {
        let rest = tokens.drop_last();
        lemma_tokens_words_proper(rest);
        let a = tokens_words(rest);
        match token_word(tokens.last()) {
            Some(w) => {
                assert(is_proper_word(w));
                assert forall|i: int| 0 <= i < a.push(w).len() implies is_proper_word(
                    #[trigger] a.push(w)[i],
                ) by {
                    if i < a.len() {
                        assert(a.push(w)[i] == a[i]);
                    }
                }
            },
            None => {},
        }
    }
}

proof fn lemma_segments_words_proper(segments: Seq<Json>)
    ensures
        forall|i: int|
            0 <= i < segments_words(segments).len() ==> is_proper_word(
                #[trigger] segments_words(segments)[i],
            ),
    decreases segments.len(),
{
    if segments.len() > 0 {
        let rest = segments.drop_last();
        lemma_segments_words_proper(rest);
        let last = segments.last();
        match field(last, "tokens"@) {
            Some(Json::Array(tokens)) => lemma_tokens_words_proper(tokens@),
            _ => {},
        }
        let a = segments_words(rest);
        let b = segment_words(last);
        assert forall|i: int| 0 <= i < (a + b).len() implies is_proper_word(#[trigger] (a + b)[i]) by {
            if i >= a.len() {
                assert((a + b)[i] == b[i - a.len()]);
            }
        }
    }
}

/// Law: every word taken from a report has text that is neither empty nor
/// a single space, and ends strictly after it starts.
pub proof fn lemma_report_words_are_proper(root: Json)
    ensures
        forall|i: int|
            0 <= i < report_words(root).len() ==> is_proper_word(#[trigger] report_words(root)[i]),
{
    match field(root, "transcription"@) {
        Some(Json::Array(segments)) => lemma_segments_words_proper(segments@),
        _ => {},
    }
}

/// Law: a token yields a word exactly when its text is neither empty nor
/// a single space and it ends after it starts; the word then carries the
/// token's text unchanged (a leading space included), its start and its
/// end.
pub proof fn lemma_token_word_keeps_text(token: Json)
    ensures
        ({
            let text = text_or_empty(field(token, "text"@));
            let offsets = field(token, "offsets"@);
            let from = u64_or_zero(field_of(offsets, "from"@));
            let to = u64_or_zero(field_of(offsets, "to"@));
            &&& (text.len() > 0 && text != seq![' '] && from < to) ==> token_word(token) == Some(
                (text, from, to),
            )
            &&& !(text.len() > 0 && text != seq![' '] && from < to) ==> token_word(token) is None
        }),
{
}

impl Json {
    /// Member `key` of this value, when it is an object that has one.
    pub fn get(&self, key: &str) -> (r: Option<&Json>)
        ensures
            match r {
                Some(v) => field(*self, key@) == Some(*v),
                None => field(*self, key@) is None,
            },
    {
        match self {
            Json::Object(entries) => {
                let mut i: usize = 0;
                assert(entries@.subrange(0, entries@.len() as int) =~= entries@);
                while i < entries.len()
                    invariant
                        i <= entries@.len(),
                        field(*self, key@) == entries_lookup(entries@, key@),
                        entries_lookup(entries@, key@) == entries_lookup(
                            entries@.subrange(i as int, entries@.len() as int),
                            key@,
                        ),
                    decreases entries@.len() - i,
                {
                    let ghost rest = entries@.subrange(i as int, entries@.len() as int);
                    assert(rest.drop_first() =~= entries@.subrange(i + 1, entries@.len() as int));
                    assert(rest[0] == entries@[i as int]);
                    if same_text(entries[i].0.as_str(), key) {
                        return Some(&entries[i].1);
                    }
                    i = i + 1;
                }
                None
            },
            _ => None,
        }
    }

    /// The string this value holds, or the empty string.
    fn text_or_empty(v: Option<&Json>) -> (r: String)
        ensures
            r@ == text_or_empty(
                match v {
                    Some(j) => Some(*j),
                    None => None,
                },
            ),
    {
        match v {
            Some(Json::Text(s)) => s.clone(),
            _ => String::new(),
        }
    }

    /// The unsigned integer this value holds, or zero.
    fn u64_or_zero(v: Option<&Json>) -> (r: u64)
        ensures
            r == u64_or_zero(
                match v {
                    Some(j) => Some(*j),
                    None => None,
                },
            ),
    {
        match v {
            Some(Json::Number(Some(n))) => *n,
            _ => 0,
        }
    }
}

/// Member `key` of an optional value.
fn get_of<'a>(v: Option<&'a Json>, key: &str) -> (r: Option<&'a Json>)
    ensures
        match r {
            Some(x) => field_of(
                match v {
                    Some(j) => Some(*j),
                    None => None,
                },
                key@,
            ) == Some(*x),
            None => field_of(
                match v {
                    Some(j) => Some(*j),
                    None => None,
                },
                key@,
            ) is None,
        },
{
    match v {
        Some(j) => j.get(key),
        None => None,
    }
}

/// The word one token yields, if any.
pub fn word_of_token(token: &Json) -> (r: Option<TimedWord>)
    ensures
        match r {
            Some(w) => token_word(*token) == Some(w@),
            None => token_word(*token) is None,
        },
{
    let text = Json::text_or_empty(token.get("text"));
    let offsets = token.get("offsets");
    let from = Json::u64_or_zero(get_of(offsets, "from"));
    let to = Json::u64_or_zero(get_of(offsets, "to"));
    let n = text.as_str().unicode_len();
    if n == 0 {
        return None;
    }
    if n == 1 && text.as_str().get_char(0) == ' ' {
        assert(text@ =~= seq![' ']);
        return None;
    }
    assert(text@ != seq![' ']) by {
        if n == 1 {
            assert(text@[0] != seq![' '][0]);
        }
    }
    if to <= from {
        return None;
    }
    Some(TimedWord { text, start_ms: from, end_ms: to })
}

/// The words of a token list, in order.
pub fn words_of_tokens(tokens: &Vec<Json>) -> (r: Vec<TimedWord>)
    ensures
        r@.map_values(|w: TimedWord| w@) == tokens_words(tokens@),
{
    let mut r: Vec<TimedWord> = Vec::new();
    let mut i: usize = 0;
    while i < tokens.len()
        invariant
            i <= tokens@.len(),
            r@.map_values(|w: TimedWord| w@) == tokens_words(tokens@.subrange(0, i as int)),
        decreases tokens@.len() - i,
    {
        let ghost before = r@;
        let w = word_of_token(&tokens[i]);
        proof {
            let t = tokens@.subrange(0, i + 1);
            assert(t.drop_last() =~= tokens@.subrange(0, i as int));
            assert(t.last() == tokens@[i as int]);
        }
        match w {
            Some(w) => {
                r.push(w);
                assert(r@.map_values(|w: TimedWord| w@) =~= before.map_values(|w: TimedWord| w@).push(
                    r@[r@.len() - 1]@,
                ));
            },
            None => {},
        }
        i = i + 1;
    }
    assert(tokens@.subrange(0, tokens@.len() as int) =~= tokens@);
    r
}

/// The timed words of a recogniser report: for each segment of its
/// `transcription` array, in order, the words of that segment's `tokens`.
pub fn words_from_report(root: &Json) -> (r: Vec<TimedWord>)
    ensures
        r@.map_values(|w: TimedWord| w@) == report_words(*root),
{
    let mut r: Vec<TimedWord> = Vec::new();
    match root.get("transcription") {
        Some(Json::Array(segments)) => {
            let mut i: usize = 0;
            while i < segments.len()
                invariant
                    i <= segments@.len(),
                    r@.map_values(|w: TimedWord| w@) == segments_words(
                        segments@.subrange(0, i as int),
                    ),
                decreases segments@.len() - i,
            {
                let ghost before = r@;
                proof {
                    let t = segments@.subrange(0, i + 1);
                    assert(t.drop_last() =~= segments@.subrange(0, i as int));
                    assert(t.last() == segments@[i as int]);
                }
                match segments[i].get("tokens") {
                    Some(Json::Array(tokens)) => {
                        let mut ws = words_of_tokens(tokens);
                        let ghost added = ws@;
                        r.append(&mut ws);
                        assert(r@.map_values(|w: TimedWord| w@) =~= before.map_values(
                            |w: TimedWord| w@,
                        ) + added.map_values(|w: TimedWord| w@));
                    },
                    _ => {
                        assert(segment_words(segments@[i as int]) =~= Seq::empty());
                    },
                }
                i = i + 1;
            }
            assert(segments@.subrange(0, segments@.len() as int) =~= segments@);
        },
        _ => {},
    }
    r
}

} // verus!
