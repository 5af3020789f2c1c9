//! Input checks and output locations.
//!
//! Each operation of the tool looks at the input's file name: its
//! extension decides whether the input is accepted, and its stem names
//! the output, which goes next to the input.  The platform's path rules
//! (what the final component and the parent of a path are, and how a
//! directory and a name are joined) come from `std::path`; the rest is
//! decided here.  For plain paths (see `portable`), which every platform
//! reads alike, the contracts state the whole result; for any path whose
//! file name is clear (such as `C:\Videos\clip.mp4`), they state
//! whether it is accepted and how the output's name ends.
use vstd::prelude::*;
use vstd::string::*;
use crate::text::same_text;
use crate::portable::{
    is_ascii_text, ascii_lowercase, is_plain_path, final_component, parent_of, joinable_dir,
    joinable_name, is_join_of, is_join_twice, is_sep, lemma_plain_path_parts,
    lemma_stem_suffix_joinable, lemma_ascii_subrange, lemma_join_gives_dir,
    lemma_plain_path_rebuild, lemma_join_names_equal, lemma_ascii_lowercase_idempotent,
    tail_name, has_clear_file_name, lemma_tail_name,
};

verus! {

/// Lower-case form of a string, as `str::to_lowercase` gives it.
pub uninterp spec fn lowercased(s: Seq<char>) -> Seq<char>;

/// Calls `str::to_lowercase`.  Claims that the result is `lowercased` of
/// the argument: the Unicode lower-case mapping depends on the characters
/// alone; that the lower-case form of the empty string is empty; and that
/// ASCII text is lowered character by character, `A`–`Z` to `a`–`z`.
#[verifier::external_body]
fn to_lower(s: &str) -> (r: String)
    ensures
        r@ == lowercased(s@),
        s@.len() == 0 ==> r@.len() == 0,
        is_ascii_text(s@) ==> r@ == ascii_lowercase(s@),
{
    s.to_lowercase()
}

/// Calls `std::path::Path::file_name` on the path and turns the final
/// component into a `String`.  Claims what holds on every platform: the
/// empty path has no final component; the final component of a plain
/// path (see `portable`) is what follows its last `/`; and a path with a
/// clear file name (see `portable::has_clear_file_name`) has a final
/// component that ends with that name.  On Windows, where `/` and `\`
/// both separate and a drive `C:` is a prefix of its own, the final
/// component is the name itself; elsewhere, where only `/` separates, it
/// is what follows the last `/`, a `Normal` component (neither `.` nor
/// `..`, since the name is neither) that ends with the name.  Which of the
/// two it is depends on the platform and is not claimed, nor the final
/// component of other paths.
#[verifier::external_body]
fn path_file_name(path: &str) -> (r: Option<String>)
    ensures
        path@.len() == 0 ==> r is None,
        is_plain_path(path@) ==> r.is_some() && r.unwrap()@ == final_component(path@),
        has_clear_file_name(path@) ==> r.is_some() && ends_with(r.unwrap()@, tail_name(path@)),
{
    match std::path::Path::new(path).file_name() {
        Some(name) => Some(name.to_string_lossy().into_owned()),
        None => None,
    }
}

/// Calls `std::path::Path::parent` and turns the parent into a `String`.
/// Claims what holds on every platform: the empty path has no parent, and
/// the parent of a plain path is what precedes its last `/` (the root for
/// `/name`, the empty path for a single name).  For other paths the parent
/// depends on the platform's separators and prefixes and is not claimed.
#[verifier::external_body]
fn path_parent(path: &str) -> (r: Option<String>)
    ensures
        path@.len() == 0 ==> r is None,
        is_plain_path(path@) ==> r.is_some() && r.unwrap()@ == parent_of(path@),
{
    match std::path::Path::new(path).parent() {
        Some(dir) => Some(dir.to_string_lossy().into_owned()),
        None => None,
    }
}

/// `name` is a single plain path component: no separator of any platform,
/// and neither `.` nor `..`.
pub open spec fn is_plain_component(name: Seq<char>) -> bool {
    &&& forall|k: int| 0 <= k < name.len() ==> #[trigger] name[k] != '/' && name[k] != '\\'
    &&& name != seq!['.']
    &&& name != seq!['.', '.']
}

/// `s` ends with `suffix`.
pub open spec fn ends_with(s: Seq<char>, suffix: Seq<char>) -> bool {
    suffix.len() <= s.len() && s.subrange(s.len() - suffix.len(), s.len() as int) == suffix
}

/// Calls `std::path::Path::join` and turns the joined path into a `String`.
/// Claims that whatever plain component ends the joined name also ends the
/// result: `PathBuf::push` appends the name after a separator, or, for a
/// name that the platform reads as absolute or prefixed, replaces the
/// directory with it, or, below a verbatim prefix, pushes the name's
/// components with `.` and `..` removed; in each case the name's final
/// component comes last.  For a directory without drive, network or
/// verbatim prefix and a relative name, `push` appends the name, after the
/// platform's separator unless the directory is empty or ends with `/`.
#[verifier::external_body]
fn path_join(dir: &str, name: &str) -> (r: String)
    ensures
        is_plain_component(name@) ==> ends_with(r@, name@),
        joinable_dir(dir@) && joinable_name(name@) ==> is_join_of(dir@, name@, r@),
        forall|t: Seq<char>|
            is_plain_component(t) && #[trigger] ends_with(name@, t) ==> ends_with(r@, t),
{
    std::path::Path::new(dir).join(name).to_string_lossy().into_owned()
}

proof fn lemma_suffix_is_plain_tail(head: Seq<char>, tail: Seq<char>)
    requires
        tail == "_audio.wav"@ || tail == "_whisper_temp.wav"@,
    ensures
        is_plain_component(tail),
        ends_with(head + tail, tail),
{
    reveal_strlit("_audio.wav");
    reveal_strlit("_whisper_temp.wav");
    assert(tail.len() > 2);
    assert(tail[0] == '_');
    assert(tail != seq!['.']);
    assert(tail != seq!['.', '.']);
    let s = head + tail;
    assert(s.subrange(s.len() - tail.len(), s.len() as int) =~= tail);
}

/// Position of the last `.` of `s`, if any.
pub open spec fn last_dot(s: Seq<char>) -> Option<int>
    decreases s.len(),
{
    if s.len() == 0 {
        None
    } else if s.last() == '.' {
        Some(s.len() - 1)
    } else {
        last_dot(s.drop_last())
    }
}

/// Extension of a file name, as `Path::extension` documents it: the part
/// after the final `.`; none when there is no `.`, or when the only one
/// opens the name.
pub open spec fn extension_of(name: Seq<char>) -> Option<Seq<char>> {
    match last_dot(name) {
        Some(k) => if k > 0 {
            Some(name.subrange(k + 1, name.len() as int))
        } else {
            None
        },
        None => None,
    }
}

/// Stem of a file name, as `Path::file_stem` documents it: the part before
/// the final `.`, or the whole name when it has no extension.
pub open spec fn stem_of(name: Seq<char>) -> Seq<char> {
    match last_dot(name) {
        Some(k) => if k > 0 {
            name.subrange(0, k)
        } else {
            name
        },
        None => name,
    }
}

proof fn lemma_last_dot(s: Seq<char>)
    ensures
        match last_dot(s) {
            Some(k) => 0 <= k < s.len() && s[k] == '.' && forall|j: int|
                k < j < s.len() ==> #[trigger] s[j] != '.',
            None => forall|j: int| 0 <= j < s.len() ==> #[trigger] s[j] != '.',
        },
    decreases s.len(),
{
    if s.len() > 0 && s.last() != '.' {
        lemma_last_dot(s.drop_last());
        assert forall|j: int| 0 <= j < s.len() - 1 implies #[trigger] s[j] == s.drop_last()[j] by {}
    }
}

/// The stem of a non-empty name is a non-empty prefix of it.
pub proof fn lemma_stem_is_prefix(name: Seq<char>)
    requires
        name.len() > 0,
    ensures
        stem_of(name).len() > 0,
        stem_of(name).len() <= name.len(),
        stem_of(name) == name.subrange(0, stem_of(name).len() as int),
{
    lemma_last_dot(name);
    assert(name.subrange(0, name.len() as int) =~= name);
}

/// The extension of an ASCII name is ASCII.
pub proof fn lemma_extension_ascii(name: Seq<char>)
    requires
        is_ascii_text(name),
    ensures
        extension_of(name) matches Some(e) ==> is_ascii_text(e),
{
    lemma_last_dot(name);
    if let Some(k) = last_dot(name) {
        if k > 0 {
            lemma_ascii_subrange(name, k + 1, name.len() as int);
        }
    }
}

/// A name that ends with a name that has an extension has the same
/// extension, and its stem ends with the shorter name's stem.
proof fn lemma_extension_of_suffix(n: Seq<char>, t: Seq<char>)
    requires
        ends_with(n, t),
        extension_of(t) is Some,
    ensures
        extension_of(n) == extension_of(t),
        ends_with(stem_of(n), stem_of(t)),
{
    lemma_last_dot(n);
    lemma_last_dot(t);
    let d = n.len() - t.len();
    let kt = last_dot(t).unwrap();
    assert(t == n.subrange(d, n.len() as int));
    assert(t[kt] == n[d + kt]);
    let kn = last_dot(n).unwrap();
    assert(last_dot(n) is Some);
    if kn > d + kt {
        assert(t[kn - d] == n[kn]);
    }
    if kn < d + kt {
        assert(n[d + kt] != '.');
    }
    assert(kn == d + kt);
    assert(n.subrange(kn + 1, n.len() as int) =~= t.subrange(kt + 1, t.len() as int));
    let sn = n.subrange(0, kn);
    assert(sn.subrange(sn.len() - kt, sn.len() as int) =~= t.subrange(0, kt));
}

/// A name ending with another still does once the same text follows both.
proof fn lemma_ends_with_append(a: Seq<char>, b: Seq<char>, c: Seq<char>)
    requires
        ends_with(a, b),
    ensures
        ends_with(a + c, b + c),
{
    let x = a + c;
    assert(x.subrange(x.len() - (b + c).len(), x.len() as int) =~= b + c) by {
        assert(a.subrange(a.len() - b.len(), a.len() as int) == b);
        assert forall|i: int| 0 <= i < (b + c).len() implies #[trigger] x.subrange(
            x.len() - (b + c).len(),
            x.len() as int,
        )[i] == (b + c)[i] by {
            if i < b.len() {
                assert(x[a.len() - b.len() + i] == a[a.len() - b.len() + i]);
                assert(a.subrange(a.len() - b.len(), a.len() as int)[i] == a[a.len() - b.len() + i]);
            }
        }
    }
}

/// Law: a file name is its stem, followed, when it has an extension, by a
/// `.` and the extension.
pub proof fn lemma_stem_and_extension_rebuild_name(name: Seq<char>)
    ensures
        match extension_of(name) {
            Some(ext) => stem_of(name) + seq!['.'] + ext == name,
            None => stem_of(name) == name,
        },
{
    lemma_last_dot(name);
    if let Some(k) = last_dot(name) {
        if k > 0 {
            assert(name.subrange(0, k) + seq!['.'] + name.subrange(k + 1, name.len() as int)
                =~= name);
        }
    }
}

/// Stem and extension of a file name.
pub fn split_file_name(name: &str) -> (r: (String, Option<String>))
    ensures
        r.0@ == stem_of(name@),
        match r.1 {
            Some(e) => extension_of(name@) == Some(e@),
            None => extension_of(name@) is None,
        },
{
    let n = name.unicode_len();
    let mut i: usize = n;
    assert(name@.subrange(0, n as int) =~= name@);
    while i > 0 && name.get_char(i - 1) != '.'
        invariant
            n == name@.len(),
            i <= n,
            last_dot(name@) == last_dot(name@.subrange(0, i as int)),
        decreases i,
    {
        proof {
            assert(name@.subrange(0, i as int).drop_last() =~= name@.subrange(0, i - 1));
        }
        i = i - 1;
    }
    proof {
        assert(name@.subrange(0, n as int) =~= name@);
    }
    if i <= 1 {
        proof {
            if i == 1 {
                assert(last_dot(name@.subrange(0, 1)) == Some(0int));
            }
        }
        (String::from_str(name), None)
    } else {
        assert(last_dot(name@.subrange(0, i as int)) == Some(i - 1));
        let stem = String::from_str(name.substring_char(0, i - 1));
        let ext = String::from_str(name.substring_char(i, n));
        (stem, Some(ext))
    }
}

/// The parts of a path that the checks read: the parent directory and the
/// final component, each when the platform's path rules give one.
pub struct PathParts {
    pub parent: Option<String>,
    pub file_name: Option<String>,
}

/// Splits a path into its parent and final component.
pub fn split_path(path: &str) -> (r: PathParts)
    ensures
        path@.len() == 0 ==> r.parent is None && r.file_name is None,
        is_plain_path(path@) ==> (r.parent matches Some(q) && q@ == parent_of(path@)),
        is_plain_path(path@) ==> (r.file_name matches Some(n) && n@ == final_component(path@)),
        has_clear_file_name(path@) ==> (r.file_name matches Some(n) && ends_with(
            n@,
            tail_name(path@),
        )),
{
    PathParts { parent: path_parent(path), file_name: path_file_name(path) }
}

/// The extension of the final component, if the path has both.
pub open spec fn path_extension(parts: PathParts) -> Option<Seq<char>> {
    match parts.file_name {
        Some(n) => extension_of(n@),
        None => None,
    }
}

/// The stem of the final component, or `default` without one.
pub open spec fn path_stem_or(parts: PathParts, default: Seq<char>) -> Seq<char> {
    match parts.file_name {
        Some(n) => stem_of(n@),
        None => default,
    }
}

/// For a plain path, the parent is a joinable directory and the stem
/// followed by `_whisper_temp.wav` or `_audio.wav` is a joinable name.
proof fn lemma_plain_join_ready(p: Seq<char>, suffix: Seq<char>)
    requires
        is_plain_path(p),
        suffix == "_whisper_temp.wav"@ || suffix == "_audio.wav"@,
    ensures
        joinable_dir(parent_of(p)),
        joinable_name(plain_stem(p) + suffix),
{
    reveal_strlit("_whisper_temp.wav");
    reveal_strlit("_audio.wav");
    lemma_plain_path_parts(p);
    lemma_stem_suffix_joinable(final_component(p), suffix);
}

/// The directory the output goes to: the parent, or `.` without one.
pub open spec fn output_dir(parts: PathParts) -> Seq<char> {
    match parts.parent {
        Some(p) => p@,
        None => seq!['.'],
    }
}

/// The extension in lower case; an absent extension counts as empty.
pub open spec fn lower_extension(parts: PathParts) -> Seq<char> {
    match path_extension(parts) {
        Some(e) => lowercased(e),
        None => lowercased(Seq::empty()),
    }
}

/// What the lower-casing of the extension is known to give: an ASCII
/// extension in ASCII lower case, an absent one as the empty string.
pub open spec fn extension_lowering_known(parts: PathParts) -> bool {
    match path_extension(parts) {
        Some(e) => is_ascii_text(e) ==> lowercased(e) == ascii_lowercase(e),
        None => lowercased(Seq::empty()) == Seq::<char>::empty(),
    }
}

/// The lower-cased extension of a plain path; empty without one.
pub open spec fn plain_lower_extension(p: Seq<char>) -> Seq<char> {
    match extension_of(final_component(p)) {
        Some(e) => lowercased(e),
        None => Seq::empty(),
    }
}

/// The extension of a plain path in ASCII lower case; empty without one.
pub open spec fn plain_ascii_lower_extension(p: Seq<char>) -> Seq<char> {
    match extension_of(final_component(p)) {
        Some(e) => ascii_lowercase(e),
        None => Seq::empty(),
    }
}

/// What the lower-casing of a plain path's extension is known to give: an
/// ASCII extension in ASCII lower case.
pub open spec fn plain_extension_lowering_known(p: Seq<char>) -> bool {
    match extension_of(final_component(p)) {
        Some(e) => is_ascii_text(e) ==> lowercased(e) == ascii_lowercase(e),
        None => true,
    }
}

/// The stem of a plain path's final component.
pub open spec fn plain_stem(p: Seq<char>) -> Seq<char> {
    stem_of(final_component(p))
}

fn stem_or(parts: &PathParts, default: &str) -> (r: String)
    ensures
        r@ == path_stem_or(*parts, default@),
{
    match &parts.file_name {
        Some(n) => split_file_name(n.as_str()).0,
        None => String::from_str(default),
    }
}

fn lower_ext(parts: &PathParts) -> (r: String)
    ensures
        r@ == lower_extension(*parts),
        path_extension(*parts) is None ==> r@.len() == 0,
        extension_lowering_known(*parts),
{
    proof {
        reveal_strlit("");
    }
    match &parts.file_name {
        Some(n) => {
            let (_, e) = split_file_name(n.as_str());
            assert(path_extension(*parts) == extension_of(n@));
            match e {
                Some(e) => {
                    let r = to_lower(e.as_str());
                    assert(path_extension(*parts) == Some(e@));
                    r
                },
                None => {
                    let r = to_lower("");
                    assert(""@ =~= Seq::<char>::empty());
                    assert(r@ =~= Seq::<char>::empty());
                    r
                },
            }
        },
        None => {
            let r = to_lower("");
            assert(""@ =~= Seq::<char>::empty());
            assert(r@ =~= Seq::<char>::empty());
            r
        },
    }
}

fn dir_of(parts: &PathParts) -> (r: String)
    ensures
        r@ == output_dir(*parts),
{
    match &parts.parent {
        Some(p) => p.clone(),
        None => {
            let d = String::from_str(".");
            proof {
                reveal_strlit(".");
            }
            d
        },
    }
}

/// For a plain path, the parts that `split_path` gives lead to the plain
/// path's lower-cased extension, stem and parent; for an ASCII one the
/// lower case is the ASCII lower case.
proof fn lemma_plain_parts_read(p: Seq<char>, parts: PathParts)
    requires
        is_plain_path(p),
        parts.parent matches Some(q) && q@ == parent_of(p),
        parts.file_name matches Some(n) && n@ == final_component(p),
        extension_lowering_known(parts),
    ensures
        lower_extension(parts) == plain_lower_extension(p),
        output_dir(parts) == parent_of(p),
        path_stem_or(parts, Seq::empty()) == plain_stem(p),
        path_extension(parts) == extension_of(final_component(p)),
        plain_extension_lowering_known(p),
        is_ascii_text(p) ==> plain_lower_extension(p) == plain_ascii_lower_extension(p),
{
    lemma_plain_path_parts(p);
    if is_ascii_text(p) {
        lemma_extension_ascii(final_component(p));
    }
}

/// The extension of a path's clear file name (see
/// `portable::has_clear_file_name`), when it has one: what follows the
/// last `.` of the name after the last `/` or `\`, that `.` not being the
/// name's first character.  Every platform reads this extension alike.
pub open spec fn clear_extension(p: Seq<char>) -> Option<Seq<char>> {
    if has_clear_file_name(p) {
        extension_of(tail_name(p))
    } else {
        None
    }
}

/// For a path with a clear extension, the parts that `split_path` gives
/// lead to that extension, and their stem ends with the clear name's stem.
proof fn lemma_clear_parts_read(p: Seq<char>, parts: PathParts, default: Seq<char>)
    requires
        clear_extension(p) is Some,
        parts.file_name matches Some(n) && ends_with(n@, tail_name(p)),
        extension_lowering_known(parts),
    ensures
        path_extension(parts) == clear_extension(p),
        lower_extension(parts) == lowercased(clear_extension(p).unwrap()),
        is_ascii_text(clear_extension(p).unwrap()) ==> lowercased(clear_extension(p).unwrap())
            == ascii_lowercase(clear_extension(p).unwrap()),
        ends_with(path_stem_or(parts, default), stem_of(tail_name(p))),
{
    let n = parts.file_name.unwrap();
    lemma_extension_of_suffix(n@, tail_name(p));
}

/// A clear name's stem followed by a suffix with no separator, longer
/// than two characters, is a plain component.
proof fn lemma_clear_stem_suffix_plain(p: Seq<char>, suffix: Seq<char>)
    requires
        has_clear_file_name(p),
        forall|i: int| 0 <= i < suffix.len() ==> !is_sep(#[trigger] suffix[i]),
        suffix.len() > 2,
    ensures
        is_plain_component(stem_of(tail_name(p)) + suffix),
{
    let t = tail_name(p);
    lemma_tail_name(p);
    lemma_stem_is_prefix(t);
    let st = stem_of(t);
    let x = st + suffix;
    assert forall|k: int| 0 <= k < x.len() implies #[trigger] x[k] != '/' && x[k] != '\\' by {
        if k < st.len() {
            assert(x[k] == t[k]);
            assert(!is_sep(t[k]));
        } else {
            assert(x[k] == suffix[k - st.len()]);
            assert(!is_sep(suffix[k - st.len()]));
        }
    }
    assert(x.len() > 2);
}

/// An audio format that the converter and the analyser accept.
#[derive(PartialEq, Eq, Structural, Clone, Copy, Debug)]
pub enum AudioFormat {
    Wav,
    Flac,
    Mp3,
}

/// The format an extension (already in lower case) names, if any.
pub open spec fn format_of(ext: Seq<char>) -> Option<AudioFormat> {
    if ext == "wav"@ {
        Some(AudioFormat::Wav)
    } else if ext == "flac"@ {
        Some(AudioFormat::Flac)
    } else if ext == "mp3"@ {
        Some(AudioFormat::Mp3)
    } else {
        None
    }
}

/// Law: the supported extensions are exactly `wav`, `flac` and `mp3`,
/// naming WAV, FLAC and MP3 in turn; every other extension names no
/// format.
pub proof fn lemma_supported_formats(x: Seq<char>)
    ensures
        format_of(x) == Some(AudioFormat::Wav) <==> x == seq!['w', 'a', 'v'],
        format_of(x) == Some(AudioFormat::Flac) <==> x == seq!['f', 'l', 'a', 'c'],
        format_of(x) == Some(AudioFormat::Mp3) <==> x == seq!['m', 'p', '3'],
        format_of(x) is Some ==> x == seq!['w', 'a', 'v'] || x == seq!['f', 'l', 'a', 'c'] || x
            == seq!['m', 'p', '3'],
{
    reveal_strlit("wav");
    reveal_strlit("flac");
    reveal_strlit("mp3");
    assert("wav"@ =~= seq!['w', 'a', 'v']);
    assert("flac"@ =~= seq!['f', 'l', 'a', 'c']);
    assert("mp3"@ =~= seq!['m', 'p', '3']);
}

/// The format an extension (already in lower case) names, if any.
pub fn audio_format(ext: &str) -> (r: Option<AudioFormat>)
    ensures
        r == format_of(ext@),
{
    if same_text(ext, "wav") {
        Some(AudioFormat::Wav)
    } else if same_text(ext, "flac") {
        Some(AudioFormat::Flac)
    } else if same_text(ext, "mp3") {
        Some(AudioFormat::Mp3)
    } else {
        None
    }
}

/// Why an input or a request is refused.  Each refusal carries the
/// lower-cased extension or format it is about.
#[derive(Debug)]
pub enum MediaError {
    /// The input to extract from is not an `.mp4` file.
    UnsupportedVideo(String),
    /// The input to convert is not a WAV, FLAC or MP3 file.
    UnsupportedSource(String),
    /// The format to convert to is not WAV, FLAC or MP3.
    UnsupportedTarget(String),
    /// The input already is in the format to convert to.
    SameFormat,
    /// The input to analyse is not a WAV, FLAC or MP3 file.
    UnsupportedAnalysis(String),
}

/// Where extracted audio goes: a directory and a file name.
pub struct OutputLocation {
    pub dir: String,
    pub file_name: String,
}

/// Where the audio of a video goes, given its lower-cased extension: next
/// to it, named after its stem (or `output`) with `_audio.wav` appended.
/// Refused unless the extension is `mp4`.
pub fn extraction_location(parts: &PathParts, ext_lower: &str) -> (r: Result<
    OutputLocation,
    MediaError,
>)
    ensures
        ext_lower@ == "mp4"@ <==> r is Ok,
        match r {
            Ok(loc) => loc.dir@ == output_dir(*parts) && loc.file_name@ == path_stem_or(
                *parts,
                "output"@,
            ) + "_audio.wav"@,
            Err(e) => e matches MediaError::UnsupportedVideo(x) && x@ == ext_lower@,
        },
{
    if !same_text(ext_lower, "mp4") {
        return Err(MediaError::UnsupportedVideo(String::from_str(ext_lower)));
    }
    let name = stem_or(parts, "output").concat("_audio.wav");
    Ok(OutputLocation { dir: dir_of(parts), file_name: name })
}

/// Where the audio of a video goes: next to it, named after its stem (or
/// `output`) with `_audio.wav` appended.  Refused unless the extension,
/// in lower case, is `mp4`.
pub fn extraction_output(parts: &PathParts) -> (r: Result<OutputLocation, MediaError>)
    ensures
        lower_extension(*parts) == "mp4"@ <==> r is Ok,
        match r {
            Ok(loc) => loc.dir@ == output_dir(*parts) && loc.file_name@ == path_stem_or(
                *parts,
                "output"@,
            ) + "_audio.wav"@,
            Err(e) => e matches MediaError::UnsupportedVideo(x) && x@ == lower_extension(*parts),
        },
        path_extension(*parts) is None ==> (r matches Err(MediaError::UnsupportedVideo(x))
            && x@.len() == 0),
        extension_lowering_known(*parts),
{
    let ext = lower_ext(parts);
    proof {
        reveal_strlit("mp4");
    }
    extraction_location(parts, ext.as_str())
}

/// Output path for extracting the audio of the video at `input_path`, or
/// the refusal of a non-`.mp4` input.  For a plain path the output is the
/// stem followed by `_audio.wav`, joined to the parent, and the input is
/// accepted exactly when its lower-cased extension is `mp4`.
pub fn plan_extraction(input_path: &str) -> (r: Result<String, MediaError>)
    ensures
        r matches Err(e) ==> e is UnsupportedVideo,
        r matches Err(MediaError::UnsupportedVideo(x)) ==> x@ != "mp4"@,
        r matches Ok(out) ==> ends_with(out@, "_audio.wav"@),
        input_path@.len() == 0 ==> (r matches Err(MediaError::UnsupportedVideo(x)) && x@.len()
            == 0),
        is_plain_path(input_path@) ==> {
            let p = input_path@;
            &&& (r is Ok <==> plain_lower_extension(p) == "mp4"@)
            &&& (r matches Ok(out) ==> is_join_of(
                parent_of(p),
                plain_stem(p) + "_audio.wav"@,
                out@,
            ))
            &&& (r matches Err(MediaError::UnsupportedVideo(x)) ==> x@ == plain_lower_extension(p))
            &&& plain_extension_lowering_known(p)
            &&& (is_ascii_text(p) ==> plain_lower_extension(p) == plain_ascii_lower_extension(p))
        },
        clear_extension(input_path@) matches Some(e) ==> {
            &&& (r is Ok <==> lowercased(e) == "mp4"@)
            &&& (r matches Err(MediaError::UnsupportedVideo(x)) ==> x@ == lowercased(e))
            &&& (r matches Ok(out) ==> ends_with(
                out@,
                stem_of(tail_name(input_path@)) + "_audio.wav"@,
            ))
            &&& (is_ascii_text(e) ==> lowercased(e) == ascii_lowercase(e))
        },
{
    let parts = split_path(input_path);
    let res = extraction_output(&parts);
    proof {
        if is_plain_path(input_path@) {
            lemma_plain_parts_read(input_path@, parts);
        }
        if clear_extension(input_path@) is Some {
            lemma_clear_parts_read(input_path@, parts, "output"@);
        }
    }
    match res {
        Ok(loc) => {
            proof {
                lemma_suffix_is_plain_tail(path_stem_or(parts, "output"@), "_audio.wav"@);
                if is_plain_path(input_path@) {
                    lemma_plain_join_ready(input_path@, "_audio.wav"@);
                }
                if clear_extension(input_path@) is Some {
                    let suffix = "_audio.wav"@;
                    reveal_strlit("_audio.wav");
                    lemma_clear_stem_suffix_plain(input_path@, suffix);
                    lemma_ends_with_append(
                        path_stem_or(parts, "output"@),
                        stem_of(tail_name(input_path@)),
                        suffix,
                    );
                }
            }
            Ok(path_join(loc.dir.as_str(), loc.file_name.as_str()))
        },
        Err(e) => Err(e),
    }
}

/// Where a conversion goes and which format it produces.
pub struct ConversionTarget {
    pub location: OutputLocation,
    pub format: AudioFormat,
}

/// What a conversion from `src` to `dst` (both in lower case) gives.
pub open spec fn conversion_outcome(
    parts: PathParts,
    src: Seq<char>,
    dst: Seq<char>,
    r: Result<ConversionTarget, MediaError>,
) -> bool {
    match r {
        Ok(t) => {
            &&& format_of(src) is Some
            &&& format_of(dst) == Some(t.format)
            &&& src != dst
            &&& t.location.dir@ == output_dir(parts)
            &&& t.location.file_name@ == path_stem_or(parts, "output"@) + seq!['.'] + dst
        },
        Err(MediaError::UnsupportedSource(x)) => format_of(src) is None && x@ == src,
        Err(MediaError::UnsupportedTarget(x)) => format_of(src) is Some && format_of(dst) is None
            && x@ == dst,
        Err(MediaError::SameFormat) => format_of(src) is Some && format_of(dst) is Some && src
            == dst,
        Err(_) => false,
    }
}

/// The checks of a conversion, given the lower-cased source extension and
/// target, in order: the source must name a supported format, then the
/// target must, and the two must differ.  The output goes next to the
/// input, named after its stem (or `output`) with the target as extension.
pub fn conversion_location(parts: &PathParts, src_lower: &str, dst_lower: &str) -> (r: Result<
    ConversionTarget,
    MediaError,
>)
    ensures
        conversion_outcome(*parts, src_lower@, dst_lower@, r),
{
    if audio_format(src_lower).is_none() {
        return Err(MediaError::UnsupportedSource(String::from_str(src_lower)));
    }
    let format = match audio_format(dst_lower) {
        Some(f) => f,
        None => {
            return Err(MediaError::UnsupportedTarget(String::from_str(dst_lower)));
        },
    };
    if same_text(src_lower, dst_lower) {
        return Err(MediaError::SameFormat);
    }
    let name = stem_or(parts, "output").concat(".").concat(dst_lower);
    proof {
        reveal_strlit(".");
        assert(name@ =~= path_stem_or(*parts, "output"@) + seq!['.'] + dst_lower@);
    }
    Ok(ConversionTarget { location: OutputLocation { dir: dir_of(parts), file_name: name }, format })
}

/// The checks of a conversion, in order: the source extension must name a
/// supported format, then the requested target must, and the two must
/// differ, both taken in lower case.  The output goes next to the input,
/// named after its stem (or `output`) with the lower-cased target as
/// extension.
pub fn conversion_output(parts: &PathParts, target_format: &str) -> (r: Result<
    ConversionTarget,
    MediaError,
>)
    ensures
        conversion_outcome(*parts, lower_extension(*parts), lowercased(target_format@), r),
        extension_lowering_known(*parts),
        is_ascii_text(target_format@) ==> lowercased(target_format@) == ascii_lowercase(
            target_format@,
        ),
{
    let src = lower_ext(parts);
    let dst = to_lower(target_format);
    conversion_location(parts, src.as_str(), dst.as_str())
}

/// Output path and format for converting the audio at `input_path` to
/// `target_format`, or the refusal.  For a plain path the checks run on
/// the lower-cased extension and target, the output is the stem, `.` and
/// the lower-cased target, joined to the parent, and it is never the input.
pub fn plan_conversion(input_path: &str, target_format: &str) -> (r: Result<
    (String, AudioFormat),
    MediaError,
>)
    ensures
        r matches Err(e) ==> (e is UnsupportedSource || e is UnsupportedTarget || e is SameFormat),
        r matches Ok((_, f)) ==> format_of(lowercased(target_format@)) == Some(f),
        is_ascii_text(target_format@) ==> lowercased(target_format@) == ascii_lowercase(
            target_format@,
        ),
        is_plain_path(input_path@) ==> {
            let p = input_path@;
            let src = plain_lower_extension(p);
            let dst = lowercased(target_format@);
            &&& match r {
                Ok((out, f)) => {
                    &&& format_of(src) is Some
                    &&& format_of(dst) == Some(f)
                    &&& src != dst
                    &&& is_join_of(parent_of(p), plain_stem(p) + seq!['.'] + dst, out@)
                    &&& out@ != p
                },
                Err(MediaError::UnsupportedSource(x)) => format_of(src) is None && x@ == src,
                Err(MediaError::UnsupportedTarget(x)) => format_of(src) is Some && format_of(dst) is None
                    && x@ == dst,
                Err(MediaError::SameFormat) => format_of(src) is Some && format_of(dst) is Some
                    && src == dst,
                Err(_) => false,
            }
            &&& plain_extension_lowering_known(p)
            &&& (is_ascii_text(p) ==> src == plain_ascii_lower_extension(p))
        },
        clear_extension(input_path@) matches Some(e) ==> {
            let src = lowercased(e);
            let dst = lowercased(target_format@);
            &&& match r {
                Ok((out, f)) => {
                    &&& format_of(src) is Some
                    &&& format_of(dst) == Some(f)
                    &&& src != dst
                    &&& ends_with(out@, stem_of(tail_name(input_path@)) + seq!['.'] + dst)
                },
                Err(MediaError::UnsupportedSource(x)) => format_of(src) is None && x@ == src,
                Err(MediaError::UnsupportedTarget(x)) => format_of(src) is Some && format_of(dst) is None
                    && x@ == dst,
                Err(MediaError::SameFormat) => format_of(src) is Some && format_of(dst) is Some
                    && src == dst,
                Err(_) => false,
            }
            &&& (is_ascii_text(e) ==> src == ascii_lowercase(e))
        },
{
    let parts = split_path(input_path);
    let res = conversion_output(&parts, target_format);
    proof {
        if is_plain_path(input_path@) {
            lemma_plain_parts_read(input_path@, parts);
        }
        if clear_extension(input_path@) is Some {
            lemma_clear_parts_read(input_path@, parts, "output"@);
        }
    }
    match res {
        Ok(t) => {
            let out = path_join(t.location.dir.as_str(), t.location.file_name.as_str());
            proof {
                if clear_extension(input_path@) is Some {
                    let dst = lowercased(target_format@);
                    let suffix = seq!['.'] + dst;
                    lemma_format_names(dst);
                    assert forall|i: int| 0 <= i < suffix.len() implies !is_sep(#[trigger] suffix[i]) by {
                        if i > 0 {
                            assert(suffix[i] == dst[i - 1]);
                        }
                    }
                    lemma_clear_stem_suffix_plain(input_path@, suffix);
                    lemma_ends_with_append(
                        path_stem_or(parts, "output"@),
                        stem_of(tail_name(input_path@)),
                        suffix,
                    );
                    assert(path_stem_or(parts, "output"@) + seq!['.'] + dst == path_stem_or(parts, "output"@) + suffix);
                    assert(stem_of(tail_name(input_path@)) + seq!['.'] + dst == stem_of(tail_name(input_path@)) + suffix);
                }
                if is_plain_path(input_path@) {
                    let p = input_path@;
                    let dst = lowercased(target_format@);
                    lemma_plain_path_parts(p);
                    lemma_format_names(dst);
                    let suffix = seq!['.'] + dst;
                    assert forall|i: int| 0 <= i < suffix.len() implies #[trigger] suffix[i]
                        != ':' by {
                        if i > 0 {
                            assert(suffix[i] == dst[i - 1]);
                        }
                    }
                    lemma_stem_suffix_joinable(final_component(p), suffix);
                    assert(plain_stem(p) + seq!['.'] + dst == plain_stem(p) + suffix);
                    lemma_conversion_keeps_input(p, dst, out@);
                }
            }
            Ok((out, t.format))
        },
        Err(e) => Err(e),
    }
}

/// The format of an input to analyse, given its lower-cased extension;
/// refused unless that is `wav`, `flac` or `mp3`.
pub fn analysis_decision(ext_lower: &str) -> (r: Result<AudioFormat, MediaError>)
    ensures
        match r {
            Ok(f) => format_of(ext_lower@) == Some(f),
            Err(e) => format_of(ext_lower@) is None && (e matches MediaError::UnsupportedAnalysis(x)
                && x@ == ext_lower@),
        },
{
    match audio_format(ext_lower) {
        Some(f) => Ok(f),
        None => Err(MediaError::UnsupportedAnalysis(String::from_str(ext_lower))),
    }
}

/// The format of an input to analyse; refused unless its lower-cased
/// extension is `wav`, `flac` or `mp3`.
pub fn analysis_format(parts: &PathParts) -> (r: Result<AudioFormat, MediaError>)
    ensures
        match r {
            Ok(f) => format_of(lower_extension(*parts)) == Some(f),
            Err(e) => format_of(lower_extension(*parts)) is None && (e matches MediaError::UnsupportedAnalysis(x) && x@ == lower_extension(*parts)),
        },
        path_extension(*parts) is None ==> (r matches Err(MediaError::UnsupportedAnalysis(x))
            && x@.len() == 0),
        extension_lowering_known(*parts),
{
    let ext = lower_ext(parts);
    proof {
        reveal_strlit("wav");
        reveal_strlit("flac");
        reveal_strlit("mp3");
    }
    analysis_decision(ext.as_str())
}

/// Checks that the file at `input_path` may be analysed.  For a plain
/// path, it may exactly when its lower-cased extension is `wav`, `flac` or
/// `mp3`.
pub fn check_analysis_input(input_path: &str) -> (r: Result<AudioFormat, MediaError>)
    ensures
        r matches Err(e) ==> e is UnsupportedAnalysis,
        r matches Err(MediaError::UnsupportedAnalysis(x)) ==> format_of(x@) is None,
        input_path@.len() == 0 ==> (r matches Err(MediaError::UnsupportedAnalysis(x)) && x@.len()
            == 0),
        is_plain_path(input_path@) ==> match r {
            Ok(f) => format_of(plain_lower_extension(input_path@)) == Some(f),
            Err(e) => format_of(plain_lower_extension(input_path@)) is None && (e matches MediaError::UnsupportedAnalysis(x) && x@ == plain_lower_extension(input_path@)),
        },
        is_plain_path(input_path@) ==> plain_extension_lowering_known(input_path@),
        is_plain_path(input_path@) && is_ascii_text(input_path@) ==> plain_lower_extension(
            input_path@,
        ) == plain_ascii_lower_extension(input_path@),
        clear_extension(input_path@) matches Some(e) ==> {
            &&& match r {
                Ok(f) => format_of(lowercased(e)) == Some(f),
                Err(x) => format_of(lowercased(e)) is None && (x matches MediaError::UnsupportedAnalysis(y)
                    && y@ == lowercased(e)),
            }
            &&& (is_ascii_text(e) ==> lowercased(e) == ascii_lowercase(e))
        },
{
    let parts = split_path(input_path);
    let r = analysis_format(&parts);
    proof {
        if is_plain_path(input_path@) {
            lemma_plain_parts_read(input_path@, parts);
        }
        if clear_extension(input_path@) is Some {
            lemma_clear_parts_read(input_path@, parts, Seq::empty());
        }
    }
    r
}

/// Where the recogniser's 16 kHz copy of an input goes: next to it, named
/// after its stem (or `temp`) with `_whisper_temp.wav` appended.
pub fn recognition_temp_output(parts: &PathParts) -> (r: OutputLocation)
    ensures
        r.dir@ == output_dir(*parts),
        r.file_name@ == path_stem_or(*parts, "temp"@) + "_whisper_temp.wav"@,
{
    let name = stem_or(parts, "temp").concat("_whisper_temp.wav");
    OutputLocation { dir: dir_of(parts), file_name: name }
}

/// Path of the recogniser's 16 kHz copy of the input at `input_path`.
/// For a plain path, it is the stem followed by `_whisper_temp.wav`,
/// joined to the input's parent.
pub fn plan_recognition_temp(input_path: &str) -> (r: String)
    ensures
        ends_with(r@, "_whisper_temp.wav"@),
        is_plain_path(input_path@) ==> is_join_of(
            parent_of(input_path@),
            plain_stem(input_path@) + "_whisper_temp.wav"@,
            r@,
        ),
{
    let parts = split_path(input_path);
    let loc = recognition_temp_output(&parts);
    proof {
        lemma_suffix_is_plain_tail(path_stem_or(parts, "temp"@), "_whisper_temp.wav"@);
        if is_plain_path(input_path@) {
            lemma_plain_join_ready(input_path@, "_whisper_temp.wav"@);
        }
    }
    path_join(loc.dir.as_str(), loc.file_name.as_str())
}

/// The folder to show for a path: the path itself when it is a directory,
/// otherwise its parent, or `.` without one.
pub fn folder_choice(path: &str, is_dir: bool, parent: Option<&str>) -> (r: String)
    ensures
        r@ == (if is_dir {
            path@
        } else {
            match parent {
                Some(p) => p@,
                None => seq!['.'],
            }
        }),
{
    if is_dir {
        String::from_str(path)
    } else {
        match parent {
            Some(p) => String::from_str(p),
            None => {
                proof {
                    reveal_strlit(".");
                }
                String::from_str(".")
            },
        }
    }
}

/// The folder to show for `path`, given whether it is a directory.
pub fn folder_to_open(path: &str, is_dir: bool) -> (r: String)
    ensures
        is_dir ==> r@ == path@,
        !is_dir && path@.len() == 0 ==> r@ == seq!['.'],
        !is_dir && is_plain_path(path@) ==> r@ == parent_of(path@),
{
    let parent = path_parent(path);
    match &parent {
        Some(p) => folder_choice(path, is_dir, Some(p.as_str())),
        None => folder_choice(path, is_dir, None),
    }
}

/// A program path whose directory is the same on every platform: empty,
/// or a plain path.
pub open spec fn program_path_known(exe: Seq<char>) -> bool {
    exe.len() == 0 || is_plain_path(exe)
}

/// The directory of a program path known on every platform: its parent,
/// or `.` for the empty path.
pub open spec fn program_base(exe: Seq<char>) -> Seq<char> {
    if exe.len() == 0 {
        seq!['.']
    } else {
        parent_of(exe)
    }
}

/// The directory of the running program: the parent of its path, or `.`.
fn program_dir(exe_path: &str) -> (r: String)
    ensures
        program_path_known(exe_path@) ==> r@ == program_base(exe_path@),
        program_path_known(exe_path@) ==> joinable_dir(r@),
{
    proof {
        if is_plain_path(exe_path@) {
            lemma_plain_path_parts(exe_path@);
        }
    }
    let parent = path_parent(exe_path);
    match parent {
        Some(p) => p,
        None => {
            proof {
                reveal_strlit(".");
            }
            let d = String::from_str(".");
            proof {
                assert(d@ == seq!['.']);
                assert(d@.last() == '.');
            }
            d
        },
    }
}

/// Where the recogniser's program is looked for, relative to the running
/// program's directory, in order: `tools` beside it, then `tools` three
/// levels above it.
pub fn recognizer_program_locations() -> (r: Vec<String>)
    ensures
        r@.len() == 2,
        r@[0]@ == "tools/whisper-cli.exe"@,
        r@[1]@ == "../../../tools/whisper-cli.exe"@,
{
    let mut r: Vec<String> = Vec::new();
    r.push(String::from_str("tools/whisper-cli.exe"));
    r.push(String::from_str("../../../tools/whisper-cli.exe"));
    r
}

/// The folders, relative to the running program's directory, and the
/// model files looked for in them, in order: the small model before the
/// tiny one, each first in `tools` beside the program, then in `tools`
/// three levels above it.
pub fn recognizer_model_locations() -> (r: Vec<(String, String)>)
    ensures
        r@.len() == 4,
        r@[0].0@ == "tools"@ && r@[0].1@ == "ggml-small.bin"@,
        r@[1].0@ == "../../../tools"@ && r@[1].1@ == "ggml-small.bin"@,
        r@[2].0@ == "tools"@ && r@[2].1@ == "ggml-tiny.bin"@,
        r@[3].0@ == "../../../tools"@ && r@[3].1@ == "ggml-tiny.bin"@,
{
    let mut r: Vec<(String, String)> = Vec::new();
    r.push((String::from_str("tools"), String::from_str("ggml-small.bin")));
    r.push((String::from_str("../../../tools"), String::from_str("ggml-small.bin")));
    r.push((String::from_str("tools"), String::from_str("ggml-tiny.bin")));
    r.push((String::from_str("../../../tools"), String::from_str("ggml-tiny.bin")));
    r
}

proof fn lemma_literal_names()
    ensures
        joinable_name("tools/whisper-cli.exe"@),
        joinable_name("../../../tools/whisper-cli.exe"@),
        joinable_name("tools"@),
        joinable_name("../../../tools"@),
        joinable_name("ggml-small.bin"@),
        joinable_name("ggml-tiny.bin"@),
        "tools"@.len() > 0 && !is_sep("tools"@.last()),
        "../../../tools"@.len() > 0 && !is_sep("../../../tools"@.last()),
        is_plain_component("whisper-cli.exe"@),
        ends_with("tools/whisper-cli.exe"@, "whisper-cli.exe"@),
        ends_with("../../../tools/whisper-cli.exe"@, "whisper-cli.exe"@),
        is_plain_component("ggml-small.bin"@),
        is_plain_component("ggml-tiny.bin"@),
{
    reveal_strlit("tools/whisper-cli.exe");
    reveal_strlit("../../../tools/whisper-cli.exe");
    reveal_strlit("tools");
    reveal_strlit("../../../tools");
    reveal_strlit("ggml-small.bin");
    reveal_strlit("ggml-tiny.bin");
    reveal_strlit("whisper-cli.exe");
    assert("tools/whisper-cli.exe"@.subrange(6, 21) =~= "whisper-cli.exe"@);
    assert("ggml-small.bin"@.len() == 14 && "ggml-tiny.bin"@.len() == 13);
    assert("ggml-small.bin"@ != seq!['.'] && "ggml-small.bin"@ != seq!['.', '.']);
    assert("ggml-tiny.bin"@ != seq!['.'] && "ggml-tiny.bin"@ != seq!['.', '.']);
    assert("whisper-cli.exe"@ != seq!['.'] && "whisper-cli.exe"@ != seq!['.', '.']);
    assert("../../../tools/whisper-cli.exe"@.subrange(15, 30) =~= "whisper-cli.exe"@);
}

/// Joining a name to a joinable directory, then another name to the
/// result, is joining twice.
proof fn lemma_join_twice(d: Seq<char>, a: Seq<char>, mid: Seq<char>, b: Seq<char>, r: Seq<char>)
    requires
        joinable_dir(d),
        joinable_name(a),
        a.len() > 0,
        !is_sep(a.last()),
        is_join_of(d, a, mid),
        joinable_dir(mid) && joinable_name(b) ==> is_join_of(mid, b, r),
        joinable_name(b),
    ensures
        is_join_twice(d, a, b, r),
{
    lemma_join_gives_dir(d, a, mid);
    assert(r.subrange(0, r.len() - b.len() - 1) =~= r.subrange(0, mid.len() as int));
}

/// Where the recogniser's program is looked for, in order: each place of
/// `recognizer_program_locations` joined to the running program's
/// directory.
pub fn recognizer_program_candidates(exe_path: &str) -> (r: Vec<String>)
    ensures
        r@.len() == 2,
        ends_with(r@[0]@, "whisper-cli.exe"@),
        ends_with(r@[1]@, "whisper-cli.exe"@),
        program_path_known(exe_path@) ==> is_join_of(
            program_base(exe_path@),
            "tools/whisper-cli.exe"@,
            r@[0]@,
        ),
        program_path_known(exe_path@) ==> is_join_of(
            program_base(exe_path@),
            "../../../tools/whisper-cli.exe"@,
            r@[1]@,
        ),
{
    proof {
        lemma_literal_names();
    }
    let dir = program_dir(exe_path);
    let locations = recognizer_program_locations();
    let mut r: Vec<String> = Vec::new();
    r.push(path_join(dir.as_str(), locations[0].as_str()));
    r.push(path_join(dir.as_str(), locations[1].as_str()));
    r
}

/// Where the recogniser's model is looked for, in order: each folder of
/// `recognizer_model_locations` joined to the running program's
/// directory, then the model file joined to that.
pub fn recognizer_model_candidates(exe_path: &str) -> (r: Vec<String>)
    ensures
        r@.len() == 4,
        ends_with(r@[0]@, "ggml-small.bin"@),
        ends_with(r@[1]@, "ggml-small.bin"@),
        ends_with(r@[2]@, "ggml-tiny.bin"@),
        ends_with(r@[3]@, "ggml-tiny.bin"@),
        program_path_known(exe_path@) ==> {
            let d = program_base(exe_path@);
            &&& is_join_twice(d, "tools"@, "ggml-small.bin"@, r@[0]@)
            &&& is_join_twice(d, "../../../tools"@, "ggml-small.bin"@, r@[1]@)
            &&& is_join_twice(d, "tools"@, "ggml-tiny.bin"@, r@[2]@)
            &&& is_join_twice(d, "../../../tools"@, "ggml-tiny.bin"@, r@[3]@)
        },
{
    let dir = program_dir(exe_path);
    let locations = recognizer_model_locations();
    let mut r: Vec<String> = Vec::new();
    let mut i: usize = 0;
    while i < 4
        invariant
            locations@.len() == 4,
            locations@[0].0@ == "tools"@ && locations@[0].1@ == "ggml-small.bin"@,
            locations@[1].0@ == "../../../tools"@ && locations@[1].1@ == "ggml-small.bin"@,
            locations@[2].0@ == "tools"@ && locations@[2].1@ == "ggml-tiny.bin"@,
            locations@[3].0@ == "../../../tools"@ && locations@[3].1@ == "ggml-tiny.bin"@,
            program_path_known(exe_path@) ==> dir@ == program_base(exe_path@) && joinable_dir(dir@),
            i <= 4,
            r@.len() == i,
            forall|k: int|
                0 <= k < i ==> ends_with(#[trigger] r@[k]@, locations@[k].1@),
            forall|k: int|
                0 <= k < i ==> program_path_known(exe_path@) ==> is_join_twice(
                    program_base(exe_path@),
                    locations@[k].0@,
                    locations@[k].1@,
                    #[trigger] r@[k]@,
                ),
        decreases 4 - i,
    {
        proof {
            lemma_literal_names();
        }
        let folder = path_join(dir.as_str(), locations[i].0.as_str());
        let candidate = path_join(folder.as_str(), locations[i].1.as_str());
        proof {
            if program_path_known(exe_path@) {
                lemma_join_twice(dir@, locations@[i as int].0@, folder@, locations@[i as int].1@, candidate@);
            }
        }
        r.push(candidate);
        i = i + 1;
    }
    r
}

/// A supported format's name is ASCII, already in lower case, and holds
/// no `:`.
proof fn lemma_format_names(x: Seq<char>)
    requires
        format_of(x) is Some,
    ensures
        is_ascii_text(x),
        ascii_lowercase(x) == x,
        forall|i: int| 0 <= i < x.len() ==> #[trigger] x[i] != ':' && !is_sep(x[i]),
        x.len() >= 3,
{
    reveal_strlit("wav");
    reveal_strlit("flac");
    reveal_strlit("mp3");
    assert(ascii_lowercase(x) =~= x);
}

/// A conversion never overwrites its input: for a plain path whose
/// lower-cased extension differs from a supported target, the output that
/// joins the stem, `.` and the target to the parent is not the input.
proof fn lemma_conversion_keeps_input(p: Seq<char>, dst: Seq<char>, out: Seq<char>)
    requires
        is_plain_path(p),
        plain_extension_lowering_known(p),
        format_of(dst) is Some,
        plain_lower_extension(p) != dst,
        is_join_of(parent_of(p), plain_stem(p) + seq!['.'] + dst, out),
    ensures
        out != p,
{
    let name = final_component(p);
    let s = plain_stem(p) + seq!['.'];
    lemma_stem_and_extension_rebuild_name(name);
    lemma_format_names(dst);
    if out == p {
        lemma_plain_path_rebuild(p);
        lemma_join_names_equal(parent_of(p), s + dst, name, p);
        assert(name == s + dst);
        match extension_of(name) {
            Some(e) => {
                assert(name == s + e);
                assert(dst =~= name.subrange(s.len() as int, name.len() as int));
                assert(e =~= name.subrange(s.len() as int, name.len() as int));
                assert(lowercased(e) == ascii_lowercase(e));
                assert(plain_lower_extension(p) == lowercased(e));
            },
            None => {
                assert(name.len() == s.len() + dst.len());
            },
        }
    }
}

} // verus!
