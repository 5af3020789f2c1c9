//! Character-level text handling: whitespace classes, trimming, reading a
//! `key=value` line out of prober output, and the characters of a
//! transcript that receive a time slot.
use vstd::prelude::*;

verus! {

/// Unicode `White_Space`, the class that `char::is_whitespace` tests.
pub open spec fn is_unicode_whitespace(c: char) -> bool {
    ||| ('\u{9}' <= c && c <= '\u{d}')
    ||| c == ' '
    ||| c == '\u{85}'
    ||| c == '\u{a0}'
    ||| c == '\u{1680}'
    ||| ('\u{2000}' <= c && c <= '\u{200a}')
    ||| c == '\u{2028}'
    ||| c == '\u{2029}'
    ||| c == '\u{202f}'
    ||| c == '\u{205f}'
    ||| c == '\u{3000}'
}

/// ASCII whitespace as `char::is_ascii_whitespace` defines it: space,
/// horizontal tab, line feed, form feed and carriage return.
pub open spec fn is_ascii_whitespace(c: char) -> bool {
    c == ' ' || c == '\t' || c == '\n' || c == '\u{c}' || c == '\r'
}

/// Whether `c` has the Unicode `White_Space` property.
pub fn unicode_whitespace(c: char) -> (b: bool)
    ensures
        b == is_unicode_whitespace(c),
{
    ('\u{9}' <= c && c <= '\u{d}') || c == ' ' || c == '\u{85}' || c == '\u{a0}' || c
        == '\u{1680}' || ('\u{2000}' <= c && c <= '\u{200a}') || c == '\u{2028}' || c
        == '\u{2029}' || c == '\u{202f}' || c == '\u{205f}' || c == '\u{3000}'
}

/// Whether `c` is ASCII whitespace.
pub fn ascii_whitespace(c: char) -> (b: bool)
    ensures
        b == is_ascii_whitespace(c),
{
    c == ' ' || c == '\t' || c == '\n' || c == '\u{c}' || c == '\r'
}

/// `s` without its leading whitespace.
pub open spec fn trim_start(s: Seq<char>) -> Seq<char>
    decreases s.len(),
{
    if s.len() > 0 && is_unicode_whitespace(s[0]) {
        trim_start(s.drop_first())
    } else {
        s
    }
}

/// `s` without its trailing whitespace.
pub open spec fn trim_end(s: Seq<char>) -> Seq<char>
    decreases s.len(),
{
    if s.len() > 0 && is_unicode_whitespace(s.last()) {
        trim_end(s.drop_last())
    } else {
        s
    }
}

/// `s` without leading and trailing whitespace, as `str::trim` gives it.
pub open spec fn trim(s: Seq<char>) -> Seq<char> {
    trim_end(trim_start(s))
}

/// The characters of `s`, one by one.
pub fn chars_of(s: &str) -> (r: Vec<char>)
    ensures
        r@ == s@,
{
    let n = s.unicode_len();
    let mut r: Vec<char> = Vec::new();
    let mut i: usize = 0;
    while i < n
        invariant
            n == s@.len(),
            i <= n,
            r@ == s@.subrange(0, i as int),
        decreases n - i,
    {
        r.push(s.get_char(i));
        i = i + 1;
        assert(r@ =~= s@.subrange(0, i as int));
    }
    assert(r@ =~= s@);
    r
}

/// Whether two strings hold the same characters.
pub fn same_text(a: &str, b: &str) -> (r: bool)
    ensures
        r == (a@ == b@),
{
    let x = chars_of(a);
    let y = chars_of(b);
    if x.len() != y.len() {
        return false;
    }
    let mut i: usize = 0;
    while i < x.len()
        invariant
            x@ == a@,
            y@ == b@,
            x@.len() == y@.len(),
            i <= x@.len(),
            forall|k: int| 0 <= k < i ==> x@[k] == y@[k],
        decreases x@.len() - i,
    {
        if x[i] != y[i] {
            return false;
        }
        i = i + 1;
    }
    assert(x@ =~= y@);
    true
}

/// Stripping leading whitespace drops exactly the whitespace before the
/// first other character.
pub proof fn lemma_trim_start_skip(s: Seq<char>, a: int)
    requires
        0 <= a <= s.len(),
        forall|k: int| 0 <= k < a ==> is_unicode_whitespace(#[trigger] s[k]),
        a == s.len() || !is_unicode_whitespace(s[a]),
    ensures
        trim_start(s) == s.subrange(a, s.len() as int),
    decreases a,
{
    if a == 0 {
        assert(s.subrange(0, s.len() as int) =~= s);
    } else {
        assert(is_unicode_whitespace(s[0]));
        let t = s.drop_first();
        assert forall|k: int| 0 <= k < a - 1 implies is_unicode_whitespace(#[trigger] t[k]) by {
            assert(t[k] == s[k + 1]);
        }
        if a - 1 < t.len() {
            assert(t[a - 1] == s[a]);
        }
        lemma_trim_start_skip(t, a - 1);
        assert(t.subrange(a - 1, t.len() as int) =~= s.subrange(a, s.len() as int));
    }
}

/// Stripping trailing whitespace drops exactly the whitespace after the
/// last other character.
pub proof fn lemma_trim_end_take(s: Seq<char>, b: int)
    requires
        0 <= b <= s.len(),
        forall|k: int| b <= k < s.len() ==> is_unicode_whitespace(#[trigger] s[k]),
        b == 0 || !is_unicode_whitespace(s[b - 1]),
    ensures
        trim_end(s) == s.subrange(0, b),
    decreases s.len() - b,
{
    if b == s.len() {
        assert(s.subrange(0, b) =~= s);
    } else {
        assert(is_unicode_whitespace(s.last()));
        let t = s.drop_last();
        assert forall|k: int| b <= k < t.len() implies is_unicode_whitespace(#[trigger] t[k]) by {
            assert(t[k] == s[k]);
        }
        if b > 0 {
            assert(t[b - 1] == s[b - 1]);
        }
        lemma_trim_end_take(t, b);
        assert(t.subrange(0, b) =~= s.subrange(0, b));
    }
}

/// Bounds `[a, b)` of `chars[from..to]` once whitespace is stripped from
/// both ends.
fn trim_bounds(chars: &Vec<char>, from: usize, to: usize) -> (r: (usize, usize))
    requires
        from <= to <= chars@.len(),
    ensures
        from <= r.0 <= r.1 <= to,
        chars@.subrange(r.0 as int, r.1 as int) == trim(chars@.subrange(from as int, to as int)),
{
    let ghost s = chars@.subrange(from as int, to as int);
    let mut a = from;
    while a < to && unicode_whitespace(chars[a])
        invariant
            from <= a <= to <= chars@.len(),
            s == chars@.subrange(from as int, to as int),
            forall|k: int| from <= k < a ==> is_unicode_whitespace(#[trigger] chars@[k]),
        decreases to - a,
    {
        a = a + 1;
    }
    proof {
        assert forall|k: int| 0 <= k < a - from implies is_unicode_whitespace(#[trigger] s[k]) by {
            assert(s[k] == chars@[from + k]);
        }
        if a < to {
            assert(s[a - from] == chars@[a as int]);
        }
        lemma_trim_start_skip(s, a - from);
    }
    let ghost t = s.subrange(a - from, s.len() as int);
    assert(t =~= chars@.subrange(a as int, to as int));
    let mut b = to;
    while b > a && unicode_whitespace(chars[b - 1])
        invariant
            a <= b <= to <= chars@.len(),
            forall|k: int| b <= k < to ==> is_unicode_whitespace(#[trigger] chars@[k]),
        decreases b - a,
    {
        b = b - 1;
    }
    proof {
        assert forall|k: int| b - a <= k < t.len() implies is_unicode_whitespace(#[trigger] t[k]) by {
            assert(t[k] == chars@[a + k]);
        }
        if b > a {
            assert(t[b - a - 1] == chars@[b - 1]);
        }
        lemma_trim_end_take(t, b - a);
        assert(t.subrange(0, b - a) =~= chars@.subrange(a as int, b as int));
    }
    (a, b)
}

/// `s` with leading and trailing Unicode whitespace removed.
pub fn trim_str(s: &str) -> (r: String)
    ensures
        r@ == trim(s@),
{
    let chars = chars_of(s);
    let (a, b) = trim_bounds(&chars, 0, chars.len());
    assert(chars@.subrange(0, chars@.len() as int) =~= s@);
    let t = s.substring_char(a, b);
    String::from_str(t)
}

/// `[a, b)` is one line of `s`: a maximal stretch without a line feed.
pub open spec fn is_line(s: Seq<char>, a: int, b: int) -> bool {
    &&& 0 <= a <= b <= s.len()
    &&& (a == 0 || s[a - 1] == '\n')
    &&& (b == s.len() || s[b] == '\n')
    &&& forall|k: int| a <= k < b ==> #[trigger] s[k] != '\n'
}

/// The line `[a, b)` of `s` begins with `key`.
pub open spec fn line_has_key(s: Seq<char>, key: Seq<char>, a: int, b: int) -> bool {
    b - a >= key.len() && s.subrange(a, a + key.len()) == key
}

/// What `last_key_value` returns: the trimmed rest of the last line that
/// begins with `key`, or nothing when no line does.
pub open spec fn is_last_key_value(s: Seq<char>, key: Seq<char>, r: Option<Seq<char>>) -> bool {
    match r {
        None => forall|a: int, b: int| #[trigger]
            is_line(s, a, b) ==> !line_has_key(s, key, a, b),
        Some(v) => exists|a: int, b: int|
            {
                &&& #[trigger] is_line(s, a, b)
                &&& line_has_key(s, key, a, b)
                &&& v == trim(s.subrange(a + key.len(), b))
                &&& forall|a2: int, b2: int| #[trigger]
                    is_line(s, a2, b2) && line_has_key(s, key, a2, b2) ==> a2 <= a
            },
    }
}

fn has_key_at(chars: &Vec<char>, key: &Vec<char>, a: usize, b: usize) -> (r: bool)
    requires
        a <= b <= chars@.len(),
    ensures
        r == line_has_key(chars@, key@, a as int, b as int),
{
    if b - a < key.len() {
        return false;
    }
    let mut j: usize = 0;
    while j < key.len()
        invariant
            a <= b <= chars@.len(),
            b - a >= key@.len(),
            j <= key@.len(),
            forall|k: int| 0 <= k < j ==> chars@[a + k] == #[trigger] key@[k],
        decreases key@.len() - j,
    {
        if chars[a + j] != key[j] {
            assert(chars@.subrange(a as int, a + key@.len())[j as int] != key@[j as int]);
            return false;
        }
        j = j + 1;
    }
    assert(chars@.subrange(a as int, a + key@.len()) =~= key@);
    true
}

/// The value of the last line of `text` that begins with `key`: the rest of
/// that line with surrounding whitespace trimmed.  Lines are separated by
/// line feeds; a carriage return before one is whitespace and is trimmed.
pub fn last_key_value(text: &str, key: &str) -> (r: Option<String>)
    ensures
        is_last_key_value(text@, key@, match r {
            Some(v) => Some(v@),
            None => None,
        }),
{
    let chars = chars_of(text);
    let keys = chars_of(key);
    let ghost s = text@;
    let n = chars.len();
    let mut best: Option<(usize, usize)> = None;
    let mut a: usize = 0;
    let mut i: usize = 0;
    while i < n
        invariant
            chars@ == s,
            keys@ == key@,
            n == s.len(),
            a <= i <= n,
            a == 0 || s[a - 1] == '\n',
            forall|k: int| a <= k < i ==> #[trigger] s[k] != '\n',
            match best {
                None => forall|a2: int, b2: int|
                    #[trigger] is_line(s, a2, b2) && a2 < a ==> !line_has_key(s, key@, a2, b2),
                Some(p) => {
                    &&& is_line(s, p.0 as int, p.1 as int)
                    &&& line_has_key(s, key@, p.0 as int, p.1 as int)
                    &&& p.0 < a
                    &&& forall|a2: int, b2: int|
                        #[trigger] is_line(s, a2, b2) && a2 < a && line_has_key(s, key@, a2, b2)
                            ==> a2 <= p.0
                },
            },
        decreases n - i,
    {
        if chars[i] == '\n' {
            // [a, i) is a complete line.
            proof {
                assert(is_line(s, a as int, i as int));
                assert forall|a2: int, b2: int| #[trigger]
                    is_line(s, a2, b2) && a2 < i + 1 implies a2 <= a && (a2 == a ==> b2 == i) by {
                    if a2 > a {
                        assert(s[a2 - 1] != '\n');
                    }
                    if a2 == a && b2 != i {
                        if b2 < i {
                            assert(s[b2] != '\n');
                        } else {
                            assert(s[i as int] != '\n');
                        }
                    }
                }
            }
            if has_key_at(&chars, &keys, a, i) {
                best = Some((a, i));
            }
            a = i + 1;
        }
        i = i + 1;
    }
    // [a, n) is the last line.
    proof {
        assert(is_line(s, a as int, n as int));
        assert forall|a2: int, b2: int| #[trigger] is_line(s, a2, b2) implies a2 <= a && (a2 == a
            ==> b2 == n) by {
            if a2 > a {
                assert(s[a2 - 1] != '\n');
            }
            if a2 == a && b2 < n {
                assert(s[b2] != '\n');
            }
        }
    }
    if has_key_at(&chars, &keys, a, n) {
        best = Some((a, n));
    }
    match best {
        None => {
            assert forall|a2: int, b2: int| #[trigger] is_line(s, a2, b2) implies !line_has_key(
                s,
                key@,
                a2,
                b2,
            ) by {
                assert(a2 <= a);
            }
            None
        },
        Some(p) => {
            let klen = keys.len();
            let (x, y) = trim_bounds(&chars, p.0 + klen, p.1);
            let v = String::from_str(text.substring_char(x, y));
            proof {
                assert forall|a2: int, b2: int| #[trigger]
                    is_line(s, a2, b2) && line_has_key(s, key@, a2, b2) implies a2 <= p.0 by {
                    assert(a2 <= a);
                }
                assert(is_line(s, p.0 as int, p.1 as int));
            }
            Some(v)
        },
    }
}

/// The duration field that the prober reports, as text: the value of the
/// last `duration=` line of its output.
pub fn probe_duration_text(output: &str) -> (r: Option<String>)
    ensures
        is_last_key_value(output@, "duration="@, match r {
            Some(v) => Some(v@),
            None => None,
        }),
{
    last_key_value(output, "duration=")
}

/// Whether a transcript character receives a time slot: every character
/// but ASCII whitespace does.
pub open spec fn is_timed_char(c: char) -> bool {
    !is_ascii_whitespace(c)
}

/// The characters of a transcript that receive time slots, in order: all of
/// them except ASCII whitespace.
pub fn transcript_chars(transcript: &str) -> (r: Vec<char>)
    ensures
        r@ == transcript@.filter(|c: char| is_timed_char(c)),
{
    let chars = chars_of(transcript);
    let ghost s = transcript@;
    let mut r: Vec<char> = Vec::new();
    let mut i: usize = 0;
    while i < chars.len()
        invariant
            chars@ == s,
            i <= s.len(),
            r@ == s.subrange(0, i as int).filter(|c: char| is_timed_char(c)),
        decreases s.len() - i,
    {
        let c = chars[i];
        let keep = !ascii_whitespace(c);
        if keep {
            r.push(c);
        }
        proof {
            reveal(Seq::filter);
            let t = s.subrange(0, i + 1);
            assert(t.drop_last() =~= s.subrange(0, i as int));
            assert(t.last() == c);
        }
        i = i + 1;
    }
    assert(s.subrange(0, s.len() as int) =~= s);
    r
}

} // verus!
