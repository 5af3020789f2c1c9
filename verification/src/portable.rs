//! Paths that every platform reads alike, and ASCII lower case.
//!
//! A plain path is made of non-empty `/`-separated names, none of them `.`
//! or `..`, with no `\`, no `:`, no doubled or trailing `/`; it may start
//! with one `/`.  No platform sees a prefix in it, and every platform
//! splits it at its `/`, so its final component and its parent are the
//! same everywhere.  Joining a name to a directory appends it after a
//! separator, which is `/` or, on Windows, `\`.
use vstd::prelude::*;
use crate::paths::stem_of;

verus! {

/// `c` separates path components on some platform.
pub open spec fn is_sep(c: char) -> bool {
    c == '/' || c == '\\'
}

/// Every character of `s` is ASCII.
pub open spec fn is_ascii_text(s: Seq<char>) -> bool {
    forall|i: int| 0 <= i < s.len() ==> (#[trigger] s[i] as u32) < 128
}

/// ASCII lower case of one character: `A`–`Z` become `a`–`z`.
pub open spec fn ascii_lower_char(c: char) -> char {
    if 'A' <= c && c <= 'Z' {
        ((c as u32) + 32) as char
    } else {
        c
    }
}

/// ASCII lower case of a string.
pub open spec fn ascii_lowercase(s: Seq<char>) -> Seq<char> {
    Seq::new(s.len(), |i: int| ascii_lower_char(s[i]))
}

/// Position of the last `/` of `s`, if any.
pub open spec fn last_slash(s: Seq<char>) -> Option<int>
    decreases s.len(),
{
    if s.len() == 0 {
        None
    } else if s.last() == '/' {
        Some(s.len() - 1)
    } else {
        last_slash(s.drop_last())
    }
}

/// `p` is a plain path (see the module documentation).
pub open spec fn is_plain_path(p: Seq<char>) -> bool {
    &&& p.len() > 0
    &&& p.last() != '/'
    &&& forall|i: int| 0 <= i < p.len() ==> #[trigger] p[i] != '\\' && p[i] != ':'
    &&& forall|i: int| 0 <= i < p.len() - 1 ==> !(#[trigger] p[i] == '/' && p[i + 1] == '/')
    &&& forall|i: int|
        0 <= i < p.len() && (i == 0 || p[i - 1] == '/') && #[trigger] p[i] == '.' ==> (i + 1
            < p.len() && p[i + 1] != '/' && !(p[i + 1] == '.' && (i + 2 == p.len() || p[i + 2]
            == '/')))
}

/// The final component of a plain path: what follows its last `/`.
pub open spec fn final_component(p: Seq<char>) -> Seq<char> {
    match last_slash(p) {
        Some(k) => p.subrange(k + 1, p.len() as int),
        None => p,
    }
}

/// The parent of a plain path: what precedes its last `/`, the root `/`
/// when that is the first character, and the empty path without a `/`.
pub open spec fn parent_of(p: Seq<char>) -> Seq<char> {
    match last_slash(p) {
        Some(k) => if k == 0 {
            seq!['/']
        } else {
            p.subrange(0, k)
        },
        None => Seq::empty(),
    }
}

/// A directory that `Path::join` extends the same way on every platform:
/// no `:` (no drive), no two leading separators (no network or verbatim
/// prefix), and no trailing `\`.
pub open spec fn joinable_dir(d: Seq<char>) -> bool {
    &&& forall|i: int| 0 <= i < d.len() ==> #[trigger] d[i] != ':'
    &&& !(d.len() >= 2 && is_sep(d[0]) && is_sep(d[1]))
    &&& (d.len() == 0 || d.last() != '\\')
}

/// A name that every platform reads as relative and without prefix.
pub open spec fn joinable_name(n: Seq<char>) -> bool {
    &&& forall|i: int| 0 <= i < n.len() ==> #[trigger] n[i] != ':'
    &&& (n.len() == 0 || !is_sep(n[0]))
}

/// `r` is `n` joined to `d`: `d` then `n`, with one separator between
/// them unless `d` is empty or already ends with `/`.
pub open spec fn is_join_of(d: Seq<char>, n: Seq<char>, r: Seq<char>) -> bool {
    if d.len() == 0 || d.last() == '/' {
        r == d + n
    } else {
        &&& r.len() == d.len() + 1 + n.len()
        &&& r.subrange(0, d.len() as int) == d
        &&& is_sep(r[d.len() as int])
        &&& r.subrange(d.len() as int + 1, r.len() as int) == n
    }
}

/// `r` is `a` joined to `d`, then `b` joined to that.
pub open spec fn is_join_twice(d: Seq<char>, a: Seq<char>, b: Seq<char>, r: Seq<char>) -> bool {
    &&& r.len() >= b.len() + 1
    &&& is_join_of(d, a, r.subrange(0, r.len() - b.len() - 1))
    &&& is_sep(r[r.len() - b.len() - 1])
    &&& r.subrange(r.len() - b.len(), r.len() as int) == b
}

/// Position of the last separator of any platform (`/` or `\`) in `s`,
/// if any.
pub open spec fn last_sep(s: Seq<char>) -> Option<int>
    decreases s.len(),
{
    if s.len() == 0 {
        None
    } else if is_sep(s.last()) {
        Some(s.len() - 1)
    } else {
        last_sep(s.drop_last())
    }
}

/// What follows the last `/` or `\` of `p`, or all of `p` without one.
pub open spec fn tail_name(p: Seq<char>) -> Seq<char> {
    match last_sep(p) {
        Some(k) => p.subrange(k + 1, p.len() as int),
        None => p,
    }
}

/// `p` ends in a file name that every platform reads alike: what follows
/// its last `/` or `\` is a non-empty name other than `.` and `..`, with
/// no `:`, and `p` does not open with two separators (no network, device
/// or verbatim prefix).  Such a path may hold a drive such as `C:` and
/// `\` separators.  On Windows its final component is that name; on
/// other platforms, which split at `/` alone, the final component is a
/// longer name that ends with it.
pub open spec fn has_clear_file_name(p: Seq<char>) -> bool {
    let t = tail_name(p);
    &&& t.len() > 0
    &&& t != seq!['.']
    &&& t != seq!['.', '.']
    &&& forall|i: int| 0 <= i < t.len() ==> #[trigger] t[i] != ':'
    &&& !(p.len() >= 2 && is_sep(p[0]) && is_sep(p[1]))
}

/// Where the last separator stands: no separator follows it, and without
/// one there is none at all.
pub proof fn lemma_last_sep(s: Seq<char>)
    ensures
        match last_sep(s) {
            Some(k) => 0 <= k < s.len() && is_sep(s[k]) && forall|j: int|
                k < j < s.len() ==> !is_sep(#[trigger] s[j]),
            None => forall|j: int| 0 <= j < s.len() ==> !is_sep(#[trigger] s[j]),
        },
    decreases s.len(),
{
    if s.len() > 0 && !is_sep(s.last()) {
        lemma_last_sep(s.drop_last());
        assert forall|j: int| 0 <= j < s.len() - 1 implies #[trigger] s[j] == s.drop_last()[j] by {}
    }
}

/// The name after the last separator holds no separator.
pub proof fn lemma_tail_name(p: Seq<char>)
    ensures
        forall|i: int| 0 <= i < tail_name(p).len() ==> !is_sep(#[trigger] tail_name(p)[i]),
        tail_name(p).len() <= p.len(),
        p.subrange(p.len() - tail_name(p).len(), p.len() as int) == tail_name(p),
{
    lemma_last_sep(p);
    let t = tail_name(p);
    match last_sep(p) {
        Some(k) => {
            assert forall|i: int| 0 <= i < t.len() implies !is_sep(#[trigger] t[i]) by {
                assert(t[i] == p[k + 1 + i]);
            }
        },
        None => {},
    }
    assert(p.subrange(p.len() - t.len(), p.len() as int) =~= t);
}

pub proof fn lemma_last_slash(s: Seq<char>)
    ensures
        match last_slash(s) {
            Some(k) => 0 <= k < s.len() && s[k] == '/' && forall|j: int|
                k < j < s.len() ==> #[trigger] s[j] != '/',
            None => forall|j: int| 0 <= j < s.len() ==> #[trigger] s[j] != '/',
        },
    decreases s.len(),
{
    if s.len() > 0 && s.last() != '/' {
        lemma_last_slash(s.drop_last());
        assert forall|j: int| 0 <= j < s.len() - 1 implies #[trigger] s[j] == s.drop_last()[j] by {}
    }
}

/// The parts of a plain path: its final component is a non-empty name
/// without separator or `:`, whose first character is not `.`-only; its
/// parent is a joinable directory; and ASCII paths have ASCII parts.
pub proof fn lemma_plain_path_parts(p: Seq<char>)
    requires
        is_plain_path(p),
    ensures
        final_component(p).len() > 0,
        forall|i: int|
            0 <= i < final_component(p).len() ==> #[trigger] final_component(p)[i] != '/'
                && final_component(p)[i] != '\\' && final_component(p)[i] != ':',
        joinable_dir(parent_of(p)),
        is_ascii_text(p) ==> is_ascii_text(final_component(p)),
{
    lemma_last_slash(p);
    let f = final_component(p);
    match last_slash(p) {
        Some(k) => {
            assert forall|i: int| 0 <= i < f.len() implies #[trigger] f[i] != '/' && f[i] != '\\'
                && f[i] != ':' by {
                assert(f[i] == p[k + 1 + i]);
            }
            if is_ascii_text(p) {
                assert forall|i: int| 0 <= i < f.len() implies (#[trigger] f[i] as u32) < 128 by {
                    assert(f[i] == p[k + 1 + i]);
                }
            }
            let d = parent_of(p);
            if k > 0 {
                assert forall|i: int| 0 <= i < d.len() implies #[trigger] d[i] != ':' by {
                    assert(d[i] == p[i]);
                }
                assert(d[0] == p[0]);
                if d.len() >= 2 {
                    assert(d[1] == p[1]);
                    assert(!(p[0] == '/' && p[1] == '/'));
                }
                assert(d.last() == p[k - 1]);
            }
        },
        None => {
            assert(parent_of(p) =~= Seq::<char>::empty());
        },
    }
}

/// A stem of a name with no separator or `:`, followed by a suffix with
/// no `:`, is a joinable name.
pub proof fn lemma_stem_suffix_joinable(name: Seq<char>, suffix: Seq<char>)
    requires
        name.len() > 0,
        forall|i: int| 0 <= i < name.len() ==> #[trigger] name[i] != '/' && name[i] != '\\' && name[i]
            != ':',
        forall|i: int| 0 <= i < suffix.len() ==> #[trigger] suffix[i] != ':',
    ensures
        joinable_name(stem_of(name) + suffix),
        stem_of(name).len() > 0,
{
    crate::paths::lemma_stem_is_prefix(name);
    let s = stem_of(name);
    let n = s + suffix;
    assert(s[0] == name[0]);
    assert forall|i: int| 0 <= i < n.len() implies #[trigger] n[i] != ':' by {
        if i < s.len() {
            assert(n[i] == name[i]);
        } else {
            assert(n[i] == suffix[i - s.len()]);
        }
    }
    assert(n[0] == name[0]);
}

/// A subrange of ASCII text is ASCII text.
pub proof fn lemma_ascii_subrange(s: Seq<char>, a: int, b: int)
    requires
        is_ascii_text(s),
        0 <= a <= b <= s.len(),
    ensures
        is_ascii_text(s.subrange(a, b)),
{
    assert forall|i: int| 0 <= i < b - a implies (#[trigger] s.subrange(a, b)[i] as u32) < 128 by {
        assert(s.subrange(a, b)[i] == s[a + i]);
    }
}

/// Joining a non-empty name with no `:` whose last character is not a
/// separator gives a joinable directory that does not end with `/`.
pub proof fn lemma_join_gives_dir(d: Seq<char>, a: Seq<char>, r: Seq<char>)
    requires
        joinable_dir(d),
        joinable_name(a),
        a.len() > 0,
        !is_sep(a.last()),
        is_join_of(d, a, r),
    ensures
        joinable_dir(r),
        r.len() > 0,
        r.last() != '/',
{
    if d.len() == 0 || d.last() == '/' {
        assert(r == d + a);
        assert forall|i: int| 0 <= i < r.len() implies #[trigger] r[i] != ':' by {
            if i < d.len() {
                assert(r[i] == d[i]);
            } else {
                assert(r[i] == a[i - d.len()]);
            }
        }
        assert(r.last() == a.last());
        if d.len() == 0 {
            assert(r[0] == a[0]);
        } else if d.len() == 1 {
            assert(r[1] == a[0]);
        } else {
            assert(r[0] == d[0] && r[1] == d[1]);
        }
    } else {
        assert forall|i: int| 0 <= i < r.len() implies #[trigger] r[i] != ':' by {
            if i < d.len() {
                assert(r[i] == r.subrange(0, d.len() as int)[i]);
            } else if i > d.len() {
                assert(r[i] == r.subrange(d.len() as int + 1, r.len() as int)[i - d.len() - 1]);
            }
        }
        assert(r.last() == r.subrange(d.len() as int + 1, r.len() as int).last());
        assert(r[0] == r.subrange(0, d.len() as int)[0]);
        if d.len() >= 2 {
            assert(r[1] == r.subrange(0, d.len() as int)[1]);
        }
    }
}

/// ASCII lower case is already lower case.
pub proof fn lemma_ascii_lowercase_idempotent(s: Seq<char>)
    ensures
        ascii_lowercase(ascii_lowercase(s)) == ascii_lowercase(s),
{
    assert(ascii_lowercase(ascii_lowercase(s)) =~= ascii_lowercase(s));
}

/// A plain path is its final component joined to its parent.
pub proof fn lemma_plain_path_rebuild(p: Seq<char>)
    requires
        is_plain_path(p),
    ensures
        is_join_of(parent_of(p), final_component(p), p),
{
    lemma_last_slash(p);
    match last_slash(p) {
        Some(k) => {
            if k == 0 {
                assert(seq!['/'] + p.subrange(1, p.len() as int) =~= p);
            } else {
                let d = p.subrange(0, k);
                assert(d.last() == p[k - 1]);
                assert(p[k - 1] != '/');
                assert(p.subrange(0, d.len() as int) =~= d);
                assert(p.subrange(d.len() as int + 1, p.len() as int) =~= final_component(p));
            }
        },
        None => {
            assert(Seq::<char>::empty() + p =~= p);
        },
    }
}

/// Joining two names to one directory gives one path only if the names
/// are the same.
pub proof fn lemma_join_names_equal(d: Seq<char>, x: Seq<char>, y: Seq<char>, r: Seq<char>)
    requires
        is_join_of(d, x, r),
        is_join_of(d, y, r),
    ensures
        x == y,
{
    if d.len() == 0 || d.last() == '/' {
        assert(x =~= r.subrange(d.len() as int, r.len() as int));
        assert(y =~= r.subrange(d.len() as int, r.len() as int));
    }
}

} // verus!
