//! Safe filename derivation for exported Markdown files.
//!
//! The name base is the last non-empty path segment of the URL, or its host
//! when the path is empty or just `/`. Every character outside
//! `[A-Za-z0-9._-]` becomes `_`, `.md` is appended, and a name that would be
//! empty or all underscores is replaced by a fixed placeholder.

use vstd::prelude::*;

use crate::text::{
    find_char, find_exact, first_at, from_chars, is_alnum_c, is_alnum_char,
    lemma_first_at_bounds, push_str_chars, to_chars,
};

verus! {

/// A character that may stand in a filename.
pub open spec fn is_safe_c(c: char) -> bool {
    is_alnum_c(c) || c == '.' || c == '-' || c == '_'
}

pub fn is_safe_char(c: char) -> (r: bool)
    ensures
        r == is_safe_c(c),
{
    is_alnum_char(c) || c == '.' || c == '-' || c == '_'
}

/// `s` without its trailing slashes.
pub open spec fn drop_trailing_slashes(s: Seq<char>) -> Seq<char>
    decreases s.len(),
{
    if s.len() > 0 && s[s.len() - 1] == '/' {
        drop_trailing_slashes(s.take(s.len() - 1))
    } else {
        s
    }
}

/// The characters of `s` after its last `/`; all of `s` when it has none.
pub open spec fn after_last_slash(s: Seq<char>) -> Seq<char>
    decreases s.len(),
{
    if s.len() == 0 {
        s
    } else if s[s.len() - 1] == '/' {
        Seq::empty()
    } else {
        after_last_slash(s.take(s.len() - 1)) + seq![s[s.len() - 1]]
    }
}

/// The last non-empty `/`-separated segment of `s`, or empty when `s` holds
/// only slashes or nothing.
pub open spec fn last_segment(s: Seq<char>) -> Seq<char> {
    after_last_slash(drop_trailing_slashes(s))
}

/// The name base of a URL: the last non-empty path segment, the host when
/// the path is empty or `/`, and for text without a scheme its last
/// non-empty `/`-segment.
pub open spec fn name_base(url: Seq<char>) -> Seq<char> {
    match first_at(url, 0, "://"@) {
        Some(p) => {
            let rest = url.skip(p + 3);
            match first_at(rest, 0, seq!['/']) {
                Some(h) => {
                    let host = rest.take(h);
                    let path = rest.skip(h);
                    let seg = last_segment(path);
                    if seg.len() == 0 {
                        host
                    } else {
                        seg
                    }
                },
                None => rest,
            }
        },
        None => last_segment(url),
    }
}

/// The name base with every unsafe character replaced by `_`.
pub open spec fn sanitized(url: Seq<char>) -> Seq<char> {
    name_base(url).map_values(
        |c: char|
            if is_safe_c(c) {
                c
            } else {
                '_'
            },
    )
}

/// A sanitized name of underscores alone carries no information.
pub open spec fn all_underscores(s: Seq<char>) -> bool {
    forall|i: int| 0 <= i < s.len() ==> s[i] == '_'
}

/// What `generate_filename_from_url` returns.
pub open spec fn filename_spec(url: Seq<char>) -> Seq<char> {
    let n = sanitized(url);
    if n.len() == 0 || all_underscores(n) {
        "converted_content.md"@
    } else {
        n + ".md"@
    }
}

proof fn lemma_drop_trailing_at(s: Seq<char>, b: int)
    requires
        0 <= b <= s.len(),
        forall|j: int| b <= j < s.len() ==> s[j] == '/',
        b > 0 ==> s[b - 1] != '/',
    ensures
        drop_trailing_slashes(s) == s.take(b),
    decreases s.len() - b,
{
    if b < s.len() {
        assert(s[s.len() - 1] == '/');
        lemma_drop_trailing_at(s.take(s.len() - 1), b);
    } else {
        if s.len() > 0 && s[s.len() - 1] == '/' {
            assert(false);
        }
        assert(s.take(s.len() as int) == s);
    }
}

proof fn lemma_after_last_at(s: Seq<char>, a: int)
    requires
        0 <= a <= s.len(),
        forall|j: int| a <= j < s.len() ==> s[j] != '/',
        a > 0 ==> s[a - 1] == '/',
    ensures
        after_last_slash(s) == s.skip(a),
    decreases s.len() - a,
{
    if a == s.len() {
        if s.len() == 0 {
            assert(after_last_slash(s) =~= s.skip(a));
        } else {
            assert(s[s.len() - 1] == '/');
            assert(after_last_slash(s) =~= s.skip(a));
        }
    } else {
        assert(s[s.len() - 1] != '/');
        let t = s.take(s.len() - 1);
        lemma_after_last_at(t, a);
        assert(after_last_slash(s) == t.skip(a) + seq![s[s.len() - 1]]);
        assert(t.skip(a) + seq![s[s.len() - 1]] =~= s.skip(a));
    }
}

/// The last non-empty `/`-separated segment of `v`, executable side.
fn last_segment_exec(v: &Vec<char>) -> (r: Vec<char>)
    ensures
        r@ == last_segment(v@),
{
    let mut b: usize = v.len();
    while b > 0 && v[b - 1] == '/'
        invariant
            b <= v@.len(),
            forall|j: int| b <= j < v@.len() ==> v@[j] == '/',
        decreases b,
    {
        b = b - 1;
    }
    proof {
        lemma_drop_trailing_at(v@, b as int);
    }
    let mut a: usize = b;
    while a > 0 && v[a - 1] != '/'
        invariant
            a <= b <= v@.len(),
            forall|j: int| a <= j < b ==> v@[j] != '/',
        decreases a,
    {
        a = a - 1;
    }
    proof {
        let t = v@.take(b as int);
        assert(forall|j: int| a <= j < t.len() ==> t[j] != '/');
        lemma_after_last_at(t, a as int);
        assert(t.skip(a as int) == v@.subrange(a as int, b as int));
    }
    crate::text::copy_range(v, a, b)
}

/// Replace every unsafe character of `v` by `_`.
fn sanitize_exec(v: &Vec<char>) -> (r: Vec<char>)
    ensures
        r@ == v@.map_values(
            |c: char|
                if is_safe_c(c) {
                    c
                } else {
                    '_'
                },
        ),
{
    let ghost f = |c: char|
        if is_safe_c(c) {
            c
        } else {
            '_'
        };
    let mut out: Vec<char> = Vec::new();
    let mut i: usize = 0;
    while i < v.len()
        invariant
            i <= v@.len(),
            out@ == v@.take(i as int).map_values(f),
        decreases v@.len() - i,
    {
        if is_safe_char(v[i]) {
            out.push(v[i]);
        } else {
            out.push('_');
        }
        assert(v@.take(i + 1).map_values(f) =~= v@.take(i as int).map_values(f).push(
            f(v@[i as int]),
        ));
        i = i + 1;
    }
    assert(v@.take(v@.len() as int) == v@);
    out
}

fn all_underscores_exec(v: &Vec<char>) -> (r: bool)
    ensures
        r == all_underscores(v@),
{
    let mut i: usize = 0;
    while i < v.len()
        invariant
            i <= v@.len(),
            forall|j: int| 0 <= j < i ==> v@[j] == '_',
        decreases v@.len() - i,
    {
        if v[i] != '_' {
            return false;
        }
        i = i + 1;
    }
    true
}

/// Derive a safe `.md` filename from a URL: the last non-empty path segment
/// (or the host for a root URL), unsafe characters replaced by `_`, with a
/// fixed placeholder when nothing usable remains.
pub fn generate_filename_from_url(url: &str) -> (r: String)
    ensures
        r@ == filename_spec(url@),
{
    let v = to_chars(url);
    let base: Vec<char> = match find_exact(&v, 0, "://") {
        Some(p) => {
            proof {
                lemma_first_at_bounds(v@, 0, "://"@);
                reveal_strlit("://");
            }
            let rest = crate::text::copy_range(&v, p + 3, v.len());
            assert(rest@ == v@.skip(p + 3));
            match find_char(&rest, 0, '/') {
                Some(h) => {
                    proof {
                        lemma_first_at_bounds(rest@, 0, seq!['/']);
                    }
                    let path = crate::text::copy_range(&rest, h, rest.len());
                    assert(path@ == rest@.skip(h as int));
                    let seg = last_segment_exec(&path);
                    if seg.len() == 0 {
                        let host = crate::text::copy_range(&rest, 0, h);
                        assert(host@ == rest@.take(h as int));
                        host
                    } else {
                        seg
                    }
                },
                None => rest,
            }
        },
        None => last_segment_exec(&v),
    };
    let name = sanitize_exec(&base);
    if name.len() == 0 || all_underscores_exec(&name) {
        String::from_str("converted_content.md")
    } else {
        let mut out = name;
        push_str_chars(&mut out, ".md");
        from_chars(&out)
    }
}

} // verus!
