//! Link extractor: finds `href=` references in raw HTML, resolves them to
//! absolute form against a base URL, filters non-navigable and non-document
//! targets, and returns them deduplicated in ascending lexical order.
//!
//! The scan is pure text work: `href=` is matched case-insensitively, a
//! quoted value runs to its closing quote, an unquoted one to the next
//! whitespace or `>`, and a value with no closing delimiter is skipped with
//! the scan resuming after the marker. Values that are empty or carry a
//! fragment-only, `mailto:`, `tel:`, `javascript:` or `data:` target are
//! rejected; the rest are resolved (kept as-is with a scheme, `https:` put
//! before `//`, resolved against the base's origin for `/` and against its
//! directory otherwise), filtered by known non-document extensions, cut at
//! any `#` fragment, and lose one trailing slash when the path is deeper
//! than the root.

use vstd::prelude::*;

use crate::text::{
    copy_range, find_char, find_exact, first_at, from_chars, is_space, is_space_c,
    lemma_first_at_bounds, lower_range, lower_seq, matches_at, matches_ci, matches_ci_at,
    matches_exact, push_all, to_chars,
};

verus! {

/// An unquoted attribute value ends at whitespace or `>`.
pub open spec fn is_delim_c(c: char) -> bool {
    is_space_c(c) || c == '>'
}

/// Position of the first value delimiter at or after `from`.
pub open spec fn first_delim(s: Seq<char>, from: int) -> Option<int>
    decreases s.len() - from,
{
    if from < 0 || from >= s.len() {
        None
    } else if is_delim_c(s[from]) {
        Some(from)
    } else {
        first_delim(s, from + 1)
    }
}

proof fn lemma_first_delim_some(s: Seq<char>, from: int, k: int)
    requires
        0 <= from <= k < s.len(),
        is_delim_c(s[k]),
        forall|j: int| from <= j < k ==> !is_delim_c(s[j]),
    ensures
        first_delim(s, from) == Some(k),
    decreases k - from,
{
    if from < k {
        lemma_first_delim_some(s, from + 1, k);
    }
}

proof fn lemma_first_delim_none(s: Seq<char>, from: int)
    requires
        0 <= from,
        forall|j: int| from <= j < s.len() ==> !is_delim_c(s[j]),
    ensures
        first_delim(s, from) is None,
    decreases s.len() - from,
{
    if from < s.len() {
        lemma_first_delim_none(s, from + 1);
    }
}

/// A found delimiter stands at or after the search start, within the text.
pub proof fn lemma_first_delim_bounds(s: Seq<char>, from: int)
    requires
        0 <= from,
        first_delim(s, from) is Some,
    ensures
        from <= first_delim(s, from)->0 < s.len(),
        is_delim_c(s[first_delim(s, from)->0]),
    decreases s.len() - from,
{
    if from < s.len() && !is_delim_c(s[from]) {
        lemma_first_delim_bounds(s, from + 1);
    }
}

fn find_delim(v: &Vec<char>, from: usize) -> (r: Option<usize>)
    ensures
        match r {
            Some(k) => first_delim(v@, from as int) == Some(k as int) && from <= k < v@.len(),
            None => first_delim(v@, from as int) is None,
        },
{
    let mut i: usize = from;
    if i > v.len() {
        return None;
    }
    while i < v.len()
        invariant
            from <= i <= v@.len(),
            forall|j: int| from <= j < i ==> !is_delim_c(v@[j]),
        decreases v@.len() - i,
    {
        if is_space(v[i]) || v[i] == '>' {
            proof {
                lemma_first_delim_some(v@, from as int, i as int);
            }
            return Some(i);
        }
        i = i + 1;
    }
    proof {
        lemma_first_delim_none(v@, from as int);
    }
    None
}

/// Position of the last `/` of `s`, if it has one.
pub open spec fn last_slash(s: Seq<char>) -> Option<int>
    decreases s.len(),
{
    if s.len() == 0 {
        None
    } else if s[s.len() - 1] == '/' {
        Some(s.len() - 1)
    } else {
        last_slash(s.take(s.len() - 1))
    }
}

proof fn lemma_last_slash_some(s: Seq<char>, k: int)
    requires
        0 <= k < s.len(),
        s[k] == '/',
        forall|j: int| k < j < s.len() ==> s[j] != '/',
    ensures
        last_slash(s) == Some(k),
    decreases s.len(),
{
    if k < s.len() - 1 {
        assert(s[s.len() - 1] != '/');
        let t = s.take(s.len() - 1);
        assert(t[k] == s[k]);
        lemma_last_slash_some(t, k);
    }
}

proof fn lemma_last_slash_none(s: Seq<char>)
    requires
        forall|j: int| 0 <= j < s.len() ==> s[j] != '/',
    ensures
        last_slash(s) is None,
    decreases s.len(),
{
    if s.len() > 0 {
        let t = s.take(s.len() - 1);
        assert(forall|j: int| 0 <= j < t.len() ==> t[j] == s[j]);
        lemma_last_slash_none(t);
    }
}

fn last_slash_exec(v: &Vec<char>) -> (r: Option<usize>)
    ensures
        match r {
            Some(k) => last_slash(v@) == Some(k as int) && k < v@.len(),
            None => last_slash(v@) is None,
        },
{
    let mut i: usize = v.len();
    while i > 0
        invariant
            i <= v@.len(),
            forall|j: int| i <= j < v@.len() ==> v@[j] != '/',
        decreases i,
    {
        if v[i - 1] == '/' {
            proof {
                lemma_last_slash_some(v@, i - 1 as int);
            }
            return Some(i - 1);
        }
        i = i - 1;
    }
    proof {
        lemma_last_slash_none(v@);
    }
    None
}

/// How many times `c` occurs in `s` at or after `i`.
pub open spec fn count_from(s: Seq<char>, i: int, c: char) -> int
    decreases s.len() - i,
{
    if i < 0 || i >= s.len() {
        0
    } else if s[i] == c {
        1 + count_from(s, i + 1, c)
    } else {
        count_from(s, i + 1, c)
    }
}

fn count_slashes(v: &Vec<char>) -> (r: usize)
    ensures
        r == count_from(v@, 0, '/'),
{
    let mut cnt: usize = 0;
    let mut i: usize = 0;
    while i < v.len()
        invariant
            i <= v@.len(),
            cnt <= i,
            cnt + count_from(v@, i as int, '/') == count_from(v@, 0, '/'),
        decreases v@.len() - i,
    {
        if v[i] == '/' {
            cnt = cnt + 1;
        }
        i = i + 1;
    }
    cnt
}

/// `ext` stands at the end of the first `pend` characters of `s`.
pub open spec fn ends_with_at(s: Seq<char>, pend: int, ext: Seq<char>) -> bool {
    ext.len() <= pend <= s.len() && matches_at(s, pend - ext.len(), ext)
}

fn ends_ext(low: &Vec<char>, pend: usize, ext: &str) -> (b: bool)
    requires
        pend <= low@.len(),
    ensures
        b == ends_with_at(low@, pend as int, ext@),
{
    let el = ext.unicode_len();
    if el <= pend {
        matches_exact(low, pend - el, ext)
    } else {
        false
    }
}

/// Where the path of a lowered URL ends: at the first `?`, else at the first
/// `#`, else at the end.
pub open spec fn path_end(low: Seq<char>) -> int {
    match first_at(low, 0, seq!['?']) {
        Some(q) => q,
        None => match first_at(low, 0, seq!['#']) {
            Some(h) => h,
            None => low.len() as int,
        },
    }
}

/// The URL's path ends in a known non-document extension, compared
/// case-insensitively before any query or fragment.
pub open spec fn has_skip_ext(abs: Seq<char>) -> bool {
    let low = lower_seq(abs);
    let pe = path_end(low);
    ||| ends_with_at(low, pe, ".jpg"@)
    ||| ends_with_at(low, pe, ".jpeg"@)
    ||| ends_with_at(low, pe, ".png"@)
    ||| ends_with_at(low, pe, ".gif"@)
    ||| ends_with_at(low, pe, ".webp"@)
    ||| ends_with_at(low, pe, ".svg"@)
    ||| ends_with_at(low, pe, ".ico"@)
    ||| ends_with_at(low, pe, ".css"@)
    ||| ends_with_at(low, pe, ".js"@)
    ||| ends_with_at(low, pe, ".json"@)
    ||| ends_with_at(low, pe, ".xml"@)
    ||| ends_with_at(low, pe, ".zip"@)
    ||| ends_with_at(low, pe, ".tar"@)
    ||| ends_with_at(low, pe, ".gz"@)
    ||| ends_with_at(low, pe, ".rar"@)
    ||| ends_with_at(low, pe, ".7z"@)
    ||| ends_with_at(low, pe, ".exe"@)
    ||| ends_with_at(low, pe, ".dmg"@)
    ||| ends_with_at(low, pe, ".iso"@)
    ||| ends_with_at(low, pe, ".app"@)
    ||| ends_with_at(low, pe, ".mp4"@)
    ||| ends_with_at(low, pe, ".mp3"@)
    ||| ends_with_at(low, pe, ".avi"@)
    ||| ends_with_at(low, pe, ".mov"@)
    ||| ends_with_at(low, pe, ".wav"@)
    ||| ends_with_at(low, pe, ".ttf"@)
    ||| ends_with_at(low, pe, ".woff"@)
    ||| ends_with_at(low, pe, ".woff2"@)
    ||| ends_with_at(low, pe, ".eot"@)
}

fn has_skip_ext_exec(abs: &Vec<char>) -> (b: bool)
    ensures
        b == has_skip_ext(abs@),
{
    let low = lower_range(abs, 0, abs.len());
    assert(abs@.subrange(0, abs@.len() as int) == abs@);
    let pe: usize = match find_char(&low, 0, '?') {
        Some(q) => {
            proof {
                lemma_first_at_bounds(low@, 0, seq!['?']);
            }
            q
        },
        None => match find_char(&low, 0, '#') {
            Some(h) => {
                proof {
                    lemma_first_at_bounds(low@, 0, seq!['#']);
                }
                h
            },
            None => low.len(),
        },
    };
    assert(pe as int == path_end(low@));
    ends_ext(&low, pe, ".jpg") || ends_ext(&low, pe, ".jpeg") || ends_ext(&low, pe, ".png")
        || ends_ext(&low, pe, ".gif") || ends_ext(&low, pe, ".webp") || ends_ext(&low, pe, ".svg")
        || ends_ext(&low, pe, ".ico") || ends_ext(&low, pe, ".css") || ends_ext(&low, pe, ".js")
        || ends_ext(&low, pe, ".json") || ends_ext(&low, pe, ".xml") || ends_ext(&low, pe, ".zip")
        || ends_ext(&low, pe, ".tar") || ends_ext(&low, pe, ".gz") || ends_ext(&low, pe, ".rar")
        || ends_ext(&low, pe, ".7z") || ends_ext(&low, pe, ".exe") || ends_ext(&low, pe, ".dmg")
        || ends_ext(&low, pe, ".iso") || ends_ext(&low, pe, ".app") || ends_ext(&low, pe, ".mp4")
        || ends_ext(&low, pe, ".mp3") || ends_ext(&low, pe, ".avi") || ends_ext(&low, pe, ".mov")
        || ends_ext(&low, pe, ".wav") || ends_ext(&low, pe, ".ttf") || ends_ext(&low, pe, ".woff")
        || ends_ext(&low, pe, ".woff2") || ends_ext(&low, pe, ".eot")
}

/// Resolve an accepted href value to absolute form against the base URL.
pub open spec fn resolve_spec(value: Seq<char>, base: Seq<char>) -> Seq<char> {
    if matches_at(value, 0, "http://"@) || matches_at(value, 0, "https://"@) {
        value
    } else if matches_at(value, 0, "//"@) {
        "https:"@ + value
    } else if value.len() > 0 && value[0] == '/' {
        match first_at(base, 0, "://"@) {
            Some(p) => match first_at(base, p + 3, seq!['/']) {
                Some(h) => base.take(h) + value,
                None => base + value,
            },
            None => value,
        }
    } else {
        match last_slash(base) {
            Some(ls) => base.take(ls + 1) + value,
            None => base + value,
        }
    }
}

/// Cut the resolved URL at its `#` fragment, and drop one trailing slash
/// when the URL is deeper than a root URL.
pub open spec fn normalize_spec(abs: Seq<char>) -> Seq<char> {
    let nf = match first_at(abs, 0, seq!['#']) {
        Some(h) => abs.take(h),
        None => abs,
    };
    if nf.len() > 0 && nf[nf.len() - 1] == '/' && count_from(nf, 0, '/') > 3 {
        nf.take(nf.len() - 1)
    } else {
        nf
    }
}

/// Classify one href value: `None` for a rejected target, else the resolved,
/// filtered and normalized absolute URL.
pub open spec fn accept_resolve(value: Seq<char>, base: Seq<char>) -> Option<Seq<char>> {
    if value.len() == 0 || value[0] == '#' || matches_at(value, 0, "mailto:"@) || matches_at(
        value,
        0,
        "tel:"@,
    ) || matches_at(value, 0, "javascript:"@) || matches_at(value, 0, "data:"@) {
        None
    } else {
        let abs = resolve_spec(value, base);
        if has_skip_ext(abs) {
            None
        } else {
            Some(normalize_spec(abs))
        }
    }
}

fn accept_resolve_exec(value: &Vec<char>, base: &Vec<char>) -> (r: Option<Vec<char>>)
    ensures
        match r {
            Some(l) => accept_resolve(value@, base@) == Some(l@),
            None => accept_resolve(value@, base@) is None,
        },
{
    proof {
        reveal_strlit("://");
    }
    let bn: usize = base.len();
    if value.len() == 0 {
        return None;
    }
    if value[0] == '#' {
        return None;
    }
    if matches_exact(value, 0, "mailto:") || matches_exact(value, 0, "tel:") || matches_exact(
        value,
        0,
        "javascript:",
    ) || matches_exact(value, 0, "data:") {
        return None;
    }
    let abs: Vec<char> = if matches_exact(value, 0, "http://") || matches_exact(
        value,
        0,
        "https://",
    ) {
        copy_range(value, 0, value.len())
    } else if matches_exact(value, 0, "//") {
        let mut a = to_chars("https:");
        push_all(&mut a, value);
        a
    } else if value[0] == '/' {
        match find_exact(base, 0, "://") {
            Some(p) => {
                proof {
                    lemma_first_at_bounds(base@, 0, "://"@);
                }
                match find_char(base, p + 3, '/') {
                    Some(h) => {
                        proof {
                            lemma_first_at_bounds(base@, p + 3 as int, seq!['/']);
                        }
                        let mut a = copy_range(base, 0, h);
                        push_all(&mut a, value);
                        a
                    },
                    None => {
                        let mut a = copy_range(base, 0, base.len());
                        push_all(&mut a, value);
                        assert(base@.subrange(0, base@.len() as int) == base@);
                        a
                    },
                }
            },
            None => copy_range(value, 0, value.len()),
        }
    } else {
        match last_slash_exec(base) {
            Some(ls) => {
                let mut a = copy_range(base, 0, ls + 1);
                push_all(&mut a, value);
                a
            },
            None => {
                let mut a = copy_range(base, 0, base.len());
                push_all(&mut a, value);
                assert(base@.subrange(0, base@.len() as int) == base@);
                a
            },
        }
    };
    assert(value@.subrange(0, value@.len() as int) == value@);
    assert(abs@ == resolve_spec(value@, base@));
    if has_skip_ext_exec(&abs) {
        return None;
    }
    let nf: Vec<char> = match find_char(&abs, 0, '#') {
        Some(h) => {
            proof {
                lemma_first_at_bounds(abs@, 0, seq!['#']);
            }
            copy_range(&abs, 0, h)
        },
        None => abs,
    };
    let res: Vec<char> = if nf.len() > 0 && nf[nf.len() - 1] == '/' && count_slashes(&nf) > 3 {
        copy_range(&nf, 0, nf.len() - 1)
    } else {
        nf
    };
    Some(res)
}

/// All accepted, resolved links of the scan from position `i`, in scan
/// order, duplicates included.
pub open spec fn links_from(s: Seq<char>, base: Seq<char>, i: int) -> Seq<Seq<char>>
    decreases s.len() - i,
    via links_from_dec
{
    if i < 0 || i + 5 > s.len() {
        Seq::empty()
    } else if matches_ci_at(s, i, "href="@) {
        let vstart = i + 5;
        if vstart < s.len() && (s[vstart] == '"' || s[vstart] == '\'') {
            match first_at(s, vstart + 1, seq![s[vstart]]) {
                Some(e) => {
                    let rest = links_from(s, base, e + 1);
                    match accept_resolve(s.subrange(vstart + 1, e), base) {
                        Some(l) => seq![l] + rest,
                        None => rest,
                    }
                },
                None => links_from(s, base, vstart),
            }
        } else {
            match first_delim(s, vstart) {
                Some(j) => {
                    let rest = links_from(s, base, j);
                    match accept_resolve(s.subrange(vstart, j), base) {
                        Some(l) => seq![l] + rest,
                        None => rest,
                    }
                },
                None => links_from(s, base, vstart),
            }
        }
    } else {
        links_from(s, base, i + 1)
    }
}

#[via_fn]
proof fn links_from_dec(s: Seq<char>, base: Seq<char>, i: int) {
    if 0 <= i && i + 5 <= s.len() && matches_ci_at(s, i, "href="@) {
        let vstart = i + 5;
        if vstart < s.len() && (s[vstart] == '"' || s[vstart] == '\'') {
            if first_at(s, vstart + 1, seq![s[vstart]]) is Some {
                lemma_first_at_bounds(s, vstart + 1, seq![s[vstart]]);
            }
        } else {
            if first_delim(s, vstart) is Some {
                lemma_first_delim_bounds(s, vstart);
            }
        }
    }
}

/// Push the accepted resolution of one value, if it has one.
fn maybe_push(out: &mut Vec<Vec<char>>, value: &Vec<char>, base: &Vec<char>)
    ensures
        old(out).deep_view().len() <= final(out).deep_view().len(),
        final(out).deep_view() == match accept_resolve(value@, base@) {
            Some(l) => old(out).deep_view().push(l),
            None => old(out).deep_view(),
        },
{
    match accept_resolve_exec(value, base) {
        Some(l) => {
            let ghost pre = out.deep_view();
            let ghost lval = l;
            out.push(l);
            proof {
                assert forall|k: int|
                    0 <= k < out.deep_view().len() implies out.deep_view()[k] == pre.push(
                    lval@,
                )[k] by {
                    assert(out.deep_view()[k] == out@[k].deep_view());
                    if k == pre.len() {
                        assert(out@[k] == lval);
                        lemma_chars_deep(lval);
                    }
                }
                assert(out.deep_view() =~= pre.push(lval@));
            }
        },
        None => {},
    }
}

/// Scan the whole text for href values, in order.
fn scan_links(v: &Vec<char>, base: &Vec<char>) -> (r: Vec<Vec<char>>)
    ensures
        r.deep_view() == links_from(v@, base@, 0),
{
    proof {
        reveal_strlit("href=");
    }
    let n = v.len();
    let mut out: Vec<Vec<char>> = Vec::new();
    let mut i: usize = 0;
    assert(out.deep_view() =~= Seq::<Seq<char>>::empty());
    assert(Seq::<Seq<char>>::empty() + links_from(v@, base@, 0) =~= links_from(v@, base@, 0));
    while n - i >= 5
        invariant
            i <= n == v@.len(),
            links_from(v@, base@, 0) == out.deep_view() + links_from(v@, base@, i as int),
        decreases n - i,
    {
        let ghost pre = out.deep_view();
        if matches_ci(v, i, "href=") {
            let vstart = i + 5;
            let quoted: bool = vstart < n && (v[vstart] == '"' || v[vstart] == '\'');
            if quoted {
                let qc = v[vstart];
                match find_char(v, vstart + 1, qc) {
                    Some(e) => {
                        proof {
                            lemma_first_at_bounds(v@, vstart + 1 as int, seq![qc]);
                        }
                        let value = copy_range(v, vstart + 1, e);
                        maybe_push(&mut out, &value, base);
                        proof {
                            let rest = links_from(v@, base@, e + 1);
                            match accept_resolve(value@, base@) {
                                Some(l) => {
                                    assert(pre + (seq![l] + rest) =~= pre.push(l) + rest);
                                },
                                None => {},
                            }
                        }
                        i = e + 1;
                    },
                    None => {
                        i = vstart;
                    },
                }
            } else {
                match find_delim(v, vstart) {
                    Some(j) => {
                        let value = copy_range(v, vstart, j);
                        maybe_push(&mut out, &value, base);
                        proof {
                            let rest = links_from(v@, base@, j as int);
                            match accept_resolve(value@, base@) {
                                Some(l) => {
                                    assert(pre + (seq![l] + rest) =~= pre.push(l) + rest);
                                },
                                None => {},
                            }
                        }
                        i = j;
                    },
                    None => {
                        i = vstart;
                    },
                }
            }
        } else {
            i = i + 1;
        }
    }
    assert(links_from(v@, base@, i as int) =~= Seq::<Seq<char>>::empty());
    assert(out.deep_view() + Seq::<Seq<char>>::empty() =~= out.deep_view());
    out
}

/// Strict lexicographic order on texts, compared from position `k` on.
pub open spec fn lex_lt_from(a: Seq<char>, b: Seq<char>, k: int) -> bool
    decreases a.len() - k,
{
    if k < 0 || k >= b.len() {
        false
    } else if k >= a.len() {
        true
    } else if a[k] != b[k] {
        (a[k] as u32) < (b[k] as u32)
    } else {
        lex_lt_from(a, b, k + 1)
    }
}

/// A character buffer's deep view is its view.
proof fn lemma_chars_deep(v: Vec<char>)
    ensures
        v.deep_view() == v@,
{
    assert(v.deep_view() =~= v@);
}

/// Strict lexicographic order on texts.
pub open spec fn lex_lt(a: Seq<char>, b: Seq<char>) -> bool {
    lex_lt_from(a, b, 0)
}

/// Adjacent elements are strictly ascending, so the list is sorted and free
/// of duplicates.
pub open spec fn sorted_links(s: Seq<Seq<char>>) -> bool {
    forall|i: int| 0 <= i && i + 1 < s.len() ==> lex_lt(#[trigger] s[i], s[i + 1])
}

fn lex_lt_vec(a: &Vec<char>, b: &Vec<char>) -> (r: bool)
    ensures
        r == lex_lt(a@, b@),
{
    let mut k: usize = 0;
    while k < a.len() && k < b.len()
        invariant
            k <= a@.len(),
            k <= b@.len(),
            lex_lt(a@, b@) == lex_lt_from(a@, b@, k as int),
        decreases a@.len() - k,
    {
        if a[k] != b[k] {
            return (a[k] as u32) < (b[k] as u32);
        }
        k = k + 1;
    }
    k < b.len()
}

fn eq_vec_chars(a: &Vec<char>, b: &Vec<char>) -> (r: bool)
    ensures
        r == (a@ == b@),
{
    if a.len() != b.len() {
        return false;
    }
    let mut k: usize = 0;
    while k < a.len()
        invariant
            k <= a@.len() == b@.len(),
            forall|j: int| 0 <= j < k ==> a@[j] == b@[j],
        decreases a@.len() - k,
    {
        if a[k] != b[k] {
            return false;
        }
        k = k + 1;
    }
    assert(a@ =~= b@);
    true
}

/// Distinct characters have distinct code points, so one is smaller.
proof fn lemma_char_cast_distinct(c: char, d: char)
    requires
        c != d,
    ensures
        (c as u32) < (d as u32) || (d as u32) < (c as u32),
{
    if (c as u32) == (d as u32) {
        assert(c == d);
    }
}

/// Two texts are ordered one way or the other, or they are equal.
proof fn lemma_lex_tri_from(a: Seq<char>, b: Seq<char>, k: int)
    requires
        0 <= k <= a.len(),
        k <= b.len(),
        forall|j: int| 0 <= j < k ==> a[j] == b[j],
    ensures
        lex_lt_from(a, b, k) || lex_lt_from(b, a, k) || a == b,
    decreases a.len() - k,
{
    if k == b.len() {
        if k == a.len() {
            assert(a =~= b);
        }
    } else if k < a.len() {
        if a[k] == b[k] {
            lemma_lex_tri_from(a, b, k + 1);
        } else {
            lemma_char_cast_distinct(a[k], b[k]);
        }
    }
}

/// Insert a link into a sorted list, keeping it sorted and skipping an exact
/// duplicate.
fn insert_sorted(out: &mut Vec<Vec<char>>, x: Vec<char>)
    requires
        sorted_links(old(out).deep_view()),
    ensures
        sorted_links(final(out).deep_view()),
        final(out).deep_view().to_set() == old(out).deep_view().to_set().insert(x@),
{
    let ghost dv = out.deep_view();
    let ghost xv = x@;
    let mut p: usize = 0;
    while p < out.len() && lex_lt_vec(&out[p], &x)
        invariant
            p <= out@.len(),
            out.deep_view() == dv,
            forall|q: int| 0 <= q < p ==> lex_lt(dv[q], xv),
        decreases out@.len() - p,
    {
        proof {
            lemma_chars_deep(out@[p as int]);
            assert(dv[p as int] == out@[p as int].deep_view());
        }
        p = p + 1;
    }
    proof {
        if p < out@.len() {
            lemma_chars_deep(out@[p as int]);
            assert(dv[p as int] == out@[p as int]@);
        }
    }
    if p < out.len() && eq_vec_chars(&out[p], &x) {
        proof {
            assert(dv[p as int] == xv);
            assert(dv.contains(xv));
            assert(dv.to_set() =~= dv.to_set().insert(xv));
        }
        return;
    }
    proof {
        if p < dv.len() {
            lemma_lex_tri_from(xv, dv[p as int], 0);
            assert(lex_lt(xv, dv[p as int]));
        }
    }
    let ghost xval = x;
    out.insert(p, x);
    proof {
        let dv2 = out.deep_view();
        assert(dv2 =~= dv.insert(p as int, xv)) by {
            assert forall|k: int| 0 <= k < out@.len() implies dv2[k] == dv.insert(p as int, xv)[k] by {
                assert(dv2[k] == out@[k].deep_view());
                if k == p {
                    assert(out@[k] == xval);
                    lemma_chars_deep(xval);
                }
            }
        }
        assert(sorted_links(dv2)) by {
            assert forall|i: int| 0 <= i && i + 1 < dv2.len() implies lex_lt(
                #[trigger] dv2[i],
                dv2[i + 1],
            ) by {
                if i + 1 < p {
                    assert(dv2[i] == dv[i] && dv2[i + 1] == dv[i + 1]);
                } else if i + 1 == p {
                    assert(dv2[i] == dv[i] && dv2[i + 1] == xv);
                } else if i == p {
                    assert(dv2[i] == xv && dv2[i + 1] == dv[i]);
                } else {
                    assert(dv2[i] == dv[i - 1] && dv2[i + 1] == dv[i]);
                }
            }
        }
        assert(dv2.to_set() =~= dv.to_set().insert(xv)) by {
            assert forall|e: Seq<char>| dv2.contains(e) implies dv.contains(e) || e == xv by {
                let ix = choose|ix: int| 0 <= ix < dv2.len() && dv2[ix] == e;
                if ix < p {
                    assert(dv[ix] == e);
                } else if ix == p {
                } else {
                    assert(dv[ix - 1] == e);
                }
            }
            assert forall|e: Seq<char>| dv.contains(e) implies dv2.contains(e) by {
                let ix = choose|ix: int| 0 <= ix < dv.len() && dv[ix] == e;
                if ix < p {
                    assert(dv2[ix] == e);
                } else {
                    assert(dv2[ix + 1] == e);
                }
            }
            assert(dv2.contains(xv)) by {
                assert(dv2[p as int] == xv);
            }
        }
    }
}

/// Sort the collected links and drop duplicates.
fn sort_dedup(items: &Vec<Vec<char>>) -> (r: Vec<Vec<char>>)
    ensures
        sorted_links(r.deep_view()),
        r.deep_view().to_set() == items.deep_view().to_set(),
{
    let ghost idv = items.deep_view();
    let mut out: Vec<Vec<char>> = Vec::new();
    let mut k: usize = 0;
    assert(out.deep_view() =~= Seq::<Seq<char>>::empty());
    assert(out.deep_view().to_set() =~= idv.take(0).to_set()) by {
        assert(forall|e: Seq<char>| !Seq::<Seq<char>>::empty().contains(e));
        assert(forall|e: Seq<char>| !idv.take(0).contains(e));
    }
    while k < items.len()
        invariant
            k <= items@.len(),
            items.deep_view() == idv,
            idv.len() == items@.len(),
            sorted_links(out.deep_view()),
            out.deep_view().to_set() == idv.take(k as int).to_set(),
        decreases items@.len() - k,
    {
        let x = copy_range(&items[k], 0, items[k].len());
        assert(x@ == idv[k as int]) by {
            lemma_chars_deep(items@[k as int]);
            assert(items@[k as int].deep_view() == idv[k as int]);
            assert(items@[k as int]@.subrange(0, items@[k as int]@.len() as int) == items@[
                k as int
            ]@);
        }
        let ghost pre = out.deep_view().to_set();
        insert_sorted(&mut out, x);
        proof {
            let t = idv.take(k + 1);
            assert(t.drop_last() =~= idv.take(k as int));
            assert(t.last() == idv[k as int]);
            assert(t.to_set() =~= idv.take(k as int).to_set().insert(idv[k as int])) by {
                assert forall|e: Seq<char>| t.contains(e) implies idv.take(k as int).contains(e)
                    || e == idv[k as int] by {
                    let ix = choose|ix: int| 0 <= ix < t.len() && t[ix] == e;
                    if ix < k {
                        assert(idv.take(k as int)[ix] == e);
                    }
                }
                assert forall|e: Seq<char>|
                    idv.take(k as int).contains(e) implies t.contains(e) by {
                    let ix = choose|ix: int|
                        0 <= ix < idv.take(k as int).len() && idv.take(k as int)[ix] == e;
                    assert(t[ix] == e);
                }
                assert(t.contains(idv[k as int])) by {
                    assert(t[k as int] == idv[k as int]);
                }
            }
        }
        k = k + 1;
    }
    assert(idv.take(idv.len() as int) == idv);
    out
}

/// Extract the outbound document links of a page: every accepted `href`
/// target, resolved against `base_url`, deduplicated and in ascending
/// lexical order. The result holds exactly the links the scan accepts.
pub fn extract_links_from_html(html: &str, base_url: &str) -> (r: Vec<String>)
    ensures
        sorted_links(r.deep_view()),
        r.deep_view().to_set() == links_from(html@, base_url@, 0).to_set(),
{
    let v = to_chars(html);
    let b = to_chars(base_url);
    let raw = scan_links(&v, &b);
    let sorted = sort_dedup(&raw);
    let mut out: Vec<String> = Vec::new();
    let mut i: usize = 0;
    let ghost sdv = sorted.deep_view();
    assert(out.deep_view() =~= sdv.take(0));
    while i < sorted.len()
        invariant
            i <= sorted@.len(),
            sorted.deep_view() == sdv,
            sdv.len() == sorted@.len(),
            out.deep_view() == sdv.take(i as int),
        decreases sorted@.len() - i,
    {
        let ghost pre = out.deep_view();
        let st = from_chars(&sorted[i]);
        assert(st@ == sdv[i as int]) by {
            lemma_chars_deep(sorted@[i as int]);
            assert(sorted@[i as int].deep_view() == sdv[i as int]);
        }
        out.push(st);
        assert(out.deep_view() =~= pre.push(st@)) by {
            assert(forall|k: int| 0 <= k < out@.len() ==> out.deep_view()[k] == out@[k].deep_view());
        }
        assert(sdv.take(i + 1) =~= sdv.take(i as int).push(sdv[i as int]));
        i = i + 1;
    }
    assert(sdv.take(sdv.len() as int) == sdv);
    out
}

} // verus!
