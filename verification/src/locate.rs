//! Content locator: finds the most plausible main-content region of a noisy
//! HTML document.
//!
//! A fixed priority list of selectors is tried in order: the `article` and
//! `main` elements, then elements carrying well-known `class` or `id`
//! markers (`main`, `content`, `post`, `entry`, `article`, `primary`,
//! `primary-content`). The first selector with a match wins and its inner
//! HTML, stripped of noise, becomes the fragment. With no match the document
//! body is used, and with no body the whole input. If the chosen fragment is
//! blank while the input is not, the whole input (stripped) replaces it, so
//! a selector that hit an empty placeholder element never wins.
//!
//! Attribute matching is deliberately simple: a `class` or `id` key must be
//! preceded by whitespace, followed directly by `=` and a quoted value, and
//! class values are matched token by token.

use vstd::prelude::*;

use crate::strip::{lemma_strip_blank, strip_spec, strip_vec};
use crate::text::{
    alnum_len, blank_chars, copy_range, find_char, find_ci_vec, first_at, first_ci, from_chars,
    is_alnum_c, is_alnum_char, is_blank, is_space, is_space_c, lemma_alnum_at,
    lemma_first_at_bounds, lemma_first_ci_bounds, lower_range, lower_seq, matches_at,
    matches_ci, matches_ci_at, matches_exact, seg_is_ci, to_chars,
};

verus! {

/// Which strategy produced the fragment.
#[derive(Clone, Copy, Debug, PartialEq, Eq, Structural)]
pub enum Source {
    MainSelector,
    Body,
    WholeDocument,
}

/// The chosen content region and the strategy that produced it.
#[derive(Debug)]
pub struct ExtractionResult {
    pub fragment: String,
    pub source: Source,
}

/// The kind of a selector: an element name, a class marker or an id marker.
#[derive(Clone, Copy, Debug, PartialEq, Eq, Structural)]
pub enum SelKind {
    Tag,
    Class,
    Id,
}

/// `tok` stands as a whitespace-separated token at position `q` of `value`.
pub open spec fn token_at(value: Seq<char>, q: int, tok: Seq<char>) -> bool {
    &&& (q == 0 || is_space_c(value[q - 1]))
    &&& matches_at(value, q, tok)
    &&& (q + tok.len() == value.len() || is_space_c(value[q + tok.len()]))
}

/// `tok` stands somewhere in `value` as a whole token.
pub open spec fn has_token(value: Seq<char>, tok: Seq<char>) -> bool {
    exists|q: int| token_at(value, q, tok)
}

/// A `key="val"` attribute stands at position `p` of the attribute text:
/// the key at a word boundary, `=` directly after it, a quoted value, and
/// the value matching `val` (token-wise for class lists, exactly otherwise).
pub open spec fn attr_at(
    attrs: Seq<char>,
    p: int,
    key: Seq<char>,
    val: Seq<char>,
    tok_mode: bool,
) -> bool {
    &&& (p == 0 || is_space_c(attrs[p - 1]))
    &&& matches_ci_at(attrs, p, key)
    &&& p + key.len() + 2 <= attrs.len()
    &&& attrs[p + key.len()] == '='
    &&& {
        let qc = attrs[p + key.len() + 1];
        &&& (qc == '"' || qc == '\'')
        &&& match first_at(attrs, p + key.len() + 2, seq![qc]) {
            Some(e) => {
                let value = attrs.subrange(p + key.len() + 2, e);
                if tok_mode {
                    has_token(value, val)
                } else {
                    value == val
                }
            },
            None => false,
        }
    }
}

/// The attribute stands somewhere in the attribute text.
pub open spec fn has_attr(attrs: Seq<char>, key: Seq<char>, val: Seq<char>, tok_mode: bool) -> bool {
    exists|p: int| attr_at(attrs, p, key, val, tok_mode)
}

/// An element matching the selector `(kind, name)` opens at position `i`:
/// a `<`, a non-empty element name, a closing `>` somewhere after, and for
/// `Tag` the name itself, for `Class`/`Id` the attribute marker.
pub open spec fn elem_match_at(s: Seq<char>, i: int, kind: SelKind, name: Seq<char>) -> bool {
    &&& 0 <= i < s.len()
    &&& s[i] == '<'
    &&& alnum_len(s, i + 1) > 0
    &&& first_at(s, i + 1, seq!['>']) is Some
    &&& {
        let nend = i + 1 + alnum_len(s, i + 1);
        let g = first_at(s, i + 1, seq!['>'])->0;
        let ename = lower_seq(s.subrange(i + 1, nend));
        match kind {
            SelKind::Tag => ename == name && nend < s.len() && (s[nend] == '>' || is_space_c(
                s[nend],
            ) || s[nend] == '/'),
            SelKind::Class => nend <= g && has_attr(
                s.subrange(nend, g),
                seq!['c', 'l', 'a', 's', 's'],
                name,
                true,
            ),
            SelKind::Id => nend <= g && has_attr(s.subrange(nend, g), seq!['i', 'd'], name, false),
        }
    }
}

/// Position of the first element matching the selector at or after `from`.
pub open spec fn first_elem(s: Seq<char>, from: int, kind: SelKind, name: Seq<char>) -> Option<
    int,
>
    decreases s.len() - from,
{
    if from < 0 || from >= s.len() {
        None
    } else if elem_match_at(s, from, kind, name) {
        Some(from)
    } else {
        first_elem(s, from + 1, kind, name)
    }
}

proof fn lemma_first_elem_some(s: Seq<char>, from: int, kind: SelKind, name: Seq<char>, k: int)
    requires
        0 <= from <= k,
        elem_match_at(s, k, kind, name),
        forall|j: int| from <= j < k ==> !elem_match_at(s, j, kind, name),
    ensures
        first_elem(s, from, kind, name) == Some(k),
    decreases k - from,
{
    if from < k {
        lemma_first_elem_some(s, from + 1, kind, name, k);
    }
}

proof fn lemma_first_elem_none(s: Seq<char>, from: int, kind: SelKind, name: Seq<char>)
    requires
        0 <= from,
        forall|j: int| from <= j ==> !elem_match_at(s, j, kind, name),
    ensures
        first_elem(s, from, kind, name) is None,
    decreases s.len() - from,
{
    if from < s.len() {
        lemma_first_elem_none(s, from + 1, kind, name);
    }
}

/// Inner range of the element opening at `i`: from after the opening tag's
/// `>` to the first matching close tag, or to the end when none closes it.
pub open spec fn inner_of(s: Seq<char>, i: int) -> (int, int) {
    let g = first_at(s, i + 1, seq!['>'])->0;
    let ename = lower_seq(s.subrange(i + 1, i + 1 + alnum_len(s, i + 1)));
    match first_ci(s, g + 1, seq!['<', '/'] + ename + seq!['>']) {
        Some(m) => (g + 1, m),
        None => (g + 1, s.len() as int),
    }
}

/// Inner range of the first element matching the selector, if any matches.
pub open spec fn sel_inner(s: Seq<char>, kind: SelKind, name: Seq<char>) -> Option<(int, int)> {
    match first_elem(s, 0, kind, name) {
        Some(i) => Some(inner_of(s, i)),
        None => None,
    }
}

/// Does `tok` stand as a token anywhere in `value`?
fn has_token_exec(value: &Vec<char>, tok: &str) -> (b: bool)
    requires
        tok@.len() > 0,
    ensures
        b == has_token(value@, tok@),
{
    let n = value.len();
    let tl = tok.unicode_len();
    let mut q: usize = 0;
    while q < n
        invariant
            q <= n == value@.len(),
            tl == tok@.len() > 0,
            forall|j: int| 0 <= j < q ==> !token_at(value@, j, tok@),
        decreases n - q,
    {
        let boundary_l = q == 0 || is_space(value[q - 1]);
        if boundary_l && matches_exact(value, q, tok) {
            if q + tl == n || is_space(value[q + tl]) {
                assert(token_at(value@, q as int, tok@));
                return true;
            }
        }
        assert(!token_at(value@, q as int, tok@));
        q = q + 1;
    }
    assert forall|j: int| !token_at(value@, j, tok@) by {
        if j < 0 || j >= n {
            assert(!matches_at(value@, j, tok@));
        }
    }
    false
}

/// Does the attribute `key` with value `val` stand at position `p`?
fn attr_at_exec(attrs: &Vec<char>, p: usize, key: &str, val: &str, tok_mode: bool) -> (b: bool)
    requires
        p < attrs@.len(),
        key@.len() > 0,
        val@.len() > 0,
    ensures
        b == attr_at(attrs@, p as int, key@, val@, tok_mode),
{
    let n = attrs.len();
    if p > 0 && !is_space(attrs[p - 1]) {
        return false;
    }
    if !matches_ci(attrs, p, key) {
        return false;
    }
    let kl = key.unicode_len();
    if n - p - kl < 2 {
        return false;
    }
    if attrs[p + kl] != '=' {
        return false;
    }
    let qc = attrs[p + kl + 1];
    if qc != '"' && qc != '\'' {
        return false;
    }
    match find_char(attrs, p + kl + 2, qc) {
        Some(e) => {
            proof {
                lemma_first_at_bounds(attrs@, p + kl + 2, seq![qc]);
            }
            let value = copy_range(attrs, p + kl + 2, e);
            if tok_mode {
                has_token_exec(&value, val)
            } else {
                if value.len() == val.unicode_len() && matches_exact(&value, 0, val) {
                    assert(value@ =~= val@);
                    true
                } else {
                    assert(value@ != val@) by {
                        if value@ == val@ {
                            assert(matches_at(value@, 0, val@));
                        }
                    }
                    false
                }
            }
        },
        None => false,
    }
}

/// Does the attribute `key` with value `val` stand anywhere in `attrs`?
fn has_attr_exec(attrs: &Vec<char>, key: &str, val: &str, tok_mode: bool) -> (b: bool)
    requires
        key@.len() > 0,
        val@.len() > 0,
    ensures
        b == has_attr(attrs@, key@, val@, tok_mode),
{
    let n = attrs.len();
    let mut p: usize = 0;
    while p < n
        invariant
            p <= n == attrs@.len(),
            key@.len() > 0,
            val@.len() > 0,
            forall|j: int| 0 <= j < p ==> !attr_at(attrs@, j, key@, val@, tok_mode),
        decreases n - p,
    {
        if attr_at_exec(attrs, p, key, val, tok_mode) {
            assert(attr_at(attrs@, p as int, key@, val@, tok_mode));
            return true;
        }
        p = p + 1;
    }
    assert forall|j: int| !attr_at(attrs@, j, key@, val@, tok_mode) by {
        if j < 0 || j >= n {
            assert(!matches_ci_at(attrs@, j, key@));
        }
    }
    false
}

/// Does the selector `(kind, name)` match the element opening at `i`?
fn elem_match(v: &Vec<char>, i: usize, kind: SelKind, name: &str) -> (b: bool)
    requires
        name@.len() > 0,
    ensures
        b == elem_match_at(v@, i as int, kind, name@),
{
    proof {
        reveal_strlit("class");
        reveal_strlit("id");
        assert("class"@ =~= seq!['c', 'l', 'a', 's', 's']);
        assert("id"@ =~= seq!['i', 'd']);
    }
    let n = v.len();
    if i >= n {
        return false;
    }
    if v[i] != '<' {
        return false;
    }
    let mut p1: usize = i + 1;
    while p1 < n && is_alnum_char(v[p1])
        invariant
            i + 1 <= p1 <= n == v@.len(),
            forall|j: int| i + 1 <= j < p1 ==> is_alnum_c(v@[j]),
        decreases n - p1,
    {
        p1 = p1 + 1;
    }
    proof {
        lemma_alnum_at(v@, i + 1 as int, p1 as int);
    }
    if p1 == i + 1 {
        return false;
    }
    let g = match find_char(v, i + 1, '>') {
        Some(g) => g,
        None => {
            return false;
        },
    };
    proof {
        lemma_first_at_bounds(v@, i + 1 as int, seq!['>']);
    }
    let nend = p1;
    match kind {
        SelKind::Tag => {
            if !seg_is_ci(v, i + 1, nend, name) {
                return false;
            }
            nend < n && (v[nend] == '>' || is_space(v[nend]) || v[nend] == '/')
        },
        SelKind::Class => {
            if g < nend {
                return false;
            }
            let attrs = copy_range(v, nend, g);
            has_attr_exec(&attrs, "class", name, true)
        },
        SelKind::Id => {
            if g < nend {
                return false;
            }
            let attrs = copy_range(v, nend, g);
            has_attr_exec(&attrs, "id", name, false)
        },
    }
}

/// Find the first element matching the selector and hand back its inner
/// range.
fn find_elem(v: &Vec<char>, kind: SelKind, name: &str) -> (r: Option<(usize, usize)>)
    requires
        name@.len() > 0,
    ensures
        match r {
            Some(ab) => sel_inner(v@, kind, name@) == Some((ab.0 as int, ab.1 as int)) && ab.0
                <= ab.1 <= v@.len(),
            None => sel_inner(v@, kind, name@) is None,
        },
{
    let n = v.len();
    let mut i: usize = 0;
    while i < n
        invariant
            i <= n == v@.len(),
            name@.len() > 0,
            forall|j: int| 0 <= j < i ==> !elem_match_at(v@, j, kind, name@),
        decreases n - i,
    {
        if elem_match(v, i, kind, name) {
            proof {
                lemma_first_elem_some(v@, 0, kind, name@, i as int);
            }
            // The matching element is known to have a closing `>`.
            let g = match find_char(v, i + 1, '>') {
                Some(g) => g,
                None => {
                    proof {
                        assert(false);
                    }
                    return None;
                },
            };
            proof {
                lemma_first_at_bounds(v@, i + 1 as int, seq!['>']);
            }
            let mut p1: usize = i + 1;
            while p1 < n && is_alnum_char(v[p1])
                invariant
                    i + 1 <= p1 <= n == v@.len(),
                    forall|j: int| i + 1 <= j < p1 ==> is_alnum_c(v@[j]),
                decreases n - p1,
            {
                p1 = p1 + 1;
            }
            proof {
                lemma_alnum_at(v@, i + 1 as int, p1 as int);
            }
            let ename = lower_range(v, i + 1, p1);
            let mut close: Vec<char> = Vec::new();
            close.push('<');
            close.push('/');
            let mut k: usize = 0;
            while k < ename.len()
                invariant
                    k <= ename@.len(),
                    close@ == seq!['<', '/'] + ename@.take(k as int),
                decreases ename@.len() - k,
            {
                close.push(ename[k]);
                assert(seq!['<', '/'] + ename@.take(k + 1) =~= (seq!['<', '/'] + ename@.take(
                    k as int,
                )).push(ename@[k as int]));
                k = k + 1;
            }
            close.push('>');
            assert(close@ =~= seq!['<', '/'] + ename@ + seq!['>']) by {
                assert(ename@.take(ename@.len() as int) == ename@);
            }
            match find_ci_vec(v, g + 1, &close) {
                Some(m) => {
                    proof {
                        lemma_first_ci_bounds(v@, g + 1 as int, close@);
                    }
                    return Some((g + 1, m));
                },
                None => {
                    return Some((g + 1, n));
                },
            }
        }
        i = i + 1;
    }
    proof {
        assert(forall|j: int| i <= j ==> !elem_match_at(v@, j, kind, name@));
        lemma_first_elem_none(v@, 0, kind, name@);
    }
    None
}

/// Inner range of the highest-priority matching content selector.
pub open spec fn main_inner(s: Seq<char>) -> Option<(int, int)> {
    if sel_inner(s, SelKind::Tag, "article"@) is Some {
        sel_inner(s, SelKind::Tag, "article"@)
    } else if sel_inner(s, SelKind::Tag, "main"@) is Some {
        sel_inner(s, SelKind::Tag, "main"@)
    } else if sel_inner(s, SelKind::Class, "main"@) is Some {
        sel_inner(s, SelKind::Class, "main"@)
    } else if sel_inner(s, SelKind::Id, "main"@) is Some {
        sel_inner(s, SelKind::Id, "main"@)
    } else if sel_inner(s, SelKind::Class, "content"@) is Some {
        sel_inner(s, SelKind::Class, "content"@)
    } else if sel_inner(s, SelKind::Id, "content"@) is Some {
        sel_inner(s, SelKind::Id, "content"@)
    } else if sel_inner(s, SelKind::Class, "post"@) is Some {
        sel_inner(s, SelKind::Class, "post"@)
    } else if sel_inner(s, SelKind::Id, "post"@) is Some {
        sel_inner(s, SelKind::Id, "post"@)
    } else if sel_inner(s, SelKind::Class, "entry"@) is Some {
        sel_inner(s, SelKind::Class, "entry"@)
    } else if sel_inner(s, SelKind::Id, "entry"@) is Some {
        sel_inner(s, SelKind::Id, "entry"@)
    } else if sel_inner(s, SelKind::Class, "article"@) is Some {
        sel_inner(s, SelKind::Class, "article"@)
    } else if sel_inner(s, SelKind::Id, "article"@) is Some {
        sel_inner(s, SelKind::Id, "article"@)
    } else if sel_inner(s, SelKind::Id, "primary"@) is Some {
        sel_inner(s, SelKind::Id, "primary"@)
    } else if sel_inner(s, SelKind::Class, "primary-content"@) is Some {
        sel_inner(s, SelKind::Class, "primary-content"@)
    } else {
        None
    }
}

/// The fragment and strategy before the blank-result correction.
pub open spec fn located_pair(html: Seq<char>) -> (Seq<char>, Source) {
    if main_inner(html) is Some {
        let (a, b) = main_inner(html)->0;
        (strip_spec(html.subrange(a, b)), Source::MainSelector)
    } else if sel_inner(html, SelKind::Tag, "body"@) is Some {
        let (a, b) = sel_inner(html, SelKind::Tag, "body"@)->0;
        (strip_spec(html.subrange(a, b)), Source::Body)
    } else {
        (strip_spec(html), Source::WholeDocument)
    }
}

/// The fragment and strategy `locate` returns: as chosen by the selectors,
/// except that a blank fragment from non-blank input is replaced by the
/// whole input, stripped.
pub open spec fn locate_pair(html: Seq<char>) -> (Seq<char>, Source) {
    let (f, src) = located_pair(html);
    if is_blank(f) && !is_blank(html) {
        (strip_spec(html), Source::WholeDocument)
    } else {
        (f, src)
    }
}

/// The fragment `locate` returns.
pub open spec fn locate_frag_spec(html: Seq<char>) -> Seq<char> {
    locate_pair(html).0
}

/// The strategy `locate` reports.
pub open spec fn locate_source_spec(html: Seq<char>) -> Source {
    locate_pair(html).1
}

/// Law: the located fragment is blank only when the whole input, fully
/// stripped, is itself blank.
pub proof fn lemma_locate_nonblank(html: Seq<char>)
    ensures
        is_blank(locate_frag_spec(html)) ==> is_blank(strip_spec(html)),
{
    let (f, src) = located_pair(html);
    if is_blank(locate_frag_spec(html)) {
        if is_blank(f) && !is_blank(html) {
        } else {
            if is_blank(f) {
                lemma_strip_blank(html);
            }
        }
    }
}

/// Locate the main content of `html`: try the content selectors in priority
/// order, fall back to the body, then to the whole document; strip the
/// chosen region; and replace a blank result from non-blank input by the
/// whole stripped input.
pub fn locate(html: &str) -> (r: ExtractionResult)
    ensures
        r.fragment@ == locate_frag_spec(html@),
        r.source == locate_source_spec(html@),
        is_blank(r.fragment@) ==> is_blank(strip_spec(html@)),
{
    proof {
        lemma_locate_nonblank(html@);
        reveal_strlit("article");
        reveal_strlit("main");
        reveal_strlit("content");
        reveal_strlit("post");
        reveal_strlit("entry");
        reveal_strlit("primary");
        reveal_strlit("primary-content");
        reveal_strlit("body");
    }
    let v = to_chars(html);
    let mut inner: Option<(usize, usize)> = find_elem(&v, SelKind::Tag, "article");
    if inner.is_none() {
        inner = find_elem(&v, SelKind::Tag, "main");
    }
    if inner.is_none() {
        inner = find_elem(&v, SelKind::Class, "main");
    }
    if inner.is_none() {
        inner = find_elem(&v, SelKind::Id, "main");
    }
    if inner.is_none() {
        inner = find_elem(&v, SelKind::Class, "content");
    }
    if inner.is_none() {
        inner = find_elem(&v, SelKind::Id, "content");
    }
    if inner.is_none() {
        inner = find_elem(&v, SelKind::Class, "post");
    }
    if inner.is_none() {
        inner = find_elem(&v, SelKind::Id, "post");
    }
    if inner.is_none() {
        inner = find_elem(&v, SelKind::Class, "entry");
    }
    if inner.is_none() {
        inner = find_elem(&v, SelKind::Id, "entry");
    }
    if inner.is_none() {
        inner = find_elem(&v, SelKind::Class, "article");
    }
    if inner.is_none() {
        inner = find_elem(&v, SelKind::Id, "article");
    }
    if inner.is_none() {
        inner = find_elem(&v, SelKind::Id, "primary");
    }
    if inner.is_none() {
        inner = find_elem(&v, SelKind::Class, "primary-content");
    }
    let (frag, source): (Vec<char>, Source) = match inner {
        Some((a, b)) => {
            assert(main_inner(v@) == Some((a as int, b as int)));
            (strip_vec(copy_range(&v, a, b)), Source::MainSelector)
        },
        None => {
            assert(main_inner(v@) is None);
            match find_elem(&v, SelKind::Tag, "body") {
                Some((a, b)) => (strip_vec(copy_range(&v, a, b)), Source::Body),
                None => (strip_vec(copy_range(&v, 0, v.len())), Source::WholeDocument),
            }
        },
    };
    assert(frag@ == located_pair(html@).0 && source == located_pair(html@).1) by {
        assert(v@.subrange(0, v@.len() as int) == v@);
    }
    if blank_chars(&frag) && !blank_chars(&v) {
        let whole = strip_vec(copy_range(&v, 0, v.len()));
        assert(v@.subrange(0, v@.len() as int) == v@);
        ExtractionResult { fragment: from_chars(&whole), source: Source::WholeDocument }
    } else {
        ExtractionResult { fragment: from_chars(&frag), source }
    }
}

} // verus!
