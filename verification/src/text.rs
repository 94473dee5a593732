//! Character-level utilities shared by the HTML processing passes.
//!
//! All passes work on `Vec<char>` buffers; helpers at the bottom move
//! between `&str`/`String` and those buffers.

use vstd::prelude::*;

verus! {

/// ASCII lowercase of a character; everything but `'A'..='Z'` is unchanged.
pub open spec fn lower_c(c: char) -> char {
    if 'A' <= c && c <= 'Z' {
        ((c as u8) + 32) as char
    } else {
        c
    }
}

/// Lowercase one character, ASCII only.
pub fn lower_char(c: char) -> (r: char)
    ensures
        r == lower_c(c),
{
    if 'A' <= c && c <= 'Z' {
        ((c as u8) + 32) as char
    } else {
        c
    }
}

/// ASCII whitespace: space, tab, newline, carriage return.
pub open spec fn is_space_c(c: char) -> bool {
    c == ' ' || c == '\t' || c == '\n' || c == '\r'
}

/// A text is blank when every character is whitespace.
pub open spec fn is_blank(s: Seq<char>) -> bool {
    forall|i: int| 0 <= i < s.len() ==> is_space_c(s[i])
}

pub fn is_space(c: char) -> (r: bool)
    ensures
        r == is_space_c(c),
{
    c == ' ' || c == '\t' || c == '\n' || c == '\r'
}

pub fn blank_chars(v: &Vec<char>) -> (r: bool)
    ensures
        r == is_blank(v@),
{
    let mut i: usize = 0;
    while i < v.len()
        invariant
            i <= v@.len(),
            forall|j: int| 0 <= j < i ==> is_space_c(v@[j]),
        decreases v@.len() - i,
    {
        if !is_space(v[i]) {
            return false;
        }
        i = i + 1;
    }
    true
}

pub open spec fn is_alnum_c(c: char) -> bool {
    ('a' <= c && c <= 'z') || ('A' <= c && c <= 'Z') || ('0' <= c && c <= '9')
}

pub fn is_alnum_char(c: char) -> (r: bool)
    ensures
        r == is_alnum_c(c),
{
    ('a' <= c && c <= 'z') || ('A' <= c && c <= 'Z') || ('0' <= c && c <= '9')
}

/// Lowercase image of a text, ASCII only.
pub open spec fn lower_seq(s: Seq<char>) -> Seq<char> {
    s.map_values(|c: char| lower_c(c))
}

/// Length of the run of alphanumeric characters starting at `i`.
pub open spec fn alnum_len(s: Seq<char>, i: int) -> int
    decreases s.len() - i when i >= 0
{
    if 0 <= i < s.len() && is_alnum_c(s[i]) {
        1 + alnum_len(s, i + 1)
    } else {
        0
    }
}

pub proof fn lemma_alnum_at(s: Seq<char>, p0: int, p1: int)
    requires
        0 <= p0 <= p1 <= s.len(),
        forall|j: int| p0 <= j < p1 ==> is_alnum_c(s[j]),
        p1 < s.len() ==> !is_alnum_c(s[p1]),
    ensures
        alnum_len(s, p0) == p1 - p0,
    decreases p1 - p0,
{
    if p0 < p1 {
        assert(is_alnum_c(s[p0]));
        lemma_alnum_at(s, p0 + 1, p1);
    }
}

/// The alphanumeric run is in range and consists of alphanumerics.
pub proof fn lemma_alnum_run(s: Seq<char>, i: int)
    requires
        0 <= i,
    ensures
        0 <= alnum_len(s, i),
        i <= s.len() ==> i + alnum_len(s, i) <= s.len(),
        forall|j: int| i <= j < i + alnum_len(s, i) ==> is_alnum_c(s[j]),
    decreases s.len() - i,
{
    if 0 <= i < s.len() && is_alnum_c(s[i]) {
        lemma_alnum_run(s, i + 1);
    }
}

/// The pattern `pat` occurs at position `i` of `s`, comparing exactly.
pub open spec fn matches_at(s: Seq<char>, i: int, pat: Seq<char>) -> bool {
    0 <= i && i + pat.len() <= s.len() && (forall|j: int|
        0 <= j < pat.len() ==> s[i + j] == pat[j])
}

/// The pattern `pat` (given in lowercase) occurs at position `i` of `s`,
/// comparing ASCII-case-insensitively.
pub open spec fn matches_ci_at(s: Seq<char>, i: int, pat: Seq<char>) -> bool {
    0 <= i && i + pat.len() <= s.len() && (forall|j: int|
        0 <= j < pat.len() ==> lower_c(s[i + j]) == pat[j])
}

pub fn matches_exact(v: &Vec<char>, i: usize, pat: &str) -> (b: bool)
    ensures
        b == matches_at(v@, i as int, pat@),
{
    let n = pat.unicode_len();
    if i > v.len() || v.len() - i < n {
        return false;
    }
    let mut j: usize = 0;
    while j < n
        invariant
            j <= n,
            i + n <= v@.len(),
            n == pat@.len(),
            forall|k: int| 0 <= k < j ==> v@[i + k] == pat@[k],
        decreases n - j,
    {
        if v[i + j] != pat.get_char(j) {
            assert(v@[i + j] != pat@[j as int]);
            return false;
        }
        j = j + 1;
    }
    true
}

pub fn matches_ci(v: &Vec<char>, i: usize, pat: &str) -> (b: bool)
    ensures
        b == matches_ci_at(v@, i as int, pat@),
{
    let n = pat.unicode_len();
    if i > v.len() || v.len() - i < n {
        return false;
    }
    let mut j: usize = 0;
    while j < n
        invariant
            j <= n,
            i + n <= v@.len(),
            n == pat@.len(),
            forall|k: int| 0 <= k < j ==> lower_c(v@[i + k]) == pat@[k],
        decreases n - j,
    {
        if lower_char(v[i + j]) != pat.get_char(j) {
            assert(lower_c(v@[i + j]) != pat@[j as int]);
            return false;
        }
        j = j + 1;
    }
    true
}

/// Position of the first exact occurrence of `pat` at or after `from`.
pub open spec fn first_at(s: Seq<char>, from: int, pat: Seq<char>) -> Option<int>
    decreases s.len() - from,
{
    if from < 0 || from + pat.len() > s.len() {
        None
    } else if matches_at(s, from, pat) {
        Some(from)
    } else {
        first_at(s, from + 1, pat)
    }
}

/// Position of the first case-insensitive occurrence of `pat` at or after `from`.
pub open spec fn first_ci(s: Seq<char>, from: int, pat: Seq<char>) -> Option<int>
    decreases s.len() - from,
{
    if from < 0 || from + pat.len() > s.len() {
        None
    } else if matches_ci_at(s, from, pat) {
        Some(from)
    } else {
        first_ci(s, from + 1, pat)
    }
}

pub proof fn lemma_first_at_some(s: Seq<char>, from: int, pat: Seq<char>, k: int)
    requires
        0 <= from <= k,
        matches_at(s, k, pat),
        forall|j: int| from <= j < k ==> !matches_at(s, j, pat),
    ensures
        first_at(s, from, pat) == Some(k),
    decreases k - from,
{
    if from < k {
        lemma_first_at_some(s, from + 1, pat, k);
    }
}

pub proof fn lemma_first_at_none(s: Seq<char>, from: int, pat: Seq<char>)
    requires
        0 <= from,
        forall|j: int| from <= j ==> !matches_at(s, j, pat),
    ensures
        first_at(s, from, pat) is None,
    decreases s.len() - from,
{
    if from + pat.len() <= s.len() {
        lemma_first_at_none(s, from + 1, pat);
    }
}

pub proof fn lemma_first_ci_some(s: Seq<char>, from: int, pat: Seq<char>, k: int)
    requires
        0 <= from <= k,
        matches_ci_at(s, k, pat),
        forall|j: int| from <= j < k ==> !matches_ci_at(s, j, pat),
    ensures
        first_ci(s, from, pat) == Some(k),
    decreases k - from,
{
    if from < k {
        lemma_first_ci_some(s, from + 1, pat, k);
    }
}

pub proof fn lemma_first_ci_none(s: Seq<char>, from: int, pat: Seq<char>)
    requires
        0 <= from,
        forall|j: int| from <= j ==> !matches_ci_at(s, j, pat),
    ensures
        first_ci(s, from, pat) is None,
    decreases s.len() - from,
{
    if from + pat.len() <= s.len() {
        lemma_first_ci_none(s, from + 1, pat);
    }
}

/// When nothing is found, nothing matches anywhere at or after the start.
pub proof fn lemma_first_at_none_inv(s: Seq<char>, from: int, pat: Seq<char>, j: int)
    requires
        0 <= from <= j,
        first_at(s, from, pat) is None,
    ensures
        !matches_at(s, j, pat),
    decreases j - from,
{
    if from + pat.len() <= s.len() && from < j {
        lemma_first_at_none_inv(s, from + 1, pat, j);
    }
}

/// Where a found occurrence stands relative to the search start.
pub proof fn lemma_first_at_bounds(s: Seq<char>, from: int, pat: Seq<char>)
    requires
        0 <= from,
        first_at(s, from, pat) is Some,
    ensures
        from <= first_at(s, from, pat)->0,
        matches_at(s, first_at(s, from, pat)->0, pat),
        forall|j: int| from <= j < first_at(s, from, pat)->0 ==> !matches_at(s, j, pat),
    decreases s.len() - from,
{
    if from + pat.len() <= s.len() && !matches_at(s, from, pat) {
        lemma_first_at_bounds(s, from + 1, pat);
    }
}

/// Where a found occurrence stands relative to the search start.
pub proof fn lemma_first_ci_bounds(s: Seq<char>, from: int, pat: Seq<char>)
    requires
        0 <= from,
        first_ci(s, from, pat) is Some,
    ensures
        from <= first_ci(s, from, pat)->0,
        matches_ci_at(s, first_ci(s, from, pat)->0, pat),
        forall|j: int| from <= j < first_ci(s, from, pat)->0 ==> !matches_ci_at(s, j, pat),
    decreases s.len() - from,
{
    if from + pat.len() <= s.len() && !matches_ci_at(s, from, pat) {
        lemma_first_ci_bounds(s, from + 1, pat);
    }
}

pub fn find_exact(v: &Vec<char>, from: usize, pat: &str) -> (r: Option<usize>)
    ensures
        match r {
            Some(k) => from <= k && first_at(v@, from as int, pat@) == Some(k as int),
            None => first_at(v@, from as int, pat@) is None,
        },
{
    let mut i: usize = from;
    if i > v.len() {
        return None;
    }
    if pat.unicode_len() == 0 {
        proof {
            lemma_first_at_some(v@, from as int, pat@, from as int);
        }
        return Some(from);
    }
    while i < v.len()
        invariant
            from <= i <= v@.len(),
            pat@.len() > 0,
            forall|j: int| from <= j < i ==> !matches_at(v@, j, pat@),
        decreases v@.len() - i,
    {
        if matches_exact(v, i, pat) {
            proof {
                lemma_first_at_some(v@, from as int, pat@, i as int);
            }
            return Some(i);
        }
        i = i + 1;
    }
    proof {
        assert(forall|j: int| v@.len() <= j ==> !matches_at(v@, j, pat@));
        lemma_first_at_none(v@, from as int, pat@);
    }
    None
}

pub fn find_ci(v: &Vec<char>, from: usize, pat: &str) -> (r: Option<usize>)
    ensures
        match r {
            Some(k) => from <= k && first_ci(v@, from as int, pat@) == Some(k as int),
            None => first_ci(v@, from as int, pat@) is None,
        },
{
    let mut i: usize = from;
    if i > v.len() {
        return None;
    }
    if pat.unicode_len() == 0 {
        proof {
            lemma_first_ci_some(v@, from as int, pat@, from as int);
        }
        return Some(from);
    }
    while i < v.len()
        invariant
            from <= i <= v@.len(),
            pat@.len() > 0,
            forall|j: int| from <= j < i ==> !matches_ci_at(v@, j, pat@),
        decreases v@.len() - i,
    {
        if matches_ci(v, i, pat) {
            proof {
                lemma_first_ci_some(v@, from as int, pat@, i as int);
            }
            return Some(i);
        }
        i = i + 1;
    }
    proof {
        assert(forall|j: int| v@.len() <= j ==> !matches_ci_at(v@, j, pat@));
        lemma_first_ci_none(v@, from as int, pat@);
    }
    None
}

/// Find one character, exactly: the first `c` at or after `from`.
pub fn find_char(v: &Vec<char>, from: usize, c: char) -> (r: Option<usize>)
    ensures
        match r {
            Some(k) => from <= k && first_at(v@, from as int, seq![c]) == Some(k as int),
            None => first_at(v@, from as int, seq![c]) is None,
        },
{
    let mut i: usize = from;
    if i > v.len() {
        return None;
    }
    while i < v.len()
        invariant
            from <= i <= v@.len(),
            forall|j: int| from <= j < i ==> !matches_at(v@, j, seq![c]),
        decreases v@.len() - i,
    {
        if v[i] == c {
            assert(matches_at(v@, i as int, seq![c]));
            proof {
                lemma_first_at_some(v@, from as int, seq![c], i as int);
            }
            return Some(i);
        }
        assert(!matches_at(v@, i as int, seq![c])) by {
            assert(matches_at(v@, i as int, seq![c]) ==> v@[i as int] == seq![c][0]);
        }
        i = i + 1;
    }
    proof {
        assert(forall|j: int| v@.len() <= j ==> !matches_at(v@, j, seq![c]));
        lemma_first_at_none(v@, from as int, seq![c]);
    }
    None
}

pub fn matches_ci_vec(v: &Vec<char>, i: usize, pat: &Vec<char>) -> (b: bool)
    ensures
        b == matches_ci_at(v@, i as int, pat@),
{
    let n = pat.len();
    if i > v.len() || v.len() - i < n {
        return false;
    }
    let mut j: usize = 0;
    while j < n
        invariant
            j <= n,
            i + n <= v@.len(),
            n == pat@.len(),
            forall|k: int| 0 <= k < j ==> lower_c(v@[i + k]) == pat@[k],
        decreases n - j,
    {
        if lower_char(v[i + j]) != pat[j] {
            assert(lower_c(v@[i + j]) != pat@[j as int]);
            return false;
        }
        j = j + 1;
    }
    true
}

pub fn find_ci_vec(v: &Vec<char>, from: usize, pat: &Vec<char>) -> (r: Option<usize>)
    ensures
        match r {
            Some(k) => from <= k && first_ci(v@, from as int, pat@) == Some(k as int),
            None => first_ci(v@, from as int, pat@) is None,
        },
{
    let mut i: usize = from;
    if i > v.len() {
        return None;
    }
    if pat.len() == 0 {
        proof {
            lemma_first_ci_some(v@, from as int, pat@, from as int);
        }
        return Some(from);
    }
    while i < v.len()
        invariant
            from <= i <= v@.len(),
            pat@.len() > 0,
            forall|j: int| from <= j < i ==> !matches_ci_at(v@, j, pat@),
        decreases v@.len() - i,
    {
        if matches_ci_vec(v, i, pat) {
            proof {
                lemma_first_ci_some(v@, from as int, pat@, i as int);
            }
            return Some(i);
        }
        i = i + 1;
    }
    proof {
        assert(forall|j: int| v@.len() <= j ==> !matches_ci_at(v@, j, pat@));
        lemma_first_ci_none(v@, from as int, pat@);
    }
    None
}

/// Does the lowered segment `[p0, p1)` of `v` spell exactly `pat`?
pub fn seg_is_ci(v: &Vec<char>, p0: usize, p1: usize, pat: &str) -> (b: bool)
    requires
        p0 <= p1 <= v@.len(),
    ensures
        b == (lower_seq(v@.subrange(p0 as int, p1 as int)) == pat@),
{
    let ghost sub = lower_seq(v@.subrange(p0 as int, p1 as int));
    let n = pat.unicode_len();
    if p1 - p0 != n {
        assert(sub.len() == p1 - p0);
        return false;
    }
    let mut j: usize = 0;
    while j < n
        invariant
            j <= n,
            p0 + n == p1 <= v@.len(),
            n == pat@.len(),
            sub == lower_seq(v@.subrange(p0 as int, p1 as int)),
            forall|k: int| 0 <= k < j ==> sub[k] == pat@[k],
        decreases n - j,
    {
        let c = lower_char(v[p0 + j]);
        if c != pat.get_char(j) {
            assert(sub[j as int] == lower_c(v@[p0 + j]));
            return false;
        }
        assert(sub[j as int] == lower_c(v@[p0 + j]));
        j = j + 1;
    }
    assert(sub =~= pat@);
    true
}

/// Lowercased copy of the range `[a, b)` of `v`.
pub fn lower_range(v: &Vec<char>, a: usize, b: usize) -> (r: Vec<char>)
    requires
        a <= b <= v@.len(),
    ensures
        r@ == lower_seq(v@.subrange(a as int, b as int)),
{
    let mut out: Vec<char> = Vec::new();
    let mut i: usize = a;
    while i < b
        invariant
            a <= i <= b <= v@.len(),
            out@ == lower_seq(v@.subrange(a as int, i as int)),
        decreases b - i,
    {
        out.push(lower_char(v[i]));
        assert(lower_seq(v@.subrange(a as int, i + 1)) =~= lower_seq(
            v@.subrange(a as int, i as int),
        ).push(lower_c(v@[i as int])));
        i = i + 1;
    }
    out
}

/// Append every character of `src` to `dst`.
pub fn push_all(dst: &mut Vec<char>, src: &Vec<char>)
    ensures
        final(dst)@ == old(dst)@ + src@,
{
    let mut i: usize = 0;
    while i < src.len()
        invariant
            i <= src@.len(),
            dst@ == old(dst)@ + src@.take(i as int),
        decreases src@.len() - i,
    {
        dst.push(src[i]);
        assert(src@.take(i + 1) == src@.take(i as int).push(src@[i as int]));
        i = i + 1;
    }
    assert(src@.take(src@.len() as int) == src@);
}

/// Append every character of the string slice `s` to `dst`.
pub fn push_str_chars(dst: &mut Vec<char>, s: &str)
    ensures
        final(dst)@ == old(dst)@ + s@,
{
    let n = s.unicode_len();
    let mut i: usize = 0;
    while i < n
        invariant
            i <= n,
            n == s@.len(),
            dst@ == old(dst)@ + s@.take(i as int),
        decreases n - i,
    {
        dst.push(s.get_char(i));
        assert(s@.take(i + 1) == s@.take(i as int).push(s@[i as int]));
        i = i + 1;
    }
    assert(s@.take(s@.len() as int) == s@);
}

/// Copy of the range `[a, b)` of `v`.
pub fn copy_range(v: &Vec<char>, a: usize, b: usize) -> (r: Vec<char>)
    requires
        a <= b <= v@.len(),
    ensures
        r@ == v@.subrange(a as int, b as int),
{
    let mut out: Vec<char> = Vec::new();
    let mut i: usize = a;
    while i < b
        invariant
            a <= i <= b <= v@.len(),
            out@ == v@.subrange(a as int, i as int),
        decreases b - i,
    {
        out.push(v[i]);
        assert(v@.subrange(a as int, i + 1) == v@.subrange(a as int, i as int).push(v@[i as int]));
        i = i + 1;
    }
    out
}

/// `s` without leading whitespace.
pub open spec fn trim_start_spec(s: Seq<char>) -> Seq<char>
    decreases s.len(),
{
    if s.len() > 0 && is_space_c(s[0]) {
        trim_start_spec(s.skip(1))
    } else {
        s
    }
}

/// `s` without trailing whitespace.
pub open spec fn trim_end_spec(s: Seq<char>) -> Seq<char>
    decreases s.len(),
{
    if s.len() > 0 && is_space_c(s[s.len() - 1]) {
        trim_end_spec(s.take(s.len() - 1))
    } else {
        s
    }
}

/// `s` without leading and trailing whitespace.
pub open spec fn trim_spec(s: Seq<char>) -> Seq<char> {
    trim_end_spec(trim_start_spec(s))
}

proof fn lemma_trim_start_at(s: Seq<char>, a: int)
    requires
        0 <= a <= s.len(),
        forall|j: int| 0 <= j < a ==> is_space_c(s[j]),
        a < s.len() ==> !is_space_c(s[a]),
    ensures
        trim_start_spec(s) == s.skip(a),
    decreases a,
{
    if a > 0 {
        assert(is_space_c(s[0]));
        lemma_trim_start_at(s.skip(1), a - 1);
        assert(s.skip(1).skip(a - 1) == s.skip(a));
    } else {
        if s.len() > 0 && is_space_c(s[0]) {
            assert(false);
        }
        assert(s.skip(0) == s);
    }
}

proof fn lemma_trim_end_at(s: Seq<char>, b: int)
    requires
        0 <= b <= s.len(),
        forall|j: int| b <= j < s.len() ==> is_space_c(s[j]),
        b > 0 ==> !is_space_c(s[b - 1]),
    ensures
        trim_end_spec(s) == s.take(b),
    decreases s.len() - b,
{
    if b < s.len() {
        assert(is_space_c(s[s.len() - 1]));
        lemma_trim_end_at(s.take(s.len() - 1), b);
    } else {
        if s.len() > 0 && is_space_c(s[s.len() - 1]) {
            assert(false);
        }
        assert(s.take(s.len() as int) == s);
    }
}

/// Trim leading and trailing whitespace from a character buffer.
pub fn trim_chars(v: &Vec<char>) -> (r: Vec<char>)
    ensures
        r@ == trim_spec(v@),
{
    let mut a: usize = 0;
    while a < v.len() && is_space(v[a])
        invariant
            a <= v@.len(),
            forall|j: int| 0 <= j < a ==> is_space_c(v@[j]),
        decreases v@.len() - a,
    {
        a = a + 1;
    }
    proof {
        lemma_trim_start_at(v@, a as int);
    }
    let mut b: usize = v.len();
    while b > a && is_space(v[b - 1])
        invariant
            a <= b <= v@.len(),
            forall|j: int| b <= j < v@.len() ==> is_space_c(v@[j]),
        decreases b,
    {
        b = b - 1;
    }
    proof {
        let t = v@.skip(a as int);
        assert(forall|j: int| b - a <= j < t.len() ==> is_space_c(t[j]));
        lemma_trim_end_at(t, b - a);
        assert(t.take(b - a) == v@.subrange(a as int, b as int));
    }
    copy_range(v, a, b)
}

/// Relies on `String::push`: appends one character to the string.
#[verifier::external_body]
fn push_char(s: &mut String, c: char)
    ensures
        final(s)@ == old(s)@.push(c),
{
    s.push(c)
}

/// The characters of a string slice as a buffer.
pub fn to_chars(s: &str) -> (r: Vec<char>)
    ensures
        r@ == s@,
{
    let n = s.unicode_len();
    let mut out: Vec<char> = Vec::new();
    let mut i: usize = 0;
    while i < n
        invariant
            i <= n,
            n == s@.len(),
            out@ == s@.take(i as int),
        decreases n - i,
    {
        out.push(s.get_char(i));
        assert(s@.take(i + 1) == s@.take(i as int).push(s@[i as int]));
        i = i + 1;
    }
    assert(s@.take(s@.len() as int) == s@);
    out
}

/// A character buffer as an owned string.
pub fn from_chars(v: &Vec<char>) -> (r: String)
    ensures
        r@ == v@,
{
    let mut out = String::new();
    let mut i: usize = 0;
    while i < v.len()
        invariant
            i <= v@.len(),
            out@ == v@.take(i as int),
        decreases v@.len() - i,
    {
        push_char(&mut out, v[i]);
        assert(v@.take(i + 1) == v@.take(i as int).push(v@[i as int]));
        i = i + 1;
    }
    assert(v@.take(v@.len() as int) == v@);
    out
}

} // verus!
