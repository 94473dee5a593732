//! Markdown converter: maps a cleaned HTML fragment to Markdown text.
//!
//! A single left-to-right scan tokenizes the fragment into comments, tags and
//! text. Headings, paragraphs, breaks, emphasis and list tags emit Markdown;
//! every other tag is dropped (a closing `div` leaves a line break). The scan
//! tracks being inside a tag or comment, so `<` and `>` in plain text are
//! never closed early. A second pass collapses runs of three or more newlines
//! to a blank line and runs of spaces to one space, and the result is
//! trimmed. Malformed markup never fails: it degrades to dropped text.

use vstd::prelude::*;

use crate::text::{
    alnum_len, blank_chars, copy_range, find_exact, first_at, from_chars, is_alnum_c,
    is_alnum_char, is_blank, is_space_c, lemma_alnum_at, lemma_first_at_bounds, lower_c, lower_seq,
    matches_at, matches_exact, push_all, push_str_chars, seg_is_ci, to_chars, trim_chars,
    trim_end_spec, trim_spec, trim_start_spec,
};

verus! {

/// A tag whose content starts with `/` is a closing tag.
pub open spec fn tag_closing(content: Seq<char>) -> bool {
    content.len() > 0 && content[0] == '/'
}

/// Where the tag's name starts: after the `/` of a closing tag.
pub open spec fn tag_name_start(content: Seq<char>) -> int {
    if tag_closing(content) {
        1
    } else {
        0
    }
}

/// The tag's name: the alphanumeric run after the optional `/`, lowercased.
pub open spec fn tag_name(content: Seq<char>) -> Seq<char> {
    let p0 = tag_name_start(content);
    lower_seq(content.subrange(p0, p0 + alnum_len(content, p0)))
}

/// A blank line: the separator emitted after block-level tags.
pub open spec fn nn() -> Seq<char> {
    seq!['\n', '\n']
}

/// The Markdown emitted in place of one tag, given the text between `<` and
/// `>`. Attributes are tolerated: only the leading name decides.
pub open spec fn tag_md(content: Seq<char>) -> Seq<char> {
    let name = tag_name(content);
    let closing = tag_closing(content);
    if name == seq!['b', 'r'] {
        seq!['\n']
    } else if name == seq!['h', '1'] {
        if closing {
            nn()
        } else {
            seq!['#', ' ']
        }
    } else if name == seq!['h', '2'] {
        if closing {
            nn()
        } else {
            seq!['#', '#', ' ']
        }
    } else if name == seq!['h', '3'] {
        if closing {
            nn()
        } else {
            seq!['#', '#', '#', ' ']
        }
    } else if name == seq!['h', '4'] {
        if closing {
            nn()
        } else {
            seq!['#', '#', '#', '#', ' ']
        }
    } else if name == seq!['h', '5'] {
        if closing {
            nn()
        } else {
            seq!['#', '#', '#', '#', '#', ' ']
        }
    } else if name == seq!['h', '6'] {
        if closing {
            nn()
        } else {
            seq!['#', '#', '#', '#', '#', '#', ' ']
        }
    } else if name == seq!['p'] {
        if closing {
            nn()
        } else {
            Seq::empty()
        }
    } else if name == seq!['b'] || name == seq!['s', 't', 'r', 'o', 'n', 'g'] {
        seq!['*', '*']
    } else if name == seq!['e', 'm'] || name == seq!['i'] {
        seq!['*']
    } else if name == seq!['u', 'l'] || name == seq!['o', 'l'] {
        if closing {
            seq!['\n']
        } else {
            Seq::empty()
        }
    } else if name == seq!['l', 'i'] {
        if closing {
            seq!['\n']
        } else {
            seq!['-', ' ']
        }
    } else if name == seq!['d', 'i', 'v'] {
        if closing {
            seq!['\n']
        } else {
            Seq::empty()
        }
    } else {
        Seq::empty()
    }
}

/// The tokenizing pass from position `i`: comments are dropped, tags are
/// replaced by their Markdown, text is kept. An unterminated tag or comment
/// swallows the rest of the input.
pub open spec fn conv_from(s: Seq<char>, i: int) -> Seq<char>
    decreases s.len() - i,
    via conv_from_dec
{
    if i < 0 || i >= s.len() {
        Seq::empty()
    } else if matches_at(s, i, seq!['<', '!', '-', '-']) {
        match first_at(s, i + 4, seq!['-', '-', '>']) {
            Some(c) => conv_from(s, c + 3),
            None => Seq::empty(),
        }
    } else if s[i] == '<' {
        match first_at(s, i + 1, seq!['>']) {
            Some(g) => tag_md(s.subrange(i + 1, g)) + conv_from(s, g + 1),
            None => Seq::empty(),
        }
    } else {
        seq![s[i]] + conv_from(s, i + 1)
    }
}

#[via_fn]
proof fn conv_from_dec(s: Seq<char>, i: int) {
    if 0 <= i < s.len() {
        if matches_at(s, i, seq!['<', '!', '-', '-']) {
            if first_at(s, i + 4, seq!['-', '-', '>']) is Some {
                lemma_first_at_bounds(s, i + 4, seq!['-', '-', '>']);
            }
        } else if s[i] == '<' {
            if first_at(s, i + 1, seq!['>']) is Some {
                lemma_first_at_bounds(s, i + 1, seq!['>']);
            }
        }
    }
}

/// The whitespace pass from position `i`: `nl` newlines seen in the current
/// run (capped at 3), `sp` whether the previous character was a space.
/// At most two consecutive newlines are kept, and a space after a space is
/// dropped.
pub open spec fn norm_from(s: Seq<char>, i: int, nl: int, sp: bool) -> Seq<char>
    decreases s.len() - i,
{
    if i < 0 || i >= s.len() {
        Seq::empty()
    } else {
        let c = s[i];
        let nl2: int = if nl < 3 {
            nl + 1
        } else {
            3
        };
        if c == '\n' {
            if nl <= 1 {
                seq!['\n'] + norm_from(s, i + 1, nl2, false)
            } else {
                norm_from(s, i + 1, nl2, false)
            }
        } else if c == ' ' && sp {
            norm_from(s, i + 1, 0, true)
        } else {
            seq![c] + norm_from(s, i + 1, 0, c == ' ')
        }
    }
}

/// What `convert` returns: tokenize, collapse whitespace, trim.
pub open spec fn convert_spec(fragment: Seq<char>) -> Seq<char> {
    trim_spec(norm_from(conv_from(fragment, 0), 0, 0, false))
}

/// The heading line put before converted content when a source URL is given.
pub open spec fn source_header() -> Seq<char> {
    seq!['#', ' ', 'C', 'o', 'n', 't', 'e', 'n', 't', ' ', 'f', 'r', 'o', 'm', ':', ' ']
}

/// What `convert_with_source` returns: the converted fragment, prefixed with
/// a `# Content from: <url>` heading when the URL is not blank.
pub open spec fn convert_with_source_spec(fragment: Seq<char>, base_url: Seq<char>) -> Seq<char> {
    if is_blank(base_url) {
        convert_spec(fragment)
    } else {
        trim_spec(source_header() + base_url + nn() + convert_spec(fragment))
    }
}

/// The character `c` occurs nowhere in `s`.
pub open spec fn no_char(s: Seq<char>, c: char) -> bool {
    forall|j: int| 0 <= j < s.len() ==> s[j] != c
}

proof fn lemma_no_char_concat(a: Seq<char>, b: Seq<char>, c: char)
    requires
        no_char(a, c),
        no_char(b, c),
    ensures
        no_char(a + b, c),
{
    assert forall|j: int| 0 <= j < (a + b).len() implies (a + b)[j] != c by {
        if j < a.len() {
            assert((a + b)[j] == a[j]);
        } else {
            assert((a + b)[j] == b[j - a.len()]);
        }
    }
}

/// The Markdown emitted for a tag never contains `'<'`.
proof fn lemma_tag_md_no_lt(content: Seq<char>)
    ensures
        no_char(tag_md(content), '<'),
{
}

/// The tokenizing pass emits no `'<'`.
proof fn lemma_conv_no_lt(s: Seq<char>, i: int)
    ensures
        no_char(conv_from(s, i), '<'),
    decreases s.len() - i,
{
    if 0 <= i < s.len() {
        if matches_at(s, i, seq!['<', '!', '-', '-']) {
            match first_at(s, i + 4, seq!['-', '-', '>']) {
                Some(c) => {
                    lemma_first_at_bounds(s, i + 4, seq!['-', '-', '>']);
                    lemma_conv_no_lt(s, c + 3);
                },
                None => {},
            }
        } else if s[i] == '<' {
            match first_at(s, i + 1, seq!['>']) {
                Some(g) => {
                    lemma_first_at_bounds(s, i + 1, seq!['>']);
                    lemma_tag_md_no_lt(s.subrange(i + 1, g));
                    lemma_conv_no_lt(s, g + 1);
                    lemma_no_char_concat(tag_md(s.subrange(i + 1, g)), conv_from(s, g + 1), '<');
                },
                None => {},
            }
        } else {
            lemma_conv_no_lt(s, i + 1);
            lemma_no_char_concat(seq![s[i]], conv_from(s, i + 1), '<');
        }
    }
}

/// The whitespace pass keeps only characters of its input.
proof fn lemma_norm_no_char(s: Seq<char>, i: int, nl: int, sp: bool, c: char)
    requires
        no_char(s, c),
    ensures
        no_char(norm_from(s, i, nl, sp), c),
    decreases s.len() - i,
{
    if 0 <= i < s.len() {
        let nl2: int = if nl < 3 {
            nl + 1
        } else {
            3
        };
        if s[i] == '\n' {
            lemma_norm_no_char(s, i + 1, nl2, false, c);
            if nl <= 1 {
                lemma_no_char_concat(seq!['\n'], norm_from(s, i + 1, nl2, false), c);
            }
        } else if s[i] == ' ' && sp {
            lemma_norm_no_char(s, i + 1, 0, true, c);
        } else {
            lemma_norm_no_char(s, i + 1, 0, s[i] == ' ', c);
            lemma_no_char_concat(seq![s[i]], norm_from(s, i + 1, 0, s[i] == ' '), c);
        }
    }
}

/// Trimming keeps only characters of its input.
proof fn lemma_trim_start_no_char(s: Seq<char>, c: char)
    requires
        no_char(s, c),
    ensures
        no_char(trim_start_spec(s), c),
    decreases s.len(),
{
    if s.len() > 0 && is_space_c(s[0]) {
        let t = s.skip(1);
        assert forall|j: int| 0 <= j < t.len() implies t[j] != c by {
            assert(t[j] == s[j + 1]);
        }
        lemma_trim_start_no_char(t, c);
    }
}

/// Trimming keeps only characters of its input.
proof fn lemma_trim_end_no_char(s: Seq<char>, c: char)
    requires
        no_char(s, c),
    ensures
        no_char(trim_end_spec(s), c),
    decreases s.len(),
{
    if s.len() > 0 && is_space_c(s[s.len() - 1]) {
        let t = s.take(s.len() - 1);
        assert forall|j: int| 0 <= j < t.len() implies t[j] != c by {
            assert(t[j] == s[j]);
        }
        lemma_trim_end_no_char(t, c);
    }
}

/// Law: converted Markdown contains no `'<'` at all, so no tag and no
/// stripped script or style region can reappear in it.
pub proof fn lemma_convert_no_lt(fragment: Seq<char>)
    ensures
        no_char(convert_spec(fragment), '<'),
{
    let conv = conv_from(fragment, 0);
    let normed = norm_from(conv, 0, 0, false);
    lemma_conv_no_lt(fragment, 0);
    lemma_norm_no_char(conv, 0, 0, false, '<');
    lemma_trim_start_no_char(normed, '<');
    lemma_trim_end_no_char(trim_start_spec(normed), '<');
}

/// Law: converted Markdown is a fixed point of the noise stripper; running
/// the converted output through `strip` again removes nothing.
pub proof fn lemma_convert_strip_stable(fragment: Seq<char>)
    ensures
        crate::strip::strip_spec(convert_spec(fragment)) == convert_spec(fragment),
{
    let out = convert_spec(fragment);
    lemma_convert_no_lt(fragment);
    assert forall|j: int| crate::strip::noise_region_end(out, j) is None by {
        crate::strip::lemma_no_marker(out, j);
    }
    crate::strip::lemma_strip_fixed(out);
}

/// Law: wrapping converted Markdown in a trivial paragraph and running it
/// through the pipeline again reintroduces nothing that was stripped: the
/// stripper leaves the wrapped text unchanged, and converting it again still
/// yields text without `'<'`.
pub proof fn lemma_convert_rewrap_stable(fragment: Seq<char>)
    ensures
        ({
            let wrapped = seq!['<', 'p', '>'] + convert_spec(fragment) + seq!['<', '/', 'p', '>'];
            crate::strip::strip_spec(wrapped) == wrapped && no_char(convert_spec(wrapped), '<')
        }),
{
    let body = convert_spec(fragment);
    let wrapped = seq!['<', 'p', '>'] + body + seq!['<', '/', 'p', '>'];
    lemma_convert_no_lt(fragment);
    assert forall|j: int| crate::strip::noise_region_end(wrapped, j) is None by {
        if 0 <= j < wrapped.len() && wrapped[j] == '<' {
            if j == 0 {
                assert(wrapped[1] == 'p');
                crate::strip::lemma_no_marker_second(wrapped, j);
            } else {
                assert(j == body.len() + 3);
                assert(wrapped[j + 1] == '/');
                crate::strip::lemma_no_marker_second(wrapped, j);
            }
        } else {
            crate::strip::lemma_no_marker(wrapped, j);
        }
    }
    crate::strip::lemma_strip_fixed(wrapped);
    lemma_convert_no_lt(wrapped);
}

/// Markdown for one tag, executable side.
fn tag_md_exec(content: &Vec<char>) -> (r: Vec<char>)
    ensures
        r@ == tag_md(content@),
{
    proof {
        reveal_strlit("br");
        reveal_strlit("h1");
        reveal_strlit("h2");
        reveal_strlit("h3");
        reveal_strlit("h4");
        reveal_strlit("h5");
        reveal_strlit("h6");
        reveal_strlit("p");
        reveal_strlit("b");
        reveal_strlit("strong");
        reveal_strlit("em");
        reveal_strlit("i");
        reveal_strlit("ul");
        reveal_strlit("ol");
        reveal_strlit("li");
        reveal_strlit("div");
        reveal_strlit("\n");
        reveal_strlit("\n\n");
        reveal_strlit("# ");
        reveal_strlit("## ");
        reveal_strlit("### ");
        reveal_strlit("#### ");
        reveal_strlit("##### ");
        reveal_strlit("###### ");
        reveal_strlit("**");
        reveal_strlit("*");
        reveal_strlit("- ");
        reveal_strlit("");
        assert("br"@ =~= seq!['b', 'r']);
        assert("h1"@ =~= seq!['h', '1']);
        assert("h2"@ =~= seq!['h', '2']);
        assert("h3"@ =~= seq!['h', '3']);
        assert("h4"@ =~= seq!['h', '4']);
        assert("h5"@ =~= seq!['h', '5']);
        assert("h6"@ =~= seq!['h', '6']);
        assert("p"@ =~= seq!['p']);
        assert("b"@ =~= seq!['b']);
        assert("strong"@ =~= seq!['s', 't', 'r', 'o', 'n', 'g']);
        assert("em"@ =~= seq!['e', 'm']);
        assert("i"@ =~= seq!['i']);
        assert("ul"@ =~= seq!['u', 'l']);
        assert("ol"@ =~= seq!['o', 'l']);
        assert("li"@ =~= seq!['l', 'i']);
        assert("div"@ =~= seq!['d', 'i', 'v']);
        assert("\n"@ =~= seq!['\n']);
        assert("\n\n"@ =~= nn());
        assert("# "@ =~= seq!['#', ' ']);
        assert("## "@ =~= seq!['#', '#', ' ']);
        assert("### "@ =~= seq!['#', '#', '#', ' ']);
        assert("#### "@ =~= seq!['#', '#', '#', '#', ' ']);
        assert("##### "@ =~= seq!['#', '#', '#', '#', '#', ' ']);
        assert("###### "@ =~= seq!['#', '#', '#', '#', '#', '#', ' ']);
        assert("**"@ =~= seq!['*', '*']);
        assert("*"@ =~= seq!['*']);
        assert("- "@ =~= seq!['-', ' ']);
        assert(""@ =~= Seq::<char>::empty());
    }
    let closing = content.len() > 0 && content[0] == '/';
    let p0: usize = if closing {
        1
    } else {
        0
    };
    let mut p1: usize = p0;
    while p1 < content.len() && is_alnum_char(content[p1])
        invariant
            p0 <= p1 <= content@.len(),
            forall|j: int| p0 <= j < p1 ==> is_alnum_c(content@[j]),
        decreases content@.len() - p1,
    {
        p1 = p1 + 1;
    }
    proof {
        lemma_alnum_at(content@, p0 as int, p1 as int);
        assert(tag_name(content@) == lower_seq(content@.subrange(p0 as int, p1 as int)));
    }
    if seg_is_ci(content, p0, p1, "br") {
        to_chars("\n")
    } else if seg_is_ci(content, p0, p1, "h1") {
        if closing {
            to_chars("\n\n")
        } else {
            to_chars("# ")
        }
    } else if seg_is_ci(content, p0, p1, "h2") {
        if closing {
            to_chars("\n\n")
        } else {
            to_chars("## ")
        }
    } else if seg_is_ci(content, p0, p1, "h3") {
        if closing {
            to_chars("\n\n")
        } else {
            to_chars("### ")
        }
    } else if seg_is_ci(content, p0, p1, "h4") {
        if closing {
            to_chars("\n\n")
        } else {
            to_chars("#### ")
        }
    } else if seg_is_ci(content, p0, p1, "h5") {
        if closing {
            to_chars("\n\n")
        } else {
            to_chars("##### ")
        }
    } else if seg_is_ci(content, p0, p1, "h6") {
        if closing {
            to_chars("\n\n")
        } else {
            to_chars("###### ")
        }
    } else if seg_is_ci(content, p0, p1, "p") {
        if closing {
            to_chars("\n\n")
        } else {
            to_chars("")
        }
    } else if seg_is_ci(content, p0, p1, "b") || seg_is_ci(content, p0, p1, "strong") {
        to_chars("**")
    } else if seg_is_ci(content, p0, p1, "em") || seg_is_ci(content, p0, p1, "i") {
        to_chars("*")
    } else if seg_is_ci(content, p0, p1, "ul") || seg_is_ci(content, p0, p1, "ol") {
        if closing {
            to_chars("\n")
        } else {
            to_chars("")
        }
    } else if seg_is_ci(content, p0, p1, "li") {
        if closing {
            to_chars("\n")
        } else {
            to_chars("- ")
        }
    } else if seg_is_ci(content, p0, p1, "div") {
        if closing {
            to_chars("\n")
        } else {
            to_chars("")
        }
    } else {
        to_chars("")
    }
}

/// The tokenizing pass, executable side.
fn conv_vec(v: &Vec<char>) -> (r: Vec<char>)
    ensures
        r@ == conv_from(v@, 0),
{
    proof {
        reveal_strlit("<!--");
        reveal_strlit("-->");
        reveal_strlit(">");
        assert("<!--"@ =~= seq!['<', '!', '-', '-']);
        assert("-->"@ =~= seq!['-', '-', '>']);
        assert(">"@ =~= seq!['>']);
    }
    let n: usize = v.len();
    let mut out: Vec<char> = Vec::new();
    let mut i: usize = 0;
    while i < n
        invariant
            i <= n == v@.len(),
            conv_from(v@, 0) == out@ + conv_from(v@, i as int),
        decreases n - i,
    {
        if matches_exact(v, i, "<!--") {
            match find_exact(v, i + 4, "-->") {
                Some(c) => {
                    proof {
                        lemma_first_at_bounds(v@, i + 4, "-->"@);
                    }
                    i = c + 3;
                },
                None => {
                    assert(conv_from(v@, i as int) =~= Seq::<char>::empty());
                    i = n;
                },
            }
        } else if v[i] == '<' {
            match find_exact(v, i + 1, ">") {
                Some(g) => {
                    proof {
                        lemma_first_at_bounds(v@, i + 1, ">"@);
                    }
                    let content = copy_range(v, i + 1, g);
                    let md = tag_md_exec(&content);
                    let ghost pre = out@;
                    push_all(&mut out, &md);
                    assert(pre + (md@ + conv_from(v@, g + 1)) =~= out@ + conv_from(v@, g + 1));
                    i = g + 1;
                },
                None => {
                    assert(conv_from(v@, i as int) =~= Seq::<char>::empty());
                    i = n;
                },
            }
        } else {
            let ghost pre = out@;
            out.push(v[i]);
            assert(pre + (seq![v@[i as int]] + conv_from(v@, i + 1)) =~= out@ + conv_from(
                v@,
                i + 1,
            ));
            i = i + 1;
        }
    }
    assert(conv_from(v@, n as int) =~= Seq::<char>::empty());
    assert(out@ + Seq::<char>::empty() =~= out@);
    out
}

/// The whitespace pass, executable side.
fn norm_vec(v: &Vec<char>) -> (r: Vec<char>)
    ensures
        r@ == norm_from(v@, 0, 0, false),
{
    let n: usize = v.len();
    let mut out: Vec<char> = Vec::new();
    let mut i: usize = 0;
    let mut nl: usize = 0;
    let mut sp: bool = false;
    while i < n
        invariant
            i <= n == v@.len(),
            nl <= 3,
            norm_from(v@, 0, 0, false) == out@ + norm_from(v@, i as int, nl as int, sp),
        decreases n - i,
    {
        let c = v[i];
        let ghost pre = out@;
        let nl2: usize = if nl < 3 {
            nl + 1
        } else {
            3
        };
        if c == '\n' {
            if nl <= 1 {
                out.push('\n');
                assert(pre + (seq!['\n'] + norm_from(v@, i + 1, nl2 as int, false)) =~= out@
                    + norm_from(v@, i + 1, nl2 as int, false));
            }
            nl = nl2;
            sp = false;
        } else if c == ' ' && sp {
            nl = 0;
        } else {
            out.push(c);
            assert(pre + (seq![v@[i as int]] + norm_from(v@, i + 1, 0, v@[i as int] == ' ')) =~=
                out@ + norm_from(v@, i + 1, 0, v@[i as int] == ' '));
            nl = 0;
            sp = c == ' ';
        }
        i = i + 1;
    }
    assert(norm_from(v@, n as int, nl as int, sp) =~= Seq::<char>::empty());
    assert(out@ + Seq::<char>::empty() =~= out@);
    out
}

/// Convert a character buffer of cleaned HTML to Markdown.
pub fn convert_chars(fragment: &Vec<char>) -> (r: Vec<char>)
    ensures
        r@ == convert_spec(fragment@),
{
    let c = conv_vec(fragment);
    let m = norm_vec(&c);
    trim_chars(&m)
}

/// Convert a cleaned HTML fragment to Markdown: headings, paragraphs,
/// breaks, emphasis and flat lists are mapped, every other tag is dropped,
/// whitespace is collapsed, and the result is trimmed.
pub fn convert(fragment: &str) -> (r: String)
    ensures
        r@ == convert_spec(fragment@),
{
    let v = to_chars(fragment);
    let t = convert_chars(&v);
    from_chars(&t)
}

/// Convert a cleaned HTML fragment to Markdown and, when `base_url` is not
/// blank, put a `# Content from: <base_url>` heading and a blank line first.
pub fn convert_with_source(fragment: &str, base_url: &str) -> (r: String)
    ensures
        r@ == convert_with_source_spec(fragment@, base_url@),
{
    let bv = to_chars(base_url);
    if blank_chars(&bv) {
        convert(fragment)
    } else {
        proof {
            reveal_strlit("# Content from: ");
            assert("# Content from: "@ =~= source_header());
            reveal_strlit("\n\n");
            assert("\n\n"@ =~= nn());
        }
        let fv = to_chars(fragment);
        let body = convert_chars(&fv);
        let mut out = to_chars("# Content from: ");
        push_all(&mut out, &bv);
        push_str_chars(&mut out, "\n\n");
        push_all(&mut out, &body);
        let t = trim_chars(&out);
        from_chars(&t)
    }
}

} // verus!
