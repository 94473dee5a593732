//! Noise stripper: removes script, style, comment, nav, footer and aside
//! regions from raw HTML.
//!
//! A noise region starts at an opening marker (`<script`, case-insensitive,
//! attributes tolerated up to the first `>`) and runs to the first matching
//! closing tag (`</script>`), the shortest such span. Comments run from
//! `<!--` to the first `-->`. An opening marker with no matching close is
//! left untouched, so that malformed input is never over-deleted. Stripping
//! repeats until no removable region remains, so a removal can never splice
//! two halves of the text into a fresh, still-removable region.

use vstd::prelude::*;

use crate::text::{
    copy_range, find_ci, find_exact, first_at, first_ci, from_chars, is_blank, is_space_c,
    lemma_first_at_bounds, lemma_first_ci_bounds, lower_c, matches_at, matches_ci, matches_ci_at,
    matches_exact, to_chars,
};

verus! {

/// The noise tag names, spelled out as lowercase character sequences.
pub open spec fn t_script() -> Seq<char> {
    seq!['s', 'c', 'r', 'i', 'p', 't']
}

pub open spec fn t_style() -> Seq<char> {
    seq!['s', 't', 'y', 'l', 'e']
}

pub open spec fn t_nav() -> Seq<char> {
    seq!['n', 'a', 'v']
}

pub open spec fn t_footer() -> Seq<char> {
    seq!['f', 'o', 'o', 't', 'e', 'r']
}

pub open spec fn t_aside() -> Seq<char> {
    seq!['a', 's', 'i', 'd', 'e']
}

/// End (exclusive) of the noise region for tag `t` starting at `i`, if the
/// opening marker stands there and a matching close follows.
pub open spec fn tag_region_end(s: Seq<char>, i: int, t: Seq<char>) -> Option<int> {
    if matches_ci_at(s, i, seq!['<'] + t) {
        match first_ci(s, i + 1 + t.len(), seq!['>']) {
            Some(g) => match first_ci(s, g + 1, seq!['<', '/'] + t + seq!['>']) {
                Some(c) => Some(c + t.len() + 3),
                None => None,
            },
            None => None,
        }
    } else {
        None
    }
}

/// End (exclusive) of the comment region starting at `i`, if one starts there.
pub open spec fn comment_region_end(s: Seq<char>, i: int) -> Option<int> {
    if matches_at(s, i, seq!['<', '!', '-', '-']) {
        match first_at(s, i + 4, seq!['-', '-', '>']) {
            Some(c) => Some(c + 3),
            None => None,
        }
    } else {
        None
    }
}

/// End (exclusive) of whichever noise region starts at `i`, if any. At most
/// one marker can stand at one position, since no marker is a prefix of
/// another.
pub open spec fn noise_region_end(s: Seq<char>, i: int) -> Option<int> {
    if comment_region_end(s, i) is Some {
        comment_region_end(s, i)
    } else if tag_region_end(s, i, t_script()) is Some {
        tag_region_end(s, i, t_script())
    } else if tag_region_end(s, i, t_style()) is Some {
        tag_region_end(s, i, t_style())
    } else if tag_region_end(s, i, t_nav()) is Some {
        tag_region_end(s, i, t_nav())
    } else if tag_region_end(s, i, t_footer()) is Some {
        tag_region_end(s, i, t_footer())
    } else if tag_region_end(s, i, t_aside()) is Some {
        tag_region_end(s, i, t_aside())
    } else {
        None
    }
}

proof fn lemma_tag_region_bounds(s: Seq<char>, i: int, t: Seq<char>)
    requires
        tag_region_end(s, i, t) is Some,
    ensures
        i < tag_region_end(s, i, t)->0 <= s.len(),
{
    let g = first_ci(s, i + 1 + t.len(), seq!['>'])->0;
    lemma_first_ci_bounds(s, i + 1 + t.len(), seq!['>']);
    let c = first_ci(s, g + 1, seq!['<', '/'] + t + seq!['>'])->0;
    lemma_first_ci_bounds(s, g + 1, seq!['<', '/'] + t + seq!['>']);
}

/// A noise region always ends after it starts and within the text.
pub proof fn lemma_region_bounds(s: Seq<char>, i: int)
    requires
        noise_region_end(s, i) is Some,
    ensures
        i < noise_region_end(s, i)->0 <= s.len(),
{
    if comment_region_end(s, i) is Some {
        lemma_first_at_bounds(s, i + 4, seq!['-', '-', '>']);
    } else if tag_region_end(s, i, t_script()) is Some {
        lemma_tag_region_bounds(s, i, t_script());
    } else if tag_region_end(s, i, t_style()) is Some {
        lemma_tag_region_bounds(s, i, t_style());
    } else if tag_region_end(s, i, t_nav()) is Some {
        lemma_tag_region_bounds(s, i, t_nav());
    } else if tag_region_end(s, i, t_footer()) is Some {
        lemma_tag_region_bounds(s, i, t_footer());
    } else {
        lemma_tag_region_bounds(s, i, t_aside());
    }
}

/// One stripping pass over `s` from position `i`: characters are kept except
/// where a noise region starts, which is skipped whole.
pub open spec fn strip_from(s: Seq<char>, i: int) -> Seq<char>
    decreases s.len() - i,
    via strip_from_dec
{
    if i < 0 || i >= s.len() {
        Seq::empty()
    } else {
        match noise_region_end(s, i) {
            Some(e) => strip_from(s, e),
            None => seq![s[i]] + strip_from(s, i + 1),
        }
    }
}

#[via_fn]
proof fn strip_from_dec(s: Seq<char>, i: int) {
    if 0 <= i < s.len() && noise_region_end(s, i) is Some {
        lemma_region_bounds(s, i);
    }
}

/// One full stripping pass.
pub open spec fn strip_once_spec(s: Seq<char>) -> Seq<char> {
    strip_from(s, 0)
}

/// The stripped text: stripping passes applied until nothing changes.
pub open spec fn strip_spec(s: Seq<char>) -> Seq<char>
    decreases s.len(),
{
    let t = strip_once_spec(s);
    if t.len() < s.len() {
        strip_spec(t)
    } else {
        s
    }
}

/// A pass never lengthens the text.
pub proof fn lemma_strip_from_len(s: Seq<char>, i: int)
    requires
        0 <= i <= s.len(),
    ensures
        strip_from(s, i).len() <= s.len() - i,
    decreases s.len() - i,
{
    if i < s.len() {
        match noise_region_end(s, i) {
            Some(e) => {
                lemma_region_bounds(s, i);
                lemma_strip_from_len(s, e);
            },
            None => {
                lemma_strip_from_len(s, i + 1);
            },
        }
    }
}

/// A pass that removes nothing is the identity, and then no noise region
/// starts anywhere in the text.
pub proof fn lemma_strip_ident(s: Seq<char>, i: int)
    requires
        0 <= i <= s.len(),
        strip_from(s, i).len() == s.len() - i,
    ensures
        strip_from(s, i) == s.skip(i),
        forall|j: int| i <= j < s.len() ==> noise_region_end(s, j) is None,
    decreases s.len() - i,
{
    if i == s.len() {
        assert(strip_from(s, i) =~= s.skip(i));
    } else {
        match noise_region_end(s, i) {
            Some(e) => {
                lemma_region_bounds(s, i);
                lemma_strip_from_len(s, e);
                assert(false);
            },
            None => {
                lemma_strip_ident(s, i + 1);
                assert(strip_from(s, i) =~= s.skip(i));
            },
        }
    }
}

/// Where no noise region starts, a pass is the identity.
pub proof fn lemma_no_region_ident(s: Seq<char>, i: int)
    requires
        0 <= i <= s.len(),
        forall|j: int| i <= j < s.len() ==> noise_region_end(s, j) is None,
    ensures
        strip_from(s, i) == s.skip(i),
    decreases s.len() - i,
{
    if i == s.len() {
        assert(strip_from(s, i) =~= s.skip(i));
    } else {
        lemma_no_region_ident(s, i + 1);
        assert(strip_from(s, i) =~= s.skip(i));
    }
}

/// ASCII lowering maps nothing new onto `'<'`.
proof fn lemma_lower_lt(c: char)
    ensures
        lower_c(c) == '<' ==> c == '<',
{
}

/// No noise region can start where there is no `'<'`.
proof fn lemma_no_marker_tag(s: Seq<char>, j: int, t: Seq<char>)
    requires
        !(0 <= j < s.len()) || s[j] != '<',
    ensures
        tag_region_end(s, j, t) is None,
{
    if matches_ci_at(s, j, seq!['<'] + t) {
        assert(lower_c(s[j + 0]) == (seq!['<'] + t)[0]);
        assert((seq!['<'] + t)[0] == '<');
        lemma_lower_lt(s[j]);
        assert(false);
    }
}

/// A `'<'` continues into a noise marker only through `'!'` or the first
/// letter of one of the five noise tags.
pub proof fn lemma_no_marker_second(s: Seq<char>, j: int)
    requires
        j + 1 < s.len() ==> s[j + 1] != '!' && lower_c(s[j + 1]) != 's' && lower_c(s[j + 1]) != 'n'
            && lower_c(s[j + 1]) != 'f' && lower_c(s[j + 1]) != 'a',
    ensures
        noise_region_end(s, j) is None,
{
    if matches_at(s, j, seq!['<', '!', '-', '-']) {
        assert(s[j + 1] == (seq!['<', '!', '-', '-'])[1]);
        assert(false);
    }
    if matches_ci_at(s, j, seq!['<'] + t_script()) {
        assert(lower_c(s[j + 1]) == (seq!['<'] + t_script())[1]);
        assert(false);
    }
    if matches_ci_at(s, j, seq!['<'] + t_style()) {
        assert(lower_c(s[j + 1]) == (seq!['<'] + t_style())[1]);
        assert(false);
    }
    if matches_ci_at(s, j, seq!['<'] + t_nav()) {
        assert(lower_c(s[j + 1]) == (seq!['<'] + t_nav())[1]);
        assert(false);
    }
    if matches_ci_at(s, j, seq!['<'] + t_footer()) {
        assert(lower_c(s[j + 1]) == (seq!['<'] + t_footer())[1]);
        assert(false);
    }
    if matches_ci_at(s, j, seq!['<'] + t_aside()) {
        assert(lower_c(s[j + 1]) == (seq!['<'] + t_aside())[1]);
        assert(false);
    }
}

/// No noise region can start where there is no `'<'`.
pub proof fn lemma_no_marker(s: Seq<char>, j: int)
    requires
        !(0 <= j < s.len()) || s[j] != '<',
    ensures
        noise_region_end(s, j) is None,
{
    if matches_at(s, j, seq!['<', '!', '-', '-']) {
        assert(s[j + 0] == (seq!['<', '!', '-', '-'])[0]);
        assert(false);
    }
    lemma_no_marker_tag(s, j, t_script());
    lemma_no_marker_tag(s, j, t_style());
    lemma_no_marker_tag(s, j, t_nav());
    lemma_no_marker_tag(s, j, t_footer());
    lemma_no_marker_tag(s, j, t_aside());
}

/// No noise region starts anywhere in fully stripped text: every remaining
/// occurrence of a noise marker lacks its matching close.
pub proof fn lemma_strip_clean(s: Seq<char>)
    ensures
        forall|j: int| noise_region_end(strip_spec(s), j) is None,
    decreases s.len(),
{
    let t = strip_once_spec(s);
    if t.len() < s.len() {
        lemma_strip_clean(t);
    } else {
        lemma_strip_from_len(s, 0);
        lemma_strip_ident(s, 0);
        assert forall|j: int| !(0 <= j < s.len()) implies noise_region_end(s, j) is None by {
            lemma_no_marker(s, j);
        }
    }
}

/// Text in which no noise region starts is left unchanged by stripping.
pub proof fn lemma_strip_fixed(s: Seq<char>)
    requires
        forall|j: int| noise_region_end(s, j) is None,
    ensures
        strip_spec(s) == s,
{
    lemma_no_region_ident(s, 0);
    assert(s.skip(0) == s);
}

/// Stripping is idempotent: a second strip changes nothing.
pub proof fn lemma_strip_idempotent(s: Seq<char>)
    ensures
        strip_spec(strip_spec(s)) == strip_spec(s),
{
    let out = strip_spec(s);
    lemma_strip_clean(s);
    lemma_no_region_ident(out, 0);
    assert(out.skip(0) == out);
}

/// Whitespace-only text is left unchanged by stripping.
pub proof fn lemma_strip_blank(s: Seq<char>)
    requires
        is_blank(s),
    ensures
        strip_spec(s) == s,
{
    assert forall|j: int| noise_region_end(s, j) is None by {
        if 0 <= j < s.len() {
            assert(is_space_c(s[j]));
            assert(s[j] != '<');
        }
        lemma_no_marker(s, j);
    }
    lemma_no_region_ident(s, 0);
    assert(s.skip(0) == s);
}

/// Detect the noise region for one tag; `t` is the ghost name the patterns
/// spell out.
fn tag_region(v: &Vec<char>, i: usize, open_pat: &str, close_pat: &str, Ghost(t): Ghost<
    Seq<char>,
>) -> (r: Option<usize>)
    requires
        open_pat@ == seq!['<'] + t,
        close_pat@ == seq!['<', '/'] + t + seq!['>'],
    ensures
        match r {
            Some(e) => tag_region_end(v@, i as int, t) == Some(e as int),
            None => tag_region_end(v@, i as int, t) is None,
        },
{
    proof {
        reveal_strlit(">");
        assert(">"@ =~= seq!['>']);
    }
    let n: usize = v.len();
    if matches_ci(v, i, open_pat) {
        let after = i + open_pat.unicode_len();
        match find_ci(v, after, ">") {
            Some(g) => {
                proof {
                    lemma_first_ci_bounds(v@, after as int, seq!['>']);
                }
                match find_ci(v, g + 1, close_pat) {
                    Some(c) => {
                        proof {
                            lemma_first_ci_bounds(v@, g + 1 as int, close_pat@);
                        }
                        Some(c + close_pat.unicode_len())
                    },
                    None => None,
                }
            },
            None => None,
        }
    } else {
        None
    }
}

/// Detect whichever noise region starts at `i`.
fn region_end(v: &Vec<char>, i: usize) -> (r: Option<usize>)
    ensures
        match r {
            Some(e) => noise_region_end(v@, i as int) == Some(e as int) && i < e <= v@.len(),
            None => noise_region_end(v@, i as int) is None,
        },
{
    proof {
        reveal_strlit("<!--");
        reveal_strlit("-->");
        reveal_strlit("<script");
        reveal_strlit("</script>");
        reveal_strlit("<style");
        reveal_strlit("</style>");
        reveal_strlit("<nav");
        reveal_strlit("</nav>");
        reveal_strlit("<footer");
        reveal_strlit("</footer>");
        reveal_strlit("<aside");
        reveal_strlit("</aside>");
        assert("<!--"@ =~= seq!['<', '!', '-', '-']);
        assert("-->"@ =~= seq!['-', '-', '>']);
        assert("<script"@ =~= seq!['<'] + t_script());
        assert("</script>"@ =~= seq!['<', '/'] + t_script() + seq!['>']);
        assert("<style"@ =~= seq!['<'] + t_style());
        assert("</style>"@ =~= seq!['<', '/'] + t_style() + seq!['>']);
        assert("<nav"@ =~= seq!['<'] + t_nav());
        assert("</nav>"@ =~= seq!['<', '/'] + t_nav() + seq!['>']);
        assert("<footer"@ =~= seq!['<'] + t_footer());
        assert("</footer>"@ =~= seq!['<', '/'] + t_footer() + seq!['>']);
        assert("<aside"@ =~= seq!['<'] + t_aside());
        assert("</aside>"@ =~= seq!['<', '/'] + t_aside() + seq!['>']);
    }
    let n: usize = v.len();
    let r: Option<usize> = if matches_exact(v, i, "<!--") {
        match find_exact(v, i + 4, "-->") {
            Some(c) => {
                proof {
                    lemma_first_at_bounds(v@, i + 4 as int, "-->"@);
                }
                Some(c + 3)
            },
            None => None,
        }
    } else {
        None
    };
    if r.is_some() {
        proof {
            lemma_region_bounds(v@, i as int);
        }
        return r;
    }
    let r = tag_region(v, i, "<script", "</script>", Ghost(t_script()));
    if r.is_some() {
        proof {
            lemma_region_bounds(v@, i as int);
        }
        return r;
    }
    let r = tag_region(v, i, "<style", "</style>", Ghost(t_style()));
    if r.is_some() {
        proof {
            lemma_region_bounds(v@, i as int);
        }
        return r;
    }
    let r = tag_region(v, i, "<nav", "</nav>", Ghost(t_nav()));
    if r.is_some() {
        proof {
            lemma_region_bounds(v@, i as int);
        }
        return r;
    }
    let r = tag_region(v, i, "<footer", "</footer>", Ghost(t_footer()));
    if r.is_some() {
        proof {
            lemma_region_bounds(v@, i as int);
        }
        return r;
    }
    let r = tag_region(v, i, "<aside", "</aside>", Ghost(t_aside()));
    if r.is_some() {
        proof {
            lemma_region_bounds(v@, i as int);
        }
        return r;
    }
    None
}

/// One stripping pass over a character buffer.
pub fn strip_once(v: &Vec<char>) -> (r: Vec<char>)
    ensures
        r@ == strip_once_spec(v@),
{
    let mut out: Vec<char> = Vec::new();
    let mut i: usize = 0;
    while i < v.len()
        invariant
            i <= v@.len(),
            strip_from(v@, 0) == out@ + strip_from(v@, i as int),
        decreases v@.len() - i,
    {
        match region_end(v, i) {
            Some(e) => {
                i = e;
            },
            None => {
                let ghost pre = out@;
                out.push(v[i]);
                assert(pre + (seq![v@[i as int]] + strip_from(v@, i + 1)) =~= out@ + strip_from(
                    v@,
                    i + 1,
                ));
                i = i + 1;
            },
        }
    }
    assert(strip_from(v@, v@.len() as int) =~= Seq::<char>::empty());
    assert(out@ + Seq::<char>::empty() =~= out@);
    out
}

/// Strip a character buffer until no removable region remains.
pub fn strip_vec(v: Vec<char>) -> (r: Vec<char>)
    ensures
        r@ == strip_spec(v@),
{
    let ghost orig = v@;
    let mut cur = v;
    loop
        invariant
            strip_spec(cur@) == strip_spec(orig),
        decreases cur@.len(),
    {
        let t = strip_once(&cur);
        proof {
            lemma_strip_from_len(cur@, 0);
        }
        if t.len() < cur.len() {
            cur = t;
        } else {
            proof {
                lemma_strip_ident(cur@, 0);
                assert(cur@.skip(0) == cur@);
            }
            return cur;
        }
    }
}

/// Remove all script, style, comment, nav, footer and aside regions.
///
/// The result is fully stripped: no noise region (an opening marker with its
/// matching close) starts anywhere in it, and stripping it again would change
/// nothing.
pub fn strip(html: &str) -> (r: String)
    ensures
        r@ == strip_spec(html@),
        forall|j: int| noise_region_end(r@, j) is None,
{
    proof {
        lemma_strip_clean(html@);
    }
    let v = to_chars(html);
    let out = strip_vec(v);
    from_chars(&out)
}

} // verus!
