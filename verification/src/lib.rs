//! Verified core of a web-page-to-Markdown converter.
//!
//! The library turns raw HTML into clean Markdown and discovers outbound
//! links, and drives a pausable, retrying batch run over a queue of URLs.
//! All text processing is done on `Vec<char>` buffers with full functional
//! contracts; fetching and file handling live outside the library.
#![verifier::loop_isolation(false)]

use vstd::prelude::*;

pub mod batch;
pub mod convert;
pub mod filename;
pub mod links;
pub mod locate;
pub mod strip;
pub mod text;

use crate::convert::{convert_with_source, convert_with_source_spec};
use crate::locate::{locate, locate_frag_spec};
use crate::text::{blank_chars, is_blank, to_chars};

verus! {

/// Sum of two counters; the inputs must not overflow the result.
pub fn add(a: u32, b: u32) -> (r: u32)
    requires
        a + b <= u32::MAX,
    ensures
        r == a + b,
{
    a + b
}

/// What `process_html_to_markdown` returns: nothing for blank input, else
/// the located main content converted to Markdown, with a source heading
/// when `base_url` is not blank.
pub open spec fn process_spec(html: Seq<char>, base_url: Seq<char>) -> Seq<char> {
    if is_blank(html) {
        Seq::empty()
    } else {
        convert_with_source_spec(locate_frag_spec(html), base_url)
    }
}

/// The whole conversion pipeline for one page: locate the main content of
/// `html`, strip noise, convert it to Markdown, and head the result with
/// `# Content from: <base_url>` when `base_url` is not blank. Blank input
/// gives an empty result.
pub fn process_html_to_markdown(html: &str, base_url: &str) -> (r: String)
    ensures
        r@ == process_spec(html@, base_url@),
{
    let hv = to_chars(html);
    if blank_chars(&hv) {
        String::new()
    } else {
        let loc = locate(html);
        convert_with_source(loc.fragment.as_str(), base_url)
    }
}

} // verus!
