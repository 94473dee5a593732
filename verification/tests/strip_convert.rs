use url2md::convert::{convert, convert_with_source};
use url2md::locate::{locate, Source};
use url2md::strip::strip;

#[test]
fn test_strip_removes_all_noise_kinds() {
    let html = "a<script>x</script>b<style>y</style>c<!-- z -->d<nav>n</nav>e<footer>f</footer>g<aside>s</aside>h";
    assert_eq!(strip(html), "abcdegh");
}

#[test]
fn test_strip_case_insensitive_with_attributes() {
    let html = "keep <SCRIPT type=\"text/javascript\">alert(1)</SCRIPT> this";
    assert_eq!(strip(html), "keep  this");
}

#[test]
fn test_strip_shortest_span() {
    // The region ends at the first matching close, not the last.
    let html = "<script>a</script>mid</script>";
    assert_eq!(strip(html), "mid</script>");
}

#[test]
fn test_strip_unterminated_open_left_untouched() {
    let html = "<script src=broken.js";
    assert_eq!(strip(html), "<script src=broken.js");
}

#[test]
fn test_strip_idempotent() {
    let inputs = [
        "a<script>x</script>b",
        "<scr<script>x</script>ipt>y</scr<script>z</script>ipt>",
        "plain text",
        "",
    ];
    for html in inputs {
        let once = strip(html);
        let twice = strip(&once);
        assert_eq!(once, twice, "strip not idempotent on {:?}", html);
    }
}

#[test]
fn test_strip_removes_spliced_regions() {
    // Removing an inner region splices a new complete region together; the
    // stripper runs to a fixed point, so that one goes too.
    let html = "<scr<script>a</script>ipt>b</scr<script>c</script>ipt>";
    let out = strip(html);
    assert!(!out.contains("<script>b</script>"), "Got: {}", out);
}

#[test]
fn test_convert_headings_and_emphasis() {
    assert_eq!(convert("<h2>Two</h2>"), "## Two");
    assert_eq!(convert("<h6>Six</h6>"), "###### Six");
    assert_eq!(convert("<em>e</em> and <i>i</i>"), "*e* and *i*");
    assert_eq!(convert("<B>x</B>"), "**x**");
}

#[test]
fn test_convert_lists_flat() {
    let md = convert("<ul><li>a</li><li>b</li></ul>");
    assert_eq!(md, "- a\n- b");
}

#[test]
fn test_convert_breaks_and_divs() {
    assert_eq!(convert("a<br/>b"), "a\nb");
    assert_eq!(convert("<div>a</div><div>b</div>"), "a\nb");
}

#[test]
fn test_convert_drops_unknown_tags_and_comments() {
    assert_eq!(convert("<span class=\"x\">a</span><!-- hidden -->b"), "ab");
}

#[test]
fn test_convert_whitespace_collapse() {
    assert_eq!(convert("<p>a</p><p>b</p><p>c</p>"), "a\n\nb\n\nc");
    assert_eq!(convert("a    b"), "a b");
}

#[test]
fn test_convert_text_angle_close_kept() {
    // A stray '>' in plain text stays; a '<' opens a tag and swallows to '>'.
    assert_eq!(convert("2 > 1"), "2 > 1");
}

#[test]
fn test_convert_output_never_reopens_noise() {
    // The converted text has no '<' at all, so re-wrapping it in a paragraph
    // and running the pipeline again cannot resurface stripped content.
    let html = "<p>Hello</p><script>bad()</script>";
    let first = convert(&strip(html));
    assert!(!first.contains('<'));
    let rewrapped = format!("<p>{}</p>", first);
    let second = convert(&strip(&rewrapped));
    assert!(!second.contains("bad()"));
    assert_eq!(second, first);
}

#[test]
fn test_convert_with_source_header() {
    let md = convert_with_source("<p>body</p>", "http://a.example");
    assert_eq!(md, "# Content from: http://a.example\n\nbody");
}

#[test]
fn test_locate_article_wins() {
    let r = locate("<body><p>side</p><article><p>core</p></article></body>");
    assert_eq!(r.source, Source::MainSelector);
    assert_eq!(r.fragment, "<p>core</p>");
}

#[test]
fn test_locate_class_and_id_markers() {
    let r = locate("<div class=\"content wide\"><p>c</p></div>");
    assert_eq!(r.source, Source::MainSelector);
    assert_eq!(r.fragment, "<p>c</p>");
    let r2 = locate("<div id=\"main\">m</div>");
    assert_eq!(r2.source, Source::MainSelector);
    assert_eq!(r2.fragment, "m");
}

#[test]
fn test_locate_body_fallback() {
    let r = locate("<html><body><p>b</p></body></html>");
    assert_eq!(r.source, Source::Body);
    assert_eq!(r.fragment, "<p>b</p>");
}

#[test]
fn test_locate_whole_document_fallback() {
    let r = locate("<p>no body element</p>");
    assert_eq!(r.source, Source::WholeDocument);
    assert_eq!(r.fragment, "<p>no body element</p>");
}

#[test]
fn test_locate_blank_fragment_corrected() {
    // The matching element is an empty placeholder; the locator falls back
    // to the whole stripped input instead of returning a blank fragment.
    let html = "<article> </article><p>real text</p>";
    let r = locate(html);
    assert_eq!(r.source, Source::WholeDocument);
    assert!(r.fragment.contains("real text"));
}

#[test]
fn test_locate_blank_only_for_blank_stripped_input() {
    let r = locate("<script>all noise</script>");
    assert!(r.fragment.trim().is_empty());
    assert!(strip("<script>all noise</script>").trim().is_empty());
}
