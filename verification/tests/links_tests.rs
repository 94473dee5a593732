use url2md::links::extract_links_from_html;

#[test]
fn test_link_resolution_forms() {
    let html = "<a href=\"../c\">r</a><a href=\"c\">r</a><a href=\"/d\">r</a><a href=\"//cdn.example.com/e.html\">r</a><a href=\"https://x.com/f\">r</a>";
    let links = extract_links_from_html(html, "http://example.com/a/b");
    assert_eq!(
        links,
        vec![
            "http://example.com/a/../c".to_string(),
            "http://example.com/a/c".to_string(),
            "http://example.com/d".to_string(),
            "https://cdn.example.com/e.html".to_string(),
            "https://x.com/f".to_string(),
        ]
    );
}

#[test]
fn test_links_end_to_end() {
    let html = "<a href=\"/x\">a</a><a href=\"#top\">b</a><a href=\"style.css\">c</a>";
    let links = extract_links_from_html(html, "https://site.com/page");
    assert_eq!(links, vec!["https://site.com/x".to_string()]);
}

#[test]
fn test_links_rejected_schemes() {
    let html = "<a href=\"mailto:a@b.c\">m</a><a href=\"tel:+123\">t</a><a href=\"javascript:void(0)\">j</a><a href=\"data:text/plain,x\">d</a><a href=\"\">e</a>";
    let links = extract_links_from_html(html, "https://site.com/");
    assert!(links.is_empty(), "Got: {:?}", links);
}

#[test]
fn test_links_dedup_and_sort() {
    let html = "<a href=\"/b\">1</a><a href=\"/a\">2</a><a href=\"/b\">3</a>";
    let links = extract_links_from_html(html, "https://s.com");
    assert_eq!(links, vec!["https://s.com/a".to_string(), "https://s.com/b".to_string()]);
}

#[test]
fn test_links_fragment_stripped_and_trailing_slash() {
    let html = "<a href=\"/p/q/#sec\">1</a><a href=\"/p/q/\">2</a><a href=\"/\">3</a>";
    let links = extract_links_from_html(html, "https://s.com");
    // /p/q/ loses its trailing slash; the root URL keeps it.
    assert_eq!(
        links,
        vec!["https://s.com/".to_string(), "https://s.com/p/q".to_string()]
    );
}

#[test]
fn test_links_extension_filter_before_query() {
    let html = "<a href=\"/pic.PNG?x=1\">1</a><a href=\"/doc?x=1\">2</a>";
    let links = extract_links_from_html(html, "https://s.com");
    assert_eq!(links, vec!["https://s.com/doc?x=1".to_string()]);
}

#[test]
fn test_links_unquoted_and_single_quoted() {
    let html = "<a href=page2>1</a><a href='page3'>2</a>";
    let links = extract_links_from_html(html, "https://s.com/dir/index");
    assert_eq!(
        links,
        vec![
            "https://s.com/dir/page2".to_string(),
            "https://s.com/dir/page3".to_string(),
        ]
    );
}

#[test]
fn test_links_malformed_value_skipped() {
    // No closing quote anywhere: the occurrence is skipped, and the scan
    // resumes after the marker and still finds the later reference.
    let html = "<a href=\"broken<a href=/ok>x";
    let links = extract_links_from_html(html, "https://s.com");
    assert_eq!(links, vec!["https://s.com/ok".to_string()]);
}

#[test]
fn test_links_href_case_insensitive() {
    let html = "<a HREF=\"/up\">1</a>";
    let links = extract_links_from_html(html, "https://s.com");
    assert_eq!(links, vec!["https://s.com/up".to_string()]);
}
