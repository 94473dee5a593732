use url2md::{add, process_html_to_markdown};

#[test]
fn lib_test_add() {
    assert_eq!(add(2, 3), 5);
}

#[test]
fn lib_test_add_zero() {
    assert_eq!(add(0, 0), 0);
}

#[test]
fn lib_test_add_large_numbers() {
    assert_eq!(add(1000, 2000), 3000);
}

#[test]
fn lib_minimal_test_add() {
    assert_eq!(add(2, 3), 5);
}

#[test]
fn lib_original_test_add() {
    assert_eq!(add(2, 3), 5);
}

#[test]
fn lib_original_test_add_zero() {
    assert_eq!(add(0, 0), 0);
}

#[test]
fn lib_original_test_add_large_numbers() {
    assert_eq!(add(1000, 2000), 3000);
}

#[test]
fn test_html_to_markdown_basic() {
    let html = "<html><body><h1>Title</h1><p>Hello <b>world</b>!</p><script>alert('bad')</script><style>.bad{color:red;}</style></body></html>";
    let base = "http://example.com";
    let markdown = process_html_to_markdown(html, base);
    assert!(
        markdown.contains("# Title"),
        "Markdown should contain ATX H1 '# Title'. Got: {}",
        markdown
    );
    assert!(
        markdown.contains("Hello **world**!"),
        "Markdown should contain 'Hello **world**!'. Got: {}",
        markdown
    );
    assert!(!markdown.contains("<script"), "Script tag should be removed. Got: {}", markdown);
    assert!(!markdown.contains("<style"), "Style tag should be removed. Got: {}", markdown);
    assert!(
        !markdown.contains("alert('bad')"),
        "Script content should be removed. Got: {}",
        markdown
    );
    assert!(
        !markdown.contains(".bad{color:red;}"),
        "Style content should be removed. Got: {}",
        markdown
    );
}

#[test]
fn lib_original_test_html_to_markdown_basic() {
    let html = "<html><body><h1>Title</h1><p>Hello <b>world</b>!</p><script>alert('bad')</script><style>.bad{color:red;}</style></body></html>";
    let base = "http://example.com";
    let markdown = process_html_to_markdown(html, base);
    assert!(markdown.contains("# Title"), "Got: {}", markdown);
    assert!(markdown.contains("Hello **world**!"), "Got: {}", markdown);
    assert!(!markdown.contains("<script"), "Got: {}", markdown);
    assert!(!markdown.contains("<style"), "Got: {}", markdown);
    assert!(!markdown.contains("alert('bad')"), "Got: {}", markdown);
    assert!(!markdown.contains(".bad{color:red;}"), "Got: {}", markdown);
}

#[test]
fn test_html_to_markdown_no_main_selector() {
    let html = "<html><body><p>Just some text.</p></body></html>";
    let base = "http://example.com";
    let markdown = process_html_to_markdown(html, base);
    assert_eq!(
        markdown,
        "# Content from: http://example.com\n\nJust some text.",
        "Markdown: '{}'",
        markdown
    );
}

#[test]
fn lib_original_test_html_to_markdown_no_main_selector() {
    let html = "<html><body><p>Just some text.</p></body></html>";
    let base = "http://example.com";
    let markdown = process_html_to_markdown(html, base);
    assert!(markdown.contains("Just some text."), "Markdown: '{}'", markdown);
}

#[test]
fn test_html_to_markdown_empty_input() {
    let html = "";
    let base = "http://example.com";
    let markdown = process_html_to_markdown(html, base);
    assert!(markdown.trim().is_empty(), "Markdown should be empty: '{}'", markdown);
}

#[test]
fn lib_original_test_html_to_markdown_empty_input() {
    let html = "";
    let base = "http://example.com";
    let markdown = process_html_to_markdown(html, base);
    assert!(markdown.trim().is_empty(), "Markdown should be empty: '{}'", markdown);
}

#[test]
fn test_basic_html_conversion() {
    let html = "<html><body><h1>Title</h1><p>Hello world!</p></body></html>";
    let result = process_html_to_markdown(html, "http://example.com");
    assert!(result.contains("Title"));
    assert!(result.contains("Hello world"));
    assert!(result.contains("Content from: http://example.com"));
}

#[test]
fn test_end_to_end_page() {
    let html = "<html><body><h1>Title</h1><p>Hello <b>world</b>!</p><script>bad()</script></body></html>";
    let md = process_html_to_markdown(html, "");
    assert!(md.contains("# Title"), "Got: {}", md);
    assert!(md.contains("Hello **world**!"), "Got: {}", md);
    assert!(!md.contains("bad()"), "Got: {}", md);
}

#[test]
fn test_blank_base_url_gets_no_header() {
    let md = process_html_to_markdown("<p>text</p>", "   ");
    assert_eq!(md, "text");
}

#[test]
fn test_main_selector_preferred_over_body() {
    let html = "<html><body><div>side</div><main><p>core</p></main></body></html>";
    let md = process_html_to_markdown(html, "");
    assert_eq!(md, "core");
}
