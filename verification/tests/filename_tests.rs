use url2md::filename::generate_filename_from_url;

#[test]
fn test_filename_generation() {
    let filename = generate_filename_from_url("https://example.com/page");
    assert_eq!(filename, "page.md");
}

#[test]
fn test_filename_host_for_root_url() {
    assert_eq!(generate_filename_from_url("https://example.com/"), "example.com.md");
    assert_eq!(generate_filename_from_url("https://example.com"), "example.com.md");
}

#[test]
fn test_filename_unsafe_chars_replaced() {
    assert_eq!(
        generate_filename_from_url("https://example.com/a b%c"),
        "a_b_c.md"
    );
}

#[test]
fn test_filename_placeholder_for_unusable_names() {
    assert_eq!(generate_filename_from_url(""), "converted_content.md");
    assert_eq!(generate_filename_from_url("///"), "converted_content.md");
    assert_eq!(generate_filename_from_url("https://???/"), "converted_content.md");
}

#[test]
fn test_filename_without_scheme_uses_last_segment() {
    assert_eq!(generate_filename_from_url("example.com/docs/intro"), "intro.md");
}

#[test]
fn test_filename_ignores_trailing_slashes() {
    assert_eq!(generate_filename_from_url("https://example.com/a/b/"), "b.md");
}
