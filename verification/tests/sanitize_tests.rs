use notelog::links::url_to_safe_filename;

#[test]
fn strips_http_scheme() {
    assert_eq!(url_to_safe_filename("http://example.com"), "example.com");
}

#[test]
fn strips_https_scheme_and_maps_punctuation() {
    assert_eq!(url_to_safe_filename("https://a.b/c?d=e"), "a.b_c_d_e");
}

#[test]
fn trims_dots_and_spaces_at_ends() {
    assert_eq!(url_to_safe_filename("http://example.com..."), "example.com");
}

#[test]
fn keeps_unicode_letters() {
    assert_eq!(url_to_safe_filename("http://caf\u{e9}.example"), "caf\u{e9}.example");
}

#[test]
fn maps_spaces_without_scheme() {
    assert_eq!(url_to_safe_filename("weird name!"), "weird_name_");
}

#[test]
fn trims_outer_whitespace_first() {
    assert_eq!(url_to_safe_filename("  http://example.com  "), "example.com");
}
