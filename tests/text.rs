use simple_web_server::server::{from_relative, listen_host, validate_auth, GetByPath, Settings};
use simple_web_server::number::{decimal_of, hex_of, parse_u64, signed_decimal_of};
use simple_web_server::pem::clean_pem;
use simple_web_server::text::{decode_base64, is_hidden, relative_path, strip_off_file, url_decode};

#[test]
fn normalizes_dot_segments() {
    assert_eq!(relative_path("", "/a/b/../c/./d"), "/a/c/d");
}

#[test]
fn normalization_never_escapes_root() {
    assert_eq!(relative_path("", "/../../x"), "/x");
}

#[test]
fn relative_path_keeps_trailing_slash() {
    assert_eq!(relative_path("", "/a/b/"), "/a/b/");
    assert_eq!(relative_path("", ""), "/");
}

#[test]
fn relative_path_joins_with_current_directory() {
    assert_eq!(relative_path("/home/user", "docs/../pics"), "/home/user/pics");
    assert_eq!(relative_path("/home/user/", "x"), "/home/user/x");
}

#[test]
fn relative_path_keeps_drive_prefix() {
    assert_eq!(relative_path("C:/Users/me", "../you"), "C:/Users/you");
}

#[test]
fn url_decode_plain_and_escaped() {
    assert_eq!(url_decode("/a%20b"), "/a b");
    assert_eq!(url_decode("%E2%82%AC"), "\u{20ac}");
    assert_eq!(url_decode("abc"), "abc");
}

#[test]
fn url_decode_bad_escapes() {
    assert_eq!(url_decode("%zz1"), "%zz1");
    assert_eq!(url_decode("a%4"), "a%4");
    assert_eq!(url_decode("%41%zz"), "A%zz");
    assert_eq!(url_decode("%41%"), "A%");
    assert_eq!(url_decode("%FF"), "\u{ff}");
}

#[test]
fn strip_off_file_cases() {
    assert_eq!(strip_off_file("/"), "/");
    assert_eq!(strip_off_file("/a/b"), "/a");
    assert_eq!(strip_off_file("/a"), "");
    assert_eq!(strip_off_file("noslash"), "");
}

#[test]
fn hidden_components() {
    assert!(is_hidden(&String::from("/a/.git/x")));
    assert!(!is_hidden(&String::from("/a/./b/../c")));
    assert!(is_hidden(&String::from(".env")));
    assert!(!is_hidden(&String::from("/a/b.txt")));
}

#[test]
fn base64_decodes_credentials() {
    assert_eq!(decode_base64(b"dXNlcjpwYXNz"), "user:pass");
    assert_eq!(decode_base64(b"YQ=="), "a");
    assert_eq!(decode_base64(b""), "");
}

#[test]
fn numbers_as_text() {
    assert_eq!(hex_of(255), b"ff".to_vec());
    assert_eq!(hex_of(0), b"0".to_vec());
    assert_eq!(decimal_of(1234), b"1234".to_vec());
    assert_eq!(signed_decimal_of(-42), b"-42".to_vec());
    assert_eq!(signed_decimal_of(200), b"200".to_vec());
}

#[test]
fn parses_numbers_like_std() {
    let chars = |s: &str| s.chars().collect::<Vec<char>>();
    assert_eq!(parse_u64(&chars("123")), Some(123));
    assert_eq!(parse_u64(&chars("+7")), Some(7));
    assert_eq!(parse_u64(&chars("")), None);
    assert_eq!(parse_u64(&chars("12a")), None);
    assert_eq!(parse_u64(&chars("18446744073709551616")), None);
    assert_eq!(parse_u64(&chars("18446744073709551615")), Some(u64::MAX));
}

#[test]
fn pem_lines_trimmed() {
    assert_eq!(clean_pem("  -----BEGIN X-----\n\n   abc  \r\n-----END X-----\n"), "-----BEGIN X-----\nabc\n-----END X-----");
}

#[test]
fn basic_credentials() {
    assert!(validate_auth("Basic dXNlcjpwYXNz", "user", "pass"));
    assert!(validate_auth("bAsIc dXNlcjpwYXNz", "user", "pass"));
    assert!(!validate_auth("Basic dXNlcjpwYXNz", "user", "other"));
    assert!(!validate_auth("Bearer dXNlcjpwYXNz", "user", "pass"));
    assert!(!validate_auth("Basic Og==", "", ""));
    assert!(!validate_auth("Basic abc", "user", "pass"));
    assert!(!validate_auth("", "", ""));
}

#[test]
fn file_paths_under_root() {
    assert_eq!(from_relative("/srv/", "/a//b"), "/srv/a/b");
    assert_eq!(from_relative("C:\\www\\", "/x"), "C:/www/x");
}

#[test]
fn hidden_entries_by_path() {
    let e = GetByPath { is_file: true, is_directory: false, error: false, path: String::from("/srv/.secret"), length: 3 };
    assert!(e.is_hidden());
}

#[test]
fn listen_hosts() {
    let mut s = Settings {
        port: 8080, path: "/", local_network: false, spa: false, rewrite_to: "", directory_listing: true,
        exclude_dot_html: false, ipv6: false, hidden_dot_files: true, cors: false, upload: false, replace: false,
        delete: false, hidden_dot_files_directory_listing: true, custom401: "", custom403: "", custom404: "",
        custom500: "", http_auth: false, http_auth_username: "", http_auth_password: "", index: false,
        https: false, https_cert: "", https_key: "",
    };
    assert_eq!(listen_host(&s), "127.0.0.1");
    s.local_network = true;
    assert_eq!(listen_host(&s), "0.0.0.0");
    s.ipv6 = true;
    assert_eq!(listen_host(&s), "::");
}
