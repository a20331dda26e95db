use simple_web_server::header::format_header;
use simple_web_server::mime::get_mime_type;
use simple_web_server::range::{parse_range, plan_span, FileSpan};
use simple_web_server::request::Request;
use simple_web_server::status::get_http_message;

fn request(head: &str) -> Request {
    Request::new(head).expect("valid head")
}

#[test]
fn parses_request_line_and_headers() {
    let req = request("GET /a%20b/../c.txt?x=1 HTTP/1.1\r\nhost: example\r\ncontent-length: 5\r\n\r\n");
    assert_eq!(req.method, "GET");
    assert_eq!(req.path, "/c.txt");
    assert_eq!(req.origpath, "/c.txt");
    assert_eq!(req.get_header("Host"), "example");
    assert_eq!(req.get_header("CONTENT-LENGTH"), "5");
    assert_eq!(req.body_left(), 5);
    assert_eq!(req.get_header("missing"), "");
}

#[test]
fn duplicate_request_headers_keep_the_last() {
    let req = request("GET / HTTP/1.1\r\nX-A: 1\r\nx-a: 2\r\n\r\n");
    assert_eq!(req.get_header("x-a"), "2");
}

#[test]
fn malformed_request_line_is_refused() {
    assert!(Request::new("GARBAGE\r\n\r\n").is_none());
    assert!(Request::new("").is_none());
}

#[test]
fn canonical_header_names() {
    assert_eq!(format_header("content-LENGTH"), "Content-Length");
    assert_eq!(format_header("x--y"), "X--Y");
}

#[test]
fn unset_length_goes_chunked() {
    let mut req = request("GET / HTTP/1.1\r\n\r\n");
    req.write(b"hello");
    req.write(b"");
    req.end();
    let out = String::from_utf8(req.take_output()).unwrap();
    assert_eq!(out, "HTTP/1.1 200 OK\r\nTransfer-Encoding:Chunked\r\n\r\n5\r\nhello\r\n0\r\n\r\n");
}

#[test]
fn chunk_lengths_are_hexadecimal() {
    let mut req = request("GET / HTTP/1.1\r\n\r\n");
    req.write(&[b'x'; 26]);
    let out = req.take_output();
    let text = String::from_utf8(out).unwrap();
    assert!(text.ends_with(&format!("1a\r\n{}\r\n", "x".repeat(26))));
}

#[test]
fn end_twice_writes_one_terminator() {
    let mut req = request("GET / HTTP/1.1\r\n\r\n");
    req.end();
    let first = req.take_output();
    req.end();
    assert!(req.take_output().is_empty());
    assert_eq!(String::from_utf8(first).unwrap(), "HTTP/1.1 200 OK\r\nTransfer-Encoding:Chunked\r\n\r\n0\r\n\r\n");
}

#[test]
fn fixed_length_response_has_no_trailer() {
    let mut req = request("GET / HTTP/1.1\r\n\r\n");
    req.set_header("content-length", "2");
    req.set_header("Content-Length", "3");
    req.set_status(404);
    req.write_string("abc");
    req.end();
    let out = String::from_utf8(req.take_output()).unwrap();
    assert_eq!(out, "HTTP/1.1 404 Not Found\r\nContent-Length:3\r\n\r\nabc");
}

#[test]
fn header_queries_on_response() {
    let mut req = request("GET / HTTP/1.1\r\n\r\n");
    req.set_header("transfer-encoding", "CHUNKED");
    assert!(req.header_exists("Transfer-Encoding"));
    assert!(req.header_value_equals("TRANSFER-ENCODING", "chunked"));
    assert!(!req.header_exists("Content-Length"));
}

#[test]
fn dead_connection_produces_nothing() {
    let mut req = request("GET / HTTP/1.1\r\n\r\n");
    req.mark_closed();
    req.write(b"data");
    req.end();
    assert!(req.take_output().is_empty());
    assert!(req.connection_closed());
}

#[test]
fn body_reads_are_clamped() {
    let mut req = request("PUT /f HTTP/1.1\r\nContent-Length: 10\r\n\r\n");
    assert_eq!(req.read_len(4), 4);
    assert_eq!(req.read_len(0), 10);
    assert_eq!(req.read_len(50), 10);
    req.note_read(8);
    assert_eq!(req.read_len(4), 2);
    assert_eq!(req.body_left(), 2);
}

#[test]
fn range_from_start_is_whole_file() {
    let mut req = request("GET /f.txt HTTP/1.1\r\nRange: bytes=0-\r\n\r\n");
    let (span, body) = req.prepare_file("/srv/f.txt", 100, false);
    assert_eq!(span, FileSpan { offset: 0, length: 100, status: 200, range: Some((0, 99)) });
    assert_eq!(body, 100);
    req.end();
    let out = String::from_utf8(req.take_output()).unwrap();
    assert_eq!(
        out,
        "HTTP/1.1 200 OK\r\nContent-Type:text/plain; charset=utf-8\r\nContent-Range:bytes 0-99/100\r\nContent-Length:100\r\n\r\n"
    );
}

#[test]
fn range_from_offset_is_partial() {
    let mut req = request("GET /v.mp4 HTTP/1.1\r\nRange: bytes=40-\r\n\r\n");
    let (span, body) = req.prepare_file("v.mp4", 100, false);
    assert_eq!(span, FileSpan { offset: 40, length: 60, status: 206, range: Some((40, 99)) });
    assert_eq!(body, 60);
    assert_eq!(req.status_code(), 206);
}

#[test]
fn head_sends_headers_without_body() {
    let mut req = request("HEAD /v.bin HTTP/1.1\r\nRange: bytes=10-19\r\n\r\n");
    let (span, body) = req.prepare_file("v.bin", 100, true);
    assert_eq!(span.length, 10);
    assert_eq!(body, 0);
    req.end();
    let out = String::from_utf8(req.take_output()).unwrap();
    assert_eq!(out, "HTTP/1.1 206 Partial Content\r\nContent-Range:bytes 10-19/100\r\nContent-Length:10\r\n\r\n");
}

#[test]
fn range_bounds_are_clamped() {
    assert_eq!(plan_span(Some((5, Some(500))), 100), FileSpan { offset: 5, length: 95, status: 206, range: Some((5, 99)) });
    assert_eq!(plan_span(Some((90, Some(10))), 100), FileSpan { offset: 10, length: 1, status: 206, range: Some((10, 10)) });
    assert_eq!(plan_span(Some((500, None)), 100), FileSpan { offset: 99, length: 1, status: 206, range: Some((99, 99)) });
    assert_eq!(plan_span(None, 7), FileSpan { offset: 0, length: 7, status: 200, range: None });
    assert_eq!(plan_span(Some((0, None)), 0), FileSpan { offset: 0, length: 0, status: 200, range: None });
}

#[test]
fn range_header_values() {
    assert_eq!(parse_range("bytes=0-"), Some((0, None)));
    assert_eq!(parse_range("bytes= 10-20 "), Some((10, Some(20))));
    assert_eq!(parse_range("bytes=x-5"), Some((0, Some(5))));
    assert_eq!(parse_range("bytes"), None);
    assert_eq!(parse_range("bytes=5"), None);
    assert_eq!(parse_range(""), None);
}

#[test]
fn mime_and_status_tables() {
    assert_eq!(get_mime_type("html"), "text/html; charset=utf-8");
    assert_eq!(get_mime_type("png"), "image/png");
    assert_eq!(get_mime_type("unknownext"), "");
    assert_eq!(get_http_message(206), "Partial Content");
    assert_eq!(get_http_message(999), "Unknown");
}

#[test]
fn unknown_extension_sets_no_content_type() {
    let mut req = request("GET /x HTTP/1.1\r\n\r\n");
    req.prepare_file("/srv/x", 3, false);
    assert!(!req.header_exists("Content-Type"));
    assert!(req.header_value_equals("content-length", "3"));
}

#[test]
fn directory_listing_page() {
    let entries = vec![
        (String::from("/srv/docs"), true),
        (String::from("/srv/.hidden"), false),
        (String::from("/srv/a\"b.txt"), false),
    ];
    let page = simple_web_server::listing::render_listing(&entries, false, "/sub/", "/sub/");
    assert!(page.starts_with("<!DOCTYPE html>\n"));
    assert!(page.contains("<li class=\"directory\"><a href=\"docs/\">docs</a></li><li><a href=\"a\"b.txt/\">a\"b.txt</a></li></ul>"));
    assert!(!page.contains(".hidden"));
    assert!(page.contains("<script>onHasParentDirectory();</script><script>start(\"/sub/\")</script>"));
    assert!(page.contains("addRow(\"docs\", \"docs\", true, \"0\", \"\", \"0\", \"\");"));
    assert!(page.contains("addRow(\"a\\\"b.txt\", \"a\\\"b.txt\", false, \"0\", \"\", \"0\", \"\");"));
    assert!(page.ends_with("</div></body></html>"));
    let root = simple_web_server::listing::render_listing(&entries, true, "/", "/");
    assert!(root.contains(".hidden"));
    assert!(!root.contains("onHasParentDirectory"));
}

#[test]
fn empty_first_write_sends_only_the_head() {
    let mut req = request("GET / HTTP/1.1\r\n\r\n");
    req.write(b"");
    let out = String::from_utf8(req.take_output()).unwrap();
    assert_eq!(out, "HTTP/1.1 200 OK\r\nTransfer-Encoding:Chunked\r\n\r\n");
}

#[test]
fn last_readable_content_length_counts() {
    let req = request("PUT /f HTTP/1.1\r\nContent-Length: 5\r\ncontent-length: x\r\n\r\n");
    assert_eq!(req.body_left(), 5);
    let req = request("PUT /f HTTP/1.1\r\nContent-Length: 5\r\nCONTENT-LENGTH: 7\r\n\r\n");
    assert_eq!(req.body_left(), 7);
}

#[test]
fn header_value_split_once() {
    let req = request("GET / HTTP/1.1\r\nX-Note: a: b\r\n\r\n");
    assert_eq!(req.get_header("x-note"), "a: b");
}
