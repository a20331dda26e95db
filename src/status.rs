//! Reason phrases of HTTP status codes.
use vstd::prelude::*;

verus! {

/// The reason phrase of a status code; codes without one get `Unknown`.
pub open spec fn reason_phrase(code: i32) -> Seq<char> {
    if code == 100 { "Continue"@ }
    else if code == 101 { "Switching Protocols"@ }
    else if code == 200 { "OK"@ }
    else if code == 201 { "Created"@ }
    else if code == 202 { "Accepted"@ }
    else if code == 204 { "No Content"@ }
    else if code == 206 { "Partial Content"@ }
    else if code == 301 { "Moved Permanently"@ }
    else if code == 302 { "Found"@ }
    else if code == 303 { "See Other"@ }
    else if code == 304 { "Not Modified"@ }
    else if code == 307 { "Temporary Redirect"@ }
    else if code == 308 { "Permanent Redirect"@ }
    else if code == 400 { "Bad Request"@ }
    else if code == 401 { "Unauthorized"@ }
    else if code == 403 { "Forbidden"@ }
    else if code == 404 { "Not Found"@ }
    else if code == 405 { "Method Not Allowed"@ }
    else if code == 408 { "Request Timeout"@ }
    else if code == 409 { "Conflict"@ }
    else if code == 411 { "Length Required"@ }
    else if code == 413 { "Payload Too Large"@ }
    else if code == 414 { "URI Too Long"@ }
    else if code == 416 { "Range Not Satisfiable"@ }
    else if code == 500 { "Internal Server Error"@ }
    else if code == 501 { "Not Implemented"@ }
    else if code == 502 { "Bad Gateway"@ }
    else if code == 503 { "Service Unavailable"@ }
    else if code == 504 { "Gateway Timeout"@ }
    else if code == 505 { "HTTP Version Not Supported"@ }
    else { "Unknown"@ }
}

fn phrase(code: i32) -> (r: &'static str)
    ensures
        r@ == reason_phrase(code),
{
    if code == 100 { "Continue" }
    else if code == 101 { "Switching Protocols" }
    else if code == 200 { "OK" }
    else if code == 201 { "Created" }
    else if code == 202 { "Accepted" }
    else if code == 204 { "No Content" }
    else if code == 206 { "Partial Content" }
    else if code == 301 { "Moved Permanently" }
    else if code == 302 { "Found" }
    else if code == 303 { "See Other" }
    else if code == 304 { "Not Modified" }
    else if code == 307 { "Temporary Redirect" }
    else if code == 308 { "Permanent Redirect" }
    else if code == 400 { "Bad Request" }
    else if code == 401 { "Unauthorized" }
    else if code == 403 { "Forbidden" }
    else if code == 404 { "Not Found" }
    else if code == 405 { "Method Not Allowed" }
    else if code == 408 { "Request Timeout" }
    else if code == 409 { "Conflict" }
    else if code == 411 { "Length Required" }
    else if code == 413 { "Payload Too Large" }
    else if code == 414 { "URI Too Long" }
    else if code == 416 { "Range Not Satisfiable" }
    else if code == 500 { "Internal Server Error" }
    else if code == 501 { "Not Implemented" }
    else if code == 502 { "Bad Gateway" }
    else if code == 503 { "Service Unavailable" }
    else if code == 504 { "Gateway Timeout" }
    else if code == 505 { "HTTP Version Not Supported" }
    else { "Unknown" }
}

/// The reason phrase of a status code, as in `404 Not Found`.
pub fn get_http_message(code: i32) -> (r: String)
    ensures
        r@ == reason_phrase(code),
{
    crate::text::string_of(&crate::text::chars_of(phrase(code)))
}

} // verus!
