//! Content types by file extension.
use vstd::prelude::*;

verus! {

/// Whether `a` holds the characters of `lit`.
pub fn same_chars(a: &Vec<char>, lit: &str) -> (r: bool)
    ensures
        r == (a@ == lit@),
{
    let b = crate::text::chars_of(lit);
    if a.len() != b.len() {
        return false;
    }
    let mut i: usize = 0;
    while i < a.len()
        invariant
            i <= a.len() == b.len(),
            b@ == lit@,
            forall|j: int| 0 <= j < i ==> a@[j] == b@[j],
        decreases a.len() - i,
    {
        if a[i] != b[i] {
            return false;
        }
        i = i + 1;
    }
    assert(a@ =~= b@);
    true
}

/// The content type of a file extension; empty for one not in the table.
pub open spec fn mime_of(ext: Seq<char>) -> Seq<char> {
    if ext == "html"@ || ext == "htm"@ { "text/html; charset=utf-8"@ }
    else if ext == "xhtml"@ || ext == "xhtm"@ { "application/xhtml+xml; charset=utf-8"@ }
    else if ext == "css"@ { "text/css; charset=utf-8"@ }
    else if ext == "js"@ || ext == "mjs"@ { "text/javascript; charset=utf-8"@ }
    else if ext == "json"@ { "application/json"@ }
    else if ext == "txt"@ { "text/plain; charset=utf-8"@ }
    else if ext == "xml"@ { "application/xml"@ }
    else if ext == "csv"@ { "text/csv"@ }
    else if ext == "md"@ { "text/markdown; charset=utf-8"@ }
    else if ext == "png"@ { "image/png"@ }
    else if ext == "jpg"@ || ext == "jpeg"@ { "image/jpeg"@ }
    else if ext == "gif"@ { "image/gif"@ }
    else if ext == "svg"@ { "image/svg+xml"@ }
    else if ext == "ico"@ { "image/x-icon"@ }
    else if ext == "webp"@ { "image/webp"@ }
    else if ext == "mp4"@ { "video/mp4"@ }
    else if ext == "webm"@ { "video/webm"@ }
    else if ext == "mp3"@ { "audio/mpeg"@ }
    else if ext == "wav"@ { "audio/wav"@ }
    else if ext == "ogg"@ { "audio/ogg"@ }
    else if ext == "pdf"@ { "application/pdf"@ }
    else if ext == "zip"@ { "application/zip"@ }
    else if ext == "wasm"@ { "application/wasm"@ }
    else if ext == "woff"@ { "font/woff"@ }
    else if ext == "woff2"@ { "font/woff2"@ }
    else if ext == "ttf"@ { "font/ttf"@ }
    else { Seq::empty() }
}

fn mime_str(ext: &Vec<char>) -> (r: &'static str)
    ensures
        r@ == mime_of(ext@),
{
    if same_chars(ext, "html") || same_chars(ext, "htm") { "text/html; charset=utf-8" }
    else if same_chars(ext, "xhtml") || same_chars(ext, "xhtm") { "application/xhtml+xml; charset=utf-8" }
    else if same_chars(ext, "css") { "text/css; charset=utf-8" }
    else if same_chars(ext, "js") || same_chars(ext, "mjs") { "text/javascript; charset=utf-8" }
    else if same_chars(ext, "json") { "application/json" }
    else if same_chars(ext, "txt") { "text/plain; charset=utf-8" }
    else if same_chars(ext, "xml") { "application/xml" }
    else if same_chars(ext, "csv") { "text/csv" }
    else if same_chars(ext, "md") { "text/markdown; charset=utf-8" }
    else if same_chars(ext, "png") { "image/png" }
    else if same_chars(ext, "jpg") || same_chars(ext, "jpeg") { "image/jpeg" }
    else if same_chars(ext, "gif") { "image/gif" }
    else if same_chars(ext, "svg") { "image/svg+xml" }
    else if same_chars(ext, "ico") { "image/x-icon" }
    else if same_chars(ext, "webp") { "image/webp" }
    else if same_chars(ext, "mp4") { "video/mp4" }
    else if same_chars(ext, "webm") { "video/webm" }
    else if same_chars(ext, "mp3") { "audio/mpeg" }
    else if same_chars(ext, "wav") { "audio/wav" }
    else if same_chars(ext, "ogg") { "audio/ogg" }
    else if same_chars(ext, "pdf") { "application/pdf" }
    else if same_chars(ext, "zip") { "application/zip" }
    else if same_chars(ext, "wasm") { "application/wasm" }
    else if same_chars(ext, "woff") { "font/woff" }
    else if same_chars(ext, "woff2") { "font/woff2" }
    else if same_chars(ext, "ttf") { "font/ttf" }
    else {
        proof {
            reveal_strlit("");
        }
        ""
    }
}

/// The content type of a file extension such as `html`; empty when the
/// extension is not in the table.
pub fn get_mime_type(ext: &str) -> (r: String)
    ensures
        r@ == mime_of(ext@),
{
    let m = mime_str(&crate::text::chars_of(ext));
    crate::text::string_of(&crate::text::chars_of(m))
}

} // verus!
