//! Connection-level decisions: the configuration, reading a request head
//! byte by byte, and what a finished head leads to.
use crate::header::{canonical_name, lower_of};
use crate::request::{header_or_empty, head_is_valid, fresh_view, Request};
use crate::text::{base64_text, chars_of, decode_base64, first_pos, is_hidden, path_is_hidden, string_of};
use vstd::string::StringSliceAdditionalSpecFns;
use vstd::prelude::*;

verus! {

/// The configuration of a server, copied into every connection.
#[derive(Clone, Copy)]
pub struct Settings<'a> {
    pub port: i32,
    pub path: &'a str,
    pub local_network: bool,
    pub spa: bool,
    pub rewrite_to: &'a str,
    pub directory_listing: bool,
    pub exclude_dot_html: bool,
    pub ipv6: bool,
    pub hidden_dot_files: bool,
    pub cors: bool,
    pub upload: bool,
    pub replace: bool,
    pub delete: bool,
    pub hidden_dot_files_directory_listing: bool,
    pub custom401: &'a str,
    pub custom403: &'a str,
    pub custom404: &'a str,
    pub custom500: &'a str,
    pub http_auth: bool,
    pub http_auth_username: &'a str,
    pub http_auth_password: &'a str,
    pub index: bool,
    pub https: bool,
    pub https_cert: &'a str,
    pub https_key: &'a str,
}

/// The address to listen on: every interface on the local network, else
/// the loopback one, in IPv6 or IPv4.
pub open spec fn host_of(local_network: bool, ipv6: bool) -> Seq<char> {
    if local_network {
        if ipv6 { "::"@ } else { "0.0.0.0"@ }
    } else if ipv6 {
        "::1"@
    } else {
        "127.0.0.1"@
    }
}

pub fn listen_host(opts: &Settings) -> (r: &'static str)
    ensures
        r@ == host_of(opts.local_network, opts.ipv6),
{
    if opts.local_network {
        if opts.ipv6 { "::" } else { "0.0.0.0" }
    } else if opts.ipv6 {
        "::1"
    } else {
        "127.0.0.1"
    }
}

/// A file system entry as looked up by path.
pub struct GetByPath {
    pub is_file: bool,
    pub is_directory: bool,
    pub error: bool,
    pub path: String,
    pub length: u64,
}

impl GetByPath {
    /// Whether a component of the path names a dot-file.
    pub fn is_hidden(&self) -> (r: bool)
        ensures
            r == path_is_hidden(self.path@),
    {
        is_hidden(&self.path)
    }
}

/// What the transport saw when it tried to read one byte of a request head.
#[derive(Clone, Copy, PartialEq, Eq, Debug)]
pub enum ReadEvent {
    Byte(u8),
    /// The peer closed the connection.
    Eof,
    /// No byte yet; `stopped` tells whether the server is stopping.
    WouldBlock { stopped: bool },
    Failed,
}

/// What to do next while reading a request head.
#[derive(Clone, Copy, PartialEq, Eq, Debug)]
pub enum HeadStep {
    /// Read another byte.
    More,
    /// Wait a moment, then read again.
    Wait,
    /// The head is complete: parse it and answer it.
    Dispatch,
    /// Shut the connection down without answering.
    Close,
}

/// Whether `h` ends with the blank line `\r\n\r\n`.
pub open spec fn ends_head(h: Seq<u8>) -> bool {
    h.len() >= 4 && h.subrange(h.len() - 4, h.len() as int) == seq![13u8, 10u8, 13u8, 10u8]
}

/// One step of reading a request head. A byte outside ASCII cannot start
/// a request and closes the connection, as does the peer closing it. A
/// byte that ends the blank line completes the head. When no byte comes
/// and the server is stopping, or the read fails, the connection is closed
/// and what was read of the head is not answered.
pub open spec fn head_step_of(h: Seq<u8>, ev: ReadEvent) -> (Seq<u8>, HeadStep) {
    match ev {
        ReadEvent::Byte(b) => if b >= 128 {
            (h, HeadStep::Close)
        } else if ends_head(h.push(b)) {
            (h.push(b), HeadStep::Dispatch)
        } else {
            (h.push(b), HeadStep::More)
        },
        ReadEvent::Eof => (h, HeadStep::Close),
        ReadEvent::WouldBlock { stopped } => if stopped {
            (h, HeadStep::Close)
        } else {
            (h, HeadStep::Wait)
        },
        ReadEvent::Failed => (h, HeadStep::Close),
    }
}

pub fn head_step(head: &mut Vec<u8>, ev: ReadEvent) -> (r: HeadStep)
    ensures
        (final(head)@, r) == head_step_of(old(head)@, ev),
{
    match ev {
        ReadEvent::Byte(b) => {
            if b >= 128 {
                return HeadStep::Close;
            }
            head.push(b);
            let n = head.len();
            if n >= 4 && head[n - 4] == 13 && head[n - 3] == 10 && head[n - 2] == 13 && head[n - 1] == 10 {
                assert(head@.subrange(n - 4, n as int) =~= seq![13u8, 10u8, 13u8, 10u8]);
                HeadStep::Dispatch
            } else {
                assert(n >= 4 ==> head@.subrange(n - 4, n as int)[0] == head@[n - 4]);
                assert(n >= 4 ==> head@.subrange(n - 4, n as int)[1] == head@[n - 3]);
                assert(n >= 4 ==> head@.subrange(n - 4, n as int)[2] == head@[n - 2]);
                assert(n >= 4 ==> head@.subrange(n - 4, n as int)[3] == head@[n - 1]);
                HeadStep::More
            }
        },
        ReadEvent::Eof => HeadStep::Close,
        ReadEvent::WouldBlock { stopped } => {
            if stopped {
                HeadStep::Close
            } else {
                HeadStep::Wait
            }
        },
        ReadEvent::Failed => HeadStep::Close,
    }
}

/// A connection whose peer closes before sending a byte is shut down with
/// no request answered, and so is one where the server stops, or the read
/// fails, before a head is complete.
pub proof fn lemma_silent_peer_not_dispatched(h: Seq<u8>)
    ensures
        head_step_of(h, ReadEvent::WouldBlock { stopped: true }).1 == HeadStep::Close,
        head_step_of(h, ReadEvent::Failed).1 == HeadStep::Close,
        head_step_of(h, ReadEvent::Eof).1 == HeadStep::Close,
        head_step_of(Seq::empty(), ReadEvent::Eof) == (Seq::<u8>::empty(), HeadStep::Close),
        head_step_of(Seq::empty(), ReadEvent::Failed) == (Seq::<u8>::empty(), HeadStep::Close),
        head_step_of(Seq::empty(), ReadEvent::WouldBlock { stopped: true }) == (
            Seq::<u8>::empty(),
            HeadStep::Close,
        ),
{
}

/// Only ASCII ever enters a head.
pub proof fn lemma_head_stays_ascii(h: Seq<u8>, ev: ReadEvent)
    requires
        forall|i: int| 0 <= i < h.len() ==> h[i] < 128,
    ensures
        forall|i: int| 0 <= i < head_step_of(h, ev).0.len() ==> #[trigger] head_step_of(h, ev).0[i] < 128,
{
}

/// Whether a request asks to become a WebSocket: its `Upgrade` header is
/// `websocket` in any case.
pub open spec fn wants_upgrade(v: crate::request::RequestView) -> bool {
    lower_of(header_or_empty(v.headers, canonical_name("upgrade"@))) == "websocket"@
}

pub fn wants_websocket(req: &Request) -> (r: bool)
    ensures
        r == wants_upgrade(req@),
{
    let v = req.get_header("upgrade");
    let l = crate::header::lowercase(v.as_str());
    crate::mime::same_chars(&crate::text::chars_of(l.as_str()), "websocket")
}

/// The text of a completed head and the request read from it; none when
/// the bytes are not UTF-8 or the request line is malformed.
pub fn parse_head(head: &Vec<u8>) -> (r: Option<(Request, String)>)
    ensures
        r matches Some((q, s)) ==> vstd::utf8::decode_utf8(head@) == s@ && head_is_valid(s@) && q@
            == fresh_view(s@),
        r is None ==> !vstd::utf8::valid_utf8(head@) || !head_is_valid(
            vstd::utf8::decode_utf8(head@),
        ),
{
    match crate::text::utf8_string(head.clone()) {
        Some(s) => match Request::new(s.as_str()) {
            Some(q) => Some((q, s)),
            None => None,
        },
        None => None,
    }
}

/// Whether an `Authorization` value carries Basic credentials for `user`
/// and `pass`: it starts with `basic ` in any case, and the base64 after
/// those six bytes decodes to the user, a `:`, and the password.
pub open spec fn auth_ok(auth: Seq<char>, user: Seq<char>, pass: Seq<char>) -> bool {
    let b = vstd::utf8::encode_utf8(auth);
    let l = lower_of(auth);
    &&& auth.len() > 0
    &&& l.len() >= 6
    &&& l.take(6) == "basic "@
    &&& b.len() >= 6
    &&& (b.len() - 6) % 4 == 0
    &&& {
        let d = base64_text(b.skip(6));
        &&& d.len() > 0
        &&& d != seq![':']
        &&& exists|p: int| first_pos(d, ':', p) && d.take(p) == user && d.skip(p + 1) == pass
    }
}

/// Checks Basic credentials in an `Authorization` header value.
pub fn validate_auth(auth: &str, username: &str, password: &str) -> (r: bool)
    ensures
        r == auth_ok(auth@, username@, password@),
{
    if auth.is_empty() {
        return false;
    }
    let l = chars_of(crate::header::lowercase(auth).as_str());
    if l.len() < 6 {
        return false;
    }
    let mut prefix: Vec<char> = Vec::new();
    let mut i: usize = 0;
    while i < 6
        invariant
            i <= 6 <= l.len(),
            prefix@ == l@.take(i as int),
        decreases 6 - i,
    {
        prefix.push(l[i]);
        i = i + 1;
        assert(prefix@ =~= l@.take(i as int));
    }
    if !crate::mime::same_chars(&prefix, "basic ") {
        return false;
    }
    let b = auth.as_bytes();
    if b.len() < 6 || (b.len() - 6) % 4 != 0 {
        return false;
    }
    let mut data: Vec<u8> = Vec::new();
    let mut k: usize = 6;
    while k < b.len()
        invariant
            6 <= k <= b@.len(),
            data@ == b@.subrange(6, k as int),
        decreases b@.len() - k,
    {
        data.push(b[k]);
        k = k + 1;
        assert(data@ =~= b@.subrange(6, k as int));
    }
    assert(data@ =~= b@.skip(6));
    let d = chars_of(decode_base64(data.as_slice()).as_str());
    if d.len() == 0 || (d.len() == 1 && d[0] == ':') {
        assert(d.len() == 1 && d[0] == ':' ==> d@ =~= seq![':']);
        return false;
    }
    assert(d@ != seq![':']);
    let mut p: usize = 0;
    while p < d.len() && d[p] != ':'
        invariant
            p <= d.len(),
            forall|j: int| 0 <= j < p ==> d@[j] != ':',
        decreases d.len() - p,
    {
        p = p + 1;
    }
    if p == d.len() {
        assert(forall|q: int| !first_pos(d@, ':', q));
        return false;
    }
    assert(first_pos(d@, ':', p as int));
    assert(forall|q: int| first_pos(d@, ':', q) ==> q == p);
    let mut user: Vec<char> = Vec::new();
    let mut j: usize = 0;
    while j < p
        invariant
            j <= p < d.len(),
            user@ == d@.take(j as int),
        decreases p - j,
    {
        user.push(d[j]);
        j = j + 1;
        assert(user@ =~= d@.take(j as int));
    }
    let mut pw: Vec<char> = Vec::new();
    let mut m: usize = p + 1;
    while m < d.len()
        invariant
            p + 1 <= m <= d.len(),
            pw@ == d@.subrange(p + 1, m as int),
        decreases d.len() - m,
    {
        pw.push(d[m]);
        m = m + 1;
        assert(pw@ =~= d@.subrange(p + 1, m as int));
    }
    assert(pw@ =~= d@.skip(p + 1));
    let u = chars_of(username);
    let w = chars_of(password);
    let user_ok = same_seq(&user, &u);
    let pass_ok = same_seq(&pw, &w);
    user_ok && pass_ok
}

fn same_seq(a: &Vec<char>, b: &Vec<char>) -> (r: bool)
    ensures
        r == (a@ == b@),
{
    if a.len() != b.len() {
        return false;
    }
    let mut i: usize = 0;
    while i < a.len()
        invariant
            i <= a.len() == b.len(),
            forall|j: int| 0 <= j < i ==> a@[j] == b@[j],
        decreases a.len() - i,
    {
        if a[i] != b[i] {
            return false;
        }
        i = i + 1;
    }
    assert(a@ =~= b@);
    true
}

/// `s` with every run of `/` cut to one.
pub open spec fn squeezed(s: Seq<char>) -> Seq<char>
    decreases s.len(),
{
    if s.len() == 0 {
        s
    } else {
        let r = squeezed(s.drop_last());
        if s.last() == '/' && r.len() > 0 && r.last() == '/' {
            r
        } else {
            r.push(s.last())
        }
    }
}

/// The file path for a request path under the served root: the two joined,
/// `\` turned into `/`, and runs of `/` cut to one.
pub open spec fn file_path_of(root: Seq<char>, path: Seq<char>) -> Seq<char> {
    squeezed((root + path).map_values(|c: char| if c == '\\' { '/' } else { c }))
}

/// The file path for a request path under the served root.
pub fn from_relative(root: &str, path: &str) -> (r: String)
    ensures
        r@ == file_path_of(root@, path@),
{
    let mut joined = chars_of(root);
    joined.append(&mut chars_of(path));
    let ghost all = (root@ + path@).map_values(|c: char| if c == '\\' { '/' } else { c });
    assert(joined@ =~= root@ + path@);
    let mut out: Vec<char> = Vec::new();
    let mut i: usize = 0;
    while i < joined.len()
        invariant
            i <= joined.len(),
            joined@ == root@ + path@,
            all == (root@ + path@).map_values(|c: char| if c == '\\' { '/' } else { c }),
            out@ == squeezed(all.take(i as int)),
        decreases joined.len() - i,
    {
        let c = if joined[i] == '\\' { '/' } else { joined[i] };
        assert(all.take(i + 1).drop_last() =~= all.take(i as int));
        assert(all.take(i + 1).last() == c);
        if !(c == '/' && out.len() > 0 && out[out.len() - 1] == '/') {
            out.push(c);
        }
        i = i + 1;
    }
    assert(all.take(i as int) =~= all);
    string_of(&out)
}

} // verus!
