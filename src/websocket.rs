//! The WebSocket engine: the opening handshake and the frames exchanged
//! after it. Like the request engine it holds no socket: the transport
//! reads the bytes a step asks for and sends what gathers in the output.
use crate::frame::{
    apply_mask, extension_size, frame_head, frame_header, masked, payload_length, read_payload_length,
    unmasked,
};
use crate::range::{trim, trim_of};
use crate::request::{append_bytes, utf8, Counter, Request};
use crate::text::{chars_of, string_of};
use vstd::prelude::*;
use vstd::string::StringSliceAdditionalSpecFns;

verus! {

/// What SHA-1 gives for a byte string.
pub uninterp spec fn sha1_of(b: Seq<u8>) -> Seq<u8>;

/// Relies on the `sha1` crate's `Sha1` digest: the SHA-1 hash of `data`,
/// 20 bytes long.
#[verifier::external_body]
fn sha1_digest(data: &[u8]) -> (r: Vec<u8>)
    ensures
        r@ == sha1_of(data@),
        r@.len() == 20,
{
    let mut h = <sha1::Sha1 as sha1::Digest>::new();
    sha1::Digest::update(&mut h, data);
    sha1::Digest::finalize(h).to_vec()
}

/// The character of a 6-bit value in the standard base64 alphabet.
pub open spec fn base64_digit(v: u8) -> char {
    if v < 26 {
        ((65 + v) as u8) as char
    } else if v < 52 {
        ((71 + v) as u8) as char
    } else if v < 62 {
        ((v - 4) as u8) as char
    } else if v == 62 {
        '+'
    } else {
        '/'
    }
}

/// Standard base64 with `=` padding: each three bytes become four
/// characters.
pub open spec fn base64_of(b: Seq<u8>) -> Seq<char>
    decreases b.len(),
{
    if b.len() == 0 {
        Seq::empty()
    } else if b.len() == 1 {
        seq![base64_digit(b[0] >> 2u8), base64_digit(((b[0] & 3u8) << 4u8) as u8), '=', '=']
    } else if b.len() == 2 {
        seq![
            base64_digit(b[0] >> 2u8),
            base64_digit((((b[0] & 3u8) << 4u8) | (b[1] >> 4u8)) as u8),
            base64_digit(((b[1] & 15u8) << 2u8) as u8),
            '=',
        ]
    } else {
        seq![
            base64_digit(b[0] >> 2u8),
            base64_digit((((b[0] & 3u8) << 4u8) | (b[1] >> 4u8)) as u8),
            base64_digit((((b[1] & 15u8) << 2u8) | (b[2] >> 6u8)) as u8),
            base64_digit(b[2] & 63u8),
        ] + base64_of(b.skip(3))
    }
}

/// Relies on `base64`'s `STANDARD` engine: the standard alphabet, padded
/// with `=`.
#[verifier::external_body]
fn base64_encode(data: &[u8]) -> (r: String)
    requires
        data@.len() <= 0x1000_0000,
    ensures
        r@ == base64_of(data@),
{
    base64::Engine::encode(&base64::engine::general_purpose::STANDARD, data)
}

/// `Sec-WebSocket-Key: `, which the handshake looks for.
pub open spec fn key_marker() -> Seq<char> {
    "Sec-WebSocket-Key: "@
}

pub open spec fn marker_at(s: Seq<char>, p: int) -> bool {
    0 <= p && p + key_marker().len() <= s.len() && s.subrange(p, p + key_marker().len()) == key_marker()
}

pub open spec fn first_marker(s: Seq<char>, p: int) -> bool {
    marker_at(s, p) && forall|q: int| 0 <= q < p ==> !#[trigger] marker_at(s, q)
}

/// Whether `e` ends the line that runs from `a`: the first `\n` from `a`,
/// or the end.
pub open spec fn line_end(s: Seq<char>, a: int, e: int) -> bool {
    a <= e <= s.len() && (e == s.len() || s[e] == '\n') && forall|j: int| a <= j < e ==> s[j] != '\n'
}

/// What follows the first `Sec-WebSocket-Key: ` up to the end of its line.
pub open spec fn key_field(s: Seq<char>) -> Option<Seq<char>> {
    if exists|p: int| first_marker(s, p) {
        let p = choose|p: int| first_marker(s, p);
        let a = p + key_marker().len();
        let e = choose|e: int| line_end(s, a, e);
        Some(s.subrange(a, e))
    } else {
        None
    }
}

/// Relies on `regex::Regex` with the pattern `Sec-WebSocket-Key: (.*)`:
/// the leftmost match starts at the first occurrence of the literal, and
/// the group takes every character up to the next `\n`.
#[verifier::external_body]
fn capture_key(data: &str) -> (r: Option<String>)
    ensures
        r.is_some() == key_field(data@).is_some(),
        r matches Some(v) ==> v@ == key_field(data@)->0,
{
    let re = regex::Regex::new(r"Sec-WebSocket-Key: (.*)").ok()?;
    let caps = re.captures(data)?;
    caps.get(1).map(|m| m.as_str().to_string())
}

/// The GUID that RFC 6455 appends to the key.
pub open spec fn websocket_guid() -> Seq<char> {
    "258EAFA5-E914-47DA-95CA-C5AB0DC85B11"@
}

/// The `Sec-WebSocket-Accept` value for a request head: base64 of the SHA-1
/// of the trimmed key followed by the GUID; empty when the head holds no
/// key.
pub open spec fn accept_of(head: Seq<char>) -> Seq<char> {
    match key_field(head) {
        Some(k) => base64_of(sha1_of(utf8(trim_of(k)) + utf8(websocket_guid()))),
        None => Seq::empty(),
    }
}

/// The `Sec-WebSocket-Accept` value for the request head `data`, when it
/// holds a `Sec-WebSocket-Key`.
pub fn accept_key(data: &str) -> (r: Option<String>)
    ensures
        r.is_some() == key_field(data@).is_some(),
        r matches Some(a) ==> a@ == accept_of(data@),
{
    match capture_key(data) {
        Some(k) => {
            let key = string_of(&trim(&chars_of(k.as_str())));
            let mut input: Vec<u8> = Vec::new();
            append_bytes(&mut input, key.as_str().as_bytes());
            append_bytes(&mut input, "258EAFA5-E914-47DA-95CA-C5AB0DC85B11".as_bytes());
            let digest = sha1_digest(input.as_slice());
            Some(base64_encode(digest.as_slice()))
        },
        None => None,
    }
}

/// The `Sec-WebSocket-Accept` value for the request head `data`, or an
/// empty string when it holds no `Sec-WebSocket-Key`.
pub fn key_to_accept(data: &str) -> (r: String)
    ensures
        r@ == accept_of(data@),
{
    match accept_key(data) {
        Some(a) => a,
        None => String::new(),
    }
}

/// `HTTP/1.1 101 Switching Protocols` with `Connection: Upgrade`,
/// `Upgrade: websocket` and the accept value.
pub open spec fn handshake_text(accept: Seq<char>) -> Seq<char> {
    "HTTP/1.1 101 Switching Protocols\r\nConnection: Upgrade\r\nUpgrade: websocket\r\nSec-WebSocket-Accept: "@
        + accept + "\r\n\r\n"@
}

/// The handshake response for an accept value.
pub fn handshake_response(accept: &str) -> (r: Vec<u8>)
    ensures
        r@ == utf8(handshake_text(accept@)),
{
    let mut text = chars_of(
        "HTTP/1.1 101 Switching Protocols\r\nConnection: Upgrade\r\nUpgrade: websocket\r\nSec-WebSocket-Accept: ",
    );
    text.append(&mut chars_of(accept));
    text.append(&mut chars_of("\r\n\r\n"));
    assert(text@ =~= handshake_text(accept@));
    let s = string_of(&text);
    let mut out: Vec<u8> = Vec::new();
    append_bytes(&mut out, s.as_str().as_bytes());
    out
}

/// What the transport does after a frame header was taken in.
#[derive(Clone, Copy, PartialEq, Eq, Debug)]
pub enum FrameEvent {
    /// The peer closed the connection.
    Close,
    /// Nothing for the caller: read the next frame header.
    Again,
    /// A ping's payload: read it, drop it, then read the next frame header.
    Discard,
    /// A frame whose payload the caller reads.
    Ready,
}

/// What the engine knows of a WebSocket connection.
pub struct WebSocketView {
    pub path: Seq<char>,
    pub origpath: Seq<char>,
    pub is_string: bool,
    pub is_continuation: bool,
    pub connection_closed: bool,
    pub mask: Seq<u8>,
    pub length: u64,
    pub consumed: u64,
    pub opcode: u8,
    pub handshake_done: bool,
    /// Bytes produced and not yet taken by the transport.
    pub output: Seq<u8>,
}

/// `b` added to the output, unless the connection is known to be dead.
pub open spec fn ws_emitted(v: WebSocketView, b: Seq<u8>) -> WebSocketView {
    if v.connection_closed {
        v
    } else {
        WebSocketView { output: v.output + b, ..v }
    }
}

/// The state after the handshake for the request head `head`: when it
/// holds a `Sec-WebSocket-Key` the 101 response goes out, else the
/// connection is closed. Only the first handshake does anything.
pub open spec fn handshaken(v: WebSocketView, head: Seq<char>) -> WebSocketView {
    if v.handshake_done {
        v
    } else {
        let v1 = WebSocketView { handshake_done: true, ..v };
        if key_field(head).is_none() {
            WebSocketView { connection_closed: true, ..v1 }
        } else {
            ws_emitted(v1, utf8(handshake_text(accept_of(head))))
        }
    }
}

/// The state and the event after a frame header: the opcode is the first
/// byte without its top bit, and a continuation frame keeps the opcode of
/// the frame it continues, which also decides whether it is text. Close ends the connection. A masked frame
/// records its mask and length; a ping is answered with an empty pong, and
/// it and an empty frame are not for the caller. An unmasked frame carries
/// nothing for the caller to read.
pub open spec fn header_taken(
    v: WebSocketView,
    b0: u8,
    b1: u8,
    ext: Seq<u8>,
    mask: Option<Seq<u8>>,
) -> (WebSocketView, FrameEvent) {
    let opcode = b0 & 0x7F;
    let len = payload_length(b1, ext);
    let v1 = WebSocketView {
        is_string: (if opcode == 0 { v.opcode } else { opcode }) == 1,
        is_continuation: opcode == 0,
        opcode: if opcode == 0 { v.opcode } else { opcode },
        length: 0,
        consumed: 0,
        ..v
    };
    if opcode == 8 {
        (WebSocketView { connection_closed: true, ..v1 }, FrameEvent::Close)
    } else {
        match mask {
            Some(m) => {
                let v2 = WebSocketView { mask: m, length: len, ..v1 };
                if opcode == 9 {
                    let v3 = ws_emitted(v2, frame_head(0, 10));
                    (v3, if len > 0 { FrameEvent::Discard } else { FrameEvent::Again })
                } else if b1 & 0x7F == 0 {
                    (v2, FrameEvent::Again)
                } else {
                    (v2, FrameEvent::Ready)
                }
            },
            None => (v1, FrameEvent::Ready),
        }
    }
}

/// The state after a frame with `size` bytes of payload is written: its
/// header when `write_header` is set, then `data` when there is any.
pub open spec fn frame_written(v: WebSocketView, write_header: bool, size: u64, data: Seq<u8>, opcode: u8) -> WebSocketView {
    let v1 = if write_header { ws_emitted(v, frame_head(size, opcode)) } else { v };
    if data.len() > 0 { ws_emitted(v1, data) } else { v1 }
}

/// How many payload bytes a read of `bytes` asks for: the rest of the frame
/// when `bytes` is zero or reaches past its end.
pub open spec fn ws_read_amount(v: WebSocketView, bytes: u64) -> u64 {
    if v.consumed + bytes > v.length || bytes == 0 {
        (v.length - v.consumed) as u64
    } else {
        bytes
    }
}

/// A WebSocket connection after the upgrade.
pub struct WebSocketParser {
    pub path: String,
    pub origpath: String,
    pub is_string: bool,
    pub is_continuation: bool,
    connection_closed: bool,
    mask: [u8; 4],
    frame: Counter,
    opcode: u8,
    handshake_done: bool,
    output: Vec<u8>,
}

impl View for WebSocketParser {
    type V = WebSocketView;

    closed spec fn view(&self) -> WebSocketView {
        WebSocketView {
            path: self.path@,
            origpath: self.origpath@,
            is_string: self.is_string,
            is_continuation: self.is_continuation,
            connection_closed: self.connection_closed,
            mask: self.mask@,
            length: self.frame.length,
            consumed: self.frame.consumed,
            opcode: self.opcode,
            handshake_done: self.handshake_done,
            output: self.output@,
        }
    }
}

impl WebSocketParser {
    /// Takes over the connection of an upgrade request.
    pub fn new(req: Request) -> (r: WebSocketParser)
        ensures
            r@ == (WebSocketView {
                path: req@.path,
                origpath: req@.origpath,
                is_string: false,
                is_continuation: false,
                connection_closed: false,
                mask: seq![0u8, 0u8, 0u8, 0u8],
                length: 0,
                consumed: 0,
                opcode: 1,
                handshake_done: false,
                output: Seq::empty(),
            }),
    {
        let r = WebSocketParser {
            path: req.path_string(),
            origpath: req.origpath_string(),
            is_string: false,
            is_continuation: false,
            connection_closed: false,
            mask: [0u8; 4],
            frame: Counter::new(0),
            opcode: 1,
            handshake_done: false,
            output: Vec::new(),
        };
        assert(r@.mask =~= seq![0u8, 0u8, 0u8, 0u8]);
        r
    }

    /// Payload bytes of the current frame not read yet; none once the
    /// connection is closed.
    pub fn data_left(&self) -> (r: u64)
        ensures
            self@.consumed <= self@.length,
            r == if self@.connection_closed { 0 } else { (self@.length - self@.consumed) as u64 },
    {
        let left = self.frame.left();
        if self.connection_closed {
            0
        } else {
            left
        }
    }

    pub fn connected(&self) -> (r: bool)
        ensures
            r == !self@.connection_closed,
    {
        !self.connection_closed
    }

    fn emit(&mut self, b: &[u8])
        ensures
            final(self)@ == ws_emitted(old(self)@, b@),
    {
        if !self.connection_closed {
            append_bytes(&mut self.output, b);
        }
    }

    /// Answers the opening handshake of the request head `header`.
    pub fn do_handshake(&mut self, header: &str)
        ensures
            final(self)@ == handshaken(old(self)@, header@),
    {
        if self.handshake_done {
            return;
        }
        self.handshake_done = true;
        match accept_key(header) {
            Some(key) => {
                let response = handshake_response(key.as_str());
                self.emit(response.as_slice());
            },
            None => {
                self.connection_closed = true;
            },
        }
    }

    /// Takes in a frame header: its two first bytes, the extended length
    /// bytes that the second one calls for, and the mask when it says one
    /// follows.
    pub fn receive_header(&mut self, b0: u8, b1: u8, ext: &[u8], mask: Option<[u8; 4]>) -> (r: FrameEvent)
        requires
            ext@.len() == extension_size(b1),
            mask.is_some() == masked(b1),
        ensures
            (final(self)@, r) == header_taken(
                old(self)@,
                b0,
                b1,
                ext@,
                match mask {
                    Some(m) => Some(m@),
                    None => None,
                },
            ),
    {
        let opcode = b0 & 0x7F;
        let len = read_payload_length(b1, ext);
        self.is_continuation = opcode == 0;
        if opcode != 0 {
            self.opcode = opcode;
        }
        self.is_string = self.opcode == 1;
        self.frame = Counter::new(0);
        if opcode == 8 {
            self.connection_closed = true;
            return FrameEvent::Close;
        }
        match mask {
            Some(m) => {
                self.mask = m;
                self.frame = Counter::new(len);
                if opcode == 9 {
                    let pong = frame_header(0, 10);
                    self.emit(pong.as_slice());
                    if len > 0 {
                        FrameEvent::Discard
                    } else {
                        FrameEvent::Again
                    }
                } else if b1 & 0x7F == 0 {
                    FrameEvent::Again
                } else {
                    FrameEvent::Ready
                }
            },
            None => FrameEvent::Ready,
        }
    }

    /// How many payload bytes a read of `bytes` takes: the rest of the frame
    /// when `bytes` is zero or reaches past its end.
    pub fn read_len(&self, bytes: u64) -> (r: u64)
        ensures
            r == ws_read_amount(self@, bytes),
            self@.consumed + r <= self@.length,
    {
        let left = self.frame.left();
        if bytes > left || bytes == 0 {
            left
        } else {
            bytes
        }
    }

    /// Unmasks payload bytes just read: each byte is XORed with the mask
    /// byte at its position in the payload, and they count as read.
    pub fn decode_payload(&mut self, data: &[u8]) -> (r: Vec<u8>)
        requires
            old(self)@.consumed + data@.len() <= old(self)@.length,
        ensures
            r@ == unmasked(data@, old(self)@.mask, old(self)@.consumed as nat),
            final(self)@ == (WebSocketView {
                consumed: (old(self)@.consumed + data@.len()) as u64,
                ..old(self)@
            }),
    {
        let r = apply_mask(data, &self.mask, self.frame.consumed);
        self.frame.advance(data.len() as u64);
        r
    }

    /// Writes a frame: its header for `size` bytes of payload when
    /// `write_header` is set, then `data`. A large message can go as one
    /// header followed by several writes of payload.
    pub fn write_data(&mut self, write_header: bool, size: u64, data: &[u8], opcode: u8)
        requires
            opcode < 128,
        ensures
            final(self)@ == frame_written(old(self)@, write_header, size, data@, opcode),
    {
        if write_header {
            let header = frame_header(size, opcode);
            self.emit(header.as_slice());
        }
        if data.len() > 0 {
            self.emit(data);
        }
    }

    /// Sends `out` as one text frame.
    pub fn write_string(&mut self, out: &str)
        ensures
            final(self)@ == frame_written(old(self)@, true, out.spec_bytes().len() as u64, out.spec_bytes(), 1),
    {
        let data = out.as_bytes();
        self.write_data(true, data.len() as u64, data, 1);
    }

    /// Sends `data` as one binary frame.
    pub fn write_binary(&mut self, data: &[u8])
        ensures
            final(self)@ == frame_written(old(self)@, true, data@.len() as u64, data@, 2),
    {
        self.write_data(true, data.len() as u64, data, 2);
    }

    /// Hands over the bytes produced so far, for the transport to send.
    pub fn take_output(&mut self) -> (r: Vec<u8>)
        ensures
            r@ == old(self)@.output,
            final(self)@ == (WebSocketView { output: Seq::empty(), ..old(self)@ }),
    {
        let mut out: Vec<u8> = Vec::new();
        append_bytes(&mut out, self.output.as_slice());
        self.output = Vec::new();
        out
    }

    /// Records that the connection is gone: what was not sent is dropped
    /// and nothing more is produced.
    pub fn mark_closed(&mut self)
        ensures
            final(self)@ == (WebSocketView { connection_closed: true, output: Seq::empty(), ..old(self)@ }),
    {
        self.connection_closed = true;
        self.output = Vec::new();
    }
}

/// A masked text frame from a client is read back as the text it carries:
/// unmasking what the client masked with the same key gives its bytes.
pub proof fn lemma_masked_payload_read_back(text: Seq<u8>, mask: Seq<u8>)
    requires
        mask.len() == 4,
    ensures
        unmasked(unmasked(text, mask, 0), mask, 0) == text,
{
    crate::frame::lemma_mask_twice(text, mask, 0);
}

} // verus!
