//! The WebSocket frame codec: frame headers and payload masking.
use vstd::prelude::*;

verus! {

/// The big-endian number that `b` holds.
pub open spec fn be_value(b: Seq<u8>) -> nat
    decreases b.len(),
{
    if b.len() == 0 {
        0
    } else {
        be_value(b.drop_last()) * 256 + b.last() as nat
    }
}

/// Byte `i` (0 the most significant) of the 8-byte big-endian form of `n`.
pub open spec fn be_byte(n: u64, i: int) -> u8 {
    ((n >> ((56 - 8 * i) as u64)) & 0xFF) as u8
}

/// The header of a frame from the server: final-fragment bit and opcode,
/// then the payload length in 7 bits, or 126 and 2 bytes, or 127 and 8
/// bytes, big-endian. Server frames carry no mask.
pub open spec fn frame_head(len: u64, opcode: u8) -> Seq<u8> {
    let b0 = (128 + opcode) as u8;
    if len <= 125 {
        seq![b0, len as u8]
    } else if len <= 65535 {
        seq![b0, 126u8, (len / 256) as u8, (len % 256) as u8]
    } else {
        seq![b0, 127u8] + Seq::new(8, |i: int| be_byte(len, i))
    }
}

/// The header of a server frame with `len` bytes of payload.
pub fn frame_header(len: u64, opcode: u8) -> (r: Vec<u8>)
    requires
        opcode < 128,
    ensures
        r@ == frame_head(len, opcode),
{
    let mut frame: Vec<u8> = Vec::new();
    frame.push(128u8 + opcode);
    if len <= 125 {
        frame.push(len as u8);
        assert(frame@ =~= frame_head(len, opcode));
    } else if len <= 65535 {
        frame.push(126u8);
        frame.push((len / 256) as u8);
        frame.push((len % 256) as u8);
        assert(frame@ =~= frame_head(len, opcode));
    } else {
        frame.push(127u8);
        let ghost base = frame@;
        let mut i: usize = 0;
        while i < 8
            invariant
                i <= 8,
                frame@ == base + Seq::new(i as nat, |j: int| be_byte(len, j)),
            decreases 8 - i,
        {
            let shift: u64 = 56 - 8 * (i as u64);
            frame.push(((len >> shift) & 0xFF) as u8);
            i = i + 1;
            assert(frame@ =~= base + Seq::new(i as nat, |j: int| be_byte(len, j)));
        }
        assert(frame@ =~= frame_head(len, opcode));
    }
    frame
}

/// How many bytes of extended length follow the second header byte `b1`:
/// 2 for the length 126, 8 for 127, else none.
pub open spec fn extension_size(b1: u8) -> nat {
    let l = b1 & 0x7F;
    if l == 126 {
        2
    } else if l == 127 {
        8
    } else {
        0
    }
}

pub fn extended_length_size(b1: u8) -> (r: usize)
    ensures
        r == extension_size(b1),
{
    let l = b1 & 0x7F;
    if l == 126 {
        2
    } else if l == 127 {
        8
    } else {
        0
    }
}

/// Whether the second header byte `b1` says that a mask follows.
pub open spec fn masked(b1: u8) -> bool {
    b1 & 0x80 != 0
}

pub fn has_mask(b1: u8) -> (r: bool)
    ensures
        r == masked(b1),
{
    b1 & 0x80 != 0
}

/// The payload length that the second header byte `b1` and the extended
/// length bytes `ext` give; a value past 64 bits keeps its low 64 bits.
pub open spec fn payload_length(b1: u8, ext: Seq<u8>) -> u64 {
    if extension_size(b1) == 0 {
        (b1 & 0x7F) as u64
    } else {
        (be_value(ext) % 0x1_0000_0000_0000_0000) as u64
    }
}

pub fn read_payload_length(b1: u8, ext: &[u8]) -> (r: u64)
    requires
        ext@.len() == extension_size(b1),
    ensures
        r == payload_length(b1, ext@),
{
    let n = extended_length_size(b1);
    if n == 0 {
        return (b1 & 0x7F) as u64;
    }
    let mut v: u64 = 0;
    let mut i: usize = 0;
    while i < n
        invariant
            i <= n == ext@.len() <= 8,
            v as nat == be_value(ext@.take(i as int)),
            be_value(ext@.take(i as int)) < pow256(i as nat),
        decreases n - i,
    {
        assert(ext@.take(i + 1).drop_last() =~= ext@.take(i as int));
        proof {
            lemma_pow256_step(i as nat);
            assert(v * 256 + ext@[i as int] < pow256((i + 1) as nat)) by (nonlinear_arith)
                requires
                    v < pow256(i as nat),
                    ext@[i as int] < 256,
                    pow256((i + 1) as nat) == pow256(i as nat) * 256,
            {
            }
            lemma_pow256_bound((i + 1) as nat);
        }
        v = v * 256 + ext[i] as u64;
        i = i + 1;
    }
    assert(ext@.take(i as int) =~= ext@);
    v
}

pub open spec fn pow256(n: nat) -> nat
    decreases n,
{
    if n == 0 {
        1
    } else {
        pow256((n - 1) as nat) * 256
    }
}

proof fn lemma_pow256_step(n: nat)
    ensures
        pow256(n + 1) == pow256(n) * 256,
{
}

proof fn lemma_pow256_bound(n: nat)
    requires
        n <= 8,
    ensures
        pow256(n) <= 0x1_0000_0000_0000_0000,
    decreases 8 - n,
{
    if n < 8 {
        lemma_pow256_bound(n + 1);
        lemma_pow256_step(n);
    } else {
        reveal_with_fuel(pow256, 9);
    }
}

/// The payload bytes `data` with the mask applied, the first byte being
/// byte `start` of the frame's payload.
pub open spec fn unmasked(data: Seq<u8>, mask: Seq<u8>, start: nat) -> Seq<u8> {
    Seq::new(data.len(), |i: int| data[i] ^ mask[(start + i) % 4])
}

/// Applies the 4-byte `mask` to `data`, whose first byte is byte `start`
/// of the payload.
pub fn apply_mask(data: &[u8], mask: &[u8; 4], start: u64) -> (r: Vec<u8>)
    requires
        start + data@.len() <= u64::MAX,
    ensures
        r@ == unmasked(data@, mask@, start as nat),
{
    let mut out: Vec<u8> = Vec::new();
    let mut i: usize = 0;
    while i < data.len()
        invariant
            i <= data@.len(),
            start + data@.len() <= u64::MAX,
            out@ == unmasked(data@.take(i as int), mask@, start as nat),
        decreases data@.len() - i,
    {
        let k = ((start + i as u64) % 4) as usize;
        out.push(data[i] ^ mask[k]);
        i = i + 1;
        assert(out@ =~= unmasked(data@.take(i as int), mask@, start as nat));
    }
    assert(data@.take(i as int) =~= data@);
    out
}

/// Masking is its own inverse: applying the same mask at the same position
/// twice gives the bytes back.
pub proof fn lemma_mask_twice(data: Seq<u8>, mask: Seq<u8>, start: nat)
    requires
        mask.len() == 4,
    ensures
        unmasked(unmasked(data, mask, start), mask, start) == data,
{
    assert forall|i: int| 0 <= i < data.len() implies #[trigger] unmasked(unmasked(data, mask, start), mask, start)[i]
        == data[i] by {
        let m = mask[(start + i) % 4];
        let d = data[i];
        assert((d ^ m) ^ m == d) by (bit_vector);
    }
    assert(unmasked(unmasked(data, mask, start), mask, start) =~= data);
}

} // verus!
