//! The master/worker wire format.
//!
//! A frame is `[magic:4][length:4][payload:length]`, both words big-endian.
//! A payload is one [`Message`]: a tag byte and its fields, where a string is
//! its UTF-8 length (4 bytes) and bytes, a list is its count (4 bytes) and
//! items, and an integer is 8 big-endian bytes.
use vstd::prelude::*;
use vstd::utf8::*;
use crate::dispatch::BatchEntry;

verus! {

/// The value that opens every frame.
pub const PROTO_MAGIC: u32 = 0x104F4C7;

/// The largest payload a frame may carry.
pub const MESSAGE_MAX_SIZE: u32 = 536870912;

/// The size of a frame header.
pub const HEADER_SIZE: usize = 8;

/// Why a frame or a payload was refused.
#[derive(PartialEq, Eq, Structural, Debug, Clone, Copy)]
pub enum ProtoError {
    /// Fewer bytes than the structure needs.
    Truncated,
    /// The frame does not open with [`PROTO_MAGIC`].
    BadMagic,
    /// The declared payload length is zero.
    Empty,
    /// The declared or actual payload length exceeds [`MESSAGE_MAX_SIZE`].
    TooLarge,
    /// The payload is not a well-formed message.
    Malformed,
}

/// A tensor as raw bytes, with its element type name and shape.
pub struct RawTensor {
    pub dtype: String,
    pub shape: Vec<u64>,
    pub data: Vec<u8>,
}

/// A payload.
pub enum Message {
    /// Run the listed layers, in order, on `x`.
    ForwardBatch { batch: Vec<BatchEntry>, x: RawTensor },
    /// The output of a forward batch.
    Tensor { x: RawTensor },
    /// The worker could not serve the request.
    Error { message: String },
}

/// Four bytes, big-endian, of `x`.
pub open spec fn be32(x: u32) -> Seq<u8> {
    seq![(x >> 24u32) as u8, (x >> 16u32) as u8, (x >> 8u32) as u8, x as u8]
}

/// Eight bytes, big-endian, of `x`.
pub open spec fn be64(x: u64) -> Seq<u8> {
    seq![
        (x >> 56u64) as u8,
        (x >> 48u64) as u8,
        (x >> 40u64) as u8,
        (x >> 32u64) as u8,
        (x >> 24u64) as u8,
        (x >> 16u64) as u8,
        (x >> 8u64) as u8,
        x as u8,
    ]
}

/// The header of a frame whose payload has `len` bytes.
pub open spec fn header(len: u32) -> Seq<u8> {
    be32(PROTO_MAGIC) + be32(len)
}

/// What `decode_header` makes of the bytes `h`.
pub open spec fn header_result(h: Seq<u8>) -> Result<u32, ProtoError> {
    if h.len() < 8 {
        Err(ProtoError::Truncated)
    } else if h.subrange(0, 4) != be32(PROTO_MAGIC) {
        Err(ProtoError::BadMagic)
    } else {
        let len = word32(h[4], h[5], h[6], h[7]);
        if len == 0 {
            Err(ProtoError::Empty)
        } else if len > MESSAGE_MAX_SIZE {
            Err(ProtoError::TooLarge)
        } else {
            Ok(len)
        }
    }
}

/// The word whose big-endian bytes are `a b c d`.
pub open spec fn word32(a: u8, b: u8, c: u8, d: u8) -> u32 {
    ((a as u32) << 24u32) | ((b as u32) << 16u32) | ((c as u32) << 8u32) | (d as u32)
}

pub proof fn lemma_word32_be32(x: u32)
    ensures
        word32(be32(x)[0], be32(x)[1], be32(x)[2], be32(x)[3]) == x,
{
    let a = (x >> 24u32) as u8;
    let b = (x >> 16u32) as u8;
    let c = (x >> 8u32) as u8;
    let d = x as u8;
    assert(((a as u32) << 24u32) | ((b as u32) << 16u32) | ((c as u32) << 8u32) | (d as u32) == x)
        by (bit_vector)
        requires
            a == (x >> 24u32) as u8,
            b == (x >> 16u32) as u8,
            c == (x >> 8u32) as u8,
            d == x as u8,
    ;
}

pub proof fn lemma_be32_word32(a: u8, b: u8, c: u8, d: u8)
    ensures
        be32(word32(a, b, c, d)) == seq![a, b, c, d],
{
    let x = word32(a, b, c, d);
    assert((x >> 24u32) as u8 == a && (x >> 16u32) as u8 == b && (x >> 8u32) as u8 == c && x as u8
        == d) by (bit_vector)
        requires
            x == ((a as u32) << 24u32) | ((b as u32) << 16u32) | ((c as u32) << 8u32) | (d as u32),
    ;
    assert(be32(x) =~= seq![a, b, c, d]);
}

/// Appends the big-endian bytes of `x`.
fn push_u32(out: &mut Vec<u8>, x: u32)
    ensures
        final(out)@ == old(out)@ + be32(x),
{
    out.push((x >> 24u32) as u8);
    out.push((x >> 16u32) as u8);
    out.push((x >> 8u32) as u8);
    out.push(x as u8);
    assert(final(out)@ =~= old(out)@ + be32(x));
}

/// Appends the big-endian bytes of `x`.
fn push_u64(out: &mut Vec<u8>, x: u64)
    ensures
        final(out)@ == old(out)@ + be64(x),
{
    out.push((x >> 56u64) as u8);
    out.push((x >> 48u64) as u8);
    out.push((x >> 40u64) as u8);
    out.push((x >> 32u64) as u8);
    out.push((x >> 24u64) as u8);
    out.push((x >> 16u64) as u8);
    out.push((x >> 8u64) as u8);
    out.push(x as u8);
    assert(final(out)@ =~= old(out)@ + be64(x));
}

/// The header of a frame carrying `len` payload bytes, or why no frame can
/// carry that many.
pub fn encode_header(len: usize) -> (r: Result<Vec<u8>, ProtoError>)
    ensures
        len == 0 ==> r == Err::<Vec<u8>, ProtoError>(ProtoError::Empty),
        len > MESSAGE_MAX_SIZE ==> r == Err::<Vec<u8>, ProtoError>(ProtoError::TooLarge),
        0 < len <= MESSAGE_MAX_SIZE ==> r is Ok && r->Ok_0@ == header(len as u32),
{
    if len == 0 {
        return Err(ProtoError::Empty);
    }
    if len > MESSAGE_MAX_SIZE as usize {
        return Err(ProtoError::TooLarge);
    }
    let mut out: Vec<u8> = Vec::new();
    push_u32(&mut out, PROTO_MAGIC);
    push_u32(&mut out, len as u32);
    assert(out@ =~= header(len as u32));
    Ok(out)
}

/// Reads a frame header: the payload length it declares, or why the frame
/// is refused. Only the first `HEADER_SIZE` bytes are looked at, so a bad
/// magic or an oversize length is refused before any payload is read.
pub fn decode_header(h: &[u8]) -> (r: Result<u32, ProtoError>)
    ensures
        r == header_result(h@),
{
    if h.len() < HEADER_SIZE {
        return Err(ProtoError::Truncated);
    }
    let magic = ((h[0] as u32) << 24u32) | ((h[1] as u32) << 16u32) | ((h[2] as u32) << 8u32) | (
    h[3] as u32);
    proof {
        lemma_be32_word32(h[0], h[1], h[2], h[3]);
        lemma_word32_be32(PROTO_MAGIC);
        assert(h@.subrange(0, 4) =~= seq![h[0], h[1], h[2], h[3]]);
    }
    if magic != PROTO_MAGIC {
        return Err(ProtoError::BadMagic);
    }
    let len = ((h[4] as u32) << 24u32) | ((h[5] as u32) << 16u32) | ((h[6] as u32) << 8u32) | (
    h[7] as u32);
    if len == 0 {
        Err(ProtoError::Empty)
    } else if len > MESSAGE_MAX_SIZE {
        Err(ProtoError::TooLarge)
    } else {
        Ok(len)
    }
}

/// Frame law: a header is refused whenever its magic is wrong or its length
/// exceeds the maximum, whatever follows it; and the header written for an
/// admissible length reads back as that length.
pub proof fn lemma_frame_validation(h: Seq<u8>, rest: Seq<u8>, len: u32)
    ensures
        h.len() >= 8 && h.subrange(0, 4) != be32(PROTO_MAGIC) ==> header_result(h + rest) == Err::<u32, ProtoError>(ProtoError::BadMagic),
        h.len() >= 8 && h.subrange(0, 4) == be32(PROTO_MAGIC) && word32(h[4], h[5], h[6], h[7]) > MESSAGE_MAX_SIZE
            ==> header_result(h + rest) == Err::<u32, ProtoError>(ProtoError::TooLarge),
        0 < len <= MESSAGE_MAX_SIZE ==> header_result(header(len) + rest) == Ok::<u32, ProtoError>(len),
{
    if h.len() >= 8 {
        assert((h + rest).subrange(0, 4) =~= h.subrange(0, 4));
        assert((h + rest)[4] == h[4] && (h + rest)[5] == h[5] && (h + rest)[6] == h[6] && (h
            + rest)[7] == h[7]);
    }
    let g = header(len);
    assert((g + rest).subrange(0, 4) =~= be32(PROTO_MAGIC));
    lemma_word32_be32(len);
}


/// A string on the wire: its UTF-8 length, then its UTF-8 bytes.
pub open spec fn enc_str(s: Seq<char>) -> Seq<u8> {
    be32(encode_utf8(s).len() as u32) + encode_utf8(s)
}

/// Integers on the wire, one after the other.
pub open spec fn enc_u64s(xs: Seq<u64>) -> Seq<u8>
    decreases xs.len(),
{
    if xs.len() == 0 {
        Seq::empty()
    } else {
        enc_u64s(xs.drop_last()) + be64(xs.last())
    }
}

pub open spec fn enc_entry(e: BatchEntry) -> Seq<u8> {
    enc_str(e.layer_name@) + be64(e.position as u64) + be64(e.layer_index as u64)
}

pub open spec fn enc_entries(es: Seq<BatchEntry>) -> Seq<u8>
    decreases es.len(),
{
    if es.len() == 0 {
        Seq::empty()
    } else {
        enc_entries(es.drop_last()) + enc_entry(es.last())
    }
}

pub open spec fn enc_tensor(t: RawTensor) -> Seq<u8> {
    enc_str(t.dtype@) + be32(t.shape@.len() as u32) + enc_u64s(t.shape@) + be32(
        t.data@.len() as u32,
    ) + t.data@
}

/// The payload bytes of `m`.
pub open spec fn enc_message(m: Message) -> Seq<u8> {
    match m {
        Message::ForwardBatch { batch, x } => seq![0u8] + be32(batch@.len() as u32) + enc_entries(
            batch@,
        ) + enc_tensor(x),
        Message::Tensor { x } => seq![1u8] + enc_tensor(x),
        Message::Error { message } => seq![2u8] + enc_str(message@),
    }
}

pub open spec fn str_fits(s: Seq<char>) -> bool {
    encode_utf8(s).len() <= u32::MAX
}

pub open spec fn tensor_fits(t: RawTensor) -> bool {
    &&& str_fits(t.dtype@)
    &&& t.shape@.len() <= u32::MAX
    &&& t.data@.len() <= u32::MAX
}

/// Every length in `m` fits its 4-byte field.
pub open spec fn fits(m: Message) -> bool {
    match m {
        Message::ForwardBatch { batch, x } => {
            &&& batch@.len() <= u32::MAX
            &&& forall|i: int| 0 <= i < batch@.len() ==> str_fits((#[trigger] batch@[i]).layer_name@)
            &&& tensor_fits(x)
        },
        Message::Tensor { x } => tensor_fits(x),
        Message::Error { message } => str_fits(message@),
    }
}

/// Relies on std's `String::from_utf8`: it succeeds exactly on valid UTF-8,
/// and the string holds the characters that the bytes encode.
#[verifier::external_body]
fn string_from_utf8(b: Vec<u8>) -> (r: Option<String>)
    ensures
        r is Some <==> valid_utf8(b@),
        r is Some ==> r->0@ == decode_utf8(b@),
{
    String::from_utf8(b).ok()
}

/// Appends `s` as a wire string, unless its length does not fit.
fn push_str(out: &mut Vec<u8>, s: &String) -> (ok: bool)
    ensures
        ok == str_fits(s@),
        ok ==> final(out)@ == old(out)@ + enc_str(s@),
{
    let b = s.as_str().as_bytes();
    if b.len() > u32::MAX as usize {
        return false;
    }
    push_u32(out, b.len() as u32);
    let ghost mid = out@;
    let mut i: usize = 0;
    while i < b.len()
        invariant
            i <= b@.len(),
            b@ == encode_utf8(s@),
            out@ == mid + b@.subrange(0, i as int),
        decreases b@.len() - i,
    {
        out.push(b[i]);
        i = i + 1;
        assert(out@ =~= mid + b@.subrange(0, i as int));
    }
    assert(b@.subrange(0, b@.len() as int) =~= b@);
    assert(final(out)@ =~= old(out)@ + enc_str(s@));
    true
}

/// Appends a raw tensor, unless one of its lengths does not fit.
fn push_tensor(out: &mut Vec<u8>, t: &RawTensor) -> (ok: bool)
    ensures
        ok == tensor_fits(*t),
        ok ==> final(out)@ == old(out)@ + enc_tensor(*t),
{
    if t.shape.len() > u32::MAX as usize || t.data.len() > u32::MAX as usize {
        return false;
    }
    if !push_str(out, &t.dtype) {
        return false;
    }
    push_u32(out, t.shape.len() as u32);
    let ghost mid = out@;
    let mut i: usize = 0;
    while i < t.shape.len()
        invariant
            i <= t.shape@.len(),
            out@ == mid + enc_u64s(t.shape@.subrange(0, i as int)),
        decreases t.shape@.len() - i,
    {
        push_u64(out, t.shape[i]);
        i = i + 1;
        assert(t.shape@.subrange(0, i as int).drop_last() =~= t.shape@.subrange(0, i - 1));
        assert(out@ =~= mid + enc_u64s(t.shape@.subrange(0, i as int)));
    }
    assert(t.shape@.subrange(0, i as int) =~= t.shape@);
    push_u32(out, t.data.len() as u32);
    let ghost mid2 = out@;
    let mut j: usize = 0;
    while j < t.data.len()
        invariant
            j <= t.data@.len(),
            out@ == mid2 + t.data@.subrange(0, j as int),
        decreases t.data@.len() - j,
    {
        out.push(t.data[j]);
        j = j + 1;
        assert(out@ =~= mid2 + t.data@.subrange(0, j as int));
    }
    assert(t.data@.subrange(0, j as int) =~= t.data@);
    assert(final(out)@ =~= old(out)@ + enc_tensor(*t));
    true
}

/// The payload bytes of `m`, or `None` when one of its lengths does not fit
/// its 4-byte field.
pub fn encode_message(m: &Message) -> (r: Option<Vec<u8>>)
    ensures
        r is Some <==> fits(*m),
        r is Some ==> r->0@ == enc_message(*m),
{
    let mut out: Vec<u8> = Vec::new();
    match m {
        Message::ForwardBatch { batch, x } => {
            if batch.len() > u32::MAX as usize {
                return None;
            }
            out.push(0u8);
            push_u32(&mut out, batch.len() as u32);
            let ghost mid = out@;
            let mut i: usize = 0;
            while i < batch.len()
                invariant
                    i <= batch@.len(),
                    *m is ForwardBatch,
                    m->ForwardBatch_batch == *batch,
                    out@ == mid + enc_entries(batch@.subrange(0, i as int)),
                    forall|k: int| 0 <= k < i ==> str_fits((#[trigger] batch@[k]).layer_name@),
                decreases batch@.len() - i,
            {
                let e = &batch[i];
                if !push_str(&mut out, &e.layer_name) {
                    return None;
                }
                push_u64(&mut out, e.position as u64);
                push_u64(&mut out, e.layer_index as u64);
                i = i + 1;
                assert(batch@.subrange(0, i as int).drop_last() =~= batch@.subrange(0, i - 1));
                assert(out@ =~= mid + enc_entries(batch@.subrange(0, i as int)));
            }
            assert(batch@.subrange(0, i as int) =~= batch@);
            if !push_tensor(&mut out, x) {
                return None;
            }
        },
        Message::Tensor { x } => {
            out.push(1u8);
            if !push_tensor(&mut out, x) {
                return None;
            }
        },
        Message::Error { message } => {
            out.push(2u8);
            if !push_str(&mut out, message) {
                return None;
            }
        },
    }
    assert(out@ =~= enc_message(*m));
    Some(out)
}

/// The word whose big-endian bytes are `b[0..8]`.
pub open spec fn word64(b: Seq<u8>) -> u64 {
    ((b[0] as u64) << 56u64) | ((b[1] as u64) << 48u64) | ((b[2] as u64) << 40u64) | ((
    b[3] as u64) << 32u64) | ((b[4] as u64) << 24u64) | ((b[5] as u64) << 16u64) | ((b[6] as u64)
        << 8u64) | (b[7] as u64)
}

pub proof fn lemma_be64_word64(b: Seq<u8>)
    requires
        b.len() == 8,
    ensures
        be64(word64(b)) == b,
{
    let (b0, b1, b2, b3, b4, b5, b6, b7) = (b[0], b[1], b[2], b[3], b[4], b[5], b[6], b[7]);
    let x = word64(b);
    assert((x >> 56u64) as u8 == b0 && (x >> 48u64) as u8 == b1 && (x >> 40u64) as u8 == b2 && (x
        >> 32u64) as u8 == b3 && (x >> 24u64) as u8 == b4 && (x >> 16u64) as u8 == b5 && (x
        >> 8u64) as u8 == b6 && x as u8 == b7) by (bit_vector)
        requires
            x == ((b0 as u64) << 56u64) | ((b1 as u64) << 48u64) | ((b2 as u64) << 40u64) | ((
            b3 as u64) << 32u64) | ((b4 as u64) << 24u64) | ((b5 as u64) << 16u64) | ((
            b6 as u64) << 8u64) | (b7 as u64),
    ;
    assert(be64(x) =~= b);
}

pub proof fn lemma_word64_be64(x: u64)
    ensures
        word64(be64(x)) == x,
{
    let b = be64(x);
    let (b0, b1, b2, b3, b4, b5, b6, b7) = (b[0], b[1], b[2], b[3], b[4], b[5], b[6], b[7]);
    assert(((b0 as u64) << 56u64) | ((b1 as u64) << 48u64) | ((b2 as u64) << 40u64) | ((
    b3 as u64) << 32u64) | ((b4 as u64) << 24u64) | ((b5 as u64) << 16u64) | ((b6 as u64)
        << 8u64) | (b7 as u64) == x) by (bit_vector)
        requires
            b0 == (x >> 56u64) as u8,
            b1 == (x >> 48u64) as u8,
            b2 == (x >> 40u64) as u8,
            b3 == (x >> 32u64) as u8,
            b4 == (x >> 24u64) as u8,
            b5 == (x >> 16u64) as u8,
            b6 == (x >> 8u64) as u8,
            b7 == x as u8,
    ;
}

pub proof fn lemma_u64s_len(xs: Seq<u64>)
    ensures
        enc_u64s(xs).len() == 8 * xs.len(),
    decreases xs.len(),
{
    if xs.len() > 0 {
        lemma_u64s_len(xs.drop_last());
    }
}

/// The encoding of a list of entries is that of its first `i` entries
/// followed by that of the rest.
pub proof fn lemma_entries_split(xs: Seq<BatchEntry>, i: int)
    requires
        0 <= i <= xs.len(),
    ensures
        enc_entries(xs) == enc_entries(xs.subrange(0, i)) + enc_entries(xs.subrange(i, xs.len() as int)),
    decreases xs.len(),
{
    if i < xs.len() {
        lemma_entries_split(xs.drop_last(), i);
        assert(xs.subrange(i, xs.len() as int).drop_last() =~= xs.drop_last().subrange(i, xs.len() - 1));
        assert(xs.drop_last().subrange(0, i) =~= xs.subrange(0, i));
        assert(enc_entries(xs.subrange(i, xs.len() as int)) == enc_entries(xs.subrange(i, xs.len() as int).drop_last()) + enc_entry(xs.last()));
    } else {
        assert(xs.subrange(0, i) =~= xs);
        assert(xs.subrange(i, xs.len() as int) =~= Seq::<BatchEntry>::empty());
    }
}

/// The 4-byte word at `pos`.
fn read_u32(b: &[u8], pos: usize) -> (r: Option<u32>)
    ensures
        r is Some <==> pos + 4 <= b@.len(),
        r is Some ==> b@.subrange(pos as int, pos + 4) == be32(r->0),
        forall|x: u32|
            pos + 4 <= b@.len() && b@.subrange(pos as int, pos + 4) == #[trigger] be32(x) ==> r
                == Some(x),
{
    if pos > b.len() || b.len() - pos < 4 {
        return None;
    }
    let x = ((b[pos] as u32) << 24u32) | ((b[pos + 1] as u32) << 16u32) | ((b[pos + 2] as u32)
        << 8u32) | (b[pos + 3] as u32);
    proof {
        lemma_be32_word32(b[pos as int], b[pos + 1], b[pos + 2], b[pos + 3]);
        assert(b@.subrange(pos as int, pos + 4) =~= seq![b[pos as int], b[pos + 1], b[pos + 2], b[pos + 3]]);
        assert forall|y: u32|
            pos + 4 <= b@.len() && b@.subrange(pos as int, pos + 4) == #[trigger] be32(y) implies x == y by {
            lemma_word32_be32(y);
            assert(be32(y)[0] == b[pos as int] && be32(y)[1] == b[pos + 1] && be32(y)[2] == b[pos + 2] && be32(y)[3] == b[pos + 3]);
        }
    }
    Some(x)
}

/// The 8-byte word at `pos`.
fn read_u64(b: &[u8], pos: usize) -> (r: Option<u64>)
    ensures
        r is Some <==> pos + 8 <= b@.len(),
        r is Some ==> b@.subrange(pos as int, pos + 8) == be64(r->0),
        forall|x: u64|
            pos + 8 <= b@.len() && b@.subrange(pos as int, pos + 8) == #[trigger] be64(x) ==> r
                == Some(x),
{
    if pos > b.len() || b.len() - pos < 8 {
        return None;
    }
    let x = ((b[pos] as u64) << 56u64) | ((b[pos + 1] as u64) << 48u64) | ((b[pos + 2] as u64)
        << 40u64) | ((b[pos + 3] as u64) << 32u64) | ((b[pos + 4] as u64) << 24u64) | ((b[pos
        + 5] as u64) << 16u64) | ((b[pos + 6] as u64) << 8u64) | (b[pos + 7] as u64);
    proof {
        let w = b@.subrange(pos as int, pos + 8);
        lemma_be64_word64(w);
        assert(word64(w) == x);
        assert forall|y: u64|
            pos + 8 <= b@.len() && b@.subrange(pos as int, pos + 8) == #[trigger] be64(y) implies x == y by {
            lemma_word64_be64(y);
        }
    }
    Some(x)
}

/// The `n` bytes at `pos`.
fn read_bytes(b: &[u8], pos: usize, n: usize) -> (r: Option<Vec<u8>>)
    ensures
        r is Some <==> pos + n <= b@.len(),
        r is Some ==> r->0@ == b@.subrange(pos as int, pos + n),
{
    if pos > b.len() || b.len() - pos < n {
        return None;
    }
    let mut out: Vec<u8> = Vec::new();
    let mut i: usize = 0;
    while i < n
        invariant
            i <= n,
            pos + n <= b@.len(),
            b@.len() <= usize::MAX,
            out@ == b@.subrange(pos as int, pos + i),
        decreases n - i,
    {
        out.push(b[pos + i]);
        i = i + 1;
        assert(out@ =~= b@.subrange(pos as int, pos + i));
    }
    Some(out)
}

/// `b` holds the bytes `e` at `pos`.
pub open spec fn holds_at(b: Seq<u8>, pos: int, e: Seq<u8>) -> bool {
    0 <= pos && pos + e.len() <= b.len() && b.subrange(pos, pos + e.len()) == e
}

pub proof fn lemma_holds_split(b: Seq<u8>, pos: int, x: Seq<u8>, y: Seq<u8>)
    requires
        holds_at(b, pos, x + y),
    ensures
        holds_at(b, pos, x),
        holds_at(b, pos + x.len(), y),
{
    assert(b.subrange(pos, pos + x.len()) =~= (x + y).subrange(0, x.len() as int));
    assert((x + y).subrange(0, x.len() as int) =~= x);
    assert(b.subrange(pos + x.len(), pos + x.len() + y.len()) =~= (x + y).subrange(x.len() as int, (x + y).len() as int));
    assert((x + y).subrange(x.len() as int, (x + y).len() as int) =~= y);
}

/// The wire string at `pos`, and where it ends; `s` is a string that, if it
/// is encoded at `pos`, must be read.
fn read_str(b: &[u8], pos: usize, Ghost(s): Ghost<Seq<char>>) -> (r: Option<(String, usize)>)
    ensures
        r is Some ==> {
            let (t, e) = r->0;
            &&& pos <= e <= b@.len()
            &&& b@.subrange(pos as int, e as int) == enc_str(t@)
            &&& str_fits(t@)
        },
        str_fits(s) && holds_at(b@, pos as int, enc_str(s)) ==> r is Some && (r->0).1 == pos + enc_str(s).len(),
{
    let blen = b.len();
    proof {
        if str_fits(s) && holds_at(b@, pos as int, enc_str(s)) {
            lemma_holds_split(b@, pos as int, be32(encode_utf8(s).len() as u32), encode_utf8(s));
            encode_utf8_valid_utf8(s);
        }
    }
    let n = match read_u32(b, pos) {
        Some(n) => n,
        None => return None,
    };
    let bytes = match read_bytes(b, pos + 4, n as usize) {
        Some(v) => v,
        None => return None,
    };
    let ghost raw = bytes@;
    let t = match string_from_utf8(bytes) {
        Some(t) => t,
        None => return None,
    };
    let e = pos + 4 + n as usize;
    proof {
        decode_utf8_encode_utf8(raw);
        assert(b@.subrange(pos as int, e as int) =~= b@.subrange(pos as int, pos + 4) + b@.subrange(pos + 4, e as int));
    }
    Some((t, e))
}

/// The raw tensor at `pos`, and where it ends; `w` is a tensor that, if it
/// is encoded at `pos`, must be read.
fn read_tensor(b: &[u8], pos: usize, Ghost(w): Ghost<RawTensor>) -> (r: Option<(RawTensor, usize)>)
    ensures
        r is Some ==> {
            let (t, e) = r->0;
            &&& pos <= e <= b@.len()
            &&& b@.subrange(pos as int, e as int) == enc_tensor(t)
            &&& tensor_fits(t)
        },
        tensor_fits(w) && holds_at(b@, pos as int, enc_tensor(w)) ==> r is Some && (r->0).1 == pos + enc_tensor(w).len(),
{
    let blen = b.len();
    let ghost ok = tensor_fits(w) && holds_at(b@, pos as int, enc_tensor(w));
    let ghost a = enc_str(w.dtype@);
    let ghost c = enc_u64s(w.shape@);
    proof {
        lemma_u64s_len(w.shape@);
        if ok {
            let bb = be32(w.shape@.len() as u32);
            let d = be32(w.data@.len() as u32);
            lemma_holds_split(b@, pos as int, a + bb + c + d, w.data@);
            lemma_holds_split(b@, pos as int, a + bb + c, d);
            lemma_holds_split(b@, pos as int, a + bb, c);
            lemma_holds_split(b@, pos as int, a, bb);
        }
    }
    let (dtype, p1) = match read_str(b, pos, Ghost(w.dtype@)) {
        Some(r) => r,
        None => return None,
    };
    let count = match read_u32(b, p1) {
        Some(n) => n,
        None => return None,
    };
    let p2 = p1 + 4;
    let mut shape: Vec<u64> = Vec::new();
    let mut p = p2;
    let mut i: u32 = 0;
    while i < count
        invariant
            p2 <= p <= b@.len(),
            blen == b@.len(),
            i <= count,
            shape@.len() == i,
            b@.subrange(p2 as int, p as int) == enc_u64s(shape@),
            ok == (tensor_fits(w) && holds_at(b@, pos as int, enc_tensor(w))),
            ok ==> count == w.shape@.len() && p == p2 + 8 * i && p2 + c.len() <= b@.len(),
            c == enc_u64s(w.shape@),
            c.len() == 8 * w.shape@.len(),
        decreases count - i,
    {
        proof {
            if ok {
                assert(p + 8 <= p2 + c.len()) by (nonlinear_arith)
                    requires p == p2 + 8 * i, i < count, c.len() == 8 * count;
            }
        }
        let x = match read_u64(b, p) {
            Some(x) => x,
            None => return None,
        };
        let ghost prev = shape@;
        shape.push(x);
        proof {
            assert(shape@.drop_last() =~= prev);
            assert(b@.subrange(p2 as int, p + 8) =~= b@.subrange(p2 as int, p as int) + b@.subrange(p as int, p + 8));
        }
        p = p + 8;
        i = i + 1;
    }
    proof {
        if ok {
            let bb = be32(w.shape@.len() as u32);
            let d = be32(w.data@.len() as u32);
            assert(p == pos + (a + bb + c).len());
            assert(holds_at(b@, p as int, d));
            assert(holds_at(b@, p + 4, w.data@));
        }
    }
    let n = match read_u32(b, p) {
        Some(n) => n,
        None => return None,
    };
    let data = match read_bytes(b, p + 4, n as usize) {
        Some(v) => v,
        None => return None,
    };
    let e = p + 4 + n as usize;
    let t = RawTensor { dtype, shape, data };
    proof {
        assert(b@.subrange(pos as int, e as int) =~= b@.subrange(pos as int, p1 as int) + b@.subrange(p1 as int, p2 as int)
            + b@.subrange(p2 as int, p as int) + b@.subrange(p as int, p + 4) + b@.subrange(p + 4, e as int));
    }
    Some((t, e))
}

/// Where the encoding of entry `i` of `wb` lies, when `wb` is encoded at 5.
pub proof fn lemma_entry_at(b: Seq<u8>, wb: Seq<BatchEntry>, i: int, p: int)
    requires
        holds_at(b, 5, enc_entries(wb)),
        0 <= i < wb.len(),
        p == 5 + enc_entries(wb.subrange(0, i)).len(),
    ensures
        holds_at(b, p, enc_str(wb[i].layer_name@)),
        holds_at(b, p + enc_str(wb[i].layer_name@).len(), be64(wb[i].position as u64)),
        holds_at(b, p + enc_str(wb[i].layer_name@).len() + 8, be64(wb[i].layer_index as u64)),
{
    let we = wb[i];
    lemma_entries_split(wb, i);
    let rest = wb.subrange(i, wb.len() as int);
    lemma_entries_split(rest, 1);
    assert(rest.subrange(0, 1).drop_last() =~= Seq::<BatchEntry>::empty());
    assert(rest.subrange(0, 1).last() == we);
    assert(enc_entries(Seq::<BatchEntry>::empty()) == Seq::<u8>::empty());
    assert(enc_entries(rest.subrange(0, 1)) =~= enc_entry(we));
    let pre = enc_entries(wb.subrange(0, i));
    lemma_holds_split(b, 5, pre, enc_entries(rest));
    lemma_holds_split(b, p, enc_entry(we), enc_entries(rest.subrange(1, rest.len() as int)));
    lemma_holds_split(b, p, enc_str(we.layer_name@) + be64(we.position as u64), be64(we.layer_index as u64));
    lemma_holds_split(b, p, enc_str(we.layer_name@), be64(we.position as u64));
}

pub proof fn lemma_entries_step(wb: Seq<BatchEntry>, i: int)
    requires
        0 <= i < wb.len(),
    ensures
        enc_entries(wb.subrange(0, i + 1)) == enc_entries(wb.subrange(0, i)) + enc_entry(wb[i]),
{
    assert(wb.subrange(0, i + 1).drop_last() =~= wb.subrange(0, i));
}

/// The entry list at byte 1 of a forward-batch payload, and where it ends;
/// `wb` is a list that, if it is encoded there, must be read.
fn read_batch(b: &[u8], Ghost(wb): Ghost<Seq<BatchEntry>>) -> (r: Option<(Vec<BatchEntry>, usize)>)
    ensures
        r is Some ==> {
            let (batch, e) = r->0;
            &&& 5 <= e <= b@.len()
            &&& b@.subrange(1, e as int) == be32(batch@.len() as u32) + enc_entries(batch@)
            &&& batch@.len() <= u32::MAX
            &&& forall|k: int| 0 <= k < batch@.len() ==> str_fits((#[trigger] batch@[k]).layer_name@)
        },
        ({
            &&& wb.len() <= u32::MAX
            &&& forall|k: int| 0 <= k < wb.len() ==> str_fits((#[trigger] wb[k]).layer_name@)
            &&& holds_at(b@, 1, be32(wb.len() as u32) + enc_entries(wb))
        }) ==> r is Some && (r->0).1 == 5 + enc_entries(wb).len(),
{
    let blen = b.len();
    let ghost okb = {
        &&& wb.len() <= u32::MAX
        &&& forall|k: int| 0 <= k < wb.len() ==> str_fits((#[trigger] wb[k]).layer_name@)
        &&& holds_at(b@, 1, be32(wb.len() as u32) + enc_entries(wb))
    };
    let ghost ents = enc_entries(wb);
    proof {
        if okb {
            lemma_holds_split(b@, 1, be32(wb.len() as u32), ents);
        }
        assert(enc_entries(Seq::<BatchEntry>::empty()) == Seq::<u8>::empty());
    }
    let count = match read_u32(b, 1) {
        Some(n) => n,
        None => return None,
    };
    let mut batch: Vec<BatchEntry> = Vec::new();
    let mut p: usize = 5;
    let mut i: u32 = 0;
    while i < count
        invariant
            5 <= p <= b@.len(),
            blen == b@.len(),
            i <= count,
            batch@.len() == i,
            b@.subrange(5, p as int) == enc_entries(batch@),
            forall|k: int| 0 <= k < batch@.len() ==> str_fits((#[trigger] batch@[k]).layer_name@),
            ents == enc_entries(wb),
            enc_entries(Seq::<BatchEntry>::empty()) == Seq::<u8>::empty(),
            okb == ({
                &&& wb.len() <= u32::MAX
                &&& forall|k: int| 0 <= k < wb.len() ==> str_fits((#[trigger] wb[k]).layer_name@)
                &&& holds_at(b@, 1, be32(wb.len() as u32) + enc_entries(wb))
            }),
            okb ==> {
                &&& count == wb.len()
                &&& p == 5 + enc_entries(wb.subrange(0, i as int)).len()
                &&& holds_at(b@, 5, ents)
            &&& wb.len() <= u32::MAX
                &&& forall|k: int| 0 <= k < wb.len() ==> str_fits((#[trigger] wb[k]).layer_name@)
            },
        decreases count - i,
    {
        let ghost we = wb[i as int];
        proof {
            if okb {
                lemma_entry_at(b@, wb, i as int, p as int);
            }
        }
        let (name, p1) = match read_str(b, p, Ghost(we.layer_name@)) {
            Some(r) => r,
            None => return None,
        };
        let position = match read_u64(b, p1) {
            Some(x) => x,
            None => return None,
        };
        let index = match read_u64(b, p1 + 8) {
            Some(x) => x,
            None => return None,
        };
        if position > usize::MAX as u64 || index > usize::MAX as u64 {
            return None;
        }
        let e = BatchEntry { layer_name: name, position: position as usize, layer_index: index as usize };
        let ghost prev = batch@;
        batch.push(e);
        proof {
            assert(batch@.drop_last() =~= prev);
            assert(b@.subrange(5, p1 + 16) =~= b@.subrange(5, p as int) + b@.subrange(p as int, p1 as int)
                + b@.subrange(p1 as int, p1 + 8) + b@.subrange(p1 + 8, p1 + 16));
            if okb {
                lemma_entries_step(wb, i as int);
            }
        }
        p = p1 + 16;
        i = i + 1;
    }
    proof {
        if okb {
            assert(wb.subrange(0, i as int) =~= wb);
        }
    }
    proof {
        assert(b@.subrange(1, p as int) =~= b@.subrange(1, 5) + b@.subrange(5, p as int));
    }
    Some((batch, p))
}

/// The message whose payload bytes are `b`. It succeeds exactly when `b` is
/// the encoding of a message, and then returns that message.
pub fn decode_message(b: &[u8]) -> (r: Result<Message, ProtoError>)
    ensures
        r is Ok ==> fits(r->Ok_0) && enc_message(r->Ok_0) == b@,
        r is Err ==> r == Err::<Message, ProtoError>(ProtoError::Malformed),
        (exists|m: Message| fits(m) && enc_message(m) == b@) ==> r is Ok,
{
    let blen = b.len();
    let ghost w = choose|m: Message| fits(m) && enc_message(m) == b@;
    let ghost ok = fits(w) && enc_message(w) == b@;
    proof {
        if ok {
            assert(b@.subrange(0, b@.len() as int) =~= b@);
            assert(holds_at(b@, 0, enc_message(w)));
        }
    }
    if b.len() == 0 {
        return Err(ProtoError::Malformed);
    }
    let tag = b[0];
    let m: Message;
    let end: usize;
    if tag == 0u8 {
        proof {
            if ok && w is ForwardBatch {
                let wb = w->ForwardBatch_batch@;
                assert(enc_message(w) =~= seq![0u8] + (be32(wb.len() as u32) + enc_entries(wb) + enc_tensor(w->ForwardBatch_x)));
                lemma_holds_split(b@, 0, seq![0u8], be32(wb.len() as u32) + enc_entries(wb) + enc_tensor(w->ForwardBatch_x));
                lemma_holds_split(b@, 1, be32(wb.len() as u32) + enc_entries(wb), enc_tensor(w->ForwardBatch_x));
            }
        }
        let (batch, p) = match read_batch(b, Ghost(w->ForwardBatch_batch@)) {
            Some(r) => r,
            None => return Err(ProtoError::Malformed),
        };
        let (x, e) = match read_tensor(b, p, Ghost(w->ForwardBatch_x)) {
            Some(r) => r,
            None => return Err(ProtoError::Malformed),
        };
        proof {
            assert(b@.subrange(0, e as int) =~= seq![0u8] + b@.subrange(1, p as int) + b@.subrange(p as int, e as int));
        }
        m = Message::ForwardBatch { batch, x };
        end = e;
    } else if tag == 1u8 {
        proof {
            if ok && w is Tensor {
                lemma_holds_split(b@, 0, seq![1u8], enc_tensor(w->Tensor_x));
            }
        }
        let (x, e) = match read_tensor(b, 1, Ghost(w->Tensor_x)) {
            Some(r) => r,
            None => return Err(ProtoError::Malformed),
        };
        proof {
            assert(b@.subrange(0, e as int) =~= seq![1u8] + b@.subrange(1, e as int));
        }
        m = Message::Tensor { x };
        end = e;
    } else if tag == 2u8 {
        proof {
            if ok && w is Error {
                lemma_holds_split(b@, 0, seq![2u8], enc_str(w->Error_message@));
            }
        }
        let (message, e) = match read_str(b, 1, Ghost(w->Error_message@)) {
            Some(r) => r,
            None => return Err(ProtoError::Malformed),
        };
        proof {
            assert(b@.subrange(0, e as int) =~= seq![2u8] + b@.subrange(1, e as int));
        }
        m = Message::Error { message };
        end = e;
    } else {
        proof {
            if ok {
                assert(b@[0] == enc_message(w)[0]);
            }
        }
        return Err(ProtoError::Malformed);
    }
    if end != b.len() {
        return Err(ProtoError::Malformed);
    }
    assert(b@.subrange(0, end as int) =~= b@);
    Ok(m)
}

} // verus!
