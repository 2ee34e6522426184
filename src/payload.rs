//! Doc-id multiplexing on the wire: `[len: u8][doc_id: len bytes][payload]`.
use bytes::Bytes;
use vstd::prelude::*;
use vstd::string::StringSliceAdditionalSpecFns;
use vstd::utf8::valid_utf8;

verus! {

/// Longest doc-id, in bytes, that the one-byte length prefix can carry.
pub const MAX_DOC_ID_LEN: usize = 255;

/// Opaque byte buffer of the `bytes` crate, carried through the framing.
#[verifier::external_type_specification]
#[verifier::external_body]
pub struct ExBytes(bytes::Bytes);

/// The bytes a `Bytes` buffer holds, in order.
pub uninterp spec fn bytes_content(b: bytes::Bytes) -> Seq<u8>;

/// How many bytes of a doc-id the frame keeps: at most 255.
pub open spec fn kept_len(id: Seq<u8>) -> nat {
    if id.len() <= MAX_DOC_ID_LEN { id.len() } else { MAX_DOC_ID_LEN as nat }
}

/// The frame for a doc-id given by its UTF-8 bytes, and a payload.
pub open spec fn frame(id: Seq<u8>, payload: Seq<u8>) -> Seq<u8> {
    seq![kept_len(id) as u8] + id.subrange(0, kept_len(id) as int) + payload
}

/// Whether `data` is a well-formed frame: a length byte, that many bytes of
/// valid UTF-8, then the payload.
pub open spec fn well_formed_frame(data: Seq<u8>) -> bool {
    &&& data.len() >= 1
    &&& data.len() >= 1 + data[0]
    &&& valid_utf8(data.subrange(1, 1 + data[0]))
}

/// The doc-id bytes of a well-formed frame.
pub open spec fn frame_id(data: Seq<u8>) -> Seq<u8> {
    data.subrange(1, 1 + data[0])
}

/// The payload bytes of a well-formed frame.
pub open spec fn frame_payload(data: Seq<u8>) -> Seq<u8> {
    data.subrange(1 + data[0], data.len() as int)
}

/// Relies on `From<Vec<u8>> for Bytes`: the buffer holds the vector's bytes.
#[verifier::external_body]
fn bytes_from_vec(v: Vec<u8>) -> (r: Bytes)
    ensures
        bytes_content(r) == v@,
{
    Bytes::from(v)
}

/// Relies on `std::str::from_utf8`: `Ok` exactly on valid UTF-8, and the
/// string then holds those bytes.
#[verifier::external_body]
fn str_from_utf8(v: &[u8]) -> (r: Option<&str>)
    ensures
        r.is_some() <==> valid_utf8(v@),
        r matches Some(s) ==> s.spec_bytes() == v@,
{
    std::str::from_utf8(v).ok()
}

/// Frames `payload` with the doc-id prefix; a doc-id longer than 255 bytes is
/// cut to its first 255 bytes.
pub fn encode_with_doc_id(doc_id: &str, payload: &[u8]) -> (r: Bytes)
    requires
        doc_id.spec_bytes().len() + payload@.len() + 1 <= usize::MAX,
    ensures
        bytes_content(r) == frame(doc_id.spec_bytes(), payload@),
{
    let id = doc_id.as_bytes();
    let len: usize = if id.len() <= MAX_DOC_ID_LEN { id.len() } else { MAX_DOC_ID_LEN };
    let mut buf: Vec<u8> = Vec::with_capacity(1 + len + payload.len());
    buf.push(len as u8);
    let mut i: usize = 0;
    while i < len
        invariant
            len == kept_len(id@),
            len <= id@.len(),
            i <= len,
            buf@ == seq![len as u8] + id@.subrange(0, i as int),
        decreases len - i,
    {
        buf.push(id[i]);
        proof {
            assert(id@.subrange(0, i + 1) == id@.subrange(0, i as int).push(id@[i as int]));
        }
        i = i + 1;
    }
    let mut j: usize = 0;
    while j < payload.len()
        invariant
            buf@ == seq![len as u8] + id@.subrange(0, len as int) + payload@.subrange(0, j as int),
            j <= payload@.len(),
        decreases payload@.len() - j,
    {
        buf.push(payload[j]);
        proof {
            assert(payload@.subrange(0, j + 1) == payload@.subrange(0, j as int).push(payload@[j as int]));
        }
        j = j + 1;
    }
    assert(payload@.subrange(0, payload@.len() as int) == payload@);
    bytes_from_vec(buf)
}

/// Splits a frame into its doc-id and payload; `None` when the frame is
/// shorter than its length byte claims or the doc-id is not valid UTF-8.
pub fn decode_doc_id(data: &[u8]) -> (r: Option<(&str, &[u8])>)
    ensures
        r.is_some() <==> well_formed_frame(data@),
        r matches Some((id, rest)) ==> id.spec_bytes() == frame_id(data@) && rest@ == frame_payload(data@),
{
    if data.len() == 0 {
        return None;
    }
    let len: usize = data[0] as usize;
    if data.len() < 1 + len {
        return None;
    }
    let (_, tail) = data.split_at(1);
    let (id_bytes, rest) = tail.split_at(len);
    assert(id_bytes@ == data@.subrange(1, 1 + len));
    assert(rest@ == data@.subrange(1 + len, data@.len() as int));
    match str_from_utf8(id_bytes) {
        Some(id) => Some((id, rest)),
        None => None,
    }
}

/// Decoding an encoded frame gives back the doc-id cut to 255 bytes and the
/// payload unchanged, whenever the kept bytes of the doc-id are valid UTF-8
/// (always the case for a doc-id of at most 255 bytes).
pub proof fn lemma_decode_encode(id: Seq<u8>, payload: Seq<u8>)
    requires
        valid_utf8(id.subrange(0, kept_len(id) as int)),
    ensures
        well_formed_frame(frame(id, payload)),
        frame_id(frame(id, payload)) == id.subrange(0, kept_len(id) as int),
        frame_payload(frame(id, payload)) == payload,
{
    let f = frame(id, payload);
    let n = kept_len(id) as int;
    assert(f[0] == n);
    assert(f.subrange(1, 1 + n) == id.subrange(0, n));
    assert(f.subrange(1 + n, f.len() as int) == payload);
}

} // verus!
