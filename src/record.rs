use vstd::bytes::*;
use vstd::prelude::*;
use vstd::utf8::*;

use crate::error::PasteError;

verus! {

broadcast use vstd::utf8::group_utf8_lib;

/// The largest number of bytes that one encoded record may occupy.
pub const MAX_RECORD_LEN: usize = 1024;

/// Bytes taken by the fixed part of a record: the id and the timestamp.
pub const RECORD_FIXED_LEN: usize = 16;

/// The mathematical value of a paste.
pub ghost struct PasteModel {
    pub id: u64,
    pub content: Seq<char>,
    pub timestamp: u64,
}

/// A stored text document.
#[derive(Clone, Debug, PartialEq, Eq)]
pub struct Paste {
    pub id: u64,
    pub content: String,
    pub timestamp: u64,
}

impl View for Paste {
    type V = PasteModel;

    open spec fn view(&self) -> PasteModel {
        PasteModel { id: self.id, content: self.content@, timestamp: self.timestamp }
    }
}

/// The encoding of a record: the id and the timestamp, eight little-endian
/// bytes each, then the content in UTF-8.
pub open spec fn encode_spec(p: PasteModel) -> Seq<u8> {
    spec_u64_to_le_bytes(p.id) + spec_u64_to_le_bytes(p.timestamp) + encode_utf8(p.content)
}

/// Whether content fits in a record under the bound on a record's size.
pub open spec fn content_fits(content: Seq<char>) -> bool {
    RECORD_FIXED_LEN + encode_utf8(content).len() <= MAX_RECORD_LEN
}

/// Whether a record fits under the bound on a record's size.
pub open spec fn fits(p: PasteModel) -> bool {
    content_fits(p.content)
}

/// Text is empty exactly when its UTF-8 encoding is.
pub proof fn lemma_encode_utf8_empty(c: Seq<char>)
    ensures
        (encode_utf8(c).len() == 0) == (c.len() == 0),
{
    if c.len() > 0 {
        assert(encode_scalar(c[0] as u32).len() > 0);
    }
}

/// The record that some bytes hold, if they hold one.
pub open spec fn decode_spec(b: Seq<u8>) -> Option<PasteModel> {
    if b.len() >= RECORD_FIXED_LEN && valid_utf8(b.subrange(16, b.len() as int)) {
        Some(
            PasteModel {
                id: spec_u64_from_le_bytes(b.subrange(0, 8)),
                timestamp: spec_u64_from_le_bytes(b.subrange(8, 16)),
                content: decode_utf8(b.subrange(16, b.len() as int)),
            },
        )
    } else {
        None
    }
}

/// Decoding gives back exactly the record that was encoded.
pub proof fn lemma_decode_encode(p: PasteModel)
    ensures
        decode_spec(encode_spec(p)) == Some(p),
        encode_spec(p).len() == RECORD_FIXED_LEN + encode_utf8(p.content).len(),
{
    lemma_auto_spec_u64_to_from_le_bytes();
    let b = encode_spec(p);
    let c = encode_utf8(p.content);
    assert(b.subrange(0, 8) =~= spec_u64_to_le_bytes(p.id));
    assert(b.subrange(8, 16) =~= spec_u64_to_le_bytes(p.timestamp));
    assert(b.subrange(16, b.len() as int) =~= c);
}

/// A copy of `b[start..end]`.
pub fn copy_range(b: &[u8], start: usize, end: usize) -> (r: Vec<u8>)
    requires
        start <= end <= b@.len(),
    ensures
        r@ == b@.subrange(start as int, end as int),
{
    let mut r: Vec<u8> = Vec::new();
    let mut i: usize = start;
    while i < end
        invariant
            start <= i <= end <= b@.len(),
            r@ == b@.subrange(start as int, i as int),
        decreases end - i,
    {
        r.push(b[i]);
        i = i + 1;
        assert(r@ =~= b@.subrange(start as int, i as int));
    }
    r
}

/// Appends all of `src` to `out`.
pub fn push_all(out: &mut Vec<u8>, src: &[u8])
    ensures
        final(out)@ == old(out)@ + src@,
{
    let mut i: usize = 0;
    while i < src.len()
        invariant
            i <= src@.len(),
            out@ == old(out)@ + src@.subrange(0, i as int),
        decreases src@.len() - i,
    {
        out.push(src[i]);
        i = i + 1;
        assert(out@ =~= old(out)@ + src@.subrange(0, i as int));
    }
    assert(src@.subrange(0, src@.len() as int) =~= src@);
}

/// Relies on `std::str::from_utf8`: it accepts exactly the well-formed
/// UTF-8 byte sequences, and the string it gives holds the decoded characters.
#[verifier::external_body]
fn string_from_utf8(b: &[u8]) -> (r: Option<String>)
    ensures
        r is Some <==> valid_utf8(b@),
        r matches Some(s) ==> s@ == decode_utf8(b@),
{
    match std::str::from_utf8(b) {
        Ok(s) => Some(s.to_string()),
        Err(_) => None,
    }
}

impl Paste {
    /// A copy of the record.
    pub fn duplicate(&self) -> (r: Paste)
        ensures
            r@ == self@,
    {
        Paste { id: self.id, content: self.content.clone(), timestamp: self.timestamp }
    }

    /// Encodes the record, or fails with `Oversize` where the encoding would
    /// exceed `MAX_RECORD_LEN` bytes.
    pub fn encode(&self) -> (r: Result<Vec<u8>, PasteError>)
        ensures
            fits(self@) ==> (r matches Ok(b) && b@ == encode_spec(self@)),
            !fits(self@) ==> r == Err::<Vec<u8>, PasteError>(PasteError::Oversize),
            r matches Ok(b) ==> b@.len() <= MAX_RECORD_LEN,
    {
        proof {
            lemma_decode_encode(self@);
        }
        let body = self.content.as_str().as_bytes();
        if body.len() > MAX_RECORD_LEN - RECORD_FIXED_LEN {
            return Err(PasteError::Oversize);
        }
        let mut out = u64_to_le_bytes(self.id);
        let ts = u64_to_le_bytes(self.timestamp);
        push_all(&mut out, ts.as_slice());
        push_all(&mut out, body);
        Ok(out)
    }

    /// Decodes a record, or gives `None` where the bytes do not hold one.
    pub fn decode(b: &[u8]) -> (r: Option<Paste>)
        ensures
            r is Some <==> decode_spec(b@) is Some,
            r matches Some(p) ==> decode_spec(b@) == Some(p@),
    {
        if b.len() < RECORD_FIXED_LEN {
            return None;
        }
        let body = copy_range(b, RECORD_FIXED_LEN, b.len());
        let content = match string_from_utf8(body.as_slice()) {
            Some(s) => s,
            None => return None,
        };
        let idb = copy_range(b, 0, 8);
        let tsb = copy_range(b, 8, 16);
        let id = u64_from_le_bytes(idb.as_slice());
        let timestamp = u64_from_le_bytes(tsb.as_slice());
        Some(Paste { id, content, timestamp })
    }
}

} // verus!
