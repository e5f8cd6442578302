use vstd::prelude::*;
use vstd::bytes::{
    lemma_auto_spec_u32_to_from_le_bytes, spec_u32_from_le_bytes, spec_u32_to_le_bytes,
    u32_from_le_bytes, u32_to_le_bytes,
};
use vstd::utf8::{decode_utf8, valid_utf8};
use vstd::string::StringSliceAdditionalSpecFns;
use crate::bytes::{copy_bytes, extend_bytes};
use crate::error::StoreError;
use crate::refid::Ref;

verus! {

/// The wire form of an entry: title length, body length (both `u32`,
/// little-endian), title bytes, body bytes.
pub open spec fn encode_entry(title: Seq<u8>, body: Seq<u8>) -> Seq<u8> {
    spec_u32_to_le_bytes(title.len() as u32) + spec_u32_to_le_bytes(body.len() as u32) + title
        + body
}

pub open spec fn entry_fits(title: Seq<u8>, body: Seq<u8>) -> bool {
    title.len() <= u32::MAX && body.len() <= u32::MAX
}

/// The little-endian `u32` at `at` in `s`.
pub open spec fn read_u32(s: Seq<u8>, at: int) -> u32 {
    spec_u32_from_le_bytes(s.subrange(at, at + 4))
}

/// What decoding the front of `s` yields: the title and the body, or
/// `None` when `s` is shorter than the lengths it announces.
pub open spec fn decode_entry(s: Seq<u8>) -> Option<(Seq<u8>, Seq<u8>)> {
    if s.len() < 8 {
        None
    } else {
        let tl = read_u32(s, 0) as int;
        let bl = read_u32(s, 4) as int;
        if 8 + tl + bl > s.len() {
            None
        } else {
            Some((s.subrange(8, 8 + tl), s.subrange(8 + tl, 8 + tl + bl)))
        }
    }
}

/// A titled document; `store_ref` is assigned on read and never encoded.
#[derive(Debug, Clone)]
pub struct Entry {
    pub store_ref: Ref,
    pub title_len: u32,
    pub body_len: u32,
    pub title: Vec<u8>,
    pub body: Vec<u8>,
}

/// Relies on `String::from_utf8`: it succeeds exactly on valid UTF-8 and
/// keeps the text.
#[verifier::external_body]
fn utf8_string(b: Vec<u8>) -> (r: Option<String>)
    ensures
        r is Some <==> valid_utf8(b@),
        r matches Some(s) ==> s@ == decode_utf8(b@),
{
    String::from_utf8(b).ok()
}

impl Entry {
    pub open spec fn wf(&self) -> bool {
        &&& self.title_len as int == self.title@.len()
        &&& self.body_len as int == self.body@.len()
    }

    pub fn new(title: &str, body: &str) -> (r: Entry)
        requires
            entry_fits(title.spec_bytes(), body.spec_bytes()),
        ensures
            r.wf(),
            r.title@ == title.spec_bytes(),
            r.body@ == body.spec_bytes(),
            r.store_ref == (Ref { block_id: 0, entry_id: 0 }),
    {
        let t = title.as_bytes();
        let b = body.as_bytes();
        Entry {
            store_ref: Ref::new(0, 0),
            title_len: t.len() as u32,
            body_len: b.len() as u32,
            title: copy_bytes(t, 0, t.len()),
            body: copy_bytes(b, 0, b.len()),
        }
    }

    /// The entry's wire form.
    pub fn to_bytes(&self) -> (r: Vec<u8>)
        requires
            self.wf(),
        ensures
            r@ == encode_entry(self.title@, self.body@),
    {
        let mut r = u32_to_le_bytes(self.title_len);
        let mut b = u32_to_le_bytes(self.body_len);
        r.append(&mut b);
        extend_bytes(&mut r, self.title.as_slice());
        extend_bytes(&mut r, self.body.as_slice());
        r
    }

    /// Decodes an entry from the front of `s`; fails with `CorruptBlock` when
    /// `s` is too short.
    pub fn from_bytes(s: &[u8]) -> (r: Result<Entry, StoreError>)
        ensures
            match decode_entry(s@) {
                None => r == Err::<Entry, StoreError>(StoreError::CorruptBlock),
                Some((t, b)) => r matches Ok(e) && e.wf() && e.title@ == t && e.body@ == b
                    && e.store_ref == (Ref { block_id: 0, entry_id: 0 }),
            },
    {
        if s.len() < 8 {
            return Err(StoreError::CorruptBlock);
        }
        let tl = u32_from_le_bytes(&s[0..4]);
        let bl = u32_from_le_bytes(&s[4..8]);
        if (tl as usize) > s.len() - 8 || (bl as usize) > s.len() - 8 - (tl as usize) {
            return Err(StoreError::CorruptBlock);
        }
        let t_end = 8 + tl as usize;
        let b_end = t_end + bl as usize;
        Ok(Entry {
            store_ref: Ref::new(0, 0),
            title_len: tl,
            body_len: bl,
            title: copy_bytes(s, 8, t_end),
            body: copy_bytes(s, t_end, b_end),
        })
    }

    /// Title, body and reference, the two texts as strings; `None` when
    /// either is not valid UTF-8.
    pub fn open(self) -> (r: Option<(String, String, Ref)>)
        ensures
            r is Some <==> valid_utf8(self.title@) && valid_utf8(self.body@),
            r matches Some(x) ==> x.0@ == decode_utf8(self.title@) && x.1@ == decode_utf8(
                self.body@,
            ) && x.2 == self.store_ref,
    {
        let store_ref = self.store_ref;
        let t = utf8_string(self.title);
        let b = utf8_string(self.body);
        match (t, b) {
            (Some(t), Some(b)) => Some((t, b, store_ref)),
            _ => None,
        }
    }
}

/// Decoding the wire form of an entry, followed by anything, gives the
/// entry back.
pub proof fn lemma_decode_encode_prefix(title: Seq<u8>, body: Seq<u8>, rest: Seq<u8>)
    requires
        entry_fits(title, body),
    ensures
        decode_entry(encode_entry(title, body) + rest) == Some((title, body)),
{
    lemma_auto_spec_u32_to_from_le_bytes();
    let tb = spec_u32_to_le_bytes(title.len() as u32);
    let bb = spec_u32_to_le_bytes(body.len() as u32);
    let s = encode_entry(title, body) + rest;
    assert(s.subrange(0, 4) =~= tb);
    assert(s.subrange(4, 8) =~= bb);
    let tl = title.len() as int;
    let bl = body.len() as int;
    assert(s.subrange(8, 8 + tl) =~= title);
    assert(s.subrange(8 + tl, 8 + tl + bl) =~= body);
}

/// An entry whose title and body fit `u32` lengths decodes from its wire form
/// byte for byte, an empty body included.
pub proof fn lemma_entry_round_trip(title: Seq<u8>, body: Seq<u8>)
    requires
        entry_fits(title, body),
    ensures
        decode_entry(encode_entry(title, body)) == Some((title, body)),
{
    lemma_decode_encode_prefix(title, body, Seq::empty());
    assert(encode_entry(title, body) + Seq::<u8>::empty() =~= encode_entry(title, body));
}

} // verus!
