//! The value record stored with each entry, and its block encoding
//! `meta (1) ‖ user_meta (1) ‖ expires_at (8, big-endian) ‖ value bytes`.
//! The encoding carries no length of its own: entry framing delimits it.

use vstd::prelude::*;
use crate::error::Error;
use crate::format::{
    extend_bytes, get_u64_be, put_u64_be, spec_u64_from_be_bytes, spec_u64_to_be_bytes,
    lemma_u64_be_bytes, extend_from_range,
};

verus! {

/// The number of bytes a value encoding uses besides the value bytes.
pub const VALUE_HEADER_LEN: usize = 10;

/// A value record.
#[derive(Debug, Clone)]
pub struct Value {
    pub value: Vec<u8>,
    pub meta: u8,
    pub user_meta: u8,
    pub expires_at: u64,
    pub version: u64,
}

impl Value {
    /// A value with empty metadata.
    pub fn new(value: Vec<u8>) -> (r: Value)
        ensures
            r.value@ == value@,
            r.meta == 0u8,
            r.user_meta == 0u8,
            r.expires_at == 0u64,
            r.version == 0u64,
    {
        Value { value, meta: 0, user_meta: 0, expires_at: 0, version: 0 }
    }

    /// A value with the given metadata bytes.
    pub fn new_with_meta(value: Vec<u8>, meta: u8, user_meta: u8) -> (r: Value)
        ensures
            r.value@ == value@,
            r.meta == meta,
            r.user_meta == user_meta,
            r.expires_at == 0u64,
            r.version == 0u64,
    {
        Value { value, meta, user_meta, expires_at: 0, version: 0 }
    }

    /// The serialized form of this value record. The version is not part of
    /// it: a reader recovers the version from the internal key's timestamp.
    pub open spec fn spec_encode(self) -> Seq<u8> {
        seq![self.meta, self.user_meta] + spec_u64_to_be_bytes(self.expires_at) + self.value@
    }

    /// Appends the serialized record to `buf`.
    pub fn encode_into(&self, buf: &mut Vec<u8>)
        ensures
            final(buf)@ == old(buf)@ + self.spec_encode(),
    {
        buf.push(self.meta);
        buf.push(self.user_meta);
        put_u64_be(buf, self.expires_at);
        extend_bytes(buf, self.value.as_slice());
        proof {
            assert(buf@ =~= old(buf)@ + self.spec_encode());
        }
    }

    /// The number of bytes `spec_encode` produces.
    pub open spec fn spec_encoded_len(self) -> int {
        VALUE_HEADER_LEN + self.value@.len()
    }

    /// Decodes the record serialized in `s[from..to]`.
    pub fn decode(s: &[u8], from: usize, to: usize) -> (r: Result<Value, Error>)
        requires
            from <= to <= s@.len(),
        ensures
            r is Ok <==> to - from >= VALUE_HEADER_LEN,
            r is Ok ==> spec_value_matches(r->Ok_0, s@.subrange(from as int, to as int)),
            r is Err ==> r->Err_0 is DecodeError,
    {
        proof {
            lemma_u64_be_bytes();
        }
        if to - from < VALUE_HEADER_LEN {
            return Err(Error::DecodeError);
        }
        let meta = s[from];
        let user_meta = s[from + 1];
        let expires_at = get_u64_be(s, from + 2);
        let mut value: Vec<u8> = Vec::new();
        extend_from_range(&mut value, s, from + VALUE_HEADER_LEN, to);
        let r = Value { value, meta, user_meta, expires_at, version: 0 };
        proof {
            let piece = s@.subrange(from as int, to as int);
            assert(s@.subrange(from + 2, from as int + 10) =~= piece.subrange(2, 10));
            assert(r.value@ =~= piece.skip(VALUE_HEADER_LEN as int));
        }
        Ok(r)
    }
}

/// Whether `v` is exactly the value record serialized in `s`. The version is
/// not serialized and reads back as 0.
pub open spec fn spec_value_matches(v: Value, s: Seq<u8>) -> bool {
    &&& s.len() >= VALUE_HEADER_LEN
    &&& v.meta == s[0]
    &&& v.user_meta == s[1]
    &&& v.expires_at == spec_u64_from_be_bytes(s.subrange(2, 10))
    &&& v.value@ == s.skip(VALUE_HEADER_LEN as int)
    &&& v.version == 0u64
}

/// A serialized value record reads back with the fields it was built from.
pub proof fn lemma_value_round_trip(v: Value, r: Value)
    requires
        v.version == 0u64,
        spec_value_matches(r, v.spec_encode()),
    ensures
        r.meta == v.meta,
        r.user_meta == v.user_meta,
        r.expires_at == v.expires_at,
        r.value@ == v.value@,
        r.version == v.version,
{
    lemma_u64_be_bytes();
    let s = v.spec_encode();
    assert(s.subrange(2, 10) =~= spec_u64_to_be_bytes(v.expires_at));
    assert(s.skip(VALUE_HEADER_LEN as int) =~= v.value@);
}

} // verus!
