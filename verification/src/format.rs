//! Byte-level codec: big-endian and little-endian integer framing and the
//! internal-key encoding `user_key ‖ big-endian u64 timestamp`.

use vstd::prelude::*;
use vstd::bytes::{
    lemma_auto_spec_u16_to_from_le_bytes, lemma_auto_spec_u32_to_from_le_bytes,
    lemma_auto_spec_u64_to_from_le_bytes, spec_u16_from_le_bytes, spec_u16_to_le_bytes,
    spec_u32_from_le_bytes, spec_u32_to_le_bytes, spec_u64_from_le_bytes, spec_u64_to_le_bytes,
    u16_from_le_bytes, u16_to_le_bytes, u32_from_le_bytes, u32_to_le_bytes, u64_from_le_bytes,
    u64_to_le_bytes,
};

verus! {

// ---------------------------------------------------------------------------
// Big-endian views, defined as the reversal of the little-endian ones.
// ---------------------------------------------------------------------------

pub open spec fn spec_u32_to_be_bytes(x: u32) -> Seq<u8> {
    spec_u32_to_le_bytes(x).reverse()
}

pub open spec fn spec_u32_from_be_bytes(s: Seq<u8>) -> u32
    recommends
        s.len() == 4,
{
    spec_u32_from_le_bytes(s.reverse())
}

pub open spec fn spec_u64_to_be_bytes(x: u64) -> Seq<u8> {
    spec_u64_to_le_bytes(x).reverse()
}

pub open spec fn spec_u64_from_be_bytes(s: Seq<u8>) -> u64
    recommends
        s.len() == 8,
{
    spec_u64_from_le_bytes(s.reverse())
}

/// Round trip for the big-endian u32 codec.
pub proof fn lemma_u32_be_bytes()
    ensures
        forall|x: u32|
            #![trigger spec_u32_to_be_bytes(x)]
            {
                &&& spec_u32_to_be_bytes(x).len() == 4
                &&& spec_u32_from_be_bytes(spec_u32_to_be_bytes(x)) == x
            },
        forall|s: Seq<u8>|
            s.len() == 4 ==> #[trigger] spec_u32_to_be_bytes(spec_u32_from_be_bytes(s)) == s,
{
    lemma_auto_spec_u32_to_from_le_bytes();
    assert forall|x: u32|
        {
            &&& #[trigger] spec_u32_to_be_bytes(x).len() == 4
            &&& spec_u32_from_be_bytes(spec_u32_to_be_bytes(x)) == x
        } by {
        assert(spec_u32_to_le_bytes(x).reverse().reverse() =~= spec_u32_to_le_bytes(x));
    };
    assert forall|s: Seq<u8>| s.len() == 4 implies #[trigger] spec_u32_to_be_bytes(
        spec_u32_from_be_bytes(s),
    ) == s by {
        assert(spec_u32_to_le_bytes(spec_u32_from_le_bytes(s.reverse())) == s.reverse());
        assert(s.reverse().reverse() =~= s);
    };
}

/// Round trip for the big-endian u64 codec.
pub proof fn lemma_u64_be_bytes()
    ensures
        forall|x: u64|
            #![trigger spec_u64_to_be_bytes(x)]
            {
                &&& spec_u64_to_be_bytes(x).len() == 8
                &&& spec_u64_from_be_bytes(spec_u64_to_be_bytes(x)) == x
            },
        forall|s: Seq<u8>|
            s.len() == 8 ==> #[trigger] spec_u64_to_be_bytes(spec_u64_from_be_bytes(s)) == s,
{
    lemma_auto_spec_u64_to_from_le_bytes();
    assert forall|x: u64|
        {
            &&& #[trigger] spec_u64_to_be_bytes(x).len() == 8
            &&& spec_u64_from_be_bytes(spec_u64_to_be_bytes(x)) == x
        } by {
        assert(spec_u64_to_le_bytes(x).reverse().reverse() =~= spec_u64_to_le_bytes(x));
    };
    assert forall|s: Seq<u8>| s.len() == 8 implies #[trigger] spec_u64_to_be_bytes(
        spec_u64_from_be_bytes(s),
    ) == s by {
        assert(spec_u64_to_le_bytes(spec_u64_from_le_bytes(s.reverse())) == s.reverse());
        assert(s.reverse().reverse() =~= s);
    };
}

// ---------------------------------------------------------------------------
// Executable codec helpers.
// ---------------------------------------------------------------------------

/// Appends a slice to a byte vector.
pub fn extend_bytes(dst: &mut Vec<u8>, src: &[u8])
    ensures
        final(dst)@ == old(dst)@ + src@,
{
    dst.extend_from_slice(src);
    proof {
        assert(dst@ =~= old(dst)@ + src@);
    }
}

/// Appends `x` to `buf` as 4 big-endian bytes.
pub fn put_u32_be(buf: &mut Vec<u8>, x: u32)
    ensures
        final(buf)@ == old(buf)@ + spec_u32_to_be_bytes(x),
{
    let le = u32_to_le_bytes(x);
    buf.push(le[3]);
    buf.push(le[2]);
    buf.push(le[1]);
    buf.push(le[0]);
    proof {
        assert(buf@ =~= old(buf)@ + spec_u32_to_be_bytes(x));
    }
}

/// Appends `x` to `buf` as 8 big-endian bytes.
pub fn put_u64_be(buf: &mut Vec<u8>, x: u64)
    ensures
        final(buf)@ == old(buf)@ + spec_u64_to_be_bytes(x),
{
    let le = u64_to_le_bytes(x);
    let mut i: usize = 8;
    while i > 0
        invariant
            i <= 8,
            le@ == spec_u64_to_le_bytes(x),
            le@.len() == 8,
            buf@ == old(buf)@ + le@.subrange(i as int, 8).reverse(),
        decreases i,
    {
        i = i - 1;
        buf.push(le[i]);
        proof {
            assert(buf@ =~= old(buf)@ + le@.subrange(i as int, 8).reverse());
        }
    }
    proof {
        assert(le@.subrange(0, 8) =~= le@);
        assert(buf@ =~= old(buf)@ + spec_u64_to_be_bytes(x));
    }
}

/// Appends `x` to `buf` as 4 little-endian bytes.
pub fn put_u32_le(buf: &mut Vec<u8>, x: u32)
    ensures
        final(buf)@ == old(buf)@ + spec_u32_to_le_bytes(x),
{
    let le = u32_to_le_bytes(x);
    buf.push(le[0]);
    buf.push(le[1]);
    buf.push(le[2]);
    buf.push(le[3]);
    proof {
        assert(buf@ =~= old(buf)@ + spec_u32_to_le_bytes(x));
    }
}

/// Appends `x` to `buf` as 2 little-endian bytes.
pub fn put_u16_le(buf: &mut Vec<u8>, x: u16)
    ensures
        final(buf)@ == old(buf)@ + spec_u16_to_le_bytes(x),
{
    let le = u16_to_le_bytes(x);
    buf.push(le[0]);
    buf.push(le[1]);
    proof {
        assert(buf@ =~= old(buf)@ + spec_u16_to_le_bytes(x));
    }
}

/// Reads a big-endian u32 at byte offset `off` of `s`.
pub fn get_u32_be(s: &[u8], off: usize) -> (x: u32)
    requires
        off + 4 <= s@.len(),
    ensures
        x == spec_u32_from_be_bytes(s@.subrange(off as int, off as int + 4)),
{
    let n: usize = s.len();
    let mut rev: Vec<u8> = Vec::new();
    rev.push(s[off + 3]);
    rev.push(s[off + 2]);
    rev.push(s[off + 1]);
    rev.push(s[off]);
    proof {
        assert(rev@ =~= s@.subrange(off as int, off as int + 4).reverse());
    }
    u32_from_le_bytes(rev.as_slice())
}

/// Reads a big-endian u64 at byte offset `off` of `s`.
pub fn get_u64_be(s: &[u8], off: usize) -> (x: u64)
    requires
        off + 8 <= s@.len(),
    ensures
        x == spec_u64_from_be_bytes(s@.subrange(off as int, off as int + 8)),
{
    let n: usize = s.len();
    let mut rev: Vec<u8> = Vec::new();
    let mut i: usize = 8;
    while i > 0
        invariant
            i <= 8,
            off + 8 <= n == s@.len(),
            rev@ == s@.subrange(off as int, off as int + 8).subrange(i as int, 8).reverse(),
        decreases i,
    {
        i = i - 1;
        rev.push(s[off + i]);
        proof {
            assert(rev@ =~= s@.subrange(off as int, off as int + 8).subrange(i as int, 8).reverse());
        }
    }
    proof {
        assert(s@.subrange(off as int, off as int + 8).subrange(0, 8) =~= s@.subrange(
            off as int,
            off as int + 8,
        ));
    }
    u64_from_le_bytes(rev.as_slice())
}

/// Reads a little-endian u32 at byte offset `off` of `s`.
pub fn get_u32_le(s: &[u8], off: usize) -> (x: u32)
    requires
        off + 4 <= s@.len(),
    ensures
        x == spec_u32_from_le_bytes(s@.subrange(off as int, off as int + 4)),
{
    let n: usize = s.len();
    u32_from_le_bytes(&s[off..off + 4])
}

/// Reads a little-endian u16 at byte offset `off` of `s`.
pub fn get_u16_le(s: &[u8], off: usize) -> (x: u16)
    requires
        off + 2 <= s@.len(),
    ensures
        x == spec_u16_from_le_bytes(s@.subrange(off as int, off as int + 2)),
{
    let n: usize = s.len();
    u16_from_le_bytes(&s[off..off + 2])
}

/// Copies `src[from..to]` onto the end of `dst`.
pub fn extend_from_range(dst: &mut Vec<u8>, src: &[u8], from: usize, to: usize)
    requires
        from <= to,
        to <= src@.len(),
    ensures
        final(dst)@ == old(dst)@ + src@.subrange(from as int, to as int),
{
    dst.extend_from_slice(&src[from..to]);
    proof {
        assert(dst@ =~= old(dst)@ + src@.subrange(from as int, to as int));
    }
}

// ---------------------------------------------------------------------------
// Internal keys.
// ---------------------------------------------------------------------------

/// The internal key for `user` at timestamp `ts`: the user key with the
/// big-endian timestamp appended.
pub open spec fn spec_key_with_ts(user: Seq<u8>, ts: u64) -> Seq<u8> {
    user + spec_u64_to_be_bytes(ts)
}

/// The user-key part of internal key `k`.
pub open spec fn spec_user_key(k: Seq<u8>) -> Seq<u8>
    recommends
        k.len() >= 8,
{
    k.take(k.len() - 8)
}

/// The timestamp of internal key `k`; keys too short to carry one read as 0.
pub open spec fn spec_get_ts(k: Seq<u8>) -> u64 {
    if k.len() < 8 {
        0
    } else {
        spec_u64_from_be_bytes(k.skip(k.len() - 8))
    }
}

/// Builds the internal key `key ‖ big-endian ts`.
pub fn key_with_ts(key: &[u8], ts: u64) -> (r: Vec<u8>)
    ensures
        r@ == spec_key_with_ts(key@, ts),
{
    let mut r: Vec<u8> = Vec::new();
    extend_bytes(&mut r, key);
    put_u64_be(&mut r, ts);
    r
}

/// Returns the user-key part of internal key `key`.
pub fn user_key(key: &[u8]) -> (r: &[u8])
    requires
        key@.len() >= 8,
    ensures
        r@ == spec_user_key(key@),
{
    let r = &key[0..key.len() - 8];
    proof {
        assert(r@ =~= spec_user_key(key@));
    }
    r
}

/// Returns the timestamp of internal key `key`, or 0 if the key is shorter
/// than a timestamp.
pub fn get_ts(key: &[u8]) -> (ts: u64)
    ensures
        ts == spec_get_ts(key@),
{
    if key.len() < 8 {
        0
    } else {
        let ts = get_u64_be(key, key.len() - 8);
        proof {
            assert(key@.subrange(key@.len() - 8, key@.len() as int) =~= key@.skip(key@.len() - 8));
        }
        ts
    }
}

/// The internal-key accessors invert the internal-key constructor: the
/// user key and the timestamp both read back exactly.
pub proof fn lemma_key_with_ts_round_trip(user: Seq<u8>, ts: u64)
    ensures
        spec_user_key(spec_key_with_ts(user, ts)) == user,
        spec_get_ts(spec_key_with_ts(user, ts)) == ts,
        spec_key_with_ts(user, ts).len() == user.len() + 8,
{
    lemma_u64_be_bytes();
    let k = spec_key_with_ts(user, ts);
    assert(k.take(k.len() - 8) =~= user);
    assert(k.skip(k.len() - 8) =~= spec_u64_to_be_bytes(ts));
}

} // verus!
