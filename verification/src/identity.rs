use vstd::prelude::*;

use crate::error::StoreError;

verus! {

/// A content identity: a 256-bit digest held as four 64-bit words.
///
/// Two contents with equal canonical bytes always receive equal identities;
/// the identity is the dedup key of the whole store.
#[derive(Clone, Copy, PartialEq, Eq, Structural, Debug, Hash)]
pub struct Identity {
    pub w0: u64,
    pub w1: u64,
    pub w2: u64,
    pub w3: u64,
}

/// Big-endian byte `k` of the word `w`.
pub open spec fn be_byte(w: u64, k: int) -> u8
    recommends
        0 <= k < 8,
{
    ((w >> (((7 - k) * 8) as u64)) & 0xff) as u8
}

/// The eight big-endian bytes of a 64-bit word.
pub open spec fn u64_bytes(w: u64) -> Seq<u8> {
    Seq::new(8, |k: int| be_byte(w, k))
}

/// The fixed 32-byte encoding of an identity: the four words, big-endian,
/// most significant word first.  This is also the ref-file format.
pub open spec fn identity_bytes_spec(id: Identity) -> Seq<u8> {
    u64_bytes(id.w0) + u64_bytes(id.w1) + u64_bytes(id.w2) + u64_bytes(id.w3)
}

/// The lowercase hex digit for a value below sixteen.
pub open spec fn hex_digit(n: u8) -> u8
    recommends
        n < 16,
{
    if n < 10 {
        (n + 48) as u8
    } else {
        (n + 87) as u8
    }
}

/// The two lowercase hex digits of one byte, high nibble first.
pub open spec fn byte_hex(b: u8) -> Seq<u8> {
    seq![hex_digit((b / 16) as u8), hex_digit((b % 16) as u8)]
}

/// The lowercase hex rendering of a byte string.
pub open spec fn hex_bytes(s: Seq<u8>) -> Seq<u8>
    decreases s.len(),
{
    if s.len() == 0 {
        Seq::empty()
    } else {
        byte_hex(s.first()) + hex_bytes(s.drop_first())
    }
}

/// The 64-character lowercase hex name of an identity, used for the final
/// object path in the sharded layout.
pub open spec fn identity_hex_spec(id: Identity) -> Seq<u8> {
    hex_bytes(identity_bytes_spec(id))
}

/// Hex rendering distributes over concatenation.
proof fn lemma_hex_bytes_append(a: Seq<u8>, b: Seq<u8>)
    ensures
        hex_bytes(a + b) == hex_bytes(a) + hex_bytes(b),
    decreases a.len(),
{
    if a.len() == 0 {
        assert(a + b =~= b);
        assert(hex_bytes(a) + hex_bytes(b) =~= hex_bytes(b));
    } else {
        assert((a + b).drop_first() =~= a.drop_first() + b);
        lemma_hex_bytes_append(a.drop_first(), b);
        assert(hex_bytes(a + b) =~= hex_bytes(a) + hex_bytes(b));
    }
}

/// A hex rendering has two digits per byte.
proof fn lemma_hex_bytes_len(s: Seq<u8>)
    ensures
        hex_bytes(s).len() == 2 * s.len(),
    decreases s.len(),
{
    if s.len() > 0 {
        lemma_hex_bytes_len(s.drop_first());
    }
}

/// Hex rendering of one more byte appends its two digits.
proof fn lemma_hex_bytes_take_step(s: Seq<u8>, i: int)
    requires
        0 <= i < s.len(),
    ensures
        hex_bytes(s.take(i + 1)) == hex_bytes(s.take(i)) + byte_hex(s[i]),
{
    assert(s.take(i + 1) =~= s.take(i) + seq![s[i]]);
    lemma_hex_bytes_append(s.take(i), seq![s[i]]);
    assert(seq![s[i]].drop_first() =~= Seq::<u8>::empty());
    assert(hex_bytes(seq![s[i]]) == byte_hex(s[i]) + hex_bytes(Seq::<u8>::empty()));
    assert(byte_hex(s[i]) + hex_bytes(Seq::<u8>::empty()) =~= byte_hex(s[i]));
}

/// Appends the eight big-endian bytes of `w` to `out`.
fn push_u64_be(out: &mut Vec<u8>, w: u64)
    ensures
        final(out)@ == old(out)@ + u64_bytes(w),
{
    assert((w >> 56u64) & 0xff < 256 && (w >> 48u64) & 0xff < 256 && (w >> 40u64) & 0xff < 256
        && (w >> 32u64) & 0xff < 256 && (w >> 24u64) & 0xff < 256 && (w >> 16u64) & 0xff < 256
        && (w >> 8u64) & 0xff < 256 && (w >> 0u64) & 0xff < 256) by (bit_vector);
    out.push(((w >> 56u64) & 0xff) as u8);
    out.push(((w >> 48u64) & 0xff) as u8);
    out.push(((w >> 40u64) & 0xff) as u8);
    out.push(((w >> 32u64) & 0xff) as u8);
    out.push(((w >> 24u64) & 0xff) as u8);
    out.push(((w >> 16u64) & 0xff) as u8);
    out.push(((w >> 8u64) & 0xff) as u8);
    out.push(((w >> 0u64) & 0xff) as u8);
    assert(out@ =~= old(out)@ + u64_bytes(w)) by {
        assert(u64_bytes(w)[0] == be_byte(w, 0) && be_byte(w, 0) == ((w >> 56u64) & 0xff) as u8);
        assert(u64_bytes(w)[1] == be_byte(w, 1) && be_byte(w, 1) == ((w >> 48u64) & 0xff) as u8);
        assert(u64_bytes(w)[2] == be_byte(w, 2) && be_byte(w, 2) == ((w >> 40u64) & 0xff) as u8);
        assert(u64_bytes(w)[3] == be_byte(w, 3) && be_byte(w, 3) == ((w >> 32u64) & 0xff) as u8);
        assert(u64_bytes(w)[4] == be_byte(w, 4) && be_byte(w, 4) == ((w >> 24u64) & 0xff) as u8);
        assert(u64_bytes(w)[5] == be_byte(w, 5) && be_byte(w, 5) == ((w >> 16u64) & 0xff) as u8);
        assert(u64_bytes(w)[6] == be_byte(w, 6) && be_byte(w, 6) == ((w >> 8u64) & 0xff) as u8);
        assert(u64_bytes(w)[7] == be_byte(w, 7) && be_byte(w, 7) == ((w >> 0u64) & 0xff) as u8);
    }
}

/// The 32-byte encoding of an identity.
pub fn identity_bytes(id: &Identity) -> (r: Vec<u8>)
    ensures
        r@ == identity_bytes_spec(*id),
{
    let mut out: Vec<u8> = Vec::new();
    push_u64_be(&mut out, id.w0);
    push_u64_be(&mut out, id.w1);
    push_u64_be(&mut out, id.w2);
    push_u64_be(&mut out, id.w3);
    assert(out@ =~= identity_bytes_spec(*id));
    out
}

/// Rebuilds a word from its eight big-endian bytes.
fn u64_from_bytes(b0: u8, b1: u8, b2: u8, b3: u8, b4: u8, b5: u8, b6: u8, b7: u8) -> (w: u64)
    ensures
        u64_bytes(w) == seq![b0, b1, b2, b3, b4, b5, b6, b7],
{
    let w: u64 = ((b0 as u64) << 56u64) | ((b1 as u64) << 48u64) | ((b2 as u64) << 40u64) | ((b3
        as u64) << 32u64) | ((b4 as u64) << 24u64) | ((b5 as u64) << 16u64) | ((b6 as u64)
        << 8u64) | (b7 as u64);
    assert((w >> 56u64) & 0xff == b0 && (w >> 48u64) & 0xff == b1 && (w >> 40u64) & 0xff == b2 && (
    w >> 32u64) & 0xff == b3 && (w >> 24u64) & 0xff == b4 && (w >> 16u64) & 0xff == b5 && (w
        >> 8u64) & 0xff == b6 && (w >> 0u64) & 0xff == b7) by (bit_vector)
        requires
            w == ((b0 as u64) << 56u64) | ((b1 as u64) << 48u64) | ((b2 as u64) << 40u64) | ((b3
                as u64) << 32u64) | ((b4 as u64) << 24u64) | ((b5 as u64) << 16u64) | ((b6 as u64)
                << 8u64) | (b7 as u64),
    ;
    assert(u64_bytes(w) =~= seq![b0, b1, b2, b3, b4, b5, b6, b7]);
    w
}

/// Decodes the fixed 32-byte encoding back into an identity.
///
/// Succeeds exactly on inputs of the encoded length; anything else is
/// reported as `Corrupt`, never mistaken for an absent value.
pub fn identity_from_bytes(b: &Vec<u8>) -> (r: Result<Identity, StoreError>)
    ensures
        b@.len() == 32 <==> r is Ok,
        r matches Ok(id) ==> b@ == identity_bytes_spec(id),
        r matches Err(e) ==> e == StoreError::Corrupt,
{
    if b.len() != 32 {
        return Err(StoreError::Corrupt);
    }
    let w0 = u64_from_bytes(b[0], b[1], b[2], b[3], b[4], b[5], b[6], b[7]);
    let w1 = u64_from_bytes(b[8], b[9], b[10], b[11], b[12], b[13], b[14], b[15]);
    let w2 = u64_from_bytes(b[16], b[17], b[18], b[19], b[20], b[21], b[22], b[23]);
    let w3 = u64_from_bytes(b[24], b[25], b[26], b[27], b[28], b[29], b[30], b[31]);
    let id = Identity { w0, w1, w2, w3 };
    assert(b@ =~= identity_bytes_spec(id));
    Ok(id)
}

/// The lowercase hex rendering of a byte string.
pub fn bytes_hex(b: &Vec<u8>) -> (r: Vec<u8>)
    ensures
        r@ == hex_bytes(b@),
{
    let mut out: Vec<u8> = Vec::new();
    let mut i: usize = 0;
    while i < b.len()
        invariant
            0 <= i <= b@.len(),
            out@ == hex_bytes(b@.take(i as int)),
        decreases b@.len() - i,
    {
        let hi: u8 = b[i] / 16;
        let lo: u8 = b[i] % 16;
        out.push(if hi < 10 { hi + 48 } else { hi + 87 });
        out.push(if lo < 10 { lo + 48 } else { lo + 87 });
        proof {
            lemma_hex_bytes_take_step(b@, i as int);
            assert(out@ =~= hex_bytes(b@.take(i + 1)));
        }
        i = i + 1;
    }
    proof {
        assert(b@.take(b@.len() as int) =~= b@);
    }
    out
}

/// The 64-character lowercase hex name of an identity.
pub fn identity_hex(id: &Identity) -> (r: Vec<u8>)
    ensures
        r@ == identity_hex_spec(*id),
{
    let bytes = identity_bytes(id);
    bytes_hex(&bytes)
}

/// Splits an identity's hex name into the sharded layout's two path
/// components: a two-character shard directory and the remainder.
pub fn object_path_parts(id: &Identity) -> (r: (Vec<u8>, Vec<u8>))
    ensures
        r.0@ + r.1@ == identity_hex_spec(*id),
        r.0@.len() == 2,
{
    let mut hex = identity_hex(id);
    proof {
        lemma_hex_bytes_len(identity_bytes_spec(*id));
        assert(hex@.len() == 64);
    }
    let rest = hex.split_off(2);
    proof {
        assert(hex@ + rest@ =~= identity_hex_spec(*id));
    }
    (hex, rest)
}

} // verus!
