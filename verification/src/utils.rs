use vstd::prelude::*;

verus! {

/// The four bytes of `n`, most significant first.
pub open spec fn be32(n: u32) -> Seq<u8> {
    seq![
        ((n >> 24u32) & 255u32) as u8,
        ((n >> 16u32) & 255u32) as u8,
        ((n >> 8u32) & 255u32) as u8,
        (n & 255u32) as u8,
    ]
}

/// The number that four bytes spell, most significant first.
pub open spec fn be32_value(b0: u8, b1: u8, b2: u8, b3: u8) -> u32 {
    ((b0 as u32) << 24u32) | ((b1 as u32) << 16u32) | ((b2 as u32) << 8u32) | (b3 as u32)
}

/// The number that the first four bytes of `b` spell.
pub open spec fn be32_prefix_value(b: Seq<u8>) -> u32
    recommends
        b.len() >= 4,
{
    be32_value(b[0], b[1], b[2], b[3])
}

/// Encodes a length as the four header bytes used by the wire and file formats.
pub fn u32_to_bytes(num: u32) -> (r: [u8; 4])
    ensures
        r@ == be32(num),
{
    let r = [
        ((num >> 24) & 255) as u8,
        ((num >> 16) & 255) as u8,
        ((num >> 8) & 255) as u8,
        (num & 255) as u8,
    ];
    assert(r@ =~= be32(num));
    r
}

/// Reads the number spelled by the first four bytes of `bvec`, most significant first.
pub fn bytes_to_usize(bvec: Vec<u8>) -> (r: usize)
    requires
        bvec@.len() >= 4,
    ensures
        r as int == be32_prefix_value(bvec@) as int,
{
    let b0 = bvec[0];
    let b1 = bvec[1];
    let b2 = bvec[2];
    let b3 = bvec[3];
    proof {
        lemma_be32_value_sum(b0, b1, b2, b3);
    }
    ((b0 as usize) << 24) + ((b1 as usize) << 16) + ((b2 as usize) << 8) + b3 as usize
}

/// The shifted bytes occupy disjoint bits, so or-ing them is adding them.
pub proof fn lemma_be32_value_sum(b0: u8, b1: u8, b2: u8, b3: u8)
    ensures
        be32_value(b0, b1, b2, b3) as int == b0 * 16777216 + b1 * 65536 + b2 * 256 + b3,
        (b0 as usize) << 24usize == b0 * 16777216,
        (b1 as usize) << 16usize == b1 * 65536,
        (b2 as usize) << 8usize == b2 * 256,
{
    assert(((b0 as u32) << 24u32) | ((b1 as u32) << 16u32) | ((b2 as u32) << 8u32) | (b3 as u32)
        == b0 * 16777216 + b1 * 65536 + b2 * 256 + b3) by (bit_vector);
    assert((b0 as usize) << 24usize == b0 * 16777216) by (bit_vector);
    assert((b1 as usize) << 16usize == b1 * 65536) by (bit_vector);
    assert((b2 as usize) << 8usize == b2 * 256) by (bit_vector);
}

/// Reading back the four bytes that encode `n` gives `n`.
pub proof fn lemma_be32_roundtrip(n: u32)
    ensures
        be32(n).len() == 4,
        be32_prefix_value(be32(n)) == n,
{
    let b = be32(n);
    assert(be32_value(b[0], b[1], b[2], b[3]) == n) by {
        assert(((((n >> 24u32) & 255u32) as u8) as u32) << 24u32 | ((((n >> 16u32) & 255u32) as u8) as u32) << 16u32
            | ((((n >> 8u32) & 255u32) as u8) as u32) << 8u32 | (((n & 255u32) as u8) as u32) == n) by (bit_vector);
    }
}

/// Encoding the number that four bytes spell gives back those bytes.
pub proof fn lemma_be32_bytes_roundtrip(b: Seq<u8>)
    requires
        b.len() >= 4,
    ensures
        be32(be32_prefix_value(b)) == b.take(4),
{
    let (b0, b1, b2, b3) = (b[0], b[1], b[2], b[3]);
    let v = be32_value(b0, b1, b2, b3);
    assert(((v >> 24u32) & 255u32) as u8 == b0 && ((v >> 16u32) & 255u32) as u8 == b1
        && ((v >> 8u32) & 255u32) as u8 == b2 && (v & 255u32) as u8 == b3) by (bit_vector)
        requires
            v == ((b0 as u32) << 24u32) | ((b1 as u32) << 16u32) | ((b2 as u32) << 8u32) | (b3 as u32),
    ;
    assert(be32(v) =~= b.take(4));
}

} // verus!

verus! {

/// Appends the bytes of `b` to `out`.
pub fn append_bytes(out: &mut Vec<u8>, b: &[u8])
    ensures
        final(out)@ == old(out)@ + b@,
{
    let n = b.len();
    let mut i: usize = 0;
    while i < n
        invariant
            n == b@.len(),
            0 <= i <= n,
            out@ == old(out)@ + b@.take(i as int),
        decreases n - i,
    {
        out.push(b[i]);
        i = i + 1;
        assert(out@ =~= old(out)@ + b@.take(i as int));
    }
    assert(b@.take(n as int) =~= b@);
}

/// Whether two byte runs are equal.
pub fn bytes_eq(a: &[u8], b: &[u8]) -> (r: bool)
    ensures
        r == (a@ == b@),
{
    if a.len() != b.len() {
        return false;
    }
    let n = a.len();
    let mut i: usize = 0;
    while i < n
        invariant
            n == a@.len(),
            n == b@.len(),
            0 <= i <= n,
            forall|j: int| 0 <= j < i ==> a@[j] == b@[j],
        decreases n - i,
    {
        if a[i] != b[i] {
            return false;
        }
        i = i + 1;
    }
    assert(a@ =~= b@);
    true
}

/// Whether two strings hold the same characters.
pub fn str_eq(a: &str, b: &str) -> (r: bool)
    ensures
        r == (a@ == b@),
{
    let r = bytes_eq(a.as_bytes(), b.as_bytes());
    proof {
        vstd::utf8::encode_utf8_decode_utf8(a@);
        vstd::utf8::encode_utf8_decode_utf8(b@);
    }
    r
}

/// The bytes of `b` from `lo` up to `hi`.
pub fn sub_bytes(b: &[u8], lo: usize, hi: usize) -> (r: &[u8])
    requires
        lo <= hi <= b@.len(),
    ensures
        r@ == b@.subrange(lo as int, hi as int),
{
    &b[lo..hi]
}

} // verus!
