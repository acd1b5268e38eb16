//! Content and perceptual hash arithmetic.
use vstd::prelude::*;

verus! {

/// What `blake3::hash` returns for `bytes`: the 32-byte BLAKE3 digest.
pub uninterp spec fn blake3_digest(bytes: Seq<u8>) -> Seq<u8>;

/// Calls `blake3::hash` and hands back the digest's bytes.
#[verifier::external_body]
fn blake3_hash(bytes: &[u8]) -> (r: [u8; 32])
    ensures
        r@ == blake3_digest(bytes@),
{
    *blake3::hash(bytes).as_bytes()
}

/// The BLAKE3 digest of `bytes`.
pub fn blake3(bytes: &[u8]) -> (r: [u8; 32])
    ensures
        r@ == blake3_digest(bytes@),
        r@.len() == 32,
{
    blake3_hash(bytes)
}

/// `x` as four bytes, least significant first.
pub open spec fn le_bytes(x: u32) -> Seq<u8> {
    seq![
        (x % 256) as u8,
        ((x / 256) % 256) as u8,
        ((x / 65536) % 256) as u8,
        ((x / 16777216) % 256) as u8,
    ]
}

fn push_le(out: &mut Vec<u8>, x: u32)
    ensures
        final(out)@ == old(out)@ + le_bytes(x),
{
    out.push((x % 256) as u8);
    out.push(((x / 256) % 256) as u8);
    out.push(((x / 65536) % 256) as u8);
    out.push(((x / 16777216) % 256) as u8);
    assert(out@ =~= old(out)@ + le_bytes(x));
}

fn push_all(out: &mut Vec<u8>, bytes: &[u8])
    ensures
        final(out)@ == old(out)@ + bytes@,
{
    let mut i: usize = 0;
    while i < bytes.len()
        invariant
            i <= bytes@.len(),
            out@ == old(out)@ + bytes@.subrange(0, i as int),
        decreases bytes@.len() - i,
    {
        out.push(bytes[i]);
        i = i + 1;
        assert(out@ =~= old(out)@ + bytes@.subrange(0, i as int));
    }
    assert(bytes@.subrange(0, i as int) =~= bytes@);
}

/// Hash of a frame's decoded, orientation-normalised grey pixels: its width
/// and height, then its `luma` bytes row by row. Two files that differ only
/// in metadata — a stripped EXIF, a rewritten container — hash the same
/// here while their bytes hash differently.
pub fn pixel_hash(width: u32, height: u32, luma: &[u8]) -> (r: [u8; 32])
    ensures
        r@ == blake3_digest(le_bytes(width) + le_bytes(height) + luma@),
{
    let mut buf: Vec<u8> = Vec::new();
    push_le(&mut buf, width);
    push_le(&mut buf, height);
    push_all(&mut buf, luma);
    blake3_hash(buf.as_slice())
}

/// The ASCII bytes of `rgb8`, which open what [`content_hash`] hashes.
pub open spec fn rgb8_tag() -> Seq<u8> {
    seq![0x72u8, 0x67u8, 0x62u8, 0x38u8]
}

/// Hash of the whole frame as it is shown: colour, native resolution,
/// aspect, its `rgb` bytes three to a pixel, row by row. Nothing is
/// normalised away, so two files match only when they decode to the same
/// picture, pixel for pixel.
pub fn content_hash(width: u32, height: u32, rgb: &[u8]) -> (r: [u8; 32])
    ensures
        r@ == blake3_digest(rgb8_tag() + le_bytes(width) + le_bytes(height) + rgb@),
{
    let mut buf: Vec<u8> = Vec::new();
    buf.push(0x72u8);
    buf.push(0x67u8);
    buf.push(0x62u8);
    buf.push(0x38u8);
    assert(buf@ =~= rgb8_tag());
    push_le(&mut buf, width);
    push_le(&mut buf, height);
    push_all(&mut buf, rgb);
    blake3_hash(buf.as_slice())
}

/// The number of one bits in `x`.
pub open spec fn popcount(x: int) -> nat
    decreases x,
{
    if x <= 0 {
        0
    } else {
        (x % 2) as nat + popcount(x / 2)
    }
}

proof fn lemma_popcount_bound(x: int, k: nat)
    requires
        0 <= x,
        x < crate::unionfind::pow2n(k),
    ensures
        popcount(x) <= k,
    decreases k,
{
    if k > 0 && x > 0 {
        lemma_popcount_bound(x / 2, (k - 1) as nat);
    }
}

/// How many bits two 64-bit hashes differ in.
pub open spec fn hamming_spec(a: u64, b: u64) -> nat {
    popcount((a ^ b) as int)
}

pub fn hamming(a: u64, b: u64) -> (r: u32)
    ensures
        r == hamming_spec(a, b),
        r <= 64,
{
    let x = a ^ b;
    proof {
        assert(crate::unionfind::pow2n(64) == 0x1_0000_0000_0000_0000nat) by {
            reveal_with_fuel(crate::unionfind::pow2n, 65);
        }
        lemma_popcount_bound(x as int, 64);
    }
    let mut v = x;
    let mut count: u32 = 0;
    while v != 0
        invariant
            count + popcount(v as int) == popcount(x as int),
            popcount(x as int) <= 64,
        decreases v,
    {
        count = count + (v % 2) as u32;
        v = v / 2;
    }
    count
}

/// Hashes differ from themselves in no bit.
pub proof fn law_hamming_to_itself(a: u64)
    ensures
        hamming_spec(a, a) == 0,
{
    assert(a ^ a == 0u64) by (bit_vector);
}

/// The distance between two hashes does not depend on their order.
pub proof fn law_hamming_symmetric(a: u64, b: u64)
    ensures
        hamming_spec(a, b) == hamming_spec(b, a),
{
    assert(a ^ b == b ^ a) by (bit_vector);
}

proof fn lemma_popcount_step(v: u64)
    ensures
        popcount(v as int) == (v % 2) as nat + popcount((v / 2) as int),
{
}

proof fn lemma_popcount_xor(x: u64, y: u64)
    ensures
        popcount((x ^ y) as int) <= popcount(x as int) + popcount(y as int),
    decreases x + y,
{
    if x == 0 && y == 0 {
        assert(x ^ y == 0u64) by (bit_vector)
            requires
                x == 0 && y == 0,
        ;
    } else {
        let z = x ^ y;
        assert((x ^ y) / 2 == (x / 2) ^ (y / 2)) by (bit_vector);
        assert((x ^ y) % 2 <= x % 2 + y % 2) by (bit_vector);
        lemma_popcount_xor(x / 2, y / 2);
        lemma_popcount_step(z);
        lemma_popcount_step(x);
        lemma_popcount_step(y);
    }
}

/// The distance between hashes obeys the triangle inequality: going
/// through a third hash is never shorter.
pub proof fn law_hamming_triangle(a: u64, b: u64, c: u64)
    ensures
        hamming_spec(a, c) <= hamming_spec(a, b) + hamming_spec(b, c),
{
    assert(a ^ c == (a ^ b) ^ (b ^ c)) by (bit_vector);
    lemma_popcount_xor(a ^ b, b ^ c);
}

/// The closest any region of one image comes to any region of the other:
/// the least of 64 and every pairwise distance.
pub open spec fn crop_min(a: Seq<u64>, b: Seq<u64>, r: int) -> bool {
    &&& r <= 64
    &&& forall|i: int, j: int|
        0 <= i < a.len() && 0 <= j < b.len() ==> r <= #[trigger] hamming_spec(a[i], b[j])
    &&& (r == 64 || exists|i: int, j: int|
        0 <= i < a.len() && 0 <= j < b.len() && r == #[trigger] hamming_spec(a[i], b[j]))
}

/// Whether any region of one image matches any region of the other.
/// Returns the closest distance found.
pub fn crop_distance(a: &[u64; 5], b: &[u64; 5]) -> (r: u32)
    ensures
        crop_min(a@, b@, r as int),
{
    let mut best: u32 = 64;
    let mut i: usize = 0;
    while i < 5
        invariant
            i <= 5,
            a@.len() == 5,
            b@.len() == 5,
            best <= 64,
            forall|p: int, q: int| 0 <= p < i && 0 <= q < 5 ==> best <= #[trigger] hamming_spec(a@[p], b@[q]),
            best == 64 || exists|p: int, q: int|
                0 <= p < 5 && 0 <= q < 5 && best == #[trigger] hamming_spec(a@[p], b@[q]),
        decreases 5 - i,
    {
        let mut j: usize = 0;
        while j < 5
            invariant
                i < 5,
                j <= 5,
                a@.len() == 5,
                b@.len() == 5,
                best <= 64,
                forall|p: int, q: int|
                    (0 <= p < i && 0 <= q < 5) || (p == i && 0 <= q < j) ==> best
                        <= #[trigger] hamming_spec(a@[p], b@[q]),
                best == 64 || exists|p: int, q: int|
                    0 <= p < 5 && 0 <= q < 5 && best == #[trigger] hamming_spec(a@[p], b@[q]),
            decreases 5 - j,
        {
            let d = hamming(a[i], b[j]);
            if d < best {
                best = d;
            }
            j = j + 1;
        }
        i = i + 1;
    }
    best
}

} // verus!
