//! Folding a fixed-width perceptual-hash byte sequence into a single
//! unsigned fingerprint, together with the proof that the encoding loses
//! nothing: two hash sequences of the same width fold to the same
//! fingerprint exactly when they are the same sequence.

use vstd::prelude::*;

verus! {

/// The fingerprint encoding of a hash byte sequence: byte `i` lands at bit
/// offset `8 * i`, byte 0 least significant.
pub open spec fn fold_bytes(s: Seq<u8>) -> u64
    decreases s.len(),
{
    if s.len() == 0 {
        0u64
    } else {
        fold_bytes(s.drop_last()) | ((s.last() as u64) << ((8 * (s.len() - 1)) as u64))
    }
}

proof fn lemma_or_preserves_low_byte(x: u64, b: u64, k: u64, i: u64)
    by (bit_vector)
    requires
        i < k,
        k <= 7,
        b <= 255,
    ensures
        ((x | (b << (8 * k))) >> (8 * i)) & 0xff == (x >> (8 * i)) & 0xff,
{
}

proof fn lemma_or_bound(x: u64, b: u64, m: u64)
    by (bit_vector)
    requires
        m <= 6,
        x < (1u64 << (8 * m)),
        b <= 255,
    ensures
        (x | (b << (8 * m))) < (1u64 << (8 * (m + 1))),
{
}

proof fn lemma_or_top_byte(x: u64, b: u64, k: u64)
    by (bit_vector)
    requires
        k <= 7,
        x < (1u64 << (8 * k)),
        b <= 255,
    ensures
        ((x | (b << (8 * k))) >> (8 * k)) & 0xff == b,
{
}

/// A folded sequence of at most seven bytes stays below the next byte
/// boundary.
proof fn lemma_fold_bound(s: Seq<u8>)
    requires
        s.len() <= 7,
    ensures
        fold_bytes(s) < (1u64 << ((8 * s.len()) as u64)),
    decreases s.len(),
{
    if s.len() == 0 {
        assert(0u64 < (1u64 << 0u64)) by (bit_vector);
    } else {
        let m = (s.len() - 1) as u64;
        lemma_fold_bound(s.drop_last());
        assert((8 * (s.len() - 1)) as u64 == 8 * m);
        assert((8 * s.len()) as u64 == 8 * (m + 1));
        lemma_or_bound(fold_bytes(s.drop_last()), s.last() as u64, m);
    }
}

/// Byte `i` of the sequence can be read back out of the fold at bit offset
/// `8 * i`.
pub proof fn lemma_fold_byte_at(s: Seq<u8>, i: int)
    requires
        s.len() <= 8,
        0 <= i < s.len(),
    ensures
        ((fold_bytes(s) >> ((8 * i) as u64)) & 0xff) == s[i] as u64,
    decreases s.len(),
{
    let n = s.len() as int;
    let x = fold_bytes(s.drop_last());
    let b = s.last() as u64;
    let k = (n - 1) as u64;
    assert((8 * (s.len() - 1)) as u64 == 8 * k);
    if i == n - 1 {
        lemma_fold_bound(s.drop_last());
        lemma_or_top_byte(x, b, k);
    } else {
        lemma_fold_byte_at(s.drop_last(), i);
        assert((8 * i) as u64 == 8 * (i as u64));
        lemma_or_preserves_low_byte(x, b, k, i as u64);
        assert(s.drop_last()[i] == s[i]);
    }
}

/// The encoding is collision-preserving: hash sequences of one width fold
/// to equal fingerprints exactly when the sequences are equal, so folding
/// never changes which images are judged equivalent.
pub proof fn lemma_fold_bytes_injective(a: Seq<u8>, b: Seq<u8>)
    requires
        a.len() == b.len(),
        a.len() <= 8,
        fold_bytes(a) == fold_bytes(b),
    ensures
        a == b,
{
    assert forall|i: int| 0 <= i < a.len() implies a[i] == b[i] by {
        lemma_fold_byte_at(a, i);
        lemma_fold_byte_at(b, i);
    }
    assert(a =~= b);
}

/// Folds a hash byte sequence into its numeric fingerprint.
pub fn fold_fingerprint(bytes: &Vec<u8>) -> (r: u64)
    requires
        bytes@.len() <= 8,
    ensures
        r == fold_bytes(bytes@),
{
    let mut acc: u64 = 0;
    let mut i: usize = 0;
    while i < bytes.len()
        invariant
            i <= bytes@.len() <= 8,
            acc == fold_bytes(bytes@.take(i as int)),
        decreases bytes@.len() - i,
    {
        let shift: u64 = 8 * (i as u64);
        acc = acc | ((bytes[i] as u64) << shift);
        i = i + 1;
        proof {
            assert(bytes@.take(i as int).drop_last() =~= bytes@.take(i as int - 1));
            assert(bytes@.take(i as int).last() == bytes@[i as int - 1]);
        }
    }
    proof {
        assert(bytes@.take(bytes@.len() as int) =~= bytes@);
    }
    acc
}

} // verus!
