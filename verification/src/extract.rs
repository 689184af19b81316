//! The hash extractor: decodes each candidate through the image-decoding
//! collaborator, hashes it with the perceptual-hash collaborator (gradient
//! algorithm, 64-bit width, triangle resize filter), and folds the hash
//! bytes into the numeric fingerprint. A file that fails to decode is
//! skipped with a warning and never aborts the directory's run.

use vstd::prelude::*;

use crate::fingerprint::{fold_bytes, fold_fingerprint, lemma_fold_bytes_injective};
use crate::paths::copy_bytes;
use crate::records::{HashedRecord, ImageRecord};

verus! {

#[verifier::external_type_specification]
#[verifier::external_body]
pub struct ExDynamicImage(image::DynamicImage);

/// The perceptual hash of a decoded image under the configured algorithm:
/// gradient comparison at 64 bits with the triangle resize filter. A
/// function of the pixel data alone.
pub uninterp spec fn gradient_hash_of(img: image::DynamicImage) -> Seq<u8>;

/// The fingerprint of a decoded image: its perceptual hash folded into one
/// 64-bit value, byte 0 least significant.
pub open spec fn fingerprint_of(img: image::DynamicImage) -> u64 {
    fold_bytes(gradient_hash_of(img))
}

/// Relies on image::open: reads and decodes the file at the path, or
/// reports the failure; the outcome depends on what is on disk.
#[verifier::external_body]
fn decode_image(path: &Vec<u8>) -> (r: Result<image::DynamicImage, String>) {
    let p = match std::str::from_utf8(path) {
        Ok(p) => p,
        Err(e) => return Err(e.to_string()),
    };
    image::open(p).map_err(|e| e.to_string())
}

/// Relies on img_hash's Hasher::hash_image under the gradient algorithm,
/// an eight-byte hash container and the triangle resize filter: the hash
/// is a function of the image alone and always holds eight bytes.
#[verifier::external_body]
fn gradient_hash(img: &image::DynamicImage) -> (r: Vec<u8>)
    ensures
        r@ == gradient_hash_of(*img),
        r@.len() == 8,
{
    let hasher = img_hash::HasherConfig::with_bytes_type::<[u8; 8]>().hash_alg(
        img_hash::HashAlg::Gradient,
    ).resize_filter(image::imageops::FilterType::Triangle).to_hasher();
    hasher.hash_image(img).as_bytes().to_vec()
}

/// The fingerprint of a decoded image.
pub fn fingerprint_image(img: &image::DynamicImage) -> (r: u64)
    ensures
        r == fingerprint_of(*img),
{
    let bytes = gradient_hash(img);
    fold_fingerprint(&bytes)
}

/// Fingerprint faithfulness law: two decoded images receive the same
/// fingerprint exactly when the hashing collaborator gave them the same
/// hash, so the numeric encoding never changes which images are judged
/// equivalent.
pub proof fn lemma_fingerprint_faithful(a: image::DynamicImage, b: image::DynamicImage)
    requires
        gradient_hash_of(a).len() == 8,
        gradient_hash_of(b).len() == 8,
    ensures
        (fingerprint_of(a) == fingerprint_of(b)) <==> (gradient_hash_of(a) == gradient_hash_of(b)),
{
    if fingerprint_of(a) == fingerprint_of(b) {
        lemma_fold_bytes_injective(gradient_hash_of(a), gradient_hash_of(b));
    }
}

/// A non-fatal per-file failure: the path and the underlying cause.
pub struct Warning {
    pub path: Vec<u8>,
    pub cause: String,
}

/// The mathematical warning.
pub struct WarningView {
    pub path: Seq<u8>,
    pub cause: Seq<char>,
}

impl View for Warning {
    type V = WarningView;

    open spec fn view(&self) -> WarningView {
        WarningView { path: self.path@, cause: self.cause@ }
    }
}

/// Attempts to decode and hash one candidate file of the given size. On
/// success the record carries exactly this path and size and the
/// fingerprint of the decoded image; on failure the warning names this
/// path.
pub fn hash_candidate(path: &Vec<u8>, file_size: u64) -> (r: Result<HashedRecord, Warning>)
    ensures
        match r {
            Ok(h) => h.record.path@ == path@ && h.record.file_size == file_size && (exists|
                img: image::DynamicImage,
            |
                h.fingerprint == fingerprint_of(img)),
            Err(w) => w.path@ == path@,
        },
{
    match decode_image(path) {
        Ok(img) => {
            let fp = fingerprint_image(&img);
            proof {
                assert(fp == fingerprint_of(img));
            }
            Ok(
                HashedRecord {
                    fingerprint: fp,
                    record: ImageRecord { path: copy_bytes(path), file_size },
                },
            )
        },
        Err(cause) => Err(Warning { path: copy_bytes(path), cause }),
    }
}

/// Attempts to decode and hash every candidate, pairing each with its
/// size; the outcome list is aligned with the candidates.
pub fn hash_all(paths: &Vec<Vec<u8>>, sizes: &Vec<u64>) -> (r: Vec<Result<HashedRecord, Warning>>)
    requires
        paths@.len() == sizes@.len(),
    ensures
        r@.len() == paths@.len(),
        forall|i: int|
            0 <= i < r@.len() ==> match #[trigger] r@[i] {
                Ok(h) => h.record.path@ == paths@[i]@ && h.record.file_size == sizes@[i],
                Err(w) => w.path@ == paths@[i]@,
            },
{
    let mut r: Vec<Result<HashedRecord, Warning>> = Vec::new();
    let mut i: usize = 0;
    while i < paths.len()
        invariant
            i <= paths@.len(),
            paths@.len() == sizes@.len(),
            r@.len() == i,
            forall|k: int|
                0 <= k < i ==> match #[trigger] r@[k] {
                    Ok(h) => h.record.path@ == paths@[k]@ && h.record.file_size == sizes@[k],
                    Err(w) => w.path@ == paths@[k]@,
                },
        decreases paths@.len() - i,
    {
        let outcome = hash_candidate(&paths[i], sizes[i]);
        r.push(outcome);
        i = i + 1;
    }
    r
}

/// The records of the outcomes that succeeded, in order.
pub open spec fn successful_of(s: Seq<Result<HashedRecord, Warning>>) -> Seq<HashedRecord>
    decreases s.len(),
{
    if s.len() == 0 {
        seq![]
    } else {
        match s.last() {
            Ok(h) => successful_of(s.drop_last()).push(h),
            Err(_) => successful_of(s.drop_last()),
        }
    }
}

/// The warnings of the outcomes that failed, in order.
pub open spec fn failed_of(s: Seq<Result<HashedRecord, Warning>>) -> Seq<Warning>
    decreases s.len(),
{
    if s.len() == 0 {
        seq![]
    } else {
        match s.last() {
            Ok(_) => failed_of(s.drop_last()),
            Err(w) => failed_of(s.drop_last()).push(w),
        }
    }
}

/// Splits the aligned outcomes into the successfully hashed records and
/// the per-file warnings, each in order.
pub fn split_outcomes(outcomes: Vec<Result<HashedRecord, Warning>>) -> (rw: (
    Vec<HashedRecord>,
    Vec<Warning>,
))
    ensures
        rw.0@ == successful_of(outcomes@),
        rw.1@ == failed_of(outcomes@),
{
    let ghost all = outcomes@;
    let mut rest = outcomes;
    let mut recs: Vec<HashedRecord> = Vec::new();
    let mut warns: Vec<Warning> = Vec::new();
    let ghost mut i: int = 0;
    while rest.len() > 0
        invariant
            0 <= i <= all.len(),
            rest@ == all.skip(i),
            recs@ == successful_of(all.take(i)),
            warns@ == failed_of(all.take(i)),
        decreases rest@.len(),
    {
        let x = rest.remove(0);
        proof {
            assert(all.skip(i)[0] == all[i]);
            assert(all.skip(i).remove(0) =~= all.skip(i + 1));
            assert(all.take(i + 1).drop_last() =~= all.take(i));
            assert(all.take(i + 1).last() == all[i]);
        }
        match x {
            Ok(h) => recs.push(h),
            Err(w) => warns.push(w),
        }
        proof {
            i = i + 1;
        }
    }
    proof {
        assert(all.take(all.len() as int) =~= all);
        assert(all.skip(i) =~= Seq::<Result<HashedRecord, Warning>>::empty());
    }
    (recs, warns)
}

} // verus!
