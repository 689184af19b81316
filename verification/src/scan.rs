//! The directory scanner: expands the per-directory pattern through the
//! filesystem-globbing collaborator and keeps exactly the candidates whose
//! extension is on the allow-list, compared case-sensitively.

use vstd::prelude::*;

use crate::paths::{byte_views, copy_bytes, has_allowed_extension, is_candidate};

verus! {

/// Relies on glob::glob: expands the pattern against the filesystem and
/// yields the paths that matched; entries that cannot be read and paths
/// that are not text are dropped, and a malformed pattern is an error.
#[verifier::external_body]
fn glob_paths(pattern: &Vec<u8>) -> (r: Result<Vec<Vec<u8>>, String>) {
    let pattern = match std::str::from_utf8(pattern) {
        Ok(p) => p,
        Err(e) => return Err(e.to_string()),
    };
    let entries = match glob::glob(pattern) {
        Ok(entries) => entries,
        Err(e) => return Err(e.msg.to_string()),
    };
    Ok(
        entries.filter_map(|entry| entry.ok()).filter_map(
            |path| path.to_str().map(|p| p.as_bytes().to_vec()),
        ).collect(),
    )
}

/// The candidate test as a predicate value.
pub open spec fn candidate_pred() -> spec_fn(Seq<u8>) -> bool {
    |p: Seq<u8>| is_candidate(p)
}

proof fn lemma_candidate_filter_push(s: Seq<Seq<u8>>, x: Seq<u8>)
    ensures
        s.push(x).filter(candidate_pred()) == if is_candidate(x) {
            s.filter(candidate_pred()).push(x)
        } else {
            s.filter(candidate_pred())
        },
{
    reveal(Seq::filter);
    assert(s.push(x).drop_last() =~= s);
    assert(s.push(x).last() == x);
}

/// Keeps exactly the paths that carry an allow-listed extension, in order.
pub fn filter_candidates(paths: &Vec<Vec<u8>>) -> (r: Vec<Vec<u8>>)
    ensures
        byte_views(r@) == byte_views(paths@).filter(candidate_pred()),
{
    let ghost vs = byte_views(paths@);
    let mut r: Vec<Vec<u8>> = Vec::new();
    let mut i: usize = 0;
    proof {
        reveal(Seq::filter);
        assert(vs.take(0).filter(candidate_pred()) =~= byte_views(r@));
    }
    while i < paths.len()
        invariant
            i <= paths@.len(),
            vs == byte_views(paths@),
            byte_views(r@) == vs.take(i as int).filter(candidate_pred()),
        decreases paths@.len() - i,
    {
        proof {
            assert(vs.take(i as int + 1) =~= vs.take(i as int).push(vs[i as int]));
            lemma_candidate_filter_push(vs.take(i as int), vs[i as int]);
            assert(vs[i as int] == paths@[i as int]@);
        }
        if has_allowed_extension(&paths[i]) {
            let ghost before = byte_views(r@);
            r.push(copy_bytes(&paths[i]));
            proof {
                assert(byte_views(r@) =~= before.push(paths@[i as int]@));
            }
        }
        i = i + 1;
    }
    proof {
        assert(vs.take(paths@.len() as int) =~= vs);
    }
    r
}

/// The pattern `<directory>/*.*` used to list a directory's entries.
pub open spec fn scan_pattern(dir: Seq<u8>) -> Seq<u8> {
    dir + seq![('/' as u8), ('*' as u8), ('.' as u8), ('*' as u8)]
}

fn build_pattern(dir: &Vec<u8>) -> (r: Vec<u8>)
    ensures
        r@ == scan_pattern(dir@),
{
    let mut r = copy_bytes(dir);
    r.push('/' as u8);
    r.push('*' as u8);
    r.push('.' as u8);
    r.push('*' as u8);
    proof {
        assert(r@ =~= scan_pattern(dir@));
    }
    r
}

/// Scans one directory, non-recursively, for candidate image files: every
/// returned path carries an allow-listed extension. A directory whose
/// pattern cannot be expanded is a directory-level failure.
pub fn scan_directory(dir: &Vec<u8>) -> (r: Result<Vec<Vec<u8>>, String>)
    ensures
        match r {
            Ok(ps) => forall|i: int| 0 <= i < ps@.len() ==> is_candidate((#[trigger] ps@[i])@),
            Err(_) => true,
        },
{
    let pattern = build_pattern(dir);
    match glob_paths(&pattern) {
        Ok(entries) => {
            let kept = filter_candidates(&entries);
            proof {
                assert forall|i: int| 0 <= i < kept@.len() implies is_candidate(
                    (#[trigger] kept@[i])@,
                ) by {
                    byte_views(entries@).lemma_filter_pred(candidate_pred(), i);
                    assert(byte_views(kept@)[i] == kept@[i]@);
                }
            }
            Ok(kept)
        },
        Err(e) => Err(e),
    }
}

} // verus!
