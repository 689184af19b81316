//! Byte-level path handling: file-name and extension structure, the
//! extension allow-list, and small byte-vector utilities.
//!
//! Paths are handled as byte vectors throughout the library; the surrounding
//! program converts to and from operating-system path types at its edges.

use vstd::prelude::*;

verus! {

/// Index of the last occurrence of `b` in `s`, or -1 if `b` does not occur.
pub open spec fn last_index_of(s: Seq<u8>, b: u8) -> int
    decreases s.len(),
{
    if s.len() == 0 {
        -1
    } else if s.last() == b {
        s.len() - 1
    } else {
        last_index_of(s.drop_last(), b)
    }
}

pub proof fn lemma_last_index_of(s: Seq<u8>, b: u8)
    ensures
        -1 <= last_index_of(s, b) < s.len(),
        last_index_of(s, b) >= 0 ==> s[last_index_of(s, b)] == b,
        forall|j: int| last_index_of(s, b) < j < s.len() ==> s[j] != b,
    decreases s.len(),
{
    if s.len() > 0 && s.last() != b {
        lemma_last_index_of(s.drop_last(), b);
        assert forall|j: int| last_index_of(s, b) < j < s.len() implies s[j] != b by {
            if j < s.len() - 1 {
                assert(s[j] == s.drop_last()[j]);
            }
        }
    }
}

pub proof fn lemma_last_index_of_at(s: Seq<u8>, b: u8, i: int)
    requires
        0 <= i < s.len(),
        s[i] == b,
        forall|j: int| i < j < s.len() ==> s[j] != b,
    ensures
        last_index_of(s, b) == i,
{
    lemma_last_index_of(s, b);
    let l = last_index_of(s, b);
    if l < i {
        assert(s[i] != b);
    } else if l > i {
        assert(s[l] != b);
    }
}

pub proof fn lemma_last_index_of_absent(s: Seq<u8>, b: u8)
    requires
        forall|j: int| 0 <= j < s.len() ==> s[j] != b,
    ensures
        last_index_of(s, b) == -1,
{
    lemma_last_index_of(s, b);
    let l = last_index_of(s, b);
    if l >= 0 {
        assert(s[l] == b);
    }
}

/// The file-name component of a path: everything after the last slash, or
/// the whole path when it holds no slash.
pub open spec fn file_name_spec(s: Seq<u8>) -> Seq<u8> {
    s.subrange(last_index_of(s, ('/' as u8)) + 1, s.len() as int)
}

/// The extension of a path: the part of the file name after its last dot.
/// A dot that leads the file name does not start an extension, so a bare
/// dot-file has none.
pub open spec fn ext_spec(s: Seq<u8>) -> Option<Seq<u8>> {
    let ls = last_index_of(s, ('/' as u8));
    let ld = last_index_of(s, ('.' as u8));
    if ld > ls + 1 {
        Some(s.subrange(ld + 1, s.len() as int))
    } else {
        None
    }
}

pub open spec fn png_ext() -> Seq<u8> {
    seq![('p' as u8), ('n' as u8), ('g' as u8)]
}

pub open spec fn jpeg_ext() -> Seq<u8> {
    seq![('j' as u8), ('p' as u8), ('e' as u8), ('g' as u8)]
}

pub open spec fn jpg_ext() -> Seq<u8> {
    seq![('j' as u8), ('p' as u8), ('g' as u8)]
}

pub open spec fn gif_ext() -> Seq<u8> {
    seq![('g' as u8), ('i' as u8), ('f' as u8)]
}

/// The allow-list of raster-image extensions, compared case-sensitively.
pub open spec fn allowed_ext(e: Seq<u8>) -> bool {
    e == png_ext() || e == jpeg_ext() || e == jpg_ext() || e == gif_ext()
}

/// A path is a candidate when its extension is on the allow-list.
pub open spec fn is_candidate(s: Seq<u8>) -> bool {
    match ext_spec(s) {
        Some(e) => allowed_ext(e),
        None => false,
    }
}

/// The views of a sequence of byte vectors.
pub open spec fn byte_views(s: Seq<Vec<u8>>) -> Seq<Seq<u8>> {
    s.map_values(|v: Vec<u8>| v@)
}

/// Index of the last occurrence of `b` in `v`, scanning from the end.
pub fn rfind_byte(v: &Vec<u8>, b: u8) -> (r: Option<usize>)
    ensures
        match r {
            Some(i) => i == last_index_of(v@, b) && i < v@.len(),
            None => last_index_of(v@, b) == -1,
        },
{
    let mut k: usize = v.len();
    while k > 0
        invariant
            k <= v@.len(),
            forall|j: int| k <= j < v@.len() ==> v@[j] != b,
        decreases k,
    {
        k = k - 1;
        if v[k] == b {
            proof {
                lemma_last_index_of_at(v@, b, k as int);
            }
            return Some(k);
        }
    }
    proof {
        lemma_last_index_of_absent(v@, b);
    }
    None
}

/// A fresh copy of a byte vector.
pub fn copy_bytes(v: &Vec<u8>) -> (r: Vec<u8>)
    ensures
        r@ == v@,
{
    let mut r: Vec<u8> = Vec::new();
    let mut i: usize = 0;
    while i < v.len()
        invariant
            i <= v@.len(),
            r@ == v@.take(i as int),
        decreases v@.len() - i,
    {
        r.push(v[i]);
        i = i + 1;
        proof {
            assert(r@ =~= v@.take(i as int));
        }
    }
    proof {
        assert(r@ =~= v@);
    }
    r
}

/// Whether two byte vectors hold the same bytes.
pub fn bytes_eq(a: &Vec<u8>, b: &Vec<u8>) -> (r: bool)
    ensures
        r == (a@ == b@),
{
    if a.len() != b.len() {
        return false;
    }
    let mut i: usize = 0;
    while i < a.len()
        invariant
            i <= a@.len(),
            a@.len() == b@.len(),
            forall|j: int| 0 <= j < i ==> a@[j] == b@[j],
        decreases a@.len() - i,
    {
        if a[i] != b[i] {
            return false;
        }
        i = i + 1;
    }
    proof {
        assert(a@ =~= b@);
    }
    true
}

/// The extension of `path`, when it has one.
pub fn extension_of(path: &Vec<u8>) -> (r: Option<Vec<u8>>)
    ensures
        match r {
            Some(e) => ext_spec(path@) == Some(e@),
            None => ext_spec(path@) is None,
        },
{
    let n = path.len();
    proof {
        lemma_last_index_of(path@, ('/' as u8));
        lemma_last_index_of(path@, ('.' as u8));
    }
    let ld = match rfind_byte(path, ('.' as u8)) {
        Some(d) => d,
        None => {
            return None;
        },
    };
    let in_name = match rfind_byte(path, ('/' as u8)) {
        Some(sl) => ld > sl + 1,
        None => ld > 0,
    };
    if !in_name {
        return None;
    }
    let mut e: Vec<u8> = Vec::new();
    let mut j: usize = ld + 1;
    while j < path.len()
        invariant
            ld + 1 <= j <= path@.len(),
            e@ == path@.subrange(ld + 1, j as int),
        decreases path@.len() - j,
    {
        e.push(path[j]);
        j = j + 1;
        proof {
            assert(e@ =~= path@.subrange(ld + 1, j as int));
        }
    }
    Some(e)
}

fn eq3(e: &Vec<u8>, a: u8, b: u8, c: u8) -> (r: bool)
    ensures
        r == (e@ == seq![a, b, c]),
{
    let r = e.len() == 3 && e[0] == a && e[1] == b && e[2] == c;
    proof {
        if r {
            assert(e@ =~= seq![a, b, c]);
        } else if e@ == seq![a, b, c] {
            assert(e@.len() == 3);
        }
    }
    r
}

fn eq4(e: &Vec<u8>, a: u8, b: u8, c: u8, d: u8) -> (r: bool)
    ensures
        r == (e@ == seq![a, b, c, d]),
{
    let r = e.len() == 4 && e[0] == a && e[1] == b && e[2] == c && e[3] == d;
    proof {
        if r {
            assert(e@ =~= seq![a, b, c, d]);
        } else if e@ == seq![a, b, c, d] {
            assert(e@.len() == 4);
        }
    }
    r
}

/// Whether `e` is one of the allow-listed extensions.
pub fn is_allowed_ext(e: &Vec<u8>) -> (r: bool)
    ensures
        r == allowed_ext(e@),
{
    eq3(e, ('p' as u8), ('n' as u8), ('g' as u8)) || eq4(e, ('j' as u8), ('p' as u8), ('e' as u8), ('g' as u8)) || eq3(e, ('j' as u8), ('p' as u8), ('g' as u8)) || eq3(
        e,
        ('g' as u8),
        ('i' as u8),
        ('f' as u8),
    )
}

/// Whether `path` carries an allow-listed extension.
pub fn has_allowed_extension(path: &Vec<u8>) -> (r: bool)
    ensures
        r == is_candidate(path@),
{
    match extension_of(path) {
        None => false,
        Some(e) => is_allowed_ext(&e),
    }
}

/// The file-name component of `path`.
pub fn file_name_of(path: &Vec<u8>) -> (r: Vec<u8>)
    ensures
        r@ == file_name_spec(path@),
{
    let n = path.len();
    proof {
        lemma_last_index_of(path@, ('/' as u8));
    }
    let start = match rfind_byte(path, ('/' as u8)) {
        Some(sl) => sl + 1,
        None => 0,
    };
    let mut r: Vec<u8> = Vec::new();
    let mut j: usize = start;
    while j < path.len()
        invariant
            start <= j <= path@.len(),
            r@ == path@.subrange(start as int, j as int),
        decreases path@.len() - j,
    {
        r.push(path[j]);
        j = j + 1;
        proof {
            assert(r@ =~= path@.subrange(start as int, j as int));
        }
    }
    r
}

} // verus!
