//! Paths as byte strings, and the joining of one path onto another.

use crate::bytes::byte_strings;
use vstd::prelude::*;

verus! {

/// The byte `/`, which separates the components of a path.
pub const SEPARATOR: u8 = 47;

/// `rel` joined onto `base`. An absolute `rel` stands for itself. Otherwise
/// `rel` follows `base`, with one separator between the two unless `base` is
/// empty or already ends in one.
pub open spec fn joined(base: Seq<u8>, rel: Seq<u8>) -> Seq<u8> {
    if rel.len() > 0 && rel[0] == SEPARATOR {
        rel
    } else if base.len() > 0 && base.last() != SEPARATOR {
        base.push(SEPARATOR) + rel
    } else {
        base + rel
    }
}

/// The directories that a scan visits: the shared path joined onto each base
/// directory, in the order of the base directories.
pub open spec fn scan_dirs_of(base_dirs: Seq<Seq<u8>>, shared_path: Seq<u8>) -> Seq<Seq<u8>> {
    Seq::new(base_dirs.len(), |i: int| joined(base_dirs[i], shared_path))
}

/// Joins `rel` onto `base`.
pub fn join(base: &[u8], rel: &[u8]) -> (out: Vec<u8>)
    ensures
        out@ == joined(base@, rel@),
{
    let mut out: Vec<u8> = Vec::new();
    let absolute = rel.len() > 0 && rel[0] == SEPARATOR;
    if !absolute {
        let mut i: usize = 0;
        while i < base.len()
            invariant
                i <= base.len(),
                out@ == base@.take(i as int),
            decreases base.len() - i,
        {
            out.push(base[i]);
            i += 1;
        }
        if base.len() > 0 && base[base.len() - 1] != SEPARATOR {
            out.push(SEPARATOR);
        }
    }
    let ghost head = out@;
    let mut j: usize = 0;
    while j < rel.len()
        invariant
            j <= rel.len(),
            out@ == head + rel@.take(j as int),
        decreases rel.len() - j,
    {
        out.push(rel[j]);
        j += 1;
    }
    out
}

/// The directories to scan for the given base directories: `shared_path`
/// joined onto each of them, in order. Nothing is read from disk.
pub fn scan_dirs(base_dirs: &[Vec<u8>], shared_path: &[u8]) -> (out: Vec<Vec<u8>>)
    ensures
        byte_strings(out@) == scan_dirs_of(
            byte_strings(base_dirs@),
            shared_path@,
        ),
{
    let mut out: Vec<Vec<u8>> = Vec::new();
    let mut i: usize = 0;
    while i < base_dirs.len()
        invariant
            i <= base_dirs.len(),
            out.len() == i,
            forall|k: int| 0 <= k < i ==> (#[trigger] out@[k])@ == joined(base_dirs@[k]@, shared_path@),
        decreases base_dirs.len() - i,
    {
        out.push(join(base_dirs[i].as_slice(), shared_path));
        i += 1;
    }
    assert(byte_strings(out@) =~= scan_dirs_of(
        byte_strings(base_dirs@),
        shared_path@,
    ));
    out
}

} // verus!
