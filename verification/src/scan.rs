//! The scan: the directories in order, each listing folded into the
//! resolution map.

use crate::bytes::{byte_strings, bytes_copy, bytes_eq};
use crate::model::{
    effect_of, lemma_overlay_empty, lemma_overlay_step, lemma_resolution_empty,
    lemma_resolution_step, null_device, overlay, resolution, resolve, with_entry, Effect,
};
use crate::name::is_visible;
use crate::path::{join, scan_dirs_of};
use crate::resolution::ResolutionMap;
use crate::tree::{DirEntry, EntryKind, Tree};
use vstd::prelude::*;

verus! {

/// The base directories that systemd and other projects search by
/// convention, from the lowest priority to the highest.
pub const SYSTEMD_CONVENTIONAL_BASES: [&'static str; 4] = ["/usr/lib", "/usr/local/lib", "/etc", "/run"];

/// Whether `target` is, byte for byte, the path of the null device.
pub fn is_null_device(target: &[u8]) -> (out: bool)
    ensures
        out == (target@ == null_device()),
{
    let null: Vec<u8> = vec![47u8, 100u8, 101u8, 118u8, 47u8, 110u8, 117u8, 108u8, 108u8];
    bytes_eq(target, null.as_slice())
}

/// What `entry` does to the fragment of its name, under the given filters.
pub fn classify(entry: &DirEntry, allowed_extensions: &[Vec<u8>], ignore_dotfiles: bool) -> (out:
    Effect)
    ensures
        out == effect_of(*entry, byte_strings(allowed_extensions@), ignore_dotfiles),
{
    if !is_visible(entry.name.as_slice(), allowed_extensions, ignore_dotfiles) {
        return Effect::Nothing;
    }
    match &entry.kind {
        EntryKind::File => Effect::Provide,
        EntryKind::Link(target) => {
            if is_null_device(target.as_slice()) {
                Effect::Mask
            } else {
                Effect::Nothing
            }
        },
        _ => Effect::Nothing,
    }
}

/// Takes one entry of the directory `dir` into account.
pub fn scan_entry(
    found: &mut ResolutionMap,
    dir: &[u8],
    entry: &DirEntry,
    allowed_extensions: &[Vec<u8>],
    ignore_dotfiles: bool,
)
    ensures
        final(found).wf(),
        final(found)@ == with_entry(
            old(found)@,
            dir@,
            *entry,
            byte_strings(allowed_extensions@),
            ignore_dotfiles,
        ),
{
    match classify(entry, allowed_extensions, ignore_dotfiles) {
        Effect::Nothing => {
            proof {
                use_type_invariant(&*found);
            }
        },
        Effect::Provide => {
            let name = bytes_copy(entry.name.as_slice());
            let location = join(dir, entry.name.as_slice());
            found.insert(name, location);
        },
        Effect::Mask => {
            found.remove(entry.name.as_slice());
        },
    }
}

/// Takes the listing of the directory `dir` into account, entry by entry.
pub fn scan_dir(
    found: &mut ResolutionMap,
    dir: &[u8],
    entries: &[DirEntry],
    allowed_extensions: &[Vec<u8>],
    ignore_dotfiles: bool,
)
    ensures
        final(found).wf(),
        final(found)@ == overlay(
            old(found)@,
            dir@,
            entries@,
            byte_strings(allowed_extensions@),
            ignore_dotfiles,
        ),
{
    let ghost allowed = byte_strings(allowed_extensions@);
    let ghost before = found@;
    proof {
        use_type_invariant(&*found);
        lemma_overlay_empty(before, dir@, allowed, ignore_dotfiles);
    }
    let mut i: usize = 0;
    while i < entries.len()
        invariant
            i <= entries.len(),
            allowed == byte_strings(allowed_extensions@),
            found.wf(),
            found@ == overlay(before, dir@, entries@.take(i as int), allowed, ignore_dotfiles),
        decreases entries.len() - i,
    {
        scan_entry(found, dir, &entries[i], allowed_extensions, ignore_dotfiles);
        proof {
            let upto = entries@.take(i + 1);
            assert(upto.drop_last() =~= entries@.take(i as int));
            lemma_overlay_step(before, dir@, upto, allowed, ignore_dotfiles);
        }
        i += 1;
    }
    assert(entries@.take(i as int) =~= entries@);
}

/// Scans the base directories in order and resolves the fragments under
/// `shared_path`.
///
/// `shared_path` is joined onto each base directory to name the directory
/// that is scanned. A directory that the tree does not hold is passed over.
/// Directories that come later override those that come before: of the
/// entries that carry one name, the last one with an effect decides. The
/// result holds the names in ascending byte-lexicographic order.
pub fn scan(
    tree: &Tree,
    base_dirs: &[Vec<u8>],
    shared_path: &[u8],
    allowed_extensions: &[Vec<u8>],
    ignore_dotfiles: bool,
) -> (found: ResolutionMap)
    ensures
        found.wf(),
        found@ == resolve(
            *tree,
            byte_strings(base_dirs@),
            shared_path@,
            byte_strings(allowed_extensions@),
            ignore_dotfiles,
        ),
{
    let ghost allowed = byte_strings(allowed_extensions@);
    let ghost dirs = scan_dirs_of(byte_strings(base_dirs@), shared_path@);
    let mut found = ResolutionMap::new();
    proof {
        lemma_resolution_empty(*tree, allowed, ignore_dotfiles);
    }
    let mut i: usize = 0;
    while i < base_dirs.len()
        invariant
            i <= base_dirs.len(),
            allowed == byte_strings(allowed_extensions@),
            dirs == scan_dirs_of(byte_strings(base_dirs@), shared_path@),
            found.wf(),
            found@ == resolution(*tree, dirs.take(i as int), allowed, ignore_dotfiles),
        decreases base_dirs.len() - i,
    {
        let dir = join(base_dirs[i].as_slice(), shared_path);
        proof {
            let upto = dirs.take(i + 1);
            assert(upto.drop_last() =~= dirs.take(i as int));
            lemma_resolution_step(*tree, upto, allowed, ignore_dotfiles);
        }
        match tree.read_dir(dir.as_slice()) {
            Some(entries) => {
                scan_dir(&mut found, dir.as_slice(), entries, allowed_extensions, ignore_dotfiles);
            },
            None => {
                proof {
                    lemma_overlay_empty(found@, dir@, allowed, ignore_dotfiles);
                }
            },
        }
        i += 1;
    }
    assert(dirs.take(i as int) =~= dirs);
    found
}

} // verus!
