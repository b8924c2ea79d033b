//! What a scan resolves, stated over the listings alone.
//!
//! An entry of a listing may provide its name (a visible regular file), mask
//! it (a visible link to the null device) or have no effect. Of the entries
//! that carry one name, the last one with an effect, in the order in which
//! the directories are scanned and their listings run, decides what becomes
//! of the name.

use crate::name::visible;
use crate::path::joined;
use crate::tree::{DirEntry, EntryKind, Tree};
use vstd::prelude::*;

verus! {

/// What an entry does to the fragment of its name.
#[derive(Debug, Clone, Copy, PartialEq, Eq, Structural)]
pub enum Effect {
    /// Nothing: the name stays as it was.
    Nothing,
    /// The entry's file becomes the fragment of that name.
    Provide,
    /// The name is taken out of the resolution.
    Mask,
}

/// The path of the null device, `/dev/null`.
pub open spec fn null_device() -> Seq<u8> {
    seq![47u8, 100u8, 101u8, 118u8, 47u8, 110u8, 117u8, 108u8, 108u8]
}

/// The effect of one entry under the given filters. An entry whose name is
/// not visible has none, whatever it is. A visible regular file provides its
/// name; a visible link whose target is, byte for byte, the null device masks
/// it; every other entry has no effect.
pub open spec fn effect_of(entry: DirEntry, allowed: Seq<Seq<u8>>, ignore_dotfiles: bool) -> Effect {
    if !visible(entry.name@, allowed, ignore_dotfiles) {
        Effect::Nothing
    } else {
        match entry.kind {
            EntryKind::File => Effect::Provide,
            EntryKind::Link(target) => if target@ == null_device() {
                Effect::Mask
            } else {
                Effect::Nothing
            },
            _ => Effect::Nothing,
        }
    }
}

/// Entry `k` of the listing carries `name` and has an effect.
pub open spec fn speaks(
    entries: Seq<DirEntry>,
    k: int,
    name: Seq<u8>,
    allowed: Seq<Seq<u8>>,
    ignore_dotfiles: bool,
) -> bool {
    &&& 0 <= k < entries.len()
    &&& entries[k].name@ == name
    &&& effect_of(entries[k], allowed, ignore_dotfiles) != Effect::Nothing
}

/// Entry `k` is the last of the listing that carries `name` and has an effect.
pub open spec fn speaks_last(
    entries: Seq<DirEntry>,
    k: int,
    name: Seq<u8>,
    allowed: Seq<Seq<u8>>,
    ignore_dotfiles: bool,
) -> bool {
    &&& speaks(entries, k, name, allowed, ignore_dotfiles)
    &&& forall|j: int| k < j ==> !speaks(entries, j, name, allowed, ignore_dotfiles)
}

/// What a listing does to `name`: the effect of the last entry that carries
/// the name and has one, and nothing where no entry does.
pub open spec fn verdict(
    entries: Seq<DirEntry>,
    name: Seq<u8>,
    allowed: Seq<Seq<u8>>,
    ignore_dotfiles: bool,
) -> Effect {
    if exists|k: int| speaks(entries, k, name, allowed, ignore_dotfiles) {
        effect_of(
            entries[choose|k: int| speaks_last(entries, k, name, allowed, ignore_dotfiles)],
            allowed,
            ignore_dotfiles,
        )
    } else {
        Effect::Nothing
    }
}

/// No two entries of the listing carry the same name, as in the listing of a
/// directory on a file system.
pub open spec fn unique_names(entries: Seq<DirEntry>) -> bool {
    forall|a: int, b: int|
        0 <= a < b < entries.len() ==> (#[trigger] entries[a]).name@ != (#[trigger] entries[b]).name@
}

/// The resolution after one entry of the directory `dir`.
pub open spec fn with_entry(
    found: Map<Seq<u8>, Seq<u8>>,
    dir: Seq<u8>,
    entry: DirEntry,
    allowed: Seq<Seq<u8>>,
    ignore_dotfiles: bool,
) -> Map<Seq<u8>, Seq<u8>> {
    match effect_of(entry, allowed, ignore_dotfiles) {
        Effect::Nothing => found,
        Effect::Provide => found.insert(entry.name@, joined(dir, entry.name@)),
        Effect::Mask => found.remove(entry.name@),
    }
}

/// The resolution after the whole listing of the directory `dir`. A name that
/// the listing provides is found in `dir`; a name that it masks is gone;
/// every other name stays as it was.
pub open spec fn overlay(
    found: Map<Seq<u8>, Seq<u8>>,
    dir: Seq<u8>,
    entries: Seq<DirEntry>,
    allowed: Seq<Seq<u8>>,
    ignore_dotfiles: bool,
) -> Map<Seq<u8>, Seq<u8>> {
    Map::new(
        |name: Seq<u8>|
            match verdict(entries, name, allowed, ignore_dotfiles) {
                Effect::Nothing => found.contains_key(name),
                Effect::Provide => true,
                Effect::Mask => false,
            },
        |name: Seq<u8>|
            if verdict(entries, name, allowed, ignore_dotfiles) == Effect::Provide {
                joined(dir, name)
            } else {
                found[name]
            },
    )
}

/// What the directory at position `d` does to `name`.
pub open spec fn says(
    tree: Tree,
    dirs: Seq<Seq<u8>>,
    d: int,
    name: Seq<u8>,
    allowed: Seq<Seq<u8>>,
    ignore_dotfiles: bool,
) -> Effect {
    verdict(tree.listing(dirs[d]), name, allowed, ignore_dotfiles)
}

/// The directory at position `d` decides on `name`: it has an effect on the
/// name, and no directory after it has one.
pub open spec fn decides(
    tree: Tree,
    dirs: Seq<Seq<u8>>,
    d: int,
    name: Seq<u8>,
    allowed: Seq<Seq<u8>>,
    ignore_dotfiles: bool,
) -> bool {
    &&& 0 <= d < dirs.len()
    &&& says(tree, dirs, d, name, allowed, ignore_dotfiles) != Effect::Nothing
    &&& forall|e: int|
        d < e < dirs.len() ==> #[trigger] says(tree, dirs, e, name, allowed, ignore_dotfiles)
            == Effect::Nothing
}

/// The resolution of the directories `dirs`, scanned in order, later ones
/// overriding earlier ones. It holds a name exactly when the directory that
/// decides on the name provides it, and maps the name to its path in that
/// directory.
pub open spec fn resolution(
    tree: Tree,
    dirs: Seq<Seq<u8>>,
    allowed: Seq<Seq<u8>>,
    ignore_dotfiles: bool,
) -> Map<Seq<u8>, Seq<u8>> {
    Map::new(
        |name: Seq<u8>|
            exists|d: int|
                decides(tree, dirs, d, name, allowed, ignore_dotfiles) && says(
                    tree,
                    dirs,
                    d,
                    name,
                    allowed,
                    ignore_dotfiles,
                ) == Effect::Provide,
        |name: Seq<u8>|
            joined(
                dirs[choose|d: int| decides(tree, dirs, d, name, allowed, ignore_dotfiles)],
                name,
            ),
    )
}

/// The resolution map of a scan: that of the directories which the shared
/// path, joined onto each base directory, names.
pub open spec fn resolve(
    tree: Tree,
    base_dirs: Seq<Seq<u8>>,
    shared_path: Seq<u8>,
    allowed: Seq<Seq<u8>>,
    ignore_dotfiles: bool,
) -> Map<Seq<u8>, Seq<u8>> {
    resolution(tree, crate::path::scan_dirs_of(base_dirs, shared_path), allowed, ignore_dotfiles)
}

/// Where some entry speaks on a name from position `k` on, one speaks last.
proof fn lemma_last_speaker_from(
    entries: Seq<DirEntry>,
    k: int,
    name: Seq<u8>,
    allowed: Seq<Seq<u8>>,
    ignore_dotfiles: bool,
)
    requires
        speaks(entries, k, name, allowed, ignore_dotfiles),
    ensures
        exists|m: int| speaks_last(entries, m, name, allowed, ignore_dotfiles),
    decreases entries.len() - k,
{
    if exists|j: int| k < j && speaks(entries, j, name, allowed, ignore_dotfiles) {
        let j: int = choose|j: int| k < j && speaks(entries, j, name, allowed, ignore_dotfiles);
        lemma_last_speaker_from(entries, j, name, allowed, ignore_dotfiles);
    } else {
        assert(speaks_last(entries, k, name, allowed, ignore_dotfiles));
    }
}

/// The verdict of a listing is the effect of the entry that speaks last.
pub proof fn lemma_verdict_of_last(
    entries: Seq<DirEntry>,
    k: int,
    name: Seq<u8>,
    allowed: Seq<Seq<u8>>,
    ignore_dotfiles: bool,
)
    requires
        speaks_last(entries, k, name, allowed, ignore_dotfiles),
    ensures
        verdict(entries, name, allowed, ignore_dotfiles) == effect_of(
            entries[k],
            allowed,
            ignore_dotfiles,
        ),
{
    let m: int = choose|m: int| speaks_last(entries, m, name, allowed, ignore_dotfiles);
    assert(speaks(entries, m, name, allowed, ignore_dotfiles));
    assert(m == k);
}

/// The verdict of a listing without entries that speak on the name is
/// nothing, and a verdict of nothing means that no entry speaks.
pub proof fn lemma_verdict_nothing(
    entries: Seq<DirEntry>,
    name: Seq<u8>,
    allowed: Seq<Seq<u8>>,
    ignore_dotfiles: bool,
)
    ensures
        verdict(entries, name, allowed, ignore_dotfiles) == Effect::Nothing <==> forall|k: int|
            !speaks(entries, k, name, allowed, ignore_dotfiles),
{
    if exists|k: int| speaks(entries, k, name, allowed, ignore_dotfiles) {
        let k: int = choose|k: int| speaks(entries, k, name, allowed, ignore_dotfiles);
        lemma_last_speaker_from(entries, k, name, allowed, ignore_dotfiles);
        let m: int = choose|m: int| speaks_last(entries, m, name, allowed, ignore_dotfiles);
        assert(speaks(entries, m, name, allowed, ignore_dotfiles));
    }
}

/// The verdict of a listing, from that of the listing without its last entry.
pub proof fn lemma_verdict_step(
    entries: Seq<DirEntry>,
    name: Seq<u8>,
    allowed: Seq<Seq<u8>>,
    ignore_dotfiles: bool,
)
    requires
        entries.len() > 0,
    ensures
        verdict(entries, name, allowed, ignore_dotfiles) == (if entries.last().name@ == name
            && effect_of(entries.last(), allowed, ignore_dotfiles) != Effect::Nothing {
            effect_of(entries.last(), allowed, ignore_dotfiles)
        } else {
            verdict(entries.drop_last(), name, allowed, ignore_dotfiles)
        }),
{
    let n: int = entries.len() - 1;
    let front = entries.drop_last();
    if speaks(entries, n, name, allowed, ignore_dotfiles) {
        assert(speaks_last(entries, n, name, allowed, ignore_dotfiles));
        lemma_verdict_of_last(entries, n, name, allowed, ignore_dotfiles);
    } else {
        assert forall|k: int|
            speaks(entries, k, name, allowed, ignore_dotfiles) <==> speaks(
                front,
                k,
                name,
                allowed,
                ignore_dotfiles,
            ) by {
            if 0 <= k < n {
                assert(front[k] == entries[k]);
            }
        }
        if exists|k: int| speaks(entries, k, name, allowed, ignore_dotfiles) {
            let k: int = choose|k: int| speaks(entries, k, name, allowed, ignore_dotfiles);
            lemma_last_speaker_from(entries, k, name, allowed, ignore_dotfiles);
            let m: int = choose|m: int| speaks_last(entries, m, name, allowed, ignore_dotfiles);
            assert(speaks(entries, m, name, allowed, ignore_dotfiles));
            assert(speaks(front, m, name, allowed, ignore_dotfiles));
            assert(front[m] == entries[m]);
            assert(speaks_last(front, m, name, allowed, ignore_dotfiles));
            lemma_verdict_of_last(front, m, name, allowed, ignore_dotfiles);
        } else {
            lemma_verdict_nothing(front, name, allowed, ignore_dotfiles);
        }
    }
}

/// A listing without entries changes nothing.
pub proof fn lemma_overlay_empty(
    found: Map<Seq<u8>, Seq<u8>>,
    dir: Seq<u8>,
    allowed: Seq<Seq<u8>>,
    ignore_dotfiles: bool,
)
    ensures
        overlay(found, dir, Seq::<DirEntry>::empty(), allowed, ignore_dotfiles) == found,
{
    let empty = Seq::<DirEntry>::empty();
    assert forall|name: Seq<u8>|
        verdict(empty, name, allowed, ignore_dotfiles) == Effect::Nothing by {
        lemma_verdict_nothing(empty, name, allowed, ignore_dotfiles);
    }
    assert(overlay(found, dir, empty, allowed, ignore_dotfiles) =~= found);
}

/// The resolution after a listing is the resolution after the listing
/// without its last entry, with that entry taken into account.
pub proof fn lemma_overlay_step(
    found: Map<Seq<u8>, Seq<u8>>,
    dir: Seq<u8>,
    entries: Seq<DirEntry>,
    allowed: Seq<Seq<u8>>,
    ignore_dotfiles: bool,
)
    requires
        entries.len() > 0,
    ensures
        overlay(found, dir, entries, allowed, ignore_dotfiles) == with_entry(
            overlay(found, dir, entries.drop_last(), allowed, ignore_dotfiles),
            dir,
            entries.last(),
            allowed,
            ignore_dotfiles,
        ),
{
    let before = overlay(found, dir, entries.drop_last(), allowed, ignore_dotfiles);
    let after = with_entry(before, dir, entries.last(), allowed, ignore_dotfiles);
    let whole = overlay(found, dir, entries, allowed, ignore_dotfiles);
    assert forall|name: Seq<u8>|
        #![trigger whole.contains_key(name)]
        #![trigger after.contains_key(name)]
        whole.contains_key(name) == after.contains_key(name) && (whole.contains_key(name)
            ==> whole[name] == after[name]) by {
        lemma_verdict_step(entries, name, allowed, ignore_dotfiles);
    }
    assert(whole =~= after);
}

/// At most one directory decides on a name.
pub proof fn lemma_decides_unique(
    tree: Tree,
    dirs: Seq<Seq<u8>>,
    a: int,
    b: int,
    name: Seq<u8>,
    allowed: Seq<Seq<u8>>,
    ignore_dotfiles: bool,
)
    requires
        decides(tree, dirs, a, name, allowed, ignore_dotfiles),
        decides(tree, dirs, b, name, allowed, ignore_dotfiles),
    ensures
        a == b,
{
}

/// The resolution, read at a name on which the directory at `d` decides.
pub proof fn lemma_resolution_at(
    tree: Tree,
    dirs: Seq<Seq<u8>>,
    d: int,
    name: Seq<u8>,
    allowed: Seq<Seq<u8>>,
    ignore_dotfiles: bool,
)
    requires
        decides(tree, dirs, d, name, allowed, ignore_dotfiles),
    ensures
        resolution(tree, dirs, allowed, ignore_dotfiles).contains_key(name) <==> says(
            tree,
            dirs,
            d,
            name,
            allowed,
            ignore_dotfiles,
        ) == Effect::Provide,
        resolution(tree, dirs, allowed, ignore_dotfiles).contains_key(name) ==> resolution(
            tree,
            dirs,
            allowed,
            ignore_dotfiles,
        )[name] == joined(dirs[d], name),
{
    let c: int = choose|c: int| decides(tree, dirs, c, name, allowed, ignore_dotfiles);
    lemma_decides_unique(tree, dirs, c, d, name, allowed, ignore_dotfiles);
    if resolution(tree, dirs, allowed, ignore_dotfiles).contains_key(name) {
        let e: int = choose|e: int|
            decides(tree, dirs, e, name, allowed, ignore_dotfiles) && says(
                tree,
                dirs,
                e,
                name,
                allowed,
                ignore_dotfiles,
            ) == Effect::Provide;
        lemma_decides_unique(tree, dirs, e, d, name, allowed, ignore_dotfiles);
    }
}

/// A name on which no directory has an effect is not resolved.
pub proof fn lemma_resolution_silent(
    tree: Tree,
    dirs: Seq<Seq<u8>>,
    name: Seq<u8>,
    allowed: Seq<Seq<u8>>,
    ignore_dotfiles: bool,
)
    requires
        forall|d: int|
            0 <= d < dirs.len() ==> #[trigger] says(tree, dirs, d, name, allowed, ignore_dotfiles)
                == Effect::Nothing,
    ensures
        !resolution(tree, dirs, allowed, ignore_dotfiles).contains_key(name),
{
}

/// Without directories nothing is resolved.
pub proof fn lemma_resolution_empty(tree: Tree, allowed: Seq<Seq<u8>>, ignore_dotfiles: bool)
    ensures
        resolution(tree, Seq::<Seq<u8>>::empty(), allowed, ignore_dotfiles) == Map::<
            Seq<u8>,
            Seq<u8>,
        >::empty(),
{
    assert(resolution(tree, Seq::<Seq<u8>>::empty(), allowed, ignore_dotfiles) =~= Map::<
        Seq<u8>,
        Seq<u8>,
    >::empty());
}

/// Where some directory up to position `d` has an effect on a name, one
/// directory up to `d` is the last to have one.
proof fn lemma_last_word_upto(
    tree: Tree,
    dirs: Seq<Seq<u8>>,
    d: int,
    name: Seq<u8>,
    allowed: Seq<Seq<u8>>,
    ignore_dotfiles: bool,
) -> (c: int)
    requires
        0 <= d <= dirs.len(),
        exists|e: int|
            0 <= e < d && says(tree, dirs, e, name, allowed, ignore_dotfiles) != Effect::Nothing,
    ensures
        0 <= c < d,
        says(tree, dirs, c, name, allowed, ignore_dotfiles) != Effect::Nothing,
        forall|e: int|
            c < e < d ==> #[trigger] says(tree, dirs, e, name, allowed, ignore_dotfiles)
                == Effect::Nothing,
    decreases d,
{
    if says(tree, dirs, d - 1, name, allowed, ignore_dotfiles) != Effect::Nothing {
        d - 1
    } else {
        lemma_last_word_upto(tree, dirs, d - 1, name, allowed, ignore_dotfiles)
    }
}

/// The resolution of some directories is that of all but the last, overlaid
/// with the listing of the last.
pub proof fn lemma_resolution_step(
    tree: Tree,
    dirs: Seq<Seq<u8>>,
    allowed: Seq<Seq<u8>>,
    ignore_dotfiles: bool,
)
    requires
        dirs.len() > 0,
    ensures
        resolution(tree, dirs, allowed, ignore_dotfiles) == overlay(
            resolution(tree, dirs.drop_last(), allowed, ignore_dotfiles),
            dirs.last(),
            tree.listing(dirs.last()),
            allowed,
            ignore_dotfiles,
        ),
{
    let last: int = dirs.len() - 1;
    let front = dirs.drop_last();
    let whole = resolution(tree, dirs, allowed, ignore_dotfiles);
    let before = resolution(tree, front, allowed, ignore_dotfiles);
    let after = overlay(before, dirs.last(), tree.listing(dirs.last()), allowed, ignore_dotfiles);
    assert forall|name: Seq<u8>|
        #![trigger whole.contains_key(name)]
        #![trigger after.contains_key(name)]
        whole.contains_key(name) == after.contains_key(name) && (whole.contains_key(name)
            ==> whole[name] == after[name]) by {
        assert forall|e: int| 0 <= e < last implies says(
            tree,
            front,
            e,
            name,
            allowed,
            ignore_dotfiles,
        ) == says(tree, dirs, e, name, allowed, ignore_dotfiles) by {
            assert(front[e] == dirs[e]);
        }
        if says(tree, dirs, last, name, allowed, ignore_dotfiles) != Effect::Nothing {
            assert(decides(tree, dirs, last, name, allowed, ignore_dotfiles));
            lemma_resolution_at(tree, dirs, last, name, allowed, ignore_dotfiles);
        } else if exists|e: int|
            0 <= e < last && says(tree, dirs, e, name, allowed, ignore_dotfiles)
                != Effect::Nothing {
            let c = lemma_last_word_upto(tree, dirs, last, name, allowed, ignore_dotfiles);
            assert(decides(tree, dirs, c, name, allowed, ignore_dotfiles));
            assert(decides(tree, front, c, name, allowed, ignore_dotfiles));
            lemma_resolution_at(tree, dirs, c, name, allowed, ignore_dotfiles);
            lemma_resolution_at(tree, front, c, name, allowed, ignore_dotfiles);
            assert(front[c] == dirs[c]);
        } else {
            lemma_resolution_silent(tree, dirs, name, allowed, ignore_dotfiles);
            lemma_resolution_silent(tree, front, name, allowed, ignore_dotfiles);
        }
    }
    assert(whole =~= after);
}

/// In a listing with unique names, what the listing does to a name is what
/// the one entry of that name does.
pub proof fn lemma_verdict_unique(
    entries: Seq<DirEntry>,
    k: int,
    name: Seq<u8>,
    allowed: Seq<Seq<u8>>,
    ignore_dotfiles: bool,
)
    requires
        unique_names(entries),
        0 <= k < entries.len(),
        entries[k].name@ == name,
    ensures
        verdict(entries, name, allowed, ignore_dotfiles) == effect_of(
            entries[k],
            allowed,
            ignore_dotfiles,
        ),
{
    assert forall|j: int| speaks(entries, j, name, allowed, ignore_dotfiles) implies j == k by {
        if j < k {
            assert(entries[j].name@ != entries[k].name@);
        } else if k < j {
            assert(entries[k].name@ != entries[j].name@);
        }
    }
    if speaks(entries, k, name, allowed, ignore_dotfiles) {
        assert(speaks_last(entries, k, name, allowed, ignore_dotfiles));
        lemma_verdict_of_last(entries, k, name, allowed, ignore_dotfiles);
    } else {
        lemma_verdict_nothing(entries, name, allowed, ignore_dotfiles);
    }
}

/// A listing that has an effect on a name holds an entry of that name with
/// that effect, and the name is visible.
pub proof fn lemma_verdict_witness(
    entries: Seq<DirEntry>,
    name: Seq<u8>,
    allowed: Seq<Seq<u8>>,
    ignore_dotfiles: bool,
) -> (k: int)
    requires
        verdict(entries, name, allowed, ignore_dotfiles) != Effect::Nothing,
    ensures
        speaks_last(entries, k, name, allowed, ignore_dotfiles),
        effect_of(entries[k], allowed, ignore_dotfiles) == verdict(
            entries,
            name,
            allowed,
            ignore_dotfiles,
        ),
        visible(name, allowed, ignore_dotfiles),
{
    let j: int = choose|j: int| speaks(entries, j, name, allowed, ignore_dotfiles);
    lemma_last_speaker_from(entries, j, name, allowed, ignore_dotfiles);
    let k: int = choose|k: int| speaks_last(entries, k, name, allowed, ignore_dotfiles);
    assert(speaks(entries, k, name, allowed, ignore_dotfiles));
    k
}

} // verus!
