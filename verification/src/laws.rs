//! What holds of every scan.
//!
//! The laws speak of what a directory does to a name ([`says`]): it provides
//! the name, masks it, or has no effect on it. In a listing without repeated
//! names, as a file system yields it, a directory provides a name exactly
//! when its entry of that name is a visible regular file, and masks it
//! exactly when that entry is a visible link to the null device
//! ([`lemma_verdict_unique`]).

use crate::bytes::{lemma_lex_asymmetric, lemma_lex_irreflexive, lex_lt};
use crate::model::{
    decides, lemma_resolution_at, lemma_resolution_silent, lemma_verdict_nothing,
    lemma_verdict_unique, lemma_verdict_witness, overlay, resolution, resolve, says, speaks,
    unique_names, verdict, Effect,
};
use crate::name::{extension_allowed, hidden, visible};
use crate::path::{joined, scan_dirs_of};
use crate::resolution::{ascending, lemma_map_of_pair, map_of, names, ResolutionMap};
use crate::tree::{DirEntry, Tree};
use vstd::prelude::*;

verus! {

/// Ascending pairs that stand for the same mapping agree before position `n`.
proof fn lemma_same_pairs_upto(
    first: Seq<(Seq<u8>, Seq<u8>)>,
    second: Seq<(Seq<u8>, Seq<u8>)>,
    n: int,
)
    requires
        ascending(first),
        ascending(second),
        map_of(first) == map_of(second),
        0 <= n <= first.len(),
    ensures
        n <= second.len(),
        forall|i: int| 0 <= i < n ==> first[i] == second[i],
    decreases n,
{
    if n > 0 {
        lemma_same_pairs_upto(first, second, n - 1);
        let at: int = n - 1;
        let name = first[at].0;
        lemma_map_of_pair(first, at);
        assert(names(second, name));
        let j: int = choose|j: int| 0 <= j < second.len() && (#[trigger] second[j]).0 == name;
        lemma_map_of_pair(second, j);
        lemma_lex_irreflexive(name);
        if j < at {
            // then `first` would carry the name at `j` and at `at`
            assert(first[j] == second[j]);
            assert(lex_lt(first[j].0, first[at].0));
        } else if j > at {
            // the name at `at` in `second` comes before `name`, so in `first`
            // it stands before `at`, where the two agree
            let other = second[at].0;
            lemma_map_of_pair(second, at);
            assert(names(first, other));
            let k: int = choose|k: int| 0 <= k < first.len() && (#[trigger] first[k]).0 == other;
            assert(lex_lt(second[at].0, second[j].0));
            lemma_lex_irreflexive(other);
            if k < at {
                assert(first[k] == second[k]);
                assert(lex_lt(second[k].0, second[at].0));
            } else if k > at {
                assert(lex_lt(first[at].0, first[k].0));
                lemma_lex_asymmetric(name, other);
            }
        }
    }
}

/// The order of the names is fixed by the mapping: ascending pairs that stand
/// for the same mapping are the same pairs in the same order.
pub proof fn lemma_same_map_same_pairs(
    first: Seq<(Seq<u8>, Seq<u8>)>,
    second: Seq<(Seq<u8>, Seq<u8>)>,
)
    requires
        ascending(first),
        ascending(second),
        map_of(first) == map_of(second),
    ensures
        first == second,
{
    lemma_same_pairs_upto(first, second, first.len() as int);
    lemma_same_pairs_upto(second, first, second.len() as int);
    assert(first =~= second);
}

/// Determinism: two scans of one tree under one configuration resolve the
/// same names to the same locations and hand them out in the same order.
pub proof fn law_determinism(
    tree: Tree,
    base_dirs: Seq<Seq<u8>>,
    shared_path: Seq<u8>,
    allowed: Seq<Seq<u8>>,
    ignore_dotfiles: bool,
    first: ResolutionMap,
    second: ResolutionMap,
)
    requires
        first.wf(),
        second.wf(),
        first@ == resolve(tree, base_dirs, shared_path, allowed, ignore_dotfiles),
        second@ == resolve(tree, base_dirs, shared_path, allowed, ignore_dotfiles),
    ensures
        first@ == second@,
        first.pairs() == second.pairs(),
{
    lemma_same_map_same_pairs(first.pairs(), second.pairs());
}

/// The order in which a listing yields its entries is of no account, as long
/// as no name occurs twice in it: two listings with unique names that hold
/// the same entries leave the same resolution.
pub proof fn law_listing_order(
    found: Map<Seq<u8>, Seq<u8>>,
    dir: Seq<u8>,
    first: Seq<DirEntry>,
    second: Seq<DirEntry>,
    allowed: Seq<Seq<u8>>,
    ignore_dotfiles: bool,
)
    requires
        unique_names(first),
        unique_names(second),
        forall|entry: DirEntry| first.contains(entry) <==> second.contains(entry),
    ensures
        overlay(found, dir, first, allowed, ignore_dotfiles) == overlay(
            found,
            dir,
            second,
            allowed,
            ignore_dotfiles,
        ),
{
    assert forall|name: Seq<u8>|
        verdict(first, name, allowed, ignore_dotfiles) == verdict(
            second,
            name,
            allowed,
            ignore_dotfiles,
        ) by {
        if exists|k: int| 0 <= k < first.len() && (#[trigger] first[k]).name@ == name {
            let k: int = choose|k: int| 0 <= k < first.len() && (#[trigger] first[k]).name@ == name;
            assert(first.contains(first[k]));
            let j: int = choose|j: int| 0 <= j < second.len() && second[j] == first[k];
            lemma_verdict_unique(first, k, name, allowed, ignore_dotfiles);
            lemma_verdict_unique(second, j, name, allowed, ignore_dotfiles);
        } else {
            lemma_verdict_nothing(first, name, allowed, ignore_dotfiles);
            assert forall|j: int| !speaks(
                second,
                j,
                name,
                allowed,
                ignore_dotfiles,
            ) by {
                if 0 <= j < second.len() && second[j].name@ == name {
                    assert(second.contains(second[j]));
                    let k: int = choose|k: int| 0 <= k < first.len() && first[k] == second[j];
                    assert(first[k].name@ == name);
                }
            }
            lemma_verdict_nothing(second, name, allowed, ignore_dotfiles);
        }
    }
    assert(overlay(found, dir, first, allowed, ignore_dotfiles) =~= overlay(
        found,
        dir,
        second,
        allowed,
        ignore_dotfiles,
    ));
}

/// Ordering: the names of a resolution map rise strictly in
/// byte-lexicographic order, so of any two fragments the one handed out
/// first has the smaller name, and no name is handed out twice.
pub proof fn law_ordering(found: ResolutionMap, i: int, j: int)
    requires
        found.wf(),
        0 <= i < j < found.pairs().len(),
    ensures
        lex_lt(found.pairs()[i].0, found.pairs()[j].0),
        found.pairs()[i].0 != found.pairs()[j].0,
        !lex_lt(found.pairs()[j].0, found.pairs()[i].0),
{
    let a = found.pairs()[i].0;
    let b = found.pairs()[j].0;
    lemma_lex_irreflexive(a);
    lemma_lex_asymmetric(a, b);
}

/// Override: where the directory at position `j` provides a name and no
/// directory after it has an effect on that name, the name resolves to the
/// file in that directory, whatever the directories before it hold.
pub proof fn law_override(
    tree: Tree,
    base_dirs: Seq<Seq<u8>>,
    shared_path: Seq<u8>,
    allowed: Seq<Seq<u8>>,
    ignore_dotfiles: bool,
    j: int,
    name: Seq<u8>,
)
    requires
        0 <= j < base_dirs.len(),
        says(tree, scan_dirs_of(base_dirs, shared_path), j, name, allowed, ignore_dotfiles)
            == Effect::Provide,
        forall|k: int|
            j < k < base_dirs.len() ==> #[trigger] says(
                tree,
                scan_dirs_of(base_dirs, shared_path),
                k,
                name,
                allowed,
                ignore_dotfiles,
            ) == Effect::Nothing,
    ensures
        resolve(tree, base_dirs, shared_path, allowed, ignore_dotfiles).contains_key(name),
        resolve(tree, base_dirs, shared_path, allowed, ignore_dotfiles)[name] == joined(
            joined(base_dirs[j], shared_path),
            name,
        ),
{
    let dirs = scan_dirs_of(base_dirs, shared_path);
    assert(decides(tree, dirs, j, name, allowed, ignore_dotfiles));
    lemma_resolution_at(tree, dirs, j, name, allowed, ignore_dotfiles);
}

/// Tombstone: where the directory at position `j` masks a name, the name is
/// absent once the directories up to `j` are scanned, whatever the
/// directories before `j` hold; and it is absent from the whole scan where no
/// directory after `j` has an effect on it.
pub proof fn law_tombstone(
    tree: Tree,
    base_dirs: Seq<Seq<u8>>,
    shared_path: Seq<u8>,
    allowed: Seq<Seq<u8>>,
    ignore_dotfiles: bool,
    j: int,
    name: Seq<u8>,
)
    requires
        0 <= j < base_dirs.len(),
        says(tree, scan_dirs_of(base_dirs, shared_path), j, name, allowed, ignore_dotfiles)
            == Effect::Mask,
    ensures
        !resolve(tree, base_dirs.take(j + 1), shared_path, allowed, ignore_dotfiles).contains_key(
            name,
        ),
        (forall|k: int|
            j < k < base_dirs.len() ==> #[trigger] says(
                tree,
                scan_dirs_of(base_dirs, shared_path),
                k,
                name,
                allowed,
                ignore_dotfiles,
            ) == Effect::Nothing) ==> !resolve(
            tree,
            base_dirs,
            shared_path,
            allowed,
            ignore_dotfiles,
        ).contains_key(name),
{
    let dirs = scan_dirs_of(base_dirs, shared_path);
    let upto = scan_dirs_of(base_dirs.take(j + 1), shared_path);
    assert(upto[j] == dirs[j]);
    assert(decides(tree, upto, j, name, allowed, ignore_dotfiles));
    lemma_resolution_at(tree, upto, j, name, allowed, ignore_dotfiles);
    if forall|k: int|
        j < k < base_dirs.len() ==> #[trigger] says(tree, dirs, k, name, allowed, ignore_dotfiles)
            == Effect::Nothing {
        assert(decides(tree, dirs, j, name, allowed, ignore_dotfiles));
        lemma_resolution_at(tree, dirs, j, name, allowed, ignore_dotfiles);
    }
}

/// A masked name comes back: where the directory at position `j` masks a
/// name and a later directory, at position `k`, provides it, with no
/// directory after `k` that has an effect on it, the name resolves to the
/// file in the directory at `k`.
pub proof fn law_reintroduction(
    tree: Tree,
    base_dirs: Seq<Seq<u8>>,
    shared_path: Seq<u8>,
    allowed: Seq<Seq<u8>>,
    ignore_dotfiles: bool,
    j: int,
    k: int,
    name: Seq<u8>,
)
    requires
        0 <= j < k < base_dirs.len(),
        says(tree, scan_dirs_of(base_dirs, shared_path), j, name, allowed, ignore_dotfiles)
            == Effect::Mask,
        says(tree, scan_dirs_of(base_dirs, shared_path), k, name, allowed, ignore_dotfiles)
            == Effect::Provide,
        forall|l: int|
            k < l < base_dirs.len() ==> #[trigger] says(
                tree,
                scan_dirs_of(base_dirs, shared_path),
                l,
                name,
                allowed,
                ignore_dotfiles,
            ) == Effect::Nothing,
    ensures
        resolve(tree, base_dirs, shared_path, allowed, ignore_dotfiles).contains_key(name),
        resolve(tree, base_dirs, shared_path, allowed, ignore_dotfiles)[name] == joined(
            joined(base_dirs[k], shared_path),
            name,
        ),
{
    law_override(tree, base_dirs, shared_path, allowed, ignore_dotfiles, k, name);
}

/// Filters: every resolved name is visible. With dotfiles ignored no resolved
/// name starts with a `.`, and where extensions are asked for every resolved
/// name has one of them. Its location is the name joined onto one of the
/// scanned directories.
pub proof fn law_filters(
    tree: Tree,
    base_dirs: Seq<Seq<u8>>,
    shared_path: Seq<u8>,
    allowed: Seq<Seq<u8>>,
    ignore_dotfiles: bool,
    name: Seq<u8>,
)
    requires
        resolve(tree, base_dirs, shared_path, allowed, ignore_dotfiles).contains_key(name),
    ensures
        visible(name, allowed, ignore_dotfiles),
        ignore_dotfiles ==> !hidden(name),
        extension_allowed(name, allowed),
        exists|d: int|
            0 <= d < base_dirs.len() && resolve(
                tree,
                base_dirs,
                shared_path,
                allowed,
                ignore_dotfiles,
            )[name] == joined(joined(#[trigger] base_dirs[d], shared_path), name),
{
    let dirs = scan_dirs_of(base_dirs, shared_path);
    let d: int = choose|d: int|
        decides(tree, dirs, d, name, allowed, ignore_dotfiles) && says(
            tree,
            dirs,
            d,
            name,
            allowed,
            ignore_dotfiles,
        ) == Effect::Provide;
    lemma_resolution_at(tree, dirs, d, name, allowed, ignore_dotfiles);
    lemma_verdict_witness(tree.listing(dirs[d]), name, allowed, ignore_dotfiles);
    assert(dirs[d] == joined(base_dirs[d], shared_path));
}

/// A dotfile is an entry like any other where dotfiles are not ignored: the
/// dotfile rule then lets every name pass, and only the extension rule is
/// left.
pub proof fn law_dotfiles_kept(name: Seq<u8>, allowed: Seq<Seq<u8>>)
    ensures
        visible(name, allowed, false) == extension_allowed(name, allowed),
        visible(name, Seq::<Seq<u8>>::empty(), false),
        visible(name, Seq::<Seq<u8>>::empty(), true) == !hidden(name),
{
}

/// Where a directory has an effect on a name, some directory decides on it.
proof fn lemma_some_directory_decides(
    tree: Tree,
    dirs: Seq<Seq<u8>>,
    d: int,
    name: Seq<u8>,
    allowed: Seq<Seq<u8>>,
    ignore_dotfiles: bool,
)
    requires
        0 <= d < dirs.len(),
        says(tree, dirs, d, name, allowed, ignore_dotfiles) != Effect::Nothing,
    ensures
        exists|c: int| decides(tree, dirs, c, name, allowed, ignore_dotfiles),
    decreases dirs.len() - d,
{
    if exists|e: int|
        d < e < dirs.len() && says(tree, dirs, e, name, allowed, ignore_dotfiles)
            != Effect::Nothing {
        let e: int = choose|e: int|
            d < e < dirs.len() && says(tree, dirs, e, name, allowed, ignore_dotfiles)
                != Effect::Nothing;
        lemma_some_directory_decides(tree, dirs, e, name, allowed, ignore_dotfiles);
    } else {
        assert(decides(tree, dirs, d, name, allowed, ignore_dotfiles));
    }
}

/// Missing directories: a base directory whose scan directory the tree does
/// not hold counts for nothing. The scan resolves what it would resolve
/// without that base directory.
pub proof fn law_missing_directory(
    tree: Tree,
    base_dirs: Seq<Seq<u8>>,
    shared_path: Seq<u8>,
    allowed: Seq<Seq<u8>>,
    ignore_dotfiles: bool,
    i: int,
)
    requires
        0 <= i < base_dirs.len(),
        !tree.has_dir(joined(base_dirs[i], shared_path)),
    ensures
        resolve(tree, base_dirs, shared_path, allowed, ignore_dotfiles) == resolve(
            tree,
            base_dirs.remove(i),
            shared_path,
            allowed,
            ignore_dotfiles,
        ),
{
    let dirs = scan_dirs_of(base_dirs, shared_path);
    let rest = scan_dirs_of(base_dirs.remove(i), shared_path);
    let whole = resolution(tree, dirs, allowed, ignore_dotfiles);
    let without = resolution(tree, rest, allowed, ignore_dotfiles);
    assert(tree.listing(dirs[i]) == Seq::<DirEntry>::empty());
    assert forall|name: Seq<u8>|
        #![trigger whole.contains_key(name)]
        #![trigger without.contains_key(name)]
        whole.contains_key(name) == without.contains_key(name) && (whole.contains_key(name)
            ==> whole[name] == without[name]) by {
        lemma_verdict_nothing(tree.listing(dirs[i]), name, allowed, ignore_dotfiles);
        assert(says(tree, dirs, i, name, allowed, ignore_dotfiles) == Effect::Nothing);
        assert forall|d: int| 0 <= d < rest.len() implies #[trigger] says(
            tree,
            rest,
            d,
            name,
            allowed,
            ignore_dotfiles,
        ) == says(tree, dirs, if d < i { d } else { d + 1 }, name, allowed, ignore_dotfiles) by {
            assert(rest[d] == dirs[if d < i { d } else { d + 1 }]);
        }
        if exists|d: int| decides(tree, dirs, d, name, allowed, ignore_dotfiles) {
            let d: int = choose|d: int| decides(tree, dirs, d, name, allowed, ignore_dotfiles);
            let r: int = if d < i { d } else { d - 1 };
            assert(says(tree, rest, r, name, allowed, ignore_dotfiles) == says(
                tree,
                dirs,
                d,
                name,
                allowed,
                ignore_dotfiles,
            ));
            assert forall|e: int| r < e < rest.len() implies #[trigger] says(
                tree,
                rest,
                e,
                name,
                allowed,
                ignore_dotfiles,
            ) == Effect::Nothing by {
                let up: int = if e < i { e } else { e + 1 };
                assert(says(tree, dirs, up, name, allowed, ignore_dotfiles) == Effect::Nothing);
            }
            assert(decides(tree, rest, r, name, allowed, ignore_dotfiles));
            lemma_resolution_at(tree, dirs, d, name, allowed, ignore_dotfiles);
            lemma_resolution_at(tree, rest, r, name, allowed, ignore_dotfiles);
            assert(rest[r] == dirs[d]);
        } else {
            assert forall|d: int| 0 <= d < dirs.len() implies #[trigger] says(
                tree,
                dirs,
                d,
                name,
                allowed,
                ignore_dotfiles,
            ) == Effect::Nothing by {
                if says(tree, dirs, d, name, allowed, ignore_dotfiles) != Effect::Nothing {
                    lemma_some_directory_decides(tree, dirs, d, name, allowed, ignore_dotfiles);
                }
            }
            lemma_resolution_silent(tree, dirs, name, allowed, ignore_dotfiles);
            assert forall|d: int| 0 <= d < rest.len() implies #[trigger] says(
                tree,
                rest,
                d,
                name,
                allowed,
                ignore_dotfiles,
            ) == Effect::Nothing by {
                let up: int = if d < i { d } else { d + 1 };
                assert(says(tree, dirs, up, name, allowed, ignore_dotfiles) == Effect::Nothing);
            }
            lemma_resolution_silent(tree, rest, name, allowed, ignore_dotfiles);
        }
    }
    assert(whole =~= without);
}

/// A scan depends on the tree only through the listings of the directories
/// that it visits: two trees that list each of them alike resolve alike.
pub proof fn lemma_same_listings(
    tree: Tree,
    other: Tree,
    base_dirs: Seq<Seq<u8>>,
    shared_path: Seq<u8>,
    allowed: Seq<Seq<u8>>,
    ignore_dotfiles: bool,
)
    requires
        forall|i: int|
            0 <= i < base_dirs.len() ==> tree.listing(joined(#[trigger] base_dirs[i], shared_path))
                == other.listing(joined(base_dirs[i], shared_path)),
    ensures
        resolve(tree, base_dirs, shared_path, allowed, ignore_dotfiles) == resolve(
            other,
            base_dirs,
            shared_path,
            allowed,
            ignore_dotfiles,
        ),
{
    let dirs = scan_dirs_of(base_dirs, shared_path);
    let one = resolution(tree, dirs, allowed, ignore_dotfiles);
    let two = resolution(other, dirs, allowed, ignore_dotfiles);
    assert forall|name: Seq<u8>|
        #![trigger one.contains_key(name)]
        #![trigger two.contains_key(name)]
        one.contains_key(name) == two.contains_key(name) && (one.contains_key(name) ==> one[name]
            == two[name]) by {
        assert forall|d: int|
            #![trigger says(tree, dirs, d, name, allowed, ignore_dotfiles)]
            #![trigger says(other, dirs, d, name, allowed, ignore_dotfiles)]
            0 <= d < dirs.len() implies says(tree, dirs, d, name, allowed, ignore_dotfiles)
            == says(other, dirs, d, name, allowed, ignore_dotfiles) by {
            assert(dirs[d] == joined(base_dirs[d], shared_path));
        }
        assert forall|d: int|
            decides(tree, dirs, d, name, allowed, ignore_dotfiles) <==> decides(
                other,
                dirs,
                d,
                name,
                allowed,
                ignore_dotfiles,
            ) by {
            if decides(tree, dirs, d, name, allowed, ignore_dotfiles) {
                assert(decides(other, dirs, d, name, allowed, ignore_dotfiles));
            }
            if decides(other, dirs, d, name, allowed, ignore_dotfiles) {
                assert(decides(tree, dirs, d, name, allowed, ignore_dotfiles));
            }
        }
        if one.contains_key(name) {
            let d: int = choose|d: int|
                decides(tree, dirs, d, name, allowed, ignore_dotfiles) && says(
                    tree,
                    dirs,
                    d,
                    name,
                    allowed,
                    ignore_dotfiles,
                ) == Effect::Provide;
            lemma_resolution_at(tree, dirs, d, name, allowed, ignore_dotfiles);
            lemma_resolution_at(other, dirs, d, name, allowed, ignore_dotfiles);
        }
        if two.contains_key(name) {
            let d: int = choose|d: int|
                decides(other, dirs, d, name, allowed, ignore_dotfiles) && says(
                    other,
                    dirs,
                    d,
                    name,
                    allowed,
                    ignore_dotfiles,
                ) == Effect::Provide;
            lemma_resolution_at(tree, dirs, d, name, allowed, ignore_dotfiles);
            lemma_resolution_at(other, dirs, d, name, allowed, ignore_dotfiles);
        }
    }
    assert(one =~= two);
}

/// Missing directories, read the other way: a tree that lacks the scan
/// directory of a base directory resolves as a tree does that holds that
/// directory without entries and lists every other path alike.
pub proof fn law_missing_as_empty(
    tree: Tree,
    other: Tree,
    base_dirs: Seq<Seq<u8>>,
    shared_path: Seq<u8>,
    allowed: Seq<Seq<u8>>,
    ignore_dotfiles: bool,
    i: int,
)
    requires
        0 <= i < base_dirs.len(),
        !tree.has_dir(joined(base_dirs[i], shared_path)),
        other.has_dir(joined(base_dirs[i], shared_path)),
        other.listing(joined(base_dirs[i], shared_path)).len() == 0,
        forall|path: Seq<u8>|
            path != joined(base_dirs[i], shared_path) ==> #[trigger] tree.listing(path)
                == other.listing(path),
    ensures
        resolve(tree, base_dirs, shared_path, allowed, ignore_dotfiles) == resolve(
            other,
            base_dirs,
            shared_path,
            allowed,
            ignore_dotfiles,
        ),
{
    let missing = joined(base_dirs[i], shared_path);
    assert(tree.listing(missing) =~= other.listing(missing));
    assert forall|k: int| 0 <= k < base_dirs.len() implies tree.listing(
        joined(#[trigger] base_dirs[k], shared_path),
    ) == other.listing(joined(base_dirs[k], shared_path)) by {
        let path = joined(base_dirs[k], shared_path);
        if path != missing {
            assert(tree.listing(path) == other.listing(path));
        }
    }
    lemma_same_listings(tree, other, base_dirs, shared_path, allowed, ignore_dotfiles);
}

} // verus!
