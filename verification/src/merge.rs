//! Merging the resolved fragments into one value, in ascending order of
//! name, stopping at the first failure.

use crate::bytes::byte_strings;
use crate::model::resolve;
use crate::resolution::{ascending, lemma_map_of_pair, map_of, pairs_of, Fragment};
use crate::scan::scan;
use crate::tree::Tree;
use vstd::prelude::*;

verus! {

/// `out` is what merging the fragments `frags` in order, starting from the
/// value `from`, may come to. Each fragment is opened by its location, and
/// what was opened is merged, under the fragment's name, into the value so
/// far. The first failure, of `open` or of `merge`, is the outcome, and no
/// later fragment is touched; without a failure the outcome is the last value.
pub open spec fn merged<
    T,
    E,
    R,
    O: Fn(&Vec<u8>) -> Result<R, E>,
    M: Fn(T, &Vec<u8>, R) -> Result<T, E>,
>(open: O, merge: M, frags: Seq<Fragment>, from: T, out: Result<T, E>) -> bool
    decreases frags.len(),
{
    if frags.len() == 0 {
        out == Ok::<T, E>(from)
    } else {
        exists|opened: Result<R, E>| #[trigger]
            call_ensures(open, (&frags[0].location,), opened) && match opened {
                Err(e) => out == Err::<T, E>(e),
                Ok(reader) => exists|step: Result<T, E>| #[trigger]
                    call_ensures(merge, (from, &frags[0].name, reader), step) && match step {
                        Err(e) => out == Err::<T, E>(e),
                        Ok(next) => merged(open, merge, frags.skip(1), next, out),
                    },
            }
    }
}

/// `location` is where the mapping finds one of its names.
pub open spec fn locates(found: Map<Seq<u8>, Seq<u8>>, location: Seq<u8>) -> bool {
    exists|name: Seq<u8>| found.contains_key(name) && #[trigger] found[name] == location
}

/// Merging no fragments leaves the value as it is.
pub proof fn lemma_merged_none<
    T,
    E,
    R,
    O: Fn(&Vec<u8>) -> Result<R, E>,
    M: Fn(T, &Vec<u8>, R) -> Result<T, E>,
>(open: O, merge: M, frags: Seq<Fragment>, from: T, out: Result<T, E>)
    requires
        frags.len() == 0,
    ensures
        merged(open, merge, frags, from, out) <==> out == Ok::<T, E>(from),
{
}

/// Merging one fragment or more starts with the first: it is opened and
/// merged, and the outcome is the failure of either or what merging the
/// other fragments comes to.
pub proof fn lemma_merged_first<
    T,
    E,
    R,
    O: Fn(&Vec<u8>) -> Result<R, E>,
    M: Fn(T, &Vec<u8>, R) -> Result<T, E>,
>(open: O, merge: M, frags: Seq<Fragment>, from: T, out: Result<T, E>)
    requires
        frags.len() > 0,
    ensures
        merged(open, merge, frags, from, out) <==> (exists|opened: Result<R, E>| #[trigger]
            call_ensures(open, (&frags[0].location,), opened) && match opened {
                Err(e) => out == Err::<T, E>(e),
                Ok(reader) => exists|step: Result<T, E>| #[trigger]
                    call_ensures(merge, (from, &frags[0].name, reader), step) && match step {
                        Err(e) => out == Err::<T, E>(e),
                        Ok(next) => merged(open, merge, frags.skip(1), next, out),
                    },
            }),
{
}

/// Merges the fragments in the order given, starting from `start`.
pub fn merge_fragments<
    T,
    E,
    R,
    O: Fn(&Vec<u8>) -> Result<R, E>,
    M: Fn(T, &Vec<u8>, R) -> Result<T, E>,
>(frags: &[Fragment], start: T, open: O, merge: M) -> (out: Result<T, E>)
    requires
        forall|i: int|
            0 <= i < frags@.len() ==> #[trigger] call_requires(open, (&frags@[i].location,)),
        forall|i: int, acc: T, reader: R|
            0 <= i < frags@.len() ==> #[trigger] call_requires(
                merge,
                (acc, &frags@[i].name, reader),
            ),
    ensures
        merged(open, merge, frags@, start, out),
{
    let mut acc = start;
    let mut i: usize = 0;
    assert(frags@.skip(0) =~= frags@);
    while i < frags.len()
        invariant
            i <= frags.len(),
            forall|i: int|
                0 <= i < frags@.len() ==> #[trigger] call_requires(open, (&frags@[i].location,)),
            forall|i: int, acc: T, reader: R|
                0 <= i < frags@.len() ==> #[trigger] call_requires(
                    merge,
                    (acc, &frags@[i].name, reader),
                ),
            forall|o: Result<T, E>|
                merged(open, merge, frags@.skip(i as int), acc, o) ==> merged(
                    open,
                    merge,
                    frags@,
                    start,
                    o,
                ),
        decreases frags.len() - i,
    {
        let ghost so_far = acc;
        let ghost rest = frags@.skip(i as int);
        assert(rest.skip(1) =~= frags@.skip(i + 1));
        assert(rest[0] == frags@[i as int]);
        let opened = open(&frags[i].location);
        match opened {
            Err(e) => {
                assert(merged(open, merge, rest, so_far, Err::<T, E>(e)));
                assert(merged(open, merge, frags@, start, Err::<T, E>(e)));
                return Err(e);
            },
            Ok(reader) => {
                let step = merge(acc, &frags[i].name, reader);
                match step {
                    Err(e) => {
                        assert(merged(open, merge, rest, so_far, Err::<T, E>(e)));
                        assert(merged(open, merge, frags@, start, Err::<T, E>(e)));
                        return Err(e);
                    },
                    Ok(next) => {
                        assert forall|o: Result<T, E>|
                            merged(open, merge, frags@.skip(i + 1), next, o) implies merged(
                            open,
                            merge,
                            frags@,
                            start,
                            o,
                        ) by {
                            assert(merged(open, merge, rest, so_far, o));
                        }
                        acc = next;
                    },
                }
            },
        }
        i += 1;
    }
    assert(frags@.skip(i as int).len() == 0);
    assert(merged(open, merge, frags@.skip(i as int), acc, Ok::<T, E>(acc)));
    assert(merged(open, merge, frags@, start, Ok::<T, E>(acc)));
    Ok(acc)
}

/// Scans as [`scan`] does, then merges the resolved fragments, in ascending
/// order of name, into one value that starts as `T::default()`.
///
/// `open` is handed the location of a fragment and yields what `merge` is to
/// read; `merge` is handed the value so far, the fragment's name and what was
/// opened. The first failure of either ends the merge and is returned.
pub fn scan_and_merge<
    T: Default,
    E,
    R,
    O: Fn(&Vec<u8>) -> Result<R, E>,
    M: Fn(T, &Vec<u8>, R) -> Result<T, E>,
>(
    tree: &Tree,
    base_dirs: &[Vec<u8>],
    shared_path: &[u8],
    allowed_extensions: &[Vec<u8>],
    ignore_dotfiles: bool,
    open: O,
    merge: M,
) -> (out: Result<T, E>)
    requires
        ({
            let found = resolve(
                *tree,
                byte_strings(base_dirs@),
                shared_path@,
                byte_strings(allowed_extensions@),
                ignore_dotfiles,
            );
            &&& forall|location: &Vec<u8>|
                locates(found, location@) ==> #[trigger] call_requires(open, (location,))
            &&& forall|acc: T, name: &Vec<u8>, reader: R|
                found.contains_key(name@) ==> #[trigger] call_requires(merge, (acc, name, reader))
        }),
    ensures
        (exists|frags: Seq<Fragment>, start: T|
            {
                &&& ascending(pairs_of(frags))
                &&& map_of(pairs_of(frags)) == resolve(
                    *tree,
                    byte_strings(base_dirs@),
                    shared_path@,
                    byte_strings(allowed_extensions@),
                    ignore_dotfiles,
                )
                &&& call_ensures(T::default, (), start)
                &&& #[trigger] merged(open, merge, frags, start, out)
            }),
{
    let found = scan(tree, base_dirs, shared_path, allowed_extensions, ignore_dotfiles);
    let frags = found.fragments();
    let start = T::default();
    proof {
        assert forall|i: int| 0 <= i < frags@.len() implies #[trigger] call_requires(
            open,
            (&frags@[i].location,),
        ) by {
            lemma_map_of_pair(pairs_of(frags@), i);
            assert(found@[frags@[i].name@] == frags@[i].location@);
            assert(locates(found@, frags@[i].location@));
        }
        assert forall|i: int, acc: T, reader: R| 0 <= i < frags@.len() implies #[trigger] call_requires(
            merge,
            (acc, &frags@[i].name, reader),
        ) by {
            lemma_map_of_pair(pairs_of(frags@), i);
        }
    }
    let ghost from = start;
    let out = merge_fragments(frags, start, open, merge);
    assert(merged(open, merge, frags@, from, out));
    out
}

} // verus!
