//! The resolution map: fragment names and where each is found, kept in
//! ascending order of name.

use crate::bytes::{
    bytes_eq, bytes_lt, lemma_lex_irreflexive, lemma_lex_total, lemma_lex_transitive, lex_lt,
};
use vstd::prelude::*;

verus! {

/// One resolved fragment: its name and the path of the file that stands for it.
#[derive(Debug, Clone)]
pub struct Fragment {
    pub name: Vec<u8>,
    pub location: Vec<u8>,
}

/// The (name, location) pairs that a sequence of fragments holds, in order.
pub open spec fn pairs_of(frags: Seq<Fragment>) -> Seq<(Seq<u8>, Seq<u8>)> {
    Seq::new(frags.len(), |i: int| (frags[i].name@, frags[i].location@))
}

/// The names of the pairs rise strictly in byte-lexicographic order, so no
/// name occurs twice.
pub open spec fn ascending(pairs: Seq<(Seq<u8>, Seq<u8>)>) -> bool {
    forall|i: int, j: int|
        0 <= i < j < pairs.len() ==> lex_lt((#[trigger] pairs[i]).0, (#[trigger] pairs[j]).0)
}

/// Some pair carries the name `name`.
pub open spec fn names(pairs: Seq<(Seq<u8>, Seq<u8>)>, name: Seq<u8>) -> bool {
    exists|i: int| 0 <= i < pairs.len() && (#[trigger] pairs[i]).0 == name
}

/// The mapping that a sequence of pairs stands for: each name to the location
/// paired with it.
pub open spec fn map_of(pairs: Seq<(Seq<u8>, Seq<u8>)>) -> Map<Seq<u8>, Seq<u8>> {
    Map::new(
        |name: Seq<u8>| names(pairs, name),
        |name: Seq<u8>| pairs[choose|i: int| 0 <= i < pairs.len() && (#[trigger] pairs[i]).0 == name].1,
    )
}

/// Position `at` splits the pairs: the names before it come before `name`,
/// the names from it on do not.
pub open spec fn splits_at(pairs: Seq<(Seq<u8>, Seq<u8>)>, name: Seq<u8>, at: int) -> bool {
    &&& 0 <= at <= pairs.len()
    &&& forall|j: int| 0 <= j < at ==> lex_lt((#[trigger] pairs[j]).0, name)
    &&& forall|j: int| at <= j < pairs.len() ==> !lex_lt((#[trigger] pairs[j]).0, name)
}

/// In ascending pairs each pair is what the mapping holds for its name.
pub proof fn lemma_map_of_pair(pairs: Seq<(Seq<u8>, Seq<u8>)>, i: int)
    requires
        ascending(pairs),
        0 <= i < pairs.len(),
    ensures
        map_of(pairs).contains_key(pairs[i].0),
        map_of(pairs)[pairs[i].0] == pairs[i].1,
{
    let name = pairs[i].0;
    let k: int = choose|k: int| 0 <= k < pairs.len() && (#[trigger] pairs[k]).0 == name;
    lemma_lex_irreflexive(name);
    assert(k == i);
}

/// Where ascending pairs split at `at` for `name`, the name is present
/// exactly when the pair at `at` carries it.
pub proof fn lemma_split_decides(pairs: Seq<(Seq<u8>, Seq<u8>)>, name: Seq<u8>, at: int)
    requires
        ascending(pairs),
        splits_at(pairs, name, at),
    ensures
        map_of(pairs).contains_key(name) <==> (at < pairs.len() && pairs[at].0 == name),
{
    if names(pairs, name) {
        let k: int = choose|k: int| 0 <= k < pairs.len() && (#[trigger] pairs[k]).0 == name;
        lemma_lex_irreflexive(name);
        if k > at {
            // the pair at `at` comes before the one at `k`, which carries `name`
            assert(lex_lt(pairs[at].0, pairs[k].0));
        }
        assert(k == at);
    }
}

/// Putting a new name in at its split position keeps the pairs ascending and
/// adds the name to the mapping.
pub proof fn lemma_insert_pair(
    pairs: Seq<(Seq<u8>, Seq<u8>)>,
    at: int,
    name: Seq<u8>,
    location: Seq<u8>,
)
    requires
        ascending(pairs),
        splits_at(pairs, name, at),
        at == pairs.len() || pairs[at].0 != name,
    ensures
        ascending(pairs.insert(at, (name, location))),
        map_of(pairs.insert(at, (name, location))) == map_of(pairs).insert(name, location),
{
    let after = pairs.insert(at, (name, location));
    assert forall|i: int, j: int| 0 <= i < j < after.len() implies lex_lt(
        (#[trigger] after[i]).0,
        (#[trigger] after[j]).0,
    ) by {
        if j < at {
            assert(after[i] == pairs[i] && after[j] == pairs[j]);
        } else if j == at {
            assert(after[i] == pairs[i]);
        } else if i == at {
            assert(after[j] == pairs[j - 1]);
            lemma_lex_total(pairs[j - 1].0, name);
            if pairs[j - 1].0 == name {
                // then the pair at `at` would come before `name` itself
                assert(j - 1 > at);
                assert(lex_lt(pairs[at].0, pairs[j - 1].0));
            }
        } else if i < at {
            assert(after[i] == pairs[i] && after[j] == pairs[j - 1]);
        } else {
            assert(after[i] == pairs[i - 1] && after[j] == pairs[j - 1]);
        }
    }
    assert forall|n: Seq<u8>| names(after, n) <==> (n == name || names(pairs, n)) by {
        if names(after, n) {
            let k: int = choose|k: int| 0 <= k < after.len() && (#[trigger] after[k]).0 == n;
            if k < at {
                assert(pairs[k].0 == n);
            } else if k > at {
                assert(pairs[k - 1].0 == n);
            }
        }
        if n == name {
            assert(after[at].0 == n);
        }
        if names(pairs, n) {
            let k: int = choose|k: int| 0 <= k < pairs.len() && (#[trigger] pairs[k]).0 == n;
            if k < at {
                assert(after[k].0 == n);
            } else {
                assert(after[k + 1].0 == n);
            }
        }
    }
    assert forall|n: Seq<u8>| names(after, n) implies #[trigger] map_of(after)[n] == map_of(
        pairs,
    ).insert(name, location)[n] by {
        let k: int = choose|k: int| 0 <= k < after.len() && (#[trigger] after[k]).0 == n;
        lemma_map_of_pair(after, k);
        if k < at {
            lemma_map_of_pair(pairs, k);
        } else if k > at {
            lemma_map_of_pair(pairs, k - 1);
            lemma_map_of_pair(after, at);
            lemma_lex_irreflexive(name);
            assert(lex_lt(after[at].0, after[k].0));
        }
    }
    assert(map_of(after) =~= map_of(pairs).insert(name, location));
}

/// Giving the pair at `at` a new location keeps the pairs ascending and
/// changes the mapping at that name only.
pub proof fn lemma_replace_pair(pairs: Seq<(Seq<u8>, Seq<u8>)>, at: int, location: Seq<u8>)
    requires
        ascending(pairs),
        0 <= at < pairs.len(),
    ensures
        ascending(pairs.update(at, (pairs[at].0, location))),
        map_of(pairs.update(at, (pairs[at].0, location))) == map_of(pairs).insert(
            pairs[at].0,
            location,
        ),
{
    let name = pairs[at].0;
    let after = pairs.update(at, (name, location));
    assert forall|i: int, j: int| 0 <= i < j < after.len() implies lex_lt(
        (#[trigger] after[i]).0,
        (#[trigger] after[j]).0,
    ) by {
        assert(after[i].0 == pairs[i].0 && after[j].0 == pairs[j].0);
    }
    assert forall|n: Seq<u8>| names(after, n) <==> (n == name || names(pairs, n)) by {
        if names(after, n) {
            let k: int = choose|k: int| 0 <= k < after.len() && (#[trigger] after[k]).0 == n;
            assert(pairs[k].0 == n);
        }
        if n == name {
            assert(after[at].0 == n);
        }
        if names(pairs, n) {
            let k: int = choose|k: int| 0 <= k < pairs.len() && (#[trigger] pairs[k]).0 == n;
            assert(after[k].0 == n);
        }
    }
    assert forall|n: Seq<u8>| names(after, n) implies #[trigger] map_of(after)[n] == map_of(
        pairs,
    ).insert(name, location)[n] by {
        let k: int = choose|k: int| 0 <= k < after.len() && (#[trigger] after[k]).0 == n;
        lemma_map_of_pair(after, k);
        if k != at {
            lemma_map_of_pair(pairs, k);
            lemma_lex_irreflexive(name);
            if k < at {
                assert(lex_lt(pairs[k].0, pairs[at].0));
            } else {
                assert(lex_lt(pairs[at].0, pairs[k].0));
            }
        }
    }
    assert(map_of(after) =~= map_of(pairs).insert(name, location));
}

/// Taking the pair at `at` out keeps the pairs ascending and takes its name
/// out of the mapping.
pub proof fn lemma_remove_pair(pairs: Seq<(Seq<u8>, Seq<u8>)>, at: int)
    requires
        ascending(pairs),
        0 <= at < pairs.len(),
    ensures
        ascending(pairs.remove(at)),
        map_of(pairs.remove(at)) == map_of(pairs).remove(pairs[at].0),
{
    let name = pairs[at].0;
    let after = pairs.remove(at);
    assert forall|i: int, j: int| 0 <= i < j < after.len() implies lex_lt(
        (#[trigger] after[i]).0,
        (#[trigger] after[j]).0,
    ) by {
        let si: int = if i < at { i } else { i + 1 };
        let sj: int = if j < at { j } else { j + 1 };
        assert(after[i] == pairs[si] && after[j] == pairs[sj]);
    }
    lemma_lex_irreflexive(name);
    assert forall|n: Seq<u8>| names(after, n) <==> (n != name && names(pairs, n)) by {
        if names(after, n) {
            let k: int = choose|k: int| 0 <= k < after.len() && (#[trigger] after[k]).0 == n;
            let sk: int = if k < at { k } else { k + 1 };
            assert(pairs[sk].0 == n);
            if sk < at {
                assert(lex_lt(pairs[sk].0, pairs[at].0));
            } else {
                assert(lex_lt(pairs[at].0, pairs[sk].0));
            }
        }
        if n != name && names(pairs, n) {
            let k: int = choose|k: int| 0 <= k < pairs.len() && (#[trigger] pairs[k]).0 == n;
            if k < at {
                assert(after[k].0 == n);
            } else {
                assert(after[k - 1].0 == n);
            }
        }
    }
    assert forall|n: Seq<u8>| names(after, n) implies #[trigger] map_of(after)[n] == map_of(
        pairs,
    ).remove(name)[n] by {
        let k: int = choose|k: int| 0 <= k < after.len() && (#[trigger] after[k]).0 == n;
        let sk: int = if k < at { k } else { k + 1 };
        lemma_map_of_pair(after, k);
        lemma_map_of_pair(pairs, sk);
    }
    assert(map_of(after) =~= map_of(pairs).remove(name));
}

/// Ascending pairs stand for a mapping with as many names as there are pairs.
pub proof fn lemma_domain_size(pairs: Seq<(Seq<u8>, Seq<u8>)>)
    requires
        ascending(pairs),
    ensures
        map_of(pairs).dom().finite(),
        map_of(pairs).dom().len() == pairs.len(),
    decreases pairs.len(),
{
    if pairs.len() == 0 {
        assert(map_of(pairs).dom() =~= Set::<Seq<u8>>::empty());
    } else {
        let front = pairs.drop_last();
        let last = pairs.last();
        let at: int = front.len() as int;
        assert forall|i: int, j: int| 0 <= i < j < front.len() implies lex_lt(
            (#[trigger] front[i]).0,
            (#[trigger] front[j]).0,
        ) by {
            assert(front[i] == pairs[i] && front[j] == pairs[j]);
        }
        assert forall|j: int| 0 <= j < at implies lex_lt((#[trigger] front[j]).0, last.0) by {
            assert(front[j] == pairs[j]);
            assert(lex_lt(pairs[j].0, pairs[at].0));
        }
        lemma_domain_size(front);
        lemma_split_decides(front, last.0, at);
        lemma_insert_pair(front, at, last.0, last.1);
        assert(front.insert(at, (last.0, last.1)) =~= pairs);
        assert(map_of(pairs).dom() =~= map_of(front).dom().insert(last.0));
    }
}

/// The resolution map of one scan: for each fragment name the path of the
/// file that stands for it.
///
/// The fragments are kept in strictly ascending byte-lexicographic order of
/// their names, which is the order in which they are handed out.
#[derive(Debug)]
pub struct ResolutionMap {
    entries: Vec<Fragment>,
}

impl View for ResolutionMap {
    type V = Map<Seq<u8>, Seq<u8>>;

    /// The mapping from each name to its location.
    open spec fn view(&self) -> Map<Seq<u8>, Seq<u8>> {
        map_of(self.pairs())
    }
}

impl ResolutionMap {
    /// The (name, location) pairs in the order in which they are handed out.
    pub closed spec fn pairs(&self) -> Seq<(Seq<u8>, Seq<u8>)> {
        pairs_of(self.entries@)
    }

    /// The names rise strictly, so each occurs once. Every map is kept so.
    #[verifier::type_invariant]
    pub open spec fn wf(&self) -> bool {
        ascending(self.pairs())
    }

    /// A map without fragments.
    pub fn new() -> (out: Self)
        ensures
            out.wf(),
            out.pairs() == Seq::<(Seq<u8>, Seq<u8>)>::empty(),
            out@ == Map::<Seq<u8>, Seq<u8>>::empty(),
    {
        let out = ResolutionMap { entries: Vec::new() };
        assert(out.pairs() =~= Seq::<(Seq<u8>, Seq<u8>)>::empty());
        assert(out@ =~= Map::<Seq<u8>, Seq<u8>>::empty());
        out
    }

    /// The number of fragments, which is the number of names.
    pub fn len(&self) -> (n: usize)
        ensures
            self.wf(),
            n == self.pairs().len(),
            self@.dom().finite(),
            n == self@.dom().len(),
    {
        proof {
            use_type_invariant(self);
            lemma_domain_size(self.pairs());
        }
        self.entries.len()
    }

    /// Whether the map holds no fragment.
    pub fn is_empty(&self) -> (out: bool)
        ensures
            self.wf(),
            out == (self.pairs().len() == 0),
            out == (self@ == Map::<Seq<u8>, Seq<u8>>::empty()),
    {
        proof {
            use_type_invariant(self);
            lemma_domain_size(self.pairs());
            if self.pairs().len() == 0 {
                assert(self@ =~= Map::<Seq<u8>, Seq<u8>>::empty());
            }
        }
        self.entries.len() == 0
    }

    /// The fragments in ascending order of name: one for each name of the
    /// map, with the location recorded for it.
    pub fn fragments(&self) -> (out: &[Fragment])
        ensures
            self.wf(),
            pairs_of(out@) == self.pairs(),
            out@.len() == self@.dom().len(),
            forall|i: int|
                0 <= i < out@.len() ==> self@.contains_key((#[trigger] out@[i]).name@)
                    && self@[out@[i].name@] == out@[i].location@,
            forall|i: int, j: int|
                0 <= i < j < out@.len() ==> lex_lt(
                    (#[trigger] out@[i]).name@,
                    (#[trigger] out@[j]).name@,
                ),
    {
        proof {
            use_type_invariant(self);
            let pairs = self.pairs();
            lemma_domain_size(pairs);
            assert forall|i: int| 0 <= i < self.entries@.len() implies self@.contains_key(
                (#[trigger] self.entries@[i]).name@,
            ) && self@[self.entries@[i].name@] == self.entries@[i].location@ by {
                lemma_map_of_pair(pairs, i);
            }
            assert forall|i: int, j: int| 0 <= i < j < self.entries@.len() implies lex_lt(
                (#[trigger] self.entries@[i]).name@,
                (#[trigger] self.entries@[j]).name@,
            ) by {
                assert(lex_lt(pairs[i].0, pairs[j].0));
            }
        }
        self.entries.as_slice()
    }

    /// The position at which `name` stands or would have to stand.
    fn position(&self, name: &[u8]) -> (at: usize)
        ensures
            splits_at(self.pairs(), name@, at as int),
    {
        proof {
            use_type_invariant(self);
        }
        let ghost pairs = self.pairs();
        let mut lo: usize = 0;
        let mut hi: usize = self.entries.len();
        while lo < hi
            invariant
                pairs == pairs_of(self.entries@),
                ascending(pairs),
                lo <= hi <= self.entries.len(),
                forall|j: int| 0 <= j < lo ==> lex_lt((#[trigger] pairs[j]).0, name@),
                forall|j: int| hi <= j < pairs.len() ==> !lex_lt((#[trigger] pairs[j]).0, name@),
            decreases hi - lo,
        {
            let mid: usize = lo + (hi - lo) / 2;
            if bytes_lt(self.entries[mid].name.as_slice(), name) {
                proof {
                    assert(pairs[mid as int].0 == self.entries@[mid as int].name@);
                    assert forall|j: int| 0 <= j < mid + 1 implies lex_lt(
                        (#[trigger] pairs[j]).0,
                        name@,
                    ) by {
                        if j < mid {
                            assert(lex_lt(pairs[j].0, pairs[mid as int].0));
                            lemma_lex_transitive(pairs[j].0, pairs[mid as int].0, name@);
                        }
                    }
                }
                lo = mid + 1;
            } else {
                proof {
                    assert(pairs[mid as int].0 == self.entries@[mid as int].name@);
                    assert forall|j: int| mid <= j < pairs.len() implies !lex_lt(
                        (#[trigger] pairs[j]).0,
                        name@,
                    ) by {
                        if j > mid && lex_lt(pairs[j].0, name@) {
                            assert(lex_lt(pairs[mid as int].0, pairs[j].0));
                            lemma_lex_transitive(pairs[mid as int].0, pairs[j].0, name@);
                        }
                    }
                }
                hi = mid;
            }
        }
        lo
    }

    /// The location recorded for `name`, if the map holds the name.
    pub fn get(&self, name: &[u8]) -> (out: Option<&Vec<u8>>)
        ensures
            self.wf(),
            out is Some <==> self@.contains_key(name@),
            out matches Some(location) ==> self@[name@] == location@,
    {
        proof {
            use_type_invariant(self);
        }
        let at: usize = self.position(name);
        proof {
            lemma_split_decides(self.pairs(), name@, at as int);
        }
        if at < self.entries.len() && bytes_eq(self.entries[at].name.as_slice(), name) {
            proof {
                lemma_map_of_pair(self.pairs(), at as int);
            }
            Some(&self.entries[at].location)
        } else {
            None
        }
    }

    /// Records `location` for `name`, in place of what was recorded for that
    /// name before, and returns what was.
    pub fn insert(&mut self, name: Vec<u8>, location: Vec<u8>) -> (previous: Option<Vec<u8>>)
        ensures
            final(self).wf(),
            final(self)@ == old(self)@.insert(name@, location@),
            previous is Some <==> old(self)@.contains_key(name@),
            previous matches Some(was) ==> old(self)@[name@] == was@,
    {
        proof {
            use_type_invariant(&*self);
        }
        let ghost before = self.pairs();
        let at: usize = self.position(name.as_slice());
        proof {
            lemma_split_decides(before, name@, at as int);
        }
        let found = at < self.entries.len() && bytes_eq(
            self.entries[at].name.as_slice(),
            name.as_slice(),
        );
        let mut entries: Vec<Fragment> = Vec::new();
        core::mem::swap(&mut self.entries, &mut entries);
        let previous = if found {
            proof {
                lemma_map_of_pair(before, at as int);
                lemma_replace_pair(before, at as int, location@);
            }
            let was = entries.remove(at);
            entries.insert(at, Fragment { name, location });
            proof {
                assert(pairs_of(entries@) =~= before.update(at as int, (name@, location@)));
            }
            Some(was.location)
        } else {
            proof {
                lemma_insert_pair(before, at as int, name@, location@);
            }
            entries.insert(at, Fragment { name, location });
            proof {
                assert(pairs_of(entries@) =~= before.insert(at as int, (name@, location@)));
            }
            None
        };
        core::mem::swap(&mut self.entries, &mut entries);
        previous
    }

    /// Forgets `name`, and returns the location that was recorded for it.
    pub fn remove(&mut self, name: &[u8]) -> (previous: Option<Vec<u8>>)
        ensures
            final(self).wf(),
            final(self)@ == old(self)@.remove(name@),
            previous is Some <==> old(self)@.contains_key(name@),
            previous matches Some(was) ==> old(self)@[name@] == was@,
    {
        proof {
            use_type_invariant(&*self);
        }
        let ghost before = self.pairs();
        let at: usize = self.position(name);
        proof {
            lemma_split_decides(before, name@, at as int);
        }
        if at < self.entries.len() && bytes_eq(self.entries[at].name.as_slice(), name) {
            proof {
                lemma_map_of_pair(before, at as int);
                lemma_remove_pair(before, at as int);
            }
            let mut entries: Vec<Fragment> = Vec::new();
            core::mem::swap(&mut self.entries, &mut entries);
            let was = entries.remove(at);
            proof {
                assert(pairs_of(entries@) =~= before.remove(at as int));
            }
            core::mem::swap(&mut self.entries, &mut entries);
            Some(was.location)
        } else {
            proof {
                assert(self@ =~= self@.remove(name@));
            }
            None
        }
    }
}

} // verus!
