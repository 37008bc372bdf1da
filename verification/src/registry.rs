//! The identifier registry: every distinct participant identifier gets a
//! small integer, its surrogate key, in the order of first appearance.

use vstd::hash_map::StringHashMap;
use vstd::prelude::*;

verus! {

/// The identifiers known after `s` has been seen: `s` goes to the end
/// unless it is known already.
pub open spec fn learn(known: Seq<Seq<char>>, s: Seq<char>) -> Seq<Seq<char>> {
    if known.contains(s) {
        known
    } else {
        known.push(s)
    }
}

/// The identifiers known after each of `inputs` has been seen in turn.
pub open spec fn learn_all(known: Seq<Seq<char>>, inputs: Seq<Seq<char>>) -> Seq<Seq<char>>
    decreases inputs.len(),
{
    if inputs.len() == 0 {
        known
    } else {
        learn(learn_all(known, inputs.drop_last()), inputs.last())
    }
}

/// The surrogate key of the known identifier `s`: its place among the
/// known identifiers, counted from 1.
pub open spec fn surrogate(known: Seq<Seq<char>>, s: Seq<char>) -> int {
    known.index_of(s) + 1
}

/// The identifier at place `k` has the surrogate key `k + 1`: the keys
/// are dense, they start at 1, and the k-th distinct identifier seen has
/// the key k.
pub proof fn lemma_surrogate_dense(known: Seq<Seq<char>>, k: int)
    requires
        known.no_duplicates(),
        0 <= k < known.len(),
    ensures
        surrogate(known, known[k]) == k + 1,
{
    let i = known.index_of(known[k]);
    assert(0 <= i < known.len() && known[i] == known[k]);
}

/// Every known identifier has a key between 1 and the number of known
/// identifiers, and the identifier stands at the place that its key names.
pub proof fn lemma_surrogate_range(known: Seq<Seq<char>>, s: Seq<char>)
    requires
        known.contains(s),
    ensures
        1 <= surrogate(known, s) <= known.len(),
        known[surrogate(known, s) - 1] == s,
{
    let i = known.index_of(s);
    assert(0 <= i < known.len() && known[i] == s);
}

/// Two different known identifiers have different surrogate keys.
pub proof fn lemma_surrogates_distinct(known: Seq<Seq<char>>, s: Seq<char>, t: Seq<char>)
    requires
        known.contains(s),
        known.contains(t),
        s != t,
    ensures
        surrogate(known, s) != surrogate(known, t),
{
    lemma_surrogate_range(known, s);
    lemma_surrogate_range(known, t);
}

/// An identifier that is seen for the first time gets the next key; one
/// that is known keeps its key, whatever identifier is seen.
pub proof fn lemma_learn(known: Seq<Seq<char>>, s: Seq<char>, seen: Seq<char>)
    requires
        known.no_duplicates(),
    ensures
        learn(known, seen).no_duplicates(),
        learn(known, seen).contains(seen),
        !known.contains(seen) ==> surrogate(learn(known, seen), seen) == known.len() + 1,
        known.contains(s) ==> learn(known, seen).contains(s) && surrogate(learn(known, seen), s)
            == surrogate(known, s),
{
    let after = learn(known, seen);
    if known.contains(seen) {
    } else {
        assert(after[known.len() as int] == seen);
        assert forall|i: int, j: int|
            0 <= i < after.len() && 0 <= j < after.len() && i != j implies after[i] != after[j] by {
            if i < known.len() {
                assert(known.contains(after[i]));
            }
            if j < known.len() {
                assert(known.contains(after[j]));
            }
        }
        lemma_surrogate_dense(after, known.len() as int);
    }
    if known.contains(s) {
        lemma_surrogate_range(known, s);
        let k = surrogate(known, s) - 1;
        assert(after[k] == s);
        lemma_surrogate_dense(after, k);
    }
}

/// Within a run an identifier keeps its surrogate key: once `s` is known,
/// it has the same key after any further identifiers have been seen.
pub proof fn lemma_surrogate_stable(known: Seq<Seq<char>>, s: Seq<char>, inputs: Seq<Seq<char>>)
    requires
        known.no_duplicates(),
        known.contains(s),
    ensures
        learn_all(known, inputs).no_duplicates(),
        learn_all(known, inputs).contains(s),
        surrogate(learn_all(known, inputs), s) == surrogate(known, s),
    decreases inputs.len(),
{
    if inputs.len() > 0 {
        lemma_surrogate_stable(known, s, inputs.drop_last());
        lemma_learn(learn_all(known, inputs.drop_last()), s, inputs.last());
    }
}

/// Assigns surrogate keys to identifiers. Its view is the sequence of the
/// distinct identifiers resolved so far, in the order of first appearance.
pub struct IdentifierRegistry {
    ids: StringHashMap<i64>,
    count: i64,
    order: Ghost<Seq<Seq<char>>>,
}

impl View for IdentifierRegistry {
    type V = Seq<Seq<char>>;

    closed spec fn view(&self) -> Seq<Seq<char>> {
        self.order@
    }
}

impl IdentifierRegistry {
    /// The counter and the map agree with the view: the counter is the
    /// number of identifiers, and the map takes each to its surrogate key.
    pub closed spec fn wf(&self) -> bool {
        &&& self.count == self.order@.len()
        &&& self.order@.no_duplicates()
        &&& forall|s: Seq<char>| self.ids@.contains_key(s) <==> self.order@.contains(s)
        &&& forall|k: int|
            0 <= k < self.order@.len() ==> self.ids@[#[trigger] self.order@[k]] == k + 1
    }

    /// A well-formed registry holds no identifier twice.
    pub proof fn lemma_distinct(&self)
        requires
            self.wf(),
        ensures
            self@.no_duplicates(),
            self@.len() <= i64::MAX,
    {
    }

    /// A registry that knows no identifier.
    pub fn new() -> (registry: Self)
        ensures
            registry.wf(),
            registry@ == Seq::<Seq<char>>::empty(),
    {
        IdentifierRegistry { ids: StringHashMap::new(), count: 0, order: Ghost(Seq::empty()) }
    }

    /// A registry that knows no identifier, with room for `capacity` of
    /// them before its map grows.
    pub fn with_capacity(capacity: usize) -> (registry: Self)
        ensures
            registry.wf(),
            registry@ == Seq::<Seq<char>>::empty(),
    {
        IdentifierRegistry {
            ids: StringHashMap::with_capacity(capacity),
            count: 0,
            order: Ghost(Seq::empty()),
        }
    }

    /// The number of identifiers known, which is also the last key given.
    pub fn len(&self) -> (count: i64)
        requires
            self.wf(),
        ensures
            count == self@.len(),
    {
        self.count
    }

    /// The surrogate key of `identifier`, if it is known.
    pub fn lookup(&self, identifier: &str) -> (id: Option<i64>)
        requires
            self.wf(),
        ensures
            id == if self@.contains(identifier@) {
                Some(surrogate(self@, identifier@) as i64)
            } else {
                None
            },
    {
        match self.ids.get(identifier) {
            Some(id) => {
                proof {
                    lemma_surrogate_range(self.order@, identifier@);
                }
                Some(*id)
            },
            None => None,
        }
    }

    /// Gives the surrogate key of `identifier`. A known identifier keeps
    /// its key and the registry stays as it is; a new one gets the next
    /// key, one more than the number of identifiers known so far. Only a
    /// new identifier needs a key that is still free.
    pub fn resolve(&mut self, identifier: &str) -> (id: i64)
        requires
            old(self).wf(),
            old(self)@.contains(identifier@) || old(self)@.len() < i64::MAX,
        ensures
            final(self).wf(),
            final(self)@ == learn(old(self)@, identifier@),
            id == surrogate(final(self)@, identifier@),
    {
        proof {
            lemma_learn(self.order@, identifier@, identifier@);
        }
        match self.ids.get(identifier) {
            Some(known) => {
                proof {
                    lemma_surrogate_range(self.order@, identifier@);
                }
                *known
            },
            None => {
                let ghost before = self.order@;
                let ghost map_before = self.ids@;
                self.count = self.count + 1;
                let id = self.count;
                self.ids.insert(identifier.to_owned(), id);
                self.order = Ghost(before.push(identifier@));
                proof {
                    let after = self.order@;
                    assert forall|s: Seq<char>| self.ids@.contains_key(s) <==> after.contains(
                        s,
                    ) by {
                        if before.contains(s) {
                            let i = before.index_of(s);
                            assert(after[i] == s);
                        }
                        if s == identifier@ {
                            assert(after[before.len() as int] == s);
                        }
                    }
                    assert forall|k: int| 0 <= k < after.len() implies self.ids@[#[trigger] after[k]]
                        == k + 1 by {
                        if k < before.len() {
                            assert(after[k] == before[k]);
                            assert(before.contains(before[k]));
                        }
                    }
                }
                id
            },
        }
    }
}

} // verus!
