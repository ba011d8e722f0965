//! Libraries the scene runtime resolves content-addressed ids against:
//! prefabs by prefab id, and opaque environment payloads by skybox asset
//! id. Both are maps from a 32-byte id to a value: inserting under an id
//! that is present replaces its value.

use vstd::prelude::*;
use crate::content::{AssetId, PrefabId};
use crate::prefab::Prefab;

verus! {

/// A map from 32-byte ids to values, held as two parallel lists with no id
/// listed twice.
#[derive(Debug)]
pub struct IdMap<V> {
    keys: Vec<AssetId>,
    values: Vec<V>,
}

/// The byte string of an id.
pub open spec fn id_bytes(id: AssetId) -> Seq<u8> {
    id.0@
}

impl<V> IdMap<V> {
    /// The ids, as byte strings, in insertion order.
    pub closed spec fn key_seq(&self) -> Seq<Seq<u8>> {
        self.keys@.map_values(|k: AssetId| id_bytes(k))
    }

    /// Well-formed: as many values as ids, and no id twice.
    pub closed spec fn wf(&self) -> bool {
        &&& self.keys@.len() == self.values@.len()
        &&& self.key_seq().no_duplicates()
    }

    /// The position of an id.
    closed spec fn pos(&self, k: Seq<u8>) -> int {
        choose|i: int| 0 <= i < self.keys@.len() && id_bytes(self.keys@[i]) == k
    }

    /// The map's contents.
    pub closed spec fn view(&self) -> Map<Seq<u8>, V> {
        Map::new(
            |k: Seq<u8>| exists|i: int| 0 <= i < self.keys@.len() && id_bytes(self.keys@[i]) == k,
            |k: Seq<u8>| self.values@[self.pos(k)],
        )
    }

    /// In a well-formed map the id at position `i` maps to the value at `i`.
    proof fn lemma_at(&self, i: int)
        requires
            self.wf(),
            0 <= i < self.keys@.len(),
        ensures
            self.view().dom().contains(id_bytes(self.keys@[i])),
            self.view()[id_bytes(self.keys@[i])] == self.values@[i],
    {
        let k = id_bytes(self.keys@[i]);
        assert(self.view().dom().contains(k));
        let p = self.pos(k);
        assert(self.key_seq()[p] == k && self.key_seq()[i] == k);
    }

    /// The number of entries equals the number of ids in the domain.
    proof fn lemma_len(&self)
        requires
            self.wf(),
        ensures
            self.view().dom().len() == self.keys@.len(),
            self.view().dom().finite(),
    {
        let ks = self.key_seq();
        assert(self.view().dom() =~= ks.to_set()) by {
            assert forall|k: Seq<u8>| self.view().dom().contains(k) <==> ks.to_set().contains(k) by {
                if self.view().dom().contains(k) {
                    let i = choose|i: int| 0 <= i < self.keys@.len() && id_bytes(self.keys@[i]) == k;
                    assert(ks[i] == k);
                }
                if ks.to_set().contains(k) {
                    let i = choose|i: int| 0 <= i < ks.len() && ks[i] == k;
                    assert(id_bytes(self.keys@[i]) == k);
                }
            }
        }
        ks.unique_seq_to_set();
        vstd::seq_lib::seq_to_set_is_finite(ks);
    }

    /// An empty map.
    pub fn new() -> (r: Self)
        ensures
            r.wf(),
            r.view() == Map::<Seq<u8>, V>::empty(),
    {
        let r = IdMap { keys: Vec::new(), values: Vec::new() };
        assert(r.key_seq() =~= Seq::<Seq<u8>>::empty());
        assert(r.view() =~= Map::<Seq<u8>, V>::empty());
        r
    }

    /// The position of `id`, if present.
    fn find(&self, id: &AssetId) -> (r: Option<usize>)
        requires
            self.wf(),
        ensures
            match r {
                Some(i) => i < self.keys@.len() && id_bytes(self.keys@[i as int]) == id_bytes(*id),
                None => !self.view().dom().contains(id_bytes(*id)),
            },
    {
        let mut i: usize = 0;
        while i < self.keys.len()
            invariant
                i <= self.keys@.len(),
                forall|j: int| 0 <= j < i ==> id_bytes(#[trigger] self.keys@[j]) != id_bytes(*id),
            decreases self.keys@.len() - i,
        {
            if self.keys[i].same(id) {
                return Some(i);
            }
            i = i + 1;
        }
        None
    }

    /// Inserts `value` under `id`, replacing the value already there.
    pub fn insert(&mut self, id: AssetId, value: V)
        requires
            old(self).wf(),
        ensures
            final(self).wf(),
            final(self).view() == old(self).view().insert(id_bytes(id), value),
    {
        let ghost before = *self;
        match self.find(&id) {
            Some(i) => {
                self.values.set(i, value);
                proof {
                    assert(self.key_seq() =~= before.key_seq());
                    assert(self.view() =~= before.view().insert(id_bytes(id), value)) by {
                        assert forall|k: Seq<u8>| #[trigger] self.view().dom().contains(k) implies self.view()[k]
                            == before.view().insert(id_bytes(id), value)[k] by {
                            let p = self.pos(k);
                            assert(self.key_seq()[p] == k);
                            if k == id_bytes(id) {
                                assert(self.key_seq()[i as int] == k);
                            } else {
                                before.lemma_at(p);
                            }
                        }
                    }
                }
            },
            None => {
                self.keys.push(id);
                self.values.push(value);
                proof {
                    let n = before.keys@.len() as int;
                    assert(self.key_seq() =~= before.key_seq().push(id_bytes(id)));
                    assert(self.key_seq().no_duplicates()) by {
                        assert forall|a: int, b: int| 0 <= a < self.key_seq().len() && 0 <= b < self.key_seq().len() && a != b implies self.key_seq()[a] != self.key_seq()[b] by {
                            if a == n {
                                assert(before.view().dom().contains(self.key_seq()[b]) || self.key_seq()[b] != id_bytes(id)) by {
                                    assert(id_bytes(before.keys@[b]) == self.key_seq()[b]);
                                }
                            } else if b == n {
                                assert(id_bytes(before.keys@[a]) == self.key_seq()[a]);
                            }
                        }
                    }
                    assert(self.view() =~= before.view().insert(id_bytes(id), value)) by {
                        assert forall|k: Seq<u8>| self.view().dom().contains(k) <==> before.view().insert(id_bytes(id), value).dom().contains(k) by {
                            if self.view().dom().contains(k) {
                                let i = choose|i: int| 0 <= i < self.keys@.len() && id_bytes(self.keys@[i]) == k;
                                if i < n {
                                    assert(id_bytes(before.keys@[i]) == k);
                                }
                            }
                            if before.view().dom().contains(k) {
                                let i = choose|i: int| 0 <= i < before.keys@.len() && id_bytes(before.keys@[i]) == k;
                                assert(id_bytes(self.keys@[i]) == k);
                            }
                            if k == id_bytes(id) {
                                assert(id_bytes(self.keys@[n]) == k);
                            }
                        }
                        assert forall|k: Seq<u8>| #[trigger] self.view().dom().contains(k) implies self.view()[k]
                            == before.view().insert(id_bytes(id), value)[k] by {
                            self.lemma_at(self.pos(k));
                            let p = self.pos(k);
                            assert(self.key_seq()[p] == k);
                            if k == id_bytes(id) {
                                self.lemma_at(n);
                            } else {
                                assert(p < n);
                                before.lemma_at(p);
                            }
                        }
                    }
                }
            },
        }
    }

    /// The value under `id`, if present.
    pub fn get(&self, id: &AssetId) -> (r: Option<&V>)
        requires
            self.wf(),
        ensures
            match r {
                Some(v) => self.view().dom().contains(id_bytes(*id)) && *v == self.view()[id_bytes(*id)],
                None => !self.view().dom().contains(id_bytes(*id)),
            },
    {
        match self.find(id) {
            Some(i) => {
                proof {
                    self.lemma_at(i as int);
                }
                Some(&self.values[i])
            },
            None => None,
        }
    }

    /// The number of entries.
    pub fn len(&self) -> (r: usize)
        requires
            self.wf(),
        ensures
            r == self.view().dom().len(),
    {
        proof {
            self.lemma_len();
        }
        self.keys.len()
    }

    /// Whether the map has no entry.
    pub fn is_empty(&self) -> (r: bool)
        requires
            self.wf(),
        ensures
            r <==> self.view().dom().len() == 0,
    {
        proof {
            self.lemma_len();
        }
        self.keys.len() == 0
    }
}

/// Prefabs available to the scene runtime, by prefab id.
#[derive(Debug)]
pub struct PrefabLibrary {
    prefabs: IdMap<Prefab>,
}

/// The id bytes a prefab is filed under.
pub open spec fn prefab_key(id: PrefabId) -> Seq<u8> {
    id_bytes(id.0)
}

impl PrefabLibrary {
    #[verifier::type_invariant]
    closed spec fn inv(&self) -> bool {
        self.prefabs.wf()
    }

    /// The library's contents, by prefab id bytes.
    pub closed spec fn view(&self) -> Map<Seq<u8>, Prefab> {
        self.prefabs.view()
    }

    /// An empty library.
    pub fn new() -> (r: Self)
        ensures
            r.view() == Map::<Seq<u8>, Prefab>::empty(),
    {
        PrefabLibrary { prefabs: IdMap::new() }
    }

    /// Inserts or replaces a prefab, filed under its own id.
    pub fn insert(&mut self, prefab: Prefab)
        ensures
            final(self).view() == old(self).view().insert(prefab_key(prefab.prefab_id), prefab),
    {
        proof {
            use_type_invariant(&*self);
        }
        let id = prefab.prefab_id.0;
        let mut prefabs = IdMap::new();
        std::mem::swap(&mut prefabs, &mut self.prefabs);
        prefabs.insert(id, prefab);
        self.prefabs = prefabs;
    }

    /// Resolves a prefab by id.
    pub fn get(&self, id: &PrefabId) -> (r: Option<&Prefab>)
        ensures
            match r {
                Some(p) => self.view().dom().contains(prefab_key(*id)) && *p == self.view()[prefab_key(*id)],
                None => !self.view().dom().contains(prefab_key(*id)),
            },
    {
        proof {
            use_type_invariant(self);
        }
        self.prefabs.get(&id.0)
    }

    /// The number of registered prefabs.
    pub fn len(&self) -> (r: usize)
        ensures
            r == self.view().dom().len(),
    {
        proof {
            use_type_invariant(self);
        }
        self.prefabs.len()
    }

    /// Whether the library is empty.
    pub fn is_empty(&self) -> (r: bool)
        ensures
            r <==> self.view().dom().len() == 0,
    {
        proof {
            use_type_invariant(self);
        }
        self.prefabs.is_empty()
    }
}

impl Default for PrefabLibrary {
    fn default() -> (r: Self)
        ensures
            r.view() == Map::<Seq<u8>, Prefab>::empty(),
    {
        PrefabLibrary::new()
    }
}

/// Opaque environment payloads (such as baked environment bytes), by
/// skybox asset id.
#[derive(Debug)]
pub struct EnvironmentLibrary {
    environments: IdMap<Vec<u8>>,
}

impl EnvironmentLibrary {
    #[verifier::type_invariant]
    closed spec fn inv(&self) -> bool {
        self.environments.wf()
    }

    /// The library's contents: payload bytes by asset id bytes.
    pub closed spec fn view(&self) -> Map<Seq<u8>, Seq<u8>> {
        self.environments.view().map_values(|v: Vec<u8>| v@)
    }

    /// An empty library.
    pub fn new() -> (r: Self)
        ensures
            r.view() == Map::<Seq<u8>, Seq<u8>>::empty(),
    {
        let r = EnvironmentLibrary { environments: IdMap::new() };
        assert(r.view() =~= Map::<Seq<u8>, Seq<u8>>::empty());
        r
    }

    /// Inserts or replaces the payload for a skybox asset id.
    pub fn insert(&mut self, id: AssetId, bytes: Vec<u8>)
        ensures
            final(self).view() == old(self).view().insert(id_bytes(id), bytes@),
    {
        proof {
            use_type_invariant(&*self);
        }
        let ghost before = self.environments.view();
        let ghost b = bytes@;
        let mut environments = IdMap::new();
        std::mem::swap(&mut environments, &mut self.environments);
        environments.insert(id, bytes);
        self.environments = environments;
        proof {
            assert(self.view() =~= before.map_values(|v: Vec<u8>| v@).insert(id_bytes(id), b));
        }
    }

    /// The payload for a skybox asset id.
    pub fn get(&self, id: &AssetId) -> (r: Option<&[u8]>)
        ensures
            match r {
                Some(p) => self.view().dom().contains(id_bytes(*id)) && p@ == self.view()[id_bytes(*id)],
                None => !self.view().dom().contains(id_bytes(*id)),
            },
    {
        proof {
            use_type_invariant(self);
        }
        match self.environments.get(id) {
            Some(v) => Some(v.as_slice()),
            None => None,
        }
    }
}

impl Default for EnvironmentLibrary {
    fn default() -> (r: Self)
        ensures
            r.view() == Map::<Seq<u8>, Seq<u8>>::empty(),
    {
        EnvironmentLibrary::new()
    }
}

/// Reading a library back after an insert: the inserted prefab is found
/// under its id, every other id resolves as before, and the count grows by
/// one exactly when the id was new.
pub proof fn law_prefab_library_insert_then_get(before: Map<Seq<u8>, Prefab>, prefab: Prefab, other: Seq<u8>)
    requires
        before.dom().finite(),
    ensures
        ({
            let after = before.insert(prefab_key(prefab.prefab_id), prefab);
            &&& after.dom().contains(prefab_key(prefab.prefab_id))
            &&& after[prefab_key(prefab.prefab_id)] == prefab
            &&& other != prefab_key(prefab.prefab_id) ==> (after.dom().contains(other) == before.dom().contains(other)
                && (before.dom().contains(other) ==> after[other] == before[other]))
            &&& after.dom().len() == before.dom().len() + (if before.dom().contains(prefab_key(prefab.prefab_id)) {
                0int
            } else {
                1int
            })
        }),
{
    let k = prefab_key(prefab.prefab_id);
    let after = before.insert(k, prefab);
    if before.dom().contains(k) {
        assert(after.dom() =~= before.dom());
    } else {
        assert(after.dom() =~= before.dom().insert(k));
    }
}

} // verus!
