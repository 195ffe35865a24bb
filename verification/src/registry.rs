//! The type registry: names for dynamically discovered server types,
//! keyed by type id, with cache tombstones per type.
use vstd::prelude::*;

use crate::value::CdcList;

verus! {

/// The view of string pairs as character-sequence pairs.
pub open spec fn pairs_view(v: Seq<(String, String)>) -> Seq<(Seq<char>, Seq<char>)> {
    Seq::new(v.len(), |i: int| (v[i].0@, v[i].1@))
}

/// True when the association holds the key.
pub open spec fn assoc_has(ps: Seq<(Seq<char>, Seq<char>)>, k: Seq<char>) -> bool {
    exists|i: int| 0 <= i < ps.len() && ps[i].0 == k
}

/// The value under the key's first occurrence.
pub open spec fn assoc_get(ps: Seq<(Seq<char>, Seq<char>)>, k: Seq<char>) -> Seq<char>
    decreases ps,
{
    if ps.len() == 0 {
        Seq::empty()
    } else if ps.first().0 == k {
        ps.first().1
    } else {
        assoc_get(ps.drop_first(), k)
    }
}

/// Manages the names of dynamically registered server types.
pub struct TypeRegistry {
    registered_types: Vec<(String, String)>,
    cached_instances: Vec<(String, CdcList)>,
}

impl TypeRegistry {
    /// The registered pairs of type id and type name, ids unique.
    pub closed spec fn types(self) -> Seq<(Seq<char>, Seq<char>)> {
        pairs_view(self.registered_types@)
    }

    /// The type ids with a cached instance list.
    pub closed spec fn cache_ids(self) -> Seq<Seq<char>> {
        Seq::new(self.cached_instances@.len(), |i: int| self.cached_instances@[i].0@)
    }

    /// Each type id is registered at most once.
    pub closed spec fn inv(self) -> bool {
        forall|i: int, j: int|
            0 <= i < j < self.types().len() ==> self.types()[i].0 != self.types()[j].0
    }

    /// A fresh, empty registry.
    pub fn new() -> (r: Self)
        ensures
            r.types() == Seq::<(Seq<char>, Seq<char>)>::empty(),
            r.cache_ids() == Seq::<Seq<char>>::empty(),
            r.inv(),
    {
        let r = TypeRegistry { registered_types: Vec::new(), cached_instances: Vec::new() };
        proof {
            assert(r.types() =~= Seq::<(Seq<char>, Seq<char>)>::empty());
            assert(r.cache_ids() =~= Seq::<Seq<char>>::empty());
        }
        r
    }

    /// Registers a type name under its id, replacing any earlier name
    /// for that id.
    #[verifier::loop_isolation(false)]
    pub fn register_type(&mut self, type_id: String, name: String)
        requires
            old(self).inv(),
        ensures
            final(self).inv(),
            assoc_has(final(self).types(), type_id@),
            assoc_get(final(self).types(), type_id@) == name@,
            forall|k: Seq<char>|
                k != type_id@ ==> assoc_has(final(self).types(), k) == assoc_has(
                    old(self).types(),
                    k,
                ),
            forall|k: Seq<char>|
                k != type_id@ && assoc_has(old(self).types(), k) ==> assoc_get(
                    final(self).types(),
                    k,
                ) == assoc_get(old(self).types(), k),
            final(self).cache_ids() == old(self).cache_ids(),
    {
        broadcast use vstd::std_specs::vec::group_vec_axioms, vstd::seq::group_seq_axioms;

        let ghost tv = self.types();
        let n = self.registered_types.len();
        let mut j: usize = 0;
        while j < n
            invariant
                j <= n,
                n == self.registered_types@.len(),
                self == old(self),
                forall|i: int| 0 <= i < j ==> self.types()[i].0 != type_id@,
            decreases n - j,
        {
            if self.registered_types[j].0 == type_id {
                let ghost jj = j as int;
                self.registered_types.remove(j);
                self.registered_types.insert(j, (type_id, name));
                proof {
                    assert(self.types() =~= tv.update(jj, (tv[jj].0, name@)));
                    lemma_assoc_pointwise(tv, self.types(), type_id@, jj);
                }
                return ;
            }
            j += 1;
        }
        self.registered_types.push((type_id, name));
        proof {
            assert(self.types() =~= tv.push((type_id@, name@)));
            lemma_assoc_push(tv, type_id@, name@);
        }
    }

    /// True when the id has a registered name.
    #[verifier::loop_isolation(false)]
    pub fn is_registered(&self, type_id: &str) -> (r: bool)
        ensures
            r == assoc_has(self.types(), type_id@),
    {
        broadcast use vstd::std_specs::vec::group_vec_axioms, vstd::seq::group_seq_axioms;

        let owned: String = type_id.to_owned();
        let n = self.registered_types.len();
        let mut j: usize = 0;
        while j < n
            invariant
                j <= n,
                n == self.registered_types@.len(),
                forall|i: int| 0 <= i < j ==> self.types()[i].0 != type_id@,
            decreases n - j,
        {
            if self.registered_types[j].0 == owned {
                proof {
                    assert(self.types()[j as int].0 == type_id@);
                }
                return true;
            }
            j += 1;
        }
        false
    }

    /// The name registered under the id, if any.
    #[verifier::loop_isolation(false)]
    pub fn get_type_name(&self, type_id: &str) -> (r: Option<String>)
        ensures
            (match r {
                Some(name) => assoc_has(self.types(), type_id@) && name@ == assoc_get(
                    self.types(),
                    type_id@,
                ),
                None => !assoc_has(self.types(), type_id@),
            }),
    {
        broadcast use vstd::std_specs::vec::group_vec_axioms, vstd::seq::group_seq_axioms;

        let owned: String = type_id.to_owned();
        let n = self.registered_types.len();
        let mut j: usize = 0;
        while j < n
            invariant
                j <= n,
                n == self.registered_types@.len(),
                forall|i: int| 0 <= i < j ==> self.types()[i].0 != type_id@,
            decreases n - j,
        {
            if self.registered_types[j].0 == owned {
                proof {
                    lemma_assoc_first(self.types(), type_id@, j as int);
                }
                return Some(self.registered_types[j].1.clone());
            }
            j += 1;
        }
        None
    }

    /// Every registered pair of type id and name, in registration
    /// order.
    #[verifier::loop_isolation(false)]
    pub fn get_all_types(&self) -> (r: Vec<(String, String)>)
        ensures
            pairs_view(r@) == self.types(),
    {
        broadcast use vstd::std_specs::vec::group_vec_axioms, vstd::seq::group_seq_axioms;

        let n = self.registered_types.len();
        let mut out: Vec<(String, String)> = Vec::new();
        let mut j: usize = 0;
        while j < n
            invariant
                j <= n,
                n == self.registered_types@.len(),
                out@.len() == j,
                forall|i: int|
                    0 <= i < j ==> (out@[i].0@, out@[i].1@) == self.types()[i],
            decreases n - j,
        {
            let id = self.registered_types[j].0.clone();
            let name = self.registered_types[j].1.clone();
            out.push((id, name));
            j += 1;
        }
        proof {
            assert(pairs_view(out@) =~= self.types());
        }
        out
    }

    /// Drops the cached instances of the type, if any.
    #[verifier::loop_isolation(false)]
    pub fn clear_cache(&mut self, type_id: &str)
        ensures
            final(self).types() == old(self).types(),
            forall|i: int|
                0 <= i < final(self).cache_ids().len() ==> old(self).cache_ids().contains(
                    #[trigger] final(self).cache_ids()[i],
                ),
    {
        broadcast use vstd::std_specs::vec::group_vec_axioms, vstd::seq::group_seq_axioms;

        let owned: String = type_id.to_owned();
        let n = self.cached_instances.len();
        let mut j: usize = 0;
        while j < n
            invariant
                j <= n,
                n == self.cached_instances@.len(),
                self == old(self),
            decreases n - j,
        {
            if self.cached_instances[j].0 == owned {
                let ghost jj = j as int;
                self.cached_instances.remove(j);
                proof {
                    assert forall|i: int|
                        0 <= i < self.cache_ids().len() implies old(self).cache_ids().contains(
                        #[trigger] self.cache_ids()[i],
                    ) by {
                        if i < jj {
                            assert(self.cache_ids()[i] == old(self).cache_ids()[i]);
                        } else {
                            assert(self.cache_ids()[i] == old(self).cache_ids()[i + 1]);
                        }
                    }
                }
                return ;
            }
            j += 1;
        }
    }

    /// Drops every cached instance list.
    pub fn clear_all_caches(&mut self)
        ensures
            final(self).types() == old(self).types(),
            final(self).cache_ids() == Seq::<Seq<char>>::empty(),
    {
        self.cached_instances = Vec::new();
        proof {
            assert(self.cache_ids() =~= Seq::<Seq<char>>::empty());
        }
    }
}

impl Default for TypeRegistry {
    /// A fresh, empty registry.
    fn default() -> (r: Self)
        ensures
            r.types() == Seq::<(Seq<char>, Seq<char>)>::empty(),
            r.inv(),
    {
        Self::new()
    }
}

/// An update at the key's first occurrence leaves every other key's
/// reading unchanged and gives the key the new value.
proof fn lemma_assoc_pointwise(
    tv: Seq<(Seq<char>, Seq<char>)>,
    tv2: Seq<(Seq<char>, Seq<char>)>,
    k: Seq<char>,
    j: int,
)
    requires
        0 <= j < tv.len(),
        tv[j].0 == k,
        forall|i: int| 0 <= i < j ==> tv[i].0 != k,
        tv2.len() == tv.len(),
        forall|i: int| 0 <= i < tv.len() && i != j ==> tv2[i] == tv[i],
        tv2[j].0 == k,
    ensures
        assoc_has(tv2, k),
        assoc_get(tv2, k) == tv2[j].1,
        forall|k2: Seq<char>| k2 != k ==> assoc_has(tv2, k2) == assoc_has(tv, k2),
        forall|k2: Seq<char>|
            k2 != k && assoc_has(tv, k2) ==> assoc_get(tv2, k2) == assoc_get(tv, k2),
    decreases tv,
{
    assert forall|k2: Seq<char>| k2 != k implies assoc_has(tv2, k2) == assoc_has(tv, k2) by {
        lemma_assoc_tail(tv, tv2, k2);
    }
    if j == 0 {
        assert(tv2.drop_first() =~= tv.drop_first());
        assert forall|k2: Seq<char>|
            k2 != k && assoc_has(tv, k2) implies assoc_get(tv2, k2) == assoc_get(tv, k2) by {
            assert(assoc_get(tv2, k2) == assoc_get(tv2.drop_first(), k2));
            assert(assoc_get(tv, k2) == assoc_get(tv.drop_first(), k2));
        }
    } else {
        assert(forall|i: int|
            0 <= i < tv.drop_first().len() ==> tv.drop_first()[i] == tv[i + 1]);
        assert(forall|i: int|
            0 <= i < tv2.drop_first().len() ==> tv2.drop_first()[i] == tv2[i + 1]);
        lemma_assoc_pointwise(tv.drop_first(), tv2.drop_first(), k, j - 1);
        assert(tv2.first() == tv.first());
        assert(assoc_get(tv2, k) == assoc_get(tv2.drop_first(), k));
        assert forall|k2: Seq<char>|
            k2 != k && assoc_has(tv, k2) implies assoc_get(tv2, k2) == assoc_get(tv, k2) by {
            if tv.first().0 == k2 {
            } else {
                let i = choose|i: int| 0 <= i < tv.len() && tv[i].0 == k2;
                assert(i >= 1);
                assert(tv.drop_first()[i - 1].0 == k2);
                assert(assoc_has(tv.drop_first(), k2));
            }
        }
    }
}

/// Two associations that differ only at entries with key `k` hold any
/// other key alike.
proof fn lemma_assoc_tail(
    tv: Seq<(Seq<char>, Seq<char>)>,
    tv2: Seq<(Seq<char>, Seq<char>)>,
    k2: Seq<char>,
)
    requires
        tv2.len() == tv.len(),
        forall|i: int| 0 <= i < tv.len() ==> tv2[i] == tv[i] || (tv2[i].0 == tv[i].0),
    ensures
        assoc_has(tv2, k2) == assoc_has(tv, k2),
{
    if assoc_has(tv, k2) {
        let i = choose|i: int| 0 <= i < tv.len() && tv[i].0 == k2;
        assert(tv2[i].0 == k2);
    }
    if assoc_has(tv2, k2) {
        let i = choose|i: int| 0 <= i < tv2.len() && tv2[i].0 == k2;
        assert(tv[i].0 == k2);
    }
}

/// Appending a fresh key reads as its value; other keys are untouched.
proof fn lemma_assoc_push(tv: Seq<(Seq<char>, Seq<char>)>, k: Seq<char>, v: Seq<char>)
    requires
        forall|i: int| 0 <= i < tv.len() ==> tv[i].0 != k,
    ensures
        assoc_has(tv.push((k, v)), k),
        assoc_get(tv.push((k, v)), k) == v,
        forall|k2: Seq<char>| k2 != k ==> assoc_has(tv.push((k, v)), k2) == assoc_has(tv, k2),
        forall|k2: Seq<char>|
            k2 != k && assoc_has(tv, k2) ==> assoc_get(tv.push((k, v)), k2) == assoc_get(tv, k2),
    decreases tv,
{
    assert(tv.push((k, v)).len() == tv.len() + 1);
    assert(tv.push((k, v))[tv.len() as int] == (k, v));
    assert forall|k2: Seq<char>| k2 != k implies assoc_has(tv.push((k, v)), k2) == assoc_has(
        tv,
        k2,
    ) by {
        if assoc_has(tv.push((k, v)), k2) {
            let i = choose|i: int| 0 <= i < tv.push((k, v)).len() && tv.push((k, v))[i].0 == k2;
            assert(i < tv.len());
            assert(tv[i].0 == k2);
        }
        if assoc_has(tv, k2) {
            let i = choose|i: int| 0 <= i < tv.len() && tv[i].0 == k2;
            assert(tv.push((k, v))[i].0 == k2);
        }
    }
    if tv.len() == 0 {
        assert(tv.push((k, v)).first() == (k, v));
    } else {
        assert(tv.push((k, v)).first() == tv.first());
        assert(tv.push((k, v)).drop_first() =~= tv.drop_first().push((k, v)));
        assert(forall|i: int|
            0 <= i < tv.drop_first().len() ==> tv.drop_first()[i] == tv[i + 1]);
        lemma_assoc_push(tv.drop_first(), k, v);
        assert forall|k2: Seq<char>|
            k2 != k && assoc_has(tv, k2) implies assoc_get(tv.push((k, v)), k2) == assoc_get(
            tv,
            k2,
        ) by {
            if tv.first().0 == k2 {
            } else {
                let i = choose|i: int| 0 <= i < tv.len() && tv[i].0 == k2;
                assert(i >= 1);
                assert(tv.drop_first()[i - 1].0 == k2);
                assert(assoc_has(tv.drop_first(), k2));
            }
        }
    }
}

/// The first occurrence of a key decides both presence and reading.
proof fn lemma_assoc_first(tv: Seq<(Seq<char>, Seq<char>)>, k: Seq<char>, j: int)
    requires
        0 <= j < tv.len(),
        tv[j].0 == k,
        forall|i: int| 0 <= i < j ==> tv[i].0 != k,
    ensures
        assoc_has(tv, k),
        assoc_get(tv, k) == tv[j].1,
    decreases tv,
{
    if j > 0 {
        assert(forall|i: int|
            0 <= i < tv.drop_first().len() ==> tv.drop_first()[i] == tv[i + 1]);
        lemma_assoc_first(tv.drop_first(), k, j - 1);
    }
}

/// Registers a type name under its id in the given registry.
pub fn register_type(registry: &mut TypeRegistry, type_id: String, name: String)
    requires
        old(registry).inv(),
    ensures
        final(registry).inv(),
        assoc_has(final(registry).types(), type_id@),
        assoc_get(final(registry).types(), type_id@) == name@,
{
    registry.register_type(type_id, name);
}

/// True when the id has a registered name in the given registry.
pub fn is_type_registered(registry: &TypeRegistry, type_id: &str) -> (r: bool)
    ensures
        r == assoc_has(registry.types(), type_id@),
{
    registry.is_registered(type_id)
}

/// The name registered under the id in the given registry, if any.
pub fn get_type_name(registry: &TypeRegistry, type_id: &str) -> (r: Option<String>)
    ensures
        (match r {
            Some(name) => assoc_has(registry.types(), type_id@) && name@ == assoc_get(
                registry.types(),
                type_id@,
            ),
            None => !assoc_has(registry.types(), type_id@),
        }),
{
    registry.get_type_name(type_id)
}

/// Every registered pair of type id and name in the given registry.
pub fn get_all_registered_types(registry: &TypeRegistry) -> (r: Vec<(String, String)>)
    ensures
        pairs_view(r@) == registry.types(),
{
    registry.get_all_types()
}

/// Drops the cached instances of the type in the given registry.
pub fn clear_type_cache(registry: &mut TypeRegistry, type_id: &str)
    ensures
        final(registry).types() == old(registry).types(),
{
    registry.clear_cache(type_id);
}

/// Drops every cached instance list in the given registry.
pub fn clear_all_caches(registry: &mut TypeRegistry)
    ensures
        final(registry).types() == old(registry).types(),
        final(registry).cache_ids() == Seq::<Seq<char>>::empty(),
{
    registry.clear_all_caches();
}

} // verus!
