use vstd::prelude::*;
use vstd::std_specs::hash::obeys_key_model;
use fnv::FnvHashMap;
use fnv::FnvHashSet;
use std::hash::Hash;

verus! {

/// A set of literals, each held by its signed code.
pub type LiteralSet = FnvHashSet<i32>;

/// `fnv::FnvHasher`, the hasher behind `FnvHashSet` and `FnvHashMap`. Its
/// state is a single word that starts from a fixed basis and that every
/// written byte is folded into, so that equal keys hash alike wherever and
/// whenever they are hashed. The functions below rest on that: they claim of
/// the standard collections, hashed in this way, what `vstd` states of them
/// with the standard hasher, for keys that obey its key model.
#[verifier::external_type_specification]
#[verifier::external_body]
pub struct ExFnvHasher(fnv::FnvHasher);

/// `std::hash::BuildHasherDefault`, which makes a hasher by `Default`; `fnv`
/// names it in its set and map aliases.
#[verifier::external_type_specification]
#[verifier::external_body]
#[verifier::reject_recursive_types(H)]
pub struct ExBuildHasherDefault<H>(std::hash::BuildHasherDefault<H>);

/// `HashSet::insert` on an `FnvHashSet`: the key joins the set, and the
/// result tells whether it was new.
#[verifier::external_body]
pub(crate) fn set_insert<K: Eq + Hash>(s: &mut FnvHashSet<K>, k: K) -> (fresh: bool)
    requires
        obeys_key_model::<K>(),
    ensures
        final(s)@ == old(s)@.insert(k),
        fresh == !old(s)@.contains(k),
{
    s.insert(k)
}

/// `HashSet::remove` on an `FnvHashSet`: the key leaves the set, and the
/// result tells whether it was there.
#[verifier::external_body]
pub(crate) fn set_remove<K: Eq + Hash>(s: &mut FnvHashSet<K>, k: K) -> (found: bool)
    requires
        obeys_key_model::<K>(),
    ensures
        final(s)@ == old(s)@.remove(k),
        found == old(s)@.contains(k),
{
    s.remove(&k)
}

/// `HashSet::contains` on an `FnvHashSet`: whether the key is in the set.
#[verifier::external_body]
pub(crate) fn set_contains<K: Eq + Hash>(s: &FnvHashSet<K>, k: K) -> (found: bool)
    requires
        obeys_key_model::<K>(),
    ensures
        found == s@.contains(k),
{
    s.contains(&k)
}

/// `HashSet::iter` on an `FnvHashSet`, gathered into a vector: every member
/// once, in an order that is not stated.
#[verifier::external_body]
pub(crate) fn set_members<K: Eq + Hash + Copy>(s: &FnvHashSet<K>) -> (v: Vec<K>)
    requires
        obeys_key_model::<K>(),
    ensures
        v@.no_duplicates(),
        v@.to_set() == s@,
{
    s.iter().copied().collect()
}

/// `HashMap::insert` on an `FnvHashMap`: the key is bound to the value, and
/// the result is the value it was bound to before, if any.
#[verifier::external_body]
pub(crate) fn map_insert<K: Eq + Hash, V>(m: &mut FnvHashMap<K, V>, k: K, v: V) -> (prev: Option<V>)
    requires
        obeys_key_model::<K>(),
    ensures
        final(m)@ == old(m)@.insert(k, v),
        prev == (if old(m)@.contains_key(k) { Some(old(m)@[k]) } else { None }),
{
    m.insert(k, v)
}

/// `HashMap::get` on an `FnvHashMap`: the value that the key is bound to, if
/// any.
#[verifier::external_body]
pub(crate) fn map_get<K: Eq + Hash, V>(m: &FnvHashMap<K, V>, k: K) -> (r: Option<&V>)
    requires
        obeys_key_model::<K>(),
    ensures
        r == (if m@.contains_key(k) { Some(&m@[k]) } else { None }),
{
    m.get(&k)
}

/// `HashMap::remove` on an `FnvHashMap`: the key is unbound, and the result
/// is the value it was bound to, if any.
#[verifier::external_body]
pub(crate) fn map_remove<K: Eq + Hash, V>(m: &mut FnvHashMap<K, V>, k: K) -> (prev: Option<V>)
    requires
        obeys_key_model::<K>(),
    ensures
        final(m)@ == old(m)@.remove(k),
        prev == (if old(m)@.contains_key(k) { Some(old(m)@[k]) } else { None }),
{
    m.remove(&k)
}

/// `HashMap::keys` on an `FnvHashMap`, gathered into a vector: every key
/// once, in an order that is not stated.
#[verifier::external_body]
pub(crate) fn map_keys<K: Eq + Hash + Copy, V>(m: &FnvHashMap<K, V>) -> (v: Vec<K>)
    requires
        obeys_key_model::<K>(),
    ensures
        v@.no_duplicates(),
        v@.to_set() == m@.dom(),
{
    m.keys().copied().collect()
}

/// `HashMap::len` on an `FnvHashMap`: the number of keys.
#[verifier::external_body]
pub(crate) fn map_len<K: Eq + Hash, V>(m: &FnvHashMap<K, V>) -> (n: usize)
    requires
        obeys_key_model::<K>(),
    ensures
        n == m@.dom().len(),
{
    m.len()
}

} // verus!
