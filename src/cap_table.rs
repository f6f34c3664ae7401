//! The collections of the capped matcher, kept in the `ahash` and `smallvec`
//! types it is built on: a map from window key to a small inline bucket of
//! `(cap_hash, message_idx, start)` entries, and the set of `(window key,
//! cap hash)` pairs already filed. Verus sees their contents through the names
//! below, which only the wrappers of this module speak of.
use ahash::{AHashMap, AHashSet};
use smallvec::SmallVec;
use vstd::prelude::*;

verus! {

/// `ahash`'s hash set, opaque to Verus.
#[verifier::external_type_specification]
#[verifier::external_body]
#[verifier::reject_recursive_types(T)]
#[verifier::reject_recursive_types(S)]
pub struct ExAHashSet<T, S>(AHashSet<T, S>);

/// `ahash`'s hasher builder, opaque to Verus.
#[verifier::external_type_specification]
#[verifier::external_body]
pub struct ExRandomState(ahash::RandomState);

/// The index: window key to a bucket of the entries filed under it, inline
/// up to four. The `smallvec` bucket type cannot be declared to Verus, so the
/// map is held in a field hidden from it.
#[verifier::external_body]
pub struct CapTable {
    buckets: AHashMap<u64, SmallVec<[(u64, usize, usize); 4]>>,
}

/// The filed `(window key, cap hash)` pairs.
pub type PairSet = AHashSet<(u64, u64)>;

/// What the index holds: for each key, its bucket's entries in insertion order.
pub uninterp spec fn table_contents(t: CapTable) -> Map<u64, Seq<(u64, usize, usize)>>;

/// What the pair set holds.
pub uninterp spec fn pair_contents(s: PairSet) -> Set<(u64, u64)>;

/// Relies on `AHashMap::with_capacity`: a map with no entries.
#[verifier::external_body]
pub(crate) fn new_table(capacity: usize) -> (r: CapTable)
    ensures
        table_contents(r).dom() =~= Set::empty(),
{
    CapTable { buckets: AHashMap::with_capacity(capacity) }
}

/// Relies on `HashMap::entry` (reached through `AHashMap`'s `DerefMut`),
/// `Entry::or_insert_with` with `SmallVec::new`, and `SmallVec::push`: `e` is
/// appended to the bucket of `key`, which is created empty if absent; the other
/// buckets are untouched.
#[verifier::external_body]
pub(crate) fn table_push(t: &mut CapTable, key: u64, e: (u64, usize, usize))
    ensures
        table_contents(*final(t)) == table_contents(*old(t)).insert(
            key,
            if table_contents(*old(t)).contains_key(key) {
                table_contents(*old(t))[key].push(e)
            } else {
                seq![e]
            },
        ),
{
    t.buckets.entry(key).or_insert_with(SmallVec::new).push(e);
}

/// Relies on `AHashMap::get` and `<[T]>::to_vec` on the bucket it returns:
/// a copy of the entries filed under `key`, or `None` if there is no bucket.
#[verifier::external_body]
pub(crate) fn table_bucket(t: &CapTable, key: u64) -> (r: Option<Vec<(u64, usize, usize)>>)
    ensures
        r is None <==> !table_contents(*t).contains_key(key),
        r matches Some(v) ==> v@ == table_contents(*t)[key],
{
    t.buckets.get(&key).map(|b| b.to_vec())
}

/// Relies on `HashMap::contains_key` (reached through `AHashMap`'s `Deref`).
#[verifier::external_body]
pub(crate) fn table_has(t: &CapTable, key: u64) -> (r: bool)
    ensures
        r == table_contents(*t).contains_key(key),
{
    t.buckets.contains_key(&key)
}

/// Relies on `AHashSet::with_capacity`: a set with no elements.
#[verifier::external_body]
pub(crate) fn new_pair_set(capacity: usize) -> (r: PairSet)
    ensures
        pair_contents(r) =~= Set::empty(),
{
    AHashSet::with_capacity(capacity)
}

/// Relies on `HashSet::insert` (reached through `AHashSet`'s `DerefMut`):
/// adds `p` and returns whether it was absent.
#[verifier::external_body]
pub(crate) fn pair_set_insert(s: &mut PairSet, p: (u64, u64)) -> (r: bool)
    ensures
        r == !pair_contents(*old(s)).contains(p),
        pair_contents(*final(s)) == pair_contents(*old(s)).insert(p),
{
    s.insert(p)
}

} // verus!
