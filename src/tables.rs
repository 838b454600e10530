//! The `indexmap` collections that back the catalog, seen through names for
//! what each one holds.

use vstd::prelude::*;
use indexmap::{IndexMap, IndexSet};

verus! {

#[verifier::external_type_specification]
#[verifier::external_body]
#[verifier::reject_recursive_types(T)]
#[verifier::reject_recursive_types(S)]
pub struct ExIndexSet<T, S>(IndexSet<T, S>);

#[verifier::external_type_specification]
#[verifier::external_body]
#[verifier::reject_recursive_types(K)]
#[verifier::reject_recursive_types(V)]
#[verifier::reject_recursive_types(S)]
pub struct ExIndexMap<K, V, S>(IndexMap<K, V, S>);

/// A stored engine: name, template, category index, subcategory index.
pub type DiskEngine = (String, String, usize, usize);

/// What a stored engine holds.
pub type DiskView = (Seq<char>, Seq<char>, usize, usize);

pub open spec fn disk_view(d: DiskEngine) -> DiskView {
    (d.0@, d.1@, d.2, d.3)
}

/// What a shortcut index holds: each key with the engine index it names.
pub type IndexView = Map<Seq<char>, usize>;

/// The strings of an interning table, in insertion order.
pub uninterp spec fn string_items(s: IndexSet<String>) -> Seq<Seq<char>>;

/// The engines of an engine table, in insertion order.
pub uninterp spec fn engine_items(s: IndexSet<DiskEngine>) -> Seq<DiskView>;

/// The pairs of a shortcut index.
pub uninterp spec fn index_entries(m: IndexMap<String, usize>) -> IndexView;

/// Relies on `IndexSet::new`: a new set is empty.
#[verifier::external_body]
pub(crate) fn new_string_set() -> (r: IndexSet<String>)
    ensures
        string_items(r) == Seq::<Seq<char>>::empty(),
{
    IndexSet::new()
}

/// Relies on `IndexSet::insert_full`: an item already present keeps its place
/// and its index comes back with `false`; otherwise the item goes to the end
/// and its new index comes back with `true`.
#[verifier::external_body]
pub(crate) fn string_set_insert(s: &mut IndexSet<String>, v: String) -> (r: (usize, bool))
    ensures
        string_items(*old(s)).contains(v@) ==> {
            &&& string_items(*final(s)) == string_items(*old(s))
            &&& r.0 < string_items(*old(s)).len()
            &&& string_items(*old(s))[r.0 as int] == v@
            &&& !r.1
        },
        !string_items(*old(s)).contains(v@) ==> {
            &&& string_items(*final(s)) == string_items(*old(s)).push(v@)
            &&& r.0 == string_items(*old(s)).len()
            &&& r.1
        },
{
    s.insert_full(v)
}

/// Relies on `IndexSet::get_index`: the item at index `i`, if `i` is in range.
#[verifier::external_body]
pub(crate) fn string_set_get(s: &IndexSet<String>, i: usize) -> (r: Option<&String>)
    ensures
        i < string_items(*s).len() <==> r is Some,
        r is Some ==> r->0@ == string_items(*s)[i as int],
{
    s.get_index(i)
}

/// Relies on `IndexSet::len`: the number of items.
#[verifier::external_body]
pub(crate) fn string_set_len(s: &IndexSet<String>) -> (r: usize)
    ensures
        r == string_items(*s).len(),
{
    s.len()
}

/// Relies on `IndexSet::new`: a new set is empty.
#[verifier::external_body]
pub(crate) fn new_engine_set() -> (r: IndexSet<DiskEngine>)
    ensures
        engine_items(r) == Seq::<DiskView>::empty(),
{
    IndexSet::new()
}

/// Relies on `IndexSet::insert_full`, as `string_set_insert` does; tuples are
/// equal when their fields are.
#[verifier::external_body]
pub(crate) fn engine_set_insert(s: &mut IndexSet<DiskEngine>, v: DiskEngine) -> (r: (usize, bool))
    ensures
        engine_items(*old(s)).contains(disk_view(v)) ==> {
            &&& engine_items(*final(s)) == engine_items(*old(s))
            &&& r.0 < engine_items(*old(s)).len()
            &&& engine_items(*old(s))[r.0 as int] == disk_view(v)
            &&& !r.1
        },
        !engine_items(*old(s)).contains(disk_view(v)) ==> {
            &&& engine_items(*final(s)) == engine_items(*old(s)).push(disk_view(v))
            &&& r.0 == engine_items(*old(s)).len()
            &&& r.1
        },
{
    s.insert_full(v)
}

/// Relies on `IndexSet::get_index`: the item at index `i`, if `i` is in range.
#[verifier::external_body]
pub(crate) fn engine_set_get(s: &IndexSet<DiskEngine>, i: usize) -> (r: Option<&DiskEngine>)
    ensures
        i < engine_items(*s).len() <==> r is Some,
        r is Some ==> disk_view(*r->0) == engine_items(*s)[i as int],
{
    s.get_index(i)
}

/// Relies on `IndexSet::len`: the number of items.
#[verifier::external_body]
pub(crate) fn engine_set_len(s: &IndexSet<DiskEngine>) -> (r: usize)
    ensures
        r == engine_items(*s).len(),
{
    s.len()
}

/// Relies on `IndexMap::new`: a new map is empty.
#[verifier::external_body]
pub(crate) fn new_index() -> (r: IndexMap<String, usize>)
    ensures
        index_entries(r) == IndexView::empty(),
{
    IndexMap::new()
}

/// Relies on `IndexMap::insert`: afterwards `k` maps to `v`, and no other key
/// changes.
#[verifier::external_body]
pub(crate) fn index_insert(m: &mut IndexMap<String, usize>, k: String, v: usize)
    ensures
        index_entries(*final(m)) == index_entries(*old(m)).insert(k@, v),
{
    m.insert(k, v);
}

/// Relies on `IndexMap::get`: the value of the key equal to `k`, if any.
#[verifier::external_body]
pub(crate) fn index_get(m: &IndexMap<String, usize>, k: &str) -> (r: Option<usize>)
    ensures
        index_entries(*m).contains_key(k@) <==> r is Some,
        r is Some ==> r->0 == index_entries(*m)[k@],
{
    m.get(k).copied()
}

/// Relies on `IndexMap::iter`: each pair once.
#[verifier::external_body]
pub(crate) fn index_pairs(m: &IndexMap<String, usize>) -> (r: Vec<(String, usize)>)
    ensures
        forall|i: int|
            0 <= i < r.len() ==> index_entries(*m).contains_key((#[trigger] r[i]).0@)
                && index_entries(*m)[r[i].0@] == r[i].1,
        forall|k: Seq<char>|
            #[trigger] index_entries(*m).contains_key(k) ==> exists|i: int|
                0 <= i < r.len() && #[trigger] r[i].0@ == k,
        forall|i: int, j: int| 0 <= i < j < r.len() ==> r[i].0@ != r[j].0@,
{
    m.iter().map(|(k, v)| (k.clone(), *v)).collect()
}

} // verus!
