//! One source's indexed form: an insertion-ordered mapping from composite key
//! to projection, backed by `indexmap::IndexMap`.
//!
//! The backing map is reached only through the trusted wrappers below, whose
//! contracts state what `indexmap` documents of `new`, `insert`, `get`,
//! `get_index` and `len` over the map's abstract contents.

use vstd::prelude::*;

use crate::model::EntryModel;
use crate::model::find_key;
use crate::model::lemma_find_key;
use crate::model::lookup;
use crate::model::upsert;

verus! {

#[verifier::external_type_specification]
#[verifier::external_body]
#[verifier::reject_recursive_types(K)]
#[verifier::reject_recursive_types(V)]
#[verifier::reject_recursive_types(S)]
pub struct ExIndexMap<K, V, S>(indexmap::IndexMap<K, V, S>);

/// What a backing map holds: its key/projection pairs, in iteration order.
pub uninterp spec fn map_entries(m: indexmap::IndexMap<Vec<String>, Vec<String>>) -> Seq<
    EntryModel,
>;

/// Relies on `indexmap::IndexMap::new`: the new map is empty.
#[verifier::external_body]
fn im_new() -> (m: indexmap::IndexMap<Vec<String>, Vec<String>>)
    ensures
        map_entries(m) == Seq::<EntryModel>::empty(),
{
    indexmap::IndexMap::new()
}

/// Relies on `indexmap::IndexMap::insert`: an equivalent key keeps its place
/// in the order and has its value replaced; a new key is appended last.
#[verifier::external_body]
fn im_insert(m: &mut indexmap::IndexMap<Vec<String>, Vec<String>>, k: Vec<String>, v: Vec<String>)
    ensures
        (exists|i: int|
            0 <= i < map_entries(*old(m)).len() && map_entries(*old(m))[i].0 == k.deep_view())
            ==> exists|i: int|
            0 <= i < map_entries(*old(m)).len() && map_entries(*old(m))[i].0 == k.deep_view()
                && map_entries(*final(m)) == map_entries(*old(m)).update(
                i,
                (k.deep_view(), v.deep_view()),
            ),
        !(exists|i: int|
            0 <= i < map_entries(*old(m)).len() && map_entries(*old(m))[i].0 == k.deep_view())
            ==> map_entries(*final(m)) == map_entries(*old(m)).push(
            (k.deep_view(), v.deep_view()),
        ),
{
    m.insert(k, v);
}

/// Relies on `indexmap::IndexMap::get`: the value stored under an equivalent
/// key, if one is present.
#[verifier::external_body]
fn im_get<'a>(m: &'a indexmap::IndexMap<Vec<String>, Vec<String>>, k: &Vec<String>) -> (r: Option<
    &'a Vec<String>,
>)
    ensures
        match r {
            Some(v) => exists|i: int|
                0 <= i < map_entries(*m).len() && map_entries(*m)[i] == (
                    k.deep_view(),
                    v.deep_view(),
                ),
            None => forall|i: int|
                0 <= i < map_entries(*m).len() ==> map_entries(*m)[i].0 != k.deep_view(),
        },
{
    m.get(k)
}

/// Relies on `indexmap::IndexMap::len`: the number of stored pairs.
#[verifier::external_body]
fn im_len(m: &indexmap::IndexMap<Vec<String>, Vec<String>>) -> (n: usize)
    ensures
        n == map_entries(*m).len(),
{
    m.len()
}

/// Relies on `indexmap::IndexMap::get_index`: the pair at a position, in
/// insertion order; `None` when the position is out of range.
#[verifier::external_body]
fn im_get_index<'a>(m: &'a indexmap::IndexMap<Vec<String>, Vec<String>>, i: usize) -> (r: Option<
    (&'a Vec<String>, &'a Vec<String>),
>)
    ensures
        match r {
            Some(p) => i < map_entries(*m).len() && map_entries(*m)[i as int] == (
                p.0.deep_view(),
                p.1.deep_view(),
            ),
            None => i >= map_entries(*m).len(),
        },
{
    m.get_index(i)
}

/// One source's key-to-projection mapping, built once by the indexer and
/// read-only thereafter.  Iteration order is first-insertion order.
#[derive(Debug)]
pub struct IndexedSource {
    map: indexmap::IndexMap<Vec<String>, Vec<String>>,
}

impl View for IndexedSource {
    type V = Seq<EntryModel>;

    closed spec fn view(&self) -> Seq<EntryModel> {
        map_entries(self.map)
    }
}

impl IndexedSource {
    /// The keys of distinct entries are distinct, as in any genuine mapping.
    pub open spec fn wf(self) -> bool {
        forall|i: int, j: int| 0 <= i < j < self@.len() ==> self@[i].0 != self@[j].0
    }

    /// An empty indexed source.
    pub fn new() -> (s: Self)
        ensures
            s@ == Seq::<EntryModel>::empty(),
            s.wf(),
    {
        IndexedSource { map: im_new() }
    }

    /// The number of distinct keys.
    pub fn len(&self) -> (n: usize)
        ensures
            n == self@.len(),
    {
        im_len(&self.map)
    }

    /// Inserts a key/projection pair: an existing key keeps its position and
    /// has its projection replaced (last write wins); a new key is appended.
    pub fn insert(&mut self, k: Vec<String>, v: Vec<String>)
        requires
            old(self).wf(),
        ensures
            final(self)@ == upsert(old(self)@, k.deep_view(), v.deep_view()),
            final(self).wf(),
    {
        let ghost pre = self@;
        let ghost kd = k.deep_view();
        let ghost vd = v.deep_view();
        im_insert(&mut self.map, k, v);
        proof {
            lemma_find_key(pre, kd);
            if exists|i: int| 0 <= i < pre.len() && pre[i].0 == kd {
                let i = choose|i: int|
                    0 <= i < pre.len() && pre[i].0 == kd && self@ == pre.update(i, (kd, vd));
                let i0 = find_key(pre, kd)->Some_0;
                assert(i == i0);
                assert(self@ == upsert(pre, kd, vd));
                assert forall|x: int, y: int| 0 <= x < y < self@.len() implies self@[x].0
                    != self@[y].0 by {
                    assert(self@[x].0 == pre[x].0);
                    assert(self@[y].0 == pre[y].0);
                }
            } else {
                assert(self@ == upsert(pre, kd, vd));
            }
        }
    }

    /// The projection stored under `k`, if any.
    pub fn get<'a>(&'a self, k: &Vec<String>) -> (r: Option<&'a Vec<String>>)
        requires
            self.wf(),
        ensures
            match r {
                Some(v) => lookup(self@, k.deep_view()) == Some(v.deep_view()),
                None => lookup(self@, k.deep_view()) is None,
            },
    {
        let r = im_get(&self.map, k);
        proof {
            lemma_find_key(self@, k.deep_view());
            if r is Some {
                let v = r->Some_0;
                let i = choose|i: int|
                    0 <= i < self@.len() && self@[i] == (k.deep_view(), v.deep_view());
                let i0 = find_key(self@, k.deep_view())->Some_0;
                assert(i == i0);
            }
        }
        r
    }

    /// The entry at position `i`, in first-insertion order.
    pub fn entry_at<'a>(&'a self, i: usize) -> (r: (&'a Vec<String>, &'a Vec<String>))
        requires
            i < self@.len(),
        ensures
            r.0.deep_view() == self@[i as int].0,
            r.1.deep_view() == self@[i as int].1,
    {
        match im_get_index(&self.map, i) {
            Some(p) => p,
            None => vstd::pervasive::unreached(),
        }
    }
}

} // verus!
