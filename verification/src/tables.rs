//! Hash tables of the `hashbrown` crate, hashed with `rustc_hash::FxHasher`.
//!
//! The tables themselves are not verified. Each is held behind a type of this
//! module, what it holds is given a name, and each operation states over that
//! name what the operation of the crate does.

use core::hash::BuildHasherDefault;
use hashbrown::{HashMap, HashSet};
use rustc_hash::{FxHashMap, FxHasher};
use vstd::prelude::*;

verus! {

/// A `hashbrown::HashSet` of numbers: of terms, or of justifications.
#[verifier::external_body]
pub struct IdSet {
    inner: HashSet<u32, BuildHasherDefault<FxHasher>>,
}

/// The numbers that an [`IdSet`] holds.
pub uninterp spec fn id_set_items(s: IdSet) -> Set<u32>;

impl View for IdSet {
    type V = Set<u32>;

    open spec fn view(&self) -> Set<u32> {
        id_set_items(*self)
    }
}

impl IdSet {
    /// `HashSet::default`: a set that holds nothing.
    #[verifier::external_body]
    pub(crate) fn new() -> (s: IdSet)
        ensures
            id_set_items(s) == Set::<u32>::empty(),
    {
        IdSet { inner: HashSet::default() }
    }

    /// `HashSet::insert`: the set holds `x` afterwards and whatever it held
    /// before; the result says whether `x` is new to it.
    #[verifier::external_body]
    pub(crate) fn insert(&mut self, x: u32) -> (fresh: bool)
        ensures
            id_set_items(*final(self)) == id_set_items(*old(self)).insert(x),
            fresh == !id_set_items(*old(self)).contains(x),
    {
        self.inner.insert(x)
    }

    /// `HashSet::clear`: the set holds nothing afterwards.
    #[verifier::external_body]
    pub(crate) fn clear(&mut self)
        ensures
            id_set_items(*final(self)) == Set::<u32>::empty(),
    {
        self.inner.clear()
    }

    /// `HashSet::contains`: whether the set holds `x`.
    #[verifier::external_body]
    pub(crate) fn contains(&self, x: u32) -> (b: bool)
        ensures
            b == id_set_items(*self).contains(x),
    {
        self.inner.contains(&x)
    }

    /// `HashSet::len`: the number of items.
    #[verifier::external_body]
    pub(crate) fn len(&self) -> (n: usize)
        ensures
            n == id_set_items(*self).len(),
    {
        self.inner.len()
    }

    /// `HashSet::iter`: the items, each once, in no stated order.
    #[verifier::external_body]
    pub(crate) fn items(&self) -> (out: Vec<u32>)
        ensures
            out@.no_duplicates(),
            forall|x: u32| #[trigger] out@.contains(x) <==> id_set_items(*self).contains(x),
    {
        self.inner.iter().copied().collect()
    }
}

/// A `hashbrown::HashMap` from numbers to numbers: from a term or a
/// justification to its position in a list.
#[verifier::external_body]
pub struct IdMap {
    inner: HashMap<u32, u32, BuildHasherDefault<FxHasher>>,
}

/// The entries that an [`IdMap`] holds.
pub uninterp spec fn id_map_entries(m: IdMap) -> Map<u32, u32>;

impl View for IdMap {
    type V = Map<u32, u32>;

    open spec fn view(&self) -> Map<u32, u32> {
        id_map_entries(*self)
    }
}

impl IdMap {
    /// `HashMap::default`: a map without entries.
    #[verifier::external_body]
    pub(crate) fn new() -> (m: IdMap)
        ensures
            id_map_entries(m) == (Map::<u32, u32>::empty()),
    {
        IdMap { inner: HashMap::default() }
    }

    /// `HashMap::get`: the value stored under `key`, if there is one.
    #[verifier::external_body]
    pub(crate) fn get(&self, key: u32) -> (v: Option<u32>)
        ensures
            v is Some <==> id_map_entries(*self).dom().contains(key),
            v is Some ==> v == Some(id_map_entries(*self)[key]),
    {
        match self.inner.get(&key) {
            Some(v) => Some(*v),
            None => None,
        }
    }

    /// `HashMap::insert`: `key` maps to `value` afterwards, every other key
    /// as before.
    #[verifier::external_body]
    pub(crate) fn insert(&mut self, key: u32, value: u32)
        ensures
            id_map_entries(*final(self)) == id_map_entries(*old(self)).insert(key, value),
    {
        self.inner.insert(key, value);
    }

    /// `HashMap::into_iter`: the entries, each once, in no stated order.
    #[verifier::external_body]
    pub(crate) fn into_entries(self) -> (out: Vec<(u32, u32)>)
        ensures
            out@.no_duplicates(),
            forall|k: u32, v: u32| #[trigger]
                out@.contains((k, v)) <==> id_map_entries(self).contains_pair(k, v),
    {
        self.inner.into_iter().collect()
    }
}

/// A `hashbrown::HashSet` of keys of five numbers.
#[verifier::external_body]
pub struct KeySet {
    inner: HashSet<(usize, usize, u32, u32, u64), BuildHasherDefault<FxHasher>>,
}

/// The keys that a [`KeySet`] holds.
pub uninterp spec fn key_set_items(s: KeySet) -> Set<(usize, usize, u32, u32, u64)>;

impl View for KeySet {
    type V = Set<(usize, usize, u32, u32, u64)>;

    open spec fn view(&self) -> Set<(usize, usize, u32, u32, u64)> {
        key_set_items(*self)
    }
}

impl KeySet {
    /// `HashSet::default`: a set that holds nothing.
    #[verifier::external_body]
    pub(crate) fn new() -> (s: KeySet)
        ensures
            key_set_items(s) == Set::<(usize, usize, u32, u32, u64)>::empty(),
    {
        KeySet { inner: HashSet::default() }
    }

    /// `HashSet::insert`: the set holds `key` afterwards and whatever it held
    /// before; the result says whether `key` is new to it.
    #[verifier::external_body]
    pub(crate) fn insert(&mut self, key: (usize, usize, u32, u32, u64)) -> (fresh: bool)
        ensures
            key_set_items(*final(self)) == key_set_items(*old(self)).insert(key),
            fresh == !key_set_items(*old(self)).contains(key),
    {
        self.inner.insert(key)
    }
}

/// A `std::collections::HashMap` from names to numbers, hashed with
/// `rustc_hash::FxBuildHasher`.
#[verifier::external_body]
#[derive(Debug)]
pub struct NameMap {
    inner: FxHashMap<String, u32>,
}

/// The entries that a [`NameMap`] holds, each name as its characters.
pub uninterp spec fn name_map_entries(m: NameMap) -> Map<Seq<char>, u32>;

impl View for NameMap {
    type V = Map<Seq<char>, u32>;

    open spec fn view(&self) -> Map<Seq<char>, u32> {
        name_map_entries(*self)
    }
}

impl NameMap {
    /// `HashMap::default`: a map without entries.
    #[verifier::external_body]
    pub(crate) fn new() -> (m: NameMap)
        ensures
            name_map_entries(m) == (Map::<Seq<char>, u32>::empty()),
    {
        NameMap { inner: FxHashMap::default() }
    }

    /// `HashMap::get`: the number stored under `name`, if there is one.
    #[verifier::external_body]
    pub(crate) fn get(&self, name: &str) -> (v: Option<u32>)
        ensures
            v is Some <==> name_map_entries(*self).dom().contains(name@),
            v is Some ==> v == Some(name_map_entries(*self)[name@]),
    {
        match self.inner.get(name) {
            Some(v) => Some(*v),
            None => None,
        }
    }

    /// `HashMap::insert`: `name` maps to `value` afterwards, every other
    /// name as before.
    #[verifier::external_body]
    pub(crate) fn insert(&mut self, name: String, value: u32)
        ensures
            name_map_entries(*final(self)) == name_map_entries(*old(self)).insert(name@, value),
    {
        self.inner.insert(name, value);
    }
}

} // verus!
