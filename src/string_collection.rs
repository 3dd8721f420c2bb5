//! A write-once pool of short strings, each under a key that the producer chose.
use vstd::prelude::*;
use fxhash::{FxHashMap, FxHasher};
use std::hash::BuildHasherDefault;

verus! {

/// Strings of this many bytes or more are refused.
pub const POOL_SIZE: usize = 8192;

/// What a string names, and the producer's number for it.
#[derive(Debug, Clone, Copy, Hash, PartialEq, Eq)]
pub enum Key {
    StaticString(usize),
    ThreadName(usize),
}

/// fxhash's hasher, carried through as an opaque value.
#[verifier::external_type_specification]
#[verifier::external_body]
pub struct ExFxHasher(FxHasher);

/// std's builder of default hashers, carried through as an opaque value.
#[verifier::external_type_specification]
#[verifier::external_body]
#[verifier::reject_recursive_types(H)]
pub struct ExBuildHasherDefault<H>(BuildHasherDefault<H>);

/// Relies on `HashMap::contains_key` of an `FxHashMap`: whether `k` is a key.
#[verifier::external_body]
fn map_contains(m: &FxHashMap<Key, String>, k: &Key) -> (r: bool)
    ensures
        r == m@.contains_key(*k),
{
    m.contains_key(k)
}

/// Relies on `HashMap::insert` of an `FxHashMap`: binds `k` to `v`.
#[verifier::external_body]
fn map_insert(m: &mut FxHashMap<Key, String>, k: Key, v: String)
    ensures
        final(m)@ == old(m)@.insert(k, v),
{
    m.insert(k, v);
}

/// Relies on `HashMap::get` of an `FxHashMap`: the value bound to `k`, if any.
#[verifier::external_body]
fn map_get<'a>(m: &'a FxHashMap<Key, String>, k: &Key) -> (r: Option<&'a String>)
    ensures
        match r {
            Some(s) => m@.contains_key(*k) && *s == m@[*k],
            None => !m@.contains_key(*k),
        },
{
    m.get(k)
}

/// A map from keys to strings in which each key is bound once and for all.
pub struct StringCollection {
    map: FxHashMap<Key, String>,
}

impl View for StringCollection {
    type V = Map<Key, Seq<char>>;

    closed spec fn view(&self) -> Map<Key, Seq<char>> {
        self.map@.map_values(|s: String| s@)
    }
}

impl StringCollection {
    /// An empty collection.
    pub fn new() -> (r: Self)
        ensures
            r@ == Map::<Key, Seq<char>>::empty(),
    {
        let r = StringCollection { map: FxHashMap::default() };
        assert(r@ =~= Map::<Key, Seq<char>>::empty());
        r
    }

    /// Binds `k` to `v`, unless `k` is bound already or `v` holds
    /// `POOL_SIZE` bytes or more.
    pub fn insert(&mut self, k: Key, v: &str)
        ensures
            final(self)@ == if v.len() >= POOL_SIZE || old(self)@.contains_key(k) {
                old(self)@
            } else {
                old(self)@.insert(k, v@)
            },
    {
        if v.len() >= POOL_SIZE {
            return;
        }
        if !map_contains(&self.map, &k) {
            let s = v.to_owned();
            let ghost before = self.map@;
            map_insert(&mut self.map, k, s);
            assert(self@ =~= old(self)@.insert(k, v@));
        } else {
            assert(old(self)@.contains_key(k));
        }
    }

    /// The string bound to `k`, if any.
    pub fn get(&self, k: Key) -> (r: Option<&str>)
        ensures
            match r {
                Some(s) => self@.contains_key(k) && s@ == self@[k],
                None => !self@.contains_key(k),
            },
    {
        match map_get(&self.map, &k) {
            Some(s) => Some(s.as_str()),
            None => None,
        }
    }

    /// The string bound to `k`, or `"????"` when there is none.
    pub fn index(&self, k: Key) -> (r: &str)
        ensures
            r@ == if self@.contains_key(k) {
                self@[k]
            } else {
                "????"@
            },
    {
        match self.get(k) {
            Some(s) => s,
            None => "????",
        }
    }
}

} // verus!
