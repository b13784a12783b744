//! The trusted boundary around `hashbrown`: a private table type whose
//! methods wrap the calls the store makes into `hashbrown::HashMap`.
//!
//! The verifier cannot look inside the hash map (its type cannot be declared
//! to it: the allocator type parameter is refused), so the table is opaque
//! and [`table_contents`] names what it holds. Each method's contract states,
//! over that name, what hashbrown's documentation and source promise of the
//! call. Nothing else in the crate is trusted.

use vstd::prelude::*;

verus! {

/// What a [`Table`] holds, as a mathematical map from key characters to value
/// bytes. Two `String` keys hash and compare equal exactly when their
/// character sequences are equal, so `Seq<char>` identifies a key.
pub uninterp spec fn table_contents(t: Table) -> Map<Seq<char>, Seq<u8>>;

/// The empty contents: what a table holds when nothing has been put in.
pub open spec fn empty_contents() -> Map<Seq<char>, Seq<u8>> {
    Map::empty()
}

/// A hash table from `String` keys to byte values, kept in a
/// `hashbrown::HashMap`. The verifier sees it only through
/// [`table_contents`] and the trusted methods below.
#[verifier::external_body]
pub struct Table {
    map: hashbrown::HashMap<String, Vec<u8>>,
}

impl Table {
    /// Relies on `hashbrown::HashMap::new`: the new map holds nothing.
    #[verifier::external_body]
    pub fn new() -> (r: Table)
        ensures
            table_contents(r) == empty_contents(),
    {
        Table { map: hashbrown::HashMap::new() }
    }

    /// Relies on `hashbrown::HashMap::insert`: the pair is added, and the
    /// value previously under an equal key, if any, is replaced and returned.
    #[verifier::external_body]
    pub fn insert(&mut self, key: &str, value: Vec<u8>) -> (r: Option<Vec<u8>>)
        ensures
            table_contents(*final(self)) == table_contents(*old(self)).insert(key@, value@),
            match r {
                Some(prev) => table_contents(*old(self)).contains_key(key@)
                    && prev@ == table_contents(*old(self))[key@],
                None => !table_contents(*old(self)).contains_key(key@),
            },
    {
        self.map.insert(key.to_string(), value)
    }

    /// Relies on `hashbrown::HashMap::get`: the value under an equal key, if
    /// one is present. The body clones the value out.
    #[verifier::external_body]
    pub fn get(&self, key: &str) -> (r: Option<Vec<u8>>)
        ensures
            match r {
                Some(v) => table_contents(*self).contains_key(key@)
                    && v@ == table_contents(*self)[key@],
                None => !table_contents(*self).contains_key(key@),
            },
    {
        self.map.get(key).cloned()
    }

    /// Relies on `hashbrown::HashMap::remove`: the entry under an equal key,
    /// if one is present, leaves the map and its value is returned.
    #[verifier::external_body]
    pub fn remove(&mut self, key: &str) -> (r: Option<Vec<u8>>)
        ensures
            table_contents(*final(self)) == table_contents(*old(self)).remove(key@),
            match r {
                Some(prev) => table_contents(*old(self)).contains_key(key@)
                    && prev@ == table_contents(*old(self))[key@],
                None => !table_contents(*old(self)).contains_key(key@),
            },
    {
        self.map.remove(key)
    }

    /// Relies on `hashbrown::HashMap::len`: the number of entries held.
    #[verifier::external_body]
    pub fn len(&self) -> (r: usize)
        requires
            table_contents(*self).dom().finite(),
        ensures
            r == table_contents(*self).dom().len(),
    {
        self.map.len()
    }

    /// Relies on `hashbrown::HashMap::iter`: every entry is yielded exactly
    /// once, in no promised order (so no order is stated here). The body
    /// clones each pair out.
    #[verifier::external_body]
    pub fn entries(&self) -> (r: Vec<(String, Vec<u8>)>)
        requires
            table_contents(*self).dom().finite(),
        ensures
            r@.len() == table_contents(*self).dom().len(),
            forall|i: int| 0 <= i < r@.len() ==> {
                &&& table_contents(*self).contains_key((#[trigger] r@[i]).0@)
                &&& r@[i].1@ == table_contents(*self)[r@[i].0@]
            },
            forall|i: int, j: int|
                0 <= i < j < r@.len() ==> (#[trigger] r@[i]).0@ != (#[trigger] r@[j]).0@,
            forall|k: Seq<char>| #[trigger]
                table_contents(*self).contains_key(k) ==> exists|i: int|
                    0 <= i < r@.len() && (#[trigger] r@[i]).0@ == k,
    {
        self.map.iter().map(|(k, v)| (k.clone(), v.clone())).collect()
    }
}

} // verus!
