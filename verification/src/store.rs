//! The row store of a table: rows by storage key, handed out in ascending
//! key order.

use std::collections::BTreeMap;
use vstd::prelude::*;
use vstd::std_specs::btree::increasing_seq;
use vstd::std_specs::cmp::OrdSpec;
use vstd::std_specs::iter::IteratorSpec;
use crate::definitions::LiteralValue;
use crate::order::{key_order, lemma_key_order_is, lists_keys};

verus! {

broadcast use vstd::laws_cmp::group_laws_cmp;

/// The cells of one row, in header order.
pub type TableRow = Vec<LiteralValue>;

/// The key under which a row is stored.
pub type PkType = u64;

/// Rows by storage key.
pub struct RowStore {
    map: BTreeMap<PkType, TableRow>,
}

impl View for RowStore {
    type V = Map<PkType, TableRow>;

    closed spec fn view(&self) -> Map<PkType, TableRow> {
        self.map@
    }
}

/// Keys that the map hands out in its order are ascending numbers.
proof fn lemma_ascending(keys: Seq<&u64>)
    requires
        increasing_seq(keys),
    ensures
        forall|i: int, j: int| 0 <= i < j < keys.len() ==> *keys[i] < *keys[j],
{
    vstd::std_specs::btree::axiom_increasing_seq_meaning::<&u64>(keys);
    assert forall|i: int, j: int| 0 <= i < j < keys.len() implies *keys[i] < *keys[j] by {
        assert(OrdSpec::cmp_spec(&keys[i], &keys[j]) is Less);
    }
}

impl RowStore {
    /// A store without rows.
    pub fn new() -> (s: RowStore)
        ensures
            s@ == Map::<PkType, TableRow>::empty(),
    {
        RowStore { map: BTreeMap::new() }
    }

    /// The number of keys is finite.
    pub proof fn lemma_finite(&self)
        ensures
            self@.dom().finite(),
    {
    }

    /// Whether a row is stored at `key`.
    pub fn contains_key(&self, key: PkType) -> (r: bool)
        ensures
            r == self@.contains_key(key),
    {
        self.map.contains_key(&key)
    }

    /// The row stored at `key`.
    pub fn get(&self, key: PkType) -> (r: Option<&TableRow>)
        ensures
            match r {
                Some(row) => self@.contains_key(key) && *row == self@[key],
                None => !self@.contains_key(key),
            },
    {
        self.map.get(&key)
    }

    /// Stores `row` at `key`, in place of the row that was there.
    pub fn insert(&mut self, key: PkType, row: TableRow)
        ensures
            final(self)@ == old(self)@.insert(key, row),
    {
        self.map.insert(key, row);
    }

    /// Takes out the row stored at `key`, if there is one.
    pub fn remove(&mut self, key: PkType) -> (r: Option<TableRow>)
        ensures
            final(self)@ == old(self)@.remove(key),
            match r {
                Some(row) => old(self)@.contains_key(key) && row == old(self)@[key],
                None => !old(self)@.contains_key(key),
            },
    {
        self.map.remove(&key)
    }

    /// Takes out every row.
    pub fn clear(&mut self)
        ensures
            final(self)@ == Map::<PkType, TableRow>::empty(),
    {
        self.map.clear();
    }

    /// Number of rows.
    pub fn len(&self) -> (n: usize)
        ensures
            n == self@.dom().len(),
    {
        self.map.len()
    }

    /// The keys in ascending order.
    pub fn keys(&self) -> (keys: Vec<PkType>)
        ensures
            keys@ == key_order(self@.dom()),
    {
        let mut keys: Vec<PkType> = Vec::new();
        let ghost listed = self.map.keys().remaining();
        for k in it: self.map.keys()
            invariant
                keys@.len() == it.index(),
                it.seq() == listed,
                forall|i: int| 0 <= i < keys@.len() ==> keys@[i] == *it.seq()[i],
        {
            keys.push(*k);
        }
        proof {
            assert(keys@ =~= listed.unref());
            lemma_ascending(listed);
            assert(lists_keys(keys@, self@.dom())) by {
                assert(keys@.to_set() == self@.dom());
                assert forall|k: u64| self@.dom().contains(k) <==> keys@.contains(k) by {
                    assert(keys@.to_set().contains(k) <==> keys@.contains(k));
                }
            }
            lemma_key_order_is(keys@, self@.dom());
        }
        keys
    }
}

} // verus!
