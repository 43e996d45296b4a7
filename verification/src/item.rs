//! The items of a store, and the map that holds them by their hashes.

use vstd::prelude::*;

use crate::derivation::{Drv, DrvView};
use crate::hash::StoreHash;
use crate::narinfo::{NarInfo, NarInfoView};

verus! {

/// What is known of one store item.
#[derive(Debug)]
pub enum StoreItem {
    /// A derivation.
    Drv(Drv),
    /// The record that a binary cache holds of the item.
    NarInfo(Box<NarInfo>),
    /// A source, by its name: it is copied, never built.
    Source(String),
    /// An output, by its name, of the derivation with the given hash.
    Output(String, StoreHash),
}

/// What a [`StoreItem`] holds.
pub enum StoreItemView {
    Drv(DrvView),
    NarInfo(NarInfoView),
    Source(Seq<char>),
    Output(Seq<char>, Seq<u8>),
}

impl DeepView for StoreItem {
    type V = StoreItemView;

    open spec fn deep_view(&self) -> StoreItemView {
        match self {
            StoreItem::Drv(drv) => StoreItemView::Drv(drv@),
            StoreItem::NarInfo(info) => StoreItemView::NarInfo(info@),
            StoreItem::Source(name) => StoreItemView::Source(name@),
            StoreItem::Output(name, deriver) => StoreItemView::Output(name@, deriver@),
        }
    }
}

impl View for StoreItem {
    type V = StoreItemView;

    open spec fn view(&self) -> StoreItemView {
        self.deep_view()
    }
}

impl Clone for StoreItem {
    fn clone(&self) -> (copy: Self)
        ensures
            copy@ == self@,
    {
        match self {
            StoreItem::Drv(drv) => StoreItem::Drv(drv.clone()),
            StoreItem::NarInfo(info) => {
                let inner: &NarInfo = info;
                StoreItem::NarInfo(Box::new(inner.clone()))
            },
            StoreItem::Source(name) => StoreItem::Source(name.clone()),
            StoreItem::Output(name, deriver) => StoreItem::Output(name.clone(), *deriver),
        }
    }
}

impl StoreItem {
    /// The derivation, where the item is one.
    pub fn as_drv(self) -> (drv: Option<Drv>)
        ensures
            match drv {
                Some(drv) => self@ == StoreItemView::Drv(drv@),
                None => !(self@ is Drv),
            },
    {
        if let StoreItem::Drv(drv) = self {
            Some(drv)
        } else {
            None
        }
    }

    /// The cache's record, where the item is one.
    pub fn as_narinfo(self) -> (info: Option<NarInfo>)
        ensures
            match info {
                Some(info) => self@ == StoreItemView::NarInfo(info@),
                None => !(self@ is NarInfo),
            },
    {
        if let StoreItem::NarInfo(info) = self {
            Some(*info)
        } else {
            None
        }
    }
}

/// Whether `entries` lists `map`: each entry stands in the map, each key of
/// the map has an entry, and no key has two.
pub open spec fn lists(entries: Seq<(Seq<u8>, StoreItemView)>, map: Map<Seq<u8>, StoreItemView>) -> bool {
    &&& forall|i: int|
        0 <= i < entries.len() ==> map.contains_key(#[trigger] entries[i].0) && map[entries[i].0]
            == entries[i].1
    &&& forall|key: Seq<u8>| #[trigger]
        map.contains_key(key) ==> exists|i: int| 0 <= i < entries.len() && entries[i].0 == key
    &&& forall|i: int, j: int|
        0 <= i < j < entries.len() ==> #[trigger] entries[i].0 != #[trigger] entries[j].0
}

/// The items with `item` under `hash` where the hash had no item, and as
/// they were where it had one.
pub open spec fn with_new(
    items: Map<Seq<u8>, StoreItemView>,
    hash: Seq<u8>,
    item: StoreItemView,
) -> Map<Seq<u8>, StoreItemView> {
    if items.contains_key(hash) {
        items
    } else {
        items.insert(hash, item)
    }
}

/// Store items by their hashes: each hash has at most one item.
///
/// The items are kept in a list, in the order in which their hashes came,
/// and a hash is found by going through it.
pub struct ItemMap {
    entries: Vec<(StoreHash, StoreItem)>,
}

impl View for ItemMap {
    type V = Map<Seq<u8>, StoreItemView>;

    closed spec fn view(&self) -> Map<Seq<u8>, StoreItemView> {
        Map::new(
            |key: Seq<u8>| self.position(key) is Some,
            |key: Seq<u8>| self.entries@[self.position(key)->0].1@,
        )
    }
}

impl ItemMap {
    #[verifier::type_invariant]
    spec fn distinct(self) -> bool {
        forall|i: int, j: int|
            0 <= i < j < self.entries@.len() ==> self.entries@[i].0@ != self.entries@[j].0@
    }

    /// Where the entry of `key` stands.
    spec fn position(self, key: Seq<u8>) -> Option<int> {
        if exists|i: int| 0 <= i < self.entries@.len() && self.entries@[i].0@ == key {
            Some(choose|i: int| 0 <= i < self.entries@.len() && self.entries@[i].0@ == key)
        } else {
            None
        }
    }

    /// The entries of the map, in the order in which their hashes came.
    pub closed spec fn pairs(self) -> Seq<(Seq<u8>, StoreItemView)> {
        self.entries.deep_view()
    }

    /// Finds the entry of `hash`.
    fn find(&self, hash: &StoreHash) -> (found: Option<usize>)
        ensures
            match found {
                Some(i) => i < self.entries@.len() && self.entries@[i as int].0@ == hash@
                    && self.position(hash@) == Some(i as int),
                None => self.position(hash@) is None,
            },
    {
        proof {
            use_type_invariant(self);
        }
        let mut i: usize = 0;
        while i < self.entries.len()
            invariant
                i <= self.entries@.len(),
                self.distinct(),
                forall|k: int| 0 <= k < i ==> self.entries@[k].0@ != hash@,
            decreases self.entries@.len() - i,
        {
            if self.entries[i].0 == *hash {
                return Some(i);
            }
            i += 1;
        }
        None
    }

    /// A map without items.
    pub fn new() -> (map: ItemMap)
        ensures
            map@ == Map::<Seq<u8>, StoreItemView>::empty(),
            map.pairs() == Seq::<(Seq<u8>, StoreItemView)>::empty(),
    {
        let map = ItemMap { entries: Vec::new() };
        assert(map@ =~= Map::<Seq<u8>, StoreItemView>::empty());
        assert(map.pairs() =~= Seq::<(Seq<u8>, StoreItemView)>::empty());
        map
    }

    /// How many items the map holds.
    pub fn len(&self) -> (count: usize)
        ensures
            count == self.pairs().len(),
            self@.dom().finite(),
            count == self@.dom().len(),
    {
        proof {
            use_type_invariant(self);
            let keys = self.pairs().map_values(|pair: (Seq<u8>, StoreItemView)| pair.0);
            assert forall|i: int, j: int| 0 <= i < keys.len() && 0 <= j < keys.len() && i
                != j implies keys[i] != keys[j] by {
                assert(keys[i] == self.entries@[i].0@ && keys[j] == self.entries@[j].0@);
            }
            keys.unique_seq_to_set();
            vstd::seq_lib::seq_to_set_is_finite(keys);
            assert(keys.to_set() =~= self@.dom()) by {
                assert forall|key: Seq<u8>| keys.to_set().contains(key) <==> self@.dom().contains(
                    key,
                ) by {
                    if keys.contains(key) {
                        let i = choose|i: int| 0 <= i < keys.len() && keys[i] == key;
                        assert(self.entries@[i].0@ == key);
                        assert(self.position(key) is Some);
                    }
                    if self@.dom().contains(key) {
                        let i = self.position(key)->0;
                        assert(keys[i] == key);
                    }
                }
            }
        }
        self.entries.len()
    }

    /// The items of the map, each with its hash.
    pub fn entries(&self) -> (entries: &Vec<(StoreHash, StoreItem)>)
        ensures
            entries.deep_view() == self.pairs(),
            lists(self.pairs(), self@),
    {
        proof {
            use_type_invariant(self);
            let entries = self.pairs();
            let map = self@;
            assert forall|i: int| 0 <= i < entries.len() implies map.contains_key(
                #[trigger] entries[i].0,
            ) && map[entries[i].0] == entries[i].1 by {
                assert(self.entries@[i].0@ == entries[i].0);
                assert(self.position(entries[i].0) is Some);
            }
            assert forall|key: Seq<u8>| #[trigger] map.contains_key(key) implies exists|i: int|
                0 <= i < entries.len() && entries[i].0 == key by {
                let i = self.position(key)->0;
                assert(entries[i].0 == key);
            }
        }
        &self.entries
    }

    /// Whether `hash` has an item.
    pub fn contains_key(&self, hash: &StoreHash) -> (held: bool)
        ensures
            held == self@.contains_key(hash@),
    {
        self.find(hash).is_some()
    }

    /// The item of `hash`.
    pub fn get(&self, hash: &StoreHash) -> (item: Option<&StoreItem>)
        ensures
            match item {
                Some(item) => self@.contains_key(hash@) && self@[hash@] == item@,
                None => !self@.contains_key(hash@),
            },
    {
        match self.find(hash) {
            Some(i) => Some(&self.entries[i].1),
            None => None,
        }
    }

    /// Gives `hash` the item `item` where it has none, and says whether
    /// it did.
    pub fn insert_new(&mut self, hash: StoreHash, item: StoreItem) -> (added: bool)
        ensures
            final(self)@ == with_new(old(self)@, hash@, item@),
            added == !old(self)@.contains_key(hash@),
    {
        if self.contains_key(&hash) {
            false
        } else {
            self.insert(hash, item);
            true
        }
    }

    /// Gives `hash` the item `item`, in place of the one it had.
    pub fn insert(&mut self, hash: StoreHash, item: StoreItem)
        ensures
            final(self)@ == old(self)@.insert(hash@, item@),
    {
        proof {
            use_type_invariant(&*self);
        }
        let ghost before = *self;
        match self.find(&hash) {
            Some(i) => {
                let mut entries: Vec<(StoreHash, StoreItem)> = Vec::new();
                core::mem::swap(&mut self.entries, &mut entries);
                entries[i] = (hash, item);
                core::mem::swap(&mut self.entries, &mut entries);
                assert forall|key: Seq<u8>| self.position(key) is Some <==> before.position(
                    key,
                ) is Some by {
                    if before.position(key) is Some {
                        let k = before.position(key)->0;
                        assert(self.entries@[k].0@ == key);
                    }
                    if self.position(key) is Some {
                        let k = self.position(key)->0;
                        assert(before.entries@[k].0@ == key);
                    }
                }
                assert forall|key: Seq<u8>| self.position(key) is Some implies self.entries@[self.position(
                    key,
                )->0].1@ == before@.insert(hash@, item@)[key] by {
                    let k = self.position(key)->0;
                    assert(before.entries@[k].0@ == key);
                    let b = before.position(key)->0;
                    assert(k == b);
                }
                assert(self@ =~= before@.insert(hash@, item@));
            },
            None => {
                let mut entries: Vec<(StoreHash, StoreItem)> = Vec::new();
                core::mem::swap(&mut self.entries, &mut entries);
                entries.push((hash, item));
                core::mem::swap(&mut self.entries, &mut entries);
                let ghost last = before.entries@.len() as int;
                assert forall|key: Seq<u8>| self.position(key) is Some <==> (before.position(
                    key,
                ) is Some || key == hash@) by {
                    if before.position(key) is Some {
                        let k = before.position(key)->0;
                        assert(self.entries@[k].0@ == key);
                    }
                    if key == hash@ {
                        assert(self.entries@[last].0@ == key);
                    }
                    if self.position(key) is Some {
                        let k = self.position(key)->0;
                        if k < last {
                            assert(before.entries@[k].0@ == key);
                        }
                    }
                }
                assert forall|key: Seq<u8>| self.position(key) is Some implies self.entries@[self.position(
                    key,
                )->0].1@ == before@.insert(hash@, item@)[key] by {
                    let k = self.position(key)->0;
                    if k < last {
                        assert(before.entries@[k].0@ == key);
                        let b = before.position(key)->0;
                        assert(k == b);
                    }
                }
                assert(self@ =~= before@.insert(hash@, item@));
            },
        }
    }
}

} // verus!
