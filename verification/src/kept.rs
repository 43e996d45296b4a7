//! That an item of the cache stays what it is.
//!
//! Whatever is done with a cache, a hash that has an item keeps it. The one
//! change is that of an output into the record that a binary cache holds of
//! it. A derivation that is registered is the item of its hash from then
//! on.

use vstd::prelude::*;

use crate::complete::lemma_registered;
use crate::derivation::DrvView;
use crate::hash::hash_of_path;
use crate::item::StoreItemView;
use crate::narinfo::NarInfoView;
use crate::store::{registered, StoreCacheView};

verus! {

impl StoreCacheView {
    /// Whether each item of this cache is in `later` what it is here, or a
    /// record there where it is an output here.
    pub open spec fn keeps(self, later: StoreCacheView) -> bool {
        forall|hash: Seq<u8>| #[trigger]
            self.items.contains_key(hash) ==> later.items.contains_key(hash) && (
            later.items[hash] == self.items[hash] || (self.items[hash] is Output
                && later.items[hash] is NarInfo))
    }

    /// What a cache keeps of an earlier one, a later one keeps too.
    pub proof fn lemma_keeps_on(self, later: StoreCacheView, last: StoreCacheView)
        requires
            self.keeps(later),
            later.keeps(last),
        ensures
            self.keeps(last),
    {
        assert forall|hash: Seq<u8>| #[trigger] self.items.contains_key(hash) implies last.items.contains_key(
            hash,
        ) && (last.items[hash] == self.items[hash] || (self.items[hash] is Output
            && last.items[hash] is NarInfo)) by {
            assert(later.items.contains_key(hash));
        }
    }

    /// Beginning a discovery changes no item, and where it registers the
    /// derivation, the derivation is the item of its hash.
    pub proof fn lemma_discover_keeps(self, hash: Seq<u8>, drv: DrvView)
        ensures
            self.keeps(self.discover(hash, drv)),
            !self.items.contains_key(hash) && drv.has_store_paths() ==> self.discover(
                hash,
                drv,
            ).has_drv(hash, drv),
    {
        lemma_registered(self.items, hash, drv);
        let after = self.discover(hash, drv);
        assert forall|key: Seq<u8>| #[trigger] self.items.contains_key(key) implies after.items.contains_key(
            key,
        ) && after.items[key] == self.items[key] by {
            if !self.items.contains_key(hash) && drv.has_store_paths() {
                assert(registered(self.items, hash, drv).contains_key(key));
            }
        }
    }

    /// Doing what needs no file changes no item.
    pub proof fn lemma_settle_keeps(self)
        ensures
            self.keeps(self.settle()),
    {
        self.lemma_settle_items();
    }

    /// Handing in an awaited derivation changes no item. The hash of the
    /// awaited file then has an item: the derivation handed in where it
    /// had none, and the item it had otherwise.
    pub proof fn lemma_supply_keeps(self, drv: DrvView)
        ensures
            self.keeps(self.supply(drv)),
            self.supply_error(drv) is None ==> {
                let hash = hash_of_path(self.top().awaited());
                &&& self.supply(drv).items.contains_key(hash)
                &&& !self.items.contains_key(hash) ==> self.supply(drv).has_drv(hash, drv)
                &&& self.items.contains_key(hash) ==> self.supply(drv).items[hash]
                    == self.items[hash]
            },
    {
        let after = self.supply(drv);
        if self.supply_error(drv) is None {
            let hash = hash_of_path(self.top().awaited());
            lemma_registered(self.items, hash, drv);
            assert forall|key: Seq<u8>| #[trigger] self.items.contains_key(key) implies after.items.contains_key(
                key,
            ) && after.items[key] == self.items[key] by {
                if !self.items.contains_key(hash) {
                    assert(registered(self.items, hash, drv).contains_key(key));
                }
            }
        }
    }

    /// A record found changes the item of its own hash alone, and only
    /// from an output to the record.
    pub proof fn lemma_merge_keeps(self, hash: Seq<u8>, info: NarInfoView)
        ensures
            self.keeps(self.merge(hash, info)),
    {
    }

    /// Records found change outputs into records, and no other item.
    pub proof fn lemma_merge_all_keeps(self, found: Seq<(Seq<u8>, NarInfoView)>)
        ensures
            self.keeps(self.merge_all(found)),
        decreases found.len(),
    {
        if found.len() > 0 {
            let before = self.merge_all(found.drop_last());
            self.lemma_merge_all_keeps(found.drop_last());
            before.lemma_merge_keeps(found.last().0, found.last().1);
            self.lemma_keeps_on(before, self.merge_all(found));
        }
    }

    /// An item put into the cache changes no other.
    pub proof fn lemma_add_keeps(self, hash: Seq<u8>, item: StoreItemView)
        ensures
            self.keeps(self.add(hash, item)),
    {
    }
}

} // verus!
