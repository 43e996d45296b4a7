//! That the order in which records are found does not matter.
//!
//! Each record found changes the item of its own hash alone, and only from
//! nothing or from an output to the record. So whatever the order in which
//! the records of different hashes come in, the cache ends up the same.

use vstd::prelude::*;

use crate::counting::{lemma_sum_any_order, sum};
use crate::item::StoreItemView;
use crate::narinfo::NarInfoView;
use crate::store::StoreCacheView;

verus! {

/// Whether no two of the records are of the same hash.
pub open spec fn distinct_hashes(found: Seq<(Seq<u8>, NarInfoView)>) -> bool {
    forall|i: int, j: int|
        0 <= i < j < found.len() ==> (#[trigger] found[i]).0 != (#[trigger] found[j]).0
}

/// Whether one of the records is of `hash`.
pub open spec fn finds(found: Seq<(Seq<u8>, NarInfoView)>, hash: Seq<u8>) -> bool {
    exists|i: int| 0 <= i < found.len() && (#[trigger] found[i]).0 == hash
}

/// The record found of `hash`.
pub open spec fn record_of(found: Seq<(Seq<u8>, NarInfoView)>, hash: Seq<u8>) -> NarInfoView {
    found[choose|i: int| 0 <= i < found.len() && (#[trigger] found[i]).0 == hash].1
}

impl StoreCacheView {
    /// The items once records of different hashes were found, in whatever
    /// order: each hash that takes a record has it, and every other item
    /// is as it was.
    pub open spec fn merged_items(self, found: Seq<(Seq<u8>, NarInfoView)>) -> Map<
        Seq<u8>,
        StoreItemView,
    > {
        Map::new(
            |hash: Seq<u8>| self.items.contains_key(hash) || finds(found, hash),
            |hash: Seq<u8>|
                if finds(found, hash) && self.takes(hash) {
                    StoreItemView::NarInfo(record_of(found, hash))
                } else {
                    self.items[hash]
                },
        )
    }

    /// A record changes the item of its own hash at most, takes no hash
    /// out of the cache, and leaves what is pending alone.
    pub proof fn lemma_merge_local(self, hash: Seq<u8>, info: NarInfoView, other: Seq<u8>)
        ensures
            self.merge(hash, info).pending == self.pending,
            self.items.contains_key(other) ==> self.merge(hash, info).items.contains_key(other),
            other != hash ==> (self.merge(hash, info).items.contains_key(other)
                <==> self.items.contains_key(other)),
            other != hash && self.items.contains_key(other) ==> self.merge(hash, info).items[other]
                == self.items[other],
            other != hash ==> (self.merge(hash, info).takes(other) <==> self.takes(other)),
    {
    }

    /// A record is taken once: a second record of the same hash changes
    /// nothing.
    pub proof fn lemma_merge_once(self, hash: Seq<u8>, info: NarInfoView, again: NarInfoView)
        ensures
            self.merge(hash, info).merge(hash, again) == self.merge(hash, info),
    {
        if self.takes(hash) {
            assert(!self.merge(hash, info).takes(hash));
        } else {
            assert(!self.merge(hash, info).takes(hash));
        }
    }

    /// Two records of different hashes can be found in either order.
    pub proof fn lemma_merge_commutes(
        self,
        first: (Seq<u8>, NarInfoView),
        second: (Seq<u8>, NarInfoView),
    )
        requires
            first.0 != second.0,
        ensures
            self.merge(first.0, first.1).merge(second.0, second.1) == self.merge(
                second.0,
                second.1,
            ).merge(first.0, first.1),
    {
        let one = self.merge(first.0, first.1).merge(second.0, second.1);
        let other = self.merge(second.0, second.1).merge(first.0, first.1);
        assert(one.items =~= other.items);
    }

    /// The cache after records of different hashes were found in order.
    pub proof fn lemma_merge_all(self, found: Seq<(Seq<u8>, NarInfoView)>)
        requires
            distinct_hashes(found),
        ensures
            self.merge_all(found).items == self.merged_items(found),
            self.merge_all(found).pending == self.pending,
        decreases found.len(),
    {
        if found.len() == 0 {
            assert(self.items =~= self.merged_items(found));
        } else {
            let shorter = found.drop_last();
            let last = found.last();
            assert(distinct_hashes(shorter)) by {
                assert forall|i: int, j: int| 0 <= i < j < shorter.len() implies (#[trigger] shorter[i]).0
                    != (#[trigger] shorter[j]).0 by {
                    assert(shorter[i] == found[i] && shorter[j] == found[j]);
                }
            }
            self.lemma_merge_all(shorter);
            let before = self.merge_all(shorter);
            let after = before.merge(last.0, last.1);
            assert(!finds(shorter, last.0)) by {
                if finds(shorter, last.0) {
                    let i = choose|i: int|
                        0 <= i < shorter.len() && (#[trigger] shorter[i]).0 == last.0;
                    assert(shorter[i] == found[i]);
                    assert(found[i].0 != found[found.len() - 1].0);
                }
            }
            assert(before.takes(last.0) <==> self.takes(last.0));
            assert forall|hash: Seq<u8>| finds(found, hash) <==> (finds(shorter, hash) || hash
                == last.0) by {
                if finds(shorter, hash) {
                    let i = choose|i: int|
                        0 <= i < shorter.len() && (#[trigger] shorter[i]).0 == hash;
                    assert(found[i].0 == hash);
                }
                if hash == last.0 {
                    assert(found[found.len() - 1].0 == hash);
                }
                if finds(found, hash) {
                    let i = choose|i: int| 0 <= i < found.len() && (#[trigger] found[i]).0 == hash;
                    if i < found.len() - 1 {
                        assert(shorter[i].0 == hash);
                    }
                }
            }
            assert forall|hash: Seq<u8>| finds(shorter, hash) implies record_of(found, hash)
                == record_of(shorter, hash) by {
                let i = choose|i: int| 0 <= i < shorter.len() && (#[trigger] shorter[i]).0 == hash;
                let j = choose|j: int| 0 <= j < found.len() && (#[trigger] found[j]).0 == hash;
                assert(found[i].0 == hash);
                if i < j {
                    assert(found[i].0 != found[j].0);
                }
                if j < i {
                    assert(found[j].0 != found[i].0);
                }
            }
            assert(record_of(found, last.0) == last.1) by {
                let j = choose|j: int| 0 <= j < found.len() && (#[trigger] found[j]).0 == last.0;
                if j < found.len() - 1 {
                    assert(found[j].0 != found[found.len() - 1].0);
                }
            }
            assert(after.items =~= self.merged_items(found));
        }
    }

    /// Records of different hashes leave the cache the same, in whatever
    /// order they are found.
    pub proof fn lemma_merge_any_order(
        self,
        found: Seq<(Seq<u8>, NarInfoView)>,
        reordered: Seq<(Seq<u8>, NarInfoView)>,
    )
        requires
            distinct_hashes(found),
            distinct_hashes(reordered),
            found.to_multiset() == reordered.to_multiset(),
        ensures
            self.merge_all(found) == self.merge_all(reordered),
    {
        self.lemma_merge_all(found);
        self.lemma_merge_all(reordered);
        lemma_same_records(found, reordered);
        lemma_same_records(reordered, found);
        assert forall|hash: Seq<u8>| finds(found, hash) implies record_of(found, hash) == record_of(
            reordered,
            hash,
        ) by {
            let i = choose|i: int| 0 <= i < found.len() && (#[trigger] found[i]).0 == hash;
            assert(reordered.contains(found[i]));
            let j = choose|j: int| 0 <= j < reordered.len() && reordered[j] == found[i];
            let k = choose|k: int|
                0 <= k < reordered.len() && (#[trigger] reordered[k]).0 == hash;
            assert(reordered[j].0 == hash);
            if j < k {
                assert(reordered[j].0 != reordered[k].0);
            }
            if k < j {
                assert(reordered[k].0 != reordered[j].0);
            }
        }
        assert(self.merged_items(found) =~= self.merged_items(reordered));
    }

    /// Records found keep a consistent cache consistent.
    pub proof fn lemma_merge_consistent(self, hash: Seq<u8>, info: NarInfoView)
        requires
            self.consistent(),
        ensures
            self.merge(hash, info).consistent(),
            self.complete() ==> self.merge(hash, info).complete(),
    {
        let after = self.merge(hash, info);
        assert forall|key: Seq<u8>, held: crate::derivation::DrvView| #[trigger]
            after.has_drv(key, held) implies self.has_drv(key, held) by {}
        assert forall|key: Seq<u8>, held: crate::derivation::DrvView| #[trigger]
            after.has_drv(key, held) implies after.has_sources_and_outputs(held) && forall|i: int|
            0 <= i < held.input_drvs.len() ==> #[trigger] after.covers(key, held, i) by {
            assert(self.has_drv(key, held));
            assert(self.has_sources_and_outputs(held));
            assert forall|i: int| 0 <= i < held.input_srcs.len() implies after.has_path(
                #[trigger] held.input_srcs[i],
            ) by {
                assert(self.has_path(held.input_srcs[i]));
            }
            assert forall|i: int| 0 <= i < held.outputs.len() implies after.has_path(
                (#[trigger] held.outputs[i]).path,
            ) by {
                assert(self.has_path(held.outputs[i].path));
            }
            assert forall|i: int| 0 <= i < held.input_drvs.len() implies #[trigger] after.covers(
                key,
                held,
                i,
            ) by {
                assert(self.covers(key, held, i));
                if self.has_path(held.input_drvs[i].path) {
                } else {
                    let f = choose|f: int|
                        0 <= f < self.pending.len() && (#[trigger] self.pending[f]).hash == key
                            && self.pending[f].drv == held && self.pending[f].next <= i;
                    assert(after.pending == self.pending);
                    assert(after.pending[f].hash == key);
                    assert(after.is_pending(key, held, i));
                }
            }
        }
        if self.complete() {
            assert forall|key: Seq<u8>, held: crate::derivation::DrvView| #[trigger]
                after.has_drv(key, held) implies after.has_sources_and_outputs(held)
                && forall|i: int|
                0 <= i < held.input_drvs.len() ==> after.has_path(
                    (#[trigger] held.input_drvs[i]).path,
                ) by {
                assert(self.has_drv(key, held));
                assert forall|i: int| 0 <= i < held.input_drvs.len() implies after.has_path(
                    (#[trigger] held.input_drvs[i]).path,
                ) by {
                    assert(self.has_path(held.input_drvs[i].path));
                }
            }
        }
    }
}

impl StoreCacheView {
    /// Records found, however many, keep a consistent cache consistent.
    pub proof fn lemma_merge_all_consistent(self, found: Seq<(Seq<u8>, NarInfoView)>)
        requires
            self.consistent(),
        ensures
            self.merge_all(found).consistent(),
            self.complete() ==> self.merge_all(found).complete(),
        decreases found.len(),
    {
        if found.len() > 0 {
            self.lemma_merge_all_consistent(found.drop_last());
            self.merge_all(found.drop_last()).lemma_merge_consistent(
                found.last().0,
                found.last().1,
            );
        }
    }
}

/// The hashes of the records, in order.
pub open spec fn hashes_of(found: Seq<(Seq<u8>, NarInfoView)>) -> Seq<Seq<u8>> {
    found.map_values(|record: (Seq<u8>, NarInfoView)| record.0)
}

impl StoreCacheView {
    /// One for a hash that takes a record, nothing for any other.
    pub open spec fn takes_one(self) -> spec_fn(Seq<u8>) -> nat {
        |hash: Seq<u8>|
            if self.takes(hash) {
                1nat
            } else {
                0nat
            }
    }

    /// Of records of different hashes, as many are taken as come on a hash
    /// that had no item or an output before any of them.
    pub proof fn lemma_merge_count(self, found: Seq<(Seq<u8>, NarInfoView)>)
        requires
            distinct_hashes(found),
        ensures
            self.merge_count(found) == sum(self.takes_one(), hashes_of(found)),
        decreases found.len(),
    {
        if found.len() > 0 {
            let shorter = found.drop_last();
            let last = found.last();
            assert(distinct_hashes(shorter)) by {
                assert forall|i: int, j: int| 0 <= i < j < shorter.len() implies (#[trigger] shorter[i]).0
                    != (#[trigger] shorter[j]).0 by {
                    assert(shorter[i] == found[i] && shorter[j] == found[j]);
                }
            }
            self.lemma_merge_count(shorter);
            self.lemma_merge_all(shorter);
            assert(!finds(shorter, last.0)) by {
                if finds(shorter, last.0) {
                    let i = choose|i: int|
                        0 <= i < shorter.len() && (#[trigger] shorter[i]).0 == last.0;
                    assert(shorter[i] == found[i]);
                    assert(found[i].0 != found[found.len() - 1].0);
                }
            }
            assert(self.merge_all(shorter).takes(last.0) <==> self.takes(last.0));
            assert(hashes_of(found).drop_last() =~= hashes_of(shorter));
            assert(hashes_of(found).last() == last.0);
        }
    }

    /// Records of different hashes are taken in the same number, in
    /// whatever order they are found.
    pub proof fn lemma_merge_count_any_order(
        self,
        found: Seq<(Seq<u8>, NarInfoView)>,
        reordered: Seq<(Seq<u8>, NarInfoView)>,
    )
        requires
            distinct_hashes(found),
            distinct_hashes(reordered),
            found.to_multiset() == reordered.to_multiset(),
        ensures
            self.merge_count(found) == self.merge_count(reordered),
    {
        self.lemma_merge_count(found);
        self.lemma_merge_count(reordered);
        lemma_same_records(found, reordered);
        lemma_same_records(reordered, found);
        let a = hashes_of(found);
        let b = hashes_of(reordered);
        assert forall|hash: Seq<u8>| a.contains(hash) <==> b.contains(hash) by {
            if a.contains(hash) {
                let i = choose|i: int| 0 <= i < a.len() && a[i] == hash;
                assert(found[i].0 == hash);
                assert(finds(reordered, hash));
                let j = choose|j: int|
                    0 <= j < reordered.len() && (#[trigger] reordered[j]).0 == hash;
                assert(b[j] == hash);
            }
            if b.contains(hash) {
                let i = choose|i: int| 0 <= i < b.len() && b[i] == hash;
                assert(reordered[i].0 == hash);
                assert(finds(found, hash));
                let j = choose|j: int| 0 <= j < found.len() && (#[trigger] found[j]).0 == hash;
                assert(a[j] == hash);
            }
        }
        assert(a.no_duplicates()) by {
            assert forall|i: int, j: int| 0 <= i < a.len() && 0 <= j < a.len() && i != j implies a[i]
                != a[j] by {
                if i < j {
                    assert(found[i].0 != found[j].0);
                } else {
                    assert(found[j].0 != found[i].0);
                }
            }
        }
        assert(b.no_duplicates()) by {
            assert forall|i: int, j: int| 0 <= i < b.len() && 0 <= j < b.len() && i != j implies b[i]
                != b[j] by {
                if i < j {
                    assert(reordered[i].0 != reordered[j].0);
                } else {
                    assert(reordered[j].0 != reordered[i].0);
                }
            }
        }
        lemma_sum_any_order(self.takes_one(), a, b);
    }
}

/// Two lists with the same records, counted, hold each other's records.
pub proof fn lemma_same_records(
    found: Seq<(Seq<u8>, NarInfoView)>,
    reordered: Seq<(Seq<u8>, NarInfoView)>,
)
    requires
        found.to_multiset() == reordered.to_multiset(),
    ensures
        forall|i: int| 0 <= i < found.len() ==> reordered.contains(#[trigger] found[i]),
        forall|hash: Seq<u8>| finds(found, hash) ==> finds(reordered, hash),
{
    broadcast use vstd::seq_lib::group_to_multiset_ensures;

    assert forall|i: int| 0 <= i < found.len() implies reordered.contains(
        #[trigger] found[i],
    ) by {
        assert(found.contains(found[i]));
        assert(found.to_multiset().count(found[i]) > 0);
        assert(reordered.to_multiset().count(found[i]) > 0);
    }
    assert forall|hash: Seq<u8>| finds(found, hash) implies finds(reordered, hash) by {
        let i = choose|i: int| 0 <= i < found.len() && (#[trigger] found[i]).0 == hash;
        assert(reordered.contains(found[i]));
        let j = choose|j: int| 0 <= j < reordered.len() && reordered[j] == found[i];
        assert(reordered[j].0 == hash);
    }
}

} // verus!
