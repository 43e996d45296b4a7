//! That the cache holds whatever its derivations need to be built.
//!
//! While a discovery runs, each registered derivation has its sources and
//! outputs in the cache, and each of its input derivations is in the cache
//! or still to be seen to by a pending derivation. Every cache is in this
//! state, whatever was done with it. Once nothing is pending, everything
//! that can be reached from a derivation of the cache is in it.

use vstd::prelude::*;

use crate::derivation::{DrvOutputView, DrvView};
use crate::hash::hash_of_path;
use crate::item::{with_new, StoreItemView};
use crate::store::{registered, with_outputs, with_sources, FrameView, StoreCacheView};

verus! {

impl StoreCacheView {
    /// Whether the item that a path leads to is in the cache.
    pub open spec fn has_path(self, path: Seq<char>) -> bool {
        self.items.contains_key(hash_of_path(path))
    }

    /// Whether `hash` has a derivation, and it is `drv`.
    pub open spec fn has_drv(self, hash: Seq<u8>, drv: DrvView) -> bool {
        self.items.contains_key(hash) && self.items[hash] == StoreItemView::Drv(drv)
    }

    /// Whether the sources and outputs of `drv` are in the cache.
    pub open spec fn has_sources_and_outputs(self, drv: DrvView) -> bool {
        &&& forall|i: int|
            0 <= i < drv.input_srcs.len() ==> self.has_path(#[trigger] drv.input_srcs[i])
        &&& forall|i: int|
            0 <= i < drv.outputs.len() ==> self.has_path((#[trigger] drv.outputs[i]).path)
    }

    /// Whether a pending derivation has still to see to the input
    /// derivation `input` of `drv`, registered under `hash`.
    pub open spec fn is_pending(self, hash: Seq<u8>, drv: DrvView, input: int) -> bool {
        exists|f: int|
            0 <= f < self.pending.len() && (#[trigger] self.pending[f]).hash == hash
                && self.pending[f].drv == drv && self.pending[f].next <= input
    }

    /// Whether the input derivation `input` of `drv`, registered under
    /// `hash`, is in the cache or still to be seen to.
    pub open spec fn covers(self, hash: Seq<u8>, drv: DrvView, input: int) -> bool {
        self.has_path(drv.input_drvs[input].path) || self.is_pending(hash, drv, input)
    }

    /// Whether each derivation of the cache has its sources and outputs in
    /// the cache, and each of its input derivations in the cache or still
    /// to be seen to.
    pub open spec fn consistent(self) -> bool {
        forall|hash: Seq<u8>, drv: DrvView| #[trigger]
            self.has_drv(hash, drv) ==> self.has_sources_and_outputs(drv) && forall|i: int|
                0 <= i < drv.input_drvs.len() ==> #[trigger] self.covers(hash, drv, i)
    }

    /// Whether each derivation of the cache has its sources, its outputs
    /// and its input derivations in the cache.
    pub open spec fn complete(self) -> bool {
        forall|hash: Seq<u8>, drv: DrvView| #[trigger]
            self.has_drv(hash, drv) ==> self.has_sources_and_outputs(drv) && forall|i: int|
                0 <= i < drv.input_drvs.len() ==> self.has_path(
                    (#[trigger] drv.input_drvs[i]).path,
                )
    }

    /// Whether the derivation under `from` names the item `to` as a
    /// source, an output or an input derivation.
    pub open spec fn names(self, from: Seq<u8>, to: Seq<u8>) -> bool {
        exists|drv: DrvView| #[trigger]
            self.has_drv(from, drv) && {
                ||| exists|i: int|
                    0 <= i < drv.input_srcs.len() && hash_of_path(#[trigger] drv.input_srcs[i])
                        == to
                ||| exists|i: int|
                    0 <= i < drv.outputs.len() && hash_of_path((#[trigger] drv.outputs[i]).path)
                        == to
                ||| exists|i: int|
                    0 <= i < drv.input_drvs.len() && hash_of_path(
                        (#[trigger] drv.input_drvs[i]).path,
                    ) == to
            }
    }

    /// Whether each hash of `chain` but the last names the next.
    pub open spec fn links(self, chain: Seq<Seq<u8>>) -> bool {
        forall|i: int| 0 <= i < chain.len() - 1 ==> self.names(#[trigger] chain[i], chain[i + 1])
    }

    /// A cache without items is consistent.
    pub proof fn lemma_empty_consistent(self)
        requires
            self.items == Map::<Seq<u8>, StoreItemView>::empty(),
        ensures
            self.consistent(),
            self.complete(),
    {
    }

    /// Once nothing is pending, a consistent cache is complete.
    pub proof fn lemma_settled_complete(self)
        requires
            self.consistent(),
            self.pending.len() == 0,
        ensures
            self.complete(),
    {
        assert forall|hash: Seq<u8>, drv: DrvView| #[trigger]
            self.has_drv(hash, drv) implies self.has_sources_and_outputs(drv) && forall|i: int|
            0 <= i < drv.input_drvs.len() ==> self.has_path((#[trigger] drv.input_drvs[i]).path) by {
            assert forall|i: int| 0 <= i < drv.input_drvs.len() implies self.has_path(
                (#[trigger] drv.input_drvs[i]).path,
            ) by {
                assert(self.covers(hash, drv, i));
            }
        }
    }

    /// In a complete cache, whatever can be reached from one of its items,
    /// from derivation to source, output or input derivation, is in it.
    pub proof fn lemma_complete_holds_chain(self, chain: Seq<Seq<u8>>)
        requires
            self.complete(),
            chain.len() > 0,
            self.items.contains_key(chain[0]),
            self.links(chain),
        ensures
            forall|i: int| 0 <= i < chain.len() ==> self.items.contains_key(#[trigger] chain[i]),
        decreases chain.len(),
    {
        if chain.len() > 1 {
            let shorter = chain.drop_last();
            assert forall|i: int| 0 <= i < shorter.len() - 1 implies self.names(
                #[trigger] shorter[i],
                shorter[i + 1],
            ) by {
                assert(self.names(chain[i], chain[i + 1]));
            }
            self.lemma_complete_holds_chain(shorter);
            let from = chain[chain.len() - 2];
            let to = chain.last();
            assert(shorter[chain.len() - 2] == from);
            assert(self.names(chain[chain.len() - 2], chain[chain.len() - 2 + 1]));
            let drv = choose|drv: DrvView| #[trigger]
                self.has_drv(from, drv) && {
                    ||| exists|i: int|
                        0 <= i < drv.input_srcs.len() && hash_of_path(
                            #[trigger] drv.input_srcs[i],
                        ) == to
                    ||| exists|i: int|
                        0 <= i < drv.outputs.len() && hash_of_path(
                            (#[trigger] drv.outputs[i]).path,
                        ) == to
                    ||| exists|i: int|
                        0 <= i < drv.input_drvs.len() && hash_of_path(
                            (#[trigger] drv.input_drvs[i]).path,
                        ) == to
                };
            assert(self.has_drv(from, drv));
            assert(self.items.contains_key(to));
            assert forall|i: int| 0 <= i < chain.len() implies self.items.contains_key(
                #[trigger] chain[i],
            ) by {
                if i < chain.len() - 1 {
                    assert(shorter[i] == chain[i]);
                }
            }
        }
    }
}

/// Registering sources leaves each item as it is, gives each source an
/// item, and adds no derivation.
pub proof fn lemma_with_sources(items: Map<Seq<u8>, StoreItemView>, sources: Seq<Seq<char>>)
    ensures
        forall|key: Seq<u8>|
            #![trigger with_sources(items, sources).contains_key(key)]
            items.contains_key(key) ==> with_sources(items, sources).contains_key(key)
                && with_sources(items, sources)[key] == items[key],
        forall|i: int|
            0 <= i < sources.len() ==> with_sources(items, sources).contains_key(
                hash_of_path(#[trigger] sources[i]),
            ),
        forall|key: Seq<u8>|
            #![trigger with_sources(items, sources)[key]]
            with_sources(items, sources).contains_key(key) && with_sources(items, sources)[key] is Drv
                ==> items.contains_key(key),
    decreases sources.len(),
{
    if sources.len() > 0 {
        let shorter = sources.drop_last();
        lemma_with_sources(items, shorter);
        assert forall|i: int| 0 <= i < sources.len() implies with_sources(
            items,
            sources,
        ).contains_key(hash_of_path(#[trigger] sources[i])) by {
            if i < sources.len() - 1 {
                assert(shorter[i] == sources[i]);
            }
        }
    }
}

/// Registering outputs leaves each item as it is, gives each output an
/// item, and adds no derivation.
pub proof fn lemma_with_outputs(
    items: Map<Seq<u8>, StoreItemView>,
    deriver: Seq<u8>,
    outputs: Seq<DrvOutputView>,
)
    ensures
        forall|key: Seq<u8>|
            #![trigger with_outputs(items, deriver, outputs).contains_key(key)]
            items.contains_key(key) ==> with_outputs(items, deriver, outputs).contains_key(key)
                && with_outputs(items, deriver, outputs)[key] == items[key],
        forall|i: int|
            0 <= i < outputs.len() ==> with_outputs(items, deriver, outputs).contains_key(
                hash_of_path((#[trigger] outputs[i]).path),
            ),
        forall|key: Seq<u8>|
            #![trigger with_outputs(items, deriver, outputs)[key]]
            with_outputs(items, deriver, outputs).contains_key(key) && with_outputs(
                items,
                deriver,
                outputs,
            )[key] is Drv ==> items.contains_key(key),
    decreases outputs.len(),
{
    if outputs.len() > 0 {
        let shorter = outputs.drop_last();
        lemma_with_outputs(items, deriver, shorter);
        assert forall|i: int| 0 <= i < outputs.len() implies with_outputs(
            items,
            deriver,
            outputs,
        ).contains_key(hash_of_path((#[trigger] outputs[i]).path)) by {
            if i < outputs.len() - 1 {
                assert(shorter[i] == outputs[i]);
            }
        }
    }
}

/// Registering a derivation leaves each item as it is, gives its own
/// hash, its sources and its outputs an item, and adds no derivation but
/// itself, under its own hash where that had no item.
pub proof fn lemma_registered(items: Map<Seq<u8>, StoreItemView>, hash: Seq<u8>, drv: DrvView)
    ensures
        forall|key: Seq<u8>|
            #![trigger registered(items, hash, drv).contains_key(key)]
            items.contains_key(key) ==> registered(items, hash, drv).contains_key(key)
                && registered(items, hash, drv)[key] == items[key],
        registered(items, hash, drv).contains_key(hash),
        !items.contains_key(hash) ==> registered(items, hash, drv)[hash] == StoreItemView::Drv(
            drv,
        ),
        forall|i: int|
            0 <= i < drv.input_srcs.len() ==> registered(items, hash, drv).contains_key(
                hash_of_path(#[trigger] drv.input_srcs[i]),
            ),
        forall|i: int|
            0 <= i < drv.outputs.len() ==> registered(items, hash, drv).contains_key(
                hash_of_path((#[trigger] drv.outputs[i]).path),
            ),
        forall|key: Seq<u8>|
            #![trigger registered(items, hash, drv)[key]]
            registered(items, hash, drv).contains_key(key) && registered(items, hash, drv)[key] is Drv
                ==> items.contains_key(key) || key == hash,
{
    let begun = with_new(items, hash, StoreItemView::Drv(drv));
    let sourced = with_sources(begun, drv.input_srcs);
    let done = with_outputs(sourced, hash, drv.outputs);
    lemma_with_sources(begun, drv.input_srcs);
    lemma_with_outputs(sourced, hash, drv.outputs);
    assert(begun.contains_key(hash));
    assert(sourced.contains_key(hash));
    assert forall|key: Seq<u8>| items.contains_key(key) implies done.contains_key(key)
        && done[key] == items[key] by {
        assert(begun.contains_key(key) && begun[key] == items[key]);
        assert(with_sources(begun, drv.input_srcs).contains_key(key));
        assert(sourced[key] == begun[key]);
        assert(with_outputs(sourced, hash, drv.outputs).contains_key(key));
        assert(done[key] == sourced[key]);
    }
    assert forall|i: int| 0 <= i < drv.input_srcs.len() implies done.contains_key(
        hash_of_path(#[trigger] drv.input_srcs[i]),
    ) by {
        assert(sourced.contains_key(hash_of_path(drv.input_srcs[i])));
    }
    assert forall|key: Seq<u8>|
        #![trigger done[key]]
        done.contains_key(key) && done[key] is Drv implies items.contains_key(key) || key
        == hash by {
        assert(sourced.contains_key(key));
        assert(begun.contains_key(key));
    }
}

impl StoreCacheView {
    /// Registering a derivation and making it pending keeps the cache
    /// consistent.
    pub proof fn lemma_register_consistent(self, hash: Seq<u8>, drv: DrvView)
        requires
            self.consistent(),
            !self.items.contains_key(hash),
        ensures
            (StoreCacheView {
                items: registered(self.items, hash, drv),
                pending: self.pending.push(FrameView { hash, drv, next: 0 }),
            }).consistent(),
    {
        let after = StoreCacheView {
            items: registered(self.items, hash, drv),
            pending: self.pending.push(FrameView { hash, drv, next: 0 }),
        };
        lemma_registered(self.items, hash, drv);
        assert forall|key: Seq<u8>, held: DrvView| #[trigger]
            after.has_drv(key, held) implies after.has_sources_and_outputs(held) && forall|i: int|
            0 <= i < held.input_drvs.len() ==> #[trigger] after.covers(key, held, i) by {
            assert(after.items[key] is Drv);
            if key == hash {
                assert(held == drv);
                assert forall|i: int| 0 <= i < held.input_drvs.len() implies #[trigger] after.covers(
                    key,
                    held,
                    i,
                ) by {
                    let f = self.pending.len() as int;
                    assert(after.pending[f].hash == key);
                    assert(after.is_pending(key, held, i));
                }
            } else {
                assert(self.has_drv(key, held));
                assert(self.has_sources_and_outputs(held));
                assert forall|i: int| 0 <= i < held.input_srcs.len() implies after.has_path(
                    #[trigger] held.input_srcs[i],
                ) by {
                    assert(self.has_path(held.input_srcs[i]));
                }
                assert forall|i: int| 0 <= i < held.outputs.len() implies after.has_path(
                    (#[trigger] held.outputs[i]).path,
                ) by {
                    assert(self.has_path(held.outputs[i].path));
                }
                assert forall|i: int| 0 <= i < held.input_drvs.len() implies #[trigger] after.covers(
                    key,
                    held,
                    i,
                ) by {
                    assert(self.covers(key, held, i));
                    if self.has_path(held.input_drvs[i].path) {
                    } else {
                        let f = choose|f: int|
                            0 <= f < self.pending.len() && (#[trigger] self.pending[f]).hash == key
                                && self.pending[f].drv == held && self.pending[f].next <= i;
                        assert(after.pending[f] == self.pending[f]);
                        assert(after.is_pending(key, held, i));
                    }
                }
            }
        }
    }

    /// An item that is no derivation, put under a hash that has none,
    /// keeps the cache consistent.
    pub proof fn lemma_add_consistent(self, hash: Seq<u8>, item: StoreItemView)
        requires
            self.consistent(),
        ensures
            self.add(hash, item).consistent(),
            self.complete() ==> self.add(hash, item).complete(),
    {
        let after = self.add(hash, item);
        assert forall|key: Seq<u8>, held: DrvView| #[trigger]
            after.has_drv(key, held) implies self.has_drv(key, held) by {}
        assert forall|key: Seq<u8>, held: DrvView| #[trigger]
            after.has_drv(key, held) implies after.has_sources_and_outputs(held) && forall|i: int|
            0 <= i < held.input_drvs.len() ==> #[trigger] after.covers(key, held, i) by {
            assert(self.has_drv(key, held));
            assert(self.has_sources_and_outputs(held));
            assert forall|i: int| 0 <= i < held.input_srcs.len() implies after.has_path(
                #[trigger] held.input_srcs[i],
            ) by {
                assert(self.has_path(held.input_srcs[i]));
            }
            assert forall|i: int| 0 <= i < held.outputs.len() implies after.has_path(
                (#[trigger] held.outputs[i]).path,
            ) by {
                assert(self.has_path(held.outputs[i].path));
            }
            assert forall|i: int| 0 <= i < held.input_drvs.len() implies #[trigger] after.covers(
                key,
                held,
                i,
            ) by {
                assert(self.covers(key, held, i));
                if self.has_path(held.input_drvs[i].path) {
                } else {
                    let f = choose|f: int|
                        0 <= f < self.pending.len() && (#[trigger] self.pending[f]).hash == key
                            && self.pending[f].drv == held && self.pending[f].next <= i;
                    assert(after.pending == self.pending);
                    assert(after.pending[f].hash == key);
                    assert(after.is_pending(key, held, i));
                }
            }
        }
        if self.complete() {
            assert forall|key: Seq<u8>, held: DrvView| #[trigger]
                after.has_drv(key, held) implies after.has_sources_and_outputs(held)
                && forall|i: int|
                0 <= i < held.input_drvs.len() ==> after.has_path(
                    (#[trigger] held.input_drvs[i]).path,
                ) by {
                assert(self.has_drv(key, held));
                assert forall|i: int| 0 <= i < held.input_drvs.len() implies after.has_path(
                    (#[trigger] held.input_drvs[i]).path,
                ) by {
                    assert(self.has_path(held.input_drvs[i].path));
                }
            }
        }
    }

    /// Beginning a discovery keeps the cache consistent.
    pub proof fn lemma_discover_consistent(self, hash: Seq<u8>, drv: DrvView)
        requires
            self.consistent(),
        ensures
            self.discover(hash, drv).consistent(),
    {
        if !self.items.contains_key(hash) && drv.has_store_paths() {
            self.lemma_register_consistent(hash, drv);
        }
    }

    /// Seeing to the next input of the innermost pending derivation keeps
    /// the cache consistent, where the cache has that input.
    pub proof fn lemma_step_consistent(self)
        requires
            self.consistent(),
            self.pending.len() > 0,
            self.top().awaits(),
            self.has_path(self.top().awaited()),
        ensures
            self.with_top(self.top().step()).consistent(),
    {
        let after = self.with_top(self.top().step());
        let last = self.pending.len() - 1;
        assert forall|key: Seq<u8>, held: DrvView| #[trigger]
            after.has_drv(key, held) implies after.has_sources_and_outputs(held) && forall|i: int|
            0 <= i < held.input_drvs.len() ==> #[trigger] after.covers(key, held, i) by {
            assert(self.has_drv(key, held));
            assert(self.has_sources_and_outputs(held));
            assert forall|i: int| 0 <= i < held.input_drvs.len() implies #[trigger] after.covers(
                key,
                held,
                i,
            ) by {
                assert(self.covers(key, held, i));
                if self.has_path(held.input_drvs[i].path) {
                } else {
                    let f = choose|f: int|
                        0 <= f < self.pending.len() && (#[trigger] self.pending[f]).hash == key
                            && self.pending[f].drv == held && self.pending[f].next <= i;
                    if f == last {
                        assert(i != self.top().next);
                        assert(after.pending[f].next <= i);
                    } else {
                        assert(after.pending[f] == self.pending[f]);
                    }
                    assert(after.pending[f].hash == key);
                    assert(after.is_pending(key, held, i));
                }
            }
        }
    }

    /// Dropping the innermost pending derivation keeps the cache
    /// consistent, where no input of it is left.
    pub proof fn lemma_drop_consistent(self)
        requires
            self.consistent(),
            self.pending.len() > 0,
            !self.top().awaits(),
        ensures
            self.without_top().consistent(),
    {
        let after = self.without_top();
        let last = self.pending.len() - 1;
        assert forall|key: Seq<u8>, held: DrvView| #[trigger]
            after.has_drv(key, held) implies after.has_sources_and_outputs(held) && forall|i: int|
            0 <= i < held.input_drvs.len() ==> #[trigger] after.covers(key, held, i) by {
            assert(self.has_drv(key, held));
            assert(self.has_sources_and_outputs(held));
            assert forall|i: int| 0 <= i < held.input_drvs.len() implies #[trigger] after.covers(
                key,
                held,
                i,
            ) by {
                assert(self.covers(key, held, i));
                if self.has_path(held.input_drvs[i].path) {
                } else {
                    let f = choose|f: int|
                        0 <= f < self.pending.len() && (#[trigger] self.pending[f]).hash == key
                            && self.pending[f].drv == held && self.pending[f].next <= i;
                    assert(f != last);
                    assert(after.pending[f] == self.pending[f]);
                    assert(after.is_pending(key, held, i));
                }
            }
        }
    }

    /// Doing what needs no file keeps the cache consistent, and changes
    /// none of its items.
    pub proof fn lemma_settle_consistent(self)
        requires
            self.consistent(),
        ensures
            self.settle().consistent(),
            self.settle().items == self.items,
        decreases
            self.pending.len(),
            if self.pending.len() > 0 {
                self.top().drv.input_drvs.len() - self.top().next
            } else {
                0
            },
    {
        if self.pending.len() == 0 {
        } else if !self.top().awaits() {
            self.lemma_drop_consistent();
            self.without_top().lemma_settle_consistent();
        } else if self.holds_drv_at(self.top().awaited()) {
            self.lemma_step_consistent();
            self.with_top(self.top().step()).lemma_settle_consistent();
        }
    }

    /// Handing in an awaited derivation keeps the cache consistent.
    pub proof fn lemma_supply_consistent(self, drv: DrvView)
        requires
            self.consistent(),
        ensures
            self.supply(drv).consistent(),
    {
        if self.supply_error(drv) is None {
            let hash = hash_of_path(self.top().awaited());
            let seen = self.with_top(self.top().step());
            if self.items.contains_key(hash) {
                self.lemma_step_consistent();
            } else {
                // The input is registered first, and seen to by that.
                let held = StoreCacheView {
                    items: registered(self.items, hash, drv),
                    pending: self.pending.push(FrameView { hash, drv, next: 0 }),
                };
                self.lemma_register_consistent(hash, drv);
                lemma_registered(self.items, hash, drv);
                let after = self.supply(drv);
                let last = self.pending.len() - 1;
                assert(after.items == held.items);
                assert forall|key: Seq<u8>, item: DrvView| #[trigger]
                    after.has_drv(key, item) implies after.has_sources_and_outputs(item)
                    && forall|i: int|
                    0 <= i < item.input_drvs.len() ==> #[trigger] after.covers(key, item, i) by {
                    assert(held.has_drv(key, item));
                    assert(held.has_sources_and_outputs(item));
                    assert forall|i: int|
                        0 <= i < item.input_drvs.len() implies #[trigger] after.covers(
                        key,
                        item,
                        i,
                    ) by {
                        assert(held.covers(key, item, i));
                        if held.has_path(item.input_drvs[i].path) {
                        } else {
                            let f = choose|f: int|
                                0 <= f < held.pending.len() && (#[trigger] held.pending[f]).hash
                                    == key && held.pending[f].drv == item && held.pending[f].next
                                    <= i;
                            if f == last {
                                assert(held.pending[f] == self.top());
                                assert(i != self.top().next);
                                assert(after.pending[f] == self.top().step());
                            } else {
                                assert(after.pending[f] == held.pending[f]);
                            }
                            assert(after.pending[f].hash == key);
                            assert(after.is_pending(key, item, i));
                        }
                    }
                }
            }
        }
    }

    /// A second discovery of a hash changes nothing, whatever derivation
    /// it is begun with.
    pub proof fn lemma_discover_again(self, hash: Seq<u8>, drv: DrvView, again: DrvView)
        ensures
            !self.refuses(hash, drv) ==> self.discover(hash, drv).discover(hash, again)
                == self.discover(hash, drv),
            self.discover(hash, drv).discover(hash, drv) == self.discover(hash, drv),
    {
        lemma_registered(self.items, hash, drv);
    }

    /// No step of a discovery takes a hash out of the cache.
    pub proof fn lemma_discovery_keeps_hashes(self, hash: Seq<u8>, drv: DrvView, key: Seq<u8>)
        requires
            self.items.contains_key(key),
        ensures
            self.discover(hash, drv).items.contains_key(key),
            self.supply(drv).items.contains_key(key),
            self.settle().items.contains_key(key),
    {
        lemma_registered(self.items, hash, drv);
        if self.supply_error(drv) is None {
            lemma_registered(self.items, hash_of_path(self.top().awaited()), drv);
        }
        self.lemma_settle_items();
    }

    /// Doing what needs no file changes none of the items.
    pub proof fn lemma_settle_items(self)
        ensures
            self.settle().items == self.items,
        decreases
            self.pending.len(),
            if self.pending.len() > 0 {
                self.top().drv.input_drvs.len() - self.top().next
            } else {
                0
            },
    {
        if self.pending.len() == 0 {
        } else if !self.top().awaits() {
            self.without_top().lemma_settle_items();
        } else if self.holds_drv_at(self.top().awaited()) {
            self.with_top(self.top().step()).lemma_settle_items();
        }
    }
}

} // verus!
