//! The cache of store items, and the discovery of what a derivation needs
//! to be built.
//!
//! A derivation is registered with its sources and its outputs. The
//! derivations it names as inputs are registered in their turn, depth
//! first, each once. Those that the cache does not hold yet have to be
//! read from their files, which is the caller's part: the cache says which
//! file it waits for, and is handed the derivation in it.

use vstd::prelude::*;
use vstd::string::*;

use crate::derivation::{Drv, DrvOutputView, DrvView};
use crate::hash::{
    hash_of_path, label_of_path, path_has_hash, path_has_hash_and_label, StoreHash,
};
use crate::item::{lists, with_new, ItemMap, StoreItem, StoreItemView};
use crate::narinfo::{NarInfo, NarInfoView};

verus! {

/// Why a step of the discovery was refused.
#[derive(Debug, Clone, Copy, PartialEq, Eq)]
pub enum DiscoverError {
    /// A path in a derivation does not end in the name of a store item.
    InvalidStorePath,
    /// A derivation was handed in while none was waited for.
    NoInputAwaited,
}

/// A derivation whose inputs are being discovered.
pub struct Frame {
    hash: StoreHash,
    drv: Drv,
    next: usize,
}

/// What a [`Frame`] holds: a registered derivation, its hash, and how many
/// of its input derivations have been seen to.
pub struct FrameView {
    pub hash: Seq<u8>,
    pub drv: DrvView,
    pub next: nat,
}

impl DeepView for Frame {
    type V = FrameView;

    closed spec fn deep_view(&self) -> FrameView {
        FrameView { hash: self.hash@, drv: self.drv@, next: self.next as nat }
    }
}

impl FrameView {
    /// The frame with one more input derivation seen to.
    pub open spec fn step(self) -> FrameView {
        FrameView { hash: self.hash, drv: self.drv, next: self.next + 1 }
    }

    /// Whether an input derivation is left to see to.
    pub open spec fn awaits(self) -> bool {
        self.next < self.drv.input_drvs.len()
    }

    /// The path of the input derivation to see to next.
    pub open spec fn awaited(self) -> Seq<char>
        recommends
            self.awaits(),
    {
        self.drv.input_drvs[self.next as int].path
    }
}

impl DrvView {
    /// Whether every path in the derivation ends in the name of a store
    /// item: those of its sources and outputs in a hash and a label, those
    /// of its input derivations in a hash at least.
    pub open spec fn has_store_paths(self) -> bool {
        &&& forall|i: int|
            0 <= i < self.input_srcs.len() ==> path_has_hash_and_label(#[trigger] self.input_srcs[i])
        &&& forall|i: int|
            0 <= i < self.outputs.len() ==> path_has_hash_and_label(
                (#[trigger] self.outputs[i]).path,
            )
        &&& forall|i: int|
            0 <= i < self.input_drvs.len() ==> path_has_hash((#[trigger] self.input_drvs[i]).path)
    }
}

/// The items with each of the sources registered, in order: each under
/// its hash, where that hash has no item yet.
pub open spec fn with_sources(
    items: Map<Seq<u8>, StoreItemView>,
    sources: Seq<Seq<char>>,
) -> Map<Seq<u8>, StoreItemView>
    decreases sources.len(),
{
    if sources.len() == 0 {
        items
    } else {
        with_new(
            with_sources(items, sources.drop_last()),
            hash_of_path(sources.last()),
            StoreItemView::Source(label_of_path(sources.last())),
        )
    }
}

/// The items with each of the outputs registered, in order, as an output
/// of `deriver`: each under its hash, where that hash has no item yet.
pub open spec fn with_outputs(
    items: Map<Seq<u8>, StoreItemView>,
    deriver: Seq<u8>,
    outputs: Seq<DrvOutputView>,
) -> Map<Seq<u8>, StoreItemView>
    decreases outputs.len(),
{
    if outputs.len() == 0 {
        items
    } else {
        with_new(
            with_outputs(items, deriver, outputs.drop_last()),
            hash_of_path(outputs.last().path),
            StoreItemView::Output(label_of_path(outputs.last().path), deriver),
        )
    }
}

/// The items with a derivation registered under `hash`: the derivation
/// itself, then its sources, then its outputs. Each comes in where its
/// hash has no item yet; an item that is there stays as it is.
pub open spec fn registered(
    items: Map<Seq<u8>, StoreItemView>,
    hash: Seq<u8>,
    drv: DrvView,
) -> Map<Seq<u8>, StoreItemView> {
    with_outputs(
        with_sources(with_new(items, hash, StoreItemView::Drv(drv)), drv.input_srcs),
        hash,
        drv.outputs,
    )
}

/// What a [`StoreCache`] holds: the items by their hashes, and the
/// derivations whose inputs are still being discovered, the innermost
/// last.
pub struct StoreCacheView {
    pub items: Map<Seq<u8>, StoreItemView>,
    pub pending: Seq<FrameView>,
}

impl StoreCacheView {
    /// How many items the cache holds.
    pub open spec fn size(self) -> nat {
        self.items.dom().len()
    }

    /// The innermost derivation whose inputs are being discovered.
    pub open spec fn top(self) -> FrameView
        recommends
            self.pending.len() > 0,
    {
        self.pending.last()
    }

    /// The cache with the innermost pending derivation replaced.
    pub open spec fn with_top(self, top: FrameView) -> StoreCacheView {
        StoreCacheView {
            items: self.items,
            pending: self.pending.update(self.pending.len() - 1, top),
        }
    }

    /// The cache without the innermost pending derivation.
    pub open spec fn without_top(self) -> StoreCacheView {
        StoreCacheView { items: self.items, pending: self.pending.drop_last() }
    }

    /// Whether the cache holds the derivation that a path leads to.
    pub open spec fn holds_drv_at(self, path: Seq<char>) -> bool {
        &&& path_has_hash(path)
        &&& self.items.contains_key(hash_of_path(path))
        &&& self.items[hash_of_path(path)] is Drv
    }

    /// The cache after the discovery of a derivation has begun: unchanged
    /// where its hash has an item already, or where its paths are not
    /// those of store items; else with the derivation registered and
    /// pending.
    pub open spec fn discover(self, hash: Seq<u8>, drv: DrvView) -> StoreCacheView {
        if self.items.contains_key(hash) || !drv.has_store_paths() {
            self
        } else {
            StoreCacheView {
                items: registered(self.items, hash, drv),
                pending: self.pending.push(FrameView { hash, drv, next: 0 }),
            }
        }
    }

    /// Whether the discovery of a derivation is refused.
    pub open spec fn refuses(self, hash: Seq<u8>, drv: DrvView) -> bool {
        !self.items.contains_key(hash) && !drv.has_store_paths()
    }

    /// The cache with everything done that needs no file: derivations
    /// without inputs left are dropped from the pending ones, and inputs
    /// that the cache holds as derivations are passed over.
    pub open spec fn settle(self) -> StoreCacheView
        decreases
            self.pending.len(),
            if self.pending.len() > 0 {
                self.top().drv.input_drvs.len() - self.top().next
            } else {
                0
            },
    {
        if self.pending.len() == 0 {
            self
        } else if !self.top().awaits() {
            self.without_top().settle()
        } else if self.holds_drv_at(self.top().awaited()) {
            self.with_top(self.top().step()).settle()
        } else {
            self
        }
    }

    /// The path of the derivation file that the discovery waits for.
    pub open spec fn awaited(self) -> Option<Seq<char>> {
        if self.pending.len() > 0 && self.top().awaits() {
            Some(self.top().awaited())
        } else {
            None
        }
    }

    /// Why the derivation `drv`, handed in for the awaited file, is
    /// refused, if it is.
    pub open spec fn supply_error(self, drv: DrvView) -> Option<DiscoverError> {
        match self.awaited() {
            None => Some(DiscoverError::NoInputAwaited),
            Some(path) => if !path_has_hash(path) {
                Some(DiscoverError::InvalidStorePath)
            } else if !self.items.contains_key(hash_of_path(path)) && !drv.has_store_paths() {
                Some(DiscoverError::InvalidStorePath)
            } else {
                None
            },
        }
    }

    /// The cache after the derivation `drv` was handed in for the awaited
    /// file: unchanged where it is refused; else the input is seen to,
    /// and where its hash had no item the derivation is registered and
    /// pending.
    pub open spec fn supply(self, drv: DrvView) -> StoreCacheView {
        if self.supply_error(drv) is Some {
            self
        } else {
            let hash = hash_of_path(self.top().awaited());
            let seen = self.with_top(self.top().step());
            if self.items.contains_key(hash) {
                seen
            } else {
                StoreCacheView {
                    items: registered(self.items, hash, drv),
                    pending: seen.pending.push(FrameView { hash, drv, next: 0 }),
                }
            }
        }
    }
}

impl StoreCacheView {
    /// Whether a record found for `hash` is taken into the cache: where
    /// the hash has no item, or has an output.
    pub open spec fn takes(self, hash: Seq<u8>) -> bool {
        !self.items.contains_key(hash) || self.items[hash] is Output
    }

    /// The cache after a record was found for `hash`: with the record as
    /// the item of `hash` where it is taken, else unchanged.
    pub open spec fn merge(self, hash: Seq<u8>, info: NarInfoView) -> StoreCacheView {
        if self.takes(hash) {
            StoreCacheView {
                items: self.items.insert(hash, StoreItemView::NarInfo(info)),
                pending: self.pending,
            }
        } else {
            self
        }
    }

    /// The cache after each of the records was found, in order.
    pub open spec fn merge_all(self, found: Seq<(Seq<u8>, NarInfoView)>) -> StoreCacheView
        decreases found.len(),
    {
        if found.len() == 0 {
            self
        } else {
            self.merge_all(found.drop_last()).merge(found.last().0, found.last().1)
        }
    }

    /// How many of the records are taken into the cache when they are
    /// found in order.
    pub open spec fn merge_count(self, found: Seq<(Seq<u8>, NarInfoView)>) -> nat
        decreases found.len(),
    {
        if found.len() == 0 {
            0
        } else {
            self.merge_count(found.drop_last()) + if self.merge_all(found.drop_last()).takes(
                found.last().0,
            ) {
                1nat
            } else {
                0nat
            }
        }
    }

    /// Whether an item is taken into the cache under `hash`: where the
    /// hash has no item, and the item is no derivation.
    pub open spec fn admits(self, hash: Seq<u8>, item: StoreItemView) -> bool {
        !self.items.contains_key(hash) && !(item is Drv)
    }

    /// The cache with the item under `hash` where it is taken, else
    /// unchanged.
    pub open spec fn add(self, hash: Seq<u8>, item: StoreItemView) -> StoreCacheView {
        if self.admits(hash, item) {
            StoreCacheView { items: self.items.insert(hash, item), pending: self.pending }
        } else {
            self
        }
    }

    /// Whether `hash` has an output.
    pub open spec fn has_output(self, hash: Seq<u8>) -> bool {
        self.items.contains_key(hash) && self.items[hash] is Output
    }
}

/// The store items that are known, by their hashes.
pub struct StoreCache {
    items: ItemMap,
    pending: Vec<Frame>,
}

impl View for StoreCache {
    type V = StoreCacheView;

    closed spec fn view(&self) -> StoreCacheView {
        StoreCacheView { items: self.items@, pending: self.pending.deep_view() }
    }
}

impl Default for StoreCache {
    fn default() -> (cache: Self)
        ensures
            cache@.items == Map::<Seq<u8>, StoreItemView>::empty(),
            cache@.pending == Seq::<FrameView>::empty(),
            cache@.consistent(),
            cache@.complete(),
    {
        StoreCache::new()
    }
}

impl Drv {
    /// Whether every path in the derivation ends in the name of a store
    /// item.
    pub fn has_store_paths(&self) -> (ok: bool)
        ensures
            ok == self@.has_store_paths(),
    {
        let mut i: usize = 0;
        while i < self.input_srcs.len()
            invariant
                i <= self.input_srcs.len(),
                forall|k: int| 0 <= k < i ==> path_has_hash_and_label(#[trigger] self@.input_srcs[k]),
            decreases self.input_srcs.len() - i,
        {
            if !StoreHash::is_labelled_path(self.input_srcs[i].as_str()) {
                assert(!path_has_hash_and_label(self@.input_srcs[i as int]));
                return false;
            }
            i += 1;
        }
        let mut i: usize = 0;
        while i < self.outputs.len()
            invariant
                i <= self.outputs.len(),
                forall|k: int|
                    0 <= k < i ==> path_has_hash_and_label((#[trigger] self@.outputs[k]).path),
            decreases self.outputs.len() - i,
        {
            if !StoreHash::is_labelled_path(self.outputs[i].path.as_str()) {
                assert(!path_has_hash_and_label(self@.outputs[i as int].path));
                return false;
            }
            i += 1;
        }
        let mut i: usize = 0;
        while i < self.input_drvs.len()
            invariant
                i <= self.input_drvs.len(),
                forall|k: int| 0 <= k < i ==> path_has_hash((#[trigger] self@.input_drvs[k]).path),
                forall|k: int|
                    0 <= k < self@.input_srcs.len() ==> path_has_hash_and_label(
                        #[trigger] self@.input_srcs[k],
                    ),
                forall|k: int|
                    0 <= k < self@.outputs.len() ==> path_has_hash_and_label(
                        (#[trigger] self@.outputs[k]).path,
                    ),
            decreases self.input_drvs.len() - i,
        {
            if !StoreHash::is_path(self.input_drvs[i].path.as_str()) {
                assert(!path_has_hash(self@.input_drvs[i as int].path));
                return false;
            }
            i += 1;
        }
        true
    }
}

/// Registers a derivation under `hash`, with its sources and its outputs.
fn register(items: &mut ItemMap, hash: StoreHash, drv: &Drv)
    requires
        drv@.has_store_paths(),
    ensures
        final(items)@ == registered(old(items)@, hash@, drv@),
{
    let ghost begun = with_new(items@, hash@, StoreItemView::Drv(drv@));
    items.insert_new(hash, StoreItem::Drv(drv.clone()));
    let mut i: usize = 0;
    while i < drv.input_srcs.len()
        invariant
            i <= drv.input_srcs.len(),
            drv@.has_store_paths(),
            items@ == with_sources(begun, drv@.input_srcs.take(i as int)),
        decreases drv.input_srcs.len() - i,
    {
        proof {
            let longer = drv@.input_srcs.take(i + 1);
            assert(longer.drop_last() =~= drv@.input_srcs.take(i as int));
            assert(longer.last() == drv@.input_srcs[i as int]);
        }
        let (source, name) = StoreHash::split_path(drv.input_srcs[i].as_str());
        items.insert_new(source, StoreItem::Source(name));
        i += 1;
    }
    assert(drv@.input_srcs.take(i as int) =~= drv@.input_srcs);
    let ghost sourced = items@;
    let mut i: usize = 0;
    while i < drv.outputs.len()
        invariant
            i <= drv.outputs.len(),
            drv@.has_store_paths(),
            items@ == with_outputs(sourced, hash@, drv@.outputs.take(i as int)),
        decreases drv.outputs.len() - i,
    {
        proof {
            let longer = drv@.outputs.take(i + 1);
            assert(longer.drop_last() =~= drv@.outputs.take(i as int));
            assert(longer.last() == drv@.outputs[i as int]);
        }
        let (output, name) = StoreHash::split_path(drv.outputs[i].path.as_str());
        items.insert_new(output, StoreItem::Output(name, hash));
        i += 1;
    }
    assert(drv@.outputs.take(i as int) =~= drv@.outputs);
}

/// What a cache with these items and these pending derivations holds.
pub closed spec fn cache_of(items: ItemMap, pending: Vec<Frame>) -> StoreCacheView {
    StoreCacheView { items: items@, pending: pending.deep_view() }
}

/// Does what needs no file, and says which derivation file the discovery
/// then waits for.
fn settle(items: &ItemMap, pending: &mut Vec<Frame>) -> (path: Option<String>)
    ensures
        cache_of(*items, *final(pending)) == cache_of(*items, *old(pending)).settle(),
        match path {
            Some(path) => cache_of(*items, *final(pending)).awaited() == Some(path@),
            None => final(pending).len() == 0,
        },
{
    loop
        invariant
            cache_of(*items, *pending).settle() == cache_of(*items, *old(pending)).settle(),
        decreases
            pending.len(),
            if pending.len() > 0 {
                cache_of(*items, *pending).top().drv.input_drvs.len() - cache_of(
                    *items,
                    *pending,
                ).top().next
            } else {
                0
            },
    {
        if pending.len() == 0 {
            return None;
        }
        let last = pending.len() - 1;
        assert(cache_of(*items, *pending).top() == pending@[last as int].deep_view());
        if pending[last].next >= pending[last].drv.input_drvs.len() {
            let ghost before = pending.deep_view();
            pending.pop();
            assert(pending.deep_view() =~= before.drop_last());
            continue;
        }
        let held = {
            let top = &pending[last];
            let path = top.drv.input_drvs[top.next].path.as_str();
            if StoreHash::is_path(path) {
                let hash = StoreHash::from_path(path);
                match items.get(&hash) {
                    Some(StoreItem::Drv(_)) => true,
                    _ => false,
                }
            } else {
                false
            }
        };
        assert(held == cache_of(*items, *pending).holds_drv_at(
            cache_of(*items, *pending).top().awaited(),
        ));
        if held {
            let ghost before = pending.deep_view();
            let seen = pending[last].next + 1;
            pending[last].next = seen;
            assert(pending.deep_view() =~= before.update(last as int, before[last as int].step()));
            continue;
        }
        let top = &pending[last];
        return Some(top.drv.input_drvs[top.next].path.clone());
    }
}

impl StoreCache {
    /// Each derivation of the cache has its sources and outputs in the
    /// cache, and each of its input derivations in the cache or still to
    /// be seen to.
    #[verifier::type_invariant]
    spec fn holds_what_it_needs(self) -> bool {
        self@.consistent()
    }

    /// Takes the items and the pending derivations out of the cache.
    fn take(&mut self) -> (held: (ItemMap, Vec<Frame>))
        ensures
            cache_of(held.0, held.1) == old(self)@,
            old(self)@.consistent(),
            final(self)@.items == Map::<Seq<u8>, StoreItemView>::empty(),
    {
        proof {
            use_type_invariant(&*self);
        }
        let mut items = ItemMap::new();
        let mut pending: Vec<Frame> = Vec::new();
        core::mem::swap(&mut self.items, &mut items);
        core::mem::swap(&mut self.pending, &mut pending);
        (items, pending)
    }

    /// Puts items and pending derivations into the cache, which holds no
    /// items.
    fn put(&mut self, items: ItemMap, pending: Vec<Frame>)
        requires
            old(self)@.items == Map::<Seq<u8>, StoreItemView>::empty(),
            cache_of(items, pending).consistent(),
        ensures
            final(self)@ == cache_of(items, pending),
    {
        let mut items = items;
        let mut pending = pending;
        core::mem::swap(&mut self.pending, &mut pending);
        core::mem::swap(&mut self.items, &mut items);
    }

    /// A cache without items.
    pub fn new() -> (cache: StoreCache)
        ensures
            cache@.items == Map::<Seq<u8>, StoreItemView>::empty(),
            cache@.pending == Seq::<FrameView>::empty(),
            cache@.consistent(),
            cache@.complete(),
    {
        let cache = StoreCache { items: ItemMap::new(), pending: Vec::new() };
        assert(cache@.pending =~= Seq::<FrameView>::empty());
        proof {
            cache@.lemma_empty_consistent();
        }
        cache
    }

    /// How many items the cache holds.
    pub fn len(&self) -> (count: usize)
        ensures
            self@.items.dom().finite(),
            count == self@.size(),
    {
        self.items.len()
    }

    /// The items of the cache, each with its hash.
    pub fn entries(&self) -> (entries: &Vec<(StoreHash, StoreItem)>)
        ensures
            lists(entries.deep_view(), self@.items),
            entries.len() == self@.size(),
    {
        let count = self.items.len();
        self.items.entries()
    }

    /// The item of `hash`.
    pub fn get(&self, hash: &StoreHash) -> (item: Option<&StoreItem>)
        ensures
            match item {
                Some(item) => self@.items.contains_key(hash@) && self@.items[hash@] == item@,
                None => !self@.items.contains_key(hash@),
            },
    {
        self.items.get(hash)
    }

    /// Whether no derivation is left whose inputs are being discovered.
    /// The cache then holds whatever its derivations need to be built.
    pub fn is_settled(&self) -> (settled: bool)
        ensures
            settled == (self@.pending.len() == 0),
            self@.consistent(),
            settled ==> self@.complete(),
    {
        proof {
            use_type_invariant(self);
            if self@.pending.len() == 0 {
                self@.lemma_settled_complete();
            }
        }
        self.pending.len() == 0
    }

    /// Puts an item under a hash that has none, and says whether it did.
    /// A derivation is not taken: it comes into the cache by discovery,
    /// with what it needs.
    pub fn add_item(&mut self, hash: StoreHash, item: StoreItem) -> (added: bool)
        ensures
            final(self)@ == old(self)@.add(hash@, item@),
            added == old(self)@.admits(hash@, item@),
            final(self)@.consistent(),
            old(self)@.keeps(final(self)@),
    {
        proof {
            use_type_invariant(&*self);
            self@.lemma_add_consistent(hash@, item@);
            self@.lemma_add_keeps(hash@, item@);
        }
        if let StoreItem::Drv(_) = &item {
            return false;
        }
        if self.items.contains_key(&hash) {
            return false;
        }
        let (mut items, pending) = self.take();
        items.insert(hash, item);
        self.put(items, pending);
        true
    }

    /// Begins the discovery of what the derivation `drv`, whose hash is
    /// `hash`, needs to be built. Nothing is done where the hash has an
    /// item already. The derivation, its sources and its outputs come in
    /// where their hashes have no item; no item is written over.
    pub fn discover_build_time_closure(&mut self, hash: StoreHash, drv: &Drv) -> (begun: Result<
        (),
        DiscoverError,
    >)
        ensures
            final(self)@ == old(self)@.discover(hash@, drv@),
            begun is Err <==> old(self)@.refuses(hash@, drv@),
            begun is Err ==> begun == Err::<(), DiscoverError>(DiscoverError::InvalidStorePath),
            final(self)@.consistent(),
            old(self)@.keeps(final(self)@),
            begun is Ok && !old(self)@.items.contains_key(hash@) ==> final(self)@.has_drv(
                hash@,
                drv@,
            ),
    {
        proof {
            use_type_invariant(&*self);
            self@.lemma_discover_keeps(hash@, drv@);
        }
        if self.items.contains_key(&hash) {
            return Ok(());
        }
        if !drv.has_store_paths() {
            return Err(DiscoverError::InvalidStorePath);
        }
        let ghost before = self@;
        let (mut items, mut pending) = self.take();
        register(&mut items, hash, drv);
        pending.push(Frame { hash, drv: drv.clone(), next: 0 });
        proof {
            assert(pending.deep_view() =~= before.pending.push(
                FrameView { hash: hash@, drv: drv@, next: 0 },
            ));
            before.lemma_register_consistent(hash@, drv@);
        }
        self.put(items, pending);
        Ok(())
    }

    /// Does what needs no file, and says which derivation file the
    /// discovery then waits for: none where it is done, and the cache
    /// holds whatever its derivations need.
    pub fn next_input(&mut self) -> (path: Option<String>)
        ensures
            final(self)@ == old(self)@.settle(),
            match path {
                Some(path) => final(self)@.awaited() == Some(path@),
                None => final(self)@.pending.len() == 0,
            },
            final(self)@.consistent(),
            path is None ==> final(self)@.complete(),
            old(self)@.keeps(final(self)@),
    {
        let ghost before = self@;
        proof {
            before.lemma_settle_keeps();
        }
        let (items, mut pending) = self.take();
        let path = settle(&items, &mut pending);
        proof {
            before.lemma_settle_consistent();
            if path is None {
                before.settle().lemma_settled_complete();
            }
        }
        self.put(items, pending);
        path
    }

    /// Hands in the derivation that the awaited file holds. It becomes
    /// the item of the file's hash where that hash has no item; an item
    /// that is there stays, and the derivation is left out.
    pub fn supply_input(&mut self, drv: &Drv) -> (taken: Result<(), DiscoverError>)
        ensures
            final(self)@ == old(self)@.supply(drv@),
            match taken {
                Ok(()) => old(self)@.supply_error(drv@) is None,
                Err(error) => old(self)@.supply_error(drv@) == Some(error),
            },
            final(self)@.consistent(),
            old(self)@.keeps(final(self)@),
            taken is Ok ==> final(self)@.has_path(old(self)@.top().awaited()),
            taken is Ok && !old(self)@.has_path(old(self)@.top().awaited())
                ==> final(self)@.has_drv(hash_of_path(old(self)@.top().awaited()), drv@),
    {
        proof {
            use_type_invariant(&*self);
            self@.lemma_supply_keeps(drv@);
        }
        if self.pending.len() == 0 {
            return Err(DiscoverError::NoInputAwaited);
        }
        let last = self.pending.len() - 1;
        assert(self@.top() == self.pending@[last as int].deep_view());
        if self.pending[last].next >= self.pending[last].drv.input_drvs.len() {
            return Err(DiscoverError::NoInputAwaited);
        }
        let hash = {
            let top = &self.pending[last];
            let path = top.drv.input_drvs[top.next].path.as_str();
            if !StoreHash::is_path(path) {
                return Err(DiscoverError::InvalidStorePath);
            }
            StoreHash::from_path(path)
        };
        let known = self.items.contains_key(&hash);
        if !known && !drv.has_store_paths() {
            return Err(DiscoverError::InvalidStorePath);
        }
        let ghost before = self@;
        let (mut items, mut pending) = self.take();
        let seen = pending[last].next + 1;
        pending[last].next = seen;
        assert(pending.deep_view() =~= before.pending.update(
            last as int,
            before.pending[last as int].step(),
        ));
        if !known {
            register(&mut items, hash, drv);
            let ghost seen_to = pending.deep_view();
            pending.push(Frame { hash, drv: drv.clone(), next: 0 });
            assert(pending.deep_view() =~= seen_to.push(
                FrameView { hash: hash@, drv: drv@, next: 0 },
            ));
        }
        proof {
            before.lemma_supply_consistent(drv@);
        }
        self.put(items, pending);
        Ok(())
    }

    /// The hashes whose items are outputs: those to ask the binary caches
    /// for.
    pub fn output_hashes(&self) -> (hashes: Vec<StoreHash>)
        ensures
            forall|i: int| 0 <= i < hashes.len() ==> self@.has_output(#[trigger] hashes[i]@),
            forall|hash: Seq<u8>| #[trigger]
                self@.has_output(hash) ==> exists|i: int|
                    0 <= i < hashes.len() && hashes[i]@ == hash,
            forall|i: int, j: int|
                0 <= i < j < hashes.len() ==> #[trigger] hashes[i]@ != #[trigger] hashes[j]@,
    {
        let entries = self.items.entries();
        let ghost pairs = entries.deep_view();
        let ghost items = self@.items;
        let mut hashes: Vec<StoreHash> = Vec::new();
        let ghost mut origin: Seq<int> = Seq::empty();
        let mut at: usize = 0;
        while at < entries.len()
            invariant
                at <= entries.len(),
                pairs == entries.deep_view(),
                lists(pairs, items),
                origin.len() == hashes.len(),
                forall|i: int|
                    0 <= i < hashes.len() ==> 0 <= #[trigger] origin[i] < at && hashes[i]@
                        == pairs[origin[i]].0 && pairs[origin[i]].1 is Output,
                forall|i: int, j: int| 0 <= i < j < hashes.len() ==> origin[i] < origin[j],
                forall|k: int|
                    0 <= k < at && (#[trigger] pairs[k]).1 is Output ==> exists|i: int|
                        0 <= i < hashes.len() && origin[i] == k,
            decreases entries.len() - at,
        {
            assert(pairs[at as int].0 == entries@[at as int].0@);
            assert(pairs[at as int].1 == entries@[at as int].1@);
            if let StoreItem::Output(_, _) = &entries[at].1 {
                let ghost before = origin;
                hashes.push(entries[at].0);
                proof {
                    origin = origin.push(at as int);
                    assert forall|k: int|
                        0 <= k < at + 1 && (#[trigger] pairs[k]).1 is Output implies exists|i: int|
                        0 <= i < hashes.len() && origin[i] == k by {
                        if k < at {
                            let i = choose|i: int| 0 <= i < before.len() && before[i] == k;
                            assert(origin[i] == k);
                        } else {
                            assert(origin[hashes.len() - 1] == k);
                        }
                    }
                }
            }
            at += 1;
        }
        proof {
            assert forall|i: int| 0 <= i < hashes.len() implies self@.has_output(
                #[trigger] hashes[i]@,
            ) by {
                assert(items.contains_key(pairs[origin[i]].0));
            }
            assert forall|hash: Seq<u8>| #[trigger] self@.has_output(hash) implies exists|i: int|
                0 <= i < hashes.len() && hashes[i]@ == hash by {
                let k = choose|k: int| 0 <= k < pairs.len() && pairs[k].0 == hash;
                assert(items[pairs[k].0] == pairs[k].1);
                let i = choose|i: int| 0 <= i < hashes.len() && origin[i] == k;
                assert(hashes[i]@ == hash);
            }
            assert forall|i: int, j: int| 0 <= i < j < hashes.len() implies #[trigger] hashes[i]@
                != #[trigger] hashes[j]@ by {
                assert(origin[i] < origin[j]);
                assert(pairs[origin[i]].0 != pairs[origin[j]].0);
            }
        }
        hashes
    }

    /// Takes the record that a binary cache holds of `hash` into the
    /// cache: as a new item, or in place of an output. An item of another
    /// kind is left as it is. Says whether the record was taken.
    pub fn merge_narinfo(&mut self, hash: StoreHash, narinfo: NarInfo) -> (taken: bool)
        ensures
            final(self)@ == old(self)@.merge(hash@, narinfo@),
            taken == old(self)@.takes(hash@),
            final(self)@.consistent(),
            old(self)@.complete() ==> final(self)@.complete(),
            old(self)@.keeps(final(self)@),
    {
        proof {
            use_type_invariant(&*self);
            self@.lemma_merge_consistent(hash@, narinfo@);
            self@.lemma_merge_keeps(hash@, narinfo@);
        }
        let takes = match self.items.get(&hash) {
            None => true,
            Some(StoreItem::Output(_, _)) => true,
            Some(_) => false,
        };
        if takes {
            let (mut items, pending) = self.take();
            items.insert(hash, StoreItem::NarInfo(Box::new(narinfo)));
            self.put(items, pending);
        }
        takes
    }

    /// Takes each of the records found into the cache, in order, and says
    /// how many were taken.
    pub fn merge_narinfos(&mut self, found: Vec<(StoreHash, NarInfo)>) -> (taken: u64)
        ensures
            final(self)@ == old(self)@.merge_all(found.deep_view()),
            taken == old(self)@.merge_count(found.deep_view()),
            final(self)@.consistent(),
            old(self)@.complete() ==> final(self)@.complete(),
            old(self)@.keeps(final(self)@),
    {
        proof {
            use_type_invariant(&*self);
            self@.lemma_merge_all_consistent(found.deep_view());
            self@.lemma_merge_all_keeps(found.deep_view());
        }
        let ghost all = found.deep_view();
        let mut found = found;
        let mut taken: u64 = 0;
        let mut kept: Vec<(StoreHash, NarInfo)> = Vec::new();
        // The records are taken from the end of the list, so they are
        // turned round first.
        while found.len() > 0
            invariant
                kept.len() + found.len() == all.len(),
                forall|i: int| 0 <= i < found.len() ==> found@[i].deep_view() == all[i],
                forall|i: int|
                    0 <= i < kept.len() ==> (#[trigger] kept@[i]).deep_view() == all[all.len() - 1
                        - i],
            decreases found.len(),
        {
            match found.pop() {
                Some(one) => {
                    kept.push(one);
                },
                None => {},
            }
        }
        let ghost start = self@;
        assert(all.take(0) =~= Seq::empty());
        while kept.len() > 0
            invariant
                kept.len() <= all.len(),
                forall|i: int|
                    0 <= i < kept.len() ==> (#[trigger] kept@[i]).deep_view() == all[all.len() - 1
                        - i],
                self@ == start.merge_all(all.take(all.len() - kept.len())),
                taken == start.merge_count(all.take(all.len() - kept.len())),
                taken <= all.len() - kept.len(),
                all.len() <= usize::MAX,
            decreases kept.len(),
        {
            let ghost done = all.len() - kept.len();
            match kept.pop() {
                Some((hash, narinfo)) => {
                    proof {
                        let longer = all.take(done + 1);
                        assert(longer.drop_last() =~= all.take(done));
                        assert(longer.last() == all[done]);
                        assert((hash, narinfo).deep_view() == all[done]);
                    }
                    if self.merge_narinfo(hash, narinfo) {
                        taken += 1;
                    }
                },
                None => {},
            }
        }
        assert(all.take(all.len() as int) =~= all);
        taken
    }
}

} // verus!
