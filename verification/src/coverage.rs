//! How much of what is needed at run time the binary caches hold.

use vstd::prelude::*;
use vstd::string::*;
use vstd::utf8::*;

use crate::closure::Closure;
use crate::hash::StoreHash;
use crate::item::{StoreItem, StoreItemView};
use crate::runtime::Fault;
use crate::sorted::{in_order, insert_in_order, lemma_in_order_distinct};
use crate::store::StoreCache;

verus! {

/// What was found of a set of store items on the binary caches.
#[derive(Debug)]
pub struct CoverageStatistics {
    /// How many items the set holds.
    pub total: u64,
    /// How many of them a binary cache has.
    pub found: u64,
    /// The size of their archives as the caches serve them, in bytes.
    pub file_size: u64,
    /// The size of their archives unpacked, in bytes.
    pub nar_size: u64,
    /// What has to be built: the names of derivations and the hashes of
    /// unknown items, in order, each once.
    pub missing: Vec<String>,
}

impl Default for CoverageStatistics {
    fn default() -> (stats: Self)
        ensures
            stats.total == 0,
            stats.found == 0,
            stats.file_size == 0,
            stats.nar_size == 0,
            stats.missing@ == Seq::<String>::empty(),
    {
        CoverageStatistics { total: 0, found: 0, file_size: 0, nar_size: 0, missing: Vec::new() }
    }
}

/// How a store item stands with the binary caches.
#[derive(Debug)]
pub enum Standing {
    /// A cache has it, with archives of these sizes, packed and unpacked.
    Found(u64, u64),
    /// It has to be built; this is its name.
    Missing(String),
    /// It is a source, and there whenever it is needed.
    Satisfied,
}

/// What a [`Standing`] holds.
pub enum StandingView {
    Found(u64, u64),
    Missing(Seq<char>),
    Satisfied,
}

impl DeepView for Standing {
    type V = StandingView;

    open spec fn deep_view(&self) -> StandingView {
        match self {
            Standing::Found(file_size, nar_size) => StandingView::Found(*file_size, *nar_size),
            Standing::Missing(name) => StandingView::Missing(name@),
            Standing::Satisfied => StandingView::Satisfied,
        }
    }
}

impl View for Standing {
    type V = StandingView;

    open spec fn view(&self) -> StandingView {
        self.deep_view()
    }
}

/// How the item of `hash` stands. An item with a record is found, a
/// derivation is missing under its name, an unknown hash is missing under
/// its own text, a source is satisfied, and an output stands as the
/// derivation recorded as making it. `steps` bounds how many outputs are
/// followed to their derivations.
pub open spec fn standing(items: Map<Seq<u8>, StoreItemView>, hash: Seq<u8>, steps: nat) -> Result<
    StandingView,
    Fault,
>
    decreases steps,
{
    if !items.contains_key(hash) {
        if valid_utf8(hash) {
            Ok(StandingView::Missing(decode_utf8(hash)))
        } else {
            Err(Fault::UnprintableHash)
        }
    } else {
        match items[hash] {
            StoreItemView::NarInfo(info) => Ok(StandingView::Found(info.file_size, info.nar_size)),
            StoreItemView::Drv(drv) => Ok(StandingView::Missing(drv.name())),
            StoreItemView::Source(_) => Ok(StandingView::Satisfied),
            StoreItemView::Output(_, deriver) => if deriver == hash {
                Err(Fault::SelfDerivingOutput)
            } else if steps == 0 {
                Err(Fault::CyclicDerivers)
            } else {
                standing(items, deriver, (steps - 1) as nat)
            },
        }
    }
}

/// What was counted of a list of store items.
pub struct Tally {
    pub found: nat,
    pub file_size: nat,
    pub nar_size: nat,
    pub missing: Seq<Seq<char>>,
}

impl Tally {
    /// The tally with one more item counted.
    pub open spec fn count(self, standing: StandingView) -> Result<Tally, Fault> {
        match standing {
            StandingView::Found(file_size, nar_size) => if self.file_size + file_size > u64::MAX
                || self.nar_size + nar_size > u64::MAX {
                Err(Fault::SizeOverflow)
            } else {
                Ok(
                    Tally {
                        found: self.found + 1,
                        file_size: self.file_size + file_size as nat,
                        nar_size: self.nar_size + nar_size as nat,
                        missing: self.missing,
                    },
                )
            },
            StandingView::Missing(name) => Ok(
                Tally {
                    found: self.found,
                    file_size: self.file_size,
                    nar_size: self.nar_size,
                    missing: self.missing.push(name),
                },
            ),
            StandingView::Satisfied => Ok(self),
        }
    }
}

/// The tally of the items of `hashes`, counted in order.
pub open spec fn tally(
    items: Map<Seq<u8>, StoreItemView>,
    hashes: Seq<Seq<u8>>,
    steps: nat,
) -> Result<Tally, Fault>
    decreases hashes.len(),
{
    if hashes.len() == 0 {
        Ok(Tally { found: 0, file_size: 0, nar_size: 0, missing: Seq::empty() })
    } else {
        match tally(items, hashes.drop_last(), steps) {
            Ok(before) => match standing(items, hashes.last(), steps) {
                Ok(standing) => before.count(standing),
                Err(fault) => Err(fault),
            },
            Err(fault) => Err(fault),
        }
    }
}

/// A tally that begins with a fault ends with it.
proof fn lemma_tally_fault(
    items: Map<Seq<u8>, StoreItemView>,
    hashes: Seq<Seq<u8>>,
    steps: nat,
    len: int,
)
    requires
        0 <= len <= hashes.len(),
        tally(items, hashes.take(len), steps) is Err,
    ensures
        tally(items, hashes, steps) == tally(items, hashes.take(len), steps),
    decreases hashes.len() - len,
{
    if len == hashes.len() {
        assert(hashes.take(len) =~= hashes);
    } else {
        let shorter = hashes.drop_last();
        assert(shorter.take(len) =~= hashes.take(len));
        lemma_tally_fault(items, shorter, steps, len);
    }
}

/// Says how the item of `hash` stands.
pub fn standing_of(store: &StoreCache, hash: StoreHash) -> (found: Result<Standing, Fault>)
    ensures
        match found {
            Ok(found) => standing(store@.items, hash@, store@.size()) == Ok::<StandingView, Fault>(
                found@,
            ),
            Err(fault) => standing(store@.items, hash@, store@.size()) == Err::<
                StandingView,
                Fault,
            >(fault),
        },
{
    let mut at = hash;
    let mut steps: usize = store.len();
    loop
        invariant
            standing(store@.items, hash@, store@.size()) == standing(
                store@.items,
                at@,
                steps as nat,
            ),
        decreases steps,
    {
        match store.get(&at) {
            None => {
                return match at.as_text() {
                    Some(text) => Ok(Standing::Missing(text.to_owned())),
                    None => Err(Fault::UnprintableHash),
                };
            },
            Some(StoreItem::NarInfo(info)) => {
                return Ok(Standing::Found(info.file_size, info.nar_size));
            },
            Some(StoreItem::Drv(drv)) => {
                return Ok(Standing::Missing(drv.find_name()));
            },
            Some(StoreItem::Source(_)) => {
                return Ok(Standing::Satisfied);
            },
            Some(StoreItem::Output(_, deriver)) => {
                if *deriver == at {
                    return Err(Fault::SelfDerivingOutput);
                }
                if steps == 0 {
                    return Err(Fault::CyclicDerivers);
                }
                at = *deriver;
                steps -= 1;
            },
        }
    }
}

impl Closure {
    /// Counts how the items of the set stand with the binary caches.
    ///
    /// The items are counted in the order in which they came into the set.
    /// What is missing is listed in order, each name once.
    pub fn coverage_statistics(&self, store: &StoreCache) -> (counted: Result<
        CoverageStatistics,
        Fault,
    >)
        ensures
            match counted {
                Ok(stats) => {
                    &&& tally(store@.items, self.order(), store@.size()) matches Ok(tally)
                    &&& stats.total == self.order().len()
                    &&& stats.total == self@.len()
                    &&& stats.found == tally.found
                    &&& stats.file_size == tally.file_size
                    &&& stats.nar_size == tally.nar_size
                    &&& in_order(stats.missing.deep_view())
                    &&& stats.missing.deep_view().no_duplicates()
                    &&& forall|name: Seq<char>|
                        stats.missing.deep_view().contains(name) <==> tally.missing.contains(name)
                },
                Err(fault) => tally(store@.items, self.order(), store@.size()) == Err::<
                    Tally,
                    Fault,
                >(fault),
            },
    {
        let total = self.len();
        let hashes = self.entries();
        let ghost all = hashes.deep_view();
        let ghost items = store@.items;
        let ghost steps = store@.size();
        let mut stats = CoverageStatistics::default();
        stats.total = total as u64;
        assert(stats.missing.deep_view() =~= Seq::<Seq<char>>::empty());
        assert(all.take(0) =~= Seq::<Seq<u8>>::empty());
        let mut i: usize = 0;
        while i < hashes.len()
            invariant
                i <= hashes.len(),
                all == hashes.deep_view(),
                all == self.order(),
                items == store@.items,
                steps == store@.size(),
                stats.total == hashes.len(),
                stats.total == self@.len(),
                tally(items, all.take(i as int), steps) matches Ok(tally) && {
                    &&& stats.found == tally.found
                    &&& tally.found <= i
                    &&& stats.file_size == tally.file_size
                    &&& stats.nar_size == tally.nar_size
                    &&& forall|name: Seq<char>|
                        stats.missing.deep_view().contains(name) <==> tally.missing.contains(name)
                },
                in_order(stats.missing.deep_view()),
            decreases hashes.len() - i,
        {
            let ghost before = tally(items, all.take(i as int), steps)->Ok_0;
            proof {
                let longer = all.take(i + 1);
                assert(longer.drop_last() =~= all.take(i as int));
                assert(longer.last() == hashes@[i as int]@);
            }
            let found = match standing_of(store, hashes[i]) {
                Ok(found) => found,
                Err(fault) => {
                    proof {
                        lemma_tally_fault(items, all, steps, i + 1);
                    }
                    return Err(fault);
                },
            };
            match found {
                Standing::Found(file_size, nar_size) => {
                    if file_size > u64::MAX - stats.file_size || nar_size > u64::MAX
                        - stats.nar_size {
                        proof {
                            lemma_tally_fault(items, all, steps, i + 1);
                        }
                        return Err(Fault::SizeOverflow);
                    }
                    stats.found = stats.found + 1;
                    stats.file_size = stats.file_size + file_size;
                    stats.nar_size = stats.nar_size + nar_size;
                },
                Standing::Missing(name) => {
                    let ghost listed = stats.missing.deep_view();
                    insert_in_order(&mut stats.missing, name);
                    proof {
                        assert forall|other: Seq<char>|
                            stats.missing.deep_view().contains(other) <==> before.missing.push(
                                name@,
                            ).contains(other) by {
                            if before.missing.contains(other) {
                                let k = choose|k: int|
                                    0 <= k < before.missing.len() && before.missing[k] == other;
                                assert(before.missing.push(name@)[k] == other);
                            }
                            if other == name@ {
                                assert(before.missing.push(name@)[before.missing.len() as int]
                                    == other);
                            }
                            if before.missing.push(name@).contains(other) {
                                let k = choose|k: int|
                                    0 <= k < before.missing.push(name@).len()
                                        && before.missing.push(name@)[k] == other;
                                if k < before.missing.len() {
                                    assert(before.missing[k] == other);
                                }
                            }
                        }
                    }
                },
                Standing::Satisfied => {},
            }
            i += 1;
        }
        assert(all.take(i as int) =~= all);
        proof {
            lemma_in_order_distinct(stats.missing.deep_view());
        }
        Ok(stats)
    }
}

} // verus!
