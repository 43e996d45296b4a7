//! What a store item needs at run time.
//!
//! An item that a binary cache has a record of needs what the record
//! refers to. An output without a record stands for the derivation that
//! makes it, and a derivation needs the outputs that it asks of its input
//! derivations. A source needs nothing, and neither does a hash that the
//! cache knows nothing of.

use vstd::prelude::*;
use vstd::string::*;
use vstd::utf8::*;

use crate::derivation::{Drv, DrvView, InputDrv, InputDrvView};
use crate::hash::{has_hash, hash_of_name, hash_of_path, path_has_hash, StoreHash};
use crate::item::{StoreItem, StoreItemView};
use crate::store::StoreCache;

verus! {

/// A fault in the store's data that stops a computation.
#[derive(Debug, Clone, Copy, PartialEq, Eq)]
pub enum Fault {
    /// A derivation names an input derivation that the cache does not hold
    /// as a derivation.
    MissingInputDrv,
    /// A name or a path is too short to begin with a hash.
    InvalidStoreName,
    /// An output is recorded as made by the derivation of its own hash.
    SelfDerivingOutput,
    /// An output leads back to itself through the derivations recorded as
    /// making it.
    CyclicDerivers,
    /// A hash that is no text has to be reported by its text.
    UnprintableHash,
    /// The sizes add up to more than 64 bits hold.
    SizeOverflow,
}

/// The paths of the outputs of `drv` under the keys `keys`, in order. A
/// key that `drv` has no output under gives none.
pub open spec fn output_paths(drv: DrvView, keys: Seq<Seq<char>>) -> Seq<Seq<char>>
    decreases keys.len(),
{
    if keys.len() == 0 {
        Seq::empty()
    } else {
        let before = output_paths(drv, keys.drop_last());
        match drv.output(keys.last()) {
            Some(output) => before.push(output.path),
            None => before,
        }
    }
}

/// The hashes that the names begin with, where each begins with one.
pub open spec fn hashes_of_names(names: Seq<Seq<char>>) -> Result<Seq<Seq<u8>>, Fault>
    decreases names.len(),
{
    if names.len() == 0 {
        Ok(Seq::empty())
    } else {
        match hashes_of_names(names.drop_last()) {
            Ok(before) => if has_hash(encode_utf8(names.last())) {
                Ok(before.push(hash_of_name(encode_utf8(names.last()))))
            } else {
                Err(Fault::InvalidStoreName)
            },
            Err(fault) => Err(fault),
        }
    }
}

/// The hashes of the items that the paths lead to, where each leads to
/// one.
pub open spec fn hashes_of_paths(paths: Seq<Seq<char>>) -> Result<Seq<Seq<u8>>, Fault>
    decreases paths.len(),
{
    if paths.len() == 0 {
        Ok(Seq::empty())
    } else {
        match hashes_of_paths(paths.drop_last()) {
            Ok(before) => if path_has_hash(paths.last()) {
                Ok(before.push(hash_of_path(paths.last())))
            } else {
                Err(Fault::InvalidStoreName)
            },
            Err(fault) => Err(fault),
        }
    }
}

impl InputDrvView {
    /// The paths of the outputs that are asked of the input derivation,
    /// as the derivation in the cache gives them.
    pub open spec fn resolve(self, items: Map<Seq<u8>, StoreItemView>) -> Result<
        Seq<Seq<char>>,
        Fault,
    > {
        if !path_has_hash(self.path) {
            Err(Fault::InvalidStoreName)
        } else if !items.contains_key(hash_of_path(self.path)) {
            Err(Fault::MissingInputDrv)
        } else {
            match items[hash_of_path(self.path)] {
                StoreItemView::Drv(drv) => Ok(output_paths(drv, self.outputs)),
                _ => Err(Fault::MissingInputDrv),
            }
        }
    }
}

/// The hashes of the outputs that the input derivations are asked for, in
/// order.
pub open spec fn input_references(
    items: Map<Seq<u8>, StoreItemView>,
    inputs: Seq<InputDrvView>,
) -> Result<Seq<Seq<u8>>, Fault>
    decreases inputs.len(),
{
    if inputs.len() == 0 {
        Ok(Seq::empty())
    } else {
        match input_references(items, inputs.drop_last()) {
            Ok(before) => match inputs.last().resolve(items) {
                Ok(paths) => match hashes_of_paths(paths) {
                    Ok(hashes) => Ok(before + hashes),
                    Err(fault) => Err(fault),
                },
                Err(fault) => Err(fault),
            },
            Err(fault) => Err(fault),
        }
    }
}

/// The hashes that the item of `hash` needs at run time.
pub open spec fn references_of(items: Map<Seq<u8>, StoreItemView>, hash: Seq<u8>) -> Result<
    Seq<Seq<u8>>,
    Fault,
> {
    if !items.contains_key(hash) {
        Ok(Seq::empty())
    } else {
        match items[hash] {
            StoreItemView::NarInfo(info) => hashes_of_names(info.references),
            StoreItemView::Output(_, deriver) => Ok(seq![deriver]),
            StoreItemView::Drv(drv) => input_references(items, drv.input_drvs),
            StoreItemView::Source(_) => Ok(Seq::empty()),
        }
    }
}

impl InputDrv {
    /// The paths of the outputs that are asked of the input derivation,
    /// as the derivation in the cache gives them.
    pub fn resolve(&self, drvs: &StoreCache) -> (paths: Result<Vec<String>, Fault>)
        ensures
            match paths {
                Ok(paths) => self@.resolve(drvs@.items) == Ok::<Seq<Seq<char>>, Fault>(
                    paths.deep_view(),
                ),
                Err(fault) => self@.resolve(drvs@.items) == Err::<Seq<Seq<char>>, Fault>(fault),
            },
    {
        if !StoreHash::is_path(self.path.as_str()) {
            return Err(Fault::InvalidStoreName);
        }
        let hash = StoreHash::from_path(self.path.as_str());
        match drvs.get(&hash) {
            Some(StoreItem::Drv(drv)) => {
                let mut paths: Vec<String> = Vec::new();
                let mut i: usize = 0;
                assert(self@.outputs.take(0) =~= Seq::empty());
                assert(paths.deep_view() =~= Seq::empty());
                while i < self.outputs.len()
                    invariant
                        i <= self.outputs.len(),
                        paths.deep_view() == output_paths(drv@, self@.outputs.take(i as int)),
                    decreases self.outputs.len() - i,
                {
                    proof {
                        let longer = self@.outputs.take(i + 1);
                        assert(longer.drop_last() =~= self@.outputs.take(i as int));
                        assert(longer.last() == self.outputs@[i as int]@);
                    }
                    match drv.find_output(self.outputs[i].as_str()) {
                        Some(output) => {
                            let ghost before = paths.deep_view();
                            paths.push(output.path.clone());
                            assert(paths.deep_view() =~= before.push(output@.path));
                        },
                        None => {},
                    }
                    i += 1;
                }
                assert(self@.outputs.take(i as int) =~= self@.outputs);
                Ok(paths)
            },
            _ => Err(Fault::MissingInputDrv),
        }
    }
}

/// Appends the hashes that the names begin with.
fn push_hashes_of_names(hashes: &mut Vec<StoreHash>, names: &Vec<String>) -> (done: Result<
    (),
    Fault,
>)
    ensures
        match done {
            Ok(()) => hashes_of_names(names.deep_view()) matches Ok(more) && final(hashes).deep_view()
                == old(hashes).deep_view() + more,
            Err(fault) => hashes_of_names(names.deep_view()) == Err::<Seq<Seq<u8>>, Fault>(fault),
        },
{
    let ghost all = names.deep_view();
    let ghost before = hashes.deep_view();
    let mut i: usize = 0;
    assert(all.take(0) =~= Seq::empty());
    assert(before + Seq::empty() =~= before);
    while i < names.len()
        invariant
            i <= names.len(),
            all == names.deep_view(),
            hashes_of_names(all.take(i as int)) matches Ok(more) && hashes.deep_view() == before
                + more,
        decreases names.len() - i,
    {
        proof {
            let longer = all.take(i + 1);
            assert(longer.drop_last() =~= all.take(i as int));
            assert(longer.last() == names@[i as int]@);
        }
        if !StoreHash::is_name(names[i].as_str()) {
            proof {
                lemma_names_fault(all, i + 1);
            }
            return Err(Fault::InvalidStoreName);
        }
        let ghost so_far = hashes.deep_view();
        let ghost more = hashes_of_names(all.take(i as int))->Ok_0;
        let hash = StoreHash::from_name(names[i].as_str());
        hashes.push(hash);
        assert(hashes.deep_view() =~= so_far.push(hash@));
        assert(before + more.push(hash@) =~= (before + more).push(hash@));
        i += 1;
    }
    assert(all.take(i as int) =~= all);
    Ok(())
}

/// Names that begin with a fault end with it.
proof fn lemma_names_fault(names: Seq<Seq<char>>, len: int)
    requires
        0 <= len <= names.len(),
        hashes_of_names(names.take(len)) is Err,
    ensures
        hashes_of_names(names) == Err::<Seq<Seq<u8>>, Fault>(Fault::InvalidStoreName),
    decreases names.len() - len,
{
    lemma_names_fault_kind(names.take(len));
    if len == names.len() {
        assert(names.take(len) =~= names);
    } else {
        let shorter = names.drop_last();
        assert(shorter.take(len) =~= names.take(len));
        lemma_names_fault(shorter, len);
    }
}

/// The only fault in names is a name without a hash.
proof fn lemma_names_fault_kind(names: Seq<Seq<char>>)
    ensures
        hashes_of_names(names) is Err ==> hashes_of_names(names) == Err::<Seq<Seq<u8>>, Fault>(
            Fault::InvalidStoreName,
        ),
    decreases names.len(),
{
    if names.len() > 0 {
        lemma_names_fault_kind(names.drop_last());
    }
}

/// Paths that begin with a fault end with it.
proof fn lemma_paths_fault(paths: Seq<Seq<char>>, len: int)
    requires
        0 <= len <= paths.len(),
        hashes_of_paths(paths.take(len)) is Err,
    ensures
        hashes_of_paths(paths) == Err::<Seq<Seq<u8>>, Fault>(Fault::InvalidStoreName),
    decreases paths.len() - len,
{
    lemma_paths_fault_kind(paths.take(len));
    if len == paths.len() {
        assert(paths.take(len) =~= paths);
    } else {
        let shorter = paths.drop_last();
        assert(shorter.take(len) =~= paths.take(len));
        lemma_paths_fault(shorter, len);
    }
}

/// The only fault in paths is a path without a hash.
proof fn lemma_paths_fault_kind(paths: Seq<Seq<char>>)
    ensures
        hashes_of_paths(paths) is Err ==> hashes_of_paths(paths) == Err::<Seq<Seq<u8>>, Fault>(
            Fault::InvalidStoreName,
        ),
    decreases paths.len(),
{
    if paths.len() > 0 {
        lemma_paths_fault_kind(paths.drop_last());
    }
}

/// Input derivations that begin with a fault end with it.
proof fn lemma_inputs_fault(
    items: Map<Seq<u8>, StoreItemView>,
    inputs: Seq<InputDrvView>,
    len: int,
)
    requires
        0 <= len <= inputs.len(),
        input_references(items, inputs.take(len)) is Err,
    ensures
        input_references(items, inputs) == input_references(items, inputs.take(len)),
    decreases inputs.len() - len,
{
    if len == inputs.len() {
        assert(inputs.take(len) =~= inputs);
    } else {
        let shorter = inputs.drop_last();
        assert(shorter.take(len) =~= inputs.take(len));
        lemma_inputs_fault(items, shorter, len);
    }
}

/// Appends the hashes of the items that the paths lead to.
fn push_hashes_of_paths(hashes: &mut Vec<StoreHash>, paths: &Vec<String>) -> (done: Result<
    (),
    Fault,
>)
    ensures
        match done {
            Ok(()) => hashes_of_paths(paths.deep_view()) matches Ok(more) && final(hashes).deep_view()
                == old(hashes).deep_view() + more,
            Err(fault) => hashes_of_paths(paths.deep_view()) == Err::<Seq<Seq<u8>>, Fault>(fault),
        },
{
    let ghost all = paths.deep_view();
    let ghost before = hashes.deep_view();
    let mut i: usize = 0;
    assert(all.take(0) =~= Seq::empty());
    assert(before + Seq::empty() =~= before);
    while i < paths.len()
        invariant
            i <= paths.len(),
            all == paths.deep_view(),
            hashes_of_paths(all.take(i as int)) matches Ok(more) && hashes.deep_view() == before
                + more,
        decreases paths.len() - i,
    {
        proof {
            let longer = all.take(i + 1);
            assert(longer.drop_last() =~= all.take(i as int));
            assert(longer.last() == paths@[i as int]@);
        }
        if !StoreHash::is_path(paths[i].as_str()) {
            proof {
                lemma_paths_fault(all, i + 1);
            }
            return Err(Fault::InvalidStoreName);
        }
        let ghost so_far = hashes.deep_view();
        let ghost more = hashes_of_paths(all.take(i as int))->Ok_0;
        let hash = StoreHash::from_path(paths[i].as_str());
        hashes.push(hash);
        assert(hashes.deep_view() =~= so_far.push(hash@));
        assert(before + more.push(hash@) =~= (before + more).push(hash@));
        i += 1;
    }
    assert(all.take(i as int) =~= all);
    Ok(())
}

/// The hashes that the item of `hash` needs at run time.
pub fn runtime_references(store: &StoreCache, hash: &StoreHash) -> (references: Result<
    Vec<StoreHash>,
    Fault,
>)
    ensures
        match references {
            Ok(hashes) => references_of(store@.items, hash@) == Ok::<Seq<Seq<u8>>, Fault>(
                hashes.deep_view(),
            ),
            Err(fault) => references_of(store@.items, hash@) == Err::<Seq<Seq<u8>>, Fault>(fault),
        },
{
    let mut hashes: Vec<StoreHash> = Vec::new();
    assert(hashes.deep_view() =~= Seq::empty());
    match store.get(hash) {
        Some(StoreItem::NarInfo(info)) => {
            match push_hashes_of_names(&mut hashes, &info.references) {
                Ok(()) => {
                    let ghost more = hashes_of_names(info@.references)->Ok_0;
                    assert(Seq::<Seq<u8>>::empty() + more =~= more);
                    Ok(hashes)
                },
                Err(fault) => Err(fault),
            }
        },
        Some(StoreItem::Output(_, deriver)) => {
            hashes.push(*deriver);
            assert(hashes.deep_view() =~= seq![deriver@]);
            Ok(hashes)
        },
        Some(StoreItem::Drv(drv)) => {
            let ghost inputs = drv@.input_drvs;
            let mut i: usize = 0;
            assert(inputs.take(0) =~= Seq::empty());
            while i < drv.input_drvs.len()
                invariant
                    i <= drv.input_drvs.len(),
                    inputs == drv@.input_drvs,
                    references_of(store@.items, hash@) == input_references(store@.items, inputs),
                    input_references(store@.items, inputs.take(i as int)) == Ok::<
                        Seq<Seq<u8>>,
                        Fault,
                    >(hashes.deep_view()),
                decreases drv.input_drvs.len() - i,
            {
                proof {
                    let longer = inputs.take(i + 1);
                    assert(longer.drop_last() =~= inputs.take(i as int));
                    assert(longer.last() == drv.input_drvs@[i as int]@);
                }
                let paths = match drv.input_drvs[i].resolve(store) {
                    Ok(paths) => paths,
                    Err(fault) => {
                        proof {
                            lemma_inputs_fault(store@.items, inputs, i + 1);
                        }
                        return Err(fault);
                    },
                };
                match push_hashes_of_paths(&mut hashes, &paths) {
                    Ok(()) => {},
                    Err(fault) => {
                        proof {
                            lemma_inputs_fault(store@.items, inputs, i + 1);
                        }
                        return Err(fault);
                    },
                }
                i += 1;
            }
            assert(inputs.take(i as int) =~= inputs);
            Ok(hashes)
        },
        _ => Ok(hashes),
    }
}

} // verus!
