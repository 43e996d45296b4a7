//! Following outputs to the derivations that make them.
//!
//! An output without a record stands as the derivation recorded as making
//! it. Where that hash holds an output in its turn, the next derivation is
//! looked at, and so on, for as many steps as the cache has items: behind
//! that many, the outputs go round in a circle.

use vstd::prelude::*;

use crate::coverage::{standing, StandingView};
use crate::item::StoreItemView;
use crate::runtime::Fault;

verus! {

/// The hash that `count` steps lead to from `hash`, each from an output to
/// the derivation recorded as making it. The steps end at a hash that has
/// no output.
pub open spec fn deriver_after(items: Map<Seq<u8>, StoreItemView>, hash: Seq<u8>, count: nat) -> Seq<
    u8,
>
    decreases count,
{
    if count == 0 || !items.contains_key(hash) {
        hash
    } else {
        match items[hash] {
            StoreItemView::Output(_, deriver) => deriver_after(items, deriver, (count - 1) as nat),
            _ => hash,
        }
    }
}

/// An item that stands without running out of steps stands the same with
/// more steps to go.
pub proof fn lemma_standing_with_more_steps(
    items: Map<Seq<u8>, StoreItemView>,
    hash: Seq<u8>,
    steps: nat,
    more: nat,
)
    requires
        steps <= more,
        standing(items, hash, steps) != Err::<StandingView, Fault>(Fault::CyclicDerivers),
    ensures
        standing(items, hash, more) == standing(items, hash, steps),
    decreases steps,
{
    if items.contains_key(hash) {
        match items[hash] {
            StoreItemView::Output(_, deriver) => {
                if deriver != hash && steps > 0 {
                    lemma_standing_with_more_steps(
                        items,
                        deriver,
                        (steps - 1) as nat,
                        (more - 1) as nat,
                    );
                }
            },
            _ => {},
        }
    }
}

/// Where the steps run out, each of them came to an output.
pub proof fn lemma_steps_run_out_on_outputs(
    items: Map<Seq<u8>, StoreItemView>,
    hash: Seq<u8>,
    steps: nat,
    count: nat,
)
    requires
        standing(items, hash, steps) == Err::<StandingView, Fault>(Fault::CyclicDerivers),
        count <= steps,
    ensures
        items.contains_key(deriver_after(items, hash, count)),
        items[deriver_after(items, hash, count)] is Output,
    decreases steps,
{
    match items[hash] {
        StoreItemView::Output(_, deriver) => {
            if count > 0 {
                lemma_steps_run_out_on_outputs(
                    items,
                    deriver,
                    (steps - 1) as nat,
                    (count - 1) as nat,
                );
            }
        },
        _ => {},
    }
}

/// With as many steps as the cache has items, the steps run out only
/// where they come to the same hash twice.
pub proof fn lemma_steps_run_out_in_a_circle(items: Map<Seq<u8>, StoreItemView>, hash: Seq<u8>)
    requires
        items.dom().finite(),
        standing(items, hash, items.dom().len()) == Err::<StandingView, Fault>(
            Fault::CyclicDerivers,
        ),
    ensures
        exists|i: nat, j: nat|
            i < j <= items.dom().len() && #[trigger] deriver_after(items, hash, i)
                == #[trigger] deriver_after(items, hash, j),
{
    let steps = items.dom().len();
    let way = Seq::new(steps + 1, |k: int| deriver_after(items, hash, k as nat));
    assert forall|k: int| 0 <= k < way.len() implies items.dom().contains(#[trigger] way[k]) by {
        lemma_steps_run_out_on_outputs(items, hash, steps, k as nat);
    }
    if way.no_duplicates() {
        way.unique_seq_to_set();
        assert(way.to_set().subset_of(items.dom())) by {
            assert forall|key: Seq<u8>| way.to_set().contains(key) implies items.dom().contains(
                key,
            ) by {
                let k = choose|k: int| 0 <= k < way.len() && way[k] == key;
                assert(items.dom().contains(way[k]));
            }
        }
        vstd::set_lib::lemma_len_subset(way.to_set(), items.dom());
    } else {
        let (i, j) = choose|i: int, j: int|
            0 <= i < way.len() && 0 <= j < way.len() && i != j && way[i] == way[j];
        if i < j {
            assert(deriver_after(items, hash, i as nat) == deriver_after(items, hash, j as nat));
        } else {
            assert(deriver_after(items, hash, j as nat) == deriver_after(items, hash, i as nat));
        }
    }
}

} // verus!
