//! That the order of counting does not matter.
//!
//! What is counted of a set of store items is the same in whatever order
//! its hashes are gone through, unless a fault stops the count: then the
//! order decides which fault is met first.

use vstd::prelude::*;

use crate::coverage::{standing, tally, StandingView};
use crate::item::StoreItemView;
use crate::runtime::Fault;

verus! {

/// Whether two lists hold the same hashes, each once.
pub open spec fn same_hashes(a: Seq<Seq<u8>>, b: Seq<Seq<u8>>) -> bool {
    &&& a.no_duplicates()
    &&& b.no_duplicates()
    &&& forall|hash: Seq<u8>| a.contains(hash) <==> b.contains(hash)
}

/// Whether each of the items stands without a fault.
pub open spec fn all_stand(
    items: Map<Seq<u8>, StoreItemView>,
    hashes: Seq<Seq<u8>>,
    steps: nat,
) -> bool {
    forall|i: int| 0 <= i < hashes.len() ==> standing(items, #[trigger] hashes[i], steps) is Ok
}

/// Whether one of the items is missing under `name`.
pub open spec fn misses(
    items: Map<Seq<u8>, StoreItemView>,
    hashes: Seq<Seq<u8>>,
    steps: nat,
    name: Seq<char>,
) -> bool {
    exists|i: int|
        0 <= i < hashes.len() && standing(items, #[trigger] hashes[i], steps) == Ok::<
            StandingView,
            Fault,
        >(StandingView::Missing(name))
}

/// One for an item that is found, nothing for any other.
pub open spec fn found_one(items: Map<Seq<u8>, StoreItemView>, steps: nat) -> spec_fn(
    Seq<u8>,
) -> nat {
    |hash: Seq<u8>|
        match standing(items, hash, steps) {
            Ok(StandingView::Found(_, _)) => 1nat,
            _ => 0nat,
        }
}

/// The size of the archive of an item that is found, as it is served,
/// nothing for any other.
pub open spec fn file_size_of(items: Map<Seq<u8>, StoreItemView>, steps: nat) -> spec_fn(
    Seq<u8>,
) -> nat {
    |hash: Seq<u8>|
        match standing(items, hash, steps) {
            Ok(StandingView::Found(file_size, _)) => file_size as nat,
            _ => 0nat,
        }
}

/// The size of the unpacked archive of an item that is found, nothing for
/// any other.
pub open spec fn nar_size_of(items: Map<Seq<u8>, StoreItemView>, steps: nat) -> spec_fn(
    Seq<u8>,
) -> nat {
    |hash: Seq<u8>|
        match standing(items, hash, steps) {
            Ok(StandingView::Found(_, nar_size)) => nar_size as nat,
            _ => 0nat,
        }
}

/// What `part` gives for each of the hashes, added up.
pub open spec fn sum(part: spec_fn(Seq<u8>) -> nat, hashes: Seq<Seq<u8>>) -> nat
    decreases hashes.len(),
{
    if hashes.len() == 0 {
        0
    } else {
        sum(part, hashes.drop_last()) + part(hashes.last())
    }
}

/// A sum is what is left without one of the hashes, and what that hash
/// gives.
pub proof fn lemma_sum_without(part: spec_fn(Seq<u8>) -> nat, hashes: Seq<Seq<u8>>, at: int)
    requires
        0 <= at < hashes.len(),
    ensures
        sum(part, hashes) == sum(part, hashes.remove(at)) + part(hashes[at]),
    decreases hashes.len(),
{
    if at == hashes.len() - 1 {
        assert(hashes.remove(at) =~= hashes.drop_last());
    } else {
        let shorter = hashes.drop_last();
        lemma_sum_without(part, shorter, at);
        assert(hashes.remove(at).drop_last() =~= shorter.remove(at));
        assert(hashes.remove(at).last() == hashes.last());
    }
}

/// Two lists of the same hashes are still so without a hash.
proof fn lemma_same_hashes_without(a: Seq<Seq<u8>>, b: Seq<Seq<u8>>, at: int)
    requires
        same_hashes(a, b),
        a.len() > 0,
        0 <= at < b.len(),
        b[at] == a.last(),
    ensures
        same_hashes(a.drop_last(), b.remove(at)),
{
    let shorter = a.drop_last();
    let rest = b.remove(at);
    let gone = a.last();
    assert forall|hash: Seq<u8>| shorter.contains(hash) <==> rest.contains(hash) by {
        if shorter.contains(hash) {
            let i = choose|i: int| 0 <= i < shorter.len() && shorter[i] == hash;
            assert(a[i] == hash);
            assert(a[i] != a[a.len() - 1]);
            assert(a.contains(hash));
            let k = choose|k: int| 0 <= k < b.len() && b[k] == hash;
            if k < at {
                assert(rest[k] == hash);
            } else {
                assert(rest[k - 1] == hash);
            }
        }
        if rest.contains(hash) {
            let k = choose|k: int| 0 <= k < rest.len() && rest[k] == hash;
            if k < at {
                assert(b[k] == hash);
                assert(b[k] != b[at]);
            } else {
                assert(b[k + 1] == hash);
                assert(b[k + 1] != b[at]);
            }
            assert(b.contains(hash));
            let i = choose|i: int| 0 <= i < a.len() && a[i] == hash;
            assert(shorter[i] == hash);
        }
    }
    assert forall|i: int, j: int|
        0 <= i < rest.len() && 0 <= j < rest.len() && i != j implies rest[i] != rest[j] by {
        let from_i = if i < at {
            i
        } else {
            i + 1
        };
        let from_j = if j < at {
            j
        } else {
            j + 1
        };
        assert(rest[i] == b[from_i] && rest[j] == b[from_j]);
    }
}

/// A sum over the same hashes is the same in whatever order.
pub proof fn lemma_sum_any_order(part: spec_fn(Seq<u8>) -> nat, a: Seq<Seq<u8>>, b: Seq<Seq<u8>>)
    requires
        same_hashes(a, b),
    ensures
        sum(part, a) == sum(part, b),
    decreases a.len(),
{
    if a.len() == 0 {
        if b.len() > 0 {
            assert(b.contains(b[0]));
        }
    } else {
        assert(a.contains(a[a.len() - 1]));
        let at = choose|at: int| 0 <= at < b.len() && b[at] == a.last();
        lemma_same_hashes_without(a, b, at);
        lemma_sum_any_order(part, a.drop_last(), b.remove(at));
        lemma_sum_without(part, b, at);
    }
}

/// A sum is no less than the sum over the hashes but the last.
proof fn lemma_sum_grows(part: spec_fn(Seq<u8>) -> nat, hashes: Seq<Seq<u8>>)
    ensures
        hashes.len() > 0 ==> sum(part, hashes.drop_last()) <= sum(part, hashes),
{
}

/// A tally ends without a fault where each item stands without one and
/// the sizes add up to no more than 64 bits hold. It then holds the sums,
/// and the names under which items are missing.
pub proof fn lemma_tally_sums(items: Map<Seq<u8>, StoreItemView>, hashes: Seq<Seq<u8>>, steps: nat)
    ensures
        tally(items, hashes, steps) is Ok <==> all_stand(items, hashes, steps) && sum(
            file_size_of(items, steps),
            hashes,
        ) <= u64::MAX && sum(nar_size_of(items, steps), hashes) <= u64::MAX,
        tally(items, hashes, steps) matches Ok(counted) ==> {
            &&& counted.found == sum(found_one(items, steps), hashes)
            &&& counted.file_size == sum(file_size_of(items, steps), hashes)
            &&& counted.nar_size == sum(nar_size_of(items, steps), hashes)
            &&& forall|name: Seq<char>|
                counted.missing.contains(name) <==> misses(items, hashes, steps, name)
        },
    decreases hashes.len(),
{
    if hashes.len() > 0 {
        let shorter = hashes.drop_last();
        let last = hashes.last();
        lemma_tally_sums(items, shorter, steps);
        assert forall|i: int| 0 <= i < shorter.len() implies shorter[i] == hashes[i] by {}
        if all_stand(items, hashes, steps) {
            assert forall|i: int| 0 <= i < shorter.len() implies standing(
                items,
                #[trigger] shorter[i],
                steps,
            ) is Ok by {
                assert(shorter[i] == hashes[i]);
            }
            assert(standing(items, hashes[hashes.len() - 1], steps) is Ok);
        }
        if all_stand(items, shorter, steps) && standing(items, last, steps) is Ok {
            assert forall|i: int| 0 <= i < hashes.len() implies standing(
                items,
                #[trigger] hashes[i],
                steps,
            ) is Ok by {
                if i < shorter.len() {
                    assert(shorter[i] == hashes[i]);
                }
            }
        }
        if let Ok(counted) = tally(items, hashes, steps) {
            let before = tally(items, shorter, steps)->Ok_0;
            assert forall|name: Seq<char>|
                counted.missing.contains(name) <==> misses(items, hashes, steps, name) by {
                if misses(items, shorter, steps, name) {
                    let i = choose|i: int|
                        0 <= i < shorter.len() && standing(items, #[trigger] shorter[i], steps)
                            == Ok::<StandingView, Fault>(StandingView::Missing(name));
                    assert(hashes[i] == shorter[i]);
                }
                if misses(items, hashes, steps, name) {
                    let i = choose|i: int|
                        0 <= i < hashes.len() && standing(items, #[trigger] hashes[i], steps)
                            == Ok::<StandingView, Fault>(StandingView::Missing(name));
                    if i < shorter.len() {
                        assert(shorter[i] == hashes[i]);
                    }
                }
                if before.missing.contains(name) {
                    let k = choose|k: int| 0 <= k < before.missing.len() && before.missing[k] == name;
                    assert(counted.missing[k] == name);
                }
                if counted.missing.contains(name) {
                    let k = choose|k: int|
                        0 <= k < counted.missing.len() && counted.missing[k] == name;
                    if k < before.missing.len() {
                        assert(before.missing[k] == name);
                    } else {
                        assert(standing(items, hashes[hashes.len() - 1], steps) == Ok::<
                            StandingView,
                            Fault,
                        >(StandingView::Missing(name)));
                    }
                }
                if standing(items, last, steps) == Ok::<StandingView, Fault>(
                    StandingView::Missing(name),
                ) {
                    assert(counted.missing[before.missing.len() as int] == name);
                    assert(standing(items, hashes[hashes.len() - 1], steps) == Ok::<
                        StandingView,
                        Fault,
                    >(StandingView::Missing(name)));
                }
            }
        }
    } else {
        let counted = tally(items, hashes, steps)->Ok_0;
        assert forall|name: Seq<char>|
            counted.missing.contains(name) <==> misses(items, hashes, steps, name) by {}
    }
}

/// The same hashes give the same tally in whatever order they are
/// counted: the same items found, the same sizes, and the same names
/// missing. Where one order meets a fault, so does every other.
pub proof fn lemma_tally_any_order(
    items: Map<Seq<u8>, StoreItemView>,
    a: Seq<Seq<u8>>,
    b: Seq<Seq<u8>>,
    steps: nat,
)
    requires
        same_hashes(a, b),
    ensures
        tally(items, a, steps) is Ok <==> tally(items, b, steps) is Ok,
        tally(items, a, steps) matches Ok(one) ==> (tally(items, b, steps) matches Ok(other) ==> {
            &&& one.found == other.found
            &&& one.file_size == other.file_size
            &&& one.nar_size == other.nar_size
            &&& forall|name: Seq<char>| one.missing.contains(name) <==> other.missing.contains(name)
        }),
{
    lemma_tally_sums(items, a, steps);
    lemma_tally_sums(items, b, steps);
    lemma_sum_any_order(found_one(items, steps), a, b);
    lemma_sum_any_order(file_size_of(items, steps), a, b);
    lemma_sum_any_order(nar_size_of(items, steps), a, b);
    assert(all_stand(items, a, steps) <==> all_stand(items, b, steps)) by {
        if all_stand(items, a, steps) {
            assert forall|i: int| 0 <= i < b.len() implies standing(
                items,
                #[trigger] b[i],
                steps,
            ) is Ok by {
                assert(b.contains(b[i]));
                let k = choose|k: int| 0 <= k < a.len() && a[k] == b[i];
                assert(standing(items, a[k], steps) is Ok);
            }
        }
        if all_stand(items, b, steps) {
            assert forall|i: int| 0 <= i < a.len() implies standing(
                items,
                #[trigger] a[i],
                steps,
            ) is Ok by {
                assert(a.contains(a[i]));
                let k = choose|k: int| 0 <= k < b.len() && b[k] == a[i];
                assert(standing(items, b[k], steps) is Ok);
            }
        }
    }
    assert forall|name: Seq<char>| misses(items, a, steps, name) <==> misses(
        items,
        b,
        steps,
        name,
    ) by {
        if misses(items, a, steps, name) {
            let i = choose|i: int|
                0 <= i < a.len() && standing(items, #[trigger] a[i], steps) == Ok::<
                    StandingView,
                    Fault,
                >(StandingView::Missing(name));
            assert(a.contains(a[i]));
            let k = choose|k: int| 0 <= k < b.len() && b[k] == a[i];
            assert(standing(items, b[k], steps) == standing(items, a[i], steps));
        }
        if misses(items, b, steps, name) {
            let i = choose|i: int|
                0 <= i < b.len() && standing(items, #[trigger] b[i], steps) == Ok::<
                    StandingView,
                    Fault,
                >(StandingView::Missing(name));
            assert(b.contains(b[i]));
            let k = choose|k: int| 0 <= k < a.len() && a[k] == b[i];
            assert(standing(items, a[k], steps) == standing(items, b[i], steps));
        }
    }
    if let Ok(one) = tally(items, a, steps) {
        if let Ok(other) = tally(items, b, steps) {
            assert forall|name: Seq<char>|
                one.missing.contains(name) <==> other.missing.contains(name) by {
                assert(one.missing.contains(name) <==> misses(items, a, steps, name));
                assert(other.missing.contains(name) <==> misses(items, b, steps, name));
                assert(misses(items, a, steps, name) <==> misses(items, b, steps, name));
            }
        }
    }
}

} // verus!
