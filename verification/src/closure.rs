//! The store items that are needed at run time.
//!
//! From an item the walk goes on to what the item needs, and from there
//! further, setting down each hash it comes to and turning back where a
//! hash is set down already.

use vstd::prelude::*;

use crate::hash::StoreHash;
use crate::item::StoreItemView;
use crate::runtime::{references_of, runtime_references, Fault};
use crate::store::StoreCache;

verus! {

/// Whether the item of `from` needs the item of `to`.
pub open spec fn needs(items: Map<Seq<u8>, StoreItemView>, from: Seq<u8>, to: Seq<u8>) -> bool {
    references_of(items, from) matches Ok(references) && references.contains(to)
}

/// Whether `walk` goes from item to needed item, and past no hash of
/// `avoid`.
pub open spec fn is_walk(
    items: Map<Seq<u8>, StoreItemView>,
    avoid: Set<Seq<u8>>,
    walk: Seq<Seq<u8>>,
) -> bool {
    &&& walk.len() > 0
    &&& forall|i: int| 0 <= i < walk.len() ==> !avoid.contains(#[trigger] walk[i])
    &&& forall|i: int| 0 <= i < walk.len() - 1 ==> needs(items, #[trigger] walk[i], walk[i + 1])
}

/// Whether a walk leads from `from` to `to` past no hash of `avoid`.
pub open spec fn reaches(
    items: Map<Seq<u8>, StoreItemView>,
    avoid: Set<Seq<u8>>,
    from: Seq<u8>,
    to: Seq<u8>,
) -> bool {
    exists|walk: Seq<Seq<u8>>| #[trigger]
        is_walk(items, avoid, walk) && walk[0] == from && walk.last() == to
}

/// A hash outside `avoid` reaches itself.
pub proof fn lemma_reaches_itself(
    items: Map<Seq<u8>, StoreItemView>,
    avoid: Set<Seq<u8>>,
    hash: Seq<u8>,
)
    requires
        !avoid.contains(hash),
    ensures
        reaches(items, avoid, hash, hash),
{
    let walk = seq![hash];
    assert(is_walk(items, avoid, walk));
    assert(walk[0] == hash && walk.last() == hash);
}

/// What a reached item needs is reached too, unless it is to be avoided.
pub proof fn lemma_reaches_further(
    items: Map<Seq<u8>, StoreItemView>,
    avoid: Set<Seq<u8>>,
    from: Seq<u8>,
    over: Seq<u8>,
    to: Seq<u8>,
)
    requires
        reaches(items, avoid, from, over),
        needs(items, over, to),
        !avoid.contains(to),
    ensures
        reaches(items, avoid, from, to),
{
    let walk = choose|walk: Seq<Seq<u8>>| #[trigger]
        is_walk(items, avoid, walk) && walk[0] == from && walk.last() == over;
    let longer = walk.push(to);
    assert forall|i: int| 0 <= i < longer.len() - 1 implies needs(
        items,
        #[trigger] longer[i],
        longer[i + 1],
    ) by {
        if i < walk.len() - 1 {
            assert(needs(items, walk[i], walk[i + 1]));
        }
    }
    assert(is_walk(items, avoid, longer));
    assert(longer[0] == from && longer.last() == to);
}

/// A set of hashes outside `avoid` that holds `from`, and with each hash
/// what it needs outside `avoid`, holds whatever `from` reaches.
pub proof fn lemma_closed_holds_reached(
    items: Map<Seq<u8>, StoreItemView>,
    avoid: Set<Seq<u8>>,
    held: Set<Seq<u8>>,
    walk: Seq<Seq<u8>>,
)
    requires
        is_walk(items, avoid, walk),
        held.contains(walk[0]),
        forall|a: Seq<u8>, b: Seq<u8>|
            held.contains(a) && !avoid.contains(a) && #[trigger] needs(items, a, b)
                && !avoid.contains(b) ==> held.contains(b),
    ensures
        held.contains(walk.last()),
    decreases walk.len(),
{
    if walk.len() > 1 {
        let shorter = walk.drop_last();
        assert forall|i: int| 0 <= i < shorter.len() - 1 implies needs(
            items,
            #[trigger] shorter[i],
            shorter[i + 1],
        ) by {
            assert(needs(items, walk[i], walk[i + 1]));
        }
        assert(is_walk(items, avoid, shorter));
        lemma_closed_holds_reached(items, avoid, held, shorter);
        let over = walk[walk.len() - 2];
        assert(shorter.last() == over);
        assert(needs(items, walk[walk.len() - 2], walk[walk.len() - 2 + 1]));
        assert(!avoid.contains(walk[walk.len() - 2]));
        assert(!avoid.contains(walk[walk.len() - 1]));
    }
}

/// What holds while a walk from `from` goes on: `seen` holds what the
/// set held at first and what the walk came to, and `stack` the hashes it
/// has still to go to.
#[verifier::opaque]
pub open spec fn walking(
    items: Map<Seq<u8>, StoreItemView>,
    avoid: Set<Seq<u8>>,
    from: Seq<u8>,
    seen: Set<Seq<u8>>,
    stack: Seq<Seq<u8>>,
) -> bool {
    &&& forall|other: Seq<u8>| avoid.contains(other) ==> seen.contains(other)
    &&& forall|other: Seq<u8>| #[trigger]
        seen.contains(other) && !avoid.contains(other) ==> reaches(items, avoid, from, other)
            && references_of(items, other) is Ok
    &&& forall|a: Seq<u8>, b: Seq<u8>|
        seen.contains(a) && !avoid.contains(a) && #[trigger] needs(items, a, b) ==> seen.contains(
            b,
        ) || stack.contains(b)
    &&& forall|i: int|
        0 <= i < stack.len() ==> avoid.contains(#[trigger] stack[i]) || reaches(
            items,
            avoid,
            from,
            stack[i],
        )
    &&& seen.contains(from) || stack.contains(from)
}

/// A walk begins with nothing seen but what is to be avoided, and its
/// first hash to go to.
pub proof fn lemma_walk_begins(
    items: Map<Seq<u8>, StoreItemView>,
    avoid: Set<Seq<u8>>,
    from: Seq<u8>,
)
    ensures
        walking(items, avoid, from, avoid, seq![from]),
{
    reveal(walking);
    let stack = seq![from];
    assert(stack[0] == from);
    if !avoid.contains(from) {
        lemma_reaches_itself(items, avoid, from);
    }
}

/// A hash that was seen before is passed over.
pub proof fn lemma_walk_passes(
    items: Map<Seq<u8>, StoreItemView>,
    avoid: Set<Seq<u8>>,
    from: Seq<u8>,
    seen: Set<Seq<u8>>,
    stack: Seq<Seq<u8>>,
)
    requires
        walking(items, avoid, from, seen, stack),
        stack.len() > 0,
        seen.contains(stack.last()),
    ensures
        walking(items, avoid, from, seen, stack.drop_last()),
{
    reveal(walking);
    let shorter = stack.drop_last();
    assert forall|b: Seq<u8>| stack.contains(b) implies shorter.contains(b) || b
        == stack.last() by {
        let i = choose|i: int| 0 <= i < stack.len() && stack[i] == b;
        if i < stack.len() - 1 {
            assert(shorter[i] == b);
        }
    }
    assert forall|i: int| 0 <= i < shorter.len() implies avoid.contains(#[trigger] shorter[i])
        || reaches(items, avoid, from, shorter[i]) by {
        assert(shorter[i] == stack[i]);
    }
}

/// A hash that was not seen before is reached by the walk.
pub proof fn lemma_walk_reaches(
    items: Map<Seq<u8>, StoreItemView>,
    avoid: Set<Seq<u8>>,
    from: Seq<u8>,
    seen: Set<Seq<u8>>,
    stack: Seq<Seq<u8>>,
)
    requires
        walking(items, avoid, from, seen, stack),
        stack.len() > 0,
        !seen.contains(stack.last()),
    ensures
        !avoid.contains(stack.last()),
        reaches(items, avoid, from, stack.last()),
{
    reveal(walking);
    assert(avoid.contains(stack[stack.len() - 1]) || reaches(
        items,
        avoid,
        from,
        stack[stack.len() - 1],
    ));
}

/// A hash that was not seen before is seen, and what its item needs is
/// gone to next.
pub proof fn lemma_walk_visits(
    items: Map<Seq<u8>, StoreItemView>,
    avoid: Set<Seq<u8>>,
    from: Seq<u8>,
    seen: Set<Seq<u8>>,
    stack: Seq<Seq<u8>>,
    references: Seq<Seq<u8>>,
)
    requires
        walking(items, avoid, from, seen, stack),
        stack.len() > 0,
        !seen.contains(stack.last()),
        references_of(items, stack.last()) == Ok::<Seq<Seq<u8>>, Fault>(references),
    ensures
        walking(
            items,
            avoid,
            from,
            seen.insert(stack.last()),
            stack.drop_last() + references.reverse(),
        ),
{
    lemma_walk_reaches(items, avoid, from, seen, stack);
    reveal(walking);
    let next = stack.last();
    let shorter = stack.drop_last();
    let turned = references.reverse();
    let longer = shorter + turned;
    let seen_now = seen.insert(next);
    assert forall|b: Seq<u8>| stack.contains(b) implies longer.contains(b) || b == next by {
        let i = choose|i: int| 0 <= i < stack.len() && stack[i] == b;
        if i < stack.len() - 1 {
            assert(longer[i] == b);
        }
    }
    assert forall|b: Seq<u8>| references.contains(b) implies longer.contains(b) by {
        let i = choose|i: int| 0 <= i < references.len() && references[i] == b;
        let k = references.len() - 1 - i;
        assert(turned[k] == b);
        assert(longer[shorter.len() + k] == b);
    }
    assert forall|i: int| 0 <= i < longer.len() implies avoid.contains(#[trigger] longer[i])
        || reaches(items, avoid, from, longer[i]) by {
        if i < shorter.len() {
            assert(longer[i] == stack[i]);
        } else {
            let k = i - shorter.len();
            assert(longer[i] == references[references.len() - 1 - k]);
            assert(references.contains(longer[i]));
            assert(needs(items, next, longer[i]));
            if !avoid.contains(longer[i]) {
                lemma_reaches_further(items, avoid, from, next, longer[i]);
            }
        }
    }
    assert forall|a: Seq<u8>, b: Seq<u8>|
        seen_now.contains(a) && !avoid.contains(a) && #[trigger] needs(
            items,
            a,
            b,
        ) implies seen_now.contains(b) || longer.contains(b) by {
        if a == next {
            assert(references.contains(b));
        } else {
            assert(seen.contains(a));
            assert(seen.contains(b) || stack.contains(b));
        }
    }
    assert(seen_now.contains(from) || longer.contains(from));
}

/// Whatever a walk has seen was held at first or is reached from its
/// beginning, and what was held at first is held still.
pub proof fn lemma_walk_sound(
    items: Map<Seq<u8>, StoreItemView>,
    avoid: Set<Seq<u8>>,
    from: Seq<u8>,
    seen: Set<Seq<u8>>,
    stack: Seq<Seq<u8>>,
)
    requires
        walking(items, avoid, from, seen, stack),
    ensures
        forall|other: Seq<u8>| avoid.contains(other) ==> seen.contains(other),
        forall|other: Seq<u8>| #[trigger]
            seen.contains(other) ==> avoid.contains(other) || reaches(items, avoid, from, other),
{
    reveal(walking);
}

/// A walk with no hash left to go to has seen whatever is reached from
/// its beginning, and met no fault.
pub proof fn lemma_walk_ends(
    items: Map<Seq<u8>, StoreItemView>,
    avoid: Set<Seq<u8>>,
    from: Seq<u8>,
    seen: Set<Seq<u8>>,
)
    requires
        walking(items, avoid, from, seen, Seq::<Seq<u8>>::empty()),
    ensures
        forall|other: Seq<u8>| #[trigger]
            reaches(items, avoid, from, other) ==> seen.contains(other) && references_of(
                items,
                other,
            ) is Ok,
{
    reveal(walking);
    assert forall|other: Seq<u8>| #[trigger] reaches(items, avoid, from, other) implies seen.contains(
        other,
    ) && references_of(items, other) is Ok by {
        let walk = choose|walk: Seq<Seq<u8>>| #[trigger]
            is_walk(items, avoid, walk) && walk[0] == from && walk.last() == other;
        assert(!avoid.contains(walk[0]));
        assert(!avoid.contains(walk[walk.len() - 1]));
        assert(!Seq::<Seq<u8>>::empty().contains(from));
        assert forall|a: Seq<u8>, b: Seq<u8>|
            seen.contains(a) && !avoid.contains(a) && #[trigger] needs(items, a, b)
                && !avoid.contains(b) implies seen.contains(b) by {
            assert(!Seq::<Seq<u8>>::empty().contains(b));
        }
        lemma_closed_holds_reached(items, avoid, seen, walk);
    }
}

/// Appends `more` to `stack`, its last hash first.
fn push_reversed(stack: &mut Vec<StoreHash>, more: &Vec<StoreHash>)
    ensures
        final(stack).deep_view() == old(stack).deep_view() + more.deep_view().reverse(),
{
    let ghost kept = stack.deep_view();
    let ghost turned = more.deep_view().reverse();
    let mut i: usize = more.len();
    assert(kept + turned.take(0) =~= kept);
    while i > 0
        invariant
            i <= more.len(),
            turned == more.deep_view().reverse(),
            stack.deep_view() == kept + turned.take(more.len() - i),
        decreases i,
    {
        i -= 1;
        let ghost before = stack.deep_view();
        stack.push(more[i]);
        assert(stack.deep_view() =~= before.push(more[i as int]@));
        assert(turned[more.len() - 1 - i] == more.deep_view()[i as int]);
        assert(kept + turned.take(more.len() - i) =~= (kept + turned.take(more.len() - i - 1)).push(
            turned[more.len() - 1 - i],
        ));
    }
    assert(turned.take(more.len() as int) =~= turned);
}

/// A set of the hashes of store items.
pub struct Closure {
    hashes: Vec<StoreHash>,
}

impl View for Closure {
    type V = Set<Seq<u8>>;

    open spec fn view(&self) -> Set<Seq<u8>> {
        self.order().to_set()
    }
}

impl Closure {
    #[verifier::type_invariant]
    spec fn distinct(self) -> bool {
        self.hashes.deep_view().no_duplicates()
    }

    /// The hashes of the set, in the order in which they came into it.
    pub closed spec fn order(self) -> Seq<Seq<u8>> {
        self.hashes.deep_view()
    }

    /// A set without hashes.
    pub fn empty() -> (closure: Closure)
        ensures
            closure.order() == Seq::<Seq<u8>>::empty(),
            closure@ == Set::<Seq<u8>>::empty(),
    {
        let closure = Closure { hashes: Vec::new() };
        assert(closure.order() =~= Seq::<Seq<u8>>::empty());
        assert(closure@ =~= Set::<Seq<u8>>::empty());
        closure
    }

    /// The hashes of the set, each once.
    pub fn entries(&self) -> (hashes: &Vec<StoreHash>)
        ensures
            hashes.deep_view() == self.order(),
            self.order().no_duplicates(),
    {
        proof {
            use_type_invariant(self);
        }
        &self.hashes
    }

    /// How many hashes the set holds.
    pub fn len(&self) -> (count: usize)
        ensures
            count == self.order().len(),
            self@.finite(),
            count == self@.len(),
    {
        proof {
            use_type_invariant(self);
            self.order().unique_seq_to_set();
            vstd::seq_lib::seq_to_set_is_finite(self.order());
        }
        self.hashes.len()
    }

    /// Whether the set holds `hash`.
    pub fn contains(&self, hash: &StoreHash) -> (held: bool)
        ensures
            held == self@.contains(hash@),
    {
        let mut i: usize = 0;
        while i < self.hashes.len()
            invariant
                i <= self.hashes.len(),
                forall|k: int| 0 <= k < i ==> self.order()[k] != hash@,
            decreases self.hashes.len() - i,
        {
            if self.hashes[i] == *hash {
                assert(self.order()[i as int] == hash@);
                return true;
            }
            i += 1;
        }
        false
    }

    /// Puts a hash into the set that it does not hold.
    fn insert(&mut self, hash: StoreHash)
        requires
            !old(self)@.contains(hash@),
        ensures
            final(self).order() == old(self).order().push(hash@),
            final(self)@ == old(self)@.insert(hash@),
    {
        proof {
            use_type_invariant(&*self);
        }
        let ghost before = self.order();
        let mut hashes: Vec<StoreHash> = Vec::new();
        core::mem::swap(&mut self.hashes, &mut hashes);
        hashes.push(hash);
        assert(hashes.deep_view() =~= before.push(hash@));
        assert(hashes.deep_view().no_duplicates()) by {
            assert forall|i: int, j: int|
                0 <= i < hashes.deep_view().len() && 0 <= j < hashes.deep_view().len() && i
                    != j implies hashes.deep_view()[i] != hashes.deep_view()[j] by {
                if i < before.len() {
                    assert(before.contains(before[i]));
                }
                if j < before.len() {
                    assert(before.contains(before[j]));
                }
            }
        }
        core::mem::swap(&mut self.hashes, &mut hashes);
        assert(self@ =~= before.to_set().insert(hash@)) by {
            assert forall|h: Seq<u8>| self.order().contains(h) <==> before.contains(h) || h
                == hash@ by {
                if before.contains(h) {
                    let i = choose|i: int| 0 <= i < before.len() && before[i] == h;
                    assert(self.order()[i] == h);
                }
                if h == hash@ {
                    assert(self.order()[before.len() as int] == h);
                }
            }
        }
    }

    /// Adds `hash`, and whatever its item needs at run time, to the set.
    /// The walk passes no hash that the set holds already: from there on
    /// everything is taken to be in the set.
    ///
    /// It fails where an item on the way has a fault in what it needs, and
    /// only there.
    pub fn add_runtime_closure_of(&mut self, hash: StoreHash, store: &StoreCache) -> (done: Result<
        (),
        Fault,
    >)
        ensures
            forall|other: Seq<u8>| old(self)@.contains(other) ==> final(self)@.contains(other),
            forall|other: Seq<u8>| #[trigger]
                final(self)@.contains(other) ==> old(self)@.contains(other) || reaches(
                    store@.items,
                    old(self)@,
                    hash@,
                    other,
                ),
            match done {
                Ok(()) => {
                    forall|other: Seq<u8>| #[trigger]
                        reaches(store@.items, old(self)@, hash@, other) ==> final(self)@.contains(
                            other,
                        ) && references_of(store@.items, other) is Ok
                },
                Err(fault) => exists|other: Seq<u8>| #[trigger]
                    reaches(store@.items, old(self)@, hash@, other) && references_of(
                        store@.items,
                        other,
                    ) == Err::<Seq<Seq<u8>>, Fault>(fault),
            },
    {
        let ghost items = store@.items;
        let ghost avoid = self@;
        let ghost from = hash@;
        let ghost mut unvisited: Set<Seq<u8>>;
        let entries = store.entries();
        proof {
            let keys = entries.deep_view().map_values(|pair: (Seq<u8>, StoreItemView)| pair.0);
            vstd::seq_lib::seq_to_set_is_finite(keys);
            unvisited = keys.to_set();
            assert forall|key: Seq<u8>| items.contains_key(key) implies unvisited.contains(key) by {
                let i = choose|i: int|
                    0 <= i < entries.deep_view().len() && entries.deep_view()[i].0 == key;
                assert(keys[i] == key);
            }
            lemma_walk_begins(items, avoid, from);
        }
        let mut stack: Vec<StoreHash> = Vec::new();
        stack.push(hash);
        assert(stack.deep_view() =~= seq![from]);
        loop
            invariant
                items == store@.items,
                avoid == old(self)@,
                from == hash@,
                walking(items, avoid, from, self@, stack.deep_view()),
                unvisited.finite(),
                forall|key: Seq<u8>|
                    items.contains_key(key) && !self@.contains(key) ==> unvisited.contains(key),
            decreases unvisited.len(), stack.len(),
        {
            let ghost stacked = stack.deep_view();
            let ghost seen = self@;
            let next = match stack.pop() {
                Some(next) => next,
                None => {
                    proof {
                        assert(stacked =~= Seq::<Seq<u8>>::empty());
                        lemma_walk_sound(items, avoid, from, seen, stacked);
                        lemma_walk_ends(items, avoid, from, seen);
                    }
                    return Ok(());
                },
            };
            assert(stack.deep_view() =~= stacked.drop_last());
            assert(next@ == stacked.last());
            if self.contains(&next) {
                proof {
                    lemma_walk_passes(items, avoid, from, seen, stacked);
                }
                continue;
            }
            let references = match runtime_references(store, &next) {
                Ok(references) => references,
                Err(fault) => {
                    proof {
                        lemma_walk_sound(items, avoid, from, seen, stacked);
                        lemma_walk_reaches(items, avoid, from, seen, stacked);
                    }
                    return Err(fault);
                },
            };
            proof {
                lemma_walk_visits(items, avoid, from, seen, stacked, references.deep_view());
                if items.contains_key(next@) {
                    unvisited = unvisited.remove(next@);
                } else {
                    assert(references.deep_view().len() == 0);
                }
            }
            self.insert(next);
            push_reversed(&mut stack, &references);
        }
    }
}

} // verus!
