//! Reading fixed bytes off an input.

use vstd::prelude::*;
use vstd::string::*;

verus! {

/// Whether the byte `byte` stands at `at`.
pub open spec fn byte_at(input: Seq<u8>, at: int, byte: u8) -> bool {
    0 <= at < input.len() && input[at] == byte
}

/// Whether the bytes `tag` stand at `at`.
pub open spec fn tag_at(input: Seq<u8>, at: int, tag: Seq<u8>) -> bool {
    &&& 0 <= at
    &&& at + tag.len() <= input.len()
    &&& input.subrange(at, at + tag.len()) == tag
}

/// A partial result joined behind what was read before it.
pub open spec fn after<T>(done: Seq<T>, more: Option<(Seq<T>, int)>) -> Option<(Seq<T>, int)> {
    match more {
        Some((rest, end)) => Some((done + rest, end)),
        None => None,
    }
}

/// A partial result with one more item before it.
pub open spec fn cons<T>(head: T, more: Option<(Seq<T>, int)>) -> Option<(Seq<T>, int)> {
    match more {
        Some((rest, end)) => Some((seq![head] + rest, end)),
        None => None,
    }
}

/// Reading an item and then the rest is the same as having read the item
/// and reading the rest.
pub proof fn lemma_after_cons<T>(done: Seq<T>, head: T, more: Option<(Seq<T>, int)>)
    ensures
        after(done, cons(head, more)) == after(done.push(head), more),
{
    match more {
        Some((rest, end)) => {
            assert(done + (seq![head] + rest) =~= done.push(head) + rest);
        },
        None => {},
    }
}

/// Nothing read yet changes nothing.
pub proof fn lemma_after_nothing<T>(more: Option<(Seq<T>, int)>)
    ensures
        after(Seq::<T>::empty(), more) == more,
{
    match more {
        Some((rest, end)) => {
            assert(Seq::<T>::empty() + rest =~= rest);
        },
        None => {},
    }
}

/// Whether `byte` stands at `at`.
pub fn has_byte(input: &[u8], at: usize, byte: u8) -> (found: bool)
    ensures
        found == byte_at(input@, at as int, byte),
        found ==> at < input.len(),
{
    at < input.len() && input[at] == byte
}

/// Whether the bytes of `tag` stand at `at`.
pub fn has_tag(input: &[u8], at: usize, tag: &str) -> (found: bool)
    ensures
        found == tag_at(input@, at as int, tag.spec_bytes()),
        found ==> at + tag.spec_bytes().len() <= input.len(),
{
    let wanted = tag.as_bytes();
    if at > input.len() || input.len() - at < wanted.len() {
        return false;
    }
    let mut i: usize = 0;
    while i < wanted.len()
        invariant
            i <= wanted.len(),
            wanted@ == tag.spec_bytes(),
            at + wanted.len() <= input.len(),
            forall|k: int| 0 <= k < i ==> input@[at + k] == wanted@[k],
        decreases wanted.len() - i,
    {
        if input[at + i] != wanted[i] {
            assert(input@.subrange(at as int, at + wanted.len())[i as int] != wanted@[i as int]);
            return false;
        }
        i += 1;
    }
    assert(input@.subrange(at as int, at + wanted.len()) =~= wanted@);
    true
}

} // verus!
