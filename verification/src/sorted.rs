//! The order of texts, and lists of texts kept in it.
//!
//! Texts are ordered as their UTF-8 encodings are, byte by byte: the first
//! byte that differs decides, and a text comes before the texts it begins.

use vstd::prelude::*;
use vstd::string::*;
use vstd::utf8::*;

use crate::text::lemma_same_encoding;

verus! {

/// Whether `a` and `b` agree in their first `k` bytes, and `a` ends there
/// while `b` goes on, or has the smaller byte there.
pub open spec fn decides_at(a: Seq<u8>, b: Seq<u8>, k: int) -> bool {
    &&& 0 <= k <= a.len()
    &&& k < b.len()
    &&& forall|j: int| 0 <= j < k ==> a[j] == b[j]
    &&& k < a.len() ==> a[k] < b[k]
}

/// Whether the byte string `a` comes before `b`.
pub open spec fn bytes_before(a: Seq<u8>, b: Seq<u8>) -> bool {
    exists|k: int| #[trigger] decides_at(a, b, k)
}

/// Whether the text `a` comes before `b`.
pub open spec fn before(a: Seq<char>, b: Seq<char>) -> bool {
    bytes_before(encode_utf8(a), encode_utf8(b))
}

/// Whether the texts stand in order, each before all that follow it.
pub open spec fn in_order(texts: Seq<Seq<char>>) -> bool {
    forall|i: int, j: int| 0 <= i < j < texts.len() ==> before(#[trigger] texts[i], #[trigger] texts[j])
}

/// How two texts stand to each other.
#[derive(Debug, Clone, Copy, PartialEq, Eq)]
pub enum Place {
    Before,
    Same,
    After,
}

/// No text comes before itself.
pub proof fn lemma_before_irreflexive(a: Seq<char>)
    ensures
        !before(a, a),
{
    let bytes = encode_utf8(a);
    assert forall|k: int| !#[trigger] decides_at(bytes, bytes, k) by {}
}

/// What comes before a text comes before what the text comes before.
pub proof fn lemma_before_transitive(a: Seq<char>, b: Seq<char>, c: Seq<char>)
    requires
        before(a, b),
        before(b, c),
    ensures
        before(a, c),
{
    let x = encode_utf8(a);
    let y = encode_utf8(b);
    let z = encode_utf8(c);
    let k1 = choose|k: int| #[trigger] decides_at(x, y, k);
    let k2 = choose|k: int| #[trigger] decides_at(y, z, k);
    if k1 <= k2 {
        assert(decides_at(x, z, k1));
    } else {
        assert(decides_at(x, z, k2));
    }
}

/// Texts in order hold no text twice.
pub proof fn lemma_in_order_distinct(texts: Seq<Seq<char>>)
    requires
        in_order(texts),
    ensures
        texts.no_duplicates(),
{
    assert forall|i: int, j: int| 0 <= i < texts.len() && 0 <= j < texts.len() && i
        != j implies texts[i] != texts[j] by {
        lemma_before_irreflexive(texts[i]);
        if i < j {
            assert(before(texts[i], texts[j]));
        } else {
            assert(before(texts[j], texts[i]));
        }
    }
}

/// Says how `a` stands to `b`.
pub fn place(a: &str, b: &str) -> (place: Place)
    ensures
        match place {
            Place::Before => before(a@, b@),
            Place::Same => a@ == b@,
            Place::After => before(b@, a@),
        },
{
    let x = a.as_bytes();
    let y = b.as_bytes();
    let mut i: usize = 0;
    while i < x.len() && i < y.len()
        invariant
            i <= x.len(),
            i <= y.len(),
            x@ == encode_utf8(a@),
            y@ == encode_utf8(b@),
            forall|j: int| 0 <= j < i ==> x@[j] == y@[j],
        decreases x.len() - i,
    {
        if x[i] < y[i] {
            assert(decides_at(x@, y@, i as int));
            return Place::Before;
        }
        if x[i] > y[i] {
            assert(decides_at(y@, x@, i as int));
            return Place::After;
        }
        i += 1;
    }
    if x.len() < y.len() {
        assert(decides_at(x@, y@, i as int));
        Place::Before
    } else if y.len() < x.len() {
        assert(decides_at(y@, x@, i as int));
        Place::After
    } else {
        assert(x@ =~= y@);
        proof {
            lemma_same_encoding(a@, b@);
        }
        Place::Same
    }
}

/// Puts `text` into a list that is in order, at its place, unless the
/// list holds it already.
pub fn insert_in_order(texts: &mut Vec<String>, text: String)
    requires
        in_order(old(texts).deep_view()),
    ensures
        in_order(final(texts).deep_view()),
        forall|other: Seq<char>|
            final(texts).deep_view().contains(other) <==> old(texts).deep_view().contains(other)
                || other == text@,
{
    let ghost before_all = texts.deep_view();
    let mut at: usize = 0;
    while at < texts.len()
        invariant
            at <= texts.len(),
            texts.deep_view() == before_all,
            in_order(before_all),
            forall|k: int| 0 <= k < at ==> before(#[trigger] before_all[k], text@),
        ensures
            at < texts.len() ==> before(text@, before_all[at as int]),
        decreases texts.len() - at,
    {
        assert(before_all[at as int] == texts@[at as int]@);
        match place(texts[at].as_str(), text.as_str()) {
            Place::Before => {
                at += 1;
            },
            Place::Same => {
                assert(before_all.contains(text@));
                return;
            },
            Place::After => {
                break;
            },
        }
    }
    proof {
        assert(at < texts.len() ==> before(text@, before_all[at as int]));
        lemma_before_irreflexive(text@);
        assert forall|k: int| at <= k < before_all.len() implies before(
            text@,
            #[trigger] before_all[k],
        ) by {
            if k > at {
                assert(before(before_all[at as int], before_all[k]));
                lemma_before_transitive(text@, before_all[at as int], before_all[k]);
            }
        }
    }
    texts.insert(at, text);
    proof {
        let after = texts.deep_view();
        assert(after =~= before_all.insert(at as int, text@));
        assert forall|i: int, j: int| 0 <= i < j < after.len() implies before(
            #[trigger] after[i],
            #[trigger] after[j],
        ) by {
            if j < at {
                assert(before(before_all[i], before_all[j]));
            } else if j == at {
                assert(before(before_all[i], text@));
            } else if i < at {
                assert(before(before_all[i], before_all[j - 1]));
            } else if i == at {
                assert(before(text@, before_all[j - 1]));
            } else {
                assert(before(before_all[i - 1], before_all[j - 1]));
            }
        }
        assert forall|other: Seq<char>|
            after.contains(other) <==> before_all.contains(other) || other == text@ by {
            if before_all.contains(other) {
                let k = choose|k: int| 0 <= k < before_all.len() && before_all[k] == other;
                if k < at {
                    assert(after[k] == other);
                } else {
                    assert(after[k + 1] == other);
                }
            }
            if other == text@ {
                assert(after[at as int] == other);
            }
            if after.contains(other) {
                let k = choose|k: int| 0 <= k < after.len() && after[k] == other;
                if k < at {
                    assert(before_all[k] == other);
                } else if k > at {
                    assert(before_all[k - 1] == other);
                }
            }
        }
    }
}

} // verus!
