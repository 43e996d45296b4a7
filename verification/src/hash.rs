//! The fixed-width identity of a store item.

use vstd::prelude::*;
use vstd::std_specs::cmp::PartialEqSpecImpl;
use vstd::string::*;
use vstd::utf8::*;

use crate::text::decode_strict;

verus! {

/// Number of leading bytes of a store item's name that identify it.
pub const NIX_HASH_LENGTH: usize = 32;

/// The byte that separates the components of a path.
pub const PATH_SEPARATOR: u8 = 47;

/// The identity of a store item: the first 32 bytes of its name.
///
/// The bytes are kept as they stand in the name, so nothing depends on the
/// alphabet the store uses to write its hashes.
#[derive(Debug, Clone, Copy, Hash)]
pub struct StoreHash([u8; 32]);

impl View for StoreHash {
    type V = Seq<u8>;

    closed spec fn view(&self) -> Seq<u8> {
        self.0@
    }
}

impl DeepView for StoreHash {
    type V = Seq<u8>;

    open spec fn deep_view(&self) -> Seq<u8> {
        self@
    }
}

/// Where a path ends when the separators at its end are left out.
pub open spec fn path_end(path: Seq<u8>) -> int
    decreases path.len(),
{
    if path.len() == 0 || path.last() != PATH_SEPARATOR {
        path.len() as int
    } else {
        path_end(path.drop_last())
    }
}

/// Where the last component of a path begins that does not end in a
/// separator: just behind its last separator, or at 0 when it has none.
pub open spec fn file_name_start(path: Seq<u8>) -> int
    decreases path.len(),
{
    if path.len() == 0 {
        0
    } else if path.last() == PATH_SEPARATOR {
        path.len() as int
    } else {
        file_name_start(path.drop_last())
    }
}

/// The last component of a path: what stands between its last separator
/// and its end, the separators at its end left out.
pub open spec fn file_name(path: Seq<u8>) -> Seq<u8> {
    let whole = path.subrange(0, path_end(path));
    whole.subrange(file_name_start(whole), whole.len() as int)
}

/// Whether a name is long enough to begin with a hash.
pub open spec fn has_hash(name: Seq<u8>) -> bool {
    name.len() >= NIX_HASH_LENGTH
}

/// The hash a name begins with.
pub open spec fn hash_of_name(name: Seq<u8>) -> Seq<u8>
    recommends
        has_hash(name),
{
    name.subrange(0, NIX_HASH_LENGTH as int)
}

/// Whether a name can be cut into a hash, one separating character of one
/// byte, and a rest: it has more than 32 bytes, and a character begins at
/// byte 32 and ends at byte 33.
pub open spec fn has_hash_and_label(name: Seq<u8>) -> bool {
    &&& name.len() > NIX_HASH_LENGTH
    &&& !is_continuation_byte(name[NIX_HASH_LENGTH as int])
    &&& (name.len() > NIX_HASH_LENGTH + 1 ==> !is_continuation_byte(
        name[NIX_HASH_LENGTH + 1],
    ))
}

/// What follows the hash and its separator in a name.
pub open spec fn label_of_name(name: Seq<u8>) -> Seq<u8>
    recommends
        has_hash_and_label(name),
{
    name.subrange(NIX_HASH_LENGTH + 1, name.len() as int)
}

/// The hash of the store item a path leads to.
pub open spec fn hash_of_path(path: Seq<char>) -> Seq<u8> {
    hash_of_name(file_name(encode_utf8(path)))
}

/// Whether a path ends in a name that begins with a hash.
pub open spec fn path_has_hash(path: Seq<char>) -> bool {
    has_hash(file_name(encode_utf8(path)))
}

/// Whether a path ends in a name that can be cut into hash and label.
pub open spec fn path_has_hash_and_label(path: Seq<char>) -> bool {
    has_hash_and_label(file_name(encode_utf8(path)))
}

/// The label of the store item a path leads to.
pub open spec fn label_of_path(path: Seq<char>) -> Seq<char> {
    decode_utf8(label_of_name(file_name(encode_utf8(path))))
}

/// The scan for the last separator may stop at any point behind which no
/// separator stands.
proof fn lemma_file_name_start_skip(path: Seq<u8>, from: int)
    requires
        0 <= from <= path.len(),
        forall|k: int| from <= k < path.len() ==> path[k] != PATH_SEPARATOR,
    ensures
        file_name_start(path) == file_name_start(path.subrange(0, from)),
    decreases path.len() - from,
{
    if from == path.len() {
        assert(path.subrange(0, from) =~= path);
    } else {
        let shorter = path.drop_last();
        lemma_file_name_start_skip(shorter, from);
        assert(shorter.subrange(0, from) =~= path.subrange(0, from));
    }
}

/// The scan for the end of a path may stop at any point behind which only
/// separators stand.
proof fn lemma_path_end_skip(path: Seq<u8>, from: int)
    requires
        0 <= from <= path.len(),
        forall|k: int| from <= k < path.len() ==> path[k] == PATH_SEPARATOR,
    ensures
        path_end(path) == path_end(path.subrange(0, from)),
    decreases path.len() - from,
{
    if from == path.len() {
        assert(path.subrange(0, from) =~= path);
    } else {
        let shorter = path.drop_last();
        lemma_path_end_skip(shorter, from);
        assert(shorter.subrange(0, from) =~= path.subrange(0, from));
    }
}

/// A text can be cut before a separator, and at its end.
proof fn lemma_cut_before_separator(bytes: Seq<u8>, at: int)
    requires
        valid_utf8(bytes),
        0 <= at <= bytes.len(),
        at < bytes.len() ==> bytes[at] == PATH_SEPARATOR,
    ensures
        is_char_boundary(bytes, at),
{
    broadcast use group_utf8_lib;

    if at < bytes.len() {
        assert(!is_continuation_byte(bytes[at]));
    }
}

/// A text can be cut where no byte from within a character stands, and
/// at its end.
proof fn lemma_cut_before_character(bytes: Seq<u8>, at: int)
    requires
        valid_utf8(bytes),
        0 <= at <= bytes.len(),
        at < bytes.len() ==> !is_continuation_byte(bytes[at]),
    ensures
        is_char_boundary(bytes, at),
{
    broadcast use group_utf8_lib;

}

/// Where a text can be cut, no byte from within a character stands.
proof fn lemma_cut_is_before_character(bytes: Seq<u8>, at: int)
    requires
        valid_utf8(bytes),
        0 <= at < bytes.len(),
    ensures
        is_char_boundary(bytes, at) <==> !is_continuation_byte(bytes[at]),
{
    broadcast use group_utf8_lib;

}

/// Finds where the last component of a path begins and ends.
fn find_file_name(path: &[u8]) -> (found: (usize, usize))
    ensures
        found.0 <= found.1 <= path.len(),
        found.1 == path_end(path@),
        found.1 < path.len() ==> path@[found.1 as int] == PATH_SEPARATOR,
        file_name(path@) == path@.subrange(found.0 as int, found.1 as int),
{
    let mut end: usize = path.len();
    while end > 0 && path[end - 1] == PATH_SEPARATOR
        invariant
            end <= path.len(),
            forall|k: int| end <= k < path.len() ==> path@[k] == PATH_SEPARATOR,
        decreases end,
    {
        end -= 1;
    }
    let ghost whole = path@.subrange(0, end as int);
    proof {
        lemma_path_end_skip(path@, end as int);
        assert(path_end(whole) == end) by {
            if end > 0 {
                assert(whole.last() == path@[end - 1]);
            }
        }
    }
    let mut at: usize = end;
    while at > 0 && path[at - 1] != PATH_SEPARATOR
        invariant
            at <= end <= path.len(),
            whole == path@.subrange(0, end as int),
            forall|k: int| at <= k < end ==> whole[k] != PATH_SEPARATOR,
        decreases at,
    {
        at -= 1;
    }
    proof {
        lemma_file_name_start_skip(whole, at as int);
        let head = whole.subrange(0, at as int);
        assert(file_name_start(head) == at) by {
            if at > 0 {
                assert(head.last() == path@[at - 1]);
            }
        }
        assert(whole.subrange(at as int, whole.len() as int) =~= path@.subrange(
            at as int,
            end as int,
        ));
    }
    (at, end)
}

/// Copies the 32 bytes that begin at `start`.
fn hash_at(bytes: &[u8], start: usize) -> (hash: StoreHash)
    requires
        start + NIX_HASH_LENGTH <= bytes.len(),
    ensures
        hash@ == bytes@.subrange(start as int, start + NIX_HASH_LENGTH),
{
    let mut copy = [0u8; 32];
    let mut i: usize = 0;
    while i < NIX_HASH_LENGTH
        invariant
            i <= NIX_HASH_LENGTH,
            start + NIX_HASH_LENGTH <= bytes.len(),
            forall|k: int| 0 <= k < i ==> copy@[k] == bytes@[start + k],
        decreases NIX_HASH_LENGTH - i,
    {
        copy[i] = bytes[start + i];
        i += 1;
    }
    let hash = StoreHash(copy);
    assert(hash@ =~= bytes@.subrange(start as int, start + NIX_HASH_LENGTH));
    hash
}

impl StoreHash {
    /// Every hash has 32 bytes.
    pub broadcast proof fn lemma_len(self)
        ensures
            #[trigger] self@.len() == NIX_HASH_LENGTH,
    {
    }

    /// Two hashes of the same bytes are the same hash.
    pub proof fn lemma_same_bytes(self, other: StoreHash)
        requires
            self@ == other@,
        ensures
            self == other,
    {
        assert(self.0 =~= other.0);
    }

    /// Whether `name` is long enough to begin with a hash.
    pub fn is_name(name: &str) -> (ok: bool)
        ensures
            ok == has_hash(name.spec_bytes()),
    {
        name.as_bytes().len() >= NIX_HASH_LENGTH
    }

    /// Whether `path` ends in a name that begins with a hash.
    pub fn is_path(path: &str) -> (ok: bool)
        ensures
            ok == path_has_hash(path@),
    {
        let bytes = path.as_bytes();
        let (start, end) = find_file_name(bytes);
        end - start >= NIX_HASH_LENGTH
    }

    /// Whether `name` can be cut into hash and label.
    pub fn is_labelled_name(name: &str) -> (ok: bool)
        ensures
            ok == has_hash_and_label(name.spec_bytes()),
    {
        let bytes = name.as_bytes();
        proof {
            broadcast use group_utf8_lib;

        }
        bytes.len() > NIX_HASH_LENGTH && name.is_char_boundary(NIX_HASH_LENGTH)
            && name.is_char_boundary(NIX_HASH_LENGTH + 1)
    }

    /// Whether `path` ends in a name that can be cut into hash and label.
    pub fn is_labelled_path(path: &str) -> (ok: bool)
        ensures
            ok == path_has_hash_and_label(path@),
    {
        let bytes = path.as_bytes();
        let (start, end) = find_file_name(bytes);
        proof {
            let name = file_name(bytes@);
            encode_utf8_valid_utf8(path@);
            if end - start > NIX_HASH_LENGTH {
                assert(name[NIX_HASH_LENGTH as int] == bytes@[start + NIX_HASH_LENGTH]);
                lemma_cut_is_before_character(bytes@, start + NIX_HASH_LENGTH);
                if start + NIX_HASH_LENGTH + 1 < end {
                    assert(name[NIX_HASH_LENGTH + 1] == bytes@[start + NIX_HASH_LENGTH + 1]);
                    lemma_cut_is_before_character(bytes@, start + NIX_HASH_LENGTH + 1);
                } else {
                    lemma_cut_before_separator(bytes@, end as int);
                }
            }
        }
        end - start > NIX_HASH_LENGTH && path.is_char_boundary(start + NIX_HASH_LENGTH)
            && path.is_char_boundary(start + NIX_HASH_LENGTH + 1)
    }

    /// The hash that `name` begins with,
    /// e.g. rgmc4d3spji36n2l1sicm80yq79dpcc2-hello-2.10
    pub fn from_name(name: &str) -> (hash: StoreHash)
        requires
            has_hash(name.spec_bytes()),
        ensures
            hash@ == hash_of_name(name.spec_bytes()),
    {
        hash_at(name.as_bytes(), 0)
    }

    /// The hash of the item that `path` leads to,
    /// e.g. /nix/store/rgmc4d3spji36n2l1sicm80yq79dpcc2-hello-2.10
    ///
    /// The components of a path are what `/` separates, and separators at
    /// its end are passed over.
    pub fn from_path(path: &str) -> (hash: StoreHash)
        requires
            path_has_hash(path@),
        ensures
            hash@ == hash_of_path(path@),
    {
        let bytes = path.as_bytes();
        let (start, end) = find_file_name(bytes);
        let hash = hash_at(bytes, start);
        assert(hash@ =~= hash_of_path(path@));
        hash
    }

    /// Cuts a name into its hash and its label, dropping the one-byte
    /// character between them.
    pub fn split(name: &str) -> (parts: (StoreHash, &str))
        requires
            has_hash_and_label(name.spec_bytes()),
        ensures
            parts.0@ == hash_of_name(name.spec_bytes()),
            parts.1.spec_bytes() == label_of_name(name.spec_bytes()),
            parts.1@ == decode_utf8(label_of_name(name.spec_bytes())),
    {
        let hash = hash_at(name.as_bytes(), 0);
        proof {
            broadcast use group_utf8_lib;

        }
        let (_, label) = name.split_at(NIX_HASH_LENGTH + 1);
        (hash, label)
    }

    /// Cuts the name that `path` ends in into its hash and its label.
    pub fn split_path(path: &str) -> (parts: (StoreHash, String))
        requires
            path_has_hash_and_label(path@),
        ensures
            parts.0@ == hash_of_path(path@),
            parts.1@ == label_of_path(path@),
    {
        let bytes = path.as_bytes();
        let (start, end) = find_file_name(bytes);
        let hash = hash_at(bytes, start);
        proof {
            encode_utf8_valid_utf8(path@);
            lemma_cut_before_separator(bytes@, end as int);
        }
        let (whole, _) = path.split_at(end);
        proof {
            let name = file_name(bytes@);
            encode_utf8_valid_utf8(whole@);
            if start + NIX_HASH_LENGTH + 1 < end {
                assert(name[NIX_HASH_LENGTH + 1] == whole.spec_bytes()[start + NIX_HASH_LENGTH + 1]);
            }
            lemma_cut_before_character(whole.spec_bytes(), start + NIX_HASH_LENGTH + 1);
        }
        let (_, label) = whole.split_at(start + NIX_HASH_LENGTH + 1);
        assert(hash@ =~= hash_of_path(path@));
        assert(label.spec_bytes() =~= label_of_name(file_name(encode_utf8(path@))));
        proof {
            encode_utf8_decode_utf8(label@);
        }
        (hash, label.to_owned())
    }

    /// The bytes of the hash.
    pub fn as_bytes(&self) -> (bytes: &[u8])
        ensures
            bytes@ == self@,
    {
        self.0.as_slice()
    }

    /// The hash as text, where its bytes are well-formed UTF-8.
    pub fn as_text(&self) -> (text: Option<&str>)
        ensures
            text is Some <==> valid_utf8(self@),
            text is Some ==> text->0@ == decode_utf8(self@),
    {
        let text = decode_strict(self.0.as_slice());
        proof {
            broadcast use group_utf8_lib;

        }
        text
    }

    /// The hash as text.
    pub fn to_str(&self) -> (text: &str)
        requires
            valid_utf8(self@),
        ensures
            text@ == decode_utf8(self@),
    {
        match self.as_text() {
            Some(text) => text,
            None => "",
        }
    }
}

impl PartialEq for StoreHash {
    fn eq(&self, other: &Self) -> (same: bool) {
        let mut i: usize = 0;
        while i < NIX_HASH_LENGTH
            invariant
                i <= NIX_HASH_LENGTH,
                forall|k: int| 0 <= k < i ==> self@[k] == other@[k],
            decreases NIX_HASH_LENGTH - i,
        {
            if self.0[i] != other.0[i] {
                return false;
            }
            i += 1;
        }
        assert(self@ =~= other@);
        true
    }
}

impl PartialEqSpecImpl for StoreHash {
    open spec fn obeys_eq_spec() -> bool {
        true
    }

    open spec fn eq_spec(&self, other: &Self) -> bool {
        self@ == other@
    }
}

impl Eq for StoreHash {

}

} // verus!
