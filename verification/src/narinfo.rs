//! The records in which a binary cache describes a store item.
//!
//! A record is a run of lines, each a key, a colon, a blank and a value,
//! in this order: `StorePath`, `URL`, `Compression`, `FileHash`, `FileSize`,
//! `NarHash`, `NarSize`, `References`, then `Deriver`, which may be left
//! out, and `Sig`.

use vstd::prelude::*;
use vstd::slice::slice_subrange;
use vstd::string::*;

use crate::derivation::clone_strings;
use crate::scan::{has_tag, tag_at};
use crate::text::{decode, same_bytes, split_words, text_of, words_of};

verus! {

pub const LINE_FEED: u8 = 10;

pub const PLUS: u8 = 43;

/// What a binary cache says of one store item.
#[derive(Debug)]
pub struct NarInfo {
    pub store_path: String,
    pub url: String,
    pub compression: String,
    pub file_hash: String,
    pub file_size: u64,
    pub nar_hash: String,
    pub nar_size: u64,
    pub references: Vec<String>,
    pub deriver: Option<String>,
    pub sig: String,
}

/// What a [`NarInfo`] holds.
pub struct NarInfoView {
    pub store_path: Seq<char>,
    pub url: Seq<char>,
    pub compression: Seq<char>,
    pub file_hash: Seq<char>,
    pub file_size: u64,
    pub nar_hash: Seq<char>,
    pub nar_size: u64,
    pub references: Seq<Seq<char>>,
    pub deriver: Option<Seq<char>>,
    pub sig: Seq<char>,
}

impl DeepView for NarInfo {
    type V = NarInfoView;

    open spec fn deep_view(&self) -> NarInfoView {
        NarInfoView {
            store_path: self.store_path@,
            url: self.url@,
            compression: self.compression@,
            file_hash: self.file_hash@,
            file_size: self.file_size,
            nar_hash: self.nar_hash@,
            nar_size: self.nar_size,
            references: self.references.deep_view(),
            deriver: match self.deriver {
                Some(deriver) => Some(deriver@),
                None => None,
            },
            sig: self.sig@,
        }
    }
}

impl View for NarInfo {
    type V = NarInfoView;

    open spec fn view(&self) -> NarInfoView {
        self.deep_view()
    }
}

impl Clone for NarInfo {
    fn clone(&self) -> (copy: Self)
        ensures
            copy@ == self@,
    {
        NarInfo {
            store_path: self.store_path.clone(),
            url: self.url.clone(),
            compression: self.compression.clone(),
            file_hash: self.file_hash.clone(),
            file_size: self.file_size,
            nar_hash: self.nar_hash.clone(),
            nar_size: self.nar_size,
            references: clone_strings(&self.references),
            deriver: match &self.deriver {
                Some(deriver) => Some(deriver.clone()),
                None => None,
            },
            sig: self.sig.clone(),
        }
    }
}

/// The body is no record of a store item.
#[derive(Debug, Clone, Copy, PartialEq, Eq)]
pub struct MalformedMetadata;

/// The position of the first line feed at or behind `at`.
pub open spec fn line_end(input: Seq<u8>, at: int) -> Option<int>
    decreases input.len() - at,
{
    if at < 0 || at >= input.len() {
        None
    } else if input[at] == LINE_FEED {
        Some(at)
    } else {
        line_end(input, at + 1)
    }
}

/// The value that begins at `at`, and the position behind its line: the
/// bytes up to the next line feed or, where the line feed comes at once,
/// that line feed itself.
pub open spec fn data_at(input: Seq<u8>, at: int) -> Option<(Seq<u8>, int)> {
    match line_end(input, at) {
        Some(end) => Some(
            (
                if end == at {
                    input.subrange(at, at + 1)
                } else {
                    input.subrange(at, end)
                },
                end + 1,
            ),
        ),
        None => None,
    }
}

/// Whether a byte is a decimal digit.
pub open spec fn is_digit(byte: u8) -> bool {
    48 <= byte <= 57
}

/// The number that a run of decimal digits writes; the empty run writes 0.
pub open spec fn digits_value(digits: Seq<u8>) -> Option<nat>
    decreases digits.len(),
{
    if digits.len() == 0 {
        Some(0nat)
    } else if !is_digit(digits.last()) {
        None
    } else {
        match digits_value(digits.drop_last()) {
            Some(value) => Some((value * 10 + (digits.last() - 48)) as nat),
            None => None,
        }
    }
}

/// The number that a text writes: decimal digits, at least one, with or
/// without a plus sign before them, and no more than 64 bits can hold.
pub open spec fn number_of(text: Seq<u8>) -> Option<u64> {
    let digits = if text.len() > 0 && text[0] == PLUS {
        text.drop_first()
    } else {
        text
    };
    if digits.len() == 0 {
        None
    } else {
        match digits_value(digits) {
            Some(value) => if value <= u64::MAX {
                Some(value as u64)
            } else {
                None
            },
            None => None,
        }
    }
}

/// A text value at `at`.
pub open spec fn string_at(input: Seq<u8>, at: int) -> Option<(Seq<char>, int)> {
    match data_at(input, at) {
        Some((value, next)) => Some((text_of(value), next)),
        None => None,
    }
}

/// A list of words at `at`.
pub open spec fn string_list_at(input: Seq<u8>, at: int) -> Option<(Seq<Seq<char>>, int)> {
    match data_at(input, at) {
        Some((value, next)) => Some((words_of(text_of(value)), next)),
        None => None,
    }
}

/// A number at `at`.
pub open spec fn size_at(input: Seq<u8>, at: int) -> Option<(u64, int)> {
    match data_at(input, at) {
        Some((value, next)) => match number_of(value) {
            Some(number) => Some((number, next)),
            None => None,
        },
        None => None,
    }
}

/// The key `key` at `at`, and a text value behind it.
pub open spec fn keyed_string_at(input: Seq<u8>, at: int, key: Seq<u8>) -> Option<
    (Seq<char>, int),
> {
    if tag_at(input, at, key) {
        string_at(input, at + key.len())
    } else {
        None
    }
}

/// The key `key` at `at`, and a number behind it.
pub open spec fn keyed_size_at(input: Seq<u8>, at: int, key: Seq<u8>) -> Option<(u64, int)> {
    if tag_at(input, at, key) {
        size_at(input, at + key.len())
    } else {
        None
    }
}

/// The key `key` at `at`, and a list of words behind it.
pub open spec fn keyed_string_list_at(input: Seq<u8>, at: int, key: Seq<u8>) -> Option<
    (Seq<Seq<char>>, int),
> {
    if tag_at(input, at, key) {
        string_list_at(input, at + key.len())
    } else {
        None
    }
}

/// The `Deriver` line at `at`, where there is one.
pub open spec fn deriver_at(input: Seq<u8>, at: int) -> Option<(Option<Seq<char>>, int)> {
    if tag_at(input, at, "Deriver: ".spec_bytes()) {
        match string_at(input, at + "Deriver: ".spec_bytes().len()) {
            Some((deriver, next)) => Some((Some(deriver), next)),
            None => None,
        }
    } else {
        Some((None, at))
    }
}

/// A record at `at`, and the position behind it.
pub open spec fn narinfo_at(input: Seq<u8>, at: int) -> Option<(NarInfoView, int)> {
    match keyed_string_at(input, at, "StorePath: ".spec_bytes()) {
        Some((store_path, at1)) => match keyed_string_at(input, at1, "URL: ".spec_bytes()) {
            Some((url, at2)) => match keyed_string_at(input, at2, "Compression: ".spec_bytes()) {
                Some((compression, at3)) => match keyed_string_at(
                    input,
                    at3,
                    "FileHash: ".spec_bytes(),
                ) {
                    Some((file_hash, at4)) => match keyed_size_at(
                        input,
                        at4,
                        "FileSize: ".spec_bytes(),
                    ) {
                        Some((file_size, at5)) => match keyed_string_at(
                            input,
                            at5,
                            "NarHash: ".spec_bytes(),
                        ) {
                            Some((nar_hash, at6)) => match keyed_size_at(
                                input,
                                at6,
                                "NarSize: ".spec_bytes(),
                            ) {
                                Some((nar_size, at7)) => match keyed_string_list_at(
                                    input,
                                    at7,
                                    "References: ".spec_bytes(),
                                ) {
                                    Some((references, at8)) => match deriver_at(input, at8) {
                                        Some((deriver, at9)) => match keyed_string_at(
                                            input,
                                            at9,
                                            "Sig: ".spec_bytes(),
                                        ) {
                                            Some((sig, at10)) => Some(
                                                (
                                                    NarInfoView {
                                                        store_path,
                                                        url,
                                                        compression,
                                                        file_hash,
                                                        file_size,
                                                        nar_hash,
                                                        nar_size,
                                                        references,
                                                        deriver,
                                                        sig,
                                                    },
                                                    at10,
                                                ),
                                            ),
                                            None => None,
                                        },
                                        None => None,
                                    },
                                    None => None,
                                },
                                None => None,
                            },
                            None => None,
                        },
                        None => None,
                    },
                    None => None,
                },
                None => None,
            },
            None => None,
        },
        None => None,
    }
}

/// The body by which a cache says that it does not have an item.
pub open spec fn absent_body() -> Seq<u8> {
    "404".spec_bytes()
}

/// What a response body says: `Ok(None)` where it is the three bytes `404`,
/// the record it begins with where it begins with one, and an error
/// otherwise.
pub open spec fn narinfo_of(body: Seq<u8>) -> Result<Option<NarInfoView>, MalformedMetadata> {
    if body == absent_body() {
        Ok(None)
    } else {
        match narinfo_at(body, 0) {
            Some((info, _)) => Ok(Some(info)),
            None => Err(MalformedMetadata),
        }
    }
}

/// A run of bytes without a line feed, with a line feed behind it, is a
/// line.
proof fn lemma_line_end_found(input: Seq<u8>, at: int, end: int)
    requires
        0 <= at <= end < input.len(),
        input[end] == LINE_FEED,
        forall|k: int| at <= k < end ==> input[k] != LINE_FEED,
    ensures
        line_end(input, at) == Some(end),
    decreases end - at,
{
    if at < end {
        lemma_line_end_found(input, at + 1, end);
    }
}

/// Without a line feed from `at` on there is no line.
proof fn lemma_line_end_missing(input: Seq<u8>, at: int)
    requires
        0 <= at,
        forall|k: int| at <= k < input.len() ==> input[k] != LINE_FEED,
    ensures
        line_end(input, at) is None,
    decreases input.len() - at,
{
    if at < input.len() {
        lemma_line_end_missing(input, at + 1);
    }
}

/// Reads the value at `at`: where it begins, where it ends, and where the
/// next line begins.
fn read_data(input: &[u8], at: usize) -> (read: Option<(usize, usize, usize)>)
    ensures
        match read {
            Some((from, to, next)) => data_at(input@, at as int) == Some(
                (input@.subrange(from as int, to as int), next as int),
            ) && from == at && at < to <= next <= input.len() && at < next,
            None => data_at(input@, at as int) is None,
        },
{
    let mut pos: usize = at;
    while pos < input.len() && input[pos] != LINE_FEED
        invariant
            at <= pos,
            forall|k: int| at <= k < pos && k < input.len() ==> input@[k] != LINE_FEED,
        decreases input.len() - pos,
    {
        pos += 1;
    }
    if pos >= input.len() {
        proof {
            lemma_line_end_missing(input@, at as int);
        }
        return None;
    }
    proof {
        lemma_line_end_found(input@, at as int, pos as int);
    }
    if pos == at {
        Some((at, at + 1, pos + 1))
    } else {
        Some((at, pos, pos + 1))
    }
}

/// The value of a longer run of digits is no less than that of its
/// beginning, and a run that begins with no number is no number.
proof fn lemma_digits_prefix(digits: Seq<u8>, len: int)
    requires
        0 <= len <= digits.len(),
    ensures
        digits_value(digits.subrange(0, len)) is None ==> digits_value(digits) is None,
        digits_value(digits) matches Some(whole) ==> digits_value(
            digits.subrange(0, len),
        ) matches Some(part) && part <= whole,
    decreases digits.len() - len,
{
    if len == digits.len() {
        assert(digits.subrange(0, len) =~= digits);
    } else {
        let shorter = digits.drop_last();
        lemma_digits_prefix(shorter, len);
        assert(shorter.subrange(0, len) =~= digits.subrange(0, len));
    }
}

/// Reads the number that `text` writes.
pub fn read_number(text: &[u8]) -> (number: Option<u64>)
    ensures
        number == number_of(text@),
{
    let start: usize = if text.len() > 0 && text[0] == PLUS {
        1
    } else {
        0
    };
    if start == text.len() {
        return None;
    }
    let ghost digits = text@.subrange(start as int, text.len() as int);
    assert(digits =~= if text@.len() > 0 && text@[0] == PLUS {
        text@.drop_first()
    } else {
        text@
    });
    let mut value: u64 = 0;
    let mut pos: usize = start;
    assert(digits.subrange(0, 0) =~= Seq::<u8>::empty());
    while pos < text.len()
        invariant
            start <= pos <= text.len(),
            start < text.len(),
            digits == text@.subrange(start as int, text.len() as int),
            digits == if text@.len() > 0 && text@[0] == PLUS {
                text@.drop_first()
            } else {
                text@
            },
            digits_value(digits.subrange(0, pos - start)) == Some(value as nat),
        decreases text.len() - pos,
    {
        let byte = text[pos];
        let ghost longer = digits.subrange(0, pos - start + 1);
        proof {
            assert(longer.drop_last() =~= digits.subrange(0, pos - start));
            assert(longer.last() == byte);
            lemma_digits_prefix(digits, pos - start + 1);
        }
        if byte < 48 || byte > 57 {
            return None;
        }
        let digit: u64 = (byte - 48) as u64;
        if value > (u64::MAX - digit) / 10 {
            assert(value * 10 + digit > u64::MAX) by (nonlinear_arith)
                requires
                    value > (u64::MAX - digit) / 10,
                    digit <= 9,
            ;
            return None;
        }
        assert(value * 10 + digit <= u64::MAX) by (nonlinear_arith)
            requires
                value <= (u64::MAX - digit) / 10,
                digit <= 9,
        ;
        value = value * 10 + digit;
        pos += 1;
    }
    assert(digits.subrange(0, pos - start) =~= digits);
    Some(value)
}

/// Reads the key `key` and the value behind it.
fn read_keyed_data(input: &[u8], at: usize, key: &str) -> (read: Option<(usize, usize, usize)>)
    ensures
        match read {
            Some((from, to, next)) => tag_at(input@, at as int, key.spec_bytes()) && data_at(
                input@,
                at + key.spec_bytes().len(),
            ) == Some((input@.subrange(from as int, to as int), next as int)) && at <= from < to
                <= next <= input.len(),
            None => !tag_at(input@, at as int, key.spec_bytes()) || data_at(
                input@,
                at + key.spec_bytes().len(),
            ) is None,
        },
{
    if !has_tag(input, at, key) {
        return None;
    }
    read_data(input, at + key.as_bytes().len())
}

/// Reads the key `key` and the text behind it.
fn read_keyed_string(input: &[u8], at: usize, key: &str) -> (read: Option<(String, usize)>)
    ensures
        match read {
            Some((text, next)) => keyed_string_at(input@, at as int, key.spec_bytes()) == Some(
                (text@, next as int),
            ) && at < next <= input.len(),
            None => keyed_string_at(input@, at as int, key.spec_bytes()) is None,
        },
{
    match read_keyed_data(input, at, key) {
        Some((from, to, next)) => Some((decode(slice_subrange(input, from, to)), next)),
        None => None,
    }
}

/// Reads the key `key` and the number behind it.
fn read_keyed_size(input: &[u8], at: usize, key: &str) -> (read: Option<(u64, usize)>)
    ensures
        match read {
            Some((number, next)) => keyed_size_at(input@, at as int, key.spec_bytes()) == Some(
                (number, next as int),
            ) && at < next <= input.len(),
            None => keyed_size_at(input@, at as int, key.spec_bytes()) is None,
        },
{
    match read_keyed_data(input, at, key) {
        Some((from, to, next)) => match read_number(slice_subrange(input, from, to)) {
            Some(number) => Some((number, next)),
            None => None,
        },
        None => None,
    }
}

/// Reads the key `key` and the list of words behind it.
fn read_keyed_string_list(input: &[u8], at: usize, key: &str) -> (read: Option<
    (Vec<String>, usize),
>)
    ensures
        match read {
            Some((words, next)) => keyed_string_list_at(input@, at as int, key.spec_bytes())
                == Some((words.deep_view(), next as int)) && at < next <= input.len(),
            None => keyed_string_list_at(input@, at as int, key.spec_bytes()) is None,
        },
{
    match read_keyed_data(input, at, key) {
        Some((from, to, next)) => {
            let text = decode(slice_subrange(input, from, to));
            Some((split_words(text.as_str()), next))
        },
        None => None,
    }
}

/// Reads a record at `at`.
pub fn read_narinfo(input: &[u8], at: usize) -> (read: Option<(NarInfo, usize)>)
    ensures
        match read {
            Some((info, end)) => narinfo_at(input@, at as int) == Some((info@, end as int))
                && end <= input.len(),
            None => narinfo_at(input@, at as int) is None,
        },
{
    let (store_path, at1) = match read_keyed_string(input, at, "StorePath: ") {
        Some(read) => read,
        None => {
            return None;
        },
    };
    let (url, at2) = match read_keyed_string(input, at1, "URL: ") {
        Some(read) => read,
        None => {
            return None;
        },
    };
    let (compression, at3) = match read_keyed_string(input, at2, "Compression: ") {
        Some(read) => read,
        None => {
            return None;
        },
    };
    let (file_hash, at4) = match read_keyed_string(input, at3, "FileHash: ") {
        Some(read) => read,
        None => {
            return None;
        },
    };
    let (file_size, at5) = match read_keyed_size(input, at4, "FileSize: ") {
        Some(read) => read,
        None => {
            return None;
        },
    };
    let (nar_hash, at6) = match read_keyed_string(input, at5, "NarHash: ") {
        Some(read) => read,
        None => {
            return None;
        },
    };
    let (nar_size, at7) = match read_keyed_size(input, at6, "NarSize: ") {
        Some(read) => read,
        None => {
            return None;
        },
    };
    let (references, at8) = match read_keyed_string_list(input, at7, "References: ") {
        Some(read) => read,
        None => {
            return None;
        },
    };
    let (deriver, at9) = if has_tag(input, at8, "Deriver: ") {
        match read_keyed_string(input, at8, "Deriver: ") {
            Some((deriver, next)) => (Some(deriver), next),
            None => {
                return None;
            },
        }
    } else {
        (None, at8)
    };
    let (sig, at10) = match read_keyed_string(input, at9, "Sig: ") {
        Some(read) => read,
        None => {
            return None;
        },
    };
    Some(
        (
            NarInfo {
                store_path,
                url,
                compression,
                file_hash,
                file_size,
                nar_hash,
                nar_size,
                references,
                deriver,
                sig,
            },
            at10,
        ),
    )
}

/// What is left of `input` from `at` on.
fn rest_from(input: &[u8], at: usize) -> (rest: &[u8])
    requires
        at <= input.len(),
    ensures
        rest@ == input@.subrange(at as int, input.len() as int),
        rest.len() == input.len() - at,
{
    slice_subrange(input, at, input.len())
}

/// Reads a value off the front of `input`, and hands back what is left
/// behind its line.
pub fn data(input: &[u8]) -> (read: Result<(&[u8], &[u8]), MalformedMetadata>)
    ensures
        match read {
            Ok((rest, value)) => data_at(input@, 0) == Some(
                (value@, input.len() - rest.len()),
            ) && rest@ == input@.subrange(input.len() - rest.len(), input.len() as int),
            Err(_) => data_at(input@, 0) is None,
        },
{
    match read_data(input, 0) {
        Some((from, to, next)) => Ok((rest_from(input, next), slice_subrange(input, from, to))),
        None => Err(MalformedMetadata),
    }
}

/// Reads a number off the front of `input`, and hands back what is left
/// behind its line.
pub fn size(input: &[u8]) -> (read: Result<(&[u8], u64), MalformedMetadata>)
    ensures
        match read {
            Ok((rest, number)) => size_at(input@, 0) == Some(
                (number, input.len() - rest.len()),
            ) && rest@ == input@.subrange(input.len() - rest.len(), input.len() as int),
            Err(_) => size_at(input@, 0) is None,
        },
{
    match read_data(input, 0) {
        Some((from, to, next)) => match read_number(slice_subrange(input, from, to)) {
            Some(number) => Ok((rest_from(input, next), number)),
            None => Err(MalformedMetadata),
        },
        None => Err(MalformedMetadata),
    }
}

/// Reads a record off the front of `input`, and hands back what is left.
pub fn narinfo(input: &[u8]) -> (read: Result<(&[u8], NarInfo), MalformedMetadata>)
    ensures
        match read {
            Ok((rest, info)) => narinfo_at(input@, 0) == Some(
                (info@, input.len() - rest.len()),
            ) && rest@ == input@.subrange(input.len() - rest.len(), input.len() as int),
            Err(_) => narinfo_at(input@, 0) is None,
        },
{
    match read_narinfo(input, 0) {
        Some((info, end)) => Ok((rest_from(input, end), info)),
        None => Err(MalformedMetadata),
    }
}

impl NarInfo {
    /// Decodes a response body: no record where the body is the three
    /// bytes `404`, else the record it begins with.
    pub fn from(body: &[u8]) -> (decoded: Result<Option<NarInfo>, MalformedMetadata>)
        ensures
            match decoded {
                Ok(Some(info)) => narinfo_of(body@) == Ok::<_, MalformedMetadata>(Some(info@)),
                Ok(None) => narinfo_of(body@) == Ok::<Option<NarInfoView>, MalformedMetadata>(
                    None,
                ),
                Err(_) => narinfo_of(body@) is Err,
            },
    {
        if same_bytes(body, "404".as_bytes()) {
            return Ok(None);
        }
        match read_narinfo(body, 0) {
            Some((info, _)) => Ok(Some(info)),
            None => Err(MalformedMetadata),
        }
    }
}

} // verus!
