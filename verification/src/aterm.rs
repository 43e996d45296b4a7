//! The grammar of derivation files.
//!
//! ```text
//! Derive( outputs , input-derivations , input-sources ,
//!         platform , builder , builder-arguments , environment )
//! ```
//!
//! A string stands between double quotes, with `\\`, `\"`, `\n` and `\t` as
//! its only escapes. A list stands between square brackets, its items
//! separated by commas. Outputs, input derivations and the pairs of the
//! environment stand between parentheses.

use vstd::prelude::*;
use vstd::slice::slice_subrange;
use vstd::string::*;

use crate::derivation::{Drv, DrvOutput, DrvOutputView, DrvView, InputDrv, InputDrvView};
use crate::scan::{after, byte_at, cons, has_byte, has_tag, lemma_after_cons, lemma_after_nothing, tag_at};
use crate::text::{decode, text_of};

verus! {

pub const QUOTE: u8 = 34;

pub const BACKSLASH: u8 = 92;

pub const COMMA: u8 = 44;

pub const OPEN_PAREN: u8 = 40;

pub const CLOSE_PAREN: u8 = 41;

pub const OPEN_BRACKET: u8 = 91;

pub const CLOSE_BRACKET: u8 = 93;

/// The input is no derivation: it breaks the grammar somewhere, or goes on
/// behind the derivation's end.
#[derive(Debug, Clone, Copy, PartialEq, Eq)]
pub struct MalformedDerivation;

/// The byte that an escape stands for, by the byte behind its backslash.
pub open spec fn unescaped(byte: u8) -> Option<u8> {
    if byte == BACKSLASH {
        Some(BACKSLASH)
    } else if byte == QUOTE {
        Some(QUOTE)
    } else if byte == 110 {
        Some(10u8)
    } else if byte == 116 {
        Some(9u8)
    } else {
        None
    }
}

/// The body of a string from `at` on: its bytes with the escapes resolved,
/// and the position behind its closing quote.
pub open spec fn body_at(input: Seq<u8>, at: int) -> Option<(Seq<u8>, int)>
    decreases input.len() - at,
{
    if at < 0 || at >= input.len() {
        None
    } else if input[at] == QUOTE {
        Some((Seq::empty(), at + 1))
    } else if input[at] == BACKSLASH {
        if at + 1 >= input.len() {
            None
        } else {
            match unescaped(input[at + 1]) {
                Some(byte) => cons(byte, body_at(input, at + 2)),
                None => None,
            }
        }
    } else {
        cons(input[at], body_at(input, at + 1))
    }
}

/// A string at `at`: its text, and the position behind it.
pub open spec fn string_at(input: Seq<u8>, at: int) -> Option<(Seq<char>, int)> {
    if byte_at(input, at, QUOTE) {
        match body_at(input, at + 1) {
            Some((bytes, end)) => Some((text_of(bytes), end)),
            None => None,
        }
    } else {
        None
    }
}

/// The byte `lead` at `at`, and a string behind it.
pub open spec fn led_string_at(input: Seq<u8>, at: int, lead: u8) -> Option<(Seq<char>, int)> {
    if byte_at(input, at, lead) {
        string_at(input, at + 1)
    } else {
        None
    }
}

/// What is left of a list at `at`, behind one of its items: the closing
/// bracket, or a comma and further items.
pub open spec fn list_rest_at<T>(
    item: spec_fn(Seq<u8>, int) -> Option<(T, int)>,
    input: Seq<u8>,
    at: int,
) -> Option<(Seq<T>, int)>
    decreases input.len() - at,
{
    if byte_at(input, at, CLOSE_BRACKET) {
        Some((Seq::empty(), at + 1))
    } else if byte_at(input, at, COMMA) {
        match item(input, at + 1) {
            Some((value, next)) => if next <= at || next > input.len() {
                None
            } else {
                cons(value, list_rest_at(item, input, next))
            },
            None => None,
        }
    } else {
        None
    }
}

/// A list at `at`: its items, and the position behind it.
pub open spec fn list_at<T>(
    item: spec_fn(Seq<u8>, int) -> Option<(T, int)>,
    input: Seq<u8>,
    at: int,
) -> Option<(Seq<T>, int)> {
    if !byte_at(input, at, OPEN_BRACKET) {
        None
    } else if byte_at(input, at + 1, CLOSE_BRACKET) {
        Some((Seq::empty(), at + 2))
    } else {
        match item(input, at + 1) {
            Some((first, next)) => cons(first, list_rest_at(item, input, next)),
            None => None,
        }
    }
}

/// The byte `lead` at `at`, and a list behind it.
pub open spec fn led_list_at<T>(
    item: spec_fn(Seq<u8>, int) -> Option<(T, int)>,
    input: Seq<u8>,
    at: int,
    lead: u8,
) -> Option<(Seq<T>, int)> {
    if byte_at(input, at, lead) {
        list_at(item, input, at + 1)
    } else {
        None
    }
}

/// Strings as the items of a list.
pub open spec fn string_item() -> spec_fn(Seq<u8>, int) -> Option<(Seq<char>, int)> {
    |input: Seq<u8>, at: int| string_at(input, at)
}

/// A pair of strings at `at`.
pub open spec fn pair_at(input: Seq<u8>, at: int) -> Option<((Seq<char>, Seq<char>), int)> {
    match led_string_at(input, at, OPEN_PAREN) {
        Some((first, at1)) => match led_string_at(input, at1, COMMA) {
            Some((second, at2)) => if byte_at(input, at2, CLOSE_PAREN) {
                Some(((first, second), at2 + 1))
            } else {
                None
            },
            None => None,
        },
        None => None,
    }
}

/// Pairs of strings as the items of a list.
pub open spec fn pair_item() -> spec_fn(Seq<u8>, int) -> Option<((Seq<char>, Seq<char>), int)> {
    |input: Seq<u8>, at: int| pair_at(input, at)
}

/// An output at `at`.
pub open spec fn output_at(input: Seq<u8>, at: int) -> Option<(DrvOutputView, int)> {
    match led_string_at(input, at, OPEN_PAREN) {
        Some((key, at1)) => match led_string_at(input, at1, COMMA) {
            Some((path, at2)) => match led_string_at(input, at2, COMMA) {
                Some((hash_algo, at3)) => match led_string_at(input, at3, COMMA) {
                    Some((hash, at4)) => if byte_at(input, at4, CLOSE_PAREN) {
                        Some((DrvOutputView { key, path, hash_algo, hash }, at4 + 1))
                    } else {
                        None
                    },
                    None => None,
                },
                None => None,
            },
            None => None,
        },
        None => None,
    }
}

/// Outputs as the items of a list.
pub open spec fn output_item() -> spec_fn(Seq<u8>, int) -> Option<(DrvOutputView, int)> {
    |input: Seq<u8>, at: int| output_at(input, at)
}

/// An input derivation at `at`.
pub open spec fn input_drv_at(input: Seq<u8>, at: int) -> Option<(InputDrvView, int)> {
    match led_string_at(input, at, OPEN_PAREN) {
        Some((path, at1)) => match led_list_at(string_item(), input, at1, COMMA) {
            Some((outputs, at2)) => if byte_at(input, at2, CLOSE_PAREN) {
                Some((InputDrvView { path, outputs }, at2 + 1))
            } else {
                None
            },
            None => None,
        },
        None => None,
    }
}

/// Input derivations as the items of a list.
pub open spec fn input_drv_item() -> spec_fn(Seq<u8>, int) -> Option<(InputDrvView, int)> {
    |input: Seq<u8>, at: int| input_drv_at(input, at)
}

/// The word a derivation begins with.
pub open spec fn derive_tag() -> Seq<u8> {
    "Derive".spec_bytes()
}

/// A derivation at `at`.
pub open spec fn drv_at(input: Seq<u8>, at: int) -> Option<(DrvView, int)> {
    if !tag_at(input, at, derive_tag()) {
        None
    } else {
        match led_list_at(output_item(), input, at + derive_tag().len(), OPEN_PAREN) {
            Some((outputs, at1)) => match led_list_at(input_drv_item(), input, at1, COMMA) {
                Some((input_drvs, at2)) => match led_list_at(string_item(), input, at2, COMMA) {
                    Some((input_srcs, at3)) => match led_string_at(input, at3, COMMA) {
                        Some((platform, at4)) => match led_string_at(input, at4, COMMA) {
                            Some((builder, at5)) => match led_list_at(
                                string_item(),
                                input,
                                at5,
                                COMMA,
                            ) {
                                Some((builder_args, at6)) => match led_list_at(
                                    pair_item(),
                                    input,
                                    at6,
                                    COMMA,
                                ) {
                                    Some((env, at7)) => if byte_at(input, at7, CLOSE_PAREN) {
                                        Some(
                                            (
                                                DrvView {
                                                    outputs,
                                                    input_drvs,
                                                    input_srcs,
                                                    platform,
                                                    builder,
                                                    builder_args,
                                                    env,
                                                },
                                                at7 + 1,
                                            ),
                                        )
                                    } else {
                                        None
                                    },
                                    None => None,
                                },
                                None => None,
                            },
                            None => None,
                        },
                        None => None,
                    },
                    None => None,
                },
                None => None,
            },
            None => None,
        }
    }
}

/// The derivation that the whole of `input` holds.
pub open spec fn drv_of(input: Seq<u8>) -> Option<DrvView> {
    match drv_at(input, 0) {
        Some((drv, end)) => if end == input.len() {
            Some(drv)
        } else {
            None
        },
        None => None,
    }
}

/// Resolves the escape that the byte behind a backslash stands for.
fn unescape(byte: u8) -> (plain: Option<u8>)
    ensures
        plain == unescaped(byte),
{
    if byte == BACKSLASH {
        Some(BACKSLASH)
    } else if byte == QUOTE {
        Some(QUOTE)
    } else if byte == 110 {
        Some(10)
    } else if byte == 116 {
        Some(9)
    } else {
        None
    }
}

/// Reads a string at `at`.
pub fn read_string(input: &[u8], at: usize) -> (read: Option<(String, usize)>)
    ensures
        match read {
            Some((text, end)) => string_at(input@, at as int) == Some((text@, end as int)) && at
                < end <= input.len(),
            None => string_at(input@, at as int) is None,
        },
{
    if !has_byte(input, at, QUOTE) {
        return None;
    }
    let mut bytes: Vec<u8> = Vec::new();
    let mut pos: usize = at + 1;
    proof {
        lemma_after_nothing(body_at(input@, pos as int));
    }
    loop
        invariant
            at < pos <= input.len(),
            byte_at(input@, at as int, QUOTE),
            body_at(input@, at + 1) == after(bytes@, body_at(input@, pos as int)),
        decreases input.len() - pos,
    {
        if pos >= input.len() {
            return None;
        }
        let byte = input[pos];
        if byte == QUOTE {
            let text = decode(bytes.as_slice());
            assert(body_at(input@, pos as int) == Some((Seq::<u8>::empty(), pos + 1)));
            assert(bytes@ + Seq::<u8>::empty() =~= bytes@);
            return Some((text, pos + 1));
        }
        if byte == BACKSLASH {
            if pos + 1 >= input.len() {
                return None;
            }
            match unescape(input[pos + 1]) {
                Some(plain) => {
                    proof {
                        lemma_after_cons(bytes@, plain, body_at(input@, pos + 2));
                    }
                    bytes.push(plain);
                    pos += 2;
                },
                None => {
                    return None;
                },
            }
        } else {
            proof {
                lemma_after_cons(bytes@, byte, body_at(input@, pos + 1));
            }
            bytes.push(byte);
            pos += 1;
        }
    }
}

/// Reads the byte `lead` and a string behind it.
fn read_led_string(input: &[u8], at: usize, lead: u8) -> (read: Option<(String, usize)>)
    ensures
        match read {
            Some((text, end)) => led_string_at(input@, at as int, lead) == Some(
                (text@, end as int),
            ) && at < end <= input.len(),
            None => led_string_at(input@, at as int, lead) is None,
        },
{
    if !has_byte(input, at, lead) {
        return None;
    }
    read_string(input, at + 1)
}

/// Reads a list of strings at `at`.
pub fn read_strings(input: &[u8], at: usize) -> (read: Option<(Vec<String>, usize)>)
    ensures
        match read {
            Some((items, end)) => list_at(string_item(), input@, at as int) == Some(
                (items.deep_view(), end as int),
            ) && at < end <= input.len(),
            None => list_at(string_item(), input@, at as int) is None,
        },
{
    if !has_byte(input, at, OPEN_BRACKET) {
        return None;
    }
    let mut items: Vec<String> = Vec::new();
    if has_byte(input, at + 1, CLOSE_BRACKET) {
        assert(items.deep_view() =~= Seq::empty());
        return Some((items, at + 2));
    }
    let mut pos: usize = at + 1;
    match read_string(input, pos) {
        Some((first, next)) => {
            proof {
                lemma_after_cons(
                    Seq::empty(),
                    first@,
                    list_rest_at(string_item(), input@, next as int),
                );
                lemma_after_nothing(
                    cons(first@, list_rest_at(string_item(), input@, next as int)),
                );
                assert(items.deep_view().push(first@) =~= seq![first@]);
            }
            items.push(first);
            pos = next;
            assert(items.deep_view() =~= seq![first@]);
        },
        None => {
            return None;
        },
    }
    loop
        invariant
            at < pos <= input.len(),
            list_at(string_item(), input@, at as int) == after(
                items.deep_view(),
                list_rest_at(string_item(), input@, pos as int),
            ),
        decreases input.len() - pos,
    {
        if has_byte(input, pos, CLOSE_BRACKET) {
            assert(items.deep_view() + Seq::empty() =~= items.deep_view());
            return Some((items, pos + 1));
        }
        if !has_byte(input, pos, COMMA) {
            return None;
        }
        match read_string(input, pos + 1) {
            Some((value, next)) => {
                proof {
                    lemma_after_cons(
                        items.deep_view(),
                        value@,
                        list_rest_at(string_item(), input@, next as int),
                    );
                }
                let ghost before = items.deep_view();
                items.push(value);
                pos = next;
                assert(items.deep_view() =~= before.push(value@));
            },
            None => {
                return None;
            },
        }
    }
}

/// Reads a pair of strings at `at`.
pub fn read_pair(input: &[u8], at: usize) -> (read: Option<((String, String), usize)>)
    ensures
        match read {
            Some((pair, end)) => pair_at(input@, at as int) == Some(
                (pair.deep_view(), end as int),
            ) && at < end <= input.len(),
            None => pair_at(input@, at as int) is None,
        },
{
    let (first, at1) = match read_led_string(input, at, OPEN_PAREN) {
        Some(read) => read,
        None => {
            return None;
        },
    };
    let (second, at2) = match read_led_string(input, at1, COMMA) {
        Some(read) => read,
        None => {
            return None;
        },
    };
    if !has_byte(input, at2, CLOSE_PAREN) {
        return None;
    }
    Some(((first, second), at2 + 1))
}

/// Reads an output at `at`.
pub fn read_output(input: &[u8], at: usize) -> (read: Option<(DrvOutput, usize)>)
    ensures
        match read {
            Some((output, end)) => output_at(input@, at as int) == Some((output@, end as int))
                && at < end <= input.len(),
            None => output_at(input@, at as int) is None,
        },
{
    let (key, at1) = match read_led_string(input, at, OPEN_PAREN) {
        Some(read) => read,
        None => {
            return None;
        },
    };
    let (path, at2) = match read_led_string(input, at1, COMMA) {
        Some(read) => read,
        None => {
            return None;
        },
    };
    let (hash_algo, at3) = match read_led_string(input, at2, COMMA) {
        Some(read) => read,
        None => {
            return None;
        },
    };
    let (hash, at4) = match read_led_string(input, at3, COMMA) {
        Some(read) => read,
        None => {
            return None;
        },
    };
    if !has_byte(input, at4, CLOSE_PAREN) {
        return None;
    }
    Some((DrvOutput { key, path, hash_algo, hash }, at4 + 1))
}

/// Reads an input derivation at `at`.
pub fn read_input_drv(input: &[u8], at: usize) -> (read: Option<(InputDrv, usize)>)
    ensures
        match read {
            Some((input_drv, end)) => input_drv_at(input@, at as int) == Some(
                (input_drv@, end as int),
            ) && at < end <= input.len(),
            None => input_drv_at(input@, at as int) is None,
        },
{
    let (path, at1) = match read_led_string(input, at, OPEN_PAREN) {
        Some(read) => read,
        None => {
            return None;
        },
    };
    if !has_byte(input, at1, COMMA) {
        return None;
    }
    let (outputs, at2) = match read_strings(input, at1 + 1) {
        Some(read) => read,
        None => {
            return None;
        },
    };
    if !has_byte(input, at2, CLOSE_PAREN) {
        return None;
    }
    Some((InputDrv { path, outputs }, at2 + 1))
}

/// Reads a list of pairs of strings at `at`.
pub fn read_pairs(input: &[u8], at: usize) -> (read: Option<(Vec<(String, String)>, usize)>)
    ensures
        match read {
            Some((items, end)) => list_at(pair_item(), input@, at as int) == Some(
                (items.deep_view(), end as int),
            ) && at < end <= input.len(),
            None => list_at(pair_item(), input@, at as int) is None,
        },
{
    if !has_byte(input, at, OPEN_BRACKET) {
        return None;
    }
    let mut items: Vec<(String, String)> = Vec::new();
    if has_byte(input, at + 1, CLOSE_BRACKET) {
        assert(items.deep_view() =~= Seq::empty());
        return Some((items, at + 2));
    }
    let mut pos: usize = at + 1;
    match read_pair(input, pos) {
        Some((first, next)) => {
            proof {
                lemma_after_cons(
                    Seq::empty(),
                    first.deep_view(),
                    list_rest_at(pair_item(), input@, next as int),
                );
                lemma_after_nothing(
                    cons(first.deep_view(), list_rest_at(pair_item(), input@, next as int)),
                );
                assert(items.deep_view().push(first.deep_view()) =~= seq![first.deep_view()]);
            }
            items.push(first);
            pos = next;
            assert(items.deep_view() =~= seq![first.deep_view()]);
        },
        None => {
            return None;
        },
    }
    loop
        invariant
            at < pos <= input.len(),
            list_at(pair_item(), input@, at as int) == after(
                items.deep_view(),
                list_rest_at(pair_item(), input@, pos as int),
            ),
        decreases input.len() - pos,
    {
        if has_byte(input, pos, CLOSE_BRACKET) {
            assert(items.deep_view() + Seq::empty() =~= items.deep_view());
            return Some((items, pos + 1));
        }
        if !has_byte(input, pos, COMMA) {
            return None;
        }
        match read_pair(input, pos + 1) {
            Some((value, next)) => {
                proof {
                    lemma_after_cons(
                        items.deep_view(),
                        value.deep_view(),
                        list_rest_at(pair_item(), input@, next as int),
                    );
                }
                let ghost before = items.deep_view();
                items.push(value);
                pos = next;
                assert(items.deep_view() =~= before.push(value.deep_view()));
            },
            None => {
                return None;
            },
        }
    }
}

/// Reads a list of outputs at `at`.
pub fn read_outputs(input: &[u8], at: usize) -> (read: Option<(Vec<DrvOutput>, usize)>)
    ensures
        match read {
            Some((items, end)) => list_at(output_item(), input@, at as int) == Some(
                (items.deep_view(), end as int),
            ) && at < end <= input.len(),
            None => list_at(output_item(), input@, at as int) is None,
        },
{
    if !has_byte(input, at, OPEN_BRACKET) {
        return None;
    }
    let mut items: Vec<DrvOutput> = Vec::new();
    if has_byte(input, at + 1, CLOSE_BRACKET) {
        assert(items.deep_view() =~= Seq::empty());
        return Some((items, at + 2));
    }
    let mut pos: usize = at + 1;
    match read_output(input, pos) {
        Some((first, next)) => {
            proof {
                lemma_after_cons(
                    Seq::empty(),
                    first@,
                    list_rest_at(output_item(), input@, next as int),
                );
                lemma_after_nothing(
                    cons(first@, list_rest_at(output_item(), input@, next as int)),
                );
                assert(items.deep_view().push(first@) =~= seq![first@]);
            }
            items.push(first);
            pos = next;
            assert(items.deep_view() =~= seq![first@]);
        },
        None => {
            return None;
        },
    }
    loop
        invariant
            at < pos <= input.len(),
            list_at(output_item(), input@, at as int) == after(
                items.deep_view(),
                list_rest_at(output_item(), input@, pos as int),
            ),
        decreases input.len() - pos,
    {
        if has_byte(input, pos, CLOSE_BRACKET) {
            assert(items.deep_view() + Seq::empty() =~= items.deep_view());
            return Some((items, pos + 1));
        }
        if !has_byte(input, pos, COMMA) {
            return None;
        }
        match read_output(input, pos + 1) {
            Some((value, next)) => {
                proof {
                    lemma_after_cons(
                        items.deep_view(),
                        value@,
                        list_rest_at(output_item(), input@, next as int),
                    );
                }
                let ghost before = items.deep_view();
                items.push(value);
                pos = next;
                assert(items.deep_view() =~= before.push(value@));
            },
            None => {
                return None;
            },
        }
    }
}

/// Reads a list of input derivations at `at`.
pub fn read_input_drvs(input: &[u8], at: usize) -> (read: Option<(Vec<InputDrv>, usize)>)
    ensures
        match read {
            Some((items, end)) => list_at(input_drv_item(), input@, at as int) == Some(
                (items.deep_view(), end as int),
            ) && at < end <= input.len(),
            None => list_at(input_drv_item(), input@, at as int) is None,
        },
{
    if !has_byte(input, at, OPEN_BRACKET) {
        return None;
    }
    let mut items: Vec<InputDrv> = Vec::new();
    if has_byte(input, at + 1, CLOSE_BRACKET) {
        assert(items.deep_view() =~= Seq::empty());
        return Some((items, at + 2));
    }
    let mut pos: usize = at + 1;
    match read_input_drv(input, pos) {
        Some((first, next)) => {
            proof {
                lemma_after_cons(
                    Seq::empty(),
                    first@,
                    list_rest_at(input_drv_item(), input@, next as int),
                );
                lemma_after_nothing(
                    cons(first@, list_rest_at(input_drv_item(), input@, next as int)),
                );
                assert(items.deep_view().push(first@) =~= seq![first@]);
            }
            items.push(first);
            pos = next;
            assert(items.deep_view() =~= seq![first@]);
        },
        None => {
            return None;
        },
    }
    loop
        invariant
            at < pos <= input.len(),
            list_at(input_drv_item(), input@, at as int) == after(
                items.deep_view(),
                list_rest_at(input_drv_item(), input@, pos as int),
            ),
        decreases input.len() - pos,
    {
        if has_byte(input, pos, CLOSE_BRACKET) {
            assert(items.deep_view() + Seq::empty() =~= items.deep_view());
            return Some((items, pos + 1));
        }
        if !has_byte(input, pos, COMMA) {
            return None;
        }
        match read_input_drv(input, pos + 1) {
            Some((value, next)) => {
                proof {
                    lemma_after_cons(
                        items.deep_view(),
                        value@,
                        list_rest_at(input_drv_item(), input@, next as int),
                    );
                }
                let ghost before = items.deep_view();
                items.push(value);
                pos = next;
                assert(items.deep_view() =~= before.push(value@));
            },
            None => {
                return None;
            },
        }
    }
}

/// Reads a derivation at `at`.
pub fn read_drv(input: &[u8], at: usize) -> (read: Option<(Drv, usize)>)
    ensures
        match read {
            Some((drv, end)) => drv_at(input@, at as int) == Some((drv@, end as int)) && at < end
                <= input.len(),
            None => drv_at(input@, at as int) is None,
        },
{
    if !has_tag(input, at, "Derive") {
        return None;
    }
    let at0 = at + "Derive".as_bytes().len();
    if !has_byte(input, at0, OPEN_PAREN) {
        return None;
    }
    let (outputs, at1) = match read_outputs(input, at0 + 1) {
        Some(read) => read,
        None => {
            return None;
        },
    };
    if !has_byte(input, at1, COMMA) {
        return None;
    }
    let (input_drvs, at2) = match read_input_drvs(input, at1 + 1) {
        Some(read) => read,
        None => {
            return None;
        },
    };
    if !has_byte(input, at2, COMMA) {
        return None;
    }
    let (input_srcs, at3) = match read_strings(input, at2 + 1) {
        Some(read) => read,
        None => {
            return None;
        },
    };
    let (platform, at4) = match read_led_string(input, at3, COMMA) {
        Some(read) => read,
        None => {
            return None;
        },
    };
    let (builder, at5) = match read_led_string(input, at4, COMMA) {
        Some(read) => read,
        None => {
            return None;
        },
    };
    if !has_byte(input, at5, COMMA) {
        return None;
    }
    let (builder_args, at6) = match read_strings(input, at5 + 1) {
        Some(read) => read,
        None => {
            return None;
        },
    };
    if !has_byte(input, at6, COMMA) {
        return None;
    }
    let (env, at7) = match read_pairs(input, at6 + 1) {
        Some(read) => read,
        None => {
            return None;
        },
    };
    if !has_byte(input, at7, CLOSE_PAREN) {
        return None;
    }
    Some(
        (Drv { outputs, input_drvs, input_srcs, platform, builder, builder_args, env }, at7 + 1),
    )
}

/// What is left of `input` from `at` on.
fn rest_from(input: &[u8], at: usize) -> (rest: &[u8])
    requires
        at <= input.len(),
    ensures
        rest@ == input@.subrange(at as int, input.len() as int),
        rest.len() == input.len() - at,
{
    slice_subrange(input, at, input.len())
}

/// Reads a string off the front of `input`, and hands back what is left.
pub fn string(input: &[u8]) -> (read: Result<(&[u8], String), MalformedDerivation>)
    ensures
        match read {
            Ok((rest, text)) => string_at(input@, 0) == Some((text@, input.len() - rest.len()))
                && rest@ == input@.subrange(input.len() - rest.len(), input.len() as int),
            Err(_) => string_at(input@, 0) is None,
        },
{
    match read_string(input, 0) {
        Some((text, end)) => Ok((rest_from(input, end), text)),
        None => Err(MalformedDerivation),
    }
}

/// Reads a pair of strings off the front of `input`, and hands back what
/// is left.
pub fn pair(input: &[u8]) -> (read: Result<(&[u8], (String, String)), MalformedDerivation>)
    ensures
        match read {
            Ok((rest, pair)) => pair_at(input@, 0) == Some(
                (pair.deep_view(), input.len() - rest.len()),
            ) && rest@ == input@.subrange(input.len() - rest.len(), input.len() as int),
            Err(_) => pair_at(input@, 0) is None,
        },
{
    match read_pair(input, 0) {
        Some((pair, end)) => Ok((rest_from(input, end), pair)),
        None => Err(MalformedDerivation),
    }
}

/// Reads a list of strings off the front of `input`, and hands back what
/// is left.
pub fn list_of_strings(input: &[u8]) -> (read: Result<(&[u8], Vec<String>), MalformedDerivation>)
    ensures
        match read {
            Ok((rest, items)) => list_at(string_item(), input@, 0) == Some(
                (items.deep_view(), input.len() - rest.len()),
            ) && rest@ == input@.subrange(input.len() - rest.len(), input.len() as int),
            Err(_) => list_at(string_item(), input@, 0) is None,
        },
{
    match read_strings(input, 0) {
        Some((items, end)) => Ok((rest_from(input, end), items)),
        None => Err(MalformedDerivation),
    }
}

/// Reads an output off the front of `input`, and hands back what is left.
pub fn drv_output(input: &[u8]) -> (read: Result<(&[u8], DrvOutput), MalformedDerivation>)
    ensures
        match read {
            Ok((rest, output)) => output_at(input@, 0) == Some(
                (output@, input.len() - rest.len()),
            ) && rest@ == input@.subrange(input.len() - rest.len(), input.len() as int),
            Err(_) => output_at(input@, 0) is None,
        },
{
    match read_output(input, 0) {
        Some((output, end)) => Ok((rest_from(input, end), output)),
        None => Err(MalformedDerivation),
    }
}

/// Reads an input derivation off the front of `input`, and hands back what
/// is left.
pub fn input_drv(input: &[u8]) -> (read: Result<(&[u8], InputDrv), MalformedDerivation>)
    ensures
        match read {
            Ok((rest, input_drv)) => input_drv_at(input@, 0) == Some(
                (input_drv@, input.len() - rest.len()),
            ) && rest@ == input@.subrange(input.len() - rest.len(), input.len() as int),
            Err(_) => input_drv_at(input@, 0) is None,
        },
{
    match read_input_drv(input, 0) {
        Some((input_drv, end)) => Ok((rest_from(input, end), input_drv)),
        None => Err(MalformedDerivation),
    }
}

/// Reads a derivation off the front of `input`, and hands back what is
/// left.
pub fn drv(input: &[u8]) -> (read: Result<(&[u8], Drv), MalformedDerivation>)
    ensures
        match read {
            Ok((rest, drv)) => drv_at(input@, 0) == Some((drv@, input.len() - rest.len()))
                && rest@ == input@.subrange(input.len() - rest.len(), input.len() as int),
            Err(_) => drv_at(input@, 0) is None,
        },
{
    match read_drv(input, 0) {
        Some((drv, end)) => Ok((rest_from(input, end), drv)),
        None => Err(MalformedDerivation),
    }
}

impl Drv {
    /// Decodes the content of a derivation file. The derivation has to
    /// take up the whole of it.
    pub fn parse(content: &[u8]) -> (parsed: Result<Drv, MalformedDerivation>)
        ensures
            match parsed {
                Ok(drv) => drv_of(content@) == Some(drv@),
                Err(_) => drv_of(content@) is None,
            },
    {
        match read_drv(content, 0) {
            Some((drv, end)) => if end == content.len() {
                Ok(drv)
            } else {
                Err(MalformedDerivation)
            },
            None => Err(MalformedDerivation),
        }
    }
}

} // verus!
