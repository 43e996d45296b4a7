//! What the grammar of derivation files refuses.
//!
//! A derivation has to take up its whole input. What is read off the front
//! of an input is read the same off any longer input, so an input that
//! goes on behind a derivation is none. A string has to end, and its
//! escapes have to be known ones.

use vstd::prelude::*;
use vstd::string::*;

use crate::aterm::{
    body_at, derive_tag, drv_at, drv_of, input_drv_at, input_drv_item, led_list_at,
    led_string_at, list_at, list_rest_at, output_at, output_item, pair_at, pair_item, string_at,
    string_item, unescaped, BACKSLASH, QUOTE,
};
use crate::scan::{byte_at, tag_at};

verus! {

/// Whether whatever `item` reads off `input` it reads inside `input`, and
/// the same off `input` with `extra` behind it.
pub open spec fn reads_the_same<T>(
    item: spec_fn(Seq<u8>, int) -> Option<(T, int)>,
    input: Seq<u8>,
    extra: Seq<u8>,
) -> bool {
    forall|at: int| #[trigger]
        item(input, at) is Some ==> 0 <= at < input.len() && item(input + extra, at) == item(
            input,
            at,
        )
}

/// The body of a string ends with a quote, inside the input and behind
/// where it began.
pub proof fn lemma_body_ends_with_quote(input: Seq<u8>, at: int)
    ensures
        body_at(input, at) matches Some((_, end)) ==> 0 <= at < end <= input.len() && input[end
            - 1] == QUOTE,
    decreases input.len() - at,
{
    if 0 <= at < input.len() {
        if input[at] == QUOTE {
        } else if input[at] == BACKSLASH {
            if at + 1 < input.len() {
                lemma_body_ends_with_quote(input, at + 2);
            }
        } else {
            lemma_body_ends_with_quote(input, at + 1);
        }
    }
}

/// A string stands between two quotes.
pub proof fn lemma_string_between_quotes(input: Seq<u8>, at: int)
    ensures
        string_at(input, at) matches Some((_, end)) ==> 0 <= at && at + 1 < end <= input.len()
            && input[at] == QUOTE && input[end - 1] == QUOTE,
{
    lemma_body_ends_with_quote(input, at + 1);
}

/// Without a quote left in the input, no string ends.
pub proof fn lemma_unterminated_string_fails(input: Seq<u8>, at: int)
    requires
        forall|k: int| at <= k < input.len() ==> input[k] != QUOTE,
    ensures
        body_at(input, at) is None,
    decreases input.len() - at,
{
    if 0 <= at < input.len() {
        if input[at] == BACKSLASH {
            if at + 1 < input.len() {
                lemma_unterminated_string_fails(input, at + 2);
            }
        } else {
            lemma_unterminated_string_fails(input, at + 1);
        }
    }
}

/// Whether the body of a string that begins at `from` goes on at `at`:
/// whether bytes and escapes, and no quote, lead from the one to the
/// other.
pub open spec fn goes_on_at(input: Seq<u8>, from: int, at: int) -> bool
    decreases at - from,
{
    if from >= at {
        from == at
    } else if !(0 <= from < input.len()) || input[from] == QUOTE {
        false
    } else if input[from] == BACKSLASH {
        from + 2 <= at && from + 1 < input.len() && unescaped(input[from + 1]) is Some
            && goes_on_at(input, from + 2, at)
    } else {
        goes_on_at(input, from + 1, at)
    }
}

/// A body that does not end from where it goes on does not end.
pub proof fn lemma_body_fails_further_on(input: Seq<u8>, from: int, at: int)
    requires
        goes_on_at(input, from, at),
        body_at(input, at) is None,
    ensures
        body_at(input, from) is None,
    decreases at - from,
{
    if from < at {
        if input[from] == BACKSLASH {
            lemma_body_fails_further_on(input, from + 2, at);
        } else {
            lemma_body_fails_further_on(input, from + 1, at);
        }
    }
}

/// A backslash before a byte that is none of `\`, `"`, `n` and `t`, or at
/// the end of the input, ends no string, wherever in the body it stands.
pub proof fn lemma_malformed_escape_fails(input: Seq<u8>, from: int, at: int)
    requires
        goes_on_at(input, from, at),
        byte_at(input, at, BACKSLASH),
        at + 1 < input.len() ==> unescaped(input[at + 1]) is None,
    ensures
        body_at(input, from) is None,
{
    lemma_body_fails_further_on(input, from, at);
}

/// The body of a string is read the same off a longer input.
pub proof fn lemma_body_reads_the_same(input: Seq<u8>, extra: Seq<u8>, at: int)
    ensures
        body_at(input, at) is Some ==> body_at(input + extra, at) == body_at(input, at),
    decreases input.len() - at,
{
    let longer = input + extra;
    if 0 <= at < input.len() {
        assert(longer[at] == input[at]);
        if input[at] == QUOTE {
        } else if input[at] == BACKSLASH {
            if at + 1 < input.len() {
                assert(longer[at + 1] == input[at + 1]);
                lemma_body_reads_the_same(input, extra, at + 2);
            }
        } else {
            lemma_body_reads_the_same(input, extra, at + 1);
        }
    }
}

/// A string is read the same off a longer input.
pub proof fn lemma_string_reads_the_same(input: Seq<u8>, extra: Seq<u8>, at: int)
    ensures
        string_at(input, at) is Some ==> string_at(input + extra, at) == string_at(input, at),
{
    if byte_at(input, at, QUOTE) {
        assert((input + extra)[at] == input[at]);
        lemma_body_reads_the_same(input, extra, at + 1);
    }
}

/// A string behind its leading byte is read the same off a longer input.
pub proof fn lemma_led_string_reads_the_same(input: Seq<u8>, extra: Seq<u8>, at: int, lead: u8)
    ensures
        led_string_at(input, at, lead) is Some ==> led_string_at(input + extra, at, lead)
            == led_string_at(input, at, lead),
{
    if byte_at(input, at, lead) {
        assert((input + extra)[at] == input[at]);
        lemma_string_reads_the_same(input, extra, at + 1);
    }
}

/// What is left of a list is read the same off a longer input, where its
/// items are.
pub proof fn lemma_list_rest_reads_the_same<T>(
    item: spec_fn(Seq<u8>, int) -> Option<(T, int)>,
    input: Seq<u8>,
    extra: Seq<u8>,
    at: int,
)
    requires
        reads_the_same(item, input, extra),
    ensures
        list_rest_at(item, input, at) is Some ==> list_rest_at(item, input + extra, at)
            == list_rest_at(item, input, at),
    decreases input.len() - at,
{
    let longer = input + extra;
    if 0 <= at < input.len() {
        assert(longer[at] == input[at]);
        if byte_at(input, at, crate::aterm::COMMA) {
            match item(input, at + 1) {
                Some((value, next)) => {
                    assert(item(longer, at + 1) == item(input, at + 1));
                    if at < next <= input.len() {
                        lemma_list_rest_reads_the_same(item, input, extra, next);
                    }
                },
                None => {},
            }
        }
    }
}

/// A list is read the same off a longer input, where its items are.
pub proof fn lemma_list_reads_the_same<T>(
    item: spec_fn(Seq<u8>, int) -> Option<(T, int)>,
    input: Seq<u8>,
    extra: Seq<u8>,
    at: int,
)
    requires
        reads_the_same(item, input, extra),
    ensures
        list_at(item, input, at) is Some ==> list_at(item, input + extra, at) == list_at(
            item,
            input,
            at,
        ),
{
    let longer = input + extra;
    if list_at(item, input, at) is Some {
        assert(longer[at] == input[at]);
        if !byte_at(input, at + 1, crate::aterm::CLOSE_BRACKET) {
            match item(input, at + 1) {
                Some((first, next)) => {
                    assert(item(longer, at + 1) == item(input, at + 1));
                    assert(longer[at + 1] == input[at + 1]);
                    lemma_list_rest_reads_the_same(item, input, extra, next);
                },
                None => {},
            }
        }
    }
}

/// A list behind its leading byte is read the same off a longer input,
/// where its items are.
pub proof fn lemma_led_list_reads_the_same<T>(
    item: spec_fn(Seq<u8>, int) -> Option<(T, int)>,
    input: Seq<u8>,
    extra: Seq<u8>,
    at: int,
    lead: u8,
)
    requires
        reads_the_same(item, input, extra),
    ensures
        led_list_at(item, input, at, lead) is Some ==> led_list_at(item, input + extra, at, lead)
            == led_list_at(item, input, at, lead),
{
    if byte_at(input, at, lead) {
        assert((input + extra)[at] == input[at]);
        lemma_list_reads_the_same(item, input, extra, at + 1);
    }
}

/// A closing byte that is read off an input is read off a longer one.
proof fn lemma_byte_reads_the_same(input: Seq<u8>, extra: Seq<u8>, at: int, byte: u8)
    ensures
        byte_at(input, at, byte) ==> byte_at(input + extra, at, byte),
{
    if byte_at(input, at, byte) {
        assert((input + extra)[at] == input[at]);
    }
}

/// Strings are read the same off a longer input.
pub proof fn lemma_strings_read_the_same(input: Seq<u8>, extra: Seq<u8>)
    ensures
        reads_the_same(string_item(), input, extra),
{
    let item = string_item();
    assert forall|at: int| #[trigger] item(input, at) is Some implies 0 <= at < input.len()
        && item(input + extra, at) == item(input, at) by {
        lemma_string_reads_the_same(input, extra, at);
    }
}

/// A pair of strings is read the same off a longer input.
pub proof fn lemma_pair_reads_the_same(input: Seq<u8>, extra: Seq<u8>, at: int)
    ensures
        pair_at(input, at) is Some ==> pair_at(input + extra, at) == pair_at(input, at),
{
    if let Some((_, at1)) = led_string_at(input, at, crate::aterm::OPEN_PAREN) {
        lemma_led_string_reads_the_same(input, extra, at, crate::aterm::OPEN_PAREN);
        if let Some((_, at2)) = led_string_at(input, at1, crate::aterm::COMMA) {
            lemma_led_string_reads_the_same(input, extra, at1, crate::aterm::COMMA);
            lemma_byte_reads_the_same(input, extra, at2, crate::aterm::CLOSE_PAREN);
        }
    }
}

/// Pairs of strings are read the same off a longer input.
pub proof fn lemma_pairs_read_the_same(input: Seq<u8>, extra: Seq<u8>)
    ensures
        reads_the_same(pair_item(), input, extra),
{
    let item = pair_item();
    assert forall|at: int| #[trigger] item(input, at) is Some implies 0 <= at < input.len()
        && item(input + extra, at) == item(input, at) by {
        lemma_pair_reads_the_same(input, extra, at);
    }
}

/// An output is read the same off a longer input.
pub proof fn lemma_output_reads_the_same(input: Seq<u8>, extra: Seq<u8>, at: int)
    ensures
        output_at(input, at) is Some ==> output_at(input + extra, at) == output_at(input, at),
{
    if let Some((_, at1)) = led_string_at(input, at, crate::aterm::OPEN_PAREN) {
        lemma_led_string_reads_the_same(input, extra, at, crate::aterm::OPEN_PAREN);
        if let Some((_, at2)) = led_string_at(input, at1, crate::aterm::COMMA) {
            lemma_led_string_reads_the_same(input, extra, at1, crate::aterm::COMMA);
            if let Some((_, at3)) = led_string_at(input, at2, crate::aterm::COMMA) {
                lemma_led_string_reads_the_same(input, extra, at2, crate::aterm::COMMA);
                if let Some((_, at4)) = led_string_at(input, at3, crate::aterm::COMMA) {
                    lemma_led_string_reads_the_same(input, extra, at3, crate::aterm::COMMA);
                    lemma_byte_reads_the_same(input, extra, at4, crate::aterm::CLOSE_PAREN);
                }
            }
        }
    }
}

/// Outputs are read the same off a longer input.
pub proof fn lemma_outputs_read_the_same(input: Seq<u8>, extra: Seq<u8>)
    ensures
        reads_the_same(output_item(), input, extra),
{
    let item = output_item();
    assert forall|at: int| #[trigger] item(input, at) is Some implies 0 <= at < input.len()
        && item(input + extra, at) == item(input, at) by {
        lemma_output_reads_the_same(input, extra, at);
    }
}

/// An input derivation is read the same off a longer input.
pub proof fn lemma_input_drv_reads_the_same(input: Seq<u8>, extra: Seq<u8>, at: int)
    ensures
        input_drv_at(input, at) is Some ==> input_drv_at(input + extra, at) == input_drv_at(
            input,
            at,
        ),
{
    if let Some((_, at1)) = led_string_at(input, at, crate::aterm::OPEN_PAREN) {
        lemma_led_string_reads_the_same(input, extra, at, crate::aterm::OPEN_PAREN);
        lemma_strings_read_the_same(input, extra);
        if let Some((_, at2)) = led_list_at(string_item(), input, at1, crate::aterm::COMMA) {
            lemma_led_list_reads_the_same(string_item(), input, extra, at1, crate::aterm::COMMA);
            lemma_byte_reads_the_same(input, extra, at2, crate::aterm::CLOSE_PAREN);
        }
    }
}

/// Input derivations are read the same off a longer input.
pub proof fn lemma_input_drvs_read_the_same(input: Seq<u8>, extra: Seq<u8>)
    ensures
        reads_the_same(input_drv_item(), input, extra),
{
    let item = input_drv_item();
    assert forall|at: int| #[trigger] item(input, at) is Some implies 0 <= at < input.len()
        && item(input + extra, at) == item(input, at) by {
        lemma_input_drv_reads_the_same(input, extra, at);
    }
}

/// A derivation is read the same off a longer input.
pub proof fn lemma_drv_reads_the_same(input: Seq<u8>, extra: Seq<u8>, at: int)
    ensures
        drv_at(input, at) is Some ==> drv_at(input + extra, at) == drv_at(input, at),
{
    let longer = input + extra;
    let comma = crate::aterm::COMMA;
    if tag_at(input, at, derive_tag()) {
        assert(longer.subrange(at, at + derive_tag().len()) =~= input.subrange(
            at,
            at + derive_tag().len(),
        ));
        lemma_outputs_read_the_same(input, extra);
        lemma_input_drvs_read_the_same(input, extra);
        lemma_strings_read_the_same(input, extra);
        lemma_pairs_read_the_same(input, extra);
        let at0 = at + derive_tag().len();
        if let Some((_, at1)) = led_list_at(output_item(), input, at0, crate::aterm::OPEN_PAREN) {
            lemma_led_list_reads_the_same(
                output_item(),
                input,
                extra,
                at0,
                crate::aterm::OPEN_PAREN,
            );
            if let Some((_, at2)) = led_list_at(input_drv_item(), input, at1, comma) {
                lemma_led_list_reads_the_same(input_drv_item(), input, extra, at1, comma);
                if let Some((_, at3)) = led_list_at(string_item(), input, at2, comma) {
                    lemma_led_list_reads_the_same(string_item(), input, extra, at2, comma);
                    if let Some((_, at4)) = led_string_at(input, at3, comma) {
                        lemma_led_string_reads_the_same(input, extra, at3, comma);
                        if let Some((_, at5)) = led_string_at(input, at4, comma) {
                            lemma_led_string_reads_the_same(input, extra, at4, comma);
                            if let Some((_, at6)) = led_list_at(string_item(), input, at5, comma) {
                                lemma_led_list_reads_the_same(
                                    string_item(),
                                    input,
                                    extra,
                                    at5,
                                    comma,
                                );
                                if let Some((_, at7)) = led_list_at(pair_item(), input, at6, comma) {
                                    lemma_led_list_reads_the_same(
                                        pair_item(),
                                        input,
                                        extra,
                                        at6,
                                        comma,
                                    );
                                    lemma_byte_reads_the_same(
                                        input,
                                        extra,
                                        at7,
                                        crate::aterm::CLOSE_PAREN,
                                    );
                                }
                            }
                        }
                    }
                }
            }
        }
    }
}

/// An input that goes on behind a derivation is no derivation.
pub proof fn lemma_trailing_bytes_fail(input: Seq<u8>, extra: Seq<u8>)
    requires
        drv_of(input) is Some,
        extra.len() > 0,
    ensures
        drv_of(input + extra) is None,
{
    lemma_drv_reads_the_same(input, extra, 0);
}

} // verus!
