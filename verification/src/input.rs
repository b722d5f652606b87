//! Numbers as a player types them: whatever is typed, the digits in it are
//! read as one number.

use vstd::prelude::*;
use vstd::string::StrSliceExecFns;

verus! {

/// Whether `char::is_numeric` holds of `c`: whether Unicode counts the
/// character among the numbers (digits, letter numbers and other numbers of
/// any script).
pub uninterp spec fn is_numeric(c: char) -> bool;

/// `char::is_numeric` of the standard library. The contract only gives its
/// answer the name `is_numeric`; which characters Unicode counts among the
/// numbers is not stated here.
#[verifier::external_body]
fn char_is_numeric(c: char) -> (b: bool)
    ensures
        b == is_numeric(c),
{
    c.is_numeric()
}

/// The characters of `text` that are numeric, in their order.
pub open spec fn numeric_chars(text: Seq<char>) -> Seq<char>
    decreases text.len(),
{
    if text.len() == 0 {
        Seq::empty()
    } else if is_numeric(text.last()) {
        numeric_chars(text.drop_last()).push(text.last())
    } else {
        numeric_chars(text.drop_last())
    }
}

/// `c` is one of the ten digits `0` to `9`.
pub open spec fn is_digit(c: char) -> bool {
    '0' <= c <= '9'
}

/// Every character of `text` is one of the ten digits.
pub open spec fn all_digits(text: Seq<char>) -> bool {
    forall|i: int| 0 <= i < text.len() ==> is_digit(#[trigger] text[i])
}

/// The number that the digits of `digits` spell in base ten.
pub open spec fn decimal(digits: Seq<char>) -> int
    decreases digits.len(),
{
    if digits.len() == 0 {
        0
    } else {
        decimal(digits.drop_last()) * 10 + (digits.last() as int - '0' as int)
    }
}

/// The number that the characters `kept` stand for: the number that they
/// spell, where there is at least one, all of them are among the ten digits
/// and the number fits; zero otherwise.
pub open spec fn spelled(kept: Seq<char>) -> int {
    if kept.len() > 0 && all_digits(kept) && decimal(kept) <= i32::MAX {
        decimal(kept)
    } else {
        0
    }
}

/// The number that `text` stands for: the number that its numeric
/// characters stand for.
pub open spec fn parsed(text: Seq<char>) -> int {
    spelled(numeric_chars(text))
}

/// Digits spell a number that is not negative.
pub proof fn lemma_decimal_nonnegative(digits: Seq<char>)
    requires
        all_digits(digits),
    ensures
        decimal(digits) >= 0,
    decreases digits.len(),
{
    if digits.len() > 0 {
        assert(is_digit(digits[digits.len() - 1]));
        assert forall|i: int| 0 <= i < digits.drop_last().len() implies is_digit(
            #[trigger] digits.drop_last()[i],
        ) by {
            assert(is_digit(digits[i]));
        }
        lemma_decimal_nonnegative(digits.drop_last());
    }
}

/// Digits before the last one of a text are digits of the text.
pub proof fn lemma_all_digits_take(text: Seq<char>, k: int)
    requires
        0 <= k <= text.len(),
    ensures
        all_digits(text) ==> all_digits(text.take(k)),
        k < text.len() && all_digits(text.take(k)) && is_digit(text[k]) ==> all_digits(
            text.take(k + 1),
        ),
        k < text.len() && !is_digit(text[k]) ==> !all_digits(text.take(k + 1)),
        k < text.len() && !all_digits(text.take(k)) ==> !all_digits(text.take(k + 1)),
{
    if all_digits(text) {
        assert forall|i: int| 0 <= i < text.take(k).len() implies is_digit(
            #[trigger] text.take(k)[i],
        ) by {
            assert(is_digit(text[i]));
        }
    }
    if k < text.len() {
        let more = text.take(k + 1);
        if all_digits(text.take(k)) && is_digit(text[k]) {
            assert forall|i: int| 0 <= i < more.len() implies is_digit(#[trigger] more[i]) by {
                if i < k {
                    assert(is_digit(text.take(k)[i]));
                }
            }
        }
        if !is_digit(text[k]) {
            assert(!is_digit(more[k]));
        }
        if !all_digits(text.take(k)) {
            let i = choose|i: int| 0 <= i < text.take(k).len() && !is_digit(text.take(k)[i]);
            assert(!is_digit(more[i]));
        }
    }
}

/// The number that the characters `kept` stand for: what the ten digits
/// among them spell in base ten. No character, a character that is not one
/// of the ten digits, or digits that spell more than `i32::MAX` give zero.
pub fn digits_value(kept: &[char]) -> (n: i32)
    ensures
        n == spelled(kept@),
{
    let len = kept.len();
    let mut value: i32 = 0;
    let mut plain = true;
    let mut over = false;
    let mut i: usize = 0;
    while i < len
        invariant
            0 <= i <= len,
            len == kept@.len(),
            plain == all_digits(kept@.take(i as int)),
            plain ==> over == (decimal(kept@.take(i as int)) > i32::MAX),
            plain && !over ==> value == decimal(kept@.take(i as int)),
            value >= 0,
        decreases len - i,
    {
        let c = kept[i];
        proof {
            lemma_all_digits_take(kept@, i as int);
            assert(kept@.take(i + 1).drop_last() =~= kept@.take(i as int));
            assert(kept@.take(i + 1).last() == c);
            if plain {
                lemma_decimal_nonnegative(kept@.take(i as int));
            }
        }
        if plain {
            if '0' <= c && c <= '9' {
                if !over {
                    let digit: i64 = (c as u32 - '0' as u32) as i64;
                    let next: i64 = (value as i64) * 10 + digit;
                    if next > i32::MAX as i64 {
                        over = true;
                    } else {
                        value = next as i32;
                    }
                }
            } else {
                plain = false;
            }
        }
        i += 1;
    }
    proof {
        assert(kept@.take(i as int) =~= kept@);
    }
    if len > 0 && plain && !over {
        value
    } else {
        0
    }
}

/// The number that the digits in `input` spell. Every character that is not
/// numeric is passed over: a sign, a point, a letter. What is left is read
/// by `digits_value`: text without a digit, with a numeric character that
/// is not one of the ten digits, or with digits that spell more than
/// `i32::MAX` gives zero.
pub fn parse_val(input: &str) -> (n: i32)
    ensures
        n == parsed(input@),
{
    let len = input.unicode_len();
    let mut kept: Vec<char> = Vec::new();
    let mut i: usize = 0;
    while i < len
        invariant
            0 <= i <= len,
            len == input@.len(),
            kept@ == numeric_chars(input@.take(i as int)),
        decreases len - i,
    {
        let c = input.get_char(i);
        proof {
            assert(input@.take(i + 1).drop_last() =~= input@.take(i as int));
            assert(input@.take(i + 1).last() == c);
        }
        if char_is_numeric(c) {
            kept.push(c);
        }
        i += 1;
    }
    proof {
        assert(input@.take(i as int) =~= input@);
    }
    digits_value(kept.as_slice())
}

} // verus!
