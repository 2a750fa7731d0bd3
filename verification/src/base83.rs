//! Base-83 text: a positional numeral system over 83 printable ASCII symbols.
//!
//! A number is written most significant digit first. The digit at place `p`
//! (place 0 is the least significant) of `value` is `(value / 83^p) % 83`, and
//! each digit is shown as the symbol at that index of the alphabet.
use vstd::arithmetic::div_mod::*;
use vstd::arithmetic::power::*;
use vstd::prelude::*;

verus! {

/// The number of symbols, and so the base of the numeral system.
pub const ALPHABET_SIZE: usize = 83;

/// The symbols in index order: index 0 is `'0'`, index 82 is `'~'`.
pub open spec fn alphabet() -> Seq<char> {
    "0123456789ABCDEFGHIJKLMNOPQRSTUVWXYZabcdefghijklmnopqrstuvwxyz#$%*+,-.:;=?@[]^_{|}~"@
}

/// The symbol that shows the digit `d`.
pub open spec fn symbol(d: int) -> char
    recommends
        0 <= d < 83,
{
    alphabet()[d]
}

/// The base-83 digit of `value` at `place`, counted from the least significant.
pub open spec fn digit(value: nat, place: nat) -> int {
    (value as int / pow(83, place)) % 83
}

/// `value` written with exactly `length` digits, most significant first.
/// Digits above the `length`-th are dropped: the text wraps modulo `83^length`.
pub open spec fn encoded(value: nat, length: nat) -> Seq<char> {
    Seq::new(length, |i: int| symbol(digit(value, (length - 1 - i) as nat)))
}

/// Whether `c` is one of the 83 symbols.
pub open spec fn is_symbol(c: char) -> bool {
    exists|d: int| 0 <= d < 83 && symbol(d) == c
}

/// `String::push` of std appends one character to the end of the string and
/// leaves what was there before in place.
pub assume_specification[ String::push ](s: &mut String, ch: char)
    ensures
        final(s)@ == old(s)@.push(ch),
;

/// The alphabet has 83 symbols.
pub proof fn lemma_alphabet_len()
    ensures
        alphabet().len() == 83,
{
    reveal_strlit(
        "0123456789ABCDEFGHIJKLMNOPQRSTUVWXYZabcdefghijklmnopqrstuvwxyz#$%*+,-.:;=?@[]^_{|}~",
    );
}

/// Every digit lies in `0..83`.
pub proof fn lemma_digit_range(value: nat, place: nat)
    ensures
        0 <= digit(value, place) < 83,
{
    lemma_pow_positive(83, place);
    lemma_mod_bound(value as int / pow(83, place), 83);
}

/// Dividing by 83 moves every digit one place down.
pub proof fn lemma_digit_shift(value: nat, place: nat)
    ensures
        value as int / pow(83, place) / 83 == value as int / pow(83, place + 1),
        digit(value / 83, place) == digit(value, place + 1),
{
    lemma_pow_positive(83, place);
    lemma_pow1(83);
    lemma_pow_adds(83, place, 1);
    lemma_pow_adds(83, 1, place);
    lemma_div_denominator(value as int, pow(83, place), 83);
    lemma_div_denominator(value as int, 83, pow(83, place));
}

/// A number below `83^place` has digit 0 at `place` and at every place above.
pub proof fn lemma_high_digit_zero(value: nat, low: nat, place: nat)
    requires
        low <= place,
        value as int / pow(83, low) == 0,
    ensures
        value as int / pow(83, place) == 0,
        digit(value, place) == 0,
{
    lemma_pow_positive(83, low);
    lemma_pow_positive(83, place);
    lemma_fundamental_div_mod(value as int, pow(83, low));
    lemma_mod_bound(value as int, pow(83, low));
    lemma_pow_increases(83, low, place);
    lemma_basic_div(value as int, pow(83, place));
}

/// The text of a number has the asked length and holds symbols only.
pub proof fn lemma_encoded_symbols(value: nat, length: nat)
    ensures
        encoded(value, length).len() == length,
        forall|i: int| 0 <= i < length ==> is_symbol(#[trigger] encoded(value, length)[i]),
{
    assert forall|i: int| 0 <= i < length implies is_symbol(
        #[trigger] encoded(value, length)[i],
    ) by {
        let d = digit(value, (length - 1 - i) as nat);
        lemma_digit_range(value, (length - 1 - i) as nat);
        assert(symbol(d) == encoded(value, length)[i]);
    }
}

/// The digit that `c` shows, where `c` is a symbol.
pub open spec fn digit_of(c: char) -> int {
    choose|d: int| 0 <= d < 83 && symbol(d) == c
}

/// The number that a base-83 text shows, most significant digit first.
pub open spec fn decoded(text: Seq<char>) -> int
    decreases text.len(),
{
    if text.len() == 0 {
        0
    } else {
        decoded(text.drop_last()) * 83 + digit_of(text.last())
    }
}

/// No two digits share a symbol.
pub proof fn lemma_symbols_distinct()
    ensures
        forall|a: int, b: int|
            0 <= a < 83 && 0 <= b < 83 && a != b ==> #[trigger] symbol(a) != #[trigger] symbol(b),
{
    reveal_strlit(
        "0123456789ABCDEFGHIJKLMNOPQRSTUVWXYZabcdefghijklmnopqrstuvwxyz#$%*+,-.:;=?@[]^_{|}~",
    );
}

/// A symbol shows the digit at whose index it stands.
pub proof fn lemma_digit_of_symbol(d: int)
    requires
        0 <= d < 83,
    ensures
        digit_of(symbol(d)) == d,
{
    lemma_symbols_distinct();
}

/// Reading back what was written: a number below `83^length`, written with
/// `length` digits, decodes to itself.
pub proof fn lemma_decoded_encoded(value: nat, length: nat)
    requires
        value < pow(83, length),
    ensures
        decoded(encoded(value, length)) == value,
    decreases length,
{
    let text = encoded(value, length);
    if length == 0 {
        lemma_pow0(83);
    } else {
        let rest = (length - 1) as nat;
        lemma_pow0(83);
        lemma_pow1(83);
        lemma_pow_adds(83, 1, rest);
        lemma_pow_positive(83, rest);
        lemma_fundamental_div_mod(value as int, 83);
        lemma_mod_bound(value as int, 83);
        assert(value / 83 < pow(83, rest)) by (nonlinear_arith)
            requires
                value < 83 * pow(83, rest),
                value == 83 * (value as int / 83) + value as int % 83,
                0 <= value as int % 83,
                value as int / 83 == (value / 83) as int,
        ;
        assert(text.drop_last() =~= encoded(value / 83, rest)) by {
            assert forall|i: int| 0 <= i < rest implies text.drop_last()[i] == encoded(
                value / 83,
                rest,
            )[i] by {
                lemma_digit_shift(value, (rest - 1 - i) as nat);
            }
        }
        assert(text.last() == symbol(value as int % 83));
        lemma_digit_of_symbol(value as int % 83);
        lemma_decoded_encoded(value / 83, rest);
    }
}

/// The symbol at `index` of the alphabet.
fn symbol_at(index: usize) -> (c: char)
    requires
        index < 83,
    ensures
        c == symbol(index as int),
{
    proof {
        lemma_alphabet_len();
    }
    "0123456789ABCDEFGHIJKLMNOPQRSTUVWXYZabcdefghijklmnopqrstuvwxyz#$%*+,-.:;=?@[]^_{|}~".get_char(
        index,
    )
}

/// The digit of `value` at `place`. No power of 83 is formed, so no `place` is
/// too high: once the quotient is 0 every higher digit is 0.
fn digit_at(value: usize, place: usize) -> (d: usize)
    ensures
        d == digit(value as nat, place as nat),
        d < 83,
{
    let mut quotient: usize = value;
    let mut k: usize = 0;
    proof {
        lemma_pow0(83);
    }
    while k < place && quotient > 0
        invariant
            k <= place,
            quotient as int == value as int / pow(83, k as nat),
        decreases place - k,
    {
        proof {
            lemma_digit_shift(value as nat, k as nat);
        }
        quotient = quotient / 83;
        k = k + 1;
    }
    proof {
        if k < place {
            lemma_high_digit_zero(value as nat, k as nat, place as nat);
        }
        lemma_digit_range(value as nat, place as nat);
    }
    quotient % 83
}

/// Appends `value`, written with exactly `length` base-83 digits, to `dest`.
pub fn encode_into(dest: &mut String, value: usize, length: usize)
    ensures
        final(dest)@ == old(dest)@ + encoded(value as nat, length as nat),
{
    let mut i: usize = 0;
    while i < length
        invariant
            i <= length,
            dest@ == old(dest)@ + encoded(value as nat, length as nat).take(i as int),
        decreases length - i,
    {
        let index = digit_at(value, length - 1 - i);
        dest.push(symbol_at(index));
        i = i + 1;
        assert(dest@ =~= old(dest)@ + encoded(value as nat, length as nat).take(i as int));
    }
    assert(encoded(value as nat, length as nat).take(length as int) =~= encoded(
        value as nat,
        length as nat,
    ));
}

/// `value` written with exactly `length` base-83 digits.
pub fn encode(value: usize, length: usize) -> (text: String)
    ensures
        text@ == encoded(value as nat, length as nat),
{
    let mut text = String::new();
    encode_into(&mut text, value, length);
    assert(text@ =~= encoded(value as nat, length as nat));
    text
}

/// The symbol of the digit of `value` at place 1, `(value / 83) % 83`: the
/// lowest digit is passed over, so every `value` below 83 gives `'0'`.
pub fn encode_char(value: usize) -> (c: char)
    ensures
        c == symbol((value as int / 83) % 83),
        c == symbol(digit(value as nat, 1)),
        is_symbol(c),
{
    proof {
        lemma_pow1(83);
        lemma_digit_range(value as nat, 1);
    }
    let index = (value / ALPHABET_SIZE) % 83;
    symbol_at(index)
}

} // verus!
