//! Putting the hash together.
use vstd::prelude::*;

use crate::base83;
use crate::base83::{decoded, encoded, is_symbol, symbol};
use crate::quantize;
use crate::quantize::{ac_value_of, dc_value_of, max_digit_of, size_flag_of};
use crate::Component;

verus! {

/// The text of the frequency terms: two digits for each, in their order.
pub open spec fn ac_text(ac: Seq<(i64, i64, i64)>) -> Seq<char>
    decreases ac.len(),
{
    if ac.len() == 0 {
        Seq::empty()
    } else {
        ac_text(ac.drop_last()) + encoded(ac_value_of(ac.last()) as nat, 2)
    }
}

/// The two header symbols: the size flag and the digit of the largest
/// frequency term, each shown by its digit at place 1.
pub open spec fn header_of(component: Component, max_scaled: i64, ac_len: nat) -> Seq<char> {
    seq![
        symbol((size_flag_of(component) / 83) % 83),
        symbol((max_digit_of(max_scaled as int, ac_len) / 83) % 83),
    ]
}

/// The hash: the header, four digits for the average colour, then the
/// frequency terms.
pub open spec fn hash_of(
    component: Component,
    max_scaled: i64,
    dc: (u8, u8, u8),
    ac: Seq<(i64, i64, i64)>,
) -> Seq<char> {
    header_of(component, max_scaled, ac.len()) + encoded(dc_value_of(dc) as nat, 4) + ac_text(ac)
}

/// The text of `n` frequency terms has `2 * n` symbols.
pub proof fn lemma_ac_text(ac: Seq<(i64, i64, i64)>)
    ensures
        ac_text(ac).len() == 2 * ac.len(),
        forall|i: int| 0 <= i < ac_text(ac).len() ==> is_symbol(#[trigger] ac_text(ac)[i]),
    decreases ac.len(),
{
    if ac.len() > 0 {
        lemma_ac_text(ac.drop_last());
        base83::lemma_encoded_symbols(ac_value_of(ac.last()) as nat, 2);
    }
}

/// The two digits of the `k`-th frequency term stand at `2 * k` of the text of
/// the terms.
pub proof fn lemma_ac_text_at(ac: Seq<(i64, i64, i64)>, k: int)
    requires
        0 <= k < ac.len(),
    ensures
        ac_text(ac).subrange(2 * k, 2 * k + 2) == encoded(ac_value_of(ac[k]) as nat, 2),
    decreases ac.len(),
{
    lemma_ac_text(ac);
    lemma_ac_text(ac.drop_last());
    if k == ac.len() - 1 {
        assert(ac_text(ac).subrange(2 * k, 2 * k + 2) =~= encoded(ac_value_of(ac[k]) as nat, 2));
    } else {
        lemma_ac_text_at(ac.drop_last(), k);
        assert(ac_text(ac).subrange(2 * k, 2 * k + 2) =~= ac_text(ac.drop_last()).subrange(
            2 * k,
            2 * k + 2,
        ));
    }
}

/// Where the parts of a hash stand: the four digits of the average colour
/// after the two header symbols, then two digits for each frequency term, in
/// the order of the terms.
pub proof fn lemma_hash_layout(
    component: Component,
    max_scaled: i64,
    dc: (u8, u8, u8),
    ac: Seq<(i64, i64, i64)>,
    k: int,
)
    requires
        0 <= k < ac.len(),
    ensures
        hash_of(component, max_scaled, dc, ac).subrange(0, 2) == header_of(
            component,
            max_scaled,
            ac.len(),
        ),
        hash_of(component, max_scaled, dc, ac).subrange(2, 6) == encoded(
            dc_value_of(dc) as nat,
            4,
        ),
        hash_of(component, max_scaled, dc, ac).subrange(6 + 2 * k, 8 + 2 * k) == encoded(
            ac_value_of(ac[k]) as nat,
            2,
        ),
{
    let hash = hash_of(component, max_scaled, dc, ac);
    lemma_ac_text(ac);
    lemma_ac_text_at(ac, k);
    assert(hash.subrange(0, 2) =~= header_of(component, max_scaled, ac.len()));
    assert(hash.subrange(2, 6) =~= encoded(dc_value_of(dc) as nat, 4));
    assert(hash.subrange(6 + 2 * k, 8 + 2 * k) =~= ac_text(ac).subrange(2 * k, 2 * k + 2));
}

/// The hash of a component with `x` by `y` frequencies has
/// `6 + 2 * (x * y - 1)` symbols.
pub proof fn lemma_hash_len(
    component: Component,
    max_scaled: i64,
    dc: (u8, u8, u8),
    ac: Seq<(i64, i64, i64)>,
)
    requires
        component.wf(),
        ac.len() == component.count() - 1,
    ensures
        hash_of(component, max_scaled, dc, ac).len() == 6 + 2 * (component@.0 * component@.1 - 1),
{
    lemma_ac_text(ac);
}

/// Every character of a hash is one of the 83 symbols.
pub proof fn lemma_hash_symbols(
    component: Component,
    max_scaled: i64,
    dc: (u8, u8, u8),
    ac: Seq<(i64, i64, i64)>,
)
    requires
        component.wf(),
    ensures
        forall|i: int|
            0 <= i < hash_of(component, max_scaled, dc, ac).len() ==> is_symbol(
                #[trigger] hash_of(component, max_scaled, dc, ac)[i],
            ),
{
    let hash = hash_of(component, max_scaled, dc, ac);
    lemma_ac_text(ac);
    base83::lemma_encoded_symbols(dc_value_of(dc) as nat, 4);
    lemma_header_digits(component, max_scaled, ac.len());
    assert forall|i: int| 0 <= i < hash.len() implies is_symbol(#[trigger] hash[i]) by {
        if i < 2 {
            assert(hash[i] == header_of(component, max_scaled, ac.len())[i]);
            assert(symbol(0) == hash[i]);
        } else if i < 6 {
            assert(hash[i] == encoded(dc_value_of(dc) as nat, 4)[i - 2]);
        } else {
            assert(hash[i] == ac_text(ac)[i - 6]);
        }
    }
}

/// The size flag lies in `0..=80` and the digit of the largest frequency term
/// in `0..=82`. Both are below 83, so their digit at place 1 is 0 and the
/// header of every hash is the symbol of 0, twice.
pub proof fn lemma_header_digits(component: Component, max_scaled: i64, ac_len: nat)
    requires
        component.wf(),
    ensures
        0 <= size_flag_of(component) <= 80,
        0 <= max_digit_of(max_scaled as int, ac_len) <= 82,
        header_of(component, max_scaled, ac_len) == seq![symbol(0), symbol(0)],
{
}

/// The four symbols after the header, read back as a base-83 number, give the
/// packed average colour, and its three bytes are the bytes that were encoded.
pub proof fn lemma_dc_reads_back(
    component: Component,
    max_scaled: i64,
    dc: (u8, u8, u8),
    ac: Seq<(i64, i64, i64)>,
)
    ensures
        decoded(hash_of(component, max_scaled, dc, ac).subrange(2, 6)) == dc_value_of(dc),
        (dc_value_of(dc) / 65536) % 256 == dc.0,
        (dc_value_of(dc) / 256) % 256 == dc.1,
        dc_value_of(dc) % 256 == dc.2,
{
    let hash = hash_of(component, max_scaled, dc, ac);
    assert(hash.subrange(2, 6) =~= encoded(dc_value_of(dc) as nat, 4));
    assert(vstd::arithmetic::power::pow(83, 4) == 47458321) by {
        reveal_with_fuel(vstd::arithmetic::power::pow, 5);
    }
    base83::lemma_decoded_encoded(dc_value_of(dc) as nat, 4);
}

/// The hash is a function of what is encoded: the same component, scaled
/// maximum, average colour and frequency terms give the same text.
pub proof fn lemma_hash_deterministic(
    component: Component,
    max_scaled: i64,
    dc: (u8, u8, u8),
    first: Vec<(i64, i64, i64)>,
    second: Vec<(i64, i64, i64)>,
)
    requires
        first@ == second@,
    ensures
        hash_of(component, max_scaled, dc, first@) == hash_of(component, max_scaled, dc, second@),
{
}

/// The blur hash of an image, from its quantizable measurements: `dc` is the
/// average colour as three encoded bytes, `ac` holds for each frequency after
/// `(0, 0)`, in the order of `Component::frequencies`, the scaled values of its
/// three channels, and `max_scaled` is the scaled value of the largest
/// channel among them (it is not looked at where `ac` is empty).
pub fn encode(component: Component, max_scaled: i64, dc: (u8, u8, u8), ac: &Vec<(i64, i64, i64)>) -> (hash: String)
    requires
        ac@.len() == component.count() - 1,
    ensures
        hash@ == hash_of(component, max_scaled, dc, ac@),
        hash@.len() == 6 + 2 * (component@.0 * component@.1 - 1),
        forall|i: int| 0 <= i < hash@.len() ==> is_symbol(#[trigger] hash@[i]),
{
    let mut hash = String::new();
    let flag = quantize::size_flag(component);
    hash.push(base83::encode_char(flag));
    let max_digit: usize = if ac.len() == 0 {
        0
    } else {
        quantize::quantize_max(max_scaled)
    };
    hash.push(base83::encode_char(max_digit));
    assert(hash@ =~= header_of(component, max_scaled, ac@.len()));
    base83::encode_into(&mut hash, quantize::encode_dc(dc), 4);
    let ghost head = hash@;
    let mut i: usize = 0;
    while i < ac.len()
        invariant
            i <= ac@.len(),
            hash@ == head + ac_text(ac@.take(i as int)),
        decreases ac@.len() - i,
    {
        base83::encode_into(&mut hash, quantize::encode_ac(ac[i]), 2);
        i = i + 1;
        proof {
            assert(ac@.take(i as int).drop_last() =~= ac@.take(i - 1));
            assert(hash@ =~= head + ac_text(ac@.take(i as int)));
        }
    }
    proof {
        assert(ac@.take(ac@.len() as int) =~= ac@);
        assert(hash@ =~= hash_of(component, max_scaled, dc, ac@));
        lemma_hash_len(component, max_scaled, dc, ac@);
        lemma_hash_symbols(component, max_scaled, dc, ac@);
    }
    hash
}

} // verus!
