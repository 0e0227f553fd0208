//! What trimming, prefixes, digits and object names are.
use vstd::arithmetic::power::{lemma_pow0, lemma_pow_positive, pow};
use vstd::prelude::*;

use crate::hex::{all_hex, hex_digit, is_sha, sha_bytes};
use crate::text::{after_prefix, decimal, trim_end, trimmed, white_space};

verus! {

/// Nothing is left of white space, and text within white space is left as it stands.
pub proof fn trimming_leaves_the_text(before: Seq<char>, text: Seq<char>, after: Seq<char>)
    requires
        forall|i: int| 0 <= i < before.len() ==> white_space(#[trigger] before[i]),
        forall|i: int| 0 <= i < after.len() ==> white_space(#[trigger] after[i]),
        text.len() > 0 ==> !white_space(text[0]) && !white_space(text.last()),
    ensures
        trimmed(before + text + after) == text,
    decreases before.len(),
{
    if text.len() > 0 {
        crate::text::trimming_takes_away(before, text, after);
    } else {
        let all = before + text + after;
        assert forall|i: int| 0 <= i < all.len() implies white_space(#[trigger] all[i]) by {
            if i < before.len() {
                assert(all[i] == before[i]);
            } else {
                assert(all[i] == after[i - before.len()]);
            }
        }
        lemma_all_white(all);
        assert(text == Seq::<char>::empty());
    }
}

proof fn lemma_all_white(all: Seq<char>)
    requires
        forall|i: int| 0 <= i < all.len() ==> white_space(#[trigger] all[i]),
    ensures
        trimmed(all) == Seq::<char>::empty(),
    decreases all.len(),
{
    if all.len() > 0 {
        let rest = all.drop_first();
        assert(white_space(all[0]));
        assert forall|i: int| 0 <= i < rest.len() implies white_space(#[trigger] rest[i]) by {
            assert(rest[i] == all[i + 1]);
        }
        lemma_all_white(rest);
    } else {
        assert(trim_end(all) == all);
    }
}

/// Characters that separate words are white space, and those that words are made of are not.
pub proof fn white_space_separates_words(c: char)
    ensures
        c == ' ' || c == '\t' || c == '\n' || c == '\r' ==> white_space(c),
        '!' <= c <= '~' ==> !white_space(c),
{
}

/// What follows a prefix is the rest of the text, and only a text that starts with the prefix
/// has such a rest.
pub proof fn prefix_and_rest_are_the_text(text: Seq<char>, prefix: Seq<char>, rest: Seq<char>)
    ensures
        after_prefix(prefix + rest, prefix) == Some(rest),
        after_prefix(text, prefix) == Some(rest) ==> text == prefix + rest,
        after_prefix(text, prefix) is None ==> text != prefix + rest,
{
    assert(prefix.is_prefix_of(prefix + rest));
    assert((prefix + rest).skip(prefix.len() as int) == rest);
}

/// The decimal digits of a number: the one that stands `k` places before the last tells how
/// many times the number holds that power of ten, modulo ten, and the digits are all of it.
pub proof fn digits_of_a_number(n: nat, k: nat)
    ensures
        decimal(n).len() >= 1,
        n < pow(10, decimal(n).len()),
        decimal(n).len() > 1 ==> pow(10, (decimal(n).len() - 1) as nat) <= n,
        k < decimal(n).len() ==> decimal(n)[decimal(n).len() - 1 - k] as int == '0' as int + (n
            as int / pow(10, k)) % 10,
    decreases n,
{
    lemma_pow0(10);
    reveal_with_fuel(pow, 3);
    if n >= 10 {
        let start = decimal(n / 10);
        if k > 0 {
            digits_of_a_number(n / 10, (k - 1) as nat);
            let w = pow(10, (k - 1) as nat);
            lemma_pow_positive(10, (k - 1) as nat);
            vstd::arithmetic::div_mod::lemma_div_denominator(n as int, 10, w);
            assert(pow(10, k) == 10 * w);
            if k < decimal(n).len() {
                assert(decimal(n)[decimal(n).len() - 1 - k] == start[start.len() - 1 - (k - 1)]);
            }
        } else {
            digits_of_a_number(n / 10, 0);
        }
        let w = pow(10, start.len());
        assert(pow(10, decimal(n).len()) == 10 * w);
    }
}

/// Object names are forty hexadecimal digits, and nothing else is one.
pub proof fn object_names_are_forty_digits(text: Seq<char>)
    ensures
        is_sha(text) == (text.len() == 40 && forall|i: int|
            0 <= i < 40 ==> '0' <= #[trigger] text[i] <= '9' || 'a' <= text[i] <= 'f' || 'A'
                <= text[i] <= 'F'),
{
    if is_sha(text) {
        assert forall|i: int| 0 <= i < 40 implies '0' <= #[trigger] text[i] <= '9' || 'a' <= text[i]
            <= 'f' || 'A' <= text[i] <= 'F' by {
            assert(hex_digit(text[i]));
        }
    } else if text.len() == 40 {
        assert(!all_hex(text));
        let i = choose|i: int| 0 <= i < text.len() && !hex_digit(#[trigger] text[i]);
        assert(!('0' <= text[i] <= '9' || 'a' <= text[i] <= 'f' || 'A' <= text[i] <= 'F'));
    }
}

/// Each byte of an object's name is spelled by two digits, the higher one first; a digit from
/// `a` on stands for ten and more, in either case.
pub proof fn two_digits_spell_a_byte(text: Seq<char>, i: int, high: int, low: int)
    requires
        is_sha(text),
        0 <= i < 20,
        0 <= high < 16,
        0 <= low < 16,
        text[2 * i] as int == if high < 10 {
            '0' as int + high
        } else {
            'a' as int + high - 10
        } || (high >= 10 && text[2 * i] as int == 'A' as int + high - 10),
        text[2 * i + 1] as int == if low < 10 {
            '0' as int + low
        } else {
            'a' as int + low - 10
        } || (low >= 10 && text[2 * i + 1] as int == 'A' as int + low - 10),
    ensures
        sha_bytes(text).len() == 20,
        sha_bytes(text)[i] == 16 * high + low,
{
}

} // verus!
