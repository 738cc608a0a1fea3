//! Mathematical model of a multi-word number: the value of a little-endian
//! sequence of 64-bit words, and the lemmas the accumulator's proofs rest on.

use vstd::prelude::*;
use vstd::arithmetic::power::{pow, lemma_pow_positive};
use vstd::arithmetic::mul::{lemma_mul_is_distributive_add_other_way, lemma_mul_is_associative};

verus! {

/// The base of the positional representation: one word holds values in
/// `[0, 2^64)`.
pub open spec fn digit_base() -> nat {
    0x1_0000_0000_0000_0000
}

/// `pow` of the base, as an `int`, for stating place values.
pub open spec fn place_value(place: nat) -> int {
    pow(digit_base() as int, place)
}

/// The number represented by a word sequence, least-significant word first.
pub open spec fn digits_value(s: Seq<u64>) -> nat
    decreases s.len(),
{
    if s.len() == 0 {
        0
    } else {
        (s[0] + digit_base() * digits_value(s.skip(1))) as nat
    }
}

/// A word sequence is trimmed when it keeps no most-significant zero word.
pub open spec fn trimmed(s: Seq<u64>) -> bool {
    s.len() == 0 || s.last() != 0
}

/// Every place value is positive.
pub proof fn lemma_place_value_pos(place: nat)
    ensures
        place_value(place) >= 1,
{
    lemma_pow_positive(digit_base() as int, place);
}

/// One more place multiplies the place value by the base.
pub proof fn lemma_place_value_step(place: nat)
    ensures
        place_value(place + 1) == digit_base() * place_value(place),
{
    assert(place_value(place + 1) == digit_base() * place_value(place)) by {
        reveal_with_fuel(pow, 2);
    }
}

/// Appending a word adds its value scaled by the place it lands in.
pub proof fn lemma_value_snoc(s: Seq<u64>, x: u64)
    ensures
        digits_value(s.push(x)) == digits_value(s) + x * place_value(s.len()),
    decreases s.len(),
{
    if s.len() == 0 {
        assert(s.push(x) =~= seq![x]);
        assert(digits_value(seq![x]) == x + digit_base() * digits_value(seq![x].skip(1)));
        assert(seq![x].skip(1) =~= Seq::<u64>::empty());
        assert(place_value(0) == 1) by {
            reveal_with_fuel(pow, 1);
        }
    } else {
        assert(s.push(x).skip(1) =~= s.skip(1).push(x));
        lemma_value_snoc(s.skip(1), x);
        lemma_place_value_step((s.len() - 1) as nat);
        assert(digits_value(s.push(x)) == s[0] + digit_base() * digits_value(s.skip(1).push(x)));
        assert(digits_value(s.skip(1).push(x)) == digits_value(s.skip(1)) + x * place_value(
            (s.len() - 1) as nat,
        ));
        assert(digit_base() * (digits_value(s.skip(1)) + x * place_value((s.len() - 1) as nat))
            == digit_base() * digits_value(s.skip(1)) + digit_base() * (x * place_value(
            (s.len() - 1) as nat,
        ))) by {
            lemma_mul_is_distributive_add_other_way(
                digit_base() as int,
                digits_value(s.skip(1)) as int,
                x * place_value((s.len() - 1) as nat),
            );
        }
        assert(digit_base() * (x * place_value((s.len() - 1) as nat)) == x * (digit_base()
            * place_value((s.len() - 1) as nat))) by {
            lemma_mul_is_associative(
                digit_base() as int,
                x as int,
                place_value((s.len() - 1) as nat),
            );
            lemma_mul_is_associative(
                x as int,
                digit_base() as int,
                place_value((s.len() - 1) as nat),
            );
        }
    }
}

/// Dropping a most-significant zero word keeps the value.
pub proof fn lemma_value_drop_last_zero(s: Seq<u64>)
    requires
        s.len() > 0,
        s.last() == 0,
    ensures
        digits_value(s.drop_last()) == digits_value(s),
{
    assert(s =~= s.drop_last().push(s.last()));
    lemma_value_snoc(s.drop_last(), s.last());
}

/// The value is bounded by the place value just past the end.
pub proof fn lemma_value_upper(s: Seq<u64>)
    ensures
        digits_value(s) < place_value(s.len()),
    decreases s.len(),
{
    if s.len() == 0 {
        assert(place_value(0) == 1) by {
            reveal_with_fuel(pow, 1);
        }
    } else {
        assert(s =~= s.drop_last().push(s.last()));
        lemma_value_snoc(s.drop_last(), s.last());
        lemma_value_upper(s.drop_last());
        lemma_place_value_step((s.len() - 1) as nat);
        let p: int = place_value((s.len() - 1) as nat);
        lemma_place_value_pos((s.len() - 1) as nat);
        assert(digits_value(s) == digits_value(s.drop_last()) + s.last() * p);
        assert(s.last() * p <= (digit_base() - 1) * p) by (nonlinear_arith)
            requires
                p >= 0,
                s.last() <= digit_base() - 1,
        ;
        assert((digit_base() - 1) * p + p == digit_base() * p) by (nonlinear_arith);
    }
}

/// A trimmed, non-empty sequence reaches at least the place value of its
/// most-significant word.
pub proof fn lemma_value_lower(s: Seq<u64>)
    requires
        s.len() > 0,
        s.last() != 0,
    ensures
        digits_value(s) >= place_value((s.len() - 1) as nat),
{
    assert(s =~= s.drop_last().push(s.last()));
    lemma_value_snoc(s.drop_last(), s.last());
    let p: int = place_value((s.len() - 1) as nat);
    lemma_place_value_pos((s.len() - 1) as nat);
    assert(s.last() * p >= 1 * p) by (nonlinear_arith)
        requires
            p >= 1,
            s.last() >= 1,
    ;
}

/// Replacing one word changes the value by the difference at that place.
pub proof fn lemma_value_update(s: Seq<u64>, i: int, x: u64)
    requires
        0 <= i < s.len(),
    ensures
        digits_value(s.update(i, x)) == digits_value(s) + (x - s[i]) * place_value(i as nat),
    decreases s.len(),
{
    if i == 0 {
        assert(s.update(0, x).skip(1) =~= s.skip(1));
        assert(place_value(0) == 1) by {
            reveal_with_fuel(pow, 1);
        }
    } else {
        assert(s.update(i, x).skip(1) =~= s.skip(1).update(i - 1, x));
        lemma_value_update(s.skip(1), i - 1, x);
        lemma_place_value_step((i - 1) as nat);
        let p: int = place_value((i - 1) as nat);
        assert(digit_base() * (digits_value(s.skip(1)) + (x - s[i]) * p) == digit_base()
            * digits_value(s.skip(1)) + (x - s[i]) * (digit_base() * p)) by (nonlinear_arith);
    }
}

} // verus!
