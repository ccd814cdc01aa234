//! Positional notation: the value of a digit string in some radix, the
//! canonical digits of a number, and the conversion from one radix to
//! another on which base-58 text rests.

use vstd::prelude::*;

verus! {

/// Whether every digit is below the radix.
pub open spec fn digits_below(digits: Seq<u8>, radix: nat) -> bool {
    forall|i: int| 0 <= i < digits.len() ==> (#[trigger] digits[i] as nat) < radix
}

/// The number that `digits` write in `radix`, most significant digit first.
pub open spec fn be_value(digits: Seq<u8>, radix: nat) -> nat
    decreases digits.len(),
{
    if digits.len() == 0 {
        0
    } else {
        be_value(digits.drop_last(), radix) * radix + digits.last() as nat
    }
}

/// The digits of `n` in `radix`, most significant first and without a
/// leading zero; zero has no digit.
pub open spec fn be_digits(n: nat, radix: nat) -> Seq<u8>
    decreases n,
    via be_digits_terminates
{
    if n == 0 || radix < 2 {
        Seq::empty()
    } else {
        be_digits(n / radix, radix).push((n % radix) as u8)
    }
}

/// The number that `digits` write in `radix`, least significant digit first.
pub open spec fn le_value(digits: Seq<u8>, radix: nat) -> nat
    decreases digits.len(),
{
    if digits.len() == 0 {
        0
    } else {
        digits[0] as nat + radix * le_value(digits.drop_first(), radix)
    }
}

/// The digits of `n` in `radix`, least significant first and without a
/// trailing zero; zero has no digit.
pub open spec fn le_digits(n: nat, radix: nat) -> Seq<u8>
    decreases n,
    via le_digits_terminates
{
    if n == 0 || radix < 2 {
        Seq::empty()
    } else {
        seq![(n % radix) as u8] + le_digits(n / radix, radix)
    }
}

/// Least significant first, the digits are below the radix and the most
/// significant one is not zero.
pub open spec fn canonical(digits: Seq<u8>, radix: nat) -> bool {
    digits_below(digits, radix) && (digits.len() > 0 ==> digits.last() != 0)
}

/// How many elements at the front of `s` equal `x`.
pub open spec fn leading_count<T>(s: Seq<T>, x: T) -> nat
    decreases s.len(),
{
    if s.len() > 0 && s[0] == x {
        1 + leading_count(s.drop_first(), x)
    } else {
        0
    }
}

/// The digits of `digits * from + carry`, given the digits of a number least
/// significant first in radix `to`.
pub open spec fn scaled(digits: Seq<u8>, carry: nat, from: nat, to: nat) -> Seq<u8>
    decreases digits.len(),
{
    if digits.len() == 0 {
        le_digits(carry, to)
    } else {
        let sum = carry + digits[0] as nat * from;
        seq![(sum % to) as u8] + scaled(digits.drop_first(), sum / to, from, to)
    }
}

#[via_fn]
proof fn be_digits_terminates(n: nat, radix: nat) {
    if n != 0 && radix >= 2 {
        lemma_quotient_smaller(n, radix);
    }
}

#[via_fn]
proof fn le_digits_terminates(n: nat, radix: nat) {
    if n != 0 && radix >= 2 {
        lemma_quotient_smaller(n, radix);
    }
}

proof fn lemma_quotient_smaller(n: nat, radix: nat)
    requires
        n > 0,
        radix >= 2,
    ensures
        n / radix < n,
{
    lemma_div_mod(n, radix);
    assert(n / radix < n) by (nonlinear_arith)
        requires
            n == radix * (n / radix) + n % radix,
            radix >= 2,
            n > 0,
    ;
}

proof fn lemma_div_mod(x: nat, d: nat)
    requires
        d > 0,
    ensures
        x == d * (x / d) + x % d,
        x % d < d,
        x / d <= x,
{
    vstd::arithmetic::div_mod::lemma_fundamental_div_mod(x as int, d as int);
    vstd::arithmetic::div_mod::lemma_mod_bound(x as int, d as int);
    vstd::arithmetic::div_mod::lemma_div_nonincreasing(x as int, d as int);
    vstd::arithmetic::div_mod::lemma_div_pos_is_pos(x as int, d as int);
}

proof fn lemma_div_mod_of_sum(low: nat, high: nat, d: nat)
    requires
        d > 0,
        low < d,
    ensures
        (low + d * high) % d == low,
        (low + d * high) / d == high,
{
    assert(low + d * high == high * d + low) by (nonlinear_arith);
    vstd::arithmetic::div_mod::lemma_fundamental_div_mod_converse(
        (low + d * high) as int,
        d as int,
        high as int,
        low as int,
    );
}

proof fn lemma_quotient_bound(sum: nat, from: nat, to: nat)
    requires
        to >= 2,
        sum < from * to,
    ensures
        sum / to < from,
{
    lemma_div_mod(sum, to);
    if sum / to >= from {
        assert(to * (sum / to) >= to * from) by (nonlinear_arith)
            requires
                sum / to >= from,
                to >= 2,
        ;
        assert(to * from == from * to) by (nonlinear_arith);
    }
}

/// The canonical digits of a number write that number, and are canonical.
pub proof fn lemma_le_digits(n: nat, radix: nat)
    requires
        2 <= radix <= 256,
    ensures
        le_value(le_digits(n, radix), radix) == n,
        canonical(le_digits(n, radix), radix),
        n > 0 ==> le_digits(n, radix).len() > 0,
    decreases n,
{
    if n > 0 {
        lemma_div_mod(n, radix);
        lemma_quotient_smaller(n, radix);
        lemma_le_digits(n / radix, radix);
        let rest = le_digits(n / radix, radix);
        let all = le_digits(n, radix);
        assert(all == seq![(n % radix) as u8] + rest);
        assert(all.drop_first() =~= rest);
        assert(all[0] == (n % radix) as u8);
        assert forall|i: int| 0 <= i < all.len() implies (#[trigger] all[i] as nat) < radix by {
            if i > 0 {
                assert(all[i] == rest[i - 1]);
            }
        }
        if rest.len() > 0 {
            assert(all.last() == rest.last());
        } else {
            assert(n / radix == 0);
            assert(radix * (n / radix) == 0) by (nonlinear_arith)
                requires
                    n / radix == 0,
            ;
            assert(n % radix == n);
            assert(all.last() == (n % radix) as u8);
        }
    }
}

/// Canonical digits, when there are any, write a number that is not zero.
pub proof fn lemma_canonical_is_positive(digits: Seq<u8>, radix: nat)
    requires
        2 <= radix <= 256,
        canonical(digits, radix),
        digits.len() > 0,
    ensures
        le_value(digits, radix) > 0,
    decreases digits.len(),
{
    let rest = digits.drop_first();
    if rest.len() > 0 {
        assert(rest.last() == digits.last());
        assert forall|i: int| 0 <= i < rest.len() implies (#[trigger] rest[i] as nat) < radix by {
            assert(rest[i] == digits[i + 1]);
        }
        lemma_canonical_is_positive(rest, radix);
        assert(radix * le_value(rest, radix) > 0) by (nonlinear_arith)
            requires
                radix >= 2,
                le_value(rest, radix) > 0,
        ;
    } else {
        assert(digits[0] == digits.last());
    }
}

/// Canonical digits are the canonical digits of the number they write: a
/// number has one canonical notation.
pub proof fn lemma_canonical_is_unique(digits: Seq<u8>, radix: nat)
    requires
        2 <= radix <= 256,
        canonical(digits, radix),
    ensures
        le_digits(le_value(digits, radix), radix) == digits,
    decreases digits.len(),
{
    if digits.len() > 0 {
        let rest = digits.drop_first();
        let n = le_value(digits, radix);
        lemma_canonical_is_positive(digits, radix);
        assert forall|i: int| 0 <= i < rest.len() implies (#[trigger] rest[i] as nat) < radix by {
            assert(rest[i] == digits[i + 1]);
        }
        if rest.len() > 0 {
            assert(rest.last() == digits.last());
        }
        lemma_canonical_is_unique(rest, radix);
        assert((digits[0] as nat) < radix);
        lemma_div_mod_of_sum(digits[0] as nat, le_value(rest, radix), radix);
        assert(le_digits(n, radix) == seq![(n % radix) as u8] + le_digits(n / radix, radix));
        assert(seq![digits[0]] + rest =~= digits);
    }
}

/// Scaling writes `digits * from + carry`.
pub proof fn lemma_scaled_value(digits: Seq<u8>, carry: nat, from: nat, to: nat)
    requires
        2 <= to <= 256,
    ensures
        le_value(scaled(digits, carry, from, to), to) == carry + from * le_value(digits, to),
    decreases digits.len(),
{
    if digits.len() == 0 {
        lemma_le_digits(carry, to);
        assert(from * 0 == 0) by (nonlinear_arith);
    } else {
        let sum = carry + digits[0] as nat * from;
        let rest = digits.drop_first();
        let out = scaled(digits, carry, from, to);
        lemma_scaled_value(rest, sum / to, from, to);
        lemma_div_mod(sum, to);
        assert(out.drop_first() =~= scaled(rest, sum / to, from, to));
        assert(out[0] == (sum % to) as u8);
        let tail = le_value(rest, to);
        assert(sum % to + to * (sum / to + from * tail) == carry + from * (digits[0] as nat + to
            * tail)) by (nonlinear_arith)
            requires
                sum == to * (sum / to) + sum % to,
                sum == carry + digits[0] as nat * from,
        ;
    }
}

/// Scaling canonical digits by a radix of two or more gives canonical
/// digits.
pub proof fn lemma_scaled_canonical(digits: Seq<u8>, carry: nat, from: nat, to: nat)
    requires
        2 <= to <= 256,
        2 <= from,
        canonical(digits, to),
    ensures
        canonical(scaled(digits, carry, from, to), to),
    decreases digits.len(),
{
    if digits.len() == 0 {
        lemma_le_digits(carry, to);
    } else {
        let sum = carry + digits[0] as nat * from;
        let rest = digits.drop_first();
        let out = scaled(digits, carry, from, to);
        let tail = scaled(rest, sum / to, from, to);
        lemma_div_mod(sum, to);
        assert(out == seq![(sum % to) as u8] + tail);
        assert forall|i: int| 0 <= i < rest.len() implies (#[trigger] rest[i] as nat) < to by {
            assert(rest[i] == digits[i + 1]);
        }
        if rest.len() > 0 {
            assert(rest.last() == digits.last());
            lemma_scaled_canonical(rest, sum / to, from, to);
            lemma_scaled_nonempty(rest, sum / to, from, to);
            assert(out.last() == tail.last());
        } else {
            lemma_le_digits(sum / to, to);
            assert(digits[0] == digits.last());
            assert(sum >= from) by (nonlinear_arith)
                requires
                    sum == carry + digits[0] as nat * from,
                    digits[0] >= 1,
            ;
            if sum / to == 0 {
                assert(tail.len() == 0);
                assert(to * (sum / to) == 0) by (nonlinear_arith)
                    requires
                        sum / to == 0,
                ;
                assert(sum % to == sum);
                assert(out.last() == (sum % to) as u8);
            } else {
                assert(out.last() == tail.last());
            }
        }
        assert forall|i: int| 0 <= i < out.len() implies (#[trigger] out[i] as nat) < to by {
            if i > 0 {
                assert(out[i] == tail[i - 1]);
            }
        }
    }
}

proof fn lemma_scaled_nonempty(digits: Seq<u8>, carry: nat, from: nat, to: nat)
    requires
        2 <= to <= 256,
        digits.len() > 0,
    ensures
        scaled(digits, carry, from, to).len() >= digits.len(),
    decreases digits.len(),
{
    let sum = carry + digits[0] as nat * from;
    let rest = digits.drop_first();
    assert(scaled(digits, carry, from, to) =~= seq![(sum % to) as u8] + scaled(
        rest,
        sum / to,
        from,
        to,
    ));
    if rest.len() > 0 {
        lemma_scaled_nonempty(rest, sum / to, from, to);
    }
}

/// Scaling the canonical digits of `n` gives the canonical digits of
/// `n * from + carry`.
pub proof fn lemma_scaled_digits(n: nat, carry: nat, from: nat, to: nat)
    requires
        2 <= to <= 256,
        2 <= from,
    ensures
        scaled(le_digits(n, to), carry, from, to) == le_digits(n * from + carry, to),
{
    let digits = le_digits(n, to);
    lemma_le_digits(n, to);
    lemma_scaled_value(digits, carry, from, to);
    lemma_scaled_canonical(digits, carry, from, to);
    lemma_canonical_is_unique(scaled(digits, carry, from, to), to);
    assert(carry + from * n == n * from + carry) by (nonlinear_arith);
}

/// The digits most significant first are the digits least significant
/// first, reversed.
pub proof fn lemma_be_digits_reverse(n: nat, radix: nat)
    requires
        2 <= radix <= 256,
    ensures
        be_digits(n, radix) == le_digits(n, radix).reverse(),
    decreases n,
{
    if n > 0 {
        lemma_div_mod(n, radix);
        lemma_quotient_smaller(n, radix);
        lemma_be_digits_reverse(n / radix, radix);
        let low = (n % radix) as u8;
        let rest = le_digits(n / radix, radix);
        assert((seq![low] + rest).reverse() =~= rest.reverse().push(low));
    } else {
        assert(le_digits(n, radix).reverse() =~= Seq::<u8>::empty());
    }
}

/// Reading digits most significant first is reading their reverse least
/// significant first.
pub proof fn lemma_be_value_reverse(digits: Seq<u8>, radix: nat)
    ensures
        be_value(digits.reverse(), radix) == le_value(digits, radix),
    decreases digits.len(),
{
    if digits.len() > 0 {
        let rest = digits.drop_first();
        lemma_be_value_reverse(rest, radix);
        assert(digits.reverse().drop_last() =~= rest.reverse());
        assert(digits.reverse().last() == digits[0]);
        assert(le_value(rest, radix) * radix == radix * le_value(rest, radix)) by (nonlinear_arith);
    } else {
        assert(digits.reverse() =~= Seq::<u8>::empty());
    }
}

/// The digits of a number, most significant first, write that number.
pub proof fn lemma_be_digits_value(n: nat, radix: nat)
    requires
        2 <= radix <= 256,
    ensures
        be_value(be_digits(n, radix), radix) == n,
{
    lemma_be_digits_reverse(n, radix);
    lemma_be_value_reverse(le_digits(n, radix), radix);
    lemma_le_digits(n, radix);
}

/// Digits most significant first that are below the radix and do not start
/// with zero are the digits of the number they write.
pub proof fn lemma_be_digits_of_value(digits: Seq<u8>, radix: nat)
    requires
        2 <= radix <= 256,
        digits_below(digits, radix),
        digits.len() > 0 ==> digits[0] != 0,
    ensures
        be_digits(be_value(digits, radix), radix) == digits,
{
    let le = digits.reverse();
    assert(le.reverse() =~= digits);
    assert forall|i: int| 0 <= i < le.len() implies (#[trigger] le[i] as nat) < radix by {
        assert(le[i] == digits[digits.len() - 1 - i]);
    }
    if le.len() > 0 {
        assert(le.last() == digits[0]);
    }
    lemma_canonical_is_unique(le, radix);
    lemma_be_value_reverse(le, radix);
    lemma_be_digits_reverse(le_value(le, radix), radix);
}

/// The digits of a number most significant first are below the radix and do
/// not start with zero.
pub proof fn lemma_be_digits_canonical(n: nat, radix: nat)
    requires
        2 <= radix <= 256,
    ensures
        digits_below(be_digits(n, radix), radix),
        be_digits(n, radix).len() > 0 ==> be_digits(n, radix)[0] != 0,
{
    lemma_le_digits(n, radix);
    lemma_be_digits_reverse(n, radix);
    let le = le_digits(n, radix);
    assert forall|i: int| 0 <= i < le.reverse().len() implies (#[trigger] le.reverse()[i] as nat)
        < radix by {
        assert(le.reverse()[i] == le[le.len() - 1 - i]);
    }
    if le.len() > 0 {
        assert(le.reverse()[0] == le.last());
    }
}

/// Zeros in front of the digits do not change the number.
pub proof fn lemma_be_value_leading_zeros(zeros: nat, digits: Seq<u8>, radix: nat)
    ensures
        be_value(Seq::new(zeros, |i: int| 0u8) + digits, radix) == be_value(digits, radix),
    decreases digits.len(), zeros,
{
    let padding = Seq::new(zeros, |i: int| 0u8);
    let all = padding + digits;
    if digits.len() > 0 {
        lemma_be_value_leading_zeros(zeros, digits.drop_last(), radix);
        assert(all.drop_last() =~= padding + digits.drop_last());
        assert(all.last() == digits.last());
    } else if zeros > 0 {
        let fewer = Seq::new((zeros - 1) as nat, |i: int| 0u8);
        lemma_be_value_leading_zeros((zeros - 1) as nat, digits, radix);
        assert(all.drop_last() =~= fewer + digits);
        assert(all.last() == 0u8);
        assert(0 * radix == 0) by (nonlinear_arith);
    } else {
        assert(all =~= digits);
    }
}

/// A sequence is its leading run of `x` followed by what does not start
/// with `x`.
pub proof fn lemma_leading_run<T>(s: Seq<T>, x: T)
    ensures
        leading_count(s, x) <= s.len(),
        s == Seq::new(leading_count(s, x), |i: int| x) + s.skip(leading_count(s, x) as int),
        leading_count(s, x) < s.len() ==> s[leading_count(s, x) as int] != x,
    decreases s.len(),
{
    let count = leading_count(s, x);
    if s.len() > 0 && s[0] == x {
        let rest = s.drop_first();
        lemma_leading_run(rest, x);
        let inner = leading_count(rest, x);
        assert(s.skip(count as int) =~= rest.skip(inner as int));
        assert(s =~= Seq::new(count, |i: int| x) + s.skip(count as int)) by {
            assert forall|i: int| 0 <= i < s.len() implies s[i] == (Seq::new(count, |i: int| x)
                + s.skip(count as int))[i] by {
                if i > 0 {
                    assert(s[i] == rest[i - 1]);
                    assert(rest[i - 1] == (Seq::new(inner, |i: int| x) + rest.skip(
                        inner as int,
                    ))[i - 1]);
                }
            }
        }
        if count < s.len() {
            assert(s[count as int] == rest[inner as int]);
        }
    } else {
        assert(s =~= Seq::new(0, |i: int| x) + s.skip(0));
    }
}

/// A run of `x` followed by what does not start with `x` has that run as
/// its leading run.
pub proof fn lemma_leading_count_of_run<T>(count: nat, x: T, rest: Seq<T>)
    requires
        rest.len() > 0 ==> rest[0] != x,
    ensures
        leading_count(Seq::new(count, |i: int| x) + rest, x) == count,
    decreases count,
{
    let all = Seq::new(count, |i: int| x) + rest;
    if count > 0 {
        lemma_leading_count_of_run((count - 1) as nat, x, rest);
        assert(all.drop_first() =~= Seq::new((count - 1) as nat, |i: int| x) + rest);
        assert(all[0] == x);
    } else {
        assert(all =~= rest);
    }
}

/// Converts a number written most significant digit first in radix `from`
/// into its canonical digits in radix `to`, least significant first.
pub fn convert(input: &[u8], from: u32, to: u32) -> (digits: Vec<u8>)
    requires
        2 <= from <= 256,
        2 <= to <= 256,
        digits_below(input@, from as nat),
    ensures
        digits@ == le_digits(be_value(input@, from as nat), to as nat),
        digits@.reverse() == be_digits(be_value(input@, from as nat), to as nat),
{
    let mut digits: Vec<u8> = Vec::new();
    let mut i: usize = 0;
    while i < input.len()
        invariant
            2 <= from <= 256,
            2 <= to <= 256,
            digits_below(input@, from as nat),
            i <= input@.len(),
            digits@ == le_digits(be_value(input@.subrange(0, i as int), from as nat), to as nat),
        decreases input@.len() - i,
    {
        let ghost before = digits@;
        let ghost value = be_value(input@.subrange(0, i as int), from as nat);
        let mut carry: u32 = input[i] as u32;
        proof {
            lemma_le_digits(value, to as nat);
            assert((input@[i as int] as nat) < from);
        }
        let mut j: usize = 0;
        proof {
            assert(before.subrange(0, before.len() as int) =~= before);
            assert(digits@.subrange(0, 0) + scaled(
                before,
                input@[i as int] as nat,
                from as nat,
                to as nat,
            ) =~= scaled(before, input@[i as int] as nat, from as nat, to as nat));
        }
        while j < digits.len()
            invariant
                i < input@.len(),
                2 <= from <= 256,
                2 <= to <= 256,
                carry < from,
                j <= digits@.len(),
                digits@.len() == before.len(),
                digits_below(before, to as nat),
                forall|k: int| j <= k < digits@.len() ==> #[trigger] digits@[k] == before[k],
                digits@.subrange(0, j as int) + scaled(
                    before.subrange(j as int, before.len() as int),
                    carry as nat,
                    from as nat,
                    to as nat,
                ) == scaled(before, input@[i as int] as nat, from as nat, to as nat),
            decreases digits@.len() - j,
        {
            let ghost rest = before.subrange(j as int, before.len() as int);
            let ghost head = digits@.subrange(0, j as int);
            let ghost entering = carry as nat;
            let digit: u8 = digits[j];
            proof {
                assert(digit == before[j as int]);
                assert(rest[0] == before[j as int]);
                assert((digit as nat) < to);
                assert(digit as nat * from as nat <= 255 * 256) by (nonlinear_arith)
                    requires
                        digit <= 255,
                        from <= 256,
                ;
                assert(carry as nat + digit as nat * from as nat <= from as nat * to as nat
                    - 1) by (nonlinear_arith)
                    requires
                        (carry as nat) < from as nat,
                        (digit as nat) < to as nat,
                ;
            }
            carry = carry + digit as u32 * from;
            proof {
                lemma_div_mod(carry as nat, to as nat);
                lemma_quotient_bound(carry as nat, from as nat, to as nat);
            }
            digits.set(j, (carry % to) as u8);
            let ghost sum = carry as nat;
            carry = carry / to;
            proof {
                assert(sum == entering + rest[0] as nat * from as nat);
                assert(rest.drop_first() =~= before.subrange(j + 1, before.len() as int));
                assert(digits@.subrange(0, j + 1) =~= head.push((sum % to as nat) as u8));
                assert(head.push((sum % to as nat) as u8) + scaled(
                    rest.drop_first(),
                    sum / to as nat,
                    from as nat,
                    to as nat,
                ) =~= head + scaled(rest, entering, from as nat, to as nat));
            }
            j = j + 1;
        }
        proof {
            assert(before.subrange(j as int, before.len() as int) =~= Seq::<u8>::empty());
            assert(digits@.subrange(0, j as int) =~= digits@);
        }
        while carry > 0
            invariant
                i < input@.len(),
                2 <= to <= 256,
                digits@ + le_digits(carry as nat, to as nat) == scaled(
                    before,
                    input@[i as int] as nat,
                    from as nat,
                    to as nat,
                ),
            decreases carry,
        {
            let ghost entering = carry as nat;
            let ghost held = digits@;
            proof {
                lemma_div_mod(carry as nat, to as nat);
            }
            digits.push((carry % to) as u8);
            carry = carry / to;
            proof {
                assert(entering / (to as nat) < entering) by (nonlinear_arith)
                    requires
                        entering == to as nat * (entering / to as nat) + entering % to as nat,
                        to >= 2,
                        entering > 0,
                ;
                assert(held.push((entering % to as nat) as u8) + le_digits(
                    entering / to as nat,
                    to as nat,
                ) =~= held + le_digits(entering, to as nat));
            }
        }
        proof {
            assert(digits@ + le_digits(0, to as nat) =~= digits@);
            lemma_scaled_digits(value, input@[i as int] as nat, from as nat, to as nat);
            let upto = input@.subrange(0, i + 1);
            assert(upto.drop_last() =~= input@.subrange(0, i as int));
            assert(upto.last() == input@[i as int]);
        }
        i = i + 1;
    }
    proof {
        assert(input@.subrange(0, i as int) =~= input@);
        lemma_be_digits_reverse(be_value(input@, from as nat), to as nat);
    }
    digits
}

} // verus!
