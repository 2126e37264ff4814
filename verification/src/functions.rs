//! Small numeric functions: parity, FizzBuzz, the first common multiple.
use crate::text::{
    decimal, digits_value, i32_to_string, is_digit, lemma_decimal_digits, signed_decimal,
};
use vstd::prelude::*;

verus! {

/// Whether `n` is even.
pub fn is_even(n: i32) -> (r: bool)
    ensures
        r == (n as int % 2 == 0),
{
    n % 2 == 0
}

/// What FizzBuzz says for `n`: `FizzBuzz` for multiples of both 3 and 5, `Fizz`
/// for other multiples of 3, `Buzz` for other multiples of 5, else the number.
pub open spec fn fizzbuzz_text(n: int) -> Seq<char> {
    if n % 3 == 0 && n % 5 == 0 {
        "FizzBuzz"@
    } else if n % 3 == 0 {
        "Fizz"@
    } else if n % 5 == 0 {
        "Buzz"@
    } else {
        signed_decimal(n)
    }
}

/// Gives `"Fizz"`, `"Buzz"` or `"FizzBuzz"` according to `n`, or `n` written out.
pub fn fizzbuzz(n: i32) -> (r: String)
    ensures
        r@ == fizzbuzz_text(n as int),
{
    if n % 3 == 0 && n % 5 == 0 {
        "FizzBuzz".to_owned()
    } else if n % 3 == 0 {
        "Fizz".to_owned()
    } else if n % 5 == 0 {
        "Buzz".to_owned()
    } else {
        i32_to_string(n)
    }
}

/// `m` is a positive multiple of both `a` and `b`.
pub open spec fn is_common_multiple(m: int, a: int, b: int) -> bool {
    m > 0 && m % a == 0 && m % b == 0
}

/// The least positive number that both `a` and `b` divide, found by counting up from 1.
pub fn first_multiple_of_both(a: u32, b: u32) -> (r: u32)
    requires
        a > 0,
        b > 0,
        a * b <= u32::MAX,
    ensures
        is_common_multiple(r as int, a as int, b as int),
        forall|m: int| 0 < m < r ==> !is_common_multiple(m, a as int, b as int),
{
    let limit: u32 = a * b;
    assert(limit % a == 0 && limit % b == 0) by (nonlinear_arith)
        requires
            limit == a * b,
            a > 0,
            b > 0,
    ;
    let mut counter: u32 = 1;
    assert(limit >= 1) by (nonlinear_arith)
        requires
            limit == a * b,
            a > 0,
            b > 0,
    ;
    while !(counter % a == 0 && counter % b == 0)
        invariant
            a > 0,
            b > 0,
            limit % a == 0 && limit % b == 0,
            1 <= counter <= limit,
            forall|m: int| 0 < m < counter ==> !is_common_multiple(m, a as int, b as int),
        decreases limit - counter,
    {
        counter = counter + 1;
    }
    counter
}


/// FizzBuzz goes by divisibility alone: `FizzBuzz` when 3 and 5 both divide `n`,
/// `Fizz` when 3 does and 5 does not, `Buzz` when 5 does and 3 does not, and
/// otherwise the number itself: a numeral that reads back as `n`, after a minus
/// sign where `n` is negative.
pub proof fn fizzbuzz_follows_divisibility(n: int)
    ensures
        n % 3 == 0 && n % 5 == 0 ==> fizzbuzz_text(n) == "FizzBuzz"@,
        n % 3 == 0 && n % 5 != 0 ==> fizzbuzz_text(n) == "Fizz"@,
        n % 3 != 0 && n % 5 == 0 ==> fizzbuzz_text(n) == "Buzz"@,
        n % 3 != 0 && n % 5 != 0 && n >= 0 ==> ({
            let s = fizzbuzz_text(n);
            &&& s.len() > 0
            &&& forall|i: int| 0 <= i < s.len() ==> is_digit(#[trigger] s[i])
            &&& digits_value(s) == n
        }),
        n % 3 != 0 && n % 5 != 0 && n < 0 ==> ({
            let s = fizzbuzz_text(n);
            &&& s.len() > 1
            &&& s[0] == '-'
            &&& forall|i: int| 1 <= i < s.len() ==> is_digit(#[trigger] s[i])
            &&& digits_value(s.drop_first()) == -n
        }),
{
    if n % 3 != 0 && n % 5 != 0 {
        if n >= 0 {
            lemma_decimal_digits(n as nat);
        } else {
            lemma_decimal_digits((-n) as nat);
            let s = fizzbuzz_text(n);
            assert(s.drop_first() =~= decimal((-n) as nat));
            assert forall|i: int| 1 <= i < s.len() implies is_digit(#[trigger] s[i]) by {
                assert(s[i] == s.drop_first()[i - 1]);
            }
        }
    }
}

} // verus!
