//! Functions that borrow their arguments.
use crate::ownership::{first_space_index, first_word_of};
use crate::text::{chars_of, count_words_in, uppercase_char, char_uppercase, words};
use vstd::prelude::*;

verus! {

/// The first word of `s`: its text before the first space, borrowed from `s`.
pub fn first_word(s: &str) -> (r: &str)
    ensures
        r@ == first_word_of(s@),
{
    let index = first_space_index(s);
    s.substring_char(0, index)
}

/// The number of words in `s`: of its maximal runs of characters that are not
/// white space.
pub fn count_words(s: &str) -> (n: usize)
    ensures
        n == words(s@).len(),
{
    count_words_in(s)
}

/// Replaces the first character of `s` by its upper-case mapping; an empty `s` stays empty.
pub fn capitalize_first(s: &mut String)
    ensures
        final(s)@ == (if old(s)@.len() == 0 {
            old(s)@
        } else {
            char_uppercase(old(s)@[0]) + old(s)@.drop_first()
        }),
{
    let len = s.as_str().unicode_len();
    if len == 0 {
        return;
    }
    let first = s.as_str().get_char(0);
    let rest = s.as_str().substring_char(1, len).to_owned();
    let mut r = uppercase_char(first);
    r.append(rest.as_str());
    *s = r;
}

/// The largest of `numbers`, or `None` where there are none.
pub fn max_in_slice(numbers: &[i32]) -> (r: Option<i32>)
    ensures
        match r {
            None => numbers@.len() == 0,
            Some(m) => numbers@.contains(m) && forall|i: int|
                0 <= i < numbers@.len() ==> numbers@[i] <= m,
        },
{
    if numbers.len() == 0 {
        return None;
    }
    let mut max = numbers[0];
    let mut i: usize = 1;
    while i < numbers.len()
        invariant
            1 <= i <= numbers.len(),
            numbers@.contains(max),
            forall|j: int| 0 <= j < i ==> numbers@[j] <= max,
        decreases numbers.len() - i,
    {
        if numbers[i] > max {
            max = numbers[i];
            assert(numbers@[i as int] == max);
        }
        i = i + 1;
    }
    Some(max)
}

} // verus!
