//! Functions that take ownership of strings and hand back new ones.
use crate::text::{chars_of, uppercase_char, uppercased};
use vstd::prelude::*;
use vstd::utf8::encode_utf8;

verus! {

/// The index of the first space at or after `from`, or the length of `s` where there is none.
pub open spec fn first_space(s: Seq<char>, from: int) -> int
    decreases s.len() - from,
{
    if from < 0 || from >= s.len() {
        s.len() as int
    } else if s[from] == ' ' {
        from
    } else {
        first_space(s, from + 1)
    }
}

/// The text of `s` before its first space; all of `s` where it has none.
pub open spec fn first_word_of(s: Seq<char>) -> Seq<char> {
    s.take(first_space(s, 0))
}

/// The number of characters before the first space of `s`.
pub fn first_space_index(s: &str) -> (i: usize)
    ensures
        i == first_space(s@, 0),
        i <= s@.len(),
{
    let cs = chars_of(s);
    let mut i: usize = 0;
    while i < cs.len() && cs[i] != ' '
        invariant
            cs@ == s@,
            0 <= i <= cs.len(),
            first_space(s@, i as int) == first_space(s@, 0),
        decreases cs.len() - i,
    {
        i = i + 1;
    }
    i
}

/// The first word of `s`: its text before the first space.
pub fn first_word(s: String) -> (r: String)
    ensures
        r@ == first_word_of(s@),
{
    let index = first_space_index(s.as_str());
    s.as_str().substring_char(0, index).to_owned()
}

/// The first word of `s`, handed back together with `s` itself.
pub fn first_word_2(s: String) -> (r: (String, String))
    ensures
        r.0@ == first_word_of(s@),
        r.1 == s,
{
    let index = first_space_index(s.as_str());
    let slice = s.as_str().substring_char(0, index).to_owned();
    (slice, s)
}

/// The length of `s` in bytes, as UTF-8.
pub open spec fn byte_len(s: Seq<char>) -> nat {
    encode_utf8(s).len()
}

/// The longest of three strings by their length in bytes; the earlier one where two tie.
pub fn longest_of_three(a: String, b: String, c: String) -> (r: String)
    requires
        byte_len(a@) <= usize::MAX,
        byte_len(b@) <= usize::MAX,
        byte_len(c@) <= usize::MAX,
    ensures
        r == (if byte_len(a@) >= byte_len(b@) && byte_len(a@) >= byte_len(c@) {
            a
        } else if byte_len(b@) >= byte_len(c@) {
            b
        } else {
            c
        }),
{
    let la = a.as_str().len();
    let lb = b.as_str().len();
    let lc = c.as_str().len();
    if la >= lb && la >= lc {
        a
    } else if lb >= lc {
        b
    } else {
        c
    }
}

/// `s` with an exclamation mark appended.
pub fn exclamation(s: String) -> (r: String)
    ensures
        r@ == s@.push('!'),
{
    let mut s = s;
    s.push('!');
    s
}

/// `s` in upper case, as `str::to_uppercase` gives it.
pub fn uppercase(s: String) -> (r: String)
    ensures
        r@ == uppercased(s@),
{
    let cs = chars_of(s.as_str());
    let mut r = String::new();
    let mut i: usize = 0;
    while i < cs.len()
        invariant
            cs@ == s@,
            0 <= i <= cs.len(),
            r@ == uppercased(s@.take(i as int)),
        decreases cs.len() - i,
    {
        let up = uppercase_char(cs[i]);
        r.append(up.as_str());
        assert(s@.take(i + 1).drop_last() =~= s@.take(i as int));
        i = i + 1;
    }
    assert(s@.take(cs.len() as int) =~= s@);
    r
}

/// A greeting for `s`.
pub fn greet(s: String) -> (r: String)
    ensures
        r@ == "Привет, "@ + s@,
{
    let mut r = "Привет, ".to_owned();
    r.append(s.as_str());
    r
}


/// The first word is a prefix of the text and holds no space; what follows it,
/// where anything does, begins with a space. A text without spaces is its own
/// first word.
pub proof fn first_word_is_prefix_up_to_space(s: Seq<char>)
    ensures
        first_word_of(s).is_prefix_of(s),
        forall|i: int| 0 <= i < first_word_of(s).len() ==> #[trigger] first_word_of(s)[i] != ' ',
        first_word_of(s).len() < s.len() ==> s[first_word_of(s).len() as int] == ' ',
        (forall|i: int| 0 <= i < s.len() ==> s[i] != ' ') ==> first_word_of(s) == s,
{
    lemma_first_space(s, 0);
    let k = first_space(s, 0);
    assert(first_word_of(s) =~= s.subrange(0, k));
    if forall|i: int| 0 <= i < s.len() ==> s[i] != ' ' {
        if k < s.len() {
            assert(s[k] == ' ');
        }
        assert(first_word_of(s) =~= s);
    }
}

proof fn lemma_first_space(s: Seq<char>, from: int)
    requires
        0 <= from <= s.len(),
    ensures
        from <= first_space(s, from) <= s.len(),
        first_space(s, from) < s.len() ==> s[first_space(s, from)] == ' ',
        forall|i: int| from <= i < first_space(s, from) ==> #[trigger] s[i] != ' ',
    decreases s.len() - from,
{
    if from < s.len() && s[from] != ' ' {
        lemma_first_space(s, from + 1);
    }
}

/// The string that `longest_of_three` picks is at least as long, in bytes, as each of the three.
pub proof fn longest_is_at_least_each(a: Seq<char>, b: Seq<char>, c: Seq<char>)
    ensures
        ({
            let r = if byte_len(a) >= byte_len(b) && byte_len(a) >= byte_len(c) {
                a
            } else if byte_len(b) >= byte_len(c) {
                b
            } else {
                c
            };
            byte_len(r) >= byte_len(a) && byte_len(r) >= byte_len(b) && byte_len(r) >= byte_len(
                c,
            )
        }),
{
}

} // verus!
