//! Character-level text helpers shared by the rest of the library: white space,
//! decimal numerals, prefixes and case-insensitive comparison.
use vstd::prelude::*;

verus! {

/// `String::push`: trusted to append the character `ch` to the end of `string`,
/// as its documentation says, and to change nothing else.
pub assume_specification[ String::push ](string: &mut String, ch: char)
    ensures
        final(string)@ == old(string)@.push(ch),
;

/// The characters that carry the Unicode `White_Space` property.
pub open spec fn is_white_space(c: char) -> bool {
    let v = c as u32;
    ||| 0x09 <= v <= 0x0d
    ||| v == 0x20
    ||| v == 0x85
    ||| v == 0xa0
    ||| v == 0x1680
    ||| 0x2000 <= v <= 0x200a
    ||| v == 0x2028
    ||| v == 0x2029
    ||| v == 0x202f
    ||| v == 0x205f
    ||| v == 0x3000
}

/// Decides whether `c` is a Unicode white-space character.
pub fn is_whitespace(c: char) -> (r: bool)
    ensures
        r == is_white_space(c),
{
    let v = c as u32;
    (0x09 <= v && v <= 0x0d) || v == 0x20 || v == 0x85 || v == 0xa0 || v == 0x1680 || (0x2000
        <= v && v <= 0x200a) || v == 0x2028 || v == 0x2029 || v == 0x202f || v == 0x205f || v
        == 0x3000
}

/// The characters of `s`, in order.
pub fn chars_of(s: &str) -> (v: Vec<char>)
    ensures
        v@ == s@,
{
    let mut v: Vec<char> = Vec::new();
    let it = s.chars();
    for c in iter: it
        invariant
            iter.seq() == s@,
            v@ == s@.take(iter.index()),
    {
        v.push(c);
    }
    assert(s@.take(s@.len() as int) =~= s@);
    v
}

/// The character that writes the decimal digit `d`.
pub open spec fn digit_char(d: nat) -> char {
    (d + 48) as char
}

/// The decimal numeral of `n`, without sign or leading zeros.
pub open spec fn decimal(n: nat) -> Seq<char>
    decreases n,
{
    if n < 10 {
        seq![digit_char(n)]
    } else {
        decimal(n / 10).push(digit_char(n % 10))
    }
}

/// The numeral of a signed value: a minus sign before the numeral of its magnitude.
pub open spec fn signed_decimal(n: int) -> Seq<char> {
    if n < 0 {
        seq!['-'] + decimal((-n) as nat)
    } else {
        decimal(n as nat)
    }
}

/// Appends the decimal numeral of `n` to `out`.
pub fn push_decimal(out: &mut String, n: u64)
    ensures
        final(out)@ == old(out)@ + decimal(n as nat),
    decreases n,
{
    if n >= 10 {
        push_decimal(out, n / 10);
    }
    let d: u8 = (n % 10) as u8;
    let c = (d + 48) as char;
    out.push(c);
    assert(out@ =~= old(out)@ + decimal(n as nat));
}


/// The decimal numeral of `n`.
pub fn u64_to_string(n: u64) -> (r: String)
    ensures
        r@ == decimal(n as nat),
{
    let mut r = String::new();
    push_decimal(&mut r, n);
    assert(r@ =~= decimal(n as nat));
    r
}

/// The numeral of `n`: a minus sign before the magnitude when `n` is negative.
pub fn i32_to_string(n: i32) -> (r: String)
    ensures
        r@ == signed_decimal(n as int),
{
    let mut r = String::new();
    if n < 0 {
        r.push('-');
        let magnitude: u64 = (0i64 - (n as i64)) as u64;
        push_decimal(&mut r, magnitude);
    } else {
        push_decimal(&mut r, n as u64);
    }
    assert(r@ =~= signed_decimal(n as int));
    r
}

/// `c` is one of the ASCII digits `0` to `9`.
pub open spec fn is_digit(c: char) -> bool {
    '0' <= c <= '9'
}

/// The value that the digit character `c` stands for.
pub open spec fn digit_value(c: char) -> nat {
    (c as u32 - 48) as nat
}

/// The value of a string of decimal digits, most significant first.
pub open spec fn digits_value(s: Seq<char>) -> nat
    decreases s.len(),
{
    if s.len() == 0 {
        0
    } else {
        digits_value(s.drop_last()) * 10 + digit_value(s.last())
    }
}

/// The digits of an unsigned numeral: the text after an optional leading `+`.
pub open spec fn unsigned_digits(s: Seq<char>) -> Seq<char> {
    if s.len() > 0 && s[0] == '+' {
        s.drop_first()
    } else {
        s
    }
}

/// What parsing `s` as a `u64` gives: an optional `+`, then one or more
/// decimal digits whose value fits in 64 bits; anything else is refused.
pub open spec fn parse_u64_spec(s: Seq<char>) -> Option<u64> {
    let d = unsigned_digits(s);
    if d.len() > 0 && (forall|i: int| 0 <= i < d.len() ==> is_digit(#[trigger] d[i]))
        && digits_value(d) <= u64::MAX {
        Some(digits_value(d) as u64)
    } else {
        None
    }
}

/// Extending a string of digits never lowers its value.
pub proof fn lemma_digits_value_grows(s: Seq<char>, k: int)
    requires
        0 <= k <= s.len(),
        forall|i: int| 0 <= i < s.len() ==> is_digit(#[trigger] s[i]),
    ensures
        digits_value(s.take(k)) <= digits_value(s),
    decreases s.len() - k,
{
    if k < s.len() {
        lemma_digits_value_grows(s, k + 1);
        assert(s.take(k + 1).drop_last() =~= s.take(k));
    } else {
        assert(s.take(k) =~= s);
    }
}

/// Parses `s` as a `u64` the way `str::parse::<u64>` does, giving `None` where it fails.
pub fn parse_u64(s: &str) -> (r: Option<u64>)
    ensures
        r == parse_u64_spec(s@),
{
    let cs = chars_of(s);
    let ghost d = unsigned_digits(s@);
    let start: usize = if cs.len() > 0 && cs[0] == '+' { 1 } else { 0 };
    assert(d =~= cs@.skip(start as int));
    if start == cs.len() {
        return None;
    }
    let mut value: u64 = 0;
    let mut i: usize = start;
    while i < cs.len()
        invariant
            start <= i <= cs.len(),
            start < cs.len(),
            cs@ == s@,
            d == cs@.skip(start as int),
            d == unsigned_digits(s@),
            forall|j: int| 0 <= j < i - start ==> is_digit(#[trigger] d[j]),
            value == digits_value(d.take(i - start)),
        decreases cs.len() - i,
    {
        let c = cs[i];
        assert(d[i - start] == cs@[i as int]);
        if !('0' <= c && c <= '9') {
            assert(!is_digit(d[i - start]));
            return None;
        }
        let digit: u64 = (c as u32 - 48) as u64;
        assert(d.take(i - start + 1).drop_last() =~= d.take(i - start));
        assert(d.take(i - start + 1).last() == c);
        assert(digits_value(d.take(i - start + 1)) == value * 10 + digit);
        match value.checked_mul(10) {
            Some(tens) => match tens.checked_add(digit) {
                Some(next) => {
                    value = next;
                },
                None => {
                    proof {
                        let k = i - start + 1;
                        assert(digits_value(d.take(k)) > u64::MAX);
                        no_overflow_or_stray(d, k);
                    }
                    return None;
                },
            },
            None => {
                proof {
                    let k = i - start + 1;
                    assert(digits_value(d.take(k)) > u64::MAX) by (nonlinear_arith)
                        requires
                            digits_value(d.take(k)) == value * 10 + digit,
                            value * 10 > u64::MAX,
                    ;
                    no_overflow_or_stray(d, k);
                }
                return None;
            },
        }
        i = i + 1;
    }
    assert(d.take(cs.len() - start) =~= d);
    Some(value)
}

proof fn no_overflow_or_stray(d: Seq<char>, k: int)
    requires
        0 <= k <= d.len(),
        digits_value(d.take(k)) > u64::MAX,
    ensures
        !((forall|i: int| 0 <= i < d.len() ==> is_digit(#[trigger] d[i]))
            && digits_value(d) <= u64::MAX),
{
    if forall|i: int| 0 <= i < d.len() ==> is_digit(#[trigger] d[i]) {
        lemma_digits_value_grows(d, k);
    }
}


/// Decides whether `a` and `b` hold the same characters.
pub fn str_eq(a: &str, b: &str) -> (r: bool)
    ensures
        r == (a@ == b@),
{
    let x = chars_of(a);
    let y = chars_of(b);
    if x.len() != y.len() {
        return false;
    }
    let mut i: usize = 0;
    while i < x.len()
        invariant
            x@ == a@,
            y@ == b@,
            x.len() == y.len(),
            0 <= i <= x.len(),
            forall|j: int| 0 <= j < i ==> x@[j] == y@[j],
        decreases x.len() - i,
    {
        if x[i] != y[i] {
            return false;
        }
        i = i + 1;
    }
    assert(x@ =~= y@);
    true
}

/// Decides whether `s` begins with `prefix`.
pub fn starts_with(s: &str, prefix: &str) -> (r: bool)
    ensures
        r == prefix@.is_prefix_of(s@),
{
    let x = chars_of(s);
    let p = chars_of(prefix);
    if p.len() > x.len() {
        return false;
    }
    let mut i: usize = 0;
    while i < p.len()
        invariant
            x@ == s@,
            p@ == prefix@,
            p.len() <= x.len(),
            0 <= i <= p.len(),
            forall|j: int| 0 <= j < i ==> p@[j] == x@[j],
        decreases p.len() - i,
    {
        if p[i] != x[i] {
            assert(p@[i as int] != s@.subrange(0, p@.len() as int)[i as int]);
            return false;
        }
        i = i + 1;
    }
    assert(p@ =~= s@.subrange(0, p@.len() as int));
    true
}

/// The text of `s` after its first `n` characters.
pub fn skip_chars(s: &str, n: usize) -> (r: &str)
    requires
        n <= s@.len(),
    ensures
        r@ == s@.skip(n as int),
{
    let len = s.unicode_len();
    s.substring_char(n, len)
}

/// `c` with an ASCII capital letter replaced by its small letter.
pub open spec fn ascii_lower(c: char) -> char {
    if 'A' <= c <= 'Z' {
        ((c as u32) + 32) as char
    } else {
        c
    }
}

/// `a` and `b` are equal once ASCII letters are compared without regard to case.
pub open spec fn eq_ignoring_ascii_case(a: Seq<char>, b: Seq<char>) -> bool {
    a.len() == b.len() && forall|i: int| 0 <= i < a.len() ==> ascii_lower(#[trigger] a[i])
        == ascii_lower(b[i])
}

fn to_ascii_lower(c: char) -> (r: char)
    ensures
        r == ascii_lower(c),
{
    if 'A' <= c && c <= 'Z' {
        ((c as u32) + 32) as u8 as char
    } else {
        c
    }
}

/// Decides whether `a` and `b` are equal when ASCII letters are compared without regard to case.
pub fn eq_ignore_ascii_case(a: &str, b: &str) -> (r: bool)
    ensures
        r == eq_ignoring_ascii_case(a@, b@),
{
    let x = chars_of(a);
    let y = chars_of(b);
    if x.len() != y.len() {
        return false;
    }
    let mut i: usize = 0;
    while i < x.len()
        invariant
            x@ == a@,
            y@ == b@,
            x.len() == y.len(),
            0 <= i <= x.len(),
            forall|j: int| 0 <= j < i ==> ascii_lower(#[trigger] x@[j]) == ascii_lower(y@[j]),
        decreases x.len() - i,
    {
        if to_ascii_lower(x[i]) != to_ascii_lower(y[i]) {
            return false;
        }
        i = i + 1;
    }
    true
}

/// The index of the first character at or after `from` that is not white space,
/// or the length of `s` where there is none.
pub open spec fn first_non_space(s: Seq<char>, from: int) -> int
    decreases s.len() - from,
{
    if from < 0 || from >= s.len() {
        s.len() as int
    } else if !is_white_space(s[from]) {
        from
    } else {
        first_non_space(s, from + 1)
    }
}

/// The end of the last character before `to` that is not white space, or 0 where there is none.
pub open spec fn end_of_last_non_space(s: Seq<char>, to: int) -> int
    decreases to,
{
    if to <= 0 || to > s.len() {
        0
    } else if !is_white_space(s[to - 1]) {
        to
    } else {
        end_of_last_non_space(s, to - 1)
    }
}

/// `s` without its leading and trailing white space.
pub open spec fn trimmed(s: Seq<char>) -> Seq<char> {
    let lo = first_non_space(s, 0);
    let hi = end_of_last_non_space(s, s.len() as int);
    if lo < hi {
        s.subrange(lo, hi)
    } else {
        Seq::empty()
    }
}

/// `s` without its leading and trailing white space, as `str::trim` gives it.
pub fn trim(s: &str) -> (r: &str)
    ensures
        r@ == trimmed(s@),
{
    let cs = chars_of(s);
    let n = cs.len();
    let mut lo: usize = 0;
    while lo < n && is_whitespace(cs[lo])
        invariant
            cs@ == s@,
            n == cs.len(),
            0 <= lo <= n,
            first_non_space(s@, lo as int) == first_non_space(s@, 0),
        decreases n - lo,
    {
        lo = lo + 1;
    }
    let mut hi: usize = n;
    while hi > 0 && is_whitespace(cs[hi - 1])
        invariant
            cs@ == s@,
            n == cs.len(),
            0 <= hi <= n,
            end_of_last_non_space(s@, hi as int) == end_of_last_non_space(s@, n as int),
        decreases hi,
    {
        hi = hi - 1;
    }
    if lo < hi {
        s.substring_char(lo, hi)
    } else {
        s.substring_char(0, 0)
    }
}

/// The words of `s`: its maximal runs of characters that are not white space, in order.
pub open spec fn words(s: Seq<char>) -> Seq<Seq<char>>
    decreases s.len(),
{
    if s.len() == 0 {
        Seq::empty()
    } else {
        let w = words(s.drop_last());
        let c = s.last();
        if is_white_space(c) {
            w
        } else if s.len() == 1 || is_white_space(s[s.len() - 2]) {
            w.push(seq![c])
        } else {
            w.update(w.len() - 1, w.last().push(c))
        }
    }
}

/// A non-empty text that does not end in white space has at least one word.
proof fn lemma_words_nonempty(s: Seq<char>)
    requires
        s.len() > 0,
        !is_white_space(s.last()),
    ensures
        words(s).len() > 0,
    decreases s.len(),
{
    if s.len() > 1 && !is_white_space(s[s.len() - 2]) {
        lemma_words_nonempty(s.drop_last());
    }
}

/// Splits `s` into its words, as `str::split_whitespace` does.
pub fn split_whitespace(s: &str) -> (r: Vec<String>)
    ensures
        r@.map_values(|w: String| w@) == words(s@),
{
    let cs = chars_of(s);
    let mut out: Vec<String> = Vec::new();
    let mut i: usize = 0;
    while i < cs.len()
        invariant
            cs@ == s@,
            0 <= i <= cs.len(),
            out@.map_values(|w: String| w@) == words(s@.take(i as int)),
        decreases cs.len() - i,
    {
        let c = cs[i];
        let ghost prev = s@.take(i as int);
        assert(s@.take(i + 1).drop_last() =~= prev);
        if is_whitespace(c) {
        } else if i == 0 || is_whitespace(cs[i - 1]) {
            let mut w = String::new();
            w.push(c);
            out.push(w);
            assert(out@.map_values(|w: String| w@) =~= words(s@.take(i + 1)));
        } else {
            assert(prev.len() > 0 && !is_white_space(prev.last()));
            proof {
                lemma_words_nonempty(prev);
            }
            let last = out.len() - 1;
            let mut w = out.remove(last);
            w.push(c);
            out.push(w);
            assert(out@.map_values(|w: String| w@) =~= words(s@.take(i + 1)));
        }
        i = i + 1;
    }
    assert(s@.take(cs.len() as int) =~= s@);
    out
}

/// Counts the words of `s`, as `str::split_whitespace().count()` does.
pub fn count_words_in(s: &str) -> (n: usize)
    ensures
        n == words(s@).len(),
{
    let cs = chars_of(s);
    let mut n: usize = 0;
    let mut i: usize = 0;
    while i < cs.len()
        invariant
            cs@ == s@,
            0 <= i <= cs.len(),
            n == words(s@.take(i as int)).len(),
            n <= i,
        decreases cs.len() - i,
    {
        let c = cs[i];
        assert(s@.take(i + 1).drop_last() =~= s@.take(i as int));
        if !is_whitespace(c) && (i == 0 || is_whitespace(cs[i - 1])) {
            n = n + 1;
        } else if !is_whitespace(c) {
            proof {
                lemma_words_nonempty(s@.take(i as int));
            }
        }
        i = i + 1;
    }
    assert(s@.take(cs.len() as int) =~= s@);
    n
}

/// The pieces of `s` between occurrences of `sep`, empty pieces included.
pub open spec fn pieces(s: Seq<char>, sep: char) -> Seq<Seq<char>>
    decreases s.len(),
{
    if s.len() == 0 {
        seq![Seq::empty()]
    } else {
        let p = pieces(s.drop_last(), sep);
        if s.last() == sep {
            p.push(Seq::empty())
        } else {
            p.update(p.len() - 1, p.last().push(s.last()))
        }
    }
}

proof fn lemma_pieces_nonempty(s: Seq<char>, sep: char)
    ensures
        pieces(s, sep).len() > 0,
    decreases s.len(),
{
    if s.len() > 0 {
        lemma_pieces_nonempty(s.drop_last(), sep);
    }
}

/// No piece contains the separator.
pub proof fn pieces_hold_no_separator(s: Seq<char>, sep: char)
    ensures
        forall|i: int, j: int|
            0 <= i < pieces(s, sep).len() && 0 <= j < pieces(s, sep)[i].len() ==> #[trigger] pieces(
                s,
                sep,
            )[i][j] != sep,
    decreases s.len(),
{
    if s.len() > 0 {
        pieces_hold_no_separator(s.drop_last(), sep);
        lemma_pieces_nonempty(s.drop_last(), sep);
        let p = pieces(s.drop_last(), sep);
        let q = pieces(s, sep);
        assert forall|i: int, j: int| 0 <= i < q.len() && 0 <= j < q[i].len() implies #[trigger] q[i][j]
            != sep by {
            if s.last() != sep && i == p.len() - 1 {
                if j < p.last().len() {
                    assert(q[i][j] == p[i][j]);
                }
            } else if i < p.len() {
                assert(q[i] == p[i]);
            }
        }
    }
}

/// Splits `s` at every `sep`, as `str::split(sep)` does.
pub fn split_on(s: &str, sep: char) -> (r: Vec<String>)
    ensures
        r@.map_values(|w: String| w@) == pieces(s@, sep),
{
    let cs = chars_of(s);
    let mut out: Vec<String> = Vec::new();
    out.push(String::new());
    assert(out@.map_values(|w: String| w@) =~= pieces(s@.take(0), sep));
    let mut i: usize = 0;
    while i < cs.len()
        invariant
            cs@ == s@,
            0 <= i <= cs.len(),
            out@.map_values(|w: String| w@) == pieces(s@.take(i as int), sep),
        decreases cs.len() - i,
    {
        let c = cs[i];
        assert(s@.take(i + 1).drop_last() =~= s@.take(i as int));
        proof {
            lemma_pieces_nonempty(s@.take(i as int), sep);
        }
        if c == sep {
            out.push(String::new());
        } else {
            let last = out.len() - 1;
            let mut w = out.remove(last);
            w.push(c);
            out.push(w);
        }
        assert(out@.map_values(|w: String| w@) =~= pieces(s@.take(i + 1), sep));
        i = i + 1;
    }
    assert(s@.take(cs.len() as int) =~= s@);
    out
}


/// The upper-case mapping of `c` that `char::to_uppercase` yields: one or more
/// characters, fixed by the Unicode tables of the standard library.
pub uninterp spec fn char_uppercase(c: char) -> Seq<char>;

/// Calls `char::to_uppercase` on `c` and collects what it yields. Trusted to give
/// the upper-case mapping of `c`, which depends on `c` alone.
#[verifier::external_body]
pub(crate) fn uppercase_char(c: char) -> (r: String)
    ensures
        r@ == char_uppercase(c),
{
    c.to_uppercase().collect()
}

/// The upper-case form of a text: each character replaced by its upper-case mapping.
pub open spec fn uppercased(s: Seq<char>) -> Seq<char>
    decreases s.len(),
{
    if s.len() == 0 {
        Seq::empty()
    } else {
        uppercased(s.drop_last()) + char_uppercase(s.last())
    }
}


pub(crate) proof fn lemma_digit_char(d: nat)
    requires
        d < 10,
    ensures
        is_digit(digit_char(d)),
        digit_value(digit_char(d)) == d,
        digit_char(d) != '+',
{
}

pub(crate) proof fn lemma_decimal_digits(n: nat)
    ensures
        decimal(n).len() > 0,
        forall|i: int| 0 <= i < decimal(n).len() ==> is_digit(#[trigger] decimal(n)[i]),
        decimal(n)[0] != '+',
        digits_value(decimal(n)) == n,
    decreases n,
{
    if n < 10 {
        lemma_digit_char(n);
        let d = decimal(n);
        assert(d.drop_last() =~= Seq::<char>::empty());
        assert(digits_value(d.drop_last()) == 0);
        assert(digits_value(d) == digits_value(d.drop_last()) * 10 + digit_value(d.last()));
    } else {
        lemma_decimal_digits(n / 10);
        lemma_digit_char(n % 10);
        let d = decimal(n);
        assert(d.drop_last() =~= decimal(n / 10));
        assert(d.last() == digit_char(n % 10));
        assert(digits_value(d) == digits_value(decimal(n / 10)) * 10 + digit_value(d.last()));
        assert((n / 10) * 10 + n % 10 == n) by (nonlinear_arith);
    }
}

/// Parsing the decimal numeral of a 64-bit value gives that value back.
pub proof fn parse_reads_back_decimal(n: u64)
    ensures
        parse_u64_spec(decimal(n as nat)) == Some(n),
{
    lemma_decimal_digits(n as nat);
    assert(unsigned_digits(decimal(n as nat)) == decimal(n as nat));
}

proof fn lemma_first_non_space(s: Seq<char>, from: int)
    requires
        0 <= from <= s.len(),
    ensures
        from <= first_non_space(s, from) <= s.len(),
        first_non_space(s, from) < s.len() ==> !is_white_space(s[first_non_space(s, from)]),
        forall|i: int| from <= i < first_non_space(s, from) ==> is_white_space(#[trigger] s[i]),
    decreases s.len() - from,
{
    if from < s.len() && is_white_space(s[from]) {
        lemma_first_non_space(s, from + 1);
    }
}

proof fn lemma_end_of_last_non_space(s: Seq<char>, to: int)
    requires
        0 <= to <= s.len(),
    ensures
        0 <= end_of_last_non_space(s, to) <= to,
        end_of_last_non_space(s, to) > 0 ==> !is_white_space(s[end_of_last_non_space(s, to) - 1]),
        forall|i: int| end_of_last_non_space(s, to) <= i < to ==> is_white_space(#[trigger] s[i]),
    decreases to,
{
    if to > 0 && is_white_space(s[to - 1]) {
        lemma_end_of_last_non_space(s, to - 1);
    }
}

/// Trimming a second time changes nothing.
pub proof fn trim_is_idempotent(s: Seq<char>)
    ensures
        trimmed(trimmed(s)) == trimmed(s),
{
    let lo = first_non_space(s, 0);
    let hi = end_of_last_non_space(s, s.len() as int);
    lemma_first_non_space(s, 0);
    lemma_end_of_last_non_space(s, s.len() as int);
    let t = trimmed(s);
    if lo < hi {
        assert(t.len() > 0);
        assert(t[0] == s[lo]);
        assert(t[t.len() - 1] == s[hi - 1]);
        assert(first_non_space(t, 0) == 0);
        assert(end_of_last_non_space(t, t.len() as int) == t.len());
        assert(t.subrange(0, t.len() as int) =~= t);
    } else {
        assert(t.len() == 0);
        assert(trimmed(t) =~= t);
    }
}


/// Every character of `w` is white space.
pub open spec fn all_white_space(w: Seq<char>) -> bool {
    forall|i: int| 0 <= i < w.len() ==> is_white_space(#[trigger] w[i])
}

proof fn lemma_words_trailing_space(s: Seq<char>, w: Seq<char>)
    requires
        all_white_space(w),
    ensures
        words(s + w) == words(s),
    decreases w.len(),
{
    if w.len() > 0 {
        assert((s + w).drop_last() =~= s + w.drop_last());
        assert((s + w).last() == w[w.len() - 1]);
        lemma_words_trailing_space(s, w.drop_last());
    } else {
        assert(s + w =~= s);
    }
}

proof fn lemma_words_leading_space(w: Seq<char>, s: Seq<char>)
    requires
        all_white_space(w),
    ensures
        words(w + s) == words(s),
    decreases s.len(),
{
    if s.len() == 0 {
        assert(w + s =~= Seq::<char>::empty() + w);
        lemma_words_trailing_space(Seq::<char>::empty(), w);
        assert(Seq::<char>::empty() + w =~= w);
    } else {
        let ws = w + s;
        assert(ws.drop_last() =~= w + s.drop_last());
        assert(ws.last() == s.last());
        lemma_words_leading_space(w, s.drop_last());
        if s.len() >= 2 {
            assert(ws[ws.len() - 2] == s[s.len() - 2]);
        } else if w.len() > 0 {
            assert(ws[ws.len() - 2] == w[w.len() - 1]);
        }
    }
}

/// Trimming a text first does not change its words.
pub proof fn trim_keeps_words(s: Seq<char>)
    ensures
        words(trimmed(s)) == words(s),
{
    let lo = first_non_space(s, 0);
    let hi = end_of_last_non_space(s, s.len() as int);
    lemma_first_non_space(s, 0);
    lemma_end_of_last_non_space(s, s.len() as int);
    if lo < hi {
        let t = s.subrange(lo, hi);
        let pre = s.subrange(0, lo);
        let post = s.subrange(hi, s.len() as int);
        assert(s =~= pre + t + post);
        assert(all_white_space(pre));
        assert(all_white_space(post));
        lemma_words_trailing_space(pre + t, post);
        lemma_words_leading_space(pre, t);
    } else {
        if lo < s.len() {
            assert(!is_white_space(s[lo]));
            assert(lo >= hi);
            assert(is_white_space(s[lo]));
        }
        assert(all_white_space(s));
        lemma_words_trailing_space(Seq::<char>::empty(), s);
        assert(Seq::<char>::empty() + s =~= s);
        assert(trimmed(s) =~= Seq::<char>::empty());
    }
}


/// Upper-casing works character by character throughout the text: the upper-case
/// form of `s + t` is that of `s` followed by that of `t`, and that of a single
/// character is its upper-case mapping.
pub proof fn uppercase_is_per_character(s: Seq<char>, t: Seq<char>, c: char)
    ensures
        uppercased(s + t) == uppercased(s) + uppercased(t),
        uppercased(seq![c]) == char_uppercase(c),
    decreases t.len(),
{
    if t.len() == 0 {
        assert(s + t =~= s);
        assert(uppercased(s) + uppercased(t) =~= uppercased(s));
    } else {
        uppercase_is_per_character(s, t.drop_last(), c);
        assert((s + t).drop_last() =~= s + t.drop_last());
        assert((s + t).last() == t.last());
        assert(uppercased(s) + uppercased(t.drop_last()) + char_uppercase(t.last()) =~= uppercased(s)
            + (uppercased(t.drop_last()) + char_uppercase(t.last())));
    }
    assert(seq![c].drop_last() =~= Seq::<char>::empty());
    assert(uppercased(Seq::<char>::empty()) + char_uppercase(c) =~= char_uppercase(c));
}


proof fn lemma_words_single(s: Seq<char>)
    requires
        s.len() > 0,
        forall|i: int| 0 <= i < s.len() ==> !is_white_space(#[trigger] s[i]),
    ensures
        words(s) == seq![s],
    decreases s.len(),
{
    assert(!is_white_space(s[s.len() - 1]));
    if s.len() == 1 {
        assert(s.drop_last() =~= Seq::<char>::empty());
        assert(words(s.drop_last()) =~= Seq::<Seq<char>>::empty());
        assert(words(s) == words(s.drop_last()).push(seq![s.last()]));
        assert(seq![s.last()] =~= s);
        assert(Seq::<Seq<char>>::empty().push(s) =~= seq![s]);
    } else {
        let rest = s.drop_last();
        lemma_words_single(rest);
        assert(s[s.len() - 2] == rest[rest.len() - 1]);
        assert(rest.push(s.last()) =~= s);
        assert(seq![rest].update(0, rest.push(s.last())) =~= seq![s]);
    }
}

proof fn lemma_words_concat(a: Seq<char>, b: Seq<char>)
    requires
        a.len() > 0,
        is_white_space(a.last()),
    ensures
        words(a + b) == words(a) + words(b),
    decreases b.len(),
{
    if b.len() == 0 {
        assert(a + b =~= a);
        assert(words(a) + words(b) =~= words(a));
    } else {
        let ab = a + b;
        let rest = b.drop_last();
        lemma_words_concat(a, rest);
        assert(ab.drop_last() =~= a + rest);
        assert(ab.last() == b.last());
        if b.len() >= 2 {
            assert(ab[ab.len() - 2] == b[b.len() - 2]);
        } else {
            assert(ab[ab.len() - 2] == a.last());
        }
        let c = b.last();
        if is_white_space(c) {
        } else if b.len() == 1 || is_white_space(b[b.len() - 2]) {
            assert(words(a) + words(rest).push(seq![c]) =~= (words(a) + words(rest)).push(seq![c]));
        } else {
            lemma_words_nonempty(rest);
            let wa = words(a);
            let wr = words(rest);
            assert((wa + wr).update((wa + wr).len() - 1, (wa + wr).last().push(c)) =~= wa + wr.update(
                wr.len() - 1,
                wr.last().push(c),
            ));
        }
    }
}

/// What splitting into words gives: a text without white space that is not empty
/// is one word, white space alone holds none, and words on either side of white
/// space are the words of each side, in order.
pub proof fn words_are_split_at_white_space(s: Seq<char>, w: Seq<char>, t: Seq<char>)
    ensures
        s.len() > 0 && (forall|i: int| 0 <= i < s.len() ==> !is_white_space(#[trigger] s[i]))
            ==> words(s) == seq![s],
        all_white_space(w) ==> words(w).len() == 0,
        w.len() > 0 && all_white_space(w) ==> words(s + w + t) == words(s) + words(t),
{
    if s.len() > 0 && (forall|i: int| 0 <= i < s.len() ==> !is_white_space(#[trigger] s[i])) {
        lemma_words_single(s);
    }
    if all_white_space(w) {
        lemma_words_trailing_space(Seq::<char>::empty(), w);
        assert(Seq::<char>::empty() + w =~= w);
        assert(words(Seq::<char>::empty()) =~= Seq::<Seq<char>>::empty());
        if w.len() > 0 {
            lemma_words_trailing_space(s, w);
            assert((s + w).last() == w[w.len() - 1]);
            lemma_words_concat(s + w, t);
        }
    }
}

/// What parsing a `u64` accepts and refuses: a numeral, with or without a leading
/// `+`, reads back as its value; a text with a character that is not a digit (other
/// than one leading `+`), an empty text and a numeral above `u64::MAX` are refused.
pub proof fn parse_u64_accepts_numerals_only(n: u64, s: Seq<char>)
    ensures
        parse_u64_spec(decimal(n as nat)) == Some(n),
        parse_u64_spec(seq!['+'] + decimal(n as nat)) == Some(n),
        s.len() == 0 ==> parse_u64_spec(s) is None,
        (exists|i: int| 0 <= i < s.len() && !is_digit(#[trigger] s[i]) && !(i == 0 && s[i] == '+'))
            ==> parse_u64_spec(s) is None,
        (forall|i: int| 0 <= i < s.len() ==> is_digit(#[trigger] s[i])) && digits_value(s)
            > u64::MAX ==> parse_u64_spec(s) is None,
{
    parse_reads_back_decimal(n);
    lemma_decimal_digits(n as nat);
    let p = seq!['+'] + decimal(n as nat);
    assert(p.drop_first() =~= decimal(n as nat));
    assert(unsigned_digits(p) == decimal(n as nat));
    if exists|i: int| 0 <= i < s.len() && !is_digit(#[trigger] s[i]) && !(i == 0 && s[i] == '+') {
        let i = choose|i: int| 0 <= i < s.len() && !is_digit(#[trigger] s[i]) && !(i == 0 && s[i] == '+');
        let d = unsigned_digits(s);
        if s.len() > 0 && s[0] == '+' {
            assert(d[i - 1] == s[i]);
        } else {
            assert(d[i] == s[i]);
        }
    }
    if s.len() > 0 && (forall|i: int| 0 <= i < s.len() ==> is_digit(#[trigger] s[i])) {
        assert(is_digit(s[0]));
        assert(unsigned_digits(s) == s);
    }
}


/// The pieces put back together, with `sep` between each two.
pub open spec fn joined(parts: Seq<Seq<char>>, sep: char) -> Seq<char>
    decreases parts.len(),
{
    if parts.len() == 0 {
        Seq::empty()
    } else if parts.len() == 1 {
        parts[0]
    } else {
        joined(parts.drop_last(), sep) + seq![sep] + parts.last()
    }
}

/// Splitting at `sep` loses nothing: joining the pieces with `sep` between them
/// gives the text back, and no piece holds `sep` itself.
pub proof fn pieces_join_back(s: Seq<char>, sep: char)
    ensures
        joined(pieces(s, sep), sep) == s,
        forall|i: int, j: int|
            0 <= i < pieces(s, sep).len() && 0 <= j < pieces(s, sep)[i].len() ==> #[trigger] pieces(
                s,
                sep,
            )[i][j] != sep,
    decreases s.len(),
{
    pieces_hold_no_separator(s, sep);
    if s.len() == 0 {
        assert(joined(pieces(s, sep), sep) =~= s);
    } else {
        let rest = s.drop_last();
        pieces_join_back(rest, sep);
        lemma_pieces_nonempty(rest, sep);
        let p = pieces(rest, sep);
        let q = pieces(s, sep);
        if s.last() == sep {
            assert(q.drop_last() =~= p);
            assert(joined(q, sep) =~= s);
        } else {
            let x = p.last().push(s.last());
            if p.len() == 1 {
                assert(joined(p, sep) == p[0]);
                assert(q =~= seq![x]);
                assert(joined(q, sep) == q[0]);
                assert(joined(q, sep) =~= s);
            } else {
                assert(q.len() == p.len());
                assert(q.drop_last() =~= p.drop_last());
                assert(q.last() == x);
                assert(joined(p, sep) == joined(p.drop_last(), sep) + seq![sep] + p.last());
                assert(joined(q, sep) == joined(q.drop_last(), sep) + seq![sep] + q.last());
                assert(rest.push(s.last()) =~= s);
                assert(joined(q, sep) =~= s);
            }
        }
    }
}

} // verus!
