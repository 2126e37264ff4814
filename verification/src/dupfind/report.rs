//! What the duplicate finder reports: sizes in human units and the space that
//! the duplicates take.
use crate::dupfind::duplicates::Group;
use crate::text::{
    decimal, digit_value, digits_value, is_digit, lemma_decimal_digits, lemma_digit_char,
    push_decimal,
};
use vstd::prelude::*;

verus! {

/// 1000 raised to the power `k`.
pub open spec fn pow1000(k: nat) -> nat
    decreases k,
{
    if k == 0 {
        1
    } else {
        1000 * pow1000((k - 1) as nat)
    }
}

/// The unit for the power `k` of 1000: bytes, kilobytes, ... petabytes.
pub open spec fn size_suffix(k: nat) -> Seq<char> {
    if k == 0 {
        "Б"@
    } else if k == 1 {
        "кБ"@
    } else if k == 2 {
        "МБ"@
    } else if k == 3 {
        "ГБ"@
    } else if k == 4 {
        "ТБ"@
    } else {
        "ПБ"@
    }
}

/// The power of 1000 used to show `bytes`, counting up from `k`: the first at
/// which fewer than 1000 whole units remain, or petabytes.
pub open spec fn unit_power(bytes: nat, k: nat) -> nat
    decreases 5 - k,
{
    if k < 5 && bytes / pow1000(k) >= 1000 {
        unit_power(bytes, k + 1)
    } else {
        k
    }
}

/// `n` written with at least two digits, a leading zero added where needed.
pub open spec fn two_digits(n: nat) -> Seq<char> {
    if n < 10 {
        seq!['0'] + decimal(n)
    } else {
        decimal(n)
    }
}

/// How `bytes` is shown: whole units, a point, hundredths of a unit (rounded down)
/// in two digits, a space and the unit.
pub open spec fn formatted_size(bytes: nat) -> Seq<char> {
    let k = unit_power(bytes, 0);
    let e = pow1000(k);
    decimal(bytes / e) + seq!['.'] + two_digits((bytes % e) * 100 / e) + seq![' '] + size_suffix(k)
}

fn suffix_for(k: usize) -> (r: &'static str)
    ensures
        r@ == size_suffix(k as nat),
{
    if k == 0 {
        "Б"
    } else if k == 1 {
        "кБ"
    } else if k == 2 {
        "МБ"
    } else if k == 3 {
        "ГБ"
    } else if k == 4 {
        "ТБ"
    } else {
        "ПБ"
    }
}

proof fn lemma_pow1000_bound(k: nat)
    requires
        k <= 5,
    ensures
        1 <= pow1000(k) <= 1_000_000_000_000_000,
{
    reveal_with_fuel(pow1000, 6);
}

/// Shows `bytes` in the largest unit (up to petabytes) in which it is at least one,
/// with two decimals: `1536` gives `1.53 кБ`.
pub fn format_size(bytes: u64) -> (r: String)
    ensures
        r@ == formatted_size(bytes as nat),
{
    let mut exponent: u64 = 1;
    let mut suffix_index: usize = 0;
    proof {
        lemma_pow1000_bound(0);
    }
    while bytes / exponent >= 1000 && suffix_index < 5
        invariant
            0 <= suffix_index <= 5,
            exponent == pow1000(suffix_index as nat),
            1 <= exponent <= 1_000_000_000_000_000,
            unit_power(bytes as nat, suffix_index as nat) == unit_power(bytes as nat, 0),
        decreases 5 - suffix_index,
    {
        proof {
            lemma_pow1000_bound((suffix_index + 1) as nat);
        }
        exponent = exponent * 1000;
        suffix_index = suffix_index + 1;
    }
    proof {
        lemma_pow1000_bound(suffix_index as nat);
    }
    let whole = bytes / exponent;
    let rest = bytes % exponent;
    assert(rest * 100 <= 100_000_000_000_000_000) by (nonlinear_arith)
        requires
            rest < exponent,
            exponent <= 1_000_000_000_000_000,
    ;
    let hundredths = rest * 100 / exponent;
    assert(hundredths < 100) by (nonlinear_arith)
        requires
            rest < exponent,
            hundredths as int == (rest * 100) / (exponent as int),
            exponent > 0,
    ;
    let mut r = String::new();
    push_decimal(&mut r, whole);
    r.push('.');
    if hundredths < 10 {
        r.push('0');
    }
    push_decimal(&mut r, hundredths);
    r.push(' ');
    r.append(suffix_for(suffix_index));
    assert(r@ =~= formatted_size(bytes as nat));
    r
}

/// The bytes that the copies beyond the first of a group take.
pub open spec fn duplicated(g: Group) -> int {
    g.size * (g.files@.len() - 1)
}

/// The bytes that all the groups' extra copies take together.
pub open spec fn total_duplicated(groups: Seq<Group>) -> int
    decreases groups.len(),
{
    if groups.len() == 0 {
        0
    } else {
        total_duplicated(groups.drop_last()) + duplicated(groups.last())
    }
}

/// The bytes that the copies of a group beyond the first take: the space that
/// removing them would free.
pub fn duplicated_bytes(group: &Group) -> (r: u64)
    requires
        group.files@.len() >= 1,
        duplicated(*group) <= u64::MAX,
    ensures
        r == duplicated(*group),
{
    let copies: u64 = (group.files.len() - 1) as u64;
    assert(group.size * copies <= u64::MAX);
    group.size * copies
}

proof fn lemma_duplicated_nonneg(g: Group)
    requires
        g.files@.len() >= 1,
    ensures
        duplicated(g) >= 0,
{
    assert(g.size * (g.files@.len() - 1) >= 0) by (nonlinear_arith)
        requires
            g.files@.len() >= 1,
    ;
}

proof fn lemma_total_nonneg(groups: Seq<Group>)
    requires
        forall|i: int| 0 <= i < groups.len() ==> (#[trigger] groups[i]).files@.len() >= 1,
    ensures
        total_duplicated(groups) >= 0,
    decreases groups.len(),
{
    if groups.len() > 0 {
        lemma_total_nonneg(groups.drop_last());
        lemma_duplicated_nonneg(groups.last());
    }
}

proof fn lemma_total_grows(groups: Seq<Group>, k: int)
    requires
        0 <= k <= groups.len(),
        forall|i: int| 0 <= i < groups.len() ==> (#[trigger] groups[i]).files@.len() >= 1,
    ensures
        0 <= total_duplicated(groups.take(k)) <= total_duplicated(groups),
    decreases groups.len() - k,
{
    lemma_total_nonneg(groups.take(k));
    if k < groups.len() {
        lemma_total_grows(groups, k + 1);
        assert(groups.take(k + 1).drop_last() =~= groups.take(k));
        lemma_duplicated_nonneg(groups[k]);
    } else {
        assert(groups.take(k) =~= groups);
    }
}

/// The space that removing every extra copy in `groups` would free.
pub fn total_duplicated_bytes(groups: &Vec<Group>) -> (r: u64)
    requires
        forall|i: int| 0 <= i < groups@.len() ==> (#[trigger] groups@[i]).files@.len() >= 1,
        total_duplicated(groups@) <= u64::MAX,
    ensures
        r == total_duplicated(groups@),
{
    let mut total: u64 = 0;
    let mut i: usize = 0;
    while i < groups.len()
        invariant
            0 <= i <= groups.len(),
            forall|j: int| 0 <= j < groups@.len() ==> (#[trigger] groups@[j]).files@.len() >= 1,
            total_duplicated(groups@) <= u64::MAX,
            total == total_duplicated(groups@.take(i as int)),
        decreases groups.len() - i,
    {
        proof {
            lemma_total_grows(groups@, i + 1);
            assert(groups@.take(i + 1).drop_last() =~= groups@.take(i as int));
            lemma_duplicated_nonneg(groups@[i as int]);
        }
        let extra = duplicated_bytes(&groups[i]);
        total = total + extra;
        i = i + 1;
    }
    assert(groups@.take(groups.len() as int) =~= groups@);
    total
}


proof fn lemma_unit_power(bytes: nat, k: nat)
    requires
        k <= 5,
        k == 0 || bytes / pow1000(k) >= 1,
    ensures
        k <= unit_power(bytes, k) <= 5,
        unit_power(bytes, k) < 5 ==> bytes / pow1000(unit_power(bytes, k)) < 1000,
        unit_power(bytes, k) > 0 ==> bytes / pow1000(unit_power(bytes, k)) >= 1,
    decreases 5 - k,
{
    if k < 5 && bytes / pow1000(k) >= 1000 {
        lemma_pow1000_bound(k);
        let e = pow1000(k);
        assert(pow1000(k + 1) == 1000 * e);
        assert(bytes / (1000 * e) >= 1) by (nonlinear_arith)
            requires
                bytes / e >= 1000,
                e >= 1,
        ;
        lemma_unit_power(bytes, k + 1);
    }
}

/// The unit a size is shown in is the largest in which it is at least one whole
/// unit: below petabytes, fewer than 1000 whole units are shown, and above bytes,
/// at least one.
pub proof fn shown_unit_fits(bytes: nat)
    ensures
        unit_power(bytes, 0) <= 5,
        unit_power(bytes, 0) < 5 ==> bytes / pow1000(unit_power(bytes, 0)) < 1000,
        unit_power(bytes, 0) > 0 ==> bytes / pow1000(unit_power(bytes, 0)) >= 1,
{
    lemma_unit_power(bytes, 0);
}


/// How a size is shown, read back character by character: the whole units as a
/// numeral of one or more digits, a point, exactly two digits that read as the
/// hundredths of a unit (rounded down), a space and the unit. So 1050 bytes show
/// as `1.05 кБ`, never `1.50 кБ`.
pub proof fn shown_size_reads_back(bytes: nat)
    ensures
        ({
            let k = unit_power(bytes, 0);
            let e = pow1000(k);
            let s = formatted_size(bytes);
            let w = s.len() - 4 - size_suffix(k).len();
            &&& w >= 1
            &&& forall|i: int| 0 <= i < w ==> is_digit(#[trigger] s[i])
            &&& digits_value(s.take(w)) == bytes / e
            &&& s[w] == '.'
            &&& is_digit(s[w + 1])
            &&& is_digit(s[w + 2])
            &&& digit_value(s[w + 1]) * 10 + digit_value(s[w + 2]) == (bytes % e) * 100 / e
            &&& s[w + 3] == ' '
            &&& s.skip(w + 4) == size_suffix(k)
        }),
{
    let k = unit_power(bytes, 0);
    lemma_unit_power(bytes, 0);
    lemma_pow1000_bound(k);
    let e = pow1000(k);
    let q = bytes / e;
    let h = (bytes % e) * 100 / e;
    assert(h < 100) by (nonlinear_arith)
        requires
            e >= 1,
            h == (bytes % e) * 100 / e,
            bytes % e < e,
    ;
    lemma_decimal_digits(q);
    let d = decimal(q);
    let t = two_digits(h);
    if h < 10 {
        lemma_digit_char(0);
        lemma_digit_char(h);
        assert(decimal(h) == seq![crate::text::digit_char(h)]);
        assert(t =~= seq![crate::text::digit_char(0), crate::text::digit_char(h)]);
    } else {
        lemma_digit_char(h / 10);
        lemma_digit_char(h % 10);
        assert(decimal(h / 10) == seq![crate::text::digit_char(h / 10)]);
        assert(decimal(h) == decimal(h / 10).push(crate::text::digit_char(h % 10)));
        assert(t =~= seq![crate::text::digit_char(h / 10), crate::text::digit_char(h % 10)]);
        assert((h / 10) * 10 + h % 10 == h) by (nonlinear_arith);
    }
    let s = formatted_size(bytes);
    assert(s == d + seq!['.'] + t + seq![' '] + size_suffix(k));
    let w = s.len() - 4 - size_suffix(k).len();
    assert(w == d.len());
    assert(s.take(w) =~= d);
    assert(s.skip(w + 4) =~= size_suffix(k));
    assert(s[w + 1] == t[0]);
    assert(s[w + 2] == t[1]);
}

} // verus!
