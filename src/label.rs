use vstd::arithmetic::div_mod::{
    lemma_basic_div, lemma_div_denominator, lemma_div_is_ordered_by_denominator, lemma_fundamental_div_mod,
    lemma_fundamental_div_mod_converse, lemma_hoist_over_denominator,
};
use vstd::prelude::*;

use crate::tree::capped;

verus! {

/// The multiplier of unit `k`: 1024 raised to `k` (bytes, KB, MB, GB, TB).
pub open spec fn unit_factor(k: nat) -> nat {
    if k == 0 {
        1
    } else if k == 1 {
        1024
    } else if k == 2 {
        1024 * 1024
    } else if k == 3 {
        1024 * 1024 * 1024
    } else {
        1024 * 1024 * 1024 * 1024
    }
}

/// The unit a size is shown in: the largest whose multiplier does not exceed it.
pub open spec fn unit_index(size: nat) -> nat {
    if size < unit_factor(1) {
        0
    } else if size < unit_factor(2) {
        1
    } else if size < unit_factor(3) {
        2
    } else if size < unit_factor(4) {
        3
    } else {
        4
    }
}

/// The name a label gives unit `k`, for `k` from 1.
pub open spec fn unit_name(k: nat) -> Seq<char> {
    if k == 1 {
        seq!['K', 'B']
    } else if k == 2 {
        seq!['M', 'B']
    } else if k == 3 {
        seq!['G', 'B']
    } else {
        seq!['T', 'B']
    }
}

pub open spec fn digit_char(d: nat) -> char {
    if d == 0 {
        '0'
    } else if d == 1 {
        '1'
    } else if d == 2 {
        '2'
    } else if d == 3 {
        '3'
    } else if d == 4 {
        '4'
    } else if d == 5 {
        '5'
    } else if d == 6 {
        '6'
    } else if d == 7 {
        '7'
    } else if d == 8 {
        '8'
    } else {
        '9'
    }
}

/// The decimal digits of `n`, without leading zeros.
pub open spec fn decimal(n: nat) -> Seq<char>
    decreases n,
{
    if n < 10 {
        seq![digit_char(n)]
    } else {
        decimal(n / 10).push(digit_char(n % 10))
    }
}

/// The four decimal digits of `n` below 10000, with leading zeros.
pub open spec fn four_digits(n: nat) -> Seq<char> {
    seq![
        digit_char(n / 1000 % 10),
        digit_char(n / 100 % 10),
        digit_char(n / 10 % 10),
        digit_char(n % 10),
    ]
}

/// `n / d` rounded to the nearest integer, ties to the even one.
pub open spec fn round_div(n: nat, d: nat) -> nat
    recommends
        d > 0,
{
    let q = n / d;
    let r = n % d;
    if 2 * r > d || (2 * r == d && q % 2 == 1) {
        q + 1
    } else {
        q
    }
}

/// The label of a byte count: below 1024, the count and "bytes"; above, the
/// count in the largest fitting unit with four fractional digits.
pub open spec fn label_of(size: nat) -> Seq<char> {
    let k = unit_index(size);
    if k == 0 {
        decimal(size) + seq![' ', 'b', 'y', 't', 'e', 's']
    } else {
        let s = round_div(size * 10000, unit_factor(k));
        decimal(s / 10000) + seq!['.'] + four_digits(s % 10000) + seq![' '] + unit_name(k)
    }
}

/// The one-character text of a decimal digit.
fn digit_str(d: u64) -> (r: &'static str)
    requires
        d < 10,
    ensures
        r@ == seq![digit_char(d as nat)],
{
    if d == 0 {
        proof { reveal_strlit("0"); }
        "0"
    } else if d == 1 {
        proof { reveal_strlit("1"); }
        "1"
    } else if d == 2 {
        proof { reveal_strlit("2"); }
        "2"
    } else if d == 3 {
        proof { reveal_strlit("3"); }
        "3"
    } else if d == 4 {
        proof { reveal_strlit("4"); }
        "4"
    } else if d == 5 {
        proof { reveal_strlit("5"); }
        "5"
    } else if d == 6 {
        proof { reveal_strlit("6"); }
        "6"
    } else if d == 7 {
        proof { reveal_strlit("7"); }
        "7"
    } else if d == 8 {
        proof { reveal_strlit("8"); }
        "8"
    } else {
        proof { reveal_strlit("9"); }
        "9"
    }
}

/// Appends the decimal digits of `n` to `s`.
fn push_decimal(s: &mut String, n: u64)
    ensures
        final(s)@ == old(s)@ + decimal(n as nat),
    decreases n,
{
    if n >= 10 {
        push_decimal(s, n / 10);
    }
    s.append(digit_str(n % 10));
    assert(final(s)@ =~= old(s)@ + decimal(n as nat));
}

/// Appends the four digits of `n`, with leading zeros.
fn push_four_digits(s: &mut String, n: u64)
    requires
        n < 10000,
    ensures
        final(s)@ == old(s)@ + four_digits(n as nat),
{
    s.append(digit_str(n / 1000 % 10));
    s.append(digit_str(n / 100 % 10));
    s.append(digit_str(n / 10 % 10));
    s.append(digit_str(n % 10));
    assert(final(s)@ =~= old(s)@ + four_digits(n as nat));
}

/// `size / d` to four fractional digits, rounded to the nearest with ties to
/// even, as a whole part and the fraction's digits (in ten-thousandths).
fn scaled_parts(size: u64, d: u64) -> (r: (u64, u64))
    requires
        1024 <= d <= 1099511627776,
    ensures
        r.1 < 10000,
        r.0 * 10000 + r.1 == round_div((size as nat) * 10000, d as nat),
{
    let whole = size / d;
    let rem = size % d;
    let frac_num = rem * 10000;
    let q = frac_num / d;
    let r2 = frac_num % d;
    let ghost n = (size as nat) * 10000;
    proof {
        lemma_fundamental_div_mod(size as int, d as int);
        lemma_fundamental_div_mod(frac_num as int, d as int);
        assert(q < 10000) by (nonlinear_arith)
            requires
                frac_num == d * q + r2,
                frac_num == rem * 10000,
                rem < d,
                r2 >= 0,
        ;
        assert(n == (whole * 10000 + q) * d + r2) by (nonlinear_arith)
            requires
                n == (size as nat) * 10000,
                size == d * whole + rem,
                frac_num == d * q + r2,
                frac_num == rem * 10000,
        ;
        lemma_fundamental_div_mod_converse(n as int, d as int, whole * 10000 + q, r2 as int);
        assert((whole * 10000 + q) % 2 == q % 2);
        assert(whole < 18014398509481984) by (nonlinear_arith)
            requires
                size == d * whole + rem,
                d >= 1024,
                rem >= 0,
                size < 18446744073709551616;
    }
    if r2 * 2 > d || (r2 * 2 == d && q % 2 == 1) {
        if q + 1 == 10000 {
            (whole + 1, 0)
        } else {
            (whole, q + 1)
        }
    } else {
        (whole, q)
    }
}

/// The human-readable label of a byte count: "<n> bytes" below 1024, else the
/// count in KB, MB, GB or TB (1024-based) with four fractional digits, e.g.
/// "1.5000 KB" for 1536.
pub fn size_to_label(size: u64) -> (r: String)
    ensures
        r@ == label_of(size as nat),
{
    let mut r = String::new();
    if size < 1024 {
        push_decimal(&mut r, size);
        proof { reveal_strlit(" bytes"); }
        r.append(" bytes");
        assert(r@ =~= label_of(size as nat));
        return r;
    }
    let d: u64;
    let unit: &str;
    if size < 1048576 {
        d = 1024;
        proof { reveal_strlit("KB"); }
        unit = "KB";
    } else if size < 1073741824 {
        d = 1048576;
        proof { reveal_strlit("MB"); }
        unit = "MB";
    } else if size < 1099511627776 {
        d = 1073741824;
        proof { reveal_strlit("GB"); }
        unit = "GB";
    } else {
        d = 1099511627776;
        proof { reveal_strlit("TB"); }
        unit = "TB";
    }
    let ghost k = unit_index(size as nat);
    assert(d as nat == unit_factor(k) && unit@ == unit_name(k));
    let (w, f) = scaled_parts(size, d);
    proof {
        let s = round_div((size as nat) * 10000, d as nat);
        lemma_fundamental_div_mod_converse(s as int, 10000, w as int, f as int);
    }
    push_decimal(&mut r, w);
    proof { reveal_strlit("."); }
    r.append(".");
    push_four_digits(&mut r, f);
    proof { reveal_strlit(" "); }
    r.append(" ");
    r.append(unit);
    assert(r@ =~= label_of(size as nat));
    r
}

pub open spec fn is_digit(c: char) -> bool {
    48 <= (c as u32) <= 57
}

pub open spec fn digit_value(c: char) -> nat {
    ((c as u32) - 48) as nat
}

pub open spec fn all_digits(s: Seq<char>) -> bool {
    forall|i: int| 0 <= i < s.len() ==> is_digit(#[trigger] s[i])
}

/// The number that a sequence of decimal digits writes.
pub open spec fn digits_value(s: Seq<char>) -> nat
    decreases s.len(),
{
    if s.len() == 0 {
        0
    } else {
        digits_value(s.drop_last()) * 10 + digit_value(s.last())
    }
}

pub open spec fn pow10(n: nat) -> nat
    decreases n,
{
    if n == 0 {
        1
    } else {
        10 * pow10((n - 1) as nat)
    }
}

/// The length of a leading sign, `+` or `-`.
pub open spec fn sign_len(w: Seq<char>) -> int {
    if w.len() > 0 && (w[0] == '+' || w[0] == '-') {
        1
    } else {
        0
    }
}

/// The index of the first `a` or `b`, or the length where there is none.
pub open spec fn first_index(u: Seq<char>, a: char, b: char) -> int
    decreases u.len(),
{
    if u.len() == 0 {
        0
    } else if u[0] == a || u[0] == b {
        0
    } else {
        1 + first_index(u.drop_first(), a, b)
    }
}

/// A number without its leading sign.
pub open spec fn unsigned_part(w: Seq<char>) -> Seq<char> {
    w.skip(sign_len(w))
}

/// The digits and point of a number, before any exponent mark `e` or `E`.
pub open spec fn mantissa(w: Seq<char>) -> Seq<char> {
    let u = unsigned_part(w);
    u.take(first_index(u, 'e', 'E'))
}

/// What follows the exponent mark of a number, where it has one.
pub open spec fn exponent_part(w: Seq<char>) -> Option<Seq<char>> {
    let u = unsigned_part(w);
    let q = first_index(u, 'e', 'E');
    if q < u.len() {
        Some(u.skip(q + 1))
    } else {
        None
    }
}

/// The digits of a number before its point.
pub open spec fn int_digits(w: Seq<char>) -> Seq<char> {
    let m = mantissa(w);
    m.take(first_index(m, '.', '.'))
}

/// The digits of a number after its point.
pub open spec fn frac_digits(w: Seq<char>) -> Seq<char> {
    let m = mantissa(w);
    let p = first_index(m, '.', '.');
    if p < m.len() {
        m.skip(p + 1)
    } else {
        Seq::empty()
    }
}

/// The signed power of ten that a number's exponent part writes (0 without one).
pub open spec fn exponent(w: Seq<char>) -> int {
    match exponent_part(w) {
        None => 0,
        Some(x) => if x.len() > 0 && x[0] == '-' {
            -(digits_value(x.skip(sign_len(x))) as int)
        } else {
            digits_value(x.skip(sign_len(x))) as int
        },
    }
}

/// A decimal magnitude: an optional sign; digits, optionally with a point,
/// at least one digit in all; then optionally `e` or `E`, an optional sign
/// and at least one digit.
pub open spec fn valid_number(w: Seq<char>) -> bool {
    &&& all_digits(int_digits(w))
    &&& all_digits(frac_digits(w))
    &&& int_digits(w).len() + frac_digits(w).len() > 0
    &&& match exponent_part(w) {
        None => true,
        Some(x) => x.skip(sign_len(x)).len() > 0 && all_digits(x.skip(sign_len(x))),
    }
}

/// `d * factor` times ten to the power `s`, rounded down.
pub open spec fn scaled_value(d: nat, factor: nat, s: int) -> nat {
    if s >= 0 {
        d * factor * pow10(s as nat)
    } else {
        d * factor / pow10((-s) as nat)
    }
}

/// The whole number of bytes in `w` units of `factor` bytes: the exact value
/// times `factor`, rounded down; 0 for a negative magnitude.
pub open spec fn magnitude(w: Seq<char>, factor: nat) -> nat {
    if w.len() > 0 && w[0] == '-' {
        0
    } else {
        scaled_value(
            digits_value(int_digits(w) + frac_digits(w)),
            factor,
            exponent(w) - frac_digits(w).len(),
        )
    }
}

/// A count held in a `u128`: larger counts stop at `u128::MAX`.
pub open spec fn capped_wide(n: nat) -> u128 {
    if n > u128::MAX {
        u128::MAX
    } else {
        n as u128
    }
}

proof fn lemma_pow10_positive(n: nat)
    ensures
        pow10(n) > 0,
    decreases n,
{
    if n > 0 {
        lemma_pow10_positive((n - 1) as nat);
    }
}

proof fn lemma_first_index_skip(u: Seq<char>, i: int, a: char, b: char)
    requires
        0 <= i <= u.len(),
        forall|j: int| 0 <= j < i ==> u[j] != a && u[j] != b,
    ensures
        first_index(u, a, b) == i + first_index(u.skip(i), a, b),
    decreases i,
{
    if i == 0 {
        assert(u.skip(0) =~= u);
    } else {
        assert(u.drop_first().skip(i - 1) =~= u.skip(i));
        lemma_first_index_skip(u.drop_first(), i - 1, a, b);
    }
}

proof fn lemma_pow10_grows(k: nat)
    ensures
        pow10(k) >= k + 1,
    decreases k,
{
    if k > 0 {
        lemma_pow10_grows((k - 1) as nat);
    }
}

proof fn lemma_pow10_mono(a: nat, b: nat)
    requires
        a <= b,
    ensures
        pow10(a) <= pow10(b),
    decreases b,
{
    lemma_pow10_positive(b);
    if a < b {
        lemma_pow10_mono(a, (b - 1) as nat);
    }
}

proof fn lemma_pow10_add(a: nat, b: nat)
    ensures
        pow10(a + b) == pow10(a) * pow10(b),
    decreases b,
{
    if b == 0 {
        assert(a + b == a);
        assert(pow10(0) == 1);
    } else {
        let c = (b - 1) as nat;
        lemma_pow10_add(a, c);
        let x = pow10(a);
        let y = pow10(c);
        assert(pow10(a + c) == x * y);
        assert(((a + b) - 1) as nat == a + c);
        assert(pow10(a + b) == 10 * pow10(a + c));
        assert(pow10(b) == 10 * y);
        assert(10 * (x * y) == x * (10 * y)) by (nonlinear_arith);
    }
}

/// Digits written one after the other: the first number shifted by the
/// length of the second.
proof fn lemma_digits_concat(a: Seq<char>, b: Seq<char>)
    ensures
        digits_value(a + b) == digits_value(a) * pow10(b.len()) + digits_value(b),
    decreases b.len(),
{
    if b.len() == 0 {
        assert(a + b =~= a);
        assert(pow10(0) == 1);
    } else {
        let c = b.drop_last();
        lemma_digits_concat(a, c);
        assert((a + b).drop_last() =~= a + c);
        assert((a + b).last() == b.last());
        let x = digits_value(a);
        let p = pow10(c.len());
        let y = digits_value(c);
        let l = digit_value(b.last());
        assert(digits_value(a + b) == digits_value(a + c) * 10 + l);
        assert(digits_value(b) == y * 10 + l);
        assert(pow10(b.len()) == 10 * p);
        assert((x * p + y) * 10 == x * (10 * p) + y * 10) by (nonlinear_arith);
    }
}

/// Capping a factor first does not change a capped product.
proof fn lemma_capped_mul(x: nat, y: nat)
    requires
        y >= 1,
    ensures
        capped(capped(x) as nat * y) == capped(x * y),
{
    if x > u64::MAX {
        assert(x * y >= x) by (nonlinear_arith)
            requires
                y >= 1,
        ;
        assert(u64::MAX as nat * y >= u64::MAX) by (nonlinear_arith)
            requires
                y >= 1,
        ;
    }
}

/// A leading digit adds its value times the power of ten of the digits after it.
proof fn lemma_digits_front(s: Seq<char>)
    requires
        s.len() > 0,
    ensures
        digits_value(s) == digit_value(s[0]) * pow10((s.len() - 1) as nat) + digits_value(
            s.drop_first(),
        ),
    decreases s.len(),
{
    if s.len() == 1 {
        assert(s.drop_last() =~= Seq::<char>::empty());
        assert(s.drop_first() =~= Seq::<char>::empty());
        assert(s.last() == s[0]);
        assert(pow10(0) == 1);
        assert(digits_value(s) == digits_value(s.drop_last()) * 10 + digit_value(s.last()));
        assert(digits_value(s.drop_last()) == 0);
        assert(digits_value(s.drop_first()) == 0);
        assert(digits_value(s) == digit_value(s[0]) * pow10(0) + digits_value(s.drop_first()));
    } else {
        let t = s.drop_last();
        let r = s.drop_first();
        lemma_digits_front(t);
        assert(t.drop_first() =~= r.drop_last());
        assert(r.last() == s.last());
        assert(t[0] == s[0]);
        let a = digit_value(s[0]);
        let b = pow10((t.len() - 1) as nat);
        let c = digits_value(t.drop_first());
        let e = digit_value(s.last());
        assert(digits_value(t) == a * b + c);
        assert(digits_value(s) == digits_value(t) * 10 + e);
        assert(pow10((s.len() - 1) as nat) == 10 * b);
        assert(digits_value(r) == digits_value(r.drop_last()) * 10 + e);
        assert(digits_value(r) == c * 10 + e);
        assert((a * b + c) * 10 == a * (10 * b) + c * 10) by (nonlinear_arith);
        assert(digits_value(s) == a * pow10((s.len() - 1) as nat) + digits_value(r));
    }
}

/// One step of reading fraction digits from the last: the value read so far,
/// scaled and rounded down, with one more digit in front.
proof fn lemma_frac_step(s: Seq<char>, f: nat)
    requires
        s.len() > 0,
    ensures
        digits_value(s) * f / pow10(s.len()) == (f * digit_value(s[0]) + digits_value(
            s.drop_first(),
        ) * f / pow10((s.len() - 1) as nat)) / 10,
{
    lemma_digits_front(s);
    let m = (s.len() - 1) as nat;
    let pm = pow10(m);
    lemma_pow10_positive(m);
    let d = digit_value(s[0]);
    let v = digits_value(s.drop_first());
    assert(pow10(s.len()) == 10 * pm);
    lemma_hoist_over_denominator((v * f) as int, (f * d) as int, pm);
    assert((v * f) + (f * d) * pm >= 0) by (nonlinear_arith);
    lemma_div_denominator((v * f + (f * d) * pm) as int, pm as int, 10);
    assert((d * pm + v) * f == v * f + (f * d) * pm) by (nonlinear_arith);
    assert(pm * 10 == 10 * pm);
}

fn is_digit_char(c: char) -> (r: bool)
    ensures
        r == is_digit(c),
{
    48 <= (c as u32) && (c as u32) <= 57
}

/// The value of the digits `d[lo..hi]`, capped at `u64::MAX`.
fn digits_capped(d: &Vec<char>, lo: usize, hi: usize) -> (r: u64)
    requires
        lo <= hi <= d@.len(),
        all_digits(d@),
    ensures
        r == capped(digits_value(d@.subrange(lo as int, hi as int))),
{
    let mut v: u64 = 0;
    let mut i = lo;
    assert(d@.subrange(lo as int, lo as int) =~= Seq::<char>::empty());
    while i < hi
        invariant
            lo <= i <= hi <= d@.len(),
            all_digits(d@),
            v == capped(digits_value(d@.subrange(lo as int, i as int))),
        decreases hi - i,
    {
        let c = d[i];
        assert(is_digit(d@[i as int]));
        let dv = ((c as u32) - 48) as u64;
        let ghost prev = d@.subrange(lo as int, i as int);
        let next: u64 = if v == u64::MAX {
            u64::MAX
        } else {
            match v.checked_mul(10) {
                Some(x) => match x.checked_add(dv) {
                    Some(y) => y,
                    None => u64::MAX,
                },
                None => u64::MAX,
            }
        };
        proof {
            let s = d@.subrange(lo as int, i + 1);
            assert(s.drop_last() =~= prev);
            assert(s.last() == c);
        }
        v = next;
        i = i + 1;
    }
    v
}

/// The digits `d[lo..]` read as a fraction below 1, times `factor`, rounded down.
fn frac_scaled(d: &Vec<char>, lo: usize, factor: u64) -> (r: u64)
    requires
        lo <= d@.len(),
        all_digits(d@),
        1 <= factor <= 1099511627776,
    ensures
        r == digits_value(d@.subrange(lo as int, d@.len() as int)) * (factor as nat) / pow10(
            (d@.len() - lo) as nat,
        ),
        r < 2 * factor,
{
    let n = d.len();
    let mut acc: u64 = 0;
    let mut j = n;
    assert(d@.subrange(n as int, n as int) =~= Seq::<char>::empty());
    assert(digits_value(Seq::<char>::empty()) == 0);
    assert(pow10(0) == 1);
    while j > lo
        invariant
            lo <= j <= n,
            n == d@.len(),
            all_digits(d@),
            1 <= factor <= 1099511627776,
            acc == digits_value(d@.subrange(j as int, n as int)) * (factor as nat) / pow10(
                (n - j) as nat,
            ),
            acc < 2 * factor,
        decreases j,
    {
        let c = d[j - 1];
        assert(is_digit(d@[j - 1]));
        let dv = ((c as u32) - 48) as u64;
        assert(factor * dv <= 9 * factor) by (nonlinear_arith)
            requires
                dv <= 9,
        ;
        let next = (factor * dv + acc) / 10;
        proof {
            let s = d@.subrange(j - 1, n as int);
            assert(s.drop_first() =~= d@.subrange(j as int, n as int));
            assert(s[0] == c);
            lemma_frac_step(s, factor as nat);
        }
        acc = next;
        j = j - 1;
    }
    acc
}

/// `v` times ten to the power `k`, capped at `u64::MAX`.
fn shift_up(v: u64, k: u128) -> (r: u64)
    ensures
        r == capped(v as nat * pow10(k as nat)),
{
    let mut x = v;
    let mut j: u128 = 0;
    assert(pow10(0) == 1);
    while j < k && x != 0 && x != u64::MAX
        invariant
            j <= k,
            x == capped(v as nat * pow10(j as nat)),
        decreases k - j,
    {
        proof {
            assert(pow10((j + 1) as nat) == 10 * pow10(j as nat));
            assert(v as nat * (10 * pow10(j as nat)) == (v as nat * pow10(j as nat)) * 10)
                by (nonlinear_arith);
        }
        x = match x.checked_mul(10) {
            Some(y) => y,
            None => u64::MAX,
        };
        j = j + 1;
    }
    proof {
        lemma_pow10_positive(j as nat);
        lemma_pow10_mono(j as nat, k as nat);
        if j < k {
            if x == 0 {
                assert(v == 0) by (nonlinear_arith)
                    requires
                        v as nat * pow10(j as nat) == 0,
                        pow10(j as nat) > 0,
                ;
            } else {
                assert(v as nat * pow10(j as nat) <= v as nat * pow10(k as nat)) by (nonlinear_arith)
                    requires
                        pow10(j as nat) <= pow10(k as nat),
                ;
            }
        }
    }
    x
}

/// `v` divided by ten to the power `k`, rounded down.
fn shift_down(v: u64, k: u128) -> (r: u64)
    ensures
        r == v as nat / pow10(k as nat),
{
    let mut x = v;
    let mut j: u128 = 0;
    assert(pow10(0) == 1);
    while j < k && x > 0
        invariant
            j <= k,
            x == v as nat / pow10(j as nat),
        decreases x,
    {
        proof {
            lemma_pow10_positive(j as nat);
            lemma_div_denominator(v as int, pow10(j as nat) as int, 10);
            assert(pow10((j + 1) as nat) == pow10(j as nat) * 10);
        }
        x = x / 10;
        j = j + 1;
    }
    proof {
        if j < k {
            lemma_pow10_positive(j as nat);
            lemma_pow10_mono(j as nat, k as nat);
            lemma_div_is_ordered_by_denominator(v as int, pow10(j as nat) as int, pow10(k as nat) as int);
        }
    }
    x
}

/// The digits `d` times `factor`, times ten to the power `s`, rounded down and
/// capped, where `s` is the exponent `e` (negated where `negative`) less the
/// `frac` fraction digits. `e` is the exponent capped at `u128::MAX`.
fn scale(d: &Vec<char>, frac: usize, negative: bool, e: u128, factor: u64, Ghost(exp): Ghost<nat>) -> (r: u64)
    requires
        frac <= d@.len(),
        all_digits(d@),
        1 <= factor <= 1099511627776,
        e == capped_wide(exp),
    ensures
        r == capped(
            scaled_value(
                digits_value(d@),
                factor as nat,
                (if negative { -(exp as int) } else { exp as int }) - frac,
            ),
        ),
{
    let n = d.len();
    let ghost dv = digits_value(d@);
    let ghost f = factor as nat;
    let ghost s = (if negative { -(exp as int) } else { exp as int }) - frac;
    assert(d@.subrange(0, n as int) =~= d@);
    if !negative && e >= frac as u128 || negative && e == 0 && frac == 0 {
        let dc = digits_capped(d, 0, n);
        proof {
            lemma_capped_mul(dv, f);
        }
        let v: u64 = if dc == u64::MAX {
            assert(u64::MAX as nat * f >= u64::MAX) by (nonlinear_arith)
                requires
                    f >= 1,
            ;
            u64::MAX
        } else {
            match dc.checked_mul(factor) {
                Some(x) => x,
                None => u64::MAX,
            }
        };
        let k: u128 = if negative {
            0
        } else {
            e - frac as u128
        };
        let r = shift_up(v, k);
        proof {
            assert(v == capped(dv * f));
            lemma_pow10_positive(k as nat);
            lemma_capped_mul(dv * f, pow10(k as nat));
            assert(dv * f * pow10(k as nat) == (dv * f) * pow10(k as nat));
            if e == u128::MAX && !negative {
                lemma_pow10_grows(k as nat);
                lemma_pow10_grows(s as nat);
                if v != 0 {
                    assert(dv * f >= 1);
                    assert((dv * f) * pow10(k as nat) >= pow10(k as nat)) by (nonlinear_arith)
                        requires
                            dv * f >= 1,
                    ;
                    assert((dv * f) * pow10(s as nat) >= pow10(s as nat)) by (nonlinear_arith)
                        requires
                            dv * f >= 1,
                    ;
                    assert(r == u64::MAX);
                } else {
                    assert(dv * f == 0);
                    assert(0 * pow10(k as nat) == 0);
                    assert(r == 0);
                }
            } else {
                assert(s == k);
                assert(r == capped(dv * f * pow10(k as nat)));
            }
        }
        return r;
    }
    let m: u128 = if negative {
        if e > u128::MAX - frac as u128 {
            u128::MAX
        } else {
            e + frac as u128
        }
    } else {
        frac as u128 - e
    };
    assert(m >= 1);
    assert(m < u128::MAX ==> m == -s);
    assert(m == u128::MAX ==> -s >= m);
    proof {
        lemma_pow10_positive(m as nat);
    }
    if m <= n as u128 {
        let j = n - m as usize;
        let whole = digits_capped(d, 0, j);
        let part = frac_scaled(d, j, factor);
        let ghost iv = digits_value(d@.subrange(0, j as int));
        let ghost fv = digits_value(d@.subrange(j as int, n as int));
        let ghost pm = pow10(m as nat);
        proof {
            assert(d@ =~= d@.subrange(0, j as int) + d@.subrange(j as int, n as int));
            lemma_digits_concat(d@.subrange(0, j as int), d@.subrange(j as int, n as int));
            assert(dv * f == (fv * f) + (iv * f) * pm) by (nonlinear_arith)
                requires
                    dv == iv * pm + fv,
            ;
            lemma_hoist_over_denominator((fv * f) as int, (iv * f) as int, pm);
            assert(dv * f / pm == iv * f + part);
            assert(-s == m);
            assert(scaled_value(dv, f, s) == iv * f + part);
        }
        let total: u64 = if whole == u64::MAX {
            u64::MAX
        } else {
            match whole.checked_mul(factor) {
                Some(x) => match x.checked_add(part) {
                    Some(y) => y,
                    None => u64::MAX,
                },
                None => u64::MAX,
            }
        };
        proof {
            if whole == u64::MAX {
                assert(iv * f >= iv) by (nonlinear_arith)
                    requires
                        f >= 1,
                ;
            }
        }
        total
    } else {
        let acc = frac_scaled(d, 0, factor);
        let r = shift_down(acc, m - n as u128);
        proof {
            let t = (-s) as nat;
            lemma_pow10_positive(n as nat);
            lemma_pow10_positive((t - n) as nat);
            lemma_pow10_add(n as nat, (t - n) as nat);
            lemma_div_denominator((dv * f) as int, pow10(n as nat) as int, pow10((t - n) as nat) as int);
            assert(pow10(n as nat) * pow10((t - n) as nat) == pow10(t));
            if m < u128::MAX {
                assert(m == t);
                assert(r == dv * f / pow10(t));
            } else {
                lemma_pow10_grows(((m - n) as nat));
                lemma_basic_div(acc as int, pow10((m - n) as nat) as int);
                assert(r == 0);
                lemma_pow10_mono((m - n) as nat, (t - n) as nat);
                lemma_div_is_ordered_by_denominator(acc as int, pow10((m - n) as nat) as int, pow10((t - n) as nat) as int);
                assert(dv * f / pow10(t) == 0);
            }
            assert(scaled_value(dv, f, s) == dv * f / pow10(t));
        }
        r
    }
}

/// Reads the exponent part `number[lo..]`: an optional sign and at least one
/// digit. Gives whether it is negative and its value, capped at `u128::MAX`.
fn read_exponent(number: &str, lo: usize) -> (r: Option<(bool, u128)>)
    requires
        lo <= number@.len(),
    ensures
        ({
            let x = number@.subrange(lo as int, number@.len() as int);
            let ds = x.skip(sign_len(x));
            &&& r is Some <==> ds.len() > 0 && all_digits(ds)
            &&& r is Some ==> r->Some_0.0 == (x.len() > 0 && x[0] == '-') && r->Some_0.1
                == capped_wide(digits_value(ds))
        }),
{
    let ghost w = number@;
    let n = number.unicode_len();
    let ghost x = w.subrange(lo as int, n as int);
    let mut start = lo;
    let mut negative = false;
    if start < n {
        let c = number.get_char(start);
        if c == '+' || c == '-' {
            negative = c == '-';
            start = start + 1;
        }
    }
    let ghost ds = x.skip(sign_len(x));
    assert(sign_len(x) == start - lo);
    assert(negative == (x.len() > 0 && x[0] == '-'));
    assert(ds =~= w.subrange(start as int, n as int));
    if start == n {
        return None;
    }
    let mut e: u128 = 0;
    let mut k = start;
    assert(w.subrange(start as int, start as int) =~= Seq::<char>::empty());
    while k < n
        invariant
            start <= k <= n,
            n == w.len(),
            w == number@,
            all_digits(w.subrange(start as int, k as int)),
            e == capped_wide(digits_value(w.subrange(start as int, k as int))),
            ds == w.subrange(start as int, n as int),
            x == w.subrange(lo as int, n as int),
            negative == (x.len() > 0 && x[0] == '-'),
            ds == x.skip(sign_len(x)),
        decreases n - k,
    {
        let c = number.get_char(k);
        if !is_digit_char(c) {
            assert(w.subrange(start as int, n as int)[k - start] == c);
            return None;
        }
        let dv = ((c as u32) - 48) as u128;
        let ghost prev = w.subrange(start as int, k as int);
        let next: u128 = if e == u128::MAX {
            u128::MAX
        } else {
            match e.checked_mul(10) {
                Some(y) => match y.checked_add(dv) {
                    Some(z) => z,
                    None => u128::MAX,
                },
                None => u128::MAX,
            }
        };
        proof {
            let s = w.subrange(start as int, k + 1);
            assert(s.drop_last() =~= prev);
            assert(s.last() == c);
        }
        e = next;
        k = k + 1;
    }
    assert(w.subrange(start as int, n as int) == ds);
    Some((negative, e))
}

/// Where the parts of a number stand: the sign ends at `start`, the point
/// (if any) is at `p` and the exponent mark (if any) at `q`.
proof fn lemma_number_parts(w: Seq<char>, start: int, p: int, q: int)
    requires
        start == sign_len(w),
        start <= p <= q <= w.len(),
        forall|j: int| start <= j < q ==> w[j] != 'e' && w[j] != 'E',
        q < w.len() ==> w[q] == 'e' || w[q] == 'E',
        forall|j: int| start <= j < p ==> w[j] != '.',
        p < q ==> w[p] == '.',
    ensures
        int_digits(w) == w.subrange(start, p),
        frac_digits(w) == (if p < q { w.subrange(p + 1, q) } else { Seq::<char>::empty() }),
        exponent_part(w) == (if q < w.len() { Some(w.subrange(q + 1, w.len() as int)) } else { None }),
{
    let u = w.skip(start);
    let mw = w.subrange(start, q);
    assert forall|j: int| 0 <= j < q - start implies u[j] != 'e' && u[j] != 'E' by {
        assert(u[j] == w[j + start]);
    }
    lemma_first_index_skip(u, q - start, 'e', 'E');
    if q < w.len() {
        assert(u.skip(q - start)[0] == w[q]);
        assert(u.skip(q - start + 1) =~= w.subrange(q + 1, w.len() as int));
    } else {
        assert(u.skip(q - start) =~= Seq::<char>::empty());
    }
    assert(mantissa(w) =~= mw);
    assert forall|j: int| 0 <= j < p - start implies mw[j] != '.' by {
        assert(mw[j] == w[j + start]);
    }
    lemma_first_index_skip(mw, p - start, '.', '.');
    if p < q {
        assert(mw.skip(p - start)[0] == w[p]);
        assert(frac_digits(w) =~= w.subrange(p + 1, q));
    } else {
        assert(mw.skip(p - start) =~= Seq::<char>::empty());
        assert(frac_digits(w) =~= Seq::<char>::empty());
    }
    assert(int_digits(w) =~= w.subrange(start, p));
}

/// Appends the characters `number[lo..hi]` to `digits` where all are decimal
/// digits; says whether they are.
fn collect_digits(number: &str, lo: usize, hi: usize, digits: &mut Vec<char>) -> (r: bool)
    requires
        lo <= hi <= number@.len(),
        all_digits(old(digits)@),
    ensures
        r == all_digits(number@.subrange(lo as int, hi as int)),
        r ==> final(digits)@ == old(digits)@ + number@.subrange(lo as int, hi as int),
        all_digits(final(digits)@),
{
    let ghost w = number@;
    let ghost base = digits@;
    let mut i = lo;
    assert(base + w.subrange(lo as int, lo as int) =~= base);
    while i < hi
        invariant
            lo <= i <= hi <= w.len(),
            w == number@,
            digits@ == base + w.subrange(lo as int, i as int),
            all_digits(w.subrange(lo as int, i as int)),
            all_digits(digits@),
        decreases hi - i,
    {
        let c = number.get_char(i);
        if !is_digit_char(c) {
            assert(w.subrange(lo as int, hi as int)[i - lo] == c);
            return false;
        }
        digits.push(c);
        assert(digits@ =~= base + w.subrange(lo as int, i + 1));
        assert(w.subrange(lo as int, i + 1) =~= w.subrange(lo as int, i as int).push(c));
        i = i + 1;
    }
    true
}

/// Reads a decimal magnitude in units of `factor` bytes: `None` where
/// `number` is not a valid magnitude, else the byte count, rounded down and
/// capped at `u64::MAX`.
pub fn parse_magnitude(number: &str, factor: u64) -> (r: Option<u64>)
    requires
        1 <= factor <= 1099511627776,
    ensures
        r is Some <==> valid_number(number@),
        r is Some ==> r->Some_0 == capped(magnitude(number@, factor as nat)),
{
    let ghost w = number@;
    let n = number.unicode_len();
    let mut start: usize = 0;
    let mut negative = false;
    if n > 0 {
        let c = number.get_char(0);
        if c == '+' || c == '-' {
            start = 1;
            negative = c == '-';
        }
    }
    let mut q = start;
    while q < n && number.get_char(q) != 'e' && number.get_char(q) != 'E'
        invariant
            start <= q <= n,
            n == w.len(),
            w == number@,
            forall|j: int| start <= j < q ==> w[j] != 'e' && w[j] != 'E',
        decreases n - q,
    {
        q = q + 1;
    }
    let mut p = start;
    while p < q && number.get_char(p) != '.'
        invariant
            start <= p <= q <= n,
            n == w.len(),
            w == number@,
            forall|j: int| start <= j < p ==> w[j] != '.',
        decreases q - p,
    {
        p = p + 1;
    }
    proof {
        lemma_number_parts(w, start as int, p as int, q as int);
    }
    let mut digits: Vec<char> = Vec::new();
    if !collect_digits(number, start, p, &mut digits) {
        return None;
    }
    let int_len = digits.len();
    if p < q {
        if !collect_digits(number, p + 1, q, &mut digits) {
            return None;
        }
    }
    assert(digits@ =~= int_digits(w) + frac_digits(w));
    if digits.len() == 0 {
        return None;
    }
    let mut exp_negative = false;
    let mut e: u128 = 0;
    let ghost mut exp: nat = 0;
    if q < n {
        match read_exponent(number, q + 1) {
            None => return None,
            Some((neg, v)) => {
                exp_negative = neg;
                e = v;
                proof {
                    let x = w.subrange(q + 1, n as int);
                    exp = digits_value(x.skip(sign_len(x)));
                }
            },
        }
    }
    assert(exponent(w) == if exp_negative { -(exp as int) } else { exp as int });
    assert(valid_number(w));
    if negative {
        return Some(0);
    }
    Some(scale(&digits, digits.len() - int_len, exp_negative, e, factor, Ghost(exp)))
}

/// Unicode white space, as `char::is_whitespace` has it.
pub open spec fn is_space(c: char) -> bool {
    let v = c as u32;
    ||| 9 <= v <= 13
    ||| v == 32
    ||| v == 0x85
    ||| v == 0xA0
    ||| v == 0x1680
    ||| 0x2000 <= v <= 0x200A
    ||| v == 0x2028
    ||| v == 0x2029
    ||| v == 0x202F
    ||| v == 0x205F
    ||| v == 0x3000
}

/// The maximal runs of non-space characters of `s`, in order.
pub open spec fn words(s: Seq<char>) -> Seq<Seq<char>>
    decreases s.len(),
{
    if s.len() == 0 {
        Seq::empty()
    } else {
        let w = words(s.drop_last());
        let c = s.last();
        if is_space(c) {
            w
        } else if s.len() == 1 || is_space(s[s.len() - 2]) {
            w.push(seq![c])
        } else {
            w.update(w.len() - 1, w.last().push(c))
        }
    }
}

/// The unit that a lowercase unit word names: its index for `unit_factor`.
pub open spec fn unit_of(u: Seq<char>) -> Option<nat> {
    if u == seq!['b', 'y', 't', 'e', 's'] {
        Some(0)
    } else if u == seq!['k', 'b'] {
        Some(1)
    } else if u == seq!['m', 'b'] {
        Some(2)
    } else if u == seq!['g', 'b'] {
        Some(3)
    } else if u == seq!['t', 'b'] {
        Some(4)
    } else {
        None
    }
}

/// What reading a magnitude and a lowercase unit word gives: the number
/// is checked first, then the unit.
pub open spec fn parts_result(number: Seq<char>, unit: Seq<char>, r: Result<u64, String>) -> bool {
    if !valid_number(number) {
        r is Err && r->Err_0@ == "Invalid number"@
    } else if unit_of(unit) is None {
        r is Err && r->Err_0@ == "Invalid unit"@
    } else {
        r == Ok::<u64, String>(capped(magnitude(number, unit_factor(unit_of(unit)->Some_0))))
    }
}

/// The lowercase form of a text, as `str::to_lowercase` gives it.
pub uninterp spec fn lower_of(s: Seq<char>) -> Seq<char>;

/// Relies on `str::to_lowercase` (std): the lowercase form of the unit word,
/// which depends on its characters alone.
#[verifier::external_body]
fn lowercase(s: &str) -> (r: String)
    ensures
        r@ == lower_of(s@),
{
    s.to_lowercase()
}

fn is_space_char(c: char) -> (r: bool)
    ensures
        r == is_space(c),
{
    let v = c as u32;
    (9 <= v && v <= 13) || v == 32 || v == 0x85 || v == 0xA0 || v == 0x1680 || (0x2000 <= v && v
        <= 0x200A) || v == 0x2028 || v == 0x2029 || v == 0x202F || v == 0x205F || v == 0x3000
}

/// The white-space separated words of `s`.
fn split_words(s: &str) -> (r: Vec<&str>)
    ensures
        r@.len() == words(s@).len(),
        forall|k: int| 0 <= k < r@.len() ==> (#[trigger] r@[k])@ == words(s@)[k],
{
    let n = s.unicode_len();
    let mut out: Vec<&str> = Vec::new();
    let ghost mut ws: Seq<Seq<char>> = Seq::empty();
    let mut i: usize = 0;
    let mut start: usize = 0;
    let mut in_word = false;
    assert(s@.take(0) =~= Seq::<char>::empty());
    while i < n
        invariant
            n == s@.len(),
            i <= n,
            start <= i,
            out@.len() == ws.len(),
            forall|k: int| 0 <= k < out@.len() ==> (#[trigger] out@[k])@ == ws[k],
            in_word ==> start < i && !is_space(s@[i - 1]) && words(s@.take(i as int)) == ws.push(
                s@.subrange(start as int, i as int),
            ),
            !in_word ==> (i == 0 || is_space(s@[i - 1])) && words(s@.take(i as int)) == ws,
        decreases n - i,
    {
        let c = s.get_char(i);
        let ghost t = s@.take(i + 1);
        proof {
            assert(t.drop_last() =~= s@.take(i as int));
            assert(t.last() == c);
            if i > 0 {
                assert(t[t.len() - 2] == s@[i - 1]);
            }
        }
        if is_space_char(c) {
            if in_word {
                let word = s.substring_char(start, i);
                out.push(word);
                proof {
                    ws = ws.push(s@.subrange(start as int, i as int));
                }
                in_word = false;
            }
        } else if !in_word {
            start = i;
            in_word = true;
            proof {
                assert(s@.subrange(start as int, i + 1) =~= seq![c]);
            }
        } else {
            proof {
                let w = ws.push(s@.subrange(start as int, i as int));
                assert(w.last().push(c) =~= s@.subrange(start as int, i + 1));
                assert(w.update(w.len() - 1, w.last().push(c)) =~= ws.push(
                    s@.subrange(start as int, i + 1),
                ));
            }
        }
        i = i + 1;
    }
    assert(s@.take(n as int) =~= s@);
    if in_word {
        let word = s.substring_char(start, n);
        out.push(word);
        proof {
            ws = ws.push(s@.subrange(start as int, n as int));
        }
    }
    out
}

/// Whether two texts hold the same characters.
fn same_text(a: &str, b: &str) -> (r: bool)
    ensures
        r == (a@ == b@),
{
    let n = a.unicode_len();
    if n != b.unicode_len() {
        return false;
    }
    let mut i: usize = 0;
    while i < n
        invariant
            n == a@.len(),
            n == b@.len(),
            i <= n,
            a@.take(i as int) == b@.take(i as int),
        decreases n - i,
    {
        if a.get_char(i) != b.get_char(i) {
            return false;
        }
        assert(a@.take(i + 1) =~= a@.take(i as int).push(a@[i as int]));
        assert(b@.take(i + 1) =~= b@.take(i as int).push(b@[i as int]));
        i = i + 1;
    }
    assert(a@ =~= a@.take(n as int));
    assert(b@ =~= b@.take(n as int));
    true
}

/// The multiplier of a lowercase unit word: 1 for "bytes", then 1024 raised
/// to 1, 2, 3, 4 for "kb", "mb", "gb", "tb"; `None` for any other word.
pub fn unit_multiplier(unit: &str) -> (r: Option<u64>)
    ensures
        match unit_of(unit@) {
            Some(k) => r == Some(unit_factor(k) as u64),
            None => r is None,
        },
{
    proof {
        reveal_strlit("bytes");
        reveal_strlit("kb");
        reveal_strlit("mb");
        reveal_strlit("gb");
        reveal_strlit("tb");
        assert("bytes"@ =~= seq!['b', 'y', 't', 'e', 's']);
        assert("kb"@ =~= seq!['k', 'b']);
        assert("mb"@ =~= seq!['m', 'b']);
        assert("gb"@ =~= seq!['g', 'b']);
        assert("tb"@ =~= seq!['t', 'b']);
    }
    if same_text(unit, "bytes") {
        Some(1)
    } else if same_text(unit, "kb") {
        Some(1024)
    } else if same_text(unit, "mb") {
        Some(1048576)
    } else if same_text(unit, "gb") {
        Some(1073741824)
    } else if same_text(unit, "tb") {
        Some(1099511627776)
    } else {
        None
    }
}

/// Reads a magnitude and a lowercase unit word: "Invalid number" where the
/// magnitude is not a decimal number, else "Invalid unit" where the word names
/// no unit, else the byte count (rounded down, capped at `u64::MAX`).
pub fn size_from_parts(number: &str, unit: &str) -> (r: Result<u64, String>)
    ensures
        parts_result(number@, unit@, r),
{
    let factor = unit_multiplier(unit);
    let value = match factor {
        Some(f) => parse_magnitude(number, f),
        None => parse_magnitude(number, 1),
    };
    match value {
        None => Err("Invalid number".to_string()),
        Some(v) => match factor {
            None => Err("Invalid unit".to_string()),
            Some(_) => Ok(v),
        },
    }
}

/// Reads a size label, "<number> <unit>": exactly two white-space separated
/// words, a decimal magnitude and a unit among bytes, KB, MB, GB, TB in any
/// case. Fails with "Invalid format" on another number of words, then as
/// `size_from_parts` on the magnitude and the lowercase unit word.
pub fn label_to_size(label: &str) -> (r: Result<u64, String>)
    ensures
        words(label@).len() != 2 ==> r is Err && r->Err_0@ == "Invalid format"@,
        words(label@).len() == 2 ==> parts_result(words(label@)[0], lower_of(words(label@)[1]), r),
{
    let parts = split_words(label);
    if parts.len() != 2 {
        return Err("Invalid format".to_string());
    }
    let unit = lowercase(parts[1]);
    size_from_parts(parts[0], unit.as_str())
}

proof fn lemma_decimal_digits(n: nat)
    ensures
        decimal(n).len() > 0,
        all_digits(decimal(n)),
        digits_value(decimal(n)) == n,
        forall|i: int| 0 <= i < decimal(n).len() ==> #[trigger] decimal(n)[i] != '.',
        decimal(n)[0] != '+' && decimal(n)[0] != '-',
    decreases n,
{
    let d = n % 10;
    assert(digit_value(digit_char(d)) == d && is_digit(digit_char(d)));
    if n >= 10 {
        lemma_decimal_digits(n / 10);
        let s = decimal(n);
        assert(s.drop_last() =~= decimal(n / 10));
        assert(s.last() == digit_char(d));
        assert(digits_value(s) == (n / 10) * 10 + d);
        assert(s[0] == decimal(n / 10)[0]);
        assert forall|i: int| 0 <= i < s.len() implies is_digit(#[trigger] s[i]) && s[i] != '.' by {
            if i < s.len() - 1 {
                assert(s[i] == decimal(n / 10)[i]);
            }
        }
    } else {
        assert(decimal(n).drop_last() =~= Seq::<char>::empty());
        assert(decimal(n).last() == digit_char(d));
        assert(digits_value(Seq::<char>::empty()) == 0);
        assert(digits_value(decimal(n)) == digits_value(decimal(n).drop_last()) * 10 + digit_value(
            decimal(n).last(),
        ));
        assert(n % 10 == n);
    }
}

/// Round counts go through a label unchanged: "n <unit>" with `n` from 1 to
/// 1023 reads as n times the unit's multiplier, and that byte count is
/// labelled with the same `n` and the same unit (with four zero fractional
/// digits above bytes).
pub proof fn law_round_labels(n: nat, k: nat)
    requires
        1 <= n < 1024,
        k <= 4,
    ensures
        valid_number(decimal(n)),
        magnitude(decimal(n), unit_factor(k)) == n * unit_factor(k),
        k == 0 ==> label_of(n) == decimal(n) + seq![' ', 'b', 'y', 't', 'e', 's'],
        k > 0 ==> label_of(n * unit_factor(k)) == decimal(n) + seq!['.', '0', '0', '0', '0', ' ']
            + unit_name(k),
{
    let w = decimal(n);
    let f = unit_factor(k);
    lemma_decimal_digits(n);
    assert(sign_len(w) == 0);
    assert(w.skip(0) =~= w);
    lemma_first_index_skip(w, w.len() as int, 'e', 'E');
    lemma_first_index_skip(w, w.len() as int, '.', '.');
    assert(w.skip(w.len() as int) =~= Seq::<char>::empty());
    assert(mantissa(w) =~= w);
    assert(exponent_part(w) is None);
    assert(int_digits(w) =~= w);
    assert(frac_digits(w) =~= Seq::<char>::empty());
    assert(int_digits(w) + frac_digits(w) =~= w);
    assert(pow10(0) == 1);
    assert(magnitude(w, f) == n * f * 1);
    if k > 0 {
        let size = n * f;
        assert(f <= size < 1024 * f) by (nonlinear_arith)
            requires
                size == n * f,
                1 <= n < 1024,
                f > 0,
        ;
        assert(unit_index(size) == k);
        assert(size * 10000 == (n * 10000) * f) by (nonlinear_arith)
            requires
                size == n * f,
        ;
        lemma_fundamental_div_mod_converse((size * 10000) as int, f as int, (n * 10000) as int, 0);
        let r = round_div(size * 10000, f);
        assert(r == n * 10000);
        lemma_fundamental_div_mod_converse(r as int, 10000, n as int, 0);
        assert(four_digits(0) =~= seq!['0', '0', '0', '0']);
        assert(label_of(size) =~= decimal(n) + seq!['.', '0', '0', '0', '0', ' '] + unit_name(k));
    }
}

} // verus!
