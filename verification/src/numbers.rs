//! Decimal rendering and parsing of the integers that appear in object
//! ids, versions, changesets and fixed-point coordinates, with the
//! round-trip lemmas the cache codec builds on.

use vstd::prelude::*;

verus! {

/// The character for a single decimal digit value.
pub open spec fn digit_char(d: nat) -> char {
    if d == 0 { '0' }
    else if d == 1 { '1' }
    else if d == 2 { '2' }
    else if d == 3 { '3' }
    else if d == 4 { '4' }
    else if d == 5 { '5' }
    else if d == 6 { '6' }
    else if d == 7 { '7' }
    else if d == 8 { '8' }
    else { '9' }
}

pub open spec fn is_digit(c: char) -> bool {
    c == '0' || c == '1' || c == '2' || c == '3' || c == '4' || c == '5' || c == '6' || c == '7'
        || c == '8' || c == '9'
}

/// The numeric value of a decimal digit character.
pub open spec fn digit_val(c: char) -> nat {
    if c == '0' { 0 }
    else if c == '1' { 1 }
    else if c == '2' { 2 }
    else if c == '3' { 3 }
    else if c == '4' { 4 }
    else if c == '5' { 5 }
    else if c == '6' { 6 }
    else if c == '7' { 7 }
    else if c == '8' { 8 }
    else { 9 }
}

/// The usual decimal rendering of `n`, most significant digit first,
/// without leading zeroes (`0` renders as `"0"`).
pub open spec fn dec_digits(n: nat) -> Seq<char>
    decreases n,
{
    if n < 10 {
        seq![digit_char(n)]
    } else {
        dec_digits(n / 10) + seq![digit_char(n % 10)]
    }
}

pub open spec fn pow10(k: nat) -> nat
    decreases k,
{
    if k == 0 {
        1
    } else {
        10 * pow10((k - 1) as nat)
    }
}

proof fn lemma_digit_val_char(d: nat)
    requires
        d < 10,
    ensures
        is_digit(digit_char(d)),
        digit_val(digit_char(d)) == d,
{
}

pub proof fn lemma_dec_digits_all_digits(n: nat)
    ensures
        dec_digits(n).len() >= 1,
        forall|i: int| 0 <= i < dec_digits(n).len() ==> is_digit(#[trigger] dec_digits(n)[i]),
    decreases n,
{
    if n < 10 {
        lemma_digit_val_char(n);
    } else {
        lemma_dec_digits_all_digits(n / 10);
        lemma_digit_val_char(n % 10);
        assert(dec_digits(n).last() == digit_char(n % 10));
    }
}

/// Scan decimal digits starting at `i`, folding them onto `acc`; stops at
/// the first non-digit or the end of the sequence.
pub open spec fn scan_dec(s: Seq<char>, i: int, acc: nat) -> (nat, int)
    decreases s.len() - i,
{
    if 0 <= i < s.len() && is_digit(s[i]) {
        scan_dec(s, i + 1, acc * 10 + digit_val(s[i]))
    } else {
        (acc, i)
    }
}

/// Parse a decimal number at position `i`: at least one digit is required.
pub open spec fn parse_dec(s: Seq<char>, i: int) -> Option<(nat, int)> {
    if 0 <= i < s.len() && is_digit(s[i]) {
        Some(scan_dec(s, i, 0))
    } else {
        None
    }
}

proof fn lemma_scan_dec_bounds(s: Seq<char>, i: int, acc: nat)
    requires
        0 <= i <= s.len(),
    ensures
        i <= scan_dec(s, i, acc).1 <= s.len(),
    decreases s.len() - i,
{
    if i < s.len() && is_digit(s[i]) {
        lemma_scan_dec_bounds(s, i + 1, acc * 10 + digit_val(s[i]));
    }
}

pub proof fn lemma_parse_dec_bounds(s: Seq<char>, i: int)
    requires
        0 <= i <= s.len(),
        parse_dec(s, i) is Some,
    ensures
        i < (parse_dec(s, i)->0).1 <= s.len(),
{
    lemma_scan_dec_bounds(s, i + 1, digit_val(s[i]));
}

/// Folding a sequence of digit characters onto an accumulator, most
/// significant first, as `scan_dec` does.
pub open spec fn fold_digits(acc: nat, ds: Seq<char>) -> nat
    decreases ds.len(),
{
    if ds.len() == 0 {
        acc
    } else {
        fold_digits(acc * 10 + digit_val(ds[0]), ds.drop_first())
    }
}

proof fn lemma_fold_digits_append(acc: nat, ds: Seq<char>, d: char)
    ensures
        fold_digits(acc, ds + seq![d]) == fold_digits(acc, ds) * 10 + digit_val(d),
    decreases ds.len(),
{
    if ds.len() == 0 {
        assert(ds + seq![d] =~= seq![d]);
        assert((seq![d])[0] == d);
        assert((seq![d]).drop_first() =~= Seq::<char>::empty());
        assert(fold_digits(acc * 10 + digit_val(d), Seq::<char>::empty()) == acc * 10 + digit_val(
            d,
        ));
        assert(fold_digits(acc, seq![d]) == acc * 10 + digit_val(d));
    } else {
        let acc2 = acc * 10 + digit_val(ds[0]);
        assert((ds + seq![d])[0] == ds[0]);
        assert((ds + seq![d]).drop_first() =~= ds.drop_first() + seq![d]);
        lemma_fold_digits_append(acc2, ds.drop_first(), d);
    }
}

proof fn lemma_fold_dec_digits(acc: nat, n: nat)
    ensures
        fold_digits(acc, dec_digits(n)) == acc * pow10(dec_digits(n).len()) + n,
    decreases n,
{
    if n < 10 {
        lemma_digit_val_char(n);
        assert(dec_digits(n) == seq![digit_char(n)]);
        assert((seq![digit_char(n)])[0] == digit_char(n));
        assert((seq![digit_char(n)]).drop_first() =~= Seq::<char>::empty());
        assert(fold_digits(acc * 10 + n, Seq::<char>::empty()) == acc * 10 + n);
        assert(fold_digits(acc, dec_digits(n)) == acc * 10 + n);
        assert(pow10(0) == 1);
        assert(pow10(1) == 10);
    } else {
        let hd = dec_digits(n / 10);
        lemma_fold_digits_append(acc, hd, digit_char(n % 10));
        lemma_fold_dec_digits(acc, n / 10);
        lemma_digit_val_char(n % 10);
        let k = hd.len();
        assert(pow10(k + 1) == 10 * pow10(k));
        assert((acc * pow10(k) + n / 10) * 10 + n % 10 == acc * (10 * pow10(k)) + n)
            by (nonlinear_arith)
            requires
                n >= 10,
        ;
        assert(dec_digits(n).len() == k + 1);
    }
}

/// Scanning a stretch of digit characters placed at `i`, with whatever
/// follows not a digit, folds exactly those digits onto the accumulator.
proof fn lemma_scan_digits(s: Seq<char>, i: int, acc: nat, ds: Seq<char>)
    requires
        0 <= i,
        i + ds.len() <= s.len(),
        forall|k: int| 0 <= k < ds.len() ==> is_digit(#[trigger] ds[k]),
        forall|k: int| 0 <= k < ds.len() ==> s[i + k] == #[trigger] ds[k],
        i + ds.len() == s.len() || !is_digit(s[i + ds.len()]),
    ensures
        scan_dec(s, i, acc) == (fold_digits(acc, ds), i + ds.len() as int),
    decreases ds.len(),
{
    if ds.len() == 0 {
    } else {
        assert(s[i] == ds[0]);
        let acc2 = acc * 10 + digit_val(ds[0]);
        assert(forall|k: int|
            0 <= k < ds.drop_first().len() ==> s[i + 1 + k] == #[trigger] ds.drop_first()[k]);
        lemma_scan_digits(s, i + 1, acc2, ds.drop_first());
    }
}

/// Rendering then parsing returns the same number, provided whatever
/// follows the digits is not itself a digit.
pub proof fn lemma_parse_dec_render(s: Seq<char>, i: int, n: nat)
    requires
        0 <= i,
        i + dec_digits(n).len() <= s.len(),
        forall|k: int| 0 <= k < dec_digits(n).len() ==> s[i + k] == #[trigger] dec_digits(n)[k],
        i + dec_digits(n).len() == s.len() || !is_digit(s[i + dec_digits(n).len()]),
    ensures
        parse_dec(s, i) == Some((n, i + dec_digits(n).len() as int)),
{
    lemma_dec_digits_all_digits(n);
    assert(s[i] == dec_digits(n)[0]);
    lemma_scan_digits(s, i, 0, dec_digits(n));
    lemma_fold_dec_digits(0, n);
}

/// One decimal digit as a string slice.
fn digit_str(d: u64) -> (r: &'static str)
    requires
        d < 10,
    ensures
        r@ == seq![digit_char(d as nat)],
{
    proof {
        reveal_strlit("0");
        reveal_strlit("1");
        reveal_strlit("2");
        reveal_strlit("3");
        reveal_strlit("4");
        reveal_strlit("5");
        reveal_strlit("6");
        reveal_strlit("7");
        reveal_strlit("8");
        reveal_strlit("9");
    }
    match d {
        0 => "0",
        1 => "1",
        2 => "2",
        3 => "3",
        4 => "4",
        5 => "5",
        6 => "6",
        7 => "7",
        8 => "8",
        _ => "9",
    }
}

/// Render `n` in decimal.
pub fn u64_to_string(n: u64) -> (r: String)
    ensures
        r@ == dec_digits(n as nat),
    decreases n,
{
    if n < 10 {
        digit_str(n).to_owned()
    } else {
        let mut s = u64_to_string(n / 10);
        s.append(digit_str(n % 10));
        s
    }
}


pub proof fn lemma_pow10_positive(k: nat)
    ensures
        pow10(k) >= 1,
    decreases k,
{
    if k > 0 {
        lemma_pow10_positive((k - 1) as nat);
    }
}

pub proof fn lemma_pow10_le(a: nat, b: nat)
    requires
        a <= b,
    ensures
        pow10(a) <= pow10(b),
    decreases b,
{
    if a < b {
        lemma_pow10_le(a, (b - 1) as nat);
        lemma_pow10_positive((b - 1) as nat);
        assert(pow10(b) == 10 * pow10((b - 1) as nat));
    }
}


pub proof fn lemma_pow10_vals()
    ensures
        pow10(6) == 1000000,
        pow10(7) == 10000000,
{
    assert(pow10(0) == 1);
    assert(pow10(1) == 10);
    assert(pow10(2) == 100);
    assert(pow10(3) == 1000);
    assert(pow10(4) == 10000);
    assert(pow10(5) == 100000);
    assert(pow10(6) == 1000000);
    assert(pow10(7) == 10000000);
}

} // verus!
