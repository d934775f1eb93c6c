//! Formatting of counts with thousands separators.

use vstd::prelude::*;
use crate::bindings::string_from_chars;

verus! {

/// The decimal digit character for `d` in 0..=9.
pub open spec fn digit_char(d: int) -> char {
    if d == 0 {
        '0'
    } else if d == 1 {
        '1'
    } else if d == 2 {
        '2'
    } else if d == 3 {
        '3'
    } else if d == 4 {
        '4'
    } else if d == 5 {
        '5'
    } else if d == 6 {
        '6'
    } else if d == 7 {
        '7'
    } else if d == 8 {
        '8'
    } else {
        '9'
    }
}

/// The value of a decimal digit character.
pub open spec fn digit_value(c: char) -> int {
    if c == '0' {
        0
    } else if c == '1' {
        1
    } else if c == '2' {
        2
    } else if c == '3' {
        3
    } else if c == '4' {
        4
    } else if c == '5' {
        5
    } else if c == '6' {
        6
    } else if c == '7' {
        7
    } else if c == '8' {
        8
    } else {
        9
    }
}

/// The decimal representation of `n`, without leading zeros.
pub open spec fn decimal_digits(n: nat) -> Seq<char>
    decreases n,
{
    if n < 10 {
        seq![digit_char(n as int)]
    } else {
        decimal_digits(n / 10).push(digit_char((n % 10) as int))
    }
}

/// The three digits of `m` in 0..1000, leading zeros included.
pub open spec fn three_digits(m: nat) -> Seq<char> {
    seq![digit_char((m / 100) as int), digit_char(((m / 10) % 10) as int), digit_char((m % 10) as int)]
}

/// The decimal representation of `n` with a comma before each group of three
/// digits counted from the right: 1234567 is "1,234,567".
pub open spec fn grouped_decimal(n: nat) -> Seq<char>
    decreases n,
{
    if n < 1000 {
        decimal_digits(n)
    } else {
        grouped_decimal(n / 1000) + seq![','] + three_digits(n % 1000)
    }
}

/// The number a sequence of decimal digits stands for.
pub open spec fn digits_value(s: Seq<char>) -> int
    decreases s.len(),
{
    if s.len() == 0 {
        0
    } else {
        digits_value(s.drop_last()) * 10 + digit_value(s.last())
    }
}

/// `s` with every comma removed.
pub open spec fn without_commas(s: Seq<char>) -> Seq<char>
    decreases s.len(),
{
    if s.len() == 0 {
        s
    } else if s.last() == ',' {
        without_commas(s.drop_last())
    } else {
        without_commas(s.drop_last()).push(s.last())
    }
}

fn digit(d: usize) -> (c: char)
    requires
        d < 10,
    ensures
        c == digit_char(d as int),
{
    if d == 0 {
        '0'
    } else if d == 1 {
        '1'
    } else if d == 2 {
        '2'
    } else if d == 3 {
        '3'
    } else if d == 4 {
        '4'
    } else if d == 5 {
        '5'
    } else if d == 6 {
        '6'
    } else if d == 7 {
        '7'
    } else if d == 8 {
        '8'
    } else {
        '9'
    }
}

fn push_decimal(n: usize, out: &mut Vec<char>)
    ensures
        final(out)@ == old(out)@ + decimal_digits(n as nat),
    decreases n,
{
    if n < 10 {
        out.push(digit(n));
    } else {
        push_decimal(n / 10, out);
        out.push(digit(n % 10));
    }
}

fn push_grouped(n: usize, out: &mut Vec<char>)
    ensures
        final(out)@ == old(out)@ + grouped_decimal(n as nat),
    decreases n,
{
    if n < 1000 {
        push_decimal(n, out);
    } else {
        let ghost before = out@;
        push_grouped(n / 1000, out);
        out.push(',');
        let m = n % 1000;
        out.push(digit(m / 100));
        out.push(digit((m / 10) % 10));
        out.push(digit(m % 10));
        assert(out@ =~= before + grouped_decimal(n as nat));
    }
}

/// Formats a count with thousands separators, as in "1,234,567".
pub fn fmt_num(n: usize) -> (text: String)
    ensures
        text@ == grouped_decimal(n as nat),
        text@.len() % 4 != 0,
        forall|i: int|
            0 <= i < text@.len() ==> (#[trigger] text@[i] == ',' <==> (text@.len() - 1 - i) % 4
                == 3),
{
    proof {
        lemma_grouping_places_commas(n as nat);
    }
    let mut chars: Vec<char> = Vec::new();
    push_grouped(n, &mut chars);
    assert(chars@ =~= grouped_decimal(n as nat));
    string_from_chars(chars.as_slice())
}

proof fn lemma_digit_char(d: int)
    requires
        0 <= d < 10,
    ensures
        digit_value(digit_char(d)) == d,
        digit_char(d) != ',',
{
}

proof fn lemma_no_commas(s: Seq<char>)
    requires
        forall|i: int| 0 <= i < s.len() ==> s[i] != ',',
    ensures
        without_commas(s) == s,
    decreases s.len(),
{
    if s.len() > 0 {
        lemma_no_commas(s.drop_last());
        assert(s.drop_last().push(s.last()) =~= s);
    }
}

proof fn lemma_without_commas_append(a: Seq<char>, b: Seq<char>)
    ensures
        without_commas(a + b) == without_commas(a) + without_commas(b),
    decreases b.len(),
{
    if b.len() == 0 {
        assert(a + b =~= a);
        assert(without_commas(b) =~= b);
    } else {
        assert((a + b).drop_last() =~= a + b.drop_last());
        assert((a + b).last() == b.last());
        lemma_without_commas_append(a, b.drop_last());
    }
}

proof fn lemma_decimal_has_no_commas(n: nat)
    ensures
        without_commas(decimal_digits(n)) == decimal_digits(n),
        decimal_digits(n).len() >= 1,
        n >= 10 ==> decimal_digits(n).len() >= 2,
        n >= 100 ==> decimal_digits(n).len() >= 3,
    decreases n,
{
    if n < 10 {
        let s = decimal_digits(n);
        lemma_digit_char(n as int);
        assert(s.drop_last() =~= Seq::<char>::empty());
        assert(without_commas(s.drop_last()) =~= Seq::<char>::empty());
        assert(without_commas(s) =~= s);
    } else {
        lemma_decimal_has_no_commas(n / 10);
        lemma_digit_char((n % 10) as int);
        let s = decimal_digits(n);
        assert(s.drop_last() =~= decimal_digits(n / 10));
    }
}

proof fn lemma_decimal_of_thousands(n: nat)
    requires
        n >= 1000,
    ensures
        decimal_digits(n) == decimal_digits(n / 1000) + three_digits(n % 1000),
{
    let q = n / 1000;
    let m = n % 1000;
    assert(n / 10 / 10 / 10 == q);
    assert((n / 10 / 10) % 10 == m / 100);
    assert((n / 10) % 10 == (m / 10) % 10);
    assert(n % 10 == m % 10);
    assert(decimal_digits(n) == decimal_digits(n / 10).push(digit_char((n % 10) as int)));
    assert(decimal_digits(n / 10) == decimal_digits(n / 100).push(
        digit_char(((n / 10) % 10) as int),
    )) by {
        assert(n / 10 / 10 == n / 100);
    }
    assert(decimal_digits(n / 100) == decimal_digits(q).push(digit_char(((n / 100) % 10) as int)))
        by {
        assert(n / 100 / 10 == q);
    }
    assert(n / 100 == n / 10 / 10);
    assert(decimal_digits(n) =~= decimal_digits(q) + three_digits(m));
}

/// Removing the separators from a formatted count leaves exactly the
/// count's decimal digits.
pub proof fn lemma_grouping_keeps_digits(n: nat)
    ensures
        without_commas(grouped_decimal(n)) == decimal_digits(n),
    decreases n,
{
    if n < 1000 {
        lemma_decimal_has_no_commas(n);
    } else {
        let q = n / 1000;
        let m = n % 1000;
        lemma_grouping_keeps_digits(q);
        lemma_without_commas_append(grouped_decimal(q) + seq![','], three_digits(m));
        lemma_without_commas_append(grouped_decimal(q), seq![',']);
        assert(seq![','].drop_last() =~= Seq::<char>::empty());
        assert(without_commas(Seq::<char>::empty()) =~= Seq::<char>::empty());
        assert(without_commas(seq![',']) =~= Seq::<char>::empty());
        let t = three_digits(m);
        assert(t.drop_last().drop_last().drop_last() =~= Seq::<char>::empty());
        assert(without_commas(t) == t) by {
            lemma_digit_char((m / 100) as int);
            lemma_digit_char(((m / 10) % 10) as int);
            lemma_digit_char((m % 10) as int);
            lemma_no_commas(t);
        }
        lemma_decimal_of_thousands(n);
        assert(grouped_decimal(n) == grouped_decimal(q) + seq![','] + t);
        assert(without_commas(grouped_decimal(q)) + Seq::<char>::empty() =~= without_commas(
            grouped_decimal(q),
        ));
    }
}

/// The decimal digits of `n` stand for `n`.
pub proof fn lemma_decimal_digits_value(n: nat)
    ensures
        digits_value(decimal_digits(n)) == n,
    decreases n,
{
    if n < 10 {
        let s = decimal_digits(n);
        lemma_digit_char(n as int);
        assert(s.drop_last() =~= Seq::<char>::empty());
        assert(digits_value(s.drop_last()) == 0);
        assert(digits_value(s) == digits_value(s.drop_last()) * 10 + digit_value(s.last()));
    } else {
        lemma_digit_char((n % 10) as int);
        lemma_decimal_digits_value(n / 10);
        let s = decimal_digits(n);
        assert(s.drop_last() =~= decimal_digits(n / 10));
        assert(s.last() == digit_char((n % 10) as int));
        assert((n / 10) * 10 + n % 10 == n) by (nonlinear_arith);
        assert(digits_value(s) == digits_value(s.drop_last()) * 10 + digit_value(s.last()));
    }
}

proof fn lemma_decimal_short_digits(n: nat)
    requires
        n < 1000,
    ensures
        1 <= decimal_digits(n).len() <= 3,
        forall|i: int| 0 <= i < decimal_digits(n).len() ==> #[trigger] decimal_digits(n)[i] != ',',
{
    let s = decimal_digits(n);
    lemma_digit_char((n % 10) as int);
    if n >= 10 {
        let s1 = decimal_digits(n / 10);
        lemma_digit_char(((n / 10) % 10) as int);
        assert(s == s1.push(digit_char((n % 10) as int)));
        if n / 10 >= 10 {
            lemma_digit_char((n / 100) as int);
            assert(n / 10 / 10 < 10);
            assert(s1 == decimal_digits(n / 10 / 10).push(digit_char(((n / 10) % 10) as int)));
            assert(decimal_digits(n / 10 / 10) == seq![digit_char((n / 10 / 10) as int)]);
            assert(n / 10 / 10 == n / 100);
        }
    }
}

/// In a formatted count, a comma stands exactly before each group of three
/// digits counted from the right, and the leading group has one to three
/// digits: the character `i` places from the end (the last being 0) is a
/// comma exactly when `i % 4 == 3`, and the length is never a multiple of 4.
pub proof fn lemma_grouping_places_commas(n: nat)
    ensures
        grouped_decimal(n).len() % 4 != 0,
        forall|i: int|
            0 <= i < grouped_decimal(n).len() ==> (#[trigger] grouped_decimal(n)[i] == ',' <==> (
            grouped_decimal(n).len() - 1 - i) % 4 == 3),
    decreases n,
{
    let r = grouped_decimal(n);
    if n < 1000 {
        lemma_decimal_short_digits(n);
    } else {
        let q = n / 1000;
        let m = n % 1000;
        lemma_grouping_places_commas(q);
        let g = grouped_decimal(q);
        let t = three_digits(m);
        lemma_digit_char((m / 100) as int);
        lemma_digit_char(((m / 10) % 10) as int);
        lemma_digit_char((m % 10) as int);
        assert(r == g + seq![','] + t);
        assert(r.len() == g.len() + 4);
        assert forall|i: int| 0 <= i < r.len() implies (#[trigger] r[i] == ',' <==> (r.len() - 1 - i)
            % 4 == 3) by {
            if i < g.len() {
                assert(r[i] == g[i]);
                assert((r.len() - 1 - i) % 4 == (g.len() - 1 - i) % 4);
            } else if i == g.len() {
                assert(r[i] == ',');
            } else {
                assert(r[i] == t[i - g.len() - 1]);
            }
        }
    }
}

} // verus!
