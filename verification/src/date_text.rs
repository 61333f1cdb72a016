//! The text of a date names the date: no two days are written alike, so no
//! two days share a directory, a file or an address.

use crate::calendar::{decimal_text, digit_char, year_text, zero_padded_text, CalendarDate};
use vstd::prelude::*;

verus! {

/// The ten digits are ten different characters, none of them a sign.
pub proof fn lemma_digit_chars(a: int, b: int)
    requires
        0 <= a <= 9,
        0 <= b <= 9,
    ensures
        digit_char(a) == digit_char(b) ==> a == b,
        digit_char(a) != '-',
        digit_char(a) != '+',
        digit_char(a) == '0' <==> a == 0,
{
}

/// A number is written with at least one digit, with one digit only when it
/// is below ten, and with a leading zero only when it is zero.
pub proof fn lemma_decimal_text_shape(n: nat)
    ensures
        decimal_text(n).len() >= 1,
        n >= 10 <==> decimal_text(n).len() >= 2,
        n < 100 ==> decimal_text(n).len() <= 2,
        decimal_text(n)[0] == '0' <==> n == 0,
        decimal_text(n)[0] != '-' && decimal_text(n)[0] != '+',
    decreases n,
{
    if n < 10 {
        lemma_digit_chars(n as int, 0);
    } else {
        lemma_decimal_text_shape(n / 10);
        let shorter = decimal_text(n / 10);
        assert(decimal_text(n)[0] == shorter[0]);
        if n < 100 {
            assert(n / 10 < 10);
        }
    }
}

/// Different numbers are written differently.
pub proof fn lemma_decimal_text_names_one_number(a: nat, b: nat)
    requires
        decimal_text(a) == decimal_text(b),
    ensures
        a == b,
    decreases a,
{
    lemma_decimal_text_shape(a);
    lemma_decimal_text_shape(b);
    if a < 10 {
        assert(b < 10);
        assert(decimal_text(a)[0] == digit_char(a as int));
        assert(decimal_text(b)[0] == digit_char(b as int));
        lemma_digit_chars(a as int, b as int);
    } else {
        assert(b >= 10);
        let shorter_a = decimal_text(a / 10);
        let shorter_b = decimal_text(b / 10);
        assert(decimal_text(a).last() == digit_char((a % 10) as int));
        assert(decimal_text(b).last() == digit_char((b % 10) as int));
        lemma_digit_chars((a % 10) as int, (b % 10) as int);
        assert(shorter_a =~= decimal_text(a).drop_last());
        assert(shorter_b =~= decimal_text(b).drop_last());
        lemma_decimal_text_names_one_number(a / 10, b / 10);
    }
}

/// Padding with zeros keeps different numbers written differently.
pub proof fn lemma_zero_padded_text_names_one_number(a: nat, b: nat, width: nat)
    requires
        zero_padded_text(a, width) == zero_padded_text(b, width),
    ensures
        a == b,
{
    let digits_a = decimal_text(a);
    let digits_b = decimal_text(b);
    let text_a = zero_padded_text(a, width);
    let text_b = zero_padded_text(b, width);
    lemma_decimal_text_shape(a);
    lemma_decimal_text_shape(b);
    if digits_a.len() == digits_b.len() {
        if digits_a.len() < width {
            let zeros = (width - digits_a.len()) as int;
            assert(digits_a =~= text_a.skip(zeros));
            assert(digits_b =~= text_b.skip(zeros));
        }
        lemma_decimal_text_names_one_number(a, b);
    } else if digits_a.len() < digits_b.len() {
        assert(text_a.len() == text_b.len());
        assert(digits_a.len() < width);
        let at = if digits_b.len() < width {
            width - digits_b.len()
        } else {
            0
        };
        assert(text_a[at] == '0');
        assert(text_b[at] == digits_b[0]);
    } else {
        assert(text_a.len() == text_b.len());
        assert(digits_b.len() < width);
        let at = if digits_a.len() < width {
            width - digits_a.len()
        } else {
            0
        };
        assert(text_b[at] == '0');
        assert(text_a[at] == digits_a[0]);
    }
}

/// A number padded to a width is at least that wide, and starts with a
/// digit.
pub proof fn lemma_zero_padded_text_shape(n: nat, width: nat)
    requires
        width >= 1,
    ensures
        zero_padded_text(n, width).len() >= width,
        n < 100 && width == 2 ==> zero_padded_text(n, width).len() == 2,
        zero_padded_text(n, width)[0] != '-' && zero_padded_text(n, width)[0] != '+',
{
    lemma_decimal_text_shape(n);
}

/// Different years are written differently.
pub proof fn lemma_year_text_names_one_year(a: int, b: int)
    requires
        year_text(a) == year_text(b),
    ensures
        a == b,
{
    let text_a = year_text(a);
    let text_b = year_text(b);
    assert(text_a[0] == text_b[0]);
    if 0 <= a < 10000 {
        lemma_zero_padded_text_shape(a as nat, 4);
        if 0 <= b < 10000 {
            lemma_zero_padded_text_names_one_number(a as nat, b as nat, 4);
        }
    } else if a < 0 {
        if 0 <= b < 10000 {
            lemma_zero_padded_text_shape(b as nat, 4);
        } else if b < 0 {
            assert(zero_padded_text((-a) as nat, 4) =~= text_a.skip(1));
            assert(zero_padded_text((-b) as nat, 4) =~= text_b.skip(1));
            lemma_zero_padded_text_names_one_number((-a) as nat, (-b) as nat, 4);
        }
    } else {
        if 0 <= b < 10000 {
            lemma_zero_padded_text_shape(b as nat, 4);
        } else if b >= 10000 {
            assert(zero_padded_text(a as nat, 4) =~= text_a.skip(1));
            assert(zero_padded_text(b as nat, 4) =~= text_b.skip(1));
            lemma_zero_padded_text_names_one_number(a as nat, b as nat, 4);
        }
    }
}

/// Different days are written differently.
pub proof fn lemma_date_text_names_one_date(a: CalendarDate, b: CalendarDate)
    requires
        a.wf(),
        b.wf(),
        a.iso_text_spec() == b.iso_text_spec(),
    ensures
        a == b,
{
    let text_a = a.iso_text_spec();
    let text_b = b.iso_text_spec();
    let year_a = year_text(a.year as int);
    let year_b = year_text(b.year as int);
    let month_a = zero_padded_text(a.month as nat, 2);
    let month_b = zero_padded_text(b.month as nat, 2);
    let day_a = zero_padded_text(a.day as nat, 2);
    let day_b = zero_padded_text(b.day as nat, 2);
    lemma_zero_padded_text_shape(a.month as nat, 2);
    lemma_zero_padded_text_shape(b.month as nat, 2);
    lemma_zero_padded_text_shape(a.day as nat, 2);
    lemma_zero_padded_text_shape(b.day as nat, 2);
    assert(text_a.len() == year_a.len() + 6);
    assert(text_b.len() == year_b.len() + 6);
    let years = year_a.len() as int;
    assert(year_a =~= text_a.subrange(0, years));
    assert(year_b =~= text_b.subrange(0, years));
    assert(month_a =~= text_a.subrange(years + 1, years + 3));
    assert(month_b =~= text_b.subrange(years + 1, years + 3));
    assert(day_a =~= text_a.subrange(years + 4, years + 6));
    assert(day_b =~= text_b.subrange(years + 4, years + 6));
    lemma_year_text_names_one_year(a.year as int, b.year as int);
    lemma_zero_padded_text_names_one_number(a.month as nat, b.month as nat, 2);
    lemma_zero_padded_text_names_one_number(a.day as nat, b.day as nat, 2);
}

} // verus!
