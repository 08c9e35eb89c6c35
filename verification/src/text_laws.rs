//! Numbers in text can be read again.
use vstd::prelude::*;
use vstd::string::*;

use crate::text::{decimal, digit_text, duration_text, fraction, padded, pow10};

verus! {

/// The value of a digit.
pub open spec fn digit_value(c: char) -> int {
    c as int - '0' as int
}

/// Every character is a digit.
pub open spec fn is_digits(text: Seq<char>) -> bool {
    forall|i: int| 0 <= i < text.len() ==> 0 <= digit_value(#[trigger] text[i]) <= 9
}

/// The number that digits spell, the most significant first.
pub open spec fn spelled(text: Seq<char>) -> int
    decreases text.len(),
{
    if text.len() == 0 {
        0
    } else {
        spelled(text.drop_last()) * 10 + digit_value(text.last())
    }
}

proof fn lemma_digit(digit: nat)
    requires
        digit < 10,
    ensures
        digit_text(digit).len() == 1,
        digit_value(digit_text(digit)[0]) == digit,
{
    reveal_strlit("0");
    reveal_strlit("1");
    reveal_strlit("2");
    reveal_strlit("3");
    reveal_strlit("4");
    reveal_strlit("5");
    reveal_strlit("6");
    reveal_strlit("7");
    reveal_strlit("8");
    reveal_strlit("9");
}

proof fn lemma_one_more_digit(text: Seq<char>, digit: nat)
    requires
        digit < 10,
        is_digits(text),
    ensures
        is_digits(text + digit_text(digit)),
        spelled(text + digit_text(digit)) == spelled(text) * 10 + digit,
        (text + digit_text(digit)).len() == text.len() + 1,
        digit_value((text + digit_text(digit)).last()) == digit,
{
    lemma_digit(digit);
    let all = text + digit_text(digit);
    assert(all.drop_last() =~= text);
    assert(all.last() == digit_text(digit)[0]);
    assert forall|i: int| 0 <= i < all.len() implies 0 <= digit_value(#[trigger] all[i]) <= 9 by {
        if i < text.len() {
            assert(all[i] == text[i]);
        }
    }
}

/// A number in decimal reads as the number. It is made of digits, and only zero starts with a zero.
pub proof fn lemma_decimal_reads_back(number: nat)
    ensures
        is_digits(decimal(number)),
        spelled(decimal(number)) == number,
        decimal(number).len() > 0,
        number > 0 ==> digit_value(decimal(number)[0]) > 0,
    decreases number,
{
    if number < 10 {
        lemma_one_more_digit(Seq::empty(), number);
        assert(Seq::<char>::empty() + digit_text(number) =~= digit_text(number));
        lemma_digit(number);
    } else {
        lemma_decimal_reads_back(number / 10);
        lemma_one_more_digit(decimal(number / 10), number % 10);
        assert(decimal(number)[0] == decimal(number / 10)[0]);
    }
}

/// A padded number has the asked width and reads as the number, as far as its digits suffice.
pub proof fn lemma_padded_reads_back(number: nat, width: nat)
    ensures
        is_digits(padded(number, width)),
        padded(number, width).len() == width,
        number < pow10(width) ==> spelled(padded(number, width)) == number,
        width > 0 ==> digit_value(padded(number, width).last()) == number % 10,
    decreases width,
{
    if width > 0 {
        lemma_padded_reads_back(number / 10, (width - 1) as nat);
        lemma_one_more_digit(padded(number / 10, (width - 1) as nat), number % 10);
    }
}

/// Digits behind a decimal point, and no point without digits.
pub open spec fn pointed(digits: Seq<char>) -> Seq<char> {
    if digits.len() == 0 {
        digits
    } else {
        seq!['.'] + digits
    }
}

/// A fraction shows its digits up to the last one that is not zero, and reads as the fraction.
pub proof fn lemma_fraction_reads_back(number: nat, width: nat) -> (digits: Seq<char>)
    requires
        number < pow10(width),
    ensures
        fraction(number, width) == pointed(digits),
        is_digits(digits),
        digits.len() <= width,
        digits.len() > 0 ==> digit_value(digits.last()) != 0,
        spelled(digits) * pow10((width - digits.len()) as nat) == number,
    decreases width,
{
    reveal_strlit(".");
    assert(pow10(0) == 1);
    if number == 0 || width == 0 {
        let digits = Seq::<char>::empty();
        assert(spelled(digits) == 0);
        assert(0 * pow10(width) == 0) by (nonlinear_arith);
        digits
    } else if number % 10 == 0 {
        let digits = lemma_fraction_reads_back(number / 10, (width - 1) as nat);
        let less = (width - 1 - digits.len()) as nat;
        let value = spelled(digits);
        assert(value * pow10(less) == number / 10);
        let power = pow10(less) as int;
        assert(value * (10 * power) == 10 * (value * power)) by (nonlinear_arith);
        assert(pow10((width - digits.len()) as nat) == 10 * power);
        digits
    } else {
        let digits = padded(number, width);
        lemma_padded_reads_back(number, width);
        assert("."@ =~= seq!['.']);
        assert(fraction(number, width) =~= pointed(digits));
        assert((width - digits.len()) as nat == 0);
        assert(spelled(digits) * 1 == number);
        digits
    }
}

/// The number of nanoseconds in the unit that a duration is shown in: the largest that it reaches.
pub open spec fn unit_of(nanos: nat) -> nat {
    if nanos >= 1_000_000_000 {
        1_000_000_000
    } else if nanos >= 1_000_000 {
        1_000_000
    } else if nanos >= 1_000 {
        1_000
    } else {
        1
    }
}

/// The name of a unit.
pub open spec fn unit_name(unit: nat) -> Seq<char> {
    if unit == 1_000_000_000 {
        "s"@
    } else if unit == 1_000_000 {
        "ms"@
    } else if unit == 1_000 {
        "µs"@
    } else {
        "ns"@
    }
}

/// A duration is shown exactly: as a number of the largest unit that it reaches, with as many
/// decimals as it takes and none that is a trailing zero, and the name of the unit.
pub proof fn lemma_duration_reads_back(nanos: nat) -> (digits: Seq<char>)
    ensures
        duration_text(nanos) == decimal(nanos / unit_of(nanos)) + pointed(digits) + unit_name(
            unit_of(nanos),
        ),
        is_digits(digits),
        digits.len() > 0 ==> digit_value(digits.last()) != 0,
        spelled(digits) * unit_of(nanos) == (nanos % unit_of(nanos)) * pow10(digits.len()),
{
    assert(pow10(3) == 1_000 && pow10(6) == 1_000_000 && pow10(9) == 1_000_000_000) by {
        reveal_with_fuel(pow10, 10);
    }
    let unit = unit_of(nanos);
    let rest = nanos % unit;
    if unit == 1 {
        let digits = Seq::<char>::empty();
        assert(decimal(nanos) + pointed(digits) =~= decimal(nanos));
        digits
    } else {
        let width: nat = if unit == 1_000 {
            3
        } else if unit == 1_000_000 {
            6
        } else {
            9
        };
        let digits = lemma_fraction_reads_back(rest, width);
        let left = (width - digits.len()) as nat;
        lemma_pow10_splits(left, digits.len());
        let value = spelled(digits);
        let a = pow10(left) as int;
        let b = pow10(digits.len()) as int;
        assert(unit == a * b);
        assert(value * (a * b) == (value * a) * b) by (nonlinear_arith);
        digits
    }
}

proof fn lemma_pow10_splits(a: nat, b: nat)
    ensures
        pow10(a + b) == pow10(a) * pow10(b),
    decreases b,
{
    let x = pow10(a) as int;
    if b > 0 {
        lemma_pow10_splits(a, (b - 1) as nat);
        let y = pow10((b - 1) as nat) as int;
        assert(a + (b - 1) as nat == (a + b - 1) as nat);
        assert(pow10(a + b) == 10 * pow10((a + b - 1) as nat));
        assert(pow10(b) == 10 * y);
        assert(10 * (x * y) == x * (10 * y)) by (nonlinear_arith);
    } else {
        assert(pow10(0) == 1);
        assert(x * 1 == x);
    }
}

} // verus!
