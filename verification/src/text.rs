//! Building text out of literals and numbers.
use vstd::prelude::*;
use vstd::string::*;

verus! {

/// The character of a decimal digit.
pub open spec fn digit_text(digit: nat) -> Seq<char> {
    if digit == 0 {
        "0"@
    } else if digit == 1 {
        "1"@
    } else if digit == 2 {
        "2"@
    } else if digit == 3 {
        "3"@
    } else if digit == 4 {
        "4"@
    } else if digit == 5 {
        "5"@
    } else if digit == 6 {
        "6"@
    } else if digit == 7 {
        "7"@
    } else if digit == 8 {
        "8"@
    } else {
        "9"@
    }
}

/// The decimal digits of `number`, without leading zeros.
pub open spec fn decimal(number: nat) -> Seq<char>
    decreases number,
{
    if number < 10 {
        digit_text(number)
    } else {
        decimal(number / 10) + digit_text(number % 10)
    }
}

/// The last `width` decimal digits of `number`, with leading zeros.
pub open spec fn padded(number: nat, width: nat) -> Seq<char>
    decreases width,
{
    if width == 0 {
        Seq::empty()
    } else {
        padded(number / 10, (width - 1) as nat) + digit_text(number % 10)
    }
}

/// The fraction `number / 10^width` behind the decimal point, without trailing zeros, and nothing of
/// a fraction of zero.
pub open spec fn fraction(number: nat, width: nat) -> Seq<char>
    decreases width,
{
    if number == 0 || width == 0 {
        Seq::empty()
    } else if number % 10 == 0 {
        fraction(number / 10, (width - 1) as nat)
    } else {
        "."@ + padded(number, width)
    }
}

/// A number of nanoseconds in the largest unit that it reaches, as the debug form of a
/// `std::time::Duration` shows it.
pub open spec fn duration_text(nanos: nat) -> Seq<char> {
    if nanos < 1_000 {
        decimal(nanos) + "ns"@
    } else if nanos < 1_000_000 {
        decimal(nanos / 1_000) + fraction(nanos % 1_000, 3) + "µs"@
    } else if nanos < 1_000_000_000 {
        decimal(nanos / 1_000_000) + fraction(nanos % 1_000_000, 6) + "ms"@
    } else {
        decimal(nanos / 1_000_000_000) + fraction(nanos % 1_000_000_000, 9) + "s"@
    }
}

fn push_digit(text: &mut String, digit: u64)
    requires
        digit < 10,
    ensures
        final(text)@ == old(text)@ + digit_text(digit as nat),
{
    if digit == 0 {
        text.append("0")
    } else if digit == 1 {
        text.append("1")
    } else if digit == 2 {
        text.append("2")
    } else if digit == 3 {
        text.append("3")
    } else if digit == 4 {
        text.append("4")
    } else if digit == 5 {
        text.append("5")
    } else if digit == 6 {
        text.append("6")
    } else if digit == 7 {
        text.append("7")
    } else if digit == 8 {
        text.append("8")
    } else {
        text.append("9")
    }
}

/// Appends `number` in decimal.
pub fn push_decimal(text: &mut String, number: u64)
    ensures
        final(text)@ == old(text)@ + decimal(number as nat),
    decreases number,
{
    if number < 10 {
        push_digit(text, number);
    } else {
        push_decimal(text, number / 10);
        push_digit(text, number % 10);
        assert(text@ =~= old(text)@ + decimal(number as nat));
    }
}

/// Appends the last `width` decimal digits of `number`, with leading zeros.
pub fn push_padded(text: &mut String, number: u64, width: u64)
    ensures
        final(text)@ == old(text)@ + padded(number as nat, width as nat),
    decreases width,
{
    if width > 0 {
        push_padded(text, number / 10, width - 1);
        push_digit(text, number % 10);
    }
    assert(text@ =~= old(text)@ + padded(number as nat, width as nat));
}

/// Appends the fraction `number / 10^width` behind the decimal point, without trailing zeros.
fn push_fraction(text: &mut String, number: u64, width: u64)
    ensures
        final(text)@ == old(text)@ + fraction(number as nat, width as nat),
    decreases width,
{
    if number == 0 || width == 0 {
        assert(text@ =~= old(text)@ + fraction(number as nat, width as nat));
    } else if number % 10 == 0 {
        push_fraction(text, number / 10, width - 1);
    } else {
        text.append(".");
        push_padded(text, number, width);
        assert(text@ =~= old(text)@ + fraction(number as nat, width as nat));
    }
}

/// Appends a number of nanoseconds as the debug form of a duration shows it.
pub fn push_duration(text: &mut String, nanos: u64)
    ensures
        final(text)@ == old(text)@ + duration_text(nanos as nat),
{
    if nanos < 1_000 {
        push_decimal(text, nanos);
        text.append("ns");
    } else if nanos < 1_000_000 {
        push_decimal(text, nanos / 1_000);
        push_fraction(text, nanos % 1_000, 3);
        text.append("µs");
    } else if nanos < 1_000_000_000 {
        push_decimal(text, nanos / 1_000_000);
        push_fraction(text, nanos % 1_000_000, 6);
        text.append("ms");
    } else {
        push_decimal(text, nanos / 1_000_000_000);
        push_fraction(text, nanos % 1_000_000_000, 9);
        text.append("s");
    }
    assert(text@ =~= old(text)@ + duration_text(nanos as nat));
}

/// Appends a piece of text.
pub fn push_text(text: &mut String, piece: &str)
    ensures
        final(text)@ == old(text)@ + piece@,
{
    text.append(piece)
}

proof fn lemma_digits()
    ensures
        forall|d: nat| d < 10 ==> (#[trigger] digit_text(d)).len() == 1,
        forall|a: nat, b: nat|
            a < 10 && b < 10 && #[trigger] digit_text(a) == #[trigger] digit_text(b) ==> a == b,
{
    reveal_strlit("0");
    reveal_strlit("1");
    reveal_strlit("2");
    reveal_strlit("3");
    reveal_strlit("4");
    reveal_strlit("5");
    reveal_strlit("6");
    reveal_strlit("7");
    reveal_strlit("8");
    reveal_strlit("9");
    assert forall|a: nat, b: nat|
        a < 10 && b < 10 && #[trigger] digit_text(a) == #[trigger] digit_text(b) implies a
        == b by {
        assert(digit_text(a)[0] == digit_text(b)[0]);
    }
}

/// Ten to the power of `width`.
pub open spec fn pow10(width: nat) -> nat
    decreases width,
{
    if width == 0 {
        1
    } else {
        10 * pow10((width - 1) as nat)
    }
}

/// More digits make a larger power.
pub proof fn lemma_pow10_increases(a: nat, b: nat)
    requires
        a <= b,
    ensures
        0 < pow10(a) <= pow10(b),
    decreases b,
{
    if a < b {
        lemma_pow10_increases(a, (b - 1) as nat);
    } else if a > 0 {
        lemma_pow10_increases((a - 1) as nat, (a - 1) as nat);
    }
}

/// Every character of padded text is a digit.
pub proof fn lemma_padded_digits(number: nat, width: nat, at: int)
    requires
        0 <= at < width,
    ensures
        padded(number, width).len() == width,
        exists|d: nat| d < 10 && #[trigger] digit_text(d) == seq![padded(number, width)[at]],
    decreases width,
{
    lemma_digits();
    lemma_padded_is_injective(number, number, width);
    let less = (width - 1) as nat;
    lemma_padded_is_injective(number / 10, number / 10, less);
    if at < less {
        lemma_padded_digits(number / 10, less, at);
        assert(padded(number, width)[at] == padded(number / 10, less)[at]);
    } else {
        assert(digit_text(number % 10).len() == 1);
        assert(digit_text(number % 10) =~= seq![padded(number, width)[at]]);
    }
}

/// Returns the value of a decimal digit, or `None` for any other character.
pub fn digit_of(c: char) -> (digit: Option<u64>)
    ensures
        match digit {
            Some(d) => d < 10 && digit_text(d as nat) == seq![c],
            None => forall|d: nat| d < 10 ==> #[trigger] digit_text(d) != seq![c],
        },
{
    proof {
        reveal_strlit("0");
        reveal_strlit("1");
        reveal_strlit("2");
        reveal_strlit("3");
        reveal_strlit("4");
        reveal_strlit("5");
        reveal_strlit("6");
        reveal_strlit("7");
        reveal_strlit("8");
        reveal_strlit("9");
        assert forall|d: nat| d < 10 && #[trigger] digit_text(d) == seq![c] implies digit_text(d)[0]
            == c by {}
    }
    let digit: Option<u64> = match c {
        '0' => Some(0),
        '1' => Some(1),
        '2' => Some(2),
        '3' => Some(3),
        '4' => Some(4),
        '5' => Some(5),
        '6' => Some(6),
        '7' => Some(7),
        '8' => Some(8),
        '9' => Some(9),
        _ => None,
    };
    if let Some(d) = digit {
        assert(digit_text(d as nat) =~= seq![c]);
    }
    digit
}

/// Padded text has the asked width, and tells numbers of at most that many digits apart.
pub proof fn lemma_padded_is_injective(a: nat, b: nat, width: nat)
    ensures
        padded(a, width).len() == width,
        a < pow10(width) && b < pow10(width) && padded(a, width) == padded(b, width) ==> a == b,
    decreases width,
{
    lemma_digits();
    if width > 0 {
        let less = (width - 1) as nat;
        lemma_padded_is_injective(a / 10, b / 10, less);
        lemma_padded_is_injective(b / 10, a / 10, less);
        assert(digit_text(a % 10).len() == 1);
        assert(digit_text(b % 10).len() == 1);
        if a < pow10(width) && b < pow10(width) && padded(a, width) == padded(b, width) {
            let pa = padded(a, width);
            let pb = padded(b, width);
            assert(pa.subrange(0, less as int) =~= padded(a / 10, less));
            assert(pb.subrange(0, less as int) =~= padded(b / 10, less));
            assert(pa.subrange(less as int, width as int) =~= digit_text(a % 10));
            assert(pb.subrange(less as int, width as int) =~= digit_text(b % 10));
        }
    }
}

} // verus!
