//! Decimal numbers as text.

use vstd::prelude::*;
use vstd::slice::slice_subrange;

use crate::text::text_of;

verus! {

/// Whether `c` is one of the ten ASCII digits.
pub open spec fn is_digit(c: char) -> bool {
    '0' <= c <= '9'
}

/// Whether every character of `s` is a digit.
pub open spec fn all_digits(s: Seq<char>) -> bool {
    forall|i: int| 0 <= i < s.len() ==> is_digit(#[trigger] s[i])
}

/// The number that a sequence of digits denotes in base ten.
pub open spec fn decimal_value(s: Seq<char>) -> nat
    decreases s.len(),
{
    if s.len() == 0 {
        0
    } else {
        10 * decimal_value(s.drop_last()) + (s.last() as int - '0' as int) as nat
    }
}

/// The number that `s` denotes, if it is a sign-free or `+`-signed decimal
/// number no greater than `max`.
pub open spec fn unsigned_value(s: Seq<char>, max: nat) -> Option<nat> {
    let digits = if s.len() > 0 && s.first() == '+' {
        s.drop_first()
    } else {
        s
    };
    if digits.len() > 0 && all_digits(digits) && decimal_value(digits) <= max {
        Some(decimal_value(digits))
    } else {
        None
    }
}

/// The digit that stands for `n`, which is less than ten.
pub open spec fn digit(n: nat) -> char {
    ('0' as int + n) as char
}

/// `n` written in base ten without leading zeros.
pub open spec fn decimal(n: nat) -> Seq<char>
    decreases n,
{
    if n < 10 {
        seq![digit(n)]
    } else {
        decimal(n / 10).push(digit(n % 10))
    }
}

/// Whether `c` is a digit.
pub fn is_decimal_digit(c: char) -> (yes: bool)
    ensures
        yes == is_digit(c),
{
    '0' <= c && c <= '9'
}

/// A longer number is no smaller than the number its leading digits denote.
proof fn lemma_value_grows(s: Seq<char>, n: int)
    requires
        all_digits(s),
        0 <= n <= s.len(),
    ensures
        decimal_value(s.take(n)) <= decimal_value(s),
    decreases s.len() - n,
{
    if n < s.len() {
        lemma_value_grows(s, n + 1);
        assert(s.take(n + 1).drop_last() =~= s.take(n));
        assert(is_digit(s[n]));
    } else {
        assert(s.take(n) =~= s);
    }
}

/// Reads an unsigned decimal number no greater than `max`.
pub fn parse_unsigned(s: &[char], max: u64) -> (value: Option<u64>)
    ensures
        match value {
            Some(n) => unsigned_value(s@, max as nat) == Some(n as nat),
            None => unsigned_value(s@, max as nat) is None,
        },
{
    let start: usize = if s.len() > 0 && s[0] == '+' {
        1
    } else {
        0
    };
    let ghost digits = s@.skip(start as int);
    assert(start == 1 ==> digits =~= s@.drop_first());
    assert(start == 0 ==> digits =~= s@);
    assert(s@.subrange(start as int, s@.len() as int) =~= digits);
    let body = slice_subrange(s, start, s.len());
    if body.len() == 0 {
        return None;
    }
    let mut n: u64 = 0;
    for i in 0..body.len()
        invariant
            body@ == digits,
            n == decimal_value(digits.take(i as int)),
            n <= max,
            all_digits(digits.take(i as int)),
            unsigned_value(s@, max as nat) == (if digits.len() > 0 && all_digits(digits)
                && decimal_value(digits) <= max {
                Some(decimal_value(digits))
            } else {
                None
            }),
    {
        let c = body[i];
        assert(digits.take(i + 1).drop_last() =~= digits.take(i as int));
        if !is_decimal_digit(c) {
            assert(!is_digit(digits[i as int]));
            return None;
        }
        let d: u64 = c as u64 - '0' as u64;
        assert forall|j: int| 0 <= j < i + 1 implies is_digit(#[trigger] digits.take(i + 1)[j]) by {
            if j < i {
                assert(is_digit(digits.take(i as int)[j]));
            }
        }
        if d > max || n > (max - d) / 10 {
            proof {
                assert(decimal_value(digits.take(i + 1)) > max);
                if all_digits(digits) {
                    lemma_value_grows(digits, i + 1);
                }
            }
            return None;
        }
        n = n * 10 + d;
    }
    assert(digits.take(digits.len() as int) =~= digits);
    Some(n)
}

/// The digits of `n`, most significant first.
fn digits_of(n: u64) -> (digits: Vec<char>)
    ensures
        digits@ == decimal(n as nat),
    decreases n,
{
    let last: char = (0x30u8 + (n % 10) as u8) as char;
    if n < 10 {
        let mut digits: Vec<char> = Vec::new();
        digits.push(last);
        assert(digits@ =~= seq![digit(n as nat)]);
        digits
    } else {
        let mut digits = digits_of(n / 10);
        digits.push(last);
        digits
    }
}

/// `n` in base ten.
pub fn to_decimal(n: u64) -> (s: String)
    ensures
        s@ == decimal(n as nat),
{
    text_of(&digits_of(n))
}

/// `n` in base ten, with zeros in front up to the given width.
pub open spec fn padded_decimal(n: nat, width: nat) -> Seq<char> {
    let digits = decimal(n);
    if digits.len() < width {
        Seq::new((width - digits.len()) as nat, |i: int| '0') + digits
    } else {
        digits
    }
}

/// `n` in base ten with at least two digits.
pub fn to_two_digits(n: u64) -> (s: String)
    ensures
        s@ == padded_decimal(n as nat, 2),
{
    let digits = digits_of(n);
    if digits.len() < 2 {
        proof {
            lemma_decimal_reads_back(n as nat);
        }
        let mut padded: Vec<char> = Vec::new();
        padded.push('0');
        padded.push(digits[0]);
        assert(padded@ =~= padded_decimal(n as nat, 2));
        text_of(&padded)
    } else {
        text_of(&digits)
    }
}

/// Writing a number in base ten and reading the digits back gives the number.
pub proof fn lemma_decimal_reads_back(n: nat)
    ensures
        decimal(n).len() > 0,
        all_digits(decimal(n)),
        decimal_value(decimal(n)) == n,
        forall|max: nat| n <= max ==> #[trigger] unsigned_value(decimal(n), max) == Some(n),
    decreases n,
{
    let text = decimal(n);
    if n < 10 {
        assert(text.drop_last() =~= Seq::<char>::empty());
        assert(decimal_value(text.drop_last()) == 0);
    } else {
        lemma_decimal_reads_back(n / 10);
        assert(text.drop_last() =~= decimal(n / 10));
    }
    assert(text.last() == digit(n % 10));
    assert(text.last() as int - '0' as int == n % 10);
    assert forall|i: int| 0 <= i < text.len() implies is_digit(#[trigger] text[i]) by {
        if i < text.len() - 1 {
            assert(is_digit(decimal(n / 10)[i]));
        }
    }
    assert(is_digit(text[0]));
}

/// What reads as a number: digits, with a `+` in front or not, leading zeros
/// or not, up to the largest number admitted; and nothing else.
pub proof fn lemma_numbers_read(digits: Seq<char>, n: nat, max: nat)
    ensures
        n <= max ==> unsigned_value(decimal(n), max) == Some(n) && unsigned_value(
            seq!['+'] + decimal(n),
            max,
        ) == Some(n),
        n > max ==> unsigned_value(decimal(n), max) is None,
        all_digits(digits) && digits.len() > 0 ==> unsigned_value(seq!['0'] + digits, max)
            == unsigned_value(digits, max),
        (exists|i: int|
            0 <= i < digits.len() && !('0' <= #[trigger] digits[i] <= '9') && !(i == 0 && digits[i]
                == '+')) ==> unsigned_value(digits, max) is None,
        unsigned_value(Seq::empty(), max) is None,
        unsigned_value(seq!['+'], max) is None,
{
    lemma_decimal_reads_back(n);
    let signed = seq!['+'] + decimal(n);
    assert(signed.drop_first() =~= decimal(n));
    assert(is_digit(decimal(n)[0]));
    let padded = seq!['0'] + digits;
    if all_digits(digits) && digits.len() > 0 {
        lemma_leading_zero(digits);
        assert(is_digit(digits[0]));
        assert forall|i: int| 0 <= i < padded.len() implies is_digit(#[trigger] padded[i]) by {
            if i > 0 {
                assert(padded[i] == digits[i - 1]);
            }
        }
    }
    if exists|i: int|
        0 <= i < digits.len() && !('0' <= #[trigger] digits[i] <= '9') && !(i == 0 && digits[i]
            == '+') {
        let i = choose|i: int|
            0 <= i < digits.len() && !('0' <= #[trigger] digits[i] <= '9') && !(i == 0 && digits[i]
                == '+');
        if digits.first() == '+' {
            assert(digits.drop_first()[i - 1] == digits[i]);
            assert(!is_digit(digits.drop_first()[i - 1]));
        } else {
            assert(!is_digit(digits[i]));
        }
    }
    assert(seq!['+'].drop_first() =~= Seq::<char>::empty());
}

/// A zero in front changes no value.
proof fn lemma_leading_zero(digits: Seq<char>)
    requires
        all_digits(digits),
    ensures
        decimal_value(seq!['0'] + digits) == decimal_value(digits),
    decreases digits.len(),
{
    let padded = seq!['0'] + digits;
    if digits.len() > 0 {
        assert(padded.drop_last() =~= seq!['0'] + digits.drop_last());
        assert forall|i: int| 0 <= i < digits.drop_last().len() implies is_digit(
            #[trigger] digits.drop_last()[i],
        ) by {
            assert(is_digit(digits[i]));
        }
        lemma_leading_zero(digits.drop_last());
    } else {
        assert(padded.drop_last() =~= Seq::<char>::empty());
        assert(padded.last() == '0');
        assert(decimal_value(Seq::<char>::empty()) == 0);
    }
}

/// Numbers are written digit by digit.
pub proof fn lemma_numbers_are_written(n: nat, d: nat)
    requires
        d < 10,
    ensures
        decimal(d) == seq![('0' as int + d) as char],
        n > 0 ==> decimal(10 * n + d) == decimal(n).push(('0' as int + d) as char),
        padded_decimal(d, 2) == seq!['0', ('0' as int + d) as char],
        n > 0 ==> padded_decimal(10 * n + d, 2) == decimal(10 * n + d),
{
    assert((10 * n + d) / 10 == n && (10 * n + d) % 10 == d);
    assert(padded_decimal(d, 2) =~= seq!['0', ('0' as int + d) as char]);
    lemma_decimal_reads_back(n);
}

/// A `+` in front of digits changes no value, and one more digit behind them
/// makes ten times the number with the digit added.
pub proof fn lemma_digits_make_numbers(digits: Seq<char>, d: char, max: nat)
    requires
        digits.len() > 0,
        forall|i: int| 0 <= i < digits.len() ==> '0' <= #[trigger] digits[i] <= '9',
        '0' <= d <= '9',
    ensures
        unsigned_value(seq!['+'] + digits, max) == unsigned_value(digits, max),
        unsigned_value(digits.push(d), max) == (match unsigned_value(digits, max) {
            Some(n) => if 10 * n + (d as int - '0' as int) <= max {
                Some((10 * n + (d as int - '0' as int)) as nat)
            } else {
                None
            },
            None => None,
        }),
{
    assert((seq!['+'] + digits).drop_first() =~= digits);
    assert('0' <= digits[0] <= '9');
    let longer = digits.push(d);
    assert(longer.drop_last() =~= digits);
    assert forall|i: int| 0 <= i < longer.len() implies is_digit(#[trigger] longer[i]) by {
        if i < digits.len() {
            assert(longer[i] == digits[i]);
        }
    }
}

} // verus!
