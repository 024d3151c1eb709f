//! Decimal numerals.

use vstd::prelude::*;
use vstd::string::*;

verus! {

/// The character of the decimal digit `d`.
pub open spec fn digit_char(d: nat) -> char {
    if d == 0 {
        '0'
    } else if d == 1 {
        '1'
    } else if d == 2 {
        '2'
    } else if d == 3 {
        '3'
    } else if d == 4 {
        '4'
    } else if d == 5 {
        '5'
    } else if d == 6 {
        '6'
    } else if d == 7 {
        '7'
    } else if d == 8 {
        '8'
    } else {
        '9'
    }
}

/// The value of a decimal digit, or `None` for any other character.
pub open spec fn digit_value(c: char) -> Option<nat> {
    if '0' <= c && c <= '9' {
        Some((c as int - '0' as int) as nat)
    } else {
        None
    }
}

/// `n` in decimal, without leading zeros.
pub open spec fn decimal(n: nat) -> Seq<char>
    decreases n,
{
    if n < 10 {
        seq![digit_char(n)]
    } else {
        decimal(n / 10).push(digit_char(n % 10))
    }
}

/// The last `width` decimal digits of `n`, padded with zeros on the left.
pub open spec fn padded(n: nat, width: nat) -> Seq<char>
    decreases width,
{
    if width == 0 {
        Seq::empty()
    } else {
        padded(n / 10, (width - 1) as nat).push(digit_char(n % 10))
    }
}

/// The number that the digits of `s` denote, or `None` if `s` holds anything
/// but digits.
pub open spec fn value(s: Seq<char>) -> Option<nat>
    decreases s.len(),
{
    if s.len() == 0 {
        Some(0)
    } else {
        match (value(s.drop_last()), digit_value(s.last())) {
            (Some(high), Some(low)) => Some(10 * high + low),
            _ => None,
        }
    }
}

/// `10` to the power `width`: how many numerals of that width there are.
pub open spec fn numerals(width: nat) -> nat
    decreases width,
{
    if width == 0 {
        1
    } else {
        10 * numerals((width - 1) as nat)
    }
}

/// A padded numeral has exactly the asked width.
pub proof fn padded_has_its_width(n: nat, width: nat)
    ensures
        padded(n, width).len() == width,
    decreases width,
{
    if width > 0 {
        padded_has_its_width(n / 10, (width - 1) as nat);
    }
}

/// Reading a padded numeral gives back the number, if the width holds it.
pub proof fn padded_reads_back(n: nat, width: nat)
    requires
        n < numerals(width),
    ensures
        value(padded(n, width)) == Some(n),
    decreases width,
{
    if width > 0 {
        padded_reads_back(n / 10, (width - 1) as nat);
        let s = padded(n, width);
        assert(s.drop_last() =~= padded(n / 10, (width - 1) as nat));
        assert(digit_value(s.last()) == Some(n % 10));
    }
}

/// There is one numeral of each width for a number: the padded one.
pub proof fn numerals_are_padded(s: Seq<char>, n: nat)
    requires
        value(s) == Some(n),
    ensures
        s == padded(n, s.len()),
    decreases s.len(),
{
    if s.len() == 0 {
        assert(s =~= padded(n, 0));
    } else {
        let init = s.drop_last();
        let high = value(init)->0;
        let low = digit_value(s.last())->0;
        numerals_are_padded(init, high);
        assert(n / 10 == high && n % 10 == low);
        assert(s.last() == digit_char(low));
        assert(s =~= padded(n, s.len()));
    }
}

/// The digits follow each other in the order of their values.
pub proof fn digits_are_in_order(d: nat, c: char)
    requires
        d < 10,
    ensures
        digit_char(d) as int == '0' as int + d,
        digit_value(digit_char(d)) == Some(d),
        digit_value(c) is Some <==> '0' <= c && c <= '9',
        digit_value(c) matches Some(v) ==> c as int == '0' as int + v,
{
}

/// A digit that is added to a numeral counts one, and each digit before it ten times as
/// much as it did. What holds anything but digits is no numeral.
pub proof fn numerals_are_positional(s: Seq<char>, c: char)
    ensures
        value(Seq::empty()) == Some(0nat),
        value(s.push(c)) is Some <==> value(s) is Some && '0' <= c && c <= '9',
        value(s.push(c)) matches Some(n) ==> n == 10 * value(s)->0 + (c as int - '0' as int),
{
    assert(s.push(c).drop_last() =~= s);
}

/// A number is written with as few digits as it takes: without leading zeros.
pub proof fn decimal_is_the_shortest(n: nat)
    ensures
        value(decimal(n)) == Some(n),
        decimal(n).len() > 0,
        n > 0 ==> decimal(n)[0] != '0',
        n == 0 ==> decimal(n) == seq!['0'],
    decreases n,
{
    decimal_reads_back(n);
    if n >= 10 {
        decimal_is_the_shortest(n / 10);
    }
}

/// There are ten times as many numerals of a width as of the width below it.
pub proof fn numerals_grow_tenfold(width: nat)
    ensures
        numerals(0) == 1,
        numerals(width + 1) == 10 * numerals(width),
{
}

/// A padded numeral has its width, and holds the low digits of the number.
pub proof fn padded_keeps_the_low_digits(n: nat, width: nat)
    ensures
        padded(n, width).len() == width,
        numerals(width) > 0,
        value(padded(n, width)) == Some((n % numerals(width)) as nat),
    decreases width,
{
    padded_has_its_width(n, width);
    if width > 0 {
        let less = (width - 1) as nat;
        padded_keeps_the_low_digits(n / 10, less);
        let s = padded(n, width);
        assert(s.drop_last() =~= padded(n / 10, less));
        assert(digit_value(s.last()) == Some(n % 10));
        vstd::arithmetic::div_mod::lemma_mod_breakdown(n as int, 10, numerals(less) as int);
    }
}

/// Whether `s` comes before `t` in dictionary order: at the first place where they
/// differ, `s` has the lower character.
pub open spec fn sorts_before(s: Seq<char>, t: Seq<char>) -> bool {
    exists|k: int|
        0 <= k < s.len() && k < t.len() && #[trigger] s.take(k) == t.take(k) && s[k] < t[k]
}

/// Padded numerals of one width sort as their numbers do.
pub proof fn padded_sorts(a: nat, b: nat, width: nat)
    requires
        a < b < numerals(width),
    ensures
        sorts_before(padded(a, width), padded(b, width)),
    decreases width,
{
    if width > 0 {
        let less = (width - 1) as nat;
        let (s, t) = (padded(a, width), padded(b, width));
        let (x, y) = (padded(a / 10, less), padded(b / 10, less));
        padded_has_its_width(a / 10, less);
        padded_has_its_width(b / 10, less);
        if a / 10 < b / 10 {
            padded_sorts(a / 10, b / 10, less);
            let k = choose|k: int|
                0 <= k < x.len() && k < y.len() && #[trigger] x.take(k) == y.take(k) && x[k]
                    < y[k];
            assert(s.take(k) =~= x.take(k));
            assert(t.take(k) =~= y.take(k));
            assert(s.take(k) == t.take(k) && s[k] < t[k]);
        } else {
            assert(s.take(less as int) =~= x);
            assert(t.take(less as int) =~= y);
            assert(s.take(less as int) == t.take(less as int) && s[less as int] < t[less as int]);
        }
    }
}

/// Reading an unpadded numeral gives back the number.
pub proof fn decimal_reads_back(n: nat)
    ensures
        value(decimal(n)) == Some(n),
    decreases n,
{
    let s = decimal(n);
    if n < 10 {
        assert(s.drop_last() =~= Seq::<char>::empty());
        assert(value(s.drop_last()) == Some(0nat));
    } else {
        decimal_reads_back(n / 10);
        assert(s.drop_last() =~= decimal(n / 10));
    }
    assert(digit_value(s.last()) == Some(n % 10));
}

/// The digit `d` as a one-character string.
fn digit_text(d: u64) -> (text: &'static str)
    requires
        d < 10,
    ensures
        text@ == seq![digit_char(d as nat)],
{
    let text = if d == 0 {
        "0"
    } else if d == 1 {
        "1"
    } else if d == 2 {
        "2"
    } else if d == 3 {
        "3"
    } else if d == 4 {
        "4"
    } else if d == 5 {
        "5"
    } else if d == 6 {
        "6"
    } else if d == 7 {
        "7"
    } else if d == 8 {
        "8"
    } else {
        "9"
    };
    proof {
        reveal_strlit("0");
        reveal_strlit("1");
        reveal_strlit("2");
        reveal_strlit("3");
        reveal_strlit("4");
        reveal_strlit("5");
        reveal_strlit("6");
        reveal_strlit("7");
        reveal_strlit("8");
        reveal_strlit("9");
    }
    assert(text@ =~= seq![digit_char(d as nat)]);
    text
}

/// Append `n` in decimal to `out`.
pub fn push_decimal(out: &mut String, n: u64)
    ensures
        final(out)@ == old(out)@ + decimal(n as nat),
    decreases n,
{
    if n >= 10 {
        push_decimal(out, n / 10);
    }
    out.append(digit_text(n % 10));
    assert(out@ =~= old(out)@ + decimal(n as nat));
}

/// Append the last `width` decimal digits of `n` to `out`, zero-padded.
pub fn push_padded(out: &mut String, n: u64, width: usize)
    ensures
        final(out)@ == old(out)@ + padded(n as nat, width as nat),
    decreases width,
{
    if width > 0 {
        push_padded(out, n / 10, width - 1);
        out.append(digit_text(n % 10));
    }
    assert(out@ =~= old(out)@ + padded(n as nat, width as nat));
}

/// The number that `s` denotes, if it consists of digits and fits a `u64`.
pub open spec fn as_u64(s: Seq<char>) -> Option<u64> {
    match value(s) {
        Some(n) => if n <= u64::MAX {
            Some(n as u64)
        } else {
            None
        },
        None => None,
    }
}

/// More digits never denote a smaller number, and what is not a numeral does not
/// become one.
proof fn longer_is_larger(s: Seq<char>, i: int)
    requires
        0 <= i <= s.len(),
    ensures
        value(s) matches Some(n) ==> value(s.take(i)) matches Some(m) && m <= n,
    decreases s.len() - i,
{
    if i == s.len() {
        assert(s.take(i) =~= s);
    } else {
        longer_is_larger(s, i + 1);
        assert(s.take(i + 1).drop_last() =~= s.take(i));
    }
}

/// Read the first `len` characters of `s` as a decimal number.
pub fn read_u64(s: &str, len: usize) -> (result: Option<u64>)
    requires
        len <= s@.len(),
    ensures
        result == as_u64(s@.take(len as int)),
{
    let ghost digits = s@.take(len as int);
    let mut n: u64 = 0;
    let mut i: usize = 0;
    while i < len
        invariant
            i <= len <= s@.len(),
            digits == s@.take(len as int),
            value(digits.take(i as int)) == Some(n as nat),
        decreases len - i,
    {
        let c: char = s.get_char(i);
        proof {
            assert(digits.take(i + 1).drop_last() =~= digits.take(i as int));
            assert(digits.take(i + 1).last() == c);
            longer_is_larger(digits, i + 1);
        }
        if c < '0' || c > '9' {
            return None;
        }
        let digit: u64 = (c as u32 - '0' as u32) as u64;
        let tens: u64 = match n.checked_mul(10) {
            Some(tens) => tens,
            None => {
                return None;
            },
        };
        n = match tens.checked_add(digit) {
            Some(n) => n,
            None => {
                return None;
            },
        };
        i += 1;
    }
    assert(digits.take(len as int) =~= digits);
    Some(n)
}

/// A text reads as a number exactly if it is a numeral of that number.
pub proof fn only_numerals_are_read(s: Seq<char>, n: u64)
    ensures
        as_u64(s) == Some(n) <==> value(s) == Some(n as nat),
{
}

} // verus!
