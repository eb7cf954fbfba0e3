//! Building strings from characters and integers.

use vstd::prelude::*;

verus! {

/// Appends `c` to `s`.
///
/// Calls `String::push`, which std documents as appending the given char to
/// the end of the string; the contract says exactly that.
#[verifier::external_body]
pub(crate) fn push_char(s: &mut String, c: char)
    ensures
        final(s)@ == old(s)@.push(c),
{
    s.push(c);
}

/// The character of a decimal digit.
pub open spec fn digit_char(d: int) -> char {
    if d == 0 { '0' }
    else if d == 1 { '1' }
    else if d == 2 { '2' }
    else if d == 3 { '3' }
    else if d == 4 { '4' }
    else if d == 5 { '5' }
    else if d == 6 { '6' }
    else if d == 7 { '7' }
    else if d == 8 { '8' }
    else { '9' }
}

/// The decimal digits of `n`, most significant first, without leading zeros.
pub open spec fn digits(n: nat) -> Seq<char>
    decreases n,
{
    if n < 10 {
        seq![digit_char(n as int)]
    } else {
        digits(n / 10).push(digit_char((n % 10) as int))
    }
}

/// The decimal notation of `x`, with a leading `-` when it is negative.
pub open spec fn decimal(x: int) -> Seq<char> {
    if x < 0 {
        seq!['-'] + digits((-x) as nat)
    } else {
        digits(x as nat)
    }
}

fn digit(d: u64) -> (c: char)
    requires
        d < 10,
    ensures
        c == digit_char(d as int),
{
    if d == 0 { '0' }
    else if d == 1 { '1' }
    else if d == 2 { '2' }
    else if d == 3 { '3' }
    else if d == 4 { '4' }
    else if d == 5 { '5' }
    else if d == 6 { '6' }
    else if d == 7 { '7' }
    else if d == 8 { '8' }
    else { '9' }
}

fn push_digits(s: &mut String, n: u64)
    ensures
        final(s)@ == old(s)@ + digits(n as nat),
    decreases n,
{
    if n >= 10 {
        push_digits(s, n / 10);
    }
    push_char(s, digit(n % 10));
    proof {
        if n >= 10 {
            assert(old(s)@ + digits(n as nat) =~= old(s)@ + digits((n / 10) as nat) + seq![
                digit_char((n % 10) as int)]);
        } else {
            assert(old(s)@ + digits(n as nat) =~= old(s)@.push(digit_char(n as int)));
        }
    }
}

/// Appends the decimal notation of `x` to `s`.
pub fn push_decimal(s: &mut String, x: i32)
    ensures
        final(s)@ == old(s)@ + decimal(x as int),
{
    if x < 0 {
        push_char(s, '-');
        let wide: i64 = x as i64;
        let m: u64 = (0 - wide) as u64;
        push_digits(s, m);
        proof {
            assert(old(s)@ + decimal(x as int) =~= old(s)@.push('-') + digits(m as nat));
        }
    } else {
        push_digits(s, x as u64);
    }
}

/// The character of a hexadecimal digit, in lower case.
pub open spec fn hex_char(d: int) -> char {
    if d < 10 { digit_char(d) }
    else if d == 10 { 'a' }
    else if d == 11 { 'b' }
    else if d == 12 { 'c' }
    else if d == 13 { 'd' }
    else if d == 14 { 'e' }
    else { 'f' }
}

/// The lower-case hexadecimal digits of `n`, most significant first,
/// without leading zeros.
pub open spec fn hex(n: nat) -> Seq<char>
    decreases n,
{
    if n < 16 {
        seq![hex_char(n as int)]
    } else {
        hex(n / 16).push(hex_char((n % 16) as int))
    }
}

fn hex_digit(d: usize) -> (c: char)
    requires
        d < 16,
    ensures
        c == hex_char(d as int),
{
    if d < 10 {
        digit(d as u64)
    } else if d == 10 {
        'a'
    } else if d == 11 {
        'b'
    } else if d == 12 {
        'c'
    } else if d == 13 {
        'd'
    } else if d == 14 {
        'e'
    } else {
        'f'
    }
}

/// Appends the lower-case hexadecimal notation of `x` to `s`.
pub fn push_hex(s: &mut String, x: usize)
    ensures
        final(s)@ == old(s)@ + hex(x as nat),
    decreases x,
{
    if x >= 16 {
        push_hex(s, x / 16);
    }
    push_char(s, hex_digit(x % 16));
    proof {
        if x >= 16 {
            assert(old(s)@ + hex(x as nat) =~= old(s)@ + hex((x / 16) as nat) + seq![
                hex_char((x % 16) as int)]);
        } else {
            assert(old(s)@ + hex(x as nat) =~= old(s)@.push(hex_char(x as int)));
        }
    }
}

/// The decimal digits of a number are never empty and never start with
/// `-`; there is one digit exactly below ten.
pub proof fn lemma_digits_shape(n: nat)
    ensures
        digits(n).len() >= 1,
        digits(n).len() == 1 <==> n < 10,
        digits(n)[0] != '-',
    decreases n,
{
    if n >= 10 {
        lemma_digits_shape(n / 10);
        assert(digits(n)[0] == digits(n / 10)[0]);
    }
}

/// Different numbers have different decimal digits.
pub proof fn lemma_digits_injective(n: nat, m: nat)
    ensures
        digits(n) == digits(m) ==> n == m,
    decreases n,
{
    lemma_digits_shape(n);
    lemma_digits_shape(m);
    if digits(n) == digits(m) && n >= 10 && m >= 10 {
        assert(digits(n).drop_last() =~= digits(n / 10));
        assert(digits(m).drop_last() =~= digits(m / 10));
        lemma_digits_injective(n / 10, m / 10);
        assert(digits(n).last() == digits(m).last());
    }
}

/// The decimal notation of an integer is never empty, and different
/// integers are written differently.
pub proof fn lemma_decimal_injective(x: int, y: int)
    ensures
        decimal(x).len() >= 1,
        decimal(x) == decimal(y) ==> x == y,
{
    if x < 0 {
        lemma_digits_shape((-x) as nat);
    } else {
        lemma_digits_shape(x as nat);
    }
    if y < 0 {
        lemma_digits_shape((-y) as nat);
    } else {
        lemma_digits_shape(y as nat);
    }
    if decimal(x) == decimal(y) {
        assert(decimal(x)[0] == decimal(y)[0]);
        if x < 0 && y < 0 {
            assert(decimal(x).subrange(1, decimal(x).len() as int) =~= digits((-x) as nat));
            assert(decimal(y).subrange(1, decimal(y).len() as int) =~= digits((-y) as nat));
            lemma_digits_injective((-x) as nat, (-y) as nat);
        } else if x >= 0 && y >= 0 {
            lemma_digits_injective(x as nat, y as nat);
        }
    }
}

/// Whether `c` is one of the characters `0` to `9`.
pub open spec fn is_decimal_digit(c: char) -> bool {
    '0' as int <= c as int <= '9' as int
}

/// The number that the decimal digit characters of `s` stand for, most
/// significant first: each character counts for its distance from `0`.
pub open spec fn digits_value(s: Seq<char>) -> int
    decreases s.len(),
{
    if s.len() == 0 {
        0
    } else {
        10 * digits_value(s.drop_last()) + (s.last() as int - '0' as int)
    }
}

/// Whether `c` is one of the characters `0` to `9` or `a` to `f`.
pub open spec fn is_hex_digit(c: char) -> bool {
    ('0' as int <= c as int <= '9' as int) || ('a' as int <= c as int <= 'f' as int)
}

/// The number that the lower-case hexadecimal digit characters of `s`
/// stand for, most significant first: `0` to `9` count for their distance
/// from `0`, `a` to `f` for ten more than their distance from `a`.
pub open spec fn hex_value(s: Seq<char>) -> int
    decreases s.len(),
{
    if s.len() == 0 {
        0
    } else {
        let c = s.last();
        let d = if c as int <= '9' as int {
            c as int - '0' as int
        } else {
            c as int - 'a' as int + 10
        };
        16 * hex_value(s.drop_last()) + d
    }
}

proof fn lemma_digit_char_value(d: int)
    requires
        0 <= d < 10,
    ensures
        digit_char(d) as int - '0' as int == d,
        is_decimal_digit(digit_char(d)),
{
    assert('0' as int == 48);
    if d == 0 {} else if d == 1 {} else if d == 2 {} else if d == 3 {} else if d == 4 {}
    else if d == 5 {} else if d == 6 {} else if d == 7 {} else if d == 8 {} else {}
}

proof fn lemma_hex_char_value(d: int)
    requires
        0 <= d < 16,
    ensures
        hex_char(d) as int <= '9' as int ==> hex_char(d) as int - '0' as int == d,
        hex_char(d) as int > '9' as int ==> hex_char(d) as int - 'a' as int + 10 == d,
        is_hex_digit(hex_char(d)),
{
    if d < 10 {
        lemma_digit_char_value(d);
    }
}

/// The decimal digits of `n` are its base-ten notation: they are digit
/// characters, they stand for `n`, and there is no leading zero.
pub proof fn lemma_digits_value(n: nat)
    ensures
        digits_value(digits(n)) == n,
        forall|i: int| 0 <= i < digits(n).len() ==> is_decimal_digit(#[trigger] digits(n)[i]),
        n >= 10 ==> digits(n)[0] != '0',
    decreases n,
{
    lemma_digits_shape(n);
    lemma_digit_char_value((n % 10) as int);
    if n < 10 {
        assert(digits(n).drop_last() =~= Seq::<char>::empty());
        assert(digits_value(Seq::<char>::empty()) == 0);
        assert(digits(n).last() == digit_char(n as int));
    } else {
        lemma_digits_value(n / 10);
        assert(digits(n).last() == digit_char((n % 10) as int));
        lemma_digits_shape(n / 10);
        assert(digits(n).drop_last() =~= digits(n / 10));
        assert(digits_value(digits(n)) == 10 * digits_value(digits(n / 10)) + (n % 10));
        assert(digits(n)[0] == digits(n / 10)[0]);
        assert forall|i: int| 0 <= i < digits(n).len() implies is_decimal_digit(#[trigger] digits(n)[i]) by {
            if i < digits(n).len() - 1 {
                assert(digits(n)[i] == digits(n / 10)[i]);
            }
        }
    }
}

/// The decimal notation of `x` is its standard one: a `-` before the
/// digits of `-x` when `x` is negative, the digits of `x` otherwise, with
/// no leading zero.
pub proof fn lemma_decimal_value(x: int)
    ensures
        x < 0 ==> decimal(x)[0] == '-' && digits_value(decimal(x).drop_first()) == -x,
        x >= 0 ==> digits_value(decimal(x)) == x,
        forall|i: int|
            (if x < 0 { 1int } else { 0int }) <= i < decimal(x).len() ==> is_decimal_digit(
                #[trigger] decimal(x)[i],
            ),
{
    if x < 0 {
        let m = (-x) as nat;
        lemma_digits_value(m);
        assert(decimal(x).drop_first() =~= digits(m));
        assert forall|i: int| 1 <= i < decimal(x).len() implies is_decimal_digit(#[trigger] decimal(x)[i]) by {
            assert(decimal(x)[i] == digits(m)[i - 1]);
        }
    } else {
        lemma_digits_value(x as nat);
    }
}

/// The hexadecimal digits of `n` are its lower-case base-sixteen
/// notation, as Rust's `{:x}` writes it: they are hexadecimal digit
/// characters, they stand for `n`, and there is no leading zero.
pub proof fn lemma_hex_value(n: nat)
    ensures
        hex_value(hex(n)) == n,
        hex(n).len() >= 1,
        forall|i: int| 0 <= i < hex(n).len() ==> is_hex_digit(#[trigger] hex(n)[i]),
        n >= 16 ==> hex(n)[0] != '0',
    decreases n,
{
    lemma_hex_char_value((n % 16) as int);
    if n < 16 {
        assert(hex(n).drop_last() =~= Seq::<char>::empty());
        assert(hex_value(Seq::<char>::empty()) == 0);
        assert(hex(n).last() == hex_char(n as int));
    } else {
        lemma_hex_value(n / 16);
        assert(hex(n).last() == hex_char((n % 16) as int));
        assert(hex(n).drop_last() =~= hex(n / 16));
        assert(hex_value(hex(n)) == 16 * hex_value(hex(n / 16)) + (n % 16));
        assert(hex(n)[0] == hex(n / 16)[0]);
        assert forall|i: int| 0 <= i < hex(n).len() implies is_hex_digit(#[trigger] hex(n)[i]) by {
            if i < hex(n).len() - 1 {
                assert(hex(n)[i] == hex(n / 16)[i]);
            }
        }
    }
}

/// Different numbers get different hexadecimal text.
pub proof fn lemma_hex_injective(n: nat, m: nat)
    ensures
        hex(n) == hex(m) ==> n == m,
{
    lemma_hex_value(n);
    lemma_hex_value(m);
}

} // verus!
