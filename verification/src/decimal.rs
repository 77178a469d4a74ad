//! Decimal renderings of integers, as `Display` writes them.
use vstd::prelude::*;

verus! {

/// `String::try_reserve` leaves the characters of the string as they were,
/// whether or not the room could be reserved.
pub assume_specification[ String::try_reserve ](
    s: &mut String,
    additional: usize,
) -> (r: Result<(), std::collections::TryReserveError>)
    ensures
        final(s)@ == old(s)@,
;

/// `String::clear` leaves the string empty.
pub assume_specification[ String::clear ](s: &mut String)
    ensures
        final(s)@ == Seq::<char>::empty(),
;

/// The character of the decimal digit `d`.
pub open spec fn digit_char(d: nat) -> char {
    if d == 0 {
        '0'
    } else if d == 1 {
        '1'
    } else if d == 2 {
        '2'
    } else if d == 3 {
        '3'
    } else if d == 4 {
        '4'
    } else if d == 5 {
        '5'
    } else if d == 6 {
        '6'
    } else if d == 7 {
        '7'
    } else if d == 8 {
        '8'
    } else {
        '9'
    }
}

/// The digits of `n` in base ten, most significant first, without leading zeros.
pub open spec fn decimal(n: nat) -> Seq<char>
    decreases n,
{
    if n < 10 {
        seq![digit_char(n)]
    } else {
        decimal(n / 10).push(digit_char(n % 10))
    }
}

/// The rendering of a signed integer: a minus sign before the digits of its magnitude.
pub open spec fn signed_decimal(x: int) -> Seq<char> {
    if x < 0 {
        seq!['-'] + decimal((-x) as nat)
    } else {
        decimal(x as nat)
    }
}

/// The one-character string of the digit `d`.
fn digit_str(d: usize) -> (r: &'static str)
    requires
        d < 10,
    ensures
        r@ == seq![digit_char(d as nat)],
{
    match d {
        0 => {
            proof {
                reveal_strlit("0");
            }
            "0"
        },
        1 => {
            proof {
                reveal_strlit("1");
            }
            "1"
        },
        2 => {
            proof {
                reveal_strlit("2");
            }
            "2"
        },
        3 => {
            proof {
                reveal_strlit("3");
            }
            "3"
        },
        4 => {
            proof {
                reveal_strlit("4");
            }
            "4"
        },
        5 => {
            proof {
                reveal_strlit("5");
            }
            "5"
        },
        6 => {
            proof {
                reveal_strlit("6");
            }
            "6"
        },
        7 => {
            proof {
                reveal_strlit("7");
            }
            "7"
        },
        8 => {
            proof {
                reveal_strlit("8");
            }
            "8"
        },
        _ => {
            proof {
                reveal_strlit("9");
            }
            "9"
        },
    }
}

/// Appends the decimal digits of `n` to `out`.
pub fn push_decimal(out: &mut String, n: usize)
    ensures
        final(out)@ == old(out)@ + decimal(n as nat),
    decreases n,
{
    if n >= 10 {
        push_decimal(out, n / 10);
    }
    out.append(digit_str(n % 10));
}

/// Appends the rendering of the signed integer `x` to `out`.
pub fn push_signed_decimal(out: &mut String, x: isize)
    ensures
        final(out)@ == old(out)@ + signed_decimal(x as int),
{
    if x < 0 {
        proof {
            reveal_strlit("-");
        }
        out.append("-");
        let magnitude: usize = ((-(x + 1)) as usize) + 1;
        push_decimal(out, magnitude);
    } else {
        push_decimal(out, x as usize);
    }
}

/// The magnitude of `x`, as `isize::unsigned_abs` gives it.
pub fn magnitude(x: isize) -> (r: usize)
    ensures
        r as int == if x < 0 {
            -x
        } else {
            x as int
        },
{
    if x < 0 {
        ((-(x + 1)) as usize) + 1
    } else {
        x as usize
    }
}

/// The number of decimal digits of `n`.
pub fn decimal_len(n: usize) -> (r: usize)
    ensures
        r == decimal(n as nat).len(),
        1 <= r <= 20,
    decreases n,
{
    proof {
        lemma_decimal_len(n as nat);
    }
    if n >= 10 {
        decimal_len(n / 10) + 1
    } else {
        1
    }
}

/// The number of characters of the rendering of `x`.
pub fn signed_decimal_len(x: isize) -> (r: usize)
    ensures
        r == signed_decimal(x as int).len(),
        1 <= r <= 21,
{
    if x < 0 {
        decimal_len(magnitude(x)) + 1
    } else {
        decimal_len(x as usize)
    }
}

/// Ten to the power `k`.
pub open spec fn pow10(k: nat) -> nat
    decreases k,
{
    if k == 0 {
        1
    } else {
        10 * pow10((k - 1) as nat)
    }
}

/// A rendering has one more digit for each power of ten below the number.
pub proof fn lemma_decimal_len(n: nat)
    ensures
        decimal(n).len() >= 1,
        n < 10 ==> decimal(n).len() == 1,
        n >= 10 ==> decimal(n).len() == decimal(n / 10).len() + 1,
        n <= usize::MAX ==> decimal(n).len() <= 20,
{
    if n <= usize::MAX {
        assert(pow10(20) == 100000000000000000000nat) by {
            reveal_with_fuel(pow10, 21);
        }
        lemma_decimal_len_below(n, 20);
    }
}

/// A number below `10^k` has at most `k` digits.
proof fn lemma_decimal_len_below(n: nat, k: nat)
    requires
        n < pow10(k),
        k >= 1,
    ensures
        decimal(n).len() <= k,
        decimal(n).len() >= 1,
    decreases n,
{
    if n >= 10 {
        assert(k >= 2) by {
            if k == 0 {
            } else if k == 1 {
                assert(pow10(1) == 10) by {
                    reveal_with_fuel(pow10, 2);
                }
            }
        }
        assert(n / 10 < pow10((k - 1) as nat));
        lemma_decimal_len_below(n / 10, (k - 1) as nat);
    }
}
/// Different digits have different characters.
pub proof fn lemma_digit_char_injective(a: nat, b: nat)
    requires
        a < 10,
        b < 10,
        digit_char(a) == digit_char(b),
    ensures
        a == b,
{
}

/// A decimal rendering holds digits only: no dot.
pub proof fn lemma_decimal_no_dot(n: nat)
    ensures
        forall|i: int| 0 <= i < decimal(n).len() ==> #[trigger] decimal(n)[i] != '.',
    decreases n,
{
    if n >= 10 {
        lemma_decimal_no_dot(n / 10);
        assert forall|i: int| 0 <= i < decimal(n).len() implies #[trigger] decimal(n)[i] != '.' by {
            if i < decimal(n / 10).len() {
                assert(decimal(n)[i] == decimal(n / 10)[i]);
            }
        }
    }
}

/// Different numbers have different renderings.
pub proof fn lemma_decimal_injective(a: nat, b: nat)
    requires
        decimal(a) == decimal(b),
    ensures
        a == b,
    decreases a,
{
    lemma_decimal_len(a);
    lemma_decimal_len(b);
    if a < 10 && b < 10 {
        assert(decimal(a)[0] == digit_char(a));
        assert(decimal(b)[0] == digit_char(b));
        lemma_digit_char_injective(a, b);
    } else if a < 10 {
        lemma_decimal_len(b / 10);
    } else if b < 10 {
        lemma_decimal_len(a / 10);
    } else {
        let da = decimal(a);
        assert(da.drop_last() == decimal(a / 10));
        assert(decimal(b).drop_last() == decimal(b / 10));
        assert(da.last() == digit_char(a % 10));
        assert(decimal(b).last() == digit_char(b % 10));
        lemma_digit_char_injective(a % 10, b % 10);
        lemma_decimal_injective(a / 10, b / 10);
    }
}

/// The value of a decimal digit character: its distance from `'0'`.
pub open spec fn digit_value(c: char) -> int {
    (c as int) - ('0' as int)
}

/// Whether `c` is one of the characters `'0'` to `'9'`.
pub open spec fn is_digit(c: char) -> bool {
    0 <= digit_value(c) <= 9
}

/// The number that a string of decimal digits stands for, most significant
/// digit first.
pub open spec fn digits_value(s: Seq<char>) -> int
    decreases s.len(),
{
    if s.len() == 0 {
        0
    } else {
        digits_value(s.drop_last()) * 10 + digit_value(s.last())
    }
}

/// The number that a rendering of a signed integer stands for: the value of
/// its digits, negated after a leading minus sign.
pub open spec fn signed_value(s: Seq<char>) -> int {
    if s.len() > 0 && s[0] == '-' {
        -digits_value(s.drop_first())
    } else {
        digits_value(s)
    }
}

/// The rendering of `n` is the ordinary decimal one, as `Display` writes a
/// `usize`: it is made of decimal digits, most significant first, that stand
/// for `n`, and it starts with `'0'` only where it is `"0"`.
pub proof fn lemma_decimal_ordinary(n: nat)
    ensures
        decimal(n).len() >= 1,
        forall|i: int| 0 <= i < decimal(n).len() ==> is_digit(#[trigger] decimal(n)[i]),
        digits_value(decimal(n)) == n,
        decimal(n)[0] == '0' ==> n == 0,
    decreases n,
{
    lemma_decimal_len(n);
    let s = decimal(n);
    let r = n % 10;
    assert(digit_value(digit_char(r)) == r && is_digit(digit_char(r)));
    if n < 10 {
        assert(s.drop_last() =~= Seq::<char>::empty());
        assert(digits_value(s.drop_last()) == 0);
        assert(s.last() == digit_char(n));
        assert(digits_value(s) == digit_value(digit_char(n)));
        assert(digit_char(n) == '0' ==> n == 0);
    } else {
        lemma_decimal_ordinary(n / 10);
        lemma_decimal_len(n / 10);
        assert(s.drop_last() =~= decimal(n / 10));
        assert(s.last() == digit_char(r));
        assert(digits_value(s) == (n / 10) * 10 + r);
        assert(s[0] == decimal(n / 10)[0]);
        assert forall|i: int| 0 <= i < s.len() implies is_digit(#[trigger] s[i]) by {
            if i < s.len() - 1 {
                assert(s[i] == decimal(n / 10)[i]);
            }
        }
    }
}

/// The rendering of a signed integer is the ordinary one: a minus sign only
/// before the ordinary rendering of the magnitude of a negative number, and
/// it stands for the number.
pub proof fn lemma_signed_decimal_ordinary(x: int)
    ensures
        signed_value(signed_decimal(x)) == x,
        x < 0 ==> signed_decimal(x)[0] == '-' && signed_decimal(x).drop_first() == decimal(
            (-x) as nat,
        ),
        x >= 0 ==> signed_decimal(x) == decimal(x as nat),
        forall|i: int|
            0 < i < signed_decimal(x).len() ==> is_digit(#[trigger] signed_decimal(x)[i]),
{
    if x < 0 {
        lemma_decimal_ordinary((-x) as nat);
        let s = signed_decimal(x);
        assert(s.drop_first() =~= decimal((-x) as nat));
        assert forall|i: int| 0 < i < s.len() implies is_digit(#[trigger] s[i]) by {
            assert(s[i] == decimal((-x) as nat)[i - 1]);
        }
    } else {
        lemma_decimal_ordinary(x as nat);
        assert(is_digit(decimal(x as nat)[0]));
        assert(decimal(x as nat)[0] != '-');
    }
}

} // verus!
