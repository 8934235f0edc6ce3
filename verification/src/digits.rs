//! Decimal digits: the number that a run of digits spells, powers of ten,
//! and the digits that write a number.

use vstd::prelude::*;
use vstd::arithmetic::power::{pow, lemma_pow0, lemma_pow1, lemma_pow_adds, lemma_pow_positive};
use crate::text::is_digit;

verus! {

/// What a decimal digit counts for.
pub open spec fn digit_value(c: char) -> nat {
    (c as int - '0' as int) as nat
}

/// The natural number that the digits of `s` spell in base ten, most
/// significant digit first.
pub open spec fn digits_value(s: Seq<char>) -> nat
    decreases s.len(),
{
    if s.len() == 0 {
        0
    } else {
        10 * digits_value(s.drop_last()) + digit_value(s.last())
    }
}

/// Whether `s` holds decimal digits only.
pub open spec fn all_digits(s: Seq<char>) -> bool {
    forall|i: int| 0 <= i < s.len() ==> is_digit(#[trigger] s[i])
}

/// Whether `s` holds the digit zero only.
pub open spec fn all_zeros(s: Seq<char>) -> bool {
    forall|i: int| 0 <= i < s.len() ==> #[trigger] s[i] == '0'
}

/// Ten to the power `n`.
pub open spec fn pow10(n: nat) -> nat {
    pow(10, n) as nat
}

/// Ten to the zero is one, each further power is ten times the one before,
/// and all are positive.
pub proof fn lemma_pow10_unfold(n: nat)
    ensures
        pow10(0) == 1,
        pow10(n + 1) == 10 * pow10(n),
        pow10(n) >= 1,
{
    lemma_pow0(10);
    lemma_pow1(10);
    lemma_pow_adds(10, 1, n);
    lemma_pow_positive(10, n);
    lemma_pow_positive(10, n + 1);
}

/// Exponents add where powers multiply.
pub proof fn lemma_pow10_adds(a: nat, b: nat)
    ensures
        pow10(a + b) == pow10(a) * pow10(b),
{
    lemma_pow_adds(10, a, b);
    lemma_pow_positive(10, a);
    lemma_pow_positive(10, b);
    lemma_pow_positive(10, a + b);
}

/// A greater exponent gives no smaller power.
pub proof fn lemma_pow10_increases(a: nat, b: nat)
    requires
        a <= b,
    ensures
        pow10(a) <= pow10(b),
    decreases b - a,
{
    if a < b {
        lemma_pow10_increases(a, (b - 1) as nat);
        lemma_pow10_unfold((b - 1) as nat);
    }
}

/// A run of `n` digits spells a number below ten to the `n`.
pub proof fn lemma_digits_value_bound(s: Seq<char>)
    requires
        all_digits(s),
    ensures
        digits_value(s) < pow10(s.len()),
    decreases s.len(),
{
    if s.len() == 0 {
        lemma_pow10_unfold(0);
    } else {
        let front = s.drop_last();
        assert(all_digits(front)) by {
            assert forall|i: int| 0 <= i < front.len() implies is_digit(#[trigger] front[i]) by {
                assert(front[i] == s[i]);
            }
        }
        lemma_digits_value_bound(front);
        lemma_pow10_unfold(front.len());
        assert(is_digit(s[s.len() - 1]));
    }
}

/// Writing `b` after `a` shifts `a` by the length of `b`.
pub proof fn lemma_digits_value_concat(a: Seq<char>, b: Seq<char>)
    ensures
        digits_value(a + b) == digits_value(a) * pow10(b.len()) + digits_value(b),
    decreases b.len(),
{
    let va = digits_value(a);
    if b.len() == 0 {
        assert(a + b == a);
        lemma_pow10_unfold(0);
        assert(va * pow10(0) == va);
    } else {
        let front = b.drop_last();
        assert((a + b).drop_last() == a + front);
        assert((a + b).last() == b.last());
        lemma_digits_value_concat(a, front);
        lemma_pow10_unfold(front.len());
        let p = pow10(front.len());
        assert(b.len() == front.len() + 1);
        assert(pow10(b.len()) == 10 * p);
        assert(10 * (va * p) == va * (10 * p)) by (nonlinear_arith);
    }
}

/// Only zeros spell zero.
pub proof fn lemma_digits_value_zero(s: Seq<char>)
    requires
        all_digits(s),
    ensures
        digits_value(s) == 0 <==> all_zeros(s),
    decreases s.len(),
{
    if s.len() > 0 {
        let front = s.drop_last();
        assert(all_digits(front)) by {
            assert forall|i: int| 0 <= i < front.len() implies is_digit(#[trigger] front[i]) by {
                assert(front[i] == s[i]);
            }
        }
        lemma_digits_value_zero(front);
        assert(is_digit(s[s.len() - 1]));
        if all_zeros(s) {
            assert(s[s.len() - 1] == '0');
            assert forall|i: int| 0 <= i < front.len() implies #[trigger] front[i] == '0' by {
                assert(front[i] == s[i]);
            }
        }
        if digits_value(s) == 0 {
            assert forall|i: int| 0 <= i < s.len() implies #[trigger] s[i] == '0' by {
                if i < front.len() {
                    assert(front[i] == s[i]);
                }
            }
        }
    }
}

/// A prefix of a run of digits spells no more than the whole run.
pub proof fn lemma_prefix_value_le(s: Seq<char>, i: int)
    requires
        0 <= i <= s.len(),
    ensures
        digits_value(s.take(i)) <= digits_value(s),
{
    assert(s.take(i) + s.skip(i) == s);
    lemma_digits_value_concat(s.take(i), s.skip(i));
    lemma_pow10_unfold(s.skip(i).len());
    let a = digits_value(s.take(i));
    let p = pow10(s.skip(i).len());
    assert(a <= a * p) by (nonlinear_arith)
        requires
            p >= 1,
            a >= 0,
    ;
}

/// Leading zeros count for nothing.
pub proof fn lemma_leading_zeros(s: Seq<char>, k: int)
    requires
        0 <= k <= s.len(),
        all_zeros(s.take(k)),
    ensures
        digits_value(s) == digits_value(s.skip(k)),
{
    assert(s.take(k) + s.skip(k) == s);
    lemma_digits_value_concat(s.take(k), s.skip(k));
    assert(all_digits(s.take(k)));
    lemma_digits_value_zero(s.take(k));
    assert(0 * pow10(s.skip(k).len()) == 0);
}

/// A run of digits that does not begin with a zero spells at least ten to
/// the power of its length less one.
pub proof fn lemma_leading_digit_bound(s: Seq<char>)
    requires
        all_digits(s),
        s.len() >= 1,
        s[0] != '0',
    ensures
        digits_value(s) >= pow10((s.len() - 1) as nat),
{
    let head = s.take(1);
    let tail = s.skip(1);
    assert(head + tail == s);
    lemma_digits_value_concat(head, tail);
    assert(head.drop_last() == Seq::<char>::empty());
    assert(digits_value(head.drop_last()) == 0);
    assert(head.last() == s[0]);
    assert(is_digit(s[0]));
    assert(digits_value(head) >= 1);
    let p = pow10(tail.len());
    let d = digits_value(head);
    assert(d * p >= p) by (nonlinear_arith)
        requires
            d >= 1,
            p >= 0,
    ;
}

/// The first digit of a run counts for no more than the whole run.
pub proof fn lemma_first_digit_le(s: Seq<char>)
    requires
        all_digits(s),
        s.len() >= 1,
    ensures
        digit_value(s[0]) <= digits_value(s),
{
    let head = s.take(1);
    let tail = s.skip(1);
    assert(head + tail == s);
    lemma_digits_value_concat(head, tail);
    assert(head.drop_last() == Seq::<char>::empty());
    assert(digits_value(head.drop_last()) == 0);
    assert(head.last() == s[0]);
    lemma_pow10_unfold(tail.len());
    let p = pow10(tail.len());
    let d = digits_value(head);
    assert(d * p >= d) by (nonlinear_arith)
        requires
            d >= 0,
            p >= 1,
    ;
}

/// Ten to the twentieth, written out.
pub proof fn lemma_pow10_20()
    ensures
        pow10(20) == 100_000_000_000_000_000_000,
{
    lemma_pow10_unfold(0);
    lemma_pow10_unfold(1);
    lemma_pow10_unfold(2);
    lemma_pow10_unfold(3);
    lemma_pow10_unfold(4);
    lemma_pow10_unfold(5);
    lemma_pow10_unfold(6);
    lemma_pow10_unfold(7);
    lemma_pow10_unfold(8);
    lemma_pow10_unfold(9);
    lemma_pow10_unfold(10);
    lemma_pow10_unfold(11);
    lemma_pow10_unfold(12);
    lemma_pow10_unfold(13);
    lemma_pow10_unfold(14);
    lemma_pow10_unfold(15);
    lemma_pow10_unfold(16);
    lemma_pow10_unfold(17);
    lemma_pow10_unfold(18);
    lemma_pow10_unfold(19);
}

/// The character that writes the digit `d`.
pub open spec fn digit_char(d: nat) -> char {
    if d == 0 {
        '0'
    } else if d == 1 {
        '1'
    } else if d == 2 {
        '2'
    } else if d == 3 {
        '3'
    } else if d == 4 {
        '4'
    } else if d == 5 {
        '5'
    } else if d == 6 {
        '6'
    } else if d == 7 {
        '7'
    } else if d == 8 {
        '8'
    } else {
        '9'
    }
}

/// The shortest way to write `n` in decimal digits.
pub open spec fn decimal_digits(n: nat) -> Seq<char>
    decreases n,
{
    if n < 10 {
        seq![digit_char(n)]
    } else {
        decimal_digits(n / 10).push(digit_char(n % 10))
    }
}

/// What `decimal_digits` writes reads back as the same number: the digits
/// are digits, they spell `n`, and no zero leads a number above nine.
pub proof fn lemma_decimal_digits_read_back(n: nat)
    ensures
        all_digits(decimal_digits(n)),
        digits_value(decimal_digits(n)) == n,
        decimal_digits(n).len() >= 1,
        n >= 1 ==> decimal_digits(n)[0] != '0',
    decreases n,
{
    if n < 10 {
        let s = seq![digit_char(n)];
        assert(s.drop_last() == Seq::<char>::empty());
        assert(digits_value(s.drop_last()) == 0);
        assert(s.last() == digit_char(n));
    } else {
        let front = decimal_digits(n / 10);
        let s = front.push(digit_char(n % 10));
        lemma_decimal_digits_read_back(n / 10);
        assert(s.drop_last() == front);
        assert(s.last() == digit_char(n % 10));
        assert(s[0] == front[0]);
        assert forall|i: int| 0 <= i < s.len() implies is_digit(#[trigger] s[i]) by {
            if i < front.len() {
                assert(s[i] == front[i]);
            }
        }
    }
}

/// The text that writes one digit.
fn digit_text(d: u64) -> (r: &'static str)
    requires
        d < 10,
    ensures
        r@ == seq![digit_char(d as nat)],
{
    proof {
        reveal_strlit("0");
        reveal_strlit("1");
        reveal_strlit("2");
        reveal_strlit("3");
        reveal_strlit("4");
        reveal_strlit("5");
        reveal_strlit("6");
        reveal_strlit("7");
        reveal_strlit("8");
        reveal_strlit("9");
    }
    let r = if d == 0 {
        "0"
    } else if d == 1 {
        "1"
    } else if d == 2 {
        "2"
    } else if d == 3 {
        "3"
    } else if d == 4 {
        "4"
    } else if d == 5 {
        "5"
    } else if d == 6 {
        "6"
    } else if d == 7 {
        "7"
    } else if d == 8 {
        "8"
    } else {
        "9"
    };
    assert(r@ =~= seq![digit_char(d as nat)]);
    r
}

/// Writes `n` in decimal digits.
pub fn decimal_text(n: u64) -> (r: String)
    ensures
        r@ == decimal_digits(n as nat),
    decreases n,
{
    if n < 10 {
        String::from_str(digit_text(n))
    } else {
        let mut text = decimal_text(n / 10);
        text.append(digit_text(n % 10));
        assert(text@ == decimal_digits((n / 10) as nat) + seq![digit_char((n % 10) as nat)]);
        assert(text@ == decimal_digits((n / 10) as nat).push(digit_char((n % 10) as nat)));
        text
    }
}

} // verus!
