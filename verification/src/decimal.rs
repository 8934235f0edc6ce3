//! Exact decimal numbers as they are written in text: the grammar of a
//! decimal literal, the number that a literal denotes, and comparisons that
//! never round.

use vstd::prelude::*;
use vstd::arithmetic::div_mod::{
    lemma_fundamental_div_mod, lemma_fundamental_div_mod_converse, lemma_mod_bound,
};
use crate::digits::{
    all_digits, all_zeros, digits_value, lemma_digits_value_bound, lemma_digits_value_concat,
    lemma_digits_value_zero, lemma_leading_digit_bound, lemma_leading_zeros, lemma_pow10_20,
    lemma_pow10_adds, lemma_pow10_increases, lemma_pow10_unfold, lemma_prefix_value_le, pow10,
};
use crate::text::{
    chars_of, copy_range, digits_end, is_digit, lemma_digits_end_bounds, scan_digits,
};

verus! {

/// A number as a decimal literal denotes it. A finite one is
/// `mantissa * 10^exponent`, negated where `negative` holds.
pub enum Number {
    Finite { negative: bool, mantissa: nat, exponent: int },
    Infinite { negative: bool },
    NotANumber,
}

/// The floor of `m * 10^e`.
pub open spec fn floor_scaled(m: nat, e: int) -> nat {
    if e >= 0 {
        m * pow10(e as nat)
    } else {
        m / pow10((-e) as nat)
    }
}

/// Whether `m * 10^e` is a whole number.
pub open spec fn exact_scaled(m: nat, e: int) -> bool {
    e >= 0 || m % pow10((-e) as nat) == 0
}

/// Whether `a * 10^shift <= b`.
pub open spec fn scaled_le(a: nat, shift: int, b: nat) -> bool {
    if shift >= 0 {
        a * pow10(shift as nat) <= b
    } else {
        a <= b * pow10((-shift) as nat)
    }
}

impl Number {
    /// Whether the number is at least `bound * 10^scale`.
    pub open spec fn at_least(self, bound: nat, scale: int) -> bool {
        match self {
            Number::Finite { negative, mantissa, exponent } => if negative {
                mantissa == 0 && bound == 0
            } else {
                scaled_le(bound, scale - exponent, mantissa)
            },
            Number::Infinite { negative } => !negative,
            Number::NotANumber => false,
        }
    }

    /// Whether the number is at most `bound * 10^scale`.
    pub open spec fn at_most(self, bound: nat, scale: int) -> bool {
        match self {
            Number::Finite { negative, mantissa, exponent } => negative || scaled_le(
                mantissa,
                exponent - scale,
                bound,
            ),
            Number::Infinite { negative } => negative,
            Number::NotANumber => false,
        }
    }

    /// Whether the number is zero or above. Negative zero is zero.
    pub open spec fn is_non_negative(self) -> bool {
        match self {
            Number::Finite { negative, mantissa, .. } => !negative || mantissa == 0,
            Number::Infinite { negative } => !negative,
            Number::NotANumber => false,
        }
    }

    /// The whole part of the magnitude of a finite number after its decimal
    /// point has been moved `shift` places to the right: the floor of
    /// `mantissa * 10^(exponent + shift)`.
    pub open spec fn whole(self, shift: nat) -> nat {
        match self {
            Number::Finite { mantissa, exponent, .. } => floor_scaled(mantissa, exponent + shift),
            _ => 0,
        }
    }

    /// Whether nothing is lost in `whole(shift)`: the shifted magnitude is a
    /// whole number.
    pub open spec fn exact(self, shift: nat) -> bool {
        match self {
            Number::Finite { mantissa, exponent, .. } => exact_scaled(mantissa, exponent + shift),
            _ => false,
        }
    }
}

/// Whether `c` is the lower-case letter `letter` or its upper-case form.
pub open spec fn is_letter(c: char, letter: char) -> bool {
    c == letter || c as int + 32 == letter as int
}

/// Whether `s` spells the lower-case word `word`, in letters of either case.
pub open spec fn spells(s: Seq<char>, word: Seq<char>) -> bool {
    &&& s.len() == word.len()
    &&& forall|i: int| 0 <= i < s.len() ==> is_letter(#[trigger] s[i], word[i])
}

/// Length of the sign that `s` carries at position `i`: one for `+` or `-`,
/// zero for none.
pub open spec fn sign_length(s: Seq<char>, i: int) -> int {
    if 0 <= i < s.len() && (s[i] == '+' || s[i] == '-') {
        1
    } else {
        0
    }
}

/// Whether `s` has a minus sign at position `i`.
pub open spec fn minus_at(s: Seq<char>, i: int) -> bool {
    0 <= i < s.len() && s[i] == '-'
}

/// The finite number that the unsigned literal `body` denotes:
/// digits, with an optional decimal point among them, before them or after
/// them, and an optional exponent: the letter `e`, an optional sign, digits.
/// At least one digit stands in the mantissa, and the exponent, where the
/// letter is there, has at least one digit.
pub open spec fn finite_number(negative: bool, body: Seq<char>) -> Option<Number> {
    let int_end = digits_end(body, 0);
    let has_point = int_end < body.len() && body[int_end] == '.';
    let frac_start = if has_point {
        int_end + 1
    } else {
        int_end
    };
    let frac_end = digits_end(body, frac_start);
    let mantissa = body.subrange(0, int_end) + body.subrange(frac_start, frac_end);
    let scale = frac_end - frac_start;
    let has_exponent = frac_end < body.len() && is_letter(body[frac_end], 'e');
    let exp_start = frac_end + 1 + sign_length(body, frac_end + 1);
    let exp_end = digits_end(body, exp_start);
    if mantissa.len() == 0 {
        None
    } else if !has_exponent {
        if frac_end == body.len() {
            Some(
                Number::Finite { negative, mantissa: digits_value(mantissa), exponent: -scale },
            )
        } else {
            None
        }
    } else if exp_start < exp_end && exp_end == body.len() {
        let written = digits_value(body.subrange(exp_start, exp_end)) as int;
        let exponent = if minus_at(body, frac_end + 1) {
            -written
        } else {
            written
        };
        Some(Number::Finite { negative, mantissa: digits_value(mantissa), exponent: exponent - scale })
    } else {
        None
    }
}

/// The number that the literal `s` denotes, or `None` where `s` is no
/// literal: an optional sign, then `inf`, `infinity` or `nan` in letters of
/// either case, or a finite literal.
pub open spec fn number_of(s: Seq<char>) -> Option<Number> {
    let negative = minus_at(s, 0);
    let body = s.skip(sign_length(s, 0));
    if spells(body, "inf"@) || spells(body, "infinity"@) {
        Some(Number::Infinite { negative })
    } else if spells(body, "nan"@) {
        Some(Number::NotANumber)
    } else {
        finite_number(negative, body)
    }
}

/// A number below one has the whole part zero, and is whole only if it is
/// zero.
pub proof fn lemma_floor_below_one(m: nat, t: nat, e: int)
    requires
        m < pow10(t),
        t + e <= 0,
    ensures
        floor_scaled(m, e) == 0,
        m > 0 ==> !exact_scaled(m, e),
{
    if e >= 0 {
        lemma_pow10_unfold(0);
        assert(m * pow10(e as nat) == 0) by (nonlinear_arith)
            requires
                m == 0,
        ;
    } else {
        let p = pow10((-e) as nat);
        lemma_pow10_increases(t, (-e) as nat);
        lemma_fundamental_div_mod_converse(m as int, p as int, 0, m as int);
    }
}

/// A number with more than twenty digits before its decimal point is above
/// every `u64`.
pub proof fn lemma_floor_large(m: nat, t: nat, e: int)
    requires
        t >= 1,
        m >= pow10((t - 1) as nat),
        t + e > 20,
    ensures
        floor_scaled(m, e) >= pow10(20),
        floor_scaled(m, e) > u64::MAX,
{
    lemma_pow10_20();
    let low = pow10((t - 1) as nat);
    if e >= 0 {
        let p = pow10(e as nat);
        lemma_pow10_adds((t - 1) as nat, e as nat);
        lemma_pow10_increases(20, (t - 1 + e) as nat);
        assert(m * p >= low * p) by (nonlinear_arith)
            requires
                m >= low,
                p >= 0,
        ;
    } else {
        let p = pow10((-e) as nat);
        let q = pow10((t + e - 1) as nat);
        lemma_pow10_adds((t + e - 1) as nat, (-e) as nat);
        assert(low == q * p);
        lemma_pow10_increases(20, (t + e - 1) as nat);
        lemma_pow10_unfold((-e) as nat);
        assert(m / p >= q) by (nonlinear_arith)
            requires
                m >= q * p,
                p >= 1,
                q >= 0,
        ;
    }
}

/// Cutting a run of digits after its first `j` digits: the whole part is
/// what the first `j` digits spell, and nothing is lost exactly when the
/// rest are zeros.
pub proof fn lemma_floor_split(s: Seq<char>, j: int)
    requires
        all_digits(s),
        0 <= j <= s.len(),
    ensures
        floor_scaled(digits_value(s), j - s.len()) == digits_value(s.take(j)),
        exact_scaled(digits_value(s), j - s.len()) <==> all_zeros(s.skip(j)),
{
    let head = s.take(j);
    let tail = s.skip(j);
    assert(head + tail == s);
    lemma_digits_value_concat(head, tail);
    assert(all_digits(tail));
    lemma_digits_value_bound(tail);
    lemma_digits_value_zero(tail);
    let p = pow10(tail.len());
    if j == s.len() {
        lemma_pow10_unfold(0);
        assert(digits_value(head) * 1 == digits_value(head));
    } else {
        lemma_fundamental_div_mod_converse(
            digits_value(s) as int,
            p as int,
            digits_value(head) as int,
            digits_value(tail) as int,
        );
    }
}

/// `bound * 10^-e <= m` says that the whole part of `m * 10^e` is at least
/// `bound`.
pub proof fn lemma_scaled_lower_bound(bound: nat, m: nat, e: int)
    ensures
        scaled_le(bound, -e, m) <==> floor_scaled(m, e) >= bound,
{
    if e > 0 {
    } else if e == 0 {
        lemma_pow10_unfold(0);
        assert(bound * 1 == bound);
        assert(m * 1 == m);
    } else {
        let p = pow10((-e) as nat);
        lemma_pow10_unfold((-e) as nat);
        lemma_fundamental_div_mod(m as int, p as int);
        let q = m as int / p as int;
        let r = m as int % p as int;
        assert(0 <= r < p) by {
            lemma_mod_bound(m as int, p as int);
        }
        assert(bound * p <= m <==> bound <= q) by (nonlinear_arith)
            requires
                m == p * q + r,
                0 <= r < p,
        ;
    }
}

/// `m * 10^e <= bound` says that the whole part of `m * 10^e` is below
/// `bound`, or is `bound` with nothing lost.
pub proof fn lemma_scaled_upper_bound(bound: nat, m: nat, e: int)
    ensures
        scaled_le(m, e, bound) <==> floor_scaled(m, e) < bound || (floor_scaled(m, e) == bound
            && exact_scaled(m, e)),
{
    if e >= 0 {
    } else {
        let p = pow10((-e) as nat);
        lemma_pow10_unfold((-e) as nat);
        lemma_fundamental_div_mod(m as int, p as int);
        let q = m as int / p as int;
        let r = m as int % p as int;
        assert(0 <= r < p) by {
            lemma_mod_bound(m as int, p as int);
        }
        assert(m <= bound * p <==> q < bound || (q == bound && r == 0)) by (nonlinear_arith)
            requires
                m == p * q + r,
                0 <= r < p,
        ;
    }
}

/// A finite number that is not negative is at least zero, and it is at least
/// a whole bound exactly when its whole part is.
pub proof fn lemma_whole_part_bound(number: Number, bound: nat)
    requires
        number is Finite,
        number.is_non_negative(),
    ensures
        number.at_least(0, 0),
        number.at_least(bound, 0) <==> number.whole(0) >= bound,
{
    let m = number->mantissa;
    let e = number->exponent;
    let p = pow10((if e >= 0 { e } else { -e }) as nat);
    lemma_pow10_unfold((if e >= 0 { e } else { -e }) as nat);
    lemma_scaled_lower_bound(bound, m, e);
    lemma_scaled_lower_bound(0, m, e);
    assert(0 * p == 0);
    if m == 0 {
        if e >= 0 {
            assert(0 * p == 0);
        } else {
            lemma_fundamental_div_mod_converse(0, p as int, 0, 0);
        }
    }
}

/// Which of the three classes a parsed literal falls in.
#[derive(Clone, Copy, Debug, PartialEq, Eq, Structural)]
enum Class {
    Finite,
    Infinite,
    NotANumber,
}

/// A parsed decimal literal, held as its digits so that no value is ever
/// rounded.
#[derive(Debug)]
pub struct Decimal {
    class: Class,
    negative: bool,
    /// The digits of the mantissa, most significant first.
    digits: Vec<char>,
    /// How many of `digits` stand after the decimal point.
    scale: usize,
    exponent_negative: bool,
    /// The digits of the written exponent; empty where none is written.
    exponent_digits: Vec<char>,
}

impl View for Decimal {
    type V = Number;

    closed spec fn view(&self) -> Number {
        match self.class {
            Class::Finite => Number::Finite {
                negative: self.negative,
                mantissa: digits_value(self.digits@),
                exponent: self.written_exponent() - self.scale,
            },
            Class::Infinite => Number::Infinite { negative: self.negative },
            Class::NotANumber => Number::NotANumber,
        }
    }
}

impl Decimal {
    #[verifier::type_invariant]
    spec fn well_formed(&self) -> bool {
        &&& all_digits(self.digits@)
        &&& all_digits(self.exponent_digits@)
        &&& self.scale <= self.digits.len()
        &&& self.class == Class::Finite ==> self.digits.len() > 0
    }

    spec fn written_exponent(&self) -> int {
        if self.exponent_negative {
            -(digits_value(self.exponent_digits@) as int)
        } else {
            digits_value(self.exponent_digits@) as int
        }
    }
}

/// The whole part of a shifted magnitude, and whether the shift lost nothing.
#[derive(Clone, Copy, Debug, PartialEq, Eq)]
pub struct Whole {
    pub value: u64,
    pub exact: bool,
}

/// Exponents of this size or more need not be told apart: with fewer than
/// `2^64` digits in a mantissa, a positive one puts the number above every
/// `u64` and a negative one puts it below one.
const EXPONENT_CAP: u128 = 1_000_000_000_000_000_000_000_000_000_000;

/// The number that `digits` spell, where it is below `EXPONENT_CAP`.
fn small_value(digits: &Vec<char>) -> (r: Option<u128>)
    requires
        all_digits(digits@),
    ensures
        (match r {
            Some(v) => v == digits_value(digits@) && v < EXPONENT_CAP,
            None => digits_value(digits@) >= EXPONENT_CAP,
        }),
{
    let mut acc: u128 = 0;
    let mut i: usize = 0;
    while i < digits.len()
        invariant
            all_digits(digits@),
            i <= digits.len(),
            acc == digits_value(digits@.take(i as int)),
            acc < EXPONENT_CAP,
        decreases digits.len() - i,
    {
        let c = digits[i];
        assert(is_digit(digits@[i as int]));
        let d: u128 = (c as u32 - '0' as u32) as u128;
        let next: u128 = acc * 10 + d;
        proof {
            assert(digits@.take(i + 1).drop_last() == digits@.take(i as int));
            assert(next == digits_value(digits@.take(i + 1)));
            if next >= EXPONENT_CAP {
                lemma_prefix_value_le(digits@, i + 1);
            }
        }
        if next >= EXPONENT_CAP {
            return None;
        }
        acc = next;
        i += 1;
    }
    assert(digits@.take(digits.len() as int) == digits@);
    Some(acc)
}

/// How many zeros `digits` begins with.
fn count_leading_zeros(digits: &Vec<char>) -> (k: usize)
    ensures
        k <= digits.len(),
        all_zeros(digits@.take(k as int)),
        k < digits.len() ==> digits@[k as int] != '0',
{
    let mut k: usize = 0;
    while k < digits.len() && digits[k] == '0'
        invariant
            k <= digits.len(),
            all_zeros(digits@.take(k as int)),
        decreases digits.len() - k,
    {
        k += 1;
    }
    k
}

/// Whether `digits` holds only zeros from position `start` on.
fn zeros_from(digits: &Vec<char>, start: usize) -> (r: bool)
    requires
        start <= digits.len(),
    ensures
        r == all_zeros(digits@.skip(start as int)),
{
    let mut i: usize = start;
    while i < digits.len()
        invariant
            start <= i <= digits.len(),
            forall|j: int| start <= j < i ==> digits@[j] == '0',
        decreases digits.len() - i,
    {
        if digits[i] != '0' {
            assert(digits@.skip(start as int)[i - start] == digits@[i as int]);
            return false;
        }
        i += 1;
    }
    true
}

impl Decimal {
    /// Whether the literal denotes a finite number.
    pub fn is_finite(&self) -> (r: bool)
        ensures
            r == (self@ is Finite),
    {
        self.class == Class::Finite
    }

    /// Whether the number is zero or above.
    pub fn is_non_negative(&self) -> (r: bool)
        ensures
            r == self@.is_non_negative(),
    {
        proof {
            use_type_invariant(self);
        }
        match self.class {
            Class::NotANumber => false,
            Class::Infinite => !self.negative,
            Class::Finite => {
                proof {
                    lemma_digits_value_zero(self.digits@);
                    assert(self.digits@.skip(0) == self.digits@);
                }
                !self.negative || zeros_from(&self.digits, 0)
            },
        }
    }

    /// The whole part of the magnitude after the decimal point has been moved
    /// `shift` places to the right, where the number is finite and that whole
    /// part fits, and whether the shifted magnitude is whole.
    pub fn whole(&self, shift: u8) -> (r: Option<Whole>)
        ensures
            r is Some <==> self@ is Finite && self@.whole(shift as nat) <= u64::MAX,
            r matches Some(w) ==> w.value == self@.whole(shift as nat) && w.exact == self@.exact(
                shift as nat,
            ),
    {
        proof {
            use_type_invariant(self);
        }
        if self.class != Class::Finite {
            return None;
        }
        let n = self.digits.len();
        let k = count_leading_zeros(&self.digits);
        let ghost all = self.digits@;
        let ghost sig = all.skip(k as int);
        let ghost m = digits_value(all);
        let ghost e = self.written_exponent() - self.scale + shift;
        proof {
            lemma_leading_zeros(all, k as int);
            assert(all_digits(sig));
            lemma_digits_value_bound(sig);
            lemma_digits_value_zero(all);
        }
        if k == n {
            proof {
                assert(sig == Seq::<char>::empty());
                lemma_pow10_unfold(0);
                assert(m == 0);
                if e >= 0 {
                    assert(0 * pow10(e as nat) == 0);
                } else {
                    lemma_pow10_unfold((-e) as nat);
                    lemma_fundamental_div_mod_converse(0, pow10((-e) as nat) as int, 0, 0);
                }
            }
            return Some(Whole { value: 0, exact: true });
        }
        let t = n - k;
        proof {
            assert(sig[0] == all[k as int]);
            lemma_leading_digit_bound(sig);
        }
        let written = match small_value(&self.exponent_digits) {
            Some(v) => v,
            None => {
                if self.exponent_negative {
                    proof {
                        lemma_floor_below_one(m, t as nat, e);
                    }
                    return Some(Whole { value: 0, exact: false });
                } else {
                    proof {
                        lemma_floor_large(m, t as nat, e);
                    }
                    return None;
                }
            },
        };
        let exponent: i128 = if self.exponent_negative {
            -(written as i128)
        } else {
            written as i128
        };
        let shifted: i128 = exponent - (self.scale as i128) + (shift as i128);
        let places: i128 = (t as i128) + shifted;
        assert(shifted == e);
        if places <= 0 {
            proof {
                lemma_floor_below_one(m, t as nat, e);
            }
            return Some(Whole { value: 0, exact: false });
        }
        if places > 20 {
            proof {
                lemma_floor_large(m, t as nat, e);
            }
            return None;
        }
        let cut: usize = places as usize;
        let ghost padded: Seq<char> = if cut >= t {
            sig + Seq::new((cut - t) as nat, |i: int| '0')
        } else {
            sig.take(cut as int)
        };
        let mut acc: u128 = 0;
        let mut i: usize = 0;
        proof {
            lemma_pow10_20();
            lemma_pow10_unfold(0);
        }
        while i < cut
            invariant
                i <= cut <= 20,
                k + t == n,
                n == self.digits.len(),
                all == self.digits@,
                sig == all.skip(k as int),
                padded.len() == cut,
                all_digits(padded),
                forall|j: int| 0 <= j < cut && j < t ==> padded[j] == all[k + j],
                forall|j: int| t <= j < cut ==> padded[j] == '0',
                acc == digits_value(padded.take(i as int)),
                acc < pow10(i as nat),
                pow10(20) == 100_000_000_000_000_000_000,
            decreases cut - i,
        {
            let c = if i < t {
                self.digits[k + i]
            } else {
                '0'
            };
            assert(c == padded[i as int]);
            assert(is_digit(padded[i as int]));
            proof {
                lemma_pow10_unfold(i as nat);
                lemma_pow10_increases((i + 1) as nat, 20);
                assert(padded.take(i + 1).drop_last() == padded.take(i as int));
            }
            let d: u128 = (c as u32 - '0' as u32) as u128;
            acc = acc * 10 + d;
            i += 1;
        }
        let exact = cut >= t || zeros_from(&self.digits, k + cut);
        proof {
            assert(padded.take(cut as int) == padded);
            if cut >= t {
                let zeros = Seq::new((cut - t) as nat, |i: int| '0');
                lemma_digits_value_concat(sig, zeros);
                assert(all_digits(zeros));
                lemma_digits_value_zero(zeros);
            } else {
                lemma_floor_split(sig, cut as int);
                assert(sig.skip(cut as int) == all.skip(k + cut));
            }
        }
        if acc > u64::MAX as u128 {
            None
        } else {
            Some(Whole { value: acc as u64, exact })
        }
    }

    /// Whether the number is at least `bound / 10^places`.
    pub fn is_at_least(&self, bound: u64, places: u8) -> (r: bool)
        ensures
            r == self@.at_least(bound as nat, -(places as int)),
    {
        proof {
            use_type_invariant(self);
        }
        match self.class {
            Class::NotANumber => false,
            Class::Infinite => !self.negative,
            Class::Finite => {
                if self.negative {
                    proof {
                        lemma_digits_value_zero(self.digits@);
                        assert(self.digits@.skip(0) == self.digits@);
                    }
                    bound == 0 && zeros_from(&self.digits, 0)
                } else {
                    proof {
                        lemma_scaled_lower_bound(
                            bound as nat,
                            digits_value(self.digits@),
                            self.written_exponent() - self.scale + places,
                        );
                    }
                    match self.whole(places) {
                        Some(w) => w.value >= bound,
                        None => true,
                    }
                }
            },
        }
    }

    /// Whether the number is at most `bound / 10^places`.
    pub fn is_at_most(&self, bound: u64, places: u8) -> (r: bool)
        ensures
            r == self@.at_most(bound as nat, -(places as int)),
    {
        proof {
            use_type_invariant(self);
        }
        match self.class {
            Class::NotANumber => false,
            Class::Infinite => self.negative,
            Class::Finite => {
                if self.negative {
                    true
                } else {
                    proof {
                        lemma_scaled_upper_bound(
                            bound as nat,
                            digits_value(self.digits@),
                            self.written_exponent() - self.scale + places,
                        );
                    }
                    match self.whole(places) {
                        Some(w) => w.value < bound || (w.value == bound && w.exact),
                        None => false,
                    }
                }
            },
        }
    }
}

/// Whether `c` is the lower-case letter `letter` or its upper-case form.
fn char_is_letter(c: char, letter: char) -> (r: bool)
    ensures
        r == is_letter(c, letter),
{
    c == letter || c as u32 + 32 == letter as u32
}

/// Whether the characters `s` spell `word` in letters of either case.
fn chars_spell(s: &Vec<char>, word: &str) -> (r: bool)
    ensures
        r == spells(s@, word@),
{
    let w = chars_of(word);
    if w.len() != s.len() {
        return false;
    }
    let mut i: usize = 0;
    while i < s.len()
        invariant
            w@ == word@,
            w.len() == s.len(),
            i <= s.len(),
            forall|k: int| 0 <= k < i ==> is_letter(#[trigger] s@[k], w@[k]),
        decreases s.len() - i,
    {
        if !char_is_letter(s[i], w[i]) {
            return false;
        }
        i += 1;
    }
    true
}

/// The digits of a mantissa: those before the decimal point, then those
/// after it.
fn mantissa_digits(
    body: &Vec<char>,
    int_end: usize,
    frac_start: usize,
    frac_end: usize,
) -> (digits: Vec<char>)
    requires
        int_end <= frac_start <= frac_end <= body.len(),
    ensures
        digits@ == body@.subrange(0, int_end as int) + body@.subrange(
            frac_start as int,
            frac_end as int,
        ),
{
    let mut digits = copy_range(body, 0, int_end);
    let mut i: usize = frac_start;
    while i < frac_end
        invariant
            int_end <= frac_start <= i <= frac_end <= body.len(),
            digits@ == body@.subrange(0, int_end as int) + body@.subrange(
                frac_start as int,
                i as int,
            ),
        decreases frac_end - i,
    {
        digits.push(body[i]);
        i += 1;
    }
    digits
}

/// Reads an unsigned finite literal.
fn parse_finite(negative: bool, body: &Vec<char>) -> (r: Option<Decimal>)
    ensures
        (match r {
            Some(d) => finite_number(negative, body@) == Some(d@),
            None => finite_number(negative, body@) is None,
        }),
{
    let len = body.len();
    let int_end = scan_digits(body, 0);
    let has_point = int_end < len && body[int_end] == '.';
    let frac_start = if has_point {
        int_end + 1
    } else {
        int_end
    };
    let frac_end = scan_digits(body, frac_start);
    proof {
        lemma_digits_end_bounds(body@, 0);
        lemma_digits_end_bounds(body@, frac_start as int);
    }
    if int_end + (frac_end - frac_start) == 0 {
        return None;
    }
    let digits = mantissa_digits(body, int_end, frac_start, frac_end);
    let scale = frac_end - frac_start;
    assert(all_digits(digits@));
    let has_exponent = frac_end < len && char_is_letter(body[frac_end], 'e');
    if !has_exponent {
        if frac_end == len {
            return Some(
                Decimal {
                    class: Class::Finite,
                    negative,
                    digits,
                    scale,
                    exponent_negative: false,
                    exponent_digits: Vec::new(),
                },
            );
        } else {
            return None;
        }
    }
    let sign_at = frac_end + 1;
    let signed = sign_at < len && (body[sign_at] == '+' || body[sign_at] == '-');
    let exponent_negative = sign_at < len && body[sign_at] == '-';
    let exp_start = if signed {
        sign_at + 1
    } else {
        sign_at
    };
    let exp_end = scan_digits(body, exp_start);
    proof {
        lemma_digits_end_bounds(body@, exp_start as int);
    }
    if exp_start < exp_end && exp_end == len {
        let exponent_digits = copy_range(body, exp_start, exp_end);
        assert(all_digits(exponent_digits@));
        Some(
            Decimal {
                class: Class::Finite,
                negative,
                digits,
                scale,
                exponent_negative,
                exponent_digits,
            },
        )
    } else {
        None
    }
}

/// Reads a decimal literal: `Some` exactly where `text` is one, and then the
/// number that it denotes.
pub fn parse_decimal(text: &str) -> (r: Option<Decimal>)
    ensures
        (match r {
            Some(d) => number_of(text@) == Some(d@),
            None => number_of(text@) is None,
        }),
{
    let chars = chars_of(text);
    let len = chars.len();
    let signed = len > 0 && (chars[0] == '+' || chars[0] == '-');
    let negative = len > 0 && chars[0] == '-';
    let body = if signed {
        copy_range(&chars, 1, len)
    } else {
        copy_range(&chars, 0, len)
    };
    assert(body@ == text@.skip(sign_length(text@, 0)));
    if chars_spell(&body, "inf") || chars_spell(&body, "infinity") {
        Some(
            Decimal {
                class: Class::Infinite,
                negative,
                digits: Vec::new(),
                scale: 0,
                exponent_negative: false,
                exponent_digits: Vec::new(),
            },
        )
    } else if chars_spell(&body, "nan") {
        Some(
            Decimal {
                class: Class::NotANumber,
                negative,
                digits: Vec::new(),
                scale: 0,
                exponent_negative: false,
                exponent_digits: Vec::new(),
            },
        )
    } else {
        parse_finite(negative, &body)
    }
}

} // verus!