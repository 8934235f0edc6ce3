//! The grammar of a finite decimal literal, stated by its parts: what is
//! written from well-formed parts is read as the number that the parts
//! denote, and nothing else is read.

use vstd::prelude::*;
use crate::decimal::{finite_number, is_letter, minus_at, sign_length, Number};
use crate::digits::{all_digits, digits_value};
use crate::text::{digits_end, is_digit, lemma_digits_end_bounds};

verus! {

/// The exponent of a literal: the letter `e` in either case, an optional
/// sign, digits.
pub struct Exponent {
    pub capital: bool,
    pub sign: Seq<char>,
    pub digits: Seq<char>,
}

/// A finite literal in parts: digits before an optional decimal point,
/// digits after it, and an optional exponent.
pub struct Literal {
    pub whole: Seq<char>,
    pub point: bool,
    pub fraction: Seq<char>,
    pub exponent: Option<Exponent>,
}

impl Exponent {
    /// A sign is `+`, `-` or nothing, and at least one digit follows.
    pub open spec fn well_formed(self) -> bool {
        &&& self.sign == Seq::<char>::empty() || self.sign == seq!['+'] || self.sign == seq!['-']
        &&& all_digits(self.digits)
        &&& self.digits.len() >= 1
    }

    /// The exponent as text.
    pub open spec fn written(self) -> Seq<char> {
        seq![if self.capital { 'E' } else { 'e' }] + self.sign + self.digits
    }

    /// The power of ten that the exponent names.
    pub open spec fn value(self) -> int {
        if self.sign == seq!['-'] {
            -(digits_value(self.digits) as int)
        } else {
            digits_value(self.digits) as int
        }
    }
}

impl Literal {
    /// Digits stand where digits belong, at least one of them in the
    /// mantissa, and none after a point that is not there.
    pub open spec fn well_formed(self) -> bool {
        &&& all_digits(self.whole)
        &&& all_digits(self.fraction)
        &&& !self.point ==> self.fraction.len() == 0
        &&& self.whole.len() + self.fraction.len() >= 1
        &&& self.exponent matches Some(exponent) ==> exponent.well_formed()
    }

    /// The literal as text.
    pub open spec fn written(self) -> Seq<char> {
        self.whole + (if self.point {
            seq!['.']
        } else {
            Seq::empty()
        }) + self.fraction + (match self.exponent {
            Some(exponent) => exponent.written(),
            None => Seq::empty(),
        })
    }

    /// The number that the literal denotes under the sign `negative`: its
    /// digits as one whole number, times ten to the written exponent less
    /// the number of digits after the point.
    pub open spec fn denoted(self, negative: bool) -> Number {
        Number::Finite {
            negative,
            mantissa: digits_value(self.whole + self.fraction),
            exponent: (match self.exponent {
                Some(exponent) => exponent.value(),
                None => 0,
            }) - self.fraction.len(),
        }
    }
}

/// The parts that a text falls into when it is read as a finite literal.
pub open spec fn parts_of(s: Seq<char>) -> Literal {
    let int_end = digits_end(s, 0);
    let point = int_end < s.len() && s[int_end] == '.';
    let frac_start = if point {
        int_end + 1
    } else {
        int_end
    };
    let frac_end = digits_end(s, frac_start);
    let exp_start = frac_end + 1 + sign_length(s, frac_end + 1);
    Literal {
        whole: s.subrange(0, int_end),
        point,
        fraction: s.subrange(frac_start, frac_end),
        exponent: if frac_end < s.len() {
            Some(
                Exponent {
                    capital: s[frac_end] == 'E',
                    sign: s.subrange(frac_end + 1, exp_start),
                    digits: s.subrange(exp_start, s.len() as int),
                },
            )
        } else {
            None
        },
    }
}

/// A run of digits that is followed by no digit ends where it ends.
pub proof fn lemma_digits_end_is(s: Seq<char>, start: int, end: int)
    requires
        0 <= start <= end <= s.len(),
        forall|k: int| start <= k < end ==> is_digit(#[trigger] s[k]),
        end < s.len() ==> !is_digit(s[end]),
    ensures
        digits_end(s, start) == end,
    decreases end - start,
{
    if start < end {
        assert(is_digit(s[start]));
        lemma_digits_end_is(s, start + 1, end);
    }
}

/// What is written from well-formed parts is read as the number that the
/// parts denote.
pub proof fn lemma_written_literal_is_read(literal: Literal, negative: bool)
    requires
        literal.well_formed(),
    ensures
        finite_number(negative, literal.written()) == Some(literal.denoted(negative)),
{
    let s = literal.written();
    let a = literal.whole.len() as int;
    let dot: Seq<char> = if literal.point {
        seq!['.']
    } else {
        Seq::empty()
    };
    let tail: Seq<char> = match literal.exponent {
        Some(exponent) => exponent.written(),
        None => Seq::empty(),
    };
    let frac_start = a + dot.len();
    let frac_end = frac_start + literal.fraction.len();
    assert(s == literal.whole + dot + literal.fraction + tail);
    assert(s.len() == frac_end + tail.len());
    assert forall|k: int| 0 <= k < a implies is_digit(#[trigger] s[k]) by {
        assert(s[k] == literal.whole[k]);
    }
    assert forall|k: int| frac_start <= k < frac_end implies is_digit(#[trigger] s[k]) by {
        assert(s[k] == literal.fraction[k - frac_start]);
    }
    if literal.point {
        assert(s[a] == '.');
    }
    if tail.len() > 0 {
        assert(s[frac_end] == tail[0]);
        assert(!is_digit(tail[0]));
        assert(is_letter(tail[0], 'e'));
        assert(tail[0] != '.');
    }
    lemma_digits_end_is(s, 0, a);
    lemma_digits_end_is(s, frac_start, frac_end);
    assert(s.subrange(0, a) + s.subrange(frac_start, frac_end) == literal.whole
        + literal.fraction);
    match literal.exponent {
        Some(exponent) => {
            let sign_at = frac_end + 1;
            let exp_start = sign_at + exponent.sign.len();
            assert(tail == seq![tail[0]] + exponent.sign + exponent.digits);
            assert(s.len() == exp_start + exponent.digits.len());
            assert forall|k: int| exp_start <= k < s.len() implies is_digit(#[trigger] s[k]) by {
                assert(s[k] == tail[k - frac_end]);
                assert(tail[k - frac_end] == exponent.digits[k - exp_start]);
            }
            assert(s[sign_at] == tail[1]);
            if exponent.sign.len() == 0 {
                assert(tail[1] == exponent.digits[0]);
                assert(is_digit(exponent.digits[0]));
            } else {
                assert(tail[1] == exponent.sign[0]);
            }
            assert(sign_length(s, sign_at) == exponent.sign.len());
            assert(minus_at(s, sign_at) <==> exponent.sign == seq!['-']) by {
                if exponent.sign.len() == 1 {
                    assert(exponent.sign =~= seq![exponent.sign[0]]);
                }
            }
            lemma_digits_end_is(s, exp_start, s.len() as int);
            assert(s.subrange(exp_start, s.len() as int) == exponent.digits);
        },
        None => {},
    }
}

/// Whatever is read as a finite literal is written from well-formed parts,
/// and is read as the number that those parts denote.
pub proof fn lemma_read_literal_was_written(s: Seq<char>, negative: bool)
    requires
        finite_number(negative, s) is Some,
    ensures
        parts_of(s).well_formed(),
        parts_of(s).written() == s,
        finite_number(negative, s) == Some(parts_of(s).denoted(negative)),
{
    let literal = parts_of(s);
    let int_end = digits_end(s, 0);
    lemma_digits_end_bounds(s, 0);
    let frac_start = if literal.point {
        int_end + 1
    } else {
        int_end
    };
    lemma_digits_end_bounds(s, frac_start);
    let frac_end = digits_end(s, frac_start);
    if !literal.point {
        assert(frac_end == int_end) by {
            if int_end < s.len() {
                assert(!is_digit(s[int_end]));
            }
        }
    }
    assert(all_digits(literal.whole));
    assert(all_digits(literal.fraction));
    if frac_end < s.len() {
        let sign_at = frac_end + 1;
        let exp_start = sign_at + sign_length(s, sign_at);
        lemma_digits_end_bounds(s, exp_start);
        let exponent = literal.exponent->0;
        assert(digits_end(s, exp_start) == s.len());
        assert(all_digits(exponent.digits));
        if sign_length(s, sign_at) == 1 {
            assert(exponent.sign =~= seq![s[sign_at]]);
        } else {
            assert(exponent.sign =~= Seq::<char>::empty());
        }
        assert(exponent.sign == seq!['-'] <==> minus_at(s, sign_at)) by {
            if exponent.sign == seq!['-'] {
                assert(exponent.sign[0] == '-');
            }
        }
        assert(is_letter(s[frac_end], 'e'));
        assert(exponent.written() == s.subrange(frac_end, s.len() as int));
        assert(literal.written() == s);
    } else {
        assert(literal.written() == s);
    }
}

} // verus!
