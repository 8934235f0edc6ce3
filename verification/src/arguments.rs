//! The numeric arguments of the command line: the tokens that are decimal
//! literals, in the order in which they were given.

use vstd::prelude::*;
use crate::decimal::{number_of, parse_decimal, Decimal};
use crate::text::{texts_of, trim, trimmed};

verus! {

/// A command-line token that is a decimal literal, with the number that it
/// denotes.
#[derive(Debug)]
pub struct NumericArgument {
    text: String,
    value: Decimal,
}

impl View for NumericArgument {
    type V = Seq<char>;

    /// The literal as it was written, without surrounding whitespace.
    closed spec fn view(&self) -> Seq<char> {
        self.text@
    }
}

impl NumericArgument {
    #[verifier::type_invariant]
    spec fn well_formed(&self) -> bool {
        number_of(self.text@) == Some(self.value@)
    }

    /// The literal as it was written.
    pub fn text(&self) -> (r: &str)
        ensures
            r@ == self@,
    {
        self.text.as_str()
    }

    /// The number that the literal denotes.
    pub fn value(&self) -> (r: &Decimal)
        ensures
            number_of(self@) == Some(r@),
    {
        proof {
            use_type_invariant(self);
        }
        &self.value
    }
}

/// The literals among `tokens`: each token is trimmed, and those that are
/// decimal literals are kept, in order.
pub open spec fn numeric_tokens(tokens: Seq<Seq<char>>) -> Seq<Seq<char>> {
    tokens.map_values(|token: Seq<char>| trimmed(token)).filter(
        |text: Seq<char>| number_of(text) is Some,
    )
}

/// The literals that a list of numeric arguments holds.
pub open spec fn literals_of(arguments: Seq<NumericArgument>) -> Seq<Seq<char>> {
    arguments.map_values(|argument: NumericArgument| argument@)
}

pub proof fn lemma_numeric_tokens_push(tokens: Seq<Seq<char>>, token: Seq<char>)
    ensures
        numeric_tokens(tokens.push(token)) == (if number_of(trimmed(token)) is Some {
            numeric_tokens(tokens).push(trimmed(token))
        } else {
            numeric_tokens(tokens)
        }),
{
    let strip = |token: Seq<char>| trimmed(token);
    let keep = |text: Seq<char>| number_of(text) is Some;
    tokens.lemma_push_map_commute(strip, token);
    tokens.map_values(strip).lemma_filter_push(trimmed(token), keep);
}

/// Collects the numeric arguments of a command line.
pub fn numeric_arguments(tokens: &Vec<String>) -> (arguments: Vec<NumericArgument>)
    ensures
        literals_of(arguments@) == numeric_tokens(texts_of(tokens@)),
{
    let mut arguments: Vec<NumericArgument> = Vec::new();
    let mut i: usize = 0;
    proof {
        reveal(Seq::filter);
        assert(texts_of(tokens@).take(0) == Seq::<Seq<char>>::empty());
    }
    while i < tokens.len()
        invariant
            i <= tokens.len(),
            literals_of(arguments@) == numeric_tokens(texts_of(tokens@).take(i as int)),
        decreases tokens.len() - i,
    {
        let text = trim(tokens[i].as_str());
        proof {
            let all = texts_of(tokens@);
            assert(all.take(i + 1) == all.take(i as int).push(all[i as int]));
            lemma_numeric_tokens_push(all.take(i as int), all[i as int]);
        }
        match parse_decimal(text.as_str()) {
            Some(value) => {
                let argument = NumericArgument { text, value };
                proof {
                    arguments@.lemma_push_map_commute(
                        |argument: NumericArgument| argument@,
                        argument,
                    );
                }
                arguments.push(argument);
            },
            None => {},
        }
        i += 1;
    }
    proof {
        assert(texts_of(tokens@).take(tokens.len() as int) == texts_of(tokens@));
    }
    arguments
}

} // verus!
