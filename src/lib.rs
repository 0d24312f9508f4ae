//! Splits a line of text into arguments the way a shell splits words: whitespace separates
//! arguments, text between matching quotes forms one argument, and a backslash escapes the
//! character after it without ending the word.
pub use crate::parser::Parser;
use crate::parser::parse_all;
use vstd::prelude::*;

pub mod laws;
pub mod lexer;
pub mod parser;
pub mod text;

verus! {

/// The possible error returned from the parser.
#[derive(Debug, Copy, Clone, Eq, PartialEq)]
pub enum Error<'a> {
    /// The input ended unexpectedly: a quote was never closed, or a `\` had nothing after it.
    UnexpectedEndOfInput,
    /// A token stood where it could not be taken into the current argument (a quote at the end
    /// or in the middle of a word). Holds the byte offset of the token and its text.
    UnexpectedToken(usize, &'a str),
}

/// What an [`Error`] holds, with the text as characters.
pub enum ErrorView {
    UnexpectedEndOfInput,
    UnexpectedToken(nat, Seq<char>),
}

impl<'a> View for Error<'a> {
    type V = ErrorView;

    open spec fn view(&self) -> ErrorView {
        match self {
            Error::UnexpectedEndOfInput => ErrorView::UnexpectedEndOfInput,
            Error::UnexpectedToken(i, t) => ErrorView::UnexpectedToken(*i as nat, t@),
        }
    }
}

/// The arguments of a stream of items, or the first error among them.
pub open spec fn gather(items: Seq<Result<Seq<char>, ErrorView>>) -> Result<
    Seq<Seq<char>>,
    ErrorView,
>
    decreases items.len(),
{
    if items.len() == 0 {
        Ok(seq![])
    } else {
        match items[0] {
            Err(e) => Err(e),
            Ok(a) => match gather(items.drop_first()) {
                Ok(rest) => Ok(seq![a] + rest),
                Err(e) => Err(e),
            },
        }
    }
}

/// `done` put in front of the arguments of `g`, or the error of `g`.
pub open spec fn prepend(done: Seq<Seq<char>>, g: Result<Seq<Seq<char>>, ErrorView>) -> Result<
    Seq<Seq<char>>,
    ErrorView,
> {
    match g {
        Ok(rest) => Ok(done + rest),
        Err(e) => Err(e),
    }
}

/// A result of [`split`] with its arguments and error as views.
pub open spec fn split_view(r: Result<Vec<&str>, Error>) -> Result<Seq<Seq<char>>, ErrorView> {
    match r {
        Ok(v) => Ok(v@.map_values(|a: &str| a@)),
        Err(e) => Err(e@),
    }
}

/// Splits `input` into its arguments, or returns the first error that the parser meets. Valid
/// arguments may follow an erroneous one; to have them, drive a [`Parser`] directly.
#[verifier::loop_isolation(false)]
pub fn split(input: &str) -> (r: Result<Vec<&str>, Error>)
    ensures
        split_view(r) == gather(parse_all(input@, 0)),
{
    let ghost s = input@;
    let mut p = Parser::new(input);
    let mut v: Vec<&str> = Vec::new();
    loop
        invariant
            p.wf(),
            p.source() == s,
            gather(parse_all(s, 0)) == prepend(
                v@.map_values(|a: &str| a@),
                gather(parse_all(s, p.pos())),
            ),
        decreases s.len() - p.pos(),
    {
        let ghost i = p.pos();
        let ghost before = v@.map_values(|a: &str| a@);
        proof {
            p.lemma_bounds();
            crate::parser::lemma_parse_progress(s, i);
        }
        match p.next() {
            None => {
                proof {
                    assert(before + seq![] =~= before);
                }
                return Ok(v);
            },
            Some(Err(e)) => {
                return Err(e);
            },
            Some(Ok(a)) => {
                v.push(a);
                proof {
                    let items = parse_all(s, i);
                    assert(items.drop_first() =~= parse_all(s, p.pos()));
                    let after = v@.map_values(|a: &str| a@);
                    assert(after =~= before + seq![a@]);
                    match gather(parse_all(s, p.pos())) {
                        Ok(rest) => {
                            assert(before + (seq![a@] + rest) =~= after + rest);
                        },
                        Err(_) => {},
                    }
                }
            },
        }
    }
}

} // verus!
