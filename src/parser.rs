//! Groups the lexer's tokens into arguments, recovering after each malformed one.
use crate::lexer::{
    first_token, lemma_token_span, lex_next_pos, token_span, token_text, Lexer, Token, TokenView,
};
use crate::text::{
    byte_offset, lemma_byte_offset_step, lemma_utf8_len_single, split_chars, substring,
};
use crate::{Error, ErrorView};
use vstd::prelude::*;

verus! {

/// One pull of the parser: an argument, an error, or `None` at the end.
pub type Pulled = Option<Result<Seq<char>, ErrorView>>;

/// A pull from character `i` of `s`, and the character index at which the parser then stands.
pub open spec fn parse_at(s: Seq<char>, i: int) -> (Pulled, int)
    decreases s.len() - i,
{
    if i < 0 || i >= s.len() {
        (None, i)
    } else {
        let next = lex_next_pos(s, i);
        proof {
            lemma_token_span(s.skip(i));
        }
        match first_token(s.skip(i)) {
            Err(e) => (Some(Err(e)), next),
            Ok(t) => match t {
                TokenView::Whitespace(_) => parse_at(s, next),
                TokenView::SingleQuote => quoted_at(s, t, i + 1, next),
                TokenView::DoubleQuote => quoted_at(s, t, i + 1, next),
                _ => unquoted_at(s, i, next),
            },
        }
    }
}

/// The rest of an unquoted argument that began at character `start`, with the lexer at `j`.
pub open spec fn unquoted_at(s: Seq<char>, start: int, j: int) -> (Pulled, int)
    decreases s.len() - j,
{
    if j < 0 || j >= s.len() {
        (Some(Ok(s.subrange(start, s.len() as int))), j)
    } else {
        let next = lex_next_pos(s, j);
        proof {
            lemma_token_span(s.skip(j));
        }
        match first_token(s.skip(j)) {
            Err(e) => (Some(Err(e)), next),
            Ok(t) => match t {
                TokenView::Whitespace(_) => (Some(Ok(s.subrange(start, j))), next),
                TokenView::SingleQuote => (
                    Some(Err(ErrorView::UnexpectedToken(byte_offset(s, j), token_text(t)))),
                    next,
                ),
                TokenView::DoubleQuote => (
                    Some(Err(ErrorView::UnexpectedToken(byte_offset(s, j), token_text(t)))),
                    next,
                ),
                _ => unquoted_at(s, start, next),
            },
        }
    }
}

/// The rest of a quoted argument opened by the quote token `q`, whose content begins at
/// character `start`, with the lexer at `j`.
pub open spec fn quoted_at(s: Seq<char>, q: TokenView, start: int, j: int) -> (Pulled, int)
    decreases s.len() - j,
{
    if j < 0 || j >= s.len() {
        (Some(Err(ErrorView::UnexpectedEndOfInput)), j)
    } else {
        let next = lex_next_pos(s, j);
        proof {
            lemma_token_span(s.skip(j));
        }
        match first_token(s.skip(j)) {
            Err(_) => (Some(Err(ErrorView::UnexpectedEndOfInput)), next),
            Ok(t) => if t == q {
                (Some(Ok(s.subrange(start, j))), next)
            } else {
                quoted_at(s, q, start, next)
            },
        }
    }
}

/// An unquoted argument, once begun, always yields something, and the parser stays inside
/// the input.
proof fn lemma_unquoted_progress(s: Seq<char>, start: int, j: int)
    requires
        0 <= j <= s.len(),
    ensures
        unquoted_at(s, start, j).0 is Some,
        j <= unquoted_at(s, start, j).1 <= s.len(),
    decreases s.len() - j,
{
    if j < s.len() {
        lemma_token_span(s.skip(j));
        lemma_unquoted_progress(s, start, lex_next_pos(s, j));
    }
}

/// A quoted argument, once opened, always yields something, and the parser stays inside the
/// input.
proof fn lemma_quoted_progress(s: Seq<char>, q: TokenView, start: int, j: int)
    requires
        0 <= j <= s.len(),
    ensures
        quoted_at(s, q, start, j).0 is Some,
        j <= quoted_at(s, q, start, j).1 <= s.len(),
    decreases s.len() - j,
{
    if j < s.len() {
        lemma_token_span(s.skip(j));
        lemma_quoted_progress(s, q, start, lex_next_pos(s, j));
    }
}

/// Every pull that yields an item moves the parser forward; a pull that yields `None` leaves
/// it at the end of the input, where every later pull yields `None` again.
pub proof fn lemma_parse_progress(s: Seq<char>, i: int)
    requires
        0 <= i <= s.len(),
    ensures
        parse_at(s, i).0 is Some ==> i < parse_at(s, i).1 <= s.len(),
        parse_at(s, i).0 is None ==> parse_at(s, i).1 == s.len(),
        parse_at(s, s.len() as int) == (None::<Result<Seq<char>, ErrorView>>, s.len() as int),
    decreases s.len() - i,
{
    if i < s.len() {
        lemma_token_span(s.skip(i));
        let next = lex_next_pos(s, i);
        match first_token(s.skip(i)) {
            Err(_) => {},
            Ok(t) => match t {
                TokenView::Whitespace(_) => lemma_parse_progress(s, next),
                TokenView::SingleQuote => lemma_quoted_progress(s, t, i + 1, next),
                TokenView::DoubleQuote => lemma_quoted_progress(s, t, i + 1, next),
                _ => lemma_unquoted_progress(s, i, next),
            },
        }
    }
}

/// Every item that pulls from character `i` of `s` yield before the first `None`.
pub open spec fn parse_all(s: Seq<char>, i: int) -> Seq<Result<Seq<char>, ErrorView>>
    decreases s.len() - i,
{
    if 0 <= i <= s.len() {
        proof {
            lemma_parse_progress(s, i);
        }
        match parse_at(s, i).0 {
            None => seq![],
            Some(x) => seq![x] + parse_all(s, parse_at(s, i).1),
        }
    } else {
        seq![]
    }
}

/// A parser item with its argument and error as views.
pub open spec fn item_view(r: Result<&str, Error>) -> Result<Seq<char>, ErrorView> {
    match r {
        Ok(a) => Ok(a@),
        Err(e) => Err(e@),
    }
}

/// A parser result with its argument and error as views.
pub open spec fn pulled_view(r: Option<Result<&str, Error>>) -> Pulled {
    match r {
        None => None,
        Some(x) => Some(item_view(x)),
    }
}

/// Iterator-like parser over the arguments of an input string.
///
/// Each pull yields an argument, borrowed from the input, or an error for one malformed
/// argument; after an error the parser goes on with the next argument. Once the input is
/// exhausted every pull yields `None`.
#[derive(Debug)]
pub struct Parser<'a> {
    input: &'a str,
    lexer: Lexer<'a>,
}

impl<'a> Parser<'a> {
    /// The characters of the input.
    pub closed spec fn source(&self) -> Seq<char> {
        self.input@
    }

    /// The index of the first character that the parser has not consumed.
    pub closed spec fn pos(&self) -> int {
        self.lexer.pos()
    }

    /// The parser owns a well-formed lexer over its own input.
    pub closed spec fn wf(&self) -> bool {
        &&& self.lexer.wf()
        &&& self.lexer.source() == self.input@
    }

    /// A well-formed parser stands inside its input.
    pub proof fn lemma_bounds(&self)
        requires
            self.wf(),
        ensures
            0 <= self.pos() <= self.source().len(),
    {
        self.lexer.lemma_bounds();
    }

    /// Returns a new parser that stands at the start of `input`.
    pub fn new(input: &'a str) -> (p: Self)
        ensures
            p.wf(),
            p.source() == input@,
            p.pos() == 0,
    {
        Self { input, lexer: Lexer::new(input) }
    }

    /// Whether `t` closes a quoted argument opened by `open`.
    fn closes(open: Token<'a>, t: Token<'a>) -> (b: bool)
        requires
            open is SingleQuote || open is DoubleQuote,
        ensures
            b == (t@ == open@),
    {
        match (open, t) {
            (Token::SingleQuote, Token::SingleQuote) => true,
            (Token::DoubleQuote, Token::DoubleQuote) => true,
            _ => false,
        }
    }

    /// Finishes an unquoted argument that began at character `start`, byte `idx`.
    fn unquoted(&mut self, idx: usize, Ghost(start): Ghost<int>) -> (r: Option<
        Result<&'a str, Error<'a>>,
    >)
        requires
            old(self).wf(),
            0 <= start <= old(self).pos(),
            idx == byte_offset(old(self).source(), start),
        ensures
            final(self).wf(),
            final(self).source() == old(self).source(),
            (pulled_view(r), final(self).pos()) == unquoted_at(
                old(self).source(),
                start,
                old(self).pos(),
            ),
    {
        let ghost s = self.source();
        loop
            invariant
                self.wf(),
                self.source() == s,
                0 <= start <= self.pos(),
                idx == byte_offset(s, start),
                s == old(self).source(),
                unquoted_at(s, start, self.pos()) == unquoted_at(old(self).source(), start, old(self).pos()),
            decreases s.len() - self.pos(),
        {
            let ghost j = self.pos();
            proof {
                self.lexer.lemma_bounds();
            }
            let pulled = self.lexer.next();
            proof {
                if j < s.len() {
                    lemma_token_span(s.skip(j));
                    lemma_byte_offset_step(s, j, lex_next_pos(s, j));
                    assert(s.skip(j).take(token_span(s.skip(j)) as int) =~= s.subrange(
                        j,
                        lex_next_pos(s, j),
                    ));
                }
            }
            match pulled {
                None => {
                    proof {
                        assert(s.skip(start) =~= s.subrange(start, s.len() as int));
                    }
                    let (_, arg) = split_chars(self.input, idx, Ghost(start));
                    return Some(Ok(arg));
                },
                Some(Err(e)) => {
                    return Some(Err(e));
                },
                Some(Ok((cont, token))) => match token {
                    Token::Whitespace(_) => {
                        return Some(Ok(substring(self.input, idx, cont, Ghost(start), Ghost(j))));
                    },
                    Token::SingleQuote | Token::DoubleQuote => {
                        let end = cont + token.len();
                        let text = substring(self.input, cont, end, Ghost(j), Ghost(j + 1));
                        return Some(Err(Error::UnexpectedToken(cont, text)));
                    },
                    _ => {},
                },
            }
        }
    }

    /// Finishes a quoted argument opened by `open` at byte `idx`; its content begins at
    /// character `start`.
    fn quoted(&mut self, idx: usize, open: Token<'a>, Ghost(start): Ghost<int>) -> (r: Option<
        Result<&'a str, Error<'a>>,
    >)
        requires
            old(self).wf(),
            open is SingleQuote || open is DoubleQuote,
            1 <= start <= old(self).pos(),
            idx + 1 == byte_offset(old(self).source(), start),
        ensures
            final(self).wf(),
            final(self).source() == old(self).source(),
            (pulled_view(r), final(self).pos()) == quoted_at(
                old(self).source(),
                open@,
                start,
                old(self).pos(),
            ),
    {
        let ghost s = self.source();
        loop
            invariant
                self.wf(),
                self.source() == s,
                open is SingleQuote || open is DoubleQuote,
                1 <= start <= self.pos(),
                idx + 1 == byte_offset(s, start),
                s == old(self).source(),
                quoted_at(s, open@, start, self.pos()) == quoted_at(old(self).source(), open@, start, old(self).pos()),
            decreases s.len() - self.pos(),
        {
            let ghost j = self.pos();
            proof {
                self.lexer.lemma_bounds();
            }
            let pulled = self.lexer.next();
            proof {
                if j < s.len() {
                    lemma_token_span(s.skip(j));
                    lemma_byte_offset_step(s, start, j);
                }
            }
            match pulled {
                Some(Ok((cont, token))) => {
                    if Self::closes(open, token) {
                        return Some(Ok(substring(self.input, idx + 1, cont, Ghost(start), Ghost(j))));
                    }
                },
                _ => {
                    return Some(Err(Error::UnexpectedEndOfInput));
                },
            }
        }
    }

    /// Yields the next argument, an error for a malformed one, or `None` once the input is
    /// exhausted.
    pub fn next(&mut self) -> (r: Option<Result<&'a str, Error<'a>>>)
        requires
            old(self).wf(),
        ensures
            final(self).wf(),
            final(self).source() == old(self).source(),
            (pulled_view(r), final(self).pos()) == parse_at(old(self).source(), old(self).pos()),
    {
        let ghost s = self.source();
        loop
            invariant
                self.wf(),
                self.source() == s,
                s == old(self).source(),
                parse_at(s, self.pos()) == parse_at(old(self).source(), old(self).pos()),
            decreases s.len() - self.pos(),
        {
            let ghost i = self.pos();
            proof {
                self.lexer.lemma_bounds();
            }
            let pulled = self.lexer.next();
            proof {
                if i < s.len() {
                    lemma_token_span(s.skip(i));
                }
            }
            match pulled {
                None => {
                    return None;
                },
                Some(Err(e)) => {
                    return Some(Err(e));
                },
                Some(Ok((idx, token))) => match token {
                    Token::Whitespace(_) => {},
                    Token::SingleQuote | Token::DoubleQuote => {
                        proof {
                            lemma_byte_offset_step(s, i, i + 1);
                            assert(s.subrange(i, i + 1) =~= seq![s[i]]);
                            lemma_utf8_len_single(s[i]);
                        }
                        return self.quoted(idx, token, Ghost(i + 1));
                    },
                    _ => {
                        return self.unquoted(idx, Ghost(i));
                    },
                },
            }
        }
    }

    /// Pulls every remaining item, errors included, until the input is exhausted.
    #[verifier::loop_isolation(false)]
    pub fn collect(self) -> (v: Vec<Result<&'a str, Error<'a>>>)
        requires
            self.wf(),
        ensures
            v@.map_values(|x: Result<&'a str, Error<'a>>| item_view(x)) == parse_all(
                self.source(),
                self.pos(),
            ),
    {
        let ghost s = self.source();
        let ghost all = parse_all(s, self.pos());
        let mut p = self;
        let mut v: Vec<Result<&'a str, Error<'a>>> = Vec::new();
        loop
            invariant
                p.wf(),
                p.source() == s,
                v@.map_values(|x: Result<&'a str, Error<'a>>| item_view(x)) + parse_all(
                    s,
                    p.pos(),
                ) == all,
            decreases s.len() - p.pos(),
        {
            let ghost i = p.pos();
            let ghost before = v@.map_values(|x: Result<&'a str, Error<'a>>| item_view(x));
            proof {
                p.lemma_bounds();
                lemma_parse_progress(s, i);
            }
            match p.next() {
                None => {
                    proof {
                        assert(before + parse_all(s, i) =~= before);
                    }
                    return v;
                },
                Some(x) => {
                    v.push(x);
                    proof {
                        let after = v@.map_values(|x: Result<&'a str, Error<'a>>| item_view(x));
                        assert(after =~= before + seq![item_view(x)]);
                        assert(before + parse_all(s, i) =~= after + parse_all(s, p.pos()));
                    }
                },
            }
        }
    }
}

} // verus!
