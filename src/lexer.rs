//! Classifies the characters of an input into a flat stream of tokens with byte offsets.
use crate::text::{
    byte_offset, char_utf8_len, in_class, is_word_character, is_white_space, lemma_encode_concat,
    lemma_utf8_len_single, run_len, split_chars, utf8_len, white_space,
};
use crate::{Error, ErrorView};
use vstd::prelude::*;
use vstd::string::StrSliceExecFns;
use vstd::utf8::encode_utf8;

verus! {

/// One lexical unit of the input, borrowed from it.
///
/// Every character is a quote, the escape character, whitespace or a word character, so this
/// lexer never produces `UnknownCharacter`; the parser still takes one into a word.
#[derive(Debug, Copy, Clone, Eq, PartialEq)]
pub enum Token<'a> {
    Word(&'a str),
    Whitespace(&'a str),
    SingleQuote,
    DoubleQuote,
    Escape(&'a str),
    UnknownCharacter(char),
}

/// What a [`Token`] holds, with its text as characters.
pub enum TokenView {
    Word(Seq<char>),
    Whitespace(Seq<char>),
    SingleQuote,
    DoubleQuote,
    Escape(Seq<char>),
    UnknownCharacter(char),
}

impl<'a> View for Token<'a> {
    type V = TokenView;

    open spec fn view(&self) -> TokenView {
        match self {
            Token::Word(w) => TokenView::Word(w@),
            Token::Whitespace(w) => TokenView::Whitespace(w@),
            Token::SingleQuote => TokenView::SingleQuote,
            Token::DoubleQuote => TokenView::DoubleQuote,
            Token::Escape(w) => TokenView::Escape(w@),
            Token::UnknownCharacter(c) => TokenView::UnknownCharacter(*c),
        }
    }
}

/// The characters of the input that a token spans.
pub open spec fn token_text(t: TokenView) -> Seq<char> {
    match t {
        TokenView::Word(w) => w,
        TokenView::Whitespace(w) => w,
        TokenView::SingleQuote => seq!['\''],
        TokenView::DoubleQuote => seq!['"'],
        TokenView::Escape(w) => w,
        TokenView::UnknownCharacter(c) => seq![c],
    }
}

/// The token at the start of the non-empty remainder `r`, or the error found there.
pub open spec fn first_token(r: Seq<char>) -> Result<TokenView, ErrorView>
    recommends
        r.len() > 0,
{
    if r[0] == '\'' {
        Ok(TokenView::SingleQuote)
    } else if r[0] == '"' {
        Ok(TokenView::DoubleQuote)
    } else if r[0] == '\\' {
        if r.len() < 2 {
            Err(ErrorView::UnexpectedEndOfInput)
        } else {
            Ok(TokenView::Escape(r.take(2)))
        }
    } else if is_white_space(r[0]) {
        Ok(TokenView::Whitespace(r.take(run_len(r, true) as int)))
    } else {
        Ok(TokenView::Word(r.take(run_len(r, false) as int)))
    }
}

/// How many characters of the non-empty remainder `r` the next lexer step consumes: the
/// token's, or all of them after an error.
pub open spec fn token_span(r: Seq<char>) -> nat {
    match first_token(r) {
        Ok(t) => token_text(t).len(),
        Err(_) => r.len(),
    }
}

/// What the lexer yields when it stands at character `i` of `s`.
pub open spec fn lex_at(s: Seq<char>, i: int) -> Option<Result<(nat, TokenView), ErrorView>> {
    if i >= s.len() {
        None
    } else {
        match first_token(s.skip(i)) {
            Ok(t) => Some(Ok((byte_offset(s, i), t))),
            Err(e) => Some(Err(e)),
        }
    }
}

/// Where the lexer stands after a step from character `i` of `s`.
pub open spec fn lex_next_pos(s: Seq<char>, i: int) -> int {
    if i >= s.len() {
        i
    } else {
        i + token_span(s.skip(i))
    }
}

/// A lexer result with its token and error as views.
pub open spec fn lexed_view(r: Option<Result<(usize, Token), Error>>) -> Option<
    Result<(nat, TokenView), ErrorView>,
> {
    match r {
        None => None,
        Some(Ok((i, t))) => Some(Ok((i as nat, t@))),
        Some(Err(e)) => Some(Err(e@)),
    }
}

pub proof fn lemma_run_len_bounds(r: Seq<char>, ws: bool)
    ensures
        run_len(r, ws) <= r.len(),
        r.len() > 0 && in_class(r[0], ws) ==> run_len(r, ws) >= 1,
    decreases r.len(),
{
    if r.len() > 0 && in_class(r[0], ws) {
        lemma_run_len_bounds(r.drop_first(), ws);
    }
}

/// A run that ends where the class ends is the maximal one.
pub proof fn lemma_run_len_exact(r: Seq<char>, k: int, ws: bool)
    requires
        0 <= k <= r.len(),
        forall|j: int| 0 <= j < k ==> in_class(#[trigger] r[j], ws),
        k == r.len() || !in_class(r[k], ws),
    ensures
        run_len(r, ws) == k,
    decreases k,
{
    if k > 0 {
        let d = r.drop_first();
        assert forall|j: int| 0 <= j < k - 1 implies in_class(#[trigger] d[j], ws) by {
            assert(d[j] == r[j + 1]);
        }
        if k < r.len() {
            assert(d[k - 1] == r[k]);
        }
        lemma_run_len_exact(d, k - 1, ws);
    }
}

/// A run stops at the first character outside the class.
pub proof fn lemma_run_len_stops(r: Seq<char>, k: int, ws: bool)
    requires
        0 <= k < r.len(),
        !in_class(r[k], ws),
    ensures
        run_len(r, ws) <= k,
    decreases k,
{
    if k > 0 && in_class(r[0], ws) {
        assert(r.drop_first()[k - 1] == r[k]);
        lemma_run_len_stops(r.drop_first(), k - 1, ws);
    }
}

/// The remainder consumed by one step is non-empty and fits in what is left.
pub proof fn lemma_token_span(r: Seq<char>)
    requires
        r.len() > 0,
    ensures
        1 <= token_span(r) <= r.len(),
        first_token(r) matches Ok(t) ==> token_text(t) == r.take(token_span(r) as int),
{
    lemma_run_len_bounds(r, true);
    lemma_run_len_bounds(r, false);
    if r[0] == '\'' {
        assert(r.take(1) =~= seq!['\'']);
    } else if r[0] == '"' {
        assert(r.take(1) =~= seq!['"']);
    }
}

/// Byte lengths add up along a split of `s` at character `k`.
pub proof fn lemma_utf8_len_split(s: Seq<char>, k: int)
    requires
        0 <= k <= s.len(),
    ensures
        utf8_len(s) == utf8_len(s.take(k)) + utf8_len(s.skip(k)),
{
    assert(s =~= s.take(k) + s.skip(k));
    lemma_encode_concat(s.take(k), s.skip(k));
}

/// The first character of `s`, if any.
fn first_char(s: &str) -> (r: Option<char>)
    ensures
        r == (if s@.len() == 0 {
            None
        } else {
            Some(s@[0])
        }),
{
    if s.is_empty() {
        None
    } else {
        Some(s.get_char(0))
    }
}

/// The number of bytes of the longest prefix of `s` whose characters belong to the class.
fn run_bytes(s: &str, ws: bool) -> (n: usize)
    requires
        utf8_len(s@) <= usize::MAX,
    ensures
        n == utf8_len(s@.take(run_len(s@, ws) as int)),
{
    let mut n: usize = 0;
    let mut cur = s;
    let ghost mut k: int = 0;
    loop
        invariant
            0 <= k <= s@.len(),
            cur@ == s@.skip(k),
            n == utf8_len(s@.take(k)),
            forall|j: int| 0 <= j < k ==> in_class(#[trigger] s@[j], ws),
            utf8_len(s@) <= usize::MAX,
        ensures
            k == s@.len() || !in_class(s@[k], ws),
        decreases s@.len() - k,
    {
        let c = match first_char(cur) {
            Some(c) => c,
            None => break,
        };
        let member = if ws {
            white_space(c)
        } else {
            is_word_character(c)
        };
        if !member {
            break;
        }
        let w = char_utf8_len(c);
        proof {
            assert(cur@.take(1) =~= seq![c]);
            assert(s@.take(k + 1) =~= s@.take(k) + seq![c]);
            lemma_encode_concat(s@.take(k), seq![c]);
            lemma_utf8_len_split(s@, k + 1);
        }
        let (_, tail) = split_chars(cur, w, Ghost(1));
        cur = tail;
        n = n + w;
        proof {
            assert(s@.skip(k).skip(1) =~= s@.skip(k + 1));
            k = k + 1;
        }
    }
    proof {
        lemma_run_len_exact(s@, k, ws);
    }
    n
}

/// A forward-only lexer over an input string.
#[derive(Debug)]
pub struct Lexer<'a> {
    input: &'a str,
    rest: &'a str,
    offset: usize,
}

impl<'a> Lexer<'a> {
    /// The characters of the input.
    pub closed spec fn source(&self) -> Seq<char> {
        self.input@
    }

    /// The index of the first character not yet consumed.
    pub closed spec fn pos(&self) -> int {
        self.input@.len() - self.rest@.len()
    }

    /// The unread remainder is the tail of the input that starts at `pos`, and `offset` is its
    /// byte offset.
    pub closed spec fn wf(&self) -> bool {
        &&& self.rest@.len() <= self.input@.len()
        &&& self.rest@ == self.input@.skip(self.pos())
        &&& self.offset == byte_offset(self.input@, self.pos())
        &&& utf8_len(self.input@) <= usize::MAX
    }

    /// A well-formed lexer stands inside its input, whose encoding fits in memory.
    pub proof fn lemma_bounds(&self)
        requires
            self.wf(),
        ensures
            0 <= self.pos() <= self.source().len(),
            utf8_len(self.source()) <= usize::MAX,
    {
    }

    /// Returns a new lexer that stands at the start of `input`.
    pub fn new(input: &'a str) -> (l: Self)
        ensures
            l.wf(),
            l.source() == input@,
            l.pos() == 0,
    {
        // The byte length of a `str` fits in `usize`.
        let byte_len = input.as_bytes().len();
        proof {
            assert(byte_len == utf8_len(input@));
            assert(input@.skip(0) =~= input@);
            assert(input@.take(0) =~= Seq::<char>::empty());
            assert(encode_utf8(Seq::<char>::empty()) =~= Seq::<u8>::empty());
        }
        Self { input, rest: input, offset: 0 }
    }

    /// Consumes the next `m` characters, which take `n` bytes, and returns their text.
    fn advance(&mut self, n: usize, Ghost(m): Ghost<int>) -> (t: &'a str)
        requires
            old(self).wf(),
            0 <= m <= old(self).rest@.len(),
            n == utf8_len(old(self).rest@.take(m)),
        ensures
            final(self).wf(),
            final(self).source() == old(self).source(),
            final(self).pos() == old(self).pos() + m,
            t@ == old(self).rest@.take(m),
    {
        let ghost s = self.input@;
        let ghost i = self.pos();
        proof {
            assert(s.take(i + m) =~= s.take(i) + self.rest@.take(m));
            lemma_encode_concat(s.take(i), self.rest@.take(m));
            lemma_utf8_len_split(s, i + m);
        }
        let (t, tail) = split_chars(self.rest, n, Ghost(m));
        self.rest = tail;
        self.offset = self.offset + n;
        proof {
            assert(s.skip(i).skip(m) =~= s.skip(i + m));
        }
        t
    }

    /// Yields the next token with its byte offset, an error, or `None` once the input is
    /// exhausted.
    pub fn next(&mut self) -> (r: Option<Result<(usize, Token<'a>), Error<'a>>>)
        requires
            old(self).wf(),
        ensures
            final(self).wf(),
            final(self).source() == old(self).source(),
            lexed_view(r) == lex_at(old(self).source(), old(self).pos()),
            final(self).pos() == lex_next_pos(old(self).source(), old(self).pos()),
    {
        let ghost r0 = self.rest@;
        let c = match first_char(self.rest) {
            Some(c) => c,
            None => return None,
        };
        proof {
            lemma_token_span(r0);
        }
        let idx = self.offset;
        proof {
            assert(r0.take(1) =~= seq![c]);
            lemma_utf8_len_single(c);
            lemma_utf8_len_split(self.input@, self.pos());
            lemma_run_len_bounds(r0, true);
            lemma_run_len_bounds(r0, false);
        }
        if c == '\'' || c == '"' {
            self.advance(1, Ghost(1));
            if c == '\'' {
                Some(Ok((idx, Token::SingleQuote)))
            } else {
                Some(Ok((idx, Token::DoubleQuote)))
            }
        } else if c == '\\' {
            let (_, after) = split_chars(self.rest, 1, Ghost(1));
            match first_char(after) {
                None => {
                    self.advance(1, Ghost(1));
                    Some(Err(Error::UnexpectedEndOfInput))
                },
                Some(d) => {
                    let w = char_utf8_len(d);
                    proof {
                        assert(r0.take(2) =~= seq![c] + seq![d]);
                        lemma_encode_concat(seq![c], seq![d]);
                        lemma_utf8_len_split(self.input@, self.pos() + 2);
                        lemma_utf8_len_split(r0, 2);
                        assert(self.input@.skip(self.pos()).take(2) =~= self.input@.subrange(
                            self.pos(),
                            self.pos() + 2,
                        ));
                    }
                    let t = self.advance(1 + w, Ghost(2));
                    Some(Ok((idx, Token::Escape(t))))
                },
            }
        } else if white_space(c) {
            let n = run_bytes(self.rest, true);
            let t = self.advance(n, Ghost(run_len(r0, true) as int));
            Some(Ok((idx, Token::Whitespace(t))))
        } else {
            let n = run_bytes(self.rest, false);
            let t = self.advance(n, Ghost(run_len(r0, false) as int));
            Some(Ok((idx, Token::Word(t))))
        }
    }
}

/// Relies on `ToString::to_string` for `char`: a string of that one character.
#[verifier::external_body]
fn char_to_string(c: char) -> (r: String)
    ensures
        r@ == seq![c],
{
    c.to_string()
}

impl<'a> Token<'a> {
    /// The text of the token, as it stands in the input.
    pub fn to_text(&self) -> (r: String)
        ensures
            r@ == token_text(self@),
    {
        match self {
            Token::Word(w) | Token::Whitespace(w) | Token::Escape(w) => (*w).to_owned(),
            Token::UnknownCharacter(c) => char_to_string(*c),
            Token::SingleQuote => char_to_string('\''),
            Token::DoubleQuote => char_to_string('"'),
        }
    }

    /// The number of bytes of input that the token spans.
    pub fn len(self) -> (n: usize)
        ensures
            n == utf8_len(token_text(self@)),
    {
        match self {
            Token::Word(w) | Token::Whitespace(w) | Token::Escape(w) => w.as_bytes().len(),
            Token::UnknownCharacter(c) => char_utf8_len(c),
            Token::SingleQuote => char_utf8_len('\''),
            Token::DoubleQuote => char_utf8_len('"'),
        }
    }
}

} // verus!
