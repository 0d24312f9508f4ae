//! Properties that relate the lexer, the parser and `split` over all inputs.
use crate::gather;
use crate::lexer::{
    lemma_run_len_exact, lemma_run_len_stops, lemma_token_span, lex_at, lex_next_pos, token_text,
    TokenView,
};
use crate::parser::{lemma_parse_progress, parse_all, parse_at, quoted_at};
use crate::text::{
    byte_offset, in_class, is_white_space, is_word_char, lemma_byte_offset_step,
    lemma_encode_concat, utf8_len,
};
use crate::ErrorView;
use vstd::prelude::*;
use vstd::utf8::encode_utf8;

verus! {

/// Lexing loses nothing: the bytes of the input before a token's offset, the token's own
/// bytes and the bytes after it make up the input again, and the next token starts where this
/// one ends.
pub proof fn lemma_lex_round_trip(s: Seq<char>, i: int, off: nat, t: TokenView)
    requires
        0 <= i,
        lex_at(s, i) == Some(Ok::<(nat, TokenView), ErrorView>((off, t))),
    ensures
        encode_utf8(s).take(off as int) + encode_utf8(token_text(t)) + encode_utf8(s).skip(
            (off + utf8_len(token_text(t))) as int,
        ) == encode_utf8(s),
        s.take(i) + token_text(t) + s.skip(lex_next_pos(s, i)) == s,
        byte_offset(s, lex_next_pos(s, i)) == off + utf8_len(token_text(t)),
{
    let next = lex_next_pos(s, i);
    lemma_token_span(s.skip(i));
    assert(token_text(t) =~= s.subrange(i, next));
    assert(s.take(i) + token_text(t) + s.skip(next) =~= s);
    lemma_byte_offset_step(s, i, next);
    assert(s =~= s.take(next) + s.skip(next));
    lemma_encode_concat(s.take(next), s.skip(next));
    assert(s.take(next) =~= s.take(i) + token_text(t));
    lemma_encode_concat(s.take(i), token_text(t));
    let b = encode_utf8(s);
    assert(b.take(off as int) =~= encode_utf8(s.take(i)));
    assert(b.skip((off + utf8_len(token_text(t))) as int) =~= encode_utf8(s.skip(next)));
    assert(b.take(off as int) + encode_utf8(token_text(t)) + b.skip(
        (off + utf8_len(token_text(t))) as int,
    ) =~= b);
}

/// Inside a quoted region, every token up to the closing quote is content.
proof fn lemma_quoted_scan(s: Seq<char>, q: TokenView, quote: char, start: int, e: int, j: int)
    requires
        0 <= start <= j <= e < s.len(),
        (quote == '\'' && q == TokenView::SingleQuote) || (quote == '"'
            && q == TokenView::DoubleQuote),
        s[e] == quote,
        forall|k: int| start <= k < e ==> #[trigger] s[k] != quote && s[k] != '\\',
    ensures
        quoted_at(s, q, start, j) == (
            Some(Ok::<Seq<char>, ErrorView>(s.subrange(start, e))),
            e + 1,
        ),
    decreases e - j,
{
    let r = s.skip(j);
    lemma_token_span(r);
    assert(r.take(1) =~= seq![r[0]]);
    if j < e {
        assert(r[e - j] == quote);
        let ws = is_white_space(r[0]);
        if !(r[0] == '\'' || r[0] == '"') {
            lemma_run_len_stops(r, e - j, ws);
        }
        lemma_quoted_scan(s, q, quote, start, e, lex_next_pos(s, j));
    }
}

/// Quoted content comes back exactly, without the two quotes, whitespace and quotes of the
/// other kind included.
pub proof fn lemma_quoted_content(s: Seq<char>, i: int, quote: char, c: Seq<char>)
    requires
        0 <= i,
        i + c.len() + 2 <= s.len(),
        quote == '\'' || quote == '"',
        s.subrange(i, i + c.len() + 2) == seq![quote] + c + seq![quote],
        forall|k: int| 0 <= k < c.len() ==> #[trigger] c[k] != quote && c[k] != '\\',
    ensures
        parse_at(s, i) == (Some(Ok::<Seq<char>, ErrorView>(c)), i + c.len() + 2),
{
    let e = i + c.len() + 1;
    let q = if quote == '\'' {
        TokenView::SingleQuote
    } else {
        TokenView::DoubleQuote
    };
    assert(s[i] == (seq![quote] + c + seq![quote])[0]);
    assert(s[e] == (seq![quote] + c + seq![quote])[c.len() + 1 as int]);
    assert forall|k: int| i + 1 <= k < e implies #[trigger] s[k] != quote && s[k] != '\\' by {
        assert(s[k] == (seq![quote] + c + seq![quote])[k - i]);
        assert(s[k] == c[k - i - 1]);
    }
    lemma_token_span(s.skip(i));
    assert(s.skip(i).take(1) =~= seq![quote]);
    lemma_quoted_scan(s, q, quote, i + 1, e, i + 1);
    let big = seq![quote] + c + seq![quote];
    assert(s.subrange(i + 1, e) =~= big.subrange(1, e - i));
    assert(big.subrange(1, e - i) =~= c);
}

/// A word that runs straight into a quote: the pull reports the quote as an unexpected token
/// at its own offset, and the parser goes on right after the quote. The word before it does
/// not come out as an argument.
pub proof fn lemma_quote_after_word(s: Seq<char>, i: int, w: Seq<char>, quote: char)
    requires
        0 <= i,
        w.len() > 0,
        forall|k: int| 0 <= k < w.len() ==> is_word_char(#[trigger] w[k]),
        quote == '\'' || quote == '"',
        i + w.len() + 1 <= s.len(),
        s.subrange(i, i + w.len() + 1) == w + seq![quote],
    ensures
        parse_at(s, i) == (
            Some(
                Err::<Seq<char>, ErrorView>(
                    ErrorView::UnexpectedToken(byte_offset(s, i + w.len()), seq![quote]),
                ),
            ),
            i + w.len() + 1,
        ),
{
    let r = s.skip(i);
    let e = i + w.len();
    assert forall|k: int| 0 <= k < w.len() implies in_class(#[trigger] r[k], false) by {
        assert(r[k] == (w + seq![quote])[k]);
    }
    assert(r[w.len() as int] == (w + seq![quote])[w.len() as int]);
    lemma_run_len_exact(r, w.len() as int, false);
    assert(r[0] == w[0]);
    lemma_token_span(r);
    let r2 = s.skip(e);
    assert(r2[0] == r[w.len() as int]);
    lemma_token_span(r2);
    assert(r2.take(1) =~= seq![quote]);
}

/// Words separated by single spaces.
pub open spec fn join_spaced(words: Seq<Seq<char>>) -> Seq<char>
    decreases words.len(),
{
    if words.len() == 0 {
        seq![]
    } else if words.len() == 1 {
        words[0]
    } else {
        words[0] + seq![' '] + join_spaced(words.drop_first())
    }
}

/// Non-empty words of word characters.
pub open spec fn plain_words(words: Seq<Seq<char>>) -> bool {
    &&& forall|k: int| 0 <= k < words.len() ==> #[trigger] words[k].len() > 0
    &&& forall|k: int, m: int|
        0 <= k < words.len() && 0 <= m < words[k].len() ==> is_word_char(#[trigger] words[k][m])
}

proof fn lemma_plain_words_from(s: Seq<char>, i: int, words: Seq<Seq<char>>)
    requires
        0 <= i <= s.len(),
        s.skip(i) == join_spaced(words),
        plain_words(words),
    ensures
        gather(parse_all(s, i)) == Ok::<Seq<Seq<char>>, ErrorView>(words),
    decreases words.len(),
{
    lemma_parse_progress(s, i);
    if words.len() == 0 {
        assert(s.skip(i).len() == 0);
        assert(parse_all(s, i) =~= seq![]);
        assert(words =~= Seq::<Seq<char>>::empty());
    } else {
        let w = words[0];
        let r = s.skip(i);
        let e = i + w.len();
        assert(w.len() > 0);
        let tail = if words.len() == 1 {
            seq![]
        } else {
            seq![' '] + join_spaced(words.drop_first())
        };
        assert(r =~= w + tail);
        assert forall|k: int| 0 <= k < w.len() implies in_class(#[trigger] r[k], false) by {
            assert(r[k] == w[k]);
            assert(is_word_char(words[0][k]));
        }
        if words.len() > 1 {
            assert(r[w.len() as int] == ' ');
        }
        lemma_run_len_exact(r, w.len() as int, false);
        assert(r[0] == w[0]);
        lemma_token_span(r);
        assert(r.take(w.len() as int) =~= w);
        assert(lex_next_pos(s, i) == e);
        if words.len() == 1 {
            assert(e == s.len());
            assert(s.subrange(i, e) =~= w);
            assert(parse_at(s, i) == (Some(Ok::<Seq<char>, ErrorView>(w)), e));
            lemma_parse_progress(s, e);
            assert(parse_all(s, e) =~= seq![]);
            assert(parse_all(s, i) =~= seq![Ok::<Seq<char>, ErrorView>(w)]);
            assert(gather(parse_all(s, i).drop_first()) == Ok::<Seq<Seq<char>>, ErrorView>(
                seq![],
            ));
            assert(words =~= seq![w]);
            assert(seq![w] + Seq::<Seq<char>>::empty() =~= seq![w]);
        } else {
            let rest = words.drop_first();
            let r2 = s.skip(e);
            assert(r2 =~= r.skip(w.len() as int));
            assert((w + tail).skip(w.len() as int) =~= tail);
            assert(r2 =~= seq![' '] + join_spaced(rest));
            assert(rest[0].len() > 0 && is_word_char(rest[0][0])) by {
                assert(rest[0] == words[1]);
                assert(is_word_char(words[1][0]));
            }
            if rest.len() == 1 {
                assert(join_spaced(rest) == rest[0]);
            } else {
                assert(join_spaced(rest) =~= rest[0] + seq![' '] + join_spaced(rest.drop_first()));
                assert(join_spaced(rest)[0] == rest[0][0]);
            }
            assert(r2[1] == join_spaced(rest)[0]);
            lemma_run_len_exact(r2, 1, true);
            lemma_token_span(r2);
            assert(r2.take(1) =~= seq![' ']);
            assert(lex_next_pos(s, e) == e + 1);
            assert(s.subrange(i, e) =~= w);
            assert(parse_at(s, i) == (Some(Ok::<Seq<char>, ErrorView>(w)), e + 1));
            assert(s.skip(e + 1) =~= r2.skip(1));
            assert((seq![' '] + join_spaced(rest)).skip(1) =~= join_spaced(rest));
            assert(forall|k: int| 0 <= k < rest.len() ==> rest[k] == words[k + 1]);
            lemma_plain_words_from(s, e + 1, rest);
            let items = parse_all(s, i);
            assert(items[0] == Ok::<Seq<char>, ErrorView>(w));
            assert(items.drop_first() =~= parse_all(s, e + 1));
            assert(words =~= seq![w] + rest);
            assert(gather(items) == Ok::<Seq<Seq<char>>, ErrorView>(seq![w] + rest));
        }
    }
}

/// Words of word characters separated by single spaces split into exactly those words, in
/// order.
pub proof fn lemma_plain_words(words: Seq<Seq<char>>)
    requires
        plain_words(words),
    ensures
        gather(parse_all(join_spaced(words), 0)) == Ok::<Seq<Seq<char>>, ErrorView>(words),
{
    let s = join_spaced(words);
    assert(s.skip(0) =~= s);
    lemma_plain_words_from(s, 0, words);
}

} // verus!
