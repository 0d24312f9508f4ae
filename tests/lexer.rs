use shtring::lexer::{Lexer, Token};
use shtring::text::{char_utf8_len, is_word_character};
use shtring::Error;

#[test]
fn single_character_word_token() {
    let input = "a";
    let mut lexer = Lexer::new(input);
    let output = lexer.next();
    assert_eq!(output, Some(Ok((0, Token::Word(input)))));
}

#[test]
fn word_token() {
    let input = "hello";
    let mut lexer = Lexer::new(input);
    let output = lexer.next();
    assert_eq!(output, Some(Ok((0, Token::Word(input)))));
}

#[test]
fn single_quote_token() {
    let input = "'";
    let mut lexer = Lexer::new(input);
    let output = lexer.next();
    assert_eq!(output, Some(Ok((0, Token::SingleQuote))));
}

#[test]
fn double_quote_token() {
    let input = "\"";
    let mut lexer = Lexer::new(input);
    let output = lexer.next();
    assert_eq!(output, Some(Ok((0, Token::DoubleQuote))));
}

#[test]
fn single_whitespace_token() {
    let input = " ";
    let mut lexer = Lexer::new(input);
    let output = lexer.next();
    assert_eq!(output, Some(Ok((0, Token::Whitespace(input)))));
}

#[test]
fn multiple_whitespace_tokens() {
    let input = " \t";
    let mut lexer = Lexer::new(input);
    let output = lexer.next();
    assert_eq!(output, Some(Ok((0, Token::Whitespace(input)))));
}

#[test]
fn escape_token() {
    let input = r"\t";
    let mut lexer = Lexer::new(input);
    let output = lexer.next();
    assert_eq!(output, Some(Ok((0, Token::Escape(input)))));
}

#[test]
fn unexpected_eoi() {
    let input = r"\";
    let mut lexer = Lexer::new(input);
    let output = lexer.next();
    assert_eq!(output, Some(Err(Error::UnexpectedEndOfInput)));
}

fn lex_all(input: &str) -> Vec<Result<(usize, Token<'_>), Error<'_>>> {
    let mut lexer = Lexer::new(input);
    let mut out = Vec::new();
    while let Some(item) = lexer.next() {
        out.push(item);
    }
    out
}

#[test]
fn multiple_tokens() {
    let input = "'hello,' \"world!\" \\\"";
    assert_eq!(
        lex_all(input),
        vec![
            Ok((0, Token::SingleQuote)),
            Ok((1, Token::Word("hello,"))),
            Ok((7, Token::SingleQuote)),
            Ok((8, Token::Whitespace(" "))),
            Ok((9, Token::DoubleQuote)),
            Ok((10, Token::Word("world!"))),
            Ok((16, Token::DoubleQuote)),
            Ok((17, Token::Whitespace(" "))),
            Ok((18, Token::Escape("\\\"")))
        ]
    );
}

#[test]
fn empty_input_has_no_tokens() {
    let mut lexer = Lexer::new("");
    assert_eq!(lexer.next(), None);
    assert_eq!(lexer.next(), None);
}

#[test]
fn escape_at_end_ends_the_stream() {
    assert_eq!(
        lex_all("ab\\"),
        vec![Ok((0, Token::Word("ab"))), Err(Error::UnexpectedEndOfInput)]
    );
}

#[test]
fn escape_takes_a_multibyte_character() {
    assert_eq!(
        lex_all("\\é x"),
        vec![
            Ok((0, Token::Escape("\\é"))),
            Ok((3, Token::Whitespace(" "))),
            Ok((4, Token::Word("x")))
        ]
    );
}

#[test]
fn offsets_count_bytes() {
    assert_eq!(
        lex_all("héllo wörld"),
        vec![
            Ok((0, Token::Word("héllo"))),
            Ok((6, Token::Whitespace(" "))),
            Ok((7, Token::Word("wörld")))
        ]
    );
}

#[test]
fn unicode_whitespace_run() {
    assert_eq!(
        lex_all("a\u{3000}\u{a0} b"),
        vec![
            Ok((0, Token::Word("a"))),
            Ok((1, Token::Whitespace("\u{3000}\u{a0} "))),
            Ok((7, Token::Word("b")))
        ]
    );
}

#[test]
fn tokens_rebuild_the_input() {
    let input = "x 'y z' \\\"w\"\tq\u{2003}é";
    let mut rebuilt = String::new();
    let mut next_offset = 0;
    for item in lex_all(input) {
        let (offset, token) = item.unwrap();
        assert_eq!(offset, next_offset);
        assert_eq!(&input[offset..offset + token.len()], token.to_text());
        rebuilt.push_str(&token.to_text());
        next_offset = offset + token.len();
    }
    assert_eq!(rebuilt, input);
}

#[test]
fn token_lengths() {
    assert_eq!(Token::Word("héllo").len(), 6);
    assert_eq!(Token::Whitespace(" \t").len(), 2);
    assert_eq!(Token::SingleQuote.len(), 1);
    assert_eq!(Token::DoubleQuote.len(), 1);
    assert_eq!(Token::Escape("\\\"").len(), 2);
    assert_eq!(Token::UnknownCharacter('€').len(), 3);
}

#[test]
fn token_texts() {
    assert_eq!(Token::Word("ab").to_text(), "ab");
    assert_eq!(Token::SingleQuote.to_text(), "'");
    assert_eq!(Token::DoubleQuote.to_text(), "\"");
    assert_eq!(Token::Escape("\\t").to_text(), "\\t");
    assert_eq!(Token::UnknownCharacter('€').to_text(), "€");
}

#[test]
fn word_characters() {
    assert!(is_word_character('a'));
    assert!(is_word_character('é'));
    assert!(!is_word_character(' '));
    assert!(!is_word_character('\t'));
    assert!(!is_word_character('\u{3000}'));
    assert!(!is_word_character('\''));
    assert!(!is_word_character('"'));
    assert!(!is_word_character('\\'));
}

#[test]
fn utf8_widths() {
    assert_eq!(char_utf8_len('a'), 1);
    assert_eq!(char_utf8_len('é'), 2);
    assert_eq!(char_utf8_len('€'), 3);
    assert_eq!(char_utf8_len('🦀'), 4);
}
