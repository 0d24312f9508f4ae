use shtring::{Error, Parser};

#[test]
fn single_word() {
    let input = "a";
    let mut parser = Parser::new(input);
    let output = parser.next();
    assert_eq!(output, Some(Ok(input)));
}

#[test]
fn multiple_words() {
    let input = "a b c";
    let parser = Parser::new(input);
    let output: Vec<Result<&str, Error>> = parser.collect();
    assert_eq!(output, vec![Ok("a"), Ok("b"), Ok("c")]);
}

#[test]
fn single_quoted_word() {
    let input = "'a b c'";
    let parser = Parser::new(input);
    let output: Vec<Result<&str, Error>> = parser.collect();
    assert_eq!(output, vec![Ok("a b c")]);
}

#[test]
fn double_quoted_word() {
    let input = "\"a b c\"";
    let parser = Parser::new(input);
    let output: Vec<Result<&str, Error>> = parser.collect();
    assert_eq!(output, vec![Ok("a b c")]);
}

#[test]
fn escaped_quote() {
    let input = "\\\"a";
    let mut parser = Parser::new(input);
    let output = parser.next();
    assert_eq!(output, Some(Ok(input)));
}

#[test]
fn escaped_quotes() {
    let input = "\\\" a \\\"";
    let parser = Parser::new(input);
    let output: Vec<Result<&str, Error>> = parser.collect();
    assert_eq!(output, vec![Ok("\\\""), Ok("a"), Ok("\\\"")]);
}

#[test]
fn unterminated_single_quote() {
    let input = "'a";
    let mut parser = Parser::new(input);
    let output = parser.next();
    assert_eq!(output, Some(Err(Error::UnexpectedEndOfInput)));
}

#[test]
fn unterminated_double_quote() {
    let input = "\"a";
    let mut parser = Parser::new(input);
    let output = parser.next();
    assert_eq!(output, Some(Err(Error::UnexpectedEndOfInput)));
}

#[test]
fn mismatched_quote() {
    let input = "\"a'";
    let mut parser = Parser::new(input);
    let output = parser.next();
    assert_eq!(output, Some(Err(Error::UnexpectedEndOfInput)));
}

#[test]
fn unexpected_quote() {
    let input = "a\"";
    let mut parser = Parser::new(input);
    let output = parser.next();
    assert_eq!(output, Some(Err(Error::UnexpectedToken(1, "\""))));
}

#[test]
fn multiple_words_with_escapes_and_quotes() {
    let input = "a \"b \\\"c d\" e 'f g'";
    let parser = Parser::new(input);
    let output: Vec<Result<&str, Error>> = parser.collect();
    assert_eq!(output, vec![Ok("a"), Ok("b \\\"c d"), Ok("e"), Ok("f g")]);
}

#[test]
fn parser_walks_arguments() {
    let input = "a \"b c\" \\\"d";
    let mut parser = Parser::new(input);
    assert_eq!(parser.next(), Some(Ok("a")));
    assert_eq!(parser.next(), Some(Ok("b c")));
    assert_eq!(parser.next(), Some(Ok("\\\"d")));
    assert_eq!(parser.next(), None);
}

#[test]
fn parser_recovers_after_error() {
    let input = "a b\" c";
    let mut parser = Parser::new(input);
    assert_eq!(parser.next(), Some(Ok("a")));
    assert_eq!(parser.next(), Some(Err(Error::UnexpectedToken(3, "\""))));
    assert_eq!(parser.next(), Some(Ok("c")));
    assert_eq!(parser.next(), None);
}

#[test]
fn trailing_quote_after_words() {
    let parser = Parser::new("a b c\"");
    let output: Vec<Result<&str, Error>> = parser.collect();
    assert_eq!(output, vec![Ok("a"), Ok("b"), Err(Error::UnexpectedToken(5, "\""))]);
}

#[test]
fn single_quote_inside_word_is_unexpected() {
    let parser = Parser::new("ab'cd' e");
    let output: Vec<Result<&str, Error>> = parser.collect();
    assert_eq!(
        output,
        vec![Err(Error::UnexpectedToken(2, "'")), Err(Error::UnexpectedToken(5, "'")), Ok("e")]
    );
}

#[test]
fn escape_at_end_of_word() {
    let parser = Parser::new("a b\\");
    let output: Vec<Result<&str, Error>> = parser.collect();
    assert_eq!(output, vec![Ok("a"), Err(Error::UnexpectedEndOfInput)]);
}

#[test]
fn escape_at_end_of_input() {
    let parser = Parser::new("a \\");
    let output: Vec<Result<&str, Error>> = parser.collect();
    assert_eq!(output, vec![Ok("a"), Err(Error::UnexpectedEndOfInput)]);
}

#[test]
fn escape_inside_quotes_is_content() {
    let parser = Parser::new("\"a\\\" b\"");
    let output: Vec<Result<&str, Error>> = parser.collect();
    assert_eq!(output, vec![Ok("a\\\" b")]);
}

#[test]
fn escape_at_end_inside_quotes() {
    let mut parser = Parser::new("'ab\\");
    assert_eq!(parser.next(), Some(Err(Error::UnexpectedEndOfInput)));
    assert_eq!(parser.next(), None);
}

#[test]
fn quotes_of_the_other_kind_are_content() {
    let parser = Parser::new("'say \"hi\"' \"it's\"");
    let output: Vec<Result<&str, Error>> = parser.collect();
    assert_eq!(output, vec![Ok("say \"hi\""), Ok("it's")]);
}

#[test]
fn empty_quotes_give_empty_argument() {
    let parser = Parser::new("'' \"\"");
    let output: Vec<Result<&str, Error>> = parser.collect();
    assert_eq!(output, vec![Ok(""), Ok("")]);
}

#[test]
fn whitespace_only_input() {
    let mut parser = Parser::new(" \t\n ");
    assert_eq!(parser.next(), None);
    assert_eq!(parser.next(), None);
}

#[test]
fn empty_input() {
    let mut parser = Parser::new("");
    assert_eq!(parser.next(), None);
    assert_eq!(parser.collect(), vec![]);
}

#[test]
fn pulls_past_the_end_stay_none() {
    let mut parser = Parser::new("x\" y");
    let mut items = 0;
    while parser.next().is_some() {
        items += 1;
    }
    assert_eq!(items, 2);
    for _ in 0..3 {
        assert_eq!(parser.next(), None);
    }
}

#[test]
fn quoted_argument_starts_right_after_word() {
    let parser = Parser::new("ab \"c d\"e");
    let output: Vec<Result<&str, Error>> = parser.collect();
    assert_eq!(output, vec![Ok("ab"), Ok("c d"), Ok("e")]);
}

#[test]
fn unicode_arguments_and_offsets() {
    let parser = Parser::new("héllo\u{3000}'wö rld' é\"");
    let output: Vec<Result<&str, Error>> = parser.collect();
    assert_eq!(
        output,
        vec![Ok("héllo"), Ok("wö rld"), Err(Error::UnexpectedToken(21, "\""))]
    );
}
