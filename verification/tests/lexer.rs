use compiler::input_stream::InputStream;
use compiler::lexer::keyword::Keyword;
use compiler::lexer::number::{Base, Number};
use compiler::lexer::punctuation::Punctuation;
use compiler::lexer::{Lexer, LexerError, Token};

#[test]
fn lexer_return_string() {
    let mut lexer = Lexer::new_test("return \"x > 0\";");

    assert_eq!(lexer.next(), Ok(Token::Keyword(Keyword::Return)),);
    assert_eq!(lexer.next(), Ok(Token::String(String::from("x > 0"))),);
    assert_eq!(lexer.next(), Ok(Token::Punctuation(Punctuation::new(";"))),);
}

#[test]
fn lexer_assign_num_to_var() {
    let mut lexer = Lexer::new_test("let x = 123;");

    assert_eq!(lexer.next(), Ok(Token::Keyword(Keyword::Let)),);
    assert_eq!(lexer.next(), Ok(Token::Identifier(String::from("x"))),);

    assert_eq!(lexer.next(), Ok(Token::Punctuation(Punctuation::new("="))),);
    assert_eq!(
        lexer.next(),
        Ok(Token::Number(Number {
            base: Base::Decimal,
            integer: String::from("123"),
            fraction: None,
        })),
    );
    assert_eq!(lexer.next(), Ok(Token::Punctuation(Punctuation::new(";"))),);
}

#[test]
fn lexer_if_with_else() {
    let mut lexer = Lexer::new_test("if x > 0. { return x; } else { return 0.; }");

    let x = Ok(Token::Identifier(String::from("x")));
    let _return = Ok(Token::Keyword(Keyword::Return));
    let semicolon = Ok(Token::Punctuation(Punctuation::new(";")));
    let zero = Ok(Token::Number(Number {
        base: Base::Decimal,
        integer: String::from("0"),
        fraction: Some(String::new()),
    }));

    assert_eq!(lexer.next(), Ok(Token::Keyword(Keyword::If)));
    assert_eq!(lexer.next(), x);
    assert_eq!(lexer.next(), Ok(Token::Punctuation(Punctuation::new(">"))),);
    assert_eq!(lexer.next(), zero);

    assert_eq!(lexer.next(), Ok(Token::Punctuation(Punctuation::new("{"))));
    assert_eq!(lexer.next(), _return);
    assert_eq!(lexer.next(), x);
    assert_eq!(lexer.next(), semicolon);
    assert_eq!(lexer.next(), Ok(Token::Punctuation(Punctuation::new("}"))));

    assert_eq!(lexer.next(), Ok(Token::Keyword(Keyword::Else)));
    assert_eq!(lexer.next(), Ok(Token::Punctuation(Punctuation::new("{"))));
    assert_eq!(lexer.next(), _return);
    assert_eq!(lexer.next(), zero);
    assert_eq!(lexer.next(), semicolon);
    assert_eq!(lexer.next(), Ok(Token::Punctuation(Punctuation::new("}"))));
}

#[test]
fn parse_integer() {
    let mut stream = InputStream::new("0", None);
    let sign = Number::parse(&mut stream);
    assert_eq!(
        sign,
        Ok(Number {
            base: Base::Decimal,
            integer: String::from("0"),
            fraction: None,
        })
    );

    let mut stream = InputStream::new("1234", None);
    let sign = Number::parse(&mut stream);
    assert_eq!(
        sign,
        Ok(Number {
            base: Base::Decimal,
            integer: String::from("1234"),
            fraction: None,
        })
    );

    let mut stream = InputStream::new("0xF422", None);
    let sign = Number::parse(&mut stream);
    assert_eq!(
        sign,
        Ok(Number {
            base: Base::Hexadecimal,
            integer: String::from("F422"),
            fraction: None,
        })
    );
}

#[test]
fn parse_float() {
    let mut stream = InputStream::new("1234.56789", None);
    let sign = Number::parse(&mut stream);
    assert_eq!(
        sign,
        Ok(Number {
            base: Base::Decimal,
            integer: String::from("1234"),
            fraction: Some(String::from("56789")),
        })
    );

    let mut stream = InputStream::new("0xABC.DEF", None);
    let sign = Number::parse(&mut stream);
    assert_eq!(
        sign,
        Ok(Number {
            base: Base::Hexadecimal,
            integer: String::from("ABC"),
            fraction: Some(String::from("DEF")),
        })
    );
}

#[test]
#[should_panic]
fn invalid_base_binary() {
    let num = Number::parse(&mut InputStream::new("0b2130", None));
    num.unwrap();
}

#[test]
#[should_panic]
fn invalid_base_octal() {
    let num = Number::parse(&mut InputStream::new("0o91", None));
    num.unwrap();
}

#[test]
#[should_panic]
fn invalid_base_decimal() {
    let num = Number::parse(&mut InputStream::new("ABC", None));
    num.unwrap();
}

#[test]
fn half_empty_float_parse() {
    let mut stream = InputStream::new("1234.", None);
    let sign = Number::parse(&mut stream);
    assert_eq!(
        sign,
        Ok(Number {
            base: Base::Decimal,
            integer: String::from("1234"),
            fraction: Some(String::new()),
        })
    );

    let mut stream = InputStream::new(".1234", None);
    let sign = Number::parse(&mut stream);
    assert_eq!(
        sign,
        Ok(Number {
            base: Base::Decimal,
            integer: String::new(),
            fraction: Some(String::from("1234")),
        })
    );

    let mut stream = InputStream::new("0xABCD.", None);
    let sign = Number::parse(&mut stream);
    assert_eq!(
        sign,
        Ok(Number {
            base: Base::Hexadecimal,
            integer: String::from("ABCD"),
            fraction: Some(String::new()),
        })
    );

    let mut stream = InputStream::new("0x.001B", None);
    let sign = Number::parse(&mut stream);
    assert_eq!(
        sign,
        Ok(Number {
            base: Base::Hexadecimal,
            integer: String::new(),
            fraction: Some(String::from("001B")),
        })
    );
}

#[test]
fn comments_and_whitespace_are_skipped() {
    let mut lexer = Lexer::new_test("// line\n  /* block */ x");
    assert_eq!(lexer.next(), Ok(Token::Identifier(String::from("x"))));
    assert_eq!(lexer.next(), Ok(Token::Eof));
    assert!(lexer.is_eof());
}

#[test]
fn longest_punctuation_is_taken() {
    let mut lexer = Lexer::new_test("->=>=");
    assert_eq!(lexer.next(), Ok(Token::Punctuation(Punctuation::Arrow)));
    assert_eq!(lexer.next(), Ok(Token::Punctuation(Punctuation::Assign)));
    assert_eq!(lexer.next(), Ok(Token::Punctuation(Punctuation::MoreEqual)));
}

#[test]
fn lexer_errors() {
    let mut lexer = Lexer::new_test("\"open");
    assert_eq!(lexer.next(), Err(LexerError::UnterminatedString));
    let mut lexer = Lexer::new_test("x\u{e9}");
    assert_eq!(lexer.next(), Err(LexerError::InvalidIdentifier));
    let mut lexer = Lexer::new_test("\u{e9}");
    assert_eq!(lexer.next(), Err(LexerError::UnexpectedCharacter('\u{e9}')));
    assert_eq!(1, lexer.context.error_reporter.errors().len());
}

#[test]
fn peek_keeps_the_token() {
    let mut lexer = Lexer::new_test("fn main");
    assert_eq!(lexer.peek(), Ok(Token::Keyword(Keyword::Fn)));
    assert_eq!(lexer.next(), Ok(Token::Keyword(Keyword::Fn)));
    assert_eq!(lexer.next(), Ok(Token::Identifier(String::from("main"))));
}

#[test]
fn number_text() {
    let n = Number { base: Base::Hexadecimal, integer: String::from("AB"), fraction: Some(String::from("C")) };
    assert_eq!("0xAB.C", n.to_string());
    assert_eq!(16, Base::Hexadecimal.radix());
}

#[test]
fn mod_return_string() {
    let mut lexer = Lexer::new_test("return \"x > 0\";");

    assert_eq!(lexer.next(), Ok(Token::Keyword(Keyword::Return)),);
    assert_eq!(lexer.next(), Ok(Token::String(String::from("x > 0"))),);
    assert_eq!(lexer.next(), Ok(Token::Punctuation(Punctuation::new(";"))),);
}

#[test]
fn mod_assign_num_to_var() {
    let mut lexer = Lexer::new_test("let x = 123;");

    assert_eq!(lexer.next(), Ok(Token::Keyword(Keyword::Let)),);
    assert_eq!(lexer.next(), Ok(Token::Identifier(String::from("x"))),);

    assert_eq!(lexer.next(), Ok(Token::Punctuation(Punctuation::new("="))),);
    assert_eq!(
        lexer.next(),
        Ok(Token::Number(Number {
            base: Base::Decimal,
            integer: String::from("123"),
            fraction: None,
        })),
    );
    assert_eq!(lexer.next(), Ok(Token::Punctuation(Punctuation::new(";"))),);
}

#[test]
fn mod_if_with_else() {
    let mut lexer = Lexer::new_test("if x > 0. { return x; } else { return 0.; }");

    let x = Ok(Token::Identifier(String::from("x")));
    let _return = Ok(Token::Keyword(Keyword::Return));
    let semicolon = Ok(Token::Punctuation(Punctuation::new(";")));
    let zero = Ok(Token::Number(Number {
        base: Base::Decimal,
        integer: String::from("0"),
        fraction: Some(String::new()),
    }));

    assert_eq!(lexer.next(), Ok(Token::Keyword(Keyword::If)));
    assert_eq!(lexer.next(), x);
    assert_eq!(lexer.next(), Ok(Token::Punctuation(Punctuation::new(">"))),);
    assert_eq!(lexer.next(), zero);

    assert_eq!(lexer.next(), Ok(Token::Punctuation(Punctuation::new("{"))));
    assert_eq!(lexer.next(), _return);
    assert_eq!(lexer.next(), x);
    assert_eq!(lexer.next(), semicolon);
    assert_eq!(lexer.next(), Ok(Token::Punctuation(Punctuation::new("}"))));

    assert_eq!(lexer.next(), Ok(Token::Keyword(Keyword::Else)));
    assert_eq!(lexer.next(), Ok(Token::Punctuation(Punctuation::new("{"))));
    assert_eq!(lexer.next(), _return);
    assert_eq!(lexer.next(), zero);
    assert_eq!(lexer.next(), semicolon);
    assert_eq!(lexer.next(), Ok(Token::Punctuation(Punctuation::new("}"))));
}
