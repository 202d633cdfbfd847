use compiler::error::ExpectedToken;
use compiler::error::library::token_mismatch;
use compiler::lexer::keyword::Keyword;
use compiler::lexer::punctuation::Punctuation;
use compiler::lexer::Token;

#[test]
fn mismatch_lists_expected_tokens() {
    let one = vec![ExpectedToken::Identifier];
    assert_eq!("expected identifier, found end of file", token_mismatch(&one, &Token::Eof));
    let two = vec![
        ExpectedToken::Punctuation(Punctuation::Comma),
        ExpectedToken::Punctuation(Punctuation::RParent),
    ];
    assert_eq!(
        "expected `,` or `)`, found keyword `fn`",
        token_mismatch(&two, &Token::Keyword(Keyword::Fn))
    );
    let three = vec![
        ExpectedToken::Punctuation(Punctuation::Comma),
        ExpectedToken::Punctuation(Punctuation::RParent),
        ExpectedToken::Keyword(Keyword::Fn),
    ];
    assert_eq!(
        "expected one of: `,`, `)`, or keyword `fn`, found `x`",
        token_mismatch(&three, &Token::Identifier(String::from("x")))
    );
}
