use bibtex_format::token::Position;
use bibtex_format::token::Special;
use bibtex_format::token::Token;
use bibtex_format::token::TokenInfo;
use bibtex_format::token::Tokenizer;
use bibtex_format::token::Whitespace;

#[test]
fn test_empty() {
    let text = "";
    let expected: Vec<Token> = Vec::with_capacity(0);
    let mut tokenizer = Tokenizer::new(text);
    let tokens: Vec<Token> = tokenizer.tokenize().into_iter().map(|t| t.value).collect();
    assert_eq!(tokens, expected);
}

#[test]
fn test_simple_entry() {
    let text = "@misc{citekey,\n  author=\"foo\", \ntitle = { bar }\n}";
    let expected = vec![
        TokenInfo::new(Token::Special(Special::At), Position::new(1, 1)),
        TokenInfo::new(Token::Value("misc".to_string()), Position::new(1, 2)),
        TokenInfo::new(Token::Special(Special::BraceLeft), Position::new(1, 6)),
        TokenInfo::new(Token::Value("citekey".to_string()), Position::new(1, 7)),
        TokenInfo::new(Token::Special(Special::Comma), Position::new(1, 14)),
        TokenInfo::new(Token::Whitespace(Whitespace::NewLine), Position::new(1, 15)),
        TokenInfo::new(Token::Whitespace(Whitespace::Space), Position::new(2, 1)),
        TokenInfo::new(Token::Whitespace(Whitespace::Space), Position::new(2, 2)),
        TokenInfo::new(Token::Value("author".to_string()), Position::new(2, 3)),
        TokenInfo::new(Token::Special(Special::Equals), Position::new(2, 9)),
        TokenInfo::new(Token::Special(Special::Quote), Position::new(2, 10)),
        TokenInfo::new(Token::Value("foo".to_string()), Position::new(2, 11)),
        TokenInfo::new(Token::Special(Special::Quote), Position::new(2, 14)),
        TokenInfo::new(Token::Special(Special::Comma), Position::new(2, 15)),
        TokenInfo::new(Token::Whitespace(Whitespace::Space), Position::new(2, 16)),
        TokenInfo::new(Token::Whitespace(Whitespace::NewLine), Position::new(2, 17)),
        TokenInfo::new(Token::Value("title".to_string()), Position::new(3, 1)),
        TokenInfo::new(Token::Whitespace(Whitespace::Space), Position::new(3, 6)),
        TokenInfo::new(Token::Special(Special::Equals), Position::new(3, 7)),
        TokenInfo::new(Token::Whitespace(Whitespace::Space), Position::new(3, 8)),
        TokenInfo::new(Token::Special(Special::BraceLeft), Position::new(3, 9)),
        TokenInfo::new(Token::Whitespace(Whitespace::Space), Position::new(3, 10)),
        TokenInfo::new(Token::Value("bar".to_string()), Position::new(3, 11)),
        TokenInfo::new(Token::Whitespace(Whitespace::Space), Position::new(3, 14)),
        TokenInfo::new(Token::Special(Special::BraceRight), Position::new(3, 15)),
        TokenInfo::new(Token::Whitespace(Whitespace::NewLine), Position::new(3, 16)),
        TokenInfo::new(Token::Special(Special::BraceRight), Position::new(4, 1)),
    ];
    let mut tokenizer = Tokenizer::new(text);
    let tokens: Vec<TokenInfo> = tokenizer.tokenize();

    assert_eq!(tokens, expected);
}

#[test]
fn test_stringify() {
    let tokens = vec![
        Token::Special(Special::Quote),
        Token::Value("foo".to_string()),
        Token::Special(Special::Quote),
    ];
    assert_eq!(bibtex_format::token::stringify(tokens), "\"foo\"");
}
