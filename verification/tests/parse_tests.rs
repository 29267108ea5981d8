use bibtex_format::Error;
use bibtex_format::ParseResult;
use bibtex_format::models::CommentEntry;
use bibtex_format::models::Entries;
use bibtex_format::models::EntryType;
use bibtex_format::models::Part;
use bibtex_format::models::PreambleEntry;
use bibtex_format::models::RefEntry;
use bibtex_format::models::Sequence;
use bibtex_format::models::StringEntry;
use bibtex_format::models::Tag;
use bibtex_format::models::Value;
use bibtex_format::parse::Parser;
use bibtex_format::token::Position;
use bibtex_format::token::Special;
use bibtex_format::token::Token;
use bibtex_format::token::TokenInfo;
use bibtex_format::token::Whitespace;

fn as_infos(tokens: Vec<Token>) -> Vec<TokenInfo> {
    tokens
        .into_iter()
        .enumerate()
        .map(|(i, token)| TokenInfo {
            value: token,
            position: Position {
                line: i as u32,
                column: 0,
            },
        })
        .collect()
}

#[test]
fn test_parse_comment_entry() -> ParseResult<()> {
    let tokens = vec![
        Token::Special(Special::At),
        Token::Value("comment".to_string()),
        Token::Special(Special::BraceLeft),
        Token::Whitespace(Whitespace::Space),
        Token::Value("value".to_string()),
        Token::Whitespace(Whitespace::Space),
        Token::Special(Special::BraceRight),
    ];
    let mut parser = Parser::new(as_infos(tokens));

    let entry = parser.parse_entry()?;
    let expected = EntryType::CommentEntry(CommentEntry::new(" value ".to_string()));
    assert_eq!(entry, expected);

    Ok(())
}

#[test]
fn test_parse_preamble_entries() -> ParseResult<()> {
    let tokens = vec![
        Token::Special(Special::At),
        Token::Value("preamble".to_string()),
        Token::Special(Special::BraceLeft),
        Token::Special(Special::Quote),
        Token::Value("test".to_string()),
        Token::Whitespace(Whitespace::Space),
        Token::Value("string".to_string()),
        Token::Special(Special::Quote),
        Token::Special(Special::Pound),
        Token::Value("value".to_string()),
        Token::Special(Special::BraceRight),
    ];
    let mut parser = Parser::new(as_infos(tokens));

    let entry = parser.parse_entry()?;
    let seq = Sequence::new(vec![
        Part::Quoted("test string".to_string()),
        Part::Value("value".to_string()),
    ]);
    let expected = EntryType::PreambleEntry(PreambleEntry::new(seq));
    assert_eq!(entry, expected);

    Ok(())
}

#[test]
fn test_parse_string_entries() -> ParseResult<()> {
    let tokens = vec![
        Token::Special(Special::At),
        Token::Value("string".to_string()),
        Token::Special(Special::BraceLeft),
        Token::Value("acm".to_string()),
        Token::Special(Special::Equals),
        Token::Special(Special::Quote),
        Token::Value("Association for Computing Machinery".to_string()),
        Token::Special(Special::Quote),
        Token::Special(Special::BraceRight),
        Token::Whitespace(Whitespace::NewLine),
        Token::Special(Special::At),
        Token::Value("STRING".to_string()),
        Token::Special(Special::BraceLeft),
        Token::Value("ieee".to_string()),
        Token::Special(Special::Equals),
        Token::Special(Special::Quote),
        Token::Value("Institute of Electrical and Electronics Engineers".to_string()),
        Token::Special(Special::Quote),
        Token::Special(Special::BraceRight),
    ];
    let mut parser = Parser::new(as_infos(tokens));

    let entries = parser.parse()?;
    let expected = Entries::new(vec![
        EntryType::StringEntry(StringEntry::new(Tag::new(
            "acm".to_string(),
            Value::Single("Association for Computing Machinery".to_string()),
        ))),
        EntryType::StringEntry(StringEntry::new(Tag::new(
            "ieee".to_string(),
            Value::Single("Institute of Electrical and Electronics Engineers".to_string()),
        ))),
    ]);
    assert_eq!(entries, expected);

    Ok(())
}

#[test]
fn test_parse_ref_entry() -> ParseResult<()> {
    let tokens = vec![
        Token::Special(Special::At),
        Token::Value("misc".to_string()),
        Token::Special(Special::BraceLeft),
        Token::Value("citekey".to_string()),
        Token::Special(Special::Comma),
        Token::Value("author".to_string()),
        Token::Special(Special::Equals),
        Token::Special(Special::Quote),
        Token::Value("foo".to_string()),
        Token::Special(Special::Quote),
        Token::Special(Special::Comma),
        Token::Value("title".to_string()),
        Token::Special(Special::Equals),
        Token::Special(Special::BraceLeft),
        Token::Value("the".to_string()),
        Token::Special(Special::Comma),
        Token::Value("bar".to_string()),
        Token::Special(Special::BraceRight),
        Token::Special(Special::BraceRight),
    ];
    let mut parser = Parser::new(as_infos(tokens));

    let entry = parser.parse_entry()?;
    let tags = vec![
        Tag::new("author".to_string(), Value::Single("foo".to_string())),
        Tag::new("title".to_string(), Value::Single("the,bar".to_string())),
    ];
    let expected = EntryType::RefEntry(RefEntry::new(
        "misc".to_string(),
        "citekey".to_string(),
        tags,
    ));
    assert_eq!(entry, expected);

    Ok(())
}

#[test]
fn test_parse_ref_entry_no_tags() -> ParseResult<()> {
    let tokens = vec![
        Token::Special(Special::At),
        Token::Value("misc".to_string()),
        Token::Special(Special::BraceLeft),
        Token::Value("citekey".to_string()),
        Token::Special(Special::BraceRight),
    ];
    let mut parser = Parser::new(as_infos(tokens));

    let entry = parser.parse_entry()?;
    let expected = EntryType::RefEntry(RefEntry::new(
        "misc".to_string(),
        "citekey".to_string(),
        Vec::with_capacity(0),
    ));
    assert_eq!(entry, expected);

    Ok(())
}

#[test]
fn test_parse_ref_entry_retain_empty_tags() -> ParseResult<()> {
    let tokens = vec![
        Token::Special(Special::At),
        Token::Value("misc".to_string()),
        Token::Special(Special::BraceLeft),
        Token::Value("citekey".to_string()),
        Token::Special(Special::Comma),
        Token::Value("author".to_string()),
        Token::Special(Special::Equals),
        Token::Special(Special::Quote),
        Token::Special(Special::Quote),
        Token::Special(Special::BraceRight),
    ];
    let mut parser = Parser::new(as_infos(tokens));

    let entry = parser.parse_entry()?;
    let expected = EntryType::RefEntry(RefEntry::new(
        "misc".to_string(),
        "citekey".to_string(),
        vec![Tag::new(
            "author".to_string(),
            Value::Single("".to_string()),
        )],
    ));
    assert_eq!(entry, expected);

    Ok(())
}

#[test]
fn test_parse_tag() -> ParseResult<()> {
    let tokens = vec![
        Token::Value("name".to_string()),
        Token::Special(Special::Equals),
        Token::Special(Special::BraceLeft),
        Token::Value("test".to_string()),
        Token::Whitespace(Whitespace::Space),
        Token::Value("string".to_string()),
        Token::Special(Special::BraceRight),
    ];
    let mut parser = Parser::new(as_infos(tokens));

    let parsed = parser.parse_tag()?;
    let expected = Tag::new("name".to_string(), Value::Single("test string".to_string()));
    assert_eq!(parsed, expected);

    Ok(())
}

#[test]
fn test_parse_tag_value_single_braces() -> ParseResult<()> {
    let tokens = vec![
        Token::Special(Special::BraceLeft),
        Token::Value("test".to_string()),
        Token::Whitespace(Whitespace::Space),
        Token::Value("string".to_string()),
        Token::Special(Special::BraceRight),
    ];
    let mut parser = Parser::new(as_infos(tokens));

    let parsed = parser.parse_tag_value()?;
    let expected = Value::Single("test string".to_string());
    assert_eq!(parsed, expected);

    Ok(())
}

#[test]
fn test_parse_tag_value_single_quotes() -> ParseResult<()> {
    let tokens = vec![
        Token::Special(Special::Quote),
        Token::Value("test".to_string()),
        Token::Whitespace(Whitespace::Space),
        Token::Value("string".to_string()),
        Token::Special(Special::Quote),
        Token::Special(Special::Comma),
    ];
    let mut parser = Parser::new(as_infos(tokens));

    let parsed = parser.parse_tag_value()?;
    let expected = Value::Single("test string".to_string());
    assert_eq!(parsed, expected);

    Ok(())
}

#[test]
fn test_parse_tag_value_integer() -> ParseResult<()> {
    let tokens = vec![
        Token::Value("42".to_string()),
        Token::Special(Special::Comma),
    ];
    let mut parser = Parser::new(as_infos(tokens));

    let parsed = parser.parse_tag_value()?;
    let expected = Value::Integer(42);
    assert_eq!(parsed, expected);

    Ok(())
}

#[test]
fn test_parse_tag_value_sequence() -> ParseResult<()> {
    let tokens = vec![
        Token::Special(Special::Quote),
        Token::Value("test".to_string()),
        Token::Whitespace(Whitespace::Space),
        Token::Value("string".to_string()),
        Token::Special(Special::Quote),
        Token::Special(Special::Pound),
        Token::Value("value".to_string()),
        Token::Special(Special::Comma),
    ];
    let mut parser = Parser::new(as_infos(tokens));

    let parsed = parser.parse_tag_value()?;
    let expected = Value::Sequence(Sequence::new(vec![
        Part::Quoted("test string".to_string()),
        Part::Value("value".to_string()),
    ]));
    assert_eq!(parsed, expected);

    Ok(())
}

#[test]
fn test_parse_tag_value_parts() -> ParseResult<()> {
    let tokens = vec![
        Token::Special(Special::Quote),
        Token::Value("test".to_string()),
        Token::Whitespace(Whitespace::Space),
        Token::Value("string".to_string()),
        Token::Special(Special::Quote),
        Token::Special(Special::Pound),
        Token::Value("value".to_string()),
        Token::Special(Special::Comma),
    ];
    let mut parser = Parser::new(as_infos(tokens));

    let parsed = parser.parse_tag_value_sequence()?;
    let expected = Sequence::new(vec![
        Part::Quoted("test string".to_string()),
        Part::Value("value".to_string()),
    ]);
    assert_eq!(parsed, expected);

    Ok(())
}

#[test]
fn test_parse_tag_value_part() -> ParseResult<()> {
    let tokens = vec![
        Token::Special(Special::Quote),
        Token::Value("test".to_string()),
        Token::Whitespace(Whitespace::Space),
        Token::Value("string".to_string()),
        Token::Special(Special::Quote),
        Token::Value("value".to_string()),
    ];
    let mut parser = Parser::new(as_infos(tokens));

    let part = parser.parse_tag_value_part()?;
    assert_eq!(part, Part::Quoted("test string".to_string()));

    let part = parser.parse_tag_value_part()?;
    assert_eq!(part, Part::Value("value".to_string()));

    Ok(())
}

#[test]
fn test_parse_missing_type() -> ParseResult<()> {
    let tokens = vec![
        Token::Special(Special::At),
        Token::Special(Special::BraceLeft),
        Token::Special(Special::BraceRight),
    ];
    let mut parser = Parser::new(as_infos(tokens));

    let result = parser.parse();
    assert!(matches!(result, Err(Error::MissingEntryType(_))));

    Ok(())
}

#[test]
fn test_parse_missing_key() -> ParseResult<()> {
    let tokens = vec![
        Token::Special(Special::At),
        Token::Value("misc".to_string()),
        Token::Special(Special::BraceLeft),
        Token::Special(Special::BraceRight),
    ];
    let mut parser = Parser::new(as_infos(tokens));

    let result = parser.parse();
    assert!(matches!(result, Err(Error::MissingCiteKey(_))));

    Ok(())
}

#[test]
fn test_parse_missing_equals() -> ParseResult<()> {
    let tokens = vec![
        Token::Special(Special::At),
        Token::Value("misc".to_string()),
        Token::Special(Special::BraceLeft),
        Token::Value("citekey".to_string()),
        Token::Special(Special::Comma),
        Token::Value("author".to_string()),
        Token::Special(Special::BraceRight),
    ];
    let mut parser = Parser::new(as_infos(tokens));

    let result = parser.parse();
    assert!(matches!(
        result,
        Err(Error::UnexpectedToken(
            Token::Special(Special::Equals),
            TokenInfo {
                value: Token::Special(Special::BraceRight),
                position: Position { line: 6, column: 0 },
            },
        ))
    ));

    Ok(())
}

#[test]
fn test_parse_delimited_string() -> ParseResult<()> {
    let tokens = vec![
        Token::Special(Special::BraceLeft),
        Token::Value("test".to_string()),
        Token::Whitespace(Whitespace::Space),
        Token::Value("string".to_string()),
        Token::Special(Special::BraceRight),
    ];
    let mut parser = Parser::new(as_infos(tokens));

    let parsed = parser.parse_delimited_string(
        Token::Special(Special::BraceLeft),
        Token::Special(Special::BraceRight),
    )?;
    assert_eq!(parsed, "test string");

    Ok(())
}

#[test]
fn test_parse_delimited_string_nested_braces() -> ParseResult<()> {
    let tokens = vec![
        Token::Special(Special::BraceLeft),
        Token::Special(Special::BraceLeft),
        Token::Value("value".to_string()),
        Token::Special(Special::BraceRight),
        Token::Special(Special::BraceRight),
    ];
    let mut parser = Parser::new(as_infos(tokens));

    let parsed = parser.parse_delimited_string(
        Token::Special(Special::BraceLeft),
        Token::Special(Special::BraceRight),
    )?;
    assert_eq!(parsed, "{value}");

    Ok(())
}
