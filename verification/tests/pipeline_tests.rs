use bibtex_format::Error;
use bibtex_format::format::Formatter;
use bibtex_format::models::Entries;
use bibtex_format::models::EntryType;
use bibtex_format::models::Part;
use bibtex_format::models::Tag;
use bibtex_format::models::Value;
use bibtex_format::parse::Parser;
use bibtex_format::token::Token;
use bibtex_format::token::Tokenizer;

fn parse_text(text: &str) -> Result<Entries, Error> {
    let mut tokenizer = Tokenizer::new(text);
    let tokens = tokenizer.tokenize();
    let mut parser = Parser::new(tokens);
    parser.parse()
}

fn run_pipeline(text: &str) -> String {
    let entries = parse_text(text).unwrap();
    let formatter = Formatter::builder().build();
    formatter.format_entries(&entries)
}

#[test]
fn round_trip_rebuilds_input() {
    let text = "@misc{citekey,\n  author=\"foo\", \ntitle = { bar }\n}";
    let mut tokenizer = Tokenizer::new(text);
    let tokens: Vec<Token> = tokenizer.tokenize().into_iter().map(|t| t.value).collect();
    assert_eq!(bibtex_format::token::stringify(tokens), text);
}

#[test]
fn round_trip_arbitrary_punctuation() {
    let text = "}}@@ stray ,,== \"text#  \t {unbalanced";
    let mut tokenizer = Tokenizer::new(text);
    let tokens: Vec<Token> = tokenizer.tokenize().into_iter().map(|t| t.value).collect();
    assert_eq!(bibtex_format::token::stringify(tokens), text);
}

#[test]
fn formatting_is_idempotent() {
    let text = "@misc{B, title={A Book ON Things}, year = 1999}\n\
                @preamble{\"p one\"}\n\
                @string{acm = \"ACM\"}\n\
                @misc{a, author = \"someone\", note = {  spaced   out  }}";
    let once = run_pipeline(text);
    let twice = run_pipeline(once.as_str());
    assert_eq!(once, twice);
}

#[test]
fn tags_sort_title_first_author_second() {
    let text = "@misc{k, year = 2001, zebra = {z}, author = \"a\", note = {n}, title = {t}}";
    let out = run_pipeline(text);
    let expected = "@misc{k,\n    title = {t},\n    author = {a},\n    note = {n},\n    year = 2001,\n    zebra = {z},\n}";
    assert_eq!(out, expected);
}

#[test]
fn preambles_keep_their_order_under_sort() {
    let text = "@preamble{\"first\"}\n@misc{z, title = {x}}\n@preamble{\"second\"}";
    let mut entries = parse_text(text).unwrap();
    entries.sort();
    let items = entries.iter();
    assert_eq!(items.len(), 3);
    match &items[0] {
        EntryType::PreambleEntry(p) => {
            assert_eq!(p.body().parts(), &vec![Part::Quoted("first".to_string())]);
        }
        other => panic!("expected a preamble first, found {:?}", other),
    }
    match &items[1] {
        EntryType::PreambleEntry(p) => {
            assert_eq!(p.body().parts(), &vec![Part::Quoted("second".to_string())]);
        }
        other => panic!("expected a preamble second, found {:?}", other),
    }
    assert!(matches!(&items[2], EntryType::RefEntry(_)));
}

#[test]
fn nested_braces_keep_inner_pair() {
    let text = "@misc{k, note = {{value}}}";
    let entries = parse_text(text).unwrap();
    let items = entries.iter();
    match &items[0] {
        EntryType::RefEntry(e) => {
            assert_eq!(
                e.tags,
                vec![Tag::new(
                    "note".to_string(),
                    Value::Single("{value}".to_string())
                )]
            );
        }
        other => panic!("expected a reference entry, found {:?}", other),
    }
}

#[test]
fn empty_tag_skipped_or_rendered_by_policy() {
    let text = "@misc{k, author = \"\"}";
    let entries = parse_text(text).unwrap();

    let skipping = Formatter::builder().build();
    assert_eq!(skipping.format_entries(&entries), "@misc{k}");

    let keeping = Formatter::builder().skip_empty_tags(false).build();
    assert_eq!(
        keeping.format_entries(&entries),
        "@misc{k,\n    author = {},\n}"
    );
}

#[test]
fn misc_entry_formats_to_canonical_text() {
    let text = "@misc{citekey, author=\"foo\", title = { bar }}";
    let entries = parse_text(text).unwrap();
    let items = entries.iter();
    assert_eq!(items.len(), 1);
    match &items[0] {
        EntryType::RefEntry(e) => {
            assert_eq!(e.kind, "misc");
            assert_eq!(e.key, "citekey");
            assert_eq!(
                e.tags,
                vec![
                    Tag::new("author".to_string(), Value::Single("foo".to_string())),
                    Tag::new("title".to_string(), Value::Single("bar".to_string())),
                ]
            );
        }
        other => panic!("expected a reference entry, found {:?}", other),
    }
    let out = run_pipeline(text);
    assert_eq!(out, "@misc{citekey,\n    title = {bar},\n    author = {foo},\n}");
}

#[test]
fn string_entries_fold_names_and_sort() {
    let text = "@string{ieee = \"Institute of Electrical and Electronics Engineers\"}\n\
                @STRING{acm = \"Association for Computing Machinery\"}";
    let out = run_pipeline(text);
    assert_eq!(
        out,
        "@STRING{acm = \"Association for Computing Machinery\"}\n\
         @STRING{ieee = \"Institute of Electrical and Electronics Engineers\"}"
    );
}

#[test]
fn missing_equals_is_reported_after_the_tag_name() {
    let text = "@misc{citekey, author}";
    let result = parse_text(text);
    match result {
        Err(Error::UnexpectedToken(expected, found)) => {
            assert!(matches!(
                expected,
                Token::Special(bibtex_format::token::Special::Equals)
            ));
            assert!(matches!(
                found.value,
                Token::Special(bibtex_format::token::Special::BraceRight)
            ));
            assert_eq!(found.position.line, 1);
            assert_eq!(found.position.column, 22);
        }
        other => panic!("expected an unexpected-token error, found {:?}", other),
    }
}

#[test]
fn truncated_entry_reports_end_of_stream() {
    let result = parse_text("@misc{citekey,");
    assert!(matches!(result, Err(Error::EndOfTokenStream(_))));
}

#[test]
fn missing_entry_type_is_reported() {
    let result = parse_text("@{citekey}");
    assert!(matches!(result, Err(Error::MissingEntryType(_))));
}

#[test]
fn missing_cite_key_is_reported() {
    let result = parse_text("@misc{,}");
    assert!(matches!(result, Err(Error::MissingCiteKey(_))));
}

#[test]
fn missing_tag_name_is_reported() {
    let result = parse_text("@misc{k, = {x}}");
    assert!(matches!(result, Err(Error::MissingTagName(_))));
}

#[test]
fn missing_tag_content_is_reported() {
    let result = parse_text("@misc{k, a = ,}");
    assert!(matches!(result, Err(Error::MissingContent(_))));
}

#[test]
fn stray_text_outside_entries_is_reported() {
    let result = parse_text("not bibtex");
    assert!(matches!(result, Err(Error::UnexpectedToken(_, _))));
}

#[test]
fn custom_error_keeps_its_message() {
    let e = Error::custom("went wrong".to_string());
    match e {
        Error::Custom(msg) => assert_eq!(msg, "went wrong"),
        other => panic!("expected a custom error, found {:?}", other),
    }
}

#[test]
fn quotes_do_not_nest() {
    let text = "@misc{k, note = \"brace { inside\"}";
    let entries = parse_text(text).unwrap();
    let items = entries.iter();
    match &items[0] {
        EntryType::RefEntry(e) => {
            assert_eq!(
                e.tags,
                vec![Tag::new(
                    "note".to_string(),
                    Value::Single("brace { inside".to_string())
                )]
            );
        }
        other => panic!("expected a reference entry, found {:?}", other),
    }
}

#[test]
fn whitespace_in_content_coalesces() {
    let text = "@misc{k, note = {a\n\t   b}}";
    let out = run_pipeline(text);
    assert_eq!(out, "@misc{k,\n    note = {a b},\n}");
}

#[test]
fn bare_numbers_parse_as_integers() {
    let entries = parse_text("@misc{k, year = +2004, max = 18446744073709551615}").unwrap();
    let items = entries.iter();
    match &items[0] {
        EntryType::RefEntry(e) => {
            assert_eq!(
                e.tags,
                vec![
                    Tag::new("year".to_string(), Value::Integer(2004)),
                    Tag::new("max".to_string(), Value::Integer(18446744073709551615)),
                ]
            );
        }
        other => panic!("expected a reference entry, found {:?}", other),
    }
}

#[test]
fn oversized_numbers_stay_macro_references() {
    let out = run_pipeline("@misc{k, num = 18446744073709551616}");
    assert_eq!(out, "@misc{k,\n    num = 18446744073709551616,\n}");
}

#[test]
fn entry_kinds_group_with_blank_lines() {
    let text = "@misc{k, title = {t}}\n@comment{aside}\n@string{a = \"x\"}\n@preamble{\"p\"}\n@misc{b, title = {u}}";
    let out = run_pipeline(text);
    assert_eq!(
        out,
        "@PREAMBLE{\"p\"}\n\n@STRING{a = \"x\"}\n\n@COMMENT{aside}\n\n@misc{b,\n    title = {u},\n}\n\n@misc{k,\n    title = {t},\n}"
    );
}

#[test]
fn empty_input_formats_to_nothing() {
    assert_eq!(run_pipeline(""), "");
}

#[test]
fn kinds_and_keys_fold_to_lowercase() {
    let out = run_pipeline("@MISC{KeyName, TITLE = {t}}");
    assert_eq!(out, "@misc{keyname,\n    title = {t},\n}");
}
