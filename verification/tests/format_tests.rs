use bibtex_format::format::Formatter;
use bibtex_format::format::FormatterBuilder;
use bibtex_format::format::format_title;
use bibtex_format::format::remove_braces;
use bibtex_format::models::Part;
use bibtex_format::models::Sequence;
use bibtex_format::models::Tag;
use bibtex_format::models::Value;

#[test]
fn test_formatter_builder() {
    let formatter = Formatter {
        format_title: true,
        skip_empty_tags: false,
        sort_entries: true,
        sort_tags: false,
    };
    let formatter_from_builder = FormatterBuilder::new()
        .skip_empty_tags(false)
        .sort_tags(false)
        .build();
    assert_eq!(formatter, formatter_from_builder)
}

#[test]
fn test_remove_braces_cases() {
    assert_eq!(remove_braces("foo"), "foo");
    assert_eq!(remove_braces("{foo}"), "foo");
    assert_eq!(remove_braces("{foo} {} {bar}}"), "foo  bar");
}

#[test]
fn test_format_title_cases() {
    assert_eq!(format_title("foo"), "foo");
    assert_eq!(format_title("{foo}"), "foo");
    assert_eq!(format_title("Foo {FOO}"), "Foo {FOO}");
    assert_eq!(format_title("FOO:"), "{FOO}:");
    assert_eq!(
        format_title("{FOO: A Framework for BaR}"),
        "{FOO}: {A} {F}ramework for {BaR}"
    );
}

#[test]
fn test_format_tag_title_protection() {
    let formatter = Formatter::builder().build();
    let tag = Tag::new(
        "title".to_string(),
        Value::Single("The BibTeX Book".to_string()),
    );
    assert_eq!(formatter.format_tag(&tag), "title = {The {BibTeX} {B}ook}");

    let plain = Formatter::builder().format_title(false).build();
    assert_eq!(plain.format_tag(&tag), "title = {The BibTeX Book}");
}

#[test]
fn test_format_tag_integer_and_sequence() {
    let formatter = Formatter::builder().build();
    let year = Tag::new("year".to_string(), Value::Integer(2004));
    assert_eq!(formatter.format_tag(&year), "year = 2004");

    let seq = Tag::new(
        "publisher".to_string(),
        Value::Sequence(Sequence::new(vec![
            Part::Value("ACM".to_string()),
            Part::Quoted(" Press".to_string()),
        ])),
    );
    assert_eq!(formatter.format_tag(&seq), "publisher = acm # \" Press\"");
}
