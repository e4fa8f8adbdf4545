use vernacular::model::{TemplatePart, TranslationEntry};
use vernacular::text::{decimal_string, same_text, text_less, trim};

fn text(start: usize, end: usize) -> TemplatePart {
    TemplatePart::Text { start, end }
}

#[test]
fn template_of_plain_text_is_one_span() {
    assert_eq!(TranslationEntry::parse_template("Start Game"), vec![text(0, 10)]);
    assert_eq!(TranslationEntry::parse_template(""), vec![]);
}

#[test]
fn template_sequential_and_escapes() {
    assert_eq!(
        TranslationEntry::parse_template("{} {{escaped}} {}"),
        vec![
            TemplatePart::Arg(0),
            text(2, 3),
            TemplatePart::LiteralOpen,
            text(5, 12),
            TemplatePart::LiteralClose,
            text(14, 15),
            TemplatePart::Arg(1),
        ]
    );
}

#[test]
fn template_positional_arguments() {
    assert_eq!(
        TranslationEntry::parse_template("{1}{0}"),
        vec![TemplatePart::Arg(1), TemplatePart::Arg(0)]
    );
    assert_eq!(
        TranslationEntry::parse_template("Hello {0}"),
        vec![text(0, 6), TemplatePart::Arg(0)]
    );
}

#[test]
fn template_unmatched_braces_are_text() {
    assert_eq!(TranslationEntry::parse_template("{x}"), vec![text(0, 3)]);
    assert_eq!(TranslationEntry::parse_template("{"), vec![text(0, 1)]);
    assert_eq!(TranslationEntry::parse_template("a}b"), vec![text(0, 3)]);
    assert_eq!(
        TranslationEntry::parse_template("a}}b"),
        vec![text(0, 1), TemplatePart::LiteralClose, text(3, 4)]
    );
}

#[test]
fn template_index_too_large_is_text() {
    // 2^64 does not fit a usize: the braces stay text; the closing brace then
    // pairs with the next one as an escape.
    assert_eq!(
        TranslationEntry::parse_template("{18446744073709551616}"),
        vec![text(0, 22)]
    );
    assert_eq!(
        TranslationEntry::parse_template("{18446744073709551616}}"),
        vec![text(0, 21), TemplatePart::LiteralClose]
    );
}

#[test]
fn template_spans_are_byte_ranges() {
    assert_eq!(
        TranslationEntry::parse_template("é{0}ü"),
        vec![text(0, 2), TemplatePart::Arg(0), text(5, 7)]
    );
}

#[test]
fn format_fills_and_writes_back_missing_arguments() {
    let e = TranslationEntry::new("x {1} y {0}".to_string(), "p".to_string(), 3);
    assert_eq!(e.format(&["a"]), "x {1} y a");
    assert_eq!(e.format(&["a", "b"]), "x b y a");
    let e = TranslationEntry::new("{12}".to_string(), "p".to_string(), 3);
    assert_eq!(e.format(&[]), "{12}");
    assert_eq!(e.line, 3);
    assert_eq!(e.source_path, "p");
}

#[test]
fn format_of_escapes() {
    let e = TranslationEntry::new("{{\"key\": \"value\"}}".to_string(), "p".to_string(), 0);
    assert_eq!(e.format(&[]), "{\"key\": \"value\"}");
}

#[test]
fn text_without_braces_renders_as_itself() {
    let e = TranslationEntry::new("Hello 🌟 world".to_string(), "p".to_string(), 0);
    assert_eq!(e.format(&["unused"]), "Hello 🌟 world");
}

#[test]
fn decimal_text() {
    assert_eq!(decimal_string(0), "0");
    assert_eq!(decimal_string(7), "7");
    assert_eq!(decimal_string(120), "120");
    assert_eq!(decimal_string(usize::MAX), usize::MAX.to_string());
}

#[test]
fn trimming_unicode_whitespace() {
    assert_eq!(trim("  a b \t"), "a b");
    assert_eq!(trim("\u{3000}x\u{a0}"), "x");
    assert_eq!(trim(" \n "), "");
}

#[test]
fn text_order_and_equality() {
    assert!(text_less("a.csv", "b.csv"));
    assert!(text_less("a", "a.csv"));
    assert!(!text_less("b", "a"));
    assert!(!text_less("a", "a"));
    assert!(same_text("ja_JP", "ja_JP"));
    assert!(!same_text("ja_JP", "ja_jp"));
}

#[test]
fn template_numbers_only_bare_placeholders() {
    assert_eq!(
        TranslationEntry::parse_template("{1} {}"),
        vec![TemplatePart::Arg(1), text(3, 4), TemplatePart::Arg(0)]
    );
    assert_eq!(
        TranslationEntry::parse_template("{}{{{5}}}{}"),
        vec![
            TemplatePart::Arg(0),
            TemplatePart::LiteralOpen,
            TemplatePart::Arg(5),
            TemplatePart::LiteralClose,
            TemplatePart::Arg(1),
        ]
    );
}

#[test]
fn template_of_unicode_text_without_braces_is_one_byte_span() {
    assert_eq!(TranslationEntry::parse_template("鉄の剣"), vec![text(0, 9)]);
    assert_eq!(TranslationEntry::parse_template(""), vec![]);
}
