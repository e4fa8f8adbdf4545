use vernacular::error::{ParseFailure, VernacularError};
use vernacular::parsing::{csv, ron};

fn value_of(m: &vernacular::strmap::StrMap<vernacular::TranslationEntry>, key: &str) -> Option<String> {
    m.get(key).map(|e| e.value.as_str().to_string())
}

#[test]
fn unified_csv_columns_are_locales() {
    let content = "locale,en_US,ja_JP\nitems.sword,Iron Sword,鉄の剣\nitems.shield, Wooden Shield ,\n";
    let map = csv::parse_unified("root/items.csv", content.as_bytes()).unwrap();
    let en = map.get("en_US").unwrap();
    let ja = map.get("ja_JP").unwrap();
    assert_eq!(value_of(en, "items.sword").as_deref(), Some("Iron Sword"));
    assert_eq!(value_of(ja, "items.sword").as_deref(), Some("鉄の剣"));
    // Cells are trimmed; empty cells are missing translations.
    assert_eq!(value_of(en, "items.shield").as_deref(), Some("Wooden Shield"));
    assert_eq!(value_of(ja, "items.shield"), None);
    let entry = en.get("items.sword").unwrap();
    assert_eq!(entry.line, 2);
    assert_eq!(entry.source_path, "root/items.csv");
    assert!(map.get("locale").is_none());
}

#[test]
fn unified_csv_lines_are_file_lines() {
    let map = csv::parse_unified("r.csv", "locale,en_US\n\nkey,value\n".as_bytes()).unwrap();
    let e = map.get("en_US").unwrap().get("key").unwrap();
    assert_eq!(e.value.as_str(), "value");
    assert_eq!(e.line, 3);
}

#[test]
fn unified_csv_lines_with_crlf_endings() {
    let map = csv::parse_unified("r.csv", "locale,en_US\r\n\r\n\r\nkey,value\r\n".as_bytes()).unwrap();
    assert_eq!(map.get("en_US").unwrap().get("key").unwrap().line, 4);
}

#[test]
fn locale_csv_empty_cells_are_missing() {
    let t = csv::parse_locale("l.csv", "a,\nb,x\n\n\nc,y\n".as_bytes()).unwrap();
    assert_eq!(value_of(&t, "a"), None);
    assert_eq!(value_of(&t, "b").as_deref(), Some("x"));
    assert_eq!(t.get("c").unwrap().line, 5);
}

#[test]
fn unified_csv_space_cell_is_empty_text() {
    let map = csv::parse_unified("r.csv", "locale,en_US\nhide, \n".as_bytes()).unwrap();
    assert_eq!(value_of(map.get("en_US").unwrap(), "hide").as_deref(), Some(""));
}

#[test]
fn unified_csv_reader_error() {
    let err = csv::parse_unified("r.csv", "locale,en_US\na,b,c\n".as_bytes()).unwrap_err();
    assert!(matches!(err, VernacularError::Parse(ParseFailure::Csv(_))));
}

#[test]
fn locale_csv_skips_key_value_header() {
    let t = csv::parse_locale("l.csv", "key,value\nitems.sword,Iron Sword\n".as_bytes()).unwrap();
    assert_eq!(value_of(&t, "key"), None);
    assert_eq!(value_of(&t, "items.sword").as_deref(), Some("Iron Sword"));
    assert_eq!(t.get("items.sword").unwrap().line, 2);

    // Only the first row is a header.
    let t = csv::parse_locale("l.csv", "a,b\nkey,value\n".as_bytes()).unwrap();
    assert_eq!(value_of(&t, "key").as_deref(), Some("value"));
}

#[test]
fn locale_csv_later_rows_win_and_values_are_kept_as_is() {
    let t = csv::parse_locale("l.csv", "k, first \nk,second\n".as_bytes()).unwrap();
    assert_eq!(value_of(&t, "k").as_deref(), Some("second"));
    let t = csv::parse_locale("l.csv", "k, spaced \n".as_bytes()).unwrap();
    assert_eq!(value_of(&t, "k").as_deref(), Some(" spaced "));
}

#[test]
fn csv_key_scan() {
    let keys = csv::scan_keys("locale,en_US\nitems.sword,x\n , y\n".as_bytes(), true).unwrap();
    assert_eq!(keys, vec!["items.sword"]);
    let keys = csv::scan_keys(" key ,value\na,1\n".as_bytes(), false).unwrap();
    assert_eq!(keys, vec!["a"]);
    let keys = csv::scan_keys("a,1\nb,2\n".as_bytes(), false).unwrap();
    assert_eq!(keys, vec!["a", "b"]);
}

#[test]
fn ron_map_entries() {
    let t = ron::parse("en_US/ui.ron", "{\"ui.start\": \"Start\", \"greet\": \"Hello, {}!\"}".as_bytes()).unwrap();
    assert_eq!(value_of(&t, "ui.start").as_deref(), Some("Start"));
    let e = t.get("greet").unwrap();
    assert_eq!(e.line, 0);
    assert_eq!(e.source_path, "en_US/ui.ron");
    assert_eq!(e.format(&["Bob"]), "Hello, Bob!");
}

#[test]
fn ron_errors() {
    let err = ron::parse("bad.ron", "{ \"missing_colon\" \"value\" }".as_bytes()).unwrap_err();
    assert!(matches!(err, VernacularError::Parse(ParseFailure::Ron(_))));
    let err = ron::parse("bad.ron", &[0x7b, 0xff, 0x7d]).unwrap_err();
    match err {
        VernacularError::Io(e) => assert_eq!(e.kind(), std::io::ErrorKind::InvalidData),
        other => panic!("expected an I/O error, got {:?}", other),
    }
}

#[test]
fn ron_key_scan() {
    let mut keys = ron::scan_keys("{\"b\": \"x\", \"a\": 3}".as_bytes()).unwrap();
    keys.sort();
    assert_eq!(keys, vec!["a", "b"]);
}

#[test]
fn unified_csv_header_alone_names_the_locales() {
    let map = csv::parse_unified("r.csv", "locale,en_US,fr_FR\n".as_bytes()).unwrap();
    let entries = map.into_entries();
    assert_eq!(entries.len(), 2);
    for (locale, table) in entries {
        assert!(locale == "en_US" || locale == "fr_FR");
        assert!(table.into_entries().is_empty());
    }
}

#[test]
fn unified_csv_last_nonempty_cell_wins() {
    let content = "locale,en_US\nk,first\nk,\nk, second \nj,\n";
    let map = csv::parse_unified("r.csv", content.as_bytes()).unwrap();
    let en = map.get("en_US").unwrap();
    let e = en.get("k").unwrap();
    assert_eq!(e.value.as_str(), "second");
    assert_eq!(e.line, 4);
    assert_eq!(value_of(en, "j"), None);
}

#[test]
fn csv_key_scan_keeps_file_order_and_repeats() {
    let keys = csv::scan_keys("key,value\n a ,b\n,c\n".as_bytes(), false).unwrap();
    assert_eq!(keys, vec!["a"]);
    let keys = csv::scan_keys("b,1\na,2\nb,3\n".as_bytes(), false).unwrap();
    assert_eq!(keys, vec!["b", "a", "b"]);
}
