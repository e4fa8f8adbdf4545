use vernacular::source::{DirListing, LoadStep, SourceFile};
use vernacular::VernacularContext;

fn file(dir: &str, name: &str, content: &str) -> SourceFile {
    SourceFile {
        name: name.to_string(),
        path: format!("{}/{}", dir, name),
        content: Ok(content.as_bytes().to_vec()),
    }
}

fn dirs(names: &[&str]) -> Vec<(String, bool)> {
    names.iter().map(|n| (n.to_string(), true)).collect()
}

fn missing() -> DirListing {
    DirListing::Failed {
        error: std::io::Error::new(std::io::ErrorKind::NotFound, "missing"),
        not_found: true,
    }
}

#[test]
fn lookup_owes_root_then_locales() {
    let mut ctx = VernacularContext::new();
    assert!(ctx.set_locale("ja_JP"));
    assert_eq!(ctx.next_load_for_lookup(), Some(LoadStep::RootCsvs));
    ctx.complete_load(&LoadStep::RootCsvs, DirListing::Files(vec![]));
    assert_eq!(ctx.next_load_for_lookup(), Some(LoadStep::Locale("ja_JP".to_string())));
    ctx.complete_load(&LoadStep::Locale("ja_JP".to_string()), missing());
    assert_eq!(ctx.next_load_for_lookup(), Some(LoadStep::Locale("en_US".to_string())));
    ctx.complete_load(&LoadStep::Locale("en_US".to_string()), missing());
    assert_eq!(ctx.next_load_for_lookup(), None);
    assert_eq!(ctx.next_load_for_locale("ja_JP"), None);
    assert_eq!(ctx.next_load_for_locale("de_DE"), Some(LoadStep::Locale("de_DE".to_string())));
}

#[test]
fn new_context_defaults() {
    let ctx = VernacularContext::new();
    assert_eq!(ctx.current_locale(), None);
    assert_eq!(ctx.fallback_locale(), "en_US");
    assert_eq!(ctx.content_path(), "assets/loc");
    assert!(!ctx.has_key("anything"));
    assert_eq!(&*ctx.localize("anything"), "anything");
}

#[test]
fn csv_then_ron_each_in_name_order() {
    let mut ctx = VernacularContext::new();
    ctx.complete_load(&LoadStep::RootCsvs, DirListing::Files(vec![]));
    let files = vec![
        file("d", "z.ron", "{\"k\": \"from z.ron\", \"only_ron\": \"r\"}"),
        file("d", "b.csv", "k,from b.csv\nc,from b.csv\n"),
        file("d", "a.csv", "k,from a.csv\nc,from a.csv\nd,from a.csv\n"),
        file("d", "notes.txt", "k,ignored\n"),
        file("d", ".csv", "k,ignored\n"),
    ];
    let errors = ctx.complete_load(&LoadStep::Locale("en_US".to_string()), DirListing::Files(files));
    assert!(errors.is_empty());
    assert_eq!(&*ctx.localize("k"), "from z.ron");
    assert_eq!(&*ctx.localize("c"), "from b.csv");
    assert_eq!(&*ctx.localize("d"), "from a.csv");
    assert_eq!(&*ctx.localize("only_ron"), "r");
}

#[test]
fn failing_files_are_reported_and_skipped() {
    let mut ctx = VernacularContext::new();
    let root = vec![
        file("r", "a.csv", "locale,en_US\ngood,yes\n"),
        file("r", "b.csv", "locale,en_US\nx,y,z\n"),
        SourceFile {
            name: "c.csv".to_string(),
            path: "r/c.csv".to_string(),
            content: Err(std::io::Error::new(std::io::ErrorKind::PermissionDenied, "denied")),
        },
    ];
    let errors = ctx.complete_load(&LoadStep::RootCsvs, DirListing::Files(root));
    assert_eq!(errors.len(), 2);
    assert!(errors[0].message().starts_with("Parse error: Failed to parse file 'r/b.csv': Parse error: "));
    assert!(errors[1].message().starts_with("Parse error: Failed to parse file 'r/c.csv': I/O error: "));
    ctx.complete_load(&LoadStep::Locale("en_US".to_string()), missing());
    assert_eq!(&*ctx.localize("good"), "yes");
}

#[test]
fn listing_failures() {
    let mut ctx = VernacularContext::new();
    let err = std::io::Error::new(std::io::ErrorKind::PermissionDenied, "denied");
    let errors = ctx.complete_load(&LoadStep::RootCsvs, DirListing::Failed { error: err, not_found: false });
    assert_eq!(errors.len(), 1);
    assert!(matches!(errors[0], vernacular::error::VernacularError::Io(_)));
    // A missing locale directory is no error; a root that is missing is one.
    let errors = ctx.complete_load(&LoadStep::Locale("en_US".to_string()), missing());
    assert!(errors.is_empty());
    ctx.set_content_path("elsewhere");
    let errors = ctx.complete_load(&LoadStep::RootCsvs, missing());
    assert_eq!(errors.len(), 1);
}

#[test]
fn try_reload_marks_everything_loaded() {
    let mut ctx = VernacularContext::new();
    let locales = vec![
        ("en_US".to_string(), DirListing::Files(vec![file("l/en_US", "ui.ron", "{\"a\": \"b\"}")])),
        ("ja_JP".to_string(), DirListing::Files(vec![file("l/ja_JP", "bad.ron", "{ invalid }")])),
    ];
    let result = ctx.try_reload(DirListing::Files(vec![]), Ok(locales));
    let errors = result.unwrap_err();
    assert_eq!(errors.len(), 1);
    assert!(errors.message().starts_with("1 error occurred: Parse error: Failed to parse file 'l/ja_JP/bad.ron'"));
    assert_eq!(ctx.next_load_for_locale("ja_JP"), None);
    assert_eq!(ctx.next_load_for_lookup(), None);
    assert_eq!(&*ctx.localize("a"), "b");

    let ok = ctx.try_reload(DirListing::Files(vec![]), Ok(vec![]));
    assert!(ok.is_ok());
    assert_eq!(&*ctx.localize("a"), "a");

    let listing_error = std::io::Error::new(std::io::ErrorKind::Other, "no listing");
    let errors = ctx.try_reload(DirListing::Files(vec![]), Err(listing_error)).unwrap_err();
    assert_eq!(errors.len(), 1);
}

#[test]
fn available_locales_skip_hidden_and_repeats() {
    let mut entries = dirs(&[".git", "ja_JP", "en_US", "ja_JP", "", "b"]);
    entries.push(("notes.txt".to_string(), false));
    assert_eq!(VernacularContext::available_locales(&entries), vec!["", "b", "en_US", "ja_JP"]);
}

#[test]
fn fallback_is_used_only_when_it_differs() {
    let mut ctx = VernacularContext::new();
    ctx.complete_load(&LoadStep::RootCsvs, DirListing::Files(vec![file("r", "all.csv", "locale,en_US,fr_FR\nk,hello,bonjour\nm,more,\n")]));
    ctx.set_locale("fr_FR");
    assert_eq!(&*ctx.localize("k"), "bonjour");
    assert_eq!(&*ctx.localize("m"), "more");
    assert!(ctx.has_key("m"));
    assert_eq!(ctx.localize_fmt("m", &["x"]), "more");
    ctx.set_fallback_locale("fr_FR");
    assert_eq!(&*ctx.localize("m"), "m");
    assert!(!ctx.has_key("m"));
    assert!(!ctx.set_locale(""));
    assert_eq!(ctx.current_locale().as_deref(), Some("fr_FR"));
}

#[test]
fn cleared_context_reads_root_first() {
    let mut ctx = VernacularContext::new();
    ctx.complete_load(&LoadStep::RootCsvs, DirListing::Files(vec![]));
    ctx.complete_load(&LoadStep::Locale("en_US".to_string()), missing());
    assert_eq!(ctx.next_load_for_lookup(), None);
    ctx.set_content_path("other");
    assert_eq!(ctx.next_load_for_lookup(), Some(LoadStep::RootCsvs));
    ctx.complete_load(&LoadStep::RootCsvs, DirListing::Files(vec![]));
    ctx.complete_load(&LoadStep::Locale("en_US".to_string()), missing());
    ctx.reload();
    assert_eq!(ctx.next_load_for_lookup(), Some(LoadStep::RootCsvs));
}

#[test]
fn available_locales_do_not_depend_on_listing_order() {
    let a = dirs(&["zz_ZZ", "aa_AA", ".hidden", "en_US"]);
    let b = dirs(&["en_US", "zz_ZZ", "en_US", "aa_AA"]);
    assert_eq!(VernacularContext::available_locales(&a), VernacularContext::available_locales(&b));
}

#[test]
fn loading_a_locale_leaves_other_locales() {
    let mut ctx = VernacularContext::new();
    ctx.complete_load(
        &LoadStep::RootCsvs,
        DirListing::Files(vec![file("r", "a.csv", "locale,en_US,fr_FR\nk,en root,fr root\n")]),
    );
    ctx.complete_load(&LoadStep::Locale("en_US".to_string()), DirListing::Files(vec![file("d", "a.csv", "k,en file\n")]));
    assert_eq!(&*ctx.localize("k"), "en file");
    assert!(ctx.set_locale("fr_FR"));
    assert_eq!(&*ctx.localize("k"), "fr root");
}

#[test]
fn setting_a_locale_owes_at_most_two_steps() {
    let mut ctx = VernacularContext::new();
    assert!(!ctx.set_locale(""));
    assert_eq!(ctx.current_locale(), None);
    assert!(ctx.set_locale("de_DE"));
    assert!(!ctx.set_locale(""));
    assert_eq!(ctx.current_locale().as_deref(), Some("de_DE"));
    let mut steps = 0;
    while let Some(step) = ctx.next_load_for_locale("de_DE") {
        ctx.complete_load(&step, missing());
        steps += 1;
    }
    assert_eq!(steps, 2);
    assert_eq!(ctx.next_load_for_locale("de_DE"), None);
}

#[test]
fn nothing_owed_means_everything_loaded() {
    let mut ctx = VernacularContext::new();
    ctx.set_locale("fr_FR");
    let mut seen = Vec::new();
    while let Some(step) = ctx.next_load_for_lookup() {
        seen.push(step.clone());
        ctx.complete_load(&step, missing());
    }
    assert_eq!(
        seen,
        vec![LoadStep::RootCsvs, LoadStep::Locale("fr_FR".to_string()), LoadStep::Locale("en_US".to_string())]
    );
    assert_eq!(ctx.next_load_for_locale("fr_FR"), None);
    assert_eq!(ctx.next_load_for_locale("en_US"), None);
}
