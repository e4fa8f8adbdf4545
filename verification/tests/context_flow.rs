use std::sync::Arc;
use vernacular::source::{DirListing, LoadStep, SourceFile};
use vernacular::VernacularContext;

/// An in-memory directory tree: directory path, then file names and contents.
struct Disk {
    dirs: Vec<(String, Vec<(String, Vec<u8>)>)>,
}

impl Disk {
    fn new() -> Disk {
        Disk { dirs: Vec::new() }
    }

    fn file(mut self, dir: &str, name: &str, content: &str) -> Disk {
        match self.dirs.iter_mut().find(|(d, _)| d == dir) {
            Some((_, files)) => files.push((name.to_string(), content.as_bytes().to_vec())),
            None => self.dirs.push((
                dir.to_string(),
                vec![(name.to_string(), content.as_bytes().to_vec())],
            )),
        }
        self
    }

    fn dir(mut self, dir: &str) -> Disk {
        if !self.dirs.iter().any(|(d, _)| d == dir) {
            self.dirs.push((dir.to_string(), Vec::new()));
        }
        self
    }

    fn list(&self, dir: &str) -> DirListing {
        match self.dirs.iter().find(|(d, _)| d == dir) {
            Some((_, files)) => DirListing::Files(
                files
                    .iter()
                    .map(|(name, bytes)| SourceFile {
                        name: name.clone(),
                        path: format!("{}/{}", dir, name),
                        content: Ok(bytes.clone()),
                    })
                    .collect(),
            ),
            None => DirListing::Failed {
                error: std::io::Error::new(std::io::ErrorKind::NotFound, "no such directory"),
                not_found: true,
            },
        }
    }

    /// The entries directly in `root`: its subdirectories, then its files.
    fn locales(&self, root: &str) -> Vec<(String, bool)> {
        let prefix = format!("{}/", root);
        let mut entries: Vec<(String, bool)> = self
            .dirs
            .iter()
            .filter_map(|(d, _)| d.strip_prefix(&prefix).map(|s| s.to_string()))
            .filter(|s| !s.contains('/'))
            .map(|s| (s, true))
            .collect();
        if let Some((_, files)) = self.dirs.iter().find(|(d, _)| d == root) {
            entries.extend(files.iter().map(|(name, _)| (name.clone(), false)));
        }
        entries
    }
}

fn dir_of(ctx: &VernacularContext, step: &LoadStep) -> String {
    match step {
        LoadStep::RootCsvs => ctx.content_path(),
        LoadStep::Locale(l) => format!("{}/{}", ctx.content_path(), l),
    }
}

fn load_for_lookup(ctx: &mut VernacularContext, disk: &Disk) {
    while let Some(step) = ctx.next_load_for_lookup() {
        let listing = disk.list(&dir_of(ctx, &step));
        ctx.complete_load(&step, listing);
    }
}

fn set_locale(ctx: &mut VernacularContext, disk: &Disk, locale: &str) {
    if ctx.set_locale(locale) {
        while let Some(step) = ctx.next_load_for_locale(locale) {
            let listing = disk.list(&dir_of(ctx, &step));
            ctx.complete_load(&step, listing);
        }
    }
}

fn loc(ctx: &mut VernacularContext, disk: &Disk, key: &str) -> Arc<String> {
    load_for_lookup(ctx, disk);
    ctx.localize(key)
}

fn loc_fmt(ctx: &mut VernacularContext, disk: &Disk, key: &str, args: &[&str]) -> String {
    load_for_lookup(ctx, disk);
    ctx.localize_fmt(key, args)
}

fn try_reload(ctx: &mut VernacularContext, disk: &Disk) -> usize {
    let root = ctx.content_path();
    let names = disk.locales(&root);
    let locales = VernacularContext::available_locales(&names);
    let listings = locales
        .into_iter()
        .map(|l| {
            let listing = disk.list(&format!("{}/{}", root, l));
            (l, listing)
        })
        .collect();
    match ctx.try_reload(disk.list(&root), Ok(listings)) {
        Ok(()) => 0,
        Err(e) => e.len(),
    }
}

/// The sample data of the README.
fn samples() -> Disk {
    Disk::new()
        .file(
            "samples",
            "items.csv",
            "locale,en_US,ja_JP\nitems.sword,Iron Sword,鉄の剣\nitems.shield,Wooden Shield,木の盾\n",
        )
        .file(
            "samples/en_US",
            "ui.ron",
            "{\n    \"ui.main_menu.start_game\": \"Start Game\",\n    \"dialogue.greetings\": \"Hello there, {}!\",\n}\n",
        )
        .file(
            "samples/ja_JP",
            "ui.ron",
            "{\n    \"ui.main_menu.start_game\": \"ゲーム開始\",\n    \"dialogue.greetings\": \"こんにちは、{}様！\",\n}\n",
        )
}

/// The bundled assets: the README samples and a locale of Unicode texts.
fn assets() -> Disk {
    Disk::new()
        .file(
            "assets/loc",
            "items.csv",
            "locale,en_US,ja_JP\nitems.sword,Iron Sword,鉄の剣\n",
        )
        .file(
            "assets/loc/en_US",
            "ui.ron",
            "{\"ui.main_menu.start_game\": \"Start Game\", \"dialogue.greetings\": \"Hello there, {}!\"}",
        )
        .file(
            "assets/loc/ja_JP",
            "ui.ron",
            "{\"ui.main_menu.start_game\": \"ゲーム開始\"}",
        )
        .file(
            "assets/loc/unicode",
            "ui.ron",
            "{\"ui.🌟.start\": \"Start 🌟 Game\", \"ui.arabic\": \"مرحبا\", \"ui.cjk\": \"你好，世界\", \"ui.template.unicode\": \"Hello {0}, you have {1} 💖\"}",
        )
}

#[test]
fn test_localization_flow_owned() {
    let disk = samples();
    let mut ctx = VernacularContext::new();
    ctx.set_content_path("samples");

    // 1. Fallback to en_US and RON loading
    assert_eq!(&*loc(&mut ctx, &disk, "ui.main_menu.start_game"), "Start Game");

    // 2. CSV loading
    assert_eq!(&*loc(&mut ctx, &disk, "items.sword"), "Iron Sword");

    // 3. Argument replacement
    assert_eq!(loc_fmt(&mut ctx, &disk, "dialogue.greetings", &["Alice"]), "Hello there, Alice!");

    // 4. Change locale
    set_locale(&mut ctx, &disk, "ja_JP");

    // 5. Test new locale
    assert_eq!(&*loc(&mut ctx, &disk, "ui.main_menu.start_game"), "ゲーム開始");
    assert_eq!(&*loc(&mut ctx, &disk, "items.sword"), "鉄の剣");
    assert_eq!(loc_fmt(&mut ctx, &disk, "dialogue.greetings", &["Bob"]), "こんにちは、Bob様！");

    // 6. Test reload drops cache and reloads
    ctx.reload();
    assert_eq!(&*loc(&mut ctx, &disk, "ui.main_menu.start_game"), "ゲーム開始");
}

#[test]
fn test_ron_overwrites_csv_owned() {
    let disk = Disk::new()
        .file("tmp", "overrides.csv", "locale,en_US\nitems.sword,\"Sword from CSV\"")
        .file("tmp/en_US", "overrides.ron", "{\"items.sword\": \"Sword from RON\"}");
    let mut ctx = VernacularContext::new();
    ctx.set_content_path("tmp");
    assert_eq!(
        &*loc(&mut ctx, &disk, "items.sword"),
        "Sword from RON",
        "RON value should overwrite the CSV value."
    );
}

#[test]
fn test_set_content_path_invalidates_cache() {
    let disk = samples();
    let mut ctx = VernacularContext::new();

    // Start with a bad path — lookup will try to load and fail silently.
    ctx.set_content_path("/nonexistent/bad/path");
    assert_eq!(
        &*loc(&mut ctx, &disk, "ui.main_menu.start_game"),
        "ui.main_menu.start_game",
        "Should return raw key for missing content path."
    );

    // Now set the correct path — cache should be invalidated and re-loaded.
    ctx.set_content_path("samples");
    assert_eq!(
        &*loc(&mut ctx, &disk, "ui.main_menu.start_game"),
        "Start Game",
        "Should return translated value after fixing the content path."
    );
}

#[test]
fn test_deterministic_file_load_order() {
    // b.ron is listed first, but sorts after a.ron, so its value wins.
    let disk = Disk::new()
        .dir("tmp")
        .file("tmp/en_US", "b.ron", "{\"greeting\": \"from B\"}")
        .file("tmp/en_US", "a.ron", "{\"greeting\": \"from A\"}");
    let mut ctx = VernacularContext::new();
    ctx.set_content_path("tmp");
    assert_eq!(
        &*loc(&mut ctx, &disk, "greeting"),
        "from B",
        "Alphabetically later file should overwrite earlier one."
    );
}

#[test]
fn test_per_key_fallback() {
    let disk = Disk::new()
        .dir("tmp")
        .file("tmp/en_US", "ui.ron", "{\"greeting\": \"Hello\", \"farewell\": \"Goodbye\"}")
        .file("tmp/ja_JP", "ui.ron", "{\"greeting\": \"こんにちは\"}");
    let mut ctx = VernacularContext::new();
    ctx.set_content_path("tmp");
    set_locale(&mut ctx, &disk, "ja_JP");

    assert_eq!(&*loc(&mut ctx, &disk, "greeting"), "こんにちは");
    assert_eq!(
        &*loc(&mut ctx, &disk, "farewell"),
        "Goodbye",
        "Missing key should fall back to fallback locale."
    );
    assert_eq!(&*loc(&mut ctx, &disk, "nonexistent"), "nonexistent");
}

#[test]
fn test_per_key_fallback_fmt() {
    let disk = Disk::new().dir("tmp").file("tmp/en_US", "ui.ron", "{\"greeting\": \"Hello {0}\"}");
    let mut ctx = VernacularContext::new();
    ctx.set_content_path("tmp");

    assert_eq!(loc_fmt(&mut ctx, &disk, "greeting", &["Bob"]), "Hello Bob");
    assert_eq!(loc_fmt(&mut ctx, &disk, "missing", &["Bob"]), "missing");
}

#[test]
fn test_set_locale_empty() {
    let disk = Disk::new();
    let mut ctx = VernacularContext::new();
    set_locale(&mut ctx, &disk, "ja_JP");
    assert_eq!(ctx.current_locale().as_deref(), Some("ja_JP"));

    // Setting empty string should be ignored
    set_locale(&mut ctx, &disk, "");
    assert_eq!(ctx.current_locale().as_deref(), Some("ja_JP"));
}

#[test]
fn test_malformed_csv_does_not_panic() {
    let disk = Disk::new().file("tmp", "global.csv", "locale,en_US\n\nkey,value");
    let mut ctx = VernacularContext::new();
    ctx.set_content_path("tmp");
    set_locale(&mut ctx, &disk, "en_US");
    assert_eq!(&*loc(&mut ctx, &disk, "key"), "value");
}

#[test]
fn test_try_reload_validates_and_aggregates_errors() {
    let disk = Disk::new()
        .dir("tmp")
        .file("tmp/en_US", "valid.ron", "{\"good\": \"yes\"}")
        .file("tmp/en_US", "bad.ron", "{\"bad\": oops")
        .file("tmp/ja_JP", "bad.ron", "{ invalid }");
    let mut ctx = VernacularContext::new();
    ctx.set_content_path("tmp");

    assert_eq!(try_reload(&mut ctx, &disk), 2, "Should aggregate 2 errors from 2 broken files");
    assert_eq!(&*loc(&mut ctx, &disk, "good"), "yes", "Valid data should still be loaded");
}

#[test]
fn test_set_fallback_locale_lazy_loads_mid_session() {
    let disk = Disk::new()
        .dir("tmp")
        .file("tmp/en_US", "ui.ron", "{\"greet\": \"Hello\"}")
        .file("tmp/es_ES", "ui.ron", "{\"greet\": \"Hola\"}");
    let mut ctx = VernacularContext::new();
    ctx.set_content_path("tmp");
    set_locale(&mut ctx, &disk, "ja_JP");

    assert_eq!(&*loc(&mut ctx, &disk, "greet"), "Hello", "Defaults to en_US fallback");

    ctx.set_fallback_locale("es_ES");
    assert_eq!(
        &*loc(&mut ctx, &disk, "greet"),
        "Hola",
        "Switches to es_ES fallback without manual reload"
    );
}

#[test]
fn test_available_locales() {
    let entries = vec![
        ("zz_ZZ".to_string(), true),
        ("aa_AA".to_string(), true),
        ("en_US".to_string(), true),
        // Files shouldn't be counted
        ("global.csv".to_string(), false),
    ];
    let locales = VernacularContext::available_locales(&entries);
    assert_eq!(locales, vec!["aa_AA", "en_US", "zz_ZZ"], "Should discover sorted valid directories only");
}

#[test]
fn test_escaped_braces() {
    let disk = Disk::new().dir("tmp").file(
        "tmp/en_US",
        "ui.ron",
        "{\"json\": \"{{\\\"key\\\": \\\"value\\\"}}\", \"mixed\": \"{} {{escaped}} {}\"}",
    );
    let mut ctx = VernacularContext::new();
    ctx.set_content_path("tmp");
    set_locale(&mut ctx, &disk, "en_US");

    assert_eq!(
        loc_fmt(&mut ctx, &disk, "mixed", &["A", "B"]),
        "A {escaped} B",
        "Mixed escaped and normal arguments should work"
    );
}

#[test]
fn test_arc_memory_release() {
    let disk = assets();
    let val = {
        let mut ctx = VernacularContext::new();
        ctx.set_content_path("assets/loc");
        set_locale(&mut ctx, &disk, "en_US");
        let val = loc(&mut ctx, &disk, "ui.main_menu.start_game");
        assert!(Arc::strong_count(&val) > 1);
        val
    };

    assert_eq!(Arc::strong_count(&val), 1);
}

#[test]
fn test_unicode_keys_and_templates() {
    let disk = assets();
    let mut ctx = VernacularContext::new();
    ctx.set_content_path("assets/loc");
    set_locale(&mut ctx, &disk, "unicode");

    assert_eq!(&*loc(&mut ctx, &disk, "ui.🌟.start"), "Start 🌟 Game");
    assert_eq!(&*loc(&mut ctx, &disk, "ui.arabic"), "مرحبا");
    assert_eq!(&*loc(&mut ctx, &disk, "ui.cjk"), "你好，世界");

    assert_eq!(
        &*loc_fmt(&mut ctx, &disk, "ui.template.unicode", &["Alice", "5"]),
        "Hello Alice, you have 5 💖"
    );
}

#[test]
fn test_error_chain_preserved() {
    let disk = Disk::new()
        .dir("tmp")
        .file("tmp/en_US", "bad.ron", "{ \"missing_colon\" \"value\" }");
    let mut ctx = VernacularContext::new();
    ctx.set_content_path("tmp");

    let root = ctx.content_path();
    let names = disk.locales(&root);
    let listings = VernacularContext::available_locales(&names)
        .into_iter()
        .map(|l| {
            let listing = disk.list(&format!("{}/{}", root, l));
            (l, listing)
        })
        .collect();
    let errs = ctx.try_reload(disk.list(&root), Ok(listings)).unwrap_err();
    assert_eq!(errs.len(), 1);

    let outer_err = &errs.errors()[0];
    // Outer error should be Parse, naming the file.
    match outer_err {
        vernacular::error::VernacularError::Parse(vernacular::error::ParseFailure::File(file_err)) => {
            assert_eq!(file_err.path(), "tmp/en_US/bad.ron");
            // The file error's source is the inner parse error.
            assert!(matches!(
                file_err.source(),
                vernacular::error::VernacularError::Parse(vernacular::error::ParseFailure::Ron(_))
            ));
        }
        _ => panic!("expected a parse error of a file"),
    }
}
