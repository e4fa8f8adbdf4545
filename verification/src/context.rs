//! The localization context: its settings, its tables of parsed translations,
//! the loading state, and the lookups over them.
use vstd::prelude::*;
use std::sync::Arc;
use vstd::utf8::encode_utf8;
use crate::model::{TemplatePart, TranslationEntry, entry_wf, render, arg_texts};
use crate::strmap::{StrMap, pairs_map, distinct_keys, lemma_pairs_map};
use crate::text::{same_text, text_lt, text_less, lemma_text_order};
use vstd::string::StrSliceExecFns;
use crate::error::{VernacularError, AggregateError, Cause, ErrorShape, shapes_of, shape_of};
use crate::parsing::csv::{csv_records, lined, unified_tables, locale_table, parse_unified, parse_locale};
use crate::parsing::ron::{ron_string_map, ron_table, decoded};
use crate::parsing;
use crate::source::{SourceFile, DirListing, LoadStep, step_view, selected, select_files, partition_files, csv_suffix, ron_suffix};

verus! {

/// What a parsed entry holds: text, template, source path, line.
pub type EntryView = (Seq<char>, Seq<TemplatePart>, Seq<char>, nat);

/// Translations by locale, then by key.
pub type Tables = Map<Seq<char>, Map<Seq<char>, EntryView>>;

/// A map of locales to their translated entries.
pub type LocaleMap = StrMap<StrMap<TranslationEntry>>;

/// Each locale's table is well formed.
pub open spec fn tables_ok() -> spec_fn(StrMap<TranslationEntry>) -> bool {
    |t: StrMap<TranslationEntry>| t.wf()
}

/// Every entry of the tables is well formed.
pub open spec fn entries_wf(t: Tables) -> bool {
    forall|l: Seq<char>, k: Seq<char>|
        #![trigger t[l][k]]
        t.contains_key(l) && t[l].contains_key(k) ==> entry_wf(t[l][k])
}

/// Every entry of one table is well formed.
pub open spec fn table_entries_wf(m: Map<Seq<char>, EntryView>) -> bool {
    forall|k: Seq<char>| #[trigger] m.contains_key(k) ==> entry_wf(m[k])
}

/// A map of locales whose keys, tables and entries are well formed.
pub open spec fn locale_map_wf(m: &LocaleMap) -> bool {
    &&& m.wf()
    &&& m.values_all(tables_ok())
    &&& entries_wf(m@)
}

/// The table of `l` in `t`, or an empty one.
pub open spec fn table_or_empty(t: Tables, l: Seq<char>) -> Map<Seq<char>, EntryView> {
    if t.contains_key(l) {
        t[l]
    } else {
        Map::empty()
    }
}

/// `t` after the entries of `m` were merged into the table of `l`, new entries winning.
pub open spec fn merge_into(t: Tables, l: Seq<char>, m: Map<Seq<char>, EntryView>) -> Tables {
    t.insert(l, table_or_empty(t, l).union_prefer_right(m))
}

/// `t` after every table of `d` was merged into the table of the same locale.
pub open spec fn merge_all(t: Tables, d: Tables) -> Tables {
    Map::new(
        |l: Seq<char>| t.contains_key(l) || d.contains_key(l),
        |l: Seq<char>|
            if d.contains_key(l) {
                table_or_empty(t, l).union_prefer_right(d[l])
            } else {
                t[l]
            },
    )
}

/// Merges the entries of `new_entries` into `table`, later entries replacing earlier ones.
fn merge_entries(table: &mut StrMap<TranslationEntry>, new_entries: StrMap<TranslationEntry>)
    requires
        old(table).wf(),
        new_entries.wf(),
    ensures
        final(table).wf(),
        final(table)@ == old(table)@.union_prefer_right(new_entries@),
{
    let ghost base = table@;
    let entries = new_entries.into_entries();
    let ghost s = entries@;
    let n = entries.len();
    let mut rest = entries;
    let mut i: usize = 0;
    proof {
        assert(rest@ =~= s.skip(0));
        assert(pairs_map(s.take(0)) =~= Map::<Seq<char>, EntryView>::empty());
        assert(base.union_prefer_right(Map::empty()) =~= base);
    }
    while i < n
        invariant
            n == s.len(),
            i <= n,
            table.wf(),
            rest@ == s.skip(i as int),
            table@ == base.union_prefer_right(pairs_map(s.take(i as int))),
        decreases n - i,
    {
        let (k, e) = rest.remove(0);
        proof {
            assert(s.take(i + 1).drop_last() =~= s.take(i as int));
            assert(s.take(i + 1).last() == s[i as int]);
            assert(s[i as int] == (k, e));
            assert(rest@ =~= s.skip(i + 1));
        }
        table.insert(k, e);
        i += 1;
        proof {
            assert(table@ =~= base.union_prefer_right(pairs_map(s.take(i as int))));
        }
    }
    proof {
        assert(s.take(n as int) =~= s);
    }
}

/// What a root CSV file adds: its tables, or `None` when it cannot be read or parsed.
pub open spec fn root_file_tables(f: SourceFile) -> Option<Tables> {
    match f.content {
        Ok(b) => match csv_records(b@) {
            Some(recs) => Some(unified_tables(lined(b@, recs), f.path@)),
            None => None,
        },
        Err(_) => None,
    }
}

/// What a locale's CSV (`ron == false`) or RON (`ron == true`) file adds to its
/// table, or `None` when it cannot be read or parsed.
pub open spec fn locale_file_table(f: SourceFile, ron: bool) -> Option<Map<Seq<char>, EntryView>> {
    match f.content {
        Ok(b) => if !ron {
            match csv_records(b@) {
                Some(recs) => Some(locale_table(lined(b@, recs), f.path@)),
                None => None,
            }
        } else {
            match decoded(b@) {
                Some(text) => match ron_string_map(text) {
                    Some(m) => Some(ron_table(m, f.path@)),
                    None => None,
                },
                None => None,
            }
        },
        Err(_) => None,
    }
}

/// Why a file that adds nothing failed: reading it, or the reader of its format.
pub open spec fn file_cause(f: SourceFile, ron: bool) -> Cause {
    match f.content {
        Ok(b) => if !ron {
            Cause::Csv
        } else if decoded(b@) is None {
            Cause::Io
        } else {
            Cause::Ron
        },
        Err(_) => Cause::Io,
    }
}

/// The tables after merging the root CSV files `fs`, in order.
pub open spec fn root_fold(t: Tables, fs: Seq<SourceFile>) -> Tables
    decreases fs.len(),
{
    if fs.len() == 0 {
        t
    } else {
        let t1 = root_fold(t, fs.drop_last());
        match root_file_tables(fs.last()) {
            Some(d) => merge_all(t1, d),
            None => t1,
        }
    }
}

/// The tables after merging the files `fs` of locale `l`, in order.
pub open spec fn locale_fold(t: Tables, l: Seq<char>, fs: Seq<SourceFile>, ron: bool) -> Tables
    decreases fs.len(),
{
    if fs.len() == 0 {
        t
    } else {
        let t1 = locale_fold(t, l, fs.drop_last(), ron);
        match locale_file_table(fs.last(), ron) {
            Some(m) => merge_into(t1, l, m),
            None => t1,
        }
    }
}

/// The errors of the files `fs`: one per file that adds nothing, naming it.
pub open spec fn file_shapes(fs: Seq<SourceFile>, ron: bool, root: bool) -> Seq<ErrorShape>
    decreases fs.len(),
{
    if fs.len() == 0 {
        seq![]
    } else {
        let e = file_shapes(fs.drop_last(), ron, root);
        let f = fs.last();
        let fails = if root { root_file_tables(f) is None } else { locale_file_table(f, ron) is None };
        if fails {
            e.push((Some(f.path@), file_cause(f, ron)))
        } else {
            e
        }
    }
}

/// The tables after loading the root directory: its CSV files in name order.
pub open spec fn root_load(t: Tables, listing: DirListing) -> Tables {
    match listing {
        DirListing::Files(fs) => root_fold(t, selected(fs@, csv_suffix())),
        DirListing::Failed { .. } => t,
    }
}

/// The errors of loading the root directory.
pub open spec fn root_load_shapes(listing: DirListing) -> Seq<ErrorShape> {
    match listing {
        DirListing::Files(fs) => file_shapes(selected(fs@, csv_suffix()), false, true),
        DirListing::Failed { .. } => seq![(None::<Seq<char>>, Cause::Io)],
    }
}

/// The tables after loading the directory of locale `l`: its CSV files in name
/// order, then its RON files in name order.
pub open spec fn locale_load(t: Tables, l: Seq<char>, listing: DirListing) -> Tables {
    match listing {
        DirListing::Files(fs) => locale_fold(
            locale_fold(t, l, selected(fs@, csv_suffix()), false),
            l,
            selected(fs@, ron_suffix()),
            true,
        ),
        DirListing::Failed { .. } => t,
    }
}

/// The errors of loading the directory of a locale; a missing directory is none.
pub open spec fn locale_load_shapes(listing: DirListing) -> Seq<ErrorShape> {
    match listing {
        DirListing::Files(fs) => file_shapes(selected(fs@, csv_suffix()), false, false)
            + file_shapes(selected(fs@, ron_suffix()), true, false),
        DirListing::Failed { not_found, .. } => if not_found {
            seq![]
        } else {
            seq![(None::<Seq<char>>, Cause::Io)]
        },
    }
}

/// The tables after loading each locale directory of `ls`, in order.
pub open spec fn locales_fold(t: Tables, ls: Seq<(String, DirListing)>) -> Tables
    decreases ls.len(),
{
    if ls.len() == 0 {
        t
    } else {
        locale_load(locales_fold(t, ls.drop_last()), ls.last().0@, ls.last().1)
    }
}

/// The errors of loading each locale directory of `ls`, in order.
pub open spec fn locales_shapes(ls: Seq<(String, DirListing)>) -> Seq<ErrorShape>
    decreases ls.len(),
{
    if ls.len() == 0 {
        seq![]
    } else {
        locales_shapes(ls.drop_last()) + locale_load_shapes(ls.last().1)
    }
}

/// The locales that `ls` names.
pub open spec fn listed_locales(ls: Seq<(String, DirListing)>) -> Set<Seq<char>> {
    ls.map_values(|p: (String, DirListing)| p.0@).to_set()
}

/// The next directory a locale's loading owes: the root CSVs first, then the
/// locale's own directory.
pub open spec fn owed_for_locale(root_loaded: bool, loaded: Set<Seq<char>>, l: Seq<char>) -> Option<Option<Seq<char>>> {
    if !root_loaded {
        Some(None)
    } else if !loaded.contains(l) {
        Some(Some(l))
    } else {
        None
    }
}

/// The view of an optional step.
pub open spec fn opt_step_view(s: Option<LoadStep>) -> Option<Option<Seq<char>>> {
    match s {
        Some(st) => Some(step_view(st)),
        None => None,
    }
}

/// Appending an error appends its shape.
proof fn lemma_shapes_push(es: Seq<VernacularError>, e: VernacularError)
    ensures
        shapes_of(es.push(e)) == shapes_of(es).push(shape_of(e)),
{
    assert(shapes_of(es.push(e)) =~= shapes_of(es).push(shape_of(e)));
}

/// `.csv` as bytes.
fn csv_ext() -> (r: [u8; 4])
    ensures
        r@ == csv_suffix(),
{
    let r: [u8; 4] = [46, 99, 115, 118];
    proof {
        assert(r@ =~= csv_suffix());
    }
    r
}


/// A directory name that starts with a dot is hidden.
pub open spec fn is_hidden(name: Seq<char>) -> bool {
    name.len() > 0 && name[0] == '.'
}

/// The names of `names` that are not hidden.
pub open spec fn visible_names(names: Seq<Seq<char>>) -> Set<Seq<char>> {
    Set::new(|n: Seq<char>| names.contains(n) && !is_hidden(n))
}

/// The names of the entries that are directories, in order.
pub open spec fn dir_names(entries: Seq<(Seq<char>, bool)>) -> Seq<Seq<char>>
    decreases entries.len(),
{
    if entries.len() == 0 {
        seq![]
    } else {
        let d = dir_names(entries.drop_last());
        if entries.last().1 {
            d.push(entries.last().0)
        } else {
            d
        }
    }
}

fn directory_names(entries: &Vec<(String, bool)>) -> (r: Vec<String>)
    ensures
        r.deep_view() == dir_names(entries.deep_view()),
{
    let ghost ents = entries.deep_view();
    let mut out: Vec<String> = Vec::new();
    let n = entries.len();
    let mut i: usize = 0;
    proof {
        assert(ents.take(0) =~= Seq::<(Seq<char>, bool)>::empty());
    }
    while i < n
        invariant
            ents == entries.deep_view(),
            n == ents.len(),
            i <= n,
            out.deep_view() == dir_names(ents.take(i as int)),
        decreases n - i,
    {
        proof {
            assert(ents.take(i + 1).drop_last() =~= ents.take(i as int));
            assert(ents.take(i + 1).last() == ents[i as int]);
            assert(entries[i as int].0@ == ents[i as int].0);
        }
        if entries[i].1 {
            let ghost before = out.deep_view();
            out.push(entries[i].0.clone());
            proof {
                assert(out.deep_view() =~= before.push(ents[i as int].0));
            }
        }
        i += 1;
    }
    proof {
        assert(ents.take(n as int) =~= ents);
    }
    out
}

/// What the first `i + 1` names hold: the first `i`, and the next one.
proof fn lemma_take_push_contains(names: Seq<Seq<char>>, i: int)
    requires
        0 <= i < names.len(),
    ensures
        forall|x: Seq<char>|
            #[trigger] names.take(i + 1).contains(x) <==> (names.take(i).contains(x) || x == names[i]),
{
    let t0 = names.take(i);
    let t1 = names.take(i + 1);
    assert forall|x: Seq<char>| #[trigger] t1.contains(x) <==> (t0.contains(x) || x == names[i]) by {
        if t1.contains(x) {
            let k = choose|k: int| 0 <= k < t1.len() && t1[k] == x;
            if k < i {
                assert(t0[k] == x);
            }
        }
        if t0.contains(x) {
            let k = choose|k: int| 0 <= k < t0.len() && t0[k] == x;
            assert(t1[k] == x);
        }
        if x == names[i] {
            assert(t1[i] == x);
        }
    }
}

/// Each text sorts strictly before the next ones.
pub open spec fn strictly_sorted(s: Seq<Seq<char>>) -> bool {
    forall|i: int, j: int| 0 <= i < j < s.len() ==> text_lt(#[trigger] s[i], #[trigger] s[j])
}

/// The localization context: settings, parsed tables and loading state.
///
/// It reads no files itself: a lookup needs the directories that
/// [`VernacularContext::next_load_for_lookup`] names, read and handed to
/// [`VernacularContext::complete_load`].
#[derive(Debug)]
pub struct VernacularContext {
    current_locale: Option<String>,
    fallback_locale: String,
    content_path: String,
    translations: LocaleMap,
    csvs_loaded: bool,
    locales_loaded: StrMap<()>,
}

/// The default content path is `"assets/loc"` (relative to the working directory).
/// No locale is set by default; the fallback locale (`en_US`) is used until
/// [`VernacularContext::set_locale`] is called.
impl Default for VernacularContext {
    fn default() -> (r: Self)
        ensures
            r.wf(),
            r.current() is None,
            r.fallback() == crate::FALLBACK_LOCALE@,
            r.path() == "assets/loc"@,
            r.tables() == Tables::empty(),
            !r.root_loaded(),
            r.loaded() == Set::<Seq<char>>::empty(),
    {
        VernacularContext::new()
    }
}

impl VernacularContext {
    /// The active locale, if one was set.
    pub closed spec fn current(&self) -> Option<Seq<char>> {
        match self.current_locale {
            Some(l) => Some(l@),
            None => None,
        }
    }

    /// The locale that lookups fall back to.
    pub closed spec fn fallback(&self) -> Seq<char> {
        self.fallback_locale@
    }

    /// The directory that translation files are read from.
    pub closed spec fn path(&self) -> Seq<char> {
        self.content_path@
    }

    /// The parsed translations.
    pub closed spec fn tables(&self) -> Tables {
        self.translations@
    }

    /// Whether the root CSV files have been loaded.
    pub closed spec fn root_loaded(&self) -> bool {
        self.csvs_loaded
    }

    /// The locales whose directories have been loaded.
    pub closed spec fn loaded(&self) -> Set<Seq<char>> {
        self.locales_loaded@.dom()
    }

    pub closed spec fn wf(&self) -> bool {
        &&& locale_map_wf(&self.translations)
        &&& self.locales_loaded.wf()
        &&& !self.csvs_loaded ==> self.locales_loaded@.dom() == Set::<Seq<char>>::empty()
    }

    /// A locale's directory is only ever loaded after the root CSV files.
    pub proof fn lemma_root_before_locales(&self)
        requires
            self.wf(),
        ensures
            !self.root_loaded() ==> self.loaded() == Set::<Seq<char>>::empty(),
    {
    }

    /// The locale a lookup reads first: the current one, else the fallback.
    pub open spec fn active(&self) -> Seq<char> {
        match self.current() {
            Some(l) => l,
            None => self.fallback(),
        }
    }

    /// The entry a lookup of `key` finds: in the active locale, else in the
    /// fallback locale when that differs.
    pub open spec fn lookup(&self, key: Seq<char>) -> Option<EntryView> {
        let t = self.tables();
        let l = self.active();
        let f = self.fallback();
        if t.contains_key(l) && t[l].contains_key(key) {
            Some(t[l][key])
        } else if l != f && t.contains_key(f) && t[f].contains_key(key) {
            Some(t[f][key])
        } else {
            None
        }
    }

    /// The next directory a lookup owes, as plain values; `None` when nothing is owed.
    pub open spec fn owed_for_lookup(&self) -> Option<Option<Seq<char>>> {
        let l = self.active();
        let f = self.fallback();
        if !self.loaded().contains(l) {
            owed_for_locale(self.root_loaded(), self.loaded(), l)
        } else if l != f && !self.loaded().contains(f) {
            owed_for_locale(self.root_loaded(), self.loaded(), f)
        } else {
            None
        }
    }

    /// What a lookup finds in a well-formed context is a well-formed entry.
    pub proof fn lemma_lookup_wf(&self, key: Seq<char>)
        requires
            self.wf(),
        ensures
            self.lookup(key) matches Some(e) ==> entry_wf(e),
    {
    }

    pub fn new() -> (r: Self)
        ensures
            r.wf(),
            r.current() is None,
            r.fallback() == crate::FALLBACK_LOCALE@,
            r.path() == "assets/loc"@,
            r.tables() == Tables::empty(),
            !r.root_loaded(),
            r.loaded() == Set::<Seq<char>>::empty(),
    {
        let translations: LocaleMap = StrMap::new();
        let locales_loaded: StrMap<()> = StrMap::new();
        proof {
            assert(locale_map_wf(&translations));
        }
        VernacularContext {
            current_locale: None,
            fallback_locale: crate::FALLBACK_LOCALE.to_owned(),
            content_path: "assets/loc".to_owned(),
            translations,
            csvs_loaded: false,
            locales_loaded,
        }
    }

    /// Returns the currently active locale (e.g. `"ja_JP"`), or `None` if none was set.
    pub fn current_locale(&self) -> (r: Option<String>)
        ensures
            match r {
                Some(s) => self.current() == Some(s@),
                None => self.current() is None,
            },
    {
        match &self.current_locale {
            Some(l) => Some(l.clone()),
            None => None,
        }
    }

    /// Returns the fallback locale used for missing-key lookups.
    pub fn fallback_locale(&self) -> (r: String)
        ensures
            r@ == self.fallback(),
    {
        self.fallback_locale.clone()
    }

    /// Returns the current content path.
    pub fn content_path(&self) -> (r: String)
        ensures
            r@ == self.path(),
    {
        self.content_path.clone()
    }

    /// Clears all cached load state so that the next lookup re-reads from disk.
    fn invalidate_cache(&mut self)
        requires
            old(self).wf(),
        ensures
            final(self).wf(),
            final(self).tables() == Tables::empty(),
            !final(self).root_loaded(),
            final(self).loaded() == Set::<Seq<char>>::empty(),
            final(self).current() == old(self).current(),
            final(self).fallback() == old(self).fallback(),
            final(self).path() == old(self).path(),
    {
        self.translations = StrMap::new();
        self.locales_loaded = StrMap::new();
        self.csvs_loaded = false;
    }

    /// Sets the root directory where translation files are located.
    ///
    /// This invalidates all cached translations so that the next lookup
    /// re-reads from disk using the new path.
    pub fn set_content_path(&mut self, path: &str)
        requires
            old(self).wf(),
        ensures
            final(self).wf(),
            final(self).path() == path@,
            final(self).tables() == Tables::empty(),
            !final(self).root_loaded(),
            final(self).loaded() == Set::<Seq<char>>::empty(),
            final(self).current() == old(self).current(),
            final(self).fallback() == old(self).fallback(),
    {
        self.content_path = path.to_owned();
        self.invalidate_cache();
    }

    /// Sets the fallback locale, used for per-key fallback when a key is
    /// missing from the current locale. It is not loaded here: the next lookup
    /// that needs it asks for it.
    pub fn set_fallback_locale(&mut self, locale: &str)
        requires
            old(self).wf(),
        ensures
            final(self).wf(),
            final(self).fallback() == locale@,
            final(self).current() == old(self).current(),
            final(self).path() == old(self).path(),
            final(self).tables() == old(self).tables(),
            final(self).root_loaded() == old(self).root_loaded(),
            final(self).loaded() == old(self).loaded(),
    {
        self.fallback_locale = locale.to_owned();
    }

    /// Sets the active locale. An empty locale is ignored. Returns whether the
    /// locale was taken; its files are then owed, see [`Self::next_load_for_locale`].
    pub fn set_locale(&mut self, locale: &str) -> (accepted: bool)
        requires
            old(self).wf(),
        ensures
            final(self).wf(),
            accepted == (locale@.len() > 0),
            final(self).current() == (if accepted { Some(locale@) } else { old(self).current() }),
            final(self).fallback() == old(self).fallback(),
            final(self).path() == old(self).path(),
            final(self).tables() == old(self).tables(),
            final(self).root_loaded() == old(self).root_loaded(),
            final(self).loaded() == old(self).loaded(),
    {
        if locale.is_empty() {
            return false;
        }
        self.current_locale = Some(locale.to_owned());
        true
    }

    /// Forcefully clears all parsed dictionaries, so that everything is read again.
    /// The current locale's files are then owed, see [`Self::next_load_for_locale`].
    pub fn reload(&mut self)
        requires
            old(self).wf(),
        ensures
            final(self).wf(),
            final(self).tables() == Tables::empty(),
            !final(self).root_loaded(),
            final(self).loaded() == Set::<Seq<char>>::empty(),
            final(self).current() == old(self).current(),
            final(self).fallback() == old(self).fallback(),
            final(self).path() == old(self).path(),
    {
        self.invalidate_cache();
    }

    /// Merges new entries into the table of `locale`.
    fn merge_locale_data(&mut self, locale: &str, new_entries: StrMap<TranslationEntry>)
        requires
            old(self).wf(),
            new_entries.wf(),
            table_entries_wf(new_entries@),
        ensures
            final(self).wf(),
            final(self).tables() == merge_into(old(self).tables(), locale@, new_entries@),
            final(self).current() == old(self).current(),
            final(self).fallback() == old(self).fallback(),
            final(self).path() == old(self).path(),
            final(self).root_loaded() == old(self).root_loaded(),
            final(self).loaded() == old(self).loaded(),
    {
        let ghost t0 = self.translations@;
        let mut table = match self.translations.remove(locale) {
            Some(t) => t,
            None => StrMap::new(),
        };
        proof {
            assert(table@ == table_or_empty(t0, locale@));
        }
        merge_entries(&mut table, new_entries);
        self.translations.insert(locale.to_owned(), table);
        proof {
            let t1 = self.translations@;
            assert(t1 =~= merge_into(t0, locale@, new_entries@));
            assert forall|l: Seq<char>, k: Seq<char>|
                t1.contains_key(l) && t1[l].contains_key(k) implies entry_wf(#[trigger] t1[l][k]) by {
                if l != locale@ {
                    assert(t1[l] == t0[l]);
                } else if new_entries@.contains_key(k) {
                } else {
                    assert(t0[l][k] == t1[l][k]);
                }
            }
        }
    }

    /// Merges every table of `data` into the table of the same locale.
    fn merge_data(&mut self, data: LocaleMap)
        requires
            old(self).wf(),
            locale_map_wf(&data),
        ensures
            final(self).wf(),
            final(self).tables() == merge_all(old(self).tables(), data@),
            final(self).current() == old(self).current(),
            final(self).fallback() == old(self).fallback(),
            final(self).path() == old(self).path(),
            final(self).root_loaded() == old(self).root_loaded(),
            final(self).loaded() == old(self).loaded(),
    {
        let ghost t0 = self.translations@;
        let ghost d = data@;
        let entries = data.into_entries();
        let ghost s = entries@;
        proof {
            lemma_pairs_map(s);
            assert(merge_all(t0, pairs_map(s.take(0))) =~= t0) by {
                assert(pairs_map(s.take(0)) =~= Tables::empty());
            }
        }
        let n = entries.len();
        let mut rest = entries;
        let mut i: usize = 0;
        proof {
            assert(rest@ =~= s.skip(0));
        }
        while i < n
            invariant
                n == s.len(),
                i <= n,
                self.wf(),
                distinct_keys(s),
                pairs_map(s) == d,
                forall|j: int| 0 <= j < s.len() ==> (#[trigger] s[j]).1.wf(),
                entries_wf(d),
                rest@ == s.skip(i as int),
                self.tables() == merge_all(t0, pairs_map(s.take(i as int))),
                self.current() == old(self).current(),
                self.fallback() == old(self).fallback(),
                self.path() == old(self).path(),
                self.root_loaded() == old(self).root_loaded(),
                self.loaded() == old(self).loaded(),
            decreases n - i,
        {
            let (l, table) = rest.remove(0);
            let ghost before = self.tables();
            proof {
                assert(s[i as int] == (l, table));
                assert(rest@ =~= s.skip(i + 1));
                assert(s.take(i + 1).drop_last() =~= s.take(i as int));
                assert(s.take(i + 1).last() == s[i as int]);
                lemma_pairs_map(s);
                lemma_pairs_map(s.take(i as int));
                assert(distinct_keys(s.take(i as int)));
                assert(!pairs_map(s.take(i as int)).contains_key(l@)) by {
                    if pairs_map(s.take(i as int)).contains_key(l@) {
                        let j = choose|j: int| 0 <= j < i && s.take(i as int)[j].0@ == l@;
                        assert(s[j].0@ == s[i as int].0@);
                    }
                }
                assert(d[l@] == table@);
                assert(table_entries_wf(table@)) by {
                    assert forall|k: Seq<char>| #[trigger] table@.contains_key(k) implies entry_wf(table@[k]) by {
                        assert(d[l@][k] == table@[k]);
                    }
                }
            }
            self.merge_locale_data(l.as_str(), table);
            i += 1;
            proof {
                let di = pairs_map(s.take(i as int));
                assert(self.tables() =~= merge_all(t0, di));
            }
        }
        proof {
            assert(s.take(n as int) =~= s);
        }
    }

    /// Merges the root CSV files `files`, in order, and collects the errors of
    /// those that cannot be read or parsed.
    fn load_root_files(&mut self, files: Vec<SourceFile>, errors: &mut Vec<VernacularError>)
        requires
            old(self).wf(),
        ensures
            final(self).wf(),
            final(self).tables() == root_fold(old(self).tables(), files@),
            shapes_of(final(errors)@) == shapes_of(old(errors)@) + file_shapes(files@, false, true),
            final(self).current() == old(self).current(),
            final(self).fallback() == old(self).fallback(),
            final(self).path() == old(self).path(),
            final(self).root_loaded() == old(self).root_loaded(),
            final(self).loaded() == old(self).loaded(),
    {
        let ghost s = files@;
        let ghost t0 = self.tables();
        let ghost e0 = shapes_of(errors@);
        let n = files.len();
        let mut rest = files;
        let mut i: usize = 0;
        proof {
            assert(rest@ =~= s.skip(0));
            assert(s.take(0) =~= Seq::<SourceFile>::empty());
            assert(e0 + file_shapes(s.take(0), false, true) =~= e0);
        }
        while i < n
            invariant
                n == s.len(),
                i <= n,
                rest@ == s.skip(i as int),
                self.wf(),
                self.tables() == root_fold(t0, s.take(i as int)),
                shapes_of(errors@) == e0 + file_shapes(s.take(i as int), false, true),
                self.current() == old(self).current(),
                self.fallback() == old(self).fallback(),
                self.path() == old(self).path(),
                self.root_loaded() == old(self).root_loaded(),
                self.loaded() == old(self).loaded(),
            decreases n - i,
        {
            let f = rest.remove(0);
            proof {
                assert(s[i as int] == f);
                assert(rest@ =~= s.skip(i + 1));
                assert(s.take(i + 1).drop_last() =~= s.take(i as int));
                assert(s.take(i + 1).last() == f);
            }
            let ghost es = errors@;
            let SourceFile { name: _, path, content } = f;
            match content {
                Ok(bytes) => match parse_unified(path.as_str(), bytes.as_slice()) {
                    Ok(data) => {
                        self.merge_data(data);
                    },
                    Err(e) => {
                        let err = VernacularError::in_file(path.as_str(), e);
                        errors.push(err);
                        proof {
                            lemma_shapes_push(es, err);
                        }
                    },
                },
                Err(ioe) => {
                    let err = VernacularError::in_file(path.as_str(), VernacularError::io(ioe));
                    errors.push(err);
                    proof {
                        lemma_shapes_push(es, err);
                    }
                },
            }
            i += 1;
            proof {
                assert(shapes_of(errors@) =~= e0 + file_shapes(s.take(i as int), false, true));
            }
        }
        proof {
            assert(s.take(n as int) =~= s);
        }
    }

    /// Merges the files `files` of `locale`, CSV or RON as `ron` tells, in
    /// order, and collects the errors of those that cannot be read or parsed.
    fn load_locale_files(
        &mut self,
        locale: &str,
        files: Vec<SourceFile>,
        ron: bool,
        errors: &mut Vec<VernacularError>,
    )
        requires
            old(self).wf(),
        ensures
            final(self).wf(),
            final(self).tables() == locale_fold(old(self).tables(), locale@, files@, ron),
            shapes_of(final(errors)@) == shapes_of(old(errors)@) + file_shapes(files@, ron, false),
            final(self).current() == old(self).current(),
            final(self).fallback() == old(self).fallback(),
            final(self).path() == old(self).path(),
            final(self).root_loaded() == old(self).root_loaded(),
            final(self).loaded() == old(self).loaded(),
    {
        let ghost s = files@;
        let ghost t0 = self.tables();
        let ghost e0 = shapes_of(errors@);
        let n = files.len();
        let mut rest = files;
        let mut i: usize = 0;
        proof {
            assert(rest@ =~= s.skip(0));
            assert(s.take(0) =~= Seq::<SourceFile>::empty());
            assert(e0 + file_shapes(s.take(0), ron, false) =~= e0);
        }
        while i < n
            invariant
                n == s.len(),
                i <= n,
                rest@ == s.skip(i as int),
                self.wf(),
                self.tables() == locale_fold(t0, locale@, s.take(i as int), ron),
                shapes_of(errors@) == e0 + file_shapes(s.take(i as int), ron, false),
                self.current() == old(self).current(),
                self.fallback() == old(self).fallback(),
                self.path() == old(self).path(),
                self.root_loaded() == old(self).root_loaded(),
                self.loaded() == old(self).loaded(),
            decreases n - i,
        {
            let f = rest.remove(0);
            proof {
                assert(s[i as int] == f);
                assert(rest@ =~= s.skip(i + 1));
                assert(s.take(i + 1).drop_last() =~= s.take(i as int));
                assert(s.take(i + 1).last() == f);
            }
            let ghost es = errors@;
            let SourceFile { name: _, path, content } = f;
            match content {
                Ok(bytes) => {
                    let parsed = if ron {
                        parsing::ron::parse(path.as_str(), bytes.as_slice())
                    } else {
                        parse_locale(path.as_str(), bytes.as_slice())
                    };
                    match parsed {
                        Ok(table) => {
                            self.merge_locale_data(locale, table);
                        },
                        Err(e) => {
                            let err = VernacularError::in_file(path.as_str(), e);
                            errors.push(err);
                            proof {
                                lemma_shapes_push(es, err);
                            }
                        },
                    }
                },
                Err(ioe) => {
                    let err = VernacularError::in_file(path.as_str(), VernacularError::io(ioe));
                    errors.push(err);
                    proof {
                        lemma_shapes_push(es, err);
                    }
                },
            }
            i += 1;
            proof {
                assert(shapes_of(errors@) =~= e0 + file_shapes(s.take(i as int), ron, false));
            }
        }
        proof {
            assert(s.take(n as int) =~= s);
        }
    }

    /// Loads the root directory's CSV files, in name order.
    fn load_root(&mut self, listing: DirListing) -> (errors: Vec<VernacularError>)
        requires
            old(self).wf(),
        ensures
            final(self).wf(),
            final(self).tables() == root_load(old(self).tables(), listing),
            shapes_of(errors@) == root_load_shapes(listing),
            final(self).current() == old(self).current(),
            final(self).fallback() == old(self).fallback(),
            final(self).path() == old(self).path(),
            final(self).root_loaded() == old(self).root_loaded(),
            final(self).loaded() == old(self).loaded(),
    {
        let mut errors: Vec<VernacularError> = Vec::new();
        let ghost l = listing;
        match listing {
            DirListing::Failed { error, not_found: _ } => {
                errors.push(VernacularError::io(error));
                proof {
                    assert(shapes_of(errors@) =~= root_load_shapes(l));
                }
            },
            DirListing::Files(files) => {
                let ext = csv_ext();
                let chosen = select_files(files, &ext);
                self.load_root_files(chosen, &mut errors);
                proof {
                    assert(shapes_of(Seq::<VernacularError>::empty()) =~= Seq::<ErrorShape>::empty());
                    assert(shapes_of(errors@) =~= root_load_shapes(l));
                }
            },
        }
        errors
    }

    /// Loads a locale's directory: its CSV files in name order, then its RON files.
    fn load_locale_dir(&mut self, locale: &str, listing: DirListing) -> (errors: Vec<VernacularError>)
        requires
            old(self).wf(),
        ensures
            final(self).wf(),
            final(self).tables() == locale_load(old(self).tables(), locale@, listing),
            shapes_of(errors@) == locale_load_shapes(listing),
            final(self).current() == old(self).current(),
            final(self).fallback() == old(self).fallback(),
            final(self).path() == old(self).path(),
            final(self).root_loaded() == old(self).root_loaded(),
            final(self).loaded() == old(self).loaded(),
    {
        let mut errors: Vec<VernacularError> = Vec::new();
        let ghost l = listing;
        match listing {
            DirListing::Failed { error, not_found } => {
                if !not_found {
                    errors.push(VernacularError::io(error));
                }
                proof {
                    assert(shapes_of(errors@) =~= locale_load_shapes(l));
                }
            },
            DirListing::Files(files) => {
                let ghost fs = files@;
                let (csvs, rons) = partition_files(files);
                proof {
                    assert(shapes_of(Seq::<VernacularError>::empty()) =~= Seq::<ErrorShape>::empty());
                }
                self.load_locale_files(locale, csvs, false, &mut errors);
                self.load_locale_files(locale, rons, true, &mut errors);
                proof {
                    assert(shapes_of(errors@) =~= locale_load_shapes(l));
                }
            },
        }
        errors
    }

    /// Records a directory that was read: merges what its files hold and marks
    /// the root or the locale as loaded, whatever failed. Returns the errors of
    /// the listing and of each file that cannot be read or parsed.
    pub fn complete_load(&mut self, step: &LoadStep, listing: DirListing) -> (errors: Vec<VernacularError>)
        requires
            old(self).wf(),
            step_view(*step) is Some ==> old(self).root_loaded(),
        ensures
            final(self).wf(),
            final(self).current() == old(self).current(),
            final(self).fallback() == old(self).fallback(),
            final(self).path() == old(self).path(),
            match step_view(*step) {
                None => {
                    &&& final(self).tables() == root_load(old(self).tables(), listing)
                    &&& shapes_of(errors@) == root_load_shapes(listing)
                    &&& final(self).root_loaded()
                    &&& final(self).loaded() == old(self).loaded()
                },
                Some(l) => {
                    &&& final(self).tables() == locale_load(old(self).tables(), l, listing)
                    &&& shapes_of(errors@) == locale_load_shapes(listing)
                    &&& final(self).root_loaded() == old(self).root_loaded()
                    &&& final(self).loaded() == old(self).loaded().insert(l)
                },
            },
    {
        match step {
            LoadStep::RootCsvs => {
                let errors = self.load_root(listing);
                self.csvs_loaded = true;
                errors
            },
            LoadStep::Locale(locale) => {
                let errors = self.load_locale_dir(locale.as_str(), listing);
                self.locales_loaded.insert(locale.clone(), ());
                errors
            },
        }
    }

    /// The next directory that loading `locale` owes: the root CSVs when they
    /// are not loaded, then the locale's directory when it is not loaded.
    pub fn next_load_for_locale(&self, locale: &str) -> (r: Option<LoadStep>)
        requires
            self.wf(),
        ensures
            opt_step_view(r) == owed_for_locale(self.root_loaded(), self.loaded(), locale@),
    {
        if !self.csvs_loaded {
            Some(LoadStep::RootCsvs)
        } else if !self.locales_loaded.contains_key(locale) {
            Some(LoadStep::Locale(locale.to_owned()))
        } else {
            None
        }
    }

    /// The next directory that a lookup owes: what loading the active locale
    /// owes, then what loading the fallback locale owes when it differs.
    pub fn next_load_for_lookup(&self) -> (r: Option<LoadStep>)
        requires
            self.wf(),
        ensures
            opt_step_view(r) == self.owed_for_lookup(),
    {
        let locale: &String = match &self.current_locale {
            Some(l) => l,
            None => &self.fallback_locale,
        };
        if !self.locales_loaded.contains_key(locale.as_str()) {
            self.next_load_for_locale(locale.as_str())
        } else if !same_text(locale.as_str(), self.fallback_locale.as_str())
            && !self.locales_loaded.contains_key(self.fallback_locale.as_str()) {
            self.next_load_for_locale(self.fallback_locale.as_str())
        } else {
            None
        }
    }

    /// Strictly validates all files and returns aggregated errors.
    ///
    /// Clears the cache, loads the root CSVs from `root` and each locale
    /// directory of `locales` (the directories that
    /// [`Self::available_locales`] found, each with its listing), and
    /// aggregates the errors; a failure to list the locales is one more. It
    /// marks everything as loaded regardless of partial failures.
    pub fn try_reload(
        &mut self,
        root: DirListing,
        locales: Result<Vec<(String, DirListing)>, std::io::Error>,
    ) -> (r: Result<(), AggregateError>)
        requires
            old(self).wf(),
        ensures
            final(self).wf(),
            final(self).current() == old(self).current(),
            final(self).fallback() == old(self).fallback(),
            final(self).path() == old(self).path(),
            final(self).root_loaded(),
            match locales {
                Ok(ls) => {
                    &&& final(self).tables() == locales_fold(root_load(Tables::empty(), root), ls@)
                    &&& final(self).loaded() == listed_locales(ls@)
                },
                Err(_) => {
                    &&& final(self).tables() == root_load(Tables::empty(), root)
                    &&& final(self).loaded() == Set::<Seq<char>>::empty()
                },
            },
            ({
                let shapes = match locales {
                    Ok(ls) => root_load_shapes(root) + locales_shapes(ls@),
                    Err(_) => root_load_shapes(root).push((None::<Seq<char>>, Cause::Io)),
                };
                match r {
                    Ok(_) => shapes.len() == 0,
                    Err(agg) => shapes.len() > 0 && shapes_of(agg@) == shapes,
                }
            }),
    {
        let ghost root_l = root;
        let ghost locs = locales;
        self.invalidate_cache();
        let mut errors = self.load_root(root);
        self.csvs_loaded = true;
        let ghost t1 = self.tables();
        let ghost s1 = shapes_of(errors@);
        match locales {
            Ok(list) => {
                let ghost ls = list@;
                let n = list.len();
                let mut rest = list;
                let mut i: usize = 0;
                proof {
                    assert(rest@ =~= ls.skip(0));
                    assert(ls.take(0) =~= Seq::<(String, DirListing)>::empty());
                    assert(s1 + locales_shapes(ls.take(0)) =~= s1);
                    assert(listed_locales(ls.take(0)) =~= Set::<Seq<char>>::empty());
                }
                while i < n
                    invariant
                        n == ls.len(),
                        i <= n,
                        rest@ == ls.skip(i as int),
                        self.wf(),
                        self.root_loaded(),
                        self.tables() == locales_fold(t1, ls.take(i as int)),
                        self.loaded() == listed_locales(ls.take(i as int)),
                        shapes_of(errors@) == s1 + locales_shapes(ls.take(i as int)),
                        self.current() == old(self).current(),
                        self.fallback() == old(self).fallback(),
                        self.path() == old(self).path(),
                    decreases n - i,
                {
                    let (locale, listing) = rest.remove(0);
                    proof {
                        assert(ls[i as int] == (locale, listing));
                        assert(rest@ =~= ls.skip(i + 1));
                        assert(ls.take(i + 1).drop_last() =~= ls.take(i as int));
                        assert(ls.take(i + 1).last() == ls[i as int]);
                    }
                    let ghost before = errors@;
                    let mut more = self.load_locale_dir(locale.as_str(), listing);
                    let ghost added = more@;
                    errors.append(&mut more);
                    self.locales_loaded.insert(locale, ());
                    i += 1;
                    proof {
                        assert(shapes_of(errors@) =~= shapes_of(before) + shapes_of(added));
                        assert(shapes_of(errors@) =~= s1 + locales_shapes(ls.take(i as int)));
                        let names = ls.take(i as int).map_values(|p: (String, DirListing)| p.0@);
                        let prev = ls.take(i - 1).map_values(|p: (String, DirListing)| p.0@);
                        assert(names =~= prev.push(ls[i - 1].0@));
                        assert(listed_locales(ls.take(i as int)) =~= listed_locales(ls.take(i - 1)).insert(ls[i - 1].0@)) by {
                            prev.lemma_push_to_set_commute(ls[i - 1].0@);
                        }
                    }
                }
                proof {
                    assert(ls.take(n as int) =~= ls);
                }
            },
            Err(e) => {
                let ghost before = errors@;
                errors.push(VernacularError::io(e));
                proof {
                    lemma_shapes_push(before, errors@.last());
                    assert(errors@ =~= before.push(errors@.last()));
                }
            },
        }
        if errors.len() == 0 {
            Ok(())
        } else {
            Err(AggregateError::new(errors))
        }
    }

    /// The locales among the entries of the content path, each a name and
    /// whether it is a directory: the names of the directories that do not
    /// start with a dot, each once, sorted.
    pub fn available_locales(entries: &Vec<(String, bool)>) -> (r: Vec<String>)
        ensures
            strictly_sorted(r.deep_view()),
            r.deep_view().to_set() == visible_names(dir_names(entries.deep_view())),
    {
        let names = directory_names(entries);
        Self::sorted_visible(&names)
    }

    /// The names that do not start with a dot, each once, sorted.
    fn sorted_visible(dir_names: &Vec<String>) -> (r: Vec<String>)
        ensures
            strictly_sorted(r.deep_view()),
            r.deep_view().to_set() == visible_names(dir_names.deep_view()),
    {
        let ghost names = dir_names.deep_view();
        let mut out: Vec<String> = Vec::new();
        let n = dir_names.len();
        let mut i: usize = 0;
        proof {
            assert(out.deep_view().to_set() =~= visible_names(names.take(0)));
        }
        while i < n
            invariant
                names == dir_names.deep_view(),
                n == names.len(),
                i <= n,
                strictly_sorted(out.deep_view()),
                out.deep_view().to_set() == visible_names(names.take(i as int)),
            decreases n - i,
        {
            let name = &dir_names[i];
            let ghost nv = names[i as int];
            proof {
                assert(name@ == nv);
                assert(names.take(i + 1) =~= names.take(i as int).push(nv));
            }
            let hidden = !name.as_str().is_empty() && name.as_str().get_char(0) == '.';
            if !hidden {
                let ghost before = out.deep_view();
                let mut p: usize = 0;
                while p < out.len() && text_less(out[p].as_str(), name.as_str())
                    invariant
                        before == out.deep_view(),
                        p <= out@.len(),
                        forall|j: int| 0 <= j < p ==> text_lt(#[trigger] before[j], nv),
                        name@ == nv,
                    decreases out@.len() - p,
                {
                    p += 1;
                }
                if p < out.len() && same_text(out[p].as_str(), name.as_str()) {
                    proof {
                        assert(before[p as int] == nv);
                        lemma_take_push_contains(names, i as int);
                        assert(before.to_set().contains(nv));
                        assert(visible_names(names.take(i + 1)) =~= visible_names(names.take(i as int)));
                    }
                } else {
                    out.insert(p, name.clone());
                    proof {
                        let after = out.deep_view();
                        assert(after =~= before.take(p as int).push(nv) + before.skip(p as int));
                        if p < before.len() {
                            lemma_text_order(before[p as int], nv, nv);
                            assert(!text_lt(before[p as int], nv));
                            assert(text_lt(nv, before[p as int]));
                        }
                        assert forall|a: int, b: int| 0 <= a < b < after.len() implies text_lt(#[trigger] after[a], #[trigger] after[b]) by {
                            if a < p && b < p {
                                assert(after[a] == before[a] && after[b] == before[b]);
                            } else if a < p && b == p {
                                assert(after[a] == before[a]);
                            } else if a < p && b > p {
                                assert(after[a] == before[a] && after[b] == before[b - 1]);
                            } else if a == p {
                                assert(after[b] == before[b - 1]);
                                if b - 1 > p {
                                    lemma_text_order(nv, before[p as int], before[b - 1]);
                                }
                            } else {
                                assert(after[a] == before[a - 1] && after[b] == before[b - 1]);
                            }
                        }
                        assert(after.to_set() =~= before.to_set().insert(nv)) by {
                            assert forall|x: Seq<char>| after.to_set().contains(x) <==> before.to_set().insert(nv).contains(x) by {
                                if after.to_set().contains(x) {
                                    let k = choose|k: int| 0 <= k < after.len() && after[k] == x;
                                    if k < p {
                                        assert(before[k] == x);
                                    } else if k > p {
                                        assert(before[k - 1] == x);
                                    }
                                }
                                if before.to_set().contains(x) {
                                    let k = choose|k: int| 0 <= k < before.len() && before[k] == x;
                                    if k < p {
                                        assert(after[k] == x);
                                    } else {
                                        assert(after[k + 1] == x);
                                    }
                                }
                                if x == nv {
                                    assert(after[p as int] == x);
                                }
                            }
                        }
                        assert(!is_hidden(nv));
                        lemma_take_push_contains(names, i as int);
                        assert(visible_names(names.take(i + 1)) =~= visible_names(names.take(i as int)).insert(nv));
                    }
                }
            } else {
                proof {
                    assert(is_hidden(nv));
                    lemma_take_push_contains(names, i as int);
                    assert(visible_names(names.take(i + 1)) =~= visible_names(names.take(i as int)));
                }
            }
            i += 1;
        }
        proof {
            assert(names.take(n as int) =~= names);
        }
        out
    }

    /// The entry that a lookup of `key` finds, without loading anything.
    pub fn entry(&self, key: &str) -> (r: Option<&TranslationEntry>)
        requires
            self.wf(),
        ensures
            match r {
                Some(e) => self.lookup(key@) == Some(e@) && entry_wf(e@),
                None => self.lookup(key@) is None,
            },
    {
        let locale: &String = match &self.current_locale {
            Some(l) => l,
            None => &self.fallback_locale,
        };
        if let Some(table) = self.translations.get(locale.as_str()) {
            if let Some(entry) = table.get(key) {
                return Some(entry);
            }
        }
        if !same_text(locale.as_str(), self.fallback_locale.as_str()) {
            if let Some(table) = self.translations.get(self.fallback_locale.as_str()) {
                if let Some(entry) = table.get(key) {
                    return Some(entry);
                }
            }
        }
        None
    }

    /// Returns the localized string for `key`, or the raw key if not found.
    ///
    /// Falls back to the fallback locale if the key is missing from the
    /// current locale. Reads only what is loaded.
    pub fn localize(&self, key: &str) -> (r: Arc<String>)
        requires
            self.wf(),
        ensures
            r@ == match self.lookup(key@) {
                Some(e) => e.0,
                None => key@,
            },
    {
        match self.entry(key) {
            Some(e) => share_text(&e.value),
            None => Arc::new(key.to_owned()),
        }
    }

    /// Returns the localized, formatted string for `key` with positional arguments,
    /// or the raw key if not found.
    ///
    /// Template placeholders like `{}` and `{0}` are replaced with the provided `args`;
    /// a placeholder without an argument is written as `{N}`.
    pub fn localize_fmt(&self, key: &str, args: &[&str]) -> (r: String)
        requires
            self.wf(),
        ensures
            r@ == match self.lookup(key@) {
                Some(e) => render(encode_utf8(e.0), e.1, arg_texts(args@)),
                None => key@,
            },
    {
        match self.entry(key) {
            Some(e) => e.format(args),
            None => key.to_owned(),
        }
    }

    /// Returns `true` if the given key exists in the current locale or the fallback locale.
    pub fn has_key(&self, key: &str) -> (r: bool)
        requires
            self.wf(),
        ensures
            r == self.lookup(key@) is Some,
    {
        self.entry(key).is_some()
    }
}

/// Another handle on a shared text.
#[verifier::external_body]
fn share_text(s: &Arc<String>) -> (r: Arc<String>)
    ensures
        r@ == s@,
{
    Arc::clone(s)
}

} // verus!
