//! CSV translation files: "unified" root files with one column per locale,
//! and per-locale `key,value` files.
use vstd::prelude::*;
use crate::context::{LocaleMap, Tables, EntryView, locale_map_wf, tables_ok, table_entries_wf};
use crate::error::{VernacularError, Cause, shape_of};
use crate::model::{TranslationEntry, entry_view};
use crate::strmap::StrMap;
use crate::text::{trim, trimmed, same_text};

verus! {

/// A record as the `csv` crate hands it out: where reading it began (byte offset
/// and line, from `StringRecord::position`), and its fields.
pub type RawRecordView = (Option<(u64, u64)>, Seq<Seq<char>>);

/// A record read from a CSV file, as the reader hands it out.
pub type RawRecord = (Option<(u64, u64)>, Vec<String>);

/// A record with the line of the file it starts on, and its fields.
pub type RecordView = (usize, Seq<Seq<char>>);

/// A record with the line of the file it starts on, and its fields.
pub type Record = (usize, Vec<String>);

/// The records that the `csv` crate reads from `bytes` (no header row, every
/// field as text, each with the position where reading it began), or `None`
/// where it reports an error.
pub uninterp spec fn csv_records(bytes: Seq<u8>) -> Option<Seq<RawRecordView>>;

/// Reads `content` with `csv::ReaderBuilder::new().has_headers(false)` and
/// returns each record's position (byte offset and line) and fields, stopping
/// at the first error the reader reports. The records are named by
/// `csv_records`; nothing more is claimed of them.
#[verifier::external_body]
fn read_records(content: &[u8]) -> (r: Result<Vec<RawRecord>, ::csv::Error>)
    ensures
        r is Ok <==> csv_records(content@) is Some,
        r matches Ok(rows) ==> rows.deep_view() == csv_records(content@).unwrap(),
{
    let mut reader = ::csv::ReaderBuilder::new().has_headers(false).from_reader(content);
    let mut rows = Vec::new();
    for record in reader.records() {
        let record = record?;
        let position = record.position().map(|p| (p.byte(), p.line()));
        rows.push((position, record.iter().map(|field| field.to_string()).collect()));
    }
    Ok(rows)
}

/// The number of line feeds in the run of `\r` and `\n` bytes that starts at
/// byte `i`: the empty lines passed over before a record's first field.
pub open spec fn skipped_newlines(content: Seq<u8>, i: int) -> nat
    decreases content.len() - i,
{
    if 0 <= i < content.len() && (content[i] == 13u8 || content[i] == 10u8) {
        (if content[i] == 10u8 { 1nat } else { 0nat }) + skipped_newlines(content, i + 1)
    } else {
        0
    }
}

/// The line of `content` that a record starts on: the line where reading it
/// began, past the empty lines before its first field (`usize::MAX` where that
/// does not fit), or 0 where the reader gave no position.
pub open spec fn start_line(content: Seq<u8>, pos: Option<(u64, u64)>) -> usize {
    match pos {
        Some((b, l)) => {
            let n = l + skipped_newlines(content, b as int);
            if n <= usize::MAX {
                n as usize
            } else {
                usize::MAX
            }
        },
        None => 0,
    }
}

/// The records of `content` with the line each starts on.
pub open spec fn lined(content: Seq<u8>, recs: Seq<RawRecordView>) -> Seq<RecordView> {
    recs.map_values(|r: RawRecordView| (start_line(content, r.0), r.1))
}

/// The line of `content` that a record read from position `pos` starts on.
fn record_line(content: &[u8], pos: Option<(u64, u64)>) -> (r: usize)
    ensures
        r == start_line(content@, pos),
{
    match pos {
        None => 0,
        Some((b, l)) => {
            let n = content.len();
            let mut i: usize = if b < n as u64 {
                b as usize
            } else {
                n
            };
            let mut total: u64 = l;
            let ghost mut acc: nat = l as nat;
            while i < n && (content[i] == 13u8 || content[i] == 10u8)
                invariant
                    n == content@.len(),
                    i <= n,
                    b as int <= i || (i == n && b as int >= n),
                    acc + skipped_newlines(content@, i as int) == l + skipped_newlines(content@, b as int),
                    total as int == if acc <= u64::MAX { acc as int } else { u64::MAX as int },
                decreases n - i,
            {
                if content[i] == 10u8 {
                    total = total.saturating_add(1);
                    proof {
                        acc = acc + 1;
                    }
                }
                i += 1;
            }
            if total > usize::MAX as u64 {
                usize::MAX
            } else {
                total as usize
            }
        },
    }
}

/// The records with the line of `content` that each starts on.
pub fn start_lines(content: &[u8], raw: Vec<RawRecord>) -> (r: Vec<Record>)
    ensures
        r.deep_view() == lined(content@, raw.deep_view()),
{
    let ghost rv = raw.deep_view();
    let mut out: Vec<Record> = Vec::new();
    for rec in it: raw.into_iter()
        invariant
            it.seq().len() == rv.len(),
            forall|j: int| 0 <= j < rv.len() ==> #[trigger] it.seq()[j].deep_view() == rv[j],
            out.deep_view() == lined(content@, rv.take(it.index())),
    {
        let ghost k = it.index();
        proof {
            assert(rec == it.seq()[k]);
            assert(rec.deep_view() == rv[k]);
        }
        let ghost prev = out@;
        let (pos, fields) = rec;
        let line = record_line(content, pos);
        let ghost fv = fields.deep_view();
        proof {
            assert(pos == rv[k].0 && fv == rv[k].1);
            assert(out.deep_view().len() == prev.len());
            assert(k < rv.len());
            assert(rv.take(k).len() == k);
        }
        out.push((line, fields));
        proof {
            let want = lined(content@, rv.take(k + 1));
            let before = lined(content@, rv.take(k));
            assert(out@.len() == k + 1);
            assert forall|j: int| 0 <= j < k + 1 implies #[trigger] out.deep_view()[j] == want[j] by {
                assert(out.deep_view()[j] == out@[j].deep_view());
                if j < k {
                    assert(out@[j] == prev[j]);
                    assert(prev.map_values(|x: Record| x.deep_view())[j] == before[j]);
                    assert(rv.take(k + 1)[j] == rv.take(k)[j]);
                } else {
                    assert(out@[j] == (line, fields));
                }
            }
            assert(out.deep_view() =~= want);
        }
    }
    proof {
        assert(rv.take(rv.len() as int) =~= rv);
    }
    out
}

/// The tables named by a unified header: one empty table per locale column.
pub open spec fn header_tables(locales: Seq<Seq<char>>) -> Tables {
    Map::new(|l: Seq<char>| locales.contains(l), |l: Seq<char>| Map::<Seq<char>, EntryView>::empty())
}

/// `t` after the first `c` locale columns of a unified row were stored: a
/// column's cell is stored under the row's key when it is not empty, trimmed.
pub open spec fn apply_cells(
    t: Tables,
    locales: Seq<Seq<char>>,
    row: Seq<Seq<char>>,
    path: Seq<char>,
    line: nat,
    c: int,
) -> Tables
    decreases c,
{
    if c <= 0 {
        t
    } else {
        let t1 = apply_cells(t, locales, row, path, line, c - 1);
        let i = c - 1;
        if i + 1 < row.len() && row[i + 1].len() > 0 && t1.contains_key(locales[i]) {
            t1.insert(locales[i], t1[locales[i]].insert(row[0], entry_view(trimmed(row[i + 1]), path, line)))
        } else {
            t1
        }
    }
}

/// The tables after the header and the records before index `n` of a unified
/// file; entries carry the line their record starts on.
pub open spec fn apply_rows(
    locales: Seq<Seq<char>>,
    recs: Seq<RecordView>,
    path: Seq<char>,
    n: int,
) -> Tables
    decreases n,
{
    if n <= 1 {
        header_tables(locales)
    } else {
        let t = apply_rows(locales, recs, path, n - 1);
        let row = recs[n - 1].1;
        if row.len() == 0 {
            t
        } else {
            apply_cells(t, locales, row, path, recs[n - 1].0 as nat, locales.len() as int)
        }
    }
}

/// The locale columns that a header row names: every field after the first.
pub open spec fn header_locales(header: Seq<Seq<char>>) -> Seq<Seq<char>> {
    if header.len() == 0 {
        seq![]
    } else {
        header.skip(1)
    }
}

/// What a unified CSV file holds: its first record names the locale columns
/// after the key column, each later record gives a key and its text per locale.
pub open spec fn unified_tables(recs: Seq<RecordView>, path: Seq<char>) -> Tables {
    if recs.len() == 0 {
        Map::empty()
    } else {
        apply_rows(header_locales(recs[0].1), recs, path, recs.len() as int)
    }
}

/// The tables of a unified CSV file, from its records.
pub fn unified_from_records(records: &Vec<Record>, path: &str) -> (r: LocaleMap)
    ensures
        locale_map_wf(&r),
        r@ == unified_tables(records.deep_view(), path@),
{
    let ghost recs = records.deep_view();
    let mut map: LocaleMap = StrMap::new();
    if records.len() == 0 {
        proof {
            assert(map@ =~= unified_tables(recs, path@));
        }
        return map;
    }
    let header = &records[0].1;
    let ghost hv = recs[0].1;
    let mut locales: Vec<String> = Vec::new();
    let mut c: usize = 1;
    proof {
        assert(map@ =~= header_tables(header_locales(hv).take(0)));
    }
    while c < header.len()
        invariant
            recs == records.deep_view(),
            hv == recs[0].1,
            header@.len() == hv.len(),
            forall|j: int| 0 <= j < hv.len() ==> #[trigger] header@[j]@ == hv[j],
            1 <= c,
            c - 1 <= header_locales(hv).len(),
            header@.len() > 0 ==> c <= header@.len(),
            locales@.len() == c - 1,
            forall|j: int| 0 <= j < c - 1 ==> #[trigger] locales@[j]@ == hv[j + 1],
            locale_map_wf(&map),
            map@ == header_tables(header_locales(hv).take(c - 1)),
        decreases header@.len() - c,
    {
        locales.push(header[c].clone());
        let empty: StrMap<TranslationEntry> = StrMap::new();
        map.insert(header[c].clone(), empty);
        c += 1;
        proof {
            let s_new = header_locales(hv).take(c - 1);
            let s_old = header_locales(hv).take(c - 2);
            assert(s_new =~= s_old.push(hv[c - 1]));
            assert(map@ =~= header_tables(s_new)) by {
                assert forall|l: Seq<char>| #[trigger] s_new.contains(l)
                    <==> (s_old.contains(l) || l == hv[c - 1]) by {
                    if s_new.contains(l) {
                        let j = choose|j: int| 0 <= j < s_new.len() && #[trigger] s_new[j] == l;
                        if j < c - 2 {
                            assert(s_old[j] == l);
                        }
                    }
                    if s_old.contains(l) {
                        let j = choose|j: int| 0 <= j < s_old.len() && #[trigger] s_old[j] == l;
                        assert(s_new[j] == l);
                    }
                    if l == hv[c - 1] {
                        assert(s_new[c - 2] == l);
                    }
                }
            }
        }
    }
    let ghost lv = header_locales(hv);
    proof {
        assert(header_locales(hv).take(c - 1) =~= lv);
        assert forall|j: int| 0 <= j < locales@.len() implies #[trigger] locales@[j]@ == lv[j] by {}
    }
    let n = records.len();
    let mut r: usize = 1;
    while r < n
        invariant
            recs == records.deep_view(),
            n == recs.len(),
            lv == header_locales(recs[0].1),
            locales@.len() == lv.len(),
            forall|j: int| 0 <= j < lv.len() ==> #[trigger] locales@[j]@ == lv[j],
            1 <= r <= n,
            locale_map_wf(&map),
            map@ == apply_rows(lv, recs, path@, r as int),
        decreases n - r,
    {
        let row = &records[r].1;
        let line = records[r].0;
        let ghost rv = recs[r as int].1;
        proof {
            assert(row@.len() == rv.len());
            assert(forall|j: int| 0 <= j < rv.len() ==> #[trigger] row@[j]@ == rv[j]);
            assert(line == recs[r as int].0);
        }
        if row.len() > 0 {
            let key = &row[0];
            let ghost base = map@;
            let mut i: usize = 0;
            while i < locales.len()
                invariant
                    recs == records.deep_view(),
                    rv == recs[r as int].1,
                    line == recs[r as int].0,
                    row@.len() == rv.len(),
                    rv.len() > 0,
                    forall|j: int| 0 <= j < rv.len() ==> #[trigger] row@[j]@ == rv[j],
                    key@ == rv[0],
                    locales@.len() == lv.len(),
                    forall|j: int| 0 <= j < lv.len() ==> #[trigger] locales@[j]@ == lv[j],
                    0 <= i <= locales@.len(),
                    r < n,
                    locale_map_wf(&map),
                    map@ == apply_cells(base, lv, rv, path@, line as nat, i as int),
                decreases locales@.len() - i,
            {
                if i + 1 < row.len() && !row[i + 1].as_str().is_empty() {
                    let val = trim(row[i + 1].as_str());
                    let entry = TranslationEntry::new(val, path.to_owned(), line);
                    let removed = map.remove(locales[i].as_str());
                    match removed {
                        Some(mut table) => {
                            proof {
                                assert(tables_ok()(table));
                            }
                            table.insert(key.clone(), entry);
                            map.insert(locales[i].clone(), table);
                        },
                        None => {},
                    }
                }
                i += 1;
                proof {
                    assert(map@ =~= apply_cells(base, lv, rv, path@, line as nat, i as int));
                }
            }
        }
        r += 1;
    }
    map
}

/// Whether the record at index `r` of a per-locale file is the `key,value`
/// header row that is skipped.
pub open spec fn is_key_value_header(row: Seq<Seq<char>>, r: int) -> bool {
    r == 0 && row[0] == "key"@ && row[1] == "value"@
}

/// The table after the records before index `n` of a per-locale file: a record
/// with at least two fields whose second field is not empty stores that field,
/// as it is, under its first; an empty cell is missing data.
pub open spec fn locale_rows(recs: Seq<RecordView>, path: Seq<char>, n: int) -> Map<
    Seq<char>,
    EntryView,
>
    decreases n,
{
    if n <= 0 {
        Map::empty()
    } else {
        let t = locale_rows(recs, path, n - 1);
        let row = recs[n - 1].1;
        if row.len() >= 2 && row[1].len() > 0 && !is_key_value_header(row, n - 1) {
            t.insert(row[0], entry_view(row[1], path, recs[n - 1].0 as nat))
        } else {
            t
        }
    }
}

/// What a per-locale CSV file holds.
pub open spec fn locale_table(recs: Seq<RecordView>, path: Seq<char>) -> Map<Seq<char>, EntryView> {
    locale_rows(recs, path, recs.len() as int)
}

/// The table of a per-locale CSV file, from its records.
pub fn locale_from_records(records: &Vec<Record>, path: &str) -> (r: StrMap<TranslationEntry>)
    ensures
        r.wf(),
        table_entries_wf(r@),
        r@ == locale_table(records.deep_view(), path@),
{
    proof {
        reveal_strlit("key");
        reveal_strlit("value");
    }
    let ghost recs = records.deep_view();
    let mut table: StrMap<TranslationEntry> = StrMap::new();
    let n = records.len();
    let mut r: usize = 0;
    while r < n
        invariant
            recs == records.deep_view(),
            n == recs.len(),
            r <= n,
            table.wf(),
            table_entries_wf(table@),
            table@ == locale_rows(recs, path@, r as int),
        decreases n - r,
    {
        let row = &records[r].1;
        let line = records[r].0;
        let ghost rv = recs[r as int].1;
        proof {
            assert(row@.len() == rv.len());
            assert(forall|j: int| 0 <= j < rv.len() ==> #[trigger] row@[j]@ == rv[j]);
            assert(line == recs[r as int].0);
            reveal_strlit("key");
            reveal_strlit("value");
        }
        if row.len() >= 2 && !row[1].as_str().is_empty() {
            let skip = r == 0 && same_text(row[0].as_str(), "key") && same_text(row[1].as_str(), "value");
            if !skip {
                let entry = TranslationEntry::new(row[1].clone(), path.to_owned(), line);
                table.insert(row[0].clone(), entry);
            }
        }
        r += 1;
    }
    table
}

/// Whether the first record of a per-locale file is skipped when scanning keys:
/// its trimmed first field is `key` or `locale`.
pub open spec fn is_header_key(k: Seq<char>) -> bool {
    k == "key"@ || k == "locale"@
}

/// The keys of the records before index `n`: each record's trimmed first field
/// when not empty, skipping the first record of a root file, and that of a
/// per-locale file when it is a header.
pub open spec fn scanned_keys(recs: Seq<RawRecordView>, is_root: bool, n: int) -> Seq<Seq<char>>
    decreases n,
{
    if n <= 0 {
        seq![]
    } else {
        let ks = scanned_keys(recs, is_root, n - 1);
        let row = recs[n - 1].1;
        if n - 1 == 0 && (is_root || (row.len() > 0 && is_header_key(trimmed(row[0])))) {
            ks
        } else if row.len() > 0 && trimmed(row[0]).len() > 0 {
            ks.push(trimmed(row[0]))
        } else {
            ks
        }
    }
}

/// The translation keys of a CSV file, from its records.
pub fn keys_from_records(records: &Vec<RawRecord>, is_root: bool) -> (r: Vec<String>)
    ensures
        r.deep_view() == scanned_keys(records.deep_view(), is_root, records.deep_view().len() as int),
{
    let ghost recs = records.deep_view();
    let mut keys: Vec<String> = Vec::new();
    let n = records.len();
    let mut r: usize = 0;
    while r < n
        invariant
            recs == records.deep_view(),
            n == recs.len(),
            r <= n,
            keys.deep_view() == scanned_keys(recs, is_root, r as int),
        decreases n - r,
    {
        let row = &records[r].1;
        let ghost rv = recs[r as int].1;
        proof {
            assert(row@.len() == rv.len());
            assert(forall|j: int| 0 <= j < rv.len() ==> #[trigger] row@[j]@ == rv[j]);
            reveal_strlit("key");
            reveal_strlit("locale");
        }
        let mut skip = false;
        if r == 0 {
            if is_root {
                skip = true;
            } else if row.len() > 0 {
                let k = trim(row[0].as_str());
                if same_text(k.as_str(), "key") || same_text(k.as_str(), "locale") {
                    skip = true;
                }
            }
        }
        if !skip && row.len() > 0 {
            let k = trim(row[0].as_str());
            if !k.as_str().is_empty() {
                keys.push(k);
            }
        }
        r += 1;
        proof {
            assert(keys.deep_view() =~= scanned_keys(recs, is_root, r as int));
        }
    }
    keys
}

/// Parses a "unified" CSV file with one column per locale.
///
/// Expected format:
/// ```csv
/// locale,en_US,ja_JP
/// items.sword,Iron Sword,鉄の剣
/// ```
///
/// The first row is always treated as a header naming the locale columns.
/// Empty cells are missing translations; other cells are trimmed.
pub fn parse_unified(path: &str, content: &[u8]) -> (r: Result<LocaleMap, VernacularError>)
    ensures
        match r {
            Ok(m) => csv_records(content@) is Some && locale_map_wf(&m) && m@ == unified_tables(
                lined(content@, csv_records(content@).unwrap()),
                path@,
            ),
            Err(e) => csv_records(content@) is None && shape_of(e) == (None::<Seq<char>>, Cause::Csv),
        },
{
    match read_records(content) {
        Ok(records) => Ok(unified_from_records(&start_lines(content, records), path)),
        Err(e) => Err(VernacularError::csv(e)),
    }
}

/// Scans a CSV file for translation keys.
///
/// Handles both unified (multi-locale) and per-locale (key,value) CSV formats.
/// Skips header rows depending on `is_root`.
pub fn scan_keys(content: &[u8], is_root: bool) -> (r: Result<Vec<String>, VernacularError>)
    ensures
        match r {
            Ok(keys) => csv_records(content@) is Some && keys.deep_view() == scanned_keys(
                csv_records(content@).unwrap(),
                is_root,
                csv_records(content@).unwrap().len() as int,
            ),
            Err(e) => csv_records(content@) is None && shape_of(e) == (None::<Seq<char>>, Cause::Csv),
        },
{
    match read_records(content) {
        Ok(records) => Ok(keys_from_records(&records, is_root)),
        Err(e) => Err(VernacularError::csv(e)),
    }
}

/// Parses a per-locale CSV file with `key,value` rows.
///
/// Expected format (no header):
/// ```csv
/// items.sword,Iron Sword
/// items.shield,Wooden Shield
/// ```
///
/// A `key,value` first row is skipped, and so is a row whose value cell is
/// empty: a completely empty cell is missing data.
pub fn parse_locale(path: &str, content: &[u8]) -> (r: Result<StrMap<TranslationEntry>, VernacularError>)
    ensures
        match r {
            Ok(m) => csv_records(content@) is Some && m.wf() && table_entries_wf(m@) && m@
                == locale_table(lined(content@, csv_records(content@).unwrap()), path@),
            Err(e) => csv_records(content@) is None && shape_of(e) == (None::<Seq<char>>, Cause::Csv),
        },
{
    match read_records(content) {
        Ok(records) => Ok(locale_from_records(&start_lines(content, records), path)),
        Err(e) => Err(VernacularError::csv(e)),
    }
}

} // verus!
