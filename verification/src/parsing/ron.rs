//! RON translation files: a flat map from keys to texts.
use vstd::prelude::*;
use vstd::utf8::{encode_utf8, valid_utf8};
use std::collections::HashMap;
use crate::context::{EntryView, table_entries_wf};
use crate::error::{VernacularError, Cause, shape_of};
use crate::model::{TranslationEntry, entry_view};
use crate::strmap::{StrMap, pairs_map, distinct_keys};

verus! {

/// The `String -> String` map that `ron::from_str` reads from `text`, or
/// `None` where it reports an error.
pub uninterp spec fn ron_string_map(text: Seq<char>) -> Option<Map<Seq<char>, Seq<char>>>;

/// The keys of the map with string keys and values of any kind that
/// `ron::from_str` reads from `text`, or `None` where it reports an error.
pub uninterp spec fn ron_map_keys(text: Seq<char>) -> Option<Set<Seq<char>>>;

/// `std::str::from_utf8`: the bytes as text when they are valid UTF-8.
#[verifier::external_body]
fn utf8_text(bytes: &[u8]) -> (r: Result<&str, std::str::Utf8Error>)
    ensures
        r is Ok <==> valid_utf8(bytes@),
        r matches Ok(s) ==> encode_utf8(s@) == bytes@,
{
    std::str::from_utf8(bytes)
}

/// `std::io::Error::new(ErrorKind::InvalidData, e)`, the error kind that
/// reading a file that is not UTF-8 into a `String` reports.
#[verifier::external_body]
fn invalid_data(e: std::str::Utf8Error) -> std::io::Error {
    std::io::Error::new(std::io::ErrorKind::InvalidData, e)
}

/// `ron::from_str::<HashMap<String, String>>`, with the map's pairs handed out
/// in the map's iteration order. The map is named by `ron_string_map`; its keys
/// are distinct.
#[verifier::external_body]
fn read_string_map(text: &str) -> (r: Result<Vec<(String, String)>, ::ron::error::SpannedError>)
    ensures
        r is Ok <==> ron_string_map(text@) is Some,
        r matches Ok(pairs) ==> distinct_keys(pairs@) && pairs_map(pairs@) == ron_string_map(
            text@,
        ).unwrap(),
{
    let parsed: HashMap<String, String> = ::ron::from_str(text)?;
    Ok(parsed.into_iter().collect())
}

/// `ron::from_str::<HashMap<String, ron::Value>>`, keeping the map's keys in
/// its iteration order. The key set is named by `ron_map_keys`; each key
/// comes once.
#[verifier::external_body]
fn read_map_keys(text: &str) -> (r: Result<Vec<String>, ::ron::error::SpannedError>)
    ensures
        r is Ok <==> ron_map_keys(text@) is Some,
        r matches Ok(keys) ==> keys.deep_view().no_duplicates() && keys.deep_view().to_set()
            == ron_map_keys(text@).unwrap(),
{
    let parsed: HashMap<String, ::ron::Value> = ::ron::from_str(text)?;
    Ok(parsed.into_keys().collect())
}

/// The table of a RON file that maps keys to texts: every entry is at line 0.
pub open spec fn ron_table(m: Map<Seq<char>, Seq<char>>, path: Seq<char>) -> Map<Seq<char>, EntryView> {
    m.map_values(|v: Seq<char>| entry_view(v, path, 0))
}

/// The text of a file, or the error that reading it as UTF-8 text reports.
pub open spec fn decoded(bytes: Seq<u8>) -> Option<Seq<char>> {
    if valid_utf8(bytes) {
        Some(vstd::utf8::decode_utf8(bytes))
    } else {
        None
    }
}

/// The table of a RON file from the pairs of its map.
pub fn table_from_pairs(pairs: Vec<(String, String)>, path: &str) -> (r: StrMap<TranslationEntry>)
    requires
        distinct_keys(pairs@),
    ensures
        r.wf(),
        table_entries_wf(r@),
        r@ == ron_table(pairs_map(pairs@), path@),
{
    let ghost s = pairs@;
    let mut table: StrMap<TranslationEntry> = StrMap::new();
    let n = pairs.len();
    let mut rest = pairs;
    let mut i: usize = 0;
    proof {
        assert(rest@ =~= s.skip(0));
        assert(table@ =~= ron_table(pairs_map(s.take(0)), path@));
    }
    while i < n
        invariant
            n == s.len(),
            i <= n,
            rest@ == s.skip(i as int),
            table.wf(),
            table_entries_wf(table@),
            table@ == ron_table(pairs_map(s.take(i as int)), path@),
        decreases n - i,
    {
        let (key, val) = rest.remove(0);
        proof {
            assert(s[i as int] == (key, val));
            assert(rest@ =~= s.skip(i + 1));
            assert(s.take(i + 1).drop_last() =~= s.take(i as int));
            assert(s.take(i + 1).last() == s[i as int]);
        }
        let entry = TranslationEntry::new(val, path.to_owned(), 0);
        table.insert(key, entry);
        i += 1;
        proof {
            assert(table@ =~= ron_table(pairs_map(s.take(i as int)), path@));
        }
    }
    proof {
        assert(s.take(n as int) =~= s);
    }
    table
}

/// Parses a RON file containing a flat `String -> String` map.
///
/// Expected format:
/// ```ron
/// {
///     "ui.start": "Start Game",
///     "dialogue.greetings": "Hello, {}!",
/// }
/// ```
///
/// Content that is not UTF-8 is an I/O error, as reading it as text is.
pub fn parse(path: &str, content: &[u8]) -> (r: Result<StrMap<TranslationEntry>, VernacularError>)
    ensures
        match r {
            Ok(m) => decoded(content@) is Some && ron_string_map(decoded(content@).unwrap()) is Some
                && m.wf() && table_entries_wf(m@) && m@ == ron_table(
                ron_string_map(decoded(content@).unwrap()).unwrap(),
                path@,
            ),
            Err(e) => decoded(content@) is None && shape_of(e) == (None::<Seq<char>>, Cause::Io)
                || decoded(content@) is Some && ron_string_map(decoded(content@).unwrap()) is None
                && shape_of(e) == (None::<Seq<char>>, Cause::Ron),
        },
{
    broadcast use vstd::utf8::group_utf8_lib;

    let text = match utf8_text(content) {
        Ok(t) => t,
        Err(e) => return Err(VernacularError::io(invalid_data(e))),
    };
    proof {
        assert(decoded(content@) == Some(text@));
    }
    match read_string_map(text) {
        Ok(pairs) => Ok(table_from_pairs(pairs, path)),
        Err(e) => Err(VernacularError::ron(e)),
    }
}

/// Scans a RON file for translation keys.
pub fn scan_keys(content: &[u8]) -> (r: Result<Vec<String>, VernacularError>)
    ensures
        match r {
            Ok(keys) => decoded(content@) is Some && ron_map_keys(decoded(content@).unwrap()) is Some
                && keys.deep_view().no_duplicates() && keys.deep_view().to_set() == ron_map_keys(
                decoded(content@).unwrap(),
            ).unwrap(),
            Err(e) => decoded(content@) is None && shape_of(e) == (None::<Seq<char>>, Cause::Io)
                || decoded(content@) is Some && ron_map_keys(decoded(content@).unwrap()) is None
                && shape_of(e) == (None::<Seq<char>>, Cause::Ron),
        },
{
    broadcast use vstd::utf8::group_utf8_lib;

    let text = match utf8_text(content) {
        Ok(t) => t,
        Err(e) => return Err(VernacularError::io(invalid_data(e))),
    };
    proof {
        assert(decoded(content@) == Some(text@));
    }
    match read_map_keys(text) {
        Ok(keys) => Ok(keys),
        Err(e) => Err(VernacularError::ron(e)),
    }
}

} // verus!
