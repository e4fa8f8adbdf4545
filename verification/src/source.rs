//! What the loader is handed of the file system: directory listings and file
//! contents, read by the caller. Choosing, ordering and parsing the files is
//! done here.
use vstd::prelude::*;
use vstd::utf8::encode_utf8;
use crate::text::{text_lt, text_less, has_suffix, ends_with};

verus! {

/// A file of a directory: its name, its path, and its content or the error of reading it.
#[derive(Debug)]
pub struct SourceFile {
    pub name: String,
    pub path: String,
    pub content: Result<Vec<u8>, std::io::Error>,
}

/// The files of a directory, or the error of listing it. `not_found` tells
/// that the directory does not exist.
#[derive(Debug)]
pub enum DirListing {
    Files(Vec<SourceFile>),
    Failed { error: std::io::Error, not_found: bool },
}

/// A directory that a lookup needs read: the content path itself, whose CSV
/// files hold every locale, or the directory of one locale.
#[derive(Debug, Clone, PartialEq, Eq)]
pub enum LoadStep {
    RootCsvs,
    Locale(String),
}

/// A step as plain values: `None` for the root, `Some(locale)` for a locale.
pub open spec fn step_view(s: LoadStep) -> Option<Seq<char>> {
    match s {
        LoadStep::RootCsvs => None,
        LoadStep::Locale(l) => Some(l@),
    }
}

/// `.csv` as bytes.
pub open spec fn csv_suffix() -> Seq<u8> {
    seq![46u8, 99u8, 115u8, 118u8]
}

/// `.ron` as bytes.
pub open spec fn ron_suffix() -> Seq<u8> {
    seq![46u8, 114u8, 111u8, 110u8]
}

/// `Path::extension` of a file name is the suffix after its last dot, when
/// that dot is not the name's first character: for an extension without a
/// dot, the name ends with the dot and the extension and is longer than them.
pub open spec fn has_ext(name: Seq<char>, dot_ext: Seq<u8>) -> bool {
    encode_utf8(name).len() > dot_ext.len() && has_suffix(encode_utf8(name), dot_ext)
}

/// `f` inserted into `s` after every file whose name does not sort after it.
pub open spec fn insert_by_name(s: Seq<SourceFile>, f: SourceFile) -> Seq<SourceFile>
    decreases s.len(),
{
    if s.len() == 0 {
        seq![f]
    } else if text_lt(f.name@, s[0].name@) {
        seq![f] + s
    } else {
        seq![s[0]] + insert_by_name(s.drop_first(), f)
    }
}

/// The files of `fs` with the extension, in name order; files of equal names
/// keep their order.
pub open spec fn selected(fs: Seq<SourceFile>, dot_ext: Seq<u8>) -> Seq<SourceFile>
    decreases fs.len(),
{
    if fs.len() == 0 {
        seq![]
    } else if has_ext(fs.last().name@, dot_ext) {
        insert_by_name(selected(fs.drop_last(), dot_ext), fs.last())
    } else {
        selected(fs.drop_last(), dot_ext)
    }
}

proof fn lemma_insert_by_name(s: Seq<SourceFile>, f: SourceFile, p: int)
    requires
        0 <= p <= s.len(),
        forall|j: int| 0 <= j < p ==> !text_lt(f.name@, #[trigger] s[j].name@),
        p < s.len() ==> text_lt(f.name@, s[p].name@),
    ensures
        insert_by_name(s, f) == s.take(p).push(f) + s.skip(p),
    decreases p,
{
    if p == 0 {
        assert(s.take(0).push(f) + s.skip(0) =~= seq![f] + s);
        if s.len() == 0 {
            assert(seq![f] + s =~= seq![f]);
        }
    } else {
        let t = s.drop_first();
        assert forall|j: int| 0 <= j < p - 1 implies !text_lt(f.name@, #[trigger] t[j].name@) by {
            assert(t[j] == s[j + 1]);
        }
        lemma_insert_by_name(t, f, p - 1);
        assert(seq![s[0]] + (t.take(p - 1).push(f) + t.skip(p - 1)) =~= s.take(p).push(f) + s.skip(p));
    }
}

/// Inserts `f` into `sorted` after the files whose names do not sort after it.
fn insert_file(sorted: &mut Vec<SourceFile>, f: SourceFile)
    ensures
        final(sorted)@ == insert_by_name(old(sorted)@, f),
{
    let mut p: usize = 0;
    while p < sorted.len() && !text_less(f.name.as_str(), sorted[p].name.as_str())
        invariant
            p <= sorted@.len(),
            sorted@ == old(sorted)@,
            forall|j: int| 0 <= j < p ==> !text_lt(f.name@, #[trigger] sorted@[j].name@),
        decreases sorted@.len() - p,
    {
        p += 1;
    }
    proof {
        lemma_insert_by_name(sorted@, f, p as int);
    }
    sorted.insert(p, f);
    proof {
        assert(sorted@ =~= old(sorted)@.take(p as int).push(f) + old(sorted)@.skip(p as int));
    }
}

fn has_extension(name: &str, dot_ext: &[u8]) -> (r: bool)
    ensures
        r == has_ext(name@, dot_ext@),
{
    let b = name.as_bytes();
    b.len() > dot_ext.len() && ends_with(b, dot_ext)
}

/// The files with the extension (a dot and the extension's bytes), in name order.
pub fn select_files(files: Vec<SourceFile>, dot_ext: &[u8]) -> (r: Vec<SourceFile>)
    ensures
        r@ == selected(files@, dot_ext@),
{
    let ghost s = files@;
    let n = files.len();
    let mut rest = files;
    let mut out: Vec<SourceFile> = Vec::new();
    let mut i: usize = 0;
    proof {
        assert(rest@ =~= s.skip(0));
        assert(s.take(0) =~= Seq::<SourceFile>::empty());
    }
    while i < n
        invariant
            n == s.len(),
            i <= n,
            rest@ == s.skip(i as int),
            out@ == selected(s.take(i as int), dot_ext@),
        decreases n - i,
    {
        let f = rest.remove(0);
        proof {
            assert(s[i as int] == f);
            assert(rest@ =~= s.skip(i + 1));
            assert(s.take(i + 1).drop_last() =~= s.take(i as int));
            assert(s.take(i + 1).last() == f);
        }
        if has_extension(f.name.as_str(), dot_ext) {
            insert_file(&mut out, f);
        }
        i += 1;
    }
    proof {
        assert(s.take(n as int) =~= s);
    }
    out
}

/// The CSV files and the RON files of a directory, each in name order.
pub fn partition_files(files: Vec<SourceFile>) -> (r: (Vec<SourceFile>, Vec<SourceFile>))
    ensures
        r.0@ == selected(files@, csv_suffix()),
        r.1@ == selected(files@, ron_suffix()),
{
    let csv: [u8; 4] = [46, 99, 115, 118];
    let ron: [u8; 4] = [46, 114, 111, 110];
    proof {
        assert(csv@ =~= csv_suffix());
        assert(ron@ =~= ron_suffix());
    }
    let ghost s = files@;
    let n = files.len();
    let mut rest = files;
    let mut csvs: Vec<SourceFile> = Vec::new();
    let mut rons: Vec<SourceFile> = Vec::new();
    let mut i: usize = 0;
    proof {
        assert(rest@ =~= s.skip(0));
        assert(s.take(0) =~= Seq::<SourceFile>::empty());
    }
    while i < n
        invariant
            n == s.len(),
            i <= n,
            rest@ == s.skip(i as int),
            csv@ == csv_suffix(),
            ron@ == ron_suffix(),
            csvs@ == selected(s.take(i as int), csv_suffix()),
            rons@ == selected(s.take(i as int), ron_suffix()),
        decreases n - i,
    {
        let f = rest.remove(0);
        proof {
            assert(s[i as int] == f);
            assert(rest@ =~= s.skip(i + 1));
            assert(s.take(i + 1).drop_last() =~= s.take(i as int));
            assert(s.take(i + 1).last() == f);
        }
        if has_extension(f.name.as_str(), &csv) {
            proof {
                let b = encode_utf8(f.name@);
                assert(b.skip(b.len() - 4)[1] == 99u8);
                assert(csv_suffix()[1] == 99u8);
                assert(ron_suffix()[1] == 114u8);
                assert(!has_ext(f.name@, ron_suffix()));
            }
            insert_file(&mut csvs, f);
        } else if has_extension(f.name.as_str(), &ron) {
            insert_file(&mut rons, f);
        }
        i += 1;
    }
    proof {
        assert(s.take(n as int) =~= s);
    }
    (csvs, rons)
}

} // verus!
