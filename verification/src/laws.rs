//! Properties that hold across the library's operations.
use vstd::prelude::*;
use vstd::utf8::{encode_utf8, decode_utf8, encode_scalar, has_width_1_encoding};
use crate::context::{
    VernacularContext, Tables, EntryView, locale_fold, locale_load, locale_file_table,
    table_or_empty, strictly_sorted, visible_names, owed_for_locale, merge_all, root_fold, root_load,
    root_file_tables,
};
use crate::parsing::csv::{locale_rows, locale_table, start_line};
use crate::parsing::ron::ron_table;
use crate::text::{decimal, trim_start, trim_end, is_ws};
use crate::parsing::csv::{
    RecordView, RawRecordView, unified_tables, header_locales, header_tables, apply_rows, apply_cells,
    scanned_keys,
};
use crate::text::trimmed;
use crate::model::{
    TemplatePart, scan, template_of, render, arg_texts, open_byte, close_byte, is_positional, digits_end,
    digits_value, is_digit_byte, lemma_digits_end_bounds,
};
use crate::source::{SourceFile, DirListing, selected, insert_by_name, has_ext, csv_suffix, ron_suffix};
use crate::text::{text_lt, lemma_text_order};

verus! {

proof fn lemma_scan_plain(b: Seq<u8>, i: int, next: nat)
    requires
        0 <= i <= b.len(),
        forall|j: int| i <= j < b.len() ==> #[trigger] b[j] != open_byte() && b[j] != close_byte(),
    ensures
        scan(b, i, 0, next) == scan(b, b.len() as int, 0, next),
    decreases b.len() - i,
{
    if i < b.len() {
        lemma_scan_plain(b, i + 1, next);
    }
}

/// The template of a text without braces is empty for the empty text, and one
/// text span over the whole text otherwise.
pub proof fn law_template_of_text_without_braces(b: Seq<u8>)
    requires
        b.len() <= usize::MAX,
        forall|j: int| 0 <= j < b.len() ==> #[trigger] b[j] != open_byte() && b[j] != close_byte(),
    ensures
        template_of(b) == if b.len() == 0 {
            Seq::<TemplatePart>::empty()
        } else {
            seq![TemplatePart::Text { start: 0, end: b.len() as usize }]
        },
{
    lemma_scan_plain(b, 0, 0);
}

/// The first bound of a pending text span `[last, i)`, when it is not empty.
pub open spec fn pending_bound(last: int, i: int) -> Seq<int> {
    if last < i {
        seq![last]
    } else {
        seq![]
    }
}

/// Where the parts of `scan(b, i, last, _)` begin, followed by the end of the
/// last one: the first is `last`.
pub open spec fn scan_bounds(b: Seq<u8>, i: int, last: int) -> Seq<int>
    decreases b.len() - i,
{
    if i < 0 || i >= b.len() {
        if 0 <= last < b.len() {
            seq![last, b.len() as int]
        } else {
            seq![last]
        }
    } else if b[i] == open_byte() && i + 1 < b.len() && b[i + 1] == open_byte() {
        pending_bound(last, i) + seq![i] + scan_bounds(b, i + 2, i + 2)
    } else if b[i] == open_byte() && i + 1 < b.len() && b[i + 1] == close_byte() {
        pending_bound(last, i) + seq![i] + scan_bounds(b, i + 2, i + 2)
    } else if b[i] == open_byte() && is_positional(b, i) {
        let j = digits_end(b, i + 1);
        proof {
            lemma_digits_end_bounds(b, i + 1);
        }
        pending_bound(last, i) + seq![i] + scan_bounds(b, j + 1, j + 1)
    } else if b[i] == close_byte() && i + 1 < b.len() && b[i + 1] == close_byte() {
        pending_bound(last, i) + seq![i] + scan_bounds(b, i + 2, i + 2)
    } else {
        scan_bounds(b, i + 1, last)
    }
}

/// Where the parts of the template of `b` begin, followed by the end of the last.
pub open spec fn template_bounds(b: Seq<u8>) -> Seq<int> {
    scan_bounds(b, 0, 0)
}

/// Part `p` stands for the bytes `[lo, hi)` of `b`: a text span is that range,
/// `{{` and `}}` are the escapes, and an argument is `{}` or `{` digits `}`
/// whose digits spell its index.
pub open spec fn part_source(b: Seq<u8>, p: TemplatePart, lo: int, hi: int) -> bool {
    match p {
        TemplatePart::Text { start, end } => start as int == lo && end as int == hi,
        TemplatePart::LiteralOpen => hi == lo + 2 && b[lo] == open_byte() && b[lo + 1] == open_byte(),
        TemplatePart::LiteralClose => hi == lo + 2 && b[lo] == close_byte() && b[lo + 1] == close_byte(),
        TemplatePart::Arg(m) => b[lo] == open_byte() && b[hi - 1] == close_byte() && (hi == lo + 2 || (hi
            >= lo + 3 && (forall|k: int| lo < k < hi - 1 ==> is_digit_byte(#[trigger] b[k])) && m as int
            == digits_value(b.subrange(lo + 1, hi - 1)))),
    }
}

/// `parts` cut `b` into consecutive pieces with the bounds `bs`, the first
/// starting at `bs[0]` and the last ending at the end of `b`: each piece is not
/// empty and is what its part stands for, no two text spans are neighbours
/// (`after_text`: the piece before was a text span), and the `{}` arguments are
/// numbered in order from `next`, whatever `{N}` arguments stand between them.
pub open spec fn well_split(
    b: Seq<u8>,
    parts: Seq<TemplatePart>,
    bs: Seq<int>,
    next: nat,
    after_text: bool,
) -> bool
    decreases parts.len(),
{
    if parts.len() == 0 {
        bs.len() == 1 && bs[0] == b.len()
    } else {
        let p = parts[0];
        &&& bs.len() == parts.len() + 1
        &&& bs[0] < bs[1]
        &&& part_source(b, p, bs[0], bs[1])
        &&& !(after_text && p is Text)
        &&& if p is Arg && bs[1] == bs[0] + 2 {
            p == TemplatePart::Arg(next as usize) && well_split(
                b,
                parts.drop_first(),
                bs.drop_first(),
                next + 1,
                false,
            )
        } else {
            well_split(b, parts.drop_first(), bs.drop_first(), next, p is Text)
        }
    }
}

proof fn lemma_split_after(
    b: Seq<u8>,
    last: int,
    i: int,
    x: TemplatePart,
    rest: Seq<TemplatePart>,
    rest_bs: Seq<int>,
    next: nat,
)
    requires
        b.len() <= usize::MAX,
        0 <= last <= i < b.len(),
        i < rest_bs[0],
        !(x is Text),
        part_source(b, x, i, rest_bs[0]),
        rest_bs.len() == rest.len() + 1,
        if x is Arg && rest_bs[0] == i + 2 {
            x == TemplatePart::Arg(next as usize) && well_split(b, rest, rest_bs, next + 1, false)
        } else {
            well_split(b, rest, rest_bs, next, false)
        },
    ensures
        well_split(
            b,
            crate::model::text_before(last, i) + seq![x] + rest,
            pending_bound(last, i) + seq![i] + rest_bs,
            next,
            false,
        ),
{
    let tail = seq![x] + rest;
    let tail_bs = seq![i] + rest_bs;
    let parts = crate::model::text_before(last, i) + seq![x] + rest;
    let bs = pending_bound(last, i) + seq![i] + rest_bs;
    assert(tail.drop_first() =~= rest);
    assert(tail_bs.drop_first() =~= rest_bs);
    assert(tail[0] == x);
    assert(tail_bs[0] == i && tail_bs[1] == rest_bs[0]);
    assert(well_split(b, tail, tail_bs, next, true));
    assert(well_split(b, tail, tail_bs, next, false));
    if last < i {
        assert(parts =~= seq![TemplatePart::Text { start: last as usize, end: i as usize }] + tail);
        assert(bs =~= seq![last] + tail_bs);
        assert(parts.drop_first() =~= tail);
        assert(bs.drop_first() =~= tail_bs);
        assert(parts[0] == TemplatePart::Text { start: last as usize, end: i as usize });
        assert(bs[0] == last && bs[1] == i);
    } else {
        assert(parts =~= tail);
        assert(bs =~= tail_bs);
    }
}

proof fn lemma_scan_splits(b: Seq<u8>, i: int, last: int, next: nat)
    requires
        b.len() <= usize::MAX,
        0 <= last <= i <= b.len(),
    ensures
        scan_bounds(b, i, last)[0] == last,
        well_split(b, scan(b, i, last, next), scan_bounds(b, i, last), next, false),
    decreases b.len() - i,
{
    if i >= b.len() {
        if last < b.len() {
            let parts = scan(b, i, last, next);
            let bs = scan_bounds(b, i, last);
            assert(parts.drop_first() =~= Seq::<TemplatePart>::empty());
            assert(bs.drop_first() =~= seq![b.len() as int]);
            assert(well_split(b, parts.drop_first(), bs.drop_first(), next, true));
        }
    } else if b[i] == open_byte() && i + 1 < b.len() && b[i + 1] == open_byte() {
        lemma_scan_splits(b, i + 2, i + 2, next);
        lemma_split_after(b, last, i, TemplatePart::LiteralOpen, scan(b, i + 2, i + 2, next), scan_bounds(b, i + 2, i + 2), next);
    } else if b[i] == open_byte() && i + 1 < b.len() && b[i + 1] == close_byte() {
        lemma_scan_splits(b, i + 2, i + 2, next + 1);
        lemma_split_after(b, last, i, TemplatePart::Arg(next as usize), scan(b, i + 2, i + 2, next + 1), scan_bounds(b, i + 2, i + 2), next);
    } else if b[i] == open_byte() && is_positional(b, i) {
        let j = digits_end(b, i + 1);
        lemma_digits_end_bounds(b, i + 1);
        lemma_scan_splits(b, j + 1, j + 1, next);
        let x = TemplatePart::Arg(digits_value(b.subrange(i + 1, j)) as usize);
        assert(j >= i + 2);
        lemma_split_after(b, last, i, x, scan(b, j + 1, j + 1, next), scan_bounds(b, j + 1, j + 1), next);
    } else if b[i] == close_byte() && i + 1 < b.len() && b[i + 1] == close_byte() {
        lemma_scan_splits(b, i + 2, i + 2, next);
        lemma_split_after(b, last, i, TemplatePart::LiteralClose, scan(b, i + 2, i + 2, next), scan_bounds(b, i + 2, i + 2), next);
    } else {
        lemma_scan_splits(b, i + 1, last, next);
    }
}

/// The template of a text cuts it into consecutive pieces from its first byte
/// to its last: each part stands for its piece (a text span for its byte
/// range, `{{` and `}}` for the escapes, an argument for `{}` or `{N}`), no two
/// text spans are neighbours, and the `{}` arguments are numbered 0, 1, 2, ...
/// in order, counting only `{}` ones.
pub proof fn law_template_splits_text(b: Seq<u8>)
    requires
        b.len() <= usize::MAX,
    ensures
        template_bounds(b)[0] == 0,
        well_split(b, template_of(b), template_bounds(b), 0, false),
{
    lemma_scan_splits(b, 0, 0, 0);
}

proof fn lemma_scalar_without_brace_bytes(v: u32)
    requires
        v != 123u32,
        v != 125u32,
    ensures
        forall|j: int|
            0 <= j < encode_scalar(v).len() ==> #[trigger] encode_scalar(v)[j] != open_byte()
                && encode_scalar(v)[j] != close_byte(),
{
    if has_width_1_encoding(v) {
        assert(((v & 0x7F) as u8) as u32 == v) by (bit_vector)
            requires
                v <= 0x7F,
        ;
    } else {
        let a = ((v >> 6) & 0x1F) as u8;
        let b = ((v >> 12) & 0x0F) as u8;
        let c = ((v >> 18) & 0x7) as u8;
        let d = (v & 0x3F) as u8;
        let e = ((v >> 6) & 0x3F) as u8;
        let f = ((v >> 12) & 0x3F) as u8;
        assert(0xC0u8 | a >= 0x80u8) by (bit_vector);
        assert(0xE0u8 | b >= 0x80u8) by (bit_vector);
        assert(0xF0u8 | c >= 0x80u8) by (bit_vector);
        assert(0x80u8 | d >= 0x80u8) by (bit_vector);
        assert(0x80u8 | e >= 0x80u8) by (bit_vector);
        assert(0x80u8 | f >= 0x80u8) by (bit_vector);
    }
}

/// The UTF-8 bytes of a text without the characters `{` and `}` hold no brace
/// byte.
pub proof fn lemma_no_brace_bytes(value: Seq<char>)
    requires
        !value.contains('{'),
        !value.contains('}'),
    ensures
        forall|j: int|
            0 <= j < encode_utf8(value).len() ==> #[trigger] encode_utf8(value)[j] != open_byte()
                && encode_utf8(value)[j] != close_byte(),
        encode_utf8(value).len() == 0 <==> value.len() == 0,
    decreases value.len(),
{
    if value.len() > 0 {
        let rest = value.drop_first();
        assert forall|c: char| rest.contains(c) implies value.contains(c) by {
            let k = choose|k: int| 0 <= k < rest.len() && rest[k] == c;
            assert(value[k + 1] == c);
        }
        lemma_no_brace_bytes(rest);
        let v = value[0] as u32;
        assert(value[0] != '{' && value[0] != '}') by {
            assert(value.contains(value[0]));
        }
        assert(v != 123u32 && v != 125u32) by {
            vstd::utf8::char_u32_cast(value[0], v);
            vstd::utf8::char_u32_cast('{', 123u32);
            vstd::utf8::char_u32_cast('}', 125u32);
        }
        vstd::utf8::char_is_scalar(value[0]);
        lemma_scalar_without_brace_bytes(v);
        let head = encode_scalar(v);
        assert(head.len() > 0);
        assert forall|j: int| 0 <= j < encode_utf8(value).len() implies #[trigger] encode_utf8(value)[j]
            != open_byte() && encode_utf8(value)[j] != close_byte() by {
            if j < head.len() {
                assert(encode_utf8(value)[j] == head[j]);
            } else {
                assert(encode_utf8(value)[j] == encode_utf8(rest)[j - head.len()]);
            }
        }
    }
}

/// The template of a text without the characters `{` and `}` is empty for the
/// empty text, and one text span over all of its UTF-8 bytes otherwise.
pub proof fn law_template_of_text_without_brace_chars(value: Seq<char>)
    requires
        encode_utf8(value).len() <= usize::MAX,
        !value.contains('{'),
        !value.contains('}'),
    ensures
        template_of(encode_utf8(value)) == if value.len() == 0 {
            Seq::<TemplatePart>::empty()
        } else {
            seq![TemplatePart::Text { start: 0, end: encode_utf8(value).len() as usize }]
        },
{
    lemma_no_brace_bytes(value);
    law_template_of_text_without_braces(encode_utf8(value));
}

/// A text without braces is a single text span, and renders as itself
/// whatever the arguments.
pub proof fn law_text_without_braces_renders_as_itself(value: Seq<char>, args: Seq<Seq<char>>)
    requires
        encode_utf8(value).len() <= usize::MAX,
        !value.contains('{'),
        !value.contains('}'),
    ensures
        render(encode_utf8(value), template_of(encode_utf8(value)), args) == value,
{
    broadcast use vstd::utf8::group_utf8_lib;

    lemma_no_brace_bytes(value);

    let b = encode_utf8(value);
    lemma_scan_plain(b, 0, 0);
    if b.len() == 0 {
        assert(decode_utf8(b) == value);
        assert(decode_utf8(b) =~= Seq::<char>::empty());
    } else {
        let parts = template_of(b);
        assert(parts == seq![TemplatePart::Text { start: 0, end: b.len() as usize }]);
        assert(parts.drop_last() =~= Seq::<TemplatePart>::empty());
        assert(b.subrange(0, b.len() as int) =~= b);
        assert(render(b, parts.drop_last(), args) =~= Seq::<char>::empty());
        assert(parts.last() == TemplatePart::Text { start: 0, end: b.len() as usize });
        assert(render(b, parts, args) =~= decode_utf8(b));
    }
}

/// Every file of a selection has the extension, and the selection is in name order.
pub proof fn law_files_load_in_name_order(fs: Seq<SourceFile>, dot_ext: Seq<u8>)
    ensures
        forall|i: int|
            0 <= i < selected(fs, dot_ext).len() ==> has_ext(#[trigger] selected(fs, dot_ext)[i].name@, dot_ext),
        forall|i: int, j: int|
            0 <= i < j < selected(fs, dot_ext).len() ==> !text_lt(
                #[trigger] selected(fs, dot_ext)[j].name@,
                #[trigger] selected(fs, dot_ext)[i].name@,
            ),
    decreases fs.len(),
{
    if fs.len() > 0 {
        law_files_load_in_name_order(fs.drop_last(), dot_ext);
        if has_ext(fs.last().name@, dot_ext) {
            lemma_insert_sorted(selected(fs.drop_last(), dot_ext), fs.last(), dot_ext);
        }
    }
}

proof fn lemma_insert_sorted(s: Seq<SourceFile>, f: SourceFile, dot_ext: Seq<u8>)
    requires
        forall|i: int| 0 <= i < s.len() ==> has_ext(#[trigger] s[i].name@, dot_ext),
        has_ext(f.name@, dot_ext),
        forall|i: int, j: int| 0 <= i < j < s.len() ==> !text_lt(#[trigger] s[j].name@, #[trigger] s[i].name@),
    ensures
        forall|i: int| 0 <= i < insert_by_name(s, f).len() ==> has_ext(#[trigger] insert_by_name(s, f)[i].name@, dot_ext),
        forall|i: int, j: int|
            0 <= i < j < insert_by_name(s, f).len() ==> !text_lt(
                #[trigger] insert_by_name(s, f)[j].name@,
                #[trigger] insert_by_name(s, f)[i].name@,
            ),
        forall|i: int| 0 <= i < insert_by_name(s, f).len() ==> (#[trigger] insert_by_name(s, f)[i] == f
            || exists|j: int| 0 <= j < s.len() && s[j] == insert_by_name(s, f)[i]),
        insert_by_name(s, f).len() == s.len() + 1,
    decreases s.len(),
{
    let r = insert_by_name(s, f);
    if s.len() == 0 {
    } else if text_lt(f.name@, s[0].name@) {
        assert(r == seq![f] + s);
        assert forall|i: int, j: int| 0 <= i < j < r.len() implies !text_lt(#[trigger] r[j].name@, #[trigger] r[i].name@) by {
            if i == 0 {
                assert(r[j] == s[j - 1]);
                if j - 1 > 0 {
                    assert(!text_lt(s[j - 1].name@, s[0].name@));
                }
                lemma_text_order(s[j - 1].name@, f.name@, s[0].name@);
                lemma_text_order(f.name@, f.name@, f.name@);
            } else {
                assert(r[i] == s[i - 1] && r[j] == s[j - 1]);
            }
        }
        assert forall|i: int| 0 <= i < r.len() implies (#[trigger] r[i] == f || exists|j: int| 0 <= j < s.len() && s[j] == r[i]) by {
            if i > 0 {
                assert(s[i - 1] == r[i]);
            }
        }
    } else {
        let t = s.drop_first();
        assert forall|i: int, j: int| 0 <= i < j < t.len() implies !text_lt(#[trigger] t[j].name@, #[trigger] t[i].name@) by {
            assert(t[i] == s[i + 1] && t[j] == s[j + 1]);
        }
        assert forall|i: int| 0 <= i < t.len() implies has_ext(#[trigger] t[i].name@, dot_ext) by {
            assert(t[i] == s[i + 1]);
        }
        lemma_insert_sorted(t, f, dot_ext);
        let rt = insert_by_name(t, f);
        assert(r == seq![s[0]] + rt);
        assert forall|i: int, j: int| 0 <= i < j < r.len() implies !text_lt(#[trigger] r[j].name@, #[trigger] r[i].name@) by {
            if i == 0 {
                assert(r[j] == rt[j - 1]);
                if rt[j - 1] != f {
                    let k = choose|k: int| 0 <= k < t.len() && t[k] == rt[j - 1];
                    assert(t[k] == s[k + 1]);
                }
            } else {
                assert(r[i] == rt[i - 1] && r[j] == rt[j - 1]);
            }
        }
        assert forall|i: int| 0 <= i < r.len() implies has_ext(#[trigger] r[i].name@, dot_ext) by {
            if i > 0 {
                assert(r[i] == rt[i - 1]);
            }
        }
        assert forall|i: int| 0 <= i < r.len() implies (#[trigger] r[i] == f || exists|j: int| 0 <= j < s.len() && s[j] == r[i]) by {
            if i == 0 {
                assert(s[0] == r[0]);
            } else {
                assert(r[i] == rt[i - 1]);
                if rt[i - 1] != f {
                    let k = choose|k: int| 0 <= k < t.len() && t[k] == rt[i - 1];
                    assert(s[k + 1] == r[i]);
                }
            }
        }
    }
}

proof fn lemma_cells_keep_locales(
    t: Tables,
    locales: Seq<Seq<char>>,
    row: Seq<Seq<char>>,
    path: Seq<char>,
    line: nat,
    c: int,
)
    ensures
        apply_cells(t, locales, row, path, line, c).dom() == t.dom(),
    decreases c,
{
    if c > 0 {
        lemma_cells_keep_locales(t, locales, row, path, line, c - 1);
        let t1 = apply_cells(t, locales, row, path, line, c - 1);
        let i = c - 1;
        if i + 1 < row.len() && row[i + 1].len() > 0 && t1.contains_key(locales[i]) {
            assert(t1.insert(locales[i], t1[locales[i]].insert(row[0], crate::model::entry_view(
                crate::text::trimmed(row[i + 1]),
                path,
                line,
            ))).dom() =~= t1.dom());
        }
    }
}

proof fn lemma_rows_keep_locales(locales: Seq<Seq<char>>, recs: Seq<RecordView>, path: Seq<char>, n: int)
    ensures
        apply_rows(locales, recs, path, n).dom() == locales.to_set(),
    decreases n,
{
    if n <= 1 {
        assert(header_tables(locales).dom() =~= locales.to_set());
    } else {
        lemma_rows_keep_locales(locales, recs, path, n - 1);
        let t = apply_rows(locales, recs, path, n - 1);
        lemma_cells_keep_locales(t, locales, recs[n - 1].1, path, recs[n - 1].0 as nat, locales.len() as int);
    }
}

/// A unified CSV file has one table for each locale its header names, and no
/// other, whatever its data rows hold (none at all too).
pub proof fn law_unified_tables_are_header_locales(recs: Seq<RecordView>, path: Seq<char>)
    requires
        recs.len() > 0,
    ensures
        unified_tables(recs, path).dom() == header_locales(recs[0].1).to_set(),
        header_locales(recs[0].1).len() == if recs[0].1.len() > 0 { recs[0].1.len() - 1 } else { 0 },
        forall|i: int|
            0 <= i < header_locales(recs[0].1).len() ==> #[trigger] header_locales(recs[0].1)[i] == recs[0].1[i + 1],
{
    lemma_rows_keep_locales(header_locales(recs[0].1), recs, path, recs.len() as int);
}

/// The entry that the last of the first `c` locale columns of a unified row
/// gives key `k` in locale `l`, if any: a column named `l` whose cell is not
/// empty, in a row whose key is `k`.
pub open spec fn last_cell_in_row(
    locales: Seq<Seq<char>>,
    row: Seq<Seq<char>>,
    path: Seq<char>,
    line: nat,
    c: int,
    l: Seq<char>,
    k: Seq<char>,
) -> Option<EntryView>
    decreases c,
{
    if c <= 0 {
        None
    } else {
        let i = c - 1;
        if i + 1 < row.len() && row[i + 1].len() > 0 && locales[i] == l && row[0] == k {
            Some(crate::model::entry_view(trimmed(row[i + 1]), path, line))
        } else {
            last_cell_in_row(locales, row, path, line, c - 1, l, k)
        }
    }
}

/// The entry that the last data row before index `n` of a unified file gives
/// key `k` in locale `l`, if any.
pub open spec fn last_cell(
    locales: Seq<Seq<char>>,
    recs: Seq<RecordView>,
    path: Seq<char>,
    n: int,
    l: Seq<char>,
    k: Seq<char>,
) -> Option<EntryView>
    decreases n,
{
    if n <= 1 {
        None
    } else {
        match last_cell_in_row(locales, recs[n - 1].1, path, recs[n - 1].0 as nat, locales.len() as int, l, k) {
            Some(e) => Some(e),
            None => last_cell(locales, recs, path, n - 1, l, k),
        }
    }
}

proof fn lemma_cells_entry(
    t: Tables,
    locales: Seq<Seq<char>>,
    row: Seq<Seq<char>>,
    path: Seq<char>,
    line: nat,
    c: int,
    l: Seq<char>,
    k: Seq<char>,
)
    requires
        c <= locales.len(),
        t.contains_key(l),
        forall|j: int| 0 <= j < locales.len() ==> t.contains_key(#[trigger] locales[j]),
    ensures
        ({
            let r = apply_cells(t, locales, row, path, line, c);
            match last_cell_in_row(locales, row, path, line, c, l, k) {
                Some(e) => r[l].contains_key(k) && r[l][k] == e,
                None => r[l].contains_key(k) == t[l].contains_key(k) && (t[l].contains_key(k) ==> r[l][k]
                    == t[l][k]),
            }
        }),
    decreases c,
{
    if c > 0 {
        lemma_cells_entry(t, locales, row, path, line, c - 1, l, k);
        lemma_cells_keep_locales(t, locales, row, path, line, c - 1);
    }
}

proof fn lemma_rows_entry(locales: Seq<Seq<char>>, recs: Seq<RecordView>, path: Seq<char>, n: int, l: Seq<char>, k: Seq<char>)
    requires
        locales.contains(l),
    ensures
        ({
            let r = apply_rows(locales, recs, path, n);
            &&& r.contains_key(l)
            &&& match last_cell(locales, recs, path, n, l, k) {
                Some(e) => r[l].contains_key(k) && r[l][k] == e,
                None => !r[l].contains_key(k),
            }
        }),
    decreases n,
{
    lemma_rows_keep_locales(locales, recs, path, n);
    if n > 1 {
        lemma_rows_entry(locales, recs, path, n - 1, l, k);
        lemma_rows_keep_locales(locales, recs, path, n - 1);
        let t = apply_rows(locales, recs, path, n - 1);
        let row = recs[n - 1].1;
        assert forall|j: int| 0 <= j < locales.len() implies t.contains_key(#[trigger] locales[j]) by {
            assert(locales.to_set().contains(locales[j]));
        }
        if row.len() > 0 {
            lemma_cells_entry(t, locales, row, path, recs[n - 1].0 as nat, locales.len() as int, l, k);
        } else {
            lemma_no_cell_in_empty_row(locales, row, path, recs[n - 1].0 as nat, locales.len() as int, l, k);
        }
    } else {
        assert(header_tables(locales).contains_key(l));
    }
}

proof fn lemma_no_cell_in_empty_row(
    locales: Seq<Seq<char>>,
    row: Seq<Seq<char>>,
    path: Seq<char>,
    line: nat,
    c: int,
    l: Seq<char>,
    k: Seq<char>,
)
    requires
        row.len() == 0,
    ensures
        last_cell_in_row(locales, row, path, line, c, l, k) is None,
    decreases c,
{
    if c > 0 {
        lemma_no_cell_in_empty_row(locales, row, path, line, c - 1, l, k);
    }
}

/// In a unified CSV file, the entry of a key in a locale comes from the last
/// data row with that key whose cell in a column of that locale is not empty:
/// the cell's text trimmed, with the file's path and the row's line. A key with
/// no such cell has no entry, so an empty cell falls back.
pub proof fn law_unified_last_cell_wins(recs: Seq<RecordView>, path: Seq<char>, l: Seq<char>, k: Seq<char>)
    requires
        recs.len() > 0,
        header_locales(recs[0].1).contains(l),
    ensures
        ({
            let m = unified_tables(recs, path);
            &&& m.contains_key(l)
            &&& match last_cell(header_locales(recs[0].1), recs, path, recs.len() as int, l, k) {
                Some(e) => m[l].contains_key(k) && m[l][k] == e,
                None => !m[l].contains_key(k),
            }
        }),
{
    lemma_rows_entry(header_locales(recs[0].1), recs, path, recs.len() as int, l, k);
}

/// The first field of each record, trimmed (empty for a record without fields).
pub open spec fn first_fields(recs: Seq<RawRecordView>) -> Seq<Seq<char>> {
    recs.map_values(|r: RawRecordView| if r.1.len() > 0 { trimmed(r.1[0]) } else { Seq::<char>::empty() })
}

/// How many records a key scan skips at the start: the first record of a root
/// file, and that of a per-locale file when its trimmed first field is `key` or
/// `locale`.
pub open spec fn skipped_records(recs: Seq<RawRecordView>, is_root: bool) -> int {
    if recs.len() > 0 && (is_root || (recs[0].1.len() > 0 && (trimmed(recs[0].1[0]) == "key"@
        || trimmed(recs[0].1[0]) == "locale"@))) {
        1
    } else {
        0
    }
}

proof fn lemma_scanned_prefix(recs: Seq<RawRecordView>, is_root: bool, n: int)
    requires
        0 <= n <= recs.len(),
    ensures
        ({
            let s = if n < skipped_records(recs, is_root) { n } else { skipped_records(recs, is_root) };
            scanned_keys(recs, is_root, n) == first_fields(recs.subrange(s, n)).filter(
                |k: Seq<char>| k.len() > 0,
            )
        }),
    decreases n,
{
    reveal(Seq::filter);
    let pred = |k: Seq<char>| k.len() > 0;
    if n == 0 {
        assert(first_fields(recs.subrange(0, 0)) =~= Seq::<Seq<char>>::empty());
    } else {
        lemma_scanned_prefix(recs, is_root, n - 1);
        let sk = skipped_records(recs, is_root);
        let s = if n < sk { n } else { sk };
        let s0 = if n - 1 < sk { n - 1 } else { sk };
        let f = first_fields(recs.subrange(s, n));
        if n - 1 == 0 && sk == 1 {
            assert(f =~= Seq::<Seq<char>>::empty());
        } else {
            assert(s == s0);
            assert(f.drop_last() =~= first_fields(recs.subrange(s0, n - 1)));
            assert(f.last() == first_fields(recs)[n - 1]);
        }
    }
}

/// The keys of a CSV file are the trimmed first fields of its records, in file
/// order and with repeats, leaving out empty ones and the skipped first record.
pub proof fn law_scanned_keys_are_first_fields(recs: Seq<RawRecordView>, is_root: bool)
    ensures
        scanned_keys(recs, is_root, recs.len() as int) == first_fields(
            recs.skip(skipped_records(recs, is_root)),
        ).filter(|k: Seq<char>| k.len() > 0),
{
    lemma_scanned_prefix(recs, is_root, recs.len() as int);
    assert(recs.subrange(skipped_records(recs, is_root), recs.len() as int) =~= recs.skip(
        skipped_records(recs, is_root),
    ));
}

/// The entry for `k` in the last of the files `fs` that holds `k`.
pub open spec fn last_entry(fs: Seq<SourceFile>, ron: bool, k: Seq<char>) -> Option<EntryView>
    decreases fs.len(),
{
    if fs.len() == 0 {
        None
    } else {
        match locale_file_table(fs.last(), ron) {
            Some(m) => if m.contains_key(k) {
                Some(m[k])
            } else {
                last_entry(fs.drop_last(), ron, k)
            },
            None => last_entry(fs.drop_last(), ron, k),
        }
    }
}

/// Within a locale, the last file that defines a key decides its entry; a key
/// that no file defines keeps what it had.
pub proof fn law_later_files_win(t: Tables, l: Seq<char>, fs: Seq<SourceFile>, ron: bool, k: Seq<char>)
    ensures
        ({
            let r = locale_fold(t, l, fs, ron);
            match last_entry(fs, ron, k) {
                Some(e) => r.contains_key(l) && r[l].contains_key(k) && r[l][k] == e,
                None => table_or_empty(r, l).contains_key(k) == table_or_empty(t, l).contains_key(k)
                    && (table_or_empty(t, l).contains_key(k) ==> table_or_empty(r, l)[k]
                    == table_or_empty(t, l)[k]),
            }
        }),
    decreases fs.len(),
{
    if fs.len() > 0 {
        law_later_files_win(t, l, fs.drop_last(), ron, k);
    }
}

/// A key that a locale's RON file defines takes the entry of the last such RON
/// file, whatever its CSV files hold.
pub proof fn law_ron_overrides_csv(t: Tables, l: Seq<char>, listing: DirListing, k: Seq<char>)
    requires
        listing is Files,
        last_entry(selected(listing->Files_0@, ron_suffix()), true, k) is Some,
    ensures
        locale_load(t, l, listing)[l][k] == last_entry(selected(listing->Files_0@, ron_suffix()), true, k).unwrap(),
        locale_load(t, l, listing)[l].contains_key(k),
{
    let fs = listing->Files_0@;
    let t1 = locale_fold(t, l, selected(fs, csv_suffix()), false);
    law_later_files_win(t1, l, selected(fs, ron_suffix()), true, k);
}

proof fn lemma_fold_keeps_other_locales(t: Tables, l: Seq<char>, fs: Seq<SourceFile>, ron: bool, o: Seq<char>)
    requires
        o != l,
    ensures
        locale_fold(t, l, fs, ron).contains_key(o) == t.contains_key(o),
        t.contains_key(o) ==> locale_fold(t, l, fs, ron)[o] == t[o],
    decreases fs.len(),
{
    if fs.len() > 0 {
        lemma_fold_keeps_other_locales(t, l, fs.drop_last(), ron, o);
    }
}

/// Loading a locale's directory merges its CSV files, then its RON files, each
/// set in name order: a key takes its entry from the last RON file that defines
/// it, else from the last CSV file that does, else keeps what it had; the
/// tables of other locales are unchanged, and a directory that cannot be
/// listed changes nothing.
pub proof fn law_locale_load_precedence(t: Tables, l: Seq<char>, listing: DirListing, k: Seq<char>, o: Seq<char>)
    requires
        o != l,
    ensures
        ({
            let r = locale_load(t, l, listing);
            &&& r.contains_key(o) == t.contains_key(o)
            &&& t.contains_key(o) ==> r[o] == t[o]
            &&& listing is Failed ==> r == t
            &&& listing is Files ==> {
                let fs = listing->Files_0@;
                match last_entry(selected(fs, ron_suffix()), true, k) {
                    Some(e) => r.contains_key(l) && r[l].contains_key(k) && r[l][k] == e,
                    None => match last_entry(selected(fs, csv_suffix()), false, k) {
                        Some(e) => r.contains_key(l) && r[l].contains_key(k) && r[l][k] == e,
                        None => table_or_empty(r, l).contains_key(k) == table_or_empty(t, l).contains_key(k)
                            && (table_or_empty(t, l).contains_key(k) ==> table_or_empty(r, l)[k]
                            == table_or_empty(t, l)[k]),
                    },
                }
            }
        }),
{
    match listing {
        DirListing::Files(files) => {
            let fs = files@;
            let t1 = locale_fold(t, l, selected(fs, csv_suffix()), false);
            law_later_files_win(t, l, selected(fs, csv_suffix()), false, k);
            law_later_files_win(t1, l, selected(fs, ron_suffix()), true, k);
            lemma_fold_keeps_other_locales(t, l, selected(fs, csv_suffix()), false, o);
            lemma_fold_keeps_other_locales(t1, l, selected(fs, ron_suffix()), true, o);
        },
        DirListing::Failed { .. } => {},
    }
}

/// How much loading a lookup still owes: each locale directory counts two,
/// the root CSVs one.
pub open spec fn owed_weight(ctx: &VernacularContext) -> nat {
    let l = ctx.active();
    let f = ctx.fallback();
    (if !ctx.loaded().contains(l) { 2nat } else { 0nat }) + (if l != f && !ctx.loaded().contains(f) {
        2nat
    } else {
        0nat
    }) + (if !ctx.root_loaded() { 1nat } else { 0nat })
}

/// Completing the step that a lookup owes lowers what it owes, so a lookup
/// reads at most three directories; when nothing is owed, the weight is at most one.
pub proof fn law_lookup_loading_terminates(before: &VernacularContext, after: &VernacularContext)
    requires
        before.owed_for_lookup() is Some,
        after.current() == before.current(),
        after.fallback() == before.fallback(),
        match before.owed_for_lookup().unwrap() {
            None => after.root_loaded() && after.loaded() == before.loaded(),
            Some(l) => after.root_loaded() == before.root_loaded() && after.loaded() == before.loaded().insert(l),
        },
    ensures
        owed_weight(after) < owed_weight(before),
        owed_weight(before) <= 5,
        after.owed_for_lookup() is None ==> owed_weight(after) <= 1,
{
}

/// How much loading a locale still owes: its directory counts two, the root
/// CSVs one.
pub open spec fn owed_weight_for(ctx: &VernacularContext, l: Seq<char>) -> nat {
    (if !ctx.loaded().contains(l) { 2nat } else { 0nat }) + (if !ctx.root_loaded() { 1nat } else { 0nat })
}

/// Completing the step that loading a locale owes lowers what it owes, so
/// setting a locale reads at most two directories before the locale and the
/// root CSVs are loaded.
pub proof fn law_locale_loading_terminates(before: &VernacularContext, after: &VernacularContext, l: Seq<char>)
    requires
        owed_for_locale(before.root_loaded(), before.loaded(), l) is Some,
        match owed_for_locale(before.root_loaded(), before.loaded(), l).unwrap() {
            None => after.root_loaded() && after.loaded() == before.loaded(),
            Some(d) => after.root_loaded() == before.root_loaded() && after.loaded() == before.loaded().insert(d),
        },
    ensures
        owed_weight_for(after, l) < owed_weight_for(before, l),
        owed_weight_for(before, l) <= 3,
        owed_for_locale(after.root_loaded(), after.loaded(), l) is None ==> after.root_loaded()
            && after.loaded().contains(l),
{
}

/// `after` is `before` once the step that loading `l` owes was completed, or
/// `before` unchanged in what it has loaded when nothing is owed: the settings
/// stay, and the root CSVs or `l`'s directory are marked as loaded.
pub open spec fn completes_owed_step(before: &VernacularContext, after: &VernacularContext, l: Seq<char>) -> bool {
    &&& after.current() == before.current()
    &&& after.fallback() == before.fallback()
    &&& after.path() == before.path()
    &&& match owed_for_locale(before.root_loaded(), before.loaded(), l) {
        None => after.root_loaded() == before.root_loaded() && after.loaded() == before.loaded(),
        Some(None) => after.root_loaded() && after.loaded() == before.loaded(),
        Some(Some(d)) => after.root_loaded() == before.root_loaded() && after.loaded()
            == before.loaded().insert(d),
    }
}

/// Setting a locale: an empty one changes nothing; a non-empty one becomes
/// current, and after the at most two steps that loading it owes (the root CSV
/// files, then its directory) both are loaded and nothing more is owed, with
/// the fallback locale and the content path as they were.
pub proof fn law_set_locale_loads_it(
    c0: &VernacularContext,
    c1: &VernacularContext,
    c2: &VernacularContext,
    c3: &VernacularContext,
    l: Seq<char>,
)
    requires
        c1.current() == (if l.len() > 0 { Some(l) } else { c0.current() }),
        c1.fallback() == c0.fallback(),
        c1.path() == c0.path(),
        c1.tables() == c0.tables(),
        c1.root_loaded() == c0.root_loaded(),
        c1.loaded() == c0.loaded(),
        completes_owed_step(c1, c2, l),
        completes_owed_step(c2, c3, l),
    ensures
        l.len() == 0 ==> c1.current() == c0.current(),
        l.len() > 0 ==> c3.current() == Some(l),
        c3.root_loaded(),
        c3.loaded().contains(l),
        owed_for_locale(c3.root_loaded(), c3.loaded(), l) is None,
        c3.fallback() == c0.fallback(),
        c3.path() == c0.path(),
{
}

/// When a lookup owes nothing, the root CSV files, the active locale and the
/// fallback locale are all loaded.
pub proof fn law_nothing_owed_means_loaded(ctx: &VernacularContext)
    requires
        ctx.wf(),
        ctx.owed_for_lookup() is None,
    ensures
        ctx.root_loaded(),
        ctx.loaded().contains(ctx.active()),
        ctx.loaded().contains(ctx.fallback()),
{
    ctx.lemma_root_before_locales();
}

/// The locale that the last of `calls` to set a locale chose: the last that is
/// not empty, or none.
pub open spec fn last_set_locale(calls: Seq<Seq<char>>) -> Option<Seq<char>>
    decreases calls.len(),
{
    if calls.len() == 0 {
        None
    } else if calls.last().len() > 0 {
        Some(calls.last())
    } else {
        last_set_locale(calls.drop_last())
    }
}

/// The current locale is the last non-empty one that was set: none for a new
/// context, and each call to set a locale keeps this so.
pub proof fn law_current_locale_is_last_set(
    before: &VernacularContext,
    after: &VernacularContext,
    calls: Seq<Seq<char>>,
    locale: Seq<char>,
)
    requires
        before.current() == last_set_locale(calls),
        after.current() == (if locale.len() > 0 { Some(locale) } else { before.current() }),
    ensures
        last_set_locale(Seq::<Seq<char>>::empty()) is None,
        after.current() == last_set_locale(calls.push(locale)),
{
    assert(calls.push(locale).drop_last() =~= calls);
}

/// A context whose cache was cleared reads the root CSV files first.
pub proof fn law_cleared_context_reads_root_first(ctx: &VernacularContext)
    requires
        !ctx.root_loaded(),
        ctx.loaded() == Set::<Seq<char>>::empty(),
    ensures
        ctx.owed_for_lookup() == Some(None::<Seq<char>>),
{
}

/// Two strictly sorted sequences of texts with the same elements are equal.
pub proof fn lemma_sorted_by_set(a: Seq<Seq<char>>, b: Seq<Seq<char>>)
    requires
        strictly_sorted(a),
        strictly_sorted(b),
        a.to_set() == b.to_set(),
    ensures
        a == b,
    decreases a.len() + b.len(),
{
    if a.len() == 0 {
        if b.len() > 0 {
            assert(b.to_set().contains(b[0]));
        }
        assert(a =~= b);
    } else if b.len() == 0 {
        assert(a.to_set().contains(a[0]));
    } else {
        assert(b.to_set().contains(a[0]));
        assert(a.to_set().contains(b[0]));
        let i = choose|i: int| 0 <= i < a.len() && a[i] == b[0];
        let j = choose|j: int| 0 <= j < b.len() && b[j] == a[0];
        if a[0] != b[0] {
            assert(i > 0 && j > 0);
            assert(text_lt(a[0], a[i]));
            assert(text_lt(b[0], b[j]));
            lemma_text_order(a[0], b[0], a[0]);
        }
        let a1 = a.drop_first();
        let b1 = b.drop_first();
        assert(strictly_sorted(a1)) by {
            assert forall|x: int, y: int| 0 <= x < y < a1.len() implies text_lt(#[trigger] a1[x], #[trigger] a1[y]) by {
                assert(a1[x] == a[x + 1] && a1[y] == a[y + 1]);
            }
        }
        assert(strictly_sorted(b1)) by {
            assert forall|x: int, y: int| 0 <= x < y < b1.len() implies text_lt(#[trigger] b1[x], #[trigger] b1[y]) by {
                assert(b1[x] == b[x + 1] && b1[y] == b[y + 1]);
            }
        }
        assert(a1.to_set() =~= b1.to_set()) by {
            assert forall|x: Seq<char>| a1.to_set().contains(x) implies b1.to_set().contains(x) by {
                let p = choose|p: int| 0 <= p < a1.len() && a1[p] == x;
                assert(a[p + 1] == x);
                lemma_text_order(a[0], x, x);
                assert(text_lt(a[0], a[p + 1]));
                assert(b.to_set().contains(x));
                let q = choose|q: int| 0 <= q < b.len() && b[q] == x;
                if q == 0 {
                    lemma_text_order(x, x, x);
                }
                assert(q > 0);
                assert(b1[q - 1] == x);
            }
            assert forall|x: Seq<char>| b1.to_set().contains(x) implies a1.to_set().contains(x) by {
                let p = choose|p: int| 0 <= p < b1.len() && b1[p] == x;
                assert(b[p + 1] == x);
                assert(text_lt(b[0], b[p + 1]));
                assert(a.to_set().contains(x));
                let q = choose|q: int| 0 <= q < a.len() && a[q] == x;
                if q == 0 {
                    lemma_text_order(x, x, x);
                }
                assert(q > 0);
                assert(a1[q - 1] == x);
            }
        }
        lemma_sorted_by_set(a1, b1);
        assert(a =~= seq![a[0]] + a1);
        assert(b =~= seq![b[0]] + b1);
    }
}

/// The locales found do not depend on the order in which the directory names
/// were listed, nor on repeated names: names with the same visible names give
/// the same locales.
pub proof fn law_available_locales_order_free(
    names1: Seq<Seq<char>>,
    names2: Seq<Seq<char>>,
    r1: Seq<Seq<char>>,
    r2: Seq<Seq<char>>,
)
    requires
        visible_names(names1) == visible_names(names2),
        strictly_sorted(r1),
        r1.to_set() == visible_names(names1),
        strictly_sorted(r2),
        r2.to_set() == visible_names(names2),
    ensures
        r1 == r2,
{
    lemma_sorted_by_set(r1, r2);
}

/// For a key whose text has no braces, the formatted lookup gives the same
/// text as the plain lookup, whatever the arguments.
pub proof fn law_formatted_lookup_agrees(ctx: &VernacularContext, key: Seq<char>, args: Seq<Seq<char>>)
    requires
        ctx.wf(),
        ctx.lookup(key) matches Some(e) ==> !e.0.contains('{') && !e.0.contains('}'),
    ensures
        ctx.lookup(key) matches Some(e) ==> render(encode_utf8(e.0), e.1, args) == e.0,
{
    ctx.lemma_lookup_wf(key);
    if let Some(e) = ctx.lookup(key) {
        law_text_without_braces_renders_as_itself(e.0, args);
    }
}

/// Rendering appends each part's own text to what came before: a text span
/// gives the text of its byte range, the escapes give `{` and `}`, and an
/// argument `k` gives `args[k]` whenever it exists (at every occurrence, however
/// often `k` appeared before), else `{k}` written back.
pub proof fn law_render_appends_each_part(
    b: Seq<u8>,
    parts: Seq<TemplatePart>,
    p: TemplatePart,
    args: Seq<Seq<char>>,
)
    ensures
        render(b, Seq::<TemplatePart>::empty(), args) == Seq::<char>::empty(),
        render(b, parts.push(p), args) == render(b, parts, args) + match p {
            TemplatePart::Text { start, end } => decode_utf8(b.subrange(start as int, end as int)),
            TemplatePart::LiteralOpen => seq!['{'],
            TemplatePart::LiteralClose => seq!['}'],
            TemplatePart::Arg(k) => if k < args.len() {
                args[k as int]
            } else {
                seq!['{'] + decimal(k as nat) + seq!['}']
            },
        },
{
    assert(parts.push(p).drop_last() =~= parts);
}

/// Rendering a template made of two parts in a row gives the two renderings in
/// a row: what a part gives does not depend on the parts before it.
pub proof fn law_render_concatenates(b: Seq<u8>, x: Seq<TemplatePart>, y: Seq<TemplatePart>, args: Seq<Seq<char>>)
    ensures
        render(b, x + y, args) == render(b, x, args) + render(b, y, args),
    decreases y.len(),
{
    if y.len() == 0 {
        assert(x + y =~= x);
        assert(render(b, y, args) =~= Seq::<char>::empty());
        assert(render(b, x, args) + Seq::<char>::empty() =~= render(b, x, args));
    } else {
        law_render_concatenates(b, x, y.drop_last(), args);
        assert((x + y).drop_last() =~= x + y.drop_last());
        assert((x + y).last() == y.last());
        assert(render(b, x + y, args) =~= render(b, x, args) + render(b, y, args));
    }
}

/// A lookup gives the active locale's entry whenever that locale's table holds
/// the key, whatever its text (the empty text too); only a key absent from the
/// active locale is looked up in the fallback locale, and a key absent from
/// both finds nothing.
pub proof fn law_lookup_prefers_active_entry(ctx: &VernacularContext, key: Seq<char>)
    ensures
        ({
            let t = ctx.tables();
            let l = ctx.active();
            let f = ctx.fallback();
            &&& t.contains_key(l) && t[l].contains_key(key) ==> ctx.lookup(key) == Some(t[l][key])
            &&& !(t.contains_key(l) && t[l].contains_key(key)) && l != f && t.contains_key(f)
                && t[f].contains_key(key) ==> ctx.lookup(key) == Some(t[f][key])
            &&& !(t.contains_key(l) && t[l].contains_key(key)) && !(l != f && t.contains_key(f)
                && t[f].contains_key(key)) ==> ctx.lookup(key) is None
        }),
{
}

/// Merging tables `d` into `t` is a union per locale with `d`'s entries
/// winning: every locale and every key of either stays, a key of `d` takes
/// `d`'s entry, and a key that `d` does not define keeps `t`'s.
pub proof fn law_merge_is_union(t: Tables, d: Tables, l: Seq<char>, k: Seq<char>)
    ensures
        merge_all(t, d).contains_key(l) == (t.contains_key(l) || d.contains_key(l)),
        merge_all(t, d).contains_key(l) ==> (merge_all(t, d)[l].contains_key(k) <==> ((t.contains_key(l)
            && t[l].contains_key(k)) || (d.contains_key(l) && d[l].contains_key(k)))),
        d.contains_key(l) && d[l].contains_key(k) ==> merge_all(t, d)[l][k] == d[l][k],
        t.contains_key(l) && t[l].contains_key(k) && !(d.contains_key(l) && d[l].contains_key(k))
            ==> merge_all(t, d)[l][k] == t[l][k],
{
}

/// Loading root CSV files never removes an entry: a key that a locale held
/// before keeps an entry, and keeps its own one unless a file defines the key
/// for that locale.
pub proof fn law_root_load_keeps_entries(t: Tables, fs: Seq<SourceFile>, l: Seq<char>, k: Seq<char>)
    requires
        t.contains_key(l),
        t[l].contains_key(k),
    ensures
        root_fold(t, fs).contains_key(l),
        root_fold(t, fs)[l].contains_key(k),
        (forall|i: int|
            0 <= i < fs.len() ==> !(#[trigger] root_file_tables(fs[i]) matches Some(d) && d.contains_key(l)
                && d[l].contains_key(k))) ==> root_fold(t, fs)[l][k] == t[l][k],
    decreases fs.len(),
{
    if fs.len() > 0 {
        law_root_load_keeps_entries(t, fs.drop_last(), l, k);
        assert forall|i: int| 0 <= i < fs.drop_last().len() implies fs.drop_last()[i] == fs[i] by {}
        let t1 = root_fold(t, fs.drop_last());
        match root_file_tables(fs.last()) {
            Some(d) => {
                law_merge_is_union(t1, d, l, k);
            },
            None => {},
        }
    }
}

/// Loading the root directory never removes an entry.
pub proof fn law_root_directory_keeps_entries(t: Tables, listing: DirListing, l: Seq<char>, k: Seq<char>)
    requires
        t.contains_key(l),
        t[l].contains_key(k),
    ensures
        root_load(t, listing).contains_key(l),
        root_load(t, listing)[l].contains_key(k),
{
    match listing {
        DirListing::Files(fs) => law_root_load_keeps_entries(t, selected(fs@, csv_suffix()), l, k),
        DirListing::Failed { .. } => {},
    }
}

/// The table of a RON file has exactly the keys of its map, each entry holding
/// the map's text unchanged (the empty text too), its parsed template, the
/// file's path and line 0.
pub proof fn law_ron_table_keeps_every_pair(m: Map<Seq<char>, Seq<char>>, path: Seq<char>, k: Seq<char>)
    ensures
        ron_table(m, path).dom() == m.dom(),
        m.contains_key(k) ==> ron_table(m, path)[k] == (m[k], template_of(encode_utf8(m[k])), path, 0nat),
{
    assert(ron_table(m, path).dom() =~= m.dom());
}

/// Record `r` of a per-locale CSV file defines key `k`: it has at least two
/// fields, its first is `k`, its second is not the empty text (a blank one
/// counts), and it is not a `key,value` header in first place.
pub open spec fn record_defines(recs: Seq<RecordView>, r: int, k: Seq<char>) -> bool {
    &&& 0 <= r < recs.len()
    &&& recs[r].1.len() >= 2
    &&& recs[r].1[0] == k
    &&& recs[r].1[1].len() > 0
    &&& !(r == 0 && recs[r].1[0] == "key"@ && recs[r].1[1] == "value"@)
}

proof fn lemma_locale_rows_last_wins(recs: Seq<RecordView>, path: Seq<char>, n: int, k: Seq<char>)
    requires
        0 <= n <= recs.len(),
    ensures
        locale_rows(recs, path, n).contains_key(k) <==> exists|r: int| r < n && #[trigger] record_defines(recs, r, k),
        forall|r: int|
            #[trigger] record_defines(recs, r, k) && r < n && (forall|r2: int| r < r2 < n ==> !record_defines(recs, r2, k))
                ==> locale_rows(recs, path, n)[k] == (recs[r].1[1], template_of(encode_utf8(recs[r].1[1])), path, recs[r].0 as nat),
    decreases n,
{
    if n > 0 {
        lemma_locale_rows_last_wins(recs, path, n - 1, k);
        let row = recs[n - 1].1;
        if record_defines(recs, n - 1, k) {
            assert forall|r: int|
                #[trigger] record_defines(recs, r, k) && r < n && (forall|r2: int| r < r2 < n ==> !record_defines(recs, r2, k))
                implies r == n - 1 by {
                if r < n - 1 {
                    assert(!record_defines(recs, n - 1, k));
                }
            }
        } else {
            assert forall|r: int| r < n && #[trigger] record_defines(recs, r, k) implies r < n - 1 by {}
        }
    }
}

/// In a per-locale CSV file, a key has an entry exactly when some record
/// defines it, and the entry holds the second field, exactly as written, of
/// the last record that does, with the file's path and that record's line.
pub proof fn law_locale_csv_last_record_wins(recs: Seq<RecordView>, path: Seq<char>, k: Seq<char>)
    ensures
        locale_table(recs, path).contains_key(k) <==> exists|r: int| #[trigger] record_defines(recs, r, k),
        forall|r: int|
            #[trigger] record_defines(recs, r, k) && (forall|r2: int| r < r2 < recs.len() ==> !record_defines(recs, r2, k))
                ==> locale_table(recs, path)[k] == (recs[r].1[1], template_of(encode_utf8(recs[r].1[1])), path, recs[r].0 as nat),
{
    lemma_locale_rows_last_wins(recs, path, recs.len() as int, k);
}

/// The number that a run of decimal digit characters spells.
pub open spec fn chars_value(s: Seq<char>) -> nat
    decreases s.len(),
{
    if s.len() == 0 {
        0
    } else {
        chars_value(s.drop_last()) * 10 + ((s.last() as int) - 48) as nat
    }
}

proof fn lemma_digit_char(d: nat)
    requires
        d < 10,
    ensures
        crate::text::digit_char(d) as int == 48 + d,
        '0' <= crate::text::digit_char(d) <= '9',
{
    assert(('0' as int) == 48 && ('1' as int) == 49 && ('2' as int) == 50 && ('3' as int) == 51
        && ('4' as int) == 52 && ('5' as int) == 53 && ('6' as int) == 54 && ('7' as int) == 55
        && ('8' as int) == 56 && ('9' as int) == 57);
}

/// The text written back for an argument index is its decimal form: decimal
/// digits only, spelling the number, with no leading zero.
pub proof fn law_decimal_spells_the_number(n: nat)
    ensures
        decimal(n).len() > 0,
        forall|i: int| 0 <= i < decimal(n).len() ==> '0' <= #[trigger] decimal(n)[i] <= '9',
        chars_value(decimal(n)) == n,
        n > 0 ==> decimal(n)[0] != '0',
    decreases n,
{
    if n < 10 {
        lemma_digit_char(n);
        let d = decimal(n);
        assert(d.drop_last() =~= Seq::<char>::empty());
        assert(chars_value(d.drop_last()) == 0);
        assert(d.last() == crate::text::digit_char(n));
        assert(chars_value(d) == chars_value(d.drop_last()) * 10 + ((d.last() as int) - 48) as nat);
    } else {
        lemma_digit_char(n % 10);
        law_decimal_spells_the_number(n / 10);
        let d = decimal(n);
        let h = decimal(n / 10);
        assert(d == h + seq![crate::text::digit_char(n % 10)]);
        assert(d.drop_last() =~= h);
        assert(n == (n / 10) * 10 + n % 10);
        assert forall|i: int| 0 <= i < d.len() implies '0' <= #[trigger] d[i] <= '9' by {
            if i < h.len() {
                assert(d[i] == h[i]);
            }
        }
        assert(d[0] == h[0]);
        assert(d.last() == crate::text::digit_char(n % 10));
        assert(chars_value(d) == chars_value(d.drop_last()) * 10 + ((d.last() as int) - 48) as nat);
        assert(chars_value(d) == (n / 10) * 10 + n % 10);
    }
}

proof fn lemma_trim_start(s: Seq<char>) -> (i: int)
    ensures
        0 <= i <= s.len(),
        trim_start(s) == s.skip(i),
        forall|j: int| 0 <= j < i ==> is_ws(#[trigger] s[j]),
        i < s.len() ==> !is_ws(s[i]),
    decreases s.len(),
{
    if s.len() > 0 && is_ws(s[0]) {
        let i1 = lemma_trim_start(s.drop_first());
        assert(s.drop_first().skip(i1) =~= s.skip(i1 + 1));
        assert forall|j: int| 0 <= j < i1 + 1 implies is_ws(#[trigger] s[j]) by {
            if j > 0 {
                assert(s[j] == s.drop_first()[j - 1]);
            }
        }
        i1 + 1
    } else {
        assert(s.skip(0) =~= s);
        0
    }
}

proof fn lemma_trim_end(s: Seq<char>) -> (j: int)
    ensures
        0 <= j <= s.len(),
        trim_end(s) == s.take(j),
        forall|k: int| j <= k < s.len() ==> is_ws(#[trigger] s[k]),
        j > 0 ==> !is_ws(s[j - 1]),
    decreases s.len(),
{
    if s.len() > 0 && is_ws(s.last()) {
        let j1 = lemma_trim_end(s.drop_last());
        assert(s.drop_last().take(j1) =~= s.take(j1));
        assert forall|k: int| j1 <= k < s.len() implies is_ws(#[trigger] s[k]) by {
            if k < s.len() - 1 {
                assert(s[k] == s.drop_last()[k]);
            }
        }
        j1
    } else {
        assert(s.take(s.len() as int) =~= s);
        s.len() as int
    }
}

/// Trimming a cell removes exactly its leading and trailing whitespace: the
/// result is the part of the text between them, and it neither starts nor ends
/// with whitespace.
pub proof fn law_trimmed_cuts_outer_whitespace(s: Seq<char>)
    ensures
        exists|i: int, j: int|
            0 <= i <= j <= s.len() && #[trigger] trimmed(s) == s.subrange(i, j)
                && (forall|k: int| 0 <= k < i ==> is_ws(#[trigger] s[k]))
                && (forall|k: int| j <= k < s.len() ==> is_ws(#[trigger] s[k])),
        trimmed(s).len() > 0 ==> !is_ws(trimmed(s)[0]) && !is_ws(trimmed(s).last()),
{
    let i = lemma_trim_start(s);
    let u = s.skip(i);
    let j0 = lemma_trim_end(u);
    assert(trimmed(s) == u.take(j0));
    assert(u.take(j0) =~= s.subrange(i, i + j0));
    assert forall|k: int| i + j0 <= k < s.len() implies is_ws(#[trigger] s[k]) by {
        assert(s[k] == u[k - i]);
    }
    assert(trimmed(s) == s.subrange(i, i + j0));
    if trimmed(s).len() > 0 {
        assert(trimmed(s)[0] == s[i]);
        assert(trimmed(s).last() == u[j0 - 1]);
    }
}

/// The arguments handed to a template are taken one for one, in order, by
/// their characters.
pub proof fn law_arguments_are_taken_in_order(args: Seq<&str>)
    ensures
        arg_texts(args).len() == args.len(),
        forall|i: int| 0 <= i < args.len() ==> #[trigger] arg_texts(args)[i] == args[i]@,
{
}

/// The line of a record is the line where the reader began reading it, moved
/// past each empty line before its first field: a line feed there counts one
/// more line, a carriage return none, and any other byte (or the end of the
/// file) is where the record starts.
pub proof fn law_record_line_skips_empty_lines(content: Seq<u8>, b: u64, l: u64)
    requires
        l < u64::MAX,
        b < u64::MAX,
    ensures
        b < content.len() && content[b as int] == 10u8 ==> start_line(content, Some((b, l))) == start_line(
            content,
            Some(((b + 1) as u64, (l + 1) as u64)),
        ),
        b < content.len() && content[b as int] == 13u8 ==> start_line(content, Some((b, l))) == start_line(
            content,
            Some(((b + 1) as u64, l)),
        ),
        !(b < content.len() && (content[b as int] == 10u8 || content[b as int] == 13u8)) ==> start_line(
            content,
            Some((b, l)),
        ) == if l <= usize::MAX {
            l as usize
        } else {
            usize::MAX
        },
        start_line(content, None) == 0,
{
}

} // verus!
