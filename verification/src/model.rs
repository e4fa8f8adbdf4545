//! Translation entries and their pre-parsed templates.
use vstd::prelude::*;
use std::sync::Arc;
use vstd::utf8::*;
use vstd::string::StringExecFns;
use crate::text::{decimal, decimal_string};

verus! {

/// `{` as a byte.
pub open spec fn open_byte() -> u8 {
    123u8
}

/// `}` as a byte.
pub open spec fn close_byte() -> u8 {
    125u8
}

pub open spec fn is_digit_byte(c: u8) -> bool {
    48 <= c <= 57
}

/// A part of a pre-parsed template.
///
/// Text spans reference byte ranges into the parent [`TranslationEntry::value`] string.
#[derive(Debug, Clone, Copy, PartialEq, Eq)]
pub enum TemplatePart {
    /// Byte range `[start..end)` into the entry's `value` string.
    Text { start: usize, end: usize },
    /// A literal `{` produced by the `{{` escape sequence.
    LiteralOpen,
    /// A literal `}` produced by the `}}` escape sequence.
    LiteralClose,
    /// Argument index (e.g. `{0}`). For `{}`, sequential indices are assigned.
    Arg(usize),
}

/// The first position at or after `j` that does not hold an ASCII digit.
pub open spec fn digits_end(b: Seq<u8>, j: int) -> int
    decreases b.len() - j,
{
    if 0 <= j < b.len() && is_digit_byte(b[j]) {
        digits_end(b, j + 1)
    } else {
        j
    }
}

/// The number that a run of ASCII digits spells in decimal.
pub open spec fn digits_value(d: Seq<u8>) -> nat
    decreases d.len(),
{
    if d.len() == 0 {
        0
    } else {
        digits_value(d.drop_last()) * 10 + (d.last() - 48) as nat
    }
}

pub proof fn lemma_digits_end_bounds(b: Seq<u8>, j: int)
    requires
        0 <= j <= b.len(),
    ensures
        j <= digits_end(b, j) <= b.len(),
        forall|k: int| j <= k < digits_end(b, j) ==> is_digit_byte(#[trigger] b[k]),
        digits_end(b, j) < b.len() ==> !is_digit_byte(b[digits_end(b, j)]),
    decreases b.len() - j,
{
    if j < b.len() && is_digit_byte(b[j]) {
        lemma_digits_end_bounds(b, j + 1);
    }
}

/// A text span `[last, i)` when it is not empty.
pub open spec fn text_before(last: int, i: int) -> Seq<TemplatePart> {
    if last < i {
        seq![TemplatePart::Text { start: last as usize, end: i as usize }]
    } else {
        seq![]
    }
}

/// `{` at `i` opens a positional argument `{N}`: digits up to a `}`, and `N` fits a `usize`.
pub open spec fn is_positional(b: Seq<u8>, i: int) -> bool {
    let j = digits_end(b, i + 1);
    &&& j < b.len()
    &&& b[j] == close_byte()
    &&& digits_value(b.subrange(i + 1, j)) <= usize::MAX
}

/// The template of the bytes `b`, scanned from position `i`, where the pending
/// text starts at `last` and the next sequential argument is `next`.
pub open spec fn scan(b: Seq<u8>, i: int, last: int, next: nat) -> Seq<TemplatePart>
    decreases b.len() - i,
{
    if i < 0 || i >= b.len() {
        if 0 <= last < b.len() {
            seq![TemplatePart::Text { start: last as usize, end: b.len() as usize }]
        } else {
            seq![]
        }
    } else if b[i] == open_byte() && i + 1 < b.len() && b[i + 1] == open_byte() {
        text_before(last, i) + seq![TemplatePart::LiteralOpen] + scan(b, i + 2, i + 2, next)
    } else if b[i] == open_byte() && i + 1 < b.len() && b[i + 1] == close_byte() {
        text_before(last, i) + seq![TemplatePart::Arg(next as usize)] + scan(
            b,
            i + 2,
            i + 2,
            next + 1,
        )
    } else if b[i] == open_byte() && is_positional(b, i) {
        let j = digits_end(b, i + 1);
        proof {
            lemma_digits_end_bounds(b, i + 1);
        }
        text_before(last, i) + seq![
            TemplatePart::Arg(digits_value(b.subrange(i + 1, j)) as usize),
        ] + scan(b, j + 1, j + 1, next)
    } else if b[i] == close_byte() && i + 1 < b.len() && b[i + 1] == close_byte() {
        text_before(last, i) + seq![TemplatePart::LiteralClose] + scan(b, i + 2, i + 2, next)
    } else {
        scan(b, i + 1, last, next)
    }
}

/// The template of a string whose UTF-8 bytes are `b`: text spans, `{{` and `}}`
/// escapes, `{}` arguments numbered in order of appearance, and `{N}` arguments.
pub open spec fn template_of(b: Seq<u8>) -> Seq<TemplatePart> {
    scan(b, 0, 0, 0)
}

fn digits_end_at(b: &[u8], j: usize) -> (r: usize)
    requires
        j <= b@.len(),
    ensures
        r == digits_end(b@, j as int),
{
    proof {
        lemma_digits_end_bounds(b@, j as int);
    }
    let mut k = j;
    while k < b.len() && b[k] >= 48 && b[k] <= 57
        invariant
            j <= k <= b@.len(),
            digits_end(b@, k as int) == digits_end(b@, j as int),
        decreases b@.len() - k,
    {
        k += 1;
    }
    k
}

proof fn lemma_digits_value_grows(d: Seq<u8>, k: int)
    requires
        0 <= k <= d.len(),
        forall|x: int| 0 <= x < d.len() ==> is_digit_byte(#[trigger] d[x]),
    ensures
        digits_value(d.take(k)) <= digits_value(d),
    decreases d.len() - k,
{
    if k < d.len() {
        assert(d.take(k + 1).drop_last() =~= d.take(k));
        lemma_digits_value_grows(d, k + 1);
    } else {
        assert(d.take(k) =~= d);
    }
}

/// `str::parse::<usize>` on the digits `b[from..to]`.
fn parse_digits(b: &[u8], from: usize, to: usize) -> (r: Option<usize>)
    requires
        from <= to <= b@.len(),
        forall|x: int| from <= x < to ==> is_digit_byte(#[trigger] b@[x]),
    ensures
        r == (if digits_value(b@.subrange(from as int, to as int)) <= usize::MAX {
            Some(digits_value(b@.subrange(from as int, to as int)) as usize)
        } else {
            None::<usize>
        }),
{
    let ghost d = b@.subrange(from as int, to as int);
    let mut v: usize = 0;
    let mut k = from;
    while k < to
        invariant
            from <= k <= to <= b@.len(),
            d == b@.subrange(from as int, to as int),
            forall|x: int| from <= x < to ==> is_digit_byte(#[trigger] b@[x]),
            v == digits_value(d.take(k - from)),
        decreases to - k,
    {
        let digit = (b[k] - 48) as usize;
        proof {
            assert(d.take(k - from + 1).drop_last() =~= d.take(k - from));
            assert(d.take(k - from + 1).last() == b@[k as int]);
        }
        match v.checked_mul(10) {
            Some(t) => match t.checked_add(digit) {
                Some(u) => {
                    v = u;
                },
                None => {
                    proof {
                        lemma_digits_value_grows(d, k - from + 1);
                    }
                    return None;
                },
            },
            None => {
                proof {
                    lemma_digits_value_grows(d, k - from + 1);
                    assert(digits_value(d.take(k - from + 1)) >= v * 10);
                }
                return None;
            },
        }
        k += 1;
    }
    proof {
        assert(d.take(to - from) =~= d);
    }
    Some(v)
}

impl TemplatePart {
    /// `Text` from `start` to `end`, when the span is not empty.
    fn push_text(parts: &mut Vec<TemplatePart>, start: usize, end: usize)
        ensures
            final(parts)@ == old(parts)@ + text_before(start as int, end as int),
    {
        if start < end {
            parts.push(TemplatePart::Text { start, end });
        } else {
            proof {
                assert(old(parts)@ + text_before(start as int, end as int) =~= old(parts)@);
            }
        }
    }
}

fn template_parts(raw: &str) -> (parts: Vec<TemplatePart>)
    ensures
        parts@ == template_of(encode_utf8(raw@)),
        encode_utf8(raw@).len() <= usize::MAX,
{
    let b = raw.as_bytes();
    let n = b.len();
    let mut parts: Vec<TemplatePart> = Vec::new();
    let mut i: usize = 0;
    let mut last: usize = 0;
    let mut next: usize = 0;
    while i < n
        invariant
            n == b@.len(),
            b@ == encode_utf8(raw@),
            last <= i <= n,
            next <= i,
            parts@ + scan(b@, i as int, last as int, next as nat) == template_of(b@),
        decreases n - i,
    {
        let ghost before = parts@;
        let c = b[i];
        if c == 123 && i + 1 < n && b[i + 1] == 123 {
            TemplatePart::push_text(&mut parts, last, i);
            parts.push(TemplatePart::LiteralOpen);
            i = i + 2;
            last = i;
        } else if c == 123 && i + 1 < n && b[i + 1] == 125 {
            TemplatePart::push_text(&mut parts, last, i);
            parts.push(TemplatePart::Arg(next));
            next = next + 1;
            i = i + 2;
            last = i;
        } else if c == 123 {
            let j = digits_end_at(b, i + 1);
            proof {
                lemma_digits_end_bounds(b@, i + 1);
            }
            let mut done = false;
            if j < n && b[j] == 125 {
                match parse_digits(b, i + 1, j) {
                    Some(v) => {
                        TemplatePart::push_text(&mut parts, last, i);
                        parts.push(TemplatePart::Arg(v));
                        i = j + 1;
                        last = i;
                        done = true;
                    },
                    None => {},
                }
            }
            if !done {
                i = i + 1;
            }
        } else if c == 125 && i + 1 < n && b[i + 1] == 125 {
            TemplatePart::push_text(&mut parts, last, i);
            parts.push(TemplatePart::LiteralClose);
            i = i + 2;
            last = i;
        } else {
            i = i + 1;
        }
        proof {
            assert(parts@ + scan(b@, i as int, last as int, next as nat) =~= template_of(b@));
        }
    }
    if last < n {
        parts.push(TemplatePart::Text { start: last, end: n });
    }
    proof {
        assert(parts@ =~= template_of(b@));
    }
    parts
}

/// Every text span of `parts` is a non-empty range of `b` between character boundaries.
pub open spec fn texts_within(b: Seq<u8>, parts: Seq<TemplatePart>) -> bool {
    forall|k: int|
        0 <= k < parts.len() ==> match #[trigger] parts[k] {
            TemplatePart::Text { start, end } => {
                &&& start < end <= b.len()
                &&& is_char_boundary(b, start as int)
                &&& is_char_boundary(b, end as int)
            },
            _ => true,
        }
}

/// In valid UTF-8, the position after an ASCII byte is a character boundary.
proof fn lemma_boundary_after_ascii(b: Seq<u8>, p: int)
    requires
        valid_utf8(b),
        0 <= p < b.len(),
        b[p] < 128,
    ensures
        is_char_boundary(b, p + 1),
{
    broadcast use vstd::utf8::group_utf8_lib;

    if p + 1 == b.len() {
        is_char_boundary_start_end_of_seq(b);
    } else {
        is_char_boundary_iff_not_is_continuation_byte(b, p);
        valid_utf8_split(b, p);
        let t = b.subrange(p, b.len() as int);
        assert(t[0] == b[p]);
        assert(valid_first_scalar(t));
        assert(length_of_first_scalar(t) == 1);
        let u = pop_first_scalar(t);
        assert(u =~= b.subrange(p + 1, b.len() as int));
        assert(valid_utf8(u));
        assert(valid_first_scalar(u));
        assert(u[0] == b[p + 1]);
        is_char_boundary_iff_not_is_continuation_byte(b, p + 1);
    }
}

proof fn lemma_scan_texts(b: Seq<u8>, i: int, last: int, next: nat)
    requires
        valid_utf8(b),
        0 <= last <= i <= b.len(),
        b.len() <= usize::MAX,
        is_char_boundary(b, last),
    ensures
        texts_within(b, scan(b, i, last, next)),
    decreases b.len() - i,
{
    broadcast use vstd::utf8::group_utf8_lib;

    is_char_boundary_start_end_of_seq(b);
    if i >= b.len() {
    } else {
        if b[i] == open_byte() || b[i] == close_byte() {
            is_char_boundary_iff_not_is_continuation_byte(b, i);
        }
        let tb = text_before(last, i);
        if b[i] == open_byte() || b[i] == close_byte() {
            assert(texts_within(b, tb));
        }
        if b[i] == open_byte() && i + 1 < b.len() && (b[i + 1] == open_byte() || b[i + 1]
            == close_byte()) {
            lemma_boundary_after_ascii(b, i + 1);
            let nn = if b[i + 1] == open_byte() { next } else { next + 1 };
            lemma_scan_texts(b, i + 2, i + 2, nn);
            let mid = if b[i + 1] == open_byte() {
                seq![TemplatePart::LiteralOpen]
            } else {
                seq![TemplatePart::Arg(next as usize)]
            };
            lemma_texts_concat(b, tb, mid);
            lemma_texts_concat(b, tb + mid, scan(b, i + 2, i + 2, nn));
        } else if b[i] == open_byte() && is_positional(b, i) {
            let j = digits_end(b, i + 1);
            lemma_digits_end_bounds(b, i + 1);
            lemma_boundary_after_ascii(b, j);
            lemma_scan_texts(b, j + 1, j + 1, next);
            let mid = seq![TemplatePart::Arg(digits_value(b.subrange(i + 1, j)) as usize)];
            lemma_texts_concat(b, tb, mid);
            lemma_texts_concat(b, tb + mid, scan(b, j + 1, j + 1, next));
        } else if b[i] == close_byte() && i + 1 < b.len() && b[i + 1] == close_byte() {
            lemma_boundary_after_ascii(b, i + 1);
            lemma_scan_texts(b, i + 2, i + 2, next);
            let mid = seq![TemplatePart::LiteralClose];
            lemma_texts_concat(b, tb, mid);
            lemma_texts_concat(b, tb + mid, scan(b, i + 2, i + 2, next));
        } else {
            lemma_scan_texts(b, i + 1, last, next);
        }
    }
}

proof fn lemma_texts_concat(b: Seq<u8>, x: Seq<TemplatePart>, y: Seq<TemplatePart>)
    requires
        texts_within(b, x),
        forall|k: int| 0 <= k < y.len() ==> !(#[trigger] y[k] is Text) || texts_within(b, y),
    ensures
        texts_within(b, y) ==> texts_within(b, x + y),
        (forall|k: int| 0 <= k < y.len() ==> !(#[trigger] y[k] is Text)) ==> texts_within(b, x + y),
{
    assert forall|k: int| 0 <= k < (x + y).len() && texts_within(b, y) implies match #[trigger] (x + y)[k] {
        TemplatePart::Text { start, end } => {
            &&& start < end <= b.len()
            &&& is_char_boundary(b, start as int)
            &&& is_char_boundary(b, end as int)
        },
        _ => true,
    } by {
        if k >= x.len() {
            assert((x + y)[k] == y[k - x.len()]);
        } else {
            assert((x + y)[k] == x[k]);
        }
    }
    assert forall|k: int| 0 <= k < (x + y).len() && (forall|m: int| 0 <= m < y.len() ==> !(#[trigger] y[m] is Text)) implies match #[trigger] (x + y)[k] {
        TemplatePart::Text { start, end } => {
            &&& start < end <= b.len()
            &&& is_char_boundary(b, start as int)
            &&& is_char_boundary(b, end as int)
        },
        _ => true,
    } by {
        if k >= x.len() {
            assert((x + y)[k] == y[k - x.len()]);
        } else {
            assert((x + y)[k] == x[k]);
        }
    }
}

/// The text spans of a template lie on character boundaries of the string it was parsed from.
pub proof fn lemma_template_texts(value: Seq<char>)
    requires
        encode_utf8(value).len() <= usize::MAX,
    ensures
        texts_within(encode_utf8(value), template_of(encode_utf8(value))),
{
    broadcast use vstd::utf8::group_utf8_lib;

    let b = encode_utf8(value);
    is_char_boundary_start_end_of_seq(b);
    lemma_scan_texts(b, 0, 0, 0);
}

/// The text of one template part, given the string's bytes `b` and the arguments.
/// An argument index without a matching argument is written back as `{N}`.
pub open spec fn piece(b: Seq<u8>, p: TemplatePart, args: Seq<Seq<char>>) -> Seq<char> {
    match p {
        TemplatePart::Text { start, end } => decode_utf8(b.subrange(start as int, end as int)),
        TemplatePart::LiteralOpen => seq!['{'],
        TemplatePart::LiteralClose => seq!['}'],
        TemplatePart::Arg(k) => if k < args.len() {
            args[k as int]
        } else {
            seq!['{'] + decimal(k as nat) + seq!['}']
        },
    }
}

/// The text that a template produces: its parts' texts, in order.
pub open spec fn render(b: Seq<u8>, parts: Seq<TemplatePart>, args: Seq<Seq<char>>) -> Seq<char>
    decreases parts.len(),
{
    if parts.len() == 0 {
        seq![]
    } else {
        render(b, parts.drop_last(), args) + piece(b, parts.last(), args)
    }
}

/// The characters of each argument.
pub open spec fn arg_texts(args: Seq<&str>) -> Seq<Seq<char>> {
    args.map_values(|a: &str| a@)
}

/// Writes a template out with the given arguments.
pub fn render_template(value: &str, template: &Vec<TemplatePart>, args: &[&str]) -> (r: String)
    requires
        texts_within(encode_utf8(value@), template@),
    ensures
        r@ == render(encode_utf8(value@), template@, arg_texts(args@)),
{
    broadcast use vstd::utf8::group_utf8_lib;

    let ghost b = encode_utf8(value@);
    let ghost a = arg_texts(args@);
    let mut out = String::new();
    let n = template.len();
    let mut idx: usize = 0;
    while idx < n
        invariant
            n == template@.len(),
            b == encode_utf8(value@),
            a == arg_texts(args@),
            texts_within(b, template@),
            idx <= n,
            out@ == render(b, template@.take(idx as int), a),
        decreases n - idx,
    {
        let part = template[idx];
        let ghost before = out@;
        proof {
            assert(template@.take(idx + 1).drop_last() =~= template@.take(idx as int));
            assert(template@.take(idx + 1).last() == part);
        }
        match part {
            TemplatePart::Text { start, end } => {
                assert(template@[idx as int] is Text);
                let (left, _rest) = value.split_at(end);
                proof {
                    encode_utf8_valid_utf8(value@);
                    assert(template@[idx as int] == part);
                    assert(start < end <= b.len());
                    assert(is_char_boundary(b, start as int));
                    assert(is_char_boundary(b, end as int));
                    let lb = b.subrange(0, end as int);
                    assert(encode_utf8(left@) == lb);
                    valid_utf8_split(b, end as int);
                    is_char_boundary_iff_not_is_continuation_byte(b, start as int);
                    is_char_boundary_iff_not_is_continuation_byte(lb, start as int);
                    assert(lb[start as int] == b[start as int]);
                }
                let (_head, mid) = left.split_at(start);
                proof {
                    assert(encode_utf8(mid@) =~= b.subrange(start as int, end as int));
                    encode_utf8_decode_utf8(mid@);
                }
                out.append(mid);
                assert(out@ =~= before + piece(b, part, a));
            },
            TemplatePart::LiteralOpen => {
                proof {
                    reveal_strlit("{");
                }
                out.append("{");
                assert(out@ =~= before + piece(b, part, a));
            },
            TemplatePart::LiteralClose => {
                proof {
                    reveal_strlit("}");
                }
                out.append("}");
                assert(out@ =~= before + piece(b, part, a));
            },
            TemplatePart::Arg(k) => {
                if k < args.len() {
                    proof {
                        assert(a[k as int] == args@[k as int]@);
                    }
                    out.append(args[k]);
                    assert(out@ =~= before + piece(b, part, a));
                } else {
                    proof {
                        reveal_strlit("{");
                        reveal_strlit("}");
                    }
                    out.append("{");
                    let digits = decimal_string(k);
                    out.append(digits.as_str());
                    out.append("}");
                    assert(out@ =~= before + piece(b, part, a));
                }
            },
        }
        idx += 1;
        proof {
            assert(out@ =~= render(b, template@.take(idx as int), a));
        }
    }
    proof {
        assert(template@.take(n as int) =~= template@);
    }
    out
}

/// Represents a single translated string, tracking its value and origin.
///
/// The `line` of an entry parsed from a RON file is always `0`.
#[derive(Debug, Clone)]
pub struct TranslationEntry {
    pub value: Arc<String>,
    pub template: Vec<TemplatePart>,
    pub source_path: String,
    pub line: usize,
}

/// What an entry holds: its text, its template, the file it came from and the line in it.
impl View for TranslationEntry {
    type V = (Seq<char>, Seq<TemplatePart>, Seq<char>, nat);

    open spec fn view(&self) -> Self::V {
        (self.value@, self.template@, self.source_path@, self.line as nat)
    }
}

/// The entry that `TranslationEntry::new` makes of a text, a source path and a line.
pub open spec fn entry_view(text: Seq<char>, path: Seq<char>, line: nat) -> (Seq<char>, Seq<TemplatePart>, Seq<char>, nat) {
    (text, template_of(encode_utf8(text)), path, line)
}

/// An entry is well formed when its template is the one parsed from its text.
pub open spec fn entry_wf(e: (Seq<char>, Seq<TemplatePart>, Seq<char>, nat)) -> bool {
    &&& e.1 == template_of(encode_utf8(e.0))
    &&& encode_utf8(e.0).len() <= usize::MAX
}

/// A well-formed entry's text spans lie on character boundaries of its text.
pub proof fn lemma_entry_texts(e: (Seq<char>, Seq<TemplatePart>, Seq<char>, nat))
    requires
        entry_wf(e),
    ensures
        texts_within(encode_utf8(e.0), e.1),
{
    lemma_template_texts(e.0);
}

impl TranslationEntry {
    pub fn new(value: String, source_path: String, line: usize) -> (r: Self)
        ensures
            r@ == (value@, template_of(encode_utf8(value@)), source_path@, line as nat),
            entry_wf(r@),
    {
        let template = Self::parse_template(value.as_str());
        TranslationEntry { value: Arc::new(value), template, source_path, line }
    }

    /// Parses a raw string into a template with text spans and arguments.
    /// Handles `{}` sequentially and `{0}`, `{1}` positionally.
    /// Supports escaped braces (`{{` and `}}`).
    ///
    /// Mixing sequential `{}` and positional `{0}` arguments in the same string
    /// can lead to collisions: the sequential counter does not account for
    /// explicit indices already used.
    pub fn parse_template(raw: &str) -> (parts: Vec<TemplatePart>)
        ensures
            parts@ == template_of(encode_utf8(raw@)),
            encode_utf8(raw@).len() <= usize::MAX,
    {
        template_parts(raw)
    }

    /// The entry's text with the template's placeholders filled from `args`.
    pub fn format(&self, args: &[&str]) -> (r: String)
        requires
            entry_wf(self@),
        ensures
            r@ == render(encode_utf8(self.value@), self.template@, arg_texts(args@)),
    {
        proof {
            lemma_entry_texts(self@);
        }
        render_template(self.value.as_str(), &self.template, args)
    }
}

} // verus!
