//! Errors of loading translation files.
use vstd::prelude::*;
use vstd::string::StringExecFns;
use crate::text::{decimal, decimal_string};

verus! {

#[verifier::external_type_specification]
#[verifier::external_body]
pub struct ExIoError(std::io::Error);

#[verifier::external_type_specification]
#[verifier::external_body]
pub struct ExCsvError(::csv::Error);

#[verifier::external_type_specification]
#[verifier::external_body]
pub struct ExRonError(::ron::error::SpannedError);

#[verifier::external_type_specification]
#[verifier::external_body]
pub struct ExUtf8Error(std::str::Utf8Error);

/// Error type for Vernacular parsing and I/O operations.
///
/// This enum covers the two categories of failure that can occur when loading
/// translation files: filesystem I/O errors and format-level parse errors
/// (malformed CSV or RON content).
#[derive(Debug)]
pub enum VernacularError {
    /// A filesystem I/O error (missing file, permission denied, etc.).
    Io(std::io::Error),
    /// A parse error from a translation file (bad CSV structure, invalid RON, etc.).
    Parse(ParseFailure),
}

/// What a parse error holds: the CSV or RON reader's error, or the error of a
/// named file.
#[derive(Debug)]
pub enum ParseFailure {
    Csv(::csv::Error),
    Ron(::ron::error::SpannedError),
    File(Box<FileParseError>),
}

/// A parse error associated with the file it came from.
#[derive(Debug)]
pub struct FileParseError {
    pub(crate) path: String,
    pub(crate) source: VernacularError,
}

/// What failed at bottom: reading, the CSV reader, or the RON reader.
#[derive(Debug, Clone, Copy, PartialEq, Eq)]
pub enum Cause {
    Io,
    Csv,
    Ron,
}

/// The failure at the bottom of an error's chain.
pub closed spec fn cause_of(e: VernacularError) -> Cause
    decreases e,
{
    match e {
        VernacularError::Io(_) => Cause::Io,
        VernacularError::Parse(ParseFailure::Csv(_)) => Cause::Csv,
        VernacularError::Parse(ParseFailure::Ron(_)) => Cause::Ron,
        VernacularError::Parse(ParseFailure::File(f)) => cause_of(f.source),
    }
}

/// The file an error is attributed to, if any.
pub closed spec fn file_of(e: VernacularError) -> Option<Seq<char>> {
    match e {
        VernacularError::Parse(ParseFailure::File(f)) => Some(f.path@),
        _ => None,
    }
}

/// What the file and the cause of an error are, by its variant: an error that
/// names no file and has an I/O cause is an `Io` error, one with a CSV or RON
/// cause is that reader's `Parse` error.
pub proof fn lemma_file_and_cause(e: VernacularError)
    ensures
        match e {
            VernacularError::Io(_) => file_of(e) is None && cause_of(e) == Cause::Io,
            VernacularError::Parse(ParseFailure::Csv(_)) => file_of(e) is None && cause_of(e) == Cause::Csv,
            VernacularError::Parse(ParseFailure::Ron(_)) => file_of(e) is None && cause_of(e) == Cause::Ron,
            VernacularError::Parse(ParseFailure::File(f)) => file_of(e) == Some(f.path_text())
                && cause_of(e) == cause_of(f.source_error()),
        },
        file_of(e) is None ==> (cause_of(e) == Cause::Io <==> e is Io),
        file_of(e) is None ==> (cause_of(e) == Cause::Csv <==> e matches VernacularError::Parse(ParseFailure::Csv(_))),
        file_of(e) is None ==> (cause_of(e) == Cause::Ron <==> e matches VernacularError::Parse(ParseFailure::Ron(_))),
{
}

/// What can be said of an error: the file it names and its cause.
pub type ErrorShape = (Option<Seq<char>>, Cause);

pub open spec fn shape_of(e: VernacularError) -> ErrorShape {
    (file_of(e), cause_of(e))
}

/// The shapes of a sequence of errors.
pub open spec fn shapes_of(es: Seq<VernacularError>) -> Seq<ErrorShape> {
    es.map_values(|e: VernacularError| shape_of(e))
}

impl VernacularError {
    /// An I/O error.
    pub fn io(e: std::io::Error) -> (r: VernacularError)
        ensures
            r == VernacularError::Io(e),
            shape_of(r) == (None::<Seq<char>>, Cause::Io),
    {
        VernacularError::Io(e)
    }

    /// An error of the CSV reader.
    pub fn csv(e: ::csv::Error) -> (r: VernacularError)
        ensures
            r == VernacularError::Parse(ParseFailure::Csv(e)),
            shape_of(r) == (None::<Seq<char>>, Cause::Csv),
    {
        VernacularError::Parse(ParseFailure::Csv(e))
    }

    /// An error of the RON reader.
    pub fn ron(e: ::ron::error::SpannedError) -> (r: VernacularError)
        ensures
            r == VernacularError::Parse(ParseFailure::Ron(e)),
            shape_of(r) == (None::<Seq<char>>, Cause::Ron),
    {
        VernacularError::Parse(ParseFailure::Ron(e))
    }

    /// `source` attributed to the file at `path`.
    pub fn in_file(path: &str, source: VernacularError) -> (r: VernacularError)
        ensures
            r matches VernacularError::Parse(ParseFailure::File(f)) && f.path_text() == path@
                && f.source_error() == source,
            shape_of(r) == (Some(path@), cause_of(source)),
    {
        VernacularError::Parse(
            ParseFailure::File(Box::new(FileParseError { path: path.to_owned(), source })),
        )
    }
}

impl From<std::io::Error> for VernacularError {
    fn from(e: std::io::Error) -> (r: Self) {
        VernacularError::Io(e)
    }
}

impl vstd::std_specs::convert::FromSpecImpl<std::io::Error> for VernacularError {
    open spec fn obeys_from_spec() -> bool {
        true
    }

    open spec fn from_spec(e: std::io::Error) -> Self {
        VernacularError::Io(e)
    }
}

impl From<::csv::Error> for VernacularError {
    fn from(e: ::csv::Error) -> (r: Self) {
        VernacularError::Parse(ParseFailure::Csv(e))
    }
}

impl vstd::std_specs::convert::FromSpecImpl<::csv::Error> for VernacularError {
    open spec fn obeys_from_spec() -> bool {
        true
    }

    open spec fn from_spec(e: ::csv::Error) -> Self {
        VernacularError::Parse(ParseFailure::Csv(e))
    }
}

impl From<::ron::error::SpannedError> for VernacularError {
    fn from(e: ::ron::error::SpannedError) -> (r: Self) {
        VernacularError::Parse(ParseFailure::Ron(e))
    }
}

impl vstd::std_specs::convert::FromSpecImpl<::ron::error::SpannedError> for VernacularError {
    open spec fn obeys_from_spec() -> bool {
        true
    }

    open spec fn from_spec(e: ::ron::error::SpannedError) -> Self {
        VernacularError::Parse(ParseFailure::Ron(e))
    }
}

impl FileParseError {
    /// The path and the error of the file, by value.
    pub fn into_parts(self) -> (r: (String, VernacularError))
        ensures
            r.0@ == self.path_text(),
            r.1 == self.source_error(),
    {
        (self.path, self.source)
    }

    /// The path of the file.
    pub closed spec fn path_text(&self) -> Seq<char> {
        self.path@
    }

    /// The error of the file.
    pub closed spec fn source_error(&self) -> VernacularError {
        self.source
    }

    /// The file path that failed to parse.
    pub fn path(&self) -> (r: &str)
        ensures
            r@ == self.path_text(),
    {
        self.path.as_str()
    }

    /// The error of the file.
    pub fn source(&self) -> (r: &VernacularError)
        ensures
            *r == self.source_error(),
    {
        &self.source
    }
}

/// An aggregation of multiple errors encountered during a reload.
#[derive(Debug)]
pub struct AggregateError(pub(crate) Vec<VernacularError>);

impl View for AggregateError {
    type V = Seq<VernacularError>;

    closed spec fn view(&self) -> Seq<VernacularError> {
        self.0@
    }
}

impl AggregateError {
    /// The aggregate of `errors`.
    pub fn new(errors: Vec<VernacularError>) -> (r: AggregateError)
        ensures
            r@ == errors@,
    {
        AggregateError(errors)
    }

    /// Returns the number of errors in this aggregate.
    pub fn len(&self) -> (n: usize)
        ensures
            n == self@.len(),
    {
        self.0.len()
    }

    /// Returns `true` if no errors were collected.
    pub fn is_empty(&self) -> (r: bool)
        ensures
            r == (self@.len() == 0),
    {
        self.0.len() == 0
    }

    /// Returns a slice of the contained errors.
    pub fn errors(&self) -> (r: &[VernacularError])
        ensures
            r@ == self@,
    {
        self.0.as_slice()
    }

    /// The contained errors, by value.
    pub fn into_errors(self) -> (r: Vec<VernacularError>)
        ensures
            r@ == self@,
    {
        self.0
    }
}

/// `Display` of an I/O error. What the text says is the platform's: nothing is claimed of it.
#[verifier::external_body]
fn io_error_text(e: &std::io::Error) -> String {
    e.to_string()
}

/// `Display` of `csv::Error`. Nothing is claimed of the text.
#[verifier::external_body]
fn csv_error_text(e: &::csv::Error) -> String {
    e.to_string()
}

/// `Display` of `ron::error::SpannedError`. Nothing is claimed of the text.
#[verifier::external_body]
fn ron_error_text(e: &::ron::error::SpannedError) -> String {
    e.to_string()
}

/// `m` begins with `p`.
pub open spec fn starts_with(m: Seq<char>, p: Seq<char>) -> bool {
    p.len() <= m.len() && m.take(p.len() as int) == p
}

/// The head of the message of an error of the file at `path`.
pub open spec fn file_head(path: Seq<char>) -> Seq<char> {
    "Failed to parse file '"@ + path + "': "@
}

/// `m` is a message of `e`: `I/O error: ` or `Parse error: ` before the reader's
/// text, and for an error of a file, its path, then a message of its source.
pub closed spec fn is_message(e: VernacularError, m: Seq<char>) -> bool
    decreases e,
{
    match e {
        VernacularError::Io(_) => starts_with(m, "I/O error: "@),
        VernacularError::Parse(ParseFailure::Csv(_)) => starts_with(m, "Parse error: "@),
        VernacularError::Parse(ParseFailure::Ron(_)) => starts_with(m, "Parse error: "@),
        VernacularError::Parse(ParseFailure::File(f)) => {
            let head = "Parse error: "@ + file_head(f.path@);
            starts_with(m, head) && is_message(f.source, m.skip(head.len() as int))
        },
    }
}

/// `m` is a message of a file error: the head naming `path`, then a message of `source`.
pub closed spec fn is_file_message(path: Seq<char>, source: VernacularError, m: Seq<char>) -> bool {
    starts_with(m, file_head(path)) && is_message(source, m.skip(file_head(path).len() as int))
}

/// The bullet lines of the first `k` of `msgs`, each but the last ending a line.
pub open spec fn bullet_lines(msgs: Seq<Seq<char>>, k: int) -> Seq<char>
    decreases k,
{
    if k <= 0 {
        seq![]
    } else {
        bullet_lines(msgs, k - 1) + "  - "@ + msgs[k - 1] + (if k < msgs.len() { "\n"@ } else { seq![] })
    }
}

/// The message of an aggregate whose errors read `msgs`.
pub open spec fn aggregate_text(msgs: Seq<Seq<char>>) -> Seq<char> {
    if msgs.len() == 0 {
        "0 errors occurred"@
    } else if msgs.len() == 1 {
        "1 error occurred: "@ + msgs[0]
    } else {
        decimal(msgs.len()) + " errors occurred:\n"@ + bullet_lines(msgs, msgs.len() as int)
    }
}

impl VernacularError {
    /// The error's message, as its `Display` writes it.
    pub fn message(&self) -> (r: String)
        ensures
            is_message(*self, r@),
        decreases *self,
    {
        match self {
            VernacularError::Io(e) => {
                let t = io_error_text(e);
                let mut m = "I/O error: ".to_owned();
                m.append(t.as_str());
                proof {
                    assert(m@.take("I/O error: "@.len() as int) =~= "I/O error: "@);
                }
                m
            },
            VernacularError::Parse(p) => {
                let mut m = "Parse error: ".to_owned();
                let ghost pre = m@;
                match p {
                    ParseFailure::Csv(e) => {
                        let t = csv_error_text(e);
                        m.append(t.as_str());
                        proof {
                            assert(m@.take(pre.len() as int) =~= pre);
                        }
                    },
                    ParseFailure::Ron(e) => {
                        let t = ron_error_text(e);
                        m.append(t.as_str());
                        proof {
                            assert(m@.take(pre.len() as int) =~= pre);
                        }
                    },
                    ParseFailure::File(f) => {
                        let t = f.message();
                        m.append(t.as_str());
                        proof {
                            let head = pre + file_head(f.path@);
                            let h = file_head(f.path@);
                            assert(t@.take(h.len() as int) == h);
                            assert(m@ == pre + t@);
                            assert(m@.take(head.len() as int) =~= head);
                            assert(m@.skip(head.len() as int) =~= t@.skip(h.len() as int));
                        }
                    },
                }
                m
            },
        }
    }
}

impl FileParseError {
    /// `Failed to parse file '<path>': <message of the source>`.
    pub fn message(&self) -> (r: String)
        ensures
            is_file_message(self.path_text(), self.source_error(), r@),
            starts_with(r@, file_head(self.path_text())),
            is_message(self.source_error(), r@.skip(file_head(self.path_text()).len() as int)),
        decreases *self,
    {
        let inner = self.source.message();
        let mut m = "Failed to parse file '".to_owned();
        m.append(self.path.as_str());
        m.append("': ");
        let ghost h = m@;
        m.append(inner.as_str());
        proof {
            assert(h == file_head(self.path@));
            assert(m@.take(h.len() as int) =~= h);
            assert(m@.skip(h.len() as int) =~= inner@);
        }
        m
    }
}

/// The message of an aggregate whose errors read `msgs`: how many errors
/// occurred, then each on a line of its own.
pub fn aggregate_message(msgs: &Vec<String>) -> (r: String)
    ensures
        r@ == aggregate_text(msgs.deep_view()),
{
    let ghost mv = msgs.deep_view();
    let n = msgs.len();
    if n == 0 {
        return "0 errors occurred".to_owned();
    }
    if n == 1 {
        let mut m = "1 error occurred: ".to_owned();
        m.append(msgs[0].as_str());
        return m;
    }
    let mut m = decimal_string(n);
    m.append(" errors occurred:\n");
    let ghost head = m@;
    let mut i: usize = 0;
    while i < n
        invariant
            mv == msgs.deep_view(),
            n == mv.len(),
            n > 1,
            i <= n,
            head == decimal(n as nat) + " errors occurred:\n"@,
            m@ == head + bullet_lines(mv, i as int),
        decreases n - i,
    {
        m.append("  - ");
        m.append(msgs[i].as_str());
        if i + 1 < n {
            m.append("\n");
        }
        i += 1;
        proof {
            assert(m@ =~= head + bullet_lines(mv, i as int));
        }
    }
    m
}

impl AggregateError {
    /// The aggregate's message, as its `Display` writes it.
    pub fn message(&self) -> (r: String)
        ensures
            exists|msgs: Seq<Seq<char>>|
                #![trigger aggregate_text(msgs)]
                msgs.len() == self@.len() && (forall|i: int| 0 <= i < msgs.len() ==> is_message(
                    #[trigger] self@[i],
                    msgs[i],
                )) && r@ == aggregate_text(msgs),
    {
        let mut msgs: Vec<String> = Vec::new();
        let n = self.0.len();
        let mut i: usize = 0;
        while i < n
            invariant
                n == self@.len(),
                i <= n,
                msgs@.len() == i,
                forall|j: int| 0 <= j < i ==> is_message(#[trigger] self@[j], msgs@[j]@),
            decreases n - i,
        {
            let t = self.0[i].message();
            msgs.push(t);
            i += 1;
        }
        let r = aggregate_message(&msgs);
        proof {
            let mv = msgs.deep_view();
            assert forall|j: int| 0 <= j < mv.len() implies is_message(#[trigger] self@[j], mv[j]) by {
                assert(mv[j] == msgs@[j]@);
            }
        }
        r
    }
}

} // verus!
