use vstd::prelude::*;

verus! {

/// Parsing error with the offending input line.
#[derive(Debug, Clone, PartialEq, Eq)]
pub struct Error {
    /// Specific parsing failure.
    pub kind: ErrorKind,
    /// The line that failed to parse.
    pub line: String,
}

/// Possible parsing error kinds when processing `ls -lpa` output.
#[derive(Debug, Clone, PartialEq, Eq)]
pub enum ErrorKind {
    /// Missing file mode column.
    MissingFileMode,
    /// Missing link count column.
    MissingLinkCount,
    /// Missing owner column.
    MissingOwner,
    /// Missing group column.
    MissingGroup,
    /// Missing size column.
    MissingSize,
    /// Found a size column that is not a number.
    InvalidSize {
        /// The token that failed to parse.
        token: String,
    },
    /// Missing timestamp month column.
    MissingMonth,
    /// Missing timestamp day column.
    MissingDay,
    /// Missing timestamp time or year column.
    MissingTimestamp,
    /// Missing file or directory name.
    MissingName,
    /// Found an empty quoted name.
    EmptyQuotedName,
    /// Found an unterminated escape sequence in a quoted name.
    InvalidEscapeSequence,
}

/// The mathematical value of an [`ErrorKind`].
pub enum KindModel {
    MissingFileMode,
    MissingLinkCount,
    MissingOwner,
    MissingGroup,
    MissingSize,
    InvalidSize { token: Seq<char> },
    MissingMonth,
    MissingDay,
    MissingTimestamp,
    MissingName,
    EmptyQuotedName,
    InvalidEscapeSequence,
}

impl View for ErrorKind {
    type V = KindModel;

    open spec fn view(&self) -> KindModel {
        match self {
            ErrorKind::MissingFileMode => KindModel::MissingFileMode,
            ErrorKind::MissingLinkCount => KindModel::MissingLinkCount,
            ErrorKind::MissingOwner => KindModel::MissingOwner,
            ErrorKind::MissingGroup => KindModel::MissingGroup,
            ErrorKind::MissingSize => KindModel::MissingSize,
            ErrorKind::InvalidSize { token } => KindModel::InvalidSize { token: token@ },
            ErrorKind::MissingMonth => KindModel::MissingMonth,
            ErrorKind::MissingDay => KindModel::MissingDay,
            ErrorKind::MissingTimestamp => KindModel::MissingTimestamp,
            ErrorKind::MissingName => KindModel::MissingName,
            ErrorKind::EmptyQuotedName => KindModel::EmptyQuotedName,
            ErrorKind::InvalidEscapeSequence => KindModel::InvalidEscapeSequence,
        }
    }
}

impl View for Error {
    type V = (KindModel, Seq<char>);

    open spec fn view(&self) -> (KindModel, Seq<char>) {
        (self.kind@, self.line@)
    }
}

/// The human-readable description of an error kind.
pub open spec fn kind_text(k: KindModel) -> Seq<char> {
    match k {
        KindModel::MissingFileMode => "missing file mode field"@,
        KindModel::MissingLinkCount => "missing link count field"@,
        KindModel::MissingOwner => "missing owner field"@,
        KindModel::MissingGroup => "missing group field"@,
        KindModel::MissingSize => "missing size field"@,
        KindModel::InvalidSize { token } => "invalid size value `"@ + token + "`"@,
        KindModel::MissingMonth => "missing timestamp month field"@,
        KindModel::MissingDay => "missing timestamp day field"@,
        KindModel::MissingTimestamp => "missing timestamp time or year field"@,
        KindModel::MissingName => "missing file name"@,
        KindModel::EmptyQuotedName => "empty quoted file name"@,
        KindModel::InvalidEscapeSequence => "unterminated escape sequence in file name"@,
    }
}

/// The human-readable rendering of an error: its kind and the line.
pub open spec fn error_text(e: (KindModel, Seq<char>)) -> Seq<char> {
    kind_text(e.0) + " in line `"@ + e.1 + "`"@
}

impl ErrorKind {
    /// The human-readable description of this kind.
    pub fn description(&self) -> (r: String)
        ensures
            r@ == kind_text(self@),
    {
        match self {
            ErrorKind::MissingFileMode => "missing file mode field".to_owned(),
            ErrorKind::MissingLinkCount => "missing link count field".to_owned(),
            ErrorKind::MissingOwner => "missing owner field".to_owned(),
            ErrorKind::MissingGroup => "missing group field".to_owned(),
            ErrorKind::MissingSize => "missing size field".to_owned(),
            ErrorKind::InvalidSize { token } => {
                let mut s = "invalid size value `".to_owned();
                s.append(token.as_str());
                s.append("`");
                s
            },
            ErrorKind::MissingMonth => "missing timestamp month field".to_owned(),
            ErrorKind::MissingDay => "missing timestamp day field".to_owned(),
            ErrorKind::MissingTimestamp => "missing timestamp time or year field".to_owned(),
            ErrorKind::MissingName => "missing file name".to_owned(),
            ErrorKind::EmptyQuotedName => "empty quoted file name".to_owned(),
            ErrorKind::InvalidEscapeSequence => {
                "unterminated escape sequence in file name".to_owned()
            },
        }
    }
}

impl Error {
    /// An error of `kind`, found in `line`.
    pub fn new(kind: ErrorKind, line: String) -> (r: Self)
        ensures
            r.kind == kind,
            r.line == line,
    {
        Self { kind, line }
    }

    /// The human-readable rendering: "<kind> in line `<line>`".
    pub fn to_string(&self) -> (r: String)
        ensures
            r@ == error_text(self@),
    {
        let mut s = self.kind.description();
        s.append(" in line `");
        s.append(self.line.as_str());
        s.append("`");
        s
    }
}

} // verus!
