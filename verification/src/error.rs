//! What can go wrong while a session is located, read or rendered.
use vstd::prelude::*;

verus! {

/// Errors returned while locating, reading, or rendering an OpenCode session.
#[derive(Debug)]
pub enum BillError {
    /// No platform data directory is available.
    MissingDataDirectory,
    /// The supplied session reference is invalid.
    InvalidSessionReference(String),
    /// No session matched the supplied reference.
    SessionNotFound(String),
    /// More than one session matched the supplied reference.
    AmbiguousSession {
        /// The user-supplied reference.
        reference: String,
        /// A comma-separated match list.
        matches: String,
    },
    /// OpenCode's SQLite database could not be queried.
    Database {
        /// Database path, as shown to the user.
        path: String,
        /// What SQLite reported.
        source: String,
    },
    /// A storage file could not be read.
    Read {
        /// File or directory path, as shown to the user.
        path: String,
        /// What the system reported.
        source: String,
    },
    /// Stored JSON is malformed or has an invalid field.
    InvalidData {
        /// Database or file location.
        location: String,
        /// Validation detail.
        detail: String,
    },
}

/// The contents of a [`BillError`].
pub enum BillErrorView {
    /// No platform data directory is available.
    MissingDataDirectory,
    /// The supplied session reference is invalid.
    InvalidSessionReference(Seq<char>),
    /// No session matched the supplied reference.
    SessionNotFound(Seq<char>),
    /// More than one session matched the supplied reference.
    AmbiguousSession {
        /// The user-supplied reference.
        reference: Seq<char>,
        /// A comma-separated match list.
        matches: Seq<char>,
    },
    /// OpenCode's SQLite database could not be queried.
    Database {
        /// Database path, as shown to the user.
        path: Seq<char>,
        /// What SQLite reported.
        source: Seq<char>,
    },
    /// A storage file could not be read.
    Read {
        /// File or directory path, as shown to the user.
        path: Seq<char>,
        /// What the system reported.
        source: Seq<char>,
    },
    /// Stored JSON is malformed or has an invalid field.
    InvalidData {
        /// Database or file location.
        location: Seq<char>,
        /// Validation detail.
        detail: Seq<char>,
    },
}

impl View for BillError {
    type V = BillErrorView;

    open spec fn view(&self) -> BillErrorView {
        match *self {
            BillError::MissingDataDirectory => BillErrorView::MissingDataDirectory,
            BillError::InvalidSessionReference(detail) => BillErrorView::InvalidSessionReference(
                detail@,
            ),
            BillError::SessionNotFound(id) => BillErrorView::SessionNotFound(id@),
            BillError::AmbiguousSession { reference, matches } => BillErrorView::AmbiguousSession {
                reference: reference@,
                matches: matches@,
            },
            BillError::Database { path, source } => BillErrorView::Database {
                path: path@,
                source: source@,
            },
            BillError::Read { path, source } => BillErrorView::Read {
                path: path@,
                source: source@,
            },
            BillError::InvalidData { location, detail } => BillErrorView::InvalidData {
                location: location@,
                detail: detail@,
            },
        }
    }
}

/// The sentence that tells the user about an error.
pub open spec fn error_message(error: BillErrorView) -> Seq<char> {
    match error {
        BillErrorView::MissingDataDirectory =>
            "the platform does not provide a local data directory"@,
        BillErrorView::InvalidSessionReference(detail) => "invalid session reference: "@ + detail,
        BillErrorView::SessionNotFound(id) => "session '"@ + id + "' was not found"@,
        BillErrorView::AmbiguousSession { reference, matches } => "session reference '"@ + reference
            + "' is ambiguous; matches: "@ + matches,
        BillErrorView::Database { path, source } => "could not query OpenCode database at "@ + path
            + ": "@ + source,
        BillErrorView::Read { path, source } => "could not read "@ + path + ": "@ + source,
        BillErrorView::InvalidData { location, detail } => "invalid OpenCode data in "@ + location
            + ": "@ + detail,
    }
}

impl BillError {
    /// The sentence that tells the user about the error.
    pub fn message(&self) -> (text: String)
        ensures
            text@ == error_message(self@),
    {
        let mut text = String::new();
        match self {
            BillError::MissingDataDirectory => {
                text.append("the platform does not provide a local data directory");
                assert(text@ =~= error_message(self@));
            },
            BillError::InvalidSessionReference(detail) => {
                text.append("invalid session reference: ");
                text.append(detail.as_str());
                assert(text@ =~= error_message(self@));
            },
            BillError::SessionNotFound(id) => {
                text.append("session '");
                text.append(id.as_str());
                text.append("' was not found");
                assert(text@ =~= error_message(self@));
            },
            BillError::AmbiguousSession { reference, matches } => {
                text.append("session reference '");
                text.append(reference.as_str());
                text.append("' is ambiguous; matches: ");
                text.append(matches.as_str());
                assert(text@ =~= error_message(self@));
            },
            BillError::Database { path, source } => {
                text.append("could not query OpenCode database at ");
                text.append(path.as_str());
                text.append(": ");
                text.append(source.as_str());
                assert(text@ =~= error_message(self@));
            },
            BillError::Read { path, source } => {
                text.append("could not read ");
                text.append(path.as_str());
                text.append(": ");
                text.append(source.as_str());
                assert(text@ =~= error_message(self@));
            },
            BillError::InvalidData { location, detail } => {
                text.append("invalid OpenCode data in ");
                text.append(location.as_str());
                text.append(": ");
                text.append(detail.as_str());
                assert(text@ =~= error_message(self@));
            },
        }
        text
    }
}

/// The error of a failed database query.
pub fn database_error(path: &str, source: &str) -> (error: BillError)
    ensures
        error@ == (BillErrorView::Database { path: path@, source: source@ }),
{
    BillError::Database { path: path.to_owned(), source: source.to_owned() }
}

/// The error of a file or directory that could not be read.
pub fn read_error(path: &str, source: &str) -> (error: BillError)
    ensures
        error@ == (BillErrorView::Read { path: path@, source: source@ }),
{
    BillError::Read { path: path.to_owned(), source: source.to_owned() }
}

/// What an absent or unusable field is reported as.
pub open spec fn invalid_field_view(location: Seq<char>, field: Seq<char>) -> BillErrorView {
    BillErrorView::InvalidData { location, detail: "missing or invalid '"@ + field + "'"@ }
}

/// The error of an absent or unusable field.
pub fn invalid_field(location: &str, field: &str) -> (error: BillError)
    ensures
        error@ == invalid_field_view(location@, field@),
{
    let mut detail = String::new();
    detail.append("missing or invalid '");
    detail.append(field);
    detail.append("'");
    assert(detail@ =~= "missing or invalid '"@ + field@ + "'"@);
    BillError::InvalidData { location: location.to_owned(), detail }
}

/// What a table that cannot be drawn is reported as.
pub open spec fn render_error_view(detail: Seq<char>) -> BillErrorView {
    BillErrorView::InvalidData { location: "bill renderer"@, detail }
}

/// The error of a table that cannot be drawn.
pub fn render_error(detail: &str) -> (error: BillError)
    ensures
        error@ == render_error_view(detail@),
{
    BillError::InvalidData { location: "bill renderer".to_owned(), detail: detail.to_owned() }
}

/// Every error is told in one sentence that holds what it carries.
pub proof fn law_error_messages(first: Seq<char>, second: Seq<char>)
    ensures
        error_message(BillErrorView::MissingDataDirectory)
            == "the platform does not provide a local data directory"@,
        error_message(BillErrorView::InvalidSessionReference(first))
            == "invalid session reference: "@ + first,
        error_message(BillErrorView::SessionNotFound(first)) == "session '"@ + first
            + "' was not found"@,
        error_message(BillErrorView::AmbiguousSession { reference: first, matches: second })
            == "session reference '"@ + first + "' is ambiguous; matches: "@ + second,
        error_message(BillErrorView::Database { path: first, source: second })
            == "could not query OpenCode database at "@ + first + ": "@ + second,
        error_message(BillErrorView::Read { path: first, source: second }) == "could not read "@
            + first + ": "@ + second,
        error_message(BillErrorView::InvalidData { location: first, detail: second })
            == "invalid OpenCode data in "@ + first + ": "@ + second,
{
}

/// A field and a table that cannot be used are told as invalid data, with where they stand and what
/// is wrong with them.
pub proof fn law_invalid_data_messages(location: Seq<char>, name: Seq<char>)
    ensures
        error_message(invalid_field_view(location, name)) == "invalid OpenCode data in "@ + location
            + ": missing or invalid '"@ + name + "'"@,
        error_message(render_error_view(name)) == "invalid OpenCode data in bill renderer: "@ + name,
{
    reveal_strlit("invalid OpenCode data in ");
    reveal_strlit(": ");
    reveal_strlit("missing or invalid '");
    reveal_strlit("bill renderer");
    reveal_strlit(": missing or invalid '");
    reveal_strlit("invalid OpenCode data in bill renderer: ");
    assert(": "@ + "missing or invalid '"@ =~= ": missing or invalid '"@);
    assert(error_message(invalid_field_view(location, name)) =~= "invalid OpenCode data in "@
        + location + (": "@ + "missing or invalid '"@) + name + "'"@);
    assert("invalid OpenCode data in "@ + "bill renderer"@ + ": "@
        =~= "invalid OpenCode data in bill renderer: "@);
}

} // verus!
