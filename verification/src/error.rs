//! Errors reported when resources are read from or written to a storage.

use vstd::prelude::*;

verus! {

/// `std::io::Error`, carried through as a value that is not looked into.
#[verifier::external_type_specification]
#[verifier::external_body]
pub struct ExIoError(std::io::Error);

/// `std::str::Utf8Error`, carried through as a value that is not looked
/// into.
#[verifier::external_type_specification]
#[verifier::external_body]
pub struct ExUtf8Error(std::str::Utf8Error);

/// The I/O error that `std::io::Error::new` makes of the kind
/// `std::io::ErrorKind::AlreadyExists` and of `message`.
pub uninterp spec fn already_exists_error(message: Seq<char>) -> std::io::Error;

/// The text that `std::fmt::Debug` writes for a string: the string in
/// quotes, with the characters that cannot stand there as they are escaped.
pub uninterp spec fn debug_of_text(text: Seq<char>) -> Seq<char>;

/// The decimal digit of a number below ten.
pub open spec fn digit(d: nat) -> char {
    (d + 48) as char
}

/// A number in decimal digits, as `std::fmt::Debug` writes a `usize`.
pub open spec fn decimal(n: nat) -> Seq<char>
    decreases n,
{
    if n < 10 {
        seq![digit(n)]
    } else {
        decimal(n / 10).push(digit(n % 10))
    }
}

/// The text that `std::fmt::Debug` writes for a `std::str::Utf8Error`.
pub uninterp spec fn debug_of_utf8_error(error: std::str::Utf8Error) -> Seq<char>;

/// Error indicating failures when reading and writing data from or to a
/// resource storage.
#[derive(Debug)]
#[non_exhaustive]
#[allow(inconsistent_fields)]
pub enum ResourceStorageError {
    /// An I/O error together with the name of the resource for which it
    /// occurred.
    Io(std::io::Error, String),
    /// The stored schema of a resource is not valid UTF-8 text.
    Utf8Error(std::str::Utf8Error),
    /// The schema of the resource with the stored name is missing in the
    /// resource storage.
    MissingSchema(String),
    /// Part of a resource is missing, e.g. the index of a multivector.
    MissingData,
    /// The schema stored in the resource storage differs from the expected
    /// schema.
    WrongSignature {
        /// Resource name for which the error occurred.
        resource_name: String,
        /// Difference between the stored schema and the expected schema.
        diff: String,
    },
    /// The size of the stored data does not fit the size recorded in its
    /// header.
    UnexpectedDataSize,
    /// A resource is too big, e.g. when it is referenced by a small number of
    /// bits.
    TooBig {
        /// Resource name for which the error occurred.
        resource_name: &'static str,
        /// Size of the resource.
        size: usize,
    },
    /// A resource or an archive is missing completely.
    Missing,
}

/// The error that refuses to write the resource `name` because the storage
/// holds it already.
pub open spec fn already_exists(name: Seq<char>) -> ErrorView {
    ErrorView::Io { error: already_exists_error(name), resource_name: name }
}

/// The mathematical content of a [`ResourceStorageError`].
#[allow(inconsistent_fields)]
pub enum ErrorView {
    Io { error: std::io::Error, resource_name: Seq<char> },
    Utf8Error { error: std::str::Utf8Error },
    MissingSchema { resource_name: Seq<char> },
    MissingData,
    WrongSignature { resource_name: Seq<char>, diff: Seq<char> },
    UnexpectedDataSize,
    TooBig { resource_name: Seq<char>, size: nat },
    Missing,
}

impl View for ResourceStorageError {
    type V = ErrorView;

    open spec fn view(&self) -> ErrorView {
        match self {
            ResourceStorageError::Io(err, name) => ErrorView::Io {
                error: *err,
                resource_name: name@,
            },
            ResourceStorageError::Utf8Error(err) => ErrorView::Utf8Error { error: *err },
            ResourceStorageError::MissingSchema(name) => ErrorView::MissingSchema {
                resource_name: name@,
            },
            ResourceStorageError::MissingData => ErrorView::MissingData,
            ResourceStorageError::WrongSignature { resource_name, diff } => {
                ErrorView::WrongSignature { resource_name: resource_name@, diff: diff@ }
            },
            ResourceStorageError::UnexpectedDataSize => ErrorView::UnexpectedDataSize,
            ResourceStorageError::TooBig { resource_name, size } => ErrorView::TooBig {
                resource_name: resource_name@,
                size: *size as nat,
            },
            ResourceStorageError::Missing => ErrorView::Missing,
        }
    }
}

/// The one-line description of each kind of error.
pub open spec fn description_of(e: ErrorView) -> Seq<char> {
    match e {
        ErrorView::Io { .. } => "resource io error"@,
        ErrorView::Utf8Error { .. } => "utf8 error in schema"@,
        ErrorView::MissingSchema { .. } => "schema of resource is missing"@,
        ErrorView::MissingData => "resource has partially missing data"@,
        ErrorView::WrongSignature { .. } => "schema is not matching expected schema"@,
        ErrorView::UnexpectedDataSize => "resource has unexpected size"@,
        ErrorView::TooBig { .. } => "resource is too big"@,
        ErrorView::Missing => "Missing resource / archive"@,
    }
}

/// Calls `std::io::Error::new` with the kind `ErrorKind::AlreadyExists` and
/// the message as payload. Trusted: the error made depends on the message
/// alone.
#[verifier::external_body]
pub(crate) fn new_already_exists_error(message: &str) -> (err: std::io::Error)
    ensures
        err == already_exists_error(message@),
{
    std::io::Error::new(std::io::ErrorKind::AlreadyExists, message.to_owned())
}

/// The debug form of an error: the name of its kind, followed by what the
/// kind holds. What a kind holds by position stands in round brackets, what
/// it holds by name in curly brackets behind each name. `inner` is the debug
/// form of the I/O error that an `Io` holds.
pub open spec fn debug_form(e: ErrorView, inner: Seq<char>) -> Seq<char> {
    match e {
        ErrorView::Io { resource_name, .. } => "Io("@ + inner + ", "@ + debug_of_text(
            resource_name,
        ) + ")"@,
        ErrorView::Utf8Error { error } => "Utf8Error("@ + debug_of_utf8_error(error) + ")"@,
        ErrorView::MissingSchema { resource_name } => "MissingSchema("@ + debug_of_text(
            resource_name,
        ) + ")"@,
        ErrorView::MissingData => "MissingData"@,
        ErrorView::WrongSignature { resource_name, diff } => "WrongSignature { resource_name: "@
            + debug_of_text(resource_name) + ", diff: "@ + debug_of_text(diff) + " }"@,
        ErrorView::UnexpectedDataSize => "UnexpectedDataSize"@,
        ErrorView::TooBig { resource_name, size } => "TooBig { resource_name: "@ + debug_of_text(
            resource_name,
        ) + ", size: "@ + decimal(size) + " }"@,
        ErrorView::Missing => "Missing"@,
    }
}

/// Formats an error with `std::fmt::Debug`, as derived for the type, without
/// flags. Trusted: the text is the frame that a derived `Debug` writes for
/// the error's kind, around the debug forms of what the kind holds. Of the
/// debug form of an I/O error nothing is claimed.
#[verifier::external_body]
fn debug_text(err: &ResourceStorageError) -> (text: String)
    ensures
        exists|inner: Seq<char>| text@ == #[trigger] debug_form(err@, inner),
        err@ matches ErrorView::Utf8Error { error } ==> text@ == "Utf8Error("@
            + debug_of_utf8_error(error) + ")"@,
        err@ matches ErrorView::MissingSchema { resource_name } ==> text@ == "MissingSchema("@
            + debug_of_text(resource_name) + ")"@,
        err@ matches ErrorView::TooBig { resource_name, size } ==> text@
            == "TooBig { resource_name: "@ + debug_of_text(resource_name) + ", size: "@
            + decimal(size) + " }"@,
{
    format!("{:?}", err)
}

impl ResourceStorageError {
    /// Wraps an I/O error with the name of the resource it occurred for.
    pub fn from_io_error(err: std::io::Error, resource_name: String) -> (e: Self)
        ensures
            e == ResourceStorageError::Io(err, resource_name),
            e@ == (ErrorView::Io { error: err, resource_name: resource_name@ }),
    {
        ResourceStorageError::Io(err, resource_name)
    }

    /// A short, fixed description of the kind of error.
    pub fn description(&self) -> (text: &'static str)
        ensures
            text@ == description_of(self@),
    {
        match self {
            ResourceStorageError::Io(_, _) => "resource io error",
            ResourceStorageError::MissingSchema(_) => "schema of resource is missing",
            ResourceStorageError::MissingData => "resource has partially missing data",
            ResourceStorageError::UnexpectedDataSize => "resource has unexpected size",
            ResourceStorageError::Utf8Error(_) => "utf8 error in schema",
            ResourceStorageError::WrongSignature { .. } => "schema is not matching expected schema",
            ResourceStorageError::TooBig { .. } => "resource is too big",
            ResourceStorageError::Missing => "Missing resource / archive",
        }
    }

    /// The error as text, in its debug form. For every kind but `Io` the
    /// text depends on the error alone.
    pub fn to_string(&self) -> (text: String)
        ensures
            exists|inner: Seq<char>| text@ == #[trigger] debug_form(self@, inner),
    {
        debug_text(self)
    }
}

} // verus!
