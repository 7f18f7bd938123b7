//! The errors that the planning and bookkeeping functions report.

use vstd::prelude::*;
use crate::text::{decimal, push_decimal};

verus! {

/// Which user-supplied location a path rule was applied to.
#[derive(Debug, Clone, Copy, PartialEq, Eq)]
pub enum PathField {
    Source,
    Destination,
    Prefix,
    Key,
    SourceKey,
    DestinationKey,
}

/// Why a transfer could not be planned or completed.
#[derive(Debug, Clone, PartialEq, Eq)]
pub enum TransferError {
    /// The file (or object) is empty.
    BadFileSize,
    /// The file needs more parts than a multipart upload allows.
    TooManyChunks,
    /// The object store did not report the object's size.
    MissingFileSize,
    /// A read of the source file returned no data.
    EmptyChunk,
    /// No file name could be taken from the source path.
    MissingFileName { source: String },
    /// A key, prefix or remote path begins with `/`.
    LeadingSlash { field: PathField },
    /// A part upload succeeded but returned no ETag.
    MissingETag { part: i32 },
    /// A part upload failed; `part` is the part counter when the failure was seen.
    PartUploadFailed { part: i32, detail: String },
    /// A part upload task could not be joined; `part` as for `PartUploadFailed`.
    PartJoinFailed { part: i32, detail: String },
    /// A HEAD request on an object failed for a reason other than "not found".
    HeadObjectFailed { detail: String },
}


/// The name a path field is reported under.
pub open spec fn field_label(f: PathField) -> Seq<char> {
    match f {
        PathField::Source => "Source"@,
        PathField::Destination => "Destination"@,
        PathField::Prefix => "Prefix"@,
        PathField::Key => "Key"@,
        PathField::SourceKey => "Source key"@,
        PathField::DestinationKey => "Destination key"@,
    }
}

/// Decimal text of a signed number: a `-` before negative numbers.
pub open spec fn signed_decimal(n: int) -> Seq<char> {
    if n < 0 {
        seq!['-'] + decimal((-n) as nat)
    } else {
        decimal(n as nat)
    }
}

/// The message an error is reported with.
pub open spec fn message_text(e: TransferError) -> Seq<char> {
    match e {
        TransferError::BadFileSize => "Bad file size."@,
        TransferError::TooManyChunks => "Too many chunks! Try increasing your chunk size."@,
        TransferError::MissingFileSize => "Fail to get file size."@,
        TransferError::EmptyChunk => "Failed to read chunk data"@,
        TransferError::MissingFileName { source } => "Cannot get filename string "@ + source@,
        TransferError::LeadingSlash { field } => field_label(field) + " must not begin with /"@,
        TransferError::MissingETag { part } => "Missing ETag in upload_part response for part "@
            + signed_decimal(part as int),
        TransferError::PartUploadFailed { part, detail } => "Error uploading part "@
            + signed_decimal(part as int) + ": "@ + detail@,
        TransferError::PartJoinFailed { part, detail } =>
            "Task panicked or failed to join while uploading part "@ + signed_decimal(part as int)
                + ": "@ + detail@,
        TransferError::HeadObjectFailed { detail } => "error "@ + detail@,
    }
}

impl PathField {
    /// The name this field is reported under.
    pub fn label(&self) -> (r: &'static str)
        ensures
            r@ == field_label(*self),
    {
        match self {
            PathField::Source => "Source",
            PathField::Destination => "Destination",
            PathField::Prefix => "Prefix",
            PathField::Key => "Key",
            PathField::SourceKey => "Source key",
            PathField::DestinationKey => "Destination key",
        }
    }
}

/// Appends the decimal text of a signed number to `s`.
fn push_signed_decimal(s: &mut String, n: i32)
    ensures
        final(s)@ == old(s)@ + signed_decimal(n as int),
{
    if n < 0 {
        s.append("-");
        proof { reveal_strlit("-"); }
        let magnitude: u64 = (0i64 - (n as i64)) as u64;
        push_decimal(s, magnitude);
        assert(final(s)@ =~= old(s)@ + signed_decimal(n as int));
    } else {
        push_decimal(s, n as u64);
    }
}

impl TransferError {
    /// The message this error is reported with.
    pub fn message(&self) -> (r: String)
        ensures
            r@ == message_text(*self),
    {
        match self {
            TransferError::BadFileSize => String::from_str("Bad file size."),
            TransferError::TooManyChunks => String::from_str(
                "Too many chunks! Try increasing your chunk size.",
            ),
            TransferError::MissingFileSize => String::from_str("Fail to get file size."),
            TransferError::EmptyChunk => String::from_str("Failed to read chunk data"),
            TransferError::MissingFileName { source } => {
                let mut m = String::from_str("Cannot get filename string ");
                m.append(source.as_str());
                m
            },
            TransferError::LeadingSlash { field } => {
                let mut m = String::from_str(field.label());
                m.append(" must not begin with /");
                m
            },
            TransferError::MissingETag { part } => {
                let mut m = String::from_str("Missing ETag in upload_part response for part ");
                push_signed_decimal(&mut m, *part);
                m
            },
            TransferError::PartUploadFailed { part, detail } => {
                let mut m = String::from_str("Error uploading part ");
                push_signed_decimal(&mut m, *part);
                m.append(": ");
                m.append(detail.as_str());
                m
            },
            TransferError::PartJoinFailed { part, detail } => {
                let mut m = String::from_str("Task panicked or failed to join while uploading part ");
                push_signed_decimal(&mut m, *part);
                m.append(": ");
                m.append(detail.as_str());
                m
            },
            TransferError::HeadObjectFailed { detail } => {
                let mut m = String::from_str("error ");
                m.append(detail.as_str());
                m
            },
        }
    }
}

} // verus!
