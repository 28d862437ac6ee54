//! Error kinds of the sort engine and the exit status that each maps to.
use vstd::prelude::*;

verus! {

/// What went wrong; each variant carries the text needed to report it.
#[derive(Debug)]
pub enum SortError {
    Io { message: String },
    PermissionDenied { file: String },
    FileNotFound { file: String },
    IsDirectory { file: String },
    InvalidKeySpec { spec: String },
    InvalidFieldSeparator { sep: String },
    InvalidBufferSize { size: String },
    ConflictingOptions { message: String },
    OutOfMemory,
    NotSorted { line: usize },
    MergeFailed { message: String },
    ThreadPoolError { message: String },
    ParseError { message: String },
    Internal { message: String },
}

/// Result of an operation of the engine.
pub type SortResult<T> = Result<T, SortError>;

/// The exit status for an error: 2 for I/O and internal failures, 1 otherwise.
pub open spec fn spec_exit_code(e: &SortError) -> i32 {
    match e {
        SortError::Io { .. } | SortError::PermissionDenied { .. } | SortError::FileNotFound { .. }
        | SortError::IsDirectory { .. } | SortError::Internal { .. } => crate::SORT_FAILURE,
        _ => crate::EXIT_FAILURE,
    }
}

impl SortError {
    /// Exit status that the command reports for this error.
    pub fn exit_code(&self) -> (r: i32)
        ensures
            r == spec_exit_code(self),
    {
        match self {
            SortError::Io { .. } | SortError::PermissionDenied { .. } | SortError::FileNotFound {
                ..
            } | SortError::IsDirectory { .. } | SortError::Internal { .. } => crate::SORT_FAILURE,
            SortError::NotSorted { .. } => crate::EXIT_FAILURE,
            _ => crate::EXIT_FAILURE,
        }
    }

    pub fn permission_denied(file: &str) -> (r: Self)
        ensures
            r matches SortError::PermissionDenied { file: f } && f@ == file@,
    {
        SortError::PermissionDenied { file: file.to_owned() }
    }

    pub fn file_not_found(file: &str) -> (r: Self)
        ensures
            r matches SortError::FileNotFound { file: f } && f@ == file@,
    {
        SortError::FileNotFound { file: file.to_owned() }
    }

    pub fn is_directory(file: &str) -> (r: Self)
        ensures
            r matches SortError::IsDirectory { file: f } && f@ == file@,
    {
        SortError::IsDirectory { file: file.to_owned() }
    }

    pub fn invalid_key_spec(spec: &str) -> (r: Self)
        ensures
            r matches SortError::InvalidKeySpec { spec: s } && s@ == spec@,
    {
        SortError::InvalidKeySpec { spec: spec.to_owned() }
    }

    pub fn invalid_field_separator(sep: &str) -> (r: Self)
        ensures
            r matches SortError::InvalidFieldSeparator { sep: s } && s@ == sep@,
    {
        SortError::InvalidFieldSeparator { sep: sep.to_owned() }
    }

    pub fn invalid_buffer_size(size: &str) -> (r: Self)
        ensures
            r matches SortError::InvalidBufferSize { size: s } && s@ == size@,
    {
        SortError::InvalidBufferSize { size: size.to_owned() }
    }

    pub fn conflicting_options(message: &str) -> (r: Self)
        ensures
            r matches SortError::ConflictingOptions { message: m } && m@ == message@,
    {
        SortError::ConflictingOptions { message: message.to_owned() }
    }

    pub fn not_sorted(line: usize) -> (r: Self)
        ensures
            r == (SortError::NotSorted { line }),
    {
        SortError::NotSorted { line }
    }

    pub fn merge_failed(message: &str) -> (r: Self)
        ensures
            r matches SortError::MergeFailed { message: m } && m@ == message@,
    {
        SortError::MergeFailed { message: message.to_owned() }
    }

    pub fn thread_pool_error(message: &str) -> (r: Self)
        ensures
            r matches SortError::ThreadPoolError { message: m } && m@ == message@,
    {
        SortError::ThreadPoolError { message: message.to_owned() }
    }

    pub fn parse_error(message: &str) -> (r: Self)
        ensures
            r matches SortError::ParseError { message: m } && m@ == message@,
    {
        SortError::ParseError { message: message.to_owned() }
    }

    pub fn internal(message: &str) -> (r: Self)
        ensures
            r matches SortError::Internal { message: m } && m@ == message@,
    {
        SortError::Internal { message: message.to_owned() }
    }
}

} // verus!
