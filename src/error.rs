use vstd::prelude::*;

verus! {

/// Declares `std::io::Error`, so that the errors of the file operations can
/// travel inside this library's error types. Nothing is assumed of its
/// contents.
#[verifier::external_type_specification]
#[verifier::external_body]
pub struct ExIoError(std::io::Error);

/// Why splitting a file failed.
#[derive(Debug)]
pub enum ChopError {
    GenericIo(std::io::Error),
    ByteSize(String),
    PartSizeTooLarge,
    NumPartsTooLarge,
    InvalidNumParts,
    InsufficientDiskSpace,
    PartFileAlreadyExists(Vec<u8>),
    FailedToReadPart(std::io::Error),
    FailedToWritePart(Vec<u8>, std::io::Error),
    FailedToTruncate(std::io::Error),
    FailedToDeleteOriginal(std::io::Error),
}

impl ChopError {
    /// Failures of the file operations themselves, as opposed to bad input or
    /// an unmet precondition.
    pub open spec fn is_operation_failure(&self) -> bool {
        ||| self is GenericIo
        ||| self is FailedToReadPart
        ||| self is FailedToWritePart
        ||| self is FailedToTruncate
        ||| self is FailedToDeleteOriginal
    }

    /// The process exit code for this error: 2 for a failed file operation,
    /// 1 for bad input or an unmet precondition.
    pub fn exit_code(&self) -> (r: i32)
        ensures
            r == if self.is_operation_failure() {
                2i32
            } else {
                1i32
            },
    {
        match self {
            ChopError::GenericIo(_) => 2,
            ChopError::ByteSize(_) => 1,
            ChopError::PartSizeTooLarge => 1,
            ChopError::NumPartsTooLarge => 1,
            ChopError::InvalidNumParts => 1,
            ChopError::InsufficientDiskSpace => 1,
            ChopError::PartFileAlreadyExists(_) => 1,
            ChopError::FailedToReadPart(_) => 2,
            ChopError::FailedToWritePart(_, _) => 2,
            ChopError::FailedToTruncate(_) => 2,
            ChopError::FailedToDeleteOriginal(_) => 2,
        }
    }
}

/// Why putting a file back together failed.
#[derive(Debug)]
pub enum StickError {
    BadParent(std::io::Error),
    NoParts,
    IncompleteParts(Vec<Vec<u8>>),
    InsufficientDiskSpace,
    /// The file to rebuild is already there, and would be overwritten.
    OriginalExists(Vec<u8>),
    CreateOriginal(Vec<u8>, std::io::Error),
    ReadPart(Vec<u8>, std::io::Error),
    WriteOriginal(std::io::Error),
    DeletePart(Vec<u8>, std::io::Error),
}

impl StickError {
    /// Failures of the file operations themselves, as opposed to bad input or
    /// an unmet precondition.
    pub open spec fn is_operation_failure(&self) -> bool {
        ||| self is CreateOriginal
        ||| self is ReadPart
        ||| self is WriteOriginal
        ||| self is DeletePart
    }

    /// The process exit code for this error: 2 for a failed file operation,
    /// 1 for bad input or an unmet precondition.
    pub fn exit_code(&self) -> (r: i32)
        ensures
            r == if self.is_operation_failure() {
                2i32
            } else {
                1i32
            },
    {
        match self {
            StickError::BadParent(_) => 1,
            StickError::NoParts => 1,
            StickError::IncompleteParts(_) => 1,
            StickError::InsufficientDiskSpace => 1,
            StickError::OriginalExists(_) => 1,
            StickError::CreateOriginal(_, _) => 2,
            StickError::ReadPart(_, _) => 2,
            StickError::WriteOriginal(_) => 2,
            StickError::DeletePart(_, _) => 2,
        }
    }
}

} // verus!
