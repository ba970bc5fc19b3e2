//! File names, parents and listings entries, taken from raw path bytes.

use crate::path::{file_name, parent, spec_file_name, spec_parent};
use vstd::prelude::*;
use vstd::utf8::{decode_utf8, valid_utf8};

verus! {

/// The size of one block read from a file.
pub const FILE_BLOCK_1M: usize = 1024 * 1024;

/// Writes between two flushes of an uploaded file.
pub const FLUSH_TIME: u64 = 100;

/// The kind of an error, as `std::io::ErrorKind` names it.
#[derive(Clone, Copy, Debug, PartialEq, Eq, Structural)]
pub enum ErrorKind {
    InvalidInput,
    InvalidData,
    IsADirectory,
    AlreadyExists,
}

/// The errors that the file operations of this library produce.
#[derive(Clone, Copy, Debug, PartialEq, Eq, Structural)]
pub enum FileError {
    /// The path has no such part, or it cannot be read as text.
    IncorrectName,
    /// The part of the path that was asked for is not UTF-8.
    NonUtf8Name,
    /// A directory was asked for where a file is needed.
    IsADirectory,
    /// An upload stream carried no first message.
    EmptyRequest,
}

impl FileError {
    pub open spec fn spec_kind(self) -> ErrorKind {
        match self {
            FileError::IncorrectName => ErrorKind::InvalidInput,
            FileError::NonUtf8Name => ErrorKind::InvalidInput,
            FileError::IsADirectory => ErrorKind::IsADirectory,
            FileError::EmptyRequest => ErrorKind::InvalidData,
        }
    }

    pub open spec fn spec_message(self) -> Seq<char> {
        match self {
            FileError::IncorrectName => "file name is incorrect"@,
            FileError::NonUtf8Name => "file name contains non-UTF-8 charactors"@,
            FileError::IsADirectory => "file if dir, cannot download"@,
            FileError::EmptyRequest => "requset is None"@,
        }
    }

    /// The kind of this error.
    pub fn kind(&self) -> (r: ErrorKind)
        ensures
            r == self.spec_kind(),
    {
        match self {
            FileError::IncorrectName => ErrorKind::InvalidInput,
            FileError::NonUtf8Name => ErrorKind::InvalidInput,
            FileError::IsADirectory => ErrorKind::IsADirectory,
            FileError::EmptyRequest => ErrorKind::InvalidData,
        }
    }

    /// The text of this error.
    pub fn message(&self) -> (r: &'static str)
        ensures
            r@ == self.spec_message(),
    {
        match self {
            FileError::IncorrectName => "file name is incorrect",
            FileError::NonUtf8Name => "file name contains non-UTF-8 charactors",
            FileError::IsADirectory => "file if dir, cannot download",
            FileError::EmptyRequest => "requset is None",
        }
    }
}

/// The text that `bytes` encode, or `err` where they are not UTF-8.
pub open spec fn decoded(bytes: Seq<u8>, err: FileError) -> Result<Seq<char>, FileError> {
    if valid_utf8(bytes) {
        Ok(decode_utf8(bytes))
    } else {
        Err(err)
    }
}

pub open spec fn text_result(r: Result<String, FileError>) -> Result<Seq<char>, FileError> {
    match r {
        Ok(s) => Ok(s@),
        Err(e) => Err(e),
    }
}

/// Calls `std::str::from_utf8`: the text that the bytes encode, where they
/// are valid UTF-8.
#[verifier::external_body]
fn utf8_text(bytes: &[u8]) -> (r: Option<String>)
    ensures
        r is Some <==> valid_utf8(bytes@),
        r matches Some(s) ==> s@ == decode_utf8(bytes@),
{
    match std::str::from_utf8(bytes) {
        Ok(s) => Some(s.to_string()),
        Err(_) => None,
    }
}

/// The text of `bytes`, or `err` where they are not UTF-8.
pub fn bytes_to_text(bytes: &[u8], err: FileError) -> (r: Result<String, FileError>)
    ensures
        text_result(r) == decoded(bytes@, err),
{
    match utf8_text(bytes) {
        Some(s) => Ok(s),
        None => Err(err),
    }
}

/// The whole path as text.
pub fn path_to_string(file: &[u8]) -> (r: Result<String, FileError>)
    ensures
        text_result(r) == decoded(file@, FileError::IncorrectName),
{
    bytes_to_text(file, FileError::IncorrectName)
}

pub open spec fn spec_get_file_name(file: Seq<u8>) -> Result<Seq<char>, FileError> {
    match spec_file_name(file) {
        Some(n) => decoded(n, FileError::NonUtf8Name),
        None => Err(FileError::IncorrectName),
    }
}

pub open spec fn spec_get_file_parent(file: Seq<u8>) -> Result<Seq<char>, FileError> {
    match spec_parent(file) {
        Some(d) => decoded(d, FileError::NonUtf8Name),
        None => Err(FileError::IncorrectName),
    }
}

/// The file name of the path, as text.
pub fn get_file_name(file: &[u8]) -> (r: Result<String, FileError>)
    ensures
        text_result(r) == spec_get_file_name(file@),
{
    match file_name(file) {
        Some(n) => bytes_to_text(n.as_slice(), FileError::NonUtf8Name),
        None => Err(FileError::IncorrectName),
    }
}

/// The parent of the path, as text.
pub fn get_file_parent(file: &[u8]) -> (r: Result<String, FileError>)
    ensures
        text_result(r) == spec_get_file_parent(file@),
{
    match parent(file) {
        Some(d) => bytes_to_text(d.as_slice(), FileError::NonUtf8Name),
        None => Err(FileError::IncorrectName),
    }
}

/// A path's parent and its file name, joined again, have the path's
/// components.
pub proof fn law_parent_and_name_rejoin(p: Seq<u8>)
    requires
        spec_get_file_parent(p) is Ok,
        spec_get_file_name(p) is Ok,
    ensures
        crate::path::components(
            crate::path::spec_join(
                vstd::utf8::encode_utf8(spec_get_file_parent(p)->Ok_0),
                vstd::utf8::encode_utf8(spec_get_file_name(p)->Ok_0),
            ),
        ) == crate::path::components(p),
{
    let d = spec_parent(p)->Some_0;
    let n = spec_file_name(p)->Some_0;
    vstd::utf8::decode_utf8_encode_utf8(d);
    vstd::utf8::decode_utf8_encode_utf8(n);
    crate::path::law_parent_and_name_rejoin(p);
}

/// What a listing tells of one file.
pub struct FileInfo {
    pub size: u64,
    pub name: String,
    pub path: String,
    pub is_dir: bool,
}

impl Default for FileInfo {
    fn default() -> (r: FileInfo)
        ensures
            r.size == 0,
            r.name@ == Seq::<char>::empty(),
            r.path@ == Seq::<char>::empty(),
            !r.is_dir,
    {
        FileInfo { size: 0, name: String::new(), path: String::new(), is_dir: false }
    }
}

/// Why no `FileInfo` could be made for a path.
pub enum InfoError<E> {
    /// The path's name or text is not usable.
    Path(FileError),
    /// Reading the path's metadata failed.
    Metadata(E),
}

/// The name, the text of the path and the size of an entry, or why there is none.
pub open spec fn spec_file_info<E>(path: Seq<u8>, is_dir: bool, len: Result<u64, E>) -> Result<
    (Seq<char>, Seq<char>, u64, bool),
    InfoError<E>,
> {
    match spec_get_file_name(path) {
        Err(e) => Err(InfoError::Path(e)),
        Ok(name) => match len {
            Err(e) => Err(InfoError::Metadata(e)),
            Ok(l) => match decoded(path, FileError::IncorrectName) {
                Err(e) => Err(InfoError::Path(e)),
                Ok(text) => Ok(
                    (
                        name,
                        text,
                        if is_dir {
                            0
                        } else {
                            l
                        },
                        is_dir,
                    ),
                ),
            },
        },
    }
}

pub open spec fn info_view<E>(r: Result<FileInfo, InfoError<E>>) -> Result<
    (Seq<char>, Seq<char>, u64, bool),
    InfoError<E>,
> {
    match r {
        Ok(info) => Ok((info.name@, info.path@, info.size, info.is_dir)),
        Err(e) => Err(e),
    }
}

impl FileInfo {
    /// The entry for the file at `path`, given whether it is a directory and
    /// what reading its length gave.  The name is checked first, then the
    /// length, then the text of the whole path; a directory has size 0.
    pub fn new<E>(path: &[u8], is_dir: bool, len: Result<u64, E>) -> (r: Result<
        FileInfo,
        InfoError<E>,
    >)
        ensures
            info_view(r) == spec_file_info(path@, is_dir, len),
    {
        let name = match get_file_name(path) {
            Ok(n) => n,
            Err(e) => return Err(InfoError::Path(e)),
        };
        let mut size = match len {
            Ok(l) => l,
            Err(e) => return Err(InfoError::Metadata(e)),
        };
        if is_dir {
            size = 0;
        }
        let text = match path_to_string(path) {
            Ok(t) => t,
            Err(e) => return Err(InfoError::Path(e)),
        };
        Ok(FileInfo { size, name, path: text, is_dir })
    }
}

/// What came of one read of a file being sent out in blocks.
pub enum ReadOutcome {
    /// The read gave this many bytes.
    Read(usize),
    /// The read failed.
    Failed,
}

/// What the reader of a file does next.
#[derive(Clone, Copy, Debug, PartialEq, Eq, Structural)]
pub enum ReadAction {
    /// Send the block that was read and read again.
    SendBlock,
    /// The end of the file was reached: stop.
    Finish,
    /// Send an error that says the read failed, and stop.
    ReportAndFinish,
}

/// Decides the next step of the reader: an empty read is the end of the
/// file, a failed read is reported once and ends the reading.
pub fn next_read_action(outcome: ReadOutcome) -> (r: ReadAction)
    ensures
        r == match outcome {
            ReadOutcome::Read(n) => if n == 0 {
                ReadAction::Finish
            } else {
                ReadAction::SendBlock
            },
            ReadOutcome::Failed => ReadAction::ReportAndFinish,
        },
{
    match outcome {
        ReadOutcome::Read(n) => if n == 0 {
            ReadAction::Finish
        } else {
            ReadAction::SendBlock
        },
        ReadOutcome::Failed => ReadAction::ReportAndFinish,
    }
}

/// A directory cannot be read out as a file.
pub fn check_readable(is_dir: bool) -> (r: Result<(), FileError>)
    ensures
        r == if is_dir {
            Err::<(), FileError>(FileError::IsADirectory)
        } else {
            Ok(())
        },
{
    if is_dir {
        Err(FileError::IsADirectory)
    } else {
        Ok(())
    }
}

} // verus!
