//! The command line of the file client.

use vstd::prelude::*;

verus! {

/// The address the client connects to by default.
pub const IP: &'static str = "127.0.0.1";

/// The port the client connects to by default.
pub const PORT: u16 = 10086;

/// The client's command line.
pub struct Flags {
    /// server listening ip addr
    pub ip: String,
    /// server listening ip port
    pub port: u16,
    /// The maximum number of simultaneous uploads
    pub max_simultaneous: usize,
    /// The subcommand
    pub command: Option<Commands>,
}

/// The subcommands.
pub enum Commands {
    /// Operate on the files in the server.
    File { command: Option<FileCommand> },
}

/// The file subcommands.
pub enum FileCommand {
    /// List the files in a directory of the server.
    List { remote_dir: String },
    /// Upload local files into a directory of the server.
    UploadFiles { local_files: Vec<String>, remote_dir: String },
    /// Download files of the server into a local directory.
    DownloadFile { remote_files: Vec<String>, local_dir: String },
    /// Delete files of the server.
    DeleteFile { remote_files: Vec<String> },
    /// Move files of the server into another of its directories.
    MoveFile { src_files: Vec<String>, destination_dir: String },
}

} // verus!
