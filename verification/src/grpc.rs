//! Decisions of the gRPC file service: listing entries, the upload flush
//! schedule, the frames of a download, and the outcome of batch deletes and
//! moves.

use crate::file::{
    get_file_name, get_file_parent, spec_get_file_name, spec_get_file_parent, ErrorKind,
    FileError, FileInfo, FLUSH_TIME,
};
use crate::path::{join, spec_join};
use vstd::prelude::*;
use vstd::string::*;
use vstd::utf8::{decode_utf8, encode_utf8, valid_utf8};

verus! {

/// The gRPC file service.  It keeps no state of its own.
#[derive(Default, Debug)]
pub struct FileServer {}

/// Whether a listed entry is a file or a directory.
#[derive(Clone, Copy, Debug, PartialEq, Eq, Structural)]
pub enum FileType {
    File,
    Dir,
}

/// One entry of a listing as the service sends it.
pub struct ListEntry {
    pub file_type: FileType,
    pub size: u64,
    pub file_name: String,
}

pub open spec fn entry_view(e: ListEntry) -> (FileType, u64, Seq<char>) {
    (e.file_type, e.size, e.file_name@)
}

/// What a listing sends for a file: its kind, its size, and its path.
pub open spec fn spec_list_entry(info: FileInfo) -> (FileType, u64, Seq<char>) {
    (
        if info.is_dir {
            FileType::Dir
        } else {
            FileType::File
        },
        info.size,
        info.path@,
    )
}

/// The listing entry for a file.
pub fn list_entry(info: FileInfo) -> (r: ListEntry)
    ensures
        entry_view(r) == spec_list_entry(info),
{
    let file_type = if info.is_dir {
        FileType::Dir
    } else {
        FileType::File
    };
    ListEntry { file_type, size: info.size, file_name: info.path }
}

/// The entries sent for the files whose information could be read, in order.
pub open spec fn spec_listing<E>(infos: Seq<Result<FileInfo, E>>) -> Seq<(FileType, u64, Seq<char>)>
    decreases infos.len(),
{
    if infos.len() == 0 {
        Seq::empty()
    } else {
        let pre = spec_listing(infos.drop_last());
        match infos.last() {
            Ok(info) => pre.push(spec_list_entry(info)),
            Err(_) => pre,
        }
    }
}

/// Where the entries of `spec_listing(infos)` come from, as indices into `infos`.
proof fn lemma_listing_positions<E>(infos: Seq<Result<FileInfo, E>>) -> (pos: Seq<int>)
    ensures
        pos.len() == spec_listing(infos).len(),
        forall|j: int|
            0 <= j < pos.len() ==> 0 <= #[trigger] pos[j] < infos.len() && infos[pos[j]] is Ok
                && spec_listing(infos)[j] == spec_list_entry(infos[pos[j]]->Ok_0),
        forall|j1: int, j2: int| 0 <= j1 < j2 < pos.len() ==> #[trigger] pos[j1] < #[trigger] pos[j2],
        forall|i: int| 0 <= i < infos.len() && (#[trigger] infos[i]) is Ok ==> pos.contains(i),
    decreases infos.len(),
{
    if infos.len() == 0 {
        Seq::empty()
    } else {
        let pre = infos.drop_last();
        let p = lemma_listing_positions(pre);
        let last = infos.len() - 1;
        assert forall|j: int| 0 <= j < p.len() implies infos[p[j]] == pre[p[j]] by {}
        match infos.last() {
            Ok(info) => {
                let q = p.push(last);
                assert forall|i: int| 0 <= i < infos.len() && (#[trigger] infos[i]) is Ok implies q.contains(i) by {
                    if i < last {
                        assert(pre[i] == infos[i]);
                        assert(p.contains(i));
                        let j = choose|j: int| 0 <= j < p.len() && p[j] == i;
                        assert(q[j] == i);
                    } else {
                        assert(q[q.len() - 1] == i);
                    }
                }
                q
            },
            Err(_) => {
                assert forall|i: int| 0 <= i < infos.len() && (#[trigger] infos[i]) is Ok implies p.contains(i) by {
                    if i < last {
                        assert(pre[i] == infos[i]);
                    } else {
                        assert(infos[i] == infos.last());
                    }
                }
                p
            },
        }
    }
}

/// A listing sends one entry for each file whose information could be
/// read, in the order they came, whatever their names: there is a rising
/// choice of indices into `infos` that picks out the file of each entry,
/// and it takes in every file that was read.
pub proof fn law_listing_sends_every_read_file<E>(infos: Seq<Result<FileInfo, E>>)
    ensures
        exists|pos: Seq<int>|
            #![trigger pos.len()]
            {
                &&& pos.len() == spec_listing(infos).len()
                &&& forall|j: int|
                    0 <= j < pos.len() ==> 0 <= #[trigger] pos[j] < infos.len() && infos[pos[j]] is Ok
                        && spec_listing(infos)[j] == spec_list_entry(infos[pos[j]]->Ok_0)
                &&& forall|j1: int, j2: int|
                    0 <= j1 < j2 < pos.len() ==> #[trigger] pos[j1] < #[trigger] pos[j2]
                &&& forall|i: int| 0 <= i < infos.len() && (#[trigger] infos[i]) is Ok ==> pos.contains(i)
            },
{
    let pos = lemma_listing_positions(infos);
    assert(pos.len() == spec_listing(infos).len());
}

/// The listing: one entry for each file whose information could be read;
/// the others are left out.
pub fn listing<E>(infos: Vec<Result<FileInfo, E>>) -> (r: Vec<ListEntry>)
    ensures
        r@.map_values(|e: ListEntry| entry_view(e)) == spec_listing(infos@),
{
    let ghost all = infos@;
    let mut infos = infos;
    let mut out: Vec<ListEntry> = Vec::new();
    // Reverse the items once, so that each can be moved out from the back in order.
    let mut pending: Vec<Result<FileInfo, E>> = Vec::new();
    while infos.len() > 0
        invariant
            pending@.len() + infos@.len() == all.len(),
            forall|j: int| 0 <= j < infos@.len() ==> #[trigger] infos@[j] == all[j],
            forall|j: int|
                0 <= j < pending@.len() ==> #[trigger] pending@[j] == all[all.len() - 1 - j],
        decreases infos@.len(),
    {
        let item = infos.pop().unwrap();
        pending.push(item);
    }
    assert(pending@.len() == all.len());
    while pending.len() > 0
        invariant
            pending@.len() <= all.len(),
            forall|j: int|
                0 <= j < pending@.len() ==> #[trigger] pending@[j] == all[all.len() - 1 - j],
            out@.map_values(|e: ListEntry| entry_view(e)) == spec_listing(
                all.subrange(0, all.len() - pending@.len()),
            ),
        decreases pending@.len(),
    {
        let ghost done = all.len() - pending@.len();
        let item = pending.pop().unwrap();
        assert(item == all[done]);
        let ghost next = all.subrange(0, done + 1);
        assert(next.drop_last() =~= all.subrange(0, done));
        assert(next.last() == item);
        let ghost old_out = out@;
        match item {
            Ok(info) => {
                out.push(list_entry(info));
                assert(out@.map_values(|e: ListEntry| entry_view(e)) =~= old_out.map_values(
                    |e: ListEntry| entry_view(e),
                ).push(entry_view(out@.last())));
            },
            Err(_) => {},
        }
    }
    assert(all.subrange(0, all.len() as int) =~= all);
    out
}

/// The path that an upload writes: the file name joined onto the directory.
pub fn upload_path(file_path: &str, file_name: &str) -> (r: Vec<u8>)
    ensures
        r@ == spec_join(file_path.spec_bytes(), file_name.spec_bytes()),
{
    join(file_path.as_bytes(), file_name.as_bytes())
}

/// The error for an upload whose target already exists: its kind and text.
pub fn exists_error(target: &[u8]) -> (r: (ErrorKind, String))
    requires
        valid_utf8(target@),
    ensures
        r.0 == ErrorKind::AlreadyExists,
        r.1@ == "file "@ + decode_utf8(target@) + " already exists"@,
{
    let t = match crate::file::bytes_to_text(target, FileError::IncorrectName) {
        Ok(t) => t,
        Err(_) => {
            assert(false);
            String::new()
        },
    };
    let mut r = "file ".to_string();
    r.append(t.as_str());
    r.append(" already exists");
    (ErrorKind::AlreadyExists, r)
}

/// An upload without a first message fails.
pub fn first_upload_message<T>(first: Option<T>) -> (r: Result<T, FileError>)
    ensures
        match first {
            Some(m) => r == Ok::<T, FileError>(m),
            None => r == Err::<T, FileError>(FileError::EmptyRequest),
        },
{
    match first {
        Some(m) => Ok(m),
        None => Err(FileError::EmptyRequest),
    }
}

/// How many writes an upload has made so far.
pub struct UploadProgress {
    pub write_times: u32,
}

/// What an upload does after a write.
#[derive(Clone, Copy, Debug, PartialEq, Eq, Structural)]
pub struct UploadAction {
    /// Flush the file now.
    pub flush: bool,
    /// The stream is done: stop reading it.
    pub stop: bool,
}

impl UploadProgress {
    /// The progress once the first message has been written.
    pub fn new() -> (r: UploadProgress)
        ensures
            r.write_times == 1,
    {
        UploadProgress { write_times: 1 }
    }

    /// Counts a write of `len` bytes: the file is flushed on every
    /// `FLUSH_TIME`-th write, and a write of nothing ends the upload.
    pub fn after_write(&mut self, len: usize) -> (r: UploadAction)
        requires
            old(self).write_times < u32::MAX,
        ensures
            final(self).write_times == old(self).write_times + 1,
            r.flush == (final(self).write_times % (FLUSH_TIME as u32) == 0),
            r.stop == (len == 0),
    {
        self.write_times = self.write_times + 1;
        UploadAction { flush: self.write_times % (FLUSH_TIME as u32) == 0, stop: len == 0 }
    }
}

/// The file to send, its parent directory and its name, for a download of
/// `file_name` in `file_path`.  The parent is read first.
pub fn download_source(file_path: &str, file_name: &str) -> (r: Result<
    (Vec<u8>, String, String),
    FileError,
>)
    ensures
        ({
            let target = spec_join(file_path.spec_bytes(), file_name.spec_bytes());
            match r {
                Ok((t, parent, name)) => {
                    &&& t@ == target
                    &&& spec_get_file_parent(target) == Ok::<Seq<char>, FileError>(parent@)
                    &&& spec_get_file_name(target) == Ok::<Seq<char>, FileError>(name@)
                },
                Err(e) => match spec_get_file_parent(target) {
                    Err(pe) => e == pe,
                    Ok(_) => spec_get_file_name(target) == Err::<Seq<char>, FileError>(e),
                },
            }
        }),
{
    let target = join(file_path.as_bytes(), file_name.as_bytes());
    let parent = match get_file_parent(target.as_slice()) {
        Ok(p) => p,
        Err(e) => return Err(e),
    };
    let name = match get_file_name(target.as_slice()) {
        Ok(n) => n,
        Err(e) => return Err(e),
    };
    Ok((target, parent, name))
}

/// A download of a plain name from a directory that ends in a component
/// (or from the root, or from the empty path) answers with that very name
/// and directory.
pub proof fn law_download_echoes_request(file_path: Seq<char>, file_name: Seq<char>)
    requires
        crate::path::is_plain_name(encode_utf8(file_name)),
        crate::path::is_parent_shape(encode_utf8(file_path)),
    ensures
        ({
            let target = spec_join(encode_utf8(file_path), encode_utf8(file_name));
            &&& spec_get_file_parent(target) == Ok::<Seq<char>, FileError>(file_path)
            &&& spec_get_file_name(target) == Ok::<Seq<char>, FileError>(file_name)
        }),
{
    let p = encode_utf8(file_path);
    let n = encode_utf8(file_name);
    crate::path::law_join_file_name(p, n);
    crate::path::law_join_parent(p, n);
    vstd::utf8::encode_utf8_valid_utf8(file_path);
    vstd::utf8::encode_utf8_valid_utf8(file_name);
    vstd::utf8::encode_utf8_decode_utf8(file_path);
    vstd::utf8::encode_utf8_decode_utf8(file_name);
}

/// The header that every frame of a download carries.
pub struct DownloadHeader {
    pub file_name: String,
    pub file_path: String,
    pub mode: u32,
}

/// One frame of a download.
pub struct DownloadFrame {
    pub file_name: String,
    pub file_path: String,
    pub mode: u32,
    pub content: Vec<u8>,
}

/// The frame for a block of content; an empty block ends the download.
pub fn download_frame(header: &DownloadHeader, content: Vec<u8>) -> (r: Option<DownloadFrame>)
    ensures
        content@.len() == 0 <==> r is None,
        r matches Some(f) ==> {
            &&& f.file_name@ == header.file_name@
            &&& f.file_path@ == header.file_path@
            &&& f.mode == header.mode
            &&& f.content@ == content@
        },
{
    if content.len() == 0 {
        return None;
    }
    Some(
        DownloadFrame {
            file_name: header.file_name.clone(),
            file_path: header.file_path.clone(),
            mode: header.mode,
            content,
        },
    )
}

/// The index of the last failure among `outcomes`, if any.
pub open spec fn last_failure<E>(outcomes: Seq<Result<(), E>>) -> Option<int>
    decreases outcomes.len(),
{
    if outcomes.len() == 0 {
        None
    } else if outcomes.last() is Err {
        Some(outcomes.len() - 1)
    } else {
        last_failure(outcomes.drop_last())
    }
}

proof fn lemma_last_failure<E>(s: Seq<Result<(), E>>)
    ensures
        match last_failure(s) {
            None => forall|j: int| 0 <= j < s.len() ==> #[trigger] s[j] is Ok,
            Some(i) => {
                &&& 0 <= i < s.len()
                &&& s[i] is Err
                &&& forall|j: int| i < j < s.len() ==> #[trigger] s[j] is Ok
            },
        },
    decreases s.len(),
{
    if s.len() > 0 {
        let d = s.drop_last();
        lemma_last_failure(d);
        assert(s[s.len() - 1] == s.last());
        assert forall|j: int| 0 <= j < s.len() - 1 implies s[j] == #[trigger] d[j] by {}
        if s.last() is Ok {
            match last_failure(d) {
                None => {
                    assert forall|j: int| 0 <= j < s.len() implies #[trigger] s[j] is Ok by {
                        if j < s.len() - 1 {
                            assert(s[j] == d[j]);
                        }
                    }
                },
                Some(i) => {
                    assert(s[i] == d[i]);
                    assert forall|j: int| i < j < s.len() implies #[trigger] s[j] is Ok by {
                        if j < s.len() - 1 {
                            assert(s[j] == d[j]);
                        }
                    }
                },
            }
        }
    }
}

/// A batch succeeds exactly when every one of its operations succeeded.
pub proof fn law_batch_ok_iff_all_ok<E>(outcomes: Seq<Result<(), E>>)
    ensures
        last_failure(outcomes) is None <==> forall|j: int|
            0 <= j < outcomes.len() ==> #[trigger] outcomes[j] is Ok,
{
    lemma_last_failure(outcomes);
}

/// The outcome of a batch: every operation is tried; the batch fails with
/// the error of the last operation that failed, and succeeds when none did.
pub fn batch_outcome<E>(outcomes: Vec<Result<(), E>>) -> (r: Result<(), E>)
    ensures
        match last_failure(outcomes@) {
            None => r is Ok,
            Some(i) => r == outcomes@[i],
        },
{
    let ghost all = outcomes@;
    let mut outcomes = outcomes;
    let mut result: Result<(), E> = Ok(());
    proof {
        lemma_last_failure(all);
        assert(outcomes@ =~= all.subrange(0, outcomes@.len() as int));
    }
    while outcomes.len() > 0
        invariant
            outcomes@.len() <= all.len(),
            outcomes@ == all.subrange(0, outcomes@.len() as int),
            match last_failure(all) {
                None => result is Ok,
                Some(i) => (i >= outcomes@.len() ==> result == all[i]) && (i < outcomes@.len()
                    ==> result is Ok),
            },
        decreases outcomes@.len(),
    {
        proof {
            lemma_last_failure(all);
        }
        let ghost k = outcomes@.len() - 1;
        let item = outcomes.pop().unwrap();
        assert(item == all[k]);
        assert(outcomes@ =~= all.subrange(0, outcomes@.len() as int));
        if item.is_err() {
            if result.is_ok() {
                result = item;
            }
        }
    }
    result
}

/// Where `src_file` goes when it is moved into `destination_dir`: its file
/// name joined onto that directory.
pub fn move_target(src_file: &str, destination_dir: &str) -> (r: Result<Vec<u8>, FileError>)
    ensures
        match spec_get_file_name(src_file.spec_bytes()) {
            Ok(name) => r matches Ok(t) && t@ == spec_join(
                destination_dir.spec_bytes(),
                encode_utf8(name),
            ),
            Err(e) => r == Err::<Vec<u8>, FileError>(e),
        },
{
    let name = match get_file_name(src_file.as_bytes()) {
        Ok(n) => n,
        Err(e) => return Err(e),
    };
    Ok(join(destination_dir.as_bytes(), name.as_str().as_bytes()))
}

/// A moved file keeps its name.
pub proof fn law_move_keeps_name(src_file: Seq<u8>, destination_dir: Seq<u8>)
    requires
        spec_get_file_name(src_file) is Ok,
    ensures
        spec_get_file_name(
            spec_join(destination_dir, encode_utf8(spec_get_file_name(src_file)->Ok_0)),
        ) == spec_get_file_name(src_file),
{
    let n = crate::path::spec_file_name(src_file)->Some_0;
    crate::path::lemma_file_name_is_plain(src_file);
    vstd::utf8::decode_utf8_encode_utf8(n);
    crate::path::law_join_file_name(destination_dir, n);
}

} // verus!
