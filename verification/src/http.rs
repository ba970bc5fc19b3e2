//! Decisions of the HTTP file service: where a request points, what a
//! listing shows, how a rename is checked and in which order uploaded parts
//! are merged.

use crate::file::{
    bytes_to_text, get_file_name, get_file_parent, spec_get_file_name, spec_get_file_parent,
    FileError, FileInfo,
};
use crate::number::{decimal, law_parse_decimal, parse_u32, spec_parse_u32};
use crate::order::{is_stable_sort, stable_sort_by_key};
use crate::path::{
    components, file_name, join, spec_file_name, spec_join, spec_strip_prefix, strip_prefix, DOT,
    SEP,
};
use vstd::prelude::*;
use vstd::string::*;
use vstd::utf8::{decode_utf8, valid_utf8};

verus! {

pub const STATUS_OK: u16 = 200;

pub const STATUS_CREATED: u16 = 201;

pub const STATUS_BAD_REQUEST: u16 = 400;

pub const STATUS_NOT_FOUND: u16 = 404;

pub const STATUS_CONFLICT: u16 = 409;

/// The byte `\`.
pub const BACKSLASH: u8 = 92;

/// The state that the HTTP handlers share: the directory that they serve.
#[derive(Clone)]
pub struct AppState {
    pub root_dir: String,
}

/// An error answer: a status code and its text.
pub struct HttpError {
    pub status: u16,
    pub message: String,
}

impl HttpError {
    pub open spec fn view(&self) -> (u16, Seq<char>) {
        (self.status, self.message@)
    }

    /// An error with the given status whose text is that of a file error.
    pub fn from_file_error(status: u16, e: FileError) -> (r: HttpError)
        ensures
            r@ == (status, e.spec_message()),
    {
        HttpError { status, message: e.message().to_string() }
    }
}

/// A success answer: a status code and its text.
pub struct HttpReply {
    pub status: u16,
    pub body: String,
}

impl HttpReply {
    pub open spec fn view(&self) -> (u16, Seq<char>) {
        (self.status, self.body@)
    }
}

/// A request that was carried out.
#[derive(Clone, Copy, Debug, PartialEq, Eq, Structural)]
pub enum Finished {
    Upload,
    Delete,
    Rename,
    Merge,
}

/// The answer to a request that was carried out.
pub open spec fn spec_finished_answer(f: Finished) -> (u16, Seq<char>) {
    match f {
        Finished::Upload => (STATUS_CREATED, "File uploaded successfully."@),
        Finished::Delete => (STATUS_OK, "delete finished"@),
        Finished::Rename => (STATUS_OK, "rename finished"@),
        Finished::Merge => (STATUS_OK, "Merge finished"@),
    }
}

/// The answer to a request that was carried out: an upload creates, the
/// others answer that they finished.
pub fn finished_answer(f: Finished) -> (r: HttpReply)
    ensures
        r@ == spec_finished_answer(f),
{
    match f {
        Finished::Upload => HttpReply {
            status: STATUS_CREATED,
            body: "File uploaded successfully.".to_string(),
        },
        Finished::Delete => HttpReply { status: STATUS_OK, body: "delete finished".to_string() },
        Finished::Rename => HttpReply { status: STATUS_OK, body: "rename finished".to_string() },
        Finished::Merge => HttpReply { status: STATUS_OK, body: "Merge finished".to_string() },
    }
}

/// `s` without the separators at its start.
pub open spec fn trim_leading_seps(s: Seq<u8>) -> Seq<u8>
    decreases s.len(),
{
    if s.len() > 0 && s[0] == SEP {
        trim_leading_seps(s.drop_first())
    } else {
        s
    }
}

/// The path on disk that a request for `requested` points to: the request
/// without its leading separators, joined onto the served directory.
pub open spec fn spec_resolve(root_dir: Seq<u8>, requested: Seq<u8>) -> Seq<u8> {
    spec_join(root_dir, trim_leading_seps(requested))
}

/// The path on disk that a request for `requested` points to.
pub fn resolve_request_path(root_dir: &str, requested: &str) -> (r: Vec<u8>)
    ensures
        r@ == spec_resolve(root_dir.spec_bytes(), requested.spec_bytes()),
{
    let bytes = requested.as_bytes();
    let mut k: usize = 0;
    assert(bytes@.subrange(0, bytes@.len() as int) =~= bytes@);
    while k < bytes.len() && bytes[k] == SEP
        invariant
            k <= bytes@.len(),
            trim_leading_seps(bytes@.subrange(k as int, bytes@.len() as int)) == trim_leading_seps(
                bytes@,
            ),
            bytes@ == requested.spec_bytes(),
        decreases bytes@.len() - k,
    {
        assert(bytes@.subrange(k as int, bytes@.len() as int).drop_first() =~= bytes@.subrange(
            k + 1,
            bytes@.len() as int,
        ));
        k = k + 1;
    }
    assert(bytes@.subrange(0, bytes@.len() as int) =~= bytes@);
    join(root_dir.as_bytes(), &bytes[k..bytes.len()])
}

proof fn lemma_trim_leading_seps(s: Seq<u8>)
    ensures
        trim_leading_seps(s).len() > 0 ==> trim_leading_seps(s)[0] != SEP,
    decreases s.len(),
{
    if s.len() > 0 && s[0] == SEP {
        lemma_trim_leading_seps(s.drop_first());
    }
}

/// A request never points outside the served directory's path: what it
/// resolves to begins with that path, byte for byte and component by
/// component, so it is that path relative to the served directory.
pub proof fn law_resolve_stays_under_root(root_dir: Seq<u8>, requested: Seq<u8>)
    ensures
        spec_resolve(root_dir, requested).len() >= root_dir.len(),
        spec_resolve(root_dir, requested).subrange(0, root_dir.len() as int) == root_dir,
        components(root_dir).len() <= components(spec_resolve(root_dir, requested)).len(),
        components(spec_resolve(root_dir, requested)).subrange(
            0,
            components(root_dir).len() as int,
        ) == components(root_dir),
        spec_strip_prefix(spec_resolve(root_dir, requested), root_dir) is Some,
{
    lemma_trim_leading_seps(requested);
    crate::path::law_join_keeps_components(root_dir, trim_leading_seps(requested));
    let t = trim_leading_seps(requested);
    let r = spec_resolve(root_dir, requested);
    assert(r.subrange(0, root_dir.len() as int) =~= root_dir);
}

/// A request is kept byte for byte after its leading separators: where the
/// first `k` bytes are separators and the next is not (or there is none),
/// the request points to the rest of it joined onto the served directory.
/// A request that does not start with a separator is joined as it is.
pub proof fn law_resolve_keeps_request(root_dir: Seq<u8>, requested: Seq<u8>, k: int)
    requires
        0 <= k <= requested.len(),
        forall|j: int| 0 <= j < k ==> requested[j] == SEP,
        k == requested.len() || requested[k] != SEP,
    ensures
        spec_resolve(root_dir, requested) == spec_join(
            root_dir,
            requested.subrange(k, requested.len() as int),
        ),
        k == 0 ==> spec_resolve(root_dir, requested) == spec_join(root_dir, requested),
    decreases k,
{
    if k > 0 {
        let rest = requested.drop_first();
        assert forall|j: int| 0 <= j < k - 1 implies rest[j] == SEP by {
            assert(rest[j] == requested[j + 1]);
        }
        if k - 1 < rest.len() {
            assert(rest[k - 1] == requested[k]);
        }
        law_resolve_keeps_request(root_dir, rest, k - 1);
        assert(rest.subrange(k - 1, rest.len() as int) =~= requested.subrange(
            k,
            requested.len() as int,
        ));
    } else {
        assert(requested.subrange(0, requested.len() as int) =~= requested);
    }
}

/// `requested`, with a separator put in front where it has none.
pub fn absolute_request_path(requested: &str) -> (r: String)
    ensures
        r@ == if requested@.len() > 0 && requested@[0] == '/' {
            requested@
        } else {
            seq!['/'] + requested@
        },
{
    proof {
        reveal_strlit("/");
    }
    let bytes = requested.as_bytes();
    proof {
        lemma_first_byte_slash(requested@);
    }
    if bytes.len() > 0 && bytes[0] == SEP {
        requested.to_string()
    } else {
        let mut r = "/".to_string();
        r.append(requested);
        r
    }
}

/// The first byte of a text's encoding is `/` exactly when its first
/// character is `/`.
proof fn lemma_first_byte_slash(s: Seq<char>)
    ensures
        (vstd::utf8::encode_utf8(s).len() > 0 && vstd::utf8::encode_utf8(s)[0] == SEP) <==> (
        s.len() > 0 && s[0] == '/'),
{
    if s.len() > 0 {
        let c = s[0] as u32;
        vstd::utf8::char_is_scalar(s[0]);
        let e = vstd::utf8::encode_scalar(c);
        assert(vstd::utf8::encode_utf8(s) == e + vstd::utf8::encode_utf8(s.drop_first()));
        if vstd::utf8::has_width_1_encoding(c) {
            assert((c & 0x7F) == c) by (bit_vector)
                requires
                    c <= 0x7F,
            ;
            assert(e[0] == c as u8);
            vstd::utf8::char_u32_cast(s[0], c);
            vstd::utf8::char_u32_cast('/', 47u32);
        } else if vstd::utf8::has_width_2_encoding(c) {
            let y = ((c >> 6) & 0x1F) as u8;
            assert((0xC0u8 | y) != 47u8) by (bit_vector);
            assert(s[0] != '/');
        } else if vstd::utf8::has_width_3_encoding(c) {
            let y = ((c >> 12) & 0x0F) as u8;
            assert((0xE0u8 | y) != 47u8) by (bit_vector);
            assert(s[0] != '/');
        } else {
            let y = ((c >> 18) & 0x7) as u8;
            assert((0xF0u8 | y) != 47u8) by (bit_vector);
            assert(s[0] != '/');
        }
    }
}

/// The header that sends a file as an attachment under its own name, or
/// under `unknown` where it has no name that is text.
pub open spec fn spec_content_disposition(full_path: Seq<u8>) -> Seq<char> {
    let name = match spec_file_name(full_path) {
        Some(n) => if valid_utf8(n) {
            decode_utf8(n)
        } else {
            "unknown"@
        },
        None => "unknown"@,
    };
    "attachment; filename=\""@ + name + "\""@
}

/// A download is offered under the file's own name whenever that name is
/// text, whatever characters it holds; `unknown` stands only for a path
/// with no file name, or with one that is not text.
pub proof fn law_disposition_names_the_file(full_path: Seq<u8>)
    ensures
        spec_file_name(full_path) matches Some(n) && valid_utf8(n) ==> spec_content_disposition(
            full_path,
        ) == "attachment; filename=\""@ + decode_utf8(spec_file_name(full_path)->Some_0)
            + "\""@,
        !(spec_file_name(full_path) matches Some(n) && valid_utf8(n)) ==> spec_content_disposition(
            full_path,
        ) == "attachment; filename=\""@ + "unknown"@ + "\""@,
{
}

/// The `Content-Disposition` header for downloading `full_path`.
pub fn content_disposition(full_path: &[u8]) -> (r: String)
    ensures
        r@ == spec_content_disposition(full_path@),
{
    let name = match file_name(full_path) {
        Some(n) => match bytes_to_text(n.as_slice(), FileError::NonUtf8Name) {
            Ok(t) => t,
            Err(_) => "unknown".to_string(),
        },
        None => "unknown".to_string(),
    };
    let mut r = "attachment; filename=\"".to_string();
    r.append(name.as_str());
    r.append("\"");
    r
}

/// Where an uploaded field is written: its file name, or `unknown`, joined
/// onto the upload directory.
pub fn upload_target(dir: &[u8], field_file_name: Option<&str>) -> (r: Vec<u8>)
    ensures
        r@ == spec_join(
            dir@,
            match field_file_name {
                Some(n) => n.spec_bytes(),
                None => "unknown".spec_bytes(),
            },
        ),
{
    match field_file_name {
        Some(n) => join(dir, n.as_bytes()),
        None => join(dir, "unknown".as_bytes()),
    }
}

/// The answer to an upload whose target already exists.
pub fn upload_conflict() -> (r: HttpError)
    ensures
        r@ == (STATUS_CONFLICT, "File already exists"@),
{
    HttpError { status: STATUS_CONFLICT, message: "File already exists".to_string() }
}

/// How a path is removed.
#[derive(Clone, Copy, Debug, PartialEq, Eq, Structural)]
pub enum Removal {
    /// Remove the directory and all it holds.
    Directory,
    /// Remove the file.
    File,
}

/// How a path is removed: a directory with all it holds, anything else as a file.
pub fn removal_kind(is_dir: bool) -> (r: Removal)
    ensures
        r == if is_dir {
            Removal::Directory
        } else {
            Removal::File
        },
{
    if is_dir {
        Removal::Directory
    } else {
        Removal::File
    }
}

/// The answer to a path that does not exist.
pub fn path_not_found() -> (r: HttpError)
    ensures
        r@ == (STATUS_NOT_FOUND, "path not exist"@),
{
    HttpError { status: STATUS_NOT_FOUND, message: "path not exist".to_string() }
}

/// A listing needs an existing directory.
pub fn check_listable(path_exists: bool, is_dir: bool) -> (r: Result<(), HttpError>)
    ensures
        r is Ok <==> path_exists && is_dir,
        r matches Err(e) ==> e@ == (STATUS_NOT_FOUND, "path not exist"@),
{
    if !path_exists || !is_dir {
        return Err(path_not_found());
    }
    Ok(())
}

/// A listing of a path taken as given needs an existing directory.
pub fn check_directory(path_exists: bool, is_dir: bool) -> (r: Result<(), HttpError>)
    ensures
        r is Ok <==> path_exists && is_dir,
        r matches Err(e) ==> e@ == (STATUS_NOT_FOUND, "Path not found or not a directory"@),
{
    if !path_exists || !is_dir {
        return Err(
            HttpError {
                status: STATUS_NOT_FOUND,
                message: "Path not found or not a directory".to_string(),
            },
        );
    }
    Ok(())
}

/// The information of the entries that could be read, in order.
pub open spec fn spec_readable_infos<E>(infos: Seq<Result<FileInfo, E>>) -> Seq<FileInfo>
    decreases infos.len(),
{
    if infos.len() == 0 {
        Seq::empty()
    } else {
        let pre = spec_readable_infos(infos.drop_last());
        match infos.last() {
            Ok(info) => pre.push(info),
            Err(_) => pre,
        }
    }
}

/// Where the entries of `spec_readable_infos(infos)` come from, as indices into `infos`.
proof fn lemma_readable_positions<E>(infos: Seq<Result<FileInfo, E>>) -> (pos: Seq<int>)
    ensures
        pos.len() == spec_readable_infos(infos).len(),
        forall|j: int|
            0 <= j < pos.len() ==> 0 <= #[trigger] pos[j] < infos.len() && infos[pos[j]] == Ok::<
                FileInfo,
                E,
            >(spec_readable_infos(infos)[j]),
        forall|j1: int, j2: int| 0 <= j1 < j2 < pos.len() ==> #[trigger] pos[j1] < #[trigger] pos[j2],
        forall|i: int| 0 <= i < infos.len() && (#[trigger] infos[i]) is Ok ==> pos.contains(i),
    decreases infos.len(),
{
    if infos.len() == 0 {
        Seq::empty()
    } else {
        let pre = infos.drop_last();
        let p = lemma_readable_positions(pre);
        let last = infos.len() - 1;
        assert forall|j: int| 0 <= j < p.len() implies infos[p[j]] == pre[p[j]] by {}
        match infos.last() {
            Ok(info) => {
                let q = p.push(last);
                assert forall|i: int| 0 <= i < infos.len() && (#[trigger] infos[i]) is Ok implies q.contains(i) by {
                    if i < last {
                        assert(pre[i] == infos[i]);
                        assert(p.contains(i));
                        let j = choose|j: int| 0 <= j < p.len() && p[j] == i;
                        assert(q[j] == i);
                    } else {
                        assert(q[q.len() - 1] == i);
                    }
                }
                q
            },
            Err(_) => {
                assert forall|i: int| 0 <= i < infos.len() && (#[trigger] infos[i]) is Ok implies p.contains(i) by {
                    if i < last {
                        assert(pre[i] == infos[i]);
                    } else {
                        assert(infos[i] == infos.last());
                    }
                }
                p
            },
        }
    }
}

/// A listing holds exactly the entries whose information could be read, in
/// the order they came, whatever their names: there is a rising choice of
/// indices into `infos` that picks out each listed entry, and it takes in
/// every entry that was read.
pub proof fn law_listing_keeps_every_read_entry<E>(infos: Seq<Result<FileInfo, E>>)
    ensures
        exists|pos: Seq<int>|
            #![trigger pos.len()]
            {
                &&& pos.len() == spec_readable_infos(infos).len()
                &&& forall|j: int|
                    0 <= j < pos.len() ==> 0 <= #[trigger] pos[j] < infos.len() && infos[pos[j]]
                        == Ok::<FileInfo, E>(spec_readable_infos(infos)[j])
                &&& forall|j1: int, j2: int|
                    0 <= j1 < j2 < pos.len() ==> #[trigger] pos[j1] < #[trigger] pos[j2]
                &&& forall|i: int| 0 <= i < infos.len() && (#[trigger] infos[i]) is Ok ==> pos.contains(i)
            },
{
    let pos = lemma_readable_positions(infos);
    assert(pos.len() == spec_readable_infos(infos).len());
}

/// The entries of a listing: those whose information could be read, in
/// order; the others are left out.
pub fn readable_infos<E>(infos: Vec<Result<FileInfo, E>>) -> (r: Vec<FileInfo>)
    ensures
        r@ == spec_readable_infos(infos@),
{
    let ghost all = infos@;
    let mut infos = infos;
    let mut out: Vec<FileInfo> = Vec::new();
    // Reverse the items once, so that each can be moved out from the back in order.
    let mut pending: Vec<Result<FileInfo, E>> = Vec::new();
    while infos.len() > 0
        invariant
            pending@.len() + infos@.len() == all.len(),
            forall|j: int| 0 <= j < infos@.len() ==> #[trigger] infos@[j] == all[j],
            forall|j: int|
                0 <= j < pending@.len() ==> #[trigger] pending@[j] == all[all.len() - 1 - j],
        decreases infos@.len(),
    {
        let item = infos.pop().unwrap();
        pending.push(item);
    }
    while pending.len() > 0
        invariant
            pending@.len() <= all.len(),
            forall|j: int|
                0 <= j < pending@.len() ==> #[trigger] pending@[j] == all[all.len() - 1 - j],
            out@ == spec_readable_infos(all.subrange(0, all.len() - pending@.len())),
        decreases pending@.len(),
    {
        let ghost done = all.len() - pending@.len();
        let item = pending.pop().unwrap();
        assert(item == all[done]);
        let ghost next = all.subrange(0, done + 1);
        assert(next.drop_last() =~= all.subrange(0, done));
        assert(next.last() == item);
        match item {
            Ok(info) => {
                out.push(info);
            },
            Err(_) => {},
        }
    }
    assert(all.subrange(0, all.len() as int) =~= all);
    out
}

/// How a path that is to be deleted is removed; a missing path is an error.
pub fn removal_for(path_exists: bool, is_dir: bool) -> (r: Result<Removal, HttpError>)
    ensures
        !path_exists ==> (r matches Err(e) && e@ == (STATUS_NOT_FOUND, "path not exist"@)),
        path_exists ==> (r matches Ok(m) && (m == if is_dir {
            Removal::Directory
        } else {
            Removal::File
        })),
{
    if !path_exists {
        return Err(path_not_found());
    }
    Ok(removal_kind(is_dir))
}

/// A new name is refused when it holds `/` or `\`, or is `..`.
pub open spec fn is_refused_name(name: Seq<u8>) -> bool {
    ||| exists|k: int| 0 <= k < name.len() && (name[k] == SEP || name[k] == BACKSLASH)
    ||| name == seq![DOT, DOT]
}

/// Whether the new name of a rename is refused.
pub fn refused_name(name: &str) -> (r: bool)
    ensures
        r == is_refused_name(name.spec_bytes()),
{
    let b = name.as_bytes();
    let mut k: usize = 0;
    while k < b.len()
        invariant
            k <= b@.len(),
            b@ == name.spec_bytes(),
            forall|j: int| 0 <= j < k ==> b@[j] != SEP && b@[j] != BACKSLASH,
        decreases b@.len() - k,
    {
        if b[k] == SEP || b[k] == BACKSLASH {
            assert(b@[k as int] == SEP || b@[k as int] == BACKSLASH);
            return true;
        }
        k = k + 1;
    }
    if b.len() == 2 && b[0] == DOT && b[1] == DOT {
        assert(b@ =~= seq![DOT, DOT]);
        return true;
    }
    false
}

/// The answer to a rename request without a new name.
pub fn missing_new_name() -> (r: HttpError)
    ensures
        r@ == (STATUS_BAD_REQUEST, "Missing new_name parameter"@),
{
    HttpError { status: STATUS_BAD_REQUEST, message: "Missing new_name parameter".to_string() }
}

/// The answer to a rename onto a name that is already taken.
pub fn rename_conflict() -> (r: HttpError)
    ensures
        r@ == (STATUS_CONFLICT, "A file or directory with the new name already exists"@),
{
    HttpError {
        status: STATUS_CONFLICT,
        message: "A file or directory with the new name already exists".to_string(),
    }
}

/// Where a rename of `full_path` to `new_name` moves it: beside it, in its
/// parent directory.
pub open spec fn spec_rename_target(full_path: Seq<u8>, new_name: Seq<u8>) -> Result<
    Seq<u8>,
    (u16, Seq<char>),
> {
    if is_refused_name(new_name) {
        Err((STATUS_BAD_REQUEST, "Invalid new name"@))
    } else {
        match spec_get_file_parent(full_path) {
            Err(e) => Err((STATUS_NOT_FOUND, e.spec_message())),
            Ok(parent) => Ok(spec_join(vstd::utf8::encode_utf8(parent), new_name)),
        }
    }
}

pub open spec fn bytes_result(r: Result<Vec<u8>, HttpError>) -> Result<Seq<u8>, (u16, Seq<char>)> {
    match r {
        Ok(v) => Ok(v@),
        Err(e) => Err(e@),
    }
}

/// The path that `full_path` is renamed to, once the new name is checked.
pub fn rename_target(full_path: &[u8], new_name: &str) -> (r: Result<Vec<u8>, HttpError>)
    ensures
        bytes_result(r) == spec_rename_target(full_path@, new_name.spec_bytes()),
{
    if refused_name(new_name) {
        return Err(HttpError { status: STATUS_BAD_REQUEST, message: "Invalid new name".to_string() });
    }
    let parent = match get_file_parent(full_path) {
        Ok(p) => p,
        Err(e) => return Err(HttpError::from_file_error(STATUS_NOT_FOUND, e)),
    };
    Ok(join(parent.as_str().as_bytes(), new_name.as_bytes()))
}

/// A new name is refused, with 400 "Invalid new name", exactly when it holds
/// `/` or `\\` or is `..`; any other name, spaces and dots and all, renames a
/// path whose parent is text to that name joined onto the parent.
pub proof fn law_rename_refuses_only_separators(full_path: Seq<u8>, new_name: Seq<u8>)
    ensures
        (spec_rename_target(full_path, new_name) == Err::<Seq<u8>, (u16, Seq<char>)>(
            (STATUS_BAD_REQUEST, "Invalid new name"@),
        )) <==> ((exists|k: int|
            0 <= k < new_name.len() && (new_name[k] == 47u8 || new_name[k] == 92u8)) || new_name
            == seq![46u8, 46u8]),
        !(exists|k: int| 0 <= k < new_name.len() && (new_name[k] == 47u8 || new_name[k] == 92u8))
            && new_name != seq![46u8, 46u8] ==> match spec_get_file_parent(full_path) {
            Ok(parent) => spec_rename_target(full_path, new_name) == Ok::<
                Seq<u8>,
                (u16, Seq<char>),
            >(spec_join(vstd::utf8::encode_utf8(parent), new_name)),
            Err(e) => spec_rename_target(full_path, new_name) == Err::<Seq<u8>, (u16, Seq<char>)>(
                (STATUS_NOT_FOUND, e.spec_message()),
            ),
        },
{
}

/// A rename onto an accepted plain name keeps the file in its directory and
/// gives it that name.
pub proof fn law_rename_keeps_directory(full_path: Seq<u8>, new_name: Seq<u8>)
    requires
        crate::path::is_plain_name(new_name),
        spec_rename_target(full_path, new_name) is Ok,
    ensures
        spec_file_name(spec_rename_target(full_path, new_name)->Ok_0) == Some(new_name),
        spec_get_file_parent(spec_rename_target(full_path, new_name)->Ok_0)
            == spec_get_file_parent(full_path),
{
    let pb = crate::path::spec_parent(full_path)->Some_0;
    vstd::utf8::decode_utf8_encode_utf8(pb);
    crate::path::lemma_parent_shape(full_path);
    crate::path::law_join_file_name(pb, new_name);
    crate::path::law_join_parent(pb, new_name);
}

/// The parent directory and the name of the file that parts are merged into.
pub fn merge_source(full_path: &[u8]) -> (r: Result<(String, String), HttpError>)
    ensures
        match r {
            Ok((parent, name)) => spec_get_file_parent(full_path@) == Ok::<
                Seq<char>,
                FileError,
            >(parent@) && spec_get_file_name(full_path@) == Ok::<Seq<char>, FileError>(name@),
            Err(e) => match spec_get_file_parent(full_path@) {
                Err(pe) => e@ == (STATUS_NOT_FOUND, pe.spec_message()),
                Ok(_) => match spec_get_file_name(full_path@) {
                    Err(ne) => e@ == (STATUS_NOT_FOUND, ne.spec_message()),
                    Ok(_) => false,
                },
            },
        },
{
    let parent = match get_file_parent(full_path) {
        Ok(p) => p,
        Err(e) => return Err(HttpError::from_file_error(STATUS_NOT_FOUND, e)),
    };
    let name = match get_file_name(full_path) {
        Ok(n) => n,
        Err(e) => return Err(HttpError::from_file_error(STATUS_NOT_FOUND, e)),
    };
    Ok((parent, name))
}

/// The number that `candidate` carries as a part of `original`: it is
/// `original`, a `.`, then a number.
pub open spec fn spec_suffix_number(original: Seq<u8>, candidate: Seq<u8>) -> Option<u32> {
    if original.len() < candidate.len() && candidate.subrange(0, original.len() as int) == original
        && candidate[original.len() as int] == DOT {
        spec_parse_u32(candidate.subrange(original.len() as int + 1, candidate.len() as int))
    } else {
        None
    }
}

/// The part number of `candidate` as a part of the file `original`, if it is one.
pub fn is_suffix_with_number(original: &str, candidate: &str) -> (r: Option<u32>)
    ensures
        r == spec_suffix_number(original.spec_bytes(), candidate.spec_bytes()),
{
    let o = original.as_bytes();
    let c = candidate.as_bytes();
    if o.len() >= c.len() {
        return None;
    }
    if !crate::path::bytes_eq(&c[0..o.len()], o) {
        return None;
    }
    if c[o.len()] != DOT {
        return None;
    }
    parse_u32(&c[o.len() + 1..c.len()])
}

/// The name `original.N` is read back as part `N` of `original`.
pub proof fn law_part_name_round_trip(original: Seq<u8>, n: u32)
    ensures
        spec_suffix_number(original, original + seq![DOT] + decimal(n as nat)) == Some(n),
{
    let c = original + seq![DOT] + decimal(n as nat);
    law_parse_decimal(n);
    crate::number::lemma_decimal(n as nat);
    assert(c.subrange(0, original.len() as int) =~= original);
    assert(c.subrange(original.len() as int + 1, c.len() as int) =~= decimal(n as nat));
}

/// The names among the first `n` of `names` that are numbered parts of
/// `real_name`, each with its number and its index.
pub open spec fn numbered_parts(real_name: Seq<char>, names: Seq<Seq<char>>, n: int) -> Seq<
    (u32, usize),
>
    decreases n,
{
    if n <= 0 {
        Seq::empty()
    } else {
        let pre = numbered_parts(real_name, names, n - 1);
        match spec_suffix_number(
            vstd::utf8::encode_utf8(real_name),
            vstd::utf8::encode_utf8(names[n - 1]),
        ) {
            Some(k) => pre.push((k, (n - 1) as usize)),
            None => pre,
        }
    }
}

/// Every name that is `real_name`, a dot and a part number is a numbered
/// part, whatever the number; each numbered part is such a name with its
/// number, and the parts come in the order of the names.
pub proof fn law_numbered_parts_exact(real_name: Seq<char>, names: Seq<Seq<char>>, n: int)
    requires
        0 <= n <= names.len(),
        n <= usize::MAX as int + 1,
    ensures
        forall|j: int|
            0 <= j < numbered_parts(real_name, names, n).len() ==> {
                let (k, i) = #[trigger] numbered_parts(real_name, names, n)[j];
                &&& i < n
                &&& spec_suffix_number(
                    vstd::utf8::encode_utf8(real_name),
                    vstd::utf8::encode_utf8(names[i as int]),
                ) == Some(k)
            },
        forall|j1: int, j2: int|
            0 <= j1 < j2 < numbered_parts(real_name, names, n).len() ==> (#[trigger] numbered_parts(
                real_name,
                names,
                n,
            )[j1]).1 < (#[trigger] numbered_parts(real_name, names, n)[j2]).1,
        forall|i: int|
            0 <= i < n ==> match #[trigger] spec_suffix_number(
                vstd::utf8::encode_utf8(real_name),
                vstd::utf8::encode_utf8(names[i]),
            ) {
                Some(k) => numbered_parts(real_name, names, n).contains((k, i as usize)),
                None => true,
            },
        forall|i: int, k: u32|
            #![trigger names[i], decimal(k as nat)]
            0 <= i < n && vstd::utf8::encode_utf8(names[i]) == vstd::utf8::encode_utf8(real_name)
                + seq![DOT] + decimal(k as nat) ==> numbered_parts(
                real_name,
                names,
                n,
            ).contains((k, i as usize)),
    decreases n,
{
    let o = vstd::utf8::encode_utf8(real_name);
    let parts = numbered_parts(real_name, names, n);
    if n > 0 {
        law_numbered_parts_exact(real_name, names, n - 1);
        let pre = numbered_parts(real_name, names, n - 1);
        assert forall|i: int|
            0 <= i < n && #[trigger] spec_suffix_number(o, vstd::utf8::encode_utf8(names[i]))
                is Some implies parts.contains(
            (spec_suffix_number(o, vstd::utf8::encode_utf8(names[i]))->Some_0, i as usize),
        ) by {
            let k = spec_suffix_number(o, vstd::utf8::encode_utf8(names[i]))->Some_0;
            if i < n - 1 {
                assert(pre.contains((k, i as usize)));
                let j = choose|j: int| 0 <= j < pre.len() && pre[j] == (k, i as usize);
                assert(parts[j] == pre[j]);
            } else {
                assert(parts[parts.len() - 1] == (k, i as usize));
            }
        }
        assert forall|i: int, k: u32|
            #![trigger names[i], decimal(k as nat)]
            0 <= i < n && vstd::utf8::encode_utf8(names[i]) == o + seq![DOT] + decimal(k as nat)
                implies parts.contains((k, i as usize)) by {
            law_part_name_round_trip(o, k);
            assert(spec_suffix_number(o, vstd::utf8::encode_utf8(names[i])) == Some(k));
        }
    }
}

pub open spec fn texts(v: Seq<String>) -> Seq<Seq<char>> {
    v.map_values(|s: String| s@)
}

/// The names of the parts of the file `real_name` among `names` (the names
/// of the entries of its directory), ordered by part number; parts with the
/// same number keep the order they have in `names`.
pub fn merge_order(real_name: &str, names: &Vec<String>) -> (r: Vec<String>)
    ensures
        exists|order: Seq<(u32, usize)>|
            {
                &&& is_stable_sort(
                    numbered_parts(real_name@, texts(names@), names@.len() as int),
                    order,
                )
                &&& texts(r@) == order.map_values(|p: (u32, usize)| names@[p.1 as int]@)
            },
        numbered_parts(real_name@, texts(names@), names@.len() as int).len() == 0 ==> r@.len()
            == 0,
        r@.len() == numbered_parts(real_name@, texts(names@), names@.len() as int).len(),
        forall|i: int|
            0 <= i < names@.len() && #[trigger] spec_suffix_number(
                vstd::utf8::encode_utf8(real_name@),
                vstd::utf8::encode_utf8(names@[i]@),
            ) is Some ==> exists|m: int| 0 <= m < r@.len() && #[trigger] r@[m]@ == names@[i]@,
{
    let ghost nv = texts(names@);
    let mut parts: Vec<(u32, usize)> = Vec::new();
    let mut i: usize = 0;
    while i < names.len()
        invariant
            i <= names@.len(),
            nv == texts(names@),
            parts@ == numbered_parts(real_name@, nv, i as int),
            forall|j: int| 0 <= j < parts@.len() ==> #[trigger] parts@[j].1 < i,
        decreases names@.len() - i,
    {
        assert(nv[i as int] == names@[i as int]@);
        let found = is_suffix_with_number(real_name, names[i].as_str());
        match found {
            Some(k) => {
                parts.push((k, i));
            },
            None => {},
        }
        i = i + 1;
    }
    let order = stable_sort_by_key(&parts);
    proof {
        crate::order::lemma_stable_sort_members(parts@, order@);
        crate::order::lemma_stable_sort_keeps_all(parts@, order@);
        law_numbered_parts_exact(real_name@, nv, names@.len() as int);
        if parts@.len() == 0 && order@.len() > 0 {
            assert(parts@.contains(order@[0]));
        }
    }
    let mut out: Vec<String> = Vec::new();
    let mut j: usize = 0;
    while j < order.len()
        invariant
            j <= order@.len(),
            out@.len() == j,
            forall|m: int| 0 <= m < order@.len() ==> #[trigger] order@[m].1 < names@.len(),
            forall|m: int| 0 <= m < j ==> #[trigger] out@[m]@ == names@[order@[m].1 as int]@,
        decreases order@.len() - j,
    {
        let (_, idx) = order[j];
        out.push(names[idx].clone());
        j = j + 1;
    }
    assert(texts(out@) =~= order@.map_values(|p: (u32, usize)| names@[p.1 as int]@));
    assert(out@.len() == texts(out@).len());
    assert forall|i: int|
        0 <= i < names@.len() && #[trigger] spec_suffix_number(
            vstd::utf8::encode_utf8(real_name@),
            vstd::utf8::encode_utf8(names@[i]@),
        ) is Some implies exists|m: int| 0 <= m < out@.len() && #[trigger] out@[m]@
        == names@[i]@ by {
        assert(nv[i] == names@[i]@);
        let k = spec_suffix_number(
            vstd::utf8::encode_utf8(real_name@),
            vstd::utf8::encode_utf8(names@[i]@),
        )->Some_0;
        assert(spec_suffix_number(vstd::utf8::encode_utf8(real_name@), vstd::utf8::encode_utf8(nv[i]))
            == Some(k));
        assert(parts@.contains((k, i as usize)));
        let p = choose|p: int| 0 <= p < parts@.len() && parts@[p] == (k, i as usize);
        assert(order@.contains(parts@[p]));
        let m = choose|m: int| 0 <= m < order@.len() && order@[m] == parts@[p];
        assert(out@[m]@ == names@[order@[m].1 as int]@);
    }
    out
}

/// The path of a listed entry relative to the served directory, with a
/// separator in front; where the entry is not under that directory, the
/// path it was listed with.
pub open spec fn spec_relative_entry_path(
    entry: Seq<u8>,
    root_dir: Seq<u8>,
    listed: Seq<char>,
) -> Seq<char> {
    match spec_strip_prefix(entry, root_dir) {
        Some(rel) => seq!['/'] + utf8_lossy(rel),
        None => listed,
    }
}

/// The text that `bytes` give when every invalid sequence in them is
/// replaced, as `String::from_utf8_lossy` gives it.
pub uninterp spec fn utf8_lossy(bytes: Seq<u8>) -> Seq<char>;

/// Calls `String::from_utf8_lossy`.  Its result is named by `utf8_lossy`;
/// where the bytes are valid UTF-8 it is the text they encode.
#[verifier::external_body]
fn lossy_text(bytes: &[u8]) -> (r: String)
    ensures
        r@ == utf8_lossy(bytes@),
        valid_utf8(bytes@) ==> r@ == decode_utf8(bytes@),
{
    String::from_utf8_lossy(bytes).into_owned()
}

/// The path to show for a listed entry.
pub fn relative_entry_path(entry: &[u8], root_dir: &str, listed: String) -> (r: String)
    ensures
        r@ == spec_relative_entry_path(entry@, root_dir.spec_bytes(), listed@),
        match spec_strip_prefix(entry@, root_dir.spec_bytes()) {
            Some(rel) => valid_utf8(rel) ==> r@ == seq!['/'] + decode_utf8(rel),
            None => r@ == listed@,
        },
{
    match strip_prefix(entry, root_dir.as_bytes()) {
        Some(rel) => {
            let mut r = "/".to_string();
            proof {
                reveal_strlit("/");
            }
            let t = lossy_text(rel.as_slice());
            r.append(t.as_str());
            r
        },
        None => listed,
    }
}

} // verus!
