use file_service::file::{ErrorKind, FileError};
use file_service::file::FileInfo;
use file_service::grpc::{
    batch_outcome, download_frame, download_source, exists_error, first_upload_message,
    list_entry, listing, move_target, upload_path, DownloadHeader, FileServer, FileType,
    UploadProgress,
};

fn info(path: &str, is_dir: bool, size: u64) -> FileInfo {
    FileInfo::new::<()>(path.as_bytes(), is_dir, Ok(size)).ok().unwrap()
}

#[test]
fn list_entries() {
    let e = list_entry(info("/srv/a.txt", false, 5));
    assert_eq!((e.file_type, e.size, e.file_name.as_str()), (FileType::File, 5, "/srv/a.txt"));
    let e = list_entry(info("/srv/d", true, 5));
    assert_eq!((e.file_type, e.size, e.file_name.as_str()), (FileType::Dir, 0, "/srv/d"));
}

#[test]
fn listing_skips_unreadable_entries() {
    let items: Vec<Result<FileInfo, String>> = vec![
        Ok(info("/a", false, 1)),
        Err("bad".to_string()),
        Ok(info("/b", true, 1)),
    ];
    let out = listing(items);
    let names: Vec<&str> = out.iter().map(|e| e.file_name.as_str()).collect();
    assert_eq!(names, vec!["/a", "/b"]);
    assert_eq!(out[1].file_type, FileType::Dir);
}

#[test]
fn upload_paths_and_messages() {
    assert_eq!(upload_path("/srv/in", "f.bin"), b"/srv/in/f.bin".to_vec());
    assert_eq!(upload_path("/srv/in/", "f.bin"), b"/srv/in/f.bin".to_vec());
    let (kind, message) = exists_error(b"/srv/in/f.bin");
    assert_eq!(kind, ErrorKind::AlreadyExists);
    assert_eq!(message, "file /srv/in/f.bin already exists");
    assert_eq!(first_upload_message(Some(3)), Ok(3));
    assert_eq!(first_upload_message::<u8>(None), Err(FileError::EmptyRequest));
}

#[test]
fn upload_flushes_every_hundred_writes() {
    let mut p = UploadProgress::new();
    assert_eq!(p.write_times, 1);
    let mut flushes = Vec::new();
    for _ in 0..250 {
        let a = p.after_write(10);
        assert!(!a.stop);
        if a.flush {
            flushes.push(p.write_times);
        }
    }
    assert_eq!(flushes, vec![100, 200]);
    assert!(p.after_write(0).stop);
}

#[test]
fn download_sources() {
    let (t, parent, name) = download_source("/srv/d", "f.bin").ok().unwrap();
    assert_eq!(t, b"/srv/d/f.bin".to_vec());
    assert_eq!((parent.as_str(), name.as_str()), ("/srv/d", "f.bin"));
    let (_, parent, name) = download_source("/", "f.bin").ok().unwrap();
    assert_eq!((parent.as_str(), name.as_str()), ("/", "f.bin"));
    assert_eq!(download_source("/srv", "..").err(), Some(FileError::IncorrectName));
}

#[test]
fn download_frames() {
    let header = DownloadHeader { file_name: "f".to_string(), file_path: "/d".to_string(), mode: 0o644 };
    let f = download_frame(&header, vec![1, 2, 3]).unwrap();
    assert_eq!((f.file_name.as_str(), f.file_path.as_str(), f.mode, f.content), ("f", "/d", 0o644, vec![1, 2, 3]));
    assert!(download_frame(&header, Vec::new()).is_none());
}

#[test]
fn batch_outcomes_report_the_last_failure() {
    assert_eq!(batch_outcome::<&str>(vec![Ok(()), Ok(())]), Ok(()));
    assert_eq!(batch_outcome::<&str>(vec![]), Ok(()));
    assert_eq!(batch_outcome(vec![Err("a"), Ok(()), Err("b"), Ok(())]), Err("b"));
    assert_eq!(batch_outcome(vec![Err("a"), Ok(())]), Err("a"));
}

#[test]
fn move_targets_keep_the_name() {
    assert_eq!(move_target("/srv/a/f.txt", "/srv/b").ok(), Some(b"/srv/b/f.txt".to_vec()));
    assert_eq!(move_target("/", "/srv/b").err(), Some(FileError::IncorrectName));
}

#[test]
fn server_value() {
    let s = FileServer::default();
    assert_eq!(format!("{:?}", s), "FileServer");
}
