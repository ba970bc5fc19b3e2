use file_service::file::{
    check_readable, get_file_name, get_file_parent, next_read_action, path_to_string, ErrorKind,
    FileError, FileInfo, InfoError, ReadAction, ReadOutcome, FILE_BLOCK_1M, FLUSH_TIME,
};

#[test]
fn constants() {
    assert_eq!(FILE_BLOCK_1M, 1024 * 1024);
    assert_eq!(FLUSH_TIME, 100);
}

#[test]
fn path_to_string_of_text_and_of_other_bytes() {
    assert_eq!(path_to_string(b"/srv/a.txt"), Ok("/srv/a.txt".to_string()));
    assert_eq!(path_to_string(&[b'/', 0xff]), Err(FileError::IncorrectName));
    assert_eq!(path_to_string("/srv/é".as_bytes()), Ok("/srv/é".to_string()));
}

#[test]
fn get_file_name_cases() {
    assert_eq!(get_file_name(b"/srv/data/a.txt"), Ok("a.txt".to_string()));
    assert_eq!(get_file_name(b"/srv/data/"), Ok("data".to_string()));
    assert_eq!(get_file_name(b"/"), Err(FileError::IncorrectName));
    assert_eq!(get_file_name(b"/srv/.."), Err(FileError::IncorrectName));
    assert_eq!(get_file_name(&[b'/', b's', b'/', 0xc3]), Err(FileError::NonUtf8Name));
    // Only the name has to be text.
    assert_eq!(get_file_name(&[b'/', 0xff, b'/', b'n']), Ok("n".to_string()));
}

#[test]
fn get_file_parent_cases() {
    assert_eq!(get_file_parent(b"/srv/data/a.txt"), Ok("/srv/data".to_string()));
    assert_eq!(get_file_parent(b"a.txt"), Ok("".to_string()));
    assert_eq!(get_file_parent(b"/"), Err(FileError::IncorrectName));
    assert_eq!(get_file_parent(b""), Err(FileError::IncorrectName));
    assert_eq!(get_file_parent(&[0xff, b'/', b'n']), Err(FileError::NonUtf8Name));
}

#[test]
fn error_texts_and_kinds() {
    assert_eq!(FileError::IncorrectName.message(), "file name is incorrect");
    assert_eq!(FileError::NonUtf8Name.message(), "file name contains non-UTF-8 charactors");
    assert_eq!(FileError::IsADirectory.message(), "file if dir, cannot download");
    assert_eq!(FileError::EmptyRequest.message(), "requset is None");
    assert_eq!(FileError::IncorrectName.kind(), ErrorKind::InvalidInput);
    assert_eq!(FileError::NonUtf8Name.kind(), ErrorKind::InvalidInput);
    assert_eq!(FileError::IsADirectory.kind(), ErrorKind::IsADirectory);
    assert_eq!(FileError::EmptyRequest.kind(), ErrorKind::InvalidData);
}

#[test]
fn file_info_of_a_file() {
    let info = FileInfo::new::<String>(b"/srv/a.txt", false, Ok(42)).ok().unwrap();
    assert_eq!(info.size, 42);
    assert_eq!(info.name, "a.txt");
    assert_eq!(info.path, "/srv/a.txt");
    assert!(!info.is_dir);
}

#[test]
fn file_info_of_a_directory_has_size_zero() {
    let info = FileInfo::new::<String>(b"/srv/dir", true, Ok(4096)).ok().unwrap();
    assert_eq!(info.size, 0);
    assert_eq!(info.name, "dir");
    assert!(info.is_dir);
}

#[test]
fn file_info_errors_in_order() {
    match FileInfo::new::<String>(b"/", false, Err("gone".to_string())) {
        Err(InfoError::Path(e)) => assert_eq!(e, FileError::IncorrectName),
        _ => panic!("the name is checked first"),
    }
    match FileInfo::new::<String>(b"/srv/a", false, Err("gone".to_string())) {
        Err(InfoError::Metadata(e)) => assert_eq!(e, "gone"),
        _ => panic!("then the metadata"),
    }
    match FileInfo::new::<String>(&[0xff, b'/', b'a'], false, Ok(1)) {
        Err(InfoError::Path(e)) => assert_eq!(e, FileError::IncorrectName),
        _ => panic!("then the text of the path"),
    }
}

#[test]
fn default_file_info() {
    let info = FileInfo::default();
    assert_eq!(info.size, 0);
    assert!(info.name.is_empty() && info.path.is_empty() && !info.is_dir);
}

#[test]
fn reader_steps() {
    assert_eq!(next_read_action(ReadOutcome::Read(0)), ReadAction::Finish);
    assert_eq!(next_read_action(ReadOutcome::Read(7)), ReadAction::SendBlock);
    assert_eq!(next_read_action(ReadOutcome::Failed), ReadAction::ReportAndFinish);
    assert_eq!(check_readable(true), Err(FileError::IsADirectory));
    assert_eq!(check_readable(false), Ok(()));
}

#[test]
fn parent_and_name_rejoin() {
    for p in ["/a/b.txt", "b.txt", "a/b/", "./x", "/srv//d/./f", "/x"] {
        let d = get_file_parent(p.as_bytes()).unwrap();
        let n = get_file_name(p.as_bytes()).unwrap();
        assert_eq!(std::path::Path::new(&d).join(&n), std::path::Path::new(p), "{:?}", p);
    }
}
