use file_service::http::{
    absolute_request_path, check_directory, check_listable, content_disposition,
    finished_answer, is_suffix_with_number, merge_order, merge_source, missing_new_name,
    readable_infos, refused_name, relative_entry_path, removal_for, removal_kind,
    rename_conflict, rename_target, resolve_request_path, upload_conflict, upload_target,
    AppState, Finished, Removal, STATUS_BAD_REQUEST, STATUS_CONFLICT, STATUS_CREATED,
    STATUS_NOT_FOUND, STATUS_OK,
};
use file_service::file::FileInfo;

#[test]
fn requests_resolve_under_the_root() {
    assert_eq!(resolve_request_path("/srv", "a/b"), b"/srv/a/b".to_vec());
    assert_eq!(resolve_request_path("/srv", "/a/b"), b"/srv/a/b".to_vec());
    assert_eq!(resolve_request_path("/srv", "///etc/passwd"), b"/srv/etc/passwd".to_vec());
    assert_eq!(resolve_request_path("/srv/", "x"), b"/srv/x".to_vec());
    assert_eq!(resolve_request_path("/srv", ""), b"/srv/".to_vec());
    for req in ["/", "//x", "a", "/../y"] {
        assert!(resolve_request_path("/root/dir", req).starts_with(b"/root/dir"));
    }
}

#[test]
fn absolute_request_paths() {
    assert_eq!(absolute_request_path("tmp"), "/tmp");
    assert_eq!(absolute_request_path("/tmp"), "/tmp");
    assert_eq!(absolute_request_path(""), "/");
}

#[test]
fn content_disposition_names() {
    assert_eq!(content_disposition(b"/srv/a.txt"), "attachment; filename=\"a.txt\"");
    assert_eq!(content_disposition(b"/"), "attachment; filename=\"unknown\"");
    assert_eq!(content_disposition(&[b'/', 0xff]), "attachment; filename=\"unknown\"");
}

#[test]
fn upload_targets() {
    assert_eq!(upload_target(b"/srv/up", Some("f.bin")), b"/srv/up/f.bin".to_vec());
    assert_eq!(upload_target(b"/srv/up", None), b"/srv/up/unknown".to_vec());
    let e = upload_conflict();
    assert_eq!((e.status, e.message.as_str()), (STATUS_CONFLICT, "File already exists"));
}

#[test]
fn listing_and_removal_checks() {
    assert!(check_listable(true, true).is_ok());
    let e = check_listable(true, false).err().unwrap();
    assert_eq!((e.status, e.message.as_str()), (STATUS_NOT_FOUND, "path not exist"));
    assert!(check_listable(false, false).is_err());
    assert_eq!(removal_for(true, true).ok(), Some(Removal::Directory));
    assert_eq!(removal_for(true, false).ok(), Some(Removal::File));
    let e = removal_for(false, false).err().unwrap();
    assert_eq!((e.status, e.message.as_str()), (STATUS_NOT_FOUND, "path not exist"));
    assert_eq!(removal_kind(true), Removal::Directory);
    assert_eq!(removal_kind(false), Removal::File);
}

#[test]
fn rename_checks() {
    assert!(refused_name("a/b"));
    assert!(refused_name("a\\b"));
    assert!(refused_name(".."));
    assert!(!refused_name("..."));
    assert!(!refused_name("new.txt"));
    assert_eq!(rename_target(b"/srv/d/old.txt", "new.txt").ok(), Some(b"/srv/d/new.txt".to_vec()));
    let e = rename_target(b"/srv/d/old.txt", "../x").err().unwrap();
    assert_eq!((e.status, e.message.as_str()), (STATUS_BAD_REQUEST, "Invalid new name"));
    let e = rename_target(b"/", "x").err().unwrap();
    assert_eq!((e.status, e.message.as_str()), (STATUS_NOT_FOUND, "file name is incorrect"));
    let e = missing_new_name();
    assert_eq!((e.status, e.message.as_str()), (STATUS_BAD_REQUEST, "Missing new_name parameter"));
    let e = rename_conflict();
    assert_eq!(
        (e.status, e.message.as_str()),
        (STATUS_CONFLICT, "A file or directory with the new name already exists")
    );
}

#[test]
fn suffix_numbers() {
    assert_eq!(is_suffix_with_number("f.txt", "f.txt.3"), Some(3));
    assert_eq!(is_suffix_with_number("f.txt", "f.txt.0012"), Some(12));
    assert_eq!(is_suffix_with_number("f.txt", "f.txt.+7"), Some(7));
    assert_eq!(is_suffix_with_number("f.txt", "f.txt.4294967295"), Some(u32::MAX));
    assert_eq!(is_suffix_with_number("f.txt", "f.txt.4294967296"), None);
    assert_eq!(is_suffix_with_number("f.txt", "f.txt.-1"), None);
    assert_eq!(is_suffix_with_number("f.txt", "f.txt."), None);
    assert_eq!(is_suffix_with_number("f.txt", "f.txt.+"), None);
    assert_eq!(is_suffix_with_number("f.txt", "f.txt"), None);
    assert_eq!(is_suffix_with_number("f.txt", "f.txt_1"), None);
    assert_eq!(is_suffix_with_number("f.txt", "g.txt.1"), None);
    assert_eq!(is_suffix_with_number("f.txt", "f.txt.1a"), None);
    for n in [0u32, 1, 9, 10, 99, 12345, u32::MAX] {
        let name = format!("data.bin.{}", n);
        assert_eq!(is_suffix_with_number("data.bin", &name), Some(n));
    }
}

#[test]
fn merge_order_sorts_parts_stably() {
    let names: Vec<String> = ["f.10", "other", "f.2", "f", "f.+2", "f.1", "f.x", "f.02"]
        .iter()
        .map(|s| s.to_string())
        .collect();
    assert_eq!(merge_order("f", &names), vec!["f.1", "f.2", "f.+2", "f.02", "f.10"]);
    assert!(merge_order("g", &names).is_empty());
}

#[test]
fn merge_sources() {
    assert_eq!(merge_source(b"/srv/d/f.bin").ok(), Some(("/srv/d".to_string(), "f.bin".to_string())));
    let e = merge_source(b"/").err().unwrap();
    assert_eq!((e.status, e.message.as_str()), (STATUS_NOT_FOUND, "file name is incorrect"));
    let e = merge_source(b"/srv/..").err().unwrap();
    assert_eq!((e.status, e.message.as_str()), (STATUS_NOT_FOUND, "file name is incorrect"));
}

#[test]
fn relative_entry_paths() {
    assert_eq!(relative_entry_path(b"/srv/d/a.txt", "/srv", "/srv/d/a.txt".to_string()), "/d/a.txt");
    assert_eq!(relative_entry_path(b"/srv/d/a.txt", "/srv/", "x".to_string()), "/d/a.txt");
    assert_eq!(relative_entry_path(b"/other/a.txt", "/srv", "/other/a.txt".to_string()), "/other/a.txt");
    assert_eq!(relative_entry_path(&[b'/', b's', b'/', 0xff], "/s", "x".to_string()), "/\u{fffd}");
}

#[test]
fn app_state_clones() {
    let s = AppState { root_dir: "/srv".to_string() };
    assert_eq!(s.clone().root_dir, "/srv");
}

#[test]
fn rename_keeps_the_directory() {
    for full in ["/srv/d/old.txt", "/old.txt", "old.txt", "./old.txt", "/srv/d/old/"] {
        let target = rename_target(full.as_bytes(), "new.txt").ok().unwrap();
        assert_eq!(
            file_service::file::get_file_parent(&target),
            file_service::file::get_file_parent(full.as_bytes())
        );
        assert_eq!(file_service::file::get_file_name(&target), Ok("new.txt".to_string()));
    }
}

#[test]
fn merge_order_is_the_same_for_the_same_names() {
    let names: Vec<String> = ["a.3", "a.1", "a.2", "a.1"].iter().map(|s| s.to_string()).collect();
    assert_eq!(merge_order("a", &names), merge_order("a", &names));
    assert_eq!(merge_order("a", &names), vec!["a.1", "a.1", "a.2", "a.3"]);
}

#[test]
fn resolved_requests_are_under_the_root_component_by_component() {
    for root in ["/srv", "/srv/", "srv", ".", "./data", "/", ""] {
        for req in ["/etc/passwd", "//etc/passwd", "a/b", "", "/"] {
            let full = resolve_request_path(root, req);
            assert!(
                file_service::path::strip_prefix(&full, root.as_bytes()).is_some(),
                "{:?} under {:?}",
                req,
                root
            );
            let full_text = String::from_utf8(full).unwrap();
            assert!(std::path::Path::new(&full_text).starts_with(root));
        }
    }
    assert_eq!(resolve_request_path("/srv", "/etc/passwd"), b"/srv/etc/passwd".to_vec());
}

#[test]
fn relative_entry_path_of_text_is_that_text() {
    assert_eq!(relative_entry_path("/srv/é/x".as_bytes(), "/srv", "z".to_string()), "/é/x");
}

#[test]
fn merge_without_parts_merges_nothing() {
    let names = vec!["f".to_string(), "g.1".to_string(), "f1".to_string(), "f.x".to_string()];
    assert!(merge_order("f", &names).is_empty());
    assert!(merge_order("f", &Vec::new()).is_empty());
}

#[test]
fn listing_a_path_as_given_needs_a_directory() {
    assert!(check_directory(true, true).is_ok());
    for (exists, is_dir) in [(false, false), (true, false), (false, true)] {
        let e = check_directory(exists, is_dir).err().unwrap();
        assert_eq!(e.status, STATUS_NOT_FOUND);
        assert_eq!(e.message, "Path not found or not a directory");
    }
}

#[test]
fn unreadable_entries_are_left_out_of_a_listing() {
    let a = FileInfo::new::<()>(b"/d/a", false, Ok(3)).ok().unwrap();
    let b = FileInfo::new::<()>(b"/d/b", true, Ok(0)).ok().unwrap();
    let out = readable_infos(vec![Ok(a), Err("gone"), Ok(b), Err("denied")]);
    let paths: Vec<&str> = out.iter().map(|i| i.path.as_str()).collect();
    assert_eq!(paths, vec!["/d/a", "/d/b"]);
    assert_eq!(out[0].size, 3);
    assert!(out[1].is_dir);
    assert!(readable_infos::<()>(vec![Err(()), Err(())]).is_empty());
}

#[test]
fn finished_requests_are_answered() {
    let up = finished_answer(Finished::Upload);
    assert_eq!((up.status, up.body.as_str()), (STATUS_CREATED, "File uploaded successfully."));
    let del = finished_answer(Finished::Delete);
    assert_eq!((del.status, del.body.as_str()), (STATUS_OK, "delete finished"));
    let ren = finished_answer(Finished::Rename);
    assert_eq!((ren.status, ren.body.as_str()), (STATUS_OK, "rename finished"));
    let mer = finished_answer(Finished::Merge);
    assert_eq!((mer.status, mer.body.as_str()), (STATUS_OK, "Merge finished"));
}
