use terminox::sftp::{sort_by_lowered, upload_step, DownloadAction, DownloadWalk, UploadAction};
use terminox::sftp::{
    check_content_size, child_relative_path, decode_editable, is_dot_entry, join_remote,
    listing_response, metadata_modified_unix, normalize_path, required_path, required_paths,
    to_remote_separators, upload_target, RawDirEntry, RemoteAttrs, SftpEntry, SftpReadFileResponse,
    SftpRequestError, SftpWriteFileResponse, MAX_EDITABLE_FILE_BYTES,
};

fn attrs(mode: Option<u32>) -> RemoteAttrs {
    RemoteAttrs { size: Some(42), permissions: mode, atime: Some(7), mtime: Some(9) }
}

#[test]
fn join_remote_cases() {
    assert_eq!(join_remote("/", "etc"), "/etc");
    assert_eq!(join_remote("/home/u", "a.txt"), "/home/u/a.txt");
    assert_eq!(join_remote("/home/u///", "a.txt"), "/home/u/a.txt");
    assert_eq!(join_remote("//", "x"), "/x");
    assert_eq!(join_remote("", "x"), "/x");
    assert_eq!(join_remote(".", "x"), "./x");
}

#[test]
fn normalize_path_cases() {
    assert_eq!(normalize_path(None), ".");
    assert_eq!(normalize_path(Some("   ".to_string())), ".");
    assert_eq!(normalize_path(Some("  /var/log \n".to_string())), "/var/log");
}

#[test]
fn entry_from_listing() {
    let e = SftpEntry::from_listing("/srv", "run.sh".to_string(), &attrs(Some(0o100755)));
    assert_eq!(e.path, "/srv/run.sh");
    assert!(!e.is_dir && !e.is_symlink);
    assert_eq!(e.chmod, "rwxr-xr-x");
    assert_eq!(e.size, 42);
    assert_eq!(e.created_unix, Some(7));
    assert_eq!(e.modified_unix, Some(9));
    let d = SftpEntry::from_listing("/", "srv".to_string(), &attrs(Some(0o40700)));
    assert!(d.is_dir);
    assert_eq!(d.chmod, "rwx------");
    let l = SftpEntry::from_listing("/", "ln".to_string(), &RemoteAttrs { size: None, permissions: Some(0o120777), atime: None, mtime: None });
    assert!(l.is_symlink && !l.is_dir);
    assert_eq!(l.size, 0);
    assert_eq!(l.modified_unix, None);
    let n = SftpEntry::from_listing("/", "n".to_string(), &attrs(None));
    assert_eq!(n.chmod, "---------");
    assert!(!n.is_dir);
}

#[test]
fn listing_puts_directories_first_case_insensitively_and_stably() {
    let raw = vec![
        RawDirEntry { name: "b.txt".into(), attrs: attrs(Some(0o100644)) },
        RawDirEntry { name: "Zeta".into(), attrs: attrs(Some(0o40755)) },
        RawDirEntry { name: "A.txt".into(), attrs: attrs(Some(0o100644)) },
        RawDirEntry { name: "alpha".into(), attrs: attrs(Some(0o40755)) },
        RawDirEntry { name: "a.TXT".into(), attrs: attrs(Some(0o100600)) },
    ];
    let r = listing_response("/d".to_string(), raw);
    assert_eq!(r.path, "/d");
    let names: Vec<&str> = r.entries.iter().map(|e| e.name.as_str()).collect();
    assert_eq!(names, vec!["alpha", "Zeta", "A.txt", "a.TXT", "b.txt"]);
    assert_eq!(r.entries[3].chmod, "rw-------");
}

#[test]
fn file_responses() {
    let r = SftpReadFileResponse::new("/f".into(), &attrs(Some(0o644)), "hi".into());
    assert_eq!((r.size, r.modified_unix, r.chmod.as_str(), r.content.as_str()), (42, Some(9), "rw-r--r--", "hi"));
    let w = SftpWriteFileResponse::new("/f".into(), &attrs(None));
    assert_eq!((w.path.as_str(), w.size, w.chmod.as_str()), ("/f", 42, "---------"));
    assert_eq!(metadata_modified_unix(&attrs(None)), Some(9));
}

#[test]
fn request_validation() {
    assert_eq!(required_path("  ", SftpRequestError::PathRequired), Err(SftpRequestError::PathRequired));
    assert_eq!(required_path(" /a ", SftpRequestError::PathRequired), Ok("/a".to_string()));
    assert_eq!(required_paths("a", " ", SftpRequestError::BothPathsRequired), Err(SftpRequestError::BothPathsRequired));
    assert_eq!(required_paths(" a", "b ", SftpRequestError::BothPathsRequired), Ok(("a".to_string(), "b".to_string())));
    assert_eq!(check_content_size(MAX_EDITABLE_FILE_BYTES), Ok(()));
    assert_eq!(
        check_content_size(MAX_EDITABLE_FILE_BYTES + 1),
        Err(SftpRequestError::ContentTooLarge { size: MAX_EDITABLE_FILE_BYTES + 1 })
    );
}

#[test]
fn decoding_editable_files() {
    assert_eq!(decode_editable("héllo".as_bytes().to_vec()), Ok("héllo".to_string()));
    assert_eq!(decode_editable(vec![0xff, 0xfe]), Err(SftpRequestError::NotUtf8));
    let big = vec![b'a'; MAX_EDITABLE_FILE_BYTES + 1];
    assert_eq!(decode_editable(big), Err(SftpRequestError::FileTooLarge { size: MAX_EDITABLE_FILE_BYTES + 1 }));
}

#[test]
fn transfer_paths() {
    assert!(is_dot_entry(".") && is_dot_entry(".."));
    assert!(!is_dot_entry("...") && !is_dot_entry(".git"));
    assert_eq!(child_relative_path("", "a"), "a");
    assert_eq!(child_relative_path("x/y", "a"), "x/y/a");
    assert_eq!(to_remote_separators("a\\b\\c"), "a/b/c");
    assert_eq!(upload_target("/up", "sub\\f.txt"), "/up/sub/f.txt");
    assert_eq!(upload_target("/", "f"), "/f");
}

#[test]
fn each_missing_path_error_is_returned() {
    for e in [
        SftpRequestError::LocalPathRequired,
        SftpRequestError::RemotePathRequired,
        SftpRequestError::FilePathRequired,
        SftpRequestError::PathRequired,
        SftpRequestError::FolderPathRequired,
    ] {
        assert_eq!(required_path("\t", e), Err(e));
    }
    for e in [SftpRequestError::BothPathsRequired, SftpRequestError::SymlinkPathsRequired] {
        assert_eq!(required_paths("", "x", e), Err(e));
        assert_eq!(required_paths("x", "\u{3000}", e), Err(e));
    }
}

#[test]
fn remote_attrs_is_dir() {
    assert!(attrs(Some(0o40755)).is_dir());
    assert!(!attrs(Some(0o100755)).is_dir());
    assert!(!attrs(Some(0o120777)).is_dir());
    assert!(!attrs(None).is_dir());
}

#[test]
fn sort_uses_the_given_lowered_names() {
    let e = |n: &str| SftpEntry::from_listing("/", n.to_string(), &attrs(Some(0o100644)));
    let r = sort_by_lowered(vec![e("a"), e("b"), e("c")], vec!["z".into(), "y".into(), "y".into()]);
    let names: Vec<&str> = r.iter().map(|x| x.name.as_str()).collect();
    assert_eq!(names, vec!["b", "c", "a"]);
}

#[test]
fn download_walk_steps() {
    let mut w = DownloadWalk::start("/data".to_string());
    let (dir, rel) = w.next_dir().unwrap();
    assert_eq!((dir.as_str(), rel.as_str()), ("/data", ""));
    assert!(w.next_dir().is_none());
    assert!(matches!(w.visit("", "..", &attrs(Some(0o40755)), "/"), DownloadAction::Skip));
    match w.visit("", "sub", &attrs(Some(0o40755)), "\\") {
        DownloadAction::Descend { local_rel } => assert_eq!(local_rel, "sub"),
        other => panic!("{:?}", other),
    }
    match w.visit("sub", "f.txt", &attrs(Some(0o100644)), "\\") {
        DownloadAction::Fetch { remote_path, local_rel } => {
            assert_eq!(remote_path, "/data/sub/f.txt");
            assert_eq!(local_rel, "sub\\f.txt");
        }
        other => panic!("{:?}", other),
    }
    let (dir, rel) = w.next_dir().unwrap();
    assert_eq!((dir.as_str(), rel.as_str()), ("/data/sub", "sub"));
    assert!(w.next_dir().is_none());
}

#[test]
fn upload_steps() {
    assert!(matches!(upload_step("/r", "a\\b", true, false), UploadAction::CreateAndDescend { remote_path } if remote_path == "/r/a/b"));
    assert!(matches!(upload_step("/r", "f", false, true), UploadAction::Upload { remote_path } if remote_path == "/r/f"));
    assert!(matches!(upload_step("/r", "p", false, false), UploadAction::Skip));
}
