use atlas::capture::{Capture, MAX_FILES, MAX_FILE_BYTES};
use sha2::{Digest, Sha256};

fn sha256(bytes: &[u8]) -> String {
    format!("{:x}", Sha256::digest(bytes))
}

#[test]
fn repeated_reads_use_identical_captured_bytes() {
    let mut capture = Capture::new();
    assert_eq!(capture.read("lib.rs".into(), b"first\r\n".to_vec()).unwrap(), b"first\r\n");
    // The file changed on disk; the capture keeps the bytes first read.
    assert_eq!(capture.read("lib.rs".into(), b"different\n".to_vec()).unwrap(), b"first\r\n");
    assert_eq!(capture.files()[0].sha256, sha256(b"first\r\n"));
}

#[test]
fn oversized_sources_are_not_added_to_manifest() {
    let mut capture = Capture::new();
    assert!(capture.read("large.rs".into(), vec![0; MAX_FILE_BYTES + 1]).is_err());
    assert!(capture.files().is_empty());
}

#[test]
fn captured_paths_are_sorted_and_symlink_escape_is_rejected() {
    let mut capture = Capture::new();
    capture.read("b.rs".into(), b"b".to_vec()).unwrap();
    capture.read("a.rs".into(), b"a".to_vec()).unwrap();
    assert_eq!(
        capture.files().iter().map(|file| file.path.as_str()).collect::<Vec<_>>(),
        ["a.rs", "b.rs"]
    );
}

#[test]
fn paths_order_component_by_component() {
    let mut capture = Capture::new();
    for path in ["a-b.rs", "a/z.rs", "a.rs", "ab/c.rs"] {
        capture.read(path.into(), path.as_bytes().to_vec()).unwrap();
    }
    assert_eq!(
        capture.files().iter().map(|file| file.path.as_str()).collect::<Vec<_>>(),
        ["a/z.rs", "a-b.rs", "a.rs", "ab/c.rs"]
    );
    let mut expected = ["a-b.rs", "a/z.rs", "a.rs", "ab/c.rs"].map(std::path::PathBuf::from);
    expected.sort();
    assert_eq!(
        expected.iter().map(|path| path.to_str().unwrap()).collect::<Vec<_>>(),
        ["a/z.rs", "a-b.rs", "a.rs", "ab/c.rs"]
    );
}

#[test]
fn file_and_byte_budgets_refuse_new_files_only() {
    let mut capture = Capture::new();
    for index in 0..MAX_FILES {
        capture.read(format!("f{index}.rs"), vec![]).unwrap();
    }
    assert_eq!(
        capture.read("extra.rs".into(), vec![]).err().unwrap(),
        "source file budget exceeded"
    );
    assert!(capture.read("f0.rs".into(), vec![1]).is_ok());
    let mut capture = Capture::new();
    for index in 0..16 {
        capture.read(format!("big{index:02}.rs"), vec![0; MAX_FILE_BYTES]).unwrap();
    }
    assert_eq!(
        capture.read("one-more.rs".into(), vec![0]).err().unwrap(),
        "source byte budget exceeded"
    );
    let files = capture.files();
    assert_eq!(files.len(), 16);
    assert!(files.iter().all(|file| file.byte_length as usize == MAX_FILE_BYTES));
}

#[test]
fn relative_paths_are_known_only_once_captured() {
    let mut capture = Capture::new();
    assert_eq!(capture.relative_path("lib.rs"), None);
    capture.read("lib.rs".into(), b"x".to_vec()).unwrap();
    assert_eq!(capture.relative_path("lib.rs").as_deref(), Some("lib.rs"));
    assert_eq!(capture.cached("lib.rs"), Some(b"x".to_vec()));
    assert_eq!(capture.cached("other.rs"), None);
}
