use rust_find::errors::{failure_kind_of, Failure, FailureKind, FindError};
use std::io;

#[test]
fn test_filesystem_error_display() {
    let io_error = io::Error::new(io::ErrorKind::NotFound, "file not found");
    let find_error = FindError::FilesystemError {
        source: io_error.to_string(),
        path: "/test/path".to_string(),
    };
    assert_eq!(find_error.message(), "文件系统错误 /test/path: file not found");
}

#[test]
fn test_invalid_path_display() {
    let find_error = FindError::InvalidPath("/invalid/path".to_string());
    assert_eq!(find_error.message(), "无效路径: /invalid/path");
}

#[test]
fn test_other_error_display() {
    let find_error = FindError::Other { message: "出现了问题".to_string(), context: None };
    assert_eq!(find_error.message(), "错误: 出现了问题");
}

#[test]
fn test_from_io_error() {
    let io_error = io::Error::new(io::ErrorKind::Other, "test error");
    let find_error: FindError = io_error.into();
    match find_error {
        FindError::FilesystemError { source: _, path } => assert_eq!(path, String::new()),
        _ => panic!("Expected FilesystemError variant"),
    }
}

#[test]
fn io_error_classes_are_kept() {
    let e: FindError = io::Error::new(io::ErrorKind::PermissionDenied, "no").into();
    assert!(matches!(e, FindError::PermissionDenied(p) if p.is_empty()));
    let e: FindError = io::Error::new(io::ErrorKind::NotFound, "gone").into();
    assert!(matches!(e, FindError::FileNotFound(p) if p.is_empty()));
    let e = FindError::from_io_error(&io::Error::new(io::ErrorKind::Other, "broken pipe here"));
    match e {
        FindError::FilesystemError { source, path } => {
            assert_eq!(source, "broken pipe here");
            assert!(path.is_empty());
        },
        other => panic!("unexpected: {:?}", other),
    }
}

#[test]
fn other_error_with_context_display() {
    let e = FindError::Other { message: "坏了".to_string(), context: Some("读取".to_string()) };
    assert_eq!(e.message(), "错误: 坏了 (上下文: 读取)");
}

#[test]
fn every_variant_has_its_text() {
    assert_eq!(FindError::FileNotFound("/a".to_string()).message(), "文件未找到: /a");
    assert_eq!(FindError::PermissionDenied("/b".to_string()).message(), "权限不足: /b");
    assert_eq!(FindError::DirectoryUnreadable("/c".to_string()).message(), "目录不可读: /c");
    assert_eq!(FindError::SymlinkIssue("/d".to_string()).message(), "符号链接问题: /d");
    assert_eq!(FindError::PatternError { message: "x".to_string() }.message(), "模式匹配错误: x");
    assert_eq!(FindError::InvalidFileType("q".to_string()).message(), "无效的文件类型: q");
    assert_eq!(FindError::WalkDirError("loop".to_string()).message(), "目录遍历错误: loop");
}

#[test]
fn failures_map_to_errors() {
    let f = |kind| Failure { kind, path: "/p".to_string(), message: "why".to_string() };
    assert!(matches!(FindError::from_failure(&f(FailureKind::NotFound)), FindError::FileNotFound(p) if p == "/p"));
    assert!(matches!(FindError::from_failure(&f(FailureKind::PermissionDenied)), FindError::PermissionDenied(p) if p == "/p"));
    assert!(matches!(FindError::from_failure(&f(FailureKind::Filesystem)),
        FindError::FilesystemError { source, path } if source == "why" && path == "/p"));
    assert!(matches!(FindError::from_failure(&f(FailureKind::Traversal)), FindError::WalkDirError(m) if m == "why"));
}

#[test]
fn io_errors_are_classified() {
    assert_eq!(failure_kind_of(&io::Error::new(io::ErrorKind::NotFound, "x")), FailureKind::NotFound);
    assert_eq!(failure_kind_of(&io::Error::new(io::ErrorKind::PermissionDenied, "x")), FailureKind::PermissionDenied);
    assert_eq!(failure_kind_of(&io::Error::new(io::ErrorKind::TimedOut, "x")), FailureKind::Filesystem);
}
