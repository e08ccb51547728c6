use rust_find::errors::FindError;
use rust_find::finder::entry::{Entry, EntryKind};
use rust_find::finder::filter::{
    FileFilter, FileType, Filter, FilterFactory, GlobPattern, MultiNameFilter, NameFilter, PathFormatFilter,
    TypeFilter, matches_all,
};

fn entry(name: &str, kind: EntryKind) -> Entry {
    Entry { path: format!("/tmp/x/{}", name), name: name.to_string(), depth: 1, kind }
}

fn file_entry(name: &str) -> Entry {
    entry(name, EntryKind::Regular)
}

#[test]
fn test_name_filter() {
    let e = file_entry("test.txt");
    let filter = NameFilter::new("*.txt").unwrap();
    assert!(filter.matches(&e));
    let filter = NameFilter::new("*.rs").unwrap();
    assert!(!filter.matches(&e));
}

#[test]
fn test_name_filter_case_insensitive() {
    let e = file_entry("Test.TXT");
    let filter = NameFilter::new("*.txt").unwrap();
    assert!(!filter.matches(&e));
    let filter = NameFilter::new_ignore_case("*.txt").unwrap();
    assert!(filter.matches(&e));
}

#[test]
fn test_multi_name_filter() {
    let e = file_entry("test.txt");
    let filter = MultiNameFilter::new(&["*.txt".to_string(), "*.rs".to_string()], false).unwrap();
    assert!(filter.matches(&e));
    let filter = MultiNameFilter::new(&["*.doc".to_string(), "*.rs".to_string()], false).unwrap();
    assert!(!filter.matches(&e));
}

#[test]
fn test_type_filter() {
    let file = file_entry("test.txt");
    let dir = entry("testdir", EntryKind::Directory);
    let file_filter = TypeFilter::new("f").unwrap();
    assert!(file_filter.matches(&file));
    assert!(!file_filter.matches(&dir));
    let dir_filter = TypeFilter::new("d").unwrap();
    assert!(!dir_filter.matches(&file));
    assert!(dir_filter.matches(&dir));
}

#[test]
fn txt_pattern_case_sensitivity() {
    let a = file_entry("a.txt");
    let b = file_entry("b.TXT");
    let sensitive = NameFilter::new("*.txt").unwrap();
    assert!(sensitive.matches(&a));
    assert!(!sensitive.matches(&b));
    let insensitive = NameFilter::new_ignore_case("*.txt").unwrap();
    assert!(insensitive.matches(&a));
    assert!(insensitive.matches(&b));
    let upper = NameFilter::new_ignore_case("*.TXT").unwrap();
    assert!(upper.matches(&a));
}

#[test]
fn glob_features_question_mark_and_classes() {
    assert!(NameFilter::new("?.rs").unwrap().matches_name("a.rs"));
    assert!(!NameFilter::new("?.rs").unwrap().matches_name("ab.rs"));
    assert!(NameFilter::new("[abc]x").unwrap().matches_name("bx"));
    assert!(!NameFilter::new("[!abc]x").unwrap().matches_name("bx"));
    let p = GlobPattern::compile("*.md").unwrap();
    assert!(p.matches("README.md"));
    assert!(!p.matches("README.txt"));
    assert!(GlobPattern::compile("[").is_err());
}

#[test]
fn invalid_pattern_is_rejected() {
    match NameFilter::new("a***") {
        Err(FindError::PatternError { message }) => assert!(message.starts_with("Invalid pattern 'a***': ")),
        _ => panic!("expected a pattern error"),
    }
    assert!(NameFilter::new_ignore_case("[").is_err());
}

#[test]
fn empty_pattern_rejected_before_matching() {
    match MultiNameFilter::new(&["*.txt".to_string(), String::new(), "[".to_string()], false) {
        Err(FindError::PatternError { message }) => assert_eq!(message, "Empty pattern is not allowed"),
        _ => panic!("expected the empty-pattern error"),
    }
}

#[test]
fn multi_filter_any_all_and_empty() {
    let e = file_entry("notes.txt");
    let all = MultiNameFilter::new(&["*.txt".to_string(), "notes*".to_string()], false).unwrap().with_any_match(false);
    assert!(all.matches(&e));
    let all = MultiNameFilter::new(&["*.txt".to_string(), "x*".to_string()], false).unwrap().with_any_match(false);
    assert!(!all.matches(&e));
    let none = MultiNameFilter::new(&[], false).unwrap();
    assert!(none.matches(&e));
    let folded = MultiNameFilter::new(&["*.TXT".to_string()], true).unwrap();
    assert!(folded.matches(&e));
    assert!(MultiNameFilter::new(&["ok".to_string(), "[".to_string()], true).is_err());
}

#[test]
fn descriptions() {
    assert_eq!(NameFilter::new("*.rs").unwrap().description(), "name matches '*.rs'");
    assert_eq!(NameFilter::new_ignore_case("*.rs").unwrap().description(), "name (ignore case) matches '*.rs'");
    let m = MultiNameFilter::new(&["*.rs".to_string(), "*.txt".to_string()], false).unwrap();
    assert_eq!(m.description(), "文件名匹配任一模式 [*.rs, *.txt]");
    assert_eq!(m.with_any_match(false).description(), "文件名匹配所有模式 [*.rs, *.txt]");
    assert_eq!(TypeFilter::new("l").unwrap().description(), "is a symbolic link");
    assert_eq!(PathFormatFilter::Absolute.description(), "output absolute paths");
    assert_eq!(PathFormatFilter::Relative.description(), "output relative paths");
}

#[test]
fn type_codes() {
    assert_eq!(TypeFilter::new("f").unwrap().file_type, FileType::File);
    assert_eq!(TypeFilter::new("l").unwrap().file_type, FileType::SymbolicLink);
    match TypeFilter::new("x") {
        Err(FindError::InvalidFileType(code)) => assert_eq!(code, "x"),
        _ => panic!("expected an invalid type code"),
    }
    assert!(TypeFilter::new("ff").is_err());
    assert!(TypeFilter::new("").is_err());
    let link = entry("l", EntryKind::Symlink);
    assert!(TypeFilter::new("l").unwrap().matches(&link));
}

#[test]
fn pipeline_keeps_only_what_all_filters_keep() {
    let filters = vec![
        Filter::Name(NameFilter::new("*.txt").unwrap()),
        Filter::Type(TypeFilter::new("f").unwrap()),
        Filter::PathFormat(PathFormatFilter::Relative),
    ];
    assert!(matches_all(&filters, &file_entry("a.txt")));
    assert!(!matches_all(&filters, &entry("d.txt", EntryKind::Directory)));
    assert!(!matches_all(&filters, &file_entry("a.rs")));
    assert!(matches_all(&[], &file_entry("a.rs")));
}

#[test]
fn factory_builds_filters() {
    let patterns = vec!["*.rs".to_string()];
    let fs = FilterFactory::create_filters(Some(&patterns), false, true, true).unwrap();
    assert_eq!(fs.len(), 2);
    assert!(matches!(fs[0], Filter::MultiName(_)));
    assert!(matches!(fs[1], Filter::PathFormat(PathFormatFilter::Absolute)));
    let fs = FilterFactory::create_filters(None, false, false, true).unwrap();
    assert_eq!(fs.len(), 1);
    assert!(matches!(fs[0], Filter::PathFormat(PathFormatFilter::Relative)));
    let empty: Vec<String> = vec![];
    assert!(FilterFactory::create_filters(Some(&empty), true, false, false).unwrap().is_empty());
    let bad = vec![String::new()];
    assert!(FilterFactory::create_filters(Some(&bad), false, false, false).is_err());
}

#[test]
fn factory_errors_are_pattern_errors() {
    let bad = vec!["[".to_string()];
    assert!(matches!(FilterFactory::create_filters(Some(&bad), false, false, false), Err(FindError::PatternError { .. })));
    let empty = vec!["".to_string()];
    match FilterFactory::create_filters(Some(&empty), true, true, false) {
        Err(FindError::PatternError { message }) => assert_eq!(message, "Empty pattern is not allowed"),
        _ => panic!("expected the empty-pattern error"),
    }
}
