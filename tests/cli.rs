use rust_find::cli::Cli;
use rust_find::errors::FindError;

fn base_cli() -> Cli {
    Cli {
        paths: vec![".".to_string()],
        max_depth: Some(1),
        follow_links: false,
        debug: false,
        absolute: false,
        relative: false,
        name: vec![],
        iname: vec![],
        parallel: false,
        ignore_io_errors: false,
        ignore_permission_errors: false,
        no_ignore_hidden: false,
        max_threads: None,
        min_threads: None,
        dirs_per_thread: None,
        no_auto_adjust: false,
    }
}

#[test]
fn test_cli_validation() {
    let cli = Cli { name: vec!["*.rs".to_string()], ..base_cli() };
    assert!(cli.validate().is_ok());
}

#[test]
fn test_cli_invalid_path() {
    let cli = Cli { paths: vec!["non_existent_path".to_string()], ..base_cli() };
    assert!(cli.validate().is_err());
}

#[test]
fn test_cli_invalid_pattern() {
    let cli = Cli { name: vec!["[".to_string()], ..base_cli() };
    assert!(cli.validate().is_err());
}

#[test]
fn cli_missing_path_names_it() {
    let cli = Cli { paths: vec!["non_existent_path".to_string()], ..base_cli() };
    match cli.validate() {
        Err(FindError::FileNotFound(p)) => assert_eq!(p, "non_existent_path"),
        other => panic!("unexpected: {:?}", other),
    }
}

#[test]
fn cli_zero_depth_is_rejected() {
    let cli = Cli { max_depth: Some(0), ..base_cli() };
    match cli.validate() {
        Err(FindError::Other { message, context }) => {
            assert_eq!(message, "最大深度必须大于0");
            assert!(context.is_none());
        },
        other => panic!("unexpected: {:?}", other),
    }
}

#[test]
fn cli_bad_pattern_message_names_pattern() {
    let cli = Cli { iname: vec!["a[".to_string()], ..base_cli() };
    match cli.validate() {
        Err(FindError::PatternError { message }) => assert!(message.starts_with("无效的模式 'a[': ")),
        other => panic!("unexpected: {:?}", other),
    }
}

#[test]
fn cli_pattern_choice_and_case() {
    let cli = Cli { iname: vec!["*.TXT".to_string()], ..base_cli() };
    assert!(cli.ignore_case());
    assert_eq!(cli.name_patterns(), &["*.TXT".to_string()][..]);
    let cli = Cli { name: vec!["*.rs".to_string()], iname: vec!["*.md".to_string()], ..base_cli() };
    assert_eq!(cli.name_patterns(), &["*.rs".to_string()][..]);
    let cli = base_cli();
    assert!(!cli.ignore_case());
    assert!(cli.name_patterns().is_empty());
}

#[test]
fn cli_builds_options() {
    let cli = Cli {
        max_depth: Some(4),
        follow_links: true,
        no_ignore_hidden: true,
        min_threads: Some(3),
        max_threads: Some(6),
        dirs_per_thread: None,
        no_auto_adjust: true,
        ignore_io_errors: true,
        ..base_cli()
    };
    let o = cli.build_options();
    assert_eq!(o.max_depth, Some(4));
    assert!(o.follow_links);
    assert!(!o.ignore_hidden);
    assert_eq!(o.min_threads, 3);
    assert_eq!(o.max_threads, 6);
    assert_eq!(o.dirs_per_thread, 10);
    assert!(!o.auto_adjust);
    assert!(o.ignore_io_errors);
    assert!(!o.ignore_permission_errors);
}

#[test]
fn cli_without_paths_validates() {
    let cli = Cli { paths: vec![], name: vec!["*.rs".to_string()], ..base_cli() };
    assert!(cli.validate().is_ok());
}

#[test]
fn cli_depth_checked_before_patterns() {
    let cli = Cli { max_depth: Some(0), name: vec!["[".to_string()], ..base_cli() };
    assert!(matches!(cli.validate(), Err(FindError::Other { .. })));
}
