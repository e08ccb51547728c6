use rust_find::cli::Cli;
use rust_find::finder::options::FindOptions;

#[test]
fn test_find_options_defaults() {
    let options = FindOptions::new();
    assert_eq!(options.max_depth, None);
    assert_eq!(options.follow_links, false);
    assert_eq!(options.ignore_permission_errors, true);
    assert_eq!(options.ignore_io_errors, false);
}

#[test]
fn test_find_options_with_max_depth() {
    let options = FindOptions::new().with_max_depth(Some(3));
    assert_eq!(options.max_depth, Some(3));
}

#[test]
fn test_find_options_with_follow_links() {
    let options = FindOptions::new().with_follow_links(true);
    assert_eq!(options.follow_links, true);
}

#[test]
fn options_defaults_for_threads_and_hidden() {
    let options = FindOptions::default();
    assert!(options.ignore_hidden);
    assert_eq!(options.min_threads, 1);
    assert_eq!(options.dirs_per_thread, 10);
    assert!(options.auto_adjust);
    assert_eq!(options.max_threads, num_cpus::get());
}

#[test]
fn options_builders_set_one_field_each() {
    let o = FindOptions::new()
        .with_ignore_permission_errors(false)
        .with_ignore_io_errors(true)
        .with_ignore_hidden(false)
        .with_max_threads(9)
        .with_min_threads(2)
        .with_dirs_per_thread(50)
        .with_auto_adjust(false);
    assert!(!o.ignore_permission_errors);
    assert!(o.ignore_io_errors);
    assert!(!o.ignore_hidden);
    assert_eq!((o.max_threads, o.min_threads, o.dirs_per_thread), (9, 2, 50));
    assert!(!o.auto_adjust);
    assert_eq!(o.max_depth, None);
    let c = o.thread_config();
    assert_eq!((c.min_threads, c.max_threads, c.dirs_per_thread, c.auto_adjust), (2, 9, 50, false));
}

#[test]
fn options_from_cli_fill_defaults() {
    let cli = Cli {
        paths: vec![".".to_string()],
        max_depth: None,
        follow_links: false,
        debug: false,
        absolute: false,
        relative: false,
        name: vec![],
        iname: vec![],
        parallel: true,
        ignore_io_errors: false,
        ignore_permission_errors: true,
        no_ignore_hidden: false,
        max_threads: None,
        min_threads: None,
        dirs_per_thread: Some(7),
        no_auto_adjust: false,
    };
    let o = FindOptions::from_cli(&cli);
    assert_eq!(o.max_threads, num_cpus::get());
    assert_eq!(o.min_threads, 1);
    assert_eq!(o.dirs_per_thread, 7);
    assert!(o.ignore_hidden);
    assert!(o.ignore_permission_errors);
}
