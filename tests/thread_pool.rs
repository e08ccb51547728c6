use rust_find::finder::{AdaptiveThreadPool, ThreadPoolConfig, ThreadSizer};

fn config(min: usize, max: usize, per: usize, auto: bool) -> ThreadPoolConfig {
    ThreadPoolConfig { min_threads: min, max_threads: max, dirs_per_thread: per, auto_adjust: auto }
}

#[test]
fn test_thread_pool_config_default() {
    let config = ThreadPoolConfig::default();
    assert_eq!(config.min_threads, 2);
    assert_eq!(config.max_threads, num_cpus::get());
    assert_eq!(config.dirs_per_thread, 100);
    assert!(config.auto_adjust);
}

#[test]
fn test_adaptive_thread_pool_adjust() {
    for count in [50usize, 350, 1000] {
        let config = config(2, 8, 100, true);
        let mut pool = AdaptiveThreadPool::new(config.clone());
        pool.update_directory_count(count);
        let threads = pool.adjust_thread_count();
        assert!(threads >= config.min_threads && threads <= config.max_threads,
            "Thread count should be between min and max");
    }
}

#[test]
fn test_adaptive_thread_pool_no_auto_adjust() {
    let config = config(3, 8, 100, false);
    let mut pool = AdaptiveThreadPool::new(config.clone());
    pool.update_directory_count(1000);
    assert_eq!(pool.adjust_thread_count(), 3);
}

#[test]
fn sizer_zero_directories_gives_minimum() {
    assert_eq!(ThreadSizer::size(0, &config(3, 8, 10, true), 16), 3);
    assert_eq!(ThreadSizer::size(0, &config(5, 8, 10, true), 1), 5);
}

#[test]
fn sizer_rounds_up_and_clamps() {
    let c = config(2, 8, 100, true);
    assert_eq!(ThreadSizer::size(350, &c, 16), 4);
    assert_eq!(ThreadSizer::size(301, &c, 16), 4);
    assert_eq!(ThreadSizer::size(300, &c, 16), 3);
    assert_eq!(ThreadSizer::size(50, &c, 16), 2);
    assert_eq!(ThreadSizer::size(1000, &c, 16), 8);
    assert_eq!(ThreadSizer::size(1000, &c, 4), 4);
    assert_eq!(ThreadSizer::size(1000, &config(6, 8, 100, true), 4), 6);
    assert_eq!(ThreadSizer::size(7, &config(1, 64, 0, true), 32), 32);
    assert_eq!(ThreadSizer::size(1000, &config(3, 8, 1, false), 16), 3);
}

#[test]
fn sizer_stays_within_bounds() {
    for d in [0usize, 1, 9, 10, 11, 99, 1000, usize::MAX] {
        for cpus in [1usize, 2, 4, 64] {
            let c = config(2, 12, 10, true);
            let n = ThreadSizer::size(d, &c, cpus);
            assert!(n >= c.min_threads);
            assert!(n <= c.max_threads.min(cpus.max(c.min_threads)));
        }
    }
}

#[test]
fn pool_records_counts() {
    let mut pool = AdaptiveThreadPool::new(config(2, 4, 10, true));
    assert_eq!(pool.get_thread_count(), 2);
    pool.update_directory_count(0);
    assert_eq!(pool.adjust_thread_count(), 2);
    pool.update_directory_count(10_000);
    let n = pool.adjust_thread_count();
    assert_eq!(pool.get_thread_count(), n);
    assert!(n >= 2 && n <= 4);
}
