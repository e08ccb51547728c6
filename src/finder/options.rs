//! Configuration of a traversal.
use vstd::prelude::*;
use crate::cli::Cli;
use super::thread_pool::{available_cpus, ThreadPoolConfig};

verus! {

/// Configuration of a traversal: the depth bound, symbolic-link policy,
/// hidden-entry policy, which failures are tolerated, and thread-count tuning.
/// Built once per run and only read afterwards.
#[derive(Debug, Clone, Copy)]
pub struct FindOptions {
    /// Depth of the deepest directory that is listed; `None` for no bound.
    pub max_depth: Option<usize>,
    /// Whether symbolic links to directories are descended into.
    pub follow_links: bool,
    /// Whether permission failures are skipped rather than fatal.
    pub ignore_permission_errors: bool,
    /// Whether all other failures are skipped rather than fatal.
    pub ignore_io_errors: bool,
    /// Whether entries whose name begins with a dot are left out.
    pub ignore_hidden: bool,
    /// Greatest number of worker threads.
    pub max_threads: usize,
    /// Least number of worker threads.
    pub min_threads: usize,
    /// Directories one worker is expected to handle.
    pub dirs_per_thread: usize,
    /// Whether the worker count follows the directory count.
    pub auto_adjust: bool,
}

impl FindOptions {
    /// The default options: no depth bound, links not followed, permission
    /// failures skipped, other failures fatal, hidden entries left out, one
    /// to as many threads as CPUs, ten directories per thread, adjusted
    /// automatically.
    pub fn new() -> (r: Self)
        ensures
            r.max_depth is None,
            !r.follow_links,
            r.ignore_permission_errors,
            !r.ignore_io_errors,
            r.ignore_hidden,
            r.max_threads >= 1,
            r.min_threads == 1,
            r.dirs_per_thread == 10,
            r.auto_adjust,
    {
        FindOptions {
            max_depth: None,
            follow_links: false,
            ignore_permission_errors: true,
            ignore_io_errors: false,
            ignore_hidden: true,
            max_threads: available_cpus(),
            min_threads: 1,
            dirs_per_thread: 10,
            auto_adjust: true,
        }
    }

    /// Sets the depth bound.
    pub fn with_max_depth(self, max_depth: Option<usize>) -> (r: Self)
        ensures
            r == (FindOptions { max_depth, ..self }),
    {
        FindOptions { max_depth, ..self }
    }

    /// Sets whether symbolic links are followed.
    pub fn with_follow_links(self, follow_links: bool) -> (r: Self)
        ensures
            r == (FindOptions { follow_links, ..self }),
    {
        FindOptions { follow_links, ..self }
    }

    /// Sets whether permission failures are skipped.
    pub fn with_ignore_permission_errors(self, ignore: bool) -> (r: Self)
        ensures
            r == (FindOptions { ignore_permission_errors: ignore, ..self }),
    {
        FindOptions { ignore_permission_errors: ignore, ..self }
    }

    /// Sets whether other input/output failures are skipped.
    pub fn with_ignore_io_errors(self, ignore: bool) -> (r: Self)
        ensures
            r == (FindOptions { ignore_io_errors: ignore, ..self }),
    {
        FindOptions { ignore_io_errors: ignore, ..self }
    }

    /// Sets whether hidden entries are left out.
    pub fn with_ignore_hidden(self, ignore: bool) -> (r: Self)
        ensures
            r == (FindOptions { ignore_hidden: ignore, ..self }),
    {
        FindOptions { ignore_hidden: ignore, ..self }
    }

    /// Sets the greatest number of worker threads.
    pub fn with_max_threads(self, max: usize) -> (r: Self)
        ensures
            r == (FindOptions { max_threads: max, ..self }),
    {
        FindOptions { max_threads: max, ..self }
    }

    /// Sets the least number of worker threads.
    pub fn with_min_threads(self, min: usize) -> (r: Self)
        ensures
            r == (FindOptions { min_threads: min, ..self }),
    {
        FindOptions { min_threads: min, ..self }
    }

    /// Sets the number of directories one worker is expected to handle.
    pub fn with_dirs_per_thread(self, count: usize) -> (r: Self)
        ensures
            r == (FindOptions { dirs_per_thread: count, ..self }),
    {
        FindOptions { dirs_per_thread: count, ..self }
    }

    /// Sets whether the worker count follows the directory count.
    pub fn with_auto_adjust(self, adjust: bool) -> (r: Self)
        ensures
            r == (FindOptions { auto_adjust: adjust, ..self }),
    {
        FindOptions { auto_adjust: adjust, ..self }
    }

    /// The options that command-line arguments ask for; an absent thread
    /// maximum is the CPU count.
    pub fn from_cli(cli: &Cli) -> (r: Self)
        ensures
            r.max_depth == cli.max_depth,
            r.follow_links == cli.follow_links,
            r.ignore_permission_errors == cli.ignore_permission_errors,
            r.ignore_io_errors == cli.ignore_io_errors,
            r.ignore_hidden == !cli.no_ignore_hidden,
            cli.max_threads is Some ==> r.max_threads == cli.max_threads->Some_0,
            cli.max_threads is None ==> r.max_threads >= 1,
            r.min_threads == (match cli.min_threads { Some(n) => n, None => 1 }),
            r.dirs_per_thread == (match cli.dirs_per_thread { Some(n) => n, None => 10 }),
            r.auto_adjust == !cli.no_auto_adjust,
    {
        let max_threads = match cli.max_threads {
            Some(n) => n,
            None => available_cpus(),
        };
        FindOptions::new()
            .with_max_depth(cli.max_depth)
            .with_follow_links(cli.follow_links)
            .with_ignore_permission_errors(cli.ignore_permission_errors)
            .with_ignore_io_errors(cli.ignore_io_errors)
            .with_ignore_hidden(!cli.no_ignore_hidden)
            .with_max_threads(max_threads)
            .with_min_threads(match cli.min_threads { Some(n) => n, None => 1 })
            .with_dirs_per_thread(match cli.dirs_per_thread { Some(n) => n, None => 10 })
            .with_auto_adjust(!cli.no_auto_adjust)
    }

    /// The thread-count policy's configuration.
    pub open spec fn spec_thread_config(&self) -> ThreadPoolConfig {
        ThreadPoolConfig {
            min_threads: self.min_threads,
            max_threads: self.max_threads,
            dirs_per_thread: self.dirs_per_thread,
            auto_adjust: self.auto_adjust,
        }
    }

    /// The thread-count policy's configuration.
    pub fn thread_config(&self) -> (r: ThreadPoolConfig)
        ensures
            r == self.spec_thread_config(),
    {
        ThreadPoolConfig {
            min_threads: self.min_threads,
            max_threads: self.max_threads,
            dirs_per_thread: self.dirs_per_thread,
            auto_adjust: self.auto_adjust,
        }
    }
}

impl Default for FindOptions {
    fn default() -> (r: Self)
        ensures
            r.max_depth is None,
            !r.follow_links,
            r.ignore_permission_errors,
            !r.ignore_io_errors,
            r.ignore_hidden,
            r.max_threads >= 1,
            r.min_threads == 1,
            r.dirs_per_thread == 10,
            r.auto_adjust,
    {
        FindOptions::new()
    }
}

} // verus!
