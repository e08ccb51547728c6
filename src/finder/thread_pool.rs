//! Adaptive thread-count policy.
//!
//! The number of workers for a traversal is a pure function of the estimated
//! directory count, the configured bounds and the number of available CPUs.
use vstd::prelude::*;

verus! {

/// Relies on num_cpus::get: the number of CPUs available to this process,
/// which its documentation promises is at least one.
#[verifier::external_body]
pub(crate) fn available_cpus() -> (r: usize)
    ensures
        r >= 1,
{
    num_cpus::get()
}

/// Bounds and tuning of the thread-count policy.
#[derive(Debug, Clone, Copy)]
pub struct ThreadPoolConfig {
    /// Least number of threads.
    pub min_threads: usize,
    /// Greatest number of threads.
    pub max_threads: usize,
    /// Directories one thread is expected to handle.
    pub dirs_per_thread: usize,
    /// Whether the thread count follows the directory count.
    pub auto_adjust: bool,
}

impl Default for ThreadPoolConfig {
    fn default() -> (r: Self)
        ensures
            r.min_threads == 2,
            r.max_threads >= 1,
            r.dirs_per_thread == 100,
            r.auto_adjust,
    {
        ThreadPoolConfig {
            min_threads: 2,
            max_threads: available_cpus(),
            dirs_per_thread: 100,
            auto_adjust: true,
        }
    }
}

/// Number of threads that `directory_count` directories call for when each
/// thread takes `per_thread` of them, rounded up; without a positive
/// `per_thread` the demand is unbounded.
pub open spec fn ideal_threads(directory_count: nat, per_thread: nat) -> nat {
    if per_thread == 0 {
        usize::MAX as nat
    } else {
        directory_count / per_thread + if directory_count % per_thread == 0 { 0nat } else { 1nat }
    }
}

pub open spec fn nat_max(a: nat, b: nat) -> nat {
    if a >= b { a } else { b }
}

pub open spec fn nat_min(a: nat, b: nat) -> nat {
    if a <= b { a } else { b }
}

/// The thread count for `directory_count` directories under `config` on a
/// machine with `cpu_count` CPUs: the ideal count raised to the minimum, then
/// capped by the maximum and by the CPU count (the minimum always wins over
/// the CPU count).
pub open spec fn spec_thread_count(directory_count: nat, config: ThreadPoolConfig, cpu_count: nat) -> nat {
    let min = config.min_threads as nat;
    if !config.auto_adjust || directory_count == 0 {
        min
    } else {
        let ideal = ideal_threads(directory_count, config.dirs_per_thread as nat);
        nat_min(
            nat_min(nat_max(ideal, min), config.max_threads as nat),
            nat_max(cpu_count, min),
        )
    }
}

/// The sizing policy: maps a directory count and configuration to a thread count.
pub struct ThreadSizer;

impl ThreadSizer {
    /// Thread count for `directory_count` directories under `config`, with
    /// `cpu_count` CPUs available.
    pub fn size(directory_count: usize, config: &ThreadPoolConfig, cpu_count: usize) -> (r: usize)
        ensures
            r as nat == spec_thread_count(directory_count as nat, *config, cpu_count as nat),
            directory_count == 0 ==> r == config.min_threads,
            !config.auto_adjust ==> r == config.min_threads,
            config.min_threads <= config.max_threads ==> config.min_threads <= r,
            r <= config.min_threads || r <= config.max_threads,
            r <= config.min_threads || r <= cpu_count,
            config.min_threads <= config.max_threads ==> r <= config.max_threads,
    {
        let min = config.min_threads;
        if !config.auto_adjust || directory_count == 0 {
            return min;
        }
        let per = config.dirs_per_thread;
        let ideal: usize = if per == 0 {
            usize::MAX
        } else if per == 1 {
            proof {
                assert(directory_count as nat / 1 == directory_count as nat && directory_count as nat % 1 == 0) by (nonlinear_arith);
            }
            directory_count
        } else {
            let q: usize = directory_count / per;
            proof {
                assert(q <= directory_count / 2) by (nonlinear_arith)
                    requires
                        q == directory_count / per,
                        per >= 2,
                ;
            }
            if directory_count % per == 0 {
                q
            } else {
                q + 1
            }
        };
        let raised = if ideal >= min { ideal } else { min };
        let capped = if raised <= config.max_threads { raised } else { config.max_threads };
        let cpu_cap = if cpu_count >= min { cpu_count } else { min };
        if capped <= cpu_cap { capped } else { cpu_cap }
    }
}

/// Run-scoped sizing state: the latest directory-count estimate and the
/// thread count last computed from it.
#[derive(Debug)]
pub struct AdaptiveThreadPool {
    config: ThreadPoolConfig,
    directory_count: usize,
    current_threads: usize,
}

impl AdaptiveThreadPool {
    pub closed spec fn spec_config(&self) -> ThreadPoolConfig {
        self.config
    }

    pub closed spec fn spec_directory_count(&self) -> usize {
        self.directory_count
    }

    pub closed spec fn spec_thread_count(&self) -> usize {
        self.current_threads
    }

    /// A pool that starts at the configured minimum thread count.
    pub fn new(config: ThreadPoolConfig) -> (r: Self)
        ensures
            r.spec_config() == config,
            r.spec_directory_count() == 0,
            r.spec_thread_count() == config.min_threads,
    {
        let initial_threads = config.min_threads;
        AdaptiveThreadPool { config, directory_count: 0, current_threads: initial_threads }
    }

    /// Records a new directory-count estimate.
    pub fn update_directory_count(&mut self, count: usize)
        ensures
            final(self).spec_directory_count() == count,
            final(self).spec_config() == old(self).spec_config(),
            final(self).spec_thread_count() == old(self).spec_thread_count(),
    {
        self.directory_count = count;
    }

    /// Recomputes the thread count from the recorded estimate and the CPUs
    /// available now, records it and returns it.
    pub fn adjust_thread_count(&mut self) -> (r: usize)
        ensures
            exists|cpus: nat|
                cpus >= 1 && r as nat == #[trigger] spec_thread_count(
                    old(self).spec_directory_count() as nat,
                    old(self).spec_config(),
                    cpus,
                ),
            final(self).spec_thread_count() == r,
            final(self).spec_config() == old(self).spec_config(),
            final(self).spec_directory_count() == old(self).spec_directory_count(),
    {
        let ghost dirs = self.spec_directory_count() as nat;
        let ghost config = self.spec_config();
        let cpus = available_cpus();
        let n = ThreadSizer::size(self.directory_count, &self.config, cpus);
        self.current_threads = n;
        assert(spec_thread_count(dirs, config, cpus as nat) == n as nat);
        n
    }

    /// The thread count last computed.
    pub fn get_thread_count(&self) -> (r: usize)
        ensures
            r == self.spec_thread_count(),
    {
        self.current_threads
    }
}

} // verus!
