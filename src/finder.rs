//! Traversal and filtering engine.
//!
//! [`Finder`] wires the options, the thread-count policy and the filter
//! pipeline together; the walkers in [`sequential`] and [`pool`] decide what
//! a traversal reports.
use vstd::prelude::*;

pub mod entry;
pub mod filter;
pub mod options;
pub mod thread_pool;
pub mod walker;
pub mod walk_log;
pub mod sequential;
pub mod pool;
pub mod laws;

pub use thread_pool::{AdaptiveThreadPool, ThreadPoolConfig, ThreadSizer};
pub use self::filter::FileFilter;
pub use self::options::FindOptions;

use self::entry::{Entry, EntryKind};
use self::filter::{Filter, matches_all, pipeline_accepts};
use self::pool::WorkPool;
use self::sequential::SequentialWalk;
use self::thread_pool::spec_thread_count;
use self::walker::{PendingDir, reversed};

verus! {

/// The number of directories among `entries`.
pub open spec fn directory_count(entries: Seq<Entry>) -> nat
    decreases entries.len(),
{
    if entries.len() == 0 {
        0
    } else {
        directory_count(entries.drop_last()) + if entries.last().kind == EntryKind::Directory { 1nat } else { 0nat }
    }
}

/// The number of directories among `entries`: the estimate that sizes a
/// parallel walk.
pub fn count_directories(entries: &[Entry]) -> (r: usize)
    ensures
        r as nat == directory_count(entries@),
{
    let mut count: usize = 0;
    let mut i: usize = 0;
    while i < entries.len()
        invariant
            i <= entries@.len(),
            count as nat == directory_count(entries@.take(i as int)),
            count <= i,
        decreases entries@.len() - i,
    {
        assert(entries@.take(i + 1).drop_last() =~= entries@.take(i as int));
        if entries[i].kind == EntryKind::Directory {
            count = count + 1;
        }
        i = i + 1;
    }
    assert(entries@.take(entries@.len() as int) =~= entries@);
    count
}

/// The file finder: options, a thread-count policy sized from them, and a
/// pipeline of filters that every reported entry must pass.
pub struct Finder {
    options: FindOptions,
    thread_pool: AdaptiveThreadPool,
    filters: Vec<Filter>,
}

impl Finder {
    /// The finder's options.
    pub closed spec fn spec_options(&self) -> FindOptions {
        self.options
    }

    /// The finder's thread-count policy.
    pub closed spec fn spec_thread_pool(&self) -> AdaptiveThreadPool {
        self.thread_pool
    }

    /// The finder's filters, in order.
    pub closed spec fn spec_filters(&self) -> Seq<Filter> {
        self.filters@
    }

    /// A finder with `options`, no filter, and a thread-count policy
    /// configured from the options.
    pub fn new(options: FindOptions) -> (r: Self)
        ensures
            r.spec_options() == options,
            r.spec_thread_pool().spec_config() == options.spec_thread_config(),
            r.spec_thread_pool().spec_thread_count() == options.min_threads,
            r.spec_filters().len() == 0,
    {
        let config = options.thread_config();
        Finder { options, thread_pool: AdaptiveThreadPool::new(config), filters: Vec::new() }
    }

    /// Adds `filter` to the pipeline.
    pub fn with_filter(self, filter: Filter) -> (r: Self)
        ensures
            r.spec_options() == self.spec_options(),
            r.spec_thread_pool() == self.spec_thread_pool(),
            r.spec_filters() == self.spec_filters().push(filter),
    {
        let mut filters = self.filters;
        filters.push(filter);
        Finder { options: self.options, thread_pool: self.thread_pool, filters }
    }

    /// The finder's options.
    pub fn options(&self) -> (r: &FindOptions)
        ensures
            *r == self.spec_options(),
    {
        &self.options
    }

    /// The finder's filters, in order.
    pub fn filters(&self) -> (r: &Vec<Filter>)
        ensures
            r@ == self.spec_filters(),
    {
        &self.filters
    }

    /// A sequential walk from `root` under the finder's options.
    pub fn sequential_walk(&self, root: PendingDir) -> (r: SequentialWalk)
        requires
            root.depth == 0,
        ensures
            r.wf(),
            r.spec_options() == self.spec_options(),
            r.spec_root() == root@,
            r.spec_awaiting() == Some(root@),
            r.spec_results().len() == 0,
    {
        SequentialWalk::new(root, self.options)
    }

    /// A parallel walk's work pool from `root` under the finder's options.
    pub fn work_pool(&self, root: PendingDir) -> (r: WorkPool)
        requires
            root.depth == 0,
        ensures
            r.wf(),
            r.spec_options() == self.spec_options(),
            r.spec_root() == root@,
            r.spec_results().len() == 0,
            !r.is_aborted(),
    {
        WorkPool::new(root, self.options)
    }

    /// The number of worker threads for a tree of `directory_count`
    /// directories, recorded in the thread-count policy.
    pub fn plan_threads(&mut self, directory_count: usize) -> (r: usize)
        ensures
            exists|cpus: nat| cpus >= 1 && r as nat == #[trigger] spec_thread_count(
                directory_count as nat,
                old(self).spec_thread_pool().spec_config(),
                cpus,
            ),
            final(self).spec_options() == old(self).spec_options(),
            final(self).spec_filters() == old(self).spec_filters(),
            final(self).spec_thread_pool().spec_thread_count() == r,
            final(self).spec_thread_pool().spec_config() == old(self).spec_thread_pool().spec_config(),
    {
        let ghost config = self.thread_pool.spec_config();
        self.thread_pool.update_directory_count(directory_count);
        let ghost before = self.thread_pool;
        assert(before.spec_config() == config);
        let n = self.thread_pool.adjust_thread_count();
        proof {
            let cpus = choose|cpus: nat| cpus >= 1 && n as nat == #[trigger] spec_thread_count(
                before.spec_directory_count() as nat,
                before.spec_config(),
                cpus,
            );
            assert(spec_thread_count(directory_count as nat, config, cpus) == n as nat);
            assert(config == old(self).spec_thread_pool().spec_config());
            assert(cpus >= 1 && n as nat == spec_thread_count(directory_count as nat, old(self).spec_thread_pool().spec_config(), cpus));
        }
        n
    }

    /// Whether every filter keeps `entry`.
    pub fn keeps(&self, entry: &Entry) -> (r: bool)
        ensures
            r == pipeline_accepts(self.spec_filters(), *entry),
    {
        matches_all(self.filters.as_slice(), entry)
    }

    /// The entries of `entries` that every filter keeps, in order.
    pub fn select(&self, entries: Vec<Entry>) -> (r: Vec<Entry>)
        ensures
            r@ == entries@.filter(|e: Entry| pipeline_accepts(self.spec_filters(), e)),
    {
        let ghost pred = |e: Entry| pipeline_accepts(self.spec_filters(), e);
        let ghost original = entries@;
        let mut rest = reversed(entries);
        let mut kept: Vec<Entry> = Vec::new();
        let ghost mut i: int = 0;
        assert(original.take(0) =~= Seq::<Entry>::empty());
        proof {
            reveal(Seq::filter);
        }
        while rest.len() > 0
            invariant
                0 <= i <= original.len(),
                rest@.len() + i == original.len(),
                forall|j: int| 0 <= j < rest@.len() ==> #[trigger] rest@[j] == original[original.len() - 1 - j],
                kept@ == original.take(i).filter(pred),
                pred == (|e: Entry| pipeline_accepts(self.spec_filters(), e)),
            decreases rest@.len(),
        {
            let e = rest.pop().unwrap();
            assert(e == original[i]);
            proof {
                original.take(i).lemma_filter_push(e, pred);
                assert(original.take(i + 1) =~= original.take(i).push(e));
            }
            if self.keeps(&e) {
                kept.push(e);
            }
            proof {
                i = i + 1;
            }
        }
        assert(original.take(i) =~= original);
        kept
    }
}

} // verus!
