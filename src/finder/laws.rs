//! What holds of the walkers' results.
use vstd::prelude::*;
use crate::errors::FailureView;
use super::entry::EntryView;
use super::pool::WorkPool;
use super::sequential::{SequentialWalk, entry_set};
use super::walk_log::{Listed, follows, grounded, lemma_finished_walks_agree, log_entries, reports_at, descends_at};
use super::walker::{ChildView, DirView, entry_of, is_reported};

verus! {

/// The entries reported for the children listed in `items`, read in directory `d`.
pub open spec fn listing_entries(options: super::options::FindOptions, d: DirView, items: Seq<Result<ChildView, FailureView>>) -> Set<EntryView> {
    Set::new(|e: EntryView| exists|i: int| 0 <= i < items.len() && #[trigger] items[i] is Ok
        && is_reported(options, items[i]->Ok_0.name) && e == entry_of(options, d, items[i]->Ok_0))
}

/// A sequential walk and a parallel walk that both ran to their end, from
/// the same root with the same options over the same filesystem, report
/// the same set of entries.
pub proof fn lemma_parallel_matches_sequential(
    walk: &SequentialWalk,
    pool: &WorkPool,
    fs: spec_fn(Seq<char>) -> Seq<Result<ChildView, FailureView>>,
)
    requires
        walk.wf(),
        walk.is_complete(),
        pool.wf(),
        pool.is_complete(),
        walk.spec_options() == pool.spec_options(),
        walk.spec_root() == pool.spec_root(),
        follows(walk.spec_log(), fs),
        follows(pool.spec_log(), fs),
    ensures
        entry_set(walk.spec_results()) == entry_set(pool.spec_results()),
{
    walk.lemma_complete();
    pool.lemma_complete();
    lemma_finished_walks_agree(walk.spec_options(), walk.spec_root(), fs, walk.spec_log(), pool.spec_log());
}

/// Neither walker ever reports the root: every entry it reports lies at
/// depth one or more, and at most one level below the depth bound.
pub proof fn lemma_root_never_reported(walk: &SequentialWalk, pool: &WorkPool)
    requires
        walk.wf(),
        pool.wf(),
    ensures
        forall|i: int| 0 <= i < walk.spec_results().len() ==> (#[trigger] walk.spec_results()[i]).depth >= 1,
        forall|i: int| 0 <= i < pool.spec_results().len() ==> (#[trigger] pool.spec_results()[i]).depth >= 1,
{
    walk.lemma_in_bounds();
    pool.lemma_in_bounds();
}

/// With a depth bound of zero, a finished walk reports exactly the
/// reported children of the root, all at depth one, and nothing deeper.
pub proof fn lemma_depth_zero_lists_root_only(
    walk: &SequentialWalk,
    fs: spec_fn(Seq<char>) -> Seq<Result<ChildView, FailureView>>,
)
    requires
        walk.wf(),
        walk.is_complete(),
        walk.spec_options().max_depth == Some(0usize),
        follows(walk.spec_log(), fs),
    ensures
        entry_set(walk.spec_results())
            == listing_entries(walk.spec_options(), walk.spec_root(), fs(walk.spec_root().path)),
        forall|i: int| 0 <= i < walk.spec_results().len() ==> (#[trigger] walk.spec_results()[i]).depth == 1,
{
    walk.lemma_complete();
    walk.lemma_in_bounds();
    lemma_log_of_root_only(walk.spec_options(), walk.spec_root(), fs, walk.spec_log());
}

/// The same for a parallel walk.
pub proof fn lemma_depth_zero_lists_root_only_parallel(
    pool: &WorkPool,
    fs: spec_fn(Seq<char>) -> Seq<Result<ChildView, FailureView>>,
)
    requires
        pool.wf(),
        pool.is_complete(),
        pool.spec_options().max_depth == Some(0usize),
        follows(pool.spec_log(), fs),
    ensures
        entry_set(pool.spec_results())
            == listing_entries(pool.spec_options(), pool.spec_root(), fs(pool.spec_root().path)),
        forall|i: int| 0 <= i < pool.spec_results().len() ==> (#[trigger] pool.spec_results()[i]).depth == 1,
{
    pool.lemma_complete();
    pool.lemma_in_bounds();
    lemma_log_of_root_only(pool.spec_options(), pool.spec_root(), fs, pool.spec_log());
}

/// Under a depth bound of zero a grounded log lists the root alone.
proof fn lemma_log_of_root_only(
    options: super::options::FindOptions,
    root: DirView,
    fs: spec_fn(Seq<char>) -> Seq<Result<ChildView, FailureView>>,
    log: Seq<Listed>,
)
    requires
        options.max_depth == Some(0usize),
        log.len() > 0,
        grounded(options, root, log),
        follows(log, fs),
    ensures
        log_entries(options, log) == listing_entries(options, root, fs(root.path)),
{
    assert forall|k: int| 0 <= k < log.len() implies (#[trigger] log[k]).dir == root by {
        if k > 0 {
            assert(super::walk_log::reached_before(options, root, log, k));
            if log[k].dir != root {
                let (j, i) = choose|j: int, i: int|
                    0 <= j < k && #[trigger] descends_at(options, log, j, i) && log[k].dir == super::walk_log::subdir_at(log, j, i);
            }
        }
    }
    let target = listing_entries(options, root, fs(root.path));
    assert forall|e: EntryView| log_entries(options, log).contains(e) implies target.contains(e) by {
        let (k, i) = choose|k: int, i: int| #[trigger] reports_at(options, log, k, i, e);
        assert(log[k].dir == root);
        assert(log[k].items == fs(root.path));
    }
    assert forall|e: EntryView| target.contains(e) implies log_entries(options, log).contains(e) by {
        let i = choose|i: int| 0 <= i < fs(root.path).len() && #[trigger] fs(root.path)[i] is Ok
            && is_reported(options, fs(root.path)[i]->Ok_0.name) && e == entry_of(options, root, fs(root.path)[i]->Ok_0);
        assert(log[0].dir == root);
        assert(log[0].items == fs(root.path));
        assert(reports_at(options, log, 0, i, e));
    }
    assert(log_entries(options, log) =~= target);
}

} // verus!
