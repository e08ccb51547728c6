//! The record a walk keeps of the directories it listed, and what follows
//! from it: the entries a finished walk reports depend on the filesystem and
//! the options alone, not on the order in which directories were listed.
use vstd::prelude::*;
use crate::errors::{ErrorView, FailureView, error_of_failure};
use super::entry::{Entry, EntryView};
use super::options::FindOptions;
use super::walker::{ChildView, DirView, descends, entry_of, is_ignored, is_reported, subdir_of};

verus! {

/// A directory that a walk listed, with the items it read there (none when
/// the directory could not be read and the failure was skipped). A failed
/// item holds the class of its failure.
pub struct Listed {
    pub dir: DirView,
    pub items: Seq<Result<ChildView, FailureView>>,
}

/// Item `i` of the `k`-th listed directory.
pub open spec fn item_at(log: Seq<Listed>, k: int, i: int) -> Result<ChildView, FailureView> {
    log[k].items[i]
}

/// Whether item `i` of the `k`-th listed directory is a child that the walk descends into.
pub open spec fn descends_at(options: FindOptions, log: Seq<Listed>, k: int, i: int) -> bool {
    &&& 0 <= k < log.len()
    &&& 0 <= i < log[k].items.len()
    &&& item_at(log, k, i) is Ok
    &&& descends(options, log[k].dir, item_at(log, k, i)->Ok_0)
}

/// The directory descended into at item `i` of the `k`-th listed directory.
pub open spec fn subdir_at(log: Seq<Listed>, k: int, i: int) -> DirView {
    subdir_of(log[k].dir, item_at(log, k, i)->Ok_0)
}

/// Whether the walk listed `d`.
pub open spec fn lists(log: Seq<Listed>, d: DirView) -> bool {
    exists|m: int| 0 <= m < log.len() && (#[trigger] log[m]).dir == d
}

/// Whether every listed directory after the first was reached from an
/// earlier one, and the first (if any) is `root`.
pub open spec fn grounded(options: FindOptions, root: DirView, log: Seq<Listed>) -> bool {
    &&& log.len() > 0 ==> log[0].dir == root
    &&& forall|k: int| 1 <= k < log.len() ==> #[trigger] reached_before(options, root, log, k)
}

/// Whether the `k`-th listed directory is the root or was descended into
/// from an earlier one.
pub open spec fn reached_before(options: FindOptions, root: DirView, log: Seq<Listed>, k: int) -> bool {
    ||| log[k].dir == root
    ||| exists|j: int, i: int| 0 <= j < k && #[trigger] descends_at(options, log, j, i) && log[k].dir == subdir_at(log, j, i)
}

/// Whether the walk listed every directory it should descend into.
pub open spec fn closed(options: FindOptions, log: Seq<Listed>) -> bool {
    forall|j: int, i: int| #[trigger] descends_at(options, log, j, i) ==> lists(log, subdir_at(log, j, i))
}

/// Whether every listed directory was listed as `fs` has it.
pub open spec fn follows(log: Seq<Listed>, fs: spec_fn(Seq<char>) -> Seq<Result<ChildView, FailureView>>) -> bool {
    forall|k: int| 0 <= k < log.len() ==> (#[trigger] log[k]).items == fs(log[k].dir.path)
}

/// Whether `e` is reported for an item, among the first `count` items, of the `k`-th listed directory.
pub open spec fn reports_at(options: FindOptions, log: Seq<Listed>, k: int, i: int, e: EntryView) -> bool {
    &&& 0 <= k < log.len()
    &&& 0 <= i < log[k].items.len()
    &&& item_at(log, k, i) is Ok
    &&& is_reported(options, item_at(log, k, i)->Ok_0.name)
    &&& e == entry_of(options, log[k].dir, item_at(log, k, i)->Ok_0)
}

/// The entries reported for the items of the listed directories.
pub open spec fn log_entries(options: FindOptions, log: Seq<Listed>) -> Set<EntryView> {
    Set::new(|e: EntryView| exists|k: int, i: int| #[trigger] reports_at(options, log, k, i, e))
}

/// Whether item `i` of the `k`-th listed directory is a child that is reported.
pub open spec fn is_reported_at(options: FindOptions, log: Seq<Listed>, k: int, i: int) -> bool {
    &&& 0 <= k < log.len()
    &&& 0 <= i < log[k].items.len()
    &&& item_at(log, k, i) is Ok
    &&& is_reported(options, item_at(log, k, i)->Ok_0.name)
}

/// Whether item `i` of the `k`-th listed directory is a failure that the
/// options do not skip.
pub open spec fn is_fatal_at(options: FindOptions, log: Seq<Listed>, k: int, i: int) -> bool {
    &&& 0 <= k < log.len()
    &&& 0 <= i < log[k].items.len()
    &&& item_at(log, k, i) is Err
    &&& !is_ignored(options, item_at(log, k, i)->Err_0.kind)
}

/// The error that item `i` of the `k`-th listed directory, a failure, becomes.
pub open spec fn error_at(log: Seq<Listed>, k: int, i: int) -> ErrorView {
    let f = item_at(log, k, i)->Err_0;
    error_of_failure(f.kind, f.path, f.message)
}

/// Whether `origin` names, for each entry of `results`, the distinct listed
/// item it was reported for.
pub open spec fn origin_reports(options: FindOptions, log: Seq<Listed>, results: Seq<Entry>, origin: Seq<(int, int)>) -> bool {
    &&& origin.len() == results.len()
    &&& forall|n: int| 0 <= n < origin.len() ==> reports_at(options, log, origin[n].0, origin[n].1, (#[trigger] results[n])@)
    &&& forall|n: int, m: int| 0 <= n < origin.len() && 0 <= m < origin.len() && n != m
        ==> #[trigger] origin[n] != #[trigger] origin[m]
}

/// Every directory that a grounded log lists, a closed log from the same
/// root over the same filesystem lists too.
proof fn lemma_listed_in_closed(
    options: FindOptions,
    root: DirView,
    fs: spec_fn(Seq<char>) -> Seq<Result<ChildView, FailureView>>,
    log1: Seq<Listed>,
    log2: Seq<Listed>,
    k: int,
)
    requires
        grounded(options, root, log1),
        follows(log1, fs),
        log2.len() > 0,
        log2[0].dir == root,
        closed(options, log2),
        follows(log2, fs),
        0 <= k < log1.len(),
    ensures
        lists(log2, log1[k].dir),
    decreases k,
{
    if k == 0 || log1[k].dir == root {
        assert(log2[0].dir == root);
    } else {
        assert(reached_before(options, root, log1, k));
        let (j, i) = choose|j: int, i: int|
            0 <= j < k && #[trigger] descends_at(options, log1, j, i) && log1[k].dir == subdir_at(log1, j, i);
        lemma_listed_in_closed(options, root, fs, log1, log2, j);
        let m = choose|m: int| 0 <= m < log2.len() && (#[trigger] log2[m]).dir == log1[j].dir;
        assert(log1[j].items == fs(log1[j].dir.path));
        assert(log2[m].items == fs(log2[m].dir.path));
        assert(descends_at(options, log2, m, i));
        assert(subdir_at(log2, m, i) == subdir_at(log1, j, i));
    }
}

/// Two finished walks from the same root, with the same options, over the
/// same filesystem, report the same set of entries, whatever order each
/// listed its directories in.
pub proof fn lemma_finished_walks_agree(
    options: FindOptions,
    root: DirView,
    fs: spec_fn(Seq<char>) -> Seq<Result<ChildView, FailureView>>,
    log1: Seq<Listed>,
    log2: Seq<Listed>,
)
    requires
        log1.len() > 0,
        log2.len() > 0,
        grounded(options, root, log1),
        grounded(options, root, log2),
        closed(options, log1),
        closed(options, log2),
        follows(log1, fs),
        follows(log2, fs),
    ensures
        log_entries(options, log1) == log_entries(options, log2),
{
    assert forall|e: EntryView| log_entries(options, log1).contains(e) implies log_entries(options, log2).contains(e) by {
        let (k, i) = choose|k: int, i: int| #[trigger] reports_at(options, log1, k, i, e);
        lemma_listed_in_closed(options, root, fs, log1, log2, k);
        let m = choose|m: int| 0 <= m < log2.len() && (#[trigger] log2[m]).dir == log1[k].dir;
        assert(log1[k].items == fs(log1[k].dir.path));
        assert(log2[m].items == fs(log2[m].dir.path));
        assert(reports_at(options, log2, m, i, e));
    }
    assert forall|e: EntryView| log_entries(options, log2).contains(e) implies log_entries(options, log1).contains(e) by {
        let (k, i) = choose|k: int, i: int| #[trigger] reports_at(options, log2, k, i, e);
        lemma_listed_in_closed(options, root, fs, log2, log1, k);
        let m = choose|m: int| 0 <= m < log1.len() && (#[trigger] log1[m]).dir == log2[k].dir;
        assert(log2[k].items == fs(log2[k].dir.path));
        assert(log1[m].items == fs(log1[m].dir.path));
        assert(reports_at(options, log1, m, i, e));
    }
    assert(log_entries(options, log1) =~= log_entries(options, log2));
}

} // verus!
