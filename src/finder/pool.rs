//! The work pool behind the parallel walker: directories are handed out to
//! workers in any order and their listings handed back in any order.
use vstd::prelude::*;
use crate::errors::{FindError, error_of_failure};
use super::entry::{Entry, EntryView};
use super::options::FindOptions;
use super::sequential::entry_set;
use super::walk_log::{is_reported_at, is_fatal_at, origin_reports, Listed, closed, descends_at, grounded, item_at, lists, log_entries, reports_at, subdir_at};
use super::walker::{
    ChildView, DirView, Listing, PendingDir, descends, entries_in_bounds, entry_for, entry_of,
    failure_is_ignored, is_ignored, is_reported, item_view, items_view, reports, should_descend,
    subdir_for, subdir_of, within_depth,
};

verus! {

/// Whether one of `dirs` is `d`.
pub open spec fn holds_dir(dirs: Seq<PendingDir>, d: DirView) -> bool {
    exists|p: int| 0 <= p < dirs.len() && (#[trigger] dirs[p])@ == d
}

/// Whether one of the occupied `slots` is `d`.
pub open spec fn holds_slot(slots: Seq<Option<PendingDir>>, d: DirView) -> bool {
    exists|s: int| 0 <= s < slots.len() && (#[trigger] slots[s]) is Some && slots[s]->Some_0@ == d
}

/// Whether `d` is the root, or a directory descended into from an item of the log.
pub open spec fn reached(options: FindOptions, root: DirView, log: Seq<Listed>, d: DirView) -> bool {
    ||| d == root
    ||| exists|j: int, i: int| #[trigger] descends_at(options, log, j, i) && d == subdir_at(log, j, i)
}

/// Whether `origin` names, for each entry of `results`, the distinct item it
/// was reported for, among the items of the first `n` listed directories and
/// the first `i` items of the next one, and names every such item that is reported.
pub open spec fn origins_cover(options: FindOptions, log: Seq<Listed>, results: Seq<Entry>, origin: Seq<(int, int)>, n: int, i: int) -> bool {
    &&& origin_reports(options, log, results, origin)
    &&& forall|m: int| 0 <= m < origin.len() ==> (#[trigger] origin[m]).0 < n || (origin[m].0 == n && origin[m].1 < i)
    &&& forall|k: int, j: int| #[trigger] is_reported_at(options, log, k, j) && (k < n || (k == n && j < i))
        ==> exists|m: int| 0 <= m < origin.len() && origin[m] == (k, j)
}

/// Reporting item `i` of the `n`-th listed directory, with its entry appended
/// when it is reported, keeps the origins exact.
proof fn lemma_cover_step(
    options: FindOptions,
    log: Seq<Listed>,
    n: int,
    i: int,
    results0: Seq<Entry>,
    origin0: Seq<(int, int)>,
    results1: Seq<Entry>,
    origin1: Seq<(int, int)>,
)
    requires
        0 <= n < log.len(),
        0 <= i < log[n].items.len(),
        origins_cover(options, log, results0, origin0, n, i),
        is_reported_at(options, log, n, i) ==> origin1 == origin0.push((n, i))
            && results1.len() == results0.len() + 1 && results1.drop_last() == results0
            && results1.last()@ == entry_of(options, log[n].dir, item_at(log, n, i)->Ok_0),
        !is_reported_at(options, log, n, i) ==> origin1 == origin0 && results1 == results0,
    ensures
        origins_cover(options, log, results1, origin1, n, i + 1),
{
    if is_reported_at(options, log, n, i) {
        assert forall|m: int| 0 <= m < origin1.len() implies
            reports_at(options, log, origin1[m].0, origin1[m].1, (#[trigger] results1[m])@) by {
            if m < origin0.len() {
                assert(results1[m] == results0[m]);
                assert(reports_at(options, log, origin0[m].0, origin0[m].1, results0[m]@));
            }
        }
        assert forall|a: int, b: int| 0 <= a < origin1.len() && 0 <= b < origin1.len() && a != b
            implies #[trigger] origin1[a] != #[trigger] origin1[b] by {
            if a < origin0.len() && b < origin0.len() {
                assert(origin0[a] != origin0[b]);
            } else if a < origin0.len() {
                assert(origin0[a].0 < n || (origin0[a].0 == n && origin0[a].1 < i));
            } else if b < origin0.len() {
                assert(origin0[b].0 < n || (origin0[b].0 == n && origin0[b].1 < i));
            }
        }
        assert forall|m: int| 0 <= m < origin1.len() implies (#[trigger] origin1[m]).0 < n
            || (origin1[m].0 == n && origin1[m].1 < i + 1) by {
            if m < origin0.len() {
                assert(origin1[m] == origin0[m]);
            }
        }
        assert forall|k: int, j: int| #[trigger] is_reported_at(options, log, k, j) && (k < n || (k == n && j < i + 1))
            implies exists|m: int| 0 <= m < origin1.len() && origin1[m] == (k, j) by {
            if k == n && j == i {
                assert(origin1[origin0.len() as int] == (k, j));
            } else {
                let m = choose|m: int| 0 <= m < origin0.len() && origin0[m] == (k, j);
                assert(origin1[m] == origin0[m]);
            }
        }
    } else {
        assert forall|k: int, j: int| #[trigger] is_reported_at(options, log, k, j) && (k < n || (k == n && j < i + 1))
            implies exists|m: int| 0 <= m < origin1.len() && origin1[m] == (k, j) by {
            assert(k < n || (k == n && j < i));
        }
    }
}

/// Origins over a log stay origins over a longer log.
proof fn lemma_cover_extends(options: FindOptions, log0: Seq<Listed>, e: Listed, results: Seq<Entry>, origin: Seq<(int, int)>)
    requires
        origins_cover(options, log0, results, origin, log0.len() as int, 0),
    ensures
        origins_cover(options, log0.push(e), results, origin, log0.len() as int, 0),
{
    let log = log0.push(e);
    assert forall|m: int| 0 <= m < origin.len() implies
        reports_at(options, log, origin[m].0, origin[m].1, (#[trigger] results[m])@) by {
        assert(reports_at(options, log0, origin[m].0, origin[m].1, results[m]@));
        assert(log[origin[m].0] == log0[origin[m].0]);
    }
    assert forall|k: int, j: int| #[trigger] is_reported_at(options, log, k, j) && (k < log0.len() || (k == log0.len() && j < 0))
        implies exists|m: int| 0 <= m < origin.len() && origin[m] == (k, j) by {
        assert(log[k] == log0[k]);
        assert(is_reported_at(options, log0, k, j));
    }
}

/// The work pool of a parallel walk. Any number of workers take
/// directories from it, list them, and hand the listings back under a
/// ticket; the pool decides what is reported and what is to be listed.
pub struct WorkPool {
    options: FindOptions,
    pending: Vec<PendingDir>,
    slots: Vec<Option<PendingDir>>,
    results: Vec<Entry>,
    aborted: bool,
    root: Ghost<DirView>,
    log: Ghost<Seq<Listed>>,
    origin: Ghost<Seq<(int, int)>>,
}

impl WorkPool {
    /// The options of the walk.
    pub closed spec fn spec_options(&self) -> FindOptions {
        self.options
    }

    /// The root of the walk.
    pub closed spec fn spec_root(&self) -> DirView {
        self.root@
    }

    /// The directories listed so far, with what was read in each.
    pub closed spec fn spec_log(&self) -> Seq<Listed> {
        self.log@
    }

    /// The entries reported so far.
    pub closed spec fn spec_results(&self) -> Seq<Entry> {
        self.results@
    }

    /// Whether the walk stopped on a failure that the options do not skip.
    pub closed spec fn is_aborted(&self) -> bool {
        self.aborted
    }

    /// For each reported entry, in order, the listed item it was reported
    /// for: the index of the listed directory and of the item in its listing.
    pub closed spec fn spec_origin(&self) -> Seq<(int, int)> {
        self.origin@
    }

    /// The directories waiting to be handed out; the last goes first.
    pub closed spec fn spec_pending(&self) -> Seq<DirView> {
        self.pending@.map_values(|d: PendingDir| d@)
    }

    /// Whether no directory waits to be taken or listed.
    pub closed spec fn is_idle(&self) -> bool {
        &&& self.pending@.len() == 0
        &&& forall|s: int| 0 <= s < self.slots@.len() ==> (#[trigger] self.slots@[s]) is None
    }

    /// Whether the walk ran to its end without a fatal failure.
    pub open spec fn is_complete(&self) -> bool {
        self.is_idle() && !self.is_aborted()
    }

    /// The directory handed out under `ticket` and not yet handed back.
    pub closed spec fn spec_taken(&self, ticket: int) -> Option<DirView> {
        if 0 <= ticket < self.slots@.len() && self.slots@[ticket] is Some {
            Some(self.slots@[ticket]->Some_0@)
        } else {
            None
        }
    }

    /// The walk's internal consistency.
    pub closed spec fn wf(&self) -> bool {
        let log = self.log@;
        let options = self.options;
        &&& forall|k: int| 0 <= k < log.len() ==> (#[trigger] log[k]).dir.depth < usize::MAX
            && within_depth(options, log[k].dir.depth as int)
        &&& self.root@.depth == 0
        &&& grounded(options, self.root@, log)
        &&& forall|p: int| 0 <= p < self.pending@.len() ==> reached(options, self.root@, log, (#[trigger] self.pending@[p])@)
        &&& forall|s: int| 0 <= s < self.slots@.len() && (#[trigger] self.slots@[s]) is Some
            ==> reached(options, self.root@, log, self.slots@[s]->Some_0@)
        &&& !self.aborted ==> forall|j: int, i: int| #[trigger] descends_at(options, log, j, i)
            ==> lists(log, subdir_at(log, j, i)) || holds_dir(self.pending@, subdir_at(log, j, i))
                || holds_slot(self.slots@, subdir_at(log, j, i))
        &&& !self.aborted ==> entry_set(self.results@) == log_entries(options, log)
        &&& !self.aborted ==> origins_cover(options, log, self.results@, self.origin@, log.len() as int, 0)
        &&& entries_in_bounds(options, self.results@)
        &&& !self.aborted ==> forall|k: int, i: int| 0 <= k < log.len() && 0 <= i < log[k].items.len()
            && #[trigger] item_at(log, k, i) is Err ==> is_ignored(options, item_at(log, k, i)->Err_0.kind)
        &&& self.root@.depth < usize::MAX && within_depth(options, self.root@.depth as int)
        &&& log.len() == 0 && !self.aborted ==> holds_dir(self.pending@, self.root@) || holds_slot(self.slots@, self.root@)
        &&& self.aborted ==> self.pending@.len() == 0
    }

    /// A pool whose only directory to list is `root` (at depth zero).
    pub fn new(root: PendingDir, options: FindOptions) -> (r: Self)
        requires
            root.depth == 0,
        ensures
            r.wf(),
            r.spec_options() == options,
            r.spec_root() == root@,
            r.spec_log().len() == 0,
            r.spec_results().len() == 0,
            !r.is_aborted(),
    {
        let ghost root_view = root@;
        let mut pending: Vec<PendingDir> = Vec::new();
        pending.push(root);
        let r = WorkPool {
            options,
            pending,
            slots: Vec::new(),
            results: Vec::new(),
            aborted: false,
            root: Ghost(root_view),
            log: Ghost(Seq::empty()),
            origin: Ghost(Seq::empty()),
        };
        assert(r.pending@[0]@ == root_view);
        assert(entry_set(r.results@) =~= log_entries(options, Seq::empty()));
        r
    }

    /// The entries reported so far.
    pub fn results(&self) -> (r: &Vec<Entry>)
        ensures
            r@ == self.spec_results(),
    {
        &self.results
    }

    /// The entries reported.
    pub fn into_results(self) -> (r: Vec<Entry>)
        ensures
            r@ == self.spec_results(),
    {
        self.results
    }

    /// Whether the walk stopped on a failure that the options do not skip.
    pub fn aborted(&self) -> (r: bool)
        ensures
            r == self.is_aborted(),
    {
        self.aborted
    }

    /// Whether no directory waits to be taken or listed: the walk has ended.
    pub fn is_idle_now(&self) -> (r: bool)
        ensures
            r == self.is_idle(),
    {
        if self.pending.len() > 0 {
            return false;
        }
        let mut s: usize = 0;
        while s < self.slots.len()
            invariant
                s <= self.slots@.len(),
                forall|t: int| 0 <= t < s ==> (#[trigger] self.slots@[t]) is None,
            decreases self.slots@.len() - s,
        {
            if self.slots[s].is_some() {
                return false;
            }
            s = s + 1;
        }
        true
    }
}

/// What is reached from a log is reached from any longer log.
proof fn lemma_reached_extends(options: FindOptions, root: DirView, log0: Seq<Listed>, e: Listed, d: DirView)
    requires
        reached(options, root, log0, d),
    ensures
        reached(options, root, log0.push(e), d),
{
    let log = log0.push(e);
    if d != root {
        let (j, i) = choose|j: int, i: int| #[trigger] descends_at(options, log0, j, i) && d == subdir_at(log0, j, i);
        assert(log[j] == log0[j]);
        assert(descends_at(options, log, j, i));
    }
}

/// The directories to descend into among `items`, read in `d`, in order.
pub open spec fn subdirs_of(options: FindOptions, d: DirView, items: Seq<Result<ChildView, crate::errors::FailureView>>) -> Seq<DirView>
    decreases items.len(),
{
    if items.len() == 0 {
        Seq::empty()
    } else {
        let rest = subdirs_of(options, d, items.drop_last());
        let last = items.last();
        if last is Ok && descends(options, d, last->Ok_0) {
            rest.push(subdir_of(d, last->Ok_0))
        } else {
            rest
        }
    }
}

/// Entries reported for the first `n` items of a listing of `d`.
pub open spec fn prefix_entries(options: FindOptions, d: DirView, items: Seq<Result<ChildView, crate::errors::FailureView>>, n: int) -> Set<EntryView> {
    Set::new(|e: EntryView| exists|i: int| 0 <= i < n && #[trigger] items[i] is Ok
        && is_reported(options, items[i]->Ok_0.name) && e == entry_of(options, d, items[i]->Ok_0))
}

impl WorkPool {
    /// Hands out a directory to list, with the ticket to hand its listing
    /// back under; none while no directory waits.
    pub fn take(&mut self) -> (r: Option<(usize, String)>)
        requires
            old(self).wf(),
        ensures
            final(self).wf(),
            final(self).spec_options() == old(self).spec_options(),
            final(self).spec_root() == old(self).spec_root(),
            final(self).spec_log() == old(self).spec_log(),
            final(self).spec_results() == old(self).spec_results(),
            final(self).is_aborted() == old(self).is_aborted(),
            old(self).spec_pending().len() == 0 ==> r is None && final(self).is_idle() == old(self).is_idle(),
            old(self).spec_pending().len() > 0 ==> r is Some,
            match r {
                Some((t, path)) => final(self).spec_taken(t as int) == Some(old(self).spec_pending().last())
                    && final(self).spec_pending() == old(self).spec_pending().drop_last()
                    && path@ == old(self).spec_pending().last().path
                    && old(self).spec_taken(t as int) is None,
                None => true,
            },
    {
        let ghost pending0 = self.pending@;
        let ghost slots0 = self.slots@;
        let d = match self.pending.pop() {
            Some(d) => d,
            None => {
                return None;
            },
        };
        let path = d.path.clone();
        assert(self.spec_pending() =~= pending0.map_values(|d: PendingDir| d@).drop_last());
        let t = self.slots.len();
        self.slots.push(Some(d));
        proof {
            let log = self.log@;
            let slots = self.slots@;
            assert(slots[t as int] is Some && slots[t as int]->Some_0@ == pending0.last()@);
            assert forall|s: int| 0 <= s < slots0.len() implies slots[s] == slots0[s] by {}
            assert forall|p: int| 0 <= p < self.pending@.len() implies self.pending@[p] == pending0[p] by {}
            assert forall|dd: DirView| holds_dir(pending0, dd) implies holds_dir(self.pending@, dd) || holds_slot(slots, dd) by {
                let p = choose|p: int| 0 <= p < pending0.len() && (#[trigger] pending0[p])@ == dd;
                if p == pending0.len() - 1 {
                    assert(slots[t as int]->Some_0@ == dd);
                } else {
                    assert(self.pending@[p] == pending0[p]);
                }
            }
            assert forall|dd: DirView| holds_slot(slots0, dd) implies holds_slot(slots, dd) by {
                let s = choose|s: int| 0 <= s < slots0.len() && (#[trigger] slots0[s]) is Some && slots0[s]->Some_0@ == dd;
                assert(slots[s] == slots0[s]);
            }
            if !self.aborted {
                assert forall|j: int, i: int| #[trigger] descends_at(self.options, log, j, i)
                    implies lists(log, subdir_at(log, j, i)) || holds_dir(self.pending@, subdir_at(log, j, i))
                        || holds_slot(slots, subdir_at(log, j, i)) by {}
            }
        }
        Some((t, path))
    }

    /// Hands back the listing of the directory handed out under `ticket`,
    /// reporting its children and queueing those to descend into. A failure
    /// that the options do not skip (of the directory, or of an item) ends
    /// the walk. An unknown ticket, or one already handed back, changes
    /// nothing; so does any ticket once the walk has ended on a failure.
    pub fn complete(&mut self, ticket: usize, listing: Listing) -> (r: Result<(), FindError>)
        requires
            old(self).wf(),
        ensures
            final(self).wf(),
            final(self).spec_options() == old(self).spec_options(),
            final(self).spec_root() == old(self).spec_root(),
            !old(self).is_aborted() ==> final(self).spec_taken(ticket as int) is None,
            old(self).spec_taken(ticket as int) is None || old(self).is_aborted() ==> r is Ok
                && final(self).spec_log() == old(self).spec_log()
                && final(self).spec_results() == old(self).spec_results()
                && final(self).is_aborted() == old(self).is_aborted(),
            old(self).spec_taken(ticket as int) is Some && !old(self).is_aborted() ==> {
                let d = old(self).spec_taken(ticket as int)->Some_0;
                &&& r is Err <==> final(self).is_aborted()
                &&& listing is Ok ==> (r is Err <==> exists|i: int| 0 <= i < listing->Ok_0@.len()
                    && (#[trigger] listing->Ok_0@[i]) is Err && !is_ignored(old(self).spec_options(), listing->Ok_0@[i]->Err_0.kind))
                &&& listing is Ok && r is Ok ==> final(self).spec_log() == old(self).spec_log().push(
                    Listed { dir: d, items: items_view(listing->Ok_0@) })
                &&& listing is Ok && r is Ok ==> final(self).spec_pending()
                    == old(self).spec_pending() + subdirs_of(old(self).spec_options(), d, items_view(listing->Ok_0@))
                &&& listing is Err && r is Ok ==> final(self).spec_pending() == old(self).spec_pending()
                &&& listing is Ok && r is Err ==> exists|i: int| {
                    &&& 0 <= i < listing->Ok_0@.len()
                    &&& #[trigger] listing->Ok_0@[i] is Err
                    &&& !is_ignored(old(self).spec_options(), listing->Ok_0@[i]->Err_0.kind)
                    &&& r->Err_0@ == error_of_failure(listing->Ok_0@[i]->Err_0.kind,
                        listing->Ok_0@[i]->Err_0.path@, listing->Ok_0@[i]->Err_0.message@)
                    &&& forall|i2: int| 0 <= i2 < i ==> !((#[trigger] listing->Ok_0@[i2]) is Err
                        && !is_ignored(old(self).spec_options(), listing->Ok_0@[i2]->Err_0.kind))
                }
                &&& r is Err ==> final(self).spec_pending().len() == 0
                &&& listing is Err && is_ignored(old(self).spec_options(), listing->Err_0.kind) ==> r is Ok
                    && final(self).spec_log() == old(self).spec_log().push(Listed { dir: d, items: Seq::empty() })
                &&& listing is Err && !is_ignored(old(self).spec_options(), listing->Err_0.kind) ==> r is Err
                    && r->Err_0@ == error_of_failure(listing->Err_0.kind, listing->Err_0.path@, listing->Err_0.message@)
            },
    {
        if self.aborted || ticket >= self.slots.len() {
            return Ok(());
        }
        let ghost slots0 = self.slots@;
        let ghost pending0 = self.pending@;
        let ghost log0 = self.log@;
        let ghost results0 = self.results@;
        let mut slot: Option<PendingDir> = None;
        self.slots.set_and_swap(ticket, &mut slot);
        let dir = match slot {
            Some(d) => d,
            None => {
                assert(self.slots@ =~= slots0);
                return Ok(());
            },
        };
        assert(reached(self.options, self.root@, log0, dir@));
        proof {
            if dir@ != self.root@ {
                let (j, i) = choose|j: int, i: int| #[trigger] descends_at(self.options, log0, j, i) && dir@ == subdir_at(log0, j, i);
            }
        }
        assert(dir.depth < usize::MAX && within_depth(self.options, dir.depth as int));
        let ghost listing0 = listing;
        let items: Vec<crate::finder::walker::ListingItem> = match listing {
            Ok(items) => items,
            Err(failure) => {
                if !failure_is_ignored(&self.options, failure.kind) {
                    self.aborted = true;
                    self.pending = Vec::new();
                    proof {
                        assert forall|s: int| 0 <= s < self.slots@.len() && (#[trigger] self.slots@[s]) is Some
                            implies reached(self.options, self.root@, self.log@, self.slots@[s]->Some_0@) by {
                            assert(self.slots@[s] == slots0[s]);
                        }
                    }
                    return Err(FindError::from_failure(&failure));
                }
                Vec::new()
            },
        };
        assert(listing0 is Ok ==> listing0->Ok_0@ == items@);
        assert(listing0 is Err ==> items@.len() == 0);
        let ghost entry = Listed { dir: dir@, items: items_view(items@) };
        let ghost log1 = log0.push(entry);
        let ghost iv = items_view(items@);
        proof {
            assert(iv.take(0) =~= Seq::<Result<ChildView, crate::errors::FailureView>>::empty());
            assert(self.spec_pending() =~= pending0.map_values(|d: PendingDir| d@) + subdirs_of(self.options, dir@, iv.take(0)));
            assert forall|p: int| 0 <= p < self.pending@.len() implies reached(self.options, self.root@, log1, (#[trigger] self.pending@[p])@) by {
                lemma_reached_extends(self.options, self.root@, log0, entry, self.pending@[p]@);
            }
            assert(prefix_entries(self.options, dir@, iv, 0) =~= Set::empty());
            assert(log_entries(self.options, log0).union(Set::empty()) =~= log_entries(self.options, log0));
        }
        proof {
            lemma_cover_extends(self.options, log0, entry, self.results@, self.origin@);
        }
        let n = items.len();
        let mut i: usize = 0;
        while i < n
            invariant
                n == items@.len(),
                listing0 is Ok ==> listing0->Ok_0@ == items@,
                listing0 is Err ==> items@.len() == 0,
                listing0 == listing,
                i <= n,
                iv == items_view(items@),
                log1 == log0.push(entry),
                entry == (Listed { dir: dir@, items: iv }),
                self.log@ == log0,
                dir.depth < usize::MAX,
                within_depth(self.options, dir.depth as int),
                self.options == old(self).options,
                self.root == old(self).root,
                !self.aborted,
                self.slots@ == slots0.update(ticket as int, None),
                0 <= ticket < slots0.len(),
                slots0[ticket as int] is Some && slots0[ticket as int]->Some_0@ == dir@,
                old(self).wf(),
                !old(self).aborted,
                old(self).options == self.options,
                old(self).root == self.root,
                old(self).pending@ == pending0,
                old(self).slots@ == slots0,
                old(self).log@ == log0,
                old(self).results@ == results0,
                forall|p: int| 0 <= p < self.pending@.len() ==> reached(self.options, self.root@, log1, (#[trigger] self.pending@[p])@),
                forall|dd: DirView| holds_dir(pending0, dd) ==> holds_dir(self.pending@, dd),
                self.spec_pending() == pending0.map_values(|d: PendingDir| d@) + subdirs_of(self.options, dir@, iv.take(i as int)),
                forall|ii: int| 0 <= ii < i && (#[trigger] iv[ii]) is Ok && descends(self.options, dir@, iv[ii]->Ok_0)
                    ==> holds_dir(self.pending@, subdir_of(dir@, iv[ii]->Ok_0)),
                forall|ii: int| 0 <= ii < i && (#[trigger] iv[ii]) is Err ==> is_ignored(self.options, iv[ii]->Err_0.kind),
                entry_set(self.results@) == log_entries(self.options, log0).union(prefix_entries(self.options, dir@, iv, i as int)),
                entries_in_bounds(self.options, self.results@),
                origins_cover(self.options, log1, self.results@, self.origin@, log0.len() as int, i as int),
                log1[log0.len() as int] == entry,
            decreases n - i,
        {
            let ghost pending_before = self.pending@;
            let ghost results_before = self.results@;
            let ghost origin_before = self.origin@;
            let ghost n0 = log0.len() as int;
            assert(item_at(log1, n0, i as int) == iv[i as int]);
            assert(iv.take(i + 1).drop_last() =~= iv.take(i as int));
            assert(iv.take(i + 1).last() == iv[i as int]);
            match &items[i] {
                Err(failure) => {
                    if !failure_is_ignored(&self.options, failure.kind) {
                        self.aborted = true;
                        self.pending = Vec::new();
                        proof {
                            assert(iv[i as int] == item_view(items@[i as int]));
                            assert(items@[i as int] is Err && !is_ignored(self.options, items@[i as int]->Err_0.kind));
                            assert(listing0 is Ok ==> listing0->Ok_0@[i as int] is Err);
                            assert forall|s: int| 0 <= s < self.slots@.len() && (#[trigger] self.slots@[s]) is Some
                                implies reached(self.options, self.root@, self.log@, self.slots@[s]->Some_0@) by {
                                assert(self.slots@[s] == slots0[s]);
                            }
                        }
                        proof {
                            assert forall|i2: int| 0 <= i2 < i implies !((#[trigger] items@[i2]) is Err
                                && !is_ignored(self.options, items@[i2]->Err_0.kind)) by {
                                assert(iv[i2] == item_view(items@[i2]));
                            }
                        }
                        return Err(FindError::from_failure(failure));
                    }
                    proof {
                        lemma_cover_step(self.options, log1, n0, i as int, results_before, origin_before, results_before, origin_before);
                        assert(iv[i as int] == item_view(items@[i as int]));
                        assert(prefix_entries(self.options, dir@, iv, i + 1) =~= prefix_entries(self.options, dir@, iv, i as int));
                    }
                },
                Ok(child) => {
                    assert(iv[i as int] == item_view(items@[i as int]));
                    if reports(&self.options, child.name.as_str()) {
                        let e = entry_for(&self.options, &dir, child);
                        proof {
                            super::sequential::lemma_entry_set_push(self.results@, e);
                            assert(prefix_entries(self.options, dir@, iv, i + 1) =~= prefix_entries(self.options, dir@, iv, i as int).insert(e@));
                            self.origin@ = self.origin@.push((n0, i as int));
                        }
                        self.results.push(e);
                        assert(self.results@.drop_last() =~= results_before);
                    } else {
                        assert(prefix_entries(self.options, dir@, iv, i + 1) =~= prefix_entries(self.options, dir@, iv, i as int));
                    }
                    proof {
                        lemma_cover_step(self.options, log1, n0, i as int, results_before, origin_before, self.results@, self.origin@);
                    }
                    if should_descend(&self.options, &dir, child) {
                        let sub = subdir_for(&dir, child);
                        self.pending.push(sub);
                        assert(self.spec_pending() =~= pending_before.map_values(|d: PendingDir| d@).push(sub@));
                        assert(self.spec_pending() =~= pending0.map_values(|d: PendingDir| d@) + subdirs_of(self.options, dir@, iv.take(i + 1)));
                        proof {
                            let pend = self.pending@;
                            assert(pend[pend.len() - 1]@ == subdir_of(dir@, iv[i as int]->Ok_0));
                            assert forall|p: int| 0 <= p < pend.len() implies reached(self.options, self.root@, log1, (#[trigger] pend[p])@) by {
                                if p < pending_before.len() {
                                    assert(pend[p] == pending_before[p]);
                                } else {
                                    assert(descends_at(self.options, log1, log0.len() as int, i as int));
                                }
                            }
                            assert forall|dd: DirView| holds_dir(pending_before, dd) implies holds_dir(pend, dd) by {
                                let p = choose|p: int| 0 <= p < pending_before.len() && (#[trigger] pending_before[p])@ == dd;
                                assert(pend[p] == pending_before[p]);
                            }
                        }
                    }
                },
            }
            assert(self.spec_pending() =~= pending0.map_values(|d: PendingDir| d@) + subdirs_of(self.options, dir@, iv.take(i + 1)));
            i = i + 1;
        }
        assert(iv.take(n as int) =~= iv);
        proof {
            self.log@ = log1;
            self.lemma_completed(&*old(self), entry, ticket as int);
            assert forall|j: int| 0 <= j < items@.len() && (#[trigger] items@[j]) is Err
                implies is_ignored(self.options, items@[j]->Err_0.kind) by {
                assert(iv[j] == item_view(items@[j]));
            }
            if old(self).spec_taken(ticket as int) is Some && listing is Err {
                assert(items_view(items@) =~= Seq::empty());
            }
        }
        Ok(())
    }
}

impl WorkPool {
    /// Appending a fully reported listing to the log restores the pool's consistency.
    proof fn lemma_completed(&self, before: &WorkPool, entry: Listed, ticket: int)
        requires
            before.wf(),
            !before.aborted,
            !self.aborted,
            self.options == before.options,
            self.root == before.root,
            self.log@ == before.log@.push(entry),
            0 <= ticket < before.slots@.len(),
            before.slots@[ticket] is Some && before.slots@[ticket]->Some_0@ == entry.dir,
            self.slots@ == before.slots@.update(ticket, None),
            entry.dir.depth < usize::MAX,
            within_depth(self.options, entry.dir.depth as int),
            forall|p: int| 0 <= p < self.pending@.len() ==> reached(self.options, self.root@, self.log@, (#[trigger] self.pending@[p])@),
            forall|dd: DirView| holds_dir(before.pending@, dd) ==> holds_dir(self.pending@, dd),
            forall|ii: int| 0 <= ii < entry.items.len() && (#[trigger] entry.items[ii]) is Ok && descends(self.options, entry.dir, entry.items[ii]->Ok_0)
                ==> holds_dir(self.pending@, subdir_of(entry.dir, entry.items[ii]->Ok_0)),
            forall|ii: int| 0 <= ii < entry.items.len() && (#[trigger] entry.items[ii]) is Err ==> is_ignored(self.options, entry.items[ii]->Err_0.kind),
            entry_set(self.results@) == log_entries(self.options, before.log@).union(
                prefix_entries(self.options, entry.dir, entry.items, entry.items.len() as int)),
            entries_in_bounds(self.options, self.results@),
            origins_cover(self.options, self.log@, self.results@, self.origin@, before.log@.len() as int, entry.items.len() as int),
        ensures
            self.wf(),
    {
        assert forall|k: int, j: int| #[trigger] is_reported_at(self.options, self.log@, k, j) && (k < self.log@.len() || (k == self.log@.len() && j < 0))
            implies exists|m: int| 0 <= m < self.origin@.len() && self.origin@[m] == (k, j) by {
            assert(k < before.log@.len() || (k == before.log@.len() && j < entry.items.len()));
        }
        assert forall|m: int| 0 <= m < self.origin@.len() implies (#[trigger] self.origin@[m]).0 < self.log@.len()
            || (self.origin@[m].0 == self.log@.len() && self.origin@[m].1 < 0) by {
            assert(self.origin@[m].0 < before.log@.len()
                || (self.origin@[m].0 == before.log@.len() && self.origin@[m].1 < entry.items.len()));
        }
        let options = self.options;
        let root = self.root@;
        let log0 = before.log@;
        let log = self.log@;
        let n = log0.len() as int;
        assert(log[n] == entry);
        assert forall|j: int, i: int| 0 <= j < n && #[trigger] descends_at(options, log0, j, i)
            implies descends_at(options, log, j, i) && subdir_at(log, j, i) == subdir_at(log0, j, i) by {
            assert(log[j] == log0[j]);
        }
        assert(reached(options, root, log0, entry.dir));
        assert forall|k: int| 0 <= k < log.len() implies (#[trigger] log[k]).dir.depth < usize::MAX
            && within_depth(options, log[k].dir.depth as int) by {
            if k < n {
                assert(log[k] == log0[k]);
            }
        }
        assert forall|k: int| 1 <= k < log.len() implies #[trigger] super::walk_log::reached_before(options, root, log, k) by {
            if k < n {
                assert(super::walk_log::reached_before(options, root, log0, k));
                assert(log[k] == log0[k]);
                if log0[k].dir != root {
                    let (j, i) = choose|j: int, i: int|
                        0 <= j < k && #[trigger] descends_at(options, log0, j, i) && log0[k].dir == subdir_at(log0, j, i);
                    assert(descends_at(options, log, j, i));
                }
            } else if entry.dir != root {
                let (j, i) = choose|j: int, i: int| #[trigger] descends_at(options, log0, j, i) && entry.dir == subdir_at(log0, j, i);
                assert(descends_at(options, log, j, i));
            }
        }
        if n == 0 {
            if entry.dir != root {
                let (j, i) = choose|j: int, i: int| #[trigger] descends_at(options, log0, j, i) && entry.dir == subdir_at(log0, j, i);
            }
        }
        assert(grounded(options, root, log));
        assert forall|s: int| 0 <= s < self.slots@.len() && (#[trigger] self.slots@[s]) is Some
            implies reached(options, root, log, self.slots@[s]->Some_0@) by {
            assert(self.slots@[s] == before.slots@[s]);
            lemma_reached_extends(options, root, log0, entry, self.slots@[s]->Some_0@);
        }
        assert forall|j: int, i: int| #[trigger] descends_at(options, log, j, i)
            implies lists(log, subdir_at(log, j, i)) || holds_dir(self.pending@, subdir_at(log, j, i))
                || holds_slot(self.slots@, subdir_at(log, j, i)) by {
            let sub = subdir_at(log, j, i);
            if j < n {
                assert(log[j] == log0[j]);
                assert(descends_at(options, log0, j, i));
                if lists(log0, sub) {
                    let m = choose|m: int| 0 <= m < log0.len() && (#[trigger] log0[m]).dir == sub;
                    assert(log[m] == log0[m]);
                } else if holds_dir(before.pending@, sub) {
                } else {
                    let s = choose|s: int| 0 <= s < before.slots@.len() && (#[trigger] before.slots@[s]) is Some
                        && before.slots@[s]->Some_0@ == sub;
                    if s == ticket {
                        assert(lists(log, sub));
                    } else {
                        assert(self.slots@[s] == before.slots@[s]);
                    }
                }
            } else {
                assert(j == n);
                assert(entry.items[i] is Ok);
            }
        }
        let prefix = prefix_entries(options, entry.dir, entry.items, entry.items.len() as int);
        assert forall|e: EntryView| log_entries(options, log).contains(e)
            implies log_entries(options, log0).union(prefix).contains(e) by {
            let (k, i) = choose|k: int, i: int| #[trigger] reports_at(options, log, k, i, e);
            if k < n {
                assert(log[k] == log0[k]);
                assert(reports_at(options, log0, k, i, e));
            } else {
                assert(entry.items[i] is Ok);
            }
        }
        assert forall|e: EntryView| log_entries(options, log0).union(prefix).contains(e)
            implies log_entries(options, log).contains(e) by {
            if log_entries(options, log0).contains(e) {
                let (k, i) = choose|k: int, i: int| #[trigger] reports_at(options, log0, k, i, e);
                assert(log[k] == log0[k]);
                assert(reports_at(options, log, k, i, e));
            } else {
                let i = choose|i: int| 0 <= i < entry.items.len() && #[trigger] entry.items[i] is Ok
                    && is_reported(options, entry.items[i]->Ok_0.name) && e == entry_of(options, entry.dir, entry.items[i]->Ok_0);
                assert(reports_at(options, log, n, i, e));
            }
        }
        assert(log_entries(options, log) =~= log_entries(options, log0).union(prefix));
        assert forall|k: int, i: int| 0 <= k < log.len() && 0 <= i < log[k].items.len()
            && #[trigger] item_at(log, k, i) is Err implies is_ignored(options, item_at(log, k, i)->Err_0.kind) by {
            if k < n {
                assert(log[k] == log0[k]);
                assert(item_at(log0, k, i) == item_at(log, k, i));
            }
        }
    }

    /// A walk that ran to its end listed its root first and every other
    /// directory from one listed before it; listed every directory it should
    /// descend into; met no failure that the options do not skip; and
    /// reported exactly the entries for the items it read, none of them the
    /// root and all within the depth bound.
    pub proof fn lemma_complete(&self)
        requires
            self.wf(),
            self.is_complete(),
        ensures
            self.spec_log().len() > 0,
            grounded(self.spec_options(), self.spec_root(), self.spec_log()),
            closed(self.spec_options(), self.spec_log()),
            entry_set(self.spec_results()) == log_entries(self.spec_options(), self.spec_log()),
            entries_in_bounds(self.spec_options(), self.spec_results()),
            origin_reports(self.spec_options(), self.spec_log(), self.spec_results(), self.spec_origin()),
            forall|k: int, i: int| #[trigger] is_reported_at(self.spec_options(), self.spec_log(), k, i)
                ==> exists|n: int| 0 <= n < self.spec_origin().len() && self.spec_origin()[n] == (k, i),
            forall|k: int, i: int| 0 <= k < self.spec_log().len() && 0 <= i < self.spec_log()[k].items.len()
                && #[trigger] item_at(self.spec_log(), k, i) is Err
                ==> is_ignored(self.spec_options(), item_at(self.spec_log(), k, i)->Err_0.kind),
    {
        let log = self.log@;
        assert forall|k: int, i: int| #[trigger] is_reported_at(self.options, log, k, i)
            implies exists|n: int| 0 <= n < self.origin@.len() && self.origin@[n] == (k, i) by {
            assert(k < log.len());
        }
        if log.len() == 0 {
            if holds_slot(self.slots@, self.root@) {
                let s = choose|s: int| 0 <= s < self.slots@.len() && (#[trigger] self.slots@[s]) is Some
                    && self.slots@[s]->Some_0@ == self.root@;
            }
        }
        assert forall|j: int, i: int| #[trigger] descends_at(self.options, log, j, i)
            implies lists(log, subdir_at(log, j, i)) by {
            if holds_slot(self.slots@, subdir_at(log, j, i)) {
                let s = choose|s: int| 0 <= s < self.slots@.len() && (#[trigger] self.slots@[s]) is Some
                    && self.slots@[s]->Some_0@ == subdir_at(log, j, i);
            }
        }
    }
}

impl WorkPool {
    /// Every entry reported so far lies at depth one or more, and at most one
    /// level below the depth bound.
    pub proof fn lemma_in_bounds(&self)
        requires
            self.wf(),
        ensures
            super::walker::entries_in_bounds(self.spec_options(), self.spec_results()),
    {
    }
}

} // verus!
