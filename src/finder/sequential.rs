//! The sequential walker: depth-first pre-order over an explicit stack.
use vstd::prelude::*;
use crate::errors::{FindError, error_of_failure};
use super::entry::{Entry, EntryView};
use super::options::FindOptions;
use super::walk_log::{
    is_reported_at, is_fatal_at, error_at, origin_reports,
    Listed, closed, descends_at, grounded, item_at, lists, log_entries, reports_at, subdir_at,
};
use super::walker::{
    DirView, Listing, ListingItem, PendingDir, entries_in_bounds, entry_for, entry_of, failure_is_ignored,
    is_ignored, item_view, items_view, reports, reversed, should_descend, subdir_for, within_depth,
};

verus! {

/// A directory whose items are being reported; the items not yet reported
/// are kept last-first.
struct Frame {
    dir: PendingDir,
    remaining: Vec<ListingItem>,
}

/// The entries of `es`, as a set of abstract values.
pub open spec fn entry_set(es: Seq<Entry>) -> Set<EntryView> {
    Set::new(|v: EntryView| exists|i: int| 0 <= i < es.len() && (#[trigger] es[i])@ == v)
}

/// The entries reported for the first `progress[k]` items of each listed directory `k`.
pub open spec fn processed_entries(options: FindOptions, log: Seq<Listed>, progress: Seq<int>) -> Set<EntryView> {
    Set::new(|e: EntryView| exists|k: int, i: int| #[trigger] reports_at(options, log, k, i, e) && i < progress[k])
}

/// Whether one of the first `progress[k]` items of a listed directory `k` is a
/// failure that the options do not skip.
pub open spec fn fatal_seen(options: FindOptions, log: Seq<Listed>, progress: Seq<int>) -> bool {
    exists|k: int, i: int|
        0 <= k < log.len() && 0 <= i < progress[k] && #[trigger] item_at(log, k, i) is Err
            && !is_ignored(options, item_at(log, k, i)->Err_0.kind)
}

pub(crate) proof fn lemma_entry_set_push(es: Seq<Entry>, e: Entry)
    ensures
        entry_set(es.push(e)) == entry_set(es).insert(e@),
{
    let es2 = es.push(e);
    assert forall|v: EntryView| entry_set(es2).contains(v) implies entry_set(es).insert(e@).contains(v) by {
        let i = choose|i: int| 0 <= i < es2.len() && (#[trigger] es2[i])@ == v;
        if i < es.len() {
            assert(es[i] == es2[i]);
        }
    }
    assert forall|v: EntryView| entry_set(es).insert(e@).contains(v) implies entry_set(es2).contains(v) by {
        if v == e@ {
            assert(es2[es.len() as int] == e);
        } else {
            let i = choose|i: int| 0 <= i < es.len() && (#[trigger] es[i])@ == v;
            assert(es2[i] == es[i]);
        }
    }
    assert(entry_set(es2) =~= entry_set(es).insert(e@));
}

/// Reporting one more item of the `k`-th listed directory adds at most its entry.
proof fn lemma_processed_step(options: FindOptions, log: Seq<Listed>, progress: Seq<int>, k: int)
    requires
        progress.len() == log.len(),
        0 <= k < log.len(),
        0 <= progress[k] < log[k].items.len(),
    ensures
        ({
            let i = progress[k];
            let advanced = progress.update(k, i + 1);
            let c = item_at(log, k, i);
            &&& (c is Ok && super::walker::is_reported(options, c->Ok_0.name)) ==> processed_entries(options, log, advanced)
                == processed_entries(options, log, progress).insert(super::walker::entry_of(options, log[k].dir, c->Ok_0))
            &&& !(c is Ok && super::walker::is_reported(options, c->Ok_0.name)) ==> processed_entries(options, log, advanced)
                == processed_entries(options, log, progress)
            &&& fatal_seen(options, log, advanced) == (fatal_seen(options, log, progress) || (c is Err && !is_ignored(options, c->Err_0.kind)))
        }),
{
    let i = progress[k];
    let advanced = progress.update(k, i + 1);
    let c = item_at(log, k, i);
    let old_set = processed_entries(options, log, progress);
    let new_set = processed_entries(options, log, advanced);
    assert forall|e: EntryView| old_set.contains(e) implies new_set.contains(e) by {
        let (k2, i2) = choose|k2: int, i2: int| #[trigger] reports_at(options, log, k2, i2, e) && i2 < progress[k2];
        assert(reports_at(options, log, k2, i2, e) && i2 < advanced[k2]);
    }
    assert forall|e: EntryView| new_set.contains(e) && !old_set.contains(e) implies
        (c is Ok && super::walker::is_reported(options, c->Ok_0.name) && e == super::walker::entry_of(options, log[k].dir, c->Ok_0)) by {
        let (k2, i2) = choose|k2: int, i2: int| #[trigger] reports_at(options, log, k2, i2, e) && i2 < advanced[k2];
        if k2 != k || i2 != i {
            assert(reports_at(options, log, k2, i2, e) && i2 < progress[k2]);
        }
    }
    if c is Ok && super::walker::is_reported(options, c->Ok_0.name) {
        let e = super::walker::entry_of(options, log[k].dir, c->Ok_0);
        assert(reports_at(options, log, k, i, e) && i < advanced[k]);
        assert(new_set =~= old_set.insert(e));
    } else {
        assert(new_set =~= old_set);
    }
    if fatal_seen(options, log, progress) {
        let (k2, i2) = choose|k2: int, i2: int|
            0 <= k2 < log.len() && 0 <= i2 < progress[k2] && #[trigger] item_at(log, k2, i2) is Err
                && !is_ignored(options, item_at(log, k2, i2)->Err_0.kind);
        assert(0 <= i2 < advanced[k2]);
    }
    if c is Err && !is_ignored(options, c->Err_0.kind) {
        assert(0 <= i < advanced[k]);
    }
    if fatal_seen(options, log, advanced) {
        let (k2, i2) = choose|k2: int, i2: int|
            0 <= k2 < log.len() && 0 <= i2 < advanced[k2] && #[trigger] item_at(log, k2, i2) is Err
                && !is_ignored(options, item_at(log, k2, i2)->Err_0.kind);
        if k2 != k || i2 != i {
            assert(0 <= i2 < progress[k2]);
        }
    }
}

/// Whether `origin` names, for each entry of `results`, the distinct item it
/// was reported for among the first `progress[k]` items of each listed
/// directory `k`, and names every such item that is reported.
pub open spec fn origins_processed(
    options: FindOptions,
    log: Seq<Listed>,
    progress: Seq<int>,
    results: Seq<Entry>,
    origin: Seq<(int, int)>,
) -> bool {
    &&& origin_reports(options, log, results, origin)
    &&& forall|n: int| 0 <= n < origin.len() ==> (#[trigger] origin[n]).1 < progress[origin[n].0]
    &&& forall|k: int, i: int| #[trigger] is_reported_at(options, log, k, i) && i < progress[k]
        ==> exists|n: int| 0 <= n < origin.len() && origin[n] == (k, i)
}

/// Reporting one more item of the `k`-th listed directory, with its entry
/// appended when it is reported, keeps the origins exact.
proof fn lemma_origin_step(
    options: FindOptions,
    log: Seq<Listed>,
    progress0: Seq<int>,
    k: int,
    results0: Seq<Entry>,
    origin0: Seq<(int, int)>,
    results1: Seq<Entry>,
    origin1: Seq<(int, int)>,
)
    requires
        progress0.len() == log.len(),
        0 <= k < log.len(),
        0 <= progress0[k] < log[k].items.len(),
        origins_processed(options, log, progress0, results0, origin0),
        is_reported_at(options, log, k, progress0[k]) ==> origin1 == origin0.push((k, progress0[k]))
            && results1.len() == results0.len() + 1 && results1.drop_last() == results0
            && results1.last()@ == entry_of(options, log[k].dir, item_at(log, k, progress0[k])->Ok_0),
        !is_reported_at(options, log, k, progress0[k]) ==> origin1 == origin0 && results1 == results0,
    ensures
        origins_processed(options, log, progress0.update(k, progress0[k] + 1), results1, origin1),
{
    let i = progress0[k];
    let progress1 = progress0.update(k, i + 1);
    if is_reported_at(options, log, k, i) {
        assert forall|n: int| 0 <= n < origin1.len() implies
            reports_at(options, log, origin1[n].0, origin1[n].1, (#[trigger] results1[n])@) by {
            if n < origin0.len() {
                assert(results1[n] == results0[n]);
                assert(reports_at(options, log, origin0[n].0, origin0[n].1, results0[n]@));
            }
        }
        assert forall|n: int, m: int| 0 <= n < origin1.len() && 0 <= m < origin1.len() && n != m
            implies #[trigger] origin1[n] != #[trigger] origin1[m] by {
            if n < origin0.len() && m < origin0.len() {
                assert(origin0[n] != origin0[m]);
            } else if n < origin0.len() {
                assert(origin0[n].1 < progress0[origin0[n].0]);
            } else if m < origin0.len() {
                assert(origin0[m].1 < progress0[origin0[m].0]);
            }
        }
        assert forall|n: int| 0 <= n < origin1.len() implies (#[trigger] origin1[n]).1 < progress1[origin1[n].0] by {
            if n < origin0.len() {
                assert(origin1[n] == origin0[n]);
                assert(results1[n] == results0[n]);
                assert(reports_at(options, log, origin0[n].0, origin0[n].1, results0[n]@));
                assert(origin0[n].1 < progress0[origin0[n].0]);
            }
        }
        assert forall|k2: int, i2: int| #[trigger] is_reported_at(options, log, k2, i2) && i2 < progress1[k2]
            implies exists|n: int| 0 <= n < origin1.len() && origin1[n] == (k2, i2) by {
            if k2 == k && i2 == i {
                assert(origin1[origin0.len() as int] == (k2, i2));
            } else {
                assert(i2 < progress0[k2]);
                let n = choose|n: int| 0 <= n < origin0.len() && origin0[n] == (k2, i2);
                assert(origin1[n] == origin0[n]);
            }
        }
    } else {
        assert forall|n: int| 0 <= n < origin1.len() implies (#[trigger] origin1[n]).1 < progress1[origin1[n].0] by {
            assert(reports_at(options, log, origin0[n].0, origin0[n].1, results0[n]@));
            assert(origin0[n].1 < progress0[origin0[n].0]);
        }
        assert forall|k2: int, i2: int| #[trigger] is_reported_at(options, log, k2, i2) && i2 < progress1[k2]
            implies exists|n: int| 0 <= n < origin1.len() && origin1[n] == (k2, i2) by {
            assert(i2 < progress0[k2]);
        }
    }
}

/// Whether `e` is the error of the one item, among the first `progress[k]`
/// items of each listed directory `k`, whose failure the options do not skip.
pub open spec fn sole_fatal_error(options: FindOptions, log: Seq<Listed>, progress: Seq<int>, e: crate::errors::ErrorView) -> bool {
    exists|k: int, i: int| {
        &&& 0 <= k < log.len() && 0 <= i < progress[k]
        &&& #[trigger] is_fatal_at(options, log, k, i)
        &&& e == error_at(log, k, i)
        &&& forall|k2: int, i2: int| 0 <= k2 < log.len() && 0 <= i2 < progress[k2] && #[trigger] is_fatal_at(options, log, k2, i2)
            ==> k2 == k && i2 == i
    }
}

/// Whether the entries reported for the items of each listed directory `k`
/// other than the first all come at or after `start[k]`, and the entry of
/// the item that `k` was descended into from comes before, at `parent[k]`.
pub open spec fn parents_ok(
    options: FindOptions,
    log: Seq<Listed>,
    origin: Seq<(int, int)>,
    start: Seq<int>,
    parent: Seq<int>,
    results_len: int,
) -> bool {
    &&& start.len() == log.len() && parent.len() == log.len()
    &&& forall|k: int| 0 <= k < log.len() ==> #[trigger] start[k] <= results_len
    &&& forall|n: int| 0 <= n < origin.len() ==> n >= start[(#[trigger] origin[n]).0]
    &&& forall|k: int| 1 <= k < log.len() ==> {
        let m = #[trigger] parent[k];
        &&& 0 <= m < start[k]
        &&& descends_at(options, log, origin[m].0, origin[m].1)
        &&& log[k].dir == subdir_at(log, origin[m].0, origin[m].1)
    }
}

/// Listing one more directory, descended into from the item whose entry is
/// at `m`, keeps the parents first.
proof fn lemma_parents_appended(
    options: FindOptions,
    log0: Seq<Listed>,
    entry: Listed,
    origin: Seq<(int, int)>,
    start0: Seq<int>,
    parent0: Seq<int>,
    results_len: int,
    m: int,
)
    requires
        parents_ok(options, log0, origin, start0, parent0, results_len),
        origin.len() == results_len,
        forall|n: int| 0 <= n < origin.len() ==> 0 <= (#[trigger] origin[n]).0 < log0.len(),
        log0.len() > 0 ==> 0 <= m < origin.len() && descends_at(options, log0, origin[m].0, origin[m].1)
            && entry.dir == subdir_at(log0, origin[m].0, origin[m].1),
    ensures
        parents_ok(options, log0.push(entry), origin, start0.push(results_len), parent0.push(m), results_len),
{
    let log = log0.push(entry);
    let start = start0.push(results_len);
    let parent = parent0.push(m);
    assert forall|n: int| 0 <= n < origin.len() implies n >= start[(#[trigger] origin[n]).0] by {
        assert(start[origin[n].0] == start0[origin[n].0]);
    }
    assert forall|k: int| 1 <= k < log.len() implies {
        let mm = #[trigger] parent[k];
        &&& 0 <= mm < start[k]
        &&& descends_at(options, log, origin[mm].0, origin[mm].1)
        &&& log[k].dir == subdir_at(log, origin[mm].0, origin[mm].1)
    } by {
        let mm = parent[k];
        let j = origin[mm].0;
        if k < log0.len() {
            assert(parent[k] == parent0[k]);
            assert(log[k] == log0[k]);
        }
        assert(log[j] == log0[j]);
    }
    assert forall|k: int| 0 <= k < log.len() implies #[trigger] start[k] <= results_len by {
        if k < log0.len() {
            assert(start[k] == start0[k]);
        }
    }
}

/// Work left on a stack of frames: each frame and each item not yet reported.
spec fn work_left(frames: Seq<Frame>) -> nat
    decreases frames.len(),
{
    if frames.len() == 0 {
        0
    } else {
        work_left(frames.drop_last()) + frames.last().remaining@.len() + 1
    }
}

/// The sequential walker. It asks for one directory listing at a time and
/// reports entries in depth-first pre-order: each child right after its
/// parent's earlier children and their subtrees.
pub struct SequentialWalk {
    options: FindOptions,
    frames: Vec<Frame>,
    awaiting: Option<PendingDir>,
    results: Vec<Entry>,
    aborted: bool,
    root: Ghost<DirView>,
    log: Ghost<Seq<Listed>>,
    progress: Ghost<Seq<int>>,
    frame_log: Ghost<Seq<int>>,
    origin: Ghost<Seq<(int, int)>>,
    list_start: Ghost<Seq<int>>,
    parent_pos: Ghost<Seq<int>>,
    awaiting_parent: Ghost<int>,
}

impl SequentialWalk {
    /// The options of the walk.
    pub closed spec fn spec_options(&self) -> FindOptions {
        self.options
    }

    /// The root of the walk.
    pub closed spec fn spec_root(&self) -> DirView {
        self.root@
    }

    /// The directories listed so far, with what was read in each.
    pub closed spec fn spec_log(&self) -> Seq<Listed> {
        self.log@
    }

    /// The entries reported so far, in order.
    pub closed spec fn spec_results(&self) -> Seq<Entry> {
        self.results@
    }

    /// The directory to be listed next, if any.
    pub closed spec fn spec_awaiting(&self) -> Option<DirView> {
        match self.awaiting {
            Some(d) => Some(d@),
            None => None,
        }
    }

    /// Whether the walk stopped on a failure that the options do not skip.
    pub closed spec fn is_aborted(&self) -> bool {
        self.aborted
    }

    /// For each reported entry, in order, the listed item it was reported
    /// for: the index of the listed directory and of the item in its listing.
    pub closed spec fn spec_origin(&self) -> Seq<(int, int)> {
        self.origin@
    }

    /// For each listed directory after the first, the position among the
    /// results of the entry of the item it was descended into from.
    pub closed spec fn spec_parent_pos(&self) -> Seq<int> {
        self.parent_pos@
    }

    /// Whether item `i` of the `k`-th listed directory has been dealt with.
    pub closed spec fn is_processed(&self, k: int, i: int) -> bool {
        0 <= k < self.log@.len() && 0 <= i < self.progress@[k]
    }

    /// Whether the walk ran to its end without a fatal failure.
    pub open spec fn is_complete(&self) -> bool {
        self.spec_awaiting() is None && !self.is_aborted()
    }

    spec fn frames_match(&self) -> bool {
        let log = self.log@;
        let progress = self.progress@;
        let fl = self.frame_log@;
        &&& self.frames@.len() == fl.len()
        &&& forall|f: int| 0 <= f < fl.len() ==> 0 <= #[trigger] fl[f] < log.len()
        &&& forall|f: int, g: int| 0 <= f < g < fl.len() ==> #[trigger] fl[f] < #[trigger] fl[g]
        &&& forall|f: int| 0 <= f < fl.len() ==> {
            let k = #[trigger] fl[f];
            let fr = self.frames@[f];
            &&& fr.dir@ == log[k].dir
            &&& fr.remaining@.len() + progress[k] == log[k].items.len()
            &&& forall|j: int| 0 <= j < fr.remaining@.len()
                ==> item_view(#[trigger] fr.remaining@[j]) == log[k].items[log[k].items.len() - 1 - j]
        }
        &&& forall|k: int| 0 <= k < log.len() && progress[k] < log[k].items.len() ==> fl.contains(k)
    }

    spec fn parents_first(&self) -> bool {
        let log = self.log@;
        let origin = self.origin@;
        &&& parents_ok(self.options, log, origin, self.list_start@, self.parent_pos@, self.results@.len() as int)
        &&& match self.awaiting {
            Some(d) => log.len() > 0 ==> {
                let m = self.awaiting_parent@;
                &&& 0 <= m < origin.len()
                &&& descends_at(self.options, log, origin[m].0, origin[m].1)
                &&& d@ == subdir_at(log, origin[m].0, origin[m].1)
            },
            None => true,
        }
        &&& forall|k1: int, k2: int| 1 <= k1 < k2 < log.len() ==> #[trigger] self.parent_pos@[k1] != #[trigger] self.parent_pos@[k2]
        &&& !self.aborted ==> forall|m: int| 0 <= m < origin.len() && #[trigger] descends_at(self.options, log, origin[m].0, origin[m].1)
            ==> (exists|k: int| 1 <= k < log.len() && self.parent_pos@[k] == m)
                || (self.awaiting is Some && self.awaiting_parent@ == m)
        &&& self.awaiting is Some ==> forall|k: int| 1 <= k < log.len() ==> #[trigger] self.parent_pos@[k] != self.awaiting_parent@
    }

    spec fn awaiting_reached(&self) -> bool {
        match self.awaiting {
            Some(d) => {
                ||| self.log@.len() == 0 && d@ == self.root@
                ||| exists|j: int, i: int|
                    #[trigger] descends_at(self.options, self.log@, j, i) && i < self.progress@[j]
                        && d@ == subdir_at(self.log@, j, i)
            },
            None => true,
        }
    }

    spec fn inv_core(&self) -> bool {
        let log = self.log@;
        let progress = self.progress@;
        &&& progress.len() == log.len()
        &&& forall|k: int| 0 <= k < log.len() ==> 0 <= #[trigger] progress[k] <= log[k].items.len()
        &&& forall|k: int| 0 <= k < log.len() ==> (#[trigger] log[k]).dir.depth < usize::MAX
            && within_depth(self.options, log[k].dir.depth as int)
        &&& self.root@.depth == 0
        &&& grounded(self.options, self.root@, log)
        &&& !self.aborted ==> forall|j: int, i: int| #[trigger] descends_at(self.options, log, j, i) && i < progress[j]
            ==> lists(log, subdir_at(log, j, i)) || self.spec_awaiting() == Some(subdir_at(log, j, i))
        &&& self.awaiting_reached()
        &&& !self.aborted ==> self.frames_match()
        &&& self.aborted ==> self.frame_log@.len() == 0
        &&& entry_set(self.results@) == processed_entries(self.options, log, progress)
        &&& origins_processed(self.options, log, progress, self.results@, self.origin@)
        &&& self.parents_first()
        &&& entries_in_bounds(self.options, self.results@)
        &&& self.aborted ==> self.frames@.len() == 0 && self.awaiting is None
        &&& !self.aborted ==> !fatal_seen(self.options, log, progress)
        &&& log.len() == 0 ==> self.awaiting is Some || self.aborted
    }

    /// The walk's internal consistency.
    pub closed spec fn wf(&self) -> bool {
        &&& self.inv_core()
        &&& self.awaiting is None ==> self.frames@.len() == 0
    }

    /// A walk from `root` (at depth zero), which is the first directory to list.
    pub fn new(root: PendingDir, options: FindOptions) -> (r: Self)
        requires
            root.depth == 0,
        ensures
            r.wf(),
            r.spec_options() == options,
            r.spec_root() == root@,
            r.spec_awaiting() == Some(root@),
            r.spec_log().len() == 0,
            r.spec_results().len() == 0,
            !r.is_aborted(),
    {
        let ghost root_view = root@;
        let r = SequentialWalk {
            options,
            frames: Vec::new(),
            awaiting: Some(root),
            results: Vec::new(),
            aborted: false,
            root: Ghost(root_view),
            log: Ghost(Seq::empty()),
            progress: Ghost(Seq::empty()),
            frame_log: Ghost(Seq::empty()),
            origin: Ghost(Seq::empty()),
            list_start: Ghost(Seq::empty()),
            parent_pos: Ghost(Seq::empty()),
            awaiting_parent: Ghost(0),
        };
        assert(entry_set(r.results@) =~= processed_entries(options, Seq::empty(), Seq::empty()));
        r
    }

    /// The directory to be listed next; none once the walk has ended.
    pub fn next_directory(&self) -> (r: Option<&PendingDir>)
        ensures
            match r {
                Some(d) => self.spec_awaiting() == Some(d@),
                None => self.spec_awaiting() is None,
            },
    {
        match &self.awaiting {
            Some(d) => Some(d),
            None => None,
        }
    }

    /// Whether the walk has ended, completely or on a fatal failure.
    pub fn is_finished(&self) -> (r: bool)
        ensures
            r == (self.spec_awaiting() is None),
    {
        self.awaiting.is_none()
    }

    /// The entries reported so far, in order.
    pub fn results(&self) -> (r: &Vec<Entry>)
        ensures
            r@ == self.spec_results(),
    {
        &self.results
    }

    /// The entries reported, in order.
    pub fn into_results(self) -> (r: Vec<Entry>)
        ensures
            r@ == self.spec_results(),
    {
        self.results
    }
}

impl SequentialWalk {
    /// Whether a failure that the options do not skip has been met.
    pub closed spec fn met_fatal(&self) -> bool {
        fatal_seen(self.options, self.log@, self.progress@)
    }

    /// Reports the items of the frames on the stack, last frame first, until
    /// a directory must be listed, the stack is empty, or a failure is fatal.
    #[verifier::rlimit(60)]
    fn advance(&mut self) -> (r: Result<(), FindError>)
        requires
            old(self).inv_core(),
            old(self).awaiting is None,
            !old(self).aborted,
        ensures
            final(self).wf(),
            final(self).options == old(self).options,
            final(self).root == old(self).root,
            final(self).log == old(self).log,
            final(self).spec_results().len() >= old(self).spec_results().len(),
            old(self).spec_results() == final(self).spec_results().take(old(self).spec_results().len() as int),
            r is Err <==> final(self).aborted,
            r is Err <==> final(self).met_fatal(),
            r is Err ==> sole_fatal_error(final(self).options, final(self).log@, final(self).progress@, r->Err_0@),
    {
        let ghost results0 = self.results@;
        loop
            invariant_except_break
                self.awaiting is None,
                !self.aborted,
            invariant
                self.inv_core(),
                self.options == old(self).options,
                self.root == old(self).root,
                self.log == old(self).log,
                results0 == old(self).results@,
                self.results@.len() >= results0.len(),
                results0 == self.results@.take(results0.len() as int),
                !self.aborted,
                !self.met_fatal(),
            ensures
                self.wf(),
                !self.aborted,
                !self.met_fatal(),
            decreases work_left(self.frames@),
        {
            let ghost frames0 = self.frames@;
            let ghost fl0 = self.frame_log@;
            let ghost progress0 = self.progress@;
            let ghost log = self.log@;
            assert(self.frames_match());
            assert(forall|kk: int| 0 <= kk < log.len() && #[trigger] progress0[kk] < log[kk].items.len() ==> fl0.contains(kk));
            let mut frame = match self.frames.pop() {
                Some(f) => f,
                None => {
                    break;
                },
            };
            assert(self.frames@ == frames0.drop_last());
            let ghost f_top = frames0.len() - 1;
            let ghost k = fl0[f_top];
            assert(frame.remaining@.len() + progress0[k] == log[k].items.len());
            assert(frame.dir@ == log[k].dir);
            match frame.remaining.pop() {
                None => {
                    proof {
                        self.frame_log@ = fl0.drop_last();
                        assert forall|kk: int| 0 <= kk < log.len() && progress0[kk] < log[kk].items.len()
                            implies self.frame_log@.contains(kk) by {
                            assert(fl0.contains(kk));
                            let f = choose|f: int| 0 <= f < fl0.len() && fl0[f] == kk;
                            if f == f_top {
                                assert(false);
                            }
                            assert(self.frame_log@[f] == kk);
                        }
                    }
                },
                Some(item) => {
                    let ghost i = progress0[k];
                    assert(item_view(item) == log[k].items[i]);
                    proof {
                        self.progress@ = progress0.update(k, i + 1);
                        lemma_processed_step(self.options, log, progress0, k);
                    }
                    let ghost results_b = self.results@;
                    let ghost origin_b = self.origin@;
                    match item {
                        Err(failure) => {
                            proof {
                                lemma_origin_step(self.options, log, progress0, k, results_b, origin_b, results_b, origin_b);
                            }
                            if !failure_is_ignored(&self.options, failure.kind) {
                                proof {
                                    assert(is_fatal_at(self.options, log, k, i));
                                    assert forall|k2: int, i2: int| 0 <= k2 < log.len() && 0 <= i2 < self.progress@[k2]
                                        && #[trigger] is_fatal_at(self.options, log, k2, i2) implies k2 == k && i2 == i by {
                                        if k2 != k || i2 != i {
                                            assert(0 <= i2 < progress0[k2]);
                                            assert(fatal_seen(self.options, log, progress0));
                                        }
                                    }
                                }
                                self.aborted = true;
                                self.frames = Vec::new();
                                proof {
                                    self.frame_log@ = Seq::empty();
                                }
                                return Err(FindError::from_failure(&failure));
                            }
                            self.frames.push(frame);
                            assert(self.frames@.drop_last() =~= frames0.drop_last());
                        },
                        Ok(child) => {
                            if reports(&self.options, child.name.as_str()) {
                                let e = entry_for(&self.options, &frame.dir, &child);
                                proof {
                                    lemma_entry_set_push(self.results@, e);
                                    self.origin@ = self.origin@.push((k, i));
                                }
                                self.results.push(e);
                                assert(self.results@.drop_last() =~= results_b);
                            }
                            proof {
                                lemma_origin_step(self.options, log, progress0, k, results_b, origin_b, self.results@, self.origin@);
                            }
                            if should_descend(&self.options, &frame.dir, &child) {
                                let sub = subdir_for(&frame.dir, &child);
                                assert(descends_at(self.options, log, k, i));
                                assert(sub@ == subdir_at(log, k, i));
                                proof {
                                    assert(is_reported_at(self.options, log, k, i));
                                    assert(self.origin@[self.origin@.len() - 1] == (k, i));
                                    self.awaiting_parent@ = self.origin@.len() - 1;
                                }
                                self.frames.push(frame);
                                self.awaiting = Some(sub);
                                return Ok(());
                            }
                            assert(!descends_at(self.options, log, k, i));
                            assert forall|m: int| 0 <= m < self.origin@.len()
                                && #[trigger] descends_at(self.options, log, self.origin@[m].0, self.origin@[m].1)
                                implies (exists|kk: int| 1 <= kk < log.len() && self.parent_pos@[kk] == m) by {
                                if m < origin_b.len() {
                                    assert(self.origin@[m] == origin_b[m]);
                                } else {
                                    assert(self.origin@[m] == (k, i));
                                }
                            }
                            self.frames.push(frame);
                            assert(self.frames@.drop_last() =~= frames0.drop_last());
                        },
                    }
                },
            }
            assert(parents_ok(self.options, self.log@, self.origin@, self.list_start@, self.parent_pos@, self.results@.len() as int));
            assert(forall|k1: int, k2: int| 1 <= k1 < k2 < self.log@.len() ==> #[trigger] self.parent_pos@[k1] != #[trigger] self.parent_pos@[k2]);
            assert(forall|m: int| 0 <= m < self.origin@.len() && #[trigger] descends_at(self.options, self.log@, self.origin@[m].0, self.origin@[m].1)
                ==> (exists|k: int| 1 <= k < self.log@.len() && self.parent_pos@[k] == m));
            assert(self.parents_first());
            assert(origins_processed(self.options, self.log@, self.progress@, self.results@, self.origin@));
            assert(self.frames_match());
        }
        Ok(())
    }
}

impl SequentialWalk {
    /// Hands in the listing of the directory named by `next_directory`. A
    /// directory that cannot be read is skipped, or ends the walk, as the
    /// options say of its failure. The walk then reports the items up to
    /// the next directory to list, the end of the walk, or the first item
    /// whose failure the options do not skip, which ends the walk. With no
    /// directory to list, nothing changes.
    pub fn supply(&mut self, listing: Listing) -> (r: Result<(), FindError>)
        requires
            old(self).wf(),
        ensures
            final(self).wf(),
            final(self).spec_options() == old(self).spec_options(),
            final(self).spec_root() == old(self).spec_root(),
            old(self).spec_results() == final(self).spec_results().take(old(self).spec_results().len() as int),
            old(self).spec_awaiting() is None ==> r is Ok && final(self).spec_log() == old(self).spec_log()
                && final(self).spec_results() == old(self).spec_results()
                && final(self).is_aborted() == old(self).is_aborted(),
            old(self).spec_awaiting() is Some && listing is Ok ==> final(self).spec_log() == old(self).spec_log().push(
                Listed { dir: old(self).spec_awaiting()->Some_0, items: items_view(listing->Ok_0@) }),
            old(self).spec_awaiting() is Some && listing is Err && is_ignored(old(self).spec_options(), listing->Err_0.kind)
                ==> final(self).spec_log() == old(self).spec_log().push(
                Listed { dir: old(self).spec_awaiting()->Some_0, items: Seq::empty() }),
            old(self).spec_awaiting() is Some && listing is Err && !is_ignored(old(self).spec_options(), listing->Err_0.kind)
                ==> r is Err && r->Err_0@ == error_of_failure(listing->Err_0.kind, listing->Err_0.path@, listing->Err_0.message@)
                && final(self).is_aborted(),
            old(self).spec_awaiting() is Some ==> (r is Err <==> final(self).is_aborted()),
            old(self).spec_awaiting() is Some && !(listing is Err && !is_ignored(old(self).spec_options(), listing->Err_0.kind))
                ==> (r is Err <==> final(self).met_fatal()),
            r is Err && !(listing is Err && !is_ignored(old(self).spec_options(), listing->Err_0.kind))
                ==> exists|k: int, i: int| {
                    &&& final(self).is_processed(k, i)
                    &&& #[trigger] is_fatal_at(final(self).spec_options(), final(self).spec_log(), k, i)
                    &&& r->Err_0@ == error_at(final(self).spec_log(), k, i)
                    &&& forall|k2: int, i2: int| final(self).is_processed(k2, i2)
                        && #[trigger] is_fatal_at(final(self).spec_options(), final(self).spec_log(), k2, i2) ==> k2 == k && i2 == i
                },
            final(self).met_fatal() <==> exists|k: int, i: int| final(self).is_processed(k, i)
                && #[trigger] is_fatal_at(final(self).spec_options(), final(self).spec_log(), k, i),
            origin_reports(final(self).spec_options(), final(self).spec_log(), final(self).spec_results(), final(self).spec_origin()),
            forall|n: int| 0 <= n < final(self).spec_origin().len()
                ==> final(self).is_processed((#[trigger] final(self).spec_origin()[n]).0, final(self).spec_origin()[n].1),
            forall|k: int, i: int| final(self).is_processed(k, i) && #[trigger] is_reported_at(final(self).spec_options(), final(self).spec_log(), k, i)
                ==> exists|n: int| 0 <= n < final(self).spec_origin().len() && final(self).spec_origin()[n] == (k, i),
            final(self).spec_awaiting() is Some ==> exists|j: int, i: int|
                #[trigger] descends_at(final(self).spec_options(), final(self).spec_log(), j, i)
                && final(self).spec_awaiting()->Some_0 == subdir_at(final(self).spec_log(), j, i),
    {
        let r = self.supply_listing(listing);
        proof {
            self.lemma_state();
        }
        r
    }

    /// The work of [`SequentialWalk::supply`].
    fn supply_listing(&mut self, listing: Listing) -> (r: Result<(), FindError>)
        requires
            old(self).wf(),
        ensures
            final(self).wf(),
            final(self).spec_options() == old(self).spec_options(),
            final(self).spec_root() == old(self).spec_root(),
            old(self).spec_results() == final(self).spec_results().take(old(self).spec_results().len() as int),
            old(self).spec_awaiting() is None ==> r is Ok && final(self).spec_log() == old(self).spec_log()
                && final(self).spec_results() == old(self).spec_results()
                && final(self).is_aborted() == old(self).is_aborted(),
            old(self).spec_awaiting() is Some && listing is Ok ==> final(self).spec_log() == old(self).spec_log().push(
                Listed { dir: old(self).spec_awaiting()->Some_0, items: items_view(listing->Ok_0@) }),
            old(self).spec_awaiting() is Some && listing is Err && is_ignored(old(self).spec_options(), listing->Err_0.kind)
                ==> final(self).spec_log() == old(self).spec_log().push(
                Listed { dir: old(self).spec_awaiting()->Some_0, items: Seq::empty() }),
            old(self).spec_awaiting() is Some && listing is Err && !is_ignored(old(self).spec_options(), listing->Err_0.kind)
                ==> r is Err && r->Err_0@ == error_of_failure(listing->Err_0.kind, listing->Err_0.path@, listing->Err_0.message@)
                && final(self).is_aborted(),
            old(self).spec_awaiting() is Some ==> (r is Err <==> final(self).is_aborted()),
            old(self).spec_awaiting() is Some && !(listing is Err && !is_ignored(old(self).spec_options(), listing->Err_0.kind))
                ==> (r is Err <==> final(self).met_fatal()),
            r is Err && !(listing is Err && !is_ignored(old(self).spec_options(), listing->Err_0.kind))
                ==> sole_fatal_error(final(self).options, final(self).log@, final(self).progress@, r->Err_0@),
    {
        let ghost pp0 = self.parent_pos@;
        let ghost ap0 = self.awaiting_parent@;
        let ghost origin0 = self.origin@;
        let ghost logb = self.log@;
        proof {
            if self.awaiting is Some {
                assert(forall|k: int| 1 <= k < logb.len() ==> #[trigger] pp0[k] != ap0);
                assert(!self.aborted);
                assert(forall|m: int| 0 <= m < origin0.len() && #[trigger] descends_at(self.options, logb, origin0[m].0, origin0[m].1)
                ==> (exists|k: int| 1 <= k < logb.len() && pp0[k] == m) || (self.awaiting is Some && ap0 == m));
            }
        }
        let dir = match self.awaiting.take() {
            Some(d) => d,
            None => {
                return Ok(());
            },
        };
        let ghost log0 = self.log@;
        let ghost progress0 = self.progress@;
        let ghost start0 = self.list_start@;
        let ghost parent0 = self.parent_pos@;
        let ghost ap = self.awaiting_parent@;
        let ghost frames0 = self.frames@;
        proof {
            assert forall|n: int| 0 <= n < self.origin@.len() implies 0 <= (#[trigger] self.origin@[n]).0 < log0.len() by {
                assert(reports_at(self.options, log0, self.origin@[n].0, self.origin@[n].1, self.results@[n]@));
            }
        }
        let ghost fl0 = self.frame_log@;
        assert(self.frames_match());
        assert(forall|kk: int| 0 <= kk < log0.len() && #[trigger] progress0[kk] < log0[kk].items.len() ==> fl0.contains(kk));
        assert(dir.depth < usize::MAX && within_depth(self.options, dir.depth as int)) by {
            if log0.len() > 0 {
                let (j, i) = choose|j: int, i: int|
                    #[trigger] descends_at(self.options, log0, j, i) && i < progress0[j]
                        && dir@ == subdir_at(log0, j, i);
            }
        }
        match listing {
            Err(failure) => {
                if !failure_is_ignored(&self.options, failure.kind) {
                    self.aborted = true;
                    self.frames = Vec::new();
                    proof {
                        self.frame_log@ = Seq::empty();
                    }
                    return Err(FindError::from_failure(&failure));
                }
                proof {
                    let entry = Listed { dir: dir@, items: Seq::empty() };
                    self.log@ = log0.push(entry);
                    self.progress@ = progress0.push(0);
                    self.lemma_appended(log0, progress0, entry);
                    self.lemma_listed_awaiting(log0, progress0, entry);
                    lemma_parents_appended(self.options, log0, entry, self.origin@, start0, parent0, self.results@.len() as int, ap);
                    self.list_start@ = start0.push(self.results@.len() as int);
                    self.parent_pos@ = parent0.push(ap);
                    self.lemma_listed_once_appended(log0, entry, parent0, ap);
                    let n = log0.len() as int;
                    let log = self.log@;
                    let progress = self.progress@;
                    assert forall|f: int| 0 <= f < fl0.len() implies
                        log[fl0[f]] == log0[fl0[f]] && progress[fl0[f]] == progress0[fl0[f]] by {}
                    assert forall|kk: int| 0 <= kk < log.len() && #[trigger] progress[kk] < log[kk].items.len()
                        implies fl0.contains(kk) by {
                        assert(kk < n);
                        assert(progress0[kk] < log0[kk].items.len());
                    }
                    assert(self.frames_match());
                }
                self.advance()
            },
            Ok(items) => {
                let ghost entry = Listed { dir: dir@, items: items_view(items@) };
                let remaining = reversed(items);
                proof {
                    self.log@ = log0.push(entry);
                    self.progress@ = progress0.push(0);
                    self.lemma_appended(log0, progress0, entry);
                }
                self.frames.push(Frame { dir, remaining });
                proof {
                    self.frame_log@ = fl0.push(log0.len() as int);
                    self.lemma_listed_awaiting(log0, progress0, entry);
                    lemma_parents_appended(self.options, log0, entry, self.origin@, start0, parent0, self.results@.len() as int, ap);
                    self.list_start@ = start0.push(self.results@.len() as int);
                    self.parent_pos@ = parent0.push(ap);
                    self.lemma_listed_once_appended(log0, entry, parent0, ap);
                    let n = log0.len() as int;
                    let fl = self.frame_log@;
                    let log = self.log@;
                    let progress = self.progress@;
                    assert forall|f: int| 0 <= f < fl0.len() implies fl[f] == fl0[f] && self.frames@[f] == frames0[f]
                        && log[fl0[f]] == log0[fl0[f]] && progress[fl0[f]] == progress0[fl0[f]] by {}
                    let top = self.frames@[fl0.len() as int];
                    assert forall|j: int| 0 <= j < top.remaining@.len()
                        implies item_view(#[trigger] top.remaining@[j]) == log[n].items[log[n].items.len() - 1 - j] by {}
                    assert forall|kk: int| 0 <= kk < log.len() && #[trigger] progress[kk] < log[kk].items.len()
                        implies fl.contains(kk) by {
                        if kk < n {
                            assert(progress0[kk] < log0[kk].items.len());
                            let f = choose|f: int| 0 <= f < fl0.len() && fl0[f] == kk;
                            assert(fl[f] == kk);
                        } else {
                            assert(fl[fl0.len() as int] == kk);
                        }
                    }
                    assert(self.frames_match());
                }
                self.advance()
            },
        }
    }

    /// Listing the awaited directory, descended into from the item whose
    /// entry is at `ap`, keeps each descended item listed once.
    proof fn lemma_listed_once_appended(&self, log0: Seq<Listed>, entry: Listed, parent0: Seq<int>, ap: int)
        requires
            self.log@ == log0.push(entry),
            self.parent_pos@ == parent0.push(ap),
            parent0.len() == log0.len(),
            self.awaiting is None,
            !self.aborted,
            forall|n: int| 0 <= n < self.origin@.len() ==> 0 <= (#[trigger] self.origin@[n]).0 < log0.len(),
            forall|k1: int, k2: int| 1 <= k1 < k2 < log0.len() ==> #[trigger] parent0[k1] != #[trigger] parent0[k2],
            log0.len() > 0 ==> forall|k: int| 1 <= k < log0.len() ==> #[trigger] parent0[k] != ap,
            forall|m: int| 0 <= m < self.origin@.len() && #[trigger] descends_at(self.options, log0, self.origin@[m].0, self.origin@[m].1)
                ==> (exists|k: int| 1 <= k < log0.len() && parent0[k] == m) || (log0.len() > 0 && ap == m),
        ensures
            forall|k1: int, k2: int| 1 <= k1 < k2 < self.log@.len() ==> #[trigger] self.parent_pos@[k1] != #[trigger] self.parent_pos@[k2],
            forall|m: int| 0 <= m < self.origin@.len() && #[trigger] descends_at(self.options, self.log@, self.origin@[m].0, self.origin@[m].1)
                ==> (exists|k: int| 1 <= k < self.log@.len() && self.parent_pos@[k] == m),
    {
        let log = self.log@;
        let pp = self.parent_pos@;
        let n0 = log0.len() as int;
        assert forall|k1: int, k2: int| 1 <= k1 < k2 < log.len() implies #[trigger] pp[k1] != #[trigger] pp[k2] by {
            if k2 == n0 {
                assert(pp[k1] == parent0[k1]);
            } else {
                assert(pp[k1] == parent0[k1] && pp[k2] == parent0[k2]);
            }
        }
        assert forall|m: int| 0 <= m < self.origin@.len() && #[trigger] descends_at(self.options, log, self.origin@[m].0, self.origin@[m].1)
            implies (exists|k: int| 1 <= k < log.len() && pp[k] == m) by {
            let j = self.origin@[m].0;
            assert(log[j] == log0[j]);
            assert(descends_at(self.options, log0, j, self.origin@[m].1));
            if exists|k: int| 1 <= k < log0.len() && parent0[k] == m {
                let k = choose|k: int| 1 <= k < log0.len() && parent0[k] == m;
                assert(pp[k] == m);
            } else {
                assert(pp[n0] == m);
            }
        }
    }

    /// Listing the awaited directory keeps the log grounded and the closure
    /// of the reported items.
    proof fn lemma_listed_awaiting(&self, log0: Seq<Listed>, progress0: Seq<int>, entry: Listed)
        requires
            self.log@ == log0.push(entry),
            self.progress@ == progress0.push(0),
            progress0.len() == log0.len(),
            grounded(self.options, self.root@, log0),
            log0.len() == 0 ==> entry.dir == self.root@,
            log0.len() > 0 ==> exists|j: int, i: int|
                #[trigger] descends_at(self.options, log0, j, i) && i < progress0[j] && entry.dir == subdir_at(log0, j, i),
            forall|j: int, i: int| #[trigger] descends_at(self.options, log0, j, i) && i < progress0[j]
                ==> lists(log0, subdir_at(log0, j, i)) || entry.dir == subdir_at(log0, j, i),
            self.awaiting is None,
        ensures
            grounded(self.options, self.root@, self.log@),
            forall|j: int, i: int| #[trigger] descends_at(self.options, self.log@, j, i) && i < self.progress@[j]
                ==> lists(self.log@, subdir_at(self.log@, j, i)),
    {
        let log = self.log@;
        let n = log0.len() as int;
        assert forall|j: int, i: int| 0 <= j < n && #[trigger] descends_at(self.options, log0, j, i)
            implies descends_at(self.options, log, j, i) && subdir_at(log, j, i) == subdir_at(log0, j, i) by {
            assert(log[j] == log0[j]);
        }
        assert forall|k: int| 1 <= k < log.len() implies #[trigger] super::walk_log::reached_before(self.options, self.root@, log, k) by {
            if k < n {
                assert(super::walk_log::reached_before(self.options, self.root@, log0, k));
                if log0[k].dir != self.root@ {
                    let (j, i) = choose|j: int, i: int|
                        0 <= j < k && #[trigger] descends_at(self.options, log0, j, i) && log0[k].dir == subdir_at(log0, j, i);
                    assert(descends_at(self.options, log, j, i));
                    assert(log[k] == log0[k]);
                }
                assert(log[k] == log0[k]);
            } else {
                let (j, i) = choose|j: int, i: int|
                    #[trigger] descends_at(self.options, log0, j, i) && i < progress0[j] && entry.dir == subdir_at(log0, j, i);
                assert(descends_at(self.options, log, j, i));
            }
        }
        assert forall|j: int, i: int| #[trigger] descends_at(self.options, log, j, i) && i < self.progress@[j]
            implies lists(log, subdir_at(log, j, i)) by {
            if j < n {
                assert(log[j] == log0[j]);
                assert(descends_at(self.options, log0, j, i));
                if lists(log0, subdir_at(log0, j, i)) {
                    let m = choose|m: int| 0 <= m < log0.len() && (#[trigger] log0[m]).dir == subdir_at(log0, j, i);
                    assert(log[m] == log0[m]);
                } else {
                    assert(log[n] == entry);
                }
            }
        }
    }

    /// Appending a fresh listing to the log keeps the reported entries,
    /// the fatal failures met and the reach of the log.
    proof fn lemma_appended(&self, log0: Seq<Listed>, progress0: Seq<int>, entry: Listed)
        requires
            self.log@ == log0.push(entry),
            self.progress@ == progress0.push(0),
            progress0.len() == log0.len(),
        ensures
            processed_entries(self.options, self.log@, self.progress@) == processed_entries(self.options, log0, progress0),
            origins_processed(self.options, log0, progress0, self.results@, self.origin@)
                ==> origins_processed(self.options, self.log@, self.progress@, self.results@, self.origin@),
            fatal_seen(self.options, self.log@, self.progress@) == fatal_seen(self.options, log0, progress0),
    {
        let log = self.log@;
        let progress = self.progress@;
        assert forall|k: int, i: int, e: EntryView| #[trigger] reports_at(self.options, log, k, i, e) && i < progress[k]
            implies reports_at(self.options, log0, k, i, e) && i < progress0[k] by {
            assert(k < log0.len());
            assert(log[k] == log0[k]);
        }
        assert forall|k: int, i: int, e: EntryView| #[trigger] reports_at(self.options, log0, k, i, e) && i < progress0[k]
            implies reports_at(self.options, log, k, i, e) && i < progress[k] by {
            assert(log[k] == log0[k]);
        }
        assert(processed_entries(self.options, log, progress) =~= processed_entries(self.options, log0, progress0));
        if origins_processed(self.options, log0, progress0, self.results@, self.origin@) {
            let origin = self.origin@;
            let results = self.results@;
            assert forall|n: int| 0 <= n < origin.len() implies
                reports_at(self.options, log, origin[n].0, origin[n].1, (#[trigger] results[n])@)
                && origin[n].1 < progress[origin[n].0] by {
                assert(reports_at(self.options, log0, origin[n].0, origin[n].1, results[n]@));
                assert(log[origin[n].0] == log0[origin[n].0]);
                assert(origin[n].1 < progress0[origin[n].0]);
                assert(progress[origin[n].0] == progress0[origin[n].0]);
            }
            assert(origin_reports(self.options, log, results, origin));
            assert forall|n: int| 0 <= n < origin.len() implies (#[trigger] origin[n]).1 < progress[origin[n].0] by {
                assert(reports_at(self.options, log0, origin[n].0, origin[n].1, results[n]@));
                assert(origin[n].1 < progress0[origin[n].0]);
            }
            assert forall|k: int, i: int| #[trigger] is_reported_at(self.options, log, k, i) && i < progress[k]
                implies exists|n: int| 0 <= n < origin.len() && origin[n] == (k, i) by {
                assert(k < log0.len());
                assert(log[k] == log0[k]);
                assert(is_reported_at(self.options, log0, k, i));
            }
        }
        if fatal_seen(self.options, log, progress) {
            let (k, i) = choose|k: int, i: int|
                0 <= k < log.len() && 0 <= i < progress[k] && #[trigger] item_at(log, k, i) is Err
                    && !is_ignored(self.options, item_at(log, k, i)->Err_0.kind);
            assert(k < log0.len());
            assert(item_at(log0, k, i) == item_at(log, k, i));
        }
        if fatal_seen(self.options, log0, progress0) {
            let (k, i) = choose|k: int, i: int|
                0 <= k < log0.len() && 0 <= i < progress0[k] && #[trigger] item_at(log0, k, i) is Err
                    && !is_ignored(self.options, item_at(log0, k, i)->Err_0.kind);
            assert(item_at(log0, k, i) == item_at(log, k, i));
        }
    }
}

impl SequentialWalk {
    /// Each directory that the walk descends into is listed exactly once:
    /// the listed directories after the first correspond one to one to the
    /// reported items that are descended into, each listed after its item,
    /// save the last such item, whose directory may be the one awaited.
    #[verifier::rlimit(60)]
    pub proof fn lemma_listed_once(&self)
        requires
            self.wf(),
            !self.is_aborted(),
        ensures
            forall|k1: int, k2: int| 1 <= k1 < k2 < self.spec_log().len()
                ==> #[trigger] self.spec_parent_pos()[k1] != #[trigger] self.spec_parent_pos()[k2],
            forall|k: int| 1 <= k < self.spec_log().len() ==> {
                let m = #[trigger] self.spec_parent_pos()[k];
                &&& 0 <= m < self.spec_origin().len()
                &&& descends_at(self.spec_options(), self.spec_log(), self.spec_origin()[m].0, self.spec_origin()[m].1)
                &&& self.spec_log()[k].dir == subdir_at(self.spec_log(), self.spec_origin()[m].0, self.spec_origin()[m].1)
            },
            forall|m: int| 0 <= m < self.spec_origin().len()
                && #[trigger] descends_at(self.spec_options(), self.spec_log(), self.spec_origin()[m].0, self.spec_origin()[m].1)
                ==> (exists|k: int| 1 <= k < self.spec_log().len() && self.spec_parent_pos()[k] == m)
                    || (self.spec_awaiting() == Some(subdir_at(self.spec_log(), self.spec_origin()[m].0, self.spec_origin()[m].1))
                        && forall|k: int| 1 <= k < self.spec_log().len() ==> self.spec_parent_pos()[k] != m),
    {
        assert forall|k: int| 1 <= k < self.log@.len() implies {
            let m = #[trigger] self.parent_pos@[k];
            &&& 0 <= m < self.origin@.len()
        } by {
            assert(self.parent_pos@[k] < self.list_start@[k]);
            assert(self.list_start@[k] <= self.results@.len());
        }
        assert(self.spec_options() == self.options && self.spec_log() == self.log@ && self.spec_origin() == self.origin@
            && self.spec_parent_pos() == self.parent_pos@);
        assert forall|m: int| 0 <= m < self.spec_origin().len()
            && #[trigger] descends_at(self.spec_options(), self.spec_log(), self.spec_origin()[m].0, self.spec_origin()[m].1)
            implies (exists|k: int| 1 <= k < self.spec_log().len() && self.spec_parent_pos()[k] == m)
                || (self.spec_awaiting() == Some(subdir_at(self.spec_log(), self.spec_origin()[m].0, self.spec_origin()[m].1))
                    && forall|k: int| 1 <= k < self.spec_log().len() ==> self.spec_parent_pos()[k] != m) by {
            if !(exists|k: int| 1 <= k < self.log@.len() && self.parent_pos@[k] == m) {
                assert(self.awaiting is Some && self.awaiting_parent@ == m);
                if self.log@.len() == 0 {
                    assert(reports_at(self.options, self.log@, self.origin@[m].0, self.origin@[m].1, self.results@[m]@));
                }
            }
        }
    }

    /// Pre-order: every entry reported for an item of a directory other than
    /// the root comes after the entry reported for that directory itself.
    pub proof fn lemma_parent_first(&self)
        requires
            self.wf(),
        ensures
            forall|n: int| 0 <= n < self.spec_origin().len() && (#[trigger] self.spec_origin()[n]).0 >= 1
                ==> exists|m: int| 0 <= m < n
                    && descends_at(self.spec_options(), self.spec_log(), self.spec_origin()[m].0, self.spec_origin()[m].1)
                    && self.spec_log()[self.spec_origin()[n].0].dir
                        == subdir_at(self.spec_log(), self.spec_origin()[m].0, self.spec_origin()[m].1),
    {
        assert forall|n: int| 0 <= n < self.spec_origin().len() && (#[trigger] self.spec_origin()[n]).0 >= 1
            implies exists|m: int| 0 <= m < n
                && descends_at(self.spec_options(), self.spec_log(), self.spec_origin()[m].0, self.spec_origin()[m].1)
                && self.spec_log()[self.spec_origin()[n].0].dir
                    == subdir_at(self.spec_log(), self.spec_origin()[m].0, self.spec_origin()[m].1) by {
            let k = self.origin@[n].0;
            assert(reports_at(self.options, self.log@, k, self.origin@[n].1, self.results@[n]@));
            let m = self.parent_pos@[k];
            assert(n >= self.list_start@[k]);
            assert(m < n);
        }
    }

    /// A fatal failure met lies in the log, and the directory to list next
    /// (once the root is listed) was descended into from a listed item.
    pub proof fn lemma_state(&self)
        requires
            self.wf(),
        ensures
            self.met_fatal() <==> exists|k: int, i: int| self.is_processed(k, i)
                && #[trigger] is_fatal_at(self.spec_options(), self.spec_log(), k, i),
            origin_reports(self.spec_options(), self.spec_log(), self.spec_results(), self.spec_origin()),
            forall|n: int| 0 <= n < self.spec_origin().len()
                ==> self.is_processed((#[trigger] self.spec_origin()[n]).0, self.spec_origin()[n].1),
            forall|k: int, i: int| self.is_processed(k, i) && #[trigger] is_reported_at(self.spec_options(), self.spec_log(), k, i)
                ==> exists|n: int| 0 <= n < self.spec_origin().len() && self.spec_origin()[n] == (k, i),
            self.spec_awaiting() is Some && self.spec_log().len() > 0 ==> exists|j: int, i: int|
                #[trigger] descends_at(self.spec_options(), self.spec_log(), j, i)
                && self.spec_awaiting()->Some_0 == subdir_at(self.spec_log(), j, i),
    {
        if self.met_fatal() {
            let (k, i) = choose|k: int, i: int|
                0 <= k < self.log@.len() && 0 <= i < self.progress@[k] && #[trigger] item_at(self.log@, k, i) is Err
                    && !is_ignored(self.options, item_at(self.log@, k, i)->Err_0.kind);
            assert(is_fatal_at(self.spec_options(), self.spec_log(), k, i));
            assert(self.is_processed(k, i));
        }
        if exists|k: int, i: int| self.is_processed(k, i) && #[trigger] is_fatal_at(self.spec_options(), self.spec_log(), k, i) {
            let (k, i) = choose|k: int, i: int| self.is_processed(k, i) && #[trigger] is_fatal_at(self.spec_options(), self.spec_log(), k, i);
            assert(item_at(self.log@, k, i) is Err);
            assert(0 <= i < self.progress@[k]);
            assert(fatal_seen(self.options, self.log@, self.progress@));
        }
        assert forall|n: int| 0 <= n < self.spec_origin().len()
            implies self.is_processed((#[trigger] self.spec_origin()[n]).0, self.spec_origin()[n].1) by {
            assert(reports_at(self.options, self.log@, self.origin@[n].0, self.origin@[n].1, self.results@[n]@));
        }
    }

    /// A walk that ran to its end listed its root first and every other
    /// directory from one listed before it; listed every directory it should
    /// descend into; met no failure that the options do not skip; and
    /// reported exactly the entries for the items it read, none of them the
    /// root and all within the depth bound.
    #[verifier::rlimit(60)]
    pub proof fn lemma_complete(&self)
        requires
            self.wf(),
            self.is_complete(),
        ensures
            self.spec_log().len() > 0,
            grounded(self.spec_options(), self.spec_root(), self.spec_log()),
            closed(self.spec_options(), self.spec_log()),
            entry_set(self.spec_results()) == log_entries(self.spec_options(), self.spec_log()),
            entries_in_bounds(self.spec_options(), self.spec_results()),
            origin_reports(self.spec_options(), self.spec_log(), self.spec_results(), self.spec_origin()),
            forall|k: int, i: int| #[trigger] is_reported_at(self.spec_options(), self.spec_log(), k, i)
                ==> exists|n: int| 0 <= n < self.spec_origin().len() && self.spec_origin()[n] == (k, i),
            forall|k: int, i: int| 0 <= k < self.spec_log().len() && 0 <= i < self.spec_log()[k].items.len()
                && #[trigger] item_at(self.spec_log(), k, i) is Err
                ==> is_ignored(self.spec_options(), item_at(self.spec_log(), k, i)->Err_0.kind),
    {
        let log = self.log@;
        let progress = self.progress@;
        assert forall|k: int| 0 <= k < log.len() implies #[trigger] progress[k] == log[k].items.len() by {
            if progress[k] < log[k].items.len() {
                assert(self.frame_log@.contains(k));
            }
        }
        assert forall|e: EntryView| log_entries(self.options, log).contains(e)
            implies processed_entries(self.options, log, progress).contains(e) by {
            let (k, i) = choose|k: int, i: int| #[trigger] reports_at(self.options, log, k, i, e);
            assert(progress[k] == log[k].items.len());
        }
        assert(log_entries(self.options, log) =~= processed_entries(self.options, log, progress));
        assert(origins_processed(self.options, log, progress, self.results@, self.origin@));
        assert(self.spec_options() == self.options && self.spec_log() == log && self.spec_origin() == self.origin@);
        assert forall|k: int, i: int| #[trigger] is_reported_at(self.spec_options(), self.spec_log(), k, i)
            implies exists|n: int| 0 <= n < self.spec_origin().len() && self.spec_origin()[n] == (k, i) by {
            assert(progress[k] == log[k].items.len());
            assert(is_reported_at(self.options, log, k, i) && i < progress[k]);
        }
        assert forall|j: int, i: int| #[trigger] descends_at(self.options, log, j, i)
            implies lists(log, subdir_at(log, j, i)) by {
            assert(progress[j] == log[j].items.len());
        }
        assert forall|k: int, i: int| 0 <= k < log.len() && 0 <= i < log[k].items.len()
            && #[trigger] item_at(log, k, i) is Err implies is_ignored(self.options, item_at(log, k, i)->Err_0.kind) by {
            assert(progress[k] == log[k].items.len());
        }
    }
}

impl SequentialWalk {
    /// Every entry reported so far lies at depth one or more, and at most one
    /// level below the depth bound.
    pub proof fn lemma_in_bounds(&self)
        requires
            self.wf(),
        ensures
            super::walker::entries_in_bounds(self.spec_options(), self.spec_results()),
    {
    }
}

/// Starts sequential walks under fixed options.
pub struct FileWalker {
    options: FindOptions,
}

impl FileWalker {
    /// The options walks are started with.
    pub closed spec fn spec_options(&self) -> FindOptions {
        self.options
    }

    /// A walker with `options`.
    pub fn new(options: &FindOptions) -> (r: Self)
        ensures
            r.spec_options() == *options,
    {
        FileWalker { options: *options }
    }

    /// A walk from `root`, the first directory to list.
    pub fn start(&self, root: PendingDir) -> (r: SequentialWalk)
        requires
            root.depth == 0,
        ensures
            r.wf(),
            r.spec_options() == self.spec_options(),
            r.spec_root() == root@,
            r.spec_awaiting() == Some(root@),
            r.spec_results().len() == 0,
    {
        SequentialWalk::new(root, self.options)
    }
}

} // verus!
