//! A whole scan over an in-memory directory tree.
//!
//! `scan` drives the scheduler over a `ModelDir` tree exactly as the live
//! system drives it over a filesystem: the root's scan unit starts
//! immediately, each completed unit's partial result is merged and its
//! discovered subdirectories queued, and pending directories are dispatched
//! while capacity remains. The postcondition pins down the outcome: the
//! dispatched directories are precisely the ones reachable through readable
//! parents, each exactly once, and the totals are their summed
//! contributions. From that, `lemma_scan_deterministic` proves that two
//! scans of the same tree — whatever their concurrency limits, queue orders
//! or completion orders — agree on every count and on the multiset of
//! matched records.

use vstd::prelude::*;
use vstd::seq_lib::group_to_multiset_ensures;
use vstd::seq_lib::lemma_multiset_commutative;
use vstd::seq_lib::lemma_no_dup_in_concat;
use vstd::multiset::group_multiset_axioms;
use crate::model::{
    ModelDir,
    tree_wf,
    files_weight,
    matched_of,
    kids_of,
    all_ids,
    sum_files,
    matched_ms,
    somes_of,
    lemma_totals_permutation,
    lemma_totals_subset,
    lemma_no_dup_in_range_len,
    lemma_matched_le_total,
};
use crate::processor::{DicomEntry, ScanResult, ScanResultView, spec_merge};
use crate::scheduler::Scheduler;

verus! {

/// What one simulated Directory Scan Unit reports back: which directory it
/// scanned, its partial result, and the subdirectories it discovered.
pub struct UnitOutcome {
    pub id: usize,
    pub partial: ScanResult,
    pub subdirs: Vec<usize>,
}

/// The report of a completed scan unit is faithful to its directory: the
/// counted files, the matched records and the discovered subdirectories are
/// exactly that directory's contribution.
pub open spec fn outcome_ok(tree: Seq<ModelDir>, o: UnitOutcome) -> bool {
    &&& 0 <= (o.id as int) < tree.len()
    &&& o.partial.wf()
    &&& o.partial@.total_file_count == files_weight(tree, o.id as int)
    &&& o.partial@.dicom_entries == matched_of(tree, o.id as int)
    &&& o.subdirs@.map_values(|u: usize| u as int) == kids_of(tree, o.id as int)
}

/// Directory indices as mathematical integers.
pub open spec fn listed_ids(s: Seq<usize>) -> Seq<int> {
    s.map_values(|u: usize| u as int)
}

/// The directories whose scan units are in flight.
pub open spec fn active_ids(active: Seq<UnitOutcome>) -> Seq<int> {
    active.map_values(|o: UnitOutcome| o.id as int)
}

/// Every index in the collection points into the tree.
pub open spec fn in_range(tree: Seq<ModelDir>, s: Seq<int>) -> bool {
    forall|k: int| 0 <= k < s.len() ==> 0 <= #[trigger] s[k] < tree.len()
}

/// The directory was discovered by some already-completed unit's listing.
pub open spec fn discovered_from(tree: Seq<ModelDir>, done: Seq<int>, x: int) -> bool {
    exists|d: int| #[trigger] done.contains(d) && kids_of(tree, d).contains(x)
}

/// A dispatch history that a finished scan leaves behind: the root was
/// dispatched first, no directory twice, every child of a scanned readable
/// directory was dispatched, and everything but the root was somebody's
/// child. Over a well-shaped tree these clauses determine the set of
/// dispatched directories uniquely.
pub open spec fn listing_closed(tree: Seq<ModelDir>, ids: Seq<int>) -> bool {
    &&& ids.len() >= 1
    &&& ids[0] == 0
    &&& ids.no_duplicates()
    &&& in_range(tree, ids)
    &&& forall|k: int, j: int|
        #![trigger kids_of(tree, ids[k])[j]]
        0 <= k < ids.len() && 0 <= j < kids_of(tree, ids[k]).len() ==> ids.contains(
            kids_of(tree, ids[k])[j],
        )
    &&& forall|k: int|
        0 <= k < ids.len() && (#[trigger] ids[k]) != 0 ==> exists|p: int|
            ids.contains(p) && #[trigger] kids_of(tree, p).contains(ids[k])
}

/// Everything a finished scan promises: a closed dispatch history, the
/// directory count equal to the number of dispatched directories, and the
/// totals equal to those directories' summed contributions.
pub open spec fn scan_post(
    tree: Seq<ModelDir>,
    ids: Seq<int>,
    result: ScanResultView,
    dir_count: int,
) -> bool {
    &&& listing_closed(tree, ids)
    &&& dir_count == ids.len()
    &&& result.total_file_count == sum_files(tree, ids)
    &&& result.dicom_entries.to_multiset() == matched_ms(tree, ids)
    &&& result.dicom_entries.len() == matched_ms(tree, ids).len()
}

/// What a whole scan hands back: the aggregate result, the directory count,
/// and the directories that were dispatched, in dispatch order.
pub struct ScanOutcome {
    pub result: ScanResult,
    pub directory_count: usize,
    pub listed: Vec<usize>,
}

/// The scheduler-loop invariant. `listed` is every dispatched directory,
/// `done` every completed one, `active` the in-flight units, and the queue
/// holds the discovered-but-not-dispatched ones. Dispatched = completed +
/// in flight; nothing is both pending and dispatched; everything in the
/// system except the root was discovered by a completed unit; every
/// completed unit's discoveries are in the system; and the aggregate is
/// exactly the completed units' summed contribution.
pub open spec fn scan_inv(
    tree: Seq<ModelDir>,
    sched: Scheduler<usize>,
    active: Seq<UnitOutcome>,
    listed: Seq<usize>,
    done: Seq<int>,
) -> bool {
    let ll = listed_ids(listed);
    let aa = active_ids(active);
    let qq = listed_ids(sched.queue@);
    &&& sched.wf()
    &&& sched.active_count == active.len()
    &&& sched.dir_count == listed.len()
    &&& ll.len() >= 1
    &&& ll[0] == 0
    &&& (ll + qq).no_duplicates()
    &&& in_range(tree, ll)
    &&& in_range(tree, qq)
    &&& in_range(tree, done)
    &&& done.no_duplicates()
    &&& ll.to_multiset() == done.to_multiset().add(aa.to_multiset())
    &&& forall|k: int| 0 <= k < active.len() ==> outcome_ok(tree, #[trigger] active[k])
    &&& forall|x: int|
        #[trigger] (ll + qq).contains(x) && x != 0 ==> discovered_from(tree, done, x)
    &&& forall|d: int, j: int|
        #![trigger kids_of(tree, d)[j]]
        done.contains(d) && 0 <= j < kids_of(tree, d).len() ==> (ll + qq).contains(
            kids_of(tree, d)[j],
        )
    &&& sched.aggregate@.total_file_count == sum_files(tree, done)
    &&& sched.aggregate@.dicom_entries.to_multiset() == matched_ms(tree, done)
}

/// Scan one directory of the tree: count its files, keep the successful
/// extractions, and report the subdirectories it lists. A directory whose
/// listing fails contributes nothing — the failure is absorbed, never
/// propagated.
pub fn run_unit(tree: &Vec<ModelDir>, id: usize) -> (o: UnitOutcome)
    requires
        (id as int) < tree@.len(),
    ensures
        o.id == id,
        outcome_ok(tree@, o),
{
    if !tree[id].readable {
        let o = UnitOutcome { id, partial: ScanResult::default(), subdirs: Vec::new() };
        proof {
            assert(o.partial@.dicom_entries =~= matched_of(tree@, id as int));
            assert(o.subdirs@.map_values(|u: usize| u as int) =~= kids_of(tree@, id as int));
        }
        o
    } else {
        let dir = &tree[id];
        let mut entries: Vec<DicomEntry> = Vec::new();
        let mut matched: usize = 0;
        let mut i: usize = 0;
        while i < dir.files.len()
            invariant
                *dir == tree@[id as int],
                i <= dir.files@.len(),
                matched == entries@.len(),
                matched <= i,
                entries.deep_view() == somes_of(dir.files.deep_view().take(i as int)),
            decreases dir.files@.len() - i,
        {
            proof {
                assert(dir.files.deep_view().take(i + 1).drop_last() =~= dir.files.deep_view().take(
                    i as int,
                ));
                assert(dir.files.deep_view().take(i + 1).last() == dir.files@[i as int].deep_view());
            }
            match &dir.files[i] {
                Some(e) => {
                    entries.push(e.clone());
                    matched = matched + 1;
                    proof {
                        assert(entries.deep_view() =~= somes_of(dir.files.deep_view().take(i + 1)));
                    }
                },
                None => {
                    proof {
                        assert(entries.deep_view() =~= somes_of(dir.files.deep_view().take(i + 1)));
                    }
                },
            }
            i = i + 1;
        }
        let mut subdirs: Vec<usize> = Vec::new();
        let mut j: usize = 0;
        while j < dir.subdirs.len()
            invariant
                *dir == tree@[id as int],
                j <= dir.subdirs@.len(),
                subdirs@ == dir.subdirs@.take(j as int),
            decreases dir.subdirs@.len() - j,
        {
            subdirs.push(dir.subdirs[j]);
            proof {
                assert(subdirs@ =~= dir.subdirs@.take(j + 1));
            }
            j = j + 1;
        }
        let o = UnitOutcome {
            id,
            partial: ScanResult {
                dicom_entries: entries,
                dicom_file_count: matched,
                total_file_count: dir.files.len(),
            },
            subdirs,
        };
        proof {
            assert(dir.files.deep_view().take(dir.files@.len() as int) =~= dir.files.deep_view());
            assert(o.partial@.dicom_entries == somes_of(dir.files.deep_view()));
            assert(subdirs@ =~= dir.subdirs@);
            assert(o.subdirs@.map_values(|u: usize| u as int) =~= kids_of(tree@, id as int));
        }
        o
    }
}

/// The directory a unit just completed for was dispatched but is not yet
/// among the completed ones.
proof fn lemma_active_last_fresh(
    tree: Seq<ModelDir>,
    sched: Scheduler<usize>,
    active: Seq<UnitOutcome>,
    listed: Seq<usize>,
    done: Seq<int>,
)
    requires
        scan_inv(tree, sched, active, listed, done),
        active.len() > 0,
    ensures
        !done.contains(active.last().id as int),
        done.push(active.last().id as int).no_duplicates(),
        in_range(tree, done.push(active.last().id as int)),
        outcome_ok(tree, active.last()),
{
    broadcast use group_multiset_axioms;
    broadcast use group_to_multiset_ensures;

    let ll = listed_ids(listed);
    let aa = active_ids(active);
    let c = active.last().id as int;
    assert(active[active.len() - 1] == active.last());
    assert(outcome_ok(tree, active.last()));
    assert(aa[active.len() - 1] == c);
    assert(aa.contains(c));
    assert(aa.to_multiset().count(c) > 0);
    assert(ll.no_duplicates()) by {
        let lq = ll + listed_ids(sched.queue@);
        assert forall|i: int, j: int|
            0 <= i < ll.len() && 0 <= j < ll.len() && i != j implies ll[i] != ll[j] by {
            assert(lq[i] == ll[i]);
            assert(lq[j] == ll[j]);
        }
    }
    ll.lemma_multiset_has_no_duplicates();
    if done.contains(c) {
        assert(done.to_multiset().count(c) > 0);
        assert(ll.to_multiset().count(c) >= 2);
        assert(ll.to_multiset().contains(c));
        assert(false);
    }
    let done2 = done.push(c);
    assert forall|i: int, j: int|
        0 <= i < done2.len() && 0 <= j < done2.len() && i != j implies done2[i] != done2[j] by {
        if i < done.len() && j < done.len() {
            assert(done2[i] == done[i]);
            assert(done2[j] == done[j]);
        } else if i < done.len() {
            assert(done2[j] == c);
            assert(done2[i] == done[i]);
            assert(done.contains(done[i]));
        } else {
            assert(done2[i] == c);
            assert(done2[j] == done[j]);
            assert(done.contains(done[j]));
        }
    }
    assert forall|k: int| 0 <= k < done2.len() implies 0 <= #[trigger] done2[k] < tree.len() by {
        if k < done.len() {
            assert(done2[k] == done[k]);
        } else {
            assert(done2[k] == c);
        }
    }
}

/// Before a completed unit is merged, the running totals plus its
/// contribution still fit the machine: they are bounded by the whole tree's
/// totals.
proof fn lemma_complete_bounds(
    tree: Seq<ModelDir>,
    sched: Scheduler<usize>,
    active: Seq<UnitOutcome>,
    listed: Seq<usize>,
    done: Seq<int>,
)
    requires
        tree_wf(tree),
        scan_inv(tree, sched, active, listed, done),
        active.len() > 0,
        sum_files(tree, all_ids(tree.len())) <= usize::MAX,
        matched_ms(tree, all_ids(tree.len())).len() <= usize::MAX,
    ensures
        sched.aggregate@.total_file_count + active.last().partial@.total_file_count <= usize::MAX,
        sched.aggregate@.dicom_entries.len() + active.last().partial@.dicom_entries.len()
            <= usize::MAX,
{
    broadcast use group_multiset_axioms;
    broadcast use group_to_multiset_ensures;

    lemma_active_last_fresh(tree, sched, active, listed, done);
    let o = active.last();
    let c = o.id as int;
    let done2 = done.push(c);
    let all = all_ids(tree.len());
    assert(all.no_duplicates()) by {
        assert forall|i: int, j: int|
            0 <= i < all.len() && 0 <= j < all.len() && i != j implies all[i] != all[j] by {
            assert(all[i] == i);
            assert(all[j] == j);
        }
    }
    assert(done2.to_set().subset_of(all.to_set())) by {
        assert forall|x: int| done2.to_set().contains(x) implies all.to_set().contains(x) by {
            assert(done2.contains(x));
            assert(0 <= x < tree.len());
            assert(all[x] == x);
            assert(all.contains(x));
        }
    }
    lemma_totals_subset(tree, done2, all);
    assert(done2.drop_last() =~= done);
    assert(done2.last() == c);
    assert(sum_files(tree, done2) == sum_files(tree, done) + files_weight(tree, c));
    assert(matched_ms(tree, done2) == matched_ms(tree, done).add(matched_of(tree, c).to_multiset()));
    assert(sched.aggregate@.dicom_entries.len() == matched_ms(tree, done).len());
    assert(o.partial@.dicom_entries.len() == matched_of(tree, c).to_multiset().len());
    assert(matched_ms(tree, done2).len() == matched_ms(tree, done).len() + matched_of(
        tree,
        c,
    ).to_multiset().len());
}

/// Absorbing one completed unit preserves the loop invariant.
proof fn lemma_complete_step(
    tree: Seq<ModelDir>,
    sched_pre: Scheduler<usize>,
    sched: Scheduler<usize>,
    active_pre: Seq<UnitOutcome>,
    listed: Seq<usize>,
    done: Seq<int>,
)
    requires
        tree_wf(tree),
        scan_inv(tree, sched_pre, active_pre, listed, done),
        active_pre.len() > 0,
        sched.wf(),
        sched.active_count == sched_pre.active_count - 1,
        sched.dir_count == sched_pre.dir_count,
        sched.concurrency_limit == sched_pre.concurrency_limit,
        sched.queue@ == sched_pre.queue@ + active_pre.last().subdirs@,
        sched.aggregate@ == spec_merge(sched_pre.aggregate@, active_pre.last().partial@),
    ensures
        scan_inv(
            tree,
            sched,
            active_pre.drop_last(),
            listed,
            done.push(active_pre.last().id as int),
        ),
{
    broadcast use group_multiset_axioms;
    broadcast use group_to_multiset_ensures;

    lemma_active_last_fresh(tree, sched_pre, active_pre, listed, done);
    let o = active_pre.last();
    let c = o.id as int;
    let active2 = active_pre.drop_last();
    let done2 = done.push(c);
    let ll = listed_ids(listed);
    let aa = active_ids(active_pre);
    let aa2 = active_ids(active2);
    let qq = listed_ids(sched_pre.queue@);
    let qq2 = listed_ids(sched.queue@);
    let kidsq = kids_of(tree, c);

    // The new queue is the old queue followed by the completed unit's
    // discoveries.
    assert(qq2 =~= qq + kidsq) by {
        assert(o.subdirs@.map_values(|u: usize| u as int) == kidsq);
        assert forall|k: int| 0 <= k < qq2.len() implies qq2[k] == (qq + kidsq)[k] by {
            if k < qq.len() {
                assert(sched.queue@[k] == sched_pre.queue@[k]);
            } else {
                assert(sched.queue@[k] == o.subdirs@[k - qq.len()]);
                assert(kidsq[k - qq.len()] == o.subdirs@[k - qq.len()] as int);
            }
        }
    }

    // Counters.
    assert(sched.active_count == active2.len());

    // The in-flight ids lose exactly the completed one.
    assert(aa2 =~= aa.drop_last()) by {
        assert forall|k: int| 0 <= k < aa2.len() implies aa2[k] == aa.drop_last()[k] by {
            assert(active2[k] == active_pre[k]);
        }
    }
    assert(aa[aa.len() - 1] == c);
    assert(aa.drop_last() =~= aa.remove(aa.len() - 1));
    assert(aa2.to_multiset() == aa.to_multiset().remove(c));
    assert(done2.to_multiset() =~= done.to_multiset().insert(c));
    assert(aa.to_multiset().count(c) > 0) by {
        assert(aa.contains(c));
    }
    assert(ll.to_multiset() == done2.to_multiset().add(aa2.to_multiset())) by {
        assert forall|x: int|
            ll.to_multiset().count(x) == done2.to_multiset().add(aa2.to_multiset()).count(x) by {
            assert(ll.to_multiset().count(x) == done.to_multiset().count(x) + aa.to_multiset().count(
                x,
            ));
        }
        assert(ll.to_multiset() =~= done2.to_multiset().add(aa2.to_multiset()));
    }

    // The completed unit's discoveries are new to the system, and distinct
    // among themselves, so nothing is ever dispatched twice.
    assert(kidsq.no_duplicates()) by {
        assert forall|i: int, j: int|
            0 <= i < kidsq.len() && 0 <= j < kidsq.len() && i != j implies kidsq[i] != kidsq[j] by {
            assert(kidsq[i] == tree[c].subdirs@[i] as int);
            assert(kidsq[j] == tree[c].subdirs@[j] as int);
        }
    }
    assert forall|i: int, j: int|
        0 <= i < (ll + qq).len() && 0 <= j < kidsq.len() implies (ll + qq)[i] != kidsq[j] by {
        let x = kidsq[j];
        assert(x == tree[c].subdirs@[j] as int);
        assert(0 <= c < tree.len());
        assert(c < x < tree.len());
        if (ll + qq)[i] == x {
            assert((ll + qq).contains(x));
            assert(x != 0);
            assert(discovered_from(tree, done, x));
            let d = choose|d: int| #[trigger] done.contains(d) && kids_of(tree, d).contains(x);
            let j2 = choose|j2: int| 0 <= j2 < kids_of(tree, d).len() && kids_of(tree, d)[j2] == x;
            assert(kids_of(tree, d)[j2] == tree[d].subdirs@[j2] as int);
            assert(tree[d].subdirs@[j2] == tree[c].subdirs@[j]);
            assert(d == c);
            assert(!done.contains(c));
            assert(false);
        }
    }
    lemma_no_dup_in_concat(ll + qq, kidsq);
    assert(ll + qq2 =~= (ll + qq) + kidsq);
    assert((ll + qq2).no_duplicates());

    // Ranges.
    assert forall|k: int| 0 <= k < qq2.len() implies 0 <= #[trigger] qq2[k] < tree.len() by {
        if k < qq.len() {
            assert(qq2[k] == qq[k]);
        } else {
            assert(qq2[k] == kidsq[k - qq.len()]);
            assert(kidsq[k - qq.len()] == tree[c].subdirs@[k - qq.len()] as int);
        }
    }

    // In-flight reports stay faithful.
    assert forall|k: int| 0 <= k < active2.len() implies outcome_ok(tree, #[trigger] active2[k]) by {
        assert(active2[k] == active_pre[k]);
        assert(outcome_ok(tree, active_pre[k]));
    }

    // Origin: everything in the system except the root was discovered by a
    // completed unit.
    assert forall|x: int| #[trigger] (ll + qq2).contains(x) && x != 0 implies discovered_from(
        tree,
        done2,
        x,
    ) by {
        let k = choose|k: int| 0 <= k < (ll + qq2).len() && (ll + qq2)[k] == x;
        if k < ll.len() + qq.len() {
            assert((ll + qq)[k] == x);
            assert((ll + qq).contains(x));
            assert(discovered_from(tree, done, x));
            let d = choose|d: int| #[trigger] done.contains(d) && kids_of(tree, d).contains(x);
            assert(done2[done.index_of(d)] == d) by {
                assert(done2[done.index_of(d)] == done[done.index_of(d)]);
            }
            assert(done2.contains(d));
        } else {
            assert((ll + qq2)[k] == qq2[k - ll.len()]);
            assert(qq2[k - ll.len()] == kidsq[k - ll.len() - qq.len()]);
            assert(kidsq.contains(x));
            assert(done2[done.len() as int] == c);
            assert(done2.contains(c));
        }
    }

    // Closure: every completed unit's discoveries are in the system.
    assert forall|d: int, j: int|
        done2.contains(d) && 0 <= j < kids_of(tree, d).len() implies (ll + qq2).contains(
            #[trigger] kids_of(tree, d)[j],
        ) by {
        if done.contains(d) {
            assert((ll + qq).contains(kids_of(tree, d)[j]));
            let k = choose|k: int|
                0 <= k < (ll + qq).len() && (ll + qq)[k] == kids_of(tree, d)[j];
            assert((ll + qq2)[k] == (ll + qq)[k]) by {
                if k < ll.len() {
                } else {
                    assert((ll + qq)[k] == qq[k - ll.len()]);
                    assert((ll + qq2)[k] == qq2[k - ll.len()]);
                    assert(qq2[k - ll.len()] == qq[k - ll.len()]);
                }
            }
            assert((ll + qq2).contains(kids_of(tree, d)[j]));
        } else {
            assert(d == c) by {
                let kd = choose|kd: int| 0 <= kd < done2.len() && done2[kd] == d;
                if kd < done.len() {
                    assert(done[kd] == d);
                    assert(done.contains(d));
                    assert(false);
                }
            }
            assert(kids_of(tree, d)[j] == kidsq[j]);
            assert((ll + qq2)[ll.len() + qq.len() + j] == kidsq[j]);
            assert((ll + qq2).contains(kidsq[j]));
        }
    }

    // The aggregate gains exactly the completed directory's contribution.
    assert(done2.drop_last() =~= done);
    assert(done2.last() == c);
    assert(sum_files(tree, done2) == sum_files(tree, done) + files_weight(tree, c));
    assert(sched.aggregate@.total_file_count == sum_files(tree, done2));
    lemma_multiset_commutative(sched_pre.aggregate@.dicom_entries, o.partial@.dicom_entries);
    assert(sched.aggregate@.dicom_entries.to_multiset() == matched_ms(tree, done).add(
        matched_of(tree, c).to_multiset(),
    ));
    assert(sched.aggregate@.dicom_entries.to_multiset() == matched_ms(tree, done2));
}

/// Dispatching one pending directory preserves the loop invariant.
proof fn lemma_dispatch_step(
    tree: Seq<ModelDir>,
    sched_pre: Scheduler<usize>,
    sched: Scheduler<usize>,
    active_pre: Seq<UnitOutcome>,
    listed_pre: Seq<usize>,
    done: Seq<int>,
    t: usize,
    u: UnitOutcome,
)
    requires
        tree_wf(tree),
        scan_inv(tree, sched_pre, active_pre, listed_pre, done),
        sched_pre.spec_can_dispatch(),
        t == sched_pre.queue@.last(),
        sched.wf(),
        sched.queue@ == sched_pre.queue@.drop_last(),
        sched.active_count == sched_pre.active_count + 1,
        sched.dir_count == sched_pre.dir_count + 1,
        sched.concurrency_limit == sched_pre.concurrency_limit,
        sched.aggregate == sched_pre.aggregate,
        outcome_ok(tree, u),
        u.id == t,
    ensures
        scan_inv(tree, sched, active_pre.push(u), listed_pre.push(t), done),
{
    broadcast use group_multiset_axioms;
    broadcast use group_to_multiset_ensures;

    let ll = listed_ids(listed_pre);
    let ll2 = listed_ids(listed_pre.push(t));
    let aa = active_ids(active_pre);
    let active2 = active_pre.push(u);
    let aa2 = active_ids(active2);
    let qq = listed_ids(sched_pre.queue@);
    let qq2 = listed_ids(sched.queue@);
    let x = t as int;

    assert(ll2 =~= ll.push(x)) by {
        assert forall|k: int| 0 <= k < ll2.len() implies ll2[k] == ll.push(x)[k] by {
            if k < ll.len() {
                assert(listed_pre.push(t)[k] == listed_pre[k]);
            } else {
                assert(listed_pre.push(t)[k] == t);
            }
        }
    }
    assert(aa2 =~= aa.push(x)) by {
        assert forall|k: int| 0 <= k < aa2.len() implies aa2[k] == aa.push(x)[k] by {
            if k < aa.len() {
                assert(active2[k] == active_pre[k]);
            } else {
                assert(active2[k] == u);
            }
        }
    }
    assert(qq2 =~= qq.drop_last()) by {
        assert forall|k: int| 0 <= k < qq2.len() implies qq2[k] == qq.drop_last()[k] by {
            assert(sched.queue@[k] == sched_pre.queue@[k]);
        }
    }
    assert(qq[qq.len() - 1] == x);

    // Counters.
    assert(sched.active_count == active2.len());
    assert(sched.dir_count == listed_pre.push(t).len());
    assert(ll2[0] == ll[0]);

    // The dispatched-or-pending directories are the same, only one of them
    // moved from pending to dispatched.
    assert((ll2 + qq2).to_multiset() == (ll + qq).to_multiset()) by {
        lemma_multiset_commutative(ll, qq);
        lemma_multiset_commutative(ll2, qq2);
        assert(ll2.to_multiset() =~= ll.to_multiset().insert(x));
        assert(qq.drop_last() =~= qq.remove(qq.len() - 1));
        assert(qq2.to_multiset() == qq.to_multiset().remove(x));
        assert(qq.to_multiset().count(x) > 0) by {
            assert(qq.contains(x));
        }
        assert forall|y: int|
            (ll2 + qq2).to_multiset().count(y) == (ll + qq).to_multiset().count(y) by {}
        assert((ll2 + qq2).to_multiset() =~= (ll + qq).to_multiset());
    }
    assert forall|y: int| (ll2 + qq2).contains(y) <==> (ll + qq).contains(y) by {
        assert((ll2 + qq2).contains(y) <==> (ll2 + qq2).to_multiset().count(y) > 0);
        assert((ll + qq).contains(y) <==> (ll + qq).to_multiset().count(y) > 0);
    }

    // No duplicates: the combined collection is a permutation of the old
    // one, whose elements each occurred once.
    (ll + qq).lemma_multiset_has_no_duplicates();
    assert((ll2 + qq2).no_duplicates()) by {
        assert forall|y: int|
            (ll2 + qq2).to_multiset().contains(y) implies (ll2 + qq2).to_multiset().count(y)
            == 1 by {
            assert((ll + qq).to_multiset().count(y) > 0);
            assert((ll + qq).contains(y));
        }
        (ll2 + qq2).lemma_multiset_has_no_duplicates_conv();
    }

    // Ranges.
    assert(0 <= x < tree.len()) by {
        assert(qq[qq.len() - 1] == x);
    }
    assert forall|k: int| 0 <= k < ll2.len() implies 0 <= #[trigger] ll2[k] < tree.len() by {
        if k < ll.len() {
            assert(ll2[k] == ll[k]);
        } else {
            assert(ll2[k] == x);
        }
    }
    assert forall|k: int| 0 <= k < qq2.len() implies 0 <= #[trigger] qq2[k] < tree.len() by {
        assert(qq2[k] == qq[k]);
    }

    // Dispatched = completed + in flight.
    assert(ll2.to_multiset() == done.to_multiset().add(aa2.to_multiset())) by {
        assert(ll2.to_multiset() =~= ll.to_multiset().insert(x));
        assert(aa2.to_multiset() =~= aa.to_multiset().insert(x));
        assert forall|y: int|
            ll2.to_multiset().count(y) == done.to_multiset().add(aa2.to_multiset()).count(y) by {
            assert(ll.to_multiset().count(y) == done.to_multiset().count(y) + aa.to_multiset().count(
                y,
            ));
        }
        assert(ll2.to_multiset() =~= done.to_multiset().add(aa2.to_multiset()));
    }

    // In-flight reports stay faithful.
    assert forall|k: int| 0 <= k < active2.len() implies outcome_ok(tree, #[trigger] active2[k]) by {
        if k < active_pre.len() {
            assert(active2[k] == active_pre[k]);
            assert(outcome_ok(tree, active_pre[k]));
        } else {
            assert(active2[k] == u);
        }
    }

    // Origin and closure carry over: membership in the system is unchanged.
    assert forall|y: int| #[trigger] (ll2 + qq2).contains(y) && y != 0 implies discovered_from(
        tree,
        done,
        y,
    ) by {
        assert((ll + qq).contains(y));
    }
    assert forall|d: int, j: int|
        done.contains(d) && 0 <= j < kids_of(tree, d).len() implies (ll2 + qq2).contains(
            #[trigger] kids_of(tree, d)[j],
        ) by {
        assert((ll + qq).contains(kids_of(tree, d)[j]));
    }
}

/// Run a whole scan of the tree with the given concurrency limit. Fails
/// exactly when the root itself cannot be listed; every deeper failure is
/// absorbed. On success the outcome satisfies `scan_post`: the directory
/// count equals the number of directories dispatched for listing, and the
/// totals are exactly those directories' contributions.
///
/// The two machine-limit preconditions only say the tree's totals fit a
/// `usize`.
pub fn scan(tree: &Vec<ModelDir>, concurrency_limit: usize) -> (r: Option<ScanOutcome>)
    requires
        concurrency_limit >= 1,
        tree_wf(tree@),
        sum_files(tree@, all_ids(tree@.len())) <= usize::MAX,
        matched_ms(tree@, all_ids(tree@.len())).len() <= usize::MAX,
    ensures
        (r is Some) <==> (tree@.len() > 0 && tree@[0].readable),
        r matches Some(out) ==> out.result.wf() && scan_post(
            tree@,
            listed_ids(out.listed@),
            out.result@,
            out.directory_count as int,
        ),
{
    broadcast use group_multiset_axioms;
    broadcast use group_to_multiset_ensures;

    let n = tree.len();
    if n == 0 {
        return None;
    }
    if !tree[0].readable {
        return None;
    }
    let mut sched: Scheduler<usize> = Scheduler::new(concurrency_limit);
    sched.dispatch_root();
    let mut listed: Vec<usize> = Vec::new();
    listed.push(0);
    let first = run_unit(tree, 0);
    let mut active: Vec<UnitOutcome> = Vec::new();
    active.push(first);
    let ghost mut done: Seq<int> = Seq::empty();
    proof {
        let ll = listed_ids(listed@);
        let aa = active_ids(active@);
        let qq = listed_ids(sched.queue@);
        assert(ll =~= seq![0int]);
        assert(qq =~= Seq::<int>::empty());
        assert(aa =~= seq![0int]);
        assert(ll + qq =~= ll);
        assert(ll.to_multiset() == done.to_multiset().add(aa.to_multiset())) by {
            assert forall|y: int|
                ll.to_multiset().count(y) == done.to_multiset().add(aa.to_multiset()).count(y) by {
                assert(ll =~= aa);
            }
            assert(ll.to_multiset() =~= done.to_multiset().add(aa.to_multiset()));
        }
        assert forall|x: int| #[trigger] (ll + qq).contains(x) && x != 0 implies discovered_from(
            tree@,
            done,
            x,
        ) by {
            let k = choose|k: int| 0 <= k < (ll + qq).len() && (ll + qq)[k] == x;
            assert((ll + qq)[0] == 0);
        }
        assert(sched.aggregate@.dicom_entries.to_multiset() =~= matched_ms(tree@, done));
        assert(scan_inv(tree@, sched, active@, listed@, done));
    }
    while active.len() > 0
        invariant
            tree_wf(tree@),
            tree@.len() <= usize::MAX,
            sum_files(tree@, all_ids(tree@.len())) <= usize::MAX,
            matched_ms(tree@, all_ids(tree@.len())).len() <= usize::MAX,
            scan_inv(tree@, sched, active@, listed@, done),
            sched.queue@.len() > 0 ==> active@.len() > 0,
        decreases tree@.len() - done.len(),
    {
        let ghost sched_pre = sched;
        let ghost active_full = active@;
        let o = active.pop().unwrap();
        let ghost o_g = o;
        proof {
            assert(active_full.last() == o_g);
            assert(active_full.drop_last() =~= active@);
            lemma_complete_bounds(tree@, sched, active_full, listed@, done);
        }
        let UnitOutcome { id, partial, subdirs } = o;
        sched.on_unit_complete(partial, subdirs);
        proof {
            lemma_complete_step(tree@, sched_pre, sched, active_full, listed@, done);
            done = done.push(id as int);
            lemma_no_dup_in_range_len(tree@.len(), done);
        }
        let mut cd = sched.can_dispatch();
        while cd
            invariant
                tree_wf(tree@),
                tree@.len() <= usize::MAX,
                scan_inv(tree@, sched, active@, listed@, done),
                cd == sched.spec_can_dispatch(),
            decreases sched.queue@.len(),
        {
            proof {
                let ll = listed_ids(listed@);
                let qq = listed_ids(sched.queue@);
                assert forall|k: int|
                    0 <= k < (ll + qq).len() implies 0 <= #[trigger] (ll + qq)[k]
                    < tree@.len() by {
                    if k < ll.len() {
                        assert((ll + qq)[k] == ll[k]);
                    } else {
                        assert((ll + qq)[k] == qq[k - ll.len()]);
                    }
                }
                lemma_no_dup_in_range_len(tree@.len(), ll + qq);
                assert(ll.len() + qq.len() <= tree@.len());
                assert(sched.dir_count < tree@.len());
            }
            let ghost sched_d_pre = sched;
            let ghost active_d_pre = active@;
            let ghost listed_d_pre = listed@;
            let t = sched.dispatch_next();
            listed.push(t);
            proof {
                let qq = listed_ids(sched_d_pre.queue@);
                assert(qq[qq.len() - 1] == t as int);
                assert((t as int) < tree@.len());
            }
            let u = run_unit(tree, t);
            let ghost u_g = u;
            active.push(u);
            proof {
                lemma_dispatch_step(
                    tree@,
                    sched_d_pre,
                    sched,
                    active_d_pre,
                    listed_d_pre,
                    done,
                    t,
                    u_g,
                );
                assert(active@ =~= active_d_pre.push(u_g));
                assert(listed@ =~= listed_d_pre.push(t));
            }
            cd = sched.can_dispatch();
        }
        proof {
            if sched.queue@.len() > 0 {
                assert(sched.active_count >= sched.concurrency_limit);
                assert(active@.len() > 0);
            }
        }
    }
    proof {
        assert(active@.len() == 0);
        assert(sched.queue@.len() == 0);
        assert(sched.spec_is_done());
    }
    let ghost final_done = done;
    let (result, directory_count) = sched.finish();
    let outcome = ScanOutcome { result, directory_count, listed };
    proof {
        let ll = listed_ids(outcome.listed@);
        let qq = listed_ids(Seq::<usize>::empty());
        let aa = active_ids(Seq::<UnitOutcome>::empty());
        assert(scan_inv(tree@, sched, Seq::empty(), outcome.listed@, final_done)) by {
            assert(Seq::<UnitOutcome>::empty() =~= active@);
        }
        lemma_scan_wrapup(tree@, sched, outcome.listed@, final_done);
    }
    Some(outcome)
}

/// When everything has drained, the loop invariant yields the scan's
/// postcondition: the completed directories are exactly the dispatched
/// ones, so the aggregate totals are the dispatched directories' totals.
proof fn lemma_scan_wrapup(
    tree: Seq<ModelDir>,
    sched: Scheduler<usize>,
    listed: Seq<usize>,
    done: Seq<int>,
)
    requires
        tree_wf(tree),
        scan_inv(tree, sched, Seq::<UnitOutcome>::empty(), listed, done),
        sched.queue@.len() == 0,
    ensures
        sched.aggregate.wf(),
        scan_post(
            tree,
            listed_ids(listed),
            sched.aggregate@,
            sched.dir_count as int,
        ),
{
    broadcast use group_multiset_axioms;
    broadcast use group_to_multiset_ensures;

    let ll = listed_ids(listed);
    let qq = listed_ids(sched.queue@);
    let aa = active_ids(Seq::<UnitOutcome>::empty());
    assert(ll + qq =~= ll);
    assert(aa =~= Seq::<int>::empty());
    assert(ll.to_multiset() == done.to_multiset().add(aa.to_multiset()));
    assert forall|y: int| ll.to_multiset().count(y) == done.to_multiset().count(y) by {}
    assert(ll.to_multiset() =~= done.to_multiset());
    assert forall|y: int| ll.contains(y) <==> done.contains(y) by {
        assert(ll.contains(y) <==> ll.to_multiset().count(y) > 0);
        assert(done.contains(y) <==> done.to_multiset().count(y) > 0);
    }

    // The dispatch history is closed.
    assert forall|k: int, j: int|
        0 <= k < ll.len() && 0 <= j < kids_of(tree, ll[k]).len() implies ll.contains(
            #[trigger] kids_of(tree, ll[k])[j],
        ) by {
        assert(ll.contains(ll[k]));
        assert(done.contains(ll[k]));
        assert((ll + qq).contains(kids_of(tree, ll[k])[j]));
        let i = choose|i: int| 0 <= i < (ll + qq).len() && (ll + qq)[i] == kids_of(tree, ll[k])[j];
        assert(ll[i] == (ll + qq)[i]);
    }
    assert forall|k: int|
        0 <= k < ll.len() && (#[trigger] ll[k]) != 0 implies exists|p: int|
            ll.contains(p) && #[trigger] kids_of(tree, p).contains(ll[k]) by {
        assert((ll + qq)[k] == ll[k]);
        assert((ll + qq).contains(ll[k]));
        assert(discovered_from(tree, done, ll[k]));
        let d = choose|d: int| #[trigger] done.contains(d) && kids_of(tree, d).contains(ll[k]);
        assert(ll.contains(d));
    }

    // Totals: completion order and dispatch order are permutations of one
    // another.
    lemma_totals_permutation(tree, done, ll);
    assert(sched.aggregate@.total_file_count == sum_files(tree, ll));
    assert(sched.aggregate@.dicom_entries.to_multiset() == matched_ms(tree, ll));
    assert(sched.aggregate@.dicom_entries.len() == matched_ms(tree, ll).len());
}

/// Law: a scan never reports more matched records than counted files.
pub proof fn lemma_scan_matched_le_total(
    tree: Seq<ModelDir>,
    ids: Seq<int>,
    result: ScanResultView,
    dir_count: int,
)
    requires
        scan_post(tree, ids, result, dir_count),
    ensures
        result.dicom_entries.len() <= result.total_file_count,
{
    lemma_matched_le_total(tree, ids);
}

/// Over a well-shaped tree, a closed dispatch history is unique as a set:
/// whether a directory was scanned does not depend on the concurrency
/// limit, the queue order or the completion order.
proof fn lemma_membership_agrees(tree: Seq<ModelDir>, a: Seq<int>, b: Seq<int>, x: int)
    requires
        tree_wf(tree),
        listing_closed(tree, a),
        listing_closed(tree, b),
        0 <= x,
    ensures
        a.contains(x) ==> b.contains(x),
    decreases x,
{
    if a.contains(x) {
        if x == 0 {
            assert(b[0] == 0);
            assert(b.contains(0int));
        } else {
            let k = choose|k: int| 0 <= k < a.len() && a[k] == x;
            assert(a[k] != 0);
            let p = choose|p: int| a.contains(p) && #[trigger] kids_of(tree, p).contains(a[k]);
            let j = choose|j: int| 0 <= j < kids_of(tree, p).len() && kids_of(tree, p)[j] == x;
            assert(kids_of(tree, p)[j] == tree[p].subdirs@[j] as int);
            assert(0 <= p < x) by {
                assert(0 <= p < tree.len());
            }
            lemma_membership_agrees(tree, a, b, p);
            assert(b.contains(p));
            let kp = choose|kp: int| 0 <= kp < b.len() && b[kp] == p;
            assert(kids_of(tree, b[kp])[j] == x);
            assert(b.contains(kids_of(tree, b[kp])[j]));
        }
    }
}

/// Law: a scan's outcome is a function of the tree alone. Two finished
/// scans of the same unmodified tree — whatever their concurrency limits
/// (any value at least 1), dispatch orders or completion orders — report
/// the same directory count, the same total file count, the same matched
/// count, and the same multiset of matched records; only the order in which
/// records are emitted may differ.
pub proof fn lemma_scan_deterministic(
    tree: Seq<ModelDir>,
    ids1: Seq<int>,
    result1: ScanResultView,
    dir_count1: int,
    ids2: Seq<int>,
    result2: ScanResultView,
    dir_count2: int,
)
    requires
        tree_wf(tree),
        scan_post(tree, ids1, result1, dir_count1),
        scan_post(tree, ids2, result2, dir_count2),
    ensures
        dir_count1 == dir_count2,
        result1.total_file_count == result2.total_file_count,
        result1.dicom_entries.to_multiset() == result2.dicom_entries.to_multiset(),
        result1.dicom_entries.len() == result2.dicom_entries.len(),
{
    broadcast use group_multiset_axioms;
    broadcast use group_to_multiset_ensures;

    assert forall|x: int| ids1.contains(x) <==> ids2.contains(x) by {
        if ids1.contains(x) {
            assert(0 <= x < tree.len());
            lemma_membership_agrees(tree, ids1, ids2, x);
        }
        if ids2.contains(x) {
            assert(0 <= x < tree.len());
            lemma_membership_agrees(tree, ids2, ids1, x);
        }
    }
    ids1.lemma_multiset_has_no_duplicates();
    ids2.lemma_multiset_has_no_duplicates();
    assert forall|x: int| ids1.to_multiset().count(x) == ids2.to_multiset().count(x) by {
        if ids1.contains(x) {
            assert(ids1.to_multiset().count(x) == 1);
            assert(ids2.to_multiset().count(x) == 1);
        } else {
            assert(!ids2.contains(x));
            assert(ids1.to_multiset().count(x) == 0);
            assert(ids2.to_multiset().count(x) == 0);
        }
    }
    assert(ids1.to_multiset() =~= ids2.to_multiset());
    assert(ids1.len() == ids2.len()) by {
        assert(ids1.to_multiset().len() == ids1.len());
        assert(ids2.to_multiset().len() == ids2.len());
    }
    lemma_totals_permutation(tree, ids1, ids2);
}

} // verus!
