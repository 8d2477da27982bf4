//! In-memory directory trees.
//!
//! A `ModelDir` is one directory as the scan sees it: whether its listing
//! succeeds, which directories it contains, and the extractor's outcome for
//! each of its files. A tree is a vector of such directories; directory `0`
//! is the root, and every directory's children carry larger indices than the
//! directory itself, each appearing under exactly one parent — the shape a
//! filesystem walk encounters, where every directory is discovered once.
//!
//! The spec functions here say what one directory contributes to a scan and
//! what a collection of scanned directories adds up to; the lemmas show the
//! totals do not care in which order the directories were scanned.

use vstd::prelude::*;
use vstd::multiset::Multiset;
use vstd::seq_lib::group_seq_properties;
use vstd::set_lib::lemma_len_subset;
use vstd::set_lib::lemma_int_range;
use crate::processor::DicomEntry;
use crate::processor::DicomEntryView;

verus! {

/// One directory of an in-memory tree: whether listing it succeeds, the
/// indices of its subdirectories, and the extractor's outcome for each of
/// its regular files (`None`: the extractor declined the file).
pub struct ModelDir {
    pub readable: bool,
    pub subdirs: Vec<usize>,
    pub files: Vec<Option<DicomEntry>>,
}

/// A well-shaped tree: every child index points into the tree and past its
/// parent (so discovery can never loop), and no directory is the child of
/// two parents (so every directory is discovered at most once).
pub open spec fn tree_wf(tree: Seq<ModelDir>) -> bool {
    &&& forall|i: int, j: int|
        #![trigger tree[i].subdirs@[j]]
        0 <= i < tree.len() && 0 <= j < tree[i].subdirs@.len() ==> i < tree[i].subdirs@[j] as int
            && (tree[i].subdirs@[j] as int) < tree.len()
    &&& forall|i1: int, j1: int, i2: int, j2: int|
        #![trigger tree[i1].subdirs@[j1], tree[i2].subdirs@[j2]]
        0 <= i1 < tree.len() && 0 <= j1 < tree[i1].subdirs@.len() && 0 <= i2 < tree.len() && 0 <= j2
            < tree[i2].subdirs@.len() && tree[i1].subdirs@[j1] == tree[i2].subdirs@[j2] ==> i1 == i2
            && j1 == j2
}

/// The records among one directory's extraction outcomes, in file order.
pub open spec fn somes_of(s: Seq<Option<DicomEntryView>>) -> Seq<DicomEntryView>
    decreases s.len(),
{
    if s.len() == 0 {
        Seq::empty()
    } else {
        match s.last() {
            Some(e) => somes_of(s.drop_last()).push(e),
            None => somes_of(s.drop_last()),
        }
    }
}

/// A directory never yields more records than it has files.
pub proof fn lemma_somes_len(s: Seq<Option<DicomEntryView>>)
    ensures
        somes_of(s).len() <= s.len(),
    decreases s.len(),
{
    if s.len() > 0 {
        lemma_somes_len(s.drop_last());
    }
}

/// How many files scanning one directory counts: all of them when the
/// listing succeeds, none when it fails.
pub open spec fn files_weight(tree: Seq<ModelDir>, id: int) -> nat {
    if 0 <= id < tree.len() && tree[id].readable {
        tree[id].files@.len()
    } else {
        0
    }
}

/// The records scanning one directory yields: the successful extractions
/// when the listing succeeds, nothing when it fails.
pub open spec fn matched_of(tree: Seq<ModelDir>, id: int) -> Seq<DicomEntryView> {
    if 0 <= id < tree.len() && tree[id].readable {
        somes_of(tree[id].files.deep_view())
    } else {
        Seq::empty()
    }
}

/// The subdirectories scanning one directory discovers: its children when
/// the listing succeeds, none when it fails.
pub open spec fn kids_of(tree: Seq<ModelDir>, id: int) -> Seq<int> {
    if 0 <= id < tree.len() && tree[id].readable {
        tree[id].subdirs@.map_values(|u: usize| u as int)
    } else {
        Seq::empty()
    }
}

/// Every directory index of a tree of the given size, in index order.
pub open spec fn all_ids(n: nat) -> Seq<int> {
    Seq::new(n, |i: int| i)
}

/// The file count a collection of scanned directories adds up to.
pub open spec fn sum_files(tree: Seq<ModelDir>, ids: Seq<int>) -> nat
    decreases ids.len(),
{
    if ids.len() == 0 {
        0
    } else {
        sum_files(tree, ids.drop_last()) + files_weight(tree, ids.last())
    }
}

/// The records a collection of scanned directories adds up to, as a
/// multiset: a scan promises no order across directories.
pub open spec fn matched_ms(tree: Seq<ModelDir>, ids: Seq<int>) -> Multiset<DicomEntryView>
    decreases ids.len(),
{
    if ids.len() == 0 {
        Multiset::empty()
    } else {
        matched_ms(tree, ids.drop_last()).add(matched_of(tree, ids.last()).to_multiset())
    }
}

/// Taking one directory out of a collection takes exactly its contribution
/// out of the totals.
pub proof fn lemma_totals_remove(tree: Seq<ModelDir>, ids: Seq<int>, k: int)
    requires
        0 <= k < ids.len(),
    ensures
        sum_files(tree, ids) == files_weight(tree, ids[k]) + sum_files(tree, ids.remove(k)),
        matched_ms(tree, ids) == matched_ms(tree, ids.remove(k)).add(
            matched_of(tree, ids[k]).to_multiset(),
        ),
    decreases ids.len(),
{
    broadcast use vstd::multiset::group_multiset_axioms;

    if k == ids.len() - 1 {
        assert(ids.remove(k) =~= ids.drop_last());
    } else {
        lemma_totals_remove(tree, ids.drop_last(), k);
        assert(ids.remove(k).drop_last() =~= ids.drop_last().remove(k));
        assert(ids.remove(k).last() == ids.last());
        assert(matched_ms(tree, ids) =~= matched_ms(tree, ids.remove(k)).add(
            matched_of(tree, ids[k]).to_multiset(),
        ));
    }
}

/// Scanning the same directories in another order adds up to the same
/// totals.
pub proof fn lemma_totals_permutation(tree: Seq<ModelDir>, s1: Seq<int>, s2: Seq<int>)
    requires
        s1.to_multiset() == s2.to_multiset(),
    ensures
        sum_files(tree, s1) == sum_files(tree, s2),
        matched_ms(tree, s1) == matched_ms(tree, s2),
    decreases s1.len(),
{
    broadcast use vstd::multiset::group_multiset_axioms;
    broadcast use vstd::seq_lib::group_to_multiset_ensures;

    if s1.len() == 0 {
        assert(s2.to_multiset().len() == 0);
        assert(s2.len() == 0);
    } else {
        let x = s1.last();
        assert(s1.contains(x));
        assert(s1.to_multiset().count(x) > 0);
        assert(s2.to_multiset().count(x) > 0);
        assert(s2.contains(x));
        let k = choose|k: int| 0 <= k < s2.len() && s2[k] == x;
        assert(s1.drop_last() =~= s1.remove(s1.len() - 1));
        assert(s1.remove(s1.len() - 1).to_multiset() == s1.to_multiset().remove(x));
        assert(s2.remove(k).to_multiset() == s2.to_multiset().remove(x));
        lemma_totals_permutation(tree, s1.drop_last(), s2.remove(k));
        lemma_totals_remove(tree, s2, k);
        assert(matched_ms(tree, s1) =~= matched_ms(tree, s2));
    }
}

/// Removing one element from a duplicate-free sequence leaves it
/// duplicate-free.
pub proof fn lemma_remove_keeps_no_dup(s: Seq<int>, k: int)
    requires
        s.no_duplicates(),
        0 <= k < s.len(),
    ensures
        s.remove(k).no_duplicates(),
{
    assert forall|i: int, j: int|
        0 <= i < s.remove(k).len() && 0 <= j < s.remove(k).len() && i != j implies s.remove(k)[i]
        != s.remove(k)[j] by {
        let i0 = if i < k {
            i
        } else {
            i + 1
        };
        let j0 = if j < k {
            j
        } else {
            j + 1
        };
        assert(s.remove(k)[i] == s[i0]);
        assert(s.remove(k)[j] == s[j0]);
    }
}

/// Scanning only some of a collection of directories adds up to no more
/// than scanning them all.
pub proof fn lemma_totals_subset(tree: Seq<ModelDir>, s: Seq<int>, t: Seq<int>)
    requires
        s.no_duplicates(),
        t.no_duplicates(),
        s.to_set().subset_of(t.to_set()),
    ensures
        sum_files(tree, s) <= sum_files(tree, t),
        matched_ms(tree, s).len() <= matched_ms(tree, t).len(),
    decreases s.len(),
{
    broadcast use vstd::multiset::group_multiset_axioms;
    broadcast use vstd::seq_lib::group_to_multiset_ensures;
    broadcast use group_seq_properties;

    if s.len() == 0 {
    } else {
        let x = s.last();
        assert(s.contains(x));
        assert(s.to_set().contains(x));
        assert(t.to_set().contains(x));
        assert(t.contains(x));
        let k = choose|k: int| 0 <= k < t.len() && t[k] == x;
        let s1 = s.drop_last();
        let t1 = t.remove(k);
        assert(s1.no_duplicates());
        lemma_remove_keeps_no_dup(t, k);
        assert(t1.to_multiset() == t.to_multiset().remove(x));
        assert forall|y: int| s1.to_set().contains(y) implies t1.to_set().contains(y) by {
            assert(s1.contains(y));
            let i = choose|i: int| 0 <= i < s1.len() && s1[i] == y;
            assert(s[i] == y);
            assert(y != x) by {
                assert(s[s.len() - 1] == x);
            }
            assert(s.contains(y));
            assert(s.to_set().contains(y));
            assert(t.to_set().contains(y));
            assert(t.contains(y));
            assert(t.to_multiset().count(y) > 0);
            assert(t1.to_multiset().count(y) > 0);
            assert(t1.contains(y));
        }
        lemma_totals_subset(tree, s1, t1);
        lemma_totals_remove(tree, t, k);
        assert(matched_ms(tree, s).len() == matched_ms(tree, s1).len() + matched_of(
            tree,
            x,
        ).to_multiset().len());
        assert(matched_ms(tree, t).len() == matched_ms(tree, t1).len() + matched_of(
            tree,
            x,
        ).to_multiset().len());
    }
}

/// A duplicate-free collection of directory indices of a tree is no larger
/// than the tree.
pub proof fn lemma_no_dup_in_range_len(n: nat, s: Seq<int>)
    requires
        s.no_duplicates(),
        forall|k: int| 0 <= k < s.len() ==> 0 <= #[trigger] s[k] < n,
    ensures
        s.len() <= n,
{
    s.unique_seq_to_set();
    let range = vstd::set_lib::set_int_range(0, n as int);
    lemma_int_range(0, n as int);
    assert(s.to_set().subset_of(range));
    lemma_len_subset(s.to_set(), range);
}

/// A scan never matches more files than it counts.
pub proof fn lemma_matched_le_total(tree: Seq<ModelDir>, ids: Seq<int>)
    ensures
        matched_ms(tree, ids).len() <= sum_files(tree, ids),
    decreases ids.len(),
{
    broadcast use vstd::multiset::group_multiset_axioms;
    broadcast use vstd::seq_lib::group_to_multiset_ensures;

    if ids.len() > 0 {
        lemma_matched_le_total(tree, ids.drop_last());
        let x = ids.last();
        if 0 <= x < tree.len() && tree[x].readable {
            lemma_somes_len(tree[x].files.deep_view());
            assert(tree[x].files.deep_view().len() == tree[x].files@.len());
        }
        assert(matched_of(tree, x).to_multiset().len() == matched_of(tree, x).len());
    }
}

} // verus!
