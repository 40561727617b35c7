//! Counting the flags that are set in a sequence of booleans.

use vstd::prelude::*;

verus! {

/// The number of entries of `flags` that are `true`.
pub open spec fn count_true(flags: Seq<bool>) -> nat
    decreases flags.len(),
{
    if flags.len() == 0 {
        0
    } else {
        count_true(flags.drop_last()) + if flags.last() {
            1nat
        } else {
            0nat
        }
    }
}

/// No more flags are set than there are flags.
pub proof fn lemma_count_true_bounded(flags: Seq<bool>)
    ensures
        count_true(flags) <= flags.len(),
    decreases flags.len(),
{
    if flags.len() > 0 {
        lemma_count_true_bounded(flags.drop_last());
    }
}

/// A flag that is set is counted.
pub proof fn lemma_count_true_has(flags: Seq<bool>, i: int)
    requires
        0 <= i < flags.len(),
        flags[i],
    ensures
        count_true(flags) >= 1,
    decreases flags.len(),
{
    if i < flags.len() - 1 {
        lemma_count_true_has(flags.drop_last(), i);
    }
}

/// Where no flag is set the count is zero.
pub proof fn lemma_count_true_none(flags: Seq<bool>)
    requires
        forall|i: int| 0 <= i < flags.len() ==> !flags[i],
    ensures
        count_true(flags) == 0,
    decreases flags.len(),
{
    if flags.len() > 0 {
        lemma_count_true_none(flags.drop_last());
    }
}

/// Where every flag is set the count is the length.
pub proof fn lemma_count_true_all(flags: Seq<bool>)
    requires
        forall|i: int| 0 <= i < flags.len() ==> flags[i],
    ensures
        count_true(flags) == flags.len(),
    decreases flags.len(),
{
    if flags.len() > 0 {
        lemma_count_true_all(flags.drop_last());
    }
}

/// Setting a flag that was clear raises the count by one; setting one that
/// was set already leaves it as it was.
pub proof fn lemma_count_true_set(flags: Seq<bool>, i: int)
    requires
        0 <= i < flags.len(),
    ensures
        count_true(flags.update(i, true)) == count_true(flags) + if flags[i] {
            0nat
        } else {
            1nat
        },
    decreases flags.len(),
{
    let set = flags.update(i, true);
    if i == flags.len() - 1 {
        assert(set.drop_last() =~= flags.drop_last());
    } else {
        lemma_count_true_set(flags.drop_last(), i);
        assert(set.drop_last() =~= flags.drop_last().update(i, true));
    }
}

} // verus!
