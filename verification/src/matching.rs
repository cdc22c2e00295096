use vstd::prelude::*;

verus! {

/// Number of entries of an index table that are assigned (that is, not `-1`).
pub open spec fn count_assigned(s: Seq<i32>) -> nat
    decreases s.len(),
{
    if s.len() == 0 {
        0
    } else {
        count_assigned(s.drop_last()) + if s.last() != -1 { 1nat } else { 0nat }
    }
}

pub proof fn lemma_count_le_len(s: Seq<i32>)
    ensures
        count_assigned(s) <= s.len(),
    decreases s.len(),
{
    if s.len() > 0 {
        lemma_count_le_len(s.drop_last());
    }
}

pub proof fn lemma_count_update(s: Seq<i32>, i: int, x: i32)
    requires
        0 <= i < s.len(),
    ensures
        count_assigned(s.update(i, x)) + (if s[i] != -1 { 1int } else { 0int })
            == count_assigned(s) + (if x != -1 { 1int } else { 0int }),
    decreases s.len(),
{
    let t = s.update(i, x);
    if i == s.len() - 1 {
        assert(t.drop_last() =~= s.drop_last());
    } else {
        assert(t.drop_last() =~= s.drop_last().update(i, x));
        lemma_count_update(s.drop_last(), i, x);
    }
}

/// A table with an unassigned entry counts fewer assigned entries than its length.
pub proof fn lemma_free_entry_count(s: Seq<i32>, i: int)
    requires
        0 <= i < s.len(),
        s[i] == -1,
    ensures
        count_assigned(s) < s.len(),
    decreases s.len(),
{
    if i == s.len() - 1 {
        lemma_count_le_len(s.drop_last());
    } else {
        lemma_free_entry_count(s.drop_last(), i);
    }
}

/// A table that counts fewer assigned entries than its length has an unassigned entry.
pub proof fn lemma_count_free_entry(s: Seq<i32>) -> (i: int)
    requires
        count_assigned(s) < s.len(),
    ensures
        0 <= i < s.len(),
        s[i] == -1,
    decreases s.len(),
{
    if s.last() == -1 {
        (s.len() - 1) as int
    } else {
        let k = lemma_count_free_entry(s.drop_last());
        k
    }
}

/// A table counting all its entries as assigned has no unassigned entry.
pub proof fn lemma_full_count(s: Seq<i32>)
    requires
        count_assigned(s) == s.len(),
    ensures
        forall|i: int| 0 <= i < s.len() ==> s[i] != -1,
{
    assert forall|i: int| 0 <= i < s.len() implies s[i] != -1 by {
        if s[i] == -1 {
            lemma_free_entry_count(s, i);
        }
    }
}

/// A table whose entries are all `-1` counts no assigned entry.
pub proof fn lemma_count_all_free(s: Seq<i32>)
    requires
        forall|i: int| 0 <= i < s.len() ==> s[i] == -1,
    ensures
        count_assigned(s) == 0,
    decreases s.len(),
{
    if s.len() > 0 {
        lemma_count_all_free(s.drop_last());
    }
}

} // verus!
