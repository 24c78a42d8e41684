use vstd::prelude::*;

verus! {

/// Number of entries of `s` equal to `c`.
pub open spec fn count_eq(s: Seq<usize>, c: int) -> nat
    decreases s.len(),
{
    if s.len() == 0 {
        0
    } else {
        count_eq(s.drop_last(), c) + if s.last() == c {
            1nat
        } else {
            0nat
        }
    }
}

/// Number of entries of `s` below `c`.
pub open spec fn count_lt(s: Seq<usize>, c: int) -> nat
    decreases s.len(),
{
    if s.len() == 0 {
        0
    } else {
        count_lt(s.drop_last(), c) + if s.last() < c {
            1nat
        } else {
            0nat
        }
    }
}

/// Where a stable counting sort by key puts entry `i`: after every entry with a smaller
/// key, and after the earlier entries with the same key.
pub open spec fn sorted_slot(s: Seq<usize>, i: int) -> int {
    (count_lt(s, s[i] as int) + count_eq(s.take(i), s[i] as int)) as int
}

pub proof fn lemma_count_bounds(s: Seq<usize>, c: int)
    ensures
        count_eq(s, c) <= s.len(),
        count_lt(s, c) <= s.len(),
    decreases s.len(),
{
    if s.len() > 0 {
        lemma_count_bounds(s.drop_last(), c);
    }
}

pub proof fn lemma_count_lt_step(s: Seq<usize>, c: int)
    ensures
        count_lt(s, c + 1) == count_lt(s, c) + count_eq(s, c),
    decreases s.len(),
{
    if s.len() > 0 {
        lemma_count_lt_step(s.drop_last(), c);
    }
}

pub proof fn lemma_count_lt_mono(s: Seq<usize>, c1: int, c2: int)
    requires
        c1 <= c2,
    ensures
        count_lt(s, c1) <= count_lt(s, c2),
    decreases s.len(),
{
    if s.len() > 0 {
        lemma_count_lt_mono(s.drop_last(), c1, c2);
    }
}

pub proof fn lemma_count_lt_zero(s: Seq<usize>)
    ensures
        count_lt(s, 0) == 0,
    decreases s.len(),
{
    if s.len() > 0 {
        lemma_count_lt_zero(s.drop_last());
    }
}

pub proof fn lemma_count_lt_all(s: Seq<usize>, m: int)
    requires
        forall|i: int| 0 <= i < s.len() ==> s[i] < m,
    ensures
        count_lt(s, m) == s.len(),
    decreases s.len(),
{
    if s.len() > 0 {
        let t = s.drop_last();
        assert forall|i: int| 0 <= i < t.len() implies t[i] < m by {
            assert(t[i] == s[i]);
        }
        lemma_count_lt_all(t, m);
    }
}

pub proof fn lemma_count_take_step(s: Seq<usize>, i: int, c: int)
    requires
        0 <= i < s.len(),
    ensures
        count_eq(s.take(i + 1), c) == count_eq(s.take(i), c) + if s[i] == c {
            1nat
        } else {
            0nat
        },
{
    assert(s.take(i + 1).drop_last() =~= s.take(i));
}

pub proof fn lemma_count_take_le(s: Seq<usize>, i: int, c: int)
    requires
        0 <= i <= s.len(),
    ensures
        count_eq(s.take(i), c) <= count_eq(s, c),
        i < s.len() && s[i] == c ==> count_eq(s.take(i), c) < count_eq(s, c),
    decreases s.len() - i,
{
    if i < s.len() {
        lemma_count_take_step(s, i, c);
        lemma_count_take_le(s, i + 1, c);
    } else {
        assert(s.take(i) =~= s);
    }
}

/// In a monotone table of starts, every slot below the last start lies in one range.
pub proof fn lemma_range_of(starts: Seq<usize>, m: int, k: int) -> (c: int)
    requires
        m >= 0,
        starts.len() == m + 1,
        forall|i: int, j: int| 0 <= i <= j <= m ==> starts[i] <= starts[j],
        starts[0] <= k < starts[m],
    ensures
        0 <= c < m,
        starts[c] <= k < starts[c + 1],
    decreases m,
{
    if starts[m - 1] <= k {
        m - 1
    } else {
        lemma_range_of(starts.take(m), m - 1, k)
    }
}

} // verus!
