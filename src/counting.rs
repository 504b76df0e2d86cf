use vstd::prelude::*;

verus! {

/// How many of the indices `0..n` satisfy `p`.
pub open spec fn count_where(n: int, p: spec_fn(int) -> bool) -> nat
    decreases n,
{
    if n <= 0 {
        0
    } else {
        count_where(n - 1, p) + if p(n - 1) {
            1nat
        } else {
            0nat
        }
    }
}

pub proof fn lemma_count_le(n: int, p: spec_fn(int) -> bool)
    requires
        n >= 0,
    ensures
        count_where(n, p) <= n,
    decreases n,
{
    if n > 0 {
        lemma_count_le(n - 1, p);
    }
}

pub proof fn lemma_count_mono(n: int, p: spec_fn(int) -> bool, q: spec_fn(int) -> bool)
    requires
        forall|j: int| 0 <= j < n && #[trigger] p(j) ==> q(j),
    ensures
        count_where(n, p) <= count_where(n, q),
    decreases n,
{
    if n > 0 {
        lemma_count_mono(n - 1, p, q);
    }
}

pub proof fn lemma_count_ext(n: int, p: spec_fn(int) -> bool, q: spec_fn(int) -> bool)
    requires
        forall|j: int| 0 <= j < n ==> #[trigger] p(j) == q(j),
    ensures
        count_where(n, p) == count_where(n, q),
{
    lemma_count_mono(n, p, q);
    lemma_count_mono(n, q, p);
}

pub proof fn lemma_count_pos(n: int, p: spec_fn(int) -> bool, i: int)
    requires
        0 <= i < n,
        p(i),
    ensures
        count_where(n, p) >= 1,
    decreases n,
{
    if n - 1 > i {
        lemma_count_pos(n - 1, p, i);
    }
}

pub proof fn lemma_count_none(n: int, p: spec_fn(int) -> bool)
    requires
        forall|j: int| 0 <= j < n ==> !#[trigger] p(j),
    ensures
        count_where(n, p) == 0,
    decreases n,
{
    if n > 0 {
        lemma_count_none(n - 1, p);
    }
}

pub proof fn lemma_count_all(n: int, p: spec_fn(int) -> bool)
    requires
        n >= 0,
        forall|j: int| 0 <= j < n ==> #[trigger] p(j),
    ensures
        count_where(n, p) == n,
    decreases n,
{
    if n > 0 {
        lemma_count_all(n - 1, p);
    }
}

/// Taking one satisfying index out lowers the count by one.
pub proof fn lemma_count_remove(n: int, p: spec_fn(int) -> bool, q: spec_fn(int) -> bool, i: int)
    requires
        0 <= i < n,
        p(i),
        forall|j: int| #[trigger] q(j) == (p(j) && j != i),
    ensures
        count_where(n, p) == count_where(n, q) + 1,
    decreases n,
{
    if n - 1 == i {
        lemma_count_ext(n - 1, p, q);
    } else {
        lemma_count_remove(n - 1, p, q, i);
    }
}

} // verus!
