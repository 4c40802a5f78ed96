//! Sums over ranges and over lists of indices.

use vstd::prelude::*;

verus! {

/// The sum of `f(0)` to `f(n - 1)`.
pub open spec fn sum_below(f: spec_fn(int) -> nat, n: nat) -> nat
    decreases n,
{
    if n == 0 {
        0
    } else {
        sum_below(f, (n - 1) as nat) + f(n - 1)
    }
}

/// The sum of `f` over the indices of a list.
pub open spec fn sum_over(f: spec_fn(int) -> nat, list: Seq<u32>) -> nat
    decreases list.len(),
{
    if list.len() == 0 {
        0
    } else {
        sum_over(f, list.drop_last()) + f(list.last() as int)
    }
}

/// Equal terms have equal sums.
pub proof fn lemma_sum_same(f: spec_fn(int) -> nat, g: spec_fn(int) -> nat, n: nat)
    requires
        forall|i: int| 0 <= i < n ==> #[trigger] f(i) == g(i),
    ensures
        sum_below(f, n) == sum_below(g, n),
    decreases n,
{
    if n > 0 {
        lemma_sum_same(f, g, (n - 1) as nat);
        assert(f(n - 1) == g(n - 1));
    }
}

/// The sum of sums.
pub proof fn lemma_sum_split(
    f: spec_fn(int) -> nat,
    g: spec_fn(int) -> nat,
    h: spec_fn(int) -> nat,
    n: nat,
)
    requires
        forall|i: int| 0 <= i < n ==> #[trigger] f(i) == g(i) + h(i),
    ensures
        sum_below(f, n) == sum_below(g, n) + sum_below(h, n),
    decreases n,
{
    if n > 0 {
        lemma_sum_split(f, g, h, (n - 1) as nat);
        assert(f(n - 1) == g(n - 1) + h(n - 1));
    }
}

/// A sum changes with the one term that changes.
pub proof fn lemma_sum_change(f: spec_fn(int) -> nat, g: spec_fn(int) -> nat, k: int, n: nat)
    requires
        0 <= k < n,
        forall|i: int| 0 <= i < n && i != k ==> #[trigger] f(i) == g(i),
    ensures
        sum_below(f, n) + g(k) == sum_below(g, n) + f(k),
    decreases n,
{
    if k == n - 1 {
        lemma_sum_same(f, g, (n - 1) as nat);
    } else {
        lemma_sum_change(f, g, k, (n - 1) as nat);
        assert(f(n - 1) == g(n - 1));
    }
}

/// Terms that are zero add nothing.
pub proof fn lemma_sum_gap(f: spec_fn(int) -> nat, m: nat, n: nat)
    requires
        m <= n,
        forall|i: int| m <= i < n ==> #[trigger] f(i) == 0,
    ensures
        sum_below(f, n) == sum_below(f, m),
    decreases n,
{
    if m < n {
        lemma_sum_gap(f, m, (n - 1) as nat);
        assert(f(n - 1) == 0);
    }
}

/// More terms have no smaller sum.
pub proof fn lemma_sum_grows(f: spec_fn(int) -> nat, m: nat, n: nat)
    requires
        m <= n,
    ensures
        sum_below(f, m) <= sum_below(f, n),
    decreases n,
{
    if m < n {
        lemma_sum_grows(f, m, (n - 1) as nat);
    }
}

/// A sum of ones counts them.
pub proof fn lemma_sum_ones(f: spec_fn(int) -> nat, n: nat)
    requires
        forall|i: int| 0 <= i < n ==> #[trigger] f(i) == 1,
    ensures
        sum_below(f, n) == n,
    decreases n,
{
    if n > 0 {
        lemma_sum_ones(f, (n - 1) as nat);
        assert(f(n - 1) == 1);
    }
}

/// A list that loses an index loses its term.
pub proof fn lemma_list_remove(f: spec_fn(int) -> nat, list: Seq<u32>, k: int)
    requires
        0 <= k < list.len(),
    ensures
        sum_over(f, list.remove(k)) + f(list[k] as int) == sum_over(f, list),
    decreases list.len(),
{
    if k == list.len() - 1 {
        assert(list.remove(k) =~= list.drop_last());
    } else {
        lemma_list_remove(f, list.drop_last(), k);
        assert(list.remove(k).drop_last() =~= list.drop_last().remove(k));
        assert(list.remove(k).last() == list.last());
    }
}

/// The sum over a range is the sum over the list of the indices whose terms count.
pub proof fn lemma_sum_list(f: spec_fn(int) -> nat, list: Seq<u32>, n: nat)
    requires
        list.no_duplicates(),
        forall|i: int| 0 <= i < list.len() ==> #[trigger] list[i] < n,
        forall|i: u32| i < n && !#[trigger] list.contains(i) ==> f(i as int) == 0,
        n <= u32::MAX,
    ensures
        sum_below(f, n) == sum_over(f, list),
    decreases n,
{
    if n == 0 {
        if list.len() > 0 {
            assert(list[0] < 0);
        }
    } else {
        let last = (n - 1) as u32;
        if list.contains(last) {
            let k = choose|k: int| 0 <= k < list.len() && list[k] == last;
            let rest = list.remove(k);
            assert forall|i: u32| i < n - 1 && !#[trigger] rest.contains(i) implies f(i as int)
                == 0 by {
                if list.contains(i) {
                    let j = choose|j: int| 0 <= j < list.len() && list[j] == i;
                    assert(rest[if j < k { j } else { j - 1 }] == i);
                }
            }
            lemma_list_remove(f, list, k);
            lemma_sum_list(f, rest, (n - 1) as nat);
        } else {
            assert forall|i: int| 0 <= i < list.len() implies #[trigger] list[i] < n - 1 by {
                if list[i] == last {
                    assert(list.contains(last));
                }
            }
            lemma_sum_list(f, list, (n - 1) as nat);
        }
    }
}

} // verus!
