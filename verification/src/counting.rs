use vstd::prelude::*;

use itertools::Itertools;

verus! {

/// Number of occurrences of `x` in `s`.
pub open spec fn count_of(s: Seq<usize>, x: usize) -> nat
    decreases s.len(),
{
    if s.len() == 0 {
        0
    } else {
        count_of(s.drop_last(), x) + if s.last() == x {
            1nat
        } else {
            0nat
        }
    }
}

/// Whether `s` is in ascending order.
pub open spec fn ascending(s: Seq<usize>) -> bool {
    forall|i: int, j: int| 0 <= i <= j < s.len() ==> s[i] <= s[j]
}

/// Whether `r` lists each value of `s` once, in increasing order, with its
/// number of occurrences in `s`.
pub open spec fn is_multiplicity_list(r: Seq<(usize, usize)>, s: Seq<usize>) -> bool {
    &&& forall|i: int, j: int| 0 <= i < j < r.len() ==> r[i].0 < r[j].0
    &&& forall|i: int| 0 <= i < r.len() ==> r[i].1 == count_of(s, r[i].0) && r[i].1 > 0
    &&& forall|x: usize| #[trigger] count_of(s, x) > 0 ==> exists|i: int| 0 <= i < r.len() && r[i].0 == x
}

/// The concatenation of a sequence of runs.
pub open spec fn concat_runs(g: Seq<Seq<usize>>) -> Seq<usize>
    decreases g.len(),
{
    if g.len() == 0 {
        Seq::empty()
    } else {
        concat_runs(g.drop_last()) + g.last()
    }
}

pub proof fn lemma_count_append(a: Seq<usize>, b: Seq<usize>, x: usize)
    ensures
        count_of(a + b, x) == count_of(a, x) + count_of(b, x),
    decreases b.len(),
{
    if b.len() == 0 {
        assert(a + b =~= a);
    } else {
        lemma_count_append(a, b.drop_last(), x);
        assert((a + b).drop_last() =~= a + b.drop_last());
    }
}

pub proof fn lemma_count_contains(s: Seq<usize>, x: usize)
    ensures
        count_of(s, x) > 0 <==> s.contains(x),
    decreases s.len(),
{
    if s.len() > 0 {
        lemma_count_contains(s.drop_last(), x);
        if s.drop_last().contains(x) {
            let k = choose|k: int| 0 <= k < s.drop_last().len() && s.drop_last()[k] == x;
            assert(s[k] == x);
        }
        if s.contains(x) && s.last() != x {
            let k = choose|k: int| 0 <= k < s.len() && s[k] == x;
            assert(s.drop_last()[k] == x);
        }
    }
}

/// Counting in a run of equal values.
pub proof fn lemma_count_run(g: Seq<usize>, x: usize)
    requires
        forall|i: int| 0 <= i < g.len() ==> #[trigger] g[i] == g[0],
    ensures
        count_of(g, x) == if g.len() > 0 && g[0] == x {
            g.len() as nat
        } else {
            0nat
        },
    decreases g.len(),
{
    if g.len() > 0 {
        lemma_count_run(g.drop_last(), x);
        if g.len() > 1 {
            assert(g.drop_last()[0] == g[0]);
        }
    }
}

/// Sorts identifiers in ascending order with `Itertools::sorted`.
///
/// Trusted: `Itertools::sorted` collects the items into a `Vec` and sorts it;
/// the result is claimed to be ascending and to hold each value as often as the input.
#[verifier::external_body]
pub(crate) fn sorted_ids(v: &Vec<usize>) -> (r: Vec<usize>)
    ensures
        ascending(r@),
        forall|x: usize| count_of(r@, x) == count_of(v@, x),
{
    v.iter().copied().sorted().collect()
}

/// Splits identifiers into runs of equal consecutive values with `Itertools::chunk_by`.
///
/// Trusted: `Itertools::chunk_by` with the identity key yields the maximal runs of equal
/// consecutive items, in order; the result is claimed to concatenate back to the input,
/// with non-empty runs of one value each, consecutive runs holding different values.
#[verifier::external_body]
pub(crate) fn chunk_runs(v: &Vec<usize>) -> (r: Vec<Vec<usize>>)
    ensures
        concat_runs(r.deep_view()) == v@,
        forall|k: int| 0 <= k < r@.len() ==> #[trigger] r@[k]@.len() > 0,
        forall|k: int, i: int| 0 <= k < r@.len() && 0 <= i < r@[k]@.len() ==> #[trigger] r@[k]@[i] == r@[k]@[0],
        forall|k: int| 0 < k < r@.len() ==> #[trigger] r@[k]@[0] != r@[k - 1]@[0],
{
    let runs = v.iter().chunk_by(|e| **e);
    runs.into_iter().map(|(_, run)| run.copied().collect()).collect()
}

/// Keeps the first occurrence of each identifier with `Itertools::unique`.
///
/// Trusted: `Itertools::unique` yields each item the first time it is seen, in order;
/// the result is claimed to be the input with its later duplicates removed.
#[verifier::external_body]
pub(crate) fn unique_ids(v: &Vec<usize>) -> (r: Vec<usize>)
    ensures
        r@ == v@.remove_duplicates(Seq::empty()),
{
    v.iter().unique().copied().collect()
}

/// The values of `v`, each once, in increasing order, with their multiplicities.
pub fn multiplicities(v: &Vec<usize>) -> (r: Vec<(usize, usize)>)
    ensures
        is_multiplicity_list(r@, v@),
{
    let s = sorted_ids(v);
    let runs = chunk_runs(&s);
    let ghost g = runs.deep_view();
    let mut r: Vec<(usize, usize)> = Vec::new();
    let n = runs.len();
    let mut k: usize = 0;
    while k < n
        invariant
            n == runs@.len(),
            g == runs.deep_view(),
            concat_runs(g) == s@,
            ascending(s@),
            forall|j: int| 0 <= j < runs@.len() ==> #[trigger] runs@[j]@.len() > 0,
            forall|j: int, i: int| 0 <= j < runs@.len() && 0 <= i < runs@[j]@.len() ==> #[trigger] runs@[j]@[i] == runs@[j]@[0],
            forall|j: int| 0 < j < runs@.len() ==> #[trigger] runs@[j]@[0] != runs@[j - 1]@[0],
            0 <= k <= n,
            r@.len() == k,
            forall|j: int| 0 <= j < k ==> #[trigger] r@[j] == (runs@[j]@[0], runs@[j]@.len() as usize),
        decreases n - k,
    {
        let run = &runs[k];
        assert(g[k as int] == run@);
        r.push((run[0], run.len()));
        k = k + 1;
    }
    proof {
        lemma_runs_multiplicities(g, s@);
        assert forall|x: usize| #[trigger] count_of(v@, x) > 0 implies exists|i: int| 0 <= i < r@.len() && r@[i].0 == x by {
            assert(count_of(s@, x) > 0);
            let j = choose|j: int| 0 <= j < g.len() && g[j][0] == x;
            assert(r@[j].0 == x);
        }
        assert forall|i: int| 0 <= i < r@.len() implies r@[i].1 == count_of(v@, r@[i].0) && r@[i].1 > 0 by {
            assert(g[i] == runs@[i]@);
            assert(count_of(s@, g[i][0]) == g[i].len());
        }
        assert forall|i: int, j: int| 0 <= i < j < r@.len() implies r@[i].0 < r@[j].0 by {
            assert(g[i] == runs@[i]@ && g[j] == runs@[j]@);
        }
    }
    r
}

proof fn lemma_runs_multiplicities(g: Seq<Seq<usize>>, s: Seq<usize>)
    requires
        concat_runs(g) == s,
        ascending(s),
        forall|j: int| 0 <= j < g.len() ==> #[trigger] g[j].len() > 0,
        forall|j: int, i: int| 0 <= j < g.len() && 0 <= i < g[j].len() ==> #[trigger] g[j][i] == g[j][0],
        forall|j: int| 0 < j < g.len() ==> #[trigger] g[j][0] != g[j - 1][0],
    ensures
        forall|i: int, j: int| 0 <= i < j < g.len() ==> g[i][0] < g[j][0],
        forall|j: int| 0 <= j < g.len() ==> count_of(s, #[trigger] g[j][0]) == g[j].len(),
        forall|x: usize| #[trigger] count_of(s, x) > 0 ==> exists|j: int| 0 <= j < g.len() && g[j][0] == x,
    decreases g.len(),
{
    if g.len() > 0 {
        let g1 = g.drop_last();
        let s1 = concat_runs(g1);
        let l = g.last();
        assert(s == s1 + l);
        assert(ascending(s1)) by {
            assert forall|i: int, j: int| 0 <= i <= j < s1.len() implies s1[i] <= s1[j] by {
                assert(s[i] == s1[i] && s[j] == s1[j]);
            }
        }
        assert forall|j: int| 0 <= j < g1.len() implies #[trigger] g1[j].len() > 0 by {
            assert(g1[j] == g[j]);
        }
        assert forall|j: int, i: int| 0 <= j < g1.len() && 0 <= i < g1[j].len() implies #[trigger] g1[j][i] == g1[j][0] by {
            assert(g1[j] == g[j]);
        }
        assert forall|j: int| 0 < j < g1.len() implies #[trigger] g1[j][0] != g1[j - 1][0] by {
            assert(g1[j] == g[j] && g1[j - 1] == g[j - 1]);
        }
        lemma_runs_multiplicities(g1, s1);
        let n = g.len() - 1;
        // every value of s1 is below the key of the last run
        if n > 0 {
            let prev = g1.last();
            assert(s1 == concat_runs(g1.drop_last()) + prev);
            assert(s1[s1.len() - 1] == prev[prev.len() - 1]);
            assert(prev[prev.len() - 1] == prev[0]);
            assert(s[s1.len() - 1] <= s[s1.len() as int]);
            assert(s[s1.len() as int] == l[0]);
            assert(g[n - 1][0] < l[0]);
        }
        assert forall|i: int, j: int| 0 <= i < j < g.len() implies g[i][0] < g[j][0] by {
            if j < n {
                assert(g1[i] == g[i] && g1[j] == g[j]);
            } else if i < n - 1 {
                assert(g1[i] == g[i] && g1[n - 1] == g[n - 1]);
                assert(g1[i][0] < g1[n - 1][0]);
            }
        }
        lemma_count_run(l, l[0]);
        assert forall|x: usize| count_of(s1, x) > 0 implies x < l[0] by {
            let j = choose|j: int| 0 <= j < g1.len() && g1[j][0] == x;
            assert(g1[j] == g[j]);
        }
        assert forall|j: int| 0 <= j < g.len() implies count_of(s, #[trigger] g[j][0]) == g[j].len() by {
            let x = g[j][0];
            lemma_count_append(s1, l, x);
            lemma_count_run(l, x);
            if j < n {
                assert(g1[j] == g[j]);
            }
        }
        assert forall|x: usize| #[trigger] count_of(s, x) > 0 implies exists|j: int| 0 <= j < g.len() && g[j][0] == x by {
            lemma_count_append(s1, l, x);
            lemma_count_run(l, x);
            if count_of(s1, x) > 0 {
                let j = choose|j: int| 0 <= j < g1.len() && g1[j][0] == x;
                assert(g1[j] == g[j]);
            } else {
                assert(g[n][0] == x);
            }
        }
    }
}

} // verus!
