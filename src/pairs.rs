//! Enumeration of the unordered pairs of a group, in upper-triangular order.
use vstd::prelude::*;

verus! {

/// The pairs whose first index is `i`: `(i, i+1), ..., (i, n-1)`.
pub open spec fn row(n: int, i: int) -> Seq<(usize, usize)> {
    Seq::new((n - i - 1) as nat, |k: int| (i as usize, (i + 1 + k) as usize))
}

/// The rows of the first `i` indices, one after another.
pub open spec fn rows_upto(n: int, i: int) -> Seq<(usize, usize)>
    decreases i,
{
    if i <= 0 {
        Seq::empty()
    } else {
        rows_upto(n, i - 1) + row(n, i - 1)
    }
}

/// Every pair `(i, j)` with `i < j < n`, ordered by `i`, then by `j`.
pub open spec fn all_pairs(n: int) -> Seq<(usize, usize)> {
    rows_upto(n, n)
}

/// `(a, b)` stands somewhere in `s`.
pub open spec fn has_pair(s: Seq<(usize, usize)>, a: int, b: int) -> bool {
    exists|k: int| 0 <= k < s.len() && s[k] == (a as usize, b as usize)
}

/// Strict lexicographic order on index pairs.
pub open spec fn pair_lt(p: (usize, usize), q: (usize, usize)) -> bool {
    p.0 < q.0 || (p.0 == q.0 && p.1 < q.1)
}

proof fn lemma_rows_upto(n: int, i: int)
    requires
        0 <= i <= n <= usize::MAX,
    ensures
        2 * rows_upto(n, i).len() == i * (2 * n - i - 1),
        forall|k: int| 0 <= k < rows_upto(n, i).len() ==> {
            let p = #[trigger] rows_upto(n, i)[k];
            p.0 < i && p.0 < p.1 && p.1 < n
        },
        forall|k: int, l: int|
            0 <= k < l < rows_upto(n, i).len() ==> pair_lt(
                #[trigger] rows_upto(n, i)[k],
                #[trigger] rows_upto(n, i)[l],
            ),
        forall|a: int, b: int|
            0 <= a < i && a < b < n ==> #[trigger] has_pair(rows_upto(n, i), a, b),
    decreases i,
{
    if i > 0 {
        lemma_rows_upto(n, i - 1);
        let left = rows_upto(n, i - 1);
        let right = row(n, i - 1);
        let all = rows_upto(n, i);
        assert(all == left + right);
        assert(2 * all.len() == i * (2 * n - i - 1)) by (nonlinear_arith)
            requires
                2 * left.len() == (i - 1) * (2 * n - (i - 1) - 1),
                all.len() == left.len() + right.len(),
                right.len() == n - (i - 1) - 1,
        ;
        assert forall|k: int, l: int| 0 <= k < l < all.len() implies pair_lt(
            #[trigger] all[k],
            #[trigger] all[l],
        ) by {
            if l < left.len() {
                assert(all[k] == left[k] && all[l] == left[l]);
            } else if k < left.len() {
                assert(all[k] == left[k]);
                assert(all[l] == right[l - left.len()]);
            } else {
                assert(all[k] == right[k - left.len()]);
                assert(all[l] == right[l - left.len()]);
            }
        }
        assert forall|a: int, b: int| 0 <= a < i && a < b < n implies #[trigger] has_pair(
            all,
            a,
            b,
        ) by {
            if a < i - 1 {
                assert(has_pair(left, a, b));
                let k0 = choose|k: int| 0 <= k < left.len() && left[k] == (a as usize, b as usize);
                assert(all[k0] == left[k0]);
            } else {
                let k0 = left.len() + (b - a - 1);
                assert(all[k0] == right[b - a - 1]);
            }
        }
    }
}

/// The unordered pairs of a group of `n` elements: every pair of distinct positions
/// exactly once, the earlier position first, in upper-triangular order.
pub fn unordered_pairs(n: usize) -> (r: Vec<(usize, usize)>)
    ensures
        r@ == all_pairs(n as int),
        r@.len() == n * (n - 1) / 2,
{
    let mut r: Vec<(usize, usize)> = Vec::new();
    let mut i: usize = 0;
    while i < n
        invariant
            0 <= i <= n,
            r@ == rows_upto(n as int, i as int),
        decreases n - i,
    {
        let mut j: usize = i + 1;
        while j < n
            invariant
                i < n,
                i + 1 <= j <= n,
                r@ == rows_upto(n as int, i as int) + row(n as int, i as int).take(j - i - 1),
            decreases n - j,
        {
            r.push((i, j));
            assert(row(n as int, i as int).take(j - i) =~= row(n as int, i as int).take(j - i - 1)
                .push((i, j)));
            j = j + 1;
        }
        assert(row(n as int, i as int).take(n - i - 1) =~= row(n as int, i as int));
        i = i + 1;
    }
    proof {
        lemma_pair_enumeration(n);
    }
    r
}

/// Pair enumeration: for a group of `n`, `n*(n-1)/2` pairs come out; no position is
/// paired with itself, no unordered pair comes twice (in either order), and every
/// pair of distinct positions comes.
pub proof fn lemma_pair_enumeration(n: usize)
    ensures
        all_pairs(n as int).len() == n * (n - 1) / 2,
        forall|k: int| 0 <= k < all_pairs(n as int).len() ==> {
            let p = #[trigger] all_pairs(n as int)[k];
            p.0 < p.1 && p.1 < n
        },
        forall|k: int, l: int|
            0 <= k < all_pairs(n as int).len() && 0 <= l < all_pairs(n as int).len() && k
                != l ==> #[trigger] all_pairs(n as int)[k] != #[trigger] all_pairs(n as int)[l]
                && all_pairs(n as int)[k] != (all_pairs(n as int)[l].1, all_pairs(n as int)[l].0),
        forall|a: int, b: int| 0 <= a < b < n ==> #[trigger] has_pair(all_pairs(n as int), a, b),
{
    lemma_rows_upto(n as int, n as int);
    let s = all_pairs(n as int);
    assert(s.len() == n * (n - 1) / 2) by (nonlinear_arith)
        requires
            2 * s.len() == n * (2 * n - n - 1),
    ;
    assert forall|k: int, l: int| 0 <= k < s.len() && 0 <= l < s.len() && k != l implies #[trigger] s[k]
        != #[trigger] s[l] && s[k] != (s[l].1, s[l].0) by {
        if k < l {
            assert(pair_lt(s[k], s[l]));
        } else {
            assert(pair_lt(s[l], s[k]));
        }
    }
}

} // verus!
