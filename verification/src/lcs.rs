//! Longest common subsequence of two sequences, by dynamic programming over an
//! `Array2D` table and a walk back along the recorded choices.

use vstd::prelude::*;
use array2d::Array2D;
use std::collections::HashMap;
use vstd::std_specs::cmp::PartialEqSpec;
use crate::table::{is_grid, table_filled, table_get, table_rows, table_set};

verus! {

broadcast use vstd::std_specs::hash::group_hash_axioms;

/// Length of the longest common subsequence of the prefixes `a[..i]` and
/// `b[..j]`, as the table computes it: a match extends the diagonal entry,
/// otherwise the larger of the entries above and to the left is kept.
pub open spec fn lcs_length<A>(a: Seq<A>, b: Seq<A>, i: int, j: int) -> int
    decreases i, j,
{
    if i <= 0 || j <= 0 {
        0
    } else if a[i - 1] == b[j - 1] {
        lcs_length(a, b, i - 1, j - 1) + 1
    } else {
        let up = lcs_length(a, b, i - 1, j);
        let left = lcs_length(a, b, i, j - 1);
        if up > left {
            up
        } else {
            left
        }
    }
}

/// The pairs of positions `(p, q)` with `a[p] == b[q]` that the walk back from
/// the entry of the prefixes `a[..i]`, `b[..j]` collects, in increasing order.
/// On a mismatch the walk goes up when the entry above is strictly larger than
/// the entry to the left, and left otherwise.
pub open spec fn lcs_trace<A>(a: Seq<A>, b: Seq<A>, i: int, j: int) -> Seq<(int, int)>
    decreases i, j,
{
    if i <= 0 || j <= 0 {
        seq![]
    } else if a[i - 1] == b[j - 1] {
        lcs_trace(a, b, i - 1, j - 1).push((i - 1, j - 1))
    } else if lcs_length(a, b, i - 1, j) > lcs_length(a, b, i, j - 1) {
        lcs_trace(a, b, i - 1, j)
    } else {
        lcs_trace(a, b, i, j - 1)
    }
}

/// `ps` lists pairs of positions into `a[..i]` and `b[..j]` that hold equal
/// elements, strictly increasing in both coordinates: a common subsequence of
/// the two prefixes, given by where it occurs.
pub open spec fn is_common_subsequence<A>(a: Seq<A>, b: Seq<A>, ps: Seq<(int, int)>, i: int, j: int) -> bool {
    &&& forall|k: int|
        0 <= k < ps.len() ==> 0 <= (#[trigger] ps[k]).0 < i && 0 <= ps[k].1 < j && a[ps[k].0] == b[ps[k].1]
    &&& forall|k: int, l: int|
        0 <= k < l < ps.len() ==> (#[trigger] ps[k]).0 < (#[trigger] ps[l]).0 && ps[k].1 < ps[l].1
}

/// The first coordinates of `ps`, as `i32`.
pub open spec fn first_coords(ps: Seq<(int, int)>) -> Seq<i32> {
    ps.map_values(|p: (int, int)| p.0 as i32)
}

/// The second coordinates of `ps`, as `i32`.
pub open spec fn second_coords(ps: Seq<(int, int)>) -> Seq<i32> {
    ps.map_values(|p: (int, int)| p.1 as i32)
}

/// The table entry's value never exceeds either prefix length and is never
/// negative.
pub proof fn lemma_lcs_length_bounds<A>(a: Seq<A>, b: Seq<A>, i: int, j: int)
    requires
        0 <= i,
        0 <= j,
    ensures
        0 <= lcs_length(a, b, i, j) <= i,
        lcs_length(a, b, i, j) <= j,
    decreases i, j,
{
    if i > 0 && j > 0 {
        lemma_lcs_length_bounds(a, b, i - 1, j - 1);
        lemma_lcs_length_bounds(a, b, i - 1, j);
        lemma_lcs_length_bounds(a, b, i, j - 1);
    }
}

/// The walk back yields a common subsequence of the prefixes whose length is
/// the table entry.
pub proof fn lemma_trace_is_common_subsequence<A>(a: Seq<A>, b: Seq<A>, i: int, j: int)
    requires
        0 <= i <= a.len(),
        0 <= j <= b.len(),
    ensures
        is_common_subsequence(a, b, lcs_trace(a, b, i, j), i, j),
        lcs_trace(a, b, i, j).len() == lcs_length(a, b, i, j),
    decreases i, j,
{
    if i > 0 && j > 0 {
        if a[i - 1] == b[j - 1] {
            lemma_trace_is_common_subsequence(a, b, i - 1, j - 1);
            let t = lcs_trace(a, b, i - 1, j - 1);
            let u = t.push((i - 1, j - 1));
            assert forall|k: int, l: int| 0 <= k < l < u.len() implies (#[trigger] u[k]).0 < (
            #[trigger] u[l]).0 && u[k].1 < u[l].1 by {
                if l < t.len() {
                    assert(u[k] == t[k] && u[l] == t[l]);
                } else {
                    assert(u[k] == t[k]);
                }
            }
            assert forall|k: int| 0 <= k < u.len() implies 0 <= (#[trigger] u[k]).0 < i && 0
                <= u[k].1 < j && a[u[k].0] == b[u[k].1] by {
                if k < t.len() {
                    assert(u[k] == t[k]);
                }
            }
        } else if lcs_length(a, b, i - 1, j) > lcs_length(a, b, i, j - 1) {
            lemma_trace_is_common_subsequence(a, b, i - 1, j);
        } else {
            lemma_trace_is_common_subsequence(a, b, i, j - 1);
        }
    }
}

/// Every common subsequence of the prefixes `a[..i]` and `b[..j]` is at most
/// as long as the table entry for them.
pub proof fn lemma_common_subsequence_bounded<A>(a: Seq<A>, b: Seq<A>, ps: Seq<(int, int)>, i: int, j: int)
    requires
        0 <= i,
        0 <= j,
        is_common_subsequence(a, b, ps, i, j),
    ensures
        ps.len() <= lcs_length(a, b, i, j),
    decreases i, j,
{
    lemma_lcs_length_bounds(a, b, i, j);
    if ps.len() > 0 {
        let last = ps[ps.len() - 1];
        let front = ps.drop_last();
        assert(0 <= last.0 < i && 0 <= last.1 < j);
        assert forall|k: int| 0 <= k < front.len() implies (#[trigger] front[k]).0 < last.0
            && front[k].1 < last.1 by {
            assert(front[k] == ps[k]);
        }
        if a[i - 1] == b[j - 1] {
            assert(is_common_subsequence(a, b, front, i - 1, j - 1)) by {
                assert forall|k: int, l: int| 0 <= k < l < front.len() implies (
                #[trigger] front[k]).0 < (#[trigger] front[l]).0 && front[k].1 < front[l].1 by {
                    assert(front[k] == ps[k] && front[l] == ps[l]);
                }
                assert forall|k: int| 0 <= k < front.len() implies 0 <= (#[trigger] front[k]).0
                    < i - 1 && 0 <= front[k].1 < j - 1 && a[front[k].0] == b[front[k].1] by {
                    assert(front[k] == ps[k]);
                }
            }
            lemma_common_subsequence_bounded(a, b, front, i - 1, j - 1);
            assert(ps.len() == front.len() + 1);
        } else if last.0 < i - 1 {
            assert forall|k: int| 0 <= k < ps.len() implies (#[trigger] ps[k]).0 < i - 1 by {
                if k < ps.len() - 1 {
                    assert(ps[k] == front[k]);
                }
            }
            lemma_common_subsequence_bounded(a, b, ps, i - 1, j);
        } else {
            assert(last.1 < j - 1);
            assert forall|k: int| 0 <= k < ps.len() implies (#[trigger] ps[k]).1 < j - 1 by {
                if k < ps.len() - 1 {
                    assert(ps[k] == front[k]);
                }
            }
            lemma_common_subsequence_bounded(a, b, ps, i, j - 1);
        }
    }
}

/// Law: the subsequence the walk back finds is a common subsequence of `a` and
/// `b`, and no common subsequence of `a` and `b` is longer.
pub proof fn lemma_lcs_is_longest<A>(a: Seq<A>, b: Seq<A>, ps: Seq<(int, int)>)
    requires
        is_common_subsequence(a, b, ps, a.len() as int, b.len() as int),
    ensures
        is_common_subsequence(a, b, lcs_trace(a, b, a.len() as int, b.len() as int), a.len() as int, b.len() as int),
        ps.len() <= lcs_trace(a, b, a.len() as int, b.len() as int).len(),
{
    lemma_trace_is_common_subsequence(a, b, a.len() as int, b.len() as int);
    lemma_common_subsequence_bounded(a, b, ps, a.len() as int, b.len() as int);
}

/// Two pairs of sequences that agree on which positions hold equal elements
/// have the same table and the same walk back.
pub proof fn lemma_trace_respects_equality<A, B>(a: Seq<A>, b: Seq<A>, c: Seq<B>, d: Seq<B>, i: int, j: int)
    requires
        a.len() == c.len(),
        b.len() == d.len(),
        0 <= i <= a.len(),
        0 <= j <= b.len(),
        forall|x: int, y: int|
            #![trigger a[x], b[y]]
            #![trigger c[x], d[y]]
            0 <= x < a.len() && 0 <= y < b.len() ==> (a[x] == b[y] <==> c[x] == d[y]),
    ensures
        lcs_length(a, b, i, j) == lcs_length(c, d, i, j),
        lcs_trace(a, b, i, j) == lcs_trace(c, d, i, j),
    decreases i, j,
{
    if i > 0 && j > 0 {
        lemma_trace_respects_equality(a, b, c, d, i - 1, j - 1);
        lemma_trace_respects_equality(a, b, c, d, i - 1, j);
        lemma_trace_respects_equality(a, b, c, d, i, j - 1);
        assert(a[i - 1] == b[j - 1] <==> c[i - 1] == d[j - 1]);
    }
}

/// A common subsequence of two sequences of length `n` that is itself of
/// length `n` pairs every position with itself.
pub proof fn lemma_full_subsequence_is_diagonal<A>(a: Seq<A>, b: Seq<A>, ps: Seq<(int, int)>, n: int)
    requires
        is_common_subsequence(a, b, ps, n, n),
        ps.len() == n,
    ensures
        forall|k: int| 0 <= k < n ==> #[trigger] ps[k] == (k, k),
{
    assert forall|k: int| 0 <= k < n implies #[trigger] ps[k] == (k, k) by {
        lemma_increasing_gaps(a, b, ps, n, n, 0, k);
        lemma_increasing_gaps(a, b, ps, n, n, k, n - 1);
    }
}

proof fn lemma_increasing_gaps<A>(a: Seq<A>, b: Seq<A>, ps: Seq<(int, int)>, n: int, m: int, k: int, l: int)
    requires
        is_common_subsequence(a, b, ps, n, m),
        0 <= k <= l < ps.len(),
    ensures
        ps[l].0 - ps[k].0 >= l - k,
        ps[l].1 - ps[k].1 >= l - k,
    decreases l - k,
{
    if k < l {
        lemma_increasing_gaps(a, b, ps, n, m, k, l - 1);
        assert(ps[l - 1].0 < ps[l].0 && ps[l - 1].1 < ps[l].1);
    }
}

/// `idx` lists, in increasing order, positions of `y` that hold the elements
/// of `x` one by one.
pub open spec fn is_embedding<A>(x: Seq<A>, y: Seq<A>, idx: Seq<int>) -> bool {
    &&& idx.len() == x.len()
    &&& forall|k: int| 0 <= k < idx.len() ==> 0 <= #[trigger] idx[k] < y.len() && y[idx[k]] == x[k]
    &&& forall|k: int, l: int| 0 <= k < l < idx.len() ==> #[trigger] idx[k] < #[trigger] idx[l]
}

/// `x` occurs in `y` in order, possibly with other elements in between.
pub open spec fn is_subsequence_of<A>(x: Seq<A>, y: Seq<A>) -> bool {
    exists|idx: Seq<int>| #[trigger] is_embedding(x, y, idx)
}

/// When the first sequence occurs in the second, the walk back matches every
/// element of the first, in order.
pub proof fn lemma_trace_of_subsequence_in_first<A>(a: Seq<A>, b: Seq<A>)
    requires
        is_subsequence_of(a, b),
    ensures
        lcs_trace(a, b, a.len() as int, b.len() as int).len() == a.len(),
        forall|k: int| 0 <= k < a.len() ==> (#[trigger] lcs_trace(a, b, a.len() as int, b.len() as int)[k]).0 == k,
{
    let idx = choose|idx: Seq<int>| is_embedding(a, b, idx);
    let ps = Seq::new(a.len(), |k: int| (k, idx[k]));
    assert(is_common_subsequence(a, b, ps, a.len() as int, b.len() as int));
    lemma_lcs_is_longest(a, b, ps);
    let t = lcs_trace(a, b, a.len() as int, b.len() as int);
    lemma_trace_is_common_subsequence(a, b, a.len() as int, b.len() as int);
    lemma_lcs_length_bounds(a, b, a.len() as int, b.len() as int);
    let n = a.len() as int;
    assert forall|k: int| 0 <= k < n implies (#[trigger] t[k]).0 == k by {
        lemma_increasing_gaps(a, b, t, n, b.len() as int, 0, k);
        lemma_increasing_gaps(a, b, t, n, b.len() as int, k, n - 1);
    }
}

/// When the second sequence occurs in the first, the walk back matches every
/// element of the second, in order.
pub proof fn lemma_trace_of_subsequence_in_second<A>(a: Seq<A>, b: Seq<A>)
    requires
        is_subsequence_of(b, a),
    ensures
        lcs_trace(a, b, a.len() as int, b.len() as int).len() == b.len(),
        forall|k: int| 0 <= k < b.len() ==> (#[trigger] lcs_trace(a, b, a.len() as int, b.len() as int)[k]).1 == k,
{
    let idx = choose|idx: Seq<int>| is_embedding(b, a, idx);
    let ps = Seq::new(b.len(), |k: int| (idx[k], k));
    assert(is_common_subsequence(a, b, ps, a.len() as int, b.len() as int));
    lemma_lcs_is_longest(a, b, ps);
    let t = lcs_trace(a, b, a.len() as int, b.len() as int);
    lemma_trace_is_common_subsequence(a, b, a.len() as int, b.len() as int);
    lemma_lcs_length_bounds(a, b, a.len() as int, b.len() as int);
    let m = b.len() as int;
    assert forall|k: int| 0 <= k < m implies (#[trigger] t[k]).1 == k by {
        lemma_increasing_gaps(a, b, t, a.len() as int, m, 0, k);
        lemma_increasing_gaps(a, b, t, a.len() as int, m, k, m - 1);
    }
}

/// The result of `longest_common_subsequence`: the elements of a longest
/// common subsequence, and where each occurs in the first and in the second
/// input.
pub struct Subsequence<T> {
    pub lcs: Vec<T>,
    pub first_pos: Vec<i32>,
    pub second_pos: Vec<i32>,
}

/// The choice recorded at `(r, c)`: the diagonal on a match, otherwise up when
/// the entry above is strictly larger than the entry to the left, else left.
pub open spec fn back_choice<A>(a: Seq<A>, b: Seq<A>, r: int, c: int) -> (i32, i32) {
    if a[r] == b[c] {
        ((r - 1) as i32, (c - 1) as i32)
    } else if lcs_length(a, b, r, c + 1) > lcs_length(a, b, r + 1, c) {
        ((r - 1) as i32, c as i32)
    } else {
        (r as i32, (c - 1) as i32)
    }
}

/// The number of the table entry at row `r` and column `c`, counting row by
/// row in a table of `m` columns.
pub open spec fn cell(m: usize, r: int, c: int) -> usize {
    (r * m + c) as usize
}

/// Entries of a table of `m` columns have distinct numbers.
proof fn lemma_cell_injective(m: int, r1: int, c1: int, r2: int, c2: int)
    requires
        0 <= c1 < m,
        0 <= c2 < m,
        r1 * m + c1 == r2 * m + c2,
    ensures
        r1 == r2,
        c1 == c2,
{
    if r1 < r2 {
        assert(r1 * m + m <= r2 * m) by (nonlinear_arith)
            requires
                r1 < r2,
                0 < m,
        ;
    } else if r2 < r1 {
        assert(r2 * m + m <= r1 * m) by (nonlinear_arith)
            requires
                r2 < r1,
                0 < m,
        ;
    }
}

/// The number of an entry of an `n` by `m` table lies below `n * m`.
proof fn lemma_cell_bounded(n: int, m: int, r: int, c: int)
    requires
        0 <= r < n,
        0 <= c < m,
    ensures
        0 <= r * m + c < n * m,
{
    assert(0 <= r * m + c < n * m) by (nonlinear_arith)
        requires
            0 <= r < n,
            0 <= c < m,
    ;
}

/// Computes the longest common subsequence between two input lists.
///
/// The table entry `(i, j)` holds the length for the prefixes ending at `i`
/// and `j`; the choice made at each entry is kept in `back`, under the entry's
/// number `i * m + j`, and the walk back along those choices from the last
/// entry collects the subsequence.
pub fn longest_common_subsequence<T: PartialEq + Clone>(first: Vec<T>, second: Vec<T>) -> (res: Subsequence<T>)
    requires
        T::obeys_eq_spec(),
        forall|x: T, y: T| #[trigger] x.eq_spec(&y) <==> x == y,
        first.len() < i32::MAX,
        second.len() < i32::MAX,
        first.len() * second.len() * 4 <= isize::MAX,
    ensures
        ({
            let ps = lcs_trace(first@, second@, first@.len() as int, second@.len() as int);
            &&& res.lcs@.len() == ps.len()
            &&& forall|k: int| 0 <= k < ps.len() ==> cloned(first@[ps[k].0], #[trigger] res.lcs@[k])
            &&& res.first_pos@ == first_coords(ps)
            &&& res.second_pos@ == second_coords(ps)
            &&& is_common_subsequence(first@, second@, ps, first@.len() as int, second@.len() as int)
            &&& ps.len() == lcs_length(first@, second@, first@.len() as int, second@.len() as int)
        }),
        forall|qs: Seq<(int, int)>|
            #[trigger] is_common_subsequence(first@, second@, qs, first@.len() as int, second@.len() as int)
                ==> qs.len() <= res.lcs@.len(),
{
    let n = first.len();
    let m = second.len();
    let ghost a = first@;
    let ghost b = second@;
    let mut t = table_filled(0, n, m);
    let mut back: HashMap<usize, (i32, i32)> = HashMap::new();

    let mut i: usize = 0;
    while i < n
        invariant
            n == first.len() == a.len(),
            m == second.len() == b.len(),
            a == first@,
            b == second@,
            n < i32::MAX,
            m < i32::MAX,
            n * m * 4 <= isize::MAX,
            T::obeys_eq_spec(),
            forall|x: T, y: T| #[trigger] x.eq_spec(&y) <==> x == y,
            0 <= i <= n,
            is_grid(table_rows(t), n as int, m as int),
            forall|r: int, c: int|
                0 <= r < i && 0 <= c < m ==> #[trigger] table_rows(t)[r][c] == lcs_length(a, b, r + 1, c + 1),
            forall|r: int, c: int|
                0 <= r < i && 0 <= c < m ==> back@.contains_key(#[trigger] cell(m, r, c)) && back@[cell(m, r, c)]
                    == back_choice(a, b, r, c),
        decreases n - i,
    {
        let mut j: usize = 0;
        while j < m
            invariant
                n == first.len() == a.len(),
                m == second.len() == b.len(),
                a == first@,
                b == second@,
                n < i32::MAX,
                m < i32::MAX,
                n * m * 4 <= isize::MAX,
                T::obeys_eq_spec(),
                forall|x: T, y: T| #[trigger] x.eq_spec(&y) <==> x == y,
                0 <= i < n,
                0 <= j <= m,
                is_grid(table_rows(t), n as int, m as int),
                forall|r: int, c: int|
                    0 <= r < i && 0 <= c < m ==> #[trigger] table_rows(t)[r][c] == lcs_length(a, b, r + 1, c + 1),
                forall|c: int| 0 <= c < j ==> #[trigger] table_rows(t)[i as int][c] == lcs_length(a, b, i + 1, c + 1),
                forall|r: int, c: int|
                    ((0 <= r < i && 0 <= c < m) || (r == i && 0 <= c < j)) ==> back@.contains_key(#[trigger] cell(m, r, c))
                        && back@[cell(m, r, c)] == back_choice(a, b, r, c),
            decreases m - j,
        {
            let ii = i as i32;
            let jj = j as i32;
            proof {
                lemma_lcs_length_bounds(a, b, i as int, j as int);
                lemma_lcs_length_bounds(a, b, i as int + 1, j as int);
                lemma_lcs_length_bounds(a, b, i as int, j as int + 1);
                lemma_cell_bounded(n as int, m as int, i as int, j as int);
            }
            let key = i * m + j;
            let ghost old_back = back@;
            if first[i] == second[j] {
                let v = get(&t, ii - 1, jj - 1) + 1;
                back.insert(key, (ii - 1, jj - 1));
                table_set(&mut t, i, j, v);
            } else {
                let up = get(&t, ii - 1, jj);
                let left = get(&t, ii, jj - 1);
                if up > left {
                    back.insert(key, (ii - 1, jj));
                    table_set(&mut t, i, j, up);
                } else {
                    back.insert(key, (ii, jj - 1));
                    table_set(&mut t, i, j, left);
                }
            }
            proof {
                assert(key == cell(m, i as int, j as int));
                assert forall|r: int, c: int|
                    ((0 <= r < i && 0 <= c < m) || (r == i && 0 <= c < j + 1)) implies back@.contains_key(
                    #[trigger] cell(m, r, c),
                ) && back@[cell(m, r, c)] == back_choice(a, b, r, c) by {
                    if r != i || c != j {
                        lemma_cell_bounded(n as int, m as int, r, c);
                        if cell(m, r, c) == key {
                            lemma_cell_injective(m as int, r, c, i as int, j as int);
                        }
                        assert(old_back.contains_key(cell(m, r, c)));
                    }
                }
            }
            assert(table_rows(t)[i as int][j as int] == lcs_length(a, b, i + 1, j + 1));
            j += 1;
        }
        i += 1;
    }

    let mut node: (i32, i32) = (n as i32 - 1, m as i32 - 1);
    let mut lcs: Vec<T> = Vec::new();
    let mut first_pos: Vec<i32> = Vec::new();
    let mut second_pos: Vec<i32> = Vec::new();
    let ghost total = lcs_trace(a, b, n as int, m as int);
    let ghost mut suffix: Seq<(int, int)> = seq![];

    while !is_sink(&back, node, n, m)
        invariant
            n == first.len() == a.len(),
            m == second.len() == b.len(),
            a == first@,
            b == second@,
            n * m * 4 <= isize::MAX,
            forall|r: int, c: int|
                0 <= r < n && 0 <= c < m ==> back@.contains_key(#[trigger] cell(m, r, c)) && back@[cell(m, r, c)]
                    == back_choice(a, b, r, c),
            -1 <= node.0 < n,
            -1 <= node.1 < m,
            total == lcs_trace(a, b, node.0 + 1, node.1 + 1) + suffix,
            lcs@.len() == suffix.len(),
            forall|k: int| 0 <= k < suffix.len() ==> cloned(a[suffix[k].0], #[trigger] lcs@[k]),
            first_pos@ == first_coords(suffix),
            second_pos@ == second_coords(suffix),
        decreases node.0 + node.1 + 2,
    {
        let r = node.0;
        let c = node.1;
        proof {
            lemma_cell_bounded(n as int, m as int, r as int, c as int);
        }
        let key = r as usize * m + c as usize;
        assert(key == cell(m, r as int, c as int));
        let prev = match back.get(&key) {
            Some(p) => *p,
            None => node,
        };
        let ghost step = lcs_trace(a, b, r + 1, c + 1);
        if is_edge_diagonal(node, prev) {
            let item = first[r as usize].clone();
            proof {
                assert(cloned(a[r as int], item));
            }
            let ghost old_lcs = lcs@;
            lcs.insert(0, item);
            first_pos.insert(0, r);
            second_pos.insert(0, c);
            proof {
                let old_suffix = suffix;
                suffix = seq![(r as int, c as int)] + old_suffix;
                assert(step == lcs_trace(a, b, r as int, c as int).push((r as int, c as int)));
                assert(total == lcs_trace(a, b, r as int, c as int) + suffix);
                assert forall|k: int| 0 <= k < suffix.len() implies cloned(a[suffix[k].0], #[trigger] lcs@[k]) by {
                    if k > 0 {
                        assert(lcs@[k] == old_lcs[k - 1]);
                        assert(suffix[k] == old_suffix[k - 1]);
                    }
                }
                assert(first_pos@ =~= first_coords(suffix));
                assert(second_pos@ =~= second_coords(suffix));
            }
        }
        node = prev;
    }
    proof {
        assert(suffix =~= total);
        lemma_lcs_is_longest(a, b, seq![]);
        lemma_trace_is_common_subsequence(a, b, n as int, m as int);
        assert forall|qs: Seq<(int, int)>|
            #[trigger] is_common_subsequence(a, b, qs, n as int, m as int) implies qs.len() <= lcs@.len() by {
            lemma_lcs_is_longest(a, b, qs);
        }
    }
    Subsequence { lcs, first_pos, second_pos }
}

/// The table entry at `(i, j)`, or 0 where either index is negative.
fn get(t: &Array2D<i32>, i: i32, j: i32) -> (v: i32)
    requires
        i < 0 || j < 0 || (i < table_rows(*t).len() && j < table_rows(*t)[i as int].len()),
    ensures
        v == (if i < 0 || j < 0 { 0 } else { table_rows(*t)[i as int][j as int] }),
{
    if i < 0 || j < 0 {
        0
    } else {
        table_get(t, i as usize, j as usize)
    }
}

/// True when no choice is recorded at `node` of an `n` by `m` table.
fn is_sink(graph: &HashMap<usize, (i32, i32)>, node: (i32, i32), n: usize, m: usize) -> (res: bool)
    requires
        -1 <= node.0 < n,
        -1 <= node.1 < m,
        n * m * 4 <= isize::MAX,
    ensures
        res == !(node.0 >= 0 && node.1 >= 0 && graph@.contains_key(cell(m, node.0 as int, node.1 as int))),
{
    if node.0 < 0 || node.1 < 0 {
        return true;
    }
    proof {
        lemma_cell_bounded(n as int, m as int, node.0 as int, node.1 as int);
    }
    !graph.contains_key(&(node.0 as usize * m + node.1 as usize))
}

/// True when the step from `source` to `sink` goes back one row and one column.
fn is_edge_diagonal(source: (i32, i32), sink: (i32, i32)) -> (res: bool)
    requires
        source.0 > i32::MIN,
        source.1 > i32::MIN,
    ensures
        res == (source.0 - 1 == sink.0 && source.1 - 1 == sink.1),
{
    source.0 - 1 == sink.0 && source.1 - 1 == sink.1
}

} // verus!
