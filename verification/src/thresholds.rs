//! Threshold tests on rows of single-precision values (given by their bit
//! patterns), and the counts that the fitness of a chromosome is made of.
use vstd::prelude::*;
use crate::float_order::{
    f32_ge, f32_gt, f32_lt, ge_spec, gt_spec, lt_spec, ONE_BITS, ZERO_BITS,
};

verus! {

/// Every value of the row is below the threshold.
pub open spec fn all_below(s: Seq<u32>, t: u32) -> bool {
    forall|k: int| 0 <= k < s.len() ==> lt_spec(#[trigger] s[k], t)
}

/// Whether every value of the row is below `alpha`.
pub fn is_afines(v1: &Vec<u32>, alpha: u32) -> (r: bool)
    ensures
        r == all_below(v1@, alpha),
{
    let mut k: usize = 0;
    while k < v1.len()
        invariant
            k <= v1.len(),
            forall|j: int| 0 <= j < k ==> lt_spec(#[trigger] v1@[j], alpha),
        decreases v1.len() - k,
    {
        if !f32_lt(v1[k], alpha) {
            return false;
        }
        k = k + 1;
    }
    true
}

fn copy_row(v: &Vec<u32>) -> (r: Vec<u32>)
    ensures
        r@ == v@,
{
    let r = v.clone();
    assert(r@ =~= v@);
    r
}

/// Whether every value of the row but the one at position `i` is below the
/// threshold.
pub fn check_threshold(vec: &Vec<u32>, i: usize, threshold: u32) -> (r: bool)
    requires
        i < vec.len(),
    ensures
        r == all_below(vec@.remove(i as int), threshold),
{
    let mut new_vec = copy_row(vec);
    new_vec.remove(i);
    is_afines(&new_vec, threshold)
}

/// How many rows lie below the threshold once their value at position `j`
/// is left out.
pub open spec fn rows_below_except(vs: Seq<Vec<u32>>, j: int, t: u32) -> nat
    decreases vs.len(),
{
    if vs.len() == 0 {
        0
    } else {
        rows_below_except(vs.drop_last(), j, t) + if all_below(vs.last()@.remove(j), t) {
            1nat
        } else {
            0nat
        }
    }
}

/// Every row has a value at position `j`.
pub open spec fn all_rows_reach(vs: Seq<Vec<u32>>, j: int) -> bool {
    forall|r: int| 0 <= r < vs.len() ==> j < (#[trigger] vs[r]).len()
}

/// The number of rows whose values, but the one at position `j`, are all
/// below the threshold.
pub fn count_vectors_below_threshold(vectors: &Vec<Vec<u32>>, j: usize, threshold: u32) -> (r:
    usize)
    requires
        all_rows_reach(vectors@, j as int),
    ensures
        r == rows_below_except(vectors@, j as int, threshold),
{
    let mut count: usize = 0;
    let mut r: usize = 0;
    while r < vectors.len()
        invariant
            r <= vectors.len(),
            all_rows_reach(vectors@, j as int),
            count == rows_below_except(vectors@.subrange(0, r as int), j as int, threshold),
            count <= r,
        decreases vectors.len() - r,
    {
        assert(vectors@.subrange(0, r + 1).drop_last() =~= vectors@.subrange(0, r as int));
        if check_threshold(&vectors[r], j, threshold) {
            count = count + 1;
        }
        r = r + 1;
    }
    assert(vectors@.subrange(0, vectors.len() as int) =~= vectors@);
    count
}

/// The chromosome of the data for the chosen columns: every row reduced
/// to its values at the chosen positions, in the order of the choice.
pub fn select_columns(values: &Vec<Vec<u32>>, indexes: &Vec<u32>) -> (cromosome: Vec<Vec<u32>>)
    requires
        forall|r: int, t: int|
            0 <= r < values.len() && 0 <= t < indexes.len() ==> (#[trigger] indexes@[t]) < (
            #[trigger] values@[r]).len(),
    ensures
        cromosome.len() == values.len(),
        forall|r: int|
            0 <= r < values.len() ==> (#[trigger] cromosome@[r])@.len() == indexes.len() && forall|
                t: int,
            | 0 <= t < indexes.len() ==> #[trigger] cromosome@[r]@[t] == values@[r]@[indexes@[t] as int],
{
    let mut cromosome: Vec<Vec<u32>> = Vec::new();
    let mut r: usize = 0;
    while r < values.len()
        invariant
            r <= values.len(),
            cromosome.len() == r,
            forall|q: int, t: int|
                0 <= q < values.len() && 0 <= t < indexes.len() ==> (#[trigger] indexes@[t]) < (
                #[trigger] values@[q]).len(),
            forall|q: int|
                0 <= q < r ==> (#[trigger] cromosome@[q])@.len() == indexes.len() && forall|t: int|
                    0 <= t < indexes.len() ==> #[trigger] cromosome@[q]@[t]
                        == values@[q]@[indexes@[t] as int],
        decreases values.len() - r,
    {
        let k = &values[r];
        let mut x: Vec<u32> = Vec::new();
        let mut t: usize = 0;
        while t < indexes.len()
            invariant
                t <= indexes.len(),
                x.len() == t,
                k == values@[r as int],
                r < values.len(),
                forall|q: int, u: int|
                    0 <= q < values.len() && 0 <= u < indexes.len() ==> (#[trigger] indexes@[u]) < (
                    #[trigger] values@[q]).len(),
                forall|u: int| 0 <= u < t ==> #[trigger] x@[u] == k@[indexes@[u] as int],
            decreases indexes.len() - t,
        {
            assert(indexes@[t as int] < values@[r as int].len());
            x.push(k[indexes[t] as usize]);
            t = t + 1;
        }
        cromosome.push(x);
        r = r + 1;
    }
    cromosome
}

/// Bit pattern of the `alpha` that the fitness of a chromosome uses, `0.1`.
pub const FITNESS_ALPHA_BITS: u32 = 0x3dcc_cccd;

/// How many rows lie entirely below the threshold.
pub open spec fn afines_rows(vs: Seq<Vec<u32>>, t: u32) -> nat
    decreases vs.len(),
{
    if vs.len() == 0 {
        0
    } else {
        afines_rows(vs.drop_last(), t) + if all_below(vs.last()@, t) {
            1nat
        } else {
            0nat
        }
    }
}

/// How many of the positions `0..m` are such that more than one row lies
/// below the threshold once that position is left out.
pub open spec fn shared_positions(vs: Seq<Vec<u32>>, t: u32, m: int) -> nat
    decreases m,
{
    if m <= 0 {
        0
    } else {
        shared_positions(vs, t, m - 1) + if rows_below_except(vs, m - 1, t) > 1 {
            1nat
        } else {
            0nat
        }
    }
}

/// The two counts of the fitness of a chromosome (its rows of values):
/// the rows lying entirely below `0.1`, and the positions `j` before the
/// last one of the first row for which more than one row lies below `0.1`
/// once position `j` is left out.
pub fn fitness_counts(cromosome: &Vec<Vec<u32>>) -> (counts: (u32, u32))
    requires
        cromosome.len() > 0,
        cromosome@[0].len() > 0,
        cromosome.len() <= u32::MAX,
        cromosome@[0].len() - 1 <= u32::MAX,
        forall|r: int|
            0 <= r < cromosome.len() ==> (#[trigger] cromosome@[r]).len() + 1
                >= cromosome@[0].len(),
    ensures
        counts.0 == afines_rows(cromosome@, FITNESS_ALPHA_BITS),
        counts.1 == shared_positions(cromosome@, FITNESS_ALPHA_BITS, cromosome@[0].len() - 1),
{
    let alpha: u32 = FITNESS_ALPHA_BITS;
    let mut t: u32 = 0;
    let mut p: u32 = 0;
    let mut r: usize = 0;
    while r < cromosome.len()
        invariant
            r <= cromosome.len(),
            cromosome.len() <= u32::MAX,
            alpha == FITNESS_ALPHA_BITS,
            t == afines_rows(cromosome@.subrange(0, r as int), alpha),
            t <= r,
        decreases cromosome.len() - r,
    {
        assert(cromosome@.subrange(0, r + 1).drop_last() =~= cromosome@.subrange(0, r as int));
        if is_afines(&cromosome[r], alpha) {
            t = t + 1;
        }
        r = r + 1;
    }
    assert(cromosome@.subrange(0, cromosome.len() as int) =~= cromosome@);
    let width = cromosome[0].len() - 1;
    let mut i: usize = 0;
    while i < width
        invariant
            i <= width,
            width == cromosome@[0].len() - 1,
            width <= u32::MAX,
            alpha == FITNESS_ALPHA_BITS,
            forall|r: int|
                0 <= r < cromosome.len() ==> (#[trigger] cromosome@[r]).len() + 1
                    >= cromosome@[0].len(),
            p == shared_positions(cromosome@, alpha, i as int),
            p <= i,
        decreases width - i,
    {
        if count_vectors_below_threshold(cromosome, i, alpha) > 1 {
            p = p + 1;
        }
        i = i + 1;
    }
    (t, p)
}

/// Each value of the first row is below the value at the same position of
/// the second: no pair compares `>=`.
pub open spec fn none_at_least(a: Seq<u32>, b: Seq<u32>) -> bool {
    forall|i: int| 0 <= i < a.len() ==> !ge_spec(#[trigger] a[i], b[i])
}

/// Whether no value of `v1` is `>=` the value of `v2` at the same position.
pub fn is_less(v1: &Vec<u32>, v2: &Vec<u32>) -> (r: bool)
    requires
        v1.len() == v2.len(),
    ensures
        r == none_at_least(v1@, v2@),
{
    let mut i: usize = 0;
    while i < v1.len()
        invariant
            i <= v1.len(),
            v1.len() == v2.len(),
            forall|j: int| 0 <= j < i ==> !ge_spec(#[trigger] v1@[j], v2@[j]),
        decreases v1.len() - i,
    {
        if f32_ge(v1[i], v2[i]) {
            return false;
        }
        i = i + 1;
    }
    true
}

/// `a` is no longer than `b`, and no value of `a` is `>` the value of `b` at
/// the same position.
pub open spec fn none_greater(a: Seq<u32>, b: Seq<u32>) -> bool {
    a.len() <= b.len() && forall|i: int| 0 <= i < a.len() ==> !gt_spec(#[trigger] a[i], b[i])
}

/// `less` reads `row2` at each position of `row1` until it finds a greater
/// value.
pub open spec fn less_reads_in_range(a: Seq<u32>, b: Seq<u32>) -> bool {
    a.len() <= b.len() || exists|i: int| 0 <= i < b.len() && gt_spec(a[i], #[trigger] b[i])
}

/// Whether no value of `row1` is `>` the value of `row2` at the same
/// position.
pub fn less(row1: &Vec<u32>, row2: &Vec<u32>) -> (r: bool)
    requires
        less_reads_in_range(row1@, row2@),
    ensures
        r == none_greater(row1@, row2@),
{
    let mut exceeded: u32 = 0;
    let mut i: usize = 0;
    while i < row1.len()
        invariant_except_break
            exceeded == 0,
        invariant
            i <= row1.len(),
            less_reads_in_range(row1@, row2@),
            forall|j: int| 0 <= j < i ==> j < row2.len() && !gt_spec(#[trigger] row1@[j], row2@[j]),
        ensures
            exceeded == 0 ==> i >= row1.len(),
            exceeded != 0 ==> i < row1.len() && i < row2.len() && gt_spec(row1@[i as int], row2@[i as int]),
        decreases row1.len() - i,
    {
        if i >= row2.len() {
            proof {
                let w = choose|w: int| 0 <= w < row2.len() && gt_spec(row1@[w], #[trigger] row2@[w]);
                assert(!gt_spec(row1@[w], row2@[w]));
            }
        }
        if f32_gt(row1[i], row2[i]) {
            exceeded = exceeded + 1;
            break;
        }
        i = i + 1;
    }
    if exceeded != 0 {
        false
    } else {
        true
    }
}

/// The pattern of `0.0` for a value below `alpha`, of `1.0` otherwise.
pub open spec fn threshold_bit(x: u32, alpha: u32) -> u32 {
    if lt_spec(x, alpha) {
        ZERO_BITS
    } else {
        ONE_BITS
    }
}

/// Every row with each value replaced by `0.0` when it is below `alpha` and
/// by `1.0` otherwise.
pub fn apply_threshold(vectors: &Vec<Vec<u32>>, alpha: u32) -> (result: Vec<Vec<u32>>)
    ensures
        result.len() == vectors.len(),
        forall|r: int|
            0 <= r < vectors.len() ==> (#[trigger] result@[r])@.len() == vectors@[r]@.len() && forall|
                k: int,
            |
                0 <= k < vectors@[r]@.len() ==> #[trigger] result@[r]@[k] == threshold_bit(
                    vectors@[r]@[k],
                    alpha,
                ),
{
    let mut result: Vec<Vec<u32>> = Vec::new();
    let mut r: usize = 0;
    while r < vectors.len()
        invariant
            r <= vectors.len(),
            result.len() == r,
            forall|q: int|
                0 <= q < r ==> (#[trigger] result@[q])@.len() == vectors@[q]@.len() && forall|
                    k: int,
                |
                    0 <= k < vectors@[q]@.len() ==> #[trigger] result@[q]@[k] == threshold_bit(
                        vectors@[q]@[k],
                        alpha,
                    ),
        decreases vectors.len() - r,
    {
        let vector = &vectors[r];
        let mut thresholded: Vec<u32> = Vec::new();
        let mut k: usize = 0;
        while k < vector.len()
            invariant
                k <= vector.len(),
                thresholded.len() == k,
                forall|m: int|
                    0 <= m < k ==> #[trigger] thresholded@[m] == threshold_bit(vector@[m], alpha),
            decreases vector.len() - k,
        {
            if f32_lt(vector[k], alpha) {
                thresholded.push(ZERO_BITS);
            } else {
                thresholded.push(ONE_BITS);
            }
            k = k + 1;
        }
        result.push(thresholded);
        r = r + 1;
    }
    result
}

/// A row entirely below the threshold stays below it once any one value is
/// left out.
pub proof fn lemma_afines_passes_check(v: Seq<u32>, i: int, t: u32)
    requires
        0 <= i < v.len(),
        all_below(v, t),
    ensures
        all_below(v.remove(i), t),
{
    assert forall|k: int| 0 <= k < v.remove(i).len() implies lt_spec(#[trigger] v.remove(i)[k], t) by {
        if k < i {
            assert(v.remove(i)[k] == v[k]);
        } else {
            assert(v.remove(i)[k] == v[k + 1]);
        }
    }
}

/// Leaving a position out never lowers the number of rows below the
/// threshold: every row entirely below it is counted.
pub proof fn lemma_count_covers_afines(vs: Seq<Vec<u32>>, j: int, t: u32)
    requires
        all_rows_reach(vs, j),
        0 <= j,
    ensures
        afines_rows(vs, t) <= rows_below_except(vs, j, t),
    decreases vs.len(),
{
    if vs.len() > 0 {
        assert(all_rows_reach(vs.drop_last(), j));
        lemma_count_covers_afines(vs.drop_last(), j, t);
        assert(j < vs[vs.len() - 1].len());
        if all_below(vs.last()@, t) {
            lemma_afines_passes_check(vs.last()@, j, t);
        }
    }
}

/// A row strictly below another at every position is also nowhere above it.
pub proof fn lemma_is_less_implies_less(a: Seq<u32>, b: Seq<u32>)
    requires
        a.len() == b.len(),
        none_at_least(a, b),
    ensures
        less_reads_in_range(a, b),
        none_greater(a, b),
{
    assert forall|i: int| 0 <= i < a.len() implies !gt_spec(#[trigger] a[i], b[i]) by {
        assert(!ge_spec(a[i], b[i]));
    }
}

/// The count of rows below the threshold without position `j` is at most
/// the number of rows, and it is all of them when every row is.
pub proof fn lemma_rows_below_except_bounds(vs: Seq<Vec<u32>>, j: int, t: u32)
    ensures
        rows_below_except(vs, j, t) <= vs.len(),
        (forall|r: int| 0 <= r < vs.len() ==> all_below((#[trigger] vs[r])@.remove(j), t))
            ==> rows_below_except(vs, j, t) == vs.len(),
        (forall|r: int| 0 <= r < vs.len() ==> !all_below((#[trigger] vs[r])@.remove(j), t))
            ==> rows_below_except(vs, j, t) == 0,
    decreases vs.len(),
{
    if vs.len() > 0 {
        let d = vs.drop_last();
        lemma_rows_below_except_bounds(d, j, t);
        if forall|r: int| 0 <= r < vs.len() ==> all_below((#[trigger] vs[r])@.remove(j), t) {
            assert forall|r: int| 0 <= r < d.len() implies all_below((#[trigger] d[r])@.remove(j), t) by {
                assert(d[r] == vs[r]);
            }
            assert(all_below(vs[vs.len() - 1]@.remove(j), t));
        }
        if forall|r: int| 0 <= r < vs.len() ==> !all_below((#[trigger] vs[r])@.remove(j), t) {
            assert forall|r: int| 0 <= r < d.len() implies !all_below((#[trigger] d[r])@.remove(j), t) by {
                assert(d[r] == vs[r]);
            }
            assert(!all_below(vs[vs.len() - 1]@.remove(j), t));
        }
    }
}

/// Adding a row never lowers the count of rows below the threshold
/// without position `j`; it raises it by one exactly when the new row is
/// below it without position `j`.
pub proof fn lemma_rows_below_except_push(vs: Seq<Vec<u32>>, row: Vec<u32>, j: int, t: u32)
    ensures
        rows_below_except(vs.push(row), j, t) == rows_below_except(vs, j, t) + if all_below(
            row@.remove(j),
            t,
        ) {
            1nat
        } else {
            0nat
        },
{
    assert(vs.push(row).drop_last() =~= vs);
}

/// The second fitness count counts the positions `j < m` at which at least
/// two rows (any number more than one) lie below the threshold once `j` is
/// left out: it is at most `m`, it is `m` when every such position has two
/// rows or more, it is 0 when none has, and position `m` adds one exactly
/// when it has two rows or more.
pub proof fn lemma_shared_positions_counts(vs: Seq<Vec<u32>>, t: u32, m: int)
    requires
        m >= 0,
    ensures
        shared_positions(vs, t, m) <= m,
        (forall|j: int| 0 <= j < m ==> #[trigger] rows_below_except(vs, j, t) >= 2)
            ==> shared_positions(vs, t, m) == m,
        (forall|j: int| 0 <= j < m ==> #[trigger] rows_below_except(vs, j, t) < 2)
            ==> shared_positions(vs, t, m) == 0,
        rows_below_except(vs, m, t) >= 2 ==> shared_positions(vs, t, m + 1) == shared_positions(
            vs,
            t,
            m,
        ) + 1,
        rows_below_except(vs, m, t) < 2 ==> shared_positions(vs, t, m + 1) == shared_positions(
            vs,
            t,
            m,
        ),
    decreases m,
{
    if m > 0 {
        lemma_shared_positions_counts(vs, t, m - 1);
        if forall|j: int| 0 <= j < m ==> #[trigger] rows_below_except(vs, j, t) >= 2 {
            assert(rows_below_except(vs, m - 1, t) >= 2);
        }
        if forall|j: int| 0 <= j < m ==> #[trigger] rows_below_except(vs, j, t) < 2 {
            assert(rows_below_except(vs, m - 1, t) < 2);
        }
    }
}

/// Adding a row never uncounts a position: the second fitness count of the
/// larger set of rows is at least that of the smaller.
pub proof fn lemma_shared_positions_monotone(vs: Seq<Vec<u32>>, row: Vec<u32>, t: u32, m: int)
    ensures
        shared_positions(vs.push(row), t, m) >= shared_positions(vs, t, m),
    decreases m,
{
    if m > 0 {
        lemma_shared_positions_monotone(vs, row, t, m - 1);
        lemma_rows_below_except_push(vs, row, m - 1, t);
    }
}

/// The first fitness count is at most the number of rows, all of them when
/// every row lies below the threshold, and none when no row does; adding a
/// row raises it by one exactly when that row lies below the threshold.
pub proof fn lemma_afines_rows_counts(vs: Seq<Vec<u32>>, row: Vec<u32>, t: u32)
    ensures
        afines_rows(vs, t) <= vs.len(),
        (forall|r: int| 0 <= r < vs.len() ==> all_below((#[trigger] vs[r])@, t)) ==> afines_rows(
            vs,
            t,
        ) == vs.len(),
        (forall|r: int| 0 <= r < vs.len() ==> !all_below((#[trigger] vs[r])@, t)) ==> afines_rows(
            vs,
            t,
        ) == 0,
        afines_rows(vs.push(row), t) == afines_rows(vs, t) + if all_below(row@, t) {
            1nat
        } else {
            0nat
        },
    decreases vs.len(),
{
    assert(vs.push(row).drop_last() =~= vs);
    if vs.len() > 0 {
        let d = vs.drop_last();
        lemma_afines_rows_counts(d, row, t);
        if forall|r: int| 0 <= r < vs.len() ==> all_below((#[trigger] vs[r])@, t) {
            assert forall|r: int| 0 <= r < d.len() implies all_below((#[trigger] d[r])@, t) by {
                assert(d[r] == vs[r]);
            }
            assert(all_below(vs[vs.len() - 1]@, t));
        }
        if forall|r: int| 0 <= r < vs.len() ==> !all_below((#[trigger] vs[r])@, t) {
            assert forall|r: int| 0 <= r < d.len() implies !all_below((#[trigger] d[r])@, t) by {
                assert(d[r] == vs[r]);
            }
            assert(!all_below(vs[vs.len() - 1]@, t));
        }
    }
}

/// When there are two rows or more and every row lies entirely below the
/// threshold, both fitness counts are full: every row, and every position
/// before the last one of the first row.
pub proof fn lemma_fitness_counts_all_low(vs: Seq<Vec<u32>>, t: u32)
    requires
        vs.len() >= 2,
        vs[0].len() > 0,
        forall|r: int| 0 <= r < vs.len() ==> all_below((#[trigger] vs[r])@, t),
        forall|r: int| 0 <= r < vs.len() ==> (#[trigger] vs[r]).len() + 1 >= vs[0].len(),
    ensures
        afines_rows(vs, t) == vs.len(),
        shared_positions(vs, t, vs[0].len() - 1) == vs[0].len() - 1,
{
    let w = vs[0].len() - 1;
    lemma_afines_rows_counts(vs, vs[0], t);
    assert forall|j: int| 0 <= j < w implies #[trigger] rows_below_except(vs, j, t) >= 2 by {
        assert forall|r: int| 0 <= r < vs.len() implies all_below((#[trigger] vs[r])@.remove(j), t) by {
            assert(vs[r].len() + 1 >= vs[0].len());
            lemma_afines_passes_check(vs[r]@, j, t);
        }
        lemma_rows_below_except_bounds(vs, j, t);
    }
    lemma_shared_positions_counts(vs, t, w);
}

} // verus!
