//! Column statistics of a matrix of single-precision values (given by their
//! bit patterns) and binarisation of its rows against per-column thresholds.
use vstd::prelude::*;
use crate::float_order::{
    f32_gt, f32_is_nan, f32_lt, ge_spec, gt_spec, is_nan, le_spec, lt_spec, ordinal, F32_MAX_BITS, ONE_BITS, ZERO_BITS,
};
use crate::thresholds::threshold_bit;
use vstd::seq_lib::lemma_multiset_commutative;

verus! {

/// The running maximum of column `i` over the rows `0..m`, started at
/// `0.0`: a value replaces it when it is `>` it. Rows too short for column
/// `i` leave it as it is.
pub open spec fn column_max(v: Seq<Vec<u32>>, i: int, m: int) -> u32
    decreases m,
{
    if m <= 0 {
        ZERO_BITS
    } else {
        let prev = column_max(v, i, m - 1);
        if i < v[m - 1].len() && gt_spec(v[m - 1]@[i], prev) {
            v[m - 1]@[i]
        } else {
            prev
        }
    }
}

/// For each column of the first row, the largest value of the column, or
/// `0.0` when all are smaller.
pub fn column_maxes(v: &Vec<Vec<u32>>) -> (maxes: Vec<u32>)
    requires
        v.len() > 0,
        forall|r: int| 0 <= r < v.len() ==> (#[trigger] v@[r]).len() <= v@[0].len(),
    ensures
        maxes.len() == v@[0].len(),
        forall|i: int| 0 <= i < maxes.len() ==> maxes@[i] == column_max(v@, i, v.len() as int),
{
    let width = v[0].len();
    let mut maxes: Vec<u32> = Vec::new();
    let mut k: usize = 0;
    while k < width
        invariant
            k <= width,
            maxes.len() == k,
            forall|i: int| 0 <= i < k ==> maxes@[i] == ZERO_BITS,
        decreases width - k,
    {
        maxes.push(ZERO_BITS);
        k = k + 1;
    }
    let mut r: usize = 0;
    while r < v.len()
        invariant
            r <= v.len(),
            width == v@[0].len(),
            maxes.len() == width,
            forall|q: int| 0 <= q < v.len() ==> (#[trigger] v@[q]).len() <= v@[0].len(),
            forall|i: int| 0 <= i < width ==> maxes@[i] == column_max(v@, i, r as int),
        decreases v.len() - r,
    {
        let row = &v[r];
        assert(row.len() <= width);
        let mut i: usize = 0;
        while i < row.len()
            invariant
                i <= row.len(),
                row.len() <= width,
                row == v@[r as int],
                maxes.len() == width,
                forall|j: int| 0 <= j < i ==> maxes@[j] == column_max(v@, j, r + 1),
                forall|j: int| i <= j < width ==> maxes@[j] == column_max(v@, j, r as int),
            decreases row.len() - i,
        {
            let val = row[i];
            if f32_gt(val, maxes[i]) {
                maxes.set(i, val);
            }
            i = i + 1;
        }
        r = r + 1;
    }
    maxes
}

/// The running minimum of column `i` over the rows `0..m`, started at
/// `f32::MAX`: a value replaces it when it is `<` it.
pub open spec fn column_min(v: Seq<Vec<u32>>, i: int, m: int) -> u32
    decreases m,
{
    if m <= 0 {
        F32_MAX_BITS
    } else {
        let prev = column_min(v, i, m - 1);
        if lt_spec(v[m - 1]@[i], prev) {
            v[m - 1]@[i]
        } else {
            prev
        }
    }
}

/// There are rows, and all of them are as long as the first.
pub open spec fn rectangular(v: Seq<Vec<u32>>) -> bool {
    v.len() > 0 && forall|r: int| 0 <= r < v.len() ==> (#[trigger] v[r]).len() == v[0].len()
}

/// For each column, the smallest value of the column, or `f32::MAX` when
/// all are larger; `None` when there is no row or some row is not as long
/// as the first.
pub fn column_mins(v: &Vec<Vec<u32>>) -> (mins: Option<Vec<u32>>)
    ensures
        mins is None <==> !rectangular(v@),
        mins matches Some(m) ==> m.len() == v@[0].len() && forall|i: int|
            0 <= i < m.len() ==> m@[i] == column_min(v@, i, v.len() as int),
{
    if v.len() == 0 {
        return None;
    }
    let num_columns = v[0].len();
    let mut mins: Vec<u32> = Vec::new();
    let mut k: usize = 0;
    while k < num_columns
        invariant
            k <= num_columns,
            mins.len() == k,
            forall|i: int| 0 <= i < k ==> mins@[i] == F32_MAX_BITS,
        decreases num_columns - k,
    {
        mins.push(F32_MAX_BITS);
        k = k + 1;
    }
    let mut r: usize = 0;
    while r < v.len()
        invariant
            r <= v.len(),
            num_columns == v@[0].len(),
            mins.len() == num_columns,
            forall|q: int| 0 <= q < r ==> (#[trigger] v@[q]).len() == num_columns,
            forall|i: int| 0 <= i < num_columns ==> mins@[i] == column_min(v@, i, r as int),
        decreases v.len() - r,
    {
        let row = &v[r];
        if row.len() != num_columns {
            return None;
        }
        let mut i: usize = 0;
        while i < row.len()
            invariant
                i <= row.len(),
                row.len() == num_columns,
                row == v@[r as int],
                mins.len() == num_columns,
                forall|j: int| 0 <= j < i ==> mins@[j] == column_min(v@, j, r + 1),
                forall|j: int| i <= j < num_columns ==> mins@[j] == column_min(v@, j, r as int),
            decreases row.len() - i,
        {
            let val = row[i];
            if f32_lt(val, mins[i]) {
                mins.set(i, val);
            }
            i = i + 1;
        }
        r = r + 1;
    }
    Some(mins)
}

/// The number of columns when there are rows and all are as long as the
/// first; `None` otherwise.
pub fn uniform_width(v: &Vec<Vec<u32>>) -> (width: Option<usize>)
    ensures
        width is None <==> !rectangular(v@),
        width matches Some(w) ==> w == v@[0].len(),
{
    if v.len() == 0 {
        return None;
    }
    let num_columns = v[0].len();
    let mut r: usize = 0;
    while r < v.len()
        invariant
            r <= v.len(),
            num_columns == v@[0].len(),
            forall|q: int| 0 <= q < r ==> (#[trigger] v@[q]).len() == num_columns,
        decreases v.len() - r,
    {
        if v[r].len() != num_columns {
            return None;
        }
        r = r + 1;
    }
    Some(num_columns)
}

/// Each row with each value replaced by `0.0` when it is below the
/// threshold of its column and by `1.0` otherwise; `None` when some row
/// does not have one value per threshold.
pub fn binarize_against(v: &Vec<Vec<u32>>, thresholds: &Vec<u32>) -> (result: Option<
    Vec<Vec<u32>>,
>)
    ensures
        result is None <==> exists|r: int|
            0 <= r < v.len() && (#[trigger] v@[r]).len() != thresholds.len(),
        result matches Some(b) ==> b.len() == v.len() && forall|r: int|
            0 <= r < v.len() ==> (#[trigger] b@[r])@.len() == thresholds.len() && forall|k: int|
                0 <= k < thresholds.len() ==> #[trigger] b@[r]@[k] == threshold_bit(
                    v@[r]@[k],
                    thresholds@[k],
                ),
{
    let mut result: Vec<Vec<u32>> = Vec::new();
    let mut r: usize = 0;
    while r < v.len()
        invariant
            r <= v.len(),
            result.len() == r,
            forall|q: int| 0 <= q < r ==> (#[trigger] v@[q]).len() == thresholds.len(),
            forall|q: int|
                0 <= q < r ==> (#[trigger] result@[q])@.len() == thresholds.len() && forall|k: int|
                    0 <= k < thresholds.len() ==> #[trigger] result@[q]@[k] == threshold_bit(
                        v@[q]@[k],
                        thresholds@[k],
                    ),
        decreases v.len() - r,
    {
        let row = &v[r];
        if row.len() != thresholds.len() {
            return None;
        }
        let mut binarized_row: Vec<u32> = Vec::new();
        let mut i: usize = 0;
        while i < row.len()
            invariant
                i <= row.len(),
                row.len() == thresholds.len(),
                binarized_row.len() == i,
                forall|k: int|
                    0 <= k < i ==> #[trigger] binarized_row@[k] == threshold_bit(
                        row@[k],
                        thresholds@[k],
                    ),
            decreases row.len() - i,
        {
            if f32_lt(row[i], thresholds[i]) {
                binarized_row.push(ZERO_BITS);
            } else {
                binarized_row.push(ONE_BITS);
            }
            i = i + 1;
        }
        result.push(binarized_row);
        r = r + 1;
    }
    Some(result)
}

/// The running minimum is never NaN and never above any value of the column
/// that is not NaN.
pub proof fn lemma_column_min_is_lowest(v: Seq<Vec<u32>>, i: int, m: int)
    requires
        0 <= m <= v.len(),
    ensures
        !is_nan(column_min(v, i, m)),
        forall|r: int|
            0 <= r < m && !is_nan(#[trigger] v[r]@[i]) ==> le_spec(column_min(v, i, m), v[r]@[i]),
    decreases m,
{
    if m > 0 {
        lemma_column_min_is_lowest(v, i, m - 1);
        let prev = column_min(v, i, m - 1);
        let cur = column_min(v, i, m);
        assert(ordinal(cur) <= ordinal(prev));
    }
}

/// The running maximum is never NaN and never below `0.0` or any value of
/// the column that is not NaN.
pub proof fn lemma_column_max_is_highest(v: Seq<Vec<u32>>, i: int, m: int)
    requires
        0 <= m <= v.len(),
    ensures
        !is_nan(column_max(v, i, m)),
        le_spec(ZERO_BITS, column_max(v, i, m)),
        forall|r: int|
            0 <= r < m && i < v[r].len() && !is_nan(#[trigger] v[r]@[i]) ==> le_spec(
                v[r]@[i],
                column_max(v, i, m),
            ),
    decreases m,
{
    if m > 0 {
        lemma_column_max_is_highest(v, i, m - 1);
        let prev = column_max(v, i, m - 1);
        let cur = column_max(v, i, m);
        assert(ordinal(cur) >= ordinal(prev));
    }
}

/// `x` placed before the first value of `s` that is `>` it, that is, after
/// every value before it that is not.
pub open spec fn insert_in_order(s: Seq<u32>, x: u32) -> Seq<u32>
    decreases s.len(),
{
    if s.len() == 0 {
        seq![x]
    } else if gt_spec(s[0], x) {
        seq![x] + s
    } else {
        seq![s[0]] + insert_in_order(s.drop_first(), x)
    }
}

/// The values in increasing order, equal values kept in the order in which
/// they come (a stable sort).
pub open spec fn stable_sort(s: Seq<u32>) -> Seq<u32>
    decreases s.len(),
{
    if s.len() == 0 {
        Seq::empty()
    } else {
        insert_in_order(stable_sort(s.drop_last()), s.last())
    }
}

proof fn lemma_insert_at(s: Seq<u32>, x: u32, p: int)
    requires
        0 <= p <= s.len(),
        forall|j: int| 0 <= j < p ==> !gt_spec(#[trigger] s[j], x),
        p == s.len() || gt_spec(s[p], x),
    ensures
        insert_in_order(s, x) == s.insert(p, x),
    decreases s.len(),
{
    if s.len() == 0 {
        assert(s.insert(p, x) =~= seq![x]);
    } else if gt_spec(s[0], x) {
        assert(s.insert(p, x) =~= seq![x] + s);
    } else {
        let t = s.drop_first();
        assert forall|j: int| 0 <= j < p - 1 implies !gt_spec(#[trigger] t[j], x) by {
            assert(t[j] == s[j + 1]);
        }
        lemma_insert_at(t, x, p - 1);
        assert(s.insert(p, x) =~= seq![s[0]] + t.insert(p - 1, x));
    }
}

fn insert_value(sorted: &mut Vec<u32>, x: u32)
    ensures
        final(sorted)@ == insert_in_order(old(sorted)@, x),
{
    let mut p: usize = 0;
    while p < sorted.len() && !f32_gt(sorted[p], x)
        invariant
            p <= sorted.len(),
            forall|j: int| 0 <= j < p ==> !gt_spec(#[trigger] sorted@[j], x),
        decreases sorted.len() - p,
    {
        p = p + 1;
    }
    proof {
        lemma_insert_at(sorted@, x, p as int);
    }
    sorted.insert(p, x);
}

/// The values sorted by `f32` order, equal values kept in the order in
/// which they come.
pub fn sort_values(values: &Vec<u32>) -> (sorted: Vec<u32>)
    ensures
        sorted@ == stable_sort(values@),
{
    let mut sorted: Vec<u32> = Vec::new();
    let mut k: usize = 0;
    while k < values.len()
        invariant
            k <= values.len(),
            sorted@ == stable_sort(values@.subrange(0, k as int)),
        decreases values.len() - k,
    {
        assert(values@.subrange(0, k + 1).drop_last() =~= values@.subrange(0, k as int));
        insert_value(&mut sorted, values[k]);
        k = k + 1;
    }
    assert(values@.subrange(0, values.len() as int) =~= values@);
    sorted
}

/// Whether the values increase (weakly) along the list.
pub open spec fn sorted_by_value(s: Seq<u32>) -> bool {
    forall|a: int, b: int| 0 <= a < b < s.len() ==> le_spec(s[a], s[b])
}

/// No value is a NaN.
pub open spec fn no_nan(s: Seq<u32>) -> bool {
    forall|k: int| 0 <= k < s.len() ==> !is_nan(#[trigger] s[k])
}

proof fn lemma_insert_keeps_order(s: Seq<u32>, x: u32)
    requires
        sorted_by_value(s),
        no_nan(s),
        !is_nan(x),
    ensures
        sorted_by_value(insert_in_order(s, x)),
        no_nan(insert_in_order(s, x)),
        insert_in_order(s, x).to_multiset() == s.to_multiset().insert(x),
    decreases s.len(),
{
    broadcast use vstd::multiset::group_multiset_axioms;

    let r = insert_in_order(s, x);
    if s.len() == 0 {
        assert(s =~= Seq::<u32>::empty());
        assert(r =~= Seq::<u32>::empty().push(x));
        Seq::<u32>::empty().to_multiset_ensures();
        assert(r.to_multiset() =~= s.to_multiset().insert(x));
    } else if gt_spec(s[0], x) {
        assert(r == seq![x] + s);
        assert forall|a: int, b: int| 0 <= a < b < r.len() implies le_spec(r[a], r[b]) by {
            if a == 0 {
                assert(r[b] == s[b - 1]);
                assert(le_spec(s[0], s[b - 1]) || b - 1 == 0);
            } else {
                assert(r[a] == s[a - 1]);
                assert(r[b] == s[b - 1]);
            }
        }
        assert forall|k: int| 0 <= k < r.len() implies !is_nan(#[trigger] r[k]) by {
            if k > 0 {
                assert(r[k] == s[k - 1]);
            }
        }
        lemma_multiset_commutative(seq![x], s);
        assert(seq![x] =~= Seq::<u32>::empty().push(x));
        Seq::<u32>::empty().to_multiset_ensures();
        assert(Seq::<u32>::empty().to_multiset() =~= vstd::multiset::Multiset::empty());
        assert(r.to_multiset() =~= s.to_multiset().insert(x));
    } else {
        let t = s.drop_first();
        assert forall|a: int, b: int| 0 <= a < b < t.len() implies le_spec(t[a], t[b]) by {
            assert(t[a] == s[a + 1]);
            assert(t[b] == s[b + 1]);
        }
        assert forall|k: int| 0 <= k < t.len() implies !is_nan(#[trigger] t[k]) by {
            assert(t[k] == s[k + 1]);
        }
        lemma_insert_keeps_order(t, x);
        let it = insert_in_order(t, x);
        assert(r == seq![s[0]] + it);
        assert(it.to_multiset().count(x) > 0);
        assert forall|a: int, b: int| 0 <= a < b < r.len() implies le_spec(r[a], r[b]) by {
            if a == 0 {
                assert(r[b] == it[b - 1]);
                assert(it.to_multiset().count(it[b - 1]) > 0) by {
                    it.to_multiset_ensures();
                    assert(it.contains(it[b - 1]));
                }
                assert(t.to_multiset().insert(x).count(it[b - 1]) > 0);
                if it[b - 1] != x {
                    assert(t.to_multiset().count(it[b - 1]) > 0);
                    t.to_multiset_ensures();
                    let w = choose|w: int| 0 <= w < t.len() && t[w] == it[b - 1];
                    assert(t[w] == s[w + 1]);
                }
            } else {
                assert(r[a] == it[a - 1]);
                assert(r[b] == it[b - 1]);
            }
        }
        assert forall|k: int| 0 <= k < r.len() implies !is_nan(#[trigger] r[k]) by {
            if k > 0 {
                assert(r[k] == it[k - 1]);
            }
        }
        lemma_multiset_commutative(seq![s[0]], it);
        lemma_multiset_commutative(seq![s[0]], t);
        assert(s =~= seq![s[0]] + t);
        assert(r.to_multiset() =~= s.to_multiset().insert(x));
    }
}

/// The stable sort puts the values (none a NaN) in increasing order and
/// keeps each value as many times as it occurs.
pub proof fn lemma_stable_sort_sorts(s: Seq<u32>)
    requires
        no_nan(s),
    ensures
        sorted_by_value(stable_sort(s)),
        no_nan(stable_sort(s)),
        stable_sort(s).to_multiset() == s.to_multiset(),
    decreases s.len(),
{
    broadcast use vstd::multiset::group_multiset_axioms;

    if s.len() == 0 {
        assert(stable_sort(s).to_multiset() =~= s.to_multiset()) by {
            s.to_multiset_ensures();
            stable_sort(s).to_multiset_ensures();
        }
    } else {
        let d = s.drop_last();
        assert forall|k: int| 0 <= k < d.len() implies !is_nan(#[trigger] d[k]) by {
            assert(d[k] == s[k]);
        }
        lemma_stable_sort_sorts(d);
        lemma_insert_keeps_order(stable_sort(d), s.last());
        d.to_multiset_ensures();
        assert(d.push(s.last()) =~= s);
    }
}

/// The middle of a sorted column: its middle value when it has an odd
/// number of values, its two middle values otherwise.
#[derive(Clone, Copy, Debug, PartialEq, Eq)]
pub enum Middle {
    Single(u32),
    Pair(u32, u32),
}

/// The middle of a sorted list of values.
pub open spec fn middle_of(sorted: Seq<u32>) -> Middle {
    let n = sorted.len() as int;
    if n % 2 == 0 {
        Middle::Pair(sorted[n / 2 - 1], sorted[n / 2])
    } else {
        Middle::Single(sorted[n / 2])
    }
}

/// Column `i` of the matrix.
pub open spec fn column_of(v: Seq<Vec<u32>>, i: int) -> Seq<u32> {
    Seq::new(v.len(), |r: int| v[r]@[i])
}

/// Taking the medians does not fail: every row reaches every column of the
/// first row and, when a column has two values or more to sort, none of
/// them is a NaN.
pub open spec fn medians_ok(v: Seq<Vec<u32>>) -> bool {
    v.len() > 0 ==> forall|r: int|
        0 <= r < v.len() ==> (#[trigger] v[r]).len() >= v[0].len() && (v.len() >= 2 ==> forall|
            i: int,
        | 0 <= i < v[0].len() ==> !is_nan(#[trigger] v[r]@[i]))
}

/// Whether the medians can be taken: `medians_ok`.
pub fn medians_defined(v: &Vec<Vec<u32>>) -> (r: bool)
    ensures
        r == medians_ok(v@),
{
    if v.len() == 0 {
        return true;
    }
    let width = v[0].len();
    let mut r: usize = 0;
    while r < v.len()
        invariant
            r <= v.len(),
            v.len() > 0,
            width == v@[0].len(),
            forall|q: int|
                0 <= q < r ==> (#[trigger] v@[q]).len() >= width && (v.len() >= 2 ==> forall|i: int|
                    0 <= i < width ==> !is_nan(#[trigger] v@[q]@[i])),
        decreases v.len() - r,
    {
        let row = &v[r];
        if row.len() < width {
            return false;
        }
        if v.len() >= 2 {
            let mut i: usize = 0;
            while i < width
                invariant
                    i <= width <= row.len(),
                    r < v.len(),
                    v.len() >= 2,
                    width == v@[0].len(),
                    row == v@[r as int],
                    forall|k: int| 0 <= k < i ==> !is_nan(#[trigger] row@[k]),
                decreases width - i,
            {
                if f32_is_nan(row[i]) {
                    assert(is_nan(v@[r as int]@[i as int]));
                    return false;
                }
                i = i + 1;
            }
        }
        r = r + 1;
    }
    true
}

/// For each column of the first row, the middle of the column once sorted
/// (one value for an odd number of rows, two for an even number, to be
/// averaged); `None` when there is no row.
pub fn column_middles(v: &Vec<Vec<u32>>) -> (middles: Option<Vec<Middle>>)
    requires
        medians_ok(v@),
    ensures
        middles is None <==> v.len() == 0,
        middles matches Some(m) ==> m.len() == v@[0].len() && forall|i: int|
            0 <= i < m.len() ==> m@[i] == middle_of(stable_sort(column_of(v@, i))),
{
    if v.len() == 0 {
        return None;
    }
    let num_columns = v[0].len();
    let mut middles: Vec<Middle> = Vec::new();
    let mut i: usize = 0;
    while i < num_columns
        invariant
            i <= num_columns,
            num_columns == v@[0].len(),
            v.len() > 0,
            medians_ok(v@),
            middles.len() == i,
            forall|q: int|
                0 <= q < i ==> middles@[q] == middle_of(stable_sort(column_of(v@, q))),
        decreases num_columns - i,
    {
        let mut column_values: Vec<u32> = Vec::new();
        let mut r: usize = 0;
        while r < v.len()
            invariant
                r <= v.len(),
                i < num_columns,
                num_columns == v@[0].len(),
                medians_ok(v@),
                v.len() > 0,
                column_values@ == column_of(v@, i as int).subrange(0, r as int),
            decreases v.len() - r,
        {
            assert(v@[r as int].len() >= v@[0].len());
            column_values.push(v[r][i]);
            assert(column_values@ =~= column_of(v@, i as int).subrange(0, r + 1));
            r = r + 1;
        }
        assert(column_values@ =~= column_of(v@, i as int));
        let sorted = sort_values(&column_values);
        proof {
            lemma_stable_sort_len(column_values@);
        }
        let num_values = sorted.len();
        if num_values % 2 == 0 {
            middles.push(Middle::Pair(sorted[num_values / 2 - 1], sorted[num_values / 2]));
        } else {
            middles.push(Middle::Single(sorted[num_values / 2]));
        }
        i = i + 1;
    }
    Some(middles)
}

proof fn lemma_insert_len(s: Seq<u32>, x: u32)
    ensures
        insert_in_order(s, x).len() == s.len() + 1,
    decreases s.len(),
{
    if s.len() > 0 && !gt_spec(s[0], x) {
        lemma_insert_len(s.drop_first(), x);
    }
}

proof fn lemma_stable_sort_len(s: Seq<u32>)
    ensures
        stable_sort(s).len() == s.len(),
    decreases s.len(),
{
    if s.len() > 0 {
        lemma_stable_sort_len(s.drop_last());
        lemma_insert_len(stable_sort(s.drop_last()), s.last());
    }
}

/// How many values of the list satisfy `f`.
pub open spec fn count_where(s: Seq<u32>, f: spec_fn(u32) -> bool) -> nat
    decreases s.len(),
{
    if s.len() == 0 {
        0
    } else {
        count_where(s.drop_last(), f) + if f(s.last()) {
            1nat
        } else {
            0nat
        }
    }
}

proof fn lemma_count_concat(a: Seq<u32>, b: Seq<u32>, f: spec_fn(u32) -> bool)
    ensures
        count_where(a + b, f) == count_where(a, f) + count_where(b, f),
    decreases b.len(),
{
    if b.len() == 0 {
        assert(a + b =~= a);
    } else {
        lemma_count_concat(a, b.drop_last(), f);
        assert((a + b).drop_last() =~= a + b.drop_last());
    }
}

proof fn lemma_count_single(x: u32, f: spec_fn(u32) -> bool)
    ensures
        count_where(seq![x], f) == if f(x) {
            1nat
        } else {
            0nat
        },
{
    assert(seq![x].drop_last() =~= Seq::<u32>::empty());
    assert(count_where(seq![x].drop_last(), f) == 0);
    assert(seq![x].last() == x);
}

proof fn lemma_count_insert(t: Seq<u32>, x: u32, f: spec_fn(u32) -> bool)
    ensures
        count_where(insert_in_order(t, x), f) == count_where(t, f) + if f(x) {
            1nat
        } else {
            0nat
        },
    decreases t.len(),
{
    lemma_count_single(x, f);
    if t.len() == 0 {
    } else if gt_spec(t[0], x) {
        lemma_count_concat(seq![x], t, f);
    } else {
        let u = t.drop_first();
        lemma_count_insert(u, x, f);
        lemma_count_single(t[0], f);
        lemma_count_concat(seq![t[0]], insert_in_order(u, x), f);
        lemma_count_concat(seq![t[0]], u, f);
        assert(t =~= seq![t[0]] + u);
    }
}

proof fn lemma_count_sort(s: Seq<u32>, f: spec_fn(u32) -> bool)
    ensures
        count_where(stable_sort(s), f) == count_where(s, f),
    decreases s.len(),
{
    if s.len() > 0 {
        lemma_count_sort(s.drop_last(), f);
        lemma_count_insert(stable_sort(s.drop_last()), s.last(), f);
    }
}

proof fn lemma_count_suffix_excluded(s: Seq<u32>, f: spec_fn(u32) -> bool, lo: int)
    requires
        0 <= lo <= s.len(),
        forall|q: int| lo <= q < s.len() ==> !f(#[trigger] s[q]),
    ensures
        count_where(s, f) <= lo,
    decreases s.len(),
{
    if s.len() == lo {
        lemma_count_le_len(s, f);
    } else {
        let d = s.drop_last();
        assert forall|q: int| lo <= q < d.len() implies !f(#[trigger] d[q]) by {
            assert(d[q] == s[q]);
        }
        lemma_count_suffix_excluded(d, f, lo);
    }
}

proof fn lemma_count_le_len(s: Seq<u32>, f: spec_fn(u32) -> bool)
    ensures
        count_where(s, f) <= s.len(),
    decreases s.len(),
{
    if s.len() > 0 {
        lemma_count_le_len(s.drop_last(), f);
    }
}

proof fn lemma_count_prefix_excluded(s: Seq<u32>, f: spec_fn(u32) -> bool, hi: int)
    requires
        0 <= hi <= s.len(),
        forall|q: int| 0 <= q < hi ==> !f(#[trigger] s[q]),
    ensures
        count_where(s, f) <= s.len() - hi,
    decreases s.len(),
{
    if s.len() > 0 {
        let d = s.drop_last();
        if s.len() == hi {
            assert forall|q: int| 0 <= q < hi - 1 implies !f(#[trigger] d[q]) by {
                assert(d[q] == s[q]);
            }
            lemma_count_prefix_excluded(d, f, hi - 1);
        } else {
            assert forall|q: int| 0 <= q < hi implies !f(#[trigger] d[q]) by {
                assert(d[q] == s[q]);
            }
            lemma_count_prefix_excluded(d, f, hi);
        }
    }
}

proof fn lemma_count_prefix_included(s: Seq<u32>, f: spec_fn(u32) -> bool, hi: int)
    requires
        0 <= hi <= s.len(),
        forall|q: int| 0 <= q < hi ==> f(#[trigger] s[q]),
    ensures
        count_where(s, f) >= hi,
    decreases s.len(),
{
    if s.len() > 0 && hi > 0 {
        let d = s.drop_last();
        if s.len() == hi {
            assert forall|q: int| 0 <= q < hi - 1 implies f(#[trigger] d[q]) by {
                assert(d[q] == s[q]);
            }
            lemma_count_prefix_included(d, f, hi - 1);
        } else {
            assert forall|q: int| 0 <= q < hi implies f(#[trigger] d[q]) by {
                assert(d[q] == s[q]);
            }
            lemma_count_prefix_included(d, f, hi);
        }
    }
}

proof fn lemma_count_suffix_included(s: Seq<u32>, f: spec_fn(u32) -> bool, lo: int)
    requires
        0 <= lo <= s.len(),
        forall|q: int| lo <= q < s.len() ==> f(#[trigger] s[q]),
    ensures
        count_where(s, f) >= s.len() - lo,
    decreases s.len(),
{
    if s.len() > lo {
        let d = s.drop_last();
        assert forall|q: int| lo <= q < d.len() implies f(#[trigger] d[q]) by {
            assert(d[q] == s[q]);
        }
        lemma_count_suffix_included(d, f, lo);
    }
}

/// What the values of the column say of a value `a` at sorted position `p`
/// of a column of `n` values: at most `p` values are below it, at least
/// `p + 1` are not above it, at most `n - p - 1` are above it, and at least
/// `n - p` are not below it.
pub open spec fn ranks_at(col: Seq<u32>, a: u32, p: int) -> bool {
    &&& count_where(col, |x: u32| lt_spec(x, a)) <= p
    &&& count_where(col, |x: u32| le_spec(x, a)) >= p + 1
    &&& count_where(col, |x: u32| gt_spec(x, a)) <= col.len() - p - 1
    &&& count_where(col, |x: u32| ge_spec(x, a)) >= col.len() - p
}

proof fn lemma_sorted_ranks(col: Seq<u32>, p: int)
    requires
        no_nan(col),
        0 <= p < col.len(),
    ensures
        stable_sort(col).len() == col.len(),
        ranks_at(col, stable_sort(col)[p], p),
{
    let s = stable_sort(col);
    lemma_stable_sort_len(col);
    lemma_stable_sort_sorts(col);
    let a = s[p];
    let flt = |x: u32| lt_spec(x, a);
    let fle = |x: u32| le_spec(x, a);
    let fgt = |x: u32| gt_spec(x, a);
    let fge = |x: u32| ge_spec(x, a);
    assert forall|q: int| p <= q < s.len() implies !flt(#[trigger] s[q]) by {
        if q > p {
            assert(le_spec(s[p], s[q]));
        }
    }
    lemma_count_suffix_excluded(s, flt, p);
    assert forall|q: int| 0 <= q < p + 1 implies fle(#[trigger] s[q]) by {
        if q < p {
            assert(le_spec(s[q], s[p]));
        }
        assert(!is_nan(s[q]));
    }
    lemma_count_prefix_included(s, fle, p + 1);
    assert forall|q: int| 0 <= q < p + 1 implies !fgt(#[trigger] s[q]) by {
        if q < p {
            assert(le_spec(s[q], s[p]));
        }
    }
    lemma_count_prefix_excluded(s, fgt, p + 1);
    assert forall|q: int| p <= q < s.len() implies fge(#[trigger] s[q]) by {
        if q > p {
            assert(le_spec(s[p], s[q]));
        }
        assert(!is_nan(s[q]));
    }
    lemma_count_suffix_included(s, fge, p);
    lemma_count_sort(col, flt);
    lemma_count_sort(col, fle);
    lemma_count_sort(col, fgt);
    lemma_count_sort(col, fge);
}

/// The middle of a sorted column of values (none a NaN) is its median: for
/// an odd number `n` of values, a single value with at most `n / 2` values
/// below it and at most `n / 2` above it (and at least `n / 2 + 1` not
/// below and not above it); for an even number, two values `a <= b` with
/// at most `n / 2 - 1` values below `a`, at least `n / 2` not above `a`, at
/// most `n / 2 - 1` above `b`, and at least `n / 2` not below `b`.
pub proof fn lemma_middle_is_median(col: Seq<u32>)
    requires
        col.len() > 0,
        no_nan(col),
    ensures
        match middle_of(stable_sort(col)) {
            Middle::Single(m) => {
                &&& col.len() % 2 == 1
                &&& ranks_at(col, m, (col.len() / 2) as int)
                &&& count_where(col, |x: u32| lt_spec(x, m)) <= col.len() / 2
                &&& count_where(col, |x: u32| gt_spec(x, m)) <= col.len() / 2
            },
            Middle::Pair(a, b) => {
                &&& col.len() % 2 == 0
                &&& le_spec(a, b)
                &&& ranks_at(col, a, col.len() / 2 - 1)
                &&& ranks_at(col, b, (col.len() / 2) as int)
                &&& count_where(col, |x: u32| lt_spec(x, a)) <= col.len() / 2 - 1
                &&& count_where(col, |x: u32| gt_spec(x, b)) <= col.len() / 2 - 1
            },
        },
{
    let s = stable_sort(col);
    let n = col.len() as int;
    lemma_stable_sort_len(col);
    lemma_stable_sort_sorts(col);
    if n % 2 == 0 {
        lemma_sorted_ranks(col, n / 2 - 1);
        lemma_sorted_ranks(col, n / 2);
        assert(le_spec(s[n / 2 - 1], s[n / 2]));
    } else {
        lemma_sorted_ranks(col, n / 2);
    }
}

} // verus!
