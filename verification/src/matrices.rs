//! Construction of the discernibility matrix and of the basic matrix from
//! a table of objects: the class column is split off, the rest is grouped
//! in triples, pairs of objects of different classes are listed, rows all
//! below a threshold are dropped, and rows that another row dominates are
//! removed.
use vstd::prelude::*;
use crate::float_order::eq_spec;
use crate::float_order::f32_eq;
use crate::thresholds::{all_below, is_afines, is_less, less, none_at_least, none_greater};
use crate::population::filter_uniq;

verus! {

/// The last value of every non-empty row, in row order.
pub open spec fn last_elements(vs: Seq<Vec<u32>>) -> Seq<u32>
    decreases vs.len(),
{
    if vs.len() == 0 {
        Seq::empty()
    } else {
        last_elements(vs.drop_last()) + if vs.last().len() > 0 {
            seq![vs.last()@.last()]
        } else {
            Seq::empty()
        }
    }
}

fn copy_row(v: &Vec<u32>) -> (r: Vec<u32>)
    ensures
        r@ == v@,
{
    let r = v.clone();
    assert(r@ =~= v@);
    r
}

/// Takes the last value off every non-empty row and returns these values
/// in row order.
pub fn extract_last_element(vectors: &mut Vec<Vec<u32>>) -> (last: Vec<u32>)
    ensures
        final(vectors).len() == old(vectors).len(),
        forall|r: int|
            0 <= r < old(vectors).len() ==> (#[trigger] final(vectors)@[r])@ == if old(
                vectors,
            )@[r].len() > 0 {
                old(vectors)@[r]@.drop_last()
            } else {
                old(vectors)@[r]@
            },
        last@ == last_elements(old(vectors)@),
{
    let ghost orig = vectors@;
    let mut last_elements_v: Vec<u32> = Vec::new();
    let mut r: usize = 0;
    while r < vectors.len()
        invariant
            r <= vectors.len(),
            vectors.len() == orig.len(),
            forall|q: int|
                0 <= q < r ==> (#[trigger] vectors@[q])@ == if orig[q].len() > 0 {
                    orig[q]@.drop_last()
                } else {
                    orig[q]@
                },
            forall|q: int| r <= q < vectors.len() ==> #[trigger] vectors@[q] == orig[q],
            last_elements_v@ == last_elements(orig.subrange(0, r as int)),
        decreases vectors.len() - r,
    {
        assert(orig.subrange(0, r + 1).drop_last() =~= orig.subrange(0, r as int));
        let mut row = copy_row(&vectors[r]);
        match row.pop() {
            Some(last) => {
                last_elements_v.push(last);
            },
            None => {},
        }
        vectors.set(r, row);
        r = r + 1;
    }
    assert(orig.subrange(0, orig.len() as int) =~= orig);
    last_elements_v
}

/// Every row without its first value.
pub fn remove_first_element(data: Vec<Vec<u32>>) -> (rest: Vec<Vec<u32>>)
    requires
        forall|r: int| 0 <= r < data.len() ==> (#[trigger] data@[r]).len() > 0,
    ensures
        rest.len() == data.len(),
        forall|r: int| 0 <= r < data.len() ==> (#[trigger] rest@[r])@ == data@[r]@.drop_first(),
{
    let mut rest: Vec<Vec<u32>> = Vec::new();
    let mut r: usize = 0;
    while r < data.len()
        invariant
            r <= data.len(),
            forall|q: int| 0 <= q < data.len() ==> (#[trigger] data@[q]).len() > 0,
            rest.len() == r,
            forall|q: int| 0 <= q < r ==> (#[trigger] rest@[q])@ == data@[q]@.drop_first(),
        decreases data.len() - r,
    {
        let mut inner_vec = copy_row(&data[r]);
        inner_vec.remove(0);
        assert(inner_vec@ =~= data@[r as int]@.drop_first());
        rest.push(inner_vec);
        r = r + 1;
    }
    rest
}

/// How many groups of three (the last one possibly shorter) a row of `len`
/// values makes.
pub open spec fn chunk_count(len: int) -> int {
    (len + 2) / 3
}

/// The `c`-th group of three consecutive values of the row.
pub open spec fn chunk_at(s: Seq<u32>, c: int) -> Seq<u32> {
    s.subrange(3 * c, if 3 * c + 3 <= s.len() { 3 * c + 3 } else { s.len() as int })
}

/// The row cut into groups of three consecutive values; the last group
/// holds what is left.
pub open spec fn chunks_of_3(s: Seq<u32>) -> Seq<Seq<u32>> {
    Seq::new(chunk_count(s.len() as int) as nat, |c: int| chunk_at(s, c))
}

/// Each row cut into groups of three consecutive values, the last group of
/// a row holding what is left.
pub fn convert_to_vectors_of_3(data: Vec<Vec<u32>>) -> (grouped: Vec<Vec<Vec<u32>>>)
    ensures
        grouped.len() == data.len(),
        forall|r: int|
            0 <= r < data.len() ==> (#[trigger] grouped@[r])@.map_values(|g: Vec<u32>| g@)
                == chunks_of_3(data@[r]@),
{
    let mut grouped: Vec<Vec<Vec<u32>>> = Vec::new();
    let mut r: usize = 0;
    while r < data.len()
        invariant
            r <= data.len(),
            grouped.len() == r,
            forall|q: int|
                0 <= q < r ==> (#[trigger] grouped@[q])@.map_values(|g: Vec<u32>| g@)
                    == chunks_of_3(data@[q]@),
        decreases data.len() - r,
    {
        let inner_vec = &data[r];
        let len = inner_vec.len();
        let mut groups: Vec<Vec<u32>> = Vec::new();
        let mut start: usize = 0;
        while start < len
            invariant
                len == inner_vec.len(),
                start <= len,
                start < len ==> start % 3 == 0,
                groups.len() == chunk_count(start as int),
                forall|c: int| 0 <= c < groups.len() ==> (#[trigger] groups@[c])@ == chunk_at(inner_vec@, c),
            decreases len - start,
        {
            let end = if len - start >= 3 {
                start + 3
            } else {
                len
            };
            let mut chunk: Vec<u32> = Vec::new();
            let mut k: usize = start;
            while k < end
                invariant
                    start <= k <= end,
                    end <= len,
                    len == inner_vec.len(),
                    chunk@ == inner_vec@.subrange(start as int, k as int),
                decreases end - k,
            {
                chunk.push(inner_vec[k]);
                assert(chunk@ =~= inner_vec@.subrange(start as int, k + 1));
                k = k + 1;
            }
            assert(chunk@ == chunk_at(inner_vec@, (start / 3) as int));
            groups.push(chunk);
            start = end;
        }
        assert(groups@.map_values(|g: Vec<u32>| g@) =~= chunks_of_3(inner_vec@));
        grouped.push(groups);
        r = r + 1;
    }
    grouped
}

/// Putting the groups of three back together gives the row.
pub proof fn lemma_chunks_flatten(s: Seq<u32>)
    ensures
        chunks_of_3(s).flatten() == s,
    decreases s.len(),
{
    let ch = chunks_of_3(s);
    if s.len() == 0 {
        assert(ch.len() == 0);
        assert(ch.flatten() =~= s);
    } else if s.len() <= 3 {
        assert(ch.len() == 1);
        assert(ch.drop_first().len() == 0);
        assert(ch[0] =~= s);
        assert(ch.flatten() == ch[0] + ch.drop_first().flatten());
        assert(ch.flatten() =~= s);
    } else {
        let t = s.subrange(3, s.len() as int);
        lemma_chunks_flatten(t);
        let ct = chunks_of_3(t);
        assert(ch.drop_first().len() == ct.len());
        assert forall|c: int| 0 <= c < ct.len() implies #[trigger] ch.drop_first()[c] == ct[c] by {
            assert(ch.drop_first()[c] =~= ct[c]);
        }
        assert(ch.drop_first() =~= ct);
        assert(ch[0] =~= s.subrange(0, 3));
        assert(ch.flatten() == ch[0] + ch.drop_first().flatten());
        assert(s =~= s.subrange(0, 3) + t);
    }
}

/// The pairs `(i, m)`, for `m` from `from` to the last object, of objects
/// whose classes differ (`!=` on `f32`).
pub open spec fn pairs_in_row(classes: Seq<u32>, i: int, from: int) -> Seq<(usize, usize)>
    decreases classes.len() - from,
{
    if from < 0 || from >= classes.len() {
        Seq::empty()
    } else {
        (if !eq_spec(classes[i], classes[from]) {
            seq![(i as usize, from as usize)]
        } else {
            Seq::empty()
        }) + pairs_in_row(classes, i, from + 1)
    }
}

/// The pairs of objects of different classes whose first object is `i` or
/// later, in the order of a scan by first object, then by second.
pub open spec fn pairs_from(classes: Seq<u32>, i: int) -> Seq<(usize, usize)>
    decreases classes.len() - i,
{
    if i < 0 || i >= classes.len() {
        Seq::empty()
    } else {
        pairs_in_row(classes, i, i + 1) + pairs_from(classes, i + 1)
    }
}

/// The pairs `(i, m)`, `i < m`, of objects whose classes differ: the pairs
/// whose features make up the discernibility matrix, in its row order.
pub fn discernible_pairs(classes: &Vec<u32>) -> (pairs: Vec<(usize, usize)>)
    ensures
        pairs@ == pairs_from(classes@, 0),
{
    let mut pairs: Vec<(usize, usize)> = Vec::new();
    let mut i: usize = 0;
    while i < classes.len()
        invariant
            i <= classes.len(),
            pairs@ + pairs_from(classes@, i as int) == pairs_from(classes@, 0),
        decreases classes.len() - i,
    {
        let ghost start = pairs@;
        let mut m: usize = i + 1;
        while m < classes.len()
            invariant
                i < classes.len(),
                i + 1 <= m <= classes.len(),
                pairs@ + pairs_in_row(classes@, i as int, m as int) == start + pairs_in_row(
                    classes@,
                    i as int,
                    i + 1,
                ),
            decreases classes.len() - m,
        {
            let ghost before = pairs@;
            if !f32_eq(classes[i], classes[m]) {
                pairs.push((i, m));
                assert(before + pairs_in_row(classes@, i as int, m as int) =~= pairs@
                    + pairs_in_row(classes@, i as int, m + 1));
            } else {
                assert(pairs_in_row(classes@, i as int, m as int) =~= pairs_in_row(
                    classes@,
                    i as int,
                    m + 1,
                ));
            }
            m = m + 1;
        }
        assert(pairs_from(classes@, i as int) == pairs_in_row(classes@, i as int, i + 1)
            + pairs_from(classes@, i + 1));
        assert(start + pairs_from(classes@, i as int) =~= pairs@ + pairs_from(classes@, i + 1));
        i = i + 1;
    }
    assert(pairs@ =~= pairs@ + pairs_from(classes@, i as int));
    pairs
}

proof fn lemma_pairs_in_row_exact(classes: Seq<u32>, i: int, from: int)
    requires
        0 <= i < from,
        i < classes.len() <= usize::MAX,
    ensures
        forall|k: int|
            0 <= k < pairs_in_row(classes, i, from).len() ==> {
                let p = #[trigger] pairs_in_row(classes, i, from)[k];
                &&& p.0 == i
                &&& from <= p.1 < classes.len()
                &&& !eq_spec(classes[i], classes[p.1 as int])
            },
        forall|m: int|
            from <= m < classes.len() && !eq_spec(classes[i], classes[m]) && m <= usize::MAX && i
                <= usize::MAX ==> #[trigger] pairs_in_row(classes, i, from).contains(
                (i as usize, m as usize),
            ),
    decreases classes.len() - from,
{
    if from < classes.len() {
        lemma_pairs_in_row_exact(classes, i, from + 1);
        let head: Seq<(usize, usize)> = if !eq_spec(classes[i], classes[from]) {
            seq![(i as usize, from as usize)]
        } else {
            Seq::empty()
        };
        let tail = pairs_in_row(classes, i, from + 1);
        let all = pairs_in_row(classes, i, from);
        assert(all == head + tail);
        assert forall|k: int| 0 <= k < all.len() implies {
            let p = #[trigger] all[k];
            &&& p.0 == i
            &&& from <= p.1 < classes.len()
            &&& !eq_spec(classes[i], classes[p.1 as int])
        } by {
            if k >= head.len() {
                assert(all[k] == tail[k - head.len()]);
            }
        }
        assert forall|m: int|
            from <= m < classes.len() && !eq_spec(classes[i], classes[m]) && m <= usize::MAX && i
                <= usize::MAX implies #[trigger] all.contains((i as usize, m as usize)) by {
            if m == from {
                assert(all[0] == (i as usize, m as usize));
            } else {
                assert(tail.contains((i as usize, m as usize)));
                let w = choose|w: int| 0 <= w < tail.len() && tail[w] == (i as usize, m as usize);
                assert(all[head.len() + w] == tail[w]);
            }
        }
    }
}

proof fn lemma_pairs_from_exact(classes: Seq<u32>, i: int)
    requires
        0 <= i,
        classes.len() <= usize::MAX,
    ensures
        forall|k: int|
            0 <= k < pairs_from(classes, i).len() ==> {
                let p = #[trigger] pairs_from(classes, i)[k];
                &&& i <= p.0 < p.1 < classes.len()
                &&& !eq_spec(classes[p.0 as int], classes[p.1 as int])
            },
        forall|a: int, m: int|
            i <= a < m < classes.len() && !eq_spec(classes[a], classes[m])
                ==> #[trigger] pairs_from(classes, i).contains((a as usize, m as usize)),
    decreases classes.len() - i,
{
    if i < classes.len() {
        lemma_pairs_from_exact(classes, i + 1);
        lemma_pairs_in_row_exact(classes, i, i + 1);
        let row = pairs_in_row(classes, i, i + 1);
        let rest = pairs_from(classes, i + 1);
        let all = pairs_from(classes, i);
        assert(all == row + rest);
        assert forall|k: int| 0 <= k < all.len() implies {
            let p = #[trigger] all[k];
            &&& i <= p.0 < p.1 < classes.len()
            &&& !eq_spec(classes[p.0 as int], classes[p.1 as int])
        } by {
            if k < row.len() {
                assert(all[k] == row[k]);
            } else {
                assert(all[k] == rest[k - row.len()]);
            }
        }
        assert forall|a: int, m: int|
            i <= a < m < classes.len() && !eq_spec(classes[a], classes[m]) implies #[trigger] all.contains(
            (a as usize, m as usize),
        ) by {
            if a == i {
                assert(row.contains((a as usize, m as usize)));
                let w = choose|w: int| 0 <= w < row.len() && row[w] == (a as usize, m as usize);
                assert(all[w] == row[w]);
            } else {
                assert(rest.contains((a as usize, m as usize)));
                let w = choose|w: int| 0 <= w < rest.len() && rest[w] == (a as usize, m as usize);
                assert(all[row.len() + w] == rest[w]);
            }
        }
    }
}

/// The listed pairs are exactly the pairs `i < m` of objects whose classes
/// differ.
pub proof fn lemma_discernible_pairs_exact(classes: Seq<u32>)
    requires
        classes.len() <= usize::MAX,
    ensures
        forall|k: int|
            0 <= k < pairs_from(classes, 0).len() ==> {
                let p = #[trigger] pairs_from(classes, 0)[k];
                &&& p.0 < p.1 < classes.len()
                &&& !eq_spec(classes[p.0 as int], classes[p.1 as int])
            },
        forall|a: int, m: int|
            0 <= a < m < classes.len() && !eq_spec(classes[a], classes[m])
                ==> #[trigger] pairs_from(classes, 0).contains((a as usize, m as usize)),
{
    lemma_pairs_from_exact(classes, 0);
}

/// The rows that are not entirely below the threshold, in order.
pub open spec fn rows_not_below(vs: Seq<Vec<u32>>, alpha: u32) -> Seq<Seq<u32>>
    decreases vs.len(),
{
    if vs.len() == 0 {
        Seq::empty()
    } else {
        rows_not_below(vs.drop_last(), alpha) + if all_below(vs.last()@, alpha) {
            Seq::empty()
        } else {
            seq![vs.last()@]
        }
    }
}

/// The rows of the discernibility matrix that are not entirely below
/// `alpha`, in order.
pub fn drop_afines_rows(dv: &Vec<Vec<u32>>, alpha: u32) -> (bm: Vec<Vec<u32>>)
    ensures
        bm@.map_values(|r: Vec<u32>| r@) == rows_not_below(dv@, alpha),
{
    let mut bm: Vec<Vec<u32>> = Vec::new();
    let mut r: usize = 0;
    while r < dv.len()
        invariant
            r <= dv.len(),
            bm@.map_values(|q: Vec<u32>| q@) == rows_not_below(dv@.subrange(0, r as int), alpha),
        decreases dv.len() - r,
    {
        assert(dv@.subrange(0, r + 1).drop_last() =~= dv@.subrange(0, r as int));
        let ghost before = bm@;
        if !is_afines(&dv[r], alpha) {
            bm.push(copy_row(&dv[r]));
            assert(bm@.map_values(|q: Vec<u32>| q@) =~= before.map_values(|q: Vec<u32>| q@).push(
                dv@[r as int]@,
            ));
        }
        assert(bm@.map_values(|q: Vec<u32>| q@) =~= rows_not_below(dv@.subrange(0, r + 1), alpha));
        r = r + 1;
    }
    assert(dv@.subrange(0, dv.len() as int) =~= dv@);
    bm
}

/// The marks that row `i` leaves while it is compared with the rows `k`
/// and after: a row that `i` is below at every position is marked, and the
/// first row nowhere above `i` marks `i` itself and ends the comparisons.
/// Marks are row positions taken as `u8`.
pub open spec fn row_marks(bm: Seq<Vec<u32>>, i: int, k: int) -> Seq<u8>
    decreases bm.len() - k,
{
    if k < 0 || k >= bm.len() {
        Seq::empty()
    } else if none_at_least(bm[i]@, bm[k]@) {
        seq![(k % 256) as u8] + row_marks(bm, i, k + 1)
    } else if none_greater(bm[k]@, bm[i]@) {
        seq![(i % 256) as u8]
    } else {
        row_marks(bm, i, k + 1)
    }
}

/// The rows that row `i` is compared with, from row `k` on, are as long as
/// row `i`.
pub open spec fn marks_ok(bm: Seq<Vec<u32>>, i: int, k: int) -> bool
    decreases bm.len() - k,
{
    if k < 0 || k >= bm.len() {
        true
    } else {
        &&& bm[i].len() == bm[k].len()
        &&& if none_at_least(bm[i]@, bm[k]@) {
            marks_ok(bm, i, k + 1)
        } else if none_greater(bm[k]@, bm[i]@) {
            true
        } else {
            marks_ok(bm, i, k + 1)
        }
    }
}

/// All rows are as long as the first.
pub open spec fn same_lengths(bm: Seq<Vec<u32>>) -> bool {
    forall|r: int| 0 <= r < bm.len() ==> (#[trigger] bm[r]).len() == bm[0].len()
}

proof fn lemma_marks_ok_from_same_lengths(bm: Seq<Vec<u32>>, i: int, k: int)
    requires
        same_lengths(bm),
        0 <= i < bm.len(),
    ensures
        marks_ok(bm, i, k),
    decreases bm.len() - k,
{
    if 0 <= k < bm.len() {
        assert(bm[i].len() == bm[0].len());
        assert(bm[k].len() == bm[0].len());
        lemma_marks_ok_from_same_lengths(bm, i, k + 1);
    }
}

/// The comparisons of the basic-matrix reduction only ever compare rows of
/// the same length exactly when all rows have the same length: each row is
/// first compared with the next one.
pub proof fn lemma_marks_ok_iff_same_lengths(bm: Seq<Vec<u32>>)
    ensures
        (forall|i: int| 0 <= i < bm.len() ==> #[trigger] marks_ok(bm, i, i + 1)) <==> same_lengths(
            bm,
        ),
{
    if same_lengths(bm) {
        assert forall|i: int| 0 <= i < bm.len() implies #[trigger] marks_ok(bm, i, i + 1) by {
            lemma_marks_ok_from_same_lengths(bm, i, i + 1);
        }
    }
    if forall|i: int| 0 <= i < bm.len() ==> #[trigger] marks_ok(bm, i, i + 1) {
        assert forall|r: int| 0 <= r < bm.len() implies (#[trigger] bm[r]).len() == bm[0].len() by {
            lemma_consecutive_lengths(bm, r);
        }
    }
}

proof fn lemma_consecutive_lengths(bm: Seq<Vec<u32>>, r: int)
    requires
        0 <= r < bm.len(),
        forall|i: int| 0 <= i < bm.len() ==> #[trigger] marks_ok(bm, i, i + 1),
    ensures
        bm[r].len() == bm[0].len(),
    decreases r,
{
    if r > 0 {
        lemma_consecutive_lengths(bm, r - 1);
        let p = r - 1;
        assert(marks_ok(bm, p, p + 1));
        assert(p + 1 == r);
    }
}

/// The marks of the rows `i` and after, each compared with the rows below
/// it, in order.
pub open spec fn all_marks(bm: Seq<Vec<u32>>, i: int) -> Seq<u8>
    decreases bm.len() - i,
{
    if i < 0 || i >= bm.len() {
        Seq::empty()
    } else {
        row_marks(bm, i, i + 1) + all_marks(bm, i + 1)
    }
}

proof fn lemma_index_as_u8(x: usize)
    ensures
        x as u8 == (x % 256) as u8,
{
    assert(x as u8 == (x % 256) as u8) by (bit_vector);
}

/// The rows to remove from the matrix: each row is compared with the rows
/// below it; a row that it is below at every position is marked, and the
/// first row nowhere above it marks the row itself and ends its
/// comparisons.
pub fn basic_matrix_marks(bm: &Vec<Vec<u32>>) -> (rows: Vec<u8>)
    requires
        same_lengths(bm@),
    ensures
        rows@ == all_marks(bm@, 0),
{
    proof {
        lemma_marks_ok_iff_same_lengths(bm@);
    }
    let mut rows: Vec<u8> = Vec::new();
    let mut i: usize = 0;
    while i < bm.len()
        invariant
            i <= bm.len(),
            forall|q: int| 0 <= q < bm.len() ==> #[trigger] marks_ok(bm@, q, q + 1),
            rows@ + all_marks(bm@, i as int) == all_marks(bm@, 0),
        decreases bm.len() - i,
    {
        let ghost start = rows@;
        assert(marks_ok(bm@, i as int, i + 1));
        let mut k: usize = i + 1;
        while k < bm.len()
            invariant_except_break
                rows@ + row_marks(bm@, i as int, k as int) == start + row_marks(
                    bm@,
                    i as int,
                    i + 1,
                ),
                marks_ok(bm@, i as int, k as int),
            invariant
                i < bm.len(),
                i + 1 <= k <= bm.len(),
            ensures
                rows@ == start + row_marks(bm@, i as int, i + 1),
            decreases bm.len() - k,
        {
            let ghost before = rows@;
            if is_less(&bm[i], &bm[k]) {
                proof {
                    lemma_index_as_u8(k);
                }
                rows.push(k as u8);
                assert(before + row_marks(bm@, i as int, k as int) =~= rows@ + row_marks(
                    bm@,
                    i as int,
                    k + 1,
                ));
            } else if less(&bm[k], &bm[i]) {
                proof {
                    lemma_index_as_u8(i);
                }
                rows.push(i as u8);
                assert(rows@ =~= before + row_marks(bm@, i as int, k as int));
                break;
            }
            k = k + 1;
        }
        assert(all_marks(bm@, i as int) == row_marks(bm@, i as int, i + 1) + all_marks(
            bm@,
            i + 1,
        ));
        assert(start + all_marks(bm@, i as int) =~= rows@ + all_marks(bm@, i + 1));
        i = i + 1;
    }
    assert(rows@ =~= rows@ + all_marks(bm@, i as int));
    rows
}

proof fn lemma_row_marks_below(bm: Seq<Vec<u32>>, i: int, k: int)
    requires
        0 <= i < bm.len(),
    ensures
        forall|t: int|
            0 <= t < row_marks(bm, i, k).len() ==> (#[trigger] row_marks(bm, i, k)[t]) < bm.len(),
    decreases bm.len() - k,
{
    if 0 <= k < bm.len() {
        lemma_row_marks_below(bm, i, k + 1);
        let rest = row_marks(bm, i, k + 1);
        if none_at_least(bm[i]@, bm[k]@) {
            let all = row_marks(bm, i, k);
            assert forall|t: int| 0 <= t < all.len() implies (#[trigger] all[t]) < bm.len() by {
                if t > 0 {
                    assert(all[t] == rest[t - 1]);
                }
            }
        }
    }
}

proof fn lemma_all_marks_below(bm: Seq<Vec<u32>>, i: int)
    requires
        0 <= i,
    ensures
        forall|t: int|
            0 <= t < all_marks(bm, i).len() ==> (#[trigger] all_marks(bm, i)[t]) < bm.len(),
    decreases bm.len() - i,
{
    if i < bm.len() {
        lemma_all_marks_below(bm, i + 1);
        lemma_row_marks_below(bm, i, i + 1);
        let row = row_marks(bm, i, i + 1);
        let rest = all_marks(bm, i + 1);
        let all = all_marks(bm, i);
        assert(all == row + rest);
        assert forall|t: int| 0 <= t < all.len() implies (#[trigger] all[t]) < bm.len() by {
            if t < row.len() {
                assert(all[t] == row[t]);
            } else {
                assert(all[t] == rest[t - row.len()]);
            }
        }
    }
}

/// Whether all rows have the same length, which the comparisons of
/// `basic_matrix_marks` need.
pub fn basic_matrix_defined(bm: &Vec<Vec<u32>>) -> (r: bool)
    ensures
        r == same_lengths(bm@),
{
    if bm.len() == 0 {
        return true;
    }
    let width = bm[0].len();
    let mut i: usize = 0;
    while i < bm.len()
        invariant
            i <= bm.len(),
            bm.len() > 0,
            width == bm@[0].len(),
            forall|q: int| 0 <= q < i ==> (#[trigger] bm@[q]).len() == width,
        decreases bm.len() - i,
    {
        if bm[i].len() != width {
            return false;
        }
        i = i + 1;
    }
    true
}

/// Whether some mark names row `r`.
pub open spec fn is_marked(marks: Seq<u8>, r: int) -> bool {
    exists|t: int| 0 <= t < marks.len() && marks[t] as int == r
}

/// The rows among the first `n` that no mark names, in order.
pub open spec fn unmarked_rows(bm: Seq<Vec<u32>>, marks: Seq<u8>, n: int) -> Seq<Seq<u32>>
    decreases n,
{
    if n <= 0 {
        Seq::empty()
    } else {
        unmarked_rows(bm, marks, n - 1) + if is_marked(marks, n - 1) {
            Seq::empty()
        } else {
            seq![bm[n - 1]@]
        }
    }
}

fn holds_mark(values: &Vec<u8>, x: u8) -> (r: bool)
    ensures
        r == values@.contains(x),
{
    let mut k: usize = 0;
    while k < values.len()
        invariant
            k <= values.len(),
            forall|j: int| 0 <= j < k ==> values@[j] != x,
        decreases values.len() - k,
    {
        if values[k] == x {
            return true;
        }
        k = k + 1;
    }
    false
}

/// The matrix without the rows that the marks name, each named row removed
/// once however many marks name it.
pub fn remove_marked_rows(bm: Vec<Vec<u32>>, marks: Vec<u8>) -> (kept: Vec<Vec<u32>>)
    requires
        forall|t: int| 0 <= t < marks.len() ==> (#[trigger] marks@[t]) < bm.len(),
    ensures
        kept@.map_values(|r: Vec<u32>| r@) == unmarked_rows(bm@, marks@, bm.len() as int),
{
    let ghost m = marks@;
    let rows = filter_uniq(marks);
    let mut kept: Vec<Vec<u32>> = Vec::new();
    let mut r: usize = 0;
    while r < bm.len()
        invariant
            r <= bm.len(),
            rows@.to_set() == m.to_set(),
            kept@.map_values(|q: Vec<u32>| q@) == unmarked_rows(bm@, m, r as int),
        decreases bm.len() - r,
    {
        let ghost before = kept@;
        let named = r < 256 && holds_mark(&rows, r as u8);
        assert(named == is_marked(m, r as int)) by {
            if named {
                assert(rows@.to_set().contains(r as u8));
                assert(m.to_set().contains(r as u8));
                let t = choose|t: int| 0 <= t < m.len() && m[t] == r as u8;
            }
            if is_marked(m, r as int) {
                let t = choose|t: int| 0 <= t < m.len() && m[t] as int == r;
                assert(m.to_set().contains(m[t]));
                assert(rows@.to_set().contains(m[t]));
            }
        }
        if !named {
            kept.push(copy_row(&bm[r]));
            assert(kept@.map_values(|q: Vec<u32>| q@) =~= before.map_values(|q: Vec<u32>| q@).push(
                bm@[r as int]@,
            ));
        } else {
            assert(unmarked_rows(bm@, m, r + 1) =~= unmarked_rows(bm@, m, r as int));
        }
        r = r + 1;
    }
    kept
}

/// The basic matrix: the matrix without the rows that the comparisons of
/// `basic_matrix_marks` mark.
pub fn basic_matrix(bm: Vec<Vec<u32>>) -> (basic: Vec<Vec<u32>>)
    requires
        same_lengths(bm@),
    ensures
        basic@.map_values(|r: Vec<u32>| r@) == unmarked_rows(
            bm@,
            all_marks(bm@, 0),
            bm.len() as int,
        ),
{
    let rows = basic_matrix_marks(&bm);
    proof {
        lemma_all_marks_below(bm@, 0);
    }
    remove_marked_rows(bm, rows)
}

/// The rows that `drop_afines_rows` keeps are exactly the rows of `dv` that
/// are not entirely below `alpha`: every kept row is a row of `dv` with a
/// value that is not `< alpha`, every such row of `dv` is kept, and the
/// number kept plus the number of rows entirely below `alpha` is the number
/// of rows.
pub proof fn lemma_drop_afines_rows_exact(dv: Seq<Vec<u32>>, alpha: u32)
    ensures
        forall|k: int|
            0 <= k < rows_not_below(dv, alpha).len() ==> !all_below(
                #[trigger] rows_not_below(dv, alpha)[k],
                alpha,
            ) && exists|r: int| 0 <= r < dv.len() && rows_not_below(dv, alpha)[k] == dv[r]@,
        forall|r: int|
            0 <= r < dv.len() && !all_below((#[trigger] dv[r])@, alpha) ==> rows_not_below(
                dv,
                alpha,
            ).contains(dv[r]@),
        rows_not_below(dv, alpha).len() + crate::thresholds::afines_rows(dv, alpha) == dv.len(),
    decreases dv.len(),
{
    if dv.len() > 0 {
        let d = dv.drop_last();
        lemma_drop_afines_rows_exact(d, alpha);
        let prev = rows_not_below(d, alpha);
        let cur = rows_not_below(dv, alpha);
        let last = dv.last();
        if all_below(last@, alpha) {
            assert(cur =~= prev);
        } else {
            assert(cur =~= prev.push(last@));
        }
        assert forall|k: int| 0 <= k < cur.len() implies !all_below(#[trigger] cur[k], alpha)
            && exists|r: int| 0 <= r < dv.len() && cur[k] == dv[r]@ by {
            if k < prev.len() {
                assert(cur[k] == prev[k]);
                let r = choose|r: int| 0 <= r < d.len() && prev[k] == d[r]@;
                assert(dv[r] == d[r]);
            } else {
                assert(cur[k] == dv[dv.len() - 1]@);
            }
        }
        assert forall|r: int| 0 <= r < dv.len() && !all_below((#[trigger] dv[r])@, alpha) implies cur.contains(
            dv[r]@,
        ) by {
            if r < d.len() {
                assert(d[r] == dv[r]);
                assert(prev.contains(d[r]@));
                let w = choose|w: int| 0 <= w < prev.len() && prev[w] == d[r]@;
                assert(cur[w] == prev[w]);
            } else {
                assert(cur[prev.len() as int] == dv[r]@);
            }
        }
    }
}

/// Whether pair `p` comes before pair `q` in row-major order.
pub open spec fn pair_before(p: (usize, usize), q: (usize, usize)) -> bool {
    p.0 < q.0 || (p.0 == q.0 && p.1 < q.1)
}

proof fn lemma_pairs_in_row_increasing(classes: Seq<u32>, i: int, from: int)
    requires
        0 <= i < from,
        i < classes.len() <= usize::MAX,
    ensures
        forall|a: int, b: int|
            0 <= a < b < pairs_in_row(classes, i, from).len() ==> pairs_in_row(classes, i, from)[a].1
                < pairs_in_row(classes, i, from)[b].1,
    decreases classes.len() - from,
{
    if from < classes.len() {
        lemma_pairs_in_row_increasing(classes, i, from + 1);
        lemma_pairs_in_row_exact(classes, i, from + 1);
        let head: Seq<(usize, usize)> = if !eq_spec(classes[i], classes[from]) {
            seq![(i as usize, from as usize)]
        } else {
            Seq::empty()
        };
        let tail = pairs_in_row(classes, i, from + 1);
        let all = pairs_in_row(classes, i, from);
        assert(all == head + tail);
        assert forall|a: int, b: int| 0 <= a < b < all.len() implies all[a].1 < all[b].1 by {
            if a >= head.len() {
                assert(all[a] == tail[a - head.len()]);
                assert(all[b] == tail[b - head.len()]);
            } else {
                assert(all[b] == tail[b - head.len()]);
                assert(from + 1 <= tail[b - head.len()].1);
            }
        }
    }
}

proof fn lemma_pairs_from_increasing(classes: Seq<u32>, i: int)
    requires
        0 <= i,
        classes.len() <= usize::MAX,
    ensures
        forall|a: int, b: int|
            0 <= a < b < pairs_from(classes, i).len() ==> pair_before(
                pairs_from(classes, i)[a],
                pairs_from(classes, i)[b],
            ),
    decreases classes.len() - i,
{
    if i < classes.len() {
        lemma_pairs_from_increasing(classes, i + 1);
        lemma_pairs_from_exact(classes, i + 1);
        lemma_pairs_in_row_exact(classes, i, i + 1);
        lemma_pairs_in_row_increasing(classes, i, i + 1);
        let row = pairs_in_row(classes, i, i + 1);
        let rest = pairs_from(classes, i + 1);
        let all = pairs_from(classes, i);
        assert(all == row + rest);
        assert forall|a: int, b: int| 0 <= a < b < all.len() implies pair_before(all[a], all[b]) by {
            if b < row.len() {
                assert(all[a] == row[a]);
                assert(all[b] == row[b]);
            } else if a < row.len() {
                assert(all[a] == row[a]);
                assert(all[b] == rest[b - row.len()]);
            } else {
                assert(all[a] == rest[a - row.len()]);
                assert(all[b] == rest[b - row.len()]);
            }
        }
    }
}

/// The pairs come in strictly increasing row-major order, so each pair of
/// objects of different classes is listed exactly once.
pub proof fn lemma_discernible_pairs_ordered(classes: Seq<u32>)
    requires
        classes.len() <= usize::MAX,
    ensures
        forall|a: int, b: int|
            0 <= a < b < pairs_from(classes, 0).len() ==> pair_before(
                pairs_from(classes, 0)[a],
                pairs_from(classes, 0)[b],
            ),
        pairs_from(classes, 0).no_duplicates(),
{
    lemma_pairs_from_increasing(classes, 0);
    let r = pairs_from(classes, 0);
    assert forall|a: int, b: int| 0 <= a < r.len() && 0 <= b < r.len() && a != b implies r[a]
        != r[b] by {
        if a < b {
            assert(pair_before(r[a], r[b]));
        } else {
            assert(pair_before(r[b], r[a]));
        }
    }
}

/// Row `k` ends the comparisons of row `i`: row `i` is not below it at
/// every position, and it is nowhere above row `i`.
pub open spec fn stops_row(bm: Seq<Vec<u32>>, i: int, k: int) -> bool {
    !none_at_least(bm[i]@, bm[k]@) && none_greater(bm[k]@, bm[i]@)
}

proof fn lemma_row_marks_end_with_self(bm: Seq<Vec<u32>>, i: int, j: int, k: int)
    requires
        0 <= i < j <= k < bm.len(),
        stops_row(bm, i, k),
    ensures
        row_marks(bm, i, j).len() > 0,
        row_marks(bm, i, j).last() == (i % 256) as u8,
    decreases k - j,
{
    if none_at_least(bm[i]@, bm[j]@) {
        lemma_row_marks_end_with_self(bm, i, j + 1, k);
        let rest = row_marks(bm, i, j + 1);
        assert(row_marks(bm, i, j) == seq![(j % 256) as u8] + rest);
        assert((seq![(j % 256) as u8] + rest).last() == rest.last());
    } else if none_greater(bm[j]@, bm[i]@) {
    } else {
        lemma_row_marks_end_with_self(bm, i, j + 1, k);
    }
}

proof fn lemma_row_marks_reach(bm: Seq<Vec<u32>>, i: int, j: int, k: int)
    requires
        0 <= i < j <= k < bm.len(),
        none_at_least(bm[i]@, bm[k]@),
        forall|m: int| j <= m < k ==> !#[trigger] stops_row(bm, i, m),
    ensures
        row_marks(bm, i, j).contains((k % 256) as u8),
    decreases k - j,
{
    if j == k {
        assert(row_marks(bm, i, j)[0] == (k % 256) as u8);
    } else {
        assert(!stops_row(bm, i, j));
        lemma_row_marks_reach(bm, i, j + 1, k);
        let rest = row_marks(bm, i, j + 1);
        let w = choose|w: int| 0 <= w < rest.len() && rest[w] == (k % 256) as u8;
        if none_at_least(bm[i]@, bm[j]@) {
            assert(row_marks(bm, i, j) == seq![(j % 256) as u8] + rest);
            assert(row_marks(bm, i, j)[w + 1] == rest[w]);
        } else {
            assert(row_marks(bm, i, j) == rest);
        }
    }
}

/// The mark `x` names a row that the reduction is right to remove: a row
/// that some earlier row is below at every position, or a row that some
/// later row ends the comparisons of.
pub open spec fn justified_mark(bm: Seq<Vec<u32>>, x: u8) -> bool {
    exists|r: int| 0 <= r < bm.len() && x == (r % 256) as u8 && #[trigger] removable_row(bm, r)
}

/// Some earlier row is below row `r` at every position, or some later row
/// ends the comparisons of row `r`.
pub open spec fn removable_row(bm: Seq<Vec<u32>>, r: int) -> bool {
    (exists|i: int| 0 <= i < r && #[trigger] none_at_least(bm[i]@, bm[r]@)) || (exists|k: int|
        r < k < bm.len() && #[trigger] stops_row(bm, r, k))
}

proof fn lemma_row_marks_sound(bm: Seq<Vec<u32>>, i: int, j: int)
    requires
        0 <= i < j,
        i < bm.len(),
    ensures
        forall|t: int|
            0 <= t < row_marks(bm, i, j).len() ==> justified_mark(
                bm,
                #[trigger] row_marks(bm, i, j)[t],
            ),
    decreases bm.len() - j,
{
    if j < bm.len() {
        lemma_row_marks_sound(bm, i, j + 1);
        let rest = row_marks(bm, i, j + 1);
        let all = row_marks(bm, i, j);
        if none_at_least(bm[i]@, bm[j]@) {
            assert(all == seq![(j % 256) as u8] + rest);
            assert forall|t: int| 0 <= t < all.len() implies justified_mark(bm, #[trigger] all[t]) by {
                if t == 0 {
                    assert(none_at_least(bm[i]@, bm[j]@));
                    assert(removable_row(bm, j));
                } else {
                    assert(all[t] == rest[t - 1]);
                }
            }
        } else if none_greater(bm[j]@, bm[i]@) {
            assert(stops_row(bm, i, j));
            assert(removable_row(bm, i));
            assert(all[0] == (i % 256) as u8);
        }
    }
}

proof fn lemma_all_marks_contains(bm: Seq<Vec<u32>>, s: int, i: int, x: u8)
    requires
        0 <= s <= i < bm.len(),
        row_marks(bm, i, i + 1).contains(x),
    ensures
        all_marks(bm, s).contains(x),
    decreases i - s,
{
    let row = row_marks(bm, s, s + 1);
    let rest = all_marks(bm, s + 1);
    assert(all_marks(bm, s) == row + rest);
    if s == i {
        let w = choose|w: int| 0 <= w < row.len() && row[w] == x;
        assert((row + rest)[w] == x);
    } else {
        lemma_all_marks_contains(bm, s + 1, i, x);
        let w = choose|w: int| 0 <= w < rest.len() && rest[w] == x;
        assert((row + rest)[row.len() + w] == x);
    }
}

proof fn lemma_all_marks_sound(bm: Seq<Vec<u32>>, s: int)
    requires
        0 <= s,
    ensures
        forall|t: int|
            0 <= t < all_marks(bm, s).len() ==> justified_mark(bm, #[trigger] all_marks(bm, s)[t]),
    decreases bm.len() - s,
{
    if s < bm.len() {
        lemma_all_marks_sound(bm, s + 1);
        lemma_row_marks_sound(bm, s, s + 1);
        let row = row_marks(bm, s, s + 1);
        let rest = all_marks(bm, s + 1);
        let all = all_marks(bm, s);
        assert(all == row + rest);
        assert forall|t: int| 0 <= t < all.len() implies justified_mark(bm, #[trigger] all[t]) by {
            if t < row.len() {
                assert(all[t] == row[t]);
            } else {
                assert(all[t] == rest[t - row.len()]);
            }
        }
    }
}

/// What the marks of the basic-matrix reduction mean. A row `i` that a
/// later row `k` ends the comparisons of (row `i` is not below row `k` at
/// every position, and row `k` is nowhere above row `i`) is marked. A row
/// `k` that an earlier row `i` is below at every position is marked when
/// no row between them ends the comparisons of row `i`. And every mark
/// names one of these two kinds of row.
pub proof fn lemma_basic_matrix_marks_meaning(bm: Seq<Vec<u32>>)
    ensures
        forall|i: int, k: int|
            0 <= i < k < bm.len() && #[trigger] stops_row(bm, i, k) ==> all_marks(bm, 0).contains(
                (i % 256) as u8,
            ),
        forall|i: int, k: int|
            0 <= i < k < bm.len() && #[trigger] none_at_least(bm[i]@, bm[k]@) && (forall|m: int|
                i < m < k ==> !#[trigger] stops_row(bm, i, m)) ==> all_marks(bm, 0).contains(
                (k % 256) as u8,
            ),
        forall|t: int|
            0 <= t < all_marks(bm, 0).len() ==> justified_mark(bm, #[trigger] all_marks(bm, 0)[t]),
{
    assert forall|i: int, k: int|
        0 <= i < k < bm.len() && #[trigger] stops_row(bm, i, k) implies all_marks(bm, 0).contains(
        (i % 256) as u8,
    ) by {
        lemma_row_marks_end_with_self(bm, i, i + 1, k);
        let r = row_marks(bm, i, i + 1);
        assert(r[r.len() - 1] == (i % 256) as u8);
        lemma_all_marks_contains(bm, 0, i, (i % 256) as u8);
    }
    assert forall|i: int, k: int|
        0 <= i < k < bm.len() && #[trigger] none_at_least(bm[i]@, bm[k]@) && (forall|m: int|
            i < m < k ==> !#[trigger] stops_row(bm, i, m)) implies all_marks(bm, 0).contains(
        (k % 256) as u8,
    ) by {
        lemma_row_marks_reach(bm, i, i + 1, k);
        lemma_all_marks_contains(bm, 0, i, (k % 256) as u8);
    }
    lemma_all_marks_sound(bm, 0);
}

/// For two rows where the second is nowhere above the first and the first
/// is not below the second at every position, the marks are just the first
/// row, and the basic matrix keeps only the second row.
pub proof fn lemma_basic_matrix_two_rows(bm: Seq<Vec<u32>>)
    requires
        bm.len() == 2,
        stops_row(bm, 0, 1),
    ensures
        all_marks(bm, 0) == seq![0u8],
        unmarked_rows(bm, all_marks(bm, 0), 2) == seq![bm[1]@],
{
    assert(row_marks(bm, 0, 1) == seq![0u8]);
    assert(row_marks(bm, 1, 2) == Seq::<u8>::empty());
    assert(all_marks(bm, 2) == Seq::<u8>::empty());
    assert(all_marks(bm, 1) =~= Seq::<u8>::empty());
    assert(all_marks(bm, 0) =~= seq![0u8]);
    let m = seq![0u8];
    assert(m[0] as int == 0);
    assert(is_marked(m, 0));
    assert(!is_marked(m, 1));
    assert(unmarked_rows(bm, m, 0) == Seq::<Seq<u32>>::empty());
    assert(unmarked_rows(bm, m, 1) =~= Seq::<Seq<u32>>::empty());
    assert(unmarked_rows(bm, m, 2) =~= seq![bm[1]@]);
}

/// How many of the rows `0..n` some mark names.
pub open spec fn marked_count(marks: Seq<u8>, n: int) -> nat
    decreases n,
{
    if n <= 0 {
        0
    } else {
        marked_count(marks, n - 1) + if is_marked(marks, n - 1) {
            1nat
        } else {
            0nat
        }
    }
}

/// The rows that survive the marks are exactly the rows that no mark
/// names: each kept row is such a row, each such row is kept, and the kept
/// rows and the named rows together are all the rows.
pub proof fn lemma_unmarked_rows_exact(bm: Seq<Vec<u32>>, marks: Seq<u8>, n: int)
    requires
        0 <= n <= bm.len(),
    ensures
        forall|k: int|
            0 <= k < unmarked_rows(bm, marks, n).len() ==> exists|r: int|
                0 <= r < n && !is_marked(marks, r) && #[trigger] unmarked_rows(bm, marks, n)[k]
                    == bm[r]@,
        forall|r: int|
            0 <= r < n && !is_marked(marks, r) ==> unmarked_rows(bm, marks, n).contains(
                (#[trigger] bm[r])@,
            ),
        unmarked_rows(bm, marks, n).len() + marked_count(marks, n) == n,
    decreases n,
{
    if n > 0 {
        lemma_unmarked_rows_exact(bm, marks, n - 1);
        let prev = unmarked_rows(bm, marks, n - 1);
        let cur = unmarked_rows(bm, marks, n);
        if is_marked(marks, n - 1) {
            assert(cur =~= prev);
        } else {
            assert(cur =~= prev.push(bm[n - 1]@));
        }
        assert forall|k: int| 0 <= k < cur.len() implies exists|r: int|
            0 <= r < n && !is_marked(marks, r) && #[trigger] cur[k] == bm[r]@ by {
            if k < prev.len() {
                assert(cur[k] == prev[k]);
                let r = choose|r: int| 0 <= r < n - 1 && !is_marked(marks, r) && prev[k] == bm[r]@;
            } else {
                assert(cur[k] == bm[n - 1]@);
            }
        }
        assert forall|r: int| 0 <= r < n && !is_marked(marks, r) implies cur.contains(
            (#[trigger] bm[r])@,
        ) by {
            if r < n - 1 {
                assert(prev.contains(bm[r]@));
                let w = choose|w: int| 0 <= w < prev.len() && prev[w] == bm[r]@;
                assert(cur[w] == prev[w]);
            } else {
                assert(cur[prev.len() as int] == bm[r]@);
            }
        }
    }
}

} // verus!
