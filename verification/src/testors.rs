//! Testor search on a boolean matrix: a depth-first enumeration of the
//! attribute subsets, each kept when it passes the testor check.
use vstd::prelude::*;
use vstd::arithmetic::power2::{pow2, lemma_pow2_unfold, lemma2_to64};

verus! {

/// The rows of a matrix, each as a sequence.
pub open spec fn rows(data: Seq<Vec<bool>>) -> Seq<Seq<bool>> {
    data.map_values(|r: Vec<bool>| r@)
}

/// A list of index lists, each as a sequence.
pub open spec fn index_lists(v: Seq<Vec<usize>>) -> Seq<Seq<usize>> {
    v.map_values(|x: Vec<usize>| x@)
}

/// Whether every index is below `len`.
pub open spec fn indices_below(indices: Seq<usize>, len: int) -> bool {
    forall|k: int| 0 <= k < indices.len() ==> (indices[k] as int) < len
}

/// Whether the target takes one and the same value at all the indices.
pub open spec fn same_target(indices: Seq<usize>, target: Seq<bool>) -> bool {
    forall|a: int, b: int|
        0 <= a < indices.len() && 0 <= b < indices.len() ==> target[indices[a] as int]
            == target[indices[b] as int]
}

/// What `is_reduct` decides: an empty target, or indices that all fall in
/// the target and on which the target is constant.
pub open spec fn reduct_spec(indices: Seq<usize>, target: Seq<bool>) -> bool {
    target.len() == 0 || (indices_below(indices, target.len() as int) && same_target(
        indices,
        target,
    ))
}

/// Two indices before position `k`, both inside the target, at which the
/// target differs.
pub open spec fn disagreement_before(indices: Seq<usize>, target: Seq<bool>, k: int) -> bool {
    exists|a: int, b: int|
        0 <= a < k && 0 <= b < k && indices[a] < target.len() && indices[b] < target.len()
            && target[indices[a] as int] != target[indices[b] as int]
}

/// `is_reduct` reads the target at an index only until it has seen two
/// different values: an index outside the target is harmless once such a
/// pair stands before it.
pub open spec fn reduct_reads_in_range(indices: Seq<usize>, target: Seq<bool>) -> bool {
    target.len() == 0 || forall|k: int|
        0 <= k < indices.len() && indices[k] >= target.len() ==> disagreement_before(
            indices,
            target,
            k,
        )
}

fn seen_before(values: &Vec<bool>, value: bool) -> (r: bool)
    ensures
        r == values@.contains(value),
{
    let mut i: usize = 0;
    while i < values.len()
        invariant
            i <= values.len(),
            forall|j: int| 0 <= j < i ==> values@[j] != value,
        decreases values.len() - i,
    {
        if values[i] == value {
            return true;
        }
        i = i + 1;
    }
    false
}

/// Whether the target is constant on the indiscernible objects.
pub fn is_reduct(indiscernibles: &[usize], target: &[bool]) -> (r: bool)
    requires
        reduct_reads_in_range(indiscernibles@, target@),
    ensures
        r == reduct_spec(indiscernibles@, target@),
{
    let ghost inds = indiscernibles@;
    let ghost tg = target@;
    let mut i: usize = 0;
    while i < target.len()
        invariant
            inds == indiscernibles@,
            tg == target@,
            i <= target.len(),
            reduct_reads_in_range(inds, tg),
            i > 0 ==> indices_below(inds, tg.len() as int) && same_target(inds, tg),
        decreases target.len() - i,
    {
        let mut values: Vec<bool> = Vec::new();
        let mut k: usize = 0;
        while k < indiscernibles.len()
            invariant
                inds == indiscernibles@,
                tg == target@,
                tg.len() > 0,
                k <= inds.len(),
                reduct_reads_in_range(inds, tg),
                values.len() <= 1,
                values.len() == 0 <==> k == 0,
                forall|a: int| 0 <= a < k ==> inds[a] < tg.len(),
                values.len() == 1 ==> forall|a: int|
                    0 <= a < k ==> tg[inds[a] as int] == values@[0],
            decreases inds.len() - k,
        {
            let idx = indiscernibles[k];
            if idx >= target.len() {
                proof {
                    assert(disagreement_before(inds, tg, k as int));
                    let (a, b) = choose|a: int, b: int|
                        0 <= a < k && 0 <= b < k && inds[a] < tg.len() && inds[b] < tg.len()
                            && tg[inds[a] as int] != tg[inds[b] as int];
                    assert(tg[inds[a] as int] == values@[0]);
                }
            }
            let value = target[idx];
            if !seen_before(&values, value) {
                values.push(value);
            }
            if values.len() > 1 {
                assert(tg[inds[0] as int] != tg[inds[k as int] as int]);
                return false;
            }
            k = k + 1;
        }
        assert(same_target(inds, tg));
        i = i + 1;
    }
    true
}

/// Whether the row agrees with `value` at every attribute of the testor.
pub open spec fn agrees_on(row: Seq<bool>, testor: Seq<usize>, value: bool) -> bool {
    forall|t: int| 0 <= t < testor.len() ==> row[testor[t] as int] == value
}

/// The `j`-th indiscernible index falls in the row, and the row agrees
/// with its value at every attribute of the testor.
pub open spec fn matches_at(row: Seq<bool>, testor: Seq<usize>, inds: Seq<usize>, j: int) -> bool {
    inds[j] < row.len() && agrees_on(row, testor, row[inds[j] as int])
}

/// What `is_indiscernible` decides.
pub open spec fn indiscernible_spec(row: Seq<bool>, testor: Seq<usize>, inds: Seq<usize>) -> bool {
    exists|j: int| 0 <= j < inds.len() && matches_at(row, testor, inds, j)
}

/// `is_indiscernible` reads the row at each listed index up to the first
/// match, and at every testor attribute for each of them.
pub open spec fn indiscernible_reads_in_range(
    row: Seq<bool>,
    testor: Seq<usize>,
    inds: Seq<usize>,
) -> bool {
    inds.len() == 0 || (indices_below(testor, row.len() as int) && forall|k: int|
        0 <= k < inds.len() && inds[k] >= row.len() ==> exists|j: int|
            0 <= j < k && matches_at(row, testor, inds, j))
}

/// Whether, for some listed index `idx`, the row holds the value `row[idx]`
/// at every attribute of the testor.
pub fn is_indiscernible(row: &[bool], testor: &[usize], indiscernibles: &[usize]) -> (r: bool)
    requires
        indiscernible_reads_in_range(row@, testor@, indiscernibles@),
    ensures
        r == indiscernible_spec(row@, testor@, indiscernibles@),
{
    let ghost rw = row@;
    let ghost ts = testor@;
    let ghost inds = indiscernibles@;
    let mut k: usize = 0;
    while k < indiscernibles.len()
        invariant
            rw == row@,
            ts == testor@,
            inds == indiscernibles@,
            k <= inds.len(),
            indiscernible_reads_in_range(rw, ts, inds),
            forall|j: int| 0 <= j < k ==> !matches_at(rw, ts, inds, j),
        decreases inds.len() - k,
    {
        let idx = indiscernibles[k];
        if idx >= row.len() {
            proof {
                let j = choose|j: int| 0 <= j < k && matches_at(rw, ts, inds, j);
                assert(!matches_at(rw, ts, inds, j));
            }
        }
        let other_row = row[idx];
        let mut match_count: usize = 0;
        let mut t: usize = 0;
        while t < testor.len()
            invariant
                rw == row@,
                ts == testor@,
                t <= ts.len(),
                indices_below(ts, rw.len() as int),
                match_count <= t,
                match_count == t <==> forall|u: int|
                    0 <= u < t ==> rw[ts[u] as int] == other_row,
            decreases ts.len() - t,
        {
            let attr_idx = testor[t];
            let attr_value = row[attr_idx];
            if attr_value == other_row {
                match_count = match_count + 1;
            }
            t = t + 1;
        }
        if match_count == testor.len() {
            assert(matches_at(rw, ts, inds, k as int));
            return true;
        }
        k = k + 1;
    }
    false
}

/// The objects found indiscernible, in order, when the rows are scanned
/// one by one and each is compared with those already collected.
pub open spec fn indiscernibles_upto(data: Seq<Seq<bool>>, testor: Seq<usize>, n: nat) -> Seq<usize>
    decreases n,
{
    if n == 0 {
        Seq::empty()
    } else {
        let prev = indiscernibles_upto(data, testor, (n - 1) as nat);
        if indiscernible_spec(data[n - 1], testor, prev) {
            prev.push((n - 1) as usize)
        } else {
            prev
        }
    }
}

/// What `is_testor` decides.
pub open spec fn testor_spec(data: Seq<Seq<bool>>, target: Seq<bool>, testor: Seq<usize>) -> bool {
    reduct_spec(indiscernibles_upto(data, testor, data.len()), target)
}

/// The scan never collects an object: the first row is compared with an
/// empty list, and an empty list matches nothing.
pub proof fn lemma_no_indiscernibles(data: Seq<Seq<bool>>, testor: Seq<usize>, n: nat)
    ensures
        indiscernibles_upto(data, testor, n) == Seq::<usize>::empty(),
    decreases n,
{
    if n > 0 {
        lemma_no_indiscernibles(data, testor, (n - 1) as nat);
    }
}

/// Every candidate passes the testor check, whatever the data and target.
pub proof fn lemma_every_candidate_is_testor(
    data: Seq<Seq<bool>>,
    target: Seq<bool>,
    testor: Seq<usize>,
)
    ensures
        testor_spec(data, target, testor),
{
    lemma_no_indiscernibles(data, testor, data.len());
}

/// Whether the candidate attribute set passes the testor check.
pub fn is_testor(data: &[Vec<bool>], target: &[bool], testor: &[usize]) -> (r: bool)
    ensures
        r == testor_spec(rows(data@), target@, testor@),
        r,
{
    let ghost d = rows(data@);
    let mut indiscernibles: Vec<usize> = Vec::new();
    let mut i: usize = 0;
    while i < data.len()
        invariant
            d == rows(data@),
            i <= data.len(),
            indiscernibles@ == indiscernibles_upto(d, testor@, i as nat),
        decreases data.len() - i,
    {
        proof {
            lemma_no_indiscernibles(d, testor@, i as nat);
        }
        let row = data[i].as_slice();
        assert(row@ == d[i as int]);
        if is_indiscernible(row, testor, indiscernibles.as_slice()) {
            indiscernibles.push(i);
        }
        i = i + 1;
    }
    proof {
        lemma_no_indiscernibles(d, testor@, data.len() as nat);
    }
    is_reduct(indiscernibles.as_slice(), target)
}

/// The candidates that the search from `start` keeps, in the order in which
/// it visits them: the current candidate itself when it is a testor, then,
/// for each later attribute in turn, the search that extends the candidate
/// with it.
pub open spec fn lex_from(
    data: Seq<Seq<bool>>,
    target: Seq<bool>,
    attrs: Seq<usize>,
    start: int,
    cand: Seq<usize>,
) -> Seq<Seq<usize>>
    decreases attrs.len() - start, 1int,
{
    (if testor_spec(data, target, cand) {
        seq![cand]
    } else {
        Seq::empty()
    }) + lex_loop(data, target, attrs, start, cand)
}

/// The candidates kept by the extensions of `cand` with the attributes at
/// positions `i` and after.
pub open spec fn lex_loop(
    data: Seq<Seq<bool>>,
    target: Seq<bool>,
    attrs: Seq<usize>,
    i: int,
    cand: Seq<usize>,
) -> Seq<Seq<usize>>
    decreases attrs.len() - i, 0int,
{
    if i < 0 || i >= attrs.len() {
        Seq::empty()
    } else {
        lex_from(data, target, attrs, i + 1, cand.push(attrs[i])) + lex_loop(
            data,
            target,
            attrs,
            i + 1,
            cand,
        )
    }
}

/// The attributes `0, 1, ..., n - 1`.
pub open spec fn ascending(n: nat) -> Seq<usize> {
    Seq::new(n, |i: int| i as usize)
}

/// Appends to `testors` every candidate that the search from `start_idx`
/// keeps, and leaves the candidate as it found it.
pub fn lex_helper(
    data: &[Vec<bool>],
    target: &[bool],
    attrs: &[usize],
    start_idx: usize,
    candidate_testor: &mut Vec<usize>,
    testors: &mut Vec<Vec<usize>>,
)
    ensures
        final(candidate_testor)@ == old(candidate_testor)@,
        index_lists(final(testors)@) == index_lists(old(testors)@) + lex_from(
            rows(data@),
            target@,
            attrs@,
            start_idx as int,
            old(candidate_testor)@,
        ),
    decreases attrs.len() - start_idx,
{
    let ghost d = rows(data@);
    let ghost cand0 = candidate_testor@;
    let ghost out0 = index_lists(testors@);
    if is_testor(data, target, candidate_testor.as_slice()) {
        let kept = candidate_testor.clone();
        assert(kept@ =~= cand0);
        testors.push(kept);
        assert(index_lists(testors@) =~= out0 + seq![cand0]);
    } else {
        assert(index_lists(testors@) =~= out0 + Seq::<Seq<usize>>::empty());
    }
    let mut i: usize = start_idx;
    while i < attrs.len()
        invariant
            d == rows(data@),
            candidate_testor@ == cand0,
            start_idx <= i,
            index_lists(testors@) + lex_loop(d, target@, attrs@, i as int, cand0) == out0
                + lex_from(d, target@, attrs@, start_idx as int, cand0),
        decreases attrs.len() - i,
    {
        let ghost before = index_lists(testors@);
        candidate_testor.push(attrs[i]);
        lex_helper(data, target, attrs, i + 1, candidate_testor, testors);
        candidate_testor.pop();
        assert(candidate_testor@ =~= cand0);
        let ghost step = lex_from(d, target@, attrs@, i + 1, cand0.push(attrs@[i as int]));
        let ghost rest = lex_loop(d, target@, attrs@, i + 1, cand0);
        assert(lex_loop(d, target@, attrs@, i as int, cand0) == step + rest);
        assert(index_lists(testors@) == before + step);
        assert((before + step) + rest =~= before + (step + rest));
        i = i + 1;
    }
}

/// All the testors of the data for the target, as lists of attribute
/// positions, in the order of a depth-first search over the attributes
/// `0, 1, ..., n - 1`, where `n` is the length of the first row.
pub fn lex_algorithm(data: &[Vec<bool>], target: &[bool]) -> (testors: Vec<Vec<usize>>)
    requires
        data.len() > 0,
    ensures
        index_lists(testors@) == lex_from(
            rows(data@),
            target@,
            ascending(data@[0]@.len()),
            0,
            Seq::empty(),
        ),
{
    let num_attrs = data[0].len();
    let mut attrs: Vec<usize> = Vec::new();
    let mut a: usize = 0;
    while a < num_attrs
        invariant
            a <= num_attrs,
            attrs@ =~= ascending(a as nat),
        decreases num_attrs - a,
    {
        attrs.push(a);
        a = a + 1;
    }
    // The range is built in ascending order, so it is already sorted.
    let mut testors: Vec<Vec<usize>> = Vec::new();
    let mut candidate_testor: Vec<usize> = Vec::new();
    lex_helper(data, target, attrs.as_slice(), 0, &mut candidate_testor, &mut testors);
    assert(index_lists(Seq::<Vec<usize>>::empty()) =~= Seq::<Seq<usize>>::empty());
    assert(candidate_testor@ =~= Seq::<usize>::empty());
    testors
}

/// Whether the attributes increase strictly along the list.
pub open spec fn strictly_increasing(s: Seq<usize>) -> bool {
    forall|a: int, b: int| 0 <= a < b < s.len() ==> s[a] < s[b]
}

/// `e` is `c` followed by attributes that increase strictly and lie in
/// `lo..n`.
pub open spec fn extends_increasing(e: Seq<usize>, c: Seq<usize>, lo: int, n: int) -> bool {
    &&& e.len() >= c.len()
    &&& e.subrange(0, c.len() as int) == c
    &&& forall|a: int, b: int| c.len() <= a < b < e.len() ==> e[a] < e[b]
    &&& forall|a: int| c.len() <= a < e.len() ==> lo <= #[trigger] e[a] < n
}

proof fn lemma_from_sound(
    data: Seq<Seq<bool>>,
    target: Seq<bool>,
    n: int,
    s: int,
    c: Seq<usize>,
)
    requires
        0 <= s <= n <= usize::MAX,
    ensures
        forall|k: int|
            0 <= k < lex_from(data, target, ascending(n as nat), s, c).len()
                ==> extends_increasing(
                #[trigger] lex_from(data, target, ascending(n as nat), s, c)[k],
                c,
                s,
                n,
            ),
    decreases n - s, 1int,
{
    let a = ascending(n as nat);
    lemma_every_candidate_is_testor(data, target, c);
    lemma_loop_sound(data, target, n, s, c);
    let l = lex_loop(data, target, a, s, c);
    let r = lex_from(data, target, a, s, c);
    assert(r == seq![c] + l);
    assert(c.subrange(0, c.len() as int) =~= c);
    assert forall|k: int| 0 <= k < r.len() implies extends_increasing(#[trigger] r[k], c, s, n) by {
        if k > 0 {
            assert(r[k] == l[k - 1]);
        }
    }
}

proof fn lemma_loop_sound(
    data: Seq<Seq<bool>>,
    target: Seq<bool>,
    n: int,
    i: int,
    c: Seq<usize>,
)
    requires
        0 <= i <= n <= usize::MAX,
    ensures
        forall|k: int|
            0 <= k < lex_loop(data, target, ascending(n as nat), i, c).len() ==> {
                &&& extends_increasing(
                    #[trigger] lex_loop(data, target, ascending(n as nat), i, c)[k],
                    c,
                    i,
                    n,
                )
                &&& lex_loop(data, target, ascending(n as nat), i, c)[k].len() > c.len()
            },
    decreases n - i, 0int,
{
    let a = ascending(n as nat);
    if i < n {
        let ci = c.push(i as usize);
        let x = lex_from(data, target, a, i + 1, ci);
        let y = lex_loop(data, target, a, i + 1, c);
        let l = lex_loop(data, target, a, i, c);
        assert(a[i] == i as usize);
        assert(l == x + y);
        lemma_from_sound(data, target, n, i + 1, ci);
        lemma_loop_sound(data, target, n, i + 1, c);
        assert forall|k: int| 0 <= k < l.len() implies extends_increasing(#[trigger] l[k], c, i, n)
            && l[k].len() > c.len() by {
            if k < x.len() {
                let e = x[k];
                assert(l[k] == e);
                assert(extends_increasing(e, ci, i + 1, n));
                assert(e.subrange(0, c.len() as int) =~= e.subrange(0, ci.len() as int).subrange(
                    0,
                    c.len() as int,
                ));
                assert(e.subrange(0, ci.len() as int)[c.len() as int] == e[c.len() as int]);
                assert(e[c.len() as int] == i);
                assert(ci.subrange(0, c.len() as int) =~= c);
                assert forall|p: int, q: int| c.len() <= p < q < e.len() implies e[p] < e[q] by {
                    if p == c.len() {
                        assert(i + 1 <= e[q]);
                    }
                }
                assert forall|p: int| c.len() <= p < e.len() implies i <= #[trigger] e[p] < n by {
                    if p > c.len() {
                        assert(i + 1 <= e[p] < n);
                    }
                }
            } else {
                assert(l[k] == y[k - x.len()]);
                let e = y[k - x.len()];
                assert(extends_increasing(e, c, i + 1, n));
                assert forall|p: int| c.len() <= p < e.len() implies i <= #[trigger] e[p] < n by {
                    assert(i + 1 <= e[p] < n);
                }
            }
        }
    }
}

proof fn lemma_loop_contains(
    data: Seq<Seq<bool>>,
    target: Seq<bool>,
    n: int,
    s: int,
    i: int,
    c: Seq<usize>,
    x: Seq<usize>,
)
    requires
        0 <= s <= i < n <= usize::MAX,
        lex_from(data, target, ascending(n as nat), i + 1, c.push(i as usize)).contains(x),
    ensures
        lex_loop(data, target, ascending(n as nat), s, c).contains(x),
    decreases i - s,
{
    let a = ascending(n as nat);
    let first = lex_from(data, target, a, s + 1, c.push(s as usize));
    let rest = lex_loop(data, target, a, s + 1, c);
    assert(a[s] == s as usize);
    assert(lex_loop(data, target, a, s, c) == first + rest);
    if i == s {
        let k = choose|k: int| 0 <= k < first.len() && first[k] == x;
        assert((first + rest)[k] == x);
    } else {
        lemma_loop_contains(data, target, n, s + 1, i, c, x);
        let k = choose|k: int| 0 <= k < rest.len() && rest[k] == x;
        assert((first + rest)[first.len() + k] == x);
    }
}

proof fn lemma_from_complete(
    data: Seq<Seq<bool>>,
    target: Seq<bool>,
    n: int,
    s: int,
    c: Seq<usize>,
    y: Seq<usize>,
)
    requires
        0 <= s <= n <= usize::MAX,
        strictly_increasing(y),
        forall|k: int| 0 <= k < y.len() ==> s <= #[trigger] y[k] < n,
    ensures
        lex_from(data, target, ascending(n as nat), s, c).contains(c + y),
    decreases n - s,
{
    let a = ascending(n as nat);
    lemma_every_candidate_is_testor(data, target, c);
    let l = lex_loop(data, target, a, s, c);
    let r = lex_from(data, target, a, s, c);
    assert(r == seq![c] + l);
    if y.len() == 0 {
        assert(c + y =~= c);
        assert(r[0] == c);
    } else {
        let i = y[0] as int;
        let rest = y.drop_first();
        assert forall|k: int| 0 <= k < rest.len() implies i + 1 <= #[trigger] rest[k] < n by {
            assert(rest[k] == y[k + 1]);
        }
        lemma_from_complete(data, target, n, i + 1, c.push(i as usize), rest);
        assert(c.push(i as usize) + rest =~= c + y);
        lemma_loop_contains(data, target, n, s, i, c, c + y);
        let k = choose|k: int| 0 <= k < l.len() && l[k] == c + y;
        assert(r[k + 1] == c + y);
    }
}

proof fn lemma_concat_distinct(x: Seq<Seq<usize>>, y: Seq<Seq<usize>>)
    requires
        x.no_duplicates(),
        y.no_duplicates(),
        forall|p: int, q: int| 0 <= p < x.len() && 0 <= q < y.len() ==> x[p] != y[q],
    ensures
        (x + y).no_duplicates(),
{
    let z = x + y;
    assert forall|p: int, q: int| 0 <= p < z.len() && 0 <= q < z.len() && p != q implies z[p]
        != z[q] by {
        if p < x.len() && q >= x.len() {
            assert(z[q] == y[q - x.len()]);
        } else if p >= x.len() && q < x.len() {
            assert(z[p] == y[p - x.len()]);
        } else if p >= x.len() {
            assert(z[p] == y[p - x.len()]);
            assert(z[q] == y[q - x.len()]);
        }
    }
}

proof fn lemma_from_distinct(
    data: Seq<Seq<bool>>,
    target: Seq<bool>,
    n: int,
    s: int,
    c: Seq<usize>,
)
    requires
        0 <= s <= n <= usize::MAX,
    ensures
        lex_from(data, target, ascending(n as nat), s, c).no_duplicates(),
    decreases n - s, 1int,
{
    let a = ascending(n as nat);
    lemma_every_candidate_is_testor(data, target, c);
    let l = lex_loop(data, target, a, s, c);
    lemma_loop_distinct(data, target, n, s, c);
    lemma_loop_sound(data, target, n, s, c);
    let head = seq![c];
    assert forall|p: int, q: int| 0 <= p < head.len() && 0 <= q < l.len() implies head[p]
        != l[q] by {
        assert(l[q].len() > c.len());
    }
    lemma_concat_distinct(head, l);
}

proof fn lemma_loop_distinct(
    data: Seq<Seq<bool>>,
    target: Seq<bool>,
    n: int,
    i: int,
    c: Seq<usize>,
)
    requires
        0 <= i <= n <= usize::MAX,
    ensures
        lex_loop(data, target, ascending(n as nat), i, c).no_duplicates(),
    decreases n - i, 0int,
{
    let a = ascending(n as nat);
    if i < n {
        let ci = c.push(i as usize);
        let x = lex_from(data, target, a, i + 1, ci);
        let y = lex_loop(data, target, a, i + 1, c);
        assert(a[i] == i as usize);
        assert(lex_loop(data, target, a, i, c) == x + y);
        lemma_from_distinct(data, target, n, i + 1, ci);
        lemma_loop_distinct(data, target, n, i + 1, c);
        lemma_from_sound(data, target, n, i + 1, ci);
        lemma_loop_sound(data, target, n, i + 1, c);
        assert forall|p: int, q: int| 0 <= p < x.len() && 0 <= q < y.len() implies x[p]
            != y[q] by {
            let e = x[p];
            assert(extends_increasing(e, ci, i + 1, n));
            assert(e.subrange(0, ci.len() as int)[c.len() as int] == e[c.len() as int]);
            assert(e[c.len() as int] == i);
            assert(extends_increasing(y[q], c, i + 1, n));
            assert(y[q].len() > c.len());
            assert(y[q][c.len() as int] >= i + 1);
        }
        lemma_concat_distinct(x, y);
    }
}

proof fn lemma_from_len(
    data: Seq<Seq<bool>>,
    target: Seq<bool>,
    n: int,
    s: int,
    c: Seq<usize>,
)
    requires
        0 <= s <= n <= usize::MAX,
    ensures
        lex_from(data, target, ascending(n as nat), s, c).len() == pow2((n - s) as nat),
    decreases n - s, 1int,
{
    lemma_every_candidate_is_testor(data, target, c);
    lemma_loop_len(data, target, n, s, c);
}

proof fn lemma_loop_len(
    data: Seq<Seq<bool>>,
    target: Seq<bool>,
    n: int,
    i: int,
    c: Seq<usize>,
)
    requires
        0 <= i <= n <= usize::MAX,
    ensures
        lex_loop(data, target, ascending(n as nat), i, c).len() + 1 == pow2((n - i) as nat),
    decreases n - i, 0int,
{
    let a = ascending(n as nat);
    if i < n {
        let ci = c.push(i as usize);
        assert(a[i] == i as usize);
        lemma_from_len(data, target, n, i + 1, ci);
        lemma_loop_len(data, target, n, i + 1, c);
        lemma_pow2_unfold((n - i) as nat);
    } else {
        lemma2_to64();
    }
}

/// The search over `n` attributes lists every subset of them exactly once:
/// each list increases strictly and stays below `n`, every strictly
/// increasing list below `n` occurs, no list occurs twice, and there are
/// `2^n` of them.
pub proof fn lemma_lex_lists_every_subset_once(
    data: Seq<Seq<bool>>,
    target: Seq<bool>,
    n: nat,
)
    requires
        n <= usize::MAX,
    ensures
        ({
            let r = lex_from(data, target, ascending(n), 0, Seq::empty());
            &&& r.len() == pow2(n)
            &&& r.no_duplicates()
            &&& forall|k: int|
                0 <= k < r.len() ==> strictly_increasing(#[trigger] r[k]) && forall|a: int|
                    0 <= a < r[k].len() ==> r[k][a] < n
            &&& forall|y: Seq<usize>|
                strictly_increasing(y) && (forall|a: int| 0 <= a < y.len() ==> y[a] < n)
                    ==> #[trigger] r.contains(y)
        }),
{
    let r = lex_from(data, target, ascending(n), 0, Seq::empty());
    lemma_from_len(data, target, n as int, 0, Seq::empty());
    lemma_from_distinct(data, target, n as int, 0, Seq::empty());
    lemma_from_sound(data, target, n as int, 0, Seq::empty());
    assert forall|k: int| 0 <= k < r.len() implies strictly_increasing(#[trigger] r[k]) && forall|
        a: int,
    | 0 <= a < r[k].len() ==> r[k][a] < n by {
        assert(extends_increasing(r[k], Seq::empty(), 0, n as int));
    }
    assert forall|y: Seq<usize>|
        strictly_increasing(y) && (forall|a: int| 0 <= a < y.len() ==> y[a] < n) implies #[trigger] r.contains(
        y,
    ) by {
        lemma_from_complete(data, target, n as int, 0, Seq::empty(), y);
        assert(Seq::<usize>::empty() + y =~= y);
    }
}

/// The matrix with each entry replaced by whether it equals 1.
pub fn to_binary_matrix(data: &Vec<Vec<u32>>) -> (binary_data: Vec<Vec<bool>>)
    ensures
        binary_data.len() == data.len(),
        forall|r: int|
            0 <= r < data.len() ==> (#[trigger] binary_data@[r])@.len() == data@[r]@.len() && forall|
                k: int,
            | 0 <= k < data@[r]@.len() ==> #[trigger] binary_data@[r]@[k] == (data@[r]@[k] == 1),
{
    let mut binary_data: Vec<Vec<bool>> = Vec::new();
    let mut r: usize = 0;
    while r < data.len()
        invariant
            r <= data.len(),
            binary_data.len() == r,
            forall|q: int|
                0 <= q < r ==> (#[trigger] binary_data@[q])@.len() == data@[q]@.len() && forall|
                    k: int,
                | 0 <= k < data@[q]@.len() ==> #[trigger] binary_data@[q]@[k] == (data@[q]@[k] == 1),
        decreases data.len() - r,
    {
        let row = &data[r];
        let mut bits: Vec<bool> = Vec::new();
        let mut k: usize = 0;
        while k < row.len()
            invariant
                k <= row.len(),
                bits.len() == k,
                forall|m: int| 0 <= m < k ==> #[trigger] bits@[m] == (row@[m] == 1),
            decreases row.len() - k,
        {
            bits.push(row[k] == 1);
            k = k + 1;
        }
        binary_data.push(bits);
        r = r + 1;
    }
    binary_data
}

} // verus!
