//! Integer parts of the univariate estimation of distribution: positions of
//! the ones in a chromosome, counts of ones over a population, placement of
//! ones, and duplicate removal.
use vstd::prelude::*;

verus! {

/// The positions (as `u32`) of the entries equal to 1 among the first `n`,
/// in increasing order.
pub open spec fn ones_positions(v: Seq<i8>, n: int) -> Seq<u32>
    decreases n,
{
    if n <= 0 {
        Seq::empty()
    } else {
        ones_positions(v, n - 1) + if v[n - 1] == 1 {
            seq![(n - 1) as u32]
        } else {
            Seq::empty()
        }
    }
}

/// The positions of the ones of the chromosome.
pub fn find_ones_indices(binary_vector: &Vec<i8>) -> (ones_indices: Vec<u32>)
    ensures
        ones_indices@ == ones_positions(binary_vector@, binary_vector.len() as int),
{
    let mut ones_indices: Vec<u32> = Vec::new();
    let mut i: usize = 0;
    while i < binary_vector.len()
        invariant
            i <= binary_vector.len(),
            ones_indices@ == ones_positions(binary_vector@, i as int),
        decreases binary_vector.len() - i,
    {
        let bit = binary_vector[i];
        if bit == 1 {
            ones_indices.push(i as u32);
        } else {
            assert(ones_positions(binary_vector@, i + 1) =~= ones_positions(binary_vector@, i as int));
        }
        i = i + 1;
    }
    ones_indices
}

/// The positions list increases strictly, holds only positions of ones,
/// and holds every position of a one, as long as the positions fit in
/// `u32`.
pub proof fn lemma_ones_positions_exact(v: Seq<i8>, n: int)
    requires
        0 <= n <= v.len(),
        n <= u32::MAX + 1,
    ensures
        forall|a: int, b: int|
            0 <= a < b < ones_positions(v, n).len() ==> ones_positions(v, n)[a] < ones_positions(
                v,
                n,
            )[b],
        forall|a: int|
            0 <= a < ones_positions(v, n).len() ==> ones_positions(v, n)[a] < n && v[ones_positions(
                v,
                n,
            )[a] as int] == 1,
        forall|k: int| 0 <= k < n && v[k] == 1 ==> ones_positions(v, n).contains(k as u32),
    decreases n,
{
    if n > 0 {
        lemma_ones_positions_exact(v, n - 1);
        let prev = ones_positions(v, n - 1);
        let cur = ones_positions(v, n);
        if v[n - 1] == 1 {
            assert(cur == prev.push((n - 1) as u32));
            assert forall|k: int| 0 <= k < n && v[k] == 1 implies cur.contains(k as u32) by {
                if k == n - 1 {
                    assert(cur[prev.len() as int] == k as u32);
                } else {
                    let w = choose|w: int| 0 <= w < prev.len() && prev[w] == k as u32;
                    assert(cur[w] == k as u32);
                }
            }
        } else {
            assert(cur =~= prev);
        }
    }
}

/// How many rows the scans over the population visit: the population size
/// taken as an `i8`, less one.
pub open spec fn scanned_rows(len: nat) -> int {
    (len % 256) as int - 1
}

/// The scans over the population do not fail: there is a first row with at
/// least one entry and, when it has more than one, the size taken as an
/// `i8` is positive and every visited row reaches every visited column.
pub open spec fn population_scan_ok(p: Seq<Vec<i8>>) -> bool {
    &&& p.len() > 0
    &&& p[0].len() > 0
    &&& p[0].len() > 1 ==> {
        &&& 1 <= p.len() % 256 <= 127
        &&& forall|j: int| 0 <= j < scanned_rows(p.len()) ==> (#[trigger] p[j]).len() + 1 >= p[0].len()
    }
}

/// Whether the scans over the population can run: `population_scan_ok`.
pub fn population_scannable(poblation: &Vec<Vec<i8>>) -> (r: bool)
    ensures
        r == population_scan_ok(poblation@),
{
    if poblation.len() == 0 || poblation[0].len() == 0 {
        return false;
    }
    if poblation[0].len() == 1 {
        return true;
    }
    let size = poblation.len() % 256;
    if size < 1 || size > 127 {
        return false;
    }
    let width = poblation[0].len();
    let mut j: usize = 0;
    while j < size - 1
        invariant
            j <= size - 1,
            size == poblation.len() % 256,
            1 <= size <= 127,
            width == poblation@[0].len(),
            width >= 2,
            size <= poblation.len(),
            forall|q: int| 0 <= q < j ==> (#[trigger] poblation@[q]).len() + 1 >= width,
        decreases size - 1 - j,
    {
        if poblation[j].len() < width - 1 {
            return false;
        }
        j = j + 1;
    }
    true
}

/// How many of the rows `0..m` hold a 1 in column `i`.
pub open spec fn ones_in_column(p: Seq<Vec<i8>>, i: int, m: int) -> nat
    decreases m,
{
    if m <= 0 {
        0
    } else {
        ones_in_column(p, i, m - 1) + if p[m - 1]@[i] == 1 {
            1nat
        } else {
            0nat
        }
    }
}

/// How many ones the rows `0..m` hold in the columns `0..c`.
pub open spec fn ones_in_block(p: Seq<Vec<i8>>, c: int, m: int) -> nat
    decreases c,
{
    if c <= 0 {
        0
    } else {
        ones_in_block(p, c - 1, m) + ones_in_column(p, c - 1, m)
    }
}

proof fn lemma_size_as_i8(len: usize)
    requires
        1 <= len % 256 <= 127,
    ensures
        (len as i8) as int == (len % 256) as int,
{
    assert(1 <= len % 256 <= 127 ==> (len as i8) as int == (len % 256) as int) by (bit_vector);
}

/// A 1 for every 1 that the population holds in the scanned rows and in the
/// columns before the last one of the first row.
pub fn get_features(poblation: &Vec<Vec<i8>>) -> (features: Vec<i8>)
    requires
        population_scan_ok(poblation@),
    ensures
        features.len() == ones_in_block(
            poblation@,
            poblation@[0].len() - 1,
            scanned_rows(poblation.len() as nat),
        ),
        forall|k: int| 0 <= k < features.len() ==> features@[k] == 1,
{
    let mut features: Vec<i8> = Vec::new();
    let poblation_size = poblation.len() as i8;
    let width = poblation[0].len() - 1;
    proof {
        if width > 0 {
            lemma_size_as_i8(poblation.len());
        }
    }
    let mut i: usize = 0;
    while i < width
        invariant
            i <= width,
            width == poblation@[0].len() - 1,
            population_scan_ok(poblation@),
            width > 0 ==> poblation_size as int == (poblation.len() % 256) as int,
            features.len() == ones_in_block(poblation@, i as int, scanned_rows(poblation.len() as nat)),
            forall|k: int| 0 <= k < features.len() ==> features@[k] == 1,
        decreases width - i,
    {
        proof {
            lemma_size_as_i8(poblation.len());
        }
        let rows = (poblation_size - 1) as usize;
        let mut j: usize = 0;
        while j < rows
            invariant
                j <= rows,
                i < width,
                width == poblation@[0].len() - 1,
                rows as int == scanned_rows(poblation.len() as nat),
                rows < poblation.len(),
                population_scan_ok(poblation@),
                features.len() == ones_in_block(poblation@, i as int, rows as int)
                    + ones_in_column(poblation@, i as int, j as int),
                forall|k: int| 0 <= k < features.len() ==> features@[k] == 1,
            decreases rows - j,
        {
            assert(poblation@[j as int].len() + 1 >= poblation@[0].len());
            if poblation[j][i] == 1 {
                features.push(1);
            }
            j = j + 1;
        }
        i = i + 1;
    }
    features
}

/// For each column before the last one of the first row, how many of the
/// scanned rows hold a 1 in it; each count divided by the population size
/// gives the estimated distribution.
pub fn distribution_counts(poblation: &Vec<Vec<i8>>) -> (counts: Vec<u32>)
    requires
        population_scan_ok(poblation@),
    ensures
        counts.len() == poblation@[0].len() - 1,
        forall|i: int|
            0 <= i < counts.len() ==> counts@[i] == ones_in_column(
                poblation@,
                i,
                scanned_rows(poblation.len() as nat),
            ),
{
    let mut counts: Vec<u32> = Vec::new();
    let poblation_size = poblation.len() as i8;
    let width = poblation[0].len() - 1;
    proof {
        if width > 0 {
            lemma_size_as_i8(poblation.len());
        }
    }
    let mut i: usize = 0;
    while i < width
        invariant
            i <= width,
            width == poblation@[0].len() - 1,
            population_scan_ok(poblation@),
            width > 0 ==> poblation_size as int == (poblation.len() % 256) as int,
            counts.len() == i,
            forall|q: int|
                0 <= q < i ==> counts@[q] == ones_in_column(
                    poblation@,
                    q,
                    scanned_rows(poblation.len() as nat),
                ),
        decreases width - i,
    {
        proof {
            lemma_size_as_i8(poblation.len());
        }
        let rows = (poblation_size - 1) as usize;
        let mut sum: u32 = 0;
        let mut j: usize = 0;
        while j < rows
            invariant
                j <= rows,
                i < width,
                width == poblation@[0].len() - 1,
                rows as int == scanned_rows(poblation.len() as nat),
                rows < poblation.len(),
                rows <= 126,
                population_scan_ok(poblation@),
                sum == ones_in_column(poblation@, i as int, j as int),
                sum <= j,
            decreases rows - j,
        {
            assert(poblation@[j as int].len() + 1 >= poblation@[0].len());
            if poblation[j][i] == 1 {
                sum = sum + 1;
            }
            j = j + 1;
        }
        counts.push(sum);
        i = i + 1;
    }
    counts
}

/// The sum of a list of counts.
pub open spec fn total(s: Seq<u32>) -> nat
    decreases s.len(),
{
    if s.len() == 0 {
        0
    } else {
        total(s.drop_last()) + s.last() as nat
    }
}

/// The features of a population are as many as the counts of its
/// distribution add up to.
pub proof fn lemma_features_match_distribution(p: Seq<Vec<i8>>, counts: Seq<u32>, m: int)
    requires
        forall|i: int| 0 <= i < counts.len() ==> counts[i] == ones_in_column(p, i, m),
    ensures
        total(counts) == ones_in_block(p, counts.len() as int, m),
    decreases counts.len(),
{
    if counts.len() > 0 {
        lemma_features_match_distribution(p, counts.drop_last(), m);
    }
}

/// The sum of column `i` over the rows `0..m`.
pub open spec fn column_total(p: Seq<Vec<i8>>, i: int, m: int) -> int
    decreases m,
{
    if m <= 0 {
        0
    } else {
        column_total(p, i, m - 1) + p[m - 1]@[i] as int
    }
}

proof fn lemma_column_total_bounds(p: Seq<Vec<i8>>, i: int, m: int)
    requires
        m >= 0,
    ensures
        -128 * m <= column_total(p, i, m) <= 127 * m,
    decreases m,
{
    if m > 0 {
        lemma_column_total_bounds(p, i, m - 1);
    }
}

/// For each column of the first row, the sum of the column over all rows;
/// each sum divided by the number of rows gives the marginal frequency.
pub fn marginal_sums(binary_vectors: &[Vec<i8>]) -> (sums: Vec<i128>)
    requires
        binary_vectors.len() > 0,
        forall|j: int|
            0 <= j < binary_vectors.len() ==> (#[trigger] binary_vectors@[j]).len()
                >= binary_vectors@[0].len(),
    ensures
        sums.len() == binary_vectors@[0].len(),
        forall|i: int|
            0 <= i < sums.len() ==> sums@[i] == column_total(
                binary_vectors@,
                i,
                binary_vectors.len() as int,
            ),
{
    let width = binary_vectors[0].len();
    let mut sums: Vec<i128> = Vec::new();
    let mut i: usize = 0;
    while i < width
        invariant
            i <= width,
            width == binary_vectors@[0].len(),
            forall|j: int|
                0 <= j < binary_vectors.len() ==> (#[trigger] binary_vectors@[j]).len()
                    >= binary_vectors@[0].len(),
            sums.len() == i,
            forall|q: int|
                0 <= q < i ==> sums@[q] == column_total(
                    binary_vectors@,
                    q,
                    binary_vectors.len() as int,
                ),
        decreases width - i,
    {
        let mut count: i128 = 0;
        let mut j: usize = 0;
        while j < binary_vectors.len()
            invariant
                j <= binary_vectors.len(),
                i < width,
                width == binary_vectors@[0].len(),
                forall|r: int|
                    0 <= r < binary_vectors.len() ==> (#[trigger] binary_vectors@[r]).len()
                        >= binary_vectors@[0].len(),
                count == column_total(binary_vectors@, i as int, j as int),
            decreases binary_vectors.len() - j,
        {
            proof {
                lemma_column_total_bounds(binary_vectors@, i as int, j as int);
            }
            assert(binary_vectors@[j as int].len() >= width);
            count = count + binary_vectors[j][i] as i128;
            j = j + 1;
        }
        sums.push(count);
        i = i + 1;
    }
    sums
}

/// Whether every byte is zero.
pub fn is_zero(buf: &Vec<u8>) -> (r: bool)
    ensures
        r == forall|k: int| 0 <= k < buf.len() ==> buf@[k] == 0,
{
    let mut k: usize = 0;
    while k < buf.len()
        invariant
            k <= buf.len(),
            forall|j: int| 0 <= j < k ==> buf@[j] == 0,
        decreases buf.len() - k,
    {
        if buf[k] != 0 {
            return false;
        }
        k = k + 1;
    }
    true
}

fn holds_byte(values: &Vec<u8>, x: u8) -> (r: bool)
    ensures
        r == values@.contains(x),
{
    let mut k: usize = 0;
    while k < values.len()
        invariant
            k <= values.len(),
            forall|j: int| 0 <= j < k ==> values@[j] != x,
        decreases values.len() - k,
    {
        if values[k] == x {
            return true;
        }
        k = k + 1;
    }
    false
}

/// The distinct values of the list, each once. Which order they come in is
/// not fixed.
pub fn filter_uniq(vec: Vec<u8>) -> (uniq: Vec<u8>)
    ensures
        uniq@.no_duplicates(),
        uniq@.to_set() == vec@.to_set(),
{
    let mut uniq: Vec<u8> = Vec::new();
    let mut k: usize = 0;
    while k < vec.len()
        invariant
            k <= vec.len(),
            uniq@.no_duplicates(),
            forall|x: u8| uniq@.contains(x) <==> vec@.subrange(0, k as int).contains(x),
        decreases vec.len() - k,
    {
        let x = vec[k];
        let ghost old_u = uniq@;
        if !holds_byte(&uniq, x) {
            uniq.push(x);
        }
        assert(vec@.subrange(0, k + 1) =~= vec@.subrange(0, k as int).push(x));
        assert forall|y: u8| uniq@.contains(y) <==> vec@.subrange(0, k + 1).contains(y) by {
            let pre = vec@.subrange(0, k as int);
            if y == x {
                assert(pre.push(x)[k as int] == y);
                if !old_u.contains(x) {
                    assert(uniq@[old_u.len() as int] == x);
                }
            } else {
                if pre.push(x).contains(y) {
                    let w = choose|w: int| 0 <= w < k + 1 && #[trigger] pre.push(x)[w] == y;
                    assert(pre[w] == y);
                    assert(old_u.contains(y));
                    let v = choose|v: int| 0 <= v < old_u.len() && #[trigger] old_u[v] == y;
                    assert(uniq@[v] == y);
                }
                if uniq@.contains(y) {
                    let w = choose|w: int| 0 <= w < uniq.len() && #[trigger] uniq@[w] == y;
                    assert(w < old_u.len());
                    assert(old_u[w] == y);
                    assert(old_u.contains(y));
                    assert(pre.contains(y));
                    let v = choose|v: int| 0 <= v < k && #[trigger] pre[v] == y;
                    assert(pre.push(x)[v] == y);
                }
            }
        }
        k = k + 1;
    }
    assert(vec@.subrange(0, vec.len() as int) =~= vec@);
    assert(uniq@.to_set() =~= vec@.to_set());
    uniq
}

/// Length of the chromosomes that the search builds.
pub const CHROMOSOME_LEN: usize = 68;

/// How many entries equal 1.
pub open spec fn ones_count(s: Seq<i8>) -> nat
    decreases s.len(),
{
    if s.len() == 0 {
        0
    } else {
        ones_count(s.drop_last()) + if s.last() == 1 {
            1nat
        } else {
            0nat
        }
    }
}

/// A chromosome of 68 zeros.
pub fn new_binary_array() -> (binary_array: Vec<i8>)
    ensures
        binary_array.len() == CHROMOSOME_LEN,
        forall|k: int| 0 <= k < binary_array.len() ==> binary_array@[k] == 0,
{
    let mut binary_array: Vec<i8> = Vec::new();
    let mut k: usize = 0;
    while k < CHROMOSOME_LEN
        invariant
            k <= CHROMOSOME_LEN,
            binary_array.len() == k,
            forall|j: int| 0 <= j < k ==> binary_array@[j] == 0,
        decreases CHROMOSOME_LEN - k,
    {
        binary_array.push(0);
        k = k + 1;
    }
    binary_array
}

/// One draw of the placement of a one: a free position (holding 0) takes a
/// 1 and the draw is accepted; a taken position leaves the chromosome as it
/// is and the draw is refused.
pub fn place_one(binary_array: &mut Vec<i8>, index: usize) -> (placed: bool)
    requires
        index < old(binary_array).len(),
    ensures
        placed == (old(binary_array)@[index as int] == 0),
        placed ==> final(binary_array)@ == old(binary_array)@.update(index as int, 1),
        !placed ==> final(binary_array)@ == old(binary_array)@,
{
    if binary_array[index] == 0 {
        binary_array.set(index, 1);
        true
    } else {
        false
    }
}

proof fn lemma_ones_count_update(s: Seq<i8>, index: int)
    requires
        0 <= index < s.len(),
        s[index] == 0,
    ensures
        ones_count(s.update(index, 1)) == ones_count(s) + 1,
    decreases s.len(),
{
    let t = s.update(index, 1);
    if index < s.len() - 1 {
        assert(t.drop_last() =~= s.drop_last().update(index, 1));
        lemma_ones_count_update(s.drop_last(), index);
    } else {
        assert(t.drop_last() =~= s.drop_last());
    }
}

/// An accepted draw adds exactly one 1 to the chromosome and a refused one
/// adds none, so a chromosome built by `n` accepted draws from zeros holds
/// `n` ones.
pub proof fn lemma_place_one_counts(before: Seq<i8>, after: Seq<i8>, index: int, placed: bool)
    requires
        0 <= index < before.len(),
        placed == (before[index] == 0),
        placed ==> after == before.update(index, 1),
        !placed ==> after == before,
    ensures
        ones_count(after) == ones_count(before) + if placed {
            1nat
        } else {
            0nat
        },
{
    if placed {
        lemma_ones_count_update(before, index);
    }
}

} // verus!
