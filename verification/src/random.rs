//! Random draws: a 0/1 data matrix drawn with the `rand` crate's thread
//! generator, and chromosomes built from draws against a distribution.
use rand::rngs::ThreadRng;
use rand::Rng;
use vstd::prelude::*;
use crate::float_order::{f32_lt, ge_spec, is_nan, le_spec, lt_spec, ONE_BITS, ZERO_BITS};

verus! {

/// `rand::rngs::ThreadRng`, the handle on the thread's generator; opaque.
#[verifier::external_type_specification]
#[verifier::external_body]
pub struct ExThreadRng(ThreadRng);

/// Calls `rand::thread_rng`. Nothing is claimed of the handle it returns.
#[verifier::external_body]
fn thread_rng() -> ThreadRng {
    rand::thread_rng()
}

/// Calls `Rng::gen_range(low..high)` on `u8`. `rand` samples from the
/// half-open range, so the result lies in it; which value comes is left
/// open. It panics on an empty range, which `requires` excludes.
#[verifier::external_body]
fn gen_range_u8(rng: &mut ThreadRng, low: u8, high: u8) -> (r: u8)
    requires
        low < high,
    ensures
        low <= r < high,
{
    rng.gen_range(low..high)
}

/// A `rows` by `atributtes` matrix of random 0/1 entries.
pub fn random_binary_matrix(rows: u32, atributtes: u32) -> (values: Vec<Vec<u8>>)
    ensures
        values.len() == rows,
        forall|r: int|
            0 <= r < rows ==> (#[trigger] values@[r]).len() == atributtes && forall|k: int|
                0 <= k < atributtes ==> #[trigger] values@[r]@[k] < 2,
{
    let mut values: Vec<Vec<u8>> = Vec::new();
    let mut rng = thread_rng();
    let mut r: u32 = 0;
    while r < rows
        invariant
            r <= rows,
            values.len() == r,
            forall|q: int|
                0 <= q < r ==> (#[trigger] values@[q]).len() == atributtes && forall|k: int|
                    0 <= k < atributtes ==> #[trigger] values@[q]@[k] < 2,
        decreases rows - r,
    {
        let mut row: Vec<u8> = Vec::new();
        let mut a: u32 = 0;
        while a < atributtes
            invariant
                a <= atributtes,
                row.len() == a,
                forall|k: int| 0 <= k < a ==> #[trigger] row@[k] < 2,
            decreases atributtes - a,
        {
            row.push(gen_range_u8(&mut rng, 0, 2));
            a = a + 1;
        }
        values.push(row);
        r = r + 1;
    }
    values
}

/// The entry of a chromosome for a draw and a probability: 0 when the draw
/// is below the probability, 1 otherwise.
pub open spec fn drawn_bit(draw: u32, p: u32) -> i8 {
    if lt_spec(draw, p) {
        0
    } else {
        1
    }
}

/// A chromosome from one draw per position: 0 where the draw is below the
/// probability of the position, 1 elsewhere.
pub fn row_from_draws(draws: &Vec<u32>, distribution: &Vec<u32>) -> (chromosome: Vec<i8>)
    requires
        draws.len() == distribution.len(),
    ensures
        chromosome.len() == distribution.len(),
        forall|i: int|
            0 <= i < chromosome.len() ==> #[trigger] chromosome@[i] == drawn_bit(
                draws@[i],
                distribution@[i],
            ),
{
    let mut chromosome: Vec<i8> = Vec::new();
    let mut i: usize = 0;
    while i < distribution.len()
        invariant
            i <= distribution.len(),
            draws.len() == distribution.len(),
            chromosome.len() == i,
            forall|q: int|
                0 <= q < i ==> #[trigger] chromosome@[q] == drawn_bit(draws@[q], distribution@[q]),
        decreases distribution.len() - i,
    {
        if f32_lt(draws[i], distribution[i]) {
            chromosome.push(0);
        } else {
            chromosome.push(1);
        }
        i = i + 1;
    }
    chromosome
}

/// Whatever the draws in `[0, 1)`, a position of probability at least 1
/// gets 0, and one of probability at most 0 (or NaN) gets 1.
pub proof fn lemma_drawn_bit_extremes(draw: u32, p: u32)
    requires
        draw < ONE_BITS,
    ensures
        drawn_bit(draw, p) == 0 || drawn_bit(draw, p) == 1,
        ge_spec(p, ONE_BITS) ==> drawn_bit(draw, p) == 0,
        is_nan(p) || le_spec(p, ZERO_BITS) ==> drawn_bit(draw, p) == 1,
{
}

} // verus!
