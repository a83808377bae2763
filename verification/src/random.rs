//! Random input for the sorting routines, drawn from the generator of the
//! `rand` crate that belongs to the calling thread.

use vstd::prelude::*;
use core::ops::Range;
use rand::rngs::ThreadRng;
use rand::Rng;

verus! {

/// The thread-local generator of `rand`. Its state is not modelled.
#[verifier::external_type_specification]
#[verifier::external_body]
pub struct ExThreadRng(ThreadRng);

/// `rand::thread_rng`: a handle to the generator of the calling thread.
/// Nothing is claimed of the handle. The generator is seeded from the
/// operating system when a thread first asks for it, and `rand` panics there
/// if the system cannot supply the seed.
pub assume_specification[ rand::thread_rng ]() -> (rng: ThreadRng);

/// `Rng::gen_range` on a half-open range of `i32`: some value of the range,
/// its lower bound included and its upper bound excluded. Which value is not
/// said. `rand` panics on an empty range, so the range is not empty.
#[verifier::external_body]
fn gen_range(rng: &mut ThreadRng, low: i32, high: i32) -> (x: i32)
    requires
        low < high,
    ensures
        low <= x < high,
{
    rng.gen_range(low..high)
}

/// `Rng::gen` for a `char`: some `char`. Which one is not said.
#[verifier::external_body]
fn gen_char(rng: &mut ThreadRng) -> char {
    rng.gen()
}

/// `n` random numbers, each drawn from `range`.
///
/// Drawing from an empty range is not possible, so `range` holds a number
/// unless no number is asked for.
pub fn random_array(n: usize, range: Range<i32>) -> (v: Vec<i32>)
    requires
        n == 0 || range.start < range.end,
    ensures
        v@.len() == n,
        forall|k: int| 0 <= k < n ==> range.start <= #[trigger] v@[k] < range.end,
{
    let mut rng = rand::thread_rng();
    let mut v: Vec<i32> = Vec::new();
    let mut k: usize = 0;
    while k < n
        invariant
            k <= n,
            n == 0 || range.start < range.end,
            v@.len() == k,
            forall|j: int| 0 <= j < k ==> range.start <= #[trigger] v@[j] < range.end,
        decreases n - k,
    {
        let x = gen_range(&mut rng, range.start, range.end);
        v.push(x);
        k += 1;
    }
    v
}

/// `n` arrays of `LEN` random characters each.
pub fn random_char_arrays<const LEN: usize>(n: usize) -> (v: Vec<[char; LEN]>)
    ensures
        v@.len() == n,
{
    let mut rng = rand::thread_rng();
    let mut v: Vec<[char; LEN]> = Vec::new();
    let mut k: usize = 0;
    while k < n
        invariant
            k <= n,
            v@.len() == k,
        decreases n - k,
    {
        let mut arr = ['\0'; LEN];
        let mut j: usize = 0;
        while j < LEN
            invariant
                j <= LEN,
            decreases LEN - j,
        {
            arr[j] = gen_char(&mut rng);
            j += 1;
        }
        v.push(arr);
        k += 1;
    }
    v
}

} // verus!
