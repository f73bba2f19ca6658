use vstd::prelude::*;
use rand::rngs::SmallRng;
use rand::seq::SliceRandom;
use rand::Rng;
use crate::graph::Wiring;

verus! {

#[verifier::external_type_specification]
#[verifier::external_body]
pub struct ExSmallRng(rand::rngs::SmallRng);

/// Relies on rand's `Rng::gen_range(low, high)`: a value in `low..high`, drawn
/// from `rng`. It panics when `low >= high`.
#[verifier::external_body]
fn draw_in_range(rng: &mut SmallRng, low: usize, high: usize) -> (r: usize)
    requires
        low < high,
    ensures
        low <= r < high,
{
    rng.gen_range(low, high)
}

/// Relies on rand's `SliceRandom::choose_multiple`: `min(amount, len)` elements
/// of `pool`, taken at distinct positions, in an order drawn from `rng`.
#[verifier::external_body]
fn choose_several(rng: &mut SmallRng, pool: &Vec<usize>, amount: usize) -> (r: Vec<usize>)
    ensures
        r@.len() == if amount < pool@.len() {
            amount as int
        } else {
            pool@.len() as int
        },
        forall|i: int| 0 <= i < r@.len() ==> pool@.contains(#[trigger] r@[i]),
        pool@.no_duplicates() ==> r@.no_duplicates(),
{
    pool.choose_multiple(rng, amount).cloned().collect()
}

/// `w` connects to a nonempty set of distinct positions of an input vector of
/// length `width`, and to no hidden neuron.
pub open spec fn wired_to_inputs(w: Wiring, width: int) -> bool {
    &&& w.inputs@.len() >= 1
    &&& w.inputs@.no_duplicates()
    &&& forall|i: int| 0 <= i < w.inputs@.len() ==> (#[trigger] w.inputs@[i] as int) < width
    &&& w.hidden@.len() == 0
}

/// The wiring of a new network without hidden neurons: one output neuron per
/// output slot, each connected to a nonempty subset of the `inputs` input
/// positions chosen at random from `rng` (both its size and its members).
pub fn random_wiring(rng: &mut SmallRng, inputs: usize, outputs: usize) -> (r: Vec<Wiring>)
    requires
        1 <= inputs < usize::MAX,
    ensures
        r@.len() == outputs,
        forall|o: int| 0 <= o < outputs ==> wired_to_inputs(#[trigger] r@[o], inputs as int),
{
    let mut pool: Vec<usize> = Vec::new();
    let mut i: usize = 0;
    while i < inputs
        invariant
            i <= inputs,
            pool@.len() == i,
            forall|j: int| 0 <= j < i ==> #[trigger] pool@[j] == j,
        decreases inputs - i,
    {
        pool.push(i);
        i = i + 1;
    }
    assert(pool@.no_duplicates());
    let mut r: Vec<Wiring> = Vec::new();
    let mut o: usize = 0;
    while o < outputs
        invariant
            1 <= inputs < usize::MAX,
            pool@.len() == inputs,
            pool@.no_duplicates(),
            forall|j: int| 0 <= j < inputs ==> #[trigger] pool@[j] == j,
            o <= outputs,
            r@.len() == o,
            forall|p: int| 0 <= p < o ==> wired_to_inputs(#[trigger] r@[p], inputs as int),
        decreases outputs - o,
    {
        let n = draw_in_range(rng, 1, inputs + 1);
        let keys = choose_several(rng, &pool, n);
        assert forall|k: int| 0 <= k < keys@.len() implies (#[trigger] keys@[k] as int) < inputs by {
            assert(pool@.contains(keys@[k]));
        }
        r.push(Wiring { inputs: keys, hidden: Vec::new() });
        o = o + 1;
    }
    r
}

} // verus!
