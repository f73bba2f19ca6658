use vstd::prelude::*;
use crate::graph::{deps, edge, is_topological_order, HiddenNeuron, Wiring};
use crate::plan::{fired_ids, hidden_reads, input_reads, is_schedule, slot_of, Schedule};

verus! {

/// The ids of the hidden neurons, in list order.
pub open spec fn ids_of(h: Seq<HiddenNeuron>) -> Seq<u32> {
    h.map_values(|n: HiddenNeuron| n.id)
}

/// The hidden connections of `deps` that name one of `ids`, in order.
pub open spec fn known_deps(deps: Seq<u32>, ids: Seq<u32>) -> Seq<u32>
    decreases deps.len(),
{
    if deps.len() == 0 {
        Seq::empty()
    } else {
        let prev = known_deps(deps.drop_last(), ids);
        if ids.contains(deps.last()) {
            prev.push(deps.last())
        } else {
            prev
        }
    }
}

/// The neuron ids of a sequence of hidden reads.
pub open spec fn read_ids(reads: Seq<(u32, usize)>) -> Seq<u32> {
    reads.map_values(|r: (u32, usize)| r.0)
}

/// An input key is read exactly when the neuron is connected to it and it lies
/// inside the input vector: a key past the end is skipped, and nothing is read
/// that the neuron is not connected to.
pub proof fn lemma_input_read_iff_in_range(keys: Seq<usize>, len: int, i: usize)
    ensures
        input_reads(keys, len).contains(i) <==> keys.contains(i) && (i as int) < len,
    decreases keys.len(),
{
    if keys.len() > 0 {
        let prev = keys.drop_last();
        lemma_input_read_iff_in_range(prev, len, i);
        if keys.contains(i) && keys.last() != i {
            let p = choose|p: int| 0 <= p < keys.len() && keys[p] == i;
            assert(prev[p] == i);
        }
        if prev.contains(i) {
            let p = choose|p: int| 0 <= p < prev.len() && prev[p] == i;
            assert(keys[p] == i);
        }
        if input_reads(keys, len).contains(i) && input_reads(prev, len) != input_reads(keys, len) {
            let r = input_reads(prev, len);
            let q = choose|q: int| 0 <= q < r.push(keys.last()).len() && r.push(keys.last())[q] == i;
            if q < r.len() {
                assert(r[q] == i);
            }
        }
        if prev.contains(i) && (i as int) < len && input_reads(prev, len) != input_reads(keys, len) {
            let r = input_reads(prev, len);
            let q = choose|q: int| 0 <= q < r.len() && r[q] == i;
            assert(r.push(keys.last())[q] == i);
        }
        if keys.last() == i && (i as int) < len {
            assert(input_reads(keys, len).last() == i);
        }
    }
}

/// A neuron with no connections reads nothing, so it fires to its bias alone.
pub proof fn lemma_unwired_reads_nothing(w: Wiring, fired: Seq<u32>, len: int)
    requires
        w.inputs@.len() == 0,
        w.hidden@.len() == 0,
    ensures
        input_reads(w.inputs@, len).len() == 0,
        hidden_reads(w.hidden@, fired).len() == 0,
{
}

/// Every hidden read names a cache slot that holds the output of the neuron it
/// names.
pub proof fn lemma_reads_point_to_cache(deps: Seq<u32>, fired: Seq<u32>, q: int)
    requires
        fired.len() <= usize::MAX,
        0 <= q < hidden_reads(deps, fired).len(),
    ensures
        (hidden_reads(deps, fired)[q].1 as int) < fired.len(),
        fired[hidden_reads(deps, fired)[q].1 as int] == hidden_reads(deps, fired)[q].0,
    decreases deps.len(),
{
    let prev = hidden_reads(deps.drop_last(), fired);
    if q < prev.len() {
        lemma_reads_point_to_cache(deps.drop_last(), fired, q);
    } else {
        let d = deps.last();
        let c = slot_of(fired, d);
        let w = choose|i: int| 0 <= i < fired.len() && fired[i] == d;
        lemma_first_slot_exists(fired, d, w);
        assert(0 <= c < fired.len() && fired[c] == d);
    }
}

/// Where `d` occurs in `fired`, it has a first slot.
proof fn lemma_first_slot_exists(fired: Seq<u32>, d: u32, w: int)
    requires
        0 <= w < fired.len(),
        fired[w] == d,
    ensures
        exists|i: int| 0 <= i < fired.len() && fired[i] == d && forall|j: int| 0 <= j < i ==> fired[j] != d,
    decreases w,
{
    if exists|j: int| 0 <= j < w && fired[j] == d {
        let j = choose|j: int| 0 <= j < w && fired[j] == d;
        lemma_first_slot_exists(fired, d, j);
    } else {
        assert(forall|j: int| 0 <= j < w ==> fired[j] != d);
    }
}

/// When every connection to a hidden neuron has fired, and only hidden neurons
/// fire, a neuron reads exactly its connections to hidden neurons.
proof fn lemma_reads_are_known_deps(deps: Seq<u32>, fired: Seq<u32>, ids: Seq<u32>)
    requires
        forall|q: int| 0 <= q < deps.len() && ids.contains(#[trigger] deps[q]) ==> fired.contains(deps[q]),
        forall|f: u32| #[trigger] fired.contains(f) ==> ids.contains(f),
    ensures
        read_ids(hidden_reads(deps, fired)) == known_deps(deps, ids),
    decreases deps.len(),
{
    if deps.len() > 0 {
        let prev = deps.drop_last();
        assert forall|q: int| 0 <= q < prev.len() && ids.contains(#[trigger] prev[q]) implies fired.contains(prev[q]) by {
            assert(deps[q] == prev[q]);
        }
        lemma_reads_are_known_deps(prev, fired, ids);
        assert(deps[deps.len() - 1] == deps.last());
        assert(read_ids(hidden_reads(deps, fired)) =~= known_deps(deps, ids));
    }
}

/// A hidden neuron that fires `t`-th in a valid order reads exactly its
/// connections to hidden neurons, whatever the order.
pub proof fn lemma_hidden_neuron_reads(h: Seq<HiddenNeuron>, order: Seq<usize>, t: int)
    requires
        h.len() <= usize::MAX,
        is_topological_order(h, order),
        0 <= t < order.len(),
    ensures
        read_ids(hidden_reads(deps(h, order[t] as int), fired_ids(h, order).take(t)))
            == known_deps(deps(h, order[t] as int), ids_of(h)),
{
    let ds = deps(h, order[t] as int);
    let fired = fired_ids(h, order).take(t);
    let ids = ids_of(h);
    assert forall|q: int| 0 <= q < ds.len() && ids.contains(#[trigger] ds[q]) implies fired.contains(ds[q]) by {
        let b = choose|b: int| 0 <= b < ids.len() && ids[b] == ds[q];
        assert(h[b].id == ds[q]);
        assert(edge(h, order[t] as int, b));
        assert(order.contains(b as usize));
        let p = choose|p: int| 0 <= p < order.len() && order[p] == b as usize;
        assert(order[p] as int == b);
        assert(edge(h, order[t] as int, order[p] as int));
        assert(p < t);
        assert(fired[p] == ds[q]);
    }
    assert forall|f: u32| #[trigger] fired.contains(f) implies ids.contains(f) by {
        let p = choose|p: int| 0 <= p < fired.len() && fired[p] == f;
        assert(ids[order[p] as int] == f);
    }
    lemma_reads_are_known_deps(ds, fired, ids);
}

/// An output neuron, firing after every hidden neuron of a valid order, reads
/// exactly its connections to hidden neurons.
pub proof fn lemma_output_neuron_reads(h: Seq<HiddenNeuron>, order: Seq<usize>, w: Wiring)
    requires
        h.len() <= usize::MAX,
        is_topological_order(h, order),
    ensures
        read_ids(hidden_reads(w.hidden@, fired_ids(h, order))) == known_deps(w.hidden@, ids_of(h)),
{
    let ds = w.hidden@;
    let fired = fired_ids(h, order);
    let ids = ids_of(h);
    assert forall|q: int| 0 <= q < ds.len() && ids.contains(#[trigger] ds[q]) implies fired.contains(ds[q]) by {
        let b = choose|b: int| 0 <= b < ids.len() && ids[b] == ds[q];
        assert(order.contains(b as usize));
        let p = choose|p: int| 0 <= p < order.len() && order[p] == b as usize;
        assert(fired[p] == ds[q]);
    }
    assert forall|f: u32| #[trigger] fired.contains(f) implies ids.contains(f) by {
        let p = choose|p: int| 0 <= p < fired.len() && fired[p] == f;
        assert(ids[order[p] as int] == f);
    }
    lemma_reads_are_known_deps(ds, fired, ids);
}

/// Two valid firing orders of the same hidden neurons make every neuron read
/// the outputs of the same hidden neurons in the same sequence: a hidden neuron
/// placed `t1`-th in one order and `t2`-th in the other, and every output
/// neuron, which fires after all hidden ones. The value that each cache slot
/// holds depends on the neuron it belongs to alone, so the outputs agree.
pub proof fn lemma_order_independent(h: Seq<HiddenNeuron>, o1: Seq<usize>, o2: Seq<usize>, t1: int, t2: int, w: Wiring)
    requires
        h.len() <= usize::MAX,
        is_topological_order(h, o1),
        is_topological_order(h, o2),
        0 <= t1 < o1.len(),
        0 <= t2 < o2.len(),
        o1[t1] == o2[t2],
    ensures
        read_ids(hidden_reads(deps(h, o1[t1] as int), fired_ids(h, o1).take(t1)))
            == read_ids(hidden_reads(deps(h, o2[t2] as int), fired_ids(h, o2).take(t2))),
        read_ids(hidden_reads(w.hidden@, fired_ids(h, o1))) == read_ids(hidden_reads(w.hidden@, fired_ids(h, o2))),
{
    lemma_hidden_neuron_reads(h, o1, t1);
    lemma_hidden_neuron_reads(h, o2, t2);
    lemma_output_neuron_reads(h, o1, w);
    lemma_output_neuron_reads(h, o2, w);
}

/// Two firing plans for the same network and input width agree on what every
/// neuron reads: the same input positions, and the outputs of the same hidden
/// neurons in the same sequence. So repeated evaluations give the same result.
pub proof fn lemma_schedules_agree(
    h: Seq<HiddenNeuron>,
    outs: Seq<Wiring>,
    len: int,
    s1: Schedule,
    s2: Schedule,
)
    requires
        h.len() <= usize::MAX,
        is_schedule(h, outs, len, s1),
        is_schedule(h, outs, len, s2),
    ensures
        forall|o: int| 0 <= o < outs.len() ==> {
            &&& (#[trigger] s1.outputs@[o]).inputs@ == s2.outputs@[o].inputs@
            &&& read_ids(s1.outputs@[o].hidden@) == read_ids(s2.outputs@[o].hidden@)
        },
        forall|t1: int, t2: int|
            0 <= t1 < s1.order@.len() && 0 <= t2 < s2.order@.len() && #[trigger] s1.order@[t1] == #[trigger] s2.order@[t2]
                ==> {
                &&& s1.hidden@[t1].inputs@ == s2.hidden@[t2].inputs@
                &&& read_ids(s1.hidden@[t1].hidden@) == read_ids(s2.hidden@[t2].hidden@)
            },
{
    assert forall|o: int| 0 <= o < outs.len() implies {
        &&& (#[trigger] s1.outputs@[o]).inputs@ == s2.outputs@[o].inputs@
        &&& read_ids(s1.outputs@[o].hidden@) == read_ids(s2.outputs@[o].hidden@)
    } by {
        lemma_output_neuron_reads(h, s1.order@, outs[o]);
        lemma_output_neuron_reads(h, s2.order@, outs[o]);
    }
    assert forall|t1: int, t2: int|
        0 <= t1 < s1.order@.len() && 0 <= t2 < s2.order@.len() && #[trigger] s1.order@[t1] == #[trigger] s2.order@[t2]
        implies {
        &&& s1.hidden@[t1].inputs@ == s2.hidden@[t2].inputs@
        &&& read_ids(s1.hidden@[t1].hidden@) == read_ids(s2.hidden@[t2].hidden@)
    } by {
        lemma_hidden_neuron_reads(h, s1.order@, t1);
        lemma_hidden_neuron_reads(h, s2.order@, t2);
    }
}

} // verus!
