use vstd::prelude::*;
use crate::graph::{
    has_cycle, ids_unique, is_topological_order, on_cycle, topological_order, CycleDetected, HiddenNeuron,
    Wiring,
};

verus! {

/// The signals that one neuron reads when it fires: the positions of the input
/// vector that it is connected to and that exist, and, for each of its hidden
/// connections to a neuron that has already fired, that neuron's id with the
/// slot of the signal cache that holds its output.
pub struct Reads {
    pub inputs: Vec<usize>,
    pub hidden: Vec<(u32, usize)>,
}

/// A firing plan for one network and one input width. Hidden neuron
/// `order[t]` (a position in the list of hidden neurons) fires `t`-th, reads
/// `hidden[t]`, and writes its output to cache slot `t`. Output neuron `o`
/// fires after all hidden neurons and reads `outputs[o]`.
pub struct Schedule {
    pub order: Vec<usize>,
    pub hidden: Vec<Reads>,
    pub outputs: Vec<Reads>,
}

/// The input keys that lie inside an input vector of length `len`, in order;
/// a key past the end is skipped.
pub open spec fn input_reads(keys: Seq<usize>, len: int) -> Seq<usize>
    decreases keys.len(),
{
    if keys.len() == 0 {
        Seq::empty()
    } else {
        let prev = input_reads(keys.drop_last(), len);
        if (keys.last() as int) < len {
            prev.push(keys.last())
        } else {
            prev
        }
    }
}

/// The first cache slot that holds the output of neuron `id`.
pub open spec fn slot_of(fired: Seq<u32>, id: u32) -> int {
    choose|i: int| 0 <= i < fired.len() && fired[i] == id && forall|j: int| 0 <= j < i ==> fired[j] != id
}

/// The hidden connections whose neuron has fired, each with its cache slot,
/// in order.
pub open spec fn hidden_reads(deps: Seq<u32>, fired: Seq<u32>) -> Seq<(u32, usize)>
    decreases deps.len(),
{
    if deps.len() == 0 {
        Seq::empty()
    } else {
        let prev = hidden_reads(deps.drop_last(), fired);
        if fired.contains(deps.last()) {
            prev.push((deps.last(), slot_of(fired, deps.last()) as usize))
        } else {
            prev
        }
    }
}

/// `r` is what a neuron wired as `w` reads, given the neurons that have fired
/// so far and the length of the input vector.
pub open spec fn reads_match(r: Reads, w: Wiring, fired: Seq<u32>, len: int) -> bool {
    &&& r.inputs@ == input_reads(w.inputs@, len)
    &&& r.hidden@ == hidden_reads(w.hidden@, fired)
}

/// The ids of the hidden neurons in firing order, that is, what each cache
/// slot belongs to.
pub open spec fn fired_ids(h: Seq<HiddenNeuron>, order: Seq<usize>) -> Seq<u32> {
    order.map_values(|k: usize| h[k as int].id)
}

/// `s` is a firing plan for hidden neurons `h` and output neurons `outs` on an
/// input vector of length `len`.
pub open spec fn is_schedule(h: Seq<HiddenNeuron>, outs: Seq<Wiring>, len: int, s: Schedule) -> bool {
    &&& is_topological_order(h, s.order@)
    &&& s.hidden@.len() == s.order@.len()
    &&& forall|t: int| 0 <= t < s.order@.len() ==> reads_match(
        #[trigger] s.hidden@[t],
        h[s.order@[t] as int].wiring,
        fired_ids(h, s.order@).take(t),
        len,
    )
    &&& s.outputs@.len() == outs.len()
    &&& forall|o: int| 0 <= o < outs.len() ==> reads_match(#[trigger] s.outputs@[o], outs[o], fired_ids(h, s.order@), len)
}

/// Cache slot of neuron `id` among the neurons fired so far.
fn find_slot(fired: &Vec<u32>, id: u32) -> (r: Option<usize>)
    ensures
        r matches Some(i) ==> i < fired@.len() && i as int == slot_of(fired@, id),
        r is None <==> !fired@.contains(id),
{
    let mut i: usize = 0;
    while i < fired.len()
        invariant
            i <= fired@.len(),
            forall|j: int| 0 <= j < i ==> fired@[j] != id,
        decreases fired@.len() - i,
    {
        if fired[i] == id {
            proof {
                let c = slot_of(fired@, id);
                assert(0 <= c < fired@.len() && fired@[c] == id && forall|j: int| 0 <= j < c ==> fired@[j] != id);
                if c > i {
                    assert(fired@[i as int] != id);
                }
            }
            return Some(i);
        }
        i = i + 1;
    }
    None
}

/// What a neuron wired as `w` reads on an input vector of length `input_len`,
/// once the neurons `fired` have written their outputs, in this order, to the
/// cache.
pub fn plan_reads(w: &Wiring, fired: &Vec<u32>, input_len: usize) -> (r: Reads)
    ensures
        reads_match(r, *w, fired@, input_len as int),
{
    let mut inputs: Vec<usize> = Vec::new();
    let mut i: usize = 0;
    while i < w.inputs.len()
        invariant
            i <= w.inputs@.len(),
            inputs@ == input_reads(w.inputs@.take(i as int), input_len as int),
        decreases w.inputs@.len() - i,
    {
        let key = w.inputs[i];
        proof {
            assert(w.inputs@.take(i + 1).drop_last() =~= w.inputs@.take(i as int));
        }
        if key < input_len {
            inputs.push(key);
        }
        i = i + 1;
    }
    assert(w.inputs@.take(i as int) =~= w.inputs@);
    let mut hidden: Vec<(u32, usize)> = Vec::new();
    let mut j: usize = 0;
    while j < w.hidden.len()
        invariant
            j <= w.hidden@.len(),
            hidden@ == hidden_reads(w.hidden@.take(j as int), fired@),
        decreases w.hidden@.len() - j,
    {
        let id = w.hidden[j];
        proof {
            assert(w.hidden@.take(j + 1).drop_last() =~= w.hidden@.take(j as int));
        }
        match find_slot(fired, id) {
            Some(slot) => hidden.push((id, slot)),
            None => {},
        }
        j = j + 1;
    }
    assert(w.hidden@.take(j as int) =~= w.hidden@);
    Reads { inputs, hidden }
}

/// Plans one evaluation of a network with hidden neurons `hidden` and output
/// neurons `outputs` on an input vector of length `input_len`: the hidden
/// neurons in an order where each follows every hidden neuron it reads, and for
/// every neuron the signals it reads. Fails, with a neuron on the cycle, when the
/// hidden neurons' connections form a cycle.
pub fn schedule(hidden: &Vec<HiddenNeuron>, outputs: &Vec<Wiring>, input_len: usize) -> (r: Result<
    Schedule,
    CycleDetected,
>)
    requires
        ids_unique(hidden@),
    ensures
        r is Ok <==> !has_cycle(hidden@),
        r matches Ok(s) ==> is_schedule(hidden@, outputs@, input_len as int, s),
        r matches Err(e) ==> exists|a: int|
            0 <= a < hidden@.len() && hidden@[a].id == e.id && on_cycle(hidden@, a),
{
    let order = match topological_order(hidden) {
        Ok(order) => order,
        Err(e) => {
            return Err(e);
        },
    };
    let ghost all = fired_ids(hidden@, order@);
    let mut fired: Vec<u32> = Vec::new();
    let mut plans: Vec<Reads> = Vec::new();
    let mut t: usize = 0;
    while t < order.len()
        invariant
            is_topological_order(hidden@, order@),
            all == fired_ids(hidden@, order@),
            t <= order@.len(),
            fired@ == all.take(t as int),
            plans@.len() == t,
            forall|i: int| 0 <= i < t ==> reads_match(
                #[trigger] plans@[i],
                hidden@[order@[i] as int].wiring,
                all.take(i),
                input_len as int,
            ),
        decreases order@.len() - t,
    {
        let k = order[t];
        let reads = plan_reads(&hidden[k].wiring, &fired, input_len);
        plans.push(reads);
        fired.push(hidden[k].id);
        proof {
            assert(fired@ =~= all.take(t + 1));
        }
        t = t + 1;
    }
    assert(fired@ =~= all);
    let mut outs: Vec<Reads> = Vec::new();
    let mut o: usize = 0;
    while o < outputs.len()
        invariant
            o <= outputs@.len(),
            fired@ == all,
            outs@.len() == o,
            forall|i: int| 0 <= i < o ==> reads_match(#[trigger] outs@[i], outputs@[i], all, input_len as int),
        decreases outputs@.len() - o,
    {
        let reads = plan_reads(&outputs[o], &fired, input_len);
        outs.push(reads);
        o = o + 1;
    }
    Ok(Schedule { order, hidden: plans, outputs: outs })
}

} // verus!
