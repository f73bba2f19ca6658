use vstd::prelude::*;
use vstd::set_lib::*;

verus! {

/// Which connections of a neuron exist: the input positions and the hidden
/// neuron ids that it reads. The weights themselves live with the caller.
pub struct Wiring {
    pub inputs: Vec<usize>,
    pub hidden: Vec<u32>,
}

/// A hidden neuron: its id, unique within one network, and its wiring.
pub struct HiddenNeuron {
    pub id: u32,
    pub wiring: Wiring,
}

/// The hidden neurons' dependency graph holds a directed cycle through the
/// neuron with this id.
#[derive(Debug, Clone, Copy, PartialEq, Eq, Structural)]
pub struct CycleDetected {
    pub id: u32,
}

/// No two hidden neurons share an id.
pub open spec fn ids_unique(h: Seq<HiddenNeuron>) -> bool {
    forall|a: int, b: int| 0 <= a < h.len() && 0 <= b < h.len() && a != b ==> h[a].id != h[b].id
}

/// Neuron `a` reads the output of neuron `b` (positions in `h`).
pub open spec fn edge(h: Seq<HiddenNeuron>, a: int, b: int) -> bool {
    &&& 0 <= a < h.len()
    &&& 0 <= b < h.len()
    &&& h[a].wiring.hidden@.contains(h[b].id)
}

/// Each neuron of `path` reads the next one.
pub open spec fn is_path(h: Seq<HiddenNeuron>, path: Seq<int>) -> bool {
    &&& path.len() >= 1
    &&& forall|k: int| 0 <= k < path.len() ==> 0 <= #[trigger] path[k] < h.len()
    &&& forall|k: int| 0 <= k < path.len() - 1 ==> edge(h, #[trigger] path[k], path[k + 1])
}

/// Neuron `a` depends, through one or more connections, on itself.
pub open spec fn on_cycle(h: Seq<HiddenNeuron>, a: int) -> bool {
    exists|path: Seq<int>|
        #![trigger is_path(h, path), path[0]]
        is_path(h, path) && path.len() >= 2 && path[0] == a && path.last() == a
}

/// Some hidden neuron depends on itself.
pub open spec fn has_cycle(h: Seq<HiddenNeuron>) -> bool {
    exists|a: int| on_cycle(h, a)
}

/// `order` lists every position of `h` exactly once, each neuron after every
/// neuron it reads.
pub open spec fn is_topological_order(h: Seq<HiddenNeuron>, order: Seq<usize>) -> bool {
    &&& order.no_duplicates()
    &&& forall|p: int| 0 <= p < order.len() ==> (#[trigger] order[p] as int) < h.len()
    &&& forall|x: usize| (x as int) < h.len() ==> #[trigger] order.contains(x)
    &&& forall|p: int, q: int|
        0 <= p < order.len() && 0 <= q < order.len() && #[trigger] edge(h, order[p] as int, order[q] as int)
            ==> q < p
}

/// A network whose hidden neurons have a topological order has no cycle.
pub proof fn lemma_order_excludes_cycle(h: Seq<HiddenNeuron>, order: Seq<usize>)
    requires
        h.len() <= usize::MAX,
        is_topological_order(h, order),
    ensures
        !has_cycle(h),
{
    if has_cycle(h) {
        let a = choose|a: int| on_cycle(h, a);
        let path = choose|path: Seq<int>|
            #![trigger is_path(h, path), path[0]]
            is_path(h, path) && path.len() >= 2 && path[0] == a && path.last() == a;
        // position in `order` of each neuron on the path
        let pos = |x: int| choose|p: int| 0 <= p < order.len() && order[p] as int == x;
        assert forall|k: int| 0 <= k < path.len() implies 0 <= #[trigger] pos(path[k]) < order.len()
            && order[pos(path[k])] as int == path[k] by {
            let x = path[k];
            assert(order.contains(x as usize));
            let i = choose|i: int| 0 <= i < order.len() && order[i] == x as usize;
            assert(0 <= i < order.len() && order[i] as int == x);
        }
        // positions strictly decrease along the path
        assert forall|k: int| 0 <= k < path.len() implies #[trigger] pos(path[k]) <= pos(path[0]) - k by {
            lemma_positions_decrease(h, order, path, pos, k);
        }
        assert(pos(path[path.len() - 1]) <= pos(path[0]) - (path.len() - 1));
    }
}

proof fn lemma_positions_decrease(
    h: Seq<HiddenNeuron>,
    order: Seq<usize>,
    path: Seq<int>,
    pos: spec_fn(int) -> int,
    k: int,
)
    requires
        is_topological_order(h, order),
        is_path(h, path),
        0 <= k < path.len(),
        forall|j: int| 0 <= j < path.len() ==> 0 <= #[trigger] pos(path[j]) < order.len()
            && order[pos(path[j])] as int == path[j],
    ensures
        pos(path[k]) <= pos(path[0]) - k,
    decreases k,
{
    if k > 0 {
        lemma_positions_decrease(h, order, path, pos, k - 1);
        let p = pos(path[k - 1]);
        let q = pos(path[k]);
        assert(edge(h, path[k - 1], path[k]));
        assert(edge(h, order[p] as int, order[q] as int));
    }
}

/// The hidden neuron ids that neuron `v` reads, in the order of its wiring.
pub open spec fn deps(h: Seq<HiddenNeuron>, v: int) -> Seq<u32> {
    h[v].wiring.hidden@
}

/// State of the depth-first traversal: `marks` holds 0 for a neuron not yet
/// reached, 1 for one on the current path `stack`, 2 for one already placed in
/// `order`. Each stack entry holds a neuron and how many of its dependencies
/// have been looked at.
spec fn traversal_state(
    h: Seq<HiddenNeuron>,
    marks: Seq<u8>,
    order: Seq<usize>,
    stack: Seq<(usize, usize)>,
) -> bool {
    &&& h.len() <= usize::MAX
    &&& marks.len() == h.len()
    &&& forall|x: int| 0 <= x < h.len() ==> #[trigger] marks[x] <= 2
    &&& order.no_duplicates()
    &&& forall|p: int| 0 <= p < order.len() ==> (#[trigger] order[p] as int) < h.len()
    &&& forall|x: usize| (x as int) < h.len() ==> (marks[x as int] == 2 <==> #[trigger] order.contains(x))
    &&& forall|s: int| 0 <= s < stack.len() ==> {
        &&& (#[trigger] stack[s]).0 < h.len()
        &&& stack[s].1 <= deps(h, stack[s].0 as int).len()
        &&& marks[stack[s].0 as int] == 1
    }
    &&& forall|x: int| 0 <= x < h.len() && #[trigger] marks[x] == 1
        ==> exists|s: int| 0 <= s < stack.len() && stack[s].0 as int == x
    &&& forall|s1: int, s2: int| 0 <= s1 < s2 < stack.len() ==> (#[trigger] stack[s1]).0 != (#[trigger] stack[s2]).0
    &&& forall|s: int| 0 <= s < stack.len() - 1 ==> edge(h, (#[trigger] stack[s]).0 as int, stack[s + 1].0 as int)
    &&& forall|p: int, b: int| 0 <= p < order.len() && #[trigger] edge(h, order[p] as int, b)
        ==> order.subrange(0, p).contains(b as usize)
    &&& forall|s: int, j: int, b: int|
        #![trigger deps(h, stack[s].0 as int)[j], h[b]]
        0 <= s < stack.len() && 0 <= j < stack[s].1 && 0 <= b < h.len()
            && h[b].id == deps(h, stack[s].0 as int)[j]
            ==> marks[b] == 2 || (j == stack[s].1 - 1 && s + 1 < stack.len() && stack[s + 1].0 as int == b)
}

/// Position in `h` of the hidden neuron with id `id`, if there is one.
fn position_of(h: &Vec<HiddenNeuron>, id: u32) -> (r: Option<usize>)
    ensures
        r matches Some(k) ==> k < h@.len() && h@[k as int].id == id,
        r is None ==> forall|k: int| 0 <= k < h@.len() ==> h@[k].id != id,
{
    let mut k: usize = 0;
    while k < h.len()
        invariant
            k <= h@.len(),
            forall|j: int| 0 <= j < k ==> h@[j].id != id,
        decreases h@.len() - k,
    {
        if h[k].id == id {
            return Some(k);
        }
        k = k + 1;
    }
    None
}

/// Orders the hidden neurons so that each comes after every hidden neuron it
/// reads, or reports a neuron that lies on a cycle. The order is found by a
/// depth-first traversal with an explicit stack and three marks per neuron
/// (unreached, on the current path, placed); a connection back to a neuron on
/// the current path closes a cycle. The result holds positions in `h`.
pub fn topological_order(h: &Vec<HiddenNeuron>) -> (r: Result<Vec<usize>, CycleDetected>)
    requires
        ids_unique(h@),
    ensures
        r is Ok <==> !has_cycle(h@),
        r matches Ok(order) ==> is_topological_order(h@, order@),
        r matches Err(e) ==> exists|a: int| 0 <= a < h@.len() && h@[a].id == e.id && on_cycle(h@, a),
{
    let n = h.len();
    let mut marks: Vec<u8> = Vec::new();
    let mut i: usize = 0;
    while i < n
        invariant
            i <= n,
            marks@.len() == i,
            forall|x: int| 0 <= x < i ==> marks@[x] == 0,
        decreases n - i,
    {
        marks.push(0);
        i = i + 1;
    }
    let mut order: Vec<usize> = Vec::new();
    let ghost mut white: Set<int> = set_int_range(0, n as int);
    let ghost mut pending: Set<int> = set_int_range(0, n as int);
    proof {
        lemma_int_range(0, n as int);
    }
    let mut root: usize = 0;
    while root < n
        invariant
            n == h@.len(),
            root <= n,
            ids_unique(h@),
            traversal_state(h@, marks@, order@, Seq::<(usize, usize)>::empty()),
            forall|x: int| 0 <= x < root ==> marks@[x] == 2,
            white.finite(),
            pending.finite(),
            forall|x: int| white.contains(x) <==> 0 <= x < n && marks@[x] == 0,
            forall|x: int| pending.contains(x) <==> 0 <= x < n && marks@[x] != 2,
        decreases n - root,
    {
        if marks[root] == 0 {
            let ghost old_marks = marks@;
            marks.set(root, 1);
            proof {
                white = white.remove(root as int);
            }
            let mut stack: Vec<(usize, usize)> = Vec::new();
            stack.push((root, 0));
            proof {
                lemma_start(h@, old_marks, marks@, order@, root as int);
            }
            while stack.len() > 0
                invariant
                    n == h@.len(),
                    root < n,
                    ids_unique(h@),
                    traversal_state(h@, marks@, order@, stack@),
                    forall|x: int| 0 <= x < root ==> marks@[x] == 2,
                    marks@[root as int] != 0,
                    white.finite(),
                    pending.finite(),
                    forall|x: int| white.contains(x) <==> 0 <= x < n && marks@[x] == 0,
                    forall|x: int| pending.contains(x) <==> 0 <= x < n && marks@[x] != 2,
                decreases
                    white.len(),
                    pending.len(),
                    if stack@.len() > 0 {
                        deps(h@, stack@.last().0 as int).len() - stack@.last().1
                    } else {
                        0
                    },
            {
                let t = stack.len() - 1;
                let (v, k) = stack[t];
                let hv = &h[v].wiring.hidden;
                if k < hv.len() {
                    let d = hv[k];
                    let ghost before = stack@;
                    stack.set(t, (v, k + 1));
                    match position_of(h, d) {
                        None => {
                            proof {
                                lemma_advance(h@, marks@, order@, before);
                            }
                        },
                        Some(u) => {
                            if marks[u] == 1 {
                                proof {
                                    lemma_back_edge_closes_cycle(h@, marks@, order@, before, u as int);
                                }
                                return Err(CycleDetected { id: d });
                            } else if marks[u] == 0 {
                                let ghost old_marks = marks@;
                                marks.set(u, 1);
                                proof {
                                    white = white.remove(u as int);
                                }
                                stack.push((u, 0));
                                proof {
                                    lemma_descend(h@, old_marks, marks@, order@, before, u as int);
                                }
                            } else {
                                proof {
                                    lemma_advance(h@, marks@, order@, before);
                                }
                            }
                        },
                    }
                } else {
                    let ghost old_marks = marks@;
                    let ghost old_order = order@;
                    let ghost before = stack@;
                    stack.pop();
                    marks.set(v, 2);
                    proof {
                        pending = pending.remove(v as int);
                    }
                    order.push(v);
                    proof {
                        lemma_finish(h@, old_marks, marks@, old_order, order@, before);
                    }
                }
            }
        }
        root = root + 1;
    }
    proof {
        lemma_order_excludes_cycle(h@, order@);
    }
    Ok(order)
}

/// A connection from the top of the traversal path to a neuron on that path
/// closes a cycle through that neuron.
proof fn lemma_back_edge_closes_cycle(
    h: Seq<HiddenNeuron>,
    marks: Seq<u8>,
    order: Seq<usize>,
    stack: Seq<(usize, usize)>,
    u: int,
)
    requires
        traversal_state(h, marks, order, stack),
        stack.len() > 0,
        0 <= u < h.len(),
        marks[u] == 1,
        edge(h, stack.last().0 as int, u),
    ensures
        on_cycle(h, u),
{
    let t = stack.len() - 1;
    let s0 = choose|s: int| 0 <= s < stack.len() && stack[s].0 as int == u;
    let path = Seq::new((t - s0 + 2) as nat, |i: int| if i <= t - s0 { stack[s0 + i].0 as int } else { u });
    assert forall|i: int| 0 <= i < path.len() - 1 implies edge(h, #[trigger] path[i], path[i + 1]) by {
        if i < t - s0 {
            assert(edge(h, stack[s0 + i].0 as int, stack[s0 + i + 1].0 as int));
        }
    }
    assert forall|i: int| 0 <= i < path.len() implies 0 <= #[trigger] path[i] < h.len() by {
        if i <= t - s0 {
            assert(stack[s0 + i].0 < h.len());
        }
    }
    assert(is_path(h, path));
    assert(path[0] == u);
    assert(path.last() == u);
}

proof fn lemma_start(h: Seq<HiddenNeuron>, marks: Seq<u8>, marks2: Seq<u8>, order: Seq<usize>, root: int)
    requires
        traversal_state(h, marks, order, Seq::<(usize, usize)>::empty()),
        0 <= root < h.len(),
        marks[root] == 0,
        marks2 == marks.update(root, 1),
    ensures
        traversal_state(h, marks2, order, seq![(root as usize, 0usize)]),
{
    let st = seq![(root as usize, 0usize)];
    assert forall|x: int| 0 <= x < h.len() && #[trigger] marks2[x] == 1 implies exists|s: int|
        0 <= s < st.len() && st[s].0 as int == x by {
        if x != root {
            assert(marks[x] == 1);
        }
        assert(st[0].0 as int == root);
    }
}

/// Looking at the next dependency of the neuron on top of the path, when that
/// dependency is no hidden neuron or one already placed.
proof fn lemma_advance(h: Seq<HiddenNeuron>, marks: Seq<u8>, order: Seq<usize>, stack: Seq<(usize, usize)>)
    requires
        ids_unique(h),
        traversal_state(h, marks, order, stack),
        stack.len() > 0,
        stack.last().1 < deps(h, stack.last().0 as int).len(),
        forall|b: int| 0 <= b < h.len() && h[b].id == deps(h, stack.last().0 as int)[stack.last().1 as int]
            ==> marks[b] == 2,
    ensures
        traversal_state(h, marks, order, stack.update(stack.len() - 1, (stack.last().0, (stack.last().1 + 1) as usize))),
{
    let t = stack.len() - 1;
    let st2 = stack.update(t, (stack.last().0, (stack.last().1 + 1) as usize));
    assert forall|s: int| 0 <= s < st2.len() implies (#[trigger] st2[s]).0 == stack[s].0 by {}
    assert forall|x: int| 0 <= x < h.len() && #[trigger] marks[x] == 1 implies exists|s: int|
        0 <= s < st2.len() && st2[s].0 as int == x by {
        let s = choose|s: int| 0 <= s < stack.len() && stack[s].0 as int == x;
        assert(st2[s].0 == stack[s].0);
    }
    assert forall|s: int, j: int, b: int|
        #![trigger deps(h, st2[s].0 as int)[j], h[b]]
        0 <= s < st2.len() && 0 <= j < st2[s].1 && 0 <= b < h.len() && h[b].id == deps(h, st2[s].0 as int)[j]
        implies marks[b] == 2 || (j == st2[s].1 - 1 && s + 1 < st2.len() && st2[s + 1].0 as int == b) by {
        assert(st2[s].0 == stack[s].0);
        if s < t {
            assert(st2[s + 1].0 == stack[s + 1].0);
            assert(h[b].id == deps(h, stack[s].0 as int)[j]);
        } else if j < stack[t].1 {
            assert(h[b].id == deps(h, stack[t].0 as int)[j]);
        }
    }
}

/// Stepping from the top of the path to an unreached dependency.
proof fn lemma_descend(
    h: Seq<HiddenNeuron>,
    marks: Seq<u8>,
    marks2: Seq<u8>,
    order: Seq<usize>,
    stack: Seq<(usize, usize)>,
    u: int,
)
    requires
        ids_unique(h),
        traversal_state(h, marks, order, stack),
        stack.len() > 0,
        stack.last().1 < deps(h, stack.last().0 as int).len(),
        0 <= u < h.len(),
        h[u].id == deps(h, stack.last().0 as int)[stack.last().1 as int],
        marks[u] == 0,
        marks2 == marks.update(u, 1),
    ensures
        traversal_state(
            h,
            marks2,
            order,
            stack.update(stack.len() - 1, (stack.last().0, (stack.last().1 + 1) as usize)).push((u as usize, 0usize)),
        ),
{
    let t = stack.len() - 1;
    let v = stack[t].0;
    let k = stack[t].1;
    let st3 = stack.update(t, (v, (k + 1) as usize)).push((u as usize, 0usize));
    assert forall|s: int| 0 <= s < stack.len() implies (#[trigger] st3[s]).0 == stack[s].0 && st3[s].0 != u by {
        assert(marks[stack[s].0 as int] == 1);
    }
    assert(st3[t + 1].0 == u);
    assert forall|x: int| 0 <= x < h.len() && #[trigger] marks2[x] == 1 implies exists|s: int|
        0 <= s < st3.len() && st3[s].0 as int == x by {
        if x == u {
            assert(st3[t + 1].0 as int == x);
        } else {
            assert(marks[x] == 1);
            let s = choose|s: int| 0 <= s < stack.len() && stack[s].0 as int == x;
            assert(st3[s].0 == stack[s].0);
        }
    }
    assert(deps(h, v as int)[k as int] == h[u].id);
    assert(edge(h, v as int, u));
    assert forall|s: int| 0 <= s < st3.len() - 1 implies edge(h, (#[trigger] st3[s]).0 as int, st3[s + 1].0 as int) by {
        if s < t {
            assert(st3[s + 1].0 == stack[s + 1].0);
            assert(edge(h, stack[s].0 as int, stack[s + 1].0 as int));
        }
    }
    assert forall|s: int, j: int, b: int|
        #![trigger deps(h, st3[s].0 as int)[j], h[b]]
        0 <= s < st3.len() && 0 <= j < st3[s].1 && 0 <= b < h.len() && h[b].id == deps(h, st3[s].0 as int)[j]
        implies marks2[b] == 2 || (j == st3[s].1 - 1 && s + 1 < st3.len() && st3[s + 1].0 as int == b) by {
        if s < t {
            assert(st3[s + 1].0 == stack[s + 1].0);
            assert(h[b].id == deps(h, stack[s].0 as int)[j]);
            if marks[b] == 2 {
                assert(b != u);
            }
        } else if s == t {
            if j < k {
                assert(h[b].id == deps(h, stack[t].0 as int)[j]);
                assert(b != u);
            } else {
                assert(b == u);
            }
        }
    }
    assert forall|x: usize| (x as int) < h.len() implies (marks2[x as int] == 2 <==> #[trigger] order.contains(x)) by {
        if x as int == u {
            assert(!order.contains(x));
        }
    }
}

/// Placing the neuron on top of the path once all its dependencies are placed.
proof fn lemma_finish(
    h: Seq<HiddenNeuron>,
    marks: Seq<u8>,
    marks2: Seq<u8>,
    order: Seq<usize>,
    order2: Seq<usize>,
    stack: Seq<(usize, usize)>,
)
    requires
        traversal_state(h, marks, order, stack),
        stack.len() > 0,
        stack.last().1 >= deps(h, stack.last().0 as int).len(),
        marks2 == marks.update(stack.last().0 as int, 2),
        order2 == order.push(stack.last().0),
    ensures
        traversal_state(h, marks2, order2, stack.drop_last()),
{
    let t = stack.len() - 1;
    let v = stack[t].0;
    let st = stack.drop_last();
    assert(marks[v as int] == 1);
    assert(!order.contains(v));
    assert forall|s: int| 0 <= s < st.len() implies (#[trigger] st[s]).0 == stack[s].0 && st[s].0 != v by {
        assert(stack[s].0 != stack[t].0);
    }
    assert forall|x: usize| (x as int) < h.len() implies (marks2[x as int] == 2 <==> #[trigger] order2.contains(x)) by {
        if order2.contains(x) && x != v {
            let p = choose|p: int| 0 <= p < order2.len() && order2[p] == x;
            assert(order[p] == x);
        }
        if x != v && order.contains(x) {
            let p = choose|p: int| 0 <= p < order.len() && order[p] == x;
            assert(order2[p] == x);
        }
        if x == v {
            assert(order2[order.len() as int] == x);
        }
    }
    assert forall|x: int| 0 <= x < h.len() && #[trigger] marks2[x] == 1 implies exists|s: int|
        0 <= s < st.len() && st[s].0 as int == x by {
        let s = choose|s: int| 0 <= s < stack.len() && stack[s].0 as int == x;
        assert(s != t);
        assert(st[s].0 == stack[s].0);
    }
    assert forall|p: int, b: int| 0 <= p < order2.len() && #[trigger] edge(h, order2[p] as int, b)
        implies order2.subrange(0, p).contains(b as usize) by {
        if p < order.len() {
            assert(order2.subrange(0, p) =~= order.subrange(0, p));
            assert(order2[p] == order[p]);
        } else {
            assert(order2.subrange(0, p) =~= order);
            let j = choose|j: int| 0 <= j < deps(h, v as int).len() && deps(h, v as int)[j] == h[b].id;
            assert(h[b].id == deps(h, stack[t].0 as int)[j]);
            assert(marks[b] == 2);
            assert(order.contains(b as usize));
        }
    }
    assert forall|s: int, j: int, b: int|
        #![trigger deps(h, st[s].0 as int)[j], h[b]]
        0 <= s < st.len() && 0 <= j < st[s].1 && 0 <= b < h.len() && h[b].id == deps(h, st[s].0 as int)[j]
        implies marks2[b] == 2 || (j == st[s].1 - 1 && s + 1 < st.len() && st[s + 1].0 as int == b) by {
        assert(h[b].id == deps(h, stack[s].0 as int)[j]);
        assert(st[s] == stack[s]);
        if s + 1 < st.len() {
            assert(st[s + 1] == stack[s + 1]);
        }
    }
}

} // verus!
