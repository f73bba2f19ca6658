use copperhorn::assembly::random_wiring;
use copperhorn::graph::{topological_order, CycleDetected, HiddenNeuron, Wiring};
use copperhorn::plan::{plan_reads, schedule, Reads, Schedule};
use rand::rngs::SmallRng;
use rand::SeedableRng;

fn wiring(inputs: &[usize], hidden: &[u32]) -> Wiring {
    Wiring { inputs: inputs.to_vec(), hidden: hidden.to_vec() }
}

fn neuron(id: u32, inputs: &[usize], hidden: &[u32]) -> HiddenNeuron {
    HiddenNeuron { id, wiring: wiring(inputs, hidden) }
}

fn read_ids(r: &Reads) -> Vec<u32> {
    r.hidden.iter().map(|p| p.0).collect()
}

// Linear firing of one neuron through its reads; weights are given per key.
fn fire(bias: f64, r: &Reads, xs: &[f64], cache: &[f64], wi: &dyn Fn(usize) -> f64, wh: &dyn Fn(u32) -> f64) -> f64 {
    let mut acc = bias;
    for &i in r.inputs.iter() {
        acc += xs[i] * wi(i);
    }
    for &(id, slot) in r.hidden.iter() {
        acc += cache[slot] * wh(id);
    }
    acc
}

fn plan(hidden: &Vec<HiddenNeuron>, outputs: &Vec<Wiring>, len: usize) -> Schedule {
    match schedule(hidden, outputs, len) {
        Ok(s) => s,
        Err(e) => panic!("unexpected cycle through {}", e.id),
    }
}

#[test]
fn output_neuron_reads_its_input() {
    let hidden: Vec<HiddenNeuron> = Vec::new();
    let outputs = vec![wiring(&[0], &[])];
    let s = plan(&hidden, &outputs, 1);
    assert!(s.order.is_empty());
    assert_eq!(s.outputs.len(), 1);
    assert_eq!(s.outputs[0].inputs, vec![0]);
    assert!(s.outputs[0].hidden.is_empty());
    let y = fire(0.1, &s.outputs[0], &[2.0], &[], &|_| 0.5, &|_| 0.0);
    assert!((y - 1.1).abs() < 1e-12);
}

#[test]
fn hidden_output_reaches_output_neuron() {
    let hidden = vec![neuron(1, &[0], &[])];
    let outputs = vec![wiring(&[], &[1])];
    let s = plan(&hidden, &outputs, 1);
    assert_eq!(s.order, vec![0]);
    assert_eq!(s.hidden[0].inputs, vec![0]);
    assert_eq!(s.outputs[0].hidden, vec![(1, 0)]);
    let xs = [3.0];
    let h1 = fire(0.0, &s.hidden[0], &xs, &[], &|_| 1.0, &|_| 0.0);
    let cache = vec![h1];
    let y = fire(0.0, &s.outputs[0], &xs, &cache, &|_| 0.0, &|_| 2.0);
    assert!((y - 6.0).abs() < 1e-12);
}

#[test]
fn two_neuron_cycle_is_reported() {
    let hidden = vec![neuron(1, &[0], &[2]), neuron(2, &[0], &[1])];
    let outputs = vec![wiring(&[], &[1])];
    match schedule(&hidden, &outputs, 1) {
        Ok(_) => panic!("a cycle was not detected"),
        Err(e) => assert!(e.id == 1 || e.id == 2),
    }
}

#[test]
fn self_loop_is_reported() {
    let hidden = vec![neuron(4, &[], &[]), neuron(7, &[0], &[7])];
    match topological_order(&hidden) {
        Ok(_) => panic!("a self loop was not detected"),
        Err(e) => assert_eq!(e, CycleDetected { id: 7 }),
    }
}

#[test]
fn cycle_behind_acyclic_part_is_reported() {
    // 1 -> 2 -> 3 -> 4 -> 2, plus 5 reading 1
    let hidden = vec![
        neuron(5, &[], &[1]),
        neuron(1, &[], &[2]),
        neuron(2, &[], &[3]),
        neuron(3, &[], &[4]),
        neuron(4, &[], &[2]),
    ];
    match topological_order(&hidden) {
        Ok(_) => panic!("a cycle was not detected"),
        Err(e) => assert!(e.id == 2 || e.id == 3 || e.id == 4),
    }
}

#[test]
fn order_places_dependencies_first() {
    // diamond: 4 reads 2 and 3, both read 1
    let hidden = vec![
        neuron(4, &[], &[2, 3]),
        neuron(3, &[], &[1]),
        neuron(2, &[], &[1]),
        neuron(1, &[0], &[]),
    ];
    let order = match topological_order(&hidden) {
        Ok(o) => o,
        Err(_) => panic!("no cycle here"),
    };
    assert_eq!(order.len(), 4);
    let pos = |k: usize| order.iter().position(|&x| x == k).unwrap();
    assert!(pos(3) < pos(1));
    assert!(pos(3) < pos(2));
    assert!(pos(1) < pos(0));
    assert!(pos(2) < pos(0));
}

#[test]
fn repeated_planning_agrees() {
    let hidden = vec![neuron(1, &[0], &[]), neuron(2, &[1], &[1]), neuron(3, &[0, 1], &[2, 1])];
    let outputs = vec![wiring(&[0], &[3]), wiring(&[], &[1, 2])];
    let a = plan(&hidden, &outputs, 2);
    let b = plan(&hidden, &outputs, 2);
    assert_eq!(a.order, b.order);
    for o in 0..2 {
        assert_eq!(a.outputs[o].inputs, b.outputs[o].inputs);
        assert_eq!(a.outputs[o].hidden, b.outputs[o].hidden);
    }
}

#[test]
fn listing_order_does_not_change_reads() {
    let first = vec![neuron(1, &[0], &[]), neuron(2, &[0], &[]), neuron(3, &[], &[2, 1])];
    let second = vec![neuron(3, &[], &[2, 1]), neuron(2, &[0], &[]), neuron(1, &[0], &[])];
    let outputs = vec![wiring(&[], &[3, 1, 2])];
    let a = plan(&first, &outputs, 1);
    let b = plan(&second, &outputs, 1);
    assert_eq!(read_ids(&a.outputs[0]), vec![3, 1, 2]);
    assert_eq!(read_ids(&b.outputs[0]), vec![3, 1, 2]);
    // every slot read holds the neuron that is named
    for &(id, slot) in a.outputs[0].hidden.iter() {
        assert_eq!(first[a.order[slot]].id, id);
    }
    for &(id, slot) in b.outputs[0].hidden.iter() {
        assert_eq!(second[b.order[slot]].id, id);
    }
    // with weights 1 and inputs 1.0, both evaluate alike
    let eval = |s: &Schedule| {
        let mut cache = Vec::new();
        for r in s.hidden.iter() {
            let y = fire(0.0, r, &[1.0], &cache, &|_| 1.0, &|_| 1.0);
            cache.push(y);
        }
        fire(0.0, &s.outputs[0], &[1.0], &cache, &|_| 1.0, &|_| 1.0)
    };
    assert_eq!(eval(&a), eval(&b));
    assert!((eval(&a) - 4.0).abs() < 1e-12);
}

#[test]
fn unwired_neuron_reads_nothing() {
    let r = plan_reads(&wiring(&[], &[]), &vec![1, 2], 3);
    assert!(r.inputs.is_empty());
    assert!(r.hidden.is_empty());
    assert_eq!(fire(0.25, &r, &[1.0, 2.0, 3.0], &[], &|_| 9.0, &|_| 9.0), 0.25);
}

#[test]
fn input_past_the_end_is_skipped() {
    let r = plan_reads(&wiring(&[0, 5, 1, 2], &[]), &Vec::new(), 2);
    assert_eq!(r.inputs, vec![0, 1]);
    let r = plan_reads(&wiring(&[3], &[]), &Vec::new(), 3);
    assert!(r.inputs.is_empty());
}

#[test]
fn connection_to_unknown_neuron_is_skipped() {
    let hidden = vec![neuron(1, &[0], &[9])];
    let outputs = vec![wiring(&[], &[8, 1])];
    let s = plan(&hidden, &outputs, 1);
    assert!(s.hidden[0].hidden.is_empty());
    assert_eq!(s.outputs[0].hidden, vec![(1, 0)]);
}

#[test]
fn reads_name_the_first_slot() {
    let r = plan_reads(&wiring(&[], &[7, 4, 7]), &vec![3, 7, 4], 0);
    assert_eq!(r.hidden, vec![(7, 1), (4, 2), (7, 1)]);
}

#[test]
fn empty_network_plans_nothing() {
    let s = plan(&Vec::new(), &Vec::new(), 0);
    assert!(s.order.is_empty() && s.hidden.is_empty() && s.outputs.is_empty());
}

#[test]
fn random_wiring_picks_distinct_inputs() {
    let mut rng = SmallRng::seed_from_u64(7);
    let ws = random_wiring(&mut rng, 4, 6);
    assert_eq!(ws.len(), 6);
    for w in ws.iter() {
        assert!(!w.inputs.is_empty());
        assert!(w.hidden.is_empty());
        let mut seen = w.inputs.clone();
        seen.sort();
        seen.dedup();
        assert_eq!(seen.len(), w.inputs.len());
        assert!(w.inputs.iter().all(|&i| i < 4));
    }
}

#[test]
fn random_wiring_with_one_input() {
    let mut rng = SmallRng::seed_from_u64(1);
    let ws = random_wiring(&mut rng, 1, 3);
    assert_eq!(ws.len(), 3);
    for w in ws.iter() {
        assert_eq!(w.inputs, vec![0]);
    }
}

#[test]
fn random_wiring_varies_subset_size() {
    let mut rng = SmallRng::seed_from_u64(11);
    let ws = random_wiring(&mut rng, 4, 40);
    let sizes: Vec<usize> = ws.iter().map(|w| w.inputs.len()).collect();
    assert!(sizes.iter().any(|&n| n != sizes[0]));
    assert!(sizes.iter().all(|&n| n >= 1 && n <= 4));
}
