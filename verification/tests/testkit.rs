use rand::{RngCore, SeedableRng};
use henosis::checkpoint::{DbConnectorCheckpoint, NewConnectorCheckpoint};
use henosis::clock::{SimClock, SimInstant};
use henosis::diagnostics::{Quiescence, WaitEdge, WaitGraph, WaitNode};
use henosis::digest::hex_encode;
use henosis::fmt::decimal_text;
use henosis::rng::{index_from_draw, NamedRng, Seed};
use henosis::text::{compare_text, Precedence};
use henosis::textset::TextSet;
use henosis::trace::TraceRecorder;

#[test]
fn timers_fire_in_deadline_then_creation_order() {
    let mut clock = SimClock::new();
    assert_eq!(clock.now(), SimInstant::from_ticks(0));
    let late = clock.schedule_after(10);
    let early = clock.schedule_after(5);
    let also_early = clock.schedule_after(5);
    assert!(clock.has_timers());
    assert_eq!(clock.advance_to_next(), vec![early, also_early]);
    assert_eq!(clock.now().ticks(), 5);
    assert_eq!(clock.advance_to_next(), vec![late]);
    assert_eq!(clock.now().ticks(), 10);
    assert!(!clock.has_timers());
    assert!(clock.advance_to_next().is_empty());
    assert_eq!(clock.now().ticks(), 10);
    assert_eq!(late.value(), 0);
    assert_eq!(early.value(), 1);
}

#[test]
fn deadlines_saturate() {
    let mut clock = SimClock::new();
    let first = clock.schedule_after(u64::MAX);
    clock.advance_to_next();
    assert_eq!(clock.now().ticks(), u64::MAX);
    let second = clock.schedule_after(1);
    assert_eq!(clock.advance_to_next(), vec![second]);
    assert_eq!(clock.now().ticks(), u64::MAX);
    assert_ne!(first, second);
}

fn component(name: &str) -> WaitNode {
    WaitNode::Component(name.to_string())
}

#[test]
fn stalls_are_classified_by_what_they_wait_for() {
    let mut graph = WaitGraph::new();
    graph.add_edge(component("a"), component("b"));
    graph.add_edge(component("b"), component("a"));
    assert_eq!(graph.classify(true, true).classification, Quiescence::Converged);
    assert_eq!(graph.classify(false, true).classification, Quiescence::WaitingForTimer);
    let report = graph.classify(false, false);
    assert_eq!(report.classification, Quiescence::Deadlocked);
    assert_eq!(report.cycle, vec![component("a"), component("b"), component("a")]);
    assert_eq!(
        report.edges,
        vec![
            WaitEdge { from: component("a"), to: component("b") },
            WaitEdge { from: component("b"), to: component("a") },
        ]
    );

    let mut external = WaitGraph::new();
    external.add_edge(component("a"), WaitNode::ExternalInput("dns".to_string()));
    assert_eq!(external.classify(false, false).classification, Quiescence::ExternallyBlocked);

    let mut chain = WaitGraph::new();
    chain.add_edge(component("a"), component("b"));
    let report = chain.classify(false, false);
    assert_eq!(report.classification, Quiescence::Incomplete);
    assert!(report.cycle.is_empty());
}

#[test]
fn edges_are_kept_once_in_node_order() {
    let mut graph = WaitGraph::new();
    graph.add_edge(WaitNode::Timer("t".into()), component("z"));
    graph.add_edge(component("z"), WaitNode::Input("i".into()));
    graph.add_edge(component("z"), WaitNode::Input("i".into()));
    let edges = graph.classify(true, false).edges;
    assert_eq!(
        edges,
        vec![
            WaitEdge { from: component("z"), to: WaitNode::Input("i".into()) },
            WaitEdge { from: WaitNode::Timer("t".into()), to: component("z") },
        ]
    );
}

#[test]
fn seeds_derive_deterministically() {
    let mut zero = [0u8; 32];
    zero[..8].copy_from_slice(&7u64.to_le_bytes());
    assert_eq!(Seed::from_u64(7).as_bytes(), *blake3::hash(&zero).as_bytes());
    let root = Seed::from_bytes([1; 32]);
    assert_eq!(root.child("scheduler").as_bytes(), *blake3::keyed_hash(&[1; 32], b"scheduler").as_bytes());
    let a = NamedRng::new(root, "world".to_string());
    assert_eq!(a.stream_seed(), root.child("world"));
    assert_eq!(a.child("clock").stream_seed(), root.child("world/clock"));
    assert_eq!(a.root_seed(), root);
    let mut first = NamedRng::new(root, "world".to_string());
    let mut second = NamedRng::new(root, "world".to_string());
    assert_eq!(first.next_u64(), second.next_u64());
    assert_eq!(first.choose_index(0), None);
    assert!(first.choose_index(3).unwrap() < 3);
    assert_eq!(index_from_draw(10, 3), Some(1));
    assert_eq!(index_from_draw(10, 0), None);
}

#[test]
fn traces_hash_each_state() {
    let root = Seed::from_bytes([2; 32]);
    let mut recorder = TraceRecorder::new(root);
    recorder.record("deliver".to_string(), "ok".to_string(), b"state-1");
    let trace = recorder.finish(b"state-2");
    assert_eq!(trace.root_seed, root);
    assert_eq!(trace.scheduler_seed, root.child("scheduler"));
    assert_eq!(trace.events.len(), 1);
    assert_eq!(trace.events[0].step, 0);
    assert_eq!(trace.events[0].state_hash, hex_encode(blake3::hash(b"state-1").as_bytes()));
    assert_eq!(trace.final_state_hash, blake3::hash(b"state-2").to_hex().to_string());
}

#[test]
fn checkpoints_fit_bigint() {
    let row = DbConnectorCheckpoint::try_from_new(NewConnectorCheckpoint {
        graph_id: 1,
        connector: "k8s".into(),
        accepted_sequence: 5,
    })
    .unwrap();
    assert_eq!(row.accepted_sequence, 5);
    assert!(DbConnectorCheckpoint::try_from_new(NewConnectorCheckpoint {
        graph_id: 1,
        connector: "k8s".into(),
        accepted_sequence: u64::MAX,
    })
    .is_err());
    assert_eq!(row.clone().into_checkpoint().unwrap().accepted_sequence, 5);
    let negative = DbConnectorCheckpoint { accepted_sequence: -1, ..row };
    assert!(negative.into_checkpoint().is_err());
}

#[test]
fn text_order_and_sets() {
    assert_eq!(compare_text("a", "b"), Precedence::Before);
    assert_eq!(compare_text("ab", "a"), Precedence::After);
    assert_eq!(compare_text("same", "same"), Precedence::Same);
    let mut set = TextSet::new();
    set.insert("b".to_string());
    set.insert("a".to_string());
    set.insert("b".to_string());
    assert_eq!(set.items(), &vec!["a".to_string(), "b".to_string()]);
    assert!(set.contains("a"));
    set.remove("a");
    assert!(!set.contains("a"));
    assert!(set.same(&set.copied()));
    assert_eq!(decimal_text(0), "0");
    assert_eq!(decimal_text(1203), "1203");
    assert_eq!(hex_encode(&[0x0f, 0xa0]), "0fa0");
}

#[test]
fn named_streams_draw_the_chacha12_sequence_of_their_seed() {
    let root = Seed::from_u64(9);
    let mut named = NamedRng::new(root, "world".to_string());
    let mut direct = rand_chacha::ChaCha12Rng::from_seed(named.stream_seed().as_bytes());
    for _ in 0..40 {
        assert_eq!(named.next_u64(), direct.next_u64());
    }
    let mut again = NamedRng::new(root, "world".to_string());
    let mut direct = rand_chacha::ChaCha12Rng::from_seed(again.stream_seed().as_bytes());
    let expected = (direct.next_u64() % 7) as usize;
    assert_eq!(again.choose_index(7), Some(expected));
}

#[test]
fn instants_and_timer_ids_are_ordered_by_their_numbers() {
    assert!(SimInstant::from_ticks(1) < SimInstant::from_ticks(2));
    assert!(SimInstant::from_ticks(7) >= SimInstant::from_ticks(7));
    assert_eq!(SimInstant::from_ticks(3).max(SimInstant::from_ticks(9)), SimInstant::from_ticks(9));
    let mut clock = SimClock::new();
    let ids: Vec<u64> = (0..5).map(|_| clock.schedule_after(1).value()).collect();
    assert_eq!(ids, vec![0, 1, 2, 3, 4]);
    let first = clock.schedule_after(0);
    let second = clock.schedule_after(0);
    assert!(first < second);
}

#[test]
fn recorded_steps_are_numbered_by_position() {
    let mut recorder = TraceRecorder::new(Seed::from_u64(7));
    for i in 0..4 {
        recorder.record(format!("step-{i}"), "ok".to_string(), b"state");
    }
    let trace = recorder.finish(b"state");
    let steps: Vec<u64> = trace.events.iter().map(|e| e.step).collect();
    assert_eq!(steps, vec![0, 1, 2, 3]);
    assert_eq!(trace.events[2].action, "step-2");
}

#[test]
fn the_reported_cycle_is_the_first_the_search_meets() {
    let mut graph = WaitGraph::new();
    graph.add_edge(component("a"), component("c"));
    graph.add_edge(component("c"), component("b"));
    graph.add_edge(component("b"), component("c"));
    let report = graph.classify(false, false);
    assert_eq!(report.classification, Quiescence::Deadlocked);
    assert_eq!(report.cycle, vec![component("c"), component("b"), component("c")]);
}
