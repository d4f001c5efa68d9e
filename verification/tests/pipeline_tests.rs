use procflow::datapoint::Sample;
use procflow::graph::{ConfigError, FnShape, GraphBuilder, Role};
use procflow::queue::BoundedQueue;
use procflow::supervisor::{PipelineRun, StageLogic};

fn sample(pid: u64, exe: &str, cpu: u64) -> Sample {
    Sample { pid, exe: exe.to_string(), cpu_time: cpu }
}

fn two_stage_plan(capacity: usize) -> procflow::graph::Plan {
    let mut g = GraphBuilder::new();
    g.add_stage("p".to_string(), Role::Extract, FnShape::Source).unwrap();
    g.add_stage("l".to_string(), Role::Load, FnShape::Sink).unwrap();
    g.add_chain(vec!["p".to_string(), "l".to_string()]).unwrap();
    g.resolve(capacity).unwrap()
}

#[test]
fn queue_backpressure_until_drained() {
    let mut q: BoundedQueue<u64> = BoundedQueue::new(2);
    assert!(q.try_send(1));
    assert!(q.try_send(2));
    // the queue holds its bound: a further send is refused until the
    // consumer drains at least one item
    assert!(!q.try_send(3));
    assert!(!q.try_send(3));
    assert_eq!(q.try_recv(), Some(1));
    assert!(q.try_send(3));
    assert_eq!(q.try_recv(), Some(2));
    assert_eq!(q.try_recv(), Some(3));
    assert_eq!(q.try_recv(), None);
}

#[test]
fn queue_is_fifo() {
    let mut q: BoundedQueue<u64> = BoundedQueue::new(8);
    for v in [4, 7, 9] {
        assert!(q.try_send(v));
    }
    assert_eq!(q.try_recv(), Some(4));
    assert_eq!(q.try_recv(), Some(7));
    assert_eq!(q.try_recv(), Some(9));
}

#[test]
fn start_refuses_shape_mismatch_before_any_stage_runs() {
    let plan = two_stage_plan(4);
    // the loader's slot is bound to a producing function
    let logics = vec![
        StageLogic::EmitScript(vec![]),
        StageLogic::EmitScript(vec![]),
    ];
    let err = PipelineRun::start(plan, logics).err().expect("mismatch refused");
    assert_eq!(err, ConfigError::ShapeMismatch("l".to_string()));
}

#[test]
fn cancellation_stops_every_stage_in_one_observation() {
    let plan = two_stage_plan(4);
    let logics = vec![
        StageLogic::EmitScript(vec![vec![sample(1, "a", 1)]]),
        StageLogic::Collect,
    ];
    let mut run = PipelineRun::start(plan, logics).unwrap();
    assert!(!run.is_cancelled());
    run.cancel();
    run.cancel(); // idempotent
    assert!(run.is_cancelled());
    assert!(!run.has_exited(0));
    assert!(!run.has_exited(1));
    run.step(0);
    run.step(1);
    assert!(run.has_exited(0));
    assert!(run.has_exited(1));
    // exited stages stay exited and further steps change nothing
    run.step(0);
    assert!(run.has_exited(0));
}

#[test]
fn emit_then_collect_in_order() {
    // extract emits [{id:1}] and [{id:2}] once each; the loader appends
    // every received record; after both sends and a cancel the loader saw
    // 1 then 2
    let plan = two_stage_plan(4);
    let logics = vec![
        StageLogic::EmitScript(vec![vec![sample(1, "x", 0)], vec![sample(2, "x", 0)]]),
        StageLogic::Collect,
    ];
    let mut run = PipelineRun::start(plan, logics).unwrap();
    run.step(0);
    run.step(0);
    run.step(1);
    run.step(1);
    run.cancel();
    run.step(0);
    run.step(1);
    assert!(run.has_exited(0));
    assert!(run.has_exited(1));
    let ids: Vec<u64> = run.collected[1].iter().map(|s| s.pid).collect();
    assert_eq!(ids, vec![1, 2]);
}

#[test]
fn collector_idles_on_empty_queue() {
    // a collector stepped on an empty queue does nothing and keeps running
    let plan = two_stage_plan(4);
    let logics = vec![StageLogic::EmitScript(vec![]), StageLogic::Collect];
    let mut run = PipelineRun::start(plan, logics).unwrap();
    run.step(1);
    assert!(!run.has_exited(1));
    assert!(run.collected[1].is_empty());
}

#[test]
fn transform_doubles_numeric_field_end_to_end() {
    // p -> t -> l where t doubles every record's numeric field; feeding
    // {v:5} through p leaves l observing {v:10}
    let mut g = GraphBuilder::new();
    g.add_stage("p".to_string(), Role::Extract, FnShape::Source).unwrap();
    g.add_stage("t".to_string(), Role::Transform, FnShape::Through).unwrap();
    g.add_stage("l".to_string(), Role::Load, FnShape::Sink).unwrap();
    g.add_chain(vec!["p".to_string(), "t".to_string(), "l".to_string()]).unwrap();
    let plan = g.resolve(4).unwrap();
    let logics = vec![
        StageLogic::EmitScript(vec![vec![sample(7, "proc", 5)]]),
        StageLogic::Scale(2),
        StageLogic::Collect,
    ];
    let mut run = PipelineRun::start(plan, logics).unwrap();
    run.step(0);
    run.step(1);
    run.step(2);
    assert_eq!(run.collected[2].len(), 1);
    assert_eq!(run.collected[2][0].cpu_time, 10);
    assert_eq!(run.collected[2][0].pid, 7);
}

#[test]
fn rename_transform_prefixes_exe() {
    let mut g = GraphBuilder::new();
    g.add_stage("p".to_string(), Role::Extract, FnShape::Source).unwrap();
    g.add_stage("t".to_string(), Role::Transform, FnShape::Through).unwrap();
    g.add_stage("l".to_string(), Role::Load, FnShape::Sink).unwrap();
    g.add_chain(vec!["p".to_string(), "t".to_string(), "l".to_string()]).unwrap();
    let plan = g.resolve(4).unwrap();
    let logics = vec![
        StageLogic::EmitScript(vec![vec![sample(3, "bash", 1)]]),
        StageLogic::Rename("modify-".to_string()),
        StageLogic::Collect,
    ];
    let mut run = PipelineRun::start(plan, logics).unwrap();
    run.step(0);
    run.step(1);
    run.step(2);
    assert_eq!(run.collected[2][0].exe, "modify-bash");
}

#[test]
fn fan_in_interleaves_but_keeps_per_producer_order() {
    // two extract stages feed one loader through one shared queue; the
    // loader sees an interleaving, but each producer's batches arrive in
    // that producer's own order
    let mut g = GraphBuilder::new();
    g.add_stage("p1".to_string(), Role::Extract, FnShape::Source).unwrap();
    g.add_stage("p2".to_string(), Role::Extract, FnShape::Source).unwrap();
    g.add_stage("l".to_string(), Role::Load, FnShape::Sink).unwrap();
    g.add_chain(vec!["p1".to_string(), "l".to_string()]).unwrap();
    g.add_chain(vec!["p2".to_string(), "l".to_string()]).unwrap();
    let plan = g.resolve(8).unwrap();
    let logics = vec![
        StageLogic::EmitScript(vec![vec![sample(11, "a", 0)], vec![sample(12, "a", 0)]]),
        StageLogic::EmitScript(vec![vec![sample(21, "b", 0)], vec![sample(22, "b", 0)]]),
        StageLogic::Collect,
    ];
    let mut run = PipelineRun::start(plan, logics).unwrap();
    // interleave the producers, then drain
    run.step(0);
    run.step(1);
    run.step(1);
    run.step(0);
    for _ in 0..4 {
        run.step(2);
    }
    let ids: Vec<u64> = run.collected[2].iter().map(|s| s.pid).collect();
    assert_eq!(ids, vec![11, 21, 22, 12]);
    let from_p1: Vec<u64> = ids.iter().copied().filter(|i| *i / 10 == 1).collect();
    let from_p2: Vec<u64> = ids.iter().copied().filter(|i| *i / 10 == 2).collect();
    assert_eq!(from_p1, vec![11, 12]);
    assert_eq!(from_p2, vec![21, 22]);
}

#[test]
fn producer_blocks_on_full_queue_until_drain() {
    // queue of capacity 1: the second emit observation does not send until
    // the loader drains
    let plan = two_stage_plan(1);
    let logics = vec![
        StageLogic::EmitScript(vec![vec![sample(1, "a", 0)], vec![sample(2, "a", 0)]]),
        StageLogic::Collect,
    ];
    let mut run = PipelineRun::start(plan, logics).unwrap();
    run.step(0);
    assert_eq!(run.emitted[0], 1);
    run.step(0); // queue full: suspended, no progress
    assert_eq!(run.emitted[0], 1);
    run.step(1); // loader drains one batch
    run.step(0); // now the send goes through
    assert_eq!(run.emitted[0], 2);
    run.step(1);
    let ids: Vec<u64> = run.collected[1].iter().map(|s| s.pid).collect();
    assert_eq!(ids, vec![1, 2]);
}
