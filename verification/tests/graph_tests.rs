use procflow::graph::{ConfigError, FnShape, GraphBuilder, Role};

fn extract(g: &mut GraphBuilder, name: &str) {
    g.add_stage(name.to_string(), Role::Extract, FnShape::Source)
        .expect("extract stage registers");
}

fn transform(g: &mut GraphBuilder, name: &str) {
    g.add_stage(name.to_string(), Role::Transform, FnShape::Through)
        .expect("transform stage registers");
}

fn load(g: &mut GraphBuilder, name: &str) {
    g.add_stage(name.to_string(), Role::Load, FnShape::Sink)
        .expect("load stage registers");
}

fn chain(g: &mut GraphBuilder, names: &[&str]) {
    g.add_chain(names.iter().map(|n| n.to_string()).collect())
        .expect("chain registers");
}

#[test]
fn chain_expands_to_pairwise_edges() {
    let mut g = GraphBuilder::new();
    extract(&mut g, "a");
    transform(&mut g, "b");
    load(&mut g, "c");
    chain(&mut g, &["a", "b", "c"]);
    let plan = g.resolve(10).expect("valid chain resolves");
    assert_eq!(plan.stages.len(), 3);
    // edge set is exactly {a -> b, b -> c}
    assert_eq!(plan.stages[0].output, Some(1));
    assert_eq!(plan.stages[1].output, Some(2));
    assert_eq!(plan.stages[2].output, None);
    // every consumer owns its input queue
    assert_eq!(plan.stages[0].input, None);
    assert_eq!(plan.stages[1].input, Some(1));
    assert_eq!(plan.stages[2].input, Some(2));
    assert_eq!(plan.capacity, 10);
    assert_eq!(plan.stages[0].name, "a");
    assert_eq!(plan.stages[1].name, "b");
    assert_eq!(plan.stages[2].name, "c");
}

#[test]
fn chain_equals_explicit_pair_list() {
    // a -> b -> c declared as one chain resolves exactly like the two
    // explicit pairwise connections
    let mut g1 = GraphBuilder::new();
    extract(&mut g1, "a");
    transform(&mut g1, "b");
    load(&mut g1, "c");
    chain(&mut g1, &["a", "b", "c"]);
    let p1 = g1.resolve(10).expect("chain resolves");

    let mut g2 = GraphBuilder::new();
    extract(&mut g2, "a");
    transform(&mut g2, "b");
    load(&mut g2, "c");
    chain(&mut g2, &["a", "b"]);
    chain(&mut g2, &["b", "c"]);
    let p2 = g2.resolve(10).expect("pair list resolves");

    for (s1, s2) in p1.stages.iter().zip(p2.stages.iter()) {
        assert_eq!(s1.name, s2.name);
        assert_eq!(s1.input, s2.input);
        assert_eq!(s1.output, s2.output);
    }
}

#[test]
fn undeclared_stage_fails_construction() {
    let mut g = GraphBuilder::new();
    extract(&mut g, "a");
    load(&mut g, "b");
    let err = g
        .add_chain(vec!["a".to_string(), "ghost".to_string()])
        .expect_err("undeclared name refused");
    assert_eq!(err, ConfigError::UndeclaredStage("ghost".to_string()));
}

#[test]
fn duplicate_stage_name_refused() {
    let mut g = GraphBuilder::new();
    extract(&mut g, "a");
    let err = g
        .add_stage("a".to_string(), Role::Load, FnShape::Sink)
        .expect_err("second registration under one name refused");
    assert_eq!(err, ConfigError::DuplicateStage("a".to_string()));
}

#[test]
fn shape_mismatch_fails_registration() {
    let mut g = GraphBuilder::new();
    let err = g
        .add_stage("a".to_string(), Role::Extract, FnShape::Sink)
        .expect_err("extract bound to a sink-shaped function refused");
    assert_eq!(err, ConfigError::ShapeMismatch("a".to_string()));
}

#[test]
fn chain_of_one_name_refused() {
    let mut g = GraphBuilder::new();
    extract(&mut g, "a");
    let err = g
        .add_chain(vec!["a".to_string()])
        .expect_err("one-name chain refused");
    assert_eq!(err, ConfigError::ChainTooShort);
}

#[test]
fn edge_into_extract_refused() {
    let mut g = GraphBuilder::new();
    extract(&mut g, "a");
    extract(&mut g, "b");
    load(&mut g, "c");
    chain(&mut g, &["a", "b"]);
    chain(&mut g, &["b", "c"]);
    let err = g.resolve(10).expect_err("edge into an extract stage refused");
    assert_eq!(err, ConfigError::ExtractConsumes("b".to_string()));
}

#[test]
fn edge_out_of_load_refused() {
    let mut g = GraphBuilder::new();
    extract(&mut g, "a");
    load(&mut g, "b");
    load(&mut g, "c");
    chain(&mut g, &["a", "b", "c"]);
    let err = g.resolve(10).expect_err("terminal stage with outbound edge refused");
    assert_eq!(err, ConfigError::TerminalProduces("b".to_string()));
}

#[test]
fn two_distinct_targets_refused() {
    let mut g = GraphBuilder::new();
    extract(&mut g, "a");
    load(&mut g, "b");
    load(&mut g, "c");
    chain(&mut g, &["a", "b"]);
    chain(&mut g, &["a", "c"]);
    let err = g.resolve(10).expect_err("broadcast refused");
    assert_eq!(err, ConfigError::MultipleOutputs("a".to_string()));
}

#[test]
fn unconnected_stage_refused() {
    let mut g = GraphBuilder::new();
    extract(&mut g, "a");
    load(&mut g, "b");
    extract(&mut g, "lone");
    chain(&mut g, &["a", "b"]);
    let err = g.resolve(10).expect_err("unconnected extract refused");
    assert_eq!(err, ConfigError::UnconnectedStage("lone".to_string()));
}

#[test]
fn cycle_refused() {
    let mut g = GraphBuilder::new();
    transform(&mut g, "t1");
    transform(&mut g, "t2");
    chain(&mut g, &["t1", "t2"]);
    chain(&mut g, &["t2", "t1"]);
    let err = g.resolve(10).expect_err("cyclic wiring refused");
    assert_eq!(err, ConfigError::CycleDetected);
}

#[test]
fn self_feeding_stage_refused() {
    let mut g = GraphBuilder::new();
    transform(&mut g, "t");
    chain(&mut g, &["t", "t"]);
    let err = g.resolve(10).expect_err("a stage feeding itself refused");
    assert_eq!(err, ConfigError::CycleDetected);
}

#[test]
fn fan_in_shares_one_queue() {
    let mut g = GraphBuilder::new();
    extract(&mut g, "p1");
    extract(&mut g, "p2");
    load(&mut g, "l");
    chain(&mut g, &["p1", "l"]);
    chain(&mut g, &["p2", "l"]);
    let plan = g.resolve(10).expect("fan-in resolves");
    // both producers hold the write end of the loader's single queue
    assert_eq!(plan.stages[0].output, Some(2));
    assert_eq!(plan.stages[1].output, Some(2));
    assert_eq!(plan.stages[2].input, Some(2));
}

#[test]
fn duplicate_same_edge_is_one_edge() {
    let mut g = GraphBuilder::new();
    extract(&mut g, "a");
    load(&mut g, "b");
    chain(&mut g, &["a", "b"]);
    chain(&mut g, &["a", "b"]);
    let plan = g.resolve(10).expect("repeated edge is harmless");
    assert_eq!(plan.stages[0].output, Some(1));
}
