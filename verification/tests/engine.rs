//! Tests of the expression trees and the synthesis engine.
use std::collections::HashSet;

use airs::Brain;
use airs::Connection;
use airs::ConnectionValue;
use airs::Distance;
use airs::EngineError;
use airs::Evaluator;
use airs::Grid;
use airs::Neuron;
use airs::NeuronValue;
use airs::ValueType;

fn digit_neurons(lib: &mut Vec<Neuron>) {
    for i in 0..10i64 {
        lib.push(Neuron::new(
            format!("{}", i),
            Evaluator::Const(NeuronValue::Int64(i)),
            vec![],
            ValueType::Int64,
        ));
    }
}

fn binary_int(name: &str, op: Evaluator, lib: &mut Vec<Neuron>) -> usize {
    let idx = lib.len();
    lib.push(Neuron::new(
        name.to_string(),
        op,
        vec![ValueType::Int64, ValueType::Int64],
        ValueType::Int64,
    ));
    idx
}

fn grid_from(rows: Vec<Vec<i8>>) -> Grid {
    Grid::from_rows(&rows).unwrap()
}

#[test]
fn test_valid_connections() {
    let mut lib: Vec<Neuron> = Vec::new();
    digit_neurons(&mut lib);
    let add_i = binary_int("add", Evaluator::AddInt64, &mut lib);
    let sub_i = binary_int("sub", Evaluator::SubInt64, &mut lib);
    let mul_i = binary_int("mul", Evaluator::MulInt64, &mut lib);

    let conn0 = Connection::new(0, vec![], &lib).unwrap();
    assert_eq!(conn0.to_string(&lib), "0");
    assert_eq!(conn0.output(&lib), Some(NeuronValue::Int64(0)));
    assert_eq!(conn0.depth(0), 0);
    assert_eq!(conn0.cost(), 0);

    let conn1 = Connection::new(
        add_i,
        vec![
            ConnectionValue::Value(NeuronValue::Int64(2)),
            ConnectionValue::Value(NeuronValue::Int64(3)),
        ],
        &lib,
    )
    .unwrap();
    assert_eq!(conn1.to_string(&lib), "add(2, 3)");
    assert_eq!(conn1.output(&lib), Some(NeuronValue::Int64(5)));
    assert_eq!(conn1.depth(0), 0);
    assert_eq!(conn1.cost(), 2);

    let mut conn2 = Connection::new(
        mul_i,
        vec![
            ConnectionValue::Connection(Box::new(conn1)),
            ConnectionValue::Value(NeuronValue::Int64(4)),
        ],
        &lib,
    )
    .unwrap();
    assert_eq!(conn2.to_string(&lib), "mul(add(2, 3), 4)");
    assert_eq!(conn2.output(&lib), Some(NeuronValue::Int64(20)));
    assert_eq!(conn2.depth(0), 1);
    assert_eq!(conn2.cost(), 4);

    conn2
        .apply_inputs(
            &vec![
                ConnectionValue::Value(NeuronValue::Int64(3)),
                ConnectionValue::Value(NeuronValue::Int64(5)),
                ConnectionValue::Value(NeuronValue::Int64(4)),
            ],
            &lib,
        )
        .unwrap();
    assert_eq!(conn2.output(&lib), Some(NeuronValue::Int64(32)));

    let int_i = lib.len();
    lib.push(Neuron::new(
        "int".to_string(),
        Evaluator::Const(NeuronValue::ValueType(ValueType::Int64)),
        vec![],
        ValueType::Type,
    ));
    let int_a = Connection::new(int_i, vec![], &lib).unwrap();
    let int_b = Connection::new(int_i, vec![], &lib).unwrap();
    let conn3 = Connection::new(
        sub_i,
        vec![
            ConnectionValue::Connection(Box::new(int_a)),
            ConnectionValue::Connection(Box::new(int_b)),
        ],
        &lib,
    )
    .unwrap();
    assert_eq!(conn3.to_string(&lib), "sub(int, int)");
    assert_eq!(conn3.depth(0), 1);
    assert_eq!(conn3.cost(), 2);
}

#[test]
fn test_connection_eq() {
    let mut lib: Vec<Neuron> = Vec::new();
    let int_i = lib.len();
    lib.push(Neuron::new(
        "int".to_string(),
        Evaluator::Const(NeuronValue::ValueType(ValueType::Int64)),
        vec![],
        ValueType::Type,
    ));

    let conn1 = Connection::new(int_i, vec![], &lib).unwrap();
    let conn2 = Connection::new(int_i, vec![], &lib).unwrap();

    assert!(conn1.equals(&conn2));
    assert_eq!(conn1, conn2);

    let h1 = conn1.hash_code();
    let h2 = conn1.hash_code();
    assert_eq!(h1, h2);
    assert_eq!(conn1.hash_code(), conn2.hash_code());

    let mut connections: HashSet<Connection> = HashSet::new();
    connections.insert(conn1.deep_clone());
    connections.insert(conn1.deep_clone());
    connections.insert(conn2.deep_clone());
    assert_eq!(connections.len(), 1);
}

#[test]
fn test_str() {
    let mut lib: Vec<Neuron> = Vec::new();
    digit_neurons(&mut lib);
    let add_i = binary_int("add", Evaluator::AddInt64, &mut lib);
    let _mul_i = binary_int("mul", Evaluator::MulInt64, &mut lib);
    let to_str_i = lib.len();
    lib.push(Neuron::new(
        "int_to_str".to_string(),
        Evaluator::IntToStr,
        vec![ValueType::Int64],
        ValueType::String,
    ));

    let target = NeuronValue::String("11".to_string());

    let conn2 = Connection::new(2, vec![], &lib).unwrap();
    let conn9 = Connection::new(9, vec![], &lib).unwrap();
    let inner = Connection::new(
        add_i,
        vec![
            ConnectionValue::Connection(Box::new(conn2)),
            ConnectionValue::Connection(Box::new(conn9)),
        ],
        &lib,
    )
    .unwrap();
    let conn = Connection::new(
        to_str_i,
        vec![ConnectionValue::Connection(Box::new(inner))],
        &lib,
    )
    .unwrap();
    assert_eq!(
        conn.output(&lib).unwrap().heuristic(&target),
        Distance::Finite(0)
    );

    let brain = Brain::new(lib);
    let connections = brain.learn(&vec![target.clone()], 2, 1).unwrap();
    assert_ne!(connections.len(), 0);

    println!("{}", connections[0].to_string(brain.neurons()));
    assert_eq!(
        connections[0].output(brain.neurons()).unwrap().heuristic(&target),
        Distance::Finite(0)
    );
}

#[test]
fn early_termination_returns_candidate_below_threshold() {
    let mut lib: Vec<Neuron> = Vec::new();
    digit_neurons(&mut lib);
    let _add_i = binary_int("add", Evaluator::AddInt64, &mut lib);
    let to_str_i = lib.len();
    lib.push(Neuron::new(
        "int_to_str".to_string(),
        Evaluator::IntToStr,
        vec![ValueType::Int64],
        ValueType::String,
    ));
    let _ = to_str_i;

    let target = NeuronValue::String("11".to_string());
    let brain = Brain::new(lib);
    let eps: u64 = 1_000_000;
    let connections = brain.learn(&vec![target.clone()], 1, eps).unwrap();
    let d = connections[0].output(brain.neurons()).unwrap().heuristic(&target);
    match d {
        Distance::Finite(x) => assert!(x < eps),
        Distance::Infinite => panic!("expected a finite distance"),
    }
}

#[test]
fn rebindable_leaves_transfer_from_training_to_test() {
    let train_in = grid_from(vec![vec![1, 2], vec![3, 4]]);
    let train_out = grid_from(vec![vec![3, 4], vec![1, 2]]);
    let test_in = grid_from(vec![vec![5, 6], vec![7, 8]]);
    let test_out = grid_from(vec![vec![7, 8], vec![5, 6]]);

    let mut lib: Vec<Neuron> = Vec::new();
    lib.push(Neuron::new(
        "fliplr".to_string(),
        Evaluator::FliplrGrids,
        vec![ValueType::Grids],
        ValueType::Grids,
    ));
    lib.push(Neuron::new(
        "flipud".to_string(),
        Evaluator::FlipudGrids,
        vec![ValueType::Grids],
        ValueType::Grids,
    ));
    let input_i = lib.len();
    lib.push(Neuron::new(
        "input".to_string(),
        Evaluator::Const(NeuronValue::Grids(vec![train_in])),
        vec![],
        ValueType::Grids,
    ));

    let target = NeuronValue::Grids(vec![train_out]);
    let mut brain = Brain::new(lib);
    let connections = brain.learn(&vec![target.clone()], 2, 1).unwrap();
    assert_ne!(connections.len(), 0);
    println!("{}", connections[0].to_string(brain.neurons()));
    assert_eq!(
        connections[0].output(brain.neurons()).unwrap().heuristic(&target),
        Distance::Finite(0)
    );

    brain.rebind(input_i, Evaluator::Const(NeuronValue::Grids(vec![test_in])));
    let test_target = NeuronValue::Grids(vec![test_out]);
    assert_eq!(
        connections[0]
            .output(brain.neurons())
            .unwrap()
            .heuristic(&test_target),
        Distance::Finite(0)
    );
}

#[test]
fn unsatisfiable_parameterization_reports_no_solution() {
    let mut lib: Vec<Neuron> = Vec::new();
    lib.push(Neuron::new(
        "int_to_str".to_string(),
        Evaluator::IntToStr,
        vec![ValueType::Int64],
        ValueType::String,
    ));
    let target = NeuronValue::String("11".to_string());
    let brain = Brain::new(lib);
    let r = brain.learn(&vec![target], 2, 1);
    assert_eq!(r.unwrap_err(), EngineError::NoSolution);
}

#[test]
fn apply_inputs_rejects_wrong_arity() {
    let mut lib: Vec<Neuron> = Vec::new();
    digit_neurons(&mut lib);
    let add_i = binary_int("add", Evaluator::AddInt64, &mut lib);
    let mut conn = Connection::new(
        add_i,
        vec![
            ConnectionValue::Value(NeuronValue::Int64(2)),
            ConnectionValue::Value(NeuronValue::Int64(3)),
        ],
        &lib,
    )
    .unwrap();
    let before = conn.to_string(&lib);
    let r = conn.apply_inputs(&vec![ConnectionValue::Value(NeuronValue::Int64(7))], &lib);
    assert_eq!(r.unwrap_err(), EngineError::ArityMismatch);
    assert_eq!(conn.to_string(&lib), before);
    assert_eq!(conn.output(&lib), Some(NeuronValue::Int64(5)));
}

#[test]
fn deep_clone_is_equal_and_hashes_equal() {
    let mut lib: Vec<Neuron> = Vec::new();
    digit_neurons(&mut lib);
    let add_i = binary_int("add", Evaluator::AddInt64, &mut lib);
    let conn = Connection::new(
        add_i,
        vec![
            ConnectionValue::Value(NeuronValue::Int64(2)),
            ConnectionValue::Value(NeuronValue::Int64(3)),
        ],
        &lib,
    )
    .unwrap();
    let copy = conn.deep_clone();
    assert!(copy.equals(&conn));
    assert_eq!(copy.hash_code(), conn.hash_code());
    assert_eq!(copy.output(&lib), conn.output(&lib));
}

#[test]
fn slot_count_is_checked_on_construction() {
    let mut lib: Vec<Neuron> = Vec::new();
    digit_neurons(&mut lib);
    let add_i = binary_int("add", Evaluator::AddInt64, &mut lib);
    let r = Connection::new(add_i, vec![ConnectionValue::Value(NeuronValue::Int64(2))], &lib);
    assert_eq!(r.unwrap_err(), EngineError::SlotCountMismatch);
    let r2 = Connection::new(99, vec![], &lib);
    assert_eq!(r2.unwrap_err(), EngineError::UnknownNeuron);
}

#[test]
fn output_is_deterministic_across_calls() {
    let mut lib: Vec<Neuron> = Vec::new();
    digit_neurons(&mut lib);
    let add_i = binary_int("add", Evaluator::AddInt64, &mut lib);
    let conn = Connection::new(
        add_i,
        vec![
            ConnectionValue::Value(NeuronValue::Int64(7)),
            ConnectionValue::Value(NeuronValue::Int64(8)),
        ],
        &lib,
    )
    .unwrap();
    let a = conn.output(&lib);
    let b = conn.output(&lib);
    assert_eq!(a, b);
    assert_eq!(a, Some(NeuronValue::Int64(15)));
}

#[test]
fn output_is_undefined_while_a_placeholder_remains() {
    let mut lib: Vec<Neuron> = Vec::new();
    digit_neurons(&mut lib);
    let add_i = binary_int("add", Evaluator::AddInt64, &mut lib);
    let skeleton = Connection::new(
        add_i,
        vec![
            ConnectionValue::Value(NeuronValue::Int64(2)),
            ConnectionValue::Value(NeuronValue::ValueType(ValueType::Int64)),
        ],
        &lib,
    )
    .unwrap();
    assert_eq!(skeleton.output(&lib), None);

    // Even a constant neuron yields nothing when fed a placeholder.
    let const_i = lib.len();
    lib.push(Neuron::new(
        "seven".to_string(),
        Evaluator::Const(NeuronValue::Int64(7)),
        vec![ValueType::Int64],
        ValueType::Int64,
    ));
    let held = Connection::new(
        const_i,
        vec![ConnectionValue::Value(NeuronValue::ValueType(ValueType::Int64))],
        &lib,
    )
    .unwrap();
    assert_eq!(held.output(&lib), None);
}

#[test]
fn failure_means_every_leaf_misses() {
    // A target that one nullary leaf already matches cannot make learn fail.
    let mut lib: Vec<Neuron> = Vec::new();
    digit_neurons(&mut lib);
    let brain = Brain::new(lib);
    let target = NeuronValue::Int64(7);
    let r = brain.learn(&vec![target.clone()], 0, 0).unwrap();
    assert_eq!(
        r[0].output(brain.neurons()).unwrap().heuristic(&target),
        Distance::Finite(0)
    );
}
