//! Tests of the region primitives, segment drawing and mapping inference.
use airs::brain::update_region_neurons;
use airs::primitives;
use airs::utility;
use airs::Evaluator;
use airs::Grid;
use airs::Neuron;
use airs::NeuronValue;
use airs::ValueType;

fn grid_from(rows: Vec<Vec<i8>>) -> Grid {
    Grid::from_rows(&rows).unwrap()
}

#[test]
fn region_collects_the_connected_component() {
    let g = grid_from(vec![vec![1, 1, 0], vec![0, 1, 0], vec![0, 0, 1]]);
    let mut r = utility::region(&g, (0, 0), false);
    assert_eq!(r[0], (0, 0));
    r.sort();
    assert_eq!(r, vec![(0, 0), (0, 1), (1, 1)]);

    let with_diag = utility::region(&g, (0, 0), true);
    assert_eq!(with_diag.len(), 4);

    assert_eq!(utility::region(&g, (9, 9), false).len(), 0);
}

#[test]
fn region_set_covers_the_grid() {
    let g = grid_from(vec![vec![1, 2], vec![1, 2]]);
    let rs = utility::region_set(&g, false);
    assert_eq!(rs.len(), 2);
    let total: usize = rs.iter().map(|r| r.len()).sum();
    assert_eq!(total, 4);
}

#[test]
fn paired_regions_merge_adjacent_regions() {
    // Two regions of value 1 that touch through a value-0 gap do not pair;
    // two regions whose union is connected after painting do.
    let g = grid_from(vec![vec![1, 0, 1]]);
    let a = vec![(0, 0)];
    let b = vec![(0, 2)];
    let gap = vec![(0, 1)];
    let pairs = utility::paired_regions(&g, &vec![a.clone(), gap.clone()]);
    assert_eq!(pairs.len(), 1);
    let far = utility::paired_regions(&g, &vec![a, b]);
    assert_eq!(far.len(), 0);
}

#[test]
fn dot_segment_draws_a_line() {
    let g = grid_from(vec![vec![0; 4], vec![0; 4], vec![0; 4], vec![0; 4]]);
    let r = utility::dot_segment(&g, (0, 0), (3, 3), 7, 1);
    for t in 0..4 {
        assert_eq!(r.get(t, t), 7);
    }
    assert_eq!(r.get(0, 1), 0);
    let untouched = utility::dot_segment(&g, (1, 1), (1, 1), 7, 1);
    assert_eq!(untouched.get(1, 1), 0);
    let no_step = utility::dot_segment(&g, (0, 0), (3, 3), 7, 0);
    assert_eq!(no_step.get(0, 0), 0);
}

#[test]
fn segments_draw_and_restore_endpoints() {
    let g = grid_from(vec![vec![5, 0, 0, 6]]);
    let pairs = vec![vec![((0isize, 0isize), (0isize, 3isize))]];
    let drawn = primitives::segments(&vec![g.clone()], &pairs, 9, true, true);
    assert_eq!(drawn.len(), 1);
    assert_eq!(drawn[0].get(0, 0), 5);
    assert_eq!(drawn[0].get(0, 1), 9);
    assert_eq!(drawn[0].get(0, 2), 9);
    assert_eq!(drawn[0].get(0, 3), 6);
    let overwritten = primitives::segments(&vec![g], &pairs, 9, false, false);
    assert_eq!(overwritten[0].get(0, 0), 9);
    assert_eq!(overwritten[0].get(0, 3), 9);
}

#[test]
fn infer_color_mapping_binds_cells_until_a_conflict() {
    let i1 = grid_from(vec![vec![1, 2]]);
    let o1 = grid_from(vec![vec![3, 4]]);
    let m = primitives::infer_color_mapping(&vec![(i1, o1)]);
    assert_eq!(m.get(1), Some(3));
    assert_eq!(m.get(2), Some(4));
    assert_eq!(m.get(5), None);

    let i2 = grid_from(vec![vec![1, 1]]);
    let o2 = grid_from(vec![vec![3, 4]]);
    let stopped = primitives::infer_color_mapping(&vec![(i2, o2)]);
    assert_eq!(stopped.get(1), Some(3));
}

#[test]
fn segments_evaluator_draws_through_the_engine() {
    let mut lib: Vec<Neuron> = Vec::new();
    lib.push(Neuron::new(
        "segments".to_string(),
        Evaluator::Segments,
        vec![
            ValueType::Grids,
            ValueType::LocationPairs,
            ValueType::Int8,
            ValueType::Bool,
            ValueType::Bool,
        ],
        ValueType::Grids,
    ));
    let g = grid_from(vec![vec![0, 0, 0]]);
    let conn = airs::Connection::new(
        0,
        vec![
            airs::ConnectionValue::Value(NeuronValue::Grids(vec![g])),
            airs::ConnectionValue::Value(NeuronValue::LocationPairs(vec![vec![(
                (0, 0),
                (0, 2),
            )]])),
            airs::ConnectionValue::Value(NeuronValue::Int8(4)),
            airs::ConnectionValue::Value(NeuronValue::Bool(false)),
            airs::ConnectionValue::Value(NeuronValue::Bool(false)),
        ],
        &lib,
    )
    .unwrap();
    match conn.output(&lib) {
        Some(NeuronValue::Grids(gs)) => {
            assert_eq!(gs[0].get(0, 0), 4);
            assert_eq!(gs[0].get(0, 1), 4);
            assert_eq!(gs[0].get(0, 2), 4);
        }
        other => panic!("unexpected output: {:?}", other),
    }
}

#[test]
fn region_neurons_follow_the_grids() {
    let mut region_neurons: Vec<(i8, Neuron)> = Vec::new();
    let g = grid_from(vec![vec![1, 0], vec![0, 0]]);
    update_region_neurons(&mut region_neurons, &vec![g]);
    assert!(region_neurons.iter().any(|(k, _)| *k == 1));
    assert!(region_neurons.iter().any(|(k, _)| *k == 0));
    assert!(!region_neurons.iter().any(|(k, _)| *k == 5));
    let n1 = &region_neurons.iter().find(|(k, _)| *k == 1).unwrap().1;
    assert_eq!(n1.name(), "region1");
    assert_eq!(n1.output_type(), ValueType::RegionsList);

    let g2 = grid_from(vec![vec![0, 0], vec![0, 0]]);
    update_region_neurons(&mut region_neurons, &vec![g2]);
    assert!(!region_neurons.iter().any(|(k, _)| *k == 1));
    assert!(region_neurons.iter().any(|(k, _)| *k == 0));
}

#[test]
fn region_set_regions_are_sorted_ascending() {
    let g = grid_from(vec![vec![1, 1], vec![1, 0]]);
    let rs = utility::region_set(&g, false);
    for r in &rs {
        for w in r.windows(2) {
            assert!(w[0] <= w[1]);
        }
    }
    let total: usize = rs.iter().map(|r| r.len()).sum();
    assert_eq!(total, 4);
}
