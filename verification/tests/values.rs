//! Tests of the domain values, grids, distances and primitives.
use airs::arc::input_option_output_pairs;
use airs::arc::input_output_pairs;
use airs::primitives;
use airs::utility;
use airs::ColorMap;
use airs::Distance;
use airs::Grid;
use airs::NeuronValue;
use airs::ValueType;

fn grid_from(rows: Vec<Vec<i8>>) -> Grid {
    Grid::from_rows(&rows).unwrap()
}

#[test]
fn levenshtein_matches_known_distances() {
    assert_eq!(utility::levenshtein("kitten", "sitting"), 3);
    assert_eq!(utility::levenshtein("", "abc"), 3);
    assert_eq!(utility::levenshtein("abc", ""), 3);
    assert_eq!(utility::levenshtein("same", "same"), 0);
    assert_eq!(utility::levenshtein("9", "11"), 2);
}

#[test]
fn decimal_rendering_matches_expected_text() {
    assert_eq!(utility::int64_to_string(0), "0");
    assert_eq!(utility::int64_to_string(42), "42");
    assert_eq!(utility::int64_to_string(-123), "-123");
    assert_eq!(
        utility::int64_to_string(i64::MIN),
        "-9223372036854775808"
    );
}

#[test]
fn heuristic_on_numbers_and_booleans() {
    assert_eq!(
        NeuronValue::Int64(5).heuristic(&NeuronValue::Int64(9)),
        Distance::Finite(4)
    );
    assert_eq!(
        NeuronValue::Int64(9).heuristic(&NeuronValue::Int64(5)),
        Distance::Finite(4)
    );
    assert_eq!(
        NeuronValue::Bool(true).heuristic(&NeuronValue::Bool(false)),
        Distance::Finite(1)
    );
    assert_eq!(
        NeuronValue::Bool(true).heuristic(&NeuronValue::Bool(true)),
        Distance::Finite(0)
    );
    assert_eq!(
        NeuronValue::Int64(1).heuristic(&NeuronValue::Bool(true)),
        Distance::Infinite
    );
    assert_eq!(
        NeuronValue::String("11".to_string()).heuristic(&NeuronValue::String("11".to_string())),
        Distance::Finite(0)
    );
}

#[test]
fn heuristic_on_grids_uses_cells_and_shape_penalty() {
    let a = grid_from(vec![vec![1, 2], vec![3, 4]]);
    let b = grid_from(vec![vec![1, 2], vec![3, 5]]);
    assert_eq!(
        NeuronValue::Grid(a).heuristic(&NeuronValue::Grid(b)),
        Distance::Finite(1)
    );
    let c = grid_from(vec![vec![1, 2], vec![3, 4]]);
    let d = grid_from(vec![vec![1, 2, 3, 4]]);
    assert_eq!(
        NeuronValue::Grid(c).heuristic(&NeuronValue::Grid(d)),
        Distance::Finite(100)
    );
    let e = grid_from(vec![vec![1, 2], vec![3, 4]]);
    let f = grid_from(vec![vec![1, 2], vec![3, 7]]);
    assert_eq!(
        NeuronValue::Grids(vec![e]).heuristic(&NeuronValue::Grids(vec![f])),
        Distance::Finite(9)
    );
}

#[test]
fn color_map_inserts_and_replaces() {
    let mut m = ColorMap::new();
    assert_eq!(m.get(3), None);
    m.insert(3, 7);
    m.insert(1, 2);
    assert_eq!(m.get(3), Some(7));
    assert_eq!(m.get(1), Some(2));
    m.insert(3, 9);
    assert_eq!(m.get(3), Some(9));
    assert_eq!(m.get(5), None);
}

#[test]
fn grid_flips_mirror_cells() {
    let g = grid_from(vec![vec![1, 2], vec![3, 4]]);
    let lr = utility::fliplr(&g);
    assert_eq!(lr.get(0, 0), 2);
    assert_eq!(lr.get(0, 1), 1);
    assert_eq!(lr.get(1, 0), 4);
    let ud = utility::flipud(&g);
    assert_eq!(ud.get(0, 0), 3);
    assert_eq!(ud.get(1, 1), 2);
}

#[test]
fn grid_list_flips_mirror_every_grid() {
    let g = grid_from(vec![vec![1, 2], vec![3, 4]]);
    let lr = primitives::fliplr(&vec![g]);
    assert_eq!(lr.len(), 1);
    assert_eq!(lr[0].get(0, 0), 2);
    let h = grid_from(vec![vec![1, 2], vec![3, 4]]);
    let ud = primitives::flipud(&vec![h]);
    assert_eq!(ud[0].get(0, 0), 3);
}

#[test]
fn mapping_rewrites_cells_and_keeps_unmapped() {
    let g = grid_from(vec![vec![1, 2], vec![3, 4]]);
    let mut m = ColorMap::new();
    m.insert(1, 9);
    m.insert(4, 0);
    let r = utility::map(&g, &m);
    assert_eq!(r.get(0, 0), 9);
    assert_eq!(r.get(0, 1), 2);
    assert_eq!(r.get(1, 1), 0);
}

#[test]
fn fill_region_paints_only_valid_cells() {
    let g = grid_from(vec![vec![0, 0], vec![0, 0]]);
    let r = utility::fill_region(&g, &vec![(0, 1), (5, 5), (-1, 0)], 7);
    assert_eq!(r.get(0, 0), 0);
    assert_eq!(r.get(0, 1), 7);
    assert_eq!(r.get(1, 0), 0);
}

#[test]
fn neighbors_respect_bounds_and_diagonals() {
    let n4 = utility::neighbors((0, 0), (2, 2), false);
    assert_eq!(n4, vec![(0, 1), (1, 0)]);
    let n8 = utility::neighbors((0, 0), (2, 2), true);
    assert_eq!(n8, vec![(0, 1), (1, 0), (1, 1)]);
    assert_eq!(utility::valid_index(&grid_from(vec![vec![1]]), (0, 0)), true);
    assert_eq!(utility::valid_index(&grid_from(vec![vec![1]]), (1, 0)), false);
}

#[test]
fn same_element_filters_by_component() {
    let pairs = vec![vec![((0, 1), (0, 5)), ((1, 2), (3, 2)), ((4, 4), (5, 6))]];
    let by_row = primitives::same_element(&pairs, true);
    assert_eq!(by_row[0], vec![((0, 1), (0, 5))]);
    let by_col = primitives::same_element(&pairs, false);
    assert_eq!(by_col[0], vec![((1, 2), (3, 2))]);
}

#[test]
fn region_pairs_join_distinct_regions() {
    let regions = vec![vec![vec![(0, 0), (0, 1)], vec![(2, 2)]]];
    let pairs = primitives::region_pairs(&regions);
    assert_eq!(pairs.len(), 1);
    assert_eq!(pairs[0], vec![((0, 0), (2, 2)), ((0, 1), (2, 2))]);
}

#[test]
fn grid_construction_rejects_ragged_rows() {
    assert!(Grid::from_rows(&vec![vec![1, 2], vec![3]]).is_none());
    assert!(Grid::from_rows(&vec![]).is_some());
    assert!(Grid::new(2, 2, vec![1, 2, 3]).is_none());
    assert!(Grid::new(2, 2, vec![1, 2, 3, 4]).is_some());
}

#[test]
fn value_text_renders_scalars_and_tags() {
    assert_eq!(NeuronValue::Int64(42).to_text(), "42");
    assert_eq!(NeuronValue::Bool(true).to_text(), "true");
    assert_eq!(
        NeuronValue::ValueType(ValueType::Int64).to_text(),
        "Int64"
    );
    assert_eq!(NeuronValue::String("hi".to_string()).to_text(), "hi");
    let g = grid_from(vec![vec![1, 2], vec![3, 4]]);
    assert_eq!(NeuronValue::Grid(g).to_text(), "grid(2x2)");
}

#[test]
fn values_compare_and_hash_consistently() {
    let a = NeuronValue::Grids(vec![grid_from(vec![vec![1, 2]])]);
    let b = NeuronValue::Grids(vec![grid_from(vec![vec![1, 2]])]);
    assert!(a.equals(&b));
    assert_eq!(a.hash_code(), b.hash_code());
    let c = NeuronValue::Grids(vec![grid_from(vec![vec![2, 1]])]);
    assert!(!a.equals(&c));
    assert_eq!(a.value_type(), ValueType::Grids);
}

#[test]
fn task_pairs_split_and_default_withheld_outputs() {
    let i1 = grid_from(vec![vec![1]]);
    let o1 = grid_from(vec![vec![2]]);
    let pairs = input_output_pairs(&vec![(i1, o1)]);
    assert_eq!(pairs.inputs.len(), 1);
    assert_eq!(pairs.outputs[0].get(0, 0), 2);

    let i2 = grid_from(vec![vec![3]]);
    let opt = input_option_output_pairs(&vec![(i2, None)]);
    assert_eq!(opt.outputs[0].nrows(), 1);
    assert_eq!(opt.outputs[0].ncols(), 0);
}

#[test]
fn index_products_enumerate_all_tuples() {
    let tuples = airs::brain::product_indices(&vec![2, 3]);
    assert_eq!(tuples.len(), 6);
    assert_eq!(tuples[0], vec![0, 0]);
    assert_eq!(tuples[1], vec![0, 1]);
    assert_eq!(tuples[5], vec![1, 2]);
    let none = airs::brain::product_indices(&vec![2, 0]);
    assert_eq!(none.len(), 0);
    let unit = airs::brain::product_indices(&vec![]);
    assert_eq!(unit.len(), 1);
    assert_eq!(unit[0], Vec::<usize>::new());
}
