use my_alife::algorithm::cellular_automata::{cellular_automata, rule_output, CellArray};

fn ring(cells: &[u32]) -> (CellArray, CellArray) {
    (CellArray::from_vec(cells.to_vec()), CellArray::from_vec(vec![0; cells.len()]))
}

fn run(rule: u8, cells: &[u32], ticks: usize) -> Vec<Vec<u32>> {
    let mut state = ring(cells);
    let mut rows = vec![state.0.to_vec()];
    for _ in 0..ticks {
        cellular_automata(&mut state, rule, cells.len());
        rows.push(state.0.to_vec());
    }
    rows
}

#[test]
fn rule_30_from_center_cell() {
    let rows = run(30, &[0, 0, 0, 1, 0, 0, 0], 4);
    assert_eq!(rows[1], vec![0, 0, 1, 1, 1, 0, 0]);
    assert_eq!(rows[2], vec![0, 1, 1, 0, 0, 1, 0]);
    assert_eq!(rows[3], vec![1, 1, 0, 1, 1, 1, 1]);
    // the pattern reaches both ends of the ring and wraps around
    assert_eq!(rows[4], vec![0, 0, 0, 1, 0, 0, 0]);
}

#[test]
fn rule_110_grows_to_the_left() {
    let rows = run(110, &[0, 0, 0, 0, 0, 0, 0, 0, 1], 3);
    assert_eq!(rows[1], vec![0, 0, 0, 0, 0, 0, 0, 1, 1]);
    assert_eq!(rows[2], vec![0, 0, 0, 0, 0, 0, 1, 1, 1]);
    assert_eq!(rows[3], vec![0, 0, 0, 0, 0, 1, 1, 0, 1]);
}

#[test]
fn rule_1_alternates() {
    // rule 1: only the neighbourhood 000 gives a live cell
    let rows = run(1, &[0, 1, 1, 1, 0, 1, 1, 1, 0, 0, 0, 0, 0, 0, 0, 0], 2);
    assert_eq!(rows[1], vec![0, 0, 0, 0, 0, 0, 0, 0, 0, 1, 1, 1, 1, 1, 1, 1]);
    assert_eq!(rows[2], vec![0, 1, 1, 1, 1, 1, 1, 1, 0, 0, 0, 0, 0, 0, 0, 0]);
}

#[test]
fn ca_tick_exchanges_the_buffers() {
    let mut state = ring(&[0, 0, 1, 0, 0]);
    cellular_automata(&mut state, 30, 5);
    assert_eq!(state.0.to_vec(), vec![0, 1, 1, 1, 0]);
    assert_eq!(state.1.to_vec(), vec![0, 0, 1, 0, 0]);
}

#[test]
fn scratch_buffer_contents_do_not_matter() {
    let mut a = (CellArray::from_vec(vec![1, 0, 0, 1, 0, 1]), CellArray::from_vec(vec![0; 6]));
    let mut b = (CellArray::from_vec(vec![1, 0, 0, 1, 0, 1]), CellArray::from_vec(vec![1; 6]));
    for _ in 0..10 {
        cellular_automata(&mut a, 90, 6);
        cellular_automata(&mut b, 90, 6);
    }
    assert_eq!(a.0.to_vec(), b.0.to_vec());
}

#[test]
fn repeated_ca_runs_are_identical() {
    let start = [0, 1, 1, 0, 1, 0, 0, 0, 1, 1, 0, 1];
    let first = run(30, &start, 50);
    let second = run(30, &start, 50);
    assert_eq!(first, second);
}

#[test]
fn single_cell_ring() {
    // the only cell is its own left and right neighbour
    let rows = run(30, &[1], 2);
    assert_eq!(rows[1], vec![0]);
    assert_eq!(rows[2], vec![0]);
    let rows = run(128, &[1], 1);
    assert_eq!(rows[1], vec![1]);
}

#[test]
fn empty_ring_stays_empty() {
    let rows = run(30, &[], 3);
    assert_eq!(rows[3], Vec::<u32>::new());
}

#[test]
fn rule_table_lookup() {
    // rule 30 = 0b0001_1110
    let expected = [0, 1, 1, 1, 1, 0, 0, 0];
    for code in 0..8u32 {
        let out = rule_output(30, code >> 2 & 1, code >> 1 & 1, code & 1);
        assert_eq!(out, expected[code as usize]);
    }
    assert_eq!(rule_output(255, 1, 0, 1), 1);
    assert_eq!(rule_output(0, 1, 1, 1), 0);
    assert_eq!(rule_output(128, 1, 1, 1), 1);
    assert_eq!(rule_output(128, 1, 1, 0), 0);
}

#[test]
fn cell_array_round_trip() {
    let a = CellArray::from_vec(vec![3, 1, 4, 1, 5]);
    assert_eq!(a.len(), 5);
    assert_eq!(a.get(2), 4);
    assert_eq!(a.get(4), 5);
    assert_eq!(a.to_vec(), vec![3, 1, 4, 1, 5]);
}

#[test]
fn ring_is_a_prefix_of_longer_arrays() {
    let mut state = (
        CellArray::from_vec(vec![0, 0, 1, 0, 0, 1, 1]),
        CellArray::from_vec(vec![5, 5, 5, 5, 5, 7, 8, 9]),
    );
    cellular_automata(&mut state, 30, 5);
    // the ring wraps at the fifth cell; the scratch cells beyond it are kept
    assert_eq!(state.0.to_vec(), vec![0, 1, 1, 1, 0, 7, 8, 9]);
    assert_eq!(state.1.to_vec(), vec![0, 0, 1, 0, 0, 1, 1]);
}

#[test]
fn ring_wraps_at_space_size_not_at_array_end() {
    // cell 3 is the left neighbour of cell 0 although cell 4 is alive
    let mut state = (CellArray::from_vec(vec![0, 0, 0, 1, 1]), CellArray::from_vec(vec![0; 5]));
    cellular_automata(&mut state, 170, 4);
    assert_eq!(state.0.to_vec(), vec![0, 0, 1, 0, 0]);
}

#[test]
fn rule_170_rotates_left() {
    let rows = run(170, &[1, 0, 0, 1, 1, 0], 2);
    assert_eq!(rows[1], vec![0, 0, 1, 1, 0, 1]);
    assert_eq!(rows[2], vec![0, 1, 1, 0, 1, 0]);
}

#[test]
fn zero_space_size_only_swaps() {
    let mut state = (CellArray::from_vec(vec![1, 0]), CellArray::from_vec(vec![4, 4, 4]));
    cellular_automata(&mut state, 30, 0);
    assert_eq!(state.0.to_vec(), vec![4, 4, 4]);
    assert_eq!(state.1.to_vec(), vec![1, 0]);
}
