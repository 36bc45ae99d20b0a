use wavesolve::canon::{color_ordering, recolor};
use wavesolve::grid::Pair;

#[test]
fn ordering_ranks_by_frequency_then_symbol() {
    // Input counts: symbol 0 once, symbol 1 twice, symbol 2 once, the
    // rest never. Ascending by (count, symbol): 3..9 first, then 0, 2, 1.
    let pair = Pair {
        input: vec![vec![1, 1], vec![2, 0]],
        output: vec![vec![0, 0], vec![0, 0]],
    };
    let order = color_ordering(&pair);
    assert_eq!(order, vec![3, 4, 5, 6, 7, 8, 9, 0, 2, 1]);
}

#[test]
fn ordering_is_a_permutation() {
    let pair = Pair {
        input: vec![vec![5, 5, 5], vec![5, 5, 5]],
        output: vec![vec![0; 3]; 2],
    };
    let order = color_ordering(&pair);
    let mut seen = [false; 10];
    for &c in &order {
        assert!(c < 10);
        assert!(!seen[c as usize]);
        seen[c as usize] = true;
    }
}

#[test]
fn recolor_through_own_ordering_is_identity() {
    let mut pair = Pair {
        input: vec![vec![0, 1], vec![1, 1]],
        output: vec![vec![1, 0], vec![0, 0]],
    };
    let own = color_ordering(&pair);
    let before_input = pair.input.clone();
    let before_output = pair.output.clone();
    recolor(&mut pair, &own);
    assert_eq!(pair.input, before_input);
    assert_eq!(pair.output, before_output);
}

#[test]
fn recolor_remaps_by_rank() {
    // Counts in the input: 0 once, 1 three times, others never, so the
    // pair's own order is [2,3,4,5,6,7,8,9,0,1]: rank(0) == 8,
    // rank(1) == 9. The identity target ordering then maps 0 -> 8 and
    // 1 -> 9 in both grids.
    let mut pair = Pair {
        input: vec![vec![0, 1], vec![1, 1]],
        output: vec![vec![1, 1], vec![1, 0]],
    };
    let identity: Vec<u8> = (0..10).collect();
    recolor(&mut pair, &identity);
    assert_eq!(pair.input, vec![vec![8, 9], vec![9, 9]]);
    assert_eq!(pair.output, vec![vec![9, 9], vec![9, 8]]);
}
