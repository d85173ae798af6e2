use keyboard_evolve::costs::{CostTables, SLOTS};
use keyboard_evolve::layout::Layout;
use keyboard_evolve::ngram::Ngrams;

fn setup() -> (Layout, CostTables) {
    let layout = Layout::from_line("abcdefghijklmnopqrstuvwxyzäöüß_#").unwrap();
    let mut movement: Vec<Option<u32>> = vec![None; SLOTS * SLOTS];
    movement[1 * SLOTS + 0] = Some(3);
    movement[2 * SLOTS + 1] = Some(4);
    movement[0 * SLOTS + 2] = Some(9);
    let costs = CostTables::new(vec![0; SLOTS], movement).unwrap();
    (layout, costs)
}

#[test]
fn new_window_starts_with_zero_penalties() {
    let n = Ngrams::new(3);
    assert_eq!(n.penalties, vec![0, 0]);
    assert!(n.chars.is_empty());
    assert!(!n.is_filled());
    assert_eq!(Ngrams::new(1).penalties.len(), 0);
}

#[test]
fn push_collects_movement_penalties() {
    let (layout, costs) = setup();
    let mut n = Ngrams::new(2);
    n.push('a', &layout, &costs);
    n.push('b', &layout, &costs);
    n.push('c', &layout, &costs);
    n.push('a', &layout, &costs);
    assert_eq!(n.penalties, vec![0, 3, 4, 9]);
    assert_eq!(n.get_penalties(), 16);
    assert_eq!(n.chars, vec!['c', 'a']);
    assert!(n.is_filled());
}

#[test]
fn push_skips_characters_off_the_layout() {
    let (layout, costs) = setup();
    let mut n = Ngrams::new(3);
    n.push('a', &layout, &costs);
    n.push('é', &layout, &costs);
    n.push('b', &layout, &costs);
    assert_eq!(n.get_penalties(), 0);
    assert_eq!(n.chars, vec!['a', 'é', 'b']);
}

#[test]
fn single_character_window_never_pairs() {
    let (layout, costs) = setup();
    let mut n = Ngrams::new(1);
    n.push('a', &layout, &costs);
    n.push('b', &layout, &costs);
    assert_eq!(n.get_penalties(), 0);
    assert_eq!(n.chars, vec!['b']);
}
