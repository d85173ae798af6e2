use keyboard_evolve::costs::{CostTables, ABSENT_EFFORT, SLOTS};
use keyboard_evolve::layout::Layout;
use keyboard_evolve::score::Score;
use keyboard_evolve::xgrams::Xgrams;

const LINE: &str = "abcdefghijklmnopqrstuvwxyzäöüß_#";

fn layout() -> Layout {
    Layout::from_line(LINE).unwrap()
}

fn costs() -> CostTables {
    let effort: Vec<u32> = (0..SLOTS as u32).map(|i| i * 10).collect();
    let mut movement: Vec<Option<u32>> = vec![None; SLOTS * SLOTS];
    movement[0 * SLOTS + 1] = Some(5);
    movement[1 * SLOTS + 0] = Some(7);
    movement[2 * SLOTS + 3] = Some(11);
    CostTables::new(effort, movement).unwrap()
}

#[test]
fn line_of_31_characters_is_rejected() {
    assert!(Layout::from_line("abcdefghijklmnopqrstuvwxyzäöüß_").is_none());
    assert!(Layout::from_line("abcdefghijklmnopqrstuvwxyzäöüß_#x").is_none());
    assert!(Layout::from_line("").is_none());
    assert!(Layout::from_chars(vec!['a'; 31]).is_none());
}

#[test]
fn line_of_32_characters_is_accepted_with_zero_score() {
    let l = layout();
    assert_eq!(l.line.len(), 32);
    assert_eq!(l.line[26], 'ä');
    assert_eq!(l.score.points, 0);
    assert_eq!(l.score.x1, 0);
}

#[test]
fn slots_and_hands() {
    let l = layout();
    assert_eq!(l.slot_of('a'), Some(0));
    assert_eq!(l.slot_of('#'), Some(31));
    assert_eq!(l.slot_of('é'), None);
    assert!(l.is_left_hand('e'));
    assert!(!l.is_left_hand('f'));
    assert!(l.is_left_hand('k'));
    assert!(l.is_left_hand('_'));
    assert!(!l.is_left_hand('#'));
    assert!(l.is_right_hand('#'));
    assert!(!l.is_left_hand('é'));
    assert!(!l.is_right_hand('é'));
    assert!(!l.is_same_hand('é', 'é'));
    for c in LINE.chars() {
        assert_ne!(l.is_left_hand(c), l.is_right_hand(c));
    }
    assert!(l.is_same_hand('a', 'u'));
    assert!(!l.is_same_hand('a', 'f'));
}

#[test]
fn same_finger_rules() {
    let l = layout();
    assert!(l.is_same_finger('a', 'k'));
    assert!(l.is_same_finger('d', 'e'));
    assert!(l.is_same_finger('e', 'd'));
    assert!(l.is_same_finger('f', 'q'));
    assert!(!l.is_same_finger('e', 'f'));
    assert!(!l.is_same_finger('a', '_'));
    assert!(!l.is_same_finger('_', 'a'));
    assert!(!l.is_same_finger('a', 'é'));
    for a in LINE.chars() {
        for b in LINE.chars() {
            assert_eq!(l.is_same_finger(a, b), l.is_same_finger(b, a));
        }
    }
}

#[test]
fn score_sums_effort_hands_and_movement() {
    let mut l = layout();
    let x = Xgrams::from_chars(&"aab".chars().collect());
    l.score(&x, &costs());
    assert_eq!(l.score.x1, 10);
    assert_eq!(l.score.counter_left, 4);
    assert_eq!(l.score.counter_right, 0);
    assert_eq!(l.score.x2, 5);
    assert_eq!(l.score.x3, 0);
    assert_eq!(l.score.points, 0);
}

#[test]
fn score_charges_absent_characters_a_fixed_effort() {
    let mut l = layout();
    let x = Xgrams::from_chars(&"é".chars().collect());
    l.score(&x, &costs());
    assert_eq!(l.score.x1, ABSENT_EFFORT as u128);
    assert_eq!(l.score.counter_right, 0);
    assert_eq!(l.score.counter_left, 0);
}

#[test]
fn score_keeps_only_the_last_movement_cost() {
    let mut l = layout();
    let x = Xgrams::from_chars(&"cdba".chars().collect());
    l.score(&x, &costs());
    // pairs in order of first sight: cd (11), db (none), ba (7)
    assert_eq!(l.score.x2, 7);
    assert_eq!(l.score.x1, 20 + 30 + 10);
}

#[test]
fn scoring_twice_counts_twice() {
    let mut l = layout();
    let x = Xgrams::from_chars(&"ab".chars().collect());
    l.score(&x, &costs());
    l.score(&x, &costs());
    assert_eq!(l.score.x1, 20);
    assert_eq!(l.score.counter_left, 6);
}

#[test]
fn cost_tables_need_one_entry_per_slot() {
    assert!(CostTables::new(vec![0; 31], vec![None; 1024]).is_none());
    assert!(CostTables::new(vec![0; 32], vec![None; 1023]).is_none());
    assert!(CostTables::new(vec![0; 32], vec![None; 1024]).is_some());
}

fn with_score(s: Score) -> Layout {
    let mut l = layout();
    l.score = s;
    l
}

#[test]
fn defend_awards_a_point_per_metric_won() {
    let mut a = with_score(Score { x1: 1, x2: 9, x3: 0, counter_left: 5, counter_right: 5, ..Score::new() });
    let b = with_score(Score { x1: 2, x2: 3, x3: 0, counter_left: 9, counter_right: 1, ..Score::new() });
    a.defend(&b);
    assert_eq!(a.score.points, 2);
    let mut b2 = b.clone();
    b2.defend(&a);
    assert_eq!(b2.score.points, 1);
}

#[test]
fn defend_ties_and_empty_counters_give_nothing() {
    let s = Score { x1: 4, counter_left: 3, counter_right: 3, ..Score::new() };
    let mut a = with_score(s);
    let b = with_score(s);
    a.defend(&b);
    assert_eq!(a.score.points, 0);
    let mut c = with_score(Score::new());
    c.defend(&with_score(Score { counter_left: 1, counter_right: 9, ..Score::new() }));
    assert_eq!(c.score.points, 0);
}

#[test]
fn balance_compares_distance_from_even_split() {
    let even = Score { counter_left: 60, counter_right: 40, ..Score::new() };
    let skewed = Score { counter_left: 10, counter_right: 30, ..Score::new() };
    assert!(even.is_better_balanced(&skewed));
    assert!(!skewed.is_better_balanced(&even));
    let mirrored = Score { counter_left: 40, counter_right: 60, ..Score::new() };
    assert!(!even.is_better_balanced(&mirrored));
    assert!(!mirrored.is_better_balanced(&even));
}

#[test]
fn antisymmetric_on_every_metric() {
    let a = with_score(Score { x1: 1, x2: 5, x4: 2, counter_left: 7, counter_right: 3, ..Score::new() });
    let b = with_score(Score { x1: 3, x2: 5, x4: 1, counter_left: 2, counter_right: 2, ..Score::new() });
    let mut ab = a.clone();
    ab.defend(&b);
    let mut ba = b.clone();
    ba.defend(&a);
    assert_eq!(ab.score.points, 1);
    assert_eq!(ba.score.points, 2);
}

#[test]
fn left_percent_rounds_down() {
    let s = Score { counter_left: 2, counter_right: 1, ..Score::new() };
    assert_eq!(s.left_percent(), Some(66));
    let all_left = Score { counter_left: 5, ..Score::new() };
    assert_eq!(all_left.left_percent(), Some(100));
    assert_eq!(Score::new().left_percent(), None);
    let big = Score { counter_left: u64::MAX, counter_right: u64::MAX, ..Score::new() };
    assert_eq!(big.left_percent(), Some(50));
}

#[test]
fn pairs_with_an_absent_character_count_for_no_hand() {
    let mut l = layout();
    let x = Xgrams::from_chars(&"zé".chars().collect());
    l.score(&x, &costs());
    // 'z' alone counts for the right hand; the pair "zé" counts for neither
    assert_eq!(l.score.counter_right, 1);
    assert_eq!(l.score.counter_left, 0);
}
