use keyboard_evolve::costs::{CostTables, SLOTS};
use keyboard_evolve::generation::{
    get_initial_layouts, grow_generation, random_layout, score_generation, shrink_generation,
};
use keyboard_evolve::layout::Layout;
use keyboard_evolve::score::Score;
use keyboard_evolve::xgrams::Xgrams;

const LINE: &str = "abcdefghijklmnopqrstuvwxyzäöüß_#";

fn with_points(p: u128) -> Layout {
    let mut l = Layout::from_line(LINE).unwrap();
    l.score = Score { points: p, ..Score::new() };
    l
}

fn sorted_chars(s: &[char]) -> Vec<char> {
    let mut v = s.to_vec();
    v.sort();
    v
}

#[test]
fn seven_points_outrank_five() {
    let mut g = vec![with_points(5), with_points(7)];
    shrink_generation(&mut g, 1);
    assert_eq!(g.len(), 1);
    assert_eq!(g[0].score.points, 7);
    assert!(with_points(5).score.ranks_below(&with_points(7).score));
    assert!(!with_points(7).score.ranks_below(&with_points(5).score));
    let five = Score { points: 5, ..Score::new() };
    let seven = Score { points: 7, x1: 99, ..Score::new() };
    assert!(five < seven);
    assert!(seven > five);
    assert!(Score { points: 7, ..Score::new() } == seven);
    assert!(five != seven);
}

#[test]
fn shrink_keeps_the_best_in_order() {
    let mut g: Vec<Layout> = [3, 9, 1, 9, 4, 0, 7].iter().map(|p| with_points(*p)).collect();
    shrink_generation(&mut g, 3);
    let kept: Vec<u128> = g.iter().map(|l| l.score.points).collect();
    assert_eq!(kept, vec![7, 9, 9]);
    let mut small = vec![with_points(2), with_points(8)];
    shrink_generation(&mut small, 10);
    let kept: Vec<u128> = small.iter().map(|l| l.score.points).collect();
    assert_eq!(kept, vec![2, 8]);
    let mut empty: Vec<Layout> = Vec::new();
    shrink_generation(&mut empty, 3);
    assert!(empty.is_empty());
}

#[test]
fn random_layouts_are_permutations_of_the_alphabet() {
    let l = random_layout();
    assert_eq!(l.line.len(), 32);
    let base: Vec<char> = LINE.chars().collect();
    assert_eq!(sorted_chars(&l.line), sorted_chars(&base));
    assert_eq!(l.score.points, 0);
}

#[test]
fn grow_fills_up_to_the_target_and_keeps_members() {
    let mut g = vec![with_points(4)];
    grow_generation(&mut g, 5);
    assert_eq!(g.len(), 5);
    assert_eq!(g[0].score.points, 4);
    let mut full = vec![with_points(1), with_points(2)];
    grow_generation(&mut full, 1);
    assert_eq!(full.len(), 2);
}

#[test]
fn score_generation_scores_once_and_compares_all_pairs() {
    let effort: Vec<u32> = (0..SLOTS as u32).collect();
    let costs = CostTables::new(effort, vec![None; SLOTS * SLOTS]).unwrap();
    let x = Xgrams::from_chars(&"aaab".chars().collect());
    let a = Layout::from_line(LINE).unwrap();
    let b = Layout::from_line("bacdefghijklmnopqrstuvwxyzäöüß_#").unwrap();
    let mut g = vec![a, b];
    score_generation(&mut g, &x, &costs);
    assert_eq!(g[0].score.x1, 1);
    assert_eq!(g[1].score.x1, 3);
    assert_eq!(g[0].score.points, 1);
    assert_eq!(g[1].score.points, 0);
}

#[test]
fn seeds_keep_lines_of_full_length() {
    let text = format!("{}\nshort\n{}", LINE, "zyxwvutsrqponmlkjihgfedcbaäöüß_#");
    let seeds = get_initial_layouts(&text).unwrap();
    assert_eq!(seeds.len(), 2);
    assert_eq!(seeds[0].line, LINE.chars().collect::<Vec<char>>());
    assert_eq!(seeds[1].line[0], 'z');
    assert_eq!(get_initial_layouts("").unwrap().len(), 0);
}

#[test]
fn more_than_ten_seed_lines_abort() {
    let ten = vec![LINE; 10].join("\n");
    assert_eq!(get_initial_layouts(&ten).unwrap().len(), 10);
    let eleven = vec![LINE; 11].join("\n");
    assert!(get_initial_layouts(&eleven).is_none());
}

#[test]
fn survivors_stay_in_ascending_order() {
    let mut g = vec![with_points(5), with_points(7)];
    shrink_generation(&mut g, 2);
    let kept: Vec<u128> = g.iter().map(|l| l.score.points).collect();
    assert_eq!(kept, vec![5, 7]);
}

#[test]
fn equal_points_at_the_cut_keep_the_later_layout() {
    let mut first = Layout::from_line(LINE).unwrap();
    first.score = Score { points: 5, ..Score::new() };
    let mut second = Layout::from_line("zyxwvutsrqponmlkjihgfedcbaäöüß_#").unwrap();
    second.score = Score { points: 5, ..Score::new() };
    let mut g = vec![first, with_points(1), second];
    shrink_generation(&mut g, 1);
    assert_eq!(g.len(), 1);
    assert_eq!(g[0].line[0], 'z');
    let mut h = vec![with_points(4), with_points(4), with_points(2)];
    shrink_generation(&mut h, 2);
    let kept: Vec<u128> = h.iter().map(|l| l.score.points).collect();
    assert_eq!(kept, vec![4, 4]);
}
