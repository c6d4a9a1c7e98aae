use optimizers::{epoch_count, Population, Residual, INFINITE_LEVEL};

fn levels(values: &[i64]) -> Vec<Residual> {
    values.iter().map(|v| Residual::Level(*v)).collect()
}

#[test]
fn epoch_count_rounds_up() {
    assert_eq!(epoch_count(10000, 8), 1250);
    assert_eq!(epoch_count(10001, 8), 1251);
    assert_eq!(epoch_count(7, 8), 1);
    assert_eq!(epoch_count(0, 8), 0);
    assert_eq!(epoch_count(u64::MAX, 1), u64::MAX);
    assert_eq!(epoch_count(u64::MAX, 2), u64::MAX / 2 + 1);
}

#[test]
fn new_population_is_unevaluated() {
    let pop = Population::new(4);
    assert_eq!(pop.best, vec![Residual::Level(INFINITE_LEVEL); 4]);
    assert_eq!(pop.global, 0);
}

#[test]
fn absorb_keeps_better_and_tracks_global() {
    let mut pop = Population::new(4);
    let improved = pop.absorb(&levels(&[5, 3, 7, 3]));
    assert_eq!(improved, vec![true; 4]);
    assert_eq!(pop.best, levels(&[5, 3, 7, 3]));
    // the first member to reach 3 keeps the index; a tie does not take it
    assert_eq!(pop.global, 1);

    let improved = pop.absorb(&vec![Residual::Level(6), Residual::Unordered, Residual::Level(2), Residual::Level(3)]);
    assert_eq!(improved, vec![false, false, true, false]);
    assert_eq!(pop.best, levels(&[5, 3, 2, 3]));
    assert_eq!(pop.global, 2);
}

#[test]
fn absorb_global_member_improving_itself() {
    let mut pop = Population::new(3);
    pop.absorb(&levels(&[4, 9, 9]));
    assert_eq!(pop.global, 0);
    // member 0 improves to 1, then member 2 reaches 2: 2 does not beat 1
    pop.absorb(&levels(&[1, 9, 2]));
    assert_eq!(pop.global, 0);
    assert_eq!(pop.best, levels(&[1, 9, 2]));
}

#[test]
fn absorb_before_global_compares_with_old_best() {
    let mut pop = Population::new(3);
    pop.absorb(&levels(&[9, 9, 4]));
    assert_eq!(pop.global, 2);
    // member 0 reaches 3 (< 4) first; member 2 then reaches 3 and ties
    pop.absorb(&levels(&[3, 9, 3]));
    assert_eq!(pop.global, 0);
}

fn close_all(n: usize) -> Vec<Vec<bool>> {
    (0..n).map(|l| (0..n).map(|r| l < r).collect()).collect()
}

#[test]
fn restart_resets_worse_of_pair() {
    let mut pop = Population::new(4);
    pop.absorb(&levels(&[10, 20, 30, 40]));
    let mut close = vec![vec![false; 4]; 4];
    close[1][3] = true;
    let resets = pop.restart_stagnated(&close);
    assert_eq!(resets, vec![3]);
    assert_eq!(pop.best, levels(&[10, 20, 30, INFINITE_LEVEL]));
    assert_eq!(pop.global, 0);
}

#[test]
fn restart_never_resets_global() {
    let mut pop = Population::new(4);
    pop.absorb(&levels(&[10, 10, 10, 10]));
    assert_eq!(pop.global, 0);
    let resets = pop.restart_stagnated(&close_all(4));
    assert_eq!(resets, vec![1, 2, 3]);
    assert_eq!(pop.best[0], Residual::Level(10));
    assert_eq!(pop.global, 0);
}

#[test]
fn restart_global_in_second_place() {
    let mut pop = Population::new(3);
    pop.absorb(&levels(&[8, 5, 9]));
    assert_eq!(pop.global, 1);
    let mut close = vec![vec![false; 3]; 3];
    close[0][1] = true;
    let resets = pop.restart_stagnated(&close);
    assert_eq!(resets, vec![0]);
    assert_eq!(pop.best, levels(&[INFINITE_LEVEL, 5, 9]));
}

#[test]
fn restart_tie_resets_first() {
    let mut pop = Population::new(3);
    pop.absorb(&levels(&[1, 7, 7]));
    let mut close = vec![vec![false; 3]; 3];
    close[1][2] = true;
    assert_eq!(pop.restart_stagnated(&close), vec![1]);
}

#[test]
fn restart_skips_unevaluated() {
    let mut pop = Population::new(3);
    pop.absorb(&vec![Residual::Level(1), Residual::Level(2), Residual::Unordered]);
    let resets = pop.restart_stagnated(&close_all(3));
    // pair (0, 1) resets 1; afterwards 1 and 2 are infinite and skipped
    assert_eq!(resets, vec![1]);
    assert_eq!(pop.best, levels(&[1, INFINITE_LEVEL, INFINITE_LEVEL]));
}
