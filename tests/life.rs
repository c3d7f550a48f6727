use std::collections::HashSet;

use life::colony::{generation, Colony};
use life::driver::{App, Driver, Input, Step, IDLE_WAIT_MS};

fn colony(cells: &[(i32, i32)]) -> Colony {
    Colony::from_cells(cells.to_vec())
}

fn set_of(col: &Colony) -> HashSet<(i32, i32)> {
    col.to_vec().into_iter().collect()
}

fn set(cells: &[(i32, i32)]) -> HashSet<(i32, i32)> {
    cells.iter().copied().collect()
}

#[test]
fn lone_cell_dies() {
    let next = generation(colony(&[(5, 5)]));
    assert_eq!(next.len(), 0);
}

#[test]
fn empty_colony_stays_empty() {
    let next = generation(Colony::new());
    assert_eq!(next.len(), 0);
    let again = generation(next);
    assert_eq!(again.len(), 0);
}

#[test]
fn two_neighbours_keep_a_live_cell() {
    // (1, 0) has two live neighbours and survives; its row-mates have one.
    let next = generation(colony(&[(0, 0), (1, 0), (2, 0)]));
    assert!(next.contains((1, 0)));
    assert!(!next.contains((0, 0)));
    assert!(!next.contains((2, 0)));
}

#[test]
fn three_neighbours_give_birth() {
    // (1, 1) is dead with exactly three live neighbours.
    let next = generation(colony(&[(0, 0), (2, 0), (0, 2)]));
    assert!(next.contains((1, 1)));
}

#[test]
fn two_neighbours_do_not_give_birth() {
    let next = generation(colony(&[(0, 0), (2, 0)]));
    assert!(!next.contains((1, 1)));
    assert!(!next.contains((1, 0)));
    assert_eq!(next.len(), 0);
}

#[test]
fn four_neighbours_kill_a_live_cell() {
    // The centre of a plus sign has four live neighbours.
    let next = generation(colony(&[(1, 1), (0, 1), (2, 1), (1, 0), (1, 2)]));
    assert!(!next.contains((1, 1)));
    assert_eq!(
        set_of(&next),
        set(&[(0, 0), (1, 0), (2, 0), (0, 1), (2, 1), (0, 2), (1, 2), (2, 2)])
    );
}

#[test]
fn block_is_still() {
    let block = [(3, 3), (4, 3), (3, 4), (4, 4)];
    let next = generation(colony(&block));
    assert_eq!(set_of(&next), set(&block));
}

#[test]
fn blinker_oscillates() {
    let across = [(-1, 0), (0, 0), (1, 0)];
    let upright = [(0, -1), (0, 0), (0, 1)];
    let once = generation(colony(&across));
    assert_eq!(set_of(&once), set(&upright));
    let twice = generation(once);
    assert_eq!(set_of(&twice), set(&across));
}

#[test]
fn seeded_glider_moves_diagonally() {
    let mut app = App::new(25, 25);
    let start = set_of(&app.cells);
    assert_eq!(start, set(&[(12, 11), (13, 12), (11, 13), (12, 13), (13, 13)]));
    for _ in 0..4 {
        app.on_tick();
    }
    let moved: HashSet<(i32, i32)> = start.iter().map(|&(x, y)| (x + 1, y + 1)).collect();
    assert_eq!(set_of(&app.cells), moved);
}

#[test]
fn glider_seed_rounds_toward_zero() {
    let app = App::new(-3, -5);
    assert_eq!(set_of(&app.cells), set(&[(-2, -2), (-1, -1), (-3, 0), (-2, 0), (-1, 0)]));
}

#[test]
fn order_of_cells_does_not_matter() {
    let a = generation(colony(&[(0, 0), (1, 0), (2, 0), (1, 1), (5, 5)]));
    let b = generation(colony(&[(5, 5), (1, 1), (2, 0), (0, 0), (1, 0), (0, 0)]));
    assert_eq!(set_of(&a), set_of(&b));
    let c = generation(colony(&[(5, 5), (1, 1), (2, 0), (0, 0), (1, 0)]));
    assert_eq!(set_of(&a), set_of(&c));
}

#[test]
fn repeated_cells_count_once() {
    let col = colony(&[(1, 1), (1, 1), (2, 2)]);
    assert_eq!(col.len(), 2);
    assert_eq!(col.to_vec().len(), 2);
}

#[test]
fn edge_of_grid_is_detected() {
    assert!(colony(&[(0, 0), (i32::MAX - 1, i32::MIN + 1)]).fits_grid());
    assert!(!colony(&[(0, 0), (i32::MAX, 0)]).fits_grid());
    assert!(!colony(&[(0, i32::MIN)]).fits_grid());
}

#[test]
fn timeout_counts_down_to_the_tick() {
    let d = Driver::new(App::new(25, 25), 1000, 100);
    assert_eq!(d.timeout(100), 1000);
    assert_eq!(d.timeout(400), 700);
    assert_eq!(d.timeout(1099), 1);
}

#[test]
fn timeout_falls_back_when_tick_is_due() {
    let d = Driver::new(App::new(25, 25), 1000, 0);
    assert_eq!(d.timeout(1000), IDLE_WAIT_MS);
    assert_eq!(d.timeout(2500), IDLE_WAIT_MS);
    assert_eq!(IDLE_WAIT_MS, 500);
}

#[test]
fn no_tick_before_the_interval() {
    let mut d = Driver::new(App::new(25, 25), 1000, 0);
    let start = set_of(d.colony());
    assert_eq!(d.handle(Input::Nothing, 10), Step::Continue);
    assert_eq!(d.handle(Input::Other, 500), Step::Continue);
    assert_eq!(d.handle(Input::Nothing, 999), Step::Continue);
    assert_eq!(set_of(d.colony()), start);
    assert_eq!(d.timeout(999), 1);
}

#[test]
fn one_tick_per_interval() {
    let mut d = Driver::new(App::new(25, 25), 1000, 0);
    let mut expected = App::new(25, 25);
    let mut now: u64 = 0;
    for _ in 0..4 {
        let wait = d.timeout(now);
        assert_eq!(wait, 1000);
        now += wait;
        assert_eq!(d.handle(Input::Nothing, now), Step::Continue);
        expected.on_tick();
        assert_eq!(set_of(d.colony()), set_of(&expected.cells));
    }
    // An overdue tick happens once, and the interval restarts from then.
    assert_eq!(d.handle(Input::Other, 5500), Step::Continue);
    expected.on_tick();
    assert_eq!(set_of(d.colony()), set_of(&expected.cells));
    assert_eq!(d.timeout(5500), 1000);
    assert_eq!(d.handle(Input::Nothing, 6000), Step::Continue);
    assert_eq!(set_of(d.colony()), set_of(&expected.cells));
}

#[test]
fn quit_stops_at_once() {
    let mut d = Driver::new(App::new(25, 25), 1000, 0);
    let start = set_of(d.colony());
    assert!(!d.is_terminated());
    assert_eq!(d.handle(Input::Quit, 5000), Step::Exit);
    assert!(d.is_terminated());
    assert_eq!(set_of(d.colony()), start);
    assert_eq!(d.handle(Input::Nothing, 9000), Step::Exit);
    assert_eq!(d.handle(Input::Other, 20000), Step::Exit);
    assert_eq!(set_of(d.colony()), start);
}
