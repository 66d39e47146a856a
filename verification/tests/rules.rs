//! Scenario tests for the automaton rule: survival, birth, demotion,
//! waking, and the classic glider and block patterns.

use gameoflife2d::cell_store::{Cell, TileMap};
use gameoflife2d::stepper::checkArround;
use gameoflife2d::uvec3::uVec3;
use gameoflife2d::UPDATE_COUNT_LIMIT;

fn v(x: i32, y: i32) -> uVec3 {
    uVec3::new(x, y, 0)
}

fn in_active(tm: &TileMap, x: i32, y: i32) -> bool {
    tm.current_state.iter().any(|e| e.0 == v(x, y))
}

fn in_stable(tm: &TileMap, x: i32, y: i32) -> bool {
    tm.stable_current_state.iter().any(|e| e.0 == v(x, y))
}

fn live_count(tm: &TileMap) -> usize {
    tm.current_state.len() + tm.stable_current_state.len()
}

fn seed(cells: &[(i32, i32)]) -> TileMap {
    let mut tm = TileMap::new();
    for &(x, y) in cells {
        tm.toggle_cell(v(x, y), true);
    }
    tm.toggle_running();
    tm
}

#[test]
fn lonely_cells_die() {
    let mut tm = seed(&[(0, 0), (0, 1)]);
    tm.run_simulation();
    assert_eq!(live_count(&tm), 0);
}

#[test]
fn tromino_becomes_block() {
    // each seeded cell has two live neighbors and survives; the fourth
    // corner has exactly three and is born
    let mut tm = seed(&[(0, 0), (0, 1), (1, 0)]);
    tm.run_simulation();
    assert!(tm.is_alive(v(0, 0)));
    assert!(tm.is_alive(v(0, 1)));
    assert!(tm.is_alive(v(1, 0)));
    assert!(tm.is_alive(v(1, 1)));
    assert_eq!(live_count(&tm), 4);
    // the newborn carries a full countdown and no placeholder yet
    let born = tm
        .current_state
        .iter()
        .find(|e| e.0 == v(1, 1))
        .expect("newborn cell should be active");
    assert_eq!(born.1.ttl, UPDATE_COUNT_LIMIT);
    assert!(born.1.placeholder.is_none());
}

#[test]
fn overcrowded_cell_dies() {
    // the center of a plus sign has four neighbors and dies
    let mut tm = seed(&[(0, 0), (-1, 0), (1, 0), (0, -1), (0, 1)]);
    tm.run_simulation();
    assert!(!tm.is_alive(v(0, 0)));
}

#[test]
fn glider_advances_one_phase() {
    let mut tm = TileMap::new();
    let glider = vec![
        vec![false, false, true],
        vec![true, false, true],
        vec![false, true, true],
    ];
    tm.stamp_pattern(v(0, 0), &glider);
    assert!(tm.is_alive(v(0, 2)));
    assert!(tm.is_alive(v(1, 0)));
    assert!(tm.is_alive(v(1, 2)));
    assert!(tm.is_alive(v(2, 1)));
    assert!(tm.is_alive(v(2, 2)));
    assert_eq!(live_count(&tm), 5);
    tm.toggle_running();
    tm.run_simulation();
    // the standard next phase of the glider
    assert!(tm.is_alive(v(0, 1)));
    assert!(tm.is_alive(v(1, 2)));
    assert!(tm.is_alive(v(1, 3)));
    assert!(tm.is_alive(v(2, 1)));
    assert!(tm.is_alive(v(2, 2)));
    assert!(!tm.is_alive(v(0, 2)));
    assert!(!tm.is_alive(v(1, 0)));
    assert_eq!(live_count(&tm), 5);
}

#[test]
fn block_stabilizes_after_countdown_and_stays_fixed() {
    let mut tm = seed(&[(0, 0), (0, 1), (1, 0), (1, 1)]);
    for step in 0..UPDATE_COUNT_LIMIT {
        assert_eq!(tm.current_state.len(), 4, "still active before step {}", step);
        assert_eq!(tm.stable_current_state.len(), 0);
        tm.run_simulation();
    }
    // on the tick the countdown ran out all four moved to the stable
    // partition
    assert_eq!(tm.current_state.len(), 0);
    assert_eq!(tm.stable_current_state.len(), 4);
    // a still life stays fixed once stable
    tm.run_simulation();
    assert_eq!(tm.current_state.len(), 0);
    assert_eq!(tm.stable_current_state.len(), 4);
    for &(x, y) in &[(0, 0), (0, 1), (1, 0), (1, 1)] {
        assert!(in_stable(&tm, x, y));
    }
}

#[test]
fn countdown_decrements_each_surviving_tick() {
    let mut tm = seed(&[(0, 0), (0, 1), (1, 0), (1, 1)]);
    tm.run_simulation();
    for e in tm.current_state.iter() {
        assert_eq!(e.1.ttl, UPDATE_COUNT_LIMIT - 1);
    }
    tm.run_simulation();
    for e in tm.current_state.iter() {
        assert_eq!(e.1.ttl, UPDATE_COUNT_LIMIT - 2);
    }
}

#[test]
fn partitions_never_overlap() {
    let mut tm = seed(&[(0, 0), (0, 1), (1, 0), (1, 1), (5, 5), (5, 6), (5, 7)]);
    for _ in 0..(UPDATE_COUNT_LIMIT + 5) {
        tm.run_simulation();
        for e in tm.current_state.iter() {
            assert!(
                !tm.stable_current_state.iter().any(|s| s.0 == e.0),
                "coordinate in both partitions"
            );
        }
    }
}

#[test]
fn nearby_change_wakes_stable_cells() {
    // a block, stabilized, with a blinker three cells away
    let mut tm = seed(&[(0, 0), (0, 1), (1, 0), (1, 1)]);
    for _ in 0..UPDATE_COUNT_LIMIT {
        tm.run_simulation();
    }
    assert_eq!(tm.stable_current_state.len(), 4);
    let blinker = vec![vec![true, true, true]];
    // a 1x3 row at (4,3)..(4,5)
    tm.stamp_pattern(v(4, 3), &blinker);
    tm.run_simulation();
    // the blinker flipped: births at (3,4) and (5,4), deaths at (4,3)
    // and (4,5)
    assert!(tm.is_alive(v(3, 4)));
    assert!(tm.is_alive(v(5, 4)));
    assert!(!tm.is_alive(v(4, 3)));
    assert!(!tm.is_alive(v(4, 5)));
    // block cells within the wake radius of some change woke up
    assert!(in_active(&tm, 0, 1));
    assert!(in_active(&tm, 1, 0));
    assert!(in_active(&tm, 1, 1));
    // the far corner saw no change within the radius and stayed stable
    assert!(in_stable(&tm, 0, 0));
}

#[test]
fn stable_cells_far_from_changes_are_skipped() {
    let mut tm = seed(&[(0, 0), (0, 1), (1, 0), (1, 1)]);
    for _ in 0..UPDATE_COUNT_LIMIT {
        tm.run_simulation();
    }
    // changes far away leave the stable block untouched
    tm.stamp_pattern(v(40, 40), &vec![vec![true, true, true]]);
    tm.run_simulation();
    assert_eq!(tm.stable_current_state.len(), 4);
}

#[test]
fn paused_simulation_does_not_step() {
    let mut tm = TileMap::new();
    tm.toggle_cell(v(0, 0), true);
    assert!(!tm.running);
    tm.run_simulation();
    assert!(tm.is_alive(v(0, 0)));
    assert_eq!(live_count(&tm), 1);
}

#[test]
fn check_arround_stages_births_and_the_cells_own_fate() {
    // an L-tromino: evaluating one corner stages the birth of the fourth
    // corner and the corner's own survival with a decremented countdown
    let mut tm = TileMap::new();
    for &(x, y) in &[(0, 0), (0, 1), (1, 0)] {
        tm.toggle_cell(uVec3::new(x, y, 0), true);
    }
    let mut births: Vec<uVec3> = Vec::new();
    let mut deaths: Vec<uVec3> = Vec::new();
    let mut new_active: Vec<(uVec3, Cell)> = Vec::new();
    let mut new_stable: Vec<(uVec3, Cell)> = Vec::new();
    checkArround(
        &tm,
        uVec3::new(0, 0, 0),
        &mut births,
        &mut deaths,
        &mut new_active,
        &mut new_stable,
    );
    assert_eq!(births, vec![uVec3::new(1, 1, 0)]);
    assert!(deaths.is_empty());
    assert_eq!(new_active.len(), 1);
    assert_eq!(new_active[0].0, uVec3::new(0, 0, 0));
    assert_eq!(new_active[0].1.ttl, UPDATE_COUNT_LIMIT - 1);
    assert!(new_stable.is_empty());
}
