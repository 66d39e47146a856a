//! Tests for the cell store itself: partition bookkeeping, toggling with
//! its wake radius, pattern stamping, and clearing.

use gameoflife2d::cell_store::TileMap;
use gameoflife2d::pool::TilesCache;
use gameoflife2d::uvec3::uVec3;
use gameoflife2d::{UNSTABLE_CHANGER_LIMIT, UPDATE_COUNT_LIMIT};

fn v(x: i32, y: i32) -> uVec3 {
    uVec3::new(x, y, 0)
}

fn in_active(tm: &TileMap, x: i32, y: i32) -> bool {
    tm.current_state.iter().any(|e| e.0 == v(x, y))
}

fn in_stable(tm: &TileMap, x: i32, y: i32) -> bool {
    tm.stable_current_state.iter().any(|e| e.0 == v(x, y))
}

#[test]
fn new_store_is_empty_and_paused() {
    let tm = TileMap::new();
    assert!(!tm.running);
    assert_eq!(tm.current_state.len(), 0);
    assert_eq!(tm.stable_current_state.len(), 0);
    assert!(!tm.is_alive(v(0, 0)));
}

#[test]
fn toggle_running_flips_each_time() {
    let mut tm = TileMap::new();
    tm.toggle_running();
    assert!(tm.running);
    tm.toggle_running();
    assert!(!tm.running);
}

#[test]
fn set_active_get_remove_roundtrip() {
    let mut tm = TileMap::new();
    tm.set_active(v(3, -4), 7);
    assert!(tm.is_alive(v(3, -4)));
    let cell = tm.get(v(3, -4)).expect("cell should be live");
    assert_eq!(cell.ttl, 7);
    assert!(cell.placeholder.is_none());
    tm.remove(v(3, -4));
    assert!(!tm.is_alive(v(3, -4)));
    assert!(tm.get(v(3, -4)).is_none());
    // removing an absent coordinate is a no-op
    tm.remove(v(3, -4));
    assert_eq!(tm.current_state.len(), 0);
}

#[test]
fn demote_and_promote_keep_the_placeholder() {
    let mut tm = TileMap::new();
    tm.set_active(v(0, 0), 5);
    tm.current_state[0].1.placeholder = Some(9);
    tm.demote(v(0, 0));
    assert!(in_stable(&tm, 0, 0));
    assert_eq!(tm.stable_current_state[0].1.placeholder, Some(9));
    tm.promote(v(0, 0), UPDATE_COUNT_LIMIT);
    assert!(in_active(&tm, 0, 0));
    assert_eq!(tm.current_state[0].1.placeholder, Some(9));
    assert_eq!(tm.current_state[0].1.ttl, UPDATE_COUNT_LIMIT);
}

#[test]
fn toggle_on_wakes_stable_neighbors_within_radius() {
    let mut tm = TileMap::new();
    tm.set_active(v(2, 2), 1);
    tm.demote(v(2, 2));
    tm.set_active(v(9, 9), 1);
    tm.demote(v(9, 9));
    assert!(in_stable(&tm, 2, 2));
    assert!(in_stable(&tm, 9, 9));
    // (2,2) is within the wake radius of (0,0); (9,9) is far outside
    assert!(2 <= UNSTABLE_CHANGER_LIMIT);
    tm.toggle_cell(v(0, 0), true);
    assert!(in_active(&tm, 0, 0));
    assert!(in_active(&tm, 2, 2));
    assert!(in_stable(&tm, 9, 9));
}

#[test]
fn toggle_off_removes_and_wakes() {
    let mut tm = TileMap::new();
    tm.toggle_cell(v(0, 0), true);
    tm.set_active(v(3, 0), 1);
    tm.demote(v(3, 0));
    tm.toggle_cell(v(0, 0), false);
    assert!(!tm.is_alive(v(0, 0)));
    // the stable cell three away saw the removal and woke
    assert!(in_active(&tm, 3, 0));
}

#[test]
fn toggle_off_of_dead_coordinate_is_noop() {
    let mut tm = TileMap::new();
    tm.set_active(v(5, 5), 1);
    tm.demote(v(5, 5));
    tm.toggle_cell(v(4, 4), false);
    // no removal happened, so nothing woke
    assert!(in_stable(&tm, 5, 5));
}

#[test]
fn toggle_on_of_live_active_cell_is_noop() {
    let mut tm = TileMap::new();
    tm.toggle_cell(v(1, 1), true);
    let ttl_before = tm.current_state[0].1.ttl;
    tm.toggle_cell(v(1, 1), true);
    assert_eq!(tm.current_state.len(), 1);
    assert_eq!(tm.current_state[0].1.ttl, ttl_before);
}

#[test]
fn stamp_pattern_inserts_set_bits_as_active() {
    let mut tm = TileMap::new();
    let pattern = vec![vec![true, false], vec![false, true], vec![true, true]];
    tm.stamp_pattern(v(10, -2), &pattern);
    assert!(tm.is_alive(v(10, -2)));
    assert!(tm.is_alive(v(11, -1)));
    assert!(tm.is_alive(v(12, -2)));
    assert!(tm.is_alive(v(12, -1)));
    assert!(!tm.is_alive(v(10, -1)));
    assert!(!tm.is_alive(v(11, -2)));
    assert_eq!(tm.current_state.len(), 4);
    for e in tm.current_state.iter() {
        assert_eq!(e.1.ttl, UPDATE_COUNT_LIMIT);
    }
}

#[test]
fn stamp_pattern_accepts_ragged_rows() {
    let mut tm = TileMap::new();
    let pattern = vec![vec![true], vec![], vec![true, true, true]];
    tm.stamp_pattern(v(0, 0), &pattern);
    assert_eq!(tm.current_state.len(), 4);
    assert!(tm.is_alive(v(0, 0)));
    assert!(tm.is_alive(v(2, 0)));
    assert!(tm.is_alive(v(2, 1)));
    assert!(tm.is_alive(v(2, 2)));
}

#[test]
fn stamp_over_stable_cell_reactivates_it_keeping_its_placeholder() {
    let mut tm = TileMap::new();
    tm.set_active(v(0, 0), 3);
    tm.current_state[0].1.placeholder = Some(4);
    tm.demote(v(0, 0));
    tm.stamp_pattern(v(0, 0), &vec![vec![true]]);
    assert!(in_active(&tm, 0, 0));
    assert!(!in_stable(&tm, 0, 0));
    assert_eq!(tm.current_state[0].1.placeholder, Some(4));
    assert_eq!(tm.current_state[0].1.ttl, UPDATE_COUNT_LIMIT);
}

#[test]
fn clear_empties_both_partitions_and_frees_all_placeholders() {
    let mut tm = TileMap::new();
    let mut cache = TilesCache::new();
    let pattern = vec![vec![true, true, true], vec![true, false, true]];
    tm.stamp_pattern(v(0, 0), &pattern);
    cache.sync(&mut tm);
    assert!(cache.tiles.iter().any(|t| t.assigned.is_some()));
    tm.clear(&mut cache);
    assert_eq!(tm.current_state.len(), 0);
    assert_eq!(tm.stable_current_state.len(), 0);
    assert!(cache.tiles.iter().all(|t| t.assigned.is_none()));
}
