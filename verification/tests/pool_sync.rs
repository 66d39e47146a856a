//! Tests for the placeholder pool: the reconciliation invariant, its
//! idempotence, the despawn hysteresis, and the rate limiter.

use gameoflife2d::cell_store::TileMap;
use gameoflife2d::pool::TilesCache;
use gameoflife2d::sched::RefreshTimer;
use gameoflife2d::uvec3::uVec3;
use gameoflife2d::UPDATE_COUNT_LIMIT;

fn v(x: i32, y: i32) -> uVec3 {
    uVec3::new(x, y, 0)
}

fn assigned(cache: &TilesCache) -> usize {
    cache.tiles.iter().filter(|t| t.assigned.is_some()).count()
}

fn check_pool_invariant(tm: &TileMap, cache: &TilesCache) {
    let live: Vec<_> = tm
        .current_state
        .iter()
        .chain(tm.stable_current_state.iter())
        .collect();
    // every live cell owns a placeholder that shows its coordinate
    for e in live.iter() {
        let k = e.1.placeholder.expect("live cell without a placeholder");
        assert_eq!(cache.tiles[k].assigned, Some(e.0));
    }
    // no two live cells share a placeholder
    for (a, ea) in live.iter().enumerate() {
        for eb in live.iter().skip(a + 1) {
            assert_ne!(ea.1.placeholder, eb.1.placeholder);
        }
    }
    // every assigned placeholder belongs to a live cell
    assert_eq!(assigned(cache), live.len());
}

#[test]
fn sync_assigns_one_placeholder_per_live_cell() {
    let mut tm = TileMap::new();
    let mut cache = TilesCache::new();
    let glider = vec![
        vec![false, false, true],
        vec![true, false, true],
        vec![false, true, true],
    ];
    tm.stamp_pattern(v(0, 0), &glider);
    cache.sync(&mut tm);
    assert_eq!(cache.tiles.len(), 5);
    check_pool_invariant(&tm, &cache);
}

#[test]
fn sync_twice_without_store_change_is_a_noop() {
    let mut tm = TileMap::new();
    let mut cache = TilesCache::new();
    tm.stamp_pattern(v(0, 0), &vec![vec![true, true], vec![true, true]]);
    cache.sync(&mut tm);
    let tiles_before: Vec<_> = cache.tiles.iter().map(|t| t.assigned).collect();
    let cells_before: Vec<_> = tm.current_state.iter().map(|e| (e.0, e.1.placeholder)).collect();
    cache.sync(&mut tm);
    let tiles_after: Vec<_> = cache.tiles.iter().map(|t| t.assigned).collect();
    let cells_after: Vec<_> = tm.current_state.iter().map(|e| (e.0, e.1.placeholder)).collect();
    assert_eq!(tiles_before, tiles_after);
    assert_eq!(cells_before, cells_after);
}

#[test]
fn placeholders_survive_stepping_and_demotion() {
    let mut tm = TileMap::new();
    let mut cache = TilesCache::new();
    tm.stamp_pattern(v(0, 0), &vec![vec![true, true], vec![true, true]]);
    cache.sync(&mut tm);
    let before: Vec<_> = tm.current_state.iter().map(|e| (e.0, e.1.placeholder)).collect();
    tm.toggle_running();
    for _ in 0..UPDATE_COUNT_LIMIT {
        tm.run_simulation();
    }
    // all four are stable now, each still holding the placeholder it was
    // given before stabilization
    assert_eq!(tm.stable_current_state.len(), 4);
    for e in tm.stable_current_state.iter() {
        let old = before.iter().find(|(c, _)| *c == e.0).unwrap();
        assert_eq!(e.1.placeholder, old.1);
    }
    cache.sync(&mut tm);
    check_pool_invariant(&tm, &cache);
    assert_eq!(cache.tiles.len(), 4);
}

#[test]
fn freed_placeholders_are_parked_at_or_under_the_threshold() {
    let mut tm = TileMap::new();
    let mut cache = TilesCache::new();
    // five live cells in a row, then all but one removed: 4 of 5
    // placeholders (exactly 80 percent) sit free, which is not beyond the
    // threshold, so they are parked rather than despawned
    tm.stamp_pattern(v(0, 0), &vec![vec![true, true, true, true, true]]);
    cache.sync(&mut tm);
    assert_eq!(cache.tiles.len(), 5);
    for y in 1..5 {
        tm.toggle_cell(v(0, y), false);
    }
    cache.sync(&mut tm);
    assert_eq!(cache.tiles.len(), 5);
    assert_eq!(assigned(&cache), 1);
    check_pool_invariant(&tm, &cache);
}

#[test]
fn far_excess_placeholders_are_despawned() {
    let mut tm = TileMap::new();
    let mut cache = TilesCache::new();
    // ten live cells, then nine removed: 90 percent free is beyond the
    // threshold and the excess is despawned outright
    tm.stamp_pattern(v(0, 0), &vec![vec![true; 10]]);
    cache.sync(&mut tm);
    assert_eq!(cache.tiles.len(), 10);
    for y in 1..10 {
        tm.toggle_cell(v(0, y), false);
    }
    cache.sync(&mut tm);
    assert_eq!(cache.tiles.len(), 1);
    assert_eq!(assigned(&cache), 1);
    check_pool_invariant(&tm, &cache);
}

#[test]
fn pool_grows_on_demand_and_reuses_freed_placeholders() {
    let mut tm = TileMap::new();
    let mut cache = TilesCache::new();
    tm.stamp_pattern(v(0, 0), &vec![vec![true, true, true]]);
    cache.sync(&mut tm);
    assert_eq!(cache.tiles.len(), 3);
    // one dies, one is born elsewhere: the freed placeholder is reused
    tm.toggle_cell(v(0, 0), false);
    tm.toggle_cell(v(7, 7), true);
    cache.sync(&mut tm);
    assert_eq!(cache.tiles.len(), 3);
    check_pool_invariant(&tm, &cache);
}

#[test]
fn stale_placeholder_of_a_dead_cell_is_released() {
    let mut tm = TileMap::new();
    let mut cache = TilesCache::new();
    tm.stamp_pattern(v(0, 0), &vec![vec![true, true]]);
    cache.sync(&mut tm);
    let k = tm.current_state[0].1.placeholder.unwrap();
    let dead = tm.current_state[0].0;
    tm.toggle_cell(dead, false);
    cache.sync(&mut tm);
    assert_ne!(cache.tiles[k].assigned, Some(dead));
    check_pool_invariant(&tm, &cache);
}

#[test]
fn timer_with_zero_interval_fires_every_tick() {
    let mut t = RefreshTimer::new(0, 0);
    assert!(t.due(0));
    assert!(t.due(0));
    assert!(t.due(100));
}

#[test]
fn timer_fires_only_after_its_interval() {
    let mut t = RefreshTimer::new(1000, 10);
    assert!(!t.due(1009));
    assert!(t.due(1010));
    // firing moved the last-run time forward
    assert_eq!(t.last_refresh, 1010);
    assert!(!t.due(1019));
    assert!(t.due(1021));
    assert_eq!(t.last_refresh, 1021);
}

#[test]
fn failed_attempt_leaves_the_timer_unchanged() {
    let mut t = RefreshTimer::new(500, 100);
    assert!(!t.due(550));
    assert_eq!(t.last_refresh, 500);
    assert_eq!(t.time_between_refresh, 100);
}

#[test]
fn coordinate_constructor_stores_its_components() {
    let c = uVec3::new(-3, 7, 0);
    assert_eq!(c.x, -3);
    assert_eq!(c.y, 7);
    assert_eq!(c.z, 0);
}

#[test]
fn live_cells_view_lists_every_live_cell_with_its_placeholder() {
    let mut tm = TileMap::new();
    let mut cache = TilesCache::new();
    tm.stamp_pattern(v(0, 0), &vec![vec![true, true], vec![true, true]]);
    cache.sync(&mut tm);
    let view = tm.live_cells();
    assert_eq!(view.len(), 4);
    for (c, ph) in view.iter() {
        let k = ph.expect("synced cell without a placeholder");
        assert_eq!(cache.tiles[k].assigned, Some(*c));
    }
}

#[test]
fn free_placeholder_list_names_exactly_the_unassigned_ones() {
    let mut tm = TileMap::new();
    let mut cache = TilesCache::new();
    tm.stamp_pattern(v(0, 0), &vec![vec![true, true, true, true, true]]);
    cache.sync(&mut tm);
    for y in 1..5 {
        tm.toggle_cell(v(0, y), false);
    }
    cache.sync(&mut tm);
    let free = cache.free_placeholders();
    assert_eq!(free.len(), 4);
    for &k in free.iter() {
        assert!(cache.tiles[k].assigned.is_none());
    }
    assert_eq!(free.len() + assigned(&cache), cache.tiles.len());
}
