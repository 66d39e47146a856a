//! One synchronous generation of the automaton: classic Game-of-Life
//! survival and birth over the 8-neighborhood, restricted to the
//! neighborhoods of active cells, with demotion of long-unchanged active
//! cells and waking of stable cells near a birth or death.

use vstd::prelude::*;
use vstd::map::*;
use crate::uvec3::{uVec3, within, in_margin, within_dist, seq_has_coord, distinct_ucoords};
use crate::cell_store::{
    Cell, GridState, TileMap, live_at, cell_at, wf_state, entries_map, distinct_coords,
    lemma_entries_map_contains, lemma_entries_map_value, lemma_wf_state,
};
use crate::UPDATE_COUNT_LIMIT;
use crate::UNSTABLE_CHANGER_LIMIT;

verus! {

pub open spec fn one_if(b: bool) -> int {
    if b {
        1
    } else {
        0
    }
}

/// Number of live cells among the 8 neighbors of `(x, y)`, both partitions
/// counted alike.
#[verifier::opaque]
pub open spec fn neighbor_total(st: GridState, x: int, y: int) -> int {
    one_if(live_at(st, x - 1, y - 1)) + one_if(live_at(st, x, y - 1)) + one_if(
        live_at(st, x + 1, y - 1),
    ) + one_if(live_at(st, x - 1, y)) + one_if(live_at(st, x + 1, y)) + one_if(
        live_at(st, x - 1, y + 1),
    ) + one_if(live_at(st, x, y + 1)) + one_if(live_at(st, x + 1, y + 1))
}

/// `(x, y)` lies in the 3×3 block of some active cell, so the step
/// examines it.
#[verifier::opaque]
pub open spec fn near_active(st: GridState, x: int, y: int) -> bool {
    exists|px: int, py: int| #[trigger] st.active.contains_key((px, py)) && within((px, py), (x, y), 1)
}

/// A dead examined point with exactly three live neighbors is born.
pub open spec fn born_at(st: GridState, x: int, y: int) -> bool {
    &&& !live_at(st, x, y)
    &&& near_active(st, x, y)
    &&& neighbor_total(st, x, y) == 3
}

/// An active cell with two or three live neighbors survives the tick.
pub open spec fn survives_at(st: GridState, x: int, y: int) -> bool {
    &&& st.active.contains_key((x, y))
    &&& 2 <= neighbor_total(st, x, y) <= 3
}

/// An active cell with fewer than two or more than three live neighbors
/// dies.  Stable cells are not examined, so only active cells can die.
pub open spec fn dies_at(st: GridState, x: int, y: int) -> bool {
    &&& st.active.contains_key((x, y))
    &&& !(2 <= neighbor_total(st, x, y) <= 3)
}

/// A change happens at `(x, y)` this tick: a birth or a death.
pub open spec fn event_at(st: GridState, x: int, y: int) -> bool {
    born_at(st, x, y) || dies_at(st, x, y)
}

/// Some birth or death happens within the wake radius of `(x, y)`.
#[verifier::opaque]
pub open spec fn near_event(st: GridState, x: int, y: int) -> bool {
    exists|qx: int, qy: int| #[trigger] event_at(st, qx, qy) && within(
        (qx, qy),
        (x, y),
        UNSTABLE_CHANGER_LIMIT as int,
    )
}

/// A stable cell near a birth or death is woken back into the active
/// partition this tick.
pub open spec fn woken_at(st: GridState, x: int, y: int) -> bool {
    st.stable.contains_key((x, y)) && near_event(st, x, y)
}

/// Membership in the active partition of the next generation.
pub open spec fn next_active_at(st: GridState, x: int, y: int) -> bool {
    ||| born_at(st, x, y)
    ||| survives_at(st, x, y) && st.active[(x, y)].ttl > 1
    ||| woken_at(st, x, y)
}

/// The record an active cell of the next generation carries.
pub open spec fn next_active_cell(st: GridState, x: int, y: int) -> Cell {
    if born_at(st, x, y) {
        Cell { placeholder: None, ttl: UPDATE_COUNT_LIMIT }
    } else if survives_at(st, x, y) {
        Cell {
            placeholder: st.active[(x, y)].placeholder,
            ttl: (st.active[(x, y)].ttl - 1) as u32,
        }
    } else {
        Cell { placeholder: st.stable[(x, y)].placeholder, ttl: UPDATE_COUNT_LIMIT }
    }
}

/// Membership in the stable partition of the next generation: an active
/// survivor whose countdown just ran out, or a stable cell nothing woke.
pub open spec fn next_stable_at(st: GridState, x: int, y: int) -> bool {
    ||| survives_at(st, x, y) && st.active[(x, y)].ttl <= 1
    ||| st.stable.contains_key((x, y)) && !near_event(st, x, y)
}

/// The record a stable cell of the next generation carries.
pub open spec fn next_stable_cell(st: GridState, x: int, y: int) -> Cell {
    if survives_at(st, x, y) {
        Cell { placeholder: st.active[(x, y)].placeholder, ttl: 0 }
    } else {
        st.stable[(x, y)]
    }
}

/// The next generation, as a function of the current one.
pub open spec fn step_spec(st: GridState) -> GridState {
    GridState {
        active: Map::new(
            |p: (int, int)| next_active_at(st, p.0, p.1),
            |p: (int, int)| next_active_cell(st, p.0, p.1),
        ),
        stable: Map::new(
            |p: (int, int)| next_stable_at(st, p.0, p.1),
            |p: (int, int)| next_stable_cell(st, p.0, p.1),
        ),
    }
}

/// Every active cell of `tm` keeps Chebyshev distance `m` from the edge of
/// the `i32` range, so the step can address its whole neighborhood.
pub open spec fn active_in_margin(tm: TileMap, m: int) -> bool {
    forall|i: int|
        0 <= i < tm.current_state@.len() ==> in_margin(
            (#[trigger] tm.current_state@[i]).0.x as int,
            tm.current_state@[i].0.y as int,
            m,
        )
}

/// Count the live neighbors of `(x, y)`.
pub fn neighbor_count(tm: &TileMap, x: i32, y: i32) -> (n: u32)
    requires
        tm.wf(),
        in_margin(x as int, y as int, 1),
    ensures
        n == neighbor_total(tm@, x as int, y as int),
{
    proof {
        reveal(neighbor_total);
    }
    let mut n: u32 = 0;
    if tm.is_alive(uVec3::new(x - 1, y - 1, 0)) {
        n = n + 1;
    }
    if tm.is_alive(uVec3::new(x, y - 1, 0)) {
        n = n + 1;
    }
    if tm.is_alive(uVec3::new(x + 1, y - 1, 0)) {
        n = n + 1;
    }
    if tm.is_alive(uVec3::new(x - 1, y, 0)) {
        n = n + 1;
    }
    if tm.is_alive(uVec3::new(x + 1, y, 0)) {
        n = n + 1;
    }
    if tm.is_alive(uVec3::new(x - 1, y + 1, 0)) {
        n = n + 1;
    }
    if tm.is_alive(uVec3::new(x, y + 1, 0)) {
        n = n + 1;
    }
    if tm.is_alive(uVec3::new(x + 1, y + 1, 0)) {
        n = n + 1;
    }
    n
}

/// Whether some entry of `v` names the point `(x, y)`.
fn contains_coord(v: &Vec<uVec3>, x: i32, y: i32) -> (r: bool)
    ensures
        r == seq_has_coord(v@, x as int, y as int),
{
    let mut k: usize = 0;
    while k < v.len()
        invariant
            k <= v@.len(),
            forall|j: int| 0 <= j < k ==> (#[trigger] v@[j]).xy() != (x as int, y as int),
        decreases v@.len() - k,
    {
        if v[k].x == x && v[k].y == y {
            assert(v@[k as int].xy() == (x as int, y as int));
            return true;
        }
        k = k + 1;
    }
    false
}

/// Record `(x, y)` as a birth if it is a dead examined point with exactly
/// three live neighbors and is not recorded yet.
fn consider_birth(tm: &TileMap, x: i32, y: i32, births: &mut Vec<uVec3>)
    requires
        tm.wf(),
        in_margin(x as int, y as int, 1),
        near_active(tm@, x as int, y as int),
    ensures
        final(births)@ == if born_at(tm@, x as int, y as int) && !seq_has_coord(
            old(births)@,
            x as int,
            y as int,
        ) {
            old(births)@.push(uVec3 { x, y, z: 0 })
        } else {
            old(births)@
        },
{
    if !tm.is_alive(uVec3::new(x, y, 0)) {
        let n = neighbor_count(tm, x, y);
        if n == 3 {
            if !contains_coord(births, x, y) {
                births.push(uVec3::new(x, y, 0));
            }
        }
    }
}

/// Pushing a coordinate extends the set of named points by exactly it.
proof fn lemma_seq_has_coord_push(s: Seq<uVec3>, v: uVec3)
    ensures
        forall|px: int, py: int|
            seq_has_coord(s.push(v), px, py) <==> seq_has_coord(s, px, py) || v.xy() == (px, py),
{
    assert forall|px: int, py: int|
        seq_has_coord(s.push(v), px, py) <==> seq_has_coord(s, px, py) || v.xy() == (
        px,
        py,
    ) by {
        if seq_has_coord(s.push(v), px, py) {
            let k = choose|k: int|
                0 <= k < s.push(v).len() && (#[trigger] s.push(v)[k]).xy() == (px, py);
            if k < s.len() {
                assert(s.push(v)[k] == s[k]);
                assert((#[trigger] s[k]).xy() == (px, py));
            } else {
                assert(s.push(v)[k] == v);
            }
        }
        if seq_has_coord(s, px, py) {
            let k = choose|k: int| 0 <= k < s.len() && (#[trigger] s[k]).xy() == (px, py);
            assert((#[trigger] s.push(v)[k]).xy() == (px, py));
        }
        if v.xy() == (px, py) {
            assert((#[trigger] s.push(v)[s.len() as int]).xy() == (px, py));
        }
    }
}

/// The block offsets already examined after `k` turns of the 3×3 scan
/// around `(cx, cy)`, walked row by row.
pub open spec fn block_covered(k: int, cx: int, cy: int, px: int, py: int) -> bool {
    (py - cy + 1) * 3 + (px - cx + 1) < k
}

/// Evaluate one active cell against the previous generation: stage every
/// birth of its 3×3 block into `births`, and stage the cell's own fate —
/// death into `deaths`, survival into `new_active` with its countdown
/// decremented, or demotion into `new_stable` when the countdown runs out.
#[allow(non_snake_case)]
#[verifier::loop_isolation(false)]
pub fn checkArround(
    tm: &TileMap,
    pos: uVec3,
    births: &mut Vec<uVec3>,
    deaths: &mut Vec<uVec3>,
    new_active: &mut Vec<(uVec3, Cell)>,
    new_stable: &mut Vec<(uVec3, Cell)>,
)
    requires
        tm.wf(),
        pos.z == 0,
        tm@.active.contains_key(pos.xy()),
        in_margin(pos.x as int, pos.y as int, 2),
        distinct_ucoords(old(births)@),
        forall|i: int| 0 <= i < old(births)@.len() ==> (#[trigger] old(births)@[i]).z == 0,
    ensures
        distinct_ucoords(final(births)@),
        forall|i: int| 0 <= i < final(births)@.len() ==> (#[trigger] final(births)@[i]).z == 0,
        forall|px: int, py: int|
            seq_has_coord(final(births)@, px, py) <==> seq_has_coord(old(births)@, px, py) || (
            within((px, py), pos.xy(), 1) && born_at(tm@, px, py)),
        dies_at(tm@, pos.x as int, pos.y as int) ==> final(deaths)@ == old(deaths)@.push(pos)
            && final(new_active)@ == old(new_active)@ && final(new_stable)@ == old(new_stable)@,
        !dies_at(tm@, pos.x as int, pos.y as int) && tm@.active[pos.xy()].ttl > 1 ==> final(new_active)@ == old(new_active)@.push(
            (
                pos,
                (Cell {
                    placeholder: tm@.active[pos.xy()].placeholder,
                    ttl: (tm@.active[pos.xy()].ttl - 1) as u32,
                }),
            ),
        ) && final(deaths)@ == old(deaths)@ && final(new_stable)@ == old(new_stable)@,
        !dies_at(tm@, pos.x as int, pos.y as int) && tm@.active[pos.xy()].ttl <= 1 ==> final(new_stable)@ == old(new_stable)@.push(
            (pos, (Cell { placeholder: tm@.active[pos.xy()].placeholder, ttl: 0 })),
        ) && final(deaths)@ == old(deaths)@ && final(new_active)@ == old(new_active)@,
{
    let ghost st = tm@;
    let ghost b0 = births@;
    let ghost cx = pos.x as int;
    let ghost cy = pos.y as int;
    let mut k: usize = 0;
    while k < 9
        invariant
            k <= 9,
            distinct_ucoords(births@),
            forall|i: int| 0 <= i < births@.len() ==> (#[trigger] births@[i]).z == 0,
            forall|px: int, py: int|
                seq_has_coord(births@, px, py) <==> seq_has_coord(b0, px, py) || (within(
                    (px, py),
                    (cx, cy),
                    1,
                ) && born_at(st, px, py) && block_covered(k as int, cx, cy, px, py)),
        decreases 9 - k,
    {
        let dx: i32 = (k as i32) % 3 - 1;
        let dy: i32 = (k as i32) / 3 - 1;
        let x = pos.x + dx;
        let y = pos.y + dy;
        proof {
            reveal(near_active);
            assert(st.active.contains_key((pos.x as int, pos.y as int)));
            assert(within((pos.x as int, pos.y as int), (x as int, y as int), 1));
            assert(near_active(st, x as int, y as int));
        }
        let ghost bprev = births@;
        consider_birth(tm, x, y, births);
        proof {
            let pushed = born_at(st, x as int, y as int) && !seq_has_coord(
                bprev,
                x as int,
                y as int,
            );
            if pushed {
                lemma_seq_has_coord_push(bprev, uVec3 { x, y, z: 0 });
                assert forall|a: int, b: int| 0 <= a < b < births@.len() implies (
                #[trigger] births@[a]).xy() != (#[trigger] births@[b]).xy() by {
                    if b == births@.len() - 1 {
                        assert(births@[a] == bprev[a]);
                        if births@[a].xy() == (x as int, y as int) {
                            assert(seq_has_coord(bprev, x as int, y as int));
                        }
                    } else {
                        assert(births@[a] == bprev[a] && births@[b] == bprev[b]);
                    }
                }
                assert forall|i: int| 0 <= i < births@.len() implies (
                #[trigger] births@[i]).z == 0 by {
                    if i < births@.len() - 1 {
                        assert(births@[i] == bprev[i]);
                    }
                }
            }
            // the freshly examined offset is exactly index `k` of the block
            assert((y as int - cy + 1) * 3 + (x as int - cx + 1) == k as int);
            assert forall|px: int, py: int|
                seq_has_coord(births@, px, py) <==> seq_has_coord(b0, px, py) || (within(
                    (px, py),
                    (cx, cy),
                    1,
                ) && born_at(st, px, py) && block_covered(k as int + 1, cx, cy, px, py)) by {
                if within((px, py), (cx, cy), 1) && (px, py) != (x as int, y as int) {
                    assert((py - cy + 1) * 3 + (px - cx + 1) != k as int);
                }
            }
        }
        k = k + 1;
    }
    // fate of the originating cell itself
    let n = neighbor_count(tm, pos.x, pos.y);
    if n < 2 || n > 3 {
        deaths.push(pos);
    } else {
        match tm.get(pos) {
            Some(cell) => {
                let ph = cell.placeholder;
                let t = cell.ttl;
                proof {
                    assert(cell_at(st, pos.x as int, pos.y as int) == st.active[pos.xy()]);
                }
                if t > 1 {
                    new_active.push((pos, Cell { placeholder: ph, ttl: t - 1 }));
                } else {
                    new_stable.push((pos, Cell { placeholder: ph, ttl: 0 }));
                }
            },
            None => unreached(),
        }
    }
}

/// The staged birth list names exactly the points born this tick.
pub open spec fn births_exact(st: GridState, s: Seq<uVec3>) -> bool {
    &&& forall|i: int|
        0 <= i < s.len() ==> born_at(st, (#[trigger] s[i]).x as int, s[i].y as int)
    &&& forall|px: int, py: int| #[trigger] born_at(st, px, py) ==> seq_has_coord(s, px, py)
}

/// The staged death list names exactly the points that die this tick.
pub open spec fn deaths_exact(st: GridState, s: Seq<uVec3>) -> bool {
    &&& forall|i: int|
        0 <= i < s.len() ==> dies_at(st, (#[trigger] s[i]).x as int, s[i].y as int)
    &&& forall|px: int, py: int| #[trigger] dies_at(st, px, py) ==> seq_has_coord(s, px, py)
}

/// Whether a staged birth or death lies within the wake radius of `s`.
#[verifier::loop_isolation(false)]
fn is_woken(tm: &TileMap, births: &Vec<uVec3>, deaths: &Vec<uVec3>, s: uVec3) -> (r: bool)
    requires
        births_exact(tm@, births@),
        deaths_exact(tm@, deaths@),
    ensures
        r == near_event(tm@, s.x as int, s.y as int),
{
    let ghost st = tm@;
    let mut k: usize = 0;
    while k < births.len()
        invariant
            k <= births@.len(),
            forall|i: int|
                0 <= i < k ==> !within(
                    (#[trigger] births@[i]).xy(),
                    s.xy(),
                    UNSTABLE_CHANGER_LIMIT as int,
                ),
        decreases births@.len() - k,
    {
        if within_dist(births[k], s, UNSTABLE_CHANGER_LIMIT) {
            proof {
                reveal(near_event);
                let b = births@[k as int];
                assert(event_at(st, b.x as int, b.y as int));
            }
            return true;
        }
        k = k + 1;
    }
    let mut k2: usize = 0;
    while k2 < deaths.len()
        invariant
            k2 <= deaths@.len(),
            forall|i: int|
                0 <= i < k2 ==> !within(
                    (#[trigger] deaths@[i]).xy(),
                    s.xy(),
                    UNSTABLE_CHANGER_LIMIT as int,
                ),
        decreases deaths@.len() - k2,
    {
        if within_dist(deaths[k2], s, UNSTABLE_CHANGER_LIMIT) {
            proof {
                reveal(near_event);
                let d = deaths@[k2 as int];
                assert(event_at(st, d.x as int, d.y as int));
            }
            return true;
        }
        k2 = k2 + 1;
    }
    proof {
        reveal(near_event);
        if near_event(st, s.x as int, s.y as int) {
            let (qx, qy) = choose|qx: int, qy: int|
                #[trigger] event_at(st, qx, qy) && within(
                    (qx, qy),
                    s.xy(),
                    UNSTABLE_CHANGER_LIMIT as int,
                );
            if born_at(st, qx, qy) {
                let i = choose|i: int|
                    0 <= i < births@.len() && (#[trigger] births@[i]).xy() == (qx, qy);
                assert(!within(births@[i].xy(), s.xy(), UNSTABLE_CHANGER_LIMIT as int));
            } else {
                let i = choose|i: int|
                    0 <= i < deaths@.len() && (#[trigger] deaths@[i]).xy() == (qx, qy);
                assert(!within(deaths@[i].xy(), s.xy(), UNSTABLE_CHANGER_LIMIT as int));
            }
        }
    }
    false
}

/// `dst` stages the survival of the active entry `src` into the next
/// active partition.
spec fn survivor_entry(st: GridState, src: (uVec3, Cell), dst: (uVec3, Cell)) -> bool {
    &&& dst.0 == src.0
    &&& survives_at(st, src.0.x as int, src.0.y as int)
    &&& src.1.ttl > 1
    &&& dst.1 == (Cell { placeholder: src.1.placeholder, ttl: (src.1.ttl - 1) as u32 })
}

/// `dst` stages the demotion of the active entry `src` into the next
/// stable partition.
spec fn demoted_entry(st: GridState, src: (uVec3, Cell), dst: (uVec3, Cell)) -> bool {
    &&& dst.0 == src.0
    &&& survives_at(st, src.0.x as int, src.0.y as int)
    &&& src.1.ttl <= 1
    &&& dst.1 == (Cell { placeholder: src.1.placeholder, ttl: 0 })
}

/// `dst` stages the waking of the stable entry `src`.
spec fn woken_entry(st: GridState, src: (uVec3, Cell), dst: (uVec3, Cell)) -> bool {
    &&& dst.0 == src.0
    &&& near_event(st, src.0.x as int, src.0.y as int)
    &&& dst.1 == (Cell { placeholder: src.1.placeholder, ttl: UPDATE_COUNT_LIMIT })
}

/// `dst` stages a birth at `src`.
spec fn born_entry(src: uVec3, dst: (uVec3, Cell)) -> bool {
    &&& dst.0 == src
    &&& dst.1 == (Cell { placeholder: None, ttl: UPDATE_COUNT_LIMIT })
}

/// Some entry of `s` is at the point `p`.
pub open spec fn has_entry_coord(s: Seq<(uVec3, Cell)>, p: (int, int)) -> bool {
    exists|k: int| 0 <= k < s.len() && (#[trigger] s[k]).0.xy() == p
}

/// Appending an entry keeps every point the sequence already names.
proof fn lemma_has_entry_push_all(s: Seq<(uVec3, Cell)>, e: (uVec3, Cell))
    ensures
        forall|p: (int, int)| has_entry_coord(s, p) ==> #[trigger] has_entry_coord(s.push(e), p),
        has_entry_coord(s.push(e), e.0.xy()),
{
    assert forall|p: (int, int)| has_entry_coord(s, p) implies #[trigger] has_entry_coord(
        s.push(e),
        p,
    ) by {
        let k = choose|k: int| 0 <= k < s.len() && (#[trigger] s[k]).0.xy() == p;
        assert((#[trigger] s.push(e)[k]).0.xy() == p);
    }
    assert((#[trigger] s.push(e)[s.len() as int]).0.xy() == e.0.xy());
}

/// Appending one staged birth: the new entry is distinct from everything
/// staged so far, every staged point survives, and the provenance of each
/// entry extends to the grown prefix of the birth list.
proof fn lemma_append_birth(
    st: GridState,
    act: Seq<(uVec3, Cell)>,
    stab: Seq<(uVec3, Cell)>,
    births: Seq<uVec3>,
    pa: Seq<(uVec3, Cell)>,
    bdx: int,
)
    requires
        st == (GridState { active: entries_map(act), stable: entries_map(stab) }),
        births_exact(st, births),
        distinct_ucoords(births),
        0 <= bdx < births.len(),
        distinct_coords(pa),
        forall|i: int|
            0 <= i < pa.len() ==> (exists|j: int|
                0 <= j < act.len() && survivor_entry(st, act[j], #[trigger] pa[i])) || (exists|j: int|
                0 <= j < stab.len() && woken_entry(st, stab[j], #[trigger] pa[i])) || (exists|j: int|
                0 <= j < bdx && born_entry(births[j], #[trigger] pa[i])),
    ensures
        ({
            let out = pa.push(
                (births[bdx], (Cell { placeholder: None, ttl: UPDATE_COUNT_LIMIT })),
            );
            &&& distinct_coords(out)
            &&& forall|p: (int, int)|
                has_entry_coord(pa, p) ==> #[trigger] has_entry_coord(out, p)
            &&& has_entry_coord(out, births[bdx].xy())
            &&& forall|i: int|
                0 <= i < out.len() ==> (exists|j: int|
                    0 <= j < act.len() && survivor_entry(st, act[j], #[trigger] out[i])) || (
                exists|j: int|
                    0 <= j < stab.len() && woken_entry(st, stab[j], #[trigger] out[i])) || (
                exists|j: int| 0 <= j < bdx + 1 && born_entry(births[j], #[trigger] out[i]))
        }),
{
    lemma_entries_map_contains(act);
    lemma_entries_map_contains(stab);
    let e = (births[bdx], (Cell { placeholder: None, ttl: UPDATE_COUNT_LIMIT }));
    let out = pa.push(e);
    lemma_has_entry_push_all(pa, e);
    assert(born_at(st, births[bdx].x as int, births[bdx].y as int));
    assert(born_entry(births[bdx], out[pa.len() as int]));
    assert forall|i: int|
        0 <= i < out.len() implies (exists|j: int|
        0 <= j < act.len() && survivor_entry(st, act[j], #[trigger] out[i])) || (exists|j: int|
        0 <= j < stab.len() && woken_entry(st, stab[j], #[trigger] out[i])) || (exists|j: int|
        0 <= j < bdx + 1 && born_entry(births[j], #[trigger] out[i])) by {
        if i < pa.len() {
            assert(out[i] == pa[i]);
        } else {
            assert(out[i] == e);
            assert(born_entry(births[bdx], out[i]));
        }
    }
    assert forall|x1: int, x2: int| 0 <= x1 < x2 < out.len() implies (
    #[trigger] out[x1]).0.xy() != (#[trigger] out[x2]).0.xy() by {
        if x2 == pa.len() as int {
            assert(out[x1] == pa[x1]);
            let q = births[bdx].xy();
            assert(!live_at(st, q.0, q.1));
            if exists|j: int| 0 <= j < act.len() && survivor_entry(st, act[j], pa[x1]) {
                let j2 = choose|j: int| 0 <= j < act.len() && survivor_entry(st, act[j], pa[x1]);
                assert(st.active.contains_key(act[j2].0.xy()));
                assert(live_at(st, act[j2].0.xy().0, act[j2].0.xy().1));
            } else if exists|j: int| 0 <= j < stab.len() && woken_entry(st, stab[j], pa[x1]) {
                let j2 = choose|j: int| 0 <= j < stab.len() && woken_entry(st, stab[j], pa[x1]);
                assert(st.stable.contains_key(stab[j2].0.xy()));
                assert(live_at(st, stab[j2].0.xy().0, stab[j2].0.xy().1));
            } else {
                let j2 = choose|j: int| 0 <= j < bdx && born_entry(births[j], pa[x1]);
                assert(births[j2].xy() != births[bdx].xy());
            }
        } else {
            assert(out[x1] == pa[x1] && out[x2] == pa[x2]);
        }
    }
}

/// The staged active entries after appending the first `n` births.
spec fn with_births(base: Seq<(uVec3, Cell)>, births: Seq<uVec3>, n: int) -> Seq<(uVec3, Cell)>
    decreases n,
{
    if n <= 0 {
        base
    } else {
        with_births(base, births, n - 1).push(
            (births[n - 1], Cell { placeholder: None, ttl: UPDATE_COUNT_LIMIT }),
        )
    }
}

/// Appending the first `n` births to survivors and woken cells keeps every
/// entry distinct and extends each entry's provenance.
proof fn lemma_with_births_facts(
    st: GridState,
    act: Seq<(uVec3, Cell)>,
    stab: Seq<(uVec3, Cell)>,
    births: Seq<uVec3>,
    base: Seq<(uVec3, Cell)>,
    n: int,
)
    requires
        st == (GridState { active: entries_map(act), stable: entries_map(stab) }),
        births_exact(st, births),
        distinct_ucoords(births),
        0 <= n <= births.len(),
        distinct_coords(base),
        forall|i: int|
            0 <= i < base.len() ==> (exists|j: int|
                0 <= j < act.len() && survivor_entry(st, act[j], #[trigger] base[i])) || (exists|j: int|
                0 <= j < stab.len() && woken_entry(st, stab[j], #[trigger] base[i])),
    ensures
        ({
            let ext = with_births(base, births, n);
            &&& ext.len() == base.len() + n
            &&& forall|i: int| 0 <= i < base.len() ==> #[trigger] ext[i] == base[i]
            &&& forall|i: int|
                base.len() <= i < base.len() + n ==> #[trigger] ext[i] == (
                births[i - base.len()],
                (Cell { placeholder: None, ttl: UPDATE_COUNT_LIMIT }),
                )
            &&& distinct_coords(ext)
            &&& forall|p: (int, int)|
                has_entry_coord(base, p) ==> #[trigger] has_entry_coord(ext, p)
            &&& forall|j: int| 0 <= j < n ==> has_entry_coord(ext, (#[trigger] births[j]).xy())
            &&& forall|i: int|
                0 <= i < ext.len() ==> (exists|j: int|
                    0 <= j < act.len() && survivor_entry(st, act[j], #[trigger] ext[i])) || (
                exists|j: int|
                    0 <= j < stab.len() && woken_entry(st, stab[j], #[trigger] ext[i])) || (
                exists|j: int| 0 <= j < n && born_entry(births[j], #[trigger] ext[i]))
        }),
    decreases n,
{
    let ext = with_births(base, births, n);
    if n == 0 {
        assert forall|i: int|
            0 <= i < ext.len() implies (exists|j: int|
            0 <= j < act.len() && survivor_entry(st, act[j], #[trigger] ext[i])) || (exists|j: int|
            0 <= j < stab.len() && woken_entry(st, stab[j], #[trigger] ext[i])) || (exists|j: int|
            0 <= j < 0 && born_entry(births[j], #[trigger] ext[i])) by {
            assert(ext[i] == base[i]);
        }
    } else {
        let prev = with_births(base, births, n - 1);
        lemma_with_births_facts(st, act, stab, births, base, n - 1);
        lemma_append_birth(st, act, stab, births, prev, n - 1);
        assert(ext == prev.push(
            (births[n - 1], Cell { placeholder: None, ttl: UPDATE_COUNT_LIMIT }),
        ));
        assert forall|i: int|
            base.len() <= i < base.len() + n implies #[trigger] ext[i] == (
            births[i - base.len()],
            (Cell { placeholder: None, ttl: UPDATE_COUNT_LIMIT }),
            ) by {
            if i < base.len() + (n - 1) {
                assert(ext[i] == prev[i]);
            } else {
                assert(ext[i] == (births[n - 1], Cell { placeholder: None, ttl: UPDATE_COUNT_LIMIT }));
            }
        }
        assert forall|j: int| 0 <= j < n implies has_entry_coord(
            ext,
            (#[trigger] births[j]).xy(),
        ) by {
            if j < n - 1 {
                assert(has_entry_coord(prev, births[j].xy()));
            } else {
                assert(has_entry_coord(ext, births[n - 1].xy()));
            }
        }
    }
}

/// No point is both active and stable in the next generation.
pub proof fn lemma_next_partitions_disjoint(st: GridState)
    requires
        wf_state(st),
    ensures
        forall|px: int, py: int|
            !(#[trigger] next_active_at(st, px, py) && #[trigger] next_stable_at(st, px, py)),
{
    assert forall|px: int, py: int|
        !(#[trigger] next_active_at(st, px, py) && #[trigger] next_stable_at(st, px, py)) by {
        if next_active_at(st, px, py) && next_stable_at(st, px, py) {
            if born_at(st, px, py) {
                assert(!live_at(st, px, py));
            } else if woken_at(st, px, py) {
                assert(st.stable.contains_key((px, py)));
                assert(!st.active.contains_key((px, py)));
            }
        }
    }
}

impl TileMap {
    /// Flip the running flag; an edge-triggered user command.
    pub fn toggle_running(&mut self)
        ensures
            final(self).running == !old(self).running,
            final(self).current_state@ == old(self).current_state@,
            final(self).stable_current_state@ == old(self).stable_current_state@,
    {
        self.running = !self.running;
    }

    /// Advance one generation when the simulation is running.  The whole
    /// pass is computed from a snapshot of the current generation and
    /// committed at once, so births, deaths, demotions and wakes within one
    /// tick never see each other.
    #[verifier::rlimit(100)]
    pub fn run_simulation(&mut self)
        requires
            old(self).wf(),
            active_in_margin(*old(self), 2),
        ensures
            final(self).wf(),
            final(self).running == old(self).running,
            !old(self).running ==> final(self).current_state@ == old(self).current_state@
                && final(self).stable_current_state@ == old(self).stable_current_state@,
            old(self).running ==> final(self)@.active == step_spec(old(self)@).active
                && final(self)@.stable == step_spec(old(self)@).stable,
    {
        if !self.running {
            return ;
        }
        let ghost st = self@;
        let ghost act = self.current_state@;
        let ghost stab = self.stable_current_state@;
        proof {
            lemma_entries_map_contains(act);
            lemma_entries_map_value(act);
            lemma_entries_map_contains(stab);
            lemma_entries_map_value(stab);
            lemma_wf_state(*self);
        }
        let mut births: Vec<uVec3> = Vec::new();
        let mut deaths: Vec<uVec3> = Vec::new();
        let mut new_active: Vec<(uVec3, Cell)> = Vec::new();
        let mut new_stable: Vec<(uVec3, Cell)> = Vec::new();
        let mut idx: usize = 0;
        while idx < self.current_state.len()
            invariant
                idx <= act.len(),
                self.running,
                self.wf(),
                active_in_margin(*self, 2),
                act == self.current_state@,
                stab == self.stable_current_state@,
                st == self@,
                distinct_ucoords(births@),
                forall|i: int| 0 <= i < births@.len() ==> (#[trigger] births@[i]).z == 0,
                forall|i: int|
                    0 <= i < births@.len() ==> born_at(
                        st,
                        (#[trigger] births@[i]).x as int,
                        births@[i].y as int,
                    ),
                forall|px: int, py: int|
                    #[trigger] born_at(st, px, py) && (exists|j: int|
                        0 <= j < idx && within((px, py), (#[trigger] act[j]).0.xy(), 1))
                        ==> seq_has_coord(births@, px, py),
                forall|i: int|
                    0 <= i < deaths@.len() ==> dies_at(
                        st,
                        (#[trigger] deaths@[i]).x as int,
                        deaths@[i].y as int,
                    ) && deaths@[i].z == 0,
                forall|j: int|
                    0 <= j < idx && dies_at(
                        st,
                        (#[trigger] act[j]).0.x as int,
                        act[j].0.y as int,
                    ) ==> seq_has_coord(deaths@, act[j].0.x as int, act[j].0.y as int),
                forall|i: int|
                    0 <= i < new_active@.len() ==> exists|j: int|
                        0 <= j < idx && survivor_entry(st, act[j], #[trigger] new_active@[i]),
                forall|j: int|
                    0 <= j < idx && survives_at(
                        st,
                        (#[trigger] act[j]).0.x as int,
                        act[j].0.y as int,
                    ) && act[j].1.ttl > 1 ==> has_entry_coord(new_active@, act[j].0.xy()),
                forall|i: int|
                    0 <= i < new_stable@.len() ==> exists|j: int|
                        0 <= j < idx && demoted_entry(st, act[j], #[trigger] new_stable@[i]),
                forall|j: int|
                    0 <= j < idx && survives_at(
                        st,
                        (#[trigger] act[j]).0.x as int,
                        act[j].0.y as int,
                    ) && act[j].1.ttl <= 1 ==> has_entry_coord(new_stable@, act[j].0.xy()),
                distinct_coords(new_active@),
                distinct_coords(new_stable@),
            decreases act.len() - idx,
        {
            proof {
                lemma_entries_map_contains(act);
                lemma_entries_map_value(act);
                lemma_entries_map_contains(stab);
                lemma_entries_map_value(stab);
                lemma_wf_state(*self);
            }
            let e = self.current_state[idx];
            let ghost pb = births@;
            let ghost pd = deaths@;
            let ghost pa = new_active@;
            let ghost ps = new_stable@;
            checkArround(self, e.0, &mut births, &mut deaths, &mut new_active, &mut new_stable);
            proof {
                let ex = e.0.x as int;
                let ey = e.0.y as int;
                assert(st.active[e.0.xy()] == e.1);
                // births bookkeeping
                assert forall|px: int, py: int|
                    #[trigger] born_at(st, px, py) && (exists|j: int|
                        0 <= j < idx + 1 && within((px, py), (#[trigger] act[j]).0.xy(), 1))
                        implies seq_has_coord(births@, px, py) by {
                    let j = choose|j: int|
                        0 <= j < idx + 1 && within((px, py), (#[trigger] act[j]).0.xy(), 1);
                    if j < idx {
                        assert(seq_has_coord(pb, px, py));
                    }
                }
                // fate bookkeeping
                if dies_at(st, ex, ey) {
                    assert(deaths@ == pd.push(e.0));
                    assert forall|i: int|
                        0 <= i < deaths@.len() implies dies_at(
                        st,
                        (#[trigger] deaths@[i]).x as int,
                        deaths@[i].y as int,
                    ) && deaths@[i].z == 0 by {
                        if i < pd.len() {
                            assert(deaths@[i] == pd[i]);
                        } else {
                            assert(deaths@[i] == e.0);
                        }
                    }
                    assert forall|j: int|
                        0 <= j < idx + 1 && dies_at(
                            st,
                            (#[trigger] act[j]).0.x as int,
                            act[j].0.y as int,
                        ) implies seq_has_coord(deaths@, act[j].0.x as int, act[j].0.y as int) by {
                        if j < idx {
                            let i = choose|i: int|
                                0 <= i < pd.len() && (#[trigger] pd[i]).xy() == act[j].0.xy();
                            assert((#[trigger] deaths@[i]).xy() == act[j].0.xy());
                        } else {
                            assert((#[trigger] deaths@[pd.len() as int]).xy() == act[j].0.xy());
                        }
                    }
                } else {
                    if e.1.ttl > 1 {
                        assert(new_active@ == pa.push(
                            (e.0, Cell { placeholder: e.1.placeholder, ttl: (e.1.ttl - 1) as u32 }),
                        ));
                        assert(survivor_entry(st, act[idx as int], new_active@[pa.len() as int]));
                        assert forall|x1: int, x2: int|
                            0 <= x1 < x2 < new_active@.len() implies (
                        #[trigger] new_active@[x1]).0.xy() != (
                        #[trigger] new_active@[x2]).0.xy() by {
                            if x2 == pa.len() as int {
                                assert(new_active@[x1] == pa[x1]);
                                let j2 = choose|j: int|
                                    0 <= j < idx && survivor_entry(st, act[j], pa[x1]);
                                assert(act[j2].0.xy() != act[idx as int].0.xy());
                            } else {
                                assert(new_active@[x1] == pa[x1] && new_active@[x2] == pa[x2]);
                            }
                        }
                        lemma_has_entry_push_all(
                            pa,
                            (e.0, Cell { placeholder: e.1.placeholder, ttl: (e.1.ttl - 1) as u32 }),
                        );
                        assert(has_entry_coord(new_active@, act[idx as int].0.xy()));
                    } else {
                        assert(new_stable@ == ps.push(
                            (e.0, Cell { placeholder: e.1.placeholder, ttl: 0 }),
                        ));
                        assert(demoted_entry(st, act[idx as int], new_stable@[ps.len() as int]));
                        assert forall|x1: int, x2: int|
                            0 <= x1 < x2 < new_stable@.len() implies (
                        #[trigger] new_stable@[x1]).0.xy() != (
                        #[trigger] new_stable@[x2]).0.xy() by {
                            if x2 == ps.len() as int {
                                assert(new_stable@[x1] == ps[x1]);
                                let j2 = choose|j: int|
                                    0 <= j < idx && demoted_entry(st, act[j], ps[x1]);
                                assert(act[j2].0.xy() != act[idx as int].0.xy());
                            } else {
                                assert(new_stable@[x1] == ps[x1] && new_stable@[x2] == ps[x2]);
                            }
                        }
                        lemma_has_entry_push_all(
                            ps,
                            (e.0, Cell { placeholder: e.1.placeholder, ttl: 0 }),
                        );
                        assert(has_entry_coord(new_stable@, act[idx as int].0.xy()));
                    }
                }
            }
            idx = idx + 1;
        }
        // the staged birth and death lists are now exact
        proof {
            lemma_lists_exact(st, act, stab, births@, deaths@);
        }
        // wake pass over the stable partition
        let mut sdx: usize = 0;
        while sdx < self.stable_current_state.len()
            invariant
                sdx <= stab.len(),
                self.running,
                self.wf(),
                active_in_margin(*self, 2),
                act == self.current_state@,
                stab == self.stable_current_state@,
                st == self@,
                births_exact(st, births@),
                deaths_exact(st, deaths@),
                distinct_ucoords(births@),
                forall|i: int| 0 <= i < births@.len() ==> (#[trigger] births@[i]).z == 0,
                forall|i: int|
                    0 <= i < new_active@.len() ==> (exists|j: int|
                        0 <= j < act.len() && survivor_entry(st, act[j], #[trigger] new_active@[i]))
                        || (exists|j: int|
                        0 <= j < sdx && woken_entry(st, stab[j], #[trigger] new_active@[i])),
                forall|j: int|
                    0 <= j < act.len() && survives_at(
                        st,
                        (#[trigger] act[j]).0.x as int,
                        act[j].0.y as int,
                    ) && act[j].1.ttl > 1 ==> has_entry_coord(new_active@, act[j].0.xy()),
                forall|j: int|
                    0 <= j < sdx && near_event(
                        st,
                        (#[trigger] stab[j]).0.x as int,
                        stab[j].0.y as int,
                    ) ==> has_entry_coord(new_active@, stab[j].0.xy()),
                forall|i: int|
                    0 <= i < new_stable@.len() ==> (exists|j: int|
                        0 <= j < act.len() && demoted_entry(st, act[j], #[trigger] new_stable@[i]))
                        || (exists|j: int|
                        0 <= j < sdx && !near_event(
                            st,
                            (#[trigger] stab[j]).0.x as int,
                            stab[j].0.y as int,
                        ) && new_stable@[i] == stab[j]),
                forall|j: int|
                    0 <= j < act.len() && survives_at(
                        st,
                        (#[trigger] act[j]).0.x as int,
                        act[j].0.y as int,
                    ) && act[j].1.ttl <= 1 ==> has_entry_coord(new_stable@, act[j].0.xy()),
                forall|j: int|
                    0 <= j < sdx && !near_event(
                        st,
                        (#[trigger] stab[j]).0.x as int,
                        stab[j].0.y as int,
                    ) ==> has_entry_coord(new_stable@, stab[j].0.xy()),
                distinct_coords(new_active@),
                distinct_coords(new_stable@),
            decreases stab.len() - sdx,
        {
            proof {
                lemma_entries_map_contains(act);
                lemma_entries_map_value(act);
                lemma_entries_map_contains(stab);
                lemma_entries_map_value(stab);
                lemma_wf_state(*self);
            }
            let e = self.stable_current_state[sdx];
            let ghost pa = new_active@;
            let ghost ps = new_stable@;
            let woke = is_woken(self, &births, &deaths, e.0);
            if woke {
                new_active.push((e.0, Cell { placeholder: e.1.placeholder, ttl: UPDATE_COUNT_LIMIT }));
                proof {
                    assert(woken_entry(st, stab[sdx as int], new_active@[pa.len() as int]));
                    assert forall|x1: int, x2: int|
                        0 <= x1 < x2 < new_active@.len() implies (
                    #[trigger] new_active@[x1]).0.xy() != (#[trigger] new_active@[x2]).0.xy() by {
                        if x2 == pa.len() as int {
                            assert(new_active@[x1] == pa[x1]);
                            if exists|j: int|
                                0 <= j < act.len() && survivor_entry(st, act[j], pa[x1]) {
                                let j2 = choose|j: int|
                                    0 <= j < act.len() && survivor_entry(st, act[j], pa[x1]);
                                assert(act[j2].0.xy() != stab[sdx as int].0.xy());
                            } else {
                                let j2 = choose|j: int|
                                    0 <= j < sdx && woken_entry(st, stab[j], pa[x1]);
                                assert(stab[j2].0.xy() != stab[sdx as int].0.xy());
                            }
                        } else {
                            assert(new_active@[x1] == pa[x1] && new_active@[x2] == pa[x2]);
                        }
                    }
                    lemma_has_entry_push_all(
                        pa,
                        (e.0, Cell { placeholder: e.1.placeholder, ttl: UPDATE_COUNT_LIMIT }),
                    );
                    assert(has_entry_coord(new_active@, stab[sdx as int].0.xy()));
                }
            } else {
                new_stable.push(e);
                proof {
                    assert(new_stable@[ps.len() as int] == stab[sdx as int]);
                    assert forall|x1: int, x2: int|
                        0 <= x1 < x2 < new_stable@.len() implies (
                    #[trigger] new_stable@[x1]).0.xy() != (#[trigger] new_stable@[x2]).0.xy() by {
                        if x2 == ps.len() as int {
                            assert(new_stable@[x1] == ps[x1]);
                            if exists|j: int|
                                0 <= j < act.len() && demoted_entry(st, act[j], ps[x1]) {
                                let j2 = choose|j: int|
                                    0 <= j < act.len() && demoted_entry(st, act[j], ps[x1]);
                                assert(act[j2].0.xy() != stab[sdx as int].0.xy());
                            } else {
                                let j2 = choose|j: int|
                                    0 <= j < sdx && !near_event(
                                        st,
                                        (#[trigger] stab[j]).0.x as int,
                                        stab[j].0.y as int,
                                    ) && ps[x1] == stab[j];
                                assert(stab[j2].0.xy() != stab[sdx as int].0.xy());
                            }
                        } else {
                            assert(new_stable@[x1] == ps[x1] && new_stable@[x2] == ps[x2]);
                        }
                    }
                    lemma_has_entry_push_all(ps, e);
                    assert(has_entry_coord(new_stable@, stab[sdx as int].0.xy()));
                }
            }
            sdx = sdx + 1;
        }
        // append the births
        let ghost pa0 = new_active@;
        let mut bdx: usize = 0;
        while bdx < births.len()
            invariant
                bdx <= births@.len(),
                new_active@.len() == pa0.len() + bdx,
                forall|i: int| 0 <= i < pa0.len() ==> #[trigger] new_active@[i] == pa0[i],
                forall|i: int|
                    pa0.len() <= i < new_active@.len() ==> #[trigger] new_active@[i] == (
                    births@[i - pa0.len()],
                    (Cell { placeholder: None, ttl: UPDATE_COUNT_LIMIT }),
                    ),
            decreases births@.len() - bdx,
        {
            let b = births[bdx];
            new_active.push((b, Cell { placeholder: None, ttl: UPDATE_COUNT_LIMIT }));
            bdx = bdx + 1;
        }
        // commit
        proof {
            lemma_step_finish(st, act, stab, births@, pa0, new_stable@);
            assert(new_active@ =~= with_births(pa0, births@, births@.len() as int));
        }
        self.current_state = new_active;
        self.stable_current_state = new_stable;
    }
}

/// After the walk over every active cell, the staged birth and death
/// lists are exact.
proof fn lemma_lists_exact(
    st: GridState,
    act: Seq<(uVec3, Cell)>,
    stab: Seq<(uVec3, Cell)>,
    births: Seq<uVec3>,
    deaths: Seq<uVec3>,
)
    requires
        st == (GridState { active: entries_map(act), stable: entries_map(stab) }),
        forall|i: int|
            0 <= i < births.len() ==> born_at(st, (#[trigger] births[i]).x as int, births[i].y as int),
        forall|px: int, py: int|
            #[trigger] born_at(st, px, py) && (exists|j: int|
                0 <= j < act.len() && within((px, py), (#[trigger] act[j]).0.xy(), 1))
                ==> seq_has_coord(births, px, py),
        forall|i: int|
            0 <= i < deaths.len() ==> dies_at(st, (#[trigger] deaths[i]).x as int, deaths[i].y as int),
        forall|j: int|
            0 <= j < act.len() && dies_at(st, (#[trigger] act[j]).0.x as int, act[j].0.y as int)
                ==> seq_has_coord(deaths, act[j].0.x as int, act[j].0.y as int),
    ensures
        births_exact(st, births),
        deaths_exact(st, deaths),
{
    lemma_entries_map_contains(act);
    assert forall|px: int, py: int| #[trigger] born_at(st, px, py) implies seq_has_coord(
        births,
        px,
        py,
    ) by {
        reveal(near_active);
        let (ax, ay) = choose|ax: int, ay: int|
            #[trigger] st.active.contains_key((ax, ay)) && within((ax, ay), (px, py), 1);
        let j = choose|j: int| 0 <= j < act.len() && (#[trigger] act[j]).0.xy() == (ax, ay);
        assert(within((px, py), act[j].0.xy(), 1));
    }
    assert forall|px: int, py: int| #[trigger] dies_at(st, px, py) implies seq_has_coord(
        deaths,
        px,
        py,
    ) by {
        let j = choose|j: int| 0 <= j < act.len() && (#[trigger] act[j]).0.xy() == (px, py);
        assert(seq_has_coord(deaths, act[j].0.x as int, act[j].0.y as int));
    }
}

/// Append the births to the staged survivors and woken cells and conclude
/// that the two staged partitions denote exactly the next generation.
proof fn lemma_step_finish(
    st: GridState,
    act: Seq<(uVec3, Cell)>,
    stab: Seq<(uVec3, Cell)>,
    births: Seq<uVec3>,
    base: Seq<(uVec3, Cell)>,
    ns: Seq<(uVec3, Cell)>,
)
    requires
        st == (GridState { active: entries_map(act), stable: entries_map(stab) }),
        wf_state(st),
        distinct_coords(act),
        distinct_coords(stab),
        forall|i: int| 0 <= i < act.len() ==> (#[trigger] act[i]).0.z == 0 && act[i].1.ttl >= 1,
        forall|i: int| 0 <= i < stab.len() ==> (#[trigger] stab[i]).0.z == 0,
        distinct_ucoords(births),
        forall|i: int| 0 <= i < births.len() ==> (#[trigger] births[i]).z == 0,
        births_exact(st, births),
        distinct_coords(base),
        forall|i: int|
            0 <= i < base.len() ==> (exists|j: int|
                0 <= j < act.len() && survivor_entry(st, act[j], #[trigger] base[i])) || (exists|j: int|
                0 <= j < stab.len() && woken_entry(st, stab[j], #[trigger] base[i])),
        forall|j: int|
            0 <= j < act.len() && survives_at(st, (#[trigger] act[j]).0.x as int, act[j].0.y as int)
                && act[j].1.ttl > 1 ==> has_entry_coord(base, act[j].0.xy()),
        forall|j: int|
            0 <= j < stab.len() && near_event(st, (#[trigger] stab[j]).0.x as int, stab[j].0.y as int)
                ==> has_entry_coord(base, stab[j].0.xy()),
        distinct_coords(ns),
        forall|i: int|
            0 <= i < ns.len() ==> (exists|j: int|
                0 <= j < act.len() && demoted_entry(st, act[j], #[trigger] ns[i])) || (exists|j: int|
                0 <= j < stab.len() && !near_event(
                    st,
                    (#[trigger] stab[j]).0.x as int,
                    stab[j].0.y as int,
                ) && ns[i] == stab[j]),
        forall|j: int|
            0 <= j < act.len() && survives_at(st, (#[trigger] act[j]).0.x as int, act[j].0.y as int)
                && act[j].1.ttl <= 1 ==> has_entry_coord(ns, act[j].0.xy()),
        forall|j: int|
            0 <= j < stab.len() && !near_event(
                st,
                (#[trigger] stab[j]).0.x as int,
                stab[j].0.y as int,
            ) ==> has_entry_coord(ns, stab[j].0.xy()),
    ensures
        ({
            let na = with_births(base, births, births.len() as int);
            &&& na.len() == base.len() + births.len()
            &&& forall|i: int| 0 <= i < base.len() ==> #[trigger] na[i] == base[i]
            &&& forall|i: int|
                base.len() <= i < na.len() ==> #[trigger] na[i] == (
                births[i - base.len()],
                (Cell { placeholder: None, ttl: UPDATE_COUNT_LIMIT }),
                )
            &&& forall|i: int, j: int|
                0 <= i < na.len() && 0 <= j < ns.len() ==> (#[trigger] na[i]).0.xy() != (
                #[trigger] ns[j]).0.xy()
            &&& forall|i: int|
                0 <= i < na.len() ==> (#[trigger] na[i]).0.z == 0 && na[i].1.ttl >= 1
            &&& forall|i: int| 0 <= i < ns.len() ==> (#[trigger] ns[i]).0.z == 0
            &&& distinct_coords(na)
            &&& entries_map(na) == step_spec(st).active
            &&& entries_map(ns) == step_spec(st).stable
        }),
{
    lemma_with_births_facts(st, act, stab, births, base, births.len() as int);
    let na = with_births(base, births, births.len() as int);
    assert forall|j: int|
        0 <= j < act.len() && survives_at(st, (#[trigger] act[j]).0.x as int, act[j].0.y as int)
            && act[j].1.ttl > 1 implies has_entry_coord(na, act[j].0.xy()) by {
        assert(has_entry_coord(base, act[j].0.xy()));
    }
    assert forall|j: int|
        0 <= j < stab.len() && near_event(st, (#[trigger] stab[j]).0.x as int, stab[j].0.y as int)
            implies has_entry_coord(na, stab[j].0.xy()) by {
        assert(has_entry_coord(base, stab[j].0.xy()));
    }
    assert forall|i: int|
        0 <= i < na.len() implies (exists|j: int|
        0 <= j < act.len() && survivor_entry(st, act[j], #[trigger] na[i])) || (exists|j: int|
        0 <= j < stab.len() && woken_entry(st, stab[j], #[trigger] na[i])) || (exists|j: int|
        0 <= j < births.len() && born_entry(births[j], #[trigger] na[i])) by {}
    lemma_step_commit(st, act, stab, births, na, ns);
}

/// Per-entry facts, distinctness and completeness of the staged next
/// generation, packaged for the commit at the end of a step.
proof fn lemma_step_commit(
    st: GridState,
    act: Seq<(uVec3, Cell)>,
    stab: Seq<(uVec3, Cell)>,
    births: Seq<uVec3>,
    na: Seq<(uVec3, Cell)>,
    ns: Seq<(uVec3, Cell)>,
)
    requires
        st == (GridState { active: entries_map(act), stable: entries_map(stab) }),
        wf_state(st),
        distinct_coords(act),
        distinct_coords(stab),
        forall|i: int| 0 <= i < act.len() ==> (#[trigger] act[i]).0.z == 0 && act[i].1.ttl >= 1,
        forall|i: int| 0 <= i < stab.len() ==> (#[trigger] stab[i]).0.z == 0,
        distinct_ucoords(births),
        forall|i: int| 0 <= i < births.len() ==> (#[trigger] births[i]).z == 0,
        births_exact(st, births),
        forall|i: int|
            0 <= i < na.len() ==> (exists|j: int|
                0 <= j < act.len() && survivor_entry(st, act[j], #[trigger] na[i])) || (exists|j: int|
                0 <= j < stab.len() && woken_entry(st, stab[j], #[trigger] na[i])) || (exists|j: int|
                0 <= j < births.len() && born_entry(births[j], #[trigger] na[i])),
        forall|j: int|
            0 <= j < act.len() && survives_at(st, (#[trigger] act[j]).0.x as int, act[j].0.y as int)
                && act[j].1.ttl > 1 ==> has_entry_coord(na, act[j].0.xy()),
        forall|j: int|
            0 <= j < stab.len() && near_event(st, (#[trigger] stab[j]).0.x as int, stab[j].0.y as int)
                ==> has_entry_coord(na, stab[j].0.xy()),
        forall|j: int| 0 <= j < births.len() ==> has_entry_coord(na, (#[trigger] births[j]).xy()),
        forall|i: int|
            0 <= i < ns.len() ==> (exists|j: int|
                0 <= j < act.len() && demoted_entry(st, act[j], #[trigger] ns[i])) || (exists|j: int|
                0 <= j < stab.len() && !near_event(
                    st,
                    (#[trigger] stab[j]).0.x as int,
                    stab[j].0.y as int,
                ) && ns[i] == stab[j]),
        forall|j: int|
            0 <= j < act.len() && survives_at(st, (#[trigger] act[j]).0.x as int, act[j].0.y as int)
                && act[j].1.ttl <= 1 ==> has_entry_coord(ns, act[j].0.xy()),
        forall|j: int|
            0 <= j < stab.len() && !near_event(
                st,
                (#[trigger] stab[j]).0.x as int,
                stab[j].0.y as int,
            ) ==> has_entry_coord(ns, stab[j].0.xy()),
        distinct_coords(na),
        distinct_coords(ns),
    ensures
        forall|i: int, j: int|
            0 <= i < na.len() && 0 <= j < ns.len() ==> (#[trigger] na[i]).0.xy() != (
            #[trigger] ns[j]).0.xy(),
        forall|i: int| 0 <= i < na.len() ==> (#[trigger] na[i]).0.z == 0 && na[i].1.ttl >= 1,
        forall|i: int| 0 <= i < ns.len() ==> (#[trigger] ns[i]).0.z == 0,
        entries_map(na) == step_spec(st).active,
        entries_map(ns) == step_spec(st).stable,
{
    lemma_entries_map_contains(act);
    lemma_entries_map_value(act);
    lemma_entries_map_contains(stab);
    lemma_entries_map_value(stab);
    // per-entry facts for the staged active partition
    assert forall|i: int| 0 <= i < na.len() implies {
        let p = (#[trigger] na[i]).0.xy();
        &&& next_active_at(st, p.0, p.1)
        &&& na[i].1 == next_active_cell(st, p.0, p.1)
        &&& na[i].0.z == 0
        &&& na[i].1.ttl >= 1
    } by {
        let p = na[i].0.xy();
        if exists|j: int| 0 <= j < act.len() && survivor_entry(st, act[j], #[trigger] na[i]) {
            let j = choose|j: int| 0 <= j < act.len() && survivor_entry(st, act[j], na[i]);
            assert(st.active.contains_key(p) && st.active[p] == act[j].1);
            assert(!born_at(st, p.0, p.1));
        } else if exists|j: int| 0 <= j < stab.len() && woken_entry(st, stab[j], #[trigger] na[i]) {
            let j = choose|j: int| 0 <= j < stab.len() && woken_entry(st, stab[j], na[i]);
            assert(st.stable.contains_key(p) && st.stable[p] == stab[j].1);
            assert(!st.active.contains_key(p));
            assert(!born_at(st, p.0, p.1));
            assert(woken_at(st, p.0, p.1));
        } else {
            let j = choose|j: int| 0 <= j < births.len() && born_entry(births[j], #[trigger] na[i]);
            assert(born_at(st, births[j].x as int, births[j].y as int));
            assert(born_at(st, p.0, p.1));
        }
    }
    // per-entry facts for the staged stable partition
    assert forall|i: int| 0 <= i < ns.len() implies {
        let p = (#[trigger] ns[i]).0.xy();
        &&& next_stable_at(st, p.0, p.1)
        &&& ns[i].1 == next_stable_cell(st, p.0, p.1)
        &&& ns[i].0.z == 0
    } by {
        let p = ns[i].0.xy();
        if exists|j: int| 0 <= j < act.len() && demoted_entry(st, act[j], #[trigger] ns[i]) {
            let j = choose|j: int| 0 <= j < act.len() && demoted_entry(st, act[j], ns[i]);
            assert(st.active.contains_key(p) && st.active[p] == act[j].1);
        } else {
            let j = choose|j: int|
                0 <= j < stab.len() && !near_event(
                    st,
                    (#[trigger] stab[j]).0.x as int,
                    stab[j].0.y as int,
                ) && ns[i] == stab[j];
            assert(st.stable.contains_key(p) && st.stable[p] == stab[j].1);
            assert(!st.active.contains_key(p));
            assert(!survives_at(st, p.0, p.1));
        }
    }
    lemma_next_partitions_disjoint(st);
    // the two staged partitions are disjoint
    assert forall|i: int, j: int| 0 <= i < na.len() && 0 <= j < ns.len() implies (
    #[trigger] na[i]).0.xy() != (#[trigger] ns[j]).0.xy() by {
        let p = na[i].0.xy();
        if p == ns[j].0.xy() {
            assert(next_active_at(st, p.0, p.1) && next_stable_at(st, p.0, p.1));
        }
    }
    // the staged partitions denote exactly the next generation
    lemma_entries_map_contains(na);
    lemma_entries_map_value(na);
    lemma_entries_map_contains(ns);
    lemma_entries_map_value(ns);
    assert(entries_map(na) =~= step_spec(st).active) by {
        assert forall|p: (int, int)| #[trigger] step_spec(st).active.contains_key(p) implies entries_map(
            na,
        ).contains_key(p) by {
            assert(next_active_at(st, p.0, p.1));
            if born_at(st, p.0, p.1) {
                let k = choose|k: int| 0 <= k < births.len() && (#[trigger] births[k]).xy() == p;
                let i = choose|i: int| 0 <= i < na.len() && (#[trigger] na[i]).0.xy() == p;
                assert(entries_map(na).contains_key(na[i].0.xy()));
            } else if survives_at(st, p.0, p.1) && st.active[p].ttl > 1 {
                let j = choose|j: int| 0 <= j < act.len() && (#[trigger] act[j]).0.xy() == p;
                let i = choose|i: int| 0 <= i < na.len() && (#[trigger] na[i]).0.xy() == p;
                assert(entries_map(na).contains_key(na[i].0.xy()));
            } else {
                let j = choose|j: int| 0 <= j < stab.len() && (#[trigger] stab[j]).0.xy() == p;
                let i = choose|i: int| 0 <= i < na.len() && (#[trigger] na[i]).0.xy() == p;
                assert(entries_map(na).contains_key(na[i].0.xy()));
            }
        }
        assert forall|p: (int, int)| #[trigger] entries_map(na).contains_key(p) implies step_spec(
            st,
        ).active.contains_key(p) && entries_map(na)[p] == step_spec(st).active[p] by {
            let i = choose|i: int| 0 <= i < na.len() && (#[trigger] na[i]).0.xy() == p;
            assert(entries_map(na)[p] == na[i].1);
        }
    }
    assert(entries_map(ns) =~= step_spec(st).stable) by {
        assert forall|p: (int, int)| #[trigger] step_spec(st).stable.contains_key(p) implies entries_map(
            ns,
        ).contains_key(p) by {
            assert(next_stable_at(st, p.0, p.1));
            if survives_at(st, p.0, p.1) && st.active[p].ttl <= 1 {
                let j = choose|j: int| 0 <= j < act.len() && (#[trigger] act[j]).0.xy() == p;
                let i = choose|i: int| 0 <= i < ns.len() && (#[trigger] ns[i]).0.xy() == p;
                assert(entries_map(ns).contains_key(ns[i].0.xy()));
            } else {
                let j = choose|j: int| 0 <= j < stab.len() && (#[trigger] stab[j]).0.xy() == p;
                let i = choose|i: int| 0 <= i < ns.len() && (#[trigger] ns[i]).0.xy() == p;
                assert(entries_map(ns).contains_key(ns[i].0.xy()));
            }
        }
        assert forall|p: (int, int)| #[trigger] entries_map(ns).contains_key(p) implies step_spec(
            st,
        ).stable.contains_key(p) && entries_map(ns)[p] == step_spec(st).stable[p] by {
            let i = choose|i: int| 0 <= i < ns.len() && (#[trigger] ns[i]).0.xy() == p;
            assert(entries_map(ns)[p] == ns[i].1);
        }
    }
}

/// Rule correctness for the cells the step evaluates: an active cell with
/// two or three live neighbors (both partitions counted) is live in the
/// next generation, and with fewer than two or more than three it is dead
/// in the next generation.  Stable cells are skipped by design and stay
/// live; under normal evolution a stable cell always has a surviving
/// count, since it survived when it was demoted and any nearby change
/// wakes it first.
pub proof fn lemma_rule_correctness(st: GridState, x: int, y: int)
    requires
        wf_state(st),
        st.active.contains_key((x, y)),
    ensures
        2 <= neighbor_total(st, x, y) <= 3 ==> live_at(step_spec(st), x, y),
        !(2 <= neighbor_total(st, x, y) <= 3) ==> !live_at(step_spec(st), x, y),
{
    assert(live_at(st, x, y));
    if 2 <= neighbor_total(st, x, y) <= 3 {
        if st.active[(x, y)].ttl > 1 {
            assert(step_spec(st).active.contains_key((x, y)));
        } else {
            assert(step_spec(st).stable.contains_key((x, y)));
        }
    } else {
        assert(!st.stable.contains_key((x, y)));
        assert(!step_spec(st).active.contains_key((x, y)));
        assert(!step_spec(st).stable.contains_key((x, y)));
    }
}

/// Birth correctness: a dead point in the 3×3 block of some active cell,
/// with exactly three live neighbors, is active in the next generation
/// with a full countdown and no placeholder.
pub proof fn lemma_birth_correctness(st: GridState, x: int, y: int)
    requires
        wf_state(st),
        !live_at(st, x, y),
        near_active(st, x, y),
        neighbor_total(st, x, y) == 3,
    ensures
        step_spec(st).active.contains_key((x, y)),
        step_spec(st).active[(x, y)] == (Cell { placeholder: None, ttl: UPDATE_COUNT_LIMIT }),
{
    assert(born_at(st, x, y));
    assert(next_active_at(st, x, y));
}

/// Partition exclusivity: in a well-formed state no point is both active
/// and stable, and the step preserves well-formedness, so the exclusion
/// holds at every tick.
pub proof fn lemma_partition_exclusive(st: GridState)
    requires
        wf_state(st),
    ensures
        forall|p: (int, int)|
            !(#[trigger] st.active.contains_key(p) && st.stable.contains_key(p)),
        wf_state(step_spec(st)),
{
    lemma_next_partitions_disjoint(st);
    assert forall|p: (int, int)| #[trigger] step_spec(st).active.contains_key(p) implies !step_spec(
        st,
    ).stable.contains_key(p) && step_spec(st).active[p].ttl >= 1 by {
        assert(next_active_at(st, p.0, p.1));
        assert(!next_stable_at(st, p.0, p.1));
        if born_at(st, p.0, p.1) {
        } else if survives_at(st, p.0, p.1) && st.active[p].ttl > 1 {
        } else {
            assert(woken_at(st, p.0, p.1));
            assert(!st.active.contains_key(p));
        }
    }
}

/// Demotion timing: a surviving active cell is demoted to the stable
/// partition exactly on the tick its countdown reaches zero, keeping its
/// placeholder; with ticks to spare it stays active with the countdown
/// decremented and the placeholder kept.
pub proof fn lemma_demotion_timing(st: GridState, x: int, y: int)
    requires
        wf_state(st),
        st.active.contains_key((x, y)),
        2 <= neighbor_total(st, x, y) <= 3,
    ensures
        st.active[(x, y)].ttl == 1 ==> !step_spec(st).active.contains_key((x, y)) && step_spec(
            st,
        ).stable.contains_key((x, y)) && step_spec(st).stable[(x, y)].placeholder == st.active[
            (x, y)].placeholder,
        st.active[(x, y)].ttl > 1 ==> step_spec(st).active.contains_key((x, y)) && step_spec(
            st,
        ).active[(x, y)] == (Cell {
            placeholder: st.active[(x, y)].placeholder,
            ttl: (st.active[(x, y)].ttl - 1) as u32,
        }),
{
    assert(live_at(st, x, y));
    assert(survives_at(st, x, y));
    assert(!st.stable.contains_key((x, y)));
    if st.active[(x, y)].ttl == 1 {
        assert(!next_active_at(st, x, y));
        assert(next_stable_at(st, x, y));
    }
}

/// Wake correctness: a birth or death within the wake radius of a stable
/// cell promotes that cell back to the active partition on the same tick,
/// with a full countdown and its placeholder kept.
pub proof fn lemma_wake_correctness(st: GridState, qx: int, qy: int, x: int, y: int)
    requires
        wf_state(st),
        event_at(st, qx, qy),
        st.stable.contains_key((x, y)),
        within((qx, qy), (x, y), UNSTABLE_CHANGER_LIMIT as int),
    ensures
        step_spec(st).active.contains_key((x, y)),
        step_spec(st).active[(x, y)] == (Cell {
            placeholder: st.stable[(x, y)].placeholder,
            ttl: UPDATE_COUNT_LIMIT,
        }),
        !step_spec(st).stable.contains_key((x, y)),
{
    assert(near_event(st, x, y)) by {
        reveal(near_event);
    }
    assert(woken_at(st, x, y));
    assert(live_at(st, x, y));
    assert(!st.active.contains_key((x, y)));
    assert(!born_at(st, x, y) && !survives_at(st, x, y));
}

} // verus!
