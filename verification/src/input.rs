//! The inputs the surrounding application feeds the store: toggling a
//! single cell alive or dead (with the wake of nearby stable cells), and
//! stamping a preset bit pattern.

use vstd::prelude::*;
use vstd::map::*;
use crate::uvec3::{uVec3, within, seq_has_coord, distinct_ucoords, within_dist};
use crate::cell_store::{
    Cell, GridState, TileMap, live_at, cell_at, entries_map, lemma_entries_map_contains,
    lemma_absent_xy, find_entry,
};
use crate::UPDATE_COUNT_LIMIT;
use crate::UNSTABLE_CHANGER_LIMIT;

verus! {

/// The stable cells within the wake radius of `(cx, cy)`: they are woken
/// when that point is toggled.
pub open spec fn woken_on_toggle(st: GridState, cx: int, cy: int, p: (int, int)) -> bool {
    st.stable.contains_key(p) && within(p, (cx, cy), UNSTABLE_CHANGER_LIMIT as int)
}

/// Record a previously live cell keeps when it is re-activated: its
/// placeholder, with the countdown reset.
pub open spec fn reactivated_cell(st: GridState, p: (int, int)) -> Cell {
    if st.active.contains_key(p) {
        st.active[p]
    } else if st.stable.contains_key(p) {
        Cell { placeholder: st.stable[p].placeholder, ttl: UPDATE_COUNT_LIMIT }
    } else {
        Cell { placeholder: None, ttl: UPDATE_COUNT_LIMIT }
    }
}

/// Collect the stable coordinates within Chebyshev distance `r` of `c`,
/// leaving out `c` itself when `skip_center` is set.
#[verifier::loop_isolation(false)]
fn collect_stable_near(tm: &TileMap, c: uVec3, r: i32, skip_center: bool) -> (w: Vec<uVec3>)
    requires
        tm.wf(),
        r >= 0,
    ensures
        distinct_ucoords(w@),
        forall|i: int|
            0 <= i < w@.len() ==> (#[trigger] w@[i]).z == 0 && tm@.stable.contains_key(
                w@[i].xy(),
            ) && within(w@[i].xy(), c.xy(), r as int) && (skip_center ==> w@[i].xy() != c.xy()),
        forall|p: (int, int)|
            #[trigger] tm@.stable.contains_key(p) && within(p, c.xy(), r as int) && !(skip_center
                && p == c.xy()) ==> seq_has_coord(w@, p.0, p.1),
{
    let ghost stab = tm.stable_current_state@;
    proof {
        lemma_entries_map_contains(stab);
    }
    let mut w: Vec<uVec3> = Vec::new();
    let mut j: usize = 0;
    while j < tm.stable_current_state.len()
        invariant
            j <= stab.len(),
            distinct_ucoords(w@),
            forall|i: int|
                0 <= i < w@.len() ==> exists|jj: int|
                    0 <= jj < j && (#[trigger] w@[i]) == stab[jj].0,
            forall|i: int|
                0 <= i < w@.len() ==> within((#[trigger] w@[i]).xy(), c.xy(), r as int) && (
                skip_center ==> w@[i].xy() != c.xy()),
            forall|jj: int|
                0 <= jj < j && within((#[trigger] stab[jj]).0.xy(), c.xy(), r as int) && !(
                skip_center && stab[jj].0.xy() == c.xy()) ==> seq_has_coord(
                    w@,
                    stab[jj].0.xy().0,
                    stab[jj].0.xy().1,
                ),
        decreases stab.len() - j,
    {
        let e = tm.stable_current_state[j];
        let skip = skip_center && e.0.x == c.x && e.0.y == c.y;
        let ghost pw = w@;
        if within_dist(e.0, c, r) && !skip {
            w.push(e.0);
            proof {
                assert forall|a: int, b: int| 0 <= a < b < w@.len() implies (
                #[trigger] w@[a]).xy() != (#[trigger] w@[b]).xy() by {
                    if b == pw.len() as int {
                        assert(w@[a] == pw[a]);
                        let jj = choose|jj: int| 0 <= jj < j && (#[trigger] pw[a]) == stab[jj].0;
                        assert(stab[jj].0.xy() != stab[j as int].0.xy());
                    } else {
                        assert(w@[a] == pw[a] && w@[b] == pw[b]);
                    }
                }
                assert forall|jj: int|
                    0 <= jj < j + 1 && within(
                        (#[trigger] stab[jj]).0.xy(),
                        c.xy(),
                        r as int,
                    ) && !(skip_center && stab[jj].0.xy() == c.xy()) implies seq_has_coord(
                    w@,
                    stab[jj].0.xy().0,
                    stab[jj].0.xy().1,
                ) by {
                    if jj < j {
                        let i = choose|i: int|
                            0 <= i < pw.len() && (#[trigger] pw[i]).xy() == stab[jj].0.xy();
                        assert((#[trigger] w@[i]).xy() == stab[jj].0.xy());
                    } else {
                        assert((#[trigger] w@[pw.len() as int]).xy() == stab[jj].0.xy());
                    }
                }
            }
        }
        j = j + 1;
    }
    proof {
        assert forall|i: int|
            0 <= i < w@.len() implies (#[trigger] w@[i]).z == 0 && tm@.stable.contains_key(
            w@[i].xy(),
        ) by {
            let jj = choose|jj: int| 0 <= jj < stab.len() && (#[trigger] w@[i]) == stab[jj].0;
            assert(entries_map(stab).contains_key(stab[jj].0.xy()));
        }
        assert forall|p: (int, int)|
            #[trigger] tm@.stable.contains_key(p) && within(p, c.xy(), r as int) && !(
            skip_center && p == c.xy()) implies seq_has_coord(w@, p.0, p.1) by {
            let jj = choose|jj: int| 0 <= jj < stab.len() && (#[trigger] stab[jj]).0.xy() == p;
            assert(seq_has_coord(w@, stab[jj].0.xy().0, stab[jj].0.xy().1));
        }
    }
    w
}

impl TileMap {
    /// Make `c` live (as an active cell with a full countdown) or dead.
    /// Activating an already active cell does nothing, and removing a dead
    /// one does nothing.  Any change wakes the stable cells within the
    /// wake radius of `c`; a removed cell leaves both partitions.
    #[verifier::loop_isolation(false)]
    #[verifier::rlimit(60)]
    pub fn toggle_cell(&mut self, c: uVec3, alive: bool)
        requires
            old(self).wf(),
            c.z == 0,
        ensures
            final(self).wf(),
            final(self).running == old(self).running,
            alive && old(self)@.active.contains_key(c.xy()) ==> final(self).current_state@ == old(self).current_state@ && final(self).stable_current_state@ == old(self).stable_current_state@,
            alive && !old(self)@.active.contains_key(c.xy()) ==> final(self)@.active == Map::new(
                |p: (int, int)|
                    old(self)@.active.contains_key(p) || woken_on_toggle(
                        old(self)@,
                        c.x as int,
                        c.y as int,
                        p,
                    ) || p == c.xy(),
                |p: (int, int)| reactivated_cell(old(self)@, p),
            ) && final(self)@.stable == Map::new(
                |p: (int, int)|
                    old(self)@.stable.contains_key(p) && !within(
                        p,
                        c.xy(),
                        UNSTABLE_CHANGER_LIMIT as int,
                    ),
                |p: (int, int)| old(self)@.stable[p],
            ),
            !alive && !live_at(old(self)@, c.x as int, c.y as int) ==> final(self).current_state@ == old(self).current_state@ && final(self).stable_current_state@
                == old(self).stable_current_state@,
            !alive && live_at(old(self)@, c.x as int, c.y as int) ==> final(self)@.active
                == Map::new(
                |p: (int, int)|
                    p != c.xy() && (old(self)@.active.contains_key(p) || woken_on_toggle(
                        old(self)@,
                        c.x as int,
                        c.y as int,
                        p,
                    )),
                |p: (int, int)| reactivated_cell(old(self)@, p),
            ) && final(self)@.stable == Map::new(
                |p: (int, int)|
                    old(self)@.stable.contains_key(p) && !within(
                        p,
                        c.xy(),
                        UNSTABLE_CHANGER_LIMIT as int,
                    ),
                |p: (int, int)| old(self)@.stable[p],
            ),
    {
        let ghost st0 = self@;
        let ghost cx = c.x as int;
        let ghost cy = c.y as int;
        proof {
            crate::cell_store::lemma_wf_state(*self);
        }
        if alive {
            match find_entry(&self.current_state, c) {
                Some(i) => {
                    proof {
                        lemma_entries_map_contains(self.current_state@);
                        assert(entries_map(self.current_state@).contains_key(
                            self.current_state@[i as int].0.xy(),
                        ));
                    }
                    return ;
                },
                None => {},
            }
            proof {
                lemma_absent_xy(self.current_state@, c);
            }
            let woke = collect_stable_near(self, c, UNSTABLE_CHANGER_LIMIT, false);
            let was_stable = self.is_alive(c);
            proof {
                assert(self@.active =~= Map::new(
                    |p: (int, int)|
                        st0.active.contains_key(p) || (exists|i: int|
                            0 <= i < 0 && (#[trigger] woke@[i]).xy() == p),
                    |p: (int, int)| reactivated_cell(st0, p),
                ));
                assert(self@.stable =~= Map::new(
                    |p: (int, int)|
                        st0.stable.contains_key(p) && !(exists|i: int|
                            0 <= i < 0 && (#[trigger] woke@[i]).xy() == p),
                    |p: (int, int)| st0.stable[p],
                ));
            }
            let mut k: usize = 0;
            while k < woke.len()
                invariant
                    k <= woke@.len(),
                    self.wf(),
                    self.running == old(self).running,
                    self@.active == Map::new(
                        |p: (int, int)|
                            st0.active.contains_key(p) || (exists|i: int|
                                0 <= i < k && (#[trigger] woke@[i]).xy() == p),
                        |p: (int, int)| reactivated_cell(st0, p),
                    ),
                    self@.stable == Map::new(
                        |p: (int, int)|
                            st0.stable.contains_key(p) && !(exists|i: int|
                                0 <= i < k && (#[trigger] woke@[i]).xy() == p),
                        |p: (int, int)| st0.stable[p],
                    ),
                decreases woke@.len() - k,
            {
                let w = woke[k];
                proof {
                    assert(self@.stable.contains_key(w.xy())) by {
                        assert forall|i: int| 0 <= i < k implies (#[trigger] woke@[i]).xy()
                            != woke@[k as int].xy() by {}
                    }
                }
                let ghost pre = self@;
                self.promote(w, UPDATE_COUNT_LIMIT);
                proof {
                    assert(pre.stable[w.xy()] == st0.stable[w.xy()]);
                    assert(self@.active =~= Map::new(
                        |p: (int, int)|
                            st0.active.contains_key(p) || (exists|i: int|
                                0 <= i < k + 1 && (#[trigger] woke@[i]).xy() == p),
                        |p: (int, int)| reactivated_cell(st0, p),
                    )) by {
                        assert forall|p: (int, int)|
                            #[trigger] self@.active.contains_key(p) == (st0.active.contains_key(p)
                                || (exists|i: int|
                                0 <= i < k + 1 && (#[trigger] woke@[i]).xy() == p)) by {
                            if p == w.xy() {
                                assert((#[trigger] woke@[k as int]).xy() == p);
                            } else if exists|i: int|
                                0 <= i < k + 1 && (#[trigger] woke@[i]).xy() == p {
                                let i = choose|i: int|
                                    0 <= i < k + 1 && (#[trigger] woke@[i]).xy() == p;
                                assert(0 <= i < k);
                            }
                        }
                    }
                    assert(self@.stable =~= Map::new(
                        |p: (int, int)|
                            st0.stable.contains_key(p) && !(exists|i: int|
                                0 <= i < k + 1 && (#[trigger] woke@[i]).xy() == p),
                        |p: (int, int)| st0.stable[p],
                    )) by {
                        assert forall|p: (int, int)|
                            #[trigger] self@.stable.contains_key(p) == (st0.stable.contains_key(p)
                                && !(exists|i: int|
                                0 <= i < k + 1 && (#[trigger] woke@[i]).xy() == p)) by {
                            if p == w.xy() {
                                assert((#[trigger] woke@[k as int]).xy() == p);
                            } else if exists|i: int|
                                0 <= i < k + 1 && (#[trigger] woke@[i]).xy() == p {
                                let i = choose|i: int|
                                    0 <= i < k + 1 && (#[trigger] woke@[i]).xy() == p;
                                assert(0 <= i < k);
                            }
                        }
                    }
                }
                k = k + 1;
            }
            if !was_stable {
                proof {
                    assert(!self@.active.contains_key(c.xy())) by {
                        if exists|i: int| 0 <= i < woke@.len() && (#[trigger] woke@[i]).xy()
                            == c.xy() {
                            let i = choose|i: int|
                                0 <= i < woke@.len() && (#[trigger] woke@[i]).xy() == c.xy();
                        }
                    }
                    assert(!self@.stable.contains_key(c.xy()));
                }
                self.set_active(c, UPDATE_COUNT_LIMIT);
                proof {
                    assert(self@.stable =~= Map::new(
                        |p: (int, int)|
                            st0.stable.contains_key(p) && !(exists|i: int|
                                0 <= i < woke@.len() && (#[trigger] woke@[i]).xy() == p),
                        |p: (int, int)| st0.stable[p],
                    ));
                }
            }
            proof {
                lemma_toggle_on_commit(st0, cx, cy, woke@, self@, was_stable);
            }
        } else {
            let was_live = self.is_alive(c);
            if !was_live {
                return ;
            }
            let woke = collect_stable_near(self, c, UNSTABLE_CHANGER_LIMIT, true);
            self.remove(c);
            proof {
                assert(self@.active =~= Map::new(
                    |p: (int, int)|
                        (st0.active.contains_key(p) && p != (cx, cy)) || (exists|i: int|
                            0 <= i < 0 && (#[trigger] woke@[i]).xy() == p),
                    |p: (int, int)| reactivated_cell(st0, p),
                ));
                assert(self@.stable =~= Map::new(
                    |p: (int, int)|
                        st0.stable.contains_key(p) && p != (cx, cy) && !(exists|i: int|
                            0 <= i < 0 && (#[trigger] woke@[i]).xy() == p),
                    |p: (int, int)| st0.stable[p],
                ));
            }
            let mut k: usize = 0;
            while k < woke.len()
                invariant
                    k <= woke@.len(),
                    self.wf(),
                    self.running == old(self).running,
                    self@.active == Map::new(
                        |p: (int, int)|
                            (st0.active.contains_key(p) && p != (cx, cy)) || (exists|i: int|
                                0 <= i < k && (#[trigger] woke@[i]).xy() == p),
                        |p: (int, int)| reactivated_cell(st0, p),
                    ),
                    self@.stable == Map::new(
                        |p: (int, int)|
                            st0.stable.contains_key(p) && p != (cx, cy) && !(exists|i: int|
                                0 <= i < k && (#[trigger] woke@[i]).xy() == p),
                        |p: (int, int)| st0.stable[p],
                    ),
                decreases woke@.len() - k,
            {
                let w = woke[k];
                proof {
                    assert(self@.stable.contains_key(w.xy())) by {
                        assert forall|i: int| 0 <= i < k implies (#[trigger] woke@[i]).xy()
                            != woke@[k as int].xy() by {}
                    }
                }
                let ghost pre = self@;
                self.promote(w, UPDATE_COUNT_LIMIT);
                proof {
                    assert(pre.stable[w.xy()] == st0.stable[w.xy()]);
                    assert(self@.active =~= Map::new(
                        |p: (int, int)|
                            (st0.active.contains_key(p) && p != (cx, cy)) || (exists|i: int|
                                0 <= i < k + 1 && (#[trigger] woke@[i]).xy() == p),
                        |p: (int, int)| reactivated_cell(st0, p),
                    )) by {
                        assert forall|p: (int, int)|
                            #[trigger] self@.active.contains_key(p) == ((st0.active.contains_key(p)
                                && p != (cx, cy)) || (exists|i: int|
                                0 <= i < k + 1 && (#[trigger] woke@[i]).xy() == p)) by {
                            if p == w.xy() {
                                assert((#[trigger] woke@[k as int]).xy() == p);
                            } else if exists|i: int|
                                0 <= i < k + 1 && (#[trigger] woke@[i]).xy() == p {
                                let i = choose|i: int|
                                    0 <= i < k + 1 && (#[trigger] woke@[i]).xy() == p;
                                assert(0 <= i < k);
                            }
                        }
                    }
                    assert(self@.stable =~= Map::new(
                        |p: (int, int)|
                            st0.stable.contains_key(p) && p != (cx, cy) && !(exists|i: int|
                                0 <= i < k + 1 && (#[trigger] woke@[i]).xy() == p),
                        |p: (int, int)| st0.stable[p],
                    )) by {
                        assert forall|p: (int, int)|
                            #[trigger] self@.stable.contains_key(p) == (st0.stable.contains_key(p)
                                && p != (cx, cy) && !(exists|i: int|
                                0 <= i < k + 1 && (#[trigger] woke@[i]).xy() == p)) by {
                            if p == w.xy() {
                                assert((#[trigger] woke@[k as int]).xy() == p);
                            } else if exists|i: int|
                                0 <= i < k + 1 && (#[trigger] woke@[i]).xy() == p {
                                let i = choose|i: int|
                                    0 <= i < k + 1 && (#[trigger] woke@[i]).xy() == p;
                                assert(0 <= i < k);
                            }
                        }
                    }
                }
                k = k + 1;
            }
            proof {
                lemma_toggle_off_commit(st0, cx, cy, woke@, self@);
            }
        }
    }
}

/// After the wake loop (and the optional fresh insert), the store holds
/// exactly the state the toggle-on contract promises.
proof fn lemma_toggle_on_commit(
    st0: GridState,
    cx: int,
    cy: int,
    woke: Seq<uVec3>,
    cur: GridState,
    was_stable: bool,
)
    requires
        !st0.active.contains_key((cx, cy)),
        was_stable == st0.stable.contains_key((cx, cy)),
        forall|i: int|
            0 <= i < woke.len() ==> st0.stable.contains_key((#[trigger] woke[i]).xy()) && within(
                woke[i].xy(),
                (cx, cy),
                UNSTABLE_CHANGER_LIMIT as int,
            ),
        forall|p: (int, int)|
            #[trigger] st0.stable.contains_key(p) && within(p, (cx, cy), UNSTABLE_CHANGER_LIMIT as int)
                ==> seq_has_coord(woke, p.0, p.1),
        ({
            let base = Map::new(
                |p: (int, int)|
                    st0.active.contains_key(p) || (exists|i: int|
                        0 <= i < woke.len() && (#[trigger] woke[i]).xy() == p),
                |p: (int, int)| reactivated_cell(st0, p),
            );
            cur.active == if was_stable {
                base
            } else {
                base.insert((cx, cy), (Cell { placeholder: None, ttl: UPDATE_COUNT_LIMIT }))
            }
        }),
        cur.stable == Map::new(
            |p: (int, int)|
                st0.stable.contains_key(p) && !(exists|i: int|
                    0 <= i < woke.len() && (#[trigger] woke[i]).xy() == p),
            |p: (int, int)| st0.stable[p],
        ),
    ensures
        cur.active == Map::new(
            |p: (int, int)|
                st0.active.contains_key(p) || woken_on_toggle(st0, cx, cy, p) || p == (cx, cy),
            |p: (int, int)| reactivated_cell(st0, p),
        ),
        cur.stable == Map::new(
            |p: (int, int)|
                st0.stable.contains_key(p) && !within(p, (cx, cy), UNSTABLE_CHANGER_LIMIT as int),
            |p: (int, int)| st0.stable[p],
        ),
{
    let goal_active = Map::new(
        |p: (int, int)|
            st0.active.contains_key(p) || woken_on_toggle(st0, cx, cy, p) || p == (cx, cy),
        |p: (int, int)| reactivated_cell(st0, p),
    );
    assert(cur.active =~= goal_active) by {
        assert forall|p: (int, int)| #[trigger] cur.active.contains_key(p)
            == goal_active.contains_key(p) by {
            if exists|i: int| 0 <= i < woke.len() && (#[trigger] woke[i]).xy() == p {
                let i = choose|i: int| 0 <= i < woke.len() && (#[trigger] woke[i]).xy() == p;
                assert(woken_on_toggle(st0, cx, cy, p));
            }
            if woken_on_toggle(st0, cx, cy, p) {
                assert(seq_has_coord(woke, p.0, p.1));
            }
            if p == (cx, cy) && was_stable {
                assert(within(p, (cx, cy), UNSTABLE_CHANGER_LIMIT as int));
                assert(seq_has_coord(woke, p.0, p.1));
            }
        }
        assert forall|p: (int, int)|
            #[trigger] cur.active.contains_key(p) && goal_active.contains_key(p) implies cur.active[p]
            == goal_active[p] by {
            if p == (cx, cy) && !was_stable {
                assert(reactivated_cell(st0, p) == (Cell {
                    placeholder: None,
                    ttl: UPDATE_COUNT_LIMIT,
                }));
            }
        }
    }
    let goal_stable = Map::new(
        |p: (int, int)|
            st0.stable.contains_key(p) && !within(p, (cx, cy), UNSTABLE_CHANGER_LIMIT as int),
        |p: (int, int)| st0.stable[p],
    );
    assert(cur.stable =~= goal_stable) by {
        assert forall|p: (int, int)| #[trigger] cur.stable.contains_key(p)
            == goal_stable.contains_key(p) by {
            if exists|i: int| 0 <= i < woke.len() && (#[trigger] woke[i]).xy() == p {
                let i = choose|i: int| 0 <= i < woke.len() && (#[trigger] woke[i]).xy() == p;
            }
            if st0.stable.contains_key(p) && within(p, (cx, cy), UNSTABLE_CHANGER_LIMIT as int) {
                assert(seq_has_coord(woke, p.0, p.1));
                let i = choose|i: int| 0 <= i < woke.len() && (#[trigger] woke[i]).xy() == p;
            }
        }
    }
}

/// After the removal and the wake loop, the store holds exactly the state
/// the toggle-off contract promises.
proof fn lemma_toggle_off_commit(st0: GridState, cx: int, cy: int, woke: Seq<uVec3>, cur: GridState)
    requires
        forall|i: int|
            0 <= i < woke.len() ==> st0.stable.contains_key((#[trigger] woke[i]).xy()) && within(
                woke[i].xy(),
                (cx, cy),
                UNSTABLE_CHANGER_LIMIT as int,
            ) && (#[trigger] woke[i]).xy() != (cx, cy),
        forall|p: (int, int)|
            #[trigger] st0.stable.contains_key(p) && within(p, (cx, cy), UNSTABLE_CHANGER_LIMIT as int)
                && p != (cx, cy) ==> seq_has_coord(woke, p.0, p.1),
        cur.active == Map::new(
            |p: (int, int)|
                (st0.active.contains_key(p) && p != (cx, cy)) || (exists|i: int|
                    0 <= i < woke.len() && (#[trigger] woke[i]).xy() == p),
            |p: (int, int)| reactivated_cell(st0, p),
        ),
        cur.stable == Map::new(
            |p: (int, int)|
                st0.stable.contains_key(p) && p != (cx, cy) && !(exists|i: int|
                    0 <= i < woke.len() && (#[trigger] woke[i]).xy() == p),
            |p: (int, int)| st0.stable[p],
        ),
    ensures
        cur.active == Map::new(
            |p: (int, int)|
                p != (cx, cy) && (st0.active.contains_key(p) || woken_on_toggle(st0, cx, cy, p)),
            |p: (int, int)| reactivated_cell(st0, p),
        ),
        cur.stable == Map::new(
            |p: (int, int)|
                st0.stable.contains_key(p) && !within(p, (cx, cy), UNSTABLE_CHANGER_LIMIT as int),
            |p: (int, int)| st0.stable[p],
        ),
{
    let goal_active = Map::new(
        |p: (int, int)|
            p != (cx, cy) && (st0.active.contains_key(p) || woken_on_toggle(st0, cx, cy, p)),
        |p: (int, int)| reactivated_cell(st0, p),
    );
    assert(cur.active =~= goal_active) by {
        assert forall|p: (int, int)| #[trigger] cur.active.contains_key(p)
            == goal_active.contains_key(p) by {
            if exists|i: int| 0 <= i < woke.len() && (#[trigger] woke[i]).xy() == p {
                let i = choose|i: int| 0 <= i < woke.len() && (#[trigger] woke[i]).xy() == p;
                assert(woken_on_toggle(st0, cx, cy, p) && p != (cx, cy));
            }
            if p != (cx, cy) && woken_on_toggle(st0, cx, cy, p) {
                assert(seq_has_coord(woke, p.0, p.1));
            }
        }
    }
    let goal_stable = Map::new(
        |p: (int, int)|
            st0.stable.contains_key(p) && !within(p, (cx, cy), UNSTABLE_CHANGER_LIMIT as int),
        |p: (int, int)| st0.stable[p],
    );
    assert(cur.stable =~= goal_stable) by {
        assert forall|p: (int, int)| #[trigger] cur.stable.contains_key(p)
            == goal_stable.contains_key(p) by {
            if exists|i: int| 0 <= i < woke.len() && (#[trigger] woke[i]).xy() == p {
                let i = choose|i: int| 0 <= i < woke.len() && (#[trigger] woke[i]).xy() == p;
            }
            if st0.stable.contains_key(p) && within(p, (cx, cy), UNSTABLE_CHANGER_LIMIT as int) && p
                != (cx, cy) {
                assert(seq_has_coord(woke, p.0, p.1));
                let i = choose|i: int| 0 <= i < woke.len() && (#[trigger] woke[i]).xy() == p;
            }
            if p == (cx, cy) {
                assert(!cur.stable.contains_key(p));
            }
        }
    }
}

/// Some set bit of the pattern lands on `(x, y)` when the pattern's rows
/// are laid out from `origin` along `x` and its columns along `y`.
pub open spec fn stamped(origin: uVec3, rows: Seq<Vec<bool>>, x: int, y: int) -> bool {
    exists|a: int, b: int|
        0 <= a < rows.len() && 0 <= b < rows[a]@.len() && (#[trigger] rows[a]@[b]) && x == origin.x
            + a && y == origin.y + b
}

/// The set bits already stamped after the walk has fully handled `ri` rows
/// and the first `cj` columns of row `ri`.
pub open spec fn stamped_upto(
    origin: uVec3,
    rows: Seq<Vec<bool>>,
    ri: int,
    cj: int,
    x: int,
    y: int,
) -> bool {
    exists|a: int, b: int|
        0 <= a < rows.len() && 0 <= b < rows[a]@.len() && (#[trigger] rows[a]@[b]) && (a < ri || (a
            == ri && b < cj)) && x == origin.x + a && y == origin.y + b
}

/// The record a stamped point carries: the placeholder it already had if it
/// was live, none otherwise, with a full countdown.
pub open spec fn stamp_cell(st: GridState, x: int, y: int) -> Cell {
    Cell {
        placeholder: if live_at(st, x, y) {
            cell_at(st, x, y).placeholder
        } else {
            None
        },
        ttl: UPDATE_COUNT_LIMIT,
    }
}

/// The active partition after the walk has stamped the bits up to
/// `(ri, cj)`.
spec fn stamp_active_map(
    st: GridState,
    origin: uVec3,
    rows: Seq<Vec<bool>>,
    ri: int,
    cj: int,
) -> Map<(int, int), Cell> {
    Map::new(
        |p: (int, int)| st.active.contains_key(p) || stamped_upto(origin, rows, ri, cj, p.0, p.1),
        |p: (int, int)|
            if stamped_upto(origin, rows, ri, cj, p.0, p.1) {
                stamp_cell(st, p.0, p.1)
            } else {
                st.active[p]
            },
    )
}

/// The stable partition after the walk has stamped the bits up to
/// `(ri, cj)`.
spec fn stamp_stable_map(
    st: GridState,
    origin: uVec3,
    rows: Seq<Vec<bool>>,
    ri: int,
    cj: int,
) -> Map<(int, int), Cell> {
    Map::new(
        |p: (int, int)| st.stable.contains_key(p) && !stamped_upto(origin, rows, ri, cj, p.0, p.1),
        |p: (int, int)| st.stable[p],
    )
}

impl TileMap {
    /// Bulk-insert the set bits of `pattern` as active cells at
    /// `origin + (row, column)`, each with a full countdown.  A bit landing
    /// on a live cell re-activates it, keeping its placeholder.
    #[verifier::loop_isolation(false)]
    #[verifier::rlimit(100)]
    pub fn stamp_pattern(&mut self, origin: uVec3, pattern: &Vec<Vec<bool>>)
        requires
            old(self).wf(),
            origin.z == 0,
            pattern@.len() <= i32::MAX as int,
            origin.x as int + pattern@.len() <= i32::MAX as int + 1,
            forall|i: int|
                0 <= i < pattern@.len() ==> (#[trigger] pattern@[i])@.len() <= i32::MAX as int
                    && origin.y as int + pattern@[i]@.len() <= i32::MAX as int + 1,
        ensures
            final(self).wf(),
            final(self).running == old(self).running,
            final(self)@.active == Map::new(
                |p: (int, int)|
                    old(self)@.active.contains_key(p) || stamped(origin, pattern@, p.0, p.1),
                |p: (int, int)|
                    if stamped(origin, pattern@, p.0, p.1) {
                        stamp_cell(old(self)@, p.0, p.1)
                    } else {
                        old(self)@.active[p]
                    },
            ),
            final(self)@.stable == Map::new(
                |p: (int, int)|
                    old(self)@.stable.contains_key(p) && !stamped(origin, pattern@, p.0, p.1),
                |p: (int, int)| old(self)@.stable[p],
            ),
    {
        let ghost st0 = self@;
        let ghost rows = pattern@;
        proof {
            crate::cell_store::lemma_wf_state(*self);
            assert(self@.active =~= stamp_active_map(st0, origin, rows, 0, 0));
            assert(self@.stable =~= stamp_stable_map(st0, origin, rows, 0, 0));
        }
        let mut i: usize = 0;
        while i < pattern.len()
            invariant
                i <= rows.len(),
                self.wf(),
                self.running == old(self).running,
                self@.active == stamp_active_map(st0, origin, rows, i as int, 0),
                self@.stable == stamp_stable_map(st0, origin, rows, i as int, 0),
            decreases rows.len() - i,
        {
            let row_len = pattern[i].len();
            let mut j: usize = 0;
            while j < row_len
                invariant
                    j <= row_len,
                    i < rows.len(),
                    row_len == rows[i as int]@.len(),
                    self.wf(),
                    self.running == old(self).running,
                    self@.active == stamp_active_map(st0, origin, rows, i as int, j as int),
                    self@.stable == stamp_stable_map(st0, origin, rows, i as int, j as int),
                decreases row_len - j,
            {
                let bit = pattern[i][j];
                if bit {
                    let tx = origin.x + (i as i32);
                    let ty = origin.y + (j as i32);
                    let q = uVec3::new(tx, ty, 0);
                    let ghost pre = self@;
                    proof {
                        // the fresh target has not been stamped yet
                        assert(!stamped_upto(origin, rows, i as int, j as int, tx as int, ty as int));
                        assert(live_at(pre, tx as int, ty as int) == live_at(
                            st0,
                            tx as int,
                            ty as int,
                        ));
                        if live_at(st0, tx as int, ty as int) {
                            assert(cell_at(pre, tx as int, ty as int) == cell_at(
                                st0,
                                tx as int,
                                ty as int,
                            ));
                        }
                    }
                    self.set_active(q, UPDATE_COUNT_LIMIT);
                    proof {
                        assert(self@.active =~= stamp_active_map(
                            st0,
                            origin,
                            rows,
                            i as int,
                            j as int + 1,
                        )) by {
                            assert forall|p: (int, int)|
                                stamped_upto(origin, rows, i as int, j as int + 1, p.0, p.1)
                                    == (stamped_upto(origin, rows, i as int, j as int, p.0, p.1)
                                    || p == (tx as int, ty as int)) by {
                                if stamped_upto(origin, rows, i as int, j as int + 1, p.0, p.1) {
                                    let (a, b) = choose|a: int, b: int|
                                        0 <= a < rows.len() && 0 <= b < rows[a]@.len() && (
                                        #[trigger] rows[a]@[b]) && (a < i as int || (a == i as int
                                            && b < j as int + 1)) && p.0 == origin.x + a && p.1
                                            == origin.y + b;
                                    if a == i as int && b == j as int {
                                        assert(p == (tx as int, ty as int));
                                    }
                                }
                                if p == (tx as int, ty as int) {
                                    assert(rows[i as int]@[j as int]);
                                }
                            }
                        }
                        assert(self@.stable =~= stamp_stable_map(
                            st0,
                            origin,
                            rows,
                            i as int,
                            j as int + 1,
                        ));
                    }
                } else {
                    proof {
                        assert forall|p: (int, int)|
                            stamped_upto(origin, rows, i as int, j as int + 1, p.0, p.1)
                                == stamped_upto(origin, rows, i as int, j as int, p.0, p.1) by {
                            if stamped_upto(origin, rows, i as int, j as int + 1, p.0, p.1) {
                                let (a, b) = choose|a: int, b: int|
                                    0 <= a < rows.len() && 0 <= b < rows[a]@.len() && (
                                    #[trigger] rows[a]@[b]) && (a < i as int || (a == i as int && b
                                        < j as int + 1)) && p.0 == origin.x + a && p.1 == origin.y
                                        + b;
                                assert(!(a == i as int && b == j as int));
                            }
                        }
                        assert(self@.active =~= stamp_active_map(
                            st0,
                            origin,
                            rows,
                            i as int,
                            j as int + 1,
                        ));
                        assert(self@.stable =~= stamp_stable_map(
                            st0,
                            origin,
                            rows,
                            i as int,
                            j as int + 1,
                        ));
                    }
                }
                j = j + 1;
            }
            proof {
                assert forall|p: (int, int)|
                    stamped_upto(origin, rows, i as int, row_len as int, p.0, p.1) == stamped_upto(
                        origin,
                        rows,
                        i as int + 1,
                        0,
                        p.0,
                        p.1,
                    ) by {}
                assert(self@.active =~= stamp_active_map(st0, origin, rows, i as int + 1, 0));
                assert(self@.stable =~= stamp_stable_map(st0, origin, rows, i as int + 1, 0));
            }
            i = i + 1;
        }
        proof {
            assert forall|p: (int, int)|
                stamped_upto(origin, rows, rows.len() as int, 0, p.0, p.1) == stamped(
                    origin,
                    rows,
                    p.0,
                    p.1,
                ) by {}
            assert(self@.active =~= Map::new(
                |p: (int, int)| st0.active.contains_key(p) || stamped(origin, rows, p.0, p.1),
                |p: (int, int)|
                    if stamped(origin, rows, p.0, p.1) {
                        stamp_cell(st0, p.0, p.1)
                    } else {
                        st0.active[p]
                    },
            ));
            assert(self@.stable =~= Map::new(
                |p: (int, int)| st0.stable.contains_key(p) && !stamped(origin, rows, p.0, p.1),
                |p: (int, int)| st0.stable[p],
            ));
        }
    }
}

} // verus!
