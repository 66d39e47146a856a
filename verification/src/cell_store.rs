//! The sparse store of live cells, split into an active and a stable
//! partition, together with the map model its contracts are stated over.

use vstd::prelude::*;
use vstd::map::*;
use crate::uvec3::uVec3;

verus! {

/// Per-cell record kept for every live coordinate.
///
/// `placeholder` is the index of the render placeholder currently showing
/// this cell, if one has been assigned; `ttl` is the number of ticks an
/// active cell may still survive unchanged before it is demoted to the
/// stable partition (it is meaningful for active cells only).
#[derive(Clone, Copy)]
pub struct Cell {
    pub placeholder: Option<usize>,
    pub ttl: u32,
}

/// The mathematical model of a store: two sparse maps from grid points to
/// cell records, one per partition.
pub struct GridState {
    pub active: Map<(int, int), Cell>,
    pub stable: Map<(int, int), Cell>,
}

/// A point is live when either partition holds it.
pub open spec fn live_at(st: GridState, x: int, y: int) -> bool {
    st.active.contains_key((x, y)) || st.stable.contains_key((x, y))
}

/// The record of a live point, whichever partition holds it.
pub open spec fn cell_at(st: GridState, x: int, y: int) -> Cell {
    if st.active.contains_key((x, y)) {
        st.active[(x, y)]
    } else {
        st.stable[(x, y)]
    }
}

/// The partitions never share a point, and active cells always have at
/// least one tick left before demotion.
pub open spec fn wf_state(st: GridState) -> bool {
    &&& forall|p: (int, int)| #[trigger] st.active.contains_key(p) ==> !st.stable.contains_key(p)
    &&& forall|p: (int, int)| #[trigger] st.active.contains_key(p) ==> st.active[p].ttl >= 1
}

/// The map a sequence of `(coordinate, cell)` entries denotes.
pub open spec fn entries_map(s: Seq<(uVec3, Cell)>) -> Map<(int, int), Cell>
    decreases s.len(),
{
    if s.len() == 0 {
        Map::empty()
    } else {
        entries_map(s.drop_last()).insert(s.last().0.xy(), s.last().1)
    }
}

/// No two entries of the sequence name the same grid point.
pub open spec fn distinct_coords(s: Seq<(uVec3, Cell)>) -> bool {
    forall|i: int, j: int|
        0 <= i < j < s.len() ==> (#[trigger] s[i]).0.xy() != (#[trigger] s[j]).0.xy()
}

/// Membership in `entries_map` is exactly membership in the sequence.
pub proof fn lemma_entries_map_contains(s: Seq<(uVec3, Cell)>)
    ensures
        forall|i: int| 0 <= i < s.len() ==> entries_map(s).contains_key((#[trigger] s[i]).0.xy()),
        forall|p: (int, int)| #[trigger] entries_map(s).contains_key(p)
            ==> exists|i: int| 0 <= i < s.len() && (#[trigger] s[i]).0.xy() == p,
    decreases s.len(),
{
    if s.len() > 0 {
        let t = s.drop_last();
        lemma_entries_map_contains(t);
        assert forall|i: int| 0 <= i < s.len() implies entries_map(s).contains_key(
            (#[trigger] s[i]).0.xy(),
        ) by {
            if i < s.len() - 1 {
                assert(t[i] == s[i]);
                assert(entries_map(t).contains_key(t[i].0.xy()));
            }
        }
        assert forall|p: (int, int)| #[trigger] entries_map(s).contains_key(p) implies exists|i: int|
            0 <= i < s.len() && (#[trigger] s[i]).0.xy() == p by {
            if p == s.last().0.xy() {
                assert((#[trigger] s[s.len() - 1]).0.xy() == p);
            } else {
                assert(entries_map(t).contains_key(p));
                let i = choose|i: int| 0 <= i < t.len() && (#[trigger] t[i]).0.xy() == p;
                assert(t[i] == s[i]);
                assert((#[trigger] s[i]).0.xy() == p);
            }
        }
    }
}

/// With distinct coordinates, `entries_map` sends each entry's point to that
/// entry's record.
pub proof fn lemma_entries_map_value(s: Seq<(uVec3, Cell)>)
    requires
        distinct_coords(s),
    ensures
        forall|i: int|
            0 <= i < s.len() ==> entries_map(s)[(#[trigger] s[i]).0.xy()] == s[i].1,
    decreases s.len(),
{
    if s.len() > 0 {
        let t = s.drop_last();
        assert(distinct_coords(t)) by {
            assert forall|i: int, j: int| 0 <= i < j < t.len() implies (#[trigger] t[i]).0.xy()
                != (#[trigger] t[j]).0.xy() by {
                assert(t[i] == s[i] && t[j] == s[j]);
            }
        }
        lemma_entries_map_value(t);
        assert forall|i: int| 0 <= i < s.len() implies entries_map(s)[(#[trigger] s[i]).0.xy()]
            == s[i].1 by {
            if i < s.len() - 1 {
                assert(t[i] == s[i]);
                assert(s[i].0.xy() != s.last().0.xy());
                assert(entries_map(t)[t[i].0.xy()] == t[i].1);
            }
        }
    }
}

/// Appending an entry inserts its point into the denoted map.
pub proof fn lemma_entries_map_push(s: Seq<(uVec3, Cell)>, e: (uVec3, Cell))
    ensures
        entries_map(s.push(e)) == entries_map(s).insert(e.0.xy(), e.1),
{
    assert(s.push(e).drop_last() =~= s);
    assert(s.push(e).last() == e);
}

/// Removing the entry at `i` removes its point from the denoted map.
pub proof fn lemma_entries_map_remove(s: Seq<(uVec3, Cell)>, i: int)
    requires
        0 <= i < s.len(),
        distinct_coords(s),
    ensures
        entries_map(s.remove(i)) == entries_map(s).remove(s[i].0.xy()),
    decreases s.len(),
{
    let k = s[i].0.xy();
    let t = s.remove(i);
    if i == s.len() - 1 {
        assert(t =~= s.drop_last());
        lemma_entries_map_contains(t);
        assert(!entries_map(t).contains_key(k)) by {
            if entries_map(t).contains_key(k) {
                let j = choose|j: int| 0 <= j < t.len() && (#[trigger] t[j]).0.xy() == k;
                assert(s[j] == t[j]);
            }
        }
        assert(entries_map(t) =~= entries_map(t).insert(k, s[i].1).remove(k));
    } else {
        let d = s.drop_last();
        assert(distinct_coords(d)) by {
            assert forall|a: int, b: int| 0 <= a < b < d.len() implies (#[trigger] d[a]).0.xy()
                != (#[trigger] d[b]).0.xy() by {
                assert(d[a] == s[a] && d[b] == s[b]);
            }
        }
        lemma_entries_map_remove(d, i);
        assert(t.drop_last() =~= d.remove(i));
        assert(t.last() == s.last());
        assert(d[i] == s[i]);
        // the removed key differs from the last entry's key
        assert(k != s.last().0.xy());
        assert(entries_map(t) == entries_map(d.remove(i)).insert(s.last().0.xy(), s.last().1));
        assert(entries_map(d).remove(k).insert(s.last().0.xy(), s.last().1) =~= entries_map(
            d,
        ).insert(s.last().0.xy(), s.last().1).remove(k));
    }
}

/// Overwriting the entry at `i` with one for the same point updates that
/// point's record in the denoted map.
pub proof fn lemma_entries_map_update(s: Seq<(uVec3, Cell)>, i: int, e: (uVec3, Cell))
    requires
        0 <= i < s.len(),
        distinct_coords(s),
        e.0.xy() == s[i].0.xy(),
    ensures
        entries_map(s.update(i, e)) == entries_map(s).insert(e.0.xy(), e.1),
    decreases s.len(),
{
    let k = e.0.xy();
    let t = s.update(i, e);
    if i == s.len() - 1 {
        assert(t.drop_last() =~= s.drop_last());
        assert(t.last() == e);
        assert(entries_map(s.drop_last()).insert(k, e.1) =~= entries_map(s.drop_last()).insert(
            k,
            s[i].1,
        ).insert(k, e.1));
    } else {
        let d = s.drop_last();
        assert(distinct_coords(d)) by {
            assert forall|a: int, b: int| 0 <= a < b < d.len() implies (#[trigger] d[a]).0.xy()
                != (#[trigger] d[b]).0.xy() by {
                assert(d[a] == s[a] && d[b] == s[b]);
            }
        }
        assert(d[i] == s[i]);
        lemma_entries_map_update(d, i, e);
        assert(t.drop_last() =~= d.update(i, e));
        assert(t.last() == s.last());
        assert(k != s.last().0.xy());
        assert(entries_map(d).insert(k, e.1).insert(s.last().0.xy(), s.last().1) =~= entries_map(
            d,
        ).insert(s.last().0.xy(), s.last().1).insert(k, e.1));
    }
}

/// The authoritative sparse store of live cells: the active partition in
/// `current_state`, the stable partition in `stable_current_state`.
pub struct TileMap {
    pub running: bool,
    pub current_state: Vec<(uVec3, Cell)>,
    pub stable_current_state: Vec<(uVec3, Cell)>,
}

impl View for TileMap {
    type V = GridState;

    open spec fn view(&self) -> GridState {
        GridState {
            active: entries_map(self.current_state@),
            stable: entries_map(self.stable_current_state@),
        }
    }
}

impl TileMap {
    /// Entries of each partition name distinct points, the partitions are
    /// disjoint, every stored coordinate lies in the `z == 0` plane, and
    /// active cells have a positive demotion countdown.
    pub open spec fn wf(self) -> bool {
        &&& distinct_coords(self.current_state@)
        &&& distinct_coords(self.stable_current_state@)
        &&& forall|i: int, j: int|
            0 <= i < self.current_state@.len() && 0 <= j < self.stable_current_state@.len()
                ==> (#[trigger] self.current_state@[i]).0.xy() != (
                #[trigger] self.stable_current_state@[j]).0.xy()
        &&& forall|i: int|
            0 <= i < self.current_state@.len() ==> (#[trigger] self.current_state@[i]).0.z == 0
                && self.current_state@[i].1.ttl >= 1
        &&& forall|i: int|
            0 <= i < self.stable_current_state@.len() ==> (
            #[trigger] self.stable_current_state@[i]).0.z == 0
    }

    pub fn new() -> (tm: TileMap)
        ensures
            tm.wf(),
            !tm.running,
            tm.current_state@.len() == 0,
            tm.stable_current_state@.len() == 0,
            tm@.active == Map::<(int, int), Cell>::empty(),
            tm@.stable == Map::<(int, int), Cell>::empty(),
    {
        TileMap { running: false, current_state: Vec::new(), stable_current_state: Vec::new() }
    }
}

/// A well-formed store denotes a well-formed model state.
pub proof fn lemma_wf_state(tm: TileMap)
    requires
        tm.wf(),
    ensures
        wf_state(tm@),
{
    lemma_entries_map_contains(tm.current_state@);
    lemma_entries_map_contains(tm.stable_current_state@);
    lemma_entries_map_value(tm.current_state@);
    assert forall|p: (int, int)| #[trigger] tm@.active.contains_key(p) implies !tm@.stable.contains_key(
        p,
    ) && tm@.active[p].ttl >= 1 by {
        let i = choose|i: int|
            0 <= i < tm.current_state@.len() && (#[trigger] tm.current_state@[i]).0.xy() == p;
        if tm@.stable.contains_key(p) {
            let j = choose|j: int|
                0 <= j < tm.stable_current_state@.len() && (
                #[trigger] tm.stable_current_state@[j]).0.xy() == p;
        }
    }
}

/// Index of the entry for `c`, if the sequence holds one.
pub(crate) fn find_entry(v: &Vec<(uVec3, Cell)>, c: uVec3) -> (r: Option<usize>)
    ensures
        match r {
            Some(i) => i < v@.len() && v@[i as int].0 == c,
            None => forall|j: int| 0 <= j < v@.len() ==> (#[trigger] v@[j]).0 != c,
        },
{
    let mut idx: usize = 0;
    while idx < v.len()
        invariant
            idx <= v@.len(),
            forall|j: int| 0 <= j < idx ==> (#[trigger] v@[j]).0 != c,
        decreases v@.len() - idx,
    {
        if v[idx].0 == c {
            return Some(idx);
        }
        idx = idx + 1;
    }
    None
}

/// Nothing in a well-formed partition can collide with `c` on `xy` without
/// being equal to `c` outright.
pub(crate) proof fn lemma_absent_xy(s: Seq<(uVec3, Cell)>, c: uVec3)
    requires
        c.z == 0,
        forall|i: int| 0 <= i < s.len() ==> (#[trigger] s[i]).0.z == 0,
        forall|i: int| 0 <= i < s.len() ==> (#[trigger] s[i]).0 != c,
    ensures
        !entries_map(s).contains_key(c.xy()),
        entries_map(s).remove(c.xy()) == entries_map(s),
{
    lemma_entries_map_contains(s);
    if entries_map(s).contains_key(c.xy()) {
        let i = choose|i: int| 0 <= i < s.len() && (#[trigger] s[i]).0.xy() == c.xy();
        assert(s[i].0.x == c.x && s[i].0.y == c.y && s[i].0.z == c.z);
        assert(s[i].0 == c);
    }
    assert(entries_map(s).remove(c.xy()) =~= entries_map(s));
}

impl TileMap {
    /// Whether `c` is live in either partition.
    pub fn is_alive(&self, c: uVec3) -> (r: bool)
        requires
            self.wf(),
            c.z == 0,
        ensures
            r == live_at(self@, c.x as int, c.y as int),
    {
        proof {
            lemma_entries_map_contains(self.current_state@);
            lemma_entries_map_contains(self.stable_current_state@);
        }
        let in_active = find_entry(&self.current_state, c);
        let in_stable = find_entry(&self.stable_current_state, c);
        proof {
            if in_active is None {
                lemma_absent_xy(self.current_state@, c);
            }
            if in_stable is None {
                lemma_absent_xy(self.stable_current_state@, c);
            }
        }
        in_active.is_some() || in_stable.is_some()
    }

    /// The record stored for `c`, if `c` is live.
    pub fn get(&self, c: uVec3) -> (r: Option<&Cell>)
        requires
            self.wf(),
            c.z == 0,
        ensures
            match r {
                Some(cell) => live_at(self@, c.x as int, c.y as int) && *cell == cell_at(
                    self@,
                    c.x as int,
                    c.y as int,
                ),
                None => !live_at(self@, c.x as int, c.y as int),
            },
    {
        proof {
            lemma_entries_map_contains(self.current_state@);
            lemma_entries_map_contains(self.stable_current_state@);
            lemma_entries_map_value(self.current_state@);
            lemma_entries_map_value(self.stable_current_state@);
        }
        match find_entry(&self.current_state, c) {
            Some(i) => Some(&self.current_state[i].1),
            None => {
                proof {
                    lemma_absent_xy(self.current_state@, c);
                }
                match find_entry(&self.stable_current_state, c) {
                    Some(j) => Some(&self.stable_current_state[j].1),
                    None => {
                        proof {
                            lemma_absent_xy(self.stable_current_state@, c);
                        }
                        None
                    },
                }
            },
        }
    }
}

impl TileMap {
    /// Make `c` an active cell with countdown `ttl`, keeping the placeholder
    /// of an already-live cell and leaving a dead one unassigned.  A stable
    /// `c` is moved out of the stable partition.
    pub fn set_active(&mut self, c: uVec3, ttl: u32)
        requires
            old(self).wf(),
            c.z == 0,
            ttl >= 1,
        ensures
            final(self).wf(),
            final(self).running == old(self).running,
            final(self)@.active == old(self)@.active.insert(
                c.xy(),
                (Cell {
                    placeholder: if live_at(old(self)@, c.x as int, c.y as int) {
                        cell_at(old(self)@, c.x as int, c.y as int).placeholder
                    } else {
                        None
                    },
                    ttl,
                }),
            ),
            final(self)@.stable == old(self)@.stable.remove(c.xy()),
    {
        proof {
            lemma_entries_map_contains(self.current_state@);
            lemma_entries_map_contains(self.stable_current_state@);
            lemma_entries_map_value(self.current_state@);
            lemma_entries_map_value(self.stable_current_state@);
        }
        let ghost pre = *self;
        match find_entry(&self.current_state, c) {
            Some(i) => {
                let ph = self.current_state[i].1.placeholder;
                self.current_state.set(i, (c, Cell { placeholder: ph, ttl }));
                proof {
                    lemma_entries_map_update(
                        pre.current_state@,
                        i as int,
                        (c, Cell { placeholder: ph, ttl }),
                    );
                    assert forall|a: int, b: int|
                        0 <= a < b < self.current_state@.len() implies (
                    #[trigger] self.current_state@[a]).0.xy() != (
                    #[trigger] self.current_state@[b]).0.xy() by {
                        assert(pre.current_state@[a].0.xy() == self.current_state@[a].0.xy());
                        assert(pre.current_state@[b].0.xy() == self.current_state@[b].0.xy());
                    }
                    // `c` is active, so by disjointness it is absent from stable
                    assert forall|j: int|
                        0 <= j < self.stable_current_state@.len() implies (
                    #[trigger] self.stable_current_state@[j]).0 != c by {
                        assert(pre.stable_current_state@[j].0.xy() != pre.current_state@[
                            i as int].0.xy());
                    }
                    lemma_absent_xy(self.stable_current_state@, c);
                }
            },
            None => {
                proof {
                    lemma_absent_xy(self.current_state@, c);
                }
                match find_entry(&self.stable_current_state, c) {
                    Some(j) => {
                        let e = self.stable_current_state.remove(j);
                        self.current_state.push((c, Cell { placeholder: e.1.placeholder, ttl }));
                        proof {
                            lemma_entries_map_remove(pre.stable_current_state@, j as int);
                            lemma_entries_map_push(
                                pre.current_state@,
                                (c, Cell { placeholder: e.1.placeholder, ttl }),
                            );
                            assert(e.0 == c);
                            assert(cell_at(pre@, c.x as int, c.y as int) == e.1);
                        }
                    },
                    None => {
                        self.current_state.push((c, Cell { placeholder: None, ttl }));
                        proof {
                            lemma_absent_xy(pre.stable_current_state@, c);
                            lemma_entries_map_push(
                                pre.current_state@,
                                (c, Cell { placeholder: None, ttl }),
                            );
                        }
                    },
                }
            },
        }
    }

    /// Wake a stable `c` back into the active partition with countdown
    /// `ttl`, keeping its placeholder.  Does nothing when `c` is not stable.
    pub fn promote(&mut self, c: uVec3, ttl: u32)
        requires
            old(self).wf(),
            c.z == 0,
            ttl >= 1,
        ensures
            final(self).wf(),
            final(self).running == old(self).running,
            old(self)@.stable.contains_key(c.xy()) ==> final(self)@.active == old(
                self,
            )@.active.insert(
                c.xy(),
                (Cell { placeholder: old(self)@.stable[c.xy()].placeholder, ttl }),
            ) && final(self)@.stable == old(self)@.stable.remove(c.xy()),
            !old(self)@.stable.contains_key(c.xy()) ==> final(self).current_state@ == old(
                self,
            ).current_state@ && final(self).stable_current_state@ == old(
                self,
            ).stable_current_state@,
    {
        proof {
            lemma_entries_map_contains(self.stable_current_state@);
            lemma_entries_map_value(self.stable_current_state@);
        }
        let ghost pre = *self;
        match find_entry(&self.stable_current_state, c) {
            Some(j) => {
                let e = self.stable_current_state.remove(j);
                self.current_state.push((c, Cell { placeholder: e.1.placeholder, ttl }));
                proof {
                    lemma_entries_map_remove(pre.stable_current_state@, j as int);
                    lemma_entries_map_push(
                        pre.current_state@,
                        (c, Cell { placeholder: e.1.placeholder, ttl }),
                    );
                    assert(e.0 == c);
                    assert forall|i: int|
                        0 <= i < pre.current_state@.len() implies (
                    #[trigger] pre.current_state@[i]).0.xy() != c.xy() by {
                        assert(pre.current_state@[i].0.xy() != pre.stable_current_state@[
                            j as int].0.xy());
                    }
                }
            },
            None => {
                proof {
                    lemma_absent_xy(self.stable_current_state@, c);
                }
            },
        }
    }

    /// Retire an active `c` into the stable partition, keeping its
    /// placeholder.  Does nothing when `c` is not active.
    pub fn demote(&mut self, c: uVec3)
        requires
            old(self).wf(),
            c.z == 0,
        ensures
            final(self).wf(),
            final(self).running == old(self).running,
            old(self)@.active.contains_key(c.xy()) ==> final(self)@.active == old(
                self,
            )@.active.remove(c.xy()) && final(self)@.stable == old(self)@.stable.insert(
                c.xy(),
                (Cell { placeholder: old(self)@.active[c.xy()].placeholder, ttl: 0 }),
            ),
            !old(self)@.active.contains_key(c.xy()) ==> final(self).current_state@ == old(
                self,
            ).current_state@ && final(self).stable_current_state@ == old(
                self,
            ).stable_current_state@,
    {
        proof {
            lemma_entries_map_contains(self.current_state@);
            lemma_entries_map_value(self.current_state@);
        }
        let ghost pre = *self;
        match find_entry(&self.current_state, c) {
            Some(i) => {
                let e = self.current_state.remove(i);
                self.stable_current_state.push(
                    (c, Cell { placeholder: e.1.placeholder, ttl: 0 }),
                );
                proof {
                    lemma_entries_map_remove(pre.current_state@, i as int);
                    lemma_entries_map_push(
                        pre.stable_current_state@,
                        (c, Cell { placeholder: e.1.placeholder, ttl: 0 }),
                    );
                    assert(e.0 == c);
                    assert forall|j: int|
                        0 <= j < pre.stable_current_state@.len() implies (
                    #[trigger] pre.stable_current_state@[j]).0.xy() != c.xy() by {
                        assert(pre.current_state@[i as int].0.xy() != pre.stable_current_state@[
                            j].0.xy());
                    }
                }
            },
            None => {
                proof {
                    lemma_absent_xy(self.current_state@, c);
                }
            },
        }
    }

    /// Remove `c` from whichever partition holds it; removing a dead
    /// coordinate is a no-op.
    pub fn remove(&mut self, c: uVec3)
        requires
            old(self).wf(),
            c.z == 0,
        ensures
            final(self).wf(),
            final(self).running == old(self).running,
            final(self)@.active == old(self)@.active.remove(c.xy()),
            final(self)@.stable == old(self)@.stable.remove(c.xy()),
    {
        let ghost pre = *self;
        match find_entry(&self.current_state, c) {
            Some(i) => {
                self.current_state.remove(i);
                proof {
                    lemma_entries_map_remove(pre.current_state@, i as int);
                    assert forall|a: int, b: int|
                        0 <= a < b < self.current_state@.len() implies (
                    #[trigger] self.current_state@[a]).0.xy() != (
                    #[trigger] self.current_state@[b]).0.xy() by {
                        let sa: int = if a < i { a } else { a + 1 };
                        let sb: int = if b < i { b } else { b + 1 };
                        assert(self.current_state@[a] == pre.current_state@[sa]);
                        assert(self.current_state@[b] == pre.current_state@[sb]);
                    }
                    assert forall|a: int, j: int|
                        0 <= a < self.current_state@.len() && 0 <= j
                            < self.stable_current_state@.len() implies (
                    #[trigger] self.current_state@[a]).0.xy() != (
                    #[trigger] self.stable_current_state@[j]).0.xy() by {
                        let sa: int = if a < i { a } else { a + 1 };
                        assert(self.current_state@[a] == pre.current_state@[sa]);
                    }
                    assert forall|a: int|
                        0 <= a < self.current_state@.len() implies (
                    #[trigger] self.current_state@[a]).0.z == 0 && self.current_state@[
                        a].1.ttl >= 1 by {
                        let sa: int = if a < i { a } else { a + 1 };
                        assert(self.current_state@[a] == pre.current_state@[sa]);
                    }
                    // `c` was active, hence absent from stable
                    assert forall|j: int|
                        0 <= j < self.stable_current_state@.len() implies (
                    #[trigger] self.stable_current_state@[j]).0 != c by {
                        assert(pre.stable_current_state@[j].0.xy() != pre.current_state@[
                            i as int].0.xy());
                    }
                    lemma_absent_xy(self.stable_current_state@, c);
                }
            },
            None => {
                proof {
                    lemma_absent_xy(self.current_state@, c);
                }
                match find_entry(&self.stable_current_state, c) {
                    Some(j) => {
                        self.stable_current_state.remove(j);
                        proof {
                            lemma_entries_map_remove(pre.stable_current_state@, j as int);
                            assert forall|a: int, b: int|
                                0 <= a < b < self.stable_current_state@.len() implies (
                            #[trigger] self.stable_current_state@[a]).0.xy() != (
                            #[trigger] self.stable_current_state@[b]).0.xy() by {
                                let sa: int = if a < j { a } else { a + 1 };
                                let sb: int = if b < j { b } else { b + 1 };
                                assert(self.stable_current_state@[a] == pre.stable_current_state@[
                                    sa]);
                                assert(self.stable_current_state@[b] == pre.stable_current_state@[
                                    sb]);
                            }
                            assert forall|a: int, i: int|
                                0 <= a < self.current_state@.len() && 0 <= i
                                    < self.stable_current_state@.len() implies (
                            #[trigger] self.current_state@[a]).0.xy() != (
                            #[trigger] self.stable_current_state@[i]).0.xy() by {
                                let si: int = if i < j { i } else { i + 1 };
                                assert(self.stable_current_state@[i] == pre.stable_current_state@[
                                    si]);
                            }
                            assert forall|a: int|
                                0 <= a < self.stable_current_state@.len() implies (
                            #[trigger] self.stable_current_state@[a]).0.z == 0 by {
                                let sa: int = if a < j { a } else { a + 1 };
                                assert(self.stable_current_state@[a] == pre.stable_current_state@[
                                    sa]);
                            }
                        }
                    },
                    None => {
                        proof {
                            lemma_absent_xy(self.stable_current_state@, c);
                        }
                    },
                }
            },
        }
    }
}

impl TileMap {
    /// The (coordinate, placeholder) pairs of all live cells, active
    /// partition first: the view the render boundary consumes once per
    /// render sync.
    pub fn live_cells(&self) -> (r: Vec<(uVec3, Option<usize>)>)
        ensures
            r@.len() == self.current_state@.len() + self.stable_current_state@.len(),
            forall|i: int|
                0 <= i < self.current_state@.len() ==> #[trigger] r@[i] == (
                self.current_state@[i].0,
                self.current_state@[i].1.placeholder,
                ),
            forall|i: int|
                self.current_state@.len() <= i < r@.len() ==> #[trigger] r@[i] == (
                self.stable_current_state@[i - self.current_state@.len()].0,
                self.stable_current_state@[i - self.current_state@.len()].1.placeholder,
                ),
    {
        let mut r: Vec<(uVec3, Option<usize>)> = Vec::new();
        let mut i: usize = 0;
        while i < self.current_state.len()
            invariant
                i <= self.current_state@.len(),
                r@.len() == i,
                forall|j: int|
                    0 <= j < i ==> #[trigger] r@[j] == (
                    self.current_state@[j].0,
                    self.current_state@[j].1.placeholder,
                    ),
            decreases self.current_state@.len() - i,
        {
            let e = self.current_state[i];
            r.push((e.0, e.1.placeholder));
            i = i + 1;
        }
        let base = self.current_state.len();
        let mut j: usize = 0;
        while j < self.stable_current_state.len()
            invariant
                j <= self.stable_current_state@.len(),
                base == self.current_state@.len(),
                r@.len() == base + j,
                forall|k: int|
                    0 <= k < base ==> #[trigger] r@[k] == (
                    self.current_state@[k].0,
                    self.current_state@[k].1.placeholder,
                    ),
                forall|k: int|
                    base <= k < r@.len() ==> #[trigger] r@[k] == (
                    self.stable_current_state@[k - base].0,
                    self.stable_current_state@[k - base].1.placeholder,
                    ),
            decreases self.stable_current_state@.len() - j,
        {
            let e = self.stable_current_state[j];
            r.push((e.0, e.1.placeholder));
            j = j + 1;
        }
        r
    }
}

} // verus!
