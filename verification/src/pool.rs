//! The pool of reusable render placeholders and its reconciliation against
//! the live cells: placeholders are acquired for cells that lack one,
//! parked when unused, and despawned outright when far too many sit idle.

use vstd::prelude::*;
use vstd::map::*;
use crate::uvec3::uVec3;
use crate::cell_store::{
    Cell, TileMap, live_at, cell_at, entries_map, lemma_entries_map_contains,
    lemma_entries_map_value,
};

verus! {

/// One reusable placeholder: free, or showing the cell at a coordinate.
#[derive(Clone, Copy)]
pub struct Tile {
    pub assigned: Option<uVec3>,
}

/// The pool of placeholders; a placeholder handle is an index into
/// `tiles`.
pub struct TilesCache {
    pub tiles: Vec<Tile>,
}

/// Number of assigned placeholders.
pub open spec fn assigned_count(s: Seq<Tile>) -> int
    decreases s.len(),
{
    if s.len() == 0 {
        0
    } else {
        assigned_count(s.drop_last()) + if s.last().assigned is Some {
            1int
        } else {
            0int
        }
    }
}

/// Number of free placeholders.
pub open spec fn free_count(s: Seq<Tile>) -> int {
    s.len() - assigned_count(s)
}

/// A live entry owns a placeholder that shows its own coordinate.
pub open spec fn entry_consistent(e: (uVec3, Cell), tiles: Seq<Tile>) -> bool {
    match e.1.placeholder {
        Some(i) => i < tiles.len() && tiles[i as int].assigned == Some(e.0),
        None => false,
    }
}

/// Some entry owns placeholder `k` and sits at coordinate `c`.
pub open spec fn points_back(entries: Seq<(uVec3, Cell)>, k: int, c: uVec3) -> bool {
    exists|i: int|
        0 <= i < entries.len() && (#[trigger] entries[i]).0 == c && entries[i].1.placeholder
            is Some && entries[i].1.placeholder->0 as int == k
}

/// Placeholder `k`, if assigned, is owned by an entry at its coordinate.
pub open spec fn slot_points_back(entries: Seq<(uVec3, Cell)>, tiles: Seq<Tile>, k: int) -> bool {
    match tiles[k].assigned {
        Some(c) => points_back(entries, k, c),
        None => true,
    }
}

/// Full consistency between a store and the pool: every live cell owns a
/// placeholder showing it, and every assigned placeholder is owned by the
/// live cell it shows.  Distinct cells then own distinct placeholders,
/// since a placeholder records the one coordinate it shows.
pub open spec fn store_consistent(tm: TileMap, tiles: Seq<Tile>) -> bool {
    &&& forall|i: int|
        0 <= i < tm.current_state@.len() ==> entry_consistent(
            #[trigger] tm.current_state@[i],
            tiles,
        )
    &&& forall|i: int|
        0 <= i < tm.stable_current_state@.len() ==> entry_consistent(
            #[trigger] tm.stable_current_state@[i],
            tiles,
        )
    &&& forall|k: int|
        0 <= k < tiles.len() ==> slot_points_back(
            tm.current_state@ + tm.stable_current_state@,
            tiles,
            k,
        )
}

/// The pool's hysteresis has nothing left to do: no placeholder is free,
/// or at most 80 percent of them are.
pub open spec fn settled(tiles: Seq<Tile>) -> bool {
    free_count(tiles) == 0 || 100 * free_count(tiles) <= 80 * tiles.len()
}

/// A pool whose assigned placeholders are each owned by exactly one of a
/// set of distinct consistent entries has exactly one assigned placeholder
/// per entry.
pub proof fn lemma_pointback_count(tiles: Seq<Tile>, entries: Seq<(uVec3, Cell)>)
    requires
        crate::cell_store::distinct_coords(entries),
        forall|i: int| 0 <= i < entries.len() ==> entry_consistent(#[trigger] entries[i], tiles),
        forall|k: int| 0 <= k < tiles.len() ==> slot_points_back(entries, tiles, k),
    ensures
        assigned_count(tiles) == entries.len(),
    decreases tiles.len(),
{
    if tiles.len() == 0 {
        if entries.len() > 0 {
            assert(entry_consistent(entries[0], tiles));
        }
    } else {
        let k = tiles.len() - 1;
        let t = tiles.drop_last();
        match tiles[k].assigned {
            None => {
                assert forall|i: int| 0 <= i < entries.len() implies entry_consistent(
                    #[trigger] entries[i],
                    t,
                ) by {
                    assert(entry_consistent(entries[i], tiles));
                    let ki = entries[i].1.placeholder->0;
                    assert(tiles[ki as int].assigned == Some(entries[i].0));
                    assert(ki as int != k);
                    assert(t[ki as int] == tiles[ki as int]);
                }
                assert forall|kk: int| 0 <= kk < t.len() implies slot_points_back(
                    entries,
                    t,
                    kk,
                ) by {
                    assert(t[kk] == tiles[kk]);
                    assert(slot_points_back(entries, tiles, kk));
                }
                lemma_pointback_count(t, entries);
            },
            Some(c) => {
                assert(slot_points_back(entries, tiles, k));
                let i0 = choose|i: int|
                    0 <= i < entries.len() && (#[trigger] entries[i]).0 == c && entries[
                        i].1.placeholder is Some && entries[i].1.placeholder->0 as int == k;
                let rest = entries.remove(i0);
                assert forall|a: int, b: int| 0 <= a < b < rest.len() implies (
                #[trigger] rest[a]).0.xy() != (#[trigger] rest[b]).0.xy() by {
                    let sa: int = if a < i0 { a } else { a + 1 };
                    let sb: int = if b < i0 { b } else { b + 1 };
                    assert(rest[a] == entries[sa] && rest[b] == entries[sb]);
                }
                assert forall|i: int| 0 <= i < rest.len() implies entry_consistent(
                    #[trigger] rest[i],
                    t,
                ) by {
                    let si: int = if i < i0 { i } else { i + 1 };
                    assert(rest[i] == entries[si]);
                    assert(entry_consistent(entries[si], tiles));
                    let ki = entries[si].1.placeholder->0;
                    if ki as int == k {
                        // two distinct entries at the same coordinate
                        assert(tiles[k].assigned == Some(entries[si].0));
                        assert(entries[si].0 == c && entries[i0].0 == c);
                        assert(entries[si].0.xy() == entries[i0].0.xy());
                        assert(false);
                    }
                    assert(t[ki as int] == tiles[ki as int]);
                }
                assert forall|kk: int| 0 <= kk < t.len() implies slot_points_back(
                    rest,
                    t,
                    kk,
                ) by {
                    assert(t[kk] == tiles[kk]);
                    assert(slot_points_back(entries, tiles, kk));
                    match tiles[kk].assigned {
                        Some(c2) => {
                            let i2 = choose|i: int|
                                0 <= i < entries.len() && (#[trigger] entries[i]).0 == c2
                                    && entries[i].1.placeholder is Some && entries[
                                    i].1.placeholder->0 as int == kk;
                            assert(i2 != i0);
                            let ri: int = if i2 < i0 {
                                i2
                            } else {
                                i2 - 1
                            };
                            assert(rest[ri] == entries[i2]);
                            assert((#[trigger] rest[ri]).0 == c2 && rest[ri].1.placeholder
                                is Some && rest[ri].1.placeholder->0 as int == kk);
                        },
                        None => {},
                    }
                }
                lemma_pointback_count(t, rest);
            },
        }
    }
}

impl TilesCache {
    pub fn new() -> (cache: TilesCache)
        ensures
            cache.tiles@.len() == 0,
    {
        TilesCache { tiles: Vec::new() }
    }

    /// The indices of the currently unassigned placeholders, in increasing
    /// order: the ones the render boundary parks off-screen until reuse.
    pub fn free_placeholders(&self) -> (r: Vec<usize>)
        ensures
            forall|i: int|
                0 <= i < r@.len() ==> (#[trigger] r@[i]) < self.tiles@.len() && self.tiles@[
                    r@[i] as int].assigned is None,
            forall|k: int|
                0 <= k < self.tiles@.len() && (#[trigger] self.tiles@[k]).assigned is None
                    ==> exists|i: int| 0 <= i < r@.len() && (#[trigger] r@[i]) as int == k,
            forall|i: int, j: int| 0 <= i < j < r@.len() ==> (#[trigger] r@[i]) < (#[trigger] r@[j]),
    {
        let mut r: Vec<usize> = Vec::new();
        let mut k: usize = 0;
        while k < self.tiles.len()
            invariant
                k <= self.tiles@.len(),
                forall|i: int|
                    0 <= i < r@.len() ==> (#[trigger] r@[i]) < k && self.tiles@[
                        r@[i] as int].assigned is None,
                forall|kk: int|
                    0 <= kk < k && (#[trigger] self.tiles@[kk]).assigned is None ==> exists|i: int|
                        0 <= i < r@.len() && (#[trigger] r@[i]) as int == kk,
                forall|i: int, j: int|
                    0 <= i < j < r@.len() ==> (#[trigger] r@[i]) < (#[trigger] r@[j]),
            decreases self.tiles@.len() - k,
        {
            let ghost pr = r@;
            match self.tiles[k].assigned {
                None => {
                    r.push(k);
                    proof {
                        assert forall|kk: int|
                            0 <= kk < k + 1 && (#[trigger] self.tiles@[kk]).assigned
                                is None implies exists|i: int|
                            0 <= i < r@.len() && (#[trigger] r@[i]) as int == kk by {
                            if kk < k {
                                let i = choose|i: int|
                                    0 <= i < pr.len() && (#[trigger] pr[i]) as int == kk;
                                assert((#[trigger] r@[i]) as int == kk);
                            } else {
                                assert((#[trigger] r@[pr.len() as int]) as int == kk);
                            }
                        }
                    }
                },
                Some(_) => {},
            }
            k = k + 1;
        }
        r
    }
}

/// The entries of `a` and `b` agree on coordinates and countdowns; only
/// the placeholder fields may differ.
pub open spec fn same_cells(a: Seq<(uVec3, Cell)>, b: Seq<(uVec3, Cell)>) -> bool {
    a.len() == b.len() && forall|i: int|
        0 <= i < a.len() ==> (#[trigger] a[i]).0 == b[i].0 && a[i].1.ttl == b[i].1.ttl
}

/// One placeholder after the scrub: kept when the cell it claims to show
/// is live and owns it, freed otherwise.
pub open spec fn scrub_slot(tm: TileMap, t: Tile, k: int) -> Tile {
    match t.assigned {
        Some(c) => {
            if c.z == 0 && live_at(tm@, c.x as int, c.y as int) && cell_at(
                tm@,
                c.x as int,
                c.y as int,
            ).placeholder == Some(k as usize) {
                t
            } else {
                Tile { assigned: None }
            }
        },
        None => t,
    }
}

/// Free every placeholder whose cell died or no longer owns it.
#[verifier::loop_isolation(false)]
fn scrub(tm: &TileMap, tiles: &Vec<Tile>) -> (out: Vec<Tile>)
    requires
        tm.wf(),
    ensures
        out@.len() == tiles@.len(),
        forall|k: int| 0 <= k < out@.len() ==> out@[k] == scrub_slot(*tm, tiles@[k], k),
{
    let mut out: Vec<Tile> = Vec::new();
    let mut k: usize = 0;
    while k < tiles.len()
        invariant
            k <= tiles@.len(),
            out@.len() == k,
            forall|kk: int| 0 <= kk < k ==> out@[kk] == scrub_slot(*tm, tiles@[kk], kk),
        decreases tiles@.len() - k,
    {
        let t = tiles[k];
        let keep: bool = match t.assigned {
            Some(c) => {
                if c.z == 0 {
                    match tm.get(c) {
                        Some(cell) => {
                            match cell.placeholder {
                                Some(i) => i == k,
                                None => false,
                            }
                        },
                        None => false,
                    }
                } else {
                    false
                }
            },
            None => false,
        };
        if keep {
            out.push(t);
        } else {
            match t.assigned {
                Some(_) => out.push(Tile { assigned: None }),
                None => out.push(t),
            }
        }
        k = k + 1;
    }
    out
}

/// On a consistent store the scrub frees nothing.
proof fn lemma_consistent_scrub(tm: TileMap, tiles: Seq<Tile>)
    requires
        tm.wf(),
        store_consistent(tm, tiles),
    ensures
        forall|k: int| 0 <= k < tiles.len() ==> scrub_slot(tm, #[trigger] tiles[k], k)
            == tiles[k],
{
    let act = tm.current_state@;
    let stab = tm.stable_current_state@;
    lemma_entries_map_contains(act);
    lemma_entries_map_value(act);
    lemma_entries_map_contains(stab);
    lemma_entries_map_value(stab);
    crate::cell_store::lemma_wf_state(tm);
    assert forall|k: int| 0 <= k < tiles.len() implies scrub_slot(tm, #[trigger] tiles[k], k)
        == tiles[k] by {
        match tiles[k].assigned {
            Some(c) => {
                assert(slot_points_back(act + stab, tiles, k));
                let i = choose|i: int|
                    0 <= i < (act + stab).len() && (#[trigger] (act + stab)[i]).0 == c && (act
                        + stab)[i].1.placeholder is Some && (act + stab)[i].1.placeholder->0 as int
                        == k;
                if i < act.len() {
                    assert((act + stab)[i] == act[i]);
                    assert(tm@.active.contains_key(c.xy()) && tm@.active[c.xy()] == act[i].1);
                    assert(cell_at(tm@, c.x as int, c.y as int) == act[i].1);
                } else {
                    assert((act + stab)[i] == stab[i - act.len()]);
                    let e = stab[i - act.len()];
                    assert(tm@.stable.contains_key(c.xy()) && tm@.stable[c.xy()] == e.1);
                    assert(!tm@.active.contains_key(c.xy()));
                    assert(cell_at(tm@, c.x as int, c.y as int) == e.1);
                }
            },
            None => {},
        }
    }
}

/// Index of some free placeholder, if one exists.
fn find_free(tiles: &Vec<Tile>) -> (r: Option<usize>)
    ensures
        match r {
            Some(j) => j < tiles@.len() && tiles@[j as int].assigned is None,
            None => forall|k: int|
                0 <= k < tiles@.len() ==> (#[trigger] tiles@[k]).assigned is Some,
        },
{
    let mut j: usize = 0;
    while j < tiles.len()
        invariant
            j <= tiles@.len(),
            forall|k: int| 0 <= k < j ==> (#[trigger] tiles@[k]).assigned is Some,
        decreases tiles@.len() - j,
    {
        match tiles[j].assigned {
            None => {
                return Some(j);
            },
            Some(_) => {},
        }
        j = j + 1;
    }
    None
}

/// Number of assigned placeholders.
fn count_assigned(tiles: &Vec<Tile>) -> (n: usize)
    ensures
        n == assigned_count(tiles@),
        n <= tiles@.len(),
{
    let mut n: usize = 0;
    let mut k: usize = 0;
    while k < tiles.len()
        invariant
            k <= tiles@.len(),
            n <= k,
            n == assigned_count(tiles@.subrange(0, k as int)),
        decreases tiles@.len() - k,
    {
        proof {
            assert(tiles@.subrange(0, k as int + 1).drop_last() =~= tiles@.subrange(0, k as int));
            assert(tiles@.subrange(0, k as int + 1).last() == tiles@[k as int]);
        }
        match tiles[k].assigned {
            Some(_) => {
                n = n + 1;
            },
            None => {},
        }
        k = k + 1;
    }
    proof {
        assert(tiles@.subrange(0, tiles@.len() as int) =~= tiles@);
    }
    n
}

/// Placeholder `k`, if assigned, is owned by an entry of one of the three
/// groups at its coordinate.
spec fn slot_claimed(
    a: Seq<(uVec3, Cell)>,
    b: Seq<(uVec3, Cell)>,
    c: Seq<(uVec3, Cell)>,
    tiles: Seq<Tile>,
    k: int,
) -> bool {
    match tiles[k].assigned {
        Some(co) => points_back(a, k, co) || points_back(b, k, co) || points_back(c, k, co),
        None => true,
    }
}

/// Placeholder `k`, if assigned, is owned at its coordinate by an entry of
/// `s` whose index is at least `from`.
spec fn points_back_from(s: Seq<(uVec3, Cell)>, from: int, k: int, c: uVec3) -> bool {
    exists|i: int|
        from <= i < s.len() && (#[trigger] s[i]).0 == c && s[i].1.placeholder is Some && s[
            i].1.placeholder->0 as int == k
}

/// Placeholder `k`, if assigned, is owned at its coordinate by `prior`,
/// by the emitted entries, by an entry of the walked partition not yet
/// reached (index at least `i`), or by the waiting partition.
spec fn claim4(
    prior: Seq<(uVec3, Cell)>,
    outs: Seq<(uVec3, Cell)>,
    entries: Seq<(uVec3, Cell)>,
    rest: Seq<(uVec3, Cell)>,
    tiles: Seq<Tile>,
    k: int,
    i: int,
) -> bool {
    match tiles[k].assigned {
        Some(co) => points_back(prior, k, co) || points_back(outs, k, co) || points_back_from(
            entries,
            i,
            k,
            co,
        ) || points_back(rest, k, co),
        None => true,
    }
}

/// Keeping a valid placeholder moves its owner from the unprocessed part
/// of the walk into the emitted entries; every claim survives.
proof fn lemma_claims_keep(
    prior: Seq<(uVec3, Cell)>,
    po: Seq<(uVec3, Cell)>,
    entries: Seq<(uVec3, Cell)>,
    rest: Seq<(uVec3, Cell)>,
    tiles: Seq<Tile>,
    i: int,
)
    requires
        0 <= i < entries.len(),
        po.len() == i,
        forall|k: int| 0 <= k < tiles.len() ==> claim4(prior, po, entries, rest, tiles, k, i),
    ensures
        forall|k: int|
            0 <= k < tiles.len() ==> #[trigger] claim4(prior, po.push(entries[i]), entries, rest, tiles, k, i + 1),
{
    let out = po.push(entries[i]);
    assert forall|k: int| 0 <= k < tiles.len() implies #[trigger] claim4(
        prior,
        out,
        entries,
        rest,
        tiles,
        k,
        i + 1,
    ) by {
        assert(claim4(prior, po, entries, rest, tiles, k, i));
        match tiles[k].assigned {
            Some(co) => {
                if points_back(po, k, co) {
                    let ii = choose|ii: int|
                        0 <= ii < po.len() && (#[trigger] po[ii]).0 == co && po[ii].1.placeholder
                            is Some && po[ii].1.placeholder->0 as int == k;
                    assert((#[trigger] out[ii]).0 == co);
                } else if points_back_from(entries, i, k, co) {
                    let ii = choose|ii: int|
                        i <= ii < entries.len() && (#[trigger] entries[ii]).0 == co && entries[
                            ii].1.placeholder is Some && entries[ii].1.placeholder->0 as int == k;
                    if ii == i {
                        assert((#[trigger] out[i]).0 == co);
                        assert(points_back(out, k, co));
                    }
                }
            },
            None => {},
        }
    }
}

/// Growing the pool with a fresh free placeholder disturbs no claim.
proof fn lemma_claims_grow(
    prior: Seq<(uVec3, Cell)>,
    po: Seq<(uVec3, Cell)>,
    entries: Seq<(uVec3, Cell)>,
    rest: Seq<(uVec3, Cell)>,
    tiles: Seq<Tile>,
    i: int,
)
    requires
        forall|k: int| 0 <= k < tiles.len() ==> claim4(prior, po, entries, rest, tiles, k, i),
    ensures
        forall|k: int|
            0 <= k < tiles.push(Tile { assigned: None }).len() ==> #[trigger] claim4(
                prior,
                po,
                entries,
                rest,
                tiles.push(Tile { assigned: None }),
                k,
                i,
            ),
{
    let t2 = tiles.push(Tile { assigned: None });
    assert forall|k: int| 0 <= k < t2.len() implies #[trigger] claim4(prior, po, entries, rest, t2, k, i) by {
        if k < tiles.len() {
            assert(t2[k] == tiles[k]);
            assert(claim4(prior, po, entries, rest, tiles, k, i));
        }
    }
}

/// Assigning a free placeholder to the walked cell claims exactly that
/// placeholder for the emitted entry; every other claim survives.  The
/// walked cell's own stale claim cannot name a still-assigned slot at its
/// coordinate, or the walk would have kept it.
proof fn lemma_claims_acquire(
    prior: Seq<(uVec3, Cell)>,
    po: Seq<(uVec3, Cell)>,
    entries: Seq<(uVec3, Cell)>,
    rest: Seq<(uVec3, Cell)>,
    tiles: Seq<Tile>,
    i: int,
    j: usize,
)
    requires
        0 <= i < entries.len(),
        po.len() == i,
        (j as int) < tiles.len(),
        tiles[j as int].assigned is None,
        !(entries[i].1.placeholder is Some && (entries[i].1.placeholder->0 as int) < tiles.len()
            && tiles[entries[i].1.placeholder->0 as int].assigned == Some(entries[i].0)),
        forall|k: int| 0 <= k < tiles.len() ==> claim4(prior, po, entries, rest, tiles, k, i),
    ensures
        forall|k: int|
            0 <= k < tiles.len() ==> #[trigger] claim4(
                prior,
                po.push((entries[i].0, (Cell { placeholder: Some(j), ttl: entries[i].1.ttl }))),
                entries,
                rest,
                tiles.update(j as int, Tile { assigned: Some(entries[i].0) }),
                k,
                i + 1,
            ),
{
    let e = entries[i];
    let out = po.push((e.0, (Cell { placeholder: Some(j), ttl: e.1.ttl })));
    let t2 = tiles.update(j as int, Tile { assigned: Some(e.0) });
    assert forall|k: int| 0 <= k < t2.len() implies #[trigger] claim4(prior, out, entries, rest, t2, k, i + 1) by {
        assert(claim4(prior, po, entries, rest, tiles, k, i));
        if k == j as int {
            assert((#[trigger] out[i]).0 == e.0);
            assert(points_back(out, k, e.0));
        } else {
            assert(t2[k] == tiles[k]);
            lemma_claims_acquire_other(prior, po, out, entries, rest, tiles, i, j, k);
        }
    }
}

/// The claim of a slot other than the acquired one survives the
/// acquisition step.
proof fn lemma_claims_acquire_other(
    prior: Seq<(uVec3, Cell)>,
    po: Seq<(uVec3, Cell)>,
    out: Seq<(uVec3, Cell)>,
    entries: Seq<(uVec3, Cell)>,
    rest: Seq<(uVec3, Cell)>,
    tiles: Seq<Tile>,
    i: int,
    j: usize,
    k: int,
)
    requires
        0 <= i < entries.len(),
        po.len() == i,
        out == po.push(
            (entries[i].0, (Cell { placeholder: Some(j), ttl: entries[i].1.ttl })),
        ),
        0 <= k < tiles.len(),
        k != j as int,
        claim4(prior, po, entries, rest, tiles, k, i),
    ensures
        match tiles[k].assigned {
            Some(co) => points_back(prior, k, co) || points_back(out, k, co) || points_back_from(
                entries,
                i + 1,
                k,
                co,
            ) || points_back(rest, k, co) || (entries[i].0 == co && entries[i].1.placeholder
                is Some && entries[i].1.placeholder->0 as int == k),
            None => true,
        },
{
    match tiles[k].assigned {
        Some(co) => {
            if points_back(po, k, co) {
                let ii = choose|ii: int|
                    0 <= ii < po.len() && (#[trigger] po[ii]).0 == co && po[ii].1.placeholder
                        is Some && po[ii].1.placeholder->0 as int == k;
                assert((#[trigger] out[ii]).0 == co);
            } else if points_back_from(entries, i, k, co) {
                let ii = choose|ii: int|
                    i <= ii < entries.len() && (#[trigger] entries[ii]).0 == co && entries[
                        ii].1.placeholder is Some && entries[ii].1.placeholder->0 as int == k;
                if ii > i {
                    assert(points_back_from(entries, i + 1, k, co));
                }
            }
        },
        None => {},
    }
}

/// Walk one partition's entries: keep each cell's placeholder when it is
/// valid, otherwise acquire a free placeholder (growing the pool when none
/// is free), and emit the updated entries.  `prior` are entries already
/// reconciled against `tiles`; `rest` are entries of the other partition
/// that still await their own walk.
#[verifier::loop_isolation(false)]
#[verifier::rlimit(100)]
fn reconcile_entries(
    entries: &Vec<(uVec3, Cell)>,
    tiles: &mut Vec<Tile>,
    out: &mut Vec<(uVec3, Cell)>,
    Ghost(prior): Ghost<Seq<(uVec3, Cell)>>,
    Ghost(rest): Ghost<Seq<(uVec3, Cell)>>,
)
    requires
        old(out)@.len() == 0,
        forall|i: int| 0 <= i < prior.len() ==> entry_consistent(#[trigger] prior[i], old(tiles)@),
        forall|k: int|
            0 <= k < old(tiles)@.len() ==> #[trigger] claim4(prior, Seq::empty(), entries@, rest, old(tiles)@, k, 0),
    ensures
        final(out)@.len() == entries@.len(),
        forall|i: int|
            0 <= i < entries@.len() ==> (#[trigger] final(out)@[i]).0 == entries@[i].0 && final(out)@[i].1.ttl == entries@[i].1.ttl,
        forall|i: int|
            0 <= i < final(out)@.len() ==> entry_consistent(#[trigger] final(out)@[i], final(tiles)@),
        final(tiles)@.len() >= old(tiles)@.len(),
        forall|k: int|
            0 <= k < old(tiles)@.len() && (#[trigger] old(tiles)@[k]).assigned is Some ==> final(tiles)@[k] == old(tiles)@[k],
        forall|j: int| 0 <= j < prior.len() ==> entry_consistent(#[trigger] prior[j], final(tiles)@),
        forall|k: int|
            0 <= k < final(tiles)@.len() ==> #[trigger] claim4(
                prior,
                final(out)@,
                entries@,
                rest,
                final(tiles)@,
                k,
                entries@.len() as int,
            ),
        (forall|i: int|
            0 <= i < entries@.len() ==> entry_consistent(#[trigger] entries@[i], old(tiles)@))
            ==> final(tiles)@ == old(tiles)@ && final(out)@ == entries@,
{
    let ghost t0 = tiles@;
    let ghost quiet = forall|i: int|
        0 <= i < entries@.len() ==> entry_consistent(#[trigger] entries@[i], t0);
    proof {
        assert forall|k: int| 0 <= k < tiles@.len() implies #[trigger] claim4(
            prior,
            out@,
            entries@,
            rest,
            tiles@,
            k,
            0,
        ) by {
            assert(claim4(prior, Seq::empty(), entries@, rest, t0, k, 0));
            match tiles@[k].assigned {
                Some(co) => {
                    assert(!points_back(Seq::<(uVec3, Cell)>::empty(), k, co));
                },
                None => {},
            }
        }
    }
    let mut i: usize = 0;
    while i < entries.len()
        invariant
            i <= entries@.len(),
            out@.len() == i,
            tiles@.len() >= t0.len(),
            forall|ii: int|
                0 <= ii < i ==> (#[trigger] out@[ii]).0 == entries@[ii].0 && out@[ii].1.ttl
                    == entries@[ii].1.ttl,
            forall|ii: int| 0 <= ii < i ==> entry_consistent(#[trigger] out@[ii], tiles@),
            forall|k: int|
                0 <= k < t0.len() && (#[trigger] t0[k]).assigned is Some ==> tiles@[k] == t0[k],
            forall|j: int| 0 <= j < prior.len() ==> entry_consistent(#[trigger] prior[j], tiles@),
            forall|k: int|
                0 <= k < tiles@.len() ==> #[trigger] claim4(prior, out@, entries@, rest, tiles@, k, i as int),
            quiet ==> tiles@ == t0 && out@ == entries@.subrange(0, i as int),
        decreases entries@.len() - i,
    {
        let e = entries[i];
        let ghost po = out@;
        let keep: bool = match e.1.placeholder {
            Some(kk) => {
                if kk < tiles.len() {
                    match tiles[kk].assigned {
                        Some(cc) => cc == e.0,
                        None => false,
                    }
                } else {
                    false
                }
            },
            None => false,
        };
        if keep {
            out.push(e);
            proof {
                lemma_claims_keep(prior, po, entries@, rest, tiles@, i as int);
            }
        } else {
            proof {
                if quiet {
                    assert(entry_consistent(entries@[i as int], t0));
                    assert(false);
                }
            }
            let j: usize = match find_free(tiles) {
                Some(j) => j,
                None => {
                    let j = tiles.len();
                    proof {
                        lemma_claims_grow(prior, po, entries@, rest, tiles@, i as int);
                    }
                    tiles.push(Tile { assigned: None });
                    j
                },
            };
            let ghost pt2 = tiles@;
            proof {
                lemma_claims_acquire(prior, po, entries@, rest, pt2, i as int, j);
            }
            tiles.set(j, Tile { assigned: Some(e.0) });
            out.push((e.0, Cell { placeholder: Some(j), ttl: e.1.ttl }));
            proof {
                assert forall|ii: int| 0 <= ii < out@.len() implies entry_consistent(
                    #[trigger] out@[ii],
                    tiles@,
                ) by {
                    if ii < po.len() {
                        assert(out@[ii] == po[ii]);
                        assert(entry_consistent(po[ii], pt2));
                        let ki = po[ii].1.placeholder->0;
                        assert(pt2[ki as int].assigned == Some(po[ii].0));
                        assert(ki as int != j);
                    }
                }
                assert forall|k: int|
                    0 <= k < t0.len() && (#[trigger] t0[k]).assigned is Some implies tiles@[k]
                    == t0[k] by {
                    assert(pt2[k] == t0[k]);
                    assert(k != j);
                }
                assert forall|jj: int| 0 <= jj < prior.len() implies entry_consistent(
                    #[trigger] prior[jj],
                    tiles@,
                ) by {
                    assert(entry_consistent(prior[jj], pt2));
                    let ki = prior[jj].1.placeholder->0;
                    assert(pt2[ki as int].assigned == Some(prior[jj].0));
                    assert(ki as int != j);
                }
            }
        }
        i = i + 1;
    }
    proof {
        if quiet {
            assert(out@ =~= entries@);
        }
    }
}



impl TileMap {
    /// Empty both partitions and release every placeholder back to free.
    pub fn clear(&mut self, cache: &mut TilesCache)
        ensures
            final(self).wf(),
            final(self).running == old(self).running,
            final(self).current_state@.len() == 0,
            final(self).stable_current_state@.len() == 0,
            final(self)@.active == Map::<(int, int), Cell>::empty(),
            final(self)@.stable == Map::<(int, int), Cell>::empty(),
            final(cache).tiles@.len() == old(cache).tiles@.len(),
            forall|k: int|
                0 <= k < final(cache).tiles@.len() ==> (#[trigger] final(cache).tiles@[
                    k]).assigned is None,
            assigned_count(final(cache).tiles@) == 0,
    {
        self.current_state = Vec::new();
        self.stable_current_state = Vec::new();
        let n = cache.tiles.len();
        let mut freed: Vec<Tile> = Vec::new();
        let mut k: usize = 0;
        while k < n
            invariant
                k <= n,
                freed@.len() == k,
                forall|i: int| 0 <= i < k ==> (#[trigger] freed@[i]).assigned is None,
                assigned_count(freed@) == 0,
            decreases n - k,
        {
            let ghost pf = freed@;
            freed.push(Tile { assigned: None });
            proof {
                assert(freed@.drop_last() =~= pf);
            }
            k = k + 1;
        }
        cache.tiles = freed;
    }
}

/// A pool with every placeholder assigned has no free placeholder.
proof fn lemma_all_assigned(tiles: Seq<Tile>)
    requires
        forall|k: int| 0 <= k < tiles.len() ==> (#[trigger] tiles[k]).assigned is Some,
    ensures
        assigned_count(tiles) == tiles.len(),
    decreases tiles.len(),
{
    if tiles.len() > 0 {
        let t = tiles.drop_last();
        assert forall|k: int| 0 <= k < t.len() implies (#[trigger] t[k]).assigned is Some by {
            assert(t[k] == tiles[k]);
        }
        lemma_all_assigned(t);
    }
}

/// An owner in either of two groups is an owner in their concatenation.
proof fn lemma_points_back_concat(a: Seq<(uVec3, Cell)>, b: Seq<(uVec3, Cell)>, k: int, c: uVec3)
    requires
        points_back(a, k, c) || points_back(b, k, c),
    ensures
        points_back(a + b, k, c),
{
    if points_back(a, k, c) {
        let i = choose|i: int|
            0 <= i < a.len() && (#[trigger] a[i]).0 == c && a[i].1.placeholder is Some && a[
                i].1.placeholder->0 as int == k;
        assert((#[trigger] (a + b)[i]).0 == c);
    } else {
        let i = choose|i: int|
            0 <= i < b.len() && (#[trigger] b[i]).0 == c && b[i].1.placeholder is Some && b[
                i].1.placeholder->0 as int == k;
        assert((#[trigger] (a + b)[a.len() + i]).0 == c);
    }
}

/// Rebuild the pool from scratch: one placeholder per live cell, walked
/// active then stable, leaving no free placeholder.
#[verifier::loop_isolation(false)]
fn rebuild_all(tm: &mut TileMap) -> (tiles: Vec<Tile>)
    requires
        old(tm).wf(),
        old(tm).current_state@.len() + old(tm).stable_current_state@.len() <= usize::MAX,
    ensures
        final(tm).wf(),
        final(tm).running == old(tm).running,
        same_cells(old(tm).current_state@, final(tm).current_state@),
        same_cells(old(tm).stable_current_state@, final(tm).stable_current_state@),
        tiles@.len() == final(tm).current_state@.len() + final(tm).stable_current_state@.len(),
        forall|k: int| 0 <= k < tiles@.len() ==> (#[trigger] tiles@[k]).assigned is Some,
        forall|i: int|
            0 <= i < final(tm).current_state@.len() ==> entry_consistent(
                #[trigger] final(tm).current_state@[i],
                tiles@,
            ),
        forall|i: int|
            0 <= i < final(tm).stable_current_state@.len() ==> entry_consistent(
                #[trigger] final(tm).stable_current_state@[i],
                tiles@,
            ),
        forall|k: int|
            0 <= k < tiles@.len() ==> slot_points_back(
                final(tm).current_state@ + final(tm).stable_current_state@,
                tiles@,
                k,
            ),
{
    let ghost act = tm.current_state@;
    let ghost stab = tm.stable_current_state@;
    let mut tiles: Vec<Tile> = Vec::new();
    let mut na: Vec<(uVec3, Cell)> = Vec::new();
    let mut i: usize = 0;
    while i < tm.current_state.len()
        invariant
            i <= act.len(),
            na@.len() == i,
            tiles@.len() == i,
            forall|ii: int|
                0 <= ii < i ==> (#[trigger] na@[ii]).0 == act[ii].0 && na@[ii].1.ttl == act[
                    ii].1.ttl && na@[ii].1.placeholder == Some(ii as usize) && tiles@[
                    ii].assigned == Some(act[ii].0),
        decreases act.len() - i,
    {
        let e = tm.current_state[i];
        na.push((e.0, Cell { placeholder: Some(i), ttl: e.1.ttl }));
        tiles.push(Tile { assigned: Some(e.0) });
        i = i + 1;
    }
    let base = tm.current_state.len();
    let mut ns: Vec<(uVec3, Cell)> = Vec::new();
    let mut j: usize = 0;
    while j < tm.stable_current_state.len()
        invariant
            j <= stab.len(),
            ns@.len() == j,
            tiles@.len() == base + j,
            forall|ii: int|
                0 <= ii < base ==> (#[trigger] na@[ii]).0 == act[ii].0 && na@[ii].1.ttl == act[
                    ii].1.ttl && na@[ii].1.placeholder == Some(ii as usize) && tiles@[
                    ii].assigned == Some(act[ii].0),
            forall|jj: int|
                0 <= jj < j ==> (#[trigger] ns@[jj]).0 == stab[jj].0 && ns@[jj].1.ttl == stab[
                    jj].1.ttl && ns@[jj].1.placeholder == Some((base + jj) as usize) && tiles@[
                    base + jj].assigned == Some(stab[jj].0),
        decreases stab.len() - j,
    {
        let e = tm.stable_current_state[j];
        ns.push((e.0, Cell { placeholder: Some(base + j), ttl: e.1.ttl }));
        tiles.push(Tile { assigned: Some(e.0) });
        j = j + 1;
    }
    tm.current_state = na;
    tm.stable_current_state = ns;
    proof {
        assert(same_cells(act, tm.current_state@));
        assert(same_cells(stab, tm.stable_current_state@));
        lemma_rewired_store_wf(*old(tm), *tm);
        assert forall|k: int|
            0 <= k < tiles@.len() implies (#[trigger] tiles@[k]).assigned is Some by {
            if k < base as int {
                assert(tiles@[k].assigned == Some(act[k].0));
            } else {
                assert(tiles@[k].assigned == Some(stab[k - base].0));
            }
        }
        assert forall|i: int|
            0 <= i < tm.current_state@.len() implies entry_consistent(
            #[trigger] tm.current_state@[i],
            tiles@,
        ) by {
            assert(tiles@[i].assigned == Some(act[i].0));
        }
        assert forall|i: int|
            0 <= i < tm.stable_current_state@.len() implies entry_consistent(
            #[trigger] tm.stable_current_state@[i],
            tiles@,
        ) by {
            assert(tiles@[base + i].assigned == Some(stab[i].0));
        }
        assert forall|k: int|
            0 <= k < tiles@.len() implies slot_points_back(
            tm.current_state@ + tm.stable_current_state@,
            tiles@,
            k,
        ) by {
            let cat = tm.current_state@ + tm.stable_current_state@;
            if k < base {
                assert((#[trigger] cat[k]) == tm.current_state@[k]);
            } else {
                assert((#[trigger] cat[k]) == tm.stable_current_state@[k - base]);
            }
        }
    }
    tiles
}

impl TilesCache {
    /// Reconcile the placeholders with the live cells once per render
    /// sync: scrub placeholders whose cell died or let go, keep every
    /// valid assignment, acquire or grow for cells without one, and then
    /// apply the hysteresis policy — despawn all excess placeholders
    /// outright when strictly more than 80 percent sit free, otherwise
    /// merely keep them parked for reuse.  Afterwards exactly one
    /// placeholder is assigned per live cell and no two cells share one;
    /// and a pass over an already consistent, settled pool changes
    /// nothing, so running the sync twice in a row is a no-op.
    #[verifier::rlimit(100)]
    pub fn sync(&mut self, tm: &mut TileMap)
        requires
            old(tm).wf(),
            old(tm).current_state@.len() + old(tm).stable_current_state@.len() <= usize::MAX,
        ensures
            final(tm).wf(),
            final(tm).running == old(tm).running,
            same_cells(old(tm).current_state@, final(tm).current_state@),
            same_cells(old(tm).stable_current_state@, final(tm).stable_current_state@),
            store_consistent(*final(tm), final(self).tiles@),
            assigned_count(final(self).tiles@) == final(tm).current_state@.len() + final(tm).stable_current_state@.len(),
            settled(final(self).tiles@),
            store_consistent(*old(tm), old(self).tiles@) && settled(old(self).tiles@) ==> final(self).tiles@ == old(self).tiles@ && final(tm).current_state@ == old(tm).current_state@
                && final(tm).stable_current_state@ == old(tm).stable_current_state@,
    {
        let ghost tm0 = *tm;
        let ghost tiles0 = self.tiles@;
        let ghost act = tm.current_state@;
        let ghost stab = tm.stable_current_state@;
        let ghost quiet0 = store_consistent(tm0, tiles0) && settled(tiles0);
        proof {
            lemma_entries_map_contains(act);
            lemma_entries_map_value(act);
            lemma_entries_map_contains(stab);
            lemma_entries_map_value(stab);
            crate::cell_store::lemma_wf_state(*tm);
        }
        let scrubbed = scrub(tm, &self.tiles);
        proof {
            if store_consistent(tm0, tiles0) {
                lemma_consistent_scrub(tm0, tiles0);
                assert(scrubbed@ =~= tiles0);
            }
            assert forall|k: int|
                0 <= k < scrubbed@.len() implies #[trigger] claim4(
                Seq::empty(),
                Seq::empty(),
                act,
                stab,
                scrubbed@,
                k,
                0,
            ) by {
                assert(scrubbed.len() == scrubbed@.len());
                lemma_scrubbed_claim(*tm, tiles0, scrubbed@, k);
            }
        }
        let mut tiles2 = scrubbed;
        let mut out_act: Vec<(uVec3, Cell)> = Vec::new();
        reconcile_entries(
            &tm.current_state,
            &mut tiles2,
            &mut out_act,
            Ghost(Seq::empty()),
            Ghost(stab),
        );
        let ghost mid = tiles2@;
        proof {
            // restate the surviving claims for the stable walk
            assert forall|k: int|
                0 <= k < mid.len() implies #[trigger] claim4(
                out_act@,
                Seq::empty(),
                stab,
                Seq::empty(),
                mid,
                k,
                0,
            ) by {
                assert(claim4(Seq::empty(), out_act@, act, stab, mid, k, act.len() as int));
                match mid[k].assigned {
                    Some(co) => {
                        if points_back(Seq::<(uVec3, Cell)>::empty(), k, co) {
                            let i = choose|i: int|
                                0 <= i < 0 && (#[trigger] Seq::<(uVec3, Cell)>::empty()[i]).0
                                    == co;
                        }
                        if points_back_from(act, act.len() as int, k, co) {
                            let i = choose|i: int|
                                act.len() <= i < act.len() && (#[trigger] act[i]).0 == co;
                        }
                    },
                    None => {},
                }
            }
        }
        let mut out_stab: Vec<(uVec3, Cell)> = Vec::new();
        reconcile_entries(
            &tm.stable_current_state,
            &mut tiles2,
            &mut out_stab,
            Ghost(out_act@),
            Ghost(Seq::<(uVec3, Cell)>::empty()),
        );
        tm.current_state = out_act;
        tm.stable_current_state = out_stab;
        proof {
            assert(same_cells(act, tm.current_state@));
            assert(same_cells(stab, tm.stable_current_state@));
            lemma_rewired_store_wf(tm0, *tm);
            let na = tm.current_state@;
            let nst = tm.stable_current_state@;
            let cat = na + nst;
            assert forall|i: int| 0 <= i < cat.len() implies entry_consistent(
                #[trigger] cat[i],
                tiles2@,
            ) by {
                if i < na.len() {
                    assert(cat[i] == na[i]);
                } else {
                    assert(cat[i] == nst[i - na.len()]);
                }
            }
            assert forall|a: int, b: int| 0 <= a < b < cat.len() implies (
            #[trigger] cat[a]).0.xy() != (#[trigger] cat[b]).0.xy() by {
                let ea = if a < na.len() { na[a] } else { nst[a - na.len()] };
                let eb = if b < na.len() { na[b] } else { nst[b - na.len()] };
                assert(cat[a] == ea && cat[b] == eb);
                assert(tm.wf());
            }
            assert forall|k: int| 0 <= k < tiles2@.len() implies slot_points_back(
                cat,
                tiles2@,
                k,
            ) by {
                assert(claim4(out_act@, out_stab@, stab, Seq::<(uVec3, Cell)>::empty(), tiles2@, k, stab.len() as int));
                match tiles2@[k].assigned {
                    Some(co) => {
                        if points_back_from(stab, stab.len() as int, k, co) {
                            let i = choose|i: int|
                                stab.len() <= i < stab.len() && (#[trigger] stab[i]).0 == co;
                        }
                        if points_back(Seq::<(uVec3, Cell)>::empty(), k, co) {
                            let i = choose|i: int|
                                0 <= i < 0 && (#[trigger] Seq::<(uVec3, Cell)>::empty()[i]).0
                                    == co;
                        }
                        lemma_points_back_concat(na, nst, k, co);
                    },
                    None => {},
                }
            }
            lemma_pointback_count(tiles2@, cat);
        }
        let total = tiles2.len();
        let assigned = count_assigned(&tiles2);
        let free = total - assigned;
        if total > 0 && (free as u128) * 100 > 80 * (total as u128) {
            proof {
                if quiet0 {
                    assert(tiles2@ == tiles0);
                    assert(false);
                }
            }
            let fresh = rebuild_all(tm);
            proof {
                let cat2 = tm.current_state@ + tm.stable_current_state@;
                assert forall|a: int, b: int| 0 <= a < b < cat2.len() implies (
                #[trigger] cat2[a]).0.xy() != (#[trigger] cat2[b]).0.xy() by {
                    let ea = if a < tm.current_state@.len() {
                        tm.current_state@[a]
                    } else {
                        tm.stable_current_state@[a - tm.current_state@.len()]
                    };
                    let eb = if b < tm.current_state@.len() {
                        tm.current_state@[b]
                    } else {
                        tm.stable_current_state@[b - tm.current_state@.len()]
                    };
                    assert(cat2[a] == ea && cat2[b] == eb);
                    assert(tm.wf());
                }
                lemma_all_assigned(fresh@);
                assert(same_cells(act, tm.current_state@));
                assert(same_cells(stab, tm.stable_current_state@));
            }
            self.tiles = fresh;
        } else {
            self.tiles = tiles2;
        }
    }
}

/// After the scrub, every surviving placeholder is claimed by the live
/// cell it shows, in whichever partition that cell sits.
proof fn lemma_scrubbed_claim(tm: TileMap, tiles0: Seq<Tile>, scr: Seq<Tile>, k: int)
    requires
        tm.wf(),
        0 <= k < scr.len(),
        scr.len() <= usize::MAX,
        scr.len() == tiles0.len(),
        scr[k] == scrub_slot(tm, tiles0[k], k),
    ensures
        claim4(
            Seq::empty(),
            Seq::empty(),
            tm.current_state@,
            tm.stable_current_state@,
            scr,
            k,
            0,
        ),
{
    let act = tm.current_state@;
    let stab = tm.stable_current_state@;
    lemma_entries_map_contains(act);
    lemma_entries_map_value(act);
    lemma_entries_map_contains(stab);
    lemma_entries_map_value(stab);
    match tiles0[k].assigned {
        Some(c0) => {
            assert(scrub_slot(tm, tiles0[k], k) == if c0.z == 0 && live_at(
                tm@,
                c0.x as int,
                c0.y as int,
            ) && cell_at(tm@, c0.x as int, c0.y as int).placeholder == Some(k as usize) {
                tiles0[k]
            } else {
                Tile { assigned: None }
            });
        },
        None => {},
    }
    match scr[k].assigned {
        Some(c) => {
            assert(c.z == 0 && live_at(tm@, c.x as int, c.y as int) && cell_at(
                tm@,
                c.x as int,
                c.y as int,
            ).placeholder == Some(k as usize));
            assert((k as usize) as int == k);
            if tm@.active.contains_key(c.xy()) {
                let i = choose|i: int| 0 <= i < act.len() && (#[trigger] act[i]).0.xy() == c.xy();
                assert(act[i].1 == tm@.active[c.xy()]);
                assert(act[i].0.x == c.x && act[i].0.y == c.y && act[i].0.z == 0);
                assert(act[i].0 == c);
                assert(cell_at(tm@, c.x as int, c.y as int) == tm@.active[c.xy()]);
                assert(act[i].1.placeholder == Some(k as usize));
                assert(act[i].1.placeholder is Some && act[i].1.placeholder->0 as int == k);
                assert(points_back_from(act, 0, k, c));
            } else {
                let i = choose|i: int| 0 <= i < stab.len() && (#[trigger] stab[i]).0.xy() == c.xy();
                assert(stab[i].1 == tm@.stable[c.xy()]);
                assert(stab[i].0.x == c.x && stab[i].0.y == c.y && stab[i].0.z == 0);
                assert(stab[i].0 == c);
                assert(cell_at(tm@, c.x as int, c.y as int) == tm@.stable[c.xy()]);
                assert(stab[i].1.placeholder == Some(k as usize));
                assert(stab[i].1.placeholder is Some && stab[i].1.placeholder->0 as int == k);
                assert(points_back(stab, k, c));
            }
        },
        None => {},
    }
}

/// A store whose entries keep their coordinates and countdowns pointwise
/// stays well-formed.
proof fn lemma_rewired_store_wf(before: TileMap, after: TileMap)
    requires
        before.wf(),
        after.running == before.running,
        same_cells(before.current_state@, after.current_state@),
        same_cells(before.stable_current_state@, after.stable_current_state@),
    ensures
        after.wf(),
{
    assert forall|i: int, j: int|
        0 <= i < after.current_state@.len() && 0 <= j < after.stable_current_state@.len() implies (
    #[trigger] after.current_state@[i]).0.xy() != (
    #[trigger] after.stable_current_state@[j]).0.xy() by {
        assert(before.current_state@[i].0 == after.current_state@[i].0);
        assert(before.stable_current_state@[j].0 == after.stable_current_state@[j].0);
    }
    assert forall|i: int, j: int|
        0 <= i < j < after.current_state@.len() implies (#[trigger] after.current_state@[
        i]).0.xy() != (#[trigger] after.current_state@[j]).0.xy() by {
        assert(before.current_state@[i].0 == after.current_state@[i].0);
        assert(before.current_state@[j].0 == after.current_state@[j].0);
    }
    assert forall|i: int, j: int|
        0 <= i < j < after.stable_current_state@.len() implies (
    #[trigger] after.stable_current_state@[i]).0.xy() != (#[trigger] after.stable_current_state@[
        j]).0.xy() by {
        assert(before.stable_current_state@[i].0 == after.stable_current_state@[i].0);
        assert(before.stable_current_state@[j].0 == after.stable_current_state@[j].0);
    }
    assert forall|i: int|
        0 <= i < after.current_state@.len() implies (#[trigger] after.current_state@[i]).0.z == 0
            && after.current_state@[i].1.ttl >= 1 by {
        assert(before.current_state@[i].0 == after.current_state@[i].0);
        assert(before.current_state@[i].1.ttl == after.current_state@[i].1.ttl);
    }
    assert forall|i: int|
        0 <= i < after.stable_current_state@.len() implies (
    #[trigger] after.stable_current_state@[i]).0.z == 0 by {
        assert(before.stable_current_state@[i].0 == after.stable_current_state@[i].0);
    }
}

} // verus!