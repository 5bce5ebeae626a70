//! Units close ranks: each unit steps one column towards the front, or else one row up,
//! into a free place.

use vstd::prelude::*;

use crate::combat::{CombatUnit, Unit};
use crate::map::{same_tile, Tile};

verus! {

/// The sort key of a unit: row first, then column.
pub open spec fn key_before(a: Tile, b: Tile) -> bool {
    a.1 < b.1 || (a.1 == b.1 && a.0 < b.0)
}

/// The unit at index `i` comes before the unit at index `j`: by row, then column, then index.
pub open spec fn comes_before(units: Seq<CombatUnit>, i: int, j: int) -> bool {
    key_before(units[i].unit.pos, units[j].unit.pos) || (units[i].unit.pos == units[j].unit.pos && i < j)
}

/// The order in which a side's units move: every unit of the side once, sorted by row, then
/// column, then index (a stable sort by row and column).
pub open spec fn is_move_order(units: Seq<CombatUnit>, friendly: bool, order: Seq<usize>) -> bool {
    &&& forall|k: int| 0 <= k < order.len() ==> (#[trigger] order[k]) < units.len() && units[order[k] as int].is_friendly == friendly
    &&& forall|i: int| 0 <= i < units.len() && units[i].is_friendly == friendly ==> #[trigger] order.contains(i as usize)
    &&& forall|a: int, b: int| 0 <= a < b < order.len() ==> comes_before(units, #[trigger] order[a] as int, #[trigger] order[b] as int)
}

/// The places of a side's units, in index order.
pub open spec fn side_positions(units: Seq<CombatUnit>, friendly: bool) -> Seq<Tile>
    decreases units.len(),
{
    if units.len() == 0 {
        Seq::empty()
    } else if units.last().is_friendly == friendly {
        side_positions(units.drop_last(), friendly).push(units.last().unit.pos)
    } else {
        side_positions(units.drop_last(), friendly)
    }
}

/// The list without any copy of the place.
pub open spec fn without(positions: Seq<Tile>, p: Tile) -> Seq<Tile>
    decreases positions.len(),
{
    if positions.len() == 0 {
        Seq::empty()
    } else if positions.last() == p {
        without(positions.drop_last(), p)
    } else {
        without(positions.drop_last(), p).push(positions.last())
    }
}

/// Where a unit at `p` steps, given the taken places: one column forward if that place is
/// free and it is not in the front column, else one row up if that place is free and it is
/// not in the top row; a unit at (0, 0) stays.
pub open spec fn step_target(p: Tile, taken: Seq<Tile>) -> Option<Tile> {
    if p == (0i32, 0i32) {
        None
    } else if !taken.contains(((p.0 - 1) as i32, p.1)) && p.0 != 0 {
        Some(((p.0 - 1) as i32, p.1))
    } else if p.1 != 0 && !taken.contains((p.0, (p.1 - 1) as i32)) {
        Some((p.0, (p.1 - 1) as i32))
    } else {
        None
    }
}

/// The unit placed elsewhere.
pub open spec fn placed(u: CombatUnit, p: Tile) -> CombatUnit {
    CombatUnit { unit: Unit { pos: p, ..u.unit }, ..u }
}

/// The units and the taken places after the units in `order` stepped, one after another.
pub open spec fn move_along(units: Seq<CombatUnit>, taken: Seq<Tile>, order: Seq<usize>) -> (Seq<CombatUnit>, Seq<Tile>)
    decreases order.len(),
{
    if order.len() == 0 {
        (units, taken)
    } else {
        let (us, ps) = move_along(units, taken, order.drop_last());
        let j = order.last() as int;
        let p = us[j].unit.pos;
        match step_target(p, ps) {
            Some(np) => (us.update(j, placed(us[j], np)), without(ps, p).push(np)),
            None => (us, ps),
        }
    }
}

/// The units of a side after they closed ranks.
pub open spec fn side_moved(units: Seq<CombatUnit>, friendly: bool, order: Seq<usize>) -> Seq<CombatUnit> {
    move_along(units, side_positions(units, friendly), order).0
}

/// Working out where a unit at `p` steps stays within `i32`: a unit off (0, 0) looks at the
/// column before it, and, when it cannot step forward and is not in the top row, at the row
/// above it.
pub open spec fn step_fits(p: Tile, taken: Seq<Tile>) -> bool {
    ||| p == (0i32, 0i32)
    ||| p.0 > i32::MIN && ((!taken.contains(((p.0 - 1) as i32, p.1)) && p.0 != 0) || p.1 != i32::MIN)
}

/// Every step of the units in `order`, one after another, stays within `i32`.
pub open spec fn steps_fit(units: Seq<CombatUnit>, taken: Seq<Tile>, order: Seq<usize>) -> bool
    decreases order.len(),
{
    order.len() == 0 || (steps_fit(units, taken, order.drop_last()) && step_fits(
        move_along(units, taken, order.drop_last()).0[order.last() as int].unit.pos,
        move_along(units, taken, order.drop_last()).1,
    ))
}

/// Closing the ranks of a side stays within `i32`.
pub open spec fn side_steps_fit(units: Seq<CombatUnit>, friendly: bool) -> bool {
    forall|o: Seq<usize>| #[trigger] is_move_order(units, friendly, o) ==> steps_fit(units, side_positions(units, friendly), o)
}

/// Closing the ranks of both sides, the player's first, stays within `i32`.
pub open spec fn closing_ranks_fits(units: Seq<CombatUnit>) -> bool {
    &&& side_steps_fit(units, true)
    &&& forall|o: Seq<usize>| #[trigger] is_move_order(units, true, o) ==> side_steps_fit(side_moved(units, true, o), false)
}

proof fn lemma_steps_fit_prefix(units: Seq<CombatUnit>, taken: Seq<Tile>, order: Seq<usize>, k: int)
    requires
        steps_fit(units, taken, order),
        0 <= k <= order.len(),
    ensures
        steps_fit(units, taken, order.take(k)),
    decreases order.len(),
{
    if k == order.len() {
        assert(order.take(k) =~= order);
    } else {
        assert(order.drop_last().take(k) =~= order.take(k));
        lemma_steps_fit_prefix(units, taken, order.drop_last(), k);
    }
}

/// Whether the place is in the list.
fn holds_tile(positions: &Vec<Tile>, t: Tile) -> (found: bool)
    ensures
        found == positions@.contains(t),
{
    for i in 0..positions.len()
        invariant
            forall|k: int| 0 <= k < i ==> positions@[k] != t,
    {
        if same_tile(positions[i], t) {
            assert(positions@[i as int] == t);
            return true;
        }
    }
    false
}

/// The list without any copy of the place.
fn remove_tile(positions: &Vec<Tile>, p: Tile) -> (rest: Vec<Tile>)
    ensures
        rest@ == without(positions@, p),
{
    let mut rest: Vec<Tile> = Vec::new();
    for i in 0..positions.len()
        invariant
            rest@ == without(positions@.take(i as int), p),
    {
        assert(positions@.take(i + 1).drop_last() =~= positions@.take(i as int));
        assert(positions@.take(i + 1).last() == positions@[i as int]);
        if !same_tile(positions[i], p) {
            rest.push(positions[i]);
        }
    }
    assert(positions@.take(positions.len() as int) =~= positions@);
    rest
}

/// The places of a side's units, in index order.
fn positions_of_side(units: &Vec<CombatUnit>, friendly: bool) -> (positions: Vec<Tile>)
    ensures
        positions@ == side_positions(units@, friendly),
{
    let mut positions: Vec<Tile> = Vec::new();
    for i in 0..units.len()
        invariant
            positions@ == side_positions(units@.take(i as int), friendly),
    {
        assert(units@.take(i + 1).drop_last() =~= units@.take(i as int));
        assert(units@.take(i + 1).last() == units@[i as int]);
        if units[i].is_friendly == friendly {
            positions.push(units[i].unit.pos);
        }
    }
    assert(units@.take(units.len() as int) =~= units@);
    positions
}

/// Whether the first place sorts before the second.
fn tile_before(a: Tile, b: Tile) -> (before: bool)
    ensures
        before == key_before(a, b),
{
    a.1 < b.1 || (a.1 == b.1 && a.0 < b.0)
}

/// The order in which a side's units move (see `is_move_order`).
pub fn move_order(units: &Vec<CombatUnit>, friendly: bool) -> (order: Vec<usize>)
    ensures
        is_move_order(units@, friendly, order@),
{
    let mut order: Vec<usize> = Vec::new();
    let n = units.len();
    for i in 0..n
        invariant
            n == units@.len(),
            forall|k: int| 0 <= k < order@.len() ==> (#[trigger] order@[k]) < i && units@[order@[k] as int].is_friendly == friendly,
            forall|m: int| 0 <= m < i && units@[m].is_friendly == friendly ==> order@.contains(m as usize),
            forall|a: int, b: int| 0 <= a < b < order@.len() ==> comes_before(units@, #[trigger] order@[a] as int, #[trigger] order@[b] as int),
    {
        if units[i].is_friendly == friendly {
            let key = units[i].unit.pos;
            let mut p: usize = 0;
            while p < order.len() && !tile_before(key, units[order[p]].unit.pos)
                invariant
                    p <= order@.len(),
                    n == units@.len(),
                    i < n,
                    forall|k: int| 0 <= k < order@.len() ==> (#[trigger] order@[k]) < i,
                    forall|k: int| 0 <= k < p ==> !key_before(key, units@[order@[k] as int].unit.pos),
                decreases order@.len() - p,
            {
                p = p + 1;
            }
            let ghost before = order@;
            proof {
                assert forall|k: int| p <= k < before.len() implies key_before(key, units@[#[trigger] before[k] as int].unit.pos) by {
                    if k > p {
                        assert(comes_before(units@, before[p as int] as int, before[k] as int));
                    }
                }
            }
            order.insert(p, i);
            proof {
                assert forall|a: int, b: int| 0 <= a < b < order@.len() implies comes_before(units@, #[trigger] order@[a] as int, #[trigger] order@[b] as int) by {
                    if b < p {
                        assert(order@[a] == before[a] && order@[b] == before[b]);
                    } else if b == p {
                        assert(order@[a] == before[a]);
                        assert(!key_before(key, units@[before[a] as int].unit.pos));
                    } else if a < p {
                        assert(order@[a] == before[a] && order@[b] == before[b - 1]);
                    } else if a == p {
                        assert(order@[b] == before[b - 1]);
                        assert(key_before(key, units@[before[b - 1] as int].unit.pos));
                    } else {
                        assert(order@[a] == before[a - 1] && order@[b] == before[b - 1]);
                    }
                }
                assert forall|m: int| 0 <= m < i + 1 && units@[m].is_friendly == friendly implies order@.contains(m as usize) by {
                    if m == i {
                        assert(order@[p as int] == m as usize);
                    } else {
                        let q = choose|q: int| 0 <= q < before.len() && #[trigger] before[q] == m as usize;
                        if q < p {
                            assert(order@[q] == m as usize);
                        } else {
                            assert(order@[q + 1] == m as usize);
                        }
                    }
                }
            }
        }
    }
    order
}


proof fn lemma_move_along_len(units: Seq<CombatUnit>, taken: Seq<Tile>, order: Seq<usize>)
    requires
        forall|k: int| 0 <= k < order.len() ==> (#[trigger] order[k]) < units.len(),
    ensures
        move_along(units, taken, order).0.len() == units.len(),
    decreases order.len(),
{
    if order.len() > 0 {
        assert forall|k: int| 0 <= k < order.drop_last().len() implies (#[trigger] order.drop_last()[k]) < units.len() by {
            assert(order.drop_last()[k] == order[k]);
        }
        lemma_move_along_len(units, taken, order.drop_last());
    }
}

proof fn lemma_move_along_keeps(units: Seq<CombatUnit>, taken: Seq<Tile>, order: Seq<usize>, j: int)
    requires
        forall|k: int| 0 <= k < order.len() ==> (#[trigger] order[k]) < units.len(),
        0 <= j < units.len(),
    ensures
        move_along(units, taken, order).0[j] == placed(units[j], move_along(units, taken, order).0[j].unit.pos),
    decreases order.len(),
{
    if order.len() > 0 {
        assert forall|k: int| 0 <= k < order.drop_last().len() implies (#[trigger] order.drop_last()[k]) < units.len() by {
            assert(order.drop_last()[k] == order[k]);
        }
        lemma_move_along_keeps(units, taken, order.drop_last(), j);
        lemma_move_along_len(units, taken, order.drop_last());
    }
}

/// The units and taken places after the unit at index `j` stepped.
pub open spec fn stepped(us: Seq<CombatUnit>, ps: Seq<Tile>, j: int) -> (Seq<CombatUnit>, Seq<Tile>) {
    let p = us[j].unit.pos;
    match step_target(p, ps) {
        Some(np) => (us.update(j, placed(us[j], np)), without(ps, p).push(np)),
        None => (us, ps),
    }
}

proof fn lemma_move_along_push(units: Seq<CombatUnit>, taken: Seq<Tile>, order: Seq<usize>, j: usize)
    ensures
        move_along(units, taken, order.push(j)) == stepped(
            move_along(units, taken, order).0,
            move_along(units, taken, order).1,
            j as int,
        ),
{
    assert(order.push(j).drop_last() =~= order);
}

proof fn lemma_push_contains(s: Seq<Tile>, x: Tile)
    ensures
        forall|t: Tile| #[trigger] s.push(x).contains(t) <==> s.contains(t) || t == x,
{
    assert forall|t: Tile| #[trigger] s.push(x).contains(t) <==> s.contains(t) || t == x by {
        if s.push(x).contains(t) {
            let k = choose|k: int| 0 <= k < s.push(x).len() && s.push(x)[k] == t;
            if k < s.len() {
                assert(s[k] == t);
            }
        }
        if s.contains(t) {
            let k = choose|k: int| 0 <= k < s.len() && s[k] == t;
            assert(s.push(x)[k] == t);
        }
        if t == x {
            assert(s.push(x)[s.len() as int] == t);
        }
    }
}

proof fn lemma_without_contains(s: Seq<Tile>, p: Tile)
    ensures
        forall|t: Tile| #[trigger] without(s, p).contains(t) <==> s.contains(t) && t != p,
    decreases s.len(),
{
    if s.len() > 0 {
        let r = s.drop_last();
        lemma_without_contains(r, p);
        assert(s =~= r.push(s.last()));
        lemma_push_contains(r, s.last());
        if s.last() != p {
            lemma_push_contains(without(r, p), s.last());
            assert(without(s, p) == without(r, p).push(s.last()));
        } else {
            assert(without(s, p) == without(r, p));
        }
        assert forall|t: Tile| #[trigger] without(s, p).contains(t) <==> s.contains(t) && t != p by {
            assert(without(r, p).contains(t) <==> r.contains(t) && t != p);
            assert(r.push(s.last()).contains(t) <==> r.contains(t) || t == s.last());
        }
    }
}

/// Each step of closing ranks, given the places taken when the unit's turn comes: a unit off
/// (0, 0) whose place one column forward is free, and that is not in the front column,
/// moves there; otherwise, when it is not in row 0 and the place one row up is free, it
/// moves there; otherwise it stays. No other unit moves on its turn.
pub proof fn law_step_forward_else_up(units: Seq<CombatUnit>, taken: Seq<Tile>, order: Seq<usize>, j: usize)
    requires
        forall|k: int| 0 <= k < order.len() ==> (#[trigger] order[k]) < units.len(),
        j < units.len(),
    ensures
        ({
            let (us, ps) = move_along(units, taken, order);
            let after = move_along(units, taken, order.push(j)).0;
            let p = us[j as int].unit.pos;
            let forward: Tile = ((p.0 - 1) as i32, p.1);
            let up: Tile = (p.0, (p.1 - 1) as i32);
            let can_forward = p.0 != 0 && !ps.contains(forward);
            let can_up = p.1 != 0 && !ps.contains(up);
            &&& after.len() == units.len()
            &&& p != (0i32, 0i32) && can_forward ==> after[j as int] == placed(us[j as int], forward)
            &&& p != (0i32, 0i32) && !can_forward && can_up ==> after[j as int] == placed(us[j as int], up)
            &&& (p == (0i32, 0i32) || (!can_forward && !can_up)) ==> after[j as int] == us[j as int]
            &&& forall|i: int| 0 <= i < units.len() && i != j ==> #[trigger] after[i] == us[i]
            &&& forall|t: Tile| #[trigger] move_along(units, taken, order.push(j)).1.contains(t) <==> if p != (0i32, 0i32) && (
            can_forward || can_up) {
                t == after[j as int].unit.pos || (t != p && ps.contains(t))
            } else {
                ps.contains(t)
            }
        }),
{
    let (us, ps) = move_along(units, taken, order);
    lemma_without_contains(ps, us[j as int].unit.pos);
    lemma_move_along_len(units, taken, order);
    lemma_move_along_push(units, taken, order, j);
    assert forall|k: int| 0 <= k < order.push(j).len() implies (#[trigger] order.push(j)[k]) < units.len() by {
        if k < order.len() {
            assert(order.push(j)[k] == order[k]);
        }
    }
    lemma_move_along_len(units, taken, order.push(j));
    let p = us[j as int].unit.pos;
    if let Some(np) = step_target(p, ps) {
        lemma_push_contains(without(ps, p), np);
        assert(move_along(units, taken, order.push(j)).1 == without(ps, p).push(np));
        assert(move_along(units, taken, order.push(j)).0[j as int].unit.pos == np);
    }
}

/// The unit at index `j` steps (see `step_target`).
fn step_one(units: &mut Vec<CombatUnit>, positions: &mut Vec<Tile>, j: usize)
    requires
        j < old(units)@.len(),
        step_fits(old(units)@[j as int].unit.pos, old(positions)@),
    ensures
        (final(units)@, final(positions)@) == stepped(old(units)@, old(positions)@, j as int),
{
    let p = units[j].unit.pos;
    if p.0 == 0 && p.1 == 0 {
    } else if !holds_tile(positions, (p.0 - 1, p.1)) && p.0 != 0 {
        let np: Tile = (p.0 - 1, p.1);
        let mut rest = remove_tile(positions, p);
        rest.push(np);
        *positions = rest;
        units[j].unit.pos = np;
        assert(units@ =~= old(units)@.update(j as int, placed(old(units)@[j as int], np)));
    } else if p.1 != 0 && !holds_tile(positions, (p.0, p.1 - 1)) {
        let np: Tile = (p.0, p.1 - 1);
        let mut rest = remove_tile(positions, p);
        rest.push(np);
        *positions = rest;
        units[j].unit.pos = np;
        assert(units@ =~= old(units)@.update(j as int, placed(old(units)@[j as int], np)));
    }
}

/// The listed units step in order (see `step_target`), starting from the taken places.
pub fn move_unit(units: &mut Vec<CombatUnit>, order: &Vec<usize>, positions: Vec<Tile>)
    requires
        forall|k: int| 0 <= k < order@.len() ==> (#[trigger] order@[k]) < old(units)@.len(),
        steps_fit(old(units)@, positions@, order@),
    ensures
        final(units)@ == move_along(old(units)@, positions@, order@).0,
{
    let mut positions = positions;
    let ghost taken = positions@;
    let n = order.len();
    for r in 0..n
        invariant
            n == order@.len(),
            forall|k: int| 0 <= k < order@.len() ==> (#[trigger] order@[k]) < old(units)@.len(),
            steps_fit(old(units)@, taken, order@),
            (units@, positions@) == move_along(old(units)@, taken, order@.take(r as int)),
    {
        let ghost prefix = order@.take(r as int);
        let j = order[r];
        proof {
            assert(order@.take(r + 1) =~= prefix.push(j));
            assert forall|k: int| 0 <= k < prefix.len() implies (#[trigger] prefix[k]) < old(units)@.len() by {
                assert(prefix[k] == order@[k]);
            }
            lemma_move_along_len(old(units)@, taken, prefix);
            lemma_steps_fit_prefix(old(units)@, taken, order@, r + 1);
            assert(order@.take(r + 1).drop_last() =~= prefix);
            assert(step_fits(units@[j as int].unit.pos, positions@));
            lemma_move_along_push(old(units)@, taken, prefix, j);
        }
        step_one(units, &mut positions, j);
    }
    assert(order@.take(n as int) =~= order@);
}

/// Whether every step of the units in `order` stays within `i32`, found by a dry run on
/// copies (see `steps_fit`).
pub fn steps_would_fit(units: &Vec<CombatUnit>, order: &Vec<usize>, positions: &Vec<Tile>) -> (ok: bool)
    requires
        forall|k: int| 0 <= k < order@.len() ==> (#[trigger] order@[k]) < units@.len(),
    ensures
        ok == steps_fit(units@, positions@, order@),
{
    let mut us: Vec<CombatUnit> = Vec::new();
    for i in 0..units.len()
        invariant
            us@ == units@.take(i as int),
    {
        us.push(units[i]);
        assert(us@ =~= units@.take(i + 1));
    }
    assert(units@.take(units.len() as int) =~= units@);
    let mut ps: Vec<Tile> = Vec::new();
    for i in 0..positions.len()
        invariant
            ps@ == positions@.take(i as int),
    {
        ps.push(positions[i]);
        assert(ps@ =~= positions@.take(i + 1));
    }
    assert(positions@.take(positions.len() as int) =~= positions@);
    let n = order.len();
    for r in 0..n
        invariant
            n == order@.len(),
            forall|k: int| 0 <= k < order@.len() ==> (#[trigger] order@[k]) < units@.len(),
            steps_fit(units@, positions@, order@.take(r as int)),
            (us@, ps@) == move_along(units@, positions@, order@.take(r as int)),
    {
        let ghost prefix = order@.take(r as int);
        let j = order[r];
        proof {
            assert(order@.take(r + 1) =~= prefix.push(j));
            assert(order@.take(r + 1).drop_last() =~= prefix);
            assert forall|k: int| 0 <= k < prefix.len() implies (#[trigger] prefix[k]) < units@.len() by {
                assert(prefix[k] == order@[k]);
            }
            lemma_move_along_len(units@, positions@, prefix);
            lemma_move_along_push(units@, positions@, prefix, j);
        }
        let p = us[j].unit.pos;
        let fits = if p.0 == 0 && p.1 == 0 {
            true
        } else if p.0 > i32::MIN {
            (!holds_tile(&ps, (p.0 - 1, p.1)) && p.0 != 0) || p.1 != i32::MIN
        } else {
            false
        };
        if !fits {
            proof {
                if steps_fit(units@, positions@, order@) {
                    lemma_steps_fit_prefix(units@, positions@, order@, r + 1);
                }
            }
            return false;
        }
        step_one(&mut us, &mut ps, j);
    }
    assert(order@.take(n as int) =~= order@);
    true
}

/// Whether both sides can close ranks within `i32` (see `closing_ranks_fits`).
pub fn closing_ranks_would_fit(units: &Vec<CombatUnit>) -> (ok: bool)
    ensures
        ok == closing_ranks_fits(units@),
{
    let friend_order = move_order(units, true);
    let friend_positions = positions_of_side(units, true);
    proof {
        assert forall|o: Seq<usize>| #[trigger] is_move_order(units@, true, o) implies o == friend_order@ by {
            law_move_order_unique(units@, true, o, friend_order@);
        }
    }
    if !steps_would_fit(units, &friend_order, &friend_positions) {
        return false;
    }
    let mut moved: Vec<CombatUnit> = Vec::new();
    for i in 0..units.len()
        invariant
            moved@ == units@.take(i as int),
    {
        moved.push(units[i]);
        assert(moved@ =~= units@.take(i + 1));
    }
    assert(units@.take(units.len() as int) =~= units@);
    move_unit(&mut moved, &friend_order, friend_positions);
    let enemy_order = move_order(&moved, false);
    let enemy_positions = positions_of_side(&moved, false);
    proof {
        assert forall|o: Seq<usize>| #[trigger] is_move_order(moved@, false, o) implies o == enemy_order@ by {
            law_move_order_unique(moved@, false, o, enemy_order@);
        }
        assert(moved@ == side_moved(units@, true, friend_order@));
    }
    steps_would_fit(&moved, &enemy_order, &enemy_positions)
}

/// The units of both sides close ranks: first the player's units, then the enemies, each
/// side in the order of `is_move_order` and starting from the places its units hold.
pub fn update_unit_pos(units: &mut Vec<CombatUnit>)
    requires
        closing_ranks_fits(old(units)@),
    ensures
        final(units)@.len() == old(units)@.len(),
        forall|j: int| 0 <= j < old(units)@.len() ==> #[trigger] final(units)@[j] == placed(old(units)@[j], final(units)@[j].unit.pos),
        exists|friend_order: Seq<usize>, enemy_order: Seq<usize>| {
            &&& is_move_order(old(units)@, true, friend_order)
            &&& is_move_order(side_moved(old(units)@, true, friend_order), false, enemy_order)
            &&& final(units)@ == side_moved(side_moved(old(units)@, true, friend_order), false, enemy_order)
        },
{
    let friend_order = move_order(units, true);
    let friend_positions = positions_of_side(units, true);
    proof {
        assert(is_move_order(old(units)@, true, friend_order@));
    }
    move_unit(units, &friend_order, friend_positions);
    let ghost mid = units@;
    let enemy_order = move_order(units, false);
    let enemy_positions = positions_of_side(units, false);
    proof {
        lemma_move_along_len(old(units)@, side_positions(old(units)@, true), friend_order@);
        assert(mid == side_moved(old(units)@, true, friend_order@));
        assert(is_move_order(old(units)@, true, friend_order@));
        assert(side_steps_fit(mid, false));
        assert(is_move_order(mid, false, enemy_order@));
    }
    move_unit(units, &enemy_order, enemy_positions);
    proof {
        lemma_move_along_len(mid, side_positions(mid, false), enemy_order@);
        assert forall|j: int| 0 <= j < old(units)@.len() implies #[trigger] units@[j] == placed(old(units)@[j], units@[j].unit.pos) by {
            lemma_move_along_keeps(old(units)@, side_positions(old(units)@, true), friend_order@, j);
            lemma_move_along_keeps(mid, side_positions(mid, false), enemy_order@, j);
        }
        assert(mid == side_moved(old(units)@, true, friend_order@));
        assert(is_move_order(old(units)@, true, friend_order@));
        assert(is_move_order(side_moved(old(units)@, true, friend_order@), false, enemy_order@));
        assert(units@ == side_moved(side_moved(old(units)@, true, friend_order@), false, enemy_order@));
    }
}


proof fn lemma_sorted_unique(units: Seq<CombatUnit>, s1: Seq<usize>, s2: Seq<usize>)
    requires
        forall|a: int, b: int| 0 <= a < b < s1.len() ==> comes_before(units, #[trigger] s1[a] as int, #[trigger] s1[b] as int),
        forall|a: int, b: int| 0 <= a < b < s2.len() ==> comes_before(units, #[trigger] s2[a] as int, #[trigger] s2[b] as int),
        forall|x: usize| s1.contains(x) <==> s2.contains(x),
    ensures
        s1 == s2,
    decreases s1.len(),
{
    if s1.len() == 0 {
        if s2.len() > 0 {
            assert(s2.contains(s2[0]));
        }
        assert(s1 =~= s2);
    } else {
        assert(s1.contains(s1[0]));
        assert(s2.len() > 0);
        assert(s2.contains(s2[0]));
        let x1 = s1[0];
        let x2 = s2[0];
        if x1 != x2 {
            let q = choose|q: int| 0 <= q < s2.len() && s2[q] == x1;
            let p = choose|p: int| 0 <= p < s1.len() && s1[p] == x2;
            assert(comes_before(units, s2[0] as int, s2[q] as int));
            assert(comes_before(units, s1[0] as int, s1[p] as int));
            assert(false);
        }
        let t1 = s1.drop_first();
        let t2 = s2.drop_first();
        assert forall|x: usize| t1.contains(x) <==> t2.contains(x) by {
            if t1.contains(x) {
                let k = choose|k: int| 0 <= k < t1.len() && t1[k] == x;
                assert(s1[k + 1] == x);
                assert(comes_before(units, s1[0] as int, s1[k + 1] as int));
                assert(s2.contains(x));
                let m = choose|m: int| 0 <= m < s2.len() && s2[m] == x;
                assert(m != 0);
                assert(t2[m - 1] == x);
            }
            if t2.contains(x) {
                let k = choose|k: int| 0 <= k < t2.len() && t2[k] == x;
                assert(s2[k + 1] == x);
                assert(comes_before(units, s2[0] as int, s2[k + 1] as int));
                assert(s1.contains(x));
                let m = choose|m: int| 0 <= m < s1.len() && s1[m] == x;
                assert(m != 0);
                assert(t1[m - 1] == x);
            }
        }
        assert forall|a: int, b: int| 0 <= a < b < t1.len() implies comes_before(units, #[trigger] t1[a] as int, #[trigger] t1[b] as int) by {
            assert(t1[a] == s1[a + 1] && t1[b] == s1[b + 1]);
        }
        assert forall|a: int, b: int| 0 <= a < b < t2.len() implies comes_before(units, #[trigger] t2[a] as int, #[trigger] t2[b] as int) by {
            assert(t2[a] == s2[a + 1] && t2[b] == s2[b + 1]);
        }
        lemma_sorted_unique(units, t1, t2);
        assert(s1 =~= s2) by {
            assert(s1 =~= seq![x1] + t1);
            assert(s2 =~= seq![x2] + t2);
        }
    }
}

/// A side has only one move order: units close ranks in a fully determined order.
pub proof fn law_move_order_unique(units: Seq<CombatUnit>, friendly: bool, o1: Seq<usize>, o2: Seq<usize>)
    requires
        is_move_order(units, friendly, o1),
        is_move_order(units, friendly, o2),
    ensures
        o1 == o2,
{
    assert forall|x: usize| o1.contains(x) <==> o2.contains(x) by {
        if o1.contains(x) {
            let k = choose|k: int| 0 <= k < o1.len() && o1[k] == x;
            assert(o1[k] < units.len() && units[o1[k] as int].is_friendly == friendly);
            assert(o2.contains((x as int) as usize));
        }
        if o2.contains(x) {
            let k = choose|k: int| 0 <= k < o2.len() && o2[k] == x;
            assert(o2[k] < units.len() && units[o2[k] as int].is_friendly == friendly);
            assert(o1.contains((x as int) as usize));
        }
    }
    lemma_sorted_unique(units, o1, o2);
}

/// The units of the side stand on pairwise different places.
pub open spec fn side_places_distinct(units: Seq<CombatUnit>, friendly: bool) -> bool {
    forall|i: int, j: int|
        0 <= i < units.len() && 0 <= j < units.len() && i != j && units[i].is_friendly == friendly
            && units[j].is_friendly == friendly ==> (#[trigger] units[i]).unit.pos != (#[trigger] units[j]).unit.pos
}

/// Some unit of the side stands on the place.
pub open spec fn side_holds(units: Seq<CombatUnit>, friendly: bool, t: Tile) -> bool {
    exists|i: int| 0 <= i < units.len() && units[i].is_friendly == friendly && (#[trigger] units[i]).unit.pos == t
}

proof fn lemma_without(s: Seq<Tile>, p: Tile)
    requires
        s.no_duplicates(),
    ensures
        without(s, p).no_duplicates(),
        forall|t: Tile| #[trigger] without(s, p).contains(t) <==> s.contains(t) && t != p,
    decreases s.len(),
{
    if s.len() > 0 {
        let r = s.drop_last();
        assert(r.no_duplicates());
        lemma_without(r, p);
        assert forall|t: Tile| r.contains(t) <==> s.contains(t) && (t != s.last() || r.contains(t)) by {
            if r.contains(t) {
                let k = choose|k: int| 0 <= k < r.len() && r[k] == t;
                assert(s[k] == t);
            }
            if s.contains(t) && t != s.last() {
                let k = choose|k: int| 0 <= k < s.len() && s[k] == t;
                assert(r[k] == t);
            }
        }
        assert(!r.contains(s.last())) by {
            if r.contains(s.last()) {
                let k = choose|k: int| 0 <= k < r.len() && r[k] == s.last();
                assert(s[k] == s[s.len() - 1]);
            }
        }
        if s.last() != p {
            let w = without(r, p);
            assert(!w.contains(s.last()));
            assert forall|t: Tile| #[trigger] w.push(s.last()).contains(t) <==> w.contains(t) || t == s.last() by {
                if w.push(s.last()).contains(t) {
                    let k = choose|k: int| 0 <= k < w.len() + 1 && w.push(s.last())[k] == t;
                    if k < w.len() {
                        assert(w[k] == t);
                    }
                }
                if w.contains(t) {
                    let k = choose|k: int| 0 <= k < w.len() && w[k] == t;
                    assert(w.push(s.last())[k] == t);
                }
                if t == s.last() {
                    assert(w.push(s.last())[w.len() as int] == t);
                }
            }
        }
    }
}

proof fn lemma_side_positions(units: Seq<CombatUnit>, friendly: bool)
    requires
        side_places_distinct(units, friendly),
    ensures
        side_positions(units, friendly).no_duplicates(),
        forall|t: Tile| #[trigger] side_positions(units, friendly).contains(t) <==> side_holds(units, friendly, t),
    decreases units.len(),
{
    if units.len() > 0 {
        let r = units.drop_last();
        assert forall|i: int, j: int|
            0 <= i < r.len() && 0 <= j < r.len() && i != j && r[i].is_friendly == friendly
                && r[j].is_friendly == friendly implies (#[trigger] r[i]).unit.pos != (#[trigger] r[j]).unit.pos by {
            assert(r[i] == units[i] && r[j] == units[j]);
        }
        lemma_side_positions(r, friendly);
        let n = units.len() - 1;
        assert forall|t: Tile| side_holds(units, friendly, t) <==> side_holds(r, friendly, t) || (
        units[n].is_friendly == friendly && units[n].unit.pos == t) by {
            if side_holds(units, friendly, t) {
                let i = choose|i: int| 0 <= i < units.len() && units[i].is_friendly == friendly && (#[trigger] units[i]).unit.pos == t;
                if i < n {
                    assert(r[i] == units[i]);
                }
            }
            if side_holds(r, friendly, t) {
                let i = choose|i: int| 0 <= i < r.len() && r[i].is_friendly == friendly && (#[trigger] r[i]).unit.pos == t;
                assert(units[i] == r[i]);
            }
        }
        if units[n].is_friendly == friendly {
            let w = side_positions(r, friendly);
            let q = units[n].unit.pos;
            assert(!w.contains(q)) by {
                if w.contains(q) {
                    let i = choose|i: int| 0 <= i < r.len() && r[i].is_friendly == friendly && (#[trigger] r[i]).unit.pos == q;
                    assert(units[i] == r[i]);
                    assert(units[i].unit.pos != units[n].unit.pos);
                }
            }
            assert forall|t: Tile| #[trigger] w.push(q).contains(t) <==> w.contains(t) || t == q by {
                if w.push(q).contains(t) {
                    let k = choose|k: int| 0 <= k < w.len() + 1 && w.push(q)[k] == t;
                    if k < w.len() {
                        assert(w[k] == t);
                    }
                }
                if w.contains(t) {
                    let k = choose|k: int| 0 <= k < w.len() && w[k] == t;
                    assert(w.push(q)[k] == t);
                }
                if t == q {
                    assert(w.push(q)[w.len() as int] == t);
                }
            }
        }
    }
}

/// What stays true while a side closes ranks: the taken places are exactly the places of
/// the side's units, listed once each, and no two of its units share a place.
pub open spec fn ranks_consistent(units: Seq<CombatUnit>, friendly: bool, taken: Seq<Tile>) -> bool {
    &&& taken.no_duplicates()
    &&& forall|t: Tile| #[trigger] taken.contains(t) <==> side_holds(units, friendly, t)
    &&& side_places_distinct(units, friendly)
}

proof fn lemma_move_along_consistent(units: Seq<CombatUnit>, friendly: bool, taken: Seq<Tile>, order: Seq<usize>)
    requires
        forall|k: int| 0 <= k < order.len() ==> (#[trigger] order[k]) < units.len() && units[order[k] as int].is_friendly == friendly,
        ranks_consistent(units, friendly, taken),
    ensures
        ranks_consistent(move_along(units, taken, order).0, friendly, move_along(units, taken, order).1),
        move_along(units, taken, order).0.len() == units.len(),
        forall|i: int| 0 <= i < units.len() ==> (#[trigger] move_along(units, taken, order).0[i]).is_friendly == units[i].is_friendly,
    decreases order.len(),
{
    if order.len() > 0 {
        let o = order.drop_last();
        assert forall|k: int| 0 <= k < o.len() implies (#[trigger] o[k]) < units.len() && units[o[k] as int].is_friendly == friendly by {
            assert(o[k] == order[k]);
        }
        lemma_move_along_consistent(units, friendly, taken, o);
        let (us, ps) = move_along(units, taken, o);
        let j = order.last() as int;
        assert(order[order.len() - 1] < units.len());
        let p = us[j].unit.pos;
        assert(us[j].is_friendly == friendly);
        assert(side_holds(us, friendly, p));
        match step_target(p, ps) {
            Some(np) => {
                assert(!ps.contains(np));
                lemma_without(ps, p);
                let w = without(ps, p);
                let ps2 = w.push(np);
                let us2 = us.update(j, placed(us[j], np));
                assert(!w.contains(np));
                assert forall|t: Tile| #[trigger] ps2.contains(t) <==> w.contains(t) || t == np by {
                    if ps2.contains(t) {
                        let k = choose|k: int| 0 <= k < ps2.len() && ps2[k] == t;
                        if k < w.len() {
                            assert(w[k] == t);
                        }
                    }
                    if w.contains(t) {
                        let k = choose|k: int| 0 <= k < w.len() && w[k] == t;
                        assert(ps2[k] == t);
                    }
                    if t == np {
                        assert(ps2[w.len() as int] == t);
                    }
                }
                assert forall|t: Tile| ps2.contains(t) <==> side_holds(us2, friendly, t) by {
                    if ps2.contains(t) {
                        if t == np {
                            assert(us2[j].unit.pos == np);
                        } else {
                            assert(ps.contains(t) && t != p);
                            let i = choose|i: int| 0 <= i < us.len() && us[i].is_friendly == friendly && (#[trigger] us[i]).unit.pos == t;
                            assert(i != j);
                            assert(us2[i] == us[i]);
                        }
                    }
                    if side_holds(us2, friendly, t) {
                        let i = choose|i: int| 0 <= i < us2.len() && us2[i].is_friendly == friendly && (#[trigger] us2[i]).unit.pos == t;
                        if i != j {
                            assert(us2[i] == us[i]);
                            assert(side_holds(us, friendly, t));
                            assert(us[i].unit.pos != us[j].unit.pos);
                        }
                    }
                }
                assert forall|a: int, b: int|
                    0 <= a < us2.len() && 0 <= b < us2.len() && a != b && us2[a].is_friendly == friendly
                        && us2[b].is_friendly == friendly implies (#[trigger] us2[a]).unit.pos != (#[trigger] us2[b]).unit.pos by {
                    if a == j {
                        assert(us2[b] == us[b]);
                        if us[b].unit.pos == np {
                            assert(side_holds(us, friendly, np));
                        }
                    } else if b == j {
                        assert(us2[a] == us[a]);
                        if us[a].unit.pos == np {
                            assert(side_holds(us, friendly, np));
                        }
                    } else {
                        assert(us2[a] == us[a] && us2[b] == us[b]);
                    }
                }
                assert(ranks_consistent(us2, friendly, ps2));
            },
            None => {},
        }
    }
}

/// Moving units of a side in any order, starting from the places the side's units hold,
/// never puts two of them on one place: when they stand on different places, they still do
/// after `move_unit`.
pub proof fn law_moving_keeps_places_distinct(units: Seq<CombatUnit>, friendly: bool, order: Seq<usize>)
    requires
        forall|k: int| 0 <= k < order.len() ==> (#[trigger] order[k]) < units.len() && units[order[k] as int].is_friendly == friendly,
        side_places_distinct(units, friendly),
    ensures
        side_places_distinct(move_along(units, side_positions(units, friendly), order).0, friendly),
{
    lemma_side_positions(units, friendly);
    lemma_move_along_consistent(units, friendly, side_positions(units, friendly), order);
}

/// Closing ranks never puts two units of a side on one place: when the side's units
/// stand on different places, they still do after moving.
pub proof fn law_closing_ranks_keeps_places_distinct(units: Seq<CombatUnit>, friendly: bool, order: Seq<usize>)
    requires
        is_move_order(units, friendly, order),
        side_places_distinct(units, friendly),
    ensures
        side_places_distinct(side_moved(units, friendly, order), friendly),
{
    lemma_side_positions(units, friendly);
    lemma_move_along_consistent(units, friendly, side_positions(units, friendly), order);
}

} // verus!
