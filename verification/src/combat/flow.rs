//! The flow of a combat: attacks, the end of a turn, drawing the opening hand, removing
//! the fallen and deciding when the fight is over.

use vstd::prelude::*;

use vstd::string::StringExecFns;

use crate::base::BaseEvent;
use crate::card::Card;
use crate::combat::player_actions::CombatButton;
use crate::combat::{drew, pile_cards, Attack, CombatButtonType, CombatManager, CombatUnit, Turn, Unit};
use crate::random::{choose_encounter_in, thread_rng};
use crate::{CustomButton, GameState, Player};

verus! {

/// Damage dealt by the first `k` units to a front-line defender in `row`: each unit of the
/// attacking side whose countdown is at zero and that stands in the same row hits it once.
pub open spec fn incoming_damage(units: Seq<CombatUnit>, friendlies_attacking: bool, row: i32, k: int) -> int
    decreases k,
{
    if k <= 0 {
        0
    } else {
        let a = units[k - 1];
        incoming_damage(units, friendlies_attacking, row, k - 1) + if a.is_friendly == friendlies_attacking
            && a.attack.remaining_turns == 0 && a.unit.pos.1 == row {
            a.attack.damage as int
        } else {
            0
        }
    }
}

/// The hit points of every front-line defender stay within `i32` while the hits land,
/// one attacker after another.
pub open spec fn attacks_fit(units: Seq<CombatUnit>, friendlies_attacking: bool) -> bool {
    forall|j: int, k: int|
        #![trigger units[j], incoming_damage(units, friendlies_attacking, units[j].unit.pos.1, k)]
        0 <= j < units.len() && 0 <= k <= units.len() && units[j].is_friendly != friendlies_attacking
            && units[j].unit.pos.0 == 0 ==> i32::MIN <= units[j].unit.hp - incoming_damage(
            units,
            friendlies_attacking,
            units[j].unit.pos.1,
            k,
        ) <= i32::MAX
}

/// One unit after the attacks of a side: a ready attacker restarts its countdown; a
/// defender in the front column loses the damage of the ready attackers of its row.
pub open spec fn after_attack(units: Seq<CombatUnit>, friendlies_attacking: bool, j: int) -> CombatUnit {
    let u = units[j];
    if u.is_friendly == friendlies_attacking {
        if u.attack.remaining_turns == 0 {
            CombatUnit { attack: Attack { remaining_turns: u.attack.attack_interval, ..u.attack }, ..u }
        } else {
            u
        }
    } else if u.unit.pos.0 == 0 {
        CombatUnit {
            unit: Unit {
                hp: (u.unit.hp - incoming_damage(units, friendlies_attacking, u.unit.pos.1, units.len() as int)) as i32,
                ..u.unit
            },
            ..u
        }
    } else {
        u
    }
}

proof fn lemma_fit_at(units: Seq<CombatUnit>, friendlies_attacking: bool, j: int, k: int)
    requires
        attacks_fit(units, friendlies_attacking),
        0 <= j < units.len(),
        0 <= k <= units.len(),
        units[j].is_friendly != friendlies_attacking,
        units[j].unit.pos.0 == 0,
    ensures
        i32::MIN <= units[j].unit.hp - incoming_damage(units, friendlies_attacking, units[j].unit.pos.1, k) <= i32::MAX,
{
    let _ = units[j];
    let _ = incoming_damage(units, friendlies_attacking, units[j].unit.pos.1, k);
}

/// All units after the attacks of a side.
pub open spec fn after_attacks(units: Seq<CombatUnit>, friendlies_attacking: bool) -> Seq<CombatUnit> {
    Seq::new(units.len(), |j: int| after_attack(units, friendlies_attacking, j))
}

/// Whether the attacks of a side stay within `i32` (see `attacks_fit`).
pub fn attacks_would_fit(units: &Vec<CombatUnit>, friendlies_attacking: bool) -> (ok: bool)
    ensures
        ok == attacks_fit(units@, friendlies_attacking),
{
    let n = units.len();
    for j in 0..n
        invariant
            n == units@.len(),
            forall|jj: int, k: int|
                #![trigger units@[jj], incoming_damage(units@, friendlies_attacking, units@[jj].unit.pos.1, k)]
                0 <= jj < j && 0 <= k <= n && units@[jj].is_friendly != friendlies_attacking && units@[jj].unit.pos.0 == 0
                    ==> i32::MIN <= units@[jj].unit.hp - incoming_damage(units@, friendlies_attacking, units@[jj].unit.pos.1, k) <= i32::MAX,
    {
        let d = units[j];
        if d.is_friendly != friendlies_attacking && d.unit.pos.0 == 0 {
            let mut hp: i64 = d.unit.hp as i64;
            for k in 0..n
                invariant
                    n == units@.len(),
                    j < n,
                    d == units@[j as int],
                    d.is_friendly != friendlies_attacking,
                    d.unit.pos.0 == 0,
                    hp == d.unit.hp - incoming_damage(units@, friendlies_attacking, d.unit.pos.1, k as int),
                    forall|kk: int| 0 <= kk <= k ==> i32::MIN <= d.unit.hp - #[trigger] incoming_damage(units@, friendlies_attacking, d.unit.pos.1, kk)
                        <= i32::MAX,
            {
                let a = units[k];
                if a.is_friendly == friendlies_attacking && a.attack.remaining_turns == 0 && a.unit.pos.1 == d.unit.pos.1 {
                    hp = hp - a.attack.damage as i64;
                }
                if hp < i32::MIN as i64 || hp > i32::MAX as i64 {
                    proof {
                        assert(hp == d.unit.hp - incoming_damage(units@, friendlies_attacking, d.unit.pos.1, k + 1));
                        if attacks_fit(units@, friendlies_attacking) {
                            lemma_fit_at(units@, friendlies_attacking, j as int, k + 1);
                        }
                    }
                    return false;
                }
            }
            proof {
                assert forall|k: int| 0 <= k <= n implies i32::MIN <= units@[j as int].unit.hp - #[trigger] incoming_damage(units@, friendlies_attacking, units@[j as int].unit.pos.1, k) <= i32::MAX by {
                    let _ = incoming_damage(units@, friendlies_attacking, d.unit.pos.1, k);
                }
            }
        }
    }
    true
}

/// The units of one side attack: every unit of that side whose countdown is at zero
/// restarts its countdown and hits each enemy in the front column of its row.
pub fn process_attacks(units: &mut Vec<CombatUnit>, friendlies_attacking: bool)
    requires
        attacks_fit(old(units)@, friendlies_attacking),
    ensures
        final(units)@ == after_attacks(old(units)@, friendlies_attacking),
{
    let ghost start = units@;
    let n = units.len();
    for i in 0..n
        invariant
            n == units@.len(),
            start == old(units)@,
            start.len() == n,
            attacks_fit(start, friendlies_attacking),
            forall|m: int| 0 <= m < n ==> {
                let u = #[trigger] units@[m];
                let s = start[m];
                &&& u.id == s.id
                &&& u.is_friendly == s.is_friendly
                &&& u.unit.pos == s.unit.pos
                &&& u.unit.max_hp == s.unit.max_hp
                &&& u.attack.attack_interval == s.attack.attack_interval
                &&& u.attack.damage == s.attack.damage
                &&& if s.is_friendly == friendlies_attacking {
                    &&& u.unit.hp == s.unit.hp
                    &&& u.attack.remaining_turns == if m < i && s.attack.remaining_turns == 0 {
                        s.attack.attack_interval
                    } else {
                        s.attack.remaining_turns
                    }
                } else {
                    &&& u.attack.remaining_turns == s.attack.remaining_turns
                    &&& u.unit.hp == if s.unit.pos.0 == 0 {
                        s.unit.hp - incoming_damage(start, friendlies_attacking, s.unit.pos.1, i as int)
                    } else {
                        s.unit.hp as int
                    }
                }
            },
    {
        let attacker = units[i];
        if attacker.is_friendly == friendlies_attacking && attacker.attack.remaining_turns == 0 {
            units[i].attack.remaining_turns = attacker.attack.attack_interval;
            for j in 0..n
                invariant
                    n == units@.len(),
                    start == old(units)@,
                    start.len() == n,
                    attacks_fit(start, friendlies_attacking),
                    i < n,
                    attacker == start[i as int],
                    attacker.is_friendly == friendlies_attacking,
                    attacker.attack.remaining_turns == 0,
                    forall|m: int| 0 <= m < n ==> {
                        let u = #[trigger] units@[m];
                        let s = start[m];
                        &&& u.id == s.id
                        &&& u.is_friendly == s.is_friendly
                        &&& u.unit.pos == s.unit.pos
                        &&& u.unit.max_hp == s.unit.max_hp
                        &&& u.attack.attack_interval == s.attack.attack_interval
                        &&& u.attack.damage == s.attack.damage
                        &&& if s.is_friendly == friendlies_attacking {
                            &&& u.unit.hp == s.unit.hp
                            &&& u.attack.remaining_turns == if m < i + 1 && s.attack.remaining_turns == 0 {
                                s.attack.attack_interval
                            } else {
                                s.attack.remaining_turns
                            }
                        } else {
                            &&& u.attack.remaining_turns == s.attack.remaining_turns
                            &&& u.unit.hp == if s.unit.pos.0 == 0 {
                                s.unit.hp - incoming_damage(
                                    start,
                                    friendlies_attacking,
                                    s.unit.pos.1,
                                    if m < j { i + 1 } else { i as int },
                                )
                            } else {
                                s.unit.hp as int
                            }
                        }
                    },
            {
                let defender = units[j];
                if defender.is_friendly != friendlies_attacking && defender.unit.pos.1 == attacker.unit.pos.1
                    && defender.unit.pos.0 == 0 {
                    proof {
                        let s = start[j as int];
                        assert(units@[j as int].is_friendly == s.is_friendly);
                        assert(units@[j as int].unit.pos == s.unit.pos);
                        assert(s.is_friendly != friendlies_attacking && s.unit.pos.0 == 0);
                        lemma_fit_at(start, friendlies_attacking, j as int, i + 1);
                        assert(incoming_damage(start, friendlies_attacking, s.unit.pos.1, i + 1)
                            == incoming_damage(start, friendlies_attacking, s.unit.pos.1, i as int)
                            + attacker.attack.damage);
                        assert(i32::MIN <= s.unit.hp - incoming_damage(start, friendlies_attacking, s.unit.pos.1, i + 1) <= i32::MAX);
                    }
                    units[j].unit.hp = defender.unit.hp - attacker.attack.damage;
                } else {
                    proof {
                        let s = start[j as int];
                        if s.is_friendly != friendlies_attacking && s.unit.pos.0 == 0 {
                            assert(incoming_damage(start, friendlies_attacking, s.unit.pos.1, i + 1)
                                == incoming_damage(start, friendlies_attacking, s.unit.pos.1, i as int));
                        }
                    }
                }
            }
        } else {
            proof {
                assert forall|m: int| 0 <= m < n && start[m].is_friendly != friendlies_attacking && start[m].unit.pos.0 == 0
                    implies incoming_damage(start, friendlies_attacking, start[m].unit.pos.1, i + 1)
                    == incoming_damage(start, friendlies_attacking, start[m].unit.pos.1, i as int) by {}
            }
        }
    }
    proof {
        assert forall|m: int| 0 <= m < n implies #[trigger] units@[m] == after_attack(start, friendlies_attacking, m) by {}
    }
    assert(units@ =~= after_attacks(start, friendlies_attacking));
}

/// The damage one unit deals to a front-line defender in `row` when the side attacks.
pub open spec fn hit_by(a: CombatUnit, friendlies_attacking: bool, row: i32) -> int {
    if a.is_friendly == friendlies_attacking && a.attack.remaining_turns == 0 && a.unit.pos.1 == row {
        a.attack.damage as int
    } else {
        0
    }
}

/// Adds the damage of one more unit.
pub open spec fn damage_adder(friendlies_attacking: bool, row: i32) -> spec_fn(int, CombatUnit) -> int {
    |acc: int, a: CombatUnit| acc + hit_by(a, friendlies_attacking, row)
}

proof fn lemma_incoming_as_fold(units: Seq<CombatUnit>, friendlies_attacking: bool, row: i32, k: int)
    requires
        0 <= k <= units.len(),
    ensures
        incoming_damage(units, friendlies_attacking, row, k) == units.take(k).fold_left(
            0int,
            damage_adder(friendlies_attacking, row),
        ),
    decreases k,
{
    if k > 0 {
        lemma_incoming_as_fold(units, friendlies_attacking, row, k - 1);
        assert(units.take(k).drop_last() =~= units.take(k - 1));
        assert(units.take(k).last() == units[k - 1]);
    }
}

/// The total damage to a front-line defender does not depend on the order of the units.
proof fn lemma_incoming_permutation(u1: Seq<CombatUnit>, u2: Seq<CombatUnit>, friendlies_attacking: bool, row: i32)
    requires
        u1.to_multiset() == u2.to_multiset(),
    ensures
        u1.len() == u2.len(),
        incoming_damage(u1, friendlies_attacking, row, u1.len() as int) == incoming_damage(
            u2,
            friendlies_attacking,
            row,
            u2.len() as int,
        ),
{
    vstd::seq_lib::to_multiset_len(u1);
    vstd::seq_lib::to_multiset_len(u2);
    let f = damage_adder(friendlies_attacking, row);
    assert(vstd::seq_lib::commutative_foldl(f)) by {
        assert forall|x: CombatUnit, y: CombatUnit, v: int| #[trigger] f(f(v, x), y) == f(f(v, y), x) by {}
    }
    vstd::seq_lib::lemma_fold_left_permutation(u1, u2, f, 0int);
    lemma_incoming_as_fold(u1, friendlies_attacking, row, u1.len() as int);
    lemma_incoming_as_fold(u2, friendlies_attacking, row, u2.len() as int);
    assert(u1.take(u1.len() as int) =~= u1);
    assert(u2.take(u2.len() as int) =~= u2);
}

/// The attacks do not depend on the order in which the units are listed: when two lists
/// hold the same units, each unit ends the attacks in the same state in both.
pub proof fn law_attacks_ignore_unit_order(
    u1: Seq<CombatUnit>,
    u2: Seq<CombatUnit>,
    friendlies_attacking: bool,
    i: int,
    j: int,
)
    requires
        u1.to_multiset() == u2.to_multiset(),
        0 <= i < u1.len(),
        0 <= j < u2.len(),
        u1[i] == u2[j],
    ensures
        after_attacks(u1, friendlies_attacking)[i] == after_attacks(u2, friendlies_attacking)[j],
{
    lemma_incoming_permutation(u1, u2, friendlies_attacking, u1[i].unit.pos.1);
}

/// Attacks never hurt the attacking side, never touch units outside the front column, and
/// leave every unit's identity, side, place and attack strength as they were.
pub proof fn law_attacks_hit_only_front_line_defenders(units: Seq<CombatUnit>, friendlies_attacking: bool, j: int)
    requires
        0 <= j < units.len(),
    ensures
        ({
            let after = after_attacks(units, friendlies_attacking)[j];
            &&& after.id == units[j].id
            &&& after.is_friendly == units[j].is_friendly
            &&& after.unit.pos == units[j].unit.pos
            &&& after.attack.damage == units[j].attack.damage
            &&& (units[j].is_friendly == friendlies_attacking || units[j].unit.pos.0 != 0) ==> after.unit.hp
                == units[j].unit.hp
        }),
{
}

/// After its side attacks, no unit of that side is left with its countdown at zero unless
/// its interval is zero: a ready attacker always rearms.
pub proof fn law_ready_attackers_rearm(units: Seq<CombatUnit>, friendlies_attacking: bool, j: int)
    requires
        0 <= j < units.len(),
        units[j].is_friendly == friendlies_attacking,
        units[j].attack.attack_interval != 0,
    ensures
        after_attacks(units, friendlies_attacking)[j].attack.remaining_turns != 0,
{
}

/// Ready attackers of the side that stand in the row.
pub open spec fn ready_in_row(friendlies_attacking: bool, row: i32) -> spec_fn(CombatUnit) -> bool {
    |a: CombatUnit| a.is_friendly == friendlies_attacking && a.attack.remaining_turns == 0 && a.unit.pos.1 == row
}

/// The sum of the attack damage of the units.
pub open spec fn total_damage(attackers: Seq<CombatUnit>) -> int
    decreases attackers.len(),
{
    if attackers.len() == 0 {
        0
    } else {
        total_damage(attackers.drop_last()) + attackers.last().attack.damage
    }
}

proof fn lemma_incoming_is_row_total(units: Seq<CombatUnit>, friendlies_attacking: bool, row: i32, k: int)
    requires
        0 <= k <= units.len(),
    ensures
        incoming_damage(units, friendlies_attacking, row, k) == total_damage(
            units.take(k).filter(ready_in_row(friendlies_attacking, row)),
        ),
    decreases k,
{
    reveal(Seq::filter);
    let pred = ready_in_row(friendlies_attacking, row);
    let t = units.take(k);
    if k > 0 {
        lemma_incoming_is_row_total(units, friendlies_attacking, row, k - 1);
        assert(t.drop_last() =~= units.take(k - 1));
        assert(t.last() == units[k - 1]);
        let f = t.drop_last().filter(pred);
        if pred(t.last()) {
            assert(t.filter(pred) == f.push(t.last()));
            assert(f.push(t.last()).drop_last() =~= f);
        } else {
            assert(t.filter(pred) == f);
        }
    } else {
        assert(t.len() == 0);
        assert(t.filter(pred).len() == 0);
    }
}

proof fn lemma_no_ready_attacker_no_damage(units: Seq<CombatUnit>, friendlies_attacking: bool, row: i32, k: int)
    requires
        0 <= k <= units.len(),
        forall|i: int| 0 <= i < units.len() ==> !ready_in_row(friendlies_attacking, row)(#[trigger] units[i]),
    ensures
        incoming_damage(units, friendlies_attacking, row, k) == 0,
    decreases k,
{
    if k > 0 {
        lemma_no_ready_attacker_no_damage(units, friendlies_attacking, row, k - 1);
        assert(!ready_in_row(friendlies_attacking, row)(units[k - 1]));
    }
}

/// A defender in the front column loses exactly the summed damage of the ready attackers
/// that stand in its own row; attackers in other rows do not touch it.
pub proof fn law_front_defender_loses_row_damage(units: Seq<CombatUnit>, friendlies_attacking: bool, j: int)
    requires
        attacks_fit(units, friendlies_attacking),
        0 <= j < units.len(),
        units[j].is_friendly != friendlies_attacking,
        units[j].unit.pos.0 == 0,
    ensures
        after_attacks(units, friendlies_attacking)[j].unit.hp == units[j].unit.hp - total_damage(
            units.filter(ready_in_row(friendlies_attacking, units[j].unit.pos.1)),
        ),
{
    lemma_fit_at(units, friendlies_attacking, j, units.len() as int);
    lemma_incoming_is_row_total(units, friendlies_attacking, units[j].unit.pos.1, units.len() as int);
    assert(units.take(units.len() as int) =~= units);
}

/// A defender whose row holds no ready attacker of the attacking side keeps its hit points,
/// whichever side attacks.
pub proof fn law_quiet_rows_keep_hp(units: Seq<CombatUnit>, friendlies_attacking: bool, j: int)
    requires
        0 <= j < units.len(),
        forall|i: int|
            0 <= i < units.len() ==> !(#[trigger] units[i].is_friendly == friendlies_attacking
                && units[i].attack.remaining_turns == 0 && units[i].unit.pos.1 == units[j].unit.pos.1),
    ensures
        after_attacks(units, friendlies_attacking)[j].unit.hp == units[j].unit.hp,
{
    assert forall|i: int| 0 <= i < units.len() implies !ready_in_row(friendlies_attacking, units[j].unit.pos.1)(
        #[trigger] units[i],
    ) by {
        assert(!(units[i].is_friendly == friendlies_attacking && units[i].attack.remaining_turns == 0
            && units[i].unit.pos.1 == units[j].unit.pos.1));
    }
    lemma_no_ready_attacker_no_damage(units, friendlies_attacking, units[j].unit.pos.1, units.len() as int);
}

/// Both sides attack: first the player's units, then the enemies.
pub fn deal_damage_system(units: &mut Vec<CombatUnit>)
    requires
        attacks_fit(old(units)@, true),
        attacks_fit(after_attacks(old(units)@, true), false),
    ensures
        final(units)@ == after_attacks(after_attacks(old(units)@, true), false),
{
    process_attacks(units, true);
    process_attacks(units, false);
}


/// The unit after one more turn has passed.
pub open spec fn counted_down(u: CombatUnit) -> CombatUnit {
    CombatUnit { attack: Attack { remaining_turns: (u.attack.remaining_turns - 1) as i32, ..u.attack }, ..u }
}

/// The button after the end of a turn: an end-turn button is enabled again.
pub open spec fn reenabled(b: CombatButton) -> CombatButton {
    if b.kind is EndTurn {
        CombatButton { button: CustomButton { enabled: true, ..b.button }, ..b }
    } else {
        b
    }
}

/// The end of a turn: every unit's countdown goes down by one, the player gets the turn
/// back with full energy, end-turn buttons are enabled again, and one card is drawn.
pub fn handle_end_of_turn(
    manager: &mut CombatManager,
    units: &mut Vec<CombatUnit>,
    buttons: &mut Vec<CombatButton>,
) -> (drawn: Option<Card>)
    requires
        forall|j: int| 0 <= j < old(units)@.len() ==> (#[trigger] old(units)@[j]).attack.remaining_turns > i32::MIN,
    ensures
        final(units)@ == old(units)@.map_values(|u: CombatUnit| counted_down(u)),
        final(buttons)@ == old(buttons)@.map_values(|b: CombatButton| reenabled(b)),
        final(manager).turn == Turn::Player,
        final(manager).remaining_energy == old(manager).max_energy,
        final(manager).max_energy == old(manager).max_energy,
        final(manager).deck == old(manager).deck,
        final(manager).selected_card == old(manager).selected_card,
        final(manager).hand_node == old(manager).hand_node,
        drew(*old(manager), *final(manager), drawn),
{
    let n = units.len();
    for j in 0..n
        invariant
            n == units@.len(),
            n == old(units)@.len(),
            forall|k: int| 0 <= k < n ==> (#[trigger] old(units)@[k]).attack.remaining_turns > i32::MIN,
            forall|k: int| 0 <= k < j ==> #[trigger] units@[k] == counted_down(old(units)@[k]),
            forall|k: int| j <= k < n ==> #[trigger] units@[k] == old(units)@[k],
    {
        units[j].attack.countdown();
    }
    assert(units@ =~= old(units)@.map_values(|u: CombatUnit| counted_down(u)));
    manager.turn = Turn::Player;
    manager.remaining_energy = manager.max_energy;
    let m = buttons.len();
    for i in 0..m
        invariant
            m == buttons@.len(),
            m == old(buttons)@.len(),
            forall|k: int| 0 <= k < i ==> #[trigger] buttons@[k] == reenabled(old(buttons)@[k]),
            forall|k: int| i <= k < m ==> #[trigger] buttons@[k] == old(buttons)@[k],
    {
        if let CombatButtonType::EndTurn = buttons[i].kind {
            buttons[i].button.enabled = true;
        }
    }
    assert(buttons@ =~= old(buttons)@.map_values(|b: CombatButton| reenabled(b)));
    manager.draw()
}

/// The number of cards in the two piles.
pub open spec fn total_cards(m: CombatManager) -> int {
    (m.draw_pile@.len() + m.discard_pile@.len()) as int
}

/// The smaller of two integers.
pub open spec fn min_int(a: int, b: int) -> int {
    if a <= b {
        a
    } else {
        b
    }
}

proof fn lemma_piles_when_draw_pile_empty(m: CombatManager, hand: Seq<Card>, dl: int)
    requires
        m.draw_pile@.len() == 0,
        hand.len() == dl,
        dl >= 0,
    ensures
        pile_cards(m).add(hand.skip(dl).to_multiset()) == m.discard_pile@.to_multiset(),
{
    assert(hand.skip(dl) =~= Seq::<Card>::empty());
    assert(m.draw_pile@ + m.discard_pile@ =~= m.discard_pile@);
    vstd::seq_lib::to_multiset_len(hand.skip(dl));
    vstd::multiset::lemma_multiset_empty_len(hand.skip(dl).to_multiset());
    assert(pile_cards(m).add(hand.skip(dl).to_multiset()) =~= pile_cards(m));
}

/// Draws the opening hand: up to three cards, fewer only when the piles run out. The hand
/// begins with the cards of the draw pile from the top down; when the draw pile runs out,
/// the discard pile is shuffled into it and the rest of the hand comes from there.
pub fn preflight(manager: &mut CombatManager) -> (hand: Vec<Card>)
    ensures
        crate::combat::same_but_piles(*final(manager), *old(manager)),
        hand@.len() == min_int(3, total_cards(*old(manager))),
        pile_cards(*final(manager)).add(hand@.to_multiset()) == pile_cards(*old(manager)),
        forall|k: int|
            0 <= k < hand@.len() && k < old(manager).draw_pile@.len() ==> #[trigger] hand@[k]
                == old(manager).draw_pile@[old(manager).draw_pile@.len() - 1 - k],
        old(manager).draw_pile@.len() >= 3 ==> {
            let d = old(manager).draw_pile@;
            &&& hand@ == seq![d[d.len() - 1], d[d.len() - 2], d[d.len() - 3]]
            &&& final(manager).draw_pile@ == d.take(d.len() - 3)
            &&& final(manager).discard_pile@ == old(manager).discard_pile@
        },
        old(manager).draw_pile@.len() < 3 ==> {
            &&& final(manager).discard_pile@.len() == 0
            &&& final(manager).draw_pile@.to_multiset().add(
                hand@.skip(old(manager).draw_pile@.len() as int).to_multiset(),
            ) == old(manager).discard_pile@.to_multiset()
        },
{
    let mut hand: Vec<Card> = Vec::new();
    let ghost d = old(manager).draw_pile@;
    let ghost dl = d.len() as int;
    proof {
        vstd::seq_lib::to_multiset_len(hand@);
        vstd::multiset::lemma_multiset_empty_len(hand@.to_multiset());
        assert(pile_cards(*manager).add(hand@.to_multiset()) =~= pile_cards(*manager));
        if dl == 0 {
            lemma_piles_when_draw_pile_empty(*manager, hand@, dl);
        }
    }
    for i in 0..3usize
        invariant
            d == old(manager).draw_pile@,
            dl == d.len(),
            crate::combat::same_but_piles(*manager, *old(manager)),
            hand@.len() == min_int(i as int, total_cards(*old(manager))),
            total_cards(*manager) == total_cards(*old(manager)) - hand@.len(),
            pile_cards(*manager).add(hand@.to_multiset()) == pile_cards(*old(manager)),
            forall|k: int| 0 <= k < hand@.len() && k < dl ==> #[trigger] hand@[k] == d[dl - 1 - k],
            i <= dl ==> manager.draw_pile@ == d.take(dl - i) && manager.discard_pile@ == old(manager).discard_pile@,
            i > dl ==> manager.discard_pile@.len() == 0,
            i >= dl ==> pile_cards(*manager).add(hand@.skip(dl).to_multiset())
                == old(manager).discard_pile@.to_multiset(),
    {
        let ghost before = *manager;
        let ghost hand_before = hand@;
        let attempted = manager.draw();
        if let Some(card) = attempted {
            proof {
                vstd::seq_lib::to_multiset_len(before.draw_pile@ + before.discard_pile@);
                vstd::seq_lib::to_multiset_len(manager.draw_pile@ + manager.discard_pile@);
            }
            hand.push(card);
            proof {
                vstd::seq_lib::to_multiset_build(hand_before, card);
                assert(pile_cards(*manager).add(hand@.to_multiset()) =~= pile_cards(*manager).insert(card).add(
                    hand_before.to_multiset(),
                ));
                if i < dl {
                    assert(before.draw_pile@ == d.take(dl - i));
                    assert(d.take(dl - i).drop_last() =~= d.take(dl - i - 1));
                    assert(hand@[i as int] == d[dl - 1 - i]);
                    if i + 1 == dl {
                        lemma_piles_when_draw_pile_empty(*manager, hand@, dl);
                    }
                }
                if i >= dl {
                    assert(hand@.skip(dl) =~= hand_before.skip(dl).push(card));
                    vstd::seq_lib::to_multiset_build(hand_before.skip(dl), card);
                    assert(pile_cards(*manager).add(hand@.skip(dl).to_multiset()) =~= pile_cards(*manager).insert(
                        card,
                    ).add(hand_before.skip(dl).to_multiset()));
                }
            }
        }
    }
    proof {
        if dl >= 3 {
            assert(hand@ =~= seq![d[dl - 1], d[dl - 2], d[dl - 3]]);
        } else {
            assert(manager.draw_pile@ + manager.discard_pile@ =~= manager.draw_pile@);
        }
    }
    hand
}

/// The units still standing, in order.
pub open spec fn survivors(units: Seq<CombatUnit>) -> Seq<CombatUnit>
    decreases units.len(),
{
    if units.len() == 0 {
        Seq::empty()
    } else if units.last().unit.hp > 0 {
        survivors(units.drop_last()).push(units.last())
    } else {
        survivors(units.drop_last())
    }
}

/// The entities of the fallen units, in order.
pub open spec fn fallen_ids(units: Seq<CombatUnit>) -> Seq<u64>
    decreases units.len(),
{
    if units.len() == 0 {
        Seq::empty()
    } else if units.last().unit.hp > 0 {
        fallen_ids(units.drop_last())
    } else {
        fallen_ids(units.drop_last()).push(units.last().id)
    }
}

/// After removing the fallen, every unit left has hit points, no unit with hit points is
/// lost, and each unit is either kept or listed as fallen.
pub proof fn law_survivors_alive(units: Seq<CombatUnit>)
    ensures
        forall|i: int| 0 <= i < survivors(units).len() ==> (#[trigger] survivors(units)[i]).unit.hp > 0,
        forall|i: int| 0 <= i < units.len() && units[i].unit.hp > 0 ==> survivors(units).contains(#[trigger] units[i]),
        survivors(units).len() + fallen_ids(units).len() == units.len(),
    decreases units.len(),
{
    if units.len() > 0 {
        let r = units.drop_last();
        law_survivors_alive(r);
        let s = survivors(r);
        assert forall|i: int| 0 <= i < survivors(units).len() implies (#[trigger] survivors(units)[i]).unit.hp > 0 by {
            if i < s.len() {
                assert(survivors(units)[i] == s[i]);
            }
        }
        assert forall|i: int| 0 <= i < units.len() && units[i].unit.hp > 0 implies survivors(units).contains(#[trigger] units[i]) by {
            if i < r.len() {
                assert(r[i] == units[i]);
                let k = choose|k: int| 0 <= k < s.len() && s[k] == r[i];
                if units.last().unit.hp > 0 {
                    assert(survivors(units)[k] == s[k]);
                }
            } else {
                assert(survivors(units)[s.len() as int] == units[i]);
            }
        }
    }
}

/// Units that still have hit points.
pub open spec fn standing() -> spec_fn(CombatUnit) -> bool {
    |u: CombatUnit| u.unit.hp > 0
}

/// Units whose hit points are gone.
pub open spec fn fallen() -> spec_fn(CombatUnit) -> bool {
    |u: CombatUnit| u.unit.hp <= 0
}

/// Removing the fallen keeps exactly the units with hit points, in their order and
/// unchanged, and lists the entities of the others in their order.
pub proof fn law_survivors_keep_order(units: Seq<CombatUnit>)
    ensures
        survivors(units) == units.filter(standing()),
        fallen_ids(units) == units.filter(fallen()).map_values(|u: CombatUnit| u.id),
    decreases units.len(),
{
    reveal(Seq::filter);
    if units.len() > 0 {
        law_survivors_keep_order(units.drop_last());
        let rest = units.drop_last().filter(fallen());
        assert(rest.push(units.last()).map_values(|u: CombatUnit| u.id) =~= rest.map_values(|u: CombatUnit| u.id).push(
            units.last().id,
        ));
    }
}

/// Removes the units whose hit points are gone and lists their entities.
pub fn remove_dead_units(units: &mut Vec<CombatUnit>) -> (fallen: Vec<u64>)
    ensures
        final(units)@ == survivors(old(units)@),
        fallen@ == fallen_ids(old(units)@),
{
    let mut alive: Vec<CombatUnit> = Vec::new();
    let mut fallen: Vec<u64> = Vec::new();
    let n = units.len();
    for j in 0..n
        invariant
            n == units@.len(),
            units@ == old(units)@,
            alive@ == survivors(units@.take(j as int)),
            fallen@ == fallen_ids(units@.take(j as int)),
    {
        assert(units@.take(j + 1).drop_last() =~= units@.take(j as int));
        assert(units@.take(j + 1).last() == units@[j as int]);
        let u = units[j];
        if u.unit.hp > 0 {
            alive.push(u);
        } else {
            fallen.push(u.id);
        }
    }
    assert(units@.take(n as int) =~= units@);
    *units = alive;
    fallen
}

/// Some unit of the side is on the field.
pub open spec fn side_present(units: Seq<CombatUnit>, friendly: bool) -> bool {
    exists|j: int| 0 <= j < units.len() && units[j].is_friendly == friendly
}

/// Whether some unit of the side is on the field.
fn any_of_side(units: &Vec<CombatUnit>, friendly: bool) -> (present: bool)
    ensures
        present == side_present(units@, friendly),
{
    for j in 0..units.len()
        invariant
            forall|k: int| 0 <= k < j ==> units@[k].is_friendly != friendly,
    {
        if units[j].is_friendly == friendly {
            return true;
        }
    }
    false
}

/// Decides how the combat ends: with no enemy left the game goes back to the map, with no
/// friendly unit left it goes home (which wins when both sides are gone), otherwise it goes
/// on. The home screen is asked to load only when no friendly unit is left, that is when the
/// player has been killed.
pub fn end_combat(units: &Vec<CombatUnit>) -> (res: (Option<GameState>, Option<BaseEvent>))
    ensures
        res.0 == if !side_present(units@, true) {
            Some(GameState::HomeBase)
        } else if !side_present(units@, false) {
            Some(GameState::MapScreen)
        } else {
            None::<GameState>
        },
        res.1 == if !side_present(units@, true) {
            Some(BaseEvent::LoadHomeScreen)
        } else {
            None::<BaseEvent>
        },
{
    let mut next: Option<GameState> = None;
    let mut request: Option<BaseEvent> = None;
    if !any_of_side(units, false) {
        next = Some(GameState::MapScreen);
    }
    if !any_of_side(units, true) {
        next = Some(GameState::HomeBase);
        request = Some(BaseEvent::LoadHomeScreen);
    }
    (next, request)
}

/// The name of the pool that encounters are drawn from on a floor: the floors 0 to 5 draw
/// from the hard pool, all others from the easy pool.
pub fn encounter_pool_name(floor: i32) -> (name: String)
    ensures
        name@ == if 0 <= floor <= 5 { "hard_pool"@ } else { "easy_pool"@ },
{
    if 0 <= floor && floor <= 5 {
        String::from_str("hard_pool")
    } else {
        String::from_str("easy_pool")
    }
}

/// The index of the first pool with the name.
pub open spec fn is_first_pool(pools: Seq<(String, Vec<Vec<(Unit, Attack)>>)>, name: Seq<char>, i: int) -> bool {
    &&& 0 <= i < pools.len()
    &&& pools[i].0@ == name
    &&& forall|k: int| 0 <= k < i ==> (#[trigger] pools[k]).0@ != name
}

/// Picks the enemies of a combat on a floor: a random encounter of the first pool named
/// for the floor. Gives `None` when there is no such pool or it holds no encounter.
pub fn choose_encounter(pools: &Vec<(String, Vec<Vec<(Unit, Attack)>>)>, floor: i32) -> (encounter: Option<
    Vec<(Unit, Attack)>,
>)
    ensures
        encounter is Some <==> exists|i: int| is_first_pool(pools@, if 0 <= floor <= 5 { "hard_pool"@ } else { "easy_pool"@ }, i)
            && pools@[i].1@.len() > 0,
        encounter matches Some(e) ==> exists|i: int, k: int| #![trigger pools@[i].1@[k]]
            is_first_pool(pools@, if 0 <= floor <= 5 { "hard_pool"@ } else { "easy_pool"@ }, i)
            && 0 <= k < pools@[i].1@.len() && e@ == pools@[i].1@[k]@,
{
    let name = encounter_pool_name(floor);
    let ghost target = name@;
    let mut found: Option<usize> = None;
    for i in 0..pools.len()
        invariant
            target == name@,
            found is None ==> forall|k: int| 0 <= k < i ==> (#[trigger] pools@[k]).0@ != target,
            found matches Some(f) ==> is_first_pool(pools@, target, f as int),
    {
        if found.is_none() && pools[i].0 == name {
            found = Some(i);
        }
    }
    match found {
        None => {
            proof {
                assert forall|i: int| !is_first_pool(pools@, target, i) by {
                    if 0 <= i < pools@.len() {
                        assert(pools@[i].0@ != target);
                    }
                }
            }
            None
        },
        Some(f) => {
            proof {
                assert forall|i: int| is_first_pool(pools@, target, i) implies i == f by {
                    if i < f {
                        assert(pools@[i].0@ != target);
                    } else if i > f {
                        assert(pools@[f as int].0@ != target);
                    }
                }
            }
            let mut rng = thread_rng();
            match choose_encounter_in(&pools[f].1, &mut rng) {
                None => None,
                Some(chosen) => {
                    let mut copy: Vec<(Unit, Attack)> = Vec::new();
                    for k in 0..chosen.len()
                        invariant
                            copy@ == chosen@.take(k as int),
                    {
                        copy.push(chosen[k]);
                        assert(copy@ =~= chosen@.take(k + 1));
                    }
                    assert(chosen@.take(chosen.len() as int) =~= chosen@);
                    Some(copy)
                },
            }
        },
    }
}

/// The combat manager for a fight of the player: the player's deck in the draw pile and
/// three energy per turn.
pub fn combat_manager_for(player: &Player, hand_node: u64) -> (m: CombatManager)
    ensures
        m.turn == Turn::Player,
        m.remaining_energy == 3,
        m.max_energy == 3,
        m.selected_card is None,
        m.hand_node == hand_node,
        crate::combat::card_views(m.deck@) == crate::combat::card_views(player.deck@),
        crate::combat::card_views(m.draw_pile@) == crate::combat::card_views(player.deck@),
        m.discard_pile@.len() == 0,
{
    CombatManager::new(crate::combat::clone_cards(&player.deck), 3, hand_node)
}

} // verus!
