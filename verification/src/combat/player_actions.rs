//! What the buttons of the combat screen do: ending the turn, picking a card and
//! playing the picked card on a unit.

use vstd::prelude::*;

use crate::card::{same_card, CardView, Effect};
use crate::combat::{card_views, Attack, CardEvent, CombatButtonType, CombatManager, CombatUnit, Turn, Unit};
use crate::{BorderShade, ButtonInteraction, ButtonLabel, ButtonLook, ButtonShade, CustomButton};

verus! {

/// A message sent by a combat button.
#[derive(Debug)]
pub enum CombatSignal {
    EndOfTurn,
    Card(CardEvent),
}

/// What a combat button did: how it now looks and what it announced, in order.
#[derive(Debug)]
pub struct ButtonReaction {
    pub look: ButtonLook,
    pub signals: Vec<CombatSignal>,
}

/// The integer fits in an `i32`.
pub open spec fn fits_i32(x: int) -> bool {
    i32::MIN <= x <= i32::MAX
}

/// Applying the effect to the unit stays within `i32`.
pub open spec fn effect_fits(u: CombatUnit, e: Effect) -> bool {
    match e {
        Effect::BonusDamage(d) => fits_i32(u.attack.damage + d),
        Effect::BonusHealth(h) => fits_i32(u.unit.hp + h),
        Effect::BonusCountdown(c) => fits_i32(u.attack.remaining_turns + c),
        Effect::DealDamage(d) => fits_i32(u.unit.hp - d),
    }
}

/// The unit after the effect: attack changes but never drops below zero, health max
/// changes the current hit points, countdown bonuses add turns, damage takes hit points.
pub open spec fn apply_effect(u: CombatUnit, e: Effect) -> CombatUnit {
    match e {
        Effect::BonusDamage(d) => CombatUnit {
            attack: Attack {
                damage: if u.attack.damage + d >= 0 { (u.attack.damage + d) as i32 } else { 0 },
                ..u.attack
            },
            ..u
        },
        Effect::BonusHealth(h) => CombatUnit { unit: Unit { hp: (u.unit.hp + h) as i32, ..u.unit }, ..u },
        Effect::BonusCountdown(c) => CombatUnit {
            attack: Attack { remaining_turns: (u.attack.remaining_turns + c) as i32, ..u.attack },
            ..u
        },
        Effect::DealDamage(d) => CombatUnit { unit: Unit { hp: (u.unit.hp - d) as i32, ..u.unit }, ..u },
    }
}

/// The unit after the effects, applied in order.
pub open spec fn apply_effects(u: CombatUnit, effects: Seq<Effect>) -> CombatUnit
    decreases effects.len(),
{
    if effects.len() == 0 {
        u
    } else {
        apply_effect(apply_effects(u, effects.drop_last()), effects.last())
    }
}

/// Every step of applying the effects in order stays within `i32`.
pub open spec fn effects_fit(u: CombatUnit, effects: Seq<Effect>) -> bool
    decreases effects.len(),
{
    effects.len() == 0 || (effects_fit(u, effects.drop_last()) && effect_fits(
        apply_effects(u, effects.drop_last()),
        effects.last(),
    ))
}

proof fn lemma_effects_fit_prefix(u: CombatUnit, effects: Seq<Effect>, k: int)
    requires
        effects_fit(u, effects),
        0 <= k <= effects.len(),
    ensures
        effects_fit(u, effects.take(k)),
    decreases effects.len(),
{
    if k == effects.len() {
        assert(effects.take(k) =~= effects);
    } else {
        assert(effects.drop_last().take(k) =~= effects.take(k));
        lemma_effects_fit_prefix(u, effects.drop_last(), k);
    }
}

/// The change of hit points that the effects make: health bonuses add, damage takes away,
/// the other effects leave hit points alone.
pub open spec fn hp_change(effects: Seq<Effect>) -> int
    decreases effects.len(),
{
    if effects.len() == 0 {
        0
    } else {
        hp_change(effects.drop_last()) + match effects.last() {
            Effect::BonusHealth(h) => h as int,
            Effect::DealDamage(d) => -d,
            _ => 0int,
        }
    }
}

/// A health bonus adds exactly its amount to the hit points, whatever its sign, and
/// changes nothing else about the unit.
pub proof fn law_health_bonus_adds(u: CombatUnit, h: i32)
    requires
        fits_i32(u.unit.hp + h),
    ensures
        apply_effect(u, Effect::BonusHealth(h)).unit.hp == u.unit.hp + h,
        apply_effect(u, Effect::BonusHealth(h)).unit.max_hp == u.unit.max_hp,
        apply_effect(u, Effect::BonusHealth(h)).unit.pos == u.unit.pos,
        apply_effect(u, Effect::BonusHealth(h)).attack == u.attack,
        apply_effect(u, Effect::BonusHealth(h)).id == u.id,
        apply_effect(u, Effect::BonusHealth(h)).is_friendly == u.is_friendly,
{
}

/// Each effect changes one number of the unit by its amount: attack bonuses change the
/// damage but never take it below zero, countdown bonuses add turns, damage takes hit
/// points away; the unit's place and side stay as they were.
pub proof fn law_effect_amounts(u: CombatUnit, e: Effect)
    requires
        effect_fits(u, e),
    ensures
        apply_effect(u, e).unit.pos == u.unit.pos,
        apply_effect(u, e).id == u.id,
        apply_effect(u, e).is_friendly == u.is_friendly,
        e matches Effect::BonusDamage(d) ==> apply_effect(u, e).attack.damage == if u.attack.damage + d >= 0 {
            u.attack.damage + d
        } else {
            0
        } && apply_effect(u, e).unit == u.unit,
        e matches Effect::BonusCountdown(c) ==> apply_effect(u, e).attack.remaining_turns == u.attack.remaining_turns + c
            && apply_effect(u, e).unit == u.unit,
        e matches Effect::DealDamage(d) ==> apply_effect(u, e).unit.hp == u.unit.hp - d && apply_effect(u, e).attack
            == u.attack,
{
}

/// Playing a card's effects changes the unit's hit points by the sum of its health bonuses
/// minus the sum of its damage, and never moves the unit or changes whose it is.
pub proof fn law_effects_change_hp_by_their_sum(u: CombatUnit, effects: Seq<Effect>)
    requires
        effects_fit(u, effects),
    ensures
        apply_effects(u, effects).unit.hp == u.unit.hp + hp_change(effects),
        apply_effects(u, effects).unit.pos == u.unit.pos,
        apply_effects(u, effects).id == u.id,
        apply_effects(u, effects).is_friendly == u.is_friendly,
    decreases effects.len(),
{
    if effects.len() > 0 {
        law_effects_change_hp_by_their_sum(u, effects.drop_last());
    }
}

/// Applies one effect to a unit.
pub fn play_effect(target: &mut CombatUnit, e: Effect)
    requires
        effect_fits(*old(target), e),
    ensures
        *final(target) == apply_effect(*old(target), e),
{
    match e {
        Effect::BonusDamage(d) => {
            let v = target.attack.damage + d;
            target.attack.damage = if v >= 0 { v } else { 0 };
        },
        Effect::BonusHealth(h) => {
            target.unit.hp = target.unit.hp + h;
        },
        Effect::BonusCountdown(c) => {
            target.attack.remaining_turns = target.attack.remaining_turns + c;
        },
        Effect::DealDamage(d) => {
            target.unit.hp = target.unit.hp - d;
        },
    }
}

/// Applies a card's effects, in order, to a unit.
pub fn play_effects(target: &mut CombatUnit, effects: &Vec<Effect>)
    requires
        effects_fit(*old(target), effects@),
    ensures
        *final(target) == apply_effects(*old(target), effects@),
{
    let n = effects.len();
    for i in 0..n
        invariant
            n == effects.len(),
            effects_fit(*old(target), effects@),
            *target == apply_effects(*old(target), effects@.take(i as int)),
    {
        proof {
            lemma_effects_fit_prefix(*old(target), effects@, i + 1);
            assert(effects@.take(i + 1).drop_last() =~= effects@.take(i as int));
        }
        play_effect(target, effects[i]);
    }
    assert(effects@.take(n as int) =~= effects@);
}

/// No two units share an entity.
pub open spec fn ids_distinct(units: Seq<CombatUnit>) -> bool {
    forall|i: int, j: int|
        0 <= i < units.len() && 0 <= j < units.len() && i != j ==> units[i].id != units[j].id
}

/// Some unit belongs to the entity.
pub open spec fn has_unit(units: Seq<CombatUnit>, id: u64) -> bool {
    exists|j: int| 0 <= j < units.len() && units[j].id == id
}

/// The position of the entity's unit.
pub open spec fn unit_index(units: Seq<CombatUnit>, id: u64) -> int {
    choose|j: int| 0 <= j < units.len() && units[j].id == id
}

/// A toggle switches; a plain button stays plain.
pub open spec fn flipped(t: Option<bool>) -> Option<bool> {
    match t {
        Some(b) => Some(!b),
        None => None,
    }
}

/// What a press needs so that it can be carried out: a card button is a toggle, units
/// are distinct entities, and playing the picked card on the target stays within `i32`.
pub open spec fn press_allowed(
    kind: CombatButtonType,
    button: CustomButton,
    manager: CombatManager,
    units: Seq<CombatUnit>,
) -> bool {
    match kind {
        CombatButtonType::EndTurn => true,
        CombatButtonType::Card(_) => button.toggled is Some,
        CombatButtonType::UnitSelector(chosen) => {
            &&& ids_distinct(units)
            &&& has_unit(units, chosen) ==> match manager.selected_card {
                Some((card, _)) => {
                    &&& effects_fit(units[unit_index(units, chosen)], card.effects@)
                    &&& fits_i32(manager.remaining_energy - card.cost)
                },
                None => true,
            }
        },
    }
}

/// How a button looks when the pointer rests on it.
pub open spec fn hover_look(kind: CombatButtonType) -> ButtonLook {
    ButtonLook {
        label: Some(ButtonLabel::Hover),
        shade: Some(if kind is UnitSelector { ButtonShade::TargetHovered } else { ButtonShade::Hovered }),
        border: Some(BorderShade::Gray),
    }
}

/// How a button looks when the pointer is away.
pub open spec fn idle_look(kind: CombatButtonType) -> ButtonLook {
    ButtonLook {
        label: Some(ButtonLabel::Off),
        shade: Some(if kind is UnitSelector { ButtonShade::TargetIdle } else { ButtonShade::Normal }),
        border: Some(BorderShade::Black),
    }
}

/// How a pressed button looks.
pub open spec fn pressed_look(kind: CombatButtonType) -> ButtonLook {
    match kind {
        CombatButtonType::EndTurn => ButtonLook {
            label: Some(ButtonLabel::Pressed),
            shade: Some(ButtonShade::Normal),
            border: Some(BorderShade::Black),
        },
        CombatButtonType::Card(_) => ButtonLook {
            label: Some(ButtonLabel::Pressed),
            shade: Some(ButtonShade::Pressed),
            border: None,
        },
        CombatButtonType::UnitSelector(_) => ButtonLook {
            label: Some(ButtonLabel::Pressed),
            shade: Some(ButtonShade::TargetHovered),
            border: None,
        },
    }
}

/// The index of the entity's unit, if it has one.
fn find_unit(units: &Vec<CombatUnit>, id: u64) -> (found: Option<usize>)
    ensures
        found matches Some(j) ==> j < units@.len() && units@[j as int].id == id,
        found is None ==> !has_unit(units@, id),
{
    for j in 0..units.len()
        invariant
            forall|k: int| 0 <= k < j ==> units@[k].id != id,
    {
        if units[j].id == id {
            return Some(j);
        }
    }
    None
}

/// Whether applying the effect to the unit stays within `i32`.
pub fn effect_would_fit(u: &CombatUnit, e: Effect) -> (ok: bool)
    ensures
        ok == effect_fits(*u, e),
{
    let (base, delta, add): (i32, i32, bool) = match e {
        Effect::BonusDamage(d) => (u.attack.damage, d, true),
        Effect::BonusHealth(h) => (u.unit.hp, h, true),
        Effect::BonusCountdown(c) => (u.attack.remaining_turns, c, true),
        Effect::DealDamage(d) => (u.unit.hp, d, false),
    };
    let v: i64 = if add { base as i64 + delta as i64 } else { base as i64 - delta as i64 };
    i32::MIN as i64 <= v && v <= i32::MAX as i64
}

/// Whether applying the effects in order to the unit stays within `i32`.
pub fn effects_would_fit(u: &CombatUnit, effects: &Vec<Effect>) -> (ok: bool)
    ensures
        ok == effects_fit(*u, effects@),
{
    let mut cur = *u;
    let n = effects.len();
    for i in 0..n
        invariant
            n == effects@.len(),
            effects_fit(*u, effects@.take(i as int)),
            cur == apply_effects(*u, effects@.take(i as int)),
    {
        assert(effects@.take(i + 1).drop_last() =~= effects@.take(i as int));
        assert(effects@.take(i + 1).last() == effects@[i as int]);
        if !effect_would_fit(&cur, effects[i]) {
            proof {
                if effects_fit(*u, effects@) {
                    lemma_effects_fit_prefix(*u, effects@, i + 1);
                }
            }
            return false;
        }
        play_effect(&mut cur, effects[i]);
    }
    assert(effects@.take(n as int) =~= effects@);
    true
}

/// Whether no two units share an entity.
pub fn ids_are_distinct(units: &Vec<CombatUnit>) -> (ok: bool)
    ensures
        ok == ids_distinct(units@),
{
    let n = units.len();
    for i in 0..n
        invariant
            n == units@.len(),
            forall|a: int, b: int| 0 <= a < i && 0 <= b < n && a != b ==> units@[a].id != units@[b].id,
    {
        for j in 0..n
            invariant
                n == units@.len(),
                i < n,
                forall|a: int, b: int| 0 <= a < i && 0 <= b < n && a != b ==> units@[a].id != units@[b].id,
                forall|b: int| 0 <= b < j && b != i ==> units@[i as int].id != units@[b].id,
        {
            if j != i && units[i].id == units[j].id {
                return false;
            }
        }
    }
    true
}

/// Whether a press can be carried out (see `press_allowed`).
pub fn press_would_be_allowed(
    kind: &CombatButtonType,
    button: &CustomButton,
    manager: &CombatManager,
    units: &Vec<CombatUnit>,
) -> (ok: bool)
    ensures
        ok == press_allowed(*kind, *button, *manager, units@),
{
    match kind {
        CombatButtonType::EndTurn => true,
        CombatButtonType::Card(_) => button.toggled.is_some(),
        CombatButtonType::UnitSelector(chosen) => {
            if !ids_are_distinct(units) {
                return false;
            }
            match find_unit(units, *chosen) {
                None => true,
                Some(j) => {
                    proof {
                        let k = unit_index(units@, *chosen);
                        assert(units@[j as int].id == *chosen);
                        assert(k == j);
                    }
                    match &manager.selected_card {
                        None => true,
                        Some((card, _)) => {
                            let total: i64 = manager.remaining_energy as i64 - card.cost as i64;
                            effects_would_fit(&units[j], &card.effects) && i32::MIN as i64 <= total && total
                                <= i32::MAX as i64
                        },
                    }
                },
            }
        },
    }
}

/// Reacts to the pointer on a button of the combat screen.
///
/// A disabled button ignores everything, and a toggle that is on ignores hovering.
/// Pressing "end turn" hands the turn to the enemy, disables the button and announces the
/// end of the turn. Pressing a card that is off turns it on and announces that any earlier
/// pick is dropped and this card is picked, unless the energy left is below its cost, in
/// which case it stays off; pressing a card that is on turns it off, drops the pick and
/// announces it. Pressing a unit's target picker plays the picked card (if any) on that
/// unit: its effects apply in order, its cost is paid, and the played card's button is
/// announced as dropped.
pub fn react_to_interaction(
    interaction: ButtonInteraction,
    button: &mut CustomButton,
    kind: &CombatButtonType,
    entity: u64,
    manager: &mut CombatManager,
    units: &mut Vec<CombatUnit>,
) -> (reaction: ButtonReaction)
    requires
        old(button).enabled && interaction == ButtonInteraction::Pressed ==> press_allowed(
            *kind,
            *old(button),
            *old(manager),
            old(units)@,
        ),
    ensures
        !old(button).enabled || interaction != ButtonInteraction::Pressed ==> {
            &&& *final(button) == *old(button)
            &&& *final(manager) == *old(manager)
            &&& final(units)@ == old(units)@
            &&& reaction.signals@.len() == 0
        },
        !old(button).enabled ==> reaction.look == ButtonLook::unchanged(),
        old(button).enabled && interaction != ButtonInteraction::Pressed ==> reaction.look == (
        if old(button).toggled == Some(true) {
            ButtonLook::unchanged()
        } else if interaction == ButtonInteraction::Hovered {
            hover_look(*kind)
        } else {
            idle_look(*kind)
        }),
        old(button).enabled && interaction == ButtonInteraction::Pressed ==> {
            &&& reaction.look == pressed_look(*kind)
            &&& match *kind {
                CombatButtonType::EndTurn => {
                    &&& *final(button) == CustomButton {
                        enabled: false,
                        toggled: flipped(old(button).toggled),
                        ..*old(button)
                    }
                    &&& *final(manager) == CombatManager { turn: Turn::Enemy, ..*old(manager) }
                    &&& final(units)@ == old(units)@
                    &&& reaction.signals@.len() == 1
                    &&& reaction.signals@[0] is EndOfTurn
                },
                CombatButtonType::Card(card) => {
                    &&& final(units)@ == old(units)@
                    &&& if old(button).toggled == Some(false) {
                        &&& *final(manager) == *old(manager)
                        &&& if old(manager).remaining_energy < card.cost {
                            &&& *final(button) == *old(button)
                            &&& reaction.signals@.len() == 0
                        } else {
                            &&& *final(button) == CustomButton { toggled: Some(true), ..*old(button) }
                            &&& reaction.signals@.len() == 2
                            &&& reaction.signals@[0] matches CombatSignal::Card(
                                CardEvent::CardDeselected(None),
                            )
                            &&& reaction.signals@[1] matches CombatSignal::Card(
                                CardEvent::CardSelected((c, e)),
                            ) && c@ == card@ && e == entity
                        }
                    } else {
                        &&& *final(button) == CustomButton { toggled: Some(false), ..*old(button) }
                        &&& *final(manager) == CombatManager { selected_card: None, ..*old(manager) }
                        &&& reaction.signals@.len() == 1
                        &&& reaction.signals@[0] matches CombatSignal::Card(
                            CardEvent::CardDeselected(None),
                        )
                    }
                },
                CombatButtonType::UnitSelector(chosen) => {
                    &&& *final(button) == CustomButton { toggled: flipped(old(button).toggled), ..*old(button) }
                    &&& if has_unit(old(units)@, chosen) && old(manager).selected_card is Some {
                        let (card, played) = old(manager).selected_card->0;
                        let j = unit_index(old(units)@, chosen);
                        &&& final(units)@ == old(units)@.update(j, apply_effects(old(units)@[j], card.effects@))
                        &&& *final(manager) == CombatManager {
                            remaining_energy: (old(manager).remaining_energy - card.cost) as i32,
                            ..*old(manager)
                        }
                        &&& reaction.signals@.len() == 1
                        &&& reaction.signals@[0] matches CombatSignal::Card(
                            CardEvent::CardDeselected(Some(e)),
                        ) && e == played
                    } else {
                        &&& *final(manager) == *old(manager)
                        &&& final(units)@ == old(units)@
                        &&& reaction.signals@.len() == 0
                    }
                },
            }
        },
{
    let mut signals: Vec<CombatSignal> = Vec::new();
    if !button.enabled {
        return ButtonReaction { look: ButtonLook::unchanged(), signals };
    }
    match interaction {
        ButtonInteraction::Pressed => {
            if let Some(toggle_state) = button.toggled {
                button.toggled = Some(!toggle_state);
            }
            match kind {
                CombatButtonType::EndTurn => {
                    manager.turn = Turn::Enemy;
                    button.enabled = false;
                    signals.push(CombatSignal::EndOfTurn);
                    ButtonReaction {
                        look: ButtonLook {
                            label: Some(ButtonLabel::Pressed),
                            shade: Some(ButtonShade::Normal),
                            border: Some(BorderShade::Black),
                        },
                        signals,
                    }
                },
                CombatButtonType::Card(card_data) => {
                    let look = ButtonLook {
                        label: Some(ButtonLabel::Pressed),
                        shade: Some(ButtonShade::Pressed),
                        border: None,
                    };
                    let on = match button.toggled {
                        Some(t) => t,
                        None => false,
                    };
                    if on {
                        if manager.remaining_energy < card_data.cost {
                            button.toggled = Some(!on);
                            return ButtonReaction { look, signals };
                        }
                        signals.push(CombatSignal::Card(CardEvent::CardDeselected(None)));
                        signals.push(CombatSignal::Card(CardEvent::CardSelected((card_data.clone(), entity))));
                    } else {
                        signals.push(CombatSignal::Card(CardEvent::CardDeselected(None)));
                        manager.selected_card = None;
                    }
                    ButtonReaction { look, signals }
                },
                CombatButtonType::UnitSelector(chosen) => {
                    let look = ButtonLook {
                        label: Some(ButtonLabel::Pressed),
                        shade: Some(ButtonShade::TargetHovered),
                        border: None,
                    };
                    if let Some(j) = find_unit(units, *chosen) {
                        proof {
                            assert(has_unit(old(units)@, *chosen));
                            let k = unit_index(old(units)@, *chosen);
                            assert(old(units)@[k].id == *chosen);
                            assert(k == j);
                        }
                        let mut cost: i32 = 0;
                        if let Some((card, played)) = &manager.selected_card {
                            cost = card.cost;
                            let mut target = units[j];
                            play_effects(&mut target, &card.effects);
                            units.set(j, target);
                            signals.push(CombatSignal::Card(CardEvent::CardDeselected(Some(*played))));
                        }
                        manager.remaining_energy = manager.remaining_energy - cost;
                    }
                    ButtonReaction { look, signals }
                },
            }
        },
        ButtonInteraction::Hovered => {
            if button.toggled == Some(true) {
                return ButtonReaction { look: ButtonLook::unchanged(), signals };
            }
            let shade = if let CombatButtonType::UnitSelector(_) = kind {
                ButtonShade::TargetHovered
            } else {
                ButtonShade::Hovered
            };
            ButtonReaction {
                look: ButtonLook { label: Some(ButtonLabel::Hover), shade: Some(shade), border: Some(BorderShade::Gray) },
                signals,
            }
        },
        ButtonInteraction::Idle => {
            if button.toggled == Some(true) {
                return ButtonReaction { look: ButtonLook::unchanged(), signals };
            }
            let shade = if let CombatButtonType::UnitSelector(_) = kind {
                ButtonShade::TargetIdle
            } else {
                ButtonShade::Normal
            };
            ButtonReaction {
                look: ButtonLook { label: Some(ButtonLabel::Off), shade: Some(shade), border: Some(BorderShade::Black) },
                signals,
            }
        },
    }
}


/// A button of the combat screen: its entity, its state and what it does.
#[derive(Debug)]
pub struct CombatButton {
    pub id: u64,
    pub button: CustomButton,
    pub kind: CombatButtonType,
}

/// What the screen must do after a card event: buttons to redraw with their new look,
/// units that get a target picker, and entities to remove, each in order.
#[derive(Debug)]
pub struct CardEventOutcome {
    pub restyled: Vec<(u64, ButtonLook)>,
    pub pickers_for: Vec<u64>,
    pub despawned: Vec<u64>,
}

/// The identifiers of the buttons that satisfy `pred`, in order.
pub open spec fn ids_where(bs: Seq<CombatButton>, pred: spec_fn(CombatButton) -> bool) -> Seq<u64>
    decreases bs.len(),
{
    if bs.len() == 0 {
        Seq::empty()
    } else if pred(bs.last()) {
        ids_where(bs.drop_last(), pred).push(bs.last().id)
    } else {
        ids_where(bs.drop_last(), pred)
    }
}

/// The cards shown by the buttons of the entity, in order.
pub open spec fn cards_of(bs: Seq<CombatButton>, id: u64) -> Seq<CardView>
    decreases bs.len(),
{
    if bs.len() == 0 {
        Seq::empty()
    } else {
        let rest = cards_of(bs.drop_last(), id);
        match bs.last().kind {
            CombatButtonType::Card(c) => if bs.last().id == id {
                rest.push(c@)
            } else {
                rest
            },
            _ => rest,
        }
    }
}

/// The button shows the card.
pub open spec fn shows_card(b: CombatButton, v: CardView) -> bool {
    b.kind matches CombatButtonType::Card(c) && c@ == v
}

/// Buttons of cards.
pub open spec fn card_buttons() -> spec_fn(CombatButton) -> bool {
    |b: CombatButton| b.kind is Card
}

/// Target pickers.
pub open spec fn target_pickers() -> spec_fn(CombatButton) -> bool {
    |b: CombatButton| b.kind is UnitSelector
}

/// Buttons of the entity.
pub open spec fn of_entity(id: u64) -> spec_fn(CombatButton) -> bool {
    |b: CombatButton| b.id == id
}

/// The look of a card button that is picked.
pub open spec fn picked_look() -> ButtonLook {
    ButtonLook {
        label: Some(ButtonLabel::Pressed),
        shade: Some(ButtonShade::Pressed),
        border: Some(BorderShade::White),
    }
}

/// The look of a card button that is not picked.
pub open spec fn unpicked_look() -> ButtonLook {
    ButtonLook { label: Some(ButtonLabel::Off), shade: Some(ButtonShade::Normal), border: Some(BorderShade::Black) }
}

/// Pairs each identifier with the look.
pub open spec fn restyle_with(look: ButtonLook) -> spec_fn(u64) -> (u64, ButtonLook) {
    |id: u64| (id, look)
}

/// The button with its toggle set as given.
pub open spec fn with_toggle(b: CombatButton, on: bool) -> CombatButton {
    CombatButton { button: CustomButton { toggled: Some(on), ..b.button }, ..b }
}

/// The two managers agree on everything but the picked card and the discard pile.
pub open spec fn same_but_pick(a: CombatManager, b: CombatManager) -> bool {
    &&& a.turn == b.turn
    &&& a.remaining_energy == b.remaining_energy
    &&& a.max_energy == b.max_energy
    &&& a.deck == b.deck
    &&& a.draw_pile == b.draw_pile
    &&& a.hand_node == b.hand_node
}

/// The new look of each card button once a card is picked, in order: pressed for those that
/// show the card, idle for all others.
pub open spec fn pick_looks(bs: Seq<CombatButton>, v: CardView) -> Seq<(u64, ButtonLook)>
    decreases bs.len(),
{
    if bs.len() == 0 {
        Seq::empty()
    } else if bs.last().kind is Card {
        pick_looks(bs.drop_last(), v).push(
            (bs.last().id, if shows_card(bs.last(), v) {
                picked_look()
            } else {
                unpicked_look()
            }),
        )
    } else {
        pick_looks(bs.drop_last(), v)
    }
}

/// The button once a card is picked: a card button is on exactly when it shows the card,
/// any other button stays as it was.
pub open spec fn after_pick(b: CombatButton, v: CardView) -> CombatButton {
    if b.kind is Card {
        with_toggle(b, shows_card(b, v))
    } else {
        b
    }
}

/// Turns on every button that shows the card and turns off every other card button.
fn mark_picked(buttons: &mut Vec<CombatButton>, card: &crate::card::Card) -> (restyled: Vec<(u64, ButtonLook)>)
    ensures
        final(buttons)@.len() == old(buttons)@.len(),
        forall|i: int| 0 <= i < old(buttons)@.len() ==> #[trigger] final(buttons)@[i] == after_pick(old(buttons)@[i], card@),
        restyled@ == pick_looks(old(buttons)@, card@),
{
    let mut restyled: Vec<(u64, ButtonLook)> = Vec::new();
    let n = buttons.len();
    for i in 0..n
        invariant
            n == buttons@.len(),
            n == old(buttons)@.len(),
            forall|k: int| 0 <= k < i ==> #[trigger] buttons@[k] == after_pick(old(buttons)@[k], card@),
            forall|k: int| i <= k < n ==> #[trigger] buttons@[k] == old(buttons)@[k],
            restyled@ == pick_looks(old(buttons)@.take(i as int), card@),
    {
        assert(old(buttons)@.take(i + 1).drop_last() =~= old(buttons)@.take(i as int));
        assert(old(buttons)@.take(i + 1).last() == old(buttons)@[i as int]);
        assert(buttons@[i as int] == old(buttons)@[i as int]);
        let (is_card, hit) = match &buttons[i].kind {
            CombatButtonType::Card(card_data) => (true, same_card(card_data, card)),
            _ => (false, false),
        };
        assert(hit == shows_card(old(buttons)@[i as int], card@));
        if is_card {
            buttons[i].button.toggled = Some(hit);
            if hit {
                restyled.push((buttons[i].id, ButtonLook {
                    label: Some(ButtonLabel::Pressed),
                    shade: Some(ButtonShade::Pressed),
                    border: Some(BorderShade::White),
                }));
            } else {
                restyled.push((buttons[i].id, ButtonLook {
                    label: Some(ButtonLabel::Off),
                    shade: Some(ButtonShade::Normal),
                    border: Some(BorderShade::Black),
                }));
            }
        }
        assert(restyled@ =~= pick_looks(old(buttons)@.take(i + 1), card@));
    }
    assert(old(buttons)@.take(n as int) =~= old(buttons)@);
    restyled
}

/// Turns every card button off and lists the target pickers.
fn unmark_all(buttons: &mut Vec<CombatButton>) -> (res: (Vec<u64>, Vec<(u64, ButtonLook)>))
    ensures
        final(buttons)@.len() == old(buttons)@.len(),
        forall|i: int| 0 <= i < old(buttons)@.len() ==> #[trigger] final(buttons)@[i] == if old(buttons)@[i].kind is Card {
            with_toggle(old(buttons)@[i], false)
        } else {
            old(buttons)@[i]
        },
        res.0@ == ids_where(old(buttons)@, target_pickers()),
        res.1@ == ids_where(old(buttons)@, card_buttons()).map_values(restyle_with(unpicked_look())),
{
    let mut pickers: Vec<u64> = Vec::new();
    let mut restyled: Vec<(u64, ButtonLook)> = Vec::new();
    let n = buttons.len();
    for i in 0..n
        invariant
            n == buttons@.len(),
            n == old(buttons)@.len(),
            forall|k: int| 0 <= k < i ==> #[trigger] buttons@[k] == if old(buttons)@[k].kind is Card {
                with_toggle(old(buttons)@[k], false)
            } else {
                old(buttons)@[k]
            },
            forall|k: int| i <= k < n ==> #[trigger] buttons@[k] == old(buttons)@[k],
            pickers@ == ids_where(old(buttons)@.take(i as int), target_pickers()),
            restyled@ == ids_where(old(buttons)@.take(i as int), card_buttons()).map_values(
                restyle_with(unpicked_look()),
            ),
    {
        assert(old(buttons)@.take(i + 1).drop_last() =~= old(buttons)@.take(i as int));
        assert(old(buttons)@.take(i + 1).last() == old(buttons)@[i as int]);
        assert(buttons@[i as int] == old(buttons)@[i as int]);
        let (is_picker, is_card) = match &buttons[i].kind {
            CombatButtonType::UnitSelector(_) => (true, false),
            CombatButtonType::Card(_) => (false, true),
            CombatButtonType::EndTurn => (false, false),
        };
        if is_picker {
            pickers.push(buttons[i].id);
        }
        if is_card {
            buttons[i].button.toggled = Some(false);
            restyled.push((buttons[i].id, ButtonLook {
                label: Some(ButtonLabel::Off),
                shade: Some(ButtonShade::Normal),
                border: Some(BorderShade::Black),
            }));
        }
        assert(pickers@ =~= ids_where(old(buttons)@.take(i + 1), target_pickers()));
        assert(restyled@ =~= ids_where(old(buttons)@.take(i + 1), card_buttons()).map_values(
            restyle_with(unpicked_look()),
        ));
    }
    assert(old(buttons)@.take(n as int) =~= old(buttons)@);
    (pickers, restyled)
}

/// Puts the cards of the entity's buttons on the discard pile and lists the entity once
/// for each of its buttons.
fn discard_played(buttons: &Vec<CombatButton>, played: u64, discard: &mut Vec<crate::card::Card>) -> (hits: Vec<u64>)
    ensures
        card_views(final(discard)@) == card_views(old(discard)@) + cards_of(buttons@, played),
        hits@ == ids_where(buttons@, of_entity(played)),
{
    let mut hits: Vec<u64> = Vec::new();
    let n = buttons.len();
    for i in 0..n
        invariant
            n == buttons@.len(),
            card_views(discard@) == card_views(old(discard)@) + cards_of(buttons@.take(i as int), played),
            hits@ == ids_where(buttons@.take(i as int), of_entity(played)),
    {
        assert(buttons@.take(i + 1).drop_last() =~= buttons@.take(i as int));
        assert(buttons@.take(i + 1).last() == buttons@[i as int]);
        let ghost before = discard@;
        if buttons[i].id == played {
            if let CombatButtonType::Card(card) = &buttons[i].kind {
                let c = card.clone();
                discard.push(c);
                assert(card_views(discard@) =~= card_views(before).push(card@));
            }
            hits.push(played);
        }
        assert(card_views(discard@) =~= card_views(old(discard)@) + cards_of(buttons@.take(i + 1), played));
        assert(hits@ =~= ids_where(buttons@.take(i + 1), of_entity(played)));
    }
    assert(buttons@.take(n as int) =~= buttons@);
    hits
}

/// Updates the combat screen after a card event.
///
/// When a card is picked it becomes the manager's pick, every button that shows it turns
/// on and looks pressed, every other card button turns off and looks idle, and each unit
/// gets a target picker. When the pick is dropped,
/// every target picker goes, every card button turns off and looks idle (and, if there is
/// a card button, the pick is cleared); when a card was played, the cards of its button go
/// to the discard pile and its button goes.
pub fn handle_card_event(
    manager: &mut CombatManager,
    buttons: &mut Vec<CombatButton>,
    unit_ids: &Vec<u64>,
    event: &CardEvent,
) -> (out: CardEventOutcome)
    ensures
        same_but_pick(*final(manager), *old(manager)),
        final(buttons)@.len() == old(buttons)@.len(),
        match *event {
            CardEvent::CardSelected((card, picked)) => {
                &&& final(manager).selected_card matches Some((c, e)) && c@ == card@ && e == picked
                &&& final(manager).discard_pile == old(manager).discard_pile
                &&& forall|i: int| 0 <= i < old(buttons)@.len() ==> #[trigger] final(buttons)@[i] == after_pick(old(buttons)@[i], card@)
                &&& out.restyled@ == pick_looks(old(buttons)@, card@)
                &&& out.pickers_for@ == unit_ids@
                &&& out.despawned@.len() == 0
            },
            CardEvent::CardDeselected(played) => {
                &&& final(manager).selected_card == if ids_where(old(buttons)@, card_buttons()).len() > 0 {
                    None
                } else {
                    old(manager).selected_card
                }
                &&& forall|i: int| 0 <= i < old(buttons)@.len() ==> #[trigger] final(buttons)@[i] == if old(buttons)@[i].kind is Card {
                    with_toggle(old(buttons)@[i], false)
                } else {
                    old(buttons)@[i]
                }
                &&& out.restyled@ == ids_where(old(buttons)@, card_buttons()).map_values(restyle_with(unpicked_look()))
                &&& out.pickers_for@.len() == 0
                &&& match played {
                    Some(e) => {
                        &&& card_views(final(manager).discard_pile@) == card_views(old(manager).discard_pile@)
                            + cards_of(old(buttons)@, e)
                        &&& out.despawned@ == ids_where(old(buttons)@, target_pickers()) + ids_where(
                            old(buttons)@,
                            of_entity(e),
                        )
                    },
                    None => {
                        &&& final(manager).discard_pile == old(manager).discard_pile
                        &&& out.despawned@ == ids_where(old(buttons)@, target_pickers())
                    },
                }
            },
        },
{
    match event {
        CardEvent::CardSelected((selected_card, card_entity)) => {
            manager.selected_card = Some((selected_card.clone(), *card_entity));
            let restyled = mark_picked(buttons, selected_card);
            let mut pickers_for: Vec<u64> = Vec::new();
            for k in 0..unit_ids.len()
                invariant
                    pickers_for@ == unit_ids@.take(k as int),
            {
                pickers_for.push(unit_ids[k]);
                assert(pickers_for@ =~= unit_ids@.take(k + 1));
            }
            assert(unit_ids@.take(unit_ids.len() as int) =~= unit_ids@);
            CardEventOutcome { restyled, pickers_for, despawned: Vec::new() }
        },
        CardEvent::CardDeselected(played) => {
            let mut hits: Vec<u64> = Vec::new();
            if let Some(entity) = played {
                hits = discard_played(buttons, *entity, &mut manager.discard_pile);
            }
            let (mut despawned, restyled) = unmark_all(buttons);
            if restyled.len() > 0 {
                manager.selected_card = None;
            }
            let ghost pickers = despawned@;
            despawned.append(&mut hits);
            proof {
                if played is None {
                    assert(despawned@ =~= pickers);
                }
            }
            CardEventOutcome { restyled, pickers_for: Vec::new(), despawned }
        },
    }
}

} // verus!
