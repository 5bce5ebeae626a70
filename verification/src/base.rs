//! The home screen: choosing a leader starts a run with the starter deck and units.

use vstd::prelude::*;

use crate::card::{description_of, Card, CardView, Effect};
use crate::combat::{Attack, Unit};
use crate::{BorderShade, ButtonInteraction, ButtonLabel, ButtonLook, ButtonShade, GameState, Player};

verus! {

/// What the home screen is asked to do.
#[derive(Debug)]
pub enum BaseEvent {
    LoadHomeScreen,
    LoadLeaderSelectionMenu,
    StartGame(Vec<Card>, Vec<(Unit, Attack)>),
}

/// The view of a card made by `Card::new` from the effects and cost.
pub open spec fn new_card_view(effects: Seq<Effect>, cost: i32) -> CardView {
    CardView { effects: effects, cost: cost, description: description_of(effects) }
}

/// The deck every leader starts with.
pub open spec fn starter_deck_view() -> Seq<CardView> {
    seq![
        new_card_view(seq![Effect::BonusDamage(-2i32)], 1),
        new_card_view(seq![Effect::BonusHealth(-2i32)], 1),
        new_card_view(seq![Effect::BonusCountdown(1)], 1),
        new_card_view(seq![Effect::DealDamage(4), Effect::BonusDamage(6)], 1),
        new_card_view(seq![Effect::DealDamage(3), Effect::BonusHealth(6)], 1),
    ]
}

/// The units every leader starts with: three units of 10 hit points.
pub open spec fn starter_units_view() -> Seq<(Unit, Attack)> {
    seq![
        (Unit { max_hp: 10, hp: 10, pos: (0, 0) }, Attack { attack_interval: 4, remaining_turns: 4, damage: 3 }),
        (Unit { max_hp: 10, hp: 10, pos: (0, 1) }, Attack { attack_interval: 9, remaining_turns: 9, damage: 100 }),
        (Unit { max_hp: 10, hp: 10, pos: (1, 0) }, Attack { attack_interval: 6, remaining_turns: 6, damage: 5 }),
    ]
}

/// The event starts a run with the starter deck and units.
pub open spec fn is_starter_choice(e: BaseEvent) -> bool {
    e matches BaseEvent::StartGame(deck, units) && crate::combat::card_views(deck@) == starter_deck_view()
        && units@ == starter_units_view()
}

/// The deck every leader starts with.
pub fn starter_deck() -> (deck: Vec<Card>)
    ensures
        crate::combat::card_views(deck@) == starter_deck_view(),
{
    let mut deck: Vec<Card> = Vec::new();
    deck.push(Card::new(Effect::BonusDamage(-2), 1));
    deck.push(Card::new(Effect::BonusHealth(-2), 1));
    deck.push(Card::new(Effect::BonusCountdown(1), 1));
    let mut both: Vec<Effect> = Vec::new();
    both.push(Effect::DealDamage(4));
    both.push(Effect::BonusDamage(6));
    assert(both@ =~= seq![Effect::DealDamage(4), Effect::BonusDamage(6)]);
    deck.push(Card::new(both, 1));
    let mut other: Vec<Effect> = Vec::new();
    other.push(Effect::DealDamage(3));
    other.push(Effect::BonusHealth(6));
    assert(other@ =~= seq![Effect::DealDamage(3), Effect::BonusHealth(6)]);
    deck.push(Card::new(other, 1));
    assert(crate::combat::card_views(deck@) =~= starter_deck_view());
    deck
}

/// The units every leader starts with.
pub fn starter_units() -> (units: Vec<(Unit, Attack)>)
    ensures
        units@ == starter_units_view(),
{
    let mut units: Vec<(Unit, Attack)> = Vec::new();
    units.push((Unit::new(10, (0, 0)), Attack::new(4, 3)));
    units.push((Unit::new(10, (0, 1)), Attack::new(9, 100)));
    units.push((Unit::new(10, (1, 0)), Attack::new(6, 5)));
    assert(units@ =~= starter_units_view());
    units
}

/// The leader menu holds three leaders, each starting a run with the starter deck and units.
pub fn leader_choices() -> (choices: Vec<BaseEvent>)
    ensures
        choices@.len() == 3,
        forall|i: int| 0 <= i < 3 ==> is_starter_choice(#[trigger] choices@[i]),
{
    let mut choices: Vec<BaseEvent> = Vec::new();
    choices.push(BaseEvent::StartGame(starter_deck(), starter_units()));
    choices.push(BaseEvent::StartGame(starter_deck(), starter_units()));
    choices.push(BaseEvent::StartGame(starter_deck(), starter_units()));
    choices
}

/// What the home screen does with an event.
#[derive(Debug)]
pub enum BaseOutcome {
    /// Show the start button.
    ShowHomeScreen,
    /// Show one button per leader, each sending its event when pressed.
    ShowLeaderMenu(Vec<BaseEvent>),
    /// Start the run with this player and go to this screen.
    Begin(Player, GameState),
}

/// Decides what the home screen does with an event: the home screen and the leader menu
/// are shown; starting the game makes the player from the chosen deck and units and goes
/// to the map.
pub fn base_event_outcome(event: BaseEvent) -> (outcome: BaseOutcome)
    ensures
        match event {
            BaseEvent::LoadHomeScreen => outcome is ShowHomeScreen,
            BaseEvent::LoadLeaderSelectionMenu => outcome matches BaseOutcome::ShowLeaderMenu(choices)
                && choices@.len() == 3 && forall|i: int| 0 <= i < 3 ==> is_starter_choice(#[trigger] choices@[i]),
            BaseEvent::StartGame(deck, units) => outcome matches BaseOutcome::Begin(player, next)
                && player.deck == deck && player.units == units && next == GameState::MapScreen,
        },
{
    match event {
        BaseEvent::LoadHomeScreen => BaseOutcome::ShowHomeScreen,
        BaseEvent::LoadLeaderSelectionMenu => BaseOutcome::ShowLeaderMenu(leader_choices()),
        BaseEvent::StartGame(deck, units) => BaseOutcome::Begin(Player::new(deck, units), GameState::MapScreen),
    }
}

/// How a home-screen button looks: pressed (border kept), hovered with a white border,
/// idle with a black border.
pub fn home_button_look(interaction: ButtonInteraction) -> (look: ButtonLook)
    ensures
        look == match interaction {
            ButtonInteraction::Pressed => ButtonLook {
                label: Some(ButtonLabel::Pressed),
                shade: Some(ButtonShade::Pressed),
                border: None,
            },
            ButtonInteraction::Hovered => ButtonLook {
                label: Some(ButtonLabel::Hover),
                shade: Some(ButtonShade::Hovered),
                border: Some(BorderShade::White),
            },
            ButtonInteraction::Idle => ButtonLook {
                label: Some(ButtonLabel::Off),
                shade: Some(ButtonShade::Normal),
                border: Some(BorderShade::Black),
            },
        },
{
    match interaction {
        ButtonInteraction::Pressed => ButtonLook {
            label: Some(ButtonLabel::Pressed),
            shade: Some(ButtonShade::Pressed),
            border: None,
        },
        ButtonInteraction::Hovered => ButtonLook {
            label: Some(ButtonLabel::Hover),
            shade: Some(ButtonShade::Hovered),
            border: Some(BorderShade::White),
        },
        ButtonInteraction::Idle => ButtonLook {
            label: Some(ButtonLabel::Off),
            shade: Some(ButtonShade::Normal),
            border: Some(BorderShade::Black),
        },
    }
}

} // verus!
