use combine_and_command::card::effects_printable;
use combine_and_command::rest_sites::can_smith_cards;
use combine_and_command::base::{
    base_event_outcome, home_button_look, leader_choices, starter_deck, starter_units, BaseEvent,
    BaseOutcome,
};
use combine_and_command::card::{Card, Effect};
use combine_and_command::map::{
    add_connection, generate_map_data, prepare_map, tile_is_selectable, MapData, MapManager,
};
use combine_and_command::rest_sites::{
    apply_selected_card_actions, card_choice_look, make_smithing_result, remove_from_deck,
    rest_site_selectors, CardSlot, SelectedCard, SelectedCardAction,
};
use combine_and_command::{BorderShade, ButtonInteraction, ButtonLabel, CustomButton, GameState, Player, START_TILE};

fn targets(m: &MapData, t: (i32, i32)) -> Option<Vec<(i32, i32)>> {
    m.entries().iter().find(|e| e.0 == t).map(|e| e.1.clone())
}

#[test]
fn custom_button_new() {
    let t = CustomButton::new("a".to_string(), "b".to_string(), "c".to_string(), true);
    assert!(t.enabled);
    assert_eq!(t.toggled, Some(false));
    let p = CustomButton::new("a".to_string(), "b".to_string(), "c".to_string(), false);
    assert_eq!(p.toggled, None);
    assert_eq!((p.off_text.as_str(), p.hover_text.as_str(), p.pressed_text.as_str()), ("a", "b", "c"));
    assert_eq!(GameState::default(), GameState::HomeBase);
}

#[test]
fn map_keys_are_distinct() {
    let mut m = MapData::new();
    assert!(m.keys_are_distinct());
    add_connection(&mut m, (0, 0), (1, 1));
    add_connection(&mut m, (1, 1), (1, 2));
    add_connection(&mut m, (0, 0), (0, 1));
    assert!(m.keys_are_distinct());
    assert!(generate_map_data().keys_are_distinct());
}

#[test]
fn connections_accumulate() {
    let mut m = MapData::new();
    add_connection(&mut m, (0, 0), (1, 1));
    add_connection(&mut m, (0, 0), (0, 1));
    add_connection(&mut m, (2, 7), START_TILE);
    assert_eq!(m.entries().len(), 2);
    assert_eq!(targets(&m, (0, 0)), Some(vec![(1, 1), (0, 1)]));
    assert_eq!(targets(&m, (2, 7)), Some(vec![(2, 8)]));
    assert!(tile_is_selectable(&m, (2, 7), (2, 8)));
    assert!(!tile_is_selectable(&m, (0, 0), (2, 8)));
    assert!(!tile_is_selectable(&m, (4, 4), (2, 8)));
}

#[test]
fn generated_maps_are_layered() {
    for _ in 0..20 {
        let m = generate_map_data();
        let mut edges = 0;
        for (from, tos) in m.entries() {
            assert!((0..=4).contains(&from.0) && (0..=7).contains(&from.1));
            assert!(!tos.is_empty());
            for to in tos {
                edges += 1;
                if from.1 == 7 {
                    assert_eq!(*to, START_TILE);
                } else {
                    assert_eq!(to.1, from.1 + 1);
                    assert!((to.0 - from.0).abs() <= 1 && (0..=4).contains(&to.0));
                }
            }
        }
        assert_eq!(edges, 24);
        let keys: Vec<(i32, i32)> = m.entries().iter().map(|e| e.0).collect();
        for (i, k) in keys.iter().enumerate() {
            assert!(!keys[i + 1..].contains(k));
        }
    }
}

#[test]
fn map_is_made_once_and_kept() {
    let mut manager: Option<MapManager> = None;
    let (first, tile) = prepare_map(&mut manager);
    assert_eq!(tile, START_TILE);
    assert_eq!(manager.as_ref().unwrap().current_tile, START_TILE);
    let next = manager.as_mut().unwrap().select_tile((2, 7));
    assert_eq!(next, GameState::Combat);
    let (again, tile) = prepare_map(&mut manager);
    assert_eq!(tile, (2, 7));
    assert_eq!(again.entries().len(), first.entries().len());
    for (k, v) in first.entries() {
        assert_eq!(targets(&again, *k), Some(v.clone()));
    }
    let mut empty = Some(MapManager { map_data: None, current_tile: (1, 3) });
    let (_, tile) = prepare_map(&mut empty);
    assert_eq!(tile, START_TILE);
    assert_eq!(empty.as_ref().unwrap().current_tile, (1, 3));
    assert!(empty.as_ref().unwrap().map_data.is_some());
}

#[test]
fn starter_deck_and_units() {
    let deck = starter_deck();
    let descriptions: Vec<&str> = deck.iter().map(|c| c.description.as_str()).collect();
    assert_eq!(
        descriptions,
        vec![
            "decrease the attack of a unit by 2",
            "decrease the health max by 2",
            "reduce the countdown by 1",
            "deal 4 damage and increase the attack of a unit by 6",
            "deal 3 damage and increase the health max by 6",
        ]
    );
    assert!(deck.iter().all(|c| c.cost == 1));
    let units = starter_units();
    assert_eq!(units.len(), 3);
    assert_eq!((units[1].0.pos, units[1].1.attack_interval, units[1].1.damage), ((0, 1), 9, 100));
    assert_eq!((units[2].0.pos, units[2].1.remaining_turns, units[2].1.damage), ((1, 0), 6, 5));
    assert_eq!(leader_choices().len(), 3);
}

#[test]
fn home_screen_events() {
    assert!(matches!(base_event_outcome(BaseEvent::LoadHomeScreen), BaseOutcome::ShowHomeScreen));
    match base_event_outcome(BaseEvent::LoadLeaderSelectionMenu) {
        BaseOutcome::ShowLeaderMenu(choices) => {
            assert_eq!(choices.len(), 3);
            for c in choices {
                match c {
                    BaseEvent::StartGame(deck, units) => {
                        assert_eq!(deck.len(), 5);
                        assert_eq!(units.len(), 3);
                    }
                    _ => panic!("expected a leader"),
                }
            }
        }
        _ => panic!("expected the leader menu"),
    }
    let deck = vec![Card::new(Effect::DealDamage(1), 1)];
    match base_event_outcome(BaseEvent::StartGame(deck, vec![])) {
        BaseOutcome::Begin(player, next) => {
            assert_eq!(player.deck.len(), 1);
            assert_eq!(next, GameState::MapScreen);
        }
        _ => panic!("expected the run to begin"),
    }
    assert_eq!(home_button_look(ButtonInteraction::Pressed).border, None);
    assert_eq!(home_button_look(ButtonInteraction::Hovered).border, Some(BorderShade::White));
}

#[test]
fn rest_site_actions_on_deck() {
    let a = Card::new(Effect::BonusDamage(1), 1);
    let b = Card::new(Effect::BonusHealth(1), 1);
    let mut player = Player::new(vec![a.clone(), b.clone(), a.clone()], vec![]);
    let slot = CardSlot { x: -175, y: 150 };
    let shown = apply_selected_card_actions(
        &mut player,
        &a,
        &vec![SelectedCardAction::RemoveFromDeck, SelectedCardAction::ReturnSelectedCardInfo(slot)],
    );
    assert_eq!(player.deck.len(), 2);
    assert!(player.deck[0] == b && player.deck[1] == a);
    assert_eq!(shown.len(), 1);
    assert!(shown[0].0 == a);
    assert_eq!(shown[0].1, slot);
    apply_selected_card_actions(&mut player, &b, &vec![SelectedCardAction::AddToDeck(None)]);
    assert_eq!(player.deck.len(), 3);
    assert!(player.deck[2] == b);
    apply_selected_card_actions(&mut player, &b, &vec![SelectedCardAction::AddToDeck(Some(vec![a.clone(), a.clone()]))]);
    assert_eq!(player.deck.len(), 5);
    let c = Card::new(Effect::DealDamage(9), 3);
    let mut deck = vec![a.clone()];
    remove_from_deck(&mut deck, &c);
    assert_eq!(deck.len(), 1);
}

#[test]
fn remove_then_add_back_keeps_deck() {
    let a = Card::new(Effect::BonusDamage(1), 1);
    let b = Card::new(Effect::BonusHealth(1), 1);
    let mut player = Player::new(vec![a.clone(), b.clone()], vec![]);
    apply_selected_card_actions(
        &mut player,
        &a,
        &vec![SelectedCardAction::RemoveFromDeck, SelectedCardAction::AddToDeck(None)],
    );
    assert_eq!(player.deck.len(), 2);
    assert!(player.deck[0] == b && player.deck[1] == a);
}

#[test]
fn rest_site_has_two_selectors() {
    let s = rest_site_selectors();
    assert_eq!(s.len(), 2);
    assert_eq!(s[0].1, CardSlot { x: -175, y: 150 });
    assert_eq!(s[1].1, CardSlot { x: 175, y: 150 });
    assert!(matches!(s[1].0[0], SelectedCardAction::RemoveFromDeck));
    assert!(matches!(s[1].0[1], SelectedCardAction::ReturnSelectedCardInfo(CardSlot { x: 175, y: 150 })));
    assert_eq!(card_choice_look(ButtonInteraction::Pressed).border, Some(BorderShade::Red));
    assert_eq!(card_choice_look(ButtonInteraction::Idle).label, Some(ButtonLabel::Off));
}

#[test]
fn smithing_two_cards() {
    let a = Card::new(vec![Effect::DealDamage(4), Effect::BonusDamage(6)], 1);
    let b = Card::new(Effect::BonusHealth(-2), 2);
    let made = make_smithing_result(&vec![SelectedCard(a.clone()), SelectedCard(b.clone())]).unwrap();
    assert_eq!(made.effects, vec![Effect::DealDamage(4), Effect::BonusDamage(6), Effect::BonusHealth(-2)]);
    assert_eq!(made.cost, 3);
    assert_eq!(made.description, format!("{} and {}", a.description, b.description));
    assert!(make_smithing_result(&vec![SelectedCard(a.clone())]).is_none());
    assert!(make_smithing_result(&vec![]).is_none());
    assert!(make_smithing_result(&vec![SelectedCard(a.clone()), SelectedCard(b.clone()), SelectedCard(a)]).is_none());
}

#[test]
fn every_generated_tile_leads_to_the_start() {
    for _ in 0..10 {
        let m = generate_map_data();
        for (from, _) in m.entries() {
            let mut at = *from;
            let mut steps = 0;
            while at != START_TILE {
                at = targets(&m, at).unwrap()[0];
                steps += 1;
                assert!(steps <= 8);
            }
        }
        assert!(m.entries().iter().any(|e| e.0 .1 == 0));
        assert!(m.entries().iter().any(|e| e.0 .1 == 7));
    }
}

#[test]
fn smithing_limits() {
    let a = Card::new(Effect::DealDamage(1), i32::MAX);
    let b = Card::new(Effect::DealDamage(1), 1);
    assert!(!can_smith_cards(&a, &b));
    assert!(can_smith_cards(&b, &b));
    assert!(effects_printable(&vec![Effect::DealDamage(-i32::MAX)]));
    assert!(!effects_printable(&vec![Effect::DealDamage(1), Effect::BonusHealth(i32::MIN)]));
}
