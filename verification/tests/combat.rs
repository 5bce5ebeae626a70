use combine_and_command::combat::flow::attacks_would_fit;
use combine_and_command::combat::player_actions::{effects_would_fit, ids_are_distinct, press_would_be_allowed};
use combine_and_command::base::BaseEvent;
use combine_and_command::card::{Card, Effect};
use combine_and_command::combat::flow::{
    choose_encounter, combat_manager_for, deal_damage_system, encounter_pool_name, end_combat,
    handle_end_of_turn, preflight, process_attacks, remove_dead_units,
};
use combine_and_command::combat::movement::{closing_ranks_would_fit, move_order, move_unit, steps_would_fit, update_unit_pos};
use combine_and_command::combat::player_actions::{
    handle_card_event, react_to_interaction, CombatButton, CombatSignal,
};
use combine_and_command::combat::{
    card_button, end_turn_button, target_picker_button, unit_labels, Attack, CardEvent,
    CombatButtonType, CombatManager, CombatUnit, Turn, Unit,
};
use combine_and_command::{
    BorderShade, ButtonInteraction, ButtonLabel, ButtonShade, CustomButton, GameState, Player,
};

fn card(e: Effect, cost: i32) -> Card {
    Card::new(e, cost)
}

fn fighter(id: u64, friendly: bool, hp: i32, pos: (i32, i32), interval: i32, damage: i32) -> CombatUnit {
    CombatUnit { id, unit: Unit::new(hp, pos), attack: Attack::new(interval, damage), is_friendly: friendly }
}

#[test]
fn new_units_and_attacks() {
    let u = Unit::new(10, (1, 2));
    assert_eq!((u.max_hp, u.hp, u.pos), (10, 10, (1, 2)));
    let mut a = Attack::new(4, 3);
    assert_eq!((a.attack_interval, a.remaining_turns, a.damage), (4, 4, 3));
    a.countdown();
    assert_eq!(a.remaining_turns, 3);
    assert_eq!(a.attack_interval, 4);
}

#[test]
fn manager_starts_with_deck_in_draw_pile() {
    let deck = vec![card(Effect::BonusDamage(1), 1), card(Effect::BonusHealth(1), 2)];
    let m = CombatManager::new(deck.clone(), 3, 7);
    assert_eq!(m.turn, Turn::Player);
    assert_eq!((m.remaining_energy, m.max_energy, m.hand_node), (3, 3, 7));
    assert!(m.selected_card.is_none());
    assert!(m.deck == deck);
    assert!(m.draw_pile == deck);
    assert!(m.discard_pile.is_empty());
}

#[test]
fn draw_takes_top_card() {
    let deck = vec![card(Effect::BonusDamage(1), 1), card(Effect::BonusHealth(1), 2)];
    let mut m = CombatManager::new(deck, 3, 0);
    let c = m.draw().unwrap();
    assert_eq!(c.cost, 2);
    assert_eq!(m.draw_pile.len(), 1);
    let c = m.draw().unwrap();
    assert_eq!(c.cost, 1);
    assert!(m.draw().is_none());
}

#[test]
fn draw_reshuffles_discard_pile() {
    let mut m = CombatManager::new(vec![], 3, 0);
    m.discard_pile = vec![card(Effect::DealDamage(1), 1), card(Effect::DealDamage(2), 1), card(Effect::DealDamage(3), 1)];
    let c = m.draw().unwrap();
    assert!(m.discard_pile.is_empty());
    assert_eq!(m.draw_pile.len(), 2);
    let mut amounts: Vec<i32> = m.draw_pile.iter().map(|k| match k.effects[0] { Effect::DealDamage(a) => a, _ => 0 }).collect();
    amounts.push(match c.effects[0] { Effect::DealDamage(a) => a, _ => 0 });
    amounts.sort();
    assert_eq!(amounts, vec![1, 2, 3]);
}

#[test]
fn shuffle_keeps_every_card() {
    let mut m = CombatManager::new(vec![card(Effect::DealDamage(1), 1)], 3, 0);
    m.discard_pile = vec![card(Effect::DealDamage(2), 1), card(Effect::DealDamage(3), 1)];
    m.shuffle();
    assert!(m.discard_pile.is_empty());
    let mut costs: Vec<String> = m.draw_pile.iter().map(|k| k.description.clone()).collect();
    costs.sort();
    assert_eq!(costs, vec!["deal 1 damage", "deal 2 damage", "deal 3 damage"]);
}

#[test]
fn preflight_draws_three() {
    let deck: Vec<Card> = (1..=5).map(|i| card(Effect::DealDamage(i), 1)).collect();
    let mut m = CombatManager::new(deck, 3, 0);
    let hand = preflight(&mut m);
    let amounts: Vec<i32> = hand.iter().map(|k| match k.effects[0] { Effect::DealDamage(a) => a, _ => 0 }).collect();
    assert_eq!(amounts, vec![5, 4, 3]);
    assert_eq!(m.draw_pile.len(), 2);
}

#[test]
fn preflight_with_few_cards() {
    let mut m = CombatManager::new(vec![card(Effect::DealDamage(1), 1)], 3, 0);
    m.discard_pile.push(card(Effect::DealDamage(2), 1));
    let hand = preflight(&mut m);
    assert_eq!(hand.len(), 2);
    assert!(hand[0] == card(Effect::DealDamage(1), 1));
    assert!(hand[1] == card(Effect::DealDamage(2), 1));
    assert!(m.draw_pile.is_empty() && m.discard_pile.is_empty());
}

#[test]
fn preflight_reshuffles_the_discard_pile() {
    let mut m = CombatManager::new(vec![card(Effect::DealDamage(1), 1)], 3, 0);
    for a in 2..=4 {
        m.discard_pile.push(card(Effect::DealDamage(a), 1));
    }
    let hand = preflight(&mut m);
    assert_eq!(hand.len(), 3);
    assert!(hand[0] == card(Effect::DealDamage(1), 1));
    assert!(m.discard_pile.is_empty());
    assert_eq!(m.draw_pile.len(), 1);
    let mut rest: Vec<i32> = hand[1..]
        .iter()
        .chain(m.draw_pile.iter())
        .map(|k| match k.effects[0] { Effect::DealDamage(a) => a, _ => 0 })
        .collect();
    rest.sort();
    assert_eq!(rest, vec![2, 3, 4]);
}

#[test]
fn combat_manager_for_player_has_three_energy() {
    let p = Player::new(vec![card(Effect::DealDamage(1), 1)], vec![]);
    let m = combat_manager_for(&p, 9);
    assert_eq!((m.remaining_energy, m.max_energy, m.hand_node), (3, 3, 9));
    assert!(m.draw_pile == p.deck);
}

#[test]
fn attacks_hit_front_defenders_in_row() {
    let mut units = vec![
        fighter(1, true, 10, (0, 0), 0, 4),
        fighter(2, false, 10, (0, 0), 3, 1),
        fighter(3, false, 10, (0, 1), 3, 1),
        fighter(4, false, 10, (1, 0), 3, 1),
        fighter(5, true, 10, (1, 0), 0, 2),
    ];
    units[0].attack.attack_interval = 2;
    process_attacks(&mut units, true);
    assert_eq!(units[1].unit.hp, 4);
    assert_eq!(units[2].unit.hp, 10);
    assert_eq!(units[3].unit.hp, 10);
    assert_eq!(units[0].attack.remaining_turns, 2);
    assert_eq!(units[4].attack.remaining_turns, 0);
    assert_eq!(units[0].unit.hp, 10);
}

#[test]
fn attacks_only_when_ready() {
    let mut units = vec![fighter(1, true, 10, (0, 0), 2, 4), fighter(2, false, 10, (0, 0), 3, 1)];
    process_attacks(&mut units, true);
    assert_eq!(units[1].unit.hp, 10);
    assert_eq!(units[0].attack.remaining_turns, 2);
}

#[test]
fn both_sides_attack() {
    let mut units = vec![fighter(1, true, 10, (0, 0), 0, 4), fighter(2, false, 10, (0, 0), 0, 7)];
    units[0].attack.attack_interval = 3;
    units[1].attack.attack_interval = 5;
    deal_damage_system(&mut units);
    assert_eq!(units[0].unit.hp, 3);
    assert_eq!(units[1].unit.hp, 6);
    assert_eq!(units[0].attack.remaining_turns, 3);
    assert_eq!(units[1].attack.remaining_turns, 5);
}

#[test]
fn dead_units_are_removed() {
    let mut units = vec![
        fighter(1, true, 0, (0, 0), 1, 1),
        fighter(2, false, 5, (0, 0), 1, 1),
        fighter(3, false, -2, (0, 1), 1, 1),
    ];
    let fallen = remove_dead_units(&mut units);
    assert_eq!(fallen, vec![1, 3]);
    assert_eq!(units.len(), 1);
    assert_eq!(units[0].id, 2);
}

#[test]
fn combat_end_decisions() {
    let both = vec![fighter(1, true, 1, (0, 0), 1, 1), fighter(2, false, 1, (0, 0), 1, 1)];
    let (next, event) = end_combat(&both);
    assert_eq!(next, None);
    assert!(event.is_none());
    let friends = vec![fighter(1, true, 1, (0, 0), 1, 1)];
    let (next, event) = end_combat(&friends);
    assert_eq!(next, Some(GameState::MapScreen));
    assert!(event.is_none());
    let enemies = vec![fighter(2, false, 1, (0, 0), 1, 1)];
    let (next, event) = end_combat(&enemies);
    assert_eq!(next, Some(GameState::HomeBase));
    assert!(matches!(event, Some(BaseEvent::LoadHomeScreen)));
    let (next, event) = end_combat(&vec![]);
    assert_eq!(next, Some(GameState::HomeBase));
    assert!(matches!(event, Some(BaseEvent::LoadHomeScreen)));
}

#[test]
fn end_of_turn_counts_down_and_refills() {
    let mut m = CombatManager::new(vec![card(Effect::DealDamage(1), 1)], 3, 0);
    m.remaining_energy = 0;
    m.turn = Turn::Enemy;
    let mut units = vec![fighter(1, true, 5, (0, 0), 2, 1), fighter(2, false, 5, (0, 0), 1, 1)];
    let mut end = end_turn_button();
    end.enabled = false;
    let mut buttons = vec![
        CombatButton { id: 10, button: end, kind: CombatButtonType::EndTurn },
        CombatButton { id: 11, button: target_picker_button(), kind: CombatButtonType::UnitSelector(1) },
    ];
    buttons[1].button.enabled = false;
    let drawn = handle_end_of_turn(&mut m, &mut units, &mut buttons);
    assert_eq!(drawn.unwrap().description, "deal 1 damage");
    assert_eq!(units[0].attack.remaining_turns, 1);
    assert_eq!(units[1].attack.remaining_turns, 0);
    assert_eq!(m.turn, Turn::Player);
    assert_eq!(m.remaining_energy, 3);
    assert!(buttons[0].button.enabled);
    assert!(!buttons[1].button.enabled);
}

#[test]
fn end_turn_button_press() {
    let mut m = CombatManager::new(vec![], 3, 0);
    let mut b = end_turn_button();
    let mut units = vec![];
    let r = react_to_interaction(ButtonInteraction::Pressed, &mut b, &CombatButtonType::EndTurn, 1, &mut m, &mut units);
    assert_eq!(m.turn, Turn::Enemy);
    assert!(!b.enabled);
    assert_eq!(r.signals.len(), 1);
    assert!(matches!(r.signals[0], CombatSignal::EndOfTurn));
    assert_eq!(r.look.label, Some(ButtonLabel::Pressed));
    assert_eq!(r.look.shade, Some(ButtonShade::Normal));
    assert_eq!(r.look.border, Some(BorderShade::Black));
    let r = react_to_interaction(ButtonInteraction::Pressed, &mut b, &CombatButtonType::EndTurn, 1, &mut m, &mut units);
    assert!(r.signals.is_empty());
    assert_eq!(r.look.label, None);
}

#[test]
fn card_press_picks_when_affordable() {
    let c = card(Effect::BonusDamage(2), 2);
    let mut m = CombatManager::new(vec![], 3, 0);
    let mut b = card_button(&c);
    assert_eq!(b.off_text, "increase the attack of a unit by 2");
    assert_eq!(b.pressed_text, "Pick a Target");
    let mut units = vec![];
    let kind = CombatButtonType::Card(c.clone());
    let r = react_to_interaction(ButtonInteraction::Pressed, &mut b, &kind, 42, &mut m, &mut units);
    assert_eq!(b.toggled, Some(true));
    assert_eq!(r.signals.len(), 2);
    assert!(matches!(r.signals[0], CombatSignal::Card(CardEvent::CardDeselected(None))));
    match &r.signals[1] {
        CombatSignal::Card(CardEvent::CardSelected((picked, e))) => {
            assert!(*picked == c);
            assert_eq!(*e, 42);
        }
        _ => panic!("expected a pick"),
    }
    let r = react_to_interaction(ButtonInteraction::Pressed, &mut b, &kind, 42, &mut m, &mut units);
    assert_eq!(b.toggled, Some(false));
    assert_eq!(r.signals.len(), 1);
    assert!(m.selected_card.is_none());
}

#[test]
fn card_press_refused_without_energy() {
    let c = card(Effect::BonusDamage(2), 5);
    let mut m = CombatManager::new(vec![], 3, 0);
    let mut b = card_button(&c);
    let mut units = vec![];
    let r = react_to_interaction(ButtonInteraction::Pressed, &mut b, &CombatButtonType::Card(c.clone()), 1, &mut m, &mut units);
    assert_eq!(b.toggled, Some(false));
    assert!(r.signals.is_empty());
    assert_eq!(r.look.label, Some(ButtonLabel::Pressed));
}

#[test]
fn hovering_a_picked_card_changes_nothing() {
    let c = card(Effect::BonusDamage(2), 1);
    let mut m = CombatManager::new(vec![], 3, 0);
    let mut b = card_button(&c);
    b.toggled = Some(true);
    let mut units = vec![];
    let kind = CombatButtonType::Card(c.clone());
    let r = react_to_interaction(ButtonInteraction::Hovered, &mut b, &kind, 1, &mut m, &mut units);
    assert_eq!(r.look.label, None);
    b.toggled = Some(false);
    let r = react_to_interaction(ButtonInteraction::Hovered, &mut b, &kind, 1, &mut m, &mut units);
    assert_eq!(r.look.label, Some(ButtonLabel::Hover));
    assert_eq!(r.look.shade, Some(ButtonShade::Hovered));
    assert_eq!(r.look.border, Some(BorderShade::Gray));
    let r = react_to_interaction(ButtonInteraction::Idle, &mut b, &CombatButtonType::UnitSelector(3), 1, &mut m, &mut units);
    assert_eq!(r.look.shade, Some(ButtonShade::TargetIdle));
}

#[test]
fn playing_a_card_on_a_unit() {
    let c = Card::new(vec![Effect::BonusDamage(-5), Effect::BonusHealth(2), Effect::BonusCountdown(1), Effect::DealDamage(4)], 2);
    let mut m = CombatManager::new(vec![], 3, 0);
    m.selected_card = Some((c, 77));
    let mut units = vec![fighter(1, true, 10, (0, 0), 3, 3), fighter(2, false, 10, (0, 0), 3, 3)];
    let mut b = target_picker_button();
    let r = react_to_interaction(ButtonInteraction::Pressed, &mut b, &CombatButtonType::UnitSelector(2), 5, &mut m, &mut units);
    assert_eq!(units[1].attack.damage, 0);
    assert_eq!(units[1].unit.hp, 8);
    assert_eq!(units[1].attack.remaining_turns, 4);
    assert_eq!(units[0].unit.hp, 10);
    assert_eq!(m.remaining_energy, 1);
    assert_eq!(r.signals.len(), 1);
    assert!(matches!(r.signals[0], CombatSignal::Card(CardEvent::CardDeselected(Some(77)))));
    assert_eq!(r.look.shade, Some(ButtonShade::TargetHovered));
}

#[test]
fn target_without_pick_costs_nothing() {
    let mut m = CombatManager::new(vec![], 3, 0);
    let mut units = vec![fighter(1, true, 10, (0, 0), 3, 3)];
    let mut b = target_picker_button();
    let r = react_to_interaction(ButtonInteraction::Pressed, &mut b, &CombatButtonType::UnitSelector(1), 5, &mut m, &mut units);
    assert!(r.signals.is_empty());
    assert_eq!(m.remaining_energy, 3);
    assert_eq!(units[0].unit.hp, 10);
}

#[test]
fn disabled_button_ignores_press() {
    let mut m = CombatManager::new(vec![], 3, 0);
    let mut b = CustomButton::new("a".to_string(), "b".to_string(), "c".to_string(), false);
    b.enabled = false;
    let mut units = vec![];
    let r = react_to_interaction(ButtonInteraction::Pressed, &mut b, &CombatButtonType::EndTurn, 1, &mut m, &mut units);
    assert!(r.signals.is_empty());
    assert_eq!(m.turn, Turn::Player);
}

#[test]
fn picking_and_dropping_cards() {
    let a = card(Effect::BonusDamage(1), 1);
    let other = card(Effect::BonusHealth(1), 1);
    let mut m = CombatManager::new(vec![], 3, 0);
    let mut buttons = vec![
        CombatButton { id: 1, button: card_button(&a), kind: CombatButtonType::Card(a.clone()) },
        CombatButton { id: 2, button: card_button(&other), kind: CombatButtonType::Card(other.clone()) },
        CombatButton { id: 3, button: end_turn_button(), kind: CombatButtonType::EndTurn },
        CombatButton { id: 4, button: target_picker_button(), kind: CombatButtonType::UnitSelector(9) },
    ];
    buttons[1].button.toggled = Some(true);
    let out = handle_card_event(&mut m, &mut buttons, &vec![8, 9], &CardEvent::CardSelected((a.clone(), 1)));
    assert!(m.selected_card.as_ref().unwrap().0 == a);
    assert_eq!(m.selected_card.as_ref().unwrap().1, 1);
    assert_eq!(buttons[0].button.toggled, Some(true));
    assert_eq!(buttons[1].button.toggled, Some(false));
    assert_eq!(buttons[2].button.toggled, end_turn_button().toggled);
    assert_eq!(out.restyled.len(), 2);
    assert_eq!(out.restyled[0].0, 1);
    assert_eq!(out.restyled[0].1.border, Some(BorderShade::White));
    assert_eq!(out.restyled[0].1.shade, Some(ButtonShade::Pressed));
    assert_eq!(out.restyled[1].0, 2);
    assert_eq!(out.restyled[1].1.border, Some(BorderShade::Black));
    assert_eq!(out.restyled[1].1.shade, Some(ButtonShade::Normal));
    assert_eq!(out.pickers_for, vec![8, 9]);
    assert!(out.despawned.is_empty());

    let out = handle_card_event(&mut m, &mut buttons, &vec![8, 9], &CardEvent::CardDeselected(Some(1)));
    assert!(m.selected_card.is_none());
    assert_eq!(buttons[0].button.toggled, Some(false));
    assert_eq!(out.despawned, vec![4, 1]);
    assert_eq!(out.restyled.iter().map(|x| x.0).collect::<Vec<u64>>(), vec![1, 2]);
    assert_eq!(m.discard_pile.len(), 1);
    assert!(m.discard_pile[0] == a);
}

#[test]
fn unit_labels_show_numbers() {
    let (countdown, hp, damage) = unit_labels(&Unit::new(10, (0, 0)), &Attack::new(4, -3));
    assert_eq!(countdown, "4");
    assert_eq!(hp, "10");
    assert_eq!(damage, "-3");
}

#[test]
fn units_close_ranks() {
    let mut units = vec![
        fighter(1, true, 5, (1, 0), 1, 1),
        fighter(2, true, 5, (0, 1), 1, 1),
        fighter(3, true, 5, (1, 1), 1, 1),
        fighter(4, false, 5, (0, 0), 1, 1),
        fighter(5, false, 5, (2, 2), 1, 1),
    ];
    update_unit_pos(&mut units);
    assert_eq!(units[0].unit.pos, (0, 0));
    assert_eq!(units[1].unit.pos, (0, 0 + 1));
    assert_eq!(units[2].unit.pos, (1, 0));
    assert_eq!(units[3].unit.pos, (0, 0));
    assert_eq!(units[4].unit.pos, (1, 2));
}

#[test]
fn move_order_sorts_by_row_then_column() {
    let units = vec![
        fighter(1, true, 5, (2, 1), 1, 1),
        fighter(2, true, 5, (0, 1), 1, 1),
        fighter(3, false, 5, (0, 0), 1, 1),
        fighter(4, true, 5, (3, 0), 1, 1),
        fighter(5, true, 5, (0, 1), 1, 1),
    ];
    assert_eq!(move_order(&units, true), vec![3, 1, 4, 0]);
    assert_eq!(move_order(&units, false), vec![2]);
}

#[test]
fn encounter_pools_by_floor() {
    assert_eq!(encounter_pool_name(0), "hard_pool");
    assert_eq!(encounter_pool_name(5), "hard_pool");
    assert_eq!(encounter_pool_name(6), "easy_pool");
    assert_eq!(encounter_pool_name(-1), "easy_pool");
    let easy = vec![vec![(Unit::new(3, (0, 0)), Attack::new(1, 1))]];
    let hard = vec![vec![(Unit::new(30, (0, 0)), Attack::new(2, 5)), (Unit::new(30, (0, 1)), Attack::new(2, 5))]];
    let pools = vec![("easy_pool".to_string(), easy), ("hard_pool".to_string(), hard)];
    let e = choose_encounter(&pools, 8).unwrap();
    assert_eq!(e.len(), 1);
    assert_eq!(e[0].0.hp, 3);
    let h = choose_encounter(&pools, 2).unwrap();
    assert_eq!(h.len(), 2);
    assert_eq!(h[1].0.pos, (0, 1));
    let only_easy = vec![("easy_pool".to_string(), vec![])];
    assert!(choose_encounter(&only_easy, 2).is_none());
    assert!(choose_encounter(&only_easy, 7).is_none());
}

#[test]
fn overflow_checks() {
    let ok = vec![fighter(1, true, 10, (0, 0), 0, 4), fighter(2, false, 10, (0, 0), 3, 1)];
    assert!(attacks_would_fit(&ok, true));
    let deep = vec![
        fighter(1, true, 10, (0, 0), 0, i32::MAX),
        fighter(3, true, 10, (0, 1), 0, i32::MAX),
        fighter(2, false, 10, (0, 0), 3, 1),
    ];
    assert!(attacks_would_fit(&deep, true));
    let deeper = vec![
        fighter(1, true, 10, (0, 0), 0, i32::MAX),
        fighter(3, true, 10, (0, 0), 0, i32::MAX),
        fighter(2, false, -10, (0, 0), 3, 1),
    ];
    assert!(!attacks_would_fit(&deeper, true));
    let u = fighter(1, true, i32::MAX - 1, (0, 0), 1, 1);
    assert!(effects_would_fit(&u, &vec![Effect::BonusHealth(1), Effect::DealDamage(5)]));
    assert!(!effects_would_fit(&u, &vec![Effect::BonusHealth(2)]));
    assert!(!effects_would_fit(&u, &vec![Effect::DealDamage(-5), Effect::BonusHealth(-10)]));
    assert!(ids_are_distinct(&ok));
    assert!(!ids_are_distinct(&vec![fighter(1, true, 1, (0, 0), 1, 1), fighter(1, false, 1, (0, 0), 1, 1)]));
    let mut m = CombatManager::new(vec![], 3, 0);
    m.selected_card = Some((card(Effect::BonusHealth(2), 1), 5));
    let picker = target_picker_button();
    assert!(press_would_be_allowed(&CombatButtonType::UnitSelector(1), &picker, &m, &ok));
    let tall = vec![fighter(1, true, i32::MAX, (0, 0), 1, 1)];
    assert!(!press_would_be_allowed(&CombatButtonType::UnitSelector(1), &picker, &m, &tall));
    assert!(!press_would_be_allowed(&CombatButtonType::Card(card(Effect::BonusHealth(2), 1)), &picker, &m, &ok));
    assert!(press_would_be_allowed(&CombatButtonType::EndTurn, &picker, &m, &ok));
}

#[test]
fn closing_ranks_limits() {
    let mut top = vec![fighter(1, true, 5, (1, i32::MIN), 1, 1)];
    assert!(closing_ranks_would_fit(&top));
    update_unit_pos(&mut top);
    assert_eq!(top[0].unit.pos, (0, i32::MIN));
    let stuck = vec![fighter(1, true, 5, (0, i32::MIN), 1, 1)];
    assert!(!closing_ranks_would_fit(&stuck));
    let far = vec![fighter(1, false, 5, (i32::MIN, 3), 1, 1)];
    assert!(!closing_ranks_would_fit(&far));
    let home = vec![fighter(1, false, 5, (0, 0), 1, 1), fighter(2, true, 5, (3, 2), 1, 1)];
    assert!(closing_ranks_would_fit(&home));
    assert!(steps_would_fit(&home, &vec![1], &vec![(3, 2)]));
    assert!(!steps_would_fit(&stuck, &vec![0], &vec![(0, i32::MIN)]));
}

#[test]
fn moving_keeps_stats_and_places_apart() {
    let mut units = vec![
        fighter(1, true, 7, (2, 0), 3, 4),
        fighter(2, true, 9, (1, 0), 2, 5),
        fighter(3, true, 4, (0, 0), 1, 6),
    ];
    let positions = vec![(2, 0), (1, 0), (0, 0)];
    move_unit(&mut units, &vec![2, 1, 0], positions);
    assert_eq!(units[0].unit.pos, (2, 0));
    assert_eq!(units[1].unit.pos, (1, 0));
    assert_eq!(units[2].unit.pos, (0, 0));
    let mut spread = vec![fighter(1, true, 7, (2, 1), 3, 4), fighter(2, true, 9, (1, 1), 2, 5)];
    update_unit_pos(&mut spread);
    assert_eq!(spread[0].unit.pos, (1, 1));
    assert_eq!(spread[1].unit.pos, (0, 1));
    assert_eq!((spread[0].unit.hp, spread[0].attack.damage, spread[0].attack.attack_interval), (7, 4, 3));
    assert_ne!(spread[0].unit.pos, spread[1].unit.pos);
}

#[test]
fn attacks_ignore_unit_order() {
    let a = fighter(1, true, 10, (0, 0), 0, 4);
    let b = fighter(2, true, 10, (1, 0), 0, 3);
    let d = fighter(3, false, 20, (0, 0), 2, 1);
    let mut first = vec![a, b, d];
    let mut second = vec![d, b, a];
    process_attacks(&mut first, true);
    process_attacks(&mut second, true);
    assert_eq!(first[2].unit.hp, 13);
    assert_eq!(second[0].unit.hp, 13);
    assert_eq!(first[0].attack.remaining_turns, second[2].attack.remaining_turns);
    assert_eq!(first[1].attack.remaining_turns, second[1].attack.remaining_turns);
}
