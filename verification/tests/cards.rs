use combine_and_command::card::{int_label, make_description, Card, Effect, ToEffectVec};

#[test]
fn description_of_single_effects() {
    assert_eq!(make_description(vec![Effect::BonusDamage(3)]), "increase the attack of a unit by 3");
    assert_eq!(make_description(vec![Effect::BonusDamage(-2)]), "decrease the attack of a unit by 2");
    assert_eq!(make_description(vec![Effect::BonusHealth(6)]), "increase the health max by 6");
    assert_eq!(make_description(vec![Effect::BonusHealth(-2)]), "decrease the health max by 2");
    assert_eq!(make_description(vec![Effect::BonusCountdown(1)]), "reduce the countdown by 1");
    assert_eq!(make_description(vec![Effect::BonusCountdown(-1)]), "increase the countdown by 1");
    assert_eq!(make_description(vec![Effect::DealDamage(4)]), "deal 4 damage");
    assert_eq!(make_description(vec![Effect::DealDamage(-3)]), "heal 3 damage");
}

#[test]
fn description_of_zero_and_large_amounts() {
    assert_eq!(make_description(vec![Effect::BonusDamage(0)]), "increase the attack of a unit by 0");
    assert_eq!(make_description(vec![Effect::DealDamage(1234567)]), "deal 1234567 damage");
    assert_eq!(make_description(vec![Effect::DealDamage(i32::MAX)]), "deal 2147483647 damage");
    assert_eq!(make_description(vec![Effect::BonusHealth(-i32::MAX)]), "decrease the health max by 2147483647");
}

#[test]
fn description_joins_with_and() {
    assert_eq!(
        make_description(vec![Effect::DealDamage(4), Effect::BonusDamage(6)]),
        "deal 4 damage and increase the attack of a unit by 6"
    );
    assert_eq!(
        make_description(vec![Effect::DealDamage(3), Effect::BonusHealth(6), Effect::BonusCountdown(-10)]),
        "deal 3 damage and increase the health max by 6 and increase the countdown by 10"
    );
    assert_eq!(make_description(vec![]), "");
}

#[test]
fn card_new_from_one_effect() {
    let card = Card::new(Effect::BonusCountdown(1), 1);
    assert_eq!(card.effects, vec![Effect::BonusCountdown(1)]);
    assert_eq!(card.cost, 1);
    assert_eq!(card.description, "reduce the countdown by 1");
}

#[test]
fn card_new_from_effect_list() {
    let card = Card::new(vec![Effect::DealDamage(3), Effect::BonusHealth(6)], 2);
    assert_eq!(card.effects, vec![Effect::DealDamage(3), Effect::BonusHealth(6)]);
    assert_eq!(card.cost, 2);
    assert_eq!(card.description, "deal 3 damage and increase the health max by 6");
}

#[test]
fn to_effect_vec_forms() {
    assert_eq!(Effect::BonusHealth(2).to_effect_vec(), vec![Effect::BonusHealth(2)]);
    assert_eq!(vec![Effect::DealDamage(1), Effect::DealDamage(2)].to_effect_vec(), vec![Effect::DealDamage(1), Effect::DealDamage(2)]);
}

#[test]
fn card_equality_and_clone() {
    let a = Card::new(Effect::BonusDamage(-2), 1);
    let b = a.clone();
    assert!(a == b);
    let c = Card::new(Effect::BonusDamage(-2), 2);
    assert!(a != c);
    let mut d = a.clone();
    d.description = String::from("other");
    assert!(a != d);
    let e = Card::new(Effect::BonusHealth(-2), 1);
    assert!(a != e);
}

#[test]
fn integer_labels() {
    assert_eq!(int_label(0), "0");
    assert_eq!(int_label(10), "10");
    assert_eq!(int_label(-42), "-42");
    assert_eq!(int_label(i32::MIN), "-2147483648");
    assert_eq!(int_label(i32::MAX), "2147483647");
}
