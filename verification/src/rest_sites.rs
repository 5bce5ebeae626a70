//! The rest site: the player takes cards out of the deck, and two taken cards can be
//! smithed into one card that holds the effects of both.

use vstd::prelude::*;

use crate::base::new_card_view;
use crate::card::{all_printable, description_of, same_card, Card, CardView, Effect};
use crate::combat::card_views;
use crate::{BorderShade, ButtonInteraction, ButtonLabel, ButtonLook, ButtonShade, Player};

verus! {

/// Where a card is shown on the rest-site screen, in screen units from the centre.
#[derive(Clone, Copy, Debug, PartialEq, Eq, Structural)]
pub struct CardSlot {
    pub x: i32,
    pub y: i32,
}

/// A card taken out of the deck and shown on the screen, waiting to be smithed.
#[derive(Debug)]
pub struct SelectedCard(pub Card);

/// What happens to the card the player picks from the menu.
#[derive(Debug)]
pub enum SelectedCardAction {
    /// The first copy of the card leaves the deck.
    RemoveFromDeck,
    /// The card is shown at the slot.
    ReturnSelectedCardInfo(CardSlot),
    /// The given cards, or else the picked card, join the deck.
    AddToDeck(Option<Vec<Card>>),
}

/// A request to the card menu: open it on these cards with these actions, or carry out
/// the actions on the picked card.
#[derive(Debug)]
pub enum OpenCardSelectionMenuEvent {
    OpenMenu(Vec<Card>, Vec<SelectedCardAction>),
    CardSelected((Card, Vec<SelectedCardAction>)),
}

/// The deck without the first copy of the card (unchanged when there is none).
pub open spec fn remove_first(deck: Seq<CardView>, card: CardView) -> Seq<CardView>
    decreases deck.len(),
{
    if deck.len() == 0 {
        deck
    } else if deck[0] == card {
        deck.drop_first()
    } else {
        seq![deck[0]] + remove_first(deck.drop_first(), card)
    }
}

/// The deck after one action on the picked card.
pub open spec fn deck_after_action(deck: Seq<CardView>, card: CardView, action: SelectedCardAction) -> Seq<CardView> {
    match action {
        SelectedCardAction::RemoveFromDeck => remove_first(deck, card),
        SelectedCardAction::ReturnSelectedCardInfo(_) => deck,
        SelectedCardAction::AddToDeck(Some(cards)) => deck + card_views(cards@),
        SelectedCardAction::AddToDeck(None) => deck.push(card),
    }
}

/// The deck after the actions, in order.
pub open spec fn deck_after_actions(deck: Seq<CardView>, card: CardView, actions: Seq<SelectedCardAction>) -> Seq<
    CardView,
>
    decreases actions.len(),
{
    if actions.len() == 0 {
        deck
    } else {
        deck_after_action(deck_after_actions(deck, card, actions.drop_last()), card, actions.last())
    }
}

/// The slots at which the picked card is to be shown, in order.
pub open spec fn shown_at(actions: Seq<SelectedCardAction>) -> Seq<CardSlot>
    decreases actions.len(),
{
    if actions.len() == 0 {
        Seq::empty()
    } else {
        match actions.last() {
            SelectedCardAction::ReturnSelectedCardInfo(slot) => shown_at(actions.drop_last()).push(slot),
            _ => shown_at(actions.drop_last()),
        }
    }
}

proof fn lemma_remove_first_at(deck: Seq<CardView>, card: CardView, i: int)
    requires
        0 <= i < deck.len(),
        deck[i] == card,
        forall|k: int| 0 <= k < i ==> deck[k] != card,
    ensures
        remove_first(deck, card) == deck.remove(i),
    decreases deck.len(),
{
    if i == 0 {
        assert(deck.drop_first() =~= deck.remove(0));
    } else {
        lemma_remove_first_at(deck.drop_first(), card, i - 1);
        assert(seq![deck[0]] + deck.drop_first().remove(i - 1) =~= deck.remove(i));
    }
}

proof fn lemma_remove_first_absent(deck: Seq<CardView>, card: CardView)
    requires
        forall|k: int| 0 <= k < deck.len() ==> deck[k] != card,
    ensures
        remove_first(deck, card) == deck,
    decreases deck.len(),
{
    if deck.len() > 0 {
        lemma_remove_first_absent(deck.drop_first(), card);
        assert(seq![deck[0]] + deck.drop_first() =~= deck);
    }
}

/// Takes the first copy of the card out of the deck, if there is one.
pub fn remove_from_deck(deck: &mut Vec<Card>, card: &Card)
    ensures
        card_views(final(deck)@) == remove_first(card_views(old(deck)@), card@),
{
    let n = deck.len();
    for i in 0..n
        invariant
            n == deck@.len(),
            deck@ == old(deck)@,
            forall|k: int| 0 <= k < i ==> deck@[k]@ != card@,
    {
        if same_card(&deck[i], card) {
            proof {
                lemma_remove_first_at(card_views(deck@), card@, i as int);
                assert(card_views(deck@.remove(i as int)) =~= card_views(deck@).remove(i as int));
            }
            deck.remove(i);
            return;
        }
    }
    proof {
        lemma_remove_first_absent(card_views(deck@), card@);
    }
}

/// Carries out the actions on the picked card, in order: the deck changes as the actions
/// say, and the picked card is listed once for each slot it is to be shown at.
pub fn apply_selected_card_actions(
    player: &mut Player,
    card: &Card,
    actions: &Vec<SelectedCardAction>,
) -> (shown: Vec<(Card, CardSlot)>)
    ensures
        card_views(final(player).deck@) == deck_after_actions(card_views(old(player).deck@), card@, actions@),
        final(player).units == old(player).units,
        shown@.len() == shown_at(actions@).len(),
        forall|i: int| 0 <= i < shown@.len() ==> (#[trigger] shown@[i]).0@ == card@ && shown@[i].1 == shown_at(
            actions@,
        )[i],
{
    let mut shown: Vec<(Card, CardSlot)> = Vec::new();
    let n = actions.len();
    for i in 0..n
        invariant
            n == actions@.len(),
            card_views(player.deck@) == deck_after_actions(card_views(old(player).deck@), card@, actions@.take(i as int)),
            player.units == old(player).units,
            shown@.len() == shown_at(actions@.take(i as int)).len(),
            forall|k: int| 0 <= k < shown@.len() ==> (#[trigger] shown@[k]).0@ == card@ && shown@[k].1 == shown_at(
                actions@.take(i as int),
            )[k],
    {
        assert(actions@.take(i + 1).drop_last() =~= actions@.take(i as int));
        assert(actions@.take(i + 1).last() == actions@[i as int]);
        let ghost before = card_views(player.deck@);
        match &actions[i] {
            SelectedCardAction::AddToDeck(Some(cards)) => {
                for k in 0..cards.len()
                    invariant
                        card_views(player.deck@) == before + card_views(cards@.take(k as int)),
                        player.units == old(player).units,
                {
                    let ghost prev = player.deck@;
                    let c = cards[k].clone();
                    player.deck.push(c);
                    assert(card_views(player.deck@) =~= card_views(prev).push(cards@[k as int]@));
                    assert(card_views(cards@.take(k + 1)) =~= card_views(cards@.take(k as int)).push(cards@[k as int]@));
                    assert(card_views(player.deck@) =~= before + card_views(cards@.take(k + 1)));
                }
                assert(cards@.take(cards.len() as int) =~= cards@);
            },
            SelectedCardAction::AddToDeck(None) => {
                player.deck.push(card.clone());
                assert(card_views(player.deck@) =~= before.push(card@));
            },
            SelectedCardAction::RemoveFromDeck => {
                remove_from_deck(&mut player.deck, card);
            },
            SelectedCardAction::ReturnSelectedCardInfo(slot) => {
                shown.push((card.clone(), *slot));
            },
        }
    }
    assert(actions@.take(n as int) =~= actions@);
    shown
}

/// The two card pickers of a rest site: each takes the picked card out of the deck and
/// shows it, one on the left and one on the right.
pub fn rest_site_selectors() -> (selectors: Vec<(Vec<SelectedCardAction>, CardSlot)>)
    ensures
        selectors@.len() == 2,
        selectors@[0].1 == (CardSlot { x: -175i32, y: 150 }),
        selectors@[1].1 == (CardSlot { x: 175, y: 150 }),
        forall|i: int| 0 <= i < 2 ==> (#[trigger] selectors@[i]).0@.len() == 2
            && selectors@[i].0@[0] is RemoveFromDeck
            && selectors@[i].0@[1] == SelectedCardAction::ReturnSelectedCardInfo(selectors@[i].1),
{
    let left = CardSlot { x: -175, y: 150 };
    let right = CardSlot { x: 175, y: 150 };
    let mut left_actions: Vec<SelectedCardAction> = Vec::new();
    left_actions.push(SelectedCardAction::RemoveFromDeck);
    left_actions.push(SelectedCardAction::ReturnSelectedCardInfo(left));
    let mut right_actions: Vec<SelectedCardAction> = Vec::new();
    right_actions.push(SelectedCardAction::RemoveFromDeck);
    right_actions.push(SelectedCardAction::ReturnSelectedCardInfo(right));
    let mut selectors: Vec<(Vec<SelectedCardAction>, CardSlot)> = Vec::new();
    selectors.push((left_actions, left));
    selectors.push((right_actions, right));
    selectors
}

/// How a card of the pick menu looks: pressed with a red border, hovered with a white
/// border, idle with a black border.
pub fn card_choice_look(interaction: ButtonInteraction) -> (look: ButtonLook)
    ensures
        look == match interaction {
            ButtonInteraction::Pressed => ButtonLook {
                label: Some(ButtonLabel::Pressed),
                shade: Some(ButtonShade::Pressed),
                border: Some(BorderShade::Red),
            },
            ButtonInteraction::Hovered => ButtonLook {
                label: Some(ButtonLabel::Hover),
                shade: Some(ButtonShade::Hovered),
                border: Some(BorderShade::White),
            },
            ButtonInteraction::Idle => ButtonLook {
                label: Some(ButtonLabel::Off),
                shade: Some(ButtonShade::Normal),
                border: Some(BorderShade::Black),
            },
        },
{
    match interaction {
        ButtonInteraction::Pressed => ButtonLook {
            label: Some(ButtonLabel::Pressed),
            shade: Some(ButtonShade::Pressed),
            border: Some(BorderShade::Red),
        },
        ButtonInteraction::Hovered => ButtonLook {
            label: Some(ButtonLabel::Hover),
            shade: Some(ButtonShade::Hovered),
            border: Some(BorderShade::White),
        },
        ButtonInteraction::Idle => ButtonLook {
            label: Some(ButtonLabel::Off),
            shade: Some(ButtonShade::Normal),
            border: Some(BorderShade::Black),
        },
    }
}

/// Smithing two cards is possible without overflow: their effects can be described and
/// their costs add up within `i32`.
pub open spec fn can_smith(a: Card, b: Card) -> bool {
    &&& all_printable(a.effects@)
    &&& all_printable(b.effects@)
    &&& i32::MIN <= a.cost + b.cost <= i32::MAX
}

/// Whether two cards can be smithed without overflow (see `can_smith`).
pub fn can_smith_cards(a: &Card, b: &Card) -> (ok: bool)
    ensures
        ok == can_smith(*a, *b),
{
    let ca = crate::card::effects_printable(&a.effects);
    let cb = crate::card::effects_printable(&b.effects);
    let total: i64 = a.cost as i64 + b.cost as i64;
    ca && cb && i32::MIN as i64 <= total && total <= i32::MAX as i64
}

/// When exactly two cards wait at the smithy, they make one card with the effects of the
/// first and then of the second, costing as much as both; otherwise nothing is made.
pub fn make_smithing_result(cards: &Vec<SelectedCard>) -> (result: Option<Card>)
    requires
        cards@.len() == 2 ==> can_smith(cards@[0].0, cards@[1].0),
    ensures
        result is Some <==> cards@.len() == 2,
        result matches Some(c) ==> c@ == new_card_view(
            cards@[0].0.effects@ + cards@[1].0.effects@,
            (cards@[0].0.cost + cards@[1].0.cost) as i32,
        ),
{
    if cards.len() != 2 {
        return None;
    }
    let mut effects: Vec<Effect> = Vec::new();
    let mut cost_total: i32 = 0;
    for i in 0..2usize
        invariant
            cards@.len() == 2,
            can_smith(cards@[0].0, cards@[1].0),
            effects@ == if i == 0 {
                Seq::empty()
            } else if i == 1 {
                cards@[0].0.effects@
            } else {
                cards@[0].0.effects@ + cards@[1].0.effects@
            },
            cost_total == if i == 0 {
                0
            } else if i == 1 {
                cards@[0].0.cost as int
            } else {
                cards@[0].0.cost + cards@[1].0.cost
            },
    {
        let selected = &cards[i].0;
        let ghost before = effects@;
        for k in 0..selected.effects.len()
            invariant
                effects@ == before + selected.effects@.take(k as int),
        {
            effects.push(selected.effects[k]);
            assert(effects@ =~= before + selected.effects@.take(k + 1));
        }
        assert(selected.effects@.take(selected.effects@.len() as int) =~= selected.effects@);
        assert(before + selected.effects@ =~= if i == 0 {
            cards@[0].0.effects@
        } else {
            cards@[0].0.effects@ + cards@[1].0.effects@
        });
        cost_total = cost_total + selected.cost;
    }
    proof {
        let all = cards@[0].0.effects@ + cards@[1].0.effects@;
        assert forall|i: int| 0 <= i < all.len() implies (#[trigger] all[i]).printable() by {
            if i < cards@[0].0.effects@.len() {
                assert(all[i] == cards@[0].0.effects@[i]);
            } else {
                assert(all[i] == cards@[1].0.effects@[i - cards@[0].0.effects@.len()]);
            }
        }
    }
    Some(Card::new(effects, cost_total))
}

/// The description of two lists of effects joined is the two descriptions joined by
/// " and ": a smithed card reads as its two cards one after the other.
pub proof fn law_smithed_description(a: Seq<Effect>, b: Seq<Effect>)
    requires
        a.len() > 0,
        b.len() > 0,
    ensures
        description_of(a + b) == description_of(a) + " and "@ + description_of(b),
    decreases b.len(),
{
    if b.len() == 1 {
        assert((a + b).drop_last() =~= a);
        assert((a + b).last() == b[0]);
    } else {
        law_smithed_description(a, b.drop_last());
        assert((a + b).drop_last() =~= a + b.drop_last());
        assert((a + b).last() == b.last());
        assert(description_of(a + b) =~= description_of(a) + " and "@ + description_of(b));
    }
}

/// Removing a card takes exactly one copy of it out of the deck when the deck holds one,
/// and changes nothing otherwise.
pub proof fn law_remove_takes_one_copy(deck: Seq<CardView>, card: CardView)
    ensures
        remove_first(deck, card).to_multiset() == deck.to_multiset().remove(card),
    decreases deck.len(),
{
    broadcast use vstd::seq_lib::group_to_multiset_ensures;

    if deck.len() == 0 {
        assert(deck.to_multiset() =~= deck.to_multiset().remove(card));
    } else {
        let rest = deck.drop_first();
        assert(deck =~= seq![deck[0]] + rest);
        vstd::seq_lib::lemma_multiset_commutative(seq![deck[0]], rest);
        assert(seq![deck[0]].to_multiset() =~= vstd::multiset::Multiset::singleton(deck[0])) by {
            assert(seq![deck[0]] =~= Seq::<CardView>::empty().push(deck[0]));
        }
        if deck[0] == card {
            assert(deck.to_multiset().remove(card) =~= rest.to_multiset());
        } else {
            law_remove_takes_one_copy(rest, card);
            vstd::seq_lib::lemma_multiset_commutative(seq![deck[0]], remove_first(rest, card));
            assert(remove_first(deck, card).to_multiset() =~= deck.to_multiset().remove(card));
        }
    }
}

/// Taking a card out of the deck and then adding it back (the actions `RemoveFromDeck`
/// and `AddToDeck(None)` on the same card) leaves the deck with the same cards, counted
/// with multiplicity, whenever the deck held that card.
pub proof fn law_remove_then_add_back(deck: Seq<CardView>, card: CardView)
    requires
        deck.contains(card),
    ensures
        deck_after_actions(
            deck,
            card,
            seq![SelectedCardAction::RemoveFromDeck, SelectedCardAction::AddToDeck(None)],
        ).to_multiset() == deck.to_multiset(),
{
    broadcast use vstd::seq_lib::group_to_multiset_ensures;

    let actions = seq![SelectedCardAction::RemoveFromDeck, SelectedCardAction::AddToDeck(None)];
    assert(actions.drop_last() =~= seq![SelectedCardAction::RemoveFromDeck]);
    assert(actions.drop_last().drop_last() =~= Seq::<SelectedCardAction>::empty());
    let removed = remove_first(deck, card);
    assert(deck_after_actions(deck, card, actions.drop_last().drop_last()) == deck);
    assert(actions.drop_last().last() is RemoveFromDeck);
    assert(deck_after_actions(deck, card, actions.drop_last()) == removed);
    assert(actions.last() == SelectedCardAction::AddToDeck(None));
    assert(deck_after_actions(deck, card, actions) == removed.push(card));
    law_remove_takes_one_copy(deck, card);
    assert(deck.to_multiset().count(card) > 0);
    assert(removed.push(card).to_multiset() =~= deck.to_multiset());
}

/// Adding given cards to the deck (the action `AddToDeck(Some(cards))`) appends exactly those
/// cards, in their order, after the deck as it stood; which card was picked plays no part.
pub proof fn law_given_cards_join_the_deck(
    deck: Seq<CardView>,
    card: CardView,
    other: CardView,
    actions: Seq<SelectedCardAction>,
    cards: Vec<Card>,
)
    ensures
        ({
            let before = deck_after_actions(deck, card, actions);
            let after = deck_after_actions(deck, card, actions.push(SelectedCardAction::AddToDeck(Some(cards))));
            &&& after.len() == before.len() + cards@.len()
            &&& forall|i: int| 0 <= i < before.len() ==> #[trigger] after[i] == before[i]
            &&& forall|i: int| 0 <= i < cards@.len() ==> after[before.len() + i] == (#[trigger] cards@[i])@
        }),
        deck_after_action(deck, card, SelectedCardAction::AddToDeck(Some(cards))) == deck_after_action(
            deck,
            other,
            SelectedCardAction::AddToDeck(Some(cards)),
        ),
{
    let before = deck_after_actions(deck, card, actions);
    assert(actions.push(SelectedCardAction::AddToDeck(Some(cards))).drop_last() =~= actions);
    let after = deck_after_actions(deck, card, actions.push(SelectedCardAction::AddToDeck(Some(cards))));
    assert(after == before + card_views(cards@));
    assert forall|i: int| 0 <= i < cards@.len() implies after[before.len() + i] == (#[trigger] cards@[i])@ by {
        assert(card_views(cards@)[i] == cards@[i]@);
    }
}

/// Adding the picked card back (the action `AddToDeck(None)`) puts exactly one copy of it
/// at the end of the deck; showing the picked card leaves the deck as it is.
pub proof fn law_picked_card_goes_last(deck: Seq<CardView>, card: CardView, slot: CardSlot)
    ensures
        ({
            let after = deck_after_action(deck, card, SelectedCardAction::AddToDeck(None));
            &&& after.len() == deck.len() + 1
            &&& after[deck.len() as int] == card
            &&& forall|i: int| 0 <= i < deck.len() ==> #[trigger] after[i] == deck[i]
        }),
        deck_after_action(deck, card, SelectedCardAction::ReturnSelectedCardInfo(slot)) == deck,
{
}

} // verus!
