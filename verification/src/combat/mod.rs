//! Combat: units with their attacks, the combat manager with its piles of cards,
//! and the decisions taken on each turn.

pub mod flow;
pub mod movement;
pub mod player_actions;

use vstd::multiset::Multiset;
use vstd::prelude::*;

use crate::card::{int_label, signed_decimal, Card};
use crate::CustomButton;
use crate::random::{shuffle_cards, thread_rng};
use vstd::string::StringExecFns;

verus! {

/// Whose turn it is.
#[derive(Clone, Copy, Debug, PartialEq, Eq, Structural)]
pub enum Turn {
    Player,
    Enemy,
}

/// The state of one combat: the turn, the energy, the cards and the card the player picked.
///
/// Entities of the game world (the hand node, the buttons of cards) are named by their
/// numeric identifiers.
#[derive(Debug)]
pub struct CombatManager {
    pub turn: Turn,
    pub remaining_energy: i32,
    pub max_energy: i32,
    pub deck: Vec<Card>,
    pub selected_card: Option<(Card, u64)>,
    pub draw_pile: Vec<Card>,
    pub hand_node: u64,
    pub discard_pile: Vec<Card>,
}

/// The card views of a list of cards.
pub open spec fn card_views(cards: Seq<Card>) -> Seq<crate::card::CardView> {
    cards.map_values(|c: Card| c@)
}

/// All cards of the two piles, counted with multiplicity.
pub open spec fn pile_cards(m: CombatManager) -> Multiset<Card> {
    (m.draw_pile@ + m.discard_pile@).to_multiset()
}

/// The two managers agree on everything but the draw and discard piles.
pub open spec fn same_but_piles(a: CombatManager, b: CombatManager) -> bool {
    &&& a.turn == b.turn
    &&& a.remaining_energy == b.remaining_energy
    &&& a.max_energy == b.max_energy
    &&& a.deck == b.deck
    &&& a.selected_card == b.selected_card
    &&& a.hand_node == b.hand_node
}

/// What drawing does to the piles: the top of the draw pile comes off; when the draw pile
/// is empty the discard pile is shuffled into it first; nothing comes only when both piles
/// are empty; no card is lost or made on the way.
pub open spec fn drew(before: CombatManager, after: CombatManager, card: Option<Card>) -> bool {
    &&& card is None <==> before.draw_pile@.len() == 0 && before.discard_pile@.len() == 0
    &&& card is None ==> after.draw_pile@ == before.draw_pile@ && after.discard_pile@ == before.discard_pile@
    &&& before.draw_pile@.len() > 0 ==> card == Some(before.draw_pile@.last())
        && after.draw_pile@ == before.draw_pile@.drop_last()
        && after.discard_pile@ == before.discard_pile@
    &&& before.draw_pile@.len() == 0 && card is Some ==> after.discard_pile@.len() == 0
    &&& card matches Some(c) ==> pile_cards(after).insert(c) == pile_cards(before)
}

/// A copy of a list of cards.
pub fn clone_cards(cards: &Vec<Card>) -> (copy: Vec<Card>)
    ensures
        card_views(copy@) == card_views(cards@),
{
    let mut copy: Vec<Card> = Vec::new();
    for i in 0..cards.len()
        invariant
            copy@.len() == i,
            forall|j: int| 0 <= j < i ==> (#[trigger] copy@[j])@ == cards@[j]@,
    {
        let c = cards[i].clone();
        copy.push(c);
    }
    assert(card_views(copy@) =~= card_views(cards@));
    copy
}

impl CombatManager {
    /// A combat at the player's turn with full energy, nothing selected, the whole deck
    /// in the draw pile (in deck order) and an empty discard pile.
    pub fn new(deck: Vec<Card>, energy: i32, hand_node: u64) -> (m: CombatManager)
        ensures
            m.turn == Turn::Player,
            m.remaining_energy == energy,
            m.max_energy == energy,
            m.selected_card is None,
            m.hand_node == hand_node,
            card_views(m.deck@) == card_views(deck@),
            m.draw_pile == deck,
            m.discard_pile@.len() == 0,
    {
        CombatManager {
            turn: Turn::Player,
            remaining_energy: energy,
            max_energy: energy,
            selected_card: None,
            hand_node,
            deck: clone_cards(&deck),
            draw_pile: deck,
            discard_pile: Vec::new(),
        }
    }

    /// Puts the discard pile under the draw pile and shuffles the draw pile.
    pub fn shuffle(&mut self)
        ensures
            same_but_piles(*final(self), *old(self)),
            final(self).discard_pile@.len() == 0,
            final(self).draw_pile@.to_multiset() == pile_cards(*old(self)),
    {
        self.draw_pile.append(&mut self.discard_pile);
        let mut rng = thread_rng();
        shuffle_cards(&mut self.draw_pile, &mut rng);
    }

    /// Takes the top card of the draw pile; when the draw pile is empty, first shuffles
    /// the discard pile into it. Gives `None` only when both piles are empty.
    pub fn draw(&mut self) -> (card: Option<Card>)
        ensures
            same_but_piles(*final(self), *old(self)),
            drew(*old(self), *final(self), card),
        decreases (if old(self).draw_pile@.len() == 0 { 1int } else { 0int }),
    {
        if let Some(top_card) = self.draw_pile.pop() {
            proof {
                assert(old(self).draw_pile@ =~= self.draw_pile@.push(top_card));
                assert(old(self).draw_pile@ + old(self).discard_pile@ =~= (self.draw_pile@
                    + self.discard_pile@).insert(self.draw_pile@.len() as int, top_card));
                vstd::seq_lib::to_multiset_insert(
                    self.draw_pile@ + self.discard_pile@,
                    self.draw_pile@.len() as int,
                    top_card,
                );
            }
            Some(top_card)
        } else {
            self.shuffle();
            if self.draw_pile.len() > 0 {
                let ghost mid = *self;
                let drawn = self.draw();
                proof {
                    assert(old(self).draw_pile@ + old(self).discard_pile@ =~= old(self).discard_pile@);
                    assert(mid.discard_pile@ =~= Seq::<Card>::empty());
                    assert(mid.draw_pile@ + mid.discard_pile@ =~= mid.draw_pile@);
                    vstd::seq_lib::to_multiset_len(mid.draw_pile@);
                    vstd::seq_lib::to_multiset_len(old(self).discard_pile@);
                }
                drawn
            } else {
                proof {
                    vstd::seq_lib::to_multiset_len(self.draw_pile@);
                    vstd::seq_lib::to_multiset_len(old(self).draw_pile@ + old(self).discard_pile@);
                    assert((old(self).draw_pile@ + old(self).discard_pile@).len() == 0);
                    assert(self.draw_pile@ =~= old(self).draw_pile@);
                    assert(self.discard_pile@ =~= old(self).discard_pile@);
                }
                None
            }
        }
    }
}

/// Hit points and place of a unit on the battlefield; `pos.0` is the column counted from
/// the front line, `pos.1` the row.
#[derive(Clone, Copy, Debug)]
pub struct Unit {
    pub max_hp: i32,
    pub hp: i32,
    pub pos: (i32, i32),
}

impl Unit {
    /// A unit at full health.
    pub fn new(hp: i32, pos: (i32, i32)) -> (unit: Unit)
        ensures
            unit == (Unit { max_hp: hp, hp: hp, pos: pos }),
    {
        Unit { max_hp: hp, hp, pos }
    }
}

/// How often and how hard a unit attacks: it attacks when `remaining_turns` reaches zero.
#[derive(Clone, Copy, Debug)]
pub struct Attack {
    pub attack_interval: i32,
    pub remaining_turns: i32,
    pub damage: i32,
}

impl Attack {
    /// An attack whose countdown starts at the full interval.
    pub fn new(attack_interval: i32, damage: i32) -> (attack: Attack)
        ensures
            attack == (Attack {
                attack_interval: attack_interval,
                remaining_turns: attack_interval,
                damage: damage,
            }),
    {
        Attack { attack_interval, remaining_turns: attack_interval, damage }
    }

    /// One turn passes: the countdown goes down by one.
    pub fn countdown(&mut self)
        requires
            old(self).remaining_turns > i32::MIN,
        ensures
            *final(self) == (Attack { remaining_turns: (old(self).remaining_turns - 1) as i32, ..*old(self) }),
    {
        self.remaining_turns = self.remaining_turns - 1;
    }
}

/// A unit on the battlefield: the entity's identifier, its unit and attack, and whether it
/// fights on the player's side.
#[derive(Clone, Copy, Debug)]
pub struct CombatUnit {
    pub id: u64,
    pub unit: Unit,
    pub attack: Attack,
    pub is_friendly: bool,
}

/// The three labels of a unit on the field: its attack countdown, its hit points and its
/// damage.
pub fn unit_labels(unit: &Unit, attack: &Attack) -> (labels: (String, String, String))
    ensures
        labels.0@ == signed_decimal(attack.remaining_turns),
        labels.1@ == signed_decimal(unit.hp),
        labels.2@ == signed_decimal(attack.damage),
{
    (int_label(attack.remaining_turns), int_label(unit.hp), int_label(attack.damage))
}

/// The button of a card in hand: a toggle that shows the card's description, and asks for
/// a target when pressed.
pub fn card_button(card: &Card) -> (b: CustomButton)
    ensures
        b.enabled,
        b.toggled == Some(false),
        b.off_text@ == card.description@,
        b.hover_text@ == card.description@,
        b.pressed_text@ == "Pick a Target"@,
{
    CustomButton::new(card.description.clone(), card.description.clone(), String::from_str("Pick a Target"), true)
}

/// The button that ends the turn.
pub fn end_turn_button() -> (b: CustomButton)
    ensures
        b.enabled,
        b.toggled is None,
        b.off_text@ == "End Turn"@,
        b.hover_text@ == "Sure?"@,
        b.pressed_text@ == "Ended Turn"@,
{
    CustomButton::new(String::from_str("End Turn"), String::from_str("Sure?"), String::from_str("Ended Turn"), false)
}

/// The button laid over a unit to pick it as the target of the picked card.
pub fn target_picker_button() -> (b: CustomButton)
    ensures
        b.enabled,
        b.toggled is None,
        b.off_text@.len() == 0,
        b.hover_text@.len() == 0,
        b.pressed_text@.len() == 0,
{
    CustomButton::new(String::new(), String::new(), String::new(), false)
}

/// What a button of the combat screen does.
#[derive(Debug)]
pub enum CombatButtonType {
    EndTurn,
    Card(Card),
    UnitSelector(u64),
}

/// A card was picked (with the entity of its button), or the pick was dropped (with the
/// entity of the played card's button, when one was played).
#[derive(Debug)]
pub enum CardEvent {
    CardSelected((Card, u64)),
    CardDeselected(Option<u64>),
}

} // verus!
