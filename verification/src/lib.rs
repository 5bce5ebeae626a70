//! Game rules of a deck-building auto-battler: cards and their descriptions,
//! the combat manager with its draw and discard piles, unit attacks and
//! movement, the branching overworld map, and the rest-site card smithy.

pub mod base;
pub mod card;
pub mod combat;
pub mod map;
mod random;
pub mod rest_sites;

use vstd::prelude::*;

use crate::card::Card;
use crate::combat::{Attack, Unit};

verus! {

/// The screen the game is on.
#[derive(Clone, Copy, Debug, PartialEq, Eq, Hash, Structural)]
pub enum GameState {
    HomeBase,
    MapScreen,
    Combat,
    Merchant,
    RestSite,
}

impl Default for GameState {
    fn default() -> (s: GameState)
        ensures
            s == GameState::HomeBase,
    {
        GameState::HomeBase
    }
}

/// The tile the map is entered from: column 2 of row 8.
pub const START_TILE: (i32, i32) = (2, 8);

/// The state of a button: whether it reacts at all, whether it is a toggle (and then
/// whether it is on), and the label shown when idle, hovered and pressed.
#[derive(Debug)]
pub struct CustomButton {
    pub enabled: bool,
    pub toggled: Option<bool>,
    pub off_text: String,
    pub hover_text: String,
    pub pressed_text: String,
}

impl CustomButton {
    /// An enabled button; a toggle starts off.
    pub fn new(off_text: String, hover_text: String, pressed_text: String, is_toggleable: bool) -> (b: CustomButton)
        ensures
            b.enabled,
            b.toggled == (if is_toggleable { Some(false) } else { None::<bool> }),
            b.off_text == off_text,
            b.hover_text == hover_text,
            b.pressed_text == pressed_text,
    {
        CustomButton {
            enabled: true,
            off_text,
            hover_text,
            pressed_text,
            toggled: if is_toggleable { Some(false) } else { None },
        }
    }
}

/// How the pointer is interacting with a button.
#[derive(Clone, Copy, Debug, PartialEq, Eq, Structural)]
pub enum ButtonInteraction {
    Pressed,
    Hovered,
    Idle,
}

/// Which of its three labels a button shows.
#[derive(Clone, Copy, Debug, PartialEq, Eq, Structural)]
pub enum ButtonLabel {
    Off,
    Hover,
    Pressed,
}

/// The fill of a button: the three plain shades, and the two greens of a target picker.
#[derive(Clone, Copy, Debug, PartialEq, Eq, Structural)]
pub enum ButtonShade {
    Normal,
    Hovered,
    Pressed,
    TargetHovered,
    TargetIdle,
}

/// The colour of a button's border.
#[derive(Clone, Copy, Debug, PartialEq, Eq, Structural)]
pub enum BorderShade {
    Black,
    White,
    Gray,
    Red,
}

/// What to show on a button; a part that is `None` stays as it was.
#[derive(Clone, Copy, Debug, PartialEq, Eq, Structural)]
pub struct ButtonLook {
    pub label: Option<ButtonLabel>,
    pub shade: Option<ButtonShade>,
    pub border: Option<BorderShade>,
}

impl ButtonLook {
    /// The look that changes nothing.
    pub open spec fn unchanged_look() -> ButtonLook {
        ButtonLook { label: None, shade: None, border: None }
    }

    /// A look that changes nothing.
    #[verifier::when_used_as_spec(unchanged_look)]
    pub fn unchanged() -> (look: ButtonLook)
        ensures
            look == Self::unchanged_look(),
    {
        ButtonLook { label: None, shade: None, border: None }
    }
}

/// The run's player: the deck and the units that fight for them.
#[derive(Debug)]
pub struct Player {
    pub deck: Vec<Card>,
    pub units: Vec<(Unit, Attack)>,
}

impl Player {
    pub fn new(deck: Vec<Card>, units: Vec<(Unit, Attack)>) -> (p: Player)
        ensures
            p.deck == deck,
            p.units == units,
    {
        Player { deck, units }
    }
}

} // verus!
