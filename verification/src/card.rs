use vstd::prelude::*;

verus! {

/// What a card does to the unit it is played on.
#[derive(Clone, Copy, Debug, PartialEq, Eq, Hash, Structural)]
pub enum Effect {
    BonusDamage(i32),
    BonusHealth(i32),
    BonusCountdown(i32),
    DealDamage(i32),
}

impl Effect {
    /// The signed amount carried by the effect.
    pub open spec fn amount(self) -> i32 {
        match self {
            Effect::BonusDamage(a) => a,
            Effect::BonusHealth(a) => a,
            Effect::BonusCountdown(a) => a,
            Effect::DealDamage(a) => a,
        }
    }

    /// The amount can be printed as a magnitude (its negation fits in an `i32`).
    pub open spec fn printable(self) -> bool {
        self.amount() != i32::MIN
    }
}

/// Every effect of the list has a printable amount.
pub open spec fn all_printable(effects: Seq<Effect>) -> bool {
    forall|i: int| 0 <= i < effects.len() ==> (#[trigger] effects[i]).printable()
}

/// The character of a decimal digit.
pub open spec fn digit_char(d: nat) -> char {
    if d == 0 {
        '0'
    } else if d == 1 {
        '1'
    } else if d == 2 {
        '2'
    } else if d == 3 {
        '3'
    } else if d == 4 {
        '4'
    } else if d == 5 {
        '5'
    } else if d == 6 {
        '6'
    } else if d == 7 {
        '7'
    } else if d == 8 {
        '8'
    } else {
        '9'
    }
}

/// The decimal notation of a natural number, without leading zeros.
pub open spec fn decimal(n: nat) -> Seq<char>
    decreases n,
{
    if n < 10 {
        seq![digit_char(n)]
    } else {
        decimal(n / 10).push(digit_char(n % 10))
    }
}

/// The magnitude of a signed amount.
pub open spec fn magnitude(a: i32) -> nat {
    if a >= 0 {
        a as nat
    } else {
        (-a) as nat
    }
}

/// The decimal notation of an integer, with a leading minus sign when it is negative.
pub open spec fn signed_decimal(n: i32) -> Seq<char> {
    if n >= 0 {
        decimal(n as nat)
    } else {
        "-"@ + decimal((-n) as nat)
    }
}

/// The text that describes one effect.
pub open spec fn effect_phrase(e: Effect) -> Seq<char> {
    let n = decimal(magnitude(e.amount()));
    match e {
        Effect::BonusDamage(a) => if a >= 0 {
            "increase the attack of a unit by "@ + n
        } else {
            "decrease the attack of a unit by "@ + n
        },
        Effect::BonusHealth(a) => if a >= 0 {
            "increase the health max by "@ + n
        } else {
            "decrease the health max by "@ + n
        },
        Effect::BonusCountdown(a) => if a >= 0 {
            "reduce the countdown by "@ + n
        } else {
            "increase the countdown by "@ + n
        },
        Effect::DealDamage(a) => if a >= 0 {
            "deal "@ + n + " damage"@
        } else {
            "heal "@ + n + " damage"@
        },
    }
}

/// The phrases of all effects, in order, joined by " and ".
pub open spec fn description_of(effects: Seq<Effect>) -> Seq<char>
    decreases effects.len(),
{
    if effects.len() == 0 {
        Seq::empty()
    } else if effects.len() == 1 {
        effect_phrase(effects[0])
    } else {
        description_of(effects.drop_last()) + " and "@ + effect_phrase(effects.last())
    }
}

/// A playable card: its effects, its energy cost and the text shown on it.
#[derive(Debug)]
pub struct Card {
    pub effects: Vec<Effect>,
    pub cost: i32,
    pub description: String,
}

/// The mathematical content of a card.
pub struct CardView {
    pub effects: Seq<Effect>,
    pub cost: i32,
    pub description: Seq<char>,
}

impl View for Card {
    type V = CardView;

    open spec fn view(&self) -> CardView {
        CardView { effects: self.effects@, cost: self.cost, description: self.description@ }
    }
}

/// Appends the decimal notation of `n`.
pub(crate) fn append_decimal(s: &mut String, n: u32)
    ensures
        final(s)@ == old(s)@ + decimal(n as nat),
    decreases n,
{
    if n >= 10 {
        append_decimal(s, n / 10);
    }
    let d = n % 10;
    proof {
        reveal_strlit("0");
        reveal_strlit("1");
        reveal_strlit("2");
        reveal_strlit("3");
        reveal_strlit("4");
        reveal_strlit("5");
        reveal_strlit("6");
        reveal_strlit("7");
        reveal_strlit("8");
        reveal_strlit("9");
    }
    if d == 0 {
        s.append("0");
    } else if d == 1 {
        s.append("1");
    } else if d == 2 {
        s.append("2");
    } else if d == 3 {
        s.append("3");
    } else if d == 4 {
        s.append("4");
    } else if d == 5 {
        s.append("5");
    } else if d == 6 {
        s.append("6");
    } else if d == 7 {
        s.append("7");
    } else if d == 8 {
        s.append("8");
    } else {
        s.append("9");
    }
}

/// The decimal notation of an integer, as `to_string` writes it.
pub fn int_label(n: i32) -> (label: String)
    ensures
        label@ == signed_decimal(n),
{
    let mut label = String::new();
    if n >= 0 {
        append_decimal(&mut label, n as u32);
    } else {
        label.append("-");
        let m: i64 = -(n as i64);
        append_decimal(&mut label, m as u32);
    }
    label
}

/// Appends the phrase that describes one effect.
fn append_phrase(s: &mut String, e: Effect)
    requires
        e.printable(),
    ensures
        final(s)@ == old(s)@ + effect_phrase(e),
{
    let (a, up, down): (i32, &str, &str) = match e {
        Effect::BonusDamage(a) => (a, "increase the attack of a unit by ", "decrease the attack of a unit by "),
        Effect::BonusHealth(a) => (a, "increase the health max by ", "decrease the health max by "),
        Effect::BonusCountdown(a) => (a, "reduce the countdown by ", "increase the countdown by "),
        Effect::DealDamage(a) => (a, "deal ", "heal "),
    };
    let n: u32 = if a >= 0 { a as u32 } else { (-a) as u32 };
    if a >= 0 {
        s.append(up);
    } else {
        s.append(down);
    }
    append_decimal(s, n);
    if let Effect::DealDamage(_) = e {
        s.append(" damage");
    }
    assert(s@ =~= old(s)@ + effect_phrase(e));
}

/// Whether every effect of the list has a printable amount.
pub fn effects_printable(effects: &Vec<Effect>) -> (ok: bool)
    ensures
        ok == all_printable(effects@),
{
    for i in 0..effects.len()
        invariant
            forall|k: int| 0 <= k < i ==> (#[trigger] effects@[k]).printable(),
    {
        let a = match effects[i] {
            Effect::BonusDamage(a) => a,
            Effect::BonusHealth(a) => a,
            Effect::BonusCountdown(a) => a,
            Effect::DealDamage(a) => a,
        };
        if a == i32::MIN {
            assert(!effects@[i as int].printable());
            return false;
        }
    }
    true
}

/// Describes a list of effects: the phrase of each, in order, joined by " and ".
pub fn make_description(effects: Vec<Effect>) -> (description: String)
    requires
        all_printable(effects@),
    ensures
        description@ == description_of(effects@),
{
    let mut description = String::new();
    let n = effects.len();
    for i in 0..n
        invariant
            n == effects.len(),
            all_printable(effects@),
            description@ == description_of(effects@.take(i as int)),
    {
        let ghost prev = description@;
        assert(effects@.take(i + 1).drop_last() =~= effects@.take(i as int));
        if i > 0 {
            description.append(" and ");
        }
        append_phrase(&mut description, effects[i]);
        proof {
            if i == 0 {
                assert(description@ =~= description_of(effects@.take(1)));
            } else {
                assert(description@ =~= description_of(effects@.take(i + 1)));
            }
        }
    }
    assert(effects@.take(n as int) =~= effects@);
    description
}


/// A card's effects can be given as one effect or as a list of effects.
pub trait ToEffectVec: Sized {
    /// The effects that the value stands for.
    spec fn effect_list(&self) -> Seq<Effect>;

    fn to_effect_vec(self) -> (effects: Vec<Effect>)
        ensures
            effects@ == self.effect_list(),
    ;
}

impl ToEffectVec for Effect {
    open spec fn effect_list(&self) -> Seq<Effect> {
        seq![*self]
    }

    fn to_effect_vec(self) -> (effects: Vec<Effect>) {
        let mut effects = Vec::new();
        effects.push(self);
        effects
    }
}

impl ToEffectVec for Vec<Effect> {
    open spec fn effect_list(&self) -> Seq<Effect> {
        self@
    }

    fn to_effect_vec(self) -> (effects: Vec<Effect>) {
        self
    }
}

/// A copy of a list of effects.
fn copy_effects(effects: &Vec<Effect>) -> (copy: Vec<Effect>)
    ensures
        copy@ == effects@,
{
    let mut copy = Vec::new();
    for i in 0..effects.len()
        invariant
            copy@ == effects@.take(i as int),
    {
        copy.push(effects[i]);
        assert(copy@ =~= effects@.take(i + 1));
    }
    assert(effects@.take(effects.len() as int) =~= effects@);
    copy
}

impl Card {
    /// A card with the given effects and cost, whose description is made from its effects.
    pub fn new<T: ToEffectVec + Clone>(effects: T, cost: i32) -> (card: Card)
        requires
            all_printable(effects.effect_list()),
        ensures
            card@ == (CardView {
                effects: effects.effect_list(),
                cost: cost,
                description: description_of(effects.effect_list()),
            }),
    {
        let effects = effects.to_effect_vec();
        let description = make_description(copy_effects(&effects));
        Card { effects, cost, description }
    }
}

impl Clone for Card {
    fn clone(&self) -> (copy: Card)
        ensures
            copy@ == self@,
    {
        Card {
            effects: copy_effects(&self.effects),
            cost: self.cost,
            description: self.description.clone(),
        }
    }
}

/// Whether two cards have the same effects, cost and description.
pub fn same_card(a: &Card, b: &Card) -> (same: bool)
    ensures
        same == (a@ == b@),
{
    if a.cost != b.cost || a.effects.len() != b.effects.len() || a.description != b.description {
        return false;
    }
    let n = a.effects.len();
    for i in 0..n
        invariant
            n == a.effects.len(),
            n == b.effects.len(),
            forall|j: int| 0 <= j < i ==> a.effects@[j] == b.effects@[j],
    {
        if a.effects[i] != b.effects[i] {
            return false;
        }
    }
    assert(a.effects@ =~= b.effects@);
    true
}

impl PartialEq for Card {
    fn eq(&self, other: &Card) -> (same: bool) {
        same_card(self, other)
    }
}

impl vstd::std_specs::cmp::PartialEqSpecImpl for Card {
    open spec fn obeys_eq_spec() -> bool {
        true
    }

    open spec fn eq_spec(&self, other: &Card) -> bool {
        self@ == other@
    }
}

} // verus!
