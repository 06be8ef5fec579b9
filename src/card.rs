use vstd::prelude::*;

use crate::random_provider::RandomProvider;

verus! {

pub type LifeNumber = u64;

/// Identifies a card of the battle's catalog.
#[derive(Debug, PartialEq, Eq, Structural, Clone, Copy, Hash)]
pub struct CardId {
    pub id: usize,
}

impl CardId {
    pub fn new(id: usize) -> (r: Self)
        ensures
            r.id == id,
    {
        CardId { id }
    }
}

/// An inclusive range of amounts, resolved at random when a card is played.
#[derive(Debug, PartialEq, Eq, Structural, Clone, Copy)]
pub struct U64Range(pub u64, pub u64);

impl U64Range {
    pub open spec fn ordered(self) -> bool {
        self.0 <= self.1
    }

    /// An amount drawn from the range, bounds included.
    pub fn resolve<R: RandomProvider>(&self, random_provider: &R) -> (r: LifeNumber)
        requires
            self.ordered(),
        ensures
            self.0 <= r <= self.1,
    {
        random_provider.pick_linear_u64(self.0, self.1)
    }
}

/// Who an action may be aimed at: the acting character, anyone else, or either.
#[derive(Debug, PartialEq, Eq, Structural, Clone, Copy)]
pub enum Target {
    Me,
    Others,
    Any,
}

impl Target {
    pub open spec fn accepts(self, other: Target) -> bool {
        self == other || self == Target::Any
    }

    /// Checks if `other` is compatible with `self`.
    pub fn is_super_set(&self, other: &Self) -> (r: bool)
        ensures
            r == self.accepts(*other),
    {
        *self == *other || *self == Target::Any
    }
}

/// One effect of a card.
#[allow(inconsistent_fields)]
#[derive(Debug, PartialEq, Eq, Structural, Clone, Copy)]
pub enum CardAction {
    Damage { target: Target, amount: U64Range },
    Heal { target: Target, amount: U64Range },
    GainAction { target: Target, amount: u8 },
    Move { target: Target, amount: U64Range },
}

impl CardAction {
    pub open spec fn spec_target(self) -> Target {
        match self {
            CardAction::Damage { target, .. } => target,
            CardAction::Heal { target, .. } => target,
            CardAction::GainAction { target, .. } => target,
            CardAction::Move { target, .. } => target,
        }
    }

    /// Its ranges are ordered, so that an amount can be drawn from them.
    pub open spec fn well_formed(self) -> bool {
        match self {
            CardAction::Damage { amount, .. } => amount.ordered(),
            CardAction::Heal { amount, .. } => amount.ordered(),
            CardAction::GainAction { .. } => true,
            CardAction::Move { amount, .. } => amount.ordered(),
        }
    }

    pub fn target(&self) -> (r: &Target)
        ensures
            *r == self.spec_target(),
    {
        match self {
            CardAction::Damage { target, .. } => target,
            CardAction::Heal { target, .. } => target,
            CardAction::GainAction { target, .. } => target,
            CardAction::Move { target, .. } => target,
        }
    }
}

/// What a card as a whole may be aimed at: `Others` if any action targets others; else
/// `Any` if any action allows any; else `Me`.
pub open spec fn aggregate_target(actions: Seq<CardAction>) -> Target {
    if exists|i: int| 0 <= i < actions.len() && #[trigger] actions[i].spec_target() == Target::Others {
        Target::Others
    } else if exists|i: int| 0 <= i < actions.len() && #[trigger] actions[i].spec_target() == Target::Any {
        Target::Any
    } else {
        Target::Me
    }
}

/// A playable card: its effects in order, and how far from the actor it reaches.
#[derive(Debug, Clone)]
pub struct Card {
    pub id: CardId,
    pub name: String,
    pub description: String,
    pub flavor: Option<String>,
    pub actions: Vec<CardAction>,
    pub range: u64,
}

impl Card {
    pub open spec fn spec_target(&self) -> Target {
        aggregate_target(self.actions@)
    }

    pub open spec fn well_formed(&self) -> bool {
        forall|i: int| 0 <= i < self.actions@.len() ==> (#[trigger] self.actions@[i]).well_formed()
    }

    /// If any action requires others, the target is Others.
    /// If any action supports any and no target is others, the target is Any.
    /// If neither are present, the target is Me.
    pub fn target(&self) -> (r: Target)
        ensures
            r == self.spec_target(),
    {
        let mut target = Target::Me;
        let mut i: usize = 0;
        while i < self.actions.len()
            invariant
                i <= self.actions@.len(),
                forall|k: int| 0 <= k < i ==> (#[trigger] self.actions@[k]).spec_target() != Target::Others,
                target == Target::Any <==> exists|k: int| 0 <= k < i && #[trigger] self.actions@[k].spec_target() == Target::Any,
                target == Target::Me || target == Target::Any,
            decreases self.actions@.len() - i,
        {
            match self.actions[i].target() {
                Target::Others => return Target::Others,
                Target::Any => {
                    target = Target::Any;
                },
                Target::Me => {},
            }
            i = i + 1;
        }
        target
    }
}

} // verus!
