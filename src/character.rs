use vstd::prelude::*;

use crate::card::CardId;
use crate::random_provider::{drawn_without_repeat, pick_n_unique_linear, RandomProvider};

verus! {

pub type HandSize = u8;

/// Identifies a character of the battle.
#[derive(Debug, PartialEq, Eq, Structural, Clone, Copy, Hash)]
pub struct CharacterId {
    pub id: usize,
}

impl CharacterId {
    pub fn new(id: usize) -> (r: Self)
        ensures
            r.id == id,
    {
        CharacterId { id }
    }
}

#[derive(Debug, PartialEq, Eq, Structural, Clone, Copy)]
pub enum CharacterRace {
    Human,
}

/// An amount of damage.
#[derive(Debug, PartialEq, Eq, Structural, Clone, Copy, Hash)]
pub struct Attack {
    pub damage: u64,
}

impl Attack {
    pub fn new(damage: u64) -> (r: Self)
        ensures
            r.damage == damage,
    {
        Attack { damage }
    }
}

/// An amount of health.
#[derive(Debug, PartialEq, Eq, Structural, Clone, Copy, Hash)]
pub struct Health {
    pub health: u64,
}

impl Health {
    pub fn new(health: u64) -> (r: Self)
        ensures
            r.health == health,
    {
        Health { health }
    }

    /// Health left after an attack; it does not go below zero.
    pub fn sub(self, attack: Attack) -> (r: Health)
        ensures
            r.health == if attack.damage >= self.health { 0 } else { self.health - attack.damage },
    {
        Health::new(self.health.saturating_sub(attack.damage))
    }

    pub fn sub_assign(&mut self, attack: Attack)
        ensures
            final(self).health == if attack.damage >= old(self).health { 0 } else { old(self).health - attack.damage },
    {
        self.health = self.sub(attack).health;
    }
}

/// A combatant: its stats, the cards it owns (`deck`) and those drawn this round (`hand`).
#[derive(Debug, Clone)]
pub struct Character {
    pub id: CharacterId,
    pub name: String,
    pub race: CharacterRace,
    pub hand: Vec<CardId>,
    pub deck: Vec<CardId>,
    pub health: Health,
    pub max_health: Health,
    pub remaining_actions: u8,
    pub hand_size: HandSize,
    /// Actions per turn for this character; `None` means the battle's default.
    pub turn_actions: Option<u8>,
}

impl Character {
    /// Health within `[0, max_health]`; every card in hand owned, and no more in hand than
    /// the hand size or the deck allows.
    pub open spec fn wf(&self) -> bool {
        &&& self.health.health <= self.max_health.health
        &&& self.hand@.len() <= self.hand_size
        &&& self.hand@.len() <= self.deck@.len()
        &&& forall|i: int| 0 <= i < self.hand@.len() ==> self.deck@.contains(#[trigger] self.hand@[i])
    }

    pub open spec fn spec_is_dead(&self) -> bool {
        self.health.health == 0
    }

    pub fn is_dead(&self) -> (r: bool)
        ensures
            r == self.spec_is_dead(),
    {
        self.health.health == 0
    }

    /// Draws a new hand: `min(hand_size, deck size)` cards taken from distinct places of
    /// the deck by `random_provider`. Nothing else changes.
    pub fn reset_hand<R: RandomProvider>(&mut self, random_provider: &R)
        requires
            old(self).wf(),
        ensures
            final(self).wf(),
            final(self).hand@.len() == if old(self).hand_size < old(self).deck@.len() {
                old(self).hand_size as int
            } else {
                old(self).deck@.len() as int
            },
            exists|idx: Seq<usize>| #[trigger] drawn_cards(final(self).hand@, old(self).deck@, idx),
            *final(self) == (Character { hand: final(self).hand, ..*old(self) }),
    {
        let picked = pick_n_unique_linear(&self.deck, self.hand_size as usize, random_provider);
        let ghost idx = choose|idx: Seq<usize>| #[trigger] drawn_without_repeat(picked@, self.deck@, idx);
        let mut hand: Vec<CardId> = Vec::new();
        let mut i: usize = 0;
        while i < picked.len()
            invariant
                i <= picked@.len(),
                hand@.len() == i,
                forall|k: int| 0 <= k < i ==> #[trigger] hand@[k] == *picked@[k],
            decreases picked@.len() - i,
        {
            hand.push(*picked[i]);
            i = i + 1;
        }
        proof {
            assert(drawn_cards(hand@, self.deck@, idx));
            assert forall|k: int| 0 <= k < hand@.len() implies self.deck@.contains(#[trigger] hand@[k]) by {
                assert(self.deck@[idx[k] as int] == hand@[k]);
            }
        }
        self.hand = hand;
    }

    /// The per-character override of the number of actions per turn.
    pub fn get_default_turn_actions(&self) -> (r: Option<u8>)
        ensures
            r == self.turn_actions,
    {
        self.turn_actions
    }

    /// Adds `healing` to health, capped at `max_health`.
    pub fn heal(&mut self, healing: Health)
        requires
            old(self).wf(),
        ensures
            final(self).wf(),
            final(self).health.health == if old(self).health.health + healing.health > old(self).max_health.health {
                old(self).max_health.health as int
            } else {
                old(self).health.health + healing.health
            },
            *final(self) == (Character { health: final(self).health, ..*old(self) }),
    {
        if healing.health > self.max_health.health - self.health.health {
            self.health = self.max_health;
        } else {
            self.health = Health::new(self.health.health + healing.health);
        }
    }
}

/// `hand` holds the cards of `deck` found at the pairwise distinct positions `idx`.
pub open spec fn drawn_cards(hand: Seq<CardId>, deck: Seq<CardId>, idx: Seq<usize>) -> bool {
    &&& idx.len() == hand.len()
    &&& forall|k: int| 0 <= k < idx.len() ==> #[trigger] idx[k] < deck.len()
    &&& forall|k: int| 0 <= k < idx.len() ==> #[trigger] hand[k] == deck[idx[k] as int]
    &&& forall|a: int, b: int| 0 <= a < idx.len() && 0 <= b < idx.len() && a != b ==> #[trigger] idx[a] != #[trigger] idx[b]
}

/// A named attack that a character may know.
#[derive(Clone)]
pub enum CharacterAction {
    Attack { name: String, base_damage: i64 },
}

} // verus!
