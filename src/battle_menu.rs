use vstd::prelude::*;
use vstd::string::StringExecFns;

use crate::battle::Battle;
use crate::card::{CardId, Target};
use crate::character::CharacterId;
use crate::menu::{Menu, MenuAction, MenuItem};
use crate::random_provider::RandomProvider;

verus! {

/// What the player chose in the battle menu.
#[derive(Debug, PartialEq, Eq, Structural, Clone, Copy)]
pub enum BattleMenuOutput {
    Pass,
    Card { target: CharacterId, card: CardId },
}

/// Plays `card` on `target`.
pub struct CardSelectionItem {
    pub target: CharacterId,
    pub card: CardId,
}

/// Opens the list of cards in hand.
pub struct ActionsMenu {
    pub me: CharacterId,
    pub cards: Vec<CardId>,
    pub targets: Vec<CharacterId>,
}

/// One card: played on oneself directly, or opening the list of targets.
pub struct CardMenu {
    pub me: CharacterId,
    pub card: CardId,
    pub targets: Vec<CharacterId>,
}

/// Ends the action without playing a card.
pub struct PassMenuItem {}

/// An entry of the battle menu.
pub enum BattleMenuItem {
    Actions(ActionsMenu),
    Card(CardMenu),
    CardSelection(CardSelectionItem),
    Pass(PassMenuItem),
}

pub type BattleMenu = Menu<BattleMenuItem>;

fn character_name<R: RandomProvider>(battle: &Battle<R>, id: CharacterId) -> (r: String)
    ensures
        id.id < battle.characters@.len() ==> r@ == battle.characters@[id.id as int].name@,
{
    if id.id < battle.characters.len() {
        battle.characters[id.id].name.clone()
    } else {
        String::new()
    }
}

fn copy_ids(ids: &Vec<CharacterId>) -> (r: Vec<CharacterId>)
    ensures
        r@ == ids@,
{
    let mut out: Vec<CharacterId> = Vec::new();
    let mut i: usize = 0;
    while i < ids.len()
        invariant
            i <= ids@.len(),
            out@ == ids@.subrange(0, i as int),
        decreases ids@.len() - i,
    {
        out.push(ids[i]);
        i = i + 1;
    }
    assert(ids@.subrange(0, ids@.len() as int) =~= ids@);
    out
}

impl ActionsMenu {
    /// One card entry per card in hand, in order.
    pub fn entries(&self) -> (r: Vec<BattleMenuItem>)
        ensures
            r@.len() == self.cards@.len(),
            forall|i: int| 0 <= i < r@.len() ==> ((#[trigger] r@[i]) matches BattleMenuItem::Card(c)
                && c.me == self.me && c.card == self.cards@[i] && c.targets@ == self.targets@),
    {
        let mut out: Vec<BattleMenuItem> = Vec::new();
        let mut i: usize = 0;
        while i < self.cards.len()
            invariant
                i <= self.cards@.len(),
                out@.len() == i,
                forall|k: int| 0 <= k < i ==> ((#[trigger] out@[k]) matches BattleMenuItem::Card(c)
                    && c.me == self.me && c.card == self.cards@[k] && c.targets@ == self.targets@),
            decreases self.cards@.len() - i,
        {
            out.push(BattleMenuItem::Card(CardMenu { me: self.me, card: self.cards[i], targets: copy_ids(&self.targets) }));
            i = i + 1;
        }
        out
    }
}

impl CardMenu {
    /// The card played on oneself when it can only target oneself; otherwise one entry
    /// per target, in order.
    pub fn next_action<R: RandomProvider>(&self, battle: &Battle<R>) -> (r: MenuAction<BattleMenuItem, BattleMenuOutput>)
        ensures
            self.card.id < battle.cards@.len() && battle.cards@[self.card.id as int].spec_target() == Target::Me
                ==> r == MenuAction::<BattleMenuItem, BattleMenuOutput>::Done(BattleMenuOutput::Card { target: self.me, card: self.card }),
            !(self.card.id < battle.cards@.len() && battle.cards@[self.card.id as int].spec_target() == Target::Me)
                ==> (r matches MenuAction::MenuItem(items) && items@.len() == self.targets@.len()
                && forall|i: int| 0 <= i < items@.len() ==> ((#[trigger] items@[i]) matches BattleMenuItem::CardSelection(s)
                    && s.target == self.targets@[i] && s.card == self.card)),
    {
        if self.card.id < battle.cards.len() && battle.cards[self.card.id].target() == Target::Me {
            return MenuAction::Done(BattleMenuOutput::Card { target: self.me, card: self.card });
        }
        let mut out: Vec<BattleMenuItem> = Vec::new();
        let mut i: usize = 0;
        while i < self.targets.len()
            invariant
                i <= self.targets@.len(),
                out@.len() == i,
                forall|k: int| 0 <= k < i ==> ((#[trigger] out@[k]) matches BattleMenuItem::CardSelection(s)
                    && s.target == self.targets@[k] && s.card == self.card),
            decreases self.targets@.len() - i,
        {
            out.push(BattleMenuItem::CardSelection(CardSelectionItem { target: self.targets[i], card: self.card }));
            i = i + 1;
        }
        MenuAction::MenuItem(out)
    }
}

impl<R: RandomProvider> MenuItem<Battle<R>, BattleMenuOutput> for BattleMenuItem {
    fn label(&self, battle: &Battle<R>) -> String {
        match self {
            BattleMenuItem::Actions(_) => String::from_str("Cards"),
            BattleMenuItem::Card(c) => {
                if c.card.id < battle.cards.len() {
                    battle.cards[c.card.id].name.clone()
                } else {
                    String::new()
                }
            },
            BattleMenuItem::CardSelection(s) => character_name(battle, s.target),
            BattleMenuItem::Pass(_) => String::from_str("Pass"),
        }
    }

    fn action(&self, battle: &Battle<R>) -> MenuAction<BattleMenuItem, BattleMenuOutput> {
        match self {
            BattleMenuItem::Actions(a) => MenuAction::MenuItem(a.entries()),
            BattleMenuItem::Card(c) => c.next_action(battle),
            BattleMenuItem::CardSelection(s) => MenuAction::Done(BattleMenuOutput::Card { target: s.target, card: s.card }),
            BattleMenuItem::Pass(_) => MenuAction::Done(BattleMenuOutput::Pass),
        }
    }
}

} // verus!
