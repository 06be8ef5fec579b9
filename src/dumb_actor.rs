use vstd::prelude::*;

use crate::action::Action;
use crate::battle::{Battle, TeamId};
use crate::board::BoardItem;
use crate::card::{Card, CardAction, CardId, Target};
use crate::character::CharacterId;
use crate::grid::{manhattan, GridLocation};
use crate::random_provider::RandomProvider;

verus! {

/// The scripted decision-maker: it plays the first usable card, weakest first.
pub struct DumbActor {
    pub character_id: CharacterId,
}

/// The sum, over the damage effects, of the midpoint (rounded down) of each range.
pub open spec fn average_damage(actions: Seq<CardAction>) -> int
    decreases actions.len(),
{
    if actions.len() == 0 {
        0
    } else {
        average_damage(actions.drop_last()) + match actions.last() {
            CardAction::Damage { amount, .. } => (amount.0 + amount.1) / 2,
            _ => 0,
        }
    }
}

pub open spec fn capped_average_damage(card: Card) -> int {
    let d = average_damage(card.actions@);
    if d > u64::MAX { u64::MAX as int } else { d }
}

proof fn lemma_average_damage_nonneg(actions: Seq<CardAction>)
    ensures
        average_damage(actions) >= 0,
    decreases actions.len(),
{
    if actions.len() > 0 {
        lemma_average_damage_nonneg(actions.drop_last());
    }
}

/// The damage a card deals on average, saturating at `u64::MAX`.
pub fn total_average_damage(card: &Card) -> (r: u64)
    ensures
        r == capped_average_damage(*card),
{
    let mut total: u64 = 0;
    let mut i: usize = 0;
    while i < card.actions.len()
        invariant
            i <= card.actions@.len(),
            total == if average_damage(card.actions@.subrange(0, i as int)) > u64::MAX {
                u64::MAX as int
            } else {
                average_damage(card.actions@.subrange(0, i as int))
            },
        decreases card.actions@.len() - i,
    {
        let add: u64 = match card.actions[i] {
            CardAction::Damage { amount, .. } => amount.0 / 2 + amount.1 / 2 + (amount.0 % 2 + amount.1 % 2) / 2,
            _ => 0,
        };
        proof {
            let next = card.actions@.subrange(0, i as int + 1);
            assert(next.drop_last() =~= card.actions@.subrange(0, i as int));
            lemma_average_damage_nonneg(card.actions@.subrange(0, i as int));
        }
        total = total.saturating_add(add);
        i = i + 1;
    }
    assert(card.actions@.subrange(0, card.actions@.len() as int) =~= card.actions@);
    total
}

impl DumbActor {
    /// The cards of the hand, ordered by average damage, weakest first; cards of equal
    /// damage keep their order in the hand.
    fn prioritize_cards<R: RandomProvider>(&self, battle: &Battle<R>) -> (r: Vec<CardId>)
        requires
            battle.wf(),
            self.character_id.id < battle.characters@.len(),
        ensures
            r@.len() == battle.characters@[self.character_id.id as int].hand@.len(),
            forall|i: int| 0 <= i < r@.len() ==> r@.contains(#[trigger] battle.characters@[self.character_id.id as int].hand@[i]),
            forall|i: int| 0 <= i < r@.len() ==> battle.characters@[self.character_id.id as int].hand@.contains(#[trigger] r@[i]),
            forall|i: int| 0 <= i < r@.len() ==> (#[trigger] r@[i]).id < battle.cards@.len(),
            forall|i: int, j: int| #![trigger r@[i], r@[j]] 0 <= i < j < r@.len() ==>
                capped_average_damage(battle.cards@[r@[i].id as int]) <= capped_average_damage(battle.cards@[r@[j].id as int]),
    {
        let hand = &battle.characters[self.character_id.id].hand;
        proof {
            assert(battle.characters@[self.character_id.id as int].wf());
        }
        let mut sorted: Vec<CardId> = Vec::new();
        let mut keys: Vec<u64> = Vec::new();
        let mut i: usize = 0;
        while i < hand.len()
            invariant
                battle.wf(),
                self.character_id.id < battle.characters@.len(),
                *hand == battle.characters@[self.character_id.id as int].hand,
                i <= hand@.len(),
                sorted@.len() == i,
                keys@.len() == i,
                forall|k: int| 0 <= k < sorted@.len() ==> hand@.contains(#[trigger] sorted@[k]),
                forall|k: int| 0 <= k < i ==> sorted@.contains(#[trigger] hand@[k]),
                forall|k: int| 0 <= k < sorted@.len() ==> (#[trigger] sorted@[k]).id < battle.cards@.len(),
                forall|k: int| 0 <= k < sorted@.len() ==> #[trigger] keys@[k] == capped_average_damage(battle.cards@[sorted@[k].id as int]),
                forall|a: int, b: int| 0 <= a < b < keys@.len() ==> #[trigger] keys@[a] <= #[trigger] keys@[b],
            decreases hand@.len() - i,
        {
            let c = hand[i];
            proof {
                let h = battle.characters@[self.character_id.id as int];
                assert(h.deck@.contains(c));
                let j = choose|j: int| 0 <= j < h.deck@.len() && h.deck@[j] == c;
                assert(h.deck@[j].id < battle.cards@.len());
                assert(hand@.contains(c)) by {
                    assert(hand@[i as int] == c);
                }
            }
            let key = total_average_damage(&battle.cards[c.id]);
            let mut pos: usize = 0;
            while pos < keys.len() && keys[pos] <= key
                invariant
                    pos <= keys@.len(),
                    forall|k: int| 0 <= k < pos ==> #[trigger] keys@[k] <= key,
                decreases keys@.len() - pos,
            {
                pos = pos + 1;
            }
            let ghost old_sorted = sorted@;
            let ghost old_keys = keys@;
            sorted.insert(pos, c);
            keys.insert(pos, key);
            proof {
                assert forall|k: int| 0 <= k < i + 1 implies sorted@.contains(#[trigger] hand@[k]) by {
                    if k == i {
                        assert(sorted@[pos as int] == c);
                    } else {
                        let q = choose|q: int| 0 <= q < old_sorted.len() && old_sorted[q] == hand@[k];
                        if q < pos {
                            assert(sorted@[q] == old_sorted[q]);
                        } else {
                            assert(sorted@[q + 1] == old_sorted[q]);
                        }
                    }
                }
                assert forall|k: int| 0 <= k < sorted@.len() implies hand@.contains(#[trigger] sorted@[k]) by {
                    if k < pos {
                        assert(sorted@[k] == old_sorted[k]);
                    } else if k > pos {
                        assert(sorted@[k] == old_sorted[k - 1]);
                    }
                }
                assert forall|k: int| 0 <= k < sorted@.len() implies (#[trigger] sorted@[k]).id < battle.cards@.len() by {
                    if k < pos {
                        assert(sorted@[k] == old_sorted[k]);
                    } else if k > pos {
                        assert(sorted@[k] == old_sorted[k - 1]);
                    }
                }
                assert forall|k: int| 0 <= k < sorted@.len() implies #[trigger] keys@[k] == capped_average_damage(battle.cards@[sorted@[k].id as int]) by {
                    if k < pos {
                        assert(sorted@[k] == old_sorted[k]);
                    } else if k > pos {
                        assert(sorted@[k] == old_sorted[k - 1]);
                    }
                }
                assert forall|a: int, b: int| 0 <= a < b < keys@.len() implies #[trigger] keys@[a] <= #[trigger] keys@[b] by {
                    if pos < old_keys.len() {
                        assert(old_keys[pos as int] > key);
                    }
                    if b < pos {
                        assert(keys@[a] == old_keys[a] && keys@[b] == old_keys[b]);
                    } else if b == pos {
                        assert(keys@[a] == old_keys[a]);
                    } else if a < pos {
                        assert(keys@[a] == old_keys[a] && keys@[b] == old_keys[b - 1]);
                        assert(old_keys[a] <= old_keys[pos as int]);
                    } else if a == pos {
                        assert(keys@[b] == old_keys[b - 1]);
                        assert(old_keys[pos as int] <= old_keys[b - 1]);
                    } else {
                        assert(keys@[a] == old_keys[a - 1] && keys@[b] == old_keys[b - 1]);
                    }
                }
            }
            i = i + 1;
        }
        assert forall|a: int, b: int| #![trigger sorted@[a], sorted@[b]] 0 <= a < b < sorted@.len() implies
            capped_average_damage(battle.cards@[sorted@[a].id as int]) <= capped_average_damage(battle.cards@[sorted@[b].id as int]) by {
            assert(keys@[a] <= keys@[b]);
        }
        sorted
    }

    /// Chooses an action for its character, always a legal one. Card by card, weakest
    /// first: a card aimed at itself is played on itself if its average damage is below
    /// its health (an `Any` card, if it deals no damage); a card that can be aimed at others
    /// is played on the first living opponent in turn order within the card's range; if
    /// that opponent is out of range the character instead steps one cell towards it
    /// when a free cell lies on a shortest route. With no such choice it passes.
    pub fn act<R: RandomProvider>(&self, battle: &Battle<R>) -> (r: Action)
        requires
            battle.wf(),
            self.character_id.id < battle.characters@.len(),
            battle.alive(self.character_id),
        ensures
            battle.is_legal(self.character_id, r),
            r is Pass ==> forall|i: int| 0 <= i < battle.characters@[self.character_id.id as int].hand@.len() ==> {
                let card = battle.cards@[(#[trigger] battle.characters@[self.character_id.id as int].hand@[i]).id as int];
                &&& !(card.spec_target() == Target::Me
                    && capped_average_damage(card) < battle.characters@[self.character_id.id as int].health.health)
                &&& !(card.spec_target() == Target::Any && capped_average_damage(card) == 0)
            },
            r matches Action::Act(_, target) ==> (target != self.character_id ==> exists|k: int|
                0 <= k < battle.members@.len() && (#[trigger] battle.members@[k]).1 == target
                    && forall|team: TeamId| #[trigger] battle.team_of(self.character_id, team) ==> battle.members@[k].0 != team),
    {
        let me = self.character_id;
        let my_team = battle.get_team_for_actor(me);
        let prioritized = self.prioritize_cards(battle);
        let mut i: usize = 0;
        while i < prioritized.len()
            invariant
                battle.wf(),
                me == self.character_id,
                me.id < battle.characters@.len(),
                battle.alive(me),
                prioritized@.len() == battle.characters@[me.id as int].hand@.len(),
                forall|k: int| 0 <= k < prioritized@.len() ==> battle.characters@[me.id as int].hand@.contains(#[trigger] prioritized@[k]),
                forall|k: int| 0 <= k < prioritized@.len() ==> (#[trigger] prioritized@[k]).id < battle.cards@.len(),
                my_team matches Some(t) ==> battle.team_of(me, t),
                forall|t: TeamId| #[trigger] battle.team_of(me, t) ==> my_team == Some(t),
                i <= prioritized@.len(),
                forall|i: int| 0 <= i < battle.characters@[me.id as int].hand@.len()
                    ==> prioritized@.contains(#[trigger] battle.characters@[me.id as int].hand@[i]),
                forall|k: int| 0 <= k < i ==> {
                    let card = battle.cards@[(#[trigger] prioritized@[k]).id as int];
                    &&& !(card.spec_target() == Target::Me && capped_average_damage(card) < battle.characters@[me.id as int].health.health)
                    &&& !(card.spec_target() == Target::Any && capped_average_damage(card) == 0)
                },
            decreases prioritized@.len() - i,
        {
            let card_id = prioritized[i];
            assert(battle.characters@[me.id as int].hand@.contains(prioritized@[i as int]));
            let card = &battle.cards[card_id.id];
            let target = card.target();
            let damage = total_average_damage(card);
            if (target == Target::Me && damage < battle.characters[me.id].health.health) || (target == Target::Any
                && damage == 0) {
                return Action::Act(card_id, me);
            }
            if target.is_super_set(&Target::Others) {
                let mut k: usize = 0;
                while k < battle.members.len()
                    invariant
                        battle.wf(),
                        me == self.character_id,
                        me.id < battle.characters@.len(),
                        card_id.id < battle.cards@.len(),
                        *card == battle.cards@[card_id.id as int],
                        battle.characters@[me.id as int].hand@.contains(card_id),
                        target == card.spec_target(),
                        target.accepts(Target::Others),
                        k <= battle.members@.len(),
                        my_team matches Some(t) ==> battle.team_of(me, t),
                        forall|t: TeamId| #[trigger] battle.team_of(me, t) ==> my_team == Some(t),
                    decreases battle.members@.len() - k,
                {
                    let (team_id, opponent) = battle.members[k];
                    let hostile = match my_team {
                        Some(t) => t != team_id,
                        None => true,
                    };
                    if hostile && opponent != me && !battle.characters[opponent.id].is_dead() {
                        let a = BoardItem::Character(me);
                        let b = BoardItem::Character(opponent);
                        match battle.board.distance(a, b) {
                            Some(d) => {
                                if d <= card.range {
                                    proof {
                                        assert(battle.members@[k as int].1 == opponent && battle.members@[k as int].0 == team_id);
                                        assert(battle.members@[k as int].1 == opponent);
                                        let (px, py, qx, qy) = choose|px: int, py: int, qx: int, qy: int|
                                            battle.board.first_at(a, px, py) && battle.board.first_at(b, qx, qy) && d == #[trigger] manhattan(px, py, qx, qy);
                                        assert(battle.board.within(a, b, card.range as int));
                                    }
                                    return Action::Act(card_id, opponent);
                                }
                                match battle.board.shortest_path(a, b) {
                                    Some(path) => {
                                        if path.len() > 2 {
                                            let next: GridLocation = path[1];
                                            if !battle.board.grid.is_set(next.x, next.y) {
                                                proof {
                                                    assert(path@[0].dist(path@[1]) == 1);
                                                    assert(manhattan(path@[0].x as int, path@[0].y as int, next.x as int, next.y as int) == 1);
                                                    assert(battle.board.grid.in_bounds(path@[1].x as int, path@[1].y as int));
                                                }
                                                return Action::Move(me, next);
                                            }
                                        }
                                    },
                                    None => {},
                                }
                            },
                            None => {},
                        }
                    }
                    k = k + 1;
                }
            }
            i = i + 1;
        }
        proof {
            let hand = battle.characters@[me.id as int].hand@;
            assert forall|j: int| 0 <= j < hand.len() implies {
                let card = battle.cards@[(#[trigger] hand[j]).id as int];
                &&& !(card.spec_target() == Target::Me && capped_average_damage(card) < battle.characters@[me.id as int].health.health)
                &&& !(card.spec_target() == Target::Any && capped_average_damage(card) == 0)
            } by {
                let k = choose|k: int| 0 <= k < prioritized@.len() && prioritized@[k] == hand[j];
                assert(prioritized@[k] == hand[j]);
            }
        }
        Action::Pass
    }
}

} // verus!
