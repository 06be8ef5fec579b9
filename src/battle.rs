use vstd::prelude::*;
use vstd::string::StringExecFns;

use crate::action::Action;
use crate::battle_file;
use crate::battle_history::{BattleText, BattleTextEntry};
use crate::board::{open_towards, Board, BoardItem};
use crate::card::{aggregate_target, Card, CardAction, CardId, Target, U64Range};
use crate::character::{drawn_cards, Attack, Character, CharacterId, CharacterRace, Health};
use crate::grid::{manhattan, GridLocation};
use crate::random_provider::RandomProvider;
use crate::template::TemplateEntry;

verus! {

/// Identifies a team.
#[derive(Debug, PartialEq, Eq, Structural, Clone, Copy, Hash)]
pub struct TeamId {
    pub id: u64,
}

impl TeamId {
    pub fn new(id: u64) -> (r: Self)
        ensures
            r.id == id,
    {
        TeamId { id }
    }
}

/// Characters sharing one win or loss.
#[derive(Debug)]
pub struct Team {
    pub id: TeamId,
    pub name: String,
}

/// How a chosen target relates to the actor.
pub open spec fn relation(actor: CharacterId, target: CharacterId) -> Target {
    if actor == target {
        Target::Me
    } else {
        Target::Others
    }
}

/// Who receives one effect of a card: the actor when the effect itself targets `Me`,
/// else the chosen target.
pub open spec fn receiver(actor: CharacterId, target: CharacterId, a: CardAction) -> CharacterId {
    if a.spec_target() == Target::Me {
        actor
    } else {
        target
    }
}

/// A character after one effect of a card with the drawn `amount`.
pub open spec fn resolved(c: Character, a: CardAction, amount: u64) -> Character {
    match a {
        CardAction::Damage { .. } => Character {
            health: Health { health: if amount >= c.health.health { 0 } else { (c.health.health - amount) as u64 } },
            ..c
        },
        CardAction::Heal { .. } => Character {
            health: Health {
                health: if c.health.health + amount > c.max_health.health {
                    c.max_health.health
                } else {
                    (c.health.health + amount) as u64
                },
            },
            ..c
        },
        CardAction::GainAction { amount: n, .. } => Character {
            remaining_actions: if c.remaining_actions + n > 255 { 255 } else { (c.remaining_actions + n) as u8 },
            ..c
        },
        CardAction::Move { .. } => c,
    }
}

/// Each drawn amount lies in the range of its damage or heal effect.
pub open spec fn amounts_fit(actions: Seq<CardAction>, amounts: Seq<u64>) -> bool {
    &&& amounts.len() == actions.len()
    &&& forall|i: int| 0 <= i < actions.len() ==> match #[trigger] actions[i] {
        CardAction::Damage { amount, .. } => amount.0 <= amounts[i] <= amount.1,
        CardAction::Heal { amount, .. } => amount.0 <= amounts[i] <= amount.1,
        _ => true,
    }
}

/// The characters after the effects of a card, in order, with the drawn amounts.
pub open spec fn apply_all(
    chars: Seq<Character>,
    actor: CharacterId,
    target: CharacterId,
    actions: Seq<CardAction>,
    amounts: Seq<u64>,
) -> Seq<Character>
    decreases actions.len(),
{
    if actions.len() == 0 {
        chars
    } else {
        let prev = apply_all(chars, actor, target, actions.drop_last(), amounts.drop_last());
        let a = actions.last();
        let who = receiver(actor, target, a).id as int;
        prev.update(who, resolved(prev[who], a, amounts.last()))
    }
}

/// The decimal digits of `n`, most significant first, with no leading zeros.
pub open spec fn decimal(n: nat) -> Seq<char>
    decreases n,
{
    if n < 10 {
        seq![(('0' as u8) + n) as char]
    } else {
        decimal(n / 10) + seq![(('0' as u8) + (n % 10)) as char]
    }
}

/// The digit `d` as text.
fn digit(d: u64) -> (r: &'static str)
    requires
        d < 10,
    ensures
        r@ == seq![(('0' as u8) + d) as char],
{
    if d == 0 {
        proof { reveal_strlit("0"); }
        "0"
    } else if d == 1 {
        proof { reveal_strlit("1"); }
        "1"
    } else if d == 2 {
        proof { reveal_strlit("2"); }
        "2"
    } else if d == 3 {
        proof { reveal_strlit("3"); }
        "3"
    } else if d == 4 {
        proof { reveal_strlit("4"); }
        "4"
    } else if d == 5 {
        proof { reveal_strlit("5"); }
        "5"
    } else if d == 6 {
        proof { reveal_strlit("6"); }
        "6"
    } else if d == 7 {
        proof { reveal_strlit("7"); }
        "7"
    } else if d == 8 {
        proof { reveal_strlit("8"); }
        "8"
    } else {
        proof { reveal_strlit("9"); }
        "9"
    }
}

/// `n` in decimal digits, with no leading zeros.
fn decimal_string(n: u64) -> (r: String)
    ensures
        r@ == decimal(n as nat),
    decreases n,
{
    if n < 10 {
        String::from_str(digit(n))
    } else {
        let mut s = decimal_string(n / 10);
        s.append(digit(n % 10));
        s
    }
}

/// One fragment of a log entry: its category, if any, and its text.
pub open spec fn fragment(e: TemplateEntry<BattleTextEntry>) -> (Option<BattleTextEntry>, Seq<char>) {
    match e {
        TemplateEntry::Text(t) => (None, t@),
        TemplateEntry::Typed(k, t) => (Some(k), t@),
    }
}

pub open spec fn fragments(s: Seq<TemplateEntry<BattleTextEntry>>) -> Seq<(Option<BattleTextEntry>, Seq<char>)> {
    s.map_values(|e: TemplateEntry<BattleTextEntry>| fragment(e))
}

/// What one effect adds to the log: the drawn amount with " damage. "; "Healed " and the
/// amount; "Gained " and the number of actions; or the moved character's name with " moved. ".
pub open spec fn effect_fragments(a: CardAction, amount: u64, name: Seq<char>) -> Seq<(Option<BattleTextEntry>, Seq<char>)> {
    match a {
        CardAction::Damage { .. } => seq![(Some(BattleTextEntry::Damage), decimal(amount as nat)), (None, " damage. "@)],
        CardAction::Heal { .. } => seq![(None, "Healed "@), (Some(BattleTextEntry::Damage), decimal(amount as nat)), (None, ". "@)],
        CardAction::GainAction { amount: n, .. } => seq![(None, "Gained "@), (None, decimal(n as nat)), (None, " action. "@)],
        CardAction::Move { .. } => seq![(Some(BattleTextEntry::Id), name), (None, " moved. "@)],
    }
}

/// The log fragments of a card's effects in order, with the drawn amounts.
pub open spec fn effects_log(
    chars: Seq<Character>,
    actor: CharacterId,
    target: CharacterId,
    actions: Seq<CardAction>,
    amounts: Seq<u64>,
) -> Seq<(Option<BattleTextEntry>, Seq<char>)>
    decreases actions.len(),
{
    if actions.len() == 0 {
        Seq::empty()
    } else {
        let a = actions.last();
        effects_log(chars, actor, target, actions.drop_last(), amounts.drop_last())
            + effect_fragments(a, amounts.last(), chars[receiver(actor, target, a).id as int].name@)
    }
}

/// One effect's change to the board: a `Move` effect steps its receiver one cell towards
/// the other character (see `Board::stepped`); other effects leave the board alone.
pub open spec fn move_step(b: Board, f: Board, actor: CharacterId, target: CharacterId, a: CardAction) -> bool {
    let who = receiver(actor, target, a);
    let toward = if who == actor { target } else { actor };
    if a is Move {
        b.stepped(f, who, toward)
    } else {
        f == b
    }
}

/// The board goes from `b0` to `b1` through the card's effects in order.
pub open spec fn moves_done(b0: Board, b1: Board, actor: CharacterId, target: CharacterId, actions: Seq<CardAction>) -> bool {
    exists|bs: Seq<Board>| #![trigger bs.len()] {
        &&& bs.len() == actions.len() + 1
        &&& bs[0] == b0
        &&& bs.last() == b1
        &&& forall|i: int| 0 <= i < actions.len() ==> move_step(#[trigger] bs[i], bs[i + 1], actor, target, actions[i])
    }
}

/// The log entry of a pass: the actor's name, then " took no action".
pub open spec fn pass_entry(e: BattleText, name: Seq<char>) -> bool {
    &&& e@.len() == 2
    &&& e@[0] matches TemplateEntry::Typed(BattleTextEntry::Id, t) && t@ == name
    &&& e@[1] matches TemplateEntry::Text(t) && t@ == " took no action"@
}

/// The log entry of a victory: the team's name, then " won.".
pub open spec fn victory_entry(e: BattleText, name: Seq<char>) -> bool {
    &&& e@.len() == 2
    &&& e@[0] matches TemplateEntry::Text(t) && t@ == name
    &&& e@[1] matches TemplateEntry::Text(t) && t@ == " won."@
}

/// The characters after `actor` spent one action point (not going below zero).
pub open spec fn spend(chars: Seq<Character>, actor: CharacterId) -> Seq<Character> {
    let c = chars[actor.id as int];
    chars.update(
        actor.id as int,
        Character { remaining_actions: if c.remaining_actions == 0 { 0 } else { (c.remaining_actions - 1) as u8 }, ..c },
    )
}

/// `card` occurs exactly once in `hand`.
pub open spec fn occurs_once(hand: Seq<CardId>, card: CardId) -> bool {
    &&& hand.contains(card)
    &&& forall|i: int, j: int| 0 <= i < hand.len() && 0 <= j < hand.len() && #[trigger] hand[i] == card && #[trigger] hand[j] == card ==> i == j
}

/// `pos` is where `card` first occurs in `hand`.
pub open spec fn first_occurrence(hand: Seq<CardId>, card: CardId, pos: int) -> bool {
    &&& 0 <= pos < hand.len()
    &&& hand[pos] == card
    &&& forall|j: int| 0 <= j < pos ==> #[trigger] hand[j] != card
}

/// The battle: characters, cards, teams, board and log, driven turn by turn.
pub struct Battle<R> {
    /// Each character with its team, in the order in which they take turns.
    pub members: Vec<(TeamId, CharacterId)>,
    /// Indexed by character id.
    pub characters: Vec<Character>,
    pub introduction: Option<battle_file::StoryCard>,
    pub teams: Vec<Team>,
    pub history: Vec<BattleText>,
    pub random_provider: R,
    pub round: u16,
    /// Indexed by card id.
    pub cards: Vec<Card>,
    pub default_turn_actions: u8,
    pub board: Board,
}

impl<R: RandomProvider> Battle<R> {
    /// Identities match positions, every character and card is well formed, every card a
    /// character owns exists, and every member is a character.
    pub open spec fn wf(&self) -> bool {
        &&& self.board.wf()
        &&& self.board.placed_once(self.characters@.len() as int)
        &&& forall|i: int| 0 <= i < self.characters@.len() ==> (#[trigger] self.characters@[i]).id.id == i
        &&& forall|i: int| 0 <= i < self.characters@.len() ==> (#[trigger] self.characters@[i]).wf()
        &&& forall|i: int, j: int| 0 <= i < self.characters@.len() && 0 <= j < self.characters@[i].deck@.len()
            ==> (#[trigger] self.characters@[i].deck@[j]).id < self.cards@.len()
        &&& forall|i: int| 0 <= i < self.cards@.len() ==> (#[trigger] self.cards@[i]).id.id == i
        &&& forall|i: int| 0 <= i < self.cards@.len() ==> (#[trigger] self.cards@[i]).well_formed()
        &&& forall|k: int| 0 <= k < self.members@.len() ==> (#[trigger] self.members@[k]).1.id < self.characters@.len()
    }

    pub open spec fn alive(&self, c: CharacterId) -> bool {
        !self.characters@[c.id as int].spec_is_dead()
    }

    /// Team `t` has a living member.
    pub open spec fn team_alive(&self, t: TeamId) -> bool {
        exists|k: int| 0 <= k < self.members@.len() && (#[trigger] self.members@[k]).0 == t && self.alive(self.members@[k].1)
    }

    /// This battle was set up from `file`, character `k` for member `placed[k]` standing on
    /// that member's cell, and team `i` named as team `i` of the definition.
    pub open spec fn built_from(&self, file: battle_file::Battle, placed: Seq<(int, int)>) -> bool {
        &&& placed.len() == self.characters@.len()
        &&& placed_facts(file, placed, self.characters@, self.members@, file.teams@.len() as int, 0)
        &&& forall|k: int| 0 <= k < placed.len() ==> {
            let loc = file.member((#[trigger] placed[k]).0, placed[k].1).location;
            self.board.grid.cell(loc.0 as int, loc.1 as int) == Some(BoardItem::Character(CharacterId { id: k as usize }))
        }
        &&& forall|i: int| 0 <= i < self.teams@.len() ==> (#[trigger] self.teams@[i]).name@ == file.teams@[i].name@
            && self.teams@[i].id.id == i
    }

    /// Exactly one team has a living member.
    pub open spec fn one_team_left(&self) -> bool {
        exists|t: TeamId| #[trigger] self.team_alive(t) && forall|u: TeamId| #[trigger] self.team_alive(u) ==> u == t
    }

    /// The characters of the first `n` members that are alive, in member order.
    pub open spec fn living(&self, n: int) -> Seq<CharacterId>
        decreases n,
    {
        if n <= 0 {
            Seq::empty()
        } else {
            let prev = self.living(n - 1);
            let c = self.members@[n - 1].1;
            if self.alive(c) {
                prev.push(c)
            } else {
                prev
            }
        }
    }

    /// Playing `card` on `target` is allowed for `actor`.
    pub open spec fn act_is_legal(&self, actor: CharacterId, card: CardId, target: CharacterId) -> bool {
        &&& card.id < self.cards@.len()
        &&& self.characters@[actor.id as int].hand@.contains(card)
        &&& target.id < self.characters@.len()
        &&& self.alive(target)
        &&& aggregate_target(self.cards@[card.id as int].actions@).accepts(relation(actor, target))
        &&& actor != target ==> self.board.within(
            BoardItem::Character(actor),
            BoardItem::Character(target),
            self.cards@[card.id as int].range as int,
        )
    }

    /// Stepping to `to` is allowed for `actor`: it moves itself to an empty cell next to it.
    pub open spec fn move_is_legal(&self, actor: CharacterId, who: CharacterId, to: GridLocation) -> bool {
        &&& who == actor
        &&& self.board.grid.in_bounds(to.x as int, to.y as int)
        &&& self.board.grid.cell(to.x as int, to.y as int) is None
        &&& exists|x: int, y: int|
            self.board.first_at(BoardItem::Character(actor), x, y) && #[trigger] manhattan(x, y, to.x as int, to.y as int) == 1
    }

    pub open spec fn is_legal(&self, actor: CharacterId, action: Action) -> bool {
        match action {
            Action::Pass => true,
            Action::Act(card, target) => self.act_is_legal(actor, card, target),
            Action::Move(who, to) => self.move_is_legal(actor, who, to),
        }
    }

    /// Checks if only one team is alive and returns that team. Returns None if multiple
    /// teams are alive or if none are.
    pub fn check_only_one_team_alive(&self) -> (r: Option<TeamId>)
        requires
            self.wf(),
        ensures
            r matches Some(t) ==> self.team_alive(t) && forall|u: TeamId| #[trigger] self.team_alive(u) ==> u == t,
            r is None ==> forall|t: TeamId| #[trigger] self.team_alive(t) ==> exists|u: TeamId| self.team_alive(u) && u != t,
    {
        let mut cur_id: Option<TeamId> = None;
        let mut k: usize = 0;
        while k < self.members.len()
            invariant
                self.wf(),
                k <= self.members@.len(),
                cur_id is None ==> forall|j: int| 0 <= j < k ==> !self.alive((#[trigger] self.members@[j]).1),
                cur_id matches Some(t) ==> {
                    &&& self.team_alive(t)
                    &&& forall|j: int| 0 <= j < k && self.alive((#[trigger] self.members@[j]).1) ==> self.members@[j].0 == t
                },
            decreases self.members@.len() - k,
        {
            let (team_id, character) = self.members[k];
            if !self.characters[character.id].is_dead() {
                match cur_id {
                    Some(t) => {
                        if t != team_id {
                            proof {
                                assert(self.team_alive(team_id));
                                assert forall|u: TeamId| #[trigger] self.team_alive(u) implies exists|v: TeamId| self.team_alive(v) && v != u by {
                                    if u == t {
                                        assert(self.team_alive(team_id) && team_id != u);
                                    } else {
                                        assert(self.team_alive(t) && t != u);
                                    }
                                }
                            }
                            return None;
                        }
                    },
                    None => {},
                }
                cur_id = Some(team_id);
            }
            k = k + 1;
        }
        proof {
            match cur_id {
                Some(t) => {
                    assert forall|u: TeamId| #[trigger] self.team_alive(u) implies u == t by {
                        let j = choose|j: int| 0 <= j < self.members@.len() && (#[trigger] self.members@[j]).0 == u && self.alive(self.members@[j].1);
                    }
                },
                None => {
                    assert forall|t: TeamId| #[trigger] self.team_alive(t) implies exists|u: TeamId| self.team_alive(u) && u != t by {
                        let j = choose|j: int| 0 <= j < self.members@.len() && (#[trigger] self.members@[j]).0 == t && self.alive(self.members@[j].1);
                    }
                },
            }
        }
        cur_id
    }
    /// The characters after `actor` played `card` on `target` with the drawn `amounts`:
    /// the card's effects applied in order, then the card taken out of the actor's hand
    /// at `pos`.
    /// The start of a played card's log entry: the actor, " used ", the card, " on ", the
    /// target, ". ".
    pub open spec fn act_header(&self, actor: CharacterId, card: CardId, target: CharacterId) -> Seq<(Option<BattleTextEntry>, Seq<char>)> {
        seq![
            (Some(BattleTextEntry::Id), self.characters@[actor.id as int].name@),
            (None, " used "@),
            (Some(BattleTextEntry::Attack), self.cards@[card.id as int].name@),
            (None, " on "@),
            (Some(BattleTextEntry::Id), self.characters@[target.id as int].name@),
            (None, ". "@),
        ]
    }

    pub open spec fn played(
        &self,
        chars: Seq<Character>,
        board: Board,
        entry: BattleText,
        actor: CharacterId,
        card: CardId,
        target: CharacterId,
        amounts: Seq<u64>,
        pos: int,
    ) -> bool {
        let applied = apply_all(self.characters@, actor, target, self.cards@[card.id as int].actions@, amounts);
        &&& amounts_fit(self.cards@[card.id as int].actions@, amounts)
        &&& first_occurrence(self.characters@[actor.id as int].hand@, card, pos)
        &&& chars.len() == applied.len()
        &&& forall|i: int| 0 <= i < chars.len() && i != actor.id ==> #[trigger] chars[i] == applied[i]
        &&& chars[actor.id as int] == (Character { hand: chars[actor.id as int].hand, ..applied[actor.id as int] })
        &&& chars[actor.id as int].hand@ == self.characters@[actor.id as int].hand@.remove(pos)
        &&& moves_done(self.board, board, actor, target, self.cards@[card.id as int].actions@)
        &&& fragments(entry@) == self.act_header(actor, card, target)
            + effects_log(self.characters@, actor, target, self.cards@[card.id as int].actions@, amounts)
    }

    /// `f` is this battle after `actor` legally carried out `action` (without spending the
    /// action point): one log entry added; `Pass` logs the actor's name and " took no
    /// action" and changes nothing else; `Act` applies the card (see `played`), leaves the
    /// board alone unless the card moves someone, and takes a card held once out of the
    /// hand but not the deck; `Move` puts the actor on the chosen cell and empties its old one.
    pub open spec fn handled(&self, f: Battle<R>, actor: CharacterId, action: Action) -> bool {
        &&& f.members == self.members
        &&& f.cards == self.cards
        &&& f.teams == self.teams
        &&& f.round == self.round
        &&& f.default_turn_actions == self.default_turn_actions
        &&& f.characters@.len() == self.characters@.len()
        &&& f.history@.len() == self.history@.len() + 1
        &&& f.history@.subrange(0, self.history@.len() as int) == self.history@
        &&& match action {
            Action::Pass => {
                &&& f.characters == self.characters
                &&& f.board == self.board
                &&& pass_entry(f.history@.last(), self.characters@[actor.id as int].name@)
            },
            Action::Act(card, target) => {
                &&& exists|amounts: Seq<u64>, pos: int| #[trigger] self.played(f.characters@, f.board, f.history@.last(), actor, card, target, amounts, pos)
                &&& (forall|i: int| 0 <= i < self.cards@[card.id as int].actions@.len()
                    ==> !(#[trigger] self.cards@[card.id as int].actions@[i] is Move)) ==> f.board == self.board
                &&& occurs_once(self.characters@[actor.id as int].hand@, card) ==> {
                    &&& !f.characters@[actor.id as int].hand@.contains(card)
                    &&& f.characters@[actor.id as int].deck@.contains(card)
                }
            },
            Action::Move(who, to) => {
                &&& f.characters == self.characters
                &&& f.board.grid.cell(to.x as int, to.y as int) == Some(BoardItem::Character(actor))
                &&& exists|x: int, y: int| #![trigger self.board.grid.cell(x, y)] {
                    &&& self.board.first_at(BoardItem::Character(actor), x, y)
                    &&& f.board.grid.cell(x, y) is None
                    &&& forall|a: int, b: int| !(a == x && b == y) && !(a == to.x && b == to.y)
                        ==> #[trigger] f.board.grid.cell(a, b) == self.board.grid.cell(a, b)
                }
            },
        }
    }

    /// Carries out `action` for `actor` if it is legal and reports whether it was.
    /// An illegal action changes nothing. A legal one adds one entry to the log; `Pass`
    /// changes nothing else; `Act` applies the card's effects in order with amounts drawn
    /// from their ranges and takes the card out of the actor's hand (not its deck); `Move`
    /// steps the actor onto the chosen empty neighbouring cell.
    pub fn handle_action(&mut self, actor: CharacterId, action: Action) -> (r: bool)
        requires
            old(self).wf(),
            actor.id < old(self).characters@.len(),
        ensures
            r == old(self).is_legal(actor, action),
            final(self).wf(),
            final(self).characters@.len() == old(self).characters@.len(),
            !r ==> *final(self) == *old(self),
            r ==> final(self).history@.len() == old(self).history@.len() + 1,
            r ==> final(self).history@.subrange(0, old(self).history@.len() as int) == old(self).history@,
            final(self).members == old(self).members,
            final(self).cards == old(self).cards,
            final(self).teams == old(self).teams,
            final(self).round == old(self).round,
            final(self).default_turn_actions == old(self).default_turn_actions,
            final(self).board.grid.spec_width() == old(self).board.grid.spec_width(),
            final(self).board.grid.spec_height() == old(self).board.grid.spec_height(),
            r ==> old(self).handled(*final(self), actor, action),
    {
        match action {
            Action::Pass => {
                let mut entry: BattleText = Vec::new();
                entry.push(BattleTextEntry::id(self.characters[actor.id].name.as_str()));
                entry.push(TemplateEntry::text(" took no action"));
                let ghost e = entry;
                self.history.push(entry);
                proof {
                    assert(self.history@.last() == e);
                    assert(pass_entry(e, old(self).characters@[actor.id as int].name@));
                }
                true
            },
            Action::Act(card_id, target_id) => self.play_card(actor, card_id, target_id),
            Action::Move(who, to) => self.step_to(actor, who, to),
        }
    }
    #[verifier::rlimit(100)]
    #[verifier::spinoff_prover]
    fn play_card(&mut self, actor: CharacterId, card_id: CardId, target_id: CharacterId) -> (r: bool)
        requires
            old(self).wf(),
            actor.id < old(self).characters@.len(),
        ensures
            r == old(self).act_is_legal(actor, card_id, target_id),
            final(self).wf(),
            final(self).characters@.len() == old(self).characters@.len(),
            !r ==> *final(self) == *old(self),
            r ==> final(self).history@.len() == old(self).history@.len() + 1,
            r ==> final(self).history@.subrange(0, old(self).history@.len() as int) == old(self).history@,
            final(self).members == old(self).members,
            final(self).cards == old(self).cards,
            final(self).teams == old(self).teams,
            final(self).round == old(self).round,
            final(self).default_turn_actions == old(self).default_turn_actions,
            final(self).board.grid.spec_width() == old(self).board.grid.spec_width(),
            final(self).board.grid.spec_height() == old(self).board.grid.spec_height(),
            r ==> exists|amounts: Seq<u64>, pos: int|
                #[trigger] old(self).played(final(self).characters@, final(self).board, final(self).history@.last(), actor, card_id, target_id, amounts, pos),
            r && occurs_once(old(self).characters@[actor.id as int].hand@, card_id) ==> {
                &&& !final(self).characters@[actor.id as int].hand@.contains(card_id)
                &&& final(self).characters@[actor.id as int].deck@.contains(card_id)
            },
            r && (forall|i: int|
                0 <= i < old(self).cards@[card_id.id as int].actions@.len() ==> !(#[trigger] old(self).cards@[card_id.id as int].actions@[i] is Move))
                ==> final(self).board == old(self).board,
    {
        if card_id.id >= self.cards.len() || target_id.id >= self.characters.len() {
            return false;
        }
        let pos = match find_in_hand(&self.characters[actor.id].hand, card_id) {
            Some(p) => p,
            None => {
                return false;
            },
        };
        let actual = if actor == target_id { Target::Me } else { Target::Others };
        if !self.cards[card_id.id].target().is_super_set(&actual) {
            return false;
        }
        if self.characters[target_id.id].is_dead() {
            return false;
        }
        if actor != target_id {
            let a = BoardItem::Character(actor);
            let b = BoardItem::Character(target_id);
            match self.board.distance(a, b) {
                Some(d) => {
                    if d > self.cards[card_id.id].range {
                        proof {
                            assert forall|ax: int, ay: int, bx: int, by: int|
                                self.board.first_at(a, ax, ay) && self.board.first_at(b, bx, by)
                                implies #[trigger] manhattan(ax, ay, bx, by) > self.cards@[card_id.id as int].range by {
                                let (px, py, qx, qy) = choose|px: int, py: int, qx: int, qy: int|
                                    self.board.first_at(a, px, py) && self.board.first_at(b, qx, qy) && d == #[trigger] manhattan(px, py, qx, qy);
                                self.board.lemma_first_at_unique(a, ax, ay, px, py);
                                self.board.lemma_first_at_unique(b, bx, by, qx, qy);
                            }
                        }
                        return false;
                    }
                },
                None => {
                    return false;
                },
            }
        }
        let mut entry: BattleText = Vec::new();
        entry.push(BattleTextEntry::id(self.characters[actor.id].name.as_str()));
        entry.push(TemplateEntry::text(" used "));
        entry.push(BattleTextEntry::attack(self.cards[card_id.id].name.as_str()));
        entry.push(TemplateEntry::text(" on "));
        entry.push(BattleTextEntry::id(self.characters[target_id.id].name.as_str()));
        entry.push(TemplateEntry::text(". "));
        assert(fragments(entry@) =~= old(self).act_header(actor, card_id, target_id));
        let n = self.cards[card_id.id].actions.len();
        let ghost actions = self.cards@[card_id.id as int].actions@;
        let ghost mut amounts: Seq<u64> = Seq::empty();
        let ghost mut boards: Seq<Board> = seq![self.board];
        let mut i: usize = 0;
        while i < n
            invariant
                i <= n,
                n == actions.len(),
                actions == old(self).cards@[card_id.id as int].actions@,
                card_id.id < old(self).cards@.len(),
                actor.id < old(self).characters@.len(),
                target_id.id < old(self).characters@.len(),
                old(self).wf(),
                self.board.wf(),
                self.board.grid.spec_width() == old(self).board.grid.spec_width(),
                self.board.grid.spec_height() == old(self).board.grid.spec_height(),
                self.members == old(self).members,
                self.cards == old(self).cards,
                self.teams == old(self).teams,
                self.history == old(self).history,
                self.round == old(self).round,
                self.default_turn_actions == old(self).default_turn_actions,
                (forall|j: int| 0 <= j < i ==> !(#[trigger] actions[j] is Move)) ==> self.board == old(self).board,
                self.board.placed_once(old(self).characters@.len() as int),
                boards.len() == i + 1,
                boards[0] == old(self).board,
                boards.last() == self.board,
                forall|j: int| 0 <= j < i ==> move_step(#[trigger] boards[j], boards[j + 1], actor, target_id, actions[j]),
                fragments(entry@) == old(self).act_header(actor, card_id, target_id)
                    + effects_log(old(self).characters@, actor, target_id, actions.subrange(0, i as int), amounts),
                amounts_fit(actions.subrange(0, i as int), amounts),
                self.characters@ == apply_all(old(self).characters@, actor, target_id, actions.subrange(0, i as int), amounts),
                self.characters@.len() == old(self).characters@.len(),
                forall|k: int| 0 <= k < self.characters@.len() ==> {
                    &&& (#[trigger] self.characters@[k]).wf()
                    &&& self.characters@[k].id == old(self).characters@[k].id
                    &&& self.characters@[k].deck == old(self).characters@[k].deck
                    &&& self.characters@[k].hand == old(self).characters@[k].hand
                    &&& self.characters@[k].name == old(self).characters@[k].name
                },
            decreases n - i,
        {
            let a = self.cards[card_id.id].actions[i];
            let who = if *a.target() == Target::Me { actor } else { target_id };
            let ghost prev = self.characters@;
            let ghost board_before = self.board;
            let ghost old_boards = boards;
            let ghost entry_before = entry@;
            let ghost v: u64;
            assert(a.well_formed());
            match a {
                CardAction::Damage { amount, .. } => {
                    let value = amount.resolve(&self.random_provider);
                    entry.push(BattleTextEntry::damage(decimal_string(value).as_str()));
                    entry.push(TemplateEntry::text(" damage. "));
                    self.characters[who.id].health.sub_assign(Attack::new(value));
                    proof {
                        v = value;
                    }
                },
                CardAction::Heal { amount, .. } => {
                    let value = amount.resolve(&self.random_provider);
                    entry.push(TemplateEntry::text("Healed "));
                    entry.push(BattleTextEntry::damage(decimal_string(value).as_str()));
                    entry.push(TemplateEntry::text(". "));
                    self.characters[who.id].heal(Health::new(value));
                    proof {
                        v = value;
                    }
                },
                CardAction::GainAction { amount, .. } => {
                    entry.push(TemplateEntry::text("Gained "));
                    entry.push(TemplateEntry::text(decimal_string(amount as u64).as_str()));
                    entry.push(TemplateEntry::text(" action. "));
                    let current = self.characters[who.id].remaining_actions;
                    self.characters[who.id].remaining_actions = current.saturating_add(amount);
                    proof {
                        v = 0;
                    }
                },
                CardAction::Move { .. } => {
                    let toward = if who == actor { target_id } else { actor };
                    self.step_towards(who, toward);
                    entry.push(BattleTextEntry::id(self.characters[who.id].name.as_str()));
                    entry.push(TemplateEntry::text(" moved. "));
                    proof {
                        v = 0;
                    }
                },
            }
            proof {
                let next = actions.subrange(0, i as int + 1);
                assert(next.drop_last() =~= actions.subrange(0, i as int));
                assert(amounts.push(v).drop_last() =~= amounts);
                assert(next.last() == a);
                let name = old(self).characters@[who.id as int].name@;
                assert(fragments(entry@) =~= fragments(entry_before) + effect_fragments(a, v, name));
                assert(effects_log(old(self).characters@, actor, target_id, next, amounts.push(v))
                    == effects_log(old(self).characters@, actor, target_id, actions.subrange(0, i as int), amounts)
                        + effect_fragments(a, v, name));
                if a is Move {
                    let toward = if who == actor { target_id } else { actor };
                    assert(board_before.stepped(self.board, who, toward));
                } else {
                    assert(self.board == board_before);
                }
                assert(who == receiver(actor, target_id, next.last()));
                assert(move_step(board_before, self.board, actor, target_id, a));
                boards = boards.push(self.board);
                assert forall|j: int| 0 <= j < i + 1 implies move_step(#[trigger] boards[j], boards[j + 1], actor, target_id, next[j]) by {
                    if j < i {
                        assert(boards[j + 1] == old_boards[j + 1]);
                    }
                }
                amounts = amounts.push(v);
                assert(self.characters@ =~= prev.update(who.id as int, resolved(prev[who.id as int], a, v)));
            }
            i = i + 1;
        }
        let ghost entry_done = entry;
        self.history.push(entry);
        self.characters[actor.id].hand.remove(pos);
        proof {
            assert(old(self).characters@[actor.id as int].wf());
            if occurs_once(old(self).characters@[actor.id as int].hand@, card_id) {
                let h = old(self).characters@[actor.id as int].hand@;
                assert(h.contains(card_id));
                if self.characters@[actor.id as int].hand@.contains(card_id) {
                    let j = choose|j: int| 0 <= j < h.len() - 1 && #[trigger] h.remove(pos as int)[j] == card_id;
                    if j < pos {
                        assert(h[j] == card_id);
                    } else {
                        assert(h[j + 1] == card_id);
                    }
                }
            }
            assert(actions.subrange(0, n as int) =~= actions);
            assert(self.history@.last() == entry_done);
            assert(moves_done(old(self).board, self.board, actor, target_id, actions));
            assert(old(self).played(self.characters@, self.board, entry_done, actor, card_id, target_id, amounts, pos as int));
        }
        true
    }

    /// Moves `mover` one cell along a shortest route towards `toward`, when one exists and
    /// the two are not already side by side.
    fn step_towards(&mut self, mover: CharacterId, toward: CharacterId)
        requires
            old(self).board.wf(),
            old(self).board.placed_once(old(self).characters@.len() as int),
            mover.id < old(self).characters@.len(),
            toward.id < old(self).characters@.len(),
        ensures
            final(self).board.wf(),
            final(self).board.placed_once(old(self).characters@.len() as int),
            old(self).board.stepped(final(self).board, mover, toward),
            final(self).board.grid.spec_width() == old(self).board.grid.spec_width(),
            final(self).board.grid.spec_height() == old(self).board.grid.spec_height(),
            *final(self) == (Battle { board: final(self).board, ..*old(self) }),
    {
        match self.board.shortest_path(BoardItem::Character(mover), BoardItem::Character(toward)) {
            Some(path) => {
                if path.len() > 2 {
                    let start = path[0];
                    let next = path[1];
                    let ghost before = self.board;
                    let ghost n = self.characters@.len() as int;
                    proof {
                        let me = BoardItem::Character(mover);
                        let dest = BoardItem::Character(toward);
                        assert(path@[0].dist(path@[1]) == 1);
                        assert(1 < path@.len() - 1);
                        if self.board.grid.cell(next.x as int, next.y as int) matches Some(BoardItem::Character(_)) {
                            let v = self.board.grid.cell(next.x as int, next.y as int)->0;
                            assert(open_towards(dest, v));
                            assert(v == dest);
                            let last = path@.last();
                            assert(self.board.char_placed(toward));
                            assert(self.board.grid.cell(last.x as int, last.y as int) == Some(dest));
                            assert(next.x == last.x && next.y == last.y);
                            let q = seq![path@[0], path@[1]];
                            assert(q.last() == path@[1]);
                            assert(self.board.route_between(q, me, dest));
                            assert(false);
                        }
                    }
                    self.board.grid.clear(start.x, start.y);
                    self.board.grid.set(next.x, next.y, BoardItem::Character(mover));
                    proof {
                        before.lemma_move_keeps_placement(self.board, mover, start.x as int, start.y as int, next.x as int, next.y as int, n);
                        assert(path@[0] == start && path@[1] == next);
                        assert(before.chosen_route(path@, BoardItem::Character(mover), BoardItem::Character(toward)));
                    }
                } else {
                    proof {
                        let me = BoardItem::Character(mover);
                        let dest = BoardItem::Character(toward);
                        assert forall|p: Seq<GridLocation>| #[trigger] self.board.chosen_route(p, me, dest) implies p.len() <= 2 by {
                            assert(self.board.route_between(p, me, dest));
                        }
                    }
                }
            },
            None => {
                proof {
                    let me = BoardItem::Character(mover);
                    let dest = BoardItem::Character(toward);
                    assert forall|p: Seq<GridLocation>| #[trigger] self.board.chosen_route(p, me, dest) implies p.len() <= 2 by {
                        assert(self.board.route_between(p, me, dest));
                    }
                }
            },
        }
    }

    fn step_to(&mut self, actor: CharacterId, who: CharacterId, to: GridLocation) -> (r: bool)
        requires
            old(self).wf(),
            actor.id < old(self).characters@.len(),
        ensures
            r == old(self).move_is_legal(actor, who, to),
            final(self).wf(),
            final(self).characters@.len() == old(self).characters@.len(),
            !r ==> *final(self) == *old(self),
            r ==> final(self).history@.len() == old(self).history@.len() + 1,
            r ==> final(self).history@.subrange(0, old(self).history@.len() as int) == old(self).history@,
            r ==> *final(self) == (Battle { board: final(self).board, history: final(self).history, ..*old(self) }),
            final(self).board.grid.spec_width() == old(self).board.grid.spec_width(),
            final(self).board.grid.spec_height() == old(self).board.grid.spec_height(),
            r ==> {
                &&& final(self).board.grid.cell(to.x as int, to.y as int) == Some(BoardItem::Character(actor))
                &&& exists|x: int, y: int| #![trigger old(self).board.grid.cell(x, y)] {
                    &&& old(self).board.first_at(BoardItem::Character(actor), x, y)
                    &&& final(self).board.grid.cell(x, y) is None
                    &&& forall|a: int, b: int| !(a == x && b == y) && !(a == to.x && b == to.y)
                        ==> #[trigger] final(self).board.grid.cell(a, b) == old(self).board.grid.cell(a, b)
                }
            },
    {
        if who != actor {
            return false;
        }
        if !self.board.grid.is_valid(to.x, to.y) || self.board.grid.is_set(to.x, to.y) {
            return false;
        }
        let me = BoardItem::Character(actor);
        match self.board.find(&me) {
            Some((x, y)) => {
                let here = GridLocation { x, y };
                if !here.is_adjacent(&to) {
                    proof {
                        assert forall|px: int, py: int| self.board.first_at(me, px, py)
                            implies #[trigger] manhattan(px, py, to.x as int, to.y as int) != 1 by {
                            self.board.lemma_first_at_unique(me, px, py, x as int, y as int);
                        }
                    }
                    return false;
                }
                let ghost before = self.board;
                self.board.grid.clear(x, y);
                self.board.grid.set(to.x, to.y, me);
                proof {
                    before.lemma_move_keeps_placement(self.board, actor, x as int, y as int, to.x as int, to.y as int,
                        self.characters@.len() as int);
                }
                let mut entry: BattleText = Vec::new();
                entry.push(BattleTextEntry::id(self.characters[actor.id].name.as_str()));
                entry.push(TemplateEntry::text(" moved."));
                self.history.push(entry);
                proof {
                    assert(old(self).board.first_at(me, x as int, y as int));
                }
                true
            },
            None => false,
        }
    }
}

/// Resolving a damage or heal effect keeps health between zero and the maximum, whatever
/// amount was drawn: damage stops at zero and healing at the maximum.
pub proof fn lemma_resolution_keeps_health_in_bounds(c: Character, a: CardAction, amount: u64)
    requires
        c.wf(),
    ensures
        resolved(c, a, amount).wf(),
        0 <= resolved(c, a, amount).health.health <= resolved(c, a, amount).max_health.health,
        resolved(c, a, amount).max_health == c.max_health,
{
}

/// The battle as it runs through one round.
pub struct Round {
    /// The characters alive when the round began, in turn order.
    pub turns: Vec<CharacterId>,
    /// The turn being taken or about to be.
    pub index: usize,
    /// Whether the turn at `index` has begun.
    pub in_turn: bool,
}

/// What the battle asks of its driver next.
#[derive(Debug, PartialEq, Eq, Structural, Clone, Copy)]
pub enum RoundStep {
    /// Request one action from the actor of this character.
    Ask(CharacterId),
    /// The round is over.
    Over,
}

/// A battle where only the characters' hands and action budgets may differ from `b`.
pub open spec fn same_but_hands<R>(a: Battle<R>, b: Battle<R>) -> bool {
    &&& a.members == b.members
    &&& a.cards == b.cards
    &&& a.teams == b.teams
    &&& a.history == b.history
    &&& a.round == b.round
    &&& a.default_turn_actions == b.default_turn_actions
    &&& a.board == b.board
    &&& a.characters@.len() == b.characters@.len()
    &&& forall|i: int| 0 <= i < a.characters@.len() ==> {
        let x = #[trigger] a.characters@[i];
        let y = b.characters@[i];
        &&& x.id == y.id
        &&& x.health == y.health
        &&& x.max_health == y.max_health
        &&& x.deck == y.deck
        &&& x.hand_size == y.hand_size
    }
}

/// Actions a character gets for a turn: its own override, else the battle default.
pub open spec fn turn_budget(c: Character, default: u8) -> u8 {
    match c.turn_actions {
        Some(n) => n,
        None => default,
    }
}

/// `n` is `c` at the start of its turn: a new hand of `min(hand_size, deck size)` cards
/// drawn from distinct places of the deck, and the action budget reset; nothing else changed.
pub open spec fn reset_for_turn(c: Character, n: Character, default: u8) -> bool {
    &&& n == (Character { hand: n.hand, remaining_actions: turn_budget(c, default), ..c })
    &&& n.hand@.len() == if c.hand_size < c.deck@.len() { c.hand_size as int } else { c.deck@.len() as int }
    &&& exists|idx: Seq<usize>| #[trigger] drawn_cards(n.hand@, c.deck@, idx)
}

/// Turn `k` was begun during a step that went from `or` to `fr`.
pub open spec fn started(or: Round, fr: Round, k: int) -> bool {
    &&& (if or.in_turn { or.index < k } else { or.index <= k })
    &&& (k < fr.index || (k == fr.index && fr.in_turn))
}

proof fn lemma_reset_trans(a: Character, b: Character, c: Character, d: u8)
    requires
        reset_for_turn(a, b, d),
        reset_for_turn(b, c, d),
    ensures
        reset_for_turn(a, c, d),
{
    let idx = choose|idx: Seq<usize>| #[trigger] drawn_cards(c.hand@, b.deck@, idx);
    assert(drawn_cards(c.hand@, a.deck@, idx));
}

/// Two battles that differ only in hands and budgets agree on who is alive.
proof fn lemma_same_alive<R: RandomProvider>(a: Battle<R>, b: Battle<R>)
    requires
        same_but_hands(a, b),
        b.wf(),
    ensures
        forall|c: CharacterId| c.id < a.characters@.len() ==> #[trigger] a.alive(c) == b.alive(c),
        forall|t: TeamId| #[trigger] a.team_alive(t) == b.team_alive(t),
        a.one_team_left() == b.one_team_left(),
{
    assert forall|c: CharacterId| c.id < a.characters@.len() implies #[trigger] a.alive(c) == b.alive(c) by {
        assert(a.characters@[c.id as int].health == b.characters@[c.id as int].health);
    }
    assert forall|t: TeamId| #[trigger] a.team_alive(t) == b.team_alive(t) by {
        lemma_team_alive_same(a, b, t);
    }
    if a.one_team_left() {
        let t = choose|t: TeamId| #[trigger] a.team_alive(t) && forall|u: TeamId| #[trigger] a.team_alive(u) ==> u == t;
        assert forall|u: TeamId| #[trigger] b.team_alive(u) implies u == t by {
            assert(a.team_alive(u));
        }
        assert(b.team_alive(t));
    }
    if b.one_team_left() {
        let t = choose|t: TeamId| #[trigger] b.team_alive(t) && forall|u: TeamId| #[trigger] b.team_alive(u) ==> u == t;
        assert forall|u: TeamId| #[trigger] a.team_alive(u) implies u == t by {
            assert(b.team_alive(u));
        }
        assert(a.team_alive(t));
    }
}

proof fn lemma_team_alive_same<R: RandomProvider>(a: Battle<R>, b: Battle<R>, t: TeamId)
    requires
        same_but_hands(a, b),
        b.wf(),
        forall|c: CharacterId| c.id < a.characters@.len() ==> #[trigger] a.alive(c) == b.alive(c),
    ensures
        a.team_alive(t) == b.team_alive(t),
{
    {
        if a.team_alive(t) {
            let k = choose|k: int| 0 <= k < a.members@.len() && (#[trigger] a.members@[k]).0 == t && a.alive(a.members@[k].1);
            assert(b.members@[k].1.id < b.characters@.len());
        }
        if b.team_alive(t) {
            let k = choose|k: int| 0 <= k < b.members@.len() && (#[trigger] b.members@[k]).0 == t && b.alive(b.members@[k].1);
            assert(b.members@[k].1.id < b.characters@.len());
        }
    }
}

/// Where `card` first occurs in `hand`.
fn find_in_hand(hand: &Vec<CardId>, card: CardId) -> (r: Option<usize>)
    ensures
        r matches Some(p) ==> first_occurrence(hand@, card, p as int),
        r is None ==> !hand@.contains(card),
{
    let mut i: usize = 0;
    while i < hand.len()
        invariant
            i <= hand@.len(),
            forall|j: int| 0 <= j < i ==> #[trigger] hand@[j] != card,
        decreases hand@.len() - i,
    {
        if hand[i] == card {
            return Some(i);
        }
        i = i + 1;
    }
    None
}

impl<R: RandomProvider> Battle<R> {
    pub open spec fn round_wf(&self, round: &Round) -> bool {
        &&& round.index <= round.turns@.len()
        &&& round.in_turn ==> round.index < round.turns@.len()
        &&& forall|k: int| 0 <= k < round.turns@.len() ==> (#[trigger] round.turns@[k]).id < self.characters@.len()
    }

    /// The characters alive now, in turn order.
    fn build_turns(&self) -> (r: Vec<CharacterId>)
        requires
            self.wf(),
        ensures
            r@ == self.living(self.members@.len() as int),
            forall|k: int| 0 <= k < r@.len() ==> (#[trigger] r@[k]).id < self.characters@.len() && self.alive(r@[k]),
    {
        let mut ret: Vec<CharacterId> = Vec::new();
        let mut k: usize = 0;
        while k < self.members.len()
            invariant
                self.wf(),
                k <= self.members@.len(),
                ret@ == self.living(k as int),
                forall|j: int| 0 <= j < ret@.len() ==> (#[trigger] ret@[j]).id < self.characters@.len() && self.alive(ret@[j]),
            decreases self.members@.len() - k,
        {
            let character = self.members[k].1;
            assert(character.id < self.characters@.len());
            if !self.characters[character.id].is_dead() {
                ret.push(character);
            }
            k = k + 1;
        }
        ret
    }

    /// Starts a new round: counts it, logs "--- Round " and its number, and lines up the
    /// characters alive now in turn order.
    pub fn begin_round(&mut self) -> (r: Round)
        requires
            old(self).wf(),
        ensures
            final(self).wf(),
            final(self).round == if old(self).round == u16::MAX { u16::MAX } else { (old(self).round + 1) as u16 },
            final(self).history@.len() == old(self).history@.len() + 1,
            final(self).history@.subrange(0, old(self).history@.len() as int) == old(self).history@,
            final(self).history@.last()@.len() == 2,
            final(self).history@.last()@[0] matches TemplateEntry::Text(t) && t@ == "--- Round "@,
            final(self).history@.last()@[1] matches TemplateEntry::Text(t) && t@ == decimal(final(self).round as nat),
            *final(self) == (Battle { round: final(self).round, history: final(self).history, ..*old(self) }),
            final(self).round_wf(&r),
            r.index == 0,
            !r.in_turn,
            r.turns@ == old(self).living(old(self).members@.len() as int),
    {
        let turns = self.build_turns();
        self.round = self.round.saturating_add(1);
        let mut entry: BattleText = Vec::new();
        entry.push(TemplateEntry::text("--- Round "));
        entry.push(TemplateEntry::text(decimal_string(self.round as u64).as_str()));
        let ghost e = entry;
        self.history.push(entry);
        assert(self.history@.last() == e);
        Round { turns, index: 0, in_turn: false }
    }

    /// Begins the turn of `c`: draws a new hand and resets its action budget to its own
    /// override or else the battle default.
    fn start_turn(&mut self, c: CharacterId)
        requires
            old(self).wf(),
            c.id < old(self).characters@.len(),
        ensures
            final(self).wf(),
            same_but_hands(*final(self), *old(self)),
            reset_for_turn(old(self).characters@[c.id as int], final(self).characters@[c.id as int], old(self).default_turn_actions),
            forall|i: int| 0 <= i < final(self).characters@.len() && i != c.id ==> #[trigger] final(self).characters@[i] == old(self).characters@[i],
    {
        let ghost pre = self.characters@;
        self.characters[c.id].reset_hand(&self.random_provider);
        let budget = match self.characters[c.id].get_default_turn_actions() {
            Some(n) => n,
            None => self.default_turn_actions,
        };
        self.characters[c.id].remaining_actions = budget;
        proof {
            assert forall|i: int, j: int| 0 <= i < self.characters@.len() && 0 <= j < self.characters@[i].deck@.len()
                implies (#[trigger] self.characters@[i].deck@[j]).id < self.cards@.len() by {
                assert(self.characters@[i].deck == pre[i].deck);
            }
        }
    }

    /// Turn `k` of the round `or` ended at once: its character was dead, or had no action
    /// left (for a turn already under way) or a budget of zero (for a new one).
    pub open spec fn turn_ended(&self, or: Round, k: int) -> bool {
        let c = self.characters@[or.turns@[k].id as int];
        ||| c.spec_is_dead()
        ||| (k == or.index && or.in_turn && c.remaining_actions == 0)
        ||| (!(k == or.index && or.in_turn) && turn_budget(c, self.default_turn_actions) == 0)
    }

    /// Decides what the round needs next. While the current turn lasts (its character alive
    /// with actions left, and more than one team alive) it asks that character for an
    /// action; otherwise it moves on to the next turn, starting it (new hand, budget reset),
    /// skipping characters that are dead when their turn comes, and says when the round is
    /// over.
    #[verifier::spinoff_prover]
    pub fn next_step(&mut self, round: &mut Round) -> (r: RoundStep)
        requires
            old(self).wf(),
            old(self).round_wf(old(round)),
        ensures
            final(self).wf(),
            final(self).round_wf(final(round)),
            same_but_hands(*final(self), *old(self)),
            final(round).turns == old(round).turns,
            final(round).index >= old(round).index,
            forall|k: int| old(round).index <= k < final(round).index ==> old(self).turn_ended(*old(round), k),
            forall|k: int| #[trigger] started(*old(round), *final(round), k) ==> reset_for_turn(
                old(self).characters@[old(round).turns@[k].id as int],
                final(self).characters@[old(round).turns@[k].id as int],
                old(self).default_turn_actions,
            ),
            forall|i: int| 0 <= i < final(self).characters@.len() ==> #[trigger] final(self).characters@[i] == old(self).characters@[i]
                || reset_for_turn(old(self).characters@[i], final(self).characters@[i], old(self).default_turn_actions),
            r matches RoundStep::Ask(c) ==> {
                &&& final(round).in_turn
                &&& c == final(round).turns@[final(round).index as int]
                &&& c.id < final(self).characters@.len()
                &&& final(self).alive(c)
                &&& final(self).characters@[c.id as int].remaining_actions > 0
                &&& !old(self).one_team_left()
            },
            r is Over ==> old(self).one_team_left() || (final(round).index == final(round).turns@.len() && !final(round).in_turn),
            old(round).in_turn && old(self).alive(old(round).turns@[old(round).index as int])
                && old(self).characters@[old(round).turns@[old(round).index as int].id as int].remaining_actions > 0
                && !old(self).one_team_left()
                ==> r == RoundStep::Ask(old(round).turns@[old(round).index as int]) && *final(self) == *old(self)
                    && *final(round) == *old(round),
    {
        proof {
            lemma_same_alive(*self, *self);
        }
        loop
            invariant
                self.wf(),
                old(self).wf(),
                self.round_wf(round),
                old(self).round_wf(old(round)),
                same_but_hands(*self, *old(self)),
                round.turns == old(round).turns,
                round.index >= old(round).index,
                round.index == old(round).index && old(round).in_turn ==> round.in_turn,
                round.index == old(round).index && round.in_turn == old(round).in_turn ==> *self == *old(self),
                forall|k: int| old(round).index <= k < round.index ==> old(self).turn_ended(*old(round), k),
                forall|k: int| #[trigger] started(*old(round), *round, k) ==> reset_for_turn(
                    old(self).characters@[old(round).turns@[k].id as int],
                    self.characters@[old(round).turns@[k].id as int],
                    old(self).default_turn_actions,
                ),
                forall|i: int| 0 <= i < self.characters@.len() ==> #[trigger] self.characters@[i] == old(self).characters@[i]
                    || reset_for_turn(old(self).characters@[i], self.characters@[i], old(self).default_turn_actions),
            decreases 2 * (round.turns@.len() - round.index) + if round.in_turn { 0int } else { 1int },
        {
            proof {
                lemma_same_alive(*self, *old(self));
            }
            if round.in_turn {
                let c = round.turns[round.index];
                let sole = self.check_only_one_team_alive();
                if sole.is_some() {
                    proof {
                        assert(self.team_alive(sole->0));
                    }
                    return RoundStep::Over;
                }
                proof {
                    if self.one_team_left() {
                        let t = choose|t: TeamId| #[trigger] self.team_alive(t) && forall|u: TeamId| #[trigger] self.team_alive(u) ==> u == t;
                        let u = choose|u: TeamId| self.team_alive(u) && u != t;
                    }
                }
                if !self.characters[c.id].is_dead() && self.characters[c.id].remaining_actions > 0 {
                    proof {
                        if round.index > old(round).index {
                            assert(old(self).turn_ended(*old(round), old(round).index as int));
                        } else if old(round).in_turn {
                            assert(*round == *old(round));
                        }
                    }
                    return RoundStep::Ask(c);
                }
                let i = round.index;
                let n = round.turns.len();
                assert(i < n);
                proof {
                    let ci = c.id as int;
                    if !(i == old(round).index && old(round).in_turn) {
                        assert(started(*old(round), *round, i as int));
                    }
                    assert(old(self).turn_ended(*old(round), i as int));
                }
                round.in_turn = false;
                round.index = i + 1;
                proof {
                    assert forall|k: int| #[trigger] started(*old(round), *round, k) implies reset_for_turn(
                        old(self).characters@[old(round).turns@[k].id as int],
                        self.characters@[old(round).turns@[k].id as int],
                        old(self).default_turn_actions,
                    ) by {
                        assert(started(*old(round), Round { turns: round.turns, index: i, in_turn: true }, k));
                    }
                }
            } else {
                if round.index >= round.turns.len() {
                    proof {
                        if old(round).in_turn {
                            assert(old(self).turn_ended(*old(round), old(round).index as int));
                        }
                    }
                    return RoundStep::Over;
                }
                let c = round.turns[round.index];
                let ghost before = self.characters@;
                let ghost idx = round.index as int;
                self.start_turn(c);
                proof {
                    let ci = c.id as int;
                    if before[ci] != old(self).characters@[ci] {
                        lemma_reset_trans(old(self).characters@[ci], before[ci], self.characters@[ci], old(self).default_turn_actions);
                    }
                    lemma_same_alive(*self, *old(self));
                }
                if self.characters[c.id].is_dead() {
                    round.index = round.index + 1;
                } else {
                    round.in_turn = true;
                }
                proof {
                    assert forall|k: int| #[trigger] started(*old(round), *round, k) implies reset_for_turn(
                        old(self).characters@[old(round).turns@[k].id as int],
                        self.characters@[old(round).turns@[k].id as int],
                        old(self).default_turn_actions,
                    ) by {
                        if old(round).turns@[k] != c {
                            assert(started(*old(round), Round { turns: round.turns, index: idx as usize, in_turn: false }, k));
                        }
                    }
                    assert forall|i: int| 0 <= i < self.characters@.len() implies #[trigger] self.characters@[i] == old(self).characters@[i]
                        || reset_for_turn(old(self).characters@[i], self.characters@[i], old(self).default_turn_actions) by {
                        if i != c.id {
                            assert(self.characters@[i] == before[i]);
                        }
                    }
                    if self.characters@[c.id as int].spec_is_dead() {
                        assert(old(self).turn_ended(*old(round), idx));
                    }
                }
            }
        }
    }

    /// Carries out `action` for `actor` and, when it was legal, spends one of the actor's
    /// action points (after the action's own effects). An illegal action changes nothing
    /// and spends nothing.
    pub fn apply_action(&mut self, actor: CharacterId, action: Action) -> (r: bool)
        requires
            old(self).wf(),
            actor.id < old(self).characters@.len(),
        ensures
            r == old(self).is_legal(actor, action),
            final(self).wf(),
            !r ==> *final(self) == *old(self),
            r ==> exists|mid: Battle<R>| {
                &&& #[trigger] old(self).handled(mid, actor, action)
                &&& final(self).characters@ == spend(mid.characters@, actor)
                &&& *final(self) == (Battle { characters: final(self).characters, ..mid })
            },
    {
        let legal = self.handle_action(actor, action);
        let ghost mid = *self;
        if legal {
            let left = self.characters[actor.id].remaining_actions;
            self.characters[actor.id].remaining_actions = left.saturating_sub(1);
            proof {
                assert(self.characters@ =~= spend(mid.characters@, actor));
                assert forall|i: int, j: int| 0 <= i < self.characters@.len() && 0 <= j < self.characters@[i].deck@.len()
                    implies (#[trigger] self.characters@[i].deck@[j]).id < self.cards@.len() by {
                }
                assert(old(self).handled(mid, actor, action));
            }
        }
        legal
    }

    /// The team whose id is `id`, if any.
    pub fn get_team_from_id(&self, id: TeamId) -> (r: Option<&Team>)
        ensures
            r matches Some(t) ==> t.id == id && exists|k: int| 0 <= k < self.teams@.len() && self.teams@[k] == *t,
            r is None ==> forall|k: int| 0 <= k < self.teams@.len() ==> (#[trigger] self.teams@[k]).id != id,
    {
        let mut k: usize = 0;
        while k < self.teams.len()
            invariant
                k <= self.teams@.len(),
                forall|j: int| 0 <= j < k ==> (#[trigger] self.teams@[j]).id != id,
            decreases self.teams@.len() - k,
        {
            if self.teams[k].id == id {
                return Some(&self.teams[k]);
            }
            k = k + 1;
        }
        None
    }

    /// `t` is the team of the first membership of `c`.
    pub open spec fn team_of(&self, c: CharacterId, t: TeamId) -> bool {
        exists|k: int| 0 <= k < self.members@.len() && #[trigger] self.members@[k] == (t, c)
            && forall|i: int| 0 <= i < k ==> (#[trigger] self.members@[i]).1 != c
    }

    /// The team that `character` plays for (its first membership), if it is a member.
    pub fn get_team_for_actor(&self, character: CharacterId) -> (r: Option<TeamId>)
        ensures
            r matches Some(t) ==> self.team_of(character, t),
            forall|t: TeamId| #[trigger] self.team_of(character, t) ==> r == Some(t),
            r is None ==> forall|k: int| 0 <= k < self.members@.len() ==> (#[trigger] self.members@[k]).1 != character,
    {
        let mut k: usize = 0;
        while k < self.members.len()
            invariant
                k <= self.members@.len(),
                forall|j: int| 0 <= j < k ==> (#[trigger] self.members@[j]).1 != character,
            decreases self.members@.len() - k,
        {
            if self.members[k].1 == character {
                proof {
                    assert(self.members@[k as int] == (self.members@[k as int].0, character));
                    assert forall|t: TeamId| #[trigger] self.team_of(character, t) implies t == self.members@[k as int].0 by {
                        let j = choose|j: int| 0 <= j < self.members@.len() && #[trigger] self.members@[j] == (t, character)
                            && forall|i: int| 0 <= i < j ==> (#[trigger] self.members@[i]).1 != character;
                        if j > k {
                            assert(self.members@[k as int].1 == character);
                        }
                    }
                }
                return Some(self.members[k].0);
            }
            k = k + 1;
        }
        None
    }

    /// The character with id `character`.
    pub fn get_character(&self, character: CharacterId) -> (r: &Character)
        requires
            character.id < self.characters@.len(),
        ensures
            *r == self.characters@[character.id as int],
    {
        &self.characters[character.id]
    }

    /// Logs that `team` won: its name, then " won.". A team id the battle does not know
    /// is logged as "Team" and its number.
    pub fn record_victory(&mut self, team: TeamId)
        requires
            old(self).wf(),
        ensures
            final(self).wf(),
            final(self).history@.len() == old(self).history@.len() + 1,
            final(self).history@.subrange(0, old(self).history@.len() as int) == old(self).history@,
            *final(self) == (Battle { history: final(self).history, ..*old(self) }),
            forall|k: int| 0 <= k < old(self).teams@.len() && (#[trigger] old(self).teams@[k]).id == team
                && (forall|j: int| 0 <= j < k ==> (#[trigger] old(self).teams@[j]).id != team)
                ==> victory_entry(final(self).history@.last(), old(self).teams@[k].name@),
    {
        let mut entry: BattleText = Vec::new();
        match self.find_team(team) {
            Some(k) => {
                entry.push(TemplateEntry::text(self.teams[k].name.as_str()));
            },
            None => {
                entry.push(TemplateEntry::text("Team "));
                entry.push(TemplateEntry::text(decimal_string(team.id).as_str()));
            },
        }
        entry.push(TemplateEntry::text(" won."));
        self.history.push(entry);
    }

    /// Where the first team with id `id` stands in `teams`.
    fn find_team(&self, id: TeamId) -> (r: Option<usize>)
        ensures
            r matches Some(k) ==> k < self.teams@.len() && self.teams@[k as int].id == id
                && forall|j: int| 0 <= j < k ==> (#[trigger] self.teams@[j]).id != id,
            r is None ==> forall|j: int| 0 <= j < self.teams@.len() ==> (#[trigger] self.teams@[j]).id != id,
    {
        let mut k: usize = 0;
        while k < self.teams.len()
            invariant
                k <= self.teams@.len(),
                forall|j: int| 0 <= j < k ==> (#[trigger] self.teams@[j]).id != id,
            decreases self.teams@.len() - k,
        {
            if self.teams[k].id == id {
                return Some(k);
            }
            k = k + 1;
        }
        None
    }
}

/// `c` is the character set up for team member `m`: its name, health, maximum health
/// (the health when none is given), hand size (the default when none is given) and deck,
/// an empty hand, no actions yet and no budget override.
pub open spec fn member_as_character(m: &battle_file::TeamMember, default_hand: u8, c: Character) -> bool {
    &&& c.name@ == m.name@
    &&& c.health.health == m.base_health
    &&& c.max_health.health == match m.max_health {
        Some(mx) => mx,
        None => m.base_health,
    }
    &&& c.hand_size == match m.hand_size {
        Some(n) => n,
        None => default_hand,
    }
    &&& c.deck@.len() == m.cards@.len()
    &&& forall|j: int| 0 <= j < c.deck@.len() ==> (#[trigger] c.deck@[j]).id == m.cards@[j]
    &&& c.hand@.len() == 0
    &&& c.remaining_actions == 0
    &&& c.turn_actions is None
}

/// Character `k` was set up for member `placed[k]` of the definition, with that member's
/// team; the characters follow the listing order; and every member listed before member
/// `m` of team `t` has a character.
pub open spec fn placed_facts(
    file: battle_file::Battle,
    placed: Seq<(int, int)>,
    chars: Seq<Character>,
    members: Seq<(TeamId, CharacterId)>,
    t: int,
    m: int,
) -> bool {
    &&& forall|k: int| 0 <= k < placed.len() ==> {
        &&& member_as_character(file.member(placed[k].0, placed[k].1), file.default_hand_size, #[trigger] chars[k])
        &&& members[k].0.id == placed[k].0
    }
    &&& forall|k1: int, k2: int| 0 <= k1 < k2 < placed.len() ==> battle_file::listed_before(
        (#[trigger] placed[k1]).0,
        placed[k1].1,
        (#[trigger] placed[k2]).0,
        placed[k2].1,
    )
    &&& forall|a: int, b: int| #[trigger] file.is_member(a, b) && battle_file::listed_before(a, b, t, m)
        ==> exists|k: int| 0 <= k < placed.len() && placed[k] == (a, b)
}

/// An amount as a range: a single number is the range from it to itself.
pub fn normalize_maybe_life_number_range(amount: &battle_file::MaybeU64Range) -> (r: U64Range)
    ensures
        match *amount {
            battle_file::MaybeU64Range::Absolute(v) => r == U64Range(v, v),
            battle_file::MaybeU64Range::Range(lo, hi) => r == U64Range(lo, hi),
        },
{
    match *amount {
        battle_file::MaybeU64Range::Absolute(value) => U64Range(value, value),
        battle_file::MaybeU64Range::Range(low, high) => U64Range(low, high),
    }
}

pub open spec fn converted_target(t: battle_file::Target) -> Target {
    match t {
        battle_file::Target::Me => Target::Me,
        battle_file::Target::Others => Target::Others,
        battle_file::Target::Any => Target::Any,
    }
}

fn map_target(t: battle_file::Target) -> (r: Target)
    ensures
        r == converted_target(t),
{
    match t {
        battle_file::Target::Me => Target::Me,
        battle_file::Target::Others => Target::Others,
        battle_file::Target::Any => Target::Any,
    }
}

fn convert_action(a: battle_file::CardAction) -> (r: CardAction)
    requires
        battle_file::amount_ok(a),
    ensures
        r.well_formed(),
        r.spec_target() == converted_target(battle_file::action_target(a)),
{
    match a {
        battle_file::CardAction::Damage { target, amount } => CardAction::Damage {
            target: map_target(target),
            amount: normalize_maybe_life_number_range(&amount),
        },
        battle_file::CardAction::Heal { target, amount } => CardAction::Heal {
            target: map_target(target),
            amount: normalize_maybe_life_number_range(&amount),
        },
        battle_file::CardAction::GainAction { target, amount } => {
            let n: u8 = match amount {
                battle_file::MaybeU64Range::Absolute(v) => v as u8,
                battle_file::MaybeU64Range::Range(_, _) => 0,
            };
            CardAction::GainAction { target: map_target(target), amount: n }
        },
        battle_file::CardAction::Move { target, amount } => CardAction::Move {
            target: map_target(target),
            amount: normalize_maybe_life_number_range(&amount),
        },
    }
}

fn convert_card(card: &battle_file::Card, index: usize) -> (r: Card)
    requires
        battle_file::card_ok(card, index as int),
    ensures
        r.id.id == index,
        r.well_formed(),
        r.actions@.len() == card.actions@.len(),
{
    let mut actions: Vec<CardAction> = Vec::new();
    let mut i: usize = 0;
    while i < card.actions.len()
        invariant
            battle_file::card_ok(card, index as int),
            i <= card.actions@.len(),
            actions@.len() == i,
            forall|k: int| 0 <= k < i ==> (#[trigger] actions@[k]).well_formed(),
        decreases card.actions@.len() - i,
    {
        actions.push(convert_action(card.actions[i]));
        i = i + 1;
    }
    Card {
        id: CardId::new(card.id),
        name: card.name.clone(),
        description: card.description.clone(),
        flavor: card.flavor.clone(),
        actions,
        range: match card.range {
            Some(r) => r,
            None => 0,
        },
    }
}

impl<R: RandomProvider> Battle<R> {
    /// Sets up a battle from its definition: one character per team member, numbered in
    /// the order of the listing and placed on its cell, the catalog's cards, one team per
    /// team of the definition, round zero and an empty log. `Ok` exactly when the
    /// definition can be played (`is_valid`).
    #[verifier::spinoff_prover]
    pub fn from_file(file: battle_file::Battle, random_provider: R) -> (r: Result<Battle<R>, battle_file::BattleFileError>)
        ensures
            r is Ok <==> file.is_valid(),
            r matches Ok(b) ==> {
                &&& b.wf()
                &&& b.round == 0
                &&& b.history@.len() == 0
                &&& b.default_turn_actions == 1
                &&& b.teams@.len() == file.teams@.len()
                &&& b.cards@.len() == file.cards@.len()
                &&& b.board.grid.spec_width() == file.board.width
                &&& b.board.grid.spec_height() == file.board.height
                &&& b.members@.len() == b.characters@.len()
                &&& forall|k: int| 0 <= k < b.members@.len() ==> {
                    &&& (#[trigger] b.members@[k]).1.id == k
                    &&& b.members@[k].0.id < file.teams@.len()
                    &&& b.board.holds(BoardItem::Character(b.members@[k].1))
                    &&& b.characters@[k].hand@.len() == 0
                }
                &&& exists|placed: Seq<(int, int)>| #[trigger] b.built_from(file, placed)
            },
    {
        match file.validate() {
            Err(e) => {
                return Err(e);
            },
            Ok(()) => {},
        }
        let mut cards: Vec<Card> = Vec::new();
        let mut i: usize = 0;
        while i < file.cards.len()
            invariant
                file.is_valid(),
                i <= file.cards@.len(),
                cards@.len() == i,
                forall|k: int| 0 <= k < i ==> (#[trigger] cards@[k]).id.id == k && cards@[k].well_formed(),
            decreases file.cards@.len() - i,
        {
            assert(battle_file::card_ok(&file.cards@[i as int], i as int));
            cards.push(convert_card(&file.cards[i], i));
            i = i + 1;
        }
        let mut board = Board::new(file.board.width, file.board.height);
        let mut characters: Vec<Character> = Vec::new();
        let mut members: Vec<(TeamId, CharacterId)> = Vec::new();
        let mut teams: Vec<Team> = Vec::new();
        let ghost mut placed: Seq<(int, int)> = Seq::empty();
        let mut t: usize = 0;
        while t < file.teams.len()
            invariant
                file.is_valid(),
                t <= file.teams@.len(),
                teams@.len() == t,
                cards@.len() == file.cards@.len(),
                forall|k: int| 0 <= k < cards@.len() ==> (#[trigger] cards@[k]).id.id == k && cards@[k].well_formed(),
                board.wf(),
                board.grid.spec_width() == file.board.width,
                board.grid.spec_height() == file.board.height,
                characters@.len() == members@.len(),
                placed.len() == members@.len(),
                forall|k: int| 0 <= k < characters@.len() ==> {
                    &&& (#[trigger] characters@[k]).id.id == k
                    &&& characters@[k].wf()
                    &&& characters@[k].hand@.len() == 0
                    &&& forall|j: int| 0 <= j < characters@[k].deck@.len() ==> (#[trigger] characters@[k].deck@[j]).id < cards@.len()
                },
                forall|k: int| 0 <= k < members@.len() ==> {
                    &&& (#[trigger] members@[k]).1.id == k
                    &&& members@[k].0.id < file.teams@.len()
                    &&& board.holds(BoardItem::Character(members@[k].1))
                },
                forall|k: int| 0 <= k < placed.len() ==> {
                    let (a, b) = #[trigger] placed[k];
                    &&& file.is_member(a, b)
                    &&& a < t
                    &&& board.grid.cell(file.member(a, b).location.0 as int, file.member(a, b).location.1 as int)
                        == Some(BoardItem::Character(CharacterId { id: k as usize }))
                },
                forall|x: int, y: int| #[trigger] board.grid.cell(x, y) matches Some(item) ==> {
                    &&& item matches BoardItem::Character(c)
                    &&& c.id < placed.len()
                    &&& file.member(placed[c.id as int].0, placed[c.id as int].1).location == (x as usize, y as usize)
                },
                placed_facts(file, placed, characters@, members@, t as int, 0),
                forall|i: int| 0 <= i < teams@.len() ==> (#[trigger] teams@[i]).name@ == file.teams@[i].name@ && teams@[i].id.id == i,
            decreases file.teams@.len() - t,
        {
            let team = &file.teams[t];
            teams.push(Team { id: TeamId::new(t as u64), name: team.name.clone() });
            let mut m: usize = 0;
            while m < team.members.len()
                invariant
                    file.is_valid(),
                    t < file.teams@.len(),
                    *team == file.teams@[t as int],
                    m <= team.members@.len(),
                    cards@.len() == file.cards@.len(),
                    board.wf(),
                    board.grid.spec_width() == file.board.width,
                    board.grid.spec_height() == file.board.height,
                    characters@.len() == members@.len(),
                    placed.len() == members@.len(),
                    forall|k: int| 0 <= k < characters@.len() ==> {
                        &&& (#[trigger] characters@[k]).id.id == k
                        &&& characters@[k].wf()
                        &&& characters@[k].hand@.len() == 0
                        &&& forall|j: int| 0 <= j < characters@[k].deck@.len() ==> (#[trigger] characters@[k].deck@[j]).id < cards@.len()
                    },
                    forall|k: int| 0 <= k < members@.len() ==> {
                        &&& (#[trigger] members@[k]).1.id == k
                        &&& members@[k].0.id < file.teams@.len()
                        &&& board.holds(BoardItem::Character(members@[k].1))
                    },
                    forall|k: int| 0 <= k < placed.len() ==> {
                        let (a, b) = #[trigger] placed[k];
                        &&& file.is_member(a, b)
                        &&& battle_file::listed_before(a, b, t as int, m as int)
                        &&& board.grid.cell(file.member(a, b).location.0 as int, file.member(a, b).location.1 as int)
                            == Some(BoardItem::Character(CharacterId { id: k as usize }))
                    },
                    forall|x: int, y: int| #[trigger] board.grid.cell(x, y) matches Some(item) ==> {
                        &&& item matches BoardItem::Character(c)
                        &&& c.id < placed.len()
                        &&& file.member(placed[c.id as int].0, placed[c.id as int].1).location == (x as usize, y as usize)
                    },
                    placed_facts(file, placed, characters@, members@, t as int, m as int),
                    teams@.len() == t + 1,
                    forall|i: int| 0 <= i < teams@.len() ==> (#[trigger] teams@[i]).name@ == file.teams@[i].name@ && teams@[i].id.id == i,
                decreases team.members@.len() - m,
            {
                let member = &team.members[m];
                assert(file.is_member(t as int, m as int));
                let id = CharacterId::new(characters.len());
                let mut deck: Vec<CardId> = Vec::new();
                let mut k: usize = 0;
                while k < member.cards.len()
                    invariant
                        file.is_valid(),
                        file.is_member(t as int, m as int),
                        *member == *file.member(t as int, m as int),
                        cards@.len() == file.cards@.len(),
                        k <= member.cards@.len(),
                        deck@.len() == k,
                        forall|j: int| 0 <= j < k ==> (#[trigger] deck@[j]).id < cards@.len() && deck@[j].id == member.cards@[j],
                    decreases member.cards@.len() - k,
                {
                    deck.push(CardId::new(member.cards[k]));
                    k = k + 1;
                }
                let max_health = match member.max_health {
                    Some(mx) => mx,
                    None => member.base_health,
                };
                characters.push(Character {
                    id,
                    name: member.name.clone(),
                    race: match member.race {
                        battle_file::Race::Human => CharacterRace::Human,
                    },
                    hand: Vec::new(),
                    deck,
                    health: Health::new(member.base_health),
                    max_health: Health::new(max_health),
                    remaining_actions: 0,
                    hand_size: match member.hand_size {
                        Some(n) => n,
                        None => file.default_hand_size,
                    },
                    turn_actions: None,
                });
                members.push((TeamId::new(t as u64), id));
                let (x, y) = member.location;
                proof {
                    if board.grid.cell(x as int, y as int) is Some {
                        let c = board.grid.cell(x as int, y as int)->0->Character_0;
                        let (a, b) = placed[c.id as int];
                        assert(file.member(a, b).location == file.member(t as int, m as int).location);
                        assert(false);
                    }
                }
                board.grid.set(x, y, BoardItem::Character(id));
                proof {
                    let ghost old_placed = placed;
                    let ghost kn = old_placed.len() as int;
                    assert(characters@[kn].name@ == file.member(t as int, m as int).name@);
                    assert(characters@[kn].deck@.len() == file.member(t as int, m as int).cards@.len());
                    assert(member_as_character(file.member(t as int, m as int), file.default_hand_size, characters@[kn]));
                    assert(members@[kn].0.id == t);
                    placed = placed.push((t as int, m as int));
                    assert forall|a: int, b: int| #[trigger] file.is_member(a, b) && battle_file::listed_before(a, b, t as int, m + 1)
                        implies exists|k: int| 0 <= k < placed.len() && placed[k] == (a, b) by {
                        if a == t && b == m {
                            assert(placed[old_placed.len() as int] == (a, b));
                        } else {
                            let k = choose|k: int| 0 <= k < old_placed.len() && old_placed[k] == (a, b);
                            assert(placed[k] == (a, b));
                        }
                    }
                    assert forall|k1: int, k2: int| 0 <= k1 < k2 < placed.len() implies battle_file::listed_before(
                        (#[trigger] placed[k1]).0, placed[k1].1, (#[trigger] placed[k2]).0, placed[k2].1) by {
                        if k2 < old_placed.len() {
                            assert(placed[k1] == old_placed[k1] && placed[k2] == old_placed[k2]);
                        } else {
                            assert(placed[k1] == old_placed[k1]);
                        }
                    }
                    assert forall|k: int| 0 <= k < placed.len() implies {
                        &&& member_as_character(file.member(placed[k].0, placed[k].1), file.default_hand_size, #[trigger] characters@[k])
                        &&& members@[k].0.id == placed[k].0
                    } by {
                        if k < old_placed.len() {
                            assert(placed[k] == old_placed[k]);
                        }
                    }
                    assert(board.grid.cell(x as int, y as int) == Some(BoardItem::Character(id)));
                    assert forall|k: int| 0 <= k < members@.len() implies board.holds(BoardItem::Character((#[trigger] members@[k]).1)) by {
                        if k < members@.len() - 1 {
                            let (a, b) = placed[k];
                            assert(board.grid.cell(file.member(a, b).location.0 as int, file.member(a, b).location.1 as int)
                                == Some(BoardItem::Character(CharacterId { id: k as usize })));
                        } else {
                            assert(board.grid.cell(x as int, y as int) == Some(BoardItem::Character(id)));
                        }
                    }
                }
                m = m + 1;
            }
            proof {
                assert forall|a: int, b: int| #[trigger] file.is_member(a, b) && battle_file::listed_before(a, b, t + 1, 0)
                    implies exists|k: int| 0 <= k < placed.len() && placed[k] == (a, b) by {
                    assert(battle_file::listed_before(a, b, t as int, team.members@.len() as int));
                }
            }
            t = t + 1;
        }
        let battle_file::Battle { introduction, .. } = file;
        let b = Battle {
            members,
            characters,
            introduction,
            teams,
            history: Vec::new(),
            random_provider,
            round: 0,
            cards,
            default_turn_actions: 1,
            board,
        };
        proof {
            assert(b.built_from(file, placed));
            assert forall|c: CharacterId| c.id < b.characters@.len() implies #[trigger] b.board.char_placed(c) by {
                let k = c.id as int;
                let loc = file.member(placed[k].0, placed[k].1).location;
                assert(b.board.grid.cell(loc.0 as int, loc.1 as int) == Some(BoardItem::Character(CharacterId { id: k as usize })));
                assert(CharacterId { id: k as usize } == c);
            }
        }
        Ok(b)
    }
}

} // verus!
