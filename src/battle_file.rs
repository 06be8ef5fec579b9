use vstd::prelude::*;

use crate::grid::Grid;

verus! {

pub type LifeNumber = u64;

pub type CardId = usize;

pub type HandSize = u8;

/// The battle definition as written down, before it is checked.
pub struct Battle {
    pub title: String,
    pub description: String,
    pub board: Board,
    pub introduction: Option<StoryCard>,
    pub default_hand_size: HandSize,
    pub cards: Vec<Card>,
    pub teams: Vec<Team>,
}

pub type StoryCard = Vec<StoryCardEntry>;

/// One block of the narrative introduction.
pub enum StoryCardEntry {
    H1(String),
    P(String),
}

#[derive(Debug, PartialEq, Eq, Structural, Clone, Copy)]
pub struct Board {
    pub width: usize,
    pub height: usize,
}

pub struct Team {
    pub name: String,
    pub members: Vec<TeamMember>,
}

pub struct TeamMember {
    pub name: String,
    pub race: Race,
    pub base_health: LifeNumber,
    pub max_health: Option<LifeNumber>,
    pub cards: Vec<CardId>,
    pub hand_size: Option<HandSize>,
    pub is_player: bool,
    pub image: Option<String>,
    pub location: (usize, usize),
}

#[derive(Debug, PartialEq, Eq, Structural, Clone, Copy)]
pub enum Race {
    Human,
}

#[derive(Debug, PartialEq, Eq, Structural, Clone, Copy)]
pub enum Target {
    Me,
    Others,
    Any,
}

/// An amount written either as one number or as an inclusive range.
#[derive(Debug, PartialEq, Eq, Structural, Clone, Copy)]
pub enum MaybeU64Range {
    Range(u64, u64),
    Absolute(u64),
}

#[allow(inconsistent_fields)]
#[derive(Debug, PartialEq, Eq, Structural, Clone, Copy)]
pub enum CardAction {
    Damage { target: Target, amount: MaybeU64Range },
    Heal { target: Target, amount: MaybeU64Range },
    GainAction { target: Target, amount: MaybeU64Range },
    Move { target: Target, amount: MaybeU64Range },
}

pub struct Card {
    pub id: CardId,
    pub name: String,
    pub description: String,
    pub flavor: Option<String>,
    pub actions: Vec<CardAction>,
    pub range: Option<u64>,
}

/// Why a battle definition was refused.
#[derive(Debug, PartialEq, Eq, Structural, Clone, Copy)]
pub enum BattleFileError {
    /// The board's width and height added together do not fit in a `usize`.
    BoardTooLarge,
    /// The card at `index` of the catalog says its id is `id`.
    CardIdMismatch { id: usize, index: usize },
    /// Card `id` can be aimed at others but declares no range.
    MissingRange { id: usize },
    /// Card `id` has an amount whose range is empty, or an action gain that is not a
    /// single number of at most 255.
    InvalidAmount { id: usize },
    /// More than one team member is marked as the player.
    MultiplePlayers,
    /// A team member stands outside the board.
    InvalidPosition { x: usize, y: usize },
    /// Two team members stand on the same cell.
    DuplicatePosition { x: usize, y: usize },
    /// A team member owns a card that is not in the catalog.
    UnknownCard { id: usize },
    /// A team member starts with more health than its maximum.
    HealthAboveMax,
}

pub open spec fn action_target(a: CardAction) -> Target {
    match a {
        CardAction::Damage { target, .. } => target,
        CardAction::Heal { target, .. } => target,
        CardAction::GainAction { target, .. } => target,
        CardAction::Move { target, .. } => target,
    }
}

pub open spec fn amount_ok(a: CardAction) -> bool {
    match a {
        CardAction::GainAction { amount, .. } => amount matches MaybeU64Range::Absolute(v) && v <= 255,
        CardAction::Damage { amount, .. } | CardAction::Heal { amount, .. } | CardAction::Move { amount, .. } =>
            !(amount matches MaybeU64Range::Range(lo, hi) && lo > hi),
    }
}

pub open spec fn card_ok(c: &Card, index: int) -> bool {
    &&& c.id == index
    &&& forall|i: int| 0 <= i < c.actions@.len() ==> action_target(#[trigger] c.actions@[i]) != Target::Me ==> c.range is Some
    &&& forall|i: int| 0 <= i < c.actions@.len() ==> amount_ok(#[trigger] c.actions@[i])
}

pub open spec fn member_ok(m: &TeamMember, n_cards: int, board: Board) -> bool {
    &&& m.location.0 < board.width
    &&& m.location.1 < board.height
    &&& forall|i: int| 0 <= i < m.cards@.len() ==> #[trigger] m.cards@[i] < n_cards
    &&& m.max_health matches Some(mx) ==> m.base_health <= mx
}

/// Member `m` of team `t` comes before member `n` of team `u` in the listing.
pub open spec fn listed_before(t: int, m: int, u: int, n: int) -> bool {
    t < u || (t == u && m < n)
}

impl Battle {
    pub open spec fn member(&self, t: int, m: int) -> &TeamMember {
        &self.teams@[t].members@[m]
    }

    pub open spec fn is_member(&self, t: int, m: int) -> bool {
        0 <= t < self.teams@.len() && 0 <= m < self.teams@[t].members@.len()
    }

    /// Every second player is listed after member `n` of team `u`.
    pub open spec fn second_player_after(&self, u: int, n: int) -> bool {
        forall|a: int, b: int, c: int, d: int| #![trigger self.member(a, b), self.member(c, d)]
            self.is_member(a, b) && self.is_member(c, d) && listed_before(a, b, c, d)
                && self.member(a, b).is_player && self.member(c, d).is_player ==> listed_before(u, n, c, d)
    }

    /// The definition can be played: the board fits, card ids match their place in the
    /// catalog, every card that reaches others has a range, every amount can be drawn,
    /// at most one member is the player, and members stand on distinct cells of the board,
    /// own only cards of the catalog and start with no more health than their maximum.
    pub open spec fn is_valid(&self) -> bool {
        &&& self.board.width + self.board.height <= usize::MAX
        &&& forall|i: int| 0 <= i < self.cards@.len() ==> card_ok(#[trigger] &self.cards@[i], i)
        &&& forall|t: int, m: int| #[trigger] self.is_member(t, m) ==> member_ok(self.member(t, m), self.cards@.len() as int, self.board)
        &&& forall|t: int, m: int, u: int, n: int| #![trigger self.member(t, m), self.member(u, n)]
            self.is_member(t, m) && self.is_member(u, n) && listed_before(t, m, u, n)
                ==> self.member(t, m).location != self.member(u, n).location
                && !(self.member(t, m).is_player && self.member(u, n).is_player)
    }

    /// Checks the definition; `Ok` exactly when it can be played.
    pub fn validate(&self) -> (r: Result<(), BattleFileError>)
        ensures
            r is Ok <==> self.is_valid(),
            r matches Err(BattleFileError::BoardTooLarge) ==> self.board.width + self.board.height > usize::MAX,
            r matches Err(BattleFileError::CardIdMismatch { id, index }) ==> index < self.cards@.len() && self.cards@[index as int].id == id && id != index,
            r matches Err(BattleFileError::MultiplePlayers) ==> exists|t: int, m: int, u: int, n: int|
                #![trigger self.member(t, m), self.member(u, n)]
                self.is_member(t, m) && self.is_member(u, n) && listed_before(t, m, u, n)
                    && self.member(t, m).is_player && self.member(u, n).is_player,
            r matches Err(BattleFileError::DuplicatePosition { x, y }) ==> exists|t: int, m: int, u: int, n: int|
                #![trigger self.member(t, m), self.member(u, n)]
                self.is_member(t, m) && self.is_member(u, n) && listed_before(t, m, u, n)
                    && self.member(t, m).location == (x, y) && self.member(u, n).location == (x, y)
                    && self.second_player_after(u, n),
            r matches Err(BattleFileError::InvalidPosition { x, y }) ==> exists|t: int, m: int|
                #[trigger] self.is_member(t, m) && self.member(t, m).location == (x, y)
                    && (x >= self.board.width || y >= self.board.height),
            r matches Err(BattleFileError::MissingRange { id }) ==> id < self.cards@.len() && exists|j: int|
                0 <= j < self.cards@[id as int].actions@.len() && action_target(#[trigger] self.cards@[id as int].actions@[j]) != Target::Me
                    && self.cards@[id as int].range is None,
            r matches Err(BattleFileError::InvalidAmount { id }) ==> id < self.cards@.len() && exists|j: int|
                0 <= j < self.cards@[id as int].actions@.len() && !amount_ok(#[trigger] self.cards@[id as int].actions@[j]),
            r matches Err(BattleFileError::UnknownCard { id }) ==> id >= self.cards@.len() && exists|t: int, m: int, k: int|
                #![trigger self.member(t, m).cards@[k]] self.is_member(t, m) && 0 <= k < self.member(t, m).cards@.len() && self.member(t, m).cards@[k] == id,
            r matches Err(BattleFileError::HealthAboveMax) ==> exists|t: int, m: int|
                #[trigger] self.is_member(t, m) && (self.member(t, m).max_health matches Some(mx) && self.member(t, m).base_health > mx),
    {
        if self.board.width > usize::MAX - self.board.height {
            return Err(BattleFileError::BoardTooLarge);
        }
        let n_cards = self.cards.len();
        let mut i: usize = 0;
        while i < n_cards
            invariant
                n_cards == self.cards@.len(),
                i <= n_cards,
                forall|k: int| 0 <= k < i ==> card_ok(#[trigger] &self.cards@[k], k),
            decreases n_cards - i,
        {
            let card = &self.cards[i];
            if card.id != i {
                return Err(BattleFileError::CardIdMismatch { id: card.id, index: i });
            }
            let mut j: usize = 0;
            while j < card.actions.len()
                invariant
                    i < n_cards,
                    n_cards == self.cards@.len(),
                    *card == self.cards@[i as int],
                    card.id == i,
                    j <= card.actions@.len(),
                    forall|k: int| 0 <= k < j ==> action_target(#[trigger] card.actions@[k]) != Target::Me ==> card.range is Some,
                    forall|k: int| 0 <= k < j ==> amount_ok(#[trigger] card.actions@[k]),
                decreases card.actions@.len() - j,
            {
                let action = card.actions[j];
                let (target, amount) = match action {
                    CardAction::Damage { target, amount } => (target, amount),
                    CardAction::Heal { target, amount } => (target, amount),
                    CardAction::GainAction { target, amount } => (target, amount),
                    CardAction::Move { target, amount } => (target, amount),
                };
                if target != Target::Me && card.range.is_none() {
                    assert(action_target(card.actions@[j as int]) != Target::Me);
                    assert(!card_ok(&self.cards@[i as int], i as int));
                    return Err(BattleFileError::MissingRange { id: card.id });
                }
                let amount_fits = match action {
                    CardAction::GainAction { .. } => match amount {
                        MaybeU64Range::Absolute(v) => v <= 255,
                        MaybeU64Range::Range(_, _) => false,
                    },
                    _ => match amount {
                        MaybeU64Range::Range(lo, hi) => lo <= hi,
                        MaybeU64Range::Absolute(_) => true,
                    },
                };
                if !amount_fits {
                    assert(!amount_ok(card.actions@[j as int]));
                    assert(!card_ok(&self.cards@[i as int], i as int));
                    return Err(BattleFileError::InvalidAmount { id: card.id });
                }
                j = j + 1;
            }
            i = i + 1;
        }
        self.check_members()
    }

    fn check_members(&self) -> (r: Result<(), BattleFileError>)
        requires
            self.board.width + self.board.height <= usize::MAX,
            forall|i: int| 0 <= i < self.cards@.len() ==> card_ok(#[trigger] &self.cards@[i], i),
        ensures
            r is Ok <==> self.is_valid(),
            r matches Err(BattleFileError::BoardTooLarge) ==> false,
            r matches Err(BattleFileError::CardIdMismatch { .. }) ==> false,
            r matches Err(BattleFileError::MultiplePlayers) ==> exists|t: int, m: int, u: int, n: int|
                #![trigger self.member(t, m), self.member(u, n)]
                self.is_member(t, m) && self.is_member(u, n) && listed_before(t, m, u, n)
                    && self.member(t, m).is_player && self.member(u, n).is_player,
            r matches Err(BattleFileError::DuplicatePosition { x, y }) ==> exists|t: int, m: int, u: int, n: int|
                #![trigger self.member(t, m), self.member(u, n)]
                self.is_member(t, m) && self.is_member(u, n) && listed_before(t, m, u, n)
                    && self.member(t, m).location == (x, y) && self.member(u, n).location == (x, y)
                    && self.second_player_after(u, n),
            r matches Err(BattleFileError::InvalidPosition { x, y }) ==> exists|t: int, m: int|
                #[trigger] self.is_member(t, m) && self.member(t, m).location == (x, y)
                    && (x >= self.board.width || y >= self.board.height),
            r matches Err(BattleFileError::MissingRange { .. }) ==> false,
            r matches Err(BattleFileError::InvalidAmount { .. }) ==> false,
            r matches Err(BattleFileError::UnknownCard { id }) ==> id >= self.cards@.len() && exists|t: int, m: int, k: int|
                #![trigger self.member(t, m).cards@[k]] self.is_member(t, m) && 0 <= k < self.member(t, m).cards@.len() && self.member(t, m).cards@[k] == id,
            r matches Err(BattleFileError::HealthAboveMax) ==> exists|t: int, m: int|
                #[trigger] self.is_member(t, m) && (self.member(t, m).max_health matches Some(mx) && self.member(t, m).base_health > mx),
    {
        let w = self.board.width;
        let h = self.board.height;
        let mut seen: Grid<(usize, usize)> = Grid::new(w, h);
        let mut player: Option<(usize, usize)> = None;
        let mut t: usize = 0;
        while t < self.teams.len()
            invariant
                seen.wf(),
                seen.spec_width() == w,
                seen.spec_height() == h,
                w == self.board.width,
                h == self.board.height,
                t <= self.teams@.len(),
                forall|a: int, b: int| #[trigger] self.is_member(a, b) && a < t ==> member_ok(self.member(a, b), self.cards@.len() as int, self.board),
                forall|a: int, b: int, c: int, d: int| #![trigger self.member(a, b), self.member(c, d)]
                    self.is_member(a, b) && self.is_member(c, d) && listed_before(a, b, c, d) && c < t
                        ==> self.member(a, b).location != self.member(c, d).location
                        && !(self.member(a, b).is_player && self.member(c, d).is_player),
                forall|x: int, y: int| #[trigger] seen.cell(x, y) matches Some((a, b)) ==> {
                    &&& self.is_member(a as int, b as int)
                    &&& a < t
                    &&& self.member(a as int, b as int).location == (x as usize, y as usize)
                    &&& 0 <= x && 0 <= y
                },
                forall|a: int, b: int| #[trigger] self.is_member(a, b) && a < t ==> {
                    let (x, y) = self.member(a, b).location;
                    seen.cell(x as int, y as int) == Some((a as usize, b as usize))
                },
                player matches Some((a, b)) ==> self.is_member(a as int, b as int) && a < t && self.member(a as int, b as int).is_player,
                player is None ==> forall|a: int, b: int| #[trigger] self.is_member(a, b) && a < t ==> !self.member(a, b).is_player,
            decreases self.teams@.len() - t,
        {
            let team = &self.teams[t];
            let mut m: usize = 0;
            while m < team.members.len()
                invariant
                    seen.wf(),
                    seen.spec_width() == w,
                    seen.spec_height() == h,
                    w == self.board.width,
                    h == self.board.height,
                    t < self.teams@.len(),
                    *team == self.teams@[t as int],
                    m <= team.members@.len(),
                    forall|a: int, b: int| #[trigger] self.is_member(a, b) && listed_before(a, b, t as int, m as int)
                        ==> member_ok(self.member(a, b), self.cards@.len() as int, self.board),
                    forall|a: int, b: int, c: int, d: int| #![trigger self.member(a, b), self.member(c, d)]
                        self.is_member(a, b) && self.is_member(c, d) && listed_before(a, b, c, d) && listed_before(c, d, t as int, m as int)
                            ==> self.member(a, b).location != self.member(c, d).location
                            && !(self.member(a, b).is_player && self.member(c, d).is_player),
                    forall|x: int, y: int| #[trigger] seen.cell(x, y) matches Some((a, b)) ==> {
                        &&& self.is_member(a as int, b as int)
                        &&& listed_before(a as int, b as int, t as int, m as int)
                        &&& self.member(a as int, b as int).location == (x as usize, y as usize)
                        &&& 0 <= x && 0 <= y
                    },
                    forall|a: int, b: int| #[trigger] self.is_member(a, b) && listed_before(a, b, t as int, m as int) ==> {
                        let (x, y) = self.member(a, b).location;
                        seen.cell(x as int, y as int) == Some((a as usize, b as usize))
                    },
                    player matches Some((a, b)) ==> self.is_member(a as int, b as int) && listed_before(a as int, b as int, t as int, m as int)
                        && self.member(a as int, b as int).is_player,
                    player is None ==> forall|a: int, b: int| #[trigger] self.is_member(a, b) && listed_before(a, b, t as int, m as int)
                        ==> !self.member(a, b).is_player,
                decreases team.members@.len() - m,
            {
                let member = &team.members[m];
                assert(self.is_member(t as int, m as int));
                let (x, y) = member.location;
                let ghost player_before = player;
                if member.is_player {
                    match player {
                        Some((a, b)) => {
                            assert(self.is_member(a as int, b as int));
                            return Err(BattleFileError::MultiplePlayers);
                        },
                        None => {
                            player = Some((t, m));
                        },
                    }
                }
                if !seen.is_valid(x, y) {
                    return Err(BattleFileError::InvalidPosition { x, y });
                }
                match seen.get(x, y) {
                    Some(occupant) => {
                        let (a, b) = *occupant;
                        assert(self.is_member(a as int, b as int));
                        assert forall|a2: int, b2: int, c: int, d: int| #![trigger self.member(a2, b2), self.member(c, d)]
                            self.is_member(a2, b2) && self.is_member(c, d) && listed_before(a2, b2, c, d)
                                && self.member(a2, b2).is_player && self.member(c, d).is_player
                                implies listed_before(t as int, m as int, c, d) by {
                            if c == t && d == m {
                                assert(player_before is None);
                            }
                        }
                        assert(self.second_player_after(t as int, m as int));
                        return Err(BattleFileError::DuplicatePosition { x, y });
                    },
                    None => {},
                }
                let mut k: usize = 0;
                while k < member.cards.len()
                    invariant
                        *member == *self.member(t as int, m as int),
                        self.is_member(t as int, m as int),
                        k <= member.cards@.len(),
                        forall|j: int| 0 <= j < k ==> #[trigger] member.cards@[j] < self.cards@.len(),
                    decreases member.cards@.len() - k,
                {
                    if member.cards[k] >= self.cards.len() {
                        assert(!member_ok(self.member(t as int, m as int), self.cards@.len() as int, self.board));
                        assert(self.is_member(t as int, m as int));
                        assert(self.member(t as int, m as int).cards@[k as int] == member.cards@[k as int]);
                        return Err(BattleFileError::UnknownCard { id: member.cards[k] });
                    }
                    k = k + 1;
                }
                match member.max_health {
                    Some(mx) => {
                        if member.base_health > mx {
                            assert(self.is_member(t as int, m as int));
                            return Err(BattleFileError::HealthAboveMax);
                        }
                    },
                    None => {},
                }
                seen.set(x, y, (t, m));
                m = m + 1;
            }
            t = t + 1;
        }
        Ok(())
    }
}

} // verus!
