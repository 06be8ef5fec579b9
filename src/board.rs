use vstd::prelude::*;

use crate::card::CardId;
use crate::character::CharacterId;
use crate::grid::{column_major_before, manhattan, row_major_before, surrounding, Grid, GridDimension, GridLocation};

verus! {

/// What a board cell can hold.
#[derive(Debug, PartialEq, Eq, Structural, Clone, Copy)]
pub enum BoardItem {
    Character(CharacterId),
    Card(CardId),
}

/// A step onto a cell holding `v` is allowed on the way to `dest`: cards can be stepped on,
/// characters only when it is `dest` itself.
pub open spec fn open_towards(dest: BoardItem, v: BoardItem) -> bool {
    v is Card || v == dest
}

/// The battlefield: a grid of board items.
pub struct Board {
    pub grid: Grid<BoardItem>,
}

impl Board {
    pub open spec fn wf(&self) -> bool {
        &&& self.grid.wf()
        &&& self.grid.spec_width() + self.grid.spec_height() <= usize::MAX
    }

    /// `(x, y)` is the first cell in row-major order that holds `item`.
    pub open spec fn first_at(&self, item: BoardItem, x: int, y: int) -> bool {
        &&& self.grid.cell(x, y) == Some(item)
        &&& forall|a: int, b: int| row_major_before(a, b, x, y) ==> #[trigger] self.grid.cell(a, b) != Some(item)
    }

    /// `ids[i]` stands on `locs[i]`, within `range` of `location`, and the cells come column
    /// by column, top to bottom within a column.
    pub open spec fn listed_at(&self, location: GridLocation, range: int, ids: Seq<CharacterId>, locs: Seq<GridLocation>) -> bool {
        &&& locs.len() == ids.len()
        &&& forall|i: int| 0 <= i < locs.len() ==> location.dist(#[trigger] locs[i]) <= range
            && self.grid.cell(locs[i].x as int, locs[i].y as int) == Some(BoardItem::Character(ids[i]))
        &&& forall|i: int, j: int| 0 <= i < j < locs.len() ==> column_major_before(#[trigger] locs[i], #[trigger] locs[j])
    }

    /// Character `c` stands within Manhattan distance `range` of `location`.
    pub open spec fn stands_within(&self, location: GridLocation, range: int, c: CharacterId) -> bool {
        exists|l: GridLocation| location.dist(l) <= range && #[trigger] self.grid.cell(l.x as int, l.y as int) == Some(BoardItem::Character(c))
    }

    /// `a` and `b` both stand on the board, at most `range` apart.
    pub open spec fn within(&self, a: BoardItem, b: BoardItem, range: int) -> bool {
        exists|ax: int, ay: int, bx: int, by: int|
            self.first_at(a, ax, ay) && self.first_at(b, bx, by) && #[trigger] manhattan(ax, ay, bx, by) <= range
    }

    pub proof fn lemma_first_at_unique(&self, item: BoardItem, x1: int, y1: int, x2: int, y2: int)
        requires
            self.first_at(item, x1, y1),
            self.first_at(item, x2, y2),
        ensures
            x1 == x2,
            y1 == y2,
    {
        if row_major_before(x1, y1, x2, y2) {
            assert(self.grid.cell(x1, y1) != Some(item));
        } else if row_major_before(x2, y2, x1, y1) {
            assert(self.grid.cell(x2, y2) != Some(item));
        }
    }

    /// No two cells hold `item`.
    pub open spec fn stands_once(&self, item: BoardItem) -> bool {
        forall|x1: int, y1: int, x2: int, y2: int| #![trigger self.grid.cell(x1, y1), self.grid.cell(x2, y2)]
            self.grid.cell(x1, y1) == Some(item) && self.grid.cell(x2, y2) == Some(item) ==> x1 == x2 && y1 == y2
    }

    /// Character `c` stands on exactly one cell.
    pub open spec fn char_placed(&self, c: CharacterId) -> bool {
        self.holds(BoardItem::Character(c)) && self.stands_once(BoardItem::Character(c))
    }

    /// Each of the characters numbered below `n` stands on exactly one cell.
    pub open spec fn placed_once(&self, n: int) -> bool {
        forall|c: CharacterId| c.id < n ==> #[trigger] self.char_placed(c)
    }

    /// Moving character `c` from its cell `(x0, y0)` to `(x1, y1)`, which held no
    /// character, keeps every character on exactly one cell.
    pub proof fn lemma_move_keeps_placement(&self, f: Board, c: CharacterId, x0: int, y0: int, x1: int, y1: int, n: int)
        requires
            self.placed_once(n),
            c.id < n,
            self.grid.cell(x0, y0) == Some(BoardItem::Character(c)),
            !(self.grid.cell(x1, y1) matches Some(BoardItem::Character(_))),
            !(x0 == x1 && y0 == y1),
            f.grid.cell(x1, y1) == Some(BoardItem::Character(c)),
            f.grid.cell(x0, y0) is None,
            forall|a: int, b: int| !(a == x0 && b == y0) && !(a == x1 && b == y1) ==> #[trigger] f.grid.cell(a, b) == self.grid.cell(a, b),
        ensures
            f.placed_once(n),
    {
        assert forall|d: CharacterId| d.id < n implies #[trigger] f.char_placed(d) by {
            assert(self.char_placed(d));
            if d == c {
                assert(f.grid.cell(x1, y1) == Some(BoardItem::Character(d)));
                assert forall|a1: int, b1: int, a2: int, b2: int| #![trigger f.grid.cell(a1, b1), f.grid.cell(a2, b2)]
                    f.grid.cell(a1, b1) == Some(BoardItem::Character(d)) && f.grid.cell(a2, b2) == Some(BoardItem::Character(d))
                    implies a1 == a2 && b1 == b2 by {
                    if !(a1 == x1 && b1 == y1) {
                        assert(self.grid.cell(a1, b1) == Some(BoardItem::Character(d)));
                    }
                    if !(a2 == x1 && b2 == y1) {
                        assert(self.grid.cell(a2, b2) == Some(BoardItem::Character(d)));
                    }
                }
            } else {
                let (px, py) = choose|px: int, py: int| #[trigger] self.grid.cell(px, py) == Some(BoardItem::Character(d));
                assert(f.grid.cell(px, py) == Some(BoardItem::Character(d)));
                assert forall|a1: int, b1: int, a2: int, b2: int| #![trigger f.grid.cell(a1, b1), f.grid.cell(a2, b2)]
                    f.grid.cell(a1, b1) == Some(BoardItem::Character(d)) && f.grid.cell(a2, b2) == Some(BoardItem::Character(d))
                    implies a1 == a2 && b1 == b2 by {
                    assert(self.grid.cell(a1, b1) == Some(BoardItem::Character(d)));
                    assert(self.grid.cell(a2, b2) == Some(BoardItem::Character(d)));
                }
            }
        }
    }

    pub open spec fn holds(&self, item: BoardItem) -> bool {
        exists|x: int, y: int| #[trigger] self.grid.cell(x, y) == Some(item)
    }

    /// `p` is a walk of single orthogonal steps inside the board that only enters empty
    /// cells, cells holding a card, or the cell of `dest`.
    pub open spec fn is_route(&self, p: Seq<GridLocation>, dest: BoardItem) -> bool {
        &&& p.len() >= 1
        &&& forall|i: int| 0 <= i < p.len() ==> self.grid.in_bounds(#[trigger] p[i].x as int, p[i].y as int)
        &&& forall|i: int| 0 <= i < p.len() - 1 ==> (#[trigger] p[i]).dist(p[i + 1]) == 1
        &&& forall|i: int|
            1 <= i < p.len() ==> match #[trigger] self.grid.cell(p[i].x as int, p[i].y as int) {
                Some(v) => open_towards(dest, v),
                None => true,
            }
    }

    pub fn new(width: GridDimension, height: GridDimension) -> (r: Self)
        requires
            width + height <= usize::MAX,
        ensures
            r.wf(),
            r.grid.spec_width() == width,
            r.grid.spec_height() == height,
            forall|x: int, y: int| #[trigger] r.grid.cell(x, y) is None,
    {
        Board { grid: Grid::new(width, height) }
    }

    /// Where `board_item` stands: the first cell in row-major order that holds it.
    pub fn find(&self, board_item: &BoardItem) -> (r: Option<(GridDimension, GridDimension)>)
        requires
            self.wf(),
        ensures
            match r {
                Some((x, y)) => self.first_at(*board_item, x as int, y as int),
                None => !self.holds(*board_item),
            },
    {
        let target = *board_item;
        let r = self.grid.find(|entry: &BoardItem| -> (m: bool)
            ensures
                m == (*entry == target),
            { *entry == target });
        proof {
            match r {
                Some((x, y)) => {
                    assert forall|a: int, b: int| row_major_before(a, b, x as int, y as int) implies #[trigger] self.grid.cell(a, b) != Some(target) by {
                        if self.grid.cell(a, b) is Some {}
                    }
                },
                None => {
                    assert forall|a: int, b: int| #[trigger] self.grid.cell(a, b) != Some(target) by {
                        if self.grid.cell(a, b) is Some {}
                    }
                },
            }
        }
        r
    }

    /// The Manhattan distance between where `a` and `b` stand; `None` if either is absent.
    pub fn distance(&self, a: BoardItem, b: BoardItem) -> (r: Option<u64>)
        requires
            self.wf(),
        ensures
            r is None <==> !self.holds(a) || !self.holds(b),
            r matches Some(d) ==> exists|ax: int, ay: int, bx: int, by: int|
                self.first_at(a, ax, ay) && self.first_at(b, bx, by) && d == #[trigger] manhattan(ax, ay, bx, by),
    {
        match (self.find(&a), self.find(&b)) {
            (Some((ax, ay)), Some((bx, by))) => {
                let dx: u64 = if ax >= bx { (ax - bx) as u64 } else { (bx - ax) as u64 };
                let dy: u64 = if ay >= by { (ay - by) as u64 } else { (by - ay) as u64 };
                assert(manhattan(ax as int, ay as int, bx as int, by as int) == dx + dy);
                Some(dx + dy)
            },
            _ => None,
        }
    }

    /// Like `distance`, for items known to stand on the board.
    pub fn require_distance(&self, a: BoardItem, b: BoardItem) -> (r: u64)
        requires
            self.wf(),
            self.holds(a),
            self.holds(b),
        ensures
            exists|ax: int, ay: int, bx: int, by: int|
                self.first_at(a, ax, ay) && self.first_at(b, bx, by) && r == #[trigger] manhattan(ax, ay, bx, by),
    {
        match self.distance(a, b) {
            Some(d) => d,
            None => 0,
        }
    }

    /// Some route towards `dest` of `n` steps (`n + 1` cells) leads from `from` to `to`.
    pub open spec fn reaches_from(&self, from: GridLocation, to: GridLocation, dest: BoardItem, n: int) -> bool {
        exists|q: Seq<GridLocation>| #[trigger] self.is_route(q, dest) && q[0] == from && q.last() == to && q.len() == n + 1
    }

    /// Routes towards `dest` from `from` reach `cur` in `n` steps and no fewer, and stepping
    /// back from `cur`, `prev` is the first neighbour of `cur` in the order left, up, right,
    /// down that they reach in `n - 1` steps.
    pub open spec fn steps_back(&self, from: GridLocation, dest: BoardItem, cur: GridLocation, prev: GridLocation, n: int) -> bool {
        let s = surrounding(cur, self.grid.spec_width() as int, self.grid.spec_height() as int);
        &&& self.reaches_from(from, cur, dest, n)
        &&& forall|m: int| #[trigger] self.reaches_from(from, cur, dest, m) ==> n <= m
        &&& exists|j: int| {
            &&& 0 <= j < s.len()
            &&& s[j] == prev
            &&& self.reaches_from(from, prev, dest, n - 1)
            &&& forall|k: int| 0 <= k < j ==> !self.reaches_from(from, #[trigger] s[k], dest, n - 1)
        }
    }

    /// `p` is the route `shortest_path` picks from where `a` stands to where `b` stands: a
    /// shortest one, following the step-back rule.
    pub open spec fn chosen_route(&self, p: Seq<GridLocation>, a: BoardItem, b: BoardItem) -> bool {
        &&& self.route_between(p, a, b)
        &&& forall|q: Seq<GridLocation>| #[trigger] self.route_between(q, a, b) ==> p.len() <= q.len()
        &&& forall|i: int| 1 <= i < p.len() ==> self.steps_back(p[0], b, #[trigger] p[i], p[i - 1], i)
    }

    /// `f` is this board after character `mover` took one step towards `toward`: when the
    /// chosen route between them has more than two cells, `mover` leaves its cell for the
    /// route's second cell; otherwise nothing changes.
    pub open spec fn stepped(&self, f: Board, mover: CharacterId, toward: CharacterId) -> bool {
        let me = BoardItem::Character(mover);
        let dest = BoardItem::Character(toward);
        ||| exists|p: Seq<GridLocation>| {
            &&& #[trigger] self.chosen_route(p, me, dest)
            &&& p.len() > 2
            &&& f.grid.spec_width() == self.grid.spec_width()
            &&& f.grid.spec_height() == self.grid.spec_height()
            &&& f.grid.cell(p[0].x as int, p[0].y as int) is None
            &&& f.grid.cell(p[1].x as int, p[1].y as int) == Some(me)
            &&& forall|x: int, y: int| !(x == p[0].x && y == p[0].y) && !(x == p[1].x && y == p[1].y)
                ==> #[trigger] f.grid.cell(x, y) == self.grid.cell(x, y)
        }
        ||| f == *self && forall|p: Seq<GridLocation>| #[trigger] self.chosen_route(p, me, dest) ==> p.len() <= 2
    }

    /// `q` is a route from where `a` stands to where `b` stands.
    pub open spec fn route_between(&self, q: Seq<GridLocation>, a: BoardItem, b: BoardItem) -> bool {
        &&& self.is_route(q, b)
        &&& self.first_at(a, q[0].x as int, q[0].y as int)
        &&& self.first_at(b, q.last().x as int, q.last().y as int)
    }

    /// A shortest route from where `a` stands to where `b` stands that steps around other
    /// characters; `None` exactly when there is no such route (in particular when either is
    /// absent).
    pub fn shortest_path(&self, a: BoardItem, b: BoardItem) -> (r: Option<Vec<GridLocation>>)
        requires
            self.wf(),
        ensures
            r matches Some(p) ==> {
                &&& self.chosen_route(p@, a, b)
                &&& self.route_between(p@, a, b)
                &&& forall|q: Seq<GridLocation>| #[trigger] self.route_between(q, a, b) ==> p@.len() <= q.len()
                &&& self.stands_once(b) ==> forall|i: int| 0 < i < p@.len() - 1
                    ==> !(#[trigger] self.grid.cell(p@[i].x as int, p@[i].y as int) matches Some(BoardItem::Character(_)))
                &&& forall|i: int| 1 <= i < p@.len() ==> self.steps_back(p@[0], b, #[trigger] p@[i], p@[i - 1], i)
            },
            r is None ==> forall|q: Seq<GridLocation>| !#[trigger] self.route_between(q, a, b),
    {
        match (self.find(&a), self.find(&b)) {
            (Some((ax, ay)), Some((bx, by))) => {
                let dest = b;
                let is_open = |item: &BoardItem| -> (m: bool)
                    ensures
                        m == open_towards(dest, *item),
                    {
                        match item {
                            BoardItem::Card(_) => true,
                            BoardItem::Character(_) => *item == dest,
                        }
                    };
                let from = GridLocation { x: ax, y: ay };
                let to = GridLocation { x: bx, y: by };
                let r = self.grid.shortest_path(from, to, is_open);
                proof {
                    assert forall|q: Seq<GridLocation>| #[trigger] self.route_between(q, a, b)
                        implies self.grid.is_walk(q, from, to, is_open) by {
                        self.lemma_first_at_unique(a, q[0].x as int, q[0].y as int, ax as int, ay as int);
                        self.lemma_first_at_unique(b, q.last().x as int, q.last().y as int, bx as int, by as int);
                        assert forall|i: int| 1 <= i < q.len() implies self.grid.enterable(is_open, #[trigger] q[i].x as int, q[i].y as int) by {
                            let c = self.grid.cell(q[i].x as int, q[i].y as int);
                            if c is Some {
                                assert(open_towards(b, c->0));
                            }
                        }
                    }
                    if r is Some {
                        let p = r->0;
                        assert forall|i: int| 1 <= i < p@.len() implies match #[trigger] self.grid.cell(p@[i].x as int, p@[i].y as int) {
                            Some(v) => open_towards(b, v),
                            None => true,
                        } by {
                            assert(self.grid.passable(is_open, p@[i].x as int, p@[i].y as int));
                        }
                        assert(self.route_between(p@, a, b));
                        assert(Grid::<BoardItem>::answers_once(is_open));
                        assert forall|i: int| 1 <= i < p@.len() implies self.steps_back(p@[0], b, #[trigger] p@[i], p@[i - 1], i) by {
                            self.lemma_steps_back_on_board(is_open, from, b, p@, i);
                        }
                        if self.stands_once(b) {
                            assert forall|i: int| 0 < i < p@.len() - 1 implies
                                !(#[trigger] self.grid.cell(p@[i].x as int, p@[i].y as int) matches Some(BoardItem::Character(_))) by {
                                if self.grid.cell(p@[i].x as int, p@[i].y as int) matches Some(BoardItem::Character(_)) {
                                    let v = self.grid.cell(p@[i].x as int, p@[i].y as int)->0;
                                    assert(open_towards(b, v));
                                    let last = p@.last();
                                    assert(self.grid.cell(last.x as int, last.y as int) == Some(b));
                                    let q = p@.subrange(0, i + 1);
                                    assert(q.last() == p@[i]);
                                    assert(q[0] == p@[0]);
                                    assert(forall|j: int| 0 <= j < q.len() ==> #[trigger] q[j] == p@[j]);
                                    assert(self.route_between(q, a, b));
                                }
                            }
                        }
                    }
                }
                r
            },
            _ => {
                proof {
                    assert forall|q: Seq<GridLocation>| !#[trigger] self.route_between(q, a, b) by {
                        if self.route_between(q, a, b) {
                            assert(self.grid.cell(q[0].x as int, q[0].y as int) == Some(a));
                            assert(self.grid.cell(q.last().x as int, q.last().y as int) == Some(b));
                        }
                    }
                }
                None
            },
        }
    }

    /// A prefix of a route towards `dest` is a route towards `dest`.
    proof fn lemma_route_prefix(&self, p: Seq<GridLocation>, dest: BoardItem, i: int)
        requires
            self.is_route(p, dest),
            0 <= i < p.len(),
        ensures
            self.is_route(p.subrange(0, i + 1), dest),
    {
        let q = p.subrange(0, i + 1);
        assert forall|k: int| 0 <= k < q.len() implies #[trigger] q[k] == p[k] by {}
        assert forall|k: int| 0 <= k < q.len() - 1 implies (#[trigger] q[k]).dist(q[k + 1]) == 1 by {
            assert(q[k + 1] == p[k + 1]);
        }
        assert forall|k: int| 1 <= k < q.len() implies match #[trigger] self.grid.cell(q[k].x as int, q[k].y as int) {
            Some(v) => open_towards(dest, v),
            None => true,
        } by {
            assert(q[k] == p[k]);
        }
        assert forall|k: int| 0 <= k < q.len() implies self.grid.in_bounds(#[trigger] q[k].x as int, q[k].y as int) by {
            assert(q[k] == p[k]);
        }
    }

    /// The grid's step-back rule for a search that lets through cards and `dest` is the
    /// same rule over the board's routes towards `dest`.
    proof fn lemma_steps_back_on_board<F: Fn(&BoardItem) -> bool>(&self, is_open: F, from: GridLocation, dest: BoardItem, p: Seq<GridLocation>, i: int)
        requires
            forall|v: &BoardItem, m: bool| #[trigger] is_open.ensures((v,), m) ==> m == open_towards(dest, *v),
            self.is_route(p, dest),
            p[0] == from,
            1 <= i < p.len(),
            self.grid.steps_back_to(is_open, from, p[i], p[i - 1], i),
        ensures
            self.steps_back(from, dest, p[i], p[i - 1], i),
    {
        let cur = p[i];
        let prev = p[i - 1];
        let s = surrounding(cur, self.grid.spec_width() as int, self.grid.spec_height() as int);
        assert forall|q: Seq<GridLocation>, to: GridLocation| self.is_route(q, dest) && q[0] == from && q.last() == to
            implies #[trigger] self.grid.is_walk(q, from, to, is_open) by {
            assert forall|k: int| 1 <= k < q.len() implies self.grid.enterable(is_open, #[trigger] q[k].x as int, q[k].y as int) by {
                let c = self.grid.cell(q[k].x as int, q[k].y as int);
                if c is Some {
                    assert(open_towards(dest, c->0));
                }
            }
        }
        self.lemma_route_prefix(p, dest, i);
        self.lemma_route_prefix(p, dest, i - 1);
        assert(p.subrange(0, i + 1).last() == cur);
        assert(p.subrange(0, i).last() == prev);
        assert(self.reaches_from(from, cur, dest, i));
        assert(self.reaches_from(from, prev, dest, i - 1));
        assert forall|m: int| #[trigger] self.reaches_from(from, cur, dest, m) implies i <= m by {
            let q = choose|q: Seq<GridLocation>| #[trigger] self.is_route(q, dest) && q[0] == from && q.last() == cur && q.len() == m + 1;
            assert(self.grid.is_walk(q, from, cur, is_open));
            assert(self.grid.reaches(is_open, from, cur, m));
        }
        let j = choose|j: int| {
            &&& 0 <= j < s.len()
            &&& s[j] == prev
            &&& self.grid.reaches(is_open, from, prev, i - 1)
            &&& forall|k: int| 0 <= k < j ==> !self.grid.reaches(is_open, from, #[trigger] s[k], i - 1)
        };
        assert forall|k: int| 0 <= k < j implies !self.reaches_from(from, #[trigger] s[k], dest, i - 1) by {
            if self.reaches_from(from, s[k], dest, i - 1) {
                let q = choose|q: Seq<GridLocation>| #[trigger] self.is_route(q, dest) && q[0] == from && q.last() == s[k] && q.len() == i;
                assert(self.grid.is_walk(q, from, s[k], is_open));
                assert(self.grid.reaches(is_open, from, s[k], i - 1));
            }
        }
    }

    /// The characters standing within Manhattan distance `range` of `location`.
    pub fn find_chars_in_range(&self, location: GridLocation, range: GridDimension) -> (r: Vec<CharacterId>)
        requires
            self.wf(),
        ensures
            forall|i: int| 0 <= i < r@.len() ==> self.stands_within(location, range as int, #[trigger] r@[i]),
            exists|locs: Seq<GridLocation>| #[trigger] self.listed_at(location, range as int, r@, locs),
            forall|i: int, j: int| 0 <= i < j < r@.len() && self.stands_once(BoardItem::Character(r@[i])) ==> #[trigger] r@[i] != #[trigger] r@[j],
            forall|l: GridLocation|
                location.dist(l) <= range ==> (#[trigger] self.grid.cell(l.x as int, l.y as int) matches Some(BoardItem::Character(c))
                    ==> r@.contains(c)),
    {
        let locs = self.grid.find_in_range(location, range, |entry: &BoardItem| -> (m: bool)
            ensures
                m == (*entry is Character),
            {
                match entry {
                    BoardItem::Character(_) => true,
                    BoardItem::Card(_) => false,
                }
            });
        let mut ret: Vec<CharacterId> = Vec::new();
        let mut i: usize = 0;
        while i < locs.len()
            invariant
                self.wf(),
                i <= locs@.len(),
                ret@.len() == i,
                forall|k: int| 0 <= k < locs@.len() ==> {
                    let l = #[trigger] locs@[k];
                    &&& location.dist(l) <= range
                    &&& self.grid.cell(l.x as int, l.y as int) matches Some(BoardItem::Character(_))
                },
                forall|k: int| 0 <= k < i ==> self.grid.cell(locs@[k].x as int, locs@[k].y as int) == Some(BoardItem::Character(#[trigger] ret@[k])),
            decreases locs@.len() - i,
        {
            let l = locs[i];
            assert(self.grid.cell(locs@[i as int].x as int, locs@[i as int].y as int) matches Some(BoardItem::Character(_)));
            match self.grid.get(l.x, l.y) {
                Some(BoardItem::Character(id)) => {
                    ret.push(*id);
                },
                _ => {
                    ret.push(CharacterId::new(0));
                },
            }
            i = i + 1;
        }
        proof {
            assert forall|i: int| 0 <= i < ret@.len() implies self.stands_within(location, range as int, #[trigger] ret@[i]) by {
                let l = locs@[i];
                assert(self.grid.cell(l.x as int, l.y as int) == Some(BoardItem::Character(ret@[i])));
            }
            assert forall|l: GridLocation|
                location.dist(l) <= range implies (#[trigger] self.grid.cell(l.x as int, l.y as int) matches Some(BoardItem::Character(c))
                    ==> ret@.contains(c)) by {
                let cell = self.grid.cell(l.x as int, l.y as int);
                if let Some(BoardItem::Character(c)) = cell {
                if !locs@.contains(l) {
                    assert(self.grid.cell(l.x as int, l.y as int) is Some);
                }
                let k = choose|k: int| 0 <= k < locs@.len() && locs@[k] == l;
                assert(ret@[k] == c);
                }
            }
            assert(self.listed_at(location, range as int, ret@, locs@));
            assert forall|i: int, j: int| 0 <= i < j < ret@.len() && self.stands_once(BoardItem::Character(ret@[i]))
                implies #[trigger] ret@[i] != #[trigger] ret@[j] by {
                if ret@[i] == ret@[j] {
                    assert(self.grid.cell(locs@[i].x as int, locs@[i].y as int) == Some(BoardItem::Character(ret@[i])));
                    assert(self.grid.cell(locs@[j].x as int, locs@[j].y as int) == Some(BoardItem::Character(ret@[i])));
                    assert(column_major_before(locs@[i], locs@[j]));
                }
            }
        }
        ret
    }
}

} // verus!
