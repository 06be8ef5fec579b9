use vstd::prelude::*;

verus! {

pub type GridDimension = usize;

/// A cell coordinate on a grid: `x` is the column, `y` the row.
#[derive(Debug, PartialEq, Eq, Structural, Clone, Copy)]
pub struct GridLocation {
    pub x: GridDimension,
    pub y: GridDimension,
}

/// Manhattan distance between two coordinates.
pub open spec fn manhattan(ax: int, ay: int, bx: int, by: int) -> int {
    (if ax >= bx { ax - bx } else { bx - ax }) + (if ay >= by { ay - by } else { by - ay })
}

/// The in-bounds orthogonal neighbours of `l`, in the order left, up, right, down.
pub open spec fn surrounding(l: GridLocation, width: int, height: int) -> Seq<GridLocation> {
    let left = if l.x > 0 { seq![GridLocation { x: (l.x - 1) as usize, y: l.y }] } else { seq![] };
    let up = if l.y > 0 { seq![GridLocation { x: l.x, y: (l.y - 1) as usize }] } else { seq![] };
    let right = if l.x < width - 1 { seq![GridLocation { x: (l.x + 1) as usize, y: l.y }] } else { seq![] };
    let down = if l.y < height - 1 { seq![GridLocation { x: l.x, y: (l.y + 1) as usize }] } else { seq![] };
    left + up + right + down
}

/// Row-major order on cells: `(ax, ay)` is scanned before `(bx, by)`.
pub open spec fn row_major_before(ax: int, ay: int, bx: int, by: int) -> bool {
    ay < by || (ay == by && ax < bx)
}

/// Column-major order on cells: `(ax, ay)` comes before `(bx, by)`.
pub open spec fn column_major_before(a: GridLocation, b: GridLocation) -> bool {
    a.x < b.x || (a.x == b.x && a.y < b.y)
}

impl GridLocation {
    pub open spec fn dist(self, other: GridLocation) -> int {
        manhattan(self.x as int, self.y as int, other.x as int, other.y as int)
    }

    pub fn is_adjacent(&self, other: &GridLocation) -> (r: bool)
        requires
            self.dist(*other) <= usize::MAX,
        ensures
            r == (self.dist(*other) == 1),
    {
        self.distance(other) == 1
    }

    pub fn distance(&self, other: &GridLocation) -> (r: GridDimension)
        requires
            self.dist(*other) <= usize::MAX,
        ensures
            r == self.dist(*other),
    {
        let dx: usize = if self.x >= other.x { self.x - other.x } else { other.x - self.x };
        let dy: usize = if self.y >= other.y { self.y - other.y } else { other.y - self.y };
        dx + dy
    }

    pub fn get_surrounding(&self, width: GridDimension, height: GridDimension) -> (r: Vec<GridLocation>)
        requires
            width > 0,
            height > 0,
        ensures
            r@ == surrounding(*self, width as int, height as int),
    {
        let mut ret: Vec<GridLocation> = Vec::new();
        if self.x > 0 {
            ret.push(GridLocation { x: self.x - 1, y: self.y });
        }
        if self.y > 0 {
            ret.push(GridLocation { x: self.x, y: self.y - 1 });
        }
        if self.x < width - 1 {
            ret.push(GridLocation { x: self.x + 1, y: self.y });
        }
        if self.y < height - 1 {
            ret.push(GridLocation { x: self.x, y: self.y + 1 });
        }
        proof {
            let s = surrounding(*self, width as int, height as int);
            assert(ret@ =~= s);
        }
        ret
    }
}

/// A fixed-size rectangular grid whose cells each hold at most one value.
pub struct Grid<T> {
    members: Vec<Vec<Option<T>>>,
    width: GridDimension,
    height: GridDimension,
}

impl<T> Grid<T> {
    /// Well-formed: `height` rows of `width` cells each.
    pub closed spec fn wf(self) -> bool {
        &&& self.members@.len() == self.height
        &&& forall|y: int| 0 <= y < self.height ==> #[trigger] self.members@[y]@.len() == self.width
    }

    pub closed spec fn spec_width(self) -> nat {
        self.width as nat
    }

    pub closed spec fn spec_height(self) -> nat {
        self.height as nat
    }

    pub open spec fn in_bounds(self, x: int, y: int) -> bool {
        0 <= x < self.spec_width() && 0 <= y < self.spec_height()
    }

    /// The rows of cells, top to bottom.
    pub closed spec fn rows(self) -> Seq<Seq<Option<T>>> {
        self.members@.map_values(|row: Vec<Option<T>>| row@)
    }

    /// What cell `(x, y)` holds; `None` when it is empty or out of bounds.
    pub open spec fn cell(self, x: int, y: int) -> Option<T> {
        if self.in_bounds(x, y) {
            self.rows()[y][x]
        } else {
            None
        }
    }

    /// A step onto `(x, y)` is allowed: the cell is empty or `is_open` accepts its value.
    pub open spec fn passable<F: Fn(&T) -> bool>(self, is_open: F, x: int, y: int) -> bool {
        match self.cell(x, y) {
            Some(v) => is_open.ensures((&v,), true),
            None => true,
        }
    }

    /// `p` walks from `from` to `to` in single orthogonal steps inside the grid, and every
    /// cell after the first is passable.
    pub open spec fn is_path<F: Fn(&T) -> bool>(
        self,
        p: Seq<GridLocation>,
        from: GridLocation,
        to: GridLocation,
        is_open: F,
    ) -> bool {
        &&& p.len() >= 1
        &&& p[0] == from
        &&& p.last() == to
        &&& forall|i: int| 0 <= i < p.len() ==> self.in_bounds(#[trigger] p[i].x as int, p[i].y as int)
        &&& forall|i: int| 1 <= i < p.len() ==> self.passable(is_open, #[trigger] p[i].x as int, p[i].y as int)
        &&& forall|i: int| 0 <= i < p.len() - 1 ==> (#[trigger] p[i]).dist(p[i + 1]) == 1
    }

    /// A step onto `(x, y)` is not refused: the cell is empty or `is_open` does not answer
    /// `false` for its value.
    pub open spec fn enterable<F: Fn(&T) -> bool>(self, is_open: F, x: int, y: int) -> bool {
        match self.cell(x, y) {
            Some(v) => !is_open.ensures((&v,), false),
            None => true,
        }
    }

    /// Like `is_path`, over cells that are not refused.
    pub open spec fn is_walk<F: Fn(&T) -> bool>(
        self,
        p: Seq<GridLocation>,
        from: GridLocation,
        to: GridLocation,
        is_open: F,
    ) -> bool {
        &&& p.len() >= 1
        &&& p[0] == from
        &&& p.last() == to
        &&& forall|i: int| 0 <= i < p.len() ==> self.in_bounds(#[trigger] p[i].x as int, p[i].y as int)
        &&& forall|i: int| 1 <= i < p.len() ==> self.enterable(is_open, #[trigger] p[i].x as int, p[i].y as int)
        &&& forall|i: int| 0 <= i < p.len() - 1 ==> (#[trigger] p[i]).dist(p[i + 1]) == 1
    }

    /// `is_open` gives one answer per value.
    pub open spec fn answers_once<F: Fn(&T) -> bool>(is_open: F) -> bool {
        forall|v: &T, a: bool, b: bool| #[trigger] is_open.ensures((v,), a) && #[trigger] is_open.ensures((v,), b) ==> a == b
    }

    /// Some walk of `n` steps (`n + 1` cells) leads from `from` to `to`.
    pub open spec fn reaches<F: Fn(&T) -> bool>(self, is_open: F, from: GridLocation, to: GridLocation, n: int) -> bool {
        exists|q: Seq<GridLocation>| #[trigger] self.is_walk(q, from, to, is_open) && q.len() == n + 1
    }

    /// `from` reaches `cur` in `n` steps and no fewer, and stepping back from `cur`, `prev`
    /// is the first neighbour of `cur` in the order left, up, right, down that `from`
    /// reaches in `n - 1` steps.
    pub open spec fn steps_back_to<F: Fn(&T) -> bool>(self, is_open: F, from: GridLocation, cur: GridLocation, prev: GridLocation, n: int) -> bool {
        let s = surrounding(cur, self.spec_width() as int, self.spec_height() as int);
        &&& self.reaches(is_open, from, cur, n)
        &&& forall|m: int| #[trigger] self.reaches(is_open, from, cur, m) ==> n <= m
        &&& exists|j: int| {
            &&& 0 <= j < s.len()
            &&& s[j] == prev
            &&& self.reaches(is_open, from, prev, n - 1)
            &&& forall|k: int| 0 <= k < j ==> !self.reaches(is_open, from, #[trigger] s[k], n - 1)
        }
    }

    pub fn new(width: GridDimension, height: GridDimension) -> (r: Self)
        ensures
            r.wf(),
            r.spec_width() == width,
            r.spec_height() == height,
            forall|x: int, y: int| #[trigger] r.cell(x, y) is None,
    {
        let mut members: Vec<Vec<Option<T>>> = Vec::new();
        let mut j: usize = 0;
        while j < height
            invariant
                j <= height,
                members@.len() == j,
                forall|y: int| 0 <= y < j ==> #[trigger] members@[y]@.len() == width,
                forall|y: int, x: int| 0 <= y < j && 0 <= x < width ==> (#[trigger] members@[y]@[x]) is None,
            decreases height - j,
        {
            let mut row: Vec<Option<T>> = Vec::new();
            let mut i: usize = 0;
            while i < width
                invariant
                    i <= width,
                    row@.len() == i,
                    forall|x: int| 0 <= x < i ==> (#[trigger] row@[x]) is None,
                decreases width - i,
            {
                row.push(None);
                i = i + 1;
            }
            members.push(row);
            j = j + 1;
        }
        Grid { members, width, height }
    }

    pub fn width(&self) -> (r: GridDimension)
        ensures
            r == self.spec_width(),
    {
        self.width
    }

    pub fn height(&self) -> (r: GridDimension)
        ensures
            r == self.spec_height(),
    {
        self.height
    }

    pub fn is_valid(&self, x: GridDimension, y: GridDimension) -> (r: bool)
        ensures
            r == self.in_bounds(x as int, y as int),
    {
        x < self.width && y < self.height
    }

    pub fn get(&self, x: GridDimension, y: GridDimension) -> (r: Option<&T>)
        requires
            self.wf(),
        ensures
            r is Some == self.cell(x as int, y as int) is Some,
            r is Some ==> *r->0 == self.cell(x as int, y as int)->0,
    {
        if self.is_valid(x, y) {
            self.members[y][x].as_ref()
        } else {
            None
        }
    }

    pub fn is_set(&self, x: GridDimension, y: GridDimension) -> (r: bool)
        requires
            self.wf(),
        ensures
            r == self.cell(x as int, y as int) is Some,
    {
        self.get(x, y).is_some()
    }
    /// Puts `value` at `(x, y)` and hands back what was there; out of bounds nothing changes.
    pub fn set(&mut self, x: GridDimension, y: GridDimension, value: T) -> (r: Option<T>)
        requires
            old(self).wf(),
        ensures
            final(self).wf(),
            final(self).spec_width() == old(self).spec_width(),
            final(self).spec_height() == old(self).spec_height(),
            r == old(self).cell(x as int, y as int),
            old(self).in_bounds(x as int, y as int) ==> final(self).cell(x as int, y as int) == Some(value),
            forall|a: int, b: int|
                !(a == x && b == y) || !old(self).in_bounds(x as int, y as int)
                    ==> #[trigger] final(self).cell(a, b) == old(self).cell(a, b),
    {
        if self.is_valid(x, y) {
            let prev = self.members[y][x].take();
            self.members[y][x] = Some(value);
            proof {
                assert forall|a: int, b: int| !(a == x && b == y) implies #[trigger] self.cell(a, b) == old(self).cell(a, b) by {
                    if b != y { } else { }
                }
            }
            prev
        } else {
            None
        }
    }

    /// Empties `(x, y)` and hands back what was there; out of bounds nothing changes.
    pub fn clear(&mut self, x: GridDimension, y: GridDimension) -> (r: Option<T>)
        requires
            old(self).wf(),
        ensures
            final(self).wf(),
            final(self).spec_width() == old(self).spec_width(),
            final(self).spec_height() == old(self).spec_height(),
            r == old(self).cell(x as int, y as int),
            final(self).cell(x as int, y as int) is None,
            forall|a: int, b: int|
                !(a == x && b == y) ==> #[trigger] final(self).cell(a, b) == old(self).cell(a, b),
    {
        if self.is_valid(x, y) {
            let prev = self.members[y][x].take();
            proof {
                assert forall|a: int, b: int| !(a == x && b == y) implies #[trigger] self.cell(a, b) == old(self).cell(a, b) by {
                    if b != y { } else { }
                }
            }
            prev
        } else {
            None
        }
    }
    /// The first occupied cell, in row-major order, whose value `predicate` accepts.
    pub fn find<F>(&self, predicate: F) -> (r: Option<(GridDimension, GridDimension)>) where
        F: Fn(&T) -> bool,
        requires
            self.wf(),
            forall|v: &T| predicate.requires((v,)),
        ensures
            match r {
                Some((x, y)) => {
                    &&& self.cell(x as int, y as int) is Some
                    &&& predicate.ensures((&self.cell(x as int, y as int)->0,), true)
                    &&& forall|a: int, b: int|
                        row_major_before(a, b, x as int, y as int) && #[trigger] self.cell(a, b) is Some
                            ==> predicate.ensures((&self.cell(a, b)->0,), false)
                },
                None => forall|a: int, b: int| #[trigger] self.cell(a, b) is Some
                    ==> predicate.ensures((&self.cell(a, b)->0,), false),
            },
    {
        let mut y: usize = 0;
        while y < self.height
            invariant
                self.wf(),
                y <= self.spec_height(),
                forall|v: &T| predicate.requires((v,)),
                forall|a: int, b: int|
                    b < y && #[trigger] self.cell(a, b) is Some ==> predicate.ensures((&self.cell(a, b)->0,), false),
            decreases self.spec_height() - y,
        {
            let mut x: usize = 0;
            while x < self.width
                invariant
                    self.wf(),
                    y < self.spec_height(),
                    x <= self.spec_width(),
                    forall|v: &T| predicate.requires((v,)),
                    forall|a: int, b: int|
                        row_major_before(a, b, x as int, y as int) && #[trigger] self.cell(a, b) is Some
                            ==> predicate.ensures((&self.cell(a, b)->0,), false),
                decreases self.spec_width() - x,
            {
                match &self.members[y][x] {
                    Some(item) => {
                        if predicate(item) {
                            return Some((x, y));
                        }
                    },
                    None => {},
                }
                x = x + 1;
            }
            y = y + 1;
        }
        None
    }
    /// The occupied cells within Manhattan distance `range` of `location` whose value
    /// `predicate` accepts, column by column and top to bottom within a column.
    pub fn find_in_range<F>(&self, location: GridLocation, range: GridDimension, predicate: F) -> (r: Vec<GridLocation>) where
        F: Fn(&T) -> bool,
        requires
            self.wf(),
            forall|v: &T| predicate.requires((v,)),
        ensures
            forall|i: int| 0 <= i < r@.len() ==> {
                let l = #[trigger] r@[i];
                &&& location.dist(l) <= range
                &&& self.cell(l.x as int, l.y as int) is Some
                &&& predicate.ensures((&self.cell(l.x as int, l.y as int)->0,), true)
            },
            forall|i: int, j: int| 0 <= i < j < r@.len() ==> column_major_before(#[trigger] r@[i], #[trigger] r@[j]),
            forall|l: GridLocation|
                location.dist(l) <= range && #[trigger] self.cell(l.x as int, l.y as int) is Some && !r@.contains(l)
                    ==> predicate.ensures((&self.cell(l.x as int, l.y as int)->0,), false),
    {
        let mut ret: Vec<GridLocation> = Vec::new();
        if self.width == 0 || self.height == 0 {
            return ret;
        }
        let x_lo: usize = location.x.saturating_sub(range);
        let x_hi: usize = if location.x.saturating_add(range) < self.width - 1 { location.x + range } else { self.width - 1 };
        let y_lo: usize = location.y.saturating_sub(range);
        let y_hi: usize = if location.y.saturating_add(range) < self.height - 1 { location.y + range } else { self.height - 1 };
        if x_lo > x_hi || y_lo > y_hi {
            return ret;
        }
        let mut x: usize = x_lo;
        while x <= x_hi
            invariant
                self.wf(),
                x_hi < self.spec_width(),
                x_lo <= x <= x_hi + 1,
                y_lo <= y_hi < self.spec_height(),
                x_lo == if location.x >= range { location.x - range } else { 0 },
                y_lo == if location.y >= range { location.y - range } else { 0 },
                x_hi >= location.x + range || x_hi == self.spec_width() - 1,
                y_hi >= location.y + range || y_hi == self.spec_height() - 1,
                forall|v: &T| predicate.requires((v,)),
                forall|i: int| 0 <= i < ret@.len() ==> {
                    let l = #[trigger] ret@[i];
                    &&& location.dist(l) <= range
                    &&& l.x < x
                    &&& self.cell(l.x as int, l.y as int) is Some
                    &&& predicate.ensures((&self.cell(l.x as int, l.y as int)->0,), true)
                },
                forall|i: int, j: int| 0 <= i < j < ret@.len() ==> column_major_before(#[trigger] ret@[i], #[trigger] ret@[j]),
                forall|l: GridLocation|
                    l.x < x && location.dist(l) <= range && #[trigger] self.cell(l.x as int, l.y as int) is Some && !ret@.contains(l)
                        ==> predicate.ensures((&self.cell(l.x as int, l.y as int)->0,), false),
            decreases x_hi + 1 - x,
        {
            let mut y: usize = y_lo;
            while y <= y_hi
                invariant
                    self.wf(),
                    x_lo <= x <= x_hi,
                    x_hi < self.spec_width(),
                    y_hi < self.spec_height(),
                    y_lo <= y <= y_hi + 1,
                    x_lo == if location.x >= range { location.x - range } else { 0 },
                    y_lo == if location.y >= range { location.y - range } else { 0 },
                    x_hi >= location.x + range || x_hi == self.spec_width() - 1,
                    y_hi >= location.y + range || y_hi == self.spec_height() - 1,
                    forall|v: &T| predicate.requires((v,)),
                    forall|i: int| 0 <= i < ret@.len() ==> {
                        let l = #[trigger] ret@[i];
                        &&& location.dist(l) <= range
                        &&& (l.x < x || (l.x == x && l.y < y))
                        &&& self.cell(l.x as int, l.y as int) is Some
                        &&& predicate.ensures((&self.cell(l.x as int, l.y as int)->0,), true)
                    },
                    forall|i: int, j: int| 0 <= i < j < ret@.len() ==> column_major_before(#[trigger] ret@[i], #[trigger] ret@[j]),
                    forall|l: GridLocation|
                        (l.x < x || (l.x == x && l.y < y)) && location.dist(l) <= range
                            && #[trigger] self.cell(l.x as int, l.y as int) is Some && !ret@.contains(l)
                            ==> predicate.ensures((&self.cell(l.x as int, l.y as int)->0,), false),
                decreases y_hi + 1 - y,
            {
                let dx: usize = if x >= location.x { x - location.x } else { location.x - x };
                let dy: usize = if y >= location.y { y - location.y } else { location.y - y };
                assert(dx + dy == location.dist(GridLocation { x, y }));
                if dx <= range && dy <= range - dx {
                    let slot = &self.members[y][x];
                    assert(*slot == self.cell(x as int, y as int));
                    if let Some(value) = slot {
                        let keep = predicate(value);
                        if keep {
                            let here = GridLocation { x, y };
                            proof {
                                assert forall|l: GridLocation| (l.x < x || (l.x == x && l.y < y)) && #[trigger] ret@.contains(l)
                                    implies ret@.push(here).contains(l) by {
                                    let k = choose|k: int| 0 <= k < ret@.len() && ret@[k] == l;
                                    assert(ret@.push(here)[k] == l);
                                }
                            }
                            ret.push(here);
                            assert(ret@[ret@.len() - 1] == here);
                        } else {
                            assert(predicate.ensures((&self.cell(x as int, y as int)->0,), false));
                        }
                    }
                }
                assert forall|l: GridLocation|
                    (l.x < x || (l.x == x && l.y <= y)) && location.dist(l) <= range
                        && #[trigger] self.cell(l.x as int, l.y as int) is Some && !ret@.contains(l)
                        implies predicate.ensures((&self.cell(l.x as int, l.y as int)->0,), false) by {
                    if l.x == x && l.y == y {
                        assert(l == GridLocation { x, y });
                    }
                }
                y = y + 1;
            }
            x = x + 1;
        }
        ret
    }
    /// A shortest route from `from` to `to` by breadth-first search over passable cells,
    /// both ends included; `None` exactly when no route exists. Of several shortest routes
    /// the one found by stepping back from `to` to the first neighbour, in the order left,
    /// up, right, down, that the search reached earlier is returned.
    pub fn shortest_path<F>(&self, from: GridLocation, to: GridLocation, is_open: F) -> (r: Option<Vec<GridLocation>>) where
        F: Fn(&T) -> bool,
        requires
            self.wf(),
            self.in_bounds(from.x as int, from.y as int),
            self.in_bounds(to.x as int, to.y as int),
            forall|v: &T| is_open.requires((v,)),
        ensures
            r matches Some(p) ==> {
                &&& self.is_path(p@, from, to, is_open)
                &&& forall|q: Seq<GridLocation>| #[trigger] self.is_walk(q, from, to, is_open) ==> p@.len() <= q.len()
                &&& Self::answers_once(is_open) ==> forall|i: int| 1 <= i < p@.len()
                    ==> self.steps_back_to(is_open, from, #[trigger] p@[i], p@[i - 1], i)
            },
            r is None ==> forall|q: Seq<GridLocation>| !#[trigger] self.is_walk(q, from, to, is_open),
    {
        let (track, queue, head, found, visited) = self.search(from, to, &is_open);
        if !found {
            proof {
                assert forall|q: Seq<GridLocation>| !#[trigger] self.is_walk(q, from, to, is_open) by {
                    if self.is_walk(q, from, to, is_open) {
                        self.lemma_search_closed(is_open, track@, queue@, from, q, (q.len() - 1) as nat);
                        let j = choose|j: int| 0 <= j < queue@.len() && queue@[j] == to;
                        assert(queue@[j] != to);
                    }
                }
            }
            return None;
        }
        let path = self.trace_back(&track, from, to, &is_open);
        proof {
            assert forall|q: Seq<GridLocation>| #[trigger] self.is_walk(q, from, to, is_open) implies path@.len() <= q.len() by {
                self.lemma_search_lower_bound(is_open, track@, queue@, head as int, from, to, q, (q.len() - 1) as nat);
            }
            if Self::answers_once(is_open) {
                self.lemma_trace_is_tie_broken(is_open, track@, queue@, head as int, visited@, from, to, path@);
            }
        }
        Some(path)
    }

    /// What the search keeps true of its records `track`, its queue `q` and the encoded
    /// set `visited` of reached cells.
    spec fn search_core<F: Fn(&T) -> bool>(
        self,
        is_open: F,
        from: GridLocation,
        track: Seq<Vec<Option<usize>>>,
        q: Seq<GridLocation>,
        visited: Set<int>,
    ) -> bool {
        let w = self.spec_width() as int;
        let h = self.spec_height() as int;
        &&& track.len() == h
        &&& forall|y: int| 0 <= y < h ==> #[trigger] track[y]@.len() == w
        &&& self.in_bounds(from.x as int, from.y as int)
        &&& forall|i: int| 0 <= i < q.len() ==> {
            let l = #[trigger] q[i];
            &&& self.in_bounds(l.x as int, l.y as int)
            &&& at(track, l) matches Some(d) && d <= i
        }
        &&& forall|l: GridLocation| self.in_bounds(l.x as int, l.y as int) && #[trigger] at(track, l) is Some
            ==> l == from || self.passable(is_open, l.x as int, l.y as int)
        &&& forall|y: int, x: int| 0 <= y < h && 0 <= x < w ==> ((#[trigger] track[y]@[x]) is Some <==> visited.contains(y * w + x))
        &&& visited.subset_of(vstd::set_lib::set_int_range(0, w * h))
        &&& vstd::set_lib::set_int_range(0, w * h).finite()
        &&& vstd::set_lib::set_int_range(0, w * h).len() == w * h
        &&& visited.finite()
        &&& q.len() == visited.len()
        &&& at(track, from) == Some(0usize)
        &&& forall|l: GridLocation| self.in_bounds(l.x as int, l.y as int) && #[trigger] at(track, l) == Some(0usize) ==> l == from
        &&& forall|i: int, j: int| 0 <= i < j < q.len() ==> at(track, #[trigger] q[i])->0 <= at(track, #[trigger] q[j])->0
        &&& forall|l: GridLocation| self.in_bounds(l.x as int, l.y as int) && #[trigger] at(track, l) is Some
            ==> exists|j: int| 0 <= j < q.len() && q[j] == l
        &&& has_parents(&self, track, from)
    }

    /// The first `n` queued cells have been expanded: each passable neighbour was reached,
    /// at most one step further.
    spec fn expanded<F: Fn(&T) -> bool>(self, is_open: F, track: Seq<Vec<Option<usize>>>, q: Seq<GridLocation>, n: int) -> bool {
        forall|i: int, v: GridLocation| 0 <= i < n && #[trigger] q[i].dist(v) == 1
            && self.in_bounds(v.x as int, v.y as int) && self.enterable(is_open, v.x as int, v.y as int)
            ==> at(track, v) is Some && at(track, v)->0 <= at(track, q[i])->0 + 1
    }

    /// A walk of passable cells is a walk of cells not refused, when `is_open` gives one
    /// answer per value.
    proof fn lemma_path_is_walk<F: Fn(&T) -> bool>(self, is_open: F, p: Seq<GridLocation>, from: GridLocation, to: GridLocation)
        requires
            Self::answers_once(is_open),
            self.is_path(p, from, to, is_open),
        ensures
            self.is_walk(p, from, to, is_open),
    {
        assert forall|i: int| 1 <= i < p.len() implies self.enterable(is_open, #[trigger] p[i].x as int, p[i].y as int) by {
            assert(self.passable(is_open, p[i].x as int, p[i].y as int));
            let c = self.cell(p[i].x as int, p[i].y as int);
            if c is Some {
                if is_open.ensures((&c->0,), false) {
                    assert(is_open.ensures((&c->0,), true));
                }
            }
        }
    }

    /// The first `i + 1` cells of a walk from `from` are a walk from `from`.
    proof fn lemma_walk_prefix<F: Fn(&T) -> bool>(self, is_open: F, p: Seq<GridLocation>, from: GridLocation, to: GridLocation, i: int)
        requires
            self.is_walk(p, from, to, is_open),
            0 <= i < p.len(),
        ensures
            self.is_walk(p.subrange(0, i + 1), from, p[i], is_open),
    {
        let q = p.subrange(0, i + 1);
        assert forall|k: int| 0 <= k < q.len() implies #[trigger] q[k] == p[k] by {}
        assert forall|k: int| 0 <= k < q.len() - 1 implies (#[trigger] q[k]).dist(q[k + 1]) == 1 by {
            assert(q[k + 1] == p[k + 1]);
        }
        assert forall|k: int| 1 <= k < q.len() implies self.enterable(is_open, #[trigger] q[k].x as int, q[k].y as int) by {
            assert(q[k] == p[k]);
        }
        assert forall|k: int| 0 <= k < q.len() implies self.in_bounds(#[trigger] q[k].x as int, q[k].y as int) by {
            assert(q[k] == p[k]);
        }
    }

    /// Records that rise by at least one per step, from 0 at the first cell to the number of
    /// steps at the last, are exactly the step numbers.
    proof fn lemma_records_are_steps(track: Seq<Vec<Option<usize>>>, p: Seq<GridLocation>, i: int)
        requires
            p.len() >= 1,
            at(track, p[0]) == Some(0usize),
            at(track, p.last()) == Some((p.len() - 1) as usize),
            forall|k: int| 1 <= k < p.len() ==> {
                &&& at(track, #[trigger] p[k]) is Some
                &&& at(track, p[k - 1]) is Some
                &&& at(track, p[k - 1])->0 < at(track, p[k])->0
            },
            0 <= i < p.len(),
        ensures
            at(track, p[i]) == Some(i as usize),
    {
        Self::lemma_records_at_least(track, p, i);
        Self::lemma_records_at_most(track, p, i);
    }

    proof fn lemma_records_at_least(track: Seq<Vec<Option<usize>>>, p: Seq<GridLocation>, i: int)
        requires
            p.len() >= 1,
            at(track, p[0]) == Some(0usize),
            forall|k: int| 1 <= k < p.len() ==> {
                &&& at(track, #[trigger] p[k]) is Some
                &&& at(track, p[k - 1]) is Some
                &&& at(track, p[k - 1])->0 < at(track, p[k])->0
            },
            0 <= i < p.len(),
        ensures
            at(track, p[i]) is Some,
            at(track, p[i])->0 >= i,
        decreases i,
    {
        if i > 0 {
            Self::lemma_records_at_least(track, p, i - 1);
            assert(at(track, p[i - 1])->0 < at(track, p[i])->0);
        }
    }

    proof fn lemma_records_at_most(track: Seq<Vec<Option<usize>>>, p: Seq<GridLocation>, i: int)
        requires
            p.len() >= 1,
            at(track, p.last()) == Some((p.len() - 1) as usize),
            forall|k: int| 1 <= k < p.len() ==> {
                &&& at(track, #[trigger] p[k]) is Some
                &&& at(track, p[k - 1]) is Some
                &&& at(track, p[k - 1])->0 < at(track, p[k])->0
            },
            0 <= i < p.len(),
        ensures
            at(track, p[i]) is Some,
            at(track, p[i])->0 <= i,
        decreases p.len() - i,
    {
        if i < p.len() - 1 {
            Self::lemma_records_at_most(track, p, i + 1);
            assert(at(track, p[i + 1]) is Some);
            assert(at(track, p[i])->0 < at(track, p[i + 1])->0);
        }
    }

    /// The route that steps back from the goal, each time to the first neighbour with the
    /// smallest record, follows the rule of `steps_back_to`.
    /// The traced route is a walk with one cell more than the goal's record.
    #[verifier::spinoff_prover]
    proof fn lemma_trace_length<F: Fn(&T) -> bool>(
        self,
        is_open: F,
        track: Seq<Vec<Option<usize>>>,
        queue: Seq<GridLocation>,
        head: int,
        visited: Set<int>,
        from: GridLocation,
        to: GridLocation,
        p: Seq<GridLocation>,
    )
        requires
            self.wf(),
            Self::answers_once(is_open),
            self.search_core(is_open, from, track, queue, visited),
            0 <= head < queue.len(),
            queue[head] == to,
            self.expanded(is_open, track, queue, head),
            self.is_path(p, from, to, is_open),
            p.len() <= at(track, to)->0 + 1,
        ensures
            self.is_walk(p, from, to, is_open),
            p.len() == at(track, to)->0 + 1,
    {
        self.lemma_path_is_walk(is_open, p, from, to);
        assert(at(track, queue[head]) matches Some(x) && x <= head);
        assert forall|j: int| 0 <= j < queue.len() implies at(track, #[trigger] queue[j]) is Some by {
            assert(at(track, queue[j]) matches Some(x) && x <= j);
        }
        self.lemma_search_lower_bound(is_open, track, queue, head, from, to, p, (p.len() - 1) as nat);
    }

    #[verifier::rlimit(100)]
    #[verifier::spinoff_prover]
    proof fn lemma_trace_is_tie_broken<F: Fn(&T) -> bool>(
        self,
        is_open: F,
        track: Seq<Vec<Option<usize>>>,
        queue: Seq<GridLocation>,
        head: int,
        visited: Set<int>,
        from: GridLocation,
        to: GridLocation,
        p: Seq<GridLocation>,
    )
        requires
            self.wf(),
            Self::answers_once(is_open),
            self.search_core(is_open, from, track, queue, visited),
            0 <= head < queue.len(),
            queue[head] == to,
            self.expanded(is_open, track, queue, head),
            self.is_path(p, from, to, is_open),
            p.len() <= at(track, to)->0 + 1,
            forall|i: int| 1 <= i < p.len() ==> {
                &&& at(track, #[trigger] p[i]) is Some
                &&& at(track, p[i - 1]) is Some
                &&& at(track, p[i - 1])->0 < at(track, p[i])->0
                &&& picked_first(track, p[i], self.spec_width() as int, self.spec_height() as int, p[i - 1])
            },
        ensures
            forall|i: int| 1 <= i < p.len() ==> self.steps_back_to(is_open, from, #[trigger] p[i], p[i - 1], i),
    {
        self.lemma_trace_length(is_open, track, queue, head, visited, from, to, p);
        assert forall|i: int| 1 <= i < p.len() implies self.steps_back_to(is_open, from, #[trigger] p[i], p[i - 1], i) by {
            Self::lemma_records_are_steps(track, p, i);
            Self::lemma_records_are_steps(track, p, i - 1);
            self.lemma_step_back(is_open, track, queue, head, visited, from, to, p, i);
        }
    }

    #[verifier::rlimit(100)]
    #[verifier::spinoff_prover]
    proof fn lemma_step_back<F: Fn(&T) -> bool>(
        self,
        is_open: F,
        track: Seq<Vec<Option<usize>>>,
        queue: Seq<GridLocation>,
        head: int,
        visited: Set<int>,
        from: GridLocation,
        to: GridLocation,
        p: Seq<GridLocation>,
        i: int,
    )
        requires
            self.wf(),
            self.search_core(is_open, from, track, queue, visited),
            0 <= head < queue.len(),
            queue[head] == to,
            self.expanded(is_open, track, queue, head),
            self.is_walk(p, from, to, is_open),
            p.len() == at(track, to)->0 + 1,
            1 <= i < p.len(),
            at(track, p[i]) == Some(i as usize),
            at(track, p[i - 1]) == Some((i - 1) as usize),
            picked_first(track, p[i], self.spec_width() as int, self.spec_height() as int, p[i - 1]),
        ensures
            self.steps_back_to(is_open, from, p[i], p[i - 1], i),
    {
        let w = self.spec_width() as int;
        let h = self.spec_height() as int;
        let cur = p[i];
        let prev = p[i - 1];
        let s = surrounding(cur, w, h);
        assert forall|j: int| 0 <= j < queue.len() implies at(track, #[trigger] queue[j]) is Some by {
            assert(at(track, queue[j]) matches Some(x) && x <= j);
        }
        self.lemma_walk_prefix(is_open, p, from, to, i);
        self.lemma_walk_prefix(is_open, p, from, to, i - 1);
        assert(self.reaches(is_open, from, cur, i));
        assert(self.reaches(is_open, from, prev, i - 1));
        assert(self.in_bounds(cur.x as int, cur.y as int));
        let e = if cur == to {
            head
        } else {
            choose|j: int| 0 <= j < queue.len() && queue[j] == cur
        };
        if e > head {
            assert(at(track, queue[head])->0 <= at(track, queue[e])->0);
        }
        assert forall|m: int| #[trigger] self.reaches(is_open, from, cur, m) implies i <= m by {
            let q = choose|q: Seq<GridLocation>| #[trigger] self.is_walk(q, from, cur, is_open) && q.len() == m + 1;
            self.lemma_search_lower_bound(is_open, track, queue, e, from, cur, q, (q.len() - 1) as nat);
        }
        let j = choose|j: int| 0 <= j < s.len() && s[j] == prev
            && forall|k: int| 0 <= k < j ==> at(track, #[trigger] s[k]) is None || at(track, s[k])->0 > at(track, prev)->0;
        assert forall|k: int| 0 <= k < j implies !self.reaches(is_open, from, #[trigger] s[k], i - 1) by {
            if self.reaches(is_open, from, s[k], i - 1) {
                let q = choose|q: Seq<GridLocation>| #[trigger] self.is_walk(q, from, s[k], is_open) && q.len() == i;
                self.lemma_search_prefix(is_open, track, queue, head, from, q, (i - 1) as nat);
                assert(at(track, s[k]) is Some);
            }
        }
    }

    /// `t` extends `s`: records already made are kept, and the queue `p` starts with `q`.
    spec fn grows(self, s: Seq<Vec<Option<usize>>>, t: Seq<Vec<Option<usize>>>, q: Seq<GridLocation>, p: Seq<GridLocation>) -> bool {
        &&& forall|l: GridLocation| self.in_bounds(l.x as int, l.y as int) && #[trigger] at(s, l) is Some ==> at(t, l) == at(s, l)
        &&& p.len() >= q.len()
        &&& forall|j: int| 0 <= j < q.len() ==> #[trigger] p[j] == q[j]
    }

    proof fn lemma_expanded_grows<F: Fn(&T) -> bool>(
        self,
        is_open: F,
        s: Seq<Vec<Option<usize>>>,
        t: Seq<Vec<Option<usize>>>,
        q: Seq<GridLocation>,
        p: Seq<GridLocation>,
        n: int,
    )
        requires
            self.expanded(is_open, s, q, n),
            self.grows(s, t, q, p),
            n <= q.len(),
            forall|j: int| 0 <= j < q.len() ==> at(s, #[trigger] q[j]) is Some && self.in_bounds(q[j].x as int, q[j].y as int),
        ensures
            self.expanded(is_open, t, p, n),
    {
        assert forall|i: int, v: GridLocation| 0 <= i < n && #[trigger] p[i].dist(v) == 1
            && self.in_bounds(v.x as int, v.y as int) && self.enterable(is_open, v.x as int, v.y as int)
            implies at(t, v) is Some && at(t, v)->0 <= at(t, p[i])->0 + 1 by {
            assert(p[i] == q[i]);
            assert(q[i].dist(v) == 1);
            assert(at(s, q[i]) is Some);
        }
    }

    fn blank_track(w: usize, h: usize) -> (r: Vec<Vec<Option<usize>>>)
        ensures
            r@.len() == h,
            forall|y: int| 0 <= y < h ==> #[trigger] r@[y]@.len() == w,
            forall|y: int, x: int| 0 <= y < h && 0 <= x < w ==> (#[trigger] r@[y]@[x]) is None,
    {
        let mut track: Vec<Vec<Option<usize>>> = Vec::new();
        let mut j: usize = 0;
        while j < h
            invariant
                j <= h,
                track@.len() == j,
                forall|y: int| 0 <= y < j ==> #[trigger] track@[y]@.len() == w,
                forall|y: int, x: int| 0 <= y < j && 0 <= x < w ==> (#[trigger] track@[y]@[x]) is None,
            decreases h - j,
        {
            let mut row: Vec<Option<usize>> = Vec::new();
            let mut i: usize = 0;
            while i < w
                invariant
                    i <= w,
                    row@.len() == i,
                    forall|x: int| 0 <= x < i ==> (#[trigger] row@[x]) is None,
                decreases w - i,
            {
                row.push(None);
                i = i + 1;
            }
            track.push(row);
            j = j + 1;
        }
        track
    }

    /// Reaches `loc`, a neighbour of the cell `cur` being expanded, if it is new and passable.
    #[verifier::rlimit(100)]
    fn visit<F: Fn(&T) -> bool>(
        &self,
        is_open: &F,
        track: &mut Vec<Vec<Option<usize>>>,
        queue: &mut Vec<GridLocation>,
        visited: Ghost<Set<int>>,
        from: GridLocation,
        cur: GridLocation,
        cur_d: usize,
        head: usize,
        loc: GridLocation,
    ) -> (vis: Ghost<Set<int>>)
        requires
            self.wf(),
            forall|v: &T| is_open.requires((v,)),
            self.search_core(*is_open, from, old(track)@, old(queue)@, visited@),
            1 <= head <= old(queue)@.len(),
            cur == old(queue)@[head - 1],
            at(old(track)@, cur) == Some(cur_d),
            forall|j: int| 0 <= j < old(queue)@.len() ==> at(old(track)@, #[trigger] old(queue)@[j])->0 <= cur_d + 1,
            self.in_bounds(loc.x as int, loc.y as int),
            cur.dist(loc) == 1,
        ensures
            self.search_core(*is_open, from, final(track)@, final(queue)@, vis@),
            self.grows(old(track)@, final(track)@, old(queue)@, final(queue)@),
            forall|j: int| 0 <= j < final(queue)@.len() ==> at(final(track)@, #[trigger] final(queue)@[j])->0 <= cur_d + 1,
            self.enterable(*is_open, loc.x as int, loc.y as int) ==> at(final(track)@, loc) is Some
                && at(final(track)@, loc)->0 <= cur_d + 1,
    {
        let ghost wi = self.spec_width() as int;
        let ghost hi = self.spec_height() as int;
        let ghost old_track = track@;
        let ghost old_queue = queue@;
        assert(cur_d < head) by {
            assert(at(old_track, old_queue[head - 1]) matches Some(d) && d <= head - 1);
        }
        if track[loc.y][loc.x].is_some() {
            return visited;
        }
        let open = match self.get(loc.x, loc.y) {
            Some(entry) => is_open(entry),
            None => true,
        };
        if !open {
            proof {
                let c = self.cell(loc.x as int, loc.y as int);
                assert(is_open.ensures((&c->0,), false));
            }
            return visited;
        }
        let ghost e = loc.y as int * wi + loc.x as int;
        proof {
            lemma_encode(wi, hi, loc.x as int, loc.y as int);
            vstd::set_lib::lemma_len_subset(visited@, vstd::set_lib::set_int_range(0, wi * hi));
        }
        let ghost vis = visited@.insert(e);
        track[loc.y][loc.x] = Some(cur_d + 1);
        queue.push(loc);
        proof {
            assert forall|l: GridLocation| self.in_bounds(l.x as int, l.y as int) && l != loc
                implies #[trigger] at(track@, l) == at(old_track, l) by {
                if l.y == loc.y {
                    assert(l.x != loc.x);
                }
            }
            assert forall|y: int, x: int| 0 <= y < hi && 0 <= x < wi
                implies ((#[trigger] track@[y]@[x]) is Some <==> vis.contains(y * wi + x)) by {
                if y * wi + x == e {
                    lemma_encode_injective(wi, x, y, loc.x as int, loc.y as int);
                }
            }
            assert forall|l: GridLocation| self.in_bounds(l.x as int, l.y as int) && #[trigger] at(track@, l) is Some
                implies exists|j: int| 0 <= j < queue@.len() && queue@[j] == l by {
                if l == loc {
                    assert(queue@[old_queue.len() as int] == loc);
                } else {
                    let j = choose|j: int| 0 <= j < old_queue.len() && old_queue[j] == l;
                    assert(queue@[j] == l);
                }
            }
            reveal(has_parents);
            assert forall|l: GridLocation| self.in_bounds(l.x as int, l.y as int) && #[trigger] at(track@, l) is Some && l != from
                implies exists|n: GridLocation| self.in_bounds(n.x as int, n.y as int) && #[trigger] n.dist(l) == 1
                    && at(track@, n) is Some && at(track@, n)->0 + 1 == at(track@, l)->0 by {
                if l == loc {
                    assert(cur.dist(loc) == 1);
                    assert(at(track@, cur) == at(old_track, cur));
                } else {
                    let n = choose|n: GridLocation| self.in_bounds(n.x as int, n.y as int) && #[trigger] n.dist(l) == 1
                        && at(old_track, n) is Some && at(old_track, n)->0 + 1 == at(old_track, l)->0;
                    assert(at(track@, n) == at(old_track, n));
                }
            }
            assert forall|i: int| 0 <= i < queue@.len() implies {
                let l = #[trigger] queue@[i];
                &&& self.in_bounds(l.x as int, l.y as int)
                &&& at(track@, l) matches Some(d) && d <= i
            } by {
                if i < old_queue.len() {
                    assert(queue@[i] == old_queue[i]);
                    assert(at(old_track, old_queue[i]) is Some);
                }
            }
            assert forall|i: int, j: int| 0 <= i < j < queue@.len() implies at(track@, #[trigger] queue@[i])->0 <= at(track@, #[trigger] queue@[j])->0 by {
                if j < old_queue.len() {
                    assert(queue@[i] == old_queue[i] && queue@[j] == old_queue[j]);
                    assert(at(old_track, old_queue[i]) is Some && at(old_track, old_queue[j]) is Some);
                } else {
                    assert(queue@[i] == old_queue[i]);
                    assert(at(old_track, old_queue[i]) is Some);
                }
            }
            assert forall|j: int| 0 <= j < queue@.len() implies at(track@, #[trigger] queue@[j])->0 <= cur_d + 1 by {
                if j < old_queue.len() {
                    assert(queue@[j] == old_queue[j]);
                    assert(at(old_track, old_queue[j]) is Some);
                }
            }
        }
        Ghost(vis)
    }

    /// Expands the cell `queue[head - 1]`: reaches each of its new passable neighbours.
    fn expand<F: Fn(&T) -> bool>(
        &self,
        is_open: &F,
        track: &mut Vec<Vec<Option<usize>>>,
        queue: &mut Vec<GridLocation>,
        visited: Ghost<Set<int>>,
        from: GridLocation,
        head: usize,
    ) -> (vis: Ghost<Set<int>>)
        requires
            self.wf(),
            forall|v: &T| is_open.requires((v,)),
            self.search_core(*is_open, from, old(track)@, old(queue)@, visited@),
            1 <= head <= old(queue)@.len(),
            self.expanded(*is_open, old(track)@, old(queue)@, head - 1),
            forall|j: int| 0 <= j < old(queue)@.len() ==> at(old(track)@, #[trigger] old(queue)@[j])->0
                <= at(old(track)@, old(queue)@[head - 1])->0 + 1,
        ensures
            self.search_core(*is_open, from, final(track)@, final(queue)@, vis@),
            self.grows(old(track)@, final(track)@, old(queue)@, final(queue)@),
            self.expanded(*is_open, final(track)@, final(queue)@, head as int),
            forall|j: int| 0 <= j < final(queue)@.len() ==> at(final(track)@, #[trigger] final(queue)@[j])->0
                <= at(old(track)@, old(queue)@[head - 1])->0 + 1,
    {
        let ghost wi = self.spec_width() as int;
        let ghost hi = self.spec_height() as int;
        let ghost track0 = track@;
        let ghost queue0 = queue@;
        let cur = queue[head - 1];
        assert(self.in_bounds(queue0[head - 1].x as int, queue0[head - 1].y as int));
        let cur_d: usize = match track[cur.y][cur.x] {
            Some(d) => d,
            None => 0,
        };
        let around = cur.get_surrounding(self.width, self.height);
        proof {
            lemma_surrounding(cur, wi, hi);
        }
        let mut vis = visited;
        let mut k: usize = 0;
        while k < around.len()
            invariant
                self.wf(),
                forall|v: &T| is_open.requires((v,)),
                    self.search_core(*is_open, from, track@, queue@, vis@),
                self.grows(track0, track@, queue0, queue@),
                1 <= head <= queue0.len(),
                cur == queue0[head - 1],
                cur == queue@[head - 1],
                at(track0, cur) == Some(cur_d),
                at(track@, cur) == Some(cur_d),
                around@ == surrounding(cur, wi, hi),
                forall|i: int| 0 <= i < around@.len() ==> {
                    &&& self.in_bounds((#[trigger] around@[i]).x as int, around@[i].y as int)
                    &&& cur.dist(around@[i]) == 1
                },
                forall|j: int| 0 <= j < queue@.len() ==> at(track@, #[trigger] queue@[j])->0 <= cur_d + 1,
                forall|i: int| 0 <= i < k && self.enterable(*is_open, (#[trigger] around@[i]).x as int, around@[i].y as int)
                    ==> at(track@, around@[i]) is Some && at(track@, around@[i])->0 <= cur_d + 1,
            decreases around@.len() - k,
        {
            let ghost t1 = track@;
            let ghost q1 = queue@;
            let loc = around[k];
            assert(self.in_bounds(around@[k as int].x as int, around@[k as int].y as int));
            vis = self.visit(is_open, track, queue, vis, from, cur, cur_d, head, loc);
            proof {
                assert forall|i: int| 0 <= i < k + 1 && self.enterable(*is_open, (#[trigger] around@[i]).x as int, around@[i].y as int)
                    implies at(track@, around@[i]) is Some && at(track@, around@[i])->0 <= cur_d + 1 by {
                    if i < k {
                        assert(at(t1, around@[i]) is Some);
                    }
                }
                assert forall|l: GridLocation| self.in_bounds(l.x as int, l.y as int) && #[trigger] at(track0, l) is Some
                    implies at(track@, l) == at(track0, l) by {
                    assert(at(t1, l) == at(track0, l));
                }
                assert forall|j: int| 0 <= j < queue0.len() implies #[trigger] queue@[j] == queue0[j] by {
                    assert(q1[j] == queue0[j]);
                }
                assert(queue@[head - 1] == q1[head - 1]);
                assert(at(track@, cur) == at(t1, cur));
            }
            k = k + 1;
        }
        proof {
            assert forall|j: int| 0 <= j < queue0.len() implies at(track0, #[trigger] queue0[j]) is Some
                && self.in_bounds(queue0[j].x as int, queue0[j].y as int) by {
                assert(at(track0, queue0[j]) matches Some(d) && d <= j);
            }
            self.lemma_expanded_grows(*is_open, track0, track@, queue0, queue@, head - 1);
            assert forall|i: int, v: GridLocation| 0 <= i < head && #[trigger] queue@[i].dist(v) == 1
                && self.in_bounds(v.x as int, v.y as int) && self.enterable(*is_open, v.x as int, v.y as int)
                implies at(track@, v) is Some && at(track@, v)->0 <= at(track@, queue@[i])->0 + 1 by {
                if i == head - 1 {
                    lemma_surrounding_complete(cur, wi, hi, v);
                    let idx = choose|idx: int| 0 <= idx < around@.len() && around@[idx] == v;
                    assert(self.enterable(*is_open, around@[idx].x as int, around@[idx].y as int));
                } else {
                    assert(queue@[i].dist(v) == 1);
                }
            }
        }
        vis
    }

    /// Breadth-first search from `from` until `to` is taken off the queue or the queue runs
    /// out. Returns the records, the queue, the place in it where the search stopped, and
    /// whether `to` was reached.
    fn search<F: Fn(&T) -> bool>(&self, from: GridLocation, to: GridLocation, is_open: &F) -> (r: (
        Vec<Vec<Option<usize>>>,
        Vec<GridLocation>,
        usize,
        bool,
        Ghost<Set<int>>,
    ))
        requires
            self.wf(),
            self.in_bounds(from.x as int, from.y as int),
            self.in_bounds(to.x as int, to.y as int),
            forall|v: &T| is_open.requires((v,)),
        ensures
            self.search_core(*is_open, from, r.0@, r.1@, r.4@),
            r.3 ==> r.2 < r.1@.len() && r.1@[r.2 as int] == to && self.expanded(*is_open, r.0@, r.1@, r.2 as int),
            !r.3 ==> r.2 == r.1@.len() && self.expanded(*is_open, r.0@, r.1@, r.2 as int),
            forall|i: int| 0 <= i < r.2 ==> #[trigger] r.1@[i] != to,
    {
        let w = self.width;
        let h = self.height;
        let mut track = Self::blank_track(w, h);
        let ghost wi = w as int;
        let ghost hi = h as int;
        let ghost mut visited: Set<int> = set![from.y as int * wi + from.x as int];
        proof {
            lemma_encode(wi, hi, from.x as int, from.y as int);
            vstd::set_lib::lemma_int_range(0, wi * hi);
        }
        track[from.y][from.x] = Some(0);
        let mut queue: Vec<GridLocation> = vec![from];
        let mut head: usize = 0;
        proof {
            assert forall|y: int, x: int| 0 <= y < h && 0 <= x < w implies
                ((#[trigger] track@[y]@[x]) is Some <==> visited.contains(y * wi + x)) by {
                if y * wi + x == from.y * wi + from.x {
                    lemma_encode_injective(wi, x, y, from.x as int, from.y as int);
                }
            }
            assert forall|l: GridLocation| self.in_bounds(l.x as int, l.y as int) && #[trigger] at(track@, l) is Some
                implies exists|j: int| 0 <= j < queue@.len() && queue@[j] == l by {
                assert(queue@[0] == from);
            }
            reveal(has_parents);
            assert(self.search_core(*is_open, from, track@, queue@, visited));
        }
        let mut vis = Ghost(visited);
        while head < queue.len()
            invariant
                self.wf(),
                w == self.spec_width(),
                h == self.spec_height(),
                wi == w,
                hi == h,
                forall|v: &T| is_open.requires((v,)),
                    self.search_core(*is_open, from, track@, queue@, vis@),
                head <= queue@.len(),
                self.expanded(*is_open, track@, queue@, head as int),
                head < queue@.len() ==> forall|j: int| 0 <= j < queue@.len() ==> at(track@, #[trigger] queue@[j])->0
                    <= at(track@, queue@[head as int])->0 + 1,
                forall|i: int| 0 <= i < head ==> #[trigger] queue@[i] != to,
            decreases wi * hi - head,
        {
            proof {
                vstd::set_lib::lemma_len_subset(vis@, vstd::set_lib::set_int_range(0, wi * hi));
            }
            if queue[head] == to {
                return (track, queue, head, true, vis);
            }
            head = head + 1;
            let ghost t1 = track@;
            let ghost q1 = queue@;
            vis = self.expand(is_open, &mut track, &mut queue, vis, from, head);
            proof {
                assert forall|i: int| 0 <= i < head implies #[trigger] queue@[i] != to by {
                    assert(queue@[i] == q1[i]);
                }
                if head < queue@.len() {
                    assert(at(track@, queue@[head - 1]) == at(t1, q1[head - 1])) by {
                        assert(queue@[head - 1] == q1[head - 1]);
                        assert(at(t1, q1[head - 1]) matches Some(d) && d <= head - 1);
                    }
                    assert(at(track@, queue@[head - 1])->0 <= at(track@, queue@[head as int])->0);
                }
            }
        }
        (track, queue, head, false, vis)
    }

    /// Steps back from `to` to `from` along decreasing records, each time to the first
    /// neighbour (left, up, right, down) with the smallest record, and returns the route
    /// from `from` to `to`.
    #[verifier::rlimit(100)]
    fn trace_back<F: Fn(&T) -> bool>(&self, track: &Vec<Vec<Option<usize>>>, from: GridLocation, to: GridLocation, is_open: &F) -> (r: Vec<GridLocation>)
        requires
            self.wf(),
            self.in_bounds(from.x as int, from.y as int),
            self.in_bounds(to.x as int, to.y as int),
            track@.len() == self.spec_height(),
            forall|y: int| 0 <= y < self.spec_height() ==> #[trigger] track@[y]@.len() == self.spec_width(),
            at(track@, to) is Some,
            at(track@, from) == Some(0usize),
            forall|l: GridLocation| self.in_bounds(l.x as int, l.y as int) && #[trigger] at(track@, l) is Some
                ==> l == from || self.passable(*is_open, l.x as int, l.y as int),
            has_parents(self, track@, from),
        ensures
            self.is_path(r@, from, to, *is_open),
            r@.len() <= at(track@, to)->0 + 1,
            forall|i: int| 1 <= i < r@.len() ==> {
                &&& at(track@, #[trigger] r@[i]) is Some
                &&& at(track@, r@[i - 1]) is Some
                &&& at(track@, r@[i - 1])->0 < at(track@, r@[i])->0
                &&& picked_first(track@, r@[i], self.spec_width() as int, self.spec_height() as int, r@[i - 1])
            },
    {
        let w = self.width;
        let h = self.height;
        let ghost wi = w as int;
        let ghost hi = h as int;
        let ghost goal = at(track@, to)->0;
        let mut cur_loc = to;
        let mut directions: Vec<GridLocation> = vec![to];
        while cur_loc != from
            invariant
                self.wf(),
                w == self.spec_width(),
                h == self.spec_height(),
                wi == w,
                hi == h,
                self.in_bounds(from.x as int, from.y as int),
                self.in_bounds(cur_loc.x as int, cur_loc.y as int),
                track@.len() == h,
                forall|y: int| 0 <= y < h ==> #[trigger] track@[y]@.len() == w,
                at(track@, cur_loc) is Some,
                at(track@, from) == Some(0usize),
                directions@.len() - 1 + at(track@, cur_loc)->0 <= goal,
                forall|l: GridLocation| self.in_bounds(l.x as int, l.y as int) && #[trigger] at(track@, l) is Some
                    ==> l == from || self.passable(*is_open, l.x as int, l.y as int),
                has_parents(self, track@, from),
                directions@.len() >= 1,
                directions@[0] == to,
                directions@.last() == cur_loc,
                forall|i: int| 0 <= i < directions@.len() ==> {
                    let l = #[trigger] directions@[i];
                    &&& self.in_bounds(l.x as int, l.y as int)
                    &&& at(track@, l) is Some
                },
                forall|i: int| 0 <= i < directions@.len() - 1 ==> #[trigger] directions@[i] != from,
                forall|i: int| 0 <= i < directions@.len() - 1 ==> (#[trigger] directions@[i]).dist(directions@[i + 1]) == 1,
                forall|i: int| 0 <= i < directions@.len() - 1 ==> {
                    &&& at(track@, directions@[i + 1])->0 < at(track@, #[trigger] directions@[i])->0
                    &&& picked_first(track@, directions@[i], wi, hi, directions@[i + 1])
                },
            ensures
                cur_loc == from,
            decreases at(track@, cur_loc)->0,
        {
            let next_loc = closest_neighbour(track, cur_loc, w, h);
            if next_loc == cur_loc {
                proof {
                    reveal(has_parents);
                    let n = choose|n: GridLocation| self.in_bounds(n.x as int, n.y as int) && #[trigger] n.dist(cur_loc) == 1
                        && at(track@, n) is Some && at(track@, n)->0 + 1 == at(track@, cur_loc)->0;
                    assert(cur_loc.dist(n) == 1);
                    assert(0 <= n.x < w && 0 <= n.y < h);
                    assert(false);
                }
                break;
            }
            directions.push(next_loc);
            cur_loc = next_loc;
        }
        let mut path: Vec<GridLocation> = Vec::new();
        let mut k: usize = directions.len();
        while k > 0
            invariant
                k <= directions@.len(),
                path@.len() == directions@.len() - k,
                forall|i: int| 0 <= i < path@.len() ==> #[trigger] path@[i] == directions@[directions@.len() - 1 - i],
            decreases k,
        {
            k = k - 1;
            path.push(directions[k]);
        }
        proof {
            let n = directions@.len();
            assert forall|i: int| 0 <= i < n - 1 implies (#[trigger] path@[i]).dist(path@[i + 1]) == 1 by {
                assert(path@[i] == directions@[n - 1 - i]);
                assert(path@[i + 1] == directions@[n - 1 - (i + 1)]);
                assert(directions@[n - 2 - i].dist(directions@[n - 1 - i]) == 1);
            }
            assert forall|i: int| 1 <= i < n implies self.passable(*is_open, #[trigger] path@[i].x as int, path@[i].y as int) by {
                let l = directions@[n - 1 - i];
                assert(path@[i] == l);
                assert(l != from);
                assert(self.in_bounds(l.x as int, l.y as int) && at(track@, l) is Some);
            }
            assert(path@[0] == directions@[n - 1]);
            assert(path@[n - 1] == directions@[0]);
            assert(cur_loc == from);
            assert(path@[0] == from);
            assert(path@.last() == to);
            assert forall|i: int| 0 <= i < n implies self.in_bounds(#[trigger] path@[i].x as int, path@[i].y as int) by {
                assert(path@[i] == directions@[n - 1 - i]);
            }
            assert forall|i: int| 1 <= i < n implies {
                &&& at(track@, #[trigger] path@[i]) is Some
                &&& at(track@, path@[i - 1]) is Some
                &&& at(track@, path@[i - 1])->0 < at(track@, path@[i])->0
                &&& picked_first(track@, path@[i], wi, hi, path@[i - 1])
            } by {
                let j = n - 1 - i;
                assert(path@[i] == directions@[j]);
                assert(path@[i - 1] == directions@[j + 1]);
                assert(at(track@, directions@[j + 1])->0 < at(track@, directions@[j])->0);
            }
        }
        path
    }
}

proof fn lemma_encode(w: int, h: int, x: int, y: int)
    requires
        0 <= x < w,
        0 <= y < h,
    ensures
        0 <= y * w + x < w * h,
{
    assert(0 <= y * w) by (nonlinear_arith)
        requires 0 <= y, 0 <= w;
    assert(y * w + w <= w * h) by (nonlinear_arith)
        requires y + 1 <= h, 0 <= w;
}

proof fn lemma_encode_injective(w: int, x1: int, y1: int, x2: int, y2: int)
    requires
        0 <= x1 < w,
        0 <= x2 < w,
        0 <= y1,
        0 <= y2,
        y1 * w + x1 == y2 * w + x2,
    ensures
        x1 == x2,
        y1 == y2,
{
    if y1 < y2 {
        assert(y1 * w + w <= y2 * w) by (nonlinear_arith)
            requires y1 + 1 <= y2, 0 <= w;
    } else if y2 < y1 {
        assert(y2 * w + w <= y1 * w) by (nonlinear_arith)
            requires y2 + 1 <= y1, 0 <= w;
    }
}

proof fn lemma_surrounding(l: GridLocation, w: int, h: int)
    requires
        w <= usize::MAX,
        h <= usize::MAX,
        0 <= l.x < w,
        0 <= l.y < h,
    ensures
        forall|i: int| 0 <= i < surrounding(l, w, h).len() ==> {
            &&& 0 <= (#[trigger] surrounding(l, w, h)[i]).x < w
            &&& 0 <= surrounding(l, w, h)[i].y < h
            &&& l.dist(surrounding(l, w, h)[i]) == 1
        },
{
    let left = if l.x > 0 { seq![GridLocation { x: (l.x - 1) as usize, y: l.y }] } else { seq![] };
    let up = if l.y > 0 { seq![GridLocation { x: l.x, y: (l.y - 1) as usize }] } else { seq![] };
    let right = if l.x < w - 1 { seq![GridLocation { x: (l.x + 1) as usize, y: l.y }] } else { seq![] };
    let down = if l.y < h - 1 { seq![GridLocation { x: l.x, y: (l.y + 1) as usize }] } else { seq![] };
    let s = surrounding(l, w, h);
    assert(s == left + up + right + down);
    assert forall|i: int| 0 <= i < s.len() implies {
        &&& 0 <= (#[trigger] s[i]).x < w
        &&& 0 <= s[i].y < h
        &&& l.dist(s[i]) == 1
    } by {
        let a = left + up;
        let b = a + right;
        if i < a.len() {
            if i < left.len() {
                assert(s[i] == left[i]);
            } else {
                assert(s[i] == up[i - left.len()]);
            }
        } else if i < b.len() {
            assert(s[i] == right[i - a.len()]);
        } else {
            assert(s[i] == down[i - b.len()]);
        }
    }
}


/// Every reached cell but the start has a reached neighbour recorded one step closer.
#[verifier::opaque]
spec fn has_parents<T>(g: &Grid<T>, track: Seq<Vec<Option<usize>>>, from: GridLocation) -> bool {
    forall|l: GridLocation| g.in_bounds(l.x as int, l.y as int) && #[trigger] at(track, l) is Some && l != from
        ==> exists|n: GridLocation| g.in_bounds(n.x as int, n.y as int) && #[trigger] n.dist(l) == 1
            && at(track, n) is Some && at(track, n)->0 + 1 == at(track, l)->0
}

/// The search's record for cell `l`: its distance from the start, once reached.
spec fn at(track: Seq<Vec<Option<usize>>>, l: GridLocation) -> Option<usize> {
    track[l.y as int]@[l.x as int]
}

/// `r` is the neighbour of `cur` at some place `j` of the order left, up, right, down, and
/// every neighbour before it is unreached or has a larger record.
spec fn picked_first(track: Seq<Vec<Option<usize>>>, cur: GridLocation, w: int, h: int, r: GridLocation) -> bool {
    let s = surrounding(cur, w, h);
    exists|j: int| 0 <= j < s.len() && s[j] == r
        && forall|k: int| 0 <= k < j ==> at(track, #[trigger] s[k]) is None || at(track, s[k])->0 > at(track, r)->0
}

/// Of the neighbours of `cur` (left, up, right, down) with a record below that of `cur`,
/// the first with the smallest record; `cur` itself when there is none.
fn closest_neighbour(track: &Vec<Vec<Option<usize>>>, cur: GridLocation, w: usize, h: usize) -> (r: GridLocation)
    requires
        track@.len() == h,
        forall|y: int| 0 <= y < h ==> #[trigger] track@[y]@.len() == w,
        0 <= cur.x < w,
        0 <= cur.y < h,
        at(track@, cur) is Some,
    ensures
        r == cur ==> forall|n: GridLocation| 0 <= n.x < w && 0 <= n.y < h && #[trigger] cur.dist(n) == 1 && at(track@, n) is Some
            ==> at(track@, n)->0 >= at(track@, cur)->0,
        r != cur ==> {
            &&& 0 <= r.x < w
            &&& 0 <= r.y < h
            &&& cur.dist(r) == 1
            &&& at(track@, r) is Some
            &&& at(track@, r)->0 < at(track@, cur)->0
            &&& picked_first(track@, cur, w as int, h as int, r)
        },
{
    let mut min_distance: usize = match track[cur.y][cur.x] {
        Some(d) => d,
        None => 0,
    };
    let mut next_loc = cur;
    let ghost mut jn: int = 0;
    let around = cur.get_surrounding(w, h);
    proof {
        lemma_surrounding(cur, w as int, h as int);
    }
    let mut k: usize = 0;
    while k < around.len()
        invariant
            track@.len() == h,
            forall|y: int| 0 <= y < h ==> #[trigger] track@[y]@.len() == w,
            0 <= cur.x < w,
            0 <= cur.y < h,
            k <= around@.len(),
            around@ == surrounding(cur, w as int, h as int),
            forall|i: int| 0 <= i < around@.len() ==> {
                &&& 0 <= (#[trigger] around@[i]).x < w
                &&& 0 <= around@[i].y < h
                &&& cur.dist(around@[i]) == 1
            },
            at(track@, cur) matches Some(d) && min_distance <= d,
            next_loc == cur ==> min_distance == at(track@, cur)->0,
            forall|i: int| 0 <= i < k ==> at(track@, #[trigger] around@[i]) is None || at(track@, around@[i])->0 >= min_distance,
            next_loc == cur || {
                &&& 0 <= next_loc.x < w
                &&& 0 <= next_loc.y < h
                &&& cur.dist(next_loc) == 1
                &&& at(track@, next_loc) == Some(min_distance)
                &&& min_distance < at(track@, cur)->0
                &&& 0 <= jn < k
                &&& around@[jn] == next_loc
                &&& forall|i: int| 0 <= i < jn ==> at(track@, #[trigger] around@[i]) is None || at(track@, around@[i])->0 > min_distance
            },
        decreases around@.len() - k,
    {
        let option = around[k];
        match track[option.y][option.x] {
            Some(d) => {
                if d < min_distance {
                    proof {
                        jn = k as int;
                    }
                    min_distance = d;
                    next_loc = option;
                }
            },
            None => {},
        }
        k = k + 1;
    }
    proof {
        if next_loc != cur {
            let sr = surrounding(cur, w as int, h as int);
            assert(around@ == sr);
            assert(0 <= jn < sr.len());
            assert(sr[jn] == next_loc);
            assert forall|i: int| 0 <= i < jn implies at(track@, #[trigger] sr[i]) is None || at(track@, sr[i])->0 > at(track@, next_loc)->0 by {
                assert(sr[i] == around@[i]);
            }
            assert(picked_first(track@, cur, w as int, h as int, next_loc));
        }
    }
    proof {
        if next_loc == cur {
            assert forall|n: GridLocation| 0 <= n.x < w && 0 <= n.y < h && #[trigger] cur.dist(n) == 1 && at(track@, n) is Some
                implies at(track@, n)->0 >= at(track@, cur)->0 by {
                lemma_surrounding_complete(cur, w as int, h as int, n);
                let idx = choose|idx: int| 0 <= idx < around@.len() && around@[idx] == n;
                assert(at(track@, around@[idx]) is Some);
            }
        }
    }
    next_loc
}

proof fn lemma_surrounding_complete(l: GridLocation, w: int, h: int, v: GridLocation)
    requires
        w <= usize::MAX,
        h <= usize::MAX,
        0 <= l.x < w,
        0 <= l.y < h,
        0 <= v.x < w,
        0 <= v.y < h,
        l.dist(v) == 1,
    ensures
        exists|idx: int| 0 <= idx < surrounding(l, w, h).len() && surrounding(l, w, h)[idx] == v,
{
    let left = if l.x > 0 { seq![GridLocation { x: (l.x - 1) as usize, y: l.y }] } else { seq![] };
    let up = if l.y > 0 { seq![GridLocation { x: l.x, y: (l.y - 1) as usize }] } else { seq![] };
    let right = if l.x < w - 1 { seq![GridLocation { x: (l.x + 1) as usize, y: l.y }] } else { seq![] };
    let down = if l.y < h - 1 { seq![GridLocation { x: l.x, y: (l.y + 1) as usize }] } else { seq![] };
    let s = surrounding(l, w, h);
    assert(s == left + up + right + down);
    let a = left + up;
    let b = a + right;
    if v.x + 1 == l.x {
        assert(s[0] == v);
    } else if v.y + 1 == l.y {
        assert(s[left.len() as int] == v);
    } else if v.x == l.x + 1 {
        assert(s[a.len() as int] == v);
    } else {
        assert(s[b.len() as int] == v);
    }
}

impl<T> Grid<T> {
    /// When every cell the search reached has been expanded, a walk from the start never
    /// leaves the reached cells.
    proof fn lemma_search_closed<F: Fn(&T) -> bool>(
        self,
        is_open: F,
        track: Seq<Vec<Option<usize>>>,
        q: Seq<GridLocation>,
        from: GridLocation,
        p: Seq<GridLocation>,
        i: nat,
    )
        requires
            self.is_walk(p, from, p.last(), is_open),
            i < p.len(),
            at(track, from) is Some,
            forall|l: GridLocation| self.in_bounds(l.x as int, l.y as int) && #[trigger] at(track, l) is Some
                ==> exists|j: int| 0 <= j < q.len() && q[j] == l,
            forall|j: int, v: GridLocation| 0 <= j < q.len() && #[trigger] q[j].dist(v) == 1
                && self.in_bounds(v.x as int, v.y as int) && self.enterable(is_open, v.x as int, v.y as int)
                ==> at(track, v) is Some && at(track, v)->0 <= at(track, q[j])->0 + 1,
        ensures
            at(track, p[i as int]) is Some,
            exists|j: int| 0 <= j < q.len() && q[j] == p[i as int],
        decreases i,
    {
        if i > 0 {
            self.lemma_search_closed(is_open, track, q, from, p, (i - 1) as nat);
            let j = choose|j: int| 0 <= j < q.len() && q[j] == p[i - 1];
            assert(p[i - 1].dist(p[i as int]) == 1);
            assert(q[j].dist(p[i as int]) == 1);
            assert(self.in_bounds(p[i as int].x as int, p[i as int].y as int));
            assert(self.enterable(is_open, p[i as int].x as int, p[i as int].y as int));
        }
    }

    /// While the first `i` steps of a walk stay below the distance recorded for the goal
    /// `q[e]`, each step is reached with a record no larger than its place in the walk.
    proof fn lemma_search_prefix<F: Fn(&T) -> bool>(
        self,
        is_open: F,
        track: Seq<Vec<Option<usize>>>,
        q: Seq<GridLocation>,
        e: int,
        from: GridLocation,
        p: Seq<GridLocation>,
        i: nat,
    )
        requires
            self.is_walk(p, from, p.last(), is_open),
            i < p.len(),
            0 <= e < q.len(),
            i <= at(track, q[e])->0,
            at(track, from) == Some(0usize),
            forall|j: int| 0 <= j < q.len() ==> at(track, #[trigger] q[j]) is Some,
            forall|a: int, b: int| 0 <= a < b < q.len() ==> at(track, #[trigger] q[a])->0 <= at(track, #[trigger] q[b])->0,
            forall|l: GridLocation| self.in_bounds(l.x as int, l.y as int) && #[trigger] at(track, l) is Some
                ==> exists|j: int| 0 <= j < q.len() && q[j] == l,
            forall|j: int, v: GridLocation| 0 <= j < e && #[trigger] q[j].dist(v) == 1
                && self.in_bounds(v.x as int, v.y as int) && self.enterable(is_open, v.x as int, v.y as int)
                ==> at(track, v) is Some && at(track, v)->0 <= at(track, q[j])->0 + 1,
        ensures
            at(track, p[i as int]) is Some,
            at(track, p[i as int])->0 <= i,
        decreases i,
    {
        if i > 0 {
            self.lemma_search_prefix(is_open, track, q, e, from, p, (i - 1) as nat);
            let prev = p[i - 1];
            assert(self.in_bounds(prev.x as int, prev.y as int));
            let j = choose|j: int| 0 <= j < q.len() && q[j] == prev;
            if j >= e {
                if j > e {
                    assert(at(track, q[e])->0 <= at(track, q[j])->0);
                }
                assert(false);
            }
            assert(prev.dist(p[i as int]) == 1);
            assert(q[j].dist(p[i as int]) == 1);
            assert(self.in_bounds(p[i as int].x as int, p[i as int].y as int));
            assert(self.enterable(is_open, p[i as int].x as int, p[i as int].y as int));
        }
    }

    /// Every walk from the start to the goal `q[e]` takes at least as many steps as the
    /// distance the search recorded for the goal.
    proof fn lemma_search_lower_bound<F: Fn(&T) -> bool>(
        self,
        is_open: F,
        track: Seq<Vec<Option<usize>>>,
        q: Seq<GridLocation>,
        e: int,
        from: GridLocation,
        to: GridLocation,
        p: Seq<GridLocation>,
        k: nat,
    )
        requires
            self.is_walk(p, from, to, is_open),
            k == p.len() - 1,
            0 <= e < q.len(),
            q[e] == to,
            at(track, from) == Some(0usize),
            forall|j: int| 0 <= j < q.len() ==> at(track, #[trigger] q[j]) is Some,
            forall|a: int, b: int| 0 <= a < b < q.len() ==> at(track, #[trigger] q[a])->0 <= at(track, #[trigger] q[b])->0,
            forall|l: GridLocation| self.in_bounds(l.x as int, l.y as int) && #[trigger] at(track, l) is Some
                ==> exists|j: int| 0 <= j < q.len() && q[j] == l,
            forall|j: int, v: GridLocation| 0 <= j < e && #[trigger] q[j].dist(v) == 1
                && self.in_bounds(v.x as int, v.y as int) && self.enterable(is_open, v.x as int, v.y as int)
                ==> at(track, v) is Some && at(track, v)->0 <= at(track, q[j])->0 + 1,
        ensures
            at(track, to)->0 <= k,
    {
        assert(at(track, q[e]) is Some);
        if k < at(track, to)->0 {
            self.lemma_search_prefix(is_open, track, q, e, from, p, k);
        }
    }
}


/// One step from `a` towards `b`: along x first, then along y.
pub open spec fn step_toward(a: GridLocation, b: GridLocation) -> GridLocation {
    if a.x < b.x {
        GridLocation { x: (a.x + 1) as usize, y: a.y }
    } else if a.x > b.x {
        GridLocation { x: (a.x - 1) as usize, y: a.y }
    } else if a.y < b.y {
        GridLocation { x: a.x, y: (a.y + 1) as usize }
    } else if a.y > b.y {
        GridLocation { x: a.x, y: (a.y - 1) as usize }
    } else {
        a
    }
}

/// The walk from `a` to `b` that first goes along x, then along y.
pub open spec fn staircase(a: GridLocation, b: GridLocation) -> Seq<GridLocation>
    decreases a.dist(b),
{
    if a.dist(b) <= 0 {
        seq![a]
    } else {
        seq![a] + staircase(step_toward(a, b), b)
    }
}

proof fn lemma_staircase(a: GridLocation, b: GridLocation)
    ensures
        staircase(a, b).len() == a.dist(b) + 1,
        staircase(a, b)[0] == a,
        staircase(a, b).last() == b,
        forall|i: int| 0 <= i < staircase(a, b).len() - 1 ==> (#[trigger] staircase(a, b)[i]).dist(staircase(a, b)[i + 1]) == 1,
        forall|i: int| 0 <= i < staircase(a, b).len() ==> {
            let l = #[trigger] staircase(a, b)[i];
            &&& (a.x <= l.x <= b.x || b.x <= l.x <= a.x)
            &&& (a.y <= l.y <= b.y || b.y <= l.y <= a.y)
        },
    decreases a.dist(b),
{
    if a.dist(b) > 0 {
        let n = step_toward(a, b);
        lemma_staircase(n, b);
        let rest = staircase(n, b);
        let s = staircase(a, b);
        assert(s == seq![a] + rest);
        assert forall|i: int| 0 <= i < s.len() - 1 implies (#[trigger] s[i]).dist(s[i + 1]) == 1 by {
            if i > 0 {
                assert(s[i] == rest[i - 1]);
                assert(s[i + 1] == rest[i]);
            } else {
                assert(s[1] == rest[0]);
            }
        }
        assert forall|i: int| 0 <= i < s.len() implies {
            let l = #[trigger] s[i];
            &&& (a.x <= l.x <= b.x || b.x <= l.x <= a.x)
            &&& (a.y <= l.y <= b.y || b.y <= l.y <= a.y)
        } by {
            if i > 0 {
                assert(s[i] == rest[i - 1]);
            }
        }
    } else {
        assert(a == b);
    }
}

/// Along a walk of single orthogonal steps, the Manhattan distance from the start to the
/// `i`-th cell is at most `i`.
proof fn lemma_walk_dist(p: Seq<GridLocation>, i: int)
    requires
        0 <= i < p.len(),
        forall|k: int| 0 <= k < p.len() - 1 ==> (#[trigger] p[k]).dist(p[k + 1]) == 1,
    ensures
        p[0].dist(p[i]) <= i,
    decreases i,
{
    if i > 0 {
        lemma_walk_dist(p, i - 1);
        assert(p[i - 1].dist(p[i]) == 1);
    }
}

/// On a grid where no step is refused, a route of fewest cells from `from` to `to` has
/// exactly one cell more than the Manhattan distance between them.
pub proof fn lemma_unobstructed_shortest_is_manhattan<T, F: Fn(&T) -> bool>(
    g: Grid<T>,
    is_open: F,
    from: GridLocation,
    to: GridLocation,
    p: Seq<GridLocation>,
)
    requires
        g.in_bounds(from.x as int, from.y as int),
        g.in_bounds(to.x as int, to.y as int),
        forall|x: int, y: int| #[trigger] g.enterable(is_open, x, y),
        g.is_walk(p, from, to, is_open),
        forall|q: Seq<GridLocation>| #[trigger] g.is_walk(q, from, to, is_open) ==> p.len() <= q.len(),
    ensures
        p.len() == from.dist(to) + 1,
{
    lemma_staircase(from, to);
    let q = staircase(from, to);
    assert forall|i: int| 0 <= i < q.len() implies g.in_bounds(#[trigger] q[i].x as int, q[i].y as int) by {
        assert((from.x <= q[i].x <= to.x || to.x <= q[i].x <= from.x));
    }
    assert forall|i: int| 1 <= i < q.len() implies g.enterable(is_open, #[trigger] q[i].x as int, q[i].y as int) by {
        assert(g.enterable(is_open, q[i].x as int, q[i].y as int));
    }
    assert(g.is_walk(q, from, to, is_open));
    lemma_walk_dist(p, p.len() - 1);
}

} // verus!
