use vstd::prelude::*;
use vstd::string::StrSliceExecFns;

verus! {

/// Which way the focus moves.
#[derive(Debug, PartialEq, Eq, Structural, Clone, Copy)]
pub enum MenuDirection {
    Up,
    Down,
}

/// What choosing an entry leads to: a submenu, or the menu's result.
pub enum MenuAction<I, T> {
    MenuItem(Vec<I>),
    Done(T),
}

/// An entry of a menu, labelled and acted on with the help of some state.
pub trait MenuItem<State, T>: Sized {
    fn label(&self, state: &State) -> String;

    fn action(&self, state: &State) -> MenuAction<Self, T>;
}

/// What `str::trim` makes of a text.
pub uninterp spec fn trimmed(s: Seq<char>) -> Seq<char>;

/// What `str::to_lowercase` makes of a text.
pub uninterp spec fn lowercased(s: Seq<char>) -> Seq<char>;

/// Relies on `str::trim`: the text without leading and trailing whitespace, which
/// depends on the text alone.
#[verifier::external_body]
fn trim(s: &str) -> (r: &str)
    ensures
        r@ == trimmed(s@),
{
    s.trim()
}

/// Relies on `str::to_lowercase`: the lowercase form of the text, which depends on the
/// text alone.
#[verifier::external_body]
fn to_lowercase(s: &str) -> (r: String)
    ensures
        r@ == lowercased(s@),
{
    s.to_lowercase()
}

pub open spec fn is_prefix(p: Seq<char>, s: Seq<char>) -> bool {
    p.len() <= s.len() && s.subrange(0, p.len() as int) == p
}

/// Whether `p` is a prefix of `s`, compared character by character.
fn starts_with(s: &str, p: &str) -> (r: bool)
    ensures
        r == is_prefix(p@, s@),
{
    let pl = p.unicode_len();
    let sl = s.unicode_len();
    if pl > sl {
        return false;
    }
    let mut i: usize = 0;
    while i < pl
        invariant
            i <= pl,
            pl == p@.len(),
            sl == s@.len(),
            pl <= sl,
            forall|k: int| 0 <= k < i ==> #[trigger] s@[k] == p@[k],
        decreases pl - i,
    {
        if s.get_char(i) != p.get_char(i) {
            proof {
                assert(s@.subrange(0, pl as int)[i as int] != p@[i as int]);
            }
            return false;
        }
        i = i + 1;
    }
    proof {
        assert(s@.subrange(0, pl as int) =~= p@);
    }
    true
}

/// A name as menus compare it: trimmed, then lowercase.
pub fn normalize_name(name: &str) -> (r: String)
    ensures
        r@ == lowercased(trimmed(name@)),
{
    to_lowercase(trim(name))
}

/// The entry a typed name selects, scanning `labels` (already normalized) in order: the
/// last entry whose label starts with `name`; an entry whose label does not match moves
/// the selection to "Back" (index `labels.len()`) when the menu has one and `name` is a
/// prefix of "back".
pub open spec fn scan_selection(labels: Seq<Seq<char>>, name: Seq<char>, back: bool, n: int, start: Option<usize>) -> Option<usize>
    decreases labels.len(),
{
    if labels.len() == 0 {
        start
    } else {
        let i = labels.len() - 1;
        if is_prefix(name, labels[i]) {
            Some(i as usize)
        } else if back {
            Some(n as usize)
        } else {
            scan_selection(labels.drop_last(), name, back, n, start)
        }
    }
}

/// A stack of menus: the entries shown now, the menus opened before, and the focus.
pub struct Menu<I> {
    items: Vec<I>,
    prev: Vec<Vec<I>>,
    selected: Option<usize>,
}

impl<I> Menu<I> {
    pub closed spec fn entries(self) -> Seq<I> {
        self.items@
    }

    pub closed spec fn history(self) -> Seq<Seq<I>> {
        self.prev@.map_values(|v: Vec<I>| v@)
    }

    pub closed spec fn focus(self) -> Option<usize> {
        self.selected
    }

    pub open spec fn spec_has_back(self) -> bool {
        self.history().len() > 0
    }

    /// The index of the last entry the focus can reach: "Back" when there is one.
    pub open spec fn last_entry(self) -> int {
        if self.spec_has_back() {
            self.entries().len() as int
        } else {
            self.entries().len() - 1
        }
    }

    /// `f` and `r` are what acting on the focused entry of this menu gives: nothing without
    /// focus; "Back" returns to the menu before; an entry's action either gives the result,
    /// leaving the menu as it is, or opens a submenu, remembering this one.
    pub open spec fn acted_on<T>(self, f: Menu<I>, r: Option<T>) -> bool {
        match self.focus() {
            None => r is None && f == self,
            Some(s) => if s == self.entries().len() {
                &&& r is None
                &&& f.focus() is None
                &&& self.spec_has_back() ==> f.entries() == self.history().last() && f.history() == self.history().drop_last()
                &&& !self.spec_has_back() ==> f.entries() == self.entries() && f.history() == self.history()
            } else if s < self.entries().len() {
                ||| r is Some && f == self
                ||| r is None && f.history() == self.history().push(self.entries()) && f.focus() is None
            } else {
                r is None && f == self
            },
        }
    }

    pub fn new(items: Vec<I>) -> (r: Menu<I>)
        ensures
            r.entries() == items@,
            r.history().len() == 0,
            r.focus() is None,
    {
        Menu { items, prev: Vec::new(), selected: None }
    }

    /// The focused entry; the number of entries stands for "Back".
    pub fn selected(&self) -> (r: Option<usize>)
        ensures
            r == self.focus(),
    {
        self.selected
    }

    pub fn entry_count(&self) -> (r: usize)
        ensures
            r == self.entries().len(),
    {
        self.items.len()
    }

    /// The label of entry `i`.
    pub fn label_at<State, T>(&self, i: usize, state: &State) -> String where I: MenuItem<State, T>
        requires
            i < self.entries().len(),
    {
        self.items[i].label(state)
    }

    pub fn has_back(&self) -> (r: bool)
        ensures
            r == self.spec_has_back(),
    {
        self.prev.len() > 0
    }

    /// Moves the focus one entry up or down, stopping at either end; with no focus, Up
    /// goes to the last entry and Down to the first.
    pub fn move_focus(&mut self, direction: MenuDirection)
        requires
            old(self).entries().len() > 0 || old(self).spec_has_back(),
            old(self).entries().len() < usize::MAX,
        ensures
            final(self).entries() == old(self).entries(),
            final(self).history() == old(self).history(),
            final(self).focus() == match direction {
                MenuDirection::Up => match old(self).focus() {
                    Some(cur) => Some(if cur >= 1 { (cur - 1) as usize } else { 0usize }),
                    None => Some(old(self).last_entry() as usize),
                },
                MenuDirection::Down => match old(self).focus() {
                    Some(cur) => Some(if cur + 1 <= old(self).last_entry() { (cur + 1) as usize } else { old(self).last_entry() as usize }),
                    None => Some(0usize),
                },
            },
    {
        let last_entry_index = if self.has_back() { self.items.len() } else { self.items.len() - 1 };
        match direction {
            MenuDirection::Up => {
                match self.selected {
                    Some(cur) => {
                        self.selected = Some(if cur >= 1 { cur - 1 } else { 0 });
                    },
                    None => {
                        self.selected = Some(last_entry_index);
                    },
                }
            },
            MenuDirection::Down => {
                match self.selected {
                    Some(cur) => {
                        self.selected = Some(if cur < last_entry_index { cur + 1 } else { last_entry_index });
                    },
                    None => {
                        self.selected = Some(0);
                    },
                }
            },
        }
    }

    /// Returns to the menu opened before, if any, and clears the focus.
    pub fn go_back(&mut self)
        ensures
            old(self).spec_has_back() ==> final(self).entries() == old(self).history().last()
                && final(self).history() == old(self).history().drop_last(),
            !old(self).spec_has_back() ==> final(self).entries() == old(self).entries()
                && final(self).history() == old(self).history(),
            final(self).focus() is None,
    {
        match self.prev.pop() {
            Some(items) => {
                self.items = items;
                proof {
                    assert(self.prev@.map_values(|v: Vec<I>| v@) =~= old(self).prev@.map_values(|v: Vec<I>| v@).drop_last());
                }
            },
            None => {},
        }
        self.selected = None;
    }

    /// Follows what choosing an entry led to: opens a submenu (remembering the current
    /// one) and gives `None`, or gives the result and leaves the menu as it is.
    pub fn follow<T>(&mut self, action: MenuAction<I, T>) -> (r: Option<T>)
        ensures
            match action {
                MenuAction::Done(t) => r == Some(t) && *final(self) == *old(self),
                MenuAction::MenuItem(items) => {
                    &&& r is None
                    &&& final(self).entries() == items@
                    &&& final(self).history() == old(self).history().push(old(self).entries())
                    &&& final(self).focus() is None
                },
            },
    {
        match action {
            MenuAction::MenuItem(items) => {
                let mut current = items;
                std::mem::swap(&mut self.items, &mut current);
                self.prev.push(current);
                self.selected = None;
                proof {
                    assert(self.prev@.map_values(|v: Vec<I>| v@) =~= old(self).prev@.map_values(|v: Vec<I>| v@).push(old(self).items@));
                }
                None
            },
            MenuAction::Done(output) => Some(output),
        }
    }

    /// Acts on the focused entry: an entry is asked for its action, which is followed;
    /// "Back" returns to the menu before. Without focus nothing happens.
    pub fn select_current_selection<State, T>(&mut self, state: &State) -> (r: Option<T>) where I: MenuItem<State, T>
        ensures
            old(self).acted_on(*final(self), r),
    {
        match self.selected {
            Some(selected) => {
                if selected < self.items.len() {
                    let action = self.items[selected].action(state);
                    self.follow(action)
                } else if selected == self.items.len() {
                    self.go_back();
                    None
                } else {
                    None
                }
            },
            None => None,
        }
    }

    /// Selects the entry named by `name` (see `scan_selection`; names and labels are
    /// compared normalized) and acts on it. An empty name does nothing.
    pub fn select_by_name<State, T>(&mut self, name: &str, state: &State) -> (r: Option<T>) where I: MenuItem<State, T>
        ensures
            lowercased(trimmed(name@)).len() == 0 ==> r is None && *final(self) == *old(self),
            lowercased(trimmed(name@)).len() > 0 ==> exists|labels: Seq<Seq<char>>, mid: Menu<I>| #![trigger mid.acted_on(*final(self), r), labels.len()] {
                &&& labels.len() == old(self).entries().len()
                &&& forall|i: int| 0 <= i < labels.len() ==> exists|s: Seq<char>| #[trigger] labels[i] == lowercased(trimmed(s))
                &&& mid.entries() == old(self).entries()
                &&& mid.history() == old(self).history()
                &&& mid.focus() == match scan_selection(
                    labels,
                    lowercased(trimmed(name@)),
                    old(self).spec_has_back() && is_prefix(lowercased(trimmed(name@)), "back"@),
                    labels.len() as int,
                    None,
                ) {
                    Some(i) => Some(i),
                    None => old(self).focus(),
                }
                &&& mid.acted_on(*final(self), r)
            },
    {
        let normalized_name = normalize_name(name);
        if normalized_name.as_str().is_empty() {
            return None;
        }
        let mut labels: Vec<String> = Vec::new();
        let mut i: usize = 0;
        while i < self.items.len()
            invariant
                i <= self.items@.len(),
                labels@.len() == i,
                forall|j: int| 0 <= j < i ==> exists|s: Seq<char>| #[trigger] labels@[j]@ == lowercased(trimmed(s)),
            decreases self.items@.len() - i,
        {
            let label = self.items[i].label(state);
            let normalized = normalize_name(label.as_str());
            proof {
                assert(normalized@ == lowercased(trimmed(label@)));
            }
            labels.push(normalized);
            proof {
                assert forall|j: int| 0 <= j < i + 1 implies exists|s: Seq<char>| #[trigger] labels@[j]@ == lowercased(trimmed(s)) by {
                    if j == i {
                        assert(labels@[j]@ == lowercased(trimmed(label@)));
                    }
                }
            }
            i = i + 1;
        }
        let back = self.has_back() && starts_with("back", normalized_name.as_str());
        match pick_by_name(&labels, normalized_name.as_str(), back) {
            Some(index) => {
                self.selected = Some(index);
            },
            None => {},
        }
        let ghost mid = *self;
        let ghost ls = labels@.map_values(|l: String| l@);
        proof {
            assert forall|j: int| 0 <= j < ls.len() implies exists|s: Seq<char>| #[trigger] ls[j] == lowercased(trimmed(s)) by {
                assert(ls[j] == labels@[j]@);
            }
        }
        let r = self.select_current_selection(state);
        proof {
            assert(mid.acted_on(*self, r));
        }
        r
    }
}

/// The selection that `scan_selection` describes, starting from no selection.
pub fn pick_by_name(labels: &Vec<String>, name: &str, back: bool) -> (r: Option<usize>)
    ensures
        r == scan_selection(labels@.map_values(|l: String| l@), name@, back, labels@.len() as int, None),
{
    let mut selected: Option<usize> = None;
    let mut i: usize = 0;
    while i < labels.len()
        invariant
            i <= labels@.len(),
            selected == scan_selection(labels@.subrange(0, i as int).map_values(|l: String| l@), name@, back, labels@.len() as int, None),
        decreases labels@.len() - i,
    {
        proof {
            let next = labels@.subrange(0, i as int + 1).map_values(|l: String| l@);
            assert(next.drop_last() =~= labels@.subrange(0, i as int).map_values(|l: String| l@));
            assert(next[i as int] == labels@[i as int]@);
        }
        if starts_with(labels[i].as_str(), name) {
            selected = Some(i);
        } else if back {
            selected = Some(labels.len());
        }
        i = i + 1;
    }
    assert(labels@.subrange(0, labels@.len() as int) =~= labels@);
    selected
}

} // verus!
