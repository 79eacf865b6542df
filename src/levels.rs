use vstd::prelude::*;

verus! {

/// A level as a value: its capacity, how many groups are chained in it since
/// it was last reset, and its head (the group placed in it last).
pub type LevelView = (nat, nat, Option<i64>);

/// One level of the stack.
pub struct Level {
    max_length: usize,
    current_chain_length: usize,
    current: Option<i64>,
}

/// The levels that decide where each group of the new forest is attached.
pub struct LevelStack {
    levels: Vec<Level>,
}

pub open spec fn level_has_space(l: LevelView) -> bool {
    l.1 < l.0
}

/// The lowest level, from `i` upward, that has space.
pub open spec fn first_space_from(v: Seq<LevelView>, i: int) -> Option<int>
    decreases v.len() - i,
{
    if i < 0 || i >= v.len() {
        None
    } else if level_has_space(v[i]) {
        Some(i)
    } else {
        first_space_from(v, i + 1)
    }
}

/// The level that `first_space_from` picks has space, and those it passes over do not.
pub proof fn lemma_first_space_from(v: Seq<LevelView>, i: int)
    requires
        0 <= i,
    ensures
        match first_space_from(v, i) {
            Some(k) => i <= k < v.len() && level_has_space(v[k]) && forall|t: int|
                i <= t < k ==> !level_has_space(#[trigger] v[t]),
            None => forall|t: int| i <= t < v.len() ==> !level_has_space(#[trigger] v[t]),
        },
    decreases v.len() - i,
{
    if i < v.len() && !level_has_space(v[i]) {
        lemma_first_space_from(v, i + 1);
    }
}

pub open spec fn first_space(v: Seq<LevelView>) -> Option<int> {
    first_space_from(v, 0)
}

pub open spec fn stack_has_space(v: Seq<LevelView>) -> bool {
    first_space(v) is Some
}

/// The predecessor offered to the next group: the head of the lowest level
/// with space, if any level has space.
pub open spec fn previous_of(v: Seq<LevelView>) -> Option<i64> {
    match first_space(v) {
        Some(i) => v[i].2,
        None => None,
    }
}

/// Placing `s`: it joins the chain of the lowest level with space, and every
/// full level below it restarts with `s` as its only member. When no level has
/// space, every level restarts with `s`.
pub open spec fn placed(v: Seq<LevelView>, s: i64) -> Seq<LevelView> {
    Seq::new(
        v.len(),
        |j: int|
            match first_space(v) {
                Some(i) => if j < i {
                    (v[j].0, 1nat, Some(s))
                } else if j == i {
                    (v[j].0, v[j].1 + 1, Some(s))
                } else {
                    v[j]
                },
                None => (v[j].0, 1nat, Some(s)),
            },
    )
}

/// How many groups the levels from `t` upward hold.
pub open spec fn held_from(v: Seq<LevelView>, t: int) -> nat
    decreases v.len() - t,
{
    if t < 0 || t >= v.len() {
        0
    } else {
        v[t].1 + held_from(v, t + 1)
    }
}

/// The sum of the configured level sizes from `t` upward.
pub open spec fn capacity_from(sizes: Seq<usize>, t: int) -> nat
    decreases sizes.len() - t,
{
    if t < 0 || t >= sizes.len() {
        0
    } else {
        sizes[t] as nat + capacity_from(sizes, t + 1)
    }
}

/// Levels that agree from `t` upward hold as many groups from there.
pub proof fn lemma_held_from_agree(v: Seq<LevelView>, w: Seq<LevelView>, t: int)
    requires
        0 <= t,
        v.len() == w.len(),
        forall|u: int| t <= u < v.len() ==> (#[trigger] v[u]).1 == w[u].1,
    ensures
        held_from(v, t) == held_from(w, t),
    decreases v.len() - t,
{
    if t < v.len() {
        lemma_held_from_agree(v, w, t + 1);
    }
}

/// A lower level starts a suffix that holds at least as much.
pub proof fn lemma_held_from_mono(v: Seq<LevelView>, t: int, u: int)
    requires
        0 <= t <= u,
    ensures
        held_from(v, u) <= held_from(v, t),
    decreases u - t,
{
    if t < u && t < v.len() {
        lemma_held_from_mono(v, t + 1, u);
    }
}

/// No suffix of the levels holds more than the capacities allow.
pub proof fn lemma_held_within_capacity(v: Seq<LevelView>, sizes: Seq<usize>, t: int)
    requires
        0 <= t,
        v.len() == sizes.len(),
        levels_wf(v),
        forall|u: int| 0 <= u < v.len() ==> (#[trigger] v[u]).0 == sizes[u] as nat,
    ensures
        held_from(v, t) <= capacity_from(sizes, t),
    decreases v.len() - t,
{
    if t < v.len() {
        lemma_held_within_capacity(v, sizes, t + 1);
    }
}

/// Every level has a capacity of at least one and holds no more than it.
pub open spec fn levels_wf(v: Seq<LevelView>) -> bool {
    forall|j: int| 0 <= j < v.len() ==> (#[trigger] v[j]).0 >= 1 && v[j].1 <= v[j].0
}

/// The levels as configured, all empty.
pub open spec fn fresh_levels(sizes: Seq<usize>) -> Seq<LevelView> {
    Seq::new(sizes.len(), |j: int| (sizes[j] as nat, 0nat, None::<i64>))
}

pub closed spec fn level_view(l: Level) -> LevelView {
    (l.max_length as nat, l.current_chain_length as nat, l.current)
}

impl View for LevelStack {
    type V = Seq<LevelView>;

    closed spec fn view(&self) -> Seq<LevelView> {
        Seq::new(self.levels@.len(), |j: int| level_view(self.levels@[j]))
    }
}

impl LevelStack {
    /// A stack with one empty level per configured size.
    pub fn new(level_sizes: &Vec<usize>) -> (r: LevelStack)
        requires
            forall|j: int| 0 <= j < level_sizes@.len() ==> #[trigger] level_sizes@[j] >= 1,
        ensures
            r@ == fresh_levels(level_sizes@),
            levels_wf(r@),
    {
        let mut levels: Vec<Level> = Vec::new();
        let mut i: usize = 0;
        while i < level_sizes.len()
            invariant
                i <= level_sizes@.len(),
                levels@.len() == i,
                forall|j: int|
                    0 <= j < i ==> level_view(#[trigger] levels@[j]) == (
                        level_sizes@[j] as nat,
                        0nat,
                        None::<i64>,
                    ),
            decreases level_sizes@.len() - i,
        {
            levels.push(Level { max_length: level_sizes[i], current_chain_length: 0, current: None });
            i = i + 1;
        }
        let r = LevelStack { levels };
        assert(r@ =~= fresh_levels(level_sizes@));
        r
    }

    /// The index of the lowest level with space.
    fn first_space_index(&self) -> (r: Option<usize>)
        ensures
            match r {
                Some(i) => first_space(self@) == Some(i as int),
                None => first_space(self@) is None,
            },
    {
        let mut i: usize = 0;
        while i < self.levels.len()
            invariant
                i <= self.levels@.len(),
                first_space(self@) == first_space_from(self@, i as int),
            decreases self.levels@.len() - i,
        {
            let l = &self.levels[i];
            assert(self@[i as int] == level_view(self.levels@[i as int]));
            if l.current_chain_length < l.max_length {
                return Some(i);
            }
            i = i + 1;
        }
        None
    }

    /// Whether any level has space.
    pub fn has_space(&self) -> (r: bool)
        ensures
            r == stack_has_space(self@),
    {
        self.first_space_index().is_some()
    }

    /// The predecessor for the next group placed.
    pub fn find_previous(&self) -> (r: Option<i64>)
        ensures
            r == previous_of(self@),
    {
        proof {
            lemma_first_space_from(self@, 0);
        }
        match self.first_space_index() {
            Some(i) => {
                assert(self@[i as int] == level_view(self.levels@[i as int]));
                self.levels[i].current
            },
            None => None,
        }
    }

    /// Places `sid` in the stack.
    pub fn place(&mut self, sid: i64)
        requires
            levels_wf(old(self)@),
        ensures
            final(self)@ == placed(old(self)@, sid),
            levels_wf(final(self)@),
    {
        let ghost v = self@;
        let first = self.first_space_index();
        proof {
            lemma_first_space_from(v, 0);
        }
        let mut j: usize = 0;
        while j < self.levels.len()
            invariant
                levels_wf(v),
                v.len() == self.levels@.len(),
                j <= self.levels@.len(),
                match first {
                    Some(i) => first_space(v) == Some(i as int) && i < v.len() && level_has_space(
                        v[i as int],
                    ),
                    None => first_space(v) is None,
                },
                forall|t: int|
                    0 <= t < j ==> level_view(#[trigger] self.levels@[t]) == placed(v, sid)[t],
                forall|t: int|
                    j <= t < self.levels@.len() ==> level_view(#[trigger] self.levels@[t]) == v[t],
            decreases self.levels@.len() - j,
        {
            assert(level_view(self.levels@[j as int]) == v[j as int]);
            assert(v[j as int].0 >= 1 && v[j as int].1 <= v[j as int].0);
            let cap = self.levels[j].max_length;
            let len = self.levels[j].current_chain_length;
            let new_len: usize = match first {
                Some(i) => if j < i {
                    1
                } else if j == i {
                    assert(level_has_space(v[j as int]));
                    len + 1
                } else {
                    len
                },
                None => 1,
            };
            let new_cur = match first {
                Some(i) => if j <= i {
                    Some(sid)
                } else {
                    self.levels[j].current
                },
                None => Some(sid),
            };
            self.levels.set(j, Level { max_length: cap, current_chain_length: new_len, current: new_cur });
            j = j + 1;
        }
        assert(self@ =~= placed(v, sid));
        assert forall|j: int| 0 <= j < v.len() implies (#[trigger] placed(v, sid)[j]).0 >= 1
            && placed(v, sid)[j].1 <= placed(v, sid)[j].0 by {
            assert(v[j].0 >= 1 && v[j].1 <= v[j].0);
        }
    }
}

} // verus!
