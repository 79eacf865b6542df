use vstd::prelude::*;

verus! {

/// The key of a state entry, as a value: its event type and its state key.
pub type KeyView = (Seq<char>, Seq<char>);

/// One row of a state map: `(typ, state_key) -> event_id`.
pub struct StateEntry {
    pub typ: String,
    pub state_key: String,
    pub event_id: String,
}

impl StateEntry {
    pub open spec fn key(&self) -> KeyView {
        (self.typ@, self.state_key@)
    }

    pub fn new(typ: String, state_key: String, event_id: String) -> (r: StateEntry)
        ensures
            r.typ@ == typ@,
            r.state_key@ == state_key@,
            r.event_id@ == event_id@,
    {
        StateEntry { typ, state_key, event_id }
    }

    /// A copy of the row, field by field.
    pub fn duplicate(&self) -> (r: StateEntry)
        ensures
            r.typ@ == self.typ@,
            r.state_key@ == self.state_key@,
            r.event_id@ == self.event_id@,
    {
        StateEntry {
            typ: self.typ.clone(),
            state_key: self.state_key.clone(),
            event_id: self.event_id.clone(),
        }
    }
}

/// A row as a value: its key and its event id.
pub type RowView = (KeyView, Seq<char>);

pub open spec fn row_view(e: StateEntry) -> RowView {
    (e.key(), e.event_id@)
}

/// Where the row with key `k` stands, looking from the end.
pub open spec fn index_of(rv: Seq<RowView>, k: KeyView) -> Option<int>
    decreases rv.len(),
{
    if rv.len() == 0 {
        None
    } else if rv.last().0 == k {
        Some(rv.len() - 1)
    } else {
        index_of(rv.drop_last(), k)
    }
}

/// The rows after setting one: an existing row of that key is overwritten in
/// place, otherwise the row is appended.
pub open spec fn insert_row(rv: Seq<RowView>, r: RowView) -> Seq<RowView> {
    match index_of(rv, r.0) {
        Some(i) => rv.update(i, r),
        None => rv.push(r),
    }
}

/// The rows after setting each row of `other` in turn.
pub open spec fn insert_rows(rv: Seq<RowView>, other: Seq<RowView>) -> Seq<RowView>
    decreases other.len(),
{
    if other.len() == 0 {
        rv
    } else {
        insert_row(insert_rows(rv, other.drop_last()), other.last())
    }
}

/// With keys held once, `index_of` finds the row of a key exactly when there is one.
pub proof fn lemma_index_of(rv: Seq<RowView>, k: KeyView)
    requires
        forall|i: int, j: int|
            0 <= i < rv.len() && 0 <= j < rv.len() && i != j ==> (#[trigger] rv[i]).0 != (
            #[trigger] rv[j]).0,
    ensures
        match index_of(rv, k) {
            Some(i) => 0 <= i < rv.len() && rv[i].0 == k,
            None => forall|i: int| 0 <= i < rv.len() ==> (#[trigger] rv[i]).0 != k,
        },
    decreases rv.len(),
{
    if rv.len() > 0 && rv.last().0 != k {
        let d = rv.drop_last();
        assert forall|i: int, j: int|
            0 <= i < d.len() && 0 <= j < d.len() && i != j implies (#[trigger] d[i]).0 != (
            #[trigger] d[j]).0 by {
            assert(d[i] == rv[i] && d[j] == rv[j]);
        }
        lemma_index_of(d, k);
        match index_of(d, k) {
            Some(i) => {
                assert(d[i] == rv[i]);
            },
            None => {
                assert forall|i: int| 0 <= i < rv.len() implies (#[trigger] rv[i]).0 != k by {
                    if i < d.len() {
                        assert(d[i] == rv[i]);
                    }
                }
            },
        }
    }
}

/// A map from `(typ, state_key)` to `event_id`, kept as rows in insertion
/// order so that walking it is deterministic.
pub struct StateMap {
    entries: Vec<StateEntry>,
    contents: Ghost<Map<KeyView, Seq<char>>>,
}

impl View for StateMap {
    type V = Map<KeyView, Seq<char>>;

    closed spec fn view(&self) -> Map<KeyView, Seq<char>> {
        self.contents@
    }
}

/// The rows of `rows` describe exactly the map `m`, each key once.
pub open spec fn rows_describe(rows: Seq<StateEntry>, m: Map<KeyView, Seq<char>>) -> bool {
    &&& forall|i: int, j: int|
        0 <= i < rows.len() && 0 <= j < rows.len() && i != j ==> #[trigger] rows[i].key()
            != #[trigger] rows[j].key()
    &&& forall|i: int|
        0 <= i < rows.len() ==> m.contains_key(#[trigger] rows[i].key()) && m[rows[i].key()]
            == rows[i].event_id@
    &&& forall|k: KeyView| #[trigger]
        m.contains_key(k) ==> exists|i: int| 0 <= i < rows.len() && rows[i].key() == k
}

impl StateMap {
    /// Well-formedness: the rows hold each key once, and they are the map.
    pub closed spec fn wf(&self) -> bool {
        rows_describe(self.entries@, self.contents@)
    }

    /// The rows as values, in the order in which they are walked.
    pub closed spec fn rows(&self) -> Seq<RowView> {
        self.entries@.map_values(|e: StateEntry| row_view(e))
    }

    /// The number of rows.
    pub closed spec fn spec_len(&self) -> nat {
        self.entries@.len()
    }

    pub fn new() -> (r: StateMap)
        ensures
            r.wf(),
            r@ == Map::<KeyView, Seq<char>>::empty(),
            r.spec_len() == 0,
            r.rows() == Seq::<RowView>::empty(),
    {
        let r = StateMap { entries: Vec::new(), contents: Ghost(Map::empty()) };
        assert(r.rows() =~= Seq::<RowView>::empty());
        r
    }

    /// Where the row of `(typ, state_key)` stands, if there is one.
    fn find(&self, typ: &String, state_key: &String) -> (r: Option<usize>)
        requires
            self.wf(),
        ensures
            match r {
                Some(i) => i < self.entries.len() && self.entries@[i as int].key() == (
                typ@,
                state_key@,
                ),
                None => !self@.contains_key((typ@, state_key@)),
            },
    {
        let mut i: usize = 0;
        while i < self.entries.len()
            invariant
                self.wf(),
                i <= self.entries.len(),
                forall|j: int| 0 <= j < i ==> #[trigger] self.entries@[j].key() != (typ@, state_key@),
            decreases self.entries.len() - i,
        {
            let e = &self.entries[i];
            if e.typ == *typ && e.state_key == *state_key {
                return Some(i);
            }
            i = i + 1;
        }
        None
    }

    /// The value stored under `(typ, state_key)`.
    pub fn get(&self, typ: &String, state_key: &String) -> (r: Option<&String>)
        requires
            self.wf(),
        ensures
            match r {
                Some(v) => self@.contains_key((typ@, state_key@)) && self@[(typ@, state_key@)]
                    == v@,
                None => !self@.contains_key((typ@, state_key@)),
            },
    {
        match self.find(typ, state_key) {
            Some(i) => Some(&self.entries[i].event_id),
            None => None,
        }
    }

    /// Sets `(typ, state_key)` to `event_id`, overwriting an earlier value.
    pub fn insert(&mut self, typ: String, state_key: String, event_id: String)
        requires
            old(self).wf(),
        ensures
            final(self).wf(),
            final(self)@ == old(self)@.insert((typ@, state_key@), event_id@),
            final(self).rows() == insert_row(old(self).rows(), ((typ@, state_key@), event_id@)),
    {
        let ghost k = (typ@, state_key@);
        let ghost m = self.contents@.insert(k, event_id@);
        let ghost rv = self.rows();
        proof {
            assert forall|i: int, j: int|
                0 <= i < rv.len() && 0 <= j < rv.len() && i != j implies (#[trigger] rv[i]).0 != (
                #[trigger] rv[j]).0 by {
                assert(self.entries@[i].key() != self.entries@[j].key());
            }
            lemma_index_of(rv, k);
        }
        match self.find(&typ, &state_key) {
            Some(i) => {
                let ghost old_rows = self.entries@;
                self.entries.set(i, StateEntry { typ, state_key, event_id });
                self.contents = Ghost(m);
                assert(index_of(rv, k) == Some(i as int)) by {
                    match index_of(rv, k) {
                        Some(i2) => {
                            if i2 != i {
                                assert(old_rows[i2].key() != old_rows[i as int].key());
                            }
                        },
                        None => {
                            assert(rv[i as int].0 == k);
                        },
                    }
                }
                assert(self.rows() =~= rv.update(i as int, (k, event_id@)));
                assert forall|k2: KeyView| #[trigger] m.contains_key(k2) implies exists|j: int|
                    0 <= j < self.entries@.len() && self.entries@[j].key() == k2 by {
                    if k2 != k {
                        let j = choose|j: int| 0 <= j < old_rows.len() && old_rows[j].key() == k2;
                        assert(self.entries@[j].key() == k2);
                    } else {
                        assert(self.entries@[i as int].key() == k2);
                    }
                }
            },
            None => {
                let ghost old_rows = self.entries@;
                self.entries.push(StateEntry { typ, state_key, event_id });
                self.contents = Ghost(m);
                assert(index_of(rv, k) is None) by {
                    match index_of(rv, k) {
                        Some(i2) => {
                            assert(self@.contains_key(old_rows[i2].key()));
                        },
                        None => {},
                    }
                }
                assert(self.rows() =~= rv.push((k, event_id@)));
                assert forall|k2: KeyView| #[trigger] m.contains_key(k2) implies exists|j: int|
                    0 <= j < self.entries@.len() && self.entries@[j].key() == k2 by {
                    if k2 != k {
                        let j = choose|j: int| 0 <= j < old_rows.len() && old_rows[j].key() == k2;
                        assert(self.entries@[j].key() == k2);
                    } else {
                        assert(self.entries@[old_rows.len() as int].key() == k2);
                    }
                }
            },
        }
    }

    /// Overwrites `self` with every row of `other`: later writes win.
    pub fn extend(&mut self, other: &StateMap)
        requires
            old(self).wf(),
            other.wf(),
        ensures
            final(self).wf(),
            final(self)@ == old(self)@.union_prefer_right(other@),
            final(self).rows() == insert_rows(old(self).rows(), other.rows()),
    {
        let ghost start = self@;
        let ghost start_rows = self.rows();
        let mut i: usize = 0;
        while i < other.entries.len()
            invariant
                self.wf(),
                other.wf(),
                i <= other.entries.len(),
                self@ == start.union_prefer_right(
                    other@.restrict(
                        Set::new(|k: KeyView| exists|j: int| 0 <= j < i && other.entries@[j].key() == k),
                    ),
                ),
                self.rows() == insert_rows(start_rows, other.rows().take(i as int)),
            decreases other.entries.len() - i,
        {
            let e = other.entries[i].duplicate();
            let ghost before = Set::new(
                |k: KeyView| exists|j: int| 0 <= j < i && other.entries@[j].key() == k,
            );
            let ghost after = Set::new(
                |k: KeyView| exists|j: int| 0 <= j < i + 1 && other.entries@[j].key() == k,
            );
            assert(other.entries@[i as int].key() == e.key());
            self.insert(e.typ, e.state_key, e.event_id);
            assert(other.rows().take(i + 1).drop_last() =~= other.rows().take(i as int));
            assert(other.rows().take(i + 1).last() == row_view(other.entries@[i as int]));
            assert(after =~= before.insert(e.key()));
            assert(self@ =~= start.union_prefer_right(other@.restrict(after)));
            i = i + 1;
        }
        let ghost all = Set::new(
            |k: KeyView| exists|j: int| 0 <= j < i && other.entries@[j].key() == k,
        );
        assert(other@.restrict(all) =~= other@);
        assert(other.rows().take(i as int) =~= other.rows());
    }

    /// The number of rows, one per key.
    pub fn len(&self) -> (r: usize)
        requires
            self.wf(),
        ensures
            r == self.spec_len(),
            r == self@.dom().len(),
    {
        proof {
            self.lemma_len();
        }
        self.entries.len()
    }

    /// There are as many rows as keys.
    pub proof fn lemma_len(&self)
        requires
            self.wf(),
        ensures
            self.spec_len() == self@.dom().len(),
    {
        let ks = self.entries@.map_values(|e: StateEntry| e.key());
        assert(ks.no_duplicates()) by {
            assert forall|i: int, j: int| 0 <= i < ks.len() && 0 <= j < ks.len() && i != j implies ks[i]
                != ks[j] by {
                assert(self.entries@[i].key() != self.entries@[j].key());
            }
        }
        assert forall|k: KeyView| ks.to_set().contains(k) <==> self@.dom().contains(k) by {
            if ks.to_set().contains(k) {
                let i = choose|i: int| 0 <= i < ks.len() && ks[i] == k;
                assert(self@.contains_key(self.entries@[i].key()));
            }
            if self@.dom().contains(k) {
                let i = choose|i: int| 0 <= i < self.entries@.len() && self.entries@[i].key() == k;
                assert(ks[i] == k);
            }
        }
        assert(ks.to_set() =~= self@.dom());
        ks.unique_seq_to_set();
    }

    pub fn is_empty(&self) -> (r: bool)
        requires
            self.wf(),
        ensures
            r <==> self@.dom() == Set::<KeyView>::empty(),
            r <==> self.rows().len() == 0,
    {
        if self.entries.len() == 0 {
            assert(self@.dom() =~= Set::<KeyView>::empty());
            true
        } else {
            assert(self@.dom().contains(self.entries@[0].key()));
            false
        }
    }

    /// The rows, in insertion order: each key of the map once, with its value.
    pub fn entries(&self) -> (r: &Vec<StateEntry>)
        requires
            self.wf(),
        ensures
            rows_describe(r@, self@),
            r@.map_values(|e: StateEntry| row_view(e)) == self.rows(),
            r@.len() == self.spec_len(),
    {
        &self.entries
    }

    /// Every key of `self` stands in `other` with the same value.
    pub fn is_submap_of(&self, other: &StateMap) -> (r: bool)
        requires
            self.wf(),
            other.wf(),
        ensures
            r <==> self@.submap_of(other@),
    {
        self.rows_within(other)
    }

    /// Every row of `self` stands in `other` with the same value.
    fn rows_within(&self, other: &StateMap) -> (r: bool)
        requires
            self.wf(),
            other.wf(),
        ensures
            r <==> (forall|k: KeyView| #[trigger]
                self@.contains_key(k) ==> other@.contains_key(k) && other@[k] == self@[k]),
    {
        let mut i: usize = 0;
        while i < self.entries.len()
            invariant
                self.wf(),
                other.wf(),
                i <= self.entries.len(),
                forall|j: int|
                    0 <= j < i ==> other@.contains_key(#[trigger] self.entries@[j].key())
                        && other@[self.entries@[j].key()] == self.entries@[j].event_id@,
            decreases self.entries.len() - i,
        {
            let e = &self.entries[i];
            proof {
                assert(self@.contains_key(self.entries@[i as int].key()));
            }
            match other.get(&e.typ, &e.state_key) {
                Some(v) => {
                    if *v != e.event_id {
                        return false;
                    }
                },
                None => {
                    return false;
                },
            }
            i = i + 1;
        }
        proof {
            assert forall|k: KeyView| #[trigger]
                self@.contains_key(k) implies other@.contains_key(k) && other@[k] == self@[k] by {
                let j = choose|j: int| 0 <= j < self.entries@.len() && self.entries@[j].key() == k;
                assert(other@.contains_key(self.entries@[j].key()));
            }
        }
        true
    }

    /// Whether the two maps hold the same keys with the same values.
    pub fn same_contents(&self, other: &StateMap) -> (r: bool)
        requires
            self.wf(),
            other.wf(),
        ensures
            r <==> self@ == other@,
    {
        let a = self.rows_within(other);
        let b = other.rows_within(self);
        if a && b {
            assert(self@ =~= other@);
        }
        a && b
    }

    /// A copy holding the same rows.
    pub fn duplicate(&self) -> (r: StateMap)
        requires
            self.wf(),
        ensures
            r.wf(),
            r@ == self@,
            r.spec_len() == self.spec_len(),
            r.rows() == self.rows(),
    {
        let mut rows: Vec<StateEntry> = Vec::new();
        let mut i: usize = 0;
        while i < self.entries.len()
            invariant
                self.wf(),
                i <= self.entries.len(),
                rows@.len() == i,
                forall|j: int|
                    0 <= j < i ==> (#[trigger] rows@[j]).typ@ == self.entries@[j].typ@
                        && rows@[j].state_key@ == self.entries@[j].state_key@
                        && rows@[j].event_id@ == self.entries@[j].event_id@,
            decreases self.entries.len() - i,
        {
            let e = self.entries[i].duplicate();
            let ghost prev = rows@;
            rows.push(e);
            assert forall|j: int| 0 <= j < i + 1 implies (#[trigger] rows@[j]).typ@
                == self.entries@[j].typ@ && rows@[j].state_key@ == self.entries@[j].state_key@
                && rows@[j].event_id@ == self.entries@[j].event_id@ by {
                if j < i {
                    assert(rows@[j] == prev[j]);
                }
            }
            i = i + 1;
        }
        let r = StateMap { entries: rows, contents: Ghost(self.contents@) };
        assert forall|j: int| 0 <= j < r.entries@.len() implies #[trigger] r.entries@[j].key()
            == self.entries@[j].key() by {
            assert(r.entries@[j].typ@ == self.entries@[j].typ@);
        }
        assert forall|j: int| 0 <= j < r.entries@.len() implies r@.contains_key(
            #[trigger] r.entries@[j].key(),
        ) && r@[r.entries@[j].key()] == r.entries@[j].event_id@ by {
            assert(self@.contains_key(self.entries@[j].key()));
        }
        assert forall|k: KeyView| #[trigger] r@.contains_key(k) implies exists|j: int|
            0 <= j < r.entries@.len() && r.entries@[j].key() == k by {
            let j = choose|j: int| 0 <= j < self.entries@.len() && self.entries@[j].key() == k;
            assert(r.entries@[j].key() == k);
        }
        assert forall|i: int, j: int|
            0 <= i < r.entries@.len() && 0 <= j < r.entries@.len() && i != j implies #[trigger] r.entries@[i].key()
            != #[trigger] r.entries@[j].key() by {
            assert(self.entries@[i].key() != self.entries@[j].key());
        }
        assert(r.wf());
        assert(r.rows() =~= self.rows()) by {
            assert forall|j: int| 0 <= j < r.entries@.len() implies row_view(#[trigger] r.entries@[j])
                == row_view(self.entries@[j]) by {
                assert(r.entries@[j].key() == self.entries@[j].key());
            }
        }
        r
    }
}

} // verus!
