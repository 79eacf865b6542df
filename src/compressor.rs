use vstd::prelude::*;
use std::collections::BTreeMap;
use vstd::std_specs::iter::IteratorSpec;
use vstd::std_specs::cmp::OrdSpec;
use crate::forest::{
    chain_len, collapse, collapse_rows, collapse_state_maps, forest_wf, lemma_chain_len_insert,
    lemma_collapse_insert, StateGroupEntry,
};
use crate::levels::{
    capacity_from, first_space, fresh_levels, held_from, lemma_first_space_from,
    lemma_held_from_agree, lemma_held_from_mono, lemma_held_within_capacity, levels_wf, placed,
    previous_of, stack_has_space, LevelStack, LevelView,
};
use crate::state_map::{insert_row, KeyView, RowView, StateMap};

verus! {

broadcast use {vstd::std_specs::btree::group_btree_axioms, vstd::laws_cmp::group_laws_cmp};

/// `ks` lists the groups of `f` in ascending order, each once.
pub open spec fn sorted_keys(f: Map<i64, StateGroupEntry>, ks: Seq<i64>) -> bool {
    &&& ks.to_set() == f.dom()
    &&& forall|i: int, j: int| 0 <= i < j < ks.len() ==> #[trigger] ks[i] < #[trigger] ks[j]
}

/// The levels after the first `n` groups of `ks` have been placed.
pub open spec fn levels_after(sizes: Seq<usize>, ks: Seq<i64>, n: nat) -> Seq<LevelView>
    decreases n,
{
    if n == 0 {
        fresh_levels(sizes)
    } else {
        placed(levels_after(sizes, ks, (n - 1) as nat), ks[n - 1])
    }
}

/// Whether group `s` must become a root although the levels may offer a
/// predecessor: no level has space, or the offered predecessor's full state
/// is not contained in that of `s`.
pub open spec fn forced_reset(f: Map<i64, StateGroupEntry>, v: Seq<LevelView>, s: i64) -> bool {
    ||| !stack_has_space(v)
    ||| match previous_of(v) {
        Some(c) => !collapse(f, c).submap_of(collapse(f, s)),
        None => false,
    }
}

/// The predecessor that group `s` gets in the new forest.
pub open spec fn planned_prev(f: Map<i64, StateGroupEntry>, v: Seq<LevelView>, s: i64) -> Option<
    i64,
> {
    if forced_reset(f, v, s) {
        None
    } else {
        previous_of(v)
    }
}

/// The delta that group `s` gets in the new forest: what its full state adds
/// to that of its new predecessor, or its whole state for a root.
pub open spec fn planned_delta(f: Map<i64, StateGroupEntry>, v: Seq<LevelView>, s: i64) -> Map<
    KeyView,
    Seq<char>,
> {
    match planned_prev(f, v, s) {
        Some(c) => collapse(f, s).remove_keys(collapse(f, c).dom()),
        None => collapse(f, s),
    }
}

/// The rows of `rv` whose key `prev` lacks, each set in turn into an empty map.
pub open spec fn delta_rows(rv: Seq<RowView>, prev: Map<KeyView, Seq<char>>) -> Seq<RowView>
    decreases rv.len(),
{
    if rv.len() == 0 {
        Seq::empty()
    } else if prev.contains_key(rv.last().0) {
        delta_rows(rv.drop_last(), prev)
    } else {
        insert_row(delta_rows(rv.drop_last(), prev), rv.last())
    }
}

/// The rows, in order, of the delta that group `s` gets in the new forest.
pub open spec fn planned_rows(f: Map<i64, StateGroupEntry>, v: Seq<LevelView>, s: i64) -> Seq<
    RowView,
> {
    match planned_prev(f, v, s) {
        Some(c) => delta_rows(collapse_rows(f, s), collapse(f, c)),
        None => collapse_rows(f, s),
    }
}

/// `g` holds, for each group of `f`, the delta rows in the planned order.
pub open spec fn rows_planned(
    g: Map<i64, StateGroupEntry>,
    f: Map<i64, StateGroupEntry>,
    sizes: Seq<usize>,
    ks: Seq<i64>,
) -> bool {
    forall|j: int|
        0 <= j < ks.len() ==> (#[trigger] g[ks[j]]).state_map.rows() == planned_rows(
            f,
            levels_after(sizes, ks, j as nat),
            ks[j],
        )
}

/// Whether the new entry of `s` differs from its entry in `f`.
pub open spec fn entry_changes(f: Map<i64, StateGroupEntry>, v: Seq<LevelView>, s: i64) -> bool {
    planned_prev(f, v, s) != f[s].prev_state_group || planned_delta(f, v, s) != f[s].state_map@
}

/// How many of the first `n` groups are forced to become roots.
pub open spec fn count_resets(
    f: Map<i64, StateGroupEntry>,
    sizes: Seq<usize>,
    ks: Seq<i64>,
    n: nat,
) -> nat
    decreases n,
{
    if n == 0 {
        0
    } else {
        count_resets(f, sizes, ks, (n - 1) as nat) + if forced_reset(
            f,
            levels_after(sizes, ks, (n - 1) as nat),
            ks[n - 1],
        ) {
            1nat
        } else {
            0nat
        }
    }
}

/// The summed sizes of the full states of the first `n` groups that are
/// forced to become roots, saturating at `usize::MAX`.
pub open spec fn reset_size(
    f: Map<i64, StateGroupEntry>,
    sizes: Seq<usize>,
    ks: Seq<i64>,
    n: nat,
) -> nat
    decreases n,
{
    if n == 0 {
        0
    } else {
        let before = reset_size(f, sizes, ks, (n - 1) as nat);
        if forced_reset(f, levels_after(sizes, ks, (n - 1) as nat), ks[n - 1]) {
            let t = before + collapse(f, ks[n - 1]).dom().len();
            if t > usize::MAX {
                usize::MAX as nat
            } else {
                t
            }
        } else {
            before
        }
    }
}

/// How many of the first `n` groups get an entry that differs from the old one.
pub open spec fn count_changed(
    f: Map<i64, StateGroupEntry>,
    sizes: Seq<usize>,
    ks: Seq<i64>,
    n: nat,
) -> nat
    decreases n,
{
    if n == 0 {
        0
    } else {
        count_changed(f, sizes, ks, (n - 1) as nat) + if entry_changes(
            f,
            levels_after(sizes, ks, (n - 1) as nat),
            ks[n - 1],
        ) {
            1nat
        } else {
            0nat
        }
    }
}

/// `g` holds, for each group of `f`, the entry that the compressor plans for it.
pub open spec fn compressed_from(
    g: Map<i64, StateGroupEntry>,
    f: Map<i64, StateGroupEntry>,
    sizes: Seq<usize>,
    ks: Seq<i64>,
) -> bool {
    &&& g.dom() == f.dom()
    &&& forall|j: int|
        0 <= j < ks.len() ==> (#[trigger] g[ks[j]]).prev_state_group == planned_prev(
            f,
            levels_after(sizes, ks, j as nat),
            ks[j],
        ) && g[ks[j]].state_map@ == planned_delta(f, levels_after(sizes, ks, j as nat), ks[j])
}

/// Statistics of one compression.
pub struct Stats {
    pub resets_no_suitable_prev: usize,
    pub resets_no_suitable_prev_size: usize,
    pub state_groups_changed: usize,
}

/// The rewritten forest and the statistics of the rewrite.
pub struct Compressor {
    pub new_state_group_map: BTreeMap<i64, StateGroupEntry>,
    pub stats: Stats,
}

/// The groups of `m` in ascending order.
pub(crate) fn sorted_groups(m: &BTreeMap<i64, StateGroupEntry>) -> (r: Vec<i64>)
    ensures
        sorted_keys(m@, r@),
{
    let mut r: Vec<i64> = Vec::new();
    let ghost ks = m.iter().remaining();
    for kv in it: m.iter()
        invariant
            it.seq() == ks,
            r@ == it.seq().take(it.index() as int).map_values(
                |kv: (&i64, &StateGroupEntry)| *kv.0,
            ),
    {
        r.push(*kv.0);
    }
    assert(r@ =~= ks.map_values(|kv: (&i64, &StateGroupEntry)| *kv.0));
    proof {
        assert(vstd::std_specs::btree::increasing_seq(r@));
        vstd::std_specs::btree::axiom_increasing_seq_meaning::<i64>(r@);
        assert forall|i: int, j: int| 0 <= i < j < r@.len() implies #[trigger] r@[i]
            < #[trigger] r@[j] by {
            assert(r@[i].cmp_spec(&r@[j]) is Less);
        }
        assert forall|k: i64| m@.contains_key(k) implies r@.to_set().contains(k) by {
            assert(ks.contains((&k, &m@[k])));
            let i = choose|i: int| 0 <= i < ks.len() && ks[i] == (&k, &m@[k]);
            assert(r@[i] == k);
        }
        assert forall|k: i64| r@.to_set().contains(k) implies m@.contains_key(k) by {
            let i = choose|i: int| 0 <= i < r@.len() && r@[i] == k;
            assert(m@.contains_key(*ks[i].0));
        }
        assert(r@.to_set() =~= m@.dom());
    }
    r
}

/// The delta that takes the full state `prev` to the full state `cur`: the
/// entries of `cur` whose key `prev` lacks. There is none when `prev` holds a
/// key that `cur` lacks or a value that `cur` changes.
pub fn delta_against(prev: &StateMap, cur: &StateMap) -> (r: Option<StateMap>)
    requires
        prev.wf(),
        cur.wf(),
    ensures
        match r {
            Some(d) => prev@.submap_of(cur@) && d.wf() && d@ == cur@.remove_keys(prev@.dom())
                && d.rows() == delta_rows(cur.rows(), prev@),
            None => !prev@.submap_of(cur@),
        },
{
    if !prev.is_submap_of(cur) {
        return None;
    }
    let rows = cur.entries();
    let mut d = StateMap::new();
    let mut i: usize = 0;
    while i < rows.len()
        invariant
            prev.wf(),
            cur.wf(),
            d.wf(),
            crate::state_map::rows_describe(rows@, cur@),
            i <= rows@.len(),
            d@ == cur@.restrict(
                Set::new(|k: KeyView| exists|j: int| 0 <= j < i && rows@[j].key() == k),
            ).remove_keys(prev@.dom()),
            d.rows() == delta_rows(cur.rows().take(i as int), prev@),
            rows@.map_values(|e: crate::state_map::StateEntry| crate::state_map::row_view(e))
                == cur.rows(),
        decreases rows@.len() - i,
    {
        let e = &rows[i];
        let ghost before = Set::new(|k: KeyView| exists|j: int| 0 <= j < i && rows@[j].key() == k);
        let ghost after = Set::new(
            |k: KeyView| exists|j: int| 0 <= j < i + 1 && rows@[j].key() == k,
        );
        assert(after =~= before.insert(rows@[i as int].key()));
        if prev.get(&e.typ, &e.state_key).is_none() {
            let row = e.duplicate();
            d.insert(row.typ, row.state_key, row.event_id);
        }
        assert(d@ =~= cur@.restrict(after).remove_keys(prev@.dom()));
        assert(cur.rows().take(i + 1).drop_last() =~= cur.rows().take(i as int));
        assert(cur.rows()[i as int].0 == rows@[i as int].key());
        i = i + 1;
    }
    let ghost all = Set::new(|k: KeyView| exists|j: int| 0 <= j < i && rows@[j].key() == k);
    assert(cur@.restrict(all) =~= cur@);
    assert(cur.rows().take(i as int) =~= cur.rows());
    Some(d)
}

/// Whether two entries differ in predecessor or in the contents of their delta.
pub(crate) fn entries_differ(a: &StateGroupEntry, b: &StateGroupEntry) -> (r: bool)
    requires
        a.state_map.wf(),
        b.state_map.wf(),
    ensures
        r == (a.prev_state_group != b.prev_state_group || a.state_map@ != b.state_map@),
{
    let same_prev = match (a.prev_state_group, b.prev_state_group) {
        (Some(x), Some(y)) => x == y,
        (None, None) => true,
        _ => false,
    };
    !same_prev || !a.state_map.same_contents(&b.state_map)
}

impl Compressor {
    /// Rewrites the forest `original_state_map`, group by group in ascending
    /// order, attaching each group where the levels configured by
    /// `level_sizes` say, so that every group keeps its full state.
    #[verifier::rlimit(50)]
    pub fn compress(original_state_map: &BTreeMap<i64, StateGroupEntry>, level_sizes: &Vec<usize>) -> (r: Compressor)
        requires
            forest_wf(original_state_map@),
            forall|j: int| 0 <= j < level_sizes@.len() ==> #[trigger] level_sizes@[j] >= 1,
        ensures
            forest_wf(r.new_state_group_map@),
            r.new_state_group_map@.dom() == original_state_map@.dom(),
            forall|s: i64| #[trigger]
                original_state_map@.contains_key(s) ==> collapse(r.new_state_group_map@, s)
                    == collapse(original_state_map@, s),
            forall|s: i64|
                #[trigger] original_state_map@.contains_key(s) && level_sizes@.len() > 0 ==> chain_len(
                    r.new_state_group_map@,
                    s,
                ) <= capacity_from(level_sizes@, 0),
            forall|ks: Seq<i64>|
                #[trigger] sorted_keys(original_state_map@, ks) ==> {
                    &&& compressed_from(
                        r.new_state_group_map@,
                        original_state_map@,
                        level_sizes@,
                        ks,
                    )
                    &&& rows_planned(r.new_state_group_map@, original_state_map@, level_sizes@, ks)
                    &&& r.stats.resets_no_suitable_prev == count_resets(
                        original_state_map@,
                        level_sizes@,
                        ks,
                        ks.len(),
                    )
                    &&& r.stats.resets_no_suitable_prev_size == reset_size(
                        original_state_map@,
                        level_sizes@,
                        ks,
                        ks.len(),
                    )
                    &&& r.stats.state_groups_changed == count_changed(
                        original_state_map@,
                        level_sizes@,
                        ks,
                        ks.len(),
                    )
                },
    {
        let ghost f = original_state_map@;
        let ghost sizes = level_sizes@;
        let ks = sorted_groups(original_state_map);
        let mut stack = LevelStack::new(level_sizes);
        let mut new_map: BTreeMap<i64, StateGroupEntry> = BTreeMap::new();
        let mut resets: usize = 0;
        let mut reset_rows: usize = 0;
        let mut changed: usize = 0;
        let mut i: usize = 0;
        assert(new_map@.dom() =~= ks@.take(0).to_set());
        while i < ks.len()
            invariant
                forest_wf(f),
                f == original_state_map@,
                sizes == level_sizes@,
                sorted_keys(f, ks@),
                i <= ks@.len(),
                stack@ == levels_after(sizes, ks@, i as nat),
                levels_wf(stack@),
                heads_bounded(new_map@, stack@),
                stack@.len() == sizes.len(),
                forall|t: int| 0 <= t < stack@.len() ==> (#[trigger] stack@[t]).0 == sizes[t] as nat,
                forall|j: int|
                    0 <= j < i && sizes.len() > 0 ==> chain_len(new_map@, #[trigger] ks@[j])
                        <= capacity_from(sizes, 0),
                forest_wf(new_map@),
                new_map@.dom() == ks@.take(i as int).to_set(),
                forall|j: int|
                    0 <= j < i ==> collapse(new_map@, #[trigger] ks@[j]) == collapse(f, ks@[j]),
                forall|j: int|
                    0 <= j < i ==> (#[trigger] new_map@[ks@[j]]).prev_state_group == planned_prev(
                        f,
                        levels_after(sizes, ks@, j as nat),
                        ks@[j],
                    ) && new_map@[ks@[j]].state_map@ == planned_delta(
                        f,
                        levels_after(sizes, ks@, j as nat),
                        ks@[j],
                    ),
                forall|j: int|
                    0 <= j < i ==> (#[trigger] new_map@[ks@[j]]).state_map.rows() == planned_rows(
                        f,
                        levels_after(sizes, ks@, j as nat),
                        ks@[j],
                    ),
                resets == count_resets(f, sizes, ks@, i as nat),
                resets <= i,
                reset_rows == reset_size(f, sizes, ks@, i as nat),
                changed == count_changed(f, sizes, ks@, i as nat),
                changed <= i,
            decreases ks@.len() - i,
        {
            let s = ks[i];
            let ghost v = stack@;
            assert(ks@.to_set().contains(s));
            let old_entry = original_state_map.get(&s).unwrap();
            let full = collapse_state_maps(original_state_map, s);
            let full_len = full.len();
            proof {
                lemma_first_space_from(v, 0);
            }
            let (prev, delta, forced) = if !stack.has_space() {
                (None, full, true)
            } else {
                match stack.find_previous() {
                    None => (None, full, false),
                    Some(c) => {
                        let ghost k = crate::levels::first_space(v)->0;
                        assert(v[k].2 == Some(c));
                        assert(new_map@.contains_key(c));
                        assert(ks@.take(i as int).to_set().contains(c));
                        let ghost jc = choose|jc: int| 0 <= jc < i && ks@.take(i as int)[jc] == c;
                        assert(ks@[jc] == c);
                        let pm = collapse_state_maps(&new_map, c);
                        match delta_against(&pm, &full) {
                            Some(d) => (Some(c), d, false),
                            None => (None, full, true),
                        }
                    },
                }
            };
            proof {
                assert(forced == forced_reset(f, v, s));
                assert(prev == planned_prev(f, v, s));
                assert(delta@ == planned_delta(f, v, s));
                assert(delta.rows() == planned_rows(f, v, s));
            }
            if forced {
                resets = resets + 1;
                reset_rows = reset_rows.saturating_add(full_len);
            }
            let entry = StateGroupEntry { prev_state_group: prev, state_map: delta };
            assert(f.contains_key(s));
            if entries_differ(&entry, old_entry) {
                changed = changed + 1;
            }
            stack.place(s);
            assert(levels_wf(placed(v, s)));
            let ghost before = new_map@;
            proof {
                match prev {
                    Some(c) => {
                        assert(new_map@.contains_key(c));
                    },
                    None => {},
                }
                lemma_place_group(f, sizes, ks@, i as int, before, entry);
                assert(!before.contains_key(s)) by {
                    if before.contains_key(s) {
                        assert(ks@.take(i as int).to_set().contains(s));
                        let j = choose|j: int| 0 <= j < i && ks@.take(i as int)[j] == s;
                        assert(ks@[j] < ks@[i as int]);
                    }
                }
                match prev {
                    Some(c) => {
                        assert(ks@.take(i as int).to_set().contains(c));
                        let jc = choose|jc: int| 0 <= jc < i && ks@.take(i as int)[jc] == c;
                        assert(ks@[jc] < ks@[i as int]);
                    },
                    None => {},
                }
                lemma_place_chain(before, s, entry, v);
                let v2 = placed(v, s);
                if sizes.len() > 0 {
                    lemma_held_within_capacity(v2, sizes, 0);
                }
                assert forall|j: int|
                    0 <= j < i + 1 && sizes.len() > 0 implies chain_len(
                    before.insert(s, entry),
                    #[trigger] ks@[j],
                ) <= capacity_from(sizes, 0) by {
                    if j < i {
                        assert(ks@.take(i as int)[j] == ks@[j]);
                        lemma_chain_len_insert(before, s, entry, ks@[j]);
                    }
                }
            }
            new_map.insert(s, entry);
            assert(levels_after(sizes, ks@, (i + 1) as nat) == placed(v, s));
            i = i + 1;
        }
        proof {
            assert(ks@.take(i as int) =~= ks@);
            assert forall|s: i64|
                #[trigger] f.contains_key(s) && sizes.len() > 0 implies chain_len(new_map@, s)
                <= capacity_from(sizes, 0) by {
                assert(ks@.to_set().contains(s));
                let j = choose|j: int| 0 <= j < ks@.len() && ks@[j] == s;
            }
            assert forall|ks2: Seq<i64>| #[trigger] sorted_keys(f, ks2) implies ks2 == ks@ by {
                lemma_sorted_keys_unique(f, ks2, ks@);
            }
        }
        Compressor {
            new_state_group_map: new_map,
            stats: Stats {
                resets_no_suitable_prev: resets,
                resets_no_suitable_prev_size: reset_rows,
                state_groups_changed: changed,
            },
        }
    }
}

/// Adding the planned entry of the next group keeps the forest well formed,
/// keeps every full state so far, and keeps every entry so far as planned.
proof fn lemma_place_group(
    f: Map<i64, StateGroupEntry>,
    sizes: Seq<usize>,
    ks: Seq<i64>,
    i: int,
    before: Map<i64, StateGroupEntry>,
    entry: StateGroupEntry,
)
    requires
        forest_wf(f),
        sorted_keys(f, ks),
        0 <= i < ks.len(),
        forest_wf(before),
        before.dom() == ks.take(i).to_set(),
        forall|j: int| 0 <= j < i ==> collapse(before, #[trigger] ks[j]) == collapse(f, ks[j]),
        forall|j: int|
            0 <= j < i ==> (#[trigger] before[ks[j]]).prev_state_group == planned_prev(
                f,
                levels_after(sizes, ks, j as nat),
                ks[j],
            ) && before[ks[j]].state_map@ == planned_delta(
                f,
                levels_after(sizes, ks, j as nat),
                ks[j],
            ),
        entry.state_map.wf(),
        entry.prev_state_group == planned_prev(f, levels_after(sizes, ks, i as nat), ks[i]),
        entry.state_map@ == planned_delta(f, levels_after(sizes, ks, i as nat), ks[i]),
        entry.prev_state_group is Some ==> before.contains_key(entry.prev_state_group->0),
        forall|j: int|
            0 <= j < i ==> (#[trigger] before[ks[j]]).state_map.rows() == planned_rows(
                f,
                levels_after(sizes, ks, j as nat),
                ks[j],
            ),
        entry.state_map.rows() == planned_rows(f, levels_after(sizes, ks, i as nat), ks[i]),
    ensures
        forall|j: int|
            0 <= j < i + 1 ==> (#[trigger] before.insert(ks[i], entry)[ks[j]]).state_map.rows()
                == planned_rows(f, levels_after(sizes, ks, j as nat), ks[j]),
        forest_wf(before.insert(ks[i], entry)),
        before.insert(ks[i], entry).dom() == ks.take(i + 1).to_set(),
        forall|j: int|
            0 <= j < i + 1 ==> collapse(before.insert(ks[i], entry), #[trigger] ks[j]) == collapse(
                f,
                ks[j],
            ),
        forall|j: int|
            0 <= j < i + 1 ==> (#[trigger] before.insert(ks[i], entry)[ks[j]]).prev_state_group
                == planned_prev(f, levels_after(sizes, ks, j as nat), ks[j]) && before.insert(
                ks[i],
                entry,
            )[ks[j]].state_map@ == planned_delta(f, levels_after(sizes, ks, j as nat), ks[j]),
{
    let s = ks[i];
    let v = levels_after(sizes, ks, i as nat);
    let after = before.insert(s, entry);
    assert(!before.contains_key(s)) by {
        if before.contains_key(s) {
            assert(ks.take(i).to_set().contains(s));
            let j = choose|j: int| 0 <= j < i && ks.take(i)[j] == s;
            assert(ks[j] < ks[i]);
        }
    }
    let t = ks.take(i);
    let t1 = ks.take(i + 1);
    assert forall|x: i64| t1.to_set().contains(x) <==> t.to_set().insert(s).contains(x) by {
        if t1.to_set().contains(x) {
            let k = choose|k: int| 0 <= k < t1.len() && t1[k] == x;
            if k < i {
                assert(t[k] == x);
            }
        }
        if t.to_set().contains(x) {
            let k = choose|k: int| 0 <= k < t.len() && t[k] == x;
            assert(t1[k] == x);
        }
        if x == s {
            assert(t1[i] == s);
        }
    }
    assert(t1.to_set() =~= t.to_set().insert(s));
    match entry.prev_state_group {
        Some(c) => {
            assert(ks.take(i).to_set().contains(c));
            let jc = choose|jc: int| 0 <= jc < i && ks.take(i)[jc] == c;
            assert(ks[jc] == c);
            assert(c < s);
            assert(collapse(before, c) == collapse(f, c));
        },
        None => {},
    }
    assert(forest_wf(after));
    assert forall|j: int| 0 <= j < i + 1 implies collapse(after, #[trigger] ks[j]) == collapse(
        f,
        ks[j],
    ) by {
        if j < i {
            assert(ks.take(i)[j] == ks[j]);
            assert(before.contains_key(ks[j]));
            lemma_collapse_insert(before, s, entry, ks[j]);
        } else {
            match entry.prev_state_group {
                Some(c) => {
                    lemma_collapse_insert(before, s, entry, c);
                    assert(collapse(after, s) =~= collapse(f, s));
                },
                None => {},
            }
        }
    }
    assert forall|j: int| 0 <= j < i + 1 implies (#[trigger] after[ks[j]]).prev_state_group
        == planned_prev(f, levels_after(sizes, ks, j as nat), ks[j]) && after[ks[j]].state_map@
        == planned_delta(f, levels_after(sizes, ks, j as nat), ks[j])
        && after[ks[j]].state_map.rows() == planned_rows(f, levels_after(sizes, ks, j as nat), ks[j]) by {
        if j < i {
            assert(ks[j] < ks[i]);
        }
    }
}

/// The head of each level has a chain no longer than what the levels from
/// there upward hold.
pub open spec fn heads_bounded(g: Map<i64, StateGroupEntry>, v: Seq<LevelView>) -> bool {
    forall|t: int|
        0 <= t < v.len() && (#[trigger] v[t]).2 is Some ==> g.contains_key(v[t].2->0) && chain_len(
            g,
            v[t].2->0,
        ) <= held_from(v, t)
}

/// Placing a group keeps every head's chain within what its levels hold, and
/// bounds the group's own chain by what all levels hold.
proof fn lemma_place_chain(
    before: Map<i64, StateGroupEntry>,
    s: i64,
    entry: StateGroupEntry,
    v: Seq<LevelView>,
)
    requires
        forest_wf(before),
        !before.contains_key(s),
        heads_bounded(before, v),
        levels_wf(v),
        entry.prev_state_group is Some ==> stack_has_space(v) && previous_of(v)
            == entry.prev_state_group && entry.prev_state_group->0 < s,
        !stack_has_space(v) ==> entry.prev_state_group is None,
    ensures
        heads_bounded(before.insert(s, entry), placed(v, s)),
        v.len() > 0 ==> chain_len(before.insert(s, entry), s) <= held_from(placed(v, s), 0),
{
    let after = before.insert(s, entry);
    let v2 = placed(v, s);
    lemma_first_space_from(v, 0);
    match first_space(v) {
        Some(k) => {
            lemma_held_from_agree(v, v2, k + 1);
            assert(held_from(v2, k) == v2[k].1 + held_from(v2, k + 1));
            match entry.prev_state_group {
                Some(c) => {
                    assert(before.contains_key(c));
                    lemma_chain_len_insert(before, s, entry, c);
                    assert(chain_len(after, s) == 1 + chain_len(after, c));
                },
                None => {
                    assert(chain_len(after, s) == 1);
                },
            }
            assert(chain_len(after, s) <= held_from(v2, k));
            lemma_held_from_mono(v2, 0, k);
            assert forall|t: int|
                0 <= t < v2.len() && (#[trigger] v2[t]).2 is Some implies after.contains_key(
                v2[t].2->0,
            ) && chain_len(after, v2[t].2->0) <= held_from(v2, t) by {
                if t <= k {
                    lemma_held_from_mono(v2, t, k);
                } else {
                    lemma_held_from_agree(v, v2, t);
                    lemma_chain_len_insert(before, s, entry, v[t].2->0);
                }
            }
        },
        None => {
            assert(chain_len(after, s) == 1);
            assert forall|t: int|
                0 <= t < v2.len() && (#[trigger] v2[t]).2 is Some implies after.contains_key(
                v2[t].2->0,
            ) && chain_len(after, v2[t].2->0) <= held_from(v2, t) by {
                assert(held_from(v2, t) == v2[t].1 + held_from(v2, t + 1));
            }
            if v.len() > 0 {
                assert(held_from(v2, 0) == v2[0].1 + held_from(v2, 1));
            }
        },
    }
}

/// Compressing the output of a compression again, with the same levels,
/// plans for every group the entry it already has, and so changes no group.
pub proof fn lemma_compress_idempotent(
    f: Map<i64, StateGroupEntry>,
    g: Map<i64, StateGroupEntry>,
    sizes: Seq<usize>,
    ks: Seq<i64>,
)
    requires
        forest_wf(f),
        sorted_keys(f, ks),
        compressed_from(g, f, sizes, ks),
        forall|s: i64| #[trigger] f.contains_key(s) ==> collapse(g, s) == collapse(f, s),
    ensures
        sorted_keys(g, ks),
        compressed_from(g, g, sizes, ks),
        count_changed(g, sizes, ks, ks.len()) == 0,
{
    assert forall|x: i64| #[trigger] collapse(g, x) == collapse(f, x) by {
        if !f.contains_key(x) {
            assert(!g.contains_key(x));
        }
    }
    assert forall|j: int| 0 <= j < ks.len() implies (#[trigger] g[ks[j]]).prev_state_group
        == planned_prev(g, levels_after(sizes, ks, j as nat), ks[j]) && g[ks[j]].state_map@
        == planned_delta(g, levels_after(sizes, ks, j as nat), ks[j]) by {
        let v = levels_after(sizes, ks, j as nat);
        assert(forced_reset(g, v, ks[j]) == forced_reset(f, v, ks[j]));
        assert(planned_prev(g, v, ks[j]) == planned_prev(f, v, ks[j]));
    }
    lemma_unchanged_prefix(g, sizes, ks, ks.len());
}

proof fn lemma_unchanged_prefix(g: Map<i64, StateGroupEntry>, sizes: Seq<usize>, ks: Seq<i64>, n: nat)
    requires
        n <= ks.len(),
        forall|j: int|
            0 <= j < ks.len() ==> (#[trigger] g[ks[j]]).prev_state_group == planned_prev(
                g,
                levels_after(sizes, ks, j as nat),
                ks[j],
            ) && g[ks[j]].state_map@ == planned_delta(g, levels_after(sizes, ks, j as nat), ks[j]),
    ensures
        count_changed(g, sizes, ks, n) == 0,
    decreases n,
{
    if n > 0 {
        lemma_unchanged_prefix(g, sizes, ks, (n - 1) as nat);
        assert(g[ks[n - 1]].prev_state_group == planned_prev(
            g,
            levels_after(sizes, ks, (n - 1) as nat),
            ks[n - 1],
        ));
    }
}

/// Two ascending listings of the same groups are the same listing.
pub proof fn lemma_sorted_keys_unique(f: Map<i64, StateGroupEntry>, a: Seq<i64>, b: Seq<i64>)
    requires
        sorted_keys(f, a),
        sorted_keys(f, b),
    ensures
        a == b,
{
    lemma_increasing_same_set(a, b);
}

proof fn lemma_increasing_same_set(a: Seq<i64>, b: Seq<i64>)
    requires
        a.to_set() == b.to_set(),
        forall|i: int, j: int| 0 <= i < j < a.len() ==> #[trigger] a[i] < #[trigger] a[j],
        forall|i: int, j: int| 0 <= i < j < b.len() ==> #[trigger] b[i] < #[trigger] b[j],
    ensures
        a == b,
    decreases a.len() + b.len(),
{
    if a.len() == 0 || b.len() == 0 {
        if a.len() > 0 {
            assert(a.to_set().contains(a[0]));
        }
        if b.len() > 0 {
            assert(b.to_set().contains(b[0]));
        }
        assert(a =~= b);
    } else {
        assert(a.to_set().contains(a[0]));
        assert(b.to_set().contains(b[0]));
        let ia = choose|ia: int| 0 <= ia < a.len() && a[ia] == b[0];
        let ib = choose|ib: int| 0 <= ib < b.len() && b[ib] == a[0];
        assert(a[0] <= a[ia]);
        assert(b[0] <= b[ib]);
        assert(a[0] == b[0]);
        let a2 = a.drop_first();
        let b2 = b.drop_first();
        assert forall|x: i64| a2.to_set().contains(x) implies b2.to_set().contains(x) by {
            let i = choose|i: int| 0 <= i < a2.len() && a2[i] == x;
            assert(a[i + 1] == x);
            assert(b.to_set().contains(x));
            let j = choose|j: int| 0 <= j < b.len() && b[j] == x;
            assert(j != 0);
            assert(b2[j - 1] == x);
        }
        assert forall|x: i64| b2.to_set().contains(x) implies a2.to_set().contains(x) by {
            let i = choose|i: int| 0 <= i < b2.len() && b2[i] == x;
            assert(b[i + 1] == x);
            assert(a.to_set().contains(x));
            let j = choose|j: int| 0 <= j < a.len() && a[j] == x;
            assert(j != 0);
            assert(a2[j - 1] == x);
        }
        assert(a2.to_set() =~= b2.to_set());
        assert forall|i: int, j: int| 0 <= i < j < a2.len() implies #[trigger] a2[i] < #[trigger] a2[j] by {
            assert(a[i + 1] < a[j + 1]);
        }
        assert forall|i: int, j: int| 0 <= i < j < b2.len() implies #[trigger] b2[i] < #[trigger] b2[j] by {
            assert(b[i + 1] < b[j + 1]);
        }
        lemma_increasing_same_set(a2, b2);
        assert(a =~= b2.insert(0, b[0]));
        assert(b =~= b2.insert(0, b[0]));
    }
}

} // verus!
