use vstd::prelude::*;
use std::collections::BTreeMap;
use crate::compressor::{sorted_groups, sorted_keys};
use crate::diff::{store_of, StoredGroup};
use crate::forest::{forest_wf, StateGroupEntry};
use crate::state_map::{StateEntry, StateMap};

verus! {

broadcast use vstd::std_specs::btree::group_btree_axioms;

/// One loaded row: a group, its predecessor if it has one, and one of its
/// delta rows if it has any.
pub struct GroupRow {
    pub state_group: i64,
    pub prev_state_group: Option<i64>,
    pub row: Option<StateEntry>,
}

/// Why loaded rows do not form a forest.
pub enum ForestError {
    /// A predecessor is not one of the loaded groups.
    MissingPredecessor { state_group: i64, prev_state_group: i64 },
    /// A predecessor does not come before its group.
    PredecessorNotEarlier { state_group: i64, prev_state_group: i64 },
}

/// The groups that the rows describe: each row sets its group's predecessor
/// and adds its delta row, if any, to the group's delta.
pub open spec fn rows_store(rows: Seq<GroupRow>) -> Map<i64, StoredGroup>
    decreases rows.len(),
{
    if rows.len() == 0 {
        Map::empty()
    } else {
        let st = rows_store(rows.drop_last());
        let r = rows.last();
        let delta = if st.contains_key(r.state_group) {
            st[r.state_group].1
        } else {
            Map::empty()
        };
        st.insert(
            r.state_group,
            (
                r.prev_state_group,
                match r.row {
                    Some(e) => delta.insert(e.key(), e.event_id@),
                    None => delta,
                },
            ),
        )
    }
}

/// Joins the loaded rows into a forest keyed by group, and checks that every
/// predecessor is a loaded group with a smaller id.
pub fn build_forest(rows: &Vec<GroupRow>) -> (r: Result<BTreeMap<i64, StateGroupEntry>, ForestError>)
    ensures
        match r {
            Ok(f) => forest_wf(f@) && store_of(f@) == rows_store(rows@),
            Err(ForestError::MissingPredecessor { state_group, prev_state_group }) => {
                let st = rows_store(rows@);
                st.contains_key(state_group) && st[state_group].0 == Some(prev_state_group)
                    && !st.contains_key(prev_state_group)
            },
            Err(ForestError::PredecessorNotEarlier { state_group, prev_state_group }) => {
                let st = rows_store(rows@);
                st.contains_key(state_group) && st[state_group].0 == Some(prev_state_group)
                    && prev_state_group >= state_group
            },
        },
{
    let mut map: BTreeMap<i64, StateGroupEntry> = BTreeMap::new();
    let mut i: usize = 0;
    assert(rows@.take(0) =~= Seq::<GroupRow>::empty());
    assert(store_of(map@) =~= rows_store(rows@.take(0)));
    while i < rows.len()
        invariant
            i <= rows@.len(),
            store_of(map@) == rows_store(rows@.take(i as int)),
            forall|s: i64| #[trigger] map@.contains_key(s) ==> map@[s].state_map.wf(),
        decreases rows@.len() - i,
    {
        let row = &rows[i];
        let sg = row.state_group;
        let ghost before = map@;
        let mut delta = match map.remove(&sg) {
            Some(e) => e.state_map,
            None => StateMap::new(),
        };
        match &row.row {
            Some(e) => {
                let e2 = e.duplicate();
                delta.insert(e2.typ, e2.state_key, e2.event_id);
            },
            None => {},
        }
        map.insert(sg, StateGroupEntry { prev_state_group: row.prev_state_group, state_map: delta });
        proof {
            assert(rows@.take(i + 1).drop_last() =~= rows@.take(i as int));
            assert(store_of(map@) =~= rows_store(rows@.take(i + 1)));
        }
        i = i + 1;
    }
    assert(rows@.take(i as int) =~= rows@);
    let ks = sorted_groups(&map);
    let mut j: usize = 0;
    while j < ks.len()
        invariant
            store_of(map@) == rows_store(rows@),
            forall|s: i64| #[trigger] map@.contains_key(s) ==> map@[s].state_map.wf(),
            sorted_keys(map@, ks@),
            j <= ks@.len(),
            forall|t: int|
                0 <= t < j ==> match map@[#[trigger] ks@[t]].prev_state_group {
                    Some(p) => p < ks@[t] && map@.contains_key(p),
                    None => true,
                },
        decreases ks@.len() - j,
    {
        let s = ks[j];
        assert(ks@.to_set().contains(s));
        match map.get(&s).unwrap().prev_state_group {
            Some(p) => {
                assert(store_of(map@)[s].0 == Some(p));
                if p >= s {
                    return Err(ForestError::PredecessorNotEarlier { state_group: s, prev_state_group: p });
                }
                if !map.contains_key(&p) {
                    assert(!store_of(map@).contains_key(p));
                    return Err(ForestError::MissingPredecessor { state_group: s, prev_state_group: p });
                }
            },
            None => {},
        }
        j = j + 1;
    }
    proof {
        assert forall|s: i64| #[trigger] map@.contains_key(s) implies map@[s].state_map.wf()
            && match map@[s].prev_state_group {
            Some(p) => p < s && map@.contains_key(p),
            None => true,
        } by {
            assert(ks@.to_set().contains(s));
            let t = choose|t: int| 0 <= t < ks@.len() && ks@[t] == s;
        }
    }
    Ok(map)
}

} // verus!
