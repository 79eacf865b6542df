use vstd::prelude::*;
use std::collections::BTreeMap;
use crate::state_map::{insert_rows, KeyView, RowView, StateMap};
use crate::compressor::{lemma_sorted_keys_unique, sorted_groups, sorted_keys};

verus! {

/// An entry for a state group: an optional previous group and the delta from
/// that previous group (or the full state if there is no previous group).
pub struct StateGroupEntry {
    pub prev_state_group: Option<i64>,
    pub state_map: StateMap,
}

/// A forest of deltas is well formed when every delta is a well-formed map and
/// every predecessor is a key of the forest with a smaller id.
pub open spec fn forest_wf(f: Map<i64, StateGroupEntry>) -> bool {
    forall|s: i64| #[trigger]
        f.contains_key(s) ==> f[s].state_map.wf() && match f[s].prev_state_group {
            Some(p) => p < s && f.contains_key(p),
            None => true,
        }
}

/// The full state of group `s`: the deltas along its predecessor chain,
/// folded from the root down, nearer deltas overwriting farther ones.
pub open spec fn collapse(f: Map<i64, StateGroupEntry>, s: i64) -> Map<KeyView, Seq<char>>
    decreases s - i64::MIN,
{
    if !f.contains_key(s) {
        Map::empty()
    } else {
        match f[s].prev_state_group {
            Some(p) => if p < s {
                collapse(f, p).union_prefer_right(f[s].state_map@)
            } else {
                f[s].state_map@
            },
            None => f[s].state_map@,
        }
    }
}

/// Adding a group under a new id leaves the full state of every group
/// already in a well-formed forest unchanged.
pub proof fn lemma_collapse_insert(
    f: Map<i64, StateGroupEntry>,
    s: i64,
    e: StateGroupEntry,
    k: i64,
)
    requires
        forest_wf(f),
        !f.contains_key(s),
        f.contains_key(k),
    ensures
        collapse(f.insert(s, e), k) == collapse(f, k),
    decreases k - i64::MIN,
{
    let g = f.insert(s, e);
    assert(g[k] == f[k]);
    match f[k].prev_state_group {
        Some(p) => {
            lemma_collapse_insert(f, s, e, p);
        },
        None => {},
    }
}

/// The rows of the full state of `s`, in the order in which folding the
/// deltas from the root down leaves them.
pub open spec fn collapse_rows(f: Map<i64, StateGroupEntry>, s: i64) -> Seq<RowView>
    decreases s - i64::MIN,
{
    if !f.contains_key(s) {
        Seq::empty()
    } else {
        match f[s].prev_state_group {
            Some(p) => if p < s {
                insert_rows(collapse_rows(f, p), f[s].state_map.rows())
            } else {
                insert_rows(Seq::empty(), f[s].state_map.rows())
            },
            None => insert_rows(Seq::empty(), f[s].state_map.rows()),
        }
    }
}

/// How many groups the predecessor chain of `s` visits, `s` included.
pub open spec fn chain_len(f: Map<i64, StateGroupEntry>, s: i64) -> nat
    decreases s - i64::MIN,
{
    if f.contains_key(s) && f[s].prev_state_group is Some && f[s].prev_state_group->0 < s {
        1 + chain_len(f, f[s].prev_state_group->0)
    } else {
        1
    }
}

/// Adding a group under a new id leaves the chain of every group already in
/// a well-formed forest unchanged.
pub proof fn lemma_chain_len_insert(
    f: Map<i64, StateGroupEntry>,
    s: i64,
    e: StateGroupEntry,
    k: i64,
)
    requires
        forest_wf(f),
        !f.contains_key(s),
        f.contains_key(k),
    ensures
        chain_len(f.insert(s, e), k) == chain_len(f, k),
    decreases k - i64::MIN,
{
    match f[k].prev_state_group {
        Some(p) => {
            lemma_chain_len_insert(f, s, e, p);
        },
        None => {},
    }
}

/// Gets the full state for a given group from the forest of deltas.
pub fn collapse_state_maps(map: &BTreeMap<i64, StateGroupEntry>, state_group: i64) -> (r: StateMap)
    requires
        forest_wf(map@),
        map@.contains_key(state_group),
    ensures
        r.wf(),
        r@ == collapse(map@, state_group),
        r.rows() == collapse_rows(map@, state_group),
{
    let mut stack: Vec<i64> = Vec::new();
    stack.push(state_group);
    let mut cur: i64 = state_group;
    let mut next: Option<i64> = map.get(&state_group).unwrap().prev_state_group;
    while next.is_some()
        invariant
            forest_wf(map@),
            stack@.len() >= 1,
            stack@[0] == state_group,
            stack@.last() == cur,
            map@.contains_key(cur),
            next == map@[cur].prev_state_group,
            forall|j: int| 0 <= j < stack@.len() ==> map@.contains_key(#[trigger] stack@[j]),
            forall|j: int|
                0 <= j < stack@.len() - 1 ==> map@[#[trigger] stack@[j]].prev_state_group == Some(
                    stack@[j + 1],
                ),
        decreases cur - i64::MIN,
    {
        let p = next.unwrap();
        stack.push(p);
        cur = p;
        next = map.get(&p).unwrap().prev_state_group;
    }
    let mut result = StateMap::new();
    let mut i: usize = stack.len();
    while i > 0
        invariant
            forest_wf(map@),
            stack@.len() >= 1,
            stack@[0] == state_group,
            i <= stack@.len(),
            map@[stack@.last()].prev_state_group is None,
            forall|j: int| 0 <= j < stack@.len() ==> map@.contains_key(#[trigger] stack@[j]),
            forall|j: int|
                0 <= j < stack@.len() - 1 ==> map@[#[trigger] stack@[j]].prev_state_group == Some(
                    stack@[j + 1],
                ),
            result.wf(),
            i == stack@.len() ==> result@ == Map::<KeyView, Seq<char>>::empty(),
            i == stack@.len() ==> result.rows() == Seq::<RowView>::empty(),
            i < stack@.len() ==> result@ == collapse(map@, stack@[i as int]),
            i < stack@.len() ==> result.rows() == collapse_rows(map@, stack@[i as int]),
        decreases i,
    {
        i = i - 1;
        let ghost before = result@;
        let e = map.get(&stack[i]).unwrap();
        result.extend(&e.state_map);
        proof {
            let s = stack@[i as int];
            assert(map@.contains_key(s));
            if i + 1 < stack@.len() {
                assert(map@[s].prev_state_group == Some(stack@[i + 1]));
            } else {
                assert(result@ =~= map@[s].state_map@);
            }
        }
    }
    result
}

/// Whether group `state_group` has the same full state in both forests.
pub fn group_states_match(
    old: &BTreeMap<i64, StateGroupEntry>,
    new: &BTreeMap<i64, StateGroupEntry>,
    state_group: i64,
) -> (r: bool)
    requires
        forest_wf(old@),
        forest_wf(new@),
        old@.contains_key(state_group),
        new@.contains_key(state_group),
    ensures
        r == (collapse(old@, state_group) == collapse(new@, state_group)),
{
    let expected = collapse_state_maps(old, state_group);
    let actual = collapse_state_maps(new, state_group);
    expected.same_contents(&actual)
}

/// The delta rows held by the first `n` groups of `ks`, summed, saturating at
/// `usize::MAX`.
pub open spec fn rows_held(f: Map<i64, StateGroupEntry>, ks: Seq<i64>, n: nat) -> nat
    decreases n,
{
    if n == 0 {
        0
    } else {
        let t = rows_held(f, ks, (n - 1) as nat) + f[ks[n - 1]].state_map@.dom().len();
        if t > usize::MAX {
            usize::MAX as nat
        } else {
            t
        }
    }
}

/// The number of delta rows the forest holds, over all groups.
pub fn summed_size(map: &BTreeMap<i64, StateGroupEntry>) -> (r: usize)
    requires
        forest_wf(map@),
    ensures
        forall|ks: Seq<i64>| #[trigger] sorted_keys(map@, ks) ==> r == rows_held(map@, ks, ks.len()),
{
    let ks = sorted_groups(map);
    let mut total: usize = 0;
    let mut i: usize = 0;
    while i < ks.len()
        invariant
            forest_wf(map@),
            sorted_keys(map@, ks@),
            i <= ks@.len(),
            total == rows_held(map@, ks@, i as nat),
        decreases ks@.len() - i,
    {
        assert(ks@.to_set().contains(ks@[i as int]));
        let e = map.get(&ks[i]).unwrap();
        total = total.saturating_add(e.state_map.len());
        i = i + 1;
    }
    proof {
        assert forall|ks2: Seq<i64>| #[trigger] sorted_keys(map@, ks2) implies ks2 == ks@ by {
            lemma_sorted_keys_unique(map@, ks2, ks@);
        }
    }
    total
}

} // verus!
