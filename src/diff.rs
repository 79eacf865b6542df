use vstd::prelude::*;
use std::collections::BTreeMap;
use crate::compressor::{entries_differ, sorted_groups, sorted_keys};
use crate::forest::{forest_wf, StateGroupEntry};
use crate::state_map::{KeyView, RowView, StateMap};

verus! {

/// One logical change to the stored forest.
pub enum Edit {
    /// Remove the predecessor edge of a group.
    RemoveEdges { state_group: i64 },
    /// Give a group a predecessor.
    AddEdge { state_group: i64, prev_state_group: i64 },
    /// Remove every delta row of a group.
    RemoveRows { state_group: i64 },
    /// Add delta rows to a group.
    InsertRows { state_group: i64, rows: StateMap },
}

/// An edit as a value: a delta insert carries its rows in order.
pub ghost enum EditView {
    RemoveEdges(i64),
    AddEdge(i64, i64),
    RemoveRows(i64),
    InsertRows(i64, Seq<RowView>),
}

pub open spec fn edit_view(e: Edit) -> EditView {
    match e {
        Edit::RemoveEdges { state_group } => EditView::RemoveEdges(state_group),
        Edit::AddEdge { state_group, prev_state_group } => EditView::AddEdge(
            state_group,
            prev_state_group,
        ),
        Edit::RemoveRows { state_group } => EditView::RemoveRows(state_group),
        Edit::InsertRows { state_group, rows } => EditView::InsertRows(state_group, rows.rows()),
    }
}

/// The edits that give group `sg` the predecessor `prev` and the delta rows
/// `rows`: remove its edge, add the new edge if there is a predecessor,
/// remove its rows, insert the new rows if there are any.
pub open spec fn group_edits(sg: i64, prev: Option<i64>, rows: Seq<RowView>) -> Seq<EditView> {
    seq![EditView::RemoveEdges(sg)] + match prev {
        Some(p) => seq![EditView::AddEdge(sg, p)],
        None => Seq::empty(),
    } + seq![EditView::RemoveRows(sg)] + if rows.len() > 0 {
        seq![EditView::InsertRows(sg, rows)]
    } else {
        Seq::empty()
    }
}

/// Whether two entries differ in predecessor or in the contents of their delta.
pub open spec fn entry_differs(o: StateGroupEntry, n: StateGroupEntry) -> bool {
    o.prev_state_group != n.prev_state_group || o.state_map@ != n.state_map@
}

/// The edits for the first `n` groups of `ks`: those of each group whose
/// entry differs between `old` and `new`, in that order.
pub open spec fn diff_edits(
    old: Map<i64, StateGroupEntry>,
    new: Map<i64, StateGroupEntry>,
    ks: Seq<i64>,
    n: nat,
) -> Seq<EditView>
    decreases n,
{
    if n == 0 {
        Seq::empty()
    } else {
        let s = ks[n - 1];
        diff_edits(old, new, ks, (n - 1) as nat) + if entry_differs(old[s], new[s]) {
            group_edits(s, new[s].prev_state_group, new[s].state_map.rows())
        } else {
            Seq::empty()
        }
    }
}

/// What the store holds for one group: its predecessor and its delta rows.
pub type StoredGroup = (Option<i64>, Map<KeyView, Seq<char>>);

/// The contents of a store that holds exactly the forest `f`.
pub open spec fn store_of(f: Map<i64, StateGroupEntry>) -> Map<i64, StoredGroup> {
    Map::new(|s: i64| f.contains_key(s), |s: i64| (f[s].prev_state_group, f[s].state_map@))
}

/// The store after one edit.
pub open spec fn apply_edit(st: Map<i64, StoredGroup>, e: Edit) -> Map<i64, StoredGroup> {
    match e {
        Edit::RemoveEdges { state_group } => st.insert(state_group, (None, st[state_group].1)),
        Edit::AddEdge { state_group, prev_state_group } => st.insert(
            state_group,
            (Some(prev_state_group), st[state_group].1),
        ),
        Edit::RemoveRows { state_group } => st.insert(
            state_group,
            (st[state_group].0, Map::empty()),
        ),
        Edit::InsertRows { state_group, rows } => st.insert(
            state_group,
            (st[state_group].0, st[state_group].1.union_prefer_right(rows@)),
        ),
    }
}

/// The store after a sequence of edits, applied in order.
pub open spec fn apply_edits(st: Map<i64, StoredGroup>, es: Seq<Edit>) -> Map<i64, StoredGroup>
    decreases es.len(),
{
    if es.len() == 0 {
        st
    } else {
        apply_edit(apply_edits(st, es.drop_last()), es.last())
    }
}

/// Every delta in `es` is a well-formed map.
pub open spec fn edits_wf(es: Seq<Edit>) -> bool {
    forall|i: int| 0 <= i < es.len() ==> match #[trigger] es[i] {
        Edit::InsertRows { rows, .. } => rows.wf(),
        _ => true,
    }
}

proof fn lemma_apply_push(st: Map<i64, StoredGroup>, es: Seq<Edit>, e: Edit)
    ensures
        apply_edits(st, es.push(e)) == apply_edit(apply_edits(st, es), e),
{
    assert(es.push(e).drop_last() =~= es);
}

/// The edits that turn a store holding `old` into one holding `new`: for each
/// group whose entry differs, in ascending order, remove its edge, add the new
/// edge if it has a predecessor, remove its rows, and insert the new rows if
/// there are any.
pub fn diff_state_groups(
    old: &BTreeMap<i64, StateGroupEntry>,
    new: &BTreeMap<i64, StateGroupEntry>,
) -> (r: Vec<Edit>)
    requires
        forest_wf(old@),
        forest_wf(new@),
        old@.dom() == new@.dom(),
    ensures
        edits_wf(r@),
        apply_edits(store_of(old@), r@) == store_of(new@),
        forall|ks: Seq<i64>| #[trigger]
            sorted_keys(old@, ks) ==> r@.map_values(|e: Edit| edit_view(e)) == diff_edits(
                old@,
                new@,
                ks,
                ks.len(),
            ),
{
    let ks = sorted_groups(old);
    let mut r: Vec<Edit> = Vec::new();
    let mut i: usize = 0;
    while i < ks.len()
        invariant
            forest_wf(old@),
            forest_wf(new@),
            old@.dom() == new@.dom(),
            sorted_keys(old@, ks@),
            i <= ks@.len(),
            edits_wf(r@),
            apply_edits(store_of(old@), r@).dom() == old@.dom(),
            r@.map_values(|e: Edit| edit_view(e)) == diff_edits(old@, new@, ks@, i as nat),
            forall|s: i64| #[trigger]
                old@.contains_key(s) ==> apply_edits(store_of(old@), r@)[s] == if ks@.take(
                    i as int,
                ).contains(s) {
                    store_of(new@)[s]
                } else {
                    store_of(old@)[s]
                },
        decreases ks@.len() - i,
    {
        let s = ks[i];
        assert(ks@.to_set().contains(s));
        let o = old.get(&s).unwrap();
        let n = new.get(&s).unwrap();
        let ghost st0 = apply_edits(store_of(old@), r@);
        proof {
            let t = ks@.take(i as int);
            let t1 = ks@.take(i + 1);
            assert forall|x: i64| t1.contains(x) <==> (t.contains(x) || x == s) by {
                if t1.contains(x) {
                    let k = choose|k: int| 0 <= k < t1.len() && t1[k] == x;
                    if k < i {
                        assert(t[k] == x);
                    }
                }
                if t.contains(x) {
                    let k = choose|k: int| 0 <= k < t.len() && t[k] == x;
                    assert(t1[k] == x);
                }
                if x == s {
                    assert(t1[i as int] == s);
                }
            }
            assert(!t.contains(s)) by {
                if t.contains(s) {
                    let k = choose|k: int| 0 <= k < t.len() && t[k] == s;
                    assert(ks@[k] < ks@[i as int]);
                }
            }
        }
        let ghost vs = r@.map_values(|e: Edit| edit_view(e));
        let ghost ge = group_edits(s, n.prev_state_group, n.state_map.rows());
        if entries_differ(o, n) {
            let ghost es0 = r@;
            r.push(Edit::RemoveEdges { state_group: s });
            proof { lemma_apply_push(store_of(old@), es0, Edit::RemoveEdges { state_group: s }); }
            match n.prev_state_group {
                Some(p) => {
                    let ghost es1 = r@;
                    r.push(Edit::AddEdge { state_group: s, prev_state_group: p });
                    proof {
                        lemma_apply_push(store_of(old@), es1, Edit::AddEdge { state_group: s, prev_state_group: p });
                    }
                },
                None => {},
            }
            let ghost es2 = r@;
            r.push(Edit::RemoveRows { state_group: s });
            proof { lemma_apply_push(store_of(old@), es2, Edit::RemoveRows { state_group: s }); }
            if !n.state_map.is_empty() {
                let rows = n.state_map.duplicate();
                let ghost es3 = r@;
                let ghost e = Edit::InsertRows { state_group: s, rows };
                r.push(Edit::InsertRows { state_group: s, rows });
                proof {
                    lemma_apply_push(store_of(old@), es3, e);
                    assert(Map::<KeyView, Seq<char>>::empty().union_prefer_right(n.state_map@) =~= n.state_map@);
                }
            } else {
                assert(n.state_map@ =~= Map::<KeyView, Seq<char>>::empty());
            }
            assert(r@.map_values(|e: Edit| edit_view(e)) =~= vs + ge);
        } else {
            assert(r@.map_values(|e: Edit| edit_view(e)) =~= vs + Seq::<EditView>::empty());
        }
        proof {
            let st1 = apply_edits(store_of(old@), r@);
            assert(st1[s] == store_of(new@)[s]);
            assert(st1.dom() =~= old@.dom());
        }
        i = i + 1;
    }
    proof {
        assert(ks@.take(i as int) =~= ks@);
        assert forall|s: i64| old@.contains_key(s) implies ks@.contains(s) by {
            assert(ks@.to_set().contains(s));
        }
        assert(apply_edits(store_of(old@), r@) =~= store_of(new@));
        assert forall|ks2: Seq<i64>| #[trigger] sorted_keys(old@, ks2) implies ks2 == ks@ by {
            crate::compressor::lemma_sorted_keys_unique(old@, ks2, ks@);
        }
    }
    r
}

} // verus!
