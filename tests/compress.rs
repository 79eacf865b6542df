use std::collections::BTreeMap;
use synapse_compress_state::compressor::{delta_against, Compressor};
use synapse_compress_state::diff::{diff_state_groups, Edit};
use synapse_compress_state::forest::{collapse_state_maps, group_states_match, summed_size, StateGroupEntry};
use synapse_compress_state::levels::LevelStack;
use synapse_compress_state::loader::{build_forest, ForestError, GroupRow};
use synapse_compress_state::sql::{diff_sql, pg_escape, push_decimal};
use synapse_compress_state::state_map::{StateEntry, StateMap};

fn state(rows: &[(&str, &str, &str)]) -> StateMap {
    let mut m = StateMap::new();
    for (t, s, e) in rows {
        m.insert(t.to_string(), s.to_string(), e.to_string());
    }
    m
}

fn entry(prev: Option<i64>, rows: &[(&str, &str, &str)]) -> StateGroupEntry {
    StateGroupEntry { prev_state_group: prev, state_map: state(rows) }
}

fn same_entry(a: &StateGroupEntry, b: &StateGroupEntry) -> bool {
    a.prev_state_group == b.prev_state_group && a.state_map.same_contents(&b.state_map)
}

fn linear_chain() -> BTreeMap<i64, StateGroupEntry> {
    let mut f = BTreeMap::new();
    for i in 1..=5i64 {
        let prev = if i == 1 { None } else { Some(i - 1) };
        let key = i.to_string();
        let value = format!("e_{}", i);
        f.insert(i, entry(prev, &[("m", key.as_str(), value.as_str())]));
    }
    f
}

fn all_states_match(a: &BTreeMap<i64, StateGroupEntry>, b: &BTreeMap<i64, StateGroupEntry>) -> bool {
    a.keys().all(|sg| group_states_match(a, b, *sg))
}

fn chain_len(f: &BTreeMap<i64, StateGroupEntry>, sg: i64) -> usize {
    let mut n = 1;
    let mut cur = f[&sg].prev_state_group;
    while let Some(p) = cur {
        n += 1;
        cur = f[&p].prev_state_group;
    }
    n
}

#[test]
fn empty_forest_compresses_to_empty() {
    let f: BTreeMap<i64, StateGroupEntry> = BTreeMap::new();
    let c = Compressor::compress(&f, &vec![100, 50, 25]);
    assert!(c.new_state_group_map.is_empty());
    assert_eq!(c.stats.resets_no_suitable_prev, 0);
    assert_eq!(c.stats.resets_no_suitable_prev_size, 0);
    assert_eq!(c.stats.state_groups_changed, 0);
    assert!(diff_state_groups(&f, &c.new_state_group_map).is_empty());
    assert_eq!(diff_sql(&f, &c.new_state_group_map, "!room:x", true), "");
}

#[test]
fn single_root_is_unchanged() {
    let mut f = BTreeMap::new();
    f.insert(7, entry(None, &[("m", "", "e1")]));
    let c = Compressor::compress(&f, &vec![2]);
    assert_eq!(c.stats.state_groups_changed, 0);
    assert_eq!(c.new_state_group_map.len(), 1);
    assert!(same_entry(&c.new_state_group_map[&7], &f[&7]));
    assert_eq!(diff_sql(&f, &c.new_state_group_map, "!room:x", false), "");
}

#[test]
fn linear_chain_is_releveled() {
    let f = linear_chain();
    let c = Compressor::compress(&f, &vec![2, 2]);
    let g = &c.new_state_group_map;
    assert_eq!(g[&1].prev_state_group, None);
    assert_eq!(g[&2].prev_state_group, Some(1));
    assert_eq!(g[&3].prev_state_group, None);
    assert_eq!(g[&4].prev_state_group, Some(3));
    assert_eq!(g[&5].prev_state_group, Some(3));
    assert!(g[&5].state_map.same_contents(&state(&[("m", "4", "e_4"), ("m", "5", "e_5")])));
    assert!(all_states_match(&f, g));
    for sg in 1..=5i64 {
        assert!(chain_len(g, sg) <= 4);
    }
    assert_eq!(c.stats.state_groups_changed, 2);
    assert_eq!(c.stats.resets_no_suitable_prev, 0);
}

#[test]
fn divergent_delta_forces_reset() {
    let mut f = BTreeMap::new();
    f.insert(1, entry(None, &[("a", "", "x")]));
    f.insert(2, entry(Some(1), &[("a", "", "y")]));
    f.insert(3, entry(Some(1), &[("b", "", "z")]));
    let c = Compressor::compress(&f, &vec![1, 2]);
    let g = &c.new_state_group_map;
    assert_eq!(g[&3].prev_state_group, None);
    assert!(g[&3].state_map.same_contents(&state(&[("a", "", "x"), ("b", "", "z")])));
    assert_eq!(c.stats.resets_no_suitable_prev, 1);
    assert_eq!(c.stats.resets_no_suitable_prev_size, 2);
    assert!(all_states_match(&f, g));
}

#[test]
fn compressing_twice_changes_nothing() {
    let f = linear_chain();
    let c1 = Compressor::compress(&f, &vec![2, 2]);
    let c2 = Compressor::compress(&c1.new_state_group_map, &vec![2, 2]);
    assert_eq!(c2.stats.state_groups_changed, 0);
    for (sg, e) in &c1.new_state_group_map {
        assert!(same_entry(e, &c2.new_state_group_map[sg]));
    }
}

#[test]
fn escaping_doubles_quotes() {
    assert_eq!(pg_escape("it's"), "'it''s'");
    assert_eq!(pg_escape(""), "''");
    assert_eq!(pg_escape("''"), "''''''");
    let mut old = BTreeMap::new();
    old.insert(1, entry(None, &[("m", "", "it's")]));
    old.insert(2, entry(Some(1), &[]));
    let mut new = BTreeMap::new();
    new.insert(1, entry(None, &[("m", "", "it's")]));
    new.insert(2, entry(None, &[("m", "", "it's")]));
    let sql = diff_sql(&old, &new, "!r:x", false);
    assert!(sql.contains("'it''s'"));
}

#[test]
fn sql_layout_of_one_group() {
    let mut old = BTreeMap::new();
    old.insert(1, entry(None, &[("a", "", "x")]));
    old.insert(2, entry(None, &[("a", "", "x"), ("b", "k", "y")]));
    let mut new = BTreeMap::new();
    new.insert(1, entry(None, &[("a", "", "x")]));
    new.insert(2, entry(Some(1), &[("b", "k", "y"), ("c", "", "z")]));
    let sql = diff_sql(&old, &new, "!r:x", true);
    let expected = [
        "BEGIN;\n",
        "DELETE FROM state_group_edges WHERE state_group = 2;\n",
        "INSERT INTO state_group_edges (state_group, prev_state_group) VALUES (2, 1);\n",
        "DELETE FROM state_groups_state WHERE state_group = 2;\n",
        "INSERT INTO state_groups_state (state_group, room_id, type, state_key, event_id) VALUES\n",
        "     (2, '!r:x', 'b', 'k', 'y')\n",
        "    ,(2, '!r:x', 'c', '', 'z')\n",
        ";\n",
        "COMMIT;\n",
        "\n",
    ]
    .concat();
    assert_eq!(sql, expected);
}

#[test]
fn decimals_are_written_in_full() {
    let mut s = String::new();
    push_decimal(&mut s, -1234);
    assert_eq!(s, "-1234");
    let mut s = String::new();
    push_decimal(&mut s, i64::MIN);
    assert_eq!(s, i64::MIN.to_string());
    let mut s = String::new();
    push_decimal(&mut s, 0);
    assert_eq!(s, "0");
}

#[test]
fn diff_edits_rewrite_the_store() {
    let f = linear_chain();
    let c = Compressor::compress(&f, &vec![2, 2]);
    let edits = diff_state_groups(&f, &c.new_state_group_map);
    // group 3 becomes a root; group 5 moves to 3.
    assert_eq!(edits.len(), 3 + 4);
    assert!(matches!(edits[0], Edit::RemoveEdges { state_group: 3 }));
    assert!(matches!(edits[1], Edit::RemoveRows { state_group: 3 }));
    assert!(matches!(edits[3], Edit::RemoveEdges { state_group: 5 }));
    assert!(matches!(edits[4], Edit::AddEdge { state_group: 5, prev_state_group: 3 }));
}

#[test]
fn single_level_of_one_gives_no_chains() {
    let f = linear_chain();
    let c = Compressor::compress(&f, &vec![1]);
    let g = &c.new_state_group_map;
    // a lone level of capacity one is full after each group: every group is a root.
    for sg in 1..=5i64 {
        assert_eq!(g[&sg].prev_state_group, None);
        assert_eq!(g[&sg].state_map.len(), sg as usize);
    }
    assert_eq!(c.stats.resets_no_suitable_prev, 4);
    assert_eq!(c.stats.resets_no_suitable_prev_size, 2 + 3 + 4 + 5);
    assert!(all_states_match(&f, g));
}

#[test]
fn collapse_folds_the_chain() {
    let f = linear_chain();
    let s = collapse_state_maps(&f, 3);
    assert!(s.same_contents(&state(&[("m", "1", "e_1"), ("m", "2", "e_2"), ("m", "3", "e_3")])));
    let mut g = BTreeMap::new();
    g.insert(1, entry(None, &[("a", "", "x")]));
    g.insert(2, entry(Some(1), &[("a", "", "y")]));
    let s = collapse_state_maps(&g, 2);
    assert_eq!(s.get(&"a".to_string(), &String::new()), Some(&"y".to_string()));
    assert_eq!(s.len(), 1);
}

#[test]
fn delta_needs_a_contained_predecessor() {
    let p = state(&[("a", "", "x")]);
    let s = state(&[("a", "", "x"), ("b", "", "z")]);
    let d = delta_against(&p, &s).unwrap();
    assert!(d.same_contents(&state(&[("b", "", "z")])));
    assert!(delta_against(&state(&[("a", "", "y")]), &s).is_none());
    assert!(delta_against(&state(&[("c", "", "y")]), &s).is_none());
}

#[test]
fn level_stack_carries_like_an_odometer() {
    let mut st = LevelStack::new(&vec![2, 2]);
    assert!(st.has_space());
    assert_eq!(st.find_previous(), None);
    st.place(1);
    assert_eq!(st.find_previous(), Some(1));
    st.place(2);
    assert_eq!(st.find_previous(), None);
    st.place(3);
    assert_eq!(st.find_previous(), Some(3));
    st.place(4);
    assert_eq!(st.find_previous(), Some(3));
    st.place(5);
    assert!(st.has_space());
    assert_eq!(st.find_previous(), Some(5));
    let mut one = LevelStack::new(&vec![1]);
    one.place(9);
    assert!(!one.has_space());
    assert_eq!(one.find_previous(), None);
}

#[test]
fn state_map_overwrites_and_extends() {
    let mut m = state(&[("a", "", "x")]);
    m.insert("a".to_string(), String::new(), "y".to_string());
    assert_eq!(m.len(), 1);
    assert_eq!(m.get(&"a".to_string(), &String::new()), Some(&"y".to_string()));
    let other = state(&[("a", "", "z"), ("b", "", "w")]);
    m.extend(&other);
    assert!(m.same_contents(&other));
    assert!(StateMap::new().is_empty());
    assert!(!m.is_empty());
}

#[test]
fn loader_joins_rows_and_checks_predecessors() {
    let row = |sg: i64, prev: Option<i64>, r: Option<(&str, &str, &str)>| GroupRow {
        state_group: sg,
        prev_state_group: prev,
        row: r.map(|(t, s, e)| StateEntry::new(t.to_string(), s.to_string(), e.to_string())),
    };
    let rows = vec![
        row(1, None, Some(("a", "", "x"))),
        row(1, None, Some(("b", "", "y"))),
        row(2, Some(1), None),
    ];
    let f = match build_forest(&rows) {
        Ok(f) => f,
        Err(_) => panic!("rows form a forest"),
    };
    assert_eq!(f.len(), 2);
    assert_eq!(f[&1].state_map.len(), 2);
    assert!(f[&2].state_map.is_empty());
    assert_eq!(f[&2].prev_state_group, Some(1));
    let missing = vec![row(2, Some(1), None)];
    assert!(matches!(
        build_forest(&missing),
        Err(ForestError::MissingPredecessor { state_group: 2, prev_state_group: 1 })
    ));
    let later = vec![row(1, Some(2), None), row(2, None, None)];
    assert!(matches!(
        build_forest(&later),
        Err(ForestError::PredecessorNotEarlier { state_group: 1, prev_state_group: 2 })
    ));
}

/// A forest of `n` groups built from a fixed pseudo-random sequence: each
/// group either starts a new root or extends an earlier group, overwriting or
/// adding a few keys.
fn scrambled_forest(n: i64, seed: u64) -> BTreeMap<i64, StateGroupEntry> {
    let mut x = seed;
    let mut next = move || {
        x = x.wrapping_mul(6364136223846793005).wrapping_add(1442695040888963407);
        x >> 33
    };
    let mut f = BTreeMap::new();
    for sg in 1..=n {
        let prev = if sg == 1 || next() % 5 == 0 { None } else { Some(1 + (next() as i64) % (sg - 1)) };
        let mut rows = Vec::new();
        for _ in 0..(1 + next() % 3) {
            rows.push((format!("t{}", next() % 3), format!("k{}", next() % 4), format!("e{}", next() % 50)));
        }
        let refs: Vec<(&str, &str, &str)> =
            rows.iter().map(|(a, b, c)| (a.as_str(), b.as_str(), c.as_str())).collect();
        f.insert(sg * 3, entry(prev.map(|p| p * 3), &refs));
    }
    f
}

#[test]
fn scrambled_forests_keep_every_state() {
    for (seed, sizes) in [(1u64, vec![3usize, 2]), (7, vec![100, 50, 25]), (42, vec![1, 1, 1]), (5, vec![2])] {
        let f = scrambled_forest(60, seed);
        let c = Compressor::compress(&f, &sizes);
        let g = &c.new_state_group_map;
        assert_eq!(g.len(), f.len());
        assert!(all_states_match(&f, g));
        let bound: usize = sizes.iter().sum();
        for (sg, e) in g {
            if let Some(p) = e.prev_state_group {
                assert!(g.contains_key(&p));
                assert!(p < *sg);
            }
            assert!(chain_len(g, *sg) <= bound);
        }
        let again = Compressor::compress(g, &sizes);
        assert_eq!(again.stats.state_groups_changed, 0);
    }
}

#[test]
fn two_runs_give_the_same_patch() {
    let f = scrambled_forest(40, 3);
    let a = Compressor::compress(&f, &vec![4, 2]);
    let b = Compressor::compress(&f, &vec![4, 2]);
    let sa = diff_sql(&f, &a.new_state_group_map, "!room:x", true);
    let sb = diff_sql(&f, &b.new_state_group_map, "!room:x", true);
    assert_eq!(sa, sb);
    assert!(!sa.is_empty());
}

#[test]
fn applying_the_edits_gives_the_new_forest() {
    type Store = BTreeMap<i64, (Option<i64>, Vec<(String, String, String)>)>;
    fn store_of(f: &BTreeMap<i64, StateGroupEntry>) -> Store {
        f.iter()
            .map(|(sg, e)| {
                let mut rows: Vec<(String, String, String)> = e
                    .state_map
                    .entries()
                    .iter()
                    .map(|r| (r.typ.clone(), r.state_key.clone(), r.event_id.clone()))
                    .collect();
                rows.sort();
                (*sg, (e.prev_state_group, rows))
            })
            .collect()
    }
    let f = scrambled_forest(50, 11);
    let c = Compressor::compress(&f, &vec![3, 3]);
    let mut store = store_of(&f);
    for e in diff_state_groups(&f, &c.new_state_group_map) {
        match e {
            Edit::RemoveEdges { state_group } => store.get_mut(&state_group).unwrap().0 = None,
            Edit::AddEdge { state_group, prev_state_group } => {
                store.get_mut(&state_group).unwrap().0 = Some(prev_state_group)
            }
            Edit::RemoveRows { state_group } => store.get_mut(&state_group).unwrap().1.clear(),
            Edit::InsertRows { state_group, rows } => {
                let g = store.get_mut(&state_group).unwrap();
                for r in rows.entries() {
                    g.1.push((r.typ.clone(), r.state_key.clone(), r.event_id.clone()));
                }
                g.1.sort();
            }
        }
    }
    assert_eq!(store, store_of(&c.new_state_group_map));
}

#[test]
fn summed_size_counts_every_delta_row() {
    let f = linear_chain();
    assert_eq!(summed_size(&f), 5);
    let c = Compressor::compress(&f, &vec![2, 2]);
    // 1: {m1}; 2: {m2}; 3: {m1, m2, m3}; 4: {m4}; 5: {m4, m5}
    assert_eq!(summed_size(&c.new_state_group_map), 1 + 1 + 3 + 1 + 2);
    let empty: BTreeMap<i64, StateGroupEntry> = BTreeMap::new();
    assert_eq!(summed_size(&empty), 0);
}

#[test]
fn unchanged_groups_get_no_edits() {
    let f = linear_chain();
    assert!(diff_state_groups(&f, &f).is_empty());
    assert_eq!(diff_sql(&f, &f, "!r:x", true), "");
}
