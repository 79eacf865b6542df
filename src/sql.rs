use vstd::prelude::*;
use std::collections::BTreeMap;
use vstd::string::StrSliceExecFns;
use vstd::string::StringExecFns;
use crate::compressor::{compressed_from, entries_differ, rows_planned, sorted_groups, sorted_keys};
use crate::forest::{forest_wf, StateGroupEntry};
use crate::state_map::{row_view, RowView, StateEntry};
use crate::diff::{entry_differs, group_edits, EditView};

verus! {

/// `s` with every single quote doubled.
pub open spec fn doubled(s: Seq<char>) -> Seq<char>
    decreases s.len(),
{
    if s.len() == 0 {
        Seq::empty()
    } else {
        doubled(s.drop_last()) + if s.last() == '\'' {
            "''"@
        } else {
            seq![s.last()]
        }
    }
}

/// `s` as a quoted literal of the target store.
pub open spec fn quoted(s: Seq<char>) -> Seq<char> {
    "'"@ + doubled(s) + "'"@
}

pub open spec fn digit_text(d: nat) -> Seq<char> {
    if d == 0 {
        "0"@
    } else if d == 1 {
        "1"@
    } else if d == 2 {
        "2"@
    } else if d == 3 {
        "3"@
    } else if d == 4 {
        "4"@
    } else if d == 5 {
        "5"@
    } else if d == 6 {
        "6"@
    } else if d == 7 {
        "7"@
    } else if d == 8 {
        "8"@
    } else {
        "9"@
    }
}

/// The decimal digits of `n`, without leading zeros.
pub open spec fn digits(n: nat) -> Seq<char>
    decreases n,
{
    if n < 10 {
        digit_text(n)
    } else {
        digits(n / 10) + digit_text(n % 10)
    }
}

/// `n` in decimal, with a minus sign when negative.
pub open spec fn decimal(n: int) -> Seq<char> {
    if n < 0 {
        "-"@ + digits((-n) as nat)
    } else {
        digits(n as nat)
    }
}

/// Escapes `s` for the store: every single quote doubled, the whole wrapped
/// in single quotes.
pub fn pg_escape(s: &str) -> (r: String)
    ensures
        r@ == quoted(s@),
{
    let mut out = String::new();
    out.append("'");
    let n = s.unicode_len();
    let mut i: usize = 0;
    while i < n
        invariant
            n == s@.len(),
            i <= n,
            out@ == "'"@ + doubled(s@.take(i as int)),
        decreases n - i,
    {
        let c = s.get_char(i);
        let ghost before = out@;
        if c == '\'' {
            out.append("''");
        } else {
            let piece = s.substring_char(i, i + 1);
            assert(piece@ =~= seq![c]);
            out.append(piece);
        }
        assert(s@.take(i + 1).drop_last() =~= s@.take(i as int));
        assert(out@ =~= "'"@ + doubled(s@.take(i + 1)));
        i = i + 1;
    }
    assert(s@.take(n as int) =~= s@);
    out.append("'");
    out
}

fn push_digit(out: &mut String, d: u64)
    requires
        d < 10,
    ensures
        final(out)@ == old(out)@ + digit_text(d as nat),
{
    if d == 0 {
        out.append("0");
    } else if d == 1 {
        out.append("1");
    } else if d == 2 {
        out.append("2");
    } else if d == 3 {
        out.append("3");
    } else if d == 4 {
        out.append("4");
    } else if d == 5 {
        out.append("5");
    } else if d == 6 {
        out.append("6");
    } else if d == 7 {
        out.append("7");
    } else if d == 8 {
        out.append("8");
    } else {
        out.append("9");
    }
}

fn push_digits(out: &mut String, n: u64)
    ensures
        final(out)@ == old(out)@ + digits(n as nat),
    decreases n,
{
    if n >= 10 {
        push_digits(out, n / 10);
        push_digit(out, n % 10);
        assert(final(out)@ =~= old(out)@ + digits(n as nat));
    } else {
        push_digit(out, n);
    }
}

/// Appends `n` in decimal.
pub fn push_decimal(out: &mut String, n: i64)
    ensures
        final(out)@ == old(out)@ + decimal(n as int),
{
    if n < 0 {
        out.append("-");
        let m: u64 = (-(n as i128)) as u64;
        push_digits(out, m);
        assert(final(out)@ =~= old(out)@ + decimal(n as int));
    } else {
        push_digits(out, n as u64);
    }
}

/// One row of a multi-row insert: the first is led by five spaces, the
/// others by four spaces and a comma.
pub open spec fn row_text(sg: i64, room: Seq<char>, e: RowView, first: bool) -> Seq<char> {
    (if first {
        "     "@
    } else {
        "    ,"@
    }) + "("@ + decimal(sg as int) + ", "@ + quoted(room) + ", "@ + quoted(e.0.0) + ", "@
        + quoted(e.0.1) + ", "@ + quoted(e.1) + ")\n"@
}

pub open spec fn rows_text(sg: i64, room: Seq<char>, rows: Seq<RowView>) -> Seq<char>
    decreases rows.len(),
{
    if rows.len() == 0 {
        Seq::empty()
    } else {
        rows_text(sg, room, rows.drop_last()) + row_text(sg, room, rows.last(), rows.len() == 1)
    }
}

pub open spec fn insert_text(sg: i64, room: Seq<char>, rows: Seq<RowView>) -> Seq<char> {
    if rows.len() > 0 {
        "INSERT INTO state_groups_state (state_group, room_id, type, state_key, event_id) VALUES\n"@
            + rows_text(sg, room, rows) + ";\n"@
    } else {
        Seq::empty()
    }
}

/// The statement that performs one edit; a delta insert is one multi-row
/// statement.
pub open spec fn edit_text(e: EditView, room: Seq<char>) -> Seq<char> {
    match e {
        EditView::RemoveEdges(sg) => "DELETE FROM state_group_edges WHERE state_group = "@
            + decimal(sg as int) + ";\n"@,
        EditView::AddEdge(sg, p) => "INSERT INTO state_group_edges (state_group, prev_state_group) VALUES ("@
            + decimal(sg as int) + ", "@ + decimal(p as int) + ");\n"@,
        EditView::RemoveRows(sg) => "DELETE FROM state_groups_state WHERE state_group = "@
            + decimal(sg as int) + ";\n"@,
        EditView::InsertRows(sg, rows) => insert_text(sg, room, rows),
    }
}

/// The statements of a sequence of edits, in order.
pub open spec fn edits_text(es: Seq<EditView>, room: Seq<char>) -> Seq<char>
    decreases es.len(),
{
    if es.len() == 0 {
        Seq::empty()
    } else {
        edits_text(es.drop_last(), room) + edit_text(es.last(), room)
    }
}

/// The statements of two sequences of edits, one after the other.
pub proof fn lemma_edits_text_append(a: Seq<EditView>, b: Seq<EditView>, room: Seq<char>)
    ensures
        edits_text(a + b, room) == edits_text(a, room) + edits_text(b, room),
    decreases b.len(),
{
    if b.len() == 0 {
        assert(a + b =~= a);
        assert(edits_text(a, room) + edits_text(b, room) =~= edits_text(a, room));
    } else {
        assert((a + b).drop_last() =~= a + b.drop_last());
        lemma_edits_text_append(a, b.drop_last(), room);
        assert(edits_text(a + b, room) =~= edits_text(a, room) + edits_text(b, room));
    }
}

pub proof fn lemma_edits_text_single(e: EditView, room: Seq<char>)
    ensures
        edits_text(seq![e], room) == edit_text(e, room),
{
    let one = seq![e];
    assert(one.drop_last() =~= Seq::<EditView>::empty());
    assert(one.last() == e);
    assert(edits_text(Seq::<EditView>::empty(), room) == Seq::<char>::empty());
    assert(edits_text(one, room) =~= edit_text(e, room));
}

/// The patch for one group: the statements of its edits, optionally inside a
/// transaction, followed by a blank line.
pub open spec fn group_text(
    sg: i64,
    prev: Option<i64>,
    rows: Seq<RowView>,
    room: Seq<char>,
    transactions: bool,
) -> Seq<char> {
    (if transactions {
        "BEGIN;\n"@
    } else {
        Seq::empty()
    }) + edits_text(group_edits(sg, prev, rows), room) + (if transactions {
        "COMMIT;\n"@
    } else {
        Seq::empty()
    }) + "\n"@
}

/// The statements for the first `n` groups of `ks`, for those whose entry
/// differs between `old` and `new`.
pub open spec fn diff_text(
    old: Map<i64, StateGroupEntry>,
    new: Map<i64, StateGroupEntry>,
    ks: Seq<i64>,
    room: Seq<char>,
    transactions: bool,
    n: nat,
) -> Seq<char>
    decreases n,
{
    if n == 0 {
        Seq::empty()
    } else {
        let s = ks[n - 1];
        diff_text(old, new, ks, room, transactions, (n - 1) as nat) + if entry_differs(
            old[s],
            new[s],
        ) {
            group_text(
                s,
                new[s].prev_state_group,
                new[s].state_map.rows(),
                room,
                transactions,
            )
        } else {
            Seq::empty()
        }
    }
}

#[verifier::rlimit(40)]
fn push_rows(out: &mut String, sg: i64, room: &str, rows: &Vec<StateEntry>)
    ensures
        final(out)@ == old(out)@ + rows_text(sg, room@, rows@.map_values(|e: StateEntry| row_view(e))),
{
    let ghost base = out@;
    let ghost rv = rows@.map_values(|e: StateEntry| row_view(e));
    let mut i: usize = 0;
    assert(rows@.take(0) =~= Seq::<StateEntry>::empty());
    while i < rows.len()
        invariant
            i <= rows@.len(),
            rv == rows@.map_values(|e: StateEntry| row_view(e)),
            out@ == base + rows_text(sg, room@, rv.take(i as int)),
        decreases rows@.len() - i,
    {
        let e = &rows[i];
        let ghost before = out@;
        if i == 0 {
            out.append("     ");
        } else {
            out.append("    ,");
        }
        out.append("(");
        push_decimal(out, sg);
        out.append(", ");
        let q = pg_escape(room);
        out.append(q.as_str());
        out.append(", ");
        let q = pg_escape(e.typ.as_str());
        out.append(q.as_str());
        out.append(", ");
        let q = pg_escape(e.state_key.as_str());
        out.append(q.as_str());
        out.append(", ");
        let q = pg_escape(e.event_id.as_str());
        out.append(q.as_str());
        out.append(")\n");
        assert(rv[i as int] == row_view(rows@[i as int]));
        assert(out@ =~= before + row_text(sg, room@, rv[i as int], i == 0));
        assert(rv.take(i + 1).drop_last() =~= rv.take(i as int));
        assert(out@ =~= base + rows_text(sg, room@, rv.take(i + 1)));
        i = i + 1;
    }
    assert(rv.take(i as int) =~= rv);
}

fn push_edge(out: &mut String, sg: i64, prev: Option<i64>)
    ensures
        final(out)@ == old(out)@ + match prev {
            Some(p) => edit_text(EditView::AddEdge(sg, p), Seq::empty()),
            None => Seq::empty(),
        },
{
    let ghost b = out@;
    match prev {
        Some(p) => {
            out.append("INSERT INTO state_group_edges (state_group, prev_state_group) VALUES (");
            push_decimal(out, sg);
            out.append(", ");
            push_decimal(out, p);
            out.append(");\n");
        },
        None => {},
    }
    assert(out@ =~= b + match prev {
        Some(p) => edit_text(EditView::AddEdge(sg, p), Seq::empty()),
        None => Seq::<char>::empty(),
    });
}

fn push_inserts(out: &mut String, sg: i64, room_id: &str, rows: &Vec<StateEntry>)
    ensures
        final(out)@ == old(out)@ + insert_text(sg, room_id@, rows@.map_values(|e: StateEntry| row_view(e))),
{
    let ghost c = out@;
    if rows.len() > 0 {
        out.append(
            "INSERT INTO state_groups_state (state_group, room_id, type, state_key, event_id) VALUES\n",
        );
        push_rows(out, sg, room_id, rows);
        out.append(";\n");
    }
    assert(out@ =~= c + insert_text(sg, room_id@, rows@.map_values(|e: StateEntry| row_view(e))));
}

fn push_statement(out: &mut String, head: &str, sg: i64)
    ensures
        final(out)@ == old(out)@ + head@ + decimal(sg as int) + ";\n"@,
{
    out.append(head);
    push_decimal(out, sg);
    out.append(";\n");
}

/// Appends the statements that rewrite group `sg` to `entry`.
#[verifier::rlimit(60)]
pub fn push_group_sql(
    out: &mut String,
    sg: i64,
    entry: &StateGroupEntry,
    room_id: &str,
    transactions: bool,
)
    requires
        entry.state_map.wf(),
    ensures
        final(out)@ == old(out)@ + group_text(
            sg,
            entry.prev_state_group,
            entry.state_map.rows(),
            room_id@,
            transactions,
        ),
{
    let ghost base = out@;
    let ghost room = room_id@;
    let ghost prev = entry.prev_state_group;
    let ghost rv = entry.state_map.rows();
    let ghost e1 = seq![EditView::RemoveEdges(sg)];
    let ghost e2 = match prev {
        Some(p) => seq![EditView::AddEdge(sg, p)],
        None => Seq::<EditView>::empty(),
    };
    let ghost e3 = seq![EditView::RemoveRows(sg)];
    let ghost e4 = if rv.len() > 0 {
        seq![EditView::InsertRows(sg, rv)]
    } else {
        Seq::<EditView>::empty()
    };
    if transactions {
        out.append("BEGIN;\n");
    }
    let ghost a = out@;
    push_statement(out, "DELETE FROM state_group_edges WHERE state_group = ", sg);
    proof {
        lemma_edits_text_single(EditView::RemoveEdges(sg), room);
        assert(out@ =~= a + edits_text(e1, room));
    }
    let ghost b = out@;
    push_edge(out, sg, entry.prev_state_group);
    proof {
        match prev {
            Some(p) => {
                lemma_edits_text_single(EditView::AddEdge(sg, p), room);
            },
            None => {},
        }
        assert(out@ =~= b + edits_text(e2, room));
    }
    let ghost c = out@;
    push_statement(out, "DELETE FROM state_groups_state WHERE state_group = ", sg);
    proof {
        lemma_edits_text_single(EditView::RemoveRows(sg), room);
        assert(out@ =~= c + edits_text(e3, room));
    }
    let ghost d = out@;
    let rows = entry.state_map.entries();
    push_inserts(out, sg, room_id, rows);
    proof {
        if rv.len() > 0 {
            lemma_edits_text_single(EditView::InsertRows(sg, rv), room);
        }
        assert(out@ =~= d + edits_text(e4, room));
        lemma_edits_text_append(e1, e2, room);
        lemma_edits_text_append(e1 + e2, e3, room);
        lemma_edits_text_append(e1 + e2 + e3, e4, room);
        assert(group_edits(sg, prev, rv) == e1 + e2 + e3 + e4);
        assert(out@ =~= a + edits_text(group_edits(sg, prev, rv), room));
    }
    if transactions {
        out.append("COMMIT;\n");
    }
    out.append("\n");
    assert(out@ =~= base + group_text(
        sg,
        entry.prev_state_group,
        entry.state_map.rows(),
        room_id@,
        transactions,
    ));
}

/// The patch that rewrites a store holding `old` into one holding `new`: the
/// statements of every group whose entry differs, in ascending group order.
pub fn diff_sql(
    old: &BTreeMap<i64, StateGroupEntry>,
    new: &BTreeMap<i64, StateGroupEntry>,
    room_id: &str,
    transactions: bool,
) -> (r: String)
    requires
        forest_wf(old@),
        forest_wf(new@),
        old@.dom() == new@.dom(),
    ensures
        forall|ks: Seq<i64>| #[trigger]
            sorted_keys(old@, ks) ==> r@ == diff_text(old@, new@, ks, room_id@, transactions, ks.len()),
{
    let ks = sorted_groups(old);
    let mut out = String::new();
    let mut i: usize = 0;
    while i < ks.len()
        invariant
            forest_wf(old@),
            forest_wf(new@),
            old@.dom() == new@.dom(),
            sorted_keys(old@, ks@),
            i <= ks@.len(),
            out@ == diff_text(old@, new@, ks@, room_id@, transactions, i as nat),
        decreases ks@.len() - i,
    {
        let s = ks[i];
        assert(ks@.to_set().contains(s));
        let o = old.get(&s).unwrap();
        let n = new.get(&s).unwrap();
        if entries_differ(o, n) {
            push_group_sql(&mut out, s, n, room_id, transactions);
        } else {
            assert(out@ =~= diff_text(old@, new@, ks@, room_id@, transactions, (i + 1) as nat));
        }
        i = i + 1;
    }
    proof {
        assert forall|ks2: Seq<i64>| #[trigger] sorted_keys(old@, ks2) implies ks2 == ks@ by {
            crate::compressor::lemma_sorted_keys_unique(old@, ks2, ks@);
        }
    }
    out
}

/// Two compressions of the same forest with the same levels yield the same
/// patch, character for character.
pub proof fn lemma_patch_deterministic(
    f: Map<i64, StateGroupEntry>,
    g1: Map<i64, StateGroupEntry>,
    g2: Map<i64, StateGroupEntry>,
    sizes: Seq<usize>,
    ks: Seq<i64>,
    room: Seq<char>,
    transactions: bool,
)
    requires
        sorted_keys(f, ks),
        compressed_from(g1, f, sizes, ks),
        compressed_from(g2, f, sizes, ks),
        rows_planned(g1, f, sizes, ks),
        rows_planned(g2, f, sizes, ks),
    ensures
        diff_text(f, g1, ks, room, transactions, ks.len()) == diff_text(
            f,
            g2,
            ks,
            room,
            transactions,
            ks.len(),
        ),
{
    lemma_patch_prefix(f, g1, g2, sizes, ks, room, transactions, ks.len());
}

proof fn lemma_patch_prefix(
    f: Map<i64, StateGroupEntry>,
    g1: Map<i64, StateGroupEntry>,
    g2: Map<i64, StateGroupEntry>,
    sizes: Seq<usize>,
    ks: Seq<i64>,
    room: Seq<char>,
    transactions: bool,
    n: nat,
)
    requires
        n <= ks.len(),
        compressed_from(g1, f, sizes, ks),
        compressed_from(g2, f, sizes, ks),
        rows_planned(g1, f, sizes, ks),
        rows_planned(g2, f, sizes, ks),
    ensures
        diff_text(f, g1, ks, room, transactions, n) == diff_text(f, g2, ks, room, transactions, n),
    decreases n,
{
    if n > 0 {
        lemma_patch_prefix(f, g1, g2, sizes, ks, room, transactions, (n - 1) as nat);
        let j = n - 1;
        assert(g1[ks[j]].prev_state_group == g2[ks[j]].prev_state_group);
        assert(g1[ks[j]].state_map@ == g2[ks[j]].state_map@);
        assert(g1[ks[j]].state_map.rows() == g2[ks[j]].state_map.rows());
    }
}

} // verus!
