//! Ranking the league rows and rendering the table.

use vstd::prelude::*;
use vstd::relations::sorted_by;
use vstd::seq_lib::lemma_sorted_unique;
use vstd::string::StringExecFns;
use crate::chars::chars_of;
use crate::league::{
    entries_map, entry_names_distinct, lemma_entries_map_at, lemma_entries_map_domain,
};
use crate::numbers::{dec_spec, dec_u128};
use crate::order::{le_chars, lemma_row_order_total, row_le, row_order};

verus! {

/// The (name, points) views of an entry vector.
pub open spec fn rows_view(s: Seq<(String, u128)>) -> Seq<(Seq<char>, u128)> {
    Seq::new(s.len(), |i: int| (s[i].0@, s[i].1))
}

/// Whether `rows` lists exactly the teams of `m`, each with its points,
/// no row repeated.
pub open spec fn rows_match_map(rows: Seq<(Seq<char>, u128)>, m: Map<Seq<char>, int>) -> bool {
    &&& rows.no_duplicates()
    &&& forall|i: int|
        0 <= i < rows.len() ==> m.contains_key((#[trigger] rows[i]).0) && rows[i].1 as int
            == m[rows[i].0]
    &&& forall|k: Seq<char>|
        #[trigger] m.contains_key(k) ==> exists|i: int|
            0 <= i < rows.len() && (#[trigger] rows[i]).0 == k
}

/// Whether `rows` is the standings table of `m`: its teams and points,
/// in rank order.
pub open spec fn is_ranking(rows: Seq<(Seq<char>, u128)>, m: Map<Seq<char>, int>) -> bool {
    rows_match_map(rows, m) && sorted_by(rows, row_order())
}

/// An entry sequence with distinct names lists exactly its own mapping.
pub proof fn lemma_entries_match(s: Seq<(Seq<char>, u128)>)
    requires
        entry_names_distinct(s),
    ensures
        rows_match_map(s, entries_map(s)),
{
    assert(s.no_duplicates()) by {
        assert(forall|i: int, j: int|
            0 <= i < j < s.len() ==> (#[trigger] s[i]) != (#[trigger] s[j]));
    }
    assert forall|i: int|
        0 <= i < s.len() implies entries_map(s).contains_key((#[trigger] s[i]).0) && s[i].1 as int
        == entries_map(s)[s[i].0] by {
        lemma_entries_map_at(s, i);
    }
    lemma_entries_map_domain(s);
}

/// Two sequences with the same rows match the same mappings.
pub proof fn lemma_match_transfer(
    a: Seq<(Seq<char>, u128)>,
    b: Seq<(Seq<char>, u128)>,
    m: Map<Seq<char>, int>,
)
    requires
        rows_match_map(a, m),
        a.to_multiset() == b.to_multiset(),
    ensures
        rows_match_map(b, m),
{
    broadcast use vstd::seq_lib::group_to_multiset_ensures;

    a.lemma_multiset_has_no_duplicates();
    assert(forall|x: (Seq<char>, u128)|
        b.to_multiset().contains(x) ==> b.to_multiset().count(x) == 1);
    b.lemma_multiset_has_no_duplicates_conv();
    assert forall|i: int|
        0 <= i < b.len() implies m.contains_key((#[trigger] b[i]).0) && b[i].1 as int
        == m[b[i].0] by {
        assert(b.contains(b[i]));
        assert(a.to_multiset().count(b[i]) > 0);
        assert(a.contains(b[i]));
        let j = choose|j: int| 0 <= j < a.len() && a[j] == b[i];
        assert(m.contains_key(a[j].0));
    }
    assert forall|k: Seq<char>| #[trigger] m.contains_key(k) implies exists|i: int|
        0 <= i < b.len() && (#[trigger] b[i]).0 == k by {
        let j = choose|j: int| 0 <= j < a.len() && (#[trigger] a[j]).0 == k;
        assert(a.contains(a[j]));
        assert(b.to_multiset().count(a[j]) > 0);
        assert(b.contains(a[j]));
        let i = choose|i: int| 0 <= i < b.len() && b[i] == a[j];
        assert(b[i].0 == k);
    }
}

/// The ranking of a mapping is unique: the rank order is total, so two
/// sorted tables of the same mapping are the same table, row for row.
pub proof fn lemma_ranking_unique(
    r1: Seq<(Seq<char>, u128)>,
    r2: Seq<(Seq<char>, u128)>,
    m: Map<Seq<char>, int>,
)
    requires
        is_ranking(r1, m),
        is_ranking(r2, m),
    ensures
        r1 == r2,
{
    broadcast use vstd::seq_lib::group_to_multiset_ensures;

    r1.lemma_multiset_has_no_duplicates();
    r2.lemma_multiset_has_no_duplicates();
    assert forall|p: (Seq<char>, u128)| r1.contains(p) implies r2.contains(p) by {
        let i = choose|i: int| 0 <= i < r1.len() && r1[i] == p;
        assert(m.contains_key(r1[i].0));
        let j = choose|j: int| 0 <= j < r2.len() && (#[trigger] r2[j]).0 == p.0;
        assert(r2[j].1 as int == m[p.0]);
        assert(r2[j] == p);
    }
    assert forall|p: (Seq<char>, u128)| r2.contains(p) implies r1.contains(p) by {
        let i = choose|i: int| 0 <= i < r2.len() && r2[i] == p;
        assert(m.contains_key(r2[i].0));
        let j = choose|j: int| 0 <= j < r1.len() && (#[trigger] r1[j]).0 == p.0;
        assert(r1[j].1 as int == m[p.0]);
        assert(r1[j] == p);
    }
    assert(r1.to_multiset() =~= r2.to_multiset()) by {
        assert forall|p: (Seq<char>, u128)|
            r1.to_multiset().count(p) == r2.to_multiset().count(p) by {
            if r1.contains(p) {
                assert(r1.to_multiset().count(p) == 1);
                assert(r2.contains(p));
                assert(r2.to_multiset().count(p) == 1);
            } else {
                assert(r1.to_multiset().count(p) == 0) by {
                    if r1.to_multiset().count(p) > 0 {
                        assert(r1.contains(p));
                    }
                }
                assert(r2.to_multiset().count(p) == 0) by {
                    if r2.to_multiset().count(p) > 0 {
                        assert(r2.contains(p));
                        assert(r1.contains(p));
                    }
                }
            }
        }
    }
    lemma_row_order_total();
    lemma_sorted_unique(r1, r2, row_order());
}

/// Whether `a` ranks no later than `b`.
fn row_le_exec(a: &(String, u128), b: &(String, u128)) -> (r: bool)
    ensures
        r == row_le((a.0@, a.1), (b.0@, b.1)),
{
    if a.1 > b.1 {
        true
    } else if a.1 < b.1 {
        false
    } else {
        let ca = chars_of(a.0.as_str());
        let cb = chars_of(b.0.as_str());
        le_chars(&ca, &cb)
    }
}

/// Sorts the rows into rank order: points descending, name ascending.
pub fn sort_rows(rows: Vec<(String, u128)>) -> (r: Vec<(String, u128)>)
    ensures
        sorted_by(rows_view(r@), row_order()),
        rows_view(r@).to_multiset() == rows_view(rows@).to_multiset(),
{
    broadcast use vstd::seq_lib::group_to_multiset_ensures;

    let ghost orig = rows_view(rows@);
    let mut rest = rows;
    let mut out: Vec<(String, u128)> = Vec::new();
    proof {
        assert(rows_view(out@) =~= Seq::<(Seq<char>, u128)>::empty());
        assert(rows_view(out@).to_multiset().add(rows_view(rest@).to_multiset())
            =~= orig.to_multiset());
    }
    while rest.len() > 0
        invariant
            sorted_by(rows_view(out@), row_order()),
            rows_view(out@).to_multiset().add(rows_view(rest@).to_multiset())
                == orig.to_multiset(),
            forall|i: int, j: int|
                0 <= i < out@.len() && 0 <= j < rest@.len() ==> row_le(
                    rows_view(out@)[i],
                    rows_view(rest@)[j],
                ),
        decreases rest@.len(),
    {
        let ghost rv = rows_view(rest@);
        let n = rest.len();
        let mut m: usize = 0;
        let mut j: usize = 1;
        proof {
            lemma_row_order_total();
            assert(row_order()(rv[0], rv[0]));
            assert(row_le(rv[0], rv[0]));
        }
        while j < n
            invariant
                n == rest@.len(),
                rv == rows_view(rest@),
                m < j <= n,
                forall|k: int| 0 <= k < j ==> row_le(rv[m as int], #[trigger] rv[k]),
            decreases n - j,
        {
            proof {
                lemma_row_order_total();
            }
            if row_le_exec(&rest[j], &rest[m]) {
                assert(row_le(rv[j as int], rv[m as int]));
                assert forall|k: int| 0 <= k < j + 1 implies row_le(
                    rv[j as int],
                    #[trigger] rv[k],
                ) by {
                    if k < j {
                        assert(row_le(rv[m as int], rv[k]));
                        assert(row_order()(rv[j as int], rv[m as int]));
                        assert(row_order()(rv[m as int], rv[k]));
                    }
                }
                m = j;
            } else {
                assert(row_order()(rv[j as int], rv[m as int]) || row_order()(
                    rv[m as int],
                    rv[j as int],
                ));
                assert(row_le(rv[m as int], rv[j as int]));
            }
            j = j + 1;
        }
        let ghost ov = rows_view(out@);
        let ghost pre = rest@;
        let x = rest.remove(m);
        out.push(x);
        proof {
            broadcast use vstd::seq_lib::group_to_multiset_ensures;

            assert(rest@ == pre.remove(m as int));
            assert(forall|t: int|
                0 <= t < m ==> #[trigger] pre.remove(m as int)[t] == pre[t]);
            assert(forall|t: int|
                m <= t < pre.len() - 1 ==> #[trigger] pre.remove(m as int)[t] == pre[t + 1]);
            assert(rows_view(rest@) =~= rv.remove(m as int));
            assert(rows_view(out@) =~= ov.push((x.0@, x.1)));
            assert((x.0@, x.1) == rv[m as int]);
            assert(rv.remove(m as int).to_multiset() =~= rv.to_multiset().remove(rv[m as int]));
            assert(rows_view(out@).to_multiset() =~= ov.to_multiset().insert(rv[m as int]));
            assert(rv.to_multiset().count(rv[m as int]) > 0) by {
                assert(rv.contains(rv[m as int]));
            }
            assert(rows_view(out@).to_multiset().add(rows_view(rest@).to_multiset())
                =~= orig.to_multiset());
            // the appended row keeps the prefix sorted: it is above no
            // earlier row and below every remaining one
            assert forall|a: int, b: int|
                0 <= a < b < rows_view(out@).len() implies row_order()(
                rows_view(out@)[a],
                rows_view(out@)[b],
            ) by {
                if b < ov.len() {
                    assert(row_order()(ov[a], ov[b]));
                } else {
                    assert(rows_view(out@)[b] == rv[m as int]);
                    assert(row_le(ov[a], rv[m as int]));
                }
            }
            assert forall|a: int, b: int|
                #![trigger rows_view(out@)[a], rows_view(rest@)[b]]
                0 <= a < out@.len() && 0 <= b < rest@.len() implies row_le(
                rows_view(out@)[a],
                rows_view(rest@)[b],
            ) by {
                let prev = if b < m { b } else { b + 1 };
                assert(rows_view(rest@)[b] == rv[prev]);
                if a < ov.len() {
                    assert(row_le(ov[a], rv[prev]));
                } else {
                    assert(rows_view(out@)[a] == rv[m as int]);
                    assert(row_le(rv[m as int], rv[prev]));
                }
            }
        }
    }
    proof {
        assert(rows_view(rest@) =~= Seq::<(Seq<char>, u128)>::empty());
        assert(rows_view(out@).to_multiset().add(Seq::<(Seq<char>, u128)>::empty().to_multiset())
            =~= rows_view(out@).to_multiset());
    }
    out
}

/// The unit the points are printed with: the singular for exactly one
/// point, the plural for any other count, zero included.
pub open spec fn unit_spec(points: u128) -> Seq<char> {
    if points == 1 {
        "pt"@
    } else {
        "pts"@
    }
}

/// One rendered table row: `"{rank}. {team} {points} {unit}\n"`.
pub open spec fn row_text(rank: nat, name: Seq<char>, points: u128) -> Seq<char> {
    dec_spec(rank) + ". "@ + name + " "@ + dec_spec(points as nat) + " "@ + unit_spec(points)
        + "\n"@
}

/// The rendered rows from index `i` on; the row at index `i` carries rank
/// `i + 1`, so ranks are contiguous from 1.
pub open spec fn render_from(rows: Seq<(Seq<char>, u128)>, i: int) -> Seq<char>
    decreases rows.len() - i,
{
    if i < 0 || i >= rows.len() {
        Seq::empty()
    } else {
        row_text((i + 1) as nat, rows[i].0, rows[i].1) + render_from(rows, i + 1)
    }
}

/// The whole rendered table: every row in order, rank 1 first.
pub open spec fn render_rows(rows: Seq<(Seq<char>, u128)>) -> Seq<char> {
    render_from(rows, 0)
}

/// A table for the empty mapping has no rows and renders to nothing.
pub proof fn lemma_empty_ranking(rows: Seq<(Seq<char>, u128)>)
    requires
        rows_match_map(rows, Map::<Seq<char>, int>::empty()),
    ensures
        rows.len() == 0,
        render_rows(rows) == Seq::<char>::empty(),
{
    if rows.len() > 0 {
        assert(Map::<Seq<char>, int>::empty().contains_key(rows[0].0));
    }
}

/// Renders the sorted rows as the standings table.
pub fn render_table(rows: &Vec<(String, u128)>) -> (s: String)
    ensures
        s@ == render_rows(rows_view(rows@)),
{
    let ghost rv = rows_view(rows@);
    let n = rows.len();
    let mut s = String::new();
    let mut i: usize = 0;
    proof {
        assert(render_rows(rv) =~= s@ + render_from(rv, 0));
    }
    while i < n
        invariant
            n == rows@.len(),
            i <= n,
            rv == rows_view(rows@),
            render_rows(rv) == s@ + render_from(rv, i as int),
        decreases n - i,
    {
        let ghost s0 = s@;
        let rank_s = dec_u128((i as u128) + 1);
        s.append(rank_s.as_str());
        s.append(". ");
        s.append(rows[i].0.as_str());
        s.append(" ");
        let pts = rows[i].1;
        let pts_s = dec_u128(pts);
        s.append(pts_s.as_str());
        s.append(" ");
        if pts == 1 {
            s.append("pt");
        } else {
            s.append("pts");
        }
        s.append("\n");
        proof {
            assert(rv[i as int] == (rows@[i as int].0@, rows@[i as int].1));
            assert(s@ =~= s0 + row_text((i + 1) as nat, rv[i as int].0, rv[i as int].1));
            assert(render_rows(rv) =~= s@ + render_from(rv, i as int + 1));
        }
        i = i + 1;
    }
    s
}

} // verus!
