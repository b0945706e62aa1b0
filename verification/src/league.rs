//! The league mapping: cumulative points per team.

use vstd::prelude::*;
use crate::outcome::{MatchResult, OutcomeView};

verus! {

/// Whether no two entries share a team name.
pub open spec fn entry_names_distinct(s: Seq<(Seq<char>, u128)>) -> bool {
    forall|i: int, j: int| 0 <= i < j < s.len() ==> (#[trigger] s[i]).0 != (#[trigger] s[j]).0
}

/// The mapping an entry sequence denotes: a later entry for the same name
/// would win, but entries here always have distinct names.
pub open spec fn entries_map(s: Seq<(Seq<char>, u128)>) -> Map<Seq<char>, int>
    decreases s.len(),
{
    if s.len() == 0 {
        Map::empty()
    } else {
        entries_map(s.drop_last()).insert(s.last().0, s.last().1 as int)
    }
}

/// A name in the mapping is a name of some entry.
pub proof fn lemma_entries_map_domain(s: Seq<(Seq<char>, u128)>)
    ensures
        forall|k: Seq<char>|
            #[trigger] entries_map(s).contains_key(k) <==> exists|i: int|
                0 <= i < s.len() && (#[trigger] s[i]).0 == k,
    decreases s.len(),
{
    if s.len() > 0 {
        let d = s.drop_last();
        lemma_entries_map_domain(d);
        assert(forall|i: int| 0 <= i < d.len() ==> #[trigger] d[i] == s[i]);
        assert forall|k: Seq<char>| #[trigger]
            entries_map(s).contains_key(k) implies exists|i: int|
            0 <= i < s.len() && (#[trigger] s[i]).0 == k by {
            if k == s.last().0 {
                assert(s[s.len() - 1].0 == k);
            } else {
                assert(entries_map(d).contains_key(k));
                let i = choose|i: int| 0 <= i < d.len() && (#[trigger] d[i]).0 == k;
                assert(s[i].0 == k);
            }
        }
        assert forall|k: Seq<char>|
            exists|i: int|
                0 <= i < s.len() && (#[trigger] s[i]).0 == k implies #[trigger] entries_map(
            s,
        ).contains_key(k) by {
            let i = choose|i: int| 0 <= i < s.len() && (#[trigger] s[i]).0 == k;
            if i < s.len() - 1 {
                assert(d[i].0 == k);
                assert(entries_map(d).contains_key(k));
            }
        }
    }
}

/// With distinct names, each entry's name maps to that entry's points.
pub proof fn lemma_entries_map_at(s: Seq<(Seq<char>, u128)>, i: int)
    requires
        entry_names_distinct(s),
        0 <= i < s.len(),
    ensures
        entries_map(s).contains_key(s[i].0),
        entries_map(s)[s[i].0] == s[i].1 as int,
    decreases s.len(),
{
    if i == s.len() - 1 {
        lemma_entries_map_domain(s);
    } else {
        assert(forall|a: int, b: int|
            0 <= a < b < s.drop_last().len() ==> (#[trigger] s.drop_last()[a]).0
                != (#[trigger] s.drop_last()[b]).0);
        lemma_entries_map_at(s.drop_last(), i);
        assert(s[i].0 != s[s.len() - 1].0);
    }
}

/// Updating the entry that holds `name` updates the mapping at `name`.
proof fn lemma_entries_map_update(s: Seq<(Seq<char>, u128)>, i: int, e: (Seq<char>, u128))
    requires
        entry_names_distinct(s),
        0 <= i < s.len(),
        s[i].0 == e.0,
    ensures
        entries_map(s.update(i, e)) == entries_map(s).insert(e.0, e.1 as int),
    decreases s.len(),
{
    let su = s.update(i, e);
    if i == s.len() - 1 {
        assert(su.drop_last() =~= s.drop_last());
        assert(su.last() == e);
        assert(entries_map(su) =~= entries_map(s).insert(e.0, e.1 as int));
    } else {
        assert(forall|a: int, b: int|
            0 <= a < b < s.drop_last().len() ==> (#[trigger] s.drop_last()[a]).0
                != (#[trigger] s.drop_last()[b]).0);
        lemma_entries_map_update(s.drop_last(), i, e);
        assert(su.drop_last() =~= s.drop_last().update(i, e));
        assert(su.last() == s.last());
        assert(s[i].0 != s.last().0);
        assert(entries_map(su) =~= entries_map(s).insert(e.0, e.1 as int));
    }
}

/// `m` with `delta` more points for `name`, a missing name starting at 0.
pub open spec fn bump(m: Map<Seq<char>, int>, name: Seq<char>, delta: int) -> Map<Seq<char>, int> {
    m.insert(
        name,
        (if m.contains_key(name) {
            m[name]
        } else {
            0
        }) + delta,
    )
}

/// `m` with `name` present: an absent name is inserted at 0 points, a
/// present one is left as it is.
pub open spec fn mention(m: Map<Seq<char>, int>, name: Seq<char>) -> Map<Seq<char>, int> {
    if m.contains_key(name) {
        m
    } else {
        m.insert(name, 0)
    }
}

/// The mapping after one classified outcome: a win gives the winner 3
/// points and makes sure the loser is present; a draw gives each
/// participant 1 point.  The winner is credited before the loser is
/// looked up, which settles lines that name one team twice.
pub open spec fn apply_outcome(m: Map<Seq<char>, int>, o: OutcomeView) -> Map<Seq<char>, int> {
    match o {
        OutcomeView::WinV { won, lost } => mention(bump(m, won, 3), lost),
        OutcomeView::DrawV(a, b) => bump(bump(m, a, 1), b, 1),
    }
}

/// The accumulator is additive, not idempotent: a win always adds
/// exactly 3 points to the winner's total, so applying the same outcome
/// twice adds 6, not 3.
pub proof fn lemma_win_adds_three(m: Map<Seq<char>, int>, won: Seq<char>, lost: Seq<char>)
    ensures
        apply_outcome(m, OutcomeView::WinV { won, lost }).contains_key(won),
        apply_outcome(m, OutcomeView::WinV { won, lost })[won] == (if m.contains_key(won) {
            m[won]
        } else {
            0
        }) + 3,
        apply_outcome(m, OutcomeView::WinV { won, lost }).contains_key(lost),
        lost != won && m.contains_key(lost) ==> apply_outcome(
            m,
            OutcomeView::WinV { won, lost },
        )[lost] == m[lost],
        lost != won && !m.contains_key(lost) ==> apply_outcome(
            m,
            OutcomeView::WinV { won, lost },
        )[lost] == 0,
{
}

/// A draw adds exactly 1 point to each participant's total, or 2 to a
/// team that a line names on both sides.
pub proof fn lemma_draw_adds_one(m: Map<Seq<char>, int>, a: Seq<char>, b: Seq<char>)
    ensures
        apply_outcome(m, OutcomeView::DrawV(a, b)).contains_key(a),
        apply_outcome(m, OutcomeView::DrawV(a, b)).contains_key(b),
        a != b ==> apply_outcome(m, OutcomeView::DrawV(a, b))[a] == (if m.contains_key(a) {
            m[a]
        } else {
            0
        }) + 1,
        apply_outcome(m, OutcomeView::DrawV(a, b))[b] == (if bump(m, a, 1).contains_key(b) {
            bump(m, a, 1)[b]
        } else {
            0
        }) + 1,
        a == b ==> apply_outcome(m, OutcomeView::DrawV(a, b))[a] == (if m.contains_key(a) {
            m[a]
        } else {
            0
        }) + 2,
{
}

/// The league mapping from team name to cumulative points.  Entries are
/// kept in first-mention order; names are unique.
pub struct League {
    entries: Vec<(String, u128)>,
}

impl League {
    /// The entries as (name, points) rows, in first-mention order.
    pub closed spec fn rows(&self) -> Seq<(Seq<char>, u128)> {
        Seq::new(self.entries@.len(), |i: int| (self.entries@[i].0@, self.entries@[i].1))
    }

    /// Well-formed: no team name occurs twice.
    pub closed spec fn wf(&self) -> bool {
        entry_names_distinct(self.rows())
    }

    /// The mapping the league denotes.
    pub closed spec fn as_map(&self) -> Map<Seq<char>, int> {
        entries_map(self.rows())
    }

    /// An empty league.
    pub fn new() -> (r: League)
        ensures
            r.wf(),
            r.as_map() == Map::<Seq<char>, int>::empty(),
    {
        let r = League { entries: Vec::new() };
        proof {
            assert(r.rows() =~= Seq::<(Seq<char>, u128)>::empty());
        }
        r
    }

    /// The index of the entry for `name`, if there is one.
    fn find(&self, name: &String) -> (r: Option<usize>)
        ensures
            match r {
                Option::Some(i) => i < self.rows().len() && self.rows()[i as int].0 == name@,
                Option::None => forall|i: int|
                    0 <= i < self.rows().len() ==> (#[trigger] self.rows()[i]).0 != name@,
            },
    {
        let n = self.entries.len();
        let mut i: usize = 0;
        while i < n
            invariant
                n == self.entries@.len(),
                i <= n,
                forall|j: int| 0 <= j < i ==> (#[trigger] self.rows()[j]).0 != name@,
            decreases n - i,
        {
            if self.entries[i].0 == *name {
                return Some(i);
            }
            i = i + 1;
        }
        None
    }

    fn bump_entry(&mut self, name: String, delta: u128)
        requires
            old(self).wf(),
            old(self).as_map().contains_key(name@) ==> old(self).as_map()[name@] + delta
                <= u128::MAX,
        ensures
            final(self).wf(),
            final(self).as_map() == bump(old(self).as_map(), name@, delta as int),
    {
        proof {
            lemma_entries_map_domain(self.rows());
        }
        match self.find(&name) {
            Some(i) => {
                proof {
                    lemma_entries_map_at(self.rows(), i as int);
                }
                let p = self.entries[i].1;
                assert(p + delta <= u128::MAX);
                let ghost before = self.rows();
                self.entries.set(i, (name, p + delta));
                proof {
                    assert(self.rows() =~= before.update(i as int, (name@, (p + delta) as u128)));
                    lemma_entries_map_update(before, i as int, (name@, (p + delta) as u128));
                }
            },
            None => {
                let ghost before = self.rows();
                self.entries.push((name, delta));
                proof {
                    assert(self.rows() =~= before.push((name@, delta)));
                    assert(self.rows().drop_last() =~= before);
                    lemma_entries_map_domain(before);
                }
            },
        }
    }

    fn mention_entry(&mut self, name: String)
        requires
            old(self).wf(),
        ensures
            final(self).wf(),
            final(self).as_map() == mention(old(self).as_map(), name@),
    {
        proof {
            lemma_entries_map_domain(self.rows());
        }
        match self.find(&name) {
            Some(_) => {
            },
            None => {
                let ghost before = self.rows();
                self.entries.push((name, 0));
                proof {
                    assert(self.rows() =~= before.push((name@, 0u128)));
                    assert(self.rows().drop_last() =~= before);
                    lemma_entries_map_domain(before);
                }
            },
        }
    }

    /// Applies one match outcome: 3 points to a winner, 0 (but an entry)
    /// to a loser, 1 point to each side of a draw.  This is the only way
    /// the mapping changes; points never decrease.
    pub fn apply(&mut self, outcome: MatchResult)
        requires
            old(self).wf(),
            forall|k: Seq<char>|
                #[trigger] old(self).as_map().contains_key(k) ==> old(self).as_map()[k] + 3
                    <= u128::MAX,
        ensures
            final(self).wf(),
            final(self).as_map() == apply_outcome(old(self).as_map(), outcome@),
    {
        match outcome {
            MatchResult::Win { won, lost } => {
                self.bump_entry(won, 3);
                self.mention_entry(lost);
            },
            MatchResult::Draw(a, b) => {
                let ghost m0 = self.as_map();
                self.bump_entry(a, 1);
                proof {
                    assert forall|k: Seq<char>| #[trigger]
                        self.as_map().contains_key(k) implies self.as_map()[k] + 1
                        <= u128::MAX by {
                        if k != a@ {
                            assert(m0.contains_key(k));
                        }
                    }
                }
                self.bump_entry(b, 1);
            },
        }
    }

    /// The rows of the league, surrendered for ranking.
    pub fn into_rows(self) -> (r: Vec<(String, u128)>)
        ensures
            Seq::new(r@.len(), |i: int| (r@[i].0@, r@[i].1)) == self.rows(),
            self.wf() ==> entry_names_distinct(
                Seq::new(r@.len(), |i: int| (r@[i].0@, r@[i].1)),
            ),
            entries_map(Seq::new(r@.len(), |i: int| (r@[i].0@, r@[i].1)))
                == self.as_map(),
    {
        let League { entries } = self;
        entries
    }
}

} // verus!
