//! The driver: from input lines to the rendered table or the first bad
//! line.

use vstd::prelude::*;
use crate::chars::chars_of;
use crate::league::{apply_outcome, League};
use crate::lex::{lex, lex_spec};
use crate::outcome::{classify, parse, OutcomeView};
use crate::segments::{seq_trim, trim};
use crate::standings::{
    is_ranking, lemma_entries_match, lemma_match_transfer, render_rows, render_table, rows_view,
    sort_rows,
};

verus! {

/// Whether a line is blank: nothing is left once it is trimmed.
pub open spec fn line_blank(s: Seq<char>) -> bool {
    seq_trim(s).len() == 0
}

/// How the scan of the input ends.
pub enum ScanEnd {
    /// The first `count` lines were processed; a blank line or the end
    /// of the input stopped the scan there.
    Finished { count: int },
    /// The line at `index` (0-based) is the first non-blank line that
    /// does not lex: the run aborts.
    Bad { index: int },
}

/// The scan from line `i` on: the first blank line or the end of the
/// input finishes the run, and the first line that fails to lex aborts
/// it.
pub open spec fn scan_from(lines: Seq<Seq<char>>, i: int) -> ScanEnd
    decreases lines.len() - i,
{
    if i < 0 || i >= lines.len() {
        ScanEnd::Finished { count: i }
    } else if line_blank(lines[i]) {
        ScanEnd::Finished { count: i }
    } else if lex_spec(lines[i]) is None {
        ScanEnd::Bad { index: i }
    } else {
        scan_from(lines, i + 1)
    }
}

/// The league mapping after the first `i` lines, each lexed and its
/// outcome applied; a line that does not lex leaves the mapping alone
/// (the driver never gets past such a line).
pub open spec fn league_at(lines: Seq<Seq<char>>, i: int) -> Map<Seq<char>, int>
    decreases i,
{
    if i <= 0 {
        Map::empty()
    } else {
        let m = league_at(lines, i - 1);
        match lex_spec(lines[i - 1]) {
            Some(t) => apply_outcome(m, classify(t)),
            None => m,
        }
    }
}

/// Totals depend only on the lines processed: two inputs that agree on
/// their first `i` lines build the same mapping, so replaying the same
/// outcome sequence through a fresh mapping always gives the same
/// totals.
pub proof fn lemma_league_at_prefix(l1: Seq<Seq<char>>, l2: Seq<Seq<char>>, i: int)
    requires
        0 <= i <= l1.len(),
        i <= l2.len(),
        forall|t: int| 0 <= t < i ==> l1[t] == l2[t],
    ensures
        league_at(l1, i) == league_at(l2, i),
    decreases i,
{
    if i > 0 {
        lemma_league_at_prefix(l1, l2, i - 1);
    }
}

/// Every total after `i` lines lies between 0 and `3 * i`: one line adds
/// at most 3 points to any one team.
pub proof fn lemma_league_at_bound(lines: Seq<Seq<char>>, i: int)
    requires
        0 <= i,
    ensures
        forall|k: Seq<char>|
            #[trigger] league_at(lines, i).contains_key(k) ==> 0 <= league_at(lines, i)[k] <= 3
                * i,
    decreases i,
{
    if i > 0 {
        lemma_league_at_bound(lines, i - 1);
        let m = league_at(lines, i - 1);
        let m2 = league_at(lines, i);
        assert forall|k: Seq<char>| #[trigger] m2.contains_key(k) implies 0 <= m2[k] <= 3
            * i by {
            match lex_spec(lines[i - 1]) {
                Some(t) => {
                    match classify(t) {
                        OutcomeView::WinV { won, lost } => {
                            if k != won && k != lost {
                                assert(m.contains_key(k) && m2[k] == m[k]);
                            }
                        },
                        OutcomeView::DrawV(a, b) => {
                            if k != a && k != b {
                                assert(m.contains_key(k) && m2[k] == m[k]);
                            }
                        },
                    }
                },
                None => {},
            }
        }
    }
}

/// Runs the whole pipeline on the given lines: reads them until a blank
/// line or their end, lexes and classifies each, accumulates the league,
/// and renders the ranked table.  The first non-blank line that does not
/// lex aborts the run with its 1-based number and no table.
pub fn football_league(lines: &Vec<String>) -> (r: Result<String, usize>)
    ensures
        ({
            let l = lines.deep_view();
            match r {
                Result::Ok(s) => scan_from(l, 0) matches ScanEnd::Finished { count } && (exists|
                    rows: Seq<(Seq<char>, u128)>,
                |
                    is_ranking(rows, league_at(l, count)) && s@ == render_rows(rows)),
                Result::Err(n) => n >= 1 && scan_from(l, 0) == (ScanEnd::Bad { index: n - 1 }),
            }
        }),
{
    let ghost l = lines.deep_view();
    proof {
        assert(forall|t: int| 0 <= t < l.len() ==> #[trigger] l[t] == lines@[t]@);
    }
    let n = lines.len();
    let mut league = League::new();
    let mut i: usize = 0;
    let mut stopped = false;
    while i < n && !stopped
        invariant
            n == lines@.len(),
            l == lines.deep_view(),
            l.len() == n,
            forall|t: int| 0 <= t < l.len() ==> #[trigger] l[t] == lines@[t]@,
            i <= n,
            league.wf(),
            league.as_map() == league_at(l, i as int),
            scan_from(l, 0) == scan_from(l, i as int),
            stopped ==> i < n && line_blank(l[i as int]),
        decreases n - i, (if stopped { 0int } else { 1int }),
    {
        let line: &String = &lines[i];
        let cs = chars_of(line.as_str());
        let t = trim(&cs);
        if t.len() == 0 {
            stopped = true;
        } else {
            match lex(line.as_str()) {
                None => {
                    proof {
                        assert(!line_blank(l[i as int]));
                        assert(scan_from(l, i as int) == (ScanEnd::Bad { index: i as int }));
                    }
                    return Result::Err(i + 1);
                },
                Some(tokens) => {
                    let ghost tv = tokens@;
                    proof {
                        assert(lex_spec(l[i as int]) == Some(tv));
                        assert(!line_blank(l[i as int]));
                        lemma_league_at_bound(l, i as int);
                        assert(usize::MAX <= u64::MAX);
                        assert(3 * (i as int) + 3 <= u128::MAX);
                    }
                    let outcome = parse(tokens);
                    league.apply(outcome);
                    proof {
                        assert(league.as_map() == apply_outcome(
                            league_at(l, i as int),
                            classify(tv),
                        ));
                        assert(league.as_map() == league_at(l, i as int + 1));
                        assert(scan_from(l, i as int) == scan_from(l, i as int + 1));
                    }
                    i = i + 1;
                },
            }
        }
    }
    proof {
        assert(scan_from(l, i as int) == (ScanEnd::Finished { count: i as int }));
    }
    let ghost m = league.as_map();
    let entries = league.into_rows();
    proof {
        assert(rows_view(entries@) =~= Seq::new(
            entries@.len(),
            |t: int| (entries@[t].0@, entries@[t].1),
        ));
        lemma_entries_match(rows_view(entries@));
    }
    let ghost ev = rows_view(entries@);
    let sorted = sort_rows(entries);
    proof {
        lemma_match_transfer(ev, rows_view(sorted@), m);
        assert(is_ranking(rows_view(sorted@), m));
    }
    let table = render_table(&sorted);
    proof {
        let count = i as int;
        assert(is_ranking(rows_view(sorted@), league_at(l, count)) && table@ == render_rows(
            rows_view(sorted@),
        ));
    }
    Result::Ok(table)
}

} // verus!

