//! Classifying one line's two scores into a match outcome.

use vstd::prelude::*;
use crate::lex::Tokens;

verus! {

/// The outcome of one match: a win naming winner and loser, or a draw
/// naming both participants.
#[derive(PartialEq, Eq, Debug)]
pub enum MatchResult {
    /// One team scored more than the other.
    Win { won: String, lost: String },
    /// Both teams scored the same.
    Draw(String, String),
}

impl View for MatchResult {
    type V = OutcomeView;

    open spec fn view(&self) -> OutcomeView {
        match self {
            MatchResult::Win { won, lost } => OutcomeView::WinV { won: won@, lost: lost@ },
            MatchResult::Draw(a, b) => OutcomeView::DrawV(a@, b@),
        }
    }
}

/// The mathematical value of a match outcome: team names as character
/// sequences.
pub enum OutcomeView {
    /// A win, naming winner and loser.
    WinV { won: Seq<char>, lost: Seq<char> },
    /// A draw, naming both participants.
    DrawV(Seq<char>, Seq<char>),
}

/// The outcome that a lexed token pair classifies to: the first team wins
/// when its score is higher, the second when its score is higher, and
/// equal scores are a draw.
pub open spec fn classify(t: ((Seq<char>, u32), (Seq<char>, u32))) -> OutcomeView {
    if t.0.1 > t.1.1 {
        OutcomeView::WinV { won: t.0.0, lost: t.1.0 }
    } else if t.0.1 < t.1.1 {
        OutcomeView::WinV { won: t.1.0, lost: t.0.0 }
    } else {
        OutcomeView::DrawV(t.0.0, t.1.0)
    }
}

/// Classifies a lexed token pair into a match outcome: a higher first
/// score is a win for the first team, a higher second score a win for the
/// second, and equal scores a draw.
pub fn parse(tokens: Tokens) -> (r: MatchResult)
    ensures
        r@ == classify(tokens@),
{
    let Tokens { team1, team2 } = tokens;
    if team1.1 > team2.1 {
        MatchResult::Win { won: team1.0, lost: team2.0 }
    } else if team1.1 < team2.1 {
        MatchResult::Win { won: team2.0, lost: team1.0 }
    } else {
        MatchResult::Draw(team1.0, team2.0)
    }
}

} // verus!
