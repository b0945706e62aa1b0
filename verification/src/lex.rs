//! Lexing one input line into two (team name, score) pairs.

use vstd::prelude::*;
use crate::chars::{chars_of, chars_to_string};
use crate::numbers::{parse_u32, parse_u32_spec};
use crate::segments::{
    join, join_words, lemma_split_no_comma, lemma_trim_head, lemma_words_nonempty, seq_trim,
    seq_words, split_commas, split_on_commas, trim, words,
};

verus! {

/// The two (team name, score) pairs lexed from one line.
#[derive(PartialEq, Eq, Debug)]
pub struct Tokens {
    /// Name and score of the team named first on the line.
    pub team1: (String, u32),
    /// Name and score of the team named second.
    pub team2: (String, u32),
}

impl View for Tokens {
    type V = ((Seq<char>, u32), (Seq<char>, u32));

    open spec fn view(&self) -> ((Seq<char>, u32), (Seq<char>, u32)) {
        ((self.team1.0@, self.team1.1), (self.team2.0@, self.team2.1))
    }
}

/// The (name, score) pair one half of a line lexes to, if any.  The half
/// is trimmed; its last whitespace-separated word must parse as a `u32`
/// score; the words before it, joined with single spaces, are the name.
pub open spec fn half_token(half: Seq<char>) -> Option<(Seq<char>, u32)> {
    let t = seq_trim(half);
    if t.len() == 0 {
        None
    } else {
        let ws = seq_words(t);
        match parse_u32_spec(ws.last()) {
            Some(score) => Some((join_words(ws.drop_last()), score)),
            None => None,
        }
    }
}

/// What one line lexes to: the line must split on commas into exactly two
/// halves, and each half must lex to a (name, score) pair.
pub open spec fn lex_spec(s: Seq<char>) -> Option<((Seq<char>, u32), (Seq<char>, u32))> {
    let halves = split_commas(s);
    if halves.len() != 2 {
        None
    } else {
        match (half_token(halves[0]), half_token(halves[1])) {
            (Some(a), Some(b)) => Some((a, b)),
            _ => None,
        }
    }
}

fn lex_half(half: &Vec<char>) -> (r: Option<(String, u32)>)
    ensures
        match r {
            Option::None => half_token(half@) is None,
            Option::Some(p) => half_token(half@) == Some((p.0@, p.1)),
        },
{
    let t = trim(half);
    if t.len() == 0 {
        return None;
    }
    proof {
        lemma_trim_head(half@);
        lemma_words_nonempty(t@);
    }
    let mut ws = words(&t);
    proof {
        assert(ws@.len() == ws.deep_view().len());
    }
    let last = ws.pop().unwrap();
    let ghost all = seq_words(seq_trim(half@));
    proof {
        assert(last@ == all.last());
        assert(ws.deep_view() =~~= all.drop_last());
    }
    match parse_u32(&last) {
        None => None,
        Some(score) => {
            let name_chars = join(&ws);
            let name = chars_to_string(&name_chars);
            Some((name, score))
        },
    }
}

/// Lexes one line into its two (team name, score) pairs, or reports that
/// the line is malformed by returning `None`.
pub fn lex(line: &str) -> (r: Option<Tokens>)
    ensures
        match r {
            Option::None => lex_spec(line@) is None,
            Option::Some(t) => lex_spec(line@) == Some(t@),
        },
{
    let cs = chars_of(line);
    let mut halves = split_on_commas(&cs);
    if halves.len() != 2 {
        return None;
    }
    proof {
        assert(halves@.len() == halves.deep_view().len());
    }
    let h2 = halves.pop().unwrap();
    let h1 = halves.pop().unwrap();
    proof {
        assert(h1@ == split_commas(line@)[0]);
        assert(h2@ == split_commas(line@)[1]);
    }
    let p1 = match lex_half(&h1) {
        Some(p) => p,
        None => {
            return None;
        },
    };
    let p2 = match lex_half(&h2) {
        Some(p) => p,
        None => {
            return None;
        },
    };
    Some(Tokens { team1: p1, team2: p2 })
}

/// A line without a comma is malformed: it lexes to `None`.
pub proof fn lemma_lex_no_comma(s: Seq<char>)
    requires
        forall|k: int| 0 <= k < s.len() ==> s[k] != ',',
    ensures
        lex_spec(s) is None,
{
    lemma_split_no_comma(s);
}

/// A line lexes successfully only if it splits into exactly two halves,
/// neither half is empty once trimmed, and the last word of each half
/// parses as a non-negative integer: a missing comma, an empty half, or a
/// non-numeric trailing token each make the line malformed.
pub proof fn lemma_lex_shape(s: Seq<char>)
    ensures
        lex_spec(s) is Some ==> {
            let halves = split_commas(s);
            &&& halves.len() == 2
            &&& seq_trim(halves[0]).len() > 0
            &&& seq_trim(halves[1]).len() > 0
            &&& parse_u32_spec(seq_words(seq_trim(halves[0])).last()) is Some
            &&& parse_u32_spec(seq_words(seq_trim(halves[1])).last()) is Some
        },
{
}

} // verus!
