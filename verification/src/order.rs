//! The rank order: points descending, team name ascending.

use vstd::prelude::*;
use vstd::relations::total_ordering;

verus! {

/// Two characters with the same code point are the same character.
proof fn lemma_char_int_inj(x: char, y: char)
    requires
        x as int == y as int,
    ensures
        x == y,
{
    assert((x as int) as char == x);
    assert((y as int) as char == y);
}

/// Lexicographic order on character sequences, by code point, as Rust
/// orders strings.
pub open spec fn lex_le(a: Seq<char>, b: Seq<char>) -> bool
    decreases a.len(),
{
    if a.len() == 0 {
        true
    } else if b.len() == 0 {
        false
    } else if (a[0] as int) < (b[0] as int) {
        true
    } else if a[0] == b[0] {
        lex_le(a.drop_first(), b.drop_first())
    } else {
        false
    }
}

/// Any two character sequences are comparable.
pub proof fn lemma_lex_le_total(a: Seq<char>, b: Seq<char>)
    ensures
        lex_le(a, b) || lex_le(b, a),
    decreases a.len(),
{
    if a.len() > 0 && b.len() > 0 {
        if a[0] as int == b[0] as int {
            lemma_char_int_inj(a[0], b[0]);
            lemma_lex_le_total(a.drop_first(), b.drop_first());
        }
    }
}

/// Sequences ordered both ways are equal.
pub proof fn lemma_lex_le_antisym(a: Seq<char>, b: Seq<char>)
    requires
        lex_le(a, b),
        lex_le(b, a),
    ensures
        a == b,
    decreases a.len(),
{
    if a.len() > 0 && b.len() > 0 {
        if a[0] as int == b[0] as int {
            lemma_char_int_inj(a[0], b[0]);
        }
        assert(a[0] == b[0]);
        lemma_lex_le_antisym(a.drop_first(), b.drop_first());
        assert(a =~= b) by {
            assert(forall|i: int| 1 <= i < a.len() ==> #[trigger] a[i] == a.drop_first()[i - 1]);
            assert(forall|i: int| 1 <= i < b.len() ==> #[trigger] b[i] == b.drop_first()[i - 1]);
        }
    } else {
        assert(a =~= b);
    }
}

/// The order is transitive.
pub proof fn lemma_lex_le_trans(a: Seq<char>, b: Seq<char>, c: Seq<char>)
    requires
        lex_le(a, b),
        lex_le(b, c),
    ensures
        lex_le(a, c),
    decreases a.len(),
{
    if a.len() > 0 && b.len() > 0 && c.len() > 0 {
        if a[0] == b[0] && b[0] == c[0] {
            lemma_lex_le_trans(a.drop_first(), b.drop_first(), c.drop_first());
        }
    }
}

/// Whether `a` comes no later than `b` in the table: more points first,
/// and for equal points the lexicographically smaller name first.
pub open spec fn row_le(a: (Seq<char>, u128), b: (Seq<char>, u128)) -> bool {
    a.1 > b.1 || (a.1 == b.1 && lex_le(a.0, b.0))
}

/// The rank order as a relation value, for vstd's ordering vocabulary.
pub open spec fn row_order() -> spec_fn((Seq<char>, u128), (Seq<char>, u128)) -> bool {
    |a: (Seq<char>, u128), b: (Seq<char>, u128)| row_le(a, b)
}

/// The rank order is a total order: reflexive, transitive, antisymmetric,
/// and any two rows are comparable.  For equal points the tie-break by
/// name decides, so two distinct rows never tie.
pub proof fn lemma_row_order_total()
    ensures
        total_ordering(row_order()),
{
    let leq = row_order();
    assert forall|a: (Seq<char>, u128)| #[trigger] leq(a, a) by {
        lemma_lex_le_total(a.0, a.0);
    }
    assert forall|a: (Seq<char>, u128), b: (Seq<char>, u128)|
        #[trigger] leq(a, b) && #[trigger] leq(b, a) implies a == b by {
        lemma_lex_le_antisym(a.0, b.0);
    }
    assert forall|a: (Seq<char>, u128), b: (Seq<char>, u128), c: (Seq<char>, u128)|
        #[trigger] leq(a, b) && #[trigger] leq(b, c) implies leq(a, c) by {
        if a.1 == b.1 && b.1 == c.1 {
            lemma_lex_le_trans(a.0, b.0, c.0);
        }
    }
    assert forall|a: (Seq<char>, u128), b: (Seq<char>, u128)| #[trigger]
        leq(a, b) || #[trigger] leq(b, a) by {
        if a.1 == b.1 {
            lemma_lex_le_total(a.0, b.0);
        }
    }
}

/// Compares two character vectors in the order of [`lex_le`].
pub fn le_chars(a: &Vec<char>, b: &Vec<char>) -> (r: bool)
    ensures
        r == lex_le(a@, b@),
{
    let an = a.len();
    let bn = b.len();
    let mut i: usize = 0;
    proof {
        assert(a@.skip(0) =~= a@);
        assert(b@.skip(0) =~= b@);
    }
    while i < an && i < bn
        invariant
            an == a@.len(),
            bn == b@.len(),
            i <= an,
            i <= bn,
            lex_le(a@, b@) == lex_le(a@.skip(i as int), b@.skip(i as int)),
        decreases an - i,
    {
        let ca = a[i];
        let cb = b[i];
        proof {
            assert(a@.skip(i as int)[0] == a@[i as int]);
            assert(b@.skip(i as int)[0] == b@[i as int]);
            assert(a@.skip(i as int).drop_first() =~= a@.skip(i as int + 1));
            assert(b@.skip(i as int).drop_first() =~= b@.skip(i as int + 1));
        }
        if ca == cb {
            i = i + 1;
        } else if ca < cb {
            return true;
        } else {
            proof {
                if ca as int == cb as int {
                    lemma_char_int_inj(ca, cb);
                }
            }
            return false;
        }
    }
    proof {
        if i >= an {
            assert(a@.skip(i as int).len() == 0);
        } else {
            assert(b@.skip(i as int).len() == 0);
            assert(a@.skip(i as int).len() > 0);
        }
    }
    i >= an
}

} // verus!
