//! Splitting a character sequence into halves and words, trimming, joining.

use vstd::prelude::*;
use crate::chars::{is_space, is_space_char};

verus! {

/// `s` with its leading whitespace removed.
pub open spec fn seq_trim_start(s: Seq<char>) -> Seq<char>
    decreases s.len(),
{
    if s.len() > 0 && is_space(s[0]) {
        seq_trim_start(s.drop_first())
    } else {
        s
    }
}

/// `s` with its trailing whitespace removed.
pub open spec fn seq_trim_end(s: Seq<char>) -> Seq<char>
    decreases s.len(),
{
    if s.len() > 0 && is_space(s[s.len() - 1]) {
        seq_trim_end(s.drop_last())
    } else {
        s
    }
}

/// `s` with leading and trailing whitespace removed, as `str::trim` does.
pub open spec fn seq_trim(s: Seq<char>) -> Seq<char> {
    seq_trim_end(seq_trim_start(s))
}

proof fn lemma_trim_start_skip(s: Seq<char>, i: int)
    requires
        0 <= i <= s.len(),
        forall|k: int| 0 <= k < i ==> is_space(s[k]),
    ensures
        seq_trim_start(s) == seq_trim_start(s.skip(i)),
    decreases i,
{
    if i > 0 {
        assert(s.len() > 0 && is_space(s[0]));
        assert(s.drop_first() =~= s.skip(1));
        lemma_trim_start_skip(s.skip(1), i - 1);
        assert(s.skip(1).skip(i - 1) =~= s.skip(i));
    } else {
        assert(s.skip(0) =~= s);
    }
}

proof fn lemma_trim_end_take(s: Seq<char>, j: int)
    requires
        0 <= j <= s.len(),
        forall|k: int| j <= k < s.len() ==> is_space(s[k]),
    ensures
        seq_trim_end(s) == seq_trim_end(s.take(j)),
    decreases s.len() - j,
{
    if j < s.len() {
        assert(is_space(s[s.len() - 1]));
        assert(s.drop_last() =~= s.take(s.len() - 1));
        lemma_trim_end_take(s.take(s.len() - 1), j);
        assert(s.take(s.len() - 1).take(j) =~= s.take(j));
    } else {
        assert(s.take(j) =~= s);
    }
}

/// The characters of `v`, with leading and trailing whitespace removed.
pub fn trim(v: &Vec<char>) -> (r: Vec<char>)
    ensures
        r@ == seq_trim(v@),
{
    let n = v.len();
    let mut i: usize = 0;
    while i < n && is_space_char(v[i])
        invariant
            n == v@.len(),
            i <= n,
            forall|k: int| 0 <= k < i ==> is_space(v@[k]),
        decreases n - i,
    {
        i = i + 1;
    }
    proof {
        lemma_trim_start_skip(v@, i as int);
        if i < n {
            assert(seq_trim_start(v@.skip(i as int)) == v@.skip(i as int));
        } else {
            assert(v@.skip(i as int) =~= Seq::<char>::empty());
            assert(seq_trim_start(v@) =~= v@.skip(i as int));
        }
    }
    // seq_trim_start(v@) == v@.skip(i)
    let mut j: usize = n;
    while j > i && is_space_char(v[j - 1])
        invariant
            n == v@.len(),
            i <= j <= n,
            forall|k: int| j <= k < n ==> is_space(v@[k]),
        decreases j,
    {
        j = j - 1;
    }
    let ghost t = v@.skip(i as int);
    proof {
        assert(forall|k: int| j - i <= k < t.len() ==> is_space(t[k]));
        lemma_trim_end_take(t, j - i);
        if j > i {
            assert(!is_space(t.take(j - i)[j - i - 1]));
            assert(seq_trim_end(t.take(j - i)) == t.take(j - i));
        } else {
            assert(t.take(0) =~= Seq::<char>::empty());
        }
        assert(seq_trim(v@) == t.take(j - i));
    }
    let mut r: Vec<char> = Vec::new();
    let mut k: usize = i;
    while k < j
        invariant
            i <= k <= j <= n,
            n == v@.len(),
            r@ == v@.subrange(i as int, k as int),
        decreases j - k,
    {
        r.push(v[k]);
        k = k + 1;
        proof {
            assert(r@ =~= v@.subrange(i as int, k as int));
        }
    }
    proof {
        assert(v@.subrange(i as int, j as int) =~= t.take(j - i));
    }
    r
}

/// The pieces of `s` split on commas, trailing empty piece dropped, as
/// `str::split_terminator(',')` produces them.  `cur` is the piece read
/// so far.
pub open spec fn split_commas_acc(s: Seq<char>, cur: Seq<char>) -> Seq<Seq<char>>
    decreases s.len(),
{
    if s.len() == 0 {
        if cur.len() > 0 {
            seq![cur]
        } else {
            Seq::empty()
        }
    } else if s[0] == ',' {
        seq![cur] + split_commas_acc(s.drop_first(), Seq::empty())
    } else {
        split_commas_acc(s.drop_first(), cur.push(s[0]))
    }
}

/// The comma-separated pieces of `s`, a trailing empty piece dropped.
pub open spec fn split_commas(s: Seq<char>) -> Seq<Seq<char>> {
    split_commas_acc(s, Seq::empty())
}

/// The comma-separated pieces of `v`.
pub fn split_on_commas(v: &Vec<char>) -> (r: Vec<Vec<char>>)
    ensures
        r.deep_view() == split_commas(v@),
{
    let n = v.len();
    let mut r: Vec<Vec<char>> = Vec::new();
    let mut cur: Vec<char> = Vec::new();
    let mut i: usize = 0;
    proof {
        assert(v@.skip(0) =~= v@);
        assert(r.deep_view() + split_commas_acc(v@, cur@) =~~= split_commas(v@));
    }
    while i < n
        invariant
            n == v@.len(),
            i <= n,
            split_commas(v@) == r.deep_view() + split_commas_acc(v@.skip(i as int), cur@),
        decreases n - i,
    {
        let c = v[i];
        proof {
            assert(v@.skip(i as int)[0] == v@[i as int]);
            assert(v@.skip(i as int).drop_first() =~= v@.skip(i as int + 1));
        }
        if c == ',' {
            let done = cur;
            cur = Vec::new();
            let ghost rd = r.deep_view();
            r.push(done);
            proof {
                assert(r.deep_view() =~~= rd + seq![done@]);
                assert(split_commas(v@) =~~= r.deep_view() + split_commas_acc(
                    v@.skip(i as int + 1),
                    cur@,
                ));
            }
        } else {
            cur.push(c);
        }
        i = i + 1;
    }
    proof {
        assert(v@.skip(n as int) =~= Seq::<char>::empty());
    }
    if cur.len() > 0 {
        let done = cur;
        let ghost rd = r.deep_view();
        r.push(done);
        proof {
            assert(r.deep_view() =~~= rd + seq![done@]);
            assert(split_commas(v@) =~~= r.deep_view());
        }
    } else {
        proof {
            assert(split_commas(v@) =~~= r.deep_view());
        }
    }
    r
}

/// The whitespace-separated words of `s`, `cur` being the word read so far.
pub open spec fn words_acc(s: Seq<char>, cur: Seq<char>) -> Seq<Seq<char>>
    decreases s.len(),
{
    if s.len() == 0 {
        if cur.len() > 0 {
            seq![cur]
        } else {
            Seq::empty()
        }
    } else if is_space(s[0]) {
        if cur.len() > 0 {
            seq![cur] + words_acc(s.drop_first(), Seq::empty())
        } else {
            words_acc(s.drop_first(), Seq::empty())
        }
    } else {
        words_acc(s.drop_first(), cur.push(s[0]))
    }
}

/// The whitespace-separated words of `s`, as `str::split_whitespace`
/// produces them: maximal runs of non-whitespace characters.
pub open spec fn seq_words(s: Seq<char>) -> Seq<Seq<char>> {
    words_acc(s, Seq::empty())
}

/// The whitespace-separated words of `v`.
pub fn words(v: &Vec<char>) -> (r: Vec<Vec<char>>)
    ensures
        r.deep_view() == seq_words(v@),
{
    let n = v.len();
    let mut r: Vec<Vec<char>> = Vec::new();
    let mut cur: Vec<char> = Vec::new();
    let mut i: usize = 0;
    proof {
        assert(v@.skip(0) =~= v@);
        assert(r.deep_view() + words_acc(v@, cur@) =~~= seq_words(v@));
    }
    while i < n
        invariant
            n == v@.len(),
            i <= n,
            seq_words(v@) == r.deep_view() + words_acc(v@.skip(i as int), cur@),
        decreases n - i,
    {
        let c = v[i];
        proof {
            assert(v@.skip(i as int)[0] == v@[i as int]);
            assert(v@.skip(i as int).drop_first() =~= v@.skip(i as int + 1));
        }
        if is_space_char(c) {
            if cur.len() > 0 {
                let done = cur;
                cur = Vec::new();
                let ghost rd = r.deep_view();
                r.push(done);
                proof {
                    assert(r.deep_view() =~~= rd + seq![done@]);
                    assert(seq_words(v@) =~~= r.deep_view() + words_acc(
                        v@.skip(i as int + 1),
                        cur@,
                    ));
                }
            } else {
                proof {
                    assert(cur@ =~= Seq::<char>::empty());
                }
            }
        } else {
            cur.push(c);
        }
        i = i + 1;
    }
    proof {
        assert(v@.skip(n as int) =~= Seq::<char>::empty());
    }
    if cur.len() > 0 {
        let done = cur;
        let ghost rd = r.deep_view();
        r.push(done);
        proof {
            assert(r.deep_view() =~~= rd + seq![done@]);
            assert(seq_words(v@) =~~= r.deep_view());
        }
    } else {
        proof {
            assert(seq_words(v@) =~~= r.deep_view());
        }
    }
    r
}

/// A trimmed sequence does not begin with whitespace.
pub proof fn lemma_trim_head(s: Seq<char>)
    ensures
        seq_trim(s).len() > 0 ==> !is_space(seq_trim(s)[0]),
{
    lemma_trim_start_head(s);
    lemma_trim_end_head(seq_trim_start(s));
}

proof fn lemma_trim_start_head(s: Seq<char>)
    ensures
        seq_trim_start(s).len() > 0 ==> !is_space(seq_trim_start(s)[0]),
    decreases s.len(),
{
    if s.len() > 0 && is_space(s[0]) {
        lemma_trim_start_head(s.drop_first());
    }
}

proof fn lemma_trim_end_head(s: Seq<char>)
    ensures
        seq_trim_end(s).len() > 0 ==> seq_trim_end(s).len() <= s.len() && seq_trim_end(s)[0]
            == s[0],
    decreases s.len(),
{
    if s.len() > 0 && is_space(s[s.len() - 1]) {
        lemma_trim_end_head(s.drop_last());
    }
}

proof fn lemma_words_acc_positive(s: Seq<char>, cur: Seq<char>)
    requires
        cur.len() > 0,
    ensures
        words_acc(s, cur).len() >= 1,
    decreases s.len(),
{
    if s.len() > 0 && !is_space(s[0]) {
        lemma_words_acc_positive(s.drop_first(), cur.push(s[0]));
    }
}

/// A sequence that starts with a non-whitespace character has at least
/// one word.
pub proof fn lemma_words_nonempty(s: Seq<char>)
    requires
        s.len() > 0,
        !is_space(s[0]),
    ensures
        seq_words(s).len() >= 1,
{
    lemma_words_acc_positive(s.drop_first(), Seq::empty().push(s[0]));
}

proof fn lemma_split_acc_no_comma(s: Seq<char>, cur: Seq<char>)
    requires
        forall|k: int| 0 <= k < s.len() ==> s[k] != ',',
    ensures
        split_commas_acc(s, cur).len() <= 1,
    decreases s.len(),
{
    if s.len() > 0 {
        assert(forall|k: int|
            0 <= k < s.drop_first().len() ==> s.drop_first()[k] == #[trigger] s[k + 1]);
        lemma_split_acc_no_comma(s.drop_first(), cur.push(s[0]));
    }
}

/// A line without a comma splits into at most one piece.
pub proof fn lemma_split_no_comma(s: Seq<char>)
    requires
        forall|k: int| 0 <= k < s.len() ==> s[k] != ',',
    ensures
        split_commas(s).len() <= 1,
{
    lemma_split_acc_no_comma(s, Seq::empty());
}

/// The words of `ws` joined with a single space between neighbours.
pub open spec fn join_words(ws: Seq<Seq<char>>) -> Seq<char>
    decreases ws.len(),
{
    if ws.len() == 0 {
        Seq::empty()
    } else if ws.len() == 1 {
        ws[0]
    } else {
        join_words(ws.drop_last()) + seq![' '] + ws.last()
    }
}

/// The words of `ws` joined with single spaces.
pub fn join(ws: &Vec<Vec<char>>) -> (r: Vec<char>)
    ensures
        r@ == join_words(ws.deep_view()),
{
    let mut r: Vec<char> = Vec::new();
    let mut i: usize = 0;
    while i < ws.len()
        invariant
            i <= ws@.len(),
            ws.deep_view().len() == ws@.len(),
            forall|k: int| 0 <= k < ws@.len() ==> ws.deep_view()[k] == ws@[k]@,
            r@ == join_words(ws.deep_view().take(i as int)),
        decreases ws@.len() - i,
    {
        if i > 0 {
            r.push(' ');
        }
        let w = &ws[i];
        let mut k: usize = 0;
        let ghost base = r@;
        while k < w.len()
            invariant
                k <= w@.len(),
                r@ == base + w@.take(k as int),
            decreases w@.len() - k,
        {
            r.push(w[k]);
            k = k + 1;
            proof {
                assert(r@ =~= base + w@.take(k as int));
            }
        }
        i = i + 1;
        proof {
            let pre = ws.deep_view().take(i as int);
            assert(w@.take(w@.len() as int) =~= w@);
            assert(pre.drop_last() =~~= ws.deep_view().take(i as int - 1));
            assert(pre.last() == w@);
            assert(r@ =~~= join_words(pre));
        }
    }
    proof {
        assert(ws.deep_view().take(ws@.len() as int) =~~= ws.deep_view());
    }
    r
}

} // verus!
