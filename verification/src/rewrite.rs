//! One pass over a tokenization that folds every occurrence of a pair into a
//! single id, scanning left to right.

use vstd::prelude::*;
use crate::token_pair::Pair;

verus! {

/// The tokenization `s` after every occurrence of `left, right` has been
/// replaced by `id`. Occurrences are taken greedily from the left, so of two
/// overlapping occurrences only the first is replaced.
pub open spec fn merge_pass(s: Seq<u32>, left: u32, right: u32, id: u32) -> Seq<u32>
    decreases s.len(),
{
    if s.len() == 0 {
        Seq::empty()
    } else if s.len() >= 2 && s[0] == left && s[1] == right {
        seq![id] + merge_pass(s.skip(2), left, right, id)
    } else {
        seq![s[0]] + merge_pass(s.skip(1), left, right, id)
    }
}

/// Whether `left, right` stands at positions `i`, `i + 1` of `s`.
pub open spec fn pair_at(s: Seq<u32>, i: int, left: u32, right: u32) -> bool {
    0 <= i && i + 1 < s.len() && s[i] == left && s[i + 1] == right
}

/// Whether `left, right` occurs anywhere in `s`.
pub open spec fn occurs(s: Seq<u32>, left: u32, right: u32) -> bool {
    exists|i: int| pair_at(s, i, left, right)
}

/// A pass never lengthens the tokenization.
pub proof fn lemma_merge_pass_len(s: Seq<u32>, left: u32, right: u32, id: u32)
    ensures
        merge_pass(s, left, right, id).len() <= s.len(),
    decreases s.len(),
{
    if s.len() == 0 {
    } else if s.len() >= 2 && s[0] == left && s[1] == right {
        lemma_merge_pass_len(s.skip(2), left, right, id);
    } else {
        lemma_merge_pass_len(s.skip(1), left, right, id);
    }
}

/// A pass over a tokenization in which the pair occurs shortens it.
pub proof fn lemma_merge_pass_shrinks(s: Seq<u32>, left: u32, right: u32, id: u32)
    requires
        occurs(s, left, right),
    ensures
        merge_pass(s, left, right, id).len() < s.len(),
    decreases s.len(),
{
    let i = choose|i: int| pair_at(s, i, left, right);
    if s.len() >= 2 && s[0] == left && s[1] == right {
        lemma_merge_pass_len(s.skip(2), left, right, id);
    } else {
        assert(i >= 1);
        assert(pair_at(s.skip(1), i - 1, left, right));
        lemma_merge_pass_shrinks(s.skip(1), left, right, id);
    }
}

/// The first element after a pass: the new id where the tokenization begins
/// with the pair, its own first element otherwise.
pub proof fn lemma_merge_pass_head(s: Seq<u32>, left: u32, right: u32, id: u32)
    requires
        s.len() > 0,
    ensures
        merge_pass(s, left, right, id).len() > 0,
        merge_pass(s, left, right, id)[0] == if s.len() >= 2 && s[0] == left && s[1] == right {
            id
        } else {
            s[0]
        },
{
}

/// Two neighbours after a pass, neither of them the new id, were neighbours
/// before it.
pub proof fn lemma_merge_pass_keeps_pairs(
    s: Seq<u32>,
    left: u32,
    right: u32,
    id: u32,
    j: int,
    a: u32,
    b: u32,
)
    requires
        pair_at(merge_pass(s, left, right, id), j, a, b),
        a != id,
        b != id,
    ensures
        occurs(s, a, b),
    decreases s.len(),
{
    let out = merge_pass(s, left, right, id);
    if s.len() == 0 {
    } else if s.len() >= 2 && s[0] == left && s[1] == right {
        let rest = s.skip(2);
        let tail = merge_pass(rest, left, right, id);
        assert(out =~= seq![id] + tail);
        assert(j >= 1);
        assert(pair_at(tail, j - 1, a, b));
        lemma_merge_pass_keeps_pairs(rest, left, right, id, j - 1, a, b);
        let i = choose|i: int| pair_at(rest, i, a, b);
        assert(pair_at(s, i + 2, a, b));
    } else {
        let rest = s.skip(1);
        let tail = merge_pass(rest, left, right, id);
        assert(out =~= seq![s[0]] + tail);
        if j == 0 {
            assert(tail.len() > 0);
            assert(out[1] == tail[0]);
            lemma_merge_pass_head(rest, left, right, id);
            assert(rest[0] == s[1]);
            assert(pair_at(s, 0, a, b));
        } else {
            assert(pair_at(tail, j - 1, a, b));
            lemma_merge_pass_keeps_pairs(rest, left, right, id, j - 1, a, b);
            let i = choose|i: int| pair_at(rest, i, a, b);
            assert(pair_at(s, i + 1, a, b));
        }
    }
}

proof fn lemma_merge_pass_removes_at(s: Seq<u32>, left: u32, right: u32, id: u32, j: int)
    requires
        id != left,
        id != right,
    ensures
        !pair_at(merge_pass(s, left, right, id), j, left, right),
    decreases s.len(),
{
    let out = merge_pass(s, left, right, id);
    if pair_at(out, j, left, right) {
        if s.len() == 0 {
        } else if s.len() >= 2 && s[0] == left && s[1] == right {
            let rest = s.skip(2);
            let tail = merge_pass(rest, left, right, id);
            assert(out =~= seq![id] + tail);
            assert(j >= 1);
            assert(pair_at(tail, j - 1, left, right));
            lemma_merge_pass_removes_at(rest, left, right, id, j - 1);
        } else {
            let rest = s.skip(1);
            let tail = merge_pass(rest, left, right, id);
            assert(out =~= seq![s[0]] + tail);
            if j == 0 {
                assert(out[1] == tail[0]);
                lemma_merge_pass_head(rest, left, right, id);
                assert(rest[0] == s[1]);
            } else {
                assert(pair_at(tail, j - 1, left, right));
                lemma_merge_pass_removes_at(rest, left, right, id, j - 1);
            }
        }
    }
}

/// After a pass with a new id the pair no longer occurs.
pub proof fn lemma_merge_pass_removes(s: Seq<u32>, left: u32, right: u32, id: u32)
    requires
        id != left,
        id != right,
    ensures
        !occurs(merge_pass(s, left, right, id), left, right),
{
    assert forall|j: int| !pair_at(merge_pass(s, left, right, id), j, left, right) by {
        lemma_merge_pass_removes_at(s, left, right, id, j);
    }
}

/// Rewrites `tokens` by one pass: each occurrence of `pair`, taken from the
/// left, becomes `id`; every other element is kept.
pub fn merge_pair(tokens: &[u32], pair: Pair, id: u32) -> (out: Vec<u32>)
    ensures
        out@ == merge_pass(tokens@, pair.left, pair.right, id),
{
    let mut out: Vec<u32> = Vec::with_capacity(tokens.len());
    let mut i: usize = 0;
    proof {
        assert(tokens@.skip(0) =~= tokens@);
        assert(out@ + merge_pass(tokens@, pair.left, pair.right, id) =~= merge_pass(
            tokens@,
            pair.left,
            pair.right,
            id,
        ));
    }
    while i < tokens.len()
        invariant
            i <= tokens.len(),
            out@ + merge_pass(tokens@.skip(i as int), pair.left, pair.right, id) == merge_pass(
                tokens@,
                pair.left,
                pair.right,
                id,
            ),
        decreases tokens.len() - i,
    {
        let ghost rest = tokens@.skip(i as int);
        let ghost before = out@;
        if i + 1 < tokens.len() && tokens[i] == pair.left && tokens[i + 1] == pair.right {
            out.push(id);
            i += 2;
            proof {
                assert(rest.skip(2) =~= tokens@.skip(i as int));
                assert(out@ + merge_pass(rest.skip(2), pair.left, pair.right, id) =~= before
                    + merge_pass(rest, pair.left, pair.right, id));
            }
        } else {
            out.push(tokens[i]);
            i += 1;
            proof {
                assert(rest.skip(1) =~= tokens@.skip(i as int));
                assert(out@ + merge_pass(rest.skip(1), pair.left, pair.right, id) =~= before
                    + merge_pass(rest, pair.left, pair.right, id));
            }
        }
    }
    proof {
        assert(out@ + Seq::<u32>::empty() =~= out@);
    }
    out
}

} // verus!
