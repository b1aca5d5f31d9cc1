//! What encoding and decoding compute, over the table as a sequence of tokens.

use vstd::prelude::*;
use crate::rewrite::merge_pass;
use crate::table::{atom, id_of, merged, valid_table};
use crate::table::lemma_id_of_found;
use crate::text::is_scalar;
use crate::training::{atom_ids, ids_below, lemma_merge_pass_ids};
use crate::token_pair::Token;

verus! {

/// Whether every code point has an id in `t`.
pub open spec fn all_registered(t: Seq<Token>, codes: Seq<u32>) -> bool {
    forall|i: int| 0 <= i < codes.len() ==> id_of(t, atom(#[trigger] codes[i])) is Some
}

/// Whether `codes[k]` is the first code point without an id in `t`.
pub open spec fn first_unregistered(t: Seq<Token>, codes: Seq<u32>, k: int) -> bool {
    &&& 0 <= k < codes.len()
    &&& id_of(t, atom(codes[k])) is None
    &&& forall|i: int| 0 <= i < k ==> id_of(t, atom(#[trigger] codes[i])) is Some
}

/// The id into which the pair at positions `i`, `i + 1` of `s` was merged.
pub open spec fn merge_here(t: Seq<Token>, s: Seq<u32>, i: int) -> Option<u32> {
    if 0 <= i && i + 1 < s.len() {
        id_of(t, merged(s[i], s[i + 1]))
    } else {
        None
    }
}

/// Whether some adjacent pair of `s` has a merge in `t`.
pub open spec fn has_merge(t: Seq<Token>, s: Seq<u32>) -> bool {
    exists|i: int| (#[trigger] merge_here(t, s, i)) is Some
}

/// Whether `id` is the lowest id into which an adjacent pair of `s` was merged.
pub open spec fn is_lowest_merge(t: Seq<Token>, s: Seq<u32>, id: u32) -> bool {
    &&& exists|i: int| #[trigger] merge_here(t, s, i) == Some(id)
    &&& forall|i: int| (#[trigger] merge_here(t, s, i)) is Some ==> id <= merge_here(t, s, i)->0
}

/// The merge that encoding applies next: the earliest learned one among those
/// whose pair stands in `s`.
pub open spec fn lowest_merge(t: Seq<Token>, s: Seq<u32>) -> u32 {
    choose|id: u32| is_lowest_merge(t, s, id)
}

/// The tokenization after one step of encoding: the pass that folds the pair
/// of the lowest merge.
pub open spec fn encode_step(t: Seq<Token>, s: Seq<u32>) -> Seq<u32> {
    let id = lowest_merge(t, s);
    match t[id as int] {
        Token::Pair(p) => merge_pass(s, p.left, p.right, id),
        Token::Lonely(_) => s,
    }
}

/// The tokenization to which `s` is encoded: steps are taken for as long as
/// some adjacent pair has a merge. In a valid table each step shortens the
/// tokenization (`lemma_encode_step_shrinks`), so the second condition below
/// only serves to show that the steps come to an end.
pub open spec fn encoded(t: Seq<Token>, s: Seq<u32>) -> Seq<u32>
    decreases s.len(),
{
    if has_merge(t, s) && encode_step(t, s).len() < s.len() {
        encoded(t, encode_step(t, s))
    } else {
        s
    }
}

/// At most one id is the lowest merge.
pub proof fn lemma_lowest_merge_unique(t: Seq<Token>, s: Seq<u32>, id: u32)
    requires
        is_lowest_merge(t, s, id),
    ensures
        lowest_merge(t, s) == id,
        has_merge(t, s),
{
    let other = lowest_merge(t, s);
    let i = choose|i: int| #[trigger] merge_here(t, s, i) == Some(id);
    let j = choose|j: int| #[trigger] merge_here(t, s, j) == Some(other);
    assert(merge_here(t, s, i) is Some);
    assert(merge_here(t, s, j) is Some);
}

/// The lowest merge stands in the table as the token of a pair that occurs.
pub proof fn lemma_lowest_merge_token(t: Seq<Token>, s: Seq<u32>, id: u32)
    requires
        valid_table(t),
        is_lowest_merge(t, s, id),
    ensures
        id < t.len(),
        t[id as int] is Pair,
        crate::rewrite::occurs(s, t[id as int]->Pair_0.left, t[id as int]->Pair_0.right),
        id_of(t, t[id as int]) == Some(id),
{
    let i = choose|i: int| #[trigger] merge_here(t, s, i) == Some(id);
    lemma_id_of_found(t, merged(s[i], s[i + 1]));
    assert(crate::rewrite::pair_at(s, i, s[i], s[i + 1]));
}

/// The code points for which an id stands: its own where it is atomic, those
/// of its two halves in order where it is merged.
pub open spec fn expansion(t: Seq<Token>, id: u32) -> Seq<u32>
    decreases id,
{
    if id >= t.len() {
        Seq::empty()
    } else {
        match t[id as int] {
            Token::Lonely(l) => seq![l.0],
            Token::Pair(p) => if p.left < id && p.right < id {
                expansion(t, p.left) + expansion(t, p.right)
            } else {
                Seq::empty()
            },
        }
    }
}

/// The code points for which a tokenization stands.
pub open spec fn expansion_of(t: Seq<Token>, ids: Seq<u32>) -> Seq<u32>
    decreases ids.len(),
{
    if ids.len() == 0 {
        Seq::empty()
    } else {
        expansion_of(t, ids.drop_last()) + expansion(t, ids.last())
    }
}

/// Whether an id can be decoded: the table has it, and it stands for code
/// points of characters only.
pub open spec fn decodable(t: Seq<Token>, id: u32) -> bool {
    &&& id < t.len()
    &&& forall|i: int|
        0 <= i < expansion(t, id).len() ==> is_scalar(#[trigger] expansion(t, id)[i])
}

/// Whether `ids[k]` is the first id that cannot be decoded.
pub open spec fn first_undecodable(t: Seq<Token>, ids: Seq<u32>, k: int) -> bool {
    &&& 0 <= k < ids.len()
    &&& !decodable(t, ids[k])
    &&& forall|j: int| 0 <= j < k ==> decodable(t, #[trigger] ids[j])
}

/// Whether `codes[m]` is the first number that is no code point of a character.
pub open spec fn first_invalid(codes: Seq<u32>, m: int) -> bool {
    &&& 0 <= m < codes.len()
    &&& !is_scalar(codes[m])
    &&& forall|i: int| 0 <= i < m ==> is_scalar(#[trigger] codes[i])
}

/// The least id into which a pair at a position below `n` was merged.
proof fn lemma_lowest_below(t: Seq<Token>, s: Seq<u32>, n: int) -> (low: Option<u32>)
    requires
        0 <= n,
    ensures
        match low {
            Some(id) => {
                &&& exists|i: int| 0 <= i < n && #[trigger] merge_here(t, s, i) == Some(id)
                &&& forall|i: int|
                    0 <= i < n && (#[trigger] merge_here(t, s, i)) is Some ==> id <= merge_here(
                        t,
                        s,
                        i,
                    )->0
            },
            None => forall|i: int| 0 <= i < n ==> (#[trigger] merge_here(t, s, i)) is None,
        },
    decreases n,
{
    if n == 0 {
        None
    } else {
        let before = lemma_lowest_below(t, s, n - 1);
        match (before, merge_here(t, s, n - 1)) {
            (Some(a), Some(b)) => if b < a {
                Some(b)
            } else {
                Some(a)
            },
            (Some(a), None) => Some(a),
            (None, Some(b)) => Some(b),
            (None, None) => None,
        }
    }
}

/// Where some pair has a merge, one of the merges is the lowest.
pub proof fn lemma_lowest_merge_exists(t: Seq<Token>, s: Seq<u32>)
    requires
        has_merge(t, s),
    ensures
        is_lowest_merge(t, s, lowest_merge(t, s)),
{
    let low = lemma_lowest_below(t, s, s.len() as int);
    let at = choose|i: int| (#[trigger] merge_here(t, s, i)) is Some;
    assert(0 <= at < s.len());
    assert(low is Some);
    assert(is_lowest_merge(t, s, low->0));
}

/// A step of encoding shortens the tokenization.
pub proof fn lemma_encode_step_shrinks(t: Seq<Token>, s: Seq<u32>)
    requires
        valid_table(t),
        has_merge(t, s),
    ensures
        encode_step(t, s).len() < s.len(),
{
    let id = lowest_merge(t, s);
    lemma_lowest_merge_exists(t, s);
    lemma_lowest_merge_token(t, s, id);
    let p = t[id as int]->Pair_0;
    crate::rewrite::lemma_merge_pass_shrinks(s, p.left, p.right, id);
}

/// Encoding ends with a tokenization in which no adjacent pair has a merge.
pub proof fn lemma_encoded_stable(t: Seq<Token>, s: Seq<u32>)
    requires
        valid_table(t),
    ensures
        !has_merge(t, encoded(t, s)),
    decreases s.len(),
{
    if has_merge(t, s) {
        lemma_encode_step_shrinks(t, s);
        lemma_encoded_stable(t, encode_step(t, s));
    }
}

/// An atomic id stands for its code point.
pub proof fn lemma_expansion_atom(t: Seq<Token>, code: u32)
    requires
        valid_table(t),
        id_of(t, atom(code)) is Some,
    ensures
        expansion(t, id_of(t, atom(code))->0) == seq![code],
{
    lemma_id_of_found(t, atom(code));
}

/// A merged id stands for what its two halves stand for.
pub proof fn lemma_expansion_merged(t: Seq<Token>, id: u32)
    requires
        valid_table(t),
        id < t.len(),
        t[id as int] is Pair,
    ensures
        expansion(t, id) == expansion(t, t[id as int]->Pair_0.left) + expansion(
            t,
            t[id as int]->Pair_0.right,
        ),
{
}

/// What a tokenization stands for, element after element.
pub proof fn lemma_expansion_of_concat(t: Seq<Token>, a: Seq<u32>, b: Seq<u32>)
    ensures
        expansion_of(t, a + b) == expansion_of(t, a) + expansion_of(t, b),
    decreases b.len(),
{
    if b.len() == 0 {
        assert(a + b =~= a);
        assert(expansion_of(t, a) + expansion_of(t, b) =~= expansion_of(t, a));
    } else {
        assert((a + b).drop_last() =~= a + b.drop_last());
        assert((a + b).last() == b.last());
        lemma_expansion_of_concat(t, a, b.drop_last());
        assert(expansion_of(t, a + b) =~= expansion_of(t, a) + expansion_of(t, b));
    }
}

pub proof fn lemma_expansion_of_one(t: Seq<Token>, id: u32)
    ensures
        expansion_of(t, seq![id]) == expansion(t, id),
{
    let none = seq![id].drop_last();
    assert(none.len() == 0);
    assert(expansion_of(t, none) =~= Seq::<u32>::empty());
    assert(expansion_of(t, seq![id]) =~= expansion(t, id));
}

/// The ids of code points stand for these code points.
pub proof fn lemma_expansion_of_atoms(t: Seq<Token>, codes: Seq<u32>)
    requires
        valid_table(t),
        all_registered(t, codes),
    ensures
        expansion_of(t, atom_ids(t, codes)) == codes,
    decreases codes.len(),
{
    let ids = atom_ids(t, codes);
    if codes.len() == 0 {
        assert(expansion_of(t, ids) =~= codes);
    } else {
        let shorter = codes.drop_last();
        assert(ids.drop_last() =~= atom_ids(t, shorter));
        assert forall|i: int| 0 <= i < shorter.len() implies id_of(t, atom(#[trigger] shorter[i]))
            is Some by {
            assert(shorter[i] == codes[i]);
        }
        lemma_expansion_of_atoms(t, shorter);
        assert(id_of(t, atom(codes[codes.len() - 1])) is Some);
        lemma_expansion_atom(t, codes.last());
        assert(expansion_of(t, ids) =~= codes);
    }
}

/// A pass that folds a pair into its merged id does not change what the
/// tokenization stands for.
pub proof fn lemma_merge_pass_expansion(t: Seq<Token>, s: Seq<u32>, id: u32)
    requires
        valid_table(t),
        id < t.len(),
        t[id as int] is Pair,
    ensures
        expansion_of(
            t,
            merge_pass(s, t[id as int]->Pair_0.left, t[id as int]->Pair_0.right, id),
        ) == expansion_of(t, s),
    decreases s.len(),
{
    let left = t[id as int]->Pair_0.left;
    let right = t[id as int]->Pair_0.right;
    if s.len() == 0 {
    } else if s.len() >= 2 && s[0] == left && s[1] == right {
        let rest = s.skip(2);
        lemma_merge_pass_expansion(t, rest, id);
        lemma_expansion_of_concat(t, seq![id], merge_pass(rest, left, right, id));
        lemma_expansion_of_one(t, id);
        lemma_expansion_merged(t, id);
        assert(s =~= seq![left] + (seq![right] + rest));
        lemma_expansion_of_concat(t, seq![right], rest);
        lemma_expansion_of_concat(t, seq![left], seq![right] + rest);
        lemma_expansion_of_one(t, left);
        lemma_expansion_of_one(t, right);
        assert(expansion_of(t, s) =~= expansion(t, left) + expansion(t, right) + expansion_of(
            t,
            rest,
        ));
    } else {
        let rest = s.skip(1);
        lemma_merge_pass_expansion(t, rest, id);
        lemma_expansion_of_concat(t, seq![s[0]], merge_pass(rest, left, right, id));
        assert(s =~= seq![s[0]] + rest);
        lemma_expansion_of_concat(t, seq![s[0]], rest);
    }
}

/// Encoding does not change what a tokenization stands for, and yields ids of
/// the table.
pub proof fn lemma_encoded_expansion(t: Seq<Token>, s: Seq<u32>)
    requires
        valid_table(t),
        ids_below(s, t.len() as int),
    ensures
        expansion_of(t, encoded(t, s)) == expansion_of(t, s),
        ids_below(encoded(t, s), t.len() as int),
    decreases s.len(),
{
    if has_merge(t, s) && encode_step(t, s).len() < s.len() {
        let id = lowest_merge(t, s);
        lemma_lowest_merge_exists(t, s);
        lemma_lowest_merge_token(t, s, id);
        let p = t[id as int]->Pair_0;
        lemma_merge_pass_expansion(t, s, id);
        lemma_merge_pass_ids(s, p.left, p.right, id, t.len() as int);
        lemma_encoded_expansion(t, encode_step(t, s));
    }
}

/// What one id stands for is a part of what the tokenization stands for.
pub proof fn lemma_expansion_part(t: Seq<Token>, ids: Seq<u32>, k: int) -> (offset: int)
    requires
        0 <= k < ids.len(),
    ensures
        0 <= offset,
        offset + expansion(t, ids[k]).len() <= expansion_of(t, ids).len(),
        forall|i: int|
            0 <= i < expansion(t, ids[k]).len() ==> #[trigger] expansion(t, ids[k])[i]
                == expansion_of(t, ids)[offset + i],
    decreases ids.len(),
{
    if k == ids.len() - 1 {
        expansion_of(t, ids.drop_last()).len() as int
    } else {
        let offset = lemma_expansion_part(t, ids.drop_last(), k);
        assert(ids.drop_last()[k] == ids[k]);
        offset
    }
}

} // verus!
