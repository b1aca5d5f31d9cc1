//! What training computes: the table and the tokenization after the alphabet
//! has been seeded and the most frequent pair has been merged, again and
//! again, until no pair repeats or the budget is spent.

use vstd::prelude::*;
use crate::pair_freq::{count_before, is_most_frequent, pair_count};
use crate::pair_freq::{lemma_counted_occurs, lemma_most_frequent_unique};
use crate::coding::{all_registered, encode_step, encoded, has_merge, merge_here};
use crate::coding::lemma_lowest_merge_unique;
use crate::rewrite::{merge_pass, occurs, pair_at};
use crate::rewrite::{lemma_merge_pass_keeps_pairs, lemma_merge_pass_removes};
use crate::rewrite::lemma_merge_pass_shrinks;
use crate::table::{atom, extends, id_of, merged, valid_table, with_atom, with_merge};
use crate::table::{lemma_atom_id_stable, lemma_extends_trans, lemma_with_atom_valid};
use crate::table::{lemma_id_of_found, lemma_id_of_last, lemma_id_of_present, lemma_id_of_push};
use crate::table::lemma_with_merge_valid;
use crate::text::code_points;
use crate::token_pair::{Pair, Token};

verus! {

/// The table after each of the code points has been registered, in order.
pub open spec fn seeded(t: Seq<Token>, codes: Seq<u32>) -> Seq<Token>
    decreases codes.len(),
{
    if codes.len() == 0 {
        t
    } else {
        with_atom(seeded(t, codes.drop_last()), codes.last())
    }
}

/// The ids of the code points in `t`. A code point without an id is given 0;
/// where this is used, every code point has one.
pub open spec fn atom_ids(t: Seq<Token>, codes: Seq<u32>) -> Seq<u32> {
    Seq::new(
        codes.len(),
        |i: int|
            match id_of(t, atom(codes[i])) {
                Some(id) => id,
                None => 0,
            },
    )
}

/// Whether a merge is due: some pair occurs at least twice.
pub open spec fn repeats(s: Seq<u32>) -> bool {
    exists|p: Pair| is_most_frequent(s, p) && pair_count(s, p.left, p.right) >= 2
}

/// The pair that the next merge takes.
pub open spec fn winner(s: Seq<u32>) -> Pair {
    choose|p: Pair| is_most_frequent(s, p)
}

/// Table and tokenization after training on the tokenization `s` with a
/// budget of `budget` merges.
pub open spec fn trained(t: Seq<Token>, s: Seq<u32>, budget: nat) -> (Seq<Token>, Seq<u32>)
    decreases budget,
{
    if budget == 0 || !repeats(s) {
        (t, s)
    } else {
        let p = winner(s);
        trained(
            with_merge(t, p.left, p.right),
            merge_pass(s, p.left, p.right, t.len() as u32),
            (budget - 1) as nat,
        )
    }
}

/// The table after learning from `corpus`.
pub open spec fn learned_table(t: Seq<Token>, corpus: Seq<char>, budget: nat) -> Seq<Token> {
    let start = seeded(t, code_points(corpus));
    trained(start, atom_ids(start, code_points(corpus)), budget).0
}

/// The tokenization of `corpus` that learning ends with.
pub open spec fn learned_tokens(t: Seq<Token>, corpus: Seq<char>, budget: nat) -> Seq<u32> {
    let start = seeded(t, code_points(corpus));
    trained(start, atom_ids(start, code_points(corpus)), budget).1
}

/// The table after a sequence of calls of learning, each with its corpus and
/// its budget.
pub open spec fn learned_over(t: Seq<Token>, calls: Seq<(Seq<char>, nat)>) -> Seq<Token>
    decreases calls.len(),
{
    if calls.len() == 0 {
        t
    } else {
        learned_table(learned_over(t, calls.drop_last()), calls.last().0, calls.last().1)
    }
}

/// Whether the ids fit in 32 bits at each call of the sequence.
pub open spec fn fits_over(t: Seq<Token>, calls: Seq<(Seq<char>, nat)>) -> bool
    decreases calls.len(),
{
    calls.len() > 0 ==> {
        &&& fits_over(t, calls.drop_last())
        &&& learned_over(t, calls.drop_last()).len() + 2 * calls.last().0.len() <= u32::MAX
    }
}

/// Every element of `s` is an id below `bound`.
pub open spec fn ids_below(s: Seq<u32>, bound: int) -> bool {
    forall|i: int| 0 <= i < s.len() ==> #[trigger] s[i] < bound
}

/// A pass puts nothing into the tokenization but the new id.
pub proof fn lemma_merge_pass_ids(s: Seq<u32>, left: u32, right: u32, id: u32, bound: int)
    requires
        ids_below(s, bound),
        id < bound,
    ensures
        ids_below(merge_pass(s, left, right, id), bound),
    decreases s.len(),
{
    if s.len() == 0 {
    } else if s.len() >= 2 && s[0] == left && s[1] == right {
        let rest = s.skip(2);
        assert forall|i: int| 0 <= i < rest.len() implies #[trigger] rest[i] < bound by {
            assert(rest[i] == s[i + 2]);
        }
        lemma_merge_pass_ids(rest, left, right, id, bound);
    } else {
        let rest = s.skip(1);
        assert forall|i: int| 0 <= i < rest.len() implies #[trigger] rest[i] < bound by {
            assert(rest[i] == s[i + 1]);
        }
        lemma_merge_pass_ids(rest, left, right, id, bound);
    }
}

/// Seeding keeps the table valid, adds at most one id for each code point and
/// leaves every code point with an id.
pub proof fn lemma_seeded(t: Seq<Token>, codes: Seq<u32>)
    requires
        valid_table(t),
        t.len() + codes.len() <= u32::MAX,
    ensures
        valid_table(seeded(t, codes)),
        extends(seeded(t, codes), t),
        seeded(t, codes).len() <= t.len() + codes.len(),
        forall|i: int|
            0 <= i < codes.len() ==> id_of(seeded(t, codes), atom(#[trigger] codes[i])) is Some,
        ids_below(atom_ids(seeded(t, codes), codes), seeded(t, codes).len() as int),
    decreases codes.len(),
{
    if codes.len() == 0 {
        assert(t.subrange(0, t.len() as int) =~= t);
    } else {
        let shorter = codes.drop_last();
        let mid = seeded(t, shorter);
        let end = seeded(t, codes);
        lemma_seeded(t, shorter);
        lemma_with_atom_valid(mid, codes.last());
        lemma_extends_trans(end, mid, t);
        assert forall|i: int| 0 <= i < codes.len() implies id_of(end, atom(#[trigger] codes[i]))
            is Some by {
            if i < shorter.len() {
                assert(shorter[i] == codes[i]);
                lemma_atom_id_stable(end, mid, codes[i]);
            }
        }
        assert forall|i: int| 0 <= i < codes.len() implies #[trigger] atom_ids(end, codes)[i]
            < end.len() by {
            crate::table::lemma_id_of_found(end, atom(codes[i]));
        }
    }
}

/// Without two elements there is no pair to count.
pub proof fn lemma_short_has_no_pair(s: Seq<u32>)
    requires
        s.len() < 2,
    ensures
        !repeats(s),
{
    assert forall|p: Pair| !(is_most_frequent(s, p)) by {
        if pair_count(s, p.left, p.right) >= 1 {
            lemma_counted_occurs(s, p.left, p.right, s.len() as int);
        }
    }
}

/// The most frequent pair decides whether a merge is due, and is the winner.
pub proof fn lemma_winner(s: Seq<u32>, p: Pair)
    requires
        is_most_frequent(s, p),
    ensures
        winner(s) == p,
        repeats(s) <==> pair_count(s, p.left, p.right) >= 2,
{
    lemma_most_frequent_unique(s, p, winner(s));
    if repeats(s) {
        let q = choose|q: Pair| is_most_frequent(s, q) && pair_count(s, q.left, q.right) >= 2;
        lemma_most_frequent_unique(s, p, q);
    }
}

/// A pair that occurs consists of elements of the tokenization.
pub proof fn lemma_counted_ids(s: Seq<u32>, left: u32, right: u32, bound: int)
    requires
        ids_below(s, bound),
        pair_count(s, left, right) >= 1,
    ensures
        left < bound,
        right < bound,
        s.len() >= 2,
{
    lemma_counted_occurs(s, left, right, s.len() as int);
    let i = choose|i: int| i < s.len() && pair_at(s, i, left, right);
    assert(s[i] < bound);
    assert(s[i + 1] < bound);
}

/// Two code points with the same id are the same code point.
pub proof fn lemma_atom_ids_injective(t: Seq<Token>, codes: Seq<u32>, j: int, k: int)
    requires
        valid_table(t),
        all_registered(t, codes),
        0 <= j < codes.len(),
        0 <= k < codes.len(),
        atom_ids(t, codes)[j] == atom_ids(t, codes)[k],
    ensures
        codes[j] == codes[k],
{
    assert(id_of(t, atom(codes[j])) is Some);
    assert(id_of(t, atom(codes[k])) is Some);
    lemma_id_of_found(t, atom(codes[j]));
    lemma_id_of_found(t, atom(codes[k]));
}

/// A pair of ids occurs as often among the ids as the pair of their code
/// points occurs among the code points.
pub proof fn lemma_count_by_code(t: Seq<Token>, codes: Seq<u32>, i: int, n: int)
    requires
        valid_table(t),
        all_registered(t, codes),
        0 <= i,
        i + 1 < codes.len(),
    ensures
        count_before(atom_ids(t, codes), atom_ids(t, codes)[i], atom_ids(t, codes)[i + 1], n)
            == count_before(codes, codes[i], codes[i + 1], n),
    decreases n,
{
    if n > 0 {
        lemma_count_by_code(t, codes, i, n - 1);
        let ids = atom_ids(t, codes);
        if n < codes.len() {
            if pair_at(ids, n - 1, ids[i], ids[i + 1]) {
                lemma_atom_ids_injective(t, codes, n - 1, i);
                lemma_atom_ids_injective(t, codes, n, i + 1);
            }
        }
    }
}

/// Where a merge is due, the winner is the most frequent pair and occurs at
/// least twice.
pub proof fn lemma_repeats_winner(s: Seq<u32>)
    requires
        repeats(s),
    ensures
        is_most_frequent(s, winner(s)),
        pair_count(s, winner(s).left, winner(s).right) >= 2,
{
    let q = choose|q: Pair| is_most_frequent(s, q) && pair_count(s, q.left, q.right) >= 2;
    lemma_winner(s, q);
}

/// Whether every token of `f` from the id `from` on is a merge that training
/// on `s` can have made: a pair that occurs in `s`, or one that names an id
/// made since.
pub open spec fn merges_from(f: Seq<Token>, from: int, s: Seq<u32>) -> bool {
    forall|j: int|
        from <= j < f.len() ==> match #[trigger] f[j] {
            Token::Pair(q) => occurs(s, q.left, q.right) || q.left >= from || q.right >= from,
            Token::Lonely(_) => false,
        }
}

/// Training keeps the table valid and only adds to it, and what it adds are
/// merges of pairs that stood in the tokenization when they were made.
pub proof fn lemma_trained(t: Seq<Token>, s: Seq<u32>, budget: nat)
    requires
        valid_table(t),
        ids_below(s, t.len() as int),
        t.len() + s.len() <= u32::MAX,
    ensures
        valid_table(trained(t, s, budget).0),
        extends(trained(t, s, budget).0, t),
        ids_below(trained(t, s, budget).1, trained(t, s, budget).0.len() as int),
        merges_from(trained(t, s, budget).0, t.len() as int, s),
    decreases budget,
{
    if budget == 0 || !repeats(s) {
        assert(t.subrange(0, t.len() as int) =~= t);
    } else {
        let p = winner(s);
        lemma_repeats_winner(s);
        lemma_counted_ids(s, p.left, p.right, t.len() as int);
        lemma_counted_occurs(s, p.left, p.right, s.len() as int);
        let at = choose|at: int| at < s.len() && pair_at(s, at, p.left, p.right);
        assert(pair_at(s, at, p.left, p.right));
        let id = t.len() as u32;
        let t1 = with_merge(t, p.left, p.right);
        let s1 = merge_pass(s, p.left, p.right, id);
        lemma_with_merge_valid(t, p.left, p.right);
        assert(ids_below(s, t1.len() as int));
        lemma_merge_pass_ids(s, p.left, p.right, id, t1.len() as int);
        lemma_merge_pass_shrinks(s, p.left, p.right, id);
        lemma_trained(t1, s1, (budget - 1) as nat);
        let f = trained(t1, s1, (budget - 1) as nat).0;
        lemma_extends_trans(f, t1, t);
        assert forall|j: int| t.len() <= j < f.len() implies match #[trigger] f[j] {
            Token::Pair(q) => occurs(s, q.left, q.right) || q.left >= t.len() || q.right
                >= t.len(),
            Token::Lonely(_) => false,
        } by {
            if j == t.len() {
                assert(f.subrange(0, t1.len() as int)[j] == f[j]);
            } else {
                match f[j] {
                    Token::Pair(q) => {
                        if occurs(s1, q.left, q.right) && q.left < t.len() && q.right < t.len() {
                            let i = choose|i: int| pair_at(s1, i, q.left, q.right);
                            lemma_merge_pass_keeps_pairs(
                                s,
                                p.left,
                                p.right,
                                id,
                                i,
                                q.left,
                                q.right,
                            );
                        }
                    },
                    Token::Lonely(_) => {},
                }
            }
        }
    }
}

/// Encoding the tokenization that training started from, with the table that
/// training ended with, gives the tokenization that training ended with;
/// provided that the table had no merge to apply before training.
pub proof fn lemma_trained_encoded(t: Seq<Token>, s: Seq<u32>, budget: nat)
    requires
        valid_table(t),
        ids_below(s, t.len() as int),
        t.len() + s.len() <= u32::MAX,
        !has_merge(t, s),
    ensures
        encoded(trained(t, s, budget).0, s) == trained(t, s, budget).1,
    decreases budget,
{
    if budget == 0 || !repeats(s) {
    } else {
        let p = winner(s);
        lemma_repeats_winner(s);
        lemma_counted_ids(s, p.left, p.right, t.len() as int);
        lemma_counted_occurs(s, p.left, p.right, s.len() as int);
        let at = choose|at: int| at < s.len() && pair_at(s, at, p.left, p.right);
        assert(pair_at(s, at, p.left, p.right));
        let id = t.len() as u32;
        let t1 = with_merge(t, p.left, p.right);
        let s1 = merge_pass(s, p.left, p.right, id);
        lemma_with_merge_valid(t, p.left, p.right);
        assert(ids_below(s, t1.len() as int));
        lemma_merge_pass_ids(s, p.left, p.right, id, t1.len() as int);
        lemma_merge_pass_shrinks(s, p.left, p.right, id);
        lemma_merge_pass_removes(s, p.left, p.right, id);
        let f = trained(t1, s1, (budget - 1) as nat).0;
        let out = trained(t1, s1, (budget - 1) as nat).1;

        // The longer table has no merge for the shorter tokenization.
        assert forall|i: int| (#[trigger] merge_here(t1, s1, i)) is None by {
            if 0 <= i && i + 1 < s1.len() {
                let a = s1[i];
                let b = s1[i + 1];
                assert(pair_at(s1, i, a, b));
                lemma_id_of_push(t, merged(p.left, p.right), merged(a, b));
                if id_of(t, merged(a, b)) is Some {
                    lemma_id_of_found(t, merged(a, b));
                    lemma_merge_pass_keeps_pairs(s, p.left, p.right, id, i, a, b);
                    let before = choose|before: int| pair_at(s, before, a, b);
                    assert(merge_here(t, s, before) is Some);
                }
            }
        }
        lemma_trained(t1, s1, (budget - 1) as nat);
        lemma_trained_encoded(t1, s1, (budget - 1) as nat);

        // The merge just made is the lowest that the final table has for `s`.
        assert(f.subrange(0, t1.len() as int)[id as int] == f[id as int]);
        assert forall|j: int| id < j < f.len() implies f[j] != merged(p.left, p.right) by {
            assert(t1.len() <= j);
        }
        lemma_id_of_last(f, merged(p.left, p.right), id as int);
        assert(merge_here(f, s, at) == Some(id));
        assert forall|i: int| (#[trigger] merge_here(f, s, i)) is Some implies id <= merge_here(
            f,
            s,
            i,
        )->0 by {
            let token = merged(s[i], s[i + 1]);
            lemma_id_of_found(f, token);
            let m = id_of(f, token)->0 as int;
            if m < t.len() {
                lemma_extends_trans(f, t1, t);
                assert(f.subrange(0, t.len() as int)[m] == f[m]);
                lemma_id_of_present(t, token, m);
                assert(merge_here(t, s, i) is Some);
            }
        }
        lemma_lowest_merge_unique(f, s, id);
        assert(encode_step(f, s) == s1);
    }
}

} // verus!
