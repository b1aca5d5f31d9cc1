//! The token table as a mathematical object: the sequence of its tokens, in
//! which the position of a token is its id.

use vstd::prelude::*;
use crate::token_pair::{Lonely, Pair, Token};

verus! {

/// The atomic token of a code point.
pub open spec fn atom(code: u32) -> Token {
    Token::Lonely(Lonely(code))
}

/// The merged token of two ids.
pub open spec fn merged(left: u32, right: u32) -> Token {
    Token::Pair(Pair { left, right })
}

/// The id under which `token` is looked up in `t`: the last position that
/// holds it, `None` where no position does.
pub open spec fn id_of(t: Seq<Token>, token: Token) -> Option<u32>
    decreases t.len(),
{
    if t.len() == 0 {
        None
    } else if t.last() == token {
        Some((t.len() - 1) as u32)
    } else {
        id_of(t.drop_last(), token)
    }
}

/// What holds of every table: its ids fit in 32 bits, a merged token names
/// only ids below its own, and no code point has two ids.
pub open spec fn valid_table(t: Seq<Token>) -> bool {
    &&& t.len() <= u32::MAX
    &&& forall|i: int|
        0 <= i < t.len() ==> match #[trigger] t[i] {
            Token::Pair(p) => p.left < i && p.right < i,
            Token::Lonely(_) => true,
        }
    &&& forall|i: int, j: int|
        0 <= i < j < t.len() && (#[trigger] t[i]) is Lonely ==> t[i] != #[trigger] t[j]
}

/// Whether `t` begins with `prefix`: every id of `prefix` is an id of `t` with
/// the same token.
pub open spec fn extends(t: Seq<Token>, prefix: Seq<Token>) -> bool {
    prefix.len() <= t.len() && t.subrange(0, prefix.len() as int) == prefix
}

/// The table after the code point has been registered: unchanged where it
/// already has an id, longer by its atomic token where it has none.
pub open spec fn with_atom(t: Seq<Token>, code: u32) -> Seq<Token> {
    if id_of(t, atom(code)) is Some {
        t
    } else {
        t.push(atom(code))
    }
}

/// The table after the pair has been registered under the next id.
pub open spec fn with_merge(t: Seq<Token>, left: u32, right: u32) -> Seq<Token> {
    t.push(merged(left, right))
}

/// Where `token` has an id, that is the last position that holds it.
pub proof fn lemma_id_of_found(t: Seq<Token>, token: Token)
    requires
        t.len() <= u32::MAX,
        id_of(t, token) is Some,
    ensures
        id_of(t, token)->0 < t.len(),
        t[id_of(t, token)->0 as int] == token,
        forall|j: int| id_of(t, token)->0 < j < t.len() ==> t[j] != token,
    decreases t.len(),
{
    if t.len() > 0 && t.last() != token {
        lemma_id_of_found(t.drop_last(), token);
        assert forall|j: int| id_of(t, token)->0 < j < t.len() implies t[j] != token by {
            if j < t.len() - 1 {
                assert(t.drop_last()[j] == t[j]);
            }
        }
    }
}

/// Where `token` has no id, no position holds it.
pub proof fn lemma_id_of_missing(t: Seq<Token>, token: Token)
    requires
        id_of(t, token) is None,
    ensures
        forall|j: int| 0 <= j < t.len() ==> t[j] != token,
    decreases t.len(),
{
    if t.len() > 0 {
        lemma_id_of_missing(t.drop_last(), token);
        assert forall|j: int| 0 <= j < t.len() implies t[j] != token by {
            if j < t.len() - 1 {
                assert(t.drop_last()[j] == t[j]);
            }
        }
    }
}

/// A token that stands in the table has an id.
pub proof fn lemma_id_of_present(t: Seq<Token>, token: Token, i: int)
    requires
        0 <= i < t.len(),
        t[i] == token,
    ensures
        id_of(t, token) is Some,
    decreases t.len(),
{
    if t.last() != token {
        lemma_id_of_present(t.drop_last(), token, i);
    }
}

/// A token is looked up under the last position that holds it.
pub proof fn lemma_id_of_last(t: Seq<Token>, token: Token, k: int)
    requires
        t.len() <= u32::MAX,
        0 <= k < t.len(),
        t[k] == token,
        forall|j: int| k < j < t.len() ==> t[j] != token,
    ensures
        id_of(t, token) == Some(k as u32),
{
    lemma_id_of_present(t, token, k);
    lemma_id_of_found(t, token);
}

/// In a valid table the id of an atomic token is the one position that holds it.
pub proof fn lemma_atom_id(t: Seq<Token>, i: int)
    requires
        valid_table(t),
        0 <= i < t.len(),
        t[i] is Lonely,
    ensures
        id_of(t, t[i]) == Some(i as u32),
{
    lemma_id_of_present(t, t[i], i);
    lemma_id_of_found(t, t[i]);
}

/// How lookups change when a token is added.
pub proof fn lemma_id_of_push(t: Seq<Token>, added: Token, token: Token)
    ensures
        id_of(t.push(added), token) == if added == token {
            Some(t.len() as u32)
        } else {
            id_of(t, token)
        },
{
    assert(t.push(added).drop_last() =~= t);
}

/// A table that extends an extension of `c` extends `c`.
pub proof fn lemma_extends_trans(a: Seq<Token>, b: Seq<Token>, c: Seq<Token>)
    requires
        extends(a, b),
        extends(b, c),
    ensures
        extends(a, c),
{
    assert(a.subrange(0, c.len() as int) =~= a.subrange(0, b.len() as int).subrange(
        0,
        c.len() as int,
    ));
}

/// Registering a code point keeps a valid table valid.
pub proof fn lemma_with_atom_valid(t: Seq<Token>, code: u32)
    requires
        valid_table(t),
        id_of(t, atom(code)) is Some || t.len() < u32::MAX,
    ensures
        valid_table(with_atom(t, code)),
        extends(with_atom(t, code), t),
        id_of(with_atom(t, code), atom(code)) is Some,
{
    if id_of(t, atom(code)) is None {
        lemma_id_of_missing(t, atom(code));
        lemma_id_of_push(t, atom(code), atom(code));
        assert(t.push(atom(code)).subrange(0, t.len() as int) =~= t);
    } else {
        assert(t.subrange(0, t.len() as int) =~= t);
    }
}

/// Registering a pair of known ids keeps a valid table valid.
pub proof fn lemma_with_merge_valid(t: Seq<Token>, left: u32, right: u32)
    requires
        valid_table(t),
        left < t.len(),
        right < t.len(),
        t.len() < u32::MAX,
    ensures
        valid_table(with_merge(t, left, right)),
        extends(with_merge(t, left, right), t),
{
    assert(with_merge(t, left, right).subrange(0, t.len() as int) =~= t);
}

/// A longer valid table gives every code point of the shorter one the same id.
pub proof fn lemma_atom_id_stable(t: Seq<Token>, prefix: Seq<Token>, code: u32)
    requires
        valid_table(t),
        extends(t, prefix),
        id_of(prefix, atom(code)) is Some,
    ensures
        id_of(t, atom(code)) == id_of(prefix, atom(code)),
{
    lemma_id_of_found(prefix, atom(code));
    let i = id_of(prefix, atom(code))->0 as int;
    assert(t.subrange(0, prefix.len() as int)[i] == t[i]);
    lemma_atom_id(t, i);
}

} // verus!
