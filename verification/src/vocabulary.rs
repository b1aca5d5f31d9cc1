//! The token table: every id with its token, and the two indexes by which
//! ids are found again, one by code point and one by pair.

use vstd::prelude::*;
use crate::fold_map::{map_get, map_insert, map_new};
use crate::pair_freq::{lemma_counted_occurs, most_frequent_pair};
use crate::rewrite::{lemma_merge_pass_shrinks, merge_pair, pair_at};
use crate::table::{atom, extends, id_of, merged, valid_table, with_atom, with_merge};
use crate::table::{lemma_atom_id_stable, lemma_extends_trans, lemma_id_of_found};
use crate::table::{lemma_id_of_missing, lemma_id_of_push};
use crate::table::{lemma_with_atom_valid, lemma_with_merge_valid};
use crate::text::decompose;
use crate::token_pair::{Lonely, Pair, Token};
use crate::training::{atom_ids, ids_below, learned_table, learned_tokens, repeats, seeded, trained};
use crate::training::{lemma_counted_ids, lemma_merge_pass_ids, lemma_short_has_no_pair, lemma_winner};
use foldhash::fast::RandomState;
use std::collections::HashMap;

verus! {

/// The key under which a pair is stored: `left` in the upper 32 bits, `right`
/// in the lower.
pub open spec fn pair_key(left: u32, right: u32) -> u64 {
    (left as u64 * 0x1_0000_0000 + right as u64) as u64
}

fn key_of(left: u32, right: u32) -> (key: u64)
    ensures
        key == pair_key(left, right),
{
    left as u64 * 0x1_0000_0000 + right as u64
}

/// A learned vocabulary. Ids are handed out in order, starting at zero, and an
/// id keeps its token for good.
#[derive(Debug)]
pub struct Vocabulary {
    id_to_token: HashMap<u32, Token, RandomState>,
    token_pair_to_id: HashMap<u64, u32, RandomState>,
    lonely_to_id: HashMap<u32, u32, RandomState>,
    next_token_id: u32,
}

impl View for Vocabulary {
    type V = Seq<Token>;

    /// The tokens of the table by id.
    closed spec fn view(&self) -> Seq<Token> {
        Seq::new(self.next_token_id as nat, |i: int| self.id_to_token@[i as u32])
    }
}

impl Vocabulary {
    /// The invariant of the table: its tokens form a valid table, and the two
    /// indexes agree with them.
    pub closed spec fn wf(&self) -> bool {
        &&& valid_table(self@)
        &&& forall|id: u32| #[trigger]
            self.id_to_token@.contains_key(id) <==> id < self.next_token_id
        &&& forall|code: u32| #[trigger]
            self.lonely_to_id@.contains_key(code) <==> id_of(self@, atom(code)) is Some
        &&& forall|code: u32| #[trigger]
            self.lonely_to_id@.contains_key(code) ==> id_of(self@, atom(code)) == Some(
                self.lonely_to_id@[code],
            )
        &&& forall|left: u32, right: u32|
            self.token_pair_to_id@.contains_key(#[trigger] pair_key(left, right)) <==> id_of(
                self@,
                merged(left, right),
            ) is Some
        &&& forall|left: u32, right: u32|
            self.token_pair_to_id@.contains_key(#[trigger] pair_key(left, right)) ==> id_of(
                self@,
                merged(left, right),
            ) == Some(self.token_pair_to_id@[pair_key(left, right)])
    }

    /// A well-formed vocabulary is a valid table.
    pub proof fn lemma_valid(&self)
        requires
            self.wf(),
        ensures
            valid_table(self@),
    {
    }

    /// Creates a new `Vocabulary`, without any token.
    pub fn new() -> (vocab: Self)
        ensures
            vocab.wf(),
            vocab@ == Seq::<Token>::empty(),
    {
        let vocab = Self {
            id_to_token: map_new(),
            token_pair_to_id: map_new(),
            lonely_to_id: map_new(),
            next_token_id: 0,
        };
        proof {
            assert(vocab@ =~= Seq::<Token>::empty());
            assert forall|left: u32, right: u32|
                id_of(vocab@, merged(left, right)) is None by {}
        }
        vocab
    }

    /// The number of ids in the table.
    pub fn len(&self) -> (n: usize)
        requires
            self.wf(),
        ensures
            n == self@.len(),
    {
        self.next_token_id as usize
    }

    /// The token of an id, `None` for an id that the table does not have.
    pub fn lookup_token(&self, id: u32) -> (token: Option<Token>)
        requires
            self.wf(),
        ensures
            token == if id < self@.len() {
                Some(self@[id as int])
            } else {
                None
            },
    {
        broadcast use vstd::std_specs::hash::group_hash_axioms;

        match map_get(&self.id_to_token, &id) {
            Some(token) => Some(*token),
            None => None,
        }
    }

    /// The id of a code point, `None` for one that was never registered.
    pub fn lookup_atomic(&self, code_point: u32) -> (id: Option<u32>)
        requires
            self.wf(),
        ensures
            id == id_of(self@, atom(code_point)),
    {
        broadcast use vstd::std_specs::hash::group_hash_axioms;

        match map_get(&self.lonely_to_id, &code_point) {
            Some(id) => Some(*id),
            None => None,
        }
    }

    /// The id into which a pair was merged, `None` for a pair that was never
    /// merged. Where a pair was merged more than once, the latest id.
    pub fn lookup_merge(&self, left: u32, right: u32) -> (id: Option<u32>)
        requires
            self.wf(),
        ensures
            id == id_of(self@, merged(left, right)),
    {
        broadcast use vstd::std_specs::hash::group_hash_axioms;

        let key = key_of(left, right);
        match map_get(&self.token_pair_to_id, &key) {
            Some(id) => Some(*id),
            None => None,
        }
    }

    /// Registers a code point as an atomic symbol and returns its id. A code
    /// point that is registered already keeps its id, and the table is left as
    /// it is.
    pub fn insert_atomic(&mut self, code_point: u32) -> (id: u32)
        requires
            old(self).wf(),
            id_of(old(self)@, atom(code_point)) is Some || old(self)@.len() < u32::MAX,
        ensures
            final(self).wf(),
            final(self)@ == with_atom(old(self)@, code_point),
            extends(final(self)@, old(self)@),
            Some(id) == id_of(final(self)@, atom(code_point)),
            id == match id_of(old(self)@, atom(code_point)) {
                Some(known) => known,
                None => old(self)@.len() as u32,
            },
    {
        broadcast use vstd::std_specs::hash::group_hash_axioms;

        proof {
            lemma_with_atom_valid(self@, code_point);
        }
        match map_get(&self.lonely_to_id, &code_point) {
            Some(id) => { return *id; },
            None => {},
        }
        let id = self.next_token_id;
        let token = Lonely::new(code_point).as_token();
        let ghost before = self@;
        map_insert(&mut self.id_to_token, id, token);
        map_insert(&mut self.lonely_to_id, code_point, id);
        self.next_token_id = id + 1;
        proof {
            assert(self@ =~= before.push(token));
            lemma_id_of_missing(before, token);
            assert forall|code: u32| true implies id_of(self@, atom(code)) == if code
                == code_point {
                Some(id)
            } else {
                id_of(before, atom(code))
            } by {
                lemma_id_of_push(before, token, atom(code));
            }
            assert forall|left: u32, right: u32| true implies id_of(self@, merged(left, right))
                == id_of(before, merged(left, right)) by {
                lemma_id_of_push(before, token, merged(left, right));
            }
        }
        id
    }

    /// Registers the pair `left, right` under the next id and returns that id.
    /// Both must be ids of the table.
    pub fn insert_merge(&mut self, left: u32, right: u32) -> (id: u32)
        requires
            old(self).wf(),
            left < old(self)@.len(),
            right < old(self)@.len(),
            old(self)@.len() < u32::MAX,
        ensures
            final(self).wf(),
            final(self)@ == with_merge(old(self)@, left, right),
            extends(final(self)@, old(self)@),
            id == old(self)@.len(),
    {
        broadcast use vstd::std_specs::hash::group_hash_axioms;

        proof {
            lemma_with_merge_valid(self@, left, right);
        }
        let id = self.next_token_id;
        let token = Pair::new(left, right).as_token();
        let key = key_of(left, right);
        let ghost before = self@;
        map_insert(&mut self.id_to_token, id, token);
        map_insert(&mut self.token_pair_to_id, key, id);
        self.next_token_id = id + 1;
        proof {
            assert(self@ =~= before.push(token));
            assert forall|code: u32| true implies id_of(self@, atom(code)) == id_of(
                before,
                atom(code),
            ) by {
                lemma_id_of_push(before, token, atom(code));
            }
            assert forall|l: u32, r: u32| true implies id_of(self@, merged(l, r)) == if l == left
                && r == right {
                Some(id)
            } else {
                id_of(before, merged(l, r))
            } by {
                lemma_id_of_push(before, token, merged(l, r));
            }
            assert forall|l: u32, r: u32| pair_key(l, r) == key implies l == left && r
                == right by {}
        }
        id
    }

    /// Learns a vocabulary from a corpus.
    ///
    /// Every code point of the corpus that has no id yet is registered. Then,
    /// up to `n_merges` times, the most frequent adjacent pair of the
    /// tokenization is merged into a new id, until no pair occurs twice. Among
    /// pairs that occur equally often the one with the smaller `left`, then the
    /// smaller `right`, is merged.
    ///
    /// Returns the tokenization of the corpus that the last merge left.
    ///
    /// The ids must fit in 32 bits: the table may grow by one id for each
    /// code point and by one for each merge, and there are fewer merges than
    /// code points.
    pub fn learn(&mut self, corpus: &str, n_merges: u32) -> (tokens: Vec<u32>)
        requires
            old(self).wf(),
            old(self)@.len() + 2 * corpus@.len() <= u32::MAX,
        ensures
            final(self).wf(),
            final(self)@ == learned_table(old(self)@, corpus@, n_merges as nat),
            tokens@ == learned_tokens(old(self)@, corpus@, n_merges as nat),
            extends(final(self)@, old(self)@),
    {
        let codes = decompose(corpus);
        let ghost start = self@;
        let mut tokens: Vec<u32> = Vec::with_capacity(codes.len());
        let mut i: usize = 0;
        proof {
            assert(start.subrange(0, start.len() as int) =~= start);
        }
        while i < codes.len()
            invariant
                i <= codes.len(),
                self.wf(),
                start.len() + 2 * codes@.len() <= u32::MAX,
                self@ == seeded(start, codes@.take(i as int)),
                self@.len() <= start.len() + i,
                extends(self@, start),
                tokens@.len() == i,
                forall|j: int|
                    0 <= j < i ==> id_of(self@, atom(codes@[j])) == Some(#[trigger] tokens@[j]),
            decreases codes.len() - i,
        {
            let ghost before = self@;
            let ghost ids_before = tokens@;
            let id = self.insert_atomic(codes[i]);
            tokens.push(id);
            proof {
                lemma_with_atom_valid(before, codes@[i as int]);
                lemma_extends_trans(self@, before, start);
                assert(codes@.take(i + 1).drop_last() =~= codes@.take(i as int));
                assert forall|j: int| 0 <= j < i + 1 implies id_of(self@, atom(codes@[j])) == Some(
                    #[trigger] tokens@[j],
                ) by {
                    if j < i {
                        assert(id_of(before, atom(codes@[j])) == Some(ids_before[j]));
                        lemma_atom_id_stable(self@, before, codes@[j]);
                    }
                }
            }
            i += 1;
        }
        let ghost seeded_table = self@;
        let ghost seeds = tokens@;
        proof {
            assert(codes@.take(codes@.len() as int) =~= codes@);
            assert(seeds =~= atom_ids(seeded_table, codes@));
            assert forall|j: int| 0 <= j < seeds.len() implies #[trigger] seeds[j]
                < seeded_table.len() by {
                assert(id_of(seeded_table, atom(codes@[j])) == Some(tokens@[j]));
                lemma_id_of_found(seeded_table, atom(codes@[j]));
            }
        }
        let mut merges: u32 = 0;
        let mut open = true;
        while open && merges < n_merges
            invariant
                self.wf(),
                merges <= n_merges,
                ids_below(tokens@, self@.len() as int),
                self@.len() + tokens@.len() <= u32::MAX,
                extends(self@, start),
                trained(self@, tokens@, (n_merges - merges) as nat) == trained(
                    seeded_table,
                    seeds,
                    n_merges as nat,
                ),
                !open ==> !repeats(tokens@),
            decreases (n_merges - merges) + if open { 1int } else { 0int },
        {
            match most_frequent_pair(tokens.as_slice()) {
                Some((pair, count)) => {
                    proof {
                        lemma_winner(tokens@, pair);
                    }
                    if count > 1 {
                        let ghost table_before = self@;
                        let ghost tokens_before = tokens@;
                        proof {
                            lemma_counted_ids(
                                tokens_before,
                                pair.left,
                                pair.right,
                                table_before.len() as int,
                            );
                            lemma_counted_occurs(
                                tokens_before,
                                pair.left,
                                pair.right,
                                tokens_before.len() as int,
                            );
                            let at = choose|at: int|
                                at < tokens_before.len() && pair_at(
                                    tokens_before,
                                    at,
                                    pair.left,
                                    pair.right,
                                );
                            assert(pair_at(tokens_before, at, pair.left, pair.right));
                        }
                        let id = self.insert_merge(pair.left, pair.right);
                        let rewritten = merge_pair(tokens.as_slice(), pair, id);
                        proof {
                            lemma_with_merge_valid(table_before, pair.left, pair.right);
                            lemma_extends_trans(self@, table_before, start);
                            lemma_merge_pass_shrinks(tokens_before, pair.left, pair.right, id);
                            lemma_merge_pass_ids(
                                tokens_before,
                                pair.left,
                                pair.right,
                                id,
                                self@.len() as int,
                            );
                        }
                        tokens = rewritten;
                        merges += 1;
                    } else {
                        open = false;
                    }
                },
                None => {
                    proof {
                        lemma_short_has_no_pair(tokens@);
                    }
                    open = false;
                },
            }
        }
        tokens
    }
}

} // verus!
