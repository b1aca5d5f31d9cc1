//! What holds of encoding, decoding and training taken together.

use vstd::prelude::*;
use crate::coding::{all_registered, decodable, encoded, expansion, expansion_of};
use crate::coding::{lemma_encoded_expansion, lemma_expansion_of_atoms, lemma_expansion_part};
use crate::coding::{has_merge, lemma_encoded_stable};
use crate::table::{atom, extends, id_of, valid_table, with_atom};
use crate::table::{lemma_atom_id_stable, lemma_extends_trans};
use crate::table::{lemma_id_of_found, lemma_id_of_push};
use crate::text::{code_points, lemma_char_by_code, lemma_char_is_scalar};
use crate::token_pair::Token;
use crate::pair_freq::{lemma_counted_occurs, pair_count};
use crate::rewrite::pair_at;
use crate::training::{atom_ids, learned_table, learned_tokens, repeats, seeded, winner};
use crate::training::{fits_over, learned_over};
use crate::training::{lemma_count_by_code, lemma_repeats_winner};
use crate::training::{lemma_seeded, lemma_trained, lemma_trained_encoded};

verus! {

/// Two texts with the same code points are the same text.
pub proof fn lemma_code_points_injective(a: Seq<char>, b: Seq<char>)
    requires
        code_points(a) == code_points(b),
    ensures
        a == b,
{
    assert(a.len() == code_points(a).len());
    assert(b.len() == code_points(b).len());
    assert forall|i: int| 0 <= i < a.len() implies a[i] == b[i] by {
        assert(code_points(a)[i] == a[i] as u32);
        assert(code_points(b)[i] == b[i] as u32);
        lemma_char_by_code(a[i], b[i]);
    }
    assert(a =~= b);
}

/// Decoding gives back what was encoded. For a text whose code points all
/// have an id in the table, every id of its encoding can be decoded, the
/// encoding stands for the code points of the text, and so the only text that
/// decoding can return is the text itself.
pub proof fn law_round_trip(t: Seq<Token>, text: Seq<char>)
    requires
        valid_table(t),
        all_registered(t, code_points(text)),
    ensures
        ({
            let ids = encoded(t, atom_ids(t, code_points(text)));
            &&& forall|k: int| 0 <= k < ids.len() ==> decodable(t, #[trigger] ids[k])
            &&& expansion_of(t, ids) == code_points(text)
            &&& forall|out: Seq<char>| code_points(out) == expansion_of(t, ids) ==> out == text
        }),
{
    let codes = code_points(text);
    let seeds = atom_ids(t, codes);
    let ids = encoded(t, seeds);
    assert forall|i: int| 0 <= i < seeds.len() implies #[trigger] seeds[i] < t.len() by {
        assert(id_of(t, atom(codes[i])) is Some);
        lemma_id_of_found(t, atom(codes[i]));
    }
    lemma_expansion_of_atoms(t, codes);
    lemma_encoded_expansion(t, seeds);
    assert forall|k: int| 0 <= k < ids.len() implies decodable(t, #[trigger] ids[k]) by {
        let offset = lemma_expansion_part(t, ids, k);
        assert forall|i: int| 0 <= i < expansion(t, ids[k]).len() implies crate::text::is_scalar(
            #[trigger] expansion(t, ids[k])[i],
        ) by {
            assert(expansion(t, ids[k])[i] == codes[offset + i]);
            lemma_char_is_scalar(text[offset + i]);
        }
    }
    assert forall|out: Seq<char>| code_points(out) == expansion_of(t, ids) implies out == text by {
        lemma_code_points_injective(out, text);
    }
}

/// Encoding reaches a fixed point: in its result no adjacent pair has a merge,
/// so encoding the result again changes nothing.
pub proof fn law_encoding_is_stable(t: Seq<Token>, s: Seq<u32>)
    requires
        valid_table(t),
    ensures
        !has_merge(t, encoded(t, s)),
        encoded(t, encoded(t, s)) == encoded(t, s),
{
    lemma_encoded_stable(t, s);
}

/// Registering a code point a second time changes nothing: the table stays
/// as the first registration left it, and the code point keeps its id.
pub proof fn law_seeding_idempotent(t: Seq<Token>, code: u32)
    ensures
        with_atom(with_atom(t, code), code) == with_atom(t, code),
        id_of(with_atom(t, code), atom(code)) is Some,
        id_of(with_atom(with_atom(t, code), code), atom(code)) == id_of(
            with_atom(t, code),
            atom(code),
        ),
{
    lemma_id_of_push(t, atom(code), atom(code));
}

/// Learning only adds to the table: the table after learning is valid, is
/// at least as long as before, and every id that it had keeps its token.
pub proof fn law_learning_extends(t: Seq<Token>, corpus: Seq<char>, budget: nat)
    requires
        valid_table(t),
        t.len() + 2 * corpus.len() <= u32::MAX,
    ensures
        valid_table(learned_table(t, corpus, budget)),
        extends(learned_table(t, corpus, budget), t),
        t.len() <= learned_table(t, corpus, budget).len(),
{
    let codes = code_points(corpus);
    let start = seeded(t, codes);
    lemma_seeded(t, codes);
    lemma_trained(start, atom_ids(start, codes), budget);
    lemma_extends_trans(learned_table(t, corpus, budget), start, t);
}

/// Through any sequence of calls of learning the table only grows: it stays
/// valid, never gets shorter, and every id that it had at the start keeps its
/// token.
pub proof fn law_tables_only_grow(t: Seq<Token>, calls: Seq<(Seq<char>, nat)>)
    requires
        valid_table(t),
        fits_over(t, calls),
    ensures
        valid_table(learned_over(t, calls)),
        extends(learned_over(t, calls), t),
        t.len() <= learned_over(t, calls).len(),
    decreases calls.len(),
{
    if calls.len() == 0 {
        assert(t.subrange(0, t.len() as int) =~= t);
    } else {
        let before = learned_over(t, calls.drop_last());
        law_tables_only_grow(t, calls.drop_last());
        law_learning_extends(before, calls.last().0, calls.last().1);
        lemma_extends_trans(learned_over(t, calls), before, t);
    }
}

/// Training on a corpus in which no adjacent pair of code points occurs twice
/// merges nothing: the table is the seeded alphabet, and the tokenization
/// holds the id of each code point.
pub proof fn law_no_repeat_no_merge(t: Seq<Token>, corpus: Seq<char>, budget: nat)
    requires
        valid_table(t),
        t.len() + 2 * corpus.len() <= u32::MAX,
        forall|a: u32, b: u32| pair_count(code_points(corpus), a, b) <= 1,
    ensures
        learned_table(t, corpus, budget) == seeded(t, code_points(corpus)),
        learned_tokens(t, corpus, budget) == atom_ids(
            seeded(t, code_points(corpus)),
            code_points(corpus),
        ),
{
    let codes = code_points(corpus);
    let start = seeded(t, codes);
    let seeds = atom_ids(start, codes);
    lemma_seeded(t, codes);
    if repeats(seeds) {
        let p = winner(seeds);
        lemma_repeats_winner(seeds);
        lemma_counted_occurs(seeds, p.left, p.right, seeds.len() as int);
        let i = choose|i: int| i < seeds.len() && pair_at(seeds, i, p.left, p.right);
        lemma_count_by_code(start, codes, i, seeds.len() as int);
        assert(pair_count(codes, codes[i], codes[i + 1]) >= 2);
    }
}

/// Encoding the training corpus with the table that learning gives reproduces
/// the tokenization that learning returns.
///
/// This is stated for a table that, once the alphabet of the corpus is
/// registered, has no merge for any adjacent pair of the corpus; an empty
/// table and a table of atomic symbols are of this kind. Learning does not
/// apply merges that the table already has, while encoding does.
pub proof fn law_training_self_consistent(t: Seq<Token>, corpus: Seq<char>, budget: nat)
    requires
        valid_table(t),
        t.len() + 2 * corpus.len() <= u32::MAX,
        !has_merge(
            seeded(t, code_points(corpus)),
            atom_ids(seeded(t, code_points(corpus)), code_points(corpus)),
        ),
    ensures
        all_registered(learned_table(t, corpus, budget), code_points(corpus)),
        encoded(
            learned_table(t, corpus, budget),
            atom_ids(learned_table(t, corpus, budget), code_points(corpus)),
        ) == learned_tokens(t, corpus, budget),
{
    let codes = code_points(corpus);
    let start = seeded(t, codes);
    let seeds = atom_ids(start, codes);
    let end = learned_table(t, corpus, budget);
    lemma_seeded(t, codes);
    lemma_trained(start, seeds, budget);
    lemma_trained_encoded(start, seeds, budget);
    assert forall|i: int| 0 <= i < codes.len() implies id_of(end, atom(#[trigger] codes[i]))
        == id_of(start, atom(codes[i])) by {
        lemma_atom_id_stable(end, start, codes[i]);
    }
    assert(atom_ids(end, codes) =~= seeds);
}

} // verus!
