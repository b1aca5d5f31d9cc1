//! Encoding text into ids and decoding ids into text with a learned
//! vocabulary.

use vstd::prelude::*;
use crate::coding::{all_registered, encode_step, encoded, first_unregistered, has_merge};
use crate::coding::{decodable, expansion, expansion_of, first_invalid, first_undecodable};
use crate::coding::{is_lowest_merge, merge_here};
use crate::coding::{lemma_lowest_merge_token, lemma_lowest_merge_unique};
use crate::rewrite::{lemma_merge_pass_shrinks, merge_pair};
use crate::table::{id_of, merged};
use crate::text::{char_of, char_string, code_points, is_scalar, string_of};
use crate::text::lemma_char_is_scalar;
use crate::token_pair::{Pair, Token};
use crate::training::{atom_ids, ids_below};
use crate::vocabulary::Vocabulary;

verus! {

/// Why a text could not be encoded or a tokenization not be decoded.
#[derive(Debug)]
pub enum EncodingError {
    /// The text holds a character that has no id in the vocabulary.
    CharNotInVocab { char: String, code: u32 },
    /// An atomic token of the vocabulary holds a number that is no code point.
    InvalidChar { code: u32 },
    /// The tokenization holds an id that the vocabulary does not have.
    UnknownToken { code: u32 },
}

impl EncodingError {
    /// Whether the error is the one that decoding gives for an id that cannot
    /// be decoded: that the table does not have it, or else the first number
    /// in its expansion that is no code point of a character.
    pub open spec fn reports_undecodable(self, t: Seq<Token>, id: u32) -> bool {
        if id >= t.len() {
            self == (EncodingError::UnknownToken { code: id })
        } else {
            exists|m: int|
                first_invalid(expansion(t, id), m) && self == (EncodingError::InvalidChar {
                    code: expansion(t, id)[m],
                })
        }
    }

    /// Whether the error says that the character `c` is not in the vocabulary.
    pub open spec fn reports_char(self, c: char) -> bool {
        match self {
            EncodingError::CharNotInVocab { char, code } => char@ == seq![c] && code == c as u32,
            _ => false,
        }
    }
}

/// The merge that encoding applies next to `tokens`: its pair and its id.
/// `None` where no adjacent pair of `tokens` has a merge.
pub fn lowest_merge_pair(tokens: &[u32], vocab: &Vocabulary) -> (found: Option<(Pair, u32)>)
    requires
        vocab.wf(),
    ensures
        match found {
            Some((pair, id)) => is_lowest_merge(vocab@, tokens@, id) && id < vocab@.len()
                && vocab@[id as int] == Token::Pair(pair),
            None => !has_merge(vocab@, tokens@),
        },
{
    let windows: usize = if tokens.len() == 0 {
        0
    } else {
        tokens.len() - 1
    };
    let mut best: Option<(Pair, u32)> = None;
    let mut i: usize = 0;
    while i < windows
        invariant
            i <= windows,
            windows == if tokens@.len() == 0 {
                0
            } else {
                tokens@.len() - 1
            },
            vocab.wf(),
            match best {
                Some((pair, id)) => {
                    &&& exists|j: int|
                        0 <= j < i && #[trigger] merge_here(vocab@, tokens@, j) == Some(id)
                            && pair == (Pair { left: tokens@[j], right: tokens@[j + 1] })
                    &&& forall|j: int|
                        0 <= j < i && (#[trigger] merge_here(vocab@, tokens@, j)) is Some ==> id
                            <= merge_here(vocab@, tokens@, j)->0
                },
                None => forall|j: int| 0 <= j < i ==> (#[trigger] merge_here(vocab@, tokens@, j)) is None,
            },
        decreases windows - i,
    {
        match vocab.lookup_merge(tokens[i], tokens[i + 1]) {
            Some(merged_id) => {
                let lower = match best {
                    Some((_, held)) => merged_id < held,
                    None => true,
                };
                if lower {
                    best = Some((Pair::new(tokens[i], tokens[i + 1]), merged_id));
                }
                proof {
                    assert(merge_here(vocab@, tokens@, i as int) == Some(merged_id));
                }
            },
            None => {},
        }
        i += 1;
    }
    proof {
        vocab.lemma_valid();
        match best {
            Some((pair, id)) => {
                let j = choose|j: int|
                    0 <= j < i && #[trigger] merge_here(vocab@, tokens@, j) == Some(id) && pair == (
                    Pair { left: tokens@[j], right: tokens@[j + 1] });
                crate::table::lemma_id_of_found(vocab@, merged(tokens@[j], tokens@[j + 1]));
                assert forall|k: int| (#[trigger] merge_here(vocab@, tokens@, k)) is Some implies id
                    <= merge_here(vocab@, tokens@, k)->0 by {
                    assert(0 <= k < i);
                }
            },
            None => {
                assert forall|k: int| (#[trigger] merge_here(vocab@, tokens@, k)) is None by {
                    if 0 <= k < i {
                    }
                }
            },
        }
    }
    best
}

/// Encodes a text into a sequence of ids with a learned vocabulary.
///
/// Each character is replaced by its id. Then, for as long as some adjacent
/// pair of ids has a merge, the earliest learned of these merges is applied
/// to the whole sequence.
///
/// Fails on the first character that has no id in the vocabulary.
pub fn encode(input: &str, vocab: &Vocabulary) -> (result: Result<Vec<u32>, EncodingError>)
    requires
        vocab.wf(),
    ensures
        match result {
            Ok(ids) => {
                &&& all_registered(vocab@, code_points(input@))
                &&& ids@ == encoded(vocab@, atom_ids(vocab@, code_points(input@)))
                &&& !has_merge(vocab@, ids@)
            },
            Err(e) => exists|k: int|
                first_unregistered(vocab@, code_points(input@), k) && e.reports_char(input@[k]),
        },
{
    broadcast use vstd::string::group_string_axioms;

    let ghost codes = code_points(input@);
    let mut tokens: Vec<u32> = Vec::new();
    for c in it: input.chars()
        invariant
            it.seq() == input@,
            codes == code_points(input@),
            vocab.wf(),
            tokens@ == atom_ids(vocab@, codes.take(it.index() as int)),
            all_registered(vocab@, codes.take(it.index() as int)),
    {
        let code = c as u32;
        let ghost k = it.index() as int;
        match vocab.lookup_atomic(code) {
            Some(id) => {
                tokens.push(id);
                proof {
                    assert(codes[k] == code);
                    assert(tokens@ =~= atom_ids(vocab@, codes.take(k + 1)));
                    assert forall|i: int| 0 <= i < k + 1 implies id_of(
                        vocab@,
                        crate::table::atom(#[trigger] codes.take(k + 1)[i]),
                    ) is Some by {
                        if i < k {
                            assert(codes.take(k)[i] == codes.take(k + 1)[i]);
                        }
                    }
                }
            },
            None => {
                let e = EncodingError::CharNotInVocab { char: char_string(c), code };
                proof {
                    assert(codes[k] == code);
                    assert forall|i: int| 0 <= i < k implies id_of(
                        vocab@,
                        crate::table::atom(#[trigger] codes[i]),
                    ) is Some by {
                        assert(codes.take(k)[i] == codes[i]);
                    }
                    assert(first_unregistered(vocab@, codes, k));
                    assert(e.reports_char(input@[k]));
                }
                return Err(e);
            },
        }
    }
    let ghost seeds = tokens@;
    proof {
        assert(codes.take(codes.len() as int) =~= codes);
    }
    let mut settled = false;
    while !settled
        invariant
            vocab.wf(),
            encoded(vocab@, tokens@) == encoded(vocab@, seeds),
            settled ==> !has_merge(vocab@, tokens@),
        decreases tokens@.len() + if settled { 0int } else { 1int },
    {
        match lowest_merge_pair(tokens.as_slice(), vocab) {
            Some((pair, id)) => {
                let rewritten = merge_pair(tokens.as_slice(), pair, id);
                proof {
                    vocab.lemma_valid();
                    lemma_lowest_merge_unique(vocab@, tokens@, id);
                    lemma_lowest_merge_token(vocab@, tokens@, id);
                    lemma_merge_pass_shrinks(tokens@, pair.left, pair.right, id);
                    assert(rewritten@ == encode_step(vocab@, tokens@));
                }
                tokens = rewritten;
            },
            None => {
                settled = true;
            },
        }
    }
    Ok(tokens)
}

/// The code points for which the ids on the stack stand, the top of the stack
/// first.
spec fn stack_expansion(t: Seq<Token>, stack: Seq<u32>) -> Seq<u32>
    decreases stack.len(),
{
    if stack.len() == 0 {
        Seq::empty()
    } else {
        expansion(t, stack.last()) + stack_expansion(t, stack.drop_last())
    }
}

/// The number of tokens that are visited while an id is expanded.
spec fn weight(t: Seq<Token>, id: u32) -> nat
    decreases id,
{
    if id >= t.len() {
        1
    } else {
        match t[id as int] {
            Token::Lonely(_) => 1,
            Token::Pair(p) => if p.left < id && p.right < id {
                1 + weight(t, p.left) + weight(t, p.right)
            } else {
                1
            },
        }
    }
}

spec fn stack_weight(t: Seq<Token>, stack: Seq<u32>) -> nat
    decreases stack.len(),
{
    if stack.len() == 0 {
        0
    } else {
        weight(t, stack.last()) + stack_weight(t, stack.drop_last())
    }
}

proof fn lemma_stack_push(t: Seq<Token>, stack: Seq<u32>, id: u32)
    ensures
        stack_expansion(t, stack.push(id)) == expansion(t, id) + stack_expansion(t, stack),
        stack_weight(t, stack.push(id)) == weight(t, id) + stack_weight(t, stack),
{
    assert(stack.push(id).drop_last() =~= stack);
}

/// Decodes a sequence of ids back into text with the vocabulary.
///
/// Each id is expanded, left half before right half, until only atomic tokens
/// are left; their characters make up the text.
///
/// Fails on the first id that the vocabulary does not have, or whose
/// expansion holds a number that is no code point of a character.
pub fn decode(token_ids: &[u32], vocab: &Vocabulary) -> (result: Result<String, EncodingError>)
    requires
        vocab.wf(),
    ensures
        match result {
            Ok(text) => {
                &&& forall|k: int|
                    0 <= k < token_ids@.len() ==> decodable(vocab@, #[trigger] token_ids@[k])
                &&& code_points(text@) == expansion_of(vocab@, token_ids@)
            },
            Err(e) => exists|k: int|
                first_undecodable(vocab@, token_ids@, k) && e.reports_undecodable(
                    vocab@,
                    token_ids@[k],
                ),
        },
{
    let ghost t = vocab@;
    let ghost ids = token_ids@;
    let mut decoded_chars: Vec<char> = Vec::new();
    let mut k: usize = 0;
    proof {
        vocab.lemma_valid();
        assert(code_points(decoded_chars@) =~= expansion_of(t, ids.take(0)));
    }
    while k < token_ids.len()
        invariant
            k <= token_ids.len(),
            vocab.wf(),
            t == vocab@,
            ids == token_ids@,
            crate::table::valid_table(t),
            forall|j: int| 0 <= j < k ==> decodable(t, #[trigger] ids[j]),
            code_points(decoded_chars@) == expansion_of(t, ids.take(k as int)),
        decreases token_ids.len() - k,
    {
        let id = token_ids[k];
        let ghost base = decoded_chars@;
        let mut decoding_stack: Vec<u32> = Vec::new();
        decoding_stack.push(id);
        proof {
            assert(decoding_stack@ =~= seq![id]);
            assert(Seq::<u32>::empty().push(id) =~= seq![id]);
            lemma_stack_push(t, Seq::<u32>::empty(), id);
            assert(stack_expansion(t, seq![id]) =~= expansion(t, id));
        }
        while decoding_stack.len() > 0
            invariant
                vocab.wf(),
                t == vocab@,
                crate::table::valid_table(t),
                id < t.len() ==> ids_below(decoding_stack@, t.len() as int),
                id >= t.len() ==> decoding_stack@ == seq![id] && decoded_chars@ == base,
                base.len() <= decoded_chars@.len(),
                code_points(decoded_chars@) + stack_expansion(t, decoding_stack@) == code_points(
                    base,
                ) + expansion(t, id),
                0 <= k < ids.len(),
                ids == token_ids@,
                ids[k as int] == id,
                forall|j: int| 0 <= j < k ==> decodable(t, #[trigger] ids[j]),
            decreases stack_weight(t, decoding_stack@),
        {
            let ghost stack_before = decoding_stack@;
            let ghost chars_before = decoded_chars@;
            let current_id = decoding_stack.pop().unwrap();
            let ghost rest = decoding_stack@;
            proof {
                assert(stack_before =~= rest.push(current_id));
                lemma_stack_push(t, rest, current_id);
            }
            match vocab.lookup_token(current_id) {
                Some(Token::Lonely(lonely)) => match char_of(lonely.0) {
                    Some(c) => {
                        decoded_chars.push(c);
                        proof {
                            assert(code_points(decoded_chars@) =~= code_points(chars_before)
                                + seq![lonely.0]);
                            assert(code_points(decoded_chars@) + stack_expansion(t, rest)
                                =~= code_points(chars_before) + (seq![lonely.0] + stack_expansion(
                                t,
                                rest,
                            )));
                        }
                    },
                    None => {
                        let e = EncodingError::InvalidChar { code: lonely.0 };
                        proof {
                            let exp = expansion(t, id);
                            let m = chars_before.len() - base.len();
                            let whole = code_points(chars_before) + (seq![lonely.0]
                                + stack_expansion(t, rest));
                            assert(expansion(t, current_id) == seq![lonely.0]);
                            assert(whole == code_points(base) + exp);
                            assert(whole.len() >= chars_before.len() + 1);
                            assert(exp[m] == whole[base.len() + m]);
                            assert forall|i: int| 0 <= i < m implies is_scalar(
                                #[trigger] exp[i],
                            ) by {
                                assert(exp[i] == whole[base.len() + i]);
                                lemma_char_is_scalar(chars_before[base.len() + i]);
                            }
                            assert(first_invalid(exp, m));
                            assert(!decodable(t, id));
                            assert(first_undecodable(t, ids, k as int));
                            assert(e.reports_undecodable(t, id));
                        }
                        return Err(e);
                    },
                },
                Some(Token::Pair(pair)) => {
                    // Push right then left, so left gets processed first (LIFO)
                    decoding_stack.push(pair.right);
                    decoding_stack.push(pair.left);
                    proof {
                        let one = rest.push(pair.right);
                        let two = one.push(pair.left);
                        assert(decoding_stack@ == two);
                        lemma_stack_push(t, rest, pair.right);
                        lemma_stack_push(t, one, pair.left);
                        assert(stack_expansion(t, two) =~= (expansion(t, pair.left) + expansion(
                            t,
                            pair.right,
                        )) + stack_expansion(t, rest));
                        assert(ids_below(two, t.len() as int));
                    }
                },
                None => {
                    let e = EncodingError::UnknownToken { code: current_id };
                    proof {
                        assert(current_id == id);
                        assert(first_undecodable(t, ids, k as int));
                    }
                    return Err(e);
                },
            }
        }
        proof {
            assert(stack_expansion(t, decoding_stack@) =~= Seq::<u32>::empty());
            assert(code_points(decoded_chars@) =~= code_points(base) + expansion(t, id));
            assert(ids.take(k + 1).drop_last() =~= ids.take(k as int));
            assert forall|i: int| 0 <= i < expansion(t, id).len() implies is_scalar(
                #[trigger] expansion(t, id)[i],
            ) by {
                assert(expansion(t, id)[i] == code_points(decoded_chars@)[base.len() + i]);
                lemma_char_is_scalar(decoded_chars@[base.len() + i]);
            }
            assert(decodable(t, id));
        }
        k += 1;
    }
    proof {
        assert(ids.take(ids.len() as int) =~= ids);
    }
    Ok(string_of(decoded_chars))
}

} // verus!
