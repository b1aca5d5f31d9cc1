//! Text as code points.

use vstd::prelude::*;

verus! {

/// The code points of a text, in order.
pub open spec fn code_points(text: Seq<char>) -> Seq<u32> {
    Seq::new(text.len(), |i: int| text[i] as u32)
}

/// Whether a number is a code point that a `char` can hold: at most 0x10FFFF
/// and no surrogate.
pub open spec fn is_scalar(code: u32) -> bool {
    code <= 0xD7FF || (0xE000 <= code && code <= 0x10FFFF)
}

/// Decomposes a text into its code points.
pub fn decompose(text: &str) -> (codes: Vec<u32>)
    ensures
        codes@ == code_points(text@),
{
    broadcast use vstd::string::group_string_axioms;

    let mut codes: Vec<u32> = Vec::new();
    for c in it: text.chars()
        invariant
            it.seq() == text@,
            codes@ == code_points(text@.take(it.index() as int)),
    {
        codes.push(c as u32);
        proof {
            assert(codes@ =~= code_points(text@.take(it.index() + 1)));
        }
    }
    proof {
        assert(text@.take(text@.len() as int) =~= text@);
    }
    codes
}

/// Composes a text from code points. `None` where one of the numbers is no
/// code point of a character.
pub fn compose(codes: &[u32]) -> (composed: Option<String>)
    ensures
        match composed {
            Some(text) => code_points(text@) == codes@,
            None => exists|i: int| 0 <= i < codes@.len() && !is_scalar(#[trigger] codes@[i]),
        },
{
    let mut chars: Vec<char> = Vec::with_capacity(codes.len());
    let mut i: usize = 0;
    while i < codes.len()
        invariant
            i <= codes.len(),
            code_points(chars@) == codes@.take(i as int),
        decreases codes.len() - i,
    {
        let ghost before = chars@;
        match char_of(codes[i]) {
            Some(c) => {
                chars.push(c);
                proof {
                    assert(code_points(before).len() == before.len());
                    assert(codes@.take(i as int).len() == i);
                    assert forall|j: int| 0 <= j < i + 1 implies code_points(chars@)[j]
                        == codes@.take(i + 1)[j] by {
                        if j < i {
                            assert(chars@[j] == before[j]);
                            assert(code_points(before)[j] == before[j] as u32);
                            assert(code_points(before)[j] == codes@.take(i as int)[j]);
                        }
                    }
                    assert(code_points(chars@) =~= codes@.take(i + 1));
                }
            },
            None => {
                return None;
            },
        }
        i += 1;
    }
    proof {
        assert(codes@.take(codes@.len() as int) =~= codes@);
    }
    Some(string_of(chars))
}

/// `String::from` on a `char`: the text that holds this one character.
#[verifier::external_body]
pub(crate) fn char_string(c: char) -> (text: String)
    ensures
        text@ == seq![c],
{
    String::from(c)
}

/// `char::from_u32`: the character with this code point, `None` for a number
/// that is no code point of a character.
#[verifier::external_body]
pub(crate) fn char_of(code: u32) -> (found: Option<char>)
    ensures
        match found {
            Some(c) => c as u32 == code,
            None => !is_scalar(code),
        },
{
    char::from_u32(code)
}

/// `String::from_iter` on characters: the text that holds them in order.
#[verifier::external_body]
pub(crate) fn string_of(chars: Vec<char>) -> (text: String)
    ensures
        text@ == chars@,
{
    String::from_iter(chars)
}

/// The code point of a character is one that a character can hold.
pub proof fn lemma_char_is_scalar(c: char)
    ensures
        is_scalar(c as u32),
{
}

/// Two characters with the same code point are the same character.
pub proof fn lemma_char_by_code(c: char, d: char)
    requires
        c as u32 == d as u32,
    ensures
        c == d,
{
}

} // verus!
