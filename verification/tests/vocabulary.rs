use std::collections::HashSet;

use bpers::{Lonely, Pair, Token, Vocabulary};

fn tokens_of(vocabulary: &Vocabulary) -> Vec<Token> {
    (0..vocabulary.len() as u32)
        .map(|id| vocabulary.lookup_token(id).unwrap())
        .collect()
}

#[test]
// https://en.wikipedia.org/wiki/Byte_pair_encoding#Example
fn pair_map_bpe_tokenize_aaabdaaabac() {
    let corpus = "aaabdaaabac";
    let mut vocabulary = Vocabulary::new();

    let max_n_merges_possible = 3;
    // passing higher n_merges doesnt matter here as only 3 merges are possible
    let tokenized = vocabulary.learn(corpus, max_n_merges_possible + (68 + 1));

    let n_uniq_chars = corpus.chars().collect::<HashSet<_>>().len();

    assert_eq!(
        vocabulary.len(),
        n_uniq_chars + max_n_merges_possible as usize
    );

    //    aaabdaaabac ->
    // 1. ZabdZabac ->
    // 2. ZYdZYac ->
    // 3. XdXac (len 5)
    assert_eq!(tokenized.len(), 5)
}

#[test]
// https://en.wikipedia.org/wiki/Byte_pair_encoding#Example
fn vocabulary_bpe_tokenize_aaabdaaabac() {
    let corpus = "aaabdaaabac";
    let mut vocabulary = Vocabulary::new();

    let max_n_merges_possible = 3;
    // passing higher n_merges doesnt matter here as only 3 merges are possible
    let tokenized = vocabulary.learn(corpus, max_n_merges_possible + (68 + 1));

    let n_uniq_chars = corpus.chars().collect::<HashSet<_>>().len();

    assert_eq!(
        vocabulary.len(),
        n_uniq_chars + max_n_merges_possible as usize
    );

    //    aaabdaaabac ->
    // 1. ZabdZabac ->
    // 2. ZYdZYac ->
    // 3. XdXac (len 5)
    assert_eq!(tokenized.len(), 5)
}

#[test]
fn new_vocabulary_is_empty() {
    let vocabulary = Vocabulary::new();
    assert_eq!(vocabulary.len(), 0);
    assert_eq!(vocabulary.lookup_token(0), None);
    assert_eq!(vocabulary.lookup_atomic('a' as u32), None);
    assert_eq!(vocabulary.lookup_merge(0, 0), None);
}

#[test]
fn learn_gives_the_exact_table_and_tokenization() {
    let mut vocabulary = Vocabulary::new();
    let tokenized = vocabulary.learn("aaabdaaabac", 3);

    assert_eq!(tokenized, vec![6, 2, 6, 0, 3]);
    assert_eq!(
        tokens_of(&vocabulary),
        vec![
            Token::Lonely(Lonely('a' as u32)),
            Token::Lonely(Lonely('b' as u32)),
            Token::Lonely(Lonely('d' as u32)),
            Token::Lonely(Lonely('c' as u32)),
            Token::Pair(Pair { left: 0, right: 0 }),
            Token::Pair(Pair { left: 0, right: 1 }),
            Token::Pair(Pair { left: 4, right: 5 }),
        ]
    );
    assert_eq!(vocabulary.lookup_merge(0, 0), Some(4));
    assert_eq!(vocabulary.lookup_merge(0, 1), Some(5));
    assert_eq!(vocabulary.lookup_merge(4, 5), Some(6));
    assert_eq!(vocabulary.lookup_merge(5, 4), None);
    assert_eq!(vocabulary.lookup_atomic('d' as u32), Some(2));
}

#[test]
fn learn_stops_when_the_budget_is_spent() {
    let mut vocabulary = Vocabulary::new();
    let tokenized = vocabulary.learn("aaabdaaabac", 1);
    assert_eq!(tokenized, vec![4, 0, 1, 2, 4, 0, 1, 0, 3]);
    assert_eq!(vocabulary.len(), 5);

    let mut vocabulary = Vocabulary::new();
    let tokenized = vocabulary.learn("aaabdaaabac", 2);
    assert_eq!(tokenized, vec![4, 5, 2, 4, 5, 0, 3]);
    assert_eq!(vocabulary.len(), 6);
}

#[test]
fn learn_without_budget_only_seeds_the_alphabet() {
    let mut vocabulary = Vocabulary::new();
    let tokenized = vocabulary.learn("aaabdaaabac", 0);
    assert_eq!(tokenized, vec![0, 0, 0, 1, 2, 0, 0, 0, 1, 0, 3]);
    assert_eq!(vocabulary.len(), 4);
    assert_eq!(vocabulary.lookup_merge(0, 0), None);
}

#[test]
fn learn_stops_early_when_no_pair_repeats() {
    let mut vocabulary = Vocabulary::new();
    let tokenized = vocabulary.learn("abcdef", 100);
    assert_eq!(tokenized, vec![0, 1, 2, 3, 4, 5]);
    assert_eq!(vocabulary.len(), 6);
    for id in 0..6 {
        assert!(matches!(vocabulary.lookup_token(id), Some(Token::Lonely(_))));
    }
}

#[test]
fn learn_on_an_empty_corpus_changes_nothing() {
    let mut vocabulary = Vocabulary::new();
    let tokenized = vocabulary.learn("", 10);
    assert!(tokenized.is_empty());
    assert_eq!(vocabulary.len(), 0);

    vocabulary.learn("abab", 10);
    let before = tokens_of(&vocabulary);
    let tokenized = vocabulary.learn("", 10);
    assert!(tokenized.is_empty());
    assert_eq!(tokens_of(&vocabulary), before);
}

#[test]
fn learn_on_a_single_character_merges_nothing() {
    let mut vocabulary = Vocabulary::new();
    let tokenized = vocabulary.learn("a", 10);
    assert_eq!(tokenized, vec![0]);
    assert_eq!(vocabulary.len(), 1);
}

#[test]
fn learn_counts_overlapping_pairs() {
    // In "aaa" the pair (a, a) stands at two positions, so it is merged; the
    // pass folds the first occurrence and leaves the last `a` alone.
    let mut vocabulary = Vocabulary::new();
    let tokenized = vocabulary.learn("aaa", 10);
    assert_eq!(tokenized, vec![1, 0]);
    assert_eq!(vocabulary.len(), 2);
    assert_eq!(
        vocabulary.lookup_token(1),
        Some(Token::Pair(Pair { left: 0, right: 0 }))
    );
}

#[test]
fn learn_breaks_ties_by_the_smaller_pair() {
    // "cdabcdab": (c,d), (d,a), (a,b) each occur twice. With c=0, d=1, a=2,
    // b=3 the smallest of them is (0, 1).
    let mut vocabulary = Vocabulary::new();
    vocabulary.learn("cdabcdab", 1);
    assert_eq!(
        vocabulary.lookup_token(4),
        Some(Token::Pair(Pair { left: 0, right: 1 }))
    );

    // "abcdabcd": with a=0, b=1, c=2, d=3 the pairs (0,1), (1,2), (2,3) tie.
    let mut vocabulary = Vocabulary::new();
    vocabulary.learn("abcdabcd", 1);
    assert_eq!(
        vocabulary.lookup_token(4),
        Some(Token::Pair(Pair { left: 0, right: 1 }))
    );

    // "babaXabab"-like: here the tie is between (1, 0) and (0, 1), and the
    // pair that occurs first in the text is not the smaller one.
    let mut vocabulary = Vocabulary::new();
    vocabulary.learn("bab-aba", 1);
    // b=0, a=1, -=2: (0,1) twice, (1,0) twice, (0,2) once, (2,1) once.
    assert_eq!(
        vocabulary.lookup_token(3),
        Some(Token::Pair(Pair { left: 0, right: 1 }))
    );
}

#[test]
fn learn_is_reproducible() {
    let corpus = "the quick brown fox jumps over the lazy dog, the quick brown fox";
    let mut first = Vocabulary::new();
    let mut second = Vocabulary::new();
    let a = first.learn(corpus, 20);
    let b = second.learn(corpus, 20);
    assert_eq!(a, b);
    assert_eq!(tokens_of(&first), tokens_of(&second));
}

#[test]
fn insert_atomic_is_idempotent() {
    let mut vocabulary = Vocabulary::new();
    let first = vocabulary.insert_atomic('x' as u32);
    let size = vocabulary.len();
    let second = vocabulary.insert_atomic('x' as u32);
    assert_eq!(first, second);
    assert_eq!(vocabulary.len(), size);
    assert_eq!(size, 1);

    let other = vocabulary.insert_atomic('y' as u32);
    assert_eq!(other, 1);
    assert_eq!(vocabulary.insert_atomic('x' as u32), 0);
    assert_eq!(vocabulary.len(), 2);
}

#[test]
fn insert_merge_takes_the_next_id() {
    let mut vocabulary = Vocabulary::new();
    let a = vocabulary.insert_atomic('a' as u32);
    let b = vocabulary.insert_atomic('b' as u32);
    let ab = vocabulary.insert_merge(a, b);
    assert_eq!(ab, 2);
    assert_eq!(vocabulary.len(), 3);
    assert_eq!(
        vocabulary.lookup_token(ab),
        Some(Token::Pair(Pair { left: a, right: b }))
    );
    assert_eq!(vocabulary.lookup_merge(a, b), Some(ab));
    assert_eq!(vocabulary.lookup_merge(b, a), None);

    let abab = vocabulary.insert_merge(ab, ab);
    assert_eq!(abab, 3);
    assert_eq!(vocabulary.lookup_merge(ab, ab), Some(3));
}

#[test]
fn insert_merge_of_a_known_pair_takes_a_new_id() {
    let mut vocabulary = Vocabulary::new();
    let a = vocabulary.insert_atomic('a' as u32);
    let first = vocabulary.insert_merge(a, a);
    let second = vocabulary.insert_merge(a, a);
    assert_eq!(first, 1);
    assert_eq!(second, 2);
    assert_eq!(vocabulary.lookup_merge(a, a), Some(2));
    assert_eq!(vocabulary.lookup_token(1), vocabulary.lookup_token(2));
}

#[test]
fn lookup_token_of_an_unknown_id_is_none() {
    let mut vocabulary = Vocabulary::new();
    vocabulary.learn("abab", 5);
    let size = vocabulary.len() as u32;
    assert!(vocabulary.lookup_token(size - 1).is_some());
    assert_eq!(vocabulary.lookup_token(size), None);
    assert_eq!(vocabulary.lookup_token(u32::MAX), None);
}

#[test]
fn table_only_grows_over_training_calls() {
    let mut vocabulary = Vocabulary::new();
    let mut sizes = vec![vocabulary.len()];
    let mut seen: Vec<Token> = Vec::new();
    for corpus in ["aaabdaaabac", "abracadabra", "", "xyzxyzxyz", "aaabdaaabac"] {
        vocabulary.learn(corpus, 4);
        let now = tokens_of(&vocabulary);
        assert!(now.len() >= seen.len());
        assert_eq!(&now[..seen.len()], &seen[..]);
        sizes.push(now.len());
        seen = now;
    }
    assert!(sizes.windows(2).all(|pair| pair[0] <= pair[1]));
}

#[test]
fn learn_on_a_seeded_table_adds_unseen_code_points_on_top() {
    let mut vocabulary = Vocabulary::new();
    for code in 0..128u32 {
        assert_eq!(vocabulary.insert_atomic(code), code);
    }
    let tokenized = vocabulary.learn("héhé", 1);
    // 'h' = 104 is in the prelude, 'é' gets the next id, 128.
    assert_eq!(vocabulary.lookup_atomic('é' as u32), Some(128));
    assert_eq!(
        vocabulary.lookup_token(129),
        Some(Token::Pair(Pair { left: 104, right: 128 }))
    );
    assert_eq!(tokenized, vec![129, 129]);
}

#[test]
fn token_constructors() {
    assert_eq!(Token::new(7, None), Token::Lonely(Lonely(7)));
    assert_eq!(
        Token::new(7, Some(9)),
        Token::Pair(Pair { left: 7, right: 9 })
    );
    assert_eq!(Lonely::new(3), Lonely(3));
    assert_eq!(Lonely::new(3).as_token(), Token::Lonely(Lonely(3)));
    assert_eq!(Pair::new(1, 2), Pair { left: 1, right: 2 });
    assert_eq!(
        Pair::new(1, 2).as_token(),
        Token::Pair(Pair { left: 1, right: 2 })
    );
    assert_ne!(Pair::new(1, 2), Pair::new(2, 1));
}
