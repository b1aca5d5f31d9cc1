use bpers::{decode, encode, lowest_merge_pair, merge_pair, most_frequent_pair};
use bpers::{EncodingError, Pair, Vocabulary};

fn reference_vocabulary() -> Vocabulary {
    let mut vocabulary = Vocabulary::new();
    vocabulary.learn("aaabdaaabac", 3);
    vocabulary
}

#[test]
fn encode_reproduces_the_training_tokenization() {
    let corpus = "aaabdaaabac";
    let mut vocabulary = Vocabulary::new();
    let tokenized = vocabulary.learn(corpus, 10);
    assert_eq!(encode(corpus, &vocabulary).unwrap(), tokenized);
    assert_eq!(tokenized, vec![6, 2, 6, 0, 3]);

    let corpus = "she sells sea shells by the sea shore, the shells she sells are sea shells";
    let mut vocabulary = Vocabulary::new();
    let tokenized = vocabulary.learn(corpus, 25);
    assert_eq!(encode(corpus, &vocabulary).unwrap(), tokenized);
}

#[test]
fn encode_applies_the_earliest_merge_first() {
    let vocabulary = reference_vocabulary();
    // a=0, b=1, d=2, c=3, (a,a)=4, (a,b)=5, (4,5)=6.
    // "aab": (a,a) was learned before (a,b), so it wins: [4, 1].
    assert_eq!(encode("aab", &vocabulary).unwrap(), vec![4, 1]);
    // "ab": [5].
    assert_eq!(encode("ab", &vocabulary).unwrap(), vec![5]);
    // "aaab": [4, 0, 1] -> [4, 5] -> [6].
    assert_eq!(encode("aaab", &vocabulary).unwrap(), vec![6]);
    // "aaaa": [4, 4]; no merge of (4, 4) is known.
    assert_eq!(encode("aaaa", &vocabulary).unwrap(), vec![4, 4]);
    assert_eq!(encode("dcb", &vocabulary).unwrap(), vec![2, 3, 1]);
}

#[test]
fn encode_of_an_empty_text_is_empty() {
    let vocabulary = reference_vocabulary();
    assert_eq!(encode("", &vocabulary).unwrap(), Vec::<u32>::new());
    assert_eq!(encode("", &Vocabulary::new()).unwrap(), Vec::<u32>::new());
}

#[test]
fn encode_rejects_a_character_that_was_never_seen() {
    let vocabulary = reference_vocabulary();
    match encode("abxyz", &vocabulary) {
        Err(EncodingError::CharNotInVocab { char, code }) => {
            assert_eq!(char, "x");
            assert_eq!(code, 'x' as u32);
        }
        other => panic!("unexpected result: {:?}", other),
    }
    match encode("é", &Vocabulary::new()) {
        Err(EncodingError::CharNotInVocab { char, code }) => {
            assert_eq!(char, "é");
            assert_eq!(code, 0xE9);
        }
        other => panic!("unexpected result: {:?}", other),
    }
}

#[test]
fn decode_expands_merged_ids_left_to_right() {
    let vocabulary = reference_vocabulary();
    assert_eq!(decode(&[6], &vocabulary).unwrap(), "aaab");
    assert_eq!(decode(&[5, 4], &vocabulary).unwrap(), "abaa");
    assert_eq!(decode(&[6, 2, 6, 0, 3], &vocabulary).unwrap(), "aaabdaaabac");
    assert_eq!(decode(&[], &vocabulary).unwrap(), "");
    assert_eq!(decode(&[3, 2, 1, 0], &vocabulary).unwrap(), "cdba");
}

#[test]
fn decode_rejects_an_id_that_the_table_does_not_have() {
    let vocabulary = reference_vocabulary();
    match decode(&[0, 99, 1], &vocabulary) {
        Err(EncodingError::UnknownToken { code }) => assert_eq!(code, 99),
        other => panic!("unexpected result: {:?}", other),
    }
    match decode(&[7], &vocabulary) {
        Err(EncodingError::UnknownToken { code }) => assert_eq!(code, 7),
        other => panic!("unexpected result: {:?}", other),
    }
    match decode(&[0], &Vocabulary::new()) {
        Err(EncodingError::UnknownToken { code }) => assert_eq!(code, 0),
        other => panic!("unexpected result: {:?}", other),
    }
}

#[test]
fn decode_rejects_an_atomic_token_that_is_no_character() {
    let mut vocabulary = Vocabulary::new();
    let a = vocabulary.insert_atomic('a' as u32);
    let surrogate = vocabulary.insert_atomic(0xD800);
    let beyond = vocabulary.insert_atomic(0x11_0000);
    let merged = vocabulary.insert_merge(a, surrogate);

    assert_eq!(decode(&[a, a], &vocabulary).unwrap(), "aa");
    match decode(&[a, surrogate], &vocabulary) {
        Err(EncodingError::InvalidChar { code }) => assert_eq!(code, 0xD800),
        other => panic!("unexpected result: {:?}", other),
    }
    match decode(&[beyond], &vocabulary) {
        Err(EncodingError::InvalidChar { code }) => assert_eq!(code, 0x11_0000),
        other => panic!("unexpected result: {:?}", other),
    }
    match decode(&[merged], &vocabulary) {
        Err(EncodingError::InvalidChar { code }) => assert_eq!(code, 0xD800),
        other => panic!("unexpected result: {:?}", other),
    }
}

#[test]
fn decode_reports_the_first_fault() {
    let mut vocabulary = Vocabulary::new();
    let a = vocabulary.insert_atomic('a' as u32);
    let bad = vocabulary.insert_atomic(0xDFFF);
    match decode(&[a, 50, bad], &vocabulary) {
        Err(EncodingError::UnknownToken { code }) => assert_eq!(code, 50),
        other => panic!("unexpected result: {:?}", other),
    }
    match decode(&[a, bad, 50], &vocabulary) {
        Err(EncodingError::InvalidChar { code }) => assert_eq!(code, 0xDFFF),
        other => panic!("unexpected result: {:?}", other),
    }
}

#[test]
fn decode_accepts_the_code_points_next_to_the_surrogates() {
    let mut vocabulary = Vocabulary::new();
    let below = vocabulary.insert_atomic(0xD7FF);
    let above = vocabulary.insert_atomic(0xE000);
    let last = vocabulary.insert_atomic(0x10_FFFF);
    assert_eq!(
        decode(&[below, above, last], &vocabulary).unwrap(),
        "\u{D7FF}\u{E000}\u{10FFFF}"
    );
}

#[test]
fn round_trip_gives_the_text_back() {
    let corpus = "aaabdaaabac";
    let vocabulary = reference_vocabulary();
    for text in ["", "a", "aaab", "abcd", "dcba", "aaabdaaabac", "baaabaaab", "aaaaaaaa"] {
        let ids = encode(text, &vocabulary).unwrap();
        assert_eq!(decode(&ids, &vocabulary).unwrap(), text);
    }
    let ids = encode(corpus, &vocabulary).unwrap();
    assert_eq!(ids.len(), 5);
}

#[test]
fn round_trip_beyond_ascii() {
    let corpus = "žluťoučký kůň úpěl ďábelské ódy — žluťoučký kůň 🐎🐎🐎";
    let mut vocabulary = Vocabulary::new();
    let tokenized = vocabulary.learn(corpus, 30);
    assert!(tokenized.len() < corpus.chars().count());
    assert_eq!(decode(&tokenized, &vocabulary).unwrap(), corpus);
    for text in ["kůň", "🐎", "ódy ódy", "ž🐎ž"] {
        let ids = encode(text, &vocabulary).unwrap();
        assert_eq!(decode(&ids, &vocabulary).unwrap(), text);
    }
}

#[test]
fn merge_pair_folds_from_the_left() {
    let pair = Pair::new(1, 2);
    assert_eq!(merge_pair(&[1, 2, 3, 1, 2], pair, 9), vec![9, 3, 9]);
    assert_eq!(merge_pair(&[1, 2], pair, 9), vec![9]);
    assert_eq!(merge_pair(&[2, 1], pair, 9), vec![2, 1]);
    assert_eq!(merge_pair(&[1], pair, 9), vec![1]);
    assert_eq!(merge_pair(&[], pair, 9), Vec::<u32>::new());
    // A dangling last element is kept.
    assert_eq!(merge_pair(&[1, 2, 1], pair, 9), vec![9, 1]);
    // Overlapping occurrences: the first is folded.
    let twin = Pair::new(7, 7);
    assert_eq!(merge_pair(&[7, 7, 7], twin, 8), vec![8, 7]);
    assert_eq!(merge_pair(&[7, 7, 7, 7], twin, 8), vec![8, 8]);
    assert_eq!(merge_pair(&[7, 7, 7, 7, 7], twin, 8), vec![8, 8, 7]);
}

#[test]
fn most_frequent_pair_counts_and_breaks_ties() {
    assert_eq!(most_frequent_pair(&[]), None);
    assert_eq!(most_frequent_pair(&[4]), None);
    assert_eq!(most_frequent_pair(&[4, 2]), Some((Pair::new(4, 2), 1)));
    // Overlapping occurrences all count.
    assert_eq!(most_frequent_pair(&[7, 7, 7]), Some((Pair::new(7, 7), 2)));
    // (5,6), (6,1), (1,2) occur twice each; (1,2) is the smallest.
    assert_eq!(
        most_frequent_pair(&[5, 6, 1, 2, 5, 6, 1, 2]),
        Some((Pair::new(1, 2), 2))
    );
    // (3,1) and (3,0) tie on the left; the right decides.
    assert_eq!(
        most_frequent_pair(&[3, 1, 5, 3, 0, 6, 3, 1, 7, 3, 0]),
        Some((Pair::new(3, 0), 2))
    );
    // A higher count beats a smaller pair.
    assert_eq!(
        most_frequent_pair(&[0, 1, 9, 8, 9, 8, 9, 8]),
        Some((Pair::new(9, 8), 3))
    );
    // Without a repeat, the smallest pair is reported with count one.
    assert_eq!(
        most_frequent_pair(&[5, 4, 3, 2, 1]),
        Some((Pair::new(2, 1), 1))
    );
}

#[test]
fn lowest_merge_pair_finds_the_earliest_merge() {
    let vocabulary = reference_vocabulary();
    // a=0, b=1, (a,a)=4, (a,b)=5, (4,5)=6.
    assert_eq!(lowest_merge_pair(&[], &vocabulary), None);
    assert_eq!(lowest_merge_pair(&[0], &vocabulary), None);
    assert_eq!(lowest_merge_pair(&[1, 0], &vocabulary), None);
    assert_eq!(
        lowest_merge_pair(&[0, 1, 0, 0], &vocabulary),
        Some((Pair::new(0, 0), 4))
    );
    assert_eq!(
        lowest_merge_pair(&[4, 5, 0, 1], &vocabulary),
        Some((Pair::new(0, 1), 5))
    );
    assert_eq!(
        lowest_merge_pair(&[2, 4, 5], &vocabulary),
        Some((Pair::new(4, 5), 6))
    );
}

#[test]
fn decompose_gives_the_code_points() {
    assert_eq!(bpers::decompose(""), Vec::<u32>::new());
    assert_eq!(bpers::decompose("abc"), vec![97, 98, 99]);
    assert_eq!(bpers::decompose("é🐎"), vec![0xE9, 0x1F40E]);
}

#[test]
fn compose_gives_the_text_of_code_points() {
    assert_eq!(bpers::compose(&[]), Some(String::new()));
    assert_eq!(bpers::compose(&[97, 98, 99]), Some("abc".to_string()));
    assert_eq!(bpers::compose(&[0xE9, 0x1F40E]), Some("é🐎".to_string()));
    assert_eq!(bpers::compose(&[97, 0xD800, 99]), None);
    assert_eq!(bpers::compose(&[0x11_0000]), None);
    let text = "žluťoučký kůň";
    assert_eq!(bpers::compose(&bpers::decompose(text)).as_deref(), Some(text));
}

#[test]
fn encode_on_a_retrained_table_prefers_the_earlier_merge() {
    // Learning does not apply the merges that the table has; encoding does.
    let mut vocabulary = Vocabulary::new();
    vocabulary.learn("abab", 1);
    // a=0, b=1, (a,b)=2.
    let tokenized = vocabulary.learn("aaab", 5);
    // (a,a) is merged into 3; (a,b) occurs once and is left alone.
    assert_eq!(tokenized, vec![3, 0, 1]);
    assert_eq!(encode("aaab", &vocabulary).unwrap(), vec![3, 2]);
    assert_eq!(decode(&[3, 2], &vocabulary).unwrap(), "aaab");
    assert_eq!(decode(&tokenized, &vocabulary).unwrap(), "aaab");
}
