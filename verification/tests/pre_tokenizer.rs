use casing_prefix::normalized::NormalizedString;
use casing_prefix::normalized::PrefixError;
use casing_prefix::pre_tokenized::PreTokenizedString;
use casing_prefix::pre_tokenizers::CasingPrefix;

#[test]
fn test_casing_prefix_pre_tokenizer() {
    let tests = vec![
        (
            "Hello WORLD MixedCase 123 lowercase",
            vec![
                ("[CAP] hello".to_string(), (0, 5)),
                ("[ALLCAPS] world".to_string(), (6, 11)),
                ("[MIXED] mixedcase".to_string(), (12, 21)),
                ("123".to_string(), (22, 25)),
                ("lowercase".to_string(), (26, 35)),
            ],
        ),
        (
            "ALL123CAPS 123 mIxEd123CaSe",
            vec![
                ("[MIXED] all123caps".to_string(), (0, 10)),
                ("123".to_string(), (11, 14)),
                ("[MIXED] mixed123case".to_string(), (15, 27)),
            ],
        ),
    ];

    let pretok = CasingPrefix::new();
    for (s, expected) in tests {
        let mut pretokenized = PreTokenizedString::from(s);
        pretok.pre_tokenize(&mut pretokenized).unwrap();
        let result = pretokenized.get_splits();
        assert_eq!(result, expected);
    }
}

#[test]
fn zero_match_segment_survives_unchanged() {
    let pretok = CasingPrefix::new();
    let mut pretokenized = PreTokenizedString::from(" ... !");
    pretok.pre_tokenize(&mut pretokenized).unwrap();
    assert_eq!(pretokenized.get_splits(), vec![(" ... !".to_string(), (0, 6))]);
}

#[test]
fn offsets_are_bytes_for_non_ascii_words() {
    let pretok = CasingPrefix::new();
    let mut pretokenized = PreTokenizedString::from("CAFÉ naïve");
    pretok.pre_tokenize(&mut pretokenized).unwrap();
    assert_eq!(
        pretokenized.get_splits(),
        vec![("[ALLCAPS] café".to_string(), (0, 5)), ("naïve".to_string(), (6, 12))],
    );
}

#[test]
fn misaligned_segment_with_matches_fails() {
    let pretok = CasingPrefix::new();
    let seg = NormalizedString { text: "Hello".to_string(), start: 0, end: 3 };
    let mut pretokenized =
        PreTokenizedString { original: "Hel".to_string(), splits: vec![seg] };
    assert_eq!(pretok.pre_tokenize(&mut pretokenized), Err(PrefixError::SliceFailed));
    assert_eq!(pretokenized.get_splits(), vec![("Hello".to_string(), (0, 3))]);
}

#[test]
fn pre_tokenizer_instances_compare_equal() {
    assert!(CasingPrefix::new() == CasingPrefix::new());
    assert!(CasingPrefix::default() == CasingPrefix::new());
}

#[test]
fn slice_carves_out_the_original_range() {
    let seg = NormalizedString::from("Hello world");
    let sub = seg.slice(6, 11).unwrap();
    assert_eq!(sub.get(), "world");
    assert_eq!((sub.start, sub.end), (6, 11));
    assert!(seg.slice(5, 2).is_none());
}
