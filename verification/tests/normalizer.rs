use casing_prefix::normalized::NormalizedString;
use casing_prefix::normalized::PrefixError;
use casing_prefix::normalizers::CasingPrefix;

#[test]
fn test_casing_prefix_normalizer() {
    let original = "Hello WORLD MixedCase 123 lowercase";
    let expected = "[CAP]hello [ALLCAPS]world [MIXED]mixedcase 123 lowercase";

    let mut n = NormalizedString::from(original);
    CasingPrefix::new().normalize(&mut n).unwrap();

    assert_eq!(n.get(), expected);
}

#[test]
fn test_casing_prefix_edge_cases() {
    let original = "ALL123CAPS 123 mIxEd123CaSe";
    let expected = "[MIXED]all123caps 123 [MIXED]mixed123case";

    let mut n = NormalizedString::from(original);
    CasingPrefix::new().normalize(&mut n).unwrap();

    assert_eq!(n.get(), expected);
}

#[test]
fn empty_text_normalizes_to_empty() {
    let mut n = NormalizedString::from("");
    CasingPrefix::new().normalize(&mut n).unwrap();
    assert_eq!(n.get(), "");
}

#[test]
fn zero_matches_normalize_to_empty() {
    let mut n = NormalizedString::from("  ... !!! ");
    CasingPrefix::new().normalize(&mut n).unwrap();
    assert_eq!(n.get(), "");
}

#[test]
fn separators_collapse_to_single_spaces() {
    let mut n = NormalizedString::from("  one,two   THREE! ");
    CasingPrefix::new().normalize(&mut n).unwrap();
    assert_eq!(n.get(), "one two [ALLCAPS]three");
}

#[test]
fn normalize_is_not_idempotent() {
    let p = CasingPrefix::new();
    let mut n = NormalizedString::from("Hello");
    p.normalize(&mut n).unwrap();
    let first = n.get().to_string();
    assert_eq!(first, "[CAP]hello");
    p.normalize(&mut n).unwrap();
    let second = n.get().to_string();
    assert_ne!(second, first);
    assert_eq!(second, "[ALLCAPS]cap hello");
}

#[test]
fn normalizer_instances_compare_equal() {
    assert!(CasingPrefix::new() == CasingPrefix::new());
    assert!(CasingPrefix::default() == CasingPrefix::new());
}

#[test]
fn replace_rewrites_every_occurrence() {
    let mut n = NormalizedString::from("aXbXc");
    n.replace("X", "YY").unwrap();
    assert_eq!(n.get(), "aYYbYYc");
}

#[test]
fn replace_missing_target_fails() {
    let mut n = NormalizedString::from("abc");
    assert_eq!(n.replace("xyz", "q"), Err(PrefixError::MissingTarget));
    assert_eq!(n.get(), "abc");
}

#[test]
fn replace_empty_target_fails() {
    let mut n = NormalizedString::from("abc");
    assert_eq!(n.replace("", "q"), Err(PrefixError::MissingTarget));
    assert_eq!(n.get(), "abc");
}
