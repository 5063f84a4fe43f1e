use casing_prefix::classifier::Category;
use casing_prefix::classifier::MarkerForm;
use casing_prefix::classifier::classify;
use casing_prefix::classifier::marker_token;

#[test]
fn classify_is_deterministic() {
    let a = classify("SoMe123", MarkerForm::NoSeparator);
    let b = classify("SoMe123", MarkerForm::NoSeparator);
    assert_eq!(a.category, b.category);
    assert_eq!(a.text, b.text);
}

#[test]
fn single_uppercase_letter_is_capitalized_not_allcaps() {
    let p = classify("A", MarkerForm::NoSeparator);
    assert_eq!(p.category, Category::Capitalized);
    assert_eq!(p.text, "[CAP]a");
}

#[test]
fn digits_pass_through_unchanged() {
    let p = classify("123", MarkerForm::NoSeparator);
    assert_eq!(p.category, Category::Digits);
    assert_eq!(p.text, "123");
    let q = classify("123", MarkerForm::TrailingSpace);
    assert_eq!(q.text, "123");
}

#[test]
fn lowercase_passes_through_unchanged() {
    let p = classify("lowercase", MarkerForm::NoSeparator);
    assert_eq!(p.category, Category::Lowercase);
    assert_eq!(p.text, "lowercase");
    let q = classify("lowercase", MarkerForm::TrailingSpace);
    assert_eq!(q.text, "lowercase");
}

#[test]
fn marker_forms_agree_on_category_and_lowered_text() {
    for word in ["Hello", "WORLD", "MixedCase", "ALL123CAPS", "with_underscore"] {
        let joined = classify(word, MarkerForm::NoSeparator);
        let spaced = classify(word, MarkerForm::TrailingSpace);
        assert_eq!(joined.category, spaced.category);
        let marker = marker_token(joined.category);
        let lowered = word.to_lowercase();
        assert_eq!(joined.text, format!("{}{}", marker, lowered));
        assert_eq!(spaced.text, format!("{} {}", marker, lowered));
    }
}

#[test]
fn mixed_letters_and_digits_force_mixed() {
    assert_eq!(classify("ALL123CAPS", MarkerForm::NoSeparator).category, Category::Mixed);
    assert_eq!(classify("mIxEd123CaSe", MarkerForm::NoSeparator).category, Category::Mixed);
    assert_eq!(classify("snake_case", MarkerForm::NoSeparator).category, Category::Mixed);
}

#[test]
fn all_uppercase_word_is_allcaps() {
    let p = classify("WORLD", MarkerForm::NoSeparator);
    assert_eq!(p.category, Category::AllCaps);
    assert_eq!(p.text, "[ALLCAPS]world");
    let q = classify("WORLD", MarkerForm::TrailingSpace);
    assert_eq!(q.text, "[ALLCAPS] world");
}

#[test]
fn case_tests_are_unicode_aware() {
    let p = classify("CAFÉ", MarkerForm::NoSeparator);
    assert_eq!(p.category, Category::AllCaps);
    assert_eq!(p.text, "[ALLCAPS]café");
    let q = classify("Ångström", MarkerForm::NoSeparator);
    assert_eq!(q.category, Category::Capitalized);
    assert_eq!(q.text, "[CAP]ångström");
}

#[test]
fn non_ascii_digits_are_not_digits() {
    let p = classify("١٢٣", MarkerForm::NoSeparator);
    assert_eq!(p.category, Category::Mixed);
}
