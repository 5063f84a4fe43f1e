//! The word classifier: assigns each word a casing category by a fixed
//! priority order of predicates, and produces the processed form — the word
//! unchanged for the trivial categories, a marker token plus the lowercased
//! word for the others.

use vstd::prelude::*;

verus! {

use vstd::string::StrSliceExecFns;
use vstd::string::StringExecFns;
use crate::chars::is_digit_char;
use crate::chars::unicode_lowercase;
use crate::chars::unicode_uppercase;
use crate::chars::lower_chars;
use crate::chars::char_is_digit;
use crate::chars::char_is_lowercase;
use crate::chars::char_is_uppercase;
use crate::chars::to_lowercase;

/// The letter-casing pattern of one word. Exactly one category applies,
/// decided by predicates tried in this order: Digits, Lowercase,
/// Capitalized, AllCaps, Mixed.
#[derive(Clone, Copy, Debug, PartialEq, Eq, Structural)]
pub enum Category {
    Digits,
    Lowercase,
    Capitalized,
    AllCaps,
    Mixed,
}

/// Which textual form a marker token takes: directly concatenated to the
/// lowercased word, or followed by a single space.
#[derive(Clone, Copy, Debug, PartialEq, Eq, Structural)]
pub enum MarkerForm {
    NoSeparator,
    TrailingSpace,
}

/// The classifier's output for one word: its category and its processed text.
pub struct ProcessedWord {
    pub category: Category,
    pub text: String,
}

/// Every character is an ASCII digit.
pub open spec fn all_digits(w: Seq<char>) -> bool {
    forall|i: int| 0 <= i < w.len() ==> is_digit_char(#[trigger] w[i])
}

/// Every character is Unicode lowercase.
pub open spec fn all_lowercase(w: Seq<char>) -> bool {
    forall|i: int| 0 <= i < w.len() ==> unicode_lowercase(#[trigger] w[i])
}

/// Every character is Unicode uppercase.
pub open spec fn all_uppercase(w: Seq<char>) -> bool {
    forall|i: int| 0 <= i < w.len() ==> unicode_uppercase(#[trigger] w[i])
}

/// Every character but the first is Unicode lowercase; vacuously true for a
/// single-character word.
pub open spec fn rest_lowercase(w: Seq<char>) -> bool {
    forall|i: int| 1 <= i < w.len() ==> unicode_lowercase(#[trigger] w[i])
}

/// The word is non-empty and its first character is Unicode uppercase.
pub open spec fn first_uppercase(w: Seq<char>) -> bool {
    w.len() > 0 && unicode_uppercase(w[0])
}

/// The casing category of a word: the first predicate that holds wins.
/// Digit detection is ASCII-only while the case tests are Unicode-aware, so
/// a word of non-ASCII digits is never `Digits`; a digit or underscore next
/// to letters is neither lowercase nor uppercase and usually forces `Mixed`.
pub open spec fn category_of(w: Seq<char>) -> Category {
    if all_digits(w) {
        Category::Digits
    } else if all_lowercase(w) {
        Category::Lowercase
    } else if first_uppercase(w) && rest_lowercase(w) {
        Category::Capitalized
    } else if all_uppercase(w) {
        Category::AllCaps
    } else {
        Category::Mixed
    }
}

/// Whether the category carries a marker token.
pub open spec fn has_marker(c: Category) -> bool {
    c == Category::Capitalized || c == Category::AllCaps || c == Category::Mixed
}

/// The marker token of a category; empty for the trivial categories.
pub open spec fn marker_chars(c: Category) -> Seq<char> {
    match c {
        Category::Capitalized => "[CAP]"@,
        Category::AllCaps => "[ALLCAPS]"@,
        Category::Mixed => "[MIXED]"@,
        Category::Digits => Seq::empty(),
        Category::Lowercase => Seq::empty(),
    }
}

/// The processed form of a word: the word itself for the trivial categories,
/// otherwise the category's marker (in the requested form) followed by the
/// lowercased word.
pub open spec fn processed_chars(w: Seq<char>, form: MarkerForm) -> Seq<char> {
    let c = category_of(w);
    if !has_marker(c) {
        w
    } else {
        match form {
            MarkerForm::NoSeparator => marker_chars(c) + lower_chars(w),
            MarkerForm::TrailingSpace => marker_chars(c) + " "@ + lower_chars(w),
        }
    }
}

/// The marker token literal of a category; the empty string for the trivial
/// categories, which carry none.
pub fn marker_token(c: Category) -> (r: &'static str)
    ensures
        r@ == marker_chars(c),
{
    proof {
        reveal_strlit("");
        assert(""@ =~= Seq::<char>::empty());
    }
    match c {
        Category::Capitalized => "[CAP]",
        Category::AllCaps => "[ALLCAPS]",
        Category::Mixed => "[MIXED]",
        Category::Digits => "",
        Category::Lowercase => "",
    }
}

fn check_all_digits(word: &str) -> (b: bool)
    ensures
        b == all_digits(word@),
{
    let n = word.unicode_len();
    let mut i: usize = 0;
    while i < n
        invariant
            i <= n,
            n == word@.len(),
            forall|k: int| 0 <= k < i ==> is_digit_char(#[trigger] word@[k]),
        decreases n - i,
    {
        if !char_is_digit(word.get_char(i)) {
            return false;
        }
        i += 1;
    }
    true
}

fn check_all_lowercase(word: &str) -> (b: bool)
    ensures
        b == all_lowercase(word@),
{
    let n = word.unicode_len();
    let mut i: usize = 0;
    while i < n
        invariant
            i <= n,
            n == word@.len(),
            forall|k: int| 0 <= k < i ==> unicode_lowercase(#[trigger] word@[k]),
        decreases n - i,
    {
        if !char_is_lowercase(word.get_char(i)) {
            return false;
        }
        i += 1;
    }
    true
}

fn check_all_uppercase(word: &str) -> (b: bool)
    ensures
        b == all_uppercase(word@),
{
    let n = word.unicode_len();
    let mut i: usize = 0;
    while i < n
        invariant
            i <= n,
            n == word@.len(),
            forall|k: int| 0 <= k < i ==> unicode_uppercase(#[trigger] word@[k]),
        decreases n - i,
    {
        if !char_is_uppercase(word.get_char(i)) {
            return false;
        }
        i += 1;
    }
    true
}

fn check_capitalized(word: &str) -> (b: bool)
    ensures
        b == (first_uppercase(word@) && rest_lowercase(word@)),
{
    let n = word.unicode_len();
    if n == 0 {
        return false;
    }
    if !char_is_uppercase(word.get_char(0)) {
        return false;
    }
    let mut i: usize = 1;
    while i < n
        invariant
            1 <= i <= n,
            n == word@.len(),
            first_uppercase(word@),
            forall|k: int| 1 <= k < i ==> unicode_lowercase(#[trigger] word@[k]),
        decreases n - i,
    {
        if !char_is_lowercase(word.get_char(i)) {
            return false;
        }
        i += 1;
    }
    true
}

/// Classify one word and produce its processed text in the requested marker
/// form. Total and deterministic: the result is a function of the word's
/// characters alone, and classification never fails.
pub fn classify(word: &str, form: MarkerForm) -> (p: ProcessedWord)
    ensures
        p.category == category_of(word@),
        p.text@ == processed_chars(word@, form),
{
    let category = if check_all_digits(word) {
        Category::Digits
    } else if check_all_lowercase(word) {
        Category::Lowercase
    } else if check_capitalized(word) {
        Category::Capitalized
    } else if check_all_uppercase(word) {
        Category::AllCaps
    } else {
        Category::Mixed
    };
    match category {
        Category::Digits | Category::Lowercase => ProcessedWord { category, text: word.to_owned() },
        _ => {
            let mut text = String::new();
            text.append(marker_token(category));
            if let MarkerForm::TrailingSpace = form {
                text.append(" ");
            }
            let lowered = to_lowercase(word);
            text.append(lowered.as_str());
            proof {
                assert(text@ =~= processed_chars(word@, form));
            }
            ProcessedWord { category, text }
        },
    }
}

/// Law: classification is referentially transparent — identical input always
/// yields the identical category and processed text.
pub proof fn lemma_classify_deterministic(w1: Seq<char>, w2: Seq<char>, form: MarkerForm)
    ensures
        w1 == w2 ==> category_of(w1) == category_of(w2),
        w1 == w2 ==> processed_chars(w1, form) == processed_chars(w2, form),
{
}

/// Law: the capitalized predicate is tried before the all-caps predicate and
/// is vacuously true past a lone first letter, so a single uppercase letter
/// that is neither a digit nor lowercase is always `Capitalized`, never
/// `AllCaps`.
pub proof fn lemma_single_uppercase_is_capitalized(w: Seq<char>)
    ensures
        (w.len() == 1 && unicode_uppercase(w[0]) && !unicode_lowercase(w[0]) && !is_digit_char(
            w[0],
        )) ==> category_of(w) == Category::Capitalized,
{
    if w.len() == 1 && unicode_uppercase(w[0]) && !unicode_lowercase(w[0]) && !is_digit_char(w[0]) {
        assert(!all_digits(w));
        assert(!all_lowercase(w));
        assert(first_uppercase(w) && rest_lowercase(w));
    }
}

/// Law: a word of ASCII digits passes through unchanged, in either marker
/// form.
pub proof fn lemma_digits_pass_through(w: Seq<char>, form: MarkerForm)
    ensures
        all_digits(w) ==> category_of(w) == Category::Digits,
        all_digits(w) ==> processed_chars(w, form) == w,
{
}

/// Law: an all-lowercase word passes through unchanged, in either marker
/// form; its category is `Digits` or `Lowercase`, both of which carry no
/// marker.
pub proof fn lemma_lowercase_pass_through(w: Seq<char>, form: MarkerForm)
    ensures
        all_lowercase(w) ==> !has_marker(category_of(w)),
        all_lowercase(w) ==> processed_chars(w, form) == w,
{
}

/// Law: the two marker forms agree on the category and on the lowercased
/// text of every word; they differ only in the single space between the
/// marker and the word.
pub proof fn lemma_marker_forms_agree(w: Seq<char>)
    ensures
        !has_marker(category_of(w)) ==> processed_chars(w, MarkerForm::NoSeparator) == w
            && processed_chars(w, MarkerForm::TrailingSpace) == w,
        has_marker(category_of(w)) ==> processed_chars(w, MarkerForm::NoSeparator) == marker_chars(
            category_of(w),
        ) + lower_chars(w) && processed_chars(w, MarkerForm::TrailingSpace) == marker_chars(
            category_of(w),
        ) + " "@ + lower_chars(w),
{
}

} // verus!
