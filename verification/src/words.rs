//! Word scanning: a word match is a maximal contiguous run of word
//! characters found by scanning the text left to right. The compiled word
//! pattern is built once and reused read-only.

use vstd::prelude::*;

verus! {

use crate::chars::byte_index;

/// Whether the word pattern counts `c` as a word character: an ASCII
/// letter, digit or underscore, or one of the further characters of the
/// Unicode word class.
pub uninterp spec fn word_char(c: char) -> bool;

/// `i` is the first character of a maximal run of word characters.
pub open spec fn is_word_start(s: Seq<char>, i: int) -> bool {
    0 <= i < s.len() && word_char(s[i]) && (i == 0 || !word_char(s[i - 1]))
}

/// The character index just past the run of word characters beginning at
/// `i`.
pub open spec fn run_end(s: Seq<char>, i: int) -> int
    decreases s.len() - i,
{
    if 0 <= i < s.len() && word_char(s[i]) {
        run_end(s, i + 1)
    } else {
        i
    }
}

/// The word starts of `s` at index `i` or later, in increasing order.
pub open spec fn word_starts_from(s: Seq<char>, i: int) -> Seq<int>
    decreases s.len() - i,
{
    if !(0 <= i < s.len()) {
        Seq::empty()
    } else if is_word_start(s, i) {
        seq![i] + word_starts_from(s, i + 1)
    } else {
        word_starts_from(s, i + 1)
    }
}

/// The character ranges `[start, end)` of the maximal runs of word
/// characters of `s`, left to right.
pub open spec fn word_spans(s: Seq<char>) -> Seq<(int, int)> {
    word_starts_from(s, 0).map_values(|a: int| (a, run_end(s, a)))
}

/// The text of one word span.
pub open spec fn span_text(s: Seq<char>, sp: (int, int)) -> Seq<char> {
    s.subrange(sp.0, sp.1)
}

/// The texts of the word matches of `s`, left to right.
pub open spec fn word_texts(s: Seq<char>) -> Seq<Seq<char>> {
    word_spans(s).map_values(|sp: (int, int)| span_text(s, sp))
}

proof fn lemma_run_end_bounds(s: Seq<char>, i: int)
    requires
        0 <= i <= s.len(),
    ensures
        i <= run_end(s, i) <= s.len(),
    decreases s.len() - i,
{
    if i < s.len() && word_char(s[i]) {
        lemma_run_end_bounds(s, i + 1);
    }
}

proof fn lemma_word_starts_from_valid(s: Seq<char>, i: int)
    ensures
        forall|k: int|
            0 <= k < word_starts_from(s, i).len() ==> is_word_start(
                s,
                #[trigger] word_starts_from(s, i)[k],
            ),
    decreases s.len() - i,
{
    if 0 <= i < s.len() {
        lemma_word_starts_from_valid(s, i + 1);
        if is_word_start(s, i) {
            assert forall|k: int| 0 <= k < word_starts_from(s, i).len() implies is_word_start(
                s,
                #[trigger] word_starts_from(s, i)[k],
            ) by {
                if k == 0 {
                    assert(word_starts_from(s, i)[0] == i);
                } else {
                    assert(word_starts_from(s, i)[k] == word_starts_from(s, i + 1)[k - 1]);
                }
            }
        } else {
            assert forall|k: int| 0 <= k < word_starts_from(s, i).len() implies is_word_start(
                s,
                #[trigger] word_starts_from(s, i)[k],
            ) by {
                assert(word_starts_from(s, i) == word_starts_from(s, i + 1));
                assert(word_starts_from(s, i)[k] == word_starts_from(s, i + 1)[k]);
            }
        }
    }
}

/// Every word span lies inside the text and is non-empty.
pub proof fn lemma_word_spans_bounds(s: Seq<char>)
    ensures
        forall|k: int|
            0 <= k < word_spans(s).len() ==> {
                let sp = #[trigger] word_spans(s)[k];
                0 <= sp.0 < sp.1 <= s.len()
            },
{
    lemma_word_starts_from_valid(s, 0);
    assert forall|k: int| 0 <= k < word_spans(s).len() implies {
        let sp = #[trigger] word_spans(s)[k];
        0 <= sp.0 < sp.1 <= s.len()
    } by {
        let a = word_starts_from(s, 0)[k];
        assert(is_word_start(s, a));
        lemma_run_end_bounds(s, a + 1);
        assert(run_end(s, a) == run_end(s, a + 1));
    }
}

#[verifier::external_type_specification]
#[verifier::external_body]
pub struct ExRegex(regex::Regex);

/// One word match: the byte range `[start, end)` it occupies in the scanned
/// text, and the matched text itself.
pub struct WordMatch {
    pub start: usize,
    pub end: usize,
    pub text: String,
}

/// A matcher for maximal runs of word characters. Every instance holds the
/// same fixed pattern, compiled once at construction and then only read.
pub struct WordPattern {
    regex: regex::Regex,
}

impl WordPattern {
    /// Relies on regex::Regex::new: compiles the fixed pattern `\w+`, one or
    /// more word characters. The pattern is a valid literal, so compilation
    /// cannot fail.
    #[verifier::external_body]
    pub fn new() -> (r: WordPattern) {
        WordPattern { regex: regex::Regex::new(r"\w+").unwrap() }
    }

    /// Relies on regex::Regex::find_iter and regex::Match::{start, end,
    /// as_str}: the iterator yields the successive non-overlapping matches
    /// from left to right, and for the pattern `\w+` those are exactly the
    /// maximal runs of word characters; each match reports the byte range it
    /// occupies in `s` and the matched text.
    #[verifier::external_body]
    pub fn find_words(&self, s: &str) -> (r: Vec<WordMatch>)
        ensures
            r@.len() == word_spans(s@).len(),
            forall|k: int|
                0 <= k < r@.len() ==> {
                    let sp = word_spans(s@)[k];
                    &&& (#[trigger] r@[k]).start == byte_index(s@, sp.0)
                    &&& r@[k].end == byte_index(s@, sp.1)
                    &&& r@[k].text@ == span_text(s@, sp)
                },
            forall|k: int, j: int|
                0 <= k < r@.len() && 0 <= j < r@[k].text@.len() ==> word_char(
                    #[trigger] r@[k].text@[j],
                ),
    {
        self.regex.find_iter(s).map(
            |m| WordMatch { start: m.start(), end: m.end(), text: m.as_str().to_string() },
        ).collect()
    }
}

} // verus!
