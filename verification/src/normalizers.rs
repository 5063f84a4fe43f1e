//! The whole-text prefixer: scans a text for word matches, classifies each,
//! and rebuilds the text as the processed words joined by single spaces.
//! Everything that is not part of a match is discarded — intentionally
//! lossy, by contract.

use vstd::prelude::*;

verus! {

use vstd::string::StrSliceExecFns;
use vstd::string::StringExecFns;
use crate::classifier::MarkerForm;
use crate::classifier::classify;
use crate::classifier::processed_chars;
use crate::normalized::NormalizedString;
use crate::normalized::PrefixError;
use crate::normalized::lemma_contains_self;
use crate::normalized::lemma_replace_whole;
use crate::words::WordPattern;
use crate::words::word_texts;
use crate::words::span_text;
use crate::words::word_spans;

/// The processed words joined by one ASCII space, in match order; empty when
/// there are no words.
pub open spec fn join_processed(ws: Seq<Seq<char>>) -> Seq<char>
    decreases ws.len(),
{
    if ws.len() == 0 {
        Seq::empty()
    } else if ws.len() == 1 {
        processed_chars(ws[0], MarkerForm::NoSeparator)
    } else {
        processed_chars(ws[0], MarkerForm::NoSeparator) + " "@ + join_processed(ws.drop_first())
    }
}

/// What the whole-text rewrite produces for a text: its word matches
/// classified and joined by single spaces.
pub open spec fn prefixed_text(s: Seq<char>) -> Seq<char> {
    join_processed(word_texts(s))
}

proof fn lemma_join_push(ws: Seq<Seq<char>>, w: Seq<char>)
    ensures
        ws.len() == 0 ==> join_processed(ws.push(w)) == processed_chars(
            w,
            MarkerForm::NoSeparator,
        ),
        ws.len() > 0 ==> join_processed(ws.push(w)) == join_processed(ws) + " "@ + processed_chars(
            w,
            MarkerForm::NoSeparator,
        ),
    decreases ws.len(),
{
    let p = ws.push(w);
    if ws.len() == 0 {
        assert(p.len() == 1);
        assert(p[0] == w);
    } else {
        assert(p[0] == ws[0]);
        assert(p.drop_first() =~= ws.drop_first().push(w));
        lemma_join_push(ws.drop_first(), w);
        if ws.len() == 1 {
            assert(ws.drop_first().len() == 0);
            assert(join_processed(p) == processed_chars(p[0], MarkerForm::NoSeparator) + " "@
                + join_processed(p.drop_first()));
        } else {
            let h = processed_chars(ws[0], MarkerForm::NoSeparator);
            let sep = " "@;
            let t = join_processed(ws.drop_first());
            let pw = processed_chars(w, MarkerForm::NoSeparator);
            assert(join_processed(p) == h + sep + (t + sep + pw));
            assert(h + sep + (t + sep + pw) =~= (h + sep + t) + sep + pw);
        }
    }
}

/// The whole-text prefixer. Holds only the compiled word pattern, built once
/// at construction and then only read; two instances behave identically.
pub struct CasingPrefix {
    word_regex: WordPattern,
}

impl PartialEq for CasingPrefix {
    /// Equality is structural and trivially true: the only internal state is
    /// the compiled pattern, identical in every instance.
    fn eq(&self, _other: &CasingPrefix) -> (r: bool) {
        true
    }
}

impl vstd::std_specs::cmp::PartialEqSpecImpl for CasingPrefix {
    open spec fn obeys_eq_spec() -> bool {
        true
    }

    open spec fn eq_spec(&self, _other: &CasingPrefix) -> bool {
        true
    }
}

impl Default for CasingPrefix {
    /// A fresh prefixer, as `new` builds it.
    fn default() -> (r: CasingPrefix) {
        CasingPrefix::new()
    }
}

impl CasingPrefix {
    /// A fresh prefixer with a freshly compiled word pattern.
    pub fn new() -> (r: CasingPrefix) {
        CasingPrefix { word_regex: WordPattern::new() }
    }

    /// Classify one word and render it in the no-separator form: the word
    /// itself for the trivial categories, otherwise the marker directly
    /// concatenated to the lowercased word.
    pub fn process_word(&self, word: &str) -> (r: String)
        ensures
            r@ == processed_chars(word@, MarkerForm::NoSeparator),
    {
        classify(word, MarkerForm::NoSeparator).text
    }

    /// Rebuild the buffer's text as its classified words joined by single
    /// spaces, through one `replace` edit spanning the whole buffer. All
    /// other characters are dropped; zero matches leave the empty string.
    /// Never fails; the buffer's offsets are untouched.
    pub fn normalize(&self, normalized: &mut NormalizedString) -> (r: Result<(), PrefixError>)
        ensures
            r is Ok,
            final(normalized)@.text == prefixed_text(old(normalized)@.text),
            final(normalized)@.start == old(normalized)@.start,
            final(normalized)@.end == old(normalized)@.end,
    {
        let text = String::from_str(normalized.get());
        let matches = self.word_regex.find_words(text.as_str());
        let ghost ws = word_texts(text@);
        let mut joined = String::new();
        let mut k: usize = 0;
        proof {
            assert(ws.take(0) =~= Seq::<Seq<char>>::empty());
        }
        while k < matches.len()
            invariant
                k <= matches.len(),
                matches@.len() == ws.len(),
                ws == word_texts(text@),
                forall|t: int|
                    0 <= t < matches@.len() ==> (#[trigger] matches@[t]).text@ == span_text(
                        text@,
                        word_spans(text@)[t],
                    ),
                joined@ == join_processed(ws.take(k as int)),
            decreases matches.len() - k,
        {
            if k > 0 {
                joined.append(" ");
            }
            let p = self.process_word(matches[k].text.as_str());
            joined.append(p.as_str());
            proof {
                assert(ws[k as int] == span_text(text@, word_spans(text@)[k as int]));
                assert(matches@[k as int].text@ == ws[k as int]);
                lemma_join_push(ws.take(k as int), ws[k as int]);
                assert(ws.take(k as int).push(ws[k as int]) =~= ws.take(k as int + 1));
                if k > 0 {
                    assert(joined@ == (join_processed(ws.take(k as int)) + " "@) + processed_chars(
                        ws[k as int],
                        MarkerForm::NoSeparator,
                    ));
                    assert((join_processed(ws.take(k as int)) + " "@) + processed_chars(
                        ws[k as int],
                        MarkerForm::NoSeparator,
                    ) =~= join_processed(ws.take(k as int)) + " "@ + processed_chars(
                        ws[k as int],
                        MarkerForm::NoSeparator,
                    ));
                }
            }
            k += 1;
        }
        proof {
            assert(ws.take(ws.len() as int) =~= ws);
        }
        // An empty buffer has no word matches and the reconstruction is the
        // empty string it already holds, so there is nothing to edit.
        if text.as_str().unicode_len() == 0 {
            proof {
                assert(ws.len() == 0);
                assert(old(normalized)@.text =~= Seq::<char>::empty());
                assert(prefixed_text(old(normalized)@.text) =~= Seq::<char>::empty());
            }
            return Ok(());
        }
        let r = normalized.replace(text.as_str(), joined.as_str());
        proof {
            lemma_contains_self(text@);
            lemma_replace_whole(text@, joined@);
        }
        r
    }
}

} // verus!
