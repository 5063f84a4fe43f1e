//! The segment prefixer: scans each existing segment for word matches and
//! replaces it by one sub-segment per match, whose text is the processed
//! word (trailing-space marker form) and whose offsets denote the matched
//! word's byte range in the original input. A segment without matches
//! survives unchanged; everything between matches is dropped.

use vstd::prelude::*;

verus! {

use crate::chars::byte_index;
use crate::chars::lemma_byte_index_mono;
use crate::classifier::MarkerForm;
use crate::classifier::classify;
use crate::classifier::processed_chars;
use crate::normalized::NormalizedString;
use crate::normalized::PrefixError;
use crate::normalized::SegView;
use crate::normalized::is_cut;
use crate::normalized::cut_of;
use crate::normalized::lemma_contains_self;
use crate::normalized::lemma_replace_whole;
use crate::pre_tokenized::PreTokenizedString;
use crate::words::WordPattern;
use crate::words::word_spans;
use crate::words::span_text;
use crate::words::lemma_word_spans_bounds;
use vstd::string::StringExecFns;

/// The sub-segments one segment turns into: itself when it has no word
/// matches, otherwise one sub-segment per match, carrying the processed
/// word as text and the match's original byte range as offsets.
pub open spec fn expected_subs(seg: SegView) -> Seq<SegView> {
    let sps = word_spans(seg.text);
    if sps.len() == 0 {
        seq![seg]
    } else {
        Seq::new(
            sps.len(),
            |k: int|
                (SegView {
                    text: processed_chars(span_text(seg.text, sps[k]), MarkerForm::TrailingSpace),
                    start: seg.start + byte_index(seg.text, sps[k].0),
                    end: seg.start + byte_index(seg.text, sps[k].1),
                }),
        )
    }
}

/// Whether the rewrite can carve this segment up: either there is nothing
/// to carve, or the segment is aligned so that its local match ranges
/// translate to original byte ranges.
pub open spec fn can_split(seg: SegView) -> bool {
    word_spans(seg.text).len() == 0 || seg.aligned()
}

/// The concatenation of every segment's sub-segments, in order.
pub open spec fn expected_splits(segs: Seq<SegView>) -> Seq<SegView>
    decreases segs.len(),
{
    if segs.len() == 0 {
        Seq::empty()
    } else {
        expected_subs(segs[0]) + expected_splits(segs.drop_first())
    }
}

proof fn lemma_expected_splits_push(segs: Seq<SegView>, seg: SegView)
    ensures
        expected_splits(segs.push(seg)) == expected_splits(segs) + expected_subs(seg),
    decreases segs.len(),
{
    let p = segs.push(seg);
    if segs.len() == 0 {
        assert(p[0] == seg);
        assert(p.drop_first() =~= Seq::<SegView>::empty());
        assert(expected_subs(seg) + Seq::<SegView>::empty() =~= expected_subs(seg));
        assert(Seq::<SegView>::empty() + expected_subs(seg) =~= expected_subs(seg));
        assert(expected_splits(p) == expected_subs(seg) + expected_splits(p.drop_first()));
        assert(expected_splits(p.drop_first()) == Seq::<SegView>::empty());
        assert(expected_splits(segs) == Seq::<SegView>::empty());
        assert(expected_splits(segs.push(seg)) =~= expected_splits(segs) + expected_subs(seg));
    } else {
        assert(p[0] == segs[0]);
        assert(p.drop_first() =~= segs.drop_first().push(seg));
        lemma_expected_splits_push(segs.drop_first(), seg);
        assert(expected_subs(segs[0]) + (expected_splits(segs.drop_first()) + expected_subs(seg))
            =~= (expected_subs(segs[0]) + expected_splits(segs.drop_first())) + expected_subs(
            seg,
        ));
        assert(expected_splits(p) == expected_subs(segs[0]) + expected_splits(p.drop_first()));
        assert(expected_splits(p.drop_first()) == expected_splits(segs.drop_first().push(seg)));
        assert(expected_splits(segs) == expected_subs(segs[0]) + expected_splits(
            segs.drop_first(),
        ));
        assert(expected_splits(segs.push(seg)) =~= expected_splits(segs) + expected_subs(seg));
    }
}

/// Law: a segment whose text has no word matches is returned unchanged, as
/// exactly one output segment.
pub proof fn lemma_zero_match_segment(seg: SegView)
    ensures
        word_spans(seg.text).len() == 0 ==> expected_subs(seg) == seq![seg],
{
}

/// The segment prefixer. Holds only the compiled word pattern, built once
/// at construction and then only read; two instances behave identically.
pub struct CasingPrefix {
    word_regex: WordPattern,
}

impl PartialEq for CasingPrefix {
    /// Equality is structural and trivially true: the only internal state is
    /// the compiled pattern, identical in every instance.
    fn eq(&self, _other: &CasingPrefix) -> (r: bool) {
        true
    }
}

impl vstd::std_specs::cmp::PartialEqSpecImpl for CasingPrefix {
    open spec fn obeys_eq_spec() -> bool {
        true
    }

    open spec fn eq_spec(&self, _other: &CasingPrefix) -> bool {
        true
    }
}

impl Default for CasingPrefix {
    /// A fresh prefixer, as `new` builds it.
    fn default() -> (r: CasingPrefix) {
        CasingPrefix::new()
    }
}

impl CasingPrefix {
    /// A fresh prefixer with a freshly compiled word pattern.
    pub fn new() -> (r: CasingPrefix) {
        CasingPrefix { word_regex: WordPattern::new() }
    }

    /// Classify one word and render it in the trailing-space form: the word
    /// itself for the trivial categories, otherwise the marker, one space,
    /// then the lowercased word.
    pub fn process_word(&self, word: &str) -> (r: String)
        ensures
            r@ == processed_chars(word@, MarkerForm::TrailingSpace),
    {
        classify(word, MarkerForm::TrailingSpace).text
    }

    /// Replace every segment by its word-match sub-segments, offsets mapped
    /// back to the original input; a segment without matches survives
    /// unchanged. Fails — leaving the whole structure untouched — exactly
    /// when some segment with matches cannot be carved up, because its text
    /// no longer lines up with its original byte range.
    pub fn pre_tokenize(&self, pretokenized: &mut PreTokenizedString) -> (r: Result<
        (),
        PrefixError,
    >)
        ensures
            r is Ok <==> (forall|j: int|
                0 <= j < old(pretokenized).split_views().len() ==> can_split(
                    #[trigger] old(pretokenized).split_views()[j],
                )),
            r is Ok ==> final(pretokenized).split_views() == expected_splits(
                old(pretokenized).split_views(),
            ) && final(pretokenized).original@ == old(pretokenized).original@,
            r is Err ==> *final(pretokenized) == *old(pretokenized) && r == Err::<
                (),
                PrefixError,
            >(PrefixError::SliceFailed),
    {
        let ghost views = pretokenized.split_views();
        let mut new_splits: Vec<NormalizedString> = Vec::new();
        let mut j: usize = 0;
        proof {
            assert(views.take(0) =~= Seq::<SegView>::empty());
            assert(new_splits@.map_values(|n: NormalizedString| n@) =~= Seq::<SegView>::empty());
        }
        while j < pretokenized.splits.len()
            invariant
                j <= pretokenized.splits@.len(),
                *pretokenized == *old(pretokenized),
                views == pretokenized.split_views(),
                new_splits@.map_values(|n: NormalizedString| n@) == expected_splits(
                    views.take(j as int),
                ),
                forall|t: int| 0 <= t < j ==> can_split(#[trigger] views[t]),
            decreases pretokenized.splits@.len() - j,
        {
            let seg = &pretokenized.splits[j];
            let ghost s = seg@.text;
            proof {
                assert(views[j as int] == seg@);
            }
            let matches = self.word_regex.find_words(seg.get());
            let ghost sps = word_spans(s);
            proof {
                lemma_word_spans_bounds(s);
            }
            if matches.len() == 0 {
                let copy = NormalizedString {
                    text: String::from_str(seg.get()),
                    start: seg.start,
                    end: seg.end,
                };
                proof {
                    assert(copy@ == views[j as int]);
                    assert(expected_subs(views[j as int]) == seq![views[j as int]]);
                    lemma_expected_splits_push(views.take(j as int), views[j as int]);
                    assert(views.take(j as int).push(views[j as int]) =~= views.take(j as int + 1));
                    assert(new_splits@.push(copy).map_values(|n: NormalizedString| n@)
                        =~= new_splits@.map_values(|n: NormalizedString| n@) + seq![copy@]);
                    assert(expected_splits(views.take(j as int)) + seq![views[j as int]]
                        =~= expected_splits(views.take(j as int)) + expected_subs(
                        views[j as int],
                    ));
                }
                new_splits.push(copy);
            } else {
                let mut k: usize = 0;
                while k < matches.len()
                    invariant
                        k <= matches@.len(),
                        *pretokenized == *old(pretokenized),
                        views == pretokenized.split_views(),
                        j < pretokenized.splits@.len(),
                        seg == &pretokenized.splits@[j as int],
                        s == seg@.text,
                        views[j as int] == seg@,
                        sps == word_spans(s),
                        matches@.len() == sps.len(),
                        sps.len() > 0,
                        forall|t: int|
                            0 <= t < matches@.len() ==> {
                                &&& (#[trigger] matches@[t]).start == byte_index(s, sps[t].0)
                                &&& matches@[t].end == byte_index(s, sps[t].1)
                                &&& matches@[t].text@ == span_text(s, sps[t])
                            },
                        forall|t: int|
                            0 <= t < sps.len() ==> {
                                let sp = #[trigger] sps[t];
                                0 <= sp.0 < sp.1 <= s.len()
                            },
                        k > 0 ==> seg@.aligned(),
                        new_splits@.map_values(|n: NormalizedString| n@) == expected_splits(
                            views.take(j as int),
                        ) + expected_subs(views[j as int]).take(k as int),
                        forall|t: int| 0 <= t < j ==> can_split(#[trigger] views[t]),
                    decreases matches@.len() - k,
                {
                    let ghost sp = sps[k as int];
                    proof {
                        assert(is_cut(s, sp.0, byte_index(s, sp.0)));
                        assert(is_cut(s, sp.1, byte_index(s, sp.1)));
                        lemma_byte_index_mono(s, sp.0, sp.1);
                    }
                    let m_start = matches[k].start;
                    let m_end = matches[k].end;
                    match seg.slice(m_start, m_end) {
                        None => {
                            proof {
                                assert(!seg@.aligned());
                                assert(!can_split(views[j as int]));
                            }
                            return Err(PrefixError::SliceFailed);
                        },
                        Some(sub) => {
                            let mut sub = sub;
                            proof {
                                let ca = cut_of(s, m_start as int);
                                assert(is_cut(s, ca, m_start as int));
                                crate::chars::lemma_byte_index_injective(s, ca, sp.0);
                                let cb = cut_of(s, m_end as int);
                                assert(is_cut(s, cb, m_end as int));
                                crate::chars::lemma_byte_index_injective(s, cb, sp.1);
                                assert(sub@.text == span_text(s, sp));
                                assert(sub@.text == matches@[k as int].text@);
                            }
                            let processed = self.process_word(matches[k].text.as_str());
                            let rr = sub.replace(matches[k].text.as_str(), processed.as_str());
                            proof {
                                assert(matches@[k as int].text@.len() == sp.1 - sp.0);
                                lemma_contains_self(matches@[k as int].text@);
                                lemma_replace_whole(matches@[k as int].text@, processed@);
                                assert(rr is Ok);
                                let expect = expected_subs(views[j as int]);
                                assert(expect[k as int] == (SegView {
                                    text: processed_chars(
                                        span_text(s, sp),
                                        MarkerForm::TrailingSpace,
                                    ),
                                    start: seg@.start + byte_index(s, sp.0),
                                    end: seg@.start + byte_index(s, sp.1),
                                }));
                                assert(sub@ == expect[k as int]);
                                assert(new_splits@.push(sub).map_values(|n: NormalizedString| n@)
                                    =~= new_splits@.map_values(|n: NormalizedString| n@) + seq![
                                    sub@,
                                ]);
                                assert(expect.take(k as int).push(expect[k as int]) =~= expect.take(
                                    k as int + 1,
                                ));
                                assert((expected_splits(views.take(j as int)) + expect.take(
                                    k as int,
                                )) + seq![sub@] =~= expected_splits(views.take(j as int))
                                    + expect.take(k as int + 1));
                            }
                            new_splits.push(sub);
                        },
                    }
                    k += 1;
                }
                proof {
                    assert(seg@.aligned());
                    assert(can_split(views[j as int]));
                    lemma_expected_splits_push(views.take(j as int), views[j as int]);
                    assert(views.take(j as int).push(views[j as int]) =~= views.take(j as int + 1));
                    assert(expected_subs(views[j as int]).take(matches@.len() as int)
                        =~= expected_subs(views[j as int]));
                }
            }
            j += 1;
        }
        proof {
            assert(views.take(views.len() as int) =~= views);
        }
        pretokenized.splits = new_splits;
        Ok(())
    }
}

} // verus!
