//! The pre-tokenized model: one original input text and the sequence of
//! segments currently standing for it, each segment mapping back to a byte
//! range of that original.

use vstd::prelude::*;

verus! {

use vstd::string::StringExecFns;
use vstd::utf8::encode_utf8;
use crate::normalized::NormalizedString;
use crate::normalized::SegView;

/// An original input text and its current segments, in order. A splitting
/// rewrite replaces each segment by its sub-segments, concatenated across
/// all segments.
pub struct PreTokenizedString {
    pub original: String,
    pub splits: Vec<NormalizedString>,
}

impl PreTokenizedString {
    /// The ghost images of the current segments, in order.
    pub open spec fn split_views(&self) -> Seq<SegView> {
        self.splits@.map_values(|n: NormalizedString| n@)
    }

    /// Wrap a fresh input: a single segment spanning the whole of it.
    pub fn from(s: &str) -> (r: PreTokenizedString)
        ensures
            r.original@ == s@,
            r.split_views() == seq![
                (SegView { text: s@, start: 0, end: encode_utf8(s@).len() as int }),
            ],
    {
        let first = NormalizedString::from(s);
        let r = PreTokenizedString { original: String::from_str(s), splits: vec![first] };
        proof {
            assert(r.split_views() =~= seq![
                (SegView { text: s@, start: 0, end: encode_utf8(s@).len() as int }),
            ]);
        }
        r
    }

    /// The current segments: each one's text and the byte range of the
    /// original input it stands for.
    pub fn get_splits(&self) -> (r: Vec<(String, (usize, usize))>)
        ensures
            r@.len() == self.split_views().len(),
            forall|k: int|
                0 <= k < r@.len() ==> {
                    &&& (#[trigger] r@[k]).0@ == self.split_views()[k].text
                    &&& r@[k].1.0 == self.split_views()[k].start
                    &&& r@[k].1.1 == self.split_views()[k].end
                },
    {
        let mut r: Vec<(String, (usize, usize))> = Vec::new();
        let mut k: usize = 0;
        while k < self.splits.len()
            invariant
                k <= self.splits@.len(),
                r@.len() == k,
                forall|t: int|
                    0 <= t < k ==> {
                        &&& (#[trigger] r@[t]).0@ == self.split_views()[t].text
                        &&& r@[t].1.0 == self.split_views()[t].start
                        &&& r@[t].1.1 == self.split_views()[t].end
                    },
            decreases self.splits@.len() - k,
        {
            let seg = &self.splits[k];
            r.push((String::from_str(seg.get()), (seg.start, seg.end)));
            k += 1;
        }
        r
    }
}

} // verus!
