//! The text-segment model: a text together with the byte range of the
//! original input it stands for, a verified substring replacement, and the
//! offset-translating slice that carves sub-segments out of a segment.

use vstd::prelude::*;

verus! {

use vstd::string::StrSliceExecFns;
use vstd::string::StringExecFns;
use vstd::utf8::encode_utf8;
use crate::chars::byte_index;
use crate::chars::char_utf8_len;
use crate::chars::lemma_byte_index_step;
use crate::chars::lemma_byte_index_mono;
use crate::chars::lemma_byte_index_full;
use crate::chars::lemma_byte_index_injective;

/// The failures a rewrite can surface. Both are internal-contract
/// violations of the collaborating abstractions; neither is retried.
#[derive(Clone, Copy, Debug, PartialEq, Eq, Structural)]
pub enum PrefixError {
    /// The substring handed to `replace` does not occur in the text.
    MissingTarget,
    /// A local byte range could not be translated into a sub-segment.
    SliceFailed,
}

/// Ghost image of a segment: its text and the byte range `[start, end)` of
/// the original input it stands for.
pub struct SegView {
    pub text: Seq<char>,
    pub start: int,
    pub end: int,
}

impl SegView {
    /// The segment's text maps one-to-one onto its original byte range: the
    /// text's encoded length equals the range's length. A fresh segment is
    /// aligned; a rewrite that changes the text's length breaks this.
    pub open spec fn aligned(self) -> bool {
        self.start <= self.end && encode_utf8(self.text).len() == self.end - self.start
    }
}

/// A text and the byte range of the one original input it derives from.
/// Rewrites change the text; the range keeps denoting the original span.
pub struct NormalizedString {
    pub text: String,
    pub start: usize,
    pub end: usize,
}

impl View for NormalizedString {
    type V = SegView;

    open spec fn view(&self) -> SegView {
        SegView { text: self.text@, start: self.start as int, end: self.end as int }
    }
}

/// Whether `pat` occurs in `s`, scanning left to right.
pub open spec fn contains_seq(s: Seq<char>, pat: Seq<char>) -> bool
    decreases s.len(),
{
    if pat.len() == 0 {
        true
    } else if s.len() < pat.len() {
        false
    } else if s.take(pat.len() as int) == pat {
        true
    } else {
        contains_seq(s.skip(1), pat)
    }
}

/// `s` with every occurrence of `pat` replaced by `rep`: leftmost first,
/// non-overlapping, the remainder rescanned after each replacement.
pub open spec fn replace_seq(s: Seq<char>, pat: Seq<char>, rep: Seq<char>) -> Seq<char>
    decreases s.len(),
{
    if pat.len() == 0 {
        s
    } else if s.len() < pat.len() {
        s
    } else if s.take(pat.len() as int) == pat {
        rep + replace_seq(s.skip(pat.len() as int), pat, rep)
    } else {
        seq![s[0]] + replace_seq(s.skip(1), pat, rep)
    }
}

/// A non-empty text contains itself.
pub proof fn lemma_contains_self(s: Seq<char>)
    requires
        s.len() > 0,
    ensures
        contains_seq(s, s),
{
    assert(s.take(s.len() as int) =~= s);
}

/// Replacing the whole text yields the replacement alone.
pub proof fn lemma_replace_whole(s: Seq<char>, rep: Seq<char>)
    requires
        s.len() > 0,
    ensures
        replace_seq(s, s, rep) == rep,
{
    assert(s.take(s.len() as int) =~= s);
    assert(s.skip(s.len() as int) =~= Seq::<char>::empty());
    assert(replace_seq(s, s, rep) == rep + replace_seq(Seq::<char>::empty(), s, rep));
    assert(rep + Seq::<char>::empty() =~= rep);
}

fn prefix_matches(s: &str, pat: &str, i: usize) -> (b: bool)
    requires
        i + pat@.len() <= s@.len(),
    ensures
        b == (s@.subrange(i as int, i + pat@.len()) == pat@),
{
    let n = s.unicode_len();
    let m = pat.unicode_len();
    let mut j: usize = 0;
    while j < m
        invariant
            j <= m,
            n == s@.len(),
            m == pat@.len(),
            i + m <= n,
            forall|k: int| 0 <= k < j ==> s@[i + k] == #[trigger] pat@[k],
        decreases m - j,
    {
        if s.get_char(i + j) != pat.get_char(j) {
            proof {
                assert(s@.subrange(i as int, i + pat@.len())[j as int] == s@[i + j]);
            }
            return false;
        }
        j += 1;
    }
    proof {
        assert(s@.subrange(i as int, i + pat@.len()) =~= pat@);
    }
    true
}

fn contains_str(s: &str, pat: &str) -> (b: bool)
    ensures
        b == contains_seq(s@, pat@),
{
    let n = s.unicode_len();
    let m = pat.unicode_len();
    if m == 0 {
        return true;
    }
    let mut i: usize = 0;
    proof {
        assert(s@.skip(0) =~= s@);
    }
    while i <= n && m <= n - i
        invariant
            i <= n,
            n == s@.len(),
            m == pat@.len(),
            m >= 1,
            contains_seq(s@, pat@) == contains_seq(s@.skip(i as int), pat@),
        decreases n - i,
    {
        if prefix_matches(s, pat, i) {
            proof {
                assert(s@.skip(i as int).take(m as int) =~= s@.subrange(i as int, i + m));
            }
            return true;
        }
        proof {
            assert(s@.skip(i as int).take(m as int) =~= s@.subrange(i as int, i + m));
            assert(s@.skip(i as int).skip(1) =~= s@.skip(i + 1));
        }
        i += 1;
    }
    proof {
        assert(s@.skip(i as int).len() < m as int);
    }
    false
}

fn replace_str(s: &str, pat: &str, rep: &str) -> (r: String)
    requires
        pat@.len() > 0,
    ensures
        r@ == replace_seq(s@, pat@, rep@),
{
    let n = s.unicode_len();
    let m = pat.unicode_len();
    let mut out = String::new();
    let mut i: usize = 0;
    proof {
        assert(s@.skip(0) =~= s@);
    }
    while i < n
        invariant
            i <= n,
            n == s@.len(),
            m == pat@.len(),
            m >= 1,
            replace_seq(s@, pat@, rep@) == out@ + replace_seq(s@.skip(i as int), pat@, rep@),
        decreases n - i,
    {
        let ghost pre = s@.skip(i as int);
        let ghost out_pre = out@;
        if m <= n - i && prefix_matches(s, pat, i) {
            out.append(rep);
            proof {
                assert(pre.take(m as int) =~= s@.subrange(i as int, i + m));
                assert(pre.take(m as int) == pat@);
                assert(pre.skip(m as int) =~= s@.skip(i + m));
                assert(replace_seq(pre, pat@, rep@) == rep@ + replace_seq(s@.skip(i + m), pat@, rep@));
                assert(out_pre + (rep@ + replace_seq(s@.skip(i + m), pat@, rep@)) =~= (out_pre
                    + rep@) + replace_seq(s@.skip(i + m), pat@, rep@));
            }
            i += m;
        } else {
            out.append(s.substring_char(i, i + 1));
            proof {
                assert(s@.subrange(i as int, i + 1) =~= seq![s@[i as int]]);
                assert(pre[0] == s@[i as int]);
                assert(pre.skip(1) =~= s@.skip(i + 1));
                if m <= pre.len() {
                    assert(pre.take(m as int) =~= s@.subrange(i as int, i + m));
                    assert(pre.take(m as int) != pat@);
                    assert(replace_seq(pre, pat@, rep@) == seq![pre[0]] + replace_seq(
                        pre.skip(1),
                        pat@,
                        rep@,
                    ));
                } else {
                    assert(replace_seq(pre, pat@, rep@) == pre);
                    assert(s@.skip(i + 1).len() < m as int);
                    assert(replace_seq(s@.skip(i + 1), pat@, rep@) == s@.skip(i + 1));
                    assert(pre =~= seq![pre[0]] + pre.skip(1));
                }
                assert(out_pre + (seq![s@[i as int]] + replace_seq(s@.skip(i + 1), pat@, rep@))
                    =~= (out_pre + seq![s@[i as int]]) + replace_seq(s@.skip(i + 1), pat@, rep@));
            }
            i += 1;
        }
    }
    proof {
        assert(s@.skip(n as int).len() == 0);
        assert(replace_seq(s@.skip(n as int), pat@, rep@) == s@.skip(n as int));
        assert(out@ + s@.skip(n as int) =~= out@);
    }
    out
}

/// `ci` is the character index at which byte offset `b` falls in the UTF-8
/// encoding of `s`.
pub open spec fn is_cut(s: Seq<char>, ci: int, b: int) -> bool {
    0 <= ci <= s.len() && byte_index(s, ci) == b
}

/// Some character index of `s` sits at byte offset `b`.
pub open spec fn has_cut(s: Seq<char>, b: int) -> bool {
    exists|ci: int| is_cut(s, ci, b)
}

/// The character index of `s` sitting at byte offset `b`; meaningful only
/// when `has_cut(s, b)`, and then unique.
pub open spec fn cut_of(s: Seq<char>, b: int) -> int {
    choose|ci: int| is_cut(s, ci, b)
}

fn byte_to_char_index(s: &str, b: usize) -> (r: Option<usize>)
    ensures
        r matches Some(ci) ==> ci <= s@.len() && byte_index(s@, ci as int) == b,
        r is None ==> !has_cut(s@, b as int),
{
    let n = s.unicode_len();
    let total = crate::chars::str_byte_len(s);
    proof {
        lemma_byte_index_full(s@);
    }
    let mut ci: usize = 0;
    let mut pos: usize = 0;
    while ci < n && pos < b
        invariant
            ci <= n,
            n == s@.len(),
            total == encode_utf8(s@).len(),
            pos == byte_index(s@, ci as int),
            forall|cj: int| 0 <= cj < ci ==> byte_index(s@, cj) < b,
        decreases n - ci,
    {
        proof {
            lemma_byte_index_step(s@, ci as int);
            lemma_byte_index_mono(s@, ci as int + 1, n as int);
            lemma_byte_index_full(s@);
        }
        let w = char_utf8_len(s.get_char(ci));
        proof {
            assert(pos + w == byte_index(s@, ci as int + 1));
            assert forall|cj: int| 0 <= cj < ci + 1 implies byte_index(s@, cj) < b by {
                if cj == ci as int {
                    assert(byte_index(s@, cj) == pos);
                }
            }
        }
        pos = pos + w;
        ci = ci + 1;
    }
    if pos == b {
        Some(ci)
    } else {
        proof {
            assert forall|cj: int| 0 <= cj <= s@.len() implies byte_index(s@, cj) != b by {
                if cj < ci as int {
                } else {
                    lemma_byte_index_mono(s@, ci as int, cj);
                    if ci < n {
                        assert(pos > b);
                    } else {
                        lemma_byte_index_mono(s@, cj, n as int);
                    }
                }
            }
        }
        None
    }
}

impl NormalizedString {
    /// Wrap a fresh input text: the whole of it, standing for its own full
    /// byte range.
    pub fn from(s: &str) -> (r: NormalizedString)
        ensures
            r@.text == s@,
            r@.start == 0,
            r@.end == encode_utf8(s@).len(),
            r@.aligned(),
    {
        let len = crate::chars::str_byte_len(s);
        NormalizedString { text: s.to_owned(), start: 0, end: len }
    }

    /// The current text.
    pub fn get(&self) -> (r: &str)
        ensures
            r@ == self@.text,
    {
        self.text.as_str()
    }

    /// Replace every occurrence of `target` in the current text by
    /// `replacement`, in a single edit. The segment's offsets are untouched:
    /// the new text still stands for the same original range. Fails, leaving
    /// the segment unchanged, exactly when `target` is empty or does not
    /// occur.
    pub fn replace(&mut self, target: &str, replacement: &str) -> (r: Result<(), PrefixError>)
        ensures
            r is Ok <==> (target@.len() > 0 && contains_seq(old(self)@.text, target@)),
            r is Ok ==> final(self)@.text == replace_seq(old(self)@.text, target@, replacement@),
            r is Ok ==> final(self)@.start == old(self)@.start && final(self)@.end == old(
                self,
            )@.end,
            r is Err ==> *final(self) == *old(self) && r == Err::<(), PrefixError>(
                PrefixError::MissingTarget,
            ),
    {
        if target.unicode_len() == 0 {
            return Err(PrefixError::MissingTarget);
        }
        if !contains_str(self.text.as_str(), target) {
            return Err(PrefixError::MissingTarget);
        }
        let new_text = replace_str(self.text.as_str(), target, replacement);
        self.text = new_text;
        Ok(())
    }

    /// Carve out the sub-segment for the local byte range `[lo, hi)` of the
    /// current text, translating it to the matching byte range of the
    /// original input. Succeeds exactly when the segment is aligned and the
    /// range falls on character boundaries; the sub-segment's text is the
    /// sliced text and its offsets denote the original's bytes.
    pub fn slice(&self, lo: usize, hi: usize) -> (r: Option<NormalizedString>)
        ensures
            r is Some <==> (self@.aligned() && lo <= hi && has_cut(self@.text, lo as int)
                && has_cut(self@.text, hi as int)),
            r matches Some(sub) ==> sub@.text == self@.text.subrange(
                cut_of(self@.text, lo as int),
                cut_of(self@.text, hi as int),
            ) && sub@.start == self@.start + lo && sub@.end == self@.start + hi,
    {
        if self.start > self.end {
            return None;
        }
        let text_bytes = crate::chars::str_byte_len(self.text.as_str());
        if text_bytes != self.end - self.start {
            return None;
        }
        if lo > hi {
            return None;
        }
        let clo = byte_to_char_index(self.text.as_str(), lo);
        let chi = byte_to_char_index(self.text.as_str(), hi);
        match (clo, chi) {
            (Some(a), Some(b)) => {
                proof {
                    if a > b {
                        lemma_byte_index_mono(self.text@, b as int, a as int);
                    }
                    assert(is_cut(self.text@, a as int, lo as int));
                    assert(is_cut(self.text@, b as int, hi as int));
                    let ca = cut_of(self.text@, lo as int);
                    assert(is_cut(self.text@, ca, lo as int));
                    lemma_byte_index_injective(self.text@, ca, a as int);
                    let cb = cut_of(self.text@, hi as int);
                    assert(is_cut(self.text@, cb, hi as int));
                    lemma_byte_index_injective(self.text@, cb, b as int);
                    lemma_byte_index_mono(self.text@, b as int, self.text@.len() as int);
                    lemma_byte_index_full(self.text@);
                }
                let sub_text = String::from_str(self.text.as_str().substring_char(a, b));
                Some(NormalizedString { text: sub_text, start: self.start + lo, end: self.start + hi })
            },
            _ => None,
        }
    }
}

} // verus!
