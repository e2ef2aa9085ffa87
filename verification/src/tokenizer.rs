//! Sliding-window character n-grams.

use vstd::prelude::*;
use vstd::string::*;

verus! {

/// Width, in Unicode scalar values, of the window that `tokenize` slides over
/// its input.
pub const NGRAM_WIDTH: usize = 3;

/// The lowercase form that `str::to_lowercase` gives to a string.
pub uninterp spec fn lowercase(s: Seq<char>) -> Seq<char>;

/// How many windows of `width` scalar values fit into `len` scalar values.
pub open spec fn window_count(len: nat, width: nat) -> nat {
    if len >= width {
        (len - width + 1) as nat
    } else {
        0
    }
}

/// Every run of `width` consecutive scalar values of `s`, from left to right.
pub open spec fn windows(s: Seq<char>, width: nat) -> Seq<Seq<char>> {
    Seq::new(window_count(s.len(), width), |i: int| s.subrange(i, i + width))
}

/// The tokens of a text: each window of `NGRAM_WIDTH` scalar values, lowercased
/// on its own.
pub open spec fn tokens(s: Seq<char>) -> Seq<Seq<char>> {
    Seq::new(
        window_count(s.len(), NGRAM_WIDTH as nat),
        |i: int| lowercase(s.subrange(i, i + NGRAM_WIDTH)),
    )
}

/// The views of a vector of string slices.
pub open spec fn slice_views(v: Seq<&str>) -> Seq<Seq<char>> {
    Seq::new(v.len(), |i: int| v[i]@)
}

/// The views of a vector of strings.
pub open spec fn string_views(v: Seq<String>) -> Seq<Seq<char>> {
    Seq::new(v.len(), |i: int| v[i]@)
}

/// Calls `str::to_lowercase`. The result is trusted to be a function of the
/// argument's characters alone; nothing else is claimed of it.
#[verifier::external_body]
fn to_lowercase(s: &str) -> (out: String)
    ensures
        out@ == lowercase(s@),
{
    s.to_lowercase()
}

/// All windows of `win_size` scalar values over `src`, in order. A window never
/// splits a scalar value.
pub fn char_windows<'a>(src: &'a str, win_size: usize) -> (out: Vec<&'a str>)
    requires
        win_size >= 1,
    ensures
        slice_views(out@) == windows(src@, win_size as nat),
        out@.len() == window_count(src@.len(), win_size as nat),
{
    let len: usize = src.unicode_len();
    let mut out: Vec<&'a str> = Vec::new();
    if len < win_size {
        assert(slice_views(out@) =~= windows(src@, win_size as nat));
        return out;
    }
    let count: usize = len - win_size + 1;
    let mut from: usize = 0;
    while from < count
        invariant
            win_size >= 1,
            len == src@.len(),
            len >= win_size,
            count == len - win_size + 1,
            from <= count,
            out@.len() == from,
            forall|i: int|
                0 <= i < from ==> (#[trigger] out@[i])@ == src@.subrange(i, i + win_size),
        decreases count - from,
    {
        let window: &'a str = src.substring_char(from, from + win_size);
        out.push(window);
        from += 1;
    }
    assert(slice_views(out@) =~= windows(src@, win_size as nat));
    out
}

/// Splits text into lowercase character n-grams.
#[derive(Clone, Copy, Debug, Default)]
pub struct NGramTokenizer;

impl NGramTokenizer {
    /// The tokens of `input_text`. Each window is lowercased independently of
    /// the others, so a case mapping that changes the number of scalar values
    /// cannot shift the windows. Text shorter than the window gives no token.
    pub fn tokenize(&self, input_text: &str) -> (out: Vec<String>)
        ensures
            string_views(out@) == tokens(input_text@),
            out@.len() == window_count(input_text@.len(), NGRAM_WIDTH as nat),
    {
        let wins: Vec<&str> = char_windows(input_text, NGRAM_WIDTH);
        let mut out: Vec<String> = Vec::new();
        let mut i: usize = 0;
        while i < wins.len()
            invariant
                slice_views(wins@) == windows(input_text@, NGRAM_WIDTH as nat),
                i <= wins@.len(),
                out@.len() == i,
                forall|j: int| 0 <= j < i ==> (#[trigger] out@[j])@ == lowercase(wins@[j]@),
            decreases wins@.len() - i,
        {
            out.push(to_lowercase(wins[i]));
            i += 1;
        }
        proof {
            let w = windows(input_text@, NGRAM_WIDTH as nat);
            assert(wins@.len() == w.len());
            assert forall|j: int| 0 <= j < out@.len() implies (#[trigger] out@[j])@ == tokens(
                input_text@,
            )[j] by {
                assert(slice_views(wins@)[j] == w[j]);
            }
            assert(string_views(out@) =~= tokens(input_text@));
        }
        out
    }
}

/// The windows of a text of at least `width` scalar values number its length
/// less `width`, plus one, a shorter text has none, and every window has
/// exactly `width` scalar values.
pub proof fn lemma_window_width(s: Seq<char>, width: nat)
    ensures
        s.len() >= width ==> windows(s, width).len() == s.len() - width + 1,
        s.len() < width ==> windows(s, width).len() == 0,
        forall|i: int| 0 <= i < windows(s, width).len() ==> (#[trigger] windows(s, width)[i]).len()
            == width,
{
}

/// A text shorter than the window has no token; the empty text is such a text.
pub proof fn lemma_short_text_has_no_tokens(s: Seq<char>)
    requires
        s.len() < NGRAM_WIDTH,
    ensures
        tokens(s) == Seq::<Seq<char>>::empty(),
{
    assert(tokens(s) =~= Seq::<Seq<char>>::empty());
}

/// The number of tokens of a text with at least `NGRAM_WIDTH` scalar values is
/// its length less `NGRAM_WIDTH`, plus one; every token is the lowercase form
/// of a window of exactly `NGRAM_WIDTH` scalar values.
pub proof fn lemma_token_count(s: Seq<char>)
    ensures
        s.len() >= NGRAM_WIDTH ==> tokens(s).len() == s.len() - NGRAM_WIDTH + 1,
        s.len() < NGRAM_WIDTH ==> tokens(s).len() == 0,
        forall|i: int|
            0 <= i < tokens(s).len() ==> {
                &&& #[trigger] tokens(s)[i] == lowercase(s.subrange(i, i + NGRAM_WIDTH))
                &&& s.subrange(i, i + NGRAM_WIDTH).len() == NGRAM_WIDTH
            },
{
}

/// Where lowercasing keeps the number of scalar values of a window, the token
/// made from that window has exactly `NGRAM_WIDTH` scalar values.
pub proof fn lemma_token_width(s: Seq<char>, i: int)
    requires
        0 <= i < tokens(s).len(),
        lowercase(s.subrange(i, i + NGRAM_WIDTH)).len() == s.subrange(i, i + NGRAM_WIDTH).len(),
    ensures
        tokens(s)[i].len() == NGRAM_WIDTH,
{
}

} // verus!
