//! Extraction of the list identifier from a sharable playlist URL.

use vstd::prelude::*;

verus! {

/// The characters on which a URL is split into segments.
pub open spec fn is_separator(c: char) -> bool {
    c == '/' || c == '?'
}

/// The index of the first separator in `s`, or `s.len()` if it has none.
pub open spec fn first_separator(s: Seq<char>) -> int
    decreases s.len(),
{
    if s.len() == 0 || is_separator(s[0]) {
        0
    } else {
        1 + first_separator(s.drop_first())
    }
}

/// The segments of `s` when it is split at every `/` and every `?`.
/// A string without separators is its own single segment; two adjacent
/// separators enclose an empty segment.
pub open spec fn split_segments(s: Seq<char>) -> Seq<Seq<char>>
    decreases s.len(),
{
    let end = first_separator(s);
    if 0 <= end < s.len() {
        seq![s.take(end)] + split_segments(s.skip(end + 1))
    } else {
        seq![s]
    }
}

/// The number of the segment that holds the list identifier in a sharable
/// URL of the form `scheme://host/playlist/<ID>?...`.
pub const PLAYLIST_ID_SEGMENT: usize = 4;

/// In a string whose first `k` characters are no separators and which ends
/// at `k` or has a separator there, the first separator is at `k`.
proof fn lemma_first_separator_at(s: Seq<char>, k: int)
    requires
        0 <= k <= s.len(),
        forall|i: int| 0 <= i < k ==> !is_separator(s[i]),
        k == s.len() || is_separator(s[k]),
    ensures
        first_separator(s) == k,
    decreases k,
{
    if k > 0 {
        lemma_first_separator_at(s.drop_first(), k - 1);
    }
}

fn is_separator_char(c: char) -> (b: bool)
    ensures
        b == is_separator(c),
{
    c == '/' || c == '?'
}

/// Returns segment number `n` (counted from 0) of `text` split at every `/`
/// and `?`, or `None` if the split has no such segment.
pub fn nth_segment(text: &str, n: usize) -> (r: Option<String>)
    ensures
        r is Some <==> n < split_segments(text@).len(),
        r matches Some(segment) ==> segment@ == split_segments(text@)[n as int],
{
    let len = text.unicode_len();
    let mut start: usize = 0;
    let mut seen: usize = 0;
    let mut pos: usize = 0;
    let ghost mut done: Seq<Seq<char>> = Seq::empty();
    proof {
        assert(text@.skip(0) =~= text@);
    }
    for c in it: text.chars()
        invariant
            it.seq() == text@,
            len == text@.len(),
            pos == it.index(),
            start <= pos <= len,
            seen <= n,
            done.len() == seen,
            split_segments(text@) == done + split_segments(text@.skip(start as int)),
            forall|i: int| start <= i < pos ==> !is_separator(text@[i]),
    {
        if is_separator_char(c) {
            let ghost rest = text@.skip(start as int);
            proof {
                lemma_first_separator_at(rest, pos - start);
                assert(rest.take(pos - start) =~= text@.subrange(start as int, pos as int));
                assert(rest.skip(pos - start + 1) =~= text@.skip(pos + 1));
            }
            if seen == n {
                return Some(text.substring_char(start, pos).to_owned());
            }
            proof {
                done = done.push(rest.take(pos - start));
                assert(done + split_segments(text@.skip(pos + 1)) =~= done.drop_last() + (seq![
                    rest.take(pos - start),
                ] + split_segments(text@.skip(pos + 1))));
            }
            seen = seen + 1;
            start = pos + 1;
        }
        pos = pos + 1;
    }
    proof {
        let rest = text@.skip(start as int);
        lemma_first_separator_at(rest, len - start);
        assert(rest =~= text@.subrange(start as int, len as int));
    }
    if seen == n {
        Some(text.substring_char(start, len).to_owned())
    } else {
        None
    }
}

/// Returns the list identifier of a sharable playlist URL: the segment
/// numbered `PLAYLIST_ID_SEGMENT` when the URL is split at every `/` and `?`.
/// No check is made on the shape of the identifier itself.
///
/// The URL must have that many segments; `playlist_id_from_url` is the
/// variant for URLs of unknown shape.
pub fn get_playlist_id_from_url(url: &str) -> (id: String)
    requires
        split_segments(url@).len() > PLAYLIST_ID_SEGMENT,
    ensures
        id@ == split_segments(url@)[PLAYLIST_ID_SEGMENT as int],
{
    nth_segment(url, PLAYLIST_ID_SEGMENT).unwrap()
}

/// Returns the list identifier of a sharable playlist URL, or `None` if the
/// URL has too few segments to hold one.
pub fn try_get_playlist_id_from_url(url: &str) -> (id: Option<String>)
    ensures
        id is Some <==> split_segments(url@).len() > PLAYLIST_ID_SEGMENT,
        id matches Some(text) ==> text@ == split_segments(url@)[PLAYLIST_ID_SEGMENT as int],
{
    nth_segment(url, PLAYLIST_ID_SEGMENT)
}

} // verus!
