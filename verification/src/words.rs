//! Word boundaries of a text.
//!
//! A text is a sequence of scalar values. Its words are cut at separators:
//! each word runs up to and including its trailing separator, and whatever
//! follows the last separator is the final word.

use core::ops::Range;
use vstd::prelude::*;
use vstd::slice::slice_subrange;

verus! {

/// The one character that ends a word.
pub const SEPARATOR: char = ' ';

/// The positions just past each separator of `text`, in increasing order.
pub open spec fn separator_ends(text: Seq<char>) -> Seq<int>
    decreases text.len(),
{
    if text.len() == 0 {
        Seq::empty()
    } else if text.last() == SEPARATOR {
        separator_ends(text.drop_last()).push(text.len() as int)
    } else {
        separator_ends(text.drop_last())
    }
}

/// The exclusive end offset of every word of `text`: the position just past
/// each separator, and the end of the text for a last word without one.
pub open spec fn word_ends(text: Seq<char>) -> Seq<int> {
    if text.len() > 0 && text.last() != SEPARATOR {
        separator_ends(text).push(text.len() as int)
    } else {
        separator_ends(text)
    }
}

/// Offsets held as machine integers, read as mathematical ones.
pub open spec fn as_ints(v: Seq<usize>) -> Seq<int> {
    v.map_values(|e: usize| e as int)
}

/// Reading as integers goes through `push`.
pub proof fn lemma_as_ints_push(v: Seq<usize>, x: usize)
    ensures
        as_ints(v.push(x)) == as_ints(v).push(x as int),
{
    assert(as_ints(v.push(x)) =~= as_ints(v).push(x as int));
}

/// Reading as integers goes through `update`.
pub proof fn lemma_as_ints_update(v: Seq<usize>, i: int, x: usize)
    requires
        0 <= i < v.len(),
    ensures
        as_ints(v.update(i, x)) == as_ints(v).update(i, x as int),
{
    assert(as_ints(v.update(i, x)) =~= as_ints(v).update(i, x as int));
}

/// Where word `k` starts, given the end offsets of all words.
pub open spec fn word_start(ends: Seq<int>, k: int) -> int {
    if k == 0 {
        0
    } else {
        ends[k - 1]
    }
}

/// Word `k` of `text`, trailing separator included, given the end offsets.
pub open spec fn word_at(text: Seq<char>, ends: Seq<int>, k: int) -> Seq<char> {
    text.subrange(word_start(ends, k), ends[k])
}

/// `ends` is a list of cumulative end offsets into a text of length `len`:
/// it never decreases and stays within the text.
pub open spec fn offsets_within(ends: Seq<int>, len: int) -> bool {
    &&& forall|i: int, j: int| 0 <= i <= j < ends.len() ==> ends[i] <= ends[j]
    &&& forall|i: int| 0 <= i < ends.len() ==> 0 <= #[trigger] ends[i] <= len
}

/// A separator put behind a text adds one separator end, the new length;
/// any other character adds none.
pub proof fn lemma_separator_ends_push(text: Seq<char>, c: char)
    ensures
        c == SEPARATOR ==> separator_ends(text.push(c)) == separator_ends(text).push(
            (text.len() + 1) as int,
        ),
        c != SEPARATOR ==> separator_ends(text.push(c)) == separator_ends(text),
{
    assert(text.push(c).drop_last() == text);
}

/// Every separator end lies inside the text, just past a separator, and the
/// ends strictly increase.
pub proof fn lemma_separator_ends_shape(text: Seq<char>)
    ensures
        separator_ends(text).len() <= text.len(),
        forall|k: int|
            0 <= k < separator_ends(text).len() ==> {
                &&& 0 < (#[trigger] separator_ends(text)[k]) <= text.len()
                &&& text[separator_ends(text)[k] - 1] == SEPARATOR
            },
        forall|i: int, j: int|
            0 <= i < j < separator_ends(text).len() ==> separator_ends(text)[i] < separator_ends(
                text,
            )[j],
    decreases text.len(),
{
    if text.len() > 0 {
        let shorter = text.drop_last();
        lemma_separator_ends_shape(shorter);
        assert forall|k: int| 0 <= k < separator_ends(text).len() implies {
            &&& 0 < (#[trigger] separator_ends(text)[k]) <= text.len()
            &&& text[separator_ends(text)[k] - 1] == SEPARATOR
        } by {
            if k < separator_ends(shorter).len() {
                assert(separator_ends(text)[k] == separator_ends(shorter)[k]);
                assert(shorter[separator_ends(shorter)[k] - 1] == text[separator_ends(shorter)[k]
                    - 1]);
            }
        }
        assert forall|i: int, j: int| 0 <= i < j < separator_ends(text).len() implies separator_ends(
            text,
        )[i] < separator_ends(text)[j] by {
            assert(separator_ends(text)[i] == separator_ends(shorter)[i]);
            if j < separator_ends(shorter).len() {
                assert(separator_ends(text)[j] == separator_ends(shorter)[j]);
            }
        }
    }
}

/// Every position just past a separator is one of the separator ends.
pub proof fn lemma_separator_ends_complete(text: Seq<char>, p: int)
    requires
        0 < p <= text.len(),
        text[p - 1] == SEPARATOR,
    ensures
        separator_ends(text).contains(p),
    decreases text.len(),
{
    let shorter = text.drop_last();
    if p == text.len() {
        assert(separator_ends(text).last() == p);
    } else {
        lemma_separator_ends_complete(shorter, p);
        let k = choose|k: int| 0 <= k < separator_ends(shorter).len() && separator_ends(shorter)[k] == p;
        assert(separator_ends(text)[k] == p);
    }
}

/// The word ends of a text strictly increase, each lies just past a
/// separator or at the end of the text, and for a text that is not empty
/// the last one is the length of the text.
pub proof fn lemma_word_ends_shape(text: Seq<char>)
    ensures
        word_ends(text).len() <= text.len(),
        text.len() == 0 <==> word_ends(text).len() == 0,
        text.len() > 0 ==> word_ends(text).last() == text.len(),
        offsets_within(word_ends(text), text.len() as int),
        forall|i: int, j: int|
            0 <= i < j < word_ends(text).len() ==> word_ends(text)[i] < word_ends(text)[j],
        forall|k: int|
            0 <= k < word_ends(text).len() ==> {
                &&& 0 < (#[trigger] word_ends(text)[k]) <= text.len()
                &&& (word_ends(text)[k] == text.len() || text[word_ends(text)[k] - 1] == SEPARATOR)
            },
{
    lemma_separator_ends_shape(text);
    if text.len() > 0 && text.last() == SEPARATOR {
        assert(separator_ends(text).last() == text.len());
    }
    if text.len() > 0 && text.last() != SEPARATOR {
        lemma_separator_ends_shape(text.drop_last());
        assert forall|i: int, j: int| 0 <= i < j < word_ends(text).len() implies word_ends(text)[i]
            < word_ends(text)[j] by {
            let e = separator_ends(text)[i];
            assert(text[e - 1] == SEPARATOR);
        }
    }
}

/// The scan step that turns cumulative end offsets into ranges: the range
/// runs from the end seen before to this one, which becomes the new start.
pub fn lens_to_ranges(start: &mut usize, end: &usize) -> (r: Option<Range<usize>>)
    ensures
        r == Some(Range { start: *old(start), end: *end }),
        *final(start) == *end,
{
    let begin: usize = *start;
    *start = *end;
    Some(begin..*end)
}

/// The half-open range of every word, from its cumulative end offsets.
pub fn word_ranges(ends: &Vec<usize>) -> (ranges: Vec<Range<usize>>)
    ensures
        ranges@.len() == ends@.len(),
        forall|k: int|
            0 <= k < ends@.len() ==> {
                &&& (#[trigger] ranges@[k]).start == word_start(as_ints(ends@), k)
                &&& ranges@[k].end == ends@[k]
            },
{
    let mut ranges: Vec<Range<usize>> = Vec::new();
    let mut start: usize = 0;
    let mut k: usize = 0;
    while k < ends.len()
        invariant
            k <= ends@.len(),
            ranges@.len() == k,
            start as int == word_start(as_ints(ends@), k as int),
            forall|i: int|
                0 <= i < k ==> {
                    &&& (#[trigger] ranges@[i]).start == word_start(as_ints(ends@), i)
                    &&& ranges@[i].end == ends@[i]
                },
        decreases ends@.len() - k,
    {
        match lens_to_ranges(&mut start, &ends[k]) {
            Some(range) => ranges.push(range),
            None => {},
        }
        k = k + 1;
    }
    ranges
}

/// The words of `text`, cut at the cumulative end offsets `ends`.
pub fn word_slices<'a>(text: &'a [char], ends: &Vec<usize>) -> (words: Vec<&'a [char]>)
    requires
        offsets_within(as_ints(ends@), text@.len() as int),
    ensures
        words@.len() == ends@.len(),
        forall|k: int|
            0 <= k < ends@.len() ==> (#[trigger] words@[k])@ == word_at(text@, as_ints(ends@), k),
{
    let ranges = word_ranges(ends);
    let mut words: Vec<&'a [char]> = Vec::new();
    let mut k: usize = 0;
    while k < ranges.len()
        invariant
            k <= ranges@.len(),
            ranges@.len() == ends@.len(),
            words@.len() == k,
            offsets_within(as_ints(ends@), text@.len() as int),
            forall|i: int|
                0 <= i < ends@.len() ==> {
                    &&& (#[trigger] ranges@[i]).start == word_start(as_ints(ends@), i)
                    &&& ranges@[i].end == ends@[i]
                },
            forall|i: int|
                0 <= i < k ==> (#[trigger] words@[i])@ == word_at(text@, as_ints(ends@), i),
        decreases ranges@.len() - k,
    {
        let start: usize = ranges[k].start;
        let end: usize = ranges[k].end;
        proof {
            let ints = as_ints(ends@);
            assert(ints[k as int] == end);
            if k > 0 {
                assert(ints[k - 1] <= ints[k as int]);
            }
        }
        words.push(slice_subrange(text, start, end));
        k = k + 1;
    }
    words
}

/// Whether two slices hold the same characters.
pub fn same_chars(a: &[char], b: &[char]) -> (same: bool)
    ensures
        same == (a@ == b@),
{
    if a.len() != b.len() {
        return false;
    }
    let mut i: usize = 0;
    while i < a.len()
        invariant
            i <= a@.len(),
            a@.len() == b@.len(),
            forall|j: int| 0 <= j < i ==> a@[j] == b@[j],
        decreases a@.len() - i,
    {
        if a[i] != b[i] {
            return false;
        }
        i = i + 1;
    }
    proof {
        assert(a@ =~= b@);
    }
    true
}

/// The end offset of every word of `text`, found by scanning for separators.
pub fn word_offsets(text: &[char]) -> (ends: Vec<usize>)
    ensures
        as_ints(ends@) == word_ends(text@),
{
    let mut ends: Vec<usize> = Vec::new();
    let n: usize = text.len();
    let mut i: usize = 0;
    while i < n
        invariant
            i <= n,
            n == text@.len(),
            as_ints(ends@) == separator_ends(text@.take(i as int)),
        decreases n - i,
    {
        proof {
            assert(text@.take(i + 1).drop_last() == text@.take(i as int));
        }
        if text[i] == SEPARATOR {
            ends.push(i + 1);
            proof {
                assert(as_ints(ends@) == separator_ends(text@.take(i + 1)));
            }
        }
        i = i + 1;
    }
    proof {
        assert(text@.take(n as int) == text@);
    }
    if n > 0 && text[n - 1] != SEPARATOR {
        ends.push(n);
        proof {
            assert(as_ints(ends@) == word_ends(text@));
        }
    }
    ends
}

} // verus!
