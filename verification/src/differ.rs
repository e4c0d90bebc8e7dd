//! The word differ: one target word against what was typed for it.
//!
//! The result is three spans: the typed part that matches, the typed part
//! that does not, and the part of the target still to come. Characters are
//! compared by scalar value; nothing is folded or normalised.

use crate::words::SEPARATOR;
use vstd::prelude::*;
use vstd::slice::slice_subrange;

verus! {

/// The first index at or after `i` where `a` and `b` differ or one of them ends.
pub open spec fn common_prefix_from(a: Seq<char>, b: Seq<char>, i: int) -> int
    decreases a.len() - i,
{
    if 0 <= i < a.len() && i < b.len() && a[i] == b[i] {
        common_prefix_from(a, b, i + 1)
    } else {
        i
    }
}

/// The length of the longest common prefix of `a` and `b`.
pub open spec fn common_prefix(a: Seq<char>, b: Seq<char>) -> int {
    common_prefix_from(a, b, 0)
}

/// Some index holds different characters in `target` and `entered`.
pub open spec fn has_mismatch(target: Seq<char>, entered: Seq<char>) -> bool {
    common_prefix(target, entered) < target.len() && common_prefix(target, entered) < entered.len()
}

/// `s` without its one trailing separator, if it has one.
pub open spec fn strip_separator(s: Seq<char>) -> Seq<char> {
    if s.len() > 0 && s.last() == SEPARATOR {
        s.drop_last()
    } else {
        s
    }
}

/// The three spans of one word: (correct, wrong, pending).
///
/// With a mismatch at `i`, the typed word (separator stripped) is split at
/// `i` and the target from `i` on is pending. Without one, a typed word no
/// longer than the target is all correct and the target beyond what was
/// entered is pending; a longer one has the whole target correct and all
/// the excess wrong.
pub open spec fn classify_spec(target: Seq<char>, entered: Seq<char>) -> (
    Seq<char>,
    Seq<char>,
    Seq<char>,
) {
    let i = common_prefix(target, entered);
    let typed = strip_separator(entered);
    if has_mismatch(target, entered) {
        (typed.subrange(0, i), typed.subrange(i, typed.len() as int), target.subrange(
            i,
            target.len() as int,
        ))
    } else if target.len() >= entered.len() {
        (typed, Seq::empty(), target.subrange(entered.len() as int, target.len() as int))
    } else {
        (target, entered.subrange(target.len() as int, entered.len() as int), Seq::empty())
    }
}

/// The common prefix ends inside both sequences, everything before it
/// agrees, and where both go on they differ there.
pub proof fn lemma_common_prefix(a: Seq<char>, b: Seq<char>, i: int)
    requires
        0 <= i <= a.len(),
        i <= b.len(),
        forall|j: int| 0 <= j < i ==> a[j] == b[j],
    ensures
        i <= common_prefix_from(a, b, i) <= a.len(),
        common_prefix_from(a, b, i) <= b.len(),
        forall|j: int| 0 <= j < common_prefix_from(a, b, i) ==> a[j] == b[j],
        common_prefix_from(a, b, i) < a.len() && common_prefix_from(a, b, i) < b.len() ==> a[common_prefix_from(
            a,
            b,
            i,
        )] != b[common_prefix_from(a, b, i)],
    decreases a.len() - i,
{
    if i < a.len() && i < b.len() && a[i] == b[i] {
        lemma_common_prefix(a, b, i + 1);
    }
}

/// The length of the longest common prefix of two slices.
pub fn common_prefix_len(a: &[char], b: &[char]) -> (i: usize)
    ensures
        i as int == common_prefix(a@, b@),
        i <= a@.len(),
        i <= b@.len(),
{
    let mut i: usize = 0;
    while i < a.len() && i < b.len() && a[i] == b[i]
        invariant
            i <= a@.len(),
            i <= b@.len(),
            common_prefix_from(a@, b@, i as int) == common_prefix(a@, b@),
        decreases a@.len() - i,
    {
        i = i + 1;
    }
    i
}

/// `s` without its one trailing separator, if it has one.
pub fn strip_trailing_separator<'a>(s: &'a [char]) -> (r: &'a [char])
    ensures
        r@ == strip_separator(s@),
{
    let n: usize = s.len();
    if n > 0 && s[n - 1] == SEPARATOR {
        let r = slice_subrange(s, 0, n - 1);
        proof {
            assert(r@ == s@.drop_last());
        }
        r
    } else {
        s
    }
}

/// Classifies one word: what of `entered` matches `target`, what of it is
/// wrong, and what of `target` is still pending.
pub fn classify<'a>(target: &'a [char], entered: &'a [char]) -> (r: (
    &'a [char],
    &'a [char],
    &'a [char],
))
    ensures
        (r.0@, r.1@, r.2@) == classify_spec(target@, entered@),
{
    let i: usize = common_prefix_len(target, entered);
    let typed = strip_trailing_separator(entered);
    if i < target.len() && i < entered.len() {
        (
            slice_subrange(typed, 0, i),
            slice_subrange(typed, i, typed.len()),
            slice_subrange(target, i, target.len()),
        )
    } else if target.len() >= entered.len() {
        let none = slice_subrange(target, 0, 0);
        proof {
            assert(none@ == Seq::<char>::empty());
        }
        (typed, none, slice_subrange(target, entered.len(), target.len()))
    } else {
        let none = slice_subrange(target, 0, 0);
        proof {
            assert(none@ == Seq::<char>::empty());
        }
        (target, slice_subrange(entered, target.len(), entered.len()), none)
    }
}

/// The correct and the wrong span together are as long as what was typed
/// without its trailing separator, and the correct and the pending span
/// together are as long as the target. This holds wherever the two words
/// differ at some index, and wherever the typed word carries no trailing
/// separator.
pub proof fn lemma_classify_lengths(target: Seq<char>, entered: Seq<char>)
    requires
        has_mismatch(target, entered) || strip_separator(entered) == entered,
    ensures
        classify_spec(target, entered).0.len() + classify_spec(target, entered).1.len()
            == strip_separator(entered).len(),
        classify_spec(target, entered).0.len() + classify_spec(target, entered).2.len()
            == target.len(),
{
    lemma_common_prefix(target, entered, 0);
}

/// The correct span followed by the wrong span is a prefix of what was
/// typed, and the pending span is a suffix of the target.
pub proof fn lemma_classify_spans(target: Seq<char>, entered: Seq<char>)
    ensures
        (classify_spec(target, entered).0 + classify_spec(target, entered).1).is_prefix_of(entered),
        classify_spec(target, entered).2.is_suffix_of(target),
{
    lemma_common_prefix(target, entered, 0);
    let (correct, wrong, pending) = classify_spec(target, entered);
    let typed = strip_separator(entered);
    assert(typed.is_prefix_of(entered)) by {
        assert(typed =~= entered.subrange(0, typed.len() as int));
    }
    if has_mismatch(target, entered) {
        assert(correct + wrong =~= typed);
    } else if target.len() >= entered.len() {
        assert(correct + wrong =~= typed);
    } else {
        assert(correct + wrong =~= entered);
        assert(entered =~= entered.subrange(0, entered.len() as int));
    }
    assert(pending =~= target.subrange(target.len() - pending.len(), target.len() as int));
}

/// With nothing typed, the whole target is pending.
pub proof fn lemma_classify_nothing_entered(target: Seq<char>)
    ensures
        classify_spec(target, Seq::empty()) == (Seq::<char>::empty(), Seq::<char>::empty(), target),
{
    let entered = Seq::<char>::empty();
    assert(classify_spec(target, entered).2 =~= target);
}

/// A word typed exactly as the target is all correct: nothing is wrong and
/// nothing is pending. The correct span is the target without its trailing
/// separator.
pub proof fn lemma_classify_same(target: Seq<char>)
    ensures
        classify_spec(target, target) == (
            strip_separator(target),
            Seq::<char>::empty(),
            Seq::<char>::empty(),
        ),
{
    lemma_common_prefix(target, target, 0);
    assert(classify_spec(target, target).2 =~= Seq::<char>::empty());
}

} // verus!
