//! The line layout engine: packs the spans of diffed words into rows.
//!
//! Words are placed greedily. A running count holds the length of the row
//! being filled; a word that would push it past the width opens a new row.
//! A word is never split, so a word longer than the width has a row of its
//! own. The first row always exists, even if nothing fits in it.

use crate::differ::{classify, classify_spec};
use crate::input::EnteredText;
use crate::passage::Passage;
use crate::words::{lemma_word_ends_shape, word_at, word_ends, word_slices};
use vstd::prelude::*;
use vstd::slice::slice_subrange;

verus! {

/// What a span of text is, for whoever styles it.
#[derive(Debug, Clone, Copy, PartialEq, Eq, Structural)]
pub enum SpanTag {
    /// The matching part of a word that is done: nothing wrong, and at most
    /// one character still to come.
    CompleteWord,
    /// The matching part of a word that is not done yet.
    CorrectPart,
    /// Typed, and not what the target has.
    Wrong,
    /// Still to come, in a word that is not the one being typed.
    Pending,
    /// Still to come, in the word being typed.
    PendingCurrent,
}

/// A run of characters with its tag.
#[derive(Debug, Clone, Copy)]
pub struct Span<'a> {
    pub text: &'a [char],
    pub tag: SpanTag,
}

/// A span as plain values: its characters and its tag.
pub type SpanView = (Seq<char>, SpanTag);

/// A diffed word as plain values: (correct, wrong, pending).
pub type DiffView = (Seq<char>, Seq<char>, Seq<char>);

impl<'a> View for Span<'a> {
    type V = SpanView;

    open spec fn view(&self) -> SpanView {
        (self.text@, self.tag)
    }
}

/// The spans of one row as plain values.
pub open spec fn row_view(row: Seq<Span<'_>>) -> Seq<SpanView> {
    row.map_values(|s: Span<'_>| s@)
}

/// All rows as plain values.
pub open spec fn rows_view(rows: Seq<Vec<Span<'_>>>) -> Seq<Seq<SpanView>> {
    rows.map_values(|row: Vec<Span<'_>>| row_view(row@))
}

/// The diffed words as plain values.
pub open spec fn diffs_view(diffs: Seq<(&[char], &[char], &[char])>) -> Seq<DiffView> {
    diffs.map_values(|d: (&[char], &[char], &[char])| (d.0@, d.1@, d.2@))
}

/// Every target word diffed against what was typed for it: against the
/// entered word of the same index where there is one, else against
/// nothing. Entered words beyond the last target word are left out.
pub open spec fn diffs_of(target: Seq<char>, entered: Seq<char>, entered_ends: Seq<int>) -> Seq<
    DiffView,
> {
    Seq::new(
        word_ends(target).len(),
        |k: int|
            classify_spec(
                word_at(target, word_ends(target), k),
                if k < entered_ends.len() {
                    word_at(entered, entered_ends, k)
                } else {
                    Seq::empty()
                },
            ),
    )
}

/// The number of characters of a diffed word, over its three spans.
pub open spec fn diff_len(d: DiffView) -> int {
    (d.0.len() + d.1.len() + d.2.len()) as int
}

/// The tag of the correct span of a word.
pub open spec fn correct_tag(d: DiffView) -> SpanTag {
    if d.1.len() == 0 && d.2.len() <= 1 {
        SpanTag::CompleteWord
    } else {
        SpanTag::CorrectPart
    }
}

/// The tag of the pending span of a word.
pub open spec fn pending_tag(is_current: bool) -> SpanTag {
    if is_current {
        SpanTag::PendingCurrent
    } else {
        SpanTag::Pending
    }
}

/// The spans that a diffed word contributes to its row: of correct, wrong
/// and pending, in this order, those that are not empty.
pub open spec fn spans_of(d: DiffView, is_current: bool) -> Seq<SpanView> {
    let correct: Seq<SpanView> = if d.0.len() > 0 {
        seq![(d.0, correct_tag(d))]
    } else {
        Seq::empty()
    };
    let wrong: Seq<SpanView> = if d.1.len() > 0 {
        seq![(d.1, SpanTag::Wrong)]
    } else {
        Seq::empty()
    };
    let pending: Seq<SpanView> = if d.2.len() > 0 {
        seq![(d.2, pending_tag(is_current))]
    } else {
        Seq::empty()
    };
    correct + wrong + pending
}

/// The state of the packing after all of `diffs`: the rows that are closed,
/// the row being filled, and the number of characters in it.
pub open spec fn pack(diffs: Seq<DiffView>, width: int, current: int) -> (
    Seq<Seq<SpanView>>,
    Seq<SpanView>,
    int,
)
    decreases diffs.len(),
{
    if diffs.len() == 0 {
        (Seq::empty(), Seq::empty(), 0)
    } else {
        let (closed, open, used) = pack(diffs.drop_last(), width, current);
        let word = diffs.last();
        let spans = spans_of(word, diffs.len() - 1 == current);
        if used + diff_len(word) > width {
            (closed.push(open), spans, diff_len(word))
        } else {
            (closed, open + spans, used + diff_len(word))
        }
    }
}

/// The rows that the diffed words are packed into.
pub open spec fn layout_spec(diffs: Seq<DiffView>, width: int, current: int) -> Seq<Seq<SpanView>> {
    pack(diffs, width, current).0.push(pack(diffs, width, current).1)
}

/// The number of characters of a row, over its spans.
pub open spec fn row_len(row: Seq<SpanView>) -> int
    decreases row.len(),
{
    if row.len() == 0 {
        0
    } else {
        row_len(row.drop_last()) + row.last().0.len()
    }
}

/// The row is no longer than the width, or it holds one word alone.
pub open spec fn row_fits(row: Seq<SpanView>, diffs: Seq<DiffView>, width: int, current: int) -> bool {
    row_len(row) <= width || exists|k: int|
        0 <= k < diffs.len() && row == spans_of(#[trigger] diffs[k], k == current)
}

/// The length of two rows put together is the sum of their lengths.
pub proof fn lemma_row_len_concat(a: Seq<SpanView>, b: Seq<SpanView>)
    ensures
        row_len(a + b) == row_len(a) + row_len(b),
    decreases b.len(),
{
    if b.len() == 0 {
        assert(a + b == a);
    } else {
        assert((a + b).drop_last() == a + b.drop_last());
        lemma_row_len_concat(a, b.drop_last());
    }
}

/// The spans of a word hold all its characters.
pub proof fn lemma_spans_len(d: DiffView, is_current: bool)
    ensures
        row_len(spans_of(d, is_current)) == diff_len(d),
{
    let correct: Seq<SpanView> = if d.0.len() > 0 {
        seq![(d.0, correct_tag(d))]
    } else {
        Seq::empty()
    };
    let wrong: Seq<SpanView> = if d.1.len() > 0 {
        seq![(d.1, SpanTag::Wrong)]
    } else {
        Seq::empty()
    };
    let pending: Seq<SpanView> = if d.2.len() > 0 {
        seq![(d.2, pending_tag(is_current))]
    } else {
        Seq::empty()
    };
    assert(row_len(Seq::<SpanView>::empty()) == 0);
    assert forall|s: SpanView| row_len(seq![s]) == s.0.len() by {
        assert(seq![s].drop_last() == Seq::<SpanView>::empty());
    }
    lemma_row_len_concat(correct, wrong);
    lemma_row_len_concat(correct + wrong, pending);
}

/// While words are packed, the running count is the length of the row
/// being filled, and that row and every closed row is no longer than the
/// width or holds one word alone.
pub proof fn lemma_pack_rows(diffs: Seq<DiffView>, width: int, current: int)
    requires
        0 <= width,
    ensures
        pack(diffs, width, current).2 == row_len(pack(diffs, width, current).1),
        row_fits(pack(diffs, width, current).1, diffs, width, current),
        forall|i: int|
            0 <= i < pack(diffs, width, current).0.len() ==> row_fits(
                #[trigger] pack(diffs, width, current).0[i],
                diffs,
                width,
                current,
            ),
    decreases diffs.len(),
{
    if diffs.len() > 0 {
        let front = diffs.drop_last();
        let k = diffs.len() - 1;
        let word = diffs.last();
        let (closed, open, used) = pack(front, width, current);
        lemma_pack_rows(front, width, current);
        lemma_spans_len(word, k == current);
        lemma_row_len_concat(open, spans_of(word, k == current));
        assert forall|row: Seq<SpanView>| row_fits(row, front, width, current) implies row_fits(
            row,
            diffs,
            width,
            current,
        ) by {
            if row_len(row) > width {
                let j = choose|j: int|
                    0 <= j < front.len() && row == spans_of(#[trigger] front[j], j == current);
                assert(diffs[j] == front[j]);
            }
        }
        assert(diffs[k] == word);
        assert forall|i: int| 0 <= i < pack(diffs, width, current).0.len() implies row_fits(
            #[trigger] pack(diffs, width, current).0[i],
            diffs,
            width,
            current,
        ) by {
            if i < closed.len() {
                assert(pack(diffs, width, current).0[i] == closed[i]);
            }
        }
    }
}

/// Every row of the layout is no longer than the width, or holds one word
/// alone; and there is always a first row.
pub proof fn lemma_layout_rows(diffs: Seq<DiffView>, width: int, current: int)
    requires
        0 <= width,
    ensures
        layout_spec(diffs, width, current).len() >= 1,
        forall|i: int|
            0 <= i < layout_spec(diffs, width, current).len() ==> row_fits(
                #[trigger] layout_spec(diffs, width, current)[i],
                diffs,
                width,
                current,
            ),
{
    lemma_pack_rows(diffs, width, current);
}

/// Diffs every target word against what was typed for it.
pub fn word_diffs<'a>(target: &'a Passage, entered: &'a EnteredText) -> (diffs: Vec<
    (&'a [char], &'a [char], &'a [char]),
>)
    requires
        target.wf(),
        entered.wf(),
    ensures
        diffs_view(diffs@) == diffs_of(target@, entered@, entered.ends()),
{
    proof {
        lemma_word_ends_shape(target@);
        entered.lemma_offsets();
    }
    let target_words = word_slices(target.chars(), target.offsets());
    let entered_words = word_slices(entered.chars(), entered.offsets());
    let nothing = slice_subrange(target.chars(), 0, 0);
    let mut diffs: Vec<(&'a [char], &'a [char], &'a [char])> = Vec::new();
    let mut k: usize = 0;
    while k < target_words.len()
        invariant
            k <= target_words@.len(),
            target_words@.len() == word_ends(target@).len(),
            entered_words@.len() == entered.ends().len(),
            target.wf(),
            nothing@ == Seq::<char>::empty(),
            diffs@.len() == k,
            forall|i: int|
                0 <= i < target_words@.len() ==> (#[trigger] target_words@[i])@ == word_at(
                    target@,
                    target.ends(),
                    i,
                ),
            forall|i: int|
                0 <= i < entered_words@.len() ==> (#[trigger] entered_words@[i])@ == word_at(
                    entered@,
                    entered.ends(),
                    i,
                ),
            forall|i: int|
                0 <= i < k ==> #[trigger] diffs_view(diffs@)[i] == diffs_of(
                    target@,
                    entered@,
                    entered.ends(),
                )[i],
        decreases target_words@.len() - k,
    {
        let typed = if k < entered_words.len() {
            entered_words[k]
        } else {
            nothing
        };
        let ghost held = diffs@;
        let diff = classify(target_words[k], typed);
        diffs.push(diff);
        proof {
            assert forall|i: int| 0 <= i < k + 1 implies #[trigger] diffs_view(diffs@)[i]
                == diffs_of(target@, entered@, entered.ends())[i] by {
                if i < k {
                    assert(diffs_view(diffs@)[i] == diffs_view(held)[i]);
                }
            }
        }
        k = k + 1;
    }
    proof {
        assert(diffs_view(diffs@) =~= diffs_of(target@, entered@, entered.ends()));
    }
    diffs
}

/// Appends to `row` the spans of one diffed word that are not empty.
fn push_spans<'a>(
    row: &mut Vec<Span<'a>>,
    word: (&'a [char], &'a [char], &'a [char]),
    is_current: bool,
)
    ensures
        row_view(final(row)@) == row_view(old(row)@) + spans_of((word.0@, word.1@, word.2@), is_current),
{
    let ghost before = row_view(row@);
    let ghost d: DiffView = (word.0@, word.1@, word.2@);
    if word.0.len() > 0 {
        let tag = if word.1.len() == 0 && word.2.len() <= 1 {
            SpanTag::CompleteWord
        } else {
            SpanTag::CorrectPart
        };
        row.push(Span { text: word.0, tag });
    }
    if word.1.len() > 0 {
        row.push(Span { text: word.1, tag: SpanTag::Wrong });
    }
    if word.2.len() > 0 {
        let tag = if is_current {
            SpanTag::PendingCurrent
        } else {
            SpanTag::Pending
        };
        row.push(Span { text: word.2, tag });
    }
    proof {
        assert(row_view(row@) =~= before + spans_of(d, is_current));
    }
}

/// Packs the diffed words into rows no wider than `width`, as far as whole
/// words allow. `current` is the index of the word being typed.
pub fn layout_rows<'a>(
    diffs: &Vec<(&'a [char], &'a [char], &'a [char])>,
    width: usize,
    current: usize,
) -> (rows: Vec<Vec<Span<'a>>>)
    ensures
        rows_view(rows@) == layout_spec(diffs_view(diffs@), width as int, current as int),
        rows@.len() >= 1,
{
    let mut closed: Vec<Vec<Span<'a>>> = Vec::new();
    let mut open: Vec<Span<'a>> = Vec::new();
    let mut used: u128 = 0;
    let mut k: usize = 0;
    let ghost all = diffs_view(diffs@);
    while k < diffs.len()
        invariant
            k <= diffs@.len(),
            all == diffs_view(diffs@),
            rows_view(closed@) == pack(all.take(k as int), width as int, current as int).0,
            row_view(open@) == pack(all.take(k as int), width as int, current as int).1,
            used as int == pack(all.take(k as int), width as int, current as int).2,
            used <= 3 * usize::MAX,
        decreases diffs@.len() - k,
    {
        let word = diffs[k];
        let len: u128 = word.0.len() as u128 + word.1.len() as u128 + word.2.len() as u128;
        proof {
            assert(all.take(k + 1).drop_last() == all.take(k as int));
            assert(all.take(k + 1).last() == (word.0@, word.1@, word.2@));
        }
        if used + len > width as u128 {
            let ghost before = rows_view(closed@);
            let ghost full = row_view(open@);
            closed.push(open);
            proof {
                assert(rows_view(closed@) =~= before.push(full));
            }
            open = Vec::new();
            proof {
                assert(row_view(open@) =~= Seq::<SpanView>::empty());
            }
            push_spans(&mut open, word, k == current);
            proof {
                assert(row_view(open@) =~= spans_of((word.0@, word.1@, word.2@), k == current));
            }
            used = len;
        } else {
            push_spans(&mut open, word, k == current);
            used = used + len;
        }
        k = k + 1;
    }
    proof {
        assert(all.take(k as int) == all);
    }
    let ghost before = rows_view(closed@);
    let ghost last = row_view(open@);
    closed.push(open);
    proof {
        assert(rows_view(closed@) =~= before.push(last));
    }
    closed
}

} // verus!
