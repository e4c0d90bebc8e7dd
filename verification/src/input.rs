//! The input tracker: what the user has typed, and where its words end.
//!
//! A word is committed by its separator. Separators are never deleted, so a
//! committed word stays as it was typed; only the word being typed can
//! still change. Once the last word asked for is committed the text is
//! closed and nothing changes it any more.

use crate::words::{
    as_ints, lemma_as_ints_push, lemma_as_ints_update, lemma_separator_ends_shape, separator_ends,
    SEPARATOR,
};
use vstd::prelude::*;

verus! {

/// The end offsets that the tracker keeps for `text`: one for every
/// committed word and, unless the text is closed, one for the word being
/// typed, which is the length of the text.
pub open spec fn tracked_ends(text: Seq<char>, closed: bool) -> Seq<int> {
    if closed {
        separator_ends(text)
    } else {
        separator_ends(text).push(text.len() as int)
    }
}

/// `text` is empty or ends in a separator: there is no word being typed
/// that a separator could commit, and no character that could be deleted.
pub open spec fn at_word_start(text: Seq<char>) -> bool {
    text.len() == 0 || text.last() == SEPARATOR
}

/// The typed text with the end offset of each of its words.
#[derive(Debug)]
pub struct EnteredText {
    text: Vec<char>,
    ends: Vec<usize>,
    closed: bool,
}

impl View for EnteredText {
    type V = Seq<char>;

    closed spec fn view(&self) -> Seq<char> {
        self.text@
    }
}

impl EnteredText {
    /// The end offsets kept for the words, the word being typed included.
    pub closed spec fn ends(&self) -> Seq<int> {
        as_ints(self.ends@)
    }

    /// The last word asked for has been committed.
    pub closed spec fn is_closed(&self) -> bool {
        self.closed
    }

    /// The offsets are those of the text, and a closed text ends in the
    /// separator that closed it.
    pub open spec fn wf(&self) -> bool {
        &&& self.ends() == tracked_ends(self@, self.is_closed())
        &&& self.is_closed() ==> self@.len() > 0 && self@.last() == SEPARATOR
    }

    /// The number of committed words: one for each separator typed.
    pub open spec fn committed(&self) -> int {
        separator_ends(self@).len() as int
    }

    /// There is always at least one offset, the last offset is the length
    /// of the text, and the offsets never decrease.
    pub proof fn lemma_offsets(&self)
        requires
            self.wf(),
        ensures
            self.ends().len() >= 1,
            self.ends().last() == self@.len(),
            forall|i: int, j: int| 0 <= i <= j < self.ends().len() ==> self.ends()[i] <= self.ends()[j],
            forall|i: int| 0 <= i < self.ends().len() ==> 0 <= #[trigger] self.ends()[i] <= self@.len(),
            self.ends().len() == self.committed() + if self.is_closed() {
                0int
            } else {
                1int
            },
    {
        lemma_separator_ends_shape(self@);
        if self.is_closed() {
            assert(separator_ends(self@).last() == self@.len());
        }
    }

    /// The number of offsets held, by the number of committed words.
    proof fn lemma_held(&self)
        requires
            self.wf(),
        ensures
            self.ends@.len() == as_ints(self.ends@).len(),
            self.closed ==> self.ends@.len() == separator_ends(self.text@).len(),
            !self.closed ==> self.ends@.len() == separator_ends(self.text@).len() + 1,
            separator_ends(self.text@).len() <= self.text@.len(),
    {
        lemma_separator_ends_shape(self.text@);
    }

    /// Nothing typed yet: an empty text with one empty word being typed.
    pub fn new() -> (e: EnteredText)
        ensures
            e.wf(),
            e@ == Seq::<char>::empty(),
            !e.is_closed(),
    {
        let mut ends: Vec<usize> = Vec::new();
        ends.push(0);
        let e = EnteredText { text: Vec::new(), ends, closed: false };
        proof {
            assert(e.ends() == tracked_ends(e@, false));
        }
        e
    }

    /// The typed characters.
    pub fn chars(&self) -> (r: &[char])
        ensures
            r@ == self@,
    {
        self.text.as_slice()
    }

    /// The end offset of each word, the word being typed included.
    pub fn offsets(&self) -> (r: &Vec<usize>)
        ensures
            as_ints(r@) == self.ends(),
    {
        &self.ends
    }

    /// Whether the last word asked for has been committed.
    pub fn closed(&self) -> (r: bool)
        ensures
            r == self.is_closed(),
    {
        self.closed
    }

    /// The number of committed words.
    pub fn committed_words(&self) -> (n: usize)
        requires
            self.wf(),
        ensures
            n == self.committed(),
    {
        proof {
            self.lemma_held();
        }
        if self.closed {
            self.ends.len()
        } else {
            self.ends.len() - 1
        }
    }

    /// Appends `c` to the word being typed. A separator is not a character
    /// of a word, and a closed text takes nothing: both are refused and
    /// leave the text as it was.
    pub fn append_char(&mut self, c: char) -> (accepted: bool)
        requires
            old(self).wf(),
        ensures
            final(self).wf(),
            accepted == (!old(self).is_closed() && c != SEPARATOR),
            accepted ==> final(self)@ == old(self)@.push(c) && !final(self).is_closed(),
            !accepted ==> *final(self) == *old(self),
    {
        if self.closed || c == SEPARATOR {
            return false;
        }
        let ghost before = self.text@;
        let ghost held = self.ends@;
        proof {
            self.lemma_held();
        }
        self.text.push(c);
        let last: usize = self.ends.len() - 1;
        let len: usize = self.text.len();
        self.ends.set(last, len);
        proof {
            assert(self.text@.drop_last() == before);
            assert(separator_ends(self.text@) == separator_ends(before));
            lemma_as_ints_update(held, last as int, len);
            assert(self.ends() =~= tracked_ends(self@, false));
        }
        true
    }

    /// Commits the word being typed by writing its separator. Where the
    /// text is closed, or there is no word to commit because the text
    /// already ends in a separator, nothing happens. Otherwise the committed
    /// word keeps its offset, and either a new empty word is opened or, if
    /// at least `target_words` words are now committed, the text is closed
    /// and the result is `true`.
    pub fn commit_word_break(&mut self, target_words: usize) -> (done: bool)
        requires
            old(self).wf(),
        ensures
            final(self).wf(),
            old(self).is_closed() || (old(self)@.len() > 0 && old(self)@.last() == SEPARATOR) ==> {
                &&& !done
                &&& *final(self) == *old(self)
            },
            !old(self).is_closed() && !(old(self)@.len() > 0 && old(self)@.last() == SEPARATOR) ==> {
                &&& final(self)@ == old(self)@.push(SEPARATOR)
                &&& done == (old(self).committed() + 1 >= target_words)
                &&& final(self).is_closed() == done
            },
    {
        let n: usize = self.text.len();
        if self.closed || (n > 0 && self.text[n - 1] == SEPARATOR) {
            return false;
        }
        let ghost before = self.text@;
        let ghost held = self.ends@;
        proof {
            self.lemma_held();
        }
        self.text.push(SEPARATOR);
        let last: usize = self.ends.len() - 1;
        let len: usize = self.text.len();
        self.ends.set(last, len);
        proof {
            assert(self.text@.drop_last() == before);
            assert(separator_ends(self.text@) == separator_ends(before).push(len as int));
            lemma_as_ints_update(held, last as int, len);
            assert(as_ints(self.ends@) =~= separator_ends(self.text@));
        }
        if self.ends.len() >= target_words {
            self.closed = true;
            true
        } else {
            let ghost committed = self.ends@;
            self.ends.push(len);
            proof {
                lemma_as_ints_push(committed, len);
                assert(self.ends() =~= tracked_ends(self@, false));
            }
            false
        }
    }

    /// Deletes the last character of the word being typed. A separator is
    /// never deleted and an empty text has nothing to delete: there nothing
    /// happens.
    pub fn delete_last_char(&mut self)
        requires
            old(self).wf(),
        ensures
            final(self).wf(),
            at_word_start(old(self)@) ==> *final(self) == *old(self),
            !at_word_start(old(self)@) ==> {
                &&& final(self)@ == old(self)@.drop_last()
                &&& !final(self).is_closed()
            },
    {
        let n: usize = self.text.len();
        if n == 0 || self.text[n - 1] == SEPARATOR {
            return ;
        }
        let ghost before = self.text@;
        let ghost held = self.ends@;
        proof {
            self.lemma_held();
        }
        self.text.pop();
        let last: usize = self.ends.len() - 1;
        self.ends.set(last, n - 1);
        proof {
            assert(self.text@ == before.drop_last());
            assert(separator_ends(before) == separator_ends(self.text@));
            lemma_as_ints_update(held, last as int, (n - 1) as usize);
            assert(self.ends() =~= tracked_ends(self@, false));
        }
    }
}

} // verus!
