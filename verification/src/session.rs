//! The test session: one test from the first keystroke to its end.
//!
//! A session is idle until the first character is typed, runs while input
//! is accepted, and is finished when the target is typed, the time is up or
//! the user ends it. Every event is handled to completion before the next;
//! the session reads no clock and no keyboard of its own.

use crate::input::{at_word_start, tracked_ends, EnteredText};
use crate::layout::{diffs_of, layout_rows, layout_spec, rows_view, word_diffs, Span};
use crate::passage::{drawn_from, Dictionary, Passage, TargetStringType};
use crate::stats::{
    compared_words, history_below, history_ok, lemma_progress_grows,
    lemma_word_progress_complete, measure, progress_of, samples_view, stats_of, SampleView, Stats,
    StatsSample, StatsView, SAMPLE_INTERVAL_MS,
};
use crate::words::{
    lemma_separator_ends_push, lemma_separator_ends_shape, lemma_word_ends_shape, separator_ends,
    word_ends, SEPARATOR,
};
use vstd::prelude::*;

verus! {

/// Where a test stands.
#[derive(Debug, Clone, Copy, PartialEq, Eq, Structural)]
pub enum TestState {
    /// Idle: nothing has been typed yet.
    Pre,
    /// The clock runs and input is accepted.
    Running,
    /// Finished: the input is frozen.
    Post,
}

/// A key, as far as the session tells keys apart.
#[derive(Debug, Clone, Copy, PartialEq, Eq)]
pub enum Key {
    Backspace,
    Enter,
    Left,
    Right,
    Up,
    Down,
    Home,
    End,
    PageUp,
    PageDown,
    Tab,
    BackTab,
    Delete,
    Insert,
    F(u8),
    Char(char),
    Null,
    Esc,
}

/// A session as plain values.
pub struct SessionView {
    pub dict: Seq<Seq<char>>,
    pub kind: TargetStringType,
    pub state: TestState,
    pub target: Seq<char>,
    pub entered: Seq<char>,
    pub start_ms: int,
    pub prev_hist_ms: int,
    pub now_ms: int,
    pub stats: StatsView,
    pub accuracy_history: Seq<SampleView>,
    pub wpm_history: Seq<SampleView>,
}

impl SessionView {
    /// The number of words of the target.
    pub open spec fn words(self) -> int {
        word_ends(self.target).len() as int
    }

    /// The number of words committed so far.
    pub open spec fn committed(self) -> int {
        separator_ends(self.entered).len() as int
    }

    /// The last target word has been committed.
    pub open spec fn is_closed(self) -> bool {
        self.entered.len() > 0 && self.committed() >= self.words()
    }

    /// The end offsets of the entered words: one for every committed word
    /// and, until the last target word is committed, one for the word
    /// being typed.
    pub open spec fn entered_ends(self) -> Seq<int> {
        tracked_ends(self.entered, self.is_closed())
    }

    /// The time since the test started, in milliseconds.
    pub open spec fn elapsed_ms(self) -> int {
        self.now_ms - self.start_ms
    }

    /// The progress that a tick at the session's own time would find.
    pub open spec fn progress_now(self) -> int {
        progress_of(
            self.kind,
            compared_words(self.target, self.entered),
            self.words(),
            self.elapsed_ms(),
        )
    }

    /// What holds of a session at all times.
    ///
    /// The clock does not run backwards. The accuracy is a percentage.
    /// Before the test nothing is typed and nothing is sampled. No more
    /// words are committed than the target has, and while the test runs at
    /// least one is still to be committed. Each history is ordered by
    /// progress, with its samples at least the sampling interval apart, and
    /// lies behind what the next tick would find.
    pub open spec fn inv(self) -> bool {
        &&& 0 <= self.start_ms <= self.prev_hist_ms <= self.now_ms
        &&& 0 <= self.stats.accuracy <= 100
        &&& self.state == TestState::Pre ==> {
            &&& self.entered.len() == 0
            &&& self.accuracy_history.len() == 0
            &&& self.wpm_history.len() == 0
        }
        &&& self.committed() <= self.words()
        &&& self.state == TestState::Running ==> self.committed() < self.words()
        &&& history_ok(self.accuracy_history)
        &&& history_ok(self.wpm_history)
        &&& history_below(self.accuracy_history, self.progress_now(), self.prev_hist_ms)
        &&& history_below(self.wpm_history, self.progress_now(), self.prev_hist_ms)
    }
}

/// The later of the session's time and the time of an event.
pub open spec fn later(now_ms: int, event_ms: int) -> int {
    if event_ms > now_ms {
        event_ms
    } else {
        now_ms
    }
}

/// The session after a tick at `event_ms`.
///
/// Only a running test is moved. Its figures are taken anew; if the
/// sampling interval has passed since the last sample, the speed is
/// sampled, and the accuracy too unless it is zero; and at a progress of
/// 100 or more the test is finished.
pub open spec fn after_tick(s: SessionView, event_ms: int) -> SessionView {
    if s.state != TestState::Running {
        s
    } else {
        let now = later(s.now_ms, event_ms);
        let stats = stats_of(s.kind, s.target, s.entered, now - s.start_ms);
        let due = now - s.prev_hist_ms >= SAMPLE_INTERVAL_MS;
        SessionView {
            now_ms: now,
            stats,
            accuracy_history: if due && stats.accuracy > 0 {
                s.accuracy_history.push(
                    SampleView { at_ms: now, progress: stats.progress, value: stats.accuracy },
                )
            } else {
                s.accuracy_history
            },
            wpm_history: if due {
                s.wpm_history.push(
                    SampleView { at_ms: now, progress: stats.progress, value: stats.wpm },
                )
            } else {
                s.wpm_history
            },
            prev_hist_ms: if due {
                now
            } else {
                s.prev_hist_ms
            },
            state: if stats.progress >= 100 {
                TestState::Post
            } else {
                TestState::Running
            },
            ..s
        }
    }
}

/// The session after a word break.
///
/// Only a running test takes one, and only where there is a word to
/// commit. Committing the last target word finishes the test and takes the
/// figures anew, at the session's own time.
pub open spec fn after_word_break(s: SessionView) -> SessionView {
    if s.state != TestState::Running || (s.entered.len() > 0 && s.entered.last() == SEPARATOR) {
        s
    } else {
        let entered = s.entered.push(SEPARATOR);
        if s.committed() + 1 >= s.words() {
            SessionView {
                entered,
                state: TestState::Post,
                stats: stats_of(s.kind, s.target, entered, s.elapsed_ms()),
                ..s
            }
        } else {
            SessionView { entered, ..s }
        }
    }
}

/// The session after the character `c` at `event_ms`.
///
/// A separator is a word break. Any other character is refused by a
/// finished test and by a target without words. Otherwise it joins the
/// word being typed; on an idle test it also starts the clock at
/// `event_ms` and empties the histories.
pub open spec fn after_char(s: SessionView, c: char, event_ms: int) -> SessionView {
    if c == SEPARATOR {
        after_word_break(s)
    } else if s.state == TestState::Post || s.words() == 0 {
        s
    } else if s.state == TestState::Pre {
        SessionView {
            entered: s.entered.push(c),
            state: TestState::Running,
            start_ms: event_ms,
            prev_hist_ms: event_ms,
            now_ms: event_ms,
            accuracy_history: Seq::empty(),
            wpm_history: Seq::empty(),
            ..s
        }
    } else {
        SessionView { entered: s.entered.push(c), ..s }
    }
}

/// The session after a backspace: a running test loses the last character
/// of the word being typed, if it has one.
pub open spec fn after_backspace(s: SessionView) -> SessionView {
    if s.state != TestState::Running || at_word_start(s.entered) {
        s
    } else {
        SessionView { entered: s.entered.drop_last(), ..s }
    }
}

/// The session after a request to end the test: a running test is
/// finished.
pub open spec fn after_force_end(s: SessionView) -> SessionView {
    if s.state == TestState::Running {
        SessionView { state: TestState::Post, ..s }
    } else {
        s
    }
}

/// `after` is the session that `key`, pressed at `event_ms`, makes of
/// `before`. The separator, the right arrow and the enter key break the
/// word; escape asks for a new test, tab ends the test; the keys that the
/// session has no use for leave it as it is.
pub open spec fn key_effect(before: SessionView, key: Key, event_ms: int, after: SessionView) -> bool {
    match key {
        Key::Char(c) => after == after_char(before, c, event_ms),
        Key::Right | Key::Enter => after == after_word_break(before),
        Key::Backspace => after == after_backspace(before),
        Key::Esc => is_new_test(before, after, event_ms),
        Key::Tab => after == after_force_end(before),
        _ => after == before,
    }
}

/// `s` is `before` made ready for a new test at `event_ms`: idle, with
/// nothing typed, no samples, and a new target drawn from the dictionary.
pub open spec fn is_new_test(before: SessionView, s: SessionView, event_ms: int) -> bool {
    &&& s.dict == before.dict
    &&& s.kind == before.kind
    &&& s.state == TestState::Pre
    &&& drawn_from(s.target, s.dict, s.kind.words())
    &&& s.words() == s.kind.words()
    &&& s.entered == Seq::<char>::empty()
    &&& s.start_ms == before.start_ms
    &&& s.prev_hist_ms == before.prev_hist_ms
    &&& s.now_ms == later(before.now_ms, event_ms)
    &&& s.stats == before.stats
    &&& s.accuracy_history == Seq::<SampleView>::empty()
    &&& s.wpm_history == Seq::<SampleView>::empty()
}

/// A test moves only from idle to running, from running to finished, and
/// from anywhere back to idle.
pub open spec fn legal_step(from: TestState, to: TestState) -> bool {
    ||| from == to
    ||| from == TestState::Pre && to == TestState::Running
    ||| from == TestState::Running && to == TestState::Post
    ||| to == TestState::Pre
}

/// A tick moves a test in no other way than from running to finished, and
/// leaves a test that is not running as it is.
pub proof fn lemma_tick_step(s: SessionView, event_ms: int)
    ensures
        legal_step(s.state, after_tick(s, event_ms).state),
        after_tick(s, event_ms).state != TestState::Pre || s.state == TestState::Pre,
        s.state != TestState::Running ==> after_tick(s, event_ms) == s,
{
}

/// A key moves a test only along the legal steps, and a finished test
/// takes no input: whatever the key, short of a new test, what was typed
/// stays as it is.
pub proof fn lemma_key_step(before: SessionView, key: Key, event_ms: int, after: SessionView)
    requires
        key_effect(before, key, event_ms, after),
    ensures
        legal_step(before.state, after.state),
        before.state == TestState::Post && !(key is Esc) ==> after == before,
{
}

/// Committing the last target word of a running test on words finishes
/// the test and brings the progress to 100.
pub proof fn lemma_last_word_completes(s: SessionView, n: usize)
    requires
        s.inv(),
        s.state == TestState::Running,
        s.kind == TargetStringType::Words(n),
        !(s.entered.len() > 0 && s.entered.last() == SEPARATOR),
        s.committed() + 1 == s.words(),
    ensures
        after_word_break(s).state == TestState::Post,
        after_word_break(s).stats.progress == 100,
{
    lemma_separator_ends_push(s.entered, SEPARATOR);
    lemma_word_progress_complete(s.words(), s.words());
}

/// A backspace with nothing typed changes nothing, whatever the state.
pub proof fn lemma_backspace_at_start(s: SessionView)
    requires
        s.entered.len() == 0,
    ensures
        after_backspace(s) == s,
{
}

/// An idle test stays idle under ticks, with all its figures as they
/// were: without a keystroke no test starts, whatever its time limit.
pub proof fn lemma_idle_tick(s: SessionView, event_ms: int)
    requires
        s.state == TestState::Pre,
    ensures
        after_tick(s, event_ms) == s,
{
}

/// One test, with everything that belongs to it.
#[derive(Debug)]
pub struct Session {
    dict: Dictionary,
    target_type: TargetStringType,
    target: Passage,
    entered: EnteredText,
    running: TestState,
    start_ms: u64,
    prev_hist_ms: u64,
    now_ms: u64,
    stats: Stats,
    accuracy_history: Vec<StatsSample>,
    wpm_history: Vec<StatsSample>,
}

impl View for Session {
    type V = SessionView;

    closed spec fn view(&self) -> SessionView {
        SessionView {
            dict: self.dict@,
            kind: self.target_type,
            state: self.running,
            target: self.target@,
            entered: self.entered@,
            start_ms: self.start_ms as int,
            prev_hist_ms: self.prev_hist_ms as int,
            now_ms: self.now_ms as int,
            stats: self.stats@,
            accuracy_history: samples_view(self.accuracy_history@),
            wpm_history: samples_view(self.wpm_history@),
        }
    }
}

impl Session {
    /// The parts of the session are sound and fit each other, and what
    /// holds of a session at all times holds.
    pub closed spec fn wf(&self) -> bool {
        &&& self.dict.wf()
        &&& self.target_type.fits()
        &&& self.target.wf()
        &&& self.entered.wf()
        &&& self.entered.is_closed() <==> self.entered@.len() > 0 && self@.committed()
            >= self@.words()
        &&& self.entered.is_closed() ==> self.running == TestState::Post
        &&& self@.inv()
    }

    /// What holds of a session at all times holds of a sound session.
    pub proof fn lemma_inv(&self)
        requires
            self.wf(),
        ensures
            self@.inv(),
    {
    }

    /// The accuracy is a percentage at all times.
    pub proof fn lemma_accuracy(&self)
        requires
            self.wf(),
        ensures
            0 <= self@.stats.accuracy <= 100,
    {
    }

    /// Each history is ordered by progress, and no two of its samples lie
    /// closer than the sampling interval.
    pub proof fn lemma_histories(&self)
        requires
            self.wf(),
        ensures
            history_ok(self@.accuracy_history),
            history_ok(self@.wpm_history),
    {
    }

    /// While the test runs, there are no more entered words, the one being
    /// typed included, than target words.
    pub proof fn lemma_running_words(&self)
        requires
            self.wf(),
            self@.state == TestState::Running,
        ensures
            self@.entered_ends().len() <= self@.words(),
    {
        lemma_separator_ends_shape(self@.entered);
    }

    /// An idle session on the passage given, at the time given.
    pub fn with_passage(dict: Dictionary, kind: TargetStringType, target: Passage, now_ms: u64) -> (s:
        Session)
        requires
            dict.wf(),
            kind.fits(),
            target.wf(),
        ensures
            s.wf(),
            s@ == (SessionView {
                dict: dict@,
                kind,
                state: TestState::Pre,
                target: target@,
                entered: Seq::empty(),
                start_ms: now_ms as int,
                prev_hist_ms: now_ms as int,
                now_ms: now_ms as int,
                stats: StatsView { correct: 0, accuracy: 0, progress: 0, wpm: 0 },
                accuracy_history: Seq::empty(),
                wpm_history: Seq::empty(),
            }),
    {
        let s = Session {
            dict,
            target_type: kind,
            target,
            entered: EnteredText::new(),
            running: TestState::Pre,
            start_ms: now_ms,
            prev_hist_ms: now_ms,
            now_ms,
            stats: Stats { correct: 0, accuracy: 0, progress: 0, wpm: 0 },
            accuracy_history: Vec::new(),
            wpm_history: Vec::new(),
        };
        proof {
            assert(s@.accuracy_history =~= Seq::<SampleView>::empty());
            assert(s@.wpm_history =~= Seq::<SampleView>::empty());
        }
        s
    }

    /// Handles a tick of the clock at `now_ms`.
    pub fn on_tick(&mut self, now_ms: u64)
        requires
            old(self).wf(),
        ensures
            final(self).wf(),
            final(self)@ == after_tick(old(self)@, now_ms as int),
    {
        match self.running {
            TestState::Running => {},
            _ => {
                return ;
            },
        }
        let ghost before = self@;
        let now: u64 = if now_ms > self.now_ms {
            now_ms
        } else {
            self.now_ms
        };
        self.now_ms = now;
        self.stats = measure(self.target_type, &self.target, &self.entered, now - self.start_ms);
        proof {
            lemma_word_ends_shape(before.target);
            lemma_separator_ends_shape(before.entered);
            lemma_progress_grows(
                before.kind,
                compared_words(before.target, before.entered),
                compared_words(before.target, before.entered),
                before.words(),
                before.elapsed_ms(),
                now - before.start_ms,
            );
        }
        if now - self.prev_hist_ms >= SAMPLE_INTERVAL_MS {
            if self.stats.accuracy > 0 {
                let ghost held = self.accuracy_history@;
                let sample = StatsSample {
                    at_ms: now,
                    progress: self.stats.progress,
                    value: self.stats.accuracy as u128,
                };
                self.accuracy_history.push(sample);
                proof {
                    assert(samples_view(self.accuracy_history@) =~= samples_view(held).push(
                        sample@,
                    ));
                }
            }
            let ghost held = self.wpm_history@;
            let sample = StatsSample {
                at_ms: now,
                progress: self.stats.progress,
                value: self.stats.wpm,
            };
            self.wpm_history.push(sample);
            proof {
                assert(samples_view(self.wpm_history@) =~= samples_view(held).push(sample@));
            }
            self.prev_hist_ms = now;
        }
        if self.stats.progress >= 100 {
            self.running = TestState::Post;
        }
    }

    /// Handles a word break: the separator key, or any key that stands
    /// for it.
    pub fn on_word_break(&mut self)
        requires
            old(self).wf(),
        ensures
            final(self).wf(),
            final(self)@ == after_word_break(old(self)@),
    {
        match self.running {
            TestState::Running => {},
            _ => {
                return ;
            },
        }
        let ghost before = self@;
        proof {
            lemma_word_ends_shape(before.target);
            lemma_separator_ends_shape(before.entered);
            lemma_separator_ends_push(before.entered, SEPARATOR);
        }
        let done = self.entered.commit_word_break(self.target.words());
        proof {
            if !(before.entered.len() > 0 && before.entered.last() == SEPARATOR) {
                lemma_progress_grows(
                    before.kind,
                    compared_words(before.target, before.entered),
                    compared_words(before.target, before.entered.push(SEPARATOR)),
                    before.words(),
                    before.elapsed_ms(),
                    before.elapsed_ms(),
                );
            }
        }
        if done {
            self.running = TestState::Post;
            self.stats = measure(
                self.target_type,
                &self.target,
                &self.entered,
                self.now_ms - self.start_ms,
            );
        }
    }

    /// Handles the character `c`, typed at `now_ms`.
    pub fn on_char(&mut self, c: char, now_ms: u64)
        requires
            old(self).wf(),
        ensures
            final(self).wf(),
            final(self)@ == after_char(old(self)@, c, now_ms as int),
    {
        if c == SEPARATOR {
            self.on_word_break();
            return ;
        }
        match self.running {
            TestState::Post => {
                return ;
            },
            _ => {},
        }
        if self.target.words() == 0 {
            return ;
        }
        let ghost before = self@;
        proof {
            lemma_separator_ends_push(before.entered, c);
        }
        let accepted = self.entered.append_char(c);
        match self.running {
            TestState::Pre => {
                self.running = TestState::Running;
                self.start_ms = now_ms;
                self.now_ms = now_ms;
                self.prev_hist_ms = now_ms;
                self.accuracy_history.clear();
                self.wpm_history.clear();
                proof {
                    assert(samples_view(self.accuracy_history@) =~= Seq::<SampleView>::empty());
                    assert(samples_view(self.wpm_history@) =~= Seq::<SampleView>::empty());
                }
            },
            _ => {},
        }
    }

    /// Handles a backspace.
    pub fn on_backspace(&mut self)
        requires
            old(self).wf(),
        ensures
            final(self).wf(),
            final(self)@ == after_backspace(old(self)@),
    {
        match self.running {
            TestState::Running => {},
            _ => {
                return ;
            },
        }
        let ghost before = self@;
        self.entered.delete_last_char();
        proof {
            if !at_word_start(before.entered) {
                assert(separator_ends(before.entered.drop_last()) == separator_ends(
                    before.entered,
                ));
            }
        }
    }

    /// Handles a request to end the test.
    pub fn on_force_end(&mut self)
        requires
            old(self).wf(),
        ensures
            final(self).wf(),
            final(self)@ == after_force_end(old(self)@),
    {
        match self.running {
            TestState::Running => {
                self.running = TestState::Post;
            },
            _ => {},
        }
    }

    /// Handles a request for a new test, made at `now_ms`: the session is
    /// idle again, on a new target, with nothing typed and no samples.
    pub fn on_abort(&mut self, now_ms: u64)
        requires
            old(self).wf(),
        ensures
            final(self).wf(),
            is_new_test(old(self)@, final(self)@, now_ms as int),
    {
        self.running = TestState::Pre;
        if now_ms > self.now_ms {
            self.now_ms = now_ms;
        }
        self.target = Passage::generate(&self.dict, self.target_type.word_count());
        self.entered = EnteredText::new();
        self.accuracy_history.clear();
        self.wpm_history.clear();
        proof {
            assert(samples_view(self.accuracy_history@) =~= Seq::<SampleView>::empty());
            assert(samples_view(self.wpm_history@) =~= Seq::<SampleView>::empty());
            lemma_word_ends_shape(self@.target);
        }
    }

    /// Handles the key pressed at `now_ms`.
    pub fn on_key(&mut self, key: Key, now_ms: u64)
        requires
            old(self).wf(),
        ensures
            final(self).wf(),
            key_effect(old(self)@, key, now_ms as int, final(self)@),
    {
        match key {
            Key::Char(c) => self.on_char(c, now_ms),
            Key::Right | Key::Enter => self.on_word_break(),
            Key::Backspace => self.on_backspace(),
            Key::Esc => self.on_abort(now_ms),
            Key::Tab => self.on_force_end(),
            Key::Left => {},
            Key::Up => {},
            Key::Down => {},
            Key::Home => {},
            Key::End => {},
            Key::PageUp => {},
            Key::PageDown => {},
            Key::BackTab => {},
            Key::Delete => {},
            Key::Insert => {},
            Key::F(_) => {},
            Key::Null => {},
        }
    }

    /// Where the test stands.
    pub fn state(&self) -> (r: TestState)
        ensures
            r == self@.state,
    {
        self.running
    }

    /// How long the test is.
    pub fn target_type(&self) -> (r: TargetStringType)
        ensures
            r == self@.kind,
    {
        self.target_type
    }

    /// Whether the test runs on time, so that its target must not run out.
    pub fn target_is_infinite(&self) -> (r: bool)
        ensures
            r == (self@.kind is Timed),
    {
        self.target_type.is_timed()
    }

    /// The passage to type.
    pub fn target(&self) -> (r: &Passage)
        requires
            self.wf(),
        ensures
            r.wf(),
            r@ == self@.target,
    {
        &self.target
    }

    /// What has been typed.
    pub fn entered(&self) -> (r: &EnteredText)
        requires
            self.wf(),
        ensures
            r.wf(),
            r@ == self@.entered,
            r.is_closed() == self@.is_closed(),
            r.ends() == self@.entered_ends(),
    {
        &self.entered
    }

    /// The figures as the last tick, or the end of the test, found them.
    pub fn stats(&self) -> (r: Stats)
        ensures
            r@ == self@.stats,
    {
        self.stats
    }

    /// Correct words per minute.
    pub fn wpm(&self) -> (r: u128)
        ensures
            r == self@.stats.wpm,
    {
        self.stats.wpm
    }

    /// The share of correct words among those compared, in percent.
    pub fn accuracy(&self) -> (r: u64)
        ensures
            r == self@.stats.accuracy,
    {
        self.stats.accuracy
    }

    /// The progress of the test, in percent.
    pub fn progress(&self) -> (r: u64)
        ensures
            r == self@.stats.progress,
    {
        self.stats.progress
    }

    /// The number of words committed exactly as the target has them.
    pub fn correct(&self) -> (r: usize)
        ensures
            r == self@.stats.correct,
    {
        self.stats.correct
    }

    /// The time since the test started, in milliseconds.
    pub fn elapsed_ms(&self) -> (r: u64)
        requires
            self.wf(),
        ensures
            r == self@.elapsed_ms(),
    {
        self.now_ms - self.start_ms
    }

    /// The accuracy over the progress of the test.
    pub fn accuracy_history(&self) -> (r: &Vec<StatsSample>)
        ensures
            samples_view(r@) == self@.accuracy_history,
    {
        &self.accuracy_history
    }

    /// The speed over the progress of the test.
    pub fn wpm_history(&self) -> (r: &Vec<StatsSample>)
        ensures
            samples_view(r@) == self@.wpm_history,
    {
        &self.wpm_history
    }

    /// The target laid out in rows no wider than `width`, each word diffed
    /// against what was typed for it. The word being typed is the last
    /// entered word.
    pub fn rows<'a>(&'a self, width: usize) -> (rows: Vec<Vec<Span<'a>>>)
        requires
            self.wf(),
        ensures
            rows_view(rows@) == layout_spec(
                diffs_of(self@.target, self@.entered, self@.entered_ends()),
                width as int,
                self@.entered_ends().len() - 1,
            ),
            rows@.len() >= 1,
    {
        proof {
            self.entered.lemma_offsets();
        }
        let diffs = word_diffs(&self.target, &self.entered);
        let current: usize = self.entered.offsets().len() - 1;
        layout_rows(&diffs, width, current)
    }

    /// An idle session on a passage drawn from `dict`, as long as `kind`
    /// asks.
    pub fn new(dict: Dictionary, kind: TargetStringType, now_ms: u64) -> (s: Session)
        requires
            dict.wf(),
            kind.fits(),
        ensures
            s.wf(),
            s@.dict == dict@,
            s@.kind == kind,
            s@.state == TestState::Pre,
            drawn_from(s@.target, dict@, kind.words()),
            s@.words() == kind.words(),
            s@.entered == Seq::<char>::empty(),
            s@.start_ms == now_ms,
            s@.prev_hist_ms == now_ms,
            s@.now_ms == now_ms,
            s@.stats == (StatsView { correct: 0, accuracy: 0, progress: 0, wpm: 0 }),
            s@.accuracy_history == Seq::<SampleView>::empty(),
            s@.wpm_history == Seq::<SampleView>::empty(),
    {
        let target = Passage::generate(&dict, kind.word_count());
        Session::with_passage(dict, kind, target, now_ms)
    }
}

} // verus!
