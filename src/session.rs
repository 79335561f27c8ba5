//! The learning-session engine: a state machine that decides, for one set,
//! what the store and the user are asked next. The caller performs each
//! action against its store and user and hands back what happened.
use vstd::prelude::*;
use rand::seq::SliceRandom;
use crate::direction::Direction;
use crate::grading::{Verdict, expected_answer, grade, grade_spec, expected_side, shown_side, shown_text};
use crate::store::{Entry, StoreModel, cleared, has_session, marked, unmastered, wf_model};
use crate::text::{lower_of, trimmed};

verus! {

/// An entry as the contracts see it: `(term_id, term, definition)`.
pub type EntryView = (i64, Seq<char>, Seq<char>);

pub open spec fn entries_view(v: Seq<Entry>) -> Seq<EntryView> {
    v.map_values(|e: Entry| e@)
}

/// Where a session stands.
#[derive(Debug, Clone, Copy, PartialEq, Eq, Structural)]
pub enum Phase {
    /// Waiting to learn whether the set has session entries.
    Checking,
    /// Waiting for the snapshot of the set to be written.
    Snapshotting,
    /// Waiting for the unmastered entries of the set.
    Fetching,
    /// Waiting for the answer to the current entry of the round.
    Asking,
    /// Waiting for the user to acknowledge the feedback on an answer.
    Feedback,
    /// Waiting for the set's entries to be removed.
    Clearing,
    /// The session is over.
    Finished,
}

/// What happened after the caller performed the last action.
pub enum Event {
    SessionChecked(bool),
    SnapshotCreated,
    Fetched(Vec<Entry>),
    Answered(String),
    Acknowledged,
    Cleared,
}

pub enum EventView {
    SessionChecked(bool),
    SnapshotCreated,
    Fetched(Seq<EntryView>),
    Answered(Seq<char>),
    Acknowledged,
    Cleared,
}

impl View for Event {
    type V = EventView;

    open spec fn view(&self) -> EventView {
        match self {
            Event::SessionChecked(b) => EventView::SessionChecked(*b),
            Event::SnapshotCreated => EventView::SnapshotCreated,
            Event::Fetched(v) => EventView::Fetched(entries_view(v@)),
            Event::Answered(a) => EventView::Answered(a@),
            Event::Acknowledged => EventView::Acknowledged,
            Event::Cleared => EventView::Cleared,
        }
    }
}

/// What the caller is asked to do next.
#[derive(Debug, Clone, PartialEq, Eq)]
pub enum Action {
    /// Find out whether the set has session entries.
    CheckSession,
    /// Write one unmastered entry per term of the set, all at once.
    CreateSnapshot,
    /// Read the unmastered entries of the set.
    FetchUnmastered,
    /// Show `prompt` and read an answer.
    Ask { prompt: String },
    /// The answer was right: mark the entry of `term_id` mastered.
    MarkMastered { term_id: i64 },
    /// The answer was wrong: show the expected answer.
    ShowAnswer { expected: String },
    /// Every entry is mastered: remove the set's entries.
    ClearSession,
    /// The set is learned; the session is over.
    Completed,
    /// The user left; the entries stay as they are.
    Exited,
    /// The event does not fit the session's phase; nothing changed.
    Ignored,
}

pub enum ActionView {
    CheckSession,
    CreateSnapshot,
    FetchUnmastered,
    Ask { prompt: Seq<char> },
    MarkMastered { term_id: i64 },
    ShowAnswer { expected: Seq<char> },
    ClearSession,
    Completed,
    Exited,
    Ignored,
}

impl View for Action {
    type V = ActionView;

    open spec fn view(&self) -> ActionView {
        match self {
            Action::CheckSession => ActionView::CheckSession,
            Action::CreateSnapshot => ActionView::CreateSnapshot,
            Action::FetchUnmastered => ActionView::FetchUnmastered,
            Action::Ask { prompt } => ActionView::Ask { prompt: prompt@ },
            Action::MarkMastered { term_id } => ActionView::MarkMastered { term_id: *term_id },
            Action::ShowAnswer { expected } => ActionView::ShowAnswer { expected: expected@ },
            Action::ClearSession => ActionView::ClearSession,
            Action::Completed => ActionView::Completed,
            Action::Exited => ActionView::Exited,
            Action::Ignored => ActionView::Ignored,
        }
    }
}

#[verifier::ext_equal]
pub struct SessionView {
    pub set_id: i64,
    pub direction: Direction,
    pub phase: Phase,
    /// The current round, in the order in which it is asked.
    pub round: Seq<EntryView>,
    /// The position of the current entry in the round.
    pub pos: int,
}

/// The engine's state for one set.
pub struct Session {
    set_id: i64,
    direction: Direction,
    phase: Phase,
    round: Vec<Entry>,
    pos: usize,
}

impl View for Session {
    type V = SessionView;

    closed spec fn view(&self) -> SessionView {
        SessionView {
            set_id: self.set_id,
            direction: self.direction,
            phase: self.phase,
            round: entries_view(self.round@),
            pos: self.pos as int,
        }
    }
}

/// A session asking or giving feedback points at an entry of its round.
pub open spec fn session_inv(s: SessionView) -> bool {
    (s.phase == Phase::Asking || s.phase == Phase::Feedback) ==> 0 <= s.pos < s.round.len()
}

pub open spec fn ask(s: SessionView, pos: int) -> (SessionView, ActionView) {
    let e = s.round[pos];
    (
        SessionView { phase: Phase::Asking, pos, ..s },
        ActionView::Ask { prompt: shown_side(s.direction, e.1, e.2) },
    )
}

pub open spec fn moved(s: SessionView, phase: Phase, a: ActionView) -> (SessionView, ActionView) {
    (SessionView { phase, ..s }, a)
}

/// The engine's transition on event `e`, where `order` is the shuffled
/// order of a fetched round.
pub open spec fn next(s: SessionView, e: EventView, order: Seq<EntryView>) -> (SessionView, ActionView) {
    match (s.phase, e) {
        (Phase::Checking, EventView::SessionChecked(true)) => moved(
            s,
            Phase::Fetching,
            ActionView::FetchUnmastered,
        ),
        (Phase::Checking, EventView::SessionChecked(false)) => moved(
            s,
            Phase::Snapshotting,
            ActionView::CreateSnapshot,
        ),
        (Phase::Snapshotting, EventView::SnapshotCreated) => moved(
            s,
            Phase::Fetching,
            ActionView::FetchUnmastered,
        ),
        (Phase::Fetching, EventView::Fetched(entries)) => if entries.len() == 0 {
            moved(s, Phase::Clearing, ActionView::ClearSession)
        } else {
            ask(SessionView { round: order, ..s }, 0)
        },
        (Phase::Asking, EventView::Answered(a)) => {
            let c = s.round[s.pos];
            match grade_spec(s.direction, c.1, c.2, a) {
                Verdict::Exit => moved(s, Phase::Finished, ActionView::Exited),
                Verdict::Correct => moved(
                    s,
                    Phase::Feedback,
                    ActionView::MarkMastered { term_id: c.0 },
                ),
                Verdict::Incorrect => moved(
                    s,
                    Phase::Feedback,
                    ActionView::ShowAnswer { expected: expected_side(s.direction, c.1, c.2) },
                ),
            }
        },
        (Phase::Feedback, EventView::Acknowledged) => if s.pos + 1 < s.round.len() {
            ask(s, s.pos + 1)
        } else {
            moved(s, Phase::Fetching, ActionView::FetchUnmastered)
        },
        (Phase::Clearing, EventView::Cleared) => moved(s, Phase::Finished, ActionView::Completed),
        _ => (s, ActionView::Ignored),
    }
}

/// The entries of a fetched round, or none for another event.
pub open spec fn fetched(e: EventView) -> Seq<EntryView> {
    match e {
        EventView::Fetched(entries) => entries,
        _ => Seq::empty(),
    }
}

/// Relies on rand's `SliceRandom::shuffle` with the thread-local generator:
/// it only swaps elements, so each entry comes back exactly as often as it
/// went in, in an order of the generator's choosing.
#[verifier::external_body]
fn shuffle_entries(v: Vec<Entry>) -> (r: Vec<Entry>)
    ensures
        entries_view(r@).to_multiset() == entries_view(v@).to_multiset(),
{
    let mut v = v;
    v.shuffle(&mut rand::rng());
    v
}

impl Session {
    pub closed spec fn inv(&self) -> bool {
        session_inv(self@)
    }

    /// A session for the set `set_id`, and its first action: finding out
    /// whether the set has entries.
    pub fn begin(set_id: i64, direction: Direction) -> (r: (Session, Action))
        ensures
            r.0.inv(),
            r.0@ == (SessionView {
                set_id,
                direction,
                phase: Phase::Checking,
                round: Seq::empty(),
                pos: 0,
            }),
            r.1@ == ActionView::CheckSession,
    {
        let s = Session { set_id, direction, phase: Phase::Checking, round: Vec::new(), pos: 0 };
        assert(s@ =~= (SessionView {
            set_id,
            direction,
            phase: Phase::Checking,
            round: Seq::empty(),
            pos: 0,
        }));
        (s, Action::CheckSession)
    }

    pub fn set_id(&self) -> (r: i64)
        ensures
            r == self@.set_id,
    {
        self.set_id
    }

    pub fn phase(&self) -> (r: Phase)
        ensures
            r == self@.phase,
    {
        self.phase
    }

    fn ask_at(&mut self, pos: usize) -> (r: Action)
        requires
            pos < old(self)@.round.len(),
        ensures
            (final(self)@, r@) == ask(old(self)@, pos as int),
    {
        let e = &self.round[pos];
        let prompt = shown_text(self.direction, e.term.as_str(), e.definition.as_str()).to_owned();
        self.phase = Phase::Asking;
        self.pos = pos;
        let r = Action::Ask { prompt };
        assert(final(self)@ =~= ask(old(self)@, pos as int).0);
        r
    }

    /// Starts a round on entries already put in their asking order; an empty
    /// round completes the set.
    pub fn begin_round(&mut self, order: Vec<Entry>) -> (r: Action)
        requires
            old(self).inv(),
            old(self)@.phase == Phase::Fetching,
        ensures
            final(self).inv(),
            (final(self)@, r@) == next(
                old(self)@,
                EventView::Fetched(entries_view(order@)),
                entries_view(order@),
            ),
    {
        if order.len() == 0 {
            self.phase = Phase::Clearing;
            Action::ClearSession
        } else {
            self.round = order;
            self.pos = 0;
            self.ask_at(0)
        }
    }

    /// Advances the session on event `e`.
    pub fn step(&mut self, e: Event) -> (r: Action)
        requires
            old(self).inv(),
        ensures
            final(self).inv(),
            exists|order: Seq<EntryView>|
                order.to_multiset() == fetched(e@).to_multiset() && (final(self)@, r@) == next(
                    old(self)@,
                    e@,
                    order,
                ),
    {
        let ghost s0 = self@;
        let ghost ev = e@;
        match (self.phase, e) {
            (Phase::Checking, Event::SessionChecked(exists)) => {
                if exists {
                    self.phase = Phase::Fetching;
                    assert(next(s0, ev, fetched(ev)) == (self@, ActionView::FetchUnmastered));
                    Action::FetchUnmastered
                } else {
                    self.phase = Phase::Snapshotting;
                    assert(next(s0, ev, fetched(ev)) == (self@, ActionView::CreateSnapshot));
                    Action::CreateSnapshot
                }
            },
            (Phase::Snapshotting, Event::SnapshotCreated) => {
                self.phase = Phase::Fetching;
                assert(next(s0, ev, fetched(ev)) == (self@, ActionView::FetchUnmastered));
                Action::FetchUnmastered
            },
            (Phase::Fetching, Event::Fetched(entries)) => {
                let ghost fetched_view = entries_view(entries@);
                let order = shuffle_entries(entries);
                proof {
                    vstd::seq_lib::to_multiset_len(fetched_view);
                    vstd::seq_lib::to_multiset_len(entries_view(order@));
                }
                let ghost order_view = entries_view(order@);
                let r = self.begin_round(order);
                assert(next(s0, ev, order_view) == (self@, r@));
                r
            },
            (Phase::Asking, Event::Answered(a)) => {
                let c = &self.round[self.pos];
                let r = match grade(self.direction, c.term.as_str(), c.definition.as_str(), a.as_str()) {
                    Verdict::Exit => {
                        self.phase = Phase::Finished;
                        Action::Exited
                    },
                    Verdict::Correct => {
                        self.phase = Phase::Feedback;
                        Action::MarkMastered { term_id: c.term_id }
                    },
                    Verdict::Incorrect => {
                        let expected = expected_answer(
                            self.direction,
                            c.term.as_str(),
                            c.definition.as_str(),
                        ).to_owned();
                        self.phase = Phase::Feedback;
                        Action::ShowAnswer { expected }
                    },
                };
                assert(next(s0, ev, fetched(ev)) == (self@, r@));
                r
            },
            (Phase::Feedback, Event::Acknowledged) => {
                assert(self.pos < self.round@.len());
                if self.pos < self.round.len() - 1 {
                    let r = self.ask_at(self.pos + 1);
                    assert(next(s0, ev, fetched(ev)) == (self@, r@));
                    r
                } else {
                    self.phase = Phase::Fetching;
                    assert(next(s0, ev, fetched(ev)) == (self@, ActionView::FetchUnmastered));
                    Action::FetchUnmastered
                }
            },
            (Phase::Clearing, Event::Cleared) => {
                self.phase = Phase::Finished;
                assert(next(s0, ev, fetched(ev)) == (self@, ActionView::Completed));
                Action::Completed
            },
            _ => {
                assert(next(s0, ev, fetched(ev)) == (self@, ActionView::Ignored));
                Action::Ignored
            },
        }
    }
}

/// An answer equal to the expected side up to case and surrounding white
/// space, and not the cancel word, marks the entry mastered, in either
/// direction; any other answer but the cancel word leaves the entry as it is
/// and shows the expected side.
pub proof fn lemma_answer_outcome(s: SessionView, a: Seq<char>, m: StoreModel)
    requires
        session_inv(s),
        s.phase == Phase::Asking,
        lower_of(trimmed(a)) != "exit"@,
    ensures
        ({
            let c = s.round[s.pos];
            let expected = expected_side(s.direction, c.1, c.2);
            let (n, act) = next(s, EventView::Answered(a), Seq::empty());
            &&& n.phase == Phase::Feedback
            &&& lower_of(trimmed(a)) == lower_of(expected) ==> act == ActionView::MarkMastered {
                term_id: c.0,
            }
            &&& lower_of(trimmed(a)) != lower_of(expected) ==> act == ActionView::ShowAnswer {
                expected,
            }
            &&& forall|i: int|
                0 <= i < m.cards.len() && m.cards[i].set_id == s.set_id && m.cards[i].id == c.0
                    && m.cards[i].progress is Some ==> (#[trigger] marked(
                    m,
                    s.set_id,
                    c.0,
                ).cards[i]).progress == Some(true)
        }),
{
}

/// Entering a set whose entries exist goes straight to fetching them, with no
/// second snapshot; entering one without entries asks for a snapshot.
pub proof fn lemma_entry_decision(s: SessionView, m: StoreModel)
    requires
        s.phase == Phase::Checking,
    ensures
        has_session(m, s.set_id) ==> next(
            s,
            EventView::SessionChecked(has_session(m, s.set_id)),
            Seq::empty(),
        ).1 == ActionView::FetchUnmastered,
        !has_session(m, s.set_id) ==> next(
            s,
            EventView::SessionChecked(has_session(m, s.set_id)),
            Seq::empty(),
        ).1 == ActionView::CreateSnapshot,
{
}

/// When the fetched round is empty, the next step clears the set's entries
/// and the one after reports completion; entering the set later finds no
/// entries and asks for a fresh snapshot.
pub proof fn lemma_completion_step(s: SessionView, m: StoreModel, order: Seq<EntryView>)
    requires
        s.phase == Phase::Fetching,
        wf_model(m),
        unmastered(m, s.set_id).len() == 0,
    ensures
        ({
            let (s1, a1) = next(s, EventView::Fetched(unmastered(m, s.set_id)), order);
            let (s2, a2) = next(s1, EventView::Cleared, order);
            &&& a1 == ActionView::ClearSession
            &&& a2 == ActionView::Completed
            &&& s2.phase == Phase::Finished
        }),
        !has_session(cleared(m, s.set_id), s.set_id),
        next(
            SessionView { phase: Phase::Checking, ..s },
            EventView::SessionChecked(has_session(cleared(m, s.set_id), s.set_id)),
            order,
        ).1 == ActionView::CreateSnapshot,
{
    crate::store::lemma_completion_clears(m, s.set_id);
}

} // verus!
