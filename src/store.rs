//! An in-memory store for sets, terms, session progress and the learning
//! direction setting. Each term carries its session entry: `None` when the
//! set has no active pass, `Some(mastered)` otherwise.
use vstd::prelude::*;
use crate::direction::{decoded, setting_text, Direction};

verus! {

/// A set as stored: `(id, name)`.
pub struct SetRecord {
    pub id: i64,
    pub name: String,
}

/// A term as stored, owned by the set `set_id`.
pub struct TermRecord {
    pub id: i64,
    pub set_id: i64,
    pub term: String,
    pub definition: String,
}

/// An unmastered term handed to a learning round.
pub struct Entry {
    pub term_id: i64,
    pub term: String,
    pub definition: String,
}

impl View for Entry {
    type V = (i64, Seq<char>, Seq<char>);

    open spec fn view(&self) -> (i64, Seq<char>, Seq<char>) {
        (self.term_id, self.term@, self.definition@)
    }
}

/// Failures of a store operation.
#[derive(Debug, Clone, Copy, PartialEq, Eq, Structural)]
pub enum StoreError {
    NotFound,
    ConstraintViolation,
}

/// A term together with its session entry.
#[verifier::ext_equal]
pub struct CardModel {
    pub id: i64,
    pub set_id: i64,
    pub term: Seq<char>,
    pub definition: Seq<char>,
    pub progress: Option<bool>,
}

#[verifier::ext_equal]
pub struct StoreModel {
    pub sets: Seq<(i64, Seq<char>)>,
    pub cards: Seq<CardModel>,
    pub setting: Option<Seq<char>>,
    pub next_id: int,
}

pub struct Store {
    sets: Vec<SetRecord>,
    terms: Vec<TermRecord>,
    progress: Vec<Option<bool>>,
    setting: Option<String>,
    next_id: i64,
}

impl View for Store {
    type V = StoreModel;

    closed spec fn view(&self) -> StoreModel {
        StoreModel {
            sets: self.sets@.map_values(|s: SetRecord| (s.id, s.name@)),
            cards: cards_of(self.terms@, self.progress@),
            setting: match self.setting {
                Some(v) => Some(v@),
                None => None,
            },
            next_id: self.next_id as int,
        }
    }
}

/// Whether a set named `name` exists.
pub open spec fn has_set_named(m: StoreModel, name: Seq<char>) -> bool {
    exists|i: int| 0 <= i < m.sets.len() && m.sets[i].1 == name
}

/// Whether a set with id `s` exists.
pub open spec fn has_set(m: StoreModel, s: i64) -> bool {
    exists|i: int| 0 <= i < m.sets.len() && m.sets[i].0 == s
}

/// Whether the set `s` has session entries.
pub open spec fn has_session(m: StoreModel, s: i64) -> bool {
    exists|i: int| 0 <= i < m.cards.len() && m.cards[i].set_id == s && m.cards[i].progress is Some
}

/// The well-formedness of a store: keys are unique, every term belongs to a
/// set, every id is below the next one to hand out, and a set's session
/// entries cover all of its terms or none of them.
pub open spec fn wf_model(m: StoreModel) -> bool {
    &&& 0 < m.next_id <= i64::MAX
    &&& forall|i: int, j: int|
        0 <= i < m.sets.len() && 0 <= j < m.sets.len() && i != j ==> m.sets[i].0 != m.sets[j].0
            && m.sets[i].1 != m.sets[j].1
    &&& forall|i: int| 0 <= i < m.sets.len() ==> m.sets[i].0 < m.next_id
    &&& forall|i: int, j: int|
        0 <= i < m.cards.len() && 0 <= j < m.cards.len() && i != j ==> m.cards[i].id
            != m.cards[j].id
    &&& forall|i: int| 0 <= i < m.cards.len() ==> m.cards[i].id < m.next_id
    &&& forall|i: int| 0 <= i < m.cards.len() ==> has_set(m, #[trigger] m.cards[i].set_id)
    &&& forall|i: int, j: int|
        0 <= i < m.cards.len() && 0 <= j < m.cards.len() && m.cards[i].set_id
            == m.cards[j].set_id ==> (m.cards[i].progress is Some <==> m.cards[j].progress is Some)
}

/// `m` with the session entry of every card rewritten by `f`.
pub open spec fn with_progress(m: StoreModel, f: spec_fn(CardModel) -> Option<bool>) -> StoreModel {
    StoreModel {
        cards: Seq::new(
            m.cards.len(),
            |i: int|
                CardModel {
                    id: m.cards[i].id,
                    set_id: m.cards[i].set_id,
                    term: m.cards[i].term,
                    definition: m.cards[i].definition,
                    progress: f(m.cards[i]),
                },
        ),
        ..m
    }
}

/// A fresh snapshot for `s`: one unmastered entry per term of the set.
pub open spec fn snapshot(m: StoreModel, s: i64) -> StoreModel {
    with_progress(
        m,
        |c: CardModel|
            if c.set_id == s {
                Some(false)
            } else {
                c.progress
            },
    )
}

/// Entering a set: a snapshot when it has no entries, else nothing changes.
pub open spec fn entered(m: StoreModel, s: i64) -> StoreModel {
    if has_session(m, s) {
        m
    } else {
        snapshot(m, s)
    }
}

/// The entry of term `t` in set `s` marked mastered, where it exists.
pub open spec fn marked(m: StoreModel, s: i64, t: i64) -> StoreModel {
    with_progress(
        m,
        |c: CardModel|
            if c.set_id == s && c.id == t && c.progress is Some {
                Some(true)
            } else {
                c.progress
            },
    )
}

/// All entries of set `s` removed.
pub open spec fn cleared(m: StoreModel, s: i64) -> StoreModel {
    with_progress(
        m,
        |c: CardModel|
            if c.set_id == s {
                None
            } else {
                c.progress
            },
    )
}

/// The unmastered entries of set `s` among the first `n` cards, in card order.
pub open spec fn unmastered_upto(cards: Seq<CardModel>, s: i64, n: int) -> Seq<
    (i64, Seq<char>, Seq<char>),
>
    decreases n,
{
    if n <= 0 {
        Seq::empty()
    } else {
        let prev = unmastered_upto(cards, s, n - 1);
        let c = cards[n - 1];
        if c.set_id == s && c.progress == Some(false) {
            prev.push((c.id, c.term, c.definition))
        } else {
            prev
        }
    }
}

/// The unmastered entries of set `s`.
pub open spec fn unmastered(m: StoreModel, s: i64) -> Seq<(i64, Seq<char>, Seq<char>)> {
    unmastered_upto(m.cards, s, m.cards.len() as int)
}

/// The learning direction that the store's setting decodes to.
pub open spec fn direction_of(m: StoreModel) -> Direction {
    decoded(m.setting)
}

/// The cards made of term records and their session entries, index by index.
pub open spec fn cards_of(terms: Seq<TermRecord>, progress: Seq<Option<bool>>) -> Seq<CardModel> {
    Seq::new(
        terms.len(),
        |i: int|
            CardModel {
                id: terms[i].id,
                set_id: terms[i].set_id,
                term: terms[i].term@,
                definition: terms[i].definition@,
                progress: if i < progress.len() {
                    progress[i]
                } else {
                    None
                },
            },
    )
}

/// The elements of `xs` that satisfy `p`, in order.
pub open spec fn kept<A>(xs: Seq<A>, p: spec_fn(A) -> bool) -> Seq<A>
    decreases xs.len(),
{
    if xs.len() == 0 {
        Seq::empty()
    } else {
        let prev = kept(xs.drop_last(), p);
        if p(xs.last()) {
            prev.push(xs.last())
        } else {
            prev
        }
    }
}

pub open spec fn set_other_than(s: i64) -> spec_fn((i64, Seq<char>)) -> bool {
    |x: (i64, Seq<char>)| x.0 != s
}

pub open spec fn card_other_than(s: i64) -> spec_fn(CardModel) -> bool {
    |c: CardModel| c.set_id != s
}

/// The set `s` removed, together with its terms and their entries.
pub open spec fn deleted(m: StoreModel, s: i64) -> StoreModel {
    StoreModel {
        sets: kept(m.sets, set_other_than(s)),
        cards: kept(m.cards, card_other_than(s)),
        ..m
    }
}

/// What `kept` holds: exactly the elements of `xs` that satisfy `p`.
pub proof fn lemma_kept<A>(xs: Seq<A>, p: spec_fn(A) -> bool)
    ensures
        forall|k: int|
            0 <= k < kept(xs, p).len() ==> p(#[trigger] kept(xs, p)[k]) && xs.contains(
                kept(xs, p)[k],
            ),
        forall|j: int| 0 <= j < xs.len() && p(#[trigger] xs[j]) ==> kept(xs, p).contains(xs[j]),
    decreases xs.len(),
{
    if xs.len() > 0 {
        let init = xs.drop_last();
        lemma_kept(init, p);
        let prev = kept(init, p);
        let r = kept(xs, p);
        assert forall|k: int| 0 <= k < r.len() implies p(#[trigger] r[k]) && xs.contains(r[k]) by {
            if k < prev.len() {
                assert(r[k] == prev[k]);
                let j = choose|j: int| 0 <= j < init.len() && init[j] == prev[k];
                assert(xs[j] == init[j]);
            } else {
                assert(r[k] == xs[xs.len() - 1]);
            }
        }
        assert forall|j: int| 0 <= j < xs.len() && p(#[trigger] xs[j]) implies r.contains(xs[j]) by {
            if j < xs.len() - 1 {
                assert(init[j] == xs[j]);
                assert(prev.contains(xs[j]));
                let k = choose|k: int| 0 <= k < prev.len() && prev[k] == xs[j];
                assert(r[k] == prev[k]);
            } else {
                assert(r[r.len() - 1] == xs[j]);
            }
        }
    }
}

/// `kept` keeps a key that is distinct across `xs` distinct.
pub proof fn lemma_kept_distinct<A, K>(xs: Seq<A>, p: spec_fn(A) -> bool, key: spec_fn(A) -> K)
    requires
        forall|i: int, j: int|
            0 <= i < xs.len() && 0 <= j < xs.len() && i != j ==> key(xs[i]) != key(xs[j]),
    ensures
        forall|i: int, j: int|
            0 <= i < kept(xs, p).len() && 0 <= j < kept(xs, p).len() && i != j ==> key(
                kept(xs, p)[i],
            ) != key(kept(xs, p)[j]),
    decreases xs.len(),
{
    if xs.len() > 0 {
        let init = xs.drop_last();
        assert forall|i: int, j: int|
            0 <= i < init.len() && 0 <= j < init.len() && i != j implies key(init[i]) != key(
                init[j],
            ) by {
            assert(init[i] == xs[i] && init[j] == xs[j]);
        }
        lemma_kept_distinct(init, p, key);
        lemma_kept(init, p);
        let prev = kept(init, p);
        let r = kept(xs, p);
        if p(xs.last()) {
            assert forall|k: int| 0 <= k < prev.len() implies key(prev[k]) != key(xs.last()) by {
                assert(p(prev[k]));
                let j = choose|j: int| 0 <= j < init.len() && init[j] == prev[k];
                assert(xs[j] == init[j]);
            }
            assert forall|i: int, j: int|
                0 <= i < r.len() && 0 <= j < r.len() && i != j implies key(r[i]) != key(r[j]) by {
                if i < prev.len() && j < prev.len() {
                    assert(r[i] == prev[i] && r[j] == prev[j]);
                } else if i < prev.len() {
                    assert(r[i] == prev[i]);
                } else if j < prev.len() {
                    assert(r[j] == prev[j]);
                }
            }
        }
    }
}

/// Deleting a set keeps a well-formed store well formed.
pub proof fn lemma_deleted_wf(m: StoreModel, s: i64)
    requires
        wf_model(m),
    ensures
        wf_model(deleted(m, s)),
{
    let n = deleted(m, s);
    let ps = set_other_than(s);
    let pc = card_other_than(s);
    lemma_kept(m.sets, ps);
    lemma_kept(m.cards, pc);
    lemma_kept_distinct(m.sets, ps, |x: (i64, Seq<char>)| x.0);
    lemma_kept_distinct(m.sets, ps, |x: (i64, Seq<char>)| x.1);
    lemma_kept_distinct(m.cards, pc, |c: CardModel| c.id);
    assert forall|i: int| 0 <= i < n.sets.len() implies n.sets[i].0 < n.next_id by {
        assert(ps(n.sets[i]));
    }
    assert forall|i: int| 0 <= i < n.cards.len() implies n.cards[i].id < n.next_id by {
        assert(pc(n.cards[i]));
    }
    assert forall|i: int| 0 <= i < n.cards.len() implies has_set(n, #[trigger] n.cards[i].set_id) by {
        assert(pc(n.cards[i]));
        let j = choose|j: int| 0 <= j < m.cards.len() && m.cards[j] == n.cards[i];
        assert(has_set(m, m.cards[j].set_id));
        let k = choose|k: int| 0 <= k < m.sets.len() && m.sets[k].0 == m.cards[j].set_id;
        assert(ps(m.sets[k]));
        assert(n.sets.contains(m.sets[k]));
    }
    assert forall|i: int, j: int|
        0 <= i < n.cards.len() && 0 <= j < n.cards.len() && n.cards[i].set_id
            == n.cards[j].set_id implies (n.cards[i].progress is Some
        <==> n.cards[j].progress is Some) by {
        assert(pc(n.cards[i]) && pc(n.cards[j]));
        let a = choose|a: int| 0 <= a < m.cards.len() && m.cards[a] == n.cards[i];
        let b = choose|b: int| 0 <= b < m.cards.len() && m.cards[b] == n.cards[j];
    }
}

/// A store whose cards keep their keys and contents, and whose sets with an
/// entry on one card have entries on all, is well formed again.
proof fn lemma_progress_rewrite_wf(m: StoreModel, n: StoreModel)
    requires
        wf_model(m),
        n.sets == m.sets,
        n.next_id == m.next_id,
        n.cards.len() == m.cards.len(),
        forall|i: int|
            0 <= i < m.cards.len() ==> (#[trigger] n.cards[i]).id == m.cards[i].id
                && n.cards[i].set_id == m.cards[i].set_id,
        forall|i: int, j: int|
            0 <= i < n.cards.len() && 0 <= j < n.cards.len() && n.cards[i].set_id
                == n.cards[j].set_id ==> (n.cards[i].progress is Some
                <==> n.cards[j].progress is Some),
    ensures
        wf_model(n),
{
    assert forall|i: int| 0 <= i < n.cards.len() implies has_set(n, #[trigger] n.cards[i].set_id) by {
        assert(n.cards[i].set_id == m.cards[i].set_id);
        assert(has_set(m, m.cards[i].set_id));
    }
    assert forall|i: int, j: int|
        0 <= i < n.cards.len() && 0 <= j < n.cards.len() && i != j implies n.cards[i].id
            != n.cards[j].id by {
        assert(n.cards[i].id == m.cards[i].id && n.cards[j].id == m.cards[j].id);
    }
    assert forall|i: int| 0 <= i < n.cards.len() implies n.cards[i].id < n.next_id by {
        assert(n.cards[i].id == m.cards[i].id);
    }
}

impl Store {
    pub closed spec fn wf(&self) -> bool {
        &&& self.terms@.len() == self.progress@.len()
        &&& wf_model(self@)
    }

    /// An empty store.
    pub fn new() -> (r: Store)
        ensures
            r.wf(),
            r@.sets.len() == 0,
            r@.cards.len() == 0,
            r@.setting is None,
            r@.next_id == 1,
    {
        let r = Store {
            sets: Vec::new(),
            terms: Vec::new(),
            progress: Vec::new(),
            setting: None,
            next_id: 1,
        };
        assert(r@.cards.len() == 0);
        r
    }

    /// Whether a set named `name` exists.
    pub fn set_exists(&self, name: &str) -> (r: bool)
        requires
            self.wf(),
        ensures
            r == has_set_named(self@, name@),
    {
        match self.find_set(name) {
            Some(_) => true,
            None => false,
        }
    }

    /// The id of the set named `name`, if there is one.
    pub fn find_set(&self, name: &str) -> (r: Option<i64>)
        requires
            self.wf(),
        ensures
            r is None <==> !has_set_named(self@, name@),
            r matches Some(id) ==> exists|i: int|
                0 <= i < self@.sets.len() && self@.sets[i] == (id, name@),
    {
        let mut i: usize = 0;
        while i < self.sets.len()
            invariant
                i <= self.sets@.len(),
                self.wf(),
                forall|k: int| 0 <= k < i ==> self@.sets[k].1 != name@,
            decreases self.sets@.len() - i,
        {
            if crate::text::same_text(self.sets[i].name.as_str(), name) {
                assert(self@.sets[i as int] == (self.sets@[i as int].id, name@));
                return Some(self.sets[i].id);
            }
            i = i + 1;
        }
        None
    }

    /// The sets, in the order in which they were created.
    pub fn list_sets(&self) -> (r: Vec<(i64, String)>)
        requires
            self.wf(),
        ensures
            r@.len() == self@.sets.len(),
            forall|i: int| 0 <= i < r@.len() ==> (#[trigger] r@[i]).0 == self@.sets[i].0 && r@[i].1@ == self@.sets[i].1,
    {
        let mut r: Vec<(i64, String)> = Vec::new();
        let mut i: usize = 0;
        while i < self.sets.len()
            invariant
                i <= self.sets@.len(),
                r@.len() == i,
                forall|k: int| 0 <= k < i ==> (#[trigger] r@[k]).0 == self@.sets[k].0 && r@[k].1@ == self@.sets[k].1,
            decreases self.sets@.len() - i,
        {
            r.push((self.sets[i].id, self.sets[i].name.clone()));
            i = i + 1;
        }
        r
    }

    /// Whether the set `set_id` has session entries.
    pub fn session_exists(&self, set_id: i64) -> (r: bool)
        requires
            self.wf(),
        ensures
            r == has_session(self@, set_id),
    {
        let mut i: usize = 0;
        while i < self.terms.len()
            invariant
                i <= self.terms@.len(),
                self.wf(),
                forall|k: int| 0 <= k < i ==> !(self@.cards[k].set_id == set_id && self@.cards[k].progress is Some),
            decreases self.terms@.len() - i,
        {
            if self.terms[i].set_id == set_id && self.progress[i].is_some() {
                assert(self@.cards[i as int].set_id == set_id);
                return true;
            }
            i = i + 1;
        }
        false
    }

    /// Whether a set with id `set_id` exists.
    pub fn contains_set(&self, set_id: i64) -> (r: bool)
        requires
            self.wf(),
        ensures
            r == has_set(self@, set_id),
    {
        let mut i: usize = 0;
        while i < self.sets.len()
            invariant
                i <= self.sets@.len(),
                forall|k: int| 0 <= k < i ==> self@.sets[k].0 != set_id,
            decreases self.sets@.len() - i,
        {
            if self.sets[i].id == set_id {
                assert(self@.sets[i as int].0 == set_id);
                return true;
            }
            i = i + 1;
        }
        false
    }

    /// Inserts one unmastered entry for every term of the set, all at once.
    /// Fails, changing nothing, when the set is unknown or already has entries.
    pub fn create_session_snapshot(&mut self, set_id: i64) -> (r: Result<(), StoreError>)
        requires
            old(self).wf(),
        ensures
            final(self).wf(),
            r == Err::<(), StoreError>(StoreError::NotFound) <==> !has_set(old(self)@, set_id),
            r == Err::<(), StoreError>(StoreError::ConstraintViolation) <==> has_set(old(self)@, set_id)
                && has_session(old(self)@, set_id),
            r is Ok ==> final(self)@ == snapshot(old(self)@, set_id),
            r is Err ==> final(self)@ == old(self)@,
    {
        if !self.contains_set(set_id) {
            return Err(StoreError::NotFound);
        }
        if self.session_exists(set_id) {
            return Err(StoreError::ConstraintViolation);
        }
        let ghost m0 = self@;
        let mut i: usize = 0;
        while i < self.terms.len()
            invariant
                i <= self.terms@.len(),
                self.terms@.len() == self.progress@.len(),
                self.terms == old(self).terms,
                self.sets == old(self).sets,
                self.setting == old(self).setting,
                self.next_id == old(self).next_id,
                m0 == old(self)@,
                forall|k: int| 0 <= k < self.progress@.len() ==> self.progress@[k] == if k < i && self.terms@[k].set_id == set_id {
                    Some(false)
                } else {
                    m0.cards[k].progress
                },
            decreases self.terms@.len() - i,
        {
            if self.terms[i].set_id == set_id {
                self.progress.set(i, Some(false));
            }
            i = i + 1;
        }
        assert(self@ =~= snapshot(m0, set_id));
        proof {
            lemma_progress_rewrite_wf(m0, self@);
        }
        Ok(())
    }

    /// The unmastered entries of the set `set_id`.
    pub fn unmastered_entries(&self, set_id: i64) -> (r: Vec<Entry>)
        requires
            self.wf(),
        ensures
            r@.map_values(|e: Entry| e@) == unmastered(self@, set_id),
    {
        let mut r: Vec<Entry> = Vec::new();
        let mut i: usize = 0;
        while i < self.terms.len()
            invariant
                i <= self.terms@.len(),
                self.wf(),
                r@.map_values(|e: Entry| e@) == unmastered_upto(self@.cards, set_id, i as int),
            decreases self.terms@.len() - i,
        {
            let ghost before = r@.map_values(|e: Entry| e@);
            let t = &self.terms[i];
            if t.set_id == set_id && self.progress[i] == Some(false) {
                r.push(Entry { term_id: t.id, term: t.term.clone(), definition: t.definition.clone() });
                assert(r@.map_values(|e: Entry| e@) =~= before.push(
                    (self@.cards[i as int].id, self@.cards[i as int].term, self@.cards[i as int].definition),
                ));
            }
            i = i + 1;
        }
        r
    }

    /// Marks the entry of term `term_id` in set `set_id` as mastered. Marking
    /// an entry that is already mastered, or that does not exist, changes
    /// nothing.
    pub fn mark_mastered(&mut self, set_id: i64, term_id: i64)
        requires
            old(self).wf(),
        ensures
            final(self).wf(),
            final(self)@ == marked(old(self)@, set_id, term_id),
    {
        let ghost m0 = self@;
        let mut i: usize = 0;
        while i < self.terms.len()
            invariant
                i <= self.terms@.len(),
                self.terms@.len() == self.progress@.len(),
                self.terms == old(self).terms,
                self.sets == old(self).sets,
                self.setting == old(self).setting,
                self.next_id == old(self).next_id,
                m0 == old(self)@,
                forall|k: int|
                    0 <= k < self.progress@.len() ==> self.progress@[k] == if k < i
                        && self.terms@[k].set_id == set_id && self.terms@[k].id == term_id
                        && m0.cards[k].progress is Some {
                        Some(true)
                    } else {
                        m0.cards[k].progress
                    },
            decreases self.terms@.len() - i,
        {
            if self.terms[i].set_id == set_id && self.terms[i].id == term_id
                && self.progress[i].is_some() {
                self.progress.set(i, Some(true));
            }
            i = i + 1;
        }
        assert(self@ =~= marked(m0, set_id, term_id));
        proof {
            lemma_progress_rewrite_wf(m0, self@);
        }
    }

    /// Removes every entry of the set `set_id`.
    pub fn clear_session(&mut self, set_id: i64)
        requires
            old(self).wf(),
        ensures
            final(self).wf(),
            final(self)@ == cleared(old(self)@, set_id),
    {
        let ghost m0 = self@;
        let mut i: usize = 0;
        while i < self.terms.len()
            invariant
                i <= self.terms@.len(),
                self.terms@.len() == self.progress@.len(),
                self.terms == old(self).terms,
                self.sets == old(self).sets,
                self.setting == old(self).setting,
                self.next_id == old(self).next_id,
                m0 == old(self)@,
                forall|k: int|
                    0 <= k < self.progress@.len() ==> self.progress@[k] == if k < i
                        && self.terms@[k].set_id == set_id {
                        None
                    } else {
                        m0.cards[k].progress
                    },
            decreases self.terms@.len() - i,
        {
            if self.terms[i].set_id == set_id {
                self.progress.set(i, None);
            }
            i = i + 1;
        }
        assert(self@ =~= cleared(m0, set_id));
        proof {
            lemma_progress_rewrite_wf(m0, self@);
        }
    }

    /// The stored learning direction; `TermToDefinition` when none is stored
    /// or the stored text is not recognised.
    pub fn get_learning_direction(&self) -> (r: Direction)
        ensures
            r == direction_of(self@),
    {
        match &self.setting {
            Some(v) => Direction::from_setting(Some(v.as_str())),
            None => Direction::from_setting(None),
        }
    }

    /// Stores `d` as the learning direction.
    pub fn set_learning_direction(&mut self, d: Direction)
        requires
            old(self).wf(),
        ensures
            final(self).wf(),
            final(self)@ == (StoreModel { setting: Some(setting_text(d)), ..old(self)@ }),
    {
        let text = d.setting_value();
        self.setting = Some(text.to_owned());
        assert(self@ =~= (StoreModel { setting: Some(setting_text(d)), ..old(self)@ }));
    }

    /// Deletes the set `set_id`, its terms and their session entries.
    /// Fails with `NotFound`, changing nothing, when there is no such set.
    pub fn delete_set(&mut self, set_id: i64) -> (r: Result<(), StoreError>)
        requires
            old(self).wf(),
        ensures
            final(self).wf(),
            r is Err <==> !has_set(old(self)@, set_id),
            r matches Err(e) ==> e == StoreError::NotFound && final(self)@ == old(self)@,
            r is Ok ==> final(self)@ == deleted(old(self)@, set_id),
    {
        if !self.contains_set(set_id) {
            return Err(StoreError::NotFound);
        }
        let ghost m0 = self@;
        let ghost ps = set_other_than(set_id);
        let ghost pc = card_other_than(set_id);
        let mut sets: Vec<SetRecord> = Vec::new();
        let mut i: usize = 0;
        while i < self.sets.len()
            invariant
                i <= self.sets@.len(),
                m0 == self@,
                ps == set_other_than(set_id),
                sets@.map_values(|x: SetRecord| (x.id, x.name@)) == kept(m0.sets.take(i as int), ps),
            decreases self.sets@.len() - i,
        {
            let ghost before = sets@.map_values(|x: SetRecord| (x.id, x.name@));
            assert(m0.sets.take(i + 1).drop_last() == m0.sets.take(i as int));
            assert(m0.sets.take(i + 1).last() == m0.sets[i as int]);
            assert(m0.sets[i as int].0 == self.sets@[i as int].id);
            assert(ps(m0.sets[i as int]) == (m0.sets[i as int].0 != set_id));
            if self.sets[i].id != set_id {
                sets.push(SetRecord { id: self.sets[i].id, name: self.sets[i].name.clone() });
                assert(sets@.map_values(|x: SetRecord| (x.id, x.name@)) =~= before.push(m0.sets[i as int]));
            }
            i = i + 1;
        }
        let mut terms: Vec<TermRecord> = Vec::new();
        let mut progress: Vec<Option<bool>> = Vec::new();
        let mut i: usize = 0;
        while i < self.terms.len()
            invariant
                i <= self.terms@.len(),
                self.terms@.len() == self.progress@.len(),
                m0 == self@,
                pc == card_other_than(set_id),
                terms@.len() == progress@.len(),
                cards_of(terms@, progress@) == kept(m0.cards.take(i as int), pc),
            decreases self.terms@.len() - i,
        {
            let ghost before = cards_of(terms@, progress@);
            assert(m0.cards.take(i + 1).drop_last() == m0.cards.take(i as int));
            assert(m0.cards.take(i + 1).last() == m0.cards[i as int]);
            assert(m0.cards[i as int].set_id == self.terms@[i as int].set_id);
            assert(pc(m0.cards[i as int]) == (m0.cards[i as int].set_id != set_id));
            let t = &self.terms[i];
            if t.set_id != set_id {
                terms.push(
                    TermRecord {
                        id: t.id,
                        set_id: t.set_id,
                        term: t.term.clone(),
                        definition: t.definition.clone(),
                    },
                );
                progress.push(self.progress[i]);
                assert(cards_of(terms@, progress@) =~= before.push(m0.cards[i as int]));
            }
            i = i + 1;
        }
        assert(m0.sets.take(m0.sets.len() as int) == m0.sets);
        assert(m0.cards.take(m0.cards.len() as int) == m0.cards);
        self.sets = sets;
        self.terms = terms;
        self.progress = progress;
        assert(self@ =~= deleted(m0, set_id));
        proof {
            lemma_deleted_wf(m0, set_id);
        }
        Ok(())
    }

    /// A well-formed store has a well-formed model.
    pub proof fn lemma_wf(&self)
        requires
            self.wf(),
        ensures
            wf_model(self@),
    {
    }

    /// The id that the next created set or term receives.
    pub fn next_id(&self) -> (r: i64)
        requires
            self.wf(),
        ensures
            r == self@.next_id,
            0 < r,
    {
        self.next_id
    }

    /// Creates an empty set named `name` under the next id. Fails with
    /// `ConstraintViolation`, changing nothing, when the name is taken or no
    /// id is left.
    pub fn create_set(&mut self, name: &str) -> (r: Result<i64, StoreError>)
        requires
            old(self).wf(),
        ensures
            final(self).wf(),
            r is Err <==> has_set_named(old(self)@, name@) || old(self)@.next_id == i64::MAX,
            r matches Err(e) ==> e == StoreError::ConstraintViolation && final(self)@ == old(self)@,
            r matches Ok(id) ==> id == old(self)@.next_id && final(self)@ == (StoreModel {
                sets: old(self)@.sets.push((id, name@)),
                next_id: old(self)@.next_id + 1,
                ..old(self)@
            }),
    {
        if self.set_exists(name) || self.next_id == i64::MAX {
            return Err(StoreError::ConstraintViolation);
        }
        let ghost m0 = self@;
        let id = self.next_id;
        self.sets.push(SetRecord { id, name: name.to_owned() });
        self.next_id = id + 1;
        let ghost n = StoreModel { sets: m0.sets.push((id, name@)), next_id: m0.next_id + 1, ..m0 };
        assert(self@.sets =~= n.sets);
        assert(self@ =~= n);
        assert forall|i: int| 0 <= i < n.cards.len() implies has_set(n, #[trigger] n.cards[i].set_id) by {
            assert(has_set(m0, m0.cards[i].set_id));
            let k = choose|k: int| 0 <= k < m0.sets.len() && m0.sets[k].0 == m0.cards[i].set_id;
            assert(n.sets[k] == m0.sets[k]);
        }
        Ok(id)
    }

    /// Adds a term to the set `set_id` under the next id. Fails, changing
    /// nothing, with `NotFound` when there is no such set, and with
    /// `ConstraintViolation` when the set has session entries or no id is left.
    pub fn add_term(&mut self, set_id: i64, term: &str, definition: &str) -> (r: Result<i64, StoreError>)
        requires
            old(self).wf(),
        ensures
            final(self).wf(),
            r == Err::<i64, StoreError>(StoreError::NotFound) <==> !has_set(old(self)@, set_id),
            r == Err::<i64, StoreError>(StoreError::ConstraintViolation) <==> has_set(old(self)@, set_id)
                && (has_session(old(self)@, set_id) || old(self)@.next_id == i64::MAX),
            r is Err ==> final(self)@ == old(self)@,
            r matches Ok(id) ==> id == old(self)@.next_id && final(self)@ == (StoreModel {
                cards: old(self)@.cards.push(
                    CardModel { id, set_id, term: term@, definition: definition@, progress: None },
                ),
                next_id: old(self)@.next_id + 1,
                ..old(self)@
            }),
    {
        if !self.contains_set(set_id) {
            return Err(StoreError::NotFound);
        }
        if self.session_exists(set_id) || self.next_id == i64::MAX {
            return Err(StoreError::ConstraintViolation);
        }
        let ghost m0 = self@;
        let id = self.next_id;
        self.terms.push(
            TermRecord { id, set_id, term: term.to_owned(), definition: definition.to_owned() },
        );
        self.progress.push(None);
        self.next_id = id + 1;
        let ghost c = CardModel { id, set_id, term: term@, definition: definition@, progress: None };
        let ghost n = StoreModel { cards: m0.cards.push(c), next_id: m0.next_id + 1, ..m0 };
        assert(self@.cards =~= n.cards);
        assert(self@ =~= n);
        assert forall|i: int| 0 <= i < n.cards.len() implies has_set(n, #[trigger] n.cards[i].set_id) by {
            if i < m0.cards.len() {
                assert(n.cards[i] == m0.cards[i]);
                assert(has_set(m0, m0.cards[i].set_id));
            } else {
                assert(n.cards[i] == c);
                assert(has_set(m0, set_id));
            }
            let x = n.cards[i].set_id;
            let k = choose|k: int| 0 <= k < m0.sets.len() && m0.sets[k].0 == x;
            assert(n.sets[k].0 == x);
        }
        assert forall|i: int, j: int|
            0 <= i < n.cards.len() && 0 <= j < n.cards.len() && n.cards[i].set_id
                == n.cards[j].set_id implies (n.cards[i].progress is Some
            <==> n.cards[j].progress is Some) by {
            if i < m0.cards.len() {
                assert(n.cards[i] == m0.cards[i]);
            }
            if j < m0.cards.len() {
                assert(n.cards[j] == m0.cards[j]);
            }
        }
        Ok(id)
    }

    /// Enters the set `set_id`: creates its snapshot when it has no entries,
    /// and otherwise resumes the pass as it stands.
    pub fn enter_session(&mut self, set_id: i64) -> (r: Result<(), StoreError>)
        requires
            old(self).wf(),
        ensures
            final(self).wf(),
            r is Err <==> !has_set(old(self)@, set_id),
            r is Ok ==> final(self)@ == entered(old(self)@, set_id),
            r is Err ==> final(self)@ == old(self)@,
    {
        if self.session_exists(set_id) {
            proof {
                let i = choose|i: int|
                    0 <= i < self@.cards.len() && self@.cards[i].set_id == set_id
                        && self@.cards[i].progress is Some;
                assert(wf_model(self@));
                assert(has_set(self@, self@.cards[i].set_id));
                assert(has_set(old(self)@, set_id));
            }
            Ok(())
        } else {
            let r = self.create_session_snapshot(set_id);
            proof {
                if r is Err {
                    let e = r->Err_0;
                    assert(e is NotFound || e is ConstraintViolation);
                    assert(r == Err::<(), StoreError>(e));
                }
            }
            r
        }
    }
}

} // verus!

verus! {

pub open spec fn card_of(s: i64) -> spec_fn(CardModel) -> bool {
    |c: CardModel| c.set_id == s
}

pub open spec fn entry_of(s: i64) -> spec_fn(CardModel) -> bool {
    |c: CardModel| c.set_id == s && c.progress is Some
}

/// The number of terms of set `s`.
pub open spec fn term_count(m: StoreModel, s: i64) -> nat {
    kept(m.cards, card_of(s)).len()
}

/// The number of session entries of set `s`.
pub open spec fn entry_count(m: StoreModel, s: i64) -> nat {
    kept(m.cards, entry_of(s)).len()
}

/// Two sequences that agree, index by index, on two predicates keep as many
/// elements under each.
pub proof fn lemma_kept_len<A>(xs: Seq<A>, ys: Seq<A>, p: spec_fn(A) -> bool, q: spec_fn(A) -> bool)
    requires
        xs.len() == ys.len(),
        forall|i: int| 0 <= i < xs.len() ==> p(xs[i]) == q(ys[i]),
    ensures
        kept(xs, p).len() == kept(ys, q).len(),
    decreases xs.len(),
{
    if xs.len() > 0 {
        let (a, b) = (xs.drop_last(), ys.drop_last());
        assert forall|i: int| 0 <= i < a.len() implies p(a[i]) == q(b[i]) by {
            assert(a[i] == xs[i] && b[i] == ys[i]);
        }
        lemma_kept_len(a, b, p, q);
    }
}

/// Entering a set twice in a row is entering it once, and entering a set
/// that has entries leaves every entry, mastered or not, as it was.
pub proof fn lemma_resume_idempotent(m: StoreModel, s: i64)
    ensures
        entered(entered(m, s), s) == entered(m, s),
        has_session(m, s) ==> entered(m, s) == m,
{
    if !has_session(m, s) {
        let n = snapshot(m, s);
        if !has_session(n, s) {
            assert(snapshot(n, s) =~= n);
        }
    }
}

/// A snapshot of a set without entries gives each of its N terms exactly one
/// entry, all unmastered, leaves every other card as it was, and keeps the
/// store well formed, so no partial snapshot is ever seen.
pub proof fn lemma_snapshot_complete(m: StoreModel, s: i64)
    requires
        wf_model(m),
        !has_session(m, s),
    ensures
        wf_model(entered(m, s)),
        entry_count(entered(m, s), s) == term_count(m, s),
        forall|i: int|
            0 <= i < m.cards.len() && m.cards[i].set_id == s ==> #[trigger] entered(m, s).cards[i]
                == (CardModel { progress: Some(false), ..m.cards[i] }),
        forall|i: int|
            0 <= i < m.cards.len() && m.cards[i].set_id != s ==> #[trigger] entered(m, s).cards[i]
                == m.cards[i],
        entered(m, s).cards.len() == m.cards.len(),
{
    let n = snapshot(m, s);
    assert forall|i: int| 0 <= i < n.cards.len() implies entry_of(s)(n.cards[i]) == card_of(s)(
        m.cards[i],
    ) by {}
    lemma_kept_len(n.cards, m.cards, entry_of(s), card_of(s));
    assert forall|i: int| 0 <= i < m.cards.len() && m.cards[i].set_id == s implies #[trigger] n.cards[i]
        == (CardModel { progress: Some(false), ..m.cards[i] }) by {}
    lemma_progress_rewrite_wf(m, n);
}

/// Once a set has no unmastered entry, clearing it leaves it without
/// entries, and entering it again starts a fresh snapshot.
pub proof fn lemma_completion_clears(m: StoreModel, s: i64)
    requires
        wf_model(m),
        unmastered(m, s).len() == 0,
    ensures
        !has_session(cleared(m, s), s),
        wf_model(cleared(m, s)),
        entered(cleared(m, s), s) == snapshot(m, s),
{
    let c = cleared(m, s);
    assert(!has_session(c, s));
    lemma_progress_rewrite_wf(m, c);
    assert(snapshot(c, s) =~= snapshot(m, s));
}

} // verus!

verus! {

/// With no direction stored the store reads `TermToDefinition`; after a
/// direction is stored, it reads that direction.
pub proof fn lemma_direction_setting(m: StoreModel, d: Direction)
    ensures
        m.setting is None ==> direction_of(m) == Direction::TermToDefinition,
        direction_of(StoreModel { setting: Some(setting_text(d)), ..m }) == d,
{
    crate::direction::lemma_decode_encode(d);
}

} // verus!
