//! The index document: the identifier sequence and the note records.

use crate::filter::{admits_all, lemma_admits_all_concat, FilterView};
use crate::note::{
    attach_all, file_name, labels_wf, named, lemma_attach_all, lemma_attach_all_present,
    lemma_without_all, lemma_without_all_absent, without_all, Note, NoteView,
};
use crate::text::{occurs_in, trimmed};
use vstd::prelude::*;

verus! {

/// What reading a stored document came to.
#[derive(Debug)]
pub enum Stored<T> {
    /// There is no such document.
    Missing,
    /// The document is there and could not be read.
    Unreadable,
    /// The document was read and is not of the expected shape.
    Malformed,
    /// The document was read, and this is what it holds.
    Parsed(T),
}

/// The index: every note ever created, in the order of creation, and the
/// identifier that the next note will get.
#[derive(Debug)]
pub struct State {
    pub next_id: usize,
    pub notes: Vec<Note>,
}

/// What an index stands for.
pub struct StateView {
    pub next_id: nat,
    pub notes: Seq<NoteView>,
}

/// What one creation puts into a note: the title and the labels.
pub struct Creation {
    pub title: Seq<char>,
    pub labels: Seq<Seq<char>>,
}

impl View for State {
    type V = StateView;

    open spec fn view(&self) -> StateView {
        StateView { next_id: self.next_id as nat, notes: self.notes@.map_values(|n: Note| n@) }
    }
}

impl StateView {
    /// The index of a store that holds nothing yet.
    pub open spec fn fresh() -> StateView {
        StateView { next_id: 1, notes: Seq::empty() }
    }

    /// Every note is well-formed and named after its identifier, no
    /// identifier occurs twice, and each lies below `next_id`.
    pub open spec fn wf(self) -> bool {
        &&& forall|i: int| 0 <= i < self.notes.len() ==> (#[trigger] self.notes[i]).wf()
        &&& forall|i: int|
            0 <= i < self.notes.len() ==> (#[trigger] self.notes[i]).path == file_name(
                self.notes[i].id,
            )
        &&& forall|i: int| 0 <= i < self.notes.len() ==> (#[trigger] self.notes[i]).id < self.next_id
        &&& forall|i: int, j: int|
            0 <= i < j < self.notes.len() ==> (#[trigger] self.notes[i]).id
                != (#[trigger] self.notes[j]).id
    }

    /// Some note carries the identifier `id`.
    pub open spec fn holds(self, id: nat) -> bool {
        exists|i: int| 0 <= i < self.notes.len() && (#[trigger] self.notes[i]).id == id
    }

    /// The note at position `i` is the first that carries the identifier `id`.
    pub open spec fn is_first(self, id: nat, i: int) -> bool {
        &&& 0 <= i < self.notes.len()
        &&& self.notes[i].id == id
        &&& forall|j: int| 0 <= j < i ==> (#[trigger] self.notes[j]).id != id
    }

    /// The position of the first note that carries the identifier `id`.
    pub open spec fn locate(self, id: nat) -> Option<int> {
        if exists|i: int| self.is_first(id, i) {
            Some(choose|i: int| self.is_first(id, i))
        } else {
            None
        }
    }

    /// The note that a creation adds: it takes `next_id` as its identifier
    /// and is named after it.
    pub open spec fn fresh_note(self, title: Seq<char>, labels: Seq<Seq<char>>) -> NoteView {
        NoteView { id: self.next_id, path: file_name(self.next_id), title, labels }
    }

    /// The index after the creation of a note: the note stands behind the
    /// others, and the identifier sequence has advanced by one.
    pub open spec fn created(self, title: Seq<char>, labels: Seq<Seq<char>>) -> StateView {
        StateView {
            next_id: self.next_id + 1,
            notes: self.notes.push(self.fresh_note(title, labels)),
        }
    }

    /// The index after the creations `inputs`, one after the other.
    pub open spec fn created_all(self, inputs: Seq<Creation>) -> StateView
        decreases inputs.len(),
    {
        if inputs.len() == 0 {
            self
        } else {
            self.created_all(inputs.drop_last()).created(inputs.last().title, inputs.last().labels)
        }
    }

    /// The index with `labels` attached to the note with the identifier `id`;
    /// the index itself where no note carries `id`.
    pub open spec fn with_labels(self, id: nat, labels: Seq<Seq<char>>) -> StateView {
        match self.locate(id) {
            Some(i) => StateView {
                notes: self.notes.update(
                    i,
                    NoteView { labels: attach_all(self.notes[i].labels, labels), ..self.notes[i] },
                ),
                ..self
            },
            None => self,
        }
    }

    /// The index with `labels` detached from the note with the identifier
    /// `id`; the index itself where no note carries `id`.
    pub open spec fn without_labels(self, id: nat, labels: Seq<Seq<char>>) -> StateView {
        match self.locate(id) {
            Some(i) => StateView {
                notes: self.notes.update(
                    i,
                    NoteView { labels: without_all(self.notes[i].labels, labels), ..self.notes[i] },
                ),
                ..self
            },
            None => self,
        }
    }
}

/// The notes of `notes` of which every filter of `filters` holds, in their
/// order.
pub open spec fn select(notes: Seq<NoteView>, filters: Seq<FilterView>) -> Seq<NoteView>
    decreases notes.len(),
{
    if notes.len() == 0 {
        notes
    } else if admits_all(filters, notes.last().label_set()) {
        select(notes.drop_last(), filters).push(notes.last())
    } else {
        select(notes.drop_last(), filters)
    }
}

/// What stands for the body texts that were read: one entry for each note of
/// the index, in the order of the notes, and `None` where the body could not
/// be read.
pub open spec fn body_views(bodies: Seq<Option<String>>) -> Seq<Option<Seq<char>>> {
    bodies.map_values(
        |b: Option<String>|
            match b {
                Some(text) => Some(text@),
                None => None,
            },
    )
}

/// The body text of the note at position `i`, if it was read.
pub open spec fn body_at(bodies: Seq<Option<Seq<char>>>, i: int) -> Option<Seq<char>> {
    if 0 <= i < bodies.len() {
        bodies[i]
    } else {
        None
    }
}

/// A note is found by a search when every filter holds of it and its body
/// was read and holds the keyword.
pub open spec fn is_hit(
    note: NoteView,
    body: Option<Seq<char>>,
    keyword: Seq<char>,
    filters: Seq<FilterView>,
) -> bool {
    &&& admits_all(filters, note.label_set())
    &&& body matches Some(text) && occurs_in(keyword, text)
}

/// The notes among the first `n` of `notes` that a search finds, in their
/// order.
pub open spec fn hits(
    notes: Seq<NoteView>,
    bodies: Seq<Option<Seq<char>>>,
    keyword: Seq<char>,
    filters: Seq<FilterView>,
    n: nat,
) -> Seq<NoteView>
    decreases n,
{
    if n == 0 || n > notes.len() {
        Seq::empty()
    } else if is_hit(notes[n - 1], body_at(bodies, n - 1), keyword, filters) {
        hits(notes, bodies, keyword, filters, (n - 1) as nat).push(notes[n - 1])
    } else {
        hits(notes, bodies, keyword, filters, (n - 1) as nat)
    }
}

/// At most one position is the first for an identifier.
pub proof fn lemma_first_is_unique(state: StateView, id: nat, i: int, j: int)
    requires
        state.is_first(id, i),
        state.is_first(id, j),
    ensures
        i == j,
{
    if i < j {
        assert(state.notes[i].id != id);
    }
    if j < i {
        assert(state.notes[j].id != id);
    }
}

/// `locate` finds a note exactly when one carries the identifier, and what it
/// finds is the first of them.
pub proof fn lemma_locate(state: StateView, id: nat)
    ensures
        state.locate(id) is Some <==> state.holds(id),
        state.locate(id) matches Some(i) ==> state.is_first(id, i),
{
    if state.holds(id) {
        let k = choose|k: int| 0 <= k < state.notes.len() && (#[trigger] state.notes[k]).id == id;
        lemma_first_exists(state, id, k);
    }
    if state.locate(id) is Some {
        let i = state.locate(id)->Some_0;
        assert(state.is_first(id, i));
        assert(state.notes[i].id == id);
    }
}

/// Where a note at position `k` carries the identifier, some position at or
/// before `k` is the first that does.
pub proof fn lemma_first_exists(state: StateView, id: nat, k: int)
    requires
        0 <= k < state.notes.len(),
        state.notes[k].id == id,
    ensures
        exists|i: int| state.is_first(id, i),
    decreases k,
{
    if forall|j: int| 0 <= j < k ==> (#[trigger] state.notes[j]).id != id {
        assert(state.is_first(id, k));
    } else {
        let j = choose|j: int| 0 <= j < k && (#[trigger] state.notes[j]).id == id;
        lemma_first_exists(state, id, j);
    }
}

impl Default for State {
    /// The index of a store that holds nothing yet: no note, and 1 as the
    /// first identifier.
    fn default() -> (r: Self)
        ensures
            r@ == StateView::fresh(),
    {
        let r = State { next_id: 1, notes: Vec::new() };
        proof {
            assert(r@.notes =~= Seq::<NoteView>::empty());
        }
        r
    }
}

impl State {
    /// See `StateView::wf`.
    pub open spec fn wf(&self) -> bool {
        self@.wf()
    }

    /// The index to work on, given what reading the stored index came to. A
    /// store without an index starts fresh, and so does one whose index
    /// cannot be read or understood.
    pub fn load(found: Stored<State>) -> (r: State)
        ensures
            r@ == match found {
                Stored::Parsed(state) => state@,
                _ => StateView::fresh(),
            },
    {
        match found {
            Stored::Parsed(state) => state,
            _ => State::default(),
        }
    }

    /// The position of the first note that carries the identifier `id`.
    pub fn find(&self, id: usize) -> (r: Option<usize>)
        ensures
            self@.locate(id as nat) == match r {
                Some(i) => Some(i as int),
                None => None::<int>,
            },
            r matches Some(i) ==> i < self.notes@.len() && self.notes@[i as int].id == id,
    {
        let mut i: usize = 0;
        while i < self.notes.len()
            invariant
                i <= self.notes@.len(),
                forall|j: int| 0 <= j < i ==> (#[trigger] self@.notes[j]).id != id,
            decreases self.notes@.len() - i,
        {
            if self.notes[i].id == id {
                proof {
                    assert(self@.is_first(id as nat, i as int));
                    lemma_first_is_unique(
                        self@,
                        id as nat,
                        i as int,
                        self@.locate(id as nat)->Some_0,
                    );
                }
                return Some(i);
            }
            i += 1;
        }
        proof {
            assert forall|k: int| !self@.is_first(id as nat, k) by {
                if self@.is_first(id as nat, k) {
                    assert(self@.notes[k].id != id);
                }
            }
        }
        None
    }
}

/// Identifiers only ever advance: a run of creations leaves the earlier
/// notes as they were and gives the new notes the identifiers from `next_id`
/// on, one after the other, so that each is greater than the one before it,
/// and `next_id` ends one above the identifier of the last note created.
pub proof fn lemma_ids_increase(state: StateView, inputs: Seq<Creation>)
    ensures
        ({
            let end = state.created_all(inputs);
            let base = state.notes.len() as int;
            &&& end.notes.len() == base + inputs.len()
            &&& end.notes.take(base) == state.notes
            &&& end.next_id == state.next_id + inputs.len()
            &&& forall|k: int|
                0 <= k < inputs.len() ==> (#[trigger] end.notes[base + k]).id == state.next_id + k
            &&& forall|j: int, k: int|
                0 <= j < k < inputs.len() ==> (#[trigger] end.notes[base + j]).id < (
                #[trigger] end.notes[base + k]).id
            &&& inputs.len() > 0 ==> end.next_id == end.notes.last().id + 1
        }),
    decreases inputs.len(),
{
    let end = state.created_all(inputs);
    let base = state.notes.len() as int;
    if inputs.len() == 0 {
        assert(end.notes.take(base) =~= state.notes);
    } else {
        let front = inputs.drop_last();
        let mid = state.created_all(front);
        lemma_ids_increase(state, front);
        assert(end.notes.take(base) =~= mid.notes.take(base));
        assert forall|k: int| 0 <= k < inputs.len() implies (#[trigger] end.notes[base + k]).id
            == state.next_id + k by {
            if k < front.len() {
                assert(end.notes[base + k] == mid.notes[base + k]);
            }
        }
    }
}

/// A creation keeps the index well-formed when the labels of the new note
/// are pairwise different and valid: the new identifier is none of the old
/// ones, and `next_id` stays above them all.
pub proof fn lemma_created_wf(state: StateView, title: Seq<char>, labels: Seq<Seq<char>>)
    requires
        state.wf(),
        labels_wf(labels),
    ensures
        state.created(title, labels).wf(),
{
    let end = state.created(title, labels);
    assert forall|i: int| 0 <= i < end.notes.len() implies (#[trigger] end.notes[i]).wf()
        && end.notes[i].path == file_name(end.notes[i].id) && end.notes[i].id < end.next_id by {
        if i < state.notes.len() {
            assert(end.notes[i] == state.notes[i]);
        }
    }
    assert forall|i: int, j: int| 0 <= i < j < end.notes.len() implies (#[trigger] end.notes[i]).id
        != (#[trigger] end.notes[j]).id by {
        assert(end.notes[i] == state.notes[i]);
        if j < state.notes.len() {
            assert(end.notes[j] == state.notes[j]);
        }
    }
}

/// Attaching labels keeps the index well-formed.
pub proof fn lemma_with_labels_wf(state: StateView, id: nat, labels: Seq<Seq<char>>)
    requires
        state.wf(),
    ensures
        state.with_labels(id, labels).wf(),
{
    lemma_locate(state, id);
    if let Some(i) = state.locate(id) {
        lemma_attach_all(state.notes[i].labels, labels);
        lemma_update_wf(state, i, attach_all(state.notes[i].labels, labels));
    }
}

/// Detaching labels keeps the index well-formed.
pub proof fn lemma_without_labels_wf(state: StateView, id: nat, labels: Seq<Seq<char>>)
    requires
        state.wf(),
    ensures
        state.without_labels(id, labels).wf(),
{
    lemma_locate(state, id);
    if let Some(i) = state.locate(id) {
        lemma_without_all(state.notes[i].labels, labels);
        lemma_update_wf(state, i, without_all(state.notes[i].labels, labels));
    }
}

/// A change of labels touches the label set of the first note with the
/// identifier and nothing else: attaching adds the labels that the texts
/// name, detaching takes the given texts away.
pub proof fn lemma_label_sets(state: StateView, id: nat, labels: Seq<Seq<char>>)
    ensures
        state.locate(id) matches Some(i) ==> {
            &&& state.with_labels(id, labels).notes[i].label_set()
                == state.notes[i].label_set().union(named(labels))
            &&& state.without_labels(id, labels).notes[i].label_set()
                == state.notes[i].label_set().difference(labels.to_set())
            &&& state.with_labels(id, labels).notes == state.notes.update(
                i,
                state.with_labels(id, labels).notes[i],
            )
            &&& state.without_labels(id, labels).notes == state.notes.update(
                i,
                state.without_labels(id, labels).notes[i],
            )
            &&& state.with_labels(id, labels).notes[i].id == id
            &&& state.without_labels(id, labels).notes[i].id == id
        },
        state.with_labels(id, labels).next_id == state.next_id,
        state.without_labels(id, labels).next_id == state.next_id,
        state.with_labels(id, labels).notes.len() == state.notes.len(),
        state.without_labels(id, labels).notes.len() == state.notes.len(),
{
    lemma_locate(state, id);
    if let Some(i) = state.locate(id) {
        lemma_attach_all(state.notes[i].labels, labels);
        lemma_without_all(state.notes[i].labels, labels);
    }
}

/// Giving one note of a well-formed index other well-formed labels leaves
/// the index well-formed.
pub proof fn lemma_update_wf(state: StateView, i: int, labels: Seq<Seq<char>>)
    requires
        state.wf(),
        0 <= i < state.notes.len(),
        labels_wf(labels),
    ensures
        (StateView {
            notes: state.notes.update(i, NoteView { labels, ..state.notes[i] }),
            ..state
        }).wf(),
{
    let notes = state.notes.update(i, NoteView { labels, ..state.notes[i] });
    assert forall|k: int| 0 <= k < notes.len() implies (#[trigger] notes[k]).wf() && notes[k].path
        == file_name(notes[k].id) && notes[k].id < state.next_id by {
        if k != i {
            assert(notes[k] == state.notes[k]);
        } else {
            assert(state.notes[i].wf());
        }
    }
    assert forall|j: int, k: int| 0 <= j < k < notes.len() implies (#[trigger] notes[j]).id != (
    #[trigger] notes[k]).id by {
        assert(notes[j].id == state.notes[j].id);
        assert(notes[k].id == state.notes[k].id);
    }
}

/// Attaching labels that the note carries already, or texts that name no
/// label, leaves the index as it was.
pub proof fn lemma_with_labels_present(state: StateView, id: nat, labels: Seq<Seq<char>>)
    requires
        state.locate(id) matches Some(i) ==> forall|k: int|
            0 <= k < labels.len() ==> trimmed(#[trigger] labels[k]).len() == 0
                || state.notes[i].label_set().contains(trimmed(labels[k])),
    ensures
        state.with_labels(id, labels) == state,
{
    lemma_locate(state, id);
    if let Some(i) = state.locate(id) {
        assert forall|k: int| 0 <= k < labels.len() implies trimmed(#[trigger] labels[k]).len()
            == 0 || state.notes[i].labels.contains(trimmed(labels[k])) by {
            if trimmed(labels[k]).len() > 0 {
                assert(state.notes[i].label_set().contains(trimmed(labels[k])));
            }
        }
        lemma_attach_all_present(state.notes[i].labels, labels);
        assert(state.with_labels(id, labels).notes =~= state.notes);
    }
}

/// Detaching labels of which the note carries none leaves the index as it
/// was.
pub proof fn lemma_without_labels_absent(state: StateView, id: nat, labels: Seq<Seq<char>>)
    requires
        state.locate(id) matches Some(i) ==> forall|k: int|
            0 <= k < labels.len() ==> !state.notes[i].label_set().contains(#[trigger] labels[k]),
    ensures
        state.without_labels(id, labels) == state,
{
    lemma_locate(state, id);
    if let Some(i) = state.locate(id) {
        assert forall|k: int| 0 <= k < labels.len() implies !state.notes[i].labels.contains(
            #[trigger] labels[k],
        ) by {
            assert(!state.notes[i].label_set().contains(labels[k]));
        }
        lemma_without_all_absent(state.notes[i].labels, labels);
        assert(state.without_labels(id, labels).notes =~= state.notes);
    }
}

/// A change of labels moves no note and changes no identifier, so the same
/// note is found afterwards.
pub proof fn lemma_locate_after_update(state: StateView, i: int, labels: Seq<Seq<char>>, id: nat)
    requires
        0 <= i < state.notes.len(),
    ensures
        (StateView {
            notes: state.notes.update(i, NoteView { labels, ..state.notes[i] }),
            ..state
        }).locate(id) == state.locate(id),
{
    let after = StateView {
        notes: state.notes.update(i, NoteView { labels, ..state.notes[i] }),
        ..state
    };
    assert forall|k: int| after.is_first(id, k) <==> state.is_first(id, k) by {
        if state.is_first(id, k) {
            assert(after.notes[k].id == state.notes[k].id);
            assert forall|j: int| 0 <= j < k implies (#[trigger] after.notes[j]).id != id by {
                assert(after.notes[j].id == state.notes[j].id);
            }
        }
        if after.is_first(id, k) {
            assert(after.notes[k].id == state.notes[k].id);
            assert forall|j: int| 0 <= j < k implies (#[trigger] state.notes[j]).id != id by {
                assert(after.notes[j].id == state.notes[j].id);
            }
        }
    }
}

/// Attaching the same labels a second time changes nothing.
pub proof fn lemma_with_labels_twice(state: StateView, id: nat, labels: Seq<Seq<char>>)
    ensures
        state.with_labels(id, labels).with_labels(id, labels) == state.with_labels(id, labels),
{
    lemma_locate(state, id);
    if let Some(i) = state.locate(id) {
        let once = state.with_labels(id, labels);
        lemma_locate_after_update(state, i, attach_all(state.notes[i].labels, labels), id);
        lemma_attach_all(state.notes[i].labels, labels);
        assert forall|k: int| 0 <= k < labels.len() implies trimmed(#[trigger] labels[k]).len()
            == 0 || once.notes[i].label_set().contains(trimmed(labels[k])) by {
            if trimmed(labels[k]).len() > 0 {
                assert(once.notes[i].labels.contains(trimmed(labels[k])));
            }
        }
        lemma_with_labels_present(once, id, labels);
    }
}

/// Detaching the same labels a second time changes nothing.
pub proof fn lemma_without_labels_twice(state: StateView, id: nat, labels: Seq<Seq<char>>)
    ensures
        state.without_labels(id, labels).without_labels(id, labels) == state.without_labels(
            id,
            labels,
        ),
{
    lemma_locate(state, id);
    if let Some(i) = state.locate(id) {
        let once = state.without_labels(id, labels);
        lemma_locate_after_update(state, i, without_all(state.notes[i].labels, labels), id);
        lemma_without_all(state.notes[i].labels, labels);
        assert forall|k: int| 0 <= k < labels.len() implies !once.notes[i].label_set().contains(
            #[trigger] labels[k],
        ) by {
            assert(!once.notes[i].labels.contains(labels[k]));
        }
        lemma_without_labels_absent(once, id, labels);
    }
}

/// A selection holds exactly the notes of which every filter holds.
pub proof fn lemma_select_members(notes: Seq<NoteView>, filters: Seq<FilterView>, note: NoteView)
    ensures
        select(notes, filters).contains(note) <==> notes.contains(note) && admits_all(
            filters,
            note.label_set(),
        ),
    decreases notes.len(),
{
    let out = select(notes, filters);
    if notes.len() > 0 {
        let front = notes.drop_last();
        let kept = select(front, filters);
        lemma_select_members(front, filters, note);
        if out.contains(note) {
            let i = choose|i: int| 0 <= i < out.len() && out[i] == note;
            if admits_all(filters, notes.last().label_set()) && i == kept.len() {
                assert(notes[notes.len() - 1] == note);
            } else {
                assert(kept[i] == note);
                assert(kept.contains(note));
                let j = choose|j: int| 0 <= j < front.len() && front[j] == note;
                assert(notes[j] == note);
            }
        }
        if notes.contains(note) && admits_all(filters, note.label_set()) {
            let j = choose|j: int| 0 <= j < notes.len() && notes[j] == note;
            if j < front.len() {
                assert(front[j] == note);
                assert(front.contains(note));
                let i = choose|i: int| 0 <= i < kept.len() && kept[i] == note;
                assert(out[i] == note);
            } else {
                assert(out[kept.len() as int] == note);
            }
        }
    }
}

/// Without any filter a selection holds every note.
pub proof fn lemma_select_everything(notes: Seq<NoteView>)
    ensures
        select(notes, Seq::empty()) == notes,
    decreases notes.len(),
{
    if notes.len() > 0 {
        lemma_select_everything(notes.drop_last());
        assert(select(notes, Seq::empty()) =~= notes);
    }
}

/// Two lists of filters, one behind the other, select what the second
/// selects among what the first selects: the notes of which both hold.
pub proof fn lemma_select_concat(
    notes: Seq<NoteView>,
    first: Seq<FilterView>,
    second: Seq<FilterView>,
)
    ensures
        select(notes, first + second) == select(select(notes, first), second),
    decreases notes.len(),
{
    if notes.len() > 0 {
        let front = notes.drop_last();
        lemma_select_concat(front, first, second);
        lemma_admits_all_concat(first, second, notes.last().label_set());
        if admits_all(first, notes.last().label_set()) {
            let inner = select(front, first).push(notes.last());
            assert(inner.drop_last() =~= select(front, first));
        }
    }
}

/// A search finds exactly the notes that are hits: what it returns is found
/// at some position among the first `n` where the note is a hit, and every
/// such note is returned.
pub proof fn lemma_hits_members(
    notes: Seq<NoteView>,
    bodies: Seq<Option<Seq<char>>>,
    keyword: Seq<char>,
    filters: Seq<FilterView>,
    n: nat,
    note: NoteView,
)
    requires
        n <= notes.len(),
    ensures
        hits(notes, bodies, keyword, filters, n).contains(note) <==> exists|i: int|
            0 <= i < n && notes[i] == note && is_hit(
                #[trigger] notes[i],
                body_at(bodies, i),
                keyword,
                filters,
            ),
    decreases n,
{
    let out = hits(notes, bodies, keyword, filters, n);
    if n > 0 {
        let last = n - 1;
        let kept = hits(notes, bodies, keyword, filters, last as nat);
        let last_hit = is_hit(notes[last], body_at(bodies, last), keyword, filters);
        lemma_hits_members(notes, bodies, keyword, filters, last as nat, note);
        if out.contains(note) {
            let k = choose|k: int| 0 <= k < out.len() && out[k] == note;
            if last_hit && k == kept.len() {
                assert(notes[last] == note);
            } else {
                assert(kept[k] == note);
                assert(kept.contains(note));
                let i = choose|i: int|
                    0 <= i < last && notes[i] == note && is_hit(
                        #[trigger] notes[i],
                        body_at(bodies, i),
                        keyword,
                        filters,
                    );
                assert(0 <= i < n);
            }
        }
        if exists|i: int|
            0 <= i < n && notes[i] == note && is_hit(
                #[trigger] notes[i],
                body_at(bodies, i),
                keyword,
                filters,
            ) {
            let i = choose|i: int|
                0 <= i < n && notes[i] == note && is_hit(
                    #[trigger] notes[i],
                    body_at(bodies, i),
                    keyword,
                    filters,
                );
            if i < last {
                assert(kept.contains(note));
                let k = choose|k: int| 0 <= k < kept.len() && kept[k] == note;
                assert(out[k] == note);
            } else {
                assert(out[kept.len() as int] == note);
            }
        }
    }
}

/// A store that holds nothing yet lists nothing, whatever the filters, and
/// the first note created in it gets the identifier 1.
pub proof fn lemma_fresh_store(
    filters: Seq<FilterView>,
    title: Seq<char>,
    labels: Seq<Seq<char>>,
)
    ensures
        StateView::fresh().wf(),
        select(StateView::fresh().notes, filters) == Seq::<NoteView>::empty(),
        StateView::fresh().created(title, labels).notes == seq![
            StateView::fresh().fresh_note(title, labels),
        ],
        StateView::fresh().fresh_note(title, labels).id == 1,
        StateView::fresh().created(title, labels).next_id == 2,
{
    assert(StateView::fresh().created(title, labels).notes =~= seq![
        StateView::fresh().fresh_note(title, labels),
    ]);
}

} // verus!
