//! The commands: create, list, edit, label, search, and the settings.
//!
//! A command works on an index that its caller has loaded and, where it
//! changes the index, leaves the changed index for its caller to store.

use crate::config::{tilde_expansion, Config, ConfigView};
use crate::error::NoteError;
use crate::filter::{admits_every, parse_all, parse_every, views, Filter, FilterView};
use crate::note::{
    attach_all, labels_wf, lemma_attach_all, lemma_words_are_labels, named, without_all, Note,
    NoteView,
};
use crate::paths::{body_path, index_file, index_path, note_file, notes_dir, notes_path};
use crate::state::{
    body_views, hits, lemma_created_wf, lemma_locate, lemma_with_labels_wf,
    lemma_without_labels_wf, select, State,
};
use crate::text::{contains, decimal_string, occurs_in, split_words, words};
use vstd::prelude::*;

verus! {

/// The commands of one user, with that user's settings.
pub struct App {
    config: Config,
    root: String,
}

/// How a run of the editor ended.
#[derive(Debug, Clone, Copy, PartialEq, Eq, Structural)]
pub enum EditorRun {
    /// The editor could not be started.
    Unstarted,
    /// The editor ran and reported a failure.
    Failed,
    /// The editor ran and reported success.
    Succeeded,
}

/// What stands for a list of string slices.
pub open spec fn texts(items: Seq<&str>) -> Seq<Seq<char>> {
    items.map_values(|t: &str| t@)
}

/// Tells whether the body text `body`, if it was read, holds `keyword` as a
/// literal substring. A body that could not be read holds nothing.
pub fn grep(body: Option<&str>, keyword: &str) -> (r: bool)
    ensures
        r == (body matches Some(text) && occurs_in(keyword@, text@)),
{
    match body {
        Some(text) => contains(text, keyword),
        None => false,
    }
}

impl App {
    /// The settings.
    pub closed spec fn settings(&self) -> ConfigView {
        self.config@
    }

    /// The storage directory, after tilde expansion.
    pub closed spec fn root_text(&self) -> Seq<char> {
        self.root@
    }

    /// The filters that the settings apply to every query, if the
    /// `default_filter` setting can be read as filters.
    pub open spec fn default_filters(&self) -> Option<Seq<FilterView>> {
        parse_all(words(self.settings().default_filter))
    }

    /// The labels of a new note: those that the given texts name, then those
    /// of the `default_label` setting, each once.
    pub open spec fn new_labels(&self, given: Seq<Seq<char>>) -> Seq<Seq<char>> {
        attach_all(attach_all(Seq::empty(), given), words(self.settings().default_label))
    }

    /// Sets up the commands for the settings `config`. The storage directory
    /// is resolved once, here.
    pub fn new(config: Config) -> (app: App)
        ensures
            app.settings() == config@,
            tilde_expansion(config@.nt_dir, app.root_text()),
    {
        let root = config.nt_dir();
        App { config, root }
    }

    /// The settings.
    pub fn config(&self) -> (r: &Config)
        ensures
            r@ == self.settings(),
    {
        &self.config
    }

    /// The storage directory.
    pub fn root(&self) -> (r: &String)
        ensures
            r@ == self.root_text(),
    {
        &self.root
    }

    /// The path of the index file.
    pub fn index_file(&self) -> (r: String)
        ensures
            r@ == index_path(self.root_text()),
    {
        index_file(self.root.as_str())
    }

    /// The path of the directory that holds the body files.
    pub fn notes_dir(&self) -> (r: String)
        ensures
            r@ == notes_path(self.root_text()),
    {
        notes_dir(self.root.as_str())
    }

    /// The path of the body file of `note`.
    pub fn note_file(&self, note: &Note) -> (r: String)
        ensures
            r@ == body_path(self.root_text(), note@.path),
    {
        note_file(self.root.as_str(), note.path.as_str())
    }

    /// Creates a note: it gets the next identifier, the title of `input`, the
    /// labels that the texts of `input` name and the default labels, and
    /// stands last in the index. White space around a given text is dropped,
    /// and a text of white space alone names no label.
    pub fn add_note<'a>(&'a self, state: &mut State, input: &AddNoteInput<'a>) -> (note: Note)
        requires
            old(state).next_id < usize::MAX,
        ensures
            note@ == old(state)@.fresh_note(input@.title, self.new_labels(input@.labels)),
            final(state)@ == old(state)@.created(input@.title, self.new_labels(input@.labels)),
            note@.label_set() == named(input@.labels).union(
                words(self.settings().default_label).to_set(),
            ),
            note.wf(),
            old(state).wf() ==> final(state).wf(),
    {
        let id = state.next_id;
        let mut path = decimal_string(id);
        proof {
            reveal_strlit(".md");
            assert(".md"@ =~= seq!['.', 'm', 'd']);
        }
        path.append(".md");
        let mut note = Note { id, path, title: input.title.to_owned(), labels: Vec::new() };
        assert(note@.labels =~= Seq::<Seq<char>>::empty());
        let mut i: usize = 0;
        while i < input.labels.len()
            invariant
                i <= input.labels@.len(),
                note@ == (NoteView {
                    labels: attach_all(Seq::empty(), input@.labels.take(i as int)),
                    ..old(state)@.fresh_note(input@.title, Seq::empty())
                }),
                input@.labels == texts(input.labels@),
            decreases input.labels@.len() - i,
        {
            proof {
                let upto = input@.labels.take(i + 1);
                assert(upto.drop_last() =~= input@.labels.take(i as int));
                assert(upto.last() == input.labels@[i as int]@);
            }
            note.add_label(input.labels[i]);
            i += 1;
        }
        assert(input@.labels.take(i as int) =~= input@.labels);
        let defaults = self.config.default_label();
        let ghost given = attach_all(Seq::empty(), input@.labels);
        let ghost more = words(self.settings().default_label);
        let mut k: usize = 0;
        while k < defaults.len()
            invariant
                k <= defaults@.len(),
                defaults@.map_values(|l: String| l@) == more,
                note@ == (NoteView {
                    labels: attach_all(given, more.take(k as int)),
                    ..old(state)@.fresh_note(input@.title, Seq::empty())
                }),
            decreases defaults@.len() - k,
        {
            proof {
                let upto = more.take(k + 1);
                assert(upto.drop_last() =~= more.take(k as int));
                assert(upto.last() == defaults@[k as int]@);
            }
            note.add_label(defaults[k].as_str());
            k += 1;
        }
        assert(more.take(k as int) =~= more);
        state.next_id = id + 1;
        state.notes.push(note.clone());
        proof {
            assert(state@.notes =~= old(state)@.notes.push(note@));
            let none = Seq::<Seq<char>>::empty();
            lemma_attach_all(none, input@.labels);
            lemma_attach_all(given, more);
            lemma_words_are_labels(self.settings().default_label);
            assert(note@.label_set() =~= named(input@.labels).union(more.to_set()));
            assert(labels_wf(none));
            if old(state).wf() {
                lemma_created_wf(old(state)@, input@.title, self.new_labels(input@.labels));
            }
        }
        note
    }

    /// The filters of a query: those of the `default_filter` setting, then
    /// `filters`. A setting that cannot be read as filters is a parse error.
    pub fn effective_filters<'a>(&'a self, filters: Vec<Filter<'a>>) -> (r: Result<
        Vec<Filter<'a>>,
        NoteError,
    >)
        ensures
            match self.default_filters() {
                Some(defaults) => r is Ok && views(r->Ok_0@) == defaults + views(filters@),
                None => r == Err::<Vec<Filter<'a>>, NoteError>(NoteError::ParseError),
            },
    {
        let tokens = split_words(self.config.default_filter.as_str());
        proof {
            assert(texts(tokens@) =~= words(self.settings().default_filter));
        }
        let mut all = match parse_every(&tokens) {
            Ok(defaults) => defaults,
            Err(_) => {
                return Err(NoteError::ParseError);
            },
        };
        let ghost defaults = views(all@);
        let mut filters = filters;
        let ghost given = views(filters@);
        all.append(&mut filters);
        proof {
            assert(views(all@) =~= defaults + given);
        }
        Ok(all)
    }

    /// The notes of which every default filter and every filter of `filters`
    /// holds, in the order of the index. A `default_filter` setting that
    /// cannot be read as filters fails the query.
    pub fn list_notes<'a>(&'a self, state: &State, filters: Vec<Filter<'a>>) -> (r: Result<
        Vec<Note>,
        NoteError,
    >)
        ensures
            match self.default_filters() {
                Some(defaults) => r is Ok && r->Ok_0@.map_values(|n: Note| n@) == select(
                    state@.notes,
                    defaults + views(filters@),
                ),
                None => r == Err::<Vec<Note>, NoteError>(NoteError::ParseError),
            },
    {
        let all = match self.effective_filters(filters) {
            Ok(all) => all,
            Err(_) => {
                return Err(NoteError::ParseError);
            },
        };
        let mut out: Vec<Note> = Vec::new();
        let mut i: usize = 0;
        while i < state.notes.len()
            invariant
                i <= state.notes@.len(),
                out@.map_values(|n: Note| n@) == select(
                    state@.notes.take(i as int),
                    views(all@),
                ),
            decreases state.notes@.len() - i,
        {
            proof {
                let upto = state@.notes.take(i + 1);
                assert(upto.drop_last() =~= state@.notes.take(i as int));
                assert(upto.last() == state.notes@[i as int]@);
            }
            if admits_every(&all, &state.notes[i]) {
                out.push(state.notes[i].clone());
                proof {
                    assert(out@.map_values(|n: Note| n@) =~= select(
                        state@.notes.take(i as int),
                        views(all@),
                    ).push(state.notes@[i as int]@));
                }
            }
            i += 1;
        }
        proof {
            assert(state@.notes.take(i as int) =~= state@.notes);
        }
        Ok(out)
    }

    /// The path of the body file to open for the note with the identifier
    /// `id`. No such note is an error.
    pub fn edit_note(&self, state: &State, id: usize) -> (r: Result<String, NoteError>)
        ensures
            match state@.locate(id as nat) {
                Some(i) => r is Ok && r->Ok_0@ == body_path(
                    self.root_text(),
                    state@.notes[i].path,
                ),
                None => r == Err::<String, NoteError>(NoteError::NotFound),
            },
    {
        match state.find(id) {
            Some(i) => Ok(self.note_file(&state.notes[i])),
            None => Err(NoteError::NotFound),
        }
    }

    /// What a run of the editor comes to: an editor that could not be started
    /// is an I/O fault, one that reported a failure is a failure of the
    /// editor, and neither touches the index.
    pub fn check_editor(run: EditorRun) -> (r: Result<(), NoteError>)
        ensures
            r == match run {
                EditorRun::Unstarted => Err::<(), NoteError>(NoteError::IoFault),
                EditorRun::Failed => Err::<(), NoteError>(NoteError::ExternalProcessFailure),
                EditorRun::Succeeded => Ok::<(), NoteError>(()),
            },
    {
        match run {
            EditorRun::Unstarted => Err(NoteError::IoFault),
            EditorRun::Failed => Err(NoteError::ExternalProcessFailure),
            EditorRun::Succeeded => Ok(()),
        }
    }

    /// Attaches the labels that `labels` name to the note with the identifier
    /// `id`: white space around each text is dropped, and a text of white
    /// space alone names no label. No such note is an error, and leaves the
    /// index as it was.
    pub fn add_labels<'a>(&'a self, state: &mut State, id: usize, labels: Vec<&'a str>) -> (r:
        Result<(), NoteError>)
        ensures
            r == if old(state)@.holds(id as nat) {
                Ok::<(), NoteError>(())
            } else {
                Err::<(), NoteError>(NoteError::NotFound)
            },
            final(state)@ == old(state)@.with_labels(id as nat, texts(labels@)),
            !old(state)@.holds(id as nat) ==> final(state)@ == old(state)@,
            old(state).wf() ==> final(state).wf(),
    {
        proof {
            lemma_locate(state@, id as nat);
            if state.wf() {
                lemma_with_labels_wf(state@, id as nat, texts(labels@));
            }
        }
        let at = match state.find(id) {
            Some(at) => at,
            None => {
                return Err(NoteError::NotFound);
            },
        };
        let ghost before = state@.notes[at as int];
        let mut note = state.notes[at].clone();
        let mut i: usize = 0;
        while i < labels.len()
            invariant
                i <= labels@.len(),
                note@ == (NoteView {
                    labels: attach_all(before.labels, texts(labels@).take(i as int)),
                    ..before
                }),
            decreases labels@.len() - i,
        {
            proof {
                let upto = texts(labels@).take(i + 1);
                assert(upto.drop_last() =~= texts(labels@).take(i as int));
                assert(upto.last() == labels@[i as int]@);
            }
            note.add_label(labels[i]);
            i += 1;
        }
        assert(texts(labels@).take(i as int) =~= texts(labels@));
        state.notes.set(at, note);
        proof {
            assert(state@.notes =~= old(state)@.notes.update(at as int, note@));
        }
        Ok(())
    }

    /// Detaches `labels` from the note with the identifier `id`. Each text is
    /// taken as it is given, and one that the note does not carry changes
    /// nothing. No such note is an error, and leaves the index as it was.
    pub fn remove_labels<'a>(&'a self, state: &mut State, id: usize, labels: Vec<&'a str>) -> (r:
        Result<(), NoteError>)
        ensures
            r == if old(state)@.holds(id as nat) {
                Ok::<(), NoteError>(())
            } else {
                Err::<(), NoteError>(NoteError::NotFound)
            },
            final(state)@ == old(state)@.without_labels(id as nat, texts(labels@)),
            !old(state)@.holds(id as nat) ==> final(state)@ == old(state)@,
            old(state).wf() ==> final(state).wf(),
    {
        proof {
            lemma_locate(state@, id as nat);
            if state.wf() {
                lemma_without_labels_wf(state@, id as nat, texts(labels@));
            }
        }
        let at = match state.find(id) {
            Some(at) => at,
            None => {
                return Err(NoteError::NotFound);
            },
        };
        let ghost before = state@.notes[at as int];
        let mut note = state.notes[at].clone();
        let mut i: usize = 0;
        while i < labels.len()
            invariant
                i <= labels@.len(),
                note@ == (NoteView {
                    labels: without_all(before.labels, texts(labels@).take(i as int)),
                    ..before
                }),
            decreases labels@.len() - i,
        {
            proof {
                let upto = texts(labels@).take(i + 1);
                assert(upto.drop_last() =~= texts(labels@).take(i as int));
                assert(upto.last() == labels@[i as int]@);
            }
            note.remove_label(labels[i]);
            i += 1;
        }
        assert(texts(labels@).take(i as int) =~= texts(labels@));
        state.notes.set(at, note);
        proof {
            assert(state@.notes =~= old(state)@.notes.update(at as int, note@));
        }
        Ok(())
    }

    /// The notes of which every default filter and every filter of `filters`
    /// holds and whose body holds `keyword`, in the order of the index.
    /// `bodies` holds the body text of each note of the index, in the order
    /// of the index, and `None` for a body that could not be read: such a
    /// note is not found, and so is one for which `bodies` has no entry. A
    /// `default_filter` setting that cannot be read as filters fails the
    /// query.
    pub fn search_notes<'a>(
        &'a self,
        state: &State,
        bodies: &Vec<Option<String>>,
        keyword: &str,
        filters: Vec<Filter<'a>>,
    ) -> (r: Result<Vec<Note>, NoteError>)
        ensures
            match self.default_filters() {
                Some(defaults) => r is Ok && r->Ok_0@.map_values(|n: Note| n@) == hits(
                    state@.notes,
                    body_views(bodies@),
                    keyword@,
                    defaults + views(filters@),
                    state@.notes.len(),
                ),
                None => r == Err::<Vec<Note>, NoteError>(NoteError::ParseError),
            },
    {
        let all = match self.effective_filters(filters) {
            Ok(all) => all,
            Err(_) => {
                return Err(NoteError::ParseError);
            },
        };
        let mut out: Vec<Note> = Vec::new();
        let mut i: usize = 0;
        while i < state.notes.len()
            invariant
                i <= state.notes@.len(),
                out@.map_values(|n: Note| n@) == hits(
                    state@.notes,
                    body_views(bodies@),
                    keyword@,
                    views(all@),
                    i as nat,
                ),
            decreases state.notes@.len() - i,
        {
            let body: Option<&str> = if i < bodies.len() {
                match &bodies[i] {
                    Some(text) => Some(text.as_str()),
                    None => None,
                }
            } else {
                None
            };
            let admitted = admits_every(&all, &state.notes[i]);
            let found = grep(body, keyword);
            if admitted && found {
                out.push(state.notes[i].clone());
                proof {
                    assert(out@.map_values(|n: Note| n@) =~= hits(
                        state@.notes,
                        body_views(bodies@),
                        keyword@,
                        views(all@),
                        i as nat,
                    ).push(state.notes@[i as int]@));
                }
            }
            i += 1;
        }
        Ok(out)
    }

    /// The current text of the setting that `key` names.
    pub fn get_config(&self, key: &str) -> (r: Result<String, NoteError>)
        ensures
            match self.settings().field(key@) {
                Some(text) => r is Ok && r->Ok_0@ == text,
                None => r == Err::<String, NoteError>(NoteError::ParseError),
            },
    {
        self.config.get(key)
    }

    /// The settings with the setting that `key` names set to `value`, or,
    /// without a value, back to its initial text.
    pub fn set_config(&self, key: &str, value: Option<&str>) -> (r: Result<Config, NoteError>)
        ensures
            match self.settings().field(key@) {
                Some(_) => r is Ok && r->Ok_0@ == self.settings().with_field(
                    key@,
                    match value {
                        Some(text) => text@,
                        None => ConfigView::initial().field(key@)->Some_0,
                    },
                ),
                None => r == Err::<Config, NoteError>(NoteError::ParseError),
            },
    {
        self.config.set(key, value)
    }
}

/// What a new note is to hold: its title and the labels to attach.
#[derive(Debug)]
pub struct AddNoteInput<'a> {
    title: &'a str,
    labels: Vec<&'a str>,
}

/// What the input of a creation stands for.
pub struct AddNoteInputView {
    pub title: Seq<char>,
    pub labels: Seq<Seq<char>>,
}

impl<'a> View for AddNoteInput<'a> {
    type V = AddNoteInputView;

    closed spec fn view(&self) -> AddNoteInputView {
        AddNoteInputView { title: self.title@, labels: texts(self.labels@) }
    }
}

/// The input of a creation in the making, before its title is set.
#[derive(Debug)]
pub struct AddNoteInputBuilder<'a> {
    labels: Vec<&'a str>,
}

/// The input of a creation in the making, once its title is set.
#[derive(Debug)]
pub struct TitledAddNoteInputBuilder<'a> {
    title: &'a str,
    labels: Vec<&'a str>,
}

impl<'a> AddNoteInput<'a> {
    /// Starts an input without labels. The title has to be set before the
    /// input can be built.
    pub fn builder() -> (r: AddNoteInputBuilder<'a>)
        ensures
            r.labels_view() == Seq::<Seq<char>>::empty(),
    {
        let r = AddNoteInputBuilder { labels: Vec::new() };
        proof {
            assert(r.labels_view() =~= Seq::<Seq<char>>::empty());
        }
        r
    }

    /// The title.
    pub fn title(&self) -> (r: &'a str)
        ensures
            r@ == self@.title,
    {
        self.title
    }

    /// The labels to attach.
    pub fn labels(&self) -> (r: &Vec<&'a str>)
        ensures
            texts(r@) == self@.labels,
    {
        &self.labels
    }
}

impl<'a> AddNoteInputBuilder<'a> {
    /// The labels set so far.
    pub closed spec fn labels_view(&self) -> Seq<Seq<char>> {
        texts(self.labels@)
    }

    /// Sets the title.
    pub fn title(self, title: &'a str) -> (r: TitledAddNoteInputBuilder<'a>)
        ensures
            r.title_view() == title@,
            r.labels_view() == self.labels_view(),
    {
        TitledAddNoteInputBuilder { title, labels: self.labels }
    }

    /// Sets the labels, in place of those set before.
    pub fn labels(self, labels: Vec<&'a str>) -> (r: Self)
        ensures
            r.labels_view() == texts(labels@),
    {
        AddNoteInputBuilder { labels }
    }
}

impl<'a> TitledAddNoteInputBuilder<'a> {
    /// The title.
    pub closed spec fn title_view(&self) -> Seq<char> {
        self.title@
    }

    /// The labels set so far.
    pub closed spec fn labels_view(&self) -> Seq<Seq<char>> {
        texts(self.labels@)
    }

    /// Sets the title, in place of the one set before.
    pub fn title(self, title: &'a str) -> (r: Self)
        ensures
            r.title_view() == title@,
            r.labels_view() == self.labels_view(),
    {
        TitledAddNoteInputBuilder { title, labels: self.labels }
    }

    /// Sets the labels, in place of those set before.
    pub fn labels(self, labels: Vec<&'a str>) -> (r: Self)
        ensures
            r.title_view() == self.title_view(),
            r.labels_view() == texts(labels@),
    {
        TitledAddNoteInputBuilder { title: self.title, labels }
    }

    /// The input with the title and the labels that were set.
    pub fn build(self) -> (r: AddNoteInput<'a>)
        ensures
            r@ == (AddNoteInputView { title: self.title_view(), labels: self.labels_view() }),
    {
        AddNoteInput { title: self.title, labels: self.labels }
    }
}

} // verus!
