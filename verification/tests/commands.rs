use nt::app::{grep, AddNoteInput, App, EditorRun};
use nt::config::Config;
use nt::error::NoteError;
use nt::filter::Filter;
use nt::note::Note;
use nt::state::{State, Stored};

fn app_with(label: &str, filter: &str) -> App {
    App::new(Config {
        nt_dir: "/store".to_string(),
        editor: "vim".to_string(),
        default_label: label.to_string(),
        default_filter: filter.to_string(),
    })
}

fn create(app: &App, state: &mut State, title: &str, labels: &[&str]) -> Note {
    let input = AddNoteInput::builder().title(title).labels(labels.to_vec()).build();
    app.add_note(state, &input)
}

fn ids(notes: &[Note]) -> Vec<usize> {
    notes.iter().map(|n| n.id).collect()
}

fn sample(app: &App) -> State {
    let mut state = State::default();
    create(app, &mut state, "one", &["work"]);
    create(app, &mut state, "two", &["work", "archived"]);
    create(app, &mut state, "three", &["urgent"]);
    create(app, &mut state, "four", &["urgent", "archived", "work"]);
    create(app, &mut state, "five", &[]);
    state
}

#[test]
fn new_resolves_the_storage_directory() {
    let app = app_with("", "");
    assert_eq!(app.root(), "/store");
    assert_eq!(app.config().nt_dir, "/store");
    assert_eq!(app.index_file(), "/store/nt_state.json");
    assert_eq!(app.notes_dir(), "/store/notes");
}

#[test]
fn builder_sets_title_and_labels() {
    let input = AddNoteInput::builder().title("t").build();
    assert_eq!(input.title(), "t");
    assert!(input.labels().is_empty());
    let other = AddNoteInput::builder().labels(vec!["a"]).title("u").labels(vec!["b", "c"]).build();
    assert_eq!(other.title(), "u");
    assert_eq!(other.labels(), &vec!["b", "c"]);
    let third = AddNoteInput::builder().labels(vec!["a"]).title("u").title("v").build();
    assert_eq!(third.title(), "v");
    assert_eq!(third.labels(), &vec!["a"]);
}

#[test]
fn first_note_of_a_fresh_store_gets_id_one() {
    let app = app_with("", "");
    let mut state = State::load(Stored::Missing);
    assert!(app.list_notes(&state, vec![]).unwrap().is_empty());
    let note = create(&app, &mut state, "hello", &[]);
    assert_eq!(note.id, 1);
    assert_eq!(note.path, "1.md");
    assert_eq!(note.title, "hello");
    assert!(note.labels.is_empty());
    assert_eq!(state.next_id, 2);
    assert_eq!(ids(&state.notes), vec![1]);
    assert_eq!(app.note_file(&note), "/store/notes/1.md");
}

#[test]
fn ids_increase_by_one_with_each_creation() {
    let app = app_with("", "");
    let mut state = State { next_id: 7, notes: vec![] };
    let mut last = 6;
    for k in 0..12 {
        let note = create(&app, &mut state, "n", &[]);
        assert_eq!(note.id, 7 + k);
        assert!(note.id > last);
        last = note.id;
        assert_eq!(state.next_id, note.id + 1);
        assert_eq!(state.notes.len(), k + 1);
        assert_eq!(state.notes[k].id, note.id);
    }
    assert_eq!(state.notes[11].path, "18.md");
}

#[test]
fn creation_unions_given_and_default_labels() {
    let app = app_with("inbox work", "");
    let mut state = State::default();
    let note = create(&app, &mut state, "t", &["work", "urgent", "work"]);
    assert_eq!(note.labels, vec!["work", "urgent", "inbox"]);
    assert_eq!(state.notes[0].labels, vec!["work", "urgent", "inbox"]);
}

#[test]
fn creation_keeps_earlier_notes() {
    let app = app_with("", "");
    let mut state = sample(&app);
    create(&app, &mut state, "six", &["x"]);
    assert_eq!(ids(&state.notes), vec![1, 2, 3, 4, 5, 6]);
    assert_eq!(state.notes[1].title, "two");
    assert_eq!(state.notes[1].labels, vec!["work", "archived"]);
}

#[test]
fn list_is_a_conjunction_of_filters() {
    let app = app_with("", "");
    let state = sample(&app);
    let listed = app.list_notes(&state, vec![Filter::Is("work"), Filter::Not("archived")]).unwrap();
    assert_eq!(ids(&listed), vec![1]);
    assert_eq!(listed[0].title, "one");
    assert_eq!(listed[0].labels, vec!["work"]);
}

#[test]
fn list_without_filters_returns_every_note_in_order() {
    let app = app_with("", "");
    let state = sample(&app);
    assert_eq!(ids(&app.list_notes(&state, vec![]).unwrap()), vec![1, 2, 3, 4, 5]);
    let spaces = app_with("", "   ");
    assert_eq!(ids(&spaces.list_notes(&state, vec![]).unwrap()), vec![1, 2, 3, 4, 5]);
}

#[test]
fn default_filter_is_applied_with_the_given_ones() {
    let app = app_with("", "not:archived");
    let state = sample(&app);
    assert_eq!(ids(&app.list_notes(&state, vec![]).unwrap()), vec![1, 3, 5]);
    assert_eq!(ids(&app.list_notes(&state, vec![Filter::Is("urgent")]).unwrap()), vec![3]);
    let two = app_with("", "not:archived  is:work");
    assert_eq!(ids(&two.list_notes(&state, vec![]).unwrap()), vec![1]);
}

#[test]
fn unreadable_default_filter_fails_the_query() {
    let app = app_with("", "not:archived bogus");
    let state = sample(&app);
    assert_eq!(app.list_notes(&state, vec![]).unwrap_err(), NoteError::ParseError);
    let bodies: Vec<Option<String>> = vec![];
    assert_eq!(app.search_notes(&state, &bodies, "x", vec![]).unwrap_err(), NoteError::ParseError);
}

#[test]
fn edit_resolves_the_body_path() {
    let app = app_with("", "");
    let state = sample(&app);
    assert_eq!(app.edit_note(&state, 3).unwrap(), "/store/notes/3.md");
}

#[test]
fn edit_of_a_missing_id_is_not_found() {
    let app = app_with("", "");
    let state = sample(&app);
    assert_eq!(app.edit_note(&state, 999).unwrap_err(), NoteError::NotFound);
    assert_eq!(app.edit_note(&State::default(), 1).unwrap_err(), NoteError::NotFound);
}

#[test]
fn editor_outcome_maps_to_errors() {
    assert_eq!(App::check_editor(EditorRun::Succeeded), Ok(()));
    assert_eq!(App::check_editor(EditorRun::Failed), Err(NoteError::ExternalProcessFailure));
    assert_eq!(App::check_editor(EditorRun::Unstarted), Err(NoteError::IoFault));
}

#[test]
fn add_labels_attaches_to_the_note() {
    let app = app_with("", "");
    let mut state = sample(&app);
    app.add_labels(&mut state, 3, vec!["later", "urgent", "later"]).unwrap();
    assert_eq!(state.notes[2].labels, vec!["urgent", "later"]);
    assert_eq!(state.notes[2].title, "three");
    assert_eq!(state.notes[0].labels, vec!["work"]);
    assert_eq!(state.next_id, 6);
    assert_eq!(ids(&state.notes), vec![1, 2, 3, 4, 5]);
}

#[test]
fn adding_present_labels_succeeds_and_changes_nothing() {
    let app = app_with("", "");
    let mut state = sample(&app);
    assert_eq!(app.add_labels(&mut state, 2, vec!["archived", "work"]), Ok(()));
    assert_eq!(state.notes[1].labels, vec!["work", "archived"]);
    assert_eq!(app.add_labels(&mut state, 2, vec![]), Ok(()));
    assert_eq!(state.notes[1].labels, vec!["work", "archived"]);
}

#[test]
fn add_labels_to_a_missing_id_is_not_found_and_changes_nothing() {
    let app = app_with("", "");
    let mut state = sample(&app);
    assert_eq!(app.add_labels(&mut state, 999, vec!["x"]), Err(NoteError::NotFound));
    assert_eq!(state.next_id, 6);
    assert_eq!(ids(&state.notes), vec![1, 2, 3, 4, 5]);
    for n in &state.notes {
        assert!(!n.labels.contains(&"x".to_string()));
    }
}

#[test]
fn remove_labels_detaches_from_the_note() {
    let app = app_with("", "");
    let mut state = sample(&app);
    app.remove_labels(&mut state, 4, vec!["archived", "nothing"]).unwrap();
    assert_eq!(state.notes[3].labels, vec!["urgent", "work"]);
    assert_eq!(state.notes[1].labels, vec!["work", "archived"]);
}

#[test]
fn removing_absent_labels_succeeds_and_changes_nothing() {
    let app = app_with("", "");
    let mut state = sample(&app);
    assert_eq!(app.remove_labels(&mut state, 1, vec!["urgent"]), Ok(()));
    assert_eq!(state.notes[0].labels, vec!["work"]);
    assert_eq!(app.remove_labels(&mut state, 5, vec!["a", "b"]), Ok(()));
    assert!(state.notes[4].labels.is_empty());
}

#[test]
fn remove_labels_from_a_missing_id_is_not_found() {
    let app = app_with("", "");
    let mut state = sample(&app);
    assert_eq!(app.remove_labels(&mut state, 999, vec!["work"]), Err(NoteError::NotFound));
    assert_eq!(state.notes[0].labels, vec!["work"]);
}

#[test]
fn labels_apply_to_the_first_note_with_the_id() {
    let app = app_with("", "");
    let twin = |title: &str| Note {
        id: 2,
        path: "2.md".to_string(),
        title: title.to_string(),
        labels: vec![],
    };
    let mut state = State { next_id: 3, notes: vec![twin("a"), twin("b")] };
    app.add_labels(&mut state, 2, vec!["x"]).unwrap();
    assert_eq!(state.notes[0].labels, vec!["x"]);
    assert!(state.notes[1].labels.is_empty());
}

#[test]
fn grep_finds_literal_substrings() {
    assert!(grep(Some("foobar"), "foo"));
    assert!(!grep(Some("fo o"), "foo"));
    assert!(!grep(None, "foo"));
    assert!(!grep(None, ""));
    assert!(grep(Some(""), ""));
}

#[test]
fn search_returns_the_notes_whose_body_holds_the_keyword() {
    let app = app_with("", "");
    let state = sample(&app);
    let bodies = vec![
        Some("foobar".to_string()),
        Some("fo o".to_string()),
        Some("a foo b".to_string()),
        None,
        Some("FOO".to_string()),
    ];
    assert_eq!(ids(&app.search_notes(&state, &bodies, "foo", vec![]).unwrap()), vec![1, 3]);
}

#[test]
fn search_applies_filters_too() {
    let app = app_with("", "not:archived");
    let state = sample(&app);
    let bodies: Vec<Option<String>> = (0..5).map(|_| Some("the foo".to_string())).collect();
    assert_eq!(ids(&app.search_notes(&state, &bodies, "foo", vec![]).unwrap()), vec![1, 3, 5]);
    assert_eq!(
        ids(&app.search_notes(&state, &bodies, "foo", vec![Filter::Is("work")]).unwrap()),
        vec![1]
    );
}

#[test]
fn search_treats_missing_bodies_as_unreadable() {
    let app = app_with("", "");
    let state = sample(&app);
    let bodies = vec![Some("foo".to_string()), Some("foo".to_string())];
    assert_eq!(ids(&app.search_notes(&state, &bodies, "foo", vec![]).unwrap()), vec![1, 2]);
    let none: Vec<Option<String>> = vec![];
    assert!(app.search_notes(&state, &none, "", vec![]).unwrap().is_empty());
}

#[test]
fn settings_are_reached_through_the_app() {
    let app = app_with("a", "is:b");
    assert_eq!(app.get_config("editor").unwrap(), "vim");
    assert_eq!(app.get_config("nope").unwrap_err(), NoteError::ParseError);
    let changed = app.set_config("editor", Some("nano")).unwrap();
    assert_eq!(changed.editor, "nano");
    assert_eq!(changed.default_label, "a");
    let reset = app.set_config("default_filter", None).unwrap();
    assert_eq!(reset.default_filter, "not:archived");
    assert_eq!(app.set_config("nope", Some("x")).unwrap_err(), NoteError::ParseError);
}

#[test]
fn errors_describe_themselves() {
    assert_eq!(NoteError::NotFound.message(), "note not found");
    assert_eq!(NoteError::ParseError.message(), "parse error");
    assert_eq!(NoteError::IoFault.message(), "i/o fault");
    assert_eq!(NoteError::ExternalProcessFailure.message(), "editor failed");
}

#[test]
fn effective_filters_put_the_default_ones_first() {
    let app = app_with("", " not:archived ");
    let all = app.effective_filters(vec![Filter::Is("urgent")]).unwrap();
    assert_eq!(all.len(), 2);
    assert!(matches!(all[0], Filter::Not("archived")));
    assert!(matches!(all[1], Filter::Is("urgent")));
    let none = app_with("", "");
    assert!(none.effective_filters(vec![]).unwrap().is_empty());
    let bad = app_with("", "is:a b");
    assert_eq!(bad.effective_filters(vec![]).unwrap_err(), NoteError::ParseError);
}

fn is_valid(label: &str) -> bool {
    !label.is_empty() && label == label.trim()
}

#[test]
fn creation_stores_only_trimmed_labels_that_are_not_empty() {
    let app = app_with(" inbox\ttodo  ", "");
    let mut state = State::default();
    let note = create(&app, &mut state, "t", &["", " x ", "x", "  ", "\ty z\n", "inbox "]);
    assert_eq!(note.labels, vec!["x", "y z", "inbox", "todo"]);
    assert!(note.labels.iter().all(|l| is_valid(l)));
    assert_eq!(state.notes[0].labels, note.labels);
}

#[test]
fn add_labels_stores_only_trimmed_labels_that_are_not_empty() {
    let app = app_with("", "");
    let mut state = sample(&app);
    assert_eq!(app.add_labels(&mut state, 1, vec![""]), Ok(()));
    assert_eq!(state.notes[0].labels, vec!["work"]);
    assert_eq!(app.add_labels(&mut state, 1, vec![" later ", " ", "work\n"]), Ok(()));
    assert_eq!(state.notes[0].labels, vec!["work", "later"]);
    for n in &state.notes {
        assert!(n.labels.iter().all(|l| is_valid(l)));
    }
}

#[test]
fn remove_labels_takes_each_text_as_given() {
    let app = app_with("", "");
    let mut state = sample(&app);
    assert_eq!(app.remove_labels(&mut state, 2, vec![" archived ", "", "work\n"]), Ok(()));
    assert_eq!(state.notes[1].labels, vec!["work", "archived"]);
    assert_eq!(state.next_id, 6);
    assert_eq!(ids(&state.notes), vec![1, 2, 3, 4, 5]);
    assert_eq!(app.remove_labels(&mut state, 2, vec!["archived"]), Ok(()));
    assert_eq!(state.notes[1].labels, vec!["work"]);
    assert_eq!(state.notes[1].title, "two");
    assert_eq!(state.notes[1].path, "2.md");
}

#[test]
fn remove_labels_leaves_the_set_difference() {
    let app = app_with("", "");
    let mut state = sample(&app);
    assert_eq!(app.remove_labels(&mut state, 4, vec!["work", "none", "urgent", "work"]), Ok(()));
    assert_eq!(state.notes[3].labels, vec!["archived"]);
    assert_eq!(state.notes[0].labels, vec!["work"]);
    assert_eq!(state.notes[2].labels, vec!["urgent"]);
}

#[test]
fn default_filter_is_split_at_any_white_space() {
    let app = app_with("", "not:archived\tis:work\n");
    let state = sample(&app);
    assert_eq!(ids(&app.list_notes(&state, vec![]).unwrap()), vec![1]);
}
