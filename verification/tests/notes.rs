use nt::note::Note;
use nt::state::{State, Stored};

fn note(id: usize, labels: &[&str]) -> Note {
    Note {
        id,
        path: format!("{}.md", id),
        title: format!("note {}", id),
        labels: labels.iter().map(|l| l.to_string()).collect(),
    }
}

#[test]
fn has_label_looks_the_label_up() {
    let n = note(1, &["work", "urgent"]);
    assert!(n.has_label("work"));
    assert!(n.has_label("urgent"));
    assert!(!n.has_label("wor"));
    assert!(!n.has_label(""));
}

#[test]
fn add_label_puts_a_new_label_last() {
    let mut n = note(1, &["work"]);
    n.add_label("urgent");
    assert_eq!(n.labels, vec!["work", "urgent"]);
    assert_eq!(n.id, 1);
    assert_eq!(n.path, "1.md");
    assert_eq!(n.title, "note 1");
}

#[test]
fn adding_a_present_label_changes_nothing() {
    let mut n = note(1, &["work", "urgent"]);
    n.add_label("work");
    assert_eq!(n.labels, vec!["work", "urgent"]);
    n.add_label("urgent");
    assert_eq!(n.labels, vec!["work", "urgent"]);
}

#[test]
fn remove_label_takes_the_label_out() {
    let mut n = note(1, &["a", "b", "c"]);
    n.remove_label("b");
    assert_eq!(n.labels, vec!["a", "c"]);
    assert_eq!(n.title, "note 1");
}

#[test]
fn removing_an_absent_label_changes_nothing() {
    let mut n = note(1, &["a", "b"]);
    n.remove_label("z");
    assert_eq!(n.labels, vec!["a", "b"]);
    let mut e = note(2, &[]);
    e.remove_label("a");
    assert!(e.labels.is_empty());
}

#[test]
fn remove_label_takes_every_occurrence_out() {
    let mut n = note(1, &["a", "b", "a"]);
    n.remove_label("a");
    assert_eq!(n.labels, vec!["b"]);
}

#[test]
fn clone_copies_every_field() {
    let n = note(4, &["x", "y"]);
    let c = n.clone();
    assert_eq!(c.id, 4);
    assert_eq!(c.path, "4.md");
    assert_eq!(c.title, "note 4");
    assert_eq!(c.labels, vec!["x", "y"]);
}

#[test]
fn default_state_starts_at_one() {
    let s = State::default();
    assert_eq!(s.next_id, 1);
    assert!(s.notes.is_empty());
}

#[test]
fn load_falls_back_to_a_fresh_state() {
    for found in [Stored::Missing, Stored::Unreadable, Stored::Malformed] {
        let s = State::load(found);
        assert_eq!(s.next_id, 1);
        assert!(s.notes.is_empty());
    }
}

#[test]
fn load_keeps_what_was_parsed() {
    let stored = State { next_id: 9, notes: vec![note(3, &["a"]), note(8, &[])] };
    let s = State::load(Stored::Parsed(stored));
    assert_eq!(s.next_id, 9);
    assert_eq!(s.notes.len(), 2);
    assert_eq!(s.notes[0].id, 3);
    assert_eq!(s.notes[0].labels, vec!["a"]);
    assert_eq!(s.notes[1].id, 8);
}

#[test]
fn find_returns_the_first_position() {
    let s = State { next_id: 9, notes: vec![note(3, &[]), note(8, &[]), note(3, &[])] };
    assert_eq!(s.find(3), Some(0));
    assert_eq!(s.find(8), Some(1));
    assert_eq!(s.find(999), None);
    assert_eq!(State::default().find(1), None);
}

#[test]
fn add_label_drops_white_space_around_the_label() {
    let mut n = note(1, &["work"]);
    n.add_label("  urgent\t");
    assert_eq!(n.labels, vec!["work", "urgent"]);
    n.add_label(" work ");
    assert_eq!(n.labels, vec!["work", "urgent"]);
    n.add_label("two words");
    assert_eq!(n.labels, vec!["work", "urgent", "two words"]);
}

#[test]
fn add_label_of_white_space_alone_adds_nothing() {
    let mut n = note(1, &["work"]);
    n.add_label("");
    n.add_label("   ");
    n.add_label("\t\n\u{3000}");
    assert_eq!(n.labels, vec!["work"]);
}

#[test]
fn remove_label_takes_the_text_as_given() {
    let mut n = note(1, &["a", "b"]);
    n.remove_label(" a\n");
    assert_eq!(n.labels, vec!["a", "b"]);
    n.remove_label("  ");
    n.remove_label("");
    assert_eq!(n.labels, vec!["a", "b"]);
    n.remove_label("a");
    assert_eq!(n.labels, vec!["b"]);
}

#[test]
fn from_parts_attaches_each_label_once() {
    let labels = vec![" a ", "b", "", "a", "  ", "c d\t", "b"];
    let n = Note::from_parts(
        7,
        "7.md".to_string(),
        "seven".to_string(),
        labels.iter().map(|l| l.to_string()).collect(),
    );
    assert_eq!(n.id, 7);
    assert_eq!(n.path, "7.md");
    assert_eq!(n.title, "seven");
    assert_eq!(n.labels, vec!["a", "b", "c d"]);
    let plain = Note::from_parts(1, "1.md".to_string(), "t".to_string(), vec![]);
    assert!(plain.labels.is_empty());
}
