use nt::error::NoteError;
use nt::filter::{admits_every, parse_every, Filter};
use nt::note::Note;

fn note_with(labels: &[&str]) -> Note {
    Note {
        id: 1,
        path: "1.md".to_string(),
        title: "t".to_string(),
        labels: labels.iter().map(|l| l.to_string()).collect(),
    }
}

fn label_of(f: &Filter) -> (bool, String) {
    match f {
        Filter::Is(l) => (true, l.to_string()),
        Filter::Not(l) => (false, l.to_string()),
    }
}

#[test]
fn is_filter_is_read() {
    let f = Filter::try_from("is:work").unwrap();
    assert_eq!(label_of(&f), (true, "work".to_string()));
}

#[test]
fn not_filter_is_read() {
    let f = Filter::try_from("not:archived").unwrap();
    assert_eq!(label_of(&f), (false, "archived".to_string()));
}

#[test]
fn white_space_around_token_and_label_is_dropped() {
    let f = Filter::try_from("  is:  work \t").unwrap();
    assert_eq!(label_of(&f), (true, "work".to_string()));
    let g = Filter::try_from("\u{3000}not:\u{a0}old\n").unwrap();
    assert_eq!(label_of(&g), (false, "old".to_string()));
}

#[test]
fn label_may_be_empty_or_hold_spaces_inside() {
    let f = Filter::try_from("is:").unwrap();
    assert_eq!(label_of(&f), (true, "".to_string()));
    let g = Filter::try_from("is:a b").unwrap();
    assert_eq!(label_of(&g), (true, "a b".to_string()));
}

#[test]
fn unknown_prefix_is_a_parse_error() {
    assert_eq!(Filter::try_from("has:work").unwrap_err(), NoteError::ParseError);
    assert_eq!(Filter::try_from("").unwrap_err(), NoteError::ParseError);
    assert_eq!(Filter::try_from("is").unwrap_err(), NoteError::ParseError);
    assert_eq!(Filter::try_from("IS:work").unwrap_err(), NoteError::ParseError);
    assert_eq!(Filter::try_from("work").unwrap_err(), NoteError::ParseError);
}

#[test]
fn try_into_reads_a_filter() {
    let r: Result<Filter, NoteError> = "not:x".try_into();
    assert_eq!(label_of(&r.unwrap()), (false, "x".to_string()));
}

#[test]
fn one_bad_token_fails_the_list() {
    let tokens = vec!["is:a", "bogus", "not:b"];
    assert_eq!(parse_every(&tokens).unwrap_err(), NoteError::ParseError);
    let good = vec!["is:a", "not:b"];
    let fs = parse_every(&good).unwrap();
    assert_eq!(fs.len(), 2);
    assert_eq!(label_of(&fs[0]), (true, "a".to_string()));
    assert_eq!(label_of(&fs[1]), (false, "b".to_string()));
}

#[test]
fn filter_holds_by_label_membership() {
    let n = note_with(&["work", "urgent"]);
    assert!(Filter::Is("work").admits(&n));
    assert!(!Filter::Is("home").admits(&n));
    assert!(Filter::Not("home").admits(&n));
    assert!(!Filter::Not("urgent").admits(&n));
}

#[test]
fn filters_are_a_conjunction() {
    let n = note_with(&["work"]);
    assert!(admits_every(&vec![], &n));
    assert!(admits_every(&vec![Filter::Is("work"), Filter::Not("archived")], &n));
    assert!(!admits_every(&vec![Filter::Is("work"), Filter::Is("urgent")], &n));
    assert!(!admits_every(&vec![Filter::Not("work"), Filter::Not("archived")], &n));
}
