//! The filter language: `is:<label>` asks for a label, `not:<label>` rules
//! one out, and a list of filters holds when each of them does.

use crate::error::NoteError;
use crate::note::Note;
use crate::text::{is_space, lemma_words_of_white_space, strip_prefix, trim, trimmed, words};
use vstd::prelude::*;

verus! {

/// One predicate on a note's label set.
#[derive(Debug)]
pub enum Filter<'a> {
    /// The note must carry the label.
    Is(&'a str),
    /// The note must not carry the label.
    Not(&'a str),
}

/// What a filter stands for.
pub enum FilterView {
    Is(Seq<char>),
    Not(Seq<char>),
}

impl<'a> View for Filter<'a> {
    type V = FilterView;

    open spec fn view(&self) -> FilterView {
        match self {
            Filter::Is(label) => FilterView::Is(label@),
            Filter::Not(label) => FilterView::Not(label@),
        }
    }
}

/// The characters `is:`.
pub open spec fn is_prefix() -> Seq<char> {
    seq!['i', 's', ':']
}

/// The characters `not:`.
pub open spec fn not_prefix() -> Seq<char> {
    seq!['n', 'o', 't', ':']
}

/// The filter that `token` denotes, if it denotes one: white space around the
/// token is dropped, `is:` or `not:` must follow, and the rest, again without
/// the white space around it, is the label.
pub open spec fn parse(token: Seq<char>) -> Option<FilterView> {
    let t = trimmed(token);
    if is_prefix().is_prefix_of(t) {
        Some(FilterView::Is(trimmed(t.skip(3))))
    } else if not_prefix().is_prefix_of(t) {
        Some(FilterView::Not(trimmed(t.skip(4))))
    } else {
        None
    }
}

impl FilterView {
    /// The filter holds of a note with the label set `labels`.
    pub open spec fn admits(self, labels: Set<Seq<char>>) -> bool {
        match self {
            FilterView::Is(label) => labels.contains(label),
            FilterView::Not(label) => !labels.contains(label),
        }
    }
}

/// Every filter of `filters` holds of a note with the label set `labels`.
pub open spec fn admits_all(filters: Seq<FilterView>, labels: Set<Seq<char>>) -> bool {
    forall|i: int| 0 <= i < filters.len() ==> (#[trigger] filters[i]).admits(labels)
}

/// What a list of filters stands for.
pub open spec fn views(filters: Seq<Filter>) -> Seq<FilterView> {
    filters.map_values(|f: Filter| f@)
}

impl<'a> TryFrom<&'a str> for Filter<'a> {
    type Error = NoteError;

    /// Reads one filter token. A token that is neither an `is:` nor a `not:`
    /// filter is a parse error.
    fn try_from(value: &'a str) -> (r: Result<Self, NoteError>)
        ensures
            match parse(value@) {
                Some(f) => r is Ok && r->Ok_0@ == f,
                None => r == Err::<Self, NoteError>(NoteError::ParseError),
            },
    {
        proof {
            reveal_strlit("is:");
            reveal_strlit("not:");
            assert("is:"@ =~= is_prefix());
            assert("not:"@ =~= not_prefix());
        }
        let t = trim(value);
        match strip_prefix(t, "is:") {
            Some(rest) => Ok(Filter::Is(trim(rest))),
            None => match strip_prefix(t, "not:") {
                Some(rest) => Ok(Filter::Not(trim(rest))),
                None => Err(NoteError::ParseError),
            },
        }
    }
}

/// `try_from` fixes the filter that comes back only up to its view: two
/// slices with the same characters need not be the same slice. So the law of
/// exact equality is not claimed here, and `try_from`'s own contract says what
/// is returned.
impl<'a> vstd::std_specs::convert::TryFromSpecImpl<&'a str> for Filter<'a> {
    open spec fn obeys_try_from_spec() -> bool {
        false
    }

    open spec fn try_from_spec(v: &'a str) -> Result<Self, NoteError> {
        match parse(v@) {
            Some(f) => Ok(choose|x: Filter<'a>| x@ == f),
            None => Err(NoteError::ParseError),
        }
    }
}

impl<'a> Filter<'a> {
    /// Tells whether the filter holds of `note`.
    pub fn admits(&self, note: &Note) -> (r: bool)
        ensures
            r == self@.admits(note@.label_set()),
    {
        match self {
            Filter::Is(label) => note.has_label(label),
            Filter::Not(label) => !note.has_label(label),
        }
    }
}

/// Tells whether every filter of `filters` holds of `note`.
pub fn admits_every(filters: &Vec<Filter>, note: &Note) -> (r: bool)
    ensures
        r == admits_all(views(filters@), note@.label_set()),
{
    let mut i: usize = 0;
    while i < filters.len()
        invariant
            i <= filters@.len(),
            forall|j: int| 0 <= j < i ==> (#[trigger] views(filters@)[j]).admits(note@.label_set()),
        decreases filters@.len() - i,
    {
        if !filters[i].admits(note) {
            proof {
                assert(!views(filters@)[i as int].admits(note@.label_set()));
            }
            return false;
        }
        i += 1;
    }
    true
}

/// The filters that `tokens` denote, if each of them denotes one.
pub open spec fn parse_all(tokens: Seq<Seq<char>>) -> Option<Seq<FilterView>> {
    if forall|i: int| 0 <= i < tokens.len() ==> parse(#[trigger] tokens[i]) is Some {
        Some(tokens.map_values(|t: Seq<char>| parse(t)->Some_0))
    } else {
        None
    }
}

/// Reads a list of filter tokens. One token that is no filter fails the whole
/// list with a parse error.
pub fn parse_every<'a>(tokens: &Vec<&'a str>) -> (r: Result<Vec<Filter<'a>>, NoteError>)
    ensures
        match parse_all(tokens@.map_values(|t: &str| t@)) {
            Some(fs) => r is Ok && views(r->Ok_0@) == fs,
            None => r == Err::<Vec<Filter<'a>>, NoteError>(NoteError::ParseError),
        },
{
    let ghost texts = tokens@.map_values(|t: &str| t@);
    let mut out: Vec<Filter<'a>> = Vec::new();
    let mut i: usize = 0;
    while i < tokens.len()
        invariant
            i <= tokens@.len(),
            texts == tokens@.map_values(|t: &str| t@),
            out@.len() == i,
            forall|j: int| 0 <= j < i ==> parse(#[trigger] texts[j]) == Some(out@[j]@),
        decreases tokens@.len() - i,
    {
        match Filter::try_from(tokens[i]) {
            Ok(f) => {
                out.push(f);
            },
            Err(_) => {
                proof {
                    assert(parse(texts[i as int]) is None);
                }
                return Err(NoteError::ParseError);
            },
        }
        i += 1;
    }
    proof {
        assert(views(out@) =~= texts.map_values(|t: Seq<char>| parse(t)->Some_0));
    }
    Ok(out)
}

/// A conjunction of two filter lists holds exactly when both lists hold.
pub proof fn lemma_admits_all_concat(
    first: Seq<FilterView>,
    second: Seq<FilterView>,
    labels: Set<Seq<char>>,
)
    ensures
        admits_all(first + second, labels) <==> admits_all(first, labels) && admits_all(
            second,
            labels,
        ),
{
    let both = first + second;
    if admits_all(both, labels) {
        assert forall|i: int| 0 <= i < first.len() implies (#[trigger] first[i]).admits(labels) by {
            assert(both[i] == first[i]);
        }
        assert forall|i: int| 0 <= i < second.len() implies (#[trigger] second[i]).admits(
            labels,
        ) by {
            assert(both[first.len() + i] == second[i]);
        }
    }
    if admits_all(first, labels) && admits_all(second, labels) {
        assert forall|i: int| 0 <= i < both.len() implies (#[trigger] both[i]).admits(labels) by {
            if i < first.len() {
                assert(both[i] == first[i]);
            } else {
                assert(both[i] == second[i - first.len()]);
            }
        }
    }
}

/// A filter setting that is empty, or made of white space alone, contributes
/// no filter and fails no query.
pub proof fn lemma_blank_setting_has_no_filters(setting: Seq<char>)
    requires
        forall|j: int| 0 <= j < setting.len() ==> is_space(setting[j]),
    ensures
        parse_all(words(setting)) == Some(Seq::<FilterView>::empty()),
{
    lemma_words_of_white_space(setting);
    assert(words(setting).map_values(|t: Seq<char>| parse(t)->Some_0) =~= Seq::<
        FilterView,
    >::empty());
}

/// The empty list of filters holds of every note.
pub proof fn lemma_admits_all_empty(labels: Set<Seq<char>>)
    ensures
        admits_all(Seq::<FilterView>::empty(), labels),
{
}

} // verus!
