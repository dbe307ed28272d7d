//! A note record and its label set.

use crate::text::{
    decimal, lemma_plain_is_trimmed, lemma_trimmed, lemma_words_are_plain, same, trim, trimmed,
    words,
};
use vstd::prelude::*;

verus! {

/// One note of the index. The body text lives in a file of its own, named by
/// `path`. `labels` holds the label set; a well-formed note holds each label
/// once.
#[derive(Debug)]
pub struct Note {
    pub id: usize,
    pub path: String,
    pub title: String,
    pub labels: Vec<String>,
}

/// What a note stands for: its fields as mathematical values. The labels are
/// kept in the order in which they were attached; `label_set` forgets it.
pub struct NoteView {
    pub id: nat,
    pub path: Seq<char>,
    pub title: Seq<char>,
    pub labels: Seq<Seq<char>>,
}

/// A label is a text that is not empty and has no white space at either end.
pub open spec fn valid_label(label: Seq<char>) -> bool {
    label.len() > 0 && trimmed(label) == label
}

/// The name of the body file of the note with identifier `id`: the decimal
/// numeral of `id`, then `.md`.
pub open spec fn file_name(id: nat) -> Seq<char> {
    decimal(id) + seq!['.', 'm', 'd']
}

/// `labels` with `label` put behind the others, unless it is there already.
pub open spec fn put(labels: Seq<Seq<char>>, label: Seq<char>) -> Seq<Seq<char>> {
    if labels.contains(label) {
        labels
    } else {
        labels.push(label)
    }
}

/// `labels` with the label that `text` names attached: the white space
/// around `text` is dropped, and what is left is put behind the others,
/// unless it is there already. A text of white space alone names no label.
pub open spec fn attach(labels: Seq<Seq<char>>, text: Seq<char>) -> Seq<Seq<char>> {
    if trimmed(text).len() == 0 {
        labels
    } else {
        put(labels, trimmed(text))
    }
}

/// The labels that the texts of `texts` name, as a set.
pub open spec fn named(texts: Seq<Seq<char>>) -> Set<Seq<char>> {
    Set::new(
        |l: Seq<char>|
            l.len() > 0 && exists|i: int| 0 <= i < texts.len() && trimmed(#[trigger] texts[i]) == l,
    )
}

/// `labels` with the label that each text of `more` names attached in turn.
pub open spec fn attach_all(labels: Seq<Seq<char>>, more: Seq<Seq<char>>) -> Seq<Seq<char>>
    decreases more.len(),
{
    if more.len() == 0 {
        labels
    } else {
        attach(attach_all(labels, more.drop_last()), more.last())
    }
}

/// `labels` with each entry of `fewer` taken out in turn.
pub open spec fn without_all(labels: Seq<Seq<char>>, fewer: Seq<Seq<char>>) -> Seq<Seq<char>>
    decreases fewer.len(),
{
    if fewer.len() == 0 {
        labels
    } else {
        without(without_all(labels, fewer.drop_last()), fewer.last())
    }
}

/// `labels` without every occurrence of `label`, the others in their order.
pub open spec fn without(labels: Seq<Seq<char>>, label: Seq<char>) -> Seq<Seq<char>>
    decreases labels.len(),
{
    if labels.len() == 0 {
        labels
    } else if labels.last() == label {
        without(labels.drop_last(), label)
    } else {
        without(labels.drop_last(), label).push(labels.last())
    }
}

/// An entry stays in `without(labels, label)` exactly when it is in `labels`
/// and differs from `label`.
pub proof fn lemma_without_contains(labels: Seq<Seq<char>>, label: Seq<char>, l: Seq<char>)
    ensures
        without(labels, label).contains(l) <==> labels.contains(l) && l != label,
    decreases labels.len(),
{
    let out = without(labels, label);
    if labels.len() > 0 {
        let front = labels.drop_last();
        let kept = without(front, label);
        lemma_without_contains(front, label, l);
        if out.contains(l) {
            let i = choose|i: int| 0 <= i < out.len() && out[i] == l;
            if labels.last() != label && i == kept.len() {
                assert(labels[labels.len() - 1] == l);
            } else {
                assert(kept[i] == l);
                assert(kept.contains(l));
                assert(front.contains(l));
                let j = choose|j: int| 0 <= j < front.len() && front[j] == l;
                assert(labels[j] == l);
            }
        }
        if labels.contains(l) && l != label {
            let j = choose|j: int| 0 <= j < labels.len() && labels[j] == l;
            if j < front.len() {
                assert(front[j] == l);
                assert(front.contains(l));
                assert(kept.contains(l));
                let i = choose|i: int| 0 <= i < kept.len() && kept[i] == l;
                assert(out[i] == l);
            } else {
                assert(out[kept.len() as int] == l);
            }
        }
    }
}

/// `without` takes `label` out of the set of entries, keeps a sequence that
/// does not hold `label` as it is, and keeps entries distinct.
pub proof fn lemma_without(labels: Seq<Seq<char>>, label: Seq<char>)
    ensures
        without(labels, label).to_set() == labels.to_set().remove(label),
        !labels.contains(label) ==> without(labels, label) == labels,
        labels.no_duplicates() ==> without(labels, label).no_duplicates(),
        labels_wf(labels) ==> labels_wf(without(labels, label)),
    decreases labels.len(),
{
    let out = without(labels, label);
    assert forall|l: Seq<char>| out.contains(l) <==> labels.contains(l) && l != label by {
        lemma_without_contains(labels, label, l);
    }
    if labels_wf(labels) {
        assert forall|i: int| 0 <= i < out.len() implies valid_label(#[trigger] out[i]) by {
            let l = out[i];
            assert(out.contains(l));
            let j = choose|j: int| 0 <= j < labels.len() && labels[j] == l;
            assert(valid_label(labels[j]));
        }
    }
    assert(out.to_set() =~= labels.to_set().remove(label));
    if labels.len() > 0 {
        let front = labels.drop_last();
        let kept = without(front, label);
        lemma_without(front, label);
        if !labels.contains(label) {
            assert(!front.contains(label)) by {
                if front.contains(label) {
                    let j = choose|j: int| 0 <= j < front.len() && front[j] == label;
                    assert(labels[j] == label);
                }
            }
            assert(labels.last() != label) by {
                assert(labels[labels.len() - 1] == labels.last());
            }
            assert(out =~= labels);
        }
        if labels.no_duplicates() {
            assert(front.no_duplicates()) by {
                assert forall|i: int, j: int|
                    0 <= i < front.len() && 0 <= j < front.len() && i != j implies front[i]
                    != front[j] by {
                    assert(front[i] == labels[i] && front[j] == labels[j]);
                }
            }
            if labels.last() != label {
                assert(!kept.contains(labels.last())) by {
                    lemma_without_contains(front, label, labels.last());
                    if front.contains(labels.last()) {
                        let j = choose|j: int| 0 <= j < front.len() && front[j] == labels.last();
                        assert(labels[j] == labels[labels.len() - 1]);
                    }
                }
                assert forall|i: int, j: int|
                    0 <= i < out.len() && 0 <= j < out.len() && i != j implies out[i]
                    != out[j] by {
                    if i < kept.len() && j < kept.len() {
                        assert(out[i] == kept[i] && out[j] == kept[j]);
                    } else if i < kept.len() {
                        assert(kept[i] == out[i]);
                        assert(kept.contains(out[i]));
                    } else {
                        assert(kept[j] == out[j]);
                        assert(kept.contains(out[j]));
                    }
                }
            }
        }
    }
}

impl NoteView {
    /// The labels as an unordered set.
    pub open spec fn label_set(self) -> Set<Seq<char>> {
        self.labels.to_set()
    }

    /// The labels are pairwise different, and each is a valid label.
    pub open spec fn wf(self) -> bool {
        labels_wf(self.labels)
    }

    /// The note with the label that `label` names attached.
    pub open spec fn with_label(self, label: Seq<char>) -> NoteView {
        NoteView { labels: attach(self.labels, label), ..self }
    }

    /// The note with `label` detached.
    pub open spec fn without_label(self, label: Seq<char>) -> NoteView {
        NoteView { labels: without(self.labels, label), ..self }
    }
}

impl View for Note {
    type V = NoteView;

    open spec fn view(&self) -> NoteView {
        NoteView {
            id: self.id as nat,
            path: self.path@,
            title: self.title@,
            labels: self.labels@.map_values(|l: String| l@),
        }
    }
}

impl Clone for Note {
    fn clone(&self) -> (r: Self)
        ensures
            r@ == self@,
    {
        let r = Note {
            id: self.id,
            path: self.path.clone(),
            title: self.title.clone(),
            labels: self.labels.clone(),
        };
        proof {
            assert(r@.labels =~= self@.labels);
        }
        r
    }
}

impl Note {
    /// The labels are pairwise different, and each is a valid label.
    pub open spec fn wf(&self) -> bool {
        self@.wf()
    }

    /// Tells whether the note carries `label`.
    pub fn has_label(&self, label: &str) -> (r: bool)
        ensures
            r == self@.label_set().contains(label@),
    {
        let mut i: usize = 0;
        while i < self.labels.len()
            invariant
                i <= self.labels@.len(),
                forall|j: int| 0 <= j < i ==> self@.labels[j] != label@,
            decreases self.labels@.len() - i,
        {
            if same(self.labels[i].as_str(), label) {
                proof {
                    assert(self@.labels[i as int] == label@);
                }
                return true;
            }
            i += 1;
        }
        false
    }

    /// Puts the label that `label` names into the label set: the white space
    /// around `label` is dropped first, and a text of white space alone adds
    /// nothing. A label that is there already stays where it is, and the note
    /// as it was.
    pub fn add_label(&mut self, label: &str)
        ensures
            final(self)@ == old(self)@.with_label(label@),
            final(self)@.label_set() == if trimmed(label@).len() == 0 {
                old(self)@.label_set()
            } else {
                old(self)@.label_set().insert(trimmed(label@))
            },
            old(self).wf() ==> final(self).wf(),
    {
        let name = trim(label);
        if !name.is_empty() && !self.has_label(name) {
            self.labels.push(name.to_owned());
            proof {
                assert(self@.labels =~= old(self)@.labels.push(name@));
            }
        }
        proof {
            lemma_with_label(old(self)@, label@);
        }
    }

    /// Takes `label` out of the label set. The text is taken as it is given:
    /// a label that is not there leaves the note as it was.
    pub fn remove_label(&mut self, label: &str)
        ensures
            final(self)@ == old(self)@.without_label(label@),
            final(self)@.label_set() == old(self)@.label_set().remove(label@),
            !old(self)@.label_set().contains(label@) ==> final(self)@ == old(self)@,
            old(self).wf() ==> final(self).wf(),
    {
        let mut kept: Vec<String> = Vec::new();
        let mut i: usize = 0;
        while i < self.labels.len()
            invariant
                i <= self.labels@.len(),
                kept@.map_values(|l: String| l@) == without(self@.labels.take(i as int), label@),
            decreases self.labels@.len() - i,
        {
            let ghost upto = self@.labels.take(i + 1);
            proof {
                assert(upto.drop_last() =~= self@.labels.take(i as int));
                assert(upto.last() == self@.labels[i as int]);
            }
            if !same(self.labels[i].as_str(), label) {
                kept.push(self.labels[i].clone());
                proof {
                    assert(kept@.map_values(|l: String| l@) =~= without(
                        self@.labels.take(i as int),
                        label@,
                    ).push(self@.labels[i as int]));
                }
            }
            i += 1;
        }
        proof {
            assert(self@.labels.take(i as int) =~= self@.labels);
            lemma_without_label(self@, label@);
        }
        self.labels = kept;
    }

    /// The note with the given identifier, path and title, and with the
    /// labels that the texts of `labels` name, each once and in their order.
    pub fn from_parts(id: usize, path: String, title: String, labels: Vec<String>) -> (n: Note)
        ensures
            n@.id == id,
            n@.path == path@,
            n@.title == title@,
            n@.labels == attach_all(Seq::empty(), labels@.map_values(|l: String| l@)),
            n.wf(),
    {
        let ghost texts = labels@.map_values(|l: String| l@);
        let mut n = Note { id, path, title, labels: Vec::new() };
        assert(n@.labels =~= Seq::<Seq<char>>::empty());
        let mut i: usize = 0;
        while i < labels.len()
            invariant
                i <= labels@.len(),
                texts == labels@.map_values(|l: String| l@),
                n@.id == id,
                n@.path == path@,
                n@.title == title@,
                n@.labels == attach_all(Seq::empty(), texts.take(i as int)),
            decreases labels@.len() - i,
        {
            proof {
                let upto = texts.take(i + 1);
                assert(upto.drop_last() =~= texts.take(i as int));
                assert(upto.last() == labels@[i as int]@);
            }
            n.add_label(labels[i].as_str());
            i += 1;
        }
        proof {
            assert(texts.take(i as int) =~= texts);
            lemma_attach_all(Seq::empty(), texts);
        }
        n
    }
}

/// The labels of `labels` are pairwise different, and each is a valid label.
pub open spec fn labels_wf(labels: Seq<Seq<char>>) -> bool {
    &&& labels.no_duplicates()
    &&& forall|i: int| 0 <= i < labels.len() ==> valid_label(#[trigger] labels[i])
}

/// Putting a label behind the others adds it to the set of labels, changes
/// nothing where it is there already, and keeps the labels well-formed when
/// it is valid.
pub proof fn lemma_put(labels: Seq<Seq<char>>, label: Seq<char>)
    ensures
        put(labels, label).to_set() == labels.to_set().insert(label),
        put(labels, label).contains(label),
        labels.contains(label) ==> put(labels, label) == labels,
        labels_wf(labels) && valid_label(label) ==> labels_wf(put(labels, label)),
        forall|l: Seq<char>| labels.contains(l) ==> put(labels, label).contains(l),
{
    let out = put(labels, label);
    if !labels.contains(label) {
        assert(out[labels.len() as int] == label);
        assert forall|l: Seq<char>| out.contains(l) <==> labels.contains(l) || l == label by {
            if out.contains(l) {
                let i = choose|i: int| 0 <= i < out.len() && out[i] == l;
                if i < labels.len() {
                    assert(labels[i] == l);
                }
            }
            if labels.contains(l) {
                let i = choose|i: int| 0 <= i < labels.len() && labels[i] == l;
                assert(out[i] == l);
            }
        }
        if labels_wf(labels) && valid_label(label) {
            assert forall|i: int, j: int|
                0 <= i < out.len() && 0 <= j < out.len() && i != j implies out[i] != out[j] by {
                if i < labels.len() {
                    assert(out[i] == labels[i]);
                }
                if j < labels.len() {
                    assert(out[j] == labels[j]);
                }
            }
            assert forall|i: int| 0 <= i < out.len() implies valid_label(#[trigger] out[i]) by {
                if i < labels.len() {
                    assert(out[i] == labels[i]);
                }
            }
        }
    }
    assert(out.to_set() =~= labels.to_set().insert(label));
}

/// Attaching the label that a text names adds it to the set of labels,
/// changes nothing where the text names none or the label is there already,
/// and keeps the labels well-formed.
pub proof fn lemma_attach(labels: Seq<Seq<char>>, text: Seq<char>)
    ensures
        attach(labels, text).to_set() == if trimmed(text).len() == 0 {
            labels.to_set()
        } else {
            labels.to_set().insert(trimmed(text))
        },
        trimmed(text).len() > 0 ==> attach(labels, text).contains(trimmed(text)),
        trimmed(text).len() == 0 || labels.contains(trimmed(text)) ==> attach(labels, text)
            == labels,
        labels_wf(labels) ==> labels_wf(attach(labels, text)),
        forall|l: Seq<char>| labels.contains(l) ==> attach(labels, text).contains(l),
{
    lemma_trimmed(text);
    lemma_put(labels, trimmed(text));
}

/// Attaching a label to a note adds it to the label set, changes nothing
/// where the text names no label or the set holds it already, and keeps a
/// well-formed note well-formed.
pub proof fn lemma_with_label(note: NoteView, label: Seq<char>)
    ensures
        note.with_label(label).label_set() == if trimmed(label).len() == 0 {
            note.label_set()
        } else {
            note.label_set().insert(trimmed(label))
        },
        trimmed(label).len() == 0 || note.label_set().contains(trimmed(label))
            ==> note.with_label(label) == note,
        note.wf() ==> note.with_label(label).wf(),
{
    lemma_attach(note.labels, label);
}

/// Detaching a label from a note takes it out of the label set, changes
/// nothing where the set does not hold it, and keeps a well-formed note
/// well-formed.
pub proof fn lemma_without_label(note: NoteView, label: Seq<char>)
    ensures
        note.without_label(label).label_set() == note.label_set().remove(label),
        !note.label_set().contains(label) ==> note.without_label(label) == note,
        note.wf() ==> note.without_label(label).wf(),
{
    lemma_without(note.labels, label);
}

/// Attaching several labels adds each of them to the set of labels and keeps
/// the labels well-formed. Afterwards each of them is there.
pub proof fn lemma_attach_all(labels: Seq<Seq<char>>, more: Seq<Seq<char>>)
    ensures
        attach_all(labels, more).to_set() == labels.to_set().union(named(more)),
        forall|i: int|
            0 <= i < more.len() && trimmed(#[trigger] more[i]).len() > 0 ==> attach_all(
                labels,
                more,
            ).contains(trimmed(more[i])),
        forall|l: Seq<char>| labels.contains(l) ==> attach_all(labels, more).contains(l),
        labels_wf(labels) ==> labels_wf(attach_all(labels, more)),
    decreases more.len(),
{
    let out = attach_all(labels, more);
    if more.len() == 0 {
        assert(out.to_set() =~= labels.to_set().union(named(more)));
    } else {
        let front = more.drop_last();
        let mid = attach_all(labels, front);
        let name = trimmed(more.last());
        lemma_attach_all(labels, front);
        lemma_attach(mid, more.last());
        assert forall|i: int|
            0 <= i < more.len() && trimmed(#[trigger] more[i]).len() > 0 implies out.contains(
            trimmed(more[i]),
        ) by {
            if i < front.len() {
                assert(front[i] == more[i]);
                assert(mid.contains(trimmed(more[i])));
            }
        }
        assert forall|l: Seq<char>| labels.contains(l) implies out.contains(l) by {
            assert(mid.contains(l));
        }
        assert forall|l: Seq<char>|
            out.to_set().contains(l) <==> labels.to_set().union(named(more)).contains(l) by {
            if named(more).contains(l) {
                let i = choose|i: int| 0 <= i < more.len() && trimmed(#[trigger] more[i]) == l;
                assert(out.contains(trimmed(more[i])));
            }
            if out.to_set().contains(l) && !(name.len() > 0 && l == name) {
                assert(mid.to_set().contains(l));
                if named(front).contains(l) {
                    let i = choose|i: int|
                        0 <= i < front.len() && trimmed(#[trigger] front[i]) == l;
                    assert(more[i] == front[i]);
                }
            }
            if name.len() > 0 && l == name {
                assert(trimmed(more[more.len() - 1]) == l);
            }
        }
        assert(out.to_set() =~= labels.to_set().union(named(more)));
    }
}

/// Attaching labels that are all there already changes nothing.
pub proof fn lemma_attach_all_present(labels: Seq<Seq<char>>, more: Seq<Seq<char>>)
    requires
        forall|i: int|
            0 <= i < more.len() ==> trimmed(#[trigger] more[i]).len() == 0 || labels.contains(
                trimmed(more[i]),
            ),
    ensures
        attach_all(labels, more) == labels,
    decreases more.len(),
{
    if more.len() > 0 {
        let front = more.drop_last();
        assert forall|i: int| 0 <= i < front.len() implies trimmed(#[trigger] front[i]).len() == 0
            || labels.contains(trimmed(front[i])) by {
            assert(front[i] == more[i]);
        }
        lemma_attach_all_present(labels, front);
        assert(more[more.len() - 1] == more.last());
    }
}

/// Detaching several labels leaves the set of labels without them, and keeps
/// the labels well-formed. Afterwards none of them is there.
pub proof fn lemma_without_all(labels: Seq<Seq<char>>, fewer: Seq<Seq<char>>)
    ensures
        without_all(labels, fewer).to_set() == labels.to_set().difference(fewer.to_set()),
        forall|i: int|
            0 <= i < fewer.len() ==> !without_all(labels, fewer).contains(#[trigger] fewer[i]),
        labels_wf(labels) ==> labels_wf(without_all(labels, fewer)),
    decreases fewer.len(),
{
    let out = without_all(labels, fewer);
    if fewer.len() == 0 {
        assert(out.to_set() =~= labels.to_set().difference(fewer.to_set()));
    } else {
        let front = fewer.drop_last();
        let mid = without_all(labels, front);
        lemma_without_all(labels, front);
        lemma_without(mid, fewer.last());
        assert forall|i: int| 0 <= i < fewer.len() implies !out.contains(#[trigger] fewer[i]) by {
            lemma_without_contains(mid, fewer.last(), fewer[i]);
            if i < front.len() {
                assert(front[i] == fewer[i]);
            }
        }
        assert forall|l: Seq<char>|
            out.to_set().contains(l) <==> labels.to_set().difference(fewer.to_set()).contains(
                l,
            ) by {
            lemma_without_contains(mid, fewer.last(), l);
            if fewer.contains(l) {
                let i = choose|i: int| 0 <= i < fewer.len() && fewer[i] == l;
                assert(!out.contains(fewer[i]));
            }
            if mid.contains(l) {
                assert(mid.to_set().contains(l));
            }
            if labels.contains(l) && !fewer.contains(l) {
                if front.contains(l) {
                    let i = choose|i: int| 0 <= i < front.len() && front[i] == l;
                    assert(fewer[i] == l);
                }
                assert(labels.to_set().difference(front.to_set()).contains(l));
                assert(mid.to_set().contains(l));
                assert(l != fewer.last()) by {
                    assert(fewer[fewer.len() - 1] == fewer.last());
                }
            }
        }
        assert(out.to_set() =~= labels.to_set().difference(fewer.to_set()));
    }
}

/// Detaching labels of which none is there changes nothing.
pub proof fn lemma_without_all_absent(labels: Seq<Seq<char>>, fewer: Seq<Seq<char>>)
    requires
        forall|i: int| 0 <= i < fewer.len() ==> !labels.contains(#[trigger] fewer[i]),
    ensures
        without_all(labels, fewer) == labels,
    decreases fewer.len(),
{
    if fewer.len() > 0 {
        let front = fewer.drop_last();
        assert forall|i: int| 0 <= i < front.len() implies !labels.contains(#[trigger] front[i]) by {
            assert(front[i] == fewer[i]);
        }
        lemma_without_all_absent(labels, front);
        assert(!labels.contains(fewer[fewer.len() - 1]));
        lemma_without(labels, fewer.last());
    }
}

/// The words of a text are valid labels, and each names itself.
pub proof fn lemma_words_are_labels(s: Seq<char>)
    ensures
        forall|k: int| 0 <= k < words(s).len() ==> valid_label(#[trigger] words(s)[k]),
        named(words(s)) == words(s).to_set(),
{
    lemma_words_are_plain(s);
    assert forall|k: int| 0 <= k < words(s).len() implies valid_label(#[trigger] words(s)[k]) by {
        lemma_plain_is_trimmed(words(s)[k]);
    }
    assert forall|l: Seq<char>| named(words(s)).contains(l) <==> words(s).to_set().contains(l) by {
        if named(words(s)).contains(l) {
            let i = choose|i: int| 0 <= i < words(s).len() && trimmed(#[trigger] words(s)[i]) == l;
            assert(valid_label(words(s)[i]));
        }
        if words(s).contains(l) {
            let i = choose|i: int| 0 <= i < words(s).len() && words(s)[i] == l;
            assert(valid_label(words(s)[i]));
            assert(trimmed(words(s)[i]) == l);
        }
    }
    assert(named(words(s)) =~= words(s).to_set());
}

} // verus!
