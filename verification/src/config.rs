//! The settings: where the notes are stored, which editor opens them, and the
//! labels and filters that apply when a command names none.

use crate::error::NoteError;
use crate::state::Stored;
use crate::text::{same, split_words, words};
use vstd::prelude::*;

verus! {

/// The settings, each as the text that the settings document holds for it.
#[derive(Debug)]
pub struct Config {
    /// The storage directory; a leading `~` stands for the home directory.
    pub nt_dir: String,
    /// The command that opens a note for editing.
    pub editor: String,
    /// The labels that every new note gets, separated by white space.
    pub default_label: String,
    /// The filters that every query applies, separated by white space.
    pub default_filter: String,
}

/// What the settings stand for.
pub struct ConfigView {
    pub nt_dir: Seq<char>,
    pub editor: Seq<char>,
    pub default_label: Seq<char>,
    pub default_filter: Seq<char>,
}

impl View for Config {
    type V = ConfigView;

    open spec fn view(&self) -> ConfigView {
        ConfigView {
            nt_dir: self.nt_dir@,
            editor: self.editor@,
            default_label: self.default_label@,
            default_filter: self.default_filter@,
        }
    }
}

impl ConfigView {
    /// The settings of a user who has set nothing.
    pub open spec fn initial() -> ConfigView {
        ConfigView {
            nt_dir: "~/nt"@,
            editor: "vim"@,
            default_label: ""@,
            default_filter: "not:archived"@,
        }
    }

    /// The text of the setting that `key` names, if it names one.
    pub open spec fn field(self, key: Seq<char>) -> Option<Seq<char>> {
        if key == "nt_dir"@ {
            Some(self.nt_dir)
        } else if key == "editor"@ {
            Some(self.editor)
        } else if key == "default_label"@ {
            Some(self.default_label)
        } else if key == "default_filter"@ {
            Some(self.default_filter)
        } else {
            None
        }
    }

    /// The settings with `value` as the text of the setting that `key` names;
    /// the settings themselves where `key` names none.
    pub open spec fn with_field(self, key: Seq<char>, value: Seq<char>) -> ConfigView {
        if key == "nt_dir"@ {
            ConfigView { nt_dir: value, ..self }
        } else if key == "editor"@ {
            ConfigView { editor: value, ..self }
        } else if key == "default_label"@ {
            ConfigView { default_label: value, ..self }
        } else if key == "default_filter"@ {
            ConfigView { default_filter: value, ..self }
        } else {
            self
        }
    }
}

/// What tilde expansion can make of `input`: the input itself, or, for an
/// input that is `~` alone or starts with `~/` or `~\`, some text in place of
/// the `~` and the rest as it was.
pub open spec fn tilde_expansion(input: Seq<char>, output: Seq<char>) -> bool {
    ||| output == input
    ||| {
        &&& input.len() > 0
        &&& input[0] == '~'
        &&& (input.len() == 1 || input[1] == '/' || input[1] == '\\')
        &&& output.len() >= input.len() - 1
        &&& output.skip(output.len() - (input.len() - 1)) == input.skip(1)
    }
}

/// `shellexpand::tilde`: replaces a leading `~` by the home directory of the
/// user who runs the process. The directory comes from the environment, so
/// the contract claims only what holds of every outcome: an input that does
/// not start with `~`, or that goes on after it with anything but `/` or `\`,
/// comes back unchanged, and so does every input when no home directory is
/// known; otherwise some text stands in place of the `~`.
#[verifier::external_body]
fn expand_tilde(path: &str) -> (r: String)
    ensures
        tilde_expansion(path@, r@),
{
    shellexpand::tilde(path).into_owned()
}

impl Default for Config {
    /// The settings of a user who has set nothing: notes under `~/nt`, `vim`
    /// as the editor, no default label, and archived notes left out.
    fn default() -> (r: Self)
        ensures
            r@ == ConfigView::initial(),
    {
        Config {
            nt_dir: "~/nt".to_owned(),
            editor: "vim".to_owned(),
            default_label: "".to_owned(),
            default_filter: "not:archived".to_owned(),
        }
    }
}

impl Config {
    /// The settings to work with, given what reading the settings document
    /// came to. Without a document the initial settings apply; a document
    /// that cannot be read or understood is an error.
    pub fn load(found: Stored<Config>) -> (r: Result<Config, NoteError>)
        ensures
            match found {
                Stored::Parsed(config) => r is Ok && r->Ok_0@ == config@,
                Stored::Missing => r is Ok && r->Ok_0@ == ConfigView::initial(),
                Stored::Unreadable => r == Err::<Config, NoteError>(NoteError::IoFault),
                Stored::Malformed => r == Err::<Config, NoteError>(NoteError::ParseError),
            },
    {
        match found {
            Stored::Parsed(config) => Ok(config),
            Stored::Missing => Ok(Config::default()),
            Stored::Unreadable => Err(NoteError::IoFault),
            Stored::Malformed => Err(NoteError::ParseError),
        }
    }

    /// The storage directory, with a leading `~` expanded.
    pub fn nt_dir(&self) -> (r: String)
        ensures
            tilde_expansion(self@.nt_dir, r@),
    {
        expand_tilde(self.nt_dir.as_str())
    }

    /// The editor command.
    pub fn editor(&self) -> (r: &String)
        ensures
            r@ == self@.editor,
    {
        &self.editor
    }

    /// The default filters, as one text.
    pub fn default_filter(&self) -> (r: &String)
        ensures
            r@ == self@.default_filter,
    {
        &self.default_filter
    }

    /// The default labels: the words of the `default_label` setting.
    pub fn default_label(&self) -> (r: Vec<String>)
        ensures
            r@.map_values(|l: String| l@) == words(self@.default_label),
    {
        let parts = split_words(self.default_label.as_str());
        let mut out: Vec<String> = Vec::new();
        let mut i: usize = 0;
        while i < parts.len()
            invariant
                i <= parts@.len(),
                parts@.len() == words(self@.default_label).len(),
                forall|k: int|
                    0 <= k < parts@.len() ==> (#[trigger] parts@[k])@ == words(
                        self@.default_label,
                    )[k],
                out@.len() == i,
                forall|k: int| 0 <= k < i ==> (#[trigger] out@[k])@ == words(self@.default_label)[k],
            decreases parts@.len() - i,
        {
            out.push(parts[i].to_owned());
            i += 1;
        }
        proof {
            assert(out@.map_values(|l: String| l@) =~= words(self@.default_label));
        }
        out
    }

    /// The setting that `key` names.
    fn lookup(&self, key: &str) -> (r: Option<&String>)
        ensures
            match self@.field(key@) {
                Some(text) => r is Some && r->Some_0@ == text,
                None => r is None,
            },
    {
        if same(key, "nt_dir") {
            Some(&self.nt_dir)
        } else if same(key, "editor") {
            Some(&self.editor)
        } else if same(key, "default_label") {
            Some(&self.default_label)
        } else if same(key, "default_filter") {
            Some(&self.default_filter)
        } else {
            None
        }
    }

    /// The current text of the setting that `key` names. A key that names no
    /// setting is a parse error.
    pub fn get(&self, key: &str) -> (r: Result<String, NoteError>)
        ensures
            match self@.field(key@) {
                Some(text) => r is Ok && r->Ok_0@ == text,
                None => r == Err::<String, NoteError>(NoteError::ParseError),
            },
    {
        match self.lookup(key) {
            Some(text) => Ok(text.clone()),
            None => Err(NoteError::ParseError),
        }
    }

    /// The settings with the setting that `key` names set to `value`, or,
    /// without a value, back to its initial text. A key that names no setting
    /// is a parse error.
    pub fn set(&self, key: &str, value: Option<&str>) -> (r: Result<Config, NoteError>)
        ensures
            match self@.field(key@) {
                Some(_) => r is Ok && r->Ok_0@ == self@.with_field(
                    key@,
                    match value {
                        Some(text) => text@,
                        None => ConfigView::initial().field(key@)->Some_0,
                    },
                ),
                None => r == Err::<Config, NoteError>(NoteError::ParseError),
            },
    {
        let initial = Config::default();
        let text: String = match value {
            Some(text) => text.to_owned(),
            None => match initial.lookup(key) {
                Some(text) => text.clone(),
                None => {
                    return Err(NoteError::ParseError);
                },
            },
        };
        if same(key, "nt_dir") {
            Ok(
                Config {
                    nt_dir: text,
                    editor: self.editor.clone(),
                    default_label: self.default_label.clone(),
                    default_filter: self.default_filter.clone(),
                },
            )
        } else if same(key, "editor") {
            Ok(
                Config {
                    nt_dir: self.nt_dir.clone(),
                    editor: text,
                    default_label: self.default_label.clone(),
                    default_filter: self.default_filter.clone(),
                },
            )
        } else if same(key, "default_label") {
            Ok(
                Config {
                    nt_dir: self.nt_dir.clone(),
                    editor: self.editor.clone(),
                    default_label: text,
                    default_filter: self.default_filter.clone(),
                },
            )
        } else if same(key, "default_filter") {
            Ok(
                Config {
                    nt_dir: self.nt_dir.clone(),
                    editor: self.editor.clone(),
                    default_label: self.default_label.clone(),
                    default_filter: text,
                },
            )
        } else {
            Err(NoteError::ParseError)
        }
    }
}

} // verus!
