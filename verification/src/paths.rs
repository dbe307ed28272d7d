//! Where things are stored: the index file and the notes directory under the
//! storage directory, and each note's body file under the notes directory.

use vstd::prelude::*;

verus! {

/// `base`, a `/`, and `part`.
pub open spec fn joined(base: Seq<char>, part: Seq<char>) -> Seq<char> {
    base + seq!['/'] + part
}

/// The path of the index file under the storage directory `root`.
pub open spec fn index_path(root: Seq<char>) -> Seq<char> {
    joined(root, "nt_state.json"@)
}

/// The path of the notes directory under the storage directory `root`.
pub open spec fn notes_path(root: Seq<char>) -> Seq<char> {
    joined(root, "notes"@)
}

/// The path of the body file named `name` under the storage directory `root`.
pub open spec fn body_path(root: Seq<char>, name: Seq<char>) -> Seq<char> {
    joined(notes_path(root), name)
}

/// Puts `part` under the directory `base`.
pub fn join(base: &str, part: &str) -> (r: String)
    ensures
        r@ == joined(base@, part@),
{
    proof {
        reveal_strlit("/");
        assert("/"@ =~= seq!['/']);
    }
    let mut r = base.to_owned();
    r.append("/");
    r.append(part);
    r
}

/// The path of the index file under the storage directory `root`.
pub fn index_file(root: &str) -> (r: String)
    ensures
        r@ == index_path(root@),
{
    join(root, "nt_state.json")
}

/// The path of the notes directory under the storage directory `root`.
pub fn notes_dir(root: &str) -> (r: String)
    ensures
        r@ == notes_path(root@),
{
    join(root, "notes")
}

/// The path of the body file named `name` under the storage directory `root`.
pub fn note_file(root: &str, name: &str) -> (r: String)
    ensures
        r@ == body_path(root@, name@),
{
    let dir = notes_dir(root);
    join(dir.as_str(), name)
}

} // verus!
