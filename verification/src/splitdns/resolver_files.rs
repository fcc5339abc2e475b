//! The scoped resolver files of macOS: one file for each name, with the
//! marker as its first line. A file without it is someone else's.

use vstd::prelude::*;

use super::channel::InstalledRule;
use super::{marker_generation, resolver_file_body};
use crate::text;

verus! {

/// Directory of the scoped resolver files.
pub const RESOLVER_DIR: &'static str = "/etc/resolver";

/// The first line of a file's text.
pub open spec fn first_line(t: Seq<char>) -> Seq<char> {
    let ls = text::lines(t);
    if ls.len() == 0 {
        Seq::empty()
    } else {
        ls[0]
    }
}

/// The generation a file's text carries.
pub open spec fn file_generation(t: Seq<char>) -> Option<Seq<char>> {
    super::line_generation(first_line(t))
}

fn generation_in(t: &str) -> (r: Option<String>)
    ensures
        match r {
            Some(g) => file_generation(t@) == Some(g@),
            None => file_generation(t@) is None,
        },
{
    let cs = text::chars(t);
    let ls = text::split_lines(cs.as_slice());
    assert(text::views(ls@).len() == ls@.len());
    let line: Vec<char> = if ls.len() == 0 {
        Vec::new()
    } else {
        assert(text::views(ls@)[0] == ls@[0]@);
        text::cut(ls[0].as_slice(), 0, ls[0].len())
    };
    assert(line@ =~= first_line(t@));
    let s = text::string(line.as_slice());
    marker_generation(s.as_str())
}

/// The rule that a file stands for; a hidden file stands for none. A file
/// that cannot be read counts as foreign.
pub fn rule_of_file(name: &str, contents: &Option<String>) -> (r: Option<InstalledRule>)
    ensures
        match r {
            Some(x) => {
                &&& !(name@.len() > 0 && name@[0] == '.')
                &&& x@ == (super::channel::RuleView {
                    namespace: name@,
                    id: name@,
                    generation: match *contents {
                        Some(t) => file_generation(t@),
                        None => super::line_generation(Seq::empty()),
                    },
                })
            },
            None => name@.len() > 0 && name@[0] == '.',
        },
{
    let cs = text::chars(name);
    if cs.len() > 0 && cs[0] == '.' {
        return None;
    }
    let generation = match contents {
        Some(t) => generation_in(t.as_str()),
        None => {
            let none: Vec<char> = Vec::new();
            let s = text::string(none.as_slice());
            assert(s@ =~= Seq::<char>::empty());
            marker_generation(s.as_str())
        },
    };
    Some(InstalledRule { namespace: name.to_owned(), id: name.to_owned(), generation })
}

/// What is found where a file is to be written or removed.
#[derive(Debug)]
pub enum FileState {
    Absent,
    /// Its text; `None` where it cannot be read.
    Present(Option<String>),
}

/// Whether a found file carries the marker.
pub open spec fn owned(f: FileState) -> bool {
    f matches FileState::Present(Some(t)) && file_generation(t@) is Some
}

/// The text to write for a name, or none where the file there is not the
/// client's own.
pub fn add(found: &FileState, generation: &str) -> (r: Option<String>)
    ensures
        match r {
            Some(t) => (found is Absent || owned(*found)) && t@ == super::marker_of(generation@)
                + "\nnameserver 127.0.0.1\n"@,
            None => found is Present && !owned(*found),
        },
{
    match found {
        FileState::Absent => Some(resolver_file_body(generation)),
        FileState::Present(Some(t)) => match generation_in(t.as_str()) {
            Some(_) => Some(resolver_file_body(generation)),
            None => None,
        },
        FileState::Present(None) => None,
    }
}

/// What a removal does.
#[derive(Clone, Copy, Debug, PartialEq, Eq, Structural)]
pub enum Removal {
    /// Nothing to remove.
    Done,
    Delete,
    /// The file is not the client's own.
    Refuse,
}

/// Decides on the removal of a file.
pub fn remove(found: &FileState) -> (r: Removal)
    ensures
        r == if found is Absent {
            Removal::Done
        } else if owned(*found) {
            Removal::Delete
        } else {
            Removal::Refuse
        },
{
    match found {
        FileState::Absent => Removal::Done,
        FileState::Present(Some(t)) => match generation_in(t.as_str()) {
            Some(_) => Removal::Delete,
            None => Removal::Refuse,
        },
        FileState::Present(None) => Removal::Refuse,
    }
}

/// Whether a failure is a denial of access.
pub fn err_is_denied(e: &str) -> (r: bool)
    ensures
        r == text::contains(e@, "Permission denied"@),
{
    let cs = text::chars(e);
    text::has_str(cs.as_slice(), "Permission denied")
}

/// What is written for a name carries the marker: it can be written again and
/// removed.
pub proof fn law_written_files_are_owned(generation: Seq<char>, t: String)
    requires
        t@ == super::marker_of(generation) + "\nnameserver 127.0.0.1\n"@,
        !generation.contains('\n'),
    ensures
        owned(FileState::Present(Some(t))),
{
    super::law_tag_reads_back(generation);
    let m = super::marker_of(generation);
    reveal_strlit("\nnameserver 127.0.0.1\n");
    reveal_strlit("# ");
    reveal_strlit(" managed");
    reveal_strlit("aztna:w43:");
    let n = m.len() as int;
    assert forall|i: int| 0 <= i < n implies #[trigger] t@[i] != '\n' by {
        assert(t@[i] == m[i]);
        if 12 <= i < n - 8 {
            assert(m[i] == generation[i - 12]);
        }
    }
    assert(t@[n] == '\n');
    text::lemma_until_unique(t@, '\n', n);
    assert(t@.subrange(0, n) =~= m);
    assert(m.last() == 'd');
    assert(text::lines(t@)[0] == text::strip_cr(m));
}

/// Law: a file is of the generation that its first line carries, whatever
/// follows; one whose first line carries none is someone else's.
#[verifier::spinoff_prover]
#[verifier::rlimit(60)]
pub proof fn law_first_line_decides(generation: Seq<char>, tail: Seq<char>)
    requires
        !generation.contains('\n'),
        generation.len() == 0 || generation.last() != '\r',
    ensures
        file_generation(super::marker_of(generation) + seq!['\n'] + tail) == Some(generation),
        file_generation(seq!['\n'] + tail) is None,
        file_generation(Seq::empty()) is None,
{
    reveal_strlit("# ");
    reveal_strlit(" managed");
    reveal_strlit("aztna:w43:");
    let m = super::marker_of(generation);
    super::law_tag_reads_back(generation);
    assert(m.last() == 'd');
    if m.contains('\n') {
        let i = choose|i: int| 0 <= i < m.len() && m[i] == '\n';
        let n = generation.len();
        if i >= 12 && i < 12 + n {
            assert(generation[i - 12] == '\n');
        }
    }
    text::law_lines(m, tail);
    let none = Seq::<char>::empty();
    text::law_lines(none, tail);
    assert(none + seq!['\n'] + tail =~= seq!['\n'] + tail);
    assert(!text::has_prefix(none, "# "@));
}

} // verus!
