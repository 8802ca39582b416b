//! What is known of the watched files, and what a change of one asks for.

use crate::coder::Coder;
use crate::markers::CURSOR_MARKER;
use crate::text::{find_text, first_occurrence, lemma_first_occurrence, occurs_at, same_text};
use crate::utils::has_content_changed;
use vstd::prelude::*;

verus! {

/// The state of a single file.
#[derive(Debug, Clone, PartialEq, Eq)]
pub struct FileState {
    pub content: String,
}

/// A file and its state.
struct FileEntry {
    path: String,
    state: FileState,
}

/// The state of the program: the last known content of each file, by path,
/// and the coder.
pub struct State {
    entries: Vec<FileEntry>,
    coder: Coder,
}

/// What a modified file asks for.
#[derive(Debug, Clone, Copy, PartialEq, Eq)]
pub enum ModifyPlan {
    /// The content is the last known content: nothing is to be done.
    Unchanged,
    /// The content is new and holds a sentinel, first at `cursor`: the model
    /// is to be asked, and its result written and recorded.
    Complete { cursor: usize },
    /// The content is new and holds no sentinel: it is to be recorded.
    Record,
}

/// `path` is the path of entry `i`.
spec fn entry_at(entries: Seq<FileEntry>, path: Seq<char>, i: int) -> bool {
    0 <= i < entries.len() && entries[i].path@ == path
}

/// No path has two entries.
spec fn distinct_paths(entries: Seq<FileEntry>) -> bool {
    forall|i: int, j: int|
        0 <= i < j < entries.len() ==> (#[trigger] entries[i]).path@ != (#[trigger] entries[j]).path@
}

/// The content recorded for each path.
spec fn contents(entries: Seq<FileEntry>) -> Map<Seq<char>, Seq<char>> {
    Map::new(
        |path: Seq<char>| exists|i: int| entry_at(entries, path, i),
        |path: Seq<char>| entries[choose|i: int| entry_at(entries, path, i)].state.content@,
    )
}

/// A path that has an entry has the content of that entry.
proof fn lemma_content_of_entry(entries: Seq<FileEntry>, path: Seq<char>, i: int)
    requires
        distinct_paths(entries),
        entry_at(entries, path, i),
    ensures
        contents(entries).contains_key(path),
        contents(entries)[path] == entries[i].state.content@,
{
    let chosen = choose|k: int| entry_at(entries, path, k);
    if chosen < i {
        assert(entries[chosen].path@ != entries[i].path@);
    } else if i < chosen {
        assert(entries[i].path@ != entries[chosen].path@);
    }
}

/// A new state for a path that has an entry replaces what is recorded for
/// that path, and nothing else.
proof fn lemma_contents_replaced(entries: Seq<FileEntry>, i: int, entry: FileEntry)
    requires
        distinct_paths(entries),
        entry_at(entries, entry.path@, i),
    ensures
        distinct_paths(entries.update(i, entry)),
        contents(entries.update(i, entry)) == contents(entries).insert(
            entry.path@,
            entry.state.content@,
        ),
{
    let after = entries.update(i, entry);
    assert forall|a: int, b: int| 0 <= a < b < after.len() implies (#[trigger] after[a]).path@ != (
    #[trigger] after[b]).path@ by {
        assert(entries[a].path@ != entries[b].path@);
    }
    assert forall|path: Seq<char>| #[trigger]
        contents(after).contains_key(path) == contents(entries).insert(
            entry.path@,
            entry.state.content@,
        ).contains_key(path) by {
        if contents(after).contains_key(path) {
            let k = choose|k: int| entry_at(after, path, k);
            assert(entry_at(entries, path, k));
        }
        if contents(entries).contains_key(path) {
            let k = choose|k: int| entry_at(entries, path, k);
            assert(entry_at(after, path, k));
        }
        assert(entry_at(after, entry.path@, i));
    }
    assert forall|path: Seq<char>| #[trigger]
        contents(after).contains_key(path) implies contents(after)[path] == contents(
        entries,
    ).insert(entry.path@, entry.state.content@)[path] by {
        let k = choose|k: int| entry_at(after, path, k);
        lemma_content_of_entry(after, path, k);
        if path != entry.path@ {
            assert(entry_at(entries, path, k));
            lemma_content_of_entry(entries, path, k);
        } else {
            lemma_content_of_entry(after, path, i);
        }
    }
    assert(contents(after) =~= contents(entries).insert(entry.path@, entry.state.content@));
}

/// An entry for a path that has none adds what it records, and nothing else.
proof fn lemma_contents_added(entries: Seq<FileEntry>, entry: FileEntry)
    requires
        distinct_paths(entries),
        forall|i: int| !entry_at(entries, entry.path@, i),
    ensures
        distinct_paths(entries.push(entry)),
        contents(entries.push(entry)) == contents(entries).insert(
            entry.path@,
            entry.state.content@,
        ),
{
    let after = entries.push(entry);
    let n = entries.len() as int;
    assert forall|a: int, b: int| 0 <= a < b < after.len() implies (#[trigger] after[a]).path@ != (
    #[trigger] after[b]).path@ by {
        if b < n {
            assert(entries[a].path@ != entries[b].path@);
        } else {
            assert(!entry_at(entries, entry.path@, a));
        }
    }
    assert(entry_at(after, entry.path@, n));
    assert forall|path: Seq<char>| #[trigger]
        contents(after).contains_key(path) == contents(entries).insert(
            entry.path@,
            entry.state.content@,
        ).contains_key(path) by {
        if contents(after).contains_key(path) {
            let k = choose|k: int| entry_at(after, path, k);
            if k < n {
                assert(entry_at(entries, path, k));
            }
        }
        if contents(entries).contains_key(path) {
            let k = choose|k: int| entry_at(entries, path, k);
            assert(entry_at(after, path, k));
        }
    }
    assert forall|path: Seq<char>| #[trigger]
        contents(after).contains_key(path) implies contents(after)[path] == contents(
        entries,
    ).insert(entry.path@, entry.state.content@)[path] by {
        let k = choose|k: int| entry_at(after, path, k);
        lemma_content_of_entry(after, path, k);
        if path != entry.path@ {
            assert(entry_at(entries, path, k));
            lemma_content_of_entry(entries, path, k);
        } else {
            lemma_content_of_entry(after, path, n);
        }
    }
    assert(contents(after) =~= contents(entries).insert(entry.path@, entry.state.content@));
}

/// What a modified file asks for, given what is known of the files.
pub open spec fn plan_for(
    known: Map<Seq<char>, Seq<char>>,
    path: Seq<char>,
    content: Seq<char>,
) -> ModifyPlan {
    if known.contains_key(path) && known[path] == content {
        ModifyPlan::Unchanged
    } else {
        match first_occurrence(content, CURSOR_MARKER@, 0) {
            Some(at) => ModifyPlan::Complete { cursor: at as usize },
            None => ModifyPlan::Record,
        }
    }
}

impl State {
    /// No path is recorded twice.
    #[verifier::type_invariant]
    spec fn well_formed(self) -> bool {
        distinct_paths(self.entries@)
    }

    /// The last known content of each file, by path.
    pub closed spec fn files(self) -> Map<Seq<char>, Seq<char>> {
        contents(self.entries@)
    }

    /// The coder of this state.
    pub closed spec fn spec_coder(self) -> Coder {
        self.coder
    }

    /// A state that knows no file.
    pub fn new(coder: Coder) -> (state: State)
        ensures
            state.files() == Map::<Seq<char>, Seq<char>>::empty(),
            state.spec_coder() == coder,
    {
        let state = State { entries: Vec::new(), coder };
        assert(state.files() =~= Map::<Seq<char>, Seq<char>>::empty());
        state
    }

    /// The coder.
    pub fn coder(&self) -> (coder: &Coder)
        ensures
            *coder == self.spec_coder(),
    {
        &self.coder
    }

    /// Where `path` is recorded.
    fn position(&self, path: &str) -> (found: Option<usize>)
        ensures
            match found {
                Some(i) => entry_at(self.entries@, path@, i as int),
                None => forall|i: int| !entry_at(self.entries@, path@, i),
            },
    {
        let mut i: usize = 0;
        while i < self.entries.len()
            invariant
                i <= self.entries@.len(),
                forall|j: int| 0 <= j < i ==> !entry_at(self.entries@, path@, j),
            decreases self.entries@.len() - i,
        {
            if same_text(self.entries[i].path.as_str(), path) {
                return Some(i);
            }
            i += 1;
        }
        None
    }

    /// The state recorded for `path`, if any.
    pub fn get(&self, path: &str) -> (found: Option<&FileState>)
        ensures
            match found {
                Some(state) => self.files().contains_key(path@) && self.files()[path@]
                    == state.content@,
                None => !self.files().contains_key(path@),
            },
    {
        match self.position(path) {
            Some(i) => {
                proof {
                    use_type_invariant(self);
                    lemma_content_of_entry(self.entries@, path@, i as int);
                }
                Some(&self.entries[i].state)
            },
            None => None,
        }
    }

    /// Records `content` as the content of `path`.
    pub fn set(&mut self, path: &str, content: String)
        ensures
            final(self).files() == old(self).files().insert(path@, content@),
            final(self).spec_coder() == old(self).spec_coder(),
    {
        proof {
            use_type_invariant(&*self);
        }
        let entry = FileEntry { path: path.to_owned(), state: FileState { content } };
        let position = self.position(path);
        let mut entries: Vec<FileEntry> = Vec::new();
        std::mem::swap(&mut entries, &mut self.entries);
        match position {
            Some(i) => {
                proof {
                    lemma_contents_replaced(entries@, i as int, entry);
                }
                entries.set(i, entry);
            },
            None => {
                proof {
                    lemma_contents_added(entries@, entry);
                }
                entries.push(entry);
            },
        }
        self.entries = entries;
    }

    /// What the new content of `path` asks for.
    pub fn plan_modify(&self, path: &str, new_content: &str) -> (plan: ModifyPlan)
        ensures
            plan == plan_for(self.files(), path@, new_content@),
            plan matches ModifyPlan::Complete { cursor } ==> occurs_at(
                new_content@,
                CURSOR_MARKER@,
                cursor as int,
            ),
    {
        proof {
            lemma_first_occurrence(new_content@, CURSOR_MARKER@, 0);
        }
        let known = match self.get(path) {
            Some(state) => Some(&state.content),
            None => None,
        };
        if !has_content_changed(known, new_content) {
            return ModifyPlan::Unchanged;
        }
        match find_text(new_content, CURSOR_MARKER) {
            Some(cursor) => ModifyPlan::Complete { cursor },
            None => ModifyPlan::Record,
        }
    }
}

} // verus!
