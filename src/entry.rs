//! One file or directory found by a walk, and the message that carries it.
use vstd::prelude::*;

verus! {

/// What a walk learned of one file or directory.
#[derive(Clone, Debug)]
pub struct Entry {
    /// Canonical path: the entry's identity.
    pub path: String,
    /// Distance from the root of the walk; the root itself has depth 0.
    pub depth: usize,
    /// Path of the directory that holds the entry, if it can be told.
    pub parent: Option<String>,
    /// Whether the entry is a directory.
    pub is_dir: bool,
    /// Raw bytes of a file, where they were asked for and could be read.
    pub content: Option<Vec<u8>>,
}

/// The mathematical value of an [`Entry`].
pub struct EntryView {
    pub path: Seq<char>,
    pub depth: nat,
    pub parent: Option<Seq<char>>,
    pub is_dir: bool,
    pub content: Option<Seq<u8>>,
}

/// Whether an entry starts a tree: a directory of depth 0.
pub open spec fn is_root_entry(e: EntryView) -> bool {
    e.depth == 0 && e.is_dir
}

impl View for Entry {
    type V = EntryView;

    open spec fn view(&self) -> EntryView {
        EntryView {
            path: self.path@,
            depth: self.depth as nat,
            parent: match self.parent {
                Some(p) => Some(p@),
                None => None,
            },
            is_dir: self.is_dir,
            content: match self.content {
                Some(c) => Some(c@),
                None => None,
            },
        }
    }
}

impl Entry {
    pub fn new(
        path: String,
        depth: usize,
        parent: Option<String>,
        is_dir: bool,
        content: Option<Vec<u8>>,
    ) -> (r: Entry)
        ensures
            r.path == path,
            r.depth == depth,
            r.parent == parent,
            r.is_dir == is_dir,
            r.content == content,
    {
        Entry { path, depth, parent, is_dir, content }
    }

    pub fn is_dir(&self) -> (r: bool)
        ensures
            r == self.is_dir,
    {
        self.is_dir
    }

    pub fn path(&self) -> (r: &String)
        ensures
            r == &self.path,
    {
        &self.path
    }

    pub fn parent_path(&self) -> (r: Option<&String>)
        ensures
            r == match self.parent {
                Some(p) => Some(&p),
                None => None::<&String>,
            },
    {
        match &self.parent {
            Some(p) => Some(p),
            None => None,
        }
    }

    /// A copy of the entry, with the same value.
    pub fn duplicate(&self) -> (r: Entry)
        ensures
            r@ == self@,
    {
        let parent = match &self.parent {
            Some(p) => Some(p.clone()),
            None => None,
        };
        let content = match &self.content {
            Some(c) => {
                let d = c.clone();
                assert(d@ =~= c@);
                Some(d)
            },
            None => None,
        };
        Entry { path: self.path.clone(), depth: self.depth, parent, is_dir: self.is_dir, content }
    }
}

/// The unit that a walker hands to the assembler: one more entry, or the end.
pub enum TraversalState {
    Ongoing(Entry),
    Done,
}

} // verus!
