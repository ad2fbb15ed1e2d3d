//! What the expander knows of the filesystem: for some paths, what is
//! found there.
use vstd::prelude::*;

verus! {

/// What is found at a path.
pub enum Entry {
    /// A regular file (after following symbolic links).
    File,
    /// A directory, with the paths of its immediate children in file-name
    /// order (each child path is the directory path joined with the name).
    Dir(Vec<String>),
    /// Something that exists but is neither a regular file nor a directory.
    Other,
    /// Nothing exists at the path.
    Missing,
}

/// The mathematical counterpart of `Entry`.
pub enum Node {
    File,
    Dir(Seq<Seq<char>>),
    Other,
    Missing,
}

/// The views of a sequence of strings.
pub open spec fn views(v: Seq<String>) -> Seq<Seq<char>> {
    v.map_values(|s: String| s@)
}

impl View for Entry {
    type V = Node;

    open spec fn view(&self) -> Node {
        match self {
            Entry::File => Node::File,
            Entry::Dir(children) => Node::Dir(views(children@)),
            Entry::Other => Node::Other,
            Entry::Missing => Node::Missing,
        }
    }
}

/// What is known of the filesystem: the working directory, and for some paths
/// what is found there. Where a path is recorded twice, the first record
/// counts.
pub struct FsView {
    pub cwd: String,
    pub entries: Vec<(String, Entry)>,
}

/// The first record for `p` in `es` at or after position `i`.
pub open spec fn node_from(es: Seq<(String, Entry)>, p: Seq<char>, i: int) -> Option<Node>
    decreases es.len() - i,
{
    if i < 0 || i >= es.len() {
        None
    } else if es[i].0@ == p {
        Some(es[i].1@)
    } else {
        node_from(es, p, i + 1)
    }
}

impl FsView {
    /// What the view records for `p`, if anything.
    pub open spec fn node(&self, p: Seq<char>) -> Option<Node> {
        node_from(self.entries@, p, 0)
    }

    /// An empty view with the given working directory.
    pub fn new(cwd: String) -> (r: FsView)
        ensures
            r.cwd@ == cwd@,
            r.entries@.len() == 0,
    {
        FsView { cwd, entries: Vec::new() }
    }

    /// Records what is found at `path`.
    pub fn insert(&mut self, path: String, entry: Entry)
        ensures
            final(self).cwd == old(self).cwd,
            final(self).entries@ == old(self).entries@.push((path, entry)),
    {
        self.entries.push((path, entry));
    }

    /// The first record for `p`.
    pub fn lookup(&self, p: &String) -> (r: Option<&Entry>)
        ensures
            self.node(p@) == match r {
                Some(e) => Some(e@),
                None => None::<Node>,
            },
    {
        let mut i: usize = 0;
        while i < self.entries.len()
            invariant
                i <= self.entries.len(),
                node_from(self.entries@, p@, 0) == node_from(self.entries@, p@, i as int),
            decreases self.entries.len() - i,
        {
            if self.entries[i].0 == *p {
                return Some(&self.entries[i].1);
            }
            i = i + 1;
        }
        None
    }
}

} // verus!
