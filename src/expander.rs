//! The path expander: resolves one input string into the existing files it
//! denotes, trying in turn the literal path, the path with an extra suffix
//! appended, a split of the string into several file names, and the string
//! as a file-name prefix.
//!
//! Paths are strings whose components are separated by `/`. The expander
//! reads the filesystem only through an `FsView`: a record of what is known
//! about individual paths. When the expansion needs a path that the view does
//! not know, it stops and names that path, so that a caller can look it up,
//! record it with `FsView::insert` and expand again.
use vstd::prelude::*;

use crate::fs_view::{views, Entry, FsView, Node};
use crate::path_names::{
    file_name, get_file_name, get_parent_dir, is_relative, join, join_path, last_index_of,
    last_name, lemma_last_index_bounds, name_of, parent_dir, prefix_pattern, split_ext,
    split_extension, strip_path_prefix, strip_prefix, trim_back, with_suffix,
};

verus! {

/// Whether one of the strings in `v` is `e`.
pub open spec fn lists(v: Seq<String>, e: Seq<char>) -> bool {
    exists|i: int| 0 <= i < v.len() && (#[trigger] v[i])@ == e
}

/// Whether `v` holds `e`.
fn contains_string(v: &Vec<String>, e: &String) -> (r: bool)
    ensures
        r == lists(v@, e@),
{
    let mut i: usize = 0;
    while i < v.len()
        invariant
            i <= v.len(),
            forall|j: int| 0 <= j < i ==> (#[trigger] v@[j])@ != e@,
        decreases v.len() - i,
    {
        if v[i] == *e {
            return true;
        }
        i = i + 1;
    }
    false
}

/// How a found file is reported: with the prefix `strip` removed, if any.
pub open spec fn emitted(p: Seq<char>, strip: Option<Seq<char>>) -> Seq<char> {
    match strip {
        Some(pre) => strip_prefix(p, pre),
        None => p,
    }
}

/// The view of an optional string.
pub open spec fn opt_view(s: Option<&String>) -> Option<Seq<char>> {
    match s {
        Some(t) => Some(t@),
        None => None,
    }
}

/// What an expansion step that appends to `out` has done: where the model
/// gives the files `v`, it succeeded and appended exactly `v`; where the model
/// stops at an unknown path, it failed with that path.
pub open spec fn appended(
    r: Result<(), String>,
    model: Result<Seq<Seq<char>>, Seq<char>>,
    before: Seq<String>,
    after: Seq<String>,
) -> bool {
    match model {
        Ok(v) => r is Ok && views(after) == views(before) + v,
        Err(q) => match r {
            Err(e) => e@ == q,
            Ok(_) => false,
        },
    }
}

proof fn lemma_views_unchanged(v: Seq<String>)
    ensures
        views(v) == views(v) + seq![],
{
    assert(views(v) =~= views(v) + seq![]);
}

proof fn lemma_views_push(v: Seq<String>, s: String)
    ensures
        views(v.push(s)) == views(v) + seq![s@],
{
    assert(views(v.push(s)) =~= views(v) + seq![s@]);
}

/// `s` as reported, with `strip` removed from its front where it applies.
fn emit(s: &String, strip: Option<&String>) -> (r: String)
    ensures
        r@ == emitted(s@, opt_view(strip)),
{
    match strip {
        Some(pre) => strip_path_prefix(s, pre),
        None => s.clone(),
    }
}

/// Whether `path` matches the glob `pattern` (`*` does not cross a `/`).
pub uninterp spec fn glob_matches(pattern: Seq<char>, path: Seq<char>) -> bool;

/// Relies on `glob_match::glob_match`, a pure function of the pattern and
/// the path.
#[verifier::external_body]
fn glob_match_path(pattern: &str, path: &str) -> (r: bool)
    ensures
        r == glob_matches(pattern@, path@),
{
    glob_match::glob_match(pattern, path)
}

/// `files` in front of what a split found, if it found anything.
pub open spec fn prepend(
    files: Seq<Seq<char>>,
    r: Result<Option<Seq<Seq<char>>>, Seq<char>>,
) -> Result<Option<Seq<Seq<char>>>, Seq<char>> {
    match r {
        Ok(Some(rest)) => Ok(Some(files + rest)),
        other => other,
    }
}

/// The views of `v` with `e` added at the end, unless it is there.
pub open spec fn with_added(v: Seq<String>, e: Seq<char>) -> Seq<Seq<char>> {
    if lists(v, e) {
        views(v)
    } else {
        views(v).push(e)
    }
}

/// Adds `ext` to `v` unless it is there.
fn add_once(v: &mut Vec<String>, ext: &str)
    ensures
        views(final(v)@) == with_added(old(v)@, ext@),
{
    let e = String::from_str(ext);
    if !contains_string(v, &e) {
        proof {
            lemma_views_push(v@, e);
        }
        v.push(e);
    }
}

pub struct PathExpander {
    /// Suffixes that may be appended to a path that does not exist, and
    /// stripped from a file name whose extension is not otherwise accepted.
    pub extra_suffix: Vec<String>,
    /// Extensions that are accepted (when extension filtering is active).
    pub included_ext: Vec<String>,
    /// Extensions that are rejected; these win over `included_ext`.
    pub excluded_ext: Vec<String>,
    /// Accept files whose stem starts with `.`.
    pub show_hidden: bool,
    /// Fall back to treating the input as a file-name prefix.
    pub match_prefix: bool,
    /// Fall back to splitting the input into several file names.
    pub match_concat: bool,
    /// How deep directories are descended into: the input is at depth 0,
    /// the children of an input directory at depth 1, and so on.
    pub maxdepth: u32,
}

impl PathExpander {
    /// Extension filtering is active once any extension rule is registered.
    pub open spec fn filtering(&self) -> bool {
        self.extra_suffix@.len() > 0 || self.included_ext@.len() > 0
            || self.excluded_ext@.len() > 0
    }

    /// The extension policy: everything passes while filtering is inactive;
    /// otherwise an extension passes when it is included and not excluded.
    pub open spec fn ext_accepted(&self, e: Seq<char>) -> bool {
        !self.filtering() || (!lists(self.excluded_ext@, e) && lists(self.included_ext@, e))
    }

    /// The matching predicate on a file name.
    pub open spec fn name_matches(&self, name: Seq<char>) -> bool
        decreases name.len(),
    {
        let (stem, ext) = split_ext(name);
        if stem.len() == 0 {
            false
        } else if !self.show_hidden && stem[0] == '.' {
            false
        } else {
            match ext {
                None => false,
                Some(e) => if self.ext_accepted(e) {
                    true
                } else if lists(self.extra_suffix@, e) && split_ext(stem).1 is Some {
                    if stem.len() < name.len() {
                        self.name_matches(stem)
                    } else {
                        false
                    }
                } else {
                    false
                },
            }
        }
    }

    /// The matching predicate on a path: it looks at the last component.
    pub open spec fn path_matches(&self, p: Seq<char>) -> bool {
        self.name_matches(file_name(p))
    }

    /// The first of the extra suffixes, from position `i` on, that gives a
    /// path that exists when appended to `p`: that path and what is there.
    pub open spec fn suffixed_from(&self, fs: FsView, p: Seq<char>, i: int) -> Result<
        Option<(Seq<char>, Node)>,
        Seq<char>,
    >
        decreases self.extra_suffix@.len() - i,
    {
        if i < 0 || i >= self.extra_suffix@.len() {
            Ok(None)
        } else {
            let q = with_suffix(p, self.extra_suffix@[i]@);
            match fs.node(q) {
                None => Err(q),
                Some(Node::Missing) => self.suffixed_from(fs, p, i + 1),
                Some(n) => Ok(Some((q, n))),
            }
        }
    }

    /// The walk from `p` at `depth`: the files it yields, in order, or the
    /// first path that it needs and `fs` does not know.
    pub open spec fn walk(&self, fs: FsView, p: Seq<char>, depth: int, strip: Option<Seq<char>>) -> Result<
        Seq<Seq<char>>,
        Seq<char>,
    >
        decreases self.maxdepth + 2 - depth, 0int, 1int,
    {
        if depth < 0 || depth > self.maxdepth {
            Ok(seq![])
        } else {
            match fs.node(p) {
                None => Err(p),
                Some(Node::Missing) => match self.suffixed_from(fs, p, 0) {
                    Err(q) => Err(q),
                    Ok(None) => Ok(seq![]),
                    Ok(Some((q, n))) => self.visit(fs, q, n, depth, strip),
                },
                Some(n) => self.visit(fs, p, n, depth, strip),
            }
        }
    }

    /// The walk from an existing `p` at `depth`, where `n` is found: a
    /// matching file yields itself, a directory yields what its children
    /// yield at the next depth.
    pub open spec fn visit(
        &self,
        fs: FsView,
        p: Seq<char>,
        n: Node,
        depth: int,
        strip: Option<Seq<char>>,
    ) -> Result<Seq<Seq<char>>, Seq<char>>
        decreases self.maxdepth + 2 - depth, 0int, 0int,
    {
        match n {
            Node::File => if self.path_matches(p) {
                Ok(seq![emitted(p, strip)])
            } else {
                Ok(seq![])
            },
            Node::Dir(cs) => if depth < 0 || depth >= self.maxdepth {
                Ok(seq![])
            } else {
                self.walk_all(fs, cs, cs.len() as int, depth + 1, strip)
            },
            _ => Ok(seq![]),
        }
    }

    /// The walks from the first `n` paths of `cs`, in order, concatenated.
    pub open spec fn walk_all(
        &self,
        fs: FsView,
        cs: Seq<Seq<char>>,
        n: int,
        depth: int,
        strip: Option<Seq<char>>,
    ) -> Result<Seq<Seq<char>>, Seq<char>>
        decreases self.maxdepth + 2 - depth, n, 0int,
    {
        if n <= 0 || n > cs.len() || depth < 0 || depth > self.maxdepth {
            Ok(seq![])
        } else {
            match self.walk_all(fs, cs, n - 1, depth, strip) {
                Err(q) => Err(q),
                Ok(a) => match self.walk(fs, cs[n - 1], depth, strip) {
                    Err(q) => Err(q),
                    Ok(b) => Ok(a + b),
                },
            }
        }
    }

    /// Starting at `idx`, the shortest length of at least `n` of a piece of
    /// `s` that is an existing regular file accepted by the predicate.
    pub open spec fn first_piece(&self, fs: FsView, s: Seq<char>, idx: int, n: int) -> Result<
        Option<int>,
        Seq<char>,
    >
        decreases s.len() - idx - n + 1,
    {
        if n < 1 || idx < 0 || idx + n > s.len() {
            Ok(None)
        } else {
            let sub = s.subrange(idx, idx + n);
            match fs.node(sub) {
                None => Err(sub),
                Some(Node::File) => if self.path_matches(sub) {
                    Ok(Some(n))
                } else {
                    self.first_piece(fs, s, idx, n + 1)
                },
                Some(_) => self.first_piece(fs, s, idx, n + 1),
            }
        }
    }

    /// The greedy split of `s` from `idx` on into file names, each the
    /// shortest piece that works; `None` where some position has none.
    pub open spec fn split_from(&self, fs: FsView, s: Seq<char>, idx: int) -> Result<
        Option<Seq<Seq<char>>>,
        Seq<char>,
    >
        decreases s.len() - idx,
    {
        if idx < 0 || idx >= s.len() {
            Ok(Some(seq![]))
        } else {
            match self.first_piece(fs, s, idx, 1) {
                Err(q) => Err(q),
                Ok(None) => Ok(None),
                Ok(Some(n)) => if n < 1 || idx + n > s.len() {
                    Ok(None)
                } else {
                    prepend(seq![s.subrange(idx, idx + n)], self.split_from(fs, s, idx + n))
                },
            }
        }
    }

    /// The walks at depth 0 from those of the first `n` paths of `cs` that
    /// `sel` selects, in order, concatenated.
    pub open spec fn walk_selected(
        &self,
        fs: FsView,
        cs: Seq<Seq<char>>,
        sel: Seq<bool>,
        n: int,
        strip: Option<Seq<char>>,
    ) -> Result<Seq<Seq<char>>, Seq<char>>
        decreases n,
    {
        if n <= 0 || n > cs.len() {
            Ok(seq![])
        } else {
            match self.walk_selected(fs, cs, sel, n - 1, strip) {
                Err(q) => Err(q),
                Ok(a) => if n <= sel.len() && sel[n - 1] {
                    match self.walk(fs, cs[n - 1], 0, strip) {
                        Err(q) => Err(q),
                        Ok(b) => Ok(a + b),
                    }
                } else {
                    Ok(a)
                },
            }
        }
    }

    /// The prefix fallback: the walks from the entries of the parent
    /// directory of `p` that match the file name of `p` followed by
    /// anything. Results are relative to the working directory where `p` is
    /// relative. An input with no parent or no file name (empty, the root,
    /// `.`, or ending in `..`) has no prefix matches.
    pub open spec fn prefix_matches(&self, fs: FsView, p: Seq<char>) -> Result<
        Seq<Seq<char>>,
        Seq<char>,
    > {
        let strip = if is_relative(p) {
            Some(fs.cwd@)
        } else {
            None
        };
        match (parent_dir(p, fs.cwd@), last_name(p)) {
            (Some(dir), Some(name)) => {
                let pattern = prefix_pattern(dir, name);
                match fs.node(dir) {
                    None => Err(dir),
                    Some(Node::Dir(cs)) => self.walk_selected(
                        fs,
                        cs,
                        cs.map_values(|c: Seq<char>| glob_matches(pattern, c)),
                        cs.len() as int,
                        strip,
                    ),
                    Some(_) => Ok(seq![]),
                }
            },
            _ => Ok(seq![]),
        }
    }

    /// What is tried for an input that does not exist and that no extra
    /// suffix completes: the split into file names, then the prefix match.
    pub open spec fn fallback(&self, fs: FsView, p: Seq<char>) -> Result<
        Seq<Seq<char>>,
        Seq<char>,
    > {
        let split = if self.match_concat {
            self.split_from(fs, p, 0)
        } else {
            Ok(None)
        };
        match split {
            Err(q) => Err(q),
            Ok(Some(files)) => Ok(files),
            Ok(None) => if self.match_prefix {
                self.prefix_matches(fs, p)
            } else {
                Ok(seq![])
            },
        }
    }

    /// The expansion of the input `p`: the files it denotes, in order, or
    /// the first path that it needs and `fs` does not know.
    pub open spec fn expansion(&self, fs: FsView, p: Seq<char>) -> Result<
        Seq<Seq<char>>,
        Seq<char>,
    > {
        match fs.node(p) {
            None => Err(p),
            Some(Node::Missing) => match self.suffixed_from(fs, p, 0) {
                Err(q) => Err(q),
                Ok(Some((q, n))) => self.visit(fs, q, n, 0, None),
                Ok(None) => self.fallback(fs, p),
            },
            Some(n) => self.visit(fs, p, n, 0, None),
        }
    }

    /// An expander with no extension rules, hidden files and both fallbacks
    /// off, and a maximum depth of 1.
    pub fn new() -> (r: PathExpander)
        ensures
            r.extra_suffix@.len() == 0,
            r.included_ext@.len() == 0,
            r.excluded_ext@.len() == 0,
            !r.show_hidden,
            !r.match_prefix,
            !r.match_concat,
            r.maxdepth == 1,
    {
        PathExpander {
            extra_suffix: Vec::new(),
            included_ext: Vec::new(),
            excluded_ext: Vec::new(),
            show_hidden: false,
            match_prefix: false,
            match_concat: false,
            maxdepth: 1,
        }
    }

    /// An input that names an existing regular file accepted by the matching
    /// predicate expands to exactly that path, whatever the fallback
    /// settings.
    pub proof fn lemma_existing_file_expands_to_itself(&self, fs: FsView, p: Seq<char>)
        requires
            fs.node(p) == Some(Node::File),
            self.path_matches(p),
        ensures
            self.expansion(fs, p) == Ok::<Seq<Seq<char>>, Seq<char>>(seq![p]),
    {
    }

    /// With a maximum depth of 0, a directory given as input yields nothing,
    /// whatever it holds.
    pub proof fn lemma_depth_zero_directory_yields_nothing(
        &self,
        fs: FsView,
        p: Seq<char>,
        cs: Seq<Seq<char>>,
    )
        requires
            self.maxdepth == 0,
            fs.node(p) == Some(Node::Dir(cs)),
        ensures
            self.expansion(fs, p) == Ok::<Seq<Seq<char>>, Seq<char>>(seq![]),
    {
    }

    /// With a maximum depth of 1, a directory given as input yields what the
    /// walks from its immediate children yield at depth 1, and such a walk
    /// does not descend further: it yields at most one file, and nothing
    /// for a directory.
    pub proof fn lemma_depth_one_stops_at_children(
        &self,
        fs: FsView,
        p: Seq<char>,
        cs: Seq<Seq<char>>,
        c: Seq<char>,
        strip: Option<Seq<char>>,
    )
        requires
            self.maxdepth == 1,
            fs.node(p) == Some(Node::Dir(cs)),
        ensures
            self.expansion(fs, p) == self.walk_all(fs, cs, cs.len() as int, 1, None),
            self.walk(fs, c, 1, strip) matches Ok(v) ==> v.len() <= 1,
            fs.node(c) matches Some(Node::Dir(_)) ==> self.walk(fs, c, 1, strip) == Ok::<
                Seq<Seq<char>>,
                Seq<char>,
            >(seq![]),
    {
    }

    /// Exclusion wins over inclusion: a file name whose extension is
    /// excluded, and is not an extra suffix, is rejected, whatever the
    /// included extensions are.
    pub proof fn lemma_excluded_extension_rejected(&self, name: Seq<char>, e: Seq<char>)
        requires
            split_ext(name).1 == Some(e),
            lists(self.excluded_ext@, e),
            !lists(self.extra_suffix@, e),
        ensures
            !self.name_matches(name),
    {
        let i = choose|i: int| 0 <= i < self.excluded_ext@.len() && (#[trigger] self.excluded_ext@[i])@ == e;
        assert(self.filtering());
        assert(!self.ext_accepted(e));
    }

    /// Extra-suffix stripping: a file name whose extension is an extra
    /// suffix, and is not accepted by the extension policy, is judged as its
    /// stem, where that stem has an extension of its own and is not hidden
    /// (or hidden files are shown).
    pub proof fn lemma_extra_suffix_stripped(&self, name: Seq<char>, stem: Seq<char>, e: Seq<char>)
        requires
            split_ext(name) == (stem, Some(e)),
            lists(self.extra_suffix@, e),
            !self.ext_accepted(e),
            split_ext(stem).1 is Some,
            self.show_hidden || stem[0] != '.',
        ensures
            self.name_matches(name) == self.name_matches(stem),
    {
        lemma_last_index_bounds(name, '.');
        assert(stem.len() < name.len());
        assert(stem.len() > 0);
    }

    /// A split of a missing input that succeeds gives exactly the pieces
    /// found, in order; one that fails keeps nothing and falls through to the
    /// prefix match, or to no result where that is off.
    pub proof fn lemma_split_decides_or_falls_through(&self, fs: FsView, p: Seq<char>)
        requires
            fs.node(p) == Some(Node::Missing),
            self.suffixed_from(fs, p, 0) == Ok::<Option<(Seq<char>, Node)>, Seq<char>>(None),
            self.match_concat,
        ensures
            self.split_from(fs, p, 0) matches Ok(Some(files)) ==> self.expansion(fs, p) == Ok::<
                Seq<Seq<char>>,
                Seq<char>,
            >(files),
            self.split_from(fs, p, 0) matches Ok(None) ==> self.expansion(fs, p) == if self.match_prefix {
                self.prefix_matches(fs, p)
            } else {
                Ok(seq![])
            },
    {
    }

    /// Prefix matching of a bare name: the entries of the working directory,
    /// in listed order, whose path matches the working directory joined with
    /// the name followed by anything, each walked at depth 0 and reported
    /// relative to the working directory.
    pub proof fn lemma_bare_name_prefix_matches(&self, fs: FsView, p: Seq<char>, cs: Seq<Seq<char>>)
        requires
            p.len() > 0,
            forall|k: int| 0 <= k < p.len() ==> p[k] != '/',
            p != seq!['.'],
            p != seq!['.', '.'],
            fs.node(fs.cwd@) == Some(Node::Dir(cs)),
        ensures
            self.prefix_matches(fs, p) == self.walk_selected(
                fs,
                cs,
                cs.map_values(|c: Seq<char>| glob_matches(join(fs.cwd@, p.push('*')), c)),
                cs.len() as int,
                Some(fs.cwd@),
            ),
    {
        lemma_last_index_bounds(p, '/');
        if last_index_of(p, '/') >= 0 {
            assert(p[last_index_of(p, '/')] == '/');
        }
        assert(trim_back(p) == p);
        assert(p.subrange(0, p.len() as int) =~= p);
        assert(last_name(p) == Some(p));
        assert(parent_dir(p, fs.cwd@) == Some(fs.cwd@));
    }

    /// Registers `ext` as an extra suffix (once).
    pub fn add_extra_suffix(&mut self, ext: &str)
        ensures
            views(final(self).extra_suffix@) == with_added(old(self).extra_suffix@, ext@),
            final(self).included_ext == old(self).included_ext,
            final(self).excluded_ext == old(self).excluded_ext,
            final(self).show_hidden == old(self).show_hidden,
            final(self).match_prefix == old(self).match_prefix,
            final(self).match_concat == old(self).match_concat,
            final(self).maxdepth == old(self).maxdepth,
    {
        add_once(&mut self.extra_suffix, ext);
    }

    /// Registers `ext` as an included extension (once).
    pub fn add_included_ext(&mut self, ext: &str)
        ensures
            views(final(self).included_ext@) == with_added(old(self).included_ext@, ext@),
            final(self).extra_suffix == old(self).extra_suffix,
            final(self).excluded_ext == old(self).excluded_ext,
            final(self).show_hidden == old(self).show_hidden,
            final(self).match_prefix == old(self).match_prefix,
            final(self).match_concat == old(self).match_concat,
            final(self).maxdepth == old(self).maxdepth,
    {
        add_once(&mut self.included_ext, ext);
    }

    /// Registers `ext` as an excluded extension (once).
    pub fn add_excluded_ext(&mut self, ext: &str)
        ensures
            views(final(self).excluded_ext@) == with_added(old(self).excluded_ext@, ext@),
            final(self).extra_suffix == old(self).extra_suffix,
            final(self).included_ext == old(self).included_ext,
            final(self).show_hidden == old(self).show_hidden,
            final(self).match_prefix == old(self).match_prefix,
            final(self).match_concat == old(self).match_concat,
            final(self).maxdepth == old(self).maxdepth,
    {
        add_once(&mut self.excluded_ext, ext);
    }

    fn is_matching_ext(&self, ext: &String) -> (r: bool)
        ensures
            r == self.ext_accepted(ext@),
    {
        if self.extra_suffix.len() == 0 && self.included_ext.len() == 0
            && self.excluded_ext.len() == 0 {
            return true;
        }
        if contains_string(&self.excluded_ext, ext) {
            return false;
        }
        contains_string(&self.included_ext, ext)
    }

    fn is_matching_name(&self, name: &String) -> (r: bool)
        ensures
            r == self.name_matches(name@),
        decreases name@.len(),
    {
        let (stem, ext) = split_extension(name.as_str());
        if stem.unicode_len() == 0 {
            return false;
        }
        if !self.show_hidden && stem.as_str().get_char(0) == '.' {
            return false;
        }
        match ext {
            None => false,
            Some(e) => {
                if self.is_matching_ext(&e) {
                    return true;
                }
                if contains_string(&self.extra_suffix, &e) {
                    let (_, inner_ext) = split_extension(stem.as_str());
                    if inner_ext.is_some() && stem.unicode_len() < name.unicode_len() {
                        return self.is_matching_name(&stem);
                    }
                }
                false
            },
        }
    }

    /// Whether the file at `path` is accepted by the matching predicate.
    fn is_matching_file(&self, path: &String) -> (r: bool)
        ensures
            r == self.path_matches(path@),
    {
        let name = name_of(path.as_str());
        self.is_matching_name(&name)
    }
    /// Once the walk over the first `k` children has stopped at an unknown
    /// path, the walk over more of them stops there too.
    proof fn lemma_walk_all_err(
        &self,
        fs: FsView,
        cs: Seq<Seq<char>>,
        k: int,
        n: int,
        depth: int,
        strip: Option<Seq<char>>,
    )
        requires
            0 < k <= n <= cs.len(),
            self.walk_all(fs, cs, k, depth, strip) is Err,
        ensures
            self.walk_all(fs, cs, n, depth, strip) == self.walk_all(fs, cs, k, depth, strip),
        decreases n - k,
    {
        if n > k {
            self.lemma_walk_all_err(fs, cs, k, n - 1, depth, strip);
        }
    }

    fn expand_existing_path(
        &self,
        fs: &FsView,
        expanded_paths: &mut Vec<String>,
        path: &String,
        entry: &Entry,
        depth: u32,
        strip_prefix: Option<&String>,
    ) -> (r: Result<(), String>)
        ensures
            appended(
                r,
                self.visit(*fs, path@, entry@, depth as int, opt_view(strip_prefix)),
                old(expanded_paths)@,
                final(expanded_paths)@,
            ),
        decreases self.maxdepth + 2 - depth, 0int, 0int,
    {
        match entry {
            Entry::File => {
                if self.is_matching_file(path) {
                    let s = emit(path, strip_prefix);
                    proof {
                        lemma_views_push(expanded_paths@, s);
                    }
                    expanded_paths.push(s);
                } else {
                    proof {
                        lemma_views_unchanged(expanded_paths@);
                    }
                }
                Ok(())
            },
            Entry::Dir(children) => {
                if depth >= self.maxdepth {
                    proof {
                        lemma_views_unchanged(expanded_paths@);
                    }
                    return Ok(());
                }
                let newdepth = depth + 1;
                let ghost cs = views(children@);
                let ghost before = expanded_paths@;
                assert(entry@ == Node::Dir(cs));
                assert(cs.len() == children.len());
                assert(self.visit(*fs, path@, entry@, depth as int, opt_view(strip_prefix))
                    == self.walk_all(*fs, cs, cs.len() as int, newdepth as int, opt_view(strip_prefix)));
                let mut i: usize = 0;
                proof {
                    lemma_views_unchanged(before);
                }
                while i < children.len()
                    invariant
                        i <= children.len(),
                        cs == views(children@),
                        newdepth == depth + 1 <= self.maxdepth,
                        before == old(expanded_paths)@,
                        cs.len() == children.len(),
                        self.visit(*fs, path@, entry@, depth as int, opt_view(strip_prefix))
                            == self.walk_all(*fs, cs, cs.len() as int, newdepth as int, opt_view(strip_prefix)),
                        match self.walk_all(*fs, cs, i as int, newdepth as int, opt_view(strip_prefix)) {
                            Ok(a) => views(expanded_paths@) == views(before) + a,
                            Err(_) => false,
                        },
                    decreases children.len() - i,
                {
                    assert(cs[i as int] == children@[i as int]@);
                    let res = self.expand(fs, expanded_paths, &children[i], newdepth, strip_prefix);
                    match res {
                        Err(q) => {
                            proof {
                                assert(self.walk_all(*fs, cs, i + 1, newdepth as int, opt_view(strip_prefix)) is Err);
                                self.lemma_walk_all_err(
                                    *fs,
                                    cs,
                                    i + 1,
                                    cs.len() as int,
                                    newdepth as int,
                                    opt_view(strip_prefix),
                                );
                                assert(self.walk_all(*fs, cs, i + 1, newdepth as int, opt_view(strip_prefix)) == Err::<Seq<Seq<char>>, Seq<char>>(q@));
                                assert(self.visit(*fs, path@, entry@, depth as int, opt_view(strip_prefix)) == Err::<Seq<Seq<char>>, Seq<char>>(q@));
                            }
                            return Err(q);
                        },
                        Ok(()) => {},
                    }
                    proof {
                        let a = self.walk_all(*fs, cs, i as int, newdepth as int, opt_view(strip_prefix))->Ok_0;
                        let b = self.walk(*fs, cs[i as int], newdepth as int, opt_view(strip_prefix))->Ok_0;
                        assert(views(before) + a + b =~= views(before) + (a + b));
                    }
                    i = i + 1;
                }
                Ok(())
            },
            _ => {
                proof {
                    lemma_views_unchanged(expanded_paths@);
                }
                Ok(())
            },
        }
    }

    fn expand(
        &self,
        fs: &FsView,
        expanded_paths: &mut Vec<String>,
        path: &String,
        depth: u32,
        strip_prefix: Option<&String>,
    ) -> (r: Result<(), String>)
        ensures
            appended(
                r,
                self.walk(*fs, path@, depth as int, opt_view(strip_prefix)),
                old(expanded_paths)@,
                final(expanded_paths)@,
            ),
        decreases self.maxdepth + 2 - depth, 0int, 1int,
    {
        if depth > self.maxdepth {
            proof {
                lemma_views_unchanged(expanded_paths@);
            }
            return Ok(());
        }
        match fs.lookup(path) {
            None => Err(path.clone()),
            Some(Entry::Missing) => {
                match self.find_suffixed(fs, path) {
                    Err(q) => Err(q),
                    Ok(None) => {
                        proof {
                            lemma_views_unchanged(expanded_paths@);
                        }
                        Ok(())
                    },
                    Ok(Some((q, e))) => self.expand_existing_path(fs, expanded_paths, &q, e, depth, strip_prefix),
                }
            },
            Some(e) => self.expand_existing_path(fs, expanded_paths, path, e, depth, strip_prefix),
        }
    }

    /// The first extra suffix that gives an existing path when appended to
    /// `path`, that path and what is found there.
    fn find_suffixed<'a>(&self, fs: &'a FsView, path: &String) -> (r: Result<Option<(String, &'a Entry)>, String>)
        ensures
            self.suffixed_from(*fs, path@, 0) == match r {
                Ok(Some((q, e))) => Ok(Some((q@, e@))),
                Ok(None) => Ok(None),
                Err(q) => Err(q@),
            },
    {
        let mut i: usize = 0;
        while i < self.extra_suffix.len()
            invariant
                i <= self.extra_suffix.len(),
                self.suffixed_from(*fs, path@, 0) == self.suffixed_from(*fs, path@, i as int),
            decreases self.extra_suffix.len() - i,
        {
            let mut q = path.clone();
            q.append(".");
            q.append(self.extra_suffix[i].as_str());
            proof {
                reveal_strlit(".");
                assert(q@ =~= with_suffix(path@, self.extra_suffix@[i as int]@));
            }
            match fs.lookup(&q) {
                None => {
                    return Err(q);
                },
                Some(Entry::Missing) => {},
                Some(e) => {
                    return Ok(Some((q, e)));
                },
            }
            i = i + 1;
        }
        Ok(None)
    }
    proof fn lemma_walk_selected_err(
        &self,
        fs: FsView,
        cs: Seq<Seq<char>>,
        sel: Seq<bool>,
        k: int,
        n: int,
        strip: Option<Seq<char>>,
    )
        requires
            0 < k <= n <= cs.len(),
            self.walk_selected(fs, cs, sel, k, strip) is Err,
        ensures
            self.walk_selected(fs, cs, sel, n, strip) == self.walk_selected(fs, cs, sel, k, strip),
        decreases n - k,
    {
        if n > k {
            self.lemma_walk_selected_err(fs, cs, sel, k, n - 1, strip);
        }
    }

    /// Walks, at depth 0, from each of `entries` that `selected` marks (an
    /// entry past the end of `selected` is not marked), appending what is
    /// found to `expanded_paths` with `strip_prefix` removed from the front.
    /// Each walk is the plain walk of `expand`: an entry recorded as missing
    /// (one that vanished after its directory was listed) gets only the
    /// extra-suffix step, not the split or prefix fallbacks of an input.
    pub fn expand_selected(
        &self,
        fs: &FsView,
        expanded_paths: &mut Vec<String>,
        entries: &Vec<String>,
        selected: &Vec<bool>,
        strip_prefix: Option<&String>,
    ) -> (r: Result<(), String>)
        ensures
            appended(
                r,
                self.walk_selected(
                    *fs,
                    views(entries@),
                    selected@,
                    entries@.len() as int,
                    opt_view(strip_prefix),
                ),
                old(expanded_paths)@,
                final(expanded_paths)@,
            ),
    {
        let ghost cs = views(entries@);
        let ghost before = expanded_paths@;
        let mut i: usize = 0;
        proof {
            lemma_views_unchanged(before);
        }
        while i < entries.len()
            invariant
                i <= entries.len(),
                cs == views(entries@),
                cs.len() == entries.len(),
                before == old(expanded_paths)@,
                match self.walk_selected(*fs, cs, selected@, i as int, opt_view(strip_prefix)) {
                    Ok(a) => views(expanded_paths@) == views(before) + a,
                    Err(_) => false,
                },
            decreases entries.len() - i,
        {
            assert(cs[i as int] == entries@[i as int]@);
            let pick = i < selected.len() && selected[i];
            if pick {
                let res = self.expand(fs, expanded_paths, &entries[i], 0, strip_prefix);
                match res {
                    Err(q) => {
                        proof {
                            assert(self.walk_selected(*fs, cs, selected@, i + 1, opt_view(strip_prefix))
                                == Err::<Seq<Seq<char>>, Seq<char>>(q@));
                            self.lemma_walk_selected_err(
                                *fs,
                                cs,
                                selected@,
                                i + 1,
                                cs.len() as int,
                                opt_view(strip_prefix),
                            );
                        }
                        return Err(q);
                    },
                    Ok(()) => {},
                }
                proof {
                    let a = self.walk_selected(*fs, cs, selected@, i as int, opt_view(strip_prefix))->Ok_0;
                    let b = self.walk(*fs, cs[i as int], 0, opt_view(strip_prefix))->Ok_0;
                    assert(views(before) + a + b =~= views(before) + (a + b));
                }
            }
            i = i + 1;
        }
        Ok(())
    }

    /// The prefix fallback for the input `path`.
    fn expand_matching_prefix(
        &self,
        fs: &FsView,
        expanded_paths: &mut Vec<String>,
        path: &String,
    ) -> (r: Result<(), String>)
        ensures
            appended(r, self.prefix_matches(*fs, path@), old(expanded_paths)@, final(expanded_paths)@),
    {
        let dir = match get_parent_dir(path, &fs.cwd) {
            Some(d) => d,
            None => {
                proof {
                    lemma_views_unchanged(expanded_paths@);
                }
                return Ok(());
            },
        };
        let name = match get_file_name(path) {
            Some(n) => n,
            None => {
                proof {
                    lemma_views_unchanged(expanded_paths@);
                }
                return Ok(());
            },
        };
        match fs.lookup(&dir) {
            None => Err(dir),
            Some(Entry::Dir(children)) => {
                let mut wildcard = name.clone();
                wildcard.append("*");
                let pattern = join_path(&dir, &wildcard);
                proof {
                    reveal_strlit("*");
                    assert(wildcard@ =~= name@.push('*'));
                }
                let ghost cs = views(children@);
                let mut selected: Vec<bool> = Vec::new();
                let mut i: usize = 0;
                while i < children.len()
                    invariant
                        i <= children.len(),
                        cs == views(children@),
                        selected@ =~= cs.subrange(0, i as int).map_values(
                            |c: Seq<char>| glob_matches(pattern@, c),
                        ),
                    decreases children.len() - i,
                {
                    let m = glob_match_path(pattern.as_str(), children[i].as_str());
                    selected.push(m);
                    i = i + 1;
                    assert(selected@ =~= cs.subrange(0, i as int).map_values(
                        |c: Seq<char>| glob_matches(pattern@, c),
                    ));
                }
                assert(cs.subrange(0, cs.len() as int) =~= cs);
                let is_abs = path.unicode_len() > 0 && path.as_str().get_char(0) == '/';
                if is_abs {
                    self.expand_selected(fs, expanded_paths, children, &selected, None)
                } else {
                    self.expand_selected(fs, expanded_paths, children, &selected, Some(&fs.cwd))
                }
            },
            Some(_) => {
                proof {
                    lemma_views_unchanged(expanded_paths@);
                }
                Ok(())
            },
        }
    }

    /// The shortest piece of `s` at `idx` that is an existing regular file
    /// accepted by the predicate: its length.
    fn find_piece(&self, fs: &FsView, s: &String, idx: usize) -> (r: Result<Option<usize>, String>)
        requires
            idx < s@.len(),
        ensures
            self.first_piece(*fs, s@, idx as int, 1) == match r {
                Ok(Some(n)) => Ok(Some(n as int)),
                Ok(None) => Ok(None),
                Err(q) => Err(q@),
            },
            r matches Ok(Some(n)) ==> 1 <= n && idx + n <= s@.len(),
    {
        let len = s.unicode_len();
        let mut k: usize = 0;
        while k < len - idx
            invariant
                k <= len - idx,
                idx < len == s@.len(),
                self.first_piece(*fs, s@, idx as int, 1) == self.first_piece(*fs, s@, idx as int, k + 1),
            decreases len - idx - k,
        {
            let n = k + 1;
            let sub = String::from_str(s.as_str().substring_char(idx, idx + n));
            match fs.lookup(&sub) {
                None => {
                    return Err(sub);
                },
                Some(Entry::File) => {
                    if self.is_matching_file(&sub) {
                        return Ok(Some(n));
                    }
                },
                Some(_) => {},
            }
            k = k + 1;
        }
        Ok(None)
    }

    /// The split fallback for the input `path`: `Ok(true)` where `path` splits
    /// into file names, which are then appended to `expanded_paths`.
    fn expand_concatenated_filenames(
        &self,
        fs: &FsView,
        expanded_paths: &mut Vec<String>,
        path: &String,
    ) -> (r: Result<bool, String>)
        ensures
            match self.split_from(*fs, path@, 0) {
                Ok(Some(files)) => r == Ok::<bool, String>(true) && views(final(expanded_paths)@)
                    == views(old(expanded_paths)@) + files,
                Ok(None) => r == Ok::<bool, String>(false) && final(expanded_paths)@ == old(
                    expanded_paths,
                )@,
                Err(q) => r matches Err(e) && e@ == q,
            },
    {
        let len = path.unicode_len();
        let mut idx: usize = 0;
        let mut files: Vec<String> = Vec::new();
        assert(prepend(views(files@), self.split_from(*fs, path@, 0)) == self.split_from(
            *fs,
            path@,
            0,
        )) by {
            if let Ok(Some(rest)) = self.split_from(*fs, path@, 0) {
                assert(views(files@) + rest =~= rest);
            }
        }
        while idx < len
            invariant
                idx <= len == path@.len(),
                self.split_from(*fs, path@, 0) == prepend(
                    views(files@),
                    self.split_from(*fs, path@, idx as int),
                ),
            decreases len - idx,
        {
            match self.find_piece(fs, path, idx) {
                Err(q) => {
                    return Err(q);
                },
                Ok(None) => {
                    return Ok(false);
                },
                Ok(Some(n)) => {
                    let sub = String::from_str(path.as_str().substring_char(idx, idx + n));
                    proof {
                        lemma_views_push(files@, sub);
                        if let Ok(Some(rest)) = self.split_from(*fs, path@, idx + n) {
                            assert(views(files@) + (seq![sub@] + rest) =~= views(files@) + seq![
                                sub@,
                            ] + rest);
                        }
                    }
                    files.push(sub);
                    idx = idx + n;
                },
            }
        }
        assert(views(files@) + seq![] =~= views(files@));
        let ghost before = expanded_paths@;
        let mut i: usize = 0;
        assert(views(before) + views(files@).subrange(0, 0) =~= views(before));
        while i < files.len()
            invariant
                i <= files.len(),
                before == old(expanded_paths)@,
                views(expanded_paths@) == views(before) + views(files@).subrange(0, i as int),
            decreases files.len() - i,
        {
            let f = files[i].clone();
            proof {
                lemma_views_push(expanded_paths@, f);
                assert(views(before) + views(files@).subrange(0, i + 1) =~= views(before) + views(
                    files@,
                ).subrange(0, i as int) + seq![f@]);
            }
            expanded_paths.push(f);
            i = i + 1;
        }
        assert(views(files@).subrange(0, files.len() as int) =~= views(files@));
        Ok(true)
    }

    /// Expands one input string into the files it denotes, in order; where
    /// that needs a path that `fs` does not know, returns that path instead.
    pub fn expand_input_path(&self, fs: &FsView, input_path: &str) -> (r: Result<Vec<String>, String>)
        ensures
            match self.expansion(*fs, input_path@) {
                Ok(v) => r matches Ok(w) && views(w@) == v,
                Err(q) => r matches Err(e) && e@ == q,
            },
    {
        let mut expanded_paths: Vec<String> = Vec::new();
        let path = String::from_str(input_path);
        let res = match fs.lookup(&path) {
            None => Err(path.clone()),
            Some(Entry::Missing) => {
                match self.find_suffixed(fs, &path) {
                    Err(q) => Err(q),
                    Ok(Some((q, e))) => self.expand_existing_path(fs, &mut expanded_paths, &q, e, 0, None),
                    Ok(None) => {
                        let mut split = Ok(false);
                        if self.match_concat {
                            split = self.expand_concatenated_filenames(fs, &mut expanded_paths, &path);
                        }
                        match split {
                            Err(q) => Err(q),
                            Ok(true) => Ok(()),
                            Ok(false) => {
                                if self.match_prefix {
                                    self.expand_matching_prefix(fs, &mut expanded_paths, &path)
                                } else {
                                    Ok(())
                                }
                            },
                        }
                    },
                }
            },
            Some(e) => self.expand_existing_path(fs, &mut expanded_paths, &path, e, 0, None),
        };
        assert(views(expanded_paths@) =~= seq![] + views(expanded_paths@));
        match res {
            Ok(()) => Ok(expanded_paths),
            Err(q) => Err(q),
        }
    }
}

} // verus!
