//! Paths as strings whose components are separated by `/`: their last
//! component, stem and extension, and how they are joined and stripped.
use vstd::prelude::*;

verus! {

/// Position of the last `c` in `s`, or -1.
pub open spec fn last_index_of(s: Seq<char>, c: char) -> int
    decreases s.len(),
{
    if s.len() == 0 {
        -1
    } else if s.last() == c {
        s.len() - 1
    } else {
        last_index_of(s.drop_last(), c)
    }
}

pub(crate) proof fn lemma_last_index_bounds(s: Seq<char>, c: char)
    ensures
        -1 <= last_index_of(s, c) < s.len(),
        last_index_of(s, c) >= 0 ==> s[last_index_of(s, c)] == c,
    decreases s.len(),
{
    if s.len() > 0 && s.last() != c {
        lemma_last_index_bounds(s.drop_last(), c);
    }
}

/// The last component of a path: what follows its last `/`.
pub open spec fn file_name(p: Seq<char>) -> Seq<char> {
    p.subrange(last_index_of(p, '/') + 1, p.len() as int)
}

/// A file name split into its stem and its extension: the extension is
/// what follows the last `.`, unless that dot starts the name (as in
/// `.env`) or there is none; the name `..` has no extension either.
pub open spec fn split_ext(name: Seq<char>) -> (Seq<char>, Option<Seq<char>>) {
    let k = last_index_of(name, '.');
    if name == seq!['.', '.'] || k <= 0 {
        (name, None)
    } else {
        (name.subrange(0, k), Some(name.subrange(k + 1, name.len() as int)))
    }
}

/// Position of the last `c` in `s`.
pub(crate) fn find_last(s: &str, c: char) -> (r: Option<usize>)
    ensures
        match r {
            Some(k) => k == last_index_of(s@, c),
            None => last_index_of(s@, c) == -1,
        },
{
    let n = s.unicode_len();
    let mut i: usize = n;
    assert(s@.subrange(0, n as int) =~= s@);
    while i > 0
        invariant
            i <= n,
            n == s@.len(),
            last_index_of(s@, c) == last_index_of(s@.subrange(0, i as int), c),
        decreases i,
    {
        let ch = s.get_char(i - 1);
        assert(s@.subrange(0, i - 1) =~= s@.subrange(0, i as int).drop_last());
        if ch == c {
            return Some(i - 1);
        }
        i = i - 1;
    }
    None
}

/// The last component of `p`.
pub(crate) fn name_of(p: &str) -> (r: String)
    ensures
        r@ == file_name(p@),
{
    let n = p.unicode_len();
    proof {
        lemma_last_index_bounds(p@, '/');
    }
    let start: usize = match find_last(p, '/') {
        Some(k) => k + 1,
        None => 0,
    };
    String::from_str(p.substring_char(start, n))
}

/// Whether `name` is `..`.
pub(crate) fn is_dot_dot(name: &str) -> (r: bool)
    ensures
        r == (name@ == seq!['.', '.']),
{
    let n = name.unicode_len();
    if n != 2 {
        assert(name@.len() != seq!['.', '.'].len());
        return false;
    }
    let r = name.get_char(0) == '.' && name.get_char(1) == '.';
    assert(r ==> name@ =~= seq!['.', '.']);
    r
}

/// The stem and the extension of `name`.
pub(crate) fn split_extension(name: &str) -> (r: (String, Option<String>))
    ensures
        (r.0@, match r.1 {
            Some(e) => Some(e@),
            None => None::<Seq<char>>,
        }) == split_ext(name@),
{
    let n = name.unicode_len();
    proof {
        lemma_last_index_bounds(name@, '.');
    }
    if is_dot_dot(name) {
        return (String::from_str(name), None);
    }
    match find_last(name, '.') {
        Some(k) => {
            if k == 0 {
                (String::from_str(name), None)
            } else {
                (
                    String::from_str(name.substring_char(0, k)),
                    Some(String::from_str(name.substring_char(k + 1, n))),
                )
            }
        },
        None => (String::from_str(name), None),
    }
}

/// `p` with `.` and `sfx` appended.
pub open spec fn with_suffix(p: Seq<char>, sfx: Seq<char>) -> Seq<char> {
    p + seq!['.'] + sfx
}

/// `c` with the leading components that make up `pre` removed, where `pre`
/// is a whole-component prefix of `c`; otherwise `c` as it is.
pub open spec fn strip_prefix(c: Seq<char>, pre: Seq<char>) -> Seq<char> {
    if pre.len() > 0 && pre.last() == '/' && pre.is_prefix_of(c) {
        c.subrange(pre.len() as int, c.len() as int)
    } else if pre.push('/').is_prefix_of(c) {
        c.subrange(pre.len() as int + 1, c.len() as int)
    } else {
        c
    }
}

/// Whether `pre` is a prefix of `c`.
pub(crate) fn starts_with(c: &str, pre: &str) -> (r: bool)
    ensures
        r == pre@.is_prefix_of(c@),
{
    let n = pre.unicode_len();
    let m = c.unicode_len();
    if n > m {
        return false;
    }
    let mut i: usize = 0;
    while i < n
        invariant
            i <= n <= m,
            n == pre@.len(),
            m == c@.len(),
            forall|j: int| 0 <= j < i ==> pre@[j] == c@[j],
        decreases n - i,
    {
        if pre.get_char(i) != c.get_char(i) {
            return false;
        }
        i = i + 1;
    }
    assert(pre@ =~= c@.subrange(0, n as int));
    true
}

/// `c` with the whole-component prefix `pre` removed, if it has it.
pub(crate) fn strip_path_prefix(c: &String, pre: &String) -> (r: String)
    ensures
        r@ == strip_prefix(c@, pre@),
{
    let n = pre.unicode_len();
    let m = c.unicode_len();
    if n > 0 && pre.as_str().get_char(n - 1) == '/' && starts_with(c.as_str(), pre.as_str()) {
        assert(pre@.last() == '/');
        return String::from_str(c.as_str().substring_char(n, m));
    }
    let mut with_slash = pre.clone();
    with_slash.append("/");
    proof {
        reveal_strlit("/");
        assert(with_slash@ =~= pre@.push('/'));
    }
    if starts_with(c.as_str(), with_slash.as_str()) {
        String::from_str(c.as_str().substring_char(n + 1, m))
    } else {
        c.clone()
    }
}

/// `tail` appended to the directory path `dir` as one more component.
pub open spec fn join(dir: Seq<char>, tail: Seq<char>) -> Seq<char> {
    if dir.len() > 0 && dir.last() == '/' {
        dir + tail
    } else {
        dir + seq!['/'] + tail
    }
}

/// `p` without trailing separators and trailing `.` components, keeping a
/// leading root: `a/b/` and `a/b/.` become `a/b`, and `/.` becomes `/`.
pub open spec fn trim_back(p: Seq<char>) -> Seq<char>
    decreases p.len(),
{
    if p.len() >= 2 && (p.last() == '/' || (p.last() == '.' && p[p.len() - 2] == '/')) {
        trim_back(p.drop_last())
    } else {
        p
    }
}

/// The last component of `p` as a file name, as the host's
/// `Path::file_name` gives it: none where `p` is empty, the root, `.`, or
/// ends in `..`.
pub open spec fn last_name(p: Seq<char>) -> Option<Seq<char>> {
    let t = trim_back(p);
    let c = t.subrange(last_index_of(t, '/') + 1, t.len() as int);
    if c.len() == 0 || c == seq!['.'] || c == seq!['.', '.'] {
        None
    } else {
        Some(c)
    }
}

/// The directory that holds `p`, as the host's `Path::parent` gives it,
/// with the working directory `cwd` in place of an empty parent: none where
/// `p` is empty or the root.
pub open spec fn parent_dir(p: Seq<char>, cwd: Seq<char>) -> Option<Seq<char>> {
    let t = trim_back(p);
    let k = last_index_of(t, '/');
    if t.len() == 0 || t == seq!['/'] {
        None
    } else if k < 0 {
        Some(cwd)
    } else {
        Some(trim_back(t.subrange(0, k + 1)))
    }
}

/// Whether `p` is relative: it does not start at the root.
pub open spec fn is_relative(p: Seq<char>) -> bool {
    !(p.len() > 0 && p[0] == '/')
}

/// The glob that the prefix fallback matches the entries of the directory
/// `dir` against, for the file name `name`: `name` followed by anything.
pub open spec fn prefix_pattern(dir: Seq<char>, name: Seq<char>) -> Seq<char> {
    join(dir, name.push('*'))
}

/// `dir` joined with `tail`.
pub(crate) fn join_path(dir: &String, tail: &String) -> (r: String)
    ensures
        r@ == join(dir@, tail@),
{
    let n = dir.unicode_len();
    let mut r = dir.clone();
    if !(n > 0 && dir.as_str().get_char(n - 1) == '/') {
        r.append("/");
    }
    r.append(tail.as_str());
    proof {
        reveal_strlit("/");
        assert(r@ =~= join(dir@, tail@));
    }
    r
}

/// Whether dropping the last of the first `e` characters of `p` is a step
/// of `trim_back`.
fn trims_last(p: &str, e: usize) -> (r: bool)
    requires
        e <= p@.len(),
    ensures
        r == (e >= 2 && (p@[e - 1] == '/' || (p@[e - 1] == '.' && p@[e - 2] == '/'))),
{
    if e < 2 {
        return false;
    }
    let last = p.get_char(e - 1);
    last == '/' || (last == '.' && p.get_char(e - 2) == '/')
}

/// The length of `trim_back` of the first `end` characters of `p`.
pub(crate) fn trimmed_end(p: &str, end: usize) -> (r: usize)
    requires
        end <= p@.len(),
    ensures
        r <= end,
        trim_back(p@.subrange(0, end as int)) == p@.subrange(0, r as int),
{
    let mut e: usize = end;
    loop
        invariant
            e <= end <= p@.len(),
            trim_back(p@.subrange(0, end as int)) == trim_back(p@.subrange(0, e as int)),
        decreases e,
    {
        let ghost t = p@.subrange(0, e as int);
        if !trims_last(p, e) {
            assert(trim_back(t) == t);
            return e;
        }
        assert(p@.subrange(0, e - 1) =~= t.drop_last());
        e = e - 1;
    }
}

/// Whether `name` is `.`.
fn is_dot(name: &str) -> (r: bool)
    ensures
        r == (name@ == seq!['.']),
{
    if name.unicode_len() != 1 {
        assert(name@.len() != seq!['.'].len());
        return false;
    }
    let r = name.get_char(0) == '.';
    assert(r ==> name@ =~= seq!['.']);
    r
}

/// The last component of `p` as a file name, if it has one.
pub(crate) fn get_file_name(p: &String) -> (r: Option<String>)
    ensures
        match r {
            Some(n) => Some(n@),
            None => None::<Seq<char>>,
        } == last_name(p@),
{
    let end = trimmed_end(p.as_str(), p.unicode_len());
    assert(p@.subrange(0, p@.len() as int) =~= p@);
    let t = p.as_str().substring_char(0, end);
    proof {
        lemma_last_index_bounds(t@, '/');
    }
    let start: usize = match find_last(t, '/') {
        Some(k) => k + 1,
        None => 0,
    };
    let c = t.substring_char(start, end);
    if c.unicode_len() == 0 || is_dot(c) || is_dot_dot(c) {
        None
    } else {
        Some(String::from_str(c))
    }
}

/// The directory that holds `p`, with `cwd` in place of an empty parent;
/// none where `p` is empty or the root.
pub(crate) fn get_parent_dir(p: &String, cwd: &String) -> (r: Option<String>)
    ensures
        match r {
            Some(d) => Some(d@),
            None => None::<Seq<char>>,
        } == parent_dir(p@, cwd@),
{
    let end = trimmed_end(p.as_str(), p.unicode_len());
    assert(p@.subrange(0, p@.len() as int) =~= p@);
    let t = p.as_str().substring_char(0, end);
    if end == 0 {
        return None;
    }
    if end == 1 && t.get_char(0) == '/' {
        assert(t@ =~= seq!['/']);
        return None;
    }
    assert(t@ != seq!['/']) by {
        if t@ == seq!['/'] {
            assert(t@.len() == 1 && t@[0] == '/');
        }
    }
    proof {
        lemma_last_index_bounds(t@, '/');
    }
    match find_last(t, '/') {
        None => Some(cwd.clone()),
        Some(k) => {
            let e = trimmed_end(t, k + 1);
            Some(String::from_str(t.substring_char(0, e)))
        },
    }
}

} // verus!
