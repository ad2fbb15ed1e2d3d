use dwim_path_expand::expander::PathExpander;
use dwim_path_expand::fs_view::{Entry, FsView};

enum Fake {
    File(&'static str),
    Dir(&'static str, Vec<&'static str>),
    Other(&'static str),
}

fn entry_for(disk: &[Fake], path: &str) -> Entry {
    for f in disk {
        match f {
            Fake::File(p) if *p == path => return Entry::File,
            Fake::Other(p) if *p == path => return Entry::Other,
            Fake::Dir(p, children) if *p == path => {
                return Entry::Dir(children.iter().map(|c| c.to_string()).collect())
            }
            _ => {}
        }
    }
    Entry::Missing
}

fn run(expander: &PathExpander, cwd: &str, disk: &[Fake], input: &str) -> Vec<String> {
    let mut fs = FsView::new(cwd.to_string());
    for _ in 0..10_000 {
        match expander.expand_input_path(&fs, input) {
            Ok(v) => return v,
            Err(q) => {
                let e = entry_for(disk, &q);
                fs.insert(q, e);
            }
        }
    }
    panic!("expansion did not settle");
}

fn strings(v: &[&str]) -> Vec<String> {
    v.iter().map(|s| s.to_string()).collect()
}

#[test]
fn unknown_path_is_asked_for() {
    let e = PathExpander::new();
    let fs = FsView::new("/w".to_string());
    assert_eq!(e.expand_input_path(&fs, "a.txt"), Err("a.txt".to_string()));
}

#[test]
fn view_lookup_uses_first_record() {
    let mut fs = FsView::new("/w".to_string());
    fs.insert("a".to_string(), Entry::File);
    fs.insert("a".to_string(), Entry::Missing);
    assert!(matches!(fs.lookup(&"a".to_string()), Some(Entry::File)));
    assert!(fs.lookup(&"b".to_string()).is_none());
}

#[test]
fn existing_matching_file_expands_to_itself() {
    let disk = [Fake::File("a.txt")];
    let mut e = PathExpander::new();
    assert_eq!(run(&e, "/w", &disk, "a.txt"), strings(&["a.txt"]));
    e.match_prefix = true;
    e.match_concat = true;
    assert_eq!(run(&e, "/w", &disk, "a.txt"), strings(&["a.txt"]));
}

#[test]
fn defaults() {
    let e = PathExpander::new();
    assert!(e.extra_suffix.is_empty());
    assert!(e.included_ext.is_empty());
    assert!(e.excluded_ext.is_empty());
    assert!(!e.show_hidden);
    assert!(!e.match_prefix);
    assert!(!e.match_concat);
    assert_eq!(e.maxdepth, 1);
}

#[test]
fn rules_are_registered_once() {
    let mut e = PathExpander::new();
    e.add_included_ext("txt");
    e.add_included_ext("txt");
    e.add_excluded_ext("bak");
    e.add_extra_suffix("orig");
    assert_eq!(e.included_ext, strings(&["txt"]));
    assert_eq!(e.excluded_ext, strings(&["bak"]));
    assert_eq!(e.extra_suffix, strings(&["orig"]));
}

fn tree() -> Vec<Fake> {
    vec![
        Fake::Dir("d", vec!["d/a.txt", "d/sub"]),
        Fake::File("d/a.txt"),
        Fake::Dir("d/sub", vec!["d/sub/b.txt"]),
        Fake::File("d/sub/b.txt"),
    ]
}

#[test]
fn depth_zero_directory_yields_nothing() {
    let mut e = PathExpander::new();
    e.maxdepth = 0;
    assert_eq!(run(&e, "/w", &tree(), "d"), Vec::<String>::new());
}

#[test]
fn depth_one_yields_only_children() {
    let e = PathExpander::new();
    assert_eq!(run(&e, "/w", &tree(), "d"), strings(&["d/a.txt"]));
}

#[test]
fn depth_two_yields_grandchildren() {
    let mut e = PathExpander::new();
    e.maxdepth = 2;
    assert_eq!(run(&e, "/w", &tree(), "d"), strings(&["d/a.txt", "d/sub/b.txt"]));
}

#[test]
fn largest_depth_does_not_overflow() {
    let mut e = PathExpander::new();
    e.maxdepth = u32::MAX;
    assert_eq!(run(&e, "/w", &tree(), "d"), strings(&["d/a.txt", "d/sub/b.txt"]));
}

#[test]
fn special_files_are_ignored() {
    let disk = [Fake::Other("fifo.txt")];
    let e = PathExpander::new();
    assert_eq!(run(&e, "/w", &disk, "fifo.txt"), Vec::<String>::new());
}

#[test]
fn extension_policy() {
    let disk = [Fake::File("a.txt"), Fake::File("a.bak"), Fake::File("a.txt.bak"), Fake::File("a.md")];
    let mut e = PathExpander::new();
    e.add_included_ext("txt");
    e.add_excluded_ext("bak");
    assert_eq!(run(&e, "/w", &disk, "a.txt"), strings(&["a.txt"]));
    assert_eq!(run(&e, "/w", &disk, "a.bak"), Vec::<String>::new());
    assert_eq!(run(&e, "/w", &disk, "a.txt.bak"), Vec::<String>::new());
    assert_eq!(run(&e, "/w", &disk, "a.md"), Vec::<String>::new());
}

#[test]
fn exclusion_wins_over_inclusion() {
    let disk = [Fake::File("a.txt")];
    let mut e = PathExpander::new();
    e.add_included_ext("txt");
    e.add_excluded_ext("txt");
    assert_eq!(run(&e, "/w", &disk, "a.txt"), Vec::<String>::new());
}

#[test]
fn extension_filter_off_accepts_any_extension() {
    let disk = [Fake::File("a.xyz"), Fake::File("noext")];
    let e = PathExpander::new();
    assert_eq!(run(&e, "/w", &disk, "a.xyz"), strings(&["a.xyz"]));
    assert_eq!(run(&e, "/w", &disk, "noext"), Vec::<String>::new());
}

#[test]
fn extra_suffix_is_stripped() {
    let disk = [Fake::File("main.rs.orig"), Fake::File("main.orig")];
    let mut e = PathExpander::new();
    e.add_included_ext("rs");
    e.add_extra_suffix("orig");
    assert_eq!(run(&e, "/w", &disk, "main.rs.orig"), strings(&["main.rs.orig"]));
    assert_eq!(run(&e, "/w", &disk, "main.orig"), Vec::<String>::new());
}

#[test]
fn extra_suffix_completes_missing_path() {
    let disk = [Fake::File("main.rs.orig")];
    let mut e = PathExpander::new();
    e.add_included_ext("rs");
    e.add_extra_suffix("orig");
    assert_eq!(run(&e, "/w", &disk, "main.rs"), strings(&["main.rs.orig"]));
}

#[test]
fn hidden_file_excluded_by_default() {
    let disk = [Fake::File(".env"), Fake::File(".env.txt")];
    let e = PathExpander::new();
    assert_eq!(run(&e, "/w", &disk, ".env"), Vec::<String>::new());
    assert_eq!(run(&e, "/w", &disk, ".env.txt"), Vec::<String>::new());
}

#[test]
fn hidden_file_shown() {
    let disk = [Fake::File(".env.txt"), Fake::File(".env")];
    let mut e = PathExpander::new();
    e.show_hidden = true;
    assert_eq!(run(&e, "/w", &disk, ".env.txt"), strings(&[".env.txt"]));
    // a name without an extension is never accepted
    assert_eq!(run(&e, "/w", &disk, ".env"), Vec::<String>::new());
}

#[test]
fn concatenation_is_split() {
    let disk = [Fake::File("ab.md"), Fake::File("cd.txt")];
    let mut e = PathExpander::new();
    e.match_concat = true;
    assert_eq!(run(&e, "/w", &disk, "ab.mdcd.txt"), strings(&["ab.md", "cd.txt"]));
}

#[test]
fn concatenation_fails_without_all_parts() {
    let disk = [Fake::File("ab.md")];
    let mut e = PathExpander::new();
    e.match_concat = true;
    assert_eq!(run(&e, "/w", &disk, "ab.mdcd.txt"), Vec::<String>::new());
}

#[test]
fn concatenation_of_extensionless_names_fails() {
    let disk = [Fake::File("ab"), Fake::File("cd.txt")];
    let mut e = PathExpander::new();
    e.match_concat = true;
    assert_eq!(run(&e, "/w", &disk, "abcd.txt"), Vec::<String>::new());
}

#[test]
fn concatenation_takes_shortest_piece() {
    let disk = [Fake::File("a.c"), Fake::File("a.cc"), Fake::File("c.h")];
    let mut e = PathExpander::new();
    e.match_concat = true;
    assert_eq!(run(&e, "/w", &disk, "a.cc.h"), strings(&["a.c", "c.h"]));
}

#[test]
fn concatenation_off_by_default() {
    let disk = [Fake::File("ab.md"), Fake::File("cd.txt")];
    let e = PathExpander::new();
    assert_eq!(run(&e, "/w", &disk, "ab.mdcd.txt"), Vec::<String>::new());
}

fn reports() -> Vec<Fake> {
    vec![
        Fake::Dir("/w", vec!["/w/other.txt", "/w/report1.csv", "/w/report2.csv", "/w/sub"]),
        Fake::File("/w/other.txt"),
        Fake::File("/w/report1.csv"),
        Fake::File("/w/report2.csv"),
        Fake::Dir("/w/sub", vec!["/w/sub/report3.csv"]),
        Fake::File("/w/sub/report3.csv"),
        Fake::Dir("sub", vec!["sub/report3.csv"]),
        Fake::File("sub/report3.csv"),
    ]
}

#[test]
fn prefix_matching() {
    let mut e = PathExpander::new();
    e.match_prefix = true;
    assert_eq!(run(&e, "/w", &reports(), "report"), strings(&["report1.csv", "report2.csv"]));
}

#[test]
fn prefix_matching_off_by_default() {
    let e = PathExpander::new();
    assert_eq!(run(&e, "/w", &reports(), "report"), Vec::<String>::new());
}

#[test]
fn prefix_matching_absolute_input() {
    let mut e = PathExpander::new();
    e.match_prefix = true;
    assert_eq!(run(&e, "/w", &reports(), "/w/report2"), strings(&["/w/report2.csv"]));
}

#[test]
fn prefix_matching_in_subdirectory() {
    let mut e = PathExpander::new();
    e.match_prefix = true;
    assert_eq!(run(&e, "/w", &reports(), "sub/rep"), strings(&["sub/report3.csv"]));
}

#[test]
fn prefix_matching_descends_into_directory() {
    let mut e = PathExpander::new();
    e.match_prefix = true;
    assert_eq!(run(&e, "/w", &reports(), "su"), strings(&["sub/report3.csv"]));
}

#[test]
fn expand_selected_walks_marked_entries() {
    let mut fs = FsView::new("/w".to_string());
    fs.insert("/w/a.txt".to_string(), Entry::File);
    fs.insert("/w/b.txt".to_string(), Entry::File);
    let e = PathExpander::new();
    let mut out = Vec::new();
    let entries = strings(&["/w/a.txt", "/w/b.txt"]);
    let cwd = "/w".to_string();
    let r = e.expand_selected(&fs, &mut out, &entries, &vec![false, true], Some(&cwd));
    assert_eq!(r, Ok(()));
    assert_eq!(out, strings(&["b.txt"]));
    let mut out2 = Vec::new();
    let r2 = e.expand_selected(&fs, &mut out2, &entries, &vec![true], None);
    assert_eq!(r2, Ok(()));
    assert_eq!(out2, strings(&["/w/a.txt"]));
}

#[test]
fn prefix_matching_ignores_trailing_separator() {
    let mut e = PathExpander::new();
    e.match_prefix = true;
    assert_eq!(run(&e, "/w", &reports(), "report/"), strings(&["report1.csv", "report2.csv"]));
    assert_eq!(run(&e, "/w", &reports(), "report/."), strings(&["report1.csv", "report2.csv"]));
}

#[test]
fn prefix_matching_normalises_parent() {
    let mut e = PathExpander::new();
    e.match_prefix = true;
    assert_eq!(run(&e, "/w", &reports(), "sub//rep"), strings(&["sub/report3.csv"]));
    assert_eq!(run(&e, "/w", &reports(), "sub/./rep"), strings(&["sub/report3.csv"]));
    assert_eq!(run(&e, "/w", &reports(), "/w//report2/"), strings(&["/w/report2.csv"]));
}

#[test]
fn prefix_matching_without_file_name_finds_nothing() {
    let disk = [Fake::Dir("/w", vec!["/w/a.txt"]), Fake::File("/w/a.txt")];
    let mut e = PathExpander::new();
    e.match_prefix = true;
    assert_eq!(run(&e, "/w", &disk, ""), Vec::<String>::new());
    assert_eq!(run(&e, "/w", &disk, "nothere/.."), Vec::<String>::new());
    assert_eq!(run(&e, "/w", &disk, "."), Vec::<String>::new());
}

#[test]
fn recorded_children_settle_in_one_round() {
    let mut fs = FsView::new("/w".to_string());
    fs.insert("d".to_string(), Entry::Dir(strings(&["d/a.txt", "d/b.txt"])));
    fs.insert("d/a.txt".to_string(), Entry::File);
    fs.insert("d/b.txt".to_string(), Entry::File);
    let e = PathExpander::new();
    assert_eq!(e.expand_input_path(&fs, "d"), Ok(strings(&["d/a.txt", "d/b.txt"])));
}
