use dirtree::order::name_less;
use dirtree::render::{prefix_text, Glyph};
use dirtree::walk::{count_entries, is_hidden_top_dir, sort_by_name, Entry, Ftype, Line, Stats, Traverser};

fn leaf(name: &str, ftype: Ftype) -> Entry {
    Entry { name: name.to_string(), ftype, children: vec![], error: None }
}

fn file(name: &str) -> Entry {
    leaf(name, Ftype::File)
}

fn link(name: &str) -> Entry {
    leaf(name, Ftype::Symlink)
}

fn dir(name: &str, children: Vec<Entry>) -> Entry {
    Entry { name: name.to_string(), ftype: Ftype::Directory, children, error: None }
}

fn run(children: Vec<Entry>) -> (Vec<String>, Stats) {
    run_root(dir(".", children))
}

fn run_root(root: Entry) -> (Vec<String>, Stats) {
    let mut t = Traverser::new(".".to_string());
    let lines = t.traverse(&root);
    (lines.iter().map(|l| l.text()).collect(), t.stats())
}

#[test]
fn three_entries_in_name_order() {
    let (lines, stats) = run(vec![file("c.txt"), dir("b", vec![]), file("a.txt")]);
    assert_eq!(lines, vec!["├── a.txt", "├── b", "└── c.txt"]);
    assert_eq!(stats, Stats { dirs: 1, files: 2, symlinks: 0 });
}

#[test]
fn single_symlink_is_last_and_not_followed() {
    let (lines, stats) = run(vec![dir("d", vec![link("to_file")])]);
    assert_eq!(lines, vec!["└── d", "    └── to_file"]);
    assert_eq!(stats, Stats { dirs: 1, files: 0, symlinks: 1 });
    assert_eq!(Traverser::get_ftype(true, true), Ftype::Symlink);
}

#[test]
fn symlink_children_are_ignored() {
    let mut l = link("loop");
    l.children = vec![file("inside")];
    let (lines, stats) = run(vec![l]);
    assert_eq!(lines, vec!["└── loop"]);
    assert_eq!(stats, Stats { dirs: 0, files: 0, symlinks: 1 });
}

#[test]
fn hidden_top_directory_counted_not_drawn() {
    let git = dir(".git", vec![file("HEAD"), file("config"), dir("objects", vec![])]);
    let (lines, stats) = run(vec![file("main.rs"), git]);
    assert_eq!(lines, vec!["└── main.rs"]);
    assert_eq!(stats, Stats { dirs: 1, files: 1, symlinks: 0 });
}

#[test]
fn hidden_names_below_top_and_hidden_files_are_drawn() {
    let (lines, stats) = run(vec![file(".env"), dir("a", vec![dir(".cache", vec![file("x")])])]);
    assert_eq!(lines, vec!["├── .env", "└── a", "    └── .cache", "        └── x"]);
    assert_eq!(stats, Stats { dirs: 2, files: 2, symlinks: 0 });
}

#[test]
fn finished_level_draws_blank_instead_of_bar() {
    let (lines, _) = run(vec![
        dir("b", vec![file("z")]),
        dir("a", vec![file("y"), dir("x", vec![file("w")])]),
    ]);
    assert_eq!(
        lines,
        vec!["├── a", "│   ├── x", "│   │   └── w", "│   └── y", "└── b", "    └── z"]
    );
}

#[test]
fn last_child_gets_corner_others_branch() {
    let (lines, _) = run(vec![file("3"), file("1"), file("2")]);
    assert_eq!(lines, vec!["├── 1", "├── 2", "└── 3"]);
}

#[test]
fn rows_match_counters() {
    let (lines, stats) = run(vec![
        dir("src", vec![file("lib.rs"), link("alias"), dir("deep", vec![file("m.rs")])]),
        link("latest"),
        file("README"),
    ]);
    let mut rows = 0;
    for l in &lines {
        if !l.starts_with("Error: ") {
            rows += 1;
        }
    }
    assert_eq!(rows, stats.dirs + stats.files + stats.symlinks);
    assert_eq!(stats, Stats { dirs: 2, files: 3, symlinks: 2 });
}

#[test]
fn order_is_bytewise_and_repeatable() {
    let tree = || vec![file("abc"), file("a"), file("_x"), file("B"), file("ab")];
    let (first, _) = run(tree());
    let (second, _) = run(tree());
    assert_eq!(first, vec!["├── B", "├── _x", "├── a", "├── ab", "└── abc"]);
    assert_eq!(first, second);
}

#[test]
fn failed_listing_is_reported_after_what_was_read() {
    let mut locked = dir("locked", vec![file("seen")]);
    locked.error = Some("permission denied".to_string());
    let (lines, stats) = run(vec![locked, file("z")]);
    assert_eq!(lines, vec!["├── locked", "│   └── seen", "Error: permission denied", "└── z"]);
    assert_eq!(stats, Stats { dirs: 1, files: 2, symlinks: 0 });
}

#[test]
fn failed_root_listing_is_reported() {
    let mut root = dir(".", vec![]);
    root.error = Some("no such directory".to_string());
    let (lines, stats) = run_root(root);
    assert_eq!(lines, vec!["Error: no such directory"]);
    assert_eq!(stats, Stats { dirs: 0, files: 0, symlinks: 0 });
}

#[test]
fn empty_tree_draws_nothing() {
    let (lines, stats) = run(vec![]);
    assert!(lines.is_empty());
    assert_eq!(stats, Stats { dirs: 0, files: 0, symlinks: 0 });
}

#[test]
fn rows_carry_glyphs_and_kind() {
    let mut t = Traverser::new("top".to_string());
    let lines = t.traverse(&dir(".", vec![dir("d", vec![link("l")])]));
    assert_eq!(t.start_dir, "top");
    match &lines[1] {
        Line::Row { glyphs, name, ftype } => {
            assert_eq!(glyphs, &vec![Glyph::Blank, Glyph::Last]);
            assert_eq!(name, "l");
            assert_eq!(*ftype, Ftype::Symlink);
        }
        Line::Failure { .. } => panic!("expected a row"),
    }
}

#[test]
fn classification() {
    assert_eq!(Traverser::get_ftype(true, false), Ftype::File);
    assert_eq!(Traverser::get_ftype(false, true), Ftype::Symlink);
    assert_eq!(Traverser::get_ftype(true, true), Ftype::Symlink);
    assert_eq!(Traverser::get_ftype(false, false), Ftype::Directory);
}

#[test]
fn basename_of_paths() {
    assert_eq!(Traverser::basename("./a/b.txt"), Some("b.txt".to_string()));
    assert_eq!(Traverser::basename("a/b//"), Some("b".to_string()));
    assert_eq!(Traverser::basename("name"), Some("name".to_string()));
    assert_eq!(Traverser::basename("./.git"), Some(".git".to_string()));
    assert_eq!(Traverser::basename("/"), None);
    assert_eq!(Traverser::basename(""), None);
    assert_eq!(Traverser::basename("."), None);
    assert_eq!(Traverser::basename("./"), None);
    assert_eq!(Traverser::basename("/."), None);
    assert_eq!(Traverser::basename("x/."), Some("x".to_string()));
    assert_eq!(Traverser::basename("x/.//"), Some("x".to_string()));
    assert_eq!(Traverser::basename("./b/."), Some("b".to_string()));
    assert_eq!(Traverser::basename("a/./."), Some("a".to_string()));
    assert_eq!(Traverser::basename("a."), Some("a.".to_string()));
    assert_eq!(Traverser::basename("a/.b"), Some(".b".to_string()));
    assert_eq!(Traverser::basename("a/.."), None);
}

#[test]
fn prefix_text_spacing() {
    assert_eq!(prefix_text(&vec![Glyph::Bar, Glyph::Blank, Glyph::Last]), "│       └──");
    assert_eq!(prefix_text(&vec![Glyph::Branch]), "├──");
    assert_eq!(prefix_text(&vec![]), "");
}

#[test]
fn ascii_row_follows_finished_levels() {
    let mut t = Traverser::new(".".to_string());
    t.finished_dirs = vec![true, false];
    assert_eq!(t.ascii_row(false), vec![Glyph::Blank, Glyph::Bar, Glyph::Branch]);
    assert_eq!(t.ascii_row(true), vec![Glyph::Blank, Glyph::Bar, Glyph::Last]);
}

#[test]
fn name_order() {
    assert!(name_less("a", "b"));
    assert!(name_less("ab", "abc"));
    assert!(!name_less("abc", "ab"));
    assert!(!name_less("a", "a"));
    assert!(name_less("Z", "a"));
    assert!(name_less("z", "é"));
}

#[test]
fn sort_keeps_equal_names_in_place() {
    let v = vec![file("b"), file("a"), file("b"), file("a")];
    assert_eq!(sort_by_name(&v), vec![1, 3, 0, 2]);
}

#[test]
fn counting_ahead_agrees_with_the_walk() {
    let tree = || {
        dir(".", vec![
            dir(".git", vec![file("HEAD")]),
            dir("src", vec![file("lib.rs"), link("alias")]),
            file("README"),
        ])
    };
    let ahead = count_entries(&tree());
    let (_, stats) = run_root(tree());
    assert_eq!(ahead, Some(stats));
    assert_eq!(stats, Stats { dirs: 2, files: 2, symlinks: 1 });
}

#[test]
fn hidden_only_at_top() {
    assert!(is_hidden_top_dir(&".git".to_string(), true));
    assert!(!is_hidden_top_dir(&".git".to_string(), false));
    assert!(!is_hidden_top_dir(&"git".to_string(), true));
    assert!(!is_hidden_top_dir(&"".to_string(), true));
}

#[test]
fn symlink_directory_beside_a_file() {
    let (lines, stats) = run(vec![file("f"), dir("d", vec![link("l")])]);
    assert_eq!(lines, vec!["├── d", "│   └── l", "└── f"]);
    assert_eq!(stats, Stats { dirs: 1, files: 1, symlinks: 1 });
}

#[test]
fn directory_rows_and_hidden_directories_make_the_directory_count() {
    let (lines, stats) = run(vec![
        dir(".git", vec![file("HEAD")]),
        dir(".cache", vec![]),
        dir("src", vec![dir("bin", vec![]), file("lib.rs"), link("l")]),
        file(".env"),
    ]);
    assert_eq!(lines, vec!["├── .env", "└── src", "    ├── bin", "    ├── l", "    └── lib.rs"]);
    let dir_rows = 2;
    let hidden = 2;
    assert_eq!(stats.dirs, dir_rows + hidden);
    assert_eq!(stats, Stats { dirs: 4, files: 2, symlinks: 1 });
}
