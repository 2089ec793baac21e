use luhnoxide::walk::{Entry, Enumeration, Visit};

fn file(path: &str) -> Entry {
    Entry { path: path.to_string(), is_directory: false }
}

fn dir(path: &str) -> Entry {
    Entry { path: path.to_string(), is_directory: true }
}

fn listing(path: &str) -> Vec<Entry> {
    match path {
        "root" => vec![file("root/a"), dir("root/sub"), file("root/z")],
        "root/sub" => vec![dir("root/sub/empty"), file("root/sub/b"), dir("root/sub/deep")],
        "root/sub/empty" => vec![],
        "root/sub/deep" => vec![file("root/sub/deep/c")],
        "other" => vec![file("other/d")],
        _ => panic!("not a directory: {}", path),
    }
}

fn run(inputs: Vec<Entry>) -> (Vec<String>, usize) {
    let mut walk = Enumeration::new(inputs);
    loop {
        match walk.visit_next() {
            Visit::Directory(path) => walk.enter(listing(&path)),
            Visit::Continue => {}
            Visit::Done => break,
        }
    }
    assert_eq!(walk.visit_next(), Visit::Done);
    (walk.files().clone(), walk.directories())
}

#[test]
fn directories_are_entered_depth_first() {
    let (files, directories) = run(vec![dir("root")]);
    assert_eq!(files, vec!["root/a", "root/sub/b", "root/sub/deep/c", "root/z"]);
    assert_eq!(directories, 4);
}

#[test]
fn inputs_are_taken_in_order() {
    let (files, directories) = run(vec![file("single"), dir("other"), file("last"), dir("root/sub/deep")]);
    assert_eq!(files, vec!["single", "other/d", "last", "root/sub/deep/c"]);
    assert_eq!(directories, 2);
}

#[test]
fn no_input_no_file() {
    let (files, directories) = run(vec![]);
    assert!(files.is_empty());
    assert_eq!(directories, 0);
}

#[test]
fn same_file_twice_is_two_targets() {
    let (files, directories) = run(vec![file("f"), file("f")]);
    assert_eq!(files, vec!["f", "f"]);
    assert_eq!(directories, 0);
}

#[test]
fn visits_one_entry_at_a_time() {
    let mut walk = Enumeration::new(vec![dir("other"), file("x")]);
    assert_eq!(walk.visit_next(), Visit::Directory("other".to_string()));
    assert_eq!(walk.directories(), 1);
    walk.enter(listing("other"));
    assert_eq!(walk.visit_next(), Visit::Continue);
    assert_eq!(walk.files(), &vec!["other/d".to_string()]);
    // The directory is left, then the next input is taken.
    assert_eq!(walk.visit_next(), Visit::Continue);
    assert_eq!(walk.files().len(), 1);
    assert_eq!(walk.visit_next(), Visit::Continue);
    assert_eq!(walk.files(), &vec!["other/d".to_string(), "x".to_string()]);
    assert_eq!(walk.visit_next(), Visit::Continue);
    assert_eq!(walk.visit_next(), Visit::Done);
}
