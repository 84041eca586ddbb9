use tgrep::walk::is_same_file;
use tgrep::walk::same_bytes;
use tgrep::walk::DirWalk;
use tgrep::walk::Entry;
use tgrep::walk::EntryKind;
use tgrep::walk::Listing;

fn file(path: &'static str) -> Entry<&'static str> {
    Entry { path, kind: EntryKind::File(Some(path.as_bytes().to_vec())) }
}

fn entry(path: &'static str, kind: EntryKind) -> Entry<&'static str> {
    Entry { path, kind }
}

#[test]
fn a_flat_walk_reads_the_root_only() {
    let mut walk = DirWalk::new("root", false, None);
    assert_eq!(walk.next_directory(), Some("root"));
    walk.absorb(Listing::Entries(vec![
        file("a"),
        entry("sub", EntryKind::Directory),
        file("b"),
    ]));
    assert_eq!(walk.next_directory(), None);
    assert_eq!(walk.into_files(), vec!["a", "b"]);
}

#[test]
fn a_deep_walk_is_breadth_first() {
    let mut walk = DirWalk::new("root", true, None);
    assert_eq!(walk.next_directory(), Some("root"));
    walk.absorb(Listing::Entries(vec![
        entry("x", EntryKind::Directory),
        file("a"),
        entry("y", EntryKind::Directory),
    ]));
    assert_eq!(walk.next_directory(), Some("x"));
    walk.absorb(Listing::Entries(vec![entry("x/z", EntryKind::Directory), file("x/b")]));
    assert_eq!(walk.next_directory(), Some("y"));
    walk.absorb(Listing::Entries(vec![file("y/c")]));
    assert_eq!(walk.next_directory(), Some("x/z"));
    walk.absorb(Listing::Entries(vec![file("x/z/d")]));
    assert_eq!(walk.next_directory(), None);
    assert_eq!(walk.into_files(), vec!["a", "x/b", "y/c", "x/z/d"]);
}

#[test]
fn an_unreadable_directory_is_passed_over() {
    let mut walk = DirWalk::new("root", true, None);
    walk.next_directory();
    walk.absorb(Listing::Entries(vec![
        entry("locked", EntryKind::Directory),
        entry("open", EntryKind::Directory),
    ]));
    assert_eq!(walk.next_directory(), Some("locked"));
    walk.absorb(Listing::Unreadable);
    assert_eq!(walk.next_directory(), Some("open"));
    walk.absorb(Listing::Entries(vec![file("open/a")]));
    assert_eq!(walk.next_directory(), None);
    assert_eq!(walk.into_files(), vec!["open/a"]);
}

#[test]
fn a_root_that_cannot_be_read_has_no_files() {
    let mut walk = DirWalk::new("root", true, None);
    walk.next_directory();
    walk.absorb(Listing::Unreadable);
    assert_eq!(walk.next_directory(), None);
    assert!(walk.into_files().is_empty());
    let mut walk = DirWalk::new("root", true, None);
    walk.next_directory();
    walk.absorb(Listing::Missing);
    assert_eq!(walk.next_directory(), None);
    assert!(walk.into_files().is_empty());
}

#[test]
fn the_output_is_left_out() {
    let mut walk = DirWalk::new("root", false, Some(b"out".to_vec()));
    walk.next_directory();
    walk.absorb(Listing::Entries(vec![file("a"), file("out"), file("out2")]));
    assert_eq!(walk.into_files(), vec!["a", "out2"]);
}

#[test]
fn a_link_to_the_output_is_left_out() {
    let mut walk = DirWalk::new("root", false, Some(b"out".to_vec()));
    walk.next_directory();
    walk.absorb_entry(entry("link", EntryKind::File(Some(b"out".to_vec()))));
    assert!(walk.into_files().is_empty());
}

#[test]
fn a_file_whose_place_is_not_known_is_scanned() {
    let mut walk = DirWalk::new("root", false, Some(b"out".to_vec()));
    walk.next_directory();
    walk.absorb_entry(entry("a", EntryKind::File(None)));
    assert_eq!(walk.into_files(), vec!["a"]);
    let mut walk = DirWalk::new("root", false, None);
    walk.next_directory();
    walk.absorb_entry(entry("a", EntryKind::File(None)));
    walk.absorb_entry(file("out"));
    assert_eq!(walk.into_files(), vec!["a", "out"]);
}

#[test]
fn other_entries_are_passed_over() {
    let mut walk = DirWalk::new("root", true, None);
    walk.next_directory();
    walk.absorb(Listing::Entries(vec![
        entry("gone", EntryKind::Vanished),
        entry("what", EntryKind::Unknown),
        entry("pipe", EntryKind::Other),
        file("a"),
    ]));
    assert_eq!(walk.next_directory(), None);
    assert_eq!(walk.into_files(), vec!["a"]);
}

#[test]
fn bytes_are_compared_one_by_one() {
    assert!(same_bytes(&vec![], &vec![]));
    assert!(same_bytes(&vec![1, 2], &vec![1, 2]));
    assert!(!same_bytes(&vec![1, 2], &vec![1, 3]));
    assert!(!same_bytes(&vec![1, 2], &vec![1, 2, 3]));
}

#[test]
fn an_unknown_place_is_not_that_of_the_output() {
    assert!(is_same_file(&Some(vec![1]), &Some(vec![1])));
    assert!(!is_same_file(&Some(vec![1]), &Some(vec![2])));
    assert!(!is_same_file(&None, &Some(vec![1])));
    assert!(!is_same_file(&Some(vec![1]), &None));
    assert!(!is_same_file(&None, &None));
}

#[test]
fn depth_never_falls_and_no_path_comes_twice() {
    let mut walk = DirWalk::new("r", true, None);
    let mut read: Vec<&'static str> = Vec::new();
    while let Some(dir) = walk.next_directory() {
        read.push(dir);
        let entries = match dir {
            "r" => vec![entry("r/a", EntryKind::Directory), entry("r/b", EntryKind::Directory)],
            "r/a" => vec![entry("r/a/c", EntryKind::Directory), file("r/a/f")],
            "r/b" => vec![file("r/b/f")],
            "r/a/c" => vec![file("r/a/c/f")],
            other => panic!("{}", other),
        };
        walk.absorb(Listing::Entries(entries));
    }
    let depth = |path: &str| path.matches('/').count();
    assert!(read.windows(2).all(|pair| depth(pair[0]) <= depth(pair[1])));
    let mut seen = walk.into_files();
    assert_eq!(seen, vec!["r/a/f", "r/b/f", "r/a/c/f"]);
    seen.extend(read);
    let count = seen.len();
    seen.sort();
    seen.dedup();
    assert_eq!(seen.len(), count);
}
