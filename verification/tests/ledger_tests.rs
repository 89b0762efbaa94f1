use file_index::ledger::FileDatabase;
use file_index::path::RelPath;
use file_index::paths::PathSet;

fn p(text: &str) -> RelPath {
    RelPath::new(text)
}

fn set_of(texts: &[&str]) -> PathSet {
    let mut set = PathSet::new();
    for t in texts {
        set.insert(p(t));
    }
    set
}

#[test]
fn new_ledger_is_empty() {
    let mut db = FileDatabase::new();
    assert_eq!(db.len(), 0);
    assert_eq!(db.num_changes(), 0);
    assert!(!db.has_changes());
    assert_eq!(db.get_hash(&p("a")), None);
    assert_eq!(db.save(), "");
}

#[test]
fn add_then_get() {
    let mut db = FileDatabase::new();
    db.add_file(&p("dir/file"), "abc");
    assert_eq!(db.get_hash(&p("dir/file")), Some("abc"));
    assert_eq!(db.get_hash(&p("dir//file")), Some("abc"));
    assert_eq!(db.get_hash(&p("dir/other")), None);
    assert_eq!(db.num_changes(), 1);
    assert!(db.has_changes());
}

#[test]
fn last_digest_stands_and_every_record_counts() {
    let mut db = FileDatabase::new();
    db.add_file(&p("f"), "one");
    db.add_file(&p("f"), "two");
    db.add_file(&p("f"), "two");
    assert_eq!(db.get_hash(&p("f")), Some("two"));
    assert_eq!(db.len(), 1);
    assert_eq!(db.num_changes(), 3);
    assert_eq!(db.save(), "two f");
}

#[test]
fn entry_keeps_the_text_it_was_first_written_with() {
    let mut db = FileDatabase::new();
    db.add_file(&p("a//b"), "one");
    db.add_file(&p("a/b"), "two");
    assert_eq!(db.save(), "two a//b");
}

#[test]
fn save_sorts_by_path_and_resets_the_count() {
    let mut db = FileDatabase::new();
    db.add_file(&p("b"), "2");
    db.add_file(&p("a-b"), "4");
    db.add_file(&p("a/b"), "3");
    db.add_file(&p("a"), "1");
    assert_eq!(db.num_changes(), 4);
    assert_eq!(db.len(), 4);
    assert_eq!(db.save(), "1 a\n3 a/b\n4 a-b\n2 b");
    assert_eq!(db.num_changes(), 0);
    assert!(!db.has_changes());
    assert_eq!(db.save(), "1 a\n3 a/b\n4 a-b\n2 b");
    assert_eq!(db.get_hash(&p("a/b")), Some("3"));
}

#[test]
fn load_reads_entries() {
    let db = FileDatabase::load("h1 x/y\nbroken\n\n  h2 z  \n");
    assert_eq!(db.num_changes(), 0);
    assert!(!db.has_changes());
    assert_eq!(db.get_hash(&p("x/y")), Some("h1"));
    assert_eq!(db.get_hash(&p("z")), Some("h2"));
    assert_eq!(db.get_hash(&p("broken")), None);
}

#[test]
fn load_lets_the_later_line_win() {
    let mut db = FileDatabase::load("h1 f\nh2 g\nh3 f\nh4 .//f\n");
    assert_eq!(db.get_hash(&p("f")), Some("h3"));
    assert_eq!(db.get_hash(&p("./f")), Some("h4"));
    assert_eq!(db.save(), "h4 .//f\nh3 f\nh2 g");
}

#[test]
fn load_keeps_the_text_of_the_earlier_line() {
    let mut db = FileDatabase::load("h1 a//b\nh2 a/b\n");
    assert_eq!(db.len(), 1);
    assert_eq!(db.get_hash(&p("a/b")), Some("h2"));
    assert_eq!(db.save(), "h2 a//b");
}

#[test]
fn save_then_load_gives_the_same_ledger() {
    let mut db = FileDatabase::new();
    db.add_file(&p("docs/read me.txt"), "0011");
    db.add_file(&p("a"), "ffee");
    db.add_file(&p("src/main.rs"), "1234");
    let text = db.save();
    let mut loaded = FileDatabase::load(&text);
    assert_eq!(loaded.get_hash(&p("docs/read me.txt")), Some("0011"));
    assert_eq!(loaded.get_hash(&p("a")), Some("ffee"));
    assert_eq!(loaded.get_hash(&p("src/main.rs")), Some("1234"));
    assert_eq!(loaded.get_hash(&p("b")), None);
    assert_eq!(loaded.num_changes(), 0);
    assert_eq!(loaded.save(), text);
    assert_eq!(text, "ffee a\n0011 docs/read me.txt\n1234 src/main.rs");
}

#[test]
fn empty_ledger_round_trip() {
    let mut db = FileDatabase::new();
    let text = db.save();
    let mut loaded = FileDatabase::load(&text);
    assert_eq!(loaded.save(), "");
}

#[test]
fn entry_that_is_not_storable_does_not_come_back() {
    let mut db = FileDatabase::new();
    db.add_file(&p("name "), "d1");
    db.add_file(&p("x"), "d 2");
    let text = db.save();
    let loaded = FileDatabase::load(&text);
    assert_eq!(loaded.get_hash(&p("name ")), None);
    assert_eq!(loaded.get_hash(&p("name")), Some("d1"));
    assert_eq!(loaded.get_hash(&p("x")), None);
    assert_eq!(loaded.get_hash(&p("2 x")), Some("d"));
}

#[test]
fn prune_removes_what_is_not_listed() {
    let mut db = FileDatabase::new();
    db.add_file(&p("a"), "1");
    db.add_file(&p("b"), "2");
    db.add_file(&p("c"), "3");
    db.add_file(&p("d"), "4");
    db.save();
    let removed = db.truncate_to_existing(&set_of(&["b", "d//", "e"]));
    let gone: Vec<&str> = removed.iter().map(|r| r.as_str()).collect();
    assert_eq!(gone, vec!["a", "c"]);
    assert_eq!(db.num_changes(), 2);
    assert_eq!(db.get_hash(&p("a")), None);
    assert_eq!(db.get_hash(&p("b")), Some("2"));
    assert_eq!(db.get_hash(&p("c")), None);
    assert_eq!(db.get_hash(&p("d")), Some("4"));
    assert_eq!(db.save(), "2 b\n4 d");
}

#[test]
fn prune_with_everything_listed_changes_nothing() {
    let mut db = FileDatabase::new();
    db.add_file(&p("a"), "1");
    db.add_file(&p("b"), "2");
    let removed = db.truncate_to_existing(&set_of(&["a", "b", "c"]));
    assert!(removed.is_empty());
    assert_eq!(db.num_changes(), 2);
    assert_eq!(db.save(), "1 a\n2 b");
}

#[test]
fn prune_against_nothing_removes_all() {
    let mut db = FileDatabase::load("1 a\n2 b\n3 c");
    let removed = db.truncate_to_existing(&PathSet::new());
    assert_eq!(removed.len(), 3);
    assert_eq!(db.num_changes(), 3);
    assert_eq!(db.save(), "");
}
