use file_index::digest::compute_hash;
use file_index::engine::{
    close_run, commit, exit_code, judge, needs_hash, process_file, settle_file,
    ExistingFileAction, Outcome, ThreadArgs, FLUSH_THRESHOLD,
};
use file_index::ledger::FileDatabase;
use file_index::path::RelPath;
use file_index::paths::PathSet;
use std::collections::VecDeque;

const ACTIONS: [ExistingFileAction; 3] =
    [ExistingFileAction::Nothing, ExistingFileAction::Check, ExistingFileAction::Update];

fn p(text: &str) -> RelPath {
    RelPath::new(text)
}

fn start(action: ExistingFileAction, stored: Option<&str>) -> ThreadArgs {
    ThreadArgs::new(action, stored, VecDeque::new())
}

/// One run over `files`, each hashed exactly when the rules ask for it.
/// Hands back the number of digests recorded and of times the ledger was
/// written out.
fn run(args: &mut ThreadArgs, files: &[(&str, &str)]) -> (usize, usize) {
    let mut recorded = 0;
    let mut flushed = 0;
    for (name, content) in files {
        let f = p(name);
        let known = args.file_db.get_hash(&f).is_some();
        let hash = if needs_hash(args.existing_action, known) {
            Some(compute_hash(content.as_bytes()))
        } else {
            None
        };
        let report = process_file(args, &f, hash.as_deref());
        if report.outcome == Outcome::Added || report.outcome == Outcome::Updated {
            recorded += 1;
        }
        if report.flushed.is_some() {
            flushed += 1;
        }
    }
    (recorded, flushed)
}

#[test]
fn threshold_is_ten() {
    assert_eq!(FLUSH_THRESHOLD, 10);
}

#[test]
fn which_files_are_hashed() {
    assert!(needs_hash(ExistingFileAction::Nothing, false));
    assert!(needs_hash(ExistingFileAction::Check, false));
    assert!(needs_hash(ExistingFileAction::Update, false));
    assert!(!needs_hash(ExistingFileAction::Nothing, true));
    assert!(needs_hash(ExistingFileAction::Check, true));
    assert!(needs_hash(ExistingFileAction::Update, true));
}

#[test]
fn what_is_done_for_a_file() {
    for action in ACTIONS {
        assert_eq!(judge(action, None, Some("n")), Outcome::Added);
        assert_eq!(judge(action, None, None), Outcome::Unchanged);
        assert_eq!(judge(action, Some("o"), None), Outcome::Unchanged);
        assert_eq!(judge(action, Some("same"), Some("same")), Outcome::Unchanged);
    }
    assert_eq!(judge(ExistingFileAction::Nothing, Some("o"), Some("n")), Outcome::Unchanged);
    assert_eq!(judge(ExistingFileAction::Check, Some("o"), Some("n")), Outcome::Mismatch);
    assert_eq!(judge(ExistingFileAction::Update, Some("o"), Some("n")), Outcome::Updated);
}

#[test]
fn start_of_a_run() {
    let mut queue = VecDeque::new();
    queue.push_back(p("a"));
    let args = ThreadArgs::new(ExistingFileAction::Check, Some("h1 a\nh2 b"), queue);
    assert_eq!(args.existing_action, ExistingFileAction::Check);
    assert!(!args.fail_due_to_difference);
    assert_eq!(args.input_queue.len(), 1);
    assert_eq!(args.file_db.get_hash(&p("b")), Some("h2"));
    assert_eq!(args.file_db.num_changes(), 0);
    let args = start(ExistingFileAction::Nothing, None);
    assert_eq!(args.file_db.get_hash(&p("a")), None);
    assert!(args.input_queue.is_empty());
}

#[test]
fn new_file_is_added_whatever_the_policy() {
    for action in ACTIONS {
        let mut args = start(action, Some("h1 other"));
        let report = process_file(&mut args, &p("new"), Some("fresh"));
        assert_eq!(report.outcome, Outcome::Added);
        assert!(report.flushed.is_none());
        assert_eq!(args.file_db.get_hash(&p("new")), Some("fresh"));
        assert_eq!(args.file_db.get_hash(&p("other")), Some("h1"));
        assert_eq!(args.file_db.num_changes(), 1);
        assert!(!args.fail_due_to_difference);
    }
}

#[test]
fn known_file_is_trusted_when_nothing_is_asked() {
    let mut args = start(ExistingFileAction::Nothing, Some("old f"));
    let report = process_file(&mut args, &p("f"), None);
    assert_eq!(report.outcome, Outcome::Unchanged);
    let report = process_file(&mut args, &p("f"), Some("different"));
    assert_eq!(report.outcome, Outcome::Unchanged);
    assert_eq!(args.file_db.get_hash(&p("f")), Some("old"));
    assert_eq!(args.file_db.num_changes(), 0);
    assert!(!args.fail_due_to_difference);
}

#[test]
fn check_reports_and_keeps_the_entry() {
    let mut args = start(ExistingFileAction::Check, Some("old f\nsame g"));
    let report = process_file(&mut args, &p("g"), Some("same"));
    assert_eq!(report.outcome, Outcome::Unchanged);
    assert!(!args.fail_due_to_difference);
    assert_eq!(exit_code(args.fail_due_to_difference), 0);
    let report = process_file(&mut args, &p("f"), Some("new"));
    assert_eq!(report.outcome, Outcome::Mismatch);
    assert!(report.flushed.is_none());
    assert_eq!(args.file_db.get_hash(&p("f")), Some("old"));
    assert_eq!(args.file_db.num_changes(), 0);
    assert!(!args.file_db.has_changes());
    assert!(args.fail_due_to_difference);
    assert_ne!(exit_code(args.fail_due_to_difference), 0);
    let report = process_file(&mut args, &p("g"), Some("same"));
    assert_eq!(report.outcome, Outcome::Unchanged);
    assert!(args.fail_due_to_difference);
}

#[test]
fn update_records_the_new_digest() {
    let mut args = start(ExistingFileAction::Update, Some("old f\nsame g"));
    let report = process_file(&mut args, &p("f"), Some("new"));
    assert_eq!(report.outcome, Outcome::Updated);
    assert_eq!(args.file_db.get_hash(&p("f")), Some("new"));
    assert_eq!(args.file_db.num_changes(), 1);
    let report = process_file(&mut args, &p("g"), Some("same"));
    assert_eq!(report.outcome, Outcome::Unchanged);
    assert_eq!(args.file_db.num_changes(), 1);
    assert!(!args.fail_due_to_difference);
    assert_eq!(exit_code(args.fail_due_to_difference), 0);
}

#[test]
fn exit_status() {
    assert_eq!(exit_code(false), 0);
    assert_eq!(exit_code(true), 1);
}

#[test]
fn eleventh_change_writes_the_ledger_out() {
    let mut args = start(ExistingFileAction::Nothing, None);
    for i in 0..10 {
        let report = process_file(&mut args, &p(&format!("f{:02}", i)), Some("d"));
        assert!(report.flushed.is_none(), "change {}", i + 1);
        assert_eq!(args.file_db.num_changes(), i + 1);
    }
    let report = process_file(&mut args, &p("f10"), Some("d"));
    let text = report.flushed.unwrap();
    assert_eq!(text.lines().count(), 11);
    assert!(text.starts_with("d f00\nd f01\n"));
    assert!(text.ends_with("\nd f10"));
    assert_eq!(args.file_db.num_changes(), 0);
    let report = process_file(&mut args, &p("f11"), Some("d"));
    assert!(report.flushed.is_none());
    assert_eq!(args.file_db.num_changes(), 1);
}

#[test]
fn settle_goes_by_what_was_seen() {
    let mut db = FileDatabase::load("old f");
    let f = p("f");
    let report = settle_file(&mut db, ExistingFileAction::Update, &f, Some("old"), Some("new"));
    assert_eq!(report.outcome, Outcome::Updated);
    assert_eq!(db.get_hash(&p("f")), Some("new"));
    assert_eq!(db.num_changes(), 1);
    let report = settle_file(&mut db, ExistingFileAction::Check, &f, Some("new"), Some("other"));
    assert_eq!(report.outcome, Outcome::Mismatch);
    assert_eq!(db.get_hash(&p("f")), Some("new"));
    assert_eq!(db.num_changes(), 1);
    let report = settle_file(&mut db, ExistingFileAction::Check, &p("g"), None, Some("fresh"));
    assert_eq!(report.outcome, Outcome::Added);
    assert!(report.flushed.is_none());
    assert_eq!(db.get_hash(&p("g")), Some("fresh"));
    assert_eq!(db.num_changes(), 2);
    let report = settle_file(&mut db, ExistingFileAction::Nothing, &p("g"), Some("fresh"), None);
    assert_eq!(report.outcome, Outcome::Unchanged);
    assert_eq!(db.num_changes(), 2);
}

/// Workers that look files up and settle them in turns: all look up first,
/// then settle in another order.
#[test]
fn shared_run_ends_as_a_run_alone() {
    let stored = format!("{} a\nstale b", compute_hash(b"1"));
    let files = [("a", "1"), ("b", "2"), ("c", "3")];
    for action in ACTIONS {
        let mut alone = start(action, Some(&stored));
        run(&mut alone, &files);

        let mut db = FileDatabase::load(&stored);
        let mut failed = false;
        let seen: Vec<Option<String>> =
            files.iter().map(|(n, _)| db.get_hash(&p(n)).map(|s| s.to_owned())).collect();
        for i in [2, 0, 1] {
            let (name, content) = files[i];
            let hash = if needs_hash(action, seen[i].is_some()) {
                Some(compute_hash(content.as_bytes()))
            } else {
                None
            };
            let report =
                settle_file(&mut db, action, &p(name), seen[i].as_deref(), hash.as_deref());
            failed = failed || report.outcome == Outcome::Mismatch;
        }
        assert_eq!(failed, alone.fail_due_to_difference);
        assert_eq!(db.num_changes(), alone.file_db.num_changes());
        assert_eq!(db.save(), alone.file_db.save());
    }
}

#[test]
fn commit_counts_and_flushes() {
    let mut db = FileDatabase::new();
    assert!(commit(&mut db, &p("a"), None).is_none());
    assert_eq!(db.num_changes(), 0);
    for i in 0..10 {
        assert!(commit(&mut db, &p("a"), Some("x")).is_none());
        assert_eq!(db.num_changes(), i + 1);
    }
    assert!(commit(&mut db, &p("b"), None).is_none());
    assert_eq!(db.num_changes(), 10);
    assert_eq!(commit(&mut db, &p("a"), Some("y")), Some("y a".to_string()));
    assert_eq!(db.num_changes(), 0);
}

#[test]
fn more_than_ten_changes_flush_before_the_end() {
    let names: Vec<String> = (0..25).map(|i| format!("dir/file{:02}", i)).collect();
    let files: Vec<(&str, &str)> = names.iter().map(|n| (n.as_str(), "content")).collect();
    let mut args = start(ExistingFileAction::Nothing, None);
    let (recorded, flushed) = run(&mut args, &files);
    assert_eq!(recorded, 25);
    assert_eq!(flushed, 2);
    assert_eq!(args.file_db.num_changes(), 3);
    let mut args = start(ExistingFileAction::Nothing, None);
    let (recorded, flushed) = run(&mut args, &files[..10]);
    assert_eq!((recorded, flushed), (10, 0));
    assert_eq!(args.file_db.num_changes(), 10);
}

#[test]
fn second_run_changes_nothing() {
    let files = [("a", "1"), ("b/c", "2"), ("b/d", "3")];
    let mut set = PathSet::new();
    for (name, _) in files.iter() {
        set.insert(p(name));
    }
    let mut args = start(ExistingFileAction::Nothing, None);
    assert_eq!(run(&mut args, &files), (3, 0));
    let closing = close_run(&mut args.file_db, &set, true);
    let text = closing.saved.unwrap();
    assert!(closing.removed.is_empty());

    let mut args = start(ExistingFileAction::Nothing, Some(&text));
    assert_eq!(run(&mut args, &files), (0, 0));
    assert!(!args.file_db.has_changes());
    let closing = close_run(&mut args.file_db, &set, true);
    assert!(closing.saved.is_none());
    assert!(closing.removed.is_empty());
    assert_eq!(args.file_db.save(), text);
}

#[test]
fn run_with_check_finds_the_changed_file() {
    let first = [("a", "1"), ("b", "2")];
    let mut args = start(ExistingFileAction::Nothing, None);
    run(&mut args, &first);
    let text = args.file_db.save();
    assert_eq!(
        text,
        format!("{} a\n{} b", compute_hash(b"1"), compute_hash(b"2"))
    );

    let second = [("a", "1"), ("b", "changed")];
    let mut args = start(ExistingFileAction::Check, Some(&text));
    assert_eq!(run(&mut args, &second), (0, 0));
    assert!(args.fail_due_to_difference);
    assert_eq!(args.file_db.get_hash(&p("b")), Some(compute_hash(b"2").as_str()));
    assert_eq!(exit_code(args.fail_due_to_difference), 1);

    let mut args = start(ExistingFileAction::Update, Some(&text));
    assert_eq!(run(&mut args, &second), (1, 0));
    assert!(!args.fail_due_to_difference);
    assert_eq!(args.file_db.get_hash(&p("b")), Some(compute_hash(b"changed").as_str()));
    assert_eq!(exit_code(args.fail_due_to_difference), 0);
}

#[test]
fn order_of_files_does_not_matter() {
    let stored = format!("{} a\nstale b\n{} gone", compute_hash(b"1"), compute_hash(b"9"));
    let files = [("a", "1"), ("b", "2"), ("c", "3"), ("d", "4")];
    let mut turned = files;
    turned.reverse();
    for action in ACTIONS {
        let mut one = start(action, Some(&stored));
        let mut two = start(action, Some(&stored));
        assert_eq!(run(&mut one, &files), run(&mut two, &turned));
        assert_eq!(one.fail_due_to_difference, two.fail_due_to_difference);
        assert_eq!(one.file_db.num_changes(), two.file_db.num_changes());
        assert_eq!(one.file_db.save(), two.file_db.save());
    }
}

#[test]
fn end_of_a_run_prunes_and_saves() {
    let mut set = PathSet::new();
    set.insert(p("keep"));
    let mut db = FileDatabase::load("1 keep\n2 lost");
    let closing = close_run(&mut db, &set, false);
    assert!(closing.removed.is_empty());
    assert!(closing.saved.is_none());
    assert_eq!(db.get_hash(&p("lost")), Some("2"));

    let closing = close_run(&mut db, &set, true);
    assert_eq!(closing.removed.len(), 1);
    assert_eq!(closing.removed[0].as_str(), "lost");
    assert_eq!(closing.saved, Some("1 keep".to_string()));
    assert_eq!(db.num_changes(), 0);
    assert_eq!(db.get_hash(&p("lost")), None);
}
