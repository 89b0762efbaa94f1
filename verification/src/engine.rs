//! Reconciliation: what is done for each file found, given what the ledger
//! holds for it and what the file's content hashes to.

use crate::format::{parse, render, Record};
use crate::ledger::FileDatabase;
use crate::path::{path_key, RelPath};
use crate::paths::{all_wf, texts, PathSet};
use crate::table::{build, kept, keys_of, record_paths, recorded, stale};
use crate::text::same_text;
use std::collections::VecDeque;
use vstd::prelude::*;

verus! {

/// What to do with a file that the ledger already has.
#[derive(Clone, Copy, Debug, PartialEq, Eq, Structural)]
pub enum ExistingFileAction {
    /// Trust the ledger.
    Nothing,
    /// Hash the file again and report a difference.
    Check,
    /// Hash the file again and record a difference.
    Update,
}

/// What was done for a file.
#[derive(Clone, Copy, Debug, PartialEq, Eq, Structural)]
pub enum Outcome {
    /// The ledger was left as it was.
    Unchanged,
    /// The file was new: its digest was recorded.
    Added,
    /// The file's digest had changed: the new one was recorded.
    Updated,
    /// The file's digest had changed: the ledger keeps the old one.
    Mismatch,
}

/// The number of changes above which the ledger is written out at once.
pub const FLUSH_THRESHOLD: usize = 10;

/// Whether a file has to be hashed: a file that the ledger does not have
/// always, one that it has unless the ledger is trusted.
pub open spec fn must_hash(action: ExistingFileAction, known: bool) -> bool {
    !known || action != ExistingFileAction::Nothing
}

/// Whether a file has to be hashed.
pub fn needs_hash(action: ExistingFileAction, known: bool) -> (r: bool)
    ensures
        r == must_hash(action, known),
{
    !known || action != ExistingFileAction::Nothing
}

/// What is done for a file whose recorded digest is `old` and whose content
/// hashes to `new`, where `None` stands for "no entry" and "not hashed".
pub open spec fn outcome_of(
    action: ExistingFileAction,
    old: Option<Seq<char>>,
    new: Option<Seq<char>>,
) -> Outcome {
    match (old, new) {
        (_, None) => Outcome::Unchanged,
        (None, Some(_)) => Outcome::Added,
        (Some(o), Some(n)) => {
            if action == ExistingFileAction::Nothing || o == n {
                Outcome::Unchanged
            } else if action == ExistingFileAction::Update {
                Outcome::Updated
            } else {
                Outcome::Mismatch
            }
        },
    }
}

/// Whether the outcome records a digest.
pub open spec fn writes(outcome: Outcome) -> bool {
    outcome == Outcome::Added || outcome == Outcome::Updated
}

/// Decides what is done for a file.
pub fn judge(action: ExistingFileAction, old: Option<&str>, new: Option<&str>) -> (outcome: Outcome)
    ensures
        outcome == outcome_of(
            action,
            match old {
                Some(o) => Some(o@),
                None => None,
            },
            match new {
                Some(n) => Some(n@),
                None => None,
            },
        ),
{
    match new {
        None => Outcome::Unchanged,
        Some(n) => match old {
            None => Outcome::Added,
            Some(o) => {
                if action == ExistingFileAction::Nothing || same_text(o, n) {
                    Outcome::Unchanged
                } else if action == ExistingFileAction::Update {
                    Outcome::Updated
                } else {
                    Outcome::Mismatch
                }
            },
        },
    }
}

/// The characters of a text that may be missing.
pub open spec fn text_of(s: Option<&str>) -> Option<Seq<char>> {
    match s {
        Some(t) => Some(t@),
        None => None,
    }
}

/// What a run has come to: the entries of the ledger, the changes not yet
/// written out, and whether a file was found to differ from its entry.
pub struct RunState {
    pub table: Map<Seq<u32>, Record>,
    pub changes: nat,
    pub failed: bool,
}

/// The digest that `table` holds for the path written as `f`.
pub open spec fn digest_in(table: Map<Seq<u32>, Record>, f: Seq<char>) -> Option<Seq<char>> {
    if table.contains_key(path_key(f)) {
        Some(table[path_key(f)].digest)
    } else {
        None
    }
}

/// The count of changes once the ledger was written out if the count was
/// above the threshold.
pub open spec fn settled(changes: nat) -> nat {
    if changes > FLUSH_THRESHOLD {
        0
    } else {
        changes
    }
}

/// The count of changes after a file was dealt with, before the ledger is
/// written out.
pub open spec fn pending(
    action: ExistingFileAction,
    s: RunState,
    f: Seq<char>,
    new: Option<Seq<char>>,
) -> nat {
    if writes(outcome_of(action, digest_in(s.table, f), new)) {
        s.changes + 1
    } else {
        s.changes
    }
}

/// Whether dealing with the file makes the ledger be written out.
pub open spec fn flushes(
    action: ExistingFileAction,
    s: RunState,
    f: Seq<char>,
    new: Option<Seq<char>>,
) -> bool {
    pending(action, s, f, new) > FLUSH_THRESHOLD
}

/// The run after `outcome` was carried out for the file at `f`, whose content
/// hashes to `new`: a digest is recorded where the outcome asks for it, the
/// ledger is written out if that leaves more changes waiting than the
/// threshold, and a difference that is only reported is noted.
pub open spec fn carried_out(
    s: RunState,
    f: Seq<char>,
    outcome: Outcome,
    new: Option<Seq<char>>,
) -> RunState {
    RunState {
        table: if writes(outcome) {
            recorded(s.table, f, new->0)
        } else {
            s.table
        },
        changes: settled(if writes(outcome) { s.changes + 1 } else { s.changes }),
        failed: s.failed || outcome == Outcome::Mismatch,
    }
}

/// The run after the file at `f` was dealt with, `new` being the digest of
/// its content if it was hashed.
pub open spec fn step(
    action: ExistingFileAction,
    s: RunState,
    f: Seq<char>,
    new: Option<Seq<char>>,
) -> RunState {
    carried_out(s, f, outcome_of(action, digest_in(s.table, f), new), new)
}

/// The run that has come to the ledger `db`, with or without a difference
/// found.
pub open spec fn run_of(db: FileDatabase, failed: bool) -> RunState {
    RunState { table: db@, changes: db.changes(), failed }
}

/// Records `record` for `f` if there is one, then writes the ledger out if
/// more than `FLUSH_THRESHOLD` changes are waiting: the text to write is
/// handed back.
pub fn commit(db: &mut FileDatabase, f: &RelPath, record: Option<&str>) -> (flushed: Option<String>)
    requires
        old(db).wf(),
        f.wf(),
        old(db).changes() < usize::MAX,
    ensures
        final(db).wf(),
        final(db)@ == match record {
            Some(hash) => recorded(old(db)@, f@, hash@),
            None => old(db)@,
        },
        final(db).changes() == settled(
            old(db).changes() + if record is Some { 1nat } else { 0nat },
        ),
        flushed is Some <==> old(db).changes() + if record is Some { 1nat } else { 0nat }
            > FLUSH_THRESHOLD,
        match flushed {
            Some(text) => text@ == render(final(db).records()),
            None => true,
        },
{
    match record {
        Some(hash) => {
            db.add_file(f, hash);
        },
        None => {},
    }
    if db.num_changes() > FLUSH_THRESHOLD {
        Some(db.save())
    } else {
        None
    }
}

/// What one run shares between its workers.
pub struct ThreadArgs {
    /// What to do with files that the ledger already has.
    pub existing_action: ExistingFileAction,
    /// Whether a file was found to differ from its entry.
    pub fail_due_to_difference: bool,
    /// The ledger.
    pub file_db: FileDatabase,
    /// The paths that wait to be dealt with.
    pub input_queue: VecDeque<RelPath>,
}

/// What dealing with one file came to.
pub struct Report {
    /// What was done.
    pub outcome: Outcome,
    /// The text of the ledger, where it has to be written out at once.
    pub flushed: Option<String>,
}

impl ThreadArgs {
    /// What the run has come to.
    pub open spec fn state(&self) -> RunState {
        run_of(self.file_db, self.fail_due_to_difference)
    }

    /// The start of a run: the ledger that `stored` holds, or an empty one
    /// where nothing is stored yet; no difference found so far; `files`
    /// waiting.
    pub fn new(
        existing_action: ExistingFileAction,
        stored: Option<&str>,
        files: VecDeque<RelPath>,
    ) -> (args: Self)
        ensures
            args.existing_action == existing_action,
            !args.fail_due_to_difference,
            args.input_queue == files,
            args.file_db.wf(),
            args.file_db.changes() == 0,
            args.file_db@ == match stored {
                Some(text) => build(parse(text@)),
                None => Map::<Seq<u32>, Record>::empty(),
            },
    {
        let file_db = match stored {
            Some(text) => FileDatabase::load(text),
            None => FileDatabase::new(),
        };
        ThreadArgs {
            existing_action,
            fail_due_to_difference: false,
            file_db,
            input_queue: files,
        }
    }
}

/// Settles the file at `f` on the digest `seen` in the ledger when the file
/// was looked up, `new_hash` being the digest of its content if it was
/// hashed: decides what is done, records a digest where one is due, and
/// writes the ledger out where enough changes are waiting. A difference that
/// is only reported shows in the outcome.
pub fn settle_file(
    db: &mut FileDatabase,
    action: ExistingFileAction,
    f: &RelPath,
    seen: Option<&str>,
    new_hash: Option<&str>,
) -> (report: Report)
    requires
        old(db).wf(),
        f.wf(),
        old(db).changes() < usize::MAX,
    ensures
        final(db).wf(),
        report.outcome == outcome_of(action, text_of(seen), text_of(new_hash)),
        run_of(*final(db), report.outcome == Outcome::Mismatch) == carried_out(
            run_of(*old(db), false),
            f@,
            report.outcome,
            text_of(new_hash),
        ),
        report.flushed is Some <==> (if writes(report.outcome) {
            old(db).changes() + 1
        } else {
            old(db).changes()
        }) > FLUSH_THRESHOLD,
        match report.flushed {
            Some(text) => text@ == render(final(db).records()),
            None => true,
        },
{
    let outcome = judge(action, seen, new_hash);
    let record = match outcome {
        Outcome::Added => new_hash,
        Outcome::Updated => new_hash,
        Outcome::Unchanged => None,
        Outcome::Mismatch => None,
    };
    let flushed = commit(db, f, record);
    Report { outcome, flushed }
}

/// Deals with the file at `f`, whose content hashes to `new_hash` if it was
/// hashed: looks up what the ledger holds for the file and settles the file
/// on it, and notes a difference that is only to be reported.
pub fn process_file(args: &mut ThreadArgs, f: &RelPath, new_hash: Option<&str>) -> (report: Report)
    requires
        old(args).file_db.wf(),
        f.wf(),
        old(args).file_db.changes() < usize::MAX,
    ensures
        final(args).file_db.wf(),
        final(args).existing_action == old(args).existing_action,
        final(args).input_queue == old(args).input_queue,
        final(args).state() == step(
            old(args).existing_action,
            old(args).state(),
            f@,
            text_of(new_hash),
        ),
        report.outcome == outcome_of(
            old(args).existing_action,
            digest_in(old(args).file_db@, f@),
            text_of(new_hash),
        ),
        report.flushed is Some <==> flushes(
            old(args).existing_action,
            old(args).state(),
            f@,
            text_of(new_hash),
        ),
        match report.flushed {
            Some(text) => text@ == render(final(args).file_db.records()),
            None => true,
        },
{
    let seen: Option<String> = match args.file_db.get_hash(f) {
        Some(digest) => Some(digest.to_owned()),
        None => None,
    };
    let report = settle_file(
        &mut args.file_db,
        args.existing_action,
        f,
        match &seen {
            Some(digest) => Some(digest.as_str()),
            None => None,
        },
        new_hash,
    );
    if report.outcome == Outcome::Mismatch {
        args.fail_due_to_difference = true;
    }
    report
}

/// What the end of a run came to.
pub struct Closing {
    /// The paths whose entries were removed, in path order.
    pub removed: Vec<RelPath>,
    /// The text of the ledger, where it has to be written out.
    pub saved: Option<String>,
}

/// Ends a run: removes the entries of files that were not found, if that was
/// asked for, and hands back the text of the ledger if changes are waiting.
pub fn close_run(db: &mut FileDatabase, files: &PathSet, remove_old_entries: bool) -> (closing:
    Closing)
    requires
        old(db).wf(),
        files.wf(),
        old(db).changes() + old(db).records().len() <= usize::MAX,
    ensures
        final(db).wf(),
        final(db).records() == if remove_old_entries {
            kept(old(db).records(), files@)
        } else {
            old(db).records()
        },
        final(db)@ == if remove_old_entries {
            old(db)@.restrict(keys_of(files@))
        } else {
            old(db)@
        },
        all_wf(closing.removed@),
        texts(closing.removed@) == if remove_old_entries {
            record_paths(stale(old(db).records(), files@))
        } else {
            Seq::<Seq<char>>::empty()
        },
        final(db).changes() == 0,
        closing.saved is Some <==> old(db).changes() + closing.removed@.len() > 0,
        match closing.saved {
            Some(text) => text@ == render(final(db).records()),
            None => true,
        },
{
    let removed = if remove_old_entries {
        db.truncate_to_existing(files)
    } else {
        let none: Vec<RelPath> = Vec::new();
        assert(texts(none@) =~= Seq::<Seq<char>>::empty());
        none
    };
    let saved = if db.has_changes() {
        Some(db.save())
    } else {
        None
    };
    Closing { removed, saved }
}

/// The exit status of a run: zero unless a file was found to differ from its
/// entry.
pub open spec fn exit_status(failed: bool) -> i32 {
    if failed {
        1
    } else {
        0
    }
}

/// The exit status of a run.
pub fn exit_code(failed: bool) -> (code: i32)
    ensures
        code == exit_status(failed),
{
    if failed {
        1
    } else {
        0
    }
}

} // verus!
