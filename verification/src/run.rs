//! A whole run, as a specification: the files found are dealt with one after
//! the other, each hashed exactly when the rules ask for it. What holds of
//! every run is stated and proved here.

use crate::engine::{
    digest_in, exit_status, flushes, must_hash, outcome_of, pending, step, writes,
    ExistingFileAction, Outcome, RunState, FLUSH_THRESHOLD,
};
use crate::format::Record;
use crate::path::path_key;
use vstd::prelude::*;
use vstd::seq_lib::{to_multiset_build, to_multiset_contains, to_multiset_len, to_multiset_remove};

verus! {

/// The digest handed to the rules for the file at `f`: that of its content
/// in `tree` if the file has to be hashed, none otherwise.
pub open spec fn fresh(
    action: ExistingFileAction,
    s: RunState,
    f: Seq<char>,
    tree: spec_fn(Seq<char>) -> Seq<char>,
) -> Option<Seq<char>> {
    if must_hash(action, s.table.contains_key(path_key(f))) {
        Some(tree(f))
    } else {
        None
    }
}

/// The run after the file at `f` was dealt with.
pub open spec fn visit(
    action: ExistingFileAction,
    s: RunState,
    f: Seq<char>,
    tree: spec_fn(Seq<char>) -> Seq<char>,
) -> RunState {
    step(action, s, f, fresh(action, s, f, tree))
}

/// The run after the files at `paths` were dealt with, in that order.
pub open spec fn reconcile(
    action: ExistingFileAction,
    s: RunState,
    paths: Seq<Seq<char>>,
    tree: spec_fn(Seq<char>) -> Seq<char>,
) -> RunState
    decreases paths.len(),
{
    if paths.len() == 0 {
        s
    } else {
        visit(action, reconcile(action, s, paths.drop_last(), tree), paths.last(), tree)
    }
}

/// Whether dealing with the file at `f` records a digest.
pub open spec fn records_at(
    action: ExistingFileAction,
    s: RunState,
    f: Seq<char>,
    tree: spec_fn(Seq<char>) -> Seq<char>,
) -> bool {
    writes(outcome_of(action, digest_in(s.table, f), fresh(action, s, f, tree)))
}

/// How many of the files had a digest recorded.
pub open spec fn writes_in(
    action: ExistingFileAction,
    s: RunState,
    paths: Seq<Seq<char>>,
    tree: spec_fn(Seq<char>) -> Seq<char>,
) -> nat
    decreases paths.len(),
{
    if paths.len() == 0 {
        0
    } else {
        let before = reconcile(action, s, paths.drop_last(), tree);
        writes_in(action, s, paths.drop_last(), tree) + if records_at(
            action,
            before,
            paths.last(),
            tree,
        ) {
            1nat
        } else {
            0nat
        }
    }
}

/// How many times the ledger was written out while the files were dealt with.
pub open spec fn flushes_in(
    action: ExistingFileAction,
    s: RunState,
    paths: Seq<Seq<char>>,
    tree: spec_fn(Seq<char>) -> Seq<char>,
) -> nat
    decreases paths.len(),
{
    if paths.len() == 0 {
        0
    } else {
        let before = reconcile(action, s, paths.drop_last(), tree);
        let f = paths.last();
        flushes_in(action, s, paths.drop_last(), tree) + if flushes(
            action,
            before,
            f,
            fresh(action, before, f, tree),
        ) {
            1nat
        } else {
            0nat
        }
    }
}

/// A file that has no entry gets one, with the digest of its content and
/// under the text it was found with, whatever is to be done with files that
/// have an entry; one change is counted and no difference is noted.
pub proof fn law_new_file_is_added(
    action: ExistingFileAction,
    s: RunState,
    f: Seq<char>,
    digest: Seq<char>,
)
    requires
        !s.table.contains_key(path_key(f)),
    ensures
        outcome_of(action, digest_in(s.table, f), Some(digest)) == Outcome::Added,
        step(action, s, f, Some(digest)).table == s.table.insert(
            path_key(f),
            Record { path: f, digest },
        ),
        pending(action, s, f, Some(digest)) == s.changes + 1,
        step(action, s, f, Some(digest)).failed == s.failed,
{
}

/// Checking a file whose content no longer has the recorded digest leaves
/// the ledger as it was and notes the difference, so that the run ends with
/// a status that is not zero.
pub proof fn law_check_keeps_entry(s: RunState, f: Seq<char>, digest: Seq<char>)
    requires
        s.table.contains_key(path_key(f)),
        s.table[path_key(f)].digest != digest,
    ensures
        outcome_of(ExistingFileAction::Check, digest_in(s.table, f), Some(digest))
            == Outcome::Mismatch,
        step(ExistingFileAction::Check, s, f, Some(digest)).table == s.table,
        pending(ExistingFileAction::Check, s, f, Some(digest)) == s.changes,
        step(ExistingFileAction::Check, s, f, Some(digest)).failed,
        exit_status(step(ExistingFileAction::Check, s, f, Some(digest)).failed) != 0,
{
}

/// Updating a file whose content no longer has the recorded digest records
/// the new digest under the text that the entry had, counts one change and
/// notes no difference.
pub proof fn law_update_records_digest(s: RunState, f: Seq<char>, digest: Seq<char>)
    requires
        s.table.contains_key(path_key(f)),
        s.table[path_key(f)].digest != digest,
    ensures
        outcome_of(ExistingFileAction::Update, digest_in(s.table, f), Some(digest))
            == Outcome::Updated,
        step(ExistingFileAction::Update, s, f, Some(digest)).table == s.table.insert(
            path_key(f),
            Record { path: s.table[path_key(f)].path, digest },
        ),
        pending(ExistingFileAction::Update, s, f, Some(digest)) == s.changes + 1,
        step(ExistingFileAction::Update, s, f, Some(digest)).failed == s.failed,
        !s.failed ==> exit_status(step(ExistingFileAction::Update, s, f, Some(digest)).failed) == 0,
{
}

/// A run removes no entry, and gives every file it deals with an entry.
pub proof fn lemma_run_covers(
    action: ExistingFileAction,
    s: RunState,
    paths: Seq<Seq<char>>,
    tree: spec_fn(Seq<char>) -> Seq<char>,
)
    ensures
        forall|key: Seq<u32>|
            s.table.contains_key(key) ==> #[trigger] reconcile(
                action,
                s,
                paths,
                tree,
            ).table.contains_key(key),
        forall|i: int|
            0 <= i < paths.len() ==> reconcile(action, s, paths, tree).table.contains_key(
                path_key(#[trigger] paths[i]),
            ),
    decreases paths.len(),
{
    if paths.len() > 0 {
        let front = paths.drop_last();
        lemma_run_covers(action, s, front, tree);
        let before = reconcile(action, s, front, tree);
        let after = reconcile(action, s, paths, tree);
        assert forall|i: int| 0 <= i < paths.len() implies after.table.contains_key(
            path_key(#[trigger] paths[i]),
        ) by {
            if i < front.len() {
                assert(front[i] == paths[i]);
                assert(before.table.contains_key(path_key(front[i])));
            }
        }
    }
}

/// A run that trusts the ledger, over files that all have an entry, with no
/// more changes waiting than the threshold, does nothing.
pub proof fn lemma_run_is_quiet(
    s: RunState,
    paths: Seq<Seq<char>>,
    tree: spec_fn(Seq<char>) -> Seq<char>,
)
    requires
        s.changes <= FLUSH_THRESHOLD,
        forall|i: int| 0 <= i < paths.len() ==> s.table.contains_key(path_key(#[trigger] paths[i])),
    ensures
        reconcile(ExistingFileAction::Nothing, s, paths, tree) == s,
        writes_in(ExistingFileAction::Nothing, s, paths, tree) == 0,
        flushes_in(ExistingFileAction::Nothing, s, paths, tree) == 0,
    decreases paths.len(),
{
    if paths.len() > 0 {
        let front = paths.drop_last();
        assert forall|i: int| 0 <= i < front.len() implies s.table.contains_key(
            path_key(#[trigger] front[i]),
        ) by {
            assert(front[i] == paths[i]);
        }
        lemma_run_is_quiet(s, front, tree);
        assert(s.table.contains_key(path_key(paths[paths.len() - 1])));
    }
}

/// Running twice: once a run is over and the ledger is written out, a second
/// run over the same files that trusts the ledger records nothing, writes
/// nothing out and leaves the ledger as the first run left it, whatever the
/// files hold by then.
pub proof fn law_second_run_is_quiet(
    action: ExistingFileAction,
    s: RunState,
    paths: Seq<Seq<char>>,
    tree: spec_fn(Seq<char>) -> Seq<char>,
    later: spec_fn(Seq<char>) -> Seq<char>,
)
    ensures
        ({
            let first = reconcile(action, s, paths, tree);
            let saved = RunState { table: first.table, changes: 0, failed: false };
            &&& writes_in(ExistingFileAction::Nothing, saved, paths, later) == 0
            &&& flushes_in(ExistingFileAction::Nothing, saved, paths, later) == 0
            &&& reconcile(ExistingFileAction::Nothing, saved, paths, later) == saved
        }),
{
    lemma_run_covers(action, s, paths, tree);
    let first = reconcile(action, s, paths, tree);
    let saved = RunState { table: first.table, changes: 0, failed: false };
    lemma_run_is_quiet(saved, paths, later);
}

/// The changes of a run are all accounted for: those that waited at the
/// start and those that the run made are either written out, one more than
/// the threshold at a time, or still waiting at the end, and no more than the
/// threshold are. So a run that records more digests than the threshold
/// writes the ledger out at least once before it ends.
pub proof fn law_flush_threshold(
    action: ExistingFileAction,
    s: RunState,
    paths: Seq<Seq<char>>,
    tree: spec_fn(Seq<char>) -> Seq<char>,
)
    requires
        s.changes <= FLUSH_THRESHOLD,
    ensures
        reconcile(action, s, paths, tree).changes <= FLUSH_THRESHOLD,
        s.changes + writes_in(action, s, paths, tree) == (FLUSH_THRESHOLD + 1) * flushes_in(
            action,
            s,
            paths,
            tree,
        ) + reconcile(action, s, paths, tree).changes,
        writes_in(action, s, paths, tree) > FLUSH_THRESHOLD ==> flushes_in(action, s, paths, tree)
            >= 1,
    decreases paths.len(),
{
    if paths.len() > 0 {
        law_flush_threshold(action, s, paths.drop_last(), tree);
    }
}

/// Dealing with one file leaves the entry of every other path as it was: what
/// the ledger held for a file when it was looked up is what it holds when
/// the file's digest comes to be recorded, whatever was done for other files
/// in between.
pub proof fn law_other_entries_untouched(
    action: ExistingFileAction,
    s: RunState,
    x: Seq<char>,
    y: Seq<char>,
    new: Option<Seq<char>>,
)
    requires
        path_key(x) != path_key(y),
    ensures
        digest_in(step(action, s, x, new).table, y) == digest_in(s.table, y),
        step(action, s, x, new).table.contains_key(path_key(y)) == s.table.contains_key(
            path_key(y),
        ),
{
}

/// No two of the paths are the same path.
pub open spec fn distinct(paths: Seq<Seq<char>>) -> bool {
    forall|i: int, j: int|
        0 <= i < j < paths.len() ==> path_key(#[trigger] paths[i]) != path_key(#[trigger] paths[j])
}

/// What is done for a file depends on the entries and on the note of a
/// difference, not on the count of changes.
proof fn lemma_visit_respects(
    action: ExistingFileAction,
    s1: RunState,
    s2: RunState,
    f: Seq<char>,
    tree: spec_fn(Seq<char>) -> Seq<char>,
)
    requires
        s1.table == s2.table,
        s1.failed == s2.failed,
    ensures
        visit(action, s1, f, tree).table == visit(action, s2, f, tree).table,
        visit(action, s1, f, tree).failed == visit(action, s2, f, tree).failed,
        records_at(action, s1, f, tree) == records_at(action, s2, f, tree),
{
}

/// Two files that are not the same path can be dealt with in either order.
proof fn lemma_visit_commutes(
    action: ExistingFileAction,
    s: RunState,
    x: Seq<char>,
    y: Seq<char>,
    tree: spec_fn(Seq<char>) -> Seq<char>,
)
    requires
        path_key(x) != path_key(y),
    ensures
        visit(action, visit(action, s, x, tree), y, tree).table == visit(
            action,
            visit(action, s, y, tree),
            x,
            tree,
        ).table,
        visit(action, visit(action, s, x, tree), y, tree).failed == visit(
            action,
            visit(action, s, y, tree),
            x,
            tree,
        ).failed,
        records_at(action, visit(action, s, x, tree), y, tree) == records_at(action, s, y, tree),
        records_at(action, visit(action, s, y, tree), x, tree) == records_at(action, s, x, tree),
{
    let xy = visit(action, visit(action, s, x, tree), y, tree);
    let yx = visit(action, visit(action, s, y, tree), x, tree);
    assert(xy.table =~= yx.table);
}

/// A file that is dealt with before others that are not the same path may as
/// well be dealt with after them.
proof fn lemma_move_last(
    action: ExistingFileAction,
    s: RunState,
    front: Seq<Seq<char>>,
    x: Seq<char>,
    back: Seq<Seq<char>>,
    tree: spec_fn(Seq<char>) -> Seq<char>,
)
    requires
        forall|i: int| 0 <= i < back.len() ==> path_key(#[trigger] back[i]) != path_key(x),
    ensures
        reconcile(action, s, front.push(x) + back, tree).table == reconcile(
            action,
            s,
            (front + back).push(x),
            tree,
        ).table,
        reconcile(action, s, front.push(x) + back, tree).failed == reconcile(
            action,
            s,
            (front + back).push(x),
            tree,
        ).failed,
        writes_in(action, s, front.push(x) + back, tree) == writes_in(
            action,
            s,
            (front + back).push(x),
            tree,
        ),
    decreases back.len(),
{
    let early = front.push(x) + back;
    let late = (front + back).push(x);
    if back.len() == 0 {
        assert(early =~= late);
    } else {
        let y = back.last();
        let rest = back.drop_last();
        assert(early.drop_last() =~= front.push(x) + rest);
        assert(early.last() == y);
        assert(late.drop_last() =~= front + back);
        assert((front + back).drop_last() =~= front + rest);
        assert((front + back).last() == y);
        assert((front + rest).push(x).drop_last() =~= front + rest);
        assert forall|i: int| 0 <= i < rest.len() implies path_key(#[trigger] rest[i]) != path_key(
            x,
        ) by {
            assert(rest[i] == back[i]);
        }
        lemma_move_last(action, s, front, x, rest, tree);
        let base = reconcile(action, s, front + rest, tree);
        let one = reconcile(action, s, front.push(x) + rest, tree);
        let two = reconcile(action, s, (front + rest).push(x), tree);
        let mid = reconcile(action, s, front + back, tree);
        assert(two == visit(action, base, x, tree));
        assert(mid == visit(action, base, y, tree));
        assert(reconcile(action, s, early, tree) == visit(action, one, y, tree));
        assert(reconcile(action, s, late, tree) == visit(action, mid, x, tree));
        assert(writes_in(action, s, early, tree) == writes_in(action, s, front.push(x) + rest, tree)
            + if records_at(action, one, y, tree) { 1nat } else { 0nat });
        assert(writes_in(action, s, (front + rest).push(x), tree) == writes_in(
            action,
            s,
            front + rest,
            tree,
        ) + if records_at(action, base, x, tree) { 1nat } else { 0nat });
        assert(writes_in(action, s, front + back, tree) == writes_in(action, s, front + rest, tree)
            + if records_at(action, base, y, tree) { 1nat } else { 0nat });
        assert(writes_in(action, s, late, tree) == writes_in(action, s, front + back, tree)
            + if records_at(action, mid, x, tree) { 1nat } else { 0nat });
        lemma_visit_respects(action, one, two, y, tree);
        assert(path_key(y) != path_key(x));
        lemma_visit_commutes(action, base, x, y, tree);
    }
}

/// The same files in another order, each found once: the run ends with the
/// same entries and the same note of a difference, and records as many
/// digests.
proof fn lemma_rearranged(
    action: ExistingFileAction,
    s: RunState,
    a: Seq<Seq<char>>,
    b: Seq<Seq<char>>,
    tree: spec_fn(Seq<char>) -> Seq<char>,
)
    requires
        distinct(a),
        a.to_multiset() == b.to_multiset(),
    ensures
        reconcile(action, s, a, tree).table == reconcile(action, s, b, tree).table,
        reconcile(action, s, a, tree).failed == reconcile(action, s, b, tree).failed,
        writes_in(action, s, a, tree) == writes_in(action, s, b, tree),
    decreases a.len(),
{
    to_multiset_len(a);
    to_multiset_len(b);
    if a.len() == 0 {
        assert(a =~= b);
    } else {
        let x = a.last();
        let most = a.drop_last();
        assert(a =~= most.push(x));
        to_multiset_build(most, x);
        to_multiset_contains(b, x);
        let j = choose|j: int| 0 <= j < b.len() && b[j] == x;
        let front = b.take(j);
        let back = b.skip(j + 1);
        assert(b =~= front.push(x) + back);
        assert(b.remove(j) =~= front + back);
        to_multiset_remove(b, j);
        assert((front + back).to_multiset() =~= most.to_multiset());
        assert forall|i: int| 0 <= i < back.len() implies path_key(#[trigger] back[i]) != path_key(
            x,
        ) by {
            let y = back[i];
            assert((front + back)[front.len() + i] == y);
            to_multiset_contains(front + back, y);
            to_multiset_contains(most, y);
            let k = choose|k: int| 0 <= k < most.len() && most[k] == y;
            assert(a[k] == y);
        }
        assert forall|p: int, q: int| 0 <= p < q < most.len() implies path_key(
            #[trigger] most[p],
        ) != path_key(#[trigger] most[q]) by {
            assert(most[p] == a[p] && most[q] == a[q]);
        }
        lemma_move_last(action, s, front, x, back, tree);
        lemma_rearranged(action, s, most, front + back, tree);
        assert((front + back).push(x).drop_last() =~= front + back);
        let late = (front + back).push(x);
        let one = reconcile(action, s, most, tree);
        let two = reconcile(action, s, front + back, tree);
        assert(reconcile(action, s, a, tree) == visit(action, one, x, tree));
        assert(reconcile(action, s, late, tree) == visit(action, two, x, tree));
        assert(writes_in(action, s, a, tree) == writes_in(action, s, most, tree) + if records_at(
            action,
            one,
            x,
            tree,
        ) { 1nat } else { 0nat });
        assert(writes_in(action, s, late, tree) == writes_in(action, s, front + back, tree)
            + if records_at(action, two, x, tree) { 1nat } else { 0nat });
        lemma_visit_respects(action, one, two, x, tree);
    }
}

/// The order in which the files are dealt with does not matter, as long as
/// each is found once: two runs over the same files in different orders end
/// with the same entries, the same count of waiting changes and the same
/// note of a difference, and they record as many digests and write the
/// ledger out as many times.
pub proof fn law_order_is_immaterial(
    action: ExistingFileAction,
    s: RunState,
    a: Seq<Seq<char>>,
    b: Seq<Seq<char>>,
    tree: spec_fn(Seq<char>) -> Seq<char>,
)
    requires
        s.changes <= FLUSH_THRESHOLD,
        distinct(a),
        a.to_multiset() == b.to_multiset(),
    ensures
        reconcile(action, s, a, tree) == reconcile(action, s, b, tree),
        writes_in(action, s, a, tree) == writes_in(action, s, b, tree),
        flushes_in(action, s, a, tree) == flushes_in(action, s, b, tree),
{
    lemma_rearranged(action, s, a, b, tree);
    law_flush_threshold(action, s, a, tree);
    law_flush_threshold(action, s, b, tree);
}

} // verus!
