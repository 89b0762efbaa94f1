//! Several workers on one run, as a specification. A worker deals with a file
//! at two moments: it looks up what the ledger holds for the file, and later,
//! when the file is hashed, it settles the file on what it saw. Between the
//! two, other workers may look up and settle other files.

use crate::engine::{
    carried_out, digest_in, must_hash, outcome_of, ExistingFileAction, RunState, FLUSH_THRESHOLD,
};
use crate::path::path_key;
use crate::paths::holds;
use crate::run::{distinct, law_order_is_immaterial, law_other_entries_untouched, reconcile, visit};
use vstd::prelude::*;

verus! {

/// One moment of a worker.
pub enum Event {
    /// The worker looks up the entry of the file at this path.
    Look(Seq<char>),
    /// The worker settles the file at this path on what it saw.
    Settle(Seq<char>),
}

/// A run that workers share: what the run has come to, and for each path
/// that was looked up, by its key, the digest that was seen.
pub struct PoolState {
    pub run: RunState,
    pub seen: Map<Seq<u32>, Option<Seq<char>>>,
}

/// The shared run after one moment of a worker.
pub open spec fn pool_step(
    action: ExistingFileAction,
    p: PoolState,
    e: Event,
    tree: spec_fn(Seq<char>) -> Seq<char>,
) -> PoolState {
    match e {
        Event::Look(f) => PoolState {
            run: p.run,
            seen: p.seen.insert(path_key(f), digest_in(p.run.table, f)),
        },
        Event::Settle(f) => {
            let seen = p.seen[path_key(f)];
            let new = if must_hash(action, seen is Some) {
                Some(tree(f))
            } else {
                None
            };
            PoolState {
                run: carried_out(p.run, f, outcome_of(action, seen, new), new),
                seen: p.seen,
            }
        },
    }
}

/// The shared run after the given moments, in that order.
pub open spec fn pool_run(
    action: ExistingFileAction,
    s: RunState,
    events: Seq<Event>,
    tree: spec_fn(Seq<char>) -> Seq<char>,
) -> PoolState
    decreases events.len(),
{
    if events.len() == 0 {
        PoolState { run: s, seen: Map::empty() }
    } else {
        pool_step(action, pool_run(action, s, events.drop_last(), tree), events.last(), tree)
    }
}

/// The paths that were settled, in the order in which they were.
pub open spec fn settled_paths(events: Seq<Event>) -> Seq<Seq<char>>
    decreases events.len(),
{
    if events.len() == 0 {
        Seq::empty()
    } else {
        match events.last() {
            Event::Look(_) => settled_paths(events.drop_last()),
            Event::Settle(f) => settled_paths(events.drop_last()).push(f),
        }
    }
}

/// Whether the moment is one at which the path with the given key is looked
/// up.
pub open spec fn looks_up(e: Event, key: Seq<u32>) -> bool {
    match e {
        Event::Look(f) => path_key(f) == key,
        Event::Settle(_) => false,
    }
}

/// Whether the path with the given key was looked up.
pub open spec fn looked(events: Seq<Event>, key: Seq<u32>) -> bool {
    exists|i: int| 0 <= i < events.len() && looks_up(#[trigger] events[i], key)
}

/// Every file is looked up before it is settled.
pub open spec fn orderly(events: Seq<Event>) -> bool {
    forall|j: int|
        0 <= j < events.len() ==> ((#[trigger] events[j]) matches Event::Settle(f) ==> looked(
            events.take(j),
            path_key(f),
        ))
}

/// What was seen of the file at `f` is what the ledger holds for it.
pub open spec fn seen_right(p: PoolState, f: Seq<char>) -> bool {
    p.seen.contains_key(path_key(f)) && p.seen[path_key(f)] == digest_in(p.run.table, f)
}

/// What workers have seen of files that are not settled yet is what the
/// ledger still holds for them, and the run has come to what it would have
/// come to had the settled files been dealt with one after the other.
proof fn lemma_pool_run(
    action: ExistingFileAction,
    s: RunState,
    events: Seq<Event>,
    tree: spec_fn(Seq<char>) -> Seq<char>,
)
    requires
        orderly(events),
        distinct(settled_paths(events)),
    ensures
        pool_run(action, s, events, tree).run == reconcile(
            action,
            s,
            settled_paths(events),
            tree,
        ),
        forall|f: Seq<char>|
            looked(events, path_key(f)) && !holds(settled_paths(events), path_key(f))
                ==> #[trigger] seen_right(pool_run(action, s, events, tree), f),
    decreases events.len(),
{
    if events.len() > 0 {
        let front = events.drop_last();
        let n = front.len() as int;
        let done = settled_paths(front);
        assert forall|j: int| 0 <= j < front.len() implies ((#[trigger] front[j]) matches
            Event::Settle(f) ==> looked(front.take(j), path_key(f))) by {
            assert(front[j] == events[j]);
            assert(front.take(j) =~= events.take(j));
        }
        assert(distinct(done)) by {
            let all = settled_paths(events);
            assert forall|i: int, j: int| 0 <= i < j < done.len() implies path_key(
                #[trigger] done[i],
            ) != path_key(#[trigger] done[j]) by {
                assert(all[i] == done[i] && all[j] == done[j]);
            }
        }
        lemma_pool_run(action, s, front, tree);
        let before = pool_run(action, s, front, tree);
        let after = pool_run(action, s, events, tree);
        match events.last() {
            Event::Look(g) => {
                assert forall|f: Seq<char>|
                    looked(events, path_key(f)) && !holds(
                        settled_paths(events),
                        path_key(f),
                    ) implies #[trigger] seen_right(after, f) by {
                    if path_key(f) != path_key(g) {
                        let i = choose|i: int|
                            0 <= i < events.len() && looks_up(#[trigger] events[i], path_key(f));
                        assert(front[i] == events[i]);
                        assert(looked(front, path_key(f)));
                        assert(seen_right(before, f));
                    }
                }
            },
            Event::Settle(g) => {
                let all = settled_paths(events);
                assert(all == done.push(g));
                assert(events.take(n) =~= front);
                assert(looked(front, path_key(g)));
                assert(!holds(done, path_key(g))) by {
                    assert forall|i: int| 0 <= i < done.len() implies path_key(#[trigger] done[i])
                        != path_key(g) by {
                        assert(all[i] == done[i] && all[done.len() as int] == g);
                    }
                }
                assert(seen_right(before, g));
                assert(after.run == visit(action, before.run, g, tree));
                assert(all.drop_last() =~= done);
                assert forall|f: Seq<char>|
                    looked(events, path_key(f)) && !holds(
                        all,
                        path_key(f),
                    ) implies #[trigger] seen_right(after, f) by {
                    assert(all[done.len() as int] == g);
                    assert(path_key(f) != path_key(g));
                    let i = choose|i: int|
                        0 <= i < events.len() && looks_up(#[trigger] events[i], path_key(f));
                    assert(front[i] == events[i]);
                    assert(looked(front, path_key(f)));
                    if holds(done, path_key(f)) {
                        let k = choose|k: int| 0 <= k < done.len() && path_key(#[trigger] done[k])
                            == path_key(f);
                        assert(all[k] == done[k]);
                    }
                    assert(seen_right(before, f));
                    let seen = before.seen[path_key(g)];
                    let new = if must_hash(action, seen is Some) {
                        Some(tree(g))
                    } else {
                        None
                    };
                    law_other_entries_untouched(action, before.run, g, f, new);
                }
            },
        }
    }
}

/// Workers may share a run: if every file is looked up before it is settled
/// and the files settled are the files found, each once, then whatever the
/// order in which the workers look up and settle, the run ends as it would
/// have ended had the files been dealt with one after the other.
pub proof fn law_pool_as_alone(
    action: ExistingFileAction,
    s: RunState,
    paths: Seq<Seq<char>>,
    events: Seq<Event>,
    tree: spec_fn(Seq<char>) -> Seq<char>,
)
    requires
        s.changes <= FLUSH_THRESHOLD,
        distinct(paths),
        orderly(events),
        settled_paths(events).to_multiset() == paths.to_multiset(),
    ensures
        pool_run(action, s, events, tree).run == reconcile(action, s, paths, tree),
{
    let done = settled_paths(events);
    lemma_rearranged_distinct(paths, done);
    lemma_pool_run(action, s, events, tree);
    law_order_is_immaterial(action, s, paths, done, tree);
}

/// Paths that are each found once are each found once in any other order.
proof fn lemma_rearranged_distinct(a: Seq<Seq<char>>, b: Seq<Seq<char>>)
    requires
        distinct(a),
        a.to_multiset() == b.to_multiset(),
    ensures
        distinct(b),
    decreases a.len(),
{
    vstd::seq_lib::to_multiset_len(a);
    vstd::seq_lib::to_multiset_len(b);
    if b.len() > 0 {
        // the last of `b` is somewhere in `a`; without it both are shorter
        let y = b.last();
        let most = b.drop_last();
        assert(b =~= most.push(y));
        vstd::seq_lib::to_multiset_build(most, y);
        vstd::seq_lib::to_multiset_contains(a, y);
        let k = choose|k: int| 0 <= k < a.len() && a[k] == y;
        let rest = a.remove(k);
        vstd::seq_lib::to_multiset_remove(a, k);
        assert(rest.to_multiset() =~= most.to_multiset());
        assert forall|i: int, j: int| 0 <= i < j < rest.len() implies path_key(#[trigger] rest[i])
            != path_key(#[trigger] rest[j]) by {
            let p = if i < k { i } else { i + 1 };
            let q = if j < k { j } else { j + 1 };
            assert(rest[i] == a[p] && rest[j] == a[q]);
        }
        lemma_rearranged_distinct(rest, most);
        assert forall|i: int, j: int| 0 <= i < j < b.len() implies path_key(#[trigger] b[i])
            != path_key(#[trigger] b[j]) by {
            if j < most.len() {
                assert(b[i] == most[i] && b[j] == most[j]);
            } else {
                assert(b[i] == most[i]);
                vstd::seq_lib::to_multiset_contains(most, most[i]);
                vstd::seq_lib::to_multiset_contains(rest, most[i]);
                let m = choose|m: int| 0 <= m < rest.len() && rest[m] == most[i];
                let p = if m < k { m } else { m + 1 };
                assert(rest[m] == a[p]);
                assert(p != k);
                if p < k {
                    assert(path_key(a[p]) != path_key(a[k]));
                } else {
                    assert(path_key(a[k]) != path_key(a[p]));
                }
            }
        }
    }
}

} // verus!
