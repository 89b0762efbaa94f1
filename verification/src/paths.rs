//! Ordered lists of paths without repetition, and the set of paths found.

use crate::order::{lemma_order_equal, lemma_order_flip, lemma_order_trans, Order};
use crate::path::{path_key, path_order, RelPath};
use std::collections::VecDeque;
use vstd::prelude::*;

verus! {

/// The texts of the given paths, in the same order.
pub open spec fn texts(paths: Seq<RelPath>) -> Seq<Seq<char>> {
    paths.map_values(|p: RelPath| p@)
}

/// Every path carries the key of its text.
pub open spec fn all_wf(paths: Seq<RelPath>) -> bool {
    forall|i: int| 0 <= i < paths.len() ==> (#[trigger] paths[i]).wf()
}

/// Each path comes before all that follow it; so no path occurs twice.
pub open spec fn in_order(texts: Seq<Seq<char>>) -> bool {
    forall|i: int, j: int|
        0 <= i < j < texts.len() ==> path_order(#[trigger] texts[i], #[trigger] texts[j])
            == Order::Less
}

/// Whether one of the texts is a way of writing the path with the given key.
pub open spec fn holds(texts: Seq<Seq<char>>, key: Seq<u32>) -> bool {
    exists|i: int| 0 <= i < texts.len() && path_key(#[trigger] texts[i]) == key
}

/// Where `text` stands among ordered `texts`: `found` at `at` if one of them
/// writes the same path, else all before `at` come before it and all from
/// `at` on come after it.
pub open spec fn placed(texts: Seq<Seq<char>>, text: Seq<char>, found: bool, at: int) -> bool {
    &&& 0 <= at <= texts.len()
    &&& found ==> at < texts.len() && path_key(texts[at]) == path_key(text)
    &&& found == holds(texts, path_key(text))
    &&& forall|i: int| 0 <= i < at ==> path_order(#[trigger] texts[i], text) == Order::Less
    &&& forall|i: int|
        at <= i < texts.len() && !(found && i == at) ==> path_order(#[trigger] texts[i], text)
            == Order::Greater
}

/// In an ordered list, what comes before an entry that is not above `text`
/// is below `text`.
proof fn lemma_before(texts: Seq<Seq<char>>, mid: int, text: Seq<char>)
    requires
        in_order(texts),
        0 <= mid < texts.len(),
        path_order(texts[mid], text) != Order::Greater,
    ensures
        forall|i: int| 0 <= i < mid ==> path_order(#[trigger] texts[i], text) == Order::Less,
{
    assert forall|i: int| 0 <= i < mid implies path_order(#[trigger] texts[i], text)
        == Order::Less by {
        assert(path_order(texts[i], texts[mid]) == Order::Less);
        if path_order(texts[mid], text) == Order::Less {
            lemma_order_trans(path_key(texts[i]), path_key(texts[mid]), path_key(text));
        } else {
            lemma_order_equal(path_key(texts[mid]), path_key(text));
        }
    }
}

/// In an ordered list, what comes after an entry that is not below `text`
/// is above `text`.
proof fn lemma_after(texts: Seq<Seq<char>>, mid: int, text: Seq<char>)
    requires
        in_order(texts),
        0 <= mid < texts.len(),
        path_order(texts[mid], text) != Order::Less,
    ensures
        forall|i: int|
            mid < i < texts.len() ==> path_order(#[trigger] texts[i], text) == Order::Greater,
{
    assert forall|i: int| mid < i < texts.len() implies path_order(#[trigger] texts[i], text)
        == Order::Greater by {
        assert(path_order(texts[mid], texts[i]) == Order::Less);
        if path_order(texts[mid], text) == Order::Greater {
            lemma_order_flip(path_key(texts[mid]), path_key(text));
            lemma_order_trans(path_key(text), path_key(texts[mid]), path_key(texts[i]));
            lemma_order_flip(path_key(text), path_key(texts[i]));
        } else {
            lemma_order_equal(path_key(texts[mid]), path_key(text));
            lemma_order_flip(path_key(texts[mid]), path_key(texts[i]));
        }
    }
}

/// A text whose place is known to hold no equal entry occurs nowhere.
proof fn lemma_absent(texts: Seq<Seq<char>>, text: Seq<char>, at: int)
    requires
        0 <= at <= texts.len(),
        forall|i: int| 0 <= i < at ==> path_order(#[trigger] texts[i], text) == Order::Less,
        forall|i: int|
            at <= i < texts.len() ==> path_order(#[trigger] texts[i], text) == Order::Greater,
    ensures
        !holds(texts, path_key(text)),
{
    assert forall|i: int| 0 <= i < texts.len() implies path_key(#[trigger] texts[i]) != path_key(
        text,
    ) by {
        lemma_order_equal(path_key(texts[i]), path_key(text));
    }
}

/// Looks `f` up in an ordered list by halving.
pub(crate) fn locate(paths: &Vec<RelPath>, f: &RelPath) -> (r: (bool, usize))
    requires
        all_wf(paths@),
        in_order(texts(paths@)),
        f.wf(),
    ensures
        placed(texts(paths@), f@, r.0, r.1 as int),
{
    let ghost ts = texts(paths@);
    let mut lo: usize = 0;
    let mut hi: usize = paths.len();
    while lo < hi
        invariant
            lo <= hi <= paths.len(),
            ts == texts(paths@),
            all_wf(paths@),
            in_order(ts),
            f.wf(),
            forall|i: int| 0 <= i < lo ==> path_order(#[trigger] ts[i], f@) == Order::Less,
            forall|i: int|
                hi <= i < ts.len() ==> path_order(#[trigger] ts[i], f@) == Order::Greater,
        decreases hi - lo,
    {
        let mid: usize = lo + (hi - lo) / 2;
        assert(ts[mid as int] == paths[mid as int]@);
        match paths[mid].order(f) {
            Order::Less => {
                proof {
                    lemma_before(ts, mid as int, f@);
                }
                lo = mid + 1;
            },
            Order::Greater => {
                proof {
                    lemma_after(ts, mid as int, f@);
                }
                hi = mid;
            },
            Order::Equal => {
                proof {
                    lemma_before(ts, mid as int, f@);
                    lemma_after(ts, mid as int, f@);
                    lemma_order_equal(path_key(ts[mid as int]), path_key(f@));
                }
                return (true, mid);
            },
        }
    }
    proof {
        lemma_absent(ts, f@, lo as int);
    }
    (false, lo)
}

/// Putting a text at its place keeps the list ordered.
pub proof fn lemma_insert_in_order(texts: Seq<Seq<char>>, text: Seq<char>, at: int)
    requires
        in_order(texts),
        placed(texts, text, false, at),
    ensures
        in_order(texts.insert(at, text)),
{
    let out = texts.insert(at, text);
    assert forall|i: int, j: int| 0 <= i < j < out.len() implies path_order(
        #[trigger] out[i],
        #[trigger] out[j],
    ) == Order::Less by {
        if j == at {
            assert(out[i] == texts[i]);
        } else if i == at {
            assert(out[j] == texts[j - 1]);
            lemma_order_flip(path_key(texts[j - 1]), path_key(text));
        } else {
            let a = if i < at { i } else { i - 1 };
            let b = if j < at { j } else { j - 1 };
            assert(out[i] == texts[a]);
            assert(out[j] == texts[b]);
        }
    }
}

/// The paths found under the watched folders: each once, in path order.
pub struct PathSet {
    paths: Vec<RelPath>,
}

impl View for PathSet {
    type V = Seq<Seq<char>>;

    closed spec fn view(&self) -> Seq<Seq<char>> {
        texts(self.paths@)
    }
}

impl PathSet {
    /// The paths are ordered, so none occurs twice.
    pub closed spec fn wf(&self) -> bool {
        all_wf(self.paths@) && in_order(texts(self.paths@))
    }

    /// Whether the set has the path with the given key.
    pub open spec fn has(&self, key: Seq<u32>) -> bool {
        holds(self@, key)
    }

    /// The set without paths.
    pub fn new() -> (set: Self)
        ensures
            set.wf(),
            set@ == Seq::<Seq<char>>::empty(),
    {
        let set = PathSet { paths: Vec::new() };
        assert(set@ =~= Seq::<Seq<char>>::empty());
        set
    }

    /// The number of paths.
    pub fn len(&self) -> (n: usize)
        ensures
            n == self@.len(),
    {
        self.paths.len()
    }

    /// The path at place `i` in path order.
    pub fn get(&self, i: usize) -> (path: &RelPath)
        requires
            self.wf(),
            i < self@.len(),
        ensures
            path.wf(),
            path@ == self@[i as int],
    {
        &self.paths[i]
    }

    /// Whether `f` is in the set.
    pub fn contains(&self, f: &RelPath) -> (r: bool)
        requires
            self.wf(),
            f.wf(),
        ensures
            r == self.has(path_key(f@)),
    {
        locate(&self.paths, f).0
    }

    /// Adds `path` unless the set has it already, in which case the set keeps
    /// the text it had. Says whether the path was added.
    pub fn insert(&mut self, path: RelPath) -> (added: bool)
        requires
            old(self).wf(),
            path.wf(),
        ensures
            final(self).wf(),
            added == !old(self).has(path_key(path@)),
            !added ==> final(self)@ == old(self)@,
            added ==> exists|at: int|
                0 <= at <= old(self)@.len() && final(self)@ == old(self)@.insert(at, path@),
            forall|key: Seq<u32>|
                final(self).has(key) <==> old(self).has(key) || key == path_key(path@),
    {
        let (found, at) = locate(&self.paths, &path);
        if found {
            return false;
        }
        let ghost before = self.paths@;
        self.paths.insert(at, path);
        proof {
            let ts = texts(before);
            assert(texts(self.paths@) =~= ts.insert(at as int, path@));
            lemma_insert_in_order(ts, path@, at as int);
            lemma_holds_insert(ts, path@, at as int);
            assert(self@ == old(self)@.insert(at as int, path@));
        }
        true
    }

    /// The paths in order, as a queue of work.
    pub fn to_queue(&self) -> (queue: VecDeque<RelPath>)
        requires
            self.wf(),
        ensures
            all_wf(queue@),
            texts(queue@) == self@,
    {
        let mut queue: VecDeque<RelPath> = VecDeque::new();
        let mut i: usize = 0;
        while i < self.paths.len()
            invariant
                i <= self.paths.len(),
                all_wf(self.paths@),
                all_wf(queue@),
                texts(queue@) == texts(self.paths@).take(i as int),
            decreases self.paths.len() - i,
        {
            let ghost before = queue@;
            let copy = self.paths[i].clone();
            queue.push_back(copy);
            proof {
                assert(queue@ == before.push(copy));
                assert(texts(queue@) =~= texts(before).push(copy@));
                assert(texts(self.paths@).take(i + 1) =~= texts(self.paths@).take(i as int).push(
                    self.paths[i as int]@,
                ));
            }
            i += 1;
        }
        proof {
            assert(texts(self.paths@).take(self.paths.len() as int) =~= texts(self.paths@));
        }
        queue
    }
}

/// After an insertion the list holds what it held, and the new path.
pub proof fn lemma_holds_insert(texts: Seq<Seq<char>>, text: Seq<char>, at: int)
    requires
        0 <= at <= texts.len(),
    ensures
        forall|key: Seq<u32>|
            holds(texts.insert(at, text), key) <==> holds(texts, key) || key == path_key(text),
{
    let out = texts.insert(at, text);
    assert forall|key: Seq<u32>| holds(out, key) <==> holds(texts, key) || key == path_key(
        text,
    ) by {
        if holds(out, key) {
            let i = choose|i: int| 0 <= i < out.len() && path_key(#[trigger] out[i]) == key;
            if i < at {
                assert(out[i] == texts[i]);
            } else if i > at {
                assert(out[i] == texts[i - 1]);
            }
        }
        if holds(texts, key) {
            let i = choose|i: int| 0 <= i < texts.len() && path_key(#[trigger] texts[i]) == key;
            let j = if i < at { i } else { i + 1 };
            assert(out[j] == texts[i]);
        }
        if key == path_key(text) {
            assert(out[at] == text);
        }
    }
}

} // verus!
