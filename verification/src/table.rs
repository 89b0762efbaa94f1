//! The entries of a ledger, as a list in path order and as a map from the
//! key of a path to its entry.

use crate::format::Record;
use crate::order::{lemma_order_equal, lemma_order_trans, Order};
use crate::path::{path_key, path_order};
use crate::paths::{holds, in_order, lemma_holds_insert, lemma_insert_in_order, placed};
use vstd::prelude::*;

verus! {

/// The paths of the given entries, in the same order.
pub open spec fn record_paths(rs: Seq<Record>) -> Seq<Seq<char>> {
    rs.map_values(|r: Record| r.path)
}

/// The place of the entry for the path with the given key.
pub open spec fn index_of(rs: Seq<Record>, key: Seq<u32>) -> int {
    choose|i: int| 0 <= i < rs.len() && path_key(#[trigger] rs[i].path) == key
}

/// The entries as a map from the key of a path to its entry.
pub open spec fn table(rs: Seq<Record>) -> Map<Seq<u32>, Record> {
    Map::new(
        |key: Seq<u32>| holds(record_paths(rs), key),
        |key: Seq<u32>| rs[index_of(rs, key)],
    )
}

/// The map after `digest` was recorded for the path written as `path`: a path
/// that had an entry keeps the text it was first written with.
pub open spec fn recorded(
    t: Map<Seq<u32>, Record>,
    path: Seq<char>,
    digest: Seq<char>,
) -> Map<Seq<u32>, Record> {
    let key = path_key(path);
    t.insert(
        key,
        Record { path: if t.contains_key(key) { t[key].path } else { path }, digest },
    )
}

/// In ordered entries each key leads to the one entry that has it.
pub proof fn lemma_table_at(rs: Seq<Record>, i: int)
    requires
        in_order(record_paths(rs)),
        0 <= i < rs.len(),
    ensures
        table(rs).contains_key(path_key(rs[i].path)),
        table(rs)[path_key(rs[i].path)] == rs[i],
        index_of(rs, path_key(rs[i].path)) == i,
{
    let key = path_key(rs[i].path);
    let ps = record_paths(rs);
    assert(ps[i] == rs[i].path);
    assert(holds(ps, key));
    let j = index_of(rs, key);
    assert(0 <= j < rs.len() && path_key(rs[j].path) == key);
    if j != i {
        assert(ps[j] == rs[j].path);
        lemma_order_equal(path_key(ps[i]), path_key(ps[j]));
        lemma_order_equal(path_key(ps[j]), path_key(ps[i]));
        if i < j {
            assert(path_order(ps[i], ps[j]) == Order::Less);
        } else {
            assert(path_order(ps[j], ps[i]) == Order::Less);
        }
    }
}

/// A key of the map is the key of one of the entries.
pub proof fn lemma_table_key(rs: Seq<Record>, key: Seq<u32>)
    requires
        table(rs).contains_key(key),
    ensures
        0 <= index_of(rs, key) < rs.len(),
        path_key(rs[index_of(rs, key)].path) == key,
        table(rs)[key] == rs[index_of(rs, key)],
{
    let ps = record_paths(rs);
    let i = choose|i: int| 0 <= i < ps.len() && path_key(#[trigger] ps[i]) == key;
    assert(ps[i] == rs[i].path);
}

/// Putting a new entry at its place adds it to the map.
pub proof fn lemma_table_insert(rs: Seq<Record>, at: int, r: Record)
    requires
        in_order(record_paths(rs)),
        placed(record_paths(rs), r.path, false, at),
    ensures
        in_order(record_paths(rs.insert(at, r))),
        table(rs.insert(at, r)) == table(rs).insert(path_key(r.path), r),
{
    let out = rs.insert(at, r);
    let ps = record_paths(rs);
    assert(record_paths(out) =~= ps.insert(at, r.path));
    lemma_insert_in_order(ps, r.path, at);
    lemma_holds_insert(ps, r.path, at);
    let want = table(rs).insert(path_key(r.path), r);
    assert forall|key: Seq<u32>| #[trigger] table(out).contains_key(key) implies table(out)[key]
        == want[key] by {
        lemma_table_key(out, key);
        let i = index_of(out, key);
        if i < at {
            assert(out[i] == rs[i]);
            lemma_table_at(rs, i);
        } else if i > at {
            assert(out[i] == rs[i - 1]);
            lemma_table_at(rs, i - 1);
        }
    }
    assert(table(out) =~= want);
}

/// Giving an entry another digest changes that entry of the map only.
pub proof fn lemma_table_update(rs: Seq<Record>, at: int, digest: Seq<char>)
    requires
        in_order(record_paths(rs)),
        0 <= at < rs.len(),
    ensures
        record_paths(rs.update(at, Record { path: rs[at].path, digest })) == record_paths(rs),
        table(rs.update(at, Record { path: rs[at].path, digest })) == table(rs).insert(
            path_key(rs[at].path),
            Record { path: rs[at].path, digest },
        ),
{
    let r = Record { path: rs[at].path, digest };
    let out = rs.update(at, r);
    assert(record_paths(out) =~= record_paths(rs));
    let want = table(rs).insert(path_key(r.path), r);
    lemma_table_at(rs, at);
    assert forall|key: Seq<u32>| #[trigger] table(out).contains_key(key) implies table(out)[key]
        == want[key] by {
        lemma_table_key(out, key);
        let i = index_of(out, key);
        lemma_table_at(out, i);
        if i != at {
            assert(out[i] == rs[i]);
            lemma_table_at(rs, i);
        }
    }
    assert(table(out) =~= want);
}

/// Whether an entry's path is among `files`.
pub open spec fn listed(files: Seq<Seq<char>>) -> spec_fn(Record) -> bool {
    |r: Record| holds(files, path_key(r.path))
}

/// Whether an entry's path is missing from `files`.
pub open spec fn unlisted(files: Seq<Seq<char>>) -> spec_fn(Record) -> bool {
    |r: Record| !holds(files, path_key(r.path))
}

/// The entries whose path is among `files`, in the order they had.
pub open spec fn kept(rs: Seq<Record>, files: Seq<Seq<char>>) -> Seq<Record> {
    rs.filter(listed(files))
}

/// The entries whose path is missing from `files`, in the order they had.
pub open spec fn stale(rs: Seq<Record>, files: Seq<Seq<char>>) -> Seq<Record> {
    rs.filter(unlisted(files))
}

/// The keys of the paths among `files`.
pub open spec fn keys_of(files: Seq<Seq<char>>) -> Set<Seq<u32>> {
    Set::new(|key: Seq<u32>| holds(files, key))
}

/// One more entry is either kept or stale.
pub proof fn lemma_sift_push(rs: Seq<Record>, r: Record, files: Seq<Seq<char>>)
    ensures
        kept(rs.push(r), files) == if holds(files, path_key(r.path)) {
            kept(rs, files).push(r)
        } else {
            kept(rs, files)
        },
        stale(rs.push(r), files) == if holds(files, path_key(r.path)) {
            stale(rs, files)
        } else {
            stale(rs, files).push(r)
        },
{
    reveal(Seq::filter);
    assert(rs.push(r).drop_last() =~= rs);
}

/// Every entry is kept or stale, and none is both.
pub proof fn lemma_sift_len(rs: Seq<Record>, files: Seq<Seq<char>>)
    ensures
        kept(rs, files).len() + stale(rs, files).len() == rs.len(),
    decreases rs.len(),
{
    reveal(Seq::filter);
    if rs.len() > 0 {
        lemma_sift_len(rs.drop_last(), files);
    }
}

/// What is kept was there before, and is listed.
pub proof fn lemma_kept_from(rs: Seq<Record>, files: Seq<Seq<char>>, j: int)
    requires
        0 <= j < kept(rs, files).len(),
    ensures
        holds(files, path_key(kept(rs, files)[j].path)),
        exists|i: int| 0 <= i < rs.len() && rs[i] == kept(rs, files)[j],
    decreases rs.len(),
{
    reveal(Seq::filter);
    if rs.len() > 0 {
        let rest = kept(rs.drop_last(), files);
        if j < rest.len() {
            lemma_kept_from(rs.drop_last(), files, j);
            let i = choose|i: int| 0 <= i < rs.drop_last().len() && rs.drop_last()[i] == rest[j];
            assert(rs[i] == kept(rs, files)[j]);
        } else {
            assert(rs[rs.len() - 1] == kept(rs, files)[j]);
        }
    }
}

/// An entry whose path is listed is kept.
pub proof fn lemma_kept_has(rs: Seq<Record>, files: Seq<Seq<char>>, i: int)
    requires
        0 <= i < rs.len(),
        holds(files, path_key(rs[i].path)),
    ensures
        exists|j: int| 0 <= j < kept(rs, files).len() && kept(rs, files)[j] == rs[i],
    decreases rs.len(),
{
    reveal(Seq::filter);
    let out = kept(rs, files);
    if i == rs.len() - 1 {
        assert(out[out.len() - 1] == rs[i]);
    } else {
        lemma_kept_has(rs.drop_last(), files, i);
        let rest = kept(rs.drop_last(), files);
        let j = choose|j: int| 0 <= j < rest.len() && rest[j] == rs.drop_last()[i];
        assert(out[j] == rs[i]);
    }
}

/// Ordered entries stay ordered when some are left out.
pub proof fn lemma_kept_in_order(rs: Seq<Record>, files: Seq<Seq<char>>)
    requires
        in_order(record_paths(rs)),
    ensures
        in_order(record_paths(kept(rs, files))),
    decreases rs.len(),
{
    reveal(Seq::filter);
    let out = kept(rs, files);
    let ps = record_paths(rs);
    if rs.len() > 0 {
        let front = rs.drop_last();
        assert(record_paths(front) =~= ps.drop_last());
        assert forall|i: int, j: int| 0 <= i < j < front.len() implies path_order(
            #[trigger] record_paths(front)[i],
            #[trigger] record_paths(front)[j],
        ) == Order::Less by {
            assert(record_paths(front)[i] == ps[i]);
            assert(record_paths(front)[j] == ps[j]);
        }
        lemma_kept_in_order(front, files);
        let rest = kept(front, files);
        let qs = record_paths(out);
        assert forall|i: int, j: int| 0 <= i < j < qs.len() implies path_order(
            #[trigger] qs[i],
            #[trigger] qs[j],
        ) == Order::Less by {
            if j < rest.len() {
                assert(qs[i] == record_paths(rest)[i]);
                assert(qs[j] == record_paths(rest)[j]);
            } else {
                lemma_kept_from(front, files, i);
                let k = choose|k: int| 0 <= k < front.len() && front[k] == rest[i];
                assert(qs[i] == ps[k]);
                assert(qs[j] == ps[rs.len() - 1]);
            }
        }
    }
}

/// Leaving out the entries that are not listed restricts the map to the keys
/// that are.
pub proof fn lemma_table_kept(rs: Seq<Record>, files: Seq<Seq<char>>)
    requires
        in_order(record_paths(rs)),
    ensures
        table(kept(rs, files)) == table(rs).restrict(keys_of(files)),
{
    let out = kept(rs, files);
    let want = table(rs).restrict(keys_of(files));
    lemma_kept_in_order(rs, files);
    assert forall|key: Seq<u32>| #[trigger] table(out).contains_key(key) implies want.contains_key(
        key,
    ) && table(out)[key] == want[key] by {
        lemma_table_key(out, key);
        let j = index_of(out, key);
        lemma_kept_from(rs, files, j);
        let i = choose|i: int| 0 <= i < rs.len() && rs[i] == out[j];
        lemma_table_at(rs, i);
    }
    assert forall|key: Seq<u32>| #[trigger] want.contains_key(key) implies table(out).contains_key(
        key,
    ) by {
        lemma_table_key(rs, key);
        let i = index_of(rs, key);
        lemma_kept_has(rs, files, i);
        let j = choose|j: int| 0 <= j < out.len() && out[j] == rs[i];
        lemma_table_at(out, j);
    }
    assert(table(out) =~= want);
}

/// The map that the entries of a text make when they are recorded one after
/// the other: of two entries for one path the digest of the later stands,
/// under the text of the earlier.
pub open spec fn build(rs: Seq<Record>) -> Map<Seq<u32>, Record>
    decreases rs.len(),
{
    if rs.len() == 0 {
        Map::empty()
    } else {
        recorded(build(rs.drop_last()), rs.last().path, rs.last().digest)
    }
}

/// Recording ordered entries one after the other makes their map.
pub proof fn lemma_build_in_order(rs: Seq<Record>)
    requires
        in_order(record_paths(rs)),
    ensures
        build(rs) == table(rs),
    decreases rs.len(),
{
    if rs.len() == 0 {
        assert(table(rs) =~= Map::<Seq<u32>, Record>::empty());
    } else {
        let front = rs.drop_last();
        let last = rs.last();
        let ps = record_paths(rs);
        let fs = record_paths(front);
        assert(fs =~= ps.drop_last());
        assert forall|i: int, j: int| 0 <= i < j < fs.len() implies path_order(
            #[trigger] fs[i],
            #[trigger] fs[j],
        ) == Order::Less by {
            assert(fs[i] == ps[i]);
            assert(fs[j] == ps[j]);
        }
        lemma_build_in_order(front);
        assert forall|i: int| 0 <= i < fs.len() implies path_order(#[trigger] fs[i], last.path)
            == Order::Less by {
            assert(fs[i] == ps[i]);
            assert(last.path == ps[rs.len() - 1]);
        }
        assert forall|i: int| 0 <= i < fs.len() implies path_key(#[trigger] fs[i]) != path_key(
            last.path,
        ) by {
            lemma_order_equal(path_key(fs[i]), path_key(last.path));
        }
        assert(!holds(fs, path_key(last.path)));
        assert(placed(fs, last.path, false, front.len() as int));
        lemma_table_insert(front, front.len() as int, last);
        assert(front.insert(front.len() as int, last) =~= rs);
    }
}

/// Ordered entries are known by their map: two ordered lists that make the
/// same map are the same list.
pub proof fn lemma_records_unique(a: Seq<Record>, b: Seq<Record>)
    requires
        in_order(record_paths(a)),
        in_order(record_paths(b)),
        table(a) == table(b),
    ensures
        a == b,
    decreases a.len(),
{
    let pa = record_paths(a);
    let pb = record_paths(b);
    if a.len() == 0 {
        if b.len() > 0 {
            lemma_table_at(b, 0);
            lemma_table_key(a, path_key(b[0].path));
        }
        assert(a =~= b);
    } else if b.len() == 0 {
        lemma_table_at(a, 0);
        lemma_table_key(b, path_key(a[0].path));
    } else {
        let la = a.len() - 1;
        let lb = b.len() - 1;
        let ka = path_key(a[la].path);
        let kb = path_key(b[lb].path);
        lemma_table_at(a, la);
        lemma_table_at(b, lb);
        lemma_table_key(b, ka);
        lemma_table_key(a, kb);
        let j = index_of(b, ka);
        let i = index_of(a, kb);
        assert(pa[i] == a[i].path && pa[la] == a[la].path);
        assert(pb[j] == b[j].path && pb[lb] == b[lb].path);
        if j < lb {
            // the last of `a` is below the last of `b`, which is in `a`: it is the last of `a`
            assert(path_order(pb[j], pb[lb]) == Order::Less);
            if i < la {
                assert(path_order(pa[i], pa[la]) == Order::Less);
                lemma_order_trans(ka, kb, ka);
                lemma_order_equal(ka, ka);
            }
            lemma_order_equal(ka, kb);
        }
        assert(ka == kb);
        assert(a[la] == b[lb]);
        let fa = a.drop_last();
        let fb = b.drop_last();
        assert(record_paths(fa) =~= pa.drop_last());
        assert(record_paths(fb) =~= pb.drop_last());
        assert forall|x: int, y: int| 0 <= x < y < fa.len() implies path_order(
            #[trigger] record_paths(fa)[x],
            #[trigger] record_paths(fa)[y],
        ) == Order::Less by {
            assert(record_paths(fa)[x] == pa[x]);
            assert(record_paths(fa)[y] == pa[y]);
        }
        assert forall|x: int, y: int| 0 <= x < y < fb.len() implies path_order(
            #[trigger] record_paths(fb)[x],
            #[trigger] record_paths(fb)[y],
        ) == Order::Less by {
            assert(record_paths(fb)[x] == pb[x]);
            assert(record_paths(fb)[y] == pb[y]);
        }
        assert forall|key: Seq<u32>| #[trigger]
            table(fa).contains_key(key) implies table(fb).contains_key(key) && table(fa)[key]
            == table(fb)[key] by {
            lemma_front_table(a, key);
            lemma_front_table(b, key);
        }
        assert forall|key: Seq<u32>| #[trigger]
            table(fb).contains_key(key) implies table(fa).contains_key(key) by {
            lemma_front_table(a, key);
            lemma_front_table(b, key);
        }
        assert(table(fa) =~= table(fb));
        lemma_records_unique(fa, fb);
        assert(a =~= fa.push(a[la]));
        assert(b =~= fb.push(b[lb]));
    }
}

/// The map of ordered entries without the last: the same map without the
/// key of the last.
pub proof fn lemma_front_table(rs: Seq<Record>, key: Seq<u32>)
    requires
        in_order(record_paths(rs)),
        rs.len() > 0,
    ensures
        in_order(record_paths(rs.drop_last())),
        table(rs.drop_last()).contains_key(key) <==> table(rs).contains_key(key) && key
            != path_key(rs.last().path),
        table(rs.drop_last()).contains_key(key) ==> table(rs.drop_last())[key] == table(rs)[key],
{
    let front = rs.drop_last();
    let ps = record_paths(rs);
    let fs = record_paths(front);
    assert(fs =~= ps.drop_last());
    assert forall|i: int, j: int| 0 <= i < j < fs.len() implies path_order(
        #[trigger] fs[i],
        #[trigger] fs[j],
    ) == Order::Less by {
        assert(fs[i] == ps[i]);
        assert(fs[j] == ps[j]);
    }
    if table(front).contains_key(key) {
        lemma_table_key(front, key);
        let i = index_of(front, key);
        assert(front[i] == rs[i]);
        lemma_table_at(rs, i);
        lemma_table_at(rs, rs.len() - 1);
    }
    if table(rs).contains_key(key) && key != path_key(rs.last().path) {
        lemma_table_key(rs, key);
        let i = index_of(rs, key);
        assert(front[i] == rs[i]);
        lemma_table_at(front, i);
    }
}

} // verus!
