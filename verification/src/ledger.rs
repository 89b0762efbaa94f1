//! The ledger: for each path the digest last recorded for it, and the number
//! of changes made since the ledger was last written out.

use crate::format::{
    all_storable, lemma_render_push, lemma_round_trip, line_of, lines_view, parse, read_lines,
    render, Record,
};
use crate::path::{path_key, RelPath};
use crate::paths::{all_wf, in_order, locate, texts, PathSet};
use crate::table::{
    build, kept, keys_of, lemma_build_in_order, lemma_kept_in_order, lemma_records_unique,
    lemma_sift_len, lemma_sift_push, lemma_table_at, lemma_table_insert, lemma_table_kept,
    lemma_table_update, record_paths, recorded, stale, table,
};
use crate::text::push_char;
use vstd::prelude::*;

verus! {

/// The entries made of the given paths and digests, pair by pair.
pub open spec fn records_of(paths: Seq<RelPath>, digests: Seq<String>) -> Seq<Record> {
    Seq::new(paths.len(), |i: int| Record { path: paths[i]@, digest: digests[i]@ })
}

/// The ledger.
pub struct FileDatabase {
    paths: Vec<RelPath>,
    digests: Vec<String>,
    change_count: usize,
}

impl View for FileDatabase {
    type V = Map<Seq<u32>, Record>;

    /// The entries, by the key of their path.
    open spec fn view(&self) -> Map<Seq<u32>, Record> {
        table(self.records())
    }
}

impl FileDatabase {
    /// The entries in path order.
    pub closed spec fn records(&self) -> Seq<Record> {
        records_of(self.paths@, self.digests@)
    }

    /// The number of changes made since the ledger was created, loaded or
    /// last saved.
    pub closed spec fn changes(&self) -> nat {
        self.change_count as nat
    }

    /// Each path has one digest, and the paths are in order.
    pub closed spec fn wf(&self) -> bool {
        &&& self.paths@.len() == self.digests@.len()
        &&& all_wf(self.paths@)
        &&& in_order(texts(self.paths@))
    }

    /// The entries of a ledger are in path order, so no path has two.
    pub proof fn lemma_records_in_order(&self)
        requires
            self.wf(),
        ensures
            in_order(record_paths(self.records())),
    {
        assert(record_paths(self.records()) =~= texts(self.paths@));
    }

    /// The ledger without entries.
    pub fn new() -> (db: Self)
        ensures
            db.wf(),
            db.records() == Seq::<Record>::empty(),
            db@ == Map::<Seq<u32>, Record>::empty(),
            db.changes() == 0,
    {
        let db = FileDatabase { paths: Vec::new(), digests: Vec::new(), change_count: 0 };
        proof {
            assert(db.records() =~= Seq::<Record>::empty());
            assert(db@ =~= Map::<Seq<u32>, Record>::empty());
        }
        db
    }

    /// The ledger that `text` holds: its entries, recorded line by line.
    pub fn load(text: &str) -> (db: Self)
        ensures
            db.wf(),
            db@ == build(parse(text@)),
            db.changes() == 0,
    {
        let lines = read_lines(text);
        let ghost rs = lines_view(lines@);
        let mut db = FileDatabase::new();
        proof {
            assert(rs.take(0) =~= Seq::<Record>::empty());
        }
        for line in it: lines
            invariant
                it.seq() == lines@,
                rs == lines_view(lines@),
                db.wf(),
                db.change_count == 0,
                db@ == build(rs.take(it.index() as int)),
        {
            proof {
                let n = it.index() as int;
                assert(rs.take(n + 1).drop_last() =~= rs.take(n));
                assert(rs.take(n + 1).last() == line@);
            }
            db.put(RelPath::from_string(line.path), line.digest);
        }
        proof {
            assert(rs.take(rs.len() as int) =~= rs);
        }
        db
    }

    /// The ledger as text, its entries in path order, and the count of
    /// changes set back to zero.
    pub fn save(&mut self) -> (text: String)
        requires
            old(self).wf(),
        ensures
            final(self).wf(),
            final(self).records() == old(self).records(),
            final(self).changes() == 0,
            in_order(record_paths(old(self).records())),
            text@ == render(old(self).records()),
    {
        proof {
            self.lemma_records_in_order();
        }
        let ghost rs = self.records();
        let mut text = String::new();
        let mut i: usize = 0;
        proof {
            assert(rs.take(0) =~= Seq::<Record>::empty());
        }
        while i < self.paths.len()
            invariant
                i <= self.paths.len(),
                self.paths.len() == self.digests.len(),
                rs == records_of(self.paths@, self.digests@),
                text@ == render(rs.take(i as int)),
            decreases self.paths.len() - i,
        {
            let ghost before = text@;
            if i > 0 {
                push_char(&mut text, '\n');
            }
            text.append(self.digests[i].as_str());
            push_char(&mut text, ' ');
            text.append(self.paths[i].as_str());
            proof {
                lemma_render_push(rs.take(i as int), rs[i as int]);
                assert(rs.take(i + 1) =~= rs.take(i as int).push(rs[i as int]));
                if i > 0 {
                    assert(text@ =~= before + seq!['\n'] + line_of(rs[i as int]));
                } else {
                    assert(text@ =~= line_of(rs[i as int]));
                }
            }
            i += 1;
        }
        proof {
            assert(rs.take(rs.len() as int) =~= rs);
        }
        self.change_count = 0;
        text
    }

    /// Sets the digest of `f`, adding an entry if `f` has none.
    fn put(&mut self, f: RelPath, hash: String)
        requires
            old(self).wf(),
            f.wf(),
        ensures
            final(self).wf(),
            final(self)@ == recorded(old(self)@, f@, hash@),
            final(self).change_count == old(self).change_count,
    {
        let ghost rs = self.records();
        proof {
            self.lemma_records_in_order();
            assert(record_paths(rs) =~= texts(self.paths@));
        }
        let (found, at) = locate(&self.paths, &f);
        if found {
            self.digests.set(at, hash);
            proof {
                let r = Record { path: rs[at as int].path, digest: hash@ };
                assert(self.records() =~= rs.update(at as int, r));
                lemma_table_update(rs, at as int, hash@);
                lemma_table_at(rs, at as int);
            }
        } else {
            self.paths.insert(at, f);
            self.digests.insert(at, hash);
            proof {
                let r = Record { path: f@, digest: hash@ };
                assert(self.records() =~= rs.insert(at as int, r));
                lemma_table_insert(rs, at as int, r);
                assert(texts(self.paths@) =~= record_paths(self.records()));
            }
        }
    }

    /// Records `hash` as the digest of `f`, whether or not `f` had that digest
    /// already, and counts one change.
    pub fn add_file(&mut self, f: &RelPath, hash: &str)
        requires
            old(self).wf(),
            f.wf(),
            old(self).changes() < usize::MAX,
        ensures
            final(self).wf(),
            final(self)@ == recorded(old(self)@, f@, hash@),
            final(self).changes() == old(self).changes() + 1,
    {
        self.put(f.clone(), hash.to_owned());
        self.change_count += 1;
    }

    /// The digest recorded for `f`, if there is one.
    pub fn get_hash(&self, f: &RelPath) -> (hash: Option<&str>)
        requires
            self.wf(),
            f.wf(),
        ensures
            match hash {
                Some(digest) => self@.contains_key(path_key(f@)) && digest@ == self@[path_key(
                    f@,
                )].digest,
                None => !self@.contains_key(path_key(f@)),
            },
    {
        proof {
            self.lemma_records_in_order();
            assert(record_paths(self.records()) =~= texts(self.paths@));
        }
        let (found, at) = locate(&self.paths, f);
        if found {
            proof {
                lemma_table_at(self.records(), at as int);
            }
            Some(self.digests[at].as_str())
        } else {
            None
        }
    }

    /// Removes the entries whose path is not among `files`, and counts one
    /// change for each. Hands back the paths that were removed, in path order.
    pub fn truncate_to_existing(&mut self, files: &PathSet) -> (removed: Vec<RelPath>)
        requires
            old(self).wf(),
            files.wf(),
            old(self).changes() + old(self).records().len() <= usize::MAX,
        ensures
            final(self).wf(),
            final(self).records() == kept(old(self).records(), files@),
            final(self)@ == old(self)@.restrict(keys_of(files@)),
            all_wf(removed@),
            texts(removed@) == record_paths(stale(old(self).records(), files@)),
            final(self).records().len() + removed@.len() == old(self).records().len(),
            final(self).changes() == old(self).changes() + removed@.len(),
    {
        let ghost rs = self.records();
        let mut old_paths: Vec<RelPath> = Vec::new();
        let mut old_digests: Vec<String> = Vec::new();
        std::mem::swap(&mut old_paths, &mut self.paths);
        std::mem::swap(&mut old_digests, &mut self.digests);
        let ghost all = old_paths@;
        let count: usize = old_paths.len();
        let mut paths: Vec<RelPath> = Vec::new();
        let mut digests: Vec<String> = Vec::new();
        let mut removed: Vec<RelPath> = Vec::new();
        let mut i: usize = 0;
        proof {
            assert(rs.take(0) =~= Seq::<Record>::empty());
            reveal(Seq::filter);
            assert(records_of(paths@, digests@) =~= kept(rs.take(0), files@));
            assert(texts(removed@) =~= record_paths(stale(rs.take(0), files@)));
        }
        for path in it: old_paths
            invariant
                files.wf(),
                it.seq() == all,
                i == it.index(),
                all.len() == count,
                all_wf(all),
                rs == records_of(all, old_digests@),
                all.len() == old_digests@.len(),
                paths@.len() == digests@.len(),
                all_wf(paths@),
                all_wf(removed@),
                records_of(paths@, digests@) == kept(rs.take(i as int), files@),
                texts(removed@) == record_paths(stale(rs.take(i as int), files@)),
        {
            let ghost before = records_of(paths@, digests@);
            let ghost gone = removed@;
            proof {
                assert(rs.take(i + 1) =~= rs.take(i as int).push(rs[i as int]));
                lemma_sift_push(rs.take(i as int), rs[i as int], files@);
                assert(rs[i as int].path == path@);
            }
            if files.contains(&path) {
                digests.push(old_digests[i].clone());
                paths.push(path);
                proof {
                    assert(records_of(paths@, digests@) =~= before.push(rs[i as int]));
                }
            } else {
                removed.push(path);
                proof {
                    assert(texts(removed@) =~= texts(gone).push(path@));
                    assert(record_paths(stale(rs.take(i as int), files@).push(rs[i as int]))
                        =~= record_paths(stale(rs.take(i as int), files@)).push(path@));
                }
            }
            i += 1;
        }
        proof {
            assert(rs.take(rs.len() as int) =~= rs);
            lemma_sift_len(rs, files@);
            old(self).lemma_records_in_order();
            lemma_kept_in_order(rs, files@);
            lemma_table_kept(rs, files@);
            assert(texts(paths@) =~= record_paths(records_of(paths@, digests@)));
            assert(texts(removed@).len() == removed@.len());
        }
        self.paths = paths;
        self.digests = digests;
        self.change_count += removed.len();
        removed
    }

    /// The number of entries.
    pub fn len(&self) -> (n: usize)
        ensures
            n == self.records().len(),
    {
        self.paths.len()
    }

    /// The number of changes made since the ledger was created, loaded or
    /// last saved.
    pub fn num_changes(&self) -> (n: usize)
        ensures
            n == self.changes(),
    {
        self.change_count
    }

    /// Whether a change was made since the ledger was created, loaded or
    /// last saved.
    pub fn has_changes(&self) -> (r: bool)
        ensures
            r == (self.changes() != 0),
    {
        self.change_count != 0
    }
}

/// Saving and loading: a ledger whose entries are storable is read back from
/// its text with the same entries, path for path and digest for digest, and
/// the ledger read back is saved as the same text again.
pub proof fn law_save_then_load(db: FileDatabase, loaded: FileDatabase)
    requires
        db.wf(),
        all_storable(db.records()),
        loaded.wf(),
        loaded@ == build(parse(render(db.records()))),
    ensures
        loaded@ == db@,
        loaded.records() == db.records(),
        render(loaded.records()) == render(db.records()),
{
    lemma_round_trip(db.records());
    db.lemma_records_in_order();
    loaded.lemma_records_in_order();
    lemma_build_in_order(db.records());
    lemma_records_unique(loaded.records(), db.records());
}

} // verus!
