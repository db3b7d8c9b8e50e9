//! The key-value store: byte-string rows held in strictly ascending key
//! order, with point lookup, prefix scan, batched last-wins writes and an
//! explicit (contents-preserving) compaction trigger.

use vstd::prelude::*;
use vstd::slice::slice_to_vec;

use crate::bytes::lex_lt;
use crate::bytes::lex_lt_bytes;
use crate::bytes::bytes_eq;
use crate::bytes::starts_with;
use crate::bytes::lemma_lex_lt_neq;
use crate::bytes::lemma_lex_lt_trans;
use crate::bytes::lemma_lex_lt_connected;
use crate::model::row_views;
use crate::model::rows_map;
use crate::model::sorted_strict;
use crate::model::spec_scan;
use crate::model::compact_spec;
use crate::model::write_spec;
use crate::sort::sort_rows;
use crate::model::lemma_rows_map_at;
use crate::model::lemma_rows_map_contains;
use crate::model::lemma_rows_map_insert_mid;
use crate::model::lemma_rows_map_update;

verus! {

/// A single key/value pair as stored in the database.
pub struct DBRow {
    pub key: Vec<u8>,
    pub value: Vec<u8>,
}

impl View for DBRow {
    type V = (Seq<u8>, Seq<u8>);

    open spec fn view(&self) -> (Seq<u8>, Seq<u8>) {
        (self.key@, self.value@)
    }
}

/// The store: rows kept in strictly ascending byte-wise key order.
pub struct DB {
    entries: Vec<DBRow>,
}

impl View for DB {
    type V = Seq<(Seq<u8>, Seq<u8>)>;

    closed spec fn view(&self) -> Seq<(Seq<u8>, Seq<u8>)> {
        row_views(self.entries@)
    }
}

impl DB {
    /// The store's rows are strictly sorted by key, so every key is unique
    /// and every prefix's rows are contiguous.
    pub open spec fn wf(self) -> bool {
        sorted_strict(self@)
    }

    /// Creates an empty store.
    pub fn open() -> (db: DB)
        ensures
            db.wf(),
            db@ == Seq::<(Seq<u8>, Seq<u8>)>::empty(),
    {
        let db = DB { entries: Vec::new() };
        proof {
            assert(db@ =~= Seq::<(Seq<u8>, Seq<u8>)>::empty());
        }
        db
    }

    /// The first position whose key is not below `key`; all keys before it
    /// are strictly below `key`.
    fn find_pos(&self, key: &[u8]) -> (pos: usize)
        requires
            self.wf(),
        ensures
            0 <= pos <= self@.len(),
            forall|i: int| 0 <= i < pos ==> lex_lt((#[trigger] self@[i]).0, key@),
            pos < self@.len() ==> !lex_lt(self@[pos as int].0, key@),
    {
        let n = self.entries.len();
        let mut pos: usize = 0;
        while pos < n
            invariant
                self.wf(),
                n == self.entries@.len(),
                self@.len() == n,
                0 <= pos <= n,
                forall|i: int| 0 <= i < pos ==> lex_lt((#[trigger] self@[i]).0, key@),
            decreases n - pos,
        {
            proof {
                assert(self@[pos as int] == (self.entries@[pos as int].key@,
                    self.entries@[pos as int].value@));
            }
            if !lex_lt_bytes(self.entries[pos].key.as_slice(), key) {
                return pos;
            }
            pos = pos + 1;
        }
        pos
    }

    /// Point lookup. Returns the current value bound to `key`, or nothing
    /// when the key is absent; absence is not an error.
    pub fn get(&self, key: &[u8]) -> (r: Option<Vec<u8>>)
        requires
            self.wf(),
        ensures
            r matches Some(v) ==> rows_map(self@).contains_key(key@) && v@ == rows_map(self@)[key@],
            r is None ==> !rows_map(self@).contains_key(key@),
    {
        let ghost s = self@;
        let pos = self.find_pos(key);
        if pos < self.entries.len() {
            proof {
                assert(s[pos as int] == (self.entries@[pos as int].key@,
                    self.entries@[pos as int].value@));
            }
            if bytes_eq(self.entries[pos].key.as_slice(), key) {
                proof {
                    let ghost pk = s[pos as int].0;
                    assert forall|j: int| pos < j < s.len() implies (#[trigger] s[j]).0 != pk by {
                        lemma_lex_lt_neq(s[pos as int].0, s[j].0);
                    }
                    lemma_rows_map_at(s, pos as int);
                }
                let v = slice_to_vec(self.entries[pos].value.as_slice());
                return Some(v);
            }
        }
        proof {
            assert forall|i: int| 0 <= i < s.len() implies (#[trigger] s[i]).0 != key@ by {
                if i < pos {
                    lemma_lex_lt_neq(s[i].0, key@);
                } else if i == pos {
                    // the keys were compared and differ
                } else {
                    if !lex_lt(key@, s[pos as int].0) {
                        lemma_lex_lt_connected(key@, s[pos as int].0);
                    }
                    lemma_lex_lt_trans(key@, s[pos as int].0, s[i].0);
                    lemma_lex_lt_neq(key@, s[i].0);
                }
            }
            lemma_rows_map_contains(s, key@);
        }
        None
    }

    /// Inserts one row, replacing the value when the key is already present.
    fn upsert(&mut self, row: DBRow)
        requires
            old(self).wf(),
        ensures
            final(self).wf(),
            rows_map(final(self)@) == rows_map(old(self)@).insert(row.key@, row.value@),
    {
        let ghost s0 = self@;
        let ghost rv = (row.key@, row.value@);
        let pos = self.find_pos(row.key.as_slice());
        let mut replace = false;
        if pos < self.entries.len() {
            proof {
                assert(s0[pos as int] == (self.entries@[pos as int].key@,
                    self.entries@[pos as int].value@));
            }
            if bytes_eq(self.entries[pos].key.as_slice(), row.key.as_slice()) {
                replace = true;
            }
        }
        if replace {
            self.entries.remove(pos);
            self.entries.insert(pos, row);
            proof {
                let ghost updated = s0.update(pos as int, rv);
                assert forall|i: int| 0 <= i < self@.len() implies self@[i] == updated[i] by {
                    assert(self@[i] == (self.entries@[i].key@, self.entries@[i].value@));
                }
                assert(self@ =~= s0.update(pos as int, rv));
                let ghost pk0 = s0[pos as int].0;
                assert forall|j: int| pos < j < s0.len() implies (#[trigger] s0[j]).0 != pk0 by {
                    lemma_lex_lt_neq(s0[pos as int].0, s0[j].0);
                }
                assert(rv == (s0[pos as int].0, row.value@));
                lemma_rows_map_update(s0, pos as int, row.value@);
                // keys are unchanged position by position, so order is kept
                assert forall|i: int, j: int|
                    0 <= i < j < self@.len() implies lex_lt(
                    (#[trigger] self@[i]).0,
                    (#[trigger] self@[j]).0,
                ) by {
                    assert((s0[i]).0 == self@[i].0 || i == pos);
                    assert((s0[j]).0 == self@[j].0 || j == pos);
                }
            }
        } else {
            proof {
                // every key at or after pos is strictly above the new key
                assert forall|idx: int| pos <= idx < s0.len() implies lex_lt(
                    rv.0,
                    (#[trigger] s0[idx]).0,
                ) by {
                    if !lex_lt(rv.0, s0[pos as int].0) {
                        lemma_lex_lt_connected(rv.0, s0[pos as int].0);
                    }
                    if idx > pos {
                        lemma_lex_lt_trans(rv.0, s0[pos as int].0, s0[idx].0);
                    }
                }
            }
            self.entries.insert(pos, row);
            proof {
                let ghost inserted = s0.insert(pos as int, rv);
                assert forall|i: int| 0 <= i < self@.len() implies self@[i] == inserted[i] by {
                    assert(self@[i] == (self.entries@[i].key@, self.entries@[i].value@));
                }
                assert(self@ =~= s0.insert(pos as int, rv));
                assert forall|idx: int| pos <= idx < s0.len() implies (#[trigger] s0[idx]).0
                    != rv.0 by {
                    lemma_lex_lt_neq(rv.0, s0[idx].0);
                }
                lemma_rows_map_insert_mid(s0, pos as int, rv);
                assert forall|i: int, j: int|
                    0 <= i < j < self@.len() implies lex_lt(
                    (#[trigger] self@[i]).0,
                    (#[trigger] self@[j]).0,
                ) by {
                    if j < pos {
                        assert(self@[i] == s0[i] && self@[j] == s0[j]);
                    } else if i < pos && j == pos {
                        assert(self@[i] == s0[i] && self@[j] == rv);
                    } else if i < pos && j > pos {
                        assert(self@[i] == s0[i] && self@[j] == s0[j - 1]);
                    } else if i == pos {
                        assert(self@[i] == rv && self@[j] == s0[j - 1]);
                    } else {
                        assert(self@[i] == s0[i - 1] && self@[j] == s0[j - 1]);
                    }
                }
            }
        }
    }

    /// Applies a batch of rows as one atomic write: afterwards every row of
    /// the batch is visible at once, a later duplicate key in the batch
    /// overriding an earlier one. The rows are first sorted by key, which
    /// fixes a deterministic application order independent of the caller's.
    pub fn write(&mut self, rows: Vec<DBRow>)
        requires
            old(self).wf(),
        ensures
            final(self).wf(),
            rows_map(final(self)@) == write_spec(rows_map(old(self)@), row_views(rows@)),
    {
        let ghost m0 = rows_map(self@);
        let ghost batch = row_views(rows@);
        let mut sorted = sort_rows(rows);
        let ghost sbatch = row_views(sorted@);
        let ghost mut done: Seq<(Seq<u8>, Seq<u8>)> = Seq::empty();
        proof {
            assert(done + row_views(sorted@) =~= sbatch);
            assert(m0.union_prefer_right(rows_map(done)) =~= m0);
        }
        while sorted.len() > 0
            invariant
                self.wf(),
                done + row_views(sorted@) == sbatch,
                rows_map(self@) == m0.union_prefer_right(rows_map(done)),
            decreases sorted@.len(),
        {
            let ghost sorted_before = sorted@;
            let row = sorted.remove(0);
            let ghost rv = (row.key@, row.value@);
            proof {
                assert(row_views(sorted_before) =~= seq![rv] + row_views(sorted@));
                assert((done + seq![rv]) + row_views(sorted@) =~= sbatch);
                assert(done + seq![rv] =~= done.push(rv));
            }
            self.upsert(row);
            proof {
                assert(done.push(rv).drop_last() =~= done);
                assert(rows_map(done.push(rv)) == rows_map(done).insert(rv.0, rv.1));
                assert(m0.union_prefer_right(rows_map(done)).insert(rv.0, rv.1)
                    =~= m0.union_prefer_right(rows_map(done.push(rv))));
                done = done.push(rv);
            }
        }
        proof {
            assert(row_views(sorted@) =~= Seq::<(Seq<u8>, Seq<u8>)>::empty());
            assert(done =~= sbatch);
        }
    }

    /// Prefix-bounded range scan: all rows whose key begins with `prefix`,
    /// in ascending key order, materialized eagerly. An empty prefix matches
    /// every row; no match yields an empty result, not an error.
    pub fn scan(&self, prefix: &[u8]) -> (r: Vec<DBRow>)
        requires
            self.wf(),
        ensures
            row_views(r@) == spec_scan(self@, prefix@),
    {
        let ghost s = self@;
        let n = self.entries.len();
        let mut out: Vec<DBRow> = Vec::new();
        proof {
            assert(s.take(0) =~= Seq::<(Seq<u8>, Seq<u8>)>::empty());
            assert(row_views(out@) =~= Seq::<(Seq<u8>, Seq<u8>)>::empty());
        }
        let mut i: usize = 0;
        while i < n
            invariant
                self.wf(),
                s == self@,
                n == self.entries@.len(),
                s.len() == n,
                0 <= i <= n,
                row_views(out@) == spec_scan(s.take(i as int), prefix@),
            decreases n - i,
        {
            proof {
                assert(s[i as int] == (self.entries@[i as int].key@,
                    self.entries@[i as int].value@));
                assert(s.take(i as int + 1).drop_last() =~= s.take(i as int));
                assert(s.take(i as int + 1).last() == s[i as int]);
            }
            let ghost out_before = row_views(out@);
            if starts_with(self.entries[i].key.as_slice(), prefix) {
                let k = slice_to_vec(self.entries[i].key.as_slice());
                let v = slice_to_vec(self.entries[i].value.as_slice());
                out.push(DBRow { key: k, value: v });
                proof {
                    assert(row_views(out@) =~= out_before.push(s[i as int]));
                }
            }
            i = i + 1;
        }
        proof {
            assert(s.take(n as int) =~= s);
        }
        out
    }

    /// Forces compaction of the whole store. Reorganising storage never
    /// changes the stored rows, and this in-memory store keeps a single
    /// sorted level, so there is nothing to merge and no failure to surface.
    pub fn compact_all(&mut self)
        requires
            old(self).wf(),
        ensures
            final(self).wf(),
            final(self)@ == compact_spec(old(self)@),
    {
    }
}

} // verus!
