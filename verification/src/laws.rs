//! Laws of the store, stated over the same spec functions that the store's
//! contracts use and proved once and for all.

use vstd::prelude::*;

use crate::bytes::is_prefix_of;
use crate::bytes::lemma_lex_lt_asym;
use crate::bytes::lemma_lex_lt_neq;
use crate::bytes::lex_lt;
use crate::model::compact_spec;
use crate::model::get_spec;
use crate::model::lemma_rows_map_at;
use crate::model::lemma_rows_map_contains;
use crate::model::rows_map;
use crate::model::sorted_strict;
use crate::model::spec_scan;
use crate::model::write_spec;

verus! {

/// A row appears in a prefix scan exactly when it is a row of the store and
/// its key begins with the prefix; every row whose key does not is absent
/// from the result.
pub proof fn lemma_scan_prefix_correct(s: Seq<(Seq<u8>, Seq<u8>)>, prefix: Seq<u8>)
    ensures
        forall|x: (Seq<u8>, Seq<u8>)|
            #[trigger] spec_scan(s, prefix).contains(x) <==> s.contains(x) && is_prefix_of(
                prefix,
                x.0,
            ),
    decreases s.len(),
{
    if s.len() > 0 {
        let dl = s.drop_last();
        let last = s.last();
        lemma_scan_prefix_correct(dl, prefix);
        assert forall|x: (Seq<u8>, Seq<u8>)|
            #[trigger] spec_scan(s, prefix).contains(x) <==> s.contains(x) && is_prefix_of(
                prefix,
                x.0,
            ) by {
            // membership in s splits into membership in dl and being the last row
            if s.contains(x) {
                let i = choose|i: int| 0 <= i < s.len() && s[i] == x;
                if i < s.len() - 1 {
                    assert(dl[i] == x);
                    assert(dl.contains(x));
                }
            }
            if dl.contains(x) {
                let i = choose|i: int| 0 <= i < dl.len() && dl[i] == x;
                assert(s[i] == x);
                assert(s.contains(x));
            }
            if x == last {
                assert(s[s.len() - 1] == x);
                assert(s.contains(x));
            }
            if is_prefix_of(prefix, last.0) {
                let t = spec_scan(dl, prefix);
                assert(spec_scan(s, prefix) == t.push(last));
                if spec_scan(s, prefix).contains(x) {
                    let j = choose|j: int| 0 <= j < t.push(last).len() && t.push(last)[j] == x;
                    if j < t.len() {
                        assert(t[j] == x);
                        assert(t.contains(x));
                    } else {
                        assert(x == last);
                    }
                }
                if t.contains(x) {
                    let j = choose|j: int| 0 <= j < t.len() && t[j] == x;
                    assert(t.push(last)[j] == x);
                    assert(t.push(last).contains(x));
                }
                if x == last {
                    assert(t.push(last)[t.len() as int] == x);
                    assert(t.push(last).contains(x));
                }
            } else {
                assert(spec_scan(s, prefix) == spec_scan(dl, prefix));
            }
        }
    }
}

/// A scan of a store whose keys ascend strictly returns its rows in strictly
/// ascending key order, whatever the prefix.
pub proof fn lemma_scan_ordered(s: Seq<(Seq<u8>, Seq<u8>)>, prefix: Seq<u8>)
    requires
        sorted_strict(s),
    ensures
        sorted_strict(spec_scan(s, prefix)),
    decreases s.len(),
{
    if s.len() > 0 {
        let dl = s.drop_last();
        let last = s.last();
        assert forall|i: int, j: int| 0 <= i < j < dl.len() implies lex_lt(
            (#[trigger] dl[i]).0,
            (#[trigger] dl[j]).0,
        ) by {
            assert(dl[i] == s[i] && dl[j] == s[j]);
        }
        lemma_scan_ordered(dl, prefix);
        if is_prefix_of(prefix, last.0) {
            let t = spec_scan(dl, prefix);
            lemma_scan_prefix_correct(dl, prefix);
            let u = t.push(last);
            assert forall|i: int, j: int| 0 <= i < j < u.len() implies lex_lt(
                (#[trigger] u[i]).0,
                (#[trigger] u[j]).0,
            ) by {
                if j < t.len() {
                    assert(u[i] == t[i] && u[j] == t[j]);
                } else {
                    assert(u[j] == last);
                    assert(t[i] == u[i]);
                    assert(t.contains(t[i]));
                    assert(dl.contains(u[i]));
                    let k = choose|k: int| 0 <= k < dl.len() && dl[k] == u[i];
                    assert(s[k] == u[i]);
                    assert(lex_lt((s[k]).0, (s[s.len() - 1]).0));
                }
            }
        }
    }
}

/// A scan with the empty prefix returns the whole store: every row ever
/// written and still live, in key order.
pub proof fn lemma_scan_empty_prefix(s: Seq<(Seq<u8>, Seq<u8>)>)
    ensures
        spec_scan(s, Seq::<u8>::empty()) == s,
    decreases s.len(),
{
    if s.len() == 0 {
        assert(spec_scan(s, Seq::<u8>::empty()) =~= s);
    } else {
        assert(is_prefix_of(Seq::<u8>::empty(), s.last().0)) by {
            assert(s.last().0.take(0) =~= Seq::<u8>::empty());
        }
        lemma_scan_empty_prefix(s.drop_last());
        assert(spec_scan(s, Seq::<u8>::empty()) =~= s);
    }
}

/// Round trip: writing a single row and then looking its key up returns
/// exactly the written value, from any starting contents.
pub proof fn lemma_write_then_get(m: Map<Seq<u8>, Seq<u8>>, k: Seq<u8>, v: Seq<u8>)
    ensures
        get_spec(write_spec(m, seq![(k, v)]), k) == Some(v),
{
    let batch = seq![(k, v)];
    assert(batch.len() == 1);
    assert(batch.drop_last() =~= Seq::<(Seq<u8>, Seq<u8>)>::empty());
    assert(batch.last() == (k, v));
    assert(rows_map(Seq::<(Seq<u8>, Seq<u8>)>::empty()) == Map::<Seq<u8>, Seq<u8>>::empty());
    assert(rows_map(batch) == rows_map(batch.drop_last()).insert(k, v));
    assert(rows_map(batch) == Map::<Seq<u8>, Seq<u8>>::empty().insert(k, v));
    assert(write_spec(m, batch).contains_key(k));
    assert(write_spec(m, batch)[k] == v);
}

/// Batch atomicity, seen from after the write: one write makes every key of
/// the batch visible at once, and touches no other key, so a reader sees
/// either the whole batch (after) or none of it (before) — never a part.
pub proof fn lemma_batch_visibility(m: Map<Seq<u8>, Seq<u8>>, rows: Seq<(Seq<u8>, Seq<u8>)>)
    ensures
        forall|i: int|
            0 <= i < rows.len() ==> write_spec(m, rows).contains_key((#[trigger] rows[i]).0),
        forall|k: Seq<u8>|
            !(exists|i: int| 0 <= i < rows.len() && (#[trigger] rows[i]).0 == k) ==> get_spec(
                write_spec(m, rows),
                k,
            ) == get_spec(m, k),
{
    assert forall|i: int|
        0 <= i < rows.len() implies write_spec(m, rows).contains_key(
        (#[trigger] rows[i]).0,
    ) by {
        lemma_rows_map_contains(rows, rows[i].0);
    }
    assert forall|k: Seq<u8>|
        !(exists|i: int| 0 <= i < rows.len() && (#[trigger] rows[i]).0 == k) implies get_spec(
        write_spec(m, rows),
        k,
    ) == get_spec(m, k) by {
        lemma_rows_map_contains(rows, k);
        assert(!rows_map(rows).contains_key(k));
    }
}

/// Duplicate keys in one batch resolve deterministically: the batch's last
/// occurrence of a key, in the caller-supplied order, is the value a
/// subsequent lookup returns.
pub proof fn lemma_batch_last_wins(m: Map<Seq<u8>, Seq<u8>>, rows: Seq<(Seq<u8>, Seq<u8>)>, i: int)
    requires
        0 <= i < rows.len(),
        forall|j: int| i < j < rows.len() ==> (#[trigger] rows[j]).0 != rows[i].0,
    ensures
        get_spec(write_spec(m, rows), rows[i].0) == Some(rows[i].1),
{
    lemma_rows_map_at(rows, i);
}

/// A strictly key-sorted store is determined by its lookup map: two sorted
/// stores that answer every point lookup alike hold the same rows in the
/// same order. A contract stated over the map therefore pins the whole
/// store state, scan output included.
pub proof fn lemma_sorted_store_canonical(s1: Seq<(Seq<u8>, Seq<u8>)>, s2: Seq<(Seq<u8>, Seq<u8>)>)
    requires
        sorted_strict(s1),
        sorted_strict(s2),
        rows_map(s1) == rows_map(s2),
    ensures
        s1 == s2,
    decreases s1.len() + s2.len(),
{
    if s1.len() == 0 && s2.len() == 0 {
        assert(s1 =~= s2);
    } else if s1.len() == 0 {
        lemma_rows_map_at(s2, s2.len() - 1);
        lemma_rows_map_contains(s1, s2.last().0);
        assert(false);
    } else if s2.len() == 0 {
        lemma_rows_map_at(s1, s1.len() - 1);
        lemma_rows_map_contains(s2, s1.last().0);
        assert(false);
    } else {
        let k1 = s1.last().0;
        let k2 = s2.last().0;
        lemma_rows_map_at(s1, s1.len() - 1);
        lemma_rows_map_at(s2, s2.len() - 1);
        if k1 != k2 {
            // each last key occurs in the other store strictly before its
            // last row, so each is strictly below the other: impossible
            lemma_rows_map_contains(s2, k1);
            let i = choose|i: int| 0 <= i < s2.len() && (#[trigger] s2[i]).0 == k1;
            assert(lex_lt((s2[i]).0, (s2[s2.len() - 1]).0));
            lemma_rows_map_contains(s1, k2);
            let j = choose|j: int| 0 <= j < s1.len() && (#[trigger] s1[j]).0 == k2;
            assert(lex_lt((s1[j]).0, (s1[s1.len() - 1]).0));
            lemma_lex_lt_asym(k1, k2);
            assert(false);
        }
        assert(s1.last().1 == rows_map(s1)[k1]);
        assert(s2.last().1 == rows_map(s2)[k2]);
        assert(s1.last() == s2.last());
        let dl1 = s1.drop_last();
        let dl2 = s2.drop_last();
        assert forall|i: int, j: int| 0 <= i < j < dl1.len() implies lex_lt(
            (#[trigger] dl1[i]).0,
            (#[trigger] dl1[j]).0,
        ) by {
            assert(dl1[i] == s1[i] && dl1[j] == s1[j]);
        }
        assert forall|i: int, j: int| 0 <= i < j < dl2.len() implies lex_lt(
            (#[trigger] dl2[i]).0,
            (#[trigger] dl2[j]).0,
        ) by {
            assert(dl2[i] == s2[i] && dl2[j] == s2[j]);
        }
        // the last key occurs nowhere earlier, so dropping the last row
        // removes exactly that key from the map
        assert forall|i: int| 0 <= i < dl1.len() implies (#[trigger] dl1[i]).0 != k1 by {
            assert(dl1[i] == s1[i]);
            assert(lex_lt((s1[i]).0, k1));
            lemma_lex_lt_neq((s1[i]).0, k1);
        }
        assert forall|i: int| 0 <= i < dl2.len() implies (#[trigger] dl2[i]).0 != k2 by {
            assert(dl2[i] == s2[i]);
            assert(lex_lt((s2[i]).0, k2));
            lemma_lex_lt_neq((s2[i]).0, k2);
        }
        lemma_rows_map_contains(dl1, k1);
        lemma_rows_map_contains(dl2, k2);
        assert(rows_map(dl1) =~= rows_map(s1).remove(k1));
        assert(rows_map(dl2) =~= rows_map(s2).remove(k2));
        lemma_sorted_store_canonical(dl1, dl2);
        assert(dl1 =~= dl2);
        assert forall|i: int| 0 <= i < s1.len() implies s1[i] == s2[i] by {
            if i < s1.len() - 1 {
                assert(s1[i] == dl1[i] && s2[i] == dl2[i]);
            }
        }
        assert(s1 =~= s2);
    }
}

/// Compaction is idempotent and invisible to readers: compacting any number
/// of times changes no row, so a full scan returns the same rows afterwards.
pub proof fn lemma_compact_idempotent(s: Seq<(Seq<u8>, Seq<u8>)>)
    ensures
        compact_spec(compact_spec(s)) == compact_spec(s),
        spec_scan(compact_spec(compact_spec(s)), Seq::<u8>::empty()) == spec_scan(
            s,
            Seq::<u8>::empty(),
        ),
{
}

} // verus!
