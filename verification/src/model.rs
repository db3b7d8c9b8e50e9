//! The mathematical model of the store.
//!
//! A store state is a sequence of `(key, value)` pairs of byte sequences,
//! strictly sorted by key. Its point-lookup meaning is the map built by
//! applying the pairs in order, where a later pair for the same key wins.

use vstd::prelude::*;

use crate::bytes::is_prefix_of;
use crate::bytes::lex_lt;
use crate::store::DBRow;

verus! {

/// The views of a sequence of owned rows, as pairs of byte sequences.
pub open spec fn row_views(rows: Seq<DBRow>) -> Seq<(Seq<u8>, Seq<u8>)> {
    rows.map_values(|r: DBRow| r@)
}

/// The map a sequence of rows denotes: rows are applied in order, so a later
/// row with the same key overrides an earlier one (last occurrence wins).
pub open spec fn rows_map(rows: Seq<(Seq<u8>, Seq<u8>)>) -> Map<Seq<u8>, Seq<u8>>
    decreases rows.len(),
{
    if rows.len() == 0 {
        Map::empty()
    } else {
        rows_map(rows.drop_last()).insert(rows.last().0, rows.last().1)
    }
}

/// Keys occur in strictly ascending byte-wise order (so each key is unique).
pub open spec fn sorted_strict(s: Seq<(Seq<u8>, Seq<u8>)>) -> bool {
    forall|i: int, j: int|
        0 <= i < j < s.len() ==> lex_lt((#[trigger] s[i]).0, (#[trigger] s[j]).0)
}

/// Keys occur in ascending byte-wise order; equal keys may repeat.
pub open spec fn sorted_le(s: Seq<(Seq<u8>, Seq<u8>)>) -> bool {
    forall|i: int, j: int|
        0 <= i < j < s.len() ==> !lex_lt((#[trigger] s[j]).0, (#[trigger] s[i]).0)
}

/// The rows of `s` whose key begins with `prefix`, in their order in `s`.
pub open spec fn spec_scan(s: Seq<(Seq<u8>, Seq<u8>)>, prefix: Seq<u8>) -> Seq<
    (Seq<u8>, Seq<u8>),
>
    decreases s.len(),
{
    if s.len() == 0 {
        Seq::empty()
    } else if is_prefix_of(prefix, s.last().0) {
        spec_scan(s.drop_last(), prefix).push(s.last())
    } else {
        spec_scan(s.drop_last(), prefix)
    }
}

/// What a point lookup returns: the mapped value, or nothing when the key is
/// absent (absence is not an error).
pub open spec fn get_spec(m: Map<Seq<u8>, Seq<u8>>, k: Seq<u8>) -> Option<Seq<u8>> {
    if m.contains_key(k) {
        Some(m[k])
    } else {
        None
    }
}

/// What a batched write makes of the store's map: every row of the batch
/// becomes visible at once, a later duplicate key overriding an earlier one.
pub open spec fn write_spec(
    m: Map<Seq<u8>, Seq<u8>>,
    rows: Seq<(Seq<u8>, Seq<u8>)>,
) -> Map<Seq<u8>, Seq<u8>> {
    m.union_prefer_right(rows_map(rows))
}

/// What compaction makes of the store's contents: nothing. Compaction
/// reorganises storage; it never adds, drops or changes a row.
pub open spec fn compact_spec(s: Seq<(Seq<u8>, Seq<u8>)>) -> Seq<(Seq<u8>, Seq<u8>)> {
    s
}

/// The rows of `s` carrying key `k`, in their order in `s`.
pub open spec fn rows_with_key(s: Seq<(Seq<u8>, Seq<u8>)>, k: Seq<u8>) -> Seq<(Seq<u8>, Seq<u8>)>
    decreases s.len(),
{
    if s.len() == 0 {
        Seq::empty()
    } else if s.last().0 == k {
        rows_with_key(s.drop_last(), k).push(s.last())
    } else {
        rows_with_key(s.drop_last(), k)
    }
}

/// Inserting a row whose key differs from every key at or after the insertion
/// point appends it to its own key's rows and leaves every other key's rows
/// unchanged.
pub proof fn lemma_rows_with_key_insert(
    s: Seq<(Seq<u8>, Seq<u8>)>,
    j: int,
    row: (Seq<u8>, Seq<u8>),
    k: Seq<u8>,
)
    requires
        0 <= j <= s.len(),
        forall|idx: int| j <= idx < s.len() ==> (#[trigger] s[idx]).0 != row.0,
    ensures
        rows_with_key(s.insert(j, row), k) == if row.0 == k {
            rows_with_key(s, k).push(row)
        } else {
            rows_with_key(s, k)
        },
    decreases s.len(),
{
    if j == s.len() {
        assert(s.insert(j, row) =~= s.push(row));
        assert(s.push(row).drop_last() =~= s);
        assert(s.push(row).last() == row);
    } else {
        let t = s.insert(j, row);
        let last = s.last();
        assert(t.len() == s.len() + 1);
        assert(t[t.len() - 1] == s[s.len() - 1]);
        assert(t.drop_last() =~= s.drop_last().insert(j, row));
        assert(forall|idx: int|
            j <= idx < s.drop_last().len() ==> (#[trigger] s.drop_last()[idx]).0 != row.0);
        lemma_rows_with_key_insert(s.drop_last(), j, row, k);
        assert((s[s.len() - 1]).0 != row.0);
    }
}

/// A key is in the map of `s` exactly when some row of `s` carries it.
pub proof fn lemma_rows_map_contains(s: Seq<(Seq<u8>, Seq<u8>)>, k: Seq<u8>)
    ensures
        rows_map(s).contains_key(k) <==> exists|i: int|
            0 <= i < s.len() && (#[trigger] s[i]).0 == k,
    decreases s.len(),
{
    if s.len() > 0 {
        let dl = s.drop_last();
        lemma_rows_map_contains(dl, k);
        if rows_map(s).contains_key(k) {
            if k == s.last().0 {
                assert((s[s.len() - 1]).0 == k);
            } else {
                let i = choose|i: int| 0 <= i < dl.len() && (#[trigger] dl[i]).0 == k;
                assert((s[i]).0 == k);
            }
        }
        if exists|i: int| 0 <= i < s.len() && (#[trigger] s[i]).0 == k {
            let i = choose|i: int| 0 <= i < s.len() && (#[trigger] s[i]).0 == k;
            if i < s.len() - 1 {
                assert((dl[i]).0 == k);
            }
        }
    }
}

/// The row at a key's last occurrence gives that key's mapped value.
pub proof fn lemma_rows_map_at(s: Seq<(Seq<u8>, Seq<u8>)>, i: int)
    requires
        0 <= i < s.len(),
        forall|j: int| i < j < s.len() ==> (#[trigger] s[j]).0 != s[i].0,
    ensures
        rows_map(s).contains_key(s[i].0),
        rows_map(s)[s[i].0] == s[i].1,
    decreases s.len(),
{
    if i < s.len() - 1 {
        let dl = s.drop_last();
        assert((s[s.len() - 1]).0 != s[i].0);
        assert(dl[i] == s[i]);
        lemma_rows_map_at(dl, i);
    }
}

/// Inserting a row whose key differs from every key at or after the insertion
/// point updates the map at just that key.
pub proof fn lemma_rows_map_insert_mid(
    s: Seq<(Seq<u8>, Seq<u8>)>,
    j: int,
    row: (Seq<u8>, Seq<u8>),
)
    requires
        0 <= j <= s.len(),
        forall|idx: int| j <= idx < s.len() ==> (#[trigger] s[idx]).0 != row.0,
    ensures
        rows_map(s.insert(j, row)) == rows_map(s).insert(row.0, row.1),
    decreases s.len(),
{
    if j == s.len() {
        assert(s.insert(j, row) =~= s.push(row));
        assert(s.push(row).drop_last() =~= s);
        assert(s.push(row).last() == row);
    } else {
        let t = s.insert(j, row);
        let last = s.last();
        assert(t.len() == s.len() + 1);
        assert(t[t.len() - 1] == s[s.len() - 1]);
        assert(t.drop_last() =~= s.drop_last().insert(j, row));
        assert(forall|idx: int|
            j <= idx < s.drop_last().len() ==> (#[trigger] s.drop_last()[idx]).0 != row.0);
        lemma_rows_map_insert_mid(s.drop_last(), j, row);
        assert((s[s.len() - 1]).0 != row.0);
        assert(rows_map(s.drop_last()).insert(row.0, row.1).insert(last.0, last.1)
            =~= rows_map(s.drop_last()).insert(last.0, last.1).insert(row.0, row.1));
    }
}

/// Replacing the value at a key's last occurrence updates the map at just
/// that key.
pub proof fn lemma_rows_map_update(s: Seq<(Seq<u8>, Seq<u8>)>, i: int, v2: Seq<u8>)
    requires
        0 <= i < s.len(),
        forall|j: int| i < j < s.len() ==> (#[trigger] s[j]).0 != s[i].0,
    ensures
        rows_map(s.update(i, (s[i].0, v2))) == rows_map(s).insert(s[i].0, v2),
    decreases s.len(),
{
    let t = s.update(i, (s[i].0, v2));
    if i == s.len() - 1 {
        assert(t.drop_last() =~= s.drop_last());
        assert(t.last() == (s[i].0, v2));
        assert(rows_map(s.drop_last()).insert(s[i].0, s[i].1).insert(s[i].0, v2)
            =~= rows_map(s.drop_last()).insert(s[i].0, v2));
    } else {
        assert(t[t.len() - 1] == s[s.len() - 1]);
        assert(t.drop_last() =~= s.drop_last().update(i, (s[i].0, v2)));
        assert((s.drop_last())[i] == s[i]);
        assert(forall|j: int|
            i < j < s.drop_last().len() ==> (#[trigger] s.drop_last()[j]).0 != s[i].0);
        lemma_rows_map_update(s.drop_last(), i, v2);
        assert((s[s.len() - 1]).0 != s[i].0);
        assert(rows_map(s.drop_last()).insert(s[i].0, v2).insert(s.last().0, s.last().1)
            =~= rows_map(s.drop_last()).insert(s.last().0, s.last().1).insert(s[i].0, v2));
    }
}

} // verus!
