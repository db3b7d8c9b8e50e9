//! The deterministic key sort applied to a batch before it is written.
//!
//! The sort is stable: rows with equal keys keep their original relative
//! order, so the last occurrence of a duplicate key in the caller's order is
//! still the last after sorting. That makes the batch's last-wins meaning
//! (`rows_map`) invariant under sorting, which the contract states.

use vstd::prelude::*;

use crate::bytes::lex_lt;
use crate::bytes::lex_lt_bytes;
use crate::bytes::lemma_lex_lt_asym;
use crate::bytes::lemma_lex_lt_connected;
use crate::bytes::lemma_lex_lt_neq;
use crate::bytes::lemma_lex_lt_trans;
use crate::model::lemma_rows_map_insert_mid;
use crate::model::lemma_rows_with_key_insert;
use crate::model::row_views;
use crate::model::rows_map;
use crate::model::rows_with_key;
use crate::model::sorted_le;
use crate::store::DBRow;

verus! {

/// The position after every row whose key is not above `key`; inserting there
/// keeps the rows sorted and places a duplicate key after its earlier copies.
fn find_insert_pos(out: &Vec<DBRow>, key: &[u8]) -> (pos: usize)
    requires
        sorted_le(row_views(out@)),
    ensures
        0 <= pos <= out@.len(),
        forall|i: int| 0 <= i < pos ==> !lex_lt(key@, (#[trigger] row_views(out@)[i]).0),
        pos < out@.len() ==> lex_lt(key@, row_views(out@)[pos as int].0),
{
    let n = out.len();
    let mut pos: usize = 0;
    while pos < n
        invariant
            n == out@.len(),
            0 <= pos <= n,
            forall|i: int| 0 <= i < pos ==> !lex_lt(key@, (#[trigger] row_views(out@)[i]).0),
        decreases n - pos,
    {
        proof {
            assert(row_views(out@)[pos as int] == (out@[pos as int].key@,
                out@[pos as int].value@));
        }
        if lex_lt_bytes(key, out[pos].key.as_slice()) {
            return pos;
        }
        pos = pos + 1;
    }
    pos
}

/// Sorts a batch of rows by key in ascending byte-wise order.
///
/// The result is a reordering of the input (same rows, as a multiset), it is
/// sorted by key, and the sort is stable: each key's rows keep their original
/// relative order, so the batch denotes the same last-wins map as in the
/// caller-supplied order.
pub fn sort_rows(rows: Vec<DBRow>) -> (r: Vec<DBRow>)
    ensures
        sorted_le(row_views(r@)),
        rows_map(row_views(r@)) == rows_map(row_views(rows@)),
        row_views(r@).to_multiset() == row_views(rows@).to_multiset(),
        r@.len() == rows@.len(),
        forall|k: Seq<u8>| #[trigger] rows_with_key(row_views(r@), k) == rows_with_key(
            row_views(rows@),
            k,
        ),
{
    broadcast use vstd::seq_lib::group_to_multiset_ensures;

    let ghost orig = row_views(rows@);
    let mut rest = rows;
    let mut out: Vec<DBRow> = Vec::new();
    let ghost mut processed: Seq<(Seq<u8>, Seq<u8>)> = Seq::empty();
    proof {
        assert(processed + row_views(rest@) =~= orig);
        assert(row_views(out@) =~= Seq::<(Seq<u8>, Seq<u8>)>::empty());
    }
    while rest.len() > 0
        invariant
            processed + row_views(rest@) == orig,
            out@.len() == processed.len(),
            sorted_le(row_views(out@)),
            rows_map(row_views(out@)) == rows_map(processed),
            row_views(out@).to_multiset() == processed.to_multiset(),
            forall|k: Seq<u8>| #[trigger] rows_with_key(row_views(out@), k) == rows_with_key(
                processed,
                k,
            ),
        decreases rest@.len(),
    {
        let ghost rest_before = rest@;
        let row = rest.remove(0);
        let ghost rv = (row.key@, row.value@);
        proof {
            assert(row_views(rest_before) =~= seq![rv] + row_views(rest@));
            assert((processed + seq![rv]) + row_views(rest@) =~= orig);
            assert(processed + seq![rv] =~= processed.push(rv));
        }
        let pos = find_insert_pos(&out, row.key.as_slice());
        let ghost ov = row_views(out@);
        proof {
            // every key at or after pos lies strictly above the new key
            assert forall|idx: int| pos <= idx < ov.len() implies lex_lt(
                rv.0,
                (#[trigger] ov[idx]).0,
            ) by {
                if idx > pos {
                    if lex_lt(ov[pos as int].0, ov[idx].0) {
                        lemma_lex_lt_trans(rv.0, ov[pos as int].0, ov[idx].0);
                    } else {
                        lemma_lex_lt_connected(ov[pos as int].0, ov[idx].0);
                    }
                }
            }
        }
        out.insert(pos, row);
        proof {
            let inserted = ov.insert(pos as int, rv);
            assert forall|i: int| 0 <= i < row_views(out@).len() implies row_views(out@)[i]
                == inserted[i] by {
                assert(row_views(out@)[i] == (out@[i].key@, out@[i].value@));
            }
            assert(row_views(out@) =~= inserted);
            // order is kept
            assert forall|i: int, j: int|
                0 <= i < j < inserted.len() implies !lex_lt(
                (#[trigger] inserted[j]).0,
                (#[trigger] inserted[i]).0,
            ) by {
                if j < pos {
                    assert(inserted[i] == ov[i] && inserted[j] == ov[j]);
                } else if i < pos && j == pos {
                    assert(inserted[i] == ov[i] && inserted[j] == rv);
                } else if i < pos && j > pos {
                    assert(inserted[i] == ov[i] && inserted[j] == ov[j - 1]);
                } else if i == pos {
                    assert(inserted[i] == rv && inserted[j] == ov[j - 1]);
                    lemma_lex_lt_asym(rv.0, ov[j - 1].0);
                } else {
                    assert(inserted[i] == ov[i - 1] && inserted[j] == ov[j - 1]);
                }
            }
            // the keys after the insertion point differ from the new key
            assert forall|idx: int| pos <= idx < ov.len() implies (#[trigger] ov[idx]).0
                != rv.0 by {
                lemma_lex_lt_neq(rv.0, ov[idx].0);
            }
            lemma_rows_map_insert_mid(ov, pos as int, rv);
            // the batch's map gains the new row, matching processed.push(rv)
            assert(processed.push(rv).drop_last() =~= processed);
            // the rows are preserved as a multiset
            assert(inserted.remove(pos as int) =~= ov);
            assert(inserted[pos as int] == rv);
            assert(inserted.contains(rv));
            inserted.to_multiset_ensures();
            assert(inserted.remove(pos as int).to_multiset() =~= inserted.to_multiset().remove(
                rv,
            ));
            assert(inserted.to_multiset().count(rv) > 0);
            assert(inserted.to_multiset() =~= ov.to_multiset().insert(rv));
            processed.to_multiset_ensures();
            assert(processed.push(rv).to_multiset() =~= processed.to_multiset().insert(rv));
            // stability: the new row joins the end of its own key's rows on
            // both sides, and no other key's rows move
            assert forall|k: Seq<u8>| #[trigger] rows_with_key(inserted, k) == rows_with_key(
                processed.push(rv),
                k,
            ) by {
                lemma_rows_with_key_insert(ov, pos as int, rv, k);
                assert(processed.push(rv).drop_last() =~= processed);
                assert(processed.push(rv).last() == rv);
            }
            processed = processed.push(rv);
        }
    }
    proof {
        assert(row_views(rest@) =~= Seq::<(Seq<u8>, Seq<u8>)>::empty());
        assert(processed =~= orig);
    }
    out
}

} // verus!
