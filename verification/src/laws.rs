//! The library's stated laws, proved over the join model: determinism of a
//! run, preservation of the driver's key order, the layout of the output
//! header, totality of the inner join, and last-write-wins indexing.

use vstd::prelude::*;

use crate::errors::JoinErrorModel;
use crate::join::header_model;
use crate::join::index_model;
use crate::join::outs_up_to;
use crate::model::EntryModel;
use crate::model::find_key;
use crate::model::first_missing;
use crate::model::first_unresolved;
use crate::model::first_seen;
use crate::model::indexed_of;
use crate::model::join_rows;
use crate::model::keys_of;
use crate::model::last_index_of;
use crate::model::lemma_find_key;
use crate::model::lemma_first_missing_from;
use crate::model::lemma_indexed_of_distinct;
use crate::model::lemma_last_index_of;
use crate::model::lemma_upsert_lookup;
use crate::model::lookup;
use crate::model::out_row;
use crate::model::row_keys;
use crate::model::select;
use crate::model::upsert;
use crate::pipeline::run_model;
use crate::tables::JoinSpecModel;

verus! {

/// Determinism: a run's outcome is a function of the specification and the
/// raw source bytes alone, so two runs on the same inputs yield the same
/// bytes, or the same error.
pub proof fn lemma_run_deterministic(
    m: JoinSpecModel,
    files: Seq<Seq<u8>>,
    r1: Result<Seq<u8>, JoinErrorModel>,
    r2: Result<Seq<u8>, JoinErrorModel>,
)
    requires
        r1 == run_model(m, files),
        r2 == run_model(m, files),
    ensures
        r1 == r2,
{
}

/// Key-order preservation, part one: the joined output has one row per
/// driver entry, and row `i` begins with the driver's `i`-th key, so row
/// order is the driver's key order.
pub proof fn lemma_rows_follow_driver(views: Seq<Seq<EntryModel>>)
    requires
        views.len() >= 1,
    ensures
        join_rows(views).len() == views[0].len(),
        forall|i: int|
            0 <= i < views[0].len() ==> #[trigger] join_rows(views)[i].take(
                views[0][i].0.len() as int,
            ) == views[0][i].0,
{
    assert forall|i: int|
        0 <= i < views[0].len() implies #[trigger] join_rows(views)[i].take(
        views[0][i].0.len() as int,
    ) == views[0][i].0 by {
        assert(join_rows(views)[i] == out_row(views, i));
        assert(out_row(views, i).take(views[0][i].0.len() as int) =~= views[0][i].0);
    }
}

/// Key-order preservation, part two: the key column of the output depends on
/// the driver alone; two joins with the same driver but any other sources
/// put the same keys in the same row positions.
pub proof fn lemma_row_order_independent(v1: Seq<Seq<EntryModel>>, v2: Seq<Seq<EntryModel>>)
    requires
        v1.len() >= 1,
        v2.len() >= 1,
        v1[0] == v2[0],
    ensures
        join_rows(v1).len() == join_rows(v2).len(),
        forall|i: int|
            0 <= i < v1[0].len() ==> #[trigger] join_rows(v1)[i].take(v1[0][i].0.len() as int)
                == join_rows(v2)[i].take(v1[0][i].0.len() as int),
{
    lemma_rows_follow_driver(v1);
    lemma_rows_follow_driver(v2);
}

/// Key-order preservation, part three: an indexed source's keys are exactly
/// its rows' keys with repeats dropped, in first-appearance order.
pub proof fn lemma_driver_key_order(rows: Seq<Seq<Seq<char>>>, key_idx: Seq<int>, proj_idx: Seq<int>)
    ensures
        keys_of(indexed_of(rows, key_idx, proj_idx)) == first_seen(row_keys(rows, key_idx)),
    decreases rows.len(),
{
    let keys = row_keys(rows, key_idx);
    if rows.len() == 0 {
        assert(keys_of(indexed_of(rows, key_idx, proj_idx)) =~= first_seen(keys));
    } else {
        lemma_driver_key_order(rows.drop_last(), key_idx, proj_idx);
        let prev = indexed_of(rows.drop_last(), key_idx, proj_idx);
        let prior = first_seen(keys.drop_last());
        let klast = select(rows.last(), key_idx);
        assert(row_keys(rows.drop_last(), key_idx) =~= keys.drop_last());
        assert(keys.last() == klast);
        lemma_find_key(prev, klast);
        match find_key(prev, klast) {
            Some(i) => {
                assert(keys_of(prev)[i] == klast);
                assert(prior.contains(klast));
                assert(keys_of(upsert(prev, klast, select(rows.last(), proj_idx))) =~= keys_of(
                    prev,
                ));
            },
            None => {
                if prior.contains(klast) {
                    let i = choose|i: int| 0 <= i < prior.len() && prior[i] == klast;
                    assert(keys_of(prev)[i] == klast);
                    assert(prev[i].0 == klast);
                    assert(false);
                }
                assert(keys_of(upsert(prev, klast, select(rows.last(), proj_idx))) =~= keys_of(
                    prev,
                ).push(klast));
            },
        }
    }
}

/// Column-order contract: the output header is the key columns in
/// specification order, followed by each source's projection output names in
/// declaration order.
pub proof fn lemma_header_layout(m: JoinSpecModel)
    ensures
        header_model(m).len() == m.key.len() + outs_up_to(m.sources, m.sources.len() as int).len(),
        header_model(m).take(m.key.len() as int) == m.key,
        header_model(m).skip(m.key.len() as int) == outs_up_to(
            m.sources,
            m.sources.len() as int,
        ),
{
    assert(header_model(m).take(m.key.len() as int) =~= m.key);
    assert(header_model(m).skip(m.key.len() as int) =~= outs_up_to(
        m.sources,
        m.sources.len() as int,
    ));
}

/// Missing-column failure: a key or projection column absent from a source's
/// header fails the indexing with `ColumnNotFound` before any row is read —
/// the outcome is the same whatever rows the source holds.
pub proof fn lemma_missing_column_fails_first(
    header: Seq<Seq<char>>,
    rows1: Seq<Seq<Seq<char>>>,
    rows2: Seq<Seq<Seq<char>>>,
    key_cols: Seq<Seq<char>>,
    proj_cols: Seq<Seq<char>>,
)
    requires
        first_unresolved(header, key_cols + proj_cols) is Some,
    ensures
        index_model(header, rows1, key_cols, proj_cols) == index_model(
            header,
            rows2,
            key_cols,
            proj_cols,
        ),
        index_model(header, rows1, key_cols, proj_cols) matches Err(e) && e is ColumnNotFound,
{
}

/// Inner-join totality: the join succeeds exactly when every driver key is
/// present in every other source, and then emits one row per driver entry,
/// so no row is ever silently dropped.
pub proof fn lemma_inner_join_total(views: Seq<Seq<EntryModel>>)
    requires
        views.len() >= 1,
    ensures
        first_missing(views) is None <==> (forall|i: int, j: int|
            0 <= i < views[0].len() && 1 <= j < views.len() ==> lookup(
                views[j],
                views[0][i].0,
            ) is Some),
        join_rows(views).len() == views[0].len(),
{
    lemma_first_missing_from(views, 0);
}

/// Last write wins: when several rows of one source share a key, the indexed
/// source holds the last such row's projection under that key.
pub proof fn lemma_last_write_wins(
    rows: Seq<Seq<Seq<char>>>,
    key_idx: Seq<int>,
    proj_idx: Seq<int>,
    k: Seq<Seq<char>>,
)
    requires
        exists|t: int| 0 <= t < rows.len() && #[trigger] select(rows[t], key_idx) == k,
    ensures
        ({
            let t = last_index_of(row_keys(rows, key_idx), k);
            &&& 0 <= t < rows.len()
            &&& select(rows[t], key_idx) == k
            &&& forall|u: int| t < u < rows.len() ==> select(rows[u], key_idx) != k
            &&& lookup(indexed_of(rows, key_idx, proj_idx), k) == Some(select(rows[t], proj_idx))
        }),
    decreases rows.len(),
{
    let keys = row_keys(rows, key_idx);
    let t0 = choose|t: int| 0 <= t < rows.len() && select(rows[t], key_idx) == k;
    assert(keys[t0] == k);
    lemma_last_index_of(keys, k);
    let t = last_index_of(keys, k);
    let prev = indexed_of(rows.drop_last(), key_idx, proj_idx);
    let klast = select(rows.last(), key_idx);
    let vlast = select(rows.last(), proj_idx);
    lemma_indexed_of_distinct(rows.drop_last(), key_idx, proj_idx);
    lemma_upsert_lookup(prev, klast, vlast, k);
    assert(row_keys(rows.drop_last(), key_idx) =~= keys.drop_last());
    assert(forall|u: int| 0 <= u < rows.len() - 1 ==> rows.drop_last()[u] == rows[u]);
    if klast == k {
        assert(keys.last() == k);
        assert(t == rows.len() - 1);
    } else {
        assert(keys.last() != k);
        assert(t0 < rows.len() - 1);
        assert(select(rows.drop_last()[t0], key_idx) == k);
        lemma_last_write_wins(rows.drop_last(), key_idx, proj_idx, k);
        assert(last_index_of(keys.drop_last(), k) == t);
        assert(rows.drop_last()[t] == rows[t]);
    }
}

} // verus!
