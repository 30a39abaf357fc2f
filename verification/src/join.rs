//! The join engine: resolving requested columns against a header, indexing a
//! source's rows, and assembling the joined output.

use vstd::prelude::*;

use crate::errors::JoinError;
use crate::errors::JoinErrorModel;
use crate::indexed::IndexedSource;
use crate::model::EntryModel;
use crate::model::col_index;
use crate::model::first_bad_row;
use crate::model::first_missing;
use crate::model::first_unresolved;
use crate::model::indexed_of;
use crate::model::join_rows;
use crate::model::lemma_col_index;
use crate::model::lemma_first_bad_row;
use crate::model::lemma_first_missing_from;
use crate::model::lemma_first_unresolved;
use crate::model::lemma_missing_at;
use crate::model::lookup;
use crate::model::missing_at;
use crate::model::out_row;
use crate::model::row_tail;
use crate::model::select;
use crate::tables::JoinSpec;
use crate::tables::JoinSpecModel;
use crate::tables::SourceModel;
use crate::tables::clone_cells;
use crate::tables::clone_string;
use crate::tables::proj_outputs;

verus! {

/// The offsets of a resolved column list, as mathematical integers.
pub open spec fn to_ints(s: Seq<usize>) -> Seq<int> {
    s.map_values(|u: usize| u as int)
}

/// The offsets that `cols` resolve to in `header`, assuming all resolve.
pub open spec fn resolved(header: Seq<Seq<char>>, cols: Seq<Seq<char>>) -> Seq<int> {
    cols.map_values(|c: Seq<char>| col_index(header, c)->Some_0)
}

/// The offset `name` resolves to in `header`: the last matching cell.
fn find_column(header: &Vec<String>, name: &String) -> (r: Option<usize>)
    ensures
        match r {
            Some(i) => col_index(header.deep_view(), name@) == Some(i as int),
            None => col_index(header.deep_view(), name@) is None,
        },
{
    let mut found: Option<usize> = None;
    let mut i: usize = 0;
    while i < header.len()
        invariant
            i <= header.len(),
            match found {
                Some(f) => f < i && col_index(header.deep_view().take(i as int), name@) == Some(
                    f as int,
                ),
                None => col_index(header.deep_view().take(i as int), name@) is None,
            },
        decreases header.len() - i,
    {
        if header[i] == *name {
            found = Some(i);
        }
        proof {
            assert(header.deep_view().take(i + 1 as int).drop_last() =~= header.deep_view().take(
                i as int,
            ));
            assert(header.deep_view().take(i + 1 as int).last() == header.deep_view()[i as int]);
        }
        i = i + 1;
    }
    proof {
        assert(header.deep_view().take(header.len() as int) =~= header.deep_view());
    }
    found
}

/// Resolves every requested column name to its positional offset in the
/// header, failing on the first name the header lacks.  All names are
/// resolved before any row is processed.
pub fn resolve_columns(header: &Vec<String>, cols: &Vec<String>) -> (r: Result<
    Vec<usize>,
    JoinError,
>)
    ensures
        match r {
            Ok(idxs) => {
                &&& first_unresolved(header.deep_view(), cols.deep_view()) is None
                &&& idxs.len() == cols.len()
                &&& forall|j: int|
                    0 <= j < cols.len() ==> col_index(header.deep_view(), cols.deep_view()[j])
                        == Some(idxs[j] as int)
            },
            Err(e) => first_unresolved(header.deep_view(), cols.deep_view()) matches Some(j) && e@
                == (JoinErrorModel::ColumnNotFound { column: cols.deep_view()[j] }),
        },
{
    let ghost hd = header.deep_view();
    let ghost cd = cols.deep_view();
    let mut idxs: Vec<usize> = Vec::new();
    let mut j: usize = 0;
    while j < cols.len()
        invariant
            j <= cols.len(),
            idxs.len() == j,
            hd == header.deep_view(),
            cd == cols.deep_view(),
            forall|t: int| 0 <= t < j ==> col_index(hd, cd[t]) == Some(idxs[t] as int),
        decreases cols.len() - j,
    {
        match find_column(header, &cols[j]) {
            Some(i) => {
                idxs.push(i);
            },
            None => {
                proof {
                    assert(col_index(hd, cd[j as int]) is None);
                    lemma_first_unresolved(hd, cd);
                    match first_unresolved(hd, cd) {
                        Some(m) => {
                            assert(m == j);
                        },
                        None => {
                            assert(false);
                        },
                    }
                }
                return Err(JoinError::ColumnNotFound { column: clone_string(&cols[j]) });
            },
        }
        j = j + 1;
    }
    proof {
        lemma_first_unresolved(hd, cd);
        match first_unresolved(hd, cd) {
            Some(m) => {
                assert(col_index(hd, cd[m]) is Some);
            },
            None => {},
        }
    }
    Ok(idxs)
}

/// The cells of `row` at the given offsets, in that order.
fn select_cells(row: &Vec<String>, idxs: &Vec<usize>) -> (r: Vec<String>)
    requires
        forall|j: int| 0 <= j < idxs.len() ==> idxs[j] < row.len(),
    ensures
        r.deep_view() == select(row.deep_view(), to_ints(idxs@)),
{
    let mut r: Vec<String> = Vec::new();
    let mut j: usize = 0;
    while j < idxs.len()
        invariant
            j <= idxs.len(),
            r.len() == j,
            forall|t: int| 0 <= t < idxs.len() ==> idxs[t] < row.len(),
            forall|t: int| 0 <= t < j ==> r@[t]@ == row.deep_view()[idxs[t] as int],
        decreases idxs.len() - j,
    {
        r.push(clone_string(&row[idxs[j]]));
        j = j + 1;
    }
    assert(r.deep_view() =~= select(row.deep_view(), to_ints(idxs@)));
    r
}

/// Appends copies of `src`'s cells to `dst`.
fn append_cells(dst: &mut Vec<String>, src: &Vec<String>)
    ensures
        final(dst).deep_view() == old(dst).deep_view() + src.deep_view(),
{
    let ghost n = old(dst).len() as int;
    let mut j: usize = 0;
    while j < src.len()
        invariant
            n == old(dst)@.len(),
            j <= src.len(),
            dst.len() == n + j,
            forall|t: int| 0 <= t < n ==> dst@[t] == old(dst)@[t],
            forall|t: int| 0 <= t < j ==> dst@[n + t]@ == #[trigger] src@[t]@,
        decreases src.len() - j,
    {
        dst.push(clone_string(&src[j]));
        j = j + 1;
    }
    assert(dst.deep_view() =~= old(dst).deep_view() + src.deep_view());
}

/// What indexing one source's parsed table must yield: the first missing
/// column (key columns before projection columns) fails with
/// `ColumnNotFound`; then the first row of the wrong width fails with
/// `RowParse`; otherwise the rows are upserted in file order.
pub open spec fn index_model(
    header: Seq<Seq<char>>,
    rows: Seq<Seq<Seq<char>>>,
    key_cols: Seq<Seq<char>>,
    proj_cols: Seq<Seq<char>>,
) -> Result<Seq<EntryModel>, JoinErrorModel> {
    let req = key_cols + proj_cols;
    match first_unresolved(header, req) {
        Some(j) => Err(JoinErrorModel::ColumnNotFound { column: req[j] }),
        None => match first_bad_row(header.len() as int, rows) {
            Some(i) => Err(JoinErrorModel::RowParse { row: Some((i + 1) as u64) }),
            None => Ok(
                indexed_of(rows, resolved(header, key_cols), resolved(header, proj_cols)),
            ),
        },
    }
}

/// Indexes one source's parsed table: resolves every key and projection
/// column against the header (all of them, before any row is touched), then
/// builds the key-to-projection mapping row by row, later rows overwriting
/// earlier ones with the same key.
pub fn index_rows(
    header: &Vec<String>,
    rows: &Vec<Vec<String>>,
    key_cols: &Vec<String>,
    proj_cols: &Vec<String>,
) -> (r: Result<IndexedSource, JoinError>)
    ensures
        match r {
            Ok(ix) => ix.wf() && index_model(
                header.deep_view(),
                rows.deep_view(),
                key_cols.deep_view(),
                proj_cols.deep_view(),
            ) == Ok::<Seq<EntryModel>, JoinErrorModel>(ix@),
            Err(e) => index_model(
                header.deep_view(),
                rows.deep_view(),
                key_cols.deep_view(),
                proj_cols.deep_view(),
            ) == Err::<Seq<EntryModel>, JoinErrorModel>(e@),
        },
{
    let ghost hd = header.deep_view();
    let ghost rd = rows.deep_view();
    let ghost kd = key_cols.deep_view();
    let ghost pd = proj_cols.deep_view();
    let mut requested = clone_cells(key_cols);
    append_cells(&mut requested, proj_cols);
    assert(requested.deep_view() == kd + pd);
    let idxs = match resolve_columns(header, &requested) {
        Ok(idxs) => idxs,
        Err(e) => {
            return Err(e);
        },
    };
    let mut key_idx: Vec<usize> = Vec::new();
    let mut j: usize = 0;
    while j < key_cols.len()
        invariant
            idxs.len() == kd.len() + pd.len(),
            key_cols.len() == kd.len(),
            j <= key_cols.len(),
            key_idx.len() == j,
            forall|t: int| 0 <= t < j ==> key_idx[t] == idxs[t],
        decreases key_cols.len() - j,
    {
        key_idx.push(idxs[j]);
        j = j + 1;
    }
    let mut proj_idx: Vec<usize> = Vec::new();
    let mut j: usize = key_cols.len();
    while j < idxs.len()
        invariant
            idxs.len() == kd.len() + pd.len(),
            key_cols.len() == kd.len(),
            key_cols.len() <= j <= idxs.len(),
            proj_idx.len() == j - key_cols.len(),
            forall|t: int| 0 <= t < proj_idx.len() ==> proj_idx[t] == idxs[kd.len() + t],
        decreases idxs.len() - j,
    {
        proj_idx.push(idxs[j]);
        j = j + 1;
    }
    proof {
        assert(to_ints(key_idx@) =~= resolved(hd, kd));
        assert(to_ints(proj_idx@) =~= resolved(hd, pd));
        assert forall|t: int| 0 <= t < key_idx.len() implies key_idx[t] < header.len() by {
            lemma_col_index(hd, kd[t]);
        }
        assert forall|t: int| 0 <= t < proj_idx.len() implies proj_idx[t] < header.len() by {
            lemma_col_index(hd, pd[t]);
        }
    }
    let width = header.len();
    let mut ix = IndexedSource::new();
    let mut i: usize = 0;
    while i < rows.len()
        invariant
            hd == header.deep_view(),
            rd == rows.deep_view(),
            kd == key_cols.deep_view(),
            pd == proj_cols.deep_view(),
            width == hd.len(),
            first_unresolved(hd, kd + pd) is None,
            to_ints(key_idx@) == resolved(hd, kd),
            to_ints(proj_idx@) == resolved(hd, pd),
            i <= rows.len(),
            ix.wf(),
            forall|t: int| 0 <= t < key_idx.len() ==> key_idx[t] < width,
            forall|t: int| 0 <= t < proj_idx.len() ==> proj_idx[t] < width,
            forall|t: int| 0 <= t < i ==> rd[t].len() == width,
            ix@ == indexed_of(rd.take(i as int), to_ints(key_idx@), to_ints(proj_idx@)),
        decreases rows.len() - i,
    {
        let row = &rows[i];
        if row.len() != width {
            proof {
                assert(rd[i as int] == row.deep_view());
                assert(rd[i as int].len() == row@.len());
                lemma_first_bad_row(width as int, rd);
                match first_bad_row(width as int, rd) {
                    Some(b) => {
                        assert(b == i);
                        assert((b + 1) as u64 == (i as u64) + 1);
                    },
                    None => {
                        assert(false);
                    },
                }
            }
            let ordinal: u64 = (i as u64) + 1;
            return Err(JoinError::RowParse { row: Some(ordinal) });
        }
        let key = select_cells(row, &key_idx);
        let proj = select_cells(row, &proj_idx);
        ix.insert(key, proj);
        proof {
            assert(rd.take(i + 1 as int).drop_last() =~= rd.take(i as int));
            assert(rd.take(i + 1 as int).last() == rd[i as int]);
        }
        i = i + 1;
    }
    proof {
        lemma_first_bad_row(width as int, rd);
        match first_bad_row(width as int, rd) {
            Some(b) => {
                assert(rd[b].len() == width);
            },
            None => {},
        }
        assert(rd.take(rows.len() as int) =~= rd);
    }
    Ok(ix)
}

/// The output column names contributed by the first `n` sources: each
/// source's projection output names, in declaration order.
pub open spec fn outs_up_to(sources: Seq<SourceModel>, n: int) -> Seq<Seq<char>>
    decreases n,
{
    if n <= 0 {
        Seq::empty()
    } else {
        outs_up_to(sources, n - 1) + proj_outputs(sources[n - 1].projections)
    }
}

/// The output header: the key column names in specification order, then each
/// source's projection output names in declaration order.
pub open spec fn header_model(m: JoinSpecModel) -> Seq<Seq<char>> {
    m.key + outs_up_to(m.sources, m.sources.len() as int)
}

/// Builds the output header row.
pub fn assemble_header(spec: &JoinSpec) -> (h: Vec<String>)
    ensures
        h.deep_view() == header_model(spec@),
{
    let ghost m = spec@;
    let mut h = clone_cells(&spec.key);
    let mut s: usize = 0;
    while s < spec.sources.len()
        invariant
            m == spec@,
            s <= spec.sources.len(),
            h.deep_view() == m.key + outs_up_to(m.sources, s as int),
        decreases spec.sources.len() - s,
    {
        let src = &spec.sources[s];
        let ghost base = h.deep_view();
        let mut p: usize = 0;
        while p < src.projections.len()
            invariant
                m == spec@,
                s < spec.sources.len(),
                src == &spec.sources[s as int],
                base == m.key + outs_up_to(m.sources, s as int),
                p <= src.projections.len(),
                h.len() == base.len() + p,
                forall|t: int| 0 <= t < base.len() ==> h.deep_view()[t] == base[t],
                forall|t: int|
                    0 <= t < p ==> h.deep_view()[base.len() + t] == #[trigger] m.sources[s as int].projections[t].1,
            decreases src.projections.len() - p,
        {
            h.push(clone_string(&src.projections[p].1));
            p = p + 1;
        }
        proof {
            assert(m.sources[s as int] == src@);
            assert(h.deep_view() =~= base + proj_outputs(m.sources[s as int].projections));
            assert(h.deep_view() =~= m.key + outs_up_to(m.sources, s + 1 as int));
        }
        s = s + 1;
    }
    h
}

/// The specification-level contents of a list of indexed sources.
pub open spec fn views_of(sources: Seq<IndexedSource>) -> Seq<Seq<EntryModel>> {
    sources.map_values(|s: IndexedSource| s@)
}

/// Joins the indexed sources: one output row per driver entry, in driver
/// iteration order, each row holding the key, the driver's projection, then
/// every other source's projection for that key.  A driver key that some
/// other source lacks fails the whole join, naming the key and the first such
/// source; no row is silently dropped.
pub fn assemble_rows(sources: &Vec<IndexedSource>) -> (r: Result<Vec<Vec<String>>, JoinError>)
    requires
        sources.len() >= 1,
        forall|t: int| 0 <= t < sources.len() ==> sources[t].wf(),
    ensures
        match r {
            Ok(rows) => first_missing(views_of(sources@)) is None && rows.deep_view() == join_rows(
                views_of(sources@),
            ),
            Err(e) => first_missing(views_of(sources@)) matches Some(p) && e@
                == (JoinErrorModel::JoinKeyMissing {
                key: views_of(sources@)[0][p.0].0,
                source: p.1,
            }),
        },
{
    let ghost views = views_of(sources@);
    let driver = &sources[0];
    assert(driver@ == views[0]);
    let n = driver.len();
    let mut out: Vec<Vec<String>> = Vec::new();
    let mut i: usize = 0;
    while i < n
        invariant
            views == views_of(sources@),
            sources.len() >= 1,
            forall|t: int| 0 <= t < sources.len() ==> sources[t].wf(),
            driver == &sources[0],
            n == views[0].len(),
            i <= n,
            out.len() == i,
            forall|t: int| 0 <= t < i ==> out.deep_view()[t] == #[trigger] out_row(views, t),
            forall|t: int, u: int|
                0 <= t < i && 1 <= u < views.len() ==> lookup(views[u], views[0][t].0) is Some,
        decreases n - i,
    {
        let (k, p) = driver.entry_at(i);
        let ghost key = views[0][i as int].0;
        let mut row = clone_cells(k);
        append_cells(&mut row, p);
        let mut j: usize = 1;
        while j < sources.len()
            invariant
                views == views_of(sources@),
                sources.len() >= 1,
                forall|t: int| 0 <= t < sources.len() ==> sources[t].wf(),
                i < views[0].len(),
                key == views[0][i as int].0,
                k.deep_view() == key,
                1 <= j <= sources.len(),
                row.deep_view() == views[0][i as int].0 + views[0][i as int].1 + row_tail(
                    views,
                    key,
                    j as int,
                ),
                forall|u: int| 1 <= u < j ==> lookup(views[u], key) is Some,
                forall|t: int, u: int|
                    0 <= t < i && 1 <= u < views.len() ==> lookup(views[u], views[0][t].0) is Some,
            decreases sources.len() - j,
        {
            match sources[j].get(k) {
                Some(v) => {
                    append_cells(&mut row, v);
                    assert(row.deep_view() =~= views[0][i as int].0 + views[0][i as int].1
                        + row_tail(views, key, j + 1 as int));
                },
                None => {
                    proof {
                        lemma_missing_at(views, key, 1);
                        match missing_at(views, key, 1) {
                            Some(mj) => {
                                assert(mj == j);
                            },
                            None => {
                                assert(false);
                            },
                        }
                        lemma_first_missing_from(views, 0);
                        match first_missing(views) {
                            Some(fp) => {
                                assert(fp.0 == i && fp.1 == j);
                            },
                            None => {
                                assert(false);
                            },
                        }
                    }
                    return Err(
                        JoinError::JoinKeyMissing { key: clone_cells(k), source: j },
                    );
                },
            }
            j = j + 1;
        }
        out.push(row);
        proof {
            assert(out.deep_view()[i as int] == out_row(views, i as int));
            assert(forall|t: int|
                0 <= t < i ==> out.deep_view()[t] == #[trigger] out_row(views, t));
        }
        i = i + 1;
    }
    proof {
        lemma_first_missing_from(views, 0);
        match first_missing(views) {
            Some(fp) => {
                assert(lookup(views[fp.1], views[0][fp.0].0) is Some);
            },
            None => {},
        }
        assert(out.deep_view() =~= join_rows(views));
    }
    Ok(out)
}

} // verus!
