//! The mathematical model of the join: column resolution, per-source
//! indexing with insertion-ordered, last-write-wins semantics, and the
//! inner join driven by the first source.
//!
//! A cell is a `Seq<char>`, a row (and a composite key, and a projection) is a
//! `Seq<Seq<char>>`, and an indexed source is a sequence of key/projection
//! pairs whose keys are distinct.

use vstd::prelude::*;

verus! {

/// One entry of an indexed source: a composite key and its projection.
pub type EntryModel = (Seq<Seq<char>>, Seq<Seq<char>>);

// ---------------------------------------------------------------------------
// Insertion-ordered mapping
// ---------------------------------------------------------------------------

/// Index of the first entry whose key is `k`, if any.
pub open spec fn find_key(entries: Seq<EntryModel>, k: Seq<Seq<char>>) -> Option<int>
    decreases entries.len(),
{
    if entries.len() == 0 {
        None
    } else if entries[0].0 == k {
        Some(0)
    } else {
        match find_key(entries.skip(1), k) {
            Some(i) => Some(i + 1),
            None => None,
        }
    }
}

/// The projection stored under key `k`, if any.
pub open spec fn lookup(entries: Seq<EntryModel>, k: Seq<Seq<char>>) -> Option<Seq<Seq<char>>> {
    match find_key(entries, k) {
        Some(i) => Some(entries[i].1),
        None => None,
    }
}

/// Insertion into an insertion-ordered mapping: an existing key keeps its
/// position and has its value replaced; a new key is appended.
pub open spec fn upsert(
    entries: Seq<EntryModel>,
    k: Seq<Seq<char>>,
    v: Seq<Seq<char>>,
) -> Seq<EntryModel> {
    match find_key(entries, k) {
        Some(i) => entries.update(i, (k, v)),
        None => entries.push((k, v)),
    }
}

/// The keys of an indexed source, in iteration order.
pub open spec fn keys_of(entries: Seq<EntryModel>) -> Seq<Seq<Seq<char>>> {
    entries.map_values(|e: EntryModel| e.0)
}

/// `find_key` returns the first index holding `k`, or `None` when no entry
/// holds `k`.
pub proof fn lemma_find_key(entries: Seq<EntryModel>, k: Seq<Seq<char>>)
    ensures
        match find_key(entries, k) {
            Some(i) => 0 <= i < entries.len() && entries[i].0 == k && (forall|j: int|
                0 <= j < i ==> entries[j].0 != k),
            None => forall|j: int| 0 <= j < entries.len() ==> entries[j].0 != k,
        },
    decreases entries.len(),
{
    if entries.len() > 0 && entries[0].0 != k {
        lemma_find_key(entries.skip(1), k);
        assert(forall|j: int| 1 <= j < entries.len() ==> entries[j] == entries.skip(1)[j - 1]);
    }
}

/// Pairwise distinct keys, as any genuine mapping has.
pub open spec fn distinct_keys(entries: Seq<EntryModel>) -> bool {
    forall|i: int, j: int| 0 <= i < j < entries.len() ==> entries[i].0 != entries[j].0
}

/// With distinct keys, `find_key` finds exactly the position that holds `k`.
pub proof fn lemma_find_key_at(entries: Seq<EntryModel>, k: Seq<Seq<char>>, i: int)
    requires
        distinct_keys(entries),
        0 <= i < entries.len(),
        entries[i].0 == k,
    ensures
        find_key(entries, k) == Some(i),
{
    lemma_find_key(entries, k);
    match find_key(entries, k) {
        Some(m) => {
            assert(m == i);
        },
        None => {
            assert(false);
        },
    }
}

/// Upserting keeps keys distinct.
pub proof fn lemma_upsert_distinct(entries: Seq<EntryModel>, k: Seq<Seq<char>>, v: Seq<Seq<char>>)
    requires
        distinct_keys(entries),
    ensures
        distinct_keys(upsert(entries, k, v)),
{
    lemma_find_key(entries, k);
    let up = upsert(entries, k, v);
    match find_key(entries, k) {
        Some(i) => {
            assert forall|x: int, y: int| 0 <= x < y < up.len() implies up[x].0 != up[y].0 by {
                assert(up[x].0 == entries[x].0);
                assert(up[y].0 == entries[y].0);
            }
        },
        None => {},
    }
}

/// An indexed source built by upserting rows has distinct keys.
pub proof fn lemma_indexed_of_distinct(
    rows: Seq<Seq<Seq<char>>>,
    key_idx: Seq<int>,
    proj_idx: Seq<int>,
)
    ensures
        distinct_keys(indexed_of(rows, key_idx, proj_idx)),
    decreases rows.len(),
{
    if rows.len() > 0 {
        lemma_indexed_of_distinct(rows.drop_last(), key_idx, proj_idx);
        lemma_upsert_distinct(
            indexed_of(rows.drop_last(), key_idx, proj_idx),
            select(rows.last(), key_idx),
            select(rows.last(), proj_idx),
        );
    }
}

/// After an upsert, the upserted key holds the new value, and every other
/// key is untouched.
pub proof fn lemma_upsert_lookup(
    entries: Seq<EntryModel>,
    k: Seq<Seq<char>>,
    v: Seq<Seq<char>>,
    k2: Seq<Seq<char>>,
)
    requires
        distinct_keys(entries),
    ensures
        lookup(upsert(entries, k, v), k) == Some(v),
        k2 != k ==> lookup(upsert(entries, k, v), k2) == lookup(entries, k2),
{
    lemma_find_key(entries, k);
    lemma_find_key(entries, k2);
    lemma_upsert_distinct(entries, k, v);
    let up = upsert(entries, k, v);
    match find_key(entries, k) {
        Some(i) => {
            lemma_find_key_at(up, k, i);
            if k2 != k {
                match find_key(entries, k2) {
                    Some(j) => {
                        lemma_find_key_at(up, k2, j);
                    },
                    None => {
                        lemma_find_key(up, k2);
                        match find_key(up, k2) {
                            Some(j2) => {
                                assert(up[j2].0 == entries[j2].0);
                                assert(false);
                            },
                            None => {},
                        }
                    },
                }
            }
        },
        None => {
            lemma_find_key_at(up, k, entries.len() as int);
            if k2 != k {
                match find_key(entries, k2) {
                    Some(j) => {
                        lemma_find_key_at(up, k2, j);
                    },
                    None => {
                        lemma_find_key(up, k2);
                        match find_key(up, k2) {
                            Some(j2) => {
                                assert(j2 < entries.len() ==> up[j2].0 == entries[j2].0);
                                assert(false);
                            },
                            None => {},
                        }
                    },
                }
            }
        },
    }
}

// ---------------------------------------------------------------------------
// Column resolution
// ---------------------------------------------------------------------------

/// The positional offset a column name resolves to: the last header cell
/// equal to `name`, or `None` when the header lacks it.
pub open spec fn col_index(header: Seq<Seq<char>>, name: Seq<char>) -> Option<int>
    decreases header.len(),
{
    if header.len() == 0 {
        None
    } else if header.last() == name {
        Some(header.len() - 1)
    } else {
        col_index(header.drop_last(), name)
    }
}

/// `col_index` returns the greatest offset holding `name`, or `None` when no
/// header cell holds `name`.
pub proof fn lemma_col_index(header: Seq<Seq<char>>, name: Seq<char>)
    ensures
        match col_index(header, name) {
            Some(i) => 0 <= i < header.len() && header[i] == name && (forall|j: int|
                i < j < header.len() ==> header[j] != name),
            None => forall|j: int| 0 <= j < header.len() ==> header[j] != name,
        },
    decreases header.len(),
{
    if header.len() > 0 && header.last() != name {
        lemma_col_index(header.drop_last(), name);
        assert(forall|j: int| 0 <= j < header.len() - 1 ==> header[j] == header.drop_last()[j]);
    }
}

/// The first requested column that the header cannot resolve, if any.
pub open spec fn first_unresolved(header: Seq<Seq<char>>, cols: Seq<Seq<char>>) -> Option<int>
    decreases cols.len(),
{
    if cols.len() == 0 {
        None
    } else if col_index(header, cols[0]) is None {
        Some(0)
    } else {
        match first_unresolved(header, cols.skip(1)) {
            Some(i) => Some(i + 1),
            None => None,
        }
    }
}

/// `first_unresolved` returns the first column the header lacks, or `None`
/// when every requested column resolves.
pub proof fn lemma_first_unresolved(header: Seq<Seq<char>>, cols: Seq<Seq<char>>)
    ensures
        match first_unresolved(header, cols) {
            Some(i) => 0 <= i < cols.len() && col_index(header, cols[i]) is None && (forall|j: int|
                0 <= j < i ==> col_index(header, cols[j]) is Some),
            None => forall|j: int| 0 <= j < cols.len() ==> col_index(header, cols[j]) is Some,
        },
    decreases cols.len(),
{
    if cols.len() > 0 && col_index(header, cols[0]) is Some {
        lemma_first_unresolved(header, cols.skip(1));
        assert(forall|j: int| 1 <= j < cols.len() ==> cols[j] == cols.skip(1)[j - 1]);
    }
}

// ---------------------------------------------------------------------------
// Indexing a source's rows
// ---------------------------------------------------------------------------

/// The cells of `row` at the offsets `idxs`, in that order.
pub open spec fn select(row: Seq<Seq<char>>, idxs: Seq<int>) -> Seq<Seq<char>> {
    idxs.map_values(|i: int| row[i])
}

/// The indexed source built by upserting every row in file order.
pub open spec fn indexed_of(
    rows: Seq<Seq<Seq<char>>>,
    key_idx: Seq<int>,
    proj_idx: Seq<int>,
) -> Seq<EntryModel>
    decreases rows.len(),
{
    if rows.len() == 0 {
        Seq::empty()
    } else {
        upsert(
            indexed_of(rows.drop_last(), key_idx, proj_idx),
            select(rows.last(), key_idx),
            select(rows.last(), proj_idx),
        )
    }
}

/// The first row whose cell count differs from the header's, if any.
pub open spec fn first_bad_row(width: int, rows: Seq<Seq<Seq<char>>>) -> Option<int>
    decreases rows.len(),
{
    if rows.len() == 0 {
        None
    } else if rows[0].len() != width {
        Some(0)
    } else {
        match first_bad_row(width, rows.skip(1)) {
            Some(i) => Some(i + 1),
            None => None,
        }
    }
}

/// `first_bad_row` returns the first row of the wrong width, or `None` when
/// every row has the header's width.
pub proof fn lemma_first_bad_row(width: int, rows: Seq<Seq<Seq<char>>>)
    ensures
        match first_bad_row(width, rows) {
            Some(i) => 0 <= i < rows.len() && rows[i].len() != width && (forall|j: int|
                0 <= j < i ==> rows[j].len() == width),
            None => forall|j: int| 0 <= j < rows.len() ==> rows[j].len() == width,
        },
    decreases rows.len(),
{
    if rows.len() > 0 && rows[0].len() == width {
        lemma_first_bad_row(width, rows.skip(1));
        assert(forall|j: int| 1 <= j < rows.len() ==> rows[j] == rows.skip(1)[j - 1]);
    }
}

/// The composite key of every row, in file order.
pub open spec fn row_keys(rows: Seq<Seq<Seq<char>>>, key_idx: Seq<int>) -> Seq<Seq<Seq<char>>> {
    rows.map_values(|r: Seq<Seq<char>>| select(r, key_idx))
}

/// The position of the last element equal to `k`, or `-1` when there is none.
pub open spec fn last_index_of(keys: Seq<Seq<Seq<char>>>, k: Seq<Seq<char>>) -> int
    decreases keys.len(),
{
    if keys.len() == 0 {
        -1
    } else if keys.last() == k {
        keys.len() - 1
    } else {
        last_index_of(keys.drop_last(), k)
    }
}

/// `last_index_of` returns the greatest position holding `k`, or `-1` when no
/// position holds it.
pub proof fn lemma_last_index_of(keys: Seq<Seq<Seq<char>>>, k: Seq<Seq<char>>)
    ensures
        (exists|t: int| 0 <= t < keys.len() && keys[t] == k) ==> {
            let t = last_index_of(keys, k);
            &&& 0 <= t < keys.len()
            &&& keys[t] == k
            &&& forall|u: int| t < u < keys.len() ==> keys[u] != k
        },
        !(exists|t: int| 0 <= t < keys.len() && keys[t] == k) ==> last_index_of(keys, k) == -1,
    decreases keys.len(),
{
    if keys.len() > 0 && keys.last() != k {
        lemma_last_index_of(keys.drop_last(), k);
        assert(forall|t: int| 0 <= t < keys.len() - 1 ==> keys[t] == keys.drop_last()[t]);
        if exists|t: int| 0 <= t < keys.len() && keys[t] == k {
            let t0 = choose|t: int| 0 <= t < keys.len() && keys[t] == k;
            assert(keys.drop_last()[t0] == k);
        }
    }
}

/// Every distinct key of a sequence of row keys, in first-appearance order.
pub open spec fn first_seen(keys: Seq<Seq<Seq<char>>>) -> Seq<Seq<Seq<char>>>
    decreases keys.len(),
{
    if keys.len() == 0 {
        Seq::empty()
    } else {
        let prior = first_seen(keys.drop_last());
        if prior.contains(keys.last()) {
            prior
        } else {
            prior.push(keys.last())
        }
    }
}

// ---------------------------------------------------------------------------
// The inner join
// ---------------------------------------------------------------------------
//
// `views[0]` is the driver source; `views[1..]` are the other sources in
// declaration order.

/// The first source at index `j` or later that lacks key `k`, if any.
pub open spec fn missing_at(views: Seq<Seq<EntryModel>>, k: Seq<Seq<char>>, j: int) -> Option<int>
    decreases views.len() - j,
{
    if j < 0 || j >= views.len() {
        None
    } else if lookup(views[j], k) is None {
        Some(j)
    } else {
        missing_at(views, k, j + 1)
    }
}

/// `missing_at` returns the first source at index `j` or later lacking `k`,
/// or `None` when every such source holds `k`.
pub proof fn lemma_missing_at(views: Seq<Seq<EntryModel>>, k: Seq<Seq<char>>, j: int)
    requires
        0 <= j,
    ensures
        match missing_at(views, k, j) {
            Some(m) => j <= m < views.len() && lookup(views[m], k) is None && (forall|t: int|
                j <= t < m ==> lookup(views[t], k) is Some),
            None => forall|t: int| j <= t < views.len() ==> lookup(views[t], k) is Some,
        },
    decreases views.len() - j,
{
    if 0 <= j < views.len() && lookup(views[j], k) is Some {
        lemma_missing_at(views, k, j + 1);
    }
}

/// The first driver position at index `i` or later whose key is missing from
/// some non-driver source, paired with that source's index, if any.
pub open spec fn first_missing_from(views: Seq<Seq<EntryModel>>, i: int) -> Option<(int, int)>
    decreases views[0].len() - i,
{
    if views.len() == 0 || i < 0 || i >= views[0].len() {
        None
    } else {
        match missing_at(views, views[0][i].0, 1) {
            Some(j) => Some((i, j)),
            None => first_missing_from(views, i + 1),
        }
    }
}

/// The first driver key (by driver position, then source index) that some
/// non-driver source lacks, if any.  `None` means the inner join is total.
pub open spec fn first_missing(views: Seq<Seq<EntryModel>>) -> Option<(int, int)> {
    first_missing_from(views, 0)
}

/// `first_missing_from` returns the lexicographically first failing lookup at
/// driver position `i` or later, or `None` when every lookup succeeds there.
pub proof fn lemma_first_missing_from(views: Seq<Seq<EntryModel>>, i: int)
    requires
        views.len() >= 1,
        0 <= i,
    ensures
        match first_missing_from(views, i) {
            Some(p) => {
                &&& i <= p.0 < views[0].len()
                &&& 1 <= p.1 < views.len()
                &&& lookup(views[p.1], views[0][p.0].0) is None
                &&& forall|t: int| 1 <= t < p.1 ==> lookup(views[t], views[0][p.0].0) is Some
                &&& forall|s: int, t: int|
                    i <= s < p.0 && 1 <= t < views.len() ==> lookup(
                        views[t],
                        views[0][s].0,
                    ) is Some
            },
            None => forall|s: int, t: int|
                i <= s < views[0].len() && 1 <= t < views.len() ==> lookup(
                    views[t],
                    views[0][s].0,
                ) is Some,
        },
    decreases views[0].len() - i,
{
    if 0 <= i < views[0].len() {
        lemma_missing_at(views, views[0][i].0, 1);
        if missing_at(views, views[0][i].0, 1) is None {
            lemma_first_missing_from(views, i + 1);
        }
    }
}

/// The non-driver projections joined to key `k`, from the sources before
/// index `j` (the driver excluded), concatenated in declaration order.
pub open spec fn row_tail(views: Seq<Seq<EntryModel>>, k: Seq<Seq<char>>, j: int) -> Seq<Seq<char>>
    decreases j,
{
    if j <= 1 {
        Seq::empty()
    } else {
        row_tail(views, k, j - 1) + match lookup(views[j - 1], k) {
            Some(p) => p,
            None => Seq::empty(),
        }
    }
}

/// The output row for driver position `i`: the key cells, the driver's
/// projection, then every other source's projection for that key.
pub open spec fn out_row(views: Seq<Seq<EntryModel>>, i: int) -> Seq<Seq<char>> {
    views[0][i].0 + views[0][i].1 + row_tail(views, views[0][i].0, views.len() as int)
}

/// All output data rows, one per driver entry, in driver iteration order.
pub open spec fn join_rows(views: Seq<Seq<EntryModel>>) -> Seq<Seq<Seq<char>>> {
    Seq::new(views[0].len(), |i: int| out_row(views, i))
}

} // verus!
