//! The whole run, from raw table bytes to output table bytes: index every
//! source, then assemble the joined output.

use vstd::prelude::*;

use crate::codec::csv_table;
use crate::codec::encode_table;
use crate::codec::parse_table;
use crate::codec::table_bytes;
use crate::errors::JoinError;
use crate::errors::JoinErrorModel;
use crate::indexed::IndexedSource;
use crate::join::assemble_header;
use crate::join::assemble_rows;
use crate::join::header_model;
use crate::join::index_model;
use crate::join::index_rows;
use crate::join::views_of;
use crate::model::EntryModel;
use crate::model::first_missing;
use crate::model::join_rows;
use crate::tables::JoinSpec;
use crate::tables::JoinSpecModel;
use crate::tables::proj_sources;
use crate::tables::spec_well_formed;

verus! {

/// What indexing one source from its raw bytes must yield: a reader failure
/// becomes a `RowParse` error; otherwise the parsed table is indexed with the
/// given key and projection columns.
pub open spec fn indexed_from_bytes(
    bytes: Seq<u8>,
    key_cols: Seq<Seq<char>>,
    proj_cols: Seq<Seq<char>>,
) -> Result<Seq<EntryModel>, JoinErrorModel> {
    match csv_table(bytes) {
        Err(pos) => Err(JoinErrorModel::RowParse { row: pos }),
        Ok(t) => index_model(t.0, t.1, key_cols, proj_cols),
    }
}

/// [`indexed_from_bytes`] for source `s` of a specification.
pub open spec fn source_indexed(m: JoinSpecModel, file: Seq<u8>, s: int) -> Result<
    Seq<EntryModel>,
    JoinErrorModel,
> {
    indexed_from_bytes(file, m.key, proj_sources(m.sources[s].projections))
}

/// Indexes one source: parses its raw bytes as a comma-delimited table with
/// a header row, then builds its key-to-projection mapping.
pub fn index_source(data: &[u8], key_cols: &Vec<String>, proj_cols: &Vec<String>) -> (r: Result<
    IndexedSource,
    JoinError,
>)
    ensures
        match r {
            Ok(ix) => ix.wf() && indexed_from_bytes(
                data@,
                key_cols.deep_view(),
                proj_cols.deep_view(),
            ) == Ok::<Seq<EntryModel>, JoinErrorModel>(ix@),
            Err(e) => indexed_from_bytes(data@, key_cols.deep_view(), proj_cols.deep_view())
                == Err::<Seq<EntryModel>, JoinErrorModel>(e@),
        },
{
    let (header, rows) = match parse_table(data) {
        Ok(t) => t,
        Err(pos) => {
            return Err(JoinError::RowParse { row: pos });
        },
    };
    index_rows(&header, &rows, key_cols, proj_cols)
}

/// The first source at index `s` or later whose indexing fails, if any.
/// Sources are indexed in declaration order and the first failure aborts.
pub open spec fn first_failing_source(m: JoinSpecModel, files: Seq<Seq<u8>>, s: int) -> Option<int>
    decreases files.len() - s,
{
    if s < 0 || s >= files.len() {
        None
    } else if source_indexed(m, files[s], s) is Err {
        Some(s)
    } else {
        first_failing_source(m, files, s + 1)
    }
}

/// `first_failing_source` returns the first source whose indexing fails, or
/// `None` when every source indexes.
pub proof fn lemma_first_failing_source(m: JoinSpecModel, files: Seq<Seq<u8>>, s: int)
    requires
        0 <= s,
    ensures
        match first_failing_source(m, files, s) {
            Some(t) => s <= t < files.len() && source_indexed(m, files[t], t) is Err && (forall|
                u: int,
            |
                s <= u < t ==> source_indexed(m, files[u], u) is Ok),
            None => forall|u: int| s <= u < files.len() ==> source_indexed(m, files[u], u) is Ok,
        },
    decreases files.len() - s,
{
    if s < files.len() && source_indexed(m, files[s], s) is Ok {
        lemma_first_failing_source(m, files, s + 1);
    }
}

/// The indexed contents of every source, assuming each one indexes.
pub open spec fn indexed_views(m: JoinSpecModel, files: Seq<Seq<u8>>) -> Seq<Seq<EntryModel>> {
    Seq::new(
        files.len(),
        |s: int|
            match source_indexed(m, files[s], s) {
                Ok(v) => v,
                Err(_) => Seq::empty(),
            },
    )
}

/// What a whole run yields on a given specification and given raw source
/// bytes (one byte string per declared source, in declaration order): the
/// first indexing failure, else the first missing driver key, else the
/// encoded output table, its header row first.
pub open spec fn run_model(m: JoinSpecModel, files: Seq<Seq<u8>>) -> Result<
    Seq<u8>,
    JoinErrorModel,
> {
    match first_failing_source(m, files, 0) {
        Some(t) => Err(source_indexed(m, files[t], t)->Err_0),
        None => {
            let views = indexed_views(m, files);
            match first_missing(views) {
                Some(p) => Err(
                    JoinErrorModel::JoinKeyMissing { key: views[0][p.0].0, source: p.1 },
                ),
                None => Ok(table_bytes(seq![header_model(m)] + join_rows(views))),
            }
        },
    }
}

/// Indexes every source from its raw bytes, in declaration order, stopping
/// at the first failure.
pub fn index_sources(spec: &JoinSpec, files: &Vec<Vec<u8>>) -> (r: Result<
    Vec<IndexedSource>,
    JoinError,
>)
    requires
        files.len() == spec.sources.len(),
    ensures
        match r {
            Ok(sources) => {
                &&& first_failing_source(spec@, files.deep_view(), 0) is None
                &&& sources.len() == files.len()
                &&& forall|t: int| 0 <= t < sources.len() ==> (#[trigger] sources[t]).wf()
                &&& views_of(sources@) == indexed_views(spec@, files.deep_view())
            },
            Err(e) => first_failing_source(spec@, files.deep_view(), 0) matches Some(t)
                && source_indexed(spec@, files.deep_view()[t], t) == Err::<
                Seq<EntryModel>,
                JoinErrorModel,
            >(e@),
        },
{
    let ghost m = spec@;
    let ghost fd = files.deep_view();
    let mut sources: Vec<IndexedSource> = Vec::new();
    let mut s: usize = 0;
    while s < files.len()
        invariant
            m == spec@,
            fd == files.deep_view(),
            files.len() == spec.sources.len(),
            s <= files.len(),
            sources.len() == s,
            forall|t: int| 0 <= t < s ==> (#[trigger] sources[t]).wf(),
            forall|t: int|
                0 <= t < s ==> source_indexed(m, fd[t], t) == Ok::<Seq<EntryModel>, JoinErrorModel>(
                    sources[t]@,
                ),
        decreases files.len() - s,
    {
        let file = &files[s];
        assert(file@ == fd[s as int]);
        let src_cols = spec.sources[s].projected_columns();
        assert(src_cols.deep_view() == proj_sources(m.sources[s as int].projections));
        match index_source(file.as_slice(), &spec.key, &src_cols) {
            Ok(ix) => {
                sources.push(ix);
            },
            Err(e) => {
                proof {
                    lemma_first_failing_source(m, fd, 0);
                    match first_failing_source(m, fd, 0) {
                        Some(t) => {
                            assert(t == s);
                        },
                        None => {
                            assert(false);
                        },
                    }
                }
                return Err(e);
            },
        }
        s = s + 1;
    }
    proof {
        lemma_first_failing_source(m, fd, 0);
        match first_failing_source(m, fd, 0) {
            Some(t) => {
                assert(source_indexed(m, fd[t], t) is Ok);
            },
            None => {},
        }
        assert(views_of(sources@) =~= indexed_views(m, fd));
    }
    Ok(sources)
}

/// Runs the whole join: parses and indexes every source's bytes, then
/// assembles and encodes the output table.  The result is exactly
/// [`run_model`] of the inputs.
pub fn run_join(spec: &JoinSpec, files: &Vec<Vec<u8>>) -> (r: Result<Vec<u8>, JoinError>)
    requires
        spec_well_formed(spec@),
        files.len() == spec.sources.len(),
    ensures
        match r {
            Ok(b) => run_model(spec@, files.deep_view()) == Ok::<Seq<u8>, JoinErrorModel>(b@),
            Err(e) => run_model(spec@, files.deep_view()) == Err::<Seq<u8>, JoinErrorModel>(e@),
        },
{
    let ghost m = spec@;
    let ghost fd = files.deep_view();
    let sources = match index_sources(spec, files) {
        Ok(sources) => sources,
        Err(e) => {
            return Err(e);
        },
    };
    let ghost views = indexed_views(m, fd);
    let table = match assemble_rows(&sources) {
        Ok(t) => t,
        Err(e) => {
            return Err(e);
        },
    };
    let ghost td = table.deep_view();
    let header = assemble_header(spec);
    let mut all: Vec<Vec<String>> = Vec::new();
    all.push(header);
    let mut moved = table;
    all.append(&mut moved);
    proof {
        assert(all@.len() == 1 + td.len());
        assert forall|k: int| 0 <= k < all@.len() implies all.deep_view()[k] == (seq![
            header_model(m),
        ] + join_rows(views))[k] by {
            if k > 0 {
                assert(all@[k].deep_view() == td[k - 1]);
            }
        }
        assert(all.deep_view() =~= seq![header_model(m)] + join_rows(views));
    }
    let bytes = encode_table(&all);
    Ok(bytes)
}

} // verus!
