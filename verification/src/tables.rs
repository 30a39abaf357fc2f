//! The parsed join specification: the key columns, the ordered sources with
//! their projections, and the output destination.

use vstd::prelude::*;

use crate::errors::JoinError;
use crate::errors::JoinErrorModel;

verus! {

/// Specification-level image of a [`Source`].
pub ghost struct SourceModel {
    pub path: Seq<char>,
    pub projections: Seq<(Seq<char>, Seq<char>)>,
}

/// One input table: where it lives and which of its columns are projected
/// into the output, as ordered (source column, output column) pairs.
#[derive(Debug)]
pub struct Source {
    /// Location of the table's file; the library never opens it itself.
    pub path: String,
    /// Ordered projection: declaration order fixes this source's column order
    /// in the output.
    pub projections: Vec<(String, String)>,
}

impl View for Source {
    type V = SourceModel;

    open spec fn view(&self) -> SourceModel {
        SourceModel { path: self.path@, projections: self.projections.deep_view() }
    }
}

impl Source {
    /// The source-side column names of the projection, in declaration order.
    pub fn projected_columns(&self) -> (r: Vec<String>)
        ensures
            r.deep_view() == proj_sources(self@.projections),
    {
        let mut r: Vec<String> = Vec::new();
        let mut i: usize = 0;
        while i < self.projections.len()
            invariant
                i <= self.projections.len(),
                r.len() == i,
                forall|k: int| 0 <= k < i ==> r@[k]@ == self@.projections[k].0,
            decreases self.projections.len() - i,
        {
            r.push(clone_string(&self.projections[i].0));
            i = i + 1;
        }
        assert(r.deep_view() =~= proj_sources(self@.projections));
        r
    }
}

/// The source-side column names of a projection, in declaration order.
pub open spec fn proj_sources(projections: Seq<(Seq<char>, Seq<char>)>) -> Seq<Seq<char>> {
    projections.map_values(|p: (Seq<char>, Seq<char>)| p.0)
}

/// The output column names of a projection, in declaration order.
pub open spec fn proj_outputs(projections: Seq<(Seq<char>, Seq<char>)>) -> Seq<Seq<char>> {
    projections.map_values(|p: (Seq<char>, Seq<char>)| p.1)
}

/// Specification-level image of a [`JoinSpec`].
pub ghost struct JoinSpecModel {
    pub key: Seq<Seq<char>>,
    pub sources: Seq<SourceModel>,
    pub output: Seq<char>,
}

/// A whole join specification.  The first source is the driver: its key
/// population and iteration order determine the output rows.
#[derive(Debug)]
pub struct JoinSpec {
    /// The join key's column names; also the leading output columns.
    pub key: Vec<String>,
    /// The sources, in declaration order.
    pub sources: Vec<Source>,
    /// Destination path of the output table; the library never opens it.
    pub output: String,
}

impl View for JoinSpec {
    type V = JoinSpecModel;

    open spec fn view(&self) -> JoinSpecModel {
        JoinSpecModel {
            key: self.key.deep_view(),
            sources: Seq::new(self.sources.len() as nat, |i: int| self.sources[i]@),
            output: self.output@,
        }
    }
}

/// A usable specification names at least one key column and one source.
pub open spec fn spec_well_formed(m: JoinSpecModel) -> bool {
    m.key.len() >= 1 && m.sources.len() >= 1
}

impl JoinSpec {
    /// Builds a specification, rejecting one with no key columns or no
    /// sources.
    pub fn new(key: Vec<String>, sources: Vec<Source>, output: String) -> (r: Result<
        JoinSpec,
        JoinError,
    >)
        ensures
            match r {
                Ok(s) => {
                    &&& spec_well_formed(s@)
                    &&& s@.key == key.deep_view()
                    &&& s@.sources == Seq::new(sources.len() as nat, |i: int| sources[i]@)
                    &&& s@.output == output@
                },
                Err(e) => (key.len() == 0 || sources.len() == 0) && e@
                    == JoinErrorModel::InvalidSpec,
            },
            r is Ok <==> key.len() >= 1 && sources.len() >= 1,
    {
        if key.len() == 0 || sources.len() == 0 {
            Err(JoinError::InvalidSpec)
        } else {
            Ok(JoinSpec { key, sources, output })
        }
    }

    /// Whether this specification is usable: at least one key column and at
    /// least one source.
    pub fn is_well_formed(&self) -> (r: bool)
        ensures
            r == spec_well_formed(self@),
    {
        self.key.len() >= 1 && self.sources.len() >= 1
    }
}

/// A copy of `s` with the same characters.
pub fn clone_string(s: &String) -> (r: String)
    ensures
        r@ == s@,
{
    s.clone()
}

/// A copy of `v` with the same cells.
pub fn clone_cells(v: &Vec<String>) -> (r: Vec<String>)
    ensures
        r.deep_view() == v.deep_view(),
{
    let mut r: Vec<String> = Vec::new();
    let mut i: usize = 0;
    while i < v.len()
        invariant
            i <= v.len(),
            r.len() == i,
            r.deep_view() == v.deep_view().take(i as int),
        decreases v.len() - i,
    {
        r.push(v[i].clone());
        assert(r.deep_view() =~= v.deep_view().take(i + 1 as int));
        i = i + 1;
    }
    assert(v.deep_view().take(v.len() as int) =~= v.deep_view());
    r
}

} // verus!
