//! Reading a raw comma-delimited table into rows of cells, and writing rows
//! back out as bytes, through the `csv` crate.

use vstd::prelude::*;

verus! {

/// What `csv` parsing yields on given bytes: the header row and the data
/// rows, or, on a failure, the record ordinal the reader attributes it to.
/// The outcome depends on the bytes alone.
pub uninterp spec fn csv_table(bytes: Seq<u8>) -> Result<
    (Seq<Seq<char>>, Seq<Seq<Seq<char>>>),
    Option<u64>,
>;

/// Relies on `csv::ReaderBuilder` and `csv::Reader`: parses comma-delimited
/// bytes whose first record is the header; data rows are returned as read,
/// whatever their width.  The result is a function of the bytes alone.
#[verifier::external_body]
pub(crate) fn parse_table(data: &[u8]) -> (r: Result<(Vec<String>, Vec<Vec<String>>), Option<u64>>)
    ensures
        match r {
            Ok(t) => csv_table(data@) == Ok::<_, Option<u64>>((t.0.deep_view(), t.1.deep_view())),
            Err(pos) => csv_table(data@) == Err::<(Seq<Seq<char>>, Seq<Seq<Seq<char>>>), _>(pos),
        },
{
    let mut rdr = csv::ReaderBuilder::new().flexible(true).from_reader(data);
    let header: Vec<String> = match rdr.headers() {
        Ok(h) => h.iter().map(|c| c.to_string()).collect(),
        Err(e) => return Err(e.position().map(|p| p.record())),
    };
    let mut rows: Vec<Vec<String>> = Vec::new();
    for record in rdr.records() {
        match record {
            Ok(rec) => rows.push(rec.iter().map(|c| c.to_string()).collect()),
            Err(e) => return Err(e.position().map(|p| p.record())),
        }
    }
    Ok((header, rows))
}

/// What `csv` encoding makes of one record, terminator included.  The bytes
/// depend on the cells alone.
pub uninterp spec fn csv_record(row: Seq<Seq<char>>) -> Seq<u8>;

/// Relies on `csv::Writer`: encodes one record with its terminator.  The
/// sink is an in-memory buffer, which cannot fail to take the bytes.
#[verifier::external_body]
fn write_record(row: &Vec<String>) -> (r: Vec<u8>)
    ensures
        r@ == csv_record(row.deep_view()),
{
    let mut w = csv::Writer::from_writer(Vec::new());
    w.write_record(row).expect("a memory buffer takes every record");
    w.into_inner().expect("a memory buffer flushes without error")
}

/// The byte encoding of a whole table: each row's record bytes, in order.
pub open spec fn table_bytes(rows: Seq<Seq<Seq<char>>>) -> Seq<u8>
    decreases rows.len(),
{
    if rows.len() == 0 {
        Seq::empty()
    } else {
        table_bytes(rows.drop_last()) + csv_record(rows.last())
    }
}

/// Encodes a table, one record per row, in order.
pub fn encode_table(rows: &Vec<Vec<String>>) -> (r: Vec<u8>)
    ensures
        r@ == table_bytes(rows.deep_view()),
{
    let ghost rd = rows.deep_view();
    let mut out: Vec<u8> = Vec::new();
    let mut i: usize = 0;
    while i < rows.len()
        invariant
            rd == rows.deep_view(),
            i <= rows.len(),
            out@ == table_bytes(rd.take(i as int)),
        decreases rows.len() - i,
    {
        let mut chunk = write_record(&rows[i]);
        out.append(&mut chunk);
        proof {
            assert(rd.take(i + 1 as int).drop_last() =~= rd.take(i as int));
            assert(rd.take(i + 1 as int).last() == rd[i as int]);
        }
        i = i + 1;
    }
    proof {
        assert(rd.take(rows.len() as int) =~= rd);
    }
    out
}

} // verus!
