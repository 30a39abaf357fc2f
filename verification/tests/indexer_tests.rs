//! Unit-level runs of the indexer and assembler on in-memory rows.

use keyjoin::errors::JoinError;
use keyjoin::indexed::IndexedSource;
use keyjoin::join::{assemble_header, assemble_rows, index_rows, resolve_columns};
use keyjoin::pipeline::index_source;
use keyjoin::tables::{JoinSpec, Source};

fn cells(values: &[&str]) -> Vec<String> {
    values.iter().map(|v| String::from(*v)).collect()
}

#[test]
fn resolve_columns_maps_names_to_offsets() {
    let header = cells(&["id", "name", "score"]);
    let idxs = resolve_columns(&header, &cells(&["score", "id"])).unwrap();
    assert_eq!(idxs, vec![2, 0]);
}

#[test]
fn resolve_columns_takes_the_last_duplicate() {
    let header = cells(&["a", "b", "a"]);
    let idxs = resolve_columns(&header, &cells(&["a", "b"])).unwrap();
    assert_eq!(idxs, vec![2, 1]);
}

#[test]
fn resolve_columns_reports_the_first_missing_name() {
    let header = cells(&["id", "name"]);
    let err = resolve_columns(&header, &cells(&["id", "age", "height"])).unwrap_err();
    assert_eq!(
        err,
        JoinError::ColumnNotFound {
            column: String::from("age")
        }
    );
}

#[test]
fn last_write_wins_on_repeated_keys() {
    let header = cells(&["id", "name"]);
    let rows = vec![
        cells(&["1", "first"]),
        cells(&["2", "other"]),
        cells(&["1", "second"]),
    ];
    let ix = index_rows(&header, &rows, &cells(&["id"]), &cells(&["name"])).unwrap();
    // The repeated key keeps its first position but holds the later value.
    assert_eq!(ix.len(), 2);
    let first = ix.entry_at(0);
    assert_eq!(first.0, &cells(&["1"]));
    assert_eq!(first.1, &cells(&["second"]));
    let second = ix.entry_at(1);
    assert_eq!(second.0, &cells(&["2"]));
    assert_eq!(ix.get(&cells(&["1"])), Some(&cells(&["second"])));
}

#[test]
fn index_rows_reports_the_first_short_row() {
    let header = cells(&["id", "name"]);
    let rows = vec![cells(&["1", "alice"]), cells(&["2"])];
    let err = index_rows(&header, &rows, &cells(&["id"]), &cells(&["name"])).unwrap_err();
    assert_eq!(err, JoinError::RowParse { row: Some(2) });
}

#[test]
fn index_rows_checks_key_columns_before_projection_columns() {
    let header = cells(&["id", "name"]);
    let err = index_rows(
        &header,
        &Vec::new(),
        &cells(&["serial"]),
        &cells(&["nickname"]),
    )
    .unwrap_err();
    assert_eq!(
        err,
        JoinError::ColumnNotFound {
            column: String::from("serial")
        }
    );
}

#[test]
fn assemble_header_orders_key_then_sources() {
    let a = Source {
        path: String::from("a.csv"),
        projections: vec![
            (String::from("x"), String::from("left")),
            (String::from("y"), String::from("right")),
        ],
    };
    let b = Source {
        path: String::from("b.csv"),
        projections: vec![(String::from("z"), String::from("tail"))],
    };
    let spec = JoinSpec::new(
        vec![String::from("k1"), String::from("k2")],
        vec![a, b],
        String::from("out.csv"),
    )
    .unwrap();
    assert_eq!(
        assemble_header(&spec),
        cells(&["k1", "k2", "left", "right", "tail"])
    );
}

#[test]
fn assemble_rows_joins_in_driver_order() {
    let header_a = cells(&["id", "name"]);
    let rows_a = vec![cells(&["2", "bob"]), cells(&["1", "alice"])];
    let a = index_rows(&header_a, &rows_a, &cells(&["id"]), &cells(&["name"])).unwrap();
    let header_b = cells(&["id", "score"]);
    let rows_b = vec![cells(&["1", "80"]), cells(&["2", "90"])];
    let b = index_rows(&header_b, &rows_b, &cells(&["id"]), &cells(&["score"])).unwrap();
    let rows = assemble_rows(&vec![a, b]).unwrap();
    assert_eq!(
        rows,
        vec![cells(&["2", "bob", "90"]), cells(&["1", "alice", "80"])]
    );
}

#[test]
fn assemble_rows_names_the_offending_source() {
    let header = cells(&["id", "v"]);
    let driver = index_rows(
        &header,
        &vec![cells(&["1", "a"])],
        &cells(&["id"]),
        &cells(&["v"]),
    )
    .unwrap();
    let full = index_rows(
        &header,
        &vec![cells(&["1", "b"])],
        &cells(&["id"]),
        &cells(&["v"]),
    )
    .unwrap();
    let empty = index_rows(&header, &Vec::new(), &cells(&["id"]), &cells(&["v"])).unwrap();
    let err = assemble_rows(&vec![driver, full, empty]).unwrap_err();
    assert_eq!(
        err,
        JoinError::JoinKeyMissing {
            key: cells(&["1"]),
            source: 2,
        }
    );
}

#[test]
fn index_source_parses_raw_bytes() {
    let ix = index_source(
        b"id,name\n1,alice\n2,bob\n1,ada\n",
        &cells(&["id"]),
        &cells(&["name"]),
    )
    .unwrap();
    assert_eq!(ix.len(), 2);
    assert_eq!(ix.get(&cells(&["1"])), Some(&cells(&["ada"])));
    assert_eq!(ix.get(&cells(&["2"])), Some(&cells(&["bob"])));
}

#[test]
fn indexed_source_get_misses_absent_keys() {
    let mut ix = IndexedSource::new();
    ix.insert(cells(&["a"]), cells(&["1"]));
    assert_eq!(ix.get(&cells(&["b"])), None);
    assert_eq!(ix.get(&cells(&["a"])), Some(&cells(&["1"])));
}
