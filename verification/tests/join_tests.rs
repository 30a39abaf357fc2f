//! End-to-end runs of the join pipeline on in-memory tables.

use keyjoin::errors::JoinError;
use keyjoin::pipeline::run_join;
use keyjoin::tables::{JoinSpec, Source};

fn spec_two_sources() -> JoinSpec {
    let a = Source {
        path: String::from("a.csv"),
        projections: vec![(String::from("name"), String::from("name"))],
    };
    let b = Source {
        path: String::from("b.csv"),
        projections: vec![(String::from("score"), String::from("score"))],
    };
    JoinSpec::new(
        vec![String::from("id")],
        vec![a, b],
        String::from("out.csv"),
    )
    .unwrap()
}

#[test]
fn round_trip_two_sources() {
    let spec = spec_two_sources();
    let files = vec![
        b"id,name\n1,alice\n2,bob\n".to_vec(),
        b"id,score\n2,90\n1,80\n".to_vec(),
    ];
    let out = run_join(&spec, &files).unwrap();
    assert_eq!(
        String::from_utf8(out).unwrap(),
        "id,name,score\n1,alice,80\n2,bob,90\n"
    );
}

#[test]
fn row_order_follows_driver_not_others() {
    let spec = spec_two_sources();
    let forward = vec![
        b"id,name\n1,alice\n2,bob\n3,carol\n".to_vec(),
        b"id,score\n1,80\n2,90\n3,70\n".to_vec(),
    ];
    let shuffled = vec![
        b"id,name\n1,alice\n2,bob\n3,carol\n".to_vec(),
        b"id,score\n3,70\n1,80\n2,90\n".to_vec(),
    ];
    let out_forward = run_join(&spec, &forward).unwrap();
    let out_shuffled = run_join(&spec, &shuffled).unwrap();
    assert_eq!(out_forward, out_shuffled);
    assert_eq!(
        String::from_utf8(out_forward).unwrap(),
        "id,name,score\n1,alice,80\n2,bob,90\n3,carol,70\n"
    );
}

#[test]
fn repeated_runs_are_byte_identical() {
    let spec = spec_two_sources();
    let files = vec![
        b"id,name\n1,alice\n2,bob\n".to_vec(),
        b"id,score\n2,90\n1,80\n".to_vec(),
    ];
    let first = run_join(&spec, &files).unwrap();
    let second = run_join(&spec, &files).unwrap();
    assert_eq!(first, second);
}

#[test]
fn header_renames_and_source_order() {
    let a = Source {
        path: String::from("a.csv"),
        projections: vec![(String::from("name"), String::from("fullname"))],
    };
    let b = Source {
        path: String::from("b.csv"),
        projections: vec![
            (String::from("score"), String::from("points")),
            (String::from("grade"), String::from("grade")),
        ],
    };
    let spec = JoinSpec::new(
        vec![String::from("id")],
        vec![a, b],
        String::from("out.csv"),
    )
    .unwrap();
    let files = vec![
        b"id,name\n7,dora\n".to_vec(),
        b"grade,score,id\nA,99,7\n".to_vec(),
    ];
    let out = run_join(&spec, &files).unwrap();
    assert_eq!(
        String::from_utf8(out).unwrap(),
        "id,fullname,points,grade\n7,dora,99,A\n"
    );
}

#[test]
fn missing_column_fails_before_rows() {
    let spec = spec_two_sources();
    // The second source has no `score` column; its rows are also ragged, yet
    // the column check must win because it happens before any row is read.
    let files = vec![
        b"id,name\n1,alice\n".to_vec(),
        b"id,points\n1\n".to_vec(),
    ];
    let err = run_join(&spec, &files).unwrap_err();
    assert_eq!(
        err,
        JoinError::ColumnNotFound {
            column: String::from("score")
        }
    );
}

#[test]
fn missing_key_fails_whole_run() {
    let spec = spec_two_sources();
    let files = vec![
        b"id,name\n1,alice\n2,bob\n".to_vec(),
        b"id,score\n1,80\n".to_vec(),
    ];
    let err = run_join(&spec, &files).unwrap_err();
    assert_eq!(
        err,
        JoinError::JoinKeyMissing {
            key: vec![String::from("2")],
            source: 1,
        }
    );
}

#[test]
fn ragged_row_reports_ordinal() {
    let spec = spec_two_sources();
    let files = vec![
        b"id,name\n1,alice\n2,bob,extra\n".to_vec(),
        b"id,score\n1,80\n".to_vec(),
    ];
    let err = run_join(&spec, &files).unwrap_err();
    assert_eq!(err, JoinError::RowParse { row: Some(2) });
}

#[test]
fn unreadable_bytes_fail_as_row_parse() {
    let spec = spec_two_sources();
    let mut bad = b"id,name\n1,".to_vec();
    bad.extend_from_slice(&[0xff, 0xfe]);
    bad.extend_from_slice(b"\n");
    let files = vec![bad, b"id,score\n1,80\n".to_vec()];
    let err = run_join(&spec, &files).unwrap_err();
    assert!(matches!(err, JoinError::RowParse { .. }));
}

#[test]
fn multi_column_key() {
    let a = Source {
        path: String::from("a.csv"),
        projections: vec![(String::from("name"), String::from("name"))],
    };
    let b = Source {
        path: String::from("b.csv"),
        projections: vec![(String::from("score"), String::from("score"))],
    };
    let spec = JoinSpec::new(
        vec![String::from("city"), String::from("year")],
        vec![a, b],
        String::from("out.csv"),
    )
    .unwrap();
    let files = vec![
        b"city,year,name\noslo,2020,alice\noslo,2021,bob\n".to_vec(),
        b"year,score,city\n2021,90,oslo\n2020,80,oslo\n".to_vec(),
    ];
    let out = run_join(&spec, &files).unwrap();
    assert_eq!(
        String::from_utf8(out).unwrap(),
        "city,year,name,score\noslo,2020,alice,80\noslo,2021,bob,90\n"
    );
}

#[test]
fn keys_match_exactly_no_normalization() {
    let spec = spec_two_sources();
    // " 1" and "1" are different keys: no trimming, no coercion.
    let files = vec![
        b"id,name\n1,alice\n".to_vec(),
        b"id,score\n 1,80\n".to_vec(),
    ];
    let err = run_join(&spec, &files).unwrap_err();
    assert_eq!(
        err,
        JoinError::JoinKeyMissing {
            key: vec![String::from("1")],
            source: 1,
        }
    );
}

#[test]
fn quoted_fields_survive_the_round_trip() {
    let spec = spec_two_sources();
    let files = vec![
        b"id,name\n1,\"last, first\"\n".to_vec(),
        b"id,score\n1,80\n".to_vec(),
    ];
    let out = run_join(&spec, &files).unwrap();
    assert_eq!(
        String::from_utf8(out).unwrap(),
        "id,name,score\n1,\"last, first\",80\n"
    );
}

#[test]
fn driver_with_no_data_rows_yields_header_only() {
    let spec = spec_two_sources();
    let files = vec![b"id,name\n".to_vec(), b"id,score\n1,80\n".to_vec()];
    let out = run_join(&spec, &files).unwrap();
    assert_eq!(String::from_utf8(out).unwrap(), "id,name,score\n");
}

#[test]
fn empty_key_or_sources_is_rejected() {
    let a = Source {
        path: String::from("a.csv"),
        projections: vec![(String::from("name"), String::from("name"))],
    };
    let no_key = JoinSpec::new(Vec::new(), vec![a], String::from("out.csv"));
    assert_eq!(no_key.unwrap_err(), JoinError::InvalidSpec);
    let no_sources = JoinSpec::new(vec![String::from("id")], Vec::new(), String::from("out.csv"));
    assert_eq!(no_sources.unwrap_err(), JoinError::InvalidSpec);
}
