use mz_parquet::levels::{decode_lists, join_column, split_column, LevelError, Slot, Value};
use mz_parquet::model::{Precursor, RawSpectrum};
use mz_parquet::reader::{decode_wide, spectrum_eq, verify_round_trip, VerifyError};
use mz_parquet::schema::{check_columns, long_schema, wide_schema, PhysicalType, SchemaError};
use mz_parquet::wide::{
    encode_peak_column, encode_precursor_column, encode_scan_column, encode_wide, wide_row_groups, DecodeError,
    EncodeError, WIDE_COLUMNS, WIDE_GROUP_SCANS,
};

fn bits(v: &[f32]) -> Vec<u32> {
    v.iter().map(|x| x.to_bits()).collect()
}

fn precursor(mz: f32, charge: Option<i32>, spectrum_ref: Option<&str>) -> Precursor {
    Precursor {
        mz: mz.to_bits(),
        charge,
        intensity: Some(1500.5f32.to_bits()),
        isolation_window_target: Some(mz.to_bits()),
        isolation_window_lower: None,
        isolation_window_upper: Some(0.75f32.to_bits()),
        spectrum_ref: spectrum_ref.map(|s| s.as_bytes().to_vec()),
    }
}

fn scan(id: &str, level: u8, mz: &[f32], intensity: &[f32], precursors: Vec<Precursor>) -> RawSpectrum {
    RawSpectrum {
        id: id.as_bytes().to_vec(),
        ms_level: level,
        centroid: level == 2,
        scan_start_time: 12.5f32.to_bits(),
        collision_energy: if level == 2 { Some(30.0f32.to_bits()) } else { None },
        inverse_ion_mobility: None,
        ion_injection_time: 20.0f32.to_bits(),
        total_ion_current: 1.0e6f32.to_bits(),
        precursors,
        mz: bits(mz),
        intensity: bits(intensity),
    }
}

fn sample() -> Vec<RawSpectrum> {
    vec![
        scan("scan=1", 1, &[100.0, 200.5, 300.25], &[10.0, 20.0, 30.0], vec![]),
        scan("scan=2", 2, &[150.0], &[5.0], vec![precursor(200.5, Some(2), Some("scan=1"))]),
        scan(
            "scan=3",
            2,
            &[],
            &[],
            vec![precursor(300.25, None, None), precursor(f32::NAN, Some(3), Some("scan=1"))],
        ),
        scan("scan=4", 1, &[-0.0, f32::INFINITY], &[0.0, 1.0], vec![]),
    ]
}

fn same(a: &[RawSpectrum], b: &[RawSpectrum]) -> bool {
    a.len() == b.len() && a.iter().zip(b.iter()).all(|(x, y)| spectrum_eq(x, y))
}

#[test]
fn round_trip_mixed_scans() {
    let spectra = sample();
    let cols = encode_wide(&spectra).unwrap();
    assert_eq!(cols.len(), WIDE_COLUMNS);
    let back = decode_wide(&cols).unwrap();
    assert!(same(&spectra, &back));
    assert!(verify_round_trip(&spectra, &cols).is_ok());
}

#[test]
fn round_trip_through_stored_parts() {
    let spectra = sample();
    let cols = encode_wide(&spectra).unwrap();
    let schema = wide_schema();
    let mut stored = Vec::new();
    for (c, col) in cols.iter().enumerate() {
        let (values, defs, reps) = split_column(col);
        let joined = join_column(&values, &defs, &reps, schema[c].max_def).unwrap();
        assert_eq!(&joined, col);
        stored.push(joined);
    }
    let back = decode_wide(&stored).unwrap();
    assert!(same(&spectra, &back));
}

#[test]
fn round_trip_empty_input() {
    let spectra: Vec<RawSpectrum> = Vec::new();
    let cols = encode_wide(&spectra).unwrap();
    assert!(cols.iter().all(|c| c.is_empty()));
    assert_eq!(decode_wide(&cols).unwrap().len(), 0);
}

#[test]
fn length_mismatch_is_an_error() {
    let mut spectra = sample();
    spectra[1].intensity.push(7.0f32.to_bits());
    assert_eq!(encode_wide(&spectra).unwrap_err(), EncodeError::LengthMismatch(1));
}

#[test]
fn scan_without_precursors_decodes_to_empty_list() {
    let spectra = vec![scan("a", 1, &[1.0], &[2.0], vec![])];
    let col = encode_precursor_column(&spectra, 0);
    assert_eq!(col, vec![Slot { def: 0, rep: 0, value: None }]);
    let cols = encode_wide(&spectra).unwrap();
    let back = decode_wide(&cols).unwrap();
    assert_eq!(back.len(), 1);
    assert!(back[0].precursors.is_empty());
}

#[test]
fn precursor_levels_are_exact() {
    let spectra = vec![
        scan("a", 2, &[1.0], &[1.0], vec![precursor(10.0, Some(2), None), precursor(20.0, None, Some("x"))]),
        scan("b", 1, &[1.0], &[1.0], vec![]),
    ];
    let charge = encode_precursor_column(&spectra, 1);
    assert_eq!(
        charge,
        vec![
            Slot { def: 3, rep: 0, value: Some(Value::Int(2)) },
            Slot { def: 2, rep: 1, value: None },
            Slot { def: 0, rep: 0, value: None },
        ]
    );
    let mz = encode_precursor_column(&spectra, 0);
    assert_eq!(
        mz,
        vec![
            Slot { def: 2, rep: 0, value: Some(Value::Float(10.0f32.to_bits())) },
            Slot { def: 2, rep: 1, value: Some(Value::Float(20.0f32.to_bits())) },
            Slot { def: 0, rep: 0, value: None },
        ]
    );
    let refs = encode_precursor_column(&spectra, 6);
    assert_eq!(refs[0], Slot { def: 2, rep: 0, value: None });
    assert_eq!(refs[1], Slot { def: 3, rep: 1, value: Some(Value::Bytes(b"x".to_vec())) });
}

#[test]
fn peak_levels_are_exact() {
    let spectra = vec![scan("a", 1, &[1.0, 2.0], &[3.0, 4.0], vec![]), scan("b", 1, &[], &[], vec![])];
    let mz = encode_peak_column(&spectra, false);
    assert_eq!(
        mz,
        vec![
            Slot { def: 1, rep: 0, value: Some(Value::Float(1.0f32.to_bits())) },
            Slot { def: 1, rep: 1, value: Some(Value::Float(2.0f32.to_bits())) },
            Slot { def: 0, rep: 0, value: None },
        ]
    );
    let intensity = encode_peak_column(&spectra, true);
    assert_eq!(intensity[1], Slot { def: 1, rep: 1, value: Some(Value::Float(4.0f32.to_bits())) });
}

#[test]
fn scalar_levels_are_exact() {
    let spectra = sample();
    let level = encode_scan_column(&spectra, 1);
    assert_eq!(level[1], Slot { def: 0, rep: 0, value: Some(Value::Int(2)) });
    let ce = encode_scan_column(&spectra, 4);
    assert_eq!(ce[0], Slot { def: 0, rep: 0, value: None });
    assert_eq!(ce[1], Slot { def: 1, rep: 0, value: Some(Value::Float(30.0f32.to_bits())) });
}

#[test]
fn decode_lists_rejects_bad_streams() {
    let continuation_first = vec![Slot { def: 1, rep: 1, value: Some(Value::Float(1)) }];
    assert_eq!(decode_lists(&continuation_first, 1).unwrap_err(), LevelError::BadRowStart(0));
    let missing_value = vec![Slot { def: 1, rep: 0, value: None }];
    assert_eq!(decode_lists(&missing_value, 1).unwrap_err(), LevelError::BadEntry(0));
    let after_empty = vec![Slot { def: 0, rep: 0, value: None }, Slot { def: 1, rep: 1, value: Some(Value::Float(1)) }];
    assert_eq!(decode_lists(&after_empty, 1).unwrap_err(), LevelError::BadRowStart(1));
    let rows = decode_lists(
        &vec![
            Slot { def: 3, rep: 0, value: Some(Value::Int(1)) },
            Slot { def: 2, rep: 1, value: None },
            Slot { def: 0, rep: 0, value: None },
        ],
        3,
    )
    .unwrap();
    assert_eq!(rows, vec![vec![Some(Value::Int(1)), None], vec![]]);
}

#[test]
fn decode_wide_rejects_malformed_columns() {
    let spectra = sample();
    let mut cols = encode_wide(&spectra).unwrap();
    cols.pop();
    assert_eq!(decode_wide(&cols).unwrap_err(), DecodeError::ColumnCount(16));
    let mut cols = encode_wide(&spectra).unwrap();
    cols[3].pop();
    assert_eq!(decode_wide(&cols).unwrap_err(), DecodeError::RowCount(3));
    let mut cols = encode_wide(&spectra).unwrap();
    cols[1][0].value = Some(Value::Int(300));
    assert_eq!(decode_wide(&cols).unwrap_err(), DecodeError::BadRow(0));
    let mut cols = encode_wide(&spectra).unwrap();
    cols[15][0].rep = 1;
    assert!(matches!(decode_wide(&cols).unwrap_err(), DecodeError::Levels(15, _)));
}

#[test]
fn verify_round_trip_reports_differences() {
    let spectra = sample();
    let cols = encode_wide(&spectra).unwrap();
    let mut other = sample();
    other[2].precursors[1].charge = Some(4);
    assert_eq!(verify_round_trip(&other, &cols).unwrap_err(), VerifyError::Mismatch(2));
    other.pop();
    assert_eq!(verify_round_trip(&other, &cols).unwrap_err(), VerifyError::CountMismatch(4));
}

#[test]
fn join_column_checks_counts() {
    let values = vec![Value::Int(1)];
    assert!(join_column(&values, &vec![1, 1], &vec![0, 1], 1).is_err());
    assert!(join_column(&values, &vec![1], &vec![0, 0], 1).is_err());
    let joined = join_column(&values, &vec![0, 1], &vec![0, 0], 1).unwrap();
    assert_eq!(joined[0], Slot { def: 0, rep: 0, value: None });
    assert_eq!(joined[1], Slot { def: 1, rep: 0, value: Some(Value::Int(1)) });
}

#[test]
fn encoding_twice_gives_identical_columns() {
    let a = encode_wide(&sample()).unwrap();
    let b = encode_wide(&sample()).unwrap();
    assert_eq!(a, b);
}

#[test]
fn wide_row_groups_split_at_bound() {
    let mut spectra = Vec::new();
    for i in 0..(WIDE_GROUP_SCANS + 2) {
        spectra.push(scan(&format!("s{}", i), 1, &[1.0], &[2.0], vec![]));
    }
    let groups = wide_row_groups(spectra.clone()).unwrap();
    assert_eq!(groups.len(), 2);
    assert_eq!(groups[0][0].len(), WIDE_GROUP_SCANS);
    assert_eq!(groups[1][0].len(), 2);
    assert_eq!(groups[1][0][1].value, Some(Value::Bytes(format!("s{}", WIDE_GROUP_SCANS + 1).into_bytes())));
    spectra[WIDE_GROUP_SCANS + 1].mz.clear();
    assert_eq!(wide_row_groups(spectra).unwrap_err(), EncodeError::LengthMismatch(WIDE_GROUP_SCANS + 1));
}

#[test]
fn schemas_have_fixed_order() {
    let wide = wide_schema();
    assert_eq!(wide.len(), 17);
    assert_eq!(wide[0].path, "id");
    assert_eq!(wide[9].path, "precursors.list.element.selected_ion_charge");
    assert_eq!(wide[9].physical, PhysicalType::Int32);
    assert_eq!((wide[9].max_def, wide[9].max_rep), (3, 1));
    assert_eq!((wide[15].max_def, wide[15].max_rep), (1, 1));
    let long = long_schema();
    assert_eq!(long.len(), 12);
    assert_eq!(long[9].path, "precursor_scan");
    assert_eq!(check_columns(&wide, &wide_schema()), Ok(()));
    assert_eq!(check_columns(&wide, &long), Err(SchemaError::UnexpectedColumn(0)));
    let mut short = wide_schema();
    short.pop();
    assert_eq!(check_columns(&wide, &short), Err(SchemaError::ColumnCount(16)));
}
