use mz_parquet::long::{
    primary_precursor, serialize_long, ChunkWriter, ColumnWriter, ComputedFields, LongColumns, ScanIndex,
    WriteError, ROW_GROUP_POINTS,
};
use mz_parquet::model::{Precursor, RawSpectrum};

fn bits(v: &[f32]) -> Vec<u32> {
    v.iter().map(|x| x.to_bits()).collect()
}

fn precursor(mz: f32, charge: Option<i32>, spectrum_ref: Option<&str>) -> Precursor {
    Precursor {
        mz: mz.to_bits(),
        charge,
        intensity: None,
        isolation_window_target: None,
        isolation_window_lower: Some(1.0f32.to_bits()),
        isolation_window_upper: Some(1.0f32.to_bits()),
        spectrum_ref: spectrum_ref.map(|s| s.as_bytes().to_vec()),
    }
}

fn scan(id: &str, level: u8, n: usize, precursors: Vec<Precursor>) -> RawSpectrum {
    let mz: Vec<f32> = (0..n).map(|i| 100.0 + i as f32).collect();
    let intensity: Vec<f32> = (0..n).map(|i| 10.0 * (i as f32 + 1.0)).collect();
    RawSpectrum {
        id: id.as_bytes().to_vec(),
        ms_level: level,
        centroid: true,
        scan_start_time: 1.5f32.to_bits(),
        collision_energy: None,
        inverse_ion_mobility: Some(0.9f32.to_bits()),
        ion_injection_time: 10.0f32.to_bits(),
        total_ion_current: 100.0f32.to_bits(),
        precursors,
        mz: bits(&mz),
        intensity: bits(&intensity),
    }
}

fn computed(s: &RawSpectrum) -> ComputedFields {
    let first = primary_precursor(s);
    ComputedFields {
        intensity: s.intensity.iter().map(|x| f32::from_bits(*x) as u32 as i32).collect(),
        isolation_lower: first
            .and_then(|p| p.isolation_window_lower.map(|w| (f32::from_bits(p.mz) - f32::from_bits(w)).to_bits())),
        isolation_upper: first
            .and_then(|p| p.isolation_window_upper.map(|w| (f32::from_bits(p.mz) + f32::from_bits(w)).to_bits())),
    }
}

fn all_computed(spectra: &[RawSpectrum]) -> Vec<ComputedFields> {
    spectra.iter().map(computed).collect()
}

#[test]
fn reference_resolves_to_earlier_ordinal() {
    let spectra = vec![scan("S1", 1, 2, vec![]), scan("S2", 2, 3, vec![precursor(500.0, Some(2), Some("S1"))])];
    let groups = serialize_long(&spectra, &all_computed(&spectra), ROW_GROUP_POINTS).unwrap();
    assert_eq!(groups.len(), 1);
    let g = &groups[0];
    assert_eq!(g.len(), 5);
    assert_eq!(g.scan.values(), &vec![0, 0, 1, 1, 1]);
    assert_eq!(g.precursor_scan.values(), &vec![0, 0, 0]);
    assert_eq!(g.precursor_scan.def_levels(), &vec![0, 0, 1, 1, 1]);
    assert_eq!(g.precursor_charge.values(), &vec![2, 2, 2]);
    assert_eq!(g.precursor_mz.values(), &vec![500.0f32.to_bits(); 3]);
    assert_eq!(g.isolation_lower.values(), &vec![499.0f32.to_bits(); 3]);
    assert_eq!(g.isolation_upper.values(), &vec![501.0f32.to_bits(); 3]);
    assert_eq!(g.intensity.values(), &vec![10, 20, 10, 20, 30]);
    assert_eq!(g.level.values(), &vec![1, 1, 2, 2, 2]);
}

#[test]
fn unknown_reference_is_absent_not_an_error() {
    let spectra = vec![scan("S1", 1, 2, vec![]), scan("S2", 2, 2, vec![precursor(500.0, None, Some("S9"))])];
    let groups = serialize_long(&spectra, &all_computed(&spectra), ROW_GROUP_POINTS).unwrap();
    let g = &groups[0];
    assert!(g.precursor_scan.values().is_empty());
    assert_eq!(g.precursor_scan.def_levels(), &vec![0, 0, 0, 0]);
    assert_eq!(g.precursor_mz.def_levels(), &vec![0, 0, 1, 1]);
    assert_eq!(g.precursor_charge.def_levels(), &vec![0, 0, 0, 0]);
}

#[test]
fn only_first_precursor_is_represented() {
    let spectra = vec![
        scan("S1", 1, 1, vec![]),
        scan("S2", 1, 1, vec![]),
        scan("S3", 2, 2, vec![precursor(600.0, Some(3), Some("S2")), precursor(700.0, Some(1), Some("S1"))]),
    ];
    let groups = serialize_long(&spectra, &all_computed(&spectra), ROW_GROUP_POINTS).unwrap();
    let g = &groups[0];
    assert_eq!(g.precursor_scan.values(), &vec![1, 1]);
    assert_eq!(g.precursor_mz.values(), &vec![600.0f32.to_bits(); 2]);
    assert_eq!(g.precursor_charge.values(), &vec![3, 3]);
}

#[test]
fn own_id_and_repeated_ids_resolve_to_latest() {
    let spectra = vec![
        scan("A", 1, 1, vec![]),
        scan("A", 1, 1, vec![]),
        scan("B", 2, 1, vec![precursor(1.0, None, Some("A"))]),
        scan("C", 2, 1, vec![precursor(1.0, None, Some("C"))]),
    ];
    let groups = serialize_long(&spectra, &all_computed(&spectra), ROW_GROUP_POINTS).unwrap();
    assert_eq!(groups[0].precursor_scan.values(), &vec![1, 3]);
}

#[test]
fn flush_boundary_keeps_rows_in_order() {
    let spectra = vec![scan("a", 1, 3, vec![]), scan("b", 1, 3, vec![]), scan("c", 1, 2, vec![]), scan("d", 1, 1, vec![])];
    let comp = all_computed(&spectra);
    let groups = serialize_long(&spectra, &comp, 4).unwrap();
    let sizes: Vec<usize> = groups.iter().map(|g| g.len()).collect();
    assert_eq!(sizes, vec![6, 3]);
    let whole = serialize_long(&spectra, &comp, ROW_GROUP_POINTS).unwrap();
    assert_eq!(whole.len(), 1);
    let mut scans = Vec::new();
    let mut mzs = Vec::new();
    for g in &groups {
        scans.extend(g.scan.values().iter().copied());
        mzs.extend(g.mz.values().iter().copied());
    }
    assert_eq!(&scans, whole[0].scan.values());
    assert_eq!(&mzs, whole[0].mz.values());
    assert_eq!(scans, vec![0, 0, 0, 1, 1, 1, 2, 2, 3]);
}

#[test]
fn more_points_than_threshold_give_several_groups() {
    let spectra = vec![scan("a", 1, 700, vec![]), scan("b", 1, 700, vec![]), scan("c", 1, 10, vec![])];
    let groups = serialize_long(&spectra, &all_computed(&spectra), 1024).unwrap();
    assert_eq!(groups.len(), 2);
    assert_eq!(groups[0].len(), 1400);
    assert_eq!(groups[1].len(), 10);
}

#[test]
fn scans_without_points_write_no_rows() {
    let spectra = vec![scan("a", 1, 0, vec![]), scan("b", 2, 2, vec![precursor(5.0, None, Some("a"))])];
    let groups = serialize_long(&spectra, &all_computed(&spectra), ROW_GROUP_POINTS).unwrap();
    assert_eq!(groups[0].scan.values(), &vec![1, 1]);
    assert_eq!(groups[0].precursor_scan.values(), &vec![0, 0]);
    let empty: Vec<RawSpectrum> = vec![scan("z", 1, 0, vec![])];
    assert!(serialize_long(&empty, &all_computed(&empty), 4).unwrap().is_empty());
}

#[test]
fn long_layout_length_mismatch() {
    let mut spectra = vec![scan("a", 1, 2, vec![])];
    let comp = all_computed(&spectra);
    spectra[0].intensity.pop();
    assert!(matches!(serialize_long(&spectra, &comp, 4), Err(WriteError::LengthMismatch)));
}

#[test]
fn chunk_writer_flushes_and_finishes() {
    let mut w = ChunkWriter::new(3);
    let a = scan("a", 1, 2, vec![]);
    let b = scan("b", 1, 2, vec![]);
    let c = scan("c", 1, 1, vec![]);
    assert!(w.write_spectrum(&a, &computed(&a)).unwrap().is_none());
    let g: LongColumns = w.write_spectrum(&b, &computed(&b)).unwrap().unwrap();
    assert_eq!(g.len(), 4);
    assert!(w.write_spectrum(&c, &computed(&c)).unwrap().is_none());
    let last = w.finish().unwrap();
    assert_eq!(last.scan.values(), &vec![2]);
    let mut bad = ComputedFields { intensity: vec![1], isolation_lower: None, isolation_upper: None };
    let mut w2 = ChunkWriter::new(3);
    assert!(matches!(w2.write_spectrum(&a, &bad), Err(WriteError::LengthMismatch)));
    bad.intensity.push(2);
    assert!(w2.write_spectrum(&a, &bad).is_ok());
    assert!(w2.finish().is_some());
}

#[test]
fn column_writer_levels() {
    let mut c: ColumnWriter<u32> = ColumnWriter::new(true);
    c.extend_repeat(Some(7), 2);
    c.extend_repeat(None, 1);
    c.push(Some(9));
    assert_eq!(c.values(), &vec![7, 7, 9]);
    assert_eq!(c.def_levels(), &vec![1, 1, 0, 1]);
    assert_eq!(c.len(), 4);
    let mut r: ColumnWriter<i32> = ColumnWriter::new(false);
    r.extend_values(&vec![1, 2, 3]);
    assert_eq!(r.values(), &vec![1, 2, 3]);
    assert!(r.def_levels().is_empty());
    assert_eq!(r.len(), 3);
}

#[test]
fn scan_index_lookup() {
    let mut idx = ScanIndex::new();
    idx.insert(&b"x".to_vec());
    idx.insert(&b"y".to_vec());
    idx.insert(&b"x".to_vec());
    assert_eq!(idx.get(&b"x".to_vec()), Some(2));
    assert_eq!(idx.get(&b"y".to_vec()), Some(1));
    assert_eq!(idx.get(&b"z".to_vec()), None);
    assert_eq!(idx.len(), 3);
}
