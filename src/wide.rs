use vstd::prelude::*;
use crate::levels::{
    Cell, LevelError, lemma_encode_lists_injective, lists_wf, Slot, SlotView, Value, encode_list, encode_lists, entry_slot, lemma_encode_lists_empty,
    lemma_encode_lists_push, opt_view, push_empty_list, push_list_entry, scalar_slot, slots_view,
};
use crate::model::{Precursor, PrecursorView, RawSpectrum, SpectrumView, spectra_view, spectra_wf, spectrum_wf};

verus! {

/// Number of columns of the wide layout.
pub const WIDE_COLUMNS: usize = 17;

/// Number of scan-level columns, which lead the wide layout.
pub const SCAN_FIELDS: usize = 8;

/// Number of precursor columns, which follow the scan-level ones.
pub const PRECURSOR_FIELDS: usize = 7;

pub open spec fn opt_float(o: Option<u32>) -> Option<Cell> {
    match o {
        Some(x) => Some(Cell::Float(x)),
        None => None,
    }
}

pub open spec fn opt_int(o: Option<i32>) -> Option<Cell> {
    match o {
        Some(x) => Some(Cell::Int(x)),
        None => None,
    }
}

pub open spec fn opt_bytes(o: Option<Seq<u8>>) -> Option<Cell> {
    match o {
        Some(x) => Some(Cell::Bytes(x)),
        None => None,
    }
}

/// The acquisition stage as stored: a 32-bit integer.
pub open spec fn level_cell(l: u8) -> Option<Cell> {
    Some(Cell::Int(l as i32))
}

/// The value of scan-level column `f`: id, ms_level, centroid,
/// scan_start_time, collision_energy, inverse_ion_mobility,
/// ion_injection_time, total_ion_current.
pub open spec fn scan_field(s: SpectrumView, f: int) -> Option<Cell> {
    if f == 0 {
        Some(Cell::Bytes(s.id))
    } else if f == 1 {
        level_cell(s.ms_level)
    } else if f == 2 {
        Some(Cell::Bool(s.centroid))
    } else if f == 3 {
        Some(Cell::Float(s.scan_start_time))
    } else if f == 4 {
        opt_float(s.collision_energy)
    } else if f == 5 {
        opt_float(s.inverse_ion_mobility)
    } else if f == 6 {
        Some(Cell::Float(s.ion_injection_time))
    } else {
        Some(Cell::Float(s.total_ion_current))
    }
}

/// Maximum definition level of scan-level column `f`: 1 for the optional
/// ones, 0 for the required ones.
pub open spec fn scan_def(f: int) -> i16 {
    if f == 4 || f == 5 { 1 } else { 0 }
}

/// The value of precursor column `f`: selected_ion_mz, selected_ion_charge,
/// selected_ion_intensity, isolation_window_target, isolation_window_lower,
/// isolation_window_upper, spectrum_ref.
pub open spec fn precursor_field(p: PrecursorView, f: int) -> Option<Cell> {
    if f == 0 {
        Some(Cell::Float(p.mz))
    } else if f == 1 {
        opt_int(p.charge)
    } else if f == 2 {
        opt_float(p.intensity)
    } else if f == 3 {
        opt_float(p.isolation_window_target)
    } else if f == 4 {
        opt_float(p.isolation_window_lower)
    } else if f == 5 {
        opt_float(p.isolation_window_upper)
    } else {
        opt_bytes(p.spectrum_ref)
    }
}

/// Maximum definition level of precursor column `f`: the optional list, its
/// repeated entries, and, but for the required m/z, the optional field.
pub open spec fn precursor_def(f: int) -> i16 {
    if f == 0 { 2 } else { 3 }
}

pub open spec fn scalar_column(specs: Seq<SpectrumView>, f: int) -> Seq<SlotView> {
    specs.map_values(|s: SpectrumView| scalar_slot(scan_field(s, f), scan_def(f)))
}

pub open spec fn field_row(ps: Seq<PrecursorView>, f: int) -> Seq<Option<Cell>> {
    ps.map_values(|p: PrecursorView| precursor_field(p, f))
}

pub open spec fn precursor_row(s: SpectrumView, f: int) -> Seq<Option<Cell>> {
    field_row(s.precursors, f)
}

pub open spec fn precursor_rows(specs: Seq<SpectrumView>, f: int) -> Seq<Seq<Option<Cell>>> {
    specs.map_values(|s: SpectrumView| precursor_row(s, f))
}

pub open spec fn float_list(v: Seq<u32>) -> Seq<Option<Cell>> {
    v.map_values(|x: u32| Some(Cell::Float(x)))
}

pub open spec fn peak_row(s: SpectrumView, intensity: bool) -> Seq<Option<Cell>> {
    if intensity { float_list(s.intensity) } else { float_list(s.mz) }
}

pub open spec fn peak_rows(specs: Seq<SpectrumView>, intensity: bool) -> Seq<Seq<Option<Cell>>> {
    specs.map_values(|s: SpectrumView| peak_row(s, intensity))
}

/// Column `c` of the wide layout: eight scan-level columns, seven precursor
/// columns, then the m/z list and the intensity list.
pub open spec fn wide_column(specs: Seq<SpectrumView>, c: int) -> Seq<SlotView> {
    if c < 8 {
        scalar_column(specs, c)
    } else if c < 15 {
        encode_lists(precursor_rows(specs, c - 8), precursor_def(c - 8))
    } else if c == 15 {
        encode_lists(peak_rows(specs, false), 1)
    } else {
        encode_lists(peak_rows(specs, true), 1)
    }
}

/// The wide layout of a sequence of scans: one row per scan.
pub open spec fn wide_columns(specs: Seq<SpectrumView>) -> Seq<Seq<SlotView>> {
    Seq::new(17, |c: int| wide_column(specs, c))
}

pub open spec fn columns_view(cols: Vec<Vec<Slot>>) -> Seq<Seq<SlotView>> {
    cols@.map_values(|c: Vec<Slot>| slots_view(c@))
}

/// A scan whose m/z and intensity lists differ in length.
#[derive(Debug, Clone, Copy, PartialEq, Eq)]
pub enum EncodeError {
    /// The scan at this position has a length mismatch.
    LengthMismatch(usize),
}

fn copy_opt_bytes(o: &Option<Vec<u8>>) -> (r: Option<Value>)
    ensures
        opt_view(r) == opt_bytes(crate::model::opt_bytes_view(*o)),
{
    match o {
        Some(b) => Some(Value::Bytes(crate::levels::copy_bytes(b))),
        None => None,
    }
}

fn opt_float_value(o: Option<u32>) -> (r: Option<Value>)
    ensures
        opt_view(r) == opt_float(o),
{
    match o {
        Some(x) => Some(Value::Float(x)),
        None => None,
    }
}

/// The value of scan-level column `f` for one scan.
pub fn scan_field_value(s: &RawSpectrum, f: usize) -> (r: Option<Value>)
    requires
        f < SCAN_FIELDS,
    ensures
        opt_view(r) == scan_field(s@, f as int),
{
    if f == 0 {
        Some(Value::Bytes(crate::levels::copy_bytes(&s.id)))
    } else if f == 1 {
        Some(Value::Int(s.ms_level as i32))
    } else if f == 2 {
        Some(Value::Bool(s.centroid))
    } else if f == 3 {
        Some(Value::Float(s.scan_start_time))
    } else if f == 4 {
        opt_float_value(s.collision_energy)
    } else if f == 5 {
        opt_float_value(s.inverse_ion_mobility)
    } else if f == 6 {
        Some(Value::Float(s.ion_injection_time))
    } else {
        Some(Value::Float(s.total_ion_current))
    }
}

/// The value of precursor column `f` for one precursor.
pub fn precursor_field_value(p: &Precursor, f: usize) -> (r: Option<Value>)
    requires
        f < PRECURSOR_FIELDS,
    ensures
        opt_view(r) == precursor_field(p@, f as int),
{
    if f == 0 {
        Some(Value::Float(p.mz))
    } else if f == 1 {
        match p.charge {
            Some(z) => Some(Value::Int(z)),
            None => None,
        }
    } else if f == 2 {
        opt_float_value(p.intensity)
    } else if f == 3 {
        opt_float_value(p.isolation_window_target)
    } else if f == 4 {
        opt_float_value(p.isolation_window_lower)
    } else if f == 5 {
        opt_float_value(p.isolation_window_upper)
    } else {
        copy_opt_bytes(&p.spectrum_ref)
    }
}

/// Encodes scan-level column `f`: one entry per scan.
pub fn encode_scan_column(spectra: &Vec<RawSpectrum>, f: usize) -> (r: Vec<Slot>)
    requires
        f < SCAN_FIELDS,
    ensures
        slots_view(r@) == scalar_column(spectra_view(*spectra), f as int),
{
    let ghost specs = spectra_view(*spectra);
    let max_def: i16 = if f == 4 || f == 5 { 1 } else { 0 };
    let mut out: Vec<Slot> = Vec::new();
    let mut i: usize = 0;
    while i < spectra.len()
        invariant
            f < SCAN_FIELDS,
            specs == spectra_view(*spectra),
            max_def == scan_def(f as int),
            i <= spectra.len(),
            slots_view(out@) == scalar_column(specs, f as int).subrange(0, i as int),
        decreases spectra.len() - i,
    {
        let v = scan_field_value(&spectra[i], f);
        let def = if v.is_some() { max_def } else { 0 };
        let ghost old_v = slots_view(out@);
        out.push(Slot { def, rep: 0, value: v });
        proof {
            assert(specs[i as int] == spectra[i as int]@);
            assert(scalar_column(specs, f as int)[i as int] == scalar_slot(scan_field(specs[i as int], f as int), max_def));
            assert(slots_view(out@) =~= old_v.push(scalar_slot(scan_field(specs[i as int], f as int), max_def)));
            assert(slots_view(out@) =~= scalar_column(specs, f as int).subrange(0, i + 1));
        }
        i += 1;
    }
    proof {
        assert(scalar_column(specs, f as int).subrange(0, i as int) =~= scalar_column(specs, f as int));
    }
    out
}


/// Encodes precursor column `f`: for each scan, its precursors' values with
/// their definition and repetition levels, or one entry at level 0 for a scan
/// without precursors.
pub fn encode_precursor_column(spectra: &Vec<RawSpectrum>, f: usize) -> (r: Vec<Slot>)
    requires
        f < PRECURSOR_FIELDS,
    ensures
        slots_view(r@) == encode_lists(precursor_rows(spectra_view(*spectra), f as int), precursor_def(f as int)),
{
    let ghost specs = spectra_view(*spectra);
    let ghost rows = precursor_rows(specs, f as int);
    let max_def: i16 = if f == 0 { 2 } else { 3 };
    let mut out: Vec<Slot> = Vec::new();
    let mut i: usize = 0;
    proof {
        lemma_encode_lists_empty(max_def);
        assert(rows.take(0) =~= Seq::<Seq<Option<Cell>>>::empty());
    }
    while i < spectra.len()
        invariant
            f < PRECURSOR_FIELDS,
            specs == spectra_view(*spectra),
            rows == precursor_rows(specs, f as int),
            max_def == precursor_def(f as int),
            i <= spectra.len(),
            slots_view(out@) == encode_lists(rows.take(i as int), max_def),
        decreases spectra.len() - i,
    {
        let s = &spectra[i];
        let ghost row = rows[i as int];
        let ghost base = slots_view(out@);
        proof {
            assert(specs[i as int] == s@);
            assert(row == precursor_row(s@, f as int));
        }
        if s.precursors.len() == 0 {
            push_empty_list(&mut out);
            proof {
                assert(encode_list(row, max_def) =~= seq![crate::levels::empty_slot()]);
            }
        } else {
            let mut j: usize = 0;
            while j < s.precursors.len()
                invariant
                    f < PRECURSOR_FIELDS,
                    max_def == precursor_def(f as int),
                    row == precursor_row(s@, f as int),
                    row.len() == s.precursors.len() > 0,
                    j <= s.precursors.len(),
                    slots_view(out@) == base + encode_list(row, max_def).take(j as int),
                decreases s.precursors.len() - j,
            {
                let v = precursor_field_value(&s.precursors[j], f);
                let ghost before = slots_view(out@);
                push_list_entry(&mut out, v, j, max_def);
                proof {
                    assert(row[j as int] == precursor_field(s.precursors@[j as int]@, f as int));
                    assert(encode_list(row, max_def)[j as int] == entry_slot(row[j as int], j as int, max_def));
                    assert(encode_list(row, max_def).take(j + 1) =~= encode_list(row, max_def).take(j as int).push(
                        entry_slot(row[j as int], j as int, max_def)));
                }
                j += 1;
            }
            proof {
                assert(encode_list(row, max_def).take(j as int) =~= encode_list(row, max_def));
            }
        }
        proof {
            lemma_encode_lists_push(rows.take(i as int), row, max_def);
            assert(rows.take(i + 1) =~= rows.take(i as int).push(row));
        }
        i += 1;
    }
    proof {
        assert(rows.take(i as int) =~= rows);
    }
    out
}

/// Encodes the m/z list column, or the intensity list column: for each scan,
/// its values at definition level 1, or one entry at level 0 for an empty list.
pub fn encode_peak_column(spectra: &Vec<RawSpectrum>, intensity: bool) -> (r: Vec<Slot>)
    ensures
        slots_view(r@) == encode_lists(peak_rows(spectra_view(*spectra), intensity), 1),
{
    let ghost specs = spectra_view(*spectra);
    let ghost rows = peak_rows(specs, intensity);
    let mut out: Vec<Slot> = Vec::new();
    let mut i: usize = 0;
    proof {
        lemma_encode_lists_empty(1);
        assert(rows.take(0) =~= Seq::<Seq<Option<Cell>>>::empty());
    }
    while i < spectra.len()
        invariant
            specs == spectra_view(*spectra),
            rows == peak_rows(specs, intensity),
            i <= spectra.len(),
            slots_view(out@) == encode_lists(rows.take(i as int), 1),
        decreases spectra.len() - i,
    {
        let s = &spectra[i];
        let values = if intensity { &s.intensity } else { &s.mz };
        let ghost row = rows[i as int];
        let ghost base = slots_view(out@);
        proof {
            assert(specs[i as int] == s@);
            assert(row == float_list(values@));
        }
        if values.len() == 0 {
            push_empty_list(&mut out);
            proof {
                assert(encode_list(row, 1) =~= seq![crate::levels::empty_slot()]);
            }
        } else {
            let mut j: usize = 0;
            while j < values.len()
                invariant
                    row == float_list(values@),
                    row.len() == values.len() > 0,
                    j <= values.len(),
                    slots_view(out@) == base + encode_list(row, 1).take(j as int),
                decreases values.len() - j,
            {
                push_list_entry(&mut out, Some(Value::Float(values[j])), j, 1);
                proof {
                    assert(encode_list(row, 1)[j as int] == entry_slot(row[j as int], j as int, 1));
                    assert(encode_list(row, 1).take(j + 1) =~= encode_list(row, 1).take(j as int).push(
                        entry_slot(row[j as int], j as int, 1)));
                }
                j += 1;
            }
            proof {
                assert(encode_list(row, 1).take(j as int) =~= encode_list(row, 1));
            }
        }
        proof {
            lemma_encode_lists_push(rows.take(i as int), row, 1);
            assert(rows.take(i + 1) =~= rows.take(i as int).push(row));
        }
        i += 1;
    }
    proof {
        assert(rows.take(i as int) =~= rows);
    }
    out
}

/// Lays out scans in the wide layout, one row per scan, column by column in
/// schema order. Fails on the first scan whose m/z and intensity lists
/// differ in length; nothing is truncated.
pub fn encode_wide(spectra: &Vec<RawSpectrum>) -> (r: Result<Vec<Vec<Slot>>, EncodeError>)
    ensures
        r is Ok <==> spectra_wf(spectra_view(*spectra)),
        r matches Ok(cols) ==> columns_view(cols) == wide_columns(spectra_view(*spectra)),
        r matches Err(EncodeError::LengthMismatch(i)) ==> i < spectra.len() && !spectrum_wf(
            spectra_view(*spectra)[i as int],
        ),
{
    let ghost specs = spectra_view(*spectra);
    let mut i: usize = 0;
    while i < spectra.len()
        invariant
            specs == spectra_view(*spectra),
            i <= spectra.len(),
            forall|k: int| 0 <= k < i ==> spectrum_wf(#[trigger] specs[k]),
        decreases spectra.len() - i,
    {
        if spectra[i].mz.len() != spectra[i].intensity.len() {
            proof {
                assert(specs[i as int] == spectra[i as int]@);
            }
            return Err(EncodeError::LengthMismatch(i));
        }
        proof {
            assert(specs[i as int] == spectra[i as int]@);
        }
        i += 1;
    }
    let mut cols: Vec<Vec<Slot>> = Vec::new();
    let mut c: usize = 0;
    while c < WIDE_COLUMNS
        invariant
            specs == spectra_view(*spectra),
            c <= WIDE_COLUMNS,
            columns_view(cols) == wide_columns(specs).take(c as int),
        decreases WIDE_COLUMNS - c,
    {
        let col = if c < SCAN_FIELDS {
            encode_scan_column(spectra, c)
        } else if c < SCAN_FIELDS + PRECURSOR_FIELDS {
            encode_precursor_column(spectra, c - SCAN_FIELDS)
        } else {
            encode_peak_column(spectra, c == WIDE_COLUMNS - 1)
        };
        let ghost old_cols = columns_view(cols);
        let ghost cv = slots_view(col@);
        cols.push(col);
        proof {
            assert(cv == wide_column(specs, c as int));
            assert(columns_view(cols) =~= old_cols.push(cv));
            assert(wide_columns(specs).take(c + 1) =~= wide_columns(specs).take(c as int).push(cv));
        }
        c += 1;
    }
    proof {
        assert(wide_columns(specs).take(17) =~= wide_columns(specs));
    }
    Ok(cols)
}


/// A stream of columns that no scans encode to.
#[derive(Debug, Clone, Copy, PartialEq, Eq)]
pub enum DecodeError {
    /// There are not as many columns as the wide layout has.
    ColumnCount(usize),
    /// This column does not hold one row per scan.
    RowCount(usize),
    /// This list column's levels are malformed.
    Levels(usize, LevelError),
    /// The values of this row do not make a scan.
    BadRow(usize),
}

/// The streams that some well-formed scans encode to.
pub open spec fn in_wide_image(cols: Seq<Seq<SlotView>>) -> bool {
    exists|s: Seq<SpectrumView>| spectra_wf(s) && wide_columns(s) == cols
}

/// What the reader gives back for a stream of columns: the scans that encode
/// to it, if there are any (there is at most one such sequence).
pub open spec fn decode_wide_spec(cols: Seq<Seq<SlotView>>) -> Option<Seq<SpectrumView>> {
    if in_wide_image(cols) {
        Some(choose|s: Seq<SpectrumView>| spectra_wf(s) && wide_columns(s) == cols)
    } else {
        None
    }
}

/// The rows of list column `k` of the wide layout: seven precursor columns,
/// then m/z and intensity.
pub open spec fn list_rows(specs: Seq<SpectrumView>, k: int) -> Seq<Seq<Option<Cell>>> {
    if k < 7 { precursor_rows(specs, k) } else { peak_rows(specs, k == 8) }
}

pub open spec fn list_def(k: int) -> i16 {
    if k < 7 { precursor_def(k) } else { 1 }
}

pub proof fn lemma_list_rows_wf(specs: Seq<SpectrumView>, k: int)
    requires
        0 <= k < 9,
    ensures
        lists_wf(list_rows(specs, k), list_def(k)),
        wide_column(specs, 8 + k) == encode_lists(list_rows(specs, k), list_def(k)),
{
    if k >= 7 {
        let rows = list_rows(specs, k);
        assert forall|i: int, j: int| 0 <= i < rows.len() && 0 <= j < rows[i].len() && list_def(k) == 1
            implies (#[trigger] rows[i][j]) is Some by {
            assert(rows[i] == peak_row(specs[i], k == 8));
        }
    }
}

/// The wide layout tells scans apart: two well-formed sequences of scans with
/// the same columns are the same sequence.
pub proof fn lemma_wide_injective(s1: Seq<SpectrumView>, s2: Seq<SpectrumView>)
    requires
        spectra_wf(s1),
        spectra_wf(s2),
        wide_columns(s1) == wide_columns(s2),
    ensures
        s1 == s2,
{
    assert(wide_columns(s1)[0] == wide_columns(s2)[0]);
    assert(s1.len() == scalar_column(s1, 0).len());
    assert(s1.len() == s2.len());
    assert forall|k: int| 0 <= k < 9 implies list_rows(s1, k) == list_rows(s2, k) by {
        lemma_list_rows_wf(s1, k);
        lemma_list_rows_wf(s2, k);
        assert(wide_columns(s1)[8 + k] == wide_columns(s2)[8 + k]);
        lemma_encode_lists_injective(list_rows(s1, k), list_rows(s2, k), list_def(k));
    }
    assert forall|i: int| 0 <= i < s1.len() implies s1[i] == s2[i] by {
        let a = s1[i];
        let b = s2[i];
        assert forall|f: int| 0 <= f < 8 implies scan_field(a, f) == scan_field(b, f) by {
            assert(wide_columns(s1)[f] == wide_columns(s2)[f]);
            assert(scalar_column(s1, f)[i] == scalar_column(s2, f)[i]);
        }
        assert(scan_field(a, 0) == scan_field(b, 0));
        assert(scan_field(a, 1) == scan_field(b, 1));
        assert(scan_field(a, 2) == scan_field(b, 2));
        assert(scan_field(a, 3) == scan_field(b, 3));
        assert(scan_field(a, 4) == scan_field(b, 4));
        assert(scan_field(a, 5) == scan_field(b, 5));
        assert(scan_field(a, 6) == scan_field(b, 6));
        assert(scan_field(a, 7) == scan_field(b, 7));
        assert(level_cell(a.ms_level) == level_cell(b.ms_level));
        assert(list_rows(s1, 7)[i] == list_rows(s2, 7)[i]);
        assert(list_rows(s1, 8)[i] == list_rows(s2, 8)[i]);
        assert(float_list(a.mz) == float_list(b.mz));
        assert(float_list(a.intensity) == float_list(b.intensity));
        assert(a.mz.len() == float_list(a.mz).len());
        assert forall|j: int| 0 <= j < a.mz.len() implies a.mz[j] == b.mz[j] by {
            assert(float_list(a.mz)[j] == float_list(b.mz)[j]);
        }
        assert forall|j: int| 0 <= j < a.intensity.len() implies a.intensity[j] == b.intensity[j] by {
            assert(float_list(a.intensity)[j] == float_list(b.intensity)[j]);
        }
        assert(a.mz =~= b.mz);
        assert(a.intensity =~= b.intensity);
        assert forall|f: int| 0 <= f < 7 implies precursor_row(a, f) == precursor_row(b, f) by {
            assert(list_rows(s1, f)[i] == list_rows(s2, f)[i]);
        }
        assert(precursor_row(a, 0).len() == precursor_row(b, 0).len());
        assert forall|j: int| 0 <= j < a.precursors.len() implies a.precursors[j] == b.precursors[j] by {
            let p = a.precursors[j];
            let q = b.precursors[j];
            assert forall|f: int| 0 <= f < 7 implies precursor_field(p, f) == precursor_field(q, f) by {
                assert(precursor_row(a, f)[j] == precursor_row(b, f)[j]);
            }
            assert(precursor_field(p, 0) == precursor_field(q, 0));
            assert(precursor_field(p, 1) == precursor_field(q, 1));
            assert(precursor_field(p, 2) == precursor_field(q, 2));
            assert(precursor_field(p, 3) == precursor_field(q, 3));
            assert(precursor_field(p, 4) == precursor_field(q, 4));
            assert(precursor_field(p, 5) == precursor_field(q, 5));
            assert(precursor_field(p, 6) == precursor_field(q, 6));
        }
        assert(a.precursors =~= b.precursors);
    }
    assert(s1 =~= s2);
}

/// Round trip: reading back the wide layout of well-formed scans gives back
/// exactly those scans, field for field and bit for bit, whatever the number
/// of precursors and peaks of each.
pub proof fn lemma_wide_round_trip(s: Seq<SpectrumView>)
    requires
        spectra_wf(s),
    ensures
        decode_wide_spec(wide_columns(s)) == Some(s),
{
    let cols = wide_columns(s);
    assert(in_wide_image(cols));
    let t = choose|t: Seq<SpectrumView>| spectra_wf(t) && wide_columns(t) == cols;
    lemma_wide_injective(s, t);
}


/// Most scans in one row group of the wide layout.
pub const WIDE_GROUP_SCANS: usize = 65535;

/// The scans of row group `g` of the wide layout.
pub open spec fn wide_chunk(specs: Seq<SpectrumView>, g: int) -> Seq<SpectrumView> {
    let lo = g * 65535;
    let hi = if (g + 1) * 65535 < specs.len() { (g + 1) * 65535 } else { specs.len() as int };
    specs.subrange(lo, hi)
}

/// Lays out scans in the wide layout, in row groups of at most
/// `WIDE_GROUP_SCANS` scans, each group encoded on its own. Fails, with the
/// position of the first offending scan, when some scan's lists differ in
/// length.
pub fn wide_row_groups(spectra: Vec<RawSpectrum>) -> (r: Result<Vec<Vec<Vec<Slot>>>, EncodeError>)
    ensures
        r is Ok <==> spectra_wf(spectra_view(spectra)),
        r matches Ok(groups) ==> {
            &&& groups.len() * 65535 >= spectra.len()
            &&& groups.len() == 0 || (groups.len() - 1) * 65535 < spectra.len()
            &&& forall|g: int| 0 <= g < groups.len() ==> columns_view(#[trigger] groups@[g]) == wide_columns(
                wide_chunk(spectra_view(spectra), g),
            )
        },
        r matches Err(EncodeError::LengthMismatch(i)) ==> i < spectra.len() && !spectrum_wf(
            spectra_view(spectra)[i as int],
        ),
{
    let ghost s = spectra_view(spectra);
    let ghost n = spectra.len();
    let mut rest = spectra;
    let mut groups: Vec<Vec<Vec<Slot>>> = Vec::new();
    let mut start: usize = 0;
    proof {
        assert(spectra_view(rest) =~= s.subrange(0, n as int));
    }
    while rest.len() > 0
        invariant
            s.len() == n,
            s == spectra_view(spectra),
            n == spectra.len(),
            start <= groups.len() * 65535,
            rest.len() > 0 ==> start == groups.len() * 65535,
            start + rest.len() == n,
            spectra_view(rest) == s.subrange(start as int, n as int),
            forall|g: int| 0 <= g < groups.len() ==> columns_view(#[trigger] groups@[g]) == wide_columns(wide_chunk(s, g)),
            forall|i: int| 0 <= i < start ==> spectrum_wf(#[trigger] s[i]),
            groups.len() == 0 || (groups.len() - 1) * 65535 < n,
        decreases rest.len(),
    {
        let ghost before = rest@;
        let ghost before_v = spectra_view(rest);
        let tail = if rest.len() > WIDE_GROUP_SCANS {
            rest.split_off(WIDE_GROUP_SCANS)
        } else {
            Vec::new()
        };
        let ghost chunk = spectra_view(rest);
        proof {
            let g = groups.len() as int;
            assert(g * 65535 == start);
            assert((g + 1) * 65535 == start + 65535);
            assert forall|j: int| 0 <= j < chunk.len() implies chunk[j] == s[start + j] by {
                assert(rest@[j] == before[j]);
                assert(chunk[j] == rest@[j]@);
                assert(before_v[j] == before[j]@);
                assert(before_v[j] == s[start + j]);
            }
            assert(chunk =~= wide_chunk(s, g));
            assert forall|j: int| 0 <= j < spectra_view(tail).len() implies spectra_view(tail)[j] == s[start + rest.len() + j] by {
                assert(tail@[j] == before[rest.len() + j]);
                assert(before_v[rest.len() + j] == before[rest.len() + j]@);
                assert(before_v[rest.len() + j] == s[start + rest.len() + j]);
            }
            assert(spectra_view(tail) =~= s.subrange(start + rest.len(), n as int));
        }
        match encode_wide(&rest) {
            Ok(cols) => {
                let ghost old_g = groups@;
                groups.push(cols);
                proof {
                    assert forall|g: int| 0 <= g < groups.len() implies columns_view(#[trigger] groups@[g]) == wide_columns(wide_chunk(s, g)) by {
                        if g < old_g.len() {
                            assert(groups@[g] == old_g[g]);
                        }
                    }
                    assert forall|i: int| 0 <= i < start + rest.len() implies spectrum_wf(#[trigger] s[i]) by {
                        if i >= start {
                            assert(s[i] == chunk[i - start]);
                        }
                    }
                }
            },
            Err(EncodeError::LengthMismatch(i)) => {
                proof {
                    assert(s[start + i] == chunk[i as int]);
                    assert(!spectra_wf(s));
                }
                return Err(EncodeError::LengthMismatch(start + i));
            },
        }
        start = start + rest.len();
        rest = tail;
    }
    proof {
        assert(spectra_wf(s));
    }
    Ok(groups)
}


/// Column `c` of several row groups, one group after another.
pub open spec fn concat_columns(groups: Seq<Seq<Seq<SlotView>>>, c: int) -> Seq<SlotView> {
    groups.map_values(|g: Seq<Seq<SlotView>>| g[c]).flatten()
}

proof fn lemma_encode_lists_concat(a: Seq<Seq<Option<Cell>>>, b: Seq<Seq<Option<Cell>>>, max_def: i16)
    ensures
        encode_lists(a + b, max_def) == encode_lists(a, max_def) + encode_lists(b, max_def),
{
    let f = |r: Seq<Option<Cell>>| encode_list(r, max_def);
    assert((a + b).map_values(f) =~= a.map_values(f) + b.map_values(f));
    vstd::seq_lib::lemma_flatten_concat(a.map_values(f), b.map_values(f));
}

/// The wide layout of two runs of scans, one after the other, is the layout
/// of each, column by column, one after the other.
pub proof fn lemma_wide_columns_concat(a: Seq<SpectrumView>, b: Seq<SpectrumView>, c: int)
    requires
        0 <= c < 17,
    ensures
        wide_column(a + b, c) == wide_column(a, c) + wide_column(b, c),
{
    if c < 8 {
        assert(scalar_column(a + b, c) =~= scalar_column(a, c) + scalar_column(b, c));
    } else if c < 15 {
        assert(precursor_rows(a + b, c - 8) =~= precursor_rows(a, c - 8) + precursor_rows(b, c - 8));
        lemma_encode_lists_concat(precursor_rows(a, c - 8), precursor_rows(b, c - 8), precursor_def(c - 8));
    } else {
        assert(peak_rows(a + b, c == 16) =~= peak_rows(a, c == 16) + peak_rows(b, c == 16));
        lemma_encode_lists_concat(peak_rows(a, c == 16), peak_rows(b, c == 16), 1);
    }
}

/// The row groups that `wide_row_groups` encodes, read back column by
/// column one group after another, are the wide layout of all the scans:
/// splitting into row groups loses and reorders nothing.
pub proof fn lemma_wide_groups_concat(specs: Seq<SpectrumView>, k: nat, c: int)
    requires
        0 <= c < 17,
        k * 65535 >= specs.len(),
        k == 0 || (k - 1) * 65535 < specs.len(),
    ensures
        concat_columns(Seq::new(k, |g: int| wide_columns(wide_chunk(specs, g))), c) == wide_column(specs, c),
{
    lemma_wide_groups_prefix(specs, k, c);
    assert(specs.take(specs.len() as int) =~= specs);
}

proof fn lemma_wide_groups_prefix(specs: Seq<SpectrumView>, k: nat, c: int)
    requires
        0 <= c < 17,
        k == 0 || (k - 1) * 65535 < specs.len(),
    ensures
        concat_columns(Seq::new(k, |g: int| wide_columns(wide_chunk(specs, g))), c) == wide_column(
            specs.take(if k * 65535 < specs.len() { (k * 65535) as int } else { specs.len() as int }),
            c,
        ),
    decreases k,
{
    let f = |g: Seq<Seq<SlotView>>| g[c];
    let gs = Seq::new(k, |g: int| wide_columns(wide_chunk(specs, g)));
    if k == 0 {
        assert(gs.map_values(f) =~= Seq::<Seq<SlotView>>::empty());
        assert(specs.take(0) =~= Seq::<SpectrumView>::empty());
        let e = Seq::<SpectrumView>::empty();
        if c < 8 {
            assert(scalar_column(e, c) =~= Seq::<SlotView>::empty());
        } else if c < 15 {
            assert(precursor_rows(e, c - 8) =~= Seq::<Seq<Option<Cell>>>::empty());
            lemma_encode_lists_empty(precursor_def(c - 8));
        } else {
            assert(peak_rows(e, c == 16) =~= Seq::<Seq<Option<Cell>>>::empty());
            lemma_encode_lists_empty(1);
        }
    } else {
        let j = (k - 1) as nat;
        lemma_wide_groups_prefix(specs, j, c);
        let prev = Seq::new(j, |g: int| wide_columns(wide_chunk(specs, g)));
        assert(gs =~= prev.push(wide_columns(wide_chunk(specs, j as int))));
        assert(gs.map_values(f) =~= prev.map_values(f).push(wide_columns(wide_chunk(specs, j as int))[c]));
        prev.map_values(f).lemma_flatten_push(wide_columns(wide_chunk(specs, j as int))[c]);
        let lo = (j * 65535) as int;
        let hi = if k * 65535 < specs.len() { (k * 65535) as int } else { specs.len() as int };
        assert(specs.take(hi) =~= specs.take(lo) + wide_chunk(specs, j as int));
        lemma_wide_columns_concat(specs.take(lo), wide_chunk(specs, j as int), c);
    }
}

} // verus!
