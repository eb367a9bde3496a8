use vstd::prelude::*;
use crate::levels::{encode_lists, Cell, Slot, SlotView, Value, copy_bytes, decode_lists, lemma_encode_lists_injective, opt_view, row_view, rows_view, scalar_slot, slots_view};
use crate::model::{precursors_view, Precursor, PrecursorView, RawSpectrum, SpectrumView, spectra_view, spectra_wf, spectrum_wf};
use crate::wide::{
    DecodeError, PRECURSOR_FIELDS, SCAN_FIELDS, WIDE_COLUMNS, columns_view, decode_wide_spec, float_list,
    in_wide_image, lemma_list_rows_wf, level_cell, lemma_wide_injective, list_def, list_rows, opt_bytes, opt_float, opt_int,
    field_row, peak_row, precursor_field, scalar_column, precursor_row, scan_def, scan_field, wide_columns,
};

verus! {

/// The value of a slot of a column with one value per row, when its levels
/// are those of such a column.
fn read_scalar(s: &Slot, max_def: i16) -> (r: Option<Option<Value>>)
    requires
        max_def == 0 || max_def == 1,
    ensures
        r matches Some(v) ==> s@ == scalar_slot(opt_view(v), max_def),
        r is None ==> forall|o: Option<Cell>| (max_def == 0 ==> o is Some) ==> s@ != scalar_slot(o, max_def),
{
    if s.rep != 0 {
        return None;
    }
    match &s.value {
        Some(v) => {
            if s.def == max_def {
                Some(Some(crate::levels::copy_value(v)))
            } else {
                None
            }
        },
        None => {
            if s.def == 0 && max_def == 1 {
                Some(None)
            } else {
                None
            }
        },
    }
}

fn cell_bytes(c: &Option<Value>) -> (r: Option<Vec<u8>>)
    ensures
        r matches Some(b) ==> opt_view(*c) == Some(Cell::Bytes(b@)),
        r is None ==> forall|b: Seq<u8>| opt_view(*c) != Some(Cell::Bytes(b)),
{
    match c {
        Some(Value::Bytes(b)) => Some(copy_bytes(b)),
        _ => None,
    }
}

fn cell_level(c: &Option<Value>) -> (r: Option<u8>)
    ensures
        r matches Some(l) ==> opt_view(*c) == level_cell(l),
        r is None ==> forall|l: u8| opt_view(*c) != #[trigger] level_cell(l),
{
    match c {
        Some(Value::Int(i)) => {
            if 0 <= *i && *i <= 255 {
                Some(*i as u8)
            } else {
                None
            }
        },
        _ => None,
    }
}

fn cell_bool(c: &Option<Value>) -> (r: Option<bool>)
    ensures
        r matches Some(x) ==> opt_view(*c) == Some(Cell::Bool(x)),
        r is None ==> forall|x: bool| opt_view(*c) != Some(Cell::Bool(x)),
{
    match c {
        Some(Value::Bool(x)) => Some(*x),
        _ => None,
    }
}

fn cell_float(c: &Option<Value>) -> (r: Option<u32>)
    ensures
        r matches Some(x) ==> opt_view(*c) == Some(Cell::Float(x)),
        r is None ==> forall|x: u32| opt_view(*c) != Some(Cell::Float(x)),
{
    match c {
        Some(Value::Float(x)) => Some(*x),
        _ => None,
    }
}

fn cell_opt_float(c: &Option<Value>) -> (r: Option<Option<u32>>)
    ensures
        r matches Some(x) ==> opt_view(*c) == opt_float(x),
        r is None ==> forall|x: Option<u32>| opt_view(*c) != opt_float(x),
{
    match c {
        Some(Value::Float(x)) => Some(Some(*x)),
        None => Some(None),
        _ => None,
    }
}

fn cell_opt_int(c: &Option<Value>) -> (r: Option<Option<i32>>)
    ensures
        r matches Some(x) ==> opt_view(*c) == opt_int(x),
        r is None ==> forall|x: Option<i32>| opt_view(*c) != opt_int(x),
{
    match c {
        Some(Value::Int(x)) => Some(Some(*x)),
        None => Some(None),
        _ => None,
    }
}

fn cell_opt_bytes(c: &Option<Value>) -> (r: Option<Option<Vec<u8>>>)
    ensures
        r matches Some(x) ==> opt_view(*c) == opt_bytes(crate::model::opt_bytes_view(x)),
        r is None ==> forall|x: Option<Seq<u8>>| opt_view(*c) != opt_bytes(x),
{
    match c {
        Some(Value::Bytes(b)) => Some(Some(copy_bytes(b))),
        None => Some(None),
        _ => None,
    }
}

pub open spec fn lists_view(l: Vec<Vec<Vec<Option<Value>>>>) -> Seq<Seq<Seq<Option<Cell>>>> {
    l@.map_values(|r: Vec<Vec<Option<Value>>>| rows_view(r))
}

/// List column `k` of one scan.
pub open spec fn list_row(sv: SpectrumView, k: int) -> Seq<Option<Cell>> {
    if k < 7 { precursor_row(sv, k) } else { peak_row(sv, k == 8) }
}

/// Whether the precursor `pv` is the `j`-th entry of row `i` of the
/// precursor columns.
pub open spec fn precursor_matches(lv: Seq<Seq<Seq<Option<Cell>>>>, i: int, j: int, pv: PrecursorView) -> bool {
    forall|f: int| 0 <= f < 7 ==> lv[f][i][j] == #[trigger] precursor_field(pv, f)
}

/// Whether the precursors `ps` are row `i` of the precursor columns.
pub open spec fn precursor_rows_match(lv: Seq<Seq<Seq<Option<Cell>>>>, i: int, ps: Seq<PrecursorView>) -> bool {
    forall|f: int| 0 <= f < 7 ==> lv[f][i] == #[trigger] field_row(ps, f)
}

/// Whether the scan `sv` is row `i` of the scan-level columns `cv` and of
/// the decoded list columns `lv`.
pub open spec fn row_matches(
    cv: Seq<Seq<SlotView>>,
    lv: Seq<Seq<Seq<Option<Cell>>>>,
    i: int,
    sv: SpectrumView,
) -> bool {
    &&& spectrum_wf(sv)
    &&& forall|c: int| 0 <= c < 8 ==> cv[c][i] == #[trigger] scalar_slot(scan_field(sv, c), scan_def(c))
    &&& forall|k: int| 0 <= k < 9 ==> lv[k][i] == #[trigger] list_row(sv, k)
}

fn decode_precursor(lists: &Vec<Vec<Vec<Option<Value>>>>, i: usize, j: usize) -> (r: Option<Precursor>)
    requires
        lists.len() == 9,
        forall|f: int| 0 <= f < 7 ==> i < (#[trigger] lists@[f]).len() && j < lists@[f]@[i as int].len(),
    ensures
        r matches Some(p) ==> precursor_matches(lists_view(*lists), i as int, j as int, p@),
        r is None ==> forall|pv: PrecursorView| !precursor_matches(lists_view(*lists), i as int, j as int, pv),
{
    let ghost lv = lists_view(*lists);
    proof {
        assert forall|f: int| 0 <= f < 7 implies lv[f][i as int][j as int] == opt_view(lists@[f]@[i as int]@[j as int]) by {
            assert(lv[f] == rows_view(lists@[f]));
            assert(rows_view(lists@[f])[i as int] == row_view(lists@[f]@[i as int]));
        }
    }
    let mz = cell_float(&lists[0][i][j]);
    let charge = cell_opt_int(&lists[1][i][j]);
    let intensity = cell_opt_float(&lists[2][i][j]);
    let target = cell_opt_float(&lists[3][i][j]);
    let lower = cell_opt_float(&lists[4][i][j]);
    let upper = cell_opt_float(&lists[5][i][j]);
    let spectrum_ref = cell_opt_bytes(&lists[6][i][j]);
    match (mz, charge, intensity, target, lower, upper, spectrum_ref) {
        (Some(mz), Some(charge), Some(intensity), Some(target), Some(lower), Some(upper), Some(spectrum_ref)) => {
            let p = Precursor {
                mz,
                charge,
                intensity,
                isolation_window_target: target,
                isolation_window_lower: lower,
                isolation_window_upper: upper,
                spectrum_ref,
            };
            proof {
                assert forall|f: int| 0 <= f < 7 implies lv[f][i as int][j as int] == #[trigger] precursor_field(p@, f) by {
                }
            }
            Some(p)
        },
        _ => {
            proof {
                assert forall|pv: PrecursorView| !precursor_matches(lv, i as int, j as int, pv) by {
                    if precursor_matches(lv, i as int, j as int, pv) {
                        assert(lv[0][i as int][j as int] == precursor_field(pv, 0));
                        assert(lv[1][i as int][j as int] == precursor_field(pv, 1));
                        assert(lv[2][i as int][j as int] == precursor_field(pv, 2));
                        assert(lv[3][i as int][j as int] == precursor_field(pv, 3));
                        assert(lv[4][i as int][j as int] == precursor_field(pv, 4));
                        assert(lv[5][i as int][j as int] == precursor_field(pv, 5));
                        assert(lv[6][i as int][j as int] == precursor_field(pv, 6));
                    }
                }
            }
            None
        },
    }
}


proof fn lemma_lists_cell(lists: Vec<Vec<Vec<Option<Value>>>>, k: int, i: int)
    requires
        0 <= k < lists@.len(),
        0 <= i < lists@[k]@.len(),
    ensures
        lists_view(lists)[k][i] == row_view(lists@[k]@[i]),
        lists_view(lists)[k][i].len() == lists@[k]@[i]@.len(),
        forall|j: int| 0 <= j < lists@[k]@[i]@.len() ==> lists_view(lists)[k][i][j] == opt_view(#[trigger] lists@[k]@[i]@[j]),
{
    assert(lists_view(lists)[k] == rows_view(lists@[k]));
}

/// The floats of row `i` of list column `k`, when each of them is present.
fn decode_floats(lists: &Vec<Vec<Vec<Option<Value>>>>, k: usize, i: usize) -> (r: Option<Vec<u32>>)
    requires
        k < lists.len(),
        i < lists@[k as int].len(),
    ensures
        r matches Some(v) ==> lists_view(*lists)[k as int][i as int] == float_list(v@),
        r is None ==> forall|x: Seq<u32>| lists_view(*lists)[k as int][i as int] != #[trigger] float_list(x),
{
    let ghost lv = lists_view(*lists);
    proof {
        lemma_lists_cell(*lists, k as int, i as int);
    }
    let row = &lists[k][i];
    let mut out: Vec<u32> = Vec::new();
    let mut j: usize = 0;
    while j < row.len()
        invariant
            lv == lists_view(*lists),
            k < lists.len(),
            i < lists@[k as int].len(),
            *row == lists@[k as int]@[i as int],
            lv[k as int][i as int].len() == row.len(),
            forall|t: int| 0 <= t < row.len() ==> lv[k as int][i as int][t] == opt_view(#[trigger] row@[t]),
            j <= row.len(),
            out.len() == j,
            forall|t: int| 0 <= t < j ==> lv[k as int][i as int][t] == Some(Cell::Float(#[trigger] out@[t])),
        decreases row.len() - j,
    {
        match cell_float(&row[j]) {
            Some(x) => {
                out.push(x);
            },
            None => {
                proof {
                    assert forall|x: Seq<u32>| lv[k as int][i as int] != #[trigger] float_list(x) by {
                        if lv[k as int][i as int] == float_list(x) {
                            assert(lv[k as int][i as int][j as int] == float_list(x)[j as int]);
                        }
                    }
                }
                return None;
            },
        }
        j += 1;
    }
    proof {
        assert(lv[k as int][i as int] =~= float_list(out@));
    }
    Some(out)
}

/// Reassembles scan `i` from the scan-level columns and the decoded list
/// columns. Gives nothing when those values make no scan.
fn decode_row(cols: &Vec<Vec<Slot>>, lists: &Vec<Vec<Vec<Option<Value>>>>, i: usize) -> (r: Option<RawSpectrum>)
    requires
        cols.len() == 17,
        lists.len() == 9,
        forall|c: int| 0 <= c < 8 ==> i < (#[trigger] cols@[c]).len(),
        forall|k: int| 0 <= k < 9 ==> i < (#[trigger] lists@[k]).len(),
    ensures
        r matches Some(sp) ==> row_matches(columns_view(*cols), lists_view(*lists), i as int, sp@),
        r is None ==> forall|sv: SpectrumView| !row_matches(columns_view(*cols), lists_view(*lists), i as int, sv),
{
    let ghost cv = columns_view(*cols);
    let ghost lv = lists_view(*lists);
    proof {
        assert forall|c: int| 0 <= c < 8 implies cv[c][i as int] == (#[trigger] cols@[c])@[i as int]@ by {
            assert(cv[c] == slots_view(cols@[c]@));
        }
    }
    let s0 = read_scalar(&cols[0][i], 0);
    let s1 = read_scalar(&cols[1][i], 0);
    let s2 = read_scalar(&cols[2][i], 0);
    let s3 = read_scalar(&cols[3][i], 0);
    let s4 = read_scalar(&cols[4][i], 1);
    let s5 = read_scalar(&cols[5][i], 1);
    let s6 = read_scalar(&cols[6][i], 0);
    let s7 = read_scalar(&cols[7][i], 0);
    let (v0, v1, v2, v3, v4, v5, v6, v7) = match (s0, s1, s2, s3, s4, s5, s6, s7) {
        (Some(v0), Some(v1), Some(v2), Some(v3), Some(v4), Some(v5), Some(v6), Some(v7)) => (v0, v1, v2, v3, v4, v5, v6, v7),
        _ => {
            proof {
                assert forall|sv: SpectrumView| !row_matches(cv, lv, i as int, sv) by {
                    if row_matches(cv, lv, i as int, sv) {
                        assert(cv[0][i as int] == scalar_slot(scan_field(sv, 0), scan_def(0)));
                        assert(cv[1][i as int] == scalar_slot(scan_field(sv, 1), scan_def(1)));
                        assert(cv[2][i as int] == scalar_slot(scan_field(sv, 2), scan_def(2)));
                        assert(cv[3][i as int] == scalar_slot(scan_field(sv, 3), scan_def(3)));
                        assert(cv[4][i as int] == scalar_slot(scan_field(sv, 4), scan_def(4)));
                        assert(cv[5][i as int] == scalar_slot(scan_field(sv, 5), scan_def(5)));
                        assert(cv[6][i as int] == scalar_slot(scan_field(sv, 6), scan_def(6)));
                        assert(cv[7][i as int] == scalar_slot(scan_field(sv, 7), scan_def(7)));
                    }
                }
            }
            return None;
        },
    };
    let id = cell_bytes(&v0);
    let ms_level = cell_level(&v1);
    let centroid = cell_bool(&v2);
    let rt = cell_float(&v3);
    let ce = cell_opt_float(&v4);
    let im = cell_opt_float(&v5);
    let inj = cell_float(&v6);
    let tic = cell_float(&v7);
    let (id, ms_level, centroid, rt, ce, im, inj, tic) = match (id, ms_level, centroid, rt, ce, im, inj, tic) {
        (Some(a), Some(b), Some(c), Some(d), Some(e), Some(f), Some(g), Some(h)) => (a, b, c, d, e, f, g, h),
        _ => {
            proof {
                assert forall|sv: SpectrumView| !row_matches(cv, lv, i as int, sv) by {
                    if row_matches(cv, lv, i as int, sv) {
                        assert(cv[0][i as int] == scalar_slot(scan_field(sv, 0), scan_def(0)));
                        assert(cv[1][i as int] == scalar_slot(scan_field(sv, 1), scan_def(1)));
                        assert(cv[2][i as int] == scalar_slot(scan_field(sv, 2), scan_def(2)));
                        assert(cv[3][i as int] == scalar_slot(scan_field(sv, 3), scan_def(3)));
                        assert(cv[4][i as int] == scalar_slot(scan_field(sv, 4), scan_def(4)));
                        assert(cv[5][i as int] == scalar_slot(scan_field(sv, 5), scan_def(5)));
                        assert(cv[6][i as int] == scalar_slot(scan_field(sv, 6), scan_def(6)));
                        assert(cv[7][i as int] == scalar_slot(scan_field(sv, 7), scan_def(7)));
                    }
                }
            }
            return None;
        },
    };
    let mz = decode_floats(lists, 7, i);
    let intensity = decode_floats(lists, 8, i);
    let (mz, intensity) = match (mz, intensity) {
        (Some(a), Some(b)) => (a, b),
        _ => {
            proof {
                assert forall|sv: SpectrumView| !row_matches(cv, lv, i as int, sv) by {
                    if row_matches(cv, lv, i as int, sv) {
                        assert(lv[7][i as int] == list_row(sv, 7));
                        assert(lv[8][i as int] == list_row(sv, 8));
                    }
                }
            }
            return None;
        },
    };
    if mz.len() != intensity.len() {
        proof {
            assert forall|sv: SpectrumView| !row_matches(cv, lv, i as int, sv) by {
                if row_matches(cv, lv, i as int, sv) {
                    assert(lv[7][i as int] == list_row(sv, 7));
                    assert(lv[8][i as int] == list_row(sv, 8));
                    assert(float_list(mz@).len() == mz.len());
                }
            }
        }
        return None;
    }
    let precursors = match decode_precursors(lists, i) {
        Some(p) => p,
        None => {
            proof {
                assert forall|sv: SpectrumView| !row_matches(cv, lv, i as int, sv) by {
                    if row_matches(cv, lv, i as int, sv) {
                        assert forall|f: int| 0 <= f < 7 implies lv[f][i as int] == #[trigger] field_row(sv.precursors, f) by {
                            assert(lv[f][i as int] == list_row(sv, f));
                        }
                        assert(precursor_rows_match(lv, i as int, sv.precursors));
                    }
                }
            }
            return None;
        },
    };
    let sp = RawSpectrum {
        id,
        ms_level,
        centroid,
        scan_start_time: rt,
        collision_energy: ce,
        inverse_ion_mobility: im,
        ion_injection_time: inj,
        total_ion_current: tic,
        precursors,
        mz,
        intensity,
    };
    proof {
        let sv = sp@;
        assert(float_list(mz@).len() == mz.len());
        assert forall|c: int| 0 <= c < 8 implies cv[c][i as int] == #[trigger] scalar_slot(scan_field(sv, c), scan_def(c)) by {
        }
        assert forall|k: int| 0 <= k < 9 implies lv[k][i as int] == #[trigger] list_row(sv, k) by {
            if k < 7 {
                assert(lv[k][i as int] == field_row(precursors_view(precursors@), k));
            }
        }
    }
    Some(sp)
}

/// The precursors of row `i` of the precursor columns.
fn decode_precursors(lists: &Vec<Vec<Vec<Option<Value>>>>, i: usize) -> (r: Option<Vec<Precursor>>)
    requires
        lists.len() == 9,
        forall|k: int| 0 <= k < 9 ==> i < (#[trigger] lists@[k]).len(),
    ensures
        r matches Some(ps) ==> precursor_rows_match(lists_view(*lists), i as int, precursors_view(ps@)),
        r is None ==> forall|ps: Seq<PrecursorView>| !precursor_rows_match(lists_view(*lists), i as int, ps),
{
    let ghost lv = lists_view(*lists);
    proof {
        assert forall|f: int| 0 <= f < 7 implies lv[f][i as int].len() == (#[trigger] lists@[f])@[i as int]@.len() by {
            lemma_lists_cell(*lists, f, i as int);
        }
    }
    let n = lists[0][i].len();
    let mut f: usize = 1;
    while f < PRECURSOR_FIELDS
        invariant
            lv == lists_view(*lists),
            lists.len() == 9,
            forall|k: int| 0 <= k < 9 ==> i < (#[trigger] lists@[k]).len(),
            forall|g: int| 0 <= g < 7 ==> lv[g][i as int].len() == (#[trigger] lists@[g])@[i as int]@.len(),
            n == lv[0][i as int].len(),
            1 <= f <= 7,
            forall|g: int| 0 <= g < f ==> (#[trigger] lv[g])[i as int].len() == n,
        decreases 7 - f,
    {
        if lists[f][i].len() != n {
            proof {
                assert forall|ps: Seq<PrecursorView>| !precursor_rows_match(lv, i as int, ps) by {
                    if precursor_rows_match(lv, i as int, ps) {
                        assert(lv[0][i as int] == field_row(ps, 0));
                        assert(lv[f as int][i as int] == field_row(ps, f as int));
                    }
                }
            }
            return None;
        }
        f += 1;
    }
    let mut out: Vec<Precursor> = Vec::new();
    let mut j: usize = 0;
    while j < n
        invariant
            lv == lists_view(*lists),
            lists.len() == 9,
            forall|k: int| 0 <= k < 9 ==> i < (#[trigger] lists@[k]).len(),
            forall|g: int| 0 <= g < 7 ==> lv[g][i as int].len() == (#[trigger] lists@[g])@[i as int]@.len(),
            forall|g: int| 0 <= g < 7 ==> (#[trigger] lv[g])[i as int].len() == n,
            j <= n,
            out.len() == j,
            forall|t: int| 0 <= t < j ==> precursor_matches(lv, i as int, t, (#[trigger] out@[t])@),
        decreases n - j,
    {
        match decode_precursor(lists, i, j) {
            Some(p) => {
                out.push(p);
            },
            None => {
                proof {
                    assert forall|ps: Seq<PrecursorView>| !precursor_rows_match(lv, i as int, ps) by {
                        if precursor_rows_match(lv, i as int, ps) {
                            let pv = ps[j as int];
                            assert(lv[0][i as int] == field_row(ps, 0));
                            assert forall|g: int| 0 <= g < 7 implies lv[g][i as int][j as int]
                                == #[trigger] precursor_field(pv, g) by {
                                assert(lv[g][i as int] == field_row(ps, g));
                            }
                            assert(precursor_matches(lv, i as int, j as int, pv));
                        }
                    }
                }
                return None;
            },
        }
        j += 1;
    }
    proof {
        let ov = precursors_view(out@);
        assert forall|g: int| 0 <= g < 7 implies lv[g][i as int] == #[trigger] field_row(ov, g) by {
            assert forall|t: int| 0 <= t < n implies lv[g][i as int][t] == field_row(ov, g)[t] by {
                assert(precursor_matches(lv, i as int, t, out@[t]@));
            }
            assert(lv[g][i as int] =~= field_row(ov, g));
        }
    }
    Some(out)
}


/// Reads scans back from the wide layout: checks the column count and that
/// every column holds one row per scan, reassembles each list column from
/// its levels, then each scan from its row. Succeeds exactly on the columns
/// that some well-formed scans encode to, and gives back those scans.
pub fn decode_wide(cols: &Vec<Vec<Slot>>) -> (r: Result<Vec<RawSpectrum>, DecodeError>)
    ensures
        r is Ok <==> in_wide_image(columns_view(*cols)),
        r matches Ok(v) ==> decode_wide_spec(columns_view(*cols)) == Some(spectra_view(v)),
{
    let ghost cv = columns_view(*cols);
    let ghost img = in_wide_image(cv);
    let ghost s0: Seq<SpectrumView> = choose|s: Seq<SpectrumView>| spectra_wf(s) && wide_columns(s) == cv;
    if cols.len() != WIDE_COLUMNS {
        proof {
            if img {
                assert(wide_columns(s0).len() == 17);
            }
        }
        return Err(DecodeError::ColumnCount(cols.len()));
    }
    proof {
        assert forall|c: int| 0 <= c < 17 implies #[trigger] cv[c] == slots_view(cols@[c]@) && cv[c].len() == cols@[c]@.len() by {
        }
        if img {
            assert forall|c: int| 0 <= c < 8 implies (#[trigger] cv[c]).len() == s0.len() by {
                assert(cv[c] == wide_columns(s0)[c]);
            }
        }
    }
    let n = cols[0].len();
    let mut c: usize = 1;
    while c < SCAN_FIELDS
        invariant
            cv == columns_view(*cols),
            cols.len() == 17,
            forall|c: int| 0 <= c < 17 ==> #[trigger] cv[c] == slots_view(cols@[c]@) && cv[c].len() == cols@[c]@.len(),
            img == in_wide_image(cv),
            img ==> forall|c: int| 0 <= c < 8 ==> (#[trigger] cv[c]).len() == s0.len(),
            img ==> spectra_wf(s0) && wide_columns(s0) == cv,
            n == cols@[0].len(),
            1 <= c <= 8,
            forall|d: int| 0 <= d < c ==> (#[trigger] cols@[d]).len() == n,
        decreases 8 - c,
    {
        if cols[c].len() != n {
            proof {
                if img {
                    assert(cv[c as int].len() == s0.len());
                    assert(cv[0].len() == s0.len());
                }
            }
            return Err(DecodeError::RowCount(c));
        }
        c += 1;
    }
    proof {
        if img {
            assert(cv[0].len() == s0.len());
        }
    }
    let mut lists: Vec<Vec<Vec<Option<Value>>>> = Vec::new();
    let mut k: usize = 0;
    while k < 9
        invariant
            cv == columns_view(*cols),
            cols.len() == 17,
            forall|c: int| 0 <= c < 17 ==> #[trigger] cv[c] == slots_view(cols@[c]@) && cv[c].len() == cols@[c]@.len(),
            img == in_wide_image(cv),
            img ==> spectra_wf(s0) && wide_columns(s0) == cv && s0.len() == n,
            forall|d: int| 0 <= d < 8 ==> (#[trigger] cols@[d]).len() == n,
            k <= 9,
            lists.len() == k,
            forall|d: int| 0 <= d < k ==> (#[trigger] lists@[d]).len() == n,
            forall|d: int| 0 <= d < k ==> (#[trigger] lists_view(lists)[d]).len() == n,
            forall|d: int| 0 <= d < k ==> encode_lists(#[trigger] lists_view(lists)[d], list_def(d)) == cv[8 + d],
            img ==> forall|d: int| 0 <= d < k ==> #[trigger] lists_view(lists)[d] == list_rows(s0, d),
        decreases 9 - k,
    {
        let max_def: i16 = if k == 0 { 2 } else if k < 7 { 3 } else { 1 };
        let rows = match decode_lists(&cols[8 + k], max_def) {
            Ok(rows) => rows,
            Err(e) => {
                proof {
                    if img {
                        lemma_list_rows_wf(s0, k as int);
                        assert(cv[8 + k] == wide_columns(s0)[8 + k]);
                    }
                }
                return Err(DecodeError::Levels(8 + k, e));
            },
        };
        proof {
            if img {
                lemma_list_rows_wf(s0, k as int);
                assert(cv[8 + k] == wide_columns(s0)[8 + k]);
                lemma_encode_lists_injective(rows_view(rows), list_rows(s0, k as int), max_def);
            }
        }
        if rows.len() != n {
            return Err(DecodeError::RowCount(8 + k));
        }
        let ghost old_lv = lists_view(lists);
        let ghost rv = rows_view(rows);
        lists.push(rows);
        proof {
            assert(lists_view(lists) =~= old_lv.push(rv));
            assert(max_def == list_def(k as int));
            assert(cv[8 + k as int] == slots_view(cols@[8 + k as int]@));
            assert(encode_lists(rv, max_def) == cv[8 + k as int]);
            assert forall|d: int| 0 <= d < k + 1 implies (#[trigger] lists_view(lists)[d]).len() == n
                && encode_lists(lists_view(lists)[d], list_def(d)) == cv[8 + d] by {
                if d < k {
                    assert(lists_view(lists)[d] == old_lv[d]);
                }
            }
        }
        k += 1;
    }
    let ghost lv = lists_view(lists);
    let mut out: Vec<RawSpectrum> = Vec::new();
    let mut i: usize = 0;
    while i < n
        invariant
            cv == columns_view(*cols),
            lv == lists_view(lists),
            cols.len() == 17,
            lists.len() == 9,
            forall|c: int| 0 <= c < 17 ==> #[trigger] cv[c] == slots_view(cols@[c]@) && cv[c].len() == cols@[c]@.len(),
            img == in_wide_image(cv),
            img ==> spectra_wf(s0) && wide_columns(s0) == cv && s0.len() == n,
            img ==> forall|d: int| 0 <= d < 9 ==> #[trigger] lv[d] == list_rows(s0, d),
            forall|d: int| 0 <= d < 8 ==> (#[trigger] cols@[d]).len() == n,
            forall|d: int| 0 <= d < 9 ==> (#[trigger] lists@[d]).len() == n,
            forall|d: int| 0 <= d < 9 ==> (#[trigger] lv[d]).len() == n,
            forall|d: int| 0 <= d < 9 ==> encode_lists(#[trigger] lv[d], list_def(d)) == cv[8 + d],
            i <= n,
            out.len() == i,
            forall|t: int| 0 <= t < i ==> row_matches(cv, lv, t, (#[trigger] out@[t])@),
        decreases n - i,
    {
        proof {
            assert forall|d: int| 0 <= d < 9 implies i < (#[trigger] lists@[d]).len() by {
                assert(lv[d].len() == n);
            }
        }
        match decode_row(cols, &lists, i) {
            Some(sp) => {
                out.push(sp);
            },
            None => {
                proof {
                    if img {
                        let sv = s0[i as int];
                        assert forall|c: int| 0 <= c < 8 implies cv[c][i as int] == #[trigger] scalar_slot(scan_field(sv, c), scan_def(c)) by {
                            assert(cv[c] == wide_columns(s0)[c]);
                        }
                        assert forall|d: int| 0 <= d < 9 implies lv[d][i as int] == #[trigger] list_row(sv, d) by {
                            assert(lv[d] == list_rows(s0, d));
                        }
                        assert(row_matches(cv, lv, i as int, sv));
                    }
                }
                return Err(DecodeError::BadRow(i));
            },
        }
        i += 1;
    }
    proof {
        let ov = spectra_view(out);
        assert(spectra_wf(ov)) by {
            assert forall|t: int| 0 <= t < ov.len() implies crate::model::spectrum_wf(#[trigger] ov[t]) by {
                assert(row_matches(cv, lv, t, out@[t]@));
            }
        }
        assert forall|c: int| 0 <= c < 17 implies #[trigger] wide_columns(ov)[c] == cv[c] by {
            if c < 8 {
                assert forall|t: int| 0 <= t < n implies scalar_column(ov, c)[t] == cv[c][t] by {
                    assert(row_matches(cv, lv, t, out@[t]@));
                }
                assert(scalar_column(ov, c) =~= cv[c]);
            } else {
                let d = c - 8;
                lemma_list_rows_wf(ov, d);
                assert forall|t: int| 0 <= t < n implies list_rows(ov, d)[t] == lv[d][t] by {
                    assert(row_matches(cv, lv, t, out@[t]@));
                    assert(lv[d][t] == list_row(ov[t], d));
                }
                assert(list_rows(ov, d) =~= lv[d]);
            }
        }
        assert(wide_columns(ov) =~= cv);
        let t = choose|s: Seq<SpectrumView>| spectra_wf(s) && wide_columns(s) == cv;
        lemma_wide_injective(ov, t);
    }
    Ok(out)
}


fn u32s_eq(a: &Vec<u32>, b: &Vec<u32>) -> (r: bool)
    ensures
        r == (a@ == b@),
{
    if a.len() != b.len() {
        return false;
    }
    let mut i: usize = 0;
    while i < a.len()
        invariant
            a.len() == b.len(),
            i <= a.len(),
            forall|j: int| 0 <= j < i ==> a@[j] == b@[j],
        decreases a.len() - i,
    {
        if a[i] != b[i] {
            return false;
        }
        i += 1;
    }
    proof {
        assert(a@ =~= b@);
    }
    true
}

fn opt_bytes_eq(a: &Option<Vec<u8>>, b: &Option<Vec<u8>>) -> (r: bool)
    ensures
        r == (crate::model::opt_bytes_view(*a) == crate::model::opt_bytes_view(*b)),
{
    match (a, b) {
        (Some(x), Some(y)) => crate::long::bytes_eq(x, y),
        (None, None) => true,
        _ => false,
    }
}

fn precursor_eq(a: &Precursor, b: &Precursor) -> (r: bool)
    ensures
        r == (a@ == b@),
{
    a.mz == b.mz && a.charge == b.charge && a.intensity == b.intensity && a.isolation_window_target
        == b.isolation_window_target && a.isolation_window_lower == b.isolation_window_lower
        && a.isolation_window_upper == b.isolation_window_upper && opt_bytes_eq(&a.spectrum_ref, &b.spectrum_ref)
}

/// Whether two scans are equal field for field, floats bit for bit.
pub fn spectrum_eq(a: &RawSpectrum, b: &RawSpectrum) -> (r: bool)
    ensures
        r == (a@ == b@),
{
    if !(crate::long::bytes_eq(&a.id, &b.id) && a.ms_level == b.ms_level && a.centroid == b.centroid
        && a.scan_start_time == b.scan_start_time && a.collision_energy == b.collision_energy
        && a.inverse_ion_mobility == b.inverse_ion_mobility && a.ion_injection_time == b.ion_injection_time
        && a.total_ion_current == b.total_ion_current && u32s_eq(&a.mz, &b.mz) && u32s_eq(&a.intensity, &b.intensity)) {
        return false;
    }
    if a.precursors.len() != b.precursors.len() {
        proof {
            assert(a@.precursors.len() != b@.precursors.len());
        }
        return false;
    }
    let mut i: usize = 0;
    while i < a.precursors.len()
        invariant
            a.precursors.len() == b.precursors.len(),
            i <= a.precursors.len(),
            forall|j: int| 0 <= j < i ==> a.precursors@[j]@ == b.precursors@[j]@,
        decreases a.precursors.len() - i,
    {
        if !precursor_eq(&a.precursors[i], &b.precursors[i]) {
            proof {
                assert(a@.precursors[i as int] != b@.precursors[i as int]);
            }
            return false;
        }
        i += 1;
    }
    proof {
        assert(a@.precursors =~= b@.precursors);
    }
    true
}

/// Why a written file does not read back as what was written.
#[derive(Debug, Clone, Copy, PartialEq, Eq)]
pub enum VerifyError {
    /// The columns do not decode.
    Decode(DecodeError),
    /// They decode to this many scans instead of the number written.
    CountMismatch(usize),
    /// The scan at this position differs from the one written.
    Mismatch(usize),
}

/// Reads back the columns that were written and compares them, scan by scan
/// and field by field, with the scans that were written. Succeeds exactly
/// when they decode to those scans.
pub fn verify_round_trip(written: &Vec<RawSpectrum>, cols: &Vec<Vec<Slot>>) -> (r: Result<(), VerifyError>)
    ensures
        r is Ok <==> decode_wide_spec(columns_view(*cols)) == Some(spectra_view(*written)),
{
    let decoded = match decode_wide(cols) {
        Ok(d) => d,
        Err(e) => {
            return Err(VerifyError::Decode(e));
        },
    };
    if decoded.len() != written.len() {
        proof {
            assert(spectra_view(decoded).len() != spectra_view(*written).len());
        }
        return Err(VerifyError::CountMismatch(decoded.len()));
    }
    let ghost dv = spectra_view(decoded);
    let ghost ov = spectra_view(*written);
    let mut i: usize = 0;
    while i < written.len()
        invariant
            dv == spectra_view(decoded),
            ov == spectra_view(*written),
            decode_wide_spec(columns_view(*cols)) == Some(dv),
            decoded.len() == written.len(),
            i <= written.len(),
            forall|j: int| 0 <= j < i ==> dv[j] == ov[j],
        decreases written.len() - i,
    {
        if !spectrum_eq(&decoded[i], &written[i]) {
            proof {
                assert(dv[i as int] == decoded@[i as int]@);
                assert(ov[i as int] == written@[i as int]@);
                assert(dv[i as int] != ov[i as int]);
                assert(dv != ov);
            }
            return Err(VerifyError::Mismatch(i));
        }
        i += 1;
    }
    proof {
        assert(dv =~= ov);
    }
    Ok(())
}

} // verus!
