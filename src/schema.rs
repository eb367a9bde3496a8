use vstd::prelude::*;
use crate::levels::{consistent, lemma_encode_lists_consistent};
use crate::model::SpectrumView;
use crate::wide::{scalar_column, wide_column};

verus! {

/// The physical type of a column's values.
#[derive(Clone, Copy, Debug, PartialEq, Eq, Structural)]
pub enum PhysicalType {
    Int32,
    Float,
    Boolean,
    ByteArray,
}

/// One leaf column of a layout: its path, its physical type and its
/// maximum definition and repetition levels.
pub struct ColumnSpec {
    pub path: String,
    pub physical: PhysicalType,
    pub max_def: i16,
    pub max_rep: i16,
}

/// The path of column `c` of the wide layout.
pub open spec fn wide_path(c: int) -> Seq<char> {
    if c == 0 {
        "id"@
    } else if c == 1 {
        "ms_level"@
    } else if c == 2 {
        "centroid"@
    } else if c == 3 {
        "scan_start_time"@
    } else if c == 4 {
        "collision_energy"@
    } else if c == 5 {
        "inverse_ion_mobility"@
    } else if c == 6 {
        "ion_injection_time"@
    } else if c == 7 {
        "total_ion_current"@
    } else if c == 8 {
        "precursors.list.element.selected_ion_mz"@
    } else if c == 9 {
        "precursors.list.element.selected_ion_charge"@
    } else if c == 10 {
        "precursors.list.element.selected_ion_intensity"@
    } else if c == 11 {
        "precursors.list.element.isolation_window_target"@
    } else if c == 12 {
        "precursors.list.element.isolation_window_lower"@
    } else if c == 13 {
        "precursors.list.element.isolation_window_upper"@
    } else if c == 14 {
        "precursors.list.element.spectrum_ref"@
    } else if c == 15 {
        "mz.list.element"@
    } else {
        "intensity.list.element"@
    }
}

pub open spec fn wide_physical(c: int) -> PhysicalType {
    if c == 0 || c == 14 {
        PhysicalType::ByteArray
    } else if c == 1 || c == 9 {
        PhysicalType::Int32
    } else if c == 2 {
        PhysicalType::Boolean
    } else {
        PhysicalType::Float
    }
}

/// Maximum definition level of column `c` of the wide layout: as the
/// encoder writes it.
pub open spec fn wide_max_def(c: int) -> i16 {
    if c == 4 || c == 5 || c >= 15 {
        1
    } else if c < 8 {
        0
    } else if c == 8 {
        2
    } else {
        3
    }
}

pub open spec fn wide_max_rep(c: int) -> i16 {
    if c < 8 { 0 } else { 1 }
}

/// The path of column `c` of the long layout.
pub open spec fn long_path(c: int) -> Seq<char> {
    if c == 0 {
        "scan"@
    } else if c == 1 {
        "level"@
    } else if c == 2 {
        "rt"@
    } else if c == 3 {
        "mz"@
    } else if c == 4 {
        "intensity"@
    } else if c == 5 {
        "collision_energy"@
    } else if c == 6 {
        "ion_mobility"@
    } else if c == 7 {
        "isolation_lower"@
    } else if c == 8 {
        "isolation_upper"@
    } else if c == 9 {
        "precursor_scan"@
    } else if c == 10 {
        "precursor_mz"@
    } else {
        "precursor_charge"@
    }
}

pub open spec fn long_physical(c: int) -> PhysicalType {
    if c == 0 || c == 1 || c == 4 || c == 9 || c == 11 {
        PhysicalType::Int32
    } else {
        PhysicalType::Float
    }
}

pub open spec fn long_max_def(c: int) -> i16 {
    if c < 5 { 0 } else { 1 }
}

fn column(path: &str, physical: PhysicalType, max_def: i16, max_rep: i16) -> (r: ColumnSpec)
    ensures
        r.path@ == path@,
        r.physical == physical,
        r.max_def == max_def,
        r.max_rep == max_rep,
{
    ColumnSpec { path: path.to_owned(), physical, max_def, max_rep }
}

/// The wide layout, one row per scan, in its fixed column order.
pub fn wide_schema() -> (r: Vec<ColumnSpec>)
    ensures
        r.len() == 17,
        forall|c: int| 0 <= c < 17 ==> (#[trigger] r@[c]).path@ == wide_path(c) && r@[c].physical == wide_physical(c)
            && r@[c].max_def == wide_max_def(c) && r@[c].max_rep == wide_max_rep(c),
{
    let mut r: Vec<ColumnSpec> = Vec::new();
    r.push(column("id", PhysicalType::ByteArray, 0, 0));
    r.push(column("ms_level", PhysicalType::Int32, 0, 0));
    r.push(column("centroid", PhysicalType::Boolean, 0, 0));
    r.push(column("scan_start_time", PhysicalType::Float, 0, 0));
    r.push(column("collision_energy", PhysicalType::Float, 1, 0));
    r.push(column("inverse_ion_mobility", PhysicalType::Float, 1, 0));
    r.push(column("ion_injection_time", PhysicalType::Float, 0, 0));
    r.push(column("total_ion_current", PhysicalType::Float, 0, 0));
    r.push(column("precursors.list.element.selected_ion_mz", PhysicalType::Float, 2, 1));
    r.push(column("precursors.list.element.selected_ion_charge", PhysicalType::Int32, 3, 1));
    r.push(column("precursors.list.element.selected_ion_intensity", PhysicalType::Float, 3, 1));
    r.push(column("precursors.list.element.isolation_window_target", PhysicalType::Float, 3, 1));
    r.push(column("precursors.list.element.isolation_window_lower", PhysicalType::Float, 3, 1));
    r.push(column("precursors.list.element.isolation_window_upper", PhysicalType::Float, 3, 1));
    r.push(column("precursors.list.element.spectrum_ref", PhysicalType::ByteArray, 3, 1));
    r.push(column("mz.list.element", PhysicalType::Float, 1, 1));
    r.push(column("intensity.list.element", PhysicalType::Float, 1, 1));
    proof {
        assert forall|c: int| 0 <= c < 17 implies (#[trigger] r@[c]).path@ == wide_path(c) && r@[c].physical
            == wide_physical(c) && r@[c].max_def == wide_max_def(c) && r@[c].max_rep == wide_max_rep(c) by {
            reveal_strlit("id");
            reveal_strlit("ms_level");
            reveal_strlit("centroid");
            reveal_strlit("scan_start_time");
            reveal_strlit("collision_energy");
            reveal_strlit("inverse_ion_mobility");
            reveal_strlit("ion_injection_time");
            reveal_strlit("total_ion_current");
            reveal_strlit("precursors.list.element.selected_ion_mz");
            reveal_strlit("precursors.list.element.selected_ion_charge");
            reveal_strlit("precursors.list.element.selected_ion_intensity");
            reveal_strlit("precursors.list.element.isolation_window_target");
            reveal_strlit("precursors.list.element.isolation_window_lower");
            reveal_strlit("precursors.list.element.isolation_window_upper");
            reveal_strlit("precursors.list.element.spectrum_ref");
            reveal_strlit("mz.list.element");
            reveal_strlit("intensity.list.element");
        }
    }
    r
}

/// The long layout, one row per measurement point, in its fixed column order.
pub fn long_schema() -> (r: Vec<ColumnSpec>)
    ensures
        r.len() == 12,
        forall|c: int| 0 <= c < 12 ==> (#[trigger] r@[c]).path@ == long_path(c) && r@[c].physical == long_physical(c)
            && r@[c].max_def == long_max_def(c) && r@[c].max_rep == 0,
{
    let mut r: Vec<ColumnSpec> = Vec::new();
    r.push(column("scan", PhysicalType::Int32, 0, 0));
    r.push(column("level", PhysicalType::Int32, 0, 0));
    r.push(column("rt", PhysicalType::Float, 0, 0));
    r.push(column("mz", PhysicalType::Float, 0, 0));
    r.push(column("intensity", PhysicalType::Int32, 0, 0));
    r.push(column("collision_energy", PhysicalType::Float, 1, 0));
    r.push(column("ion_mobility", PhysicalType::Float, 1, 0));
    r.push(column("isolation_lower", PhysicalType::Float, 1, 0));
    r.push(column("isolation_upper", PhysicalType::Float, 1, 0));
    r.push(column("precursor_scan", PhysicalType::Int32, 1, 0));
    r.push(column("precursor_mz", PhysicalType::Float, 1, 0));
    r.push(column("precursor_charge", PhysicalType::Int32, 1, 0));
    proof {
        assert forall|c: int| 0 <= c < 12 implies (#[trigger] r@[c]).path@ == long_path(c) && r@[c].physical
            == long_physical(c) && r@[c].max_def == long_max_def(c) && r@[c].max_rep == 0 by {
            reveal_strlit("scan");
            reveal_strlit("level");
            reveal_strlit("rt");
            reveal_strlit("mz");
            reveal_strlit("intensity");
            reveal_strlit("collision_energy");
            reveal_strlit("ion_mobility");
            reveal_strlit("isolation_lower");
            reveal_strlit("isolation_upper");
            reveal_strlit("precursor_scan");
            reveal_strlit("precursor_mz");
            reveal_strlit("precursor_charge");
        }
    }
    r
}

/// A file whose columns are not those of the expected layout.
#[derive(Debug, Clone, Copy, PartialEq, Eq)]
pub enum SchemaError {
    /// The file has this many columns.
    ColumnCount(usize),
    /// The column at this position is not the expected one.
    UnexpectedColumn(usize),
}

pub open spec fn same_column(a: ColumnSpec, b: ColumnSpec) -> bool {
    a.path@ == b.path@ && a.physical == b.physical && a.max_def == b.max_def && a.max_rep == b.max_rep
}

/// Checks, in order, that the columns found are the expected ones: same
/// count, and at each position the same path, type and maximum levels.
/// Stops at the first column that differs.
pub fn check_columns(expected: &Vec<ColumnSpec>, found: &Vec<ColumnSpec>) -> (r: Result<(), SchemaError>)
    ensures
        r is Ok <==> expected.len() == found.len() && forall|c: int| 0 <= c < expected.len() ==> same_column(
            #[trigger] expected@[c],
            found@[c],
        ),
        r matches Err(SchemaError::UnexpectedColumn(c)) ==> c < expected.len() && c < found.len() && !same_column(
            expected@[c as int],
            found@[c as int],
        ) && forall|d: int| 0 <= d < c ==> same_column(#[trigger] expected@[d], found@[d]),
        r matches Err(SchemaError::ColumnCount(n)) ==> n == found.len() && n != expected.len(),
{
    let mut c: usize = 0;
    while c < expected.len() && c < found.len()
        invariant
            c <= expected.len(),
            c <= found.len(),
            forall|d: int| 0 <= d < c ==> same_column(#[trigger] expected@[d], found@[d]),
        decreases expected.len() - c,
    {
        let a = &expected[c];
        let b = &found[c];
        if !(a.path == b.path && a.physical == b.physical && a.max_def == b.max_def && a.max_rep == b.max_rep) {
            return Err(SchemaError::UnexpectedColumn(c));
        }
        c += 1;
    }
    if expected.len() != found.len() {
        return Err(SchemaError::ColumnCount(found.len()));
    }
    Ok(())
}


/// Each column of the wide layout holds a value exactly at its entries at
/// the schema's maximum definition level, so splitting it into values and
/// levels for storage and joining them back gives it back.
pub proof fn lemma_wide_column_consistent(specs: Seq<SpectrumView>, c: int)
    requires
        0 <= c < 17,
    ensures
        consistent(wide_column(specs, c), wide_max_def(c)),
{
    if c < 8 {
        let col = scalar_column(specs, c);
        assert forall|i: int| 0 <= i < col.len() implies ((#[trigger] col[i]).value is Some <==> col[i].def == wide_max_def(c)) by {
        }
    } else if c < 15 {
        lemma_encode_lists_consistent(crate::wide::precursor_rows(specs, c - 8), wide_max_def(c));
    } else {
        lemma_encode_lists_consistent(crate::wide::peak_rows(specs, c == 16), 1);
    }
}

} // verus!
