use vstd::prelude::*;

verus! {

/// Metadata of the ion selected for fragmentation. Floating-point fields are
/// held as IEEE-754 bit patterns.
#[derive(Debug, Clone)]
pub struct Precursor {
    pub mz: u32,
    pub charge: Option<i32>,
    pub intensity: Option<u32>,
    pub isolation_window_target: Option<u32>,
    pub isolation_window_lower: Option<u32>,
    pub isolation_window_upper: Option<u32>,
    /// The `id` of an earlier scan, the one that was fragmented.
    pub spectrum_ref: Option<Vec<u8>>,
}

pub struct PrecursorView {
    pub mz: u32,
    pub charge: Option<i32>,
    pub intensity: Option<u32>,
    pub isolation_window_target: Option<u32>,
    pub isolation_window_lower: Option<u32>,
    pub isolation_window_upper: Option<u32>,
    pub spectrum_ref: Option<Seq<u8>>,
}

pub open spec fn opt_bytes_view(o: Option<Vec<u8>>) -> Option<Seq<u8>> {
    match o {
        Some(b) => Some(b@),
        None => None,
    }
}

impl View for Precursor {
    type V = PrecursorView;

    open spec fn view(&self) -> PrecursorView {
        PrecursorView {
            mz: self.mz,
            charge: self.charge,
            intensity: self.intensity,
            isolation_window_target: self.isolation_window_target,
            isolation_window_lower: self.isolation_window_lower,
            isolation_window_upper: self.isolation_window_upper,
            spectrum_ref: opt_bytes_view(self.spectrum_ref),
        }
    }
}

pub open spec fn precursors_view(ps: Seq<Precursor>) -> Seq<PrecursorView> {
    ps.map_values(|p: Precursor| p@)
}

/// One acquisition scan. Floating-point fields are held as IEEE-754 bit
/// patterns; `mz[i]` pairs with `intensity[i]`.
#[derive(Debug, Clone)]
pub struct RawSpectrum {
    pub id: Vec<u8>,
    pub ms_level: u8,
    pub centroid: bool,
    pub scan_start_time: u32,
    pub collision_energy: Option<u32>,
    pub inverse_ion_mobility: Option<u32>,
    pub ion_injection_time: u32,
    pub total_ion_current: u32,
    pub precursors: Vec<Precursor>,
    pub mz: Vec<u32>,
    pub intensity: Vec<u32>,
}

pub struct SpectrumView {
    pub id: Seq<u8>,
    pub ms_level: u8,
    pub centroid: bool,
    pub scan_start_time: u32,
    pub collision_energy: Option<u32>,
    pub inverse_ion_mobility: Option<u32>,
    pub ion_injection_time: u32,
    pub total_ion_current: u32,
    pub precursors: Seq<PrecursorView>,
    pub mz: Seq<u32>,
    pub intensity: Seq<u32>,
}

impl View for RawSpectrum {
    type V = SpectrumView;

    open spec fn view(&self) -> SpectrumView {
        SpectrumView {
            id: self.id@,
            ms_level: self.ms_level,
            centroid: self.centroid,
            scan_start_time: self.scan_start_time,
            collision_energy: self.collision_energy,
            inverse_ion_mobility: self.inverse_ion_mobility,
            ion_injection_time: self.ion_injection_time,
            total_ion_current: self.total_ion_current,
            precursors: precursors_view(self.precursors@),
            mz: self.mz@,
            intensity: self.intensity@,
        }
    }
}

/// The structural invariant of a scan: one intensity for each m/z value.
pub open spec fn spectrum_wf(s: SpectrumView) -> bool {
    s.mz.len() == s.intensity.len()
}

pub open spec fn spectra_view(v: Vec<RawSpectrum>) -> Seq<SpectrumView> {
    v@.map_values(|s: RawSpectrum| s@)
}

pub open spec fn spectra_wf(s: Seq<SpectrumView>) -> bool {
    forall|i: int| 0 <= i < s.len() ==> spectrum_wf(#[trigger] s[i])
}

} // verus!
